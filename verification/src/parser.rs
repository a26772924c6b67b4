//! The parser: a text, a position in it, the scope of variables and the
//! list of imports met so far.

use crate::document::{
    document_at, lemma_document_resolved, lemma_document_sound, read_document, scope_resolved,
    texts_of,
};
use crate::structure::lemma_sound_object;
use crate::value::Tree;
use crate::error::SymError;
use crate::text::chars_of;
use crate::value::{Entries, Object, Value};
use vstd::prelude::*;

verus! {

/// A parser over one text.
pub struct Parser {
    input: Vec<char>,
    pos: usize,
    variables: Object,
    imports: Vec<String>,
}

impl Parser {
    /// The text that is parsed.
    pub closed spec fn text(&self) -> Seq<char> {
        self.input@
    }

    /// The position up to which the text has been read.
    pub closed spec fn position(&self) -> int {
        self.pos as int
    }

    /// The variables defined so far, with their values.
    pub closed spec fn scope(&self) -> Entries {
        self.variables@
    }

    /// The paths of the import directives met so far, in order.
    pub closed spec fn import_paths(&self) -> Seq<Seq<char>> {
        texts_of(self.imports@)
    }

    /// The position lies within the text.
    pub closed spec fn well_formed(&self) -> bool {
        self.pos <= self.input@.len()
    }

    /// A parser at the start of the text, with no variables.
    pub fn new(input: &str) -> (parser: Parser)
        ensures
            parser.well_formed(),
            parser.text() == input@,
            parser.position() == 0,
            parser.scope() == Entries::empty(),
            parser.import_paths() == Seq::<Seq<char>>::empty(),
    {
        let parser = Parser {
            input: chars_of(input),
            pos: 0,
            variables: Object::new(),
            imports: Vec::new(),
        };
        assert(parser.import_paths() =~= Seq::<Seq<char>>::empty());
        parser
    }

    /// A parser at the start of the text, with the variables given.
    pub fn with_vars(input: &str, vars: Object) -> (parser: Parser)
        ensures
            parser.well_formed(),
            parser.text() == input@,
            parser.position() == 0,
            parser.scope() == vars@,
            parser.import_paths() == Seq::<Seq<char>>::empty(),
    {
        let parser = Parser { input: chars_of(input), pos: 0, variables: vars, imports: Vec::new() };
        assert(parser.import_paths() =~= Seq::<Seq<char>>::empty());
        parser
    }

    /// Parses the document that the text holds from the parser's position
    /// on, and returns its value.
    ///
    /// After a success the parser stands at the end of the text, its scope
    /// holds the document's definitions too, and the document's imports
    /// are added to its list. After a failure it is as it was.
    pub fn parse(&mut self) -> (r: Result<Value, SymError>)
        requires
            old(self).well_formed(),
        ensures
            final(self).well_formed(),
            final(self).text() == old(self).text(),
            match document_at(old(self).text(), old(self).position(), old(self).scope()) {
                Ok(document) => {
                    &&& r matches Ok(value)
                    &&& value@ == document.value
                    &&& final(self).position() == old(self).text().len()
                    &&& final(self).scope() == document.scope
                    &&& final(self).import_paths() == old(self).import_paths() + document.imports
                },
                Err(failure) => {
                    &&& r matches Err(error)
                    &&& error@ == failure
                    &&& final(self).position() == old(self).position()
                    &&& final(self).scope() == old(self).scope()
                    &&& final(self).import_paths() == old(self).import_paths()
                },
            },
            scope_resolved(old(self).scope()) ==> scope_resolved(final(self).scope()) && (
            r matches Ok(value) ==> value@.resolved()),
            Tree::Object(old(self).scope()).sound() ==> Tree::Object(final(self).scope()).sound()
                && (r matches Ok(value) ==> value@.sound()),
    {
        proof {
            if scope_resolved(self.scope()) {
                lemma_document_resolved(self.text(), self.position(), self.scope());
            }
            if Tree::Object(self.scope()).sound() {
                lemma_document_sound(self.text(), self.position(), self.scope());
            }
        }
        let mut scope = self.variables.deep_copy();
        match read_document(self.input.as_slice(), self.pos, &mut scope) {
            Ok(reading) => {
                let mut found = reading.imports;
                proof {
                    assert(texts_of(self.imports@ + found@) =~= texts_of(self.imports@) + texts_of(
                        found@,
                    ));
                }
                self.imports.append(&mut found);
                self.variables = scope;
                self.pos = reading.end;
                Ok(reading.value)
            },
            Err(error) => Err(error),
        }
    }

    /// The paths of the import directives met so far, in order.
    pub fn imports(&self) -> (paths: &Vec<String>)
        ensures
            texts_of(paths@) == self.import_paths(),
    {
        &self.imports
    }

    /// The variables defined so far.
    pub fn variables(&self) -> (scope: &Object)
        ensures
            scope@ == self.scope(),
    {
        &self.variables
    }
}

/// Parses a document and returns its value.
pub fn parse(input: &str) -> (r: Result<Value, SymError>)
    ensures
        match document_at(input@, 0, Entries::empty()) {
            Ok(document) => r matches Ok(value) && value@ == document.value,
            Err(failure) => r matches Err(error) && error@ == failure,
        },
        r matches Ok(value) ==> value@.resolved() && value@.sound(),
{
    let mut parser = Parser::new(input);
    proof {
        lemma_sound_object(Entries::empty());
    }
    parser.parse()
}

/// Parses a document with variables that are defined beforehand, and
/// returns its value.
pub fn parse_with_vars(input: &str, vars: Object) -> (r: Result<Value, SymError>)
    ensures
        match document_at(input@, 0, vars@) {
            Ok(document) => r matches Ok(value) && value@ == document.value,
            Err(failure) => r matches Err(error) && error@ == failure,
        },
        scope_resolved(vars@) ==> (r matches Ok(value) ==> value@.resolved()),
        Tree::Object(vars@).sound() ==> (r matches Ok(value) ==> value@.sound()),
{
    let mut parser = Parser::with_vars(input, vars);
    parser.parse()
}

} // verus!
