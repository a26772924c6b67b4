//! Documents: import directives, then blocks. The blocks before the last
//! may define variables; the last block is the data, in which each
//! reference is replaced by the value of its variable.

use crate::cursor::{
    error_at, hspace_len, remaining, run_len, skip_horizontal_whitespace, skip_run,
    skip_whitespace_and_comments, syntax_error, trivia_len, CharClass,
};
use crate::error::{Failure, SymError};
use crate::scalar::is_identifier;
use crate::structure::{
    is_key, key_rule, lemma_sound_array, lemma_sound_object, lemma_value_sound, name_rule,
    parse_value, value_at,
};
use crate::text::{has_prefix_at, starts_with_at, string_of, trim, trimmed_bounds};
use crate::value::{
    has_key, index_of, lemma_first_at_unique, lemma_index_of, lemma_object_view,
    lemma_put_labelled, lemma_put_well_formed, lemma_trees_of, lemma_trees_of_push, put, trees_of,
    Entries, Entry, Object, Tree, Value,
};
use vstd::prelude::*;

verus! {

/// The word that begins an import directive.
pub open spec fn import_word() -> Seq<char> {
    seq!['@', 'i', 'm', 'p', 'o', 'r', 't']
}

/// The import directives from `p` on: their paths, in order, and the
/// number of characters that they take with the trivia behind each.
///
/// A directive is the word `@import`, spaces and tabs, and the rest of the
/// line, which is the path once it is trimmed.
pub open spec fn imports_from(s: Seq<char>, p: int) -> (Seq<Seq<char>>, nat)
    decreases remaining(s, p),
{
    if has_prefix_at(s, p, import_word()) {
        let a = p + 7 + hspace_len(s, p + 7);
        let n = run_len(s, a, CharClass::PathRest);
        let b = a + n + trivia_len(s, a + n);
        let rest = imports_from(s, b);
        (seq![trim(s.subrange(a, a + n))] + rest.0, (b - p + rest.1) as nat)
    } else {
        (Seq::empty(), 0)
    }
}

/// The blocks from `p` on, up to the end of the input: the values written
/// one after the other, trivia between them. A value that takes no
/// character (there is a `}` or `]` where it should begin) ends the parse.
pub open spec fn blocks_from(s: Seq<char>, p: int) -> Result<Seq<Tree>, Failure>
    decreases remaining(s, p),
{
    let q = p + trivia_len(s, p);
    if q < 0 || q >= s.len() {
        Ok(Seq::empty())
    } else {
        match value_at(s, q) {
            Err(failure) => Err(failure),
            Ok((block, n)) => if n == 0 {
                Err(syntax_error(s, q, "Unexpected character"@))
            } else {
                match blocks_from(s, q + n) {
                    Err(failure) => Err(failure),
                    Ok(rest) => Ok(seq![block] + rest),
                }
            },
        }
    }
}

/// Whether a key marks a definition: it begins with `$`.
pub open spec fn is_definition_key(key: Seq<char>) -> bool {
    key.len() > 0 && key[0] == '$'
}

/// Whether a block defines variables: it is an object with at least one
/// entry, and every key of it marks a definition.
pub open spec fn is_definitions(block: Tree) -> bool {
    &&& block is Object
    &&& block->Object_0.len() > 0
    &&& forall|i: int|
        0 <= i < block->Object_0.len() ==> is_definition_key(
            (#[trigger] block->Object_0[i]).0,
        )
}

/// Whether the key of a definition marks an override: it ends in `!`.
pub open spec fn overrides(key: Seq<char>) -> bool {
    key.len() > 1 && key.last() == '!'
}

/// The name that the key of a definition defines: the key without its `$`
/// and without the `!` of an override.
pub open spec fn defined_name(key: Seq<char>) -> Seq<char> {
    if overrides(key) {
        key.subrange(1, key.len() - 1)
    } else {
        key.subrange(1, key.len() as int)
    }
}

/// The tree with each reference `$name` in it taken as the string `$name`.
pub open spec fn literal(tree: Tree) -> Tree
    decreases tree,
{
    match tree {
        Tree::Ref(name) => Tree::Str(seq!['$'] + name),
        Tree::Array(items) => Tree::Array(literal_items(items)),
        Tree::Object(entries) => Tree::Object(literal_entries(entries)),
        _ => tree,
    }
}

/// The items, each taken literally.
pub open spec fn literal_items(items: Seq<Tree>) -> Seq<Tree>
    decreases items,
{
    if items.len() == 0 {
        Seq::empty()
    } else {
        literal_items(items.drop_last()).push(literal(items.last()))
    }
}

/// The entries, the value of each taken literally.
pub open spec fn literal_entries(entries: Entries) -> Entries
    decreases entries,
{
    if entries.len() == 0 {
        Seq::empty()
    } else {
        literal_entries(entries.drop_last()).push((entries.last().0, literal(entries.last().1)))
    }
}

/// The scope after one definition. A name that is defined already may
/// only be defined again by an override. The value is taken literally:
/// a reference in it is not followed.
pub open spec fn define(scope: Entries, key: Seq<char>, value: Tree) -> Result<Entries, Failure> {
    let name = defined_name(key);
    if has_key(scope, name) && !overrides(key) {
        Err(Failure::DuplicateVariable(name))
    } else {
        Ok(put(scope, name, literal(value)))
    }
}

/// The scope after the definitions of a block, in order.
pub open spec fn define_entries(scope: Entries, entries: Entries) -> Result<Entries, Failure>
    decreases entries.len(),
{
    if entries.len() == 0 {
        Ok(scope)
    } else {
        match define_entries(scope, entries.drop_last()) {
            Err(failure) => Err(failure),
            Ok(defined) => define(defined, entries.last().0, entries.last().1),
        }
    }
}

/// The scope after the blocks that come before the data, in order; a
/// block that defines nothing leaves it as it is.
pub open spec fn define_all(scope: Entries, blocks: Seq<Tree>) -> Result<Entries, Failure>
    decreases blocks.len(),
{
    if blocks.len() == 0 {
        Ok(scope)
    } else {
        match define_all(scope, blocks.drop_last()) {
            Err(failure) => Err(failure),
            Ok(defined) => if is_definitions(blocks.last()) {
                define_entries(defined, blocks.last()->Object_0)
            } else {
                Ok(defined)
            },
        }
    }
}

/// The tree with each reference replaced by the value of its variable.
/// The first reference, in the order of the text, to a name that the
/// scope does not hold is the failure.
pub open spec fn substitute(tree: Tree, scope: Entries) -> Result<Tree, Failure>
    decreases tree,
{
    match tree {
        Tree::Ref(name) => if has_key(scope, name) {
            Ok(scope[index_of(scope, name)].1)
        } else {
            Err(Failure::UndefinedVariable(name))
        },
        Tree::Array(items) => match substitute_items(items, scope) {
            Ok(done) => Ok(Tree::Array(done)),
            Err(failure) => Err(failure),
        },
        Tree::Object(entries) => match substitute_entries(entries, scope) {
            Ok(done) => Ok(Tree::Object(done)),
            Err(failure) => Err(failure),
        },
        _ => Ok(tree),
    }
}

/// The items with the references in them replaced, or the failure of
/// the first item that has one.
pub open spec fn substitute_items(items: Seq<Tree>, scope: Entries) -> Result<Seq<Tree>, Failure>
    decreases items,
{
    if items.len() == 0 {
        Ok(Seq::empty())
    } else {
        match substitute_items(items.drop_last(), scope) {
            Err(failure) => Err(failure),
            Ok(done) => match substitute(items.last(), scope) {
                Err(failure) => Err(failure),
                Ok(item) => Ok(done.push(item)),
            },
        }
    }
}

/// The entries with the references in their values replaced, or the
/// failure of the first entry that has one.
pub open spec fn substitute_entries(entries: Entries, scope: Entries) -> Result<Entries, Failure>
    decreases entries,
{
    if entries.len() == 0 {
        Ok(Seq::empty())
    } else {
        match substitute_entries(entries.drop_last(), scope) {
            Err(failure) => Err(failure),
            Ok(done) => match substitute(entries.last().1, scope) {
                Err(failure) => Err(failure),
                Ok(value) => Ok(done.push((entries.last().0, value))),
            },
        }
    }
}

/// What a document gives: the paths of its imports, the scope after its
/// definitions, and its value.
pub ghost struct Document {
    pub imports: Seq<Seq<char>>,
    pub scope: Entries,
    pub value: Tree,
}

/// The document that the input holds from `p` on, read with the scope.
///
/// There must be at least one block. The last block is the data, whatever
/// it looks like; the definitions of the blocks before it are added to the
/// scope; the document's value is the data with its references replaced.
pub open spec fn document_at(s: Seq<char>, p: int, scope: Entries) -> Result<Document, Failure> {
    let q = p + trivia_len(s, p);
    let imports = imports_from(s, q);
    match blocks_from(s, q + imports.1) {
        Err(failure) => Err(failure),
        Ok(blocks) => if blocks.len() == 0 {
            Err(syntax_error(s, s.len() as int, "Empty document"@))
        } else {
            match define_all(scope, blocks.drop_last()) {
                Err(failure) => Err(failure),
                Ok(defined) => match substitute(blocks.last(), defined) {
                    Err(failure) => Err(failure),
                    Ok(value) => Ok(Document { imports: imports.0, scope: defined, value }),
                },
            }
        }
    }
}

/// Whether every value of a scope is free of references.
pub open spec fn scope_resolved(scope: Entries) -> bool {
    forall|i: int| 0 <= i < scope.len() ==> (#[trigger] scope[i]).1.resolved()
}

/// A tree taken literally holds no reference.
pub proof fn lemma_literal_resolved(tree: Tree)
    ensures
        literal(tree).resolved(),
    decreases tree, 1int,
{
    match tree {
        Tree::Array(items) => {
            lemma_literal_items_resolved(items);
        },
        Tree::Object(entries) => {
            lemma_literal_entries_resolved(entries);
        },
        _ => {},
    }
}

proof fn lemma_literal_items_resolved(items: Seq<Tree>)
    ensures
        literal_items(items).len() == items.len(),
        forall|i: int| 0 <= i < items.len() ==> (#[trigger] literal_items(items)[i]).resolved(),
    decreases items, 0int,
{
    if items.len() > 0 {
        lemma_literal_items_resolved(items.drop_last());
        lemma_literal_resolved(items.last());
    }
}

proof fn lemma_literal_entries_resolved(entries: Entries)
    ensures
        literal_entries(entries).len() == entries.len(),
        forall|i: int|
            0 <= i < entries.len() ==> (#[trigger] literal_entries(entries)[i]).1.resolved(),
    decreases entries, 0int,
{
    if entries.len() > 0 {
        lemma_literal_entries_resolved(entries.drop_last());
        lemma_literal_resolved(entries.last().1);
    }
}

/// A scope whose values hold no reference stays so when a value without
/// a reference is put into it.
pub proof fn lemma_put_resolved(scope: Entries, key: Seq<char>, value: Tree)
    requires
        scope_resolved(scope),
        value.resolved(),
    ensures
        scope_resolved(put(scope, key, value)),
{
    if has_key(scope, key) {
        crate::value::lemma_index_of(scope, key);
    }
    let after = put(scope, key, value);
    assert forall|i: int| 0 <= i < after.len() implies (#[trigger] after[i]).1.resolved() by {
        if has_key(scope, key) {
            if i != index_of(scope, key) {
                assert(after[i] == scope[i]);
            }
        } else if i < scope.len() {
            assert(after[i] == scope[i]);
        }
    }
}

proof fn lemma_define_entries_resolved(scope: Entries, entries: Entries)
    requires
        scope_resolved(scope),
    ensures
        define_entries(scope, entries) matches Ok(defined) ==> scope_resolved(defined),
    decreases entries.len(),
{
    if entries.len() > 0 {
        lemma_define_entries_resolved(scope, entries.drop_last());
        match define_entries(scope, entries.drop_last()) {
            Ok(defined) => {
                lemma_literal_resolved(entries.last().1);
                lemma_put_resolved(
                    defined,
                    defined_name(entries.last().0),
                    literal(entries.last().1),
                );
            },
            Err(_) => {},
        }
    }
}

/// Definitions keep a scope free of references.
pub proof fn lemma_define_all_resolved(scope: Entries, blocks: Seq<Tree>)
    requires
        scope_resolved(scope),
    ensures
        define_all(scope, blocks) matches Ok(defined) ==> scope_resolved(defined),
    decreases blocks.len(),
{
    if blocks.len() > 0 {
        lemma_define_all_resolved(scope, blocks.drop_last());
        match define_all(scope, blocks.drop_last()) {
            Ok(defined) => {
                if is_definitions(blocks.last()) {
                    lemma_define_entries_resolved(defined, blocks.last()->Object_0);
                }
            },
            Err(_) => {},
        }
    }
}

/// Where no value of the scope holds a reference, a tree whose references
/// have been replaced holds none.
pub proof fn lemma_substitute_resolved(tree: Tree, scope: Entries)
    requires
        scope_resolved(scope),
    ensures
        substitute(tree, scope) matches Ok(done) ==> done.resolved(),
    decreases tree, 1int,
{
    match tree {
        Tree::Ref(name) => {
            if has_key(scope, name) {
                crate::value::lemma_index_of(scope, name);
            }
        },
        Tree::Array(items) => {
            lemma_substitute_items_resolved(items, scope);
        },
        Tree::Object(entries) => {
            lemma_substitute_entries_resolved(entries, scope);
        },
        _ => {},
    }
}

proof fn lemma_substitute_items_resolved(items: Seq<Tree>, scope: Entries)
    requires
        scope_resolved(scope),
    ensures
        substitute_items(items, scope) matches Ok(done) ==> done.len() == items.len() && forall|
            i: int,
        | 0 <= i < done.len() ==> (#[trigger] done[i]).resolved(),
    decreases items, 0int,
{
    if items.len() > 0 {
        lemma_substitute_items_resolved(items.drop_last(), scope);
        lemma_substitute_resolved(items.last(), scope);
    }
}

proof fn lemma_substitute_entries_resolved(entries: Entries, scope: Entries)
    requires
        scope_resolved(scope),
    ensures
        substitute_entries(entries, scope) matches Ok(done) ==> done.len() == entries.len()
            && forall|i: int| 0 <= i < done.len() ==> (#[trigger] done[i]).1.resolved(),
    decreases entries, 0int,
{
    if entries.len() > 0 {
        lemma_substitute_entries_resolved(entries.drop_last(), scope);
        lemma_substitute_resolved(entries.last().1, scope);
    }
}

/// No document leaves a reference in its value: where the scope that it
/// is read with holds none, neither does the value, nor the scope after
/// the document's definitions.
pub proof fn lemma_document_resolved(s: Seq<char>, p: int, scope: Entries)
    requires
        scope_resolved(scope),
    ensures
        document_at(s, p, scope) matches Ok(document) ==> document.value.resolved()
            && scope_resolved(document.scope),
{
    let q = p + trivia_len(s, p);
    let imports = imports_from(s, q);
    match blocks_from(s, q + imports.1) {
        Ok(blocks) => {
            if blocks.len() > 0 {
                lemma_define_all_resolved(scope, blocks.drop_last());
                match define_all(scope, blocks.drop_last()) {
                    Ok(defined) => {
                        lemma_substitute_resolved(blocks.last(), defined);
                    },
                    Err(_) => {},
                }
            }
        },
        Err(_) => {},
    }
}

/// A sound tree taken literally is sound.
pub proof fn lemma_literal_sound(tree: Tree)
    requires
        tree.sound(),
    ensures
        literal(tree).sound(),
    decreases tree, 1int,
{
    match tree {
        Tree::Array(items) => {
            lemma_sound_array(items);
            lemma_literal_items_sound(items);
            lemma_sound_array(literal_items(items));
        },
        Tree::Object(entries) => {
            lemma_sound_object(entries);
            lemma_literal_entries_sound(entries);
            let after = literal_entries(entries);
            assert forall|i: int, j: int| 0 <= i < j < after.len() implies (#[trigger] after[i]).0 != (
            #[trigger] after[j]).0 by {
                assert(after[i].0 == entries[i].0);
                assert(after[j].0 == entries[j].0);
            }
            lemma_sound_object(after);
        },
        _ => {},
    }
}

proof fn lemma_literal_items_sound(items: Seq<Tree>)
    requires
        forall|i: int| 0 <= i < items.len() ==> (#[trigger] items[i]).sound(),
    ensures
        literal_items(items).len() == items.len(),
        forall|i: int| 0 <= i < items.len() ==> (#[trigger] literal_items(items)[i]).sound(),
    decreases items, 0int,
{
    if items.len() > 0 {
        assert forall|i: int| 0 <= i < items.drop_last().len() implies (
        #[trigger] items.drop_last()[i]).sound() by {
            assert(items.drop_last()[i] == items[i]);
        }
        lemma_literal_items_sound(items.drop_last());
        assert(items.last() == items[items.len() - 1]);
        lemma_literal_sound(items.last());
    }
}

proof fn lemma_literal_entries_sound(entries: Entries)
    requires
        forall|i: int| 0 <= i < entries.len() ==> (#[trigger] entries[i]).1.sound(),
    ensures
        literal_entries(entries).len() == entries.len(),
        forall|i: int|
            0 <= i < entries.len() ==> (#[trigger] literal_entries(entries)[i]).0 == entries[i].0
                && literal_entries(entries)[i].1.sound(),
    decreases entries, 0int,
{
    if entries.len() > 0 {
        assert forall|i: int| 0 <= i < entries.drop_last().len() implies (
        #[trigger] entries.drop_last()[i]).1.sound() by {
            assert(entries.drop_last()[i] == entries[i]);
        }
        lemma_literal_entries_sound(entries.drop_last());
        assert(entries.last() == entries[entries.len() - 1]);
        lemma_literal_sound(entries.last().1);
    }
}

/// The name that the key of a definition defines is an identifier, where
/// the key is one that the parser makes.
pub proof fn lemma_defined_name(key: Seq<char>)
    requires
        is_key(key),
        is_definition_key(key),
    ensures
        is_identifier(defined_name(key)),
        is_key(defined_name(key)),
{
    if is_identifier(key.subrange(1, key.len() as int)) && key.len() >= 2 {
        let name = key.subrange(1, key.len() as int);
        assert(key.last() == name.last());
        assert(crate::text::is_ident_continue(name[name.len() - 1]));
    }
}

/// A sound scope stays sound when a sound value is put into it under a
/// key as the parser makes them.
pub proof fn lemma_put_sound(scope: Entries, key: Seq<char>, value: Tree)
    requires
        Tree::Object(scope).sound(),
        is_key(key),
        value.sound(),
    ensures
        Tree::Object(put(scope, key, value)).sound(),
{
    let keys = key_rule();
    assert(keys(key));
    lemma_put_well_formed(scope, key, value);
    lemma_put_labelled(scope, key, value, keys, name_rule());
}

proof fn lemma_define_entries_sound(scope: Entries, entries: Entries)
    requires
        Tree::Object(scope).sound(),
        forall|i: int|
            0 <= i < entries.len() ==> is_key((#[trigger] entries[i]).0) && is_definition_key(
                entries[i].0,
            ) && entries[i].1.sound(),
    ensures
        define_entries(scope, entries) matches Ok(defined) ==> Tree::Object(defined).sound(),
    decreases entries.len(),
{
    if entries.len() > 0 {
        assert forall|i: int| 0 <= i < entries.drop_last().len() implies is_key(
            (#[trigger] entries.drop_last()[i]).0,
        ) && is_definition_key(entries.drop_last()[i].0) && entries.drop_last()[i].1.sound() by {
            assert(entries.drop_last()[i] == entries[i]);
        }
        lemma_define_entries_sound(scope, entries.drop_last());
        match define_entries(scope, entries.drop_last()) {
            Ok(defined) => {
                assert(entries.last() == entries[entries.len() - 1]);
                lemma_literal_sound(entries.last().1);
                lemma_defined_name(entries.last().0);
                lemma_put_sound(
                    defined,
                    defined_name(entries.last().0),
                    literal(entries.last().1),
                );
            },
            Err(_) => {},
        }
    }
}

/// Definitions of sound blocks keep a scope sound.
pub proof fn lemma_define_all_sound(scope: Entries, blocks: Seq<Tree>)
    requires
        Tree::Object(scope).sound(),
        forall|i: int| 0 <= i < blocks.len() ==> (#[trigger] blocks[i]).sound(),
    ensures
        define_all(scope, blocks) matches Ok(defined) ==> Tree::Object(defined).sound(),
    decreases blocks.len(),
{
    if blocks.len() > 0 {
        assert forall|i: int| 0 <= i < blocks.drop_last().len() implies (
        #[trigger] blocks.drop_last()[i]).sound() by {
            assert(blocks.drop_last()[i] == blocks[i]);
        }
        lemma_define_all_sound(scope, blocks.drop_last());
        match define_all(scope, blocks.drop_last()) {
            Ok(defined) => {
                let block = blocks.last();
                assert(block == blocks[blocks.len() - 1]);
                if is_definitions(block) {
                    lemma_sound_object(block->Object_0);
                    lemma_define_entries_sound(defined, block->Object_0);
                }
            },
            Err(_) => {},
        }
    }
}

/// Where the tree and the scope are sound, so is the tree whose
/// references have been replaced.
pub proof fn lemma_substitute_sound(tree: Tree, scope: Entries)
    requires
        tree.sound(),
        Tree::Object(scope).sound(),
    ensures
        substitute(tree, scope) matches Ok(done) ==> done.sound(),
    decreases tree, 1int,
{
    match tree {
        Tree::Ref(name) => {
            if has_key(scope, name) {
                lemma_index_of(scope, name);
                lemma_sound_object(scope);
            }
        },
        Tree::Array(items) => {
            lemma_sound_array(items);
            lemma_substitute_items_sound(items, scope);
            match substitute_items(items, scope) {
                Ok(done) => {
                    lemma_sound_array(done);
                },
                Err(_) => {},
            }
        },
        Tree::Object(entries) => {
            lemma_sound_object(entries);
            lemma_substitute_entries_sound(entries, scope);
            match substitute_entries(entries, scope) {
                Ok(done) => {
                    assert forall|i: int, j: int| 0 <= i < j < done.len() implies (
                    #[trigger] done[i]).0 != (#[trigger] done[j]).0 by {
                        assert(done[i].0 == entries[i].0);
                        assert(done[j].0 == entries[j].0);
                    }
                    assert forall|i: int| 0 <= i < done.len() implies is_key(
                        (#[trigger] done[i]).0,
                    ) && done[i].1.sound() by {
                        assert(done[i].0 == entries[i].0);
                    }
                    lemma_sound_object(done);
                },
                Err(_) => {},
            }
        },
        _ => {},
    }
}

proof fn lemma_substitute_items_sound(items: Seq<Tree>, scope: Entries)
    requires
        forall|i: int| 0 <= i < items.len() ==> (#[trigger] items[i]).sound(),
        Tree::Object(scope).sound(),
    ensures
        substitute_items(items, scope) matches Ok(done) ==> done.len() == items.len() && forall|
            i: int,
        | 0 <= i < done.len() ==> (#[trigger] done[i]).sound(),
    decreases items, 0int,
{
    if items.len() > 0 {
        assert forall|i: int| 0 <= i < items.drop_last().len() implies (
        #[trigger] items.drop_last()[i]).sound() by {
            assert(items.drop_last()[i] == items[i]);
        }
        lemma_substitute_items_sound(items.drop_last(), scope);
        assert(items.last() == items[items.len() - 1]);
        lemma_substitute_sound(items.last(), scope);
    }
}

proof fn lemma_substitute_entries_sound(entries: Entries, scope: Entries)
    requires
        forall|i: int| 0 <= i < entries.len() ==> (#[trigger] entries[i]).1.sound(),
        Tree::Object(scope).sound(),
    ensures
        substitute_entries(entries, scope) matches Ok(done) ==> done.len() == entries.len()
            && forall|i: int|
            0 <= i < done.len() ==> (#[trigger] done[i]).0 == entries[i].0 && done[i].1.sound(),
    decreases entries, 0int,
{
    if entries.len() > 0 {
        assert forall|i: int| 0 <= i < entries.drop_last().len() implies (
        #[trigger] entries.drop_last()[i]).1.sound() by {
            assert(entries.drop_last()[i] == entries[i]);
        }
        lemma_substitute_entries_sound(entries.drop_last(), scope);
        assert(entries.last() == entries[entries.len() - 1]);
        lemma_substitute_sound(entries.last().1, scope);
    }
}

/// The blocks of a document are sound.
pub proof fn lemma_blocks_sound(s: Seq<char>, p: int)
    ensures
        blocks_from(s, p) matches Ok(blocks) ==> forall|i: int|
            0 <= i < blocks.len() ==> (#[trigger] blocks[i]).sound(),
    decreases remaining(s, p),
{
    let q = p + trivia_len(s, p);
    if 0 <= q < s.len() {
        lemma_value_sound(s, q);
        match value_at(s, q) {
            Ok((block, n)) => {
                if n > 0 {
                    lemma_blocks_sound(s, q + n);
                    match blocks_from(s, q + n) {
                        Ok(rest) => {
                            let blocks = seq![block] + rest;
                            assert forall|i: int| 0 <= i < blocks.len() implies (
                            #[trigger] blocks[i]).sound() by {
                                if i > 0 {
                                    assert(blocks[i] == rest[i - 1]);
                                }
                            }
                        },
                        Err(_) => {},
                    }
                }
            },
            Err(_) => {},
        }
    }
}

/// The value of a document is sound, and so is the scope after its
/// definitions, where the scope that it is read with is: no object has a
/// key twice, the keys of objects are identifiers or keys of
/// definitions, and symbols are named by identifiers.
pub proof fn lemma_document_sound(s: Seq<char>, p: int, scope: Entries)
    requires
        Tree::Object(scope).sound(),
    ensures
        document_at(s, p, scope) matches Ok(document) ==> document.value.sound() && Tree::Object(
            document.scope,
        ).sound(),
{
    let q = p + trivia_len(s, p);
    let imports = imports_from(s, q);
    lemma_blocks_sound(s, q + imports.1);
    match blocks_from(s, q + imports.1) {
        Ok(blocks) => {
            if blocks.len() > 0 {
                assert forall|i: int| 0 <= i < blocks.drop_last().len() implies (
                #[trigger] blocks.drop_last()[i]).sound() by {
                    assert(blocks.drop_last()[i] == blocks[i]);
                }
                lemma_define_all_sound(scope, blocks.drop_last());
                match define_all(scope, blocks.drop_last()) {
                    Ok(defined) => {
                        assert(blocks.last() == blocks[blocks.len() - 1]);
                        lemma_substitute_sound(blocks.last(), defined);
                    },
                    Err(_) => {},
                }
            }
        },
        Err(_) => {},
    }
}

/// The paths held by strings.
pub open spec fn texts_of(strings: Seq<String>) -> Seq<Seq<char>> {
    Seq::new(strings.len(), |i: int| strings[i]@)
}

/// Whether an import directive begins at `pos`.
pub fn check_import(input: &[char], pos: usize) -> (b: bool)
    requires
        pos <= input@.len(),
    ensures
        b == has_prefix_at(input@, pos as int, import_word()),
{
    proof {
        reveal_strlit("@import");
        assert("@import"@ =~= import_word());
    }
    starts_with_at(input, pos, "@import")
}

/// Reads the import directive at `pos`: its path and the position after
/// the line.
pub fn parse_import(input: &[char], pos: usize) -> (r: (String, usize))
    requires
        has_prefix_at(input@, pos as int, import_word()),
    ensures
        r.1 == pos + 7 + hspace_len(input@, pos + 7) + run_len(
            input@,
            pos + 7 + hspace_len(input@, pos + 7),
            CharClass::PathRest,
        ),
        r.0@ == trim(input@.subrange(pos + 7 + hspace_len(input@, pos + 7), r.1 as int)),
        pos + 7 <= r.1 <= input@.len(),
{
    let len = input.len();
    let a = skip_horizontal_whitespace(input, pos + 7);
    let end = skip_run(input, a, CharClass::PathRest);
    let (from, to) = trimmed_bounds(input, a, end, false);
    (string_of(input, from, to), end)
}

/// Reads the import directives from `pos` on.
fn parse_imports(input: &[char], pos: usize) -> (r: (Vec<String>, usize))
    requires
        pos <= input@.len(),
    ensures
        texts_of(r.0@) == imports_from(input@, pos as int).0,
        r.1 == pos + imports_from(input@, pos as int).1,
        pos <= r.1 <= input@.len(),
{
    let mut paths: Vec<String> = Vec::new();
    let mut i: usize = pos;
    proof {
        assert(texts_of(paths@) + imports_from(input@, pos as int).0 =~= imports_from(
            input@,
            pos as int,
        ).0);
    }
    while check_import(input, i)
        invariant
            pos <= i <= input@.len(),
            texts_of(paths@) + imports_from(input@, i as int).0 == imports_from(
                input@,
                pos as int,
            ).0,
            (i - pos) + imports_from(input@, i as int).1 == imports_from(input@, pos as int).1,
        decreases input@.len() - i,
    {
        let ghost before = texts_of(paths@);
        let ghost here = imports_from(input@, i as int);
        let (path, end) = parse_import(input, i);
        let next = skip_whitespace_and_comments(input, end);
        proof {
            let rest = imports_from(input@, next as int);
            assert(here.0 == seq![path@] + rest.0);
            assert(texts_of(paths@.push(path)) =~= before.push(path@));
            assert(before.push(path@) + rest.0 =~= before + (seq![path@] + rest.0));
        }
        paths.push(path);
        i = next;
    }
    (paths, i)
}

/// Reads blocks from `pos` on up to the end of the input.
fn parse_blocks(input: &[char], pos: usize) -> (r: Result<Vec<Value>, SymError>)
    requires
        pos <= input@.len(),
    ensures
        match blocks_from(input@, pos as int) {
            Ok(blocks) => r matches Ok(values) && trees_of(values@) == blocks,
            Err(failure) => r matches Err(error) && error@ == failure,
        },
{
    let len = input.len();
    let mut blocks: Vec<Value> = Vec::new();
    let mut i: usize = pos;
    loop
        invariant_except_break
            blocks_from(input@, pos as int) == (match blocks_from(input@, i as int) {
                Ok(rest) => Ok(trees_of(blocks@) + rest),
                Err(failure) => Err(failure),
            }),
        invariant
            len == input@.len(),
            pos <= i <= len,
        ensures
            blocks_from(input@, pos as int) == Ok::<Seq<Tree>, Failure>(trees_of(blocks@)),
        decreases len - i,
    {
        let q = skip_whitespace_and_comments(input, i);
        if q >= len {
            proof {
                assert(trees_of(blocks@) + Seq::<Tree>::empty() =~= trees_of(blocks@));
            }
            break ;
        }
        let (block, next) = match parse_value(input, q) {
            Ok(found) => found,
            Err(error) => {
                return Err(error);
            },
        };
        if next == q {
            return Err(error_at(input, q, "Unexpected character"));
        }
        proof {
            let rest = blocks_from(input@, next as int);
            lemma_trees_of_push(blocks@, block);
            if rest is Ok {
                assert(trees_of(blocks@).push(block@) + rest->Ok_0 =~= trees_of(blocks@) + (
                    seq![block@] + rest->Ok_0));
            }
        }
        blocks.push(block);
        i = next;
    }
    Ok(blocks)
}

fn check_definition_key(key: &String) -> (r: (bool, bool))
    ensures
        r.0 == is_definition_key(key@),
        r.1 == overrides(key@),
{
    let chars = crate::text::chars_of(key.as_str());
    let n = chars.len();
    (n > 0 && chars[0] == '$', n > 1 && chars[n - 1] == '!')
}

fn name_of(key: &String) -> (name: String)
    requires
        key@.len() > 0,
    ensures
        name@ == defined_name(key@),
{
    let chars = crate::text::chars_of(key.as_str());
    let n = chars.len();
    if n > 1 && chars[n - 1] == '!' {
        string_of(chars.as_slice(), 1, n - 1)
    } else {
        string_of(chars.as_slice(), 1, n)
    }
}

#[verifier::loop_isolation(false)]
fn check_definitions(block: &Value) -> (b: bool)
    ensures
        b == is_definitions(block@),
{
    match block {
        Value::Object(object) => {
            proof {
                lemma_object_view(*object);
            }
            if object.entries.len() == 0 {
                return false;
            }
            let mut i: usize = 0;
            while i < object.entries.len()
                invariant
                    i <= object.entries.len(),
                    object@.len() == object.entries@.len(),
                    forall|j: int|
                        0 <= j < object.entries@.len() ==> (#[trigger] object@[j]) == (
                            object.entries@[j].key@,
                            object.entries@[j].value@,
                        ),
                    forall|j: int| 0 <= j < i ==> is_definition_key((#[trigger] object@[j]).0),
                decreases object.entries.len() - i,
            {
                if !check_definition_key(&object.entries[i].key).0 {
                    assert(!is_definition_key(object@[i as int].0));
                    return false;
                }
                i += 1;
            }
            true
        },
        _ => false,
    }
}

/// The value with each reference in it taken as a string.
pub fn into_literal(value: Value) -> (r: Value)
    ensures
        r@ == literal(value@),
    decreases value,
{
    match value {
        Value::Ref(name) => {
            let mut text = String::new();
            text.push('$');
            text.append(name.as_str());
            assert(text@ =~= seq!['$'] + name@);
            Value::String(text)
        },
        Value::Array(items) => {
            let ghost all = items@;
            let mut done: Vec<Value> = Vec::new();
            proof {
                lemma_trees_of(all);
                assert(trees_of(all).take(0) =~= Seq::<Tree>::empty());
            }
            for item in it: items
                invariant
                    it.seq() == all,
                    trees_of(all).len() == all.len(),
                    forall|j: int|
                        0 <= j < all.len() ==> (#[trigger] trees_of(all)[j]) == all[j]@,
                    forall|j: int| 0 <= j < all.len() ==> decreases_to!(value => #[trigger] all[j]),
                    trees_of(done@) == literal_items(trees_of(all).take(it.index() as int)),
            {
                let ghost k = it.index() as int;
                let changed = into_literal(item);
                proof {
                    lemma_trees_of_push(done@, changed);
                    assert(trees_of(all).take(k + 1).drop_last() =~= trees_of(all).take(k));
                    assert(trees_of(all).take(k + 1).last() == all[k]@);
                }
                done.push(changed);
            }
            proof {
                assert(trees_of(all).take(all.len() as int) =~= trees_of(all));
            }
            Value::Array(done)
        },
        Value::Object(object) => {
            let ghost all = object.entries@;
            let ghost views = object@;
            let mut done = Object::new();
            proof {
                lemma_object_view(object);
                assert(views.take(0) =~= Entries::empty());
            }
            for entry in it: object.entries
                invariant
                    it.seq() == all,
                    views.len() == all.len(),
                    forall|j: int|
                        0 <= j < all.len() ==> (#[trigger] views[j]) == (
                            all[j].key@,
                            all[j].value@,
                        ),
                    forall|j: int| 0 <= j < all.len() ==> decreases_to!(value => #[trigger] all[j]),
                    done@ == literal_entries(views.take(it.index() as int)),
            {
                let ghost k = it.index() as int;
                let Entry { key, value: inner } = entry;
                let changed = into_literal(inner);
                proof {
                    assert(views.take(k + 1).drop_last() =~= views.take(k));
                    assert(views.take(k + 1).last() == views[k]);
                }
                done.push(key, changed);
            }
            proof {
                assert(views.take(all.len() as int) =~= views);
            }
            Value::Object(done)
        },
        other => other,
    }
}

/// Adds one definition to the scope.
fn define_variable(scope: &mut Object, key: String, value: Value) -> (r: Result<(), SymError>)
    requires
        is_definition_key(key@),
    ensures
        match define(old(scope)@, key@, value@) {
            Ok(defined) => r is Ok && final(scope)@ == defined,
            Err(failure) => r matches Err(error) && error@ == failure,
        },
{
    let overriding = check_definition_key(&key).1;
    let name = name_of(&key);
    if !overriding && scope.contains_key(name.as_str()) {
        return Err(SymError::DuplicateVariable(name));
    }
    scope.insert(name, into_literal(value));
    Ok(())
}

/// Adds the definitions of the blocks to the scope, in order.
#[verifier::loop_isolation(false)]
fn define_blocks(scope: &mut Object, blocks: Vec<Value>) -> (r: Result<(), SymError>)
    ensures
        match define_all(old(scope)@, trees_of(blocks@)) {
            Ok(defined) => r is Ok && final(scope)@ == defined,
            Err(failure) => r matches Err(error) && error@ == failure,
        },
{
    let ghost all = blocks@;
    let ghost views = trees_of(all);
    proof {
        lemma_trees_of(all);
        assert(views.take(0) =~= Seq::<Tree>::empty());
    }
    for block in it: blocks
        invariant
            it.seq() == all,
            views == trees_of(all),
            views.len() == all.len(),
            forall|j: int| 0 <= j < all.len() ==> (#[trigger] views[j]) == all[j]@,
            define_all(old(scope)@, views.take(it.index() as int)) == Ok::<Entries, Failure>(
                scope@,
            ),
    {
        let ghost k = it.index() as int;
        proof {
            assert(views.take(k + 1).drop_last() =~= views.take(k));
            assert(views.take(k + 1).last() == all[k]@);
        }
        if check_definitions(&block) {
            match block {
                Value::Object(object) => {
                    let ghost entries = object.entries@;
                    let ghost pairs = object@;
                    let ghost start = scope@;
                    proof {
                        lemma_object_view(object);
                        assert(pairs.take(0) =~= Entries::empty());
                    }
                    for entry in inner: object.entries
                        invariant
                            inner.seq() == entries,
                            pairs.len() == entries.len(),
                            forall|j: int|
                                0 <= j < entries.len() ==> (#[trigger] pairs[j]) == (
                                    entries[j].key@,
                                    entries[j].value@,
                                ),
                            forall|j: int|
                                0 <= j < pairs.len() ==> is_definition_key(
                                    (#[trigger] pairs[j]).0,
                                ),
                            define_entries(start, pairs.take(inner.index() as int)) == Ok::<
                                Entries,
                                Failure,
                            >(scope@),
                            pairs == all[k]@->Object_0,
                            views == trees_of(all),
                            0 <= k < all.len(),
                            views.len() == all.len(),
                            views[k] == all[k]@,
                            is_definitions(all[k]@),
                            define_all(old(scope)@, views.take(k)) == Ok::<Entries, Failure>(
                                start,
                            ),
                    {
                        let ghost m = inner.index() as int;
                        let Entry { key, value } = entry;
                        proof {
                            assert(pairs.take(m + 1).drop_last() =~= pairs.take(m));
                            assert(pairs.take(m + 1).last() == pairs[m]);
                            assert(views.take(k + 1).drop_last() =~= views.take(k));
                            assert(views.take(k + 1).last() == all[k]@);
                        }
                        let ghost before = scope@;
                        match define_variable(scope, key, value) {
                            Ok(()) => {},
                            Err(error) => {
                                proof {
                                    assert(define_entries(start, pairs.take(m + 1)) == define(
                                        before,
                                        pairs[m].0,
                                        pairs[m].1,
                                    ));
                                    lemma_define_entries_fails(start, pairs, m + 1);
                                    assert(define_all(old(scope)@, views.take(k + 1))
                                        == define_entries(start, pairs));
                                    lemma_define_all_fails(old(scope)@, views, k + 1);
                                }
                                return Err(error);
                            },
                        }
                    }
                    proof {
                        assert(pairs.take(entries.len() as int) =~= pairs);
                    }
                },
                _ => {},
            }
        }
    }
    proof {
        assert(views.take(all.len() as int) =~= views);
    }
    Ok(())
}

/// A failure among the first definitions is the failure of them all.
proof fn lemma_define_entries_fails(scope: Entries, entries: Entries, i: int)
    requires
        0 <= i <= entries.len(),
        define_entries(scope, entries.take(i)) is Err,
    ensures
        define_entries(scope, entries) == define_entries(scope, entries.take(i)),
    decreases entries.len() - i,
{
    if i == entries.len() {
        assert(entries.take(i) =~= entries);
    } else {
        assert(entries.take(i + 1).drop_last() =~= entries.take(i));
        lemma_define_entries_fails(scope, entries, i + 1);
    }
}

/// A failure among the first blocks is the failure of them all.
proof fn lemma_define_all_fails(scope: Entries, blocks: Seq<Tree>, i: int)
    requires
        0 <= i <= blocks.len(),
        define_all(scope, blocks.take(i)) is Err,
    ensures
        define_all(scope, blocks) == define_all(scope, blocks.take(i)),
    decreases blocks.len() - i,
{
    if i == blocks.len() {
        assert(blocks.take(i) =~= blocks);
    } else {
        assert(blocks.take(i + 1).drop_last() =~= blocks.take(i));
        lemma_define_all_fails(scope, blocks, i + 1);
    }
}

proof fn lemma_substitute_items_fails(items: Seq<Tree>, scope: Entries, i: int)
    requires
        0 <= i <= items.len(),
        substitute_items(items.take(i), scope) is Err,
    ensures
        substitute_items(items, scope) == substitute_items(items.take(i), scope),
    decreases items.len() - i,
{
    if i == items.len() {
        assert(items.take(i) =~= items);
    } else {
        assert(items.take(i + 1).drop_last() =~= items.take(i));
        lemma_substitute_items_fails(items, scope, i + 1);
    }
}

proof fn lemma_substitute_entries_fails(entries: Entries, scope: Entries, i: int)
    requires
        0 <= i <= entries.len(),
        substitute_entries(entries.take(i), scope) is Err,
    ensures
        substitute_entries(entries, scope) == substitute_entries(entries.take(i), scope),
    decreases entries.len() - i,
{
    if i == entries.len() {
        assert(entries.take(i) =~= entries);
    } else {
        assert(entries.take(i + 1).drop_last() =~= entries.take(i));
        lemma_substitute_entries_fails(entries, scope, i + 1);
    }
}

/// Replaces each reference in the value by a copy of the value that the
/// scope holds under its name.
#[verifier::loop_isolation(false)]
pub fn substitute_variables(value: Value, scope: &Object) -> (r: Result<Value, SymError>)
    ensures
        match substitute(value@, scope@) {
            Ok(tree) => r matches Ok(done) && done@ == tree,
            Err(failure) => r matches Err(error) && error@ == failure,
        },
    decreases value,
{
    match value {
        Value::Ref(name) => {
            match scope.find(name.as_str()) {
                Some(i) => {
                    proof {
                        lemma_first_at_unique(scope@, name@, i as int);
                    }
                    Ok(scope.entry(i).value().deep_copy())
                },
                None => Err(SymError::UndefinedVariable(name)),
            }
        },
        Value::Array(items) => {
            let ghost all = items@;
            let ghost views = trees_of(all);
            let mut done: Vec<Value> = Vec::new();
            proof {
                lemma_trees_of(all);
                assert(views.take(0) =~= Seq::<Tree>::empty());
            }
            for item in it: items
                invariant
                    it.seq() == all,
                    views == trees_of(all),
                    views.len() == all.len(),
                    forall|j: int| 0 <= j < all.len() ==> (#[trigger] views[j]) == all[j]@,
                    forall|j: int| 0 <= j < all.len() ==> decreases_to!(value => #[trigger] all[j]),
                    substitute_items(views.take(it.index() as int), scope@) == Ok::<
                        Seq<Tree>,
                        Failure,
                    >(trees_of(done@)),
            {
                let ghost k = it.index() as int;
                proof {
                    assert(views.take(k + 1).drop_last() =~= views.take(k));
                    assert(views.take(k + 1).last() == all[k]@);
                }
                match substitute_variables(item, scope) {
                    Ok(changed) => {
                        proof {
                            lemma_trees_of_push(done@, changed);
                        }
                        done.push(changed);
                    },
                    Err(error) => {
                        proof {
                            assert(substitute_items(views.take(k + 1), scope@) == Err::<
                                Seq<Tree>,
                                Failure,
                            >(error@));
                            lemma_substitute_items_fails(views, scope@, k + 1);
                        }
                        return Err(error);
                    },
                }
            }
            proof {
                assert(views.take(all.len() as int) =~= views);
            }
            Ok(Value::Array(done))
        },
        Value::Object(object) => {
            let ghost all = object.entries@;
            let ghost views = object@;
            let mut done = Object::new();
            proof {
                lemma_object_view(object);
                assert(views.take(0) =~= Entries::empty());
            }
            for entry in it: object.entries
                invariant
                    it.seq() == all,
                    views.len() == all.len(),
                    forall|j: int|
                        0 <= j < all.len() ==> (#[trigger] views[j]) == (
                            all[j].key@,
                            all[j].value@,
                        ),
                    forall|j: int| 0 <= j < all.len() ==> decreases_to!(value => #[trigger] all[j]),
                    substitute_entries(views.take(it.index() as int), scope@) == Ok::<
                        Entries,
                        Failure,
                    >(done@),
            {
                let ghost k = it.index() as int;
                let Entry { key, value: inner } = entry;
                proof {
                    assert(views.take(k + 1).drop_last() =~= views.take(k));
                    assert(views.take(k + 1).last() == views[k]);
                }
                match substitute_variables(inner, scope) {
                    Ok(changed) => {
                        done.push(key, changed);
                    },
                    Err(error) => {
                        proof {
                            assert(substitute_entries(views.take(k + 1), scope@) == Err::<
                                Entries,
                                Failure,
                            >(error@));
                            lemma_substitute_entries_fails(views, scope@, k + 1);
                        }
                        return Err(error);
                    },
                }
            }
            proof {
                assert(views.take(all.len() as int) =~= views);
            }
            Ok(Value::Object(done))
        },
        other => Ok(other),
    }
}

/// What reading a document gives: the paths of its imports, its value, and
/// the position at which it ends.
pub struct Reading {
    pub imports: Vec<String>,
    pub value: Value,
    pub end: usize,
}

/// Reads the document that the input holds from `pos` on. The definitions
/// of the document are added to the scope.
pub fn read_document(input: &[char], pos: usize, scope: &mut Object) -> (r: Result<
    Reading,
    SymError,
>)
    requires
        pos <= input@.len(),
    ensures
        match document_at(input@, pos as int, old(scope)@) {
            Ok(document) => r matches Ok(reading) && texts_of(reading.imports@)
                == document.imports && reading.value@ == document.value && reading.end
                == input@.len() && final(scope)@ == document.scope,
            Err(failure) => r matches Err(error) && error@ == failure,
        },
{
    let q = skip_whitespace_and_comments(input, pos);
    let (imports, start) = parse_imports(input, q);
    let mut blocks = match parse_blocks(input, start) {
        Ok(blocks) => blocks,
        Err(error) => {
            return Err(error);
        },
    };
    let ghost all = blocks@;
    let data = match blocks.pop() {
        Some(data) => data,
        None => {
            return Err(error_at(input, input.len(), "Empty document"));
        },
    };
    proof {
        lemma_trees_of(all);
        lemma_trees_of(blocks@);
        assert(trees_of(all).drop_last() =~= trees_of(blocks@));
        assert(trees_of(all).last() == data@);
    }
    match define_blocks(scope, blocks) {
        Ok(()) => {},
        Err(error) => {
            return Err(error);
        },
    }
    match substitute_variables(data, scope) {
        Ok(value) => Ok(Reading { imports, value, end: input.len() }),
        Err(error) => Err(error),
    }
}

} // verus!
