//! Structure: values, objects `{ .. }` and arrays `[ .. ]`, the fields of
//! an object with their modifiers, and what a field does to the object
//! that is being built.

use crate::cursor::{
    error_at, hspace_len, remaining, skip_horizontal_whitespace, skip_whitespace_and_comments,
    syntax_error, trivia_len,
};
use crate::error::{Failure, SymError};
use crate::scalar::{
    identifier_at, is_identifier, lemma_identifier_at, parse_identifier, parse_literal_or_string,
    parse_string_content, scalar_at, string_at,
};
use crate::value::{
    has_key, index_of, keys_distinct, lemma_first_at_unique, lemma_index_of,
    lemma_merge_entry_labelled, lemma_merge_entry_well_formed, lemma_put_labelled,
    lemma_put_well_formed, lemma_trees_of_push, merge_entry, put, trees_of, Entries, Object, Tree,
    Value,
};
use vstd::prelude::*;

verus! {

/// What a field does where its key is present already.
#[derive(Debug, Clone, Copy, PartialEq, Eq)]
pub enum KeyModifier {
    /// `:key`: deep merge.
    Merge,
    /// `:key!`: replace.
    Replace,
    /// `:key+`: append to an array.
    Append,
}

/// A field as written: its key, its modifier and its value.
pub ghost struct Field {
    pub key: Seq<char>,
    pub modifier: KeyModifier,
    pub value: Tree,
}

/// The entries after a field is applied to them.
///
/// Merge: the value is merged into the one under the key. Replace: the
/// value takes the place of the one under the key. Append: both the value
/// under the key and the one given must be arrays, and the second is
/// appended to the first. In each case a key that is not present yet gets
/// a new last entry.
pub open spec fn with_field(entries: Entries, field: Field) -> Result<Entries, Failure> {
    match field.modifier {
        KeyModifier::Merge => Ok(merge_entry(entries, field.key, field.value)),
        KeyModifier::Replace => Ok(put(entries, field.key, field.value)),
        KeyModifier::Append => if has_key(entries, field.key) {
            let i = index_of(entries, field.key);
            match (entries[i].1, field.value) {
                (Tree::Array(present), Tree::Array(added)) => Ok(
                    entries.update(i, (field.key, Tree::Array(present + added))),
                ),
                _ => Err(Failure::AppendToNonArray(field.key)),
            }
        } else {
            Ok(entries.push((field.key, field.value)))
        },
    }
}

/// A parse result seen from a position `by` characters earlier.
pub open spec fn shifted<T>(r: Result<(T, nat), Failure>, by: int) -> Result<(T, nat), Failure> {
    match r {
        Ok((value, n)) => Ok((value, (n + by) as nat)),
        Err(failure) => Err(failure),
    }
}

/// Whether a value may begin with the character at `p`: the input has one
/// there, and it is no line break, `,`, `}` or `]`.
pub open spec fn value_starts_at(s: Seq<char>, p: int) -> bool {
    0 <= p < s.len() && s[p] != '\n' && s[p] != '\r' && s[p] != ',' && s[p] != '}' && s[p]
        != ']'
}

/// The value at `p`, after trivia, with the number of characters consumed
/// from `p`.
///
/// `{` begins an object and `[` an array; `:name` is a symbol and `$name` a
/// reference; after `\` the rest is a string whatever it looks like;
/// anything else is a scalar.
pub open spec fn value_at(s: Seq<char>, p: int) -> Result<(Tree, nat), Failure>
    decreases remaining(s, p), 1int,
{
    let q = p + trivia_len(s, p);
    if q < 0 || q >= s.len() {
        Err(syntax_error(s, q, "Unexpected end of input"@))
    } else if s[q] == '{' {
        shifted(object_at(s, q), q - p)
    } else if s[q] == '[' {
        shifted(array_at(s, q), q - p)
    } else if s[q] == ':' {
        match identifier_at(s, q + 1) {
            Ok((name, n)) => Ok((Tree::Symbol(name), (q + 1 + n - p) as nat)),
            Err(failure) => Err(failure),
        }
    } else if s[q] == '$' {
        match identifier_at(s, q + 1) {
            Ok((name, n)) => Ok((Tree::Ref(name), (q + 1 + n - p) as nat)),
            Err(failure) => Err(failure),
        }
    } else if s[q] == '\\' {
        Ok((Tree::Str(string_at(s, q + 1).0), (q + 1 + string_at(s, q + 1).1 - p) as nat))
    } else {
        Ok((scalar_at(s, q).0, (q + scalar_at(s, q).1 - p) as nat))
    }
}

/// The object whose `{` is at `p`: its fields, applied in the order in
/// which they are written, with a `,` (among trivia) between them and
/// perhaps one after the last.
pub open spec fn object_at(s: Seq<char>, p: int) -> Result<(Tree, nat), Failure>
    decreases remaining(s, p), 0int,
{
    if !(0 <= p < s.len() && s[p] == '{') {
        Err(syntax_error(s, p, "Expected '{'"@))
    } else {
        let a = p + 1 + trivia_len(s, p + 1);
        if 0 <= a < s.len() && s[a] == '}' {
            Ok((Tree::Object(Seq::empty()), (a + 1 - p) as nat))
        } else {
            match field_at(s, a) {
                Err(failure) => Err(failure),
                Ok((field, n)) => match with_field(Seq::empty(), field) {
                    Err(failure) => Err(failure),
                    Ok(entries) => shifted(fields_from(s, a + n, entries), a + n - p),
                },
            }
        }
    }
}

/// The rest of an object from `p` on, after a field, given the entries
/// built so far.
pub open spec fn fields_from(s: Seq<char>, p: int, entries: Entries) -> Result<
    (Tree, nat),
    Failure,
>
    decreases remaining(s, p), 0int,
{
    let c = p + trivia_len(s, p);
    if 0 <= c < s.len() && s[c] == '}' {
        Ok((Tree::Object(entries), (c + 1 - p) as nat))
    } else if !(0 <= c < s.len()) {
        Err(syntax_error(s, c, "Unclosed object"@))
    } else if s[c] != ',' {
        Err(syntax_error(s, c, "Expected ',' separator"@))
    } else {
        let e = c + 1 + trivia_len(s, c + 1);
        if 0 <= e < s.len() && s[e] == '}' {
            Ok((Tree::Object(entries), (e + 1 - p) as nat))
        } else {
            match field_at(s, e) {
                Err(failure) => Err(failure),
                Ok((field, n)) => match with_field(entries, field) {
                    Err(failure) => Err(failure),
                    Ok(more) => shifted(fields_from(s, e + n, more), e + n - p),
                },
            }
        }
    }
}

/// The field at `p`: `:key`, `:key!` or `:key+` with a value, or a
/// definition `$name` or `$name!` with a value. A definition is held under
/// the key `$name`, or `$name!` where it overrides.
pub open spec fn field_at(s: Seq<char>, p: int) -> Result<(Field, nat), Failure>
    decreases remaining(s, p), 0int,
{
    if 0 <= p < s.len() && s[p] == ':' {
        match identifier_at(s, p + 1) {
            Err(failure) => Err(failure),
            Ok((name, n)) => {
                let k = p + 1 + n;
                let modifier = if 0 <= k < s.len() && s[k] == '!' {
                    KeyModifier::Replace
                } else if 0 <= k < s.len() && s[k] == '+' {
                    KeyModifier::Append
                } else {
                    KeyModifier::Merge
                };
                let v = if modifier == KeyModifier::Merge {
                    k
                } else {
                    k + 1
                };
                match field_value_at(s, v) {
                    Err(failure) => Err(failure),
                    Ok((value, m)) => Ok((Field { key: name, modifier, value }, (v + m - p) as nat)),
                }
            },
        }
    } else if 0 <= p < s.len() && s[p] == '$' {
        match identifier_at(s, p + 1) {
            Err(failure) => Err(failure),
            Ok((name, n)) => {
                let k = p + 1 + n;
                let overrides = 0 <= k < s.len() && s[k] == '!';
                let v = if overrides {
                    k + 1
                } else {
                    k
                };
                match field_value_at(s, v) {
                    Err(failure) => Err(failure),
                    Ok((value, m)) => Ok(
                        (
                            Field {
                                key: if overrides {
                                    (seq!['$'] + name).push('!')
                                } else {
                                    seq!['$'] + name
                                },
                                modifier: if overrides {
                                    KeyModifier::Replace
                                } else {
                                    KeyModifier::Merge
                                },
                                value,
                            },
                            (v + m - p) as nat,
                        ),
                    ),
                }
            },
        }
    } else {
        Err(syntax_error(s, p, "Expected ':' or '$' at start of field"@))
    }
}

/// The value of a field, from `p` behind its key on.
///
/// After spaces and tabs, a value that begins on the line is the field's
/// value. So is one that begins on a later line, after trivia. Where
/// neither is there (the next thing is a `,`, a `}`, a `]` or the end) the
/// value is the empty string, and only the spaces and tabs are consumed.
pub open spec fn field_value_at(s: Seq<char>, p: int) -> Result<(Tree, nat), Failure>
    decreases remaining(s, p), 2int,
{
    let h = p + hspace_len(s, p);
    if value_starts_at(s, h) || (0 <= h < s.len() && value_starts_at(s, h + trivia_len(s, h))) {
        shifted(value_at(s, h), h - p)
    } else {
        Ok((Tree::Str(Seq::empty()), (h - p) as nat))
    }
}

/// The array whose `[` is at `p`: its items, with a `,` (among trivia)
/// between them and perhaps one after the last.
pub open spec fn array_at(s: Seq<char>, p: int) -> Result<(Tree, nat), Failure>
    decreases remaining(s, p), 0int,
{
    if !(0 <= p < s.len() && s[p] == '[') {
        Err(syntax_error(s, p, "Expected '['"@))
    } else {
        let a = p + 1 + trivia_len(s, p + 1);
        if 0 <= a < s.len() && s[a] == ']' {
            Ok((Tree::Array(Seq::empty()), (a + 1 - p) as nat))
        } else {
            match value_at(s, a) {
                Err(failure) => Err(failure),
                Ok((item, n)) => shifted(items_from(s, a + n, seq![item]), a + n - p),
            }
        }
    }
}

/// The rest of an array from `p` on, after an item, given the items read
/// so far.
pub open spec fn items_from(s: Seq<char>, p: int, items: Seq<Tree>) -> Result<(Tree, nat), Failure>
    decreases remaining(s, p), 0int,
{
    let c = p + trivia_len(s, p);
    if 0 <= c < s.len() && s[c] == ']' {
        Ok((Tree::Array(items), (c + 1 - p) as nat))
    } else if !(0 <= c < s.len()) {
        Err(syntax_error(s, c, "Unclosed array"@))
    } else if s[c] != ',' {
        Err(syntax_error(s, c, "Expected ',' separator"@))
    } else {
        let e = c + 1 + trivia_len(s, c + 1);
        if 0 <= e < s.len() && s[e] == ']' {
            Ok((Tree::Array(items), (e + 1 - p) as nat))
        } else {
            match value_at(s, e) {
                Err(failure) => Err(failure),
                Ok((item, n)) => shifted(items_from(s, e + n, items.push(item)), e + n - p),
            }
        }
    }
}

/// The entries after the fields are applied to them one after the other,
/// first to last; the first field that cannot be applied is the failure.
pub open spec fn with_fields(entries: Entries, fields: Seq<Field>) -> Result<Entries, Failure>
    decreases fields.len(),
{
    if fields.len() == 0 {
        Ok(entries)
    } else {
        match with_field(entries, fields[0]) {
            Err(failure) => Err(failure),
            Ok(more) => with_fields(more, fields.drop_first()),
        }
    }
}

/// The fields that are written in the object whose `{` is at `p`, in the
/// order of the text, and the length of the object. Whether the fields
/// can be applied plays no part.
pub open spec fn written_fields_at(s: Seq<char>, p: int) -> Result<(Seq<Field>, nat), Failure>
    decreases remaining(s, p),
{
    if !(0 <= p < s.len() && s[p] == '{') {
        Err(syntax_error(s, p, "Expected '{'"@))
    } else {
        let a = p + 1 + trivia_len(s, p + 1);
        if 0 <= a < s.len() && s[a] == '}' {
            Ok((Seq::empty(), (a + 1 - p) as nat))
        } else {
            match field_at(s, a) {
                Err(failure) => Err(failure),
                Ok((field, n)) => match written_fields_from(s, a + n) {
                    Err(failure) => Err(failure),
                    Ok((rest, m)) => Ok((seq![field] + rest, (a + n + m - p) as nat)),
                },
            }
        }
    }
}

/// The fields that are written from `p` on, after a field, up to the end
/// of the object, and the length up to there.
pub open spec fn written_fields_from(s: Seq<char>, p: int) -> Result<(Seq<Field>, nat), Failure>
    decreases remaining(s, p),
{
    let c = p + trivia_len(s, p);
    if 0 <= c < s.len() && s[c] == '}' {
        Ok((Seq::empty(), (c + 1 - p) as nat))
    } else if !(0 <= c < s.len()) {
        Err(syntax_error(s, c, "Unclosed object"@))
    } else if s[c] != ',' {
        Err(syntax_error(s, c, "Expected ',' separator"@))
    } else {
        let e = c + 1 + trivia_len(s, c + 1);
        if 0 <= e < s.len() && s[e] == '}' {
            Ok((Seq::empty(), (e + 1 - p) as nat))
        } else {
            match field_at(s, e) {
                Err(failure) => Err(failure),
                Ok((field, n)) => match written_fields_from(s, e + n) {
                    Err(failure) => Err(failure),
                    Ok((rest, m)) => Ok((seq![field] + rest, (e + n + m - p) as nat)),
                },
            }
        }
    }
}

/// What the written fields make of the entries: an object of the entries
/// after all the fields are applied, or the failure of the first field
/// that cannot be.
pub open spec fn folded(entries: Entries, fields: Seq<Field>, n: nat) -> Result<
    (Tree, nat),
    Failure,
> {
    match with_fields(entries, fields) {
        Ok(all) => Ok((Tree::Object(all), n)),
        Err(failure) => Err(failure),
    }
}

#[verifier::rlimit(40)]
proof fn lemma_fields_from_is_left_fold(s: Seq<char>, p: int, entries: Entries)
    ensures
        written_fields_from(s, p) matches Ok((fields, n)) ==> fields_from(s, p, entries) == folded(
            entries,
            fields,
            n,
        ),
        fields_from(s, p, entries) is Ok ==> written_fields_from(s, p) is Ok,
    decreases remaining(s, p),
{
    let c = p + trivia_len(s, p);
    if 0 <= c < s.len() && s[c] == ',' {
        let e = c + 1 + trivia_len(s, c + 1);
        if !(0 <= e < s.len() && s[e] == '}') {
            match field_at(s, e) {
                Ok((field, n)) => {
                    match with_field(entries, field) {
                        Ok(more) => {
                            lemma_fields_from_is_left_fold(s, e + n, more);
                        },
                        Err(_) => {},
                    }
                    match written_fields_from(s, e + n) {
                        Ok((rest, m)) => {
                            assert((seq![field] + rest).drop_first() =~= rest);
                        },
                        Err(_) => {},
                    }
                },
                Err(_) => {},
            }
        }
    }
}

/// An object is the left fold of its fields: where its text is well
/// formed, so that its fields can be told apart, the object parsed from it
/// is the one that applying the fields to the empty object gives, each in
/// its turn in the order of the text, and fails as the first field that
/// cannot be applied does. And every object that is parsed has well
/// formed text.
pub proof fn lemma_object_is_left_fold(s: Seq<char>, p: int)
    ensures
        written_fields_at(s, p) matches Ok((fields, n)) ==> object_at(s, p) == folded(
            Seq::empty(),
            fields,
            n,
        ),
        object_at(s, p) is Ok ==> written_fields_at(s, p) is Ok,
{
    if 0 <= p < s.len() && s[p] == '{' {
        let a = p + 1 + trivia_len(s, p + 1);
        if !(0 <= a < s.len() && s[a] == '}') {
            match field_at(s, a) {
                Ok((field, n)) => {
                    match with_field(Seq::empty(), field) {
                        Ok(more) => {
                            lemma_fields_from_is_left_fold(s, a + n, more);
                        },
                        Err(_) => {},
                    }
                    match written_fields_from(s, a + n) {
                        Ok((rest, m)) => {
                            assert((seq![field] + rest).drop_first() =~= rest);
                        },
                        Err(_) => {},
                    }
                },
                Err(_) => {},
            }
        }
    }
}

/// A well formed object stays well formed when a field with a well
/// formed value is applied to it.
pub proof fn lemma_with_field_well_formed(entries: Entries, field: Field)
    requires
        Tree::Object(entries).well_formed(),
        field.value.well_formed(),
    ensures
        with_field(entries, field) matches Ok(more) ==> Tree::Object(more).well_formed(),
{
    match field.modifier {
        KeyModifier::Merge => {
            lemma_merge_entry_well_formed(entries, field.key, field.value);
        },
        KeyModifier::Replace => {
            lemma_put_well_formed(entries, field.key, field.value);
        },
        KeyModifier::Append => {
            if has_key(entries, field.key) {
                lemma_index_of(entries, field.key);
                let i = index_of(entries, field.key);
                match (entries[i].1, field.value) {
                    (Tree::Array(present), Tree::Array(added)) => {
                        let both = Tree::Array(present + added);
                        assert(both.well_formed()) by {
                            assert forall|j: int| 0 <= j < (present + added).len() implies (
                            #[trigger] (present + added)[j]).well_formed() by {
                                if j < present.len() {
                                    assert((present + added)[j] == present[j]);
                                    assert(entries[i].1.well_formed());
                                    assert(present[j].well_formed());
                                } else {
                                    assert((present + added)[j] == added[j - present.len()]);
                                    assert(added[j - present.len()].well_formed());
                                }
                            }
                        }
                        assert(put(entries, field.key, both) == entries.update(
                            i,
                            (field.key, both),
                        ));
                        lemma_put_well_formed(entries, field.key, both);
                    },
                    _ => {},
                }
            } else {
                assert(put(entries, field.key, field.value) == entries.push(
                    (field.key, field.value),
                ));
                lemma_put_well_formed(entries, field.key, field.value);
            }
        },
    }
}

/// Whether a text is a key as the parser makes them: an identifier, or
/// the key of a definition, which is `$`, an identifier, and `!` where
/// the definition overrides.
pub open spec fn is_key(key: Seq<char>) -> bool {
    ||| is_identifier(key)
    ||| key.len() >= 2 && key[0] == '$' && is_identifier(key.subrange(1, key.len() as int))
    ||| key.len() >= 3 && key[0] == '$' && key.last() == '!' && is_identifier(
        key.subrange(1, key.len() - 1),
    )
}

/// The rule for keys, as a function.
pub open spec fn key_rule() -> spec_fn(Seq<char>) -> bool {
    |key: Seq<char>| is_key(key)
}

/// The rule for the names of symbols and references, as a function.
pub open spec fn name_rule() -> spec_fn(Seq<char>) -> bool {
    |name: Seq<char>| is_identifier(name)
}

impl Tree {
    /// Every key in the tree is a key as the parser makes them, and every
    /// name of a symbol or reference an identifier.
    pub open spec fn named(self) -> bool {
        self.labelled(key_rule(), name_rule())
    }
}

/// An object keeps its names when a field with a key and a value that
/// keep them is applied to it.
pub proof fn lemma_with_field_named(entries: Entries, field: Field)
    requires
        Tree::Object(entries).named(),
        is_key(field.key),
        field.value.named(),
    ensures
        with_field(entries, field) matches Ok(more) ==> Tree::Object(more).named(),
{
    let keys = key_rule();
    let names = name_rule();
    assert(keys(field.key));
    match field.modifier {
        KeyModifier::Merge => {
            lemma_merge_entry_labelled(entries, field.key, field.value, keys, names);
        },
        KeyModifier::Replace => {
            lemma_put_labelled(entries, field.key, field.value, keys, names);
        },
        KeyModifier::Append => {
            if has_key(entries, field.key) {
                lemma_index_of(entries, field.key);
                let i = index_of(entries, field.key);
                let whole = Tree::Object(entries);
                assert(whole->Object_0 == entries);
                match (entries[i].1, field.value) {
                    (Tree::Array(present), Tree::Array(added)) => {
                        let both = Tree::Array(present + added);
                        assert(both.labelled(keys, names)) by {
                            assert(entries[i].1->Array_0 == present);
                            assert(field.value->Array_0 == added);
                            assert(entries[i].1.labelled(keys, names));
                            assert forall|j: int| 0 <= j < (present + added).len() implies (
                            #[trigger] (present + added)[j]).labelled(keys, names) by {
                                if j < present.len() {
                                    assert((present + added)[j] == present[j]);
                                    assert(present[j].labelled(keys, names));
                                } else {
                                    assert((present + added)[j] == added[j - present.len()]);
                                    assert(added[j - present.len()].labelled(keys, names));
                                }
                            }
                        }
                        assert(put(entries, field.key, both) == entries.update(
                            i,
                            (field.key, both),
                        ));
                        lemma_put_labelled(entries, field.key, both, keys, names);
                    },
                    _ => {},
                }
            } else {
                assert(put(entries, field.key, field.value) == entries.push(
                    (field.key, field.value),
                ));
                lemma_put_labelled(entries, field.key, field.value, keys, names);
            }
        },
    }
}

impl Tree {
    /// The tree is as the parser makes them: no object in it has a key
    /// twice, every key in it is an identifier or the key of a
    /// definition, and every symbol and reference is named by an
    /// identifier.
    pub open spec fn sound(self) -> bool {
        self.well_formed() && self.named()
    }
}

/// A sound object stays sound when a field with a key as the parser makes
/// them and a sound value is applied to it.
pub proof fn lemma_with_field_sound(entries: Entries, field: Field)
    requires
        Tree::Object(entries).sound(),
        is_key(field.key),
        field.value.sound(),
    ensures
        with_field(entries, field) matches Ok(more) ==> Tree::Object(more).sound(),
{
    lemma_with_field_well_formed(entries, field);
    lemma_with_field_named(entries, field);
}

/// An array is sound where its items are.
pub proof fn lemma_sound_array(items: Seq<Tree>)
    ensures
        Tree::Array(items).sound() == (forall|j: int|
            0 <= j < items.len() ==> (#[trigger] items[j]).sound()),
{
    let whole = Tree::Array(items);
    assert(whole->Array_0 == items);
    assert(whole.well_formed() == (forall|j: int|
        0 <= j < items.len() ==> (#[trigger] items[j]).well_formed()));
    assert(whole.named() == (forall|j: int|
        0 <= j < items.len() ==> (#[trigger] items[j]).labelled(key_rule(), name_rule())));
    if whole.sound() {
        assert forall|j: int| 0 <= j < items.len() implies (#[trigger] items[j]).sound() by {
            assert(items[j].well_formed());
            assert(items[j].labelled(key_rule(), name_rule()));
        }
    }
    if forall|j: int| 0 <= j < items.len() ==> (#[trigger] items[j]).sound() {
        assert forall|j: int| 0 <= j < items.len() implies (#[trigger] items[j]).well_formed()
            && items[j].labelled(key_rule(), name_rule()) by {
            assert(items[j].sound());
        }
    }
}

/// An object is sound where its keys are distinct and keys as the parser
/// makes them, and its values are sound.
pub proof fn lemma_sound_object(entries: Entries)
    ensures
        Tree::Object(entries).sound() == (keys_distinct(entries) && forall|j: int|
            0 <= j < entries.len() ==> is_key((#[trigger] entries[j]).0) && entries[j].1.sound()),
{
    let whole = Tree::Object(entries);
    assert(whole->Object_0 == entries);
    assert(whole.well_formed() == (keys_distinct(entries) && forall|j: int|
        0 <= j < entries.len() ==> (#[trigger] entries[j]).1.well_formed()));
    assert(whole.named() == (forall|j: int|
        0 <= j < entries.len() ==> key_rule()((#[trigger] entries[j]).0) && entries[j].1.labelled(
            key_rule(),
            name_rule(),
        )));
    if whole.sound() {
        assert forall|j: int| 0 <= j < entries.len() implies is_key((#[trigger] entries[j]).0)
            && entries[j].1.sound() by {
            assert(entries[j].1.well_formed());
            assert(key_rule()(entries[j].0));
        }
    }
    if keys_distinct(entries) && forall|j: int|
        0 <= j < entries.len() ==> is_key((#[trigger] entries[j]).0) && entries[j].1.sound() {
        assert forall|j: int| 0 <= j < entries.len() implies (#[trigger] entries[j]).1.well_formed()
            && key_rule()(entries[j].0) && entries[j].1.labelled(key_rule(), name_rule()) by {
            assert(entries[j].1.sound());
        }
    }
}

/// Every value that is parsed is sound: no object in it has a key twice,
/// the keys of its objects are identifiers or keys of definitions, and
/// its symbols and references are named by identifiers.
pub proof fn lemma_value_sound(s: Seq<char>, p: int)
    ensures
        value_at(s, p) matches Ok((tree, _)) ==> tree.sound(),
    decreases remaining(s, p), 1int,
{
    let q = p + trivia_len(s, p);
    if 0 <= q < s.len() {
        if s[q] == '{' {
            lemma_object_sound(s, q);
        } else if s[q] == '[' {
            lemma_array_at_sound(s, q);
        } else if s[q] == ':' || s[q] == '$' {
            lemma_identifier_at(s, q + 1);
        } else if s[q] == '\\' {
        } else {
            assert(scalar_at(s, q).0.sound());
        }
    }
}

proof fn lemma_object_sound(s: Seq<char>, p: int)
    ensures
        object_at(s, p) matches Ok((tree, _)) ==> tree.sound(),
    decreases remaining(s, p), 0int,
{
    if 0 <= p < s.len() && s[p] == '{' {
        let a = p + 1 + trivia_len(s, p + 1);
        lemma_sound_object(Seq::empty());
        if !(0 <= a < s.len() && s[a] == '}') {
            lemma_field_sound(s, a);
            match field_at(s, a) {
                Ok((field, n)) => {
                    lemma_with_field_sound(Seq::empty(), field);
                    match with_field(Seq::empty(), field) {
                        Ok(entries) => {
                            lemma_fields_sound(s, a + n, entries);
                        },
                        Err(_) => {},
                    }
                },
                Err(_) => {},
            }
        }
    }
}

proof fn lemma_fields_sound(s: Seq<char>, p: int, entries: Entries)
    requires
        Tree::Object(entries).sound(),
    ensures
        fields_from(s, p, entries) matches Ok((tree, _)) ==> tree.sound(),
    decreases remaining(s, p), 0int,
{
    let c = p + trivia_len(s, p);
    if 0 <= c < s.len() && s[c] == ',' {
        let e = c + 1 + trivia_len(s, c + 1);
        if !(0 <= e < s.len() && s[e] == '}') {
            lemma_field_sound(s, e);
            match field_at(s, e) {
                Ok((field, n)) => {
                    lemma_with_field_sound(entries, field);
                    match with_field(entries, field) {
                        Ok(more) => {
                            lemma_fields_sound(s, e + n, more);
                        },
                        Err(_) => {},
                    }
                },
                Err(_) => {},
            }
        }
    }
}

proof fn lemma_field_sound(s: Seq<char>, p: int)
    ensures
        field_at(s, p) matches Ok((field, _)) ==> is_key(field.key) && field.value.sound(),
    decreases remaining(s, p), 0int,
{
    if 0 <= p < s.len() && (s[p] == ':' || s[p] == '$') {
        lemma_identifier_at(s, p + 1);
        match identifier_at(s, p + 1) {
            Ok((name, n)) => {
                let k = p + 1 + n;
                lemma_field_value_sound(s, k);
                lemma_field_value_sound(s, k + 1);
                let plain = seq!['$'] + name;
                assert(plain.subrange(1, plain.len() as int) =~= name);
                let marked = plain.push('!');
                assert(marked.subrange(1, marked.len() - 1) =~= name);
            },
            Err(_) => {},
        }
    }
}

proof fn lemma_field_value_sound(s: Seq<char>, p: int)
    ensures
        field_value_at(s, p) matches Ok((tree, _)) ==> tree.sound(),
    decreases remaining(s, p), 2int,
{
    let h = p + hspace_len(s, p);
    if value_starts_at(s, h) || (0 <= h < s.len() && value_starts_at(s, h + trivia_len(s, h))) {
        lemma_value_sound(s, h);
    }
}

proof fn lemma_array_at_sound(s: Seq<char>, p: int)
    ensures
        array_at(s, p) matches Ok((tree, _)) ==> tree.sound(),
    decreases remaining(s, p), 0int,
{
    if 0 <= p < s.len() && s[p] == '[' {
        let a = p + 1 + trivia_len(s, p + 1);
        lemma_sound_array(Seq::empty());
        if !(0 <= a < s.len() && s[a] == ']') {
            lemma_value_sound(s, a);
            match value_at(s, a) {
                Ok((item, n)) => {
                    lemma_sound_array(seq![item]);
                    lemma_items_sound(s, a + n, seq![item]);
                },
                Err(_) => {},
            }
        }
    }
}

proof fn lemma_items_sound(s: Seq<char>, p: int, items: Seq<Tree>)
    requires
        Tree::Array(items).sound(),
    ensures
        items_from(s, p, items) matches Ok((tree, _)) ==> tree.sound(),
    decreases remaining(s, p), 0int,
{
    lemma_sound_array(items);
    let c = p + trivia_len(s, p);
    if 0 <= c < s.len() && s[c] == ',' {
        let e = c + 1 + trivia_len(s, c + 1);
        if !(0 <= e < s.len() && s[e] == ']') {
            lemma_value_sound(s, e);
            match value_at(s, e) {
                Ok((item, n)) => {
                    assert forall|j: int| 0 <= j < items.push(item).len() implies (
                    #[trigger] items.push(item)[j]).sound() by {
                        if j < items.len() {
                            assert(items.push(item)[j] == items[j]);
                        }
                    }
                    lemma_sound_array(items.push(item));
                    lemma_items_sound(s, e + n, items.push(item));
                },
                Err(_) => {},
            }
        }
    }
}

/// Whether what a parse from `pos` returned is what the notation says:
/// the same tree and the position after it, or the same failure.
pub open spec fn agrees(
    r: Result<(Value, usize), SymError>,
    expected: Result<(Tree, nat), Failure>,
    pos: usize,
) -> bool {
    match expected {
        Ok((tree, n)) => r matches Ok((value, next)) && value@ == tree && next == pos + n,
        Err(failure) => r matches Err(error) && error@ == failure,
    }
}

/// Applies a field to the object that is being built.
pub fn apply_field(map: &mut Object, key: String, modifier: KeyModifier, value: Value) -> (r:
    Result<(), SymError>)
    ensures
        match with_field(old(map)@, (Field { key: key@, modifier, value: value@ })) {
            Ok(entries) => r is Ok && final(map)@ == entries,
            Err(failure) => r matches Err(error) && error@ == failure && final(map)@ == old(map)@,
        },
{
    match modifier {
        KeyModifier::Merge => {
            map.merge_entry(key, value);
            Ok(())
        },
        KeyModifier::Replace => {
            map.insert(key, value);
            Ok(())
        },
        KeyModifier::Append => {
            match map.find(key.as_str()) {
                Some(i) => {
                    proof {
                        lemma_first_at_unique(map@, key@, i as int);
                    }
                    if map.entry(i).value().is_array() {
                        match value {
                            Value::Array(items) => {
                                map.extend_array(i, items);
                                Ok(())
                            },
                            _ => Err(SymError::AppendToNonArray(key)),
                        }
                    } else {
                        Err(SymError::AppendToNonArray(key))
                    }
                },
                None => {
                    map.push(key, value);
                    Ok(())
                },
            }
        },
    }
}

/// Whether a value may begin with the character at `pos`.
pub fn check_value_start(input: &[char], pos: usize) -> (b: bool)
    requires
        pos <= input@.len(),
    ensures
        b == value_starts_at(input@, pos as int),
{
    pos < input.len() && input[pos] != '\n' && input[pos] != '\r' && input[pos] != ','
        && input[pos] != '}' && input[pos] != ']'
}

/// Parses the value at `pos`, after trivia.
pub fn parse_value(input: &[char], pos: usize) -> (r: Result<(Value, usize), SymError>)
    requires
        pos <= input@.len(),
    ensures
        agrees(r, value_at(input@, pos as int), pos),
        r matches Ok((_, next)) ==> pos <= next <= input@.len(),
    decreases input@.len() - pos, 1int,
{
    let len = input.len();
    let q = skip_whitespace_and_comments(input, pos);
    if q >= len {
        return Err(error_at(input, q, "Unexpected end of input"));
    }
    let c = input[q];
    if c == '{' {
        parse_object(input, q)
    } else if c == '[' {
        parse_array(input, q)
    } else if c == ':' {
        match parse_identifier(input, q + 1) {
            Ok((name, next)) => Ok((Value::Symbol(name), next)),
            Err(error) => Err(error),
        }
    } else if c == '$' {
        match parse_identifier(input, q + 1) {
            Ok((name, next)) => Ok((Value::Ref(name), next)),
            Err(error) => Err(error),
        }
    } else if c == '\\' {
        let (text, next) = parse_string_content(input, q + 1);
        Ok((Value::String(text), next))
    } else {
        let (value, next) = parse_literal_or_string(input, q);
        Ok((value, next))
    }
}

/// Parses the object whose `{` is at `pos`.
pub fn parse_object(input: &[char], pos: usize) -> (r: Result<(Value, usize), SymError>)
    requires
        pos <= input@.len(),
    ensures
        agrees(r, object_at(input@, pos as int), pos),
        r matches Ok((_, next)) ==> pos < next <= input@.len(),
    decreases input@.len() - pos, 0int,
{
    let len = input.len();
    if !(pos < len && input[pos] == '{') {
        return Err(error_at(input, pos, "Expected '{'"));
    }
    let mut map = Object::new();
    let a = skip_whitespace_and_comments(input, pos + 1);
    if a < len && input[a] == '}' {
        return Ok((Value::Object(map), a + 1));
    }
    let mut i: usize = match parse_field_into(input, a, &mut map) {
        Ok(end) => end,
        Err(error) => {
            return Err(error);
        },
    };
    loop
        invariant_except_break
            object_at(input@, pos as int) == shifted(
                fields_from(input@, i as int, map@),
                i - pos,
            ),
        invariant
            len == input@.len(),
            pos < i <= len,
        decreases len - i,
    {
        let c = skip_whitespace_and_comments(input, i);
        if c < len && input[c] == '}' {
            return Ok((Value::Object(map), c + 1));
        }
        if c >= len {
            return Err(error_at(input, c, "Unclosed object"));
        }
        if input[c] != ',' {
            return Err(error_at(input, c, "Expected ',' separator"));
        }
        let e = skip_whitespace_and_comments(input, c + 1);
        if e < len && input[e] == '}' {
            return Ok((Value::Object(map), e + 1));
        }
        i = match parse_field_into(input, e, &mut map) {
            Ok(end) => end,
            Err(error) => {
                return Err(error);
            },
        };
    }
}

/// Parses the field at `pos` and applies it to the object that is being
/// built; returns the position after the field.
fn parse_field_into(input: &[char], pos: usize, map: &mut Object) -> (r: Result<usize, SymError>)
    requires
        pos <= input@.len(),
    ensures
        match field_at(input@, pos as int) {
            Err(failure) => r matches Err(error) && error@ == failure,
            Ok((field, n)) => match with_field(old(map)@, field) {
                Err(failure) => r matches Err(error) && error@ == failure,
                Ok(entries) => r matches Ok(next) && next == pos + n && final(map)@ == entries,
            },
        },
        r matches Ok(next) ==> pos < next <= input@.len(),
    decreases input@.len() - pos, 1int,
{
    let (key, modifier, value, end) = match parse_field(input, pos) {
        Ok(field) => field,
        Err(error) => {
            return Err(error);
        },
    };
    match apply_field(map, key, modifier, value) {
        Ok(()) => Ok(end),
        Err(error) => Err(error),
    }
}

/// Parses the field at `pos`: its key, its modifier, its value and the
/// position after it.
pub fn parse_field(input: &[char], pos: usize) -> (r: Result<
    (String, KeyModifier, Value, usize),
    SymError,
>)
    requires
        pos <= input@.len(),
    ensures
        match field_at(input@, pos as int) {
            Ok((field, n)) => r matches Ok((key, modifier, value, next)) && key@ == field.key
                && modifier == field.modifier && value@ == field.value && next == pos + n,
            Err(failure) => r matches Err(error) && error@ == failure,
        },
        r matches Ok((_, _, _, next)) ==> pos < next <= input@.len(),
    decreases input@.len() - pos, 0int,
{
    let len = input.len();
    if pos < len && input[pos] == ':' {
        let (name, k) = match parse_identifier(input, pos + 1) {
            Ok(found) => found,
            Err(error) => {
                return Err(error);
            },
        };
        let (modifier, v) = parse_key_modifier(input, k);
        match parse_field_value(input, v) {
            Ok((value, next)) => Ok((name, modifier, value, next)),
            Err(error) => Err(error),
        }
    } else if pos < len && input[pos] == '$' {
        let (name, k) = match parse_identifier(input, pos + 1) {
            Ok(found) => found,
            Err(error) => {
                return Err(error);
            },
        };
        let overrides = k < len && input[k] == '!';
        let v = if overrides {
            k + 1
        } else {
            k
        };
        let mut key = String::new();
        key.push('$');
        key.append(name.as_str());
        if overrides {
            key.push('!');
        }
        proof {
            assert(Seq::<char>::empty().push('$') + name@ =~= seq!['$'] + name@);
        }
        let modifier = if overrides {
            KeyModifier::Replace
        } else {
            KeyModifier::Merge
        };
        match parse_field_value(input, v) {
            Ok((value, next)) => Ok((key, modifier, value, next)),
            Err(error) => Err(error),
        }
    } else {
        Err(error_at(input, pos, "Expected ':' or '$' at start of field"))
    }
}

/// Reads the modifier behind a key: `!`, `+` or none.
pub fn parse_key_modifier(input: &[char], pos: usize) -> (r: (KeyModifier, usize))
    requires
        pos <= input@.len(),
    ensures
        r.0 == (if pos < input@.len() && input@[pos as int] == '!' {
            KeyModifier::Replace
        } else if pos < input@.len() && input@[pos as int] == '+' {
            KeyModifier::Append
        } else {
            KeyModifier::Merge
        }),
        r.1 == (if r.0 == KeyModifier::Merge {
            pos as int
        } else {
            pos + 1
        }),
{
    if pos < input.len() && input[pos] == '!' {
        (KeyModifier::Replace, pos + 1)
    } else if pos < input.len() && input[pos] == '+' {
        (KeyModifier::Append, pos + 1)
    } else {
        (KeyModifier::Merge, pos)
    }
}

/// Parses the value of a field, from `pos` behind its key on.
fn parse_field_value(input: &[char], pos: usize) -> (r: Result<(Value, usize), SymError>)
    requires
        pos <= input@.len(),
    ensures
        agrees(r, field_value_at(input@, pos as int), pos),
        r matches Ok((_, next)) ==> pos <= next <= input@.len(),
    decreases input@.len() - pos, 2int,
{
    let h = skip_horizontal_whitespace(input, pos);
    let here = check_value_start(input, h);
    let later = !here && h < input.len() && check_value_start(
        input,
        skip_whitespace_and_comments(input, h),
    );
    if here || later {
        parse_value(input, h)
    } else {
        Ok((Value::String(String::new()), h))
    }
}

/// Parses the array whose `[` is at `pos`.
pub fn parse_array(input: &[char], pos: usize) -> (r: Result<(Value, usize), SymError>)
    requires
        pos <= input@.len(),
    ensures
        agrees(r, array_at(input@, pos as int), pos),
        r matches Ok((_, next)) ==> pos < next <= input@.len(),
    decreases input@.len() - pos, 0int,
{
    let len = input.len();
    if !(pos < len && input[pos] == '[') {
        return Err(error_at(input, pos, "Expected '['"));
    }
    let mut items: Vec<Value> = Vec::new();
    let a = skip_whitespace_and_comments(input, pos + 1);
    if a < len && input[a] == ']' {
        return Ok((Value::Array(items), a + 1));
    }
    let (first, first_end) = match parse_value(input, a) {
        Ok(found) => found,
        Err(error) => {
            return Err(error);
        },
    };
    proof {
        lemma_trees_of_push(items@, first);
    }
    items.push(first);
    let mut i: usize = first_end;
    loop
        invariant_except_break
            array_at(input@, pos as int) == shifted(
                items_from(input@, i as int, trees_of(items@)),
                i - pos,
            ),
        invariant
            len == input@.len(),
            pos < i <= len,
        decreases len - i,
    {
        let c = skip_whitespace_and_comments(input, i);
        if c < len && input[c] == ']' {
            return Ok((Value::Array(items), c + 1));
        }
        if c >= len {
            return Err(error_at(input, c, "Unclosed array"));
        }
        if input[c] != ',' {
            return Err(error_at(input, c, "Expected ',' separator"));
        }
        let e = skip_whitespace_and_comments(input, c + 1);
        if e < len && input[e] == ']' {
            return Ok((Value::Array(items), e + 1));
        }
        let (item, end) = match parse_value(input, e) {
            Ok(found) => found,
            Err(error) => {
                return Err(error);
            },
        };
        proof {
            lemma_trees_of_push(items@, item);
        }
        items.push(item);
        i = end;
    }
}

} // verus!
