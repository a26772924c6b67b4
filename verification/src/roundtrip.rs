//! Reading back what was written: a tree that is emitted as text and
//! parsed again is the same tree, for the trees whose scalars and keys
//! are written so that they can be told apart.

use crate::convert::{
    emitted, emitted_entries, emitted_items, escaped, escaped_key, indentation, key_chars,
    needs_escape, part_lead,
};
use crate::cursor::{
    hspace_len, is_block_comment_at, is_line_comment_at, lemma_run, lemma_run_split, run_len,
    trivia_len, whitespace_len, CharClass,
};
use crate::document::{
    blocks_from, document_at, import_word, substitute, substitute_entries, substitute_items,
    Document,
};
use crate::error::Failure;
use crate::number::{
    decimal_number, decimal_shape, digit_value, ends_number, number_at, prefixed_number, radix_of,
    radix_value,
};
use crate::scalar::{
    after, identifier_at, is_identifier, join_lines, keyword_at, scalar_at, string_at, string_scan,
    word_at, Lines,
};
use crate::structure::{
    field_at, fields_from, items_from, value_at, value_starts_at, Field, KeyModifier,
};
use crate::text::{
    decimal_of, digit_char, digits_of, has_prefix_at, is_digit, is_hspace, is_ident_continue,
    is_whitespace, trim, trim_end, trim_start,
};
use crate::value::{has_key, keys_distinct, Entries, Tree};
use vstd::prelude::*;

verus! {

/// Where a text stands, each of its characters stands.
pub proof fn lemma_prefix_char(s: Seq<char>, p: int, text: Seq<char>, i: int)
    requires
        has_prefix_at(s, p, text),
        0 <= i < text.len(),
    ensures
        s[p + i] == text[i],
{
    assert(s.subrange(p, p + text.len())[i] == s[p + i]);
}

/// A text of two parts stands where its first part stands and its second
/// part follows.
pub proof fn lemma_prefix_split(s: Seq<char>, p: int, first: Seq<char>, second: Seq<char>)
    ensures
        has_prefix_at(s, p, first + second) <==> has_prefix_at(s, p, first) && has_prefix_at(
            s,
            p + first.len(),
            second,
        ),
{
    let both = first + second;
    if has_prefix_at(s, p, both) {
        assert(s.subrange(p, p + first.len()) =~= first) by {
            assert forall|i: int| 0 <= i < first.len() implies s.subrange(p, p + first.len())[i]
                == first[i] by {
                lemma_prefix_char(s, p, both, i);
            }
        }
        assert(s.subrange(p + first.len(), p + first.len() + second.len()) =~= second) by {
            assert forall|i: int| 0 <= i < second.len() implies s.subrange(
                p + first.len(),
                p + first.len() + second.len(),
            )[i] == second[i] by {
                lemma_prefix_char(s, p, both, first.len() + i);
            }
        }
    }
    if has_prefix_at(s, p, first) && has_prefix_at(s, p + first.len(), second) {
        assert(s.subrange(p, p + both.len()) =~= both) by {
            assert forall|i: int| 0 <= i < both.len() implies s.subrange(p, p + both.len())[i]
                == both[i] by {
                if i < first.len() {
                    lemma_prefix_char(s, p, first, i);
                } else {
                    lemma_prefix_char(s, p + first.len(), second, i - first.len());
                }
            }
        }
    }
}

/// Indentation is spaces, two for each level.
pub proof fn lemma_indentation(level: nat)
    ensures
        indentation(level).len() == 2 * level,
        forall|i: int| 0 <= i < 2 * level ==> (#[trigger] indentation(level)[i]) == ' ',
    decreases level,
{
    if level > 0 {
        lemma_indentation((level - 1) as nat);
    }
}

/// What may follow a value in emitted text: the end of the text, or a
/// line feed and, behind spaces or tabs, a `,`, a `]` or a `}`.
pub open spec fn breaks_at(s: Seq<char>, e: int) -> bool {
    e == s.len() || (0 <= e < s.len() && s[e] == '\n' && {
        let q = e + 1 + hspace_len(s, e + 1);
        q < s.len() && (s[q] == ',' || s[q] == ']' || s[q] == '}')
    })
}

/// Where the parse of a value may stop when the value's text ends at `e`:
/// at `e`, or within the line feed and the spaces or tabs behind it.
pub open spec fn lands(s: Seq<char>, e: int, x: int) -> bool {
    x == e || (0 <= e < s.len() && s[e] == '\n' && e < x <= e + 1 + hspace_len(s, e + 1))
}

/// From wherever the parse of a value stopped, the trivia runs up to the
/// `,`, `]` or `}` behind the break.
pub proof fn lemma_lands(s: Seq<char>, e: int, x: int)
    requires
        0 <= e < s.len(),
        breaks_at(s, e),
        lands(s, e, x),
    ensures
        x + trivia_len(s, x) == e + 1 + hspace_len(s, e + 1),
{
    let q = e + 1 + hspace_len(s, e + 1);
    lemma_run(s, e + 1, CharClass::Horizontal);
    assert forall|i: int| x <= i < q implies CharClass::Whitespace.holds(#[trigger] s[i]) by {
        if i > e {
            assert(CharClass::Horizontal.holds(s[i]));
        }
    }
    lemma_run_split(s, x, q, CharClass::Whitespace);
    assert(run_len(s, q, CharClass::Whitespace) == 0);
    assert(whitespace_len(s, x) == q - x);
}

/// A line feed and indentation before a `,`, `]` or `}` are a break, and
/// the spaces of the indentation are all that stands between.
pub proof fn lemma_break(s: Seq<char>, e: int, level: nat)
    requires
        0 <= e,
        has_prefix_at(s, e, seq!['\n'] + indentation(level)),
        e + 1 + 2 * level < s.len(),
        s[e + 1 + 2 * level] == ',' || s[e + 1 + 2 * level] == ']' || s[e + 1 + 2 * level] == '}',
    ensures
        hspace_len(s, e + 1) == 2 * level,
        breaks_at(s, e),
{
    lemma_indentation(level);
    lemma_prefix_split(s, e, seq!['\n'], indentation(level));
    lemma_prefix_char(s, e, seq!['\n'], 0);
    let q = e + 1 + 2 * level;
    assert forall|i: int| e + 1 <= i < q implies CharClass::Horizontal.holds(#[trigger] s[i]) by {
        lemma_prefix_char(s, e + 1, indentation(level), i - (e + 1));
    }
    lemma_run_split(s, e + 1, q, CharClass::Horizontal);
    assert(run_len(s, q, CharClass::Horizontal) == 0);
}

/// Whether a text begins as a value does: with a character that is no
/// whitespace, no `,`, `]` or `}`, and does not open a comment.
pub open spec fn starts_value(text: Seq<char>) -> bool {
    &&& text.len() > 0
    &&& !is_whitespace(text[0])
    &&& text[0] != ','
    &&& text[0] != ']'
    &&& text[0] != '}'
    &&& !is_line_comment_at(text, 0)
    &&& !is_block_comment_at(text, 0)
}

/// Whether the value at `p` is the tree, and takes so many characters.
#[verifier::opaque]
pub open spec fn value_is(s: Seq<char>, p: int, tree: Tree, taken: nat) -> bool {
    value_at(s, p) == Ok::<(Tree, nat), Failure>((tree, taken))
}

/// Whether the value at `p` is the tree whose text of length `n` stands
/// there: the parse gives the tree, and stops where the text ends or in
/// the break behind it.
pub open spec fn reads_as(s: Seq<char>, p: int, tree: Tree, n: nat) -> bool {
    exists|taken: nat| #[trigger] value_is(s, p, tree, taken) && lands(s, p + n, p + taken)
}

/// Whether a scalar reads back: its text begins as a value does, and
/// wherever the text stands before a break, the value there is the scalar.
pub open spec fn reads_back(tree: Tree) -> bool {
    &&& starts_value(emitted(tree, 0))
    &&& forall|s: Seq<char>, p: int|
        0 <= p && #[trigger] has_prefix_at(s, p, emitted(tree, 0)) && breaks_at(
            s,
            p + emitted(tree, 0).len(),
        ) ==> reads_as(s, p, tree, emitted(tree, 0).len())
}

/// Whether a tree is written so that it can be read back: its scalars
/// read back, the keys of its objects are identifiers and occur once, and
/// the only empty strings are values of entries.
pub open spec fn faithful(tree: Tree) -> bool
    decreases tree,
{
    match tree {
        Tree::Array(items) => forall|i: int|
            0 <= i < items.len() ==> faithful(#[trigger] items[i]),
        Tree::Object(entries) => {
            &&& keys_distinct(entries)
            &&& forall|i: int|
                0 <= i < entries.len() ==> is_identifier((#[trigger] entries[i]).0) && (
                entries[i].1 == Tree::Str(Seq::empty()) || faithful(entries[i].1))
        },
        _ => reads_back(tree),
    }
}

/// The closing line of an array or object: a line feed, the indentation
/// and the bracket.
pub open spec fn closing(level: nat, bracket: char) -> Seq<char> {
    (seq!['\n'] + indentation(level)).push(bracket)
}

/// The text of an array from what leads its item `k` on.
pub open spec fn items_tail(items: Seq<Tree>, level: nat, k: int) -> Seq<char>
    decreases items.len() - k,
{
    if k < 0 || k >= items.len() {
        closing(level, ']')
    } else {
        part_lead(k, level) + emitted(items[k], level + 1) + items_tail(items, level, k + 1)
    }
}

/// The text of an entry: `:key value`.
pub open spec fn emitted_entry(entry: (Seq<char>, Tree), level: nat) -> Seq<char> {
    seq![':'] + escaped_key(entry.0) + seq![' '] + emitted(entry.1, level + 1)
}

/// The text of an object from what leads its entry `k` on.
pub open spec fn entries_tail(entries: Entries, level: nat, k: int) -> Seq<char>
    decreases entries.len() - k,
{
    if k < 0 || k >= entries.len() {
        closing(level, '}')
    } else {
        part_lead(k, level) + emitted_entry(entries[k], level) + entries_tail(
            entries,
            level,
            k + 1,
        )
    }
}

proof fn lemma_items_tail(items: Seq<Tree>, level: nat, k: int)
    requires
        0 <= k <= items.len(),
    ensures
        emitted_items(items.take(k), level) + items_tail(items, level, k) == emitted_items(
            items,
            level,
        ) + closing(level, ']'),
    decreases items.len() - k,
{
    if k == items.len() {
        assert(items.take(k) =~= items);
    } else {
        lemma_items_tail(items, level, k + 1);
        let longer = items.take(k + 1);
        assert(longer.drop_last() =~= items.take(k));
        assert(longer.last() == items[k]);
        assert(emitted_items(longer, level) == emitted_items(items.take(k), level) + part_lead(
            k,
            level,
        ) + emitted(items[k], level + 1));
        assert(emitted_items(items.take(k), level) + items_tail(items, level, k) =~= emitted_items(
            longer,
            level,
        ) + items_tail(items, level, k + 1));
    }
}

proof fn lemma_entries_tail(entries: Entries, level: nat, k: int)
    requires
        0 <= k <= entries.len(),
    ensures
        emitted_entries(entries.take(k), level) + entries_tail(entries, level, k)
            == emitted_entries(entries, level) + closing(level, '}'),
    decreases entries.len() - k,
{
    if k == entries.len() {
        assert(entries.take(k) =~= entries);
    } else {
        lemma_entries_tail(entries, level, k + 1);
        let longer = entries.take(k + 1);
        assert(longer.drop_last() =~= entries.take(k));
        assert(longer.last() == entries[k]);
        assert(emitted_entries(longer, level) =~= emitted_entries(entries.take(k), level)
            + part_lead(k, level) + emitted_entry(entries[k], level));
        assert(emitted_entries(entries.take(k), level) + entries_tail(entries, level, k)
            =~= emitted_entries(longer, level) + entries_tail(entries, level, k + 1));
    }
}

/// An array that is not empty is written as `[` and its items from the
/// first on.
pub proof fn lemma_emitted_array(items: Seq<Tree>, level: nat)
    requires
        items.len() > 0,
    ensures
        emitted(Tree::Array(items), level) == seq!['['] + items_tail(items, level, 0),
{
    lemma_items_tail(items, level, 0);
    assert(items.take(0) =~= Seq::<Tree>::empty());
    assert(emitted_items(items.take(0), level) + items_tail(items, level, 0) =~= items_tail(
        items,
        level,
        0,
    ));
    assert(emitted(Tree::Array(items), level) =~= seq!['['] + (emitted_items(items, level)
        + closing(level, ']')));
}

/// An object that is not empty is written as `{` and its entries from the
/// first on.
pub proof fn lemma_emitted_object(entries: Entries, level: nat)
    requires
        entries.len() > 0,
    ensures
        emitted(Tree::Object(entries), level) == seq!['{'] + entries_tail(entries, level, 0),
{
    lemma_entries_tail(entries, level, 0);
    assert(entries.take(0) =~= Entries::empty());
    assert(emitted_entries(entries.take(0), level) + entries_tail(entries, level, 0)
        =~= entries_tail(entries, level, 0));
    assert(emitted(Tree::Object(entries), level) =~= seq!['{'] + (emitted_entries(entries, level)
        + closing(level, '}')));
}

/// Where a closing line stands, a break stands, and the bracket behind
/// its indentation.
proof fn lemma_closing(s: Seq<char>, e: int, level: nat, bracket: char)
    requires
        0 <= e,
        has_prefix_at(s, e, closing(level, bracket)),
        bracket == ']' || bracket == '}',
    ensures
        closing(level, bracket).len() == 2 * level + 2,
        breaks_at(s, e),
        e < s.len(),
        s[e] == '\n',
        hspace_len(s, e + 1) == 2 * level,
        e + 1 + 2 * level < s.len(),
        s[e + 1 + 2 * level] == bracket,
{
    lemma_indentation(level);
    let line = seq!['\n'] + indentation(level);
    assert(closing(level, bracket) =~= line + seq![bracket]);
    lemma_prefix_split(s, e, line, seq![bracket]);
    lemma_prefix_char(s, e + line.len(), seq![bracket], 0);
    lemma_break(s, e, level);
}

/// Where the lead of a later part stands, a break stands, then the `,`
/// behind the indentation and a space.
proof fn lemma_lead(s: Seq<char>, e: int, level: nat, k: int)
    requires
        0 <= e,
        k > 0,
        has_prefix_at(s, e, part_lead(k, level)),
    ensures
        part_lead(k, level).len() == 2 * level + 5,
        breaks_at(s, e),
        e < s.len(),
        s[e] == '\n',
        hspace_len(s, e + 1) == 2 * level + 2,
        e + 2 * level + 4 < s.len(),
        s[e + 2 * level + 3] == ',',
        s[e + 2 * level + 4] == ' ',
{
    lemma_indentation(level + 1);
    let line = seq!['\n'] + indentation(level + 1);
    lemma_prefix_split(s, e, line, seq![',', ' ']);
    lemma_prefix_char(s, e + line.len(), seq![',', ' '], 0);
    lemma_prefix_char(s, e + line.len(), seq![',', ' '], 1);
    lemma_break(s, e, level + 1);
}

/// A text that begins as a value does, standing before a line feed or
/// the end, begins a value where it stands: no trivia is before it.
proof fn lemma_starts_value(s: Seq<char>, p: int, text: Seq<char>)
    requires
        0 <= p,
        has_prefix_at(s, p, text),
        starts_value(text),
        p + text.len() == s.len() || s[p + text.len()] == '\n',
    ensures
        trivia_len(s, p) == 0,
        value_starts_at(s, p),
        p < s.len(),
        s[p] != ']' && s[p] != '}' && s[p] != ',',
        s[p] == text[0],
        !is_hspace(s[p]),
{
    lemma_prefix_char(s, p, text, 0);
    if text.len() > 1 {
        lemma_prefix_char(s, p, text, 1);
    }
    assert(run_len(s, p, CharClass::Whitespace) == 0);
    assert(whitespace_len(s, p) == 0);
}

/// One space before a value is all the trivia before it.
proof fn lemma_space_before(s: Seq<char>, p: int)
    requires
        0 <= p,
        p + 1 < s.len(),
        s[p] == ' ',
        trivia_len(s, p + 1) == 0,
        !is_whitespace(s[p + 1]),
    ensures
        trivia_len(s, p) == 1,
        hspace_len(s, p) == 1,
{
    assert(run_len(s, p + 1, CharClass::Whitespace) == 0);
    assert(run_len(s, p, CharClass::Whitespace) == 1 + run_len(s, p + 1, CharClass::Whitespace));
    assert(whitespace_len(s, p) == 1);
    assert(whitespace_len(s, p + 1) == 0);
    assert(run_len(s, p + 1, CharClass::Horizontal) == 0);
    assert(run_len(s, p, CharClass::Horizontal) == 1 + run_len(s, p + 1, CharClass::Horizontal));
}

/// Whether the rest of an array from `x` on, after the items `read`, is
/// read as the array of `items`, and takes so many characters.
#[verifier::opaque]
pub open spec fn items_are(s: Seq<char>, x: int, read: Seq<Tree>, items: Seq<Tree>, n: nat) -> bool {
    items_from(s, x, read) == Ok::<(Tree, nat), Failure>((Tree::Array(items), n))
}

/// Whether the rest of an object from `x` on, after the entries `read`,
/// is read as the object of `entries`, and takes so many characters.
#[verifier::opaque]
pub open spec fn fields_are(s: Seq<char>, x: int, read: Entries, entries: Entries, n: nat) -> bool {
    fields_from(s, x, read) == Ok::<(Tree, nat), Failure>((Tree::Object(entries), n))
}

/// Whether the field at `p` is `:key value`, and takes so many characters.
#[verifier::opaque]
pub open spec fn field_is(s: Seq<char>, p: int, key: Seq<char>, value: Tree, taken: nat) -> bool {
    field_at(s, p) == Ok::<(Field, nat), Failure>(
        (Field { key, modifier: KeyModifier::Merge, value }, taken),
    )
}

proof fn lemma_step_items_end(s: Seq<char>, x: int, c: int, read: Seq<Tree>)
    requires
        x + trivia_len(s, x) == c,
        0 <= c < s.len(),
        s[c] == ']',
    ensures
        items_are(s, x, read, read, (c + 1 - x) as nat),
{
    reveal(items_are);
}

proof fn lemma_step_items_next(
    s: Seq<char>,
    x: int,
    c: int,
    start: int,
    read: Seq<Tree>,
    item: Tree,
    taken: nat,
    items: Seq<Tree>,
    m: nat,
)
    requires
        x + trivia_len(s, x) == c,
        0 <= c < s.len(),
        s[c] == ',',
        c + 1 + trivia_len(s, c + 1) == start,
        start < s.len(),
        s[start] != ']',
        value_is(s, start, item, taken),
        items_are(s, start + taken, read.push(item), items, m),
    ensures
        items_are(s, x, read, items, (m + start + taken - x) as nat),
{
    reveal(items_are);
    reveal(value_is);
}

proof fn lemma_step_array_empty(s: Seq<char>, p: int)
    requires
        0 <= p,
        p + 1 < s.len(),
        s[p] == '[',
        s[p + 1] == ']',
    ensures
        value_is(s, p, Tree::Array(Seq::empty()), 2),
{
    reveal(value_is);
    reveal(value_at);
    assert(run_len(s, p, CharClass::Whitespace) == 0);
    assert(run_len(s, p + 1, CharClass::Whitespace) == 0);
    assert(trivia_len(s, p) == 0);
    assert(trivia_len(s, p + 1) == 0);
}

proof fn lemma_step_array(
    s: Seq<char>,
    p: int,
    start: int,
    item: Tree,
    taken: nat,
    items: Seq<Tree>,
    m: nat,
)
    requires
        0 <= p < s.len(),
        s[p] == '[',
        p + 1 + trivia_len(s, p + 1) == start,
        start < s.len(),
        s[start] != ']',
        value_is(s, start, item, taken),
        items_are(s, start + taken, seq![item], items, m),
    ensures
        value_is(s, p, Tree::Array(items), (m + start + taken - p) as nat),
{
    reveal(items_are);
    reveal(value_is);
    reveal(value_at);
    assert(run_len(s, p, CharClass::Whitespace) == 0);
    assert(trivia_len(s, p) == 0);
}

proof fn lemma_step_fields_end(s: Seq<char>, x: int, c: int, read: Entries)
    requires
        x + trivia_len(s, x) == c,
        0 <= c < s.len(),
        s[c] == '}',
    ensures
        fields_are(s, x, read, read, (c + 1 - x) as nat),
{
    reveal(fields_are);
}

proof fn lemma_step_fields_next(
    s: Seq<char>,
    x: int,
    c: int,
    start: int,
    read: Entries,
    key: Seq<char>,
    value: Tree,
    taken: nat,
    entries: Entries,
    m: nat,
)
    requires
        x + trivia_len(s, x) == c,
        0 <= c < s.len(),
        s[c] == ',',
        c + 1 + trivia_len(s, c + 1) == start,
        start < s.len(),
        s[start] != '}',
        field_is(s, start, key, value, taken),
        !has_key(read, key),
        fields_are(s, start + taken, read.push((key, value)), entries, m),
    ensures
        fields_are(s, x, read, entries, (m + start + taken - x) as nat),
{
    reveal(fields_are);
    reveal(field_is);
}

proof fn lemma_step_object_empty(s: Seq<char>, p: int)
    requires
        0 <= p,
        p + 1 < s.len(),
        s[p] == '{',
        s[p + 1] == '}',
    ensures
        value_is(s, p, Tree::Object(Seq::empty()), 2),
{
    reveal(value_is);
    reveal(value_at);
    assert(run_len(s, p, CharClass::Whitespace) == 0);
    assert(run_len(s, p + 1, CharClass::Whitespace) == 0);
    assert(trivia_len(s, p) == 0);
    assert(trivia_len(s, p + 1) == 0);
}

proof fn lemma_step_object(
    s: Seq<char>,
    p: int,
    start: int,
    key: Seq<char>,
    value: Tree,
    taken: nat,
    entries: Entries,
    m: nat,
)
    requires
        0 <= p < s.len(),
        s[p] == '{',
        p + 1 + trivia_len(s, p + 1) == start,
        start < s.len(),
        s[start] != '}',
        field_is(s, start, key, value, taken),
        fields_are(s, start + taken, seq![(key, value)], entries, m),
    ensures
        value_is(s, p, Tree::Object(entries), (m + start + taken - p) as nat),
{
    reveal(fields_are);
    reveal(field_is);
    reveal(value_is);
    reveal(value_at);
    assert(run_len(s, p, CharClass::Whitespace) == 0);
    assert(trivia_len(s, p) == 0);
    assert(!has_key(Entries::empty(), key));
    assert(Entries::empty().push((key, value)) =~= seq![(key, value)]);
}

/// An identifier that stands before a character that cannot continue it
/// is read as it is.
proof fn lemma_identifier_reads(s: Seq<char>, p: int, name: Seq<char>)
    requires
        0 <= p,
        has_prefix_at(s, p, name),
        is_identifier(name),
        p + name.len() == s.len() || !is_ident_continue(s[p + name.len()]),
    ensures
        identifier_at(s, p) == Ok::<(Seq<char>, nat), Failure>((name, name.len())),
{
    lemma_prefix_char(s, p, name, 0);
    assert forall|i: int| p + 1 <= i < p + name.len() implies CharClass::Identifier.holds(
        #[trigger] s[i],
    ) by {
        lemma_prefix_char(s, p, name, i - p);
    }
    lemma_run_split(s, p + 1, p + name.len(), CharClass::Identifier);
    assert(run_len(s, p + name.len(), CharClass::Identifier) == 0);
}

proof fn lemma_step_field(s: Seq<char>, a: int, key: Seq<char>, value: Tree, taken: nat)
    requires
        0 <= a,
        is_identifier(key),
        has_prefix_at(s, a, (seq![':'] + key).push(' ')),
        hspace_len(s, a + key.len() + 1) == 1,
        value_starts_at(s, a + key.len() + 2),
        value_is(s, a + key.len() + 2, value, taken),
    ensures
        field_is(s, a, key, value, (key.len() + 2 + taken) as nat),
{
    reveal(field_is);
    reveal(value_is);
    reveal(field_at);
    let lead = (seq![':'] + key).push(' ');
    assert(lead =~= seq![':'] + (key + seq![' ']));
    lemma_prefix_split(s, a, seq![':'], key + seq![' ']);
    lemma_prefix_split(s, a + 1, key, seq![' ']);
    lemma_prefix_char(s, a, seq![':'], 0);
    lemma_prefix_char(s, a + 1 + key.len(), seq![' '], 0);
    lemma_identifier_reads(s, a + 1, key);
}

proof fn lemma_step_field_empty(s: Seq<char>, a: int, key: Seq<char>)
    requires
        0 <= a,
        is_identifier(key),
        has_prefix_at(s, a, (seq![':'] + key).push(' ')),
        hspace_len(s, a + key.len() + 1) == 1,
        a + key.len() + 2 < s.len(),
        !value_starts_at(s, a + key.len() + 2),
        !value_starts_at(s, a + key.len() + 2 + trivia_len(s, a + key.len() + 2)),
    ensures
        field_is(s, a, key, Tree::Str(Seq::empty()), (key.len() + 2) as nat),
{
    reveal(field_is);
    reveal(field_at);
    let lead = (seq![':'] + key).push(' ');
    assert(lead =~= seq![':'] + (key + seq![' ']));
    lemma_prefix_split(s, a, seq![':'], key + seq![' ']);
    lemma_prefix_split(s, a + 1, key, seq![' ']);
    lemma_prefix_char(s, a, seq![':'], 0);
    lemma_prefix_char(s, a + 1 + key.len(), seq![' '], 0);
    lemma_identifier_reads(s, a + 1, key);
}

/// An identifier is written as a key as it is.
pub proof fn lemma_key_written(key: Seq<char>)
    requires
        is_identifier(key),
    ensures
        escaped_key(key) == key,
{
    lemma_key_chars(key, key.len() as int);
    assert(key.take(key.len() as int) =~= key);
}

proof fn lemma_key_chars(key: Seq<char>, i: int)
    requires
        is_identifier(key),
        1 <= i <= key.len(),
    ensures
        key_chars(key.take(i)) == key.take(i),
    decreases i,
{
    let part = key.take(i);
    assert(part.drop_last() =~= key.take(i - 1));
    assert(part.last() == key[i - 1]);
    if i == 1 {
        assert(key_chars(part.drop_last()) =~= Seq::<char>::empty());
        assert(seq![key[0]] =~= part);
    } else {
        lemma_key_chars(key, i - 1);
        assert(key.take(i - 1).push(key[i - 1]) =~= part);
    }
}

/// The empty string is written as nothing.
pub proof fn lemma_empty_string_written(level: nat)
    ensures
        emitted(Tree::Str(Seq::empty()), level) == Seq::<char>::empty(),
{
    reveal_strlit("true");
    reveal_strlit("false");
    reveal_strlit("null");
    reveal_strlit("inf");
    reveal_strlit("-inf");
    reveal_strlit("nan");
    let empty = Seq::<char>::empty();
    assert(crate::text::trim_start(empty) =~= empty);
    assert(crate::text::trim_end(empty) =~= empty);
    assert(!crate::convert::needs_escape(empty));
}

/// The rest of an array, from after an item on, begins with a break.
proof fn lemma_items_tail_breaks(s: Seq<char>, e: int, items: Seq<Tree>, level: nat, k: int)
    requires
        1 <= k <= items.len(),
        0 <= e,
        has_prefix_at(s, e, items_tail(items, level, k)),
    ensures
        breaks_at(s, e),
        e < s.len(),
        s[e] == '\n',
        1 + hspace_len(s, e + 1) < items_tail(items, level, k).len(),
{
    if k == items.len() {
        lemma_closing(s, e, level, ']');
    } else {
        let lead = part_lead(k, level);
        let text = emitted(items[k], level + 1);
        let rest = items_tail(items, level, k + 1);
        lemma_prefix_split(s, e, lead + text, rest);
        lemma_prefix_split(s, e, lead, text);
        lemma_lead(s, e, level, k);
    }
}

/// The rest of an object, from after an entry on, begins with a break.
proof fn lemma_entries_tail_breaks(s: Seq<char>, e: int, entries: Entries, level: nat, k: int)
    requires
        1 <= k <= entries.len(),
        0 <= e,
        has_prefix_at(s, e, entries_tail(entries, level, k)),
    ensures
        breaks_at(s, e),
        e < s.len(),
        s[e] == '\n',
        1 + hspace_len(s, e + 1) < entries_tail(entries, level, k).len(),
{
    if k == entries.len() {
        lemma_closing(s, e, level, '}');
    } else {
        let lead = part_lead(k, level);
        let text = emitted_entry(entries[k], level);
        let rest = entries_tail(entries, level, k + 1);
        lemma_prefix_split(s, e, lead + text, rest);
        lemma_prefix_split(s, e, lead, text);
        lemma_lead(s, e, level, k);
    }
}

/// The items of an array are read back from their text: from after an
/// item on, the rest of the array is read as it was written.
proof fn lemma_items_read_back(
    s: Seq<char>,
    e: int,
    x: int,
    items: Seq<Tree>,
    level: nat,
    k: int,
)
    requires
        1 <= k <= items.len(),
        forall|i: int| 0 <= i < items.len() ==> faithful(#[trigger] items[i]),
        0 <= e,
        has_prefix_at(s, e, items_tail(items, level, k)),
        lands(s, e, x),
    ensures
        items_are(s, x, items.take(k), items, (e + items_tail(items, level, k).len() - x) as nat),
    decreases items, items.len() - k,
{
    if k == items.len() {
        lemma_closing(s, e, level, ']');
        lemma_lands(s, e, x);
        lemma_step_items_end(s, x, e + 1 + 2 * level, items.take(k));
        assert(items.take(k) =~= items);
    } else {
        let lead = part_lead(k, level);
        let text = emitted(items[k], level + 1);
        let rest = items_tail(items, level, k + 1);
        lemma_prefix_split(s, e, lead + text, rest);
        lemma_prefix_split(s, e, lead, text);
        lemma_lead(s, e, level, k);
        lemma_lands(s, e, x);
        let c = e + 2 * level + 3;
        let start = c + 2;
        let end = start + text.len();
        lemma_items_tail_breaks(s, end, items, level, k + 1);
        lemma_value_reads_back(s, start, items[k], level + 1);
        lemma_starts_value(s, start, text);
        lemma_space_before(s, c + 1);
        let taken = choose|taken: nat| #[trigger]
            value_is(s, start, items[k], taken) && lands(s, end, start + taken);
        lemma_items_read_back(s, end, start + taken, items, level, k + 1);
        assert(items.take(k).push(items[k]) =~= items.take(k + 1));
        lemma_step_items_next(
            s,
            x,
            c,
            start,
            items.take(k),
            items[k],
            taken,
            items,
            (end + rest.len() - (start + taken)) as nat,
        );
    }
}

/// An entry is read back from its text, wherever it stands before a
/// break.
proof fn lemma_entry_reads_back(s: Seq<char>, a: int, entries: Entries, level: nat, k: int) -> (taken:
    nat)
    requires
        0 <= k < entries.len(),
        faithful(Tree::Object(entries)),
        0 <= a,
        has_prefix_at(s, a, emitted_entry(entries[k], level)),
        breaks_at(s, a + emitted_entry(entries[k], level).len()),
    ensures
        field_is(s, a, entries[k].0, entries[k].1, taken),
        lands(s, a + emitted_entry(entries[k], level).len(), a + taken),
        a < s.len(),
        s[a] == ':',
    decreases entries, 0int,
{
    let key = entries[k].0;
    let value = entries[k].1;
    let text = emitted(value, level + 1);
    let lead = (seq![':'] + key).push(' ');
    lemma_key_written(key);
    assert(emitted_entry(entries[k], level) =~= lead + text);
    lemma_prefix_split(s, a, lead, text);
    lemma_prefix_char(s, a, lead, 0);
    lemma_prefix_char(s, a, lead, key.len() as int + 1);
    let start = a + key.len() + 2;
    let end = start + text.len();
    if value == Tree::Str(Seq::empty()) {
        lemma_empty_string_written(level + 1);
        assert(end == start);
        if start < s.len() {
            lemma_lands(s, start, start);
            assert(run_len(s, start, CharClass::Horizontal) == 0);
            assert(run_len(s, start - 1, CharClass::Horizontal) == 1 + run_len(
                s,
                start,
                CharClass::Horizontal,
            ));
            lemma_step_field_empty(s, a, key);
            (key.len() + 2) as nat
        } else {
            assert(run_len(s, start, CharClass::Horizontal) == 0);
            assert(run_len(s, start - 1, CharClass::Horizontal) == 1 + run_len(
                s,
                start,
                CharClass::Horizontal,
            ));
            lemma_field_at_end(s, a, key);
            (key.len() + 2) as nat
        }
    } else {
        lemma_value_reads_back(s, start, value, level + 1);
        lemma_starts_value(s, start, text);
        assert(run_len(s, start, CharClass::Horizontal) == 0);
        assert(run_len(s, start - 1, CharClass::Horizontal) == 1 + run_len(
            s,
            start,
            CharClass::Horizontal,
        ));
        let taken = choose|taken: nat| #[trigger]
            value_is(s, start, value, taken) && lands(s, end, start + taken);
        lemma_step_field(s, a, key, value, taken);
        (key.len() + 2 + taken) as nat
    }
}

/// A field whose key and space end the text has the empty string as its
/// value.
proof fn lemma_field_at_end(s: Seq<char>, a: int, key: Seq<char>)
    requires
        0 <= a,
        is_identifier(key),
        has_prefix_at(s, a, (seq![':'] + key).push(' ')),
        hspace_len(s, a + key.len() + 1) == 1,
        a + key.len() + 2 == s.len(),
    ensures
        field_is(s, a, key, Tree::Str(Seq::empty()), (key.len() + 2) as nat),
{
    reveal(field_is);
    reveal(field_at);
    let lead = (seq![':'] + key).push(' ');
    assert(lead =~= seq![':'] + (key + seq![' ']));
    lemma_prefix_split(s, a, seq![':'], key + seq![' ']);
    lemma_prefix_split(s, a + 1, key, seq![' ']);
    lemma_prefix_char(s, a, seq![':'], 0);
    lemma_prefix_char(s, a + 1 + key.len(), seq![' '], 0);
    lemma_identifier_reads(s, a + 1, key);
}

/// The entries of an object are read back from their text: from after
/// an entry on, the rest of the object is read as it was written.
proof fn lemma_fields_read_back(
    s: Seq<char>,
    e: int,
    x: int,
    entries: Entries,
    level: nat,
    k: int,
)
    requires
        1 <= k <= entries.len(),
        faithful(Tree::Object(entries)),
        0 <= e,
        has_prefix_at(s, e, entries_tail(entries, level, k)),
        lands(s, e, x),
    ensures
        fields_are(
            s,
            x,
            entries.take(k),
            entries,
            (e + entries_tail(entries, level, k).len() - x) as nat,
        ),
    decreases entries, entries.len() - k,
{
    if k == entries.len() {
        lemma_closing(s, e, level, '}');
        lemma_lands(s, e, x);
        lemma_step_fields_end(s, x, e + 1 + 2 * level, entries.take(k));
        assert(entries.take(k) =~= entries);
    } else {
        let lead = part_lead(k, level);
        let text = emitted_entry(entries[k], level);
        let rest = entries_tail(entries, level, k + 1);
        lemma_prefix_split(s, e, lead + text, rest);
        lemma_prefix_split(s, e, lead, text);
        lemma_lead(s, e, level, k);
        lemma_lands(s, e, x);
        let c = e + 2 * level + 3;
        let start = c + 2;
        let end = start + text.len();
        lemma_entries_tail_breaks(s, end, entries, level, k + 1);
        let taken = lemma_entry_reads_back(s, start, entries, level, k);
        assert(run_len(s, start, CharClass::Whitespace) == 0);
        assert(whitespace_len(s, start) == 0);
        assert(trivia_len(s, start) == 0);
        lemma_space_before(s, c + 1);
        lemma_fields_read_back(s, end, start + taken, entries, level, k + 1);
        assert(entries.take(k).push(entries[k]) =~= entries.take(k + 1));
        assert(!has_key(entries.take(k), entries[k].0)) by {
            if has_key(entries.take(k), entries[k].0) {
                let i = choose|i: int|
                    0 <= i < entries.take(k).len() && (#[trigger] entries.take(k)[i]).0
                        == entries[k].0;
                assert(entries[i].0 == entries[k].0);
            }
        }
        lemma_step_fields_next(
            s,
            x,
            c,
            start,
            entries.take(k),
            entries[k].0,
            entries[k].1,
            taken,
            entries,
            (end + rest.len() - (start + taken)) as nat,
        );
    }
}

/// A tree that is written faithfully is read back from its text,
/// wherever the text stands before a break.
pub proof fn lemma_value_reads_back(s: Seq<char>, p: int, tree: Tree, level: nat)
    requires
        0 <= p,
        faithful(tree),
        has_prefix_at(s, p, emitted(tree, level)),
        breaks_at(s, p + emitted(tree, level).len()),
    ensures
        reads_as(s, p, tree, emitted(tree, level).len()),
        starts_value(emitted(tree, level)),
    decreases tree, 0int,
{
    let text = emitted(tree, level);
    match tree {
        Tree::Array(items) => {
            if items.len() == 0 {
                reveal_strlit("[]");
                lemma_prefix_char(s, p, text, 0);
                lemma_prefix_char(s, p, text, 1);
                lemma_step_array_empty(s, p);
                assert(items =~= Seq::<Tree>::empty());
            } else {
                lemma_emitted_array(items, level);
                let first = emitted(items[0], level + 1);
                let rest = items_tail(items, level, 1);
                assert(part_lead(0, level) =~= seq![' ']);
                assert(text =~= seq!['[', ' '] + first + rest);
                lemma_prefix_split(s, p, seq!['[', ' '] + first, rest);
                lemma_prefix_split(s, p, seq!['[', ' '], first);
                lemma_prefix_char(s, p, seq!['[', ' '], 0);
                lemma_prefix_char(s, p, seq!['[', ' '], 1);
                let start = p + 2;
                let end = start + first.len();
                lemma_items_tail_breaks(s, end, items, level, 1);
                lemma_value_reads_back(s, start, items[0], level + 1);
                lemma_starts_value(s, start, first);
                lemma_space_before(s, p + 1);
                let taken = choose|taken: nat| #[trigger]
                    value_is(s, start, items[0], taken) && lands(s, end, start + taken);
                lemma_items_read_back(s, end, start + taken, items, level, 1);
                assert(seq![items[0]] =~= items.take(1));
                lemma_step_array(
                    s,
                    p,
                    start,
                    items[0],
                    taken,
                    items,
                    (end + rest.len() - (start + taken)) as nat,
                );
            }
        },
        Tree::Object(entries) => {
            if entries.len() == 0 {
                reveal_strlit("{}");
                lemma_prefix_char(s, p, text, 0);
                lemma_prefix_char(s, p, text, 1);
                lemma_step_object_empty(s, p);
                assert(entries =~= Entries::empty());
            } else {
                lemma_emitted_object(entries, level);
                let first = emitted_entry(entries[0], level);
                let rest = entries_tail(entries, level, 1);
                assert(part_lead(0, level) =~= seq![' ']);
                assert(text =~= seq!['{', ' '] + first + rest);
                lemma_prefix_split(s, p, seq!['{', ' '] + first, rest);
                lemma_prefix_split(s, p, seq!['{', ' '], first);
                lemma_prefix_char(s, p, seq!['{', ' '], 0);
                lemma_prefix_char(s, p, seq!['{', ' '], 1);
                let start = p + 2;
                let end = start + first.len();
                lemma_entries_tail_breaks(s, end, entries, level, 1);
                let taken = lemma_entry_reads_back(s, start, entries, level, 0);
                assert(run_len(s, start, CharClass::Whitespace) == 0);
                assert(whitespace_len(s, start) == 0);
                assert(trivia_len(s, start) == 0);
                lemma_space_before(s, p + 1);
                lemma_fields_read_back(s, end, start + taken, entries, level, 1);
                assert(seq![entries[0]] =~= entries.take(1));
                lemma_step_object(
                    s,
                    p,
                    start,
                    entries[0].0,
                    entries[0].1,
                    taken,
                    entries,
                    (end + rest.len() - (start + taken)) as nat,
                );
            }
        },
        _ => {
            assert(text == emitted(tree, 0));
        },
    }
}

/// A tree without references is what its substitution gives.
pub proof fn lemma_substitute_nothing(tree: Tree, scope: Entries)
    requires
        tree.resolved(),
    ensures
        substitute(tree, scope) == Ok::<Tree, Failure>(tree),
    decreases tree, 1int,
{
    match tree {
        Tree::Array(items) => {
            lemma_substitute_no_items(items, scope);
        },
        Tree::Object(entries) => {
            lemma_substitute_no_entries(entries, scope);
        },
        _ => {},
    }
}

proof fn lemma_substitute_no_items(items: Seq<Tree>, scope: Entries)
    requires
        forall|i: int| 0 <= i < items.len() ==> (#[trigger] items[i]).resolved(),
    ensures
        substitute_items(items, scope) == Ok::<Seq<Tree>, Failure>(items),
    decreases items, 0int,
{
    if items.len() > 0 {
        lemma_substitute_no_items(items.drop_last(), scope);
        lemma_substitute_nothing(items.last(), scope);
        assert(items.drop_last().push(items.last()) =~= items);
    } else {
        assert(items =~= Seq::<Tree>::empty());
    }
}

proof fn lemma_substitute_no_entries(entries: Entries, scope: Entries)
    requires
        forall|i: int| 0 <= i < entries.len() ==> (#[trigger] entries[i]).1.resolved(),
    ensures
        substitute_entries(entries, scope) == Ok::<Entries, Failure>(entries),
    decreases entries, 0int,
{
    if entries.len() > 0 {
        lemma_substitute_no_entries(entries.drop_last(), scope);
        lemma_substitute_nothing(entries.last().1, scope);
        assert(entries.drop_last().push((entries.last().0, entries.last().1)) =~= entries);
    } else {
        assert(entries =~= Entries::empty());
    }
}

/// Whether a tree can be read back as a document: it is written
/// faithfully, holds no reference, and its text does not begin like an
/// import directive.
pub open spec fn reads_back_as_document(tree: Tree) -> bool {
    &&& faithful(tree)
    &&& tree.resolved()
    &&& !has_prefix_at(emitted(tree, 0), 0, import_word())
}

/// The document that the text of a tree holds is the tree: a tree that
/// can be read back as a document is the value of the document that its
/// text is, with no import, whatever the scope, which stays as it is.
pub proof fn lemma_written_document(tree: Tree, scope: Entries)
    requires
        reads_back_as_document(tree),
    ensures
        document_at(emitted(tree, 0), 0, scope) == Ok::<Document, Failure>(
            Document { imports: Seq::empty(), scope, value: tree },
        ),
{
    let text = emitted(tree, 0);
    assert(text.subrange(0, text.len() as int) =~= text);
    lemma_value_reads_back(text, 0, tree, 0);
    lemma_starts_value(text, 0, text);
    let taken = choose|taken: nat| #[trigger]
        value_is(text, 0, tree, taken) && lands(text, text.len() as int, taken as int);
    assert(taken == text.len());
    reveal(value_is);
    let end = text.len() as int;
    assert(blocks_from(text, end) == Ok::<Seq<Tree>, Failure>(Seq::empty()));
    let blocks = seq![tree] + Seq::<Tree>::empty();
    assert(blocks_from(text, 0) == Ok::<Seq<Tree>, Failure>(blocks));
    assert(blocks.drop_last() =~= Seq::<Tree>::empty());
    assert(blocks.last() == tree);
    lemma_substitute_nothing(tree, scope);
}

/// What is parsed, written and parsed again is what was parsed: where
/// the value of a document can be read back as a document, the document
/// that its text is has the same value.
pub proof fn lemma_round_trip(s: Seq<char>)
    requires
        document_at(s, 0, Entries::empty()) is Ok,
        reads_back_as_document(document_at(s, 0, Entries::empty())->Ok_0.value),
    ensures
        document_at(
            emitted(document_at(s, 0, Entries::empty())->Ok_0.value, 0),
            0,
            Entries::empty(),
        ) matches Ok(again) && again.value == document_at(s, 0, Entries::empty())->Ok_0.value,
{
    lemma_written_document(document_at(s, 0, Entries::empty())->Ok_0.value, Entries::empty());
}

/// A scalar that stands at `p`, with no trivia before it, is the value
/// at `p`.
proof fn lemma_step_scalar(s: Seq<char>, p: int, tree: Tree, n: nat)
    requires
        0 <= p < s.len(),
        trivia_len(s, p) == 0,
        s[p] != '{' && s[p] != '[' && s[p] != ':' && s[p] != '$' && s[p] != '\\',
        scalar_at(s, p) == (tree, n),
    ensures
        value_is(s, p, tree, n),
{
    reveal(value_is);
    reveal(value_at);
}

/// A word that stands before a line feed or the end stands as a word.
proof fn lemma_word_stands(s: Seq<char>, p: int, word: Seq<char>)
    requires
        0 <= p,
        has_prefix_at(s, p, word),
        p + word.len() == s.len() || s[p + word.len()] == '\n',
    ensures
        word_at(s, p, word),
{
}

/// A word does not stand where a character differs from it.
proof fn lemma_word_differs(s: Seq<char>, p: int, word: Seq<char>, j: int)
    requires
        0 <= j < word.len(),
        p + j >= s.len() || s[p + j] != word[j],
    ensures
        !word_at(s, p, word),
{
    if has_prefix_at(s, p, word) {
        lemma_prefix_char(s, p, word, j);
    }
}

/// Whether a tree is a keyword literal with the text: `null`, `true`,
/// `false`, or a float that is not finite.
pub open spec fn is_keyword(tree: Tree, text: Seq<char>) -> bool {
    ||| tree == Tree::Null && text == "null"@
    ||| tree == Tree::Bool(true) && text == "true"@
    ||| tree == Tree::Bool(false) && text == "false"@
    ||| tree == Tree::Float(text) && (text == "nan"@ || text == "inf"@ || text == "-inf"@)
}

proof fn lemma_keyword_reads(s: Seq<char>, p: int, tree: Tree, text: Seq<char>)
    requires
        0 <= p,
        is_keyword(tree, text),
        has_prefix_at(s, p, text),
        breaks_at(s, p + text.len()),
    ensures
        value_is(s, p, tree, text.len()),
        starts_value(text),
        text == emitted(tree, 0),
{
    reveal_strlit("true");
    reveal_strlit("false");
    reveal_strlit("null");
    reveal_strlit("inf");
    reveal_strlit("-inf");
    reveal_strlit("nan");
    lemma_prefix_char(s, p, text, 0);
    lemma_prefix_char(s, p, text, 1);
    lemma_starts_value(s, p, text);
    lemma_word_stands(s, p, text);
    assert(number_at(s, p) is None);
    if text == "true"@ {
    } else if text == "false"@ {
        lemma_word_differs(s, p, "true"@, 0);
    } else if text == "null"@ {
        lemma_word_differs(s, p, "true"@, 0);
        lemma_word_differs(s, p, "false"@, 0);
    } else if text == "inf"@ {
        lemma_word_differs(s, p, "true"@, 0);
        lemma_word_differs(s, p, "false"@, 0);
        lemma_word_differs(s, p, "null"@, 0);
    } else if text == "-inf"@ {
        lemma_word_differs(s, p, "true"@, 0);
        lemma_word_differs(s, p, "false"@, 0);
        lemma_word_differs(s, p, "null"@, 0);
        lemma_word_differs(s, p, "inf"@, 0);
    } else {
        lemma_word_differs(s, p, "true"@, 0);
        lemma_word_differs(s, p, "false"@, 0);
        lemma_word_differs(s, p, "null"@, 1);
        lemma_word_differs(s, p, "inf"@, 0);
        lemma_word_differs(s, p, "-inf"@, 0);
    }
    lemma_step_scalar(s, p, tree, text.len());
}

/// The keyword literals read back: `null`, `true` and `false`, and the
/// floats `nan`, `inf` and `-inf`, each of which is written as exactly
/// its name.
pub proof fn lemma_keyword_reads_back(tree: Tree, text: Seq<char>)
    requires
        is_keyword(tree, text),
    ensures
        emitted(tree, 0) == text,
        reads_back(tree),
{
    reveal_strlit("true");
    reveal_strlit("false");
    reveal_strlit("null");
    reveal_strlit("inf");
    reveal_strlit("-inf");
    reveal_strlit("nan");
    assert(emitted(tree, 0) == text);
    assert(starts_value(text));
    assert forall|s: Seq<char>, p: int|
        0 <= p && #[trigger] has_prefix_at(s, p, emitted(tree, 0)) && breaks_at(
            s,
            p + emitted(tree, 0).len(),
        ) implies reads_as(s, p, tree, emitted(tree, 0).len()) by {
        lemma_keyword_reads(s, p, tree, text);
    }
}

/// A symbol whose name is an identifier reads back.
pub proof fn lemma_symbol_reads_back(name: Seq<char>)
    requires
        is_identifier(name),
    ensures
        reads_back(Tree::Symbol(name)),
{
    let tree = Tree::Symbol(name);
    let text = seq![':'] + name;
    assert(emitted(tree, 0) == text);
    assert forall|s: Seq<char>, p: int|
        0 <= p && #[trigger] has_prefix_at(s, p, emitted(tree, 0)) && breaks_at(
            s,
            p + emitted(tree, 0).len(),
        ) implies reads_as(s, p, tree, emitted(tree, 0).len()) by {
        lemma_prefix_split(s, p, seq![':'], name);
        lemma_prefix_char(s, p, seq![':'], 0);
        lemma_starts_value(s, p, text);
        lemma_identifier_reads(s, p + 1, name);
        lemma_step_symbol(s, p, name);
    }
}

proof fn lemma_step_symbol(s: Seq<char>, p: int, name: Seq<char>)
    requires
        0 <= p < s.len(),
        trivia_len(s, p) == 0,
        s[p] == ':',
        identifier_at(s, p + 1) == Ok::<(Seq<char>, nat), Failure>((name, name.len())),
    ensures
        value_is(s, p, Tree::Symbol(name), (name.len() + 1) as nat),
{
    reveal(value_is);
    reveal(value_at);
}

/// A run within a text is the same run where the text stands, if what
/// follows the text is not of the run's class.
proof fn lemma_run_frame(s: Seq<char>, p: int, text: Seq<char>, i: int, class: CharClass)
    requires
        0 <= p,
        has_prefix_at(s, p, text),
        0 <= i <= text.len(),
        p + text.len() == s.len() || !class.holds(s[p + text.len()]),
    ensures
        run_len(s, p + i, class) == run_len(text, i, class),
    decreases text.len() - i,
{
    if i < text.len() {
        lemma_prefix_char(s, p, text, i);
        lemma_run_frame(s, p, text, i + 1, class);
    }
}

/// A text that stands before a line feed or the end.
pub open spec fn stands_alone(s: Seq<char>, p: int, text: Seq<char>) -> bool {
    &&& 0 <= p
    &&& has_prefix_at(s, p, text)
    &&& (p + text.len() == s.len() || s[p + text.len()] == '\n')
}

proof fn lemma_stands_alone(s: Seq<char>, p: int, text: Seq<char>)
    requires
        stands_alone(s, p, text),
    ensures
        forall|j: int| 0 <= j < text.len() ==> s[p + j] == #[trigger] text[j],
        p + text.len() <= s.len(),
{
    assert forall|j: int| 0 <= j < text.len() implies s[p + j] == #[trigger] text[j] by {
        lemma_prefix_char(s, p, text, j);
    }
}

/// The shape of a decimal number within a text is its shape where the
/// text stands alone.
proof fn lemma_shape_frame(s: Seq<char>, p: int, text: Seq<char>)
    requires
        stands_alone(s, p, text),
    ensures
        decimal_shape(s, p) == decimal_shape(text, 0),
        decimal_shape(text, 0).len() <= text.len(),
{
    lemma_stands_alone(s, p, text);
    let shape = decimal_shape(text, 0);
    let a = shape.sign as int;
    lemma_run(text, a, CharClass::DecimalBody);
    lemma_run_frame(s, p, text, a, CharClass::DecimalBody);
    let b = a + shape.whole;
    if b + 1 < text.len() {
        lemma_run(text, b + 1, CharClass::DecimalBody);
        lemma_run_frame(s, p, text, b + 1, CharClass::DecimalBody);
    }
    let c = b + shape.fraction;
    if c < text.len() {
        lemma_run(text, c + 1, CharClass::Digit);
        lemma_run_frame(s, p, text, c + 1, CharClass::Digit);
        if c + 1 < text.len() {
            lemma_run(text, c + 2, CharClass::Digit);
            lemma_run_frame(s, p, text, c + 2, CharClass::Digit);
        }
    }
}

proof fn lemma_prefixed_frame(s: Seq<char>, p: int, text: Seq<char>, radix: nat, class: CharClass)
    requires
        stands_alone(s, p, text),
        text.len() >= 2,
        !class.holds('\n'),
    ensures
        prefixed_number(s, p, radix, class) == prefixed_number(text, 0, radix, class),
{
    lemma_stands_alone(s, p, text);
    lemma_run(text, 2, class);
    lemma_run_frame(s, p, text, 2, class);
    let n = run_len(text, 2, class);
    assert(s.subrange(p + 2, p + 2 + n) =~= text.subrange(2, 2 + n as int));
    assert(ends_number(s, p + 2 + n) == ends_number(text, 2 + n as int));
}

proof fn lemma_decimal_frame(s: Seq<char>, p: int, text: Seq<char>)
    requires
        stands_alone(s, p, text),
    ensures
        decimal_number(s, p) == decimal_number(text, 0),
{
    lemma_shape_frame(s, p, text);
    let shape = decimal_shape(text, 0);
    let a = shape.sign as int;
    let n = shape.len() as int;
    assert(0 <= a <= 1);
    if a < text.len() {
        lemma_prefix_char(s, p, text, a);
    }
    if n < text.len() {
        lemma_prefix_char(s, p, text, n);
    }
    let first = 0 <= a < text.len() && is_digit(text[a]);
    assert((0 <= p + a < s.len() && is_digit(s[p + a])) == first);
    assert(ends_number(s, p + n) == ends_number(text, n));
    assert(s.subrange(p, p + n) =~= text.subrange(0, n));
    assert(s.subrange(p + a, p + a + shape.whole) =~= text.subrange(a, a + shape.whole));
}

/// The number within a text is the number where the text stands alone.
proof fn lemma_number_frame(s: Seq<char>, p: int, text: Seq<char>)
    requires
        stands_alone(s, p, text),
    ensures
        number_at(s, p) == number_at(text, 0),
{
    lemma_stands_alone(s, p, text);
    let marked = text.len() >= 2 && text[0] == '0' && radix_of(text[1]) is Some;
    assert((0 <= p && p + 1 < s.len() && s[p] == '0' && radix_of(s[p + 1]) is Some) == marked) by {
        if text.len() >= 1 {
            assert(s[p] == text[0]);
        }
        if text.len() >= 2 {
            assert(s[p + 1] == text[1]);
        }
    }
    if marked {
        let found = radix_of(text[1])->0;
        lemma_prefixed_frame(s, p, text, found.0, found.1);
    } else {
        lemma_decimal_frame(s, p, text);
    }
}

/// The digits of a number are digits, and write the number.
pub proof fn lemma_digits_of(n: nat)
    ensures
        digits_of(n).len() >= 1,
        forall|j: int| 0 <= j < digits_of(n).len() ==> is_digit(#[trigger] digits_of(n)[j]),
        radix_value(digits_of(n), 10) == n,
    decreases n,
{
    let d = n % 10;
    assert(is_digit(digit_char(d)));
    assert(digit_value(digit_char(d)) == d);
    if n < 10 {
        let one = seq![digit_char(n)];
        assert(one.drop_last() =~= Seq::<char>::empty());
        assert(radix_value(one.drop_last(), 10) == 0);
        assert(radix_value(one, 10) == 0 * 10 + digit_value(digit_char(n)));
    } else {
        lemma_digits_of(n / 10);
        let more = digits_of(n / 10).push(digit_char(d));
        assert(more.drop_last() =~= digits_of(n / 10));
        assert(more.last() == digit_char(d));
        assert(radix_value(more, 10) == (n / 10) * 10 + d);
    }
}

/// The decimal text of an integer is the integer, read alone.
proof fn lemma_integer_alone(i: i64)
    ensures
        number_at(decimal_of(i as int), 0) == Some((Tree::Int(i), decimal_of(i as int).len())),
        starts_value(decimal_of(i as int)),
{
    let text = decimal_of(i as int);
    let magnitude: nat = if i < 0 {
        (-i) as nat
    } else {
        i as nat
    };
    let digits = digits_of(magnitude);
    lemma_digits_of(magnitude);
    let sign: int = if i < 0 {
        1
    } else {
        0
    };
    assert(text == if i < 0 {
        seq!['-'] + digits
    } else {
        digits
    });
    assert(text.len() == sign + digits.len());
    assert forall|j: int| sign <= j < text.len() implies CharClass::DecimalBody.holds(
        #[trigger] text[j],
    ) by {
        assert(text[j] == digits[j - sign]);
    }
    assert(is_digit(digits[0]));
    assert(text[sign] == digits[0]);
    lemma_run_split(text, sign, text.len() as int, CharClass::DecimalBody);
    assert(run_len(text, text.len() as int, CharClass::DecimalBody) == 0);
    let shape = decimal_shape(text, 0);
    assert(shape.sign == sign);
    assert(shape.whole == digits.len());
    assert(shape.fraction == 0);
    assert(shape.exponent == 0);
    assert(text.subrange(sign, sign + digits.len()) =~= digits);
    if text.len() >= 2 && text[0] == '0' {
        assert(is_digit(text[1]));
    }
    assert(number_at(text, 0) == decimal_number(text, 0));
}

/// An integer reads back.
pub proof fn lemma_integer_reads_back(i: i64)
    ensures
        reads_back(Tree::Int(i)),
{
    let tree = Tree::Int(i);
    let text = decimal_of(i as int);
    lemma_integer_alone(i);
    assert(emitted(tree, 0) == text);
    assert forall|s: Seq<char>, p: int|
        0 <= p && #[trigger] has_prefix_at(s, p, emitted(tree, 0)) && breaks_at(
            s,
            p + emitted(tree, 0).len(),
        ) implies reads_as(s, p, tree, emitted(tree, 0).len()) by {
        lemma_number_frame(s, p, text);
        lemma_starts_value(s, p, text);
        lemma_digits_of(if i < 0 {
            (-i) as nat
        } else {
            i as nat
        });
        lemma_step_scalar(s, p, tree, text.len());
    }
}

/// Whether a text is a float as it is written: read alone, it is the
/// float that holds it.
pub open spec fn is_float_text(text: Seq<char>) -> bool {
    number_at(text, 0) == Some((Tree::Float(text), text.len()))
}

/// A float that holds a text that is written as a float reads back.
pub proof fn lemma_float_reads_back(text: Seq<char>)
    requires
        is_float_text(text),
    ensures
        reads_back(Tree::Float(text)),
{
    let tree = Tree::Float(text);
    assert(emitted(tree, 0) == text);
    let shape = decimal_shape(text, 0);
    assert(number_at(text, 0) == decimal_number(text, 0));
    assert(starts_value(text));
    assert forall|s: Seq<char>, p: int|
        0 <= p && #[trigger] has_prefix_at(s, p, emitted(tree, 0)) && breaks_at(
            s,
            p + emitted(tree, 0).len(),
        ) implies reads_as(s, p, tree, emitted(tree, 0).len()) by {
        lemma_number_frame(s, p, text);
        lemma_starts_value(s, p, text);
        lemma_step_scalar(s, p, tree, text.len());
    }
}

/// Whether a word stands within a text is whether it stands where the
/// text stands alone.
proof fn lemma_word_frame(s: Seq<char>, p: int, text: Seq<char>, word: Seq<char>)
    requires
        stands_alone(s, p, text),
        forall|j: int| 0 <= j < word.len() ==> #[trigger] word[j] != '\n',
    ensures
        word_at(s, p, word) == word_at(text, 0, word),
{
    lemma_stands_alone(s, p, text);
    if word.len() <= text.len() {
        assert(s.subrange(p, p + word.len()) =~= text.subrange(0, word.len() as int));
    } else if has_prefix_at(s, p, word) {
        lemma_prefix_char(s, p, word, text.len() as int);
    }
}

/// The keyword within a text is the keyword where the text stands alone.
proof fn lemma_keyword_frame(s: Seq<char>, p: int, text: Seq<char>)
    requires
        stands_alone(s, p, text),
    ensures
        keyword_at(s, p) == keyword_at(text, 0),
{
    reveal_strlit("true");
    reveal_strlit("false");
    reveal_strlit("null");
    reveal_strlit("inf");
    reveal_strlit("-inf");
    reveal_strlit("nan");
    lemma_word_frame(s, p, text, "true"@);
    lemma_word_frame(s, p, text, "false"@);
    lemma_word_frame(s, p, text, "null"@);
    lemma_word_frame(s, p, text, "inf"@);
    lemma_word_frame(s, p, text, "-inf"@);
    lemma_word_frame(s, p, text, "nan"@);
}

/// Whether a text is one that a string can hold as it is: it is not
/// empty and neither begins nor ends with whitespace; it holds no
/// carriage return, backslash, `}` or `]`, and no `//` behind a space or
/// tab; and each line feed in it stands between two characters that are
/// no whitespace, the second of which is no `,` and opens no comment.
pub open spec fn is_plain_text(text: Seq<char>) -> bool {
    &&& text.len() > 0
    &&& !is_whitespace(text[0])
    &&& !is_whitespace(text.last())
    &&& forall|i: int|
        0 <= i < text.len() ==> {
            let c = #[trigger] text[i];
            c != '\r' && c != '\\' && c != '}' && c != ']'
        }
    &&& forall|i: int|
        0 <= i < text.len() && #[trigger] text[i] == '\n' ==> {
            &&& 0 < i
            &&& i + 1 < text.len()
            &&& !is_whitespace(text[i - 1])
            &&& !is_whitespace(text[i + 1])
            &&& text[i + 1] != ','
            &&& !is_line_comment_at(text, i + 1)
            &&& !is_block_comment_at(text, i + 1)
        }
    &&& forall|i: int|
        0 <= i < text.len() && is_hspace(#[trigger] text[i]) ==> !is_line_comment_at(
            text,
            i + hspace_len(text, i),
        )
}

/// Whether a string is a plain one: a plain text that is written so that
/// it is read as a string, which is behind a `\`, or as a text that
/// begins with no number, keyword literal, `,` or comment.
pub open spec fn is_plain_string(text: Seq<char>) -> bool {
    &&& is_plain_text(text)
    &&& needs_escape(text) || {
        &&& number_at(text, 0) is None
        &&& keyword_at(text, 0) is None
        &&& text[0] != ','
        &&& !is_line_comment_at(text, 0)
        &&& !is_block_comment_at(text, 0)
    }
}

proof fn lemma_trim_plain(text: Seq<char>)
    requires
        text.len() > 0,
        !is_whitespace(text[0]),
        !is_whitespace(text.last()),
    ensures
        trim(text) == text,
{
}

/// What has been read of a plain text after `i` of its characters.
pub open spec fn read_after(text: Seq<char>, i: int) -> Lines
    decreases i,
{
    if i <= 0 || i > text.len() {
        Lines::start()
    } else if text[i - 1] == '\n' {
        read_after(text, i - 1).closed()
    } else {
        read_after(text, i - 1).with(text[i - 1])
    }
}

/// The text that what has been read makes with the current line as it
/// is.
pub open spec fn joined(read: Lines) -> Seq<char> {
    if read.done.len() == 0 {
        read.current
    } else {
        join_lines(read.done) + seq!['\n'] + read.current
    }
}

/// What has been read of a plain text after `i` characters holds these
/// characters, and its current line has no whitespace at its ends unless
/// it is being read.
proof fn lemma_read_after(text: Seq<char>, i: int)
    requires
        is_plain_text(text),
        0 <= i <= text.len(),
    ensures
        joined(read_after(text, i)) == text.take(i),
        !read_after(text, i).keep_start,
        read_after(text, i).current.len() <= i,
        read_after(text, i).current == text.subrange(i - read_after(text, i).current.len(), i),
        i > 0 && text[i - 1] != '\n' ==> read_after(text, i).current.len() > 0,
        read_after(text, i).current.len() < i ==> text[i - read_after(text, i).current.len() - 1]
            == '\n',
    decreases i,
{
    if i == 0 {
        assert(text.take(0) =~= Seq::<char>::empty());
        assert(text.subrange(0, 0) =~= Seq::<char>::empty());
    } else {
        lemma_read_after(text, i - 1);
        let before = read_after(text, i - 1);
        let c = text[i - 1];
        assert(text.take(i) =~= text.take(i - 1).push(c));
        if c == '\n' {
            let line = before.current;
            assert(i - 1 > 0);
            assert(text[i - 2] != '\n');
            assert(line.len() > 0);
            assert(line[0] == text[i - 1 - line.len()]);
            assert(line.last() == text[i - 2]);
            assert(!is_whitespace(line[0])) by {
                if line.len() < i - 1 {
                    assert(text[i - 1 - line.len() - 1] == '\n');
                }
            }
            lemma_trim_plain(line);
            assert(before.line() == line);
            let after = before.closed();
            assert(after.done == before.done.push(line));
            assert(after.done.drop_last() =~= before.done);
            assert(join_lines(after.done) == joined(before));
            assert(joined(after) =~= joined(before).push('\n'));
            assert(text.subrange(i, i) =~= Seq::<char>::empty());
        } else {
            let after = before.with(c);
            assert(joined(after) =~= joined(before).push(c));
            assert(after.current =~= text.subrange(i - after.current.len(), i));
        }
    }
}

/// A string whose lines are read, the last of them not empty, ends at a
/// break as the text of the lines.
proof fn lemma_scan_end(s: Seq<char>, e: int, read: Lines, text: Seq<char>)
    requires
        0 <= e,
        breaks_at(s, e),
        read.line().len() > 0,
        join_lines(read.done.push(read.line())) == text,
    ensures
        string_scan(s, e, read).0 == text,
        lands(s, e, e + string_scan(s, e, read).1),
{
    if e < s.len() {
        let q = e + 1 + hspace_len(s, e + 1);
        let closed = read.closed();
        let empty = Seq::<char>::empty();
        assert(trim_start(empty) =~= empty);
        assert(trim_end(empty) =~= empty);
        assert(closed.line() =~= empty);
        assert(closed.text() == text);
        if s[q] != ',' {
            assert(string_scan(s, q, closed) == (closed.text(), 0nat));
        }
    }
}

proof fn lemma_scan_plain(s: Seq<char>, p: int, text: Seq<char>, i: int)
    requires
        0 <= p,
        is_plain_text(text),
        has_prefix_at(s, p, text),
        breaks_at(s, p + text.len()),
        0 <= i <= text.len(),
    ensures
        string_scan(s, p + i, read_after(text, i)).0 == text,
        lands(s, p + text.len(), p + i + string_scan(s, p + i, read_after(text, i)).1),
    decreases text.len() - i,
{
    let read = read_after(text, i);
    lemma_read_after(text, i);
    if i == text.len() {
        assert(text.take(i) =~= text);
        let line = read.current;
        assert(text[i - 1] != '\n');
        assert(line[0] == text[i - line.len()]);
        assert(line.last() == text.last());
        assert(!is_whitespace(line[0])) by {
            if line.len() < i {
                assert(text[i - line.len() - 1] == '\n');
            }
        }
        lemma_trim_plain(line);
        assert(read.line() == line);
        assert(read.done.push(line).drop_last() =~= read.done);
        assert(join_lines(read.done.push(line)) == joined(read));
        lemma_scan_end(s, p + text.len(), read, text);
    } else {
        lemma_prefix_char(s, p, text, i);
        let c = text[i];
        assert(s[p + i] == c);
        lemma_scan_plain(s, p, text, i + 1);
        if c == '\n' {
            lemma_prefix_char(s, p, text, i + 1);
            assert(run_len(s, p + i + 1, CharClass::Horizontal) == 0);
            let q = p + i + 1;
            if i + 2 < text.len() {
                lemma_prefix_char(s, p, text, i + 2);
            }
            assert(!is_line_comment_at(s, q));
            assert(!is_block_comment_at(s, q));
            assert(string_scan(s, p + i, read) == after(
                string_scan(s, q, read.closed()),
                p + i,
                q,
            ));
        } else {
            if is_hspace(c) {
                lemma_run_frame(s, p, text, i, CharClass::Horizontal);
                lemma_run(text, i, CharClass::Horizontal);
                let j = i + hspace_len(text, i);
                assert(!is_line_comment_at(text, j));
                if j + 1 < text.len() {
                    lemma_prefix_char(s, p, text, j);
                    lemma_prefix_char(s, p, text, j + 1);
                } else if j < text.len() {
                    lemma_prefix_char(s, p, text, j);
                }
                assert(!is_line_comment_at(s, p + j));
            }
            assert(string_scan(s, p + i, read) == after(
                string_scan(s, p + i + 1, read.with(c)),
                p + i,
                p + i + 1,
            ));
        }
    }
}

/// A plain text that stands before a break is the string there.
proof fn lemma_string_reads(s: Seq<char>, p: int, text: Seq<char>)
    requires
        0 <= p,
        is_plain_text(text),
        has_prefix_at(s, p, text),
        breaks_at(s, p + text.len()),
    ensures
        string_at(s, p).0 == text,
        lands(s, p + text.len(), p + string_at(s, p).1),
{
    lemma_scan_plain(s, p, text, 0);
}

proof fn lemma_step_escaped(s: Seq<char>, p: int, text: Seq<char>, n: nat)
    requires
        0 <= p < s.len(),
        s[p] == '\\',
        string_at(s, p + 1) == (text, n),
    ensures
        value_is(s, p, Tree::Str(text), (n + 1) as nat),
{
    reveal(value_is);
    reveal(value_at);
    assert(run_len(s, p, CharClass::Whitespace) == 0);
    assert(trivia_len(s, p) == 0);
}

/// A plain string reads back.
pub proof fn lemma_string_reads_back(text: Seq<char>)
    requires
        is_plain_string(text),
    ensures
        reads_back(Tree::Str(text)),
{
    let tree = Tree::Str(text);
    let written = escaped(text);
    assert(emitted(tree, 0) == written);
    assert(starts_value(written));
    assert forall|s: Seq<char>, p: int|
        0 <= p && #[trigger] has_prefix_at(s, p, emitted(tree, 0)) && breaks_at(
            s,
            p + emitted(tree, 0).len(),
        ) implies reads_as(s, p, tree, emitted(tree, 0).len()) by {
        if needs_escape(text) {
            lemma_prefix_split(s, p, seq!['\\'], text);
            lemma_prefix_char(s, p, seq!['\\'], 0);
            lemma_string_reads(s, p + 1, text);
            lemma_step_escaped(s, p, text, string_at(s, p + 1).1);
            assert(value_is(s, p, tree, (string_at(s, p + 1).1 + 1) as nat));
        } else {
            lemma_string_reads(s, p, text);
            lemma_number_frame(s, p, text);
            lemma_keyword_frame(s, p, text);
            lemma_starts_value(s, p, text);
            lemma_step_scalar(s, p, tree, string_at(s, p).1);
            assert(value_is(s, p, tree, string_at(s, p).1));
        }
    }
}

/// Whether a tree is written plainly: its strings are plain ones (or the
/// empty string, as the value of an entry), its floats hold texts that
/// are written as floats or name a float that is not finite, its symbols
/// are named by identifiers, the keys of its objects are identifiers that
/// occur once, and it holds no reference.
pub open spec fn plainly_written(tree: Tree) -> bool
    decreases tree,
{
    match tree {
        Tree::Float(text) => is_float_text(text) || is_keyword(tree, text),
        Tree::Str(text) => is_plain_string(text),
        Tree::Symbol(name) => is_identifier(name),
        Tree::Ref(_) => false,
        Tree::Array(items) => forall|i: int|
            0 <= i < items.len() ==> plainly_written(#[trigger] items[i]),
        Tree::Object(entries) => {
            &&& keys_distinct(entries)
            &&& forall|i: int|
                0 <= i < entries.len() ==> is_identifier((#[trigger] entries[i]).0) && (
                entries[i].1 == Tree::Str(Seq::empty()) || plainly_written(entries[i].1))
        },
        _ => true,
    }
}

/// A tree that is written plainly is written faithfully, and holds no
/// reference.
pub proof fn lemma_plainly_written(tree: Tree)
    requires
        plainly_written(tree),
    ensures
        faithful(tree),
        tree.resolved(),
    decreases tree,
{
    reveal_strlit("true");
    reveal_strlit("false");
    reveal_strlit("null");
    match tree {
        Tree::Null => {
            lemma_keyword_reads_back(tree, "null"@);
        },
        Tree::Bool(b) => {
            if b {
                lemma_keyword_reads_back(tree, "true"@);
            } else {
                lemma_keyword_reads_back(tree, "false"@);
            }
        },
        Tree::Int(i) => {
            lemma_integer_reads_back(i);
        },
        Tree::Float(text) => {
            if is_float_text(text) {
                lemma_float_reads_back(text);
            } else {
                lemma_keyword_reads_back(tree, text);
            }
        },
        Tree::Str(text) => {
            lemma_string_reads_back(text);
        },
        Tree::Symbol(name) => {
            lemma_symbol_reads_back(name);
        },
        Tree::Ref(_) => {},
        Tree::Array(items) => {
            assert forall|i: int| 0 <= i < items.len() implies faithful(#[trigger] items[i])
                && items[i].resolved() by {
                lemma_plainly_written(items[i]);
            }
        },
        Tree::Object(entries) => {
            assert forall|i: int| 0 <= i < entries.len() implies (entries[i].1 == Tree::Str(
                Seq::empty(),
            ) || faithful((#[trigger] entries[i]).1)) && entries[i].1.resolved() by {
                if entries[i].1 != Tree::Str(Seq::empty()) {
                    lemma_plainly_written(entries[i].1);
                }
            }
        },
    }
}

/// What is written plainly is read back: the document that the text of a
/// plainly written tree is has the tree as its value, unless the tree is
/// a string that is written like an import directive.
pub proof fn lemma_plain_document(tree: Tree, scope: Entries)
    requires
        plainly_written(tree),
        !has_prefix_at(emitted(tree, 0), 0, import_word()),
    ensures
        document_at(emitted(tree, 0), 0, scope) == Ok::<Document, Failure>(
            Document { imports: Seq::empty(), scope, value: tree },
        ),
{
    lemma_plainly_written(tree);
    lemma_written_document(tree, scope);
}

} // verus!
