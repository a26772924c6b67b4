//! Emission: a value as text in the notation itself, and as JSON. The
//! bridges from JSON, YAML and TOML are reached from here too.

pub use crate::bridge::{
    from_json, from_toml, from_yaml, parse_json, parse_toml, parse_yaml, Foreign,
};
use crate::text::{
    chars_of, control, decimal_of, digit, ident_continue, ident_start, is_control, is_digit,
    is_ident_continue, is_ident_start, push_decimal, trim, trimmed_bounds,
};
use crate::value::{lemma_object_view, lemma_trees_of, trees_of, Entries, Object, Tree, Value};
use vstd::prelude::*;

verus! {

/// A character that a number may hold behind its first digit.
pub open spec fn is_number_char(c: char) -> bool {
    is_digit(c) || c == '_' || c == '.' || c == 'e' || c == 'E' || c == '+' || c == '-'
}

/// Whether the text begins like a number with a radix: `0x`, `0b`, `0o`,
/// in either case.
pub open spec fn has_radix_prefix(text: Seq<char>) -> bool {
    text.len() >= 2 && text[0] == '0' && (text[1] == 'x' || text[1] == 'X' || text[1] == 'b'
        || text[1] == 'B' || text[1] == 'o' || text[1] == 'O')
}

/// Whether a string, once trimmed, could be read as a number: it has a
/// radix prefix, or it is an optional `-`, a digit, and then only
/// characters that occur in numbers.
pub open spec fn number_like(text: Seq<char>) -> bool {
    let digits = unsigned(trim(text));
    has_radix_prefix(trim(text)) || (digits.len() > 0 && is_digit(digits[0]) && forall|i: int|
        0 <= i < digits.len() ==> is_number_char(#[trigger] digits[i]))
}

/// The text without a leading `-`.
pub open spec fn unsigned(text: Seq<char>) -> Seq<char> {
    if text.len() > 0 && text[0] == '-' {
        text.subrange(1, text.len() as int)
    } else {
        text
    }
}

/// Whether a string must be escaped to be read back as a string: it
/// begins like a symbol, a reference, an object, an array or an escape,
/// or it reads as a keyword literal or a number.
pub open spec fn needs_escape(text: Seq<char>) -> bool {
    ||| text.len() > 0 && (text[0] == ':' || text[0] == '$' || text[0] == '{' || text[0] == '['
        || text[0] == '\\')
    ||| text == "true"@
    ||| text == "false"@
    ||| text == "null"@
    ||| text == "inf"@
    ||| text == "-inf"@
    ||| text == "nan"@
    ||| number_like(text)
}

/// A string as it is written in the notation: behind a `\` where it would
/// be read as something else, as it is otherwise.
pub open spec fn escaped(text: Seq<char>) -> Seq<char> {
    if needs_escape(text) {
        seq!['\\'] + text
    } else {
        text
    }
}

/// The characters of a key that an identifier can hold: up to the first
/// that may begin one, none (a digit there is kept behind a `_`); from
/// then on the characters that may continue one, and `-` for each space.
pub open spec fn key_chars(key: Seq<char>) -> Seq<char>
    decreases key.len(),
{
    if key.len() == 0 {
        Seq::empty()
    } else {
        let before = key_chars(key.drop_last());
        let c = key.last();
        if before.len() == 0 {
            if is_ident_start(c) {
                seq![c]
            } else if is_digit(c) {
                seq!['_', c]
            } else {
                Seq::empty()
            }
        } else if is_ident_continue(c) {
            before.push(c)
        } else if c == ' ' {
            before.push('-')
        } else {
            before
        }
    }
}

/// A key as it is written: the characters of it that an identifier can
/// hold, or `_` where there is none.
pub open spec fn escaped_key(key: Seq<char>) -> Seq<char> {
    if key_chars(key).len() == 0 {
        seq!['_']
    } else {
        key_chars(key)
    }
}

/// The digit of a number below 16 in lower-case hexadecimal.
pub open spec fn hex_char(d: nat) -> char {
    if d < 10 {
        crate::text::digit_char(d)
    } else if d == 10 {
        'a'
    } else if d == 11 {
        'b'
    } else if d == 12 {
        'c'
    } else if d == 13 {
        'd'
    } else if d == 14 {
        'e'
    } else {
        'f'
    }
}

/// A character as it is written in a JSON string.
pub open spec fn json_char(c: char) -> Seq<char> {
    if c == '"' {
        seq!['\\', '"']
    } else if c == '\\' {
        seq!['\\', '\\']
    } else if c == '\n' {
        seq!['\\', 'n']
    } else if c == '\r' {
        seq!['\\', 'r']
    } else if c == '\t' {
        seq!['\\', 't']
    } else if is_control(c) {
        seq!['\\', 'u', '0', '0', hex_char((c as u32 / 16) as nat), hex_char((c as u32 % 16) as nat)]
    } else {
        seq![c]
    }
}

/// A text as it is written in a JSON string, without the quotes.
pub open spec fn json_escaped(text: Seq<char>) -> Seq<char>
    decreases text.len(),
{
    if text.len() == 0 {
        Seq::empty()
    } else {
        json_escaped(text.drop_last()) + json_char(text.last())
    }
}

/// Two spaces for each level.
pub open spec fn indentation(level: nat) -> Seq<char>
    decreases level,
{
    if level == 0 {
        Seq::empty()
    } else {
        indentation((level - 1) as nat) + seq![' ', ' ']
    }
}

/// A tree as text in the notation, at a level of indentation.
///
/// An array or object opens with its bracket and a space before the
/// first part; each further part stands on a line of its own, one level
/// in, behind `, `; the closing bracket stands on a line of its own.
pub open spec fn emitted(tree: Tree, level: nat) -> Seq<char>
    decreases tree, 1int,
{
    match tree {
        Tree::Null => "null"@,
        Tree::Bool(b) => if b {
            "true"@
        } else {
            "false"@
        },
        Tree::Int(i) => decimal_of(i as int),
        Tree::Float(text) => text,
        Tree::Str(text) => escaped(text),
        Tree::Symbol(name) => seq![':'] + name,
        Tree::Ref(name) => seq!['$'] + name,
        Tree::Array(items) => if items.len() == 0 {
            "[]"@
        } else {
            seq!['['] + emitted_items(items, level) + seq!['\n'] + indentation(level) + seq![']']
        },
        Tree::Object(entries) => if entries.len() == 0 {
            "{}"@
        } else {
            seq!['{'] + emitted_entries(entries, level) + seq!['\n'] + indentation(level)
                + seq!['}']
        },
    }
}

/// What introduces the part at position `i` of an array or object.
pub open spec fn part_lead(i: int, level: nat) -> Seq<char> {
    if i == 0 {
        seq![' ']
    } else {
        seq!['\n'] + indentation(level + 1) + seq![',', ' ']
    }
}

/// The items of an array as text, each behind what leads it.
pub open spec fn emitted_items(items: Seq<Tree>, level: nat) -> Seq<char>
    decreases items, 0int,
{
    if items.len() == 0 {
        Seq::empty()
    } else {
        emitted_items(items.drop_last(), level) + part_lead(items.len() - 1, level) + emitted(
            items.last(),
            level + 1,
        )
    }
}

/// The entries of an object as text, each as `:key value` behind what
/// leads it.
pub open spec fn emitted_entries(entries: Entries, level: nat) -> Seq<char>
    decreases entries, 0int,
{
    if entries.len() == 0 {
        Seq::empty()
    } else {
        emitted_entries(entries.drop_last(), level) + part_lead(entries.len() - 1, level) + seq![
            ':',
        ] + escaped_key(entries.last().0) + seq![' '] + emitted(entries.last().1, level + 1)
    }
}

/// Whether a float's text stands for a value that is not finite.
pub open spec fn is_special_float(text: Seq<char>) -> bool {
    text == "nan"@ || text == "inf"@ || text == "-inf"@
}

/// A tree as JSON, at a level of indentation.
///
/// A symbol is the string `:name`, a reference the string `$name`, a
/// float that is not finite `null`. The parts of an array or object stand
/// on lines of their own, one level in.
pub open spec fn json(tree: Tree, level: nat) -> Seq<char>
    decreases tree, 1int,
{
    match tree {
        Tree::Null => "null"@,
        Tree::Bool(b) => if b {
            "true"@
        } else {
            "false"@
        },
        Tree::Int(i) => decimal_of(i as int),
        Tree::Float(text) => if is_special_float(text) {
            "null"@
        } else {
            text
        },
        Tree::Str(text) => seq!['"'] + json_escaped(text) + seq!['"'],
        Tree::Symbol(name) => seq!['"'] + json_escaped(seq![':'] + name) + seq!['"'],
        Tree::Ref(name) => seq!['"'] + json_escaped(seq!['$'] + name) + seq!['"'],
        Tree::Array(items) => if items.len() == 0 {
            "[]"@
        } else {
            seq!['[', '\n'] + json_items(items, level) + seq!['\n'] + indentation(level) + seq![
                ']',
            ]
        },
        Tree::Object(entries) => if entries.len() == 0 {
            "{}"@
        } else {
            seq!['{', '\n'] + json_entries(entries, level) + seq!['\n'] + indentation(level)
                + seq!['}']
        },
    }
}

/// What separates the part at position `i` from the one before it.
pub open spec fn json_lead(i: int) -> Seq<char> {
    if i == 0 {
        Seq::empty()
    } else {
        seq![',', '\n']
    }
}

/// The items of an array as JSON, each on a line of its own.
pub open spec fn json_items(items: Seq<Tree>, level: nat) -> Seq<char>
    decreases items, 0int,
{
    if items.len() == 0 {
        Seq::empty()
    } else {
        json_items(items.drop_last(), level) + json_lead(items.len() - 1) + indentation(
            level + 1,
        ) + json(items.last(), level + 1)
    }
}

/// The entries of an object as JSON, each as `"key": value` on a line
/// of its own.
pub open spec fn json_entries(entries: Entries, level: nat) -> Seq<char>
    decreases entries, 0int,
{
    if entries.len() == 0 {
        Seq::empty()
    } else {
        json_entries(entries.drop_last(), level) + json_lead(entries.len() - 1) + indentation(
            level + 1,
        ) + seq!['"'] + json_escaped(entries.last().0) + seq!['"', ':', ' '] + json(
            entries.last().1,
            level + 1,
        )
    }
}

fn number_char(c: char) -> (b: bool)
    ensures
        b == is_number_char(c),
{
    digit(c) || c == '_' || c == '.' || c == 'e' || c == 'E' || c == '+' || c == '-'
}

#[verifier::loop_isolation(false)]
fn chars_look_like_number(text: &[char]) -> (b: bool)
    ensures
        b == number_like(text@),
{
    let (from, to) = trimmed_bounds(text, 0, text.len(), false);
    proof {
        assert(text@.subrange(0, text@.len() as int) =~= text@);
    }
    let ghost t = trim(text@);
    if to - from >= 2 && text[from] == '0' {
        let c = text[from + 1];
        if c == 'x' || c == 'X' || c == 'b' || c == 'B' || c == 'o' || c == 'O' {
            return true;
        }
    }
    let start = if from < to && text[from] == '-' {
        from + 1
    } else {
        from
    };
    let ghost digits = text@.subrange(start as int, to as int);
    proof {
        assert(unsigned(t) =~= digits);
    }
    if !(start < to && digit(text[start])) {
        return false;
    }
    let mut i: usize = start;
    while i < to
        invariant
            start <= i <= to <= text@.len(),
            digits == text@.subrange(start as int, to as int),
            forall|j: int| 0 <= j < i - start ==> is_number_char(#[trigger] digits[j]),
        decreases to - i,
    {
        if !number_char(text[i]) {
            proof {
                assert(!is_number_char(unsigned(t)[i - start]));
            }
            return false;
        }
        i += 1;
    }
    true
}

/// Whether a string could be read as a number.
pub fn looks_like_number(s: &str) -> (b: bool)
    ensures
        b == (s@.len() > 0 && number_like(s@)),
{
    let text = chars_of(s);
    if text.len() == 0 {
        return false;
    }
    chars_look_like_number(text.as_slice())
}

fn equals(text: &str, word: &str) -> (b: bool)
    ensures
        b == (text@ == word@),
{
    String::from_str(text) == String::from_str(word)
}

/// A string as it is written in the notation.
pub fn escape_sym_string(s: &str) -> (r: String)
    ensures
        r@ == escaped(s@),
{
    let text = chars_of(s);
    let marked = text.len() > 0 && (text[0] == ':' || text[0] == '$' || text[0] == '{' || text[0]
        == '[' || text[0] == '\\');
    let needs = marked || equals(s, "true") || equals(s, "false") || equals(s, "null") || equals(
        s,
        "inf",
    ) || equals(s, "-inf") || equals(s, "nan") || chars_look_like_number(text.as_slice());
    let mut r = String::new();
    if needs {
        r.push('\\');
    }
    r.append(s);
    proof {
        assert(r@ =~= escaped(s@));
    }
    r
}

/// A key as it is written in the notation.
pub fn escape_key(k: &str) -> (r: String)
    ensures
        r@ == escaped_key(k@),
{
    let key = chars_of(k);
    let mut r = String::new();
    let mut i: usize = 0;
    let mut first = true;
    proof {
        assert(key@.take(0) =~= Seq::<char>::empty());
    }
    while i < key.len()
        invariant
            i <= key.len(),
            r@ == key_chars(key@.take(i as int)),
            first == (r@.len() == 0),
        decreases key.len() - i,
    {
        let c = key[i];
        proof {
            assert(key@.take(i + 1).drop_last() =~= key@.take(i as int));
            assert(key@.take(i + 1).last() == c);
        }
        if first {
            if ident_start(c) {
                r.push(c);
                first = false;
            } else if digit(c) {
                r.push('_');
                r.push(c);
                first = false;
            }
        } else if ident_continue(c) {
            r.push(c);
        } else if c == ' ' {
            r.push('-');
        }
        i += 1;
    }
    proof {
        assert(key@.take(key.len() as int) =~= key@);
    }
    if first {
        r.push('_');
        assert(r@ =~= seq!['_']);
    }
    r
}

fn hex_digit(d: u32) -> (c: char)
    requires
        d < 16,
    ensures
        c == hex_char(d as nat),
{
    if d == 0 {
        '0'
    } else if d == 1 {
        '1'
    } else if d == 2 {
        '2'
    } else if d == 3 {
        '3'
    } else if d == 4 {
        '4'
    } else if d == 5 {
        '5'
    } else if d == 6 {
        '6'
    } else if d == 7 {
        '7'
    } else if d == 8 {
        '8'
    } else if d == 9 {
        '9'
    } else if d == 10 {
        'a'
    } else if d == 11 {
        'b'
    } else if d == 12 {
        'c'
    } else if d == 13 {
        'd'
    } else if d == 14 {
        'e'
    } else {
        'f'
    }
}

/// Appends a text as it is written in a JSON string.
fn push_json_escaped(out: &mut String, s: &str)
    ensures
        final(out)@ == old(out)@ + json_escaped(s@),
{
    let text = chars_of(s);
    let mut i: usize = 0;
    proof {
        assert(text@.take(0) =~= Seq::<char>::empty());
        assert(out@ + Seq::<char>::empty() =~= out@);
    }
    while i < text.len()
        invariant
            i <= text.len(),
            text@ == s@,
            out@ == old(out)@ + json_escaped(text@.take(i as int)),
        decreases text.len() - i,
    {
        let c = text[i];
        let ghost before = out@;
        proof {
            assert(text@.take(i + 1).drop_last() =~= text@.take(i as int));
            assert(text@.take(i + 1).last() == c);
        }
        if c == '"' {
            out.push('\\');
            out.push('"');
        } else if c == '\\' {
            out.push('\\');
            out.push('\\');
        } else if c == '\n' {
            out.push('\\');
            out.push('n');
        } else if c == '\r' {
            out.push('\\');
            out.push('r');
        } else if c == '\t' {
            out.push('\\');
            out.push('t');
        } else if control(c) {
            let code = c as u32;
            out.push('\\');
            out.push('u');
            out.push('0');
            out.push('0');
            out.push(hex_digit(code / 16));
            out.push(hex_digit(code % 16));
        } else {
            out.push(c);
        }
        proof {
            assert(out@ =~= before + json_char(c));
            assert(out@ =~= old(out)@ + json_escaped(text@.take(i + 1)));
        }
        i += 1;
    }
    proof {
        assert(text@.take(text.len() as int) =~= text@);
    }
}

/// A text as it is written in a JSON string, without the quotes.
pub fn escape_json_string(s: &str) -> (r: String)
    ensures
        r@ == json_escaped(s@),
{
    let mut r = String::new();
    push_json_escaped(&mut r, s);
    proof {
        assert(r@ =~= json_escaped(s@));
    }
    r
}

/// The indentation one level further in.
fn deeper(prefix: &String, Ghost(level): Ghost<nat>) -> (inner: String)
    requires
        prefix@ == indentation(level),
    ensures
        inner@ == indentation(level + 1),
{
    let mut inner = prefix.clone();
    inner.push(' ');
    inner.push(' ');
    proof {
        assert(inner@ =~= indentation(level) + seq![' ', ' ']);
    }
    inner
}

/// The indentation of a level.
fn indentation_of(level: usize) -> (prefix: String)
    ensures
        prefix@ == indentation(level as nat),
{
    let mut prefix = String::new();
    let mut i: usize = 0;
    while i < level
        invariant
            i <= level,
            prefix@ == indentation(i as nat),
        decreases level - i,
    {
        prefix.push(' ');
        prefix.push(' ');
        i += 1;
        proof {
            assert(prefix@ =~= indentation((i - 1) as nat) + seq![' ', ' ']);
        }
    }
    prefix
}

/// Appends a value as text in the notation.
fn emit(value: &Value, prefix: &String, out: &mut String, Ghost(level): Ghost<nat>)
    requires
        prefix@ == indentation(level),
    ensures
        final(out)@ == old(out)@ + emitted(value@, level),
    decreases value,
{
    match value {
        Value::Null => out.append("null"),
        Value::Bool(b) => if *b {
            out.append("true")
        } else {
            out.append("false")
        },
        Value::Int(i) => push_decimal(out, *i),
        Value::Float(text) => out.append(text.as_str()),
        Value::String(text) => {
            let written = escape_sym_string(text.as_str());
            out.append(written.as_str());
        },
        Value::Symbol(name) => {
            out.push(':');
            out.append(name.as_str());
            proof {
                assert(out@ =~= old(out)@ + emitted(value@, level));
            }
        },
        Value::Ref(name) => {
            out.push('$');
            out.append(name.as_str());
            proof {
                assert(out@ =~= old(out)@ + emitted(value@, level));
            }
        },
        Value::Array(items) => {
            if items.len() == 0 {
                out.append("[]");
                return ;
            }
            let inner = deeper(prefix, Ghost(level));
            out.push('[');
            let ghost start = out@;
            let ghost all = trees_of(items@);
            let mut i: usize = 0;
            proof {
                lemma_trees_of(items@);
                assert(all.take(0) =~= Seq::<Tree>::empty());
                assert(start + Seq::<char>::empty() =~= start);
            }
            while i < items.len()
                invariant
                    i <= items.len(),
                    all == trees_of(items@),
                    all.len() == items@.len(),
                    forall|j: int| 0 <= j < items@.len() ==> (#[trigger] all[j]) == items@[j]@,
                    forall|j: int|
                        0 <= j < items.len() ==> decreases_to!(value => #[trigger] items@[j]),
                    inner@ == indentation(level + 1),
                    out@ == start + emitted_items(all.take(i as int), level),
                decreases items.len() - i,
            {
                let ghost before = out@;
                if i == 0 {
                    out.push(' ');
                } else {
                    out.push('\n');
                    out.append(inner.as_str());
                    out.push(',');
                    out.push(' ');
                }
                proof {
                    assert(out@ =~= before + part_lead(i as int, level));
                }
                emit(&items[i], &inner, out, Ghost(level + 1));
                i += 1;
                proof {
                    assert(all.take(i as int).drop_last() =~= all.take(i - 1));
                    assert(all.take(i as int).last() == all[i - 1]);
                    assert(out@ =~= start + emitted_items(all.take(i as int), level));
                }
            }
            out.push('\n');
            out.append(prefix.as_str());
            out.push(']');
            proof {
                assert(all.take(items.len() as int) =~= all);
                assert(out@ =~= old(out)@ + emitted(value@, level));
            }
        },
        Value::Object(object) => {
            if object.entries.len() == 0 {
                proof {
                    lemma_object_view(*object);
                }
                out.append("{}");
                return ;
            }
            let inner = deeper(prefix, Ghost(level));
            out.push('{');
            let ghost start = out@;
            let ghost all = object@;
            let mut i: usize = 0;
            proof {
                lemma_object_view(*object);
                assert(all.take(0) =~= Entries::empty());
                assert(start + Seq::<char>::empty() =~= start);
            }
            while i < object.entries.len()
                invariant
                    i <= object.entries.len(),
                    all == object@,
                    all.len() == object.entries@.len(),
                    forall|j: int|
                        0 <= j < object.entries@.len() ==> (#[trigger] all[j]) == (
                            object.entries@[j].key@,
                            object.entries@[j].value@,
                        ),
                    forall|j: int|
                        0 <= j < object.entries.len() ==> decreases_to!(value => #[trigger] object.entries@[j]),
                    inner@ == indentation(level + 1),
                    out@ == start + emitted_entries(all.take(i as int), level),
                decreases object.entries.len() - i,
            {
                let ghost before = out@;
                if i == 0 {
                    out.push(' ');
                } else {
                    out.push('\n');
                    out.append(inner.as_str());
                    out.push(',');
                    out.push(' ');
                }
                proof {
                    assert(out@ =~= before + part_lead(i as int, level));
                }
                let entry = &object.entries[i];
                out.push(':');
                let key = escape_key(entry.key.as_str());
                out.append(key.as_str());
                out.push(' ');
                emit(&entry.value, &inner, out, Ghost(level + 1));
                i += 1;
                proof {
                    assert(all.take(i as int).drop_last() =~= all.take(i - 1));
                    assert(all.take(i as int).last() == all[i - 1]);
                    assert(out@ =~= start + emitted_entries(all.take(i as int), level));
                }
            }
            out.push('\n');
            out.append(prefix.as_str());
            out.push('}');
            proof {
                assert(all.take(object.entries.len() as int) =~= all);
                assert(out@ =~= old(out)@ + emitted(value@, level));
            }
        },
    }
}

/// A value as text in the notation, at a level of indentation.
pub fn to_sym_string(value: &Value, indent: usize) -> (r: String)
    ensures
        r@ == emitted(value@, indent as nat),
{
    let prefix = indentation_of(indent);
    let mut r = String::new();
    emit(value, &prefix, &mut r, Ghost(indent as nat));
    proof {
        assert(r@ =~= emitted(value@, indent as nat));
    }
    r
}

/// Appends a text as a JSON string, in quotes.
fn push_json_string(out: &mut String, lead: Option<char>, s: &str)
    ensures
        final(out)@ == old(out)@ + seq!['"'] + json_escaped(
            (match lead {
                Some(c) => seq![c],
                None => Seq::empty(),
            }) + s@,
        ) + seq!['"'],
{
    out.push('"');
    let mut text = String::new();
    match lead {
        Some(c) => {
            text.push(c);
        },
        None => {},
    }
    text.append(s);
    push_json_escaped(out, text.as_str());
    out.push('"');
}

/// Appends a value as JSON.
fn emit_json(value: &Value, prefix: &String, out: &mut String, Ghost(level): Ghost<nat>)
    requires
        prefix@ == indentation(level),
    ensures
        final(out)@ == old(out)@ + json(value@, level),
    decreases value,
{
    match value {
        Value::Null => out.append("null"),
        Value::Bool(b) => if *b {
            out.append("true")
        } else {
            out.append("false")
        },
        Value::Int(i) => push_decimal(out, *i),
        Value::Float(text) => {
            if equals(text.as_str(), "nan") || equals(text.as_str(), "inf") || equals(
                text.as_str(),
                "-inf",
            ) {
                out.append("null")
            } else {
                out.append(text.as_str())
            }
        },
        Value::String(text) => {
            push_json_string(out, None, text.as_str());
            proof {
                assert(Seq::<char>::empty() + text@ =~= text@);
            }
        },
        Value::Symbol(name) => {
            push_json_string(out, Some(':'), name.as_str());
        },
        Value::Ref(name) => {
            push_json_string(out, Some('$'), name.as_str());
        },
        Value::Array(items) => {
            if items.len() == 0 {
                out.append("[]");
                return ;
            }
            let inner = deeper(prefix, Ghost(level));
            out.push('[');
            out.push('\n');
            let ghost start = out@;
            let ghost all = trees_of(items@);
            let mut i: usize = 0;
            proof {
                lemma_trees_of(items@);
                assert(all.take(0) =~= Seq::<Tree>::empty());
                assert(start + Seq::<char>::empty() =~= start);
            }
            while i < items.len()
                invariant
                    i <= items.len(),
                    all == trees_of(items@),
                    all.len() == items@.len(),
                    forall|j: int| 0 <= j < items@.len() ==> (#[trigger] all[j]) == items@[j]@,
                    forall|j: int|
                        0 <= j < items.len() ==> decreases_to!(value => #[trigger] items@[j]),
                    inner@ == indentation(level + 1),
                    out@ == start + json_items(all.take(i as int), level),
                decreases items.len() - i,
            {
                let ghost before = out@;
                if i > 0 {
                    out.push(',');
                    out.push('\n');
                }
                out.append(inner.as_str());
                proof {
                    assert(out@ =~= before + json_lead(i as int) + indentation(level + 1));
                }
                emit_json(&items[i], &inner, out, Ghost(level + 1));
                i += 1;
                proof {
                    assert(all.take(i as int).drop_last() =~= all.take(i - 1));
                    assert(all.take(i as int).last() == all[i - 1]);
                    assert(out@ =~= start + json_items(all.take(i as int), level));
                }
            }
            out.push('\n');
            out.append(prefix.as_str());
            out.push(']');
            proof {
                assert(all.take(items.len() as int) =~= all);
                assert(out@ =~= old(out)@ + json(value@, level));
            }
        },
        Value::Object(object) => {
            if object.entries.len() == 0 {
                proof {
                    lemma_object_view(*object);
                }
                out.append("{}");
                return ;
            }
            let inner = deeper(prefix, Ghost(level));
            out.push('{');
            out.push('\n');
            let ghost start = out@;
            let ghost all = object@;
            let mut i: usize = 0;
            proof {
                lemma_object_view(*object);
                assert(all.take(0) =~= Entries::empty());
                assert(start + Seq::<char>::empty() =~= start);
            }
            while i < object.entries.len()
                invariant
                    i <= object.entries.len(),
                    all == object@,
                    all.len() == object.entries@.len(),
                    forall|j: int|
                        0 <= j < object.entries@.len() ==> (#[trigger] all[j]) == (
                            object.entries@[j].key@,
                            object.entries@[j].value@,
                        ),
                    forall|j: int|
                        0 <= j < object.entries.len() ==> decreases_to!(value => #[trigger] object.entries@[j]),
                    inner@ == indentation(level + 1),
                    out@ == start + json_entries(all.take(i as int), level),
                decreases object.entries.len() - i,
            {
                let ghost before = out@;
                if i > 0 {
                    out.push(',');
                    out.push('\n');
                }
                out.append(inner.as_str());
                let entry = &object.entries[i];
                push_json_string(out, None, entry.key.as_str());
                out.push(':');
                out.push(' ');
                proof {
                    assert(Seq::<char>::empty() + entry.key@ =~= entry.key@);
                    assert(out@ =~= before + json_lead(i as int) + indentation(level + 1) + seq![
                        '"',
                    ] + json_escaped(entry.key@) + seq!['"', ':', ' ']);
                }
                emit_json(&entry.value, &inner, out, Ghost(level + 1));
                i += 1;
                proof {
                    assert(all.take(i as int).drop_last() =~= all.take(i - 1));
                    assert(all.take(i as int).last() == all[i - 1]);
                    assert(out@ =~= start + json_entries(all.take(i as int), level));
                }
            }
            out.push('\n');
            out.append(prefix.as_str());
            out.push('}');
            proof {
                assert(all.take(object.entries.len() as int) =~= all);
                assert(out@ =~= old(out)@ + json(value@, level));
            }
        },
    }
}

/// A value as JSON, at a level of indentation.
pub fn to_json_string(value: &Value, indent: usize) -> (r: String)
    ensures
        r@ == json(value@, indent as nat),
{
    let prefix = indentation_of(indent);
    let mut r = String::new();
    emit_json(value, &prefix, &mut r, Ghost(indent as nat));
    proof {
        assert(r@ =~= json(value@, indent as nat));
    }
    r
}

} // verus!
