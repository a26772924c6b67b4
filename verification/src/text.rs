//! Characters and character sequences: the classes the notation is built
//! from, trimming, prefix tests, and the conversions between `str`,
//! `String` and `Vec<char>`.

use vstd::prelude::*;

verus! {

/// Appends one character to a `String`.
///
/// Specifies `String::push` of the standard library: afterwards the string
/// holds its earlier characters followed by `c`.
pub assume_specification[ std::string::String::push ](s: &mut std::string::String, c: char)
    ensures
        final(s)@ == old(s)@.push(c),
;

/// A space or a tab.
pub open spec fn is_hspace(c: char) -> bool {
    c == ' ' || c == '\t'
}

/// A character with the Unicode property White_Space.
pub open spec fn is_whitespace(c: char) -> bool {
    ||| '\u{9}' <= c <= '\u{d}'
    ||| c == ' '
    ||| c == '\u{85}'
    ||| c == '\u{a0}'
    ||| c == '\u{1680}'
    ||| '\u{2000}' <= c <= '\u{200a}'
    ||| c == '\u{2028}'
    ||| c == '\u{2029}'
    ||| c == '\u{202f}'
    ||| c == '\u{205f}'
    ||| c == '\u{3000}'
}

/// A decimal digit.
pub open spec fn is_digit(c: char) -> bool {
    '0' <= c <= '9'
}

/// A letter of the basic Latin alphabet.
pub open spec fn is_letter(c: char) -> bool {
    'a' <= c <= 'z' || 'A' <= c <= 'Z'
}

/// A character that may begin an identifier: a letter or `_`.
pub open spec fn is_ident_start(c: char) -> bool {
    is_letter(c) || c == '_'
}

/// A character that may continue an identifier: a letter, a digit, `_` or `-`.
pub open spec fn is_ident_continue(c: char) -> bool {
    is_letter(c) || is_digit(c) || c == '_' || c == '-'
}

/// A control character (general category Cc).
pub open spec fn is_control(c: char) -> bool {
    c as u32 <= 0x1f || 0x7f <= c as u32 <= 0x9f
}

/// Whether the character is a space or a tab.
pub fn hspace(c: char) -> (b: bool)
    ensures
        b == is_hspace(c),
{
    c == ' ' || c == '\t'
}

/// Whether the character is whitespace.
pub fn whitespace(c: char) -> (b: bool)
    ensures
        b == is_whitespace(c),
{
    ('\u{9}' <= c && c <= '\u{d}') || c == ' ' || c == '\u{85}' || c == '\u{a0}' || c
        == '\u{1680}' || ('\u{2000}' <= c && c <= '\u{200a}') || c == '\u{2028}' || c
        == '\u{2029}' || c == '\u{202f}' || c == '\u{205f}' || c == '\u{3000}'
}

/// Whether the character is a decimal digit.
pub fn digit(c: char) -> (b: bool)
    ensures
        b == is_digit(c),
{
    '0' <= c && c <= '9'
}

/// Whether the character is a letter of the basic Latin alphabet.
pub fn letter(c: char) -> (b: bool)
    ensures
        b == is_letter(c),
{
    ('a' <= c && c <= 'z') || ('A' <= c && c <= 'Z')
}

/// Whether the character may begin an identifier.
pub fn ident_start(c: char) -> (b: bool)
    ensures
        b == is_ident_start(c),
{
    letter(c) || c == '_'
}

/// Whether the character may continue an identifier.
pub fn ident_continue(c: char) -> (b: bool)
    ensures
        b == is_ident_continue(c),
{
    letter(c) || digit(c) || c == '_' || c == '-'
}

/// Whether the character is a control character.
pub fn control(c: char) -> (b: bool)
    ensures
        b == is_control(c),
{
    let code = c as u32;
    code <= 0x1f || (0x7f <= code && code <= 0x9f)
}

/// The characters of a string slice, in order.
pub fn chars_of(s: &str) -> (v: Vec<char>)
    ensures
        v@ == s@,
{
    let mut v: Vec<char> = Vec::new();
    for c in it: s.chars()
        invariant
            v@ == it.seq().take(it.index() as int),
            it.seq() == s@,
    {
        v.push(c);
    }
    v
}

/// The string made of the characters `v[from..to]`.
pub fn string_of(v: &[char], from: usize, to: usize) -> (s: String)
    requires
        from <= to <= v@.len(),
    ensures
        s@ == v@.subrange(from as int, to as int),
{
    let mut s = String::new();
    let mut i: usize = from;
    while i < to
        invariant
            from <= i <= to <= v@.len(),
            s@ == v@.subrange(from as int, i as int),
        decreases to - i,
    {
        s.push(v[i]);
        i += 1;
        assert(v@.subrange(from as int, i as int) =~= v@.subrange(from as int, i as int - 1).push(
            v@[i as int - 1],
        ));
    }
    s
}

/// Whether `pattern` stands in `s` at position `at`.
pub open spec fn has_prefix_at(s: Seq<char>, at: int, pattern: Seq<char>) -> bool {
    &&& 0 <= at
    &&& at + pattern.len() <= s.len()
    &&& s.subrange(at, at + pattern.len()) == pattern
}

/// Whether the pattern stands in the input at position `at`.
pub fn starts_with_at(input: &[char], at: usize, pattern: &str) -> (b: bool)
    requires
        at <= input@.len(),
    ensures
        b == has_prefix_at(input@, at as int, pattern@),
{
    let n = pattern.unicode_len();
    if n > input.len() - at {
        return false;
    }
    let mut i: usize = 0;
    while i < n
        invariant
            i <= n,
            n == pattern@.len(),
            at + n <= input.len(),
            input@.subrange(at as int, at + i) == pattern@.take(i as int),
        decreases n - i,
    {
        if input[at + i] != pattern.get_char(i) {
            assert(input@.subrange(at as int, at + n)[i as int] != pattern@[i as int]);
            return false;
        }
        i += 1;
        assert(input@.subrange(at as int, at + i) =~= input@.subrange(at as int, at + i - 1).push(
            input@[at + i - 1],
        ));
        assert(pattern@.take(i as int) =~= pattern@.take(i as int - 1).push(
            pattern@[i as int - 1],
        ));
    }
    assert(pattern@.take(n as int) =~= pattern@);
    true
}

/// `s` without its leading whitespace.
pub open spec fn trim_start(s: Seq<char>) -> Seq<char>
    decreases s.len(),
{
    if s.len() > 0 && is_whitespace(s[0]) {
        trim_start(s.drop_first())
    } else {
        s
    }
}

/// `s` without its trailing whitespace.
pub open spec fn trim_end(s: Seq<char>) -> Seq<char>
    decreases s.len(),
{
    if s.len() > 0 && is_whitespace(s.last()) {
        trim_end(s.drop_last())
    } else {
        s
    }
}

/// `s` without its leading and trailing whitespace.
pub open spec fn trim(s: Seq<char>) -> Seq<char> {
    trim_end(trim_start(s))
}

/// The first position at or after `from` that holds no whitespace, up to `to`.
fn first_non_whitespace(v: &[char], from: usize, to: usize) -> (i: usize)
    requires
        from <= to <= v@.len(),
    ensures
        from <= i <= to,
        trim_start(v@.subrange(from as int, to as int)) == v@.subrange(i as int, to as int),
{
    let mut i: usize = from;
    while i < to && whitespace(v[i])
        invariant
            from <= i <= to <= v@.len(),
            trim_start(v@.subrange(from as int, to as int)) == trim_start(
                v@.subrange(i as int, to as int),
            ),
        decreases to - i,
    {
        assert(v@.subrange(i as int, to as int).drop_first() =~= v@.subrange(i + 1, to as int));
        i += 1;
    }
    i
}

/// The end of the last run of non-whitespace before `to`, down to `from`.
fn last_non_whitespace(v: &[char], from: usize, to: usize) -> (j: usize)
    requires
        from <= to <= v@.len(),
    ensures
        from <= j <= to,
        trim_end(v@.subrange(from as int, to as int)) == v@.subrange(from as int, j as int),
{
    let mut j: usize = to;
    while j > from && whitespace(v[j - 1])
        invariant
            from <= j <= to <= v@.len(),
            trim_end(v@.subrange(from as int, to as int)) == trim_end(
                v@.subrange(from as int, j as int),
            ),
        decreases j - from,
    {
        assert(v@.subrange(from as int, j as int).drop_last() =~= v@.subrange(
            from as int,
            j - 1,
        ));
        j -= 1;
    }
    j
}

/// The bounds of `v[from..to]` after trimming: both ends, or the end alone.
pub fn trimmed_bounds(v: &[char], from: usize, to: usize, keep_start: bool) -> (r: (usize, usize))
    requires
        from <= to <= v@.len(),
    ensures
        from <= r.0 <= r.1 <= to,
        v@.subrange(r.0 as int, r.1 as int) == if keep_start {
            trim_end(v@.subrange(from as int, to as int))
        } else {
            trim(v@.subrange(from as int, to as int))
        },
{
    let start = if keep_start {
        from
    } else {
        first_non_whitespace(v, from, to)
    };
    let end = last_non_whitespace(v, start, to);
    (start, end)
}

/// The decimal digit that stands for `d`.
pub open spec fn digit_char(d: nat) -> char {
    if d == 0 {
        '0'
    } else if d == 1 {
        '1'
    } else if d == 2 {
        '2'
    } else if d == 3 {
        '3'
    } else if d == 4 {
        '4'
    } else if d == 5 {
        '5'
    } else if d == 6 {
        '6'
    } else if d == 7 {
        '7'
    } else if d == 8 {
        '8'
    } else {
        '9'
    }
}

/// The decimal digits of `n`, most significant first, without leading zeros.
pub open spec fn digits_of(n: nat) -> Seq<char>
    decreases n,
{
    if n < 10 {
        seq![digit_char(n)]
    } else {
        digits_of(n / 10).push(digit_char(n % 10))
    }
}

/// The decimal text of an integer: a `-` before the digits of a negative one.
pub open spec fn decimal_of(i: int) -> Seq<char> {
    if i < 0 {
        seq!['-'] + digits_of((-i) as nat)
    } else {
        digits_of(i as nat)
    }
}

fn digit_to_char(d: u64) -> (c: char)
    requires
        d < 10,
    ensures
        c == digit_char(d as nat),
{
    if d == 0 {
        '0'
    } else if d == 1 {
        '1'
    } else if d == 2 {
        '2'
    } else if d == 3 {
        '3'
    } else if d == 4 {
        '4'
    } else if d == 5 {
        '5'
    } else if d == 6 {
        '6'
    } else if d == 7 {
        '7'
    } else if d == 8 {
        '8'
    } else {
        '9'
    }
}

/// Appends the decimal digits of `n` to `out`.
pub fn push_digits(out: &mut String, n: u64)
    ensures
        final(out)@ == old(out)@ + digits_of(n as nat),
    decreases n,
{
    if n >= 10 {
        push_digits(out, n / 10);
    }
    out.push(digit_to_char(n % 10));
    proof {
        if n >= 10 {
            assert(final(out)@ =~= old(out)@ + digits_of(n as nat));
        } else {
            assert(final(out)@ =~= old(out)@ + digits_of(n as nat));
        }
    }
}

/// Appends the decimal text of `i` to `out`.
pub fn push_decimal(out: &mut String, i: i64)
    ensures
        final(out)@ == old(out)@ + decimal_of(i as int),
{
    if i < 0 {
        out.push('-');
        let magnitude: u64 = (-(i + 1)) as u64 + 1;
        push_digits(out, magnitude);
        assert(final(out)@ =~= old(out)@ + decimal_of(i as int));
    } else {
        push_digits(out, i as u64);
    }
}

} // verus!
