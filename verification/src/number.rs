//! Numbers: integers in radix 16, 2, 8 and 10 and decimal floats, with
//! `_` allowed between digits.

use crate::cursor::{lemma_run, run_len, skip_run, skip_whitespace, whitespace_len, CharClass};
use crate::text::{chars_of, digit, is_digit, is_letter, letter, string_of};
use crate::value::{Tree, Value};
use vstd::prelude::*;

verus! {

/// The value of a digit in a radix up to 16.
pub open spec fn digit_value(c: char) -> nat {
    if '0' <= c <= '9' {
        (c as int - '0' as int) as nat
    } else if 'a' <= c <= 'f' {
        (c as int - 'a' as int + 10) as nat
    } else if 'A' <= c <= 'F' {
        (c as int - 'A' as int + 10) as nat
    } else {
        0
    }
}

/// The number that the digits of `s` write in the radix; a `_` counts for
/// nothing.
pub open spec fn radix_value(s: Seq<char>, radix: nat) -> nat
    decreases s.len(),
{
    if s.len() == 0 {
        0
    } else if s.last() == '_' {
        radix_value(s.drop_last(), radix)
    } else {
        radix_value(s.drop_last(), radix) * radix + digit_value(s.last())
    }
}

/// `s` without each `_`.
pub open spec fn strip_underscores(s: Seq<char>) -> Seq<char>
    decreases s.len(),
{
    if s.len() == 0 {
        s
    } else if s.last() == '_' {
        strip_underscores(s.drop_last())
    } else {
        strip_underscores(s.drop_last()).push(s.last())
    }
}

/// Whether a number may end before `end`: what follows is neither a letter
/// nor `_`.
pub open spec fn ends_number(s: Seq<char>, end: int) -> bool {
    !(0 <= end < s.len() && (is_letter(s[end]) || s[end] == '_'))
}

/// The radix that the letter after a leading `0` announces, with the class
/// of the characters that may follow.
pub open spec fn radix_of(c: char) -> Option<(nat, CharClass)> {
    if c == 'x' || c == 'X' {
        Some((16nat, CharClass::HexBody))
    } else if c == 'b' || c == 'B' {
        Some((2nat, CharClass::BinaryBody))
    } else if c == 'o' || c == 'O' {
        Some((8nat, CharClass::OctalBody))
    } else {
        None
    }
}

/// An integer written with a radix prefix at `p`: the prefix, then digits
/// and `_`, at least one digit among them, their value no more than the
/// largest `i64`.
pub open spec fn prefixed_number(s: Seq<char>, p: int, radix: nat, class: CharClass) -> Option<
    (Tree, nat),
> {
    let n = run_len(s, p + 2, class);
    let body = s.subrange(p + 2, p + 2 + n);
    if ends_number(s, p + 2 + n) && strip_underscores(body).len() > 0 && radix_value(body, radix)
        <= i64::MAX {
        Some((Tree::Int(radix_value(body, radix) as i64), 2 + n))
    } else {
        None
    }
}

/// The parts of a decimal number at `p`, as lengths: the sign, the integer
/// part, the fraction with its point, the exponent with its letter and
/// sign, and the digits of the exponent.
pub ghost struct DecimalShape {
    pub sign: nat,
    pub whole: nat,
    pub fraction: nat,
    pub exponent: nat,
    pub exponent_digits: nat,
}

impl DecimalShape {
    /// The length of the number.
    pub open spec fn len(self) -> nat {
        self.sign + self.whole + self.fraction + self.exponent
    }
}

/// The shape of the longest decimal number at `p`.
pub open spec fn decimal_shape(s: Seq<char>, p: int) -> DecimalShape {
    let sign: nat = if 0 <= p < s.len() && s[p] == '-' {
        1
    } else {
        0
    };
    let a = p + sign;
    let whole = run_len(s, a, CharClass::DecimalBody);
    let b = a + whole;
    let fraction: nat = if 0 <= b && b + 1 < s.len() && s[b] == '.' && is_digit(s[b + 1]) {
        1 + run_len(s, b + 1, CharClass::DecimalBody)
    } else {
        0
    };
    let c = b + fraction;
    let marked = 0 <= c < s.len() && (s[c] == 'e' || s[c] == 'E');
    let exponent_sign: nat = if marked && c + 1 < s.len() && (s[c + 1] == '+' || s[c + 1] == '-') {
        1
    } else {
        0
    };
    let exponent_digits = if marked {
        run_len(s, c + 1 + exponent_sign, CharClass::Digit)
    } else {
        0
    };
    let exponent: nat = if marked {
        1 + exponent_sign + exponent_digits
    } else {
        0
    };
    DecimalShape { sign, whole, fraction, exponent, exponent_digits }
}

/// A decimal number at `p`: an optional `-`, digits (with `_` after the
/// first), an optional fraction (a point and a digit, then digits and `_`),
/// an optional exponent (`e` or `E`, an optional sign, digits).
///
/// With a fraction or an exponent it is a float, held as its text without
/// the `_`, if the exponent has a digit. Without, it is an integer, if it
/// is within the range of `i64`.
pub open spec fn decimal_number(s: Seq<char>, p: int) -> Option<(Tree, nat)> {
    let shape = decimal_shape(s, p);
    let a = p + shape.sign;
    if !(0 <= a < s.len() && is_digit(s[a])) || !ends_number(s, p + shape.len()) {
        None
    } else if shape.fraction > 0 || shape.exponent > 0 {
        if shape.exponent > 0 && shape.exponent_digits == 0 {
            None
        } else {
            Some((Tree::Float(strip_underscores(s.subrange(p, p + shape.len()))), shape.len()))
        }
    } else {
        let magnitude = radix_value(s.subrange(a, a + shape.whole), 10);
        let value = if shape.sign > 0 {
            -(magnitude as int)
        } else {
            magnitude as int
        };
        if i64::MIN <= value <= i64::MAX {
            Some((Tree::Int(value as i64), shape.len()))
        } else {
            None
        }
    }
}

/// The number written at `p`, with its length, if there is one.
pub open spec fn number_at(s: Seq<char>, p: int) -> Option<(Tree, nat)> {
    if 0 <= p && p + 1 < s.len() && s[p] == '0' && radix_of(s[p + 1]) is Some {
        let (radix, class) = radix_of(s[p + 1])->0;
        prefixed_number(s, p, radix, class)
    } else {
        decimal_number(s, p)
    }
}

/// A longer run of digits writes no smaller a number.
proof fn lemma_radix_value_grows(s: Seq<char>, i: int, radix: nat)
    requires
        0 <= i <= s.len(),
        radix >= 1,
    ensures
        radix_value(s.take(i), radix) <= radix_value(s, radix),
    decreases s.len() - i,
{
    if i == s.len() {
        assert(s.take(i) =~= s);
    } else {
        lemma_radix_value_grows(s, i + 1, radix);
        let longer = s.take(i + 1);
        assert(longer.drop_last() =~= s.take(i));
        let v = radix_value(s.take(i), radix);
        if longer.last() != '_' {
            assert(v * radix >= v) by (nonlinear_arith)
                requires
                    radix >= 1,
                    v >= 0,
            ;
        }
    }
}

proof fn lemma_strip_len(s: Seq<char>, i: int)
    requires
        0 <= i <= s.len(),
    ensures
        strip_underscores(s.take(i)).len() <= strip_underscores(s).len(),
    decreases s.len() - i,
{
    if i == s.len() {
        assert(s.take(i) =~= s);
    } else {
        lemma_strip_len(s, i + 1);
        assert(s.take(i + 1).drop_last() =~= s.take(i));
    }
}

fn digit_of(c: char) -> (d: u64)
    requires
        CharClass::HexBody.holds(c),
        c != '_',
    ensures
        d == digit_value(c),
        d < 16,
{
    if '0' <= c && c <= '9' {
        (c as u32 - '0' as u32) as u64
    } else if 'a' <= c && c <= 'f' {
        (c as u32 - 'a' as u32 + 10) as u64
    } else {
        (c as u32 - 'A' as u32 + 10) as u64
    }
}

/// The number that `input[from..to]` writes, if it holds a digit and the
/// number is no more than `limit`.
fn digits_value(input: &[char], from: usize, to: usize, radix: u64, limit: u64) -> (r: Option<u64>)
    requires
        from <= to <= input@.len(),
        1 <= radix <= 16,
        limit <= 0x8000_0000_0000_0000,
        forall|i: int| from <= i < to ==> CharClass::HexBody.holds(#[trigger] input@[i]),
    ensures
        r == (if strip_underscores(input@.subrange(from as int, to as int)).len() > 0
            && radix_value(input@.subrange(from as int, to as int), radix as nat) <= limit {
            Some(radix_value(input@.subrange(from as int, to as int), radix as nat) as u64)
        } else {
            None
        }),
{
    let ghost all = input@.subrange(from as int, to as int);
    let mut value: u64 = 0;
    let mut seen = false;
    let mut i: usize = from;
    proof {
        assert(all.take(0) =~= Seq::<char>::empty());
    }
    while i < to
        invariant
            from <= i <= to <= input@.len(),
            1 <= radix <= 16,
            limit <= 0x8000_0000_0000_0000,
            all == input@.subrange(from as int, to as int),
            forall|j: int| from <= j < to ==> CharClass::HexBody.holds(#[trigger] input@[j]),
            value == radix_value(all.take(i - from), radix as nat),
            value <= limit,
            seen == (strip_underscores(all.take(i - from)).len() > 0),
        decreases to - i,
    {
        let c = input[i];
        proof {
            assert(all.take(i + 1 - from).drop_last() =~= all.take(i - from));
            assert(all.take(i + 1 - from).last() == c);
        }
        if c != '_' {
            let d = digit_of(c);
            assert(value * radix <= 0x8000_0000_0000_0000 * 16) by (nonlinear_arith)
                requires
                    value <= 0x8000_0000_0000_0000,
                    radix <= 16,
            ;
            let next: u128 = value as u128 * radix as u128 + d as u128;
            if next > limit as u128 {
                proof {
                    lemma_radix_value_grows(all, i + 1 - from, radix as nat);
                }
                return None;
            }
            value = next as u64;
            seen = true;
        }
        i += 1;
    }
    proof {
        assert(all.take(to - from) =~= all);
    }
    if seen {
        Some(value)
    } else {
        None
    }
}

/// The characters of `input[from..to]` but each `_`.
fn clean_text(input: &[char], from: usize, to: usize) -> (text: String)
    requires
        from <= to <= input@.len(),
    ensures
        text@ == strip_underscores(input@.subrange(from as int, to as int)),
{
    let ghost all = input@.subrange(from as int, to as int);
    let mut text = String::new();
    let mut i: usize = from;
    proof {
        assert(all.take(0) =~= Seq::<char>::empty());
    }
    while i < to
        invariant
            from <= i <= to <= input@.len(),
            all == input@.subrange(from as int, to as int),
            text@ == strip_underscores(all.take(i - from)),
        decreases to - i,
    {
        let c = input[i];
        proof {
            assert(all.take(i + 1 - from).drop_last() =~= all.take(i - from));
            assert(all.take(i + 1 - from).last() == c);
        }
        if c != '_' {
            text.push(c);
        }
        i += 1;
    }
    proof {
        assert(all.take(to - from) =~= all);
    }
    text
}

fn check_ends_number(input: &[char], end: usize) -> (b: bool)
    requires
        end <= input@.len(),
    ensures
        b == ends_number(input@, end as int),
{
    !(end < input.len() && (letter(input[end]) || input[end] == '_'))
}

fn scan_prefixed(input: &[char], pos: usize, radix: u64, class: CharClass) -> (r: Option<
    (Value, usize),
>)
    requires
        pos + 2 <= input@.len(),
        radix_of(input@[pos + 1]) == Some((radix as nat, class)),
    ensures
        match prefixed_number(input@, pos as int, radix as nat, class) {
            Some((tree, n)) => r matches Some((value, next)) && value@ == tree && next == pos + n,
            None => r is None,
        },
        r matches Some((_, next)) ==> pos < next <= input@.len(),
{
    let len = input.len();
    let end = skip_run(input, pos + 2, class);
    proof {
        lemma_run(input@, pos + 2, class);
    }
    if !check_ends_number(input, end) {
        return None;
    }
    match digits_value(input, pos + 2, end, radix, 0x7fff_ffff_ffff_ffff) {
        Some(value) => Some((Value::Int(value as i64), end)),
        None => None,
    }
}

fn scan_decimal(input: &[char], pos: usize) -> (r: Option<(Value, usize)>)
    requires
        pos <= input@.len(),
    ensures
        match decimal_number(input@, pos as int) {
            Some((tree, n)) => r matches Some((value, next)) && value@ == tree && next == pos + n,
            None => r is None,
        },
        r matches Some((_, next)) ==> pos < next <= input@.len(),
{
    let len = input.len();
    let ghost shape = decimal_shape(input@, pos as int);
    let negative = pos < len && input[pos] == '-';
    let a = if negative {
        pos + 1
    } else {
        pos
    };
    if !(a < len && digit(input[a])) {
        return None;
    }
    let b = skip_run(input, a, CharClass::DecimalBody);
    proof {
        lemma_run(input@, a as int, CharClass::DecimalBody);
    }
    let has_fraction = len - b >= 2 && input[b] == '.' && digit(input[b + 1]);
    let c = if has_fraction {
        skip_run(input, b + 1, CharClass::DecimalBody)
    } else {
        b
    };
    let marked = c < len && (input[c] == 'e' || input[c] == 'E');
    let mut end = c;
    let mut exponent_digits: usize = 0;
    if marked {
        let signed = len - c >= 2 && (input[c + 1] == '+' || input[c + 1] == '-');
        let d = if signed {
            c + 2
        } else {
            c + 1
        };
        end = skip_run(input, d, CharClass::Digit);
        exponent_digits = end - d;
    }
    assert(end == pos + shape.len());
    assert(exponent_digits == shape.exponent_digits);
    if !check_ends_number(input, end) {
        return None;
    }
    if has_fraction || marked {
        if marked && exponent_digits == 0 {
            None
        } else {
            Some((Value::Float(clean_text(input, pos, end)), end))
        }
    } else {
        let limit: u64 = if negative {
            0x8000_0000_0000_0000
        } else {
            0x7fff_ffff_ffff_ffff
        };
        proof {
            assert forall|i: int| a <= i < b implies CharClass::HexBody.holds(
                #[trigger] input@[i],
            ) by {
                assert(CharClass::DecimalBody.holds(input@[i]));
            }
            lemma_strip_len(input@.subrange(a as int, b as int), 1);
            assert(input@.subrange(a as int, b as int).take(1).drop_last() =~= Seq::<
                char,
            >::empty());
        }
        match digits_value(input, a, b, 10, limit) {
            Some(magnitude) => {
                let value: i64 = if negative {
                    if magnitude == 0x8000_0000_0000_0000 {
                        i64::MIN
                    } else {
                        -(magnitude as i64)
                    }
                } else {
                    magnitude as i64
                };
                Some((Value::Int(value), end))
            },
            None => None,
        }
    }
}

/// The number written at `pos`, and the position after it.
pub fn scan_number(input: &[char], pos: usize) -> (r: Option<(Value, usize)>)
    requires
        pos <= input@.len(),
    ensures
        match number_at(input@, pos as int) {
            Some((tree, n)) => r matches Some((value, next)) && value@ == tree && next == pos + n,
            None => r is None,
        },
        r matches Some((_, next)) ==> pos < next <= input@.len(),
{
    let len = input.len();
    if len - pos >= 2 && input[pos] == '0' {
        let c = input[pos + 1];
        if c == 'x' || c == 'X' {
            return scan_prefixed(input, pos, 16, CharClass::HexBody);
        } else if c == 'b' || c == 'B' {
            return scan_prefixed(input, pos, 2, CharClass::BinaryBody);
        } else if c == 'o' || c == 'O' {
            return scan_prefixed(input, pos, 8, CharClass::OctalBody);
        }
    }
    scan_decimal(input, pos)
}

/// The number that `text` begins with, after leading whitespace.
pub fn try_parse_number(text: &str) -> (r: Option<Value>)
    ensures
        match number_at(text@, whitespace_len(text@, 0) as int) {
            Some((tree, _)) => r matches Some(value) && value@ == tree,
            None => r is None,
        },
{
    let input = chars_of(text);
    let start = skip_whitespace(input.as_slice(), 0);
    match scan_number(input.as_slice(), start) {
        Some((value, _)) => Some(value),
        None => None,
    }
}

/// The characters of the number that `text` begins with, after leading
/// whitespace; empty where there is none.
pub fn extract_number_str(text: &str) -> (r: String)
    ensures
        r@ == (match number_at(text@, whitespace_len(text@, 0) as int) {
            Some((_, n)) => text@.subrange(
                whitespace_len(text@, 0) as int,
                (whitespace_len(text@, 0) + n) as int,
            ),
            None => Seq::empty(),
        }),
{
    let input = chars_of(text);
    let start = skip_whitespace(input.as_slice(), 0);
    match scan_number(input.as_slice(), start) {
        Some((_, end)) => string_of(input.as_slice(), start, end),
        None => String::new(),
    }
}

} // verus!
