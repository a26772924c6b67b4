//! Positions in the input: line and column of an offset, runs of
//! characters of one class, and the trivia between tokens (whitespace and
//! comments).
//!
//! The input is a sequence of characters; a position is an offset into it.
//! Every function that consumes input is described by the number of
//! characters it consumes from a position.

use crate::error::{Failure, SymError};
use crate::text::{
    digit, hspace, ident_continue, is_digit, is_hspace, is_ident_continue, is_whitespace,
    whitespace,
};
use vstd::prelude::*;

verus! {

/// The number of line breaks among the first `at` characters.
pub open spec fn newlines_before(s: Seq<char>, at: int) -> nat
    decreases at,
{
    if at <= 0 || at > s.len() {
        0
    } else if s[at - 1] == '\n' {
        newlines_before(s, at - 1) + 1
    } else {
        newlines_before(s, at - 1)
    }
}

/// The offset at which the line that holds `at` begins.
pub open spec fn line_start(s: Seq<char>, at: int) -> int
    decreases at,
{
    if at <= 0 || at > s.len() {
        0
    } else if s[at - 1] == '\n' {
        at
    } else {
        line_start(s, at - 1)
    }
}

/// The line of the offset `at`, counted from 1.
pub open spec fn line_of(s: Seq<char>, at: int) -> nat {
    newlines_before(s, at) + 1
}

/// The column of the offset `at`, counted in characters from 1.
pub open spec fn column_of(s: Seq<char>, at: int) -> nat {
    (at - line_start(s, at) + 1) as nat
}

/// `n`, or the largest `usize` where `n` is beyond it.
pub open spec fn clamp(n: nat) -> usize {
    if n <= usize::MAX {
        n as usize
    } else {
        usize::MAX
    }
}

/// The failure of a parse at offset `at`: its line and column (each held
/// in a `usize`, so clamped to it) and the message.
pub open spec fn syntax_error(s: Seq<char>, at: int, message: Seq<char>) -> Failure {
    Failure::ParseError {
        line: clamp(line_of(s, at)) as nat,
        col: clamp(column_of(s, at)) as nat,
        message,
    }
}

/// The error for a parse that fails at offset `at`.
pub fn error_at(input: &[char], at: usize, message: &str) -> (error: SymError)
    requires
        at <= input@.len(),
    ensures
        error@ == syntax_error(input@, at as int, message@),
{
    let mut lines: usize = 0;
    let mut start: usize = 0;
    let mut i: usize = 0;
    while i < at
        invariant
            i <= at <= input@.len(),
            lines == newlines_before(input@, i as int),
            start == line_start(input@, i as int),
            lines <= i,
            start <= i,
        decreases at - i,
    {
        i += 1;
        if input[i - 1] == '\n' {
            lines += 1;
            start = i;
        }
    }
    let line = if lines == usize::MAX {
        usize::MAX
    } else {
        lines + 1
    };
    let offset = at - start;
    let col = if offset == usize::MAX {
        usize::MAX
    } else {
        offset + 1
    };
    SymError::ParseError { line, col, message: String::from_str(message) }
}

/// The classes of characters that runs are made of.
#[derive(Clone, Copy, Debug, PartialEq, Eq)]
pub enum CharClass {
    /// Any whitespace.
    Whitespace,
    /// A space or a tab.
    Horizontal,
    /// A decimal digit.
    Digit,
    /// A decimal digit or `_`.
    DecimalBody,
    /// A hexadecimal digit or `_`.
    HexBody,
    /// `0`, `1` or `_`.
    BinaryBody,
    /// An octal digit or `_`.
    OctalBody,
    /// A letter, a digit, `_` or `-`.
    Identifier,
    /// Anything but a line feed.
    LineRest,
    /// Anything but a line feed or a carriage return.
    PathRest,
}

/// A hexadecimal digit.
pub open spec fn is_hex_digit(c: char) -> bool {
    is_digit(c) || 'a' <= c <= 'f' || 'A' <= c <= 'F'
}

impl CharClass {
    /// Whether the class holds the character.
    pub open spec fn holds(self, c: char) -> bool {
        match self {
            CharClass::Whitespace => is_whitespace(c),
            CharClass::Horizontal => is_hspace(c),
            CharClass::Digit => is_digit(c),
            CharClass::DecimalBody => is_digit(c) || c == '_',
            CharClass::HexBody => is_hex_digit(c) || c == '_',
            CharClass::BinaryBody => c == '0' || c == '1' || c == '_',
            CharClass::OctalBody => '0' <= c <= '7' || c == '_',
            CharClass::Identifier => is_ident_continue(c),
            CharClass::LineRest => c != '\n',
            CharClass::PathRest => c != '\n' && c != '\r',
        }
    }

    /// Whether the class holds the character.
    pub fn contains(self, c: char) -> (b: bool)
        ensures
            b == self.holds(c),
    {
        match self {
            CharClass::Whitespace => whitespace(c),
            CharClass::Horizontal => hspace(c),
            CharClass::Digit => digit(c),
            CharClass::DecimalBody => digit(c) || c == '_',
            CharClass::HexBody => digit(c) || ('a' <= c && c <= 'f') || ('A' <= c && c <= 'F')
                || c == '_',
            CharClass::BinaryBody => c == '0' || c == '1' || c == '_',
            CharClass::OctalBody => ('0' <= c && c <= '7') || c == '_',
            CharClass::Identifier => ident_continue(c),
            CharClass::LineRest => c != '\n',
            CharClass::PathRest => c != '\n' && c != '\r',
        }
    }
}

/// The length of the longest run of characters of the class from `p` on.
pub open spec fn run_len(s: Seq<char>, p: int, class: CharClass) -> nat
    decreases s.len() - p,
{
    if 0 <= p < s.len() && class.holds(s[p]) {
        1 + run_len(s, p + 1, class)
    } else {
        0
    }
}

/// A run ends inside the input, at a character outside the class, and
/// holds characters of the class only.
pub proof fn lemma_run(s: Seq<char>, p: int, class: CharClass)
    requires
        0 <= p <= s.len(),
    ensures
        p + run_len(s, p, class) <= s.len(),
        p + run_len(s, p, class) < s.len() ==> !class.holds(s[p + run_len(s, p, class)]),
        forall|i: int| p <= i < p + run_len(s, p, class) ==> class.holds(#[trigger] s[i]),
    decreases s.len() - p,
{
    if p < s.len() && class.holds(s[p]) {
        lemma_run(s, p + 1, class);
    }
}

/// A run that is known to reach `q` continues with the run from `q`.
pub proof fn lemma_run_split(s: Seq<char>, p: int, q: int, class: CharClass)
    requires
        0 <= p <= q <= s.len(),
        forall|i: int| p <= i < q ==> class.holds(#[trigger] s[i]),
    ensures
        run_len(s, p, class) == (q - p) + run_len(s, q, class),
    decreases q - p,
{
    if p < q {
        lemma_run_split(s, p + 1, q, class);
    }
}

/// The end of the run of characters of the class that begins at `pos`.
pub fn skip_run(input: &[char], pos: usize, class: CharClass) -> (next: usize)
    requires
        pos <= input@.len(),
    ensures
        next == pos + run_len(input@, pos as int, class),
        pos <= next <= input@.len(),
{
    let mut i: usize = pos;
    while i < input.len() && class.contains(input[i])
        invariant
            pos <= i <= input@.len(),
            forall|j: int| pos <= j < i ==> class.holds(#[trigger] input@[j]),
        decreases input@.len() - i,
    {
        i += 1;
    }
    proof {
        lemma_run_split(input@, pos as int, i as int, class);
    }
    i
}

/// The number of whitespace characters from `p` on.
pub open spec fn whitespace_len(s: Seq<char>, p: int) -> nat {
    run_len(s, p, CharClass::Whitespace)
}

/// The number of spaces and tabs from `p` on.
pub open spec fn hspace_len(s: Seq<char>, p: int) -> nat {
    run_len(s, p, CharClass::Horizontal)
}

/// Whether a line comment `//` begins at `p`.
pub open spec fn is_line_comment_at(s: Seq<char>, p: int) -> bool {
    0 <= p && p + 1 < s.len() && s[p] == '/' && s[p + 1] == '/'
}

/// Whether a block comment `/*` begins at `p`.
pub open spec fn is_block_comment_at(s: Seq<char>, p: int) -> bool {
    0 <= p && p + 1 < s.len() && s[p] == '/' && s[p + 1] == '*'
}

/// The length of the line comment at `p`: the `//` and all that follows up
/// to the line feed, which is not part of it.
pub open spec fn line_comment_len(s: Seq<char>, p: int) -> nat {
    2 + run_len(s, p + 2, CharClass::LineRest)
}

/// The length of what follows the opening of a block comment from `p` on:
/// up to and with the first `*/`, or up to the end of the input.
pub open spec fn block_rest_len(s: Seq<char>, p: int) -> nat
    decreases s.len() - p,
{
    if p < 0 || p >= s.len() {
        0
    } else if s[p] == '*' && p + 1 < s.len() && s[p + 1] == '/' {
        2
    } else {
        1 + block_rest_len(s, p + 1)
    }
}

/// The length of the block comment at `p`. Block comments do not nest, and
/// one that is not closed ends with the input.
pub open spec fn block_comment_len(s: Seq<char>, p: int) -> nat {
    2 + block_rest_len(s, p + 2)
}

/// What is left of the input from `p`, as a measure for recursion.
pub open spec fn remaining(s: Seq<char>, p: int) -> int {
    if p < s.len() {
        s.len() - p
    } else {
        0
    }
}

/// The length of the trivia from `p` on: whitespace, line comments and
/// block comments, in any order and number.
pub open spec fn trivia_len(s: Seq<char>, p: int) -> nat
    decreases remaining(s, p),
{
    let w = whitespace_len(s, p);
    if is_line_comment_at(s, p + w) {
        let n = w + line_comment_len(s, p + w);
        n + trivia_len(s, p + n)
    } else if is_block_comment_at(s, p + w) {
        let n = w + block_comment_len(s, p + w);
        n + trivia_len(s, p + n)
    } else {
        w
    }
}

/// The position after the whitespace that begins at `pos`.
pub fn skip_whitespace(input: &[char], pos: usize) -> (next: usize)
    requires
        pos <= input@.len(),
    ensures
        next == pos + whitespace_len(input@, pos as int),
        pos <= next <= input@.len(),
{
    skip_run(input, pos, CharClass::Whitespace)
}

/// The position after the spaces and tabs that begin at `pos`.
pub fn skip_horizontal_whitespace(input: &[char], pos: usize) -> (next: usize)
    requires
        pos <= input@.len(),
    ensures
        next == pos + hspace_len(input@, pos as int),
        pos <= next <= input@.len(),
{
    skip_run(input, pos, CharClass::Horizontal)
}

/// Whether a line comment begins at `pos`.
pub fn check_line_comment_start(input: &[char], pos: usize) -> (b: bool)
    requires
        pos <= input@.len(),
    ensures
        b == is_line_comment_at(input@, pos as int),
{
    input.len() - pos >= 2 && input[pos] == '/' && input[pos + 1] == '/'
}

/// Whether a block comment begins at `pos`.
pub fn check_block_comment_start(input: &[char], pos: usize) -> (b: bool)
    requires
        pos <= input@.len(),
    ensures
        b == is_block_comment_at(input@, pos as int),
{
    input.len() - pos >= 2 && input[pos] == '/' && input[pos + 1] == '*'
}

/// The position after the line comment at `pos`: that of the line feed
/// that ends it, or the end of the input.
pub fn skip_line_comment(input: &[char], pos: usize) -> (next: usize)
    requires
        is_line_comment_at(input@, pos as int),
    ensures
        next == pos + line_comment_len(input@, pos as int),
        pos + 2 <= next <= input@.len(),
{
    let len = input.len();
    skip_run(input, pos + 2, CharClass::LineRest)
}

/// The position after the block comment at `pos`.
pub fn skip_block_comment(input: &[char], pos: usize) -> (next: usize)
    requires
        is_block_comment_at(input@, pos as int),
    ensures
        next == pos + block_comment_len(input@, pos as int),
        pos + 2 <= next <= input@.len(),
{
    let len = input.len();
    let mut i: usize = pos + 2;
    loop
        invariant_except_break
            block_rest_len(input@, pos + 2) == (i - (pos + 2)) + block_rest_len(input@, i as int),
        invariant
            pos + 2 <= i <= input@.len(),
        ensures
            pos + 2 <= i <= input@.len(),
            i == pos + block_comment_len(input@, pos as int),
        decreases input@.len() - i,
    {
        if i >= input.len() {
            break ;
        }
        if input[i] == '*' && input.len() - i >= 2 && input[i + 1] == '/' {
            i += 2;
            break ;
        }
        i += 1;
    }
    i
}

/// The position after the trivia that begins at `pos`.
pub fn skip_whitespace_and_comments(input: &[char], pos: usize) -> (next: usize)
    requires
        pos <= input@.len(),
    ensures
        next == pos + trivia_len(input@, pos as int),
        pos <= next <= input@.len(),
{
    let mut i: usize = pos;
    loop
        invariant_except_break
            trivia_len(input@, pos as int) == (i - pos) + trivia_len(input@, i as int),
        invariant
            pos <= i <= input@.len(),
        ensures
            pos <= i <= input@.len(),
            i == pos + trivia_len(input@, pos as int),
        decreases input@.len() - i,
    {
        let w = skip_whitespace(input, i);
        if check_line_comment_start(input, w) {
            i = skip_line_comment(input, w);
        } else if check_block_comment_start(input, w) {
            i = skip_block_comment(input, w);
        } else {
            i = w;
            break ;
        }
    }
    i
}

} // verus!
