//! Scalars: identifiers, keyword literals, and strings that are written
//! without quotes and may run over several lines.

use crate::cursor::{
    block_comment_len, check_block_comment_start, check_line_comment_start, error_at, hspace_len,
    is_block_comment_at, is_line_comment_at, lemma_run, line_comment_len, remaining, run_len,
    skip_block_comment, skip_horizontal_whitespace, skip_line_comment, skip_run, syntax_error,
    CharClass,
};
use crate::error::{Failure, SymError};
use crate::number::{number_at, scan_number};
use crate::text::{
    has_prefix_at, hspace, ident_continue, ident_start, is_hspace, is_ident_continue,
    is_ident_start, starts_with_at, string_of, trim, trim_end, trimmed_bounds,
};
use crate::value::{Tree, Value};
use vstd::prelude::*;

verus! {

/// Whether a text is an identifier: a letter or `_`, then letters, digits,
/// `_` and `-`.
pub open spec fn is_identifier(name: Seq<char>) -> bool {
    &&& name.len() > 0
    &&& is_ident_start(name[0])
    &&& forall|i: int| 0 <= i < name.len() ==> is_ident_continue(#[trigger] name[i])
}

/// What is read as an identifier is one.
pub proof fn lemma_identifier_at(s: Seq<char>, p: int)
    ensures
        identifier_at(s, p) matches Ok((name, _)) ==> is_identifier(name),
{
    if 0 <= p < s.len() && is_ident_start(s[p]) {
        lemma_run(s, p + 1, CharClass::Identifier);
    }
}

/// The identifier at `p`, with its length: a letter or `_`, then letters,
/// digits, `_` and `-`.
pub open spec fn identifier_at(s: Seq<char>, p: int) -> Result<(Seq<char>, nat), Failure> {
    if 0 <= p < s.len() && is_ident_start(s[p]) {
        let n = 1 + run_len(s, p + 1, CharClass::Identifier);
        Ok((s.subrange(p, p + n), n))
    } else {
        Err(syntax_error(s, p, "Expected identifier"@))
    }
}

/// Reads the identifier at `pos`.
pub fn parse_identifier(input: &[char], pos: usize) -> (r: Result<(String, usize), SymError>)
    requires
        pos <= input@.len(),
    ensures
        match identifier_at(input@, pos as int) {
            Ok((name, n)) => r matches Ok((text, next)) && text@ == name && next == pos + n,
            Err(failure) => r matches Err(error) && error@ == failure,
        },
        r matches Ok((_, next)) ==> pos < next <= input@.len(),
{
    if pos < input.len() && ident_start(input[pos]) {
        let end = skip_run(input, pos + 1, CharClass::Identifier);
        Ok((string_of(input, pos, end), end))
    } else {
        Err(error_at(input, pos, "Expected identifier"))
    }
}

/// Whether the word stands at `p` and no identifier character follows it.
pub open spec fn word_at(s: Seq<char>, p: int, word: Seq<char>) -> bool {
    has_prefix_at(s, p, word) && !(p + word.len() < s.len() && is_ident_continue(
        s[p + word.len()],
    ))
}

/// The keyword literal at `p`, with its length.
pub open spec fn keyword_at(s: Seq<char>, p: int) -> Option<(Tree, nat)> {
    if word_at(s, p, "true"@) {
        Some((Tree::Bool(true), "true"@.len()))
    } else if word_at(s, p, "false"@) {
        Some((Tree::Bool(false), "false"@.len()))
    } else if word_at(s, p, "null"@) {
        Some((Tree::Null, "null"@.len()))
    } else if word_at(s, p, "inf"@) {
        Some((Tree::Float("inf"@), "inf"@.len()))
    } else if word_at(s, p, "-inf"@) {
        Some((Tree::Float("-inf"@), "-inf"@.len()))
    } else if word_at(s, p, "nan"@) {
        Some((Tree::Float("nan"@), "nan"@.len()))
    } else {
        None
    }
}

/// The position after the word, if it stands at `pos` (see `word_at`).
fn check_word(input: &[char], pos: usize, word: &str) -> (r: Option<usize>)
    requires
        pos <= input@.len(),
    ensures
        match r {
            Some(next) => word_at(input@, pos as int, word@) && next == pos + word@.len(),
            None => !word_at(input@, pos as int, word@),
        },
{
    let len = input.len();
    if starts_with_at(input, pos, word) {
        let next = pos + word.unicode_len();
        if next < input.len() && ident_continue(input[next]) {
            None
        } else {
            Some(next)
        }
    } else {
        None
    }
}

fn scan_keyword(input: &[char], pos: usize) -> (r: Option<(Value, usize)>)
    requires
        pos <= input@.len(),
    ensures
        match keyword_at(input@, pos as int) {
            Some((tree, n)) => r matches Some((value, next)) && value@ == tree && next == pos + n,
            None => r is None,
        },
        r matches Some((_, next)) ==> pos < next <= input@.len(),
{
    proof {
        reveal_strlit("true");
        reveal_strlit("false");
        reveal_strlit("null");
        reveal_strlit("inf");
        reveal_strlit("-inf");
        reveal_strlit("nan");
    }
    if let Some(next) = check_word(input, pos, "true") {
        Some((Value::Bool(true), next))
    } else if let Some(next) = check_word(input, pos, "false") {
        Some((Value::Bool(false), next))
    } else if let Some(next) = check_word(input, pos, "null") {
        Some((Value::Null, next))
    } else if let Some(next) = check_word(input, pos, "inf") {
        Some((Value::Float(String::from_str("inf")), next))
    } else if let Some(next) = check_word(input, pos, "-inf") {
        Some((Value::Float(String::from_str("-inf")), next))
    } else if let Some(next) = check_word(input, pos, "nan") {
        Some((Value::Float(String::from_str("nan")), next))
    } else {
        None
    }
}

/// The lines, each followed by a line feed but the last.
pub open spec fn join_lines(lines: Seq<Seq<char>>) -> Seq<char>
    decreases lines.len(),
{
    if lines.len() == 0 {
        Seq::empty()
    } else if lines.len() == 1 {
        lines[0]
    } else {
        join_lines(lines.drop_last()) + seq!['\n'] + lines.last()
    }
}

/// What has been read of a string: the lines that are complete, the
/// characters of the line that is being read, and whether an escaped space
/// or tab on it asks to keep its leading whitespace.
pub ghost struct Lines {
    pub done: Seq<Seq<char>>,
    pub current: Seq<char>,
    pub keep_start: bool,
}

impl Lines {
    /// Nothing read yet.
    pub open spec fn start() -> Lines {
        Lines { done: Seq::empty(), current: Seq::empty(), keep_start: false }
    }

    /// One more character on the current line.
    pub open spec fn with(self, c: char) -> Lines {
        Lines { current: self.current.push(c), ..self }
    }

    /// The current line as it enters the string: without its trailing
    /// whitespace, and without its leading whitespace unless that is kept.
    pub open spec fn line(self) -> Seq<char> {
        if self.keep_start {
            trim_end(self.current)
        } else {
            trim(self.current)
        }
    }

    /// The state after a line feed: the current line is complete. An empty
    /// line before any content is dropped.
    pub open spec fn closed(self) -> Lines {
        Lines {
            done: if self.line().len() > 0 || self.done.len() > 0 {
                self.done.push(self.line())
            } else {
                self.done
            },
            current: Seq::empty(),
            keep_start: false,
        }
    }

    /// The string read: the complete lines and, if it is not empty, the
    /// current one, joined by line feeds.
    pub open spec fn text(self) -> Seq<char> {
        join_lines(
            if self.line().len() > 0 {
                self.done.push(self.line())
            } else {
                self.done
            },
        )
    }
}

/// The rest of a string from `p` on, given what was read of it: the whole
/// string and the number of characters consumed from `p`.
///
/// The string ends at the end of the input, before a `}` or `]`, or after
/// a line feed (and the spaces and tabs behind it) that a `,` follows. A
/// backslash takes the next character literally; a carriage return is
/// dropped; a comment at the start of a line, or one on a line after
/// spaces or tabs, is passed over.
pub open spec fn string_scan(s: Seq<char>, p: int, read: Lines) -> (Seq<char>, nat)
    decreases remaining(s, p),
{
    if p < 0 || p >= s.len() || s[p] == '}' || s[p] == ']' {
        (read.text(), 0)
    } else if s[p] == '\n' {
        let q = p + 1 + hspace_len(s, p + 1);
        if 0 <= q < s.len() && s[q] == ',' {
            (read.closed().text(), (q - p) as nat)
        } else if is_line_comment_at(s, q) {
            after(string_scan(s, q + line_comment_len(s, q), read.closed()), p, q + line_comment_len(s, q))
        } else if is_block_comment_at(s, q) {
            after(string_scan(s, q + block_comment_len(s, q), read.closed()), p, q + block_comment_len(s, q))
        } else {
            after(string_scan(s, q, read.closed()), p, q)
        }
    } else if s[p] == '\r' {
        after(string_scan(s, p + 1, read), p, p + 1)
    } else if s[p] == '\\' {
        if p + 1 < s.len() {
            let escaped = Lines {
                current: read.current.push(s[p + 1]),
                keep_start: read.keep_start || is_hspace(s[p + 1]),
                ..read
            };
            after(string_scan(s, p + 2, escaped), p, p + 2)
        } else {
            after(string_scan(s, p + 1, read.with('\\')), p, p + 1)
        }
    } else if is_hspace(s[p]) && is_line_comment_at(s, p + hspace_len(s, p)) {
        let q = p + hspace_len(s, p);
        let spaced = Lines { current: read.current + s.subrange(p, q), ..read };
        after(string_scan(s, q + line_comment_len(s, q), spaced), p, q + line_comment_len(s, q))
    } else {
        after(string_scan(s, p + 1, read.with(s[p])), p, p + 1)
    }
}

/// The result of a scan that went on at `q`, seen from `p`.
pub open spec fn after(rest: (Seq<char>, nat), p: int, q: int) -> (Seq<char>, nat) {
    (rest.0, (rest.1 + (q - p)) as nat)
}

/// The string at `p`, with its length in the input.
pub open spec fn string_at(s: Seq<char>, p: int) -> (Seq<char>, nat) {
    string_scan(s, p, Lines::start())
}

/// Adds a complete line to the joined text.
fn push_line(joined: &mut String, any: bool, line: &[char], from: usize, to: usize, Ghost(done): Ghost<Seq<Seq<char>>>)
    requires
        from <= to <= line@.len(),
        old(joined)@ == join_lines(done),
        any == (done.len() > 0),
    ensures
        final(joined)@ == join_lines(done.push(line@.subrange(from as int, to as int))),
{
    if any {
        joined.push('\n');
    }
    let mut i: usize = from;
    let ghost base = joined@;
    assert(base + line@.subrange(from as int, from as int) =~= base);
    while i < to
        invariant
            from <= i <= to <= line@.len(),
            joined@ == base + line@.subrange(from as int, i as int),
        decreases to - i,
    {
        joined.push(line[i]);
        i += 1;
        assert(base + line@.subrange(from as int, i as int) =~= (base + line@.subrange(
            from as int,
            i - 1,
        )).push(line@[i - 1]));
    }
    proof {
        let added = done.push(line@.subrange(from as int, to as int));
        assert(added.drop_last() =~= done);
        if done.len() == 0 {
            assert(base =~= Seq::<char>::empty());
            assert(joined@ =~= added[0]);
        } else {
            assert(base =~= join_lines(done) + seq!['\n']);
        }
    }
}

/// Reads a string from `pos` on: see `string_scan`. Returns the string and
/// the position after it.
pub fn parse_string_content(input: &[char], pos: usize) -> (r: (String, usize))
    requires
        pos <= input@.len(),
    ensures
        r.0@ == string_at(input@, pos as int).0,
        r.1 == pos + string_at(input@, pos as int).1,
        pos <= r.1 <= input@.len(),
{
    let len = input.len();
    let mut joined = String::new();
    let mut any = false;
    let mut current: Vec<char> = Vec::new();
    let mut keep_start = false;
    let ghost mut read = Lines::start();
    let mut i: usize = pos;
    loop
        invariant_except_break
            string_at(input@, pos as int) == after(string_scan(input@, i as int, read), pos as int, i as int),
        invariant
            len == input@.len(),
            pos <= i <= len,
            joined@ == join_lines(read.done),
            any == (read.done.len() > 0),
            current@ == read.current,
            keep_start == read.keep_start,
        ensures
            pos <= i <= len,
            string_at(input@, pos as int) == (read.text(), (i - pos) as nat),
        decreases len - i,
    {
        if i >= len {
            break ;
        }
        let c = input[i];
        if c == '}' || c == ']' {
            break ;
        }
        if c == '\n' {
            let (a, b) = trimmed_bounds(current.as_slice(), 0, current.len(), keep_start);
            proof {
                assert(current@.subrange(0, current@.len() as int) =~= current@);
            }
            if b > a || any {
                push_line(&mut joined, any, current.as_slice(), a, b, Ghost(read.done));
                any = true;
            }
            proof {
                read = read.closed();
            }
            current = Vec::new();
            keep_start = false;
            let q = skip_horizontal_whitespace(input, i + 1);
            if q < len && input[q] == ',' {
                proof {
                    assert(read.line() =~= Seq::<char>::empty());
                }
                i = q;
                break ;
            }
            if check_line_comment_start(input, q) {
                i = skip_line_comment(input, q);
            } else if check_block_comment_start(input, q) {
                i = skip_block_comment(input, q);
            } else {
                i = q;
            }
        } else if c == '\r' {
            i += 1;
        } else if c == '\\' {
            if i + 1 < len {
                let d = input[i + 1];
                if hspace(d) {
                    keep_start = true;
                }
                current.push(d);
                proof {
                    read = Lines {
                        current: read.current.push(d),
                        keep_start: read.keep_start || is_hspace(d),
                        ..read
                    };
                }
                i += 2;
            } else {
                current.push('\\');
                proof {
                    read = read.with('\\');
                }
                i += 1;
            }
        } else {
            let q = if hspace(c) {
                skip_horizontal_whitespace(input, i)
            } else {
                i
            };
            if hspace(c) && check_line_comment_start(input, q) {
                let ghost before = current@;
                let mut k: usize = i;
                while k < q
                    invariant
                        i <= k <= q <= len,
                        len == input@.len(),
                        current@ == before + input@.subrange(i as int, k as int),
                    decreases q - k,
                {
                    current.push(input[k]);
                    k += 1;
                    assert(before + input@.subrange(i as int, k as int) =~= (before
                        + input@.subrange(i as int, k - 1)).push(input@[k - 1]));
                }
                proof {
                    read = Lines { current: read.current + input@.subrange(i as int, q as int), ..read };
                }
                i = skip_line_comment(input, q);
            } else {
                current.push(c);
                proof {
                    read = read.with(c);
                }
                i += 1;
            }
        }
    }
    let (a, b) = trimmed_bounds(current.as_slice(), 0, current.len(), keep_start);
    proof {
        assert(current@.subrange(0, current@.len() as int) =~= current@);
    }
    if b > a {
        push_line(&mut joined, any, current.as_slice(), a, b, Ghost(read.done));
    }
    (joined, i)
}

/// The scalar at `p`, with its length: a number, else a keyword literal,
/// else a string.
pub open spec fn scalar_at(s: Seq<char>, p: int) -> (Tree, nat) {
    match number_at(s, p) {
        Some(number) => number,
        None => match keyword_at(s, p) {
            Some(keyword) => keyword,
            None => (Tree::Str(string_at(s, p).0), string_at(s, p).1),
        },
    }
}

/// Reads the scalar at `pos`: a number, a keyword literal or a string.
pub fn parse_literal_or_string(input: &[char], pos: usize) -> (r: (Value, usize))
    requires
        pos <= input@.len(),
    ensures
        r.0@ == scalar_at(input@, pos as int).0,
        r.1 == pos + scalar_at(input@, pos as int).1,
        pos <= r.1 <= input@.len(),
{
    if let Some(number) = scan_number(input, pos) {
        return number;
    }
    if let Some(keyword) = scan_keyword(input, pos) {
        return keyword;
    }
    let (text, next) = parse_string_content(input, pos);
    (Value::String(text), next)
}

} // verus!
