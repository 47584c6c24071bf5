//! The text of an error report: the two source lines around the error with
//! a marker under its column, or, where they cannot be shown, a single line
//! naming the position. The report is built as the bytes to be written.

use crate::parse::parsers::{error_message, ParseError};
use crate::text::{decimal, digit, string_push_str};
use vstd::prelude::*;
use vstd::string::StringSliceAdditionalSpecFns;

verus! {

/// The positions of the line breaks in `s`, in order.
pub open spec fn newlines(s: Seq<u8>) -> Seq<int>
    decreases s.len(),
{
    if s.len() == 0 {
        Seq::empty()
    } else if s.last() == 10 {
        newlines(s.drop_last()).push(s.len() - 1)
    } else {
        newlines(s.drop_last())
    }
}

/// The end of a line that ends at the line break at `pos`: one byte earlier
/// when the byte two before the break is a carriage return.
pub open spec fn spec_fix_clrf(s: Seq<u8>, pos: int) -> int {
    if pos > 1 && s[pos - 2] == 13 {
        pos - 1
    } else {
        pos
    }
}

/// The lines shown around an error.
#[derive(Debug, PartialEq)]
pub enum ErrorContext {
    /// The source has too few lines there: only the position is shown.
    Missing,
    /// The line before the error and the line of the error.
    Lines(Vec<u8>, Vec<u8>),
    /// The end found for the error line lies before its start.
    Inverted,
}

/// What [`error_context`] finds for an error at (0-based) `line`: `None`
/// where the source has too few lines, else the start of the line before
/// the error (`from`), and the line breaks that end it (`a`) and the error
/// line (`b`), relative to `from`.
pub open spec fn context_bounds(src: Seq<u8>, line: u32) -> Option<(int, int, int)> {
    let n: int = if line >= 2 {
        line - 2
    } else {
        0
    };
    let nls = newlines(src);
    if n >= nls.len() {
        Option::None
    } else if src.len() - nls[n] < 3 {
        Option::None
    } else {
        let from = nls[n] + 1;
        let ls = newlines(src.subrange(from, src.len() as int));
        if ls.len() < 2 {
            Option::None
        } else {
            Option::Some((from, ls[0], ls[1]))
        }
    }
}

/// The context lines for an error at `line` in `src`.
pub open spec fn spec_error_context(src: Seq<u8>, line: u32) -> (Seq<u8>, Seq<u8>, bool, bool) {
    match context_bounds(src, line) {
        Option::None => (Seq::empty(), Seq::empty(), false, false),
        Option::Some((from, a, b)) => {
            let start = src.subrange(from, src.len() as int);
            let b2 = spec_fix_clrf(start, b);
            let a2 = spec_fix_clrf(start, a);
            if a + 1 > b2 {
                (Seq::empty(), Seq::empty(), true, true)
            } else {
                (start.subrange(0, a2), start.subrange(a + 1, b2), true, false)
            }
        },
    }
}

/// `pos`, moved back by one when the byte two before it is a carriage return.
pub fn fix_clrf(source: &[u8], pos: usize) -> (r: usize)
    requires
        pos <= source@.len(),
    ensures
        r == spec_fix_clrf(source@, pos as int),
{
    if pos > 1 && source[pos - 2] == 13u8 {
        pos - 1
    } else {
        pos
    }
}

/// The positions of the line breaks in `s` from `from` on, relative to `from`.
fn newline_positions(s: &[u8], from: usize) -> (v: Vec<usize>)
    requires
        from <= s@.len(),
    ensures
        v@.len() == newlines(s@.subrange(from as int, s@.len() as int)).len(),
        forall|i: int| #![trigger v@[i]]
            0 <= i < v@.len() ==> v@[i] == newlines(s@.subrange(from as int, s@.len() as int))[i],
{
    let mut v: Vec<usize> = Vec::new();
    let mut i: usize = from;
    while i < s.len()
        invariant
            from <= i <= s@.len(),
            v@.len() == newlines(s@.subrange(from as int, i as int)).len(),
            forall|k: int| #![trigger v@[k]]
                0 <= k < v@.len() ==> v@[k] == newlines(s@.subrange(from as int, i as int))[k],
        decreases s@.len() - i,
    {
        assert(s@.subrange(from as int, i + 1).drop_last() =~= s@.subrange(from as int, i as int));
        if s[i] == 10u8 {
            v.push(i - from);
        }
        i = i + 1;
    }
    v
}

fn copy_range(s: &[u8], a: usize, b: usize) -> (v: Vec<u8>)
    requires
        a <= b <= s@.len(),
    ensures
        v@ == s@.subrange(a as int, b as int),
{
    let mut v: Vec<u8> = Vec::new();
    let mut i: usize = a;
    while i < b
        invariant
            a <= i <= b,
            b <= s@.len(),
            v@ == s@.subrange(a as int, i as int),
        decreases b - i,
    {
        v.push(s[i]);
        i = i + 1;
        assert(v@ =~= s@.subrange(a as int, i as int));
    }
    v
}

/// The line before an error at (0-based) `line` and the line of the error,
/// each without its line break, when the source has them.
pub fn error_context(source: &str, line: u32) -> (r: ErrorContext)
    ensures
        match r {
            ErrorContext::Missing => !spec_error_context(source.spec_bytes(), line).2,
            ErrorContext::Inverted => spec_error_context(source.spec_bytes(), line).3,
            ErrorContext::Lines(prev, current) => {
                let c = spec_error_context(source.spec_bytes(), line);
                c.2 && !c.3 && prev@ == c.0 && current@ == c.1
            },
        },
{
    let s = source.as_bytes();
    let ghost src = s@;
    let n: u32 = if line >= 2 {
        line - 2
    } else {
        0
    };
    let all = newline_positions(s, 0);
    assert(src.subrange(0, src.len() as int) =~= src);
    if n as usize >= all.len() {
        return ErrorContext::Missing;
    }
    let prev_line = all[n as usize];
    proof {
        lemma_newlines_bound(src, n as int);
    }
    if s.len() - prev_line < 3 {
        return ErrorContext::Missing;
    }
    let from = prev_line + 1;
    let rel = newline_positions(s, from);
    if rel.len() < 2 {
        return ErrorContext::Missing;
    }
    let ghost start = src.subrange(from as int, src.len() as int);
    let prev_end = rel[0];
    let err_end = rel[1];
    proof {
        lemma_newlines_bound(start, 0);
        lemma_newlines_bound(start, 1);
    }
    let err_end2 = if err_end > 1 && s[from + err_end - 2] == 13u8 {
        err_end - 1
    } else {
        err_end
    };
    let prev_end2 = if prev_end > 1 && s[from + prev_end - 2] == 13u8 {
        prev_end - 1
    } else {
        prev_end
    };
    if prev_end + 1 > err_end2 {
        return ErrorContext::Inverted;
    }
    let prev = copy_range(s, from, from + prev_end2);
    let current = copy_range(s, from + prev_end + 1, from + err_end2);
    assert(prev@ =~= start.subrange(0, prev_end2 as int));
    assert(current@ =~= start.subrange(prev_end + 1, err_end2 as int));
    ErrorContext::Lines(prev, current)
}

/// A line break lies inside the bytes, and line breaks come in order.
proof fn lemma_newlines_bound(s: Seq<u8>, i: int)
    requires
        0 <= i < newlines(s).len(),
    ensures
        0 <= newlines(s)[i] < s.len(),
        s[newlines(s)[i]] == 10,
        i > 0 ==> newlines(s)[i - 1] < newlines(s)[i],
    decreases s.len(),
{
    if s.len() > 0 {
        let w = s.drop_last();
        if i < newlines(w).len() {
            lemma_newlines_bound(w, i);
            if i > 0 {
                lemma_newlines_bound(w, i - 1);
            }
        } else if i > 0 {
            lemma_newlines_bound(w, i - 1);
        }
    }
}

/// `n` spaces.
pub open spec fn spaces(n: nat) -> Seq<u8> {
    Seq::new(n, |i: int| 32u8)
}

/// The bytes of ASCII text.
pub open spec fn ascii(s: Seq<char>) -> Seq<u8> {
    s.map_values(|c: char| c as u8)
}

/// `n` in decimal, right-aligned in a field of 5.
pub open spec fn right_aligned(n: nat) -> Seq<u8> {
    let d = ascii(decimal(n));
    if d.len() < 5 {
        spaces((5 - d.len()) as nat) + d
    } else {
        d
    }
}

/// The report of an error at `line` and `column`, with the line before it
/// (`prev`) and its own line (`current`): the source's name, both lines
/// behind their numbers, and an arrow under the column with the message.
pub open spec fn source_report(
    id: Seq<u8>,
    message: Seq<u8>,
    line: nat,
    column: nat,
    prev: Seq<u8>,
    current: Seq<u8>,
) -> Seq<u8> {
    id + ":\n".spec_bytes() + right_aligned((line - 1) as nat) + "│ ".spec_bytes() + prev
        + "\n".spec_bytes() + right_aligned(line) + "│ ".spec_bytes() + current + "\n".spec_bytes()
        + spaces(column + 6) + "╰─► ".spec_bytes() + message + "\n".spec_bytes()
}

/// The one-line report of an error: the source's name and the position in
/// brackets, then the message.
pub open spec fn position_report(id: Seq<u8>, message: Seq<u8>, line: nat, column: nat) -> Seq<u8> {
    "[".spec_bytes() + id + " @ line ".spec_bytes() + ascii(decimal(line)) + ", column ".spec_bytes()
        + ascii(decimal(column)) + "] ".spec_bytes() + message + "\n".spec_bytes()
}

fn push_bytes(out: &mut Vec<u8>, b: &[u8])
    ensures
        final(out)@ == old(out)@ + b@,
{
    let mut i: usize = 0;
    while i < b.len()
        invariant
            i <= b@.len(),
            out@ == old(out)@ + b@.subrange(0, i as int),
        decreases b@.len() - i,
    {
        out.push(b[i]);
        i = i + 1;
        assert(out@ =~= old(out)@ + b@.subrange(0, i as int));
    }
    assert(b@.subrange(0, i as int) =~= b@);
}

fn push_str(out: &mut Vec<u8>, s: &str)
    ensures
        final(out)@ == old(out)@ + s.spec_bytes(),
{
    push_bytes(out, s.as_bytes());
}

fn push_spaces(out: &mut Vec<u8>, n: u64)
    ensures
        final(out)@ == old(out)@ + spaces(n as nat),
{
    let mut i: u64 = 0;
    while i < n
        invariant
            i <= n,
            out@ == old(out)@ + spaces(i as nat),
        decreases n - i,
    {
        out.push(32u8);
        i = i + 1;
        assert(out@ =~= old(out)@ + spaces(i as nat));
    }
}

fn digit_byte(d: u32) -> (b: u8)
    requires
        d < 10,
    ensures
        b == digit(d as nat) as u8,
{
    (d as u8) + 48
}

fn push_decimal(out: &mut Vec<u8>, n: u32)
    ensures
        final(out)@ == old(out)@ + ascii(decimal(n as nat)),
    decreases n,
{
    if n >= 10 {
        push_decimal(out, n / 10);
    }
    out.push(digit_byte(n % 10));
    assert(final(out)@ =~= old(out)@ + ascii(decimal(n as nat)));
}

fn push_right_aligned(out: &mut Vec<u8>, n: u32)
    ensures
        final(out)@ == old(out)@ + right_aligned(n as nat),
{
    let mut digits: Vec<u8> = Vec::new();
    push_decimal(&mut digits, n);
    assert(digits@ =~= ascii(decimal(n as nat)));
    if digits.len() < 5 {
        push_spaces(out, (5 - digits.len()) as u64);
    }
    push_bytes(out, digits.as_slice());
    assert(final(out)@ =~= old(out)@ + right_aligned(n as nat));
}

/// The report of an error in the source named `source_id`: with the context
/// lines where there are any, else the one-line report.
pub fn error_report(source_id: &str, message: &str, line: u32, column: u32, context: &ErrorContext) -> (r: Vec<u8>)
    requires
        !(context is Inverted),
        context is Lines ==> line >= 1 && column <= u32::MAX - 7,
    ensures
        match context {
            ErrorContext::Lines(prev, current) => r@ == source_report(
                source_id.spec_bytes(),
                message.spec_bytes(),
                line as nat,
                column as nat,
                prev@,
                current@,
            ),
            _ => r@ == position_report(
                source_id.spec_bytes(),
                message.spec_bytes(),
                line as nat,
                column as nat,
            ),
        },
{
    let mut out: Vec<u8> = Vec::new();
    match context {
        ErrorContext::Lines(prev, current) => {
            push_str(&mut out, source_id);
            push_str(&mut out, ":\n");
            push_right_aligned(&mut out, line - 1);
            push_str(&mut out, "│ ");
            push_bytes(&mut out, prev.as_slice());
            push_str(&mut out, "\n");
            push_right_aligned(&mut out, line);
            push_str(&mut out, "│ ");
            push_bytes(&mut out, current.as_slice());
            push_str(&mut out, "\n");
            push_spaces(&mut out, (5 + 2 + column - 1) as u64);
            push_str(&mut out, "╰─► ");
            push_str(&mut out, message);
            push_str(&mut out, "\n");
        },
        _ => {
            push_str(&mut out, "[");
            push_str(&mut out, source_id);
            push_str(&mut out, " @ line ");
            push_decimal(&mut out, line);
            push_str(&mut out, ", column ");
            push_decimal(&mut out, column);
            push_str(&mut out, "] ");
            push_str(&mut out, message);
            push_str(&mut out, "\n");
        },
    }
    out
}

/// What went wrong while reading a style sheet: one of the CSS parser's own
/// errors, or one of the theme's.
#[derive(Debug, PartialEq)]
pub enum CssErrorKind {
    /// An unexpected token, with its debug representation.
    UnexpectedToken(String),
    EndOfInput,
    /// An invalid at-rule, by name.
    AtRuleInvalid(String),
    AtRuleBodyInvalid,
    QualifiedRuleInvalid,
    Custom(ParseError),
}

/// The message for an error kind.
pub open spec fn css_error_message(e: CssErrorKind) -> Seq<char> {
    match e {
        CssErrorKind::AtRuleBodyInvalid => "@-rule body is invalid"@,
        CssErrorKind::AtRuleInvalid(s) => "Invalid @-rule ("@ + s@ + ")"@,
        CssErrorKind::EndOfInput => "Unexpected end of input"@,
        CssErrorKind::QualifiedRuleInvalid => "Qualified rule is invalid"@,
        CssErrorKind::UnexpectedToken(t) => "Unexpected token ("@ + t@ + ")"@,
        CssErrorKind::Custom(p) => error_message(p),
    }
}

/// The message for an error that reading a style sheet gave.
pub fn format_css_parse_error(e: &CssErrorKind) -> (s: String)
    ensures
        s@ == css_error_message(*e),
{
    match e {
        CssErrorKind::AtRuleBodyInvalid => "@-rule body is invalid".to_owned(),
        CssErrorKind::AtRuleInvalid(name) => {
            let mut s = "Invalid @-rule (".to_owned();
            string_push_str(&mut s, name.as_str());
            string_push_str(&mut s, ")");
            s
        },
        CssErrorKind::EndOfInput => "Unexpected end of input".to_owned(),
        CssErrorKind::QualifiedRuleInvalid => "Qualified rule is invalid".to_owned(),
        CssErrorKind::UnexpectedToken(t) => {
            let mut s = "Unexpected token (".to_owned();
            string_push_str(&mut s, t.as_str());
            string_push_str(&mut s, ")");
            s
        },
        CssErrorKind::Custom(p) => p.message(),
    }
}

} // verus!
