//! Text comparison and scanning helpers.

use crate::bytes::same_bytes;
use vstd::prelude::*;
use vstd::utf8::{decode_utf8, encode_utf8, valid_utf8};

verus! {

/// Texts with the same UTF-8 bytes are the same text.
pub proof fn lemma_text_determined_by_bytes(a: Seq<char>, b: Seq<char>)
    ensures
        encode_utf8(a) == encode_utf8(b) ==> a == b,
{
    vstd::utf8::encode_utf8_decode_utf8(a);
    vstd::utf8::encode_utf8_decode_utf8(b);
}

/// Whether two texts are equal.
pub fn same_text(a: &str, b: &str) -> (same: bool)
    ensures
        same == (a@ == b@),
{
    proof {
        lemma_text_determined_by_bytes(a@, b@);
    }
    same_bytes(a.as_bytes(), b.as_bytes())
}

/// Trusted: `String::push` appends one character and changes nothing else.
pub assume_specification[ String::push ](s: &mut String, ch: char)
    ensures
        final(s)@ == old(s)@.push(ch),
;

/// Why bytes are no UTF-8 text.
#[derive(Debug, Clone, Copy, PartialEq, Eq, Structural)]
pub struct Utf8Fault {
    /// Length of the longest valid prefix.
    pub valid_up_to: usize,
    /// Length of the invalid sequence behind it, or `None` where the input ends
    /// within a sequence.
    pub error_len: Option<usize>,
}

/// Length of the longest valid prefix among those of at most `len` bytes.
pub open spec fn valid_prefix(bytes: Seq<u8>, len: nat) -> nat
    decreases len,
{
    if len == 0 || valid_utf8(bytes.take(len as int)) {
        len
    } else {
        valid_prefix(bytes, (len - 1) as nat)
    }
}

/// Length of the first invalid sequence: what `Utf8Error::error_len` returns for
/// the bytes.
pub uninterp spec fn utf8_error_len(bytes: Seq<u8>) -> Option<usize>;

/// Why the bytes are no UTF-8 text.
pub open spec fn utf8_fault(bytes: Seq<u8>) -> Utf8Fault {
    Utf8Fault {
        valid_up_to: valid_prefix(bytes, bytes.len()) as usize,
        error_len: utf8_error_len(bytes),
    }
}

/// The text that UTF-8 bytes spell.
///
/// Trusted: `String::from_utf8` accepts exactly the valid UTF-8 byte strings
/// and keeps their characters. For others its error tells in `valid_up_to` the
/// length of the longest valid prefix, and in `error_len` the length of what
/// is wrong behind it, a function of the bytes alone.
#[verifier::external_body]
pub(crate) fn text_of_utf8(bytes: Vec<u8>) -> (text: Result<String, Utf8Fault>)
    ensures
        match text {
            Ok(s) => valid_utf8(bytes@) && s@ == decode_utf8(bytes@),
            Err(fault) => {
                &&& !valid_utf8(bytes@)
                &&& fault.valid_up_to == valid_prefix(bytes@, bytes@.len())
                &&& fault.error_len == utf8_error_len(bytes@)
            },
        },
{
    match String::from_utf8(bytes) {
        Ok(text) => Ok(text),
        Err(e) => {
            let fault = e.utf8_error();
            Err(Utf8Fault { valid_up_to: fault.valid_up_to(), error_len: fault.error_len() })
        },
    }
}

/// What a failure says.
pub open spec fn utf8_fault_text(fault: Utf8Fault) -> Seq<char> {
    match fault.error_len {
        Some(len) => "invalid utf-8 sequence of "@ + decimal(len as nat) + " bytes from index "@
            + decimal(fault.valid_up_to as nat),
        None => "incomplete utf-8 byte sequence from index "@ + decimal(fault.valid_up_to as nat),
    }
}

impl Utf8Fault {
    /// What the failure says.
    pub fn message(&self) -> (text: String)
        ensures
            text@ == utf8_fault_text(*self),
    {
        let mut out: String = String::new();
        match self.error_len {
            Some(len) => {
                push_text(&mut out, "invalid utf-8 sequence of ");
                push_decimal(&mut out, len as u64);
                push_text(&mut out, " bytes from index ");
            },
            None => {
                push_text(&mut out, "incomplete utf-8 byte sequence from index ");
            },
        }
        push_decimal(&mut out, self.valid_up_to as u64);
        assert(out@ =~= utf8_fault_text(*self));
        out
    }
}

/// The characters of a text.
pub fn chars_of(s: &str) -> (chars: Vec<char>)
    ensures
        chars@ == s@,
{
    let mut chars: Vec<char> = Vec::new();
    for c in it: s.chars()
        invariant
            chars@ == s@.take(it.index()),
            it.seq() == s@,
    {
        chars.push(c);
        assert(s@.take(it.index() + 1) =~= s@.take(it.index()).push(c));
    }
    assert(s@.take(s@.len() as int) =~= s@);
    chars
}

/// The text of part of a character sequence.
pub fn text_of(chars: &Vec<char>, from: usize, to: usize) -> (s: String)
    requires
        from <= to <= chars@.len(),
    ensures
        s@ == chars@.subrange(from as int, to as int),
{
    let mut s: String = String::new();
    let mut i: usize = from;
    while i < to
        invariant
            from <= i <= to <= chars@.len(),
            s@ == chars@.subrange(from as int, i as int),
        decreases to - i,
    {
        s.push(chars[i]);
        i = i + 1;
        assert(s@ =~= chars@.subrange(from as int, i as int));
    }
    s
}

/// The pattern stands in the text at the given position.
pub open spec fn occurs_at(text: Seq<char>, pattern: Seq<char>, at: int) -> bool {
    0 <= at && at + pattern.len() <= text.len() && text.subrange(at, at + pattern.len()) == pattern
}

/// The pattern stands somewhere in the text.
pub open spec fn contains_text(text: Seq<char>, pattern: Seq<char>) -> bool {
    exists|at: int| #[trigger] occurs_at(text, pattern, at)
}

/// Whether the pattern stands at the given position.
pub fn stands_at(text: &Vec<char>, pattern: &Vec<char>, at: usize) -> (yes: bool)
    ensures
        yes == occurs_at(text@, pattern@, at as int),
{
    if at > text.len() || text.len() - at < pattern.len() {
        return false;
    }
    let total: usize = text.len();
    let mut i: usize = 0;
    while i < pattern.len()
        invariant
            i <= pattern@.len(),
            at + pattern@.len() <= total == text@.len(),
            forall|j: int| 0 <= j < i ==> text@[at + j] == pattern@[j],
        decreases pattern@.len() - i,
    {
        if text[at + i] != pattern[i] {
            proof {
                let part = text@.subrange(at as int, at + pattern@.len());
                assert(part[i as int] == text@[at + i]);
            }
            return false;
        }
        i = i + 1;
    }
    assert(text@.subrange(at as int, at + pattern@.len()) =~= pattern@);
    true
}

/// Whether the pattern stands somewhere in the text.
pub fn has_text(text: &Vec<char>, pattern: &Vec<char>) -> (yes: bool)
    ensures
        yes == contains_text(text@, pattern@),
{
    let mut at: usize = 0;
    while at < text.len()
        invariant
            at <= text@.len(),
            forall|i: int| 0 <= i < at ==> !#[trigger] occurs_at(text@, pattern@, i),
        decreases text@.len() - at,
    {
        if stands_at(text, pattern, at) {
            return true;
        }
        at = at + 1;
    }
    stands_at(text, pattern, at)
}

/// A character with the Unicode `White_Space` property.
pub open spec fn white_space(c: char) -> bool {
    ||| '\u{9}' <= c <= '\u{d}'
    ||| c == ' '
    ||| c == '\u{85}'
    ||| c == '\u{a0}'
    ||| c == '\u{1680}'
    ||| '\u{2000}' <= c <= '\u{200a}'
    ||| c == '\u{2028}'
    ||| c == '\u{2029}'
    ||| c == '\u{202f}'
    ||| c == '\u{205f}'
    ||| c == '\u{3000}'
}

/// Whether a character is white space.
pub fn is_white_space(c: char) -> (yes: bool)
    ensures
        yes == white_space(c),
{
    ('\u{9}' <= c && c <= '\u{d}') || c == ' ' || c == '\u{85}' || c == '\u{a0}' || c
        == '\u{1680}' || ('\u{2000}' <= c && c <= '\u{200a}') || c == '\u{2028}' || c == '\u{2029}'
        || c == '\u{202f}' || c == '\u{205f}' || c == '\u{3000}'
}

/// How much leading white space the text has.
pub open spec fn leading_white(s: Seq<char>) -> nat
    decreases s.len(),
{
    if s.len() == 0 || !white_space(s[0]) {
        0
    } else {
        1 + leading_white(s.drop_first())
    }
}

/// How much trailing white space the text has.
pub open spec fn trailing_white(s: Seq<char>) -> nat
    decreases s.len(),
{
    if s.len() == 0 || !white_space(s.last()) {
        0
    } else {
        1 + trailing_white(s.drop_last())
    }
}

/// The text without white space at its ends.
pub open spec fn trimmed(s: Seq<char>) -> Seq<char> {
    let rest = s.skip(leading_white(s) as int);
    rest.take(rest.len() - trailing_white(rest))
}

proof fn lemma_white_bounds(s: Seq<char>)
    ensures
        leading_white(s) <= s.len(),
        trailing_white(s) <= s.len(),
    decreases s.len(),
{
    if s.len() > 0 {
        lemma_white_bounds(s.drop_first());
        lemma_white_bounds(s.drop_last());
    }
}

/// The text without white space at its ends.
pub fn trim(text: &Vec<char>) -> (out: Vec<char>)
    ensures
        out@ == trimmed(text@),
{
    let mut from: usize = 0;
    assert(text@.skip(0) =~= text@);
    while from < text.len() && is_white_space(text[from])
        invariant
            from <= text@.len(),
            leading_white(text@) == from + leading_white(text@.skip(from as int)),
        decreases text@.len() - from,
    {
        assert(text@.skip(from as int).drop_first() =~= text@.skip(from + 1));
        from = from + 1;
    }
    let ghost rest = text@.skip(from as int);
    assert(leading_white(text@) == from);
    let mut to: usize = text.len();
    assert(rest.take(rest.len() as int) =~= rest);
    while to > from && is_white_space(text[to - 1])
        invariant
            from <= to <= text@.len(),
            rest == text@.skip(from as int),
            trailing_white(rest) == text@.len() - to + trailing_white(rest.take(to - from)),
        decreases to,
    {
        assert(rest.take(to - from).drop_last() =~= rest.take(to - from - 1));
        assert(rest.take(to - from).last() == text@[to - 1]);
        to = to - 1;
    }
    assert(trailing_white(rest.take(to - from)) == 0) by {
        if to > from {
            assert(rest.take(to - from).last() == text@[to - 1]);
        }
    }
    let mut out: Vec<char> = Vec::new();
    let mut i: usize = from;
    while i < to
        invariant
            from <= i <= to <= text@.len(),
            out@ == text@.subrange(from as int, i as int),
        decreases to - i,
    {
        out.push(text[i]);
        i = i + 1;
        assert(out@ =~= text@.subrange(from as int, i as int));
    }
    proof {
        lemma_white_bounds(rest);
        assert(out@ =~= trimmed(text@));
    }
    out
}

/// Position of the first line feed, if there is one.
pub open spec fn line_end(s: Seq<char>) -> Option<int>
    decreases s.len(),
{
    if s.len() == 0 {
        None
    } else if s[0] == '\n' {
        Some(0)
    } else {
        match line_end(s.drop_first()) {
            Some(i) => Some(i + 1),
            None => None,
        }
    }
}

/// A line without the carriage return of its line ending.
pub open spec fn without_return(line: Seq<char>) -> Seq<char> {
    if line.len() > 0 && line.last() == '\r' {
        line.drop_last()
    } else {
        line
    }
}

pub proof fn lemma_line_end(s: Seq<char>)
    ensures
        line_end(s) matches Some(i) ==> 0 <= i < s.len() && s[i] == '\n' && forall|j: int|
            0 <= j < i ==> s[j] != '\n',
        line_end(s) is None ==> forall|j: int| 0 <= j < s.len() ==> s[j] != '\n',
    decreases s.len(),
{
    if s.len() > 0 {
        let rest = s.drop_first();
        lemma_line_end(rest);
        assert forall|j: int| 0 < j < s.len() implies #[trigger] s[j] == rest[j - 1] by {}
    }
}

/// The lines of a text, without their line endings. The ending of the last
/// line is optional.
pub open spec fn lines_of(s: Seq<char>) -> Seq<Seq<char>>
    decreases s.len(),
{
    match line_end(s) {
        None => if s.len() == 0 {
            Seq::empty()
        } else {
            seq![s]
        },
        Some(i) => if 0 <= i < s.len() {
            seq![without_return(s.take(i))] + lines_of(s.skip(i + 1))
        } else {
            Seq::empty()
        },
    }
}

/// The lines of a text, as views.
pub open spec fn line_views(lines: Seq<Vec<char>>) -> Seq<Seq<char>> {
    lines.map_values(|line: Vec<char>| line@)
}

proof fn lemma_line_end_is(s: Seq<char>, i: int)
    requires
        0 <= i < s.len(),
        s[i] == '\n',
        forall|j: int| 0 <= j < i ==> s[j] != '\n',
    ensures
        line_end(s) == Some(i),
{
    lemma_line_end(s);
}

/// The lines of a text.
pub fn split_lines(text: &Vec<char>) -> (lines: Vec<Vec<char>>)
    ensures
        line_views(lines@) == lines_of(text@),
{
    let mut lines: Vec<Vec<char>> = Vec::new();
    let mut start: usize = 0;
    assert(text@.skip(0) =~= text@);
    assert(line_views(lines@) + lines_of(text@) =~= lines_of(text@));
    while start < text.len()
        invariant
            start <= text@.len(),
            line_views(lines@) + lines_of(text@.skip(start as int)) == lines_of(text@),
        decreases text@.len() - start,
    {
        let ghost rest = text@.skip(start as int);
        let ghost done = line_views(lines@);
        let mut line: Vec<char> = Vec::new();
        let mut i: usize = start;
        while i < text.len() && text[i] != '\n'
            invariant
                start <= i <= text@.len(),
                line@ == text@.subrange(start as int, i as int),
                forall|j: int| start <= j < i ==> text@[j] != '\n',
            decreases text@.len() - i,
        {
            line.push(text[i]);
            i = i + 1;
            assert(line@ =~= text@.subrange(start as int, i as int));
        }
        if i == text.len() {
            proof {
                lemma_line_end(rest);
                assert(line@ =~= rest);
                if line_end(rest) is Some {
                    let k = line_end(rest)->Some_0;
                    assert(text@[start + k] == '\n');
                }
                assert(lines_of(rest) =~= seq![line@]);
            }
            lines.push(line);
            proof {
                assert(line_views(lines@) =~= done + seq![rest]);
            }
            return lines;
        }
        proof {
            assert forall|j: int| 0 <= j < i - start implies rest[j] != '\n' by {
                assert(rest[j] == text@[start + j]);
            }
            lemma_line_end_is(rest, i - start);
            assert(line@ =~= rest.take(i - start));
            assert(rest.skip(i - start + 1) =~= text@.skip(i + 1));
        }
        let ghost raw = line@;
        if line.len() > 0 && line[line.len() - 1] == '\r' {
            let _ = line.pop();
            assert(line@ =~= raw.drop_last());
        }
        assert(line@ =~= without_return(raw));
        lines.push(line);
        proof {
            let next = lines_of(text@.skip(i + 1));
            assert(line_views(lines@) =~= done.push(without_return(raw)));
            assert(done + (seq![without_return(raw)] + next) =~= done.push(without_return(raw))
                + next);
        }
        start = i + 1;
    }
    proof {
        assert(text@.skip(start as int) =~= Seq::<char>::empty());
        assert(lines_of(text@.skip(start as int)) =~= Seq::<Seq<char>>::empty());
        assert(line_views(lines@) + Seq::<Seq<char>>::empty() =~= line_views(lines@));
    }
    lines
}

/// The decimal digit of a number below ten.
pub open spec fn digit(d: nat) -> char {
    if d == 0 {
        '0'
    } else if d == 1 {
        '1'
    } else if d == 2 {
        '2'
    } else if d == 3 {
        '3'
    } else if d == 4 {
        '4'
    } else if d == 5 {
        '5'
    } else if d == 6 {
        '6'
    } else if d == 7 {
        '7'
    } else if d == 8 {
        '8'
    } else {
        '9'
    }
}

/// Decimal notation of a number.
pub open spec fn decimal(n: nat) -> Seq<char>
    decreases n,
{
    if n < 10 {
        seq![digit(n)]
    } else {
        decimal(n / 10).push(digit(n % 10))
    }
}

/// Append a number in decimal notation.
pub fn push_decimal(out: &mut String, n: u64)
    ensures
        final(out)@ == old(out)@ + decimal(n as nat),
    decreases n,
{
    let ghost before = out@;
    if n >= 10 {
        push_decimal(out, n / 10);
    }
    let ghost front = out@;
    let d: u64 = n % 10;
    let c: char = if d == 0 {
        '0'
    } else if d == 1 {
        '1'
    } else if d == 2 {
        '2'
    } else if d == 3 {
        '3'
    } else if d == 4 {
        '4'
    } else if d == 5 {
        '5'
    } else if d == 6 {
        '6'
    } else if d == 7 {
        '7'
    } else if d == 8 {
        '8'
    } else {
        '9'
    };
    out.push(c);
    assert(out@ =~= before + decimal(n as nat));
}

/// Append a text.
pub fn push_text(out: &mut String, more: &str)
    ensures
        final(out)@ == old(out)@ + more@,
{
    let chars: Vec<char> = chars_of(more);
    let ghost before = out@;
    let mut i: usize = 0;
    assert(before + chars@.take(0) =~= before);
    while i < chars.len()
        invariant
            i <= chars@.len(),
            chars@ == more@,
            out@ == before + chars@.take(i as int),
        decreases chars@.len() - i,
    {
        out.push(chars[i]);
        i = i + 1;
        assert(chars@.take(i as int) =~= chars@.take(i - 1).push(chars@[i - 1]));
        assert(out@ =~= before + chars@.take(i as int));
    }
    assert(chars@.take(i as int) =~= chars@);
}

} // verus!
