//! What trimming, splitting, searching and writing numbers do to texts.

use crate::text::{
    contains_text, decimal, digit, leading_white, lemma_line_end, line_end, lines_of, occurs_at,
    trailing_white, trimmed, utf8_fault, valid_prefix, white_space,
};
use vstd::prelude::*;
use vstd::utf8::valid_utf8;

verus! {

/// Every character is white space.
pub open spec fn blank(s: Seq<char>) -> bool {
    forall|i: int| 0 <= i < s.len() ==> white_space(#[trigger] s[i])
}

proof fn lemma_leading(s: Seq<char>)
    ensures
        leading_white(s) <= s.len(),
        blank(s.take(leading_white(s) as int)),
        leading_white(s) < s.len() ==> !white_space(s[leading_white(s) as int]),
    decreases s.len(),
{
    if s.len() > 0 && white_space(s[0]) {
        let rest = s.drop_first();
        lemma_leading(rest);
        let n = leading_white(rest) as int;
        assert forall|i: int| 0 <= i < n + 1 implies white_space(#[trigger] s.take(n + 1)[i]) by {
            if i > 0 {
                assert(rest.take(n)[i - 1] == s[i]);
            }
        }
    }
}

proof fn lemma_trailing(s: Seq<char>)
    ensures
        trailing_white(s) <= s.len(),
        blank(s.skip(s.len() - trailing_white(s))),
        trailing_white(s) < s.len() ==> !white_space(s[s.len() - trailing_white(s) - 1]),
    decreases s.len(),
{
    if s.len() > 0 && white_space(s.last()) {
        let rest = s.drop_last();
        lemma_trailing(rest);
        let from = s.len() - trailing_white(s);
        let end = s.skip(from);
        assert forall|i: int| 0 <= i < end.len() implies white_space(#[trigger] end[i]) by {
            if i < end.len() - 1 {
                assert(rest.skip(from)[i] == end[i]);
            }
        }
    }
}

/// Trimming takes white space off both ends and nothing else: the text is what
/// is left between two stretches of white space, and what is left neither starts
/// nor ends with any.
pub proof fn law_trimming_takes_white_space_off_the_ends(s: Seq<char>)
    ensures
        exists|front: Seq<char>, back: Seq<char>| #[trigger]
            blank(front) && #[trigger] blank(back) && s == front + trimmed(s) + back,
        trimmed(s).len() > 0 ==> !white_space(trimmed(s)[0]) && !white_space(trimmed(s).last()),
{
    lemma_leading(s);
    let n = leading_white(s) as int;
    let rest = s.skip(n);
    lemma_trailing(rest);
    let m = rest.len() - trailing_white(rest);
    let (front, back) = (s.take(n), rest.skip(m));
    assert(s =~= front + trimmed(s) + back);
    assert(blank(front) && blank(back));
    if m > 0 {
        assert(trimmed(s)[0] == s[n]);
        assert(trimmed(s).last() == rest[m - 1]);
    }
}

/// White space is the tab and the breaks after it, the space, the next-line and
/// no-break spaces, and the spaces and separators of general punctuation, Ogham
/// and ideographic text.
pub proof fn law_white_space_characters(c: char)
    ensures
        ({
            let n = c as u32;
            white_space(c) <==> (9 <= n <= 13 || n == 0x20 || n == 0x85 || n == 0xa0 || n == 0x1680
                || (0x2000 <= n <= 0x200a) || n == 0x2028 || n == 0x2029 || n == 0x202f || n
                == 0x205f || n == 0x3000)
        }),
{
}

/// The lines of a text: a text without line feeds is one line, or none where it
/// is empty; behind a line feed the lines go on, and the line before it loses
/// one carriage return at its end.
pub proof fn law_lines_end_at_line_feeds(line: Seq<char>, rest: Seq<char>)
    requires
        forall|i: int| 0 <= i < line.len() ==> #[trigger] line[i] != '\n',
    ensures
        line.len() > 0 ==> lines_of(line) == seq![line],
        lines_of(Seq::<char>::empty()) == Seq::<Seq<char>>::empty(),
        lines_of(line.push('\n') + rest) == seq![
            if line.len() > 0 && line.last() == '\r' {
                line.take(line.len() - 1)
            } else {
                line
            },
        ] + lines_of(rest),
{
    lemma_line_end(line);
    lemma_line_end(Seq::<char>::empty());
    let s = line.push('\n') + rest;
    lemma_line_end(s);
    let n = line.len() as int;
    assert(s[n] == '\n');
    assert forall|j: int| 0 <= j < n implies s[j] != '\n' by {
        assert(s[j] == line[j]);
    }
    assert(line_end(s) == Some(n));
    assert(s.take(n) =~= line);
    assert(s.skip(n + 1) =~= rest);
}

/// A pattern stands in a text exactly when the text is something, then the
/// pattern, then something.
pub proof fn law_search_finds_the_pattern(text: Seq<char>, pattern: Seq<char>)
    ensures
        contains_text(text, pattern) <==> exists|front: Seq<char>, back: Seq<char>|
            text == #[trigger] (front + pattern + back),
{
    if contains_text(text, pattern) {
        let at = choose|at: int| #[trigger] occurs_at(text, pattern, at);
        let (front, back) = (text.take(at), text.skip(at + pattern.len()));
        assert(text =~= front + pattern + back);
    }
    if exists|front: Seq<char>, back: Seq<char>| text == #[trigger] (front + pattern + back) {
        let (front, back) = choose|front: Seq<char>, back: Seq<char>|
            text == #[trigger] (front + pattern + back);
        let at = front.len() as int;
        assert(text.subrange(at, at + pattern.len()) =~= pattern);
        assert(occurs_at(text, pattern, at));
    }
}

/// Decimal notation: a number below ten is one digit, and any other is what its
/// tenth part is, with one digit behind it.
pub proof fn law_decimal_appends_a_digit(tens: nat, ones: nat)
    requires
        ones < 10,
    ensures
        decimal(ones) == seq![(0x30 + ones) as char],
        tens > 0 ==> decimal(10 * tens + ones) == decimal(tens).push((0x30 + ones) as char),
{
    assert(digit(ones) == (0x30 + ones) as char);
    if tens > 0 {
        assert((10 * tens + ones) / 10 == tens);
        assert((10 * tens + ones) % 10 == ones);
    }
}

/// The valid part of bytes that are no text is their longest prefix that is one.
pub proof fn law_valid_part_is_the_longest_prefix(bytes: Seq<u8>, other: int)
    requires
        0 <= other <= bytes.len() <= usize::MAX,
    ensures
        utf8_fault(bytes).valid_up_to <= bytes.len(),
        utf8_fault(bytes).valid_up_to > 0 ==> valid_utf8(
            bytes.take(utf8_fault(bytes).valid_up_to as int),
        ),
        valid_utf8(bytes.take(other)) ==> other <= utf8_fault(bytes).valid_up_to,
{
    lemma_valid_part(bytes, bytes.len(), other);
}

proof fn lemma_valid_part(bytes: Seq<u8>, len: nat, other: int)
    requires
        0 <= other <= len <= bytes.len(),
    ensures
        valid_prefix(bytes, len) <= len,
        valid_prefix(bytes, len) > 0 ==> valid_utf8(bytes.take(valid_prefix(bytes, len) as int)),
        valid_utf8(bytes.take(other)) ==> other <= valid_prefix(bytes, len),
    decreases len,
{
    if len > 0 && !valid_utf8(bytes.take(len as int)) {
        if other < len {
            lemma_valid_part(bytes, (len - 1) as nat, other);
        } else {
            lemma_valid_part(bytes, (len - 1) as nat, 0);
        }
    }
}

} // verus!
