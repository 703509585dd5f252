//! How the findings of a text follow from those of its parts.

use crate::scanner::{
    all_directives, bare_at, bare_hit, bare_table, block_open, directives, exempt, forbidden_at,
    forbidden_table, fully_allowed, hits, last_code, lemma_tables_are_plain, line_hits, marked,
    marker_at, plain_patterns, scan_lines, scanned, stripped, word_end, Finding, ALLOW_MARKER,
    ALLOW_PREFIX,
};
use crate::text::{
    contains_text, leading_white, lemma_line_end, line_end, lines_of, occurs_at, trailing_white,
    trimmed, white_space, without_return,
};
use vstd::prelude::*;

verus! {

/// A finding that many lines further down.
pub open spec fn moved(f: Finding, by: nat) -> Finding {
    Finding { line_number: f.line_number + by, ..f }
}

/// Findings that many lines further down.
pub open spec fn all_moved(found: Seq<Finding>, by: nat) -> Seq<Finding> {
    found.map_values(|f: Finding| moved(f, by))
}

proof fn lemma_line_end_at(s: Seq<char>, i: int)
    requires
        0 <= i < s.len(),
        s[i] == '\n',
        forall|j: int| 0 <= j < i ==> s[j] != '\n',
    ensures
        line_end(s) == Some(i),
{
    lemma_line_end(s);
}

/// A line feed parts the lines before it from those behind it.
proof fn lemma_lines_part(a: Seq<char>, b: Seq<char>)
    ensures
        lines_of(a.push('\n') + b) == lines_of(a.push('\n')) + lines_of(b),
    decreases a.len(),
{
    let head = a.push('\n');
    let s = head + b;
    lemma_line_end(head);
    assert(head[a.len() as int] == '\n');
    let i = line_end(head)->Some_0;
    assert(line_end(head) == Some(i));
    assert forall|j: int| 0 <= j < i implies s[j] != '\n' by {
        assert(s[j] == head[j]);
    }
    assert(s[i] == head[i]);
    lemma_line_end_at(s, i);
    assert(s.take(i) =~= head.take(i));
    let line = without_return(head.take(i));
    if i == a.len() {
        assert(s.skip(i + 1) =~= b);
        assert(head.skip(i + 1) =~= Seq::<char>::empty());
        assert(lines_of(head.skip(i + 1)) =~= Seq::<Seq<char>>::empty());
        assert(lines_of(head) =~= seq![line]);
    } else {
        let rest = a.skip(i + 1);
        lemma_lines_part(rest, b);
        assert(head.skip(i + 1) =~= rest.push('\n'));
        assert(s.skip(i + 1) =~= rest.push('\n') + b);
        assert(lines_of(s) =~= lines_of(head) + lines_of(b));
    }
}

/// Lines whose last one lost the carriage return of its line ending.
pub open spec fn closed_lines(lines: Seq<Seq<char>>) -> Seq<Seq<char>> {
    lines.drop_last().push(without_return(lines.last()))
}

/// What a line feed at the end does to the lines of a text: it ends the last
/// one, or adds an empty one.
proof fn lemma_lines_closed(a: Seq<char>)
    ensures
        a.len() == 0 || a.last() == '\n' ==> lines_of(a.push('\n')) == lines_of(a).push(
            Seq::<char>::empty(),
        ),
        a.len() > 0 && a.last() != '\n' ==> lines_of(a).len() > 0 && lines_of(a.push('\n'))
            == closed_lines(lines_of(a)),
    decreases a.len(),
{
    let head = a.push('\n');
    lemma_line_end(a);
    match line_end(a) {
        None => {
            assert forall|j: int| 0 <= j < a.len() implies head[j] != '\n' by {
                assert(head[j] == a[j]);
            }
            lemma_line_end_at(head, a.len() as int);
            assert(head.take(a.len() as int) =~= a);
            assert(head.skip(a.len() as int + 1) =~= Seq::<char>::empty());
            assert(lines_of(head.skip(a.len() as int + 1)) =~= Seq::<Seq<char>>::empty());
            assert(lines_of(head) =~= seq![without_return(a)]);
            if a.len() == 0 {
                assert(a =~= Seq::<char>::empty());
                assert(lines_of(a) =~= Seq::<Seq<char>>::empty());
                assert(lines_of(head) =~= lines_of(a).push(Seq::<char>::empty()));
            } else {
                assert(lines_of(a) =~= seq![a]);
                assert(lines_of(head) =~= closed_lines(lines_of(a)));
            }
        },
        Some(i) => {
            assert forall|j: int| 0 <= j < i implies head[j] != '\n' by {
                assert(head[j] == a[j]);
            }
            lemma_line_end_at(head, i);
            let rest = a.skip(i + 1);
            lemma_lines_closed(rest);
            assert(head.take(i) =~= a.take(i));
            assert(head.skip(i + 1) =~= rest.push('\n'));
            let first = seq![without_return(a.take(i))];
            assert(lines_of(a) == first + lines_of(rest));
            assert(lines_of(head) == first + lines_of(rest.push('\n')));
            if rest.len() > 0 {
                assert(rest.last() == a.last());
            } else {
                assert(a.last() == a[i]);
            }
            if a.last() == '\n' {
                assert(lines_of(head) =~= lines_of(a).push(Seq::<char>::empty()));
            } else {
                assert(lines_of(head) =~= closed_lines(lines_of(a)));
            }
        },
    }
}

proof fn lemma_occurs_before_return(s: Seq<char>, pattern: Seq<char>, at: int)
    requires
        pattern.len() > 0,
        pattern.last() != '\r',
    ensures
        occurs_at(s.push('\r'), pattern, at) == occurs_at(s, pattern, at),
{
    let t = s.push('\r');
    if 0 <= at && at + pattern.len() <= s.len() {
        assert(t.subrange(at, at + pattern.len()) =~= s.subrange(at, at + pattern.len()));
    } else if occurs_at(t, pattern, at) {
        assert(t.subrange(at, at + pattern.len())[pattern.len() - 1] == '\r');
    }
}

/// Comments end where they ended without the carriage return, and the code at
/// most gains it.
proof fn lemma_stripped_before_return(s: Seq<char>, pos: int, in_block: bool)
    requires
        0 <= pos <= s.len(),
    ensures
        stripped(s.push('\r'), pos, in_block).1 == stripped(s, pos, in_block).1,
        stripped(s.push('\r'), pos, in_block).0 == stripped(s, pos, in_block).0 || stripped(
            s.push('\r'),
            pos,
            in_block,
        ).0 == stripped(s, pos, in_block).0.push('\r'),
    decreases s.len() - pos,
{
    reveal_strlit("*/");
    reveal_strlit("/*");
    reveal_strlit("//");
    let t = s.push('\r');
    lemma_occurs_before_return(s, "*/"@, pos);
    lemma_occurs_before_return(s, "/*"@, pos);
    lemma_occurs_before_return(s, "//"@, pos);
    if pos == s.len() {
        assert(stripped(t, pos + 1, in_block) == (Seq::<char>::empty(), in_block));
        assert(seq!['\r'] + Seq::<char>::empty() =~= Seq::<char>::empty().push('\r'));
    } else if in_block {
        if occurs_at(s, "*/"@, pos) {
            lemma_stripped_before_return(s, pos + 2, false);
        } else {
            lemma_stripped_before_return(s, pos + 1, true);
        }
    } else if occurs_at(s, "//"@, pos) {
    } else if occurs_at(s, "/*"@, pos) {
        lemma_stripped_before_return(s, pos + 2, true);
    } else {
        lemma_stripped_before_return(s, pos + 1, false);
        let rest = stripped(s, pos + 1, false).0;
        let c = seq![s[pos]];
        assert(t[pos] == s[pos]);
        assert(c + rest.push('\r') =~= (c + rest).push('\r'));
    }
}

proof fn lemma_leading_before_return(s: Seq<char>)
    ensures
        leading_white(s) <= s.len(),
        leading_white(s) < s.len() ==> leading_white(s.push('\r')) == leading_white(s),
        leading_white(s) == s.len() ==> leading_white(s.push('\r')) == s.len() + 1,
    decreases s.len(),
{
    let t = s.push('\r');
    if s.len() > 0 {
        lemma_leading_before_return(s.drop_first());
        assert(t.drop_first() =~= s.drop_first().push('\r'));
    } else {
        assert(t.drop_first() =~= Seq::<char>::empty());
        assert(leading_white(t.drop_first()) == 0);
    }
}

proof fn lemma_trimmed_before_return(s: Seq<char>)
    ensures
        trimmed(s.push('\r')) == trimmed(s),
{
    let t = s.push('\r');
    lemma_leading_before_return(s);
    let rest = s.skip(leading_white(s) as int);
    let rest_t = t.skip(leading_white(t) as int);
    if leading_white(s) < s.len() {
        assert(rest_t =~= rest.push('\r'));
        assert(rest_t.drop_last() =~= rest);
        assert(trailing_white(rest_t) == 1 + trailing_white(rest));
        lemma_trailing_bound(rest);
        assert(trimmed(t) =~= trimmed(s));
    } else {
        assert(rest =~= Seq::<char>::empty());
        assert(rest_t =~= Seq::<char>::empty());
    }
}

proof fn lemma_trailing_bound(s: Seq<char>)
    ensures
        trailing_white(s) <= s.len(),
    decreases s.len(),
{
    if s.len() > 0 {
        lemma_trailing_bound(s.drop_last());
    }
}

proof fn lemma_forbidden_before_return(code: Seq<char>, at: int)
    ensures
        forbidden_at(code.push('\r'), at) == forbidden_at(code, at),
{
    lemma_tables_are_plain();
    let rows = forbidden_table();
    let more = code.push('\r');
    assert forall|k: int| 0 <= k < rows.len() implies occurs_at(more, (#[trigger] rows[k]).0, at)
        == occurs_at(code, rows[k].0, at) by {
        lemma_occurs_before_return(code, rows[k].0, at);
    }
    if forbidden_at(more, at) {
        let k = choose|k: int|
            0 <= k < rows.len() && occurs_at(more, (#[trigger] rows[k]).0, at);
        assert(occurs_at(code, rows[k].0, at));
    }
    if forbidden_at(code, at) {
        let k = choose|k: int|
            0 <= k < rows.len() && occurs_at(code, (#[trigger] rows[k]).0, at);
        assert(occurs_at(more, rows[k].0, at));
    }
}

proof fn lemma_hits_before_return(
    table: Seq<(Seq<char>, Seq<char>)>,
    bare: bool,
    number: nat,
    code: Seq<char>,
    subs: Seq<Seq<char>>,
)
    requires
        plain_patterns(table),
    ensures
        hits(table, bare, number, code.push('\r'), subs) == hits(table, bare, number, code, subs),
    decreases table.len(),
{
    if table.len() > 0 {
        let front = table.drop_last();
        assert forall|k: int| 0 <= k < front.len() implies (#[trigger] front[k]).0.len() > 0
            && front[k].0.last() != '\r' by {
            assert(front[k] == table[k]);
        }
        lemma_hits_before_return(front, bare, number, code, subs);
        let pattern = table.last().0;
        let more = code.push('\r');
        assert(table[table.len() - 1].0.len() > 0);
        assert(contains_text(more, pattern) == contains_text(code, pattern)) by {
            if contains_text(more, pattern) {
                let at = choose|at: int| #[trigger] occurs_at(more, pattern, at);
                lemma_occurs_before_return(code, pattern, at);
            }
            if contains_text(code, pattern) {
                let at = choose|at: int| #[trigger] occurs_at(code, pattern, at);
                lemma_occurs_before_return(code, pattern, at);
            }
        }
        assert(bare_hit(more, pattern) == bare_hit(code, pattern)) by {
            if bare_hit(more, pattern) {
                let at = choose|at: int| #[trigger] bare_at(more, pattern, at);
                lemma_occurs_before_return(code, pattern, at);
                lemma_forbidden_before_return(code, at);
                assert(bare_at(code, pattern, at));
            }
            if bare_hit(code, pattern) {
                let at = choose|at: int| #[trigger] bare_at(code, pattern, at);
                lemma_occurs_before_return(code, pattern, at);
                lemma_forbidden_before_return(code, at);
                assert(bare_at(more, pattern, at));
            }
        }
        lemma_trimmed_before_return(code);
    }
}

proof fn lemma_word_end_before_return(s: Seq<char>, from: int)
    requires
        0 <= from <= s.len(),
    ensures
        word_end(s.push('\r'), from) == word_end(s, from),
        from <= word_end(s, from) <= s.len(),
    decreases s.len() - from,
{
    if from < s.len() && !white_space(s[from]) {
        lemma_word_end_before_return(s, from + 1);
    }
}

proof fn lemma_directives_before_return(s: Seq<char>, from: int)
    requires
        0 <= from <= s.len(),
    ensures
        directives(s.push('\r'), from) == directives(s, from),
    decreases s.len() - from,
{
    reveal_strlit("ledger-lint:allow:");
    let t = s.push('\r');
    lemma_occurs_before_return(s, ALLOW_PREFIX@, from);
    if from < s.len() {
        lemma_directives_before_return(s, from + 1);
        let start = from + ALLOW_PREFIX@.len();
        if occurs_at(s, ALLOW_PREFIX@, from) {
            lemma_word_end_before_return(s, start);
            assert(t.subrange(start, word_end(s, start)) =~= s.subrange(start, word_end(s, start)));
        }
    } else {
        assert(directives(t, from + 1) =~= Seq::<Seq<char>>::empty());
    }
}

proof fn lemma_marked_before_return(s: Seq<char>)
    ensures
        marked(s.push('\r')) == marked(s),
{
    reveal_strlit("ledger-lint:allow");
    let t = s.push('\r');
    if marked(t) {
        let at = choose|at: int| #[trigger] marker_at(t, at);
        lemma_occurs_before_return(s, ALLOW_MARKER@, at);
        assert(marker_at(s, at));
    }
    if marked(s) {
        let at = choose|at: int| #[trigger] marker_at(s, at);
        lemma_occurs_before_return(s, ALLOW_MARKER@, at);
        assert(marker_at(t, at));
    }
}

/// The two lists of lines are scanned alike, whatever is exempted.
pub open spec fn scanned_alike(a: Seq<Seq<char>>, b: Seq<Seq<char>>) -> bool {
    &&& fully_allowed(a) == fully_allowed(b)
    &&& all_directives(a) == all_directives(b)
    &&& block_open(a) == block_open(b)
    &&& forall|subs: Seq<Seq<char>>| #[trigger] scan_lines(a, subs) == scan_lines(b, subs)
}

/// Ending the last line changes no finding.
proof fn lemma_closed_alike(lines: Seq<Seq<char>>)
    requires
        lines.len() > 0,
    ensures
        scanned_alike(lines, closed_lines(lines)),
{
    let after = closed_lines(lines);
    let x = lines.last();
    let y = without_return(x);
    assert(after.drop_last() =~= lines.drop_last());
    if x != y {
        assert(x =~= y.push('\r'));
        let open = block_open(lines.drop_last());
        lemma_stripped_before_return(y, 0, open);
        lemma_directives_before_return(y, 0);
        lemma_marked_before_return(y);
        let code = stripped(y, 0, open).0;
        lemma_tables_are_plain();
        lemma_trimmed_before_return(code);
        assert forall|subs: Seq<Seq<char>>| #[trigger] scan_lines(lines, subs) == scan_lines(
            after,
            subs,
        ) by {
            lemma_hits_before_return(forbidden_table(), false, lines.len(), code, subs);
            lemma_hits_before_return(bare_table(), true, lines.len(), code, subs);
            assert(line_hits(lines.len(), last_code(lines), subs) == line_hits(
                after.len(),
                last_code(after),
                subs,
            ));
        }
        if fully_allowed(lines) {
            let i = choose|i: int| 0 <= i < lines.len() && marked(#[trigger] lines[i]);
            assert(marked(after[i]));
        }
        if fully_allowed(after) {
            let i = choose|i: int| 0 <= i < after.len() && marked(#[trigger] after[i]);
            assert(marked(lines[i]));
        }
    } else {
        assert(after =~= lines);
    }
}

/// An empty line changes no finding.
proof fn lemma_blank_alike(lines: Seq<Seq<char>>)
    ensures
        scanned_alike(lines, lines.push(Seq::<char>::empty())),
{
    reveal_strlit("ledger-lint:allow");
    let blank = Seq::<char>::empty();
    let after = lines.push(blank);
    assert(after.drop_last() =~= lines);
    assert(after.last() == blank);
    let open = block_open(lines);
    assert(stripped(blank, 0, open) == (blank, open));
    assert(directives(blank, 0) =~= Seq::<Seq<char>>::empty());
    assert(all_directives(after) =~= all_directives(lines));
    assert(!marked(blank)) by {
        if marked(blank) {
            let at = choose|at: int| #[trigger] marker_at(blank, at);
        }
    }
    assert(trimmed(blank).len() == 0) by {
        lemma_trailing_bound(blank.skip(0));
        assert(leading_white(blank) == 0);
    }
    assert forall|subs: Seq<Seq<char>>| #[trigger] scan_lines(lines, subs) == scan_lines(
        after,
        subs,
    ) by {
        assert(line_hits(after.len(), last_code(after), subs) =~= Seq::<Finding>::empty());
        assert(scan_lines(lines, subs) + Seq::<Finding>::empty() =~= scan_lines(lines, subs));
    }
    if fully_allowed(lines) {
        let i = choose|i: int| 0 <= i < lines.len() && marked(#[trigger] lines[i]);
        assert(marked(after[i]));
    }
    if fully_allowed(after) {
        let i = choose|i: int| 0 <= i < after.len() && marked(#[trigger] after[i]);
        assert(marked(lines[i]));
    }
}

/// A line feed at the end changes no finding.
proof fn lemma_line_feed_alike(a: Seq<char>)
    ensures
        scanned_alike(lines_of(a), lines_of(a.push('\n'))),
{
    lemma_lines_closed(a);
    if a.len() == 0 || a.last() == '\n' {
        lemma_blank_alike(lines_of(a));
    } else {
        lemma_closed_alike(lines_of(a));
    }
}

proof fn lemma_hits_moved(
    table: Seq<(Seq<char>, Seq<char>)>,
    bare: bool,
    number: nat,
    by: nat,
    code: Seq<char>,
    subs: Seq<Seq<char>>,
)
    ensures
        hits(table, bare, number + by, code, subs) == all_moved(
            hits(table, bare, number, code, subs),
            by,
        ),
    decreases table.len(),
{
    if table.len() > 0 {
        lemma_hits_moved(table.drop_last(), bare, number, by, code, subs);
    }
    assert(hits(table, bare, number + by, code, subs) =~= all_moved(
        hits(table, bare, number, code, subs),
        by,
    ));
}

proof fn lemma_allowed_join(a: Seq<Seq<char>>, b: Seq<Seq<char>>)
    ensures
        fully_allowed(a + b) == (fully_allowed(a) || fully_allowed(b)),
{
    if fully_allowed(a + b) {
        let i = choose|i: int| 0 <= i < (a + b).len() && marked(#[trigger] (a + b)[i]);
        if i < a.len() {
            assert(marked(a[i]));
        } else {
            assert(marked(b[i - a.len()]));
        }
    }
    if fully_allowed(a) {
        let i = choose|i: int| 0 <= i < a.len() && marked(#[trigger] a[i]);
        assert(marked((a + b)[i]));
    }
    if fully_allowed(b) {
        let i = choose|i: int| 0 <= i < b.len() && marked(#[trigger] b[i]);
        assert(marked((a + b)[a.len() + i]));
    }
}

proof fn lemma_directives_join(a: Seq<Seq<char>>, b: Seq<Seq<char>>)
    ensures
        all_directives(a + b) == all_directives(a) + all_directives(b),
    decreases b.len(),
{
    if b.len() == 0 {
        assert(a + b =~= a);
        assert(all_directives(a) + Seq::<Seq<char>>::empty() =~= all_directives(a));
    } else {
        lemma_directives_join(a, b.drop_last());
        assert((a + b).drop_last() =~= a + b.drop_last());
        assert((a + b).last() == b.last());
        assert(all_directives(a + b) =~= all_directives(a) + all_directives(b));
    }
}

proof fn lemma_scan_join(a: Seq<Seq<char>>, b: Seq<Seq<char>>, subs: Seq<Seq<char>>)
    requires
        !block_open(a),
    ensures
        block_open(a + b) == block_open(b),
        scan_lines(a + b, subs) == scan_lines(a, subs) + all_moved(scan_lines(b, subs), a.len()),
    decreases b.len(),
{
    if b.len() == 0 {
        assert(a + b =~= a);
        assert(scan_lines(a + b, subs) =~= scan_lines(a, subs) + all_moved(
            scan_lines(b, subs),
            a.len(),
        ));
    } else {
        let both = a + b;
        lemma_scan_join(a, b.drop_last(), subs);
        assert(both.drop_last() =~= a + b.drop_last());
        assert(both.last() == b.last());
        let code = last_code(b);
        assert(last_code(both) == code);
        lemma_hits_moved(forbidden_table(), false, b.len(), a.len(), code, subs);
        lemma_hits_moved(bare_table(), true, b.len(), a.len(), code, subs);
        assert(line_hits(both.len(), code, subs) =~= all_moved(
            line_hits(b.len(), code, subs),
            a.len(),
        ));
        assert(scan_lines(both, subs) =~= scan_lines(a, subs) + all_moved(
            scan_lines(b, subs),
            a.len(),
        ));
    }
}

/// Two texts without markers and directives, joined by a line feed outside of a
/// block comment, hold the findings of both; those of the second are numbered
/// on from the lines of the first.
pub proof fn law_joined_texts_hold_the_findings_of_both(a: Seq<char>, b: Seq<char>)
    requires
        a.len() > 0,
        a.last() != '\n',
        !fully_allowed(lines_of(a)),
        !fully_allowed(lines_of(b)),
        all_directives(lines_of(a)).len() == 0,
        all_directives(lines_of(b)).len() == 0,
        !block_open(lines_of(a)),
    ensures
        scanned(a.push('\n') + b) == scanned(a) + all_moved(scanned(b), lines_of(a).len()),
{
    let first = lines_of(a.push('\n'));
    let second = lines_of(b);
    lemma_lines_part(a, b);
    lemma_lines_closed(a);
    lemma_line_feed_alike(a);
    assert(first.len() == lines_of(a).len());
    lemma_allowed_join(first, second);
    lemma_directives_join(first, second);
    let none = Seq::<Seq<char>>::empty();
    assert(all_directives(lines_of(a)) =~= none);
    assert(all_directives(second) =~= none);
    assert(all_directives(first + second) =~= none);
    lemma_scan_join(first, second, none);
    assert(scan_lines(lines_of(a), none) == scan_lines(first, none));
}

/// A line that is nothing but a directive.
pub open spec fn directive_line(sub: Seq<char>) -> Seq<char> {
    "// ledger-lint:allow:"@ + sub
}

/// A substring that a directive can name: not empty, without white space,
/// without the end of a block comment and without another marker.
pub open spec fn nameable(sub: Seq<char>) -> bool {
    &&& sub.len() > 0
    &&& forall|i: int| 0 <= i < sub.len() ==> !white_space(#[trigger] sub[i])
    &&& !contains_text(sub, "*/"@)
    &&& !contains_text(sub, ALLOW_MARKER@)
}

proof fn lemma_word_end_of_all(s: Seq<char>, from: int)
    requires
        0 <= from <= s.len(),
        forall|i: int| from <= i < s.len() ==> !white_space(#[trigger] s[i]),
    ensures
        word_end(s, from) == s.len(),
    decreases s.len() - from,
{
    if from < s.len() {
        lemma_word_end_of_all(s, from + 1);
    }
}

/// The marker stands in a directive line at its one place.
proof fn lemma_marker_place(sub: Seq<char>, at: int)
    requires
        nameable(sub),
        occurs_at(directive_line(sub), ALLOW_MARKER@, at),
    ensures
        at == 3,
{
    reveal_strlit("// ledger-lint:allow:");
    reveal_strlit("ledger-lint:allow");
    let line = directive_line(sub);
    let found = line.subrange(at, at + ALLOW_MARKER@.len());
    assert(found[0] == 'l' && found[1] == 'e');
    assert(line[at] == 'l' && line[at + 1] == 'e');
    if at >= 21 {
        assert(sub.subrange(at - 21, at - 21 + ALLOW_MARKER@.len()) =~= found);
        assert(occurs_at(sub, ALLOW_MARKER@, at - 21));
    }
}

proof fn lemma_directives_of_line(sub: Seq<char>, from: int)
    requires
        nameable(sub),
        0 <= from <= directive_line(sub).len(),
    ensures
        directives(directive_line(sub), from) == if from <= 3 {
            seq![sub]
        } else {
            Seq::<Seq<char>>::empty()
        },
    decreases directive_line(sub).len() - from,
{
    reveal_strlit("// ledger-lint:allow:");
    reveal_strlit("ledger-lint:allow");
    reveal_strlit("ledger-lint:allow:");
    let line = directive_line(sub);
    let prefix = ALLOW_PREFIX@;
    if from < line.len() {
        lemma_directives_of_line(sub, from + 1);
        if occurs_at(line, prefix, from) {
            let found = line.subrange(from, from + prefix.len());
            assert(line.subrange(from, from + ALLOW_MARKER@.len()) =~= prefix.take(
                ALLOW_MARKER@.len() as int,
            )) by {
                assert forall|i: int| 0 <= i < ALLOW_MARKER@.len() implies line[from + i]
                    == prefix[i] by {
                    assert(found[i] == prefix[i]);
                }
            }
            assert(prefix.take(ALLOW_MARKER@.len() as int) =~= ALLOW_MARKER@);
            lemma_marker_place(sub, from);
        }
        if from == 3 {
            assert(line.subrange(3, 3 + prefix.len() as int) =~= prefix);
            assert forall|i: int| 21 <= i < line.len() implies !white_space(#[trigger] line[i]) by {
                assert(line[i] == sub[i - 21]);
            }
            lemma_word_end_of_all(line, 21);
            assert(line.subrange(21, line.len() as int) =~= sub);
            assert(seq![sub] + Seq::<Seq<char>>::empty() =~= seq![sub]);
        }
    }
}

/// A directive line inside a block comment leaves it open.
proof fn lemma_directive_in_block(sub: Seq<char>, pos: int)
    requires
        nameable(sub),
        0 <= pos <= directive_line(sub).len(),
    ensures
        stripped(directive_line(sub), pos, true) == (Seq::<char>::empty(), true),
    decreases directive_line(sub).len() - pos,
{
    reveal_strlit("// ledger-lint:allow:");
    reveal_strlit("*/");
    let line = directive_line(sub);
    if pos < line.len() {
        if occurs_at(line, "*/"@, pos) {
            let found = line.subrange(pos, pos + 2);
            assert(found[0] == '*' && found[1] == '/');
            assert(line[pos] == '*');
            assert(pos >= 21);
            assert(sub.subrange(pos - 21, pos - 21 + 2) =~= found);
            assert(occurs_at(sub, "*/"@, pos - 21));
        }
        lemma_directive_in_block(sub, pos + 1);
    }
}

proof fn lemma_hits_without(
    table: Seq<(Seq<char>, Seq<char>)>,
    bare: bool,
    number: nat,
    code: Seq<char>,
    subs: Seq<Seq<char>>,
    sub: Seq<char>,
)
    ensures
        hits(table, bare, number, code, subs.push(sub)) == hits(
            table,
            bare,
            number,
            code,
            subs,
        ).filter(spared(sub)),
    decreases table.len(),
{
    reveal(Seq::filter);
    let before = hits(table, bare, number, code, subs);
    let more = subs.push(sub);
    if table.len() > 0 {
        lemma_hits_without(table.drop_last(), bare, number, code, subs, sub);
        let pattern = table.last().0;
        assert(exempt(pattern, more) == (exempt(pattern, subs) || contains_text(pattern, sub))) by {
            if exempt(pattern, more) {
                let k = choose|k: int|
                    0 <= k < more.len() && contains_text(pattern, #[trigger] more[k]);
                if k < subs.len() {
                    assert(contains_text(pattern, subs[k]));
                }
            }
            if exempt(pattern, subs) {
                let k = choose|k: int|
                    0 <= k < subs.len() && contains_text(pattern, #[trigger] subs[k]);
                assert(contains_text(pattern, more[k]));
            }
            assert(more[subs.len() as int] == sub);
        }
        let front = hits(table.drop_last(), bare, number, code, subs);
        if before.len() > front.len() {
            assert(before.drop_last() =~= front);
        }
    }
}

/// The findings that a directive does not silence.
pub open spec fn spared(sub: Seq<char>) -> spec_fn(Finding) -> bool {
    |f: Finding| !contains_text(f.pattern, sub)
}

proof fn lemma_scan_without(lines: Seq<Seq<char>>, subs: Seq<Seq<char>>, sub: Seq<char>)
    ensures
        scan_lines(lines, subs.push(sub)) == scan_lines(lines, subs).filter(spared(sub)),
    decreases lines.len(),
{
    reveal(Seq::filter);
    if lines.len() > 0 {
        let code = last_code(lines);
        let n = lines.len();
        lemma_scan_without(lines.drop_last(), subs, sub);
        lemma_hits_without(forbidden_table(), false, n, code, subs, sub);
        lemma_hits_without(bare_table(), true, n, code, subs, sub);
        Seq::filter_distributes_over_add(
            hits(forbidden_table(), false, n, code, subs),
            hits(bare_table(), true, n, code, subs),
            spared(sub),
        );
        Seq::filter_distributes_over_add(
            scan_lines(lines.drop_last(), subs),
            line_hits(n, code, subs),
            spared(sub),
        );
        assert(Seq::<Finding>::empty().filter(spared(sub)) =~= Seq::<Finding>::empty());
    }
}

/// A directive in a last line of its own silences, in the whole file, exactly
/// the findings whose pattern holds its substring.
pub proof fn law_directive_line_removes_exactly_its_findings(source: Seq<char>, sub: Seq<char>)
    requires
        nameable(sub),
    ensures
        scanned(source.push('\n') + directive_line(sub)) == scanned(source).filter(spared(sub)),
{
    reveal(Seq::filter);
    reveal_strlit("// ledger-lint:allow:");
    reveal_strlit("ledger-lint:allow");
    reveal_strlit("//");
    let line = directive_line(sub);
    let first = lines_of(source.push('\n'));
    let all = first.push(line);
    lemma_lines_part(source, line);
    lemma_line_feed_alike(source);
    lemma_line_end(line);
    assert(line_end(line) is None) by {
        if let Some(i) = line_end(line) {
            if i >= 21 {
                assert(line[i] == sub[i - 21]);
                assert(white_space('\n'));
            }
        }
    }
    assert(lines_of(line) =~= seq![line]);
    assert(lines_of(source.push('\n') + line) =~= all);
    assert(all.drop_last() =~= first);
    assert(!marked(line)) by {
        if marked(line) {
            let at = choose|at: int| #[trigger] marker_at(line, at);
            lemma_marker_place(sub, at);
            assert(line[20] == ':');
        }
    }
    lemma_allowed_join(first, seq![line]);
    assert(first + seq![line] =~= all);
    assert(!fully_allowed(seq![line])) by {
        if fully_allowed(seq![line]) {
            let i = choose|i: int| 0 <= i < seq![line].len() && marked(#[trigger] seq![line][i]);
        }
    }
    if !fully_allowed(lines_of(source)) {
        let subs = all_directives(lines_of(source));
        lemma_directives_of_line(sub, 0);
        assert(all_directives(all) =~= subs.push(sub));
        let open = block_open(first);
        if open {
            lemma_directive_in_block(sub, 0);
        } else {
            assert(line.subrange(0, 2) =~= "//"@);
        }
        assert(last_code(all) == Seq::<char>::empty());
        assert(trimmed(Seq::<char>::empty()).len() == 0) by {
            lemma_trailing_bound(Seq::<char>::empty().skip(0));
            assert(leading_white(Seq::<char>::empty()) == 0);
        }
        assert(line_hits(all.len(), last_code(all), subs.push(sub)) =~= Seq::<Finding>::empty());
        lemma_scan_without(first, subs, sub);
        assert(scan_lines(first, subs) == scan_lines(lines_of(source), subs));
        assert(scan_lines(all, subs.push(sub)) =~= scan_lines(first, subs.push(sub)));
    } else {
        assert(Seq::<Finding>::empty().filter(spared(sub)) =~= Seq::<Finding>::empty());
    }
}

} // verus!
