//! What counts as code, as a directive and as an import in a source text.

use crate::scanner::{
    descends, directives, ends_at_semicolon, fully_allowed, import_line, name_ends, scanned,
    segment_at, stripped, total, with_file, word_end, ScanReport, ALLOW_PREFIX,
};
use crate::text::{lines_of, occurs_at, white_space};
use vstd::prelude::*;

verus! {

/// The pattern stands nowhere in the text.
pub open spec fn free_of(text: Seq<char>, pattern: Seq<char>) -> bool {
    forall|at: int| !#[trigger] occurs_at(text, pattern, at)
}

/// Code in which no comment starts, whatever follows it.
pub open spec fn plain_code(text: Seq<char>) -> bool {
    &&& free_of(text, "//"@)
    &&& free_of(text, "/*"@)
    &&& text.len() > 0 ==> text.last() != '/'
}

proof fn lemma_two(line: Seq<char>, first: char, second: char, pattern: Seq<char>, at: int)
    requires
        pattern == seq![first, second],
    ensures
        occurs_at(line, pattern, at) <==> 0 <= at && at + 2 <= line.len() && line[at] == first
            && line[at + 1] == second,
{
    if 0 <= at && at + 2 <= line.len() {
        let found = line.subrange(at, at + 2);
        assert(found[0] == line[at] && found[1] == line[at + 1]);
        if line[at] == first && line[at + 1] == second {
            assert(found =~= pattern);
        }
    }
}

/// The comment signs, character by character.
proof fn lemma_signs(line: Seq<char>, at: int)
    ensures
        occurs_at(line, "//"@, at) <==> 0 <= at && at + 2 <= line.len() && line[at] == '/'
            && line[at + 1] == '/',
        occurs_at(line, "/*"@, at) <==> 0 <= at && at + 2 <= line.len() && line[at] == '/'
            && line[at + 1] == '*',
        occurs_at(line, "*/"@, at) <==> 0 <= at && at + 2 <= line.len() && line[at] == '*'
            && line[at + 1] == '/',
{
    reveal_strlit("//");
    reveal_strlit("/*");
    reveal_strlit("*/");
    assert("//"@ =~= seq!['/', '/']);
    assert("/*"@ =~= seq!['/', '*']);
    assert("*/"@ =~= seq!['*', '/']);
    lemma_two(line, '/', '/', "//"@, at);
    lemma_two(line, '/', '*', "/*"@, at);
    lemma_two(line, '*', '/', "*/"@, at);
}

/// What is stripped from a position on depends on what stands there and behind.
proof fn lemma_stripped_tail(line: Seq<char>, pos: int, in_block: bool)
    requires
        0 <= pos <= line.len(),
    ensures
        stripped(line, pos, in_block) == stripped(line.skip(pos), 0, in_block),
    decreases line.len() - pos,
{
    let tail = line.skip(pos);
    if pos < line.len() {
        lemma_signs(line, pos);
        lemma_signs(tail, 0);
        assert(tail[0] == line[pos]);
        if pos + 1 < line.len() {
            assert(tail[1] == line[pos + 1]);
        }
        lemma_stripped_tail(line, pos + 1, in_block);
        lemma_stripped_tail(tail, 1, in_block);
        assert(tail.skip(1) =~= line.skip(pos + 1));
        if pos + 2 <= line.len() {
            lemma_stripped_tail(line, pos + 2, !in_block);
            lemma_stripped_tail(tail, 2, !in_block);
            assert(tail.skip(2) =~= line.skip(pos + 2));
        }
    }
}

/// Code in front of a text is kept, character by character.
proof fn lemma_code_in_front(code: Seq<char>, rest: Seq<char>)
    requires
        plain_code(code),
    ensures
        stripped(code + rest, 0, false) == (
            code + stripped(rest, 0, false).0,
            stripped(rest, 0, false).1,
        ),
    decreases code.len(),
{
    let line = code + rest;
    if code.len() == 0 {
        assert(line =~= rest);
        assert(code + stripped(rest, 0, false).0 =~= stripped(rest, 0, false).0);
    } else {
        let tail = code.drop_first();
        lemma_signs(line, 0);
        lemma_signs(code, 0);
        assert(!occurs_at(code, "//"@, 0));
        assert(!occurs_at(code, "/*"@, 0));
        assert(line[0] == code[0]);
        if code.len() > 1 {
            assert(line[1] == code[1]);
        } else {
            assert(code.last() == code[0]);
        }
        assert(plain_code(tail)) by {
            assert forall|at: int| !#[trigger] occurs_at(tail, "//"@, at) by {
                lemma_signs(tail, at);
                lemma_signs(code, at + 1);
                assert(!occurs_at(code, "//"@, at + 1));
            }
            assert forall|at: int| !#[trigger] occurs_at(tail, "/*"@, at) by {
                lemma_signs(tail, at);
                lemma_signs(code, at + 1);
                assert(!occurs_at(code, "/*"@, at + 1));
            }
            if tail.len() > 0 {
                assert(tail.last() == code.last());
            }
        }
        lemma_code_in_front(tail, rest);
        lemma_stripped_tail(line, 1, false);
        assert(line.skip(1) =~= tail + rest);
        let behind = stripped(tail + rest, 0, false);
        assert(stripped(line, 0, false) == (seq![line[0]] + behind.0, behind.1));
        assert(seq![line[0]] + (tail + stripped(rest, 0, false).0) =~= code + stripped(
            rest,
            0,
            false,
        ).0);
    }
}

/// A comment in front of a text is skipped up to its end.
proof fn lemma_comment_in_front(comment: Seq<char>, rest: Seq<char>)
    requires
        free_of(comment, "*/"@),
    ensures
        stripped(comment, 0, true) == (Seq::<char>::empty(), true),
        stripped(comment + "*/"@ + rest, 0, true) == stripped(rest, 0, false),
    decreases comment.len(),
{
    reveal_strlit("*/");
    let line = comment + "*/"@ + rest;
    if comment.len() == 0 {
        lemma_signs(line, 0);
        assert(line[0] == '*' && line[1] == '/');
        lemma_stripped_tail(line, 2, false);
        assert(line.skip(2) =~= rest);
    } else {
        let tail = comment.drop_first();
        lemma_signs(line, 0);
        lemma_signs(comment, 0);
        assert(!occurs_at(comment, "*/"@, 0));
        assert(line[0] == comment[0]);
        if comment.len() > 1 {
            assert(line[1] == comment[1]);
        } else {
            assert(line[1] == '*');
        }
        assert(free_of(tail, "*/"@)) by {
            assert forall|at: int| !#[trigger] occurs_at(tail, "*/"@, at) by {
                lemma_signs(tail, at);
                lemma_signs(comment, at + 1);
                assert(!occurs_at(comment, "*/"@, at + 1));
            }
        }
        lemma_comment_in_front(tail, rest);
        lemma_stripped_tail(line, 1, true);
        lemma_stripped_tail(comment, 1, true);
        assert(line.skip(1) =~= tail + "*/"@ + rest);
        assert(comment.skip(1) =~= tail);
    }
}

/// What is left of a line is its code: a line comment goes to the end of the
/// line, a block comment to the first sign that closes it, and one that the line
/// does not close is still open behind the line. Everything else stays.
pub proof fn law_comments_are_not_code(code: Seq<char>, comment: Seq<char>, rest: Seq<char>)
    requires
        plain_code(code),
        free_of(comment, "*/"@),
    ensures
        stripped(code, 0, false) == (code, false),
        stripped(code + "//"@ + rest, 0, false) == (code, false),
        stripped(code + "/*"@ + comment, 0, false) == (code, true),
        stripped(code + "/*"@ + comment + "*/"@ + rest, 0, false) == (
            code + stripped(rest, 0, false).0,
            stripped(rest, 0, false).1,
        ),
        stripped(comment, 0, true) == (Seq::<char>::empty(), true),
        stripped(comment + "*/"@ + rest, 0, true) == stripped(rest, 0, false),
{
    reveal_strlit("//");
    reveal_strlit("/*");
    let none = Seq::<char>::empty();
    lemma_code_in_front(code, none);
    assert(code + none =~= code);
    let line_comment = "//"@ + rest;
    lemma_code_in_front(code, line_comment);
    assert(code + "//"@ + rest =~= code + line_comment);
    lemma_signs(line_comment, 0);
    assert(line_comment[0] == '/' && line_comment[1] == '/');
    lemma_comment_in_front(comment, rest);
    let open = "/*"@ + comment;
    lemma_code_in_front(code, open);
    assert(code + "/*"@ + comment =~= code + open);
    lemma_signs(open, 0);
    assert(open[0] == '/' && open[1] == '*');
    lemma_stripped_tail(open, 2, true);
    assert(open.skip(2) =~= comment);
    let block = "/*"@ + (comment + "*/"@ + rest);
    lemma_code_in_front(code, block);
    assert(code + "/*"@ + comment + "*/"@ + rest =~= code + block);
    lemma_signs(block, 0);
    assert(block[0] == '/' && block[1] == '*');
    lemma_stripped_tail(block, 2, true);
    assert(block.skip(2) =~= comment + "*/"@ + rest);
}

/// A directive stands in the line: the sign, then what it exempts, up to white
/// space or the end of the line.
pub open spec fn directed(line: Seq<char>, sub: Seq<char>, at: int) -> bool {
    let start = at + "ledger-lint:allow:"@.len();
    let end = start + sub.len();
    &&& occurs_at(line, "ledger-lint:allow:"@, at)
    &&& sub.len() > 0 && occurs_at(line, sub, start)
    &&& forall|i: int| 0 <= i < sub.len() ==> !white_space(#[trigger] sub[i])
    &&& end == line.len() || white_space(line[end])
}

proof fn lemma_word_end(s: Seq<char>, from: int)
    requires
        0 <= from <= s.len(),
    ensures
        from <= word_end(s, from) <= s.len(),
        word_end(s, from) < s.len() ==> white_space(s[word_end(s, from)]),
        forall|i: int| from <= i < word_end(s, from) ==> !white_space(#[trigger] s[i]),
    decreases s.len() - from,
{
    if from < s.len() && !white_space(s[from]) {
        lemma_word_end(s, from + 1);
    }
}

proof fn lemma_directed(line: Seq<char>, from: int, sub: Seq<char>)
    requires
        0 <= from <= line.len(),
    ensures
        directives(line, from).contains(sub) <==> exists|at: int|
            from <= at && #[trigger] directed(line, sub, at),
    decreases line.len() - from,
{
    reveal_strlit("ledger-lint:allow:");
    let all = directives(line, from);
    if from < line.len() {
        lemma_directed(line, from + 1, sub);
        let rest = directives(line, from + 1);
        let start = from + ALLOW_PREFIX@.len();
        if occurs_at(line, ALLOW_PREFIX@, from) {
            lemma_word_end(line, start);
        }
        let end = word_end(line, start);
        let here = occurs_at(line, ALLOW_PREFIX@, from) && end > start;
        if here {
            let word = line.subrange(start, end);
            assert(all == seq![word] + rest);
            assert(all[0] == word);
            if sub == word {
                assert(occurs_at(line, sub, start));
                assert forall|i: int| 0 <= i < sub.len() implies !white_space(#[trigger] sub[i]) by {
                    assert(sub[i] == line[start + i]);
                }
                assert(directed(line, sub, from));
            }
            if all.contains(sub) && sub != word {
                let k = choose|k: int| 0 <= k < all.len() && all[k] == sub;
                assert(rest[k - 1] == sub);
            }
            if rest.contains(sub) {
                let k = choose|k: int| 0 <= k < rest.len() && rest[k] == sub;
                assert(all[k + 1] == sub);
            }
        }
        if directed(line, sub, from) {
            let stop = start + sub.len();
            assert(line.subrange(start, stop) == sub);
            assert(sub[0] == line[start]);
            assert(end == stop) by {
                if end < stop {
                    assert(sub[end - start] == line[end]);
                }
            }
            assert(here && sub =~= line.subrange(start, end));
        }
        if exists|at: int| from <= at && #[trigger] directed(line, sub, at) {
            let at = choose|at: int| from <= at && #[trigger] directed(line, sub, at);
            if at > from {
                assert(from + 1 <= at);
            }
        }
        if exists|at: int| from + 1 <= at && #[trigger] directed(line, sub, at) {
            let at = choose|at: int| from + 1 <= at && #[trigger] directed(line, sub, at);
            assert(from <= at);
        }
    }
}

/// A line exempts exactly what stands behind one of its directive signs, up to
/// the next white space.
pub proof fn law_directives_exempt_their_words(line: Seq<char>, sub: Seq<char>)
    ensures
        directives(line, 0).contains(sub) <==> exists|at: int|
            0 <= at && #[trigger] directed(line, sub, at),
{
    lemma_directed(line, 0, sub);
}

/// A line is a pure import exactly when it starts with `use` or `pub use` and no
/// code stands behind a semicolon of it.
pub proof fn law_pure_imports(path: Seq<char>, code: Seq<char>)
    requires
        forall|i: int| 0 <= i < path.len() ==> #[trigger] path[i] != ';',
    ensures
        import_line("use "@ + path),
        import_line("pub use "@ + path),
        import_line("use "@ + path + ";"@),
        import_line("pub use "@ + path + ";"@),
        (exists|i: int| 0 <= i < code.len() && !white_space(#[trigger] code[i])) ==> !import_line(
            "use "@ + path + ";"@ + code,
        ) && !import_line("pub use "@ + path + ";"@ + code),
{
    reveal_strlit("use ");
    reveal_strlit("pub use ");
    reveal_strlit(";");
    assert(("use "@ + path).subrange(0, 4) =~= "use "@);
    assert(("pub use "@ + path).subrange(0, 8) =~= "pub use "@);
    assert(("use "@ + path + ";"@).subrange(0, 4) =~= "use "@);
    assert(("pub use "@ + path + ";"@).subrange(0, 8) =~= "pub use "@);
    lemma_closed("use "@, path);
    lemma_closed("pub use "@, path);
    if exists|i: int| 0 <= i < code.len() && !white_space(#[trigger] code[i]) {
        let i = choose|i: int| 0 <= i < code.len() && !white_space(#[trigger] code[i]);
        lemma_code_behind("use "@, path, code, i);
        lemma_code_behind("pub use "@, path, code, i);
    }
}

proof fn lemma_closed(word: Seq<char>, path: Seq<char>)
    requires
        forall|i: int| 0 <= i < word.len() ==> #[trigger] word[i] != ';',
        forall|i: int| 0 <= i < path.len() ==> #[trigger] path[i] != ';',
    ensures
        ends_at_semicolon(word + path),
        ends_at_semicolon(word + path + ";"@),
{
    reveal_strlit(";");
    let open = word + path;
    let closed = word + path + ";"@;
    assert forall|i: int| 0 <= i < open.len() implies #[trigger] open[i] != ';' by {
        if i < word.len() {
            assert(open[i] == word[i]);
        } else {
            assert(open[i] == path[i - word.len()]);
        }
    }
    assert forall|i: int| 0 <= i < closed.len() - 1 implies #[trigger] closed[i] != ';' by {
        assert(closed[i] == open[i]);
    }
}

proof fn lemma_code_behind(word: Seq<char>, path: Seq<char>, code: Seq<char>, i: int)
    requires
        0 <= i < code.len(),
        !white_space(code[i]),
    ensures
        !ends_at_semicolon(word + path + ";"@ + code),
{
    reveal_strlit(";");
    let line = word + path + ";"@ + code;
    let at = (word.len() + path.len()) as int;
    assert(line[at] == ';');
    assert(line[at + 1 + i] == code[i]);
}

/// A line that starts with neither word is no import.
pub proof fn law_other_lines_are_no_imports(line: Seq<char>)
    requires
        forall|path: Seq<char>| line != #[trigger] ("use "@ + path),
        forall|path: Seq<char>| line != #[trigger] ("pub use "@ + path),
    ensures
        !import_line(line),
{
    reveal_strlit("use ");
    reveal_strlit("pub use ");
    if occurs_at(line, "use "@, 0) {
        assert(line =~= "use "@ + line.skip(4));
    }
    if occurs_at(line, "pub use "@, 0) {
        assert(line =~= "pub use "@ + line.skip(8));
    }
}

/// A prefix starts a path segment exactly where no letter, digit, underscore or
/// colon stands in front of it.
pub proof fn law_segments_start_behind_other_signs(
    front: Seq<char>,
    c: char,
    prefix: Seq<char>,
    back: Seq<char>,
)
    ensures
        segment_at(prefix + back, prefix, 0),
        ({
            let n = c as u32;
            segment_at(front.push(c) + prefix + back, prefix, front.len() + 1int) <==> !((0x30 <= n
                <= 0x3a) || (0x41 <= n <= 0x5a) || (0x61 <= n <= 0x7a) || n == 0x5f)
        }),
{
    assert((prefix + back).subrange(0, prefix.len() as int) =~= prefix);
    let code = front.push(c) + prefix + back;
    let at = front.len() + 1int;
    assert(code.subrange(at, at + prefix.len()) =~= prefix);
    assert(code[at - 1] == c);
}

/// One more file counts unless it is exempt as a whole, and adds its findings to
/// the total under its path.
pub proof fn law_report_gains_the_findings(
    report: ScanReport,
    path: Seq<char>,
    content: Seq<char>,
)
    ensures
        ({
            let after = with_file(report, path, content);
            let found = scanned(content);
            if fully_allowed(lines_of(content)) {
                after == report && found.len() == 0
            } else {
                &&& after.files_scanned == report.files_scanned + 1
                &&& after.errors == report.errors
                &&& total(after.violating_files) == total(report.violating_files) + found.len()
                &&& found.len() == 0 ==> after.violating_files == report.violating_files
                &&& found.len() > 0 ==> after.violating_files.len()
                    == report.violating_files.len() + 1 && after.violating_files.last() == (
                    path,
                    found,
                ) && after.violating_files.drop_last() == report.violating_files
            }
        }),
{
    let files = report.violating_files.push((path, scanned(content)));
    assert(files.drop_last() =~= report.violating_files);
}

/// The walk leaves out build outputs, tests and hidden directories, and no other
/// directory and no file.
pub proof fn law_walk_leaves_out(name: Seq<char>)
    ensures
        descends(false, name),
        !descends(true, "target"@),
        !descends(true, "tests"@),
        !descends(true, seq!['.'] + name),
        name != "target"@ && name != "tests"@ && (name.len() == 0 || name[0] != '.') ==> descends(
            true,
            name,
        ),
{
}

/// A name ends in a suffix exactly when it is something and then the suffix.
pub proof fn law_names_end_in_their_suffix(name: Seq<char>, suffix: Seq<char>)
    ensures
        name_ends(name, suffix) <==> exists|front: Seq<char>| name == #[trigger] (front + suffix),
{
    let at = name.len() - suffix.len();
    if name_ends(name, suffix) {
        assert(name =~= name.take(at) + suffix);
    }
    if exists|front: Seq<char>| name == #[trigger] (front + suffix) {
        let front = choose|front: Seq<char>| name == #[trigger] (front + suffix);
        assert(name.subrange(at, at + suffix.len()) =~= suffix);
    }
}

} // verus!
