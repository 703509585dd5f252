//! Static scanner detecting forbidden ambient APIs in deterministic codebase paths.

use crate::text::{
    chars_of, contains_text, has_text, is_white_space, line_views, lines_of, occurs_at,
    same_text, split_lines, stands_at, text_of, trim, trimmed, white_space,
};
use vstd::prelude::*;

verus! {

/// Marker that exempts a scanned file from all forbidden patterns.
///
/// A line with the marker and a reason behind a blank exempts the whole file.
/// A marker directly followed by a colon and `<SUB>` exempts only patterns that
/// contain `<SUB>`. Both directives are file-scoped.
pub const ALLOW_MARKER: &'static str = "ledger-lint:allow";

/// Prefix for per-pattern allow directives. The substring after the colon is
/// exempted and ends at the first whitespace character.
pub const ALLOW_PREFIX: &'static str = "ledger-lint:allow:";

/// One occurrence of a forbidden pattern.
#[derive(Debug, Clone, PartialEq, Eq)]
pub struct LintViolation {
    /// Pattern that matched.
    pub pattern: String,
    /// Line of the match, counted from one.
    pub line_number: usize,
    /// The line without comments and surrounding white space.
    pub line_content: String,
    /// What to use instead.
    pub advice: String,
}

/// The mathematical content of a [`LintViolation`].
#[verifier::ext_equal]
pub struct Finding {
    pub pattern: Seq<char>,
    pub line_number: nat,
    pub line_content: Seq<char>,
    pub advice: Seq<char>,
}

impl View for LintViolation {
    type V = Finding;

    open spec fn view(&self) -> Finding {
        Finding {
            pattern: self.pattern@,
            line_number: self.line_number as nat,
            line_content: self.line_content@,
            advice: self.advice@,
        }
    }
}

/// The findings of a list of violations.
pub open spec fn finding_views(violations: Seq<LintViolation>) -> Seq<Finding> {
    violations.map_values(|v: LintViolation| v@)
}

/// A table of patterns with their advice.
pub open spec fn table_views(table: Seq<(&'static str, &'static str)>) -> Seq<
    (Seq<char>, Seq<char>),
> {
    table.map_values(|row: (&'static str, &'static str)| (row.0@, row.1@))
}

/// Forbidden ambient API patterns that break determinism when used inside
/// simulations, with advice.
pub open spec fn forbidden_table() -> Seq<(Seq<char>, Seq<char>)> {
    seq![
        (
            "Instant::now()"@,
            "std::time::Instant reads wall-clock time; use Effects::now_ticks()"@,
        ),
        (
            "SystemTime::now()"@,
            "std::time::SystemTime reads wall-clock time; use Effects::now_ticks()"@,
        ),
        (
            "rand::thread_rng()"@,
            "rand::thread_rng() uses OS entropy; use SeedTree / Effects::rng()"@,
        ),
        (
            "thread::spawn"@,
            "std::thread::spawn introduces uncontrolled concurrency; use Simulation::with_tasks / Boundary::spawn_task"@,
        ),
        (
            "std::fs::"@,
            "Ambient std::fs bypasses SimFs; use SimFs"@,
        ),
        (
            "std::net::"@,
            "Ambient std::net bypasses SimNet; use SimNet"@,
        ),
        (
            "env::var"@,
            "std::env::var reads ambient environment; pass inputs via Effects / SeedTree"@,
        ),
        (
            "wasm_time::"@,
            "wasm_time reads ambient time; use VirtualTime / Effects"@,
        ),
        (
            "web_time::"@,
            "web_time reads ambient time; use VirtualTime / Effects"@,
        ),
        (
            "instant::"@,
            "instant crate reads ambient time; use VirtualTime / Effects"@,
        ),
        (
            "getrandom::getrandom"@,
            "getrandom reads OS entropy; use SeedTree / Effects::rng"@,
        ),
        (
            "getrandom::fill"@,
            "getrandom::fill reads OS entropy; use SeedTree / Effects::rng"@,
        ),
        (
            "libc::clock_gettime"@,
            "libc clock reads ambient time; use VirtualTime / Effects"@,
        ),
        (
            "libc::gettimeofday"@,
            "libc gettimeofday reads ambient time; use VirtualTime / Effects"@,
        ),
        (
            "libc::getrandom"@,
            "libc getrandom reads OS entropy; use SeedTree"@,
        ),
        (
            "libc::getentropy"@,
            "libc getentropy reads OS entropy; use SeedTree"@,
        ),
        (
            "libc::time"@,
            "libc time() reads ambient time; use VirtualTime"@,
        ),
        (
            "getauxval"@,
            "getauxval locates the vDSO page for ambient clock reads; use VirtualTime / Effects"@,
        ),
        (
            "fn time()"@,
            "FFI time() reads ambient wall clock; use VirtualTime / Effects"@,
        ),
        (
            "fn gettimeofday("@,
            "FFI gettimeofday reads ambient wall clock; use VirtualTime / Effects"@,
        ),
        (
            "fn clock_gettime("@,
            "FFI clock_gettime reads ambient wall clock; use VirtualTime / Effects"@,
        ),
        (
            "rdrand"@,
            "RDRAND reads hardware entropy; use SeedTree"@,
        ),
        (
            "rdseed"@,
            "RDSEED reads hardware entropy; use SeedTree"@,
        ),
        (
            "syscall("@,
            "raw syscall bypasses the sim boundary"@,
        ),
        (
            "std::env::args"@,
            "ambient process args; pass inputs via Effects"@,
        ),
    ]
}

/// Forbidden bare-module prefixes used after an import of their module, with
/// advice.
///
/// Import lines are skipped, so a bare call evades the qualified patterns.
/// These prefixes match only at a path-segment start: the character before the
/// prefix must not continue an identifier or a path, and no forbidden pattern
/// may stand there. Fully qualified spellings, unrelated modules and calls that
/// have a pattern of their own stay unmatched, so each ambient access reports
/// one violation.
pub open spec fn bare_table() -> Seq<(Seq<char>, Seq<char>)> {
    seq![
        (
            "fs::"@,
            "Ambient std::fs bypasses SimFs; use SimFs"@,
        ),
        (
            "net::"@,
            "Ambient std::net bypasses SimNet; use SimNet"@,
        ),
        (
            "getrandom::"@,
            "getrandom crate reads OS entropy; use SeedTree / Effects::rng"@,
        ),
        (
            "env::args"@,
            "ambient process args; pass inputs via Effects"@,
        ),
    ]
}

/// The table of forbidden patterns.
pub fn forbidden_patterns() -> (table: Vec<(&'static str, &'static str)>)
    ensures
        table_views(table@) == forbidden_table(),
{
    let table: Vec<(&'static str, &'static str)> = vec![
        (
            "Instant::now()",
            "std::time::Instant reads wall-clock time; use Effects::now_ticks()",
        ),
        (
            "SystemTime::now()",
            "std::time::SystemTime reads wall-clock time; use Effects::now_ticks()",
        ),
        (
            "rand::thread_rng()",
            "rand::thread_rng() uses OS entropy; use SeedTree / Effects::rng()",
        ),
        (
            "thread::spawn",
            "std::thread::spawn introduces uncontrolled concurrency; use Simulation::with_tasks / Boundary::spawn_task",
        ),
        (
            "std::fs::",
            "Ambient std::fs bypasses SimFs; use SimFs",
        ),
        (
            "std::net::",
            "Ambient std::net bypasses SimNet; use SimNet",
        ),
        (
            "env::var",
            "std::env::var reads ambient environment; pass inputs via Effects / SeedTree",
        ),
        (
            "wasm_time::",
            "wasm_time reads ambient time; use VirtualTime / Effects",
        ),
        (
            "web_time::",
            "web_time reads ambient time; use VirtualTime / Effects",
        ),
        (
            "instant::",
            "instant crate reads ambient time; use VirtualTime / Effects",
        ),
        (
            "getrandom::getrandom",
            "getrandom reads OS entropy; use SeedTree / Effects::rng",
        ),
        (
            "getrandom::fill",
            "getrandom::fill reads OS entropy; use SeedTree / Effects::rng",
        ),
        (
            "libc::clock_gettime",
            "libc clock reads ambient time; use VirtualTime / Effects",
        ),
        (
            "libc::gettimeofday",
            "libc gettimeofday reads ambient time; use VirtualTime / Effects",
        ),
        (
            "libc::getrandom",
            "libc getrandom reads OS entropy; use SeedTree",
        ),
        (
            "libc::getentropy",
            "libc getentropy reads OS entropy; use SeedTree",
        ),
        (
            "libc::time",
            "libc time() reads ambient time; use VirtualTime",
        ),
        (
            "getauxval",
            "getauxval locates the vDSO page for ambient clock reads; use VirtualTime / Effects",
        ),
        (
            "fn time()",
            "FFI time() reads ambient wall clock; use VirtualTime / Effects",
        ),
        (
            "fn gettimeofday(",
            "FFI gettimeofday reads ambient wall clock; use VirtualTime / Effects",
        ),
        (
            "fn clock_gettime(",
            "FFI clock_gettime reads ambient wall clock; use VirtualTime / Effects",
        ),
        (
            "rdrand",
            "RDRAND reads hardware entropy; use SeedTree",
        ),
        (
            "rdseed",
            "RDSEED reads hardware entropy; use SeedTree",
        ),
        (
            "syscall(",
            "raw syscall bypasses the sim boundary",
        ),
        (
            "std::env::args",
            "ambient process args; pass inputs via Effects",
        ),
    ];
    assert(table_views(table@) =~= forbidden_table());
    table
}

/// The table of forbidden bare prefixes.
pub fn bare_prefix_patterns() -> (table: Vec<(&'static str, &'static str)>)
    ensures
        table_views(table@) == bare_table(),
{
    let table: Vec<(&'static str, &'static str)> = vec![
        (
            "fs::",
            "Ambient std::fs bypasses SimFs; use SimFs",
        ),
        (
            "net::",
            "Ambient std::net bypasses SimNet; use SimNet",
        ),
        (
            "getrandom::",
            "getrandom crate reads OS entropy; use SeedTree / Effects::rng",
        ),
        (
            "env::args",
            "ambient process args; pass inputs via Effects",
        ),
    ];
    assert(table_views(table@) =~= bare_table());
    table
}

/// The line holds a marker that is not directly followed by a colon.
pub open spec fn marked(line: Seq<char>) -> bool {
    exists|at: int| #[trigger] marker_at(line, at)
}

/// A full-file marker stands at the given position of the line.
pub open spec fn marker_at(line: Seq<char>, at: int) -> bool {
    let end = at + ALLOW_MARKER@.len();
    occurs_at(line, ALLOW_MARKER@, at) && !(end < line.len() && line[end] == ':')
}

/// Some line exempts the whole file.
pub open spec fn fully_allowed(lines: Seq<Seq<char>>) -> bool {
    exists|i: int| 0 <= i < lines.len() && marked(#[trigger] lines[i])
}

/// Position of the first white space at or after `from`, else the end.
pub open spec fn word_end(s: Seq<char>, from: int) -> int
    decreases s.len() - from,
{
    if from < 0 || from >= s.len() {
        s.len() as int
    } else if white_space(s[from]) {
        from
    } else {
        word_end(s, from + 1)
    }
}

/// Substrings that the directives of a line exempt, from a position on.
pub open spec fn directives(line: Seq<char>, from: int) -> Seq<Seq<char>>
    decreases line.len() - from,
{
    if from < 0 || from >= line.len() {
        Seq::empty()
    } else {
        let rest = directives(line, from + 1);
        let start = from + ALLOW_PREFIX@.len();
        if occurs_at(line, ALLOW_PREFIX@, from) && word_end(line, start) > start {
            seq![line.subrange(start, word_end(line, start))] + rest
        } else {
            rest
        }
    }
}

/// Substrings that the directives of a file exempt.
pub open spec fn all_directives(lines: Seq<Seq<char>>) -> Seq<Seq<char>>
    decreases lines.len(),
{
    if lines.len() == 0 {
        Seq::empty()
    } else {
        all_directives(lines.drop_last()) + directives(lines.last(), 0)
    }
}

/// Some exempted substring stands in the pattern.
pub open spec fn exempt(pattern: Seq<char>, subs: Seq<Seq<char>>) -> bool {
    exists|k: int| 0 <= k < subs.len() && contains_text(pattern, #[trigger] subs[k])
}

/// The code of a line from `pos` on without comments, and whether a block
/// comment is still open behind it.
pub open spec fn stripped(line: Seq<char>, pos: int, in_block: bool) -> (Seq<char>, bool)
    decreases line.len() - pos,
{
    proof {
        reveal_strlit("*/");
        reveal_strlit("/*");
    }
    if pos < 0 || pos >= line.len() {
        (Seq::empty(), in_block)
    } else if in_block {
        if occurs_at(line, "*/"@, pos) {
            stripped(line, pos + 2, false)
        } else {
            stripped(line, pos + 1, true)
        }
    } else if occurs_at(line, "//"@, pos) {
        (Seq::empty(), false)
    } else if occurs_at(line, "/*"@, pos) {
        stripped(line, pos + 2, true)
    } else {
        let rest = stripped(line, pos + 1, false);
        (seq![line[pos]] + rest.0, rest.1)
    }
}

/// A character that continues an identifier or a path.
pub open spec fn continues_path(c: char) -> bool {
    ||| 'a' <= c <= 'z'
    ||| 'A' <= c <= 'Z'
    ||| '0' <= c <= '9'
    ||| c == '_'
    ||| c == ':'
}

/// The prefix stands at the given position, at the start of a path segment.
pub open spec fn segment_at(code: Seq<char>, prefix: Seq<char>, at: int) -> bool {
    occurs_at(code, prefix, at) && (at == 0 || !continues_path(code[at - 1]))
}

/// Some forbidden pattern stands at the given position.
pub open spec fn forbidden_at(code: Seq<char>, at: int) -> bool {
    exists|k: int|
        0 <= k < forbidden_table().len() && occurs_at(code, (#[trigger] forbidden_table()[k]).0, at)
}

/// The prefix stands at the given position, at the start of a path segment, and
/// no forbidden pattern stands there.
pub open spec fn bare_at(code: Seq<char>, prefix: Seq<char>, at: int) -> bool {
    segment_at(code, prefix, at) && !forbidden_at(code, at)
}

/// The prefix stands at the start of a path segment somewhere in the code, where
/// no forbidden pattern stands.
pub open spec fn bare_hit(code: Seq<char>, prefix: Seq<char>) -> bool {
    exists|at: int| #[trigger] bare_at(code, prefix, at)
}

/// Nothing but white space follows a semicolon of the line.
pub open spec fn ends_at_semicolon(line: Seq<char>) -> bool {
    forall|i: int, j: int|
        0 <= i < j < line.len() && #[trigger] line[i] == ';' ==> white_space(#[trigger] line[j])
}

/// A pure import line: it starts an import, and nothing stands behind the
/// semicolon that closes it. An import that goes on in the next line is pure.
/// Import lines declare names; they do not access the ambient environment.
pub open spec fn import_line(line: Seq<char>) -> bool {
    (occurs_at(line, "use "@, 0) || occurs_at(line, "pub use "@, 0)) && ends_at_semicolon(line)
}

/// Findings of one table in one line of code.
pub open spec fn hits(
    table: Seq<(Seq<char>, Seq<char>)>,
    bare: bool,
    number: nat,
    code: Seq<char>,
    subs: Seq<Seq<char>>,
) -> Seq<Finding>
    decreases table.len(),
{
    if table.len() == 0 {
        Seq::empty()
    } else {
        let front = hits(table.drop_last(), bare, number, code, subs);
        let (pattern, advice) = table.last();
        let found = if bare {
            bare_hit(code, pattern)
        } else {
            contains_text(code, pattern)
        };
        if found && !exempt(pattern, subs) {
            front.push(
                Finding { pattern, line_number: number, line_content: trimmed(code), advice },
            )
        } else {
            front
        }
    }
}

/// Findings in one line of code: none in blank lines and imports.
pub open spec fn line_hits(number: nat, code: Seq<char>, subs: Seq<Seq<char>>) -> Seq<Finding> {
    if trimmed(code).len() == 0 || import_line(trimmed(code)) {
        Seq::empty()
    } else {
        hits(forbidden_table(), false, number, code, subs) + hits(
            bare_table(),
            true,
            number,
            code,
            subs,
        )
    }
}

/// Whether a block comment is still open behind the lines.
pub open spec fn block_open(lines: Seq<Seq<char>>) -> bool
    decreases lines.len(),
{
    if lines.len() == 0 {
        false
    } else {
        stripped(lines.last(), 0, block_open(lines.drop_last())).1
    }
}

/// The code of the last line without comments.
pub open spec fn last_code(lines: Seq<Seq<char>>) -> Seq<char> {
    stripped(lines.last(), 0, block_open(lines.drop_last())).0
}

/// Findings in lines, in order.
pub open spec fn scan_lines(lines: Seq<Seq<char>>, subs: Seq<Seq<char>>) -> Seq<Finding>
    decreases lines.len(),
{
    if lines.len() == 0 {
        Seq::empty()
    } else {
        scan_lines(lines.drop_last(), subs) + line_hits(lines.len(), last_code(lines), subs)
    }
}

/// Findings in a source text.
pub open spec fn scanned(source: Seq<char>) -> Seq<Finding> {
    let lines = lines_of(source);
    if fully_allowed(lines) {
        Seq::empty()
    } else {
        scan_lines(lines, all_directives(lines))
    }
}

/// Whether the line holds a full-file marker.
fn line_is_marked(line: &Vec<char>) -> (yes: bool)
    ensures
        yes == marked(line@),
{
    let marker: Vec<char> = chars_of(ALLOW_MARKER);
    let mut at: usize = 0;
    while at < line.len()
        invariant
            at <= line@.len(),
            marker@ == ALLOW_MARKER@,
            forall|i: int| 0 <= i < at ==> !#[trigger] marker_at(line@, i),
        decreases line@.len() - at,
    {
        if stands_at(line, &marker, at) {
            let end: usize = at + marker.len();
            if end == line.len() || line[end] != ':' {
                assert(marker_at(line@, at as int));
                return true;
            }
        }
        at = at + 1;
    }
    proof {
        reveal_strlit("ledger-lint:allow");
    }
    false
}

/// Return true when the lines carry a full-file allow marker.
///
/// The marker immediately followed by a colon starts a per-pattern
/// directive and must not exempt the whole file.
fn any_line_is_marked(lines: &Vec<Vec<char>>) -> (yes: bool)
    ensures
        yes == fully_allowed(line_views(lines@)),
{
    let mut i: usize = 0;
    while i < lines.len()
        invariant
            i <= lines@.len(),
            forall|j: int| 0 <= j < i ==> !marked(#[trigger] lines@[j]@),
        decreases lines@.len() - i,
    {
        if line_is_marked(&lines[i]) {
            assert(line_views(lines@)[i as int] == lines@[i as int]@);
            return true;
        }
        i = i + 1;
    }
    proof {
        assert forall|j: int| 0 <= j < line_views(lines@).len() implies !marked(
            #[trigger] line_views(lines@)[j],
        ) by {
            assert(!marked(lines@[j]@));
        }
    }
    false
}

/// Return true when `source` carries a full-file allow marker.
pub fn has_full_allow_marker(source: &str) -> (yes: bool)
    ensures
        yes == fully_allowed(lines_of(source@)),
{
    let chars: Vec<char> = chars_of(source);
    let lines: Vec<Vec<char>> = split_lines(&chars);
    any_line_is_marked(&lines)
}

/// The part of a character sequence as a sequence of its own.
fn part_of(chars: &Vec<char>, from: usize, to: usize) -> (out: Vec<char>)
    requires
        from <= to <= chars@.len(),
    ensures
        out@ == chars@.subrange(from as int, to as int),
{
    let mut out: Vec<char> = Vec::new();
    let mut i: usize = from;
    while i < to
        invariant
            from <= i <= to <= chars@.len(),
            out@ == chars@.subrange(from as int, i as int),
        decreases to - i,
    {
        out.push(chars[i]);
        i = i + 1;
        assert(out@ =~= chars@.subrange(from as int, i as int));
    }
    out
}

/// Append the substrings that the directives of one line exempt.
fn line_exemptions(line: &Vec<char>, subs: &mut Vec<Vec<char>>)
    ensures
        line_views(final(subs)@) == line_views(old(subs)@) + directives(line@, 0),
{
    let prefix: Vec<char> = chars_of(ALLOW_PREFIX);
    let mut at: usize = 0;
    let ghost before = line_views(subs@);
    while at < line.len()
        invariant
            at <= line@.len(),
            prefix@ == ALLOW_PREFIX@,
            before == line_views(old(subs)@),
            line_views(subs@) + directives(line@, at as int) == before + directives(line@, 0),
        decreases line@.len() - at,
    {
        let ghost prior = line_views(subs@);
        let ghost rest = directives(line@, at + 1);
        if stands_at(line, &prefix, at) {
            let start: usize = at + prefix.len();
            let mut end: usize = start;
            while end < line.len() && !is_white_space(line[end])
                invariant
                    start <= end <= line@.len(),
                    word_end(line@, start as int) == word_end(line@, end as int),
                decreases line@.len() - end,
            {
                end = end + 1;
            }
            assert(word_end(line@, start as int) == end);
            if end > start {
                let word: Vec<char> = part_of(line, start, end);
                let ghost view = word@;
                subs.push(word);
                proof {
                    assert(line_views(subs@) =~= prior.push(view));
                    assert(prior + (seq![view] + rest) =~= prior.push(view) + rest);
                }
            }
        }
        at = at + 1;
    }
    proof {
        assert(directives(line@, at as int) =~= Seq::<Seq<char>>::empty());
        assert(line_views(subs@) + Seq::<Seq<char>>::empty() =~= line_views(subs@));
    }
}

/// Substrings that the directives of the lines exempt.
fn lines_exemptions(lines: &Vec<Vec<char>>) -> (subs: Vec<Vec<char>>)
    ensures
        line_views(subs@) == all_directives(line_views(lines@)),
{
    let ghost views = line_views(lines@);
    let mut subs: Vec<Vec<char>> = Vec::new();
    let mut i: usize = 0;
    assert(views.take(0) =~= Seq::<Seq<char>>::empty());
    assert(line_views(subs@) =~= Seq::<Seq<char>>::empty());
    while i < lines.len()
        invariant
            i <= lines@.len(),
            views == line_views(lines@),
            line_views(subs@) == all_directives(views.take(i as int)),
        decreases lines@.len() - i,
    {
        assert(views.take(i + 1).drop_last() =~= views.take(i as int));
        assert(views.take(i + 1).last() == lines@[i as int]@);
        line_exemptions(&lines[i], &mut subs);
        i = i + 1;
    }
    assert(views.take(i as int) =~= views);
    subs
}

/// Substrings that the per-pattern directives of `source` exempt.
pub fn collect_pattern_exemptions(source: &str) -> (subs: Vec<String>)
    ensures
        subs@.map_values(|s: String| s@) == all_directives(lines_of(source@)),
{
    let chars: Vec<char> = chars_of(source);
    let lines: Vec<Vec<char>> = split_lines(&chars);
    let found: Vec<Vec<char>> = lines_exemptions(&lines);
    let ghost views = line_views(found@);
    let mut subs: Vec<String> = Vec::new();
    let mut i: usize = 0;
    assert(subs@.map_values(|s: String| s@) =~= views.take(0));
    while i < found.len()
        invariant
            i <= found@.len(),
            views == line_views(found@),
            subs@.map_values(|s: String| s@) == views.take(i as int),
        decreases found@.len() - i,
    {
        let ghost before = subs@.map_values(|s: String| s@);
        let sub: String = text_of(&found[i], 0, found[i].len());
        assert(sub@ =~= views[i as int]);
        subs.push(sub);
        assert(subs@.map_values(|s: String| s@) =~= before.push(views[i as int]));
        i = i + 1;
        assert(views.take(i as int) =~= views.take(i - 1).push(views[i - 1]));
    }
    assert(views.take(i as int) =~= views);
    subs
}

/// Remove line and block comments from one source line.
///
/// Block-comment state persists across lines. A `//` inside a string literal
/// is treated as a comment; the scanner accepts that simplification.
pub fn strip_comments(line: &Vec<char>, in_block_comment: &mut bool) -> (code: Vec<char>)
    ensures
        code@ == stripped(line@, 0, *old(in_block_comment)).0,
        *final(in_block_comment) == stripped(line@, 0, *old(in_block_comment)).1,
{
    let line_comment: Vec<char> = chars_of("//");
    let block_start: Vec<char> = chars_of("/*");
    let block_end: Vec<char> = chars_of("*/");
    proof {
        reveal_strlit("//");
        reveal_strlit("/*");
        reveal_strlit("*/");
    }
    let ghost all = stripped(line@, 0, *in_block_comment);
    let mut code: Vec<char> = Vec::new();
    let mut pos: usize = 0;
    let mut inside: bool = *in_block_comment;
    assert(code@ + all.0 =~= all.0);
    while pos < line.len()
        invariant
            pos <= line@.len(),
            line_comment@ == "//"@,
            block_start@ == "/*"@,
            block_end@ == "*/"@,
            "*/"@.len() == 2,
            "/*"@.len() == 2,
            all == stripped(line@, 0, *old(in_block_comment)),
            code@ + stripped(line@, pos as int, inside).0 == all.0,
            stripped(line@, pos as int, inside).1 == all.1,
        decreases line@.len() - pos,
    {
        if inside {
            if stands_at(line, &block_end, pos) {
                inside = false;
                pos = pos + 2;
            } else {
                pos = pos + 1;
            }
        } else if stands_at(line, &line_comment, pos) {
            proof {
                assert(code@ + Seq::<char>::empty() =~= code@);
            }
            *in_block_comment = false;
            return code;
        } else if stands_at(line, &block_start, pos) {
            inside = true;
            pos = pos + 2;
        } else {
            proof {
                let rest = stripped(line@, pos + 1, false).0;
                let c = line@[pos as int];
                assert(code@ + (seq![c] + rest) =~= code@.push(c) + rest);
            }
            code.push(line[pos]);
            pos = pos + 1;
        }
    }
    assert(code@ + Seq::<char>::empty() =~= code@);
    *in_block_comment = inside;
    code
}

/// Whether a character continues an identifier or a path.
fn is_path_char(c: char) -> (yes: bool)
    ensures
        yes == continues_path(c),
{
    ('a' <= c && c <= 'z') || ('A' <= c && c <= 'Z') || ('0' <= c && c <= '9') || c == '_' || c
        == ':'
}

/// Whether some forbidden pattern stands at the given position.
fn is_forbidden_at(code: &Vec<char>, at: usize) -> (yes: bool)
    ensures
        yes == forbidden_at(code@, at as int),
{
    let forbidden: Vec<(&'static str, &'static str)> = forbidden_patterns();
    let ghost rows = forbidden_table();
    let mut k: usize = 0;
    while k < forbidden.len()
        invariant
            k <= forbidden@.len(),
            rows == forbidden_table(),
            table_views(forbidden@) == rows,
            forall|j: int| 0 <= j < k ==> !occurs_at(code@, (#[trigger] rows[j]).0, at as int),
        decreases forbidden@.len() - k,
    {
        let pattern: Vec<char> = chars_of(forbidden[k].0);
        assert(table_views(forbidden@)[k as int].0 == pattern@);
        assert(rows[k as int].0 == pattern@);
        if stands_at(code, &pattern, at) {
            return true;
        }
        k = k + 1;
    }
    assert(rows.len() == forbidden@.len());
    false
}

/// Return true when `code` contains `prefix` at the start of a path segment,
/// where no forbidden pattern stands.
///
/// The character before the match must not continue an identifier and must not
/// be `:`. A prefix at the start of the line matches.
pub fn contains_bare_prefix(code: &Vec<char>, prefix: &Vec<char>) -> (yes: bool)
    requires
        prefix@.len() > 0,
    ensures
        yes == bare_hit(code@, prefix@),
{
    let mut at: usize = 0;
    while at < code.len()
        invariant
            at <= code@.len(),
            forall|i: int| 0 <= i < at ==> !#[trigger] bare_at(code@, prefix@, i),
        decreases code@.len() - at,
    {
        if stands_at(code, prefix, at) && (at == 0 || !is_path_char(code[at - 1])) {
            if !is_forbidden_at(code, at) {
                assert(bare_at(code@, prefix@, at as int));
                return true;
            }
        }
        at = at + 1;
    }
    false
}

/// Whether nothing but white space follows a semicolon of the line.
fn is_ended(line: &Vec<char>) -> (yes: bool)
    ensures
        yes == ends_at_semicolon(line@),
{
    let mut at: usize = 0;
    while at < line.len() && line[at] != ';'
        invariant
            at <= line@.len(),
            forall|i: int| 0 <= i < at ==> line@[i] != ';',
        decreases line@.len() - at,
    {
        at = at + 1;
    }
    let end: usize = at;
    while at < line.len()
        invariant
            end <= at <= line@.len(),
            end < line@.len() ==> line@[end as int] == ';',
            forall|i: int| 0 <= i < end ==> line@[i] != ';',
            forall|j: int| end < j < at ==> white_space(#[trigger] line@[j]),
        decreases line@.len() - at,
    {
        if at > end && !is_white_space(line[at]) {
            assert(line@[end as int] == ';' && !white_space(line@[at as int]));
            return false;
        }
        at = at + 1;
    }
    true
}

/// Return true when `trimmed` is a pure `use` or `pub use` import line.
pub fn is_import_line(line: &Vec<char>) -> (yes: bool)
    ensures
        yes == import_line(line@),
{
    let plain: Vec<char> = chars_of("use ");
    let public: Vec<char> = chars_of("pub use ");
    (stands_at(line, &plain, 0) || stands_at(line, &public, 0)) && is_ended(line)
}

/// Whether some exempted substring stands in the pattern.
fn is_exempt(pattern: &Vec<char>, subs: &Vec<Vec<char>>) -> (yes: bool)
    ensures
        yes == exempt(pattern@, line_views(subs@)),
{
    let ghost views = line_views(subs@);
    let mut k: usize = 0;
    while k < subs.len()
        invariant
            k <= subs@.len(),
            views == line_views(subs@),
            forall|j: int| 0 <= j < k ==> !contains_text(pattern@, #[trigger] views[j]),
        decreases subs@.len() - k,
    {
        assert(views[k as int] == subs@[k as int]@);
        if has_text(pattern, &subs[k]) {
            return true;
        }
        k = k + 1;
    }
    false
}

/// Append the findings of one table in one line of code.
fn scan_table(
    table: &Vec<(&'static str, &'static str)>,
    bare: bool,
    number: usize,
    code: &Vec<char>,
    content: &Vec<char>,
    subs: &Vec<Vec<char>>,
    violations: &mut Vec<LintViolation>,
)
    requires
        content@ == trimmed(code@),
        forall|i: int| 0 <= i < table@.len() ==> (#[trigger] table@[i]).0@.len() > 0,
    ensures
        finding_views(final(violations)@) == finding_views(old(violations)@) + hits(
            table_views(table@),
            bare,
            number as nat,
            code@,
            line_views(subs@),
        ),
{
    let ghost rows = table_views(table@);
    let ghost before = finding_views(violations@);
    let mut i: usize = 0;
    assert(rows.take(0) =~= Seq::<(Seq<char>, Seq<char>)>::empty());
    assert(before + Seq::<Finding>::empty() =~= before);
    while i < table.len()
        invariant
            i <= table@.len(),
            rows == table_views(table@),
            content@ == trimmed(code@),
            before == finding_views(old(violations)@),
            forall|k: int| 0 <= k < table@.len() ==> (#[trigger] table@[k]).0@.len() > 0,
            finding_views(violations@) == before + hits(
                rows.take(i as int),
                bare,
                number as nat,
                code@,
                line_views(subs@),
            ),
        decreases table@.len() - i,
    {
        let ghost prior = finding_views(violations@);
        let ghost done = hits(rows.take(i as int), bare, number as nat, code@, line_views(subs@));
        assert(rows.take(i + 1).drop_last() =~= rows.take(i as int));
        let (pattern, advice): (&'static str, &'static str) = table[i];
        assert(rows.take(i + 1).last() == (pattern@, advice@));
        assert(table@[i as int].0@.len() > 0);
        let needle: Vec<char> = chars_of(pattern);
        let found: bool = if bare {
            contains_bare_prefix(code, &needle)
        } else {
            has_text(code, &needle)
        };
        if found && !is_exempt(&needle, subs) {
            let violation = LintViolation {
                pattern: pattern.to_owned(),
                line_number: number,
                line_content: text_of(content, 0, content.len()),
                advice: advice.to_owned(),
            };
            let ghost view = violation@;
            assert(content@.subrange(0, content@.len() as int) =~= content@);
            violations.push(violation);
            proof {
                assert(finding_views(violations@) =~= prior.push(view));
                assert((before + done).push(view) =~= before + done.push(view));
            }
        }
        i = i + 1;
    }
    assert(rows.take(i as int) =~= rows);
}

/// The patterns of a table are not empty and do not end in a carriage return.
pub open spec fn plain_patterns(table: Seq<(Seq<char>, Seq<char>)>) -> bool {
    forall|k: int|
        0 <= k < table.len() ==> (#[trigger] table[k]).0.len() > 0 && table[k].0.last() != '\r'
}

/// The tables hold plain patterns and share none.
pub proof fn lemma_tables_are_plain()
    ensures
        plain_patterns(forbidden_table()),
        plain_patterns(bare_table()),
        forall|j: int, k: int|
            0 <= j < bare_table().len() && 0 <= k < forbidden_table().len() ==> (
            #[trigger] bare_table()[j]).0 != (#[trigger] forbidden_table()[k]).0,
{
    reveal_strlit("Instant::now()");
    reveal_strlit("SystemTime::now()");
    reveal_strlit("rand::thread_rng()");
    reveal_strlit("thread::spawn");
    reveal_strlit("std::fs::");
    reveal_strlit("std::net::");
    reveal_strlit("env::var");
    reveal_strlit("wasm_time::");
    reveal_strlit("web_time::");
    reveal_strlit("instant::");
    reveal_strlit("getrandom::getrandom");
    reveal_strlit("getrandom::fill");
    reveal_strlit("libc::clock_gettime");
    reveal_strlit("libc::gettimeofday");
    reveal_strlit("libc::getrandom");
    reveal_strlit("libc::getentropy");
    reveal_strlit("libc::time");
    reveal_strlit("getauxval");
    reveal_strlit("fn time()");
    reveal_strlit("fn gettimeofday(");
    reveal_strlit("fn clock_gettime(");
    reveal_strlit("rdrand");
    reveal_strlit("rdseed");
    reveal_strlit("syscall(");
    reveal_strlit("std::env::args");
    reveal_strlit("fs::");
    reveal_strlit("net::");
    reveal_strlit("getrandom::");
    reveal_strlit("env::args");
    assert forall|j: int, k: int|
        0 <= j < bare_table().len() && 0 <= k < forbidden_table().len() implies (
    #[trigger] bare_table()[j]).0 != (#[trigger] forbidden_table()[k]).0 by {
        let (a, b) = (bare_table()[j].0, forbidden_table()[k].0);
        assert(a.len() != b.len() || a[0] != b[0]);
    }
}

proof fn lemma_patterns_nonempty(
    forbidden: Seq<(&'static str, &'static str)>,
    bare: Seq<(&'static str, &'static str)>,
)
    requires
        table_views(forbidden) == forbidden_table(),
        table_views(bare) == bare_table(),
    ensures
        forall|k: int| 0 <= k < forbidden.len() ==> (#[trigger] forbidden[k]).0@.len() > 0,
        forall|k: int| 0 <= k < bare.len() ==> (#[trigger] bare[k]).0@.len() > 0,
{
    lemma_tables_are_plain();
    assert forall|k: int| 0 <= k < forbidden.len() implies (#[trigger] forbidden[k]).0@.len() > 0 by {
        assert(table_views(forbidden)[k] == forbidden_table()[k]);
    }
    assert forall|k: int| 0 <= k < bare.len() implies (#[trigger] bare[k]).0@.len() > 0 by {
        assert(table_views(bare)[k] == bare_table()[k]);
    }
}

/// Scan Rust source code for forbidden ambient API occurrences.
pub fn scan_source(source: &str) -> (violations: Vec<LintViolation>)
    ensures
        finding_views(violations@) == scanned(source@),
{
    let mut violations: Vec<LintViolation> = Vec::new();
    assert(finding_views(violations@) =~= Seq::<Finding>::empty());
    let chars: Vec<char> = chars_of(source);
    let lines: Vec<Vec<char>> = split_lines(&chars);
    if any_line_is_marked(&lines) {
        return violations;
    }
    let subs: Vec<Vec<char>> = lines_exemptions(&lines);
    let forbidden: Vec<(&'static str, &'static str)> = forbidden_patterns();
    let bare: Vec<(&'static str, &'static str)> = bare_prefix_patterns();
    proof {
        lemma_patterns_nonempty(forbidden@, bare@);
    }
    let ghost views = line_views(lines@);
    let ghost exempted = line_views(subs@);
    let mut in_block_comment: bool = false;
    let mut i: usize = 0;
    assert(views.take(0) =~= Seq::<Seq<char>>::empty());
    while i < lines.len()
        invariant
            i <= lines@.len(),
            views == line_views(lines@),
            exempted == line_views(subs@),
            table_views(forbidden@) == forbidden_table(),
            table_views(bare@) == bare_table(),
            forall|k: int| 0 <= k < forbidden@.len() ==> (#[trigger] forbidden@[k]).0@.len() > 0,
            forall|k: int| 0 <= k < bare@.len() ==> (#[trigger] bare@[k]).0@.len() > 0,
            scan_lines(views.take(i as int), exempted) == finding_views(violations@),
            block_open(views.take(i as int)) == in_block_comment,
        decreases lines@.len() - i,
    {
        let ghost prior = finding_views(violations@);
        assert(views.take(i + 1).drop_last() =~= views.take(i as int));
        assert(views.take(i + 1).last() == lines@[i as int]@);
        let code: Vec<char> = strip_comments(&lines[i], &mut in_block_comment);
        let content: Vec<char> = trim(&code);
        if content.len() > 0 && !is_import_line(&content) {
            scan_table(&forbidden, false, i + 1, &code, &content, &subs, &mut violations);
            scan_table(&bare, true, i + 1, &code, &content, &subs, &mut violations);
            proof {
                let a = hits(forbidden_table(), false, (i + 1) as nat, code@, exempted);
                let b = hits(bare_table(), true, (i + 1) as nat, code@, exempted);
                assert(prior + a + b =~= prior + (a + b));
            }
        } else {
            assert(prior + Seq::<Finding>::empty() =~= prior);
        }
        i = i + 1;
    }
    assert(views.take(i as int) =~= views);
    violations
}

/// The finding reports a row of the table that the line of code contains.
pub open spec fn row_hit(
    table: Seq<(Seq<char>, Seq<char>)>,
    bare: bool,
    number: nat,
    code: Seq<char>,
    subs: Seq<Seq<char>>,
    f: Finding,
) -> bool {
    &&& table.contains((f.pattern, f.advice))
    &&& if bare {
        bare_hit(code, f.pattern)
    } else {
        contains_text(code, f.pattern)
    }
    &&& !exempt(f.pattern, subs)
    &&& f.line_number == number
    &&& f.line_content == trimmed(code)
}

/// The finding belongs to the line with the given index: the code of the line
/// is neither blank nor an import and contains the pattern, and no directive
/// exempts the pattern.
pub open spec fn line_reports(lines: Seq<Seq<char>>, i: int, f: Finding) -> bool {
    let code = last_code(lines.take(i + 1));
    let subs = all_directives(lines);
    &&& trimmed(code).len() > 0
    &&& !import_line(trimmed(code))
    &&& row_hit(forbidden_table(), false, (i + 1) as nat, code, subs, f) || row_hit(
        bare_table(),
        true,
        (i + 1) as nat,
        code,
        subs,
        f,
    )
}

proof fn lemma_hits_exact(
    table: Seq<(Seq<char>, Seq<char>)>,
    bare: bool,
    number: nat,
    code: Seq<char>,
    subs: Seq<Seq<char>>,
    f: Finding,
)
    ensures
        hits(table, bare, number, code, subs).contains(f) <==> row_hit(
            table,
            bare,
            number,
            code,
            subs,
            f,
        ),
    decreases table.len(),
{
    let all = hits(table, bare, number, code, subs);
    if table.len() > 0 {
        let before = table.drop_last();
        let front = hits(before, bare, number, code, subs);
        lemma_hits_exact(before, bare, number, code, subs, f);
        let row = (f.pattern, f.advice);
        if before.contains(row) {
            let k = choose|k: int| 0 <= k < before.len() && before[k] == row;
            assert(table[k] == row);
        }
        if table.contains(row) && !before.contains(row) {
            let k = choose|k: int| 0 <= k < table.len() && table[k] == row;
            if k < before.len() {
                assert(before[k] == row);
            }
        }
        if front.contains(f) {
            let k = choose|k: int| 0 <= k < front.len() && front[k] == f;
            assert(all[k] == f);
        }
        assert(table[table.len() - 1] == table.last());
        if row_hit(table, bare, number, code, subs, f) && table.last() == row {
            assert(all[all.len() - 1] == f);
        }
        if all.contains(f) && !front.contains(f) {
            let k = choose|k: int| 0 <= k < all.len() && all[k] == f;
            if k < front.len() {
                assert(front[k] == f);
            }
        }
    }
}

proof fn lemma_scan_exact(lines: Seq<Seq<char>>, n: int, f: Finding)
    requires
        0 <= n <= lines.len(),
    ensures
        scan_lines(lines.take(n), all_directives(lines)).contains(f) <==> exists|i: int|
            0 <= i < n && #[trigger] line_reports(lines, i, f),
    decreases n,
{
    let subs = all_directives(lines);
    let here = lines.take(n);
    if n > 0 {
        lemma_scan_exact(lines, n - 1, f);
        assert(here.drop_last() =~= lines.take(n - 1));
        let code = last_code(here);
        let front = scan_lines(lines.take(n - 1), subs);
        let a = hits(forbidden_table(), false, n as nat, code, subs);
        let b = hits(bare_table(), true, n as nat, code, subs);
        lemma_hits_exact(forbidden_table(), false, n as nat, code, subs, f);
        lemma_hits_exact(bare_table(), true, n as nat, code, subs, f);
        let tail = line_hits(n as nat, code, subs);
        lemma_join_contains(a, b, f);
        lemma_join_contains(front, tail, f);
        assert(tail.contains(f) <==> line_reports(lines, n - 1, f)) by {
            assert(lines.take(n - 1 + 1) =~= here);
            if trimmed(code).len() == 0 || import_line(trimmed(code)) {
                assert(!tail.contains(f));
            }
        }
        if exists|i: int| 0 <= i < n && #[trigger] line_reports(lines, i, f) {
            let i = choose|i: int| 0 <= i < n && #[trigger] line_reports(lines, i, f);
            if i < n - 1 {
                assert(0 <= i < n - 1 && line_reports(lines, i, f));
            }
        }
    } else {
        assert(!scan_lines(here, subs).contains(f));
    }
}

proof fn lemma_join_contains(a: Seq<Finding>, b: Seq<Finding>, f: Finding)
    ensures
        (a + b).contains(f) <==> a.contains(f) || b.contains(f),
{
    if a.contains(f) {
        let k = choose|k: int| 0 <= k < a.len() && a[k] == f;
        assert((a + b)[k] == f);
    }
    if b.contains(f) {
        let k = choose|k: int| 0 <= k < b.len() && b[k] == f;
        assert((a + b)[a.len() + k] == f);
    }
    if (a + b).contains(f) {
        let k = choose|k: int| 0 <= k < (a + b).len() && (a + b)[k] == f;
        if k < a.len() {
            assert(a[k] == f);
        } else {
            assert(b[k - a.len()] == f);
        }
    }
}

/// A scan reports exactly the forbidden patterns that stand in the code: each
/// finding names a line that is neither blank nor an import and whose code
/// contains the pattern outside comments, and each such pattern that no
/// directive exempts is reported. A bare prefix counts where it starts a path
/// segment and no forbidden pattern stands.
pub proof fn law_scan_reports_exactly_the_leaks(source: Seq<char>, f: Finding)
    requires
        !fully_allowed(lines_of(source)),
    ensures
        scanned(source).contains(f) <==> exists|i: int|
            0 <= i < lines_of(source).len() && #[trigger] line_reports(lines_of(source), i, f),
{
    let lines = lines_of(source);
    lemma_scan_exact(lines, lines.len() as int, f);
    assert(lines.take(lines.len() as int) =~= lines);
}

/// No access is reported both by a forbidden pattern and by a bare prefix that
/// stands in the same place: a bare prefix is reported only for a place in its
/// line at which no forbidden pattern stands.
pub proof fn law_bare_prefix_reports_its_own_access(source: Seq<char>, f: Finding)
    requires
        scanned(source).contains(f),
        bare_table().contains((f.pattern, f.advice)),
    ensures
        exists|i: int, at: int|
            0 <= i < lines_of(source).len() && f.line_number == i + 1 && #[trigger] bare_at(
                last_code(lines_of(source).take(i + 1)),
                f.pattern,
                at,
            ),
{
    let lines = lines_of(source);
    law_scan_reports_exactly_the_leaks(source, f);
    let i = choose|i: int| 0 <= i < lines.len() && #[trigger] line_reports(lines, i, f);
    lemma_tables_are_plain();
    assert(!forbidden_table().contains((f.pattern, f.advice)));
    let code = last_code(lines.take(i + 1));
    let at = choose|at: int| #[trigger] bare_at(code, f.pattern, at);
    assert(bare_at(last_code(lines.take(i + 1)), f.pattern, at));
}

/// A marker on any line silences the whole file.
pub proof fn law_marker_silences_the_file(source: Seq<char>, i: int)
    requires
        0 <= i < lines_of(source).len(),
        marked(lines_of(source)[i]),
    ensures
        scanned(source) == Seq::<Finding>::empty(),
{
}

/// A per-pattern directive silences every pattern that contains its substring,
/// wherever in the file the pattern stands.
pub proof fn law_directive_silences_its_pattern(source: Seq<char>, k: int, f: Finding)
    requires
        0 <= k < all_directives(lines_of(source)).len(),
        contains_text(f.pattern, all_directives(lines_of(source))[k]),
    ensures
        !scanned(source).contains(f),
{
    if !fully_allowed(lines_of(source)) {
        law_scan_reports_exactly_the_leaks(source, f);
        assert(exempt(f.pattern, all_directives(lines_of(source))));
    }
}

/// A per-pattern directive does not exempt the whole file by itself: the
/// prefix of a directive is a marker followed by a colon.
pub proof fn law_directive_is_no_marker(line: Seq<char>, at: int)
    requires
        occurs_at(line, ALLOW_PREFIX@, at),
    ensures
        !marker_at(line, at),
{
    reveal_strlit("ledger-lint:allow");
    reveal_strlit("ledger-lint:allow:");
    let end = at + ALLOW_MARKER@.len();
    assert(line.subrange(at, at + ALLOW_PREFIX@.len())[ALLOW_MARKER@.len() as int] == ':');
}

/// The findings of a violating file.
pub open spec fn file_view(entry: (String, Vec<LintViolation>)) -> (Seq<char>, Seq<Finding>) {
    (entry.0@, finding_views(entry.1@))
}

/// The mathematical content of a [`ScanResult`].
#[verifier::ext_equal]
pub struct ScanReport {
    pub violating_files: Seq<(Seq<char>, Seq<Finding>)>,
    pub files_scanned: nat,
    pub errors: Seq<Seq<char>>,
}

/// Result of scanning one source path (file or directory tree).
#[derive(Debug, Clone, PartialEq, Eq)]
pub struct ScanResult {
    /// Files that produced at least one violation, paired with their violations.
    pub violating_files: Vec<(String, Vec<LintViolation>)>,
    /// Number of source files scanned, excluding allow-marked files.
    pub files_scanned: usize,
    /// Non-fatal errors encountered while walking directories or reading files.
    pub errors: Vec<String>,
}

impl View for ScanResult {
    type V = ScanReport;

    open spec fn view(&self) -> ScanReport {
        ScanReport {
            violating_files: self.violating_files@.map_values(
                |e: (String, Vec<LintViolation>)| file_view(e),
            ),
            files_scanned: self.files_scanned as nat,
            errors: self.errors@.map_values(|e: String| e@),
        }
    }
}

/// Number of findings in all files.
pub open spec fn total(files: Seq<(Seq<char>, Seq<Finding>)>) -> nat
    decreases files.len(),
{
    if files.len() == 0 {
        0
    } else {
        total(files.drop_last()) + files.last().1.len()
    }
}

/// The report after one more file with the given content.
pub open spec fn with_file(
    report: ScanReport,
    path: Seq<char>,
    content: Seq<char>,
) -> ScanReport {
    if fully_allowed(lines_of(content)) {
        report
    } else {
        let found = scanned(content);
        ScanReport {
            violating_files: if found.len() > 0 {
                report.violating_files.push((path, found))
            } else {
                report.violating_files
            },
            files_scanned: report.files_scanned + 1,
            errors: report.errors,
        }
    }
}

proof fn lemma_total_grows(files: Seq<(Seq<char>, Seq<Finding>)>, n: int)
    requires
        0 <= n <= files.len(),
    ensures
        total(files.take(n)) <= total(files),
    decreases files.len(),
{
    if n < files.len() {
        assert(files.take(n) =~= files.drop_last().take(n));
        lemma_total_grows(files.drop_last(), n);
    } else {
        assert(files.take(n) =~= files);
    }
}

impl Default for ScanResult {
    fn default() -> (result: ScanResult)
        ensures
            result@ == (ScanReport {
                violating_files: Seq::empty(),
                files_scanned: 0,
                errors: Seq::empty(),
            }),
    {
        let result = ScanResult {
            violating_files: Vec::new(),
            files_scanned: 0,
            errors: Vec::new(),
        };
        assert(result@.violating_files =~= Seq::empty());
        assert(result@.errors =~= Seq::empty());
        result
    }
}

impl ScanResult {
    /// Number of violations in all files.
    pub fn total_violations(&self) -> (count: usize)
        requires
            total(self@.violating_files) <= usize::MAX,
        ensures
            count == total(self@.violating_files),
    {
        let ghost files = self@.violating_files;
        let mut count: usize = 0;
        let mut i: usize = 0;
        assert(files.take(0) =~= Seq::empty());
        while i < self.violating_files.len()
            invariant
                files == self@.violating_files,
                total(files) <= usize::MAX,
                i <= self.violating_files@.len(),
                count == total(files.take(i as int)),
            decreases self.violating_files@.len() - i,
        {
            proof {
                lemma_total_grows(files, i + 1);
                assert(files.take(i + 1).drop_last() =~= files.take(i as int));
                assert(files.take(i + 1).last() == file_view(self.violating_files@[i as int]));
            }
            count = count + self.violating_files[i].1.len();
            i = i + 1;
        }
        assert(files.take(i as int) =~= files);
        count
    }

    /// Count and scan the content of one file. An allow-marked file is
    /// skipped: it is neither counted nor scanned.
    pub fn scan_content(&mut self, path: String, content: &str)
        requires
            old(self).files_scanned < usize::MAX,
        ensures
            final(self)@ == with_file(old(self)@, path@, content@),
    {
        if has_full_allow_marker(content) {
            return;
        }
        let ghost before = self@;
        self.files_scanned = self.files_scanned + 1;
        let violations: Vec<LintViolation> = scan_source(content);
        let ghost found = finding_views(violations@);
        if violations.len() > 0 {
            self.violating_files.push((path, violations));
            assert(self@.violating_files =~= before.violating_files.push((path@, found)));
        }
    }

    /// Keep a non-fatal error of the walk.
    pub fn record_error(&mut self, error: String)
        ensures
            final(self)@ == (ScanReport { errors: old(self)@.errors.push(error@), ..old(self)@ }),
    {
        let ghost before = self@;
        self.errors.push(error);
        assert(self@.errors =~= before.errors.push(error@));
    }

    /// Take in the result of another scan.
    pub fn absorb(&mut self, other: ScanResult)
        requires
            old(self).files_scanned + other.files_scanned <= usize::MAX,
        ensures
            final(self)@ == (ScanReport {
                violating_files: old(self)@.violating_files + other@.violating_files,
                files_scanned: old(self)@.files_scanned + other@.files_scanned,
                errors: old(self)@.errors + other@.errors,
            }),
    {
        let ghost before = self@;
        let ghost taken = other@;
        let mut files: Vec<(String, Vec<LintViolation>)> = other.violating_files;
        let mut errors: Vec<String> = other.errors;
        self.files_scanned = self.files_scanned + other.files_scanned;
        self.violating_files.append(&mut files);
        self.errors.append(&mut errors);
        assert(self@.violating_files =~= before.violating_files + taken.violating_files);
        assert(self@.errors =~= before.errors + taken.errors);
    }

    /// A scan fails when it found a violation or could not read something.
    pub fn failed(&self) -> (yes: bool)
        requires
            total(self@.violating_files) <= usize::MAX,
        ensures
            yes == (total(self@.violating_files) > 0 || self@.errors.len() > 0),
    {
        self.total_violations() > 0 || self.errors.len() > 0
    }
}

/// The name ends in the given suffix.
pub open spec fn name_ends(name: Seq<char>, suffix: Seq<char>) -> bool {
    occurs_at(name, suffix, name.len() - suffix.len())
}

/// The walk skips `target`, `tests` and hidden directories. Files always pass.
pub open spec fn descends(is_dir: bool, name: Seq<char>) -> bool {
    !is_dir || !(name == "target"@ || name == "tests"@ || (name.len() > 0 && name[0] == '.'))
}

/// Whether the walk keeps an entry with the given name.
pub fn should_descend(is_dir: bool, name: &str) -> (yes: bool)
    ensures
        yes == descends(is_dir, name@),
{
    if !is_dir {
        return true;
    }
    let chars: Vec<char> = chars_of(name);
    let hidden: bool = chars.len() > 0 && chars[0] == '.';
    !(same_text(name, "target") || same_text(name, "tests") || hidden)
}

/// Whether a file name has the extension of Rust sources. A name that is
/// nothing but the extension has none.
pub fn is_rs_file(name: &str) -> (yes: bool)
    ensures
        yes == (name@.len() > 3 && name_ends(name@, ".rs"@)),
{
    proof {
        reveal_strlit(".rs");
    }
    let chars: Vec<char> = chars_of(name);
    let suffix: Vec<char> = chars_of(".rs");
    chars.len() > 3 && stands_at(&chars, &suffix, chars.len() - 3)
}

} // verus!
