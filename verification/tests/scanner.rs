use ledger_sim::scanner::{is_import_line, scan_source, should_descend};

#[test]
fn detects_forbidden_ambient_clock() {
    let code = r#"
        fn do_work() {
            let t = Instant::now();
        }
    "#;
    let v = scan_source(code);
    assert_eq!(v.len(), 1);
    assert_eq!(v[0].pattern, "Instant::now()");
}

#[test]
fn detects_forbidden_randomness() {
    let code = "let mut rng = rand::thread_rng();";
    let v = scan_source(code);
    assert_eq!(v.len(), 1);
    assert_eq!(v[0].pattern, "rand::thread_rng()");
}

#[test]
fn detects_env_var_reads() {
    let code = "let seed = std::env::var(\"SEED\").unwrap_or_default();";
    let v = scan_source(code);
    assert_eq!(v.len(), 1);
    assert_eq!(v[0].pattern, "env::var");
}

#[test]
fn allow_marker_suppresses_all_violations() {
    let code = r#"// ledger-lint:allow (production passthrough backend reads ambient time by design)
fn now() -> u64 {
let t = SystemTime::now();
}"#;
    assert!(scan_source(code).is_empty());
}

#[test]
fn scanner_per_pattern_allow_exempts_only_matching_pattern() {
    let code = r#"// ledger-lint:allow:Instant::now()
let t = std::time::Instant::now();
let _ = std::fs::read_to_string("state.json");"#;
    let v = scan_source(code);
    assert_eq!(v.len(), 1);
    assert_eq!(v[0].pattern, "std::fs::");
}

#[test]
fn per_pattern_allow_keeps_other_patterns_active() {
    let code = r#"// ledger-lint:allow:rdrand
let _ = std::arch::x86_64::_rdrand64_step(&mut v);
let _seed = std::env::var("SEED");"#;
    let v = scan_source(code);
    assert_eq!(v.len(), 1);
    assert_eq!(v[0].pattern, "env::var");
}

#[test]
fn comment_after_code_is_ignored() {
    let code = "let t = Instant::now(); // let _ = SystemTime::now();";
    let v = scan_source(code);
    assert_eq!(v.len(), 1);
    assert_eq!(v[0].pattern, "Instant::now()");
}

#[test]
fn block_comment_spanning_lines_is_ignored() {
    let code = "/*\n * let _ = SystemTime::now();\n * let _ = Instant::now();\n*/";
    assert!(scan_source(code).is_empty());
}

#[test]
fn code_after_closed_block_comment_is_scanned() {
    let code = "/* block */ let t = Instant::now();";
    let v = scan_source(code);
    assert_eq!(v.len(), 1);
    assert_eq!(v[0].pattern, "Instant::now()");
}

#[test]
fn code_behind_an_import_is_scanned() {
    let chars = |line: &str| line.chars().collect::<Vec<char>>();
    for line in ["use std::fs; let _ = fs::read(p);", "use a::b; std::time::Instant::now();"] {
        assert!(!is_import_line(&chars(line)));
        assert_eq!(scan_source(line).len(), 1, "{line}");
    }
    for line in ["use std::fs;", "pub use std::fs; ", "use std::{", "use std::fs; // fs::read"] {
        assert!(scan_source(line).is_empty(), "{line}");
    }
    assert!(is_import_line(&chars("use std::{")));
}

#[test]
fn only_build_test_and_hidden_directories_are_skipped() {
    for name in ["target", "tests", ".git", "."] {
        assert!(!should_descend(true, name), "{name}");
        assert!(should_descend(false, name), "{name}");
    }
    for name in ["gen", "src", "targets", ""] {
        assert!(should_descend(true, name), "{name}");
    }
}

#[test]
fn a_directive_line_removes_exactly_its_findings() {
    for source in [
        "",
        "let t = Instant::now();\nstd::fs::read(p);",
        "let t = Instant::now();\r",
        "std::fs::read(p); /* open\n Instant::now()",
        "// ledger-lint:allow:SystemTime\nlet s = SystemTime::now();\nlet t = Instant::now();\n",
    ] {
        for sub in ["Instant", "fs", "now()", "nothing"] {
            let after = scan_source(&format!("{source}\n// ledger-lint:allow:{sub}"));
            let kept: Vec<_> =
                scan_source(source).into_iter().filter(|v| !v.pattern.contains(sub)).collect();
            assert_eq!(after, kept, "{source:?} {sub}");
        }
    }
}

#[test]
fn joined_texts_hold_the_findings_of_both() {
    let a = "let t = Instant::now();\n\nstd::fs::read(p);\r";
    let b = "let s = SystemTime::now(); /* open\n*/ getrandom::fill(b);";
    let mut expected = scan_source(a);
    let lines = a.lines().count();
    expected.extend(scan_source(b).into_iter().map(|mut v| {
        v.line_number += lines;
        v
    }));
    assert!(expected.len() > 3);
    assert_eq!(scan_source(&format!("{a}\n{b}")), expected);
}

#[test]
fn import_line_is_ignored() {
    let code = "use std::fs::{self, File};\nfn main() {}";
    assert!(scan_source(code).is_empty());
}

#[test]
fn pub_use_import_line_is_ignored() {
    let code = "pub use std::fs::File;\nfn main() {}";
    assert!(scan_source(code).is_empty());
}

#[test]
fn bare_fs_prefix_after_use_import_is_flagged() {
    let code = "use std::fs;\nfn main() { let _ = fs::read(\"state.bin\"); }";
    let v = scan_source(code);
    assert_eq!(v.len(), 1);
    assert_eq!(v[0].pattern, "fs::");
}

#[test]
fn fully_qualified_fs_reports_single_violation() {
    let code = "let _ = std::fs::read(\"state.bin\");";
    let v = scan_source(code);
    assert_eq!(v.len(), 1);
    assert_eq!(v[0].pattern, "std::fs::");
}

#[test]
fn bare_net_prefix_after_use_import_is_flagged() {
    let code = "use std::net;\nlet _stream = net::TcpStream::connect(\"127.0.0.1:8080\");";
    let v = scan_source(code);
    assert_eq!(v.len(), 1);
    assert_eq!(v[0].pattern, "net::");
}

#[test]
fn unrelated_module_shadowing_fs_is_not_flagged() {
    let code = "let _ = simfs::read_dir(\".\");";
    assert!(scan_source(code).is_empty());
}

#[test]
fn per_pattern_allow_exempts_bare_fs_prefix() {
    let code = r#"// ledger-lint:allow:fs:: (storage module uses the ambient filesystem)
use std::fs;
fn load() { let _ = fs::read("state.bin"); }"#;
    assert!(scan_source(code).is_empty());
}

#[test]
fn detects_getrandom_fill_and_bare_prefix() {
    let fill = "let mut buf = [0u8; 32]; getrandom::fill(&mut buf).unwrap();";
    let v = scan_source(fill);
    assert!(v.iter().any(|vi| vi.pattern == "getrandom::fill"));
    let bare =
        "use getrandom;\nfn f() { let mut b = [0u8; 32]; let _ = getrandom::fill(&mut b); }";
    let v2 = scan_source(bare);
    assert!(
        v2.iter()
            .any(|vi| vi.pattern == "getrandom::" || vi.pattern == "getrandom::fill")
    );
    let allow = "// ledger-lint:allow:getrandom::\nlet mut b = [0u8; 32]; getrandom::fill(&mut b).unwrap();";
    assert!(scan_source(allow).is_empty());
}

#[test]
fn each_ambient_access_is_reported_once() {
    let found = scan_source("let _ = getrandom::fill(&mut b);");
    assert_eq!(found.len(), 1);
    assert_eq!(found[0].pattern, "getrandom::fill");
    let exempted = "// ledger-lint:allow:getrandom::fill\nlet _ = getrandom::fill(&mut b);";
    assert!(scan_source(exempted).is_empty(), "an exempted access is not reported otherwise");
    let other = scan_source("let _ = getrandom::u32();");
    assert_eq!(other.len(), 1);
    assert_eq!(other[0].pattern, "getrandom::");
    let both = scan_source("let _ = getrandom::fill(&mut b).and(getrandom::u32());");
    let patterns: Vec<&str> = both.iter().map(|v| v.pattern.as_str()).collect();
    assert_eq!(patterns, ["getrandom::fill", "getrandom::"]);
    assert_eq!(scan_source("let _ = std::env::args();").len(), 1);
    assert_eq!(scan_source("let _ = std::fs::read(p);").len(), 1);
}

#[test]
fn detects_bare_env_args_and_allows_it() {
    let bare = "use std::env;\nfn main() { let _ = env::args().collect::<Vec<_>>(); }";
    let v = scan_source(bare);
    assert!(v.iter().any(|vi| vi.pattern == "env::args"));
    let allow = "// ledger-lint:allow:env::args\nuse std::env;\nfn main() { let _ = env::args().collect::<Vec<_>>(); }";
    assert!(scan_source(allow).is_empty());
}
