use core::time::Duration;
use ledger_sim::backoff::{backoff, backoff_jittered, from_micros, whole_micros};
use ledger_sim::cbor::{CborError, CborValue};
use ledger_sim::config::{
    JournalingMode, Policy, RunConfig, SimFault, SwarmConfig,
};
use ledger_sim::config_canonical::{
    canonical_hash, from_canonical_bytes, to_canonical_bytes, ConfigCanonicalError,
    FORMAT_VERSION,
};
use ledger_sim::dns::DnsTable;
use ledger_sim::host::ReplayViolation;
use ledger_sim::ids::{ActorId, EntryHash};
use ledger_sim::journal::{JournalError, PayloadFault};
use ledger_sim::net::{LinkConfig, NetError, QueueFullPolicy};
use ledger_sim::origin::{EffectOrigin, OriginLog, OriginSource};
use ledger_sim::probability::Probability;
use ledger_sim::schedule::RuntimeError;
use ledger_sim::scanner::{is_rs_file, scan_source, should_descend, ScanResult};
use ledger_sim::sentinel::{
    effective_protection, BeltStatus, LeakClass, ProtectionMode, Sentinel,
};
use ledger_sim::text::{is_white_space, trim};
use ledger_sim::wasi::{close_reply, fd_filestat_get, path_key, Roster, SpanFault, Trap};

fn probability(value: f64) -> Probability {
    Probability::new(value.to_bits()).expect("a probability")
}

fn plain_backoff(base: Duration, retry: u32, max_delay: Duration) -> Duration {
    let base_ticks = base.as_micros().min(u64::MAX as u128) as u64;
    let max_ticks = max_delay.as_micros().min(u64::MAX as u128) as u64;
    let factor = 1u128.checked_shl(retry).filter(|_| retry < 64);
    let ticks = match factor {
        Some(factor) => u128::from(base_ticks) * factor,
        None if base_ticks == 0 => 0,
        None => u128::MAX,
    };
    Duration::from_micros(ticks.min(u128::from(max_ticks)) as u64)
}

#[test]
fn backoff_is_exponential_and_capped() {
    let cap = Duration::from_secs(3600);
    assert_eq!(backoff(Duration::from_micros(100), 0, cap), Duration::from_micros(100));
    assert_eq!(backoff(Duration::from_micros(100), 3, cap), Duration::from_micros(800));
    assert_eq!(
        backoff(Duration::from_micros(100), 63, Duration::from_micros(250)),
        Duration::from_micros(250)
    );
    for base in [0u64, 1, 7, 1_000_003, u64::MAX / 3, u64::MAX] {
        for retry in [0u32, 1, 5, 31, 62, 63, 64, u32::MAX] {
            for max in [0u64, 1, 999_999, 1_000_000, u64::MAX] {
                let (b, m) = (Duration::from_micros(base), Duration::from_micros(max));
                assert_eq!(backoff(b, retry, m), plain_backoff(b, retry, m));
            }
        }
    }
    assert_eq!(
        backoff(Duration::from_micros(1), 64, Duration::from_micros(u64::MAX)),
        Duration::from_micros(u64::MAX)
    );
    assert_eq!(
        backoff(Duration::MAX, 1, Duration::MAX),
        plain_backoff(Duration::MAX, 1, Duration::MAX)
    );
}

#[test]
fn jitter_adds_the_reduced_word_and_clamps() {
    let cap = Duration::from_nanos(1_500_700);
    for word in [0u64, 1, 999, 1000, 12345, u64::MAX] {
        let plain = plain_backoff(Duration::from_micros(500), 1, cap);
        let extra = Duration::from_micros(word % (plain.as_micros() as u64).max(1));
        assert_eq!(
            backoff_jittered(Duration::from_micros(500), 1, cap, word),
            plain.saturating_add(extra).min(cap)
        );
    }
    assert_eq!(backoff_jittered(Duration::ZERO, 4, cap, 9), Duration::ZERO);
}

#[test]
fn durations_convert_to_ticks_and_back() {
    assert_eq!(whole_micros(Duration::from_nanos(2_999)), 2);
    assert_eq!(whole_micros(Duration::MAX), u64::MAX);
    assert_eq!(from_micros(1_000_001), Duration::from_micros(1_000_001));
    assert_eq!(from_micros(u64::MAX), Duration::from_micros(u64::MAX));
}

#[test]
fn chances_follow_double_arithmetic() {
    let chances = [0.0, 1e-300, 1e-9, 0.1, 0.3, 1.0 / 3.0, 0.5, 0.999999999999, 1.0];
    let words = [
        0u64, 1, 2, 1 << 32, (1 << 53) + 1, 1 << 62, 1 << 63, 0x1999_9999_9999_9999,
        0x5555_5555_5555_5555, u64::MAX - 1024, u64::MAX - 1, u64::MAX,
    ];
    for c in chances {
        let p = probability(c);
        assert_eq!(p.loss_limit(), (c * 1_000_000_000.0) as u64, "{c}");
        assert_eq!(p.is_positive(), c > 0.0);
        for word in words {
            let unit = (word as f64) / (u64::MAX as f64);
            assert_eq!(p.hit(word), unit < c, "{c} {word}");
        }
    }
}

#[test]
fn white_space_matches_std() {
    for c in (0u32..0x11_0000).filter_map(char::from_u32) {
        assert_eq!(is_white_space(c), c.is_whitespace(), "{c:?}");
    }
    let text: Vec<char> = "\u{2003} a b\t\n".chars().collect();
    assert_eq!(trim(&text).into_iter().collect::<String>(), "\u{2003} a b\t\n".trim());
}

#[test]
fn names_resolve_to_actors() {
    let mut table = DnsTable::new();
    assert!(table.is_empty());
    assert!(!table.insert("b.test", 2));
    assert!(!table.insert("a.test", 1));
    assert!(table.insert("b.test", 3), "a second insert replaces");
    assert_eq!(table.resolve("b.test"), Some(3));
    assert_eq!(table.resolve("c.test"), None);
    assert!(table.contains("a.test"));
    assert_eq!(table.len(), 2);
    assert_eq!(table.iter(), vec![("a.test", 1), ("b.test", 3)]);
}

#[test]
fn origins_are_kept_by_entry() {
    let mut log = OriginLog::default();
    let source = |line| OriginSource::Source(EffectOrigin { file: "f.rs", line, column: 2 });
    let (a, b) = (EntryHash([1; 32]), EntryHash([2; 32]));
    log.record(a, source(1));
    log.record(b, source(2));
    assert_eq!(log.get(&a), Some(&source(1)));
    assert_eq!(log.get(&EntryHash([3; 32])), None);
    assert_eq!(log.snapshot(), vec![(a, source(1)), (b, source(2))]);
    assert_eq!(OriginSource::default(), OriginSource::Unknown);
}

#[test]
fn hostile_documents_are_rejected_by_kind() {
    let bytes = to_canonical_bytes(&RunConfig::default()).expect("encodes");
    assert_eq!(
        from_canonical_bytes(&bytes[..bytes.len() - 1]).unwrap_err(),
        ConfigCanonicalError::Cbor(CborError::UnexpectedEnd)
    );
    let mut long = bytes.clone();
    long.push(0);
    assert_eq!(
        from_canonical_bytes(&long).unwrap_err(),
        ConfigCanonicalError::Cbor(CborError::TrailingBytes)
    );
    let doc = |version: u64, fields: Vec<(&str, CborValue)>| {
        CborValue::Array(vec![
            CborValue::Unsigned(version),
            CborValue::Dict(
                fields.into_iter().map(|(n, v)| (CborValue::Text(n.to_string()), v)).collect(),
            ),
        ])
        .try_to_canonical_bytes()
        .expect("encodes")
    };
    assert_eq!(
        from_canonical_bytes(&doc(FORMAT_VERSION + 1, vec![])).unwrap_err(),
        ConfigCanonicalError::UnsupportedVersion(FORMAT_VERSION + 1)
    );
    assert_eq!(
        from_canonical_bytes(&doc(FORMAT_VERSION, vec![("nope", CborValue::Null)])).unwrap_err(),
        ConfigCanonicalError::UnknownField("nope".to_string())
    );
    assert!(matches!(
        from_canonical_bytes(&doc(FORMAT_VERSION, vec![])).unwrap_err(),
        ConfigCanonicalError::MissingField(_)
    ));
    let shape = CborValue::Unsigned(1).try_to_canonical_bytes().expect("encodes");
    assert_eq!(
        from_canonical_bytes(&shape).unwrap_err(),
        ConfigCanonicalError::WrongDocumentShape
    );
}

#[test]
fn a_full_configuration_round_trips() {
    let mut dns = DnsTable::new();
    dns.insert("alpha.test", 1);
    let cfg = RunConfig::builder()
        .seed(EntryHash([7; 32]))
        .policy(Policy::Pct { priority_changes: 3 })
        .max_steps(42)
        .dropped_events(vec![EntryHash([1; 32]), EntryHash([2; 32])])
        .swarm(SwarmConfig {
            drop_probability: probability(0.25),
            delay_probability: probability(0.1),
            max_delay_ticks: 9,
            crash_probability: probability(1.0),
            fault_classes_per_run: 4,
        })
        .links(vec![(
            0,
            1,
            LinkConfig {
                base_delay: 5,
                jitter: 2,
                loss_probability: probability(0.125),
                reorder_window: 3,
                capacity: Some(8),
                queue_policy: QueueFullPolicy::Block,
            },
        )])
        .dns(dns)
        .fault_schedule(vec![
            SimFault::Drop(EntryHash([9; 32])),
            SimFault::Delay { send: EntryHash([8; 32]), ticks: 4 },
            SimFault::Partition { src: ActorId(0), dst: ActorId(1) },
        ])
        .fs_journaling(Some(JournalingMode::Data))
        .monitor(false)
        .reorder_draw(true)
        .fs_budgets(Some(77), Some(88))
        .build();
    let bytes = to_canonical_bytes(&cfg).expect("encodes");
    let back = from_canonical_bytes(&bytes).expect("decodes");
    assert_eq!(back.seed(), cfg.seed());
    assert_eq!(back.policy(), cfg.policy());
    assert_eq!(back.max_steps(), cfg.max_steps());
    assert_eq!(back.dropped_events(), cfg.dropped_events());
    assert_eq!(back.swarm(), cfg.swarm());
    assert_eq!(back.links(), cfg.links());
    assert_eq!(back.dns().resolve("alpha.test"), Some(1));
    assert_eq!(back.fault_schedule(), cfg.fault_schedule());
    assert_eq!(back.fs_journaling(), cfg.fs_journaling());
    assert_eq!(back.monitor(), cfg.monitor());
    assert_eq!(back.reorder_draw(), cfg.reorder_draw());
    assert_eq!(back.max_file_extent(), Some(77));
    assert_eq!(back.max_resident_bytes(), Some(88));
    assert_eq!(to_canonical_bytes(&back).expect("encodes"), bytes);
    assert_eq!(canonical_hash(&back).unwrap(), canonical_hash(&cfg.clone()).unwrap());
    assert_ne!(
        canonical_hash(&cfg).unwrap(),
        canonical_hash(&RunConfig::default()).unwrap()
    );
}

#[test]
fn errors_speak() {
    assert_eq!(
        NetError::QueueFull { from: 0, to: 1, capacity: 2, queued: 2 }.message(),
        "queue full on link 0->1: 2/2"
    );
    assert_eq!(
        NetError::InvalidReorderWindow { window: 10, reason: "too wide" }.message(),
        "invalid reorder window 10: too wide"
    );
    let cases = vec![
        (ConfigCanonicalError::UnsupportedVersion(9), "unsupported run-config format version: 9"),
        (ConfigCanonicalError::WrongDocumentShape, "document is not [version, { fields }]"),
        (ConfigCanonicalError::UnknownField("x".to_string()), "unknown run-config field: x"),
        (ConfigCanonicalError::MissingField("dns"), "missing run-config field: dns"),
        (ConfigCanonicalError::WrongFieldType("dns"), "wrong type for run-config field: dns"),
        (
            ConfigCanonicalError::InvalidHashLength { field: "seed", len: 31 },
            "seed must be 32 bytes, got 31",
        ),
        (ConfigCanonicalError::InvalidPolicyTag(7), "unknown policy tag: 7"),
        (ConfigCanonicalError::InvalidFaultTag(8), "unknown fault tag: 8"),
        (ConfigCanonicalError::InvalidFsJournalingTag(3), "unknown fs_journaling tag: 3"),
        (ConfigCanonicalError::NonFiniteFloat("f"), "non-finite float in field: f"),
        (ConfigCanonicalError::IntegerOutOfRange("f"), "integer out of range for field: f"),
        (
            ConfigCanonicalError::InvalidMaxDelayTicks(u64::MAX),
            "swarm.max_delay_ticks 18446744073709551615 has no representable draw modulus",
        ),
        (
            ConfigCanonicalError::InvalidLinkJitter(5),
            "links.jitter 5 has no representable draw modulus",
        ),
        (
            ConfigCanonicalError::InvalidReorderWindow(6),
            "links.reorder_window 6 exceeds the bound",
        ),
        (
            ConfigCanonicalError::InvalidQueuePolicyTag(2),
            "unknown links.queue_policy tag: 2",
        ),
        (ConfigCanonicalError::DnsNameTooLong(300), "DNS name exceeds 255 bytes, got 300"),
        (
            ConfigCanonicalError::DuplicateDnsName("a".to_string()),
            "duplicate DNS name in document: a",
        ),
        (
            ConfigCanonicalError::ProbabilityOutOfRange("p"),
            "probability out of range in field: p",
        ),
    ];
    for (error, text) in cases {
        assert_eq!(error.message(), text);
    }
    assert_eq!(
        RuntimeError::StepLimit { limit: 4 }.message(),
        "simulation exceeded 4 steps"
    );
    assert!(RuntimeError::Journal(JournalError::InvalidPayload(PayloadFault::MessageTooLong {
        length: 3,
        limit: 2
    }))
    .message()
    .starts_with("journal error: "));
    assert!(RuntimeError::StrictReplay(ReplayViolation::Exhausted { step: 1 })
        .message()
        .starts_with("strict replay violation: "));
    assert!(RuntimeError::Belt(BeltStatus::Unavailable)
        .message()
        .starts_with("belt not active while required: "));
}

#[test]
fn host_protection_overrides_the_environment() {
    assert_eq!(
        effective_protection(Some(ProtectionMode::Required), ProtectionMode::Disabled),
        ProtectionMode::Required
    );
    assert_eq!(
        effective_protection(None, ProtectionMode::BestEffort),
        ProtectionMode::BestEffort
    );
    let sentinel = Sentinel::default();
    assert!(!sentinel.has_leaks());
    let mut sentinel = Sentinel::new();
    sentinel.record_leak(LeakClass::RawThread);
    assert_eq!(sentinel.leaks(), &[LeakClass::RawThread]);
}

#[test]
fn guests_are_called_by_name() {
    let mut roster = Roster::new();
    assert_eq!(roster.resolve("main"), None);
    roster.enroll("go", 1);
    assert_eq!(roster.resolve("main"), Some(1), "the first guest serves unnamed calls");
    roster.enroll("zig", 2);
    assert_eq!(roster.resolve("go"), Some(1));
    assert_eq!(roster.resolve("zig"), Some(2));
    assert_eq!(roster.resolve("none"), None);
    roster.enroll("main", 3);
    assert_eq!(roster.resolve("main"), Some(3));
    roster.enroll("go", 4);
    assert_eq!(roster.resolve("go"), Some(4), "a reload replaces");
}

#[test]
fn guest_handles_close_and_stat() {
    assert_eq!(close_reply(true, 9), 0);
    assert_eq!(close_reply(false, 2), 0);
    assert_eq!(close_reply(false, 3), 8);
    let mut memory = vec![1u8; 100];
    assert_eq!(fd_filestat_get(&mut memory, false, 0), Ok(8));
    assert_eq!(memory, vec![1u8; 100]);
    assert_eq!(fd_filestat_get(&mut memory, true, 10), Ok(0));
    assert!(memory[10..74].iter().all(|b| *b == 0));
    assert!(memory[..10].iter().chain(&memory[74..]).all(|b| *b == 1));
    assert_eq!(
        fd_filestat_get(&mut memory, true, 40),
        Err(Trap::Status(SpanFault::Outside))
    );
    assert_eq!(path_key("//a/b"), "a/b");
    assert_eq!(path_key("///"), "///");
    assert_eq!(path_key(""), "");
}

#[test]
fn scans_gather_files_and_errors() {
    let mut total = ScanResult::default();
    total.scan_content("a.rs".to_string(), "let t = Instant::now();\nlet u = SystemTime::now();");
    total.scan_content("b.rs".to_string(), "fn clean() {}");
    assert_eq!(total.total_violations(), 2);
    assert!(total.failed());
    let mut broken = ScanResult::default();
    assert!(!broken.failed());
    broken.record_error("c.rs: unreadable".to_string());
    assert!(broken.failed(), "a file that cannot be read fails the scan");
    broken.absorb(total);
    assert_eq!(broken.total_violations(), 2);
    assert!(should_descend(true, "src"));
    assert!(!should_descend(true, "target"));
    assert!(is_rs_file("x.rs"));
    assert!(!is_rs_file("x.toml"));
    assert!(scan_source("// Instant::now()").is_empty());
}
