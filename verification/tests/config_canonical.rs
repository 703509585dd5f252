use ledger_sim::cbor::{CborError, CborValue};
use ledger_sim::config::{Policy, RunConfig, SwarmConfig};
use ledger_sim::config_canonical::{
    canonical_hash, from_canonical_bytes, to_canonical_bytes, ConfigCanonicalError, FORMAT_VERSION,
};
use ledger_sim::net::{LinkConfig, QueueFullPolicy, MAX_REORDER_WINDOW};
use ledger_sim::probability::{Probability, ProbabilityError};

fn probability(value: f64) -> Result<Probability, ProbabilityError> {
    Probability::new(value.to_bits())
}

fn float(value: f64) -> CborValue {
    CborValue::Float(value.to_bits())
}

fn minimal_fields() -> Vec<(&'static str, CborValue)> {
    vec![
        ("dns", CborValue::Array(Vec::new())),
        ("seed", CborValue::Bytes(vec![0u8; 32])),
        ("links", CborValue::Array(Vec::new())),
        (
            "swarm",
            CborValue::Array(vec![
                float(0.0),
                float(0.0),
                CborValue::Unsigned(0),
                float(0.0),
                CborValue::Unsigned(2),
            ]),
        ),
        ("policy", CborValue::Array(vec![CborValue::Unsigned(0)])),
        ("monitor", CborValue::Bool(true)),
        ("max_steps", CborValue::Unsigned(10_000)),
        ("dropped_events", CborValue::Array(Vec::new())),
        ("fs_journaling", CborValue::Null),
        ("fault_schedule", CborValue::Array(Vec::new())),
    ]
}

fn craft_document(fields: Vec<(&str, CborValue)>) -> Vec<u8> {
    let entries = fields
        .into_iter()
        .map(|(name, value)| (CborValue::Text(name.to_string()), value))
        .collect();
    CborValue::Array(vec![
        CborValue::Unsigned(FORMAT_VERSION),
        CborValue::Dict(entries),
    ])
    .try_to_canonical_bytes()
    .expect("crafted document encodes")
}

fn set_field(
    fields: &mut Vec<(&'static str, CborValue)>,
    name: &'static str,
    value: CborValue,
) {
    for (field_name, slot) in fields.iter_mut() {
        if *field_name == name {
            *slot = value;
            return;
        }
    }
    panic!("field {name} not present");
}

#[test]
fn probability_decode_rejects_invalid_per_slot() {
    // NaN is non-canonical CBOR, rejected at CBOR layer; infinities at run-config layer
    assert_eq!(
        probability(f64::NAN).unwrap_err(),
        ProbabilityError::NonFinite
    );
    let invalid = [
        (
            f64::INFINITY,
            ConfigCanonicalError::NonFiniteFloat("swarm.drop_probability"),
        ),
        (
            f64::NEG_INFINITY,
            ConfigCanonicalError::NonFiniteFloat("swarm.drop_probability"),
        ),
    ];
    for (value, expected) in invalid {
        let mut fields = minimal_fields();
        set_field(
            &mut fields,
            "swarm",
            CborValue::Array(vec![
                float(value),
                float(0.0),
                CborValue::Unsigned(0),
                float(0.0),
                CborValue::Unsigned(2),
            ]),
        );
        let bytes = match CborValue::Array(vec![
            CborValue::Unsigned(FORMAT_VERSION),
            CborValue::Dict(
                fields
                    .into_iter()
                    .map(|(n, v)| (CborValue::Text(n.to_string()), v))
                    .collect(),
            ),
        ])
        .try_to_canonical_bytes()
        {
            Ok(b) => b,
            Err(e) => panic!("craft failed for value {:?} err {:?}", value, e),
        };
        let err = from_canonical_bytes(&bytes).expect_err("must reject");
        assert_eq!(err, expected);
    }
    // -0.0 is non-canonical CBOR, rejected at CBOR layer; >1 at Probability layer
    assert_eq!(
        probability(-0.0).unwrap_err(),
        ProbabilityError::OutOfRange
    );
    {
        let fields = vec![
            ("dns", CborValue::Array(Vec::new())),
            ("seed", CborValue::Bytes(vec![0u8; 32])),
            ("links", CborValue::Array(Vec::new())),
            (
                "swarm",
                CborValue::Array(vec![
                    float(-0.0),
                    float(0.0),
                    CborValue::Unsigned(0),
                    float(0.0),
                    CborValue::Unsigned(2),
                ]),
            ),
            ("policy", CborValue::Array(vec![CborValue::Unsigned(0)])),
            ("monitor", CborValue::Bool(true)),
            ("max_steps", CborValue::Unsigned(10_000)),
            ("dropped_events", CborValue::Array(Vec::new())),
            ("fs_journaling", CborValue::Null),
            ("fault_schedule", CborValue::Array(Vec::new())),
        ];
        let entries = fields
            .into_iter()
            .map(|(n, v)| (CborValue::Text(n.to_string()), v))
            .collect();
        let doc = CborValue::Array(vec![
            CborValue::Unsigned(FORMAT_VERSION),
            CborValue::Dict(entries),
        ]);
        let err = doc.try_to_canonical_bytes().expect_err("must reject -0.0");
        assert_eq!(err, CborError::NonCanonicalFloat);
    }
    {
        let mut fields = minimal_fields();
        set_field(
            &mut fields,
            "swarm",
            CborValue::Array(vec![
                float(1.0000001),
                float(0.0),
                CborValue::Unsigned(0),
                float(0.0),
                CborValue::Unsigned(2),
            ]),
        );
        let bytes = craft_document(fields);
        let err = from_canonical_bytes(&bytes).expect_err("must reject");
        assert_eq!(
            err,
            ConfigCanonicalError::ProbabilityOutOfRange("swarm.drop_probability")
        );
    }
    // Swarm delay slot: -0.0 is CBOR non-canonical, 1.5 is out of range
    {
        assert_eq!(
            probability(-0.0).unwrap_err(),
            ProbabilityError::OutOfRange
        );
        let fields = vec![
            ("dns", CborValue::Array(Vec::new())),
            ("seed", CborValue::Bytes(vec![0u8; 32])),
            ("links", CborValue::Array(Vec::new())),
            (
                "swarm",
                CborValue::Array(vec![
                    float(0.0),
                    float(-0.0),
                    CborValue::Unsigned(0),
                    float(0.0),
                    CborValue::Unsigned(2),
                ]),
            ),
            ("policy", CborValue::Array(vec![CborValue::Unsigned(0)])),
            ("monitor", CborValue::Bool(true)),
            ("max_steps", CborValue::Unsigned(10_000)),
            ("dropped_events", CborValue::Array(Vec::new())),
            ("fs_journaling", CborValue::Null),
            ("fault_schedule", CborValue::Array(Vec::new())),
        ];
        let entries = fields
            .into_iter()
            .map(|(n, v)| (CborValue::Text(n.to_string()), v))
            .collect();
        let doc = CborValue::Array(vec![
            CborValue::Unsigned(FORMAT_VERSION),
            CborValue::Dict(entries),
        ]);
        let err = doc.try_to_canonical_bytes().expect_err("must reject -0.0");
        assert_eq!(err, CborError::NonCanonicalFloat);
    }
    // Swarm crash slot
    {
        let mut fields = minimal_fields();
        set_field(
            &mut fields,
            "swarm",
            CborValue::Array(vec![
                float(0.0),
                float(0.0),
                CborValue::Unsigned(0),
                float(1.5),
                CborValue::Unsigned(2),
            ]),
        );
        let bytes = craft_document(fields);
        assert_eq!(
            from_canonical_bytes(&bytes).unwrap_err(),
            ConfigCanonicalError::ProbabilityOutOfRange("swarm.crash_probability")
        );
    }
    // Link loss slot: -0.0 is CBOR non-canonical
    {
        assert_eq!(
            probability(-0.0).unwrap_err(),
            ProbabilityError::OutOfRange
        );
        let fields = vec![
            ("dns", CborValue::Array(Vec::new())),
            ("seed", CborValue::Bytes(vec![0u8; 32])),
            (
                "links",
                CborValue::Array(vec![CborValue::Array(vec![
                    CborValue::Unsigned(0),
                    CborValue::Unsigned(1),
                    CborValue::Array(vec![
                        CborValue::Unsigned(0),
                        CborValue::Unsigned(0),
                        float(-0.0),
                        CborValue::Unsigned(0),
                    ]),
                ])]),
            ),
            (
                "swarm",
                CborValue::Array(vec![
                    float(0.0),
                    float(0.0),
                    CborValue::Unsigned(0),
                    float(0.0),
                    CborValue::Unsigned(2),
                ]),
            ),
            ("policy", CborValue::Array(vec![CborValue::Unsigned(0)])),
            ("monitor", CborValue::Bool(true)),
            ("max_steps", CborValue::Unsigned(10_000)),
            ("dropped_events", CborValue::Array(Vec::new())),
            ("fs_journaling", CborValue::Null),
            ("fault_schedule", CborValue::Array(Vec::new())),
        ];
        let entries = fields
            .into_iter()
            .map(|(n, v)| (CborValue::Text(n.to_string()), v))
            .collect();
        let doc = CborValue::Array(vec![
            CborValue::Unsigned(FORMAT_VERSION),
            CborValue::Dict(entries),
        ]);
        let err = doc.try_to_canonical_bytes().expect_err("must reject -0.0");
        assert_eq!(err, CborError::NonCanonicalFloat);
    }
    {
        assert_eq!(
            probability(f64::NAN).unwrap_err(),
            ProbabilityError::NonFinite
        );
        let fields = vec![
            ("dns", CborValue::Array(Vec::new())),
            ("seed", CborValue::Bytes(vec![0u8; 32])),
            (
                "links",
                CborValue::Array(vec![CborValue::Array(vec![
                    CborValue::Unsigned(0),
                    CborValue::Unsigned(1),
                    CborValue::Array(vec![
                        CborValue::Unsigned(0),
                        CborValue::Unsigned(0),
                        float(f64::NAN),
                        CborValue::Unsigned(0),
                    ]),
                ])]),
            ),
            (
                "swarm",
                CborValue::Array(vec![
                    float(0.0),
                    float(0.0),
                    CborValue::Unsigned(0),
                    float(0.0),
                    CborValue::Unsigned(2),
                ]),
            ),
            ("policy", CborValue::Array(vec![CborValue::Unsigned(0)])),
            ("monitor", CborValue::Bool(true)),
            ("max_steps", CborValue::Unsigned(10_000)),
            ("dropped_events", CborValue::Array(Vec::new())),
            ("fs_journaling", CborValue::Null),
            ("fault_schedule", CborValue::Array(Vec::new())),
        ];
        let entries = fields
            .into_iter()
            .map(|(n, v)| (CborValue::Text(n.to_string()), v))
            .collect();
        let doc = CborValue::Array(vec![
            CborValue::Unsigned(FORMAT_VERSION),
            CborValue::Dict(entries),
        ]);
        let err = doc.try_to_canonical_bytes().expect_err("must reject NAN");
        assert_eq!(err, CborError::NonCanonicalFloat);
    }
    // Bandit pct_mix slot
    {
        let mut fields = minimal_fields();
        set_field(
            &mut fields,
            "policy",
            CborValue::Array(vec![
                CborValue::Unsigned(2),
                float(1.414),
                float(2.0),
            ]),
        );
        let bytes = craft_document(fields);
        assert_eq!(
            from_canonical_bytes(&bytes).unwrap_err(),
            ConfigCanonicalError::ProbabilityOutOfRange("policy.bandit.pct_mix")
        );
    }
    {
        assert_eq!(
            probability(-0.0).unwrap_err(),
            ProbabilityError::OutOfRange
        );
        let fields = vec![
            ("dns", CborValue::Array(Vec::new())),
            ("seed", CborValue::Bytes(vec![0u8; 32])),
            ("links", CborValue::Array(Vec::new())),
            (
                "swarm",
                CborValue::Array(vec![
                    float(0.0),
                    float(0.0),
                    CborValue::Unsigned(0),
                    float(0.0),
                    CborValue::Unsigned(2),
                ]),
            ),
            (
                "policy",
                CborValue::Array(vec![
                    CborValue::Unsigned(2),
                    float(1.414),
                    float(-0.0),
                ]),
            ),
            ("monitor", CborValue::Bool(true)),
            ("max_steps", CborValue::Unsigned(10_000)),
            ("dropped_events", CborValue::Array(Vec::new())),
            ("fs_journaling", CborValue::Null),
            ("fault_schedule", CborValue::Array(Vec::new())),
        ];
        let entries = fields
            .into_iter()
            .map(|(n, v)| (CborValue::Text(n.to_string()), v))
            .collect();
        let doc = CborValue::Array(vec![
            CborValue::Unsigned(FORMAT_VERSION),
            CborValue::Dict(entries),
        ]);
        let err = doc.try_to_canonical_bytes().expect_err("must reject -0.0");
        assert_eq!(err, CborError::NonCanonicalFloat);
    }
    {
        let mut fields = minimal_fields();
        set_field(
            &mut fields,
            "policy",
            CborValue::Array(vec![
                CborValue::Unsigned(2),
                float(1.414),
                float(f64::INFINITY),
            ]),
        );
        let bytes = craft_document(fields);
        assert_eq!(
            from_canonical_bytes(&bytes).unwrap_err(),
            ConfigCanonicalError::NonFiniteFloat("policy.bandit.pct_mix")
        );
    }
}

#[test]
fn roundtrip_stable_hash_over_generated_valid_configs() {
    let valid_probs = [0.0, 0.1, 0.5, 1.0];
    let mut configs = Vec::new();
    for &drop in &valid_probs {
        for &delay in &valid_probs {
            for &crash in &valid_probs {
                for &loss in &valid_probs {
                    for &pct in &valid_probs {
                        let cfg = RunConfig::builder()
                            .swarm(SwarmConfig {
                                drop_probability: probability(drop).unwrap(),
                                delay_probability: probability(delay).unwrap(),
                                max_delay_ticks: 7,
                                crash_probability: probability(crash).unwrap(),
                                fault_classes_per_run: 2,
                            })
                            .links(vec![(
                                0,
                                1,
                                LinkConfig {
                                    base_delay: 1,
                                    jitter: 0,
                                    loss_probability: probability(loss).unwrap(),
                                    reorder_window: 0,
                                    capacity: None,
                                    queue_policy: QueueFullPolicy::Drop,
                                },
                            )])
                            .policy(Policy::Bandit {
                                exploration_constant: 1.414f64.to_bits(),
                                pct_mix: probability(pct).unwrap(),
                            })
                            .build();
                        configs.push(cfg);
                    }
                }
            }
        }
    }
    for cfg in configs {
        let bytes = to_canonical_bytes(&cfg).expect("encodes");
        let decoded = from_canonical_bytes(&bytes).expect("decodes");
        assert_eq!(cfg.swarm(), decoded.swarm());
        assert_eq!(cfg.links(), decoded.links());
        assert_eq!(cfg.policy(), decoded.policy());
        let h1 = canonical_hash(&cfg).expect("hash");
        let h2 = canonical_hash(&decoded).expect("hash decoded");
        assert_eq!(h1, h2);
        let bytes2 = to_canonical_bytes(&decoded).expect("re-encodes");
        assert_eq!(bytes, bytes2);
    }
}

#[test]
fn document_holds_thirteen_keys_in_canonical_order() {
        let bytes = to_canonical_bytes(&RunConfig::default()).expect("encodes");
    let document = CborValue::from_canonical_bytes(&bytes).expect("canonical bytes decode");
    let CborValue::Array(items) = document else {
        panic!("document is [version, map]");
    };
    assert_eq!(items.len(), 2);
    let CborValue::Dict(fields) = &items[1] else {
        panic!("second item is the field map");
    };
    let names: Vec<String> = fields
        .iter()
        .map(|(key, _)| match key {
            CborValue::Text(name) => name.clone(),
            _ => panic!("field key is text"),
        })
        .collect();
    assert_eq!(
        names,
        vec![
            "dns",
            "seed",
            "links",
            "swarm",
            "policy",
            "monitor",
            "max_steps",
            "reorder_draw",
            "fs_journaling",
            "dropped_events",
            "fault_schedule",
            "max_file_extent",
            "max_resident_bytes",
        ]
    );
    assert_eq!(fields.len(), 13, "ten required plus three optional");
}

#[test]
fn bounded_capacity_round_trips_and_joins_the_hash() {
    let base = RunConfig::builder()
        .links(vec![(
            0,
            1,
            LinkConfig {
                reorder_window: 2,
                ..LinkConfig::default()
            },
        )])
        .build();
    let bounded = RunConfig::builder()
        .links(vec![(
            0,
            1,
            LinkConfig {
                reorder_window: 2,
                capacity: Some(4),
                queue_policy: QueueFullPolicy::Block,
                ..LinkConfig::default()
            },
        )])
        .build();
    let base_bytes = to_canonical_bytes(&base).expect("base encodes");
    let bounded_bytes = to_canonical_bytes(&bounded).expect("bounded encodes");
    assert_ne!(
        base_bytes, bounded_bytes,
        "capacity must join the canonical bytes"
    );
    assert_ne!(
        canonical_hash(&base).expect("hash"),
        canonical_hash(&bounded).expect("hash"),
        "capacity must join the boundary hash"
    );
    let decoded = from_canonical_bytes(&bounded_bytes).expect("decodes");
    assert_eq!(decoded.links(), bounded.links());
    assert_eq!(
        to_canonical_bytes(&decoded).expect("re-encodes"),
        bounded_bytes
    );
    // Default queue config stays byte-identical to the 4-item shape.
    let plain = RunConfig::builder()
        .links(vec![(0, 1, LinkConfig::default())])
        .build();
    let plain_bytes = to_canonical_bytes(&plain).expect("encodes");
    let decoded = from_canonical_bytes(&plain_bytes).expect("decodes");
    assert_eq!(decoded.links()[0].2.capacity, None);
    assert_eq!(decoded.links()[0].2.queue_policy, QueueFullPolicy::Drop);
}

#[test]
fn canonical_rejects_oversized_window_and_bad_policy() {
    let bad = RunConfig::builder()
        .links(vec![(
            0,
            1,
            LinkConfig {
                reorder_window: MAX_REORDER_WINDOW + 1,
                ..LinkConfig::default()
            },
        )])
        .build();
    assert_eq!(
        to_canonical_bytes(&bad).expect_err("oversized window"),
        ConfigCanonicalError::InvalidReorderWindow(MAX_REORDER_WINDOW + 1)
    );
    // Craft a 6-item link with an unknown queue-policy tag.
    let link = CborValue::Array(vec![
        CborValue::Unsigned(0),
        CborValue::Unsigned(0),
        CborValue::Array(vec![
            CborValue::Unsigned(0),
            CborValue::Unsigned(0),
            float(0.0),
            CborValue::Unsigned(0),
            CborValue::Null,
            CborValue::Unsigned(7),
        ]),
    ]);
    let mut fields = minimal_fields();
    set_field(&mut fields, "links", CborValue::Array(vec![link]));
    let bytes = craft_document(fields);
    assert_eq!(
        from_canonical_bytes(&bytes).expect_err("bad policy tag"),
        ConfigCanonicalError::InvalidQueuePolicyTag(7)
    );
    // A 5-item link array is neither short (4) nor extended (6).
    let short = CborValue::Array(vec![
        CborValue::Unsigned(0),
        CborValue::Unsigned(1),
        CborValue::Array(vec![
            CborValue::Unsigned(0),
            CborValue::Unsigned(0),
            float(0.0),
            CborValue::Unsigned(0),
            CborValue::Null,
        ]),
    ]);
    let mut fields = minimal_fields();
    set_field(&mut fields, "links", CborValue::Array(vec![short]));
    let bytes = craft_document(fields);
    assert_eq!(
        from_canonical_bytes(&bytes).expect_err("5-item link"),
        ConfigCanonicalError::WrongFieldType("links")
    );
}
