use ledger_sim::config::{JournalingMode, Policy, RunConfig, SimFault, SwarmConfig};
use ledger_sim::dns::DnsTable;
use ledger_sim::ids::{ActorId, EntryHash};
use ledger_sim::net::{LinkConfig, QueueFullPolicy};
use ledger_sim::probability::{Probability, ProbabilityError};

fn probability(value: f64) -> Result<Probability, ProbabilityError> {
    Probability::new(value.to_bits())
}

fn value_of(p: Probability) -> f64 {
    f64::from_bits(p.to_bits())
}

#[test]
fn builder_default_matches_run_config_default() {
    let via_builder = RunConfig::builder().build();
    let via_default = RunConfig::default();
    assert_eq!(via_builder.seed(), via_default.seed());
    assert_eq!(via_builder.policy(), via_default.policy());
    assert_eq!(via_builder.max_steps(), via_default.max_steps());
    assert_eq!(via_builder.dropped_events(), via_default.dropped_events());
    assert_eq!(via_builder.swarm(), via_default.swarm());
    assert_eq!(via_builder.links(), via_default.links());
    assert_eq!(via_builder.dns().len(), via_default.dns().len());
    assert_eq!(via_builder.fault_schedule(), via_default.fault_schedule());
    assert_eq!(via_builder.monitor(), via_default.monitor());
    assert_eq!(via_builder.fs_journaling(), via_default.fs_journaling());
}

#[test]
fn builder_round_trips_all_fields() {
    let seed = EntryHash([7u8; 32]);
    let policy = Policy::Pct {
        priority_changes: 3,
    };
    let max_steps = 42_042;
    let dropped = vec![EntryHash([1u8; 32]), EntryHash([2u8; 32])];
    let swarm = SwarmConfig {
        drop_probability: probability(0.3).unwrap(),
        delay_probability: probability(0.2).unwrap(),
        max_delay_ticks: 7,
        crash_probability: probability(0.1).unwrap(),
        fault_classes_per_run: 5,
    };
    let links = vec![(
        0,
        1,
        LinkConfig {
            base_delay: 5,
            jitter: 2,
            loss_probability: probability(0.1).unwrap(),
            reorder_window: 3,
            capacity: None,
            queue_policy: QueueFullPolicy::Drop,
        },
    )];
    let mut dns = DnsTable::new();
    dns.insert("alpha.test", 1);
    dns.insert("beta.test", 2);
    let faults = vec![SimFault::Partition {
        src: ActorId(0),
        dst: ActorId(1),
    }];
    let cfg = RunConfig::builder()
        .seed(seed)
        .policy(policy)
        .max_steps(max_steps)
        .dropped_events(dropped.clone())
        .swarm(swarm.clone())
        .links(links.clone())
        .dns(dns.clone())
        .fault_schedule(faults.clone())
        .monitor(false)
        .build();
    assert_eq!(cfg.seed(), seed);
    assert_eq!(cfg.policy(), policy);
    assert_eq!(cfg.max_steps(), max_steps);
    assert_eq!(cfg.dropped_events(), dropped.as_slice());
    assert_eq!(cfg.swarm(), &swarm);
    assert_eq!(cfg.links(), links.as_slice());
    assert_eq!(cfg.dns().len(), 2);
    assert_eq!(cfg.dns().resolve("alpha.test"), Some(1));
    assert_eq!(cfg.fault_schedule(), faults.as_slice());
    assert!(!cfg.monitor());
}
#[test]
fn fs_journaling_round_trips_via_builder() {
    let cfg = RunConfig::builder()
        .fs_journaling(Some(JournalingMode::Writeback))
        .build();
    assert_eq!(cfg.fs_journaling(), Some(JournalingMode::Writeback));
    let cfg2 = RunConfig::builder()
        .fs_journaling(Some(JournalingMode::Data))
        .build();
    assert_eq!(cfg2.fs_journaling(), Some(JournalingMode::Data));
    let cfg3 = RunConfig::builder().fs_journaling(None).build();
    assert_eq!(cfg3.fs_journaling(), None);
}
#[test]
fn builder_fs_journaling_default_is_none() {
    let cfg = RunConfig::builder().build();
    assert_eq!(cfg.fs_journaling(), None);
}

#[test]
fn probability_constructor_matrix() {
    assert!(probability(0.0).is_ok());
    assert!(probability(1.0).is_ok());
    assert_eq!(value_of(probability(0.5).unwrap()), 0.5);
    assert_eq!(value_of(Probability::zero()), 0.0);
    assert_eq!(value_of(Probability::one()), 1.0);
    assert_eq!(
        probability(-0.0).unwrap_err(),
        ProbabilityError::OutOfRange
    );
    assert_eq!(
        probability(1.0000001).unwrap_err(),
        ProbabilityError::OutOfRange
    );
    assert_eq!(
        probability(f64::NAN).unwrap_err(),
        ProbabilityError::NonFinite
    );
    assert_eq!(
        probability(f64::INFINITY).unwrap_err(),
        ProbabilityError::NonFinite
    );
    assert_eq!(
        probability(f64::NEG_INFINITY).unwrap_err(),
        ProbabilityError::NonFinite
    );
    assert_eq!(
        probability(-0.5).unwrap_err(),
        ProbabilityError::OutOfRange
    );
    assert_eq!(
        probability(2.0).unwrap_err(),
        ProbabilityError::OutOfRange
    );
}
