//! What errors say.

use crate::cbor::CborError;
use crate::config_canonical::{ConfigCanonicalError, MAX_DNS_NAME_LEN};
use crate::host::ReplayViolation;
use crate::journal::{JournalError, PayloadFault};
use crate::net::NetError;
use crate::schedule::RuntimeError;
use crate::sentinel::BeltStatus;
use crate::text::{decimal, push_decimal, push_text};
use crate::u64_of_usize;
use vstd::prelude::*;

verus! {

/// What a codec error says.
pub open spec fn cbor_text(e: CborError) -> Seq<char> {
    match e {
        CborError::UnexpectedEnd => "unexpected end of input"@,
        CborError::TrailingBytes => "trailing bytes"@,
        CborError::NonCanonicalInteger => "integer not in shortest form"@,
        CborError::NonCanonicalFloat => "float not in canonical form"@,
        CborError::InvalidUtf8 => "invalid UTF-8 text"@,
        CborError::UnsupportedType => "unsupported item"@,
        CborError::DuplicateKey => "duplicate map key"@,
        CborError::UnsortedKeys => "map keys out of order"@,
        CborError::NestingTooDeep => "nesting too deep"@,
    }
}

impl CborError {
    /// What a codec error says.
    pub fn message(&self) -> (text: String)
        ensures
            text@ == cbor_text(*self),
    {
        let mut out: String = String::new();
        match self {
            CborError::UnexpectedEnd => {
                push_text(&mut out, "unexpected end of input");
            },
            CborError::TrailingBytes => {
                push_text(&mut out, "trailing bytes");
            },
            CborError::NonCanonicalInteger => {
                push_text(&mut out, "integer not in shortest form");
            },
            CborError::NonCanonicalFloat => {
                push_text(&mut out, "float not in canonical form");
            },
            CborError::InvalidUtf8 => {
                push_text(&mut out, "invalid UTF-8 text");
            },
            CborError::UnsupportedType => {
                push_text(&mut out, "unsupported item");
            },
            CborError::DuplicateKey => {
                push_text(&mut out, "duplicate map key");
            },
            CborError::UnsortedKeys => {
                push_text(&mut out, "map keys out of order");
            },
            CborError::NestingTooDeep => {
                push_text(&mut out, "nesting too deep");
            },
        }
        assert(out@ =~= cbor_text(*self));
        out
    }
}

/// What a rejected configuration document is told.
pub open spec fn config_text(e: ConfigCanonicalError) -> Seq<char> {
    match e {
        ConfigCanonicalError::Cbor(error) => "canonical CBOR: "@ + cbor_text(error),
        ConfigCanonicalError::UnsupportedVersion(version) => "unsupported run-config format version: "@ + decimal(version as nat),
        ConfigCanonicalError::WrongDocumentShape => "document is not [version, { fields }]"@,
        ConfigCanonicalError::UnknownField(field) => "unknown run-config field: "@ + field@,
        ConfigCanonicalError::MissingField(field) => "missing run-config field: "@ + field@,
        ConfigCanonicalError::WrongFieldType(field) => "wrong type for run-config field: "@ + field@,
        ConfigCanonicalError::InvalidHashLength { field, len } => field@ + " must be 32 bytes, got "@ + decimal(len as nat),
        ConfigCanonicalError::InvalidPolicyTag(tag) => "unknown policy tag: "@ + decimal(tag as nat),
        ConfigCanonicalError::InvalidFaultTag(tag) => "unknown fault tag: "@ + decimal(tag as nat),
        ConfigCanonicalError::FaultWithoutTag => "fault without a tag"@,
        ConfigCanonicalError::InvalidFsJournalingTag(tag) => "unknown fs_journaling tag: "@ + decimal(tag as nat),
        ConfigCanonicalError::FsJournalingNotSupported => "non-null fs_journaling needs the sim-fs-journaling feature"@,
        ConfigCanonicalError::NonFiniteFloat(field) => "non-finite float in field: "@ + field@,
        ConfigCanonicalError::IntegerOutOfRange(field) => "integer out of range for field: "@ + field@,
        ConfigCanonicalError::InvalidMaxDelayTicks(ticks) => "swarm.max_delay_ticks "@ + decimal(ticks as nat) + " has no representable draw modulus"@,
        ConfigCanonicalError::InvalidLinkJitter(ticks) => "links.jitter "@ + decimal(ticks as nat) + " has no representable draw modulus"@,
        ConfigCanonicalError::InvalidReorderWindow(window) => "links.reorder_window "@ + decimal(window as nat) + " exceeds the bound"@,
        ConfigCanonicalError::InvalidQueuePolicyTag(tag) => "unknown links.queue_policy tag: "@ + decimal(tag as nat),
        ConfigCanonicalError::DnsNameTooLong(len) => "DNS name exceeds "@ + decimal(MAX_DNS_NAME_LEN as nat) + " bytes, got "@ + decimal(len as nat),
        ConfigCanonicalError::DuplicateDnsName(name) => "duplicate DNS name in document: "@ + name@,
        ConfigCanonicalError::ProbabilityOutOfRange(field) => "probability out of range in field: "@ + field@,
    }
}

impl ConfigCanonicalError {
    /// What a rejected configuration document is told.
    pub fn message(&self) -> (text: String)
        ensures
            text@ == config_text(*self),
    {
        let mut out: String = String::new();
        match self {
            ConfigCanonicalError::Cbor(error) => {
                push_text(&mut out, "canonical CBOR: ");
                push_text(&mut out, error.message().as_str());
            },
            ConfigCanonicalError::UnsupportedVersion(version) => {
                push_text(&mut out, "unsupported run-config format version: ");
                push_decimal(&mut out, *version);
            },
            ConfigCanonicalError::WrongDocumentShape => {
                push_text(&mut out, "document is not [version, { fields }]");
            },
            ConfigCanonicalError::UnknownField(field) => {
                push_text(&mut out, "unknown run-config field: ");
                push_text(&mut out, field.as_str());
            },
            ConfigCanonicalError::MissingField(field) => {
                push_text(&mut out, "missing run-config field: ");
                push_text(&mut out, field);
            },
            ConfigCanonicalError::WrongFieldType(field) => {
                push_text(&mut out, "wrong type for run-config field: ");
                push_text(&mut out, field);
            },
            ConfigCanonicalError::InvalidHashLength { field, len } => {
                push_text(&mut out, field);
                push_text(&mut out, " must be 32 bytes, got ");
                push_decimal(&mut out, u64_of_usize(*len));
            },
            ConfigCanonicalError::InvalidPolicyTag(tag) => {
                push_text(&mut out, "unknown policy tag: ");
                push_decimal(&mut out, *tag);
            },
            ConfigCanonicalError::InvalidFaultTag(tag) => {
                push_text(&mut out, "unknown fault tag: ");
                push_decimal(&mut out, *tag);
            },
            ConfigCanonicalError::FaultWithoutTag => {
                push_text(&mut out, "fault without a tag");
            },
            ConfigCanonicalError::InvalidFsJournalingTag(tag) => {
                push_text(&mut out, "unknown fs_journaling tag: ");
                push_decimal(&mut out, *tag);
            },
            ConfigCanonicalError::FsJournalingNotSupported => {
                push_text(&mut out, "non-null fs_journaling needs the sim-fs-journaling feature");
            },
            ConfigCanonicalError::NonFiniteFloat(field) => {
                push_text(&mut out, "non-finite float in field: ");
                push_text(&mut out, field);
            },
            ConfigCanonicalError::IntegerOutOfRange(field) => {
                push_text(&mut out, "integer out of range for field: ");
                push_text(&mut out, field);
            },
            ConfigCanonicalError::InvalidMaxDelayTicks(ticks) => {
                push_text(&mut out, "swarm.max_delay_ticks ");
                push_decimal(&mut out, *ticks);
                push_text(&mut out, " has no representable draw modulus");
            },
            ConfigCanonicalError::InvalidLinkJitter(ticks) => {
                push_text(&mut out, "links.jitter ");
                push_decimal(&mut out, *ticks);
                push_text(&mut out, " has no representable draw modulus");
            },
            ConfigCanonicalError::InvalidReorderWindow(window) => {
                push_text(&mut out, "links.reorder_window ");
                push_decimal(&mut out, u64_of_usize(*window));
                push_text(&mut out, " exceeds the bound");
            },
            ConfigCanonicalError::InvalidQueuePolicyTag(tag) => {
                push_text(&mut out, "unknown links.queue_policy tag: ");
                push_decimal(&mut out, *tag);
            },
            ConfigCanonicalError::DnsNameTooLong(len) => {
                push_text(&mut out, "DNS name exceeds ");
                push_decimal(&mut out, u64_of_usize(MAX_DNS_NAME_LEN));
                push_text(&mut out, " bytes, got ");
                push_decimal(&mut out, u64_of_usize(*len));
            },
            ConfigCanonicalError::DuplicateDnsName(name) => {
                push_text(&mut out, "duplicate DNS name in document: ");
                push_text(&mut out, name.as_str());
            },
            ConfigCanonicalError::ProbabilityOutOfRange(field) => {
                push_text(&mut out, "probability out of range in field: ");
                push_text(&mut out, field);
            },
        }
        assert(out@ =~= config_text(*self));
        out
    }
}

/// What a network failure says.
pub open spec fn net_text(e: NetError) -> Seq<char> {
    match e {
        NetError::QueueFull { from, to, capacity, queued } => "queue full on link "@ + decimal(from as nat) + "->"@ + decimal(to as nat) + ": "@ + decimal(queued as nat) + "/"@ + decimal(capacity as nat),
        NetError::InvalidReorderWindow { window, reason } => "invalid reorder window "@ + decimal(window as nat) + ": "@ + reason@,
    }
}

impl NetError {
    /// What a network failure says.
    pub fn message(&self) -> (text: String)
        ensures
            text@ == net_text(*self),
    {
        let mut out: String = String::new();
        match self {
            NetError::QueueFull { from, to, capacity, queued } => {
                push_text(&mut out, "queue full on link ");
                push_decimal(&mut out, u64_of_usize(*from));
                push_text(&mut out, "->");
                push_decimal(&mut out, u64_of_usize(*to));
                push_text(&mut out, ": ");
                push_decimal(&mut out, u64_of_usize(*queued));
                push_text(&mut out, "/");
                push_decimal(&mut out, u64_of_usize(*capacity));
            },
            NetError::InvalidReorderWindow { window, reason } => {
                push_text(&mut out, "invalid reorder window ");
                push_decimal(&mut out, u64_of_usize(*window));
                push_text(&mut out, ": ");
                push_text(&mut out, reason);
            },
        }
        assert(out@ =~= net_text(*self));
        out
    }
}

/// What a rejected replay is told.
pub open spec fn violation_text(e: ReplayViolation) -> Seq<char> {
    match e {
        ReplayViolation::Exhausted { step } => "no recorded decision for step "@ + decimal(step as nat),
        ReplayViolation::OutOfRange { step, decision, ready } => "decision "@ + decimal(decision as nat) + " at step "@ + decimal(step as nat) + " is outside "@ + decimal(ready as nat) + " ready tasks"@,
        ReplayViolation::Trailing { consumed, recorded } => decimal(consumed as nat) + " of "@ + decimal(recorded as nat) + " recorded decisions used"@,
    }
}

impl ReplayViolation {
    /// What a rejected replay is told.
    pub fn message(&self) -> (text: String)
        ensures
            text@ == violation_text(*self),
    {
        let mut out: String = String::new();
        match self {
            ReplayViolation::Exhausted { step } => {
                push_text(&mut out, "no recorded decision for step ");
                push_decimal(&mut out, u64_of_usize(*step));
            },
            ReplayViolation::OutOfRange { step, decision, ready } => {
                push_text(&mut out, "decision ");
                push_decimal(&mut out, u64_of_usize(*decision));
                push_text(&mut out, " at step ");
                push_decimal(&mut out, u64_of_usize(*step));
                push_text(&mut out, " is outside ");
                push_decimal(&mut out, u64_of_usize(*ready));
                push_text(&mut out, " ready tasks");
            },
            ReplayViolation::Trailing { consumed, recorded } => {
                push_decimal(&mut out, u64_of_usize(*consumed));
                push_text(&mut out, " of ");
                push_decimal(&mut out, u64_of_usize(*recorded));
                push_text(&mut out, " recorded decisions used");
            },
        }
        assert(out@ =~= violation_text(*self));
        out
    }
}

/// The state of the process belt in words.
pub open spec fn belt_text(e: BeltStatus) -> Seq<char> {
    match e {
        BeltStatus::Active { layers } => "active with "@ + decimal(layers as nat) + " layers"@,
        BeltStatus::NotArmed => "not armed"@,
        BeltStatus::Unavailable => "unavailable"@,
        BeltStatus::Failed(error) => "failed: "@ + error@,
    }
}

impl BeltStatus {
    /// The state of the process belt in words.
    pub fn message(&self) -> (text: String)
        ensures
            text@ == belt_text(*self),
    {
        let mut out: String = String::new();
        match self {
            BeltStatus::Active { layers } => {
                push_text(&mut out, "active with ");
                push_decimal(&mut out, *layers as u64);
                push_text(&mut out, " layers");
            },
            BeltStatus::NotArmed => {
                push_text(&mut out, "not armed");
            },
            BeltStatus::Unavailable => {
                push_text(&mut out, "unavailable");
            },
            BeltStatus::Failed(error) => {
                push_text(&mut out, "failed: ");
                push_text(&mut out, error.as_str());
            },
        }
        assert(out@ =~= belt_text(*self));
        out
    }
}

/// What is wrong with a payload.
pub open spec fn payload_fault_text(e: PayloadFault) -> Seq<char> {
    match e {
        PayloadFault::MessageTooLong { length, limit } => "message of "@ + decimal(length as nat) + " bytes exceeds "@ + decimal(limit as nat),
        PayloadFault::UnknownCrashState { identifier } => "unknown crash state "@ + decimal(identifier as nat),
        PayloadFault::SwarmCrashRejected { reason } => "sampled crash rejected for reason "@ + decimal(reason as nat),
        PayloadFault::CorruptRejected { reason } => "corruption rejected for reason "@ + decimal(reason as nat),
        PayloadFault::CrashStateRejected { reason } => "crash state rejected for reason "@ + decimal(reason as nat),
        PayloadFault::Refused { reason } => "payload refused for reason "@ + decimal(reason as nat),
    }
}

impl PayloadFault {
    /// What is wrong with a payload.
    pub fn message(&self) -> (text: String)
        ensures
            text@ == payload_fault_text(*self),
    {
        let mut out: String = String::new();
        match self {
            PayloadFault::MessageTooLong { length, limit } => {
                push_text(&mut out, "message of ");
                push_decimal(&mut out, *length);
                push_text(&mut out, " bytes exceeds ");
                push_decimal(&mut out, *limit);
            },
            PayloadFault::UnknownCrashState { identifier } => {
                push_text(&mut out, "unknown crash state ");
                push_decimal(&mut out, *identifier);
            },
            PayloadFault::SwarmCrashRejected { reason } => {
                push_text(&mut out, "sampled crash rejected for reason ");
                push_decimal(&mut out, *reason);
            },
            PayloadFault::CorruptRejected { reason } => {
                push_text(&mut out, "corruption rejected for reason ");
                push_decimal(&mut out, *reason);
            },
            PayloadFault::CrashStateRejected { reason } => {
                push_text(&mut out, "crash state rejected for reason ");
                push_decimal(&mut out, *reason);
            },
            PayloadFault::Refused { reason } => {
                push_text(&mut out, "payload refused for reason ");
                push_decimal(&mut out, *reason);
            },
        }
        assert(out@ =~= payload_fault_text(*self));
        out
    }
}

/// What a failed append says.
pub open spec fn journal_text(e: JournalError) -> Seq<char> {
    match e {
        JournalError::InvalidPayload(fault) => "invalid payload: "@ + payload_fault_text(fault),
        JournalError::MissingParent(_) => "missing parent"@,
        JournalError::NonMonotonicSequence { actor, expected, actual } => "actor "@ + decimal(actor.0 as nat) + " expected sequence "@ + decimal(expected as nat) + ", got "@ + decimal(actual as nat),
    }
}

impl JournalError {
    /// What a failed append says.
    pub fn message(&self) -> (text: String)
        ensures
            text@ == journal_text(*self),
    {
        let mut out: String = String::new();
        match self {
            JournalError::InvalidPayload(fault) => {
                push_text(&mut out, "invalid payload: ");
                push_text(&mut out, fault.message().as_str());
            },
            JournalError::MissingParent(_) => {
                push_text(&mut out, "missing parent");
            },
            JournalError::NonMonotonicSequence { actor, expected, actual } => {
                push_text(&mut out, "actor ");
                push_decimal(&mut out, actor.0 as u64);
                push_text(&mut out, " expected sequence ");
                push_decimal(&mut out, *expected);
                push_text(&mut out, ", got ");
                push_decimal(&mut out, *actual);
            },
        }
        assert(out@ =~= journal_text(*self));
        out
    }
}

/// What a rejected run is told.
pub open spec fn runtime_text(e: RuntimeError) -> Seq<char> {
    match e {
        RuntimeError::Journal(error) => "journal error: "@ + journal_text(error),
        RuntimeError::StepLimit { limit } => "simulation exceeded "@ + decimal(limit as nat) + " steps"@,
        RuntimeError::StrictReplay(violation) => "strict replay violation: "@ + violation_text(violation),
        RuntimeError::Belt(status) => "belt not active while required: "@ + belt_text(status),
        RuntimeError::UnknownTask { task } => "timer fired for unknown task "@ + decimal(task as nat),
        RuntimeError::UnknownChoice { choice: position, ready } => "choice "@ + decimal(position as nat) + " is outside "@ + decimal(ready as nat) + " ready tasks"@,
        RuntimeError::BrokenTrace { position } => "trace does not fit its run at position "@ + decimal(position as nat),
    }
}

impl RuntimeError {
    /// What a rejected run is told.
    pub fn message(&self) -> (text: String)
        ensures
            text@ == runtime_text(*self),
    {
        let mut out: String = String::new();
        match self {
            RuntimeError::Journal(error) => {
                push_text(&mut out, "journal error: ");
                push_text(&mut out, error.message().as_str());
            },
            RuntimeError::StepLimit { limit } => {
                push_text(&mut out, "simulation exceeded ");
                push_decimal(&mut out, u64_of_usize(*limit));
                push_text(&mut out, " steps");
            },
            RuntimeError::StrictReplay(violation) => {
                push_text(&mut out, "strict replay violation: ");
                push_text(&mut out, violation.message().as_str());
            },
            RuntimeError::Belt(status) => {
                push_text(&mut out, "belt not active while required: ");
                push_text(&mut out, status.message().as_str());
            },
            RuntimeError::UnknownTask { task } => {
                push_text(&mut out, "timer fired for unknown task ");
                push_decimal(&mut out, u64_of_usize(*task));
            },
            RuntimeError::UnknownChoice { choice: position, ready } => {
                push_text(&mut out, "choice ");
                push_decimal(&mut out, u64_of_usize(*position));
                push_text(&mut out, " is outside ");
                push_decimal(&mut out, u64_of_usize(*ready));
                push_text(&mut out, " ready tasks");
            },
            RuntimeError::BrokenTrace { position } => {
                push_text(&mut out, "trace does not fit its run at position ");
                push_decimal(&mut out, u64_of_usize(*position));
            },
        }
        assert(out@ =~= runtime_text(*self));
        out
    }
}

} // verus!
