//! Versioned canonical encoding for [`RunConfig`].
//!
//! Format version 1 layout, core deterministic CBOR:
//!
//! ```text
//! document := [ 1, { fields } ]
//! ```
//!
//! The outer array carries the format version as its first item and the field
//! map as its second. The map has exactly thirteen keys, ten required and
//! three optional with defaults; the encoder emits them in canonical key
//! order and the decoder rejects any unsorted, duplicate, or unknown key and
//! any missing required key.
//!
//! Canonical key order (encoded key length, then bytewise):
//!
//! ```text
//! dns, seed, links, swarm, policy, monitor, max_steps,
//! reorder_draw, fs_journaling, dropped_events, fault_schedule,
//! max_file_extent, max_resident_bytes
//! ```
//!
//! Field encodings:
//!
//! ```text
//! dns             := [ [ text name, unsigned actor ], ... ]  sorted by name
//! seed            := bytes(32)
//! links           := [ [ unsigned from, unsigned to,
//!                        [ unsigned base_delay, unsigned jitter,
//!                          float loss_probability, unsigned reorder_window
//!                          (, null | unsigned capacity,
//!                             unsigned queue_policy)? ] ], ... ]
//! swarm           := [ float drop_probability, float delay_probability,
//!                      unsigned max_delay_ticks, float crash_probability,
//!                      unsigned fault_classes_per_run ]
//! policy          := [ unsigned tag, ...payload ]
//! monitor         := bool
//! max_steps       := unsigned
//! dropped_events  := [ bytes(32), ... ]
//! fs_journaling   := null | unsigned mode      (0 = writeback, 1 = ordered, 2 = data)
//! fault_schedule  := [ [ unsigned tag, ...payload ], ... ]
//! reorder_draw    := bool                      (optional, default false)
//! max_file_extent := null | unsigned           (optional, default null)
//! max_resident_bytes := null | unsigned        (optional, default null)
//! ```
//!
//! A link with the default bounded-queue config (`capacity` none,
//! `queue_policy` drop) encodes as the 4-item array. A link with a bound or a
//! non-default policy encodes as a 6-item array with `capacity` (`null` for
//! explicit unbounded, unsigned otherwise) and `queue_policy` (`0` drop, `1`
//! block) appended. The decoder accepts 4 (defaults) or 6 (explicit) and
//! rejects any other length.
//!
//! Policy tags and payloads:
//!
//! ```text
//! 0 random  := [ 0 ]
//! 1 pct     := [ 1, unsigned priority_changes ]
//! 2 bandit  := [ 2, float exploration_constant, float pct_mix ]
//! 3 replay  := [ 3 ]
//! 4 dpor    := [ 4 ]
//! ```
//!
//! Fault tags and payloads:
//!
//! ```text
//! 0 drop        := [ 0, bytes(32) id ]
//! 1 delay       := [ 1, bytes(32) send, unsigned ticks ]
//! 2 partition   := [ 2, unsigned src, unsigned dst ]
//! 3 crash       := [ 3, bytes(32) id ]
//! 4 corrupt     := [ 4, bytes(32) write, unsigned xor_mask ]
//! 5 crash_state := [ 5, bytes(32) write, unsigned state ]
//! ```
//!
//! The format has no tag for duplicate faults; a schedule that holds one has
//! no canonical bytes.

use crate::cbor::{
    content, contents, encoded, entry_contents, lemma_contents_index, lemma_entry_contents_index,
    parsed, Cbor, CborError, CborValue,
};
use crate::config::{
    JournalingMode, Policy, RunConfig, RunConfigBuilder, RunModel, SimFault, SwarmConfig,
};
use crate::config_laws::{valid_link, valid_model, valid_policy, valid_swarm};
use crate::digest::{blake3_digest, hash_bytes};
use crate::dns::{ascending, resolved, with_name, DnsTable};
use crate::float::{finite, is_finite};
use crate::ids::{lemma_hash_determined_by_bytes, ActorId, EntryHash};
use crate::net::{LinkConfig, QueueFullPolicy, MAX_REORDER_WINDOW};
use crate::probability::{
    lemma_probability_of_bits, lemma_same_bits, probability_bits, probability_of_bits, Probability,
};
use crate::text::same_text;
use vstd::prelude::*;
use vstd::utf8::encode_utf8;

verus! {

/// Current format version of the canonical configuration bytes.
pub const FORMAT_VERSION: u64 = 1;

/// Hard bound on one encoded DNS name, in bytes.
///
/// Bounds hostile input before the name joins the decode-side DNS table.
pub const MAX_DNS_NAME_LEN: usize = 255;

/// Typed errors from encoding or decoding canonical configuration bytes.
#[derive(Debug, Clone, PartialEq, Eq)]
pub enum ConfigCanonicalError {
    /// The underlying canonical CBOR codec rejected the value or bytes.
    Cbor(CborError),
    /// The document does not carry the current [`FORMAT_VERSION`].
    UnsupportedVersion(u64),
    /// The document is not the `[version, { fields }]` shape.
    WrongDocumentShape,
    /// The field map holds a key this format does not define.
    UnknownField(String),
    /// The field map omits a required field.
    MissingField(&'static str),
    /// A field holds a value of the wrong CBOR kind.
    WrongFieldType(&'static str),
    /// A 32-byte hash field (seed, dropped event, fault id) has another length.
    InvalidHashLength {
        /// Field name carrying the bad hash.
        field: &'static str,
        /// Actual byte length.
        len: usize,
    },
    /// The policy array carries an unknown tag.
    InvalidPolicyTag(u64),
    /// A fault array carries an unknown tag.
    InvalidFaultTag(u64),
    /// The fault schedule holds a fault that the format has no tag for.
    FaultWithoutTag,
    /// The `fs_journaling` field carries an unknown mode tag.
    InvalidFsJournalingTag(u64),
    /// The document requests a journaling-FS mode that the storage at hand
    /// lacks. Decoding itself knows every mode and never returns this.
    FsJournalingNotSupported,
    /// A float field is `NaN` or infinite.
    NonFiniteFloat(&'static str),
    /// A `usize` field does not fit the target pointer width.
    IntegerOutOfRange(&'static str),
    /// The swarm delay bound has no representable draw modulus.
    ///
    /// A bound of `u64::MAX` needs the modulus `2^64`, which does not fit the
    /// wire format or the draw arithmetic.
    InvalidMaxDelayTicks(u64),
    /// A link jitter bound has no representable draw modulus.
    ///
    /// `jitter == u64::MAX` would need the modulus `2^64`; the draw saturates
    /// as a direct-construction fallback, but the canonical codec
    /// rejects the value outright.
    InvalidLinkJitter(u64),
    /// A link reorder window exceeds the representable bound.
    InvalidReorderWindow(usize),
    /// A link queue-policy tag is not `0` (drop) or `1` (block).
    InvalidQueuePolicyTag(u64),
    /// A DNS name exceeds [`MAX_DNS_NAME_LEN`] bytes.
    DnsNameTooLong(usize),
    /// Two DNS entries carry the same name; the table would collapse them.
    DuplicateDnsName(String),
    /// A probability field is outside 0.0 ..= 1.0 or is -0.0.
    ProbabilityOutOfRange(&'static str),
}

/// The mathematical content of a [`ConfigCanonicalError`].
pub enum Rejection {
    /// An error that holds no text of the document.
    Plain(ConfigCanonicalError),
    UnknownField(Seq<char>),
    DuplicateDnsName(Seq<char>),
}

impl View for ConfigCanonicalError {
    type V = Rejection;

    open spec fn view(&self) -> Rejection {
        match *self {
            ConfigCanonicalError::UnknownField(name) => Rejection::UnknownField(name@),
            ConfigCanonicalError::DuplicateDnsName(name) => Rejection::DuplicateDnsName(name@),
            _ => Rejection::Plain(*self),
        }
    }
}

/// A field value of the wrong kind.
pub open spec fn wrong_type<T>(field: &'static str) -> Result<T, Rejection> {
    Err(Rejection::Plain(ConfigCanonicalError::WrongFieldType(field)))
}

// ---------------------------------------------------------------------------
// What a configuration encodes to.
// ---------------------------------------------------------------------------

/// A machine word as a CBOR integer.
pub open spec fn word(n: usize) -> Cbor {
    Cbor::Unsigned(n as u64)
}

/// An optional integer; nothing is null.
pub open spec fn optional(n: Option<u64>) -> Cbor {
    match n {
        Some(n) => Cbor::Unsigned(n),
        None => Cbor::Null,
    }
}

/// Encoded hostname table.
pub open spec fn dns_value(dns: Seq<(Seq<char>, usize)>) -> Cbor {
    Cbor::Array(
        dns.map_values(|e: (Seq<char>, usize)| Cbor::Array(seq![Cbor::Text(e.0), word(e.1)])),
    )
}

/// Encoded list of hashes.
pub open spec fn hashes_value(hashes: Seq<EntryHash>) -> Cbor {
    Cbor::Array(hashes.map_values(|h: EntryHash| Cbor::Bytes(h@)))
}

/// Encoded queue policy.
pub open spec fn queue_policy_value(policy: QueueFullPolicy) -> Cbor {
    match policy {
        QueueFullPolicy::Drop => Cbor::Unsigned(0),
        QueueFullPolicy::Block => Cbor::Unsigned(1),
    }
}

/// Encoded capacity of a bounded link.
pub open spec fn capacity_value(capacity: Option<usize>) -> Cbor {
    match capacity {
        Some(cap) => word(cap),
        None => Cbor::Null,
    }
}

/// Encoded link config: four items with the default queue, else six.
pub open spec fn link_value(link: LinkConfig) -> Result<Cbor, ConfigCanonicalError> {
    if link.jitter == u64::MAX {
        Err(ConfigCanonicalError::InvalidLinkJitter(link.jitter))
    } else if link.reorder_window > MAX_REORDER_WINDOW {
        Err(ConfigCanonicalError::InvalidReorderWindow(link.reorder_window))
    } else {
        let plain = seq![
            Cbor::Unsigned(link.base_delay),
            Cbor::Unsigned(link.jitter),
            Cbor::Float(link.loss_probability@),
            word(link.reorder_window),
        ];
        Ok(
            Cbor::Array(
                if link.capacity is None && link.queue_policy == QueueFullPolicy::Drop {
                    plain
                } else {
                    plain.push(capacity_value(link.capacity)).push(
                        queue_policy_value(link.queue_policy),
                    )
                },
            ),
        )
    }
}

/// Encoded links in order; the first link without encoding decides the error.
pub open spec fn links_value(links: Seq<(usize, usize, LinkConfig)>) -> Result<
    Seq<Cbor>,
    ConfigCanonicalError,
>
    decreases links.len(),
{
    if links.len() == 0 {
        Ok(Seq::empty())
    } else {
        match links_value(links.drop_last()) {
            Err(e) => Err(e),
            Ok(front) => match link_value(links.last().2) {
                Err(e) => Err(e),
                Ok(link) => Ok(
                    front.push(
                        Cbor::Array(seq![word(links.last().0), word(links.last().1), link]),
                    ),
                ),
            },
        }
    }
}

/// Encoded swarm parameters.
pub open spec fn swarm_value(swarm: SwarmConfig) -> Result<Cbor, ConfigCanonicalError> {
    if swarm.max_delay_ticks == u64::MAX {
        Err(ConfigCanonicalError::InvalidMaxDelayTicks(swarm.max_delay_ticks))
    } else {
        Ok(
            Cbor::Array(
                seq![
                    Cbor::Float(swarm.drop_probability@),
                    Cbor::Float(swarm.delay_probability@),
                    Cbor::Unsigned(swarm.max_delay_ticks),
                    Cbor::Float(swarm.crash_probability@),
                    word(swarm.fault_classes_per_run),
                ],
            ),
        )
    }
}

/// Encoded scheduling policy.
pub open spec fn policy_value(policy: Policy) -> Result<Cbor, ConfigCanonicalError> {
    match policy {
        Policy::Random => Ok(Cbor::Array(seq![Cbor::Unsigned(0)])),
        Policy::Pct { priority_changes } => Ok(
            Cbor::Array(seq![Cbor::Unsigned(1), word(priority_changes)]),
        ),
        Policy::Bandit { exploration_constant, pct_mix } => if !finite(exploration_constant) {
            Err(ConfigCanonicalError::NonFiniteFloat("policy.bandit.exploration_constant"))
        } else {
            Ok(
                Cbor::Array(
                    seq![
                        Cbor::Unsigned(2),
                        Cbor::Float(exploration_constant),
                        Cbor::Float(pct_mix@),
                    ],
                ),
            )
        },
        Policy::Replay => Ok(Cbor::Array(seq![Cbor::Unsigned(3)])),
        Policy::Dpor => Ok(Cbor::Array(seq![Cbor::Unsigned(4)])),
    }
}

/// Encoded fault.
pub open spec fn fault_value(fault: SimFault) -> Result<Cbor, ConfigCanonicalError> {
    match fault {
        SimFault::Drop(id) => Ok(Cbor::Array(seq![Cbor::Unsigned(0), Cbor::Bytes(id@)])),
        SimFault::Delay { send, ticks } => Ok(
            Cbor::Array(seq![Cbor::Unsigned(1), Cbor::Bytes(send@), Cbor::Unsigned(ticks)]),
        ),
        SimFault::Partition { src, dst } => Ok(
            Cbor::Array(
                seq![Cbor::Unsigned(2), Cbor::Unsigned(src.0 as u64), Cbor::Unsigned(dst.0 as u64)],
            ),
        ),
        SimFault::Crash(id) => Ok(Cbor::Array(seq![Cbor::Unsigned(3), Cbor::Bytes(id@)])),
        SimFault::Corrupt { write, xor_mask } => Ok(
            Cbor::Array(seq![Cbor::Unsigned(4), Cbor::Bytes(write@), Cbor::Unsigned(xor_mask)]),
        ),
        SimFault::CrashState { write, state } => Ok(
            Cbor::Array(seq![Cbor::Unsigned(5), Cbor::Bytes(write@), Cbor::Unsigned(state)]),
        ),
        SimFault::Duplicate { .. } => Err(ConfigCanonicalError::FaultWithoutTag),
    }
}

/// Encoded faults in order; the first fault without encoding decides the error.
pub open spec fn faults_value(faults: Seq<SimFault>) -> Result<Seq<Cbor>, ConfigCanonicalError>
    decreases faults.len(),
{
    if faults.len() == 0 {
        Ok(Seq::empty())
    } else {
        match faults_value(faults.drop_last()) {
            Err(e) => Err(e),
            Ok(front) => match fault_value(faults.last()) {
                Err(e) => Err(e),
                Ok(fault) => Ok(front.push(fault)),
            },
        }
    }
}

/// Encoded journaling mode.
pub open spec fn fs_journaling_value(mode: Option<JournalingMode>) -> Cbor {
    match mode {
        None => Cbor::Null,
        Some(JournalingMode::Writeback) => Cbor::Unsigned(0),
        Some(JournalingMode::Ordered) => Cbor::Unsigned(1),
        Some(JournalingMode::Data) => Cbor::Unsigned(2),
    }
}

/// The field map with its fallible parts already encoded.
pub open spec fn field_entries(
    m: RunModel,
    links: Seq<Cbor>,
    swarm: Cbor,
    policy: Cbor,
    faults: Seq<Cbor>,
) -> Seq<(Cbor, Cbor)> {
    seq![
        (Cbor::Text("dns"@), dns_value(m.dns)),
        (Cbor::Text("seed"@), Cbor::Bytes(m.seed@)),
        (Cbor::Text("links"@), Cbor::Array(links)),
        (Cbor::Text("swarm"@), swarm),
        (Cbor::Text("policy"@), policy),
        (Cbor::Text("monitor"@), Cbor::Bool(m.monitor)),
        (Cbor::Text("max_steps"@), word(m.max_steps)),
        (Cbor::Text("reorder_draw"@), Cbor::Bool(m.reorder_draw)),
        (Cbor::Text("fs_journaling"@), fs_journaling_value(m.fs_journaling)),
        (Cbor::Text("dropped_events"@), hashes_value(m.dropped_events)),
        (Cbor::Text("fault_schedule"@), Cbor::Array(faults)),
        (Cbor::Text("max_file_extent"@), optional(m.max_file_extent)),
        (Cbor::Text("max_resident_bytes"@), optional(m.max_resident_bytes)),
    ]
}

/// The field map of a configuration.
pub open spec fn fields_of(m: RunModel) -> Result<Seq<(Cbor, Cbor)>, ConfigCanonicalError> {
    match links_value(m.links) {
        Err(e) => Err(e),
        Ok(links) => match swarm_value(m.swarm) {
            Err(e) => Err(e),
            Ok(swarm) => match policy_value(m.policy) {
                Err(e) => Err(e),
                Ok(policy) => match faults_value(m.fault_schedule) {
                    Err(e) => Err(e),
                    Ok(faults) => Ok(field_entries(m, links, swarm, policy, faults)),
                },
            },
        },
    }
}

/// The document of a configuration.
pub open spec fn document(m: RunModel) -> Result<Cbor, ConfigCanonicalError> {
    match fields_of(m) {
        Err(e) => Err(e),
        Ok(fields) => Ok(Cbor::Array(seq![Cbor::Unsigned(FORMAT_VERSION), Cbor::Dict(fields)])),
    }
}

/// The canonical bytes of a configuration, or why it has none.
pub open spec fn config_bytes(m: RunModel) -> Result<Seq<u8>, ConfigCanonicalError> {
    match document(m) {
        Err(e) => Err(e),
        Ok(doc) => match encoded(doc) {
            Err(e) => Err(ConfigCanonicalError::Cbor(e)),
            Ok(b) => Ok(b),
        },
    }
}

/// An array of the given items.
fn array_of(items: Vec<CborValue>) -> (v: CborValue)
    ensures
        v@ == Cbor::Array(Seq::new(items@.len(), |i: int| items@[i]@)),
{
    proof {
        lemma_contents_index(items@);
        assert(contents(items@) =~= Seq::new(items@.len(), |i: int| items@[i]@));
    }
    CborValue::Array(items)
}

/// A copy of the bytes of a hash.
fn hash_bytes_of(hash: &EntryHash) -> (out: Vec<u8>)
    ensures
        out@ == hash@,
{
    let mut out: Vec<u8> = Vec::new();
    let mut i: usize = 0;
    while i < 32
        invariant
            i <= 32,
            out@ == hash@.take(i as int),
        decreases 32 - i,
    {
        out.push(hash.0[i]);
        i = i + 1;
        assert(out@ =~= hash@.take(i as int));
    }
    assert(hash@.take(32) =~= hash@);
    out
}

fn encode_word(n: usize) -> (v: CborValue)
    ensures
        v@ == word(n),
{
    CborValue::Unsigned(crate::u64_of_usize(n))
}

fn encode_optional(n: Option<u64>) -> (v: CborValue)
    ensures
        v@ == optional(n),
{
    match n {
        Some(n) => CborValue::Unsigned(n),
        None => CborValue::Null,
    }
}

fn encode_dns(dns: &DnsTable) -> (v: CborValue)
    ensures
        v@ == dns_value(dns@),
        ascending(dns@),
        dns@.len() <= usize::MAX,
        forall|j: int|
            0 <= j < dns@.len() ==> encode_utf8((#[trigger] dns@[j]).0).len() <= usize::MAX,
{
    let entries: Vec<(&str, usize)> = dns.iter();
    let mut items: Vec<CborValue> = Vec::new();
    let mut i: usize = 0;
    while i < entries.len()
        invariant
            i <= entries@.len() == dns@.len(),
            items@.len() == i,
            forall|j: int|
                0 <= j < dns@.len() ==> (#[trigger] entries@[j]).0@ == dns@[j].0 && entries@[j].1
                    == dns@[j].1,
            forall|j: int|
                0 <= j < i ==> (#[trigger] items@[j])@ == Cbor::Array(
                    seq![Cbor::Text(dns@[j].0), word(dns@[j].1)],
                ),
            forall|j: int|
                0 <= j < i ==> encode_utf8((#[trigger] dns@[j]).0).len() <= usize::MAX,
        decreases entries@.len() - i,
    {
        let size: usize = entries[i].0.as_bytes().len();
        assert(encode_utf8(dns@[i as int].0).len() == size);
        let pair: Vec<CborValue> = vec![
            CborValue::Text(entries[i].0.to_owned()),
            encode_word(entries[i].1),
        ];
        let ghost pair_items = pair@;
        let item: CborValue = array_of(pair);
        assert(Seq::new(2, |k: int| pair_items[k]@) =~= seq![
            Cbor::Text(dns@[i as int].0),
            word(dns@[i as int].1),
        ]);
        items.push(item);
        i = i + 1;
    }
    let ghost all = items@;
    let v: CborValue = array_of(items);
    assert(Seq::new(all.len(), |k: int| all[k]@) =~= dns@.map_values(
        |e: (Seq<char>, usize)| Cbor::Array(seq![Cbor::Text(e.0), word(e.1)]),
    ));
    v
}

fn encode_hashes(hashes: &[EntryHash]) -> (v: CborValue)
    ensures
        v@ == hashes_value(hashes@),
        hashes@.len() <= usize::MAX,
{
    let size: usize = hashes.len();
    assert(hashes@.len() == size);
    let mut items: Vec<CborValue> = Vec::new();
    let mut i: usize = 0;
    while i < hashes.len()
        invariant
            i <= hashes@.len(),
            items@.len() == i,
            forall|j: int| 0 <= j < i ==> (#[trigger] items@[j])@ == Cbor::Bytes(hashes@[j]@),
        decreases hashes@.len() - i,
    {
        items.push(CborValue::Bytes(hash_bytes_of(&hashes[i])));
        i = i + 1;
    }
    let ghost all = items@;
    let v: CborValue = array_of(items);
    assert(Seq::new(all.len(), |k: int| all[k]@) =~= hashes@.map_values(
        |h: EntryHash| Cbor::Bytes(h@),
    ));
    v
}

fn encode_link(link: &LinkConfig) -> (r: Result<CborValue, ConfigCanonicalError>)
    ensures
        match link_value(*link) {
            Ok(c) => r matches Ok(v) && v@ == c,
            Err(e) => r == Err::<CborValue, ConfigCanonicalError>(e),
        },
        r is Ok ==> valid_link(*link),
{
    if link.jitter == u64::MAX {
        return Err(ConfigCanonicalError::InvalidLinkJitter(link.jitter));
    }
    if link.reorder_window > MAX_REORDER_WINDOW {
        return Err(ConfigCanonicalError::InvalidReorderWindow(link.reorder_window));
    }
    let mut items: Vec<CborValue> = vec![
        CborValue::Unsigned(link.base_delay),
        CborValue::Unsigned(link.jitter),
        CborValue::Float(link.loss_probability.to_bits()),
        encode_word(link.reorder_window),
    ];
    if !(link.capacity.is_none() && link.queue_policy == QueueFullPolicy::Drop) {
        items.push(
            match link.capacity {
                Some(cap) => encode_word(cap),
                None => CborValue::Null,
            },
        );
        items.push(
            match link.queue_policy {
                QueueFullPolicy::Drop => CborValue::Unsigned(0),
                QueueFullPolicy::Block => CborValue::Unsigned(1),
            },
        );
    }
    let ghost all = items@;
    let v: CborValue = array_of(items);
    assert(Seq::new(all.len(), |k: int| all[k]@) =~= link_value(*link)->Ok_0->Array_0);
    Ok(v)
}

/// An error among the first links is the error of all of them.
proof fn lemma_links_error(links: Seq<(usize, usize, LinkConfig)>, i: int)
    requires
        0 <= i <= links.len(),
        links_value(links.take(i)) is Err,
    ensures
        links_value(links) == links_value(links.take(i)),
    decreases links.len() - i,
{
    if i == links.len() {
        assert(links.take(i) =~= links);
    } else {
        assert(links.take(i + 1).drop_last() =~= links.take(i));
        lemma_links_error(links, i + 1);
    }
}

fn encode_links(links: &[(usize, usize, LinkConfig)]) -> (r: Result<CborValue, ConfigCanonicalError>)
    ensures
        match links_value(links@) {
            Ok(c) => r matches Ok(v) && v@ == Cbor::Array(c),
            Err(e) => r == Err::<CborValue, ConfigCanonicalError>(e),
        },
        links@.len() <= usize::MAX,
        r is Ok ==> forall|i: int| 0 <= i < links@.len() ==> valid_link((#[trigger] links@[i]).2),
{
    let size: usize = links.len();
    assert(links@.len() == size);
    let mut items: Vec<CborValue> = Vec::new();
    let mut i: usize = 0;
    assert(links@.take(0) =~= Seq::<(usize, usize, LinkConfig)>::empty());
    while i < links.len()
        invariant
            i <= links@.len(),
            items@.len() == i,
            links_value(links@.take(i as int)) matches Ok(done) && done.len() == i && forall|j: int|
                0 <= j < i ==> (#[trigger] items@[j])@ == done[j],
            forall|j: int| 0 <= j < i ==> valid_link((#[trigger] links@[j]).2),
        decreases links@.len() - i,
    {
        let ghost next = links@.take(i + 1);
        assert(next.drop_last() =~= links@.take(i as int));
        assert(next.last() == links@[i as int]);
        match encode_link(&links[i].2) {
            Err(e) => {
                proof {
                    lemma_links_error(links@, i + 1);
                }
                return Err(e);
            },
            Ok(link) => {
                let triple: Vec<CborValue> = vec![
                    encode_word(links[i].0),
                    encode_word(links[i].1),
                    link,
                ];
                let ghost parts = triple@;
                let item: CborValue = array_of(triple);
                assert(Seq::new(3, |k: int| parts[k]@) =~= seq![
                    word(links@[i as int].0),
                    word(links@[i as int].1),
                    link_value(links@[i as int].2)->Ok_0,
                ]);
                items.push(item);
            },
        }
        i = i + 1;
    }
    assert(links@.take(i as int) =~= links@);
    let ghost all = items@;
    let v: CborValue = array_of(items);
    assert(Seq::new(all.len(), |k: int| all[k]@) =~= links_value(links@)->Ok_0);
    Ok(v)
}

fn encode_swarm(swarm: &SwarmConfig) -> (r: Result<CborValue, ConfigCanonicalError>)
    ensures
        match swarm_value(*swarm) {
            Ok(c) => r matches Ok(v) && v@ == c,
            Err(e) => r == Err::<CborValue, ConfigCanonicalError>(e),
        },
        r is Ok ==> valid_swarm(*swarm),
{
    if swarm.max_delay_ticks == u64::MAX {
        return Err(ConfigCanonicalError::InvalidMaxDelayTicks(swarm.max_delay_ticks));
    }
    let items: Vec<CborValue> = vec![
        CborValue::Float(swarm.drop_probability.to_bits()),
        CborValue::Float(swarm.delay_probability.to_bits()),
        CborValue::Unsigned(swarm.max_delay_ticks),
        CborValue::Float(swarm.crash_probability.to_bits()),
        encode_word(swarm.fault_classes_per_run),
    ];
    let ghost all = items@;
    let v: CborValue = array_of(items);
    assert(Seq::new(all.len(), |k: int| all[k]@) =~= swarm_value(*swarm)->Ok_0->Array_0);
    Ok(v)
}

fn encode_policy(policy: &Policy) -> (r: Result<CborValue, ConfigCanonicalError>)
    ensures
        match policy_value(*policy) {
            Ok(c) => r matches Ok(v) && v@ == c,
            Err(e) => r == Err::<CborValue, ConfigCanonicalError>(e),
        },
        r is Ok ==> valid_policy(*policy),
{
    let items: Vec<CborValue> = match policy {
        Policy::Random => vec![CborValue::Unsigned(0)],
        Policy::Pct { priority_changes } => vec![
            CborValue::Unsigned(1),
            encode_word(*priority_changes),
        ],
        Policy::Bandit { exploration_constant, pct_mix } => {
            if !is_finite(*exploration_constant) {
                return Err(
                    ConfigCanonicalError::NonFiniteFloat("policy.bandit.exploration_constant"),
                );
            }
            vec![
                CborValue::Unsigned(2),
                CborValue::Float(*exploration_constant),
                CborValue::Float(pct_mix.to_bits()),
            ]
        },
        Policy::Replay => vec![CborValue::Unsigned(3)],
        Policy::Dpor => vec![CborValue::Unsigned(4)],
    };
    let ghost all = items@;
    let v: CborValue = array_of(items);
    assert(Seq::new(all.len(), |k: int| all[k]@) =~= policy_value(*policy)->Ok_0->Array_0);
    Ok(v)
}

fn encode_fault(fault: &SimFault) -> (r: Result<CborValue, ConfigCanonicalError>)
    ensures
        match fault_value(*fault) {
            Ok(c) => r matches Ok(v) && v@ == c,
            Err(e) => r == Err::<CborValue, ConfigCanonicalError>(e),
        },
{
    let items: Vec<CborValue> = match fault {
        SimFault::Drop(id) => vec![CborValue::Unsigned(0), CborValue::Bytes(hash_bytes_of(id))],
        SimFault::Delay { send, ticks } => vec![
            CborValue::Unsigned(1),
            CborValue::Bytes(hash_bytes_of(send)),
            CborValue::Unsigned(*ticks),
        ],
        SimFault::Partition { src, dst } => vec![
            CborValue::Unsigned(2),
            CborValue::Unsigned(src.0 as u64),
            CborValue::Unsigned(dst.0 as u64),
        ],
        SimFault::Crash(id) => vec![CborValue::Unsigned(3), CborValue::Bytes(hash_bytes_of(id))],
        SimFault::Corrupt { write, xor_mask } => vec![
            CborValue::Unsigned(4),
            CborValue::Bytes(hash_bytes_of(write)),
            CborValue::Unsigned(*xor_mask),
        ],
        SimFault::CrashState { write, state } => vec![
            CborValue::Unsigned(5),
            CborValue::Bytes(hash_bytes_of(write)),
            CborValue::Unsigned(*state),
        ],
        SimFault::Duplicate { .. } => return Err(ConfigCanonicalError::FaultWithoutTag),
    };
    let ghost all = items@;
    let v: CborValue = array_of(items);
    assert(Seq::new(all.len(), |k: int| all[k]@) =~= fault_value(*fault)->Ok_0->Array_0);
    Ok(v)
}

/// An error among the first faults is the error of all of them.
proof fn lemma_faults_error(faults: Seq<SimFault>, i: int)
    requires
        0 <= i <= faults.len(),
        faults_value(faults.take(i)) is Err,
    ensures
        faults_value(faults) == faults_value(faults.take(i)),
    decreases faults.len() - i,
{
    if i == faults.len() {
        assert(faults.take(i) =~= faults);
    } else {
        assert(faults.take(i + 1).drop_last() =~= faults.take(i));
        lemma_faults_error(faults, i + 1);
    }
}

fn encode_faults(faults: &[SimFault]) -> (r: Result<CborValue, ConfigCanonicalError>)
    ensures
        match faults_value(faults@) {
            Ok(c) => r matches Ok(v) && v@ == Cbor::Array(c),
            Err(e) => r == Err::<CborValue, ConfigCanonicalError>(e),
        },
        faults@.len() <= usize::MAX,
{
    let size: usize = faults.len();
    assert(faults@.len() == size);
    let mut items: Vec<CborValue> = Vec::new();
    let mut i: usize = 0;
    assert(faults@.take(0) =~= Seq::<SimFault>::empty());
    while i < faults.len()
        invariant
            i <= faults@.len(),
            items@.len() == i,
            faults_value(faults@.take(i as int)) matches Ok(done) && done.len() == i && forall|
                j: int,
            |
                0 <= j < i ==> (#[trigger] items@[j])@ == done[j],
        decreases faults@.len() - i,
    {
        let ghost next = faults@.take(i + 1);
        assert(next.drop_last() =~= faults@.take(i as int));
        assert(next.last() == faults@[i as int]);
        match encode_fault(&faults[i]) {
            Err(e) => {
                proof {
                    lemma_faults_error(faults@, i + 1);
                }
                return Err(e);
            },
            Ok(item) => {
                items.push(item);
            },
        }
        i = i + 1;
    }
    assert(faults@.take(i as int) =~= faults@);
    let ghost all = items@;
    let v: CborValue = array_of(items);
    assert(Seq::new(all.len(), |k: int| all[k]@) =~= faults_value(faults@)->Ok_0);
    Ok(v)
}

fn encode_fs_journaling(mode: Option<JournalingMode>) -> (v: CborValue)
    ensures
        v@ == fs_journaling_value(mode),
{
    match mode {
        None => CborValue::Null,
        Some(JournalingMode::Writeback) => CborValue::Unsigned(0),
        Some(JournalingMode::Ordered) => CborValue::Unsigned(1),
        Some(JournalingMode::Data) => CborValue::Unsigned(2),
    }
}

/// One entry of the field map.
fn field(name: &str, value: CborValue) -> (entry: (CborValue, CborValue))
    ensures
        entry.0@ == Cbor::Text(name@),
        entry.1@ == value@,
{
    (CborValue::Text(name.to_owned()), value)
}

/// The field map of a configuration in canonical key order.
fn fields(config: &RunConfig) -> (r: Result<Vec<(CborValue, CborValue)>, ConfigCanonicalError>)
    ensures
        match fields_of(config@) {
            Ok(c) => r matches Ok(v) && entry_contents(v@) == c,
            Err(e) => r == Err::<Vec<(CborValue, CborValue)>, ConfigCanonicalError>(e),
        },
        r is Ok ==> valid_model(config@),
{
    let dns: CborValue = encode_dns(config.dns());
    let seed: CborValue = CborValue::Bytes(hash_bytes_of(&config.seed()));
    let links: CborValue = match encode_links(config.links()) {
        Ok(v) => v,
        Err(e) => return Err(e),
    };
    let swarm: CborValue = match encode_swarm(config.swarm()) {
        Ok(v) => v,
        Err(e) => return Err(e),
    };
    let policy: CborValue = match encode_policy(&config.policy()) {
        Ok(v) => v,
        Err(e) => return Err(e),
    };
    let faults: CborValue = match encode_faults(config.fault_schedule()) {
        Ok(v) => v,
        Err(e) => return Err(e),
    };
    let dropped: CborValue = encode_hashes(config.dropped_events());
    let entries: Vec<(CborValue, CborValue)> = vec![
        field("dns", dns),
        field("seed", seed),
        field("links", links),
        field("swarm", swarm),
        field("policy", policy),
        field("monitor", CborValue::Bool(config.monitor())),
        field("max_steps", encode_word(config.max_steps())),
        field("reorder_draw", CborValue::Bool(config.reorder_draw())),
        field("fs_journaling", encode_fs_journaling(config.fs_journaling())),
        field("dropped_events", dropped),
        field("fault_schedule", faults),
        field("max_file_extent", encode_optional(config.max_file_extent())),
        field("max_resident_bytes", encode_optional(config.max_resident_bytes())),
    ];
    proof {
        lemma_entry_contents_index(entries@);
        assert(entry_contents(entries@) =~= fields_of(config@)->Ok_0);
    }
    Ok(entries)
}

/// Encode `config` as versioned canonical bytes.
///
/// # Errors
/// Returns [`ConfigCanonicalError`] when a field has no encoding, or when the
/// canonical CBOR codec rejects a value.
pub fn to_canonical_bytes(config: &RunConfig) -> (r: Result<Vec<u8>, ConfigCanonicalError>)
    ensures
        match config_bytes(config@) {
            Ok(b) => r matches Ok(out) && out@ == b,
            Err(e) => r == Err::<Vec<u8>, ConfigCanonicalError>(e),
        },
        r is Ok ==> valid_model(config@),
{
    let entries: Vec<(CborValue, CborValue)> = match fields(config) {
        Ok(entries) => entries,
        Err(e) => return Err(e),
    };
    let items: Vec<CborValue> = vec![
        CborValue::Unsigned(FORMAT_VERSION),
        CborValue::Dict(entries),
    ];
    let ghost all = items@;
    let doc: CborValue = array_of(items);
    assert(Seq::new(all.len(), |k: int| all[k]@) =~= document(config@)->Ok_0->Array_0);
    match doc.try_to_canonical_bytes() {
        Ok(out) => Ok(out),
        Err(e) => Err(ConfigCanonicalError::Cbor(e)),
    }
}

/// Compute the blake3 hash of the canonical bytes of `config`.
///
/// # Errors
/// Returns [`ConfigCanonicalError`] when [`to_canonical_bytes`] rejects the
/// config.
pub fn canonical_hash(config: &RunConfig) -> (r: Result<EntryHash, ConfigCanonicalError>)
    ensures
        match config_bytes(config@) {
            Ok(b) => r matches Ok(hash) && hash@ == blake3_digest(b),
            Err(e) => r == Err::<EntryHash, ConfigCanonicalError>(e),
        },
{
    match to_canonical_bytes(config) {
        Ok(bytes) => Ok(hash_bytes(bytes.as_slice())),
        Err(e) => Err(e),
    }
}

// ---------------------------------------------------------------------------
// What a document decodes to.
// ---------------------------------------------------------------------------

/// An error that holds no text of the document.
pub open spec fn reject<T>(e: ConfigCanonicalError) -> Result<T, Rejection> {
    Err(Rejection::Plain(e))
}

/// A boolean field.
pub open spec fn bool_of(v: Cbor, field: &'static str) -> Result<bool, Rejection> {
    match v {
        Cbor::Bool(b) => Ok(b),
        _ => wrong_type(field),
    }
}

/// A machine-word field.
pub open spec fn usize_of(v: Cbor, field: &'static str) -> Result<usize, Rejection> {
    match v {
        Cbor::Unsigned(n) => if n <= usize::MAX {
            Ok(n as usize)
        } else {
            reject(ConfigCanonicalError::IntegerOutOfRange(field))
        },
        _ => wrong_type(field),
    }
}

/// A 64-bit field.
pub open spec fn u64_of(v: Cbor, field: &'static str) -> Result<u64, Rejection> {
    match v {
        Cbor::Unsigned(n) => Ok(n),
        _ => wrong_type(field),
    }
}

/// A 32-bit field.
pub open spec fn u32_of(v: Cbor, field: &'static str) -> Result<u32, Rejection> {
    match v {
        Cbor::Unsigned(n) => if n <= u32::MAX {
            Ok(n as u32)
        } else {
            reject(ConfigCanonicalError::IntegerOutOfRange(field))
        },
        _ => wrong_type(field),
    }
}

/// An optional 64-bit field; null is nothing.
pub open spec fn optional_u64(v: Cbor, field: &'static str) -> Result<Option<u64>, Rejection> {
    match v {
        Cbor::Null => Ok(None),
        Cbor::Unsigned(n) => Ok(Some(n)),
        _ => wrong_type(field),
    }
}

/// A finite float field.
pub open spec fn finite_float_of(v: Cbor, field: &'static str) -> Result<u64, Rejection> {
    match v {
        Cbor::Float(bits) => if finite(bits) {
            Ok(bits)
        } else {
            reject(ConfigCanonicalError::NonFiniteFloat(field))
        },
        _ => wrong_type(field),
    }
}

/// A probability field.
pub open spec fn probability_of(v: Cbor, field: &'static str) -> Result<Probability, Rejection> {
    match v {
        Cbor::Float(bits) => if !finite(bits) {
            reject(ConfigCanonicalError::NonFiniteFloat(field))
        } else if !probability_bits(bits) {
            reject(ConfigCanonicalError::ProbabilityOutOfRange(field))
        } else {
            Ok(probability_of_bits(bits))
        },
        _ => wrong_type(field),
    }
}

/// The hash with the given bytes.
pub open spec fn hash_from(bytes: Seq<u8>) -> EntryHash {
    choose|h: EntryHash| h@ == bytes
}

/// A hash field.
pub open spec fn hash_of(v: Cbor, field: &'static str) -> Result<EntryHash, Rejection> {
    match v {
        Cbor::Bytes(b) => if b.len() == 32 {
            Ok(hash_from(b))
        } else {
            reject(ConfigCanonicalError::InvalidHashLength { field, len: b.len() as usize })
        },
        _ => wrong_type(field),
    }
}

/// Decode items in order; the first item that does not decode decides the
/// error.
pub open spec fn traverse<A>(items: Seq<Cbor>, f: spec_fn(Cbor) -> Result<A, Rejection>) -> Result<
    Seq<A>,
    Rejection,
>
    decreases items.len(),
{
    if items.len() == 0 {
        Ok(Seq::empty())
    } else {
        match traverse(items.drop_last(), f) {
            Err(e) => Err(e),
            Ok(front) => match f(items.last()) {
                Err(e) => Err(e),
                Ok(a) => Ok(front.push(a)),
            },
        }
    }
}

/// A field that lists hashes.
pub open spec fn hash_list_of(v: Cbor, field: &'static str) -> Result<Seq<EntryHash>, Rejection> {
    match v {
        Cbor::Array(items) => traverse(items, |item: Cbor| hash_of(item, field)),
        _ => wrong_type(field),
    }
}

/// The policy field.
pub open spec fn policy_of(v: Cbor) -> Result<Policy, Rejection> {
    match v {
        Cbor::Array(items) => if items.len() == 0 || !(items[0] is Unsigned) {
            wrong_type("policy")
        } else {
            let tag = items[0]->Unsigned_0;
            if tag == 0 {
                if items.len() == 1 {
                    Ok(Policy::Random)
                } else {
                    wrong_type("policy")
                }
            } else if tag == 1 {
                if items.len() != 2 {
                    wrong_type("policy")
                } else {
                    match usize_of(items[1], "policy.pct.priority_changes") {
                        Err(e) => Err(e),
                        Ok(priority_changes) => Ok(Policy::Pct { priority_changes }),
                    }
                }
            } else if tag == 2 {
                if items.len() != 3 {
                    wrong_type("policy")
                } else {
                    match finite_float_of(items[1], "policy.bandit.exploration_constant") {
                        Err(e) => Err(e),
                        Ok(exploration_constant) => match probability_of(
                            items[2],
                            "policy.bandit.pct_mix",
                        ) {
                            Err(e) => Err(e),
                            Ok(pct_mix) => Ok(Policy::Bandit { exploration_constant, pct_mix }),
                        },
                    }
                }
            } else if tag == 3 {
                if items.len() == 1 {
                    Ok(Policy::Replay)
                } else {
                    wrong_type("policy")
                }
            } else if tag == 4 {
                if items.len() == 1 {
                    Ok(Policy::Dpor)
                } else {
                    wrong_type("policy")
                }
            } else {
                reject(ConfigCanonicalError::InvalidPolicyTag(tag))
            }
        },
        _ => wrong_type("policy"),
    }
}

/// The swarm field.
pub open spec fn swarm_of(v: Cbor) -> Result<SwarmConfig, Rejection> {
    match v {
        Cbor::Array(items) => if items.len() != 5 {
            wrong_type("swarm")
        } else {
            match u64_of(items[2], "swarm.max_delay_ticks") {
                Err(e) => Err(e),
                Ok(max_delay_ticks) => if max_delay_ticks == u64::MAX {
                    reject(ConfigCanonicalError::InvalidMaxDelayTicks(max_delay_ticks))
                } else {
                    match probability_of(items[0], "swarm.drop_probability") {
                        Err(e) => Err(e),
                        Ok(drop_probability) => match probability_of(
                            items[1],
                            "swarm.delay_probability",
                        ) {
                            Err(e) => Err(e),
                            Ok(delay_probability) => match probability_of(
                                items[3],
                                "swarm.crash_probability",
                            ) {
                                Err(e) => Err(e),
                                Ok(crash_probability) => match usize_of(
                                    items[4],
                                    "swarm.fault_classes_per_run",
                                ) {
                                    Err(e) => Err(e),
                                    Ok(fault_classes_per_run) => Ok(
                                        SwarmConfig {
                                            drop_probability,
                                            delay_probability,
                                            max_delay_ticks,
                                            crash_probability,
                                            fault_classes_per_run,
                                        },
                                    ),
                                },
                            },
                        },
                    }
                },
            }
        },
        _ => wrong_type("swarm"),
    }
}

/// Capacity of an extended link config.
pub open spec fn capacity_of(v: Cbor) -> Result<Option<usize>, Rejection> {
    match v {
        Cbor::Null => Ok(None),
        Cbor::Unsigned(n) => if n <= usize::MAX {
            Ok(Some(n as usize))
        } else {
            reject(ConfigCanonicalError::IntegerOutOfRange("links.capacity"))
        },
        _ => wrong_type("links.capacity"),
    }
}

/// Queue policy of an extended link config.
pub open spec fn queue_policy_of(v: Cbor) -> Result<QueueFullPolicy, Rejection> {
    match v {
        Cbor::Unsigned(tag) => if tag == 0 {
            Ok(QueueFullPolicy::Drop)
        } else if tag == 1 {
            Ok(QueueFullPolicy::Block)
        } else {
            reject(ConfigCanonicalError::InvalidQueuePolicyTag(tag))
        },
        _ => wrong_type("links.queue_policy"),
    }
}

/// Queue bound and policy of a link config of four or six items.
pub open spec fn queue_of(items: Seq<Cbor>) -> Result<
    (Option<usize>, QueueFullPolicy),
    Rejection,
> {
    if items.len() == 4 {
        Ok((None, QueueFullPolicy::Drop))
    } else {
        match capacity_of(items[4]) {
            Err(e) => Err(e),
            Ok(capacity) => match queue_policy_of(items[5]) {
                Err(e) => Err(e),
                Ok(queue_policy) => Ok((capacity, queue_policy)),
            },
        }
    }
}

/// Endpoints and delay of a link whose other parts are decoded.
pub open spec fn link_ends(
    from: Cbor,
    to: Cbor,
    base_delay: Cbor,
    loss: Cbor,
    jitter: u64,
    reorder_window: usize,
    capacity: Option<usize>,
    queue_policy: QueueFullPolicy,
) -> Result<(usize, usize, LinkConfig), Rejection> {
    match usize_of(from, "links.from") {
        Err(e) => Err(e),
        Ok(from) => match usize_of(to, "links.to") {
            Err(e) => Err(e),
            Ok(to) => match u64_of(base_delay, "links.base_delay") {
                Err(e) => Err(e),
                Ok(base_delay) => match probability_of(loss, "links.loss_probability") {
                    Err(e) => Err(e),
                    Ok(loss_probability) => Ok(
                        (
                            from,
                            to,
                            LinkConfig {
                                base_delay,
                                jitter,
                                loss_probability,
                                reorder_window,
                                capacity,
                                queue_policy,
                            },
                        ),
                    ),
                },
            },
        },
    }
}

/// One entry of the links field.
pub open spec fn link_of(v: Cbor) -> Result<(usize, usize, LinkConfig), Rejection> {
    match v {
        Cbor::Array(items) => if items.len() != 3 {
            wrong_type("links")
        } else {
            match items[2] {
                Cbor::Array(link) => if link.len() != 4 && link.len() != 6 {
                    wrong_type("links")
                } else {
                    match u64_of(link[1], "links.jitter") {
                        Err(e) => Err(e),
                        Ok(jitter) => if jitter == u64::MAX {
                            reject(ConfigCanonicalError::InvalidLinkJitter(jitter))
                        } else {
                            match usize_of(link[3], "links.reorder_window") {
                                Err(e) => Err(e),
                                Ok(window) => if window > MAX_REORDER_WINDOW {
                                    reject(ConfigCanonicalError::InvalidReorderWindow(window))
                                } else {
                                    match queue_of(link) {
                                        Err(e) => Err(e),
                                        Ok((capacity, queue_policy)) => link_ends(
                                            items[0],
                                            items[1],
                                            link[0],
                                            link[2],
                                            jitter,
                                            window,
                                            capacity,
                                            queue_policy,
                                        ),
                                    }
                                },
                            }
                        },
                    }
                },
                _ => wrong_type("links"),
            }
        },
        _ => wrong_type("links"),
    }
}

/// The links field.
pub open spec fn links_of(v: Cbor) -> Result<Seq<(usize, usize, LinkConfig)>, Rejection> {
    match v {
        Cbor::Array(items) => traverse(items, |item: Cbor| link_of(item)),
        _ => wrong_type("links"),
    }
}

/// Put one entry of the dns field into the table.
pub open spec fn dns_with(table: Seq<(Seq<char>, usize)>, v: Cbor) -> Result<
    Seq<(Seq<char>, usize)>,
    Rejection,
> {
    match v {
        Cbor::Array(entry) => if entry.len() != 2 {
            wrong_type("dns")
        } else {
            match entry[0] {
                Cbor::Text(name) => if encode_utf8(name).len() > MAX_DNS_NAME_LEN {
                    reject(ConfigCanonicalError::DnsNameTooLong(encode_utf8(name).len() as usize))
                } else {
                    match usize_of(entry[1], "dns.actor") {
                        Err(e) => Err(e),
                        Ok(actor) => if resolved(table, name) is Some {
                            Err(Rejection::DuplicateDnsName(name))
                        } else {
                            Ok(with_name(table, name, actor))
                        },
                    }
                },
                _ => wrong_type("dns.name"),
            }
        },
        _ => wrong_type("dns"),
    }
}

/// The table that the entries of the dns field give.
pub open spec fn dns_table(items: Seq<Cbor>) -> Result<Seq<(Seq<char>, usize)>, Rejection>
    decreases items.len(),
{
    if items.len() == 0 {
        Ok(Seq::empty())
    } else {
        match dns_table(items.drop_last()) {
            Err(e) => Err(e),
            Ok(table) => dns_with(table, items.last()),
        }
    }
}

/// The dns field.
pub open spec fn dns_of(v: Cbor) -> Result<Seq<(Seq<char>, usize)>, Rejection> {
    match v {
        Cbor::Array(items) => dns_table(items),
        _ => wrong_type("dns"),
    }
}

/// A fault of a hash alone.
pub open spec fn hash_fault(
    items: Seq<Cbor>,
    field: &'static str,
    make: spec_fn(EntryHash) -> SimFault,
) -> Result<SimFault, Rejection> {
    if items.len() != 2 {
        wrong_type("fault_schedule")
    } else {
        match hash_of(items[1], field) {
            Err(e) => Err(e),
            Ok(h) => Ok(make(h)),
        }
    }
}

/// A fault of a hash and a number.
pub open spec fn hash_number_fault(
    items: Seq<Cbor>,
    hash_field: &'static str,
    number_field: &'static str,
    make: spec_fn(EntryHash, u64) -> SimFault,
) -> Result<SimFault, Rejection> {
    if items.len() != 3 {
        wrong_type("fault_schedule")
    } else {
        match hash_of(items[1], hash_field) {
            Err(e) => Err(e),
            Ok(h) => match u64_of(items[2], number_field) {
                Err(e) => Err(e),
                Ok(n) => Ok(make(h, n)),
            },
        }
    }
}

/// A partition fault.
pub open spec fn partition_fault(items: Seq<Cbor>) -> Result<SimFault, Rejection> {
    if items.len() != 3 {
        wrong_type("fault_schedule")
    } else {
        match u32_of(items[1], "fault_schedule.partition.src") {
            Err(e) => Err(e),
            Ok(src) => match u32_of(items[2], "fault_schedule.partition.dst") {
                Err(e) => Err(e),
                Ok(dst) => Ok(SimFault::Partition { src: ActorId(src), dst: ActorId(dst) }),
            },
        }
    }
}

/// One entry of the fault schedule.
pub open spec fn fault_of(v: Cbor) -> Result<SimFault, Rejection> {
    match v {
        Cbor::Array(items) => if items.len() == 0 || !(items[0] is Unsigned) {
            wrong_type("fault_schedule")
        } else {
            let tag = items[0]->Unsigned_0;
            if tag == 0 {
                hash_fault(items, "fault_schedule.drop.id", |h: EntryHash| SimFault::Drop(h))
            } else if tag == 1 {
                hash_number_fault(
                    items,
                    "fault_schedule.delay.send",
                    "fault_schedule.delay.ticks",
                    |send: EntryHash, ticks: u64| SimFault::Delay { send, ticks },
                )
            } else if tag == 2 {
                partition_fault(items)
            } else if tag == 3 {
                hash_fault(items, "fault_schedule.crash.id", |h: EntryHash| SimFault::Crash(h))
            } else if tag == 4 {
                hash_number_fault(
                    items,
                    "fault_schedule.corrupt.write",
                    "fault_schedule.corrupt.xor_mask",
                    |write: EntryHash, xor_mask: u64| SimFault::Corrupt { write, xor_mask },
                )
            } else if tag == 5 {
                hash_number_fault(
                    items,
                    "fault_schedule.crash_state.write",
                    "fault_schedule.crash_state.state",
                    |write: EntryHash, state: u64| SimFault::CrashState { write, state },
                )
            } else {
                reject(ConfigCanonicalError::InvalidFaultTag(tag))
            }
        },
        _ => wrong_type("fault_schedule"),
    }
}

/// The fault schedule field.
pub open spec fn faults_of(v: Cbor) -> Result<Seq<SimFault>, Rejection> {
    match v {
        Cbor::Array(items) => traverse(items, |item: Cbor| fault_of(item)),
        _ => wrong_type("fault_schedule"),
    }
}

/// The journaling field.
pub open spec fn fs_journaling_of(v: Cbor) -> Result<Option<JournalingMode>, Rejection> {
    match v {
        Cbor::Null => Ok(None),
        Cbor::Unsigned(tag) => if tag == 0 {
            Ok(Some(JournalingMode::Writeback))
        } else if tag == 1 {
            Ok(Some(JournalingMode::Ordered))
        } else if tag == 2 {
            Ok(Some(JournalingMode::Data))
        } else {
            reject(ConfigCanonicalError::InvalidFsJournalingTag(tag))
        },
        _ => wrong_type("fs_journaling"),
    }
}

/// Fields read so far.
#[verifier::ext_equal]
pub struct Partial {
    pub dns: Option<Seq<(Seq<char>, usize)>>,
    pub seed: Option<EntryHash>,
    pub links: Option<Seq<(usize, usize, LinkConfig)>>,
    pub swarm: Option<SwarmConfig>,
    pub policy: Option<Policy>,
    pub monitor: Option<bool>,
    pub max_steps: Option<usize>,
    pub fs_journaling: Option<Option<JournalingMode>>,
    pub dropped_events: Option<Seq<EntryHash>>,
    pub fault_schedule: Option<Seq<SimFault>>,
    pub reorder_draw: bool,
    pub max_file_extent: Option<u64>,
    pub max_resident_bytes: Option<u64>,
}

/// No field read; the optional fields have their defaults.
pub open spec fn nothing_read() -> Partial {
    Partial {
        dns: None,
        seed: None,
        links: None,
        swarm: None,
        policy: None,
        monitor: None,
        max_steps: None,
        fs_journaling: None,
        dropped_events: None,
        fault_schedule: None,
        reorder_draw: false,
        max_file_extent: None,
        max_resident_bytes: None,
    }
}

/// Position of a field name in the format, if it is one.
pub open spec fn field_index(name: Seq<char>) -> Option<int> {
    if name == "dns"@ {
        Some(0)
    } else if name == "seed"@ {
        Some(1)
    } else if name == "links"@ {
        Some(2)
    } else if name == "swarm"@ {
        Some(3)
    } else if name == "policy"@ {
        Some(4)
    } else if name == "monitor"@ {
        Some(5)
    } else if name == "max_steps"@ {
        Some(6)
    } else if name == "fs_journaling"@ {
        Some(7)
    } else if name == "dropped_events"@ {
        Some(8)
    } else if name == "fault_schedule"@ {
        Some(9)
    } else if name == "reorder_draw"@ {
        Some(10)
    } else if name == "max_file_extent"@ {
        Some(11)
    } else if name == "max_resident_bytes"@ {
        Some(12)
    } else {
        None
    }
}

/// Read one field of known position.
pub open spec fn absorb_field(p: Partial, index: int, v: Cbor) -> Result<Partial, Rejection> {
    if index == 0 {
        match dns_of(v) {
            Err(e) => Err(e),
            Ok(dns) => Ok(Partial { dns: Some(dns), ..p }),
        }
    } else if index == 1 {
        match hash_of(v, "seed") {
            Err(e) => Err(e),
            Ok(seed) => Ok(Partial { seed: Some(seed), ..p }),
        }
    } else if index == 2 {
        match links_of(v) {
            Err(e) => Err(e),
            Ok(links) => Ok(Partial { links: Some(links), ..p }),
        }
    } else if index == 3 {
        match swarm_of(v) {
            Err(e) => Err(e),
            Ok(swarm) => Ok(Partial { swarm: Some(swarm), ..p }),
        }
    } else if index == 4 {
        match policy_of(v) {
            Err(e) => Err(e),
            Ok(policy) => Ok(Partial { policy: Some(policy), ..p }),
        }
    } else if index == 5 {
        match bool_of(v, "monitor") {
            Err(e) => Err(e),
            Ok(monitor) => Ok(Partial { monitor: Some(monitor), ..p }),
        }
    } else if index == 6 {
        match usize_of(v, "max_steps") {
            Err(e) => Err(e),
            Ok(max_steps) => Ok(Partial { max_steps: Some(max_steps), ..p }),
        }
    } else if index == 7 {
        match fs_journaling_of(v) {
            Err(e) => Err(e),
            Ok(mode) => Ok(Partial { fs_journaling: Some(mode), ..p }),
        }
    } else if index == 8 {
        match hash_list_of(v, "dropped_events") {
            Err(e) => Err(e),
            Ok(hashes) => Ok(Partial { dropped_events: Some(hashes), ..p }),
        }
    } else if index == 9 {
        match faults_of(v) {
            Err(e) => Err(e),
            Ok(faults) => Ok(Partial { fault_schedule: Some(faults), ..p }),
        }
    } else if index == 10 {
        match bool_of(v, "reorder_draw") {
            Err(e) => Err(e),
            Ok(reorder_draw) => Ok(Partial { reorder_draw, ..p }),
        }
    } else if index == 11 {
        match optional_u64(v, "max_file_extent") {
            Err(e) => Err(e),
            Ok(max_file_extent) => Ok(Partial { max_file_extent, ..p }),
        }
    } else {
        match optional_u64(v, "max_resident_bytes") {
            Err(e) => Err(e),
            Ok(max_resident_bytes) => Ok(Partial { max_resident_bytes, ..p }),
        }
    }
}

/// Read one entry of the field map.
pub open spec fn absorb(p: Partial, key: Cbor, v: Cbor) -> Result<Partial, Rejection> {
    match key {
        Cbor::Text(name) => match field_index(name) {
            Some(index) => absorb_field(p, index, v),
            None => Err(Rejection::UnknownField(name)),
        },
        _ => wrong_type("map key"),
    }
}

/// Read entries of the field map in order; the first that does not decode
/// decides the error.
pub open spec fn absorb_all(entries: Seq<(Cbor, Cbor)>) -> Result<Partial, Rejection>
    decreases entries.len(),
{
    if entries.len() == 0 {
        Ok(nothing_read())
    } else {
        match absorb_all(entries.drop_last()) {
            Err(e) => Err(e),
            Ok(p) => absorb(p, entries.last().0, entries.last().1),
        }
    }
}

/// A required field that was not read.
pub open spec fn missing<T>(name: &'static str) -> Result<T, Rejection> {
    reject(ConfigCanonicalError::MissingField(name))
}

/// The configuration that the fields make up; the first required field that is
/// missing decides the error.
pub open spec fn complete(p: Partial) -> Result<RunModel, Rejection> {
    if p.dns is None {
        missing("dns")
    } else if p.seed is None {
        missing("seed")
    } else if p.links is None {
        missing("links")
    } else if p.swarm is None {
        missing("swarm")
    } else if p.policy is None {
        missing("policy")
    } else if p.monitor is None {
        missing("monitor")
    } else if p.max_steps is None {
        missing("max_steps")
    } else if p.fs_journaling is None {
        missing("fs_journaling")
    } else if p.dropped_events is None {
        missing("dropped_events")
    } else if p.fault_schedule is None {
        missing("fault_schedule")
    } else {
        Ok(
            RunModel {
                seed: p.seed->Some_0,
                policy: p.policy->Some_0,
                max_steps: p.max_steps->Some_0,
                dropped_events: p.dropped_events->Some_0,
                swarm: p.swarm->Some_0,
                links: p.links->Some_0,
                dns: p.dns->Some_0,
                fault_schedule: p.fault_schedule->Some_0,
                fs_journaling: p.fs_journaling->Some_0,
                monitor: p.monitor->Some_0,
                reorder_draw: p.reorder_draw,
                max_file_extent: p.max_file_extent,
                max_resident_bytes: p.max_resident_bytes,
            },
        )
    }
}

/// The configuration that a document holds.
pub open spec fn config_of_document(doc: Cbor) -> Result<RunModel, Rejection> {
    match doc {
        Cbor::Array(items) => if items.len() != 2 || !(items[0] is Unsigned) {
            reject(ConfigCanonicalError::WrongDocumentShape)
        } else if items[0]->Unsigned_0 != FORMAT_VERSION {
            reject(ConfigCanonicalError::UnsupportedVersion(items[0]->Unsigned_0))
        } else {
            match items[1] {
                Cbor::Dict(entries) => match absorb_all(entries) {
                    Err(e) => Err(e),
                    Ok(p) => complete(p),
                },
                _ => reject(ConfigCanonicalError::WrongDocumentShape),
            }
        },
        _ => reject(ConfigCanonicalError::WrongDocumentShape),
    }
}

/// The configuration that canonical bytes hold, or why they hold none.
pub open spec fn config_of(b: Seq<u8>) -> Result<RunModel, Rejection> {
    match parsed(b) {
        Err(e) => reject(ConfigCanonicalError::Cbor(e)),
        Ok(doc) => config_of_document(doc),
    }
}

/// The result of a decoding step is the one that the specification has.
pub open spec fn same<T>(r: Result<T, ConfigCanonicalError>, wanted: Result<T, Rejection>) -> bool {
    match wanted {
        Ok(x) => r == Ok::<T, ConfigCanonicalError>(x),
        Err(e) => r matches Err(f) && f@ == e,
    }
}

/// The same for a list.
pub open spec fn same_list<T>(
    r: Result<Vec<T>, ConfigCanonicalError>,
    wanted: Result<Seq<T>, Rejection>,
) -> bool {
    match wanted {
        Ok(x) => r matches Ok(v) && v@ == x,
        Err(e) => r matches Err(f) && f@ == e,
    }
}

fn read_bool(v: &CborValue, field: &'static str) -> (r: Result<bool, ConfigCanonicalError>)
    ensures
        same(r, bool_of(v@, field)),
{
    match v {
        CborValue::Bool(b) => Ok(*b),
        _ => Err(ConfigCanonicalError::WrongFieldType(field)),
    }
}

fn read_usize(v: &CborValue, field: &'static str) -> (r: Result<usize, ConfigCanonicalError>)
    ensures
        same(r, usize_of(v@, field)),
{
    match v {
        CborValue::Unsigned(n) => {
            if *n <= usize::MAX as u64 {
                Ok(*n as usize)
            } else {
                Err(ConfigCanonicalError::IntegerOutOfRange(field))
            }
        },
        _ => Err(ConfigCanonicalError::WrongFieldType(field)),
    }
}

fn read_u64(v: &CborValue, field: &'static str) -> (r: Result<u64, ConfigCanonicalError>)
    ensures
        same(r, u64_of(v@, field)),
{
    match v {
        CborValue::Unsigned(n) => Ok(*n),
        _ => Err(ConfigCanonicalError::WrongFieldType(field)),
    }
}

fn read_u32(v: &CborValue, field: &'static str) -> (r: Result<u32, ConfigCanonicalError>)
    ensures
        same(r, u32_of(v@, field)),
{
    match v {
        CborValue::Unsigned(n) => {
            if *n <= u32::MAX as u64 {
                Ok(*n as u32)
            } else {
                Err(ConfigCanonicalError::IntegerOutOfRange(field))
            }
        },
        _ => Err(ConfigCanonicalError::WrongFieldType(field)),
    }
}

fn read_optional(v: &CborValue, field: &'static str) -> (r: Result<
    Option<u64>,
    ConfigCanonicalError,
>)
    ensures
        same(r, optional_u64(v@, field)),
{
    match v {
        CborValue::Null => Ok(None),
        CborValue::Unsigned(n) => Ok(Some(*n)),
        _ => Err(ConfigCanonicalError::WrongFieldType(field)),
    }
}

fn read_finite(v: &CborValue, field: &'static str) -> (r: Result<u64, ConfigCanonicalError>)
    ensures
        same(r, finite_float_of(v@, field)),
{
    match v {
        CborValue::Float(bits) => {
            if is_finite(*bits) {
                Ok(*bits)
            } else {
                Err(ConfigCanonicalError::NonFiniteFloat(field))
            }
        },
        _ => Err(ConfigCanonicalError::WrongFieldType(field)),
    }
}

fn read_probability(v: &CborValue, field: &'static str) -> (r: Result<
    Probability,
    ConfigCanonicalError,
>)
    ensures
        same(r, probability_of(v@, field)),
{
    match v {
        CborValue::Float(bits) => {
            if !is_finite(*bits) {
                return Err(ConfigCanonicalError::NonFiniteFloat(field));
            }
            match Probability::new(*bits) {
                Ok(p) => {
                    proof {
                        lemma_probability_of_bits(*bits);
                        lemma_same_bits(p, probability_of_bits(*bits));
                    }
                    Ok(p)
                },
                Err(_) => Err(ConfigCanonicalError::ProbabilityOutOfRange(field)),
            }
        },
        _ => Err(ConfigCanonicalError::WrongFieldType(field)),
    }
}

fn read_hash(v: &CborValue, field: &'static str) -> (r: Result<EntryHash, ConfigCanonicalError>)
    ensures
        same(r, hash_of(v@, field)),
{
    match v {
        CborValue::Bytes(b) => {
            if b.len() != 32 {
                return Err(ConfigCanonicalError::InvalidHashLength { field, len: b.len() });
            }
            let mut raw: [u8; 32] = [0;32];
            let mut i: usize = 0;
            while i < 32
                invariant
                    i <= 32,
                    b@.len() == 32,
                    forall|j: int| 0 <= j < i ==> raw@[j] == b@[j],
                decreases 32 - i,
            {
                raw[i] = b[i];
                i = i + 1;
            }
            let hash = EntryHash(raw);
            proof {
                assert(hash@ =~= b@);
                lemma_hash_determined_by_bytes(hash, hash_from(b@));
            }
            Ok(hash)
        },
        _ => Err(ConfigCanonicalError::WrongFieldType(field)),
    }
}

/// An error among the first items is the error of all of them.
proof fn lemma_traverse_error<A>(
    items: Seq<Cbor>,
    f: spec_fn(Cbor) -> Result<A, Rejection>,
    i: int,
)
    requires
        0 <= i <= items.len(),
        traverse(items.take(i), f) is Err,
    ensures
        traverse(items, f) == traverse(items.take(i), f),
    decreases items.len() - i,
{
    if i == items.len() {
        assert(items.take(i) =~= items);
    } else {
        assert(items.take(i + 1).drop_last() =~= items.take(i));
        lemma_traverse_error(items, f, i + 1);
    }
}

fn read_hash_list(v: &CborValue, field: &'static str) -> (r: Result<
    Vec<EntryHash>,
    ConfigCanonicalError,
>)
    ensures
        same_list(r, hash_list_of(v@, field)),
{
    let items: &Vec<CborValue> = match v {
        CborValue::Array(items) => items,
        _ => return Err(ConfigCanonicalError::WrongFieldType(field)),
    };
    let ghost all = contents(items@);
    let ghost f = |item: Cbor| hash_of(item, field);
    proof {
        lemma_contents_index(items@);
    }
    let mut out: Vec<EntryHash> = Vec::new();
    let mut i: usize = 0;
    assert(all.take(0) =~= Seq::<Cbor>::empty());
    while i < items.len()
        invariant
            i <= items@.len() == all.len(),
            all == contents(items@),
            f == (|item: Cbor| hash_of(item, field)),
            v@ == Cbor::Array(all),
            traverse(all.take(i as int), f) == Ok::<Seq<EntryHash>, Rejection>(out@),
            forall|j: int| 0 <= j < items@.len() ==> #[trigger] all[j] == content(items@[j]),
        decreases items@.len() - i,
    {
        let ghost next = all.take(i + 1);
        assert(next.drop_last() =~= all.take(i as int));
        assert(next.last() == all[i as int]);
        match read_hash(&items[i], field) {
            Err(e) => {
                proof {
                    lemma_traverse_error(all, f, i + 1);
                }
                return Err(e);
            },
            Ok(item) => out.push(item),
        }
        i = i + 1;
    }
    assert(all.take(i as int) =~= all);
    Ok(out)
}

fn read_policy(v: &CborValue) -> (r: Result<Policy, ConfigCanonicalError>)
    ensures
        same(r, policy_of(v@)),
{
    let items: &Vec<CborValue> = match v {
        CborValue::Array(items) => items,
        _ => return Err(ConfigCanonicalError::WrongFieldType("policy")),
    };
    proof {
        lemma_contents_index(items@);
    }
    if items.len() == 0 {
        return Err(ConfigCanonicalError::WrongFieldType("policy"));
    }
    let tag: u64 = match &items[0] {
        CborValue::Unsigned(tag) => *tag,
        _ => return Err(ConfigCanonicalError::WrongFieldType("policy")),
    };
    if tag == 0 || tag == 3 || tag == 4 {
        if items.len() != 1 {
            return Err(ConfigCanonicalError::WrongFieldType("policy"));
        }
        return Ok(
            if tag == 0 {
                Policy::Random
            } else if tag == 3 {
                Policy::Replay
            } else {
                Policy::Dpor
            },
        );
    }
    if tag == 1 {
        if items.len() != 2 {
            return Err(ConfigCanonicalError::WrongFieldType("policy"));
        }
        return match read_usize(&items[1], "policy.pct.priority_changes") {
            Ok(priority_changes) => Ok(Policy::Pct { priority_changes }),
            Err(e) => Err(e),
        };
    }
    if tag == 2 {
        if items.len() != 3 {
            return Err(ConfigCanonicalError::WrongFieldType("policy"));
        }
        let exploration_constant: u64 = match read_finite(
            &items[1],
            "policy.bandit.exploration_constant",
        ) {
            Ok(bits) => bits,
            Err(e) => return Err(e),
        };
        return match read_probability(&items[2], "policy.bandit.pct_mix") {
            Ok(pct_mix) => Ok(Policy::Bandit { exploration_constant, pct_mix }),
            Err(e) => Err(e),
        };
    }
    Err(ConfigCanonicalError::InvalidPolicyTag(tag))
}

fn read_swarm(v: &CborValue) -> (r: Result<SwarmConfig, ConfigCanonicalError>)
    ensures
        same(r, swarm_of(v@)),
{
    let items: &Vec<CborValue> = match v {
        CborValue::Array(items) => items,
        _ => return Err(ConfigCanonicalError::WrongFieldType("swarm")),
    };
    proof {
        lemma_contents_index(items@);
    }
    if items.len() != 5 {
        return Err(ConfigCanonicalError::WrongFieldType("swarm"));
    }
    let max_delay_ticks: u64 = match read_u64(&items[2], "swarm.max_delay_ticks") {
        Ok(n) => n,
        Err(e) => return Err(e),
    };
    if max_delay_ticks == u64::MAX {
        return Err(ConfigCanonicalError::InvalidMaxDelayTicks(max_delay_ticks));
    }
    let drop_probability: Probability = match read_probability(
        &items[0],
        "swarm.drop_probability",
    ) {
        Ok(p) => p,
        Err(e) => return Err(e),
    };
    let delay_probability: Probability = match read_probability(
        &items[1],
        "swarm.delay_probability",
    ) {
        Ok(p) => p,
        Err(e) => return Err(e),
    };
    let crash_probability: Probability = match read_probability(
        &items[3],
        "swarm.crash_probability",
    ) {
        Ok(p) => p,
        Err(e) => return Err(e),
    };
    match read_usize(&items[4], "swarm.fault_classes_per_run") {
        Ok(fault_classes_per_run) => Ok(
            SwarmConfig {
                drop_probability,
                delay_probability,
                max_delay_ticks,
                crash_probability,
                fault_classes_per_run,
            },
        ),
        Err(e) => Err(e),
    }
}

fn read_queue(items: &Vec<CborValue>) -> (r: Result<
    (Option<usize>, QueueFullPolicy),
    ConfigCanonicalError,
>)
    requires
        items@.len() == 4 || items@.len() == 6,
    ensures
        same(r, queue_of(contents(items@))),
{
    proof {
        lemma_contents_index(items@);
    }
    if items.len() == 4 {
        return Ok((None, QueueFullPolicy::Drop));
    }
    let capacity: Option<usize> = match &items[4] {
        CborValue::Null => None,
        CborValue::Unsigned(n) => {
            if *n <= usize::MAX as u64 {
                Some(*n as usize)
            } else {
                return Err(ConfigCanonicalError::IntegerOutOfRange("links.capacity"));
            }
        },
        _ => return Err(ConfigCanonicalError::WrongFieldType("links.capacity")),
    };
    match &items[5] {
        CborValue::Unsigned(tag) => {
            if *tag == 0 {
                Ok((capacity, QueueFullPolicy::Drop))
            } else if *tag == 1 {
                Ok((capacity, QueueFullPolicy::Block))
            } else {
                Err(ConfigCanonicalError::InvalidQueuePolicyTag(*tag))
            }
        },
        _ => Err(ConfigCanonicalError::WrongFieldType("links.queue_policy")),
    }
}

fn read_link(v: &CborValue) -> (r: Result<(usize, usize, LinkConfig), ConfigCanonicalError>)
    ensures
        same(r, link_of(v@)),
{
    let items: &Vec<CborValue> = match v {
        CborValue::Array(items) => items,
        _ => return Err(ConfigCanonicalError::WrongFieldType("links")),
    };
    proof {
        lemma_contents_index(items@);
    }
    if items.len() != 3 {
        return Err(ConfigCanonicalError::WrongFieldType("links"));
    }
    let link: &Vec<CborValue> = match &items[2] {
        CborValue::Array(link) => link,
        _ => return Err(ConfigCanonicalError::WrongFieldType("links")),
    };
    proof {
        lemma_contents_index(link@);
    }
    if link.len() != 4 && link.len() != 6 {
        return Err(ConfigCanonicalError::WrongFieldType("links"));
    }
    let jitter: u64 = match read_u64(&link[1], "links.jitter") {
        Ok(n) => n,
        Err(e) => return Err(e),
    };
    if jitter == u64::MAX {
        return Err(ConfigCanonicalError::InvalidLinkJitter(jitter));
    }
    let reorder_window: usize = match read_usize(&link[3], "links.reorder_window") {
        Ok(n) => n,
        Err(e) => return Err(e),
    };
    if reorder_window > MAX_REORDER_WINDOW {
        return Err(ConfigCanonicalError::InvalidReorderWindow(reorder_window));
    }
    let (capacity, queue_policy): (Option<usize>, QueueFullPolicy) = match read_queue(link) {
        Ok(queue) => queue,
        Err(e) => return Err(e),
    };
    let from: usize = match read_usize(&items[0], "links.from") {
        Ok(n) => n,
        Err(e) => return Err(e),
    };
    let to: usize = match read_usize(&items[1], "links.to") {
        Ok(n) => n,
        Err(e) => return Err(e),
    };
    let base_delay: u64 = match read_u64(&link[0], "links.base_delay") {
        Ok(n) => n,
        Err(e) => return Err(e),
    };
    match read_probability(&link[2], "links.loss_probability") {
        Ok(loss_probability) => Ok(
            (
                from,
                to,
                LinkConfig {
                    base_delay,
                    jitter,
                    loss_probability,
                    reorder_window,
                    capacity,
                    queue_policy,
                },
            ),
        ),
        Err(e) => Err(e),
    }
}

fn read_links(v: &CborValue) -> (r: Result<
    Vec<(usize, usize, LinkConfig)>,
    ConfigCanonicalError,
>)
    ensures
        same_list(r, links_of(v@)),
{
    let items: &Vec<CborValue> = match v {
        CborValue::Array(items) => items,
        _ => return Err(ConfigCanonicalError::WrongFieldType("links")),
    };
    let ghost all = contents(items@);
    let ghost f = |item: Cbor| link_of(item);
    proof {
        lemma_contents_index(items@);
    }
    let mut out: Vec<(usize, usize, LinkConfig)> = Vec::new();
    let mut i: usize = 0;
    assert(all.take(0) =~= Seq::<Cbor>::empty());
    while i < items.len()
        invariant
            i <= items@.len() == all.len(),
            all == contents(items@),
            f == (|item: Cbor| link_of(item)),
            v@ == Cbor::Array(all),
            traverse(all.take(i as int), f) == Ok::<Seq<(usize, usize, LinkConfig)>, Rejection>(
                out@,
            ),
            forall|j: int| 0 <= j < items@.len() ==> #[trigger] all[j] == content(items@[j]),
        decreases items@.len() - i,
    {
        let ghost next = all.take(i + 1);
        assert(next.drop_last() =~= all.take(i as int));
        assert(next.last() == all[i as int]);
        match read_link(&items[i]) {
            Err(e) => {
                proof {
                    lemma_traverse_error(all, f, i + 1);
                }
                return Err(e);
            },
            Ok(item) => out.push(item),
        }
        i = i + 1;
    }
    assert(all.take(i as int) =~= all);
    Ok(out)
}

/// An error among the first entries is the error of all of them.
proof fn lemma_dns_error(items: Seq<Cbor>, i: int)
    requires
        0 <= i <= items.len(),
        dns_table(items.take(i)) is Err,
    ensures
        dns_table(items) == dns_table(items.take(i)),
    decreases items.len() - i,
{
    if i == items.len() {
        assert(items.take(i) =~= items);
    } else {
        assert(items.take(i + 1).drop_last() =~= items.take(i));
        lemma_dns_error(items, i + 1);
    }
}

/// Put one entry of the dns field into the table.
fn read_dns_entry(table: &mut DnsTable, v: &CborValue) -> (r: Result<(), ConfigCanonicalError>)
    ensures
        match dns_with(old(table)@, v@) {
            Ok(after) => r is Ok && final(table)@ == after,
            Err(e) => r matches Err(f) && f@ == e,
        },
{
    let entry: &Vec<CborValue> = match v {
        CborValue::Array(entry) => entry,
        _ => return Err(ConfigCanonicalError::WrongFieldType("dns")),
    };
    proof {
        lemma_contents_index(entry@);
    }
    if entry.len() != 2 {
        return Err(ConfigCanonicalError::WrongFieldType("dns"));
    }
    let name: &String = match &entry[0] {
        CborValue::Text(name) => name,
        _ => return Err(ConfigCanonicalError::WrongFieldType("dns.name")),
    };
    let len: usize = name.as_str().as_bytes().len();
    if len > MAX_DNS_NAME_LEN {
        return Err(ConfigCanonicalError::DnsNameTooLong(len));
    }
    let actor: usize = match read_usize(&entry[1], "dns.actor") {
        Ok(n) => n,
        Err(e) => return Err(e),
    };
    if table.insert(name.as_str(), actor) {
        return Err(ConfigCanonicalError::DuplicateDnsName(name.clone()));
    }
    Ok(())
}

fn read_dns(v: &CborValue) -> (r: Result<DnsTable, ConfigCanonicalError>)
    ensures
        match dns_of(v@) {
            Ok(table) => r matches Ok(found) && found@ == table,
            Err(e) => r matches Err(f) && f@ == e,
        },
{
    let items: &Vec<CborValue> = match v {
        CborValue::Array(items) => items,
        _ => return Err(ConfigCanonicalError::WrongFieldType("dns")),
    };
    let ghost all = contents(items@);
    proof {
        lemma_contents_index(items@);
    }
    let mut table: DnsTable = DnsTable::new();
    let mut i: usize = 0;
    assert(all.take(0) =~= Seq::<Cbor>::empty());
    while i < items.len()
        invariant
            i <= items@.len() == all.len(),
            all == contents(items@),
            v@ == Cbor::Array(all),
            dns_table(all.take(i as int)) == Ok::<Seq<(Seq<char>, usize)>, Rejection>(table@),
            forall|j: int| 0 <= j < items@.len() ==> #[trigger] all[j] == content(items@[j]),
        decreases items@.len() - i,
    {
        let ghost next = all.take(i + 1);
        assert(next.drop_last() =~= all.take(i as int));
        assert(next.last() == all[i as int]);
        if let Err(e) = read_dns_entry(&mut table, &items[i]) {
            proof {
                lemma_dns_error(all, i + 1);
            }
            return Err(e);
        }
        i = i + 1;
    }
    assert(all.take(i as int) =~= all);
    Ok(table)
}

fn read_fault(v: &CborValue) -> (r: Result<SimFault, ConfigCanonicalError>)
    ensures
        same(r, fault_of(v@)),
{
    let items: &Vec<CborValue> = match v {
        CborValue::Array(items) => items,
        _ => return Err(ConfigCanonicalError::WrongFieldType("fault_schedule")),
    };
    proof {
        lemma_contents_index(items@);
    }
    if items.len() == 0 {
        return Err(ConfigCanonicalError::WrongFieldType("fault_schedule"));
    }
    let tag: u64 = match &items[0] {
        CborValue::Unsigned(tag) => *tag,
        _ => return Err(ConfigCanonicalError::WrongFieldType("fault_schedule")),
    };
    if tag > 5 {
        return Err(ConfigCanonicalError::InvalidFaultTag(tag));
    }
    let expected: usize = if tag == 0 || tag == 3 {
        2
    } else {
        3
    };
    if items.len() != expected {
        return Err(ConfigCanonicalError::WrongFieldType("fault_schedule"));
    }
    if tag == 2 {
        let src: u32 = match read_u32(&items[1], "fault_schedule.partition.src") {
            Ok(n) => n,
            Err(e) => return Err(e),
        };
        return match read_u32(&items[2], "fault_schedule.partition.dst") {
            Ok(dst) => Ok(SimFault::Partition { src: ActorId(src), dst: ActorId(dst) }),
            Err(e) => Err(e),
        };
    }
    let hash_field: &'static str = if tag == 0 {
        "fault_schedule.drop.id"
    } else if tag == 1 {
        "fault_schedule.delay.send"
    } else if tag == 3 {
        "fault_schedule.crash.id"
    } else if tag == 4 {
        "fault_schedule.corrupt.write"
    } else {
        "fault_schedule.crash_state.write"
    };
    let hash: EntryHash = match read_hash(&items[1], hash_field) {
        Ok(hash) => hash,
        Err(e) => return Err(e),
    };
    if tag == 0 {
        return Ok(SimFault::Drop(hash));
    }
    if tag == 3 {
        return Ok(SimFault::Crash(hash));
    }
    let number_field: &'static str = if tag == 1 {
        "fault_schedule.delay.ticks"
    } else if tag == 4 {
        "fault_schedule.corrupt.xor_mask"
    } else {
        "fault_schedule.crash_state.state"
    };
    let number: u64 = match read_u64(&items[2], number_field) {
        Ok(n) => n,
        Err(e) => return Err(e),
    };
    if tag == 1 {
        Ok(SimFault::Delay { send: hash, ticks: number })
    } else if tag == 4 {
        Ok(SimFault::Corrupt { write: hash, xor_mask: number })
    } else {
        Ok(SimFault::CrashState { write: hash, state: number })
    }
}

fn read_faults(v: &CborValue) -> (r: Result<Vec<SimFault>, ConfigCanonicalError>)
    ensures
        same_list(r, faults_of(v@)),
{
    let items: &Vec<CborValue> = match v {
        CborValue::Array(items) => items,
        _ => return Err(ConfigCanonicalError::WrongFieldType("fault_schedule")),
    };
    let ghost all = contents(items@);
    let ghost f = |item: Cbor| fault_of(item);
    proof {
        lemma_contents_index(items@);
    }
    let mut out: Vec<SimFault> = Vec::new();
    let mut i: usize = 0;
    assert(all.take(0) =~= Seq::<Cbor>::empty());
    while i < items.len()
        invariant
            i <= items@.len() == all.len(),
            all == contents(items@),
            f == (|item: Cbor| fault_of(item)),
            v@ == Cbor::Array(all),
            traverse(all.take(i as int), f) == Ok::<Seq<SimFault>, Rejection>(out@),
            forall|j: int| 0 <= j < items@.len() ==> #[trigger] all[j] == content(items@[j]),
        decreases items@.len() - i,
    {
        let ghost next = all.take(i + 1);
        assert(next.drop_last() =~= all.take(i as int));
        assert(next.last() == all[i as int]);
        match read_fault(&items[i]) {
            Err(e) => {
                proof {
                    lemma_traverse_error(all, f, i + 1);
                }
                return Err(e);
            },
            Ok(item) => out.push(item),
        }
        i = i + 1;
    }
    assert(all.take(i as int) =~= all);
    Ok(out)
}

fn read_fs_journaling(v: &CborValue) -> (r: Result<Option<JournalingMode>, ConfigCanonicalError>)
    ensures
        same(r, fs_journaling_of(v@)),
{
    match v {
        CborValue::Null => Ok(None),
        CborValue::Unsigned(tag) => {
            if *tag == 0 {
                Ok(Some(JournalingMode::Writeback))
            } else if *tag == 1 {
                Ok(Some(JournalingMode::Ordered))
            } else if *tag == 2 {
                Ok(Some(JournalingMode::Data))
            } else {
                Err(ConfigCanonicalError::InvalidFsJournalingTag(*tag))
            }
        },
        _ => Err(ConfigCanonicalError::WrongFieldType("fs_journaling")),
    }
}

/// Fields read so far.
struct Draft {
    dns: Option<DnsTable>,
    seed: Option<EntryHash>,
    links: Option<Vec<(usize, usize, LinkConfig)>>,
    swarm: Option<SwarmConfig>,
    policy: Option<Policy>,
    monitor: Option<bool>,
    max_steps: Option<usize>,
    fs_journaling: Option<Option<JournalingMode>>,
    dropped_events: Option<Vec<EntryHash>>,
    fault_schedule: Option<Vec<SimFault>>,
    reorder_draw: bool,
    max_file_extent: Option<u64>,
    max_resident_bytes: Option<u64>,
}

/// The view of an optional list.
spec fn list_view<T>(list: Option<Vec<T>>) -> Option<Seq<T>> {
    match list {
        Some(v) => Some(v@),
        None => None,
    }
}

impl Draft {
    spec fn partial(&self) -> Partial {
        Partial {
            dns: match self.dns {
                Some(dns) => Some(dns@),
                None => None,
            },
            seed: self.seed,
            links: list_view(self.links),
            swarm: self.swarm,
            policy: self.policy,
            monitor: self.monitor,
            max_steps: self.max_steps,
            fs_journaling: self.fs_journaling,
            dropped_events: list_view(self.dropped_events),
            fault_schedule: list_view(self.fault_schedule),
            reorder_draw: self.reorder_draw,
            max_file_extent: self.max_file_extent,
            max_resident_bytes: self.max_resident_bytes,
        }
    }

    /// Nothing read.
    fn new() -> (draft: Draft)
        ensures
            draft.partial() == nothing_read(),
    {
        Draft {
            dns: None,
            seed: None,
            links: None,
            swarm: None,
            policy: None,
            monitor: None,
            max_steps: None,
            fs_journaling: None,
            dropped_events: None,
            fault_schedule: None,
            reorder_draw: false,
            max_file_extent: None,
            max_resident_bytes: None,
        }
    }

    /// Read one field of known position.
    fn absorb_field(&mut self, index: usize, v: &CborValue) -> (r: Result<
        (),
        ConfigCanonicalError,
    >)
        requires
            index <= 12,
        ensures
            match absorb_field(old(self).partial(), index as int, v@) {
                Ok(p) => r is Ok && final(self).partial() == p,
                Err(e) => r matches Err(f) && f@ == e,
            },
    {
        if index == 0 {
            match read_dns(v) {
                Ok(dns) => self.dns = Some(dns),
                Err(e) => return Err(e),
            }
        } else if index == 1 {
            match read_hash(v, "seed") {
                Ok(seed) => self.seed = Some(seed),
                Err(e) => return Err(e),
            }
        } else if index == 2 {
            match read_links(v) {
                Ok(links) => self.links = Some(links),
                Err(e) => return Err(e),
            }
        } else if index == 3 {
            match read_swarm(v) {
                Ok(swarm) => self.swarm = Some(swarm),
                Err(e) => return Err(e),
            }
        } else if index == 4 {
            match read_policy(v) {
                Ok(policy) => self.policy = Some(policy),
                Err(e) => return Err(e),
            }
        } else if index == 5 {
            match read_bool(v, "monitor") {
                Ok(monitor) => self.monitor = Some(monitor),
                Err(e) => return Err(e),
            }
        } else if index == 6 {
            match read_usize(v, "max_steps") {
                Ok(max_steps) => self.max_steps = Some(max_steps),
                Err(e) => return Err(e),
            }
        } else if index == 7 {
            match read_fs_journaling(v) {
                Ok(mode) => self.fs_journaling = Some(mode),
                Err(e) => return Err(e),
            }
        } else if index == 8 {
            match read_hash_list(v, "dropped_events") {
                Ok(hashes) => self.dropped_events = Some(hashes),
                Err(e) => return Err(e),
            }
        } else if index == 9 {
            match read_faults(v) {
                Ok(faults) => self.fault_schedule = Some(faults),
                Err(e) => return Err(e),
            }
        } else if index == 10 {
            match read_bool(v, "reorder_draw") {
                Ok(reorder_draw) => self.reorder_draw = reorder_draw,
                Err(e) => return Err(e),
            }
        } else if index == 11 {
            match read_optional(v, "max_file_extent") {
                Ok(max_file_extent) => self.max_file_extent = max_file_extent,
                Err(e) => return Err(e),
            }
        } else {
            match read_optional(v, "max_resident_bytes") {
                Ok(max_resident_bytes) => self.max_resident_bytes = max_resident_bytes,
                Err(e) => return Err(e),
            }
        }
        Ok(())
    }

    /// Read one entry of the field map.
    fn absorb(&mut self, key: &CborValue, v: &CborValue) -> (r: Result<(), ConfigCanonicalError>)
        ensures
            match absorb(old(self).partial(), key@, v@) {
                Ok(p) => r is Ok && final(self).partial() == p,
                Err(e) => r matches Err(f) && f@ == e,
            },
    {
        match key {
            CborValue::Text(name) => match find_field(name.as_str()) {
                Some(index) => self.absorb_field(index, v),
                None => Err(ConfigCanonicalError::UnknownField(name.clone())),
            },
            _ => Err(ConfigCanonicalError::WrongFieldType("map key")),
        }
    }

    /// The configuration that the fields make up.
    fn complete(self) -> (r: Result<RunConfig, ConfigCanonicalError>)
        ensures
            match complete(self.partial()) {
                Ok(m) => r matches Ok(config) && config@ == m,
                Err(e) => r matches Err(f) && f@ == e,
            },
    {
        let dns: DnsTable = match take_field(self.dns, "dns") {
            Ok(x) => x,
            Err(e) => return Err(e),
        };
        let seed: EntryHash = match take_field(self.seed, "seed") {
            Ok(x) => x,
            Err(e) => return Err(e),
        };
        let links: Vec<(usize, usize, LinkConfig)> = match take_field(self.links, "links") {
            Ok(x) => x,
            Err(e) => return Err(e),
        };
        let swarm: SwarmConfig = match take_field(self.swarm, "swarm") {
            Ok(x) => x,
            Err(e) => return Err(e),
        };
        let policy: Policy = match take_field(self.policy, "policy") {
            Ok(x) => x,
            Err(e) => return Err(e),
        };
        let monitor: bool = match take_field(self.monitor, "monitor") {
            Ok(x) => x,
            Err(e) => return Err(e),
        };
        let max_steps: usize = match take_field(self.max_steps, "max_steps") {
            Ok(x) => x,
            Err(e) => return Err(e),
        };
        let fs_journaling: Option<JournalingMode> = match take_field(
            self.fs_journaling,
            "fs_journaling",
        ) {
            Ok(x) => x,
            Err(e) => return Err(e),
        };
        let dropped_events: Vec<EntryHash> = match take_field(
            self.dropped_events,
            "dropped_events",
        ) {
            Ok(x) => x,
            Err(e) => return Err(e),
        };
        let fault_schedule: Vec<SimFault> = match take_field(
            self.fault_schedule,
            "fault_schedule",
        ) {
            Ok(x) => x,
            Err(e) => return Err(e),
        };
        Ok(
            RunConfigBuilder::new().seed(seed).policy(policy).max_steps(max_steps).dropped_events(
                dropped_events,
            ).swarm(swarm).links(links).dns(dns).fault_schedule(fault_schedule).monitor(
                monitor,
            ).reorder_draw(self.reorder_draw).fs_budgets(
                self.max_file_extent,
                self.max_resident_bytes,
            ).fs_journaling(fs_journaling).build(),
        )
    }
}

/// Take one decoded field.
fn take_field<T>(field: Option<T>, name: &'static str) -> (r: Result<T, ConfigCanonicalError>)
    ensures
        match field {
            Some(x) => r == Ok::<T, ConfigCanonicalError>(x),
            None => r == Err::<T, ConfigCanonicalError>(ConfigCanonicalError::MissingField(name)),
        },
{
    match field {
        Some(x) => Ok(x),
        None => Err(ConfigCanonicalError::MissingField(name)),
    }
}

/// Position of a field name in the format, if it is one.
fn find_field(name: &str) -> (index: Option<usize>)
    ensures
        match field_index(name@) {
            Some(i) => index matches Some(found) && found == i && found <= 12,
            None => index is None,
        },
{
    if same_text(name, "dns") {
        Some(0)
    } else if same_text(name, "seed") {
        Some(1)
    } else if same_text(name, "links") {
        Some(2)
    } else if same_text(name, "swarm") {
        Some(3)
    } else if same_text(name, "policy") {
        Some(4)
    } else if same_text(name, "monitor") {
        Some(5)
    } else if same_text(name, "max_steps") {
        Some(6)
    } else if same_text(name, "fs_journaling") {
        Some(7)
    } else if same_text(name, "dropped_events") {
        Some(8)
    } else if same_text(name, "fault_schedule") {
        Some(9)
    } else if same_text(name, "reorder_draw") {
        Some(10)
    } else if same_text(name, "max_file_extent") {
        Some(11)
    } else if same_text(name, "max_resident_bytes") {
        Some(12)
    } else {
        None
    }
}

/// An error among the first entries is the error of all of them.
proof fn lemma_absorb_error(entries: Seq<(Cbor, Cbor)>, i: int)
    requires
        0 <= i <= entries.len(),
        absorb_all(entries.take(i)) is Err,
    ensures
        absorb_all(entries) == absorb_all(entries.take(i)),
    decreases entries.len() - i,
{
    if i == entries.len() {
        assert(entries.take(i) =~= entries);
    } else {
        assert(entries.take(i + 1).drop_last() =~= entries.take(i));
        lemma_absorb_error(entries, i + 1);
    }
}

/// The configuration that a document holds.
fn read_document(doc: &CborValue) -> (r: Result<RunConfig, ConfigCanonicalError>)
    ensures
        match config_of_document(doc@) {
            Ok(m) => r matches Ok(config) && config@ == m,
            Err(e) => r matches Err(f) && f@ == e,
        },
{
    let items: &Vec<CborValue> = match doc {
        CborValue::Array(items) => items,
        _ => return Err(ConfigCanonicalError::WrongDocumentShape),
    };
    proof {
        lemma_contents_index(items@);
    }
    if items.len() != 2 {
        return Err(ConfigCanonicalError::WrongDocumentShape);
    }
    let version: u64 = match &items[0] {
        CborValue::Unsigned(version) => *version,
        _ => return Err(ConfigCanonicalError::WrongDocumentShape),
    };
    if version != FORMAT_VERSION {
        return Err(ConfigCanonicalError::UnsupportedVersion(version));
    }
    let entries: &Vec<(CborValue, CborValue)> = match &items[1] {
        CborValue::Dict(entries) => entries,
        _ => return Err(ConfigCanonicalError::WrongDocumentShape),
    };
    let ghost all = entry_contents(entries@);
    proof {
        lemma_entry_contents_index(entries@);
    }
    let mut draft: Draft = Draft::new();
    let mut i: usize = 0;
    assert(all.take(0) =~= Seq::<(Cbor, Cbor)>::empty());
    while i < entries.len()
        invariant
            i <= entries@.len() == all.len(),
            absorb_all(all.take(i as int)) == Ok::<Partial, Rejection>(draft.partial()),
            config_of_document(doc@) == (match absorb_all(all) {
                Err(e) => Err(e),
                Ok(p) => complete(p),
            }),
            forall|j: int|
                0 <= j < entries@.len() ==> #[trigger] all[j] == (
                    content(entries@[j].0),
                    content(entries@[j].1),
                ),
        decreases entries@.len() - i,
    {
        let ghost next = all.take(i + 1);
        assert(next.drop_last() =~= all.take(i as int));
        assert(next.last() == all[i as int]);
        if let Err(e) = draft.absorb(&entries[i].0, &entries[i].1) {
            proof {
                lemma_absorb_error(all, i + 1);
            }
            return Err(e);
        }
        i = i + 1;
    }
    assert(all.take(i as int) =~= all);
    draft.complete()
}

/// Decode versioned canonical bytes back into a [`RunConfig`].
///
/// # Errors
/// Returns [`ConfigCanonicalError`] for a wrong version, malformed or
/// non-canonical CBOR, an unknown or missing field, a wrong field type, a
/// non-finite float, an out-of-range integer, an oversized or duplicate DNS
/// name, or an unknown policy, fault or journaling tag.
pub fn from_canonical_bytes(input: &[u8]) -> (r: Result<RunConfig, ConfigCanonicalError>)
    ensures
        match config_of(input@) {
            Ok(m) => r matches Ok(config) && config@ == m,
            Err(e) => r matches Err(f) && f@ == e,
        },
{
    match CborValue::from_canonical_bytes(input) {
        Err(e) => Err(ConfigCanonicalError::Cbor(e)),
        Ok(doc) => read_document(&doc),
    }
}

} // verus!
