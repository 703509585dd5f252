//! The bytes of the canonical form, and what a configuration document holds.

use crate::bytes::{be, be_value, lemma_lex_total, lemma_lex_transitive, lex_less};
use crate::cbor::{
    argument, bytes_of, canonical, decoded, encoded, encoded_entries, encoded_items, head, joined,
    key_follows, key_less, lemma_decode_of_encode, parsed, place, slot, Cbor, CborError,
    MAX_NESTING,
};
use crate::config::{JournalingMode, Policy, RunModel, SimFault, SwarmConfig};
use crate::config_canonical::{
    fault_value, faults_value, fields_of, link_value, links_value, policy_value, swarm_value,
    ConfigCanonicalError, FORMAT_VERSION, MAX_DNS_NAME_LEN,
};
use crate::float::{
    double_of_half, double_of_single, finite, fits_half, fits_single, lemma_half_candidate,
    lemma_single_candidate, magnitude, single_of_half,
};
use crate::ids::{ActorId, EntryHash};
use crate::net::{LinkConfig, QueueFullPolicy, MAX_REORDER_WINDOW};
use crate::probability::Probability;
use vstd::prelude::*;
use vstd::utf8::encode_utf8;

verus! {

/// The head of an item: its kind in the upper three bits of the first byte, and
/// the shortest of five forms for its number, the most significant byte first.
pub proof fn law_heads_are_shortest(kind: nat, n: u64)
    requires
        kind < 8,
    ensures
        head(kind, n as nat) == if n < 24 {
            seq![(32 * kind + n) as u8]
        } else if n < 0x100 {
            seq![(32 * kind + 24) as u8, n as u8]
        } else if n < 0x1_0000 {
            seq![(32 * kind + 25) as u8, (n / 0x100) as u8, (n % 0x100) as u8]
        } else if n < 0x1_0000_0000 {
            seq![
                (32 * kind + 26) as u8,
                (n / 0x100_0000) as u8,
                (n / 0x1_0000 % 0x100) as u8,
                (n / 0x100 % 0x100) as u8,
                (n % 0x100) as u8,
            ]
        } else {
            seq![
                (32 * kind + 27) as u8,
                (n / 0x100_0000_0000_0000) as u8,
                (n / 0x1_0000_0000_0000 % 0x100) as u8,
                (n / 0x100_0000_0000 % 0x100) as u8,
                (n / 0x1_0000_0000 % 0x100) as u8,
                (n / 0x100_0000 % 0x100) as u8,
                (n / 0x1_0000 % 0x100) as u8,
                (n / 0x100 % 0x100) as u8,
                (n % 0x100) as u8,
            ]
        },
{
    reveal_with_fuel(be, 9);
    let m = n as nat;
    assert(m / 256 / 256 == m / 0x1_0000);
    assert(m / 0x1_0000 / 256 == m / 0x100_0000);
    assert(m / 0x100_0000 / 256 == m / 0x1_0000_0000);
    assert(m / 0x1_0000_0000 / 256 == m / 0x100_0000_0000);
    assert(m / 0x100_0000_0000 / 256 == m / 0x1_0000_0000_0000);
    assert(m / 0x1_0000_0000_0000 / 256 == m / 0x100_0000_0000_0000);
    assert(m / 0x100_0000_0000_0000 < 256);
    if n < 24 {
        assert(head(kind, m) =~= seq![(32 * kind + n) as u8]);
    } else if n < 0x100 {
        assert(head(kind, m) =~= seq![(32 * kind + 24) as u8, n as u8]);
    } else if n < 0x1_0000 {
        assert(head(kind, m) =~= seq![
            (32 * kind + 25) as u8,
            (n / 0x100) as u8,
            (n % 0x100) as u8,
        ]);
    } else if n < 0x1_0000_0000 {
        assert(head(kind, m) =~= seq![
            (32 * kind + 26) as u8,
            (n / 0x100_0000) as u8,
            (n / 0x1_0000 % 0x100) as u8,
            (n / 0x100 % 0x100) as u8,
            (n % 0x100) as u8,
        ]);
    } else {
        assert(head(kind, m) =~= seq![
            (32 * kind + 27) as u8,
            (n / 0x100_0000_0000_0000) as u8,
            (n / 0x1_0000_0000_0000 % 0x100) as u8,
            (n / 0x100_0000_0000 % 0x100) as u8,
            (n / 0x1_0000_0000 % 0x100) as u8,
            (n / 0x100_0000 % 0x100) as u8,
            (n / 0x1_0000 % 0x100) as u8,
            (n / 0x100 % 0x100) as u8,
            (n % 0x100) as u8,
        ]);
    }
}

/// What an item is told by the kind in its head; strings follow their length,
/// and the simple values are one byte each.
pub proof fn law_items_tell_their_kind(n: u64, bytes: Seq<u8>, text: Seq<char>)
    ensures
        encoded(Cbor::Unsigned(n)) == Ok::<Seq<u8>, CborError>(head(0, n as nat)),
        encoded(Cbor::Negative(n)) == Ok::<Seq<u8>, CborError>(head(1, n as nat)),
        encoded(Cbor::Bytes(bytes)) == Ok::<Seq<u8>, CborError>(head(2, bytes.len()) + bytes),
        encoded(Cbor::Text(text)) == Ok::<Seq<u8>, CborError>(
            head(3, encode_utf8(text).len()) + encode_utf8(text),
        ),
        encoded(Cbor::Bool(false)) == Ok::<Seq<u8>, CborError>(seq![244u8]),
        encoded(Cbor::Bool(true)) == Ok::<Seq<u8>, CborError>(seq![245u8]),
        encoded(Cbor::Null) == Ok::<Seq<u8>, CborError>(seq![246u8]),
{
}

/// A float takes the narrowest of three forms that hold its value: two, four or
/// eight bytes behind a sign of its own. A NaN and a negative zero have none.
pub proof fn law_floats_take_the_narrowest_form(h: u16, s: u32, bits: u64)
    ensures
        encoded(Cbor::Float(bits)) is Err <==> magnitude(bits) > 0x7ff0_0000_0000_0000 || bits
            == 0x8000_0000_0000_0000,
        bits == double_of_half(h) && encoded(Cbor::Float(bits)) is Ok ==> encoded(
            Cbor::Float(bits),
        )->Ok_0 == seq![249u8, (h / 0x100) as u8, (h % 0x100) as u8],
        bits == double_of_single(s) && !fits_half(bits) && encoded(Cbor::Float(bits)) is Ok
            ==> encoded(Cbor::Float(bits))->Ok_0 == seq![
            250u8,
            (s / 0x100_0000) as u8,
            (s / 0x1_0000 % 0x100) as u8,
            (s / 0x100 % 0x100) as u8,
            (s % 0x100) as u8,
        ],
        !fits_half(bits) && !fits_single(bits) && encoded(Cbor::Float(bits)) is Ok ==> encoded(
            Cbor::Float(bits),
        )->Ok_0 == seq![251u8] + be(bits as nat, 8),
{
    reveal_with_fuel(be, 5);
    if bits == double_of_half(h) {
        let found = choose|k: u16| double_of_half(k) == bits;
        lemma_single_candidate(single_of_half(h));
        lemma_single_candidate(single_of_half(found));
        lemma_half_candidate(h);
        lemma_half_candidate(found);
        assert(found == h);
        assert(seq![249u8] + be(h as nat, 2) =~= seq![
            249u8,
            (h / 0x100) as u8,
            (h % 0x100) as u8,
        ]);
    }
    if bits == double_of_single(s) {
        let found = choose|k: u32| double_of_single(k) == bits;
        lemma_single_candidate(s);
        lemma_single_candidate(found);
        assert(found == s);
        let n = s as nat;
        assert(n / 256 / 256 == n / 0x1_0000);
        assert(n / 0x1_0000 / 256 == n / 0x100_0000);
        assert(n / 0x100_0000 < 256);
        assert(seq![250u8] + be(n, 4) =~= seq![
            250u8,
            (s / 0x100_0000) as u8,
            (s / 0x1_0000 % 0x100) as u8,
            (s / 0x100 % 0x100) as u8,
            (s % 0x100) as u8,
        ]);
    }
}

/// An array is its head and its items one after the other: one more item counts
/// in the head and stands behind the others.
pub proof fn law_arrays_hold_their_items(items: Seq<Cbor>, item: Cbor, body: Seq<u8>)
    requires
        encoded(Cbor::Array(items)) == Ok::<Seq<u8>, CborError>(head(4, items.len()) + body),
    ensures
        encoded(Cbor::Array(Seq::empty())) == Ok::<Seq<u8>, CborError>(head(4, 0)),
        match encoded(item) {
            Ok(bytes) => encoded(Cbor::Array(items.push(item))) == Ok::<Seq<u8>, CborError>(
                head(4, items.len() + 1) + (body + bytes),
            ),
            Err(e) => encoded(Cbor::Array(items.push(item))) == Err::<Seq<u8>, CborError>(e),
        },
{
    let none = Seq::<Cbor>::empty();
    assert(encoded_items(none) == Ok::<Seq<u8>, CborError>(Seq::empty()));
    assert(head(4, 0) + Seq::<u8>::empty() =~= head(4, 0));
    let more = items.push(item);
    assert(more.drop_last() =~= items);
    let front = encoded_items(items)->Ok_0;
    let h = head(4, items.len());
    assert((h + front).skip(h.len() as int) =~= front);
    assert((h + body).skip(h.len() as int) =~= body);
}

/// One key stands before another: the shorter one, or of two that are equally
/// long the one with the smaller byte where they first differ.
pub open spec fn comes_before(a: Seq<u8>, b: Seq<u8>) -> bool {
    a.len() < b.len() || (a.len() == b.len() && exists|k: int| #[trigger] smaller_at(a, b, k))
}

/// The first difference of two byte strings, with the smaller byte in the first.
pub open spec fn smaller_at(a: Seq<u8>, b: Seq<u8>, k: int) -> bool {
    &&& 0 <= k < a.len() && k < b.len() && a[k] < b[k]
    &&& forall|j: int| 0 <= j < k ==> #[trigger] a[j] == b[j]
}

proof fn lemma_smaller(a: Seq<u8>, b: Seq<u8>)
    requires
        a.len() == b.len(),
    ensures
        lex_less(a, b) <==> exists|k: int| #[trigger] smaller_at(a, b, k),
    decreases a.len(),
{
    if a.len() > 0 {
        let (x, y) = (a.drop_first(), b.drop_first());
        lemma_smaller(x, y);
        if a[0] < b[0] {
            assert(smaller_at(a, b, 0));
        } else if a[0] == b[0] {
            if lex_less(x, y) {
                let k = choose|k: int| #[trigger] smaller_at(x, y, k);
                assert forall|j: int| 0 <= j < k + 1 implies #[trigger] a[j] == b[j] by {
                    if j > 0 {
                        assert(x[j - 1] == y[j - 1]);
                    }
                }
                assert(smaller_at(a, b, k + 1));
            }
            if exists|k: int| #[trigger] smaller_at(a, b, k) {
                let k = choose|k: int| #[trigger] smaller_at(a, b, k);
                assert forall|j: int| 0 <= j < k - 1 implies #[trigger] x[j] == y[j] by {
                    assert(a[j + 1] == b[j + 1]);
                }
                assert(smaller_at(x, y, k - 1));
            }
        } else {
            assert forall|k: int| !#[trigger] smaller_at(a, b, k) by {
                if k > 0 && smaller_at(a, b, k) {
                    assert(a[0] == b[0]);
                }
            }
        }
    }
}

/// The canonical key order.
pub proof fn law_shorter_keys_come_first(a: Seq<u8>, b: Seq<u8>)
    ensures
        key_less(a, b) <==> comes_before(a, b),
{
    if a.len() == b.len() {
        lemma_smaller(a, b);
    }
}

/// The keys of the pairs ascend.
pub open spec fn keys_ascend(pairs: Seq<(Seq<u8>, Seq<u8>)>) -> bool {
    forall|i: int, j: int|
        0 <= i < j < pairs.len() ==> comes_before((#[trigger] pairs[i]).0, (#[trigger] pairs[j]).0)
}

proof fn lemma_slot(pairs: Seq<(Seq<u8>, Seq<u8>)>, key: Seq<u8>)
    ensures
        slot(pairs, key) <= pairs.len(),
        forall|i: int| 0 <= i < slot(pairs, key) ==> key_less((#[trigger] pairs[i]).0, key),
        slot(pairs, key) < pairs.len() ==> !key_less(pairs[slot(pairs, key) as int].0, key),
    decreases pairs.len(),
{
    if pairs.len() > 0 && key_less(pairs[0].0, key) {
        let rest = pairs.drop_first();
        lemma_slot(rest, key);
        assert forall|i: int| 0 <= i < slot(pairs, key) implies key_less(
            (#[trigger] pairs[i]).0,
            key,
        ) by {
            if i > 0 {
                assert(rest[i - 1] == pairs[i]);
            }
        }
    }
}

proof fn lemma_before_transitive(a: Seq<u8>, b: Seq<u8>, c: Seq<u8>)
    requires
        comes_before(a, b),
        comes_before(b, c),
    ensures
        comes_before(a, c),
{
    law_shorter_keys_come_first(a, b);
    law_shorter_keys_come_first(b, c);
    law_shorter_keys_come_first(a, c);
    if a.len() == b.len() && b.len() == c.len() {
        lemma_lex_transitive(a, b, c);
    }
}

proof fn lemma_placed(pairs: Seq<(Seq<u8>, Seq<u8>)>, key: Seq<u8>, value: Seq<u8>)
    requires
        keys_ascend(pairs),
        place(pairs, key, value) is Ok,
    ensures
        keys_ascend(place(pairs, key, value)->Ok_0),
{
    lemma_slot(pairs, key);
    let at = slot(pairs, key) as int;
    let after = place(pairs, key, value)->Ok_0;
    if at < pairs.len() {
        let next = pairs[at].0;
        lemma_lex_total(key, next);
        law_shorter_keys_come_first(key, next);
        assert(comes_before(key, next));
    }
    assert forall|i: int, j: int| 0 <= i < j < after.len() implies comes_before(
        (#[trigger] after[i]).0,
        (#[trigger] after[j]).0,
    ) by {
        if j < at {
            assert(after[i] == pairs[i] && after[j] == pairs[j]);
        } else if j == at {
            assert(after[i] == pairs[i]);
            law_shorter_keys_come_first(pairs[i].0, key);
        } else if i < at {
            assert(after[i] == pairs[i] && after[j] == pairs[j - 1]);
        } else if i == at {
            assert(after[j] == pairs[j - 1]);
            if j - 1 > at {
                lemma_before_transitive(key, pairs[at].0, pairs[j - 1].0);
            }
        } else {
            assert(after[i] == pairs[i - 1] && after[j] == pairs[j - 1]);
        }
    }
}

/// A map is its head and then its entries in ascending order of their encoded
/// keys, so no key stands twice. Each entry stands there with its own value.
pub proof fn law_map_keys_ascend(entries: Seq<(Cbor, Cbor)>)
    requires
        encoded(Cbor::Dict(entries)) is Ok,
    ensures
        encoded_entries(entries) is Ok,
        ({
            let pairs = encoded_entries(entries)->Ok_0;
            &&& encoded(Cbor::Dict(entries))->Ok_0 == head(5, entries.len()) + joined(pairs)
            &&& pairs.len() == entries.len() && keys_ascend(pairs)
            &&& forall|i: int|
                0 <= i < entries.len() ==> encoded((#[trigger] entries[i]).0) is Ok && encoded(
                    entries[i].1,
                ) is Ok && pairs.contains(
                    (encoded(entries[i].0)->Ok_0, encoded(entries[i].1)->Ok_0),
                )
        }),
{
    lemma_entries_ascend(entries);
}

proof fn lemma_entries_ascend(entries: Seq<(Cbor, Cbor)>)
    requires
        encoded_entries(entries) is Ok,
    ensures
        ({
            let pairs = encoded_entries(entries)->Ok_0;
            &&& pairs.len() == entries.len() && keys_ascend(pairs)
            &&& forall|i: int|
                0 <= i < entries.len() ==> encoded((#[trigger] entries[i]).0) is Ok && encoded(
                    entries[i].1,
                ) is Ok && pairs.contains(
                    (encoded(entries[i].0)->Ok_0, encoded(entries[i].1)->Ok_0),
                )
        }),
    decreases entries.len(),
{
    if entries.len() > 0 {
        let front = entries.drop_last();
        lemma_entries_ascend(front);
        let pairs = encoded_entries(front)->Ok_0;
        let key = encoded(entries.last().0)->Ok_0;
        let value = encoded(entries.last().1)->Ok_0;
        lemma_placed(pairs, key, value);
        lemma_slot(pairs, key);
        let at = slot(pairs, key) as int;
        let after = encoded_entries(entries)->Ok_0;
        assert forall|i: int| 0 <= i < entries.len() implies encoded((#[trigger] entries[i]).0)
            is Ok && encoded(entries[i].1) is Ok && after.contains(
            (encoded(entries[i].0)->Ok_0, encoded(entries[i].1)->Ok_0),
        ) by {
            if i == entries.len() - 1 {
                assert(after[at] == (key, value));
            } else {
                assert(front[i] == entries[i]);
                let pair = (encoded(front[i].0)->Ok_0, encoded(front[i].1)->Ok_0);
                let k = choose|k: int| 0 <= k < pairs.len() && pairs[k] == pair;
                if k < at {
                    assert(after[k] == pair);
                } else {
                    assert(after[k + 1] == pair);
                }
            }
        }
    }
}

/// Pairs follow each other, each key in front of its value.
pub proof fn law_keys_stand_before_their_values(
    pairs: Seq<(Seq<u8>, Seq<u8>)>,
    key: Seq<u8>,
    value: Seq<u8>,
)
    ensures
        joined(Seq::<(Seq<u8>, Seq<u8>)>::empty()) == Seq::<u8>::empty(),
        joined(pairs.push((key, value))) == joined(pairs) + (key + value),
{
    assert(pairs.push((key, value)).drop_last() =~= pairs);
    assert(joined(pairs) + key + value =~= joined(pairs) + (key + value));
}

/// A list of items.
pub open spec fn listed(items: Seq<Cbor>) -> Result<Cbor, ConfigCanonicalError> {
    Ok(Cbor::Array(items))
}

/// How policies are told apart in a document.
pub proof fn law_policies_have_their_numbers(changes: usize, constant: u64, mix: Probability)
    ensures
        policy_value(Policy::Random) == listed(seq![Cbor::Unsigned(0)]),
        policy_value(Policy::Pct { priority_changes: changes }) == listed(
            seq![Cbor::Unsigned(1), Cbor::Unsigned(changes as u64)],
        ),
        finite(constant) ==> policy_value(
            Policy::Bandit { exploration_constant: constant, pct_mix: mix },
        ) == listed(seq![Cbor::Unsigned(2), Cbor::Float(constant), Cbor::Float(mix@)]),
        !finite(constant) ==> policy_value(
            Policy::Bandit { exploration_constant: constant, pct_mix: mix },
        ) is Err,
        policy_value(Policy::Replay) == listed(seq![Cbor::Unsigned(3)]),
        policy_value(Policy::Dpor) == listed(seq![Cbor::Unsigned(4)]),
{
}

/// How faults are told apart in a document; a duplicated send has no place in
/// one.
pub proof fn law_faults_have_their_numbers(id: EntryHash, src: ActorId, dst: ActorId, n: u64)
    ensures
        fault_value(SimFault::Drop(id)) == listed(seq![Cbor::Unsigned(0), Cbor::Bytes(id@)]),
        fault_value(SimFault::Delay { send: id, ticks: n }) == listed(
            seq![Cbor::Unsigned(1), Cbor::Bytes(id@), Cbor::Unsigned(n)],
        ),
        fault_value(SimFault::Partition { src, dst }) == listed(
            seq![Cbor::Unsigned(2), Cbor::Unsigned(src.0 as u64), Cbor::Unsigned(dst.0 as u64)],
        ),
        fault_value(SimFault::Crash(id)) == listed(seq![Cbor::Unsigned(3), Cbor::Bytes(id@)]),
        fault_value(SimFault::Corrupt { write: id, xor_mask: n }) == listed(
            seq![Cbor::Unsigned(4), Cbor::Bytes(id@), Cbor::Unsigned(n)],
        ),
        fault_value(SimFault::CrashState { write: id, state: n }) == listed(
            seq![Cbor::Unsigned(5), Cbor::Bytes(id@), Cbor::Unsigned(n)],
        ),
        fault_value(SimFault::Duplicate { send: id }) is Err,
{
}

/// How links and swarm parameters stand in a document: a link holds its delays,
/// its loss and its window, and its queue only where that is not the default.
/// Bounds without a draw, and windows beyond the greatest, have no place in one.
pub proof fn law_links_and_swarm_stand_in_order(link: LinkConfig, swarm: SwarmConfig)
    ensures
        link.jitter == u64::MAX || link.reorder_window > 65_536 <==> link_value(link) is Err,
        link_value(link) matches Ok(item) ==> {
            let plain = seq![
                Cbor::Unsigned(link.base_delay),
                Cbor::Unsigned(link.jitter),
                Cbor::Float(link.loss_probability@),
                Cbor::Unsigned(link.reorder_window as u64),
            ];
            let bound = match link.capacity {
                Some(n) => Cbor::Unsigned(n as u64),
                None => Cbor::Null,
            };
            item == Cbor::Array(
                match (link.capacity, link.queue_policy) {
                    (None, QueueFullPolicy::Drop) => plain,
                    (_, QueueFullPolicy::Drop) => plain.push(bound).push(Cbor::Unsigned(0)),
                    (_, QueueFullPolicy::Block) => plain.push(bound).push(Cbor::Unsigned(1)),
                },
            )
        },
        swarm.max_delay_ticks == u64::MAX <==> swarm_value(swarm) is Err,
        swarm_value(swarm) matches Ok(item) ==> item == Cbor::Array(
            seq![
                Cbor::Float(swarm.drop_probability@),
                Cbor::Float(swarm.delay_probability@),
                Cbor::Unsigned(swarm.max_delay_ticks),
                Cbor::Float(swarm.crash_probability@),
                Cbor::Unsigned(swarm.fault_classes_per_run as u64),
            ],
        ),
{
}

/// What the fields of a document hold, by their names.
pub proof fn law_fields_hold_the_configuration(m: RunModel)
    requires
        fields_of(m) is Ok,
    ensures
        ({
            let fields = fields_of(m)->Ok_0;
            &&& fields.len() == 13
            &&& fields[1] == (Cbor::Text("seed"@), Cbor::Bytes(m.seed@))
            &&& fields[5] == (Cbor::Text("monitor"@), Cbor::Bool(m.monitor))
            &&& fields[6] == (Cbor::Text("max_steps"@), Cbor::Unsigned(m.max_steps as u64))
            &&& fields[7] == (Cbor::Text("reorder_draw"@), Cbor::Bool(m.reorder_draw))
            &&& fields[8] == (
                Cbor::Text("fs_journaling"@),
                match m.fs_journaling {
                    None => Cbor::Null,
                    Some(JournalingMode::Writeback) => Cbor::Unsigned(0),
                    Some(JournalingMode::Ordered) => Cbor::Unsigned(1),
                    Some(JournalingMode::Data) => Cbor::Unsigned(2),
                },
            )
            &&& fields[11] == (
                Cbor::Text("max_file_extent"@),
                match m.max_file_extent {
                    Some(n) => Cbor::Unsigned(n),
                    None => Cbor::Null,
                },
            )
            &&& fields[12] == (
                Cbor::Text("max_resident_bytes"@),
                match m.max_resident_bytes {
                    Some(n) => Cbor::Unsigned(n),
                    None => Cbor::Null,
                },
            )
        }),
        ({
            let fields = fields_of(m)->Ok_0;
            &&& fields[0].0 == Cbor::Text("dns"@) && (fields[0].1 matches Cbor::Array(items) && {
                &&& items.len() == m.dns.len()
                &&& forall|i: int|
                    0 <= i < items.len() ==> #[trigger] items[i] == Cbor::Array(
                        seq![Cbor::Text(m.dns[i].0), Cbor::Unsigned(m.dns[i].1 as u64)],
                    )
            })
            &&& fields[2].0 == Cbor::Text("links"@) && (fields[2].1 matches Cbor::Array(items) && {
                &&& items.len() == m.links.len()
                &&& forall|i: int|
                    0 <= i < items.len() ==> link_value(m.links[i].2) is Ok && #[trigger] items[i]
                        == Cbor::Array(
                        seq![
                            Cbor::Unsigned(m.links[i].0 as u64),
                            Cbor::Unsigned(m.links[i].1 as u64),
                            link_value(m.links[i].2)->Ok_0,
                        ],
                    )
            })
            &&& fields[3] == (Cbor::Text("swarm"@), swarm_value(m.swarm)->Ok_0)
            &&& fields[4] == (Cbor::Text("policy"@), policy_value(m.policy)->Ok_0)
            &&& fields[9].0 == Cbor::Text("dropped_events"@) && (fields[9].1 matches Cbor::Array(
                items,
            ) && {
                &&& items.len() == m.dropped_events.len()
                &&& forall|i: int|
                    0 <= i < items.len() ==> #[trigger] items[i] == Cbor::Bytes(
                        m.dropped_events[i]@,
                    )
            })
            &&& fields[10].0 == Cbor::Text("fault_schedule"@) && (fields[10].1
                matches Cbor::Array(items) && {
                &&& items.len() == m.fault_schedule.len()
                &&& forall|i: int|
                    0 <= i < items.len() ==> fault_value(m.fault_schedule[i])
                        == Ok::<Cbor, ConfigCanonicalError>(#[trigger] items[i])
            })
        }),
{
    lemma_links_in_order(m.links);
    lemma_faults_in_order(m.fault_schedule);
}

proof fn lemma_links_in_order(links: Seq<(usize, usize, LinkConfig)>)
    requires
        links_value(links) is Ok,
    ensures
        ({
            let items = links_value(links)->Ok_0;
            &&& items.len() == links.len()
            &&& forall|i: int|
                0 <= i < items.len() ==> link_value(links[i].2) is Ok && #[trigger] items[i]
                    == Cbor::Array(
                    seq![
                        Cbor::Unsigned(links[i].0 as u64),
                        Cbor::Unsigned(links[i].1 as u64),
                        link_value(links[i].2)->Ok_0,
                    ],
                )
        }),
    decreases links.len(),
{
    if links.len() > 0 {
        lemma_links_in_order(links.drop_last());
    }
}

proof fn lemma_faults_in_order(faults: Seq<SimFault>)
    requires
        faults_value(faults) is Ok,
    ensures
        ({
            let items = faults_value(faults)->Ok_0;
            &&& items.len() == faults.len()
            &&& forall|i: int|
                0 <= i < items.len() ==> fault_value(faults[i]) == Ok::<Cbor, ConfigCanonicalError>(
                    #[trigger] items[i],
                )
        }),
    decreases faults.len(),
{
    if faults.len() > 0 {
        lemma_faults_in_order(faults.drop_last());
    }
}

/// The numbers of the format.
pub proof fn law_format_numbers()
    ensures
        FORMAT_VERSION == 1,
        MAX_NESTING == 32,
        MAX_DNS_NAME_LEN == 255,
        MAX_REORDER_WINDOW == 65_536,
{
}

/// An item with anything behind it is rejected for what follows it.
pub proof fn law_trailing_bytes_are_rejected(v: Cbor, rest: Seq<u8>)
    requires
        canonical(v, MAX_NESTING as nat),
        rest.len() > 0,
    ensures
        parsed(bytes_of(v) + rest) == Err::<Cbor, CborError>(CborError::TrailingBytes),
{
    lemma_decode_of_encode(v, rest, MAX_NESTING as nat);
}

/// A number that a shorter form holds is rejected in a longer one, whatever kind
/// of item it heads.
pub proof fn law_longer_forms_are_rejected(b: Seq<u8>, kind: nat, depth: nat)
    requires
        kind < 6,
        b.len() >= 9,
        b[0] == 32 * kind + 24 && b[1] < 24 || b[0] == 32 * kind + 25 && b[1] == 0 || b[0] == 32
            * kind + 26 && b[1] == 0 && b[2] == 0 || b[0] == 32 * kind + 27 && b[1] == 0 && b[2]
            == 0 && b[3] == 0 && b[4] == 0,
    ensures
        decoded(b, depth) == Err::<(Cbor, int), CborError>(CborError::NonCanonicalInteger),
{
    lemma_short_values(b);
    if b[0] == 32 * kind + 24 {
        assert(b[0] as nat % 32 == 24);
    } else if b[0] == 32 * kind + 25 {
        assert(b[0] as nat % 32 == 25);
    } else if b[0] == 32 * kind + 26 {
        assert(b[0] as nat % 32 == 26);
    } else {
        assert(b[0] as nat % 32 == 27);
    }
    assert(b[0] < 0xc0);
    assert(argument(b) == Err::<(nat, int), CborError>(CborError::NonCanonicalInteger));
}

/// One more byte of a number behind the first byte of an item.
proof fn lemma_next_byte(b: Seq<u8>, n: int)
    requires
        1 <= n < b.len(),
    ensures
        be_value(b.subrange(1, n + 1)) == 256 * be_value(b.subrange(1, n)) + b[n],
{
    let more = b.subrange(1, n + 1);
    assert(more.drop_last() =~= b.subrange(1, n));
    assert(more.last() == b[n]);
}

proof fn lemma_short_values(b: Seq<u8>)
    requires
        b.len() >= 9,
    ensures
        be_value(b.subrange(1, 2)) == b[1],
        b[1] == 0 ==> be_value(b.subrange(1, 3)) < 0x100,
        b[1] == 0 && b[2] == 0 ==> be_value(b.subrange(1, 5)) < 0x1_0000,
        b[1] == 0 && b[2] == 0 && b[3] == 0 && b[4] == 0 ==> be_value(b.subrange(1, 9))
            < 0x1_0000_0000,
{
    assert(b.subrange(1, 1) =~= Seq::<u8>::empty());
    lemma_next_byte(b, 1);
    lemma_next_byte(b, 2);
    lemma_next_byte(b, 3);
    lemma_next_byte(b, 4);
    lemma_next_byte(b, 5);
    lemma_next_byte(b, 6);
    lemma_next_byte(b, 7);
    lemma_next_byte(b, 8);
}

/// A key of a map may follow only a key that comes before it; an equal key is
/// told apart from one out of order.
pub proof fn law_keys_follow_in_order(previous: Seq<u8>, key: Seq<u8>)
    ensures
        key_follows(None, key) is Ok,
        key_follows(Some(previous), key) is Ok <==> comes_before(previous, key),
        key_follows(Some(previous), key) == Err::<(), CborError>(CborError::DuplicateKey)
            <==> previous == key,
{
    law_shorter_keys_come_first(previous, key);
    lemma_lex_total(previous, key);
}

} // verus!
