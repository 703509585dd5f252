//! What the canonical configuration bytes promise.

use crate::bytes::lex_less;
use crate::cbor::{
    bytes_of, canonical, canonical_entries, canonical_float, canonical_items, encoded,
    encoded_entries, encoded_items, head, initial, key_follows, key_less, law_encode_inverts_parse,
    law_parse_inverts_encode, parsed, Cbor, MAX_NESTING,
};
use crate::config::{Policy, RunModel, SimFault, SwarmConfig};
use crate::config_canonical::{
    absorb, absorb_all, complete, config_bytes, config_of, dns_of, dns_table, dns_value, document,
    fault_of, fault_value, faults_of, faults_value, field_entries, field_index, fields_of,
    hash_from, hash_list_of, hash_of, hashes_value, link_of, link_value, links_of, links_value,
    nothing_read, policy_of, policy_value, probability_of, swarm_of, swarm_value, traverse, word,
    ConfigCanonicalError, FORMAT_VERSION, MAX_DNS_NAME_LEN, Partial, Rejection,
};
use crate::dns::{ascending, lemma_name_slot, lemma_with_name_at_end, name_less, with_name};
use crate::float::{finite, SIGN_BIT};
use crate::ids::{lemma_hash_determined_by_bytes, EntryHash};
use crate::net::{LinkConfig, MAX_REORDER_WINDOW};
use crate::probability::{
    lemma_probability_of_bits, lemma_same_bits, probability_bits, probability_of_bits, Probability,
};
use vstd::prelude::*;
use vstd::utf8::{encode_utf8, is_ascii_chars};

verus! {

/// A link config whose loss probability is one.
pub open spec fn valid_link(link: LinkConfig) -> bool {
    probability_bits(link.loss_probability@)
}

/// Swarm parameters whose probabilities are probabilities.
pub open spec fn valid_swarm(swarm: SwarmConfig) -> bool {
    &&& probability_bits(swarm.drop_probability@)
    &&& probability_bits(swarm.delay_probability@)
    &&& probability_bits(swarm.crash_probability@)
}

/// A policy whose probability is one.
pub open spec fn valid_policy(policy: Policy) -> bool {
    policy matches Policy::Bandit { pct_mix, .. } ==> probability_bits(pct_mix@)
}

/// The parts keep the invariants of their types, and lengths fit the machine.
/// This holds of the model of every configuration that has canonical bytes, as
/// encoding one shows.
pub open spec fn valid_model(m: RunModel) -> bool {
    &&& valid_swarm(m.swarm)
    &&& valid_policy(m.policy)
    &&& forall|i: int| 0 <= i < m.links.len() ==> valid_link((#[trigger] m.links[i]).2)
    &&& ascending(m.dns)
    &&& m.links.len() <= u64::MAX
    &&& m.dns.len() <= u64::MAX
    &&& m.dropped_events.len() <= u64::MAX
    &&& m.fault_schedule.len() <= u64::MAX
    &&& forall|i: int|
        0 <= i < m.dns.len() ==> encode_utf8((#[trigger] m.dns[i]).0).len() <= usize::MAX
}

/// The configuration has canonical bytes: every link has a representable
/// jitter bound and reorder window, the swarm delay bound is representable,
/// the exploration constant is finite and no negative zero, and no fault is a
/// duplicate.
pub open spec fn encodable(m: RunModel) -> bool {
    &&& forall|i: int|
        0 <= i < m.links.len() ==> (#[trigger] m.links[i]).2.jitter != u64::MAX
            && m.links[i].2.reorder_window <= MAX_REORDER_WINDOW
    &&& m.swarm.max_delay_ticks != u64::MAX
    &&& m.policy matches Policy::Bandit { exploration_constant, .. } ==> finite(
        exploration_constant,
    ) && exploration_constant != SIGN_BIT
    &&& forall|i: int|
        0 <= i < m.fault_schedule.len() ==> !(#[trigger] m.fault_schedule[i] is Duplicate)
}

/// Every host name is within the decoder's bound.
pub open spec fn short_names(m: RunModel) -> bool {
    forall|i: int|
        0 <= i < m.dns.len() ==> encode_utf8((#[trigger] m.dns[i]).0).len() <= MAX_DNS_NAME_LEN
}

proof fn lemma_probability_is_canonical(bits: u64)
    requires
        probability_bits(bits),
    ensures
        canonical_float(bits),
        finite(bits),
{
}

proof fn lemma_links_encode(links: Seq<(usize, usize, LinkConfig)>)
    requires
        forall|i: int| 0 <= i < links.len() ==> valid_link((#[trigger] links[i]).2),
    ensures
        links_value(links) is Ok <==> forall|i: int|
            0 <= i < links.len() ==> (#[trigger] links[i]).2.jitter != u64::MAX
                && links[i].2.reorder_window <= MAX_REORDER_WINDOW,
        links_value(links) matches Ok(items) ==> {
            &&& items.len() == links.len()
            &&& forall|i: int|
                0 <= i < links.len() ==> link_value((#[trigger] links[i]).2) is Ok && items[i]
                    == Cbor::Array(
                    seq![
                        word(links[i].0),
                        word(links[i].1),
                        link_value(links[i].2)->Ok_0,
                    ],
                )
        },
    decreases links.len(),
{
    if links.len() > 0 {
        let front = links.drop_last();
        assert forall|i: int| 0 <= i < front.len() implies valid_link(
            (#[trigger] front[i]).2,
        ) by {
            assert(front[i] == links[i]);
        }
        lemma_links_encode(front);
        let last = links[links.len() - 1];
        assert(links.last() == last);
        assert forall|i: int| 0 <= i < front.len() implies front[i] == links[i] by {}
        if links_value(links) is Ok {
            let items = links_value(links)->Ok_0;
            assert forall|i: int| 0 <= i < links.len() implies link_value(
                (#[trigger] links[i]).2,
            ) is Ok && items[i] == Cbor::Array(
                seq![word(links[i].0), word(links[i].1), link_value(links[i].2)->Ok_0],
            ) && links[i].2.jitter != u64::MAX && links[i].2.reorder_window
                <= MAX_REORDER_WINDOW by {
                if i < front.len() {
                    assert(front[i] == links[i]);
                }
            }
        } else {
            if links_value(front) is Err {
                let i = choose|i: int|
                    0 <= i < front.len() && !((#[trigger] front[i]).2.jitter != u64::MAX
                        && front[i].2.reorder_window <= MAX_REORDER_WINDOW);
                assert(links[i] == front[i]);
            } else {
                assert(link_value(last.2) is Err);
            }
        }
    }
}

proof fn lemma_faults_encode(faults: Seq<SimFault>)
    ensures
        faults_value(faults) is Ok <==> forall|i: int|
            0 <= i < faults.len() ==> !(#[trigger] faults[i] is Duplicate),
        faults_value(faults) matches Ok(items) ==> {
            &&& items.len() == faults.len()
            &&& forall|i: int|
                0 <= i < faults.len() ==> fault_value(#[trigger] faults[i]) is Ok && items[i]
                    == fault_value(faults[i])->Ok_0
        },
    decreases faults.len(),
{
    if faults.len() > 0 {
        let front = faults.drop_last();
        lemma_faults_encode(front);
        let last = faults[faults.len() - 1];
        assert(faults.last() == last);
        assert forall|i: int| 0 <= i < front.len() implies front[i] == faults[i] by {}
        if faults_value(faults) is Ok {
            let items = faults_value(faults)->Ok_0;
            assert forall|i: int| 0 <= i < faults.len() implies fault_value(
                #[trigger] faults[i],
            ) is Ok && items[i] == fault_value(faults[i])->Ok_0 && !(faults[i] is Duplicate) by {
                if i < front.len() {
                    assert(front[i] == faults[i]);
                }
            }
        } else {
            if faults_value(front) is Err {
                let i = choose|i: int| 0 <= i < front.len() && #[trigger] front[i] is Duplicate;
                assert(faults[i] == front[i]);
            } else {
                assert(fault_value(last) is Err);
            }
        }
    }
}

/// Items that are all canonical make a canonical sequence.
proof fn lemma_items_canonical(items: Seq<Cbor>, depth: nat)
    requires
        forall|i: int| 0 <= i < items.len() ==> canonical(#[trigger] items[i], depth),
    ensures
        canonical_items(items, depth),
    decreases items.len(),
{
    if items.len() > 0 {
        let rest = items.drop_first();
        assert forall|i: int| 0 <= i < rest.len() implies canonical(
            #[trigger] rest[i],
            depth,
        ) by {
            assert(rest[i] == items[i + 1]);
        }
        lemma_items_canonical(rest, depth);
    }
}

/// A short array of scalars is canonical.
proof fn lemma_array_canonical(items: Seq<Cbor>, depth: nat)
    requires
        items.len() <= u64::MAX,
        forall|i: int| 0 <= i < items.len() ==> canonical(#[trigger] items[i], depth),
    ensures
        canonical(Cbor::Array(items), depth + 1),
{
    lemma_items_canonical(items, depth);
}

proof fn lemma_link_canonical(link: LinkConfig, from: usize, to: usize)
    requires
        valid_link(link),
        link_value(link) is Ok,
    ensures
        canonical(Cbor::Array(seq![word(from), word(to), link_value(link)->Ok_0]), 2),
{
    lemma_probability_is_canonical(link.loss_probability@);
    let items = link_value(link)->Ok_0->Array_0;
    assert forall|i: int| 0 <= i < items.len() implies canonical(#[trigger] items[i], 0) by {}
    lemma_array_canonical(items, 0);
    let outer = seq![word(from), word(to), link_value(link)->Ok_0];
    assert forall|i: int| 0 <= i < outer.len() implies canonical(#[trigger] outer[i], 1) by {}
    lemma_array_canonical(outer, 1);
}

proof fn lemma_fault_canonical(fault: SimFault)
    requires
        fault_value(fault) is Ok,
    ensures
        canonical(fault_value(fault)->Ok_0, 1),
{
    let items = fault_value(fault)->Ok_0->Array_0;
    assert forall|i: int| 0 <= i < items.len() implies canonical(#[trigger] items[i], 0) by {}
    lemma_array_canonical(items, 0);
}

proof fn lemma_dns_canonical(dns: Seq<(Seq<char>, usize)>)
    requires
        dns.len() <= u64::MAX,
        forall|i: int|
            0 <= i < dns.len() ==> encode_utf8((#[trigger] dns[i]).0).len() <= usize::MAX,
    ensures
        canonical(dns_value(dns), 2),
{
    let items = dns_value(dns)->Array_0;
    assert forall|i: int| 0 <= i < items.len() implies canonical(#[trigger] items[i], 1) by {
        let pair = seq![Cbor::Text(dns[i].0), word(dns[i].1)];
        assert(items[i] == Cbor::Array(pair));
        assert forall|k: int| 0 <= k < pair.len() implies canonical(#[trigger] pair[k], 0) by {}
        lemma_array_canonical(pair, 0);
    }
    lemma_array_canonical(items, 1);
}

proof fn lemma_hashes_canonical(hashes: Seq<EntryHash>)
    requires
        hashes.len() <= u64::MAX,
    ensures
        canonical(hashes_value(hashes), 1),
{
    let items = hashes_value(hashes)->Array_0;
    assert forall|i: int| 0 <= i < items.len() implies canonical(#[trigger] items[i], 0) by {
        assert(items[i] == Cbor::Bytes(hashes[i]@));
    }
    lemma_array_canonical(items, 0);
}

/// Nesting at most `a` is nesting at most `b` for a larger `b`.
proof fn lemma_canonical_deeper(v: Cbor, a: nat, b: nat)
    requires
        canonical(v, a),
        a <= b,
    ensures
        canonical(v, b),
    decreases v,
{
    match v {
        Cbor::Array(items) => {
            lemma_items_deeper(items, (a - 1) as nat, (b - 1) as nat);
        },
        Cbor::Dict(entries) => {
            lemma_entries_deeper(entries, (a - 1) as nat, (b - 1) as nat, None);
        },
        _ => {},
    }
}

proof fn lemma_items_deeper(items: Seq<Cbor>, a: nat, b: nat)
    requires
        canonical_items(items, a),
        a <= b,
    ensures
        canonical_items(items, b),
    decreases items,
{
    if items.len() > 0 {
        lemma_canonical_deeper(items[0], a, b);
        lemma_items_deeper(items.drop_first(), a, b);
    }
}

proof fn lemma_entries_deeper(
    entries: Seq<(Cbor, Cbor)>,
    a: nat,
    b: nat,
    previous: Option<Seq<u8>>,
)
    requires
        canonical_entries(entries, a, previous),
        a <= b,
    ensures
        canonical_entries(entries, b, previous),
    decreases entries,
{
    if entries.len() > 0 {
        lemma_canonical_deeper(entries[0].0, a, b);
        lemma_canonical_deeper(entries[0].1, a, b);
        lemma_entries_deeper(entries.drop_first(), a, b, Some(bytes_of(entries[0].0)));
    }
}

/// Canonical entries whose neighbouring keys ascend make a canonical map.
proof fn lemma_entries_canonical(
    entries: Seq<(Cbor, Cbor)>,
    depth: nat,
    previous: Option<Seq<u8>>,
)
    requires
        forall|i: int|
            0 <= i < entries.len() ==> canonical((#[trigger] entries[i]).0, depth) && canonical(
                entries[i].1,
                depth,
            ),
        forall|i: int|
            0 <= i < entries.len() - 1 ==> key_less(
                bytes_of((#[trigger] entries[i]).0),
                bytes_of(entries[i + 1].0),
            ),
        entries.len() > 0 ==> key_follows(previous, bytes_of(entries[0].0)) is Ok,
    ensures
        canonical_entries(entries, depth, previous),
    decreases entries.len(),
{
    if entries.len() > 0 {
        let rest = entries.drop_first();
        let first = bytes_of(entries[0].0);
        assert(canonical(entries[0].0, depth) && canonical(entries[0].1, depth));
        assert forall|i: int| 0 <= i < rest.len() implies canonical(
            (#[trigger] rest[i]).0,
            depth,
        ) && canonical(rest[i].1, depth) by {
            assert(rest[i] == entries[i + 1]);
        }
        assert forall|i: int| 0 <= i < rest.len() - 1 implies key_less(
            bytes_of((#[trigger] rest[i]).0),
            bytes_of(rest[i + 1].0),
        ) by {
            assert(rest[i] == entries[i + 1]);
            assert(rest[i + 1] == entries[i + 2]);
        }
        if rest.len() > 0 {
            assert(rest[0] == entries[1]);
            assert(key_less(bytes_of(entries[0].0), bytes_of(entries[1].0)));
        }
        lemma_entries_canonical(rest, depth, Some(first));
    }
}

/// The field names in canonical key order.
pub open spec fn field_names() -> Seq<Seq<char>> {
    seq![
        "dns"@,
        "seed"@,
        "links"@,
        "swarm"@,
        "policy"@,
        "monitor"@,
        "max_steps"@,
        "reorder_draw"@,
        "fs_journaling"@,
        "dropped_events"@,
        "fault_schedule"@,
        "max_file_extent"@,
        "max_resident_bytes"@,
    ]
}

/// Position in the format of the field at a position in key order.
spec fn format_index(i: int) -> int {
    if i <= 6 {
        i
    } else if i == 7 {
        10
    } else if i <= 10 {
        i - 1
    } else {
        i
    }
}

/// Lengths, first letters and alphabet of the field names.
proof fn lemma_names()
    ensures
        "dns"@.len() == 3 && "dns"@[0] == 'd' && is_ascii_chars("dns"@),
        "seed"@.len() == 4 && "seed"@[0] == 's' && is_ascii_chars("seed"@),
        "links"@.len() == 5 && "links"@[0] == 'l' && is_ascii_chars("links"@),
        "swarm"@.len() == 5 && "swarm"@[0] == 's' && is_ascii_chars("swarm"@),
        "policy"@.len() == 6 && "policy"@[0] == 'p' && is_ascii_chars("policy"@),
        "monitor"@.len() == 7 && "monitor"@[0] == 'm' && is_ascii_chars("monitor"@),
        "max_steps"@.len() == 9 && "max_steps"@[0] == 'm' && is_ascii_chars("max_steps"@),
        "reorder_draw"@.len() == 12 && "reorder_draw"@[0] == 'r' && is_ascii_chars("reorder_draw"@),
        "fs_journaling"@.len() == 13 && "fs_journaling"@[0] == 'f' && is_ascii_chars("fs_journaling"@),
        "dropped_events"@.len() == 14 && "dropped_events"@[0] == 'd' && is_ascii_chars("dropped_events"@),
        "fault_schedule"@.len() == 14 && "fault_schedule"@[0] == 'f' && is_ascii_chars("fault_schedule"@),
        "max_file_extent"@.len() == 15 && "max_file_extent"@[0] == 'm' && is_ascii_chars("max_file_extent"@),
        "max_resident_bytes"@.len() == 18 && "max_resident_bytes"@[0] == 'm' && is_ascii_chars("max_resident_bytes"@),
{
    reveal_strlit("dns");
    reveal_strlit("seed");
    reveal_strlit("links");
    reveal_strlit("swarm");
    reveal_strlit("policy");
    reveal_strlit("monitor");
    reveal_strlit("max_steps");
    reveal_strlit("reorder_draw");
    reveal_strlit("fs_journaling");
    reveal_strlit("dropped_events");
    reveal_strlit("fault_schedule");
    reveal_strlit("max_file_extent");
    reveal_strlit("max_resident_bytes");
}

/// Every field name is known to the format.
proof fn lemma_field_index(i: int)
    requires
        0 <= i < 13,
    ensures
        field_index(field_names()[i]) == Some(format_index(i)),
{
    lemma_names();
}

/// The canonical bytes of a short ASCII text.
proof fn lemma_short_text(name: Seq<char>)
    requires
        is_ascii_chars(name),
        0 < name.len() < 24,
    ensures
        encoded(Cbor::Text(name)) is Ok,
        canonical(Cbor::Text(name), 0),
        bytes_of(Cbor::Text(name)).len() == 1 + name.len(),
        bytes_of(Cbor::Text(name))[0] == (96 + name.len()) as u8,
        bytes_of(Cbor::Text(name))[1] == name[0] as u8,
{
    vstd::utf8::is_ascii_chars_encode_utf8(name);
    let utf8 = encode_utf8(name);
    assert(utf8.len() == name.len());
    assert(bytes_of(Cbor::Text(name)) == head(3, name.len()) + utf8);
    assert(head(3, name.len()) == initial(3, name.len()));
}

/// Field names stand in key order.
proof fn lemma_names_ascend(i: int)
    requires
        0 <= i < 12,
    ensures
        key_less(
            bytes_of(Cbor::Text(field_names()[i])),
            bytes_of(Cbor::Text(field_names()[i + 1])),
        ),
{
    lemma_names();
    let a = field_names()[i];
    let b = field_names()[i + 1];
    lemma_short_text(a);
    lemma_short_text(b);
    if a.len() == b.len() {
        let x = bytes_of(Cbor::Text(a));
        let y = bytes_of(Cbor::Text(b));
        assert(x.drop_first()[0] == x[1]);
        assert(y.drop_first()[0] == y[1]);
        reveal_with_fuel(lex_less, 3);
    }
}

spec fn entries_of(m: RunModel) -> Seq<(Cbor, Cbor)> {
    fields_of(m)->Ok_0
}

/// The field map of an encodable configuration is canonical.
proof fn lemma_fields_canonical(m: RunModel)
    requires
        valid_model(m),
        encodable(m),
    ensures
        fields_of(m) is Ok,
        entries_of(m).len() == 13,
        canonical_entries(entries_of(m), 30, None),
{
    lemma_links_encode(m.links);
    lemma_faults_encode(m.fault_schedule);
    let links = links_value(m.links)->Ok_0;
    let swarm = swarm_value(m.swarm)->Ok_0;
    let policy = policy_value(m.policy)->Ok_0;
    let faults = faults_value(m.fault_schedule)->Ok_0;
    let entries = field_entries(m, links, swarm, policy, faults);
    assert(fields_of(m) == Ok::<Seq<(Cbor, Cbor)>, ConfigCanonicalError>(entries));
    lemma_dns_canonical(m.dns);
    lemma_canonical_deeper(dns_value(m.dns), 2, 30);
    lemma_hashes_canonical(m.dropped_events);
    lemma_canonical_deeper(hashes_value(m.dropped_events), 1, 30);
    assert(canonical(Cbor::Array(links), 3)) by {
        assert forall|i: int| 0 <= i < links.len() implies canonical(#[trigger] links[i], 2) by {
            lemma_link_canonical(m.links[i].2, m.links[i].0, m.links[i].1);
        }
        lemma_array_canonical(links, 2);
    }
    lemma_canonical_deeper(Cbor::Array(links), 3, 30);
    assert(canonical(Cbor::Array(faults), 2)) by {
        assert forall|i: int| 0 <= i < faults.len() implies canonical(#[trigger] faults[i], 1) by {
            lemma_fault_canonical(m.fault_schedule[i]);
        }
        lemma_array_canonical(faults, 1);
    }
    lemma_canonical_deeper(Cbor::Array(faults), 2, 30);
    assert(canonical(swarm, 1)) by {
        lemma_probability_is_canonical(m.swarm.drop_probability@);
        lemma_probability_is_canonical(m.swarm.delay_probability@);
        lemma_probability_is_canonical(m.swarm.crash_probability@);
        let items = swarm->Array_0;
        assert forall|i: int| 0 <= i < items.len() implies canonical(#[trigger] items[i], 0) by {}
        lemma_array_canonical(items, 0);
    }
    lemma_canonical_deeper(swarm, 1, 30);
    assert(canonical(policy, 1)) by {
        let items = policy->Array_0;
        if let Policy::Bandit { exploration_constant, pct_mix } = m.policy {
            lemma_probability_is_canonical(pct_mix@);
            assert(canonical_float(exploration_constant));
        }
        assert forall|i: int| 0 <= i < items.len() implies canonical(#[trigger] items[i], 0) by {}
        lemma_array_canonical(items, 0);
    }
    lemma_canonical_deeper(policy, 1, 30);
    lemma_names();
    assert forall|i: int| 0 <= i < 13 implies (#[trigger] entries[i]).0 == Cbor::Text(
        field_names()[i],
    ) by {}
    assert forall|i: int| 0 <= i < entries.len() implies canonical((#[trigger] entries[i]).0, 30)
        && canonical(entries[i].1, 30) by {
        lemma_short_text(field_names()[i]);
        lemma_canonical_deeper(Cbor::Text(field_names()[i]), 0, 30);
    }
    assert forall|i: int| 0 <= i < entries.len() - 1 implies key_less(
        bytes_of((#[trigger] entries[i]).0),
        bytes_of(entries[i + 1].0),
    ) by {
        lemma_names_ascend(i);
        assert(entries[i].0 == Cbor::Text(field_names()[i]));
        assert(entries[i + 1].0 == Cbor::Text(field_names()[i + 1]));
    }
    lemma_entries_canonical(entries, 30, None);
}

proof fn lemma_document_canonical(m: RunModel)
    requires
        valid_model(m),
        encodable(m),
    ensures
        document(m) is Ok,
        canonical(document(m)->Ok_0, MAX_NESTING as nat),
{
    lemma_fields_canonical(m);
    let dict = Cbor::Dict(entries_of(m));
    assert(canonical(dict, 31));
    let items = seq![Cbor::Unsigned(FORMAT_VERSION), dict];
    assert forall|i: int| 0 <= i < items.len() implies canonical(#[trigger] items[i], 31) by {}
    lemma_array_canonical(items, 31);
}

/// An item without canonical bytes leaves its array without.
proof fn lemma_item_error(items: Seq<Cbor>, i: int)
    requires
        0 <= i < items.len(),
        encoded(items[i]) is Err,
    ensures
        encoded_items(items) is Err,
    decreases items.len(),
{
    if i < items.len() - 1 {
        assert(items.drop_last()[i] == items[i]);
        lemma_item_error(items.drop_last(), i);
    }
}

/// A value without canonical bytes leaves its map without.
proof fn lemma_entry_error(entries: Seq<(Cbor, Cbor)>, i: int)
    requires
        0 <= i < entries.len(),
        encoded(entries[i].1) is Err,
    ensures
        encoded_entries(entries) is Err,
    decreases entries.len(),
{
    if i < entries.len() - 1 {
        assert(entries.drop_last()[i] == entries[i]);
        lemma_entry_error(entries.drop_last(), i);
    }
}

/// A configuration has canonical bytes exactly when it is encodable.
pub proof fn law_encoding_succeeds_on_encodable(m: RunModel)
    requires
        valid_model(m),
    ensures
        config_bytes(m) is Ok <==> encodable(m),
{
    if encodable(m) {
        lemma_document_canonical(m);
        law_parse_inverts_encode(document(m)->Ok_0);
    } else {
        lemma_links_encode(m.links);
        lemma_faults_encode(m.fault_schedule);
        if document(m) is Ok {
            let doc = document(m)->Ok_0;
            let entries = entries_of(m);
            let policy = policy_value(m.policy)->Ok_0;
            assert(entries[4].1 == policy);
            assert(m.policy is Bandit && m.policy->exploration_constant == SIGN_BIT);
            let items = policy->Array_0;
            assert(items[1] == Cbor::Float(SIGN_BIT));
            assert(encoded(items[1]) is Err);
            lemma_item_error(items, 1);
            assert(encoded(policy) is Err);
            lemma_entry_error(entries, 4);
            let outer = doc->Array_0;
            assert(outer[1] == Cbor::Dict(entries));
            lemma_item_error(outer, 1);
            assert(encoded(doc) is Err);
        }
    }
}

proof fn lemma_hash_reads_back(h: EntryHash, field: &'static str)
    ensures
        hash_of(Cbor::Bytes(h@), field) == Ok::<EntryHash, Rejection>(h),
{
    let again = hash_from(h@);
    assert(again@ == h@);
    lemma_hash_determined_by_bytes(h, again);
}

proof fn lemma_probability_reads_back(p: Probability, field: &'static str)
    requires
        probability_bits(p@),
    ensures
        probability_of(Cbor::Float(p@), field) == Ok::<Probability, Rejection>(p),
{
    lemma_probability_of_bits(p@);
    lemma_same_bits(p, probability_of_bits(p@));
}

proof fn lemma_hashes_read_back(hashes: Seq<EntryHash>, field: &'static str)
    ensures
        hash_list_of(hashes_value(hashes), field) == Ok::<Seq<EntryHash>, Rejection>(hashes),
    decreases hashes.len(),
{
    let items = hashes_value(hashes)->Array_0;
    let f = |item: Cbor| hash_of(item, field);
    if hashes.len() == 0 {
        assert(hashes =~= Seq::<EntryHash>::empty());
    } else {
        let front = hashes.drop_last();
        lemma_hashes_read_back(front, field);
        assert(items.drop_last() =~= hashes_value(front)->Array_0);
        assert(items.last() == Cbor::Bytes(hashes.last()@));
        lemma_hash_reads_back(hashes.last(), field);
        assert(front.push(hashes.last()) =~= hashes);
        assert(traverse(items.drop_last(), f) == Ok::<Seq<EntryHash>, Rejection>(front));
        assert(f(items.last()) == Ok::<EntryHash, Rejection>(hashes.last()));
    }
}

proof fn lemma_link_reads_back(from: usize, to: usize, link: LinkConfig)
    requires
        valid_link(link),
        link_value(link) is Ok,
    ensures
        link_of(Cbor::Array(seq![word(from), word(to), link_value(link)->Ok_0])) == Ok::<
            (usize, usize, LinkConfig),
            Rejection,
        >((from, to, link)),
{
    lemma_probability_reads_back(link.loss_probability, "links.loss_probability");
}

proof fn lemma_links_read_back(links: Seq<(usize, usize, LinkConfig)>)
    requires
        forall|i: int| 0 <= i < links.len() ==> valid_link((#[trigger] links[i]).2),
        links_value(links) is Ok,
    ensures
        links_of(Cbor::Array(links_value(links)->Ok_0)) == Ok::<
            Seq<(usize, usize, LinkConfig)>,
            Rejection,
        >(links),
    decreases links.len(),
{
    let items = links_value(links)->Ok_0;
    let f = |item: Cbor| link_of(item);
    if links.len() == 0 {
        assert(links =~= Seq::<(usize, usize, LinkConfig)>::empty());
    } else {
        let front = links.drop_last();
        assert forall|i: int| 0 <= i < front.len() implies valid_link(
            (#[trigger] front[i]).2,
        ) by {
            assert(front[i] == links[i]);
        }
        lemma_links_read_back(front);
        let last = links.last();
        assert(last == links[links.len() - 1]);
        lemma_link_reads_back(last.0, last.1, last.2);
        assert(items.drop_last() =~= links_value(front)->Ok_0);
        assert(front.push(last) =~= links);
        assert(traverse(items.drop_last(), f) == Ok::<Seq<(usize, usize, LinkConfig)>, Rejection>(
            front,
        ));
        assert(f(items.last()) == Ok::<(usize, usize, LinkConfig), Rejection>(last));
    }
}

proof fn lemma_fault_reads_back(fault: SimFault)
    requires
        fault_value(fault) is Ok,
    ensures
        fault_of(fault_value(fault)->Ok_0) == Ok::<SimFault, Rejection>(fault),
{
    match fault {
        SimFault::Drop(id) => lemma_hash_reads_back(id, "fault_schedule.drop.id"),
        SimFault::Delay { send, .. } => lemma_hash_reads_back(send, "fault_schedule.delay.send"),
        SimFault::Crash(id) => lemma_hash_reads_back(id, "fault_schedule.crash.id"),
        SimFault::Corrupt { write, .. } => lemma_hash_reads_back(
            write,
            "fault_schedule.corrupt.write",
        ),
        SimFault::CrashState { write, .. } => lemma_hash_reads_back(
            write,
            "fault_schedule.crash_state.write",
        ),
        _ => {},
    }
}

proof fn lemma_faults_read_back(faults: Seq<SimFault>)
    requires
        faults_value(faults) is Ok,
    ensures
        faults_of(Cbor::Array(faults_value(faults)->Ok_0)) == Ok::<Seq<SimFault>, Rejection>(
            faults,
        ),
    decreases faults.len(),
{
    let items = faults_value(faults)->Ok_0;
    let f = |item: Cbor| fault_of(item);
    if faults.len() == 0 {
        assert(faults =~= Seq::<SimFault>::empty());
    } else {
        let front = faults.drop_last();
        lemma_faults_read_back(front);
        let last = faults.last();
        lemma_fault_reads_back(last);
        assert(items.drop_last() =~= faults_value(front)->Ok_0);
        assert(front.push(last) =~= faults);
        assert(traverse(items.drop_last(), f) == Ok::<Seq<SimFault>, Rejection>(front));
        assert(f(items.last()) == Ok::<SimFault, Rejection>(last));
    }
}

proof fn lemma_dns_reads_back(dns: Seq<(Seq<char>, usize)>)
    requires
        ascending(dns),
        forall|i: int|
            0 <= i < dns.len() ==> encode_utf8((#[trigger] dns[i]).0).len() <= MAX_DNS_NAME_LEN,
    ensures
        dns_of(dns_value(dns)) == Ok::<Seq<(Seq<char>, usize)>, Rejection>(dns),
    decreases dns.len(),
{
    let items = dns_value(dns)->Array_0;
    if dns.len() == 0 {
        assert(dns =~= Seq::<(Seq<char>, usize)>::empty());
    } else {
        let front = dns.drop_last();
        let last = dns.last();
        assert(last == dns[dns.len() - 1]);
        assert forall|i: int, j: int| 0 <= i < j < front.len() implies name_less(
            (#[trigger] front[i]).0,
            (#[trigger] front[j]).0,
        ) by {
            assert(front[i] == dns[i]);
            assert(front[j] == dns[j]);
        }
        assert forall|i: int| 0 <= i < front.len() implies encode_utf8(
            (#[trigger] front[i]).0,
        ).len() <= MAX_DNS_NAME_LEN by {
            assert(front[i] == dns[i]);
        }
        lemma_dns_reads_back(front);
        assert(items.drop_last() =~= dns_value(front)->Array_0);
        assert(items.last() == Cbor::Array(seq![Cbor::Text(last.0), word(last.1)]));
        assert forall|i: int| 0 <= i < front.len() implies name_less(
            (#[trigger] front[i]).0,
            last.0,
        ) by {
            assert(front[i] == dns[i]);
        }
        lemma_with_name_at_end(front, last.0, last.1);
        assert(front.push(last) =~= dns);
    }
}

proof fn lemma_absorb_step(entries: Seq<(Cbor, Cbor)>, i: int, p: Partial)
    requires
        0 <= i < entries.len(),
        absorb_all(entries.take(i)) == Ok::<Partial, Rejection>(p),
    ensures
        absorb_all(entries.take(i + 1)) == absorb(p, entries[i].0, entries[i].1),
{
    assert(entries.take(i + 1).drop_last() =~= entries.take(i));
    assert(entries.take(i + 1).last() == entries[i]);
}

/// The field map of a configuration reads back as the configuration.
proof fn lemma_fields_read_back(m: RunModel)
    requires
        valid_model(m),
        encodable(m),
        short_names(m),
    ensures
        fields_of(m) is Ok,
        (match absorb_all(entries_of(m)) {
            Err(e) => Err(e),
            Ok(p) => complete(p),
        }) == Ok::<RunModel, Rejection>(m),
{
    lemma_fields_canonical(m);
    let entries = entries_of(m);
    lemma_dns_reads_back(m.dns);
    lemma_hash_reads_back(m.seed, "seed");
    lemma_links_encode(m.links);
    lemma_links_read_back(m.links);
    lemma_faults_encode(m.fault_schedule);
    lemma_faults_read_back(m.fault_schedule);
    lemma_hashes_read_back(m.dropped_events, "dropped_events");
    assert(swarm_of(entries[3].1) == Ok::<SwarmConfig, Rejection>(m.swarm)) by {
        lemma_probability_reads_back(m.swarm.drop_probability, "swarm.drop_probability");
        lemma_probability_reads_back(m.swarm.delay_probability, "swarm.delay_probability");
        lemma_probability_reads_back(m.swarm.crash_probability, "swarm.crash_probability");
    }
    assert(policy_of(entries[4].1) == Ok::<Policy, Rejection>(m.policy)) by {
        if let Policy::Bandit { pct_mix, .. } = m.policy {
            lemma_probability_reads_back(pct_mix, "policy.bandit.pct_mix");
        }
    }
    assert forall|i: int| 0 <= i < 13 implies (#[trigger] entries[i]).0 == Cbor::Text(
        field_names()[i],
    ) by {}
    let p0 = nothing_read();
    assert(entries.take(0) =~= Seq::<(Cbor, Cbor)>::empty());
    let p1 = Partial { dns: Some(m.dns), ..p0 };
    lemma_field_index(0);
    lemma_absorb_step(entries, 0, p0);
    let p2 = Partial { seed: Some(m.seed), ..p1 };
    lemma_field_index(1);
    lemma_absorb_step(entries, 1, p1);
    let p3 = Partial { links: Some(m.links), ..p2 };
    lemma_field_index(2);
    lemma_absorb_step(entries, 2, p2);
    let p4 = Partial { swarm: Some(m.swarm), ..p3 };
    lemma_field_index(3);
    lemma_absorb_step(entries, 3, p3);
    let p5 = Partial { policy: Some(m.policy), ..p4 };
    lemma_field_index(4);
    lemma_absorb_step(entries, 4, p4);
    let p6 = Partial { monitor: Some(m.monitor), ..p5 };
    lemma_field_index(5);
    lemma_absorb_step(entries, 5, p5);
    let p7 = Partial { max_steps: Some(m.max_steps), ..p6 };
    lemma_field_index(6);
    lemma_absorb_step(entries, 6, p6);
    let p8 = Partial { reorder_draw: m.reorder_draw, ..p7 };
    lemma_field_index(7);
    lemma_absorb_step(entries, 7, p7);
    let p9 = Partial { fs_journaling: Some(m.fs_journaling), ..p8 };
    lemma_field_index(8);
    lemma_absorb_step(entries, 8, p8);
    let p10 = Partial { dropped_events: Some(m.dropped_events), ..p9 };
    lemma_field_index(9);
    lemma_absorb_step(entries, 9, p9);
    let p11 = Partial { fault_schedule: Some(m.fault_schedule), ..p10 };
    lemma_field_index(10);
    lemma_absorb_step(entries, 10, p10);
    let p12 = Partial { max_file_extent: m.max_file_extent, ..p11 };
    lemma_field_index(11);
    lemma_absorb_step(entries, 11, p11);
    let p13 = Partial { max_resident_bytes: m.max_resident_bytes, ..p12 };
    lemma_field_index(12);
    lemma_absorb_step(entries, 12, p12);
    assert(entries.take(13) =~= entries);
    assert(absorb_all(entries) == Ok::<Partial, Rejection>(p13));
}

/// Decoding undoes encoding: the canonical bytes of a configuration decode to
/// the configuration. Host names must be within the decoder's bound.
pub proof fn law_decode_inverts_encode(m: RunModel)
    requires
        valid_model(m),
        short_names(m),
        config_bytes(m) is Ok,
    ensures
        config_of(config_bytes(m)->Ok_0) == Ok::<RunModel, Rejection>(m),
{
    law_encoding_succeeds_on_encodable(m);
    lemma_document_canonical(m);
    let doc = document(m)->Ok_0;
    law_parse_inverts_encode(doc);
    lemma_fields_read_back(m);
}

/// Different configurations have different canonical bytes: a difference in
/// any field, link capacities and queue policies among them, changes the
/// bytes.
pub proof fn law_bytes_determine_config(m: RunModel, n: RunModel)
    requires
        valid_model(m),
        valid_model(n),
        short_names(m),
        short_names(n),
        config_bytes(m) is Ok,
        config_bytes(n) is Ok,
        m != n,
    ensures
        config_bytes(m) != config_bytes(n),
{
    law_decode_inverts_encode(m);
    law_decode_inverts_encode(n);
}

/// The items of a canonical sequence are canonical.
proof fn lemma_canonical_item(items: Seq<Cbor>, depth: nat, i: int)
    requires
        canonical_items(items, depth),
        0 <= i < items.len(),
    ensures
        canonical(items[i], depth),
    decreases items.len(),
{
    if i > 0 {
        lemma_canonical_item(items.drop_first(), depth, i - 1);
    }
}

/// The values of a canonical map are canonical.
proof fn lemma_canonical_entry(
    entries: Seq<(Cbor, Cbor)>,
    depth: nat,
    previous: Option<Seq<u8>>,
    i: int,
)
    requires
        canonical_entries(entries, depth, previous),
        0 <= i < entries.len(),
    ensures
        canonical(entries[i].1, depth),
    decreases entries.len(),
{
    if i > 0 {
        lemma_canonical_entry(
            entries.drop_first(),
            depth,
            Some(bytes_of(entries[0].0)),
            i - 1,
        );
    }
}

/// A traversal that succeeds gives one result per item.
proof fn lemma_traverse_items<A>(items: Seq<Cbor>, f: spec_fn(Cbor) -> Result<A, Rejection>)
    requires
        traverse(items, f) is Ok,
    ensures
        traverse(items, f)->Ok_0.len() == items.len(),
        forall|i: int|
            0 <= i < items.len() ==> f(items[i]) == Ok::<A, Rejection>(
                #[trigger] traverse(items, f)->Ok_0[i],
            ),
    decreases items.len(),
{
    if items.len() > 0 {
        lemma_traverse_items(items.drop_last(), f);
        let front = traverse(items.drop_last(), f)->Ok_0;
        let all = traverse(items, f)->Ok_0;
        assert forall|i: int| 0 <= i < items.len() implies f(items[i]) == Ok::<A, Rejection>(
            #[trigger] all[i],
        ) by {
            if i < front.len() {
                assert(items.drop_last()[i] == items[i]);
                assert(all[i] == front[i]);
            }
        }
    }
}

/// Fields read from a document keep the invariants of their types and can be
/// encoded.
spec fn sound(p: Partial) -> bool {
    &&& p.dns matches Some(dns) ==> {
        &&& ascending(dns)
        &&& dns.len() <= u64::MAX
        &&& forall|i: int|
            0 <= i < dns.len() ==> encode_utf8((#[trigger] dns[i]).0).len() <= MAX_DNS_NAME_LEN
    }
    &&& p.links matches Some(links) ==> {
        &&& links.len() <= u64::MAX
        &&& forall|i: int|
            0 <= i < links.len() ==> valid_link((#[trigger] links[i]).2) && links[i].2.jitter
                != u64::MAX && links[i].2.reorder_window <= MAX_REORDER_WINDOW
    }
    &&& p.swarm matches Some(swarm) ==> valid_swarm(swarm) && swarm.max_delay_ticks != u64::MAX
    &&& p.policy matches Some(policy) ==> valid_policy(policy) && (
    policy matches Policy::Bandit { exploration_constant, .. } ==> finite(exploration_constant)
        && exploration_constant != SIGN_BIT)
    &&& p.dropped_events matches Some(hashes) ==> hashes.len() <= u64::MAX
    &&& p.fault_schedule matches Some(faults) ==> faults.len() <= u64::MAX && forall|i: int|
        0 <= i < faults.len() ==> !(#[trigger] faults[i] is Duplicate)
}

proof fn lemma_probability_sound(v: Cbor, field: &'static str)
    requires
        probability_of(v, field) is Ok,
    ensures
        probability_bits(probability_of(v, field)->Ok_0@),
{
    lemma_probability_of_bits(v->Float_0);
}

proof fn lemma_link_sound(v: Cbor)
    requires
        link_of(v) is Ok,
    ensures
        valid_link(link_of(v)->Ok_0.2),
        link_of(v)->Ok_0.2.jitter != u64::MAX,
        link_of(v)->Ok_0.2.reorder_window <= MAX_REORDER_WINDOW,
{
    let link = v->Array_0[2]->Array_0;
    lemma_probability_sound(link[2], "links.loss_probability");
}

proof fn lemma_dns_sound(items: Seq<Cbor>)
    requires
        dns_table(items) is Ok,
    ensures
        ascending(dns_table(items)->Ok_0),
        dns_table(items)->Ok_0.len() <= items.len(),
        forall|i: int|
            0 <= i < dns_table(items)->Ok_0.len() ==> encode_utf8(
                (#[trigger] dns_table(items)->Ok_0[i]).0,
            ).len() <= MAX_DNS_NAME_LEN,
    decreases items.len(),
{
    if items.len() > 0 {
        let front = dns_table(items.drop_last())->Ok_0;
        lemma_dns_sound(items.drop_last());
        let name = items.last()->Array_0[0]->Text_0;
        let actor = crate::config_canonical::usize_of(items.last()->Array_0[1], "dns.actor")->Ok_0;
        crate::dns::lemma_with_name_ascending(front, name, actor);
        lemma_name_slot(front, name);
        let after = with_name(front, name, actor);
        let at = crate::dns::name_slot(front, name) as int;
        assert forall|i: int| 0 <= i < after.len() implies encode_utf8(
            (#[trigger] after[i]).0,
        ).len() <= MAX_DNS_NAME_LEN by {
            if i < at {
                assert(after[i] == front[i]);
            } else if i > at {
                assert(after[i] == front[i - 1]);
            }
        }
    }
}

proof fn lemma_policy_sound(v: Cbor, depth: nat)
    requires
        policy_of(v) is Ok,
        canonical(v, depth),
    ensures
        valid_policy(policy_of(v)->Ok_0),
        policy_of(v)->Ok_0 matches Policy::Bandit { exploration_constant, .. } ==> finite(
            exploration_constant,
        ) && exploration_constant != SIGN_BIT,
{
    let items = v->Array_0;
    if policy_of(v)->Ok_0 is Bandit {
        lemma_canonical_item(items, (depth - 1) as nat, 1);
        lemma_probability_sound(items[2], "policy.bandit.pct_mix");
    }
}

proof fn lemma_swarm_sound(v: Cbor)
    requires
        swarm_of(v) is Ok,
    ensures
        valid_swarm(swarm_of(v)->Ok_0),
        swarm_of(v)->Ok_0.max_delay_ticks != u64::MAX,
{
    let items = v->Array_0;
    lemma_probability_sound(items[0], "swarm.drop_probability");
    lemma_probability_sound(items[1], "swarm.delay_probability");
    lemma_probability_sound(items[3], "swarm.crash_probability");
}

proof fn lemma_absorb_sound(p: Partial, key: Cbor, v: Cbor, depth: nat)
    requires
        sound(p),
        canonical(v, depth),
        absorb(p, key, v) is Ok,
    ensures
        sound(absorb(p, key, v)->Ok_0),
{
    let index = field_index(key->Text_0)->Some_0;
    if index == 0 {
        lemma_dns_sound(v->Array_0);
    } else if index == 2 {
        let f = |item: Cbor| link_of(item);
        lemma_traverse_items(v->Array_0, f);
        let links = links_of(v)->Ok_0;
        assert forall|i: int| 0 <= i < links.len() implies valid_link((#[trigger] links[i]).2)
            && links[i].2.jitter != u64::MAX && links[i].2.reorder_window
            <= MAX_REORDER_WINDOW by {
            assert(f(v->Array_0[i]) == Ok::<(usize, usize, LinkConfig), Rejection>(links[i]));
            lemma_link_sound(v->Array_0[i]);
        }
    } else if index == 3 {
        lemma_swarm_sound(v);
    } else if index == 4 {
        lemma_policy_sound(v, depth);
    } else if index == 8 {
        let f = |item: Cbor| hash_of(item, "dropped_events");
        lemma_traverse_items(v->Array_0, f);
    } else if index == 9 {
        let f = |item: Cbor| fault_of(item);
        lemma_traverse_items(v->Array_0, f);
        let faults = faults_of(v)->Ok_0;
        assert forall|i: int| 0 <= i < faults.len() implies !(#[trigger] faults[i] is Duplicate) by {
            assert(f(v->Array_0[i]) == Ok::<SimFault, Rejection>(faults[i]));
        }
    }
}

proof fn lemma_absorb_all_sound(entries: Seq<(Cbor, Cbor)>, depth: nat)
    requires
        forall|i: int| 0 <= i < entries.len() ==> canonical((#[trigger] entries[i]).1, depth),
        absorb_all(entries) is Ok,
    ensures
        sound(absorb_all(entries)->Ok_0),
    decreases entries.len(),
{
    if entries.len() > 0 {
        let front = entries.drop_last();
        assert forall|i: int| 0 <= i < front.len() implies canonical(
            (#[trigger] front[i]).1,
            depth,
        ) by {
            assert(front[i] == entries[i]);
        }
        lemma_absorb_all_sound(front, depth);
        assert(entries.last() == entries[entries.len() - 1]);
        lemma_absorb_sound(
            absorb_all(front)->Ok_0,
            entries.last().0,
            entries.last().1,
            depth,
        );
    }
}

/// Whatever decodes keeps the invariants of its types, has host names within
/// the bound, and can be encoded.
pub proof fn law_decoded_configs_are_encodable(b: Seq<u8>)
    requires
        config_of(b) is Ok,
    ensures
        valid_model(config_of(b)->Ok_0),
        short_names(config_of(b)->Ok_0),
        encodable(config_of(b)->Ok_0),
{
    law_encode_inverts_parse(b);
    let doc = parsed(b)->Ok_0;
    let items = doc->Array_0;
    lemma_canonical_item(items, 31, 1);
    let entries = items[1]->Dict_0;
    assert forall|i: int| 0 <= i < entries.len() implies canonical(
        (#[trigger] entries[i]).1,
        30,
    ) by {
        lemma_canonical_entry(entries, 30, None, i);
    }
    lemma_absorb_all_sound(entries, 30);
}

/// Re-encoding is stable: what canonical bytes decode to has canonical bytes
/// again, and those decode to the same configuration.
pub proof fn law_reencoding_is_stable(b: Seq<u8>)
    requires
        config_of(b) is Ok,
    ensures
        config_bytes(config_of(b)->Ok_0) is Ok,
        config_of(config_bytes(config_of(b)->Ok_0)->Ok_0) == config_of(b),
{
    let m = config_of(b)->Ok_0;
    law_decoded_configs_are_encodable(b);
    law_encoding_succeeds_on_encodable(m);
    law_decode_inverts_encode(m);
}

/// The document holds the thirteen fields in canonical key order.
pub proof fn law_document_lists_every_field(m: RunModel)
    requires
        document(m) is Ok,
    ensures
        document(m)->Ok_0 is Array,
        document(m)->Ok_0->Array_0.len() == 2,
        document(m)->Ok_0->Array_0[0] == Cbor::Unsigned(FORMAT_VERSION),
        document(m)->Ok_0->Array_0[1] matches Cbor::Dict(entries) && entries.len()
            == field_names().len() && forall|i: int|
            0 <= i < entries.len() ==> (#[trigger] entries[i]).0 == Cbor::Text(field_names()[i]),
{
}

} // verus!
