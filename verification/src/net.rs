//! Deterministic simulated network with timed delivery queues, partitions,
//! and a bounded reorder window.

use crate::bytes::{le, le_value, u64_le, u64_of_le};
use crate::ids::{ActorId, EntryHash, MessageId};
use crate::probability::{loss_limit, Probability, LOSS_SCALE};
use std::collections::VecDeque;
use vstd::prelude::*;

verus! {

/// A delivered network message envelope.
#[derive(Debug, PartialEq, Eq)]
pub struct Message {
    /// Sending actor/task ID.
    pub from: usize,
    /// Receiving actor/task ID.
    pub to: usize,
    /// Content bytes; a scalar caller encodes its value explicitly at the
    /// API boundary.
    pub content: Vec<u8>,
    /// Journal entry ID of the corresponding Send event.
    pub send_id: EntryHash,
    /// Message identity copied from the Send entry.
    pub message_id: MessageId,
    /// Virtual timestamp at which this message becomes deliverable.
    pub deliver_at: u64,
}

/// The mathematical content of a [`Message`].
#[verifier::ext_equal]
pub struct Envelope {
    pub from: usize,
    pub to: usize,
    pub content: Seq<u8>,
    pub send_id: EntryHash,
    pub message_id: MessageId,
    pub deliver_at: u64,
}

impl View for Message {
    type V = Envelope;

    open spec fn view(&self) -> Envelope {
        Envelope {
            from: self.from,
            to: self.to,
            content: self.content@,
            send_id: self.send_id,
            message_id: self.message_id,
            deliver_at: self.deliver_at,
        }
    }
}

/// The mathematical content of queued messages.
pub open spec fn envelopes(queue: Seq<Message>) -> Seq<Envelope> {
    queue.map_values(|m: Message| m@)
}

/// The mathematical content of a received message.
pub open spec fn envelope_of(message: Option<Message>) -> Option<Envelope> {
    match message {
        Some(m) => Some(m@),
        None => None,
    }
}

/// The scalar held by the first eight content bytes, least significant first.
pub open spec fn scalar(content: Seq<u8>) -> nat {
    le_value(content.take(if content.len() < 8 { content.len() as int } else { 8 }))
}

impl Message {
    /// Decode the first 8 little-endian bytes as a scalar payload.
    pub fn payload(&self) -> (value: u64)
        ensures
            value == scalar(self.content@),
    {
        let count: usize = if self.content.len() < 8 {
            self.content.len()
        } else {
            8
        };
        u64_of_le(self.content.as_slice(), count)
    }
}

/// What a bounded link does when its queue is full.
///
/// `Drop` discards the newest message and journals a `Drop` fault.
/// `Block` refuses the send without journaling a drop so the sender can
/// retry later; the `bool` send surface still reports `false`.
#[derive(Debug, Clone, Copy, PartialEq, Eq, Structural)]
pub enum QueueFullPolicy {
    /// Discard the overflowing message.
    Drop,
    /// Refuse the send as backpressure (no drop fault journaled).
    Block,
}

impl Default for QueueFullPolicy {
    fn default() -> (policy: QueueFullPolicy)
        ensures
            policy == QueueFullPolicy::Drop,
    {
        QueueFullPolicy::Drop
    }
}

/// Typed network failure.
#[derive(Debug, Clone, Copy, PartialEq, Eq)]
pub enum NetError {
    /// A bounded link queue already holds `queued` messages at capacity.
    QueueFull {
        /// Sending actor.
        from: usize,
        /// Receiving actor.
        to: usize,
        /// Configured capacity.
        capacity: usize,
        /// Messages already queued for this link.
        queued: usize,
    },
    /// A reorder window exceeds the representable bound.
    InvalidReorderWindow {
        /// Rejected window.
        window: usize,
        /// Why the window is invalid.
        reason: &'static str,
    },
}

/// A fault that a run can ask the network for.
#[derive(Debug, Clone, Copy, PartialEq, Eq, Structural)]
pub enum FaultSpec {
    /// Drop a message.
    Drop,
    /// Partition a directed link.
    Partition {
        /// Sending actor.
        src: ActorId,
        /// Receiving actor.
        dst: ActorId,
    },
}

/// Upper bound for a reorder window.
///
/// Windows at or below this bound always clamp to the ready count.
/// Larger windows are rejected by the validated setters and the
/// fallible recv paths so a misconfigured window fails closed.
pub const MAX_REORDER_WINDOW: usize = 65_536;

/// Per-link transport configuration.
///
/// All fields default to the zero config, which consumes no seed-stream draws.
/// `capacity` is `None` by default, which means unbounded; set `Some(n)` to
/// bound the queued messages for one directed link. `queue_policy` selects drop
/// (journaled) or block (backpressure) when a bounded queue is full.
#[derive(Debug, Clone, Copy, PartialEq, Eq)]
pub struct LinkConfig {
    /// Deterministic base latency in ticks added to every send on this link.
    pub base_delay: u64,
    /// Uniform jitter range in ticks: a send draws `[0, jitter]` extra ticks.
    pub jitter: u64,
    /// Message loss probability in `0.0 ..= 1.0`.
    pub loss_probability: Probability,
    /// Per-link reorder window override; `0` uses the global window.
    pub reorder_window: usize,
    /// Bound on queued messages for this directed link; `None` is unbounded.
    pub capacity: Option<usize>,
    /// Full-queue behavior for a bounded link.
    pub queue_policy: QueueFullPolicy,
}

/// The zero config of a link.
pub open spec fn is_default_link(cfg: LinkConfig) -> bool {
    &&& cfg.base_delay == 0
    &&& cfg.jitter == 0
    &&& cfg.loss_probability@ == 0
    &&& cfg.reorder_window == 0
    &&& cfg.capacity is None
    &&& cfg.queue_policy == QueueFullPolicy::Drop
}

impl Default for LinkConfig {
    fn default() -> (cfg: LinkConfig)
        ensures
            is_default_link(cfg),
    {
        LinkConfig {
            base_delay: 0,
            jitter: 0,
            loss_probability: Probability::zero(),
            reorder_window: 0,
            capacity: None,
            queue_policy: QueueFullPolicy::Drop,
        }
    }
}

/// What a network holds.
#[verifier::ext_equal]
pub struct NetState {
    /// Queued messages, oldest first.
    pub queue: Seq<Envelope>,
    /// Partitioned directed links.
    pub partitions: Set<(usize, usize)>,
    /// Reorder window of links without one of their own.
    pub window: usize,
    /// Configured directed links.
    pub links: Map<(usize, usize), LinkConfig>,
}

/// The message waits for `task` and may be delivered at `now`.
pub open spec fn is_ready(m: Envelope, task: usize, now: u64) -> bool {
    m.to == task && m.deliver_at <= now
}

/// Position of the oldest message that `task` can take at `now`.
pub open spec fn first_ready(q: Seq<Envelope>, task: usize, now: u64) -> Option<int>
    decreases q.len(),
{
    if q.len() == 0 {
        None
    } else if first_ready(q.drop_last(), task, now) is Some {
        first_ready(q.drop_last(), task, now)
    } else if is_ready(q.last(), task, now) {
        Some(q.len() - 1)
    } else {
        None
    }
}

/// Positions, ascending, of the messages from `sender` that `task` can take.
pub open spec fn candidates(q: Seq<Envelope>, task: usize, now: u64, sender: usize) -> Seq<int>
    decreases q.len(),
{
    if q.len() == 0 {
        Seq::empty()
    } else {
        let front = candidates(q.drop_last(), task, now, sender);
        if is_ready(q.last(), task, now) && q.last().from == sender {
            front.push(q.len() - 1)
        } else {
            front
        }
    }
}

/// Number of messages queued on one directed link.
pub open spec fn queued(q: Seq<Envelope>, from: usize, to: usize) -> nat
    decreases q.len(),
{
    if q.len() == 0 {
        0
    } else {
        queued(q.drop_last(), from, to) + if q.last().from == from && q.last().to == to {
            1nat
        } else {
            0nat
        }
    }
}

/// Earliest delivery time among the queued messages.
pub open spec fn earliest(q: Seq<Envelope>) -> Option<u64>
    decreases q.len(),
{
    if q.len() == 0 {
        None
    } else {
        match earliest(q.drop_last()) {
            Some(t) if t <= q.last().deliver_at => Some(t),
            _ => Some(q.last().deliver_at),
        }
    }
}

/// Effective reorder window of a link: its own when nonzero, else the global.
pub open spec fn window_of(s: NetState, from: usize, to: usize) -> usize {
    if s.links.contains_key((from, to)) && s.links[(from, to)].reorder_window != 0 {
        s.links[(from, to)].reorder_window
    } else {
        s.window
    }
}

/// Window that the next receive of `task` goes by, zero with nothing ready.
pub open spec fn next_window(s: NetState, task: usize, now: u64) -> usize {
    match first_ready(s.queue, task, now) {
        None => 0,
        Some(first) => window_of(s, s.queue[first].from, task),
    }
}

/// The last `window` of the given positions.
pub open spec fn suffix(positions: Seq<int>, window: nat) -> Seq<int> {
    if positions.len() > window {
        positions.skip(positions.len() - window)
    } else {
        positions
    }
}

/// Positions that a receive of `task` under `window` chooses from: the oldest
/// ready message alone in a FIFO link, else the last `window` ready messages
/// of the sender of the oldest one.
pub open spec fn pool(q: Seq<Envelope>, task: usize, now: u64, window: usize) -> Seq<int> {
    match first_ready(q, task, now) {
        None => Seq::empty(),
        Some(first) => if window == 0 {
            seq![first]
        } else {
            suffix(candidates(q, task, now, q[first].from), window as nat)
        },
    }
}

/// Position of the message that a deterministic receive takes: the newest of
/// the pool.
pub open spec fn served(q: Seq<Envelope>, task: usize, now: u64, window: usize) -> Option<int> {
    let from = pool(q, task, now, window);
    if from.len() == 0 {
        None
    } else {
        Some(from.last())
    }
}

/// Position of the message that a drawn receive takes, given the draw.
pub open spec fn served_drawn(
    q: Seq<Envelope>,
    task: usize,
    now: u64,
    window: usize,
    word: u64,
) -> Option<int> {
    let from = pool(q, task, now, window);
    if from.len() == 0 {
        None
    } else {
        Some(from[(word as nat % from.len()) as int])
    }
}

/// The network after the message at `position` was taken.
pub open spec fn without(s: NetState, position: int) -> NetState {
    NetState { queue: s.queue.remove(position), ..s }
}

/// What a receive that takes `position` delivers and leaves: the message comes
/// out and the others keep their order, or nothing happens.
pub open spec fn received(before: NetState, position: Option<int>) -> (Option<Envelope>, NetState) {
    match position {
        None => (None, before),
        Some(i) => (Some(before.queue[i]), without(before, i)),
    }
}

/// The error of a link that is at capacity.
pub open spec fn capacity_fault(s: NetState, from: usize, to: usize) -> Option<NetError> {
    if s.links.contains_key((from, to)) {
        match s.links[(from, to)].capacity {
            Some(cap) if queued(s.queue, from, to) >= cap => Some(
                NetError::QueueFull {
                    from,
                    to,
                    capacity: cap,
                    queued: queued(s.queue, from, to) as usize,
                },
            ),
            _ => None,
        }
    } else {
        None
    }
}

/// Whether the network takes a message: not on a partitioned link, and with an
/// error on a full one.
pub open spec fn admission(s: NetState, from: usize, to: usize) -> Result<bool, NetError> {
    if s.partitions.contains((from, to)) {
        Ok(false)
    } else {
        match capacity_fault(s, from, to) {
            Some(e) => Err(e),
            None => Ok(true),
        }
    }
}

/// The network with a message queued.
pub open spec fn with_message(s: NetState, message: Envelope) -> NetState {
    NetState { queue: s.queue.push(message), ..s }
}

/// What a plain send answers and leaves.
pub open spec fn sent(before: NetState, message: Envelope) -> (Result<bool, NetError>, NetState) {
    let answer = admission(before, message.from, message.to);
    if answer == Ok::<bool, NetError>(true) {
        (answer, with_message(before, message))
    } else {
        (answer, before)
    }
}

/// The message with the time at which it becomes deliverable.
pub open spec fn due(message: Envelope, at: u64) -> Envelope {
    Envelope { deliver_at: at, ..message }
}

/// The sum of two tick counts, held to 64 bits.
pub open spec fn tick_sum(a: u64, b: u64) -> u64 {
    if a + b > u64::MAX {
        u64::MAX
    } else {
        (a + b) as u64
    }
}

/// Bound of the jitter draw that a send on this link makes.
pub open spec fn jitter_bound(jitter: u64) -> u64 {
    tick_sum(jitter, 1)
}

/// What a send that honors the link config answers and leaves, given its jitter
/// draw and its loss draw. Draws that the link does not make are ignored.
pub open spec fn sent_via_link(
    before: NetState,
    message: Envelope,
    now: u64,
    base_delay: u64,
    jitter_draw: u64,
    loss_draw: u64,
) -> (Result<bool, NetError>, NetState) {
    let answer = admission(before, message.from, message.to);
    if answer != Ok::<bool, NetError>(true) {
        (answer, before)
    } else if !before.links.contains_key((message.from, message.to)) {
        (answer, with_message(before, due(message, tick_sum(now, base_delay))))
    } else {
        let cfg = before.links[(message.from, message.to)];
        let plain = tick_sum(base_delay, cfg.base_delay);
        let total = if cfg.jitter > 0 {
            tick_sum(plain, jitter_draw)
        } else {
            plain
        };
        if cfg.loss_probability@ != 0 && loss_draw < loss_limit(cfg.loss_probability@) {
            (Ok(false), before)
        } else {
            (answer, with_message(before, due(message, tick_sum(now, total))))
        }
    }
}

/// Keys of an association list are distinct.
pub open spec fn distinct_keys(links: Seq<((usize, usize), LinkConfig)>) -> bool {
    forall|i: int, j: int|
        0 <= i < j < links.len() ==> (#[trigger] links[i]).0 != (#[trigger] links[j]).0
}

/// The map that an association list with distinct keys stands for.
pub open spec fn link_map(links: Seq<((usize, usize), LinkConfig)>) -> Map<
    (usize, usize),
    LinkConfig,
>
    decreases links.len(),
{
    if links.len() == 0 {
        Map::empty()
    } else {
        link_map(links.drop_last()).insert(links.last().0, links.last().1)
    }
}

proof fn lemma_link_map(links: Seq<((usize, usize), LinkConfig)>)
    requires
        distinct_keys(links),
    ensures
        forall|i: int|
            0 <= i < links.len() ==> link_map(links).contains_key((#[trigger] links[i]).0)
                && link_map(links)[links[i].0] == links[i].1,
        forall|k: (usize, usize)| #[trigger]
            link_map(links).contains_key(k) ==> exists|i: int|
                0 <= i < links.len() && (#[trigger] links[i]).0 == k,
    decreases links.len(),
{
    if links.len() > 0 {
        let front = links.drop_last();
        assert forall|i: int, j: int| 0 <= i < j < front.len() implies (#[trigger] front[i]).0 != (
        #[trigger] front[j]).0 by {
            assert(front[i] == links[i] && front[j] == links[j]);
        }
        lemma_link_map(front);
        let last = links.last();
        assert(last == links[links.len() - 1]);
        assert forall|i: int| 0 <= i < links.len() implies link_map(links).contains_key(
            (#[trigger] links[i]).0,
        ) && link_map(links)[links[i].0] == links[i].1 by {
            if i < links.len() - 1 {
                assert(front[i] == links[i]);
                assert(links[i].0 != links[links.len() - 1].0);
            }
        }
        assert forall|k: (usize, usize)| #[trigger]
            link_map(links).contains_key(k) implies exists|i: int|
            0 <= i < links.len() && (#[trigger] links[i]).0 == k by {
            if k != last.0 {
                assert(link_map(front).contains_key(k));
                let i = choose|i: int| 0 <= i < front.len() && (#[trigger] front[i]).0 == k;
                assert(links[i].0 == k);
            } else {
                assert(links[links.len() - 1].0 == k);
            }
        }
    }
}

/// Two association lists that agree on the entries of every key stand for the
/// same map.
proof fn lemma_link_map_updated(
    links: Seq<((usize, usize), LinkConfig)>,
    at: int,
    key: (usize, usize),
    cfg: LinkConfig,
)
    requires
        distinct_keys(links),
        0 <= at < links.len(),
        links[at].0 == key,
    ensures
        distinct_keys(links.update(at, (key, cfg))),
        link_map(links.update(at, (key, cfg))) == link_map(links).insert(key, cfg),
{
    let after = links.update(at, (key, cfg));
    assert forall|i: int, j: int| 0 <= i < j < after.len() implies (#[trigger] after[i]).0 != (
    #[trigger] after[j]).0 by {
        assert(after[i].0 == links[i].0 && after[j].0 == links[j].0);
    }
    lemma_link_map(links);
    lemma_link_map(after);
    let a = link_map(after);
    let b = link_map(links).insert(key, cfg);
    assert forall|k: (usize, usize)| #[trigger] a.contains_key(k) == b.contains_key(k) by {
        if a.contains_key(k) {
            let i = choose|i: int| 0 <= i < after.len() && (#[trigger] after[i]).0 == k;
            assert(links[i].0 == k);
        }
        if link_map(links).contains_key(k) {
            let i = choose|i: int| 0 <= i < links.len() && (#[trigger] links[i]).0 == k;
            assert(after[i].0 == k);
        }
        if k == key {
            assert(after[at].0 == k);
        }
    }
    assert forall|k: (usize, usize)| #[trigger] a.contains_key(k) implies a[k] == b[k] by {
        let i = choose|i: int| 0 <= i < after.len() && (#[trigger] after[i]).0 == k;
        if i != at {
            assert(after[i] == links[i]);
            assert(links[i].0 != links[at].0);
        } else {
            assert(after[at] == (key, cfg));
        }
    }
    assert(a =~= b);
}

/// Simulated network managing link latencies, partitions, and message queues.
#[derive(Debug)]
pub struct SimNet {
    queue: VecDeque<Message>,
    partitions: Vec<(usize, usize)>,
    /// Optional reorder window: when nonzero, up to this many messages of one
    /// sender are served newest-first instead of FIFO (UDP-style unordered
    /// delivery). Zero keeps strict FIFO.
    reorder_window: usize,
    /// Per-link transport configuration. Absent links use the default config.
    links: Vec<((usize, usize), LinkConfig)>,
}

impl View for SimNet {
    type V = NetState;

    closed spec fn view(&self) -> NetState {
        NetState {
            queue: envelopes(self.queue@),
            partitions: self.partitions@.to_set(),
            window: self.reorder_window,
            links: link_map(self.links@),
        }
    }
}

/// Facts on the ready positions of a queue.
pub(crate) proof fn lemma_candidates(q: Seq<Envelope>, task: usize, now: u64, sender: usize)
    ensures
        forall|k: int|
            0 <= k < candidates(q, task, now, sender).len() ==> {
                let i = #[trigger] candidates(q, task, now, sender)[k];
                0 <= i < q.len() && is_ready(q[i], task, now) && q[i].from == sender
            },
        forall|j: int, k: int|
            0 <= j < k < candidates(q, task, now, sender).len() ==> (#[trigger] candidates(
                q,
                task,
                now,
                sender,
            )[j]) < (#[trigger] candidates(q, task, now, sender)[k]),
        forall|i: int|
            0 <= i < q.len() && is_ready(#[trigger] q[i], task, now) && q[i].from == sender
                ==> candidates(q, task, now, sender).contains(i),
    decreases q.len(),
{
    if q.len() > 0 {
        let front = q.drop_last();
        lemma_candidates(front, task, now, sender);
        let c = candidates(q, task, now, sender);
        let d = candidates(front, task, now, sender);
        assert forall|k: int| 0 <= k < c.len() implies {
            let i = #[trigger] c[k];
            0 <= i < q.len() && is_ready(q[i], task, now) && q[i].from == sender
        } by {
            if k < d.len() {
                assert(c[k] == d[k]);
                assert(front[d[k]] == q[d[k]]);
            }
        }
        assert forall|j: int, k: int| 0 <= j < k < c.len() implies (#[trigger] c[j]) < (
        #[trigger] c[k]) by {
            assert(c[j] == d[j]);
            if k < d.len() {
                assert(c[k] == d[k]);
            }
        }
        assert forall|i: int|
            0 <= i < q.len() && is_ready(#[trigger] q[i], task, now) && q[i].from
                == sender implies c.contains(i) by {
            if i < front.len() {
                assert(front[i] == q[i]);
                assert(d.contains(i));
                let k = choose|k: int| 0 <= k < d.len() && d[k] == i;
                assert(c[k] == i);
            } else {
                assert(c[c.len() - 1] == i);
            }
        }
    }
}

/// The oldest ready message is ready, and nothing older is.
pub(crate) proof fn lemma_first_ready(q: Seq<Envelope>, task: usize, now: u64)
    ensures
        match first_ready(q, task, now) {
            Some(i) => 0 <= i < q.len() && is_ready(q[i], task, now) && forall|j: int|
                0 <= j < i ==> !is_ready(#[trigger] q[j], task, now),
            None => forall|j: int| 0 <= j < q.len() ==> !is_ready(#[trigger] q[j], task, now),
        },
    decreases q.len(),
{
    if q.len() > 0 {
        let front = q.drop_last();
        lemma_first_ready(front, task, now);
        match first_ready(q, task, now) {
            Some(i) => {
                if i < front.len() {
                    assert(front[i] == q[i]);
                }
                assert forall|j: int| 0 <= j < i implies !is_ready(#[trigger] q[j], task, now) by {
                    assert(front[j] == q[j]);
                }
            },
            None => {
                assert forall|j: int| 0 <= j < q.len() implies !is_ready(
                    #[trigger] q[j],
                    task,
                    now,
                ) by {
                    if j < front.len() {
                        assert(front[j] == q[j]);
                    }
                }
            },
        }
    }
}

/// The pool is empty exactly when nothing is ready, and holds ready positions.
pub proof fn lemma_pool(q: Seq<Envelope>, task: usize, now: u64, window: usize)
    ensures
        (pool(q, task, now, window).len() == 0) == (first_ready(q, task, now) is None),
        pool(q, task, now, window).len() <= q.len(),
        forall|k: int|
            0 <= k < pool(q, task, now, window).len() ==> {
                let i = #[trigger] pool(q, task, now, window)[k];
                0 <= i < q.len() && is_ready(q[i], task, now)
            },
{
    lemma_first_ready(q, task, now);
    if let Some(first) = first_ready(q, task, now) {
        let sender = q[first].from;
        let c = candidates(q, task, now, sender);
        lemma_candidates(q, task, now, sender);
        lemma_candidates_len(q, task, now, sender);
        assert(c.contains(first));
        assert forall|k: int| 0 <= k < pool(q, task, now, window).len() implies {
            let i = #[trigger] pool(q, task, now, window)[k];
            0 <= i < q.len() && is_ready(q[i], task, now)
        } by {
            if window != 0 && c.len() > window {
                assert(pool(q, task, now, window)[k] == c[k + c.len() - window]);
            }
        }
    }
}

proof fn lemma_candidates_len(q: Seq<Envelope>, task: usize, now: u64, sender: usize)
    ensures
        candidates(q, task, now, sender).len() <= q.len(),
    decreases q.len(),
{
    if q.len() > 0 {
        lemma_candidates_len(q.drop_last(), task, now, sender);
    }
}

/// The sum of two tick counts, held to 64 bits.
pub fn add_ticks(a: u64, b: u64) -> (sum: u64)
    ensures
        sum == tick_sum(a, b),
{
    if a > u64::MAX - b {
        u64::MAX
    } else {
        a + b
    }
}

impl SimNet {
    /// No partition and no configured link occurs twice.
    #[verifier::type_invariant]
    pub closed spec fn valid(self) -> bool {
        self.partitions@.no_duplicates() && distinct_keys(self.links@)
    }

    /// An empty network.
    pub fn new() -> (net: SimNet)
        ensures
            net@ == (NetState {
                queue: Seq::empty(),
                partitions: Set::empty(),
                window: 0,
                links: Map::empty(),
            }),
    {
        let net = SimNet {
            queue: VecDeque::new(),
            partitions: Vec::new(),
            reorder_window: 0,
            links: Vec::new(),
        };
        assert(net.partitions@.to_set() =~= Set::<(usize, usize)>::empty());
        net
    }

    /// Position of a link's explicit config.
    fn find_link(&self, from: usize, to: usize) -> (at: Option<usize>)
        ensures
            match at {
                Some(i) => i < self.links@.len() && self.links@[i as int].0 == (from, to)
                    && self@.links.contains_key((from, to)) && self@.links[(from, to)]
                    == self.links@[i as int].1,
                None => !self@.links.contains_key((from, to)) && forall|i: int|
                    0 <= i < self.links@.len() ==> (#[trigger] self.links@[i]).0 != (from, to),
            },
    {
        proof {
            use_type_invariant(self);
            lemma_link_map(self.links@);
        }
        let mut i: usize = 0;
        while i < self.links.len()
            invariant
                i <= self.links@.len(),
                distinct_keys(self.links@),
                forall|j: int| 0 <= j < i ==> (#[trigger] self.links@[j]).0 != (from, to),
            decreases self.links@.len() - i,
        {
            let key: (usize, usize) = self.links[i].0;
            if key.0 == from && key.1 == to {
                proof {
                    lemma_link_map(self.links@);
                    assert(self.links@[i as int].0 == (from, to));
                }
                return Some(i);
            }
            i = i + 1;
        }
        None
    }

    /// Configure the transport properties of one directed link.
    ///
    /// Links without an explicit config keep the zero config: no latency, no
    /// jitter, no loss, and the global reorder window.
    pub fn set_link(&mut self, from: usize, to: usize, cfg: LinkConfig)
        ensures
            final(self)@ == (NetState {
                links: old(self)@.links.insert((from, to), cfg),
                ..old(self)@
            }),
    {
        proof {
            use_type_invariant(&*self);
        }
        let found: Option<usize> = self.find_link(from, to);
        let mut links: Vec<((usize, usize), LinkConfig)> = Vec::new();
        core::mem::swap(&mut links, &mut self.links);
        match found {
            Some(i) => {
                proof {
                    lemma_link_map_updated(links@, i as int, (from, to), cfg);
                }
                links.set(i, ((from, to), cfg));
            },
            None => {
                let ghost before = links@;
                links.push(((from, to), cfg));
                assert(links@.drop_last() =~= before);
            },
        }
        self.links = links;
    }

    /// Whether a link has an explicit config.
    pub fn link_configured(&self, from: usize, to: usize) -> (yes: bool)
        ensures
            yes == self@.links.contains_key((from, to)),
    {
        self.find_link(from, to).is_some()
    }

    /// Return the effective config for a link (explicit or default).
    pub fn link_config(&self, from: usize, to: usize) -> (cfg: LinkConfig)
        ensures
            if self@.links.contains_key((from, to)) {
                cfg == self@.links[(from, to)]
            } else {
                is_default_link(cfg)
            },
    {
        match self.find_link(from, to) {
            Some(i) => self.links[i].1,
            None => LinkConfig::default(),
        }
    }

    /// Validate a reorder window against the representable bound.
    ///
    /// # Errors
    /// Returns [`NetError::InvalidReorderWindow`] when `window` exceeds
    /// [`MAX_REORDER_WINDOW`].
    pub fn validate_reorder_window(window: usize) -> (r: Result<(), NetError>)
        ensures
            r == window_check(window),
    {
        if window > MAX_REORDER_WINDOW {
            return Err(
                NetError::InvalidReorderWindow {
                    window,
                    reason: "window exceeds the representable bound",
                },
            );
        }
        Ok(())
    }

    /// Return the effective reorder window: per-link override or the global.
    ///
    /// A per-link `0` inherits the global window; any nonzero per-link value
    /// wins. Use a global `0` plus explicit per-link windows when one link
    /// must stay FIFO while others reorder.
    pub fn effective_reorder_window(&self, from: usize, to: usize) -> (window: usize)
        ensures
            window == window_of(self@, from, to),
    {
        if let Some(i) = self.find_link(from, to) {
            let per_link: usize = self.links[i].1.reorder_window;
            if per_link != 0 {
                return per_link;
            }
        }
        self.reorder_window
    }

    /// Count messages currently queued for one directed link.
    pub fn queued_for(&self, from: usize, to: usize) -> (count: usize)
        ensures
            count == queued(self@.queue, from, to),
    {
        let mut count: usize = 0;
        let mut i: usize = 0;
        assert(self@.queue.take(0) =~= Seq::<Envelope>::empty());
        while i < self.queue.len()
            invariant
                i <= self.queue@.len(),
                count <= i,
                count == queued(self@.queue.take(i as int), from, to),
            decreases self.queue@.len() - i,
        {
            assert(self@.queue.take(i + 1).drop_last() =~= self@.queue.take(i as int));
            if self.queue[i].from == from && self.queue[i].to == to {
                count = count + 1;
            }
            i = i + 1;
        }
        assert(self@.queue.take(i as int) =~= self@.queue);
        count
    }

    /// Check a link capacity without mutating the queue.
    ///
    /// # Errors
    /// Returns [`NetError::QueueFull`] when the link has `Some(cap)` and
    /// already holds at least `cap` messages.
    pub fn check_capacity(&self, from: usize, to: usize) -> (r: Result<(), NetError>)
        ensures
            match capacity_fault(self@, from, to) {
                Some(e) => r == Err::<(), NetError>(e),
                None => r is Ok,
            },
    {
        let capacity: usize = match self.find_link(from, to) {
            Some(i) => match self.links[i].1.capacity {
                Some(cap) => cap,
                None => return Ok(()),
            },
            None => return Ok(()),
        };
        let count: usize = self.queued_for(from, to);
        if count >= capacity {
            return Err(NetError::QueueFull { from, to, capacity, queued: count });
        }
        Ok(())
    }

    /// Return the full-queue policy for a link (`Drop` when unconfigured).
    pub fn queue_policy(&self, from: usize, to: usize) -> (policy: QueueFullPolicy)
        ensures
            policy == policy_of(self@, from, to),
    {
        match self.find_link(from, to) {
            Some(i) => self.links[i].1.queue_policy,
            None => QueueFullPolicy::Drop,
        }
    }

    /// Bounds of the jitter draw and of the loss draw that a send on this link
    /// makes. A refused send and an unconfigured link draw nothing.
    pub fn send_draws(&self, from: usize, to: usize) -> (draws: (Option<u64>, Option<u64>))
        ensures
            draws == draws_of(self@, from, to),
    {
        if self.is_partitioned(from, to) || self.check_capacity(from, to).is_err() {
            return (None, None);
        }
        let cfg: LinkConfig = self.link_config(from, to);
        let jitter: Option<u64> = if cfg.jitter > 0 {
            Some(add_ticks(cfg.jitter, 1))
        } else {
            None
        };
        let loss: Option<u64> = if cfg.loss_probability.is_positive() {
            Some(LOSS_SCALE)
        } else {
            None
        };
        (jitter, loss)
    }

    /// Send honoring link capacity, jitter, and loss, given the draws.
    ///
    /// # Errors
    /// Returns [`NetError::QueueFull`] when the link is at capacity.
    pub fn send_via_link_drawn(
        &mut self,
        message: Message,
        now: u64,
        base_delay: u64,
        jitter_draw: u64,
        loss_draw: u64,
    ) -> (r: Result<bool, NetError>)
        ensures
            (r, final(self)@) == sent_via_link(
                old(self)@,
                message@,
                now,
                base_delay,
                jitter_draw,
                loss_draw,
            ),
    {
        if self.is_partitioned(message.from, message.to) {
            return Ok(false);
        }
        if let Err(e) = self.check_capacity(message.from, message.to) {
            return Err(e);
        }
        let cfg: LinkConfig = self.link_config(message.from, message.to);
        let mut total: u64 = add_ticks(base_delay, cfg.base_delay);
        if cfg.jitter > 0 {
            total = add_ticks(total, jitter_draw);
        }
        if cfg.loss_probability.is_positive() && loss_draw < cfg.loss_probability.loss_limit() {
            return Ok(false);
        }
        let queued_message = Message { deliver_at: add_ticks(now, total), ..message };
        self.push(queued_message);
        Ok(true)
    }

    /// Queue a message.
    fn push(&mut self, message: Message)
        ensures
            final(self)@ == with_message(old(self)@, message@),
    {
        proof {
            use_type_invariant(&*self);
        }
        let mut queue: VecDeque<Message> = VecDeque::new();
        core::mem::swap(&mut queue, &mut self.queue);
        let ghost before = envelopes(queue@);
        let ghost added = message@;
        queue.push_back(message);
        assert(envelopes(queue@) =~= before.push(added));
        self.queue = queue;
    }

    /// Fallible send honoring link capacity, jitter, and loss.
    ///
    /// The capacity check runs before any seed draw, so a full queue never
    /// perturbs the draw stream. `Ok(true)` means queued, `Ok(false)` means
    /// refused by partition or sampled loss, `Err` means the bounded queue
    /// is full. `draw(bound)` returns a uniform value in `[0, bound)`; draws
    /// happen only as [`Self::send_draws`] says.
    ///
    /// # Errors
    /// Returns [`NetError::QueueFull`] when the link is at capacity.
    pub fn try_send_via_link(
        &mut self,
        message: Message,
        now: u64,
        base_delay: u64,
        mut draw: impl FnMut(u64) -> u64,
    ) -> (r: Result<bool, NetError>)
        requires
            forall|bound: u64| bound > 0 ==> #[trigger] draw.requires((bound,)),
        ensures
            exists|jitter_draw: u64, loss_draw: u64|
                {
                    &&& draws_of(old(self)@, message.from, message.to).0 matches Some(bound)
                        ==> draw.ensures((bound,), jitter_draw)
                    &&& draws_of(old(self)@, message.from, message.to).1 matches Some(bound)
                        ==> draw.ensures((bound,), loss_draw)
                    &&& (r, final(self)@) == #[trigger] sent_via_link(
                        old(self)@,
                        message@,
                        now,
                        base_delay,
                        jitter_draw,
                        loss_draw,
                    )
                },
    {
        let (jitter, loss): (Option<u64>, Option<u64>) = self.send_draws(message.from, message.to);
        let jitter_draw: u64 = match jitter {
            Some(bound) => draw(bound),
            None => 0,
        };
        let loss_draw: u64 = match loss {
            Some(bound) => draw(bound),
            None => 0,
        };
        self.send_via_link_drawn(message, now, base_delay, jitter_draw, loss_draw)
    }

    /// Send a message honoring the link config, drawing jitter and loss from
    /// the caller's seeded source.
    ///
    /// Returns `false` when the message is dropped (partitioned, lost, or
    /// queue-full), `true` when queued. Queue-full collapses to `false` here;
    /// use [`Self::try_send_via_link`] to distinguish it.
    pub fn send_via_link(
        &mut self,
        message: Message,
        now: u64,
        base_delay: u64,
        draw: impl FnMut(u64) -> u64,
    ) -> (queued_now: bool)
        requires
            forall|bound: u64| bound > 0 ==> #[trigger] draw.requires((bound,)),
        ensures
            exists|jitter_draw: u64, loss_draw: u64|
                {
                    let r = sent_via_link(
                        old(self)@,
                        message@,
                        now,
                        base_delay,
                        jitter_draw,
                        loss_draw,
                    ).0;
                    &&& draws_of(old(self)@, message.from, message.to).0 matches Some(bound)
                        ==> draw.ensures((bound,), jitter_draw)
                    &&& draws_of(old(self)@, message.from, message.to).1 matches Some(bound)
                        ==> draw.ensures((bound,), loss_draw)
                    &&& (r, final(self)@) == #[trigger] sent_via_link(
                        old(self)@,
                        message@,
                        now,
                        base_delay,
                        jitter_draw,
                        loss_draw,
                    )
                    &&& queued_now == (r == Ok::<bool, NetError>(true))
                },
    {
        match self.try_send_via_link(message, now, base_delay, draw) {
            Ok(yes) => yes,
            Err(_) => false,
        }
    }

    /// Position of a partition.
    fn find_partition(&self, from: usize, to: usize) -> (at: Option<usize>)
        ensures
            match at {
                Some(i) => i < self.partitions@.len() && self.partitions@[i as int] == (from, to)
                    && self@.partitions.contains((from, to)),
                None => !self@.partitions.contains((from, to)),
            },
    {
        let mut i: usize = 0;
        while i < self.partitions.len()
            invariant
                i <= self.partitions@.len(),
                forall|j: int| 0 <= j < i ==> #[trigger] self.partitions@[j] != (from, to),
            decreases self.partitions@.len() - i,
        {
            let pair: (usize, usize) = self.partitions[i];
            if pair.0 == from && pair.1 == to {
                assert(self.partitions@[i as int] == (from, to));
                return Some(i);
            }
            i = i + 1;
        }
        None
    }

    /// Toggle a directed partition: present becomes absent and vice versa.
    pub fn toggle_partition(&mut self, from: usize, to: usize)
        ensures
            final(self)@ == toggled(old(self)@, from, to),
    {
        proof {
            use_type_invariant(&*self);
        }
        let found: Option<usize> = self.find_partition(from, to);
        let ghost before = self@;
        let mut partitions: Vec<(usize, usize)> = Vec::new();
        core::mem::swap(&mut partitions, &mut self.partitions);
        let ghost old_pairs = partitions@;
        match found {
            Some(i) => {
                let _ = partitions.remove(i);
                proof {
                    let new_pairs = partitions@;
                    assert forall|p: (usize, usize)|
                        new_pairs.to_set().contains(p) == old_pairs.to_set().remove(
                            (from, to),
                        ).contains(p) by {
                        if new_pairs.contains(p) {
                            let k = choose|k: int| 0 <= k < new_pairs.len() && new_pairs[k] == p;
                            if k < i {
                                assert(old_pairs[k] == p);
                            } else {
                                assert(old_pairs[k + 1] == p);
                            }
                        }
                        if old_pairs.contains(p) && p != (from, to) {
                            let k = choose|k: int| 0 <= k < old_pairs.len() && old_pairs[k] == p;
                            if k < i {
                                assert(new_pairs[k] == p);
                            } else {
                                assert(new_pairs[k - 1] == p);
                            }
                        }
                    }
                    assert(new_pairs.to_set() =~= old_pairs.to_set().remove((from, to)));
                }
            },
            None => {
                partitions.push((from, to));
                proof {
                    lemma_pushed_set(old_pairs, (from, to));
                }
            },
        }
        self.partitions = partitions;
    }

    /// Apply a fault to the network. Handles [`FaultSpec::Partition`] by
    /// toggling the partition; returns `true` when the fault was applied.
    pub fn apply_fault(&mut self, fault: &FaultSpec) -> (applied: bool)
        ensures
            match *fault {
                FaultSpec::Partition { src, dst } => applied && final(self)@ == toggled(
                    old(self)@,
                    src.0 as usize,
                    dst.0 as usize,
                ),
                FaultSpec::Drop => !applied && final(self)@ == old(self)@,
            },
    {
        match fault {
            FaultSpec::Partition { src, dst } => {
                self.toggle_partition(src.0 as usize, dst.0 as usize);
                true
            },
            FaultSpec::Drop => false,
        }
    }

    /// Validated global reorder-window setter.
    ///
    /// # Errors
    /// Returns [`NetError::InvalidReorderWindow`] when `window` exceeds
    /// [`MAX_REORDER_WINDOW`].
    pub fn try_set_reorder_window(&mut self, window: usize) -> (r: Result<(), NetError>)
        ensures
            r == window_check(window),
            final(self)@ == if r is Ok {
                NetState { window, ..old(self)@ }
            } else {
                old(self)@
            },
    {
        match SimNet::validate_reorder_window(window) {
            Ok(()) => {
                self.set_reorder_window(window);
                Ok(())
            },
            Err(e) => Err(e),
        }
    }

    /// Validated link setter.
    ///
    /// # Errors
    /// Returns [`NetError::InvalidReorderWindow`] when the link window exceeds
    /// [`MAX_REORDER_WINDOW`].
    pub fn try_set_link(&mut self, from: usize, to: usize, cfg: LinkConfig) -> (r: Result<
        (),
        NetError,
    >)
        ensures
            r == window_check(cfg.reorder_window),
            final(self)@ == if r is Ok {
                NetState { links: old(self)@.links.insert((from, to), cfg), ..old(self)@ }
            } else {
                old(self)@
            },
    {
        match SimNet::validate_reorder_window(cfg.reorder_window) {
            Ok(()) => {
                self.set_link(from, to, cfg);
                Ok(())
            },
            Err(e) => Err(e),
        }
    }

    /// Enable a deterministic reorder window.
    ///
    /// When `window` is nonzero, ready messages of one sender are served in
    /// reverse insertion order within a window of `window` messages, which
    /// is deterministic for a fixed send sequence. The default (0) is strict
    /// FIFO. Windows above [`MAX_REORDER_WINDOW`] are rejected by
    /// [`Self::try_set_reorder_window`]; this setter takes any window.
    pub fn set_reorder_window(&mut self, window: usize)
        ensures
            final(self)@ == (NetState { window, ..old(self)@ }),
    {
        proof {
            use_type_invariant(&*self);
        }
        self.reorder_window = window;
    }

    /// The global reorder window.
    pub fn reorder_window(&self) -> (window: usize)
        ensures
            window == self@.window,
    {
        self.reorder_window
    }

    /// Establish a directed network partition from `from` to `to`.
    pub fn partition(&mut self, from: usize, to: usize)
        ensures
            final(self)@ == (NetState {
                partitions: old(self)@.partitions.insert((from, to)),
                ..old(self)@
            }),
    {
        proof {
            use_type_invariant(&*self);
        }
        if self.find_partition(from, to).is_none() {
            let mut partitions: Vec<(usize, usize)> = Vec::new();
            core::mem::swap(&mut partitions, &mut self.partitions);
            proof {
                lemma_pushed_set(partitions@, (from, to));
            }
            partitions.push((from, to));
            self.partitions = partitions;
        } else {
            assert(self@.partitions.insert((from, to)) =~= self@.partitions);
        }
    }

    /// Whether a directed link is partitioned.
    pub fn is_partitioned(&self, from: usize, to: usize) -> (yes: bool)
        ensures
            yes == self@.partitions.contains((from, to)),
    {
        self.find_partition(from, to).is_some()
    }

    /// Queue a message for delivery. Returns true if queued, false if dropped by partition.
    ///
    /// A bounded link at capacity also returns `false`; use
    /// [`Self::try_send`] to distinguish queue-full from partition.
    pub fn send(&mut self, message: Message) -> (queued_now: bool)
        ensures
            queued_now == (sent(old(self)@, message@).0 == Ok::<bool, NetError>(true)),
            final(self)@ == sent(old(self)@, message@).1,
    {
        match self.try_send(message) {
            Ok(yes) => yes,
            Err(_) => false,
        }
    }

    /// Fallible queue respecting per-link capacity.
    ///
    /// `Ok(true)` means queued, `Ok(false)` means refused by partition.
    ///
    /// # Errors
    /// Returns [`NetError::QueueFull`] when the link is at capacity.
    pub fn try_send(&mut self, message: Message) -> (r: Result<bool, NetError>)
        ensures
            (r, final(self)@) == sent(old(self)@, message@),
    {
        if self.is_partitioned(message.from, message.to) {
            return Ok(false);
        }
        if let Err(e) = self.check_capacity(message.from, message.to) {
            return Err(e);
        }
        self.push(message);
        Ok(true)
    }

    /// Send a message with current virtual timestamp and optional delay.
    pub fn send_at(
        &mut self,
        from: usize,
        to: usize,
        payload: u64,
        send_id: EntryHash,
        now: u64,
        delay: u64,
    ) -> (queued_now: bool)
        ensures
            ({
                let answer = sent(old(self)@, timed(from, to, payload, send_id, now, delay));
                queued_now == (answer.0 == Ok::<bool, NetError>(true)) && final(self)@ == answer.1
            }),
    {
        match self.try_send_at(from, to, payload, send_id, now, delay) {
            Ok(yes) => yes,
            Err(_) => false,
        }
    }

    /// Fallible timed send respecting per-link capacity.
    ///
    /// # Errors
    /// Returns [`NetError::QueueFull`] when the link is at capacity.
    pub fn try_send_at(
        &mut self,
        from: usize,
        to: usize,
        payload: u64,
        send_id: EntryHash,
        now: u64,
        delay: u64,
    ) -> (r: Result<bool, NetError>)
        ensures
            (r, final(self)@) == sent(
                old(self)@,
                timed(from, to, payload, send_id, now, delay),
            ),
    {
        let message = Message {
            from,
            to,
            content: u64_le(payload),
            message_id: MessageId::new(ActorId(from as u32), 0),
            send_id,
            deliver_at: add_ticks(now, delay),
        };
        assert(message@ =~= timed(from, to, payload, send_id, now, delay));
        self.try_send(message)
    }

    /// Send a message with an explicit identity and content bytes.
    pub fn send_at_with_identity(&mut self, message: Message, now: u64, delay: u64) -> (queued_now:
        bool)
        ensures
            ({
                let answer = sent(old(self)@, due(message@, tick_sum(now, delay)));
                queued_now == (answer.0 == Ok::<bool, NetError>(true)) && final(self)@ == answer.1
            }),
    {
        match self.try_send_at_with_identity(message, now, delay) {
            Ok(yes) => yes,
            Err(_) => false,
        }
    }

    /// Fallible identity send respecting per-link capacity.
    ///
    /// # Errors
    /// Returns [`NetError::QueueFull`] when the link is at capacity.
    pub fn try_send_at_with_identity(&mut self, message: Message, now: u64, delay: u64) -> (r:
        Result<bool, NetError>)
        ensures
            (r, final(self)@) == sent(old(self)@, due(message@, tick_sum(now, delay))),
    {
        self.try_send(Message { deliver_at: add_ticks(now, delay), ..message })
    }

    /// Position of the oldest message that `task` can take at `now`.
    fn find_ready(&self, task: usize, now: u64) -> (at: Option<usize>)
        ensures
            match at {
                Some(i) => i < self@.queue.len() && first_ready(self@.queue, task, now) == Some(
                    i as int,
                ),
                None => first_ready(self@.queue, task, now) is None,
            },
    {
        let mut i: usize = 0;
        assert(self@.queue.take(0) =~= Seq::<Envelope>::empty());
        while i < self.queue.len()
            invariant
                i <= self.queue@.len(),
                first_ready(self@.queue.take(i as int), task, now) is None,
            decreases self.queue@.len() - i,
        {
            assert(self@.queue.take(i + 1).drop_last() =~= self@.queue.take(i as int));
            if self.queue[i].to == task && self.queue[i].deliver_at <= now {
                proof {
                    lemma_first_ready_prefix(self@.queue, task, now, i + 1);
                }
                return Some(i);
            }
            i = i + 1;
        }
        assert(self@.queue.take(i as int) =~= self@.queue);
        None
    }

    /// Whether `task` can take a message at `now`.
    pub fn has_ready_message(&self, task: usize, now: u64) -> (yes: bool)
        ensures
            yes == (exists|i: int|
                0 <= i < self@.queue.len() && is_ready(#[trigger] self@.queue[i], task, now)),
            yes == (first_ready(self@.queue, task, now) is Some),
    {
        proof {
            lemma_first_ready(self@.queue, task, now);
        }
        self.find_ready(task, now).is_some()
    }

    /// Positions of the messages from `sender` that `task` can take.
    fn find_candidates(&self, task: usize, now: u64, sender: usize) -> (found: Vec<usize>)
        ensures
            found@.map_values(|i: usize| i as int) == candidates(self@.queue, task, now, sender),
    {
        let mut found: Vec<usize> = Vec::new();
        let mut i: usize = 0;
        assert(self@.queue.take(0) =~= Seq::<Envelope>::empty());
        assert(found@.map_values(|i: usize| i as int) =~= Seq::<int>::empty());
        while i < self.queue.len()
            invariant
                i <= self.queue@.len(),
                found@.map_values(|i: usize| i as int) == candidates(
                    self@.queue.take(i as int),
                    task,
                    now,
                    sender,
                ),
            decreases self.queue@.len() - i,
        {
            assert(self@.queue.take(i + 1).drop_last() =~= self@.queue.take(i as int));
            let ghost before = found@.map_values(|i: usize| i as int);
            if self.queue[i].to == task && self.queue[i].deliver_at <= now && self.queue[i].from
                == sender {
                found.push(i);
                assert(found@.map_values(|i: usize| i as int) =~= before.push(i as int));
            }
            i = i + 1;
        }
        assert(self@.queue.take(i as int) =~= self@.queue);
        found
    }

    /// Positions that a receive of `task` chooses from.
    fn find_pool(&self, task: usize, now: u64, window: usize) -> (found: Vec<usize>)
        ensures
            found@.map_values(|i: usize| i as int) == pool(self@.queue, task, now, window),
    {
        let mut found: Vec<usize> = Vec::new();
        let first: usize = match self.find_ready(task, now) {
            None => {
                assert(found@.map_values(|i: usize| i as int) =~= Seq::<int>::empty());
                return found;
            },
            Some(i) => i,
        };
        if window == 0 {
            found.push(first);
            assert(found@.map_values(|i: usize| i as int) =~= seq![first as int]);
            return found;
        }
        let sender: usize = self.queue[first].from;
        let all: Vec<usize> = self.find_candidates(task, now, sender);
        let ghost positions = candidates(self@.queue, task, now, sender);
        let start: usize = if all.len() > window {
            all.len() - window
        } else {
            0
        };
        let mut i: usize = start;
        assert(found@.map_values(|i: usize| i as int) =~= positions.subrange(
            start as int,
            start as int,
        ));
        while i < all.len()
            invariant
                start <= i <= all@.len(),
                all@.map_values(|i: usize| i as int) == positions,
                found@.map_values(|i: usize| i as int) == positions.subrange(
                    start as int,
                    i as int,
                ),
            decreases all@.len() - i,
        {
            let ghost before = found@.map_values(|i: usize| i as int);
            assert(positions[i as int] == all@[i as int]);
            found.push(all[i]);
            assert(found@.map_values(|i: usize| i as int) =~= before.push(positions[i as int]));
            i = i + 1;
            assert(before.push(positions[i - 1]) =~= positions.subrange(start as int, i as int));
        }
        assert(positions.len() == all@.len());
        assert(positions.subrange(start as int, i as int) =~= suffix(positions, window as nat));
        found
    }

    /// Return the journal entry id of the deliverable message the deterministic
    /// recv path would serve next for `task`.
    ///
    /// The message stays queued; the id feeds the `Wake` entry parent when a
    /// blocked task is released. The effective reorder window is honored, so
    /// the `Wake` parent matches the message [`Self::recv_at`] will actually
    /// deliver. The seeded-draw path ([`Self::recv_at_drawn`]) cannot be peeked
    /// without consuming a draw.
    pub fn peek_ready_send_id(&self, task: usize, now: u64) -> (id: Option<EntryHash>)
        ensures
            id == peeked(self@, task, now),
    {
        match self.peek_index(task, now) {
            Some(i) => {
                Some(self.queue[i].send_id)
            },
            None => None,
        }
    }

    /// Select the queue index [`Self::recv_at`] would serve, without removing.
    fn peek_index(&self, task: usize, now: u64) -> (at: Option<usize>)
        ensures
            match served(self@.queue, task, now, next_window(self@, task, now)) {
                Some(i) => at matches Some(found) && found == i && found < self@.queue.len(),
                None => at is None,
            },
    {
        let window: usize = self.window_for_task(task, now);
        proof {
            lemma_pool(self@.queue, task, now, window);
        }
        let found: Vec<usize> = self.find_pool(task, now, window);
        let ghost from = pool(self@.queue, task, now, window);
        assert(found@.len() == from.len());
        if found.len() == 0 {
            return None;
        }
        let last: usize = found[found.len() - 1];
        assert(from[from.len() - 1] == last as int);
        Some(last)
    }

    /// Effective window for the oldest ready message to `task`.
    fn window_for_task(&self, task: usize, now: u64) -> (window: usize)
        ensures
            window == next_window(self@, task, now),
    {
        match self.find_ready(task, now) {
            None => 0,
            Some(i) => self.effective_reorder_window(self.queue[i].from, task),
        }
    }

    /// Effective window for the oldest ready message to `task`, validated.
    fn effective_window_for_task(&self, task: usize, now: u64) -> (r: Result<usize, NetError>)
        ensures
            match window_check(next_window(self@, task, now)) {
                Ok(()) => r == Ok::<usize, NetError>(next_window(self@, task, now)),
                Err(e) => r == Err::<usize, NetError>(e),
            },
    {
        let window: usize = self.window_for_task(task, now);
        match SimNet::validate_reorder_window(window) {
            Ok(()) => Ok(window),
            Err(e) => Err(e),
        }
    }

    /// Take the message at `at` out of the queue.
    fn take_at(&mut self, at: usize) -> (message: Message)
        requires
            at < old(self)@.queue.len(),
        ensures
            message@ == old(self)@.queue[at as int],
            final(self)@ == without(old(self)@, at as int),
    {
        proof {
            use_type_invariant(&*self);
        }
        let mut queue: VecDeque<Message> = VecDeque::new();
        core::mem::swap(&mut queue, &mut self.queue);
        let ghost before = envelopes(queue@);
        let message: Message = queue.remove(at).unwrap();
        assert(envelopes(queue@) =~= before.remove(at as int));
        self.queue = queue;
        message
    }

    /// Deterministic recv given an already-validated window.
    fn recv_with_window(&mut self, task: usize, now: u64, window: usize) -> (message: Option<
        Message,
    >)
        ensures
            (envelope_of(message), final(self)@) == received(
                old(self)@,
                served(old(self)@.queue, task, now, window),
            ),
    {
        proof {
            lemma_pool(self@.queue, task, now, window);
        }
        let found: Vec<usize> = self.find_pool(task, now, window);
        let ghost from = pool(self@.queue, task, now, window);
        assert(found@.len() == from.len());
        if found.len() == 0 {
            return None;
        }
        let last: usize = found[found.len() - 1];
        assert(from[from.len() - 1] == last as int);
        Some(self.take_at(last))
    }

    /// Validated deterministic recv.
    ///
    /// # Errors
    /// Returns [`NetError::InvalidReorderWindow`] when the effective window
    /// exceeds [`MAX_REORDER_WINDOW`].
    pub fn try_recv_at(&mut self, task: usize, now: u64) -> (r: Result<Option<Message>, NetError>)
        ensures
            match window_check(next_window(old(self)@, task, now)) {
                Err(e) => r == Err::<Option<Message>, NetError>(e) && final(self)@ == old(self)@,
                Ok(()) => r matches Ok(message) && (envelope_of(message), final(self)@) == received(
                    old(self)@,
                    served(old(self)@.queue, task, now, next_window(old(self)@, task, now)),
                ),
            },
    {
        match self.effective_window_for_task(task, now) {
            Err(e) => Err(e),
            Ok(window) => Ok(self.recv_with_window(task, now, window)),
        }
    }

    /// Take the first deliverable message for `task` available at `now`.
    ///
    /// With a nonzero effective reorder window (per-link override or global),
    /// the eligible set is the last `window` ready messages of the sender of
    /// the oldest one. The newest of that suffix wins. Window zero
    /// preserves queue order (strict FIFO). Windows above
    /// [`MAX_REORDER_WINDOW`] clamp to the ready count here; use
    /// [`Self::try_recv_at`] to reject them with [`NetError`].
    pub fn recv_at(&mut self, task: usize, now: u64) -> (message: Option<Message>)
        ensures
            (envelope_of(message), final(self)@) == received(
                old(self)@,
                served(old(self)@.queue, task, now, next_window(old(self)@, task, now)),
            ),
    {
        let window: usize = self.window_for_task(task, now);
        self.recv_with_window(task, now, window)
    }

    /// Bound of the draw that a drawn receive of `task` makes: the size of its
    /// pool. Window zero draws nothing, and so does an empty pool.
    pub fn recv_draw(&self, task: usize, now: u64) -> (bound: Option<u64>)
        ensures
            bound == recv_bound(self@, task, now),
    {
        let window: usize = self.window_for_task(task, now);
        proof {
            lemma_pool(self@.queue, task, now, window);
        }
        let found: Vec<usize> = self.find_pool(task, now, window);
        assert(found@.len() == pool(self@.queue, task, now, window).len());
        if window == 0 || found.len() == 0 {
            None
        } else {
            Some(found.len() as u64)
        }
    }

    /// Take the ready message for `task` that the draw points at.
    pub fn recv_at_with(&mut self, task: usize, now: u64, word: u64) -> (message: Option<Message>)
        ensures
            (envelope_of(message), final(self)@) == received(
                old(self)@,
                served_drawn(
                    old(self)@.queue,
                    task,
                    now,
                    next_window(old(self)@, task, now),
                    word,
                ),
            ),
    {
        let window: usize = self.window_for_task(task, now);
        proof {
            lemma_pool(self@.queue, task, now, window);
        }
        let found: Vec<usize> = self.find_pool(task, now, window);
        let ghost from = pool(self@.queue, task, now, window);
        assert(found@.len() == from.len());
        if found.len() == 0 {
            return None;
        }
        let pick: u64 = word % (found.len() as u64);
        let at: usize = found[pick as usize];
        assert(from[pick as int] == at as int);
        Some(self.take_at(at))
    }

    /// Take one ready message for `task`, drawing a seeded pick inside the
    /// exact bounded candidate window.
    ///
    /// Window zero draws nothing and serves the queue head (FIFO). A nonzero
    /// window limits the candidate set to the last `window` ready messages
    /// on this link and serves `candidate[draw(candidate.len())]`. Oversized
    /// windows clamp here; use [`Self::try_recv_at_drawn`] to reject them.
    pub fn recv_at_drawn(&mut self, task: usize, now: u64, mut draw: impl FnMut(u64) -> u64) -> (
    message: Option<Message>)
        requires
            forall|bound: u64| bound > 0 ==> #[trigger] draw.requires((bound,)),
        ensures
            exists|word: u64|
                {
                    &&& recv_bound(old(self)@, task, now) matches Some(bound) ==> draw.ensures(
                        (bound,),
                        word,
                    )
                    &&& (envelope_of(message), final(self)@) == received(
                        old(self)@,
                        #[trigger] served_drawn(
                            old(self)@.queue,
                            task,
                            now,
                            next_window(old(self)@, task, now),
                            word,
                        ),
                    )
                },
    {
        let word: u64 = match self.recv_draw(task, now) {
            Some(bound) => draw(bound),
            None => 0,
        };
        self.recv_at_with(task, now, word)
    }

    /// Validated drawn recv inside the bounded window.
    ///
    /// Window zero draws nothing and serves FIFO. A nonzero window draws
    /// exactly once.
    ///
    /// # Errors
    /// Returns [`NetError::InvalidReorderWindow`] when the effective window
    /// exceeds [`MAX_REORDER_WINDOW`].
    pub fn try_recv_at_drawn(
        &mut self,
        task: usize,
        now: u64,
        draw: impl FnMut(u64) -> u64,
    ) -> (r: Result<Option<Message>, NetError>)
        requires
            forall|bound: u64| bound > 0 ==> #[trigger] draw.requires((bound,)),
        ensures
            match window_check(next_window(old(self)@, task, now)) {
                Err(e) => r == Err::<Option<Message>, NetError>(e) && final(self)@ == old(self)@,
                Ok(()) => r matches Ok(message) && exists|word: u64|
                    {
                        &&& recv_bound(old(self)@, task, now) matches Some(bound)
                            ==> draw.ensures((bound,), word)
                        &&& (envelope_of(message), final(self)@) == received(
                            old(self)@,
                            #[trigger] served_drawn(
                                old(self)@.queue,
                                task,
                                now,
                                next_window(old(self)@, task, now),
                                word,
                            ),
                        )
                    },
            },
    {
        match self.effective_window_for_task(task, now) {
            Err(e) => Err(e),
            Ok(_) => Ok(self.recv_at_drawn(task, now, draw)),
        }
    }

    /// Return the earliest delivery timestamp among all queued messages.
    pub fn earliest_delivery_time(&self) -> (time: Option<u64>)
        ensures
            time == earliest(self@.queue),
    {
        let mut time: Option<u64> = None;
        let mut i: usize = 0;
        assert(self@.queue.take(0) =~= Seq::<Envelope>::empty());
        while i < self.queue.len()
            invariant
                i <= self.queue@.len(),
                time == earliest(self@.queue.take(i as int)),
            decreases self.queue@.len() - i,
        {
            assert(self@.queue.take(i + 1).drop_last() =~= self@.queue.take(i as int));
            let next: u64 = self.queue[i].deliver_at;
            time = match time {
                Some(t) => if t <= next {
                    Some(t)
                } else {
                    Some(next)
                },
                None => Some(next),
            };
            i = i + 1;
        }
        assert(self@.queue.take(i as int) =~= self@.queue);
        time
    }
}

impl Default for SimNet {
    fn default() -> (net: SimNet)
        ensures
            net@ == (NetState {
                queue: Seq::empty(),
                partitions: Set::empty(),
                window: 0,
                links: Map::empty(),
            }),
    {
        SimNet::new()
    }
}

/// Whether a reorder window is within the representable bound.
pub open spec fn window_check(window: usize) -> Result<(), NetError> {
    if window > MAX_REORDER_WINDOW {
        Err(
            NetError::InvalidReorderWindow {
                window,
                reason: "window exceeds the representable bound",
            },
        )
    } else {
        Ok(())
    }
}

/// Full-queue policy of a link.
pub open spec fn policy_of(s: NetState, from: usize, to: usize) -> QueueFullPolicy {
    if s.links.contains_key((from, to)) {
        s.links[(from, to)].queue_policy
    } else {
        QueueFullPolicy::Drop
    }
}

/// Bounds of the draws that a send on a link makes.
pub open spec fn draws_of(s: NetState, from: usize, to: usize) -> (Option<u64>, Option<u64>) {
    if admission(s, from, to) != Ok::<bool, NetError>(true) || !s.links.contains_key((from, to)) {
        (None, None)
    } else {
        let cfg = s.links[(from, to)];
        (
            if cfg.jitter > 0 {
                Some(jitter_bound(cfg.jitter))
            } else {
                None
            },
            if cfg.loss_probability@ != 0 {
                Some(LOSS_SCALE)
            } else {
                None
            },
        )
    }
}

/// Bound of the draw that a drawn receive makes.
pub open spec fn recv_bound(s: NetState, task: usize, now: u64) -> Option<u64> {
    let window = next_window(s, task, now);
    let from = pool(s.queue, task, now, window);
    if window == 0 || from.len() == 0 {
        None
    } else {
        Some(from.len() as u64)
    }
}

/// The network with a partition toggled.
pub open spec fn toggled(s: NetState, from: usize, to: usize) -> NetState {
    NetState {
        partitions: if s.partitions.contains((from, to)) {
            s.partitions.remove((from, to))
        } else {
            s.partitions.insert((from, to))
        },
        ..s
    }
}

/// The message of a timed scalar send.
pub open spec fn timed(
    from: usize,
    to: usize,
    payload: u64,
    send_id: EntryHash,
    now: u64,
    delay: u64,
) -> Envelope {
    Envelope {
        from,
        to,
        content: le(payload as nat, 8),
        send_id,
        message_id: MessageId { actor: ActorId(from as u32), sequence: 0 },
        deliver_at: tick_sum(now, delay),
    }
}

/// The entry id that a peek reports.
pub open spec fn peeked(s: NetState, task: usize, now: u64) -> Option<EntryHash> {
    match served(s.queue, task, now, next_window(s, task, now)) {
        Some(i) => Some(s.queue[i].send_id),
        None => None,
    }
}

proof fn lemma_pushed_set(pairs: Seq<(usize, usize)>, pair: (usize, usize))
    ensures
        pairs.push(pair).to_set() == pairs.to_set().insert(pair),
{
    let after = pairs.push(pair);
    assert forall|p: (usize, usize)|
        after.to_set().contains(p) == pairs.to_set().insert(pair).contains(p) by {
        if pairs.contains(p) {
            let k = choose|k: int| 0 <= k < pairs.len() && pairs[k] == p;
            assert(after[k] == p);
        }
        if p == pair {
            assert(after[pairs.len() as int] == p);
        }
        if after.contains(p) && p != pair {
            let k = choose|k: int| 0 <= k < after.len() && after[k] == p;
            assert(pairs[k] == p);
        }
    }
    assert(after.to_set() =~= pairs.to_set().insert(pair));
}

proof fn lemma_first_ready_prefix(q: Seq<Envelope>, task: usize, now: u64, i: int)
    requires
        0 <= i <= q.len(),
        first_ready(q.take(i), task, now) is Some,
    ensures
        first_ready(q, task, now) == first_ready(q.take(i), task, now),
    decreases q.len() - i,
{
    if i == q.len() {
        assert(q.take(i) =~= q);
    } else {
        assert(q.take(i + 1).drop_last() =~= q.take(i));
        lemma_first_ready_prefix(q, task, now, i + 1);
    }
}

/// Toggling a partition twice restores the network.
pub proof fn law_toggle_twice_is_identity(s: NetState, from: usize, to: usize)
    ensures
        toggled(toggled(s, from, to), from, to) == s,
        toggled(s, from, to).partitions.contains((from, to)) == !s.partitions.contains((from, to)),
{
    assert(toggled(toggled(s, from, to), from, to) =~= s);
}

/// A peek names the message that the deterministic receive delivers.
pub proof fn law_peek_matches_receive(s: NetState, task: usize, now: u64)
    ensures
        ({
            let served_at = served(s.queue, task, now, next_window(s, task, now));
            peeked(s, task, now) == match received(s, served_at).0 {
                Some(m) => Some(m.send_id),
                None => None,
            }
        }),
{
}

/// A receive, deterministic or drawn, delivers a message addressed to the task
/// and due, takes it out of the queue, and keeps the order of the others. It
/// delivers nothing only when nothing is due.
pub proof fn law_receive_takes_one_due_message(
    before: NetState,
    task: usize,
    now: u64,
    window: usize,
    word: u64,
    drawn: bool,
)
    ensures
        ({
            let position = if drawn {
                served_drawn(before.queue, task, now, window, word)
            } else {
                served(before.queue, task, now, window)
            };
            let (message, after) = received(before, position);
            &&& message is None <==> forall|i: int|
                0 <= i < before.queue.len() ==> !is_ready(#[trigger] before.queue[i], task, now)
            &&& message is None ==> after == before
            &&& message matches Some(m) ==> {
                &&& is_ready(m, task, now)
                &&& exists|i: int|
                    0 <= i < before.queue.len() && before.queue[i] == m && #[trigger] without(
                        before,
                        i,
                    ) == after
            }
        }),
{
    let q = before.queue;
    lemma_pool(q, task, now, window);
    lemma_first_ready(q, task, now);
    let from = pool(q, task, now, window);
    if from.len() > 0 {
        let k = (word as nat % from.len()) as int;
        assert(0 <= from[k] < q.len() && is_ready(q[from[k]], task, now));
        assert(0 <= from.last() < q.len() && is_ready(q[from.last()], task, now)) by {
            assert(from.last() == from[from.len() - 1]);
        }
        let i = if drawn {
            from[k]
        } else {
            from.last()
        };
        assert(without(before, i) == without(before, i));
    }
}

/// Window zero is strict FIFO: both kinds of receive take the oldest due
/// message and neither draws.
pub proof fn law_window_zero_is_fifo(s: NetState, task: usize, now: u64, word: u64)
    requires
        next_window(s, task, now) == 0,
    ensures
        served(s.queue, task, now, 0) == first_ready(s.queue, task, now),
        served_drawn(s.queue, task, now, 0, word) == first_ready(s.queue, task, now),
        recv_bound(s, task, now) is None,
{
    let from = pool(s.queue, task, now, 0);
    if first_ready(s.queue, task, now) is Some {
        assert(from.len() == 1);
        assert(word as nat % 1 == 0);
    }
}

/// With a window, the deterministic receive takes the newest due message of
/// the sender of the oldest one, whatever the size of the window.
pub proof fn law_window_serves_newest(q: Seq<Envelope>, task: usize, now: u64, window: usize)
    requires
        window > 0,
        first_ready(q, task, now) is Some,
    ensures
        ({
            let sender = q[first_ready(q, task, now)->Some_0].from;
            let i = served(q, task, now, window)->Some_0;
            &&& served(q, task, now, window) is Some
            &&& 0 <= i < q.len()
            &&& is_ready(q[i], task, now) && q[i].from == sender
            &&& forall|j: int|
                i < j < q.len() ==> !(is_ready(#[trigger] q[j], task, now) && q[j].from == sender)
        }),
{
    lemma_first_ready(q, task, now);
    lemma_pool(q, task, now, window);
    let sender = q[first_ready(q, task, now)->Some_0].from;
    lemma_candidates(q, task, now, sender);
    let c = candidates(q, task, now, sender);
    assert(c.contains(first_ready(q, task, now)->Some_0));
    let i = served(q, task, now, window)->Some_0;
    assert(i == c[c.len() - 1]);
    assert forall|j: int| i < j < q.len() implies !(is_ready(#[trigger] q[j], task, now)
        && q[j].from == sender) by {
        if is_ready(q[j], task, now) && q[j].from == sender {
            assert(c.contains(j));
            let k = choose|k: int| 0 <= k < c.len() && c[k] == j;
            if k < c.len() - 1 {
                assert(c[k] < c[c.len() - 1]);
            }
        }
    }
}

/// A window at least as large as the number of candidates clamps to it.
pub proof fn law_window_clamps(q: Seq<Envelope>, task: usize, now: u64, a: usize, b: usize)
    requires
        q.len() <= a,
        q.len() <= b,
        a > 0,
        b > 0,
    ensures
        pool(q, task, now, a) == pool(q, task, now, b),
{
    if let Some(first) = first_ready(q, task, now) {
        lemma_candidates_len(q, task, now, q[first].from);
    }
}

/// A full link refuses before any draw and leaves the network unchanged, so a
/// refused send never perturbs the draw stream.
pub proof fn law_full_link_draws_nothing(
    before: NetState,
    message: Envelope,
    now: u64,
    base_delay: u64,
    jitter_draw: u64,
    loss_draw: u64,
)
    requires
        !before.partitions.contains((message.from, message.to)),
        capacity_fault(before, message.from, message.to) is Some,
    ensures
        draws_of(before, message.from, message.to) == (None::<u64>, None::<u64>),
        sent_via_link(before, message, now, base_delay, jitter_draw, loss_draw) == (
            Err::<bool, NetError>(capacity_fault(before, message.from, message.to)->Some_0),
            before,
        ),
{
}

/// A link without jitter and loss draws nothing, and its sends do not depend
/// on any draw.
pub proof fn law_plain_link_draws_nothing(
    before: NetState,
    message: Envelope,
    now: u64,
    base_delay: u64,
    draws: (u64, u64),
    other: (u64, u64),
)
    requires
        before.links.contains_key((message.from, message.to)) ==> before.links[(
            message.from,
            message.to,
        )].jitter == 0 && before.links[(message.from, message.to)].loss_probability@ == 0,
    ensures
        draws_of(before, message.from, message.to) == (None::<u64>, None::<u64>),
        sent_via_link(before, message, now, base_delay, draws.0, draws.1) == sent_via_link(
            before,
            message,
            now,
            base_delay,
            other.0,
            other.1,
        ),
{
}

/// No send takes a bounded link above its capacity.
pub proof fn law_sends_respect_capacity(
    before: NetState,
    message: Envelope,
    now: u64,
    base_delay: u64,
    jitter_draw: u64,
    loss_draw: u64,
    from: usize,
    to: usize,
    cap: usize,
)
    requires
        before.links.contains_key((from, to)),
        before.links[(from, to)].capacity == Some(cap),
        queued(before.queue, from, to) <= cap,
    ensures
        queued(sent(before, message).1.queue, from, to) <= cap,
        queued(
            sent_via_link(before, message, now, base_delay, jitter_draw, loss_draw).1.queue,
            from,
            to,
        ) <= cap,
{
    let a = sent(before, message).1;
    let b = sent_via_link(before, message, now, base_delay, jitter_draw, loss_draw).1;
    if a.queue != before.queue {
        assert(a.queue.drop_last() =~= before.queue);
    }
    if b.queue != before.queue {
        assert(b.queue.drop_last() =~= before.queue);
    }
}

/// A scalar payload arrives as it was sent.
pub proof fn law_scalar_survives(payload: u64)
    ensures
        scalar(le(payload as nat, 8)) == payload,
{
    crate::bytes::lemma_le_len(payload as nat, 8);
    crate::bytes::lemma_span_small();
    crate::bytes::lemma_le_value_of_le(payload as nat, 8);
    assert(le(payload as nat, 8).take(8) =~= le(payload as nat, 8));
}

} // verus!
