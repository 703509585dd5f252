//! What the simulated network does with messages, said of the messages.

use crate::ids::EntryHash;
use crate::net::{
    candidates, draws_of, earliest, first_ready, is_ready, lemma_candidates, lemma_first_ready,
    lemma_pool, next_window, peeked, policy_of, pool, queued, received, recv_bound, scalar, sent,
    sent_via_link, served, served_drawn, timed, toggled, window_check, window_of, Envelope,
    NetError, NetState, QueueFullPolicy,
};
use crate::probability::loss_limit;
use vstd::prelude::*;

verus! {

/// The message is for the task and its time has come.
pub open spec fn awaits(m: Envelope, task: usize, now: u64) -> bool {
    m.to == task && m.deliver_at <= now
}

/// The position holds the oldest message whose time has come for the task.
pub open spec fn oldest(q: Seq<Envelope>, task: usize, now: u64, i: int) -> bool {
    &&& 0 <= i < q.len()
    &&& awaits(q[i], task, now)
    &&& forall|j: int| 0 <= j < i ==> !awaits(#[trigger] q[j], task, now)
}

/// The position holds the newest message of the sender whose time has come.
pub open spec fn newest_of(q: Seq<Envelope>, task: usize, now: u64, sender: usize, i: int) -> bool {
    &&& 0 <= i < q.len()
    &&& awaits(q[i], task, now) && q[i].from == sender
    &&& forall|j: int| i < j < q.len() ==> !(awaits(#[trigger] q[j], task, now) && q[j].from == sender)
}

/// The positions, ascending, of the newest messages of the sender whose time has
/// come: all of them, or as many as the window holds.
pub open spec fn newest_ones(
    q: Seq<Envelope>,
    task: usize,
    now: u64,
    sender: usize,
    window: usize,
    picks: Seq<int>,
) -> bool {
    &&& 0 < picks.len() <= window
    &&& forall|k: int|
        0 <= k < picks.len() ==> 0 <= #[trigger] picks[k] < q.len() && awaits(q[picks[k]], task, now)
            && q[picks[k]].from == sender
    &&& forall|j: int, k: int|
        0 <= j < k < picks.len() ==> #[trigger] picks[j] < #[trigger] picks[k]
    &&& forall|i: int|
        0 <= i < q.len() && awaits(#[trigger] q[i], task, now) && q[i].from == sender
            ==> picks.contains(i) || (picks.len() == window && i < picks[0])
}

/// Window of a link: its own unless that is zero, else that of the network.
pub open spec fn link_window(s: NetState, from: usize, to: usize) -> usize {
    if s.links.dom().contains((from, to)) && s.links[(from, to)].reorder_window > 0 {
        s.links[(from, to)].reorder_window
    } else {
        s.window
    }
}

/// Number of messages queued on a directed link.
pub open spec fn in_flight(q: Seq<Envelope>, from: usize, to: usize) -> nat {
    q.filter(|m: Envelope| m.from == from && m.to == to).len()
}

/// The directed link is at its capacity.
pub open spec fn link_is_full(s: NetState, from: usize, to: usize) -> bool {
    &&& s.links.dom().contains((from, to))
    &&& s.links[(from, to)].capacity matches Some(cap) && in_flight(s.queue, from, to) >= cap
}

/// A receive took the message at the position and left everything else in place.
pub open spec fn taken_at(before: NetState, after: NetState, m: Envelope, i: int) -> bool {
    &&& 0 <= i < before.queue.len()
    &&& before.queue[i] == m
    &&& after.queue == before.queue.take(i) + before.queue.skip(i + 1)
    &&& after.partitions == before.partitions
    &&& after.links == before.links
    &&& after.window == before.window
}

/// The message that a receive may take, given the oldest due one: that one
/// without a window on its link, else the newest of its sender, or the drawn one
/// of the newest of its sender.
pub open spec fn window_allows(
    s: NetState,
    task: usize,
    now: u64,
    drawn: bool,
    word: u64,
    first: int,
    i: int,
) -> bool {
    let q = s.queue;
    let sender = q[first].from;
    let window = link_window(s, sender, task);
    &&& awaits(q[i], task, now) && q[i].from == sender
    &&& window == 0 ==> i == first
    &&& window > 0 && !drawn ==> newest_of(q, task, now, sender, i)
    &&& window > 0 && drawn ==> exists|picks: Seq<int>| #[trigger]
        newest_ones(q, task, now, sender, window, picks) && i == picks[word as int
            % picks.len() as int]
}

/// The number is the sum of the numbers, or the largest of all when the sum is
/// beyond it.
pub open spec fn saturated(total: u64, sum: int) -> bool {
    total == if sum > u64::MAX {
        u64::MAX as int
    } else {
        sum
    }
}

proof fn lemma_ready_is_awaiting(q: Seq<Envelope>, task: usize, now: u64)
    ensures
        first_ready(q, task, now) matches Some(i) ==> oldest(q, task, now, i),
        first_ready(q, task, now) is None ==> forall|j: int|
            0 <= j < q.len() ==> !awaits(#[trigger] q[j], task, now),
{
    lemma_first_ready(q, task, now);
    if let Some(i) = first_ready(q, task, now) {
        assert forall|j: int| 0 <= j < i implies !awaits(#[trigger] q[j], task, now) by {
            assert(!is_ready(q[j], task, now));
        }
    } else {
        assert forall|j: int| 0 <= j < q.len() implies !awaits(#[trigger] q[j], task, now) by {
            assert(!is_ready(q[j], task, now));
        }
    }
}

proof fn lemma_pool_is_newest(q: Seq<Envelope>, task: usize, now: u64, window: usize)
    requires
        window > 0,
        first_ready(q, task, now) is Some,
    ensures
        newest_ones(
            q,
            task,
            now,
            q[first_ready(q, task, now)->Some_0].from,
            window,
            pool(q, task, now, window),
        ),
{
    let sender = q[first_ready(q, task, now)->Some_0].from;
    lemma_first_ready(q, task, now);
    lemma_candidates(q, task, now, sender);
    let c = candidates(q, task, now, sender);
    let p = pool(q, task, now, window);
    assert(c.contains(first_ready(q, task, now)->Some_0));
    let cut = c.len() - p.len();
    assert forall|k: int| 0 <= k < p.len() implies p[k] == c[k + cut] by {}
    assert forall|k: int| 0 <= k < p.len() implies 0 <= #[trigger] p[k] < q.len() && awaits(
        q[p[k]],
        task,
        now,
    ) && q[p[k]].from == sender by {
        let i = c[k + cut];
        assert(is_ready(q[i], task, now));
    }
    assert forall|j: int, k: int| 0 <= j < k < p.len() implies #[trigger] p[j] < #[trigger] p[k] by {
        assert(c[j + cut] < c[k + cut]);
    }
    assert forall|i: int|
        0 <= i < q.len() && awaits(#[trigger] q[i], task, now) && q[i].from
            == sender implies p.contains(i) || (p.len() == window && i < p[0]) by {
        assert(is_ready(q[i], task, now));
        let n = choose|n: int| 0 <= n < c.len() && c[n] == i;
        if n >= cut {
            assert(p[n - cut] == i);
        } else {
            assert(c[n] < c[cut]);
            assert(p[0] == c[cut]);
        }
    }
}

/// A receive delivers exactly when a message for the task is due, and delivers a
/// due message of the sender of the oldest one. It takes that message and leaves
/// everything else in place. Without a window on the link it is the oldest due
/// message. With a window it is the newest of the sender; a drawn receive picks
/// among the newest of the sender, as many as the window holds, by the draw.
pub proof fn law_receive_follows_the_window(
    s: NetState,
    task: usize,
    now: u64,
    drawn: bool,
    word: u64,
)
    ensures
        ({
            let q = s.queue;
            let position = if drawn {
                served_drawn(q, task, now, next_window(s, task, now), word)
            } else {
                served(q, task, now, next_window(s, task, now))
            };
            let (message, after) = received(s, position);
            &&& message is Some <==> exists|j: int|
                0 <= j < q.len() && awaits(#[trigger] q[j], task, now)
            &&& message is None ==> after == s
            &&& message matches Some(m) ==> exists|first: int, i: int|
                oldest(q, task, now, first) && taken_at(s, after, m, i)
                    && #[trigger] window_allows(s, task, now, drawn, word, first, i)
        }),
{
    let q = s.queue;
    let window = next_window(s, task, now);
    lemma_ready_is_awaiting(q, task, now);
    lemma_first_ready(q, task, now);
    if let Some(first) = first_ready(q, task, now) {
        assert(awaits(q[first], task, now));
        let sender = q[first].from;
        let picks = pool(q, task, now, window);
        let i = if drawn {
            picks[word as int % picks.len() as int]
        } else {
            picks.last()
        };
        if window == 0 {
            assert(picks =~= seq![first]);
            assert(word as int % 1 == 0);
        } else {
            lemma_pool_is_newest(q, task, now, window);
            if !drawn {
                assert(picks.last() == picks[picks.len() - 1]);
                assert(newest_of(q, task, now, sender, i)) by {
                    assert forall|j: int| i < j < q.len() implies !(awaits(#[trigger] q[j], task, now)
                        && q[j].from == sender) by {
                        if awaits(q[j], task, now) && q[j].from == sender {
                            if picks.contains(j) {
                                let k = choose|k: int| 0 <= k < picks.len() && picks[k] == j;
                                if k < picks.len() - 1 {
                                    assert(picks[k] < picks[picks.len() - 1]);
                                }
                            } else {
                                assert(picks[0] <= picks[picks.len() - 1]);
                            }
                        }
                    }
                }
            } else {
                assert(newest_ones(q, task, now, sender, window, picks));
                let k = word as int % picks.len() as int;
                assert(0 <= k < picks.len());
            }
        }
        let position = if drawn {
            served_drawn(q, task, now, window, word)
        } else {
            served(q, task, now, window)
        };
        assert(position == Some(i));
        let after = received(s, position).1;
        assert(after.queue =~= q.take(i) + q.skip(i + 1));
        assert(oldest(q, task, now, first));
        assert(taken_at(s, after, q[i], i));
        assert(window_allows(s, task, now, drawn, word, first, i));
    }
}

/// The draw of a receive is among as many as the window of the link holds of the
/// sender's due messages. Without a window, and with nothing due, none is made.
pub proof fn law_receive_draw_is_bounded(s: NetState, task: usize, now: u64)
    ensures
        ({
            let q = s.queue;
            match recv_bound(s, task, now) {
                Some(bound) => exists|first: int, picks: Seq<int>|
                    oldest(q, task, now, first) && bound == picks.len() as u64
                        && #[trigger] newest_ones(
                        q,
                        task,
                        now,
                        q[first].from,
                        link_window(s, q[first].from, task),
                        picks,
                    ),
                None => forall|first: int| #[trigger]
                    oldest(q, task, now, first) ==> link_window(s, q[first].from, task) == 0,
            }
        }),
{
    let q = s.queue;
    let window = next_window(s, task, now);
    lemma_ready_is_awaiting(q, task, now);
    lemma_pool(q, task, now, window);
    if let Some(first) = first_ready(q, task, now) {
        assert(oldest(q, task, now, first));
        assert forall|other: int| #[trigger] oldest(q, task, now, other) implies other == first by {
            assert(awaits(q[other], task, now));
            assert(awaits(q[first], task, now));
        }
        if window > 0 {
            lemma_pool_is_newest(q, task, now, window);
            assert(newest_ones(
                q,
                task,
                now,
                q[first].from,
                link_window(s, q[first].from, task),
                pool(q, task, now, window),
            ));
        }
    } else {
        assert forall|other: int| !#[trigger] oldest(q, task, now, other) by {
            if 0 <= other < q.len() {
                assert(!awaits(q[other], task, now));
            }
        }
    }
}

/// A peek names the send of the message that the next plain receive delivers.
pub proof fn law_peek_names_the_next_message(s: NetState, task: usize, now: u64)
    ensures
        match peeked(s, task, now) {
            Some(id) => {
                let (message, after) = received(
                    s,
                    served(s.queue, task, now, next_window(s, task, now)),
                );
                message matches Some(m) && m.send_id == id
            },
            None => forall|j: int|
                0 <= j < s.queue.len() ==> !awaits(#[trigger] s.queue[j], task, now),
        },
{
    lemma_ready_is_awaiting(s.queue, task, now);
    lemma_pool(s.queue, task, now, next_window(s, task, now));
}

proof fn lemma_queued_is_in_flight(q: Seq<Envelope>, from: usize, to: usize)
    ensures
        queued(q, from, to) == in_flight(q, from, to),
        in_flight(q, from, to) <= q.len(),
    decreases q.len(),
{
    reveal(Seq::filter);
    if q.len() > 0 {
        lemma_queued_is_in_flight(q.drop_last(), from, to);
    }
}

/// A plain send joins the end of the queue unless its directed link is
/// partitioned or full. A partitioned link answers that nothing was queued; a
/// full one names its capacity and the messages in flight. Neither changes the
/// network.
pub proof fn law_send_is_queued_unless_refused(s: NetState, message: Envelope)
    requires
        s.queue.len() <= usize::MAX,
    ensures
        ({
            let (from, to) = (message.from, message.to);
            let (answer, after) = sent(s, message);
            if s.partitions.contains((from, to)) {
                answer == Ok::<bool, NetError>(false) && after == s
            } else if link_is_full(s, from, to) {
                answer == Err::<bool, NetError>(
                    NetError::QueueFull {
                        from,
                        to,
                        capacity: s.links[(from, to)].capacity->Some_0,
                        queued: in_flight(s.queue, from, to) as usize,
                    },
                ) && after == s
            } else {
                answer == Ok::<bool, NetError>(true) && after == (NetState {
                    queue: s.queue.push(message),
                    ..s
                })
            }
        }),
{
    lemma_queued_is_in_flight(s.queue, message.from, message.to);
}

/// A send over a configured link is refused as a plain one is. Otherwise the
/// loss draw may lose it, silently; else it joins the queue, due when the base
/// delay, the delay of the link and the drawn jitter have passed. A link
/// without jitter ignores the jitter draw, and one without loss the loss draw.
pub proof fn law_link_delays_and_loses(
    s: NetState,
    message: Envelope,
    now: u64,
    base_delay: u64,
    jitter_draw: u64,
    loss_draw: u64,
)
    requires
        s.links.dom().contains((message.from, message.to)),
    ensures
        ({
            let cfg = s.links[(message.from, message.to)];
            let (answer, after) = sent_via_link(
                s,
                message,
                now,
                base_delay,
                jitter_draw,
                loss_draw,
            );
            let refused = s.partitions.contains((message.from, message.to)) || link_is_full(
                s,
                message.from,
                message.to,
            );
            let lost = cfg.loss_probability@ != 0 && loss_draw < loss_limit(
                cfg.loss_probability@,
            );
            let extra = if cfg.jitter > 0 {
                jitter_draw as int
            } else {
                0
            };
            &&& refused ==> answer == sent(s, message).0 && after == s
            &&& !refused && lost ==> answer == Ok::<bool, NetError>(false) && after == s
            &&& !refused && !lost ==> {
                &&& answer == Ok::<bool, NetError>(true)
                &&& after.queue.len() == s.queue.len() + 1
                &&& after.queue.drop_last() == s.queue
                &&& after.partitions == s.partitions && after.links == s.links && after.window
                    == s.window
                &&& after.queue.last() == (Envelope {
                    deliver_at: after.queue.last().deliver_at,
                    ..message
                })
                &&& saturated(
                    after.queue.last().deliver_at,
                    now + base_delay + cfg.base_delay + extra,
                )
            }
        }),
{
    lemma_queued_is_in_flight(s.queue, message.from, message.to);
    let after = sent_via_link(s, message, now, base_delay, jitter_draw, loss_draw).1;
    if after.queue.len() > s.queue.len() {
        assert(after.queue.drop_last() =~= s.queue);
    }
}

/// A send that is not refused draws once for the jitter of its link, among one
/// more than the jitter, and once for its loss, in billionths. A link without
/// one of them does not draw for it; a refused send draws nothing.
pub proof fn law_send_draws_for_jitter_and_loss(s: NetState, from: usize, to: usize)
    ensures
        ({
            let (jitter, loss) = draws_of(s, from, to);
            let refused = s.partitions.contains((from, to)) || link_is_full(s, from, to);
            if refused || !s.links.dom().contains((from, to)) {
                jitter is None && loss is None
            } else {
                let cfg = s.links[(from, to)];
                &&& jitter is Some <==> cfg.jitter > 0
                &&& jitter matches Some(bound) ==> saturated(bound, cfg.jitter + 1)
                &&& loss is Some <==> cfg.loss_probability@ != 0
                &&& loss matches Some(bound) ==> bound == 1_000_000_000
            }
        }),
{
    lemma_queued_is_in_flight(s.queue, from, to);
}

/// The earliest delivery is that of some queued message, and no queued message
/// is due before it.
pub proof fn law_earliest_delivery_is_the_first(q: Seq<Envelope>)
    ensures
        earliest(q) is None <==> q.len() == 0,
        earliest(q) matches Some(t) ==> {
            &&& forall|i: int| 0 <= i < q.len() ==> t <= (#[trigger] q[i]).deliver_at
            &&& exists|i: int| 0 <= i < q.len() && (#[trigger] q[i]).deliver_at == t
        },
    decreases q.len(),
{
    if q.len() > 0 {
        let front = q.drop_last();
        law_earliest_delivery_is_the_first(front);
        let t = earliest(q)->Some_0;
        assert forall|i: int| 0 <= i < q.len() implies t <= (#[trigger] q[i]).deliver_at by {
            if i < front.len() {
                assert(front[i] == q[i]);
            }
        }
        if t == q.last().deliver_at {
            assert(q[q.len() - 1].deliver_at == t);
        } else {
            let i = choose|i: int| 0 <= i < front.len() && (#[trigger] front[i]).deliver_at == t;
            assert(q[i].deliver_at == t);
        }
    }
}

/// Toggling a directed link cuts it or heals it, and touches no other link and
/// nothing else of the network.
pub proof fn law_toggle_touches_one_link(s: NetState, from: usize, to: usize, other: (usize, usize))
    ensures
        ({
            let after = toggled(s, from, to);
            &&& after.partitions.contains((from, to)) != s.partitions.contains((from, to))
            &&& other != (from, to) ==> after.partitions.contains(other) == s.partitions.contains(
                other,
            )
            &&& after.queue == s.queue && after.links == s.links && after.window == s.window
        }),
{
}

/// A full link drops its overflow unless it is set to block.
pub proof fn law_overflow_policy(s: NetState, from: usize, to: usize)
    ensures
        policy_of(s, from, to) == QueueFullPolicy::Block <==> s.links.dom().contains((from, to))
            && s.links[(from, to)].queue_policy == QueueFullPolicy::Block,
        window_of(s, from, to) == link_window(s, from, to),
{
}

/// A reorder window is accepted exactly up to its bound.
pub proof fn law_reorder_window_is_bounded(window: usize)
    ensures
        window_check(window) is Ok <==> window <= 65_536,
        window_check(window) matches Err(e) ==> e matches NetError::InvalidReorderWindow {
            window: rejected,
            ..
        } && rejected == window,
{
}

/// A timed send carries its payload as eight bytes, least significant first, and
/// is due when its delay has passed.
pub proof fn law_timed_send_is_due_after_its_delay(
    from: usize,
    to: usize,
    payload: u64,
    send_id: EntryHash,
    now: u64,
    delay: u64,
)
    ensures
        ({
            let m = timed(from, to, payload, send_id, now, delay);
            &&& m.from == from && m.to == to && m.send_id == send_id
            &&& m.content.len() == 8 && scalar(m.content) == payload
            &&& saturated(m.deliver_at, now + delay)
        }),
{
    crate::bytes::lemma_le_len(payload as nat, 8);
    crate::net::law_scalar_survives(payload);
}

} // verus!
