//! What becomes of a message, from its send to its receipt.

use crate::bytes::le;
use crate::config::SimFault;
use crate::deed_laws::law_first_scheduled_fault_is_injected;
use crate::deeds::{deeds, drop_entry, entry, law_one_entry_is_appended, on_record, only_journaled};
use crate::effect_laws::{law_delay_is_within_its_bound, lemma_marked_lists};
use crate::host::{Ask, Reply, SeedStream};
use crate::ids::{ActorId, EntryHash, MessageId};
use crate::journal::{FaultModel, Payload};
use crate::model::{
    bytes_sent, carried, delay_drawn, delay_of, delivered, duplicates, identified, injection_for,
    kept, loss_kept, marked, message_taken, net_chance, origin_kept, received_now, refusal_kept,
    scalar_sent, send_injected, settled, swarm_decided, task_appended, told, transmitted, SendFault,
    SendOutcome, SwarmAction, World,
};
use crate::net::{
    draws_of, next_window, received, recv_bound, scalar, sent, sent_via_link, served, served_drawn,
    tick_sum, Envelope, NetError, NetState, QueueFullPolicy,
};
use crate::net_laws::{
    awaits, law_receive_follows_the_window, oldest, saturated, taken_at, window_allows,
};
use crate::origin::{law_record_then_get, origin_of, OriginSource};
use crate::probability::chance_hit;
use vstd::prelude::*;

verus! {

broadcast use crate::deeds::lemma_deeds;

/// The question for the next word of the network stream, `k` words on.
pub open spec fn net_word(w: World, k: int) -> Ask {
    Ask::Draw {
        stream: SeedStream::Net,
        offset: ((w.net_offset + k) % 0x1_0000_0000_0000_0000) as u64,
    }
}

/// The network stream moved on by `k` words.
pub open spec fn net_moved(w: World, after: World, k: int) -> bool {
    after.net_offset == (w.net_offset + k) % 0x1_0000_0000_0000_0000
}

/// A drawn delay: the word reduced to the ticks up to the bound.
pub open spec fn reduced(word: u64, max: u64) -> int {
    word as int % (max as int + 1)
}

/// What the swarm decides of a send, by the words that the network stream gives
/// from a place of the script on.
pub struct Fate {
    /// The message is dropped.
    pub dropped: bool,
    /// Ticks by which it is delayed.
    pub delay: int,
    /// Words that were drawn.
    pub words: int,
}

/// A chance of zero never hits and draws nothing. A drop comes first; a delay is
/// possible only up to a bound that is not zero.
pub open spec fn fate(w: World, script: Seq<Reply>) -> Fate {
    let n = w.log.len() as int;
    let drop = w.swarm.drop_probability@;
    let slow = w.swarm.delay_probability@;
    let max = w.swarm.max_delay_ticks;
    let k = if drop == 0 {
        0int
    } else {
        1int
    };
    if drop != 0 && chance_hit(drop, script[n]->Word_0) {
        Fate { dropped: true, delay: 0, words: 1 }
    } else if max == 0 || slow == 0 {
        Fate { dropped: false, delay: 0, words: k }
    } else if chance_hit(slow, script[n + k]->Word_0) {
        Fate { dropped: false, delay: reduced(script[n + k + 1]->Word_0, max), words: k + 2 }
    } else {
        Fate { dropped: false, delay: 0, words: k + 1 }
    }
}

/// The questions for so many words of the network stream.
pub open spec fn net_words(w: World, before: Seq<Ask>, words: int) -> Seq<Ask>
    decreases words,
{
    if words <= 0 {
        before
    } else {
        net_words(w, before, words - 1).push(net_word(w, words - 1))
    }
}

/// The swarm drops a send with its drop chance, and delays it with its delay
/// chance by ticks drawn up to the bound. A drop is journaled as caused by the
/// send. The words come one after the other from the network stream, and nothing
/// else is drawn.
pub proof fn law_swarm_drops_and_delays(
    w: World,
    task: usize,
    send_id: EntryHash,
    message_id: MessageId,
    script: Seq<Reply>,
)
    ensures
        ({
            let f = fate(w, script);
            let (action, after) = swarm_decided(w, task, send_id, message_id, script);
            &&& action is Drop <==> f.dropped
            &&& action matches SwarmAction::Delay(ticks) ==> ticks == f.delay
            &&& action is Deliver ==> f.delay == 0
            &&& deeds(after.log) == if f.dropped {
                net_words(w, deeds(w.log), 1).push(drop_entry(task, send_id, message_id))
            } else {
                net_words(w, deeds(w.log), f.words)
            }
            &&& net_moved(w, after, f.words)
            &&& only_journaled(w, World { net_offset: w.net_offset, ..after })
            &&& !f.dropped ==> after.log.len() == w.log.len() + f.words && after.journal_error
                == w.journal_error && after.coverage == w.coverage
        }),
{
    reveal_with_fuel(net_words, 4);
    let drop = w.swarm.drop_probability@;
    let (dropped, w1) = net_chance(w, drop, script);
    let max = w.swarm.max_delay_ticks;
    let f = fate(w, script);
    assert(f.dropped == dropped);
    assert(w1.log.len() <= w.log.len() + 1);
    if dropped {
        let payload = Payload::Fault(FaultModel::DropMessage { message_id });
        assert(deeds(w1.log) =~= net_words(w, deeds(w.log), 1));
        law_one_entry_is_appended(w1, task, seq![send_id], payload, script);
    } else if max == 0 {
        assert(deeds(w1.log) =~= net_words(w, deeds(w.log), f.words));
    } else {
        let (delayed, w2) = net_chance(w1, w.swarm.delay_probability@, script);
        if delayed {
            let word = script[w2.log.len() as int]->Word_0;
            law_delay_is_within_its_bound(word, max);
            if max == u64::MAX {
                vstd::arithmetic::div_mod::lemma_small_mod(word as nat, (max + 1) as nat);
            }
            assert(delay_of(word, max) == reduced(word, max));
            let w3 = delay_drawn(w2, max, script).1;
            assert(deeds(w3.log) =~= net_words(w, deeds(w.log), f.words));
        } else {
            assert(deeds(w2.log) =~= net_words(w, deeds(w.log), f.words));
        }
    }
}

/// The ticks that a scheduled fault delays a send by.
pub open spec fn scheduled_delay(w: World, id: EntryHash) -> int {
    match injection_for(w.fault_schedule, id) {
        Some(SimFault::Delay { ticks, .. }) => ticks as int,
        _ => 0,
    }
}

/// The send is dropped by the list of dropped events or by the fault schedule.
pub open spec fn condemned(w: World, id: EntryHash) -> bool {
    w.dropped_events.contains(id) || injection_for(w.fault_schedule, id) matches Some(
        SimFault::Drop(_),
    )
}

/// Some scheduled fault transmits the send a second time.
pub open spec fn doubled(w: World, id: EntryHash) -> bool {
    exists|k: int|
        0 <= k < w.fault_schedule.len() && #[trigger] w.fault_schedule[k] == (SimFault::Duplicate {
            send: id,
        })
}

/// A condemned send counts as sent, is journaled as dropped, and never reaches
/// the network. No word is drawn for it.
pub proof fn law_condemned_send_is_dropped(
    w: World,
    message: Envelope,
    now: u64,
    base_delay: u64,
    script: Seq<Reply>,
)
    requires
        condemned(w, message.send_id),
    ensures
        ({
            let (delivered, after) = carried(w, message, now, base_delay, script);
            &&& delivered
            &&& after.net == w.net && after.net_offset == w.net_offset
            &&& deeds(after.log) == deeds(w.log).push(
                drop_entry(message.from, message.send_id, message.message_id),
            )
        }),
{
    let id = message.send_id;
    let payload = Payload::Fault(FaultModel::DropMessage { message_id: message.message_id });
    law_one_entry_is_appended(w, message.from, seq![id], payload, script);
    law_one_entry_is_appended(marked(w, id), message.from, seq![id], payload, script);
}

/// A send that the swarm drops counts as sent, is journaled as dropped, and
/// never reaches the network.
pub proof fn law_swarm_drop_keeps_the_network(
    w: World,
    message: Envelope,
    now: u64,
    base_delay: u64,
    script: Seq<Reply>,
)
    requires
        !condemned(w, message.send_id),
        fate(w, script).dropped,
    ensures
        ({
            let (delivered, after) = carried(w, message, now, base_delay, script);
            &&& delivered
            &&& after.net == w.net
            &&& deeds(after.log) == net_words(w, deeds(w.log), 1).push(
                drop_entry(message.from, message.send_id, message.message_id),
            )
        }),
{
    let id = message.send_id;
    let (fault, w1) = send_injected(w, message.from, id, message.message_id, script);
    law_swarm_drops_and_delays(w1, message.from, id, message.message_id, script);
    assert(fate(w1, script) == fate(w, script));
    assert(net_words(w1, deeds(w.log), 1) == net_words(w, deeds(w.log), 1)) by {
        reveal_with_fuel(net_words, 3);
    }
}

/// A send that is neither dropped nor refused, on a link without configuration,
/// joins the end of the queue. It is due when the base delay, the delay that the
/// swarm drew and the scheduled delay have passed. Nothing is journaled, and no
/// word is drawn beyond those of the swarm.
pub proof fn law_send_is_due_after_its_delays(
    w: World,
    message: Envelope,
    now: u64,
    base_delay: u64,
    script: Seq<Reply>,
)
    requires
        !condemned(w, message.send_id),
        !fate(w, script).dropped,
        !doubled(w, message.send_id),
        !w.net.links.dom().contains((message.from, message.to)),
        !w.net.partitions.contains((message.from, message.to)),
    ensures
        ({
            let f = fate(w, script);
            let (delivered, after) = carried(w, message, now, base_delay, script);
            let last = after.net.queue.last();
            &&& delivered
            &&& after.net == (NetState { queue: w.net.queue.push(last), ..w.net })
            &&& last == (Envelope { deliver_at: last.deliver_at, ..message })
            &&& saturated(
                last.deliver_at,
                now + base_delay + f.delay + scheduled_delay(w, message.send_id),
            )
            &&& deeds(after.log) == net_words(w, deeds(w.log), f.words)
            &&& net_moved(w, after, f.words)
            &&& scheduled_delay(w, message.send_id) > 0 ==> after.applied_faults.contains(
                message.send_id,
            )
        }),
{
    let id = message.send_id;
    lemma_marked_lists(w, id);
    let (fault, w1) = send_injected(w, message.from, id, message.message_id, script);
    law_swarm_drops_and_delays(w1, message.from, id, message.message_id, script);
    assert(fate(w1, script) == fate(w, script));
    assert(net_words(w1, deeds(w.log), fate(w, script).words) == net_words(
        w,
        deeds(w.log),
        fate(w, script).words,
    )) by {
        reveal_with_fuel(net_words, 4);
    }
    let w2 = swarm_decided(w1, message.from, id, message.message_id, script).1;
    assert(w2.net == w.net);
    assert(w2.fault_schedule == w.fault_schedule);
}

/// A send over a configured link draws for its jitter and its loss, in this
/// order, each word reduced below its bound, and goes by the draws. A send over
/// any other link goes without a draw, due after the total delay.
pub proof fn law_transmission_draws_for_its_link(
    w: World,
    message: Envelope,
    now: u64,
    total_delay: u64,
    script: Seq<Reply>,
)
    ensures
        ({
            let n = w.log.len() as int;
            let (bound, odds) = draws_of(w.net, message.from, message.to);
            let a = if bound is Some {
                1int
            } else {
                0int
            };
            let b = if odds is Some {
                1int
            } else {
                0int
            };
            let jitter = match bound {
                Some(m) => if m == 0 {
                    0u64
                } else {
                    (script[n]->Word_0 % m) as u64
                },
                None => 0u64,
            };
            let loss = match odds {
                Some(m) => if m == 0 {
                    0u64
                } else {
                    (script[n + a]->Word_0 % m) as u64
                },
                None => 0u64,
            };
            let (outcome, after) = transmitted(w, message, now, total_delay, script);
            let (answer, net) = if w.net.links.dom().contains((message.from, message.to)) {
                sent_via_link(w.net, message, now, total_delay, jitter, loss)
            } else {
                sent(
                    w.net,
                    Envelope {
                        deliver_at: if now + total_delay > u64::MAX {
                            u64::MAX
                        } else {
                            (now + total_delay) as u64
                        },
                        ..message
                    },
                )
            };
            &&& after.net == net
            &&& outcome is QueueFull <==> answer is Err
            &&& outcome matches SendOutcome::Queued(taken) ==> answer == Ok::<bool, NetError>(taken)
            &&& deeds(after.log) == net_words(w, deeds(w.log), a + b)
            &&& net_moved(w, after, a + b)
            &&& after == (World {
                log: after.log,
                net: after.net,
                net_offset: after.net_offset,
                ..w
            })
        }),
{
    reveal_with_fuel(net_words, 4);
}

/// The entry that tells why the network did not take a send.
pub open spec fn refusal(w: World, message: Envelope, outcome: SendOutcome) -> Ask {
    let (task, to, id) = (message.from, message.to, message.send_id);
    if outcome is QueueFull {
        if w.net.links.dom().contains((task, to)) && w.net.links[(task, to)].queue_policy
            == QueueFullPolicy::Block {
            entry(task, seq![id], Payload::Block)
        } else {
            drop_entry(task, id, message.message_id)
        }
    } else if w.net.partitions.contains((task, to)) {
        entry(
            task,
            seq![id],
            Payload::Fault(
                FaultModel::Partition {
                    src: ActorId(task as u32),
                    dst: ActorId(to as u32),
                    enabled: true,
                },
            ),
        )
    } else {
        drop_entry(task, id, message.message_id)
    }
}

/// A send that the network took is done. One that it did not take is reported
/// as such and journaled, as caused by the send: a full link as a drop or a
/// block, as its policy says, a cut link as a partition, and a loss as a drop.
/// The network does not change any more.
pub proof fn law_refused_send_is_journaled(
    w: World,
    outcome: SendOutcome,
    message: Envelope,
    now: u64,
    total_delay: u64,
    script: Seq<Reply>,
)
    requires
        outcome is QueueFull || !doubled(w, message.send_id),
    ensures
        ({
            let (delivered, after) = settled(w, outcome, message, now, total_delay, script);
            &&& delivered <==> outcome == SendOutcome::Queued(true)
            &&& delivered ==> after == w
            &&& !delivered ==> deeds(after.log) == deeds(w.log).push(refusal(w, message, outcome))
            &&& after.net == w.net && after.net_offset == w.net_offset
        }),
{
    lemma_refusal(w, message, script);
}

proof fn lemma_refusal(w: World, message: Envelope, script: Seq<Reply>)
    ensures
        ({
            let (task, to, id) = (message.from, message.to, message.send_id);
            let full = refusal_kept(w, task, id, to, message.message_id, script);
            let lost = loss_kept(w, task, id, to, message.message_id, script);
            &&& deeds(full.log) == deeds(w.log).push(refusal(w, message, SendOutcome::QueueFull))
            &&& deeds(lost.log) == deeds(w.log).push(
                refusal(w, message, SendOutcome::Queued(false)),
            )
            &&& only_journaled(w, full) && only_journaled(w, lost)
        }),
{
    let (task, to, id) = (message.from, message.to, message.send_id);
    let drop = Payload::Fault(FaultModel::DropMessage { message_id: message.message_id });
    let cut = Payload::Fault(
        FaultModel::Partition {
            src: ActorId(task as u32),
            dst: ActorId(to as u32),
            enabled: true,
        },
    );
    law_one_entry_is_appended(w, task, seq![id], drop, script);
    law_one_entry_is_appended(w, task, seq![id], cut, script);
    law_one_entry_is_appended(w, task, seq![id], Payload::Block, script);
}

/// A send that is transmitted twice counts as sent where the network took either
/// copy. Each copy that it did not take is journaled on its own, the first
/// before the second.
pub proof fn law_refused_copies_are_journaled(
    w: World,
    first: bool,
    message: Envelope,
    now: u64,
    total_delay: u64,
    script: Seq<Reply>,
)
    requires
        doubled(w, message.send_id),
    ensures
        ({
            let id = message.send_id;
            let duplicate = Payload::Fault(
                FaultModel::DuplicateMessage { message_id: message.message_id, copy_ordinal: 1 },
            );
            let told_twice = kept(marked(w, id), message.from, seq![id], duplicate, script).1;
            let (second, sent_twice) = transmitted(told_twice, message, now, total_delay, script);
            let (delivered, after) = settled(
                w,
                SendOutcome::Queued(first),
                message,
                now,
                total_delay,
                script,
            );
            let once = if first {
                deeds(sent_twice.log)
            } else {
                deeds(sent_twice.log).push(
                    refusal(sent_twice, message, SendOutcome::Queued(false)),
                )
            };
            &&& delivered <==> first || second == SendOutcome::Queued(true)
            &&& after.net == sent_twice.net && after.net_offset == sent_twice.net_offset
            &&& deeds(after.log) == if second == SendOutcome::Queued(true) {
                once
            } else {
                once.push(refusal(sent_twice, message, second))
            }
        }),
{
    let (task, to, id) = (message.from, message.to, message.send_id);
    let duplicate = Payload::Fault(
        FaultModel::DuplicateMessage { message_id: message.message_id, copy_ordinal: 1 },
    );
    let w1 = kept(marked(w, id), task, seq![id], duplicate, script).1;
    let w2 = transmitted(w1, message, now, total_delay, script).1;
    lemma_refusal(w2, message, script);
    let w3 = loss_kept(w2, task, id, to, message.message_id, script);
    lemma_refusal(w3, message, script);
}

/// A send that a scheduled fault doubles is journaled as duplicated and
/// transmitted again, and the fault is marked as applied. On a link without
/// configuration that is not cut the second copy joins the queue behind the
/// first, due at the same time.
pub proof fn law_doubled_send_is_transmitted_twice(
    w: World,
    message: Envelope,
    now: u64,
    total_delay: u64,
    script: Seq<Reply>,
)
    requires
        doubled(w, message.send_id),
        !w.net.links.dom().contains((message.from, message.to)),
        !w.net.partitions.contains((message.from, message.to)),
    ensures
        ({
            let (delivered, after) = settled(
                w,
                SendOutcome::Queued(true),
                message,
                now,
                total_delay,
                script,
            );
            let copy = after.net.queue.last();
            &&& delivered
            &&& after.net == (NetState { queue: w.net.queue.push(copy), ..w.net })
            &&& copy == (Envelope { deliver_at: copy.deliver_at, ..message })
            &&& saturated(copy.deliver_at, now + total_delay)
            &&& after.applied_faults.contains(message.send_id)
            &&& deeds(after.log) == deeds(w.log).push(
                entry(
                    message.from,
                    seq![message.send_id],
                    Payload::Fault(
                        FaultModel::DuplicateMessage {
                            message_id: message.message_id,
                            copy_ordinal: 1,
                        },
                    ),
                ),
            )
        }),
{
    let id = message.send_id;
    lemma_marked_lists(w, id);
    let payload = Payload::Fault(
        FaultModel::DuplicateMessage { message_id: message.message_id, copy_ordinal: 1 },
    );
    law_one_entry_is_appended(marked(w, id), message.from, seq![id], payload, script);
}

/// Number of sends of a task so far.
pub open spec fn sends_before(w: World, task: usize) -> u64 {
    if task < w.send_seq.len() {
        w.send_seq[task as int]
    } else {
        0
    }
}

/// A send reads the time, takes the next identity of its task and journals the
/// content under it. A message beyond the limit is not journaled; that failure
/// and a failed append are on record, and the send is refused. A journaled send
/// goes on to the network as the message of its entry.
pub proof fn law_send_is_journaled_first(
    w: World,
    task: usize,
    to: usize,
    content: Seq<u8>,
    base_delay: u64,
    script: Seq<Reply>,
)
    ensures
        ({
            let n = w.log.len() as int;
            let now = script[n]->Ticks_0;
            let message_id = MessageId {
                actor: ActorId(task as u32),
                sequence: sends_before(w, task),
            };
            let record = entry(
                task,
                Seq::empty(),
                Payload::Send {
                    message_id,
                    from: ActorId(task as u32),
                    to: ActorId(to as u32),
                    original_content: content,
                },
            );
            let reply = script[n + 1]->Appended_0;
            let (delivered, after) = bytes_sent(w, task, to, content, base_delay, None, script);
            if content.len() > w.message_limit {
                !delivered && deeds(after.log) == deeds(w.log).push(Ask::Now) && after.net == w.net
                    && after.journal_error is Some
            } else {
                match reply {
                    Err(e) => {
                        &&& !delivered && after.net == w.net
                        &&& deeds(after.log) == deeds(w.log).push(Ask::Now).push(record)
                        &&& after.journal_error == on_record(w.journal_error, reply)
                    },
                    Ok(id) => exists|mid: World|
                        {
                            &&& deeds(mid.log) == deeds(w.log).push(Ask::Now).push(record)
                            &&& only_journaled(w, World { send_seq: w.send_seq, ..mid })
                            &&& mid.journal_error == w.journal_error
                            &&& (delivered, after) == #[trigger] carried(
                                mid,
                                Envelope {
                                    from: task,
                                    to,
                                    content,
                                    send_id: id,
                                    message_id,
                                    deliver_at: now,
                                },
                                now,
                                base_delay,
                                script,
                            )
                        },
                }
            }
        }),
{
    let w1 = told(w, Ask::Now, script).1;
    let (message_id, w2) = identified(w1, task);
    let payload = Payload::Send {
        message_id,
        from: ActorId(task as u32),
        to: ActorId(to as u32),
        original_content: content,
    };
    law_one_entry_is_appended(w2, task, Seq::empty(), payload, script);
    let mid = task_appended(w2, task, Seq::empty(), payload, script).1;
    assert(only_journaled(w, World { send_seq: w.send_seq, ..mid }));
}

/// The number of a task's sends grows by one with each send, and no other
/// task's.
pub proof fn law_sends_are_numbered(w: World, task: usize, other: usize)
    ensures
        ({
            let (id, after) = identified(w, task);
            &&& id == (MessageId { actor: ActorId(task as u32), sequence: sends_before(w, task) })
            &&& sends_before(after, task) == if sends_before(w, task) == u64::MAX {
                0
            } else {
                sends_before(w, task) + 1
            }
            &&& other != task ==> sends_before(after, other) == sends_before(w, other)
            &&& after == (World { send_seq: after.send_seq, ..w })
        }),
{
}

/// A receive reads the time and takes one due message as the network's windows
/// have it, with a word of the network stream only where receives are drawn and
/// the window leaves a choice. It journals what it received as caused by the
/// send, and gives the first eight bytes of the content as a number. With
/// nothing due it gives nothing and journals nothing.
pub proof fn law_receive_takes_and_journals(w: World, task: usize, script: Seq<Reply>)
    ensures
        ({
            let n = w.log.len() as int;
            let now = script[n]->Ticks_0;
            let s = w.net;
            let window = next_window(s, task, now);
            let bound = recv_bound(s, task, now);
            let draws = w.reorder_draw && bound is Some;
            let word = if draws && bound->Some_0 > 0 {
                (script[n + 1]->Word_0 % bound->Some_0) as u64
            } else {
                0u64
            };
            let asked = if draws {
                deeds(w.log).push(Ask::Now).push(net_word(w, 0))
            } else {
                deeds(w.log).push(Ask::Now)
            };
            let (message, net) = received(
                s,
                if w.reorder_draw {
                    served_drawn(s.queue, task, now, window, word)
                } else {
                    served(s.queue, task, now, window)
                },
            );
            let (value, after) = received_now(w, task, script);
            &&& after.net == net
            &&& value is Some <==> message is Some
            &&& message is None ==> deeds(after.log) == asked
            &&& message matches Some(m) ==> {
                &&& value == Some(scalar(m.content) as u64)
                &&& deeds(after.log) == asked.push(
                    entry(
                        task,
                        seq![m.send_id],
                        Payload::Recv {
                            message_id: m.message_id,
                            from: ActorId(m.from as u32),
                            to: ActorId(task as u32),
                            observed_content: m.content,
                        },
                    ),
                )
            }
            &&& after.tasks == w.tasks && after.ready == w.ready
        }),
{
    let n = w.log.len() as int;
    let (reply, w1) = told(w, Ask::Now, script);
    let now = reply->Ticks_0;
    let (message, w2) = delivered(w1, task, now, script);
    if let Some(m) = message {
        let payload = Payload::Recv {
            message_id: m.message_id,
            from: ActorId(m.from as u32),
            to: ActorId(task as u32),
            observed_content: m.content,
        };
        law_one_entry_is_appended(w2, task, seq![m.send_id], payload, script);
    }
}

/// A value that was sent is the value that is received: a send over a link
/// without configuration, by a run without faults, whose entry was journaled,
/// is what the target receives next once it is due, when nothing else is due
/// for it.
pub proof fn law_sent_value_is_received(
    w: World,
    task: usize,
    to: usize,
    payload: u64,
    delay: u64,
    later: Seq<Reply>,
    script: Seq<Reply>,
)
    requires
        script[w.log.len() as int + 1]->Appended_0 is Ok,
        w.message_limit >= 8,
        w.fault_schedule.len() == 0,
        w.dropped_events.len() == 0,
        w.swarm.drop_probability@ == 0,
        w.swarm.max_delay_ticks == 0,
        !w.net.links.dom().contains((task, to)),
        w.net.window == 0,
        !w.net.partitions.contains((task, to)),
        !w.reorder_draw,
    ensures
        ({
            let sent_at = script[w.log.len() as int]->Ticks_0;
            let (delivered, mid) = scalar_sent(w, task, to, payload, delay, None, script);
            let now = later[mid.log.len() as int]->Ticks_0;
            let (value, after) = received_now(mid, to, later);
            &&& delivered
            &&& (forall|i: int|
                0 <= i < w.net.queue.len() ==> !awaits(#[trigger] w.net.queue[i], to, now))
                ==> if sent_at + delay <= now {
                value == Some(payload) && after.net.queue == w.net.queue
            } else {
                value is None || now == u64::MAX
            }
        }),
{
    let n = w.log.len() as int;
    let sent_at = script[n]->Ticks_0;
    let content = le(payload as nat, 8);
    crate::bytes::lemma_le_len(payload as nat, 8);
    crate::net::law_scalar_survives(payload);
    law_send_is_journaled_first(w, task, to, content, delay, script);
    let id = script[n + 1]->Appended_0->Ok_0;
    let (delivered, mid) = scalar_sent(w, task, to, payload, delay, None, script);
    let w1 = told(w, Ask::Now, script).1;
    let (message_id, w2) = identified(w1, task);
    let record = Payload::Send {
        message_id,
        from: ActorId(task as u32),
        to: ActorId(to as u32),
        original_content: content,
    };
    law_one_entry_is_appended(w2, task, Seq::empty(), record, script);
    let w3 = task_appended(w2, task, Seq::empty(), record, script).1;
    let message = Envelope { from: task, to, content, send_id: id, message_id, deliver_at: sent_at };
    assert(!doubled(w3, id));
    law_first_scheduled_fault_is_injected(w3.fault_schedule, id);
    assert(!condemned(w3, id));
    law_send_is_due_after_its_delays(w3, message, sent_at, delay, script);
    assert((delivered, mid) == carried(w3, message, sent_at, delay, script));
    let now = later[mid.log.len() as int]->Ticks_0;
    law_receive_takes_and_journals(mid, to, later);
    law_receive_follows_the_window(mid.net, to, now, false, 0);
    let q = w.net.queue;
    let r = mid.net.queue;
    if forall|i: int| 0 <= i < q.len() ==> !awaits(#[trigger] q[i], to, now) {
        let last = r.last();
        assert forall|i: int| 0 <= i < q.len() implies !awaits(#[trigger] r[i], to, now) by {
            assert(r[i] == q[i]);
        }
        if awaits(last, to, now) {
            assert(awaits(r[r.len() - 1], to, now));
            let (got, net) = received(mid.net, served(r, to, now, next_window(mid.net, to, now)));
            let (first, i) = choose|first: int, i: int|
                oldest(r, to, now, first) && taken_at(mid.net, net, got->Some_0, i)
                    && #[trigger] window_allows(mid.net, to, now, false, 0, first, i);
            assert(i == r.len() - 1);
            assert(net.queue =~= q);
        }
    }
}

/// A message can be taken for one task by another: what is due for the first is
/// taken as the network's windows have it, and the second journals that it
/// received it.
pub proof fn law_message_is_taken_on_behalf(
    w: World,
    by: usize,
    task: usize,
    now: u64,
    script: Seq<Reply>,
)
    ensures
        ({
            let s = w.net;
            let window = next_window(s, task, now);
            let bound = recv_bound(s, task, now);
            let draws = w.reorder_draw && bound is Some;
            let word = if draws && bound->Some_0 > 0 {
                (script[w.log.len() as int]->Word_0 % bound->Some_0) as u64
            } else {
                0u64
            };
            let asked = if draws {
                deeds(w.log).push(net_word(w, 0))
            } else {
                deeds(w.log)
            };
            let (expected, net) = received(
                s,
                if w.reorder_draw {
                    served_drawn(s.queue, task, now, window, word)
                } else {
                    served(s.queue, task, now, window)
                },
            );
            let (message, after) = message_taken(w, by, task, now, script);
            &&& message == expected && after.net == net
            &&& message is None ==> deeds(after.log) == asked
            &&& message matches Some(m) ==> deeds(after.log) == asked.push(
                entry(
                    by,
                    seq![m.send_id],
                    Payload::Recv {
                        message_id: m.message_id,
                        from: ActorId(m.from as u32),
                        to: ActorId(by as u32),
                        observed_content: m.content,
                    },
                ),
            )
        }),
{
    let (message, w1) = delivered(w, task, now, script);
    if let Some(m) = message {
        let payload = Payload::Recv {
            message_id: m.message_id,
            from: ActorId(m.from as u32),
            to: ActorId(by as u32),
            observed_content: m.content,
        };
        law_one_entry_is_appended(w1, by, seq![m.send_id], payload, script);
    }
}

proof fn lemma_settled_keeps_origins(
    w: World,
    first: SendOutcome,
    message: Envelope,
    now: u64,
    total_delay: u64,
    script: Seq<Reply>,
)
    ensures
        settled(w, first, message, now, total_delay, script).1.origins == w.origins,
{
    lemma_refusal(w, message, script);
    if let SendOutcome::Queued(delivered) = first {
        if duplicates(w.fault_schedule, message.send_id) {
            let (task, to, id) = (message.from, message.to, message.send_id);
            let duplicate = Payload::Fault(
                FaultModel::DuplicateMessage { message_id: message.message_id, copy_ordinal: 1 },
            );
            law_one_entry_is_appended(marked(w, id), task, seq![id], duplicate, script);
            let w1 = kept(marked(w, id), task, seq![id], duplicate, script).1;
            assert(w1.origins == w.origins);
            let w2 = transmitted(w1, message, now, total_delay, script).1;
            assert(w2.origins == w.origins);
            lemma_refusal(w2, message, script);
            let w3 = if delivered {
                w2
            } else {
                loss_kept(w2, task, id, to, message.message_id, script)
            };
            assert(w3.origins == w.origins);
            lemma_refusal(w3, message, script);
        }
    }
}

proof fn lemma_carried_keeps_origins(
    w: World,
    message: Envelope,
    now: u64,
    base_delay: u64,
    script: Seq<Reply>,
)
    ensures
        carried(w, message, now, base_delay, script).1.origins == w.origins,
{
    let (task, id, message_id) = (message.from, message.send_id, message.message_id);
    let drop = Payload::Fault(FaultModel::DropMessage { message_id });
    law_one_entry_is_appended(w, task, seq![id], drop, script);
    law_one_entry_is_appended(marked(w, id), task, seq![id], drop, script);
    let (fault, w1) = send_injected(w, task, id, message_id, script);
    assert(w1.origins == w.origins);
    law_swarm_drops_and_delays(w1, task, id, message_id, script);
    let (action, w2) = swarm_decided(w1, task, id, message_id, script);
    assert(w2.origins == w.origins);
    let injected = match fault {
        SendFault::Delayed(ticks) => ticks,
        _ => 0,
    };
    let total = match action {
        SwarmAction::Delay(extra) => tick_sum(tick_sum(base_delay, extra), injected),
        _ => tick_sum(base_delay, injected),
    };
    let (first, w3) = transmitted(w2, message, now, total, script);
    assert(w3.origins == w.origins);
    lemma_settled_keeps_origins(w3, first, message, now, total, script);
}

/// The entry of a send has the origin that the send was given. A send without
/// one, or that is not journaled, leaves the origins alone.
pub proof fn law_sent_entry_has_its_origin(
    w: World,
    task: usize,
    to: usize,
    content: Seq<u8>,
    base_delay: u64,
    at: Option<OriginSource>,
    script: Seq<Reply>,
    other: EntryHash,
)
    ensures
        ({
            let reply = script[w.log.len() + 1int]->Appended_0;
            let after = bytes_sent(w, task, to, content, base_delay, at, script).1;
            let journaled = content.len() <= w.message_limit && reply is Ok;
            &&& journaled && at is Some && at->Some_0 !is Unknown ==> origin_of(
                after.origins,
                reply->Ok_0,
            ) == at
            &&& !journaled || at is None ==> after.origins == w.origins
            &&& other != reply->Ok_0 ==> origin_of(after.origins, other) == origin_of(
                w.origins,
                other,
            )
        }),
{
    let (reply, w1) = told(w, Ask::Now, script);
    let now = reply->Ticks_0;
    let (message_id, w2) = identified(w1, task);
    let payload = Payload::Send {
        message_id,
        from: ActorId(task as u32),
        to: ActorId(to as u32),
        original_content: content,
    };
    law_one_entry_is_appended(w2, task, Seq::empty(), payload, script);
    let (answer, w3) = task_appended(w2, task, Seq::empty(), payload, script);
    if let Ok(id) = answer {
        let message = Envelope {
            from: task,
            to,
            content,
            send_id: id,
            message_id,
            deliver_at: now,
        };
        lemma_carried_keeps_origins(origin_kept(w3, id, at), message, now, base_delay, script);
        if let Some(source) = at {
            law_record_then_get(w3.origins, id, source, id);
            law_record_then_get(w3.origins, id, source, other);
        }
    }
}

} // verus!
