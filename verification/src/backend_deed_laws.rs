//! What each operation of a simulation backend asks of its world, and what it
//! changes.

use crate::backend_sim::{
    accepted, answer_traced, clock_glanced, collected, dispatched, dispatched_from, drawn, entered,
    firing_journaled, firings_journaled, fresh_backend, loaded, seeded, slept, storage_crashed,
    stored, synced, BackendState,
};
use crate::config::Crash;
use crate::deed_laws::{is_stream, lemma_slot_finds_stream};
use crate::deeds::{deeds, eight, law_words_are_eight_bytes};
use crate::host::{Ask, Reply, SeedStream, TimerFired};
use crate::ids::{ActorId, EntryHash, StreamId};
use crate::journal::{Draft, FaultModel, JournalError, Payload, WakePayload};
use crate::model::recv_payload;
use crate::net::{next_window, received, recv_bound, served, served_drawn, Envelope, NetState};
use crate::net_laws::{law_send_is_queued_unless_refused, link_is_full};
use crate::origin::{law_record_then_get, origin_of, OriginSource};
use crate::stream::{chacha20_word, lemma_slot_names_stream, stream_slot, StreamState};
use crate::text::decimal;
use vstd::prelude::*;

verus! {

broadcast use crate::deeds::lemma_deeds;

/// The question that appends an entry of the backend's actor.
pub open spec fn own_entry(s: BackendState, parents: Seq<EntryHash>, payload: Payload) -> Ask {
    Ask::Append { record: Draft { actor: s.actor, parents, chained: false, payload } }
}

/// What the world answers to the question after so many more.
pub open spec fn answer(s: BackendState, script: Seq<Reply>, later: int) -> Reply {
    script[s.log.len() + later]
}

/// The failure on record after an append: the first one stays.
pub open spec fn failure(s: BackendState, reply: Reply) -> Option<JournalError> {
    match (s.journal_error, reply) {
        (None, Reply::Appended(Err(e))) => Some(e),
        (earlier, _) => earlier,
    }
}

/// Nothing but the log and the recorded failure differs.
pub open spec fn only_logged(before: BackendState, after: BackendState) -> bool {
    after == (BackendState { log: after.log, journal_error: after.journal_error, ..before })
}

/// An append asks the world for one entry of the backend's actor. It gives the
/// id of the entry, or nothing and the failure is on record.
pub proof fn law_backend_append_is_one_entry(
    s: BackendState,
    parents: Seq<EntryHash>,
    payload: Payload,
    script: Seq<Reply>,
)
    requires
        answer(s, script, 0) is Appended,
    ensures
        ({
            let (id, after) = entered(s, parents, payload, script);
            &&& deeds(after.log) == deeds(s.log).push(own_entry(s, parents, payload))
            &&& id == match answer(s, script, 0)->Appended_0 {
                Ok(found) => Some(found),
                Err(_) => None,
            }
            &&& after.journal_error == failure(s, answer(s, script, 0))
            &&& only_logged(s, after)
        }),
{
}

/// A crash journals the loss of everything that was not flushed, and then
/// crashes storage, whether or not the entry was appended.
pub proof fn law_backend_crash_reaches_storage(s: BackendState, script: Seq<Reply>)
    requires
        answer(s, script, 0) is Appended,
    ensures
        ({
            let (id, after) = storage_crashed(s, script);
            &&& deeds(after.log) == deeds(s.log).push(
                own_entry(
                    s,
                    Seq::empty(),
                    Payload::Fault(
                        FaultModel::CrashActor {
                            actor: s.actor,
                            crash_operation: Crash::DropAllUnsynced,
                        },
                    ),
                ),
            ).push(Ask::FsCrash { journaled: false })
            &&& id is Some <==> answer(s, script, 0)->Appended_0 is Ok
            &&& id is Some ==> answer(s, script, 0)->Appended_0 == Ok::<EntryHash, JournalError>(
                id->Some_0,
            )
            &&& after.journal_error == failure(s, answer(s, script, 0))
            &&& only_logged(s, after)
        }),
{
}

/// The clock is the time that the world gives. Where somebody listens, the time
/// is published first.
pub proof fn law_backend_clock_is_the_time(s: BackendState, script: Seq<Reply>)
    ensures
        ({
            let (now, after) = clock_glanced(s, script);
            if s.tick_sink is None {
                &&& deeds(after.log) == deeds(s.log).push(Ask::Now)
                &&& now == answer(s, script, 0)->Ticks_0
                &&& only_logged(s, after) && after.journal_error == s.journal_error
            } else {
                &&& deeds(after.log) == deeds(s.log).push(Ask::Now).push(Ask::Now)
                &&& after.tick_sink == Some(answer(s, script, 0)->Ticks_0)
                &&& now == answer(s, script, 1)->Ticks_0
                &&& only_logged(s, BackendState { tick_sink: s.tick_sink, ..after })
            }
        }),
{
}

/// A sleep journals the timer, arms it for the backend's actor under the id of
/// its entry, and lets time run to the next deadline, in that order. With no
/// timer fired that is all; where somebody listens, the time is published last.
pub proof fn law_backend_sleep_lets_time_run(s: BackendState, ticks: u64, script: Seq<Reply>)
    requires
        answer(s, script, 0) is Appended,
        answer(s, script, 2) == Reply::Fired(Seq::empty()),
    ensures
        ({
            let after = slept(s, ticks, script);
            let set = match answer(s, script, 0)->Appended_0 {
                Ok(id) => Some(id),
                Err(_) => None,
            };
            let questions = deeds(s.log).push(
                own_entry(
                    s,
                    Seq::empty(),
                    Payload::TimerSet { timer_id: 0, deadline_ticks: ticks },
                ),
            ).push(Ask::SetTimer { ticks, task: s.actor.0 as usize, enabler: set }).push(
                Ask::AdvanceFiring,
            );
            &&& after.journal_error == failure(s, answer(s, script, 0))
            &&& only_logged(s, BackendState { tick_sink: s.tick_sink, ..after })
            &&& if s.tick_sink is None {
                deeds(after.log) == questions && after.tick_sink is None
            } else {
                deeds(after.log) == questions.push(Ask::Now) && after.tick_sink == Some(
                    answer(s, script, 3)->Ticks_0,
                )
            }
        }),
{
    assert(firings_journaled(
        BackendState { log: s.log, ..s },
        Seq::<TimerFired>::empty(),
        script,
    ) == s);
}

/// A fired timer is journaled as caused by the entry that armed it, where there
/// is one; its wake-up follows as caused by the firing, if the firing was
/// appended.
pub proof fn law_backend_firing_wakes(s: BackendState, timer: TimerFired, script: Seq<Reply>)
    requires
        answer(s, script, 0) is Appended,
        answer(s, script, 1) is Appended,
    ensures
        ({
            let after = firing_journaled(s, timer, script);
            let fired = deeds(s.log).push(
                own_entry(
                    s,
                    match timer.enabler {
                        Some(id) => seq![id],
                        None => Seq::empty(),
                    },
                    Payload::TimerFire { timer_id: 0, deadline_ticks: 0 },
                ),
            );
            match answer(s, script, 0)->Appended_0 {
                Ok(fire) => deeds(after.log) == fired.push(
                    own_entry(s, seq![fire], Payload::Wake(WakePayload::TimerReady { timer_id: 0 })),
                ),
                Err(_) => deeds(after.log) == fired && after.journal_error is Some,
            }
        }),
{
}

/// A send is journaled first. The message that the entry names joins the end of
/// the network's queue, under the id of the entry, unless its link is
/// partitioned or full; a send that was not journaled reaches no network.
pub proof fn law_backend_send_joins_the_queue(
    s: BackendState,
    message: Envelope,
    at: OriginSource,
    script: Seq<Reply>,
)
    requires
        answer(s, script, 0) is Appended,
        s.net.queue.len() <= usize::MAX,
    ensures
        ({
            let ((queued, id), after) = dispatched(s, message, script);
            let (traced_queued, traced_after) = dispatched_from(s, message, at, script);
            &&& deeds(after.log) == deeds(s.log).push(
                own_entry(
                    s,
                    Seq::empty(),
                    Payload::Send {
                        message_id: message.message_id,
                        from: ActorId(message.from as u32),
                        to: ActorId(message.to as u32),
                        original_content: message.content,
                    },
                ),
            )
            &&& match answer(s, script, 0)->Appended_0 {
                Ok(found) => {
                    &&& id == Some(found)
                    &&& queued <==> !s.net.partitions.contains((message.from, message.to))
                        && !link_is_full(s.net, message.from, message.to)
                    &&& after.net == if queued {
                        NetState {
                            queue: s.net.queue.push(Envelope { send_id: found, ..message }),
                            ..s.net
                        }
                    } else {
                        s.net
                    }
                    &&& at !is Unknown ==> origin_of(traced_after.origins, found) == Some(at)
                },
                Err(_) => !queued && id is None && after.net == s.net && after.journal_error is Some
                    && traced_after == after,
            }
            &&& traced_queued == queued
            &&& only_logged(s, BackendState { net: s.net, ..after })
            &&& traced_after == (BackendState { origins: traced_after.origins, ..after })
        }),
{
    if let Ok(found) = answer(s, script, 0)->Appended_0 {
        law_send_is_queued_unless_refused(s.net, Envelope { send_id: found, ..message });
        law_record_then_get(s.origins, found, at, found);
    }
}

/// A receive takes one due message as the network's windows have it, with a word
/// of the network stream only where receives are drawn and the window leaves a
/// choice. It journals what it received as caused by the send, and its entry has
/// the origin of the send. With nothing due it journals nothing.
pub proof fn law_backend_receive_takes_and_journals(
    s: BackendState,
    task: usize,
    now: u64,
    script: Seq<Reply>,
)
    ensures
        ({
            let window = next_window(s.net, task, now);
            let bound = recv_bound(s.net, task, now);
            let draws = s.reorder_draw && bound is Some;
            let word = if draws && bound->Some_0 > 0 {
                (answer(s, script, 0)->Word_0 % bound->Some_0) as u64
            } else {
                0u64
            };
            let questions = if draws {
                deeds(s.log).push(Ask::Draw { stream: SeedStream::Net, offset: s.net_offset })
            } else {
                deeds(s.log)
            };
            let (expected, net) = received(
                s.net,
                if s.reorder_draw {
                    served_drawn(s.net.queue, task, now, window, word)
                } else {
                    served(s.net.queue, task, now, window)
                },
            );
            let (message, after) = accepted(s, task, now, script);
            &&& message == expected && after.net == net
            &&& after.net_offset == if !draws {
                s.net_offset
            } else if s.net_offset == u64::MAX {
                0
            } else {
                (s.net_offset + 1) as u64
            }
            &&& message is None ==> deeds(after.log) == questions && after.origins == s.origins
            &&& message matches Some(m) ==> {
                let reply = answer(
                    s,
                    script,
                    if draws {
                        1
                    } else {
                        0
                    },
                );
                &&& deeds(after.log) == questions.push(
                    own_entry(
                        s,
                        seq![m.send_id],
                        Payload::Recv {
                            message_id: m.message_id,
                            from: ActorId(m.from as u32),
                            to: ActorId(task as u32),
                            observed_content: m.content,
                        },
                    ),
                )
                &&& match (reply, origin_of(s.origins, m.send_id)) {
                    (Reply::Appended(Ok(id)), Some(origin)) => origin !is Unknown ==> origin_of(
                        after.origins,
                        id,
                    ) == Some(origin),
                    (Reply::Appended(Err(_)), _) => after.origins == s.origins,
                    (_, origin) => origin is None ==> after.origins == s.origins,
                }
            }
            &&& after.actor == s.actor && after.streams == s.streams && after.tick_sink
                == s.tick_sink
        }),
{
    let (message, s1) = collected(s, task, now, script);
    if let Some(m) = message {
        let (id, s2) = entered(s1, seq![m.send_id], recv_payload(task, m), script);
        if let (Some(found), Some(origin)) = (id, origin_of(s2.origins, m.send_id)) {
            law_record_then_get(s2.origins, found, origin, found);
        }
    }
}

/// Writes, flushes and reads ask storage once, for the backend's actor, and give
/// its answer.
pub proof fn law_backend_storage_is_asked_once(
    s: BackendState,
    path: Seq<char>,
    value: u64,
    script: Seq<Reply>,
)
    ensures
        ({
            let (wrote, written) = stored(s, path, value, script);
            let (flush, flushed) = synced(s, script);
            let (found, read) = loaded(s, path, script);
            &&& deeds(written.log) == deeds(s.log).push(
                Ask::FsWrite { actor: s.actor, path, value },
            )
            &&& wrote == answer(s, script, 0)->Appended_0 && written == (BackendState {
                log: written.log,
                ..s
            })
            &&& deeds(flushed.log) == deeds(s.log).push(Ask::FsFsync { actor: s.actor })
            &&& flush == answer(s, script, 0)->Appended_0 && flushed == (BackendState {
                log: flushed.log,
                ..s
            })
            &&& deeds(read.log) == deeds(s.log).push(Ask::FsRead { actor: s.actor, path })
            &&& found == answer(s, script, 0)->Value_0 && read == (BackendState {
                log: read.log,
                ..s
            })
        }),
{
}

/// An answer that names an entry gives that entry its origin.
pub proof fn law_backend_answers_are_traced(
    s: BackendState,
    reply: Result<EntryHash, JournalError>,
    at: OriginSource,
)
    ensures
        ({
            let after = answer_traced(s, reply, at);
            &&& at !is Unknown && reply is Ok ==> origin_of(after.origins, reply->Ok_0) == Some(at)
            &&& reply is Err ==> after == s
            &&& after == (BackendState { origins: after.origins, ..s })
        }),
{
    if let Ok(id) = reply {
        law_record_then_get(s.origins, id, at, id);
    }
}

/// A draw gives the next word of the actor's stream: word number `k` of the
/// generator with the stream's seed, `k` words having been drawn before. The
/// stream is seeded by its name on first use. The draw is journaled with its
/// eight bytes.
pub proof fn law_backend_draw_is_the_next_word(s: BackendState, stream: u32, script: Seq<Reply>)
    ensures
        ({
            let (word, after) = drawn(s, stream, script);
            let task = s.actor.0 as usize;
            let known = exists|i: int| #[trigger] is_stream(s.streams, task, stream, i);
            let record = own_entry(
                s,
                Seq::empty(),
                Payload::RngDraw { stream: StreamId(stream), draw_index: 0, content: eight(word) },
            );
            &&& exists|before: StreamState, i: int|
                {
                    &&& #[trigger] holds(s, stream, script, before)
                    &&& word == chacha20_word(before.seed@, (2 * before.drawn) as u128)
                    &&& #[trigger] is_stream(after.streams, task, stream, i)
                    &&& after.streams[i] == (StreamState {
                        drawn: if before.drawn == u64::MAX {
                            0
                        } else {
                            (before.drawn + 1) as u64
                        },
                        ..before
                    })
                }
            &&& after.streams.len() == s.streams.len() + if known {
                0int
            } else {
                1int
            }
            &&& deeds(after.log) == if known {
                deeds(s.log).push(record)
            } else {
                deeds(s.log).push(
                    Ask::StreamSeed { label: "app/"@ + decimal(stream as nat) },
                ).push(record)
            }
        }),
{
    let task = s.actor.0 as usize;
    let (word, after) = drawn(s, stream, script);
    let (k, s1) = seeded(s, stream, script);
    lemma_slot_names_stream(s.streams, task, stream);
    lemma_slot_finds_stream(s.streams, task, stream);
    law_words_are_eight_bytes(word);
    let before = s1.streams[k];
    if stream_slot(s.streams, task, stream) is Some {
        assert(is_stream(s.streams, task, stream, k));
    } else {
        assert forall|i: int| !#[trigger] is_stream(s.streams, task, stream, i) by {}
    }
    assert(holds(s, stream, script, before));
    assert(is_stream(after.streams, task, stream, k));
}

/// The stream of the actor as it stands before a draw: seeded by the answer of
/// the world where it is new.
pub open spec fn holds(
    s: BackendState,
    stream: u32,
    script: Seq<Reply>,
    found: StreamState,
) -> bool {
    let task = s.actor.0 as usize;
    if exists|i: int| #[trigger] is_stream(s.streams, task, stream, i) {
        exists|i: int| #[trigger] is_stream(s.streams, task, stream, i) && found == s.streams[i]
    } else {
        found == (StreamState { task, stream, seed: answer(s, script, 0)->Seed_0, drawn: 0 })
    }
}

/// A new backend has an empty network without windows, partitions or links, no
/// streams, no origins, no failure, and nobody who listens for the time.
pub proof fn law_backend_starts_afresh(actor: ActorId, past: Seq<(Ask, Reply)>)
    ensures
        ({
            let s = fresh_backend(actor, past);
            &&& s.log == past && s.actor == actor
            &&& s.net.queue.len() == 0 && s.net.window == 0
            &&& forall|link: (usize, usize)| !#[trigger] s.net.partitions.contains(link)
            &&& forall|link: (usize, usize)| !#[trigger] s.net.links.dom().contains(link)
            &&& s.streams.len() == 0 && s.origins.len() == 0
            &&& s.journal_error is None && s.tick_sink is None
            &&& !s.reorder_draw && s.net_offset == 0
        }),
{
}

} // verus!
