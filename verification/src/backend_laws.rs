//! What holds of every simulation backend.

use crate::backend_sim::{
    accepted, asked, dispatched, drawn, entered, firing_journaled, firings_journaled, fresh_backend,
    seeded, slept, BackendState,
};
use crate::host::{Ask, Reply, TimerFired};
use crate::ids::EntryHash;
use crate::journal::{draft, Draft, Payload, WakePayload};
use crate::net::{first_ready, law_window_zero_is_fifo, Envelope};
use crate::stream::lemma_slot_names_stream;
use vstd::prelude::*;

verus! {

/// A send that could not be journaled is reported as refused and leaves the
/// network alone.
pub proof fn law_unjournaled_send_is_refused(s: BackendState, message: Envelope, script: Seq<Reply>)
    requires
        script[s.log.len() as int]->Appended_0 is Err,
    ensures
        dispatched(s, message, script).0 == (false, None::<EntryHash>),
        dispatched(s, message, script).1.net == s.net,
        dispatched(s, message, script).1.journal_error is Some,
{
}

/// The first journaling failure wins: no later append replaces it.
pub proof fn law_first_failure_is_kept(
    s: BackendState,
    parents: Seq<EntryHash>,
    payload: Payload,
    script: Seq<Reply>,
)
    requires
        s.journal_error is Some,
    ensures
        entered(s, parents, payload, script).1.journal_error == s.journal_error,
{
}

/// A draw from one stream leaves every other stream where it was, so what a
/// stream serves does not depend on how much others were used.
pub proof fn law_backend_streams_are_independent(
    s: BackendState,
    stream: u32,
    script: Seq<Reply>,
    i: int,
)
    requires
        0 <= i < s.streams.len(),
        !(s.streams[i].task == s.actor.0 && s.streams[i].stream == stream),
    ensures
        drawn(s, stream, script).1.streams.len() >= s.streams.len(),
        drawn(s, stream, script).1.streams[i] == s.streams[i],
{
    lemma_slot_names_stream(s.streams, s.actor.0 as usize, stream);
    let (k, s1) = seeded(s, stream, script);
    assert(k != i);
}

/// The questions of a log that append to the journal, as entries.
pub open spec fn journaled_by(log: Seq<(Ask, Reply)>) -> Seq<Draft>
    decreases log.len(),
{
    if log.len() == 0 {
        Seq::empty()
    } else {
        match log.last().0 {
            Ask::Append { record } => journaled_by(log.drop_last()).push(record),
            _ => journaled_by(log.drop_last()),
        }
    }
}

broadcast proof fn lemma_journaled_push(log: Seq<(Ask, Reply)>, ask: Ask, reply: Reply)
    ensures
        #[trigger] journaled_by(log.push((ask, reply))) == match ask {
            Ask::Append { record } => journaled_by(log).push(record),
            _ => journaled_by(log),
        },
{
    assert(log.push((ask, reply)).drop_last() =~= log);
}

/// A sleep whose own timer fires journals one timer chain and nothing else:
/// the armed timer, the fired timer caused by it, and the wake-up caused by
/// that.
pub proof fn law_sleep_journals_one_chain(
    s: BackendState,
    ticks: u64,
    set: EntryHash,
    fire: EntryHash,
    wake: EntryHash,
    script: Seq<Reply>,
)
    requires
        s.tick_sink is None,
        script[s.log.len() as int] == Reply::Appended(Ok(set)),
        script[s.log.len() as int + 2] == Reply::Fired(
            seq![TimerFired { task: s.actor.0 as usize, enabler: Some(set) }],
        ),
        script[s.log.len() as int + 3] == Reply::Appended(Ok(fire)),
        script[s.log.len() as int + 4] == Reply::Appended(Ok(wake)),
    ensures
        journaled_by(slept(s, ticks, script).log) == journaled_by(s.log) + seq![
            draft(s.actor, Seq::empty(), Payload::TimerSet { timer_id: 0, deadline_ticks: ticks }),
            draft(s.actor, seq![set], Payload::TimerFire { timer_id: 0, deadline_ticks: 0 }),
            draft(
                s.actor,
                seq![fire],
                Payload::Wake(WakePayload::TimerReady { timer_id: 0 }),
            ),
        ],
        slept(s, ticks, script).journal_error == s.journal_error,
{
    broadcast use lemma_journaled_push;

    let timer = TimerFired { task: s.actor.0 as usize, enabler: Some(set) };
    let set_payload = Payload::TimerSet { timer_id: 0, deadline_ticks: ticks };
    let (id, s1) = entered(s, Seq::empty(), set_payload, script);
    let s2 = asked(
        s1,
        Ask::SetTimer { ticks, task: s.actor.0 as usize, enabler: id },
        script,
    ).1;
    let (reply, s3) = asked(s2, Ask::AdvanceFiring, script);
    let fired = reply->Fired_0;
    assert(fired.drop_last() =~= Seq::<TimerFired>::empty());
    assert(firings_journaled(s3, fired.drop_last(), script) == s3);
    assert(fired.last() == timer);
    let s4 = firing_journaled(s3, timer, script);
    assert(firings_journaled(s3, fired, script) == s4);
    assert(slept(s, ticks, script) == s4);
    assert(journaled_by(s4.log) =~= journaled_by(s.log) + seq![
        draft(s.actor, Seq::empty(), set_payload),
        draft(s.actor, seq![set], Payload::TimerFire { timer_id: 0, deadline_ticks: 0 }),
        draft(s.actor, seq![fire], Payload::Wake(WakePayload::TimerReady { timer_id: 0 })),
    ]);
}

/// A message that was sent over a plain network and is due is what the next
/// receive of its target takes, with the content that was sent.
pub proof fn law_sent_message_arrives(
    s: BackendState,
    message: Envelope,
    id: EntryHash,
    now: u64,
    script: Seq<Reply>,
)
    requires
        s.net == fresh_backend(s.actor, Seq::empty()).net,
        !s.reorder_draw,
        message.deliver_at <= now,
        script[s.log.len() as int] == Reply::Appended(Ok(id)),
    ensures
        dispatched(s, message, script).0 == (true, Some(id)),
        accepted(dispatched(s, message, script).1, message.to, now, script).0 == Some(
            (Envelope { send_id: id, ..message }),
        ),
{
    let after = dispatched(s, message, script).1;
    let stamped = Envelope { send_id: id, ..message };
    let queue = after.net.queue;
    assert(queue =~= seq![stamped]);
    assert(queue.drop_last() =~= Seq::<Envelope>::empty());
    assert(first_ready(queue.drop_last(), message.to, now) is None);
    assert(first_ready(queue, message.to, now) == Some(0int));
    law_window_zero_is_fifo(after.net, message.to, now, 0);
}

} // verus!
