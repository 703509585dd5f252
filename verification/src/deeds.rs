//! What the questions of a log do: the log without what only a novelty-seeking
//! scheduler hears.

use crate::bytes::{le, le_value};
use crate::config::Crash;
use crate::digest::blake3_digest;
use crate::host::{Ask, Reply};
use crate::ids::{ActorId, EntryHash, MessageId};
use crate::journal::{kind_of, Draft, EntryKind, FaultModel, JournalError, Payload};
use crate::model::{clock_signature, kept, task_appended, World};
use vstd::prelude::*;

verus! {

/// The question serves a novelty-seeking scheduler and nothing else.
pub open spec fn aside(ask: Ask) -> bool {
    ask is NoveltyActive || ask is EntryClock || ask is EntryEmitted
}

/// The questions of a log, in order, without asides.
pub open spec fn deeds(log: Seq<(Ask, Reply)>) -> Seq<Ask>
    decreases log.len(),
{
    if log.len() == 0 {
        Seq::empty()
    } else if aside(log.last().0) {
        deeds(log.drop_last())
    } else {
        deeds(log.drop_last()).push(log.last().0)
    }
}

/// One more question.
pub broadcast proof fn lemma_deeds(log: Seq<(Ask, Reply)>, event: (Ask, Reply))
    ensures
        #[trigger] deeds(log.push(event)) == if aside(event.0) {
            deeds(log)
        } else {
            deeds(log).push(event.0)
        },
{
    assert(log.push(event).drop_last() =~= log);
}

/// The question moves virtual time.
pub open spec fn moves_time(ask: Ask) -> bool {
    ask is AdvanceTo || ask is AdvanceToFiring || ask is AdvanceFiring
}

/// The questions of a log that move virtual time, in order.
pub open spec fn moves(log: Seq<(Ask, Reply)>) -> Seq<Ask>
    decreases log.len(),
{
    if log.len() == 0 {
        Seq::empty()
    } else if moves_time(log.last().0) {
        moves(log.drop_last()).push(log.last().0)
    } else {
        moves(log.drop_last())
    }
}

/// One more question.
pub broadcast proof fn lemma_moves(log: Seq<(Ask, Reply)>, event: (Ask, Reply))
    ensures
        #[trigger] moves(log.push(event)) == if moves_time(event.0) {
            moves(log).push(event.0)
        } else {
            moves(log)
        },
{
    assert(log.push(event).drop_last() =~= log);
}

/// The question that appends an entry of a task, on its own.
pub open spec fn entry(task: usize, parents: Seq<EntryHash>, payload: Payload) -> Ask {
    Ask::Append {
        record: Draft { actor: ActorId(task as u32), parents, chained: false, payload },
    }
}

/// The entry of a message that was dropped.
pub open spec fn drop_entry(task: usize, send_id: EntryHash, message_id: MessageId) -> Ask {
    entry(task, seq![send_id], Payload::Fault(FaultModel::DropMessage { message_id }))
}

/// The entry of a crash of the task's storage.
pub open spec fn crash_entry(task: usize, crash_operation: Crash) -> Ask {
    entry(
        task,
        Seq::empty(),
        Payload::Fault(
            FaultModel::CrashActor { actor: ActorId(task as u32), crash_operation },
        ),
    )
}

/// The eight bytes of a word, least significant first.
pub open spec fn eight(v: u64) -> Seq<u8> {
    seq![
        (v % 0x100) as u8,
        (v / 0x100 % 0x100) as u8,
        (v / 0x1_0000 % 0x100) as u8,
        (v / 0x100_0000 % 0x100) as u8,
        (v / 0x1_0000_0000 % 0x100) as u8,
        (v / 0x100_0000_0000 % 0x100) as u8,
        (v / 0x1_0000_0000_0000 % 0x100) as u8,
        (v / 0x100_0000_0000_0000) as u8,
    ]
}

/// Words are stored as their eight bytes, least significant first.
pub proof fn law_words_are_eight_bytes(v: u64)
    ensures
        le(v as nat, 8) == eight(v),
{
    reveal_with_fuel(le, 9);
    let n = v as nat;
    assert(n / 256 / 256 == n / 0x1_0000);
    assert(n / 0x1_0000 / 256 == n / 0x100_0000);
    assert(n / 0x100_0000 / 256 == n / 0x1_0000_0000);
    assert(n / 0x1_0000_0000 / 256 == n / 0x100_0000_0000);
    assert(n / 0x100_0000_0000 / 256 == n / 0x1_0000_0000_0000);
    assert(n / 0x1_0000_0000_0000 / 256 == n / 0x100_0000_0000_0000);
    assert(n / 0x100_0000_0000_0000 < 256);
    assert(le(n, 8) =~= eight(v));
}

/// Nothing but the log, the entry counts and the recorded failure differs.
pub open spec fn only_journaled(before: World, after: World) -> bool {
    after == (World {
        log: after.log,
        coverage: after.coverage,
        journal_error: after.journal_error,
        ..before
    })
}

/// The failure that is on record: the first one stays.
pub open spec fn on_record(
    before: Option<JournalError>,
    answer: Result<EntryHash, JournalError>,
) -> Option<JournalError> {
    match (before, answer) {
        (Some(first), _) => Some(first),
        (None, Err(e)) => Some(e),
        (None, Ok(_)) => None,
    }
}

/// The entry of a successful append.
pub open spec fn granted(answer: Result<EntryHash, JournalError>) -> Option<EntryHash> {
    match answer {
        Ok(id) => Some(id),
        Err(_) => None,
    }
}

/// An operation of a task that journals one entry asks for that entry first and
/// does nothing else beside telling the scheduler. The answer is the journal's.
pub proof fn law_one_entry_is_appended(
    w: World,
    task: usize,
    parents: Seq<EntryHash>,
    payload: Payload,
    script: Seq<Reply>,
)
    ensures
        ({
            let reply = script[w.log.len() as int]->Appended_0;
            let (answer, after) = task_appended(w, task, parents, payload, script);
            &&& answer == reply
            &&& after.log[w.log.len() as int].0 == entry(task, parents, payload)
            &&& deeds(after.log) == deeds(w.log).push(entry(task, parents, payload))
            &&& only_journaled(w, after) && after.journal_error == w.journal_error
        }),
        ({
            let reply = script[w.log.len() as int]->Appended_0;
            let (id, after) = kept(w, task, parents, payload, script);
            &&& id == granted(reply)
            &&& after.log[w.log.len() as int].0 == entry(task, parents, payload)
            &&& deeds(after.log) == deeds(w.log).push(entry(task, parents, payload))
            &&& only_journaled(w, after)
            &&& after.journal_error == on_record(w.journal_error, reply)
        }),
{
    broadcast use lemma_deeds;

}

/// After an entry of a task the scheduler is asked whether it wants to hear of
/// it. If it does, it hears the actor, the kind and the task of the entry, and
/// the first eight digest bytes of the entry's clock, least significant first,
/// if the journal has the clock.
pub proof fn law_scheduler_hears_of_entries(
    w: World,
    task: usize,
    parents: Seq<EntryHash>,
    payload: Payload,
    id: EntryHash,
    script: Seq<Reply>,
)
    requires
        script[w.log.len() as int]->Appended_0 == Ok::<EntryHash, JournalError>(id),
    ensures
        ({
            let n = w.log.len() as int;
            let log = task_appended(w, task, parents, payload, script).1.log;
            &&& log[n + 1].0 is NoveltyActive
            &&& !(script[n + 1]->Flag_0) ==> log.len() == n + 2
            &&& script[n + 1]->Flag_0 ==> {
                &&& log.len() == n + 4
                &&& log[n + 2].0 == (Ask::EntryClock { id })
                &&& exists|signature: Option<u64>|
                    log[n + 3].0 == (Ask::EntryEmitted {
                        actor: ActorId(task as u32),
                        kind: kind_of(payload),
                        task,
                        signature,
                    }) && #[trigger] signs(script[n + 2]->Bytes_0, signature)
            }
        }),
{
    let n = w.log.len() as int;
    let bytes = script[n + 2]->Bytes_0;
    let signature = match bytes {
        Some(clock) => Some(clock_signature(clock)),
        None => None,
    };
    if let Some(clock) = bytes {
        lemma_signature(clock);
    }
    assert(signs(bytes, signature));
}

/// The signature of a clock: its first eight digest bytes as a number.
pub open spec fn signs(clock: Option<Seq<u8>>, signature: Option<u64>) -> bool {
    match (clock, signature) {
        (None, None) => true,
        (Some(bytes), Some(word)) => {
            let d = blake3_digest(bytes);
            d.len() == 32 ==> word == d[0] + 0x100 * d[1] + 0x1_0000 * d[2] + 0x100_0000 * d[3]
                + 0x1_0000_0000 * d[4] + 0x100_0000_0000 * d[5] + 0x1_0000_0000_0000 * d[6] + 0x100_0000_0000_0000 * d[7]
        },
        _ => false,
    }
}

pub(crate) proof fn lemma_signature(clock: Seq<u8>)
    ensures
        signs(Some(clock), Some(clock_signature(clock))),
{
    let d = blake3_digest(clock);
    let t = d.take(8);
    reveal_with_fuel(le_value, 9);
    if d.len() == 32 {
        assert(t[0] == d[0] && t.drop_first()[0] == d[1]);
        assert(t.drop_first().drop_first()[0] == d[2]);
        assert(t.drop_first().drop_first().drop_first()[0] == d[3]);
        assert(t.drop_first().drop_first().drop_first().drop_first()[0] == d[4]);
        assert(t.drop_first().drop_first().drop_first().drop_first().drop_first()[0] == d[5]);
        assert(t.drop_first().drop_first().drop_first().drop_first().drop_first().drop_first()[0]
            == d[6]);
        assert(
        t.drop_first().drop_first().drop_first().drop_first().drop_first().drop_first().drop_first()[0]
            == d[7]);
    }
}

/// The kind of an entry tells what it holds.
pub proof fn law_kinds_name_their_payloads(payload: Payload)
    ensures
        kind_of(payload) == EntryKind::Spawn <==> payload is Spawn,
        kind_of(payload) == EntryKind::RngDraw <==> payload is RngDraw,
        kind_of(payload) == EntryKind::Send <==> payload is Send,
        kind_of(payload) == EntryKind::Recv <==> payload is Recv,
        kind_of(payload) == EntryKind::Block <==> payload is Block,
        kind_of(payload) == EntryKind::Wake <==> payload is Wake,
        kind_of(payload) == EntryKind::TimerSet <==> payload is TimerSet,
        kind_of(payload) == EntryKind::TimerFire <==> payload is TimerFire,
        kind_of(payload) == EntryKind::ClockRead <==> payload is ClockRead,
        kind_of(payload) == EntryKind::InputStep <==> payload is InputStep,
        kind_of(payload) == EntryKind::Assert <==> payload is Assert,
        kind_of(payload) == EntryKind::Outcome <==> payload is Outcome,
        kind_of(payload) == EntryKind::Fault <==> payload is Fault,
{
}

} // verus!
