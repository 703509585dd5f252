//! What a novelty-seeking scheduler hears of entries that no task appends
//! itself.

use crate::deeds::{lemma_signature, signs};
use crate::host::{extends, Ask, Reply, TimerFired};
use crate::ids::{ActorId, EntryHash};
use crate::journal::{EntryKind, JournalError};
use crate::model::{
    appended, clock_signature, counted, flushed, notified, told, value_read, value_written, World,
};
use crate::schedule::{one_fired, one_woken, wake_draft};
use vstd::prelude::*;

verus! {

/// From a place on, the log asks whether the scheduler wants to hear of an
/// entry, and tells it actor, kind, task and signature if it does. Of an entry
/// that is not known it hears no signature.
pub open spec fn heard(
    log: Seq<(Ask, Reply)>,
    from: int,
    task: usize,
    kind: EntryKind,
    id: Option<EntryHash>,
) -> bool {
    let actor = ActorId(task as u32);
    &&& log.len() > from && log[from].0 is NoveltyActive
    &&& if !(log[from].1->Flag_0) {
        log.len() == from + 1
    } else {
        match id {
            Some(entry) => {
                &&& log.len() == from + 3
                &&& log[from + 1].0 == (Ask::EntryClock { id: entry })
                &&& exists|signature: Option<u64>|
                    log[from + 2].0 == (Ask::EntryEmitted { actor, kind, task, signature })
                        && #[trigger] signs(log[from + 1].1->Bytes_0, signature)
            },
            None => {
                &&& log.len() == from + 2
                &&& log[from + 1].0 == (Ask::EntryEmitted { actor, kind, task, signature: None })
            },
        }
    }
}

proof fn lemma_heard(
    w: World,
    task: usize,
    kind: EntryKind,
    id: Option<EntryHash>,
    script: Seq<Reply>,
)
    ensures
        heard(
            notified(w, ActorId(task as u32), kind, task, id, script).log,
            w.log.len() as int,
            task,
            kind,
            id,
        ),
        extends(notified(w, ActorId(task as u32), kind, task, id, script).log, w.log),
{
    let n = w.log.len() as int;
    let after = notified(w, ActorId(task as u32), kind, task, id, script);
    if let Some(entry) = id {
        let bytes = script[n + 1]->Bytes_0;
        let signature = match bytes {
            Some(clock) => Some(clock_signature(clock)),
            None => None,
        };
        if let Some(clock) = bytes {
            lemma_signature(clock);
        }
        assert(signs(bytes, signature));
        if script[n]->Flag_0 {
            assert(after.log[n + 1].1 == script[n + 1]);
            assert(signs(after.log[n + 1].1->Bytes_0, signature));
        }
    }
    assert(after.log.take(n) =~= w.log);
}

/// The scheduler hears of what storage journaled: of a read under the head of
/// the actor's entries, of a flush and of a write under their own entries.
pub proof fn law_scheduler_hears_of_storage(
    w: World,
    task: usize,
    path: Seq<char>,
    value: u64,
    script: Seq<Reply>,
)
    ensures
        ({
            let n = w.log.len() as int;
            let (found, read) = value_read(w, task, path, script);
            let (flush, synced) = flushed(w, task, script);
            let (wrote, written) = value_written(w, task, path, value, script);
            &&& found is Ok ==> heard(
                read.log,
                n + 2,
                task,
                EntryKind::FsRead,
                script[n + 1]->Head_0,
            )
            &&& flush is Ok ==> heard(
                synced.log,
                n + 1,
                task,
                EntryKind::FsFsync,
                Some(flush->Ok_0),
            )
            &&& wrote is Ok && w.fault_schedule.len() == 0 && w.swarm.crash_probability@ == 0
                ==> heard(written.log, n + 1, task, EntryKind::FsWrite, Some(wrote->Ok_0))
        }),
{
    let n = w.log.len() as int;
    let actor = ActorId(task as u32);
    if let Ok(_) = script[n]->Value_0 {
        let w1 = told(w, Ask::FsRead { actor, path }, script).1;
        let w2 = told(counted(w1, actor), Ask::HeadForActor { actor }, script).1;
        lemma_heard(w2, task, EntryKind::FsRead, script[n + 1]->Head_0, script);
    }
    if let Ok(id) = script[n]->Appended_0 {
        let w1 = told(w, Ask::FsFsync { actor }, script).1;
        lemma_heard(counted(w1, actor), task, EntryKind::FsFsync, Some(id), script);
        let w2 = told(w, Ask::FsWrite { actor, path, value }, script).1;
        lemma_heard(counted(w2, actor), task, EntryKind::FsWrite, Some(id), script);
    }
}

/// The scheduler hears of the wake-up of a task that has mail, and of a fired
/// timer first the firing and then the wake-up.
pub proof fn law_scheduler_hears_of_wakes(
    w: World,
    task: usize,
    now: u64,
    timer: TimerFired,
    fire: EntryHash,
    wake: EntryHash,
    script: Seq<Reply>,
)
    ensures
        ({
            let n = w.log.len() as int;
            let (answer, woken) = one_woken(w, task, now, script);
            let fired = one_fired(w, timer, fire, wake, script);
            &&& answer is Ok ==> exists|id: EntryHash|
                script[n]->Appended_0 == Ok::<EntryHash, JournalError>(id) && #[trigger] heard(
                    woken.log,
                    n + 1,
                    task,
                    EntryKind::Wake,
                    Some(id),
                )
            &&& exists|m: int|
                n <= m <= fired.log.len() && #[trigger] heard(
                    fired.log.take(m),
                    n,
                    timer.task,
                    EntryKind::TimerFire,
                    Some(fire),
                ) && heard(fired.log, m, timer.task, EntryKind::Wake, Some(wake))
        }),
{
    let n = w.log.len() as int;
    let (answer, w1) = appended(w, wake_draft(w.net, task, now), script);
    if let Ok(id) = answer {
        lemma_heard(w1, task, EntryKind::Wake, Some(id), script);
        let woken = one_woken(w, task, now, script).1;
        assert(heard(woken.log, n + 1, task, EntryKind::Wake, Some(id)));
    }
    let actor = ActorId(timer.task as u32);
    let w2 = notified(w, actor, EntryKind::TimerFire, timer.task, Some(fire), script);
    lemma_heard(w, timer.task, EntryKind::TimerFire, Some(fire), script);
    lemma_heard(w2, timer.task, EntryKind::Wake, Some(wake), script);
    let fired = one_fired(w, timer, fire, wake, script);
    let m = w2.log.len() as int;
    assert(fired.log.take(m) =~= w2.log);
    assert(heard(fired.log, m, timer.task, EntryKind::Wake, Some(wake)));
    assert(heard(fired.log.take(m), n, timer.task, EntryKind::TimerFire, Some(fire)));
}

} // verus!
