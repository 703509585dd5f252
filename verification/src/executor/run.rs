//! The run of an executor: wake, advance, choose, poll, report.

use crate::bytes::u64_le;
use crate::executor::{lemma_told, task_actor, ExecutorShared};
use crate::host::{extends, follows, hash_views, Ask, Host, ReplayViolation, Reply, TimerFired};
use crate::ids::{ActorId, EntryHash, MessageId, StreamId};
use crate::journal::{drafts, Draft, EntryKind, EntryPayload, JournalError, Record, WakePayload};
use crate::model::{appended, counted, same_tasks, told, BlockedOn, TaskEntry, World};
use crate::runtime::{HaltReason, OnlineAction, RunOutcome, SCHED_ACTOR, SCHED_STREAM};
use crate::schedule::{
    all_done, all_fired, all_woken, at_most_one, batch_appended, batch_counted, choice_draft,
    delivery_awaited, failed, fired_drafts, in_range, one_fired, one_woken, paired, poll_noted,
    prefix_shown, quiesced, roots_journaled, spawn_draft, step_begun, step_ended, stray,
    swapped_out, task_chosen, timer_batch, timers_fired, timers_journaled, turn_taken, wake_draft,
    wake_list, woken, work_found, RuntimeError, Turn,
};
use vstd::prelude::*;

verus! {

broadcast use {crate::host::lemma_extends, crate::host::lemma_follows};

/// A failure in the middle of a list is the failure of the whole list.
proof fn lemma_wake_error(
    w: World,
    list: Seq<usize>,
    n: int,
    now: u64,
    script: Seq<Reply>,
)
    requires
        0 <= n <= list.len(),
        all_woken(w, list.take(n), now, script).0 is Err,
    ensures
        all_woken(w, list, now, script) == all_woken(w, list.take(n), now, script),
    decreases list.len() - n,
{
    if n == list.len() {
        assert(list.take(n) =~= list);
    } else {
        assert(list.take(n + 1).drop_last() =~= list.take(n));
        lemma_wake_error(w, list, n + 1, now, script);
    }
}

/// A list of at most one hash.
fn optional(id: Option<EntryHash>) -> (list: Vec<EntryHash>)
    ensures
        list@ == at_most_one(id),
{
    let mut list: Vec<EntryHash> = Vec::new();
    if let Some(h) = id {
        list.push(h);
        assert(list@ =~= seq![h]);
    }
    list
}

impl<H: Host> ExecutorShared<H> {
    /// Journal a `Spawn` entry for every task before the first scheduling step.
    pub(crate) fn journal_spawns(&mut self) -> (answer: Result<(), RuntimeError>)
        ensures
            extends(final(self)@.log, old(self)@.log),
            same_tasks(old(self)@, final(self)@),
            forall|script: Seq<Reply>|
                follows(script, final(self)@.log) ==> #[trigger] roots_journaled(
                    old(self)@,
                    old(self)@.tasks.len(),
                    script,
                ) == (answer, final(self)@),
    {
        let count: usize = self.tasks.len();
        let mut i: usize = 0;
        while i < count
            invariant
                i <= count,
                count == old(self)@.tasks.len(),
                extends(self@.log, old(self)@.log),
                same_tasks(old(self)@, self@),
                forall|script: Seq<Reply>|
                    follows(script, self@.log) ==> #[trigger] roots_journaled(
                        old(self)@,
                        i as nat,
                        script,
                    ) == (Ok::<(), RuntimeError>(()), self@),
            decreases count - i,
        {
            let actor: ActorId = task_actor(i);
            let record = Record {
                actor,
                parents: Vec::new(),
                chained: false,
                payload: EntryPayload::Spawn { child_actor: actor },
            };
            assert(record@ == spawn_draft(i));
            let ghost before = self@;
            let answer: Result<EntryHash, JournalError> = self.journal_append(&record);
            proof {
                assert forall|script: Seq<Reply>|
                    follows(script, self@.log) implies #[trigger] roots_journaled(
                    old(self)@,
                    (i + 1) as nat,
                    script,
                ) == (match answer {
                    Ok(_) => Ok::<(), RuntimeError>(()),
                    Err(e) => failed(e),
                }, self@) by {
                    assert(roots_journaled(old(self)@, i as nat, script) == (
                        Ok::<(), RuntimeError>(()),
                        before,
                    ));
                    assert(appended(before, spawn_draft(i), script) == (answer, self@));
                }
            }
            if let Err(e) = answer {
                proof {
                    assert forall|script: Seq<Reply>|
                        follows(script, self@.log) implies #[trigger] roots_journaled(
                        old(self)@,
                        count as nat,
                        script,
                    ) == (failed::<()>(e), self@) by {
                        lemma_root_error(old(self)@, (i + 1) as nat, count as nat, script);
                    }
                }
                return Err(RuntimeError::Journal(e));
            }
            i = i + 1;
        }
        Ok(())
    }

    /// Tasks that wait for a message and have one ready.
    fn to_wake(&self, now: u64) -> (list: Vec<usize>)
        ensures
            list@ == wake_list(self@.tasks, self@.net, now),
            forall|k: int| 0 <= k < list@.len() ==> (#[trigger] list@[k]) < self@.tasks.len(),
    {
        let ghost tasks = self@.tasks;
        let mut list: Vec<usize> = Vec::new();
        let mut i: usize = 0;
        assert(tasks.take(0) =~= Seq::<TaskEntry>::empty());
        while i < self.tasks.len()
            invariant
                i <= tasks.len(),
                tasks == self.tasks@,
                tasks == self@.tasks,
                list@ == wake_list(tasks.take(i as int), self@.net, now),
                forall|k: int| 0 <= k < list@.len() ==> (#[trigger] list@[k]) < i,
            decreases tasks.len() - i,
        {
            assert(tasks.take(i + 1).drop_last() =~= tasks.take(i as int));
            assert(tasks.take(i + 1).last() == tasks[i as int]);
            let waits: bool = match self.tasks[i].blocked_on {
                Some(BlockedOn::Message) => true,
                _ => false,
            };
            if waits && self.net.has_ready_message(i, now) {
                list.push(i);
            }
            i = i + 1;
        }
        assert(tasks.take(i as int) =~= tasks);
        list
    }

    /// Wake one task for a message.
    fn wake_one(&mut self, task: usize, now: u64) -> (answer: Result<(), RuntimeError>)
        requires
            task < old(self)@.tasks.len(),
            in_range(old(self)@),
        ensures
            extends(final(self)@.log, old(self)@.log),
            in_range(final(self)@),
            final(self)@.tasks.len() == old(self)@.tasks.len(),
            forall|script: Seq<Reply>|
                follows(script, final(self)@.log) ==> #[trigger] one_woken(
                    old(self)@,
                    task,
                    now,
                    script,
                ) == (answer, final(self)@),
    {
        let actor: ActorId = task_actor(task);
        let parents: Vec<EntryHash> = optional(self.net.peek_ready_send_id(task, now));
        let message_id: MessageId = MessageId::new(actor, 0);
        let record = Record {
            actor,
            parents,
            chained: false,
            payload: EntryPayload::Wake(WakePayload::MessageReady { message_id }),
        };
        assert(record@ == wake_draft(old(self)@.net, task, now));
        let id: EntryHash = match self.journal_append(&record) {
            Ok(id) => id,
            Err(e) => return Err(RuntimeError::Journal(e)),
        };
        self.notify_entry(actor, EntryKind::Wake, task, Some(id));
        let entry: TaskEntry = self.tasks[task];
        self.tasks.set(task, TaskEntry { blocked_on: None, ..entry });
        self.ready.push(task);
        Ok(())
    }

    /// Wake tasks parked on a message that became deliverable at the current time.
    fn wake_blocked_with_messages(&mut self) -> (answer: Result<(), RuntimeError>)
        requires
            in_range(old(self)@),
        ensures
            extends(final(self)@.log, old(self)@.log),
            in_range(final(self)@),
            final(self)@.tasks.len() == old(self)@.tasks.len(),
            forall|script: Seq<Reply>|
                follows(script, final(self)@.log) ==> #[trigger] woken(old(self)@, script) == (
                    answer,
                    final(self)@,
                ),
    {
        let now: u64 = self.time();
        let ghost start = self@;
        let list: Vec<usize> = self.to_wake(now);
        let mut i: usize = 0;
        assert(list@.take(0) =~= Seq::<usize>::empty());
        while i < list.len()
            invariant
                i <= list@.len(),
                list@ == wake_list(start.tasks, start.net, now),
                start.tasks.len() == old(self)@.tasks.len(),
                self@.tasks.len() == start.tasks.len(),
                extends(start.log, old(self)@.log),
                extends(self@.log, start.log),
                in_range(self@),
                forall|k: int| 0 <= k < list@.len() ==> (#[trigger] list@[k]) < start.tasks.len(),
                forall|script: Seq<Reply>|
                    follows(script, start.log) ==> #[trigger] told(old(self)@, Ask::Now, script)
                        == (Reply::Ticks(now), start),
                forall|script: Seq<Reply>|
                    follows(script, self@.log) ==> #[trigger] all_woken(
                        start,
                        list@.take(i as int),
                        now,
                        script,
                    ) == (Ok::<(), RuntimeError>(()), self@),
            decreases list@.len() - i,
        {
            assert(list@.take(i + 1).drop_last() =~= list@.take(i as int));
            assert(list@.take(i + 1).last() == list@[i as int]);
            let ghost before = self@;
            let answer: Result<(), RuntimeError> = self.wake_one(list[i], now);
            proof {
                assert forall|script: Seq<Reply>|
                    follows(script, self@.log) implies #[trigger] all_woken(
                    start,
                    list@.take(i + 1),
                    now,
                    script,
                ) == (answer, self@) by {
                    assert(all_woken(start, list@.take(i as int), now, script) == (
                        Ok::<(), RuntimeError>(()),
                        before,
                    ));
                    assert(one_woken(before, list@[i as int], now, script) == (answer, self@));
                }
            }
            if answer.is_err() {
                proof {
                    assert forall|script: Seq<Reply>|
                        follows(script, self@.log) implies #[trigger] woken(old(self)@, script) == (
                        answer,
                        self@,
                    ) by {
                        assert(all_woken(start, list@.take(i + 1), now, script) == (answer, self@));
                        lemma_wake_error(start, list@, i + 1, now, script);
                    }
                }
                return answer;
            }
            i = i + 1;
        }
        assert(list@.take(i as int) =~= list@);
        Ok(())
    }
}

proof fn lemma_batch_counted(w: World, batch: Seq<Draft>, n: int)
    requires
        0 <= n < batch.len(),
    ensures
        batch_counted(w, batch.take(n + 1)) == counted(
            batch_counted(w, batch.take(n)),
            batch[n].actor,
        ),
{
    assert(batch.take(n + 1).drop_last() =~= batch.take(n));
    assert(batch.take(n + 1).last() == batch[n]);
}

impl<H: Host> ExecutorShared<H> {
    /// Append a group of entries in order and count each against its actor's
    /// coverage.
    ///
    /// Coverage counts only land on full success, matching the all-or-nothing
    /// use of a run that hits an append error.
    pub fn journal_append_batch(&mut self, batch: &Vec<Record>) -> (answer: Result<
        Vec<EntryHash>,
        JournalError,
    >)
        ensures
            extends(final(self)@.log, old(self)@.log),
            same_tasks(old(self)@, final(self)@),
            forall|script: Seq<Reply>|
                follows(script, final(self)@.log) ==> #[trigger] batch_appended(
                    old(self)@,
                    drafts(batch@),
                    script,
                ) == (hash_views(answer), final(self)@),
    {
        let answer: Result<Vec<EntryHash>, JournalError> = self.host.append_batch(batch);
        let ghost entries = drafts(batch@);
        let ghost start = self@;
        proof {
            lemma_told(
                old(self)@,
                Ask::AppendBatch { batch: entries },
                Reply::Batch(hash_views(answer)),
                self@,
            );
        }
        if answer.is_err() {
            return answer;
        }
        let mut i: usize = 0;
        assert(entries.take(0) =~= Seq::<Draft>::empty());
        while i < batch.len()
            invariant
                i <= batch@.len(),
                entries == drafts(batch@),
                self@ == batch_counted(start, entries.take(i as int)),
                same_tasks(start, self@),
                self@.log == start.log,
            decreases batch@.len() - i,
        {
            proof {
                lemma_batch_counted(start, entries, i as int);
                assert(entries[i as int] == batch@[i as int]@);
            }
            self.note_journaled(batch[i].actor);
            i = i + 1;
        }
        assert(entries.take(i as int) =~= entries);
        answer
    }

    /// The entries of fired timers.
    fn fired_batch(fired: &Vec<TimerFired>) -> (batch: Vec<Record>)
        ensures
            drafts(batch@) == timer_batch(fired@),
    {
        let mut batch: Vec<Record> = Vec::new();
        let mut i: usize = 0;
        assert(fired@.take(0) =~= Seq::<TimerFired>::empty());
        assert(drafts(batch@) =~= Seq::<Draft>::empty());
        while i < fired.len()
            invariant
                i <= fired@.len(),
                drafts(batch@) == timer_batch(fired@.take(i as int)),
            decreases fired@.len() - i,
        {
            let timer: TimerFired = fired[i];
            let actor: ActorId = task_actor(timer.task);
            let ghost before = drafts(batch@);
            let fire = Record {
                actor,
                parents: optional(timer.enabler),
                chained: false,
                payload: EntryPayload::TimerFire { timer_id: 0, deadline_ticks: 0 },
            };
            let wake = Record {
                actor,
                parents: Vec::new(),
                chained: true,
                payload: EntryPayload::Wake(WakePayload::TimerReady { timer_id: 0 }),
            };
            proof {
                assert(fire@ == fired_drafts(timer)[0]);
                assert(wake@ == fired_drafts(timer)[1]);
                assert(fired@.take(i + 1).drop_last() =~= fired@.take(i as int));
                assert(fired@.take(i + 1).last() == timer);
            }
            batch.push(fire);
            batch.push(wake);
            assert(drafts(batch@) =~= before + fired_drafts(timer));
            i = i + 1;
        }
        assert(fired@.take(i as int) =~= fired@);
        batch
    }

    /// The first fired timer of a task that does not exist.
    fn stray_timer(&self, fired: &Vec<TimerFired>) -> (task: Option<usize>)
        ensures
            task == stray(fired@, self@.tasks.len()),
            task is None ==> forall|k: int|
                0 <= k < fired@.len() ==> (#[trigger] fired@[k]).task < self@.tasks.len(),
    {
        let mut i: usize = 0;
        let ghost tasks = self@.tasks.len();
        assert(fired@.take(0) =~= Seq::<TimerFired>::empty());
        while i < fired.len()
            invariant
                i <= fired@.len(),
                tasks == self.tasks@.len(),
                stray(fired@.take(i as int), tasks) is None,
                forall|k: int| 0 <= k < i ==> (#[trigger] fired@[k]).task < tasks,
            decreases fired@.len() - i,
        {
            assert(fired@.take(i + 1).drop_last() =~= fired@.take(i as int));
            assert(fired@.take(i + 1).last() == fired@[i as int]);
            if fired[i].task >= self.tasks.len() {
                proof {
                    lemma_stray_prefix(fired@, tasks, i + 1);
                }
                return Some(fired[i].task);
            }
            i = i + 1;
        }
        assert(fired@.take(i as int) =~= fired@);
        None
    }

    /// Release the task of a fired timer.
    fn release(&mut self, timer: TimerFired, fire: EntryHash, wake: EntryHash)
        requires
            timer.task < old(self)@.tasks.len(),
            in_range(old(self)@),
        ensures
            extends(final(self)@.log, old(self)@.log),
            in_range(final(self)@),
            final(self)@.tasks.len() == old(self)@.tasks.len(),
            forall|script: Seq<Reply>|
                follows(script, final(self)@.log) ==> #[trigger] one_fired(
                    old(self)@,
                    timer,
                    fire,
                    wake,
                    script,
                ) == final(self)@,
    {
        let actor: ActorId = task_actor(timer.task);
        self.notify_entry(actor, EntryKind::TimerFire, timer.task, Some(fire));
        self.notify_entry(actor, EntryKind::Wake, timer.task, Some(wake));
        let entry: TaskEntry = self.tasks[timer.task];
        self.tasks.set(timer.task, TaskEntry { blocked_on: None, timer_fired: true, ..entry });
        self.ready.push(timer.task);
    }

    /// Journal fired timers as one batch and release their tasks.
    fn journal_timers(&mut self, fired: &Vec<TimerFired>) -> (answer: Result<(), RuntimeError>)
        requires
            in_range(old(self)@),
        ensures
            extends(final(self)@.log, old(self)@.log),
            in_range(final(self)@),
            final(self)@.tasks.len() == old(self)@.tasks.len(),
            forall|script: Seq<Reply>|
                follows(script, final(self)@.log) ==> #[trigger] timers_journaled(
                    old(self)@,
                    fired@,
                    script,
                ) == (answer, final(self)@),
    {
        if let Some(task) = self.stray_timer(fired) {
            return Err(RuntimeError::UnknownTask { task });
        }
        if fired.len() == 0 {
            return Ok(());
        }
        let batch: Vec<Record> = Self::fired_batch(fired);
        let ids: Vec<EntryHash> = match self.journal_append_batch(&batch) {
            Ok(ids) => ids,
            Err(e) => return Err(RuntimeError::Journal(e)),
        };
        let ghost start = self@;
        let count: usize = ids.len();
        let pairs: usize = if count / 2 < fired.len() {
            count / 2
        } else {
            fired.len()
        };
        let mut i: usize = 0;
        while i < pairs
            invariant
                i <= pairs,
                pairs == paired(fired@, ids@),
                count == ids@.len(),
                2 * pairs <= count,
                pairs <= fired@.len(),
                self@.tasks.len() == start.tasks.len(),
                forall|k: int|
                    0 <= k < fired@.len() ==> (#[trigger] fired@[k]).task < start.tasks.len(),
                in_range(self@),
                extends(self@.log, start.log),
                forall|script: Seq<Reply>|
                    follows(script, self@.log) ==> #[trigger] all_fired(
                        start,
                        fired@,
                        ids@,
                        i as nat,
                        script,
                    ) == self@,
            decreases pairs - i,
        {
            let ghost before = self@;
            assert(fired@[i as int].task < start.tasks.len());
            self.release(fired[i], ids[2 * i], ids[2 * i + 1]);
            proof {
                assert forall|script: Seq<Reply>|
                    follows(script, self@.log) implies #[trigger] all_fired(
                    start,
                    fired@,
                    ids@,
                    (i + 1) as nat,
                    script,
                ) == self@ by {
                    assert(all_fired(start, fired@, ids@, i as nat, script) == before);
                    assert(one_fired(
                        before,
                        fired@[i as int],
                        ids@[2 * i],
                        ids@[2 * i + 1],
                        script,
                    ) == self@);
                }
            }
            i = i + 1;
        }
        Ok(())
    }

    /// Move virtual time to the target and fire the timers that are due.
    fn fire_timers(&mut self, target: u64) -> (fired: Vec<TimerFired>)
        ensures
            extends(final(self)@.log, old(self)@.log),
            same_tasks(old(self)@, final(self)@),
            forall|script: Seq<Reply>|
                follows(script, final(self)@.log) ==> #[trigger] timers_fired(
                    old(self)@,
                    target,
                    script,
                ) == (fired@, final(self)@),
    {
        let now: u64 = self.time();
        let ghost before = self@;
        if target > now {
            let fired: Vec<TimerFired> = self.host.advance_to_firing(target);
            proof {
                lemma_told(
                    before,
                    Ask::AdvanceToFiring { time: target },
                    Reply::Fired(fired@),
                    self@,
                );
            }
            fired
        } else {
            let fired: Vec<TimerFired> = self.host.advance_firing();
            proof {
                lemma_told(before, Ask::AdvanceFiring, Reply::Fired(fired@), self@);
            }
            fired
        }
    }

    /// Fire timers at quiescence; a batch journals the same chain as entries
    /// appended one by one.
    fn advance_quiescent(&mut self) -> (answer: Result<(), RuntimeError>)
        requires
            in_range(old(self)@),
        ensures
            extends(final(self)@.log, old(self)@.log),
            in_range(final(self)@),
            final(self)@.tasks.len() == old(self)@.tasks.len(),
            forall|script: Seq<Reply>|
                follows(script, final(self)@.log) ==> #[trigger] quiesced(old(self)@, script) == (
                    answer,
                    final(self)@,
                ),
    {
        let timer_deadline: Option<u64> = self.host.next_deadline();
        proof {
            lemma_told(
                old(self)@,
                Ask::NextDeadline,
                Reply::Deadline(timer_deadline),
                self@,
            );
        }
        let net_deadline: Option<u64> = self.net.earliest_delivery_time();
        let target: u64 = match (timer_deadline, net_deadline) {
            (Some(t), Some(n)) => if t <= n {
                t
            } else {
                n
            },
            (Some(t), None) => t,
            (None, Some(n)) => n,
            (None, None) => return self.wake_blocked_with_messages(),
        };
        let ghost before = self@;
        let fired: Vec<TimerFired> = self.fire_timers(target);
        proof {
            assert(same_tasks(old(self)@, before));
            assert(same_tasks(before, self@));
            assert(in_range(self@));
        }
        let answer: Result<(), RuntimeError> = self.journal_timers(&fired);
        if answer.is_err() {
            return answer;
        }
        self.wake_blocked_with_messages()
    }

    /// Whether every task finished.
    pub(crate) fn all_tasks_done(&self) -> (yes: bool)
        ensures
            yes == all_done(self@.tasks),
    {
        let mut i: usize = 0;
        while i < self.tasks.len()
            invariant
                i <= self.tasks@.len(),
                forall|k: int| 0 <= k < i ==> (#[trigger] self.tasks@[k]).done,
            decreases self.tasks@.len() - i,
        {
            if !self.tasks[i].done {
                assert(!self@.tasks[i as int].done);
                return false;
            }
            i = i + 1;
        }
        true
    }

    /// With nothing ready after quiescence, jump to the earliest delivery.
    fn await_delivery(&mut self) -> (answer: Result<(), RuntimeError>)
        requires
            in_range(old(self)@),
        ensures
            extends(final(self)@.log, old(self)@.log),
            in_range(final(self)@),
            final(self)@.tasks.len() == old(self)@.tasks.len(),
            forall|script: Seq<Reply>|
                follows(script, final(self)@.log) ==> #[trigger] delivery_awaited(
                    old(self)@,
                    script,
                ) == (answer, final(self)@),
    {
        let earliest: u64 = match self.net.earliest_delivery_time() {
            None => return Ok(()),
            Some(time) => time,
        };
        let now: u64 = self.time();
        if earliest <= now {
            return Ok(());
        }
        let ghost before = self@;
        self.host.advance_to(earliest);
        proof {
            lemma_told(before, Ask::AdvanceTo { time: earliest }, Reply::Nothing, self@);
        }
        self.wake_blocked_with_messages()
    }

    /// Find work: the outcome of the run when there is none left.
    fn find_work(&mut self) -> (answer: Result<Option<RunOutcome>, RuntimeError>)
        requires
            in_range(old(self)@),
        ensures
            extends(final(self)@.log, old(self)@.log),
            in_range(final(self)@),
            final(self)@.tasks.len() == old(self)@.tasks.len(),
            answer == Ok::<Option<RunOutcome>, RuntimeError>(None) ==> final(self)@.ready.len() > 0,
            forall|script: Seq<Reply>|
                follows(script, final(self)@.log) ==> #[trigger] work_found(old(self)@, script) == (
                    answer,
                    final(self)@,
                ),
    {
        if let Err(e) = self.wake_blocked_with_messages() {
            return Err(e);
        }
        if self.ready.len() > 0 {
            return Ok(None);
        }
        if let Err(e) = self.advance_quiescent() {
            return Err(e);
        }
        if self.ready.len() > 0 {
            return Ok(None);
        }
        if self.all_tasks_done() {
            return Ok(Some(RunOutcome::Completed));
        }
        if let Err(e) = self.await_delivery() {
            return Err(e);
        }
        if self.ready.len() > 0 {
            return Ok(None);
        }
        Ok(Some(RunOutcome::Blocked))
    }

    /// Journal the scheduling draw that resolved to `choice`.
    fn journal_rng_draw(&mut self, choice: usize) -> (answer: Result<EntryHash, JournalError>)
        ensures
            extends(final(self)@.log, old(self)@.log),
            same_tasks(old(self)@, final(self)@),
            forall|script: Seq<Reply>|
                follows(script, final(self)@.log) ==> #[trigger] appended(
                    old(self)@,
                    choice_draft(choice),
                    script,
                ) == (answer, final(self)@),
    {
        let record = Record {
            actor: ActorId(SCHED_ACTOR),
            parents: Vec::new(),
            chained: false,
            payload: EntryPayload::RngDraw {
                stream: StreamId(SCHED_STREAM),
                draw_index: 0,
                content: u64_le(choice as u64),
            },
        };
        assert(record@ == choice_draft(choice));
        self.journal_append(&record)
    }

    /// Let the scheduler choose a ready task and journal the choice.
    fn choose_task(&mut self, step: usize) -> (answer: Result<usize, RuntimeError>)
        requires
            in_range(old(self)@),
        ensures
            extends(final(self)@.log, old(self)@.log),
            in_range(final(self)@),
            final(self)@.tasks.len() == old(self)@.tasks.len(),
            answer matches Ok(task) ==> task < final(self)@.tasks.len(),
            forall|script: Seq<Reply>|
                follows(script, final(self)@.log) ==> #[trigger] task_chosen(
                    old(self)@,
                    step,
                    script,
                ) == (answer, final(self)@),
    {
        let made: Result<usize, ReplayViolation> = self.host.choose_ready(&self.ready, step);
        proof {
            lemma_told(
                old(self)@,
                Ask::ChooseReady { ready: old(self)@.ready, step },
                Reply::Choice(made),
                self@,
            );
        }
        let choice: usize = match made {
            Ok(choice) => choice,
            Err(violation) => return Err(RuntimeError::StrictReplay(violation)),
        };
        let ready: usize = self.ready.len();
        if choice >= ready {
            return Err(RuntimeError::UnknownChoice { choice, ready });
        }
        if let Err(e) = self.journal_rng_draw(choice) {
            return Err(RuntimeError::Journal(e));
        }
        let ghost list = self.ready@;
        let task: usize = self.ready.swap_remove(choice);
        proof {
            assert(self.ready@ =~= swapped_out(list, choice as int));
            assert forall|k: int| 0 <= k < self@.ready.len() implies (#[trigger] self@.ready[k])
                < self@.tasks.len() by {
                assert(list[k] < self@.tasks.len());
                assert(list[list.len() - 1] < self@.tasks.len());
            }
            assert(list[choice as int] < self@.tasks.len());
        }
        Ok(task)
    }

    /// Decide the next turn of the run.
    pub fn next_turn(&mut self, step: usize) -> (answer: Result<Turn, RuntimeError>)
        requires
            in_range(old(self)@),
        ensures
            extends(final(self)@.log, old(self)@.log),
            in_range(final(self)@),
            final(self)@.tasks.len() == old(self)@.tasks.len(),
            answer matches Ok(Turn::Poll { task, .. }) ==> task < final(self)@.tasks.len(),
            forall|script: Seq<Reply>|
                follows(script, final(self)@.log) ==> #[trigger] turn_taken(
                    old(self)@,
                    step,
                    script,
                ) == (answer, final(self)@),
    {
        proof {
            reveal(turn_taken);
        }
        match self.find_work() {
            Err(e) => Err(e),
            Ok(Some(outcome)) => Ok(Turn::Stop(outcome)),
            Ok(None) => match self.choose_task(step) {
                Err(e) => Err(e),
                Ok(task) => {
                    let entry: TaskEntry = self.tasks[task];
                    Ok(Turn::Poll { task, runnable: !entry.done && entry.blocked_on.is_none() })
                },
            },
        }
    }

    /// Keep the books after a task was polled: a finished task is done, and a
    /// task that neither finished nor parked stays ready.
    pub fn note_poll(&mut self, task: usize, ended: bool)
        requires
            task < old(self)@.tasks.len(),
            in_range(old(self)@),
        ensures
            final(self)@ == poll_noted(old(self)@, task, ended),
            in_range(final(self)@),
    {
        let entry: TaskEntry = self.tasks[task];
        if ended {
            self.tasks.set(task, TaskEntry { done: true, ..entry });
        } else if entry.blocked_on.is_none() && !entry.done {
            self.ready.push(task);
        }
    }

    /// Number of journal entries.
    fn journal_len(&mut self) -> (len: usize)
        ensures
            extends(final(self)@.log, old(self)@.log),
            same_tasks(old(self)@, final(self)@),
            forall|script: Seq<Reply>|
                follows(script, final(self)@.log) ==> #[trigger] told(
                    old(self)@,
                    Ask::JournalLen,
                    script,
                ) == (Reply::Count(len), final(self)@),
    {
        let len: usize = self.host.journal_len();
        proof {
            lemma_told(old(self)@, Ask::JournalLen, Reply::Count(len), self@);
        }
        len
    }

    /// Show the monitor the journal from an entry on.
    fn show_monitor(&mut self, start: usize) -> (halt: Option<HaltReason>)
        ensures
            extends(final(self)@.log, old(self)@.log),
            same_tasks(old(self)@, final(self)@),
            forall|script: Seq<Reply>|
                follows(script, final(self)@.log) ==> {
                    let (reply, after) = #[trigger] told(
                        old(self)@,
                        Ask::MonitorStep { start },
                        script,
                    );
                    &&& after == final(self)@
                    &&& halt == match reply->Action_0 {
                        OnlineAction::Continue => None,
                        OnlineAction::Halt { reason } => Some(reason),
                    }
                },
    {
        let action: OnlineAction = self.host.monitor_step(start);
        proof {
            lemma_told(old(self)@, Ask::MonitorStep { start }, Reply::Action(action), self@);
        }
        match action {
            OnlineAction::Continue => None,
            OnlineAction::Halt { reason } => Some(reason),
        }
    }

    /// Place in the journal at which a step begins, when a monitor wants to
    /// know. The monitor is read-only and consumes no draws.
    pub fn begin_step(&mut self) -> (start: Option<usize>)
        ensures
            extends(final(self)@.log, old(self)@.log),
            same_tasks(old(self)@, final(self)@),
            forall|script: Seq<Reply>|
                follows(script, final(self)@.log) ==> #[trigger] step_begun(old(self)@, script) == (
                    start,
                    final(self)@,
                ),
    {
        let attached: bool = self.host.has_monitor();
        proof {
            lemma_told(old(self)@, Ask::HasMonitor, Reply::Flag(attached), self@);
        }
        if attached {
            Some(self.journal_len())
        } else {
            None
        }
    }

    /// Show the step to the monitor, then tell a tracing scheduler where the
    /// journal stands.
    pub fn end_step(&mut self, start: Option<usize>) -> (halt: Option<HaltReason>)
        ensures
            extends(final(self)@.log, old(self)@.log),
            same_tasks(old(self)@, final(self)@),
            forall|script: Seq<Reply>|
                follows(script, final(self)@.log) ==> #[trigger] step_ended(
                    old(self)@,
                    start,
                    script,
                ) == (halt, final(self)@),
    {
        if let Some(from) = start {
            let halt: Option<HaltReason> = self.show_monitor(from);
            if halt.is_some() {
                return halt;
            }
        }
        let ghost before = self@;
        let active: bool = self.host.trace_active();
        proof {
            lemma_told(before, Ask::TraceActive, Reply::Flag(active), self@);
        }
        if active {
            let journal_len: usize = self.journal_len();
            let ghost mid = self@;
            self.host.note_step(journal_len);
            proof {
                lemma_told(mid, Ask::NoteStep { journal_len }, Reply::Nothing, self@);
            }
        }
        None
    }

    /// Show the root entries to the monitor, if there are any.
    pub(crate) fn show_prefix(&mut self) -> (halt: Option<HaltReason>)
        ensures
            extends(final(self)@.log, old(self)@.log),
            same_tasks(old(self)@, final(self)@),
            forall|script: Seq<Reply>|
                follows(script, final(self)@.log) ==> #[trigger] prefix_shown(
                    old(self)@,
                    script,
                ) == (halt, final(self)@),
    {
        match self.begin_step() {
            None => None,
            Some(len) => if len == 0 {
                None
            } else {
                self.show_monitor(0)
            },
        }
    }
}

proof fn lemma_stray_prefix(fired: Seq<TimerFired>, tasks: nat, n: int)
    requires
        0 <= n <= fired.len(),
        stray(fired.take(n), tasks) is Some,
    ensures
        stray(fired, tasks) == stray(fired.take(n), tasks),
    decreases fired.len() - n,
{
    if n == fired.len() {
        assert(fired.take(n) =~= fired);
    } else {
        assert(fired.take(n + 1).drop_last() =~= fired.take(n));
        lemma_stray_prefix(fired, tasks, n + 1);
    }
}

/// A failure among the first roots is the failure of all.
proof fn lemma_root_error(w: World, n: nat, count: nat, script: Seq<Reply>)
    requires
        n <= count,
        roots_journaled(w, n, script).0 is Err,
    ensures
        roots_journaled(w, count, script) == roots_journaled(w, n, script),
    decreases count - n,
{
    if n < count {
        assert(((n + 1) - 1) as nat == n);
        lemma_root_error(w, n + 1, count, script);
    }
}

} // verus!
