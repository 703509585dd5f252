//! How a run moves through time and from task to task.

use crate::books::sound;
use crate::deeds::{deeds, eight, entry, law_words_are_eight_bytes, moves, only_journaled};
use crate::host::{extends, Ask, Reply, TimerFired};
use crate::ids::{ActorId, EntryHash, MessageId, StreamId};
use crate::journal::{Draft, Payload, WakePayload};
use crate::model::{told, BlockedOn, TaskEntry, World};
use crate::net::{earliest, first_ready, is_ready, lemma_first_ready, peeked, Envelope};
use crate::net_laws::{awaits, law_earliest_delivery_is_the_first, law_receive_follows_the_window};
use crate::run_laws::{lemma_quiesced, lemma_timers_journaled, lemma_woken};
use crate::runtime::{OnlineAction, RunOutcome};
use crate::schedule::{
    all_fired, all_woken, batch_appended, batch_counted, coverage_of, delivery_awaited, paired,
    poll_noted, quiesced, roots_journaled, run_ended, sooner, step_begun, step_ended, stray,
    task_chosen, timer_batch, timers_fired, timers_journaled, turn_taken, wake_list, woken,
    work_found, RunReport, RuntimeError, Turn,
};
use crate::sentinel::BeltStatus;
use vstd::prelude::*;

verus! {

broadcast use {crate::deeds::lemma_deeds, crate::deeds::lemma_moves};

/// The task waits for a message and one is due for it.
pub open spec fn can_wake(w: World, task: int, now: u64) -> bool {
    &&& 0 <= task < w.tasks.len()
    &&& w.tasks[task].blocked_on == Some(BlockedOn::Message)
    &&& exists|j: int|
        0 <= j < w.net.queue.len() && awaits(#[trigger] w.net.queue[j], task as usize, now)
}

/// The tasks that can wake, lowest first, each once.
pub open spec fn wakers(w: World, now: u64, list: Seq<usize>) -> bool {
    &&& forall|i: int, j: int|
        0 <= i < j < list.len() ==> (#[trigger] list[i]) < (#[trigger] list[j])
    &&& forall|i: int| 0 <= i < list.len() ==> can_wake(w, #[trigger] list[i] as int, now)
    &&& forall|task: int| #[trigger] can_wake(w, task, now) ==> list.contains(task as usize)
}

/// The entry of a task that wakes for a message: caused by the send of the
/// message that it will take.
pub open spec fn wake_entry(w: World, task: usize, now: u64) -> Ask {
    entry(
        task,
        match peeked(w.net, task, now) {
            Some(id) => seq![id],
            None => Seq::empty(),
        },
        Payload::Wake(
            WakePayload::MessageReady {
                message_id: MessageId { actor: ActorId(task as u32), sequence: 0 },
            },
        ),
    )
}

/// The task wakes, and nothing else of it changes.
pub open spec fn awake(entry: TaskEntry) -> TaskEntry {
    TaskEntry {
        blocked_on: None,
        done: entry.done,
        register: entry.register,
        timer_fired: entry.timer_fired,
    }
}

proof fn lemma_all_woken_effect(w: World, list: Seq<usize>, now: u64, script: Seq<Reply>)
    requires
        w.tasks.len() <= usize::MAX,
        forall|i: int| 0 <= i < list.len() ==> (#[trigger] list[i]) < w.tasks.len(),
        forall|i: int, j: int|
            0 <= i < j < list.len() ==> (#[trigger] list[i]) != (#[trigger] list[j]),
    ensures
        ({
            let (answer, after) = all_woken(w, list, now, script);
            &&& moves(after.log) == moves(w.log)
            &&& after.net == w.net && after.tasks.len() == w.tasks.len()
            &&& answer is Ok ==> {
                &&& after.ready == w.ready + list
                &&& deeds(after.log) == deeds(w.log) + list.map_values(
                    |task: usize| wake_entry(w, task, now),
                )
                &&& forall|t: int|
                    0 <= t < w.tasks.len() ==> #[trigger] after.tasks[t] == if list.contains(
                        t as usize,
                    ) {
                        awake(w.tasks[t])
                    } else {
                        w.tasks[t]
                    }
            }
        }),
    decreases list.len(),
{
    let entries = list.map_values(|task: usize| wake_entry(w, task, now));
    if list.len() > 0 {
        let front = list.drop_last();
        assert forall|i: int| 0 <= i < front.len() implies (#[trigger] front[i]) < w.tasks.len() by {
            assert(front[i] == list[i]);
        }
        assert forall|i: int, j: int| 0 <= i < j < front.len() implies (#[trigger] front[i]) != (
        #[trigger] front[j]) by {
            assert(front[i] == list[i] && front[j] == list[j]);
        }
        lemma_all_woken_effect(w, front, now, script);
        let (before, w1) = all_woken(w, front, now, script);
        let task = list.last();
        assert(list[list.len() - 1] == task);
        let after = all_woken(w, list, now, script).1;
        if all_woken(w, list, now, script).0 is Ok {
            assert(after.ready =~= w.ready + list);
            assert(front.map_values(|task: usize| wake_entry(w, task, now)).push(
                wake_entry(w, task, now),
            ) =~= entries);
            assert(deeds(after.log) =~= deeds(w.log) + entries);
            assert forall|t: int| 0 <= t < w.tasks.len() implies #[trigger] after.tasks[t]
                == if list.contains(t as usize) {
                awake(w.tasks[t])
            } else {
                w.tasks[t]
            } by {
                if front.contains(t as usize) {
                    let k = choose|k: int| 0 <= k < front.len() && front[k] == t as usize;
                    assert(list[k] == t as usize);
                }
                if list.contains(t as usize) && t as usize != task {
                    let k = choose|k: int| 0 <= k < list.len() && list[k] == t as usize;
                    assert(front[k] == t as usize);
                }
                if t as usize == task {
                    if front.contains(task) {
                        let k = choose|k: int| 0 <= k < front.len() && front[k] == task;
                        assert(list[k] == task);
                    }
                }
            }
        }
    } else {
        assert(w.ready + list =~= w.ready);
        assert(deeds(w.log) + entries =~= deeds(w.log));
    }
}

proof fn lemma_wake_list(w: World, tasks: Seq<TaskEntry>, now: u64)
    requires
        tasks.len() <= w.tasks.len() <= usize::MAX,
        tasks == w.tasks.take(tasks.len() as int),
    ensures
        ({
            let list = wake_list(tasks, w.net, now);
            &&& forall|i: int, j: int|
                0 <= i < j < list.len() ==> (#[trigger] list[i]) < (#[trigger] list[j])
            &&& forall|i: int|
                0 <= i < list.len() ==> can_wake(w, #[trigger] list[i] as int, now) && list[i]
                    < tasks.len()
            &&& forall|task: int| #[trigger]
                can_wake(w, task, now) && task < tasks.len() ==> list.contains(task as usize)
        }),
    decreases tasks.len(),
{
    let list = wake_list(tasks, w.net, now);
    if tasks.len() > 0 {
        let front = tasks.drop_last();
        assert(front =~= w.tasks.take(front.len() as int));
        lemma_wake_list(w, front, now);
        let before = wake_list(front, w.net, now);
        let last = (tasks.len() - 1) as usize;
        assert(tasks.last() == w.tasks[last as int]);
        law_receive_follows_the_window(w.net, last, now, false, 0);
        lemma_awaited(w.net.queue, last, now);
        assert(can_wake(w, last as int, now) <==> list == before.push(last));
        assert forall|task: int| #[trigger]
            can_wake(w, task, now) && task < tasks.len() implies list.contains(task as usize) by {
            if task < last {
                assert(before.contains(task as usize));
                let k = choose|k: int| 0 <= k < before.len() && before[k] == task as usize;
                assert(list[k] == task as usize);
            } else {
                assert(list[list.len() - 1] == last);
            }
        }
        assert forall|i: int| 0 <= i < list.len() implies can_wake(w, #[trigger] list[i] as int, now)
            && list[i] < tasks.len() by {
            if i < before.len() {
                assert(list[i] == before[i]);
            }
        }
        assert forall|i: int, j: int| 0 <= i < j < list.len() implies (#[trigger] list[i]) < (
        #[trigger] list[j]) by {
            assert(list[i] == before[i]);
            if j < before.len() {
                assert(list[j] == before[j]);
            }
        }
    }
}

/// A message is due for the task exactly when the network finds one.
proof fn lemma_awaited(q: Seq<Envelope>, task: usize, now: u64)
    ensures
        first_ready(q, task, now) is Some <==> exists|j: int|
            0 <= j < q.len() && awaits(#[trigger] q[j], task, now),
{
    lemma_first_ready(q, task, now);
    if let Some(i) = first_ready(q, task, now) {
        assert(awaits(q[i], task, now));
    } else {
        assert forall|j: int| 0 <= j < q.len() implies !awaits(#[trigger] q[j], task, now) by {
            assert(!is_ready(q[j], task, now));
        }
    }
}

/// Waking asks for the time and wakes every task that waits for a message and
/// has one due, lowest first, and no other. Each wake-up is journaled as caused
/// by the send of the message that the task will take; the task joins the end of
/// the line. Time does not move.
pub proof fn law_waking_wakes_who_has_mail(w: World, script: Seq<Reply>)
    requires
        w.tasks.len() <= usize::MAX,
    ensures
        ({
            let now = script[w.log.len() as int]->Ticks_0;
            let (answer, after) = woken(w, script);
            &&& moves(after.log) == moves(w.log)
            &&& after.net == w.net && after.tasks.len() == w.tasks.len()
            &&& answer is Ok ==> exists|list: Seq<usize>|
                {
                    &&& #[trigger] wakers(w, now, list)
                    &&& after.ready == w.ready + list
                    &&& deeds(after.log) == deeds(w.log).push(Ask::Now) + list.map_values(
                        |task: usize| wake_entry(w, task, now),
                    )
                    &&& forall|t: int|
                        0 <= t < w.tasks.len() ==> #[trigger] after.tasks[t] == if can_wake(
                            w,
                            t,
                            now,
                        ) {
                            awake(w.tasks[t])
                        } else {
                            w.tasks[t]
                        }
                }
        }),
{
    let (reply, w1) = told(w, Ask::Now, script);
    let now = reply->Ticks_0;
    let list = wake_list(w.tasks, w.net, now);
    assert(w.tasks =~= w.tasks.take(w.tasks.len() as int));
    lemma_wake_list(w, w.tasks, now);
    assert forall|task: int| #[trigger] can_wake(w, task, now) implies list.contains(
        task as usize,
    ) by {}
    assert(wakers(w, now, list));
    assert forall|i: int| 0 <= i < list.len() implies (#[trigger] list[i]) < w1.tasks.len() by {}
    lemma_all_woken_effect(w1, list, now, script);
    let (answer, after) = woken(w, script);
    assert(list.map_values(|task: usize| wake_entry(w1, task, now)) =~= list.map_values(
        |task: usize| wake_entry(w, task, now),
    ));
    if answer is Ok {
        assert forall|t: int| 0 <= t < w.tasks.len() implies #[trigger] after.tasks[t] == if can_wake(
            w,
            t,
            now,
        ) {
            awake(w.tasks[t])
        } else {
            w.tasks[t]
        } by {
            if list.contains(t as usize) {
                let k = choose|k: int| 0 <= k < list.len() && list[k] == t as usize;
                assert(can_wake(w, list[k] as int, now));
            }
        }
    }
}

/// The time is that of the next event: no later than the next timer and than
/// the delivery of any queued message, and that of one of them.
pub open spec fn next_event(deadline: Option<u64>, q: Seq<Envelope>, time: u64) -> bool {
    &&& deadline matches Some(d) ==> time <= d
    &&& forall|i: int| 0 <= i < q.len() ==> time <= (#[trigger] q[i]).deliver_at
    &&& deadline == Some(time) || exists|i: int|
        0 <= i < q.len() && (#[trigger] q[i]).deliver_at == time
}

proof fn lemma_all_fired_still(
    w: World,
    fired: Seq<TimerFired>,
    ids: Seq<EntryHash>,
    n: nat,
    script: Seq<Reply>,
)
    requires
        n <= fired.len(),
        forall|i: int| 0 <= i < fired.len() ==> (#[trigger] fired[i]).task < w.tasks.len(),
    ensures
        moves(all_fired(w, fired, ids, n, script).log) == moves(w.log),
        deeds(all_fired(w, fired, ids, n, script).log) == deeds(w.log),
        all_fired(w, fired, ids, n, script).net == w.net,
        all_fired(w, fired, ids, n, script).tasks.len() == w.tasks.len(),
    decreases n,
{
    if n > 0 {
        lemma_all_fired_still(w, fired, ids, (n - 1) as nat, script);
        assert(fired[n - 1].task < w.tasks.len());
    }
}

proof fn lemma_timers_journaled_still(w: World, fired: Seq<TimerFired>, script: Seq<Reply>)
    ensures
        moves(timers_journaled(w, fired, script).1.log) == moves(w.log),
        timers_journaled(w, fired, script).1.net == w.net,
        timers_journaled(w, fired, script).1.tasks.len() == w.tasks.len(),
{
    let batch = timer_batch(fired);
    let (answer, w1) = batch_appended(w, batch, script);
    lemma_batch_counted_frame(told(w, Ask::AppendBatch { batch }, script).1, batch);
    lemma_stray(fired, w.tasks.len());
    if stray(fired, w.tasks.len()) is None {
        if let Ok(ids) = answer {
            lemma_all_fired_still(w1, fired, ids, paired(fired, ids), script);
        }
    }
}

proof fn lemma_batch_counted_frame(w: World, batch: Seq<Draft>)
    ensures
        batch_counted(w, batch) == (World { coverage: batch_counted(w, batch).coverage, ..w }),
    decreases batch.len(),
{
    if batch.len() > 0 {
        lemma_batch_counted_frame(w, batch.drop_last());
    }
}

/// At quiescence virtual time moves to the next event and never past one: to the
/// next timer or the next delivery, whichever comes first. It moves once, and
/// not at all when nothing is pending. An event whose time has come fires where
/// time stands.
pub proof fn law_time_moves_to_the_next_event(w: World, script: Seq<Reply>)
    requires
        w.tasks.len() <= usize::MAX,
    ensures
        ({
            let n = w.log.len() as int;
            let deadline = script[n]->Deadline_0;
            let now = script[n + 1]->Ticks_0;
            let q = w.net.queue;
            let after = quiesced(w, script).1;
            &&& after.log[n].0 is NextDeadline
            &&& deadline is None && q.len() == 0 ==> moves(after.log) == moves(w.log)
            &&& deadline is Some || q.len() > 0 ==> exists|time: u64|
                #[trigger] next_event(deadline, q, time) && moves(after.log) == moves(w.log).push(
                    if time > now {
                        Ask::AdvanceToFiring { time }
                    } else {
                        Ask::AdvanceFiring
                    },
                )
            &&& after.net == w.net
        }),
{
    let (reply, w1) = told(w, Ask::NextDeadline, script);
    let q = w.net.queue;
    law_earliest_delivery_is_the_first(q);
    let after = quiesced(w, script).1;
    lemma_quiesced(w, script);
    reveal(sound);
    lemma_quiesced_keeps_the_question(w, script);
    match sooner(reply->Deadline_0, earliest(q)) {
        None => {
            law_waking_wakes_who_has_mail(w1, script);
        },
        Some(time) => {
            if earliest(q) == Some(time) {
                let i = choose|i: int| 0 <= i < q.len() && (#[trigger] q[i]).deliver_at == time;
                assert(q[i].deliver_at == time);
            }
            assert(next_event(reply->Deadline_0, q, time));
            let (fired, w2) = timers_fired(w1, time, script);
            lemma_timers_journaled_still(w2, fired, script);
            let w3 = timers_journaled(w2, fired, script).1;
            law_waking_wakes_who_has_mail(w3, script);
        },
    }
}

proof fn lemma_quiesced_keeps_the_question(w: World, script: Seq<Reply>)
    ensures
        extends(quiesced(w, script).1.log, told(w, Ask::NextDeadline, script).1.log),
{
    let (reply, w1) = told(w, Ask::NextDeadline, script);
    match sooner(reply->Deadline_0, earliest(w1.net.queue)) {
        None => {
            lemma_woken(w1, script);
            reveal(sound);
        },
        Some(target) => {
            let (fired, w2) = timers_fired(w1, target, script);
            let w3 = timers_journaled(w2, fired, script).1;
            lemma_timers_journaled(w2, fired, script);
            lemma_woken(w3, script);
            reveal(sound);
        },
    }
}

/// A run that waits for a delivery moves time to the earliest one, if that is
/// still to come, and not at all otherwise.
pub proof fn law_waiting_moves_to_the_earliest_delivery(w: World, script: Seq<Reply>)
    requires
        w.tasks.len() <= usize::MAX,
    ensures
        ({
            let now = script[w.log.len() as int]->Ticks_0;
            let q = w.net.queue;
            let after = delivery_awaited(w, script).1;
            &&& q.len() == 0 ==> after == w
            &&& q.len() > 0 ==> exists|time: u64|
                #[trigger] next_event(None, q, time) && moves(after.log) == if time > now {
                    moves(w.log).push(Ask::AdvanceTo { time })
                } else {
                    moves(w.log)
                }
        }),
{
    let q = w.net.queue;
    law_earliest_delivery_is_the_first(q);
    if let Some(time) = earliest(q) {
        let i = choose|i: int| 0 <= i < q.len() && (#[trigger] q[i]).deliver_at == time;
        assert(q[i].deliver_at == time);
        assert(next_event(None, q, time));
        let w1 = told(w, Ask::Now, script).1;
        let w2 = told(w1, Ask::AdvanceTo { time }, script).1;
        law_waking_wakes_who_has_mail(w2, script);
    }
}

/// Time stands still as long as a task is ready to run.
pub proof fn law_time_stands_while_tasks_are_ready(w: World, script: Seq<Reply>)
    requires
        w.tasks.len() <= usize::MAX,
        w.ready.len() > 0,
    ensures
        ({
            let (found, after) = work_found(w, script);
            &&& moves(after.log) == moves(w.log)
            &&& found is Ok ==> found == Ok::<Option<RunOutcome>, RuntimeError>(None)
                && after.ready.len() >= w.ready.len()
        }),
{
    law_waking_wakes_who_has_mail(w, script);
}

/// The two entries of a fired timer: the firing, caused by what armed the timer,
/// and the wake-up of its task, caused by the firing.
pub open spec fn firing(timer: TimerFired) -> (Draft, Draft) {
    let actor = ActorId(timer.task as u32);
    (
        Draft {
            actor,
            parents: match timer.enabler {
                Some(id) => seq![id],
                None => Seq::empty(),
            },
            chained: false,
            payload: Payload::TimerFire { timer_id: 0, deadline_ticks: 0 },
        },
        Draft {
            actor,
            parents: Seq::empty(),
            chained: true,
            payload: Payload::Wake(WakePayload::TimerReady { timer_id: 0 }),
        },
    )
}

proof fn lemma_timer_batch(fired: Seq<TimerFired>)
    ensures
        timer_batch(fired).len() == 2 * fired.len(),
        forall|i: int|
            0 <= i < fired.len() ==> timer_batch(fired)[2 * i] == firing(#[trigger] fired[i]).0
                && timer_batch(fired)[2 * i + 1] == firing(fired[i]).1,
    decreases fired.len(),
{
    if fired.len() > 0 {
        let front = fired.drop_last();
        lemma_timer_batch(front);
        let batch = timer_batch(fired);
        assert forall|i: int| 0 <= i < fired.len() implies batch[2 * i] == firing(
            #[trigger] fired[i],
        ).0 && batch[2 * i + 1] == firing(fired[i]).1 by {
            if i < front.len() {
                assert(front[i] == fired[i]);
                assert(timer_batch(front)[2 * i] == firing(front[i]).0);
            }
        }
    }
}

proof fn lemma_stray(fired: Seq<TimerFired>, tasks: nat)
    ensures
        stray(fired, tasks) is None <==> forall|i: int|
            0 <= i < fired.len() ==> (#[trigger] fired[i]).task < tasks,
    decreases fired.len(),
{
    if fired.len() > 0 {
        let front = fired.drop_last();
        lemma_stray(front, tasks);
        assert(fired[fired.len() - 1] == fired.last());
        if stray(fired, tasks) is None {
            assert forall|i: int| 0 <= i < fired.len() implies (#[trigger] fired[i]).task < tasks by {
                if i < front.len() {
                    assert(front[i] == fired[i]);
                }
            }
        }
        if forall|i: int| 0 <= i < fired.len() ==> (#[trigger] fired[i]).task < tasks {
            assert forall|i: int| 0 <= i < front.len() implies (#[trigger] front[i]).task < tasks by {
                assert(front[i] == fired[i]);
            }
        }
    }
}

proof fn lemma_all_fired_effect(
    w: World,
    fired: Seq<TimerFired>,
    ids: Seq<EntryHash>,
    n: nat,
    script: Seq<Reply>,
)
    requires
        n <= fired.len(),
        forall|i: int| 0 <= i < fired.len() ==> (#[trigger] fired[i]).task < w.tasks.len(),
    ensures
        ({
            let after = all_fired(w, fired, ids, n, script);
            &&& after.ready == w.ready + fired.take(n as int).map_values(|t: TimerFired| t.task)
            &&& after.tasks.len() == w.tasks.len()
            &&& forall|t: int|
                0 <= t < w.tasks.len() ==> #[trigger] after.tasks[t] == if exists|i: int|
                    0 <= i < n && (#[trigger] fired[i]).task == t {
                    TaskEntry {
                        blocked_on: None,
                        done: w.tasks[t].done,
                        register: w.tasks[t].register,
                        timer_fired: true,
                    }
                } else {
                    w.tasks[t]
                }
        }),
    decreases n,
{
    let line = fired.take(n as int).map_values(|t: TimerFired| t.task);
    let after = all_fired(w, fired, ids, n, script);
    if n == 0 {
        assert(w.ready + line =~= w.ready);
    } else {
        lemma_all_fired_effect(w, fired, ids, (n - 1) as nat, script);
        let before = all_fired(w, fired, ids, (n - 1) as nat, script);
        let timer = fired[n - 1];
        assert(line =~= fired.take(n - 1).map_values(|t: TimerFired| t.task).push(timer.task));
        assert(after.ready =~= w.ready + line);
        assert forall|t: int| 0 <= t < w.tasks.len() implies #[trigger] after.tasks[t]
            == if exists|i: int| 0 <= i < n && (#[trigger] fired[i]).task == t {
            TaskEntry {
                blocked_on: None,
                done: w.tasks[t].done,
                register: w.tasks[t].register,
                timer_fired: true,
            }
        } else {
            w.tasks[t]
        } by {
            assert(before.tasks[t].done == w.tasks[t].done);
            if timer.task == t {
                assert(fired[n - 1].task == t);
            } else if exists|i: int| 0 <= i < n && (#[trigger] fired[i]).task == t {
                let i = choose|i: int| 0 <= i < n && (#[trigger] fired[i]).task == t;
                assert(i < n - 1);
            }
        }
    }
}

/// Fired timers are journaled together, in order, each with its firing and the
/// wake-up of its task, and their tasks run again, in the same order. A timer of
/// a task that does not exist rejects the run before anything is journaled.
pub proof fn law_fired_timers_release_their_tasks(
    w: World,
    fired: Seq<TimerFired>,
    script: Seq<Reply>,
)
    requires
        fired.len() > 0,
    ensures
        ({
            let (answer, after) = timers_journaled(w, fired, script);
            let known = forall|i: int|
                0 <= i < fired.len() ==> (#[trigger] fired[i]).task < w.tasks.len();
            let reply = script[w.log.len() as int]->Batch_0;
            &&& !known ==> answer is Err && after == w
            &&& known ==> exists|batch: Seq<Draft>|
                {
                    &&& deeds(after.log) == deeds(w.log).push(#[trigger] batched(batch))
                    &&& batch.len() == 2 * fired.len()
                    &&& forall|i: int|
                        0 <= i < fired.len() ==> batch[2 * i] == firing(#[trigger] fired[i]).0
                            && batch[2 * i + 1] == firing(fired[i]).1
                }
            &&& known && reply is Err ==> answer is Err && after.tasks == w.tasks && after.ready
                == w.ready
            &&& known && (reply matches Ok(ids) && ids.len() == 2 * fired.len()) ==> {
                &&& answer is Ok
                &&& after.ready == w.ready + fired.map_values(|t: TimerFired| t.task)
                &&& forall|t: int|
                    0 <= t < w.tasks.len() ==> #[trigger] after.tasks[t] == if exists|i: int|
                        0 <= i < fired.len() && (#[trigger] fired[i]).task == t {
                        TaskEntry {
                            blocked_on: None,
                            done: w.tasks[t].done,
                            register: w.tasks[t].register,
                            timer_fired: true,
                        }
                    } else {
                        w.tasks[t]
                    }
            }
        }),
{
    lemma_stray(fired, w.tasks.len());
    lemma_timer_batch(fired);
    let batch = timer_batch(fired);
    let (answer, w1) = batch_appended(w, batch, script);
    lemma_batch_counted_frame(told(w, Ask::AppendBatch { batch }, script).1, batch);
    assert(batched(batch) == (Ask::AppendBatch { batch }));
    if stray(fired, w.tasks.len()) is None {
        if let Ok(ids) = answer {
            lemma_all_fired_still(w1, fired, ids, paired(fired, ids), script);
            lemma_all_fired_effect(w1, fired, ids, paired(fired, ids), script);
            if ids.len() == 2 * fired.len() {
                assert(fired.take(fired.len() as int) =~= fired);
            }
        }
    }
}

/// The question that appends a batch.
pub open spec fn batched(batch: Seq<Draft>) -> Ask {
    Ask::AppendBatch { batch }
}

/// The scheduler chooses a position among the ready tasks. The choice is
/// journaled by the scheduler's own actor, with its eight bytes, and the task at
/// that position leaves the line; the last one takes its place. A choice outside
/// the line rejects the run.
pub proof fn law_choice_picks_a_ready_task(w: World, step: usize, script: Seq<Reply>)
    ensures
        ({
            let n = w.log.len() as int;
            let (chosen, after) = task_chosen(w, step, script);
            let question = Ask::ChooseReady { ready: w.ready, step };
            match script[n]->Choice_0 {
                Err(violation) => chosen == Err::<usize, RuntimeError>(
                    RuntimeError::StrictReplay(violation),
                ) && after.ready == w.ready,
                Ok(choice) => if choice >= w.ready.len() {
                    chosen is Err && after.ready == w.ready && deeds(after.log) == deeds(
                        w.log,
                    ).push(question)
                } else {
                    &&& deeds(after.log) == deeds(w.log).push(question).push(
                        Ask::Append {
                            record: Draft {
                                actor: ActorId(0xffff_ffff),
                                parents: Seq::empty(),
                                chained: false,
                                payload: Payload::RngDraw {
                                    stream: StreamId(0),
                                    draw_index: 0,
                                    content: eight(choice as u64),
                                },
                            },
                        },
                    )
                    &&& script[n + 1]->Appended_0 is Err ==> chosen is Err && after.ready == w.ready
                    &&& script[n + 1]->Appended_0 is Ok ==> {
                        &&& chosen == Ok::<usize, RuntimeError>(w.ready[choice as int])
                        &&& after.ready.len() == w.ready.len() - 1
                        &&& forall|i: int|
                            0 <= i < after.ready.len() ==> #[trigger] after.ready[i] == if i
                                == choice {
                                w.ready.last()
                            } else {
                                w.ready[i]
                            }
                    }
                },
            }
        }),
{
    if let Ok(choice) = script[w.log.len() as int]->Choice_0 {
        law_words_are_eight_bytes(choice as u64);
    }
}

/// A chosen task is polled exactly when it neither finished nor waits.
pub proof fn law_only_runnable_tasks_are_polled(w: World, step: usize, script: Seq<Reply>)
    ensures
        ({
            let (turn, after) = turn_taken(w, step, script);
            turn matches Ok(Turn::Poll { task, runnable }) ==> (runnable
                <==> !after.tasks[task as int].done && after.tasks[task as int].blocked_on is None)
        }),
{
    reveal(turn_taken);
}

/// After a poll a task that ended is finished and leaves the line for good. One
/// that goes on and does not wait joins the end of the line; one that waits does
/// not.
pub proof fn law_polled_task_rejoins_the_line(w: World, task: usize, ended: bool)
    requires
        task < w.tasks.len(),
    ensures
        ({
            let after = poll_noted(w, task, ended);
            let before = w.tasks[task as int];
            &&& after.ready == if !ended && before.blocked_on is None && !before.done {
                w.ready.push(task)
            } else {
                w.ready
            }
            &&& after.tasks =~= w.tasks.update(
                task as int,
                TaskEntry {
                    blocked_on: before.blocked_on,
                    done: before.done || ended,
                    register: before.register,
                    timer_fired: before.timer_fired,
                },
            )
            &&& after == (World { tasks: after.tasks, ready: after.ready, ..w })
        }),
{
}

/// A monitor is shown every step from where the journal stood when the step
/// began, and its halt ends the step. A tracing scheduler then hears where the
/// journal stands. Nothing else changes.
pub proof fn law_steps_are_shown_to_the_monitor(w: World, script: Seq<Reply>)
    ensures
        ({
            let n = w.log.len() as int;
            let (start, after) = step_begun(w, script);
            &&& start == if script[n]->Flag_0 {
                Some(script[n + 1]->Count_0)
            } else {
                None
            }
            &&& deeds(after.log) == if script[n]->Flag_0 {
                deeds(w.log).push(Ask::HasMonitor).push(Ask::JournalLen)
            } else {
                deeds(w.log).push(Ask::HasMonitor)
            }
            &&& after == (World { log: after.log, ..w })
        }),
        forall|start: Option<usize>|
            {
                let n = w.log.len() as int;
                let (halt, after) = #[trigger] step_ended(w, start, script);
                let k = if start is Some {
                    1int
                } else {
                    0int
                };
                let shown = match start {
                    Some(from) => deeds(w.log).push(Ask::MonitorStep { start: from }),
                    None => deeds(w.log),
                };
                &&& after == (World { log: after.log, ..w })
                &&& halt is Some <==> start is Some && script[n]->Action_0 is Halt
                &&& halt matches Some(reason) ==> script[n]->Action_0 == (OnlineAction::Halt {
                    reason,
                }) && deeds(after.log) == shown
                &&& halt is None ==> deeds(after.log) == if script[n + k]->Flag_0 {
                    shown.push(Ask::TraceActive).push(Ask::JournalLen).push(
                        Ask::NoteStep { journal_len: script[n + k + 1]->Count_0 },
                    )
                } else {
                    shown.push(Ask::TraceActive)
                }
            },
{
}

/// A run begins with an entry for each root task, in order, and shows what it
/// journaled to a monitor.
pub proof fn law_roots_are_journaled_in_order(w: World, n: nat, script: Seq<Reply>)
    requires
        n <= usize::MAX,
    ensures
        ({
            let (answer, after) = roots_journaled(w, n, script);
            answer is Ok ==> deeds(after.log) == deeds(w.log) + Seq::new(
                n,
                |i: int|
                    entry(
                        i as usize,
                        Seq::empty(),
                        Payload::Spawn { child_actor: ActorId(i as u32) },
                    ),
            ) && only_journaled(w, after)
        }),
    decreases n,
{
    let roots = Seq::new(
        n,
        |i: int|
            entry(i as usize, Seq::empty(), Payload::Spawn { child_actor: ActorId(i as u32) }),
    );
    if n == 0 {
        assert(deeds(w.log) + roots =~= deeds(w.log));
    } else {
        law_roots_are_journaled_in_order(w, (n - 1) as nat, script);
        let before = roots_journaled(w, (n - 1) as nat, script);
        if before.0 is Ok {
            let after = roots_journaled(w, n, script).1;
            assert(((n - 1) as usize) as u32 == (n - 1) as u32);
            assert(deeds(after.log) =~= deeds(w.log) + roots);
        }
    }
}

/// A run that ends reports the decisions of its scheduler, the register of every
/// task, the faults that took effect and the origins, under the protection it
/// ran with. Leftover decisions and a recorded failure reject it. An exhausted
/// run whose tasks all finished counts as completed. The audit runs exactly when
/// it is asked for, and what it finds is reported in order.
pub proof fn law_report_tells_the_end(
    w: World,
    outcome: RunOutcome,
    steps: usize,
    audits: bool,
    protection: BeltStatus,
    script: Seq<Reply>,
)
    ensures
        ({
            let n = w.log.len() as int;
            let decisions = script[n]->Positions_0;
            let closing = deeds(w.log).push(Ask::Decisions).push(
                Ask::CheckTrailing { consumed: decisions.len() as usize },
            );
            let (result, after) = run_ended(w, outcome, steps, audits, protection, script);
            let finished = forall|i: int| 0 <= i < w.tasks.len() ==> (#[trigger] w.tasks[i]).done;
            &&& result is Ok <==> script[n + 1]->Trailing_0 is None && w.journal_error is None
            &&& script[n + 1]->Trailing_0 is None && w.journal_error is Some ==> result == Err::<
                RunReport,
                RuntimeError,
            >(RuntimeError::Journal(w.journal_error->Some_0))
            &&& result is Err ==> deeds(after.log) == closing
            &&& result matches Ok(report) ==> {
                &&& report.decisions == decisions
                &&& report.registers.len() == w.tasks.len()
                &&& forall|i: int|
                    0 <= i < w.tasks.len() ==> #[trigger] report.registers[i] == w.tasks[i].register
                &&& report.steps == steps
                &&& report.outcome == if outcome == RunOutcome::BudgetExhausted && finished {
                    RunOutcome::Completed
                } else {
                    outcome
                }
                &&& report.applied_faults == w.applied_faults && report.origins == w.origins
                &&& report.journal_error is None && report.protection == protection
                &&& report.monitor_issues == if audits {
                    script[n + 2]->Issues_0 + script[n + 3]->Issues_0
                } else {
                    Seq::empty()
                }
                &&& audits ==> exists|counts: Seq<(ActorId, u64)>|
                    #[trigger] told_counts(w, counts) && deeds(after.log) == closing.push(
                        Ask::Audit,
                    ).push(Ask::CheckCoverage { entries: counts })
                &&& !audits ==> deeds(after.log) == closing
            }
            &&& after == (World { log: after.log, ..w })
        }),
{
    let counts = coverage_of(w.coverage);
    assert(told_counts(w, counts));
}

/// The entry counts as the audit hears them.
pub open spec fn told_counts(w: World, counts: Seq<(ActorId, u64)>) -> bool {
    &&& counts.len() == w.coverage.len()
    &&& forall|i: int|
        0 <= i < counts.len() ==> (#[trigger] counts[i]).0.0 == w.coverage[i].0 && counts[i].1
            == w.coverage[i].1
}

} // verus!
