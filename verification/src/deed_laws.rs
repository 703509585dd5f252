//! What the effects of a task ask of the world and leave behind.

use crate::books::sound;
use crate::bytes::le;
use crate::config::{crash_of, Crash, SimFault};
use crate::deeds::{
    crash_entry, deeds, eight, entry, granted, law_one_entry_is_appended, law_words_are_eight_bytes,
    on_record, only_journaled,
};
use crate::effect_laws::lemma_marked_lists;
use crate::host::{extends, Ask, Reply, SeedStream};
use crate::ids::{ActorId, EntryHash, StreamId};
use crate::journal::{EntryKind, FaultModel, JournalError, Payload};
use crate::model::{
    actor_of, clock_read, counted, crash_class, crash_payload, crash_sampled, crashed, flushed,
    fs_drawn, injection_for, joined, marked, message_parked, notified, partition_applied,
    register_set, sampled_crash, sleep_begun, sleep_parked, sleep_polled, spawned, stream_opened,
    told, value_read, value_written, word_drawn, write_injected, BlockedOn, TaskEntry, World,
};
use crate::probability::chance_hit;
use crate::soundness::{lemma_crash_sampled, lemma_write_injected};
use crate::stream::{chacha20_word, lemma_slot_names_stream, next_count, stream_slot, StreamState};
use crate::text::decimal;
use vstd::prelude::*;

verus! {

broadcast use crate::deeds::lemma_deeds;

/// A storage crash of a task journals the crash and then crashes storage,
/// whether or not the entry could be appended: the crash request ends the
/// operation, and it is the only one. Nothing else changes.
pub proof fn law_crash_reaches_storage(w: World, task: usize, script: Seq<Reply>)
    ensures
        ({
            let reply = script[w.log.len() as int]->Appended_0;
            let crash = Ask::FsCrash { journaled: w.fs_journaling is Some };
            let (id, after) = crashed(w, task, script);
            &&& id == granted(reply)
            &&& deeds(after.log) == deeds(w.log).push(
                crash_entry(task, Crash::DropAllUnsynced),
            ).push(crash)
            &&& after.log.last().0 == crash
            &&& only_journaled(w, after)
            &&& after.journal_error == on_record(w.journal_error, reply)
        }),
{
    let payload = Payload::Fault(
        FaultModel::CrashActor {
            actor: ActorId(task as u32),
            crash_operation: Crash::DropAllUnsynced,
        },
    );
    law_one_entry_is_appended(w, task, Seq::empty(), payload, script);
}

/// A partition of a directed link that is journaled cuts that link, or heals it
/// when it was cut, and touches no other link and no queued message. One that is
/// not journaled changes nothing. The journaled fault names the link.
pub proof fn law_partition_cuts_the_named_link(
    w: World,
    task: usize,
    src: usize,
    dst: usize,
    other: (usize, usize),
    script: Seq<Reply>,
)
    requires
        src <= u32::MAX,
        dst <= u32::MAX,
    ensures
        ({
            let reply = script[w.log.len() as int]->Appended_0;
            let (answer, after) = partition_applied(w, task, src, dst, script);
            &&& answer == reply
            &&& deeds(after.log) == deeds(w.log).push(
                entry(
                    task,
                    Seq::empty(),
                    Payload::Fault(
                        FaultModel::Partition {
                            src: ActorId(src as u32),
                            dst: ActorId(dst as u32),
                            enabled: true,
                        },
                    ),
                ),
            )
            &&& reply is Err ==> after.net == w.net
            &&& reply is Ok ==> {
                &&& after.net.partitions.contains((src, dst)) != w.net.partitions.contains(
                    (src, dst),
                )
                &&& other != (src, dst) ==> after.net.partitions.contains(other)
                    == w.net.partitions.contains(other)
            }
            &&& after.net.queue == w.net.queue && after.net.links == w.net.links
                && after.net.window == w.net.window
            &&& only_journaled(w, World { net: w.net, ..after })
            &&& after.journal_error == w.journal_error
        }),
{
    let payload = Payload::Fault(
        FaultModel::Partition {
            src: ActorId(src as u32),
            dst: ActorId(dst as u32),
            enabled: true,
        },
    );
    law_one_entry_is_appended(w, task, Seq::empty(), payload, script);
}

/// A read of the clock gives the time that the world tells, and journals it.
pub proof fn law_clock_read_is_the_time(w: World, task: usize, script: Seq<Reply>)
    ensures
        ({
            let n = w.log.len() as int;
            let ticks = script[n]->Ticks_0;
            let (answer, after) = clock_read(w, task, script);
            &&& answer == match script[n + 1]->Appended_0 {
                Ok(_) => Ok(ticks),
                Err(e) => Err(e),
            }
            &&& deeds(after.log) == deeds(w.log).push(Ask::Now).push(
                entry(task, Seq::empty(), Payload::ClockRead { ticks }),
            )
            &&& only_journaled(w, after) && after.journal_error == w.journal_error
        }),
{
    let w1 = told(w, Ask::Now, script).1;
    let payload = Payload::ClockRead { ticks: script[w.log.len() as int]->Ticks_0 };
    law_one_entry_is_appended(w1, task, Seq::empty(), payload, script);
}

/// A task that arms a timer.
pub open spec fn armed(task: usize, ticks: u64, enabler: Option<EntryHash>) -> Ask {
    Ask::SetTimer { ticks, task, enabler }
}

/// The entry of an armed timer.
pub open spec fn timer_entry(task: usize, ticks: u64) -> Ask {
    entry(task, Seq::empty(), Payload::TimerSet { timer_id: 0, deadline_ticks: ticks })
}

/// A sleep journals its timer, arms it for the given ticks and parks the task
/// until the timer fires. Parking fails with the entry; a sleep that cannot fail
/// arms its timer without entry then, and the failure is on record. Only the
/// task itself changes.
pub proof fn law_sleep_arms_its_timer(w: World, task: usize, ticks: u64, script: Seq<Reply>)
    requires
        task < w.tasks.len(),
    ensures
        ({
            let reply = script[w.log.len() as int]->Appended_0;
            let (answer, after) = sleep_parked(w, task, ticks, script);
            let before = w.tasks[task as int];
            match reply {
                Err(e) => {
                    &&& answer == Err::<(), JournalError>(e)
                    &&& deeds(after.log) == deeds(w.log).push(timer_entry(task, ticks))
                    &&& only_journaled(w, after)
                },
                Ok(id) => {
                    &&& answer == Ok::<(), JournalError>(())
                    &&& deeds(after.log) == deeds(w.log).push(timer_entry(task, ticks)).push(
                        armed(task, ticks, Some(id)),
                    )
                    &&& after.tasks == w.tasks.update(
                        task as int,
                        TaskEntry {
                            blocked_on: Some(BlockedOn::Timer),
                            done: before.done,
                            register: before.register,
                            timer_fired: false,
                        },
                    )
                    &&& only_journaled(w, World { tasks: w.tasks, ..after })
                },
            }
        }),
        ({
            let reply = script[w.log.len() as int]->Appended_0;
            let after = sleep_begun(w, task, ticks, script);
            let before = w.tasks[task as int];
            &&& deeds(after.log) == deeds(w.log).push(timer_entry(task, ticks)).push(
                armed(task, ticks, granted(reply)),
            )
            &&& after.tasks == w.tasks.update(
                task as int,
                TaskEntry {
                    blocked_on: Some(BlockedOn::Timer),
                    done: before.done,
                    register: before.register,
                    timer_fired: before.timer_fired,
                },
            )
            &&& only_journaled(w, World { tasks: w.tasks, ..after })
            &&& after.journal_error == on_record(w.journal_error, reply)
        }),
{
    let payload = Payload::TimerSet { timer_id: 0, deadline_ticks: ticks };
    law_one_entry_is_appended(w, task, Seq::empty(), payload, script);
}

/// A poll of a sleep ends it exactly when its timer fired, and forgets that the
/// timer fired. Nothing else changes.
pub proof fn law_sleep_poll_consumes_the_firing(w: World, task: usize)
    requires
        task < w.tasks.len(),
    ensures
        ({
            let (over, after) = sleep_polled(w, task);
            let before = w.tasks[task as int];
            &&& over == before.timer_fired
            &&& after == (World { tasks: after.tasks, ..w })
            &&& after.tasks =~= w.tasks.update(
                task as int,
                TaskEntry {
                    blocked_on: before.blocked_on,
                    done: before.done,
                    register: before.register,
                    timer_fired: false,
                },
            )
        }),
{
}

/// Waiting for a message journals the wait and parks the task, and changes no
/// other task.
pub proof fn law_wait_parks_the_task(w: World, task: usize, script: Seq<Reply>)
    requires
        task < w.tasks.len(),
    ensures
        ({
            let reply = script[w.log.len() as int]->Appended_0;
            let (answer, after) = message_parked(w, task, script);
            let before = w.tasks[task as int];
            &&& deeds(after.log) == deeds(w.log).push(entry(task, Seq::empty(), Payload::Block))
            &&& reply matches Err(e) ==> answer == Err::<(), JournalError>(e) && only_journaled(
                w,
                after,
            )
            &&& reply is Ok ==> {
                &&& answer == Ok::<(), JournalError>(())
                &&& after.tasks == w.tasks.update(
                    task as int,
                    TaskEntry {
                        blocked_on: Some(BlockedOn::Message),
                        done: before.done,
                        register: before.register,
                        timer_fired: before.timer_fired,
                    },
                )
                &&& only_journaled(w, World { tasks: w.tasks, ..after })
            }
        }),
{
    law_one_entry_is_appended(w, task, Seq::empty(), Payload::Block, script);
}

/// Setting a register changes that register alone.
pub proof fn law_register_is_set(w: World, task: usize, value: u64, other: int)
    requires
        task < w.tasks.len(),
        0 <= other < w.tasks.len(),
    ensures
        ({
            let after = register_set(w, task, value);
            &&& after == (World { tasks: after.tasks, ..w })
            &&& after.tasks.len() == w.tasks.len()
            &&& after.tasks[task as int] == (TaskEntry { register: value, ..w.tasks[task as int] })
            &&& other != task ==> after.tasks[other] == w.tasks[other]
        }),
{
}

/// A spawned task is new, runnable at once and last in line, and its creation is
/// journaled under its own actor.
pub proof fn law_spawned_task_joins_the_line(w: World, script: Seq<Reply>)
    requires
        w.tasks.len() <= usize::MAX,
    ensures
        ({
            let id = w.tasks.len() as usize;
            let reply = script[w.log.len() as int]->Appended_0;
            let after = spawned(w, script);
            &&& deeds(after.log) == deeds(w.log).push(
                entry(id, Seq::empty(), Payload::Spawn { child_actor: ActorId(id as u32) }),
            )
            &&& after.tasks == w.tasks.push(
                TaskEntry { blocked_on: None, done: false, register: 0, timer_fired: false },
            )
            &&& after.ready == w.ready.push(id)
            &&& after.journal_error == on_record(w.journal_error, reply)
            &&& only_journaled(w, World { tasks: w.tasks, ready: w.ready, ..after })
        }),
{
}

/// The state of a task's stream before a draw: as it stands, or fresh under the
/// seed that the world gives on first use.
pub open spec fn stands_at(
    w: World,
    task: usize,
    stream: u32,
    script: Seq<Reply>,
    s: StreamState,
) -> bool {
    if exists|i: int| #[trigger] is_stream(w.streams, task, stream, i) {
        exists|i: int| #[trigger] is_stream(w.streams, task, stream, i) && w.streams[i] == s
    } else {
        s == (StreamState { task, stream, seed: script[w.log.len() as int]->Seed_0, drawn: 0 })
    }
}

/// The stream at the position is the task's.
pub open spec fn is_stream(streams: Seq<StreamState>, task: usize, stream: u32, i: int) -> bool {
    0 <= i < streams.len() && streams[i].task == task && streams[i].stream == stream
}

/// A draw gives the next word of the task's stream: word number `k` of the
/// generator with the stream's seed, `k` words having been drawn before. The
/// stream is seeded by its name on first use. The draw is journaled with its
/// eight bytes.
pub proof fn law_draw_is_the_next_word(w: World, task: usize, stream: u32, script: Seq<Reply>)
    ensures
        ({
            let (word, after) = word_drawn(w, task, stream, script);
            let known = exists|i: int| #[trigger] is_stream(w.streams, task, stream, i);
            let record = entry(
                task,
                Seq::empty(),
                Payload::RngDraw { stream: StreamId(stream), draw_index: 0, content: eight(word) },
            );
            &&& exists|s: StreamState, i: int|
                #[trigger] stands_at(w, task, stream, script, s) && word == chacha20_word(
                    s.seed@,
                    (2 * s.drawn) as u128,
                ) && #[trigger] is_stream(after.streams, task, stream, i) && after.streams[i] == (
                StreamState {
                    drawn: if s.drawn == u64::MAX {
                        0
                    } else {
                        (s.drawn + 1) as u64
                    },
                    ..s
                })
            &&& after.streams.len() == w.streams.len() + if known {
                0int
            } else {
                1int
            }
            &&& deeds(after.log) == if known {
                deeds(w.log).push(record)
            } else {
                deeds(w.log).push(
                    Ask::StreamSeed { label: "app/"@ + decimal(stream as nat) },
                ).push(record)
            }
            &&& only_journaled(w, World { streams: w.streams, ..after })
        }),
{
    let (word, after) = word_drawn(w, task, stream, script);
    let (k, w1) = stream_opened(w, task, stream, script);
    lemma_slot_names_stream(w.streams, task, stream);
    lemma_slot_finds_stream(w.streams, task, stream);
    let s = w1.streams[k];
    if stream_slot(w.streams, task, stream) is Some {
        assert(is_stream(w.streams, task, stream, k));
    } else {
        assert forall|i: int| !#[trigger] is_stream(w.streams, task, stream, i) by {}
    }
    assert(stands_at(w, task, stream, script, s));
    let w2 = World {
        streams: w1.streams.update(k, StreamState { drawn: next_count(s.drawn), ..s }),
        ..w1
    };
    let payload = Payload::RngDraw {
        stream: StreamId(stream),
        draw_index: 0,
        content: le(word as nat, 8),
    };
    law_words_are_eight_bytes(word);
    law_one_entry_is_appended(w2, task, Seq::empty(), payload, script);
    assert(is_stream(after.streams, task, stream, k));
}

pub(crate) proof fn lemma_slot_finds_stream(streams: Seq<StreamState>, task: usize, stream: u32)
    ensures
        stream_slot(streams, task, stream) is None ==> forall|i: int|
            !#[trigger] is_stream(streams, task, stream, i),
    decreases streams.len(),
{
    if streams.len() > 0 {
        let front = streams.drop_last();
        lemma_slot_finds_stream(front, task, stream);
        if stream_slot(streams, task, stream) is None {
            assert forall|i: int| !#[trigger] is_stream(streams, task, stream, i) by {
                if is_stream(streams, task, stream, i) && i < front.len() {
                    assert(is_stream(front, task, stream, i));
                }
            }
        }
    }
}

/// A flush asks storage to flush on behalf of the task, and gives storage's
/// answer.
pub proof fn law_flush_reaches_storage(w: World, task: usize, script: Seq<Reply>)
    ensures
        ({
            let (answer, after) = flushed(w, task, script);
            &&& answer == script[w.log.len() as int]->Appended_0
            &&& deeds(after.log) == deeds(w.log).push(
                Ask::FsFsync { actor: ActorId(task as u32) },
            )
            &&& only_journaled(w, after) && after.journal_error == w.journal_error
        }),
{
}

/// A read asks storage for the path on behalf of the task, and gives storage's
/// answer.
pub proof fn law_read_reaches_storage(w: World, task: usize, path: Seq<char>, script: Seq<Reply>)
    ensures
        ({
            let reply = script[w.log.len() as int]->Value_0;
            let actor = ActorId(task as u32);
            let (answer, after) = value_read(w, task, path, script);
            &&& answer == reply
            &&& deeds(after.log) == if reply is Ok {
                deeds(w.log).push(Ask::FsRead { actor, path }).push(Ask::HeadForActor { actor })
            } else {
                deeds(w.log).push(Ask::FsRead { actor, path })
            }
            &&& only_journaled(w, after) && after.journal_error == w.journal_error
        }),
{
}

/// A write asks storage to write the value under the path on behalf of the task.
/// A failed write does nothing else. A write that no fault is scheduled for, in a
/// run without sampled crashes, does nothing else either and gives its entry.
pub proof fn law_write_reaches_storage(
    w: World,
    task: usize,
    path: Seq<char>,
    value: u64,
    script: Seq<Reply>,
)
    ensures
        ({
            let reply = script[w.log.len() as int]->Appended_0;
            let write = Ask::FsWrite { actor: ActorId(task as u32), path, value };
            let (answer, after) = value_written(w, task, path, value, script);
            let plain = reply is Err || (w.swarm.crash_probability@ == 0 && forall|k: int|
                0 <= k < w.fault_schedule.len() ==> !targets(
                    #[trigger] w.fault_schedule[k],
                    reply->Ok_0,
                ));
            &&& after.log.len() > w.log.len() && after.log[w.log.len() as int].0 == write
            &&& plain ==> {
                &&& answer == reply
                &&& deeds(after.log) == deeds(w.log).push(write)
                &&& only_journaled(w, after) && after.journal_error == w.journal_error
            }
        }),
{
    let reply = script[w.log.len() as int]->Appended_0;
    if let Ok(id) = reply {
        law_first_scheduled_fault_is_injected(w.fault_schedule, id);
        let write = Ask::FsWrite { actor: ActorId(task as u32), path, value };
        let w1 = told(w, write, script).1;
        let w2 = notified(
            counted(w1, actor_of(task)),
            actor_of(task),
            EntryKind::FsWrite,
            task,
            Some(id),
            script,
        );
        assert(w2.log[w.log.len() as int] == w1.log[w.log.len() as int]);
        lemma_value_written_extends(w2, task, path, id, script);
    }
}

proof fn lemma_value_written_extends(
    w: World,
    task: usize,
    path: Seq<char>,
    id: EntryHash,
    script: Seq<Reply>,
)
    ensures
        extends(write_injected(w, task, id, path, script).1.log, w.log),
        extends(
            crash_sampled(write_injected(w, task, id, path, script).1, task, path, id, script).1.log,
            w.log,
        ),
{
    lemma_write_injected(w, task, id, path, script);
    let w1 = write_injected(w, task, id, path, script).1;
    lemma_crash_sampled(w1, task, path, id, script);
    reveal(sound);
}

/// The scheduled fault is for the entry.
pub open spec fn targets(fault: SimFault, id: EntryHash) -> bool {
    match fault {
        SimFault::Drop(send) => send == id,
        SimFault::Delay { send, .. } => send == id,
        SimFault::Duplicate { send } => send == id,
        SimFault::Crash(write) => write == id,
        SimFault::Corrupt { write, .. } => write == id,
        SimFault::CrashState { write, .. } => write == id,
        SimFault::Partition { .. } => false,
    }
}

/// The fault at the position is the first one for the entry.
pub open spec fn first_target(schedule: Seq<SimFault>, id: EntryHash, k: int) -> bool {
    &&& 0 <= k < schedule.len()
    &&& targets(schedule[k], id)
    &&& forall|j: int| 0 <= j < k ==> !targets(#[trigger] schedule[j], id)
}

/// The fault that is injected for an entry is the first of the schedule that is
/// for it.
pub proof fn law_first_scheduled_fault_is_injected(schedule: Seq<SimFault>, id: EntryHash)
    ensures
        match injection_for(schedule, id) {
            Some(fault) => exists|k: int| #[trigger]
                first_target(schedule, id, k) && schedule[k] == fault,
            None => forall|k: int|
                0 <= k < schedule.len() ==> !targets(#[trigger] schedule[k], id),
        },
    decreases schedule.len(),
{
    if schedule.len() > 0 {
        let front = schedule.drop_last();
        law_first_scheduled_fault_is_injected(front, id);
        match injection_for(front, id) {
            Some(fault) => {
                let k = choose|k: int| #[trigger] first_target(front, id, k) && front[k] == fault;
                assert forall|j: int| 0 <= j < k implies !targets(#[trigger] schedule[j], id) by {
                    assert(front[j] == schedule[j]);
                }
                assert(first_target(schedule, id, k));
            },
            None => {
                assert forall|j: int| 0 <= j < front.len() implies !targets(
                    #[trigger] schedule[j],
                    id,
                ) by {
                    assert(front[j] == schedule[j]);
                }
                if targets(schedule.last(), id) {
                    assert(first_target(schedule, id, schedule.len() - 1));
                }
            },
        }
    }
}

/// What storage is asked to do for a scheduled write fault: drop everything
/// unsynced, xor the mask over the write, or the operator of the crash state.
pub open spec fn scheduled_operation(fault: SimFault, path: Seq<char>) -> Option<Crash> {
    match fault {
        SimFault::Corrupt { write, xor_mask } => Some(
            Crash::CorruptRange { write_entry: write, offset: 0, xor_bytes: eight(xor_mask) },
        ),
        SimFault::CrashState { write, state: 0 } => Some(Crash::DropAllUnsynced),
        SimFault::CrashState { write, state: 1 } => Some(Crash::DropPaths { path }),
        SimFault::CrashState { write, state: 2 } => Some(
            Crash::TornWrite { write_entry: write, persisted_prefix: 0 },
        ),
        _ => None,
    }
}

/// A scheduled write fault takes effect on storage and is journaled. A crash
/// crashes storage first; a corruption and a crash state apply their operator
/// and are journaled once storage took it. The fault is marked as applied. A
/// crash state without operator does nothing and fails, and faults for sends do
/// nothing to writes.
pub proof fn law_scheduled_write_fault_takes_effect(
    w: World,
    task: usize,
    write_id: EntryHash,
    path: Seq<char>,
    fault: SimFault,
    script: Seq<Reply>,
)
    requires
        injection_for(w.fault_schedule, write_id) == Some(fault),
    ensures
        ({
            let (answer, after) = write_injected(w, task, write_id, path, script);
            let crash = Ask::FsCrash { journaled: w.fs_journaling is Some };
            let applied = script[w.log.len() as int]->Applied_0;
            match fault {
                SimFault::Crash(_) => {
                    &&& deeds(after.log) == deeds(w.log).push(crash).push(
                        crash_entry(task, Crash::DropAllUnsynced),
                    )
                    &&& answer is Ok <==> script[w.log.len() as int + 1]->Appended_0 is Ok
                    &&& after.applied_faults.contains(write_id)
                },
                SimFault::Drop(_) => answer is Ok && after == w,
                SimFault::Delay { .. } => answer is Ok && after == w,
                SimFault::Duplicate { .. } => answer is Ok && after == w,
                SimFault::Partition { .. } => answer is Ok && after == w,
                _ => match scheduled_operation(fault, path) {
                    None => answer is Err && after == w,
                    Some(operation) => {
                        let request = Ask::FsApply { operation };
                        &&& after.applied_faults.contains(write_id)
                        &&& applied is Err ==> answer is Err && deeds(after.log) == deeds(
                            w.log,
                        ).push(request)
                        &&& applied is Ok ==> deeds(after.log) == deeds(w.log).push(request).push(
                            crash_entry(task, operation),
                        )
                        &&& applied is Ok ==> (answer is Ok <==> script[w.log.len() as int
                            + 1]->Appended_0 is Ok)
                    },
                },
            }
        }),
{
    lemma_marked_lists(w, write_id);
    if let SimFault::Corrupt { write, xor_mask } = fault {
        law_words_are_eight_bytes(xor_mask);
    }
    let m = marked(w, write_id);
    let crash = Ask::FsCrash { journaled: w.fs_journaling is Some };
    let w1 = told(m, crash, script).1;
    law_one_entry_is_appended(
        w1,
        task,
        Seq::empty(),
        crash_payload(task, Crash::DropAllUnsynced),
        script,
    );
    if let Some(operation) = scheduled_operation(fault, path) {
        let w2 = told(m, Ask::FsApply { operation }, script).1;
        law_one_entry_is_appended(w2, task, Seq::empty(), crash_payload(task, operation), script);
    }
}

/// The operator that a sampled word selects after a write: one of four.
pub open spec fn sampled_operation(word: u64, path: Seq<char>, write: EntryHash) -> Crash {
    match word % 4 {
        0 => Crash::DropAllUnsynced,
        1 => Crash::DropPaths { path },
        2 => Crash::TornWrite { write_entry: write, persisted_prefix: 4 },
        _ => Crash::BitFlip { write_entry: write, offset: 0, bit: 0 },
    }
}

/// A sampled crash after a write. A chance of zero draws nothing. Otherwise one
/// word of the storage stream decides, and a second one selects the operator.
/// Within the budget of classes the operator goes to storage and is journaled
/// once storage took it; a refusal is on record. Beyond the budget the words are
/// drawn and nothing happens.
pub proof fn law_sampled_crash_takes_effect(
    w: World,
    task: usize,
    path: Seq<char>,
    write_id: EntryHash,
    script: Seq<Reply>,
)
    ensures
        ({
            let n = w.log.len() as int;
            let chance = w.swarm.crash_probability@;
            let next = if w.fs_offset == u64::MAX {
                0u64
            } else {
                (w.fs_offset + 1) as u64
            };
            let first = Ask::Draw { stream: SeedStream::Fs, offset: w.fs_offset };
            let second = Ask::Draw { stream: SeedStream::Fs, offset: next };
            let hit = chance_hit(chance, script[n]->Word_0);
            let operation = sampled_operation(script[n + 1]->Word_0, path, write_id);
            let budget = if w.swarm.fault_classes_per_run == 0 {
                1
            } else {
                w.swarm.fault_classes_per_run as nat
            };
            let (answer, after) = crash_sampled(w, task, path, write_id, script);
            if chance == 0 {
                answer is Ok && after == w
            } else if !hit {
                answer is Ok && deeds(after.log) == deeds(w.log).push(first)
                    && after.fault_classes_used == w.fault_classes_used
            } else if w.fault_classes_used.len() >= budget {
                answer is Ok && deeds(after.log) == deeds(w.log).push(first).push(second)
                    && after.fault_classes_used == w.fault_classes_used
            } else {
                let drawn = deeds(w.log).push(first).push(second).push(
                    Ask::FsApply { operation },
                );
                if script[n + 2]->Applied_0 is Err {
                    answer is Ok && deeds(after.log) == drawn && after.journal_error is Some
                } else {
                    &&& deeds(after.log) == drawn.push(crash_entry(task, operation))
                    &&& answer is Ok <==> script[n + 3]->Appended_0 is Ok
                    &&& after.journal_error == w.journal_error
                }
            }
        }),
{
    let (word, w1) = fs_drawn(w, script);
    let (choice, w2) = fs_drawn(w1, script);
    let operation = sampled_crash(choice, path, write_id);
    let w3 = World {
        fault_classes_used: joined(w2.fault_classes_used, crash_class(operation)),
        ..w2
    };
    let w4 = told(w3, Ask::FsApply { operation }, script).1;
    law_one_entry_is_appended(w4, task, Seq::empty(), crash_payload(task, operation), script);
}

/// The classes that a run used hold one class per kind of operator, each once.
pub proof fn law_crash_classes_are_kinds(a: Crash, b: Crash, used: Seq<u64>, class: u64)
    ensures
        crash_class(a) == crash_class(b) <==> (a is DropAllUnsynced && b is DropAllUnsynced) || (
        a is DropPaths && b is DropPaths) || (a is TornWrite && b is TornWrite) || (
        a is CorruptRange && b is CorruptRange) || (a is BitFlip && b is BitFlip),
        joined(used, class).contains(class),
        joined(used, class).len() == used.len() + if used.contains(class) {
            0int
        } else {
            1int
        },
{
    if !used.contains(class) {
        assert(used.push(class)[used.len() as int] == class);
    }
}

/// The operation that a fault asks storage for: a crash loses what was not
/// flushed, a corruption turns the first eight bytes of the write by its mask,
/// and the crash states lose everything that was not flushed, the path, or all
/// of the write. Any other crash state is named in the error, and faults of
/// other kinds ask storage for nothing.
pub proof fn law_faults_ask_for_their_operation(fault: SimFault, path: Seq<char>)
    ensures
        match (fault, crash_of(fault, path)) {
            (SimFault::Crash(_), Some(Ok(operation))) => operation is DropAllUnsynced,
            (SimFault::Corrupt { write, xor_mask }, Some(Ok(operation))) => operation
                == (Crash::CorruptRange {
                write_entry: write,
                offset: 0,
                xor_bytes: eight(xor_mask),
            }),
            (SimFault::CrashState { write, state }, Some(Ok(operation))) => {
                ||| state == 0 && operation is DropAllUnsynced
                ||| state == 1 && operation == (Crash::DropPaths { path })
                ||| state == 2 && operation == (Crash::TornWrite {
                    write_entry: write,
                    persisted_prefix: 0,
                })
            },
            (SimFault::CrashState { state, .. }, Some(Err(named))) => named == state && state > 2,
            (SimFault::Drop(_), None) => true,
            (SimFault::Delay { .. }, None) => true,
            (SimFault::Partition { .. }, None) => true,
            (SimFault::Duplicate { .. }, None) => true,
            _ => false,
        },
{
    if let SimFault::Corrupt { xor_mask, .. } = fault {
        law_words_are_eight_bytes(xor_mask);
    }
}

} // verus!
