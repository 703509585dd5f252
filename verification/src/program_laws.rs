//! What the instructions of a program do.

use crate::config::Crash;
use crate::deed_laws::{
    law_clock_read_is_the_time, law_crash_reaches_storage, law_flush_reaches_storage,
    law_read_reaches_storage, law_sleep_arms_its_timer, law_wait_parks_the_task,
    law_write_reaches_storage, timer_entry,
};
use crate::deeds::{
    crash_entry, deeds, eight, entry, law_one_entry_is_appended, law_words_are_eight_bytes,
    on_record, only_journaled,
};
use crate::host::{Ask, Reply};
use crate::ids::ActorId;
use crate::journal::{Canonical, JournalError, Payload};
use crate::model::{
    assert_digest, assert_payload, bytes_sent, ending_payload, input_payload, outcome_digest,
    outcome_payload, received_now, value_written, BlockedOn, TaskEntry, World,
};
use crate::net::recv_bound;
use crate::net_laws::law_receive_follows_the_window;
use crate::program::{instruction_run, program_polled, Step};
use crate::runtime::Instruction;
use crate::send_laws::law_receive_takes_and_journals;
use vstd::prelude::*;

verus! {

broadcast use crate::deeds::lemma_deeds;

/// The register of a task holds the value, and nothing else of any task changed.
pub open spec fn now_holds(before: World, after: World, task: usize, value: u64) -> bool {
    after.tasks == before.tasks.update(
        task as int,
        TaskEntry {
            blocked_on: before.tasks[task as int].blocked_on,
            done: before.tasks[task as int].done,
            register: value,
            timer_fired: before.tasks[task as int].timer_fired,
        },
    )
}

/// Instructions that journal one entry and go on: a yield, an assertion and the
/// end of the program. A failed append ends the program.
pub proof fn law_plain_instructions_journal_once(
    w: World,
    task: usize,
    instruction: Instruction,
    script: Seq<Reply>,
)
    requires
        instruction is Yield || instruction is Assert || instruction is Done,
    ensures
        ({
            let payload = match instruction {
                Instruction::Yield => Payload::Block,
                Instruction::Assert(passed) => Payload::Assert {
                    predicate: assert_digest(),
                    passed,
                    detail: Canonical::Unsigned(
                        if passed {
                            1
                        } else {
                            0
                        },
                    ),
                },
                _ => Payload::Outcome {
                    schema: outcome_digest(),
                    value: Canonical::Text("done"@),
                },
            };
            let (step, moves, after) = instruction_run(w, task, instruction, script);
            &&& moves
            &&& deeds(after.log) == deeds(w.log).push(entry(task, Seq::empty(), payload))
            &&& step == match script[w.log.len() as int]->Appended_0 {
                Ok(_) => Ok(
                    if instruction is Done {
                        Step::Finished
                    } else {
                        Step::Continue
                    },
                ),
                Err(e) => Err(e),
            }
            &&& only_journaled(w, after) && after.journal_error == w.journal_error
        }),
{
    law_one_entry_is_appended(w, task, Seq::empty(), Payload::Block, script);
    law_one_entry_is_appended(w, task, Seq::empty(), assert_payload(true), script);
    law_one_entry_is_appended(w, task, Seq::empty(), assert_payload(false), script);
    law_one_entry_is_appended(w, task, Seq::empty(), ending_payload(), script);
}

/// An input is journaled with its keys and its value, and its value goes into
/// the register. A plain value has zero keys. A failed append ends the program
/// and leaves the register alone.
pub proof fn law_input_goes_to_the_register(
    w: World,
    task: usize,
    generator: u64,
    replay: u64,
    value: u64,
    script: Seq<Reply>,
)
    requires
        task < w.tasks.len(),
    ensures
        instruction_run(w, task, Instruction::SetValue(value), script) == instruction_run(
            w,
            task,
            Instruction::Input { generator: 0, replay: 0, value },
            script,
        ),
        ({
            let (step, moves, after) = instruction_run(
                w,
                task,
                Instruction::Input { generator, replay, value },
                script,
            );
            &&& moves
            &&& deeds(after.log) == deeds(w.log).push(
                entry(
                    task,
                    Seq::empty(),
                    Payload::InputStep { generator, replay, value: Canonical::Unsigned(value) },
                ),
            )
            &&& match script[w.log.len() as int]->Appended_0 {
                Ok(_) => step == Ok::<Step, JournalError>(Step::Continue) && now_holds(
                    w,
                    after,
                    task,
                    value,
                ),
                Err(e) => step == Err::<Step, JournalError>(e) && after.tasks == w.tasks,
            }
        }),
{
    law_one_entry_is_appended(
        w,
        task,
        Seq::empty(),
        input_payload(generator, replay, value),
        script,
    );
    law_one_entry_is_appended(w, task, Seq::empty(), input_payload(0, 0, value), script);
}

/// The clock is read into the register.
pub proof fn law_clock_goes_to_the_register(w: World, task: usize, script: Seq<Reply>)
    requires
        task < w.tasks.len(),
    ensures
        ({
            let n = w.log.len() as int;
            let ticks = script[n]->Ticks_0;
            let (step, moves, after) = instruction_run(w, task, Instruction::ReadClock, script);
            &&& moves
            &&& deeds(after.log) == deeds(w.log).push(Ask::Now).push(
                entry(task, Seq::empty(), Payload::ClockRead { ticks }),
            )
            &&& match script[n + 1]->Appended_0 {
                Ok(_) => step == Ok::<Step, JournalError>(Step::Continue) && now_holds(
                    w,
                    after,
                    task,
                    ticks,
                ),
                Err(e) => step == Err::<Step, JournalError>(e) && after.tasks == w.tasks,
            }
        }),
{
    law_clock_read_is_the_time(w, task, script);
}

/// An outcome reports the register of the task. A failed append is on record,
/// and the program goes on.
pub proof fn law_outcome_reports_the_register(w: World, task: usize, script: Seq<Reply>)
    requires
        task < w.tasks.len(),
    ensures
        ({
            let (step, moves, after) = instruction_run(w, task, Instruction::Outcome, script);
            &&& moves && step == Ok::<Step, JournalError>(Step::Continue)
            &&& deeds(after.log) == deeds(w.log).push(
                entry(
                    task,
                    Seq::empty(),
                    Payload::Outcome {
                        schema: outcome_digest(),
                        value: Canonical::Unsigned(w.tasks[task as int].register),
                    },
                ),
            )
            &&& only_journaled(w, after)
            &&& after.journal_error == on_record(
                w.journal_error,
                script[w.log.len() as int]->Appended_0,
            )
        }),
{
    law_one_entry_is_appended(
        w,
        task,
        Seq::empty(),
        outcome_payload(w.tasks[task as int].register),
        script,
    );
}

/// A sleep parks the program behind itself: it goes on with the next
/// instruction.
pub proof fn law_sleep_instruction_parks(w: World, task: usize, ticks: u64, script: Seq<Reply>)
    requires
        task < w.tasks.len(),
    ensures
        ({
            let (step, moves, after) = instruction_run(w, task, Instruction::Sleep(ticks), script);
            &&& moves
            &&& match script[w.log.len() as int]->Appended_0 {
                Ok(id) => {
                    &&& step == Ok::<Step, JournalError>(Step::Parked)
                    &&& deeds(after.log) == deeds(w.log).push(timer_entry(task, ticks)).push(
                        Ask::SetTimer { ticks, task, enabler: Some(id) },
                    )
                    &&& after.tasks[task as int].blocked_on == Some(BlockedOn::Timer)
                    &&& !after.tasks[task as int].timer_fired
                },
                Err(e) => step == Err::<Step, JournalError>(e) && after.tasks == w.tasks,
            }
        }),
{
    law_sleep_arms_its_timer(w, task, ticks, script);
}

/// Send instructions send the eight bytes of the value, at once or with their
/// delay, and the program goes on whatever becomes of the message.
pub proof fn law_send_instructions_send_the_value(
    w: World,
    task: usize,
    to: usize,
    payload: u64,
    delay: u64,
    script: Seq<Reply>,
)
    ensures
        instruction_run(w, task, Instruction::SendTimed { to, payload, delay }, script) == (
            Ok::<Step, JournalError>(Step::Continue),
            true,
            bytes_sent(w, task, to, eight(payload), delay, None, script).1,
        ),
        instruction_run(w, task, Instruction::Send { to, payload }, script) == instruction_run(
            w,
            task,
            Instruction::SendTimed { to, payload, delay: 0 },
            script,
        ),
{
    law_words_are_eight_bytes(payload);
}

/// A receive puts what it received into the register and goes on. With nothing
/// due it journals the wait, parks the task and is tried again later.
pub proof fn law_receive_instruction_waits(w: World, task: usize, script: Seq<Reply>)
    requires
        task < w.tasks.len(),
    ensures
        ({
            let (value, mid) = received_now(w, task, script);
            let (step, moves, after) = instruction_run(w, task, Instruction::Receive, script);
            match value {
                Some(v) => {
                    &&& step == Ok::<Step, JournalError>(Step::Continue) && moves
                    &&& now_holds(w, after, task, v)
                    &&& after.log == mid.log && after.net == mid.net
                },
                None => {
                    &&& !moves
                    &&& deeds(after.log) == deeds(mid.log).push(
                        entry(task, Seq::empty(), Payload::Block),
                    )
                    &&& after.net == w.net
                    &&& match script[mid.log.len() as int]->Appended_0 {
                        Ok(_) => step == Ok::<Step, JournalError>(Step::Parked)
                            && after.tasks[task as int] == (TaskEntry {
                            blocked_on: Some(BlockedOn::Message),
                            ..w.tasks[task as int]
                        }),
                        Err(e) => step == Err::<Step, JournalError>(e) && after.tasks == w.tasks,
                    }
                },
            }
        }),
{
    law_receive_takes_and_journals(w, task, script);
    let now = script[w.log.len() as int]->Ticks_0;
    let (value, mid) = received_now(w, task, script);
    law_wait_parks_the_task(mid, task, script);
    law_receive_follows_the_window(w.net, task, now, false, 0);
    let bound = recv_bound(w.net, task, now);
    let word = if w.reorder_draw && bound is Some && bound->Some_0 > 0 {
        (script[w.log.len() as int + 1]->Word_0 % bound->Some_0) as u64
    } else {
        0u64
    };
    law_receive_follows_the_window(w.net, task, now, true, word);
}

/// A read asks storage. A value that it finds goes into the register; without
/// one the register stays. A failure is on record and the program goes on.
pub proof fn law_read_goes_to_the_register(w: World, task: usize, path: String, script: Seq<Reply>)
    requires
        task < w.tasks.len(),
    ensures
        ({
            let n = w.log.len() as int;
            let actor = ActorId(task as u32);
            let (step, moves, after) = instruction_run(
                w,
                task,
                Instruction::FsRead { path },
                script,
            );
            let read = Ask::FsRead { actor, path: path@ };
            &&& step == Ok::<Step, JournalError>(Step::Continue) && moves
            &&& match script[n]->Value_0 {
                Ok(Some(found)) => now_holds(w, after, task, found) && deeds(after.log) == deeds(
                    w.log,
                ).push(read).push(Ask::HeadForActor { actor }),
                Ok(None) => after.tasks == w.tasks && deeds(after.log) == deeds(w.log).push(
                    read,
                ).push(Ask::HeadForActor { actor }),
                Err(e) => after.tasks == w.tasks && deeds(after.log) == deeds(w.log).push(read)
                    && after.journal_error is Some,
            }
        }),
{
    law_read_reaches_storage(w, task, path@, script);
}

/// A flush asks storage to flush. A failure is on record and the program goes
/// on.
pub proof fn law_flush_instruction_flushes(w: World, task: usize, script: Seq<Reply>)
    ensures
        ({
            let (step, moves, after) = instruction_run(w, task, Instruction::FsFsync, script);
            &&& step == Ok::<Step, JournalError>(Step::Continue) && moves
            &&& deeds(after.log) == deeds(w.log).push(
                Ask::FsFsync { actor: ActorId(task as u32) },
            )
            &&& after.tasks == w.tasks
            &&& after.journal_error == on_record(
                w.journal_error,
                script[w.log.len() as int]->Appended_0,
            )
        }),
{
    law_flush_reaches_storage(w, task, script);
}

/// A crash is journaled and crashes storage.
pub proof fn law_crash_instruction_crashes(w: World, task: usize, script: Seq<Reply>)
    ensures
        ({
            let (step, moves, after) = instruction_run(w, task, Instruction::FsCrash, script);
            &&& step == Ok::<Step, JournalError>(Step::Continue) && moves
            &&& deeds(after.log) == deeds(w.log).push(
                crash_entry(task, Crash::DropAllUnsynced),
            ).push(Ask::FsCrash { journaled: w.fs_journaling is Some })
            &&& after.tasks == w.tasks
        }),
{
    law_crash_reaches_storage(w, task, script);
}

/// A write asks storage to write. A failure is on record and the program goes
/// on.
pub proof fn law_write_instruction_writes(
    w: World,
    task: usize,
    path: String,
    value: u64,
    script: Seq<Reply>,
)
    ensures
        ({
            let (step, moves, after) = instruction_run(
                w,
                task,
                Instruction::FsWrite { path, value },
                script,
            );
            let (answer, mid) = value_written(w, task, path@, value, script);
            &&& step == Ok::<Step, JournalError>(Step::Continue) && moves
            &&& after.log == mid.log && after.log[w.log.len() as int].0 == (Ask::FsWrite {
                actor: ActorId(task as u32),
                path: path@,
                value,
            })
            &&& answer is Err ==> after.journal_error is Some
            &&& answer is Ok ==> after == mid
        }),
{
    law_write_reaches_storage(w, task, path@, value, script);
}

/// A program executes its instructions in order: a poll executes the one at its
/// place and moves past it, unless the instruction waits to be tried again. It
/// ends with its last instruction, with an instruction that finishes it, and
/// with a failed one, which is on record.
pub proof fn law_program_runs_in_order(
    w: World,
    task: usize,
    program: Seq<Instruction>,
    at: nat,
    script: Seq<Reply>,
)
    ensures
        ({
            let (ended, next, after) = program_polled(w, task, program, at, script);
            if at >= program.len() {
                ended && next == at && after == w
            } else {
                let (step, moves, mid) = instruction_run(w, task, program[at as int], script);
                &&& next == if moves {
                    at + 1
                } else {
                    at
                }
                &&& after.log == mid.log && after.tasks == mid.tasks && after.net == mid.net
                &&& ended <==> step is Err || step == Ok::<Step, JournalError>(Step::Finished)
                &&& step is Ok ==> after == mid
                &&& step matches Err(e) ==> after.journal_error == if mid.journal_error is Some {
                    mid.journal_error
                } else {
                    Some(e)
                }
            }
        }),
{
    reveal(program_polled);
}

} // verus!
