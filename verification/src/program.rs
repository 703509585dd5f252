//! Instruction programs as cooperative tasks.
//!
//! Each poll executes exactly one instruction. A blocking `Sleep` or `Receive`
//! parks the task; resume continues past the parked instruction without
//! executing it again, except that a `Receive` that found nothing is tried
//! again.

use crate::executor::{Boundary, ExecutorShared};
use crate::host::{extends, follows, Host, Reply};
use crate::journal::{JournalError, Payload};
use crate::model::{
    assert_payload, clock_read, crashed, ending_payload, flushed, input_payload, message_parked,
    noted, outcome_payload, plain_appended, received_now, register_set, scalar_sent, sleep_parked,
    task_appended, value_read, value_written, World,
};
use crate::runtime::Instruction;
use vstd::prelude::*;

verus! {

broadcast use {crate::host::lemma_extends, crate::host::lemma_follows};

/// One outcome of executing a single instruction.
#[derive(Debug, Clone, Copy, PartialEq, Eq, Structural)]
pub enum Step {
    /// The instruction completed and the task is still runnable.
    Continue,
    /// The instruction parked the task (blocked on a timer or a message).
    Parked,
    /// The instruction finished the task.
    Finished,
}

/// A step where a failure ends the program.
pub open spec fn step_or(answer: Result<(), JournalError>, step: Step) -> Result<
    Step,
    JournalError,
> {
    match answer {
        Ok(_) => Ok(step),
        Err(e) => Err(e),
    }
}

/// A register that is set when nothing failed.
pub open spec fn set_if(answer: Result<(), JournalError>, w: World, task: usize, value: u64) -> (
    Result<Step, JournalError>,
    World,
) {
    match answer {
        Ok(_) => (Ok(Step::Continue), register_set(w, task, value)),
        Err(e) => (Err(e), w),
    }
}

/// A failure that is recorded while the program goes on.
pub open spec fn go_on<T>(answer: Result<T, JournalError>, w: World) -> World {
    match answer {
        Ok(_) => w,
        Err(e) => noted(w, e),
    }
}

/// Execute one instruction. The flag tells whether the program moves past it.
pub open spec fn instruction_run(
    w: World,
    task: usize,
    instruction: Instruction,
    script: Seq<Reply>,
) -> (Result<Step, JournalError>, bool, World) {
    match instruction {
        Instruction::Yield => {
            let (answer, w1) = plain_appended(w, task, Payload::Block, script);
            (step_or(answer, Step::Continue), true, w1)
        },
        Instruction::Sleep(ticks) => {
            let (answer, w1) = sleep_parked(w, task, ticks, script);
            (step_or(answer, Step::Parked), true, w1)
        },
        Instruction::Send { to, payload } => (
            Ok(Step::Continue),
            true,
            scalar_sent(w, task, to, payload, 0, None, script).1,
        ),
        Instruction::SendTimed { to, payload, delay } => (
            Ok(Step::Continue),
            true,
            scalar_sent(w, task, to, payload, delay, None, script).1,
        ),
        Instruction::Receive => {
            let (value, w1) = received_now(w, task, script);
            match value {
                Some(v) => (Ok(Step::Continue), true, register_set(w1, task, v)),
                None => {
                    let (answer, w2) = message_parked(w1, task, script);
                    (step_or(answer, Step::Parked), false, w2)
                },
            }
        },
        Instruction::SetValue(value) => {
            let (answer, w1) = plain_appended(w, task, input_payload(0, 0, value), script);
            let (step, w2) = set_if(answer, w1, task, value);
            (step, true, w2)
        },
        Instruction::Input { generator, replay, value } => {
            let (answer, w1) = plain_appended(
                w,
                task,
                input_payload(generator, replay, value),
                script,
            );
            let (step, w2) = set_if(answer, w1, task, value);
            (step, true, w2)
        },
        Instruction::ReadClock => {
            let (answer, w1) = clock_read(w, task, script);
            match answer {
                Ok(now) => (Ok(Step::Continue), true, register_set(w1, task, now)),
                Err(e) => (Err(e), true, w1),
            }
        },
        Instruction::FsWrite { path, value } => {
            let (answer, w1) = value_written(w, task, path@, value, script);
            (Ok(Step::Continue), true, go_on(answer, w1))
        },
        Instruction::FsFsync => {
            let (answer, w1) = flushed(w, task, script);
            (Ok(Step::Continue), true, go_on(answer, w1))
        },
        Instruction::FsRead { path } => {
            let (answer, w1) = value_read(w, task, path@, script);
            match answer {
                Ok(Some(value)) => (Ok(Step::Continue), true, register_set(w1, task, value)),
                Ok(None) => (Ok(Step::Continue), true, w1),
                Err(e) => (Ok(Step::Continue), true, noted(w1, e)),
            }
        },
        Instruction::FsCrash => (Ok(Step::Continue), true, crashed(w, task, script).1),
        Instruction::Assert(passed) => {
            let (answer, w1) = plain_appended(w, task, assert_payload(passed), script);
            (step_or(answer, Step::Continue), true, w1)
        },
        Instruction::Outcome => {
            let (answer, w1) = task_appended(
                w,
                task,
                Seq::empty(),
                outcome_payload(w.tasks[task as int].register),
                script,
            );
            (Ok(Step::Continue), true, go_on(answer, w1))
        },
        Instruction::Done => {
            let (answer, w1) = plain_appended(w, task, ending_payload(), script);
            (step_or(answer, Step::Finished), true, w1)
        },
    }
}

/// Execute the next instruction of a program: the outcome, the place in the
/// program afterwards, and the state.
pub open spec fn executed(
    w: World,
    task: usize,
    program: Seq<Instruction>,
    at: nat,
    script: Seq<Reply>,
) -> (Result<Step, JournalError>, nat, World) {
    if at >= program.len() {
        (Ok(Step::Finished), at, w)
    } else {
        let (step, moves, w1) = instruction_run(w, task, program[at as int], script);
        (
            step,
            if moves {
                at + 1
            } else {
                at
            },
            w1,
        )
    }
}

/// Poll a program: whether it ended, its place, and the state. A failed append
/// ends the program and is recorded.
#[verifier::opaque]
pub open spec fn program_polled(
    w: World,
    task: usize,
    program: Seq<Instruction>,
    at: nat,
    script: Seq<Reply>,
) -> (bool, nat, World) {
    let (step, next, w1) = executed(w, task, program, at, script);
    match step {
        Ok(Step::Finished) => (true, next, w1),
        Ok(_) => (false, next, w1),
        Err(e) => (true, next, noted(w1, e)),
    }
}

/// A task executing one instruction program cooperatively.
#[derive(Debug)]
pub struct ProgramFuture {
    boundary: Boundary,
    program: Vec<Instruction>,
    at: usize,
}

impl ProgramFuture {
    /// The task.
    pub closed spec fn task(self) -> usize {
        self.boundary.task
    }

    /// The program.
    pub closed spec fn program(self) -> Seq<Instruction> {
        self.program@
    }

    /// Number of instructions behind the task.
    pub closed spec fn at(self) -> nat {
        self.at as nat
    }

    /// Start a program.
    pub fn new(boundary: Boundary, program: Vec<Instruction>) -> (future: ProgramFuture)
        ensures
            future.task() == boundary.task,
            future.program() == program@,
            future.at() == 0,
    {
        ProgramFuture { boundary, program, at: 0 }
    }

    /// Execute one instruction.
    fn run_instruction<H: Host>(
        boundary: &Boundary,
        shared: &mut ExecutorShared<H>,
        instruction: &Instruction,
    ) -> (r: (Result<Step, JournalError>, bool))
        requires
            boundary.task < old(shared)@.tasks.len(),
        ensures
            extends(final(shared)@.log, old(shared)@.log),
            final(shared)@.tasks.len() == old(shared)@.tasks.len(),
            final(shared)@.ready == old(shared)@.ready,
            forall|script: Seq<Reply>|
                follows(script, final(shared)@.log) ==> #[trigger] instruction_run(
                    old(shared)@,
                    boundary.task,
                    *instruction,
                    script,
                ) == (r.0, r.1, final(shared)@),
    {
        let step: Result<(), JournalError> = match instruction {
            Instruction::Yield => boundary.yield_block(shared),
            Instruction::Sleep(ticks) => {
                return match boundary.park_sleep(shared, *ticks) {
                    Ok(()) => (Ok(Step::Parked), true),
                    Err(e) => (Err(e), true),
                };
            },
            Instruction::Send { to, payload } => {
                // A failed append is recorded inside the send.
                let _ = boundary.send(shared, *to, *payload);
                Ok(())
            },
            Instruction::SendTimed { to, payload, delay } => {
                let _ = boundary.send_timed(shared, *to, *payload, *delay);
                Ok(())
            },
            Instruction::Receive => {
                match boundary.recv_now(shared) {
                    Some(value) => {
                        boundary.set_register(shared, value);
                        Ok(())
                    },
                    None => {
                        return match boundary.park_message(shared) {
                            Ok(()) => (Ok(Step::Parked), false),
                            Err(e) => (Err(e), false),
                        };
                    },
                }
            },
            Instruction::SetValue(value) => {
                match boundary.input_step(shared, 0, 0, *value) {
                    Ok(()) => {
                        boundary.set_register(shared, *value);
                        Ok(())
                    },
                    Err(e) => Err(e),
                }
            },
            Instruction::Input { generator, replay, value } => {
                match boundary.input_step(shared, *generator, *replay, *value) {
                    Ok(()) => {
                        boundary.set_register(shared, *value);
                        Ok(())
                    },
                    Err(e) => Err(e),
                }
            },
            Instruction::ReadClock => {
                match boundary.read_clock(shared) {
                    Ok(now) => {
                        boundary.set_register(shared, now);
                        Ok(())
                    },
                    Err(e) => Err(e),
                }
            },
            Instruction::FsWrite { path, value } => {
                if let Err(error) = boundary.write(shared, path.as_str(), *value) {
                    boundary.record_journal_error(shared, error);
                }
                Ok(())
            },
            Instruction::FsFsync => {
                if let Err(error) = boundary.fsync(shared) {
                    boundary.record_journal_error(shared, error);
                }
                Ok(())
            },
            Instruction::FsRead { path } => {
                match boundary.read(shared, path.as_str()) {
                    Ok(Some(value)) => boundary.set_register(shared, value),
                    Ok(None) => {},
                    Err(error) => boundary.record_journal_error(shared, error),
                }
                Ok(())
            },
            Instruction::FsCrash => {
                let _ = boundary.crash(shared);
                Ok(())
            },
            Instruction::Assert(passed) => boundary.assert_entry(shared, *passed),
            Instruction::Outcome => {
                let value: u64 = boundary.register(shared);
                if let Err(error) = boundary.outcome(shared, value) {
                    boundary.record_journal_error(shared, error);
                }
                Ok(())
            },
            Instruction::Done => {
                return match boundary.outcome_done(shared) {
                    Ok(()) => (Ok(Step::Finished), true),
                    Err(e) => (Err(e), true),
                };
            },
        };
        match step {
            Ok(()) => (Ok(Step::Continue), true),
            Err(e) => (Err(e), true),
        }
    }

    /// Execute the next instruction, returning the step outcome.
    pub fn execute_one<H: Host>(&mut self, shared: &mut ExecutorShared<H>) -> (r: Result<
        Step,
        JournalError,
    >)
        requires
            old(self).task() < old(shared)@.tasks.len(),
        ensures
            final(self).task() == old(self).task(),
            final(self).program() == old(self).program(),
            extends(final(shared)@.log, old(shared)@.log),
            final(shared)@.tasks.len() == old(shared)@.tasks.len(),
            final(shared)@.ready == old(shared)@.ready,
            forall|script: Seq<Reply>|
                follows(script, final(shared)@.log) ==> #[trigger] executed(
                    old(shared)@,
                    old(self).task(),
                    old(self).program(),
                    old(self).at(),
                    script,
                ) == (r, final(self).at(), final(shared)@),
    {
        if self.at >= self.program.len() {
            return Ok(Step::Finished);
        }
        let (step, moves): (Result<Step, JournalError>, bool) = ProgramFuture::run_instruction(
            &self.boundary,
            shared,
            &self.program[self.at],
        );
        if moves {
            self.at = self.at + 1;
        }
        step
    }

    /// Execute the next instruction; the result tells whether the program
    /// ended. A journal append failure ends it and is recorded, so the run
    /// surfaces it.
    pub fn poll<H: Host>(&mut self, shared: &mut ExecutorShared<H>) -> (ended: bool)
        requires
            old(self).task() < old(shared)@.tasks.len(),
        ensures
            final(self).task() == old(self).task(),
            final(self).program() == old(self).program(),
            extends(final(shared)@.log, old(shared)@.log),
            final(shared)@.tasks.len() == old(shared)@.tasks.len(),
            final(shared)@.ready == old(shared)@.ready,
            forall|script: Seq<Reply>|
                follows(script, final(shared)@.log) ==> #[trigger] program_polled(
                    old(shared)@,
                    old(self).task(),
                    old(self).program(),
                    old(self).at(),
                    script,
                ) == (ended, final(self).at(), final(shared)@),
    {
        proof {
            reveal(program_polled);
        }
        match self.execute_one(shared) {
            Ok(Step::Finished) => true,
            Ok(_) => false,
            Err(error) => {
                self.boundary.record_journal_error(shared, error);
                true
            },
        }
    }
}

} // verus!
