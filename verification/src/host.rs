//! The world around the simulation: journal, virtual time, seed streams,
//! storage, scheduler and monitor.
//!
//! The executor asks this world questions and acts on the answers. Nothing is
//! assumed of an answer. The history of a world, its questions and answers in
//! order, is the log over which contracts say exactly what is asked, and what
//! follows from the answers.

use crate::config::{Crash, CrashOperation, JournalingMode, Policy};
use crate::ids::{ActorId, EntryHash};
use crate::journal::{drafts, Draft, EntryKind, JournalError, Record};
use crate::runtime::OnlineAction;
use vstd::prelude::*;

verus! {

/// A seed stream of the run.
#[derive(Debug, Clone, Copy, PartialEq, Eq, Structural)]
pub enum SeedStream {
    /// Network draws.
    Net,
    /// Storage draws.
    Fs,
}

/// A fired timer.
#[derive(Debug, Clone, Copy, PartialEq, Eq)]
pub struct TimerFired {
    /// Task that armed it.
    pub task: usize,
    /// Entry that armed it.
    pub enabler: Option<EntryHash>,
}

/// Why a strict replay rejects a run.
#[derive(Debug, Clone, Copy, PartialEq, Eq, Structural)]
pub enum ReplayViolation {
    /// The recorded decisions ran out.
    Exhausted {
        /// Step without decision.
        step: usize,
    },
    /// A recorded decision points outside the ready list.
    OutOfRange {
        /// Step of the decision.
        step: usize,
        /// The decision.
        decision: usize,
        /// Length of the ready list.
        ready: usize,
    },
    /// Recorded decisions are left over.
    Trailing {
        /// Decisions that were used.
        consumed: usize,
        /// Decisions that were recorded.
        recorded: usize,
    },
}

/// A defect of the journal.
#[derive(Debug, Clone, Copy, PartialEq, Eq, Structural)]
pub enum MonitorIssue {
    /// The journal holds another number of an actor's entries than passed the
    /// boundary.
    CoverageMismatch {
        /// The actor.
        actor: ActorId,
        /// Entries in the journal.
        journaled: u64,
        /// Entries that passed the boundary.
        counted: u64,
    },
    /// The journal breaks one of its own rules.
    Defect {
        /// Number of the rule.
        rule: u64,
    },
}

/// Questions with their answers, in order.
pub type History = Seq<(Ask, Reply)>;

/// What the executor asks of its world.
///
/// Trusted: a world is what its users make it, and nothing is assumed of an
/// answer. What is believed of an implementation is that [`Host::asked`] is its
/// history: every call adds the question with its arguments, and the answer
/// that it returned, and nothing else does.
pub trait Host {
    /// What the world was asked so far, with the answers. Only contracts speak of
    /// it; it is never called.
    spec fn asked(&self) -> History;

    /// Append an entry to the journal.
    fn append(&mut self, record: &Record) -> (answer: Result<EntryHash, JournalError>)
        ensures
            final(self).asked() == old(self).asked().push(
                (Ask::Append { record: record@ }, Reply::Appended(answer)),
            ),
    ;

    /// Append entries to the journal in order; all or nothing.
    fn append_batch(&mut self, batch: &Vec<Record>) -> (answer: Result<
        Vec<EntryHash>,
        JournalError,
    >)
        ensures
            final(self).asked() == old(self).asked().push(
                (Ask::AppendBatch { batch: drafts(batch@) }, Reply::Batch(hash_views(answer))),
            ),
    ;

    /// Number of journal entries.
    fn journal_len(&mut self) -> (answer: usize)
        ensures
            final(self).asked() == old(self).asked().push(
                (Ask::JournalLen, Reply::Count(answer)),
            ),
    ;

    /// An actor's latest journal entry.
    fn head_for_actor(&mut self, actor: ActorId) -> (answer: Option<EntryHash>)
        ensures
            final(self).asked() == old(self).asked().push(
                (Ask::HeadForActor { actor }, Reply::Head(answer)),
            ),
    ;

    /// Encoded vector clock of a journal entry.
    fn entry_clock(&mut self, id: EntryHash) -> (answer: Option<Vec<u8>>)
        ensures
            final(self).asked() == old(self).asked().push(
                (Ask::EntryClock { id }, Reply::Bytes(byte_views(answer))),
            ),
    ;

    /// Current virtual time.
    fn now(&mut self) -> (answer: u64)
        ensures
            final(self).asked() == old(self).asked().push(
                (Ask::Now, Reply::Ticks(answer)),
            ),
    ;

    /// Arm a timer for a task.
    fn set_timer(&mut self, ticks: u64, task: usize, enabler: Option<EntryHash>)
        ensures
            final(self).asked() == old(self).asked().push(
                (Ask::SetTimer { ticks, task, enabler }, Reply::Nothing),
            ),
    ;

    /// Deadline of the next timer.
    fn next_deadline(&mut self) -> (answer: Option<u64>)
        ensures
            final(self).asked() == old(self).asked().push(
                (Ask::NextDeadline, Reply::Deadline(answer)),
            ),
    ;

    /// Move virtual time without firing timers.
    fn advance_to(&mut self, time: u64)
        ensures
            final(self).asked() == old(self).asked().push(
                (Ask::AdvanceTo { time }, Reply::Nothing),
            ),
    ;

    /// Move virtual time and fire the timers that are due.
    fn advance_to_firing(&mut self, time: u64) -> (answer: Vec<TimerFired>)
        ensures
            final(self).asked() == old(self).asked().push(
                (Ask::AdvanceToFiring { time }, Reply::Fired(answer@)),
            ),
    ;

    /// Move virtual time to the next deadline and fire its timers.
    fn advance_firing(&mut self) -> (answer: Vec<TimerFired>)
        ensures
            final(self).asked() == old(self).asked().push(
                (Ask::AdvanceFiring, Reply::Fired(answer@)),
            ),
    ;

    /// Word of a seed stream at an offset.
    fn draw(&mut self, stream: SeedStream, offset: u64) -> (answer: u64)
        ensures
            final(self).asked() == old(self).asked().push(
                (Ask::Draw { stream, offset }, Reply::Word(answer)),
            ),
    ;

    /// Seed of a labelled application stream.
    fn stream_seed(&mut self, label: &str) -> (answer: [u8; 32])
        ensures
            final(self).asked() == old(self).asked().push(
                (Ask::StreamSeed { label: label@ }, Reply::Seed(answer)),
            ),
    ;

    /// Create the seed tree and the scheduler.
    fn open_scheduler(
        &mut self,
        seed: EntryHash,
        policy: Policy,
        replay: &Vec<usize>,
        fallback: Policy,
        strict: bool,
    )
        ensures
            final(self).asked() == old(self).asked().push(
                (
                    Ask::OpenScheduler { seed, policy, replay: replay@, fallback, strict },
                    Reply::Nothing,
                ),
            ),
    ;

    /// Create storage with its budgets and its crash model.
    fn fs_open(&mut self, extent: u64, resident: Option<u64>, mode: Option<JournalingMode>)
        ensures
            final(self).asked() == old(self).asked().push(
                (Ask::FsOpen { extent, resident, mode }, Reply::Nothing),
            ),
    ;

    /// Write a value to storage and journal the write.
    fn fs_write(&mut self, actor: ActorId, path: &str, value: u64) -> (answer: Result<
        EntryHash,
        JournalError,
    >)
        ensures
            final(self).asked() == old(self).asked().push(
                (Ask::FsWrite { actor, path: path@, value }, Reply::Appended(answer)),
            ),
    ;

    /// Flush storage and journal the flush.
    fn fs_fsync(&mut self, actor: ActorId) -> (answer: Result<EntryHash, JournalError>)
        ensures
            final(self).asked() == old(self).asked().push(
                (Ask::FsFsync { actor }, Reply::Appended(answer)),
            ),
    ;

    /// Read a value from storage and journal the read.
    fn fs_read(&mut self, actor: ActorId, path: &str) -> (answer: Result<Option<u64>, JournalError>)
        ensures
            final(self).asked() == old(self).asked().push(
                (Ask::FsRead { actor, path: path@ }, Reply::Value(answer)),
            ),
    ;

    /// Crash storage, replaying its write-ahead journal or not.
    fn fs_crash(&mut self, journaled: bool)
        ensures
            final(self).asked() == old(self).asked().push(
                (Ask::FsCrash { journaled }, Reply::Nothing),
            ),
    ;

    /// Apply a crash operation to storage; an error carries the reason.
    fn fs_apply(&mut self, operation: &CrashOperation) -> (answer: Result<(), u64>)
        ensures
            final(self).asked() == old(self).asked().push(
                (Ask::FsApply { operation: operation@ }, Reply::Applied(answer)),
            ),
    ;

    /// Whether the scheduler rewards novelty.
    fn novelty_active(&mut self) -> (answer: bool)
        ensures
            final(self).asked() == old(self).asked().push(
                (Ask::NoveltyActive, Reply::Flag(answer)),
            ),
    ;

    /// Tell the scheduler of a journal entry.
    fn entry_emitted(
        &mut self,
        actor: ActorId,
        kind: EntryKind,
        task: usize,
        signature: Option<u64>,
    )
        ensures
            final(self).asked() == old(self).asked().push(
                (Ask::EntryEmitted { actor, kind, task, signature }, Reply::Nothing),
            ),
    ;

    /// Let the scheduler choose a position of the ready list.
    fn choose_ready(&mut self, ready: &Vec<usize>, step: usize) -> (answer: Result<
        usize,
        ReplayViolation,
    >)
        ensures
            final(self).asked() == old(self).asked().push(
                (Ask::ChooseReady { ready: ready@, step }, Reply::Choice(answer)),
            ),
    ;

    /// Whether the scheduler records step traces.
    fn trace_active(&mut self) -> (answer: bool)
        ensures
            final(self).asked() == old(self).asked().push(
                (Ask::TraceActive, Reply::Flag(answer)),
            ),
    ;

    /// Tell the scheduler where the journal stood after a step.
    fn note_step(&mut self, journal_len: usize)
        ensures
            final(self).asked() == old(self).asked().push(
                (Ask::NoteStep { journal_len }, Reply::Nothing),
            ),
    ;

    /// Choices that the scheduler made, by step.
    fn decisions(&mut self) -> (answer: Vec<usize>)
        ensures
            final(self).asked() == old(self).asked().push(
                (Ask::Decisions, Reply::Positions(answer@)),
            ),
    ;

    /// Whether a strict replay has decisions left.
    fn check_trailing(&mut self, consumed: usize) -> (answer: Option<ReplayViolation>)
        ensures
            final(self).asked() == old(self).asked().push(
                (Ask::CheckTrailing { consumed }, Reply::Trailing(answer)),
            ),
    ;

    /// Whether a step monitor is attached.
    fn has_monitor(&mut self) -> (answer: bool)
        ensures
            final(self).asked() == old(self).asked().push(
                (Ask::HasMonitor, Reply::Flag(answer)),
            ),
    ;

    /// Show the step monitor the journal from an entry on.
    fn monitor_step(&mut self, start: usize) -> (answer: OnlineAction)
        ensures
            final(self).asked() == old(self).asked().push(
                (Ask::MonitorStep { start }, Reply::Action(answer)),
            ),
    ;

    /// Audit the journal.
    fn audit(&mut self) -> (answer: Vec<MonitorIssue>)
        ensures
            final(self).asked() == old(self).asked().push(
                (Ask::Audit, Reply::Issues(answer@)),
            ),
    ;

    /// Hold the journal against the entry counts of the boundary.
    fn check_coverage(&mut self, entries: &Vec<(ActorId, u64)>) -> (answer: Vec<MonitorIssue>)
        ensures
            final(self).asked() == old(self).asked().push(
                (Ask::CheckCoverage { entries: entries@ }, Reply::Issues(answer@)),
            ),
    ;
}

/// A question.
pub enum Ask {
    Append { record: Draft },
    AppendBatch { batch: Seq<Draft> },
    JournalLen,
    HeadForActor { actor: ActorId },
    EntryClock { id: EntryHash },
    Now,
    SetTimer { ticks: u64, task: usize, enabler: Option<EntryHash> },
    NextDeadline,
    AdvanceTo { time: u64 },
    AdvanceToFiring { time: u64 },
    AdvanceFiring,
    Draw { stream: SeedStream, offset: u64 },
    StreamSeed { label: Seq<char> },
    OpenScheduler { seed: EntryHash, policy: Policy, replay: Seq<usize>, fallback: Policy, strict: bool },
    FsOpen { extent: u64, resident: Option<u64>, mode: Option<JournalingMode> },
    FsWrite { actor: ActorId, path: Seq<char>, value: u64 },
    FsFsync { actor: ActorId },
    FsRead { actor: ActorId, path: Seq<char> },
    FsCrash { journaled: bool },
    FsApply { operation: Crash },
    NoveltyActive,
    EntryEmitted { actor: ActorId, kind: EntryKind, task: usize, signature: Option<u64> },
    ChooseReady { ready: Seq<usize>, step: usize },
    TraceActive,
    NoteStep { journal_len: usize },
    Decisions,
    CheckTrailing { consumed: usize },
    HasMonitor,
    MonitorStep { start: usize },
    Audit,
    CheckCoverage { entries: Seq<(ActorId, u64)> },
}

/// An answer.
pub enum Reply {
    Appended(Result<EntryHash, JournalError>),
    Batch(Result<Seq<EntryHash>, JournalError>),
    Count(usize),
    Head(Option<EntryHash>),
    Bytes(Option<Seq<u8>>),
    Ticks(u64),
    Nothing,
    Deadline(Option<u64>),
    Fired(Seq<TimerFired>),
    Word(u64),
    Seed([u8; 32]),
    Value(Result<Option<u64>, JournalError>),
    Applied(Result<(), u64>),
    Flag(bool),
    Choice(Result<usize, ReplayViolation>),
    Positions(Seq<usize>),
    Trailing(Option<ReplayViolation>),
    Action(OnlineAction),
    Issues(Seq<MonitorIssue>),
}

/// The answers of a log, in order.
pub open spec fn follows(script: Seq<Reply>, log: Seq<(Ask, Reply)>) -> bool {
    &&& script.len() >= log.len()
    &&& forall|i: int| 0 <= i < log.len() ==> #[trigger] script[i] == log[i].1
}

/// The longer log starts with the shorter one.
pub open spec fn extends(longer: Seq<(Ask, Reply)>, shorter: Seq<(Ask, Reply)>) -> bool {
    &&& longer.len() >= shorter.len()
    &&& forall|i: int| 0 <= i < shorter.len() ==> #[trigger] longer[i] == shorter[i]
}

/// Answers that follow a log follow every log that it starts with.
pub broadcast proof fn lemma_follows(
    script: Seq<Reply>,
    longer: Seq<(Ask, Reply)>,
    shorter: Seq<(Ask, Reply)>,
)
    requires
        #[trigger] follows(script, longer),
        #[trigger] extends(longer, shorter),
    ensures
        follows(script, shorter),
{
    assert forall|i: int| 0 <= i < shorter.len() implies #[trigger] script[i] == shorter[i].1 by {
        assert(longer[i] == shorter[i]);
    }
}

/// A log starts with what the logs that it starts with start with.
pub broadcast proof fn lemma_extends(
    longest: Seq<(Ask, Reply)>,
    longer: Seq<(Ask, Reply)>,
    shorter: Seq<(Ask, Reply)>,
)
    requires
        #[trigger] extends(longest, longer),
        #[trigger] extends(longer, shorter),
    ensures
        extends(longest, shorter),
{
    assert forall|i: int| 0 <= i < shorter.len() implies #[trigger] longest[i] == shorter[i] by {
        assert(longer[i] == shorter[i]);
    }
}

/// The answers of a log.
pub open spec fn replies(log: Seq<(Ask, Reply)>) -> Seq<Reply> {
    log.map_values(|e: (Ask, Reply)| e.1)
}

/// Every log has a script that follows it: its own answers. So a statement about
/// every script that follows a log always speaks of at least one.
pub proof fn law_every_log_has_its_script(log: Seq<(Ask, Reply)>)
    ensures
        follows(replies(log), log),
{
}

/// The hashes of an appended batch.
pub open spec fn hash_views(answer: Result<Vec<EntryHash>, JournalError>) -> Result<
    Seq<EntryHash>,
    JournalError,
> {
    match answer {
        Ok(ids) => Ok(ids@),
        Err(e) => Err(e),
    }
}

/// The bytes of an answer.
pub open spec fn byte_views(answer: Option<Vec<u8>>) -> Option<Seq<u8>> {
    match answer {
        Some(bytes) => Some(bytes@),
        None => None,
    }
}

} // verus!
