//! Task boundary of the deterministic executor.
//!
//! Every effect of a task passes through its [`Boundary`]: it is journaled,
//! counted against the task's coverage, and subjected to the configured
//! faults. All journal writes funnel through [`ExecutorShared::journal_append`]
//! and [`ExecutorShared::journal_append_batch`], so the coverage ledger and the
//! single-shot error slot stay exact.

use crate::bytes::{le, u64_le, u64_of_le};
use crate::config::{CrashOperation, JournalingMode, SimFault, SwarmConfig};
use crate::digest::blake3_hash;
use crate::dns::{resolved, DnsTable};
use crate::host::{byte_views, extends, follows, Ask, Host, Reply, SeedStream};
use crate::ids::{ActorId, EntryHash, MessageId, StreamId};
use crate::journal::{
    draft, CanonicalValue, EntryKind, EntryPayload, FaultModel, FaultPayload, JournalError, Payload,
    PayloadFault, Record,
};
use crate::model::{
    actor_of, appended, assert_digest, assert_payload, bumped, bytes_sent, carried, clock_read,
    counted, crash_applied, crash_class, crash_payload, crash_sampled, crashed, delay_drawn,
    delivered, drop_payload, duplicates, ending_payload, fault_target, flushed, fs_crashed,
    fs_drawn, identified, injection_for, input_payload, joined, kept, loss_kept, marked,
    message_parked, message_taken, net_chance, net_drawn, net_drawn_below, noted, notified,
    origin_kept, outcome_digest, outcome_payload, padded, parked, partition_applied,
    partition_payload, plain_appended, receive_polled, received_now, recv_kept, recv_payload,
    refusal_kept, register_set, same_tasks, sampled_crash, scalar_sent, send_injected, settled,
    signed, sleep_begun, sleep_parked, sleep_polled, spawned, swarm_decided, task_appended,
    timer_payload, told, transmitted, value_read, value_written, word_drawn, write_injected,
    BlockedOn, SendFault, SendOutcome, SwarmAction, TaskEntry, World,
};
use crate::net::{
    add_ticks, envelope_of, first_ready, policy_of, Envelope, FaultSpec, Message, NetError,
    QueueFullPolicy, SimNet,
};
use crate::origin::{OriginLog, OriginSource};
use crate::probability::Probability;
use crate::stream::{bump, find_stream, label_of, next_count, read_word, stream_label, StreamState};
use vstd::prelude::*;

pub mod run;
pub mod simulation;

verus! {

broadcast use {crate::host::lemma_extends, crate::host::lemma_follows};

/// State shared by the tasks of a run.
pub struct ExecutorShared<H: Host> {
    pub(crate) host: H,
    pub(crate) net: SimNet,
    /// Config-driven hostname-to-actor table for deterministic resolution.
    pub(crate) dns: DnsTable,
    pub(crate) tasks: Vec<TaskEntry>,
    pub(crate) ready: Vec<usize>,
    pub(crate) dropped_events: Vec<EntryHash>,
    /// Swarm probabilities consumed by the boundary.
    pub(crate) swarm: SwarmConfig,
    /// Offset of the next network draw.
    pub(crate) net_offset: u64,
    /// Offset of the next storage draw.
    pub(crate) fs_offset: u64,
    /// Serve a seeded draw inside the configured reorder window.
    pub(crate) reorder_draw: bool,
    /// Longest message that the journal takes.
    pub(crate) message_limit: u64,
    /// Per-task count of sends; feeds the message identity.
    pub(crate) send_seq: Vec<u64>,
    /// Per-actor entry counts for the coverage check, ordered by actor.
    pub(crate) coverage: Vec<(u32, u64)>,
    /// Distinct crash-state classes applied this run (campaign budget).
    pub(crate) fault_classes_used: Vec<u64>,
    /// Event ids whose scheduled fault injections took effect.
    pub(crate) applied_faults: Vec<EntryHash>,
    /// Effect origins side channel keyed by entry hash.
    pub(crate) origins: OriginLog,
    /// Fault schedule applied at exact causal positions.
    pub(crate) fault_schedule: Vec<SimFault>,
    /// Configured journaling-FS crash model.
    pub(crate) fs_journaling: Option<JournalingMode>,
    /// First append failure from a path that cannot return it.
    pub(crate) journal_error: Option<JournalError>,
    /// One random stream per task and stream number, seeded lazily.
    pub(crate) streams: Vec<StreamState>,
}

impl<H: Host> View for ExecutorShared<H> {
    type V = World;

    closed spec fn view(&self) -> World {
        World {
            log: self.host.asked(),
            net: self.net@,
            dns: self.dns@,
            tasks: self.tasks@,
            ready: self.ready@,
            dropped_events: self.dropped_events@,
            swarm: self.swarm,
            net_offset: self.net_offset,
            fs_offset: self.fs_offset,
            reorder_draw: self.reorder_draw,
            message_limit: self.message_limit,
            send_seq: self.send_seq@,
            coverage: self.coverage@,
            fault_classes_used: self.fault_classes_used@,
            applied_faults: self.applied_faults@,
            origins: self.origins@,
            fault_schedule: self.fault_schedule@,
            fs_journaling: self.fs_journaling,
            journal_error: self.journal_error,
            streams: self.streams@,
        }
    }
}

/// The actor of a task: its number modulo the actor range.
pub fn task_actor(task: usize) -> (actor: ActorId)
    ensures
        actor == actor_of(task),
{
    ActorId(
        #[verifier::truncate]
        (task as u32),
    )
}

proof fn lemma_bumped_at(counts: Seq<(u32, u64)>, at: int, actor: u32)
    requires
        0 <= at <= counts.len(),
        forall|j: int| at <= j < counts.len() ==> (#[trigger] counts[j]).0 > actor,
        at > 0 ==> counts[at - 1].0 <= actor,
    ensures
        bumped(counts, actor) == (if at > 0 && counts[at - 1].0 == actor {
            counts.update(at - 1, (actor, next_count(counts[at - 1].1)))
        } else {
            counts.insert(at, (actor, 1u64))
        }),
    decreases counts.len(),
{
    if counts.len() == 0 {
        assert(counts.insert(at, (actor, 1u64)) =~= seq![(actor, 1u64)]);
    } else if at == counts.len() {
        if counts.last().0 == actor {
            assert(counts.drop_last().push((actor, next_count(counts.last().1)))
                =~= counts.update(at - 1, (actor, next_count(counts[at - 1].1))));
        } else {
            assert(counts.insert(at, (actor, 1u64)) =~= counts.push((actor, 1u64)));
        }
    } else {
        assert(counts[counts.len() - 1].0 > actor);
        let front = counts.drop_last();
        assert forall|j: int| at <= j < front.len() implies (#[trigger] front[j]).0 > actor by {
            assert(front[j] == counts[j]);
        }
        lemma_bumped_at(front, at, actor);
        if at > 0 && counts[at - 1].0 == actor {
            assert(front.update(at - 1, (actor, next_count(counts[at - 1].1))).push(counts.last())
                =~= counts.update(at - 1, (actor, next_count(counts[at - 1].1))));
        } else {
            assert(front.insert(at, (actor, 1u64)).push(counts.last()) =~= counts.insert(
                at,
                (actor, 1u64),
            ));
        }
    }
}

/// One more question: what the script says is what was answered.
pub proof fn lemma_told(before: World, ask: Ask, reply: Reply, after: World)
    requires
        after == (World { log: before.log.push((ask, reply)), ..before }),
    ensures
        extends(after.log, before.log),
        forall|script: Seq<Reply>|
            follows(script, after.log) ==> #[trigger] told(before, ask, script) == (reply, after),
{
    assert forall|script: Seq<Reply>| follows(script, after.log) implies #[trigger] told(
        before,
        ask,
        script,
    ) == (reply, after) by {
        assert(script[before.log.len() as int] == after.log[before.log.len() as int].1);
    }
}

impl<H: Host> ExecutorShared<H> {
    /// Count one entry that passed the boundary.
    fn note_journaled(&mut self, actor: ActorId)
        ensures
            final(self)@ == counted(old(self)@, actor),
    {
        let mut at: usize = self.coverage.len();
        while at > 0 && self.coverage[at - 1].0 > actor.0
            invariant
                at <= self.coverage@.len(),
                forall|j: int|
                    at <= j < self.coverage@.len() ==> (#[trigger] self.coverage@[j]).0 > actor.0,
            decreases at,
        {
            at = at - 1;
        }
        proof {
            lemma_bumped_at(self.coverage@, at as int, actor.0);
        }
        if at > 0 && self.coverage[at - 1].0 == actor.0 {
            let count: u64 = bump(self.coverage[at - 1].1);
            self.coverage.set(at - 1, (actor.0, count));
        } else {
            self.coverage.insert(at, (actor.0, 1));
        }
    }

    /// Append one entry and count it against the actor's coverage.
    pub fn journal_append(&mut self, record: &Record) -> (answer: Result<EntryHash, JournalError>)
        ensures
            extends(final(self)@.log, old(self)@.log),
            same_tasks(old(self)@, final(self)@),
            forall|script: Seq<Reply>|
                follows(script, final(self)@.log) ==> #[trigger] appended(
                    old(self)@,
                    record@,
                    script,
                ) == (answer, final(self)@),
    {
        let answer: Result<EntryHash, JournalError> = self.host.append(record);
        proof {
            lemma_told(
                old(self)@,
                Ask::Append { record: record@ },
                Reply::Appended(answer),
                self@,
            );
        }
        if answer.is_ok() {
            self.note_journaled(record.actor);
        }
        answer
    }

    /// Hash the vector-clock shape of a journaled entry into a stable word.
    ///
    /// Returns `None` when the entry is absent from the journal.
    fn entry_vc_signature(&mut self, id: EntryHash) -> (signature: Option<u64>)
        ensures
            extends(final(self)@.log, old(self)@.log),
            same_tasks(old(self)@, final(self)@),
            forall|script: Seq<Reply>|
                follows(script, final(self)@.log) ==> #[trigger] signed(old(self)@, id, script) == (
                    signature,
                    final(self)@,
                ),
    {
        let answer: Option<Vec<u8>> = self.host.entry_clock(id);
        proof {
            lemma_told(
                old(self)@,
                Ask::EntryClock { id },
                Reply::Bytes(byte_views(answer)),
                self@,
            );
        }
        match answer {
            None => None,
            Some(clock) => {
                let digest: [u8; 32] = blake3_hash(clock.as_slice());
                Some(u64_of_le(&digest, 8))
            },
        }
    }

    /// Forward an entry emission to the scheduler novelty model.
    ///
    /// The vector-clock signature is derived from the journaled entry, so the
    /// scheduler can reward novel branch patterns. A scheduler that does not
    /// seek novelty is told nothing, and no signature is computed for it.
    pub fn notify_entry(
        &mut self,
        actor: ActorId,
        kind: EntryKind,
        task: usize,
        id: Option<EntryHash>,
    )
        ensures
            extends(final(self)@.log, old(self)@.log),
            same_tasks(old(self)@, final(self)@),
            forall|script: Seq<Reply>|
                follows(script, final(self)@.log) ==> #[trigger] notified(
                    old(self)@,
                    actor,
                    kind,
                    task,
                    id,
                    script,
                ) == final(self)@,
    {
        let active: bool = self.host.novelty_active();
        proof {
            lemma_told(old(self)@, Ask::NoveltyActive, Reply::Flag(active), self@);
        }
        if !active {
            return;
        }
        let signature: Option<u64> = match id {
            Some(entry) => self.entry_vc_signature(entry),
            None => None,
        };
        let ghost before = self@;
        self.host.entry_emitted(actor, kind, task, signature);
        proof {
            lemma_told(
                before,
                Ask::EntryEmitted { actor, kind, task, signature },
                Reply::Nothing,
                self@,
            );
        }
    }

    /// The network.
    pub fn network(&mut self) -> (net: &mut SimNet)
        ensures
            (*net)@ == old(self)@.net,
            final(self)@ == (World { net: (*final(net))@, ..old(self)@ }),
    {
        &mut self.net
    }

    /// First append failure from a path that cannot return it.
    pub fn journal_error(&self) -> (error: Option<JournalError>)
        ensures
            error == self@.journal_error,
    {
        self.journal_error
    }

    /// Record a failed append from a call site that cannot return it. The
    /// first failure wins.
    pub fn record_journal_error(&mut self, error: JournalError)
        ensures
            final(self)@ == noted(old(self)@, error),
    {
        if self.journal_error.is_none() {
            self.journal_error = Some(error);
        }
    }

    /// Draw the next word of the network stream.
    fn net_draw(&mut self) -> (word: u64)
        ensures
            extends(final(self)@.log, old(self)@.log),
            same_tasks(old(self)@, final(self)@),
            forall|script: Seq<Reply>|
                follows(script, final(self)@.log) ==> #[trigger] net_drawn(old(self)@, script) == (
                    word,
                    final(self)@,
                ),
    {
        let word: u64 = self.host.draw(SeedStream::Net, self.net_offset);
        proof {
            lemma_told(
                old(self)@,
                Ask::Draw { stream: SeedStream::Net, offset: old(self)@.net_offset },
                Reply::Word(word),
                self@,
            );
        }
        self.net_offset = bump(self.net_offset);
        word
    }

    /// Draw the next word of the storage stream.
    fn fs_draw(&mut self) -> (word: u64)
        ensures
            extends(final(self)@.log, old(self)@.log),
            same_tasks(old(self)@, final(self)@),
            forall|script: Seq<Reply>|
                follows(script, final(self)@.log) ==> #[trigger] fs_drawn(old(self)@, script) == (
                    word,
                    final(self)@,
                ),
    {
        let word: u64 = self.host.draw(SeedStream::Fs, self.fs_offset);
        proof {
            lemma_told(
                old(self)@,
                Ask::Draw { stream: SeedStream::Fs, offset: old(self)@.fs_offset },
                Reply::Word(word),
                self@,
            );
        }
        self.fs_offset = bump(self.fs_offset);
        word
    }

    /// Draw a delay in `0 ..= max`; `u64::MAX` returns the raw draw.
    pub fn net_draw_delay(&mut self, max_delay_ticks: u64) -> (delay: u64)
        ensures
            extends(final(self)@.log, old(self)@.log),
            same_tasks(old(self)@, final(self)@),
            forall|script: Seq<Reply>|
                follows(script, final(self)@.log) ==> #[trigger] delay_drawn(
                    old(self)@,
                    max_delay_ticks,
                    script,
                ) == (delay, final(self)@),
    {
        let word: u64 = self.net_draw();
        if max_delay_ticks == u64::MAX {
            word
        } else {
            word % (max_delay_ticks + 1)
        }
    }

    /// Draw whether a chance hits. A chance of zero draws nothing.
    fn net_chance_hit(&mut self, chance: Probability) -> (hit: bool)
        ensures
            extends(final(self)@.log, old(self)@.log),
            same_tasks(old(self)@, final(self)@),
            forall|script: Seq<Reply>|
                follows(script, final(self)@.log) ==> #[trigger] net_chance(
                    old(self)@,
                    chance@,
                    script,
                ) == (hit, final(self)@),
    {
        if !chance.is_positive() {
            return false;
        }
        let word: u64 = self.net_draw();
        chance.hit(word)
    }

    /// Draw below a bound. No bound draws nothing.
    fn net_draw_below(&mut self, bound: Option<u64>) -> (word: u64)
        ensures
            extends(final(self)@.log, old(self)@.log),
            same_tasks(old(self)@, final(self)@),
            forall|script: Seq<Reply>|
                follows(script, final(self)@.log) ==> #[trigger] net_drawn_below(
                    old(self)@,
                    bound,
                    script,
                ) == (word, final(self)@),
    {
        match bound {
            None => 0,
            Some(b) => {
                let word: u64 = self.net_draw();
                if b == 0 {
                    0
                } else {
                    word % b
                }
            },
        }
    }
}

/// A list of one hash.
pub(crate) fn one(id: EntryHash) -> (list: Vec<EntryHash>)
    ensures
        list@ == seq![id],
{
    let mut list: Vec<EntryHash> = Vec::new();
    list.push(id);
    assert(list@ =~= seq![id]);
    list
}

/// Whether a hash is listed.
fn lists(hashes: &Vec<EntryHash>, id: EntryHash) -> (yes: bool)
    ensures
        yes == hashes@.contains(id),
{
    let mut i: usize = 0;
    while i < hashes.len()
        invariant
            i <= hashes@.len(),
            forall|j: int| 0 <= j < i ==> #[trigger] hashes@[j] != id,
        decreases hashes@.len() - i,
    {
        if hashes[i] == id {
            assert(hashes@[i as int] == id);
            return true;
        }
        i = i + 1;
    }
    false
}

/// A copy of bytes.
pub(crate) fn copy_bytes(bytes: &Vec<u8>) -> (copy: Vec<u8>)
    ensures
        copy@ == bytes@,
{
    let mut copy: Vec<u8> = Vec::new();
    let mut i: usize = 0;
    while i < bytes.len()
        invariant
            i <= bytes@.len(),
            copy@ == bytes@.take(i as int),
        decreases bytes@.len() - i,
    {
        copy.push(bytes[i]);
        i = i + 1;
        assert(copy@ =~= bytes@.take(i as int));
    }
    assert(bytes@.take(i as int) =~= bytes@);
    copy
}

/// The payload of a dropped message.
fn dropped(message_id: MessageId) -> (payload: EntryPayload)
    ensures
        payload@ == drop_payload(message_id),
{
    EntryPayload::Fault(FaultPayload::DropMessage { message_id })
}

/// The payload of a partitioned link.
fn partitioned(src: usize, dst: usize) -> (payload: EntryPayload)
    ensures
        payload@ == partition_payload(src, dst),
{
    EntryPayload::Fault(
        FaultPayload::Partition { src: task_actor(src), dst: task_actor(dst), enabled: true },
    )
}

/// The payload of a crashed actor.
fn crashed_by(task: usize, crash_operation: CrashOperation) -> (payload: EntryPayload)
    ensures
        payload@ == crash_payload(task, crash_operation@),
{
    EntryPayload::Fault(FaultPayload::CrashActor { actor: task_actor(task), crash_operation })
}

/// The crash operation that a sampled word selects.
fn sample_crash(word: u64, path: &str, write_entry: EntryHash) -> (operation: CrashOperation)
    ensures
        operation@ == sampled_crash(word, path@, write_entry),
{
    let choice: u64 = word % 4;
    if choice == 0 {
        CrashOperation::DropAllUnsynced
    } else if choice == 1 {
        CrashOperation::DropPaths { path: path.to_owned() }
    } else if choice == 2 {
        CrashOperation::TornWrite { write_entry, persisted_prefix: 4 }
    } else {
        CrashOperation::BitFlip { write_entry, offset: 0, bit: 0 }
    }
}

/// Class of a crash operation, for the budget of classes per run.
fn class_of(operation: &CrashOperation) -> (class: u64)
    ensures
        class == crash_class(operation@),
{
    match operation {
        CrashOperation::DropAllUnsynced => 0,
        CrashOperation::DropPaths { .. } => 1,
        CrashOperation::TornWrite { .. } => 2,
        CrashOperation::CorruptRange { .. } => 3,
        CrashOperation::BitFlip { .. } => 4,
    }
}

/// Add a class to a list without repetition.
fn join_class(classes: &mut Vec<u64>, class: u64)
    ensures
        final(classes)@ == joined(old(classes)@, class),
{
    let mut i: usize = 0;
    while i < classes.len()
        invariant
            i <= classes@.len(),
            classes@ == old(classes)@,
            forall|j: int| 0 <= j < i ==> #[trigger] classes@[j] != class,
        decreases classes@.len() - i,
    {
        if classes[i] == class {
            assert(classes@[i as int] == class);
            return;
        }
        i = i + 1;
    }
    classes.push(class);
}

/// The entry that a fault is scheduled for.
fn target_of(fault: &SimFault) -> (target: Option<EntryHash>)
    ensures
        target == fault_target(*fault),
{
    match fault {
        SimFault::Drop(target) => Some(*target),
        SimFault::Delay { send, .. } => Some(*send),
        SimFault::Duplicate { send } => Some(*send),
        SimFault::Crash(target) => Some(*target),
        SimFault::Corrupt { write, .. } => Some(*write),
        SimFault::CrashState { write, .. } => Some(*write),
        SimFault::Partition { .. } => None,
    }
}

/// Task-facing effects handle: which task of the shared state acts.
#[derive(Debug, Clone, Copy, PartialEq, Eq)]
pub struct Boundary {
    /// The task.
    pub task: usize,
}

impl Boundary {
    /// Create a boundary for a task id inside a shared executor.
    pub fn for_task(task: usize) -> (boundary: Boundary)
        ensures
            boundary.task == task,
    {
        Boundary { task }
    }

    /// Record an append failure; first failure wins.
    pub fn record_journal_error<H: Host>(
        &self,
        shared: &mut ExecutorShared<H>,
        error: JournalError,
    )
        ensures
            final(shared)@ == noted(old(shared)@, error),
    {
        shared.record_journal_error(error);
    }

    /// Journal one entry with the task as the actor.
    fn append<H: Host>(
        &self,
        shared: &mut ExecutorShared<H>,
        parents: Vec<EntryHash>,
        payload: EntryPayload,
    ) -> (answer: Result<EntryHash, JournalError>)
        ensures
            extends(final(shared)@.log, old(shared)@.log),
            same_tasks(old(shared)@, final(shared)@),
            forall|script: Seq<Reply>|
                follows(script, final(shared)@.log) ==> #[trigger] task_appended(
                    old(shared)@,
                    self.task,
                    parents@,
                    payload@,
                    script,
                ) == (answer, final(shared)@),
    {
        let kind: EntryKind = payload.kind();
        let actor: ActorId = task_actor(self.task);
        let record = Record { actor, parents, chained: false, payload };
        assert(record@ == draft(actor_of(self.task), parents@, payload@));
        match shared.journal_append(&record) {
            Ok(id) => {
                shared.notify_entry(actor, kind, self.task, Some(id));
                Ok(id)
            },
            Err(e) => Err(e),
        }
    }

    /// Journal one entry where a failure cannot be returned.
    fn keep<H: Host>(
        &self,
        shared: &mut ExecutorShared<H>,
        parents: Vec<EntryHash>,
        payload: EntryPayload,
    ) -> (id: Option<EntryHash>)
        ensures
            extends(final(shared)@.log, old(shared)@.log),
            same_tasks(old(shared)@, final(shared)@),
            forall|script: Seq<Reply>|
                follows(script, final(shared)@.log) ==> #[trigger] kept(
                    old(shared)@,
                    self.task,
                    parents@,
                    payload@,
                    script,
                ) == (id, final(shared)@),
    {
        match self.append(shared, parents, payload) {
            Ok(id) => Some(id),
            Err(error) => {
                shared.record_journal_error(error);
                None
            },
        }
    }

    /// Apply swarm drop and delay; zero probabilities draw nothing.
    fn swarm_send_policy<H: Host>(
        &self,
        shared: &mut ExecutorShared<H>,
        send_id: EntryHash,
        message_id: MessageId,
    ) -> (action: SwarmAction)
        ensures
            extends(final(shared)@.log, old(shared)@.log),
            same_tasks(old(shared)@, final(shared)@),
            forall|script: Seq<Reply>|
                follows(script, final(shared)@.log) ==> #[trigger] swarm_decided(
                    old(shared)@,
                    self.task,
                    send_id,
                    message_id,
                    script,
                ) == (action, final(shared)@),
    {
        let swarm: SwarmConfig = shared.swarm;
        if shared.net_chance_hit(swarm.drop_probability) {
            let _ = self.keep(shared, one(send_id), dropped(message_id));
            return SwarmAction::Drop;
        }
        if swarm.max_delay_ticks > 0 && shared.net_chance_hit(swarm.delay_probability) {
            return SwarmAction::Delay(shared.net_draw_delay(swarm.max_delay_ticks));
        }
        SwarmAction::Deliver
    }

    /// Maybe crash after a write; zero probability draws nothing.
    ///
    /// The probability and choice draws always happen so the stream offsets
    /// stay stable; only the application is gated by the budget of classes.
    fn maybe_crash_on_write<H: Host>(
        &self,
        shared: &mut ExecutorShared<H>,
        path: &str,
        write_id: EntryHash,
    ) -> (answer: Result<(), JournalError>)
        ensures
            extends(final(shared)@.log, old(shared)@.log),
            same_tasks(old(shared)@, final(shared)@),
            forall|script: Seq<Reply>|
                follows(script, final(shared)@.log) ==> #[trigger] crash_sampled(
                    old(shared)@,
                    self.task,
                    path@,
                    write_id,
                    script,
                ) == (answer, final(shared)@),
    {
        let chance: Probability = shared.swarm.crash_probability;
        if !chance.is_positive() {
            return Ok(());
        }
        let word: u64 = shared.fs_draw();
        if !chance.hit(word) {
            return Ok(());
        }
        let choice: u64 = shared.fs_draw();
        let operation: CrashOperation = sample_crash(choice, path, write_id);
        let budget: usize = if shared.swarm.fault_classes_per_run < 1 {
            1
        } else {
            shared.swarm.fault_classes_per_run
        };
        if shared.fault_classes_used.len() >= budget {
            return Ok(());
        }
        join_class(&mut shared.fault_classes_used, class_of(&operation));
        let ghost before = shared@;
        let applied: Result<(), u64> = shared.host.fs_apply(&operation);
        proof {
            lemma_told(
                before,
                Ask::FsApply { operation: operation@ },
                Reply::Applied(applied),
                shared@,
            );
        }
        if let Err(reason) = applied {
            // A crash that cannot resolve its target must fail closed.
            shared.record_journal_error(
                JournalError::InvalidPayload(PayloadFault::SwarmCrashRejected { reason }),
            );
            return Ok(());
        }
        match self.append(shared, Vec::new(), crashed_by(self.task, operation)) {
            Ok(_) => Ok(()),
            Err(e) => Err(e),
        }
    }

    /// Apply the crash model.
    fn fs_crash<H: Host>(&self, shared: &mut ExecutorShared<H>)
        ensures
            extends(final(shared)@.log, old(shared)@.log),
            same_tasks(old(shared)@, final(shared)@),
            forall|script: Seq<Reply>|
                follows(script, final(shared)@.log) ==> #[trigger] fs_crashed(
                    old(shared)@,
                    script,
                ) == final(shared)@,
    {
        let journaled: bool = shared.fs_journaling.is_some();
        shared.host.fs_crash(journaled);
        proof {
            lemma_told(old(shared)@, Ask::FsCrash { journaled }, Reply::Nothing, shared@);
        }
    }
}

/// The first fault found in a prefix of the schedule is the first of all.
proof fn lemma_injection_prefix(schedule: Seq<SimFault>, id: EntryHash, n: int)
    requires
        0 <= n <= schedule.len(),
        injection_for(schedule.take(n), id) is Some,
    ensures
        injection_for(schedule, id) == injection_for(schedule.take(n), id),
    decreases schedule.len() - n,
{
    if n == schedule.len() {
        assert(schedule.take(n) =~= schedule);
    } else {
        assert(schedule.take(n + 1).drop_last() =~= schedule.take(n));
        lemma_injection_prefix(schedule, id, n + 1);
    }
}

impl Boundary {
    /// Whether any `Duplicate` fault targets `id`.
    fn duplicate_targets<H: Host>(&self, shared: &ExecutorShared<H>, id: EntryHash) -> (yes: bool)
        ensures
            yes == duplicates(shared@.fault_schedule, id),
    {
        let mut i: usize = 0;
        while i < shared.fault_schedule.len()
            invariant
                i <= shared.fault_schedule@.len(),
                forall|j: int|
                    0 <= j < i ==> #[trigger] shared.fault_schedule@[j] != (SimFault::Duplicate {
                        send: id,
                    }),
            decreases shared.fault_schedule@.len() - i,
        {
            if let SimFault::Duplicate { send } = shared.fault_schedule[i] {
                if send == id {
                    assert(shared@.fault_schedule[i as int] == (SimFault::Duplicate { send: id }));
                    return true;
                }
            }
            i = i + 1;
        }
        false
    }

    /// Return the scheduled fault injection targeting `id`, if any.
    fn schedule_injection_for<H: Host>(&self, shared: &ExecutorShared<H>, id: EntryHash) -> (fault:
        Option<SimFault>)
        ensures
            fault == injection_for(shared@.fault_schedule, id),
    {
        let ghost schedule = shared.fault_schedule@;
        let mut i: usize = 0;
        assert(schedule.take(0) =~= Seq::<SimFault>::empty());
        while i < shared.fault_schedule.len()
            invariant
                i <= schedule.len(),
                schedule == shared.fault_schedule@,
                injection_for(schedule.take(i as int), id) is None,
            decreases schedule.len() - i,
        {
            assert(schedule.take(i + 1).drop_last() =~= schedule.take(i as int));
            assert(schedule.take(i + 1).last() == schedule[i as int]);
            if let Some(target) = target_of(&shared.fault_schedule[i]) {
                if target == id {
                    proof {
                        lemma_injection_prefix(schedule, id, i + 1);
                    }
                    return Some(shared.fault_schedule[i]);
                }
            }
            i = i + 1;
        }
        assert(schedule.take(i as int) =~= schedule);
        None
    }

    /// Record that the fault injection for `id` took effect.
    fn mark_fault_applied<H: Host>(&self, shared: &mut ExecutorShared<H>, id: EntryHash)
        ensures
            final(shared)@ == marked(old(shared)@, id),
    {
        if !lists(&shared.applied_faults, id) {
            shared.applied_faults.push(id);
        }
    }

    /// Take the next message identity for the task's send sequence.
    fn next_message_id<H: Host>(&self, shared: &mut ExecutorShared<H>) -> (id: MessageId)
        ensures
            (id, final(shared)@) == identified(old(shared)@, self.task),
    {
        let ghost before = shared.send_seq@;
        while shared.send_seq.len() <= self.task
            invariant
                shared@ == (World { send_seq: shared.send_seq@, ..old(shared)@ }),
                before == old(shared)@.send_seq,
                shared.send_seq@.len() <= before.len() || shared.send_seq@.len() <= self.task + 1,
                shared.send_seq@ == before + Seq::new(
                    (shared.send_seq@.len() - before.len()) as nat,
                    |i: int| 0u64,
                ),
                shared.send_seq@.len() >= before.len(),
            decreases self.task + 1 - shared.send_seq@.len(),
        {
            shared.send_seq.push(0);
            assert(shared.send_seq@ =~= before + Seq::new(
                (shared.send_seq@.len() - before.len()) as nat,
                |i: int| 0u64,
            ));
        }
        assert(shared.send_seq@ =~= padded(before, self.task));
        let sequence: u64 = shared.send_seq[self.task];
        shared.send_seq.set(self.task, bump(sequence));
        MessageId::new(task_actor(self.task), sequence)
    }

    /// Apply a scheduled fault to an outgoing message.
    fn inject_send_fault<H: Host>(
        &self,
        shared: &mut ExecutorShared<H>,
        send_id: EntryHash,
        message_id: MessageId,
    ) -> (fault: SendFault)
        ensures
            extends(final(shared)@.log, old(shared)@.log),
            same_tasks(old(shared)@, final(shared)@),
            forall|script: Seq<Reply>|
                follows(script, final(shared)@.log) ==> #[trigger] send_injected(
                    old(shared)@,
                    self.task,
                    send_id,
                    message_id,
                    script,
                ) == (fault, final(shared)@),
    {
        match self.schedule_injection_for(shared, send_id) {
            Some(SimFault::Drop(_)) => {
                self.mark_fault_applied(shared, send_id);
                let _ = self.keep(shared, one(send_id), dropped(message_id));
                SendFault::Dropped
            },
            Some(SimFault::Delay { ticks, .. }) => {
                self.mark_fault_applied(shared, send_id);
                SendFault::Delayed(ticks)
            },
            _ => SendFault::Untouched,
        }
    }

    /// Apply a crash operation that the schedule asks for, and journal it.
    ///
    /// An operation that cannot resolve its target fails closed.
    fn apply_scheduled_crash<H: Host>(
        &self,
        shared: &mut ExecutorShared<H>,
        operation: CrashOperation,
        corrupt: bool,
    ) -> (answer: Result<(), JournalError>)
        ensures
            extends(final(shared)@.log, old(shared)@.log),
            same_tasks(old(shared)@, final(shared)@),
            forall|script: Seq<Reply>|
                follows(script, final(shared)@.log) ==> #[trigger] crash_applied(
                    old(shared)@,
                    self.task,
                    operation@,
                    corrupt,
                    script,
                ) == (answer, final(shared)@),
    {
        let applied: Result<(), u64> = shared.host.fs_apply(&operation);
        proof {
            lemma_told(
                old(shared)@,
                Ask::FsApply { operation: operation@ },
                Reply::Applied(applied),
                shared@,
            );
        }
        if let Err(reason) = applied {
            return Err(
                JournalError::InvalidPayload(
                    if corrupt {
                        PayloadFault::CorruptRejected { reason }
                    } else {
                        PayloadFault::CrashStateRejected { reason }
                    },
                ),
            );
        }
        match self.append(shared, Vec::new(), crashed_by(self.task, operation)) {
            Ok(_) => Ok(()),
            Err(e) => Err(e),
        }
    }

    /// Apply a scheduled fault to a completed storage write.
    fn inject_write_fault<H: Host>(
        &self,
        shared: &mut ExecutorShared<H>,
        write_id: EntryHash,
        path: &str,
    ) -> (answer: Result<(), JournalError>)
        ensures
            extends(final(shared)@.log, old(shared)@.log),
            same_tasks(old(shared)@, final(shared)@),
            forall|script: Seq<Reply>|
                follows(script, final(shared)@.log) ==> #[trigger] write_injected(
                    old(shared)@,
                    self.task,
                    write_id,
                    path@,
                    script,
                ) == (answer, final(shared)@),
    {
        let fault: SimFault = match self.schedule_injection_for(shared, write_id) {
            None => return Ok(()),
            Some(fault) => fault,
        };
        let corrupt: bool = match fault {
            SimFault::Crash(_) => {
                self.mark_fault_applied(shared, write_id);
                self.fs_crash(shared);
                let payload: EntryPayload = crashed_by(
                    self.task,
                    CrashOperation::DropAllUnsynced,
                );
                return match self.append(shared, Vec::new(), payload) {
                    Ok(_) => Ok(()),
                    Err(e) => Err(e),
                };
            },
            SimFault::Corrupt { .. } => true,
            SimFault::CrashState { .. } => false,
            _ => return Ok(()),
        };
        match fault.crash_operation_for(path) {
            None => Ok(()),
            Some(Err(identifier)) => Err(
                JournalError::InvalidPayload(PayloadFault::UnknownCrashState { identifier }),
            ),
            Some(Ok(operation)) => {
                self.mark_fault_applied(shared, write_id);
                self.apply_scheduled_crash(shared, operation, corrupt)
            },
        }
    }

    /// Journal a bounded-queue refusal: a drop fault under the drop policy, a
    /// block entry under the block policy (backpressure, retryable).
    fn journal_queue_full<H: Host>(
        &self,
        shared: &mut ExecutorShared<H>,
        send_id: EntryHash,
        to: usize,
        message_id: MessageId,
    )
        ensures
            extends(final(shared)@.log, old(shared)@.log),
            same_tasks(old(shared)@, final(shared)@),
            forall|script: Seq<Reply>|
                follows(script, final(shared)@.log) ==> #[trigger] refusal_kept(
                    old(shared)@,
                    self.task,
                    send_id,
                    to,
                    message_id,
                    script,
                ) == final(shared)@,
    {
        let payload: EntryPayload = match shared.net.queue_policy(self.task, to) {
            QueueFullPolicy::Drop => dropped(message_id),
            QueueFullPolicy::Block => EntryPayload::Block,
        };
        assert(payload@ == match policy_of(shared@.net, self.task, to) {
            QueueFullPolicy::Drop => drop_payload(message_id),
            QueueFullPolicy::Block => Payload::Block,
        });
        let _ = self.keep(shared, one(send_id), payload);
    }

    /// Journal the fault class for a message the network refused: a partition
    /// when the link is partitioned, otherwise a loss drop.
    fn journal_net_loss<H: Host>(
        &self,
        shared: &mut ExecutorShared<H>,
        send_id: EntryHash,
        to: usize,
        message_id: MessageId,
    )
        ensures
            extends(final(shared)@.log, old(shared)@.log),
            same_tasks(old(shared)@, final(shared)@),
            forall|script: Seq<Reply>|
                follows(script, final(shared)@.log) ==> #[trigger] loss_kept(
                    old(shared)@,
                    self.task,
                    send_id,
                    to,
                    message_id,
                    script,
                ) == final(shared)@,
    {
        let payload: EntryPayload = if shared.net.is_partitioned(self.task, to) {
            partitioned(self.task, to)
        } else {
            dropped(message_id)
        };
        let _ = self.keep(shared, one(send_id), payload);
    }

    /// Checked link send distinguishing a full bounded queue from a drop.
    ///
    /// The capacity check runs before any draw, so a full queue never
    /// consumes from the network stream.
    fn transmit_once<H: Host>(
        &self,
        shared: &mut ExecutorShared<H>,
        message: Message,
        now: u64,
        total_delay: u64,
    ) -> (outcome: SendOutcome)
        ensures
            extends(final(shared)@.log, old(shared)@.log),
            same_tasks(old(shared)@, final(shared)@),
            forall|script: Seq<Reply>|
                follows(script, final(shared)@.log) ==> #[trigger] transmitted(
                    old(shared)@,
                    message@,
                    now,
                    total_delay,
                    script,
                ) == (outcome, final(shared)@),
    {
        let (from, to): (usize, usize) = (message.from, message.to);
        let answer: Result<bool, NetError> = if shared.net.link_configured(from, to) {
            let (jitter, loss): (Option<u64>, Option<u64>) = shared.net.send_draws(from, to);
            let jitter_draw: u64 = shared.net_draw_below(jitter);
            let loss_draw: u64 = shared.net_draw_below(loss);
            shared.net.send_via_link_drawn(message, now, total_delay, jitter_draw, loss_draw)
        } else {
            shared.net.try_send_at_with_identity(message, now, total_delay)
        };
        match answer {
            Ok(queued) => SendOutcome::Queued(queued),
            Err(NetError::QueueFull { .. }) => SendOutcome::QueueFull,
            Err(NetError::InvalidReorderWindow { .. }) => SendOutcome::Queued(false),
        }
    }
}

/// A copy of a message.
fn copy_message(message: &Message) -> (copy: Message)
    ensures
        copy@ == message@,
{
    let copy = Message {
        from: message.from,
        to: message.to,
        content: copy_bytes(&message.content),
        send_id: message.send_id,
        message_id: message.message_id,
        deliver_at: message.deliver_at,
    };
    assert(copy@ =~= message@);
    copy
}

impl Boundary {
    /// What follows the first transmission of a message.
    ///
    /// A message that was handed to the network and has a duplicate fault is
    /// transmitted again on the same branch; each transmission journals its own
    /// loss or refusal. Backpressure wins over duplication.
    fn settle<H: Host>(
        &self,
        shared: &mut ExecutorShared<H>,
        first: SendOutcome,
        message: Message,
        now: u64,
        total_delay: u64,
    ) -> (delivered: bool)
        requires
            message.from == self.task,
        ensures
            extends(final(shared)@.log, old(shared)@.log),
            same_tasks(old(shared)@, final(shared)@),
            forall|script: Seq<Reply>|
                follows(script, final(shared)@.log) ==> #[trigger] settled(
                    old(shared)@,
                    first,
                    message@,
                    now,
                    total_delay,
                    script,
                ) == (delivered, final(shared)@),
    {
        let id: EntryHash = message.send_id;
        let to: usize = message.to;
        let message_id: MessageId = message.message_id;
        let first_delivered: bool = match first {
            SendOutcome::QueueFull => {
                self.journal_queue_full(shared, id, to, message_id);
                return false;
            },
            SendOutcome::Queued(delivered) => delivered,
        };
        if !self.duplicate_targets(shared, id) {
            if !first_delivered {
                self.journal_net_loss(shared, id, to, message_id);
            }
            return first_delivered;
        }
        self.mark_fault_applied(shared, id);
        let duplicate = EntryPayload::Fault(
            FaultPayload::DuplicateMessage { message_id, copy_ordinal: 1 },
        );
        assert(duplicate@ == Payload::Fault(
            FaultModel::DuplicateMessage { message_id, copy_ordinal: 1 },
        ));
        let _ = self.keep(shared, one(id), duplicate);
        let second: SendOutcome = self.transmit_once(shared, message, now, total_delay);
        if !first_delivered {
            self.journal_net_loss(shared, id, to, message_id);
        }
        match second {
            SendOutcome::Queued(again) => {
                if !again {
                    self.journal_net_loss(shared, id, to, message_id);
                }
                first_delivered || again
            },
            SendOutcome::QueueFull => {
                self.journal_queue_full(shared, id, to, message_id);
                first_delivered
            },
        }
    }

    /// Carry a journaled send to the network.
    fn carry<H: Host>(
        &self,
        shared: &mut ExecutorShared<H>,
        message: Message,
        now: u64,
        base_delay: u64,
    ) -> (delivered: bool)
        requires
            message.from == self.task,
        ensures
            extends(final(shared)@.log, old(shared)@.log),
            same_tasks(old(shared)@, final(shared)@),
            forall|script: Seq<Reply>|
                follows(script, final(shared)@.log) ==> #[trigger] carried(
                    old(shared)@,
                    message@,
                    now,
                    base_delay,
                    script,
                ) == (delivered, final(shared)@),
    {
        let id: EntryHash = message.send_id;
        let message_id: MessageId = message.message_id;
        if lists(&shared.dropped_events, id) {
            let _ = self.keep(shared, one(id), dropped(message_id));
            return true;
        }
        let injected: u64 = match self.inject_send_fault(shared, id, message_id) {
            SendFault::Dropped => return true,
            SendFault::Delayed(ticks) => ticks,
            SendFault::Untouched => 0,
        };
        let total: u64 = match self.swarm_send_policy(shared, id, message_id) {
            SwarmAction::Drop => return true,
            SwarmAction::Delay(extra) => add_ticks(add_ticks(base_delay, extra), injected),
            SwarmAction::Deliver => add_ticks(base_delay, injected),
        };
        let first: SendOutcome = self.transmit_once(shared, copy_message(&message), now, total);
        self.settle(shared, first, message, now, total)
    }

    /// Byte-send path with the authoritative sender-sequence identity.
    ///
    /// An oversized message never reaches the queue or the journal.
    pub fn send_bytes_inner<H: Host>(
        &self,
        shared: &mut ExecutorShared<H>,
        to: usize,
        content: Vec<u8>,
        base_delay: u64,
        at: Option<OriginSource>,
    ) -> (delivered: bool)
        ensures
            extends(final(shared)@.log, old(shared)@.log),
            same_tasks(old(shared)@, final(shared)@),
            forall|script: Seq<Reply>|
                follows(script, final(shared)@.log) ==> #[trigger] bytes_sent(
                    old(shared)@,
                    self.task,
                    to,
                    content@,
                    base_delay,
                    at,
                    script,
                ) == (delivered, final(shared)@),
    {
        let now: u64 = shared.host.now();
        proof {
            lemma_told(old(shared)@, Ask::Now, Reply::Ticks(now), shared@);
        }
        let message_id: MessageId = self.next_message_id(shared);
        let length: u64 = content.len() as u64;
        if length > shared.message_limit {
            let limit: u64 = shared.message_limit;
            shared.record_journal_error(
                JournalError::InvalidPayload(PayloadFault::MessageTooLong { length, limit }),
            );
            return false;
        }
        let payload = EntryPayload::Send {
            message_id,
            from: task_actor(self.task),
            to: task_actor(to),
            original_content: copy_bytes(&content),
        };
        assert(payload@ == Payload::Send {
            message_id,
            from: actor_of(self.task),
            to: actor_of(to),
            original_content: content@,
        });
        let id: EntryHash = match self.append(shared, Vec::new(), payload) {
            Ok(id) => id,
            Err(error) => {
                shared.record_journal_error(error);
                return false;
            },
        };
        if let Some(origin) = at {
            shared.origins.record(id, origin);
        }
        let message = Message {
            from: self.task,
            to,
            content,
            send_id: id,
            message_id,
            deliver_at: now,
        };
        assert(message@ == (Envelope {
            from: self.task,
            to,
            content: content@,
            send_id: id,
            message_id,
            deliver_at: now,
        }));
        self.carry(shared, message, now, base_delay)
    }

    /// Single scalar send path; delay 0 keeps unfaulted journals identical.
    fn send_core<H: Host>(
        &self,
        shared: &mut ExecutorShared<H>,
        to: usize,
        payload: u64,
        base_delay: u64,
        at: Option<OriginSource>,
    ) -> (delivered: bool)
        ensures
            extends(final(shared)@.log, old(shared)@.log),
            same_tasks(old(shared)@, final(shared)@),
            forall|script: Seq<Reply>|
                follows(script, final(shared)@.log) ==> #[trigger] scalar_sent(
                    old(shared)@,
                    self.task,
                    to,
                    payload,
                    base_delay,
                    at,
                    script,
                ) == (delivered, final(shared)@),
    {
        self.send_bytes_inner(shared, to, u64_le(payload), base_delay, at)
    }

    /// Send a message immediately, journaling a `Send` entry.
    pub fn send<H: Host>(
        &self,
        shared: &mut ExecutorShared<H>,
        to: usize,
        payload: u64,
    ) -> (delivered: bool)
        ensures
            extends(final(shared)@.log, old(shared)@.log),
            same_tasks(old(shared)@, final(shared)@),
            forall|script: Seq<Reply>|
                follows(script, final(shared)@.log) ==> #[trigger] scalar_sent(
                    old(shared)@,
                    self.task,
                    to,
                    payload,
                    0,
                    None,
                    script,
                ) == (delivered, final(shared)@),
    {
        self.send_core(shared, to, payload, 0, None)
    }

    /// Send with origin capture into the session side channel.
    pub fn send_tracked<H: Host>(
        &self,
        shared: &mut ExecutorShared<H>,
        to: usize,
        payload: u64,
        at: OriginSource,
    ) -> (delivered: bool)
        ensures
            extends(final(shared)@.log, old(shared)@.log),
            same_tasks(old(shared)@, final(shared)@),
            forall|script: Seq<Reply>|
                follows(script, final(shared)@.log) ==> #[trigger] scalar_sent(
                    old(shared)@,
                    self.task,
                    to,
                    payload,
                    0,
                    Some(at),
                    script,
                ) == (delivered, final(shared)@),
    {
        self.send_core(shared, to, payload, 0, Some(at))
    }

    /// Timed send; identical seeds yield identical delivery order.
    pub fn send_timed<H: Host>(
        &self,
        shared: &mut ExecutorShared<H>,
        to: usize,
        payload: u64,
        delay: u64,
    ) -> (delivered: bool)
        ensures
            extends(final(shared)@.log, old(shared)@.log),
            same_tasks(old(shared)@, final(shared)@),
            forall|script: Seq<Reply>|
                follows(script, final(shared)@.log) ==> #[trigger] scalar_sent(
                    old(shared)@,
                    self.task,
                    to,
                    payload,
                    delay,
                    None,
                    script,
                ) == (delivered, final(shared)@),
    {
        self.send_core(shared, to, payload, delay, None)
    }
}

/// Schema digest for scalar outcomes; domain-separated so entries never collide.
pub fn outcome_schema() -> (schema: EntryHash)
    ensures
        schema == outcome_digest(),
{
    EntryHash(
        [
            0x67u8, 0xc9u8, 0x3du8, 0x0fu8, 0xb1u8, 0x85u8, 0x81u8, 0x56u8,
            0xadu8, 0xf7u8, 0x35u8, 0x4eu8, 0x3eu8, 0x31u8, 0xc7u8, 0x8bu8,
            0xaeu8, 0xbau8, 0x7fu8, 0x50u8, 0x63u8, 0x62u8, 0xceu8, 0xbfu8,
            0xf5u8, 0x90u8, 0x43u8, 0x64u8, 0x6au8, 0xf2u8, 0x01u8, 0xbcu8,
        ],
    )
}

/// Predicate digest for scalar assertions; distinct from [`outcome_schema`].
pub fn assert_schema() -> (schema: EntryHash)
    ensures
        schema == assert_digest(),
{
    EntryHash(
        [
            0x2bu8, 0x60u8, 0xddu8, 0xa5u8, 0xdbu8, 0x69u8, 0x7bu8, 0x0au8,
            0x05u8, 0xe0u8, 0x85u8, 0xf2u8, 0x38u8, 0xddu8, 0xa7u8, 0x58u8,
            0xfbu8, 0x08u8, 0x94u8, 0x91u8, 0x78u8, 0xd4u8, 0x7au8, 0xb6u8,
            0xb0u8, 0x00u8, 0x70u8, 0x76u8, 0x06u8, 0xdau8, 0x35u8, 0x26u8,
        ],
    )
}

impl<H: Host> ExecutorShared<H> {
    /// Take one ready message for `task`, honoring the configured reorder
    /// semantics: the deterministic newest-first pick by default, or a
    /// seeded draw inside the bounded candidate window when `reorder_draw`
    /// is set. The draw consumes from the network stream only when a
    /// window is actually configured.
    pub fn recv_at_effective(&mut self, task: usize, now: u64) -> (message: Option<Message>)
        ensures
            extends(final(self)@.log, old(self)@.log),
            same_tasks(old(self)@, final(self)@),
            forall|script: Seq<Reply>|
                follows(script, final(self)@.log) ==> #[trigger] delivered(
                    old(self)@,
                    task,
                    now,
                    script,
                ) == (envelope_of(message), final(self)@),
    {
        if !self.reorder_draw {
            return self.net.recv_at(task, now);
        }
        let bound: Option<u64> = self.net.recv_draw(task, now);
        let word: u64 = self.net_draw_below(bound);
        self.net.recv_at_with(task, now, word)
    }

    /// Current virtual time.
    fn time(&mut self) -> (now: u64)
        ensures
            extends(final(self)@.log, old(self)@.log),
            same_tasks(old(self)@, final(self)@),
            forall|script: Seq<Reply>|
                follows(script, final(self)@.log) ==> #[trigger] told(
                    old(self)@,
                    Ask::Now,
                    script,
                ) == (Reply::Ticks(now), final(self)@),
    {
        let now: u64 = self.host.now();
        proof {
            lemma_told(old(self)@, Ask::Now, Reply::Ticks(now), self@);
        }
        now
    }

    /// Park a task.
    fn park(&mut self, task: usize, reason: BlockedOn)
        requires
            task < old(self)@.tasks.len(),
        ensures
            final(self)@ == parked(old(self)@, task, reason),
    {
        let entry: TaskEntry = self.tasks[task];
        self.tasks.set(task, TaskEntry { blocked_on: Some(reason), ..entry });
    }
}

impl Boundary {
    /// Journal a `Recv` frame for `message`, and let the entry inherit the
    /// origin of its send.
    fn journal_recv<H: Host>(
        &self,
        shared: &mut ExecutorShared<H>,
        message: &Message,
    )
        ensures
            extends(final(shared)@.log, old(shared)@.log),
            same_tasks(old(shared)@, final(shared)@),
            forall|script: Seq<Reply>|
                follows(script, final(shared)@.log) ==> #[trigger] recv_kept(
                    old(shared)@,
                    self.task,
                    message@,
                    script,
                ) == final(shared)@,
    {
        let payload = EntryPayload::Recv {
            message_id: message.message_id,
            from: task_actor(message.from),
            to: task_actor(self.task),
            observed_content: copy_bytes(&message.content),
        };
        assert(payload@ == recv_payload(self.task, message@));
        if let Some(id) = self.keep(shared, one(message.send_id), payload) {
            let inherited: Option<OriginSource> = match shared.origins.get(&message.send_id) {
                Some(origin) => Some(origin.clone()),
                None => None,
            };
            if let Some(origin) = inherited {
                shared.origins.record(id, origin);
            }
        }
    }

    /// Take the first deliverable message for `task` available at `now`.
    pub fn recv_at<H: Host>(
        &self,
        shared: &mut ExecutorShared<H>,
        task: usize,
        now: u64,
    ) -> (message: Option<Message>)
        ensures
            extends(final(shared)@.log, old(shared)@.log),
            same_tasks(old(shared)@, final(shared)@),
            forall|script: Seq<Reply>|
                follows(script, final(shared)@.log) ==> #[trigger] message_taken(
                    old(shared)@,
                    self.task,
                    task,
                    now,
                    script,
                ) == (envelope_of(message), final(shared)@),
    {
        match shared.recv_at_effective(task, now) {
            None => None,
            Some(message) => {
                self.journal_recv(shared, &message);
                Some(message)
            },
        }
    }

    /// Take the first deliverable message for the task, journaling a `Recv`
    /// entry, and return its scalar payload.
    pub fn recv_now<H: Host>(
        &self,
        shared: &mut ExecutorShared<H>,
    ) -> (value: Option<u64>)
        ensures
            extends(final(shared)@.log, old(shared)@.log),
            same_tasks(old(shared)@, final(shared)@),
            forall|script: Seq<Reply>|
                follows(script, final(shared)@.log) ==> #[trigger] received_now(
                    old(shared)@,
                    self.task,
                    script,
                ) == (value, final(shared)@),
    {
        let now: u64 = shared.time();
        match self.recv_at(shared, self.task, now) {
            None => None,
            Some(message) => Some(message.payload()),
        }
    }

    /// Poll a receive: the payload of the first deliverable message, or the
    /// task parks until a message is deliverable.
    pub fn recv<H: Host>(
        &self,
        shared: &mut ExecutorShared<H>,
    ) -> (value: Option<u64>)
        requires
            self.task < old(shared)@.tasks.len(),
        ensures
            extends(final(shared)@.log, old(shared)@.log),
            final(shared)@.tasks.len() == old(shared)@.tasks.len(),
            final(shared)@.ready == old(shared)@.ready,
            forall|script: Seq<Reply>|
                follows(script, final(shared)@.log) ==> #[trigger] receive_polled(
                    old(shared)@,
                    self.task,
                    script,
                ) == (value, final(shared)@),
    {
        match self.recv_now(shared) {
            Some(value) => Some(value),
            None => {
                let payload = EntryPayload::Block;
                assert(payload@ == Payload::Block);
                let _ = self.keep(shared, Vec::new(), payload);
                shared.park(self.task, BlockedOn::Message);
                None
            },
        }
    }

    /// Park the task on a sleep timer, journaling a `TimerSet` entry.
    ///
    /// The timer carries the `TimerSet` entry as its enabler. A flag that an
    /// earlier timer left is cleared so a later park cannot short-circuit.
    pub fn park_sleep<H: Host>(
        &self,
        shared: &mut ExecutorShared<H>,
        ticks: u64,
    ) -> (answer: Result<(), JournalError>)
        requires
            self.task < old(shared)@.tasks.len(),
        ensures
            extends(final(shared)@.log, old(shared)@.log),
            final(shared)@.tasks.len() == old(shared)@.tasks.len(),
            final(shared)@.ready == old(shared)@.ready,
            forall|script: Seq<Reply>|
                follows(script, final(shared)@.log) ==> #[trigger] sleep_parked(
                    old(shared)@,
                    self.task,
                    ticks,
                    script,
                ) == (answer, final(shared)@),
    {
        let payload = EntryPayload::TimerSet { timer_id: 0, deadline_ticks: ticks };
        assert(payload@ == timer_payload(ticks));
        let id: EntryHash = match self.append(shared, Vec::new(), payload) {
            Ok(id) => id,
            Err(e) => return Err(e),
        };
        let ghost before = shared@;
        shared.host.set_timer(ticks, self.task, Some(id));
        proof {
            lemma_told(
                before,
                Ask::SetTimer { ticks, task: self.task, enabler: Some(id) },
                Reply::Nothing,
                shared@,
            );
        }
        let entry: TaskEntry = shared.tasks[self.task];
        shared.tasks.set(
            self.task,
            TaskEntry { blocked_on: Some(BlockedOn::Timer), timer_fired: false, ..entry },
        );
        Ok(())
    }

    /// Begin a sleep. A failed append is recorded and the timer still armed.
    pub fn sleep<H: Host>(
        &self,
        shared: &mut ExecutorShared<H>,
        ticks: u64,
    )
        requires
            self.task < old(shared)@.tasks.len(),
        ensures
            extends(final(shared)@.log, old(shared)@.log),
            final(shared)@.tasks.len() == old(shared)@.tasks.len(),
            final(shared)@.ready == old(shared)@.ready,
            forall|script: Seq<Reply>|
                follows(script, final(shared)@.log) ==> #[trigger] sleep_begun(
                    old(shared)@,
                    self.task,
                    ticks,
                    script,
                ) == final(shared)@,
    {
        let payload = EntryPayload::TimerSet { timer_id: 0, deadline_ticks: ticks };
        assert(payload@ == timer_payload(ticks));
        let enabler: Option<EntryHash> = self.keep(shared, Vec::new(), payload);
        let ghost before = shared@;
        shared.host.set_timer(ticks, self.task, enabler);
        proof {
            lemma_told(
                before,
                Ask::SetTimer { ticks, task: self.task, enabler },
                Reply::Nothing,
                shared@,
            );
        }
        shared.park(self.task, BlockedOn::Timer);
    }

    /// Poll a sleep: it ends when the executor fired the task's timer.
    pub fn poll_sleep<H: Host>(&self, shared: &mut ExecutorShared<H>) -> (ended: bool)
        requires
            self.task < old(shared)@.tasks.len(),
        ensures
            (ended, final(shared)@) == sleep_polled(old(shared)@, self.task),
    {
        let entry: TaskEntry = shared.tasks[self.task];
        if entry.timer_fired {
            shared.tasks.set(self.task, TaskEntry { timer_fired: false, ..entry });
            true
        } else {
            false
        }
    }

    /// Park the task waiting for a message, journaling a `Block` entry.
    pub fn park_message<H: Host>(
        &self,
        shared: &mut ExecutorShared<H>,
    ) -> (answer: Result<(), JournalError>)
        requires
            self.task < old(shared)@.tasks.len(),
        ensures
            extends(final(shared)@.log, old(shared)@.log),
            final(shared)@.tasks.len() == old(shared)@.tasks.len(),
            final(shared)@.ready == old(shared)@.ready,
            forall|script: Seq<Reply>|
                follows(script, final(shared)@.log) ==> #[trigger] message_parked(
                    old(shared)@,
                    self.task,
                    script,
                ) == (answer, final(shared)@),
    {
        let payload = EntryPayload::Block;
        assert(payload@ == Payload::Block);
        match self.append(shared, Vec::new(), payload) {
            Ok(_) => {
                shared.park(self.task, BlockedOn::Message);
                Ok(())
            },
            Err(e) => Err(e),
        }
    }

    /// Journal an entry without parents for its own sake.
    fn append_plain<H: Host>(
        &self,
        shared: &mut ExecutorShared<H>,
        payload: EntryPayload,
    ) -> (answer: Result<(), JournalError>)
        ensures
            extends(final(shared)@.log, old(shared)@.log),
            same_tasks(old(shared)@, final(shared)@),
            forall|script: Seq<Reply>|
                follows(script, final(shared)@.log) ==> #[trigger] plain_appended(
                    old(shared)@,
                    self.task,
                    payload@,
                    script,
                ) == (answer, final(shared)@),
    {
        match self.append(shared, Vec::new(), payload) {
            Ok(_) => Ok(()),
            Err(e) => Err(e),
        }
    }

    /// Journal a `Block` entry for an explicit yield without parking.
    pub fn yield_block<H: Host>(
        &self,
        shared: &mut ExecutorShared<H>,
    ) -> (answer: Result<(), JournalError>)
        ensures
            extends(final(shared)@.log, old(shared)@.log),
            same_tasks(old(shared)@, final(shared)@),
            forall|script: Seq<Reply>|
                follows(script, final(shared)@.log) ==> #[trigger] plain_appended(
                    old(shared)@,
                    self.task,
                    Payload::Block,
                    script,
                ) == (answer, final(shared)@),
    {
        let payload = EntryPayload::Block;
        assert(payload@ == Payload::Block);
        self.append_plain(shared, payload)
    }

    /// Journal a `ClockRead` entry carrying the current virtual time, returning it.
    pub fn read_clock<H: Host>(
        &self,
        shared: &mut ExecutorShared<H>,
    ) -> (answer: Result<u64, JournalError>)
        ensures
            extends(final(shared)@.log, old(shared)@.log),
            same_tasks(old(shared)@, final(shared)@),
            forall|script: Seq<Reply>|
                follows(script, final(shared)@.log) ==> #[trigger] clock_read(
                    old(shared)@,
                    self.task,
                    script,
                ) == (answer, final(shared)@),
    {
        let now: u64 = shared.time();
        let payload = EntryPayload::ClockRead { ticks: now };
        assert(payload@ == Payload::ClockRead { ticks: now });
        match self.append(shared, Vec::new(), payload) {
            Ok(_) => Ok(now),
            Err(e) => Err(e),
        }
    }

    /// Journal an `InputStep` entry carrying a generator identity, a replay
    /// key, and the input value.
    pub fn input_step<H: Host>(
        &self,
        shared: &mut ExecutorShared<H>,
        generator: u64,
        replay: u64,
        value: u64,
    ) -> (answer: Result<(), JournalError>)
        ensures
            extends(final(shared)@.log, old(shared)@.log),
            same_tasks(old(shared)@, final(shared)@),
            forall|script: Seq<Reply>|
                follows(script, final(shared)@.log) ==> #[trigger] plain_appended(
                    old(shared)@,
                    self.task,
                    input_payload(generator, replay, value),
                    script,
                ) == (answer, final(shared)@),
    {
        let payload = EntryPayload::InputStep {
            generator,
            replay,
            value: CanonicalValue::Unsigned(value),
        };
        assert(payload@ == input_payload(generator, replay, value));
        self.append_plain(shared, payload)
    }

    /// Journal an `Assert` entry carrying a boolean as 1 or 0.
    pub fn assert_entry<H: Host>(
        &self,
        shared: &mut ExecutorShared<H>,
        passed: bool,
    ) -> (answer: Result<(), JournalError>)
        ensures
            extends(final(shared)@.log, old(shared)@.log),
            same_tasks(old(shared)@, final(shared)@),
            forall|script: Seq<Reply>|
                follows(script, final(shared)@.log) ==> #[trigger] plain_appended(
                    old(shared)@,
                    self.task,
                    assert_payload(passed),
                    script,
                ) == (answer, final(shared)@),
    {
        let detail: u64 = if passed {
            1
        } else {
            0
        };
        let payload = EntryPayload::Assert {
            predicate: assert_schema(),
            passed,
            detail: CanonicalValue::Unsigned(detail),
        };
        assert(payload@ == assert_payload(passed));
        self.append_plain(shared, payload)
    }

    /// Journal the terminal `Outcome` entry of a finished program.
    pub fn outcome_done<H: Host>(
        &self,
        shared: &mut ExecutorShared<H>,
    ) -> (answer: Result<(), JournalError>)
        ensures
            extends(final(shared)@.log, old(shared)@.log),
            same_tasks(old(shared)@, final(shared)@),
            forall|script: Seq<Reply>|
                follows(script, final(shared)@.log) ==> #[trigger] plain_appended(
                    old(shared)@,
                    self.task,
                    ending_payload(),
                    script,
                ) == (answer, final(shared)@),
    {
        let payload = EntryPayload::Outcome {
            schema: outcome_schema(),
            value: CanonicalValue::Text("done".to_owned()),
        };
        assert(payload@ == ending_payload());
        self.append_plain(shared, payload)
    }

    /// Journal an `Outcome` entry carrying the task register.
    pub fn outcome<H: Host>(
        &self,
        shared: &mut ExecutorShared<H>,
        value: u64,
    ) -> (answer: Result<EntryHash, JournalError>)
        ensures
            extends(final(shared)@.log, old(shared)@.log),
            same_tasks(old(shared)@, final(shared)@),
            forall|script: Seq<Reply>|
                follows(script, final(shared)@.log) ==> #[trigger] task_appended(
                    old(shared)@,
                    self.task,
                    Seq::empty(),
                    outcome_payload(value),
                    script,
                ) == (answer, final(shared)@),
    {
        let payload = EntryPayload::Outcome {
            schema: outcome_schema(),
            value: CanonicalValue::Unsigned(value),
        };
        assert(payload@ == outcome_payload(value));
        self.append(shared, Vec::new(), payload)
    }

    /// Toggle a directed partition; journals the fault and applies it
    /// immediately so replay follows causal order.
    pub fn apply_partition<H: Host>(
        &self,
        shared: &mut ExecutorShared<H>,
        src: usize,
        dst: usize,
    ) -> (answer: Result<EntryHash, JournalError>)
        ensures
            extends(final(shared)@.log, old(shared)@.log),
            same_tasks(old(shared)@, final(shared)@),
            forall|script: Seq<Reply>|
                follows(script, final(shared)@.log) ==> #[trigger] partition_applied(
                    old(shared)@,
                    self.task,
                    src,
                    dst,
                    script,
                ) == (answer, final(shared)@),
    {
        let id: EntryHash = match self.append(shared, Vec::new(), partitioned(src, dst)) {
            Ok(id) => id,
            Err(e) => return Err(e),
        };
        let fault = FaultSpec::Partition { src: task_actor(src), dst: task_actor(dst) };
        let _ = shared.net.apply_fault(&fault);
        Ok(id)
    }

    /// Return whether a message is currently deliverable to the task.
    pub fn has_ready_message<H: Host>(&self, shared: &mut ExecutorShared<H>) -> (yes: bool)
        ensures
            extends(final(shared)@.log, old(shared)@.log),
            same_tasks(old(shared)@, final(shared)@),
            forall|script: Seq<Reply>|
                follows(script, final(shared)@.log) ==> {
                    let (reply, w1) = #[trigger] told(old(shared)@, Ask::Now, script);
                    &&& final(shared)@ == w1
                    &&& yes == (first_ready(w1.net.queue, self.task, reply->Ticks_0) is Some)
                },
    {
        let now: u64 = shared.time();
        shared.net.has_ready_message(self.task, now)
    }

    /// Resolve a hostname; pure config lookup that journals nothing.
    pub fn resolve<H: Host>(&self, shared: &ExecutorShared<H>, name: &str) -> (actor: Option<usize>)
        ensures
            actor == resolved(shared@.dns, name@),
    {
        shared.dns.resolve(name)
    }

    /// Snapshot the captured effect origins in append order.
    pub fn origins_snapshot<H: Host>(&self, shared: &ExecutorShared<H>) -> (entries: Vec<
        (EntryHash, OriginSource),
    >)
        ensures
            entries@ == shared@.origins,
    {
        shared.origins.snapshot()
    }

    /// Set the task register.
    pub fn set_register<H: Host>(&self, shared: &mut ExecutorShared<H>, value: u64)
        requires
            self.task < old(shared)@.tasks.len(),
        ensures
            final(shared)@ == register_set(old(shared)@, self.task, value),
    {
        let entry: TaskEntry = shared.tasks[self.task];
        shared.tasks.set(self.task, TaskEntry { register: value, ..entry });
    }

    /// The task register.
    pub fn register<H: Host>(&self, shared: &ExecutorShared<H>) -> (value: u64)
        requires
            self.task < shared@.tasks.len(),
        ensures
            value == shared@.tasks[self.task as int].register,
    {
        shared.tasks[self.task].register
    }

    /// Spawn a child task; its body runs under a boundary of its own.
    pub fn spawn_task<H: Host>(
        &self,
        shared: &mut ExecutorShared<H>,
    ) -> (child: Boundary)
        ensures
            child.task == old(shared)@.tasks.len(),
            extends(final(shared)@.log, old(shared)@.log),
            forall|script: Seq<Reply>|
                follows(script, final(shared)@.log) ==> #[trigger] spawned(
                    old(shared)@,
                    script,
                ) == final(shared)@,
    {
        let id: usize = shared.tasks.len();
        shared.tasks.push(
            TaskEntry { blocked_on: None, done: false, register: 0, timer_fired: false },
        );
        let actor: ActorId = task_actor(id);
        let record = Record {
            actor,
            parents: Vec::new(),
            chained: false,
            payload: EntryPayload::Spawn { child_actor: actor },
        };
        assert(record@ == draft(
            actor_of(id),
            Seq::empty(),
            Payload::Spawn { child_actor: actor_of(id) },
        ));
        if let Err(error) = shared.journal_append(&record) {
            shared.record_journal_error(error);
        }
        shared.ready.push(id);
        Boundary { task: id }
    }

    /// Draw a word of one of the task's random streams, journaling the draw.
    pub fn next_u64<H: Host>(
        &self,
        shared: &mut ExecutorShared<H>,
        stream: StreamId,
    ) -> (word: u64)
        ensures
            extends(final(shared)@.log, old(shared)@.log),
            same_tasks(old(shared)@, final(shared)@),
            forall|script: Seq<Reply>|
                follows(script, final(shared)@.log) ==> #[trigger] word_drawn(
                    old(shared)@,
                    self.task,
                    stream.0,
                    script,
                ) == (word, final(shared)@),
    {
        let at: usize = match find_stream(&shared.streams, self.task, stream.0) {
            Some(i) => i,
            None => {
                let label: String = label_of(stream.0);
                let seed: [u8; 32] = shared.host.stream_seed(label.as_str());
                proof {
                    lemma_told(
                        old(shared)@,
                        Ask::StreamSeed { label: stream_label(stream.0) },
                        Reply::Seed(seed),
                        shared@,
                    );
                }
                shared.streams.push(
                    StreamState { task: self.task, stream: stream.0, seed, drawn: 0 },
                );
                shared.streams.len() - 1
            },
        };
        let state: StreamState = shared.streams[at];
        let word: u64 = read_word(&state);
        shared.streams.set(at, StreamState { drawn: bump(state.drawn), ..state });
        let payload = EntryPayload::RngDraw { stream, draw_index: 0, content: u64_le(word) };
        assert(payload@ == Payload::RngDraw {
            stream: StreamId(stream.0),
            draw_index: 0,
            content: le(word as nat, 8),
        });
        let _ = self.keep(shared, Vec::new(), payload);
        word
    }

    /// Write a value to the page cache and return its journal entry id.
    pub fn write<H: Host>(
        &self,
        shared: &mut ExecutorShared<H>,
        path: &str,
        value: u64,
    ) -> (answer: Result<EntryHash, JournalError>)
        ensures
            extends(final(shared)@.log, old(shared)@.log),
            same_tasks(old(shared)@, final(shared)@),
            forall|script: Seq<Reply>|
                follows(script, final(shared)@.log) ==> #[trigger] value_written(
                    old(shared)@,
                    self.task,
                    path@,
                    value,
                    script,
                ) == (answer, final(shared)@),
    {
        let actor: ActorId = task_actor(self.task);
        let written: Result<EntryHash, JournalError> = shared.host.fs_write(actor, path, value);
        proof {
            lemma_told(
                old(shared)@,
                Ask::FsWrite { actor, path: path@, value },
                Reply::Appended(written),
                shared@,
            );
        }
        let id: EntryHash = match written {
            Ok(id) => id,
            Err(e) => return Err(e),
        };
        shared.note_journaled(actor);
        shared.notify_entry(actor, EntryKind::FsWrite, self.task, Some(id));
        if let Err(e) = self.inject_write_fault(shared, id, path) {
            return Err(e);
        }
        if let Err(e) = self.maybe_crash_on_write(shared, path, id) {
            return Err(e);
        }
        Ok(id)
    }

    /// Flush all dirty page-cache entries to durable synced storage.
    pub fn fsync<H: Host>(
        &self,
        shared: &mut ExecutorShared<H>,
    ) -> (answer: Result<EntryHash, JournalError>)
        ensures
            extends(final(shared)@.log, old(shared)@.log),
            same_tasks(old(shared)@, final(shared)@),
            forall|script: Seq<Reply>|
                follows(script, final(shared)@.log) ==> #[trigger] flushed(
                    old(shared)@,
                    self.task,
                    script,
                ) == (answer, final(shared)@),
    {
        let actor: ActorId = task_actor(self.task);
        let synced: Result<EntryHash, JournalError> = shared.host.fs_fsync(actor);
        proof {
            lemma_told(old(shared)@, Ask::FsFsync { actor }, Reply::Appended(synced), shared@);
        }
        match synced {
            Ok(id) => {
                shared.note_journaled(actor);
                shared.notify_entry(actor, EntryKind::FsFsync, self.task, Some(id));
                Ok(id)
            },
            Err(e) => Err(e),
        }
    }

    /// Read a value from page cache, recording provenance of the observed write.
    ///
    /// The read's journal entry is the actor's head afterwards.
    pub fn read<H: Host>(
        &self,
        shared: &mut ExecutorShared<H>,
        path: &str,
    ) -> (answer: Result<Option<u64>, JournalError>)
        ensures
            extends(final(shared)@.log, old(shared)@.log),
            same_tasks(old(shared)@, final(shared)@),
            forall|script: Seq<Reply>|
                follows(script, final(shared)@.log) ==> #[trigger] value_read(
                    old(shared)@,
                    self.task,
                    path@,
                    script,
                ) == (answer, final(shared)@),
    {
        let actor: ActorId = task_actor(self.task);
        let found: Result<Option<u64>, JournalError> = shared.host.fs_read(actor, path);
        proof {
            lemma_told(
                old(shared)@,
                Ask::FsRead { actor, path: path@ },
                Reply::Value(found),
                shared@,
            );
        }
        let value: Option<u64> = match found {
            Ok(value) => value,
            Err(e) => return Err(e),
        };
        shared.note_journaled(actor);
        let ghost before = shared@;
        let head: Option<EntryHash> = shared.host.head_for_actor(actor);
        proof {
            lemma_told(before, Ask::HeadForActor { actor }, Reply::Head(head), shared@);
        }
        shared.notify_entry(actor, EntryKind::FsRead, self.task, head);
        Ok(value)
    }

    /// Journal the crash-fault entry and fold storage into the post-crash
    /// state. Returns the entry id when journaling worked.
    pub fn crash<H: Host>(
        &self,
        shared: &mut ExecutorShared<H>,
    ) -> (id: Option<EntryHash>)
        ensures
            extends(final(shared)@.log, old(shared)@.log),
            same_tasks(old(shared)@, final(shared)@),
            forall|script: Seq<Reply>|
                follows(script, final(shared)@.log) ==> #[trigger] crashed(
                    old(shared)@,
                    self.task,
                    script,
                ) == (id, final(shared)@),
    {
        let payload: EntryPayload = crashed_by(self.task, CrashOperation::DropAllUnsynced);
        let id: Option<EntryHash> = self.keep(shared, Vec::new(), payload);
        self.fs_crash(shared);
        id
    }

    /// Attach an origin to a journaled entry.
    pub fn record_origin<H: Host>(
        &self,
        shared: &mut ExecutorShared<H>,
        id: EntryHash,
        at: OriginSource,
    )
        ensures
            final(shared)@ == origin_kept(old(shared)@, id, Some(at)),
    {
        shared.origins.record(id, at);
    }
}

} // verus!
