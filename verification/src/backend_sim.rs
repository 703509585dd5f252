//! Simulation backend of a single actor: network, storage, time and random
//! streams, every effect journaled.

use crate::bytes::{le, u64_le};
use crate::config::{Crash, CrashOperation};
use crate::effects::{fs_answer, FsError};
use crate::executor::{copy_bytes, one, task_actor};
use crate::host::{extends, follows, Ask, Host, Reply, SeedStream, TimerFired};
use crate::ids::{ActorId, EntryHash, StreamId};
use crate::journal::{
    draft, EntryPayload, FaultModel, FaultPayload, JournalError, Payload, Record, WakePayload,
};
use crate::model::{actor_of, recv_payload};
use crate::net::{
    envelope_of, first_ready, next_window, received, recv_bound, sent, served, served_drawn,
    Envelope, Message, NetError, NetState, SimNet,
};
use crate::origin::{origin_of, recorded, OriginLog, OriginSource};
use crate::schedule::at_most_one;
use crate::stream::{
    bump, find_stream, label_of, next_count, next_word, read_word, stream_label, stream_slot,
    StreamState,
};
use vstd::prelude::*;

verus! {

broadcast use {crate::host::lemma_extends, crate::host::lemma_follows};

/// State of a backend, with the log of questions to the world.
#[verifier::ext_equal]
pub struct BackendState {
    pub log: Seq<(Ask, Reply)>,
    pub net: NetState,
    pub actor: ActorId,
    pub journal_error: Option<JournalError>,
    pub reorder_draw: bool,
    pub net_offset: u64,
    /// Last published time, if anybody listens.
    pub tick_sink: Option<u64>,
    pub origins: Seq<(EntryHash, OriginSource)>,
    pub streams: Seq<StreamState>,
}

/// Ask the world a question: the script holds the answer.
pub open spec fn asked(s: BackendState, ask: Ask, script: Seq<Reply>) -> (Reply, BackendState) {
    let reply = script[s.log.len() as int];
    (reply, BackendState { log: s.log.push((ask, reply)), ..s })
}

/// Append an entry; the first failure is remembered.
pub open spec fn entered(
    s: BackendState,
    parents: Seq<EntryHash>,
    payload: Payload,
    script: Seq<Reply>,
) -> (Option<EntryHash>, BackendState) {
    let (reply, s1) = asked(s, Ask::Append { record: draft(s.actor, parents, payload) }, script);
    match reply->Appended_0 {
        Ok(id) => (Some(id), s1),
        Err(e) => (
            None,
            BackendState {
                journal_error: if s1.journal_error is None {
                    Some(e)
                } else {
                    s1.journal_error
                },
                ..s1
            },
        ),
    }
}

/// Publish the current time to whoever listens.
pub open spec fn ticks_published(s: BackendState, script: Seq<Reply>) -> BackendState {
    if s.tick_sink is None {
        s
    } else {
        let (reply, s1) = asked(s, Ask::Now, script);
        BackendState { tick_sink: Some(reply->Ticks_0), ..s1 }
    }
}

/// Read the time without journaling the read.
pub open spec fn clock_glanced(s: BackendState, script: Seq<Reply>) -> (u64, BackendState) {
    let (reply, s1) = asked(ticks_published(s, script), Ask::Now, script);
    (reply->Ticks_0, s1)
}

/// The stream of a number, seeded when it is first used.
pub open spec fn seeded(s: BackendState, stream: u32, script: Seq<Reply>) -> (int, BackendState) {
    match stream_slot(s.streams, s.actor.0 as usize, stream) {
        Some(i) => (i, s),
        None => {
            let (reply, s1) = asked(s, Ask::StreamSeed { label: stream_label(stream) }, script);
            let state = StreamState {
                task: s.actor.0 as usize,
                stream,
                seed: reply->Seed_0,
                drawn: 0,
            };
            (s.streams.len() as int, BackendState { streams: s.streams.push(state), ..s1 })
        },
    }
}

/// Draw a word of a stream and journal the draw.
pub open spec fn drawn(s: BackendState, stream: u32, script: Seq<Reply>) -> (u64, BackendState) {
    let (i, s1) = seeded(s, stream, script);
    let state = s1.streams[i];
    let word = next_word(state);
    let s2 = BackendState {
        streams: s1.streams.update(i, StreamState { drawn: next_count(state.drawn), ..state }),
        ..s1
    };
    let payload = Payload::RngDraw {
        stream: StreamId(stream),
        draw_index: 0,
        content: le(word as nat, 8),
    };
    (word, entered(s2, Seq::empty(), payload, script).1)
}

/// Journal a fired timer, and its wake-up once that worked.
pub open spec fn firing_journaled(
    s: BackendState,
    timer: TimerFired,
    script: Seq<Reply>,
) -> BackendState {
    let (id, s1) = entered(
        s,
        at_most_one(timer.enabler),
        Payload::TimerFire { timer_id: 0, deadline_ticks: 0 },
        script,
    );
    match id {
        Some(fire) => entered(
            s1,
            seq![fire],
            Payload::Wake(WakePayload::TimerReady { timer_id: 0 }),
            script,
        ).1,
        None => s1,
    }
}

/// Journal fired timers in order.
pub open spec fn firings_journaled(
    s: BackendState,
    fired: Seq<TimerFired>,
    script: Seq<Reply>,
) -> BackendState
    decreases fired.len(),
{
    if fired.len() == 0 {
        s
    } else {
        firing_journaled(
            firings_journaled(s, fired.drop_last(), script),
            fired.last(),
            script,
        )
    }
}

/// Sleep: arm a timer, move time to the next deadline and journal what fired.
pub open spec fn slept(s: BackendState, ticks: u64, script: Seq<Reply>) -> BackendState {
    let (set, s1) = entered(
        s,
        Seq::empty(),
        Payload::TimerSet { timer_id: 0, deadline_ticks: ticks },
        script,
    );
    let s2 = asked(
        s1,
        Ask::SetTimer { ticks, task: s.actor.0 as usize, enabler: set },
        script,
    ).1;
    let (reply, s3) = asked(s2, Ask::AdvanceFiring, script);
    ticks_published(firings_journaled(s3, reply->Fired_0, script), script)
}

/// The payload of a send.
pub open spec fn frame_payload(message: Envelope) -> Payload {
    Payload::Send {
        message_id: message.message_id,
        from: actor_of(message.from),
        to: actor_of(message.to),
        original_content: message.content,
    }
}

/// Journal a send and hand the message to the network under the entry's id.
/// A send that could not be journaled reaches no network.
pub open spec fn dispatched(s: BackendState, message: Envelope, script: Seq<Reply>) -> (
    (bool, Option<EntryHash>),
    BackendState,
) {
    let (entry, s1) = entered(s, Seq::empty(), frame_payload(message), script);
    match entry {
        None => ((false, None), s1),
        Some(id) => {
            let (answer, net) = sent(s1.net, Envelope { send_id: id, ..message });
            ((answer == Ok::<bool, NetError>(true), Some(id)), BackendState { net, ..s1 })
        },
    }
}

/// Record where an entry came from.
pub open spec fn traced(s: BackendState, id: Option<EntryHash>, at: OriginSource) -> BackendState {
    match id {
        Some(entry) => BackendState { origins: recorded(s.origins, entry, at), ..s },
        None => s,
    }
}

/// Journal a send with its origin.
pub open spec fn dispatched_from(
    s: BackendState,
    message: Envelope,
    at: OriginSource,
    script: Seq<Reply>,
) -> (bool, BackendState) {
    let ((queued, id), s1) = dispatched(s, message, script);
    (queued, traced(s1, id, at))
}

/// Take a message from the network.
pub open spec fn collected(s: BackendState, task: usize, now: u64, script: Seq<Reply>) -> (
    Option<Envelope>,
    BackendState,
) {
    let window = next_window(s.net, task, now);
    if s.reorder_draw {
        match recv_bound(s.net, task, now) {
            None => {
                let (message, net) = received(
                    s.net,
                    served_drawn(s.net.queue, task, now, window, 0),
                );
                (message, BackendState { net, ..s })
            },
            Some(bound) => {
                let (reply, s1) = asked(
                    s,
                    Ask::Draw { stream: SeedStream::Net, offset: s.net_offset },
                    script,
                );
                let word = if bound == 0 {
                    0
                } else {
                    reply->Word_0 % bound
                };
                let (message, net) = received(
                    s.net,
                    served_drawn(s.net.queue, task, now, window, word),
                );
                (message, BackendState { net, net_offset: next_count(s.net_offset), ..s1 })
            },
        }
    } else {
        let (message, net) = received(s.net, served(s.net.queue, task, now, window));
        (message, BackendState { net, ..s })
    }
}

/// Take a message, journal the receive and let its entry inherit the origin of
/// the send.
pub open spec fn accepted(s: BackendState, task: usize, now: u64, script: Seq<Reply>) -> (
    Option<Envelope>,
    BackendState,
) {
    let (message, s1) = collected(s, task, now, script);
    match message {
        None => (None, s1),
        Some(m) => {
            let (id, s2) = entered(s1, seq![m.send_id], recv_payload(task, m), script);
            (
                message,
                match origin_of(s2.origins, m.send_id) {
                    Some(origin) => traced(s2, id, origin),
                    None => s2,
                },
            )
        },
    }
}

/// Write a value to storage.
pub open spec fn stored(s: BackendState, path: Seq<char>, value: u64, script: Seq<Reply>) -> (
    Result<EntryHash, JournalError>,
    BackendState,
) {
    let (reply, s1) = asked(s, Ask::FsWrite { actor: s.actor, path, value }, script);
    (reply->Appended_0, s1)
}

/// Flush storage.
pub open spec fn synced(s: BackendState, script: Seq<Reply>) -> (
    Result<EntryHash, JournalError>,
    BackendState,
) {
    let (reply, s1) = asked(s, Ask::FsFsync { actor: s.actor }, script);
    (reply->Appended_0, s1)
}

/// Give a successful entry its origin.
pub open spec fn answer_traced(
    s: BackendState,
    answer: Result<EntryHash, JournalError>,
    at: OriginSource,
) -> BackendState {
    match answer {
        Ok(id) => traced(s, Some(id), at),
        Err(_) => s,
    }
}

/// Read a value from storage.
pub open spec fn loaded(s: BackendState, path: Seq<char>, script: Seq<Reply>) -> (
    Result<Option<u64>, JournalError>,
    BackendState,
) {
    let (reply, s1) = asked(s, Ask::FsRead { actor: s.actor, path }, script);
    (reply->Value_0, s1)
}

/// Journal the crash, then crash storage whether that worked or not.
pub open spec fn storage_crashed(s: BackendState, script: Seq<Reply>) -> (
    Option<EntryHash>,
    BackendState,
) {
    let (id, s1) = entered(
        s,
        Seq::empty(),
        Payload::Fault(
            FaultModel::CrashActor { actor: s.actor, crash_operation: Crash::DropAllUnsynced },
        ),
        script,
    );
    (id, asked(s1, Ask::FsCrash { journaled: false }, script).1)
}

/// A recorded answer is the one that every script following the log holds.
proof fn lemma_asked(before: BackendState, ask: Ask, reply: Reply, after: BackendState)
    requires
        after == (BackendState { log: before.log.push((ask, reply)), ..before }),
    ensures
        extends(after.log, before.log),
        forall|script: Seq<Reply>|
            follows(script, after.log) ==> #[trigger] asked(before, ask, script) == (reply, after),
{
    assert forall|script: Seq<Reply>| follows(script, after.log) implies #[trigger] asked(
        before,
        ask,
        script,
    ) == (reply, after) by {
        assert(script[before.log.len() as int] == after.log[before.log.len() as int].1);
    }
}

/// Deterministic simulation backend of one actor.
pub struct SimBackend<H: Host> {
    host: H,
    net: SimNet,
    actor: ActorId,
    journal_error: Option<JournalError>,
    reorder_draw: bool,
    net_offset: u64,
    tick_sink: Option<u64>,
    origins: OriginLog,
    streams: Vec<StreamState>,
}

impl<H: Host> View for SimBackend<H> {
    type V = BackendState;

    closed spec fn view(&self) -> BackendState {
        BackendState {
            log: self.host.asked(),
            net: self.net@,
            actor: self.actor,
            journal_error: self.journal_error,
            reorder_draw: self.reorder_draw,
            net_offset: self.net_offset,
            tick_sink: self.tick_sink,
            origins: self.origins@,
            streams: self.streams@,
        }
    }
}

/// The state of a backend that has done nothing yet, in a world with the given
/// past.
pub open spec fn fresh_backend(actor: ActorId, past: Seq<(Ask, Reply)>) -> BackendState {
    BackendState {
        log: past,
        net: NetState {
            queue: Seq::empty(),
            partitions: Set::empty(),
            window: 0,
            links: Map::empty(),
        },
        actor,
        journal_error: None,
        reorder_draw: false,
        net_offset: 0,
        tick_sink: None,
        origins: Seq::empty(),
        streams: Seq::empty(),
    }
}

impl<H: Host> SimBackend<H> {
    /// Create a backend for actor 0.
    pub fn new(host: H) -> (backend: SimBackend<H>)
        ensures
            backend@ == fresh_backend(ActorId(0), host.asked()),
    {
        Self::for_actor(host, ActorId(0))
    }

    /// Create a backend for a specific actor.
    pub fn for_actor(host: H, actor: ActorId) -> (backend: SimBackend<H>)
        ensures
            backend@ == fresh_backend(actor, host.asked()),
    {
        let ghost past = host.asked();
        let backend = SimBackend {
            host,
            net: SimNet::new(),
            actor,
            journal_error: None,
            reorder_draw: false,
            net_offset: 0,
            tick_sink: None,
            origins: OriginLog::default(),
            streams: Vec::new(),
        };
        assert(backend@ =~= fresh_backend(actor, past));
        backend
    }

    /// Serve a seeded draw inside the reorder window instead of newest-first.
    pub fn set_reorder_draw(&mut self, reorder_draw: bool)
        ensures
            final(self)@ == (BackendState { reorder_draw, ..old(self)@ }),
    {
        self.reorder_draw = reorder_draw;
    }

    /// Attach a tick sink that stands at a time.
    pub fn attach_tick_sink(&mut self, ticks: u64)
        ensures
            final(self)@ == (BackendState { tick_sink: Some(ticks), ..old(self)@ }),
    {
        self.tick_sink = Some(ticks);
    }

    /// Last time published to the tick sink.
    pub fn published_ticks(&self) -> (ticks: Option<u64>)
        ensures
            ticks == self@.tick_sink,
    {
        self.tick_sink
    }

    /// The first journaling failure recorded through the boundary, if any.
    pub fn journal_error(&self) -> (error: Option<JournalError>)
        ensures
            error == self@.journal_error,
    {
        self.journal_error
    }

    /// The actor this backend journals entries for.
    pub fn actor(&self) -> (actor: ActorId)
        ensures
            actor == self@.actor,
    {
        self.actor
    }

    /// The captured effect origins in append order.
    pub fn origins_snapshot(&self) -> (entries: Vec<(EntryHash, OriginSource)>)
        ensures
            entries@ == self@.origins,
    {
        self.origins.snapshot()
    }

    /// The origin of one journaled entry.
    pub fn origin_of(&self, id: &EntryHash) -> (source: Option<OriginSource>)
        ensures
            source == origin_of(self@.origins, *id),
    {
        match self.origins.get(id) {
            Some(origin) => Some(origin.clone()),
            None => None,
        }
    }

    /// The network.
    pub fn network(&mut self) -> (net: &mut SimNet)
        ensures
            (*net)@ == old(self)@.net,
            final(self)@ == (BackendState { net: (*final(net))@, ..old(self)@ }),
    {
        &mut self.net
    }

    /// The world around the backend.
    pub closed spec fn held(self) -> H {
        self.host
    }

    /// Give the world back.
    pub fn into_host(self) -> (host: H)
        ensures
            host == self.held(),
            host.asked() == self@.log,
    {
        self.host
    }

    /// Remember a journaling failure unless an earlier one is remembered.
    pub fn record_first_journal_error(&mut self, error: JournalError)
        ensures
            final(self)@ == (BackendState {
                journal_error: if old(self)@.journal_error is None {
                    Some(error)
                } else {
                    old(self)@.journal_error
                },
                ..old(self)@
            }),
    {
        if self.journal_error.is_none() {
            self.journal_error = Some(error);
        }
    }

    /// Append an entry through this backend's journaling path: its id, or
    /// nothing on failure.
    pub fn journal_append(&mut self, parents: Vec<EntryHash>, payload: EntryPayload) -> (id: Option<
        EntryHash,
    >)
        ensures
            extends(final(self)@.log, old(self)@.log),
            forall|script: Seq<Reply>|
                follows(script, final(self)@.log) ==> #[trigger] entered(
                    old(self)@,
                    parents@,
                    payload@,
                    script,
                ) == (id, final(self)@),
    {
        let ghost content = payload@;
        let ghost causes = parents@;
        let record = Record { actor: self.actor, parents, chained: false, payload };
        assert(record@ =~= draft(self.actor, causes, content));
        let answer: Result<EntryHash, JournalError> = self.host.append(&record);
        proof {
            lemma_asked(
                old(self)@,
                Ask::Append { record: record@ },
                Reply::Appended(answer),
                self@,
            );
        }
        match answer {
            Ok(id) => Some(id),
            Err(error) => {
                self.record_first_journal_error(error);
                None
            },
        }
    }

    /// Current virtual time.
    fn time(&mut self) -> (now: u64)
        ensures
            extends(final(self)@.log, old(self)@.log),
            forall|script: Seq<Reply>|
                follows(script, final(self)@.log) ==> #[trigger] asked(
                    old(self)@,
                    Ask::Now,
                    script,
                ) == (Reply::Ticks(now), final(self)@),
    {
        let now: u64 = self.host.now();
        proof {
            lemma_asked(old(self)@, Ask::Now, Reply::Ticks(now), self@);
        }
        now
    }

    /// Publish the current virtual time to the attached sink, if any.
    fn publish_ticks(&mut self)
        ensures
            extends(final(self)@.log, old(self)@.log),
            forall|script: Seq<Reply>|
                follows(script, final(self)@.log) ==> #[trigger] ticks_published(
                    old(self)@,
                    script,
                ) == final(self)@,
    {
        if self.tick_sink.is_some() {
            let now: u64 = self.time();
            self.tick_sink = Some(now);
        }
    }

    /// Read the clock without journaling the read.
    pub fn clock(&mut self) -> (now: u64)
        ensures
            extends(final(self)@.log, old(self)@.log),
            forall|script: Seq<Reply>|
                follows(script, final(self)@.log) ==> #[trigger] clock_glanced(
                    old(self)@,
                    script,
                ) == (now, final(self)@),
    {
        self.publish_ticks();
        self.time()
    }

    /// Draw the next word of a stream; every draw is journaled.
    pub fn next_u64(&mut self, stream: StreamId) -> (word: u64)
        ensures
            extends(final(self)@.log, old(self)@.log),
            forall|script: Seq<Reply>|
                follows(script, final(self)@.log) ==> #[trigger] drawn(
                    old(self)@,
                    stream.0,
                    script,
                ) == (word, final(self)@),
    {
        let task: usize = self.actor.0 as usize;
        let at: usize = match find_stream(&self.streams, task, stream.0) {
            Some(i) => i,
            None => {
                let label: String = label_of(stream.0);
                let seed: [u8; 32] = self.host.stream_seed(label.as_str());
                proof {
                    lemma_asked(
                        old(self)@,
                        Ask::StreamSeed { label: stream_label(stream.0) },
                        Reply::Seed(seed),
                        self@,
                    );
                }
                self.streams.push(StreamState { task, stream: stream.0, seed, drawn: 0 });
                self.streams.len() - 1
            },
        };
        let state: StreamState = self.streams[at];
        let word: u64 = read_word(&state);
        self.streams.set(at, StreamState { drawn: bump(state.drawn), ..state });
        let payload = EntryPayload::RngDraw { stream, draw_index: 0, content: u64_le(word) };
        assert(payload@ == Payload::RngDraw {
            stream: StreamId(stream.0),
            draw_index: 0,
            content: le(word as nat, 8),
        });
        let _ = self.journal_append(Vec::new(), payload);
        word
    }

    /// Journal a fired timer, and its wake-up once that worked.
    fn journal_firing(&mut self, timer: &TimerFired)
        ensures
            extends(final(self)@.log, old(self)@.log),
            forall|script: Seq<Reply>|
                follows(script, final(self)@.log) ==> #[trigger] firing_journaled(
                    old(self)@,
                    *timer,
                    script,
                ) == final(self)@,
    {
        let mut parents: Vec<EntryHash> = Vec::new();
        if let Some(enabler) = timer.enabler {
            parents.push(enabler);
        }
        assert(parents@ =~= at_most_one(timer.enabler));
        let payload = EntryPayload::TimerFire { timer_id: 0, deadline_ticks: 0 };
        assert(payload@ == Payload::TimerFire { timer_id: 0, deadline_ticks: 0 });
        if let Some(fire) = self.journal_append(parents, payload) {
            let wake = EntryPayload::Wake(WakePayload::TimerReady { timer_id: 0 });
            assert(wake@ == Payload::Wake(WakePayload::TimerReady { timer_id: 0 }));
            let _ = self.journal_append(one(fire), wake);
        }
    }

    /// Single-actor inline sleep; journals the same timer chain as the
    /// executor's batch path.
    pub fn sleep(&mut self, ticks: u64)
        ensures
            extends(final(self)@.log, old(self)@.log),
            forall|script: Seq<Reply>|
                follows(script, final(self)@.log) ==> #[trigger] slept(
                    old(self)@,
                    ticks,
                    script,
                ) == final(self)@,
    {
        let payload = EntryPayload::TimerSet { timer_id: 0, deadline_ticks: ticks };
        assert(payload@ == Payload::TimerSet { timer_id: 0, deadline_ticks: ticks });
        let set: Option<EntryHash> = self.journal_append(Vec::new(), payload);
        let ghost s1 = self@;
        let task: usize = self.actor.0 as usize;
        self.host.set_timer(ticks, task, set);
        proof {
            lemma_asked(s1, Ask::SetTimer { ticks, task, enabler: set }, Reply::Nothing, self@);
        }
        let ghost s2 = self@;
        let fired: Vec<TimerFired> = self.host.advance_firing();
        proof {
            lemma_asked(s2, Ask::AdvanceFiring, Reply::Fired(fired@), self@);
        }
        let ghost s3 = self@;
        let mut i: usize = 0;
        assert(fired@.take(0) =~= Seq::<TimerFired>::empty());
        while i < fired.len()
            invariant
                i <= fired@.len(),
                extends(self@.log, s3.log),
                forall|script: Seq<Reply>|
                    follows(script, self@.log) ==> #[trigger] firings_journaled(
                        s3,
                        fired@.take(i as int),
                        script,
                    ) == self@,
            decreases fired@.len() - i,
        {
            let ghost before = self@;
            self.journal_firing(&fired[i]);
            proof {
                let next = fired@.take(i + 1);
                assert(next.drop_last() =~= fired@.take(i as int));
                assert(next.last() == fired@[i as int]);
                assert forall|script: Seq<Reply>| follows(script, self@.log) implies
                    #[trigger] firings_journaled(s3, next, script) == self@ by {
                    assert(firings_journaled(s3, fired@.take(i as int), script) == before);
                    assert(firing_journaled(before, fired@[i as int], script) == self@);
                }
            }
            i = i + 1;
        }
        assert(fired@.take(i as int) =~= fired@);
        self.publish_ticks();
    }

    /// Append the send entry and hand the message to the network: delivery
    /// status, and the entry when journaling worked.
    fn send_impl(&mut self, message: Message) -> (r: (bool, Option<EntryHash>))
        ensures
            extends(final(self)@.log, old(self)@.log),
            forall|script: Seq<Reply>|
                follows(script, final(self)@.log) ==> #[trigger] dispatched(
                    old(self)@,
                    message@,
                    script,
                ) == (r, final(self)@),
    {
        let payload = EntryPayload::Send {
            message_id: message.message_id,
            from: task_actor(message.from),
            to: task_actor(message.to),
            original_content: copy_bytes(&message.content),
        };
        assert(payload@ == frame_payload(message@));
        match self.journal_append(Vec::new(), payload) {
            None => (false, None),
            Some(id) => {
                let ghost envelope = message@;
                let stamped = Message { send_id: id, ..message };
                assert(stamped@ == (Envelope { send_id: id, ..envelope }));
                (self.net.send(stamped), Some(id))
            },
        }
    }

    /// Queue a message for delivery: whether the network took it.
    pub fn send(&mut self, message: Message) -> (queued: bool)
        ensures
            extends(final(self)@.log, old(self)@.log),
            forall|script: Seq<Reply>|
                follows(script, final(self)@.log) ==> {
                    let (answer, after) = #[trigger] dispatched(old(self)@, message@, script);
                    answer.0 == queued && after == final(self)@
                },
    {
        self.send_impl(message).0
    }

    /// Queue a message for delivery, recording where the send came from.
    pub fn send_loc(&mut self, message: Message, at: OriginSource) -> (queued: bool)
        ensures
            extends(final(self)@.log, old(self)@.log),
            forall|script: Seq<Reply>|
                follows(script, final(self)@.log) ==> #[trigger] dispatched_from(
                    old(self)@,
                    message@,
                    at,
                    script,
                ) == (queued, final(self)@),
    {
        let (queued, id): (bool, Option<EntryHash>) = self.send_impl(message);
        if let Some(id) = id {
            self.origins.record(id, at);
        }
        queued
    }

    /// Take a message from the network.
    fn collect(&mut self, task: usize, now: u64) -> (message: Option<Message>)
        ensures
            extends(final(self)@.log, old(self)@.log),
            forall|script: Seq<Reply>|
                follows(script, final(self)@.log) ==> #[trigger] collected(
                    old(self)@,
                    task,
                    now,
                    script,
                ) == (envelope_of(message), final(self)@),
    {
        if !self.reorder_draw {
            return self.net.recv_at(task, now);
        }
        match self.net.recv_draw(task, now) {
            None => self.net.recv_at_with(task, now, 0),
            Some(bound) => {
                let offset: u64 = self.net_offset;
                let value: u64 = self.host.draw(SeedStream::Net, offset);
                proof {
                    lemma_asked(
                        old(self)@,
                        Ask::Draw { stream: SeedStream::Net, offset },
                        Reply::Word(value),
                        self@,
                    );
                }
                self.net_offset = bump(offset);
                let word: u64 = if bound == 0 {
                    0
                } else {
                    value % bound
                };
                self.net.recv_at_with(task, now, word)
            },
        }
    }

    /// Take the first deliverable message for `task` available at `now`.
    pub fn recv(&mut self, task: usize, now: u64) -> (message: Option<Message>)
        ensures
            extends(final(self)@.log, old(self)@.log),
            forall|script: Seq<Reply>|
                follows(script, final(self)@.log) ==> #[trigger] accepted(
                    old(self)@,
                    task,
                    now,
                    script,
                ) == (envelope_of(message), final(self)@),
    {
        match self.collect(task, now) {
            None => None,
            Some(message) => {
                let payload = EntryPayload::Recv {
                    message_id: message.message_id,
                    from: task_actor(message.from),
                    to: task_actor(task),
                    observed_content: copy_bytes(&message.content),
                };
                assert(payload@ == recv_payload(task, message@));
                let id: Option<EntryHash> = self.journal_append(one(message.send_id), payload);
                let inherited: Option<OriginSource> = self.origin_of(&message.send_id);
                if let Some(origin) = inherited {
                    if let Some(id) = id {
                        self.origins.record(id, origin);
                    }
                }
                Some(message)
            },
        }
    }

    /// Whether a message for `task` is deliverable at `now`.
    pub fn has_ready_message(&self, task: usize, now: u64) -> (yes: bool)
        ensures
            yes == (first_ready(self@.net.queue, task, now) is Some),
    {
        self.net.has_ready_message(task, now)
    }

    fn write_impl(&mut self, path: &str, value: u64) -> (r: Result<EntryHash, JournalError>)
        ensures
            extends(final(self)@.log, old(self)@.log),
            forall|script: Seq<Reply>|
                follows(script, final(self)@.log) ==> #[trigger] stored(
                    old(self)@,
                    path@,
                    value,
                    script,
                ) == (r, final(self)@),
    {
        let actor: ActorId = self.actor;
        let answer: Result<EntryHash, JournalError> = self.host.fs_write(actor, path, value);
        proof {
            lemma_asked(
                old(self)@,
                Ask::FsWrite { actor, path: path@, value },
                Reply::Appended(answer),
                self@,
            );
        }
        answer
    }

    fn fsync_impl(&mut self) -> (r: Result<EntryHash, JournalError>)
        ensures
            extends(final(self)@.log, old(self)@.log),
            forall|script: Seq<Reply>|
                follows(script, final(self)@.log) ==> #[trigger] synced(
                    old(self)@,
                    script,
                ) == (r, final(self)@),
    {
        let actor: ActorId = self.actor;
        let answer: Result<EntryHash, JournalError> = self.host.fs_fsync(actor);
        proof {
            lemma_asked(old(self)@, Ask::FsFsync { actor }, Reply::Appended(answer), self@);
        }
        answer
    }

    fn crash_impl(&mut self) -> (id: Option<EntryHash>)
        ensures
            extends(final(self)@.log, old(self)@.log),
            forall|script: Seq<Reply>|
                follows(script, final(self)@.log) ==> #[trigger] storage_crashed(
                    old(self)@,
                    script,
                ) == (id, final(self)@),
    {
        let actor: ActorId = self.actor;
        let payload = EntryPayload::Fault(
            FaultPayload::CrashActor { actor, crash_operation: CrashOperation::DropAllUnsynced },
        );
        assert(payload@ == Payload::Fault(
            FaultModel::CrashActor { actor, crash_operation: Crash::DropAllUnsynced },
        ));
        let id: Option<EntryHash> = self.journal_append(Vec::new(), payload);
        let ghost mid = self@;
        self.host.fs_crash(false);
        proof {
            lemma_asked(mid, Ask::FsCrash { journaled: false }, Reply::Nothing, self@);
        }
        id
    }

    /// Write a value to the page cache: its journal entry.
    pub fn write(&mut self, path: &str, value: u64) -> (r: Result<EntryHash, FsError>)
        ensures
            extends(final(self)@.log, old(self)@.log),
            forall|script: Seq<Reply>|
                follows(script, final(self)@.log) ==> {
                    let (answer, after) = #[trigger] stored(old(self)@, path@, value, script);
                    fs_answer(answer) == r && after == final(self)@
                },
    {
        match self.write_impl(path, value) {
            Ok(id) => Ok(id),
            Err(e) => Err(FsError::from(e)),
        }
    }

    /// Write a value, recording where the write came from.
    pub fn write_loc(&mut self, path: &str, value: u64, at: OriginSource) -> (r: Result<
        EntryHash,
        FsError,
    >)
        ensures
            extends(final(self)@.log, old(self)@.log),
            forall|script: Seq<Reply>|
                follows(script, final(self)@.log) ==> {
                    let (answer, after) = #[trigger] stored(old(self)@, path@, value, script);
                    fs_answer(answer) == r && answer_traced(after, answer, at) == final(self)@
                },
    {
        match self.write_impl(path, value) {
            Ok(id) => {
                self.origins.record(id, at);
                Ok(id)
            },
            Err(e) => Err(FsError::from(e)),
        }
    }

    /// Flush all dirty page-cache entries to durable storage.
    pub fn fsync(&mut self) -> (r: Result<EntryHash, FsError>)
        ensures
            extends(final(self)@.log, old(self)@.log),
            forall|script: Seq<Reply>|
                follows(script, final(self)@.log) ==> {
                    let (answer, after) = #[trigger] synced(old(self)@, script);
                    fs_answer(answer) == r && after == final(self)@
                },
    {
        match self.fsync_impl() {
            Ok(id) => Ok(id),
            Err(e) => Err(FsError::from(e)),
        }
    }

    /// Flush, recording where the flush came from.
    pub fn fsync_loc(&mut self, at: OriginSource) -> (r: Result<EntryHash, FsError>)
        ensures
            extends(final(self)@.log, old(self)@.log),
            forall|script: Seq<Reply>|
                follows(script, final(self)@.log) ==> {
                    let (answer, after) = #[trigger] synced(old(self)@, script);
                    fs_answer(answer) == r && answer_traced(after, answer, at) == final(self)@
                },
    {
        match self.fsync_impl() {
            Ok(id) => {
                self.origins.record(id, at);
                Ok(id)
            },
            Err(e) => Err(FsError::from(e)),
        }
    }

    /// Read a value from the page cache.
    pub fn read(&mut self, path: &str) -> (r: Result<Option<u64>, FsError>)
        ensures
            extends(final(self)@.log, old(self)@.log),
            forall|script: Seq<Reply>|
                follows(script, final(self)@.log) ==> {
                    let (answer, after) = #[trigger] loaded(old(self)@, path@, script);
                    fs_answer(answer) == r && after == final(self)@
                },
    {
        let actor: ActorId = self.actor;
        let answer: Result<Option<u64>, JournalError> = self.host.fs_read(actor, path);
        proof {
            lemma_asked(
                old(self)@,
                Ask::FsRead { actor, path: path@ },
                Reply::Value(answer),
                self@,
            );
        }
        match answer {
            Ok(value) => Ok(value),
            Err(e) => Err(FsError::from(e)),
        }
    }

    /// Crash storage into the deterministic post-crash state.
    pub fn crash(&mut self)
        ensures
            extends(final(self)@.log, old(self)@.log),
            forall|script: Seq<Reply>|
                follows(script, final(self)@.log) ==> (#[trigger] storage_crashed(
                    old(self)@,
                    script,
                )).1 == final(self)@,
    {
        let _ = self.crash_impl();
    }

    /// Crash storage, recording where the crash came from.
    pub fn crash_loc(&mut self, at: OriginSource)
        ensures
            extends(final(self)@.log, old(self)@.log),
            forall|script: Seq<Reply>|
                follows(script, final(self)@.log) ==> {
                    let (id, after) = #[trigger] storage_crashed(old(self)@, script);
                    traced(after, id, at) == final(self)@
                },
    {
        if let Some(id) = self.crash_impl() {
            self.origins.record(id, at);
        }
    }
}

} // verus!
