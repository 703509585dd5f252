//! Laws of single effects.

use crate::books::sound;
use crate::config::SimFault;
use crate::host::{Ask, Reply};
use crate::ids::{EntryHash, MessageId};
use crate::journal::{FaultModel, JournalError, Payload, PayloadFault};
use crate::model::{
    actor_of, bytes_sent, carried, clock_read, crash_sampled, crashed, delay_of, drop_payload,
    duplicates, flushed, identified, injection_for, kept, loss_kept, marked, net_chance, noted,
    partition_applied, partition_payload, receive_polled, received_now, recv_kept, recv_payload,
    refusal_kept, send_injected, sends_of, settled, sleep_begun, sleep_polled, spawned,
    stream_opened, swarm_decided, task_appended, told, transmitted, value_read, value_written,
    word_drawn, write_injected, BlockedOn, SendFault, SendOutcome, SwarmAction, World,
};
use crate::net::{capacity_fault, policy_of, tick_sum, Envelope, QueueFullPolicy};
use crate::origin::{law_record_then_get, origin_of, recorded, OriginSource};
use crate::soundness::{
    lemma_bytes_sent, lemma_clock_read, lemma_crashed, lemma_flushed, lemma_partition_applied,
    lemma_receive_polled, lemma_sleep_begun, lemma_sleep_polled, lemma_spawned, lemma_value_read,
    lemma_value_written, lemma_word_drawn,
};
use crate::stream::lemma_slot_names_stream;
use vstd::prelude::*;

verus! {

/// Swarm chances of zero neither draw nor journal: the message is delivered and
/// nothing changes.
pub proof fn law_zero_swarm_is_transparent(
    w: World,
    task: usize,
    send_id: EntryHash,
    message_id: MessageId,
    path: Seq<char>,
    write_id: EntryHash,
    script: Seq<Reply>,
)
    ensures
        w.swarm.drop_probability@ == 0 && (w.swarm.delay_probability@ == 0
            || w.swarm.max_delay_ticks == 0) ==> swarm_decided(
            w,
            task,
            send_id,
            message_id,
            script,
        ) == (SwarmAction::Deliver, w),
        w.swarm.crash_probability@ == 0 ==> crash_sampled(w, task, path, write_id, script) == (
            Ok::<(), JournalError>(()),
            w,
        ),
{
}

/// A drawn delay is within its bound, and the largest bound gives the draw
/// itself.
pub proof fn law_delay_is_within_its_bound(word: u64, max: u64)
    ensures
        delay_of(word, max) <= max,
        max == u64::MAX ==> delay_of(word, max) == word,
        max < u64::MAX ==> delay_of(word, max) as nat == word as nat % (max + 1) as nat,
{
}

/// The first recorded error stays.
pub proof fn law_first_error_wins(w: World, first: JournalError, second: JournalError)
    ensures
        w.journal_error is None ==> noted(noted(w, first), second).journal_error == Some(first),
        w.journal_error is Some ==> noted(w, first) == w,
{
}

/// A message to a full link is refused before any draw: neither the network
/// nor the log changes.
pub proof fn law_full_queue_draws_nothing(
    w: World,
    message: Envelope,
    now: u64,
    total_delay: u64,
    script: Seq<Reply>,
)
    requires
        !w.net.partitions.contains((message.from, message.to)),
        capacity_fault(w.net, message.from, message.to) is Some,
    ensures
        transmitted(w, message, now, total_delay, script) == (SendOutcome::QueueFull, w),
{
}

/// A message that is dropped, by the list of dropped events or by the fault
/// schedule, counts as sent and never reaches the network.
pub proof fn law_dropped_send_never_reaches_the_network(
    w: World,
    message: Envelope,
    now: u64,
    base_delay: u64,
    script: Seq<Reply>,
)
    requires
        w.dropped_events.contains(message.send_id) || injection_for(
            w.fault_schedule,
            message.send_id,
        ) matches Some(SimFault::Drop(_)),
    ensures
        carried(w, message, now, base_delay, script).0,
        carried(w, message, now, base_delay, script).1.net == w.net,
        !w.dropped_events.contains(message.send_id) ==> carried(
            w,
            message,
            now,
            base_delay,
            script,
        ).1.applied_faults.contains(message.send_id),
{
    let id = message.send_id;
    let payload = drop_payload(message.message_id);
    lemma_kept_frame(w, message.from, seq![id], payload, script);
    lemma_kept_frame(marked(w, id), message.from, seq![id], payload, script);
    lemma_marked_lists(w, id);
}

pub(crate) proof fn lemma_marked_lists(w: World, id: EntryHash)
    ensures
        marked(w, id).applied_faults.contains(id),
{
    if !w.applied_faults.contains(id) {
        assert(w.applied_faults.push(id)[w.applied_faults.len() as int] == id);
    }
}

/// Journaling an entry changes neither the network nor the applied faults nor
/// the origins.
proof fn lemma_kept_frame(
    w: World,
    task: usize,
    parents: Seq<EntryHash>,
    payload: Payload,
    script: Seq<Reply>,
)
    ensures
        kept(w, task, parents, payload, script).1.net == w.net,
        kept(w, task, parents, payload, script).1.applied_faults == w.applied_faults,
        kept(w, task, parents, payload, script).1.origins == w.origins,
{
}

/// A message longer than the journal takes is neither journaled nor queued; the
/// failure is recorded.
pub proof fn law_oversized_message_fails_closed(
    w: World,
    task: usize,
    to: usize,
    content: Seq<u8>,
    base_delay: u64,
    at: Option<OriginSource>,
    script: Seq<Reply>,
)
    requires
        content.len() > w.message_limit,
    ensures
        ({
            let (delivered, after) = bytes_sent(w, task, to, content, base_delay, at, script);
            &&& !delivered
            &&& after.net == w.net
            &&& after.log == told(w, Ask::Now, script).1.log
            &&& after.journal_error is Some
        }),
{
}

/// Two sends of a task never carry the same identity, as long as the counter
/// does not wrap.
pub proof fn law_message_identities_differ(w: World, task: usize)
    requires
        sends_of(w.send_seq, task) < u64::MAX,
    ensures
        identified(w, task).0.actor == actor_of(task),
        sends_of(identified(w, task).1.send_seq, task) == sends_of(w.send_seq, task) + 1,
        identified(identified(w, task).1, task).0 != identified(w, task).0,
{
}

/// A received message inherits the origin of its send.
pub proof fn law_receive_inherits_origin(
    w: World,
    task: usize,
    message: Envelope,
    id: EntryHash,
    origin: OriginSource,
    script: Seq<Reply>,
)
    requires
        kept(w, task, seq![message.send_id], recv_payload(task, message), script).0 == Some(id),
        origin_of(w.origins, message.send_id) == Some(origin),
        origin !is Unknown,
    ensures
        origin_of(recv_kept(w, task, message, script).origins, id) == Some(origin),
{
    lemma_kept_frame(w, task, seq![message.send_id], recv_payload(task, message), script);
    law_record_then_get(w.origins, id, origin, id);
}

/// The state with other origins.
pub open spec fn with_origins(w: World, origins: Seq<(EntryHash, OriginSource)>) -> World {
    World { origins, ..w }
}

proof fn lemma_kept_apart(
    w: World,
    o: Seq<(EntryHash, OriginSource)>,
    task: usize,
    parents: Seq<EntryHash>,
    payload: Payload,
    script: Seq<Reply>,
)
    ensures
        ({
            let (id, after) = kept(w, task, parents, payload, script);
            kept(with_origins(w, o), task, parents, payload, script) == (
                id,
                with_origins(after, o),
            )
        }),
        ({
            let (answer, after) = task_appended(w, task, parents, payload, script);
            task_appended(with_origins(w, o), task, parents, payload, script) == (
                answer,
                with_origins(after, o),
            )
        }),
{
}

proof fn lemma_transmitted_apart(
    w: World,
    o: Seq<(EntryHash, OriginSource)>,
    message: Envelope,
    now: u64,
    total_delay: u64,
    script: Seq<Reply>,
)
    ensures
        ({
            let (outcome, after) = transmitted(w, message, now, total_delay, script);
            transmitted(with_origins(w, o), message, now, total_delay, script) == (
                outcome,
                with_origins(after, o),
            )
        }),
{
}

proof fn lemma_swarm_apart(
    w: World,
    o: Seq<(EntryHash, OriginSource)>,
    task: usize,
    send_id: EntryHash,
    message_id: MessageId,
    script: Seq<Reply>,
)
    ensures
        ({
            let (action, after) = swarm_decided(w, task, send_id, message_id, script);
            swarm_decided(with_origins(w, o), task, send_id, message_id, script) == (
                action,
                with_origins(after, o),
            )
        }),
        ({
            let (fault, after) = send_injected(w, task, send_id, message_id, script);
            send_injected(with_origins(w, o), task, send_id, message_id, script) == (
                fault,
                with_origins(after, o),
            )
        }),
{
    let (dropped, w1) = net_chance(w, w.swarm.drop_probability@, script);
    assert(net_chance(with_origins(w, o), w.swarm.drop_probability@, script) == (
        dropped,
        with_origins(w1, o),
    ));
    lemma_kept_apart(w1, o, task, seq![send_id], drop_payload(message_id), script);
    lemma_kept_apart(
        marked(w, send_id),
        o,
        task,
        seq![send_id],
        drop_payload(message_id),
        script,
    );
}

proof fn lemma_settled_apart(
    w: World,
    o: Seq<(EntryHash, OriginSource)>,
    first: SendOutcome,
    message: Envelope,
    now: u64,
    total_delay: u64,
    script: Seq<Reply>,
)
    ensures
        ({
            let (delivered, after) = settled(w, first, message, now, total_delay, script);
            settled(with_origins(w, o), first, message, now, total_delay, script) == (
                delivered,
                with_origins(after, o),
            )
        }),
{
    let (task, to, id, message_id) = (
        message.from,
        message.to,
        message.send_id,
        message.message_id,
    );
    lemma_refusals_apart(w, o, task, id, to, message_id, script);
    if first is Queued && duplicates(w.fault_schedule, id) {
        let delivered = first->Queued_0;
        let duplicate = Payload::Fault(FaultModel::DuplicateMessage { message_id, copy_ordinal: 1 });
        lemma_kept_apart(marked(w, id), o, task, seq![id], duplicate, script);
        let w1 = kept(marked(w, id), task, seq![id], duplicate, script).1;
        lemma_transmitted_apart(w1, o, message, now, total_delay, script);
        let (second, w2) = transmitted(w1, message, now, total_delay, script);
        lemma_refusals_apart(w2, o, task, id, to, message_id, script);
        let w3 = if delivered {
            w2
        } else {
            loss_kept(w2, task, id, to, message_id, script)
        };
        lemma_refusals_apart(w3, o, task, id, to, message_id, script);
    }
}

proof fn lemma_refusals_apart(
    w: World,
    o: Seq<(EntryHash, OriginSource)>,
    task: usize,
    send_id: EntryHash,
    to: usize,
    message_id: MessageId,
    script: Seq<Reply>,
)
    ensures
        refusal_kept(with_origins(w, o), task, send_id, to, message_id, script) == with_origins(
            refusal_kept(w, task, send_id, to, message_id, script),
            o,
        ),
        loss_kept(with_origins(w, o), task, send_id, to, message_id, script) == with_origins(
            loss_kept(w, task, send_id, to, message_id, script),
            o,
        ),
{
    lemma_kept_apart(w, o, task, seq![send_id], drop_payload(message_id), script);
    lemma_kept_apart(w, o, task, seq![send_id], Payload::Block, script);
    lemma_kept_apart(w, o, task, seq![send_id], partition_payload(task, to), script);
}

proof fn lemma_carried_apart(
    w: World,
    o: Seq<(EntryHash, OriginSource)>,
    message: Envelope,
    now: u64,
    base_delay: u64,
    script: Seq<Reply>,
)
    ensures
        ({
            let (delivered, after) = carried(w, message, now, base_delay, script);
            carried(with_origins(w, o), message, now, base_delay, script) == (
                delivered,
                with_origins(after, o),
            )
        }),
{
    let (task, id, message_id) = (message.from, message.send_id, message.message_id);
    lemma_kept_apart(w, o, task, seq![id], drop_payload(message_id), script);
    lemma_swarm_apart(w, o, task, id, message_id, script);
    let (fault, w1) = send_injected(w, task, id, message_id, script);
    let injected = match fault {
        SendFault::Delayed(ticks) => ticks,
        _ => 0,
    };
    lemma_swarm_apart(w1, o, task, id, message_id, script);
    let (action, w2) = swarm_decided(w1, task, id, message_id, script);
    let total = match action {
        SwarmAction::Delay(extra) => tick_sum(tick_sum(base_delay, extra), injected),
        _ => tick_sum(base_delay, injected),
    };
    lemma_transmitted_apart(w2, o, message, now, total, script);
    let (first, w3) = transmitted(w2, message, now, total, script);
    lemma_settled_apart(w3, o, first, message, now, total, script);
}

/// Origin capture changes nothing but the origins: a send with an origin and
/// the same send without one deliver alike, ask the world the same questions
/// and leave the same state beside the origins.
pub proof fn law_origins_stay_out_of_the_journal(
    w: World,
    task: usize,
    to: usize,
    content: Seq<u8>,
    base_delay: u64,
    at: OriginSource,
    script: Seq<Reply>,
)
    ensures
        ({
            let (plain, a) = bytes_sent(w, task, to, content, base_delay, None, script);
            let (traced, b) = bytes_sent(w, task, to, content, base_delay, Some(at), script);
            plain == traced && a.log == b.log && b == with_origins(a, b.origins)
        }),
{
    let (reply, w1) = told(w, Ask::Now, script);
    let now = reply->Ticks_0;
    let (message_id, w2) = identified(w1, task);
    let payload = Payload::Send {
        message_id,
        from: actor_of(task),
        to: actor_of(to),
        original_content: content,
    };
    let (answer, w3) = task_appended(w2, task, Seq::empty(), payload, script);
    if let Ok(id) = answer {
        let message = Envelope { from: task, to, content, send_id: id, message_id, deliver_at: now };
        lemma_carried_apart(
            w3,
            recorded(w3.origins, id, at),
            message,
            now,
            base_delay,
            script,
        );
    }
}

/// A crash state without operator fails before storage is touched or anything
/// is journaled.
pub proof fn law_unknown_crash_state_fails_closed(
    w: World,
    task: usize,
    write_id: EntryHash,
    path: Seq<char>,
    write: EntryHash,
    state: u64,
    script: Seq<Reply>,
)
    requires
        injection_for(w.fault_schedule, write_id) == Some(SimFault::CrashState { write, state }),
        state > 2,
    ensures
        write_injected(w, task, write_id, path, script) == (
            Err::<(), JournalError>(
                JournalError::InvalidPayload(
                    PayloadFault::UnknownCrashState { identifier: state },
                ),
            ),
            w,
        ),
{
}

/// A delayed or dropped send is marked as applied, once.
pub proof fn law_applied_faults_are_marked_once(w: World, id: EntryHash)
    ensures
        marked(w, id).applied_faults.contains(id),
        marked(marked(w, id), id) == marked(w, id),
        w.applied_faults.no_duplicates() ==> marked(w, id).applied_faults.no_duplicates(),
{
    lemma_marked_lists(w, id);
    let before = w.applied_faults;
    let after = marked(w, id).applied_faults;
    if before.no_duplicates() && !before.contains(id) {
        assert forall|i: int, j: int|
            0 <= i < after.len() && 0 <= j < after.len() && i != j implies after[i] != after[j] by {
            if i < before.len() && j < before.len() {
                assert(before[i] != before[j]);
            }
        }
    }
}

/// Backpressure wins over duplication: a send that a full link refused is not
/// transmitted again.
pub proof fn law_refused_send_is_not_duplicated(
    w: World,
    message: Envelope,
    now: u64,
    total_delay: u64,
    script: Seq<Reply>,
)
    ensures
        !settled(w, SendOutcome::QueueFull, message, now, total_delay, script).0,
        settled(w, SendOutcome::QueueFull, message, now, total_delay, script).1.net == w.net,
{
    let payload = match policy_of(w.net, message.from, message.to) {
        QueueFullPolicy::Drop => drop_payload(message.message_id),
        QueueFullPolicy::Block => Payload::Block,
    };
    lemma_kept_frame(w, message.from, seq![message.send_id], payload, script);
}

/// A sleep ends exactly once per fired timer.
pub proof fn law_sleep_ends_once(w: World, task: usize)
    requires
        task < w.tasks.len(),
    ensures
        sleep_polled(w, task).0 == w.tasks[task as int].timer_fired,
        !sleep_polled(sleep_polled(w, task).1, task).0,
{
}

/// A receive that finds nothing parks its task on a message.
pub proof fn law_empty_receive_parks(w: World, task: usize, script: Seq<Reply>)
    requires
        task < w.tasks.len(),
        receive_polled(w, task, script).0 is None,
    ensures
        receive_polled(w, task, script).1.tasks[task as int].blocked_on == Some(BlockedOn::Message),
{
    let w1 = received_now(w, task, script).1;
    assert(kept(w1, task, Seq::empty(), Payload::Block, script).1.tasks == w1.tasks);
}

/// Streams are independent: a draw from one leaves every other stream where it
/// was.
pub proof fn law_streams_are_independent(
    w: World,
    task: usize,
    stream: u32,
    script: Seq<Reply>,
    i: int,
)
    requires
        0 <= i < w.streams.len(),
        !(w.streams[i].task == task && w.streams[i].stream == stream),
    ensures
        word_drawn(w, task, stream, script).1.streams.len() >= w.streams.len(),
        word_drawn(w, task, stream, script).1.streams[i] == w.streams[i],
{
    lemma_slot_names_stream(w.streams, task, stream);
    let (k, w1) = stream_opened(w, task, stream, script);
    assert(k != i);
}

/// Every effect of a task keeps the books, whatever the world answers: coverage
/// counts match the journaled entries, every draw takes the next offset of its
/// stream, the crash classes stay within their budget, the first journal error
/// stays, and no configured value changes.
pub proof fn law_every_effect_keeps_the_books(
    w: World,
    task: usize,
    to: usize,
    content: Seq<u8>,
    ticks: u64,
    path: Seq<char>,
    value: u64,
    stream: u32,
    src: usize,
    dst: usize,
    at: Option<OriginSource>,
    script: Seq<Reply>,
)
    ensures
        sound(w, spawned(w, script)),
        sound(w, clock_read(w, task, script).1),
        sound(w, word_drawn(w, task, stream, script).1),
        sound(w, sleep_begun(w, task, ticks, script)),
        sound(w, sleep_polled(w, task).1),
        sound(w, bytes_sent(w, task, to, content, ticks, at, script).1),
        sound(w, receive_polled(w, task, script).1),
        sound(w, partition_applied(w, task, src, dst, script).1),
        sound(w, value_written(w, task, path, value, script).1),
        sound(w, flushed(w, task, script).1),
        sound(w, value_read(w, task, path, script).1),
        sound(w, crashed(w, task, script).1),
{
    lemma_spawned(w, script);
    lemma_clock_read(w, task, script);
    lemma_word_drawn(w, task, stream, script);
    lemma_sleep_begun(w, task, ticks, script);
    lemma_sleep_polled(w, task);
    lemma_bytes_sent(w, task, to, content, ticks, at, script);
    lemma_receive_polled(w, task, script);
    lemma_partition_applied(w, task, src, dst, script);
    lemma_value_written(w, task, path, value, script);
    lemma_flushed(w, task, script);
    lemma_value_read(w, task, path, script);
    lemma_crashed(w, task, script);
}

} // verus!
