//! Every operation keeps the books.

use crate::books::{
    ascending_actors, batch_share, booked, count_of, draws_in, entries_in, idle, lemma_sound_aside,
    lemma_sound_refl, share, sound, wrapped,
};
use crate::bytes::le;
use crate::config::{crash_of, Crash, SimFault};
use crate::host::{extends, Ask, Reply, SeedStream};
use crate::ids::{ActorId, EntryHash, MessageId, StreamId};
use crate::journal::{
    draft, kind_of, Draft, EntryKind, FaultModel, JournalError, Payload, PayloadFault,
};
use crate::model::{
    actor_of, appended, assert_payload, bumped, bytes_sent, carried, class_budget, clock_read,
    counted, crash_applied, crash_class, crash_payload, crash_sampled, crashed, delivered,
    drop_payload, duplicates, ending_payload, flushed, fresh_task, fs_crashed, fs_drawn, identified,
    injection_for, input_payload, joined, kept, loss_kept, marked, message_parked, message_taken,
    net_chance, net_drawn, net_drawn_below, noted, notified, origin_kept, outcome_payload, parked,
    partition_applied, partition_payload, receive_polled, received_now, recv_payload, refusal_kept,
    register_set, sampled_crash, send_injected, settled, signed, sleep_begun, sleep_parked,
    sleep_polled, spawned, stream_opened, swarm_decided, task_appended, timer_payload, told,
    transmitted, value_read, value_written, word_drawn, write_injected, BlockedOn, SendFault,
    SendOutcome, SwarmAction, World,
};
use crate::net::{draws_of, recv_bound, tick_sum, Envelope};
use crate::origin::{origin_of, OriginSource};
use crate::program::{executed, instruction_run, program_polled};
use crate::runtime::Instruction;
use crate::schedule::{batch_appended, batch_counted};
use crate::stream::{next_count, next_word, stream_label, stream_slot, StreamState};
use vstd::prelude::*;

verus! {

broadcast use crate::books::lemma_sound_chain;

proof fn lemma_pushed(log: Seq<(Ask, Reply)>, event: (Ask, Reply))
    ensures
        extends(log.push(event), log),
        log.push(event).drop_last() == log,
        forall|actor: u32| #[trigger]
            entries_in(log.push(event), actor) == entries_in(log, actor) + share(event, actor),
{
    assert(log.push(event).drop_last() =~= log);
}

/// Asking a question that neither draws nor journals.
pub proof fn lemma_idle(w: World, ask: Ask, script: Seq<Reply>)
    requires
        idle(ask),
    ensures
        sound(w, told(w, ask, script).1),
{
    reveal(sound);
    let after = told(w, ask, script).1;
    lemma_pushed(w.log, (ask, script[w.log.len() as int]));
    if booked(w) {
        assert forall|actor: u32| #[trigger]
            count_of(after.coverage, actor) == wrapped(entries_in(after.log, actor)) by {
            assert(entries_in(after.log, actor) == entries_in(w.log, actor));
        }
    }
}

/// Counting one more.
proof fn lemma_bumped(counts: Seq<(u32, u64)>, actor: u32, other: u32)
    requires
        ascending_actors(counts),
    ensures
        ascending_actors(bumped(counts, actor)),
        counts.len() > 0 && counts.last().0 < actor ==> bumped(counts, actor).last().0 == actor,
        counts.len() > 0 && counts.last().0 >= actor ==> bumped(counts, actor).last().0
            == counts.last().0,
        bumped(counts, actor).len() > 0,
        counts.len() == 0 ==> bumped(counts, actor).last().0 == actor,
        count_of(bumped(counts, actor), other) == if other == actor {
            next_count(count_of(counts, other))
        } else {
            count_of(counts, other)
        },
    decreases counts.len(),
{
    let after = bumped(counts, actor);
    if counts.len() == 0 {
        assert(after.drop_last() =~= Seq::<(u32, u64)>::empty());
        assert(count_of(after.drop_last(), other) == 0);
        assert(after.last() == (actor, 1u64));
    } else {
        let front = counts.drop_last();
        assert forall|i: int, j: int| 0 <= i < j < front.len() implies (#[trigger] front[i]).0 < (
        #[trigger] front[j]).0 by {
            assert(front[i] == counts[i] && front[j] == counts[j]);
        }
        if counts.last().0 == actor {
            assert(after.drop_last() =~= front);
            assert forall|i: int, j: int| 0 <= i < j < after.len() implies (#[trigger] after[i]).0
                < (#[trigger] after[j]).0 by {
                assert(after[i].0 == counts[i].0 && after[j].0 == counts[j].0);
            }
        } else if counts.last().0 < actor {
            assert(after.drop_last() =~= counts);
            assert(after.last() == (actor, 1u64));
            assert forall|i: int, j: int| 0 <= i < j < after.len() implies (#[trigger] after[i]).0
                < (#[trigger] after[j]).0 by {
                assert(after[i] == counts[i]);
                if j < counts.len() {
                    assert(after[j] == counts[j]);
                } else {
                    assert(counts[i].0 <= counts[counts.len() - 1].0);
                }
            }
            if other == actor {
                lemma_beyond(counts, actor);
            }
        } else {
            lemma_bumped(front, actor, other);
            let inner = bumped(front, actor);
            assert(after.drop_last() =~= inner);
            assert(after.last() == counts.last());
            if front.len() > 0 {
                assert(counts[front.len() - 1].0 < counts[counts.len() - 1].0);
            }
            lemma_below(front, actor, counts.last().0);
            assert forall|i: int, j: int| 0 <= i < j < after.len() implies (#[trigger] after[i]).0
                < (#[trigger] after[j]).0 by {
                assert(after[i] == inner[i]);
                if j < inner.len() {
                    assert(after[j] == inner[j]);
                } else {
                    if i < inner.len() - 1 {
                        assert(inner[i].0 < inner[inner.len() - 1].0);
                    }
                }
            }
        }
    }
}

/// An actor above all counted ones has no count.
proof fn lemma_beyond(counts: Seq<(u32, u64)>, actor: u32)
    requires
        ascending_actors(counts),
        counts.len() > 0 ==> counts.last().0 < actor,
    ensures
        count_of(counts, actor) == 0,
    decreases counts.len(),
{
    if counts.len() > 0 {
        let front = counts.drop_last();
        assert forall|i: int, j: int| 0 <= i < j < front.len() implies (#[trigger] front[i]).0 < (
        #[trigger] front[j]).0 by {
            assert(front[i] == counts[i] && front[j] == counts[j]);
        }
        if front.len() > 0 {
            assert(counts[front.len() - 1].0 < counts[counts.len() - 1].0);
        }
        lemma_beyond(front, actor);
    }
}

/// Counting an actor below a bound keeps the last counted actor below it.
proof fn lemma_below(front: Seq<(u32, u64)>, actor: u32, bound: u32)
    requires
        ascending_actors(front),
        actor < bound,
        front.len() > 0 ==> front.last().0 < bound,
    ensures
        bumped(front, actor).last().0 < bound,
    decreases front.len(),
{
}

proof fn lemma_wrapped(n: nat)
    ensures
        wrapped(n + 1) == next_count(wrapped(n)),
{
}

/// One more entry of an actor, journaled and counted.
proof fn lemma_count_one(w: World, ask: Ask, actor: ActorId, script: Seq<Reply>)
    requires
        ask !is Draw,
        forall|a: u32| #[trigger]
            share((ask, script[w.log.len() as int]), a) == if a == actor.0 {
                1nat
            } else {
                0nat
            },
    ensures
        sound(w, counted(told(w, ask, script).1, actor)),
{
    reveal(sound);
    let event = (ask, script[w.log.len() as int]);
    let after = counted(told(w, ask, script).1, actor);
    lemma_pushed(w.log, event);
    if booked(w) {
        lemma_bumped(w.coverage, actor.0, actor.0);
        assert forall|a: u32| #[trigger]
            count_of(after.coverage, a) == wrapped(entries_in(after.log, a)) by {
            lemma_bumped(w.coverage, actor.0, a);
            lemma_wrapped(entries_in(w.log, a));
            assert(count_of(w.coverage, a) == wrapped(entries_in(w.log, a)));
            assert(entries_in(after.log, a) == entries_in(w.log, a) + share(event, a));
        }
    }
}

/// A refused entry is not counted.
proof fn lemma_count_none(w: World, ask: Ask, script: Seq<Reply>)
    requires
        ask !is Draw,
        forall|a: u32| #[trigger] share((ask, script[w.log.len() as int]), a) == 0,
    ensures
        sound(w, told(w, ask, script).1),
{
    reveal(sound);
    let event = (ask, script[w.log.len() as int]);
    let after = told(w, ask, script).1;
    lemma_pushed(w.log, event);
    if booked(w) {
        assert forall|a: u32| #[trigger]
            count_of(after.coverage, a) == wrapped(entries_in(after.log, a)) by {
            assert(entries_in(after.log, a) == entries_in(w.log, a) + share(event, a));
        }
    }
}

/// Appending an entry.
pub proof fn lemma_appended(w: World, entry: Draft, script: Seq<Reply>)
    ensures
        sound(w, appended(w, entry, script).1),
{
    let ask = Ask::Append { record: entry };
    if script[w.log.len() as int]->Appended_0 is Ok {
        lemma_count_one(w, ask, entry.actor, script);
    } else {
        lemma_count_none(w, ask, script);
    }
}

proof fn lemma_counts_of_batch(w: World, batch: Seq<Draft>, actor: u32)
    requires
        ascending_actors(w.coverage),
    ensures
        ascending_actors(batch_counted(w, batch).coverage),
        forall|n: nat|
            count_of(w.coverage, actor) == #[trigger] wrapped(n) ==> count_of(
                batch_counted(w, batch).coverage,
                actor,
            ) == wrapped(n + batch_share(batch, actor)),
        batch_counted(w, batch) == (World {
            coverage: batch_counted(w, batch).coverage,
            ..w
        }),
    decreases batch.len(),
{
    if batch.len() > 0 {
        let front = batch.drop_last();
        lemma_counts_of_batch(w, front, actor);
        let before = batch_counted(w, front);
        lemma_bumped(before.coverage, batch.last().actor.0, actor);
        assert forall|n: nat|
            count_of(w.coverage, actor) == #[trigger] wrapped(n) implies count_of(
            batch_counted(w, batch).coverage,
            actor,
        ) == wrapped(n + batch_share(batch, actor)) by {
            lemma_wrapped(n + batch_share(front, actor));
            assert(count_of(before.coverage, actor) == wrapped(n + batch_share(front, actor)));
        }
    }
}

/// Appending a batch.
pub proof fn lemma_batch_appended(w: World, batch: Seq<Draft>, script: Seq<Reply>)
    ensures
        sound(w, batch_appended(w, batch, script).1),
{
    let ask = Ask::AppendBatch { batch };
    let event = (ask, script[w.log.len() as int]);
    let (reply, w1) = told(w, ask, script);
    if reply->Batch_0 is Ok {
        reveal(sound);
        let after = batch_counted(w1, batch);
        lemma_pushed(w.log, event);
        assert(after == (World { coverage: after.coverage, ..w1 })) by {
            lemma_batch_frame(w1, batch);
        }
        if booked(w) {
            lemma_counts_of_batch(w1, batch, 0);
            assert forall|a: u32| #[trigger]
                count_of(after.coverage, a) == wrapped(entries_in(after.log, a)) by {
                lemma_counts_of_batch(w1, batch, a);
                assert(count_of(w1.coverage, a) == wrapped(entries_in(w.log, a)));
                assert(entries_in(after.log, a) == entries_in(w.log, a) + share(event, a));
            }
        }
    } else {
        lemma_count_none(w, ask, script);
    }
}

proof fn lemma_batch_frame(w: World, batch: Seq<Draft>)
    ensures
        batch_counted(w, batch) == (World {
            coverage: batch_counted(w, batch).coverage,
            ..w
        }),
    decreases batch.len(),
{
    if batch.len() > 0 {
        lemma_batch_frame(w, batch.drop_last());
    }
}

/// Drawing from the network stream.
pub proof fn lemma_net_drawn(w: World, script: Seq<Reply>)
    ensures
        sound(w, net_drawn(w, script).1),
{
    reveal(sound);
    let ask = Ask::Draw { stream: SeedStream::Net, offset: w.net_offset };
    let after = net_drawn(w, script).1;
    lemma_pushed(w.log, (ask, script[w.log.len() as int]));
    lemma_wrapped(draws_in(w.log, SeedStream::Net));
    if booked(w) {
        assert forall|a: u32| #[trigger]
            count_of(after.coverage, a) == wrapped(entries_in(after.log, a)) by {
            assert(entries_in(after.log, a) == entries_in(w.log, a));
        }
    }
}

/// Drawing from the storage stream.
pub proof fn lemma_fs_drawn(w: World, script: Seq<Reply>)
    ensures
        sound(w, fs_drawn(w, script).1),
{
    reveal(sound);
    let ask = Ask::Draw { stream: SeedStream::Fs, offset: w.fs_offset };
    let after = fs_drawn(w, script).1;
    lemma_pushed(w.log, (ask, script[w.log.len() as int]));
    lemma_wrapped(draws_in(w.log, SeedStream::Fs));
    if booked(w) {
        assert forall|a: u32| #[trigger]
            count_of(after.coverage, a) == wrapped(entries_in(after.log, a)) by {
            assert(entries_in(after.log, a) == entries_in(w.log, a));
        }
    }
}

/// Recording an error.
pub proof fn lemma_noted(w: World, error: JournalError)
    ensures
        sound(w, noted(w, error)),
{
    lemma_sound_aside(w, noted(w, error));
}

/// Telling the scheduler of an entry.
pub proof fn lemma_notified(
    w: World,
    actor: ActorId,
    kind: EntryKind,
    task: usize,
    id: Option<EntryHash>,
    script: Seq<Reply>,
)
    ensures
        sound(w, notified(w, actor, kind, task, id, script)),
{
    let (reply, w1) = told(w, Ask::NoveltyActive, script);
    lemma_idle(w, Ask::NoveltyActive, script);
    if reply->Flag_0 {
        let (signature, w2) = match id {
            Some(entry) => signed(w1, entry, script),
            None => (None, w1),
        };
        match id {
            Some(entry) => {
                lemma_idle(w1, Ask::EntryClock { id: entry }, script);
            },
            None => {
                lemma_sound_refl(w1);
            },
        }
        assert(sound(w1, w2));
        lemma_idle(w2, Ask::EntryEmitted { actor, kind, task, signature }, script);
    }
}

/// Appending an entry of a task.
pub proof fn lemma_task_appended(
    w: World,
    task: usize,
    parents: Seq<EntryHash>,
    payload: Payload,
    script: Seq<Reply>,
)
    ensures
        sound(w, task_appended(w, task, parents, payload, script).1),
{
    let entry = draft(actor_of(task), parents, payload);
    let (answer, w1) = appended(w, entry, script);
    lemma_appended(w, entry, script);
    if let Ok(id) = answer {
        lemma_notified(w1, actor_of(task), kind_of(payload), task, Some(id), script);
    }
}

/// Appending an entry where a failure is recorded.
pub proof fn lemma_kept(
    w: World,
    task: usize,
    parents: Seq<EntryHash>,
    payload: Payload,
    script: Seq<Reply>,
)
    ensures
        sound(w, kept(w, task, parents, payload, script).1),
{
    let (answer, w1) = task_appended(w, task, parents, payload, script);
    lemma_task_appended(w, task, parents, payload, script);
    if let Err(e) = answer {
        lemma_noted(w1, e);
    }
}

/// Drawing a chance.
pub proof fn lemma_net_chance(w: World, chance: u64, script: Seq<Reply>)
    ensures
        sound(w, net_chance(w, chance, script).1),
{
    lemma_sound_refl(w);
    lemma_net_drawn(w, script);
}

/// Drawing below a bound.
pub proof fn lemma_net_drawn_below(w: World, bound: Option<u64>, script: Seq<Reply>)
    ensures
        sound(w, net_drawn_below(w, bound, script).1),
{
    lemma_sound_refl(w);
    lemma_net_drawn(w, script);
}

/// The swarm chances.
pub proof fn lemma_swarm_decided(
    w: World,
    task: usize,
    send_id: EntryHash,
    message_id: MessageId,
    script: Seq<Reply>,
)
    ensures
        sound(w, swarm_decided(w, task, send_id, message_id, script).1),
{
    let (dropped, w1) = net_chance(w, w.swarm.drop_probability@, script);
    lemma_net_chance(w, w.swarm.drop_probability@, script);
    lemma_kept(w1, task, seq![send_id], drop_payload(message_id), script);
    let (delayed, w2) = net_chance(w1, w.swarm.delay_probability@, script);
    lemma_net_chance(w1, w.swarm.delay_probability@, script);
    lemma_net_drawn(w2, script);
}

/// The sampled crash.
pub proof fn lemma_crash_sampled(
    w: World,
    task: usize,
    path: Seq<char>,
    write_id: EntryHash,
    script: Seq<Reply>,
)
    ensures
        sound(w, crash_sampled(w, task, path, write_id, script).1),
{
    lemma_sound_refl(w);
    let (word, w1) = fs_drawn(w, script);
    lemma_fs_drawn(w, script);
    let (choice, w2) = fs_drawn(w1, script);
    lemma_fs_drawn(w1, script);
    let operation = sampled_crash(choice, path, write_id);
    if w2.fault_classes_used.len() < class_budget(w.swarm) {
        let w3 = World {
            fault_classes_used: joined(w2.fault_classes_used, crash_class(operation)),
            ..w2
        };
        assert(sound(w2, w3)) by {
            assert(w2.swarm == w.swarm);
            lemma_joined(w2, w3, crash_class(operation));
        }
        let (reply, w4) = told(w3, Ask::FsApply { operation }, script);
        lemma_idle(w3, Ask::FsApply { operation }, script);
        match reply->Applied_0 {
            Err(reason) => {
                lemma_noted(
                    w4,
                    JournalError::InvalidPayload(PayloadFault::SwarmCrashRejected { reason }),
                );
            },
            Ok(_) => {
                lemma_task_appended(
                    w4,
                    task,
                    Seq::empty(),
                    crash_payload(task, operation),
                    script,
                );
            },
        }
    }
}

proof fn lemma_joined(a: World, b: World, class: u64)
    requires
        b == (World { fault_classes_used: joined(a.fault_classes_used, class), ..a }),
        a.fault_classes_used.len() < class_budget(a.swarm),
    ensures
        sound(a, b),
{
    reveal(sound);
    let before = a.fault_classes_used;
    let after = b.fault_classes_used;
    if booked(a) && !before.contains(class) {
        assert forall|i: int, j: int|
            0 <= i < after.len() && 0 <= j < after.len() && i != j implies after[i] != after[j] by {
            if i < before.len() && j < before.len() {
                assert(before[i] != before[j]);
            }
        }
    }
}

/// A scheduled crash operation.
pub proof fn lemma_crash_applied(
    w: World,
    task: usize,
    operation: Crash,
    corrupt: bool,
    script: Seq<Reply>,
)
    ensures
        sound(w, crash_applied(w, task, operation, corrupt, script).1),
{
    let (reply, w1) = told(w, Ask::FsApply { operation }, script);
    lemma_idle(w, Ask::FsApply { operation }, script);
    lemma_task_appended(w1, task, Seq::empty(), crash_payload(task, operation), script);
}

/// Marking a fault as applied.
pub proof fn lemma_marked(w: World, id: EntryHash)
    ensures
        sound(w, marked(w, id)),
{
    lemma_sound_aside(w, marked(w, id));
}

/// A scheduled fault of a send.
pub proof fn lemma_send_injected(
    w: World,
    task: usize,
    send_id: EntryHash,
    message_id: MessageId,
    script: Seq<Reply>,
)
    ensures
        sound(w, send_injected(w, task, send_id, message_id, script).1),
{
    lemma_sound_refl(w);
    lemma_marked(w, send_id);
    lemma_kept(marked(w, send_id), task, seq![send_id], drop_payload(message_id), script);
}

/// A storage crash.
pub proof fn lemma_fs_crashed(w: World, script: Seq<Reply>)
    ensures
        sound(w, fs_crashed(w, script)),
{
    lemma_idle(w, Ask::FsCrash { journaled: w.fs_journaling is Some }, script);
}

/// A scheduled fault of a write.
pub proof fn lemma_write_injected(
    w: World,
    task: usize,
    write_id: EntryHash,
    path: Seq<char>,
    script: Seq<Reply>,
)
    ensures
        sound(w, write_injected(w, task, write_id, path, script).1),
{
    lemma_sound_refl(w);
    let m = marked(w, write_id);
    lemma_marked(w, write_id);
    match injection_for(w.fault_schedule, write_id) {
        Some(SimFault::Crash(_)) => {
            lemma_fs_crashed(m, script);
            lemma_task_appended(
                fs_crashed(m, script),
                task,
                Seq::empty(),
                crash_payload(task, Crash::DropAllUnsynced),
                script,
            );
        },
        Some(SimFault::Corrupt { write, xor_mask }) => {
            let operation = crash_of(SimFault::Corrupt { write, xor_mask }, path)->Some_0->Ok_0;
            lemma_crash_applied(m, task, operation, true, script);
        },
        Some(SimFault::CrashState { write, state }) => {
            match crash_of(SimFault::CrashState { write, state }, path)->Some_0 {
                Err(_) => {},
                Ok(operation) => {
                    lemma_crash_applied(m, task, operation, false, script);
                },
            }
        },
        _ => {},
    }
}

/// The refusal of a full link.
pub proof fn lemma_refusal_kept(
    w: World,
    task: usize,
    send_id: EntryHash,
    to: usize,
    message_id: MessageId,
    script: Seq<Reply>,
)
    ensures
        sound(w, refusal_kept(w, task, send_id, to, message_id, script)),
{
    lemma_kept(w, task, seq![send_id], drop_payload(message_id), script);
    lemma_kept(w, task, seq![send_id], Payload::Block, script);
}

/// The loss of a message.
pub proof fn lemma_loss_kept(
    w: World,
    task: usize,
    send_id: EntryHash,
    to: usize,
    message_id: MessageId,
    script: Seq<Reply>,
)
    ensures
        sound(w, loss_kept(w, task, send_id, to, message_id, script)),
{
    lemma_kept(w, task, seq![send_id], drop_payload(message_id), script);
    lemma_kept(w, task, seq![send_id], partition_payload(task, to), script);
}

/// One transmission.
pub proof fn lemma_transmitted(
    w: World,
    message: Envelope,
    now: u64,
    total_delay: u64,
    script: Seq<Reply>,
)
    ensures
        sound(w, transmitted(w, message, now, total_delay, script).1),
{
    let after = transmitted(w, message, now, total_delay, script).1;
    let draws = draws_of(w.net, message.from, message.to);
    let (jitter, w1) = net_drawn_below(w, draws.0, script);
    lemma_net_drawn_below(w, draws.0, script);
    let (loss, w2) = net_drawn_below(w1, draws.1, script);
    lemma_net_drawn_below(w1, draws.1, script);
    if w.net.links.contains_key((message.from, message.to)) {
        lemma_sound_aside(w2, after);
    } else {
        lemma_sound_aside(w, after);
    }
}

/// What follows a first transmission.
pub proof fn lemma_settled(
    w: World,
    first: SendOutcome,
    message: Envelope,
    now: u64,
    total_delay: u64,
    script: Seq<Reply>,
)
    ensures
        sound(w, settled(w, first, message, now, total_delay, script).1),
{
    let (task, to, id, message_id) = (
        message.from,
        message.to,
        message.send_id,
        message.message_id,
    );
    lemma_sound_refl(w);
    lemma_refusal_kept(w, task, id, to, message_id, script);
    lemma_loss_kept(w, task, id, to, message_id, script);
    if first is Queued && duplicates(w.fault_schedule, id) {
        let delivered = first->Queued_0;
        let duplicate = Payload::Fault(FaultModel::DuplicateMessage { message_id, copy_ordinal: 1 });
        lemma_marked(w, id);
        lemma_kept(marked(w, id), task, seq![id], duplicate, script);
        let w1 = kept(marked(w, id), task, seq![id], duplicate, script).1;
        lemma_transmitted(w1, message, now, total_delay, script);
        let (second, w2) = transmitted(w1, message, now, total_delay, script);
        lemma_sound_refl(w2);
        lemma_loss_kept(w2, task, id, to, message_id, script);
        let w3 = if delivered {
            w2
        } else {
            loss_kept(w2, task, id, to, message_id, script)
        };
        assert(sound(w2, w3));
        lemma_sound_refl(w3);
        lemma_loss_kept(w3, task, id, to, message_id, script);
        lemma_refusal_kept(w3, task, id, to, message_id, script);
    }
}

/// Carrying a send to the network.
pub proof fn lemma_carried(
    w: World,
    message: Envelope,
    now: u64,
    base_delay: u64,
    script: Seq<Reply>,
)
    ensures
        sound(w, carried(w, message, now, base_delay, script).1),
{
    let (task, id, message_id) = (message.from, message.send_id, message.message_id);
    lemma_kept(w, task, seq![id], drop_payload(message_id), script);
    if !w.dropped_events.contains(id) {
        lemma_send_injected(w, task, id, message_id, script);
        let (fault, w1) = send_injected(w, task, id, message_id, script);
        if fault !is Dropped {
            let injected = match fault {
                SendFault::Delayed(ticks) => ticks,
                _ => 0,
            };
            lemma_swarm_decided(w1, task, id, message_id, script);
            let (action, w2) = swarm_decided(w1, task, id, message_id, script);
            if action !is Drop {
                let total = match action {
                    SwarmAction::Delay(extra) => tick_sum(tick_sum(base_delay, extra), injected),
                    _ => tick_sum(base_delay, injected),
                };
                lemma_transmitted(w2, message, now, total, script);
                let (first, w3) = transmitted(w2, message, now, total, script);
                lemma_settled(w3, first, message, now, total, script);
            }
        }
    }
}

/// Recording an origin.
pub proof fn lemma_origin_kept(w: World, id: EntryHash, at: Option<OriginSource>)
    ensures
        sound(w, origin_kept(w, id, at)),
{
    lemma_sound_aside(w, origin_kept(w, id, at));
}

/// A send.
pub proof fn lemma_bytes_sent(
    w: World,
    task: usize,
    to: usize,
    content: Seq<u8>,
    base_delay: u64,
    at: Option<OriginSource>,
    script: Seq<Reply>,
)
    ensures
        sound(w, bytes_sent(w, task, to, content, base_delay, at, script).1),
{
    lemma_idle(w, Ask::Now, script);
    let (reply, w1) = told(w, Ask::Now, script);
    let now = reply->Ticks_0;
    let (message_id, w2) = identified(w1, task);
    lemma_sound_aside(w1, w2);
    if content.len() > w.message_limit {
        lemma_noted(
            w2,
            JournalError::InvalidPayload(
                PayloadFault::MessageTooLong {
                    length: content.len() as u64,
                    limit: w.message_limit,
                },
            ),
        );
    } else {
        let payload = Payload::Send {
            message_id,
            from: actor_of(task),
            to: actor_of(to),
            original_content: content,
        };
        lemma_task_appended(w2, task, Seq::empty(), payload, script);
        let (answer, w3) = task_appended(w2, task, Seq::empty(), payload, script);
        match answer {
            Err(e) => {
                lemma_noted(w3, e);
            },
            Ok(id) => {
                let message = Envelope {
                    from: task,
                    to,
                    content,
                    send_id: id,
                    message_id,
                    deliver_at: now,
                };
                lemma_origin_kept(w3, id, at);
                lemma_carried(origin_kept(w3, id, at), message, now, base_delay, script);
            },
        }
    }
}

/// Taking a message.
pub proof fn lemma_message_taken(
    w: World,
    by: usize,
    task: usize,
    now: u64,
    script: Seq<Reply>,
)
    ensures
        sound(w, message_taken(w, by, task, now, script).1),
{
    let (message, w1) = delivered(w, task, now, script);
    if w.reorder_draw {
        let bound = recv_bound(w.net, task, now);
        lemma_net_drawn_below(w, bound, script);
        lemma_sound_aside(net_drawn_below(w, bound, script).1, w1);
    } else {
        lemma_sound_aside(w, w1);
    }
    if let Some(m) = message {
        let (id, w2) = kept(w1, by, seq![m.send_id], recv_payload(by, m), script);
        lemma_kept(w1, by, seq![m.send_id], recv_payload(by, m), script);
        if let Some(recv_id) = id {
            lemma_origin_kept(w2, recv_id, origin_of(w2.origins, m.send_id));
        }
    }
}

/// Receiving now.
pub proof fn lemma_received_now(w: World, task: usize, script: Seq<Reply>)
    ensures
        sound(w, received_now(w, task, script).1),
{
    lemma_idle(w, Ask::Now, script);
    let (reply, w1) = told(w, Ask::Now, script);
    lemma_message_taken(w1, task, task, reply->Ticks_0, script);
}

/// Polling a receive.
pub proof fn lemma_receive_polled(w: World, task: usize, script: Seq<Reply>)
    ensures
        sound(w, receive_polled(w, task, script).1),
{
    lemma_received_now(w, task, script);
    let (value, w1) = received_now(w, task, script);
    lemma_kept(w1, task, Seq::empty(), Payload::Block, script);
    let w2 = kept(w1, task, Seq::empty(), Payload::Block, script).1;
    lemma_sound_aside(w2, parked(w2, task, BlockedOn::Message));
}

/// Parking on a timer.
pub proof fn lemma_sleep_parked(w: World, task: usize, ticks: u64, script: Seq<Reply>)
    ensures
        sound(w, sleep_parked(w, task, ticks, script).1),
{
    lemma_task_appended(w, task, Seq::empty(), timer_payload(ticks), script);
    let (answer, w1) = task_appended(w, task, Seq::empty(), timer_payload(ticks), script);
    if let Ok(id) = answer {
        let ask = Ask::SetTimer { ticks, task, enabler: Some(id) };
        lemma_idle(w1, ask, script);
        lemma_sound_aside(told(w1, ask, script).1, sleep_parked(w, task, ticks, script).1);
    }
}

/// Beginning a sleep.
pub proof fn lemma_sleep_begun(w: World, task: usize, ticks: u64, script: Seq<Reply>)
    ensures
        sound(w, sleep_begun(w, task, ticks, script)),
{
    lemma_kept(w, task, Seq::empty(), timer_payload(ticks), script);
    let (id, w1) = kept(w, task, Seq::empty(), timer_payload(ticks), script);
    let ask = Ask::SetTimer { ticks, task, enabler: id };
    lemma_idle(w1, ask, script);
    lemma_sound_aside(told(w1, ask, script).1, sleep_begun(w, task, ticks, script));
}

/// Polling a sleep.
pub proof fn lemma_sleep_polled(w: World, task: usize)
    ensures
        sound(w, sleep_polled(w, task).1),
{
    lemma_sound_aside(w, sleep_polled(w, task).1);
}

/// Parking until a message is deliverable.
pub proof fn lemma_message_parked(w: World, task: usize, script: Seq<Reply>)
    ensures
        sound(w, message_parked(w, task, script).1),
{
    lemma_task_appended(w, task, Seq::empty(), Payload::Block, script);
    let (answer, w1) = task_appended(w, task, Seq::empty(), Payload::Block, script);
    lemma_sound_aside(w1, parked(w1, task, BlockedOn::Message));
}

/// Reading the clock.
pub proof fn lemma_clock_read(w: World, task: usize, script: Seq<Reply>)
    ensures
        sound(w, clock_read(w, task, script).1),
{
    lemma_idle(w, Ask::Now, script);
    let (reply, w1) = told(w, Ask::Now, script);
    lemma_task_appended(
        w1,
        task,
        Seq::empty(),
        Payload::ClockRead { ticks: reply->Ticks_0 },
        script,
    );
}

/// Toggling a partition.
pub proof fn lemma_partition_applied(
    w: World,
    task: usize,
    src: usize,
    dst: usize,
    script: Seq<Reply>,
)
    ensures
        sound(w, partition_applied(w, task, src, dst, script).1),
{
    lemma_task_appended(w, task, Seq::empty(), partition_payload(src, dst), script);
    let (answer, w1) = task_appended(w, task, Seq::empty(), partition_payload(src, dst), script);
    if answer is Ok {
        lemma_sound_aside(w1, partition_applied(w, task, src, dst, script).1);
    }
}

/// Creating a task.
pub proof fn lemma_spawned(w: World, script: Seq<Reply>)
    ensures
        sound(w, spawned(w, script)),
{
    let id = w.tasks.len() as usize;
    let w1 = World { tasks: w.tasks.push(fresh_task()), ..w };
    lemma_sound_aside(w, w1);
    let entry = draft(actor_of(id), Seq::empty(), Payload::Spawn { child_actor: actor_of(id) });
    lemma_appended(w1, entry, script);
    let (answer, w2) = appended(w1, entry, script);
    lemma_sound_refl(w2);
    let w3 = match answer {
        Ok(_) => w2,
        Err(e) => noted(w2, e),
    };
    if let Err(e) = answer {
        lemma_noted(w2, e);
    }
    assert(sound(w2, w3));
    lemma_sound_aside(w3, spawned(w, script));
}

/// Drawing from a task's stream.
pub proof fn lemma_word_drawn(w: World, task: usize, stream: u32, script: Seq<Reply>)
    ensures
        sound(w, word_drawn(w, task, stream, script).1),
{
    let (i, w1) = stream_opened(w, task, stream, script);
    lemma_sound_refl(w);
    if stream_slot(w.streams, task, stream) is None {
        let ask = Ask::StreamSeed { label: stream_label(stream) };
        lemma_idle(w, ask, script);
        lemma_sound_aside(told(w, ask, script).1, w1);
    }
    assert(sound(w, w1));
    let state = w1.streams[i];
    let w2 = World {
        streams: w1.streams.update(i, StreamState { drawn: next_count(state.drawn), ..state }),
        ..w1
    };
    lemma_sound_aside(w1, w2);
    lemma_kept(
        w2,
        task,
        Seq::empty(),
        Payload::RngDraw {
            stream: StreamId(stream),
            draw_index: 0,
            content: le(next_word(state) as nat, 8),
        },
        script,
    );
}

/// Writing to storage.
pub proof fn lemma_value_written(
    w: World,
    task: usize,
    path: Seq<char>,
    value: u64,
    script: Seq<Reply>,
)
    ensures
        sound(w, value_written(w, task, path, value, script).1),
{
    let ask = Ask::FsWrite { actor: actor_of(task), path, value };
    let (reply, w1) = told(w, ask, script);
    match reply->Appended_0 {
        Err(_) => {
            lemma_count_none(w, ask, script);
        },
        Ok(id) => {
            lemma_count_one(w, ask, actor_of(task), script);
            let c = counted(w1, actor_of(task));
            lemma_notified(c, actor_of(task), EntryKind::FsWrite, task, Some(id), script);
            let w2 = notified(c, actor_of(task), EntryKind::FsWrite, task, Some(id), script);
            lemma_write_injected(w2, task, id, path, script);
            let (injected, w3) = write_injected(w2, task, id, path, script);
            if injected is Ok {
                lemma_crash_sampled(w3, task, path, id, script);
            }
        },
    }
}

/// Flushing storage.
pub proof fn lemma_flushed(w: World, task: usize, script: Seq<Reply>)
    ensures
        sound(w, flushed(w, task, script).1),
{
    let ask = Ask::FsFsync { actor: actor_of(task) };
    let (reply, w1) = told(w, ask, script);
    match reply->Appended_0 {
        Err(_) => {
            lemma_count_none(w, ask, script);
        },
        Ok(id) => {
            lemma_count_one(w, ask, actor_of(task), script);
            lemma_notified(
                counted(w1, actor_of(task)),
                actor_of(task),
                EntryKind::FsFsync,
                task,
                Some(id),
                script,
            );
        },
    }
}

/// Reading from storage.
pub proof fn lemma_value_read(w: World, task: usize, path: Seq<char>, script: Seq<Reply>)
    ensures
        sound(w, value_read(w, task, path, script).1),
{
    let ask = Ask::FsRead { actor: actor_of(task), path };
    let (reply, w1) = told(w, ask, script);
    match reply->Value_0 {
        Err(_) => {
            lemma_count_none(w, ask, script);
        },
        Ok(_) => {
            lemma_count_one(w, ask, actor_of(task), script);
            let c = counted(w1, actor_of(task));
            let head_ask = Ask::HeadForActor { actor: actor_of(task) };
            lemma_idle(c, head_ask, script);
            let (head, w2) = told(c, head_ask, script);
            lemma_notified(w2, actor_of(task), EntryKind::FsRead, task, head->Head_0, script);
        },
    }
}

/// Crashing storage.
pub proof fn lemma_crashed(w: World, task: usize, script: Seq<Reply>)
    ensures
        sound(w, crashed(w, task, script).1),
{
    let payload = crash_payload(task, Crash::DropAllUnsynced);
    lemma_kept(w, task, Seq::empty(), payload, script);
    lemma_fs_crashed(kept(w, task, Seq::empty(), payload, script).1, script);
}

/// Polling a program.
pub proof fn lemma_program_polled(
    w: World,
    task: usize,
    program: Seq<Instruction>,
    at: nat,
    script: Seq<Reply>,
)
    ensures
        sound(w, program_polled(w, task, program, at, script).2),
{
    reveal(program_polled);
    let (step, next, w1) = executed(w, task, program, at, script);
    lemma_sound_refl(w);
    if at < program.len() {
        lemma_instruction(w, task, program[at as int], script);
    }
    assert(sound(w, w1));
    if let Err(e) = step {
        lemma_noted(w1, e);
    }
}

/// Executing an instruction.
#[verifier::rlimit(60)]
#[verifier::spinoff_prover]
pub proof fn lemma_instruction(
    w: World,
    task: usize,
    instruction: Instruction,
    script: Seq<Reply>,
)
    ensures
        sound(w, instruction_run(w, task, instruction, script).2),
{
    match instruction {
        Instruction::Yield => {
            lemma_task_appended(w, task, Seq::empty(), Payload::Block, script);
        },
        Instruction::Sleep(ticks) => {
            lemma_sleep_parked(w, task, ticks, script);
        },
        Instruction::Send { to, payload } => {
            lemma_bytes_sent(w, task, to, le(payload as nat, 8), 0, None, script);
        },
        Instruction::SendTimed { to, payload, delay } => {
            lemma_bytes_sent(w, task, to, le(payload as nat, 8), delay, None, script);
        },
        Instruction::Receive => {
            lemma_received_now(w, task, script);
            let (value, w1) = received_now(w, task, script);
            match value {
                Some(v) => {
                    lemma_sound_aside(w1, register_set(w1, task, v));
                },
                None => {
                    lemma_message_parked(w1, task, script);
                },
            }
        },
        Instruction::SetValue(value) => {
            let payload = input_payload(0, 0, value);
            lemma_task_appended(w, task, Seq::empty(), payload, script);
            let w1 = task_appended(w, task, Seq::empty(), payload, script).1;
            lemma_sound_aside(w1, register_set(w1, task, value));
        },
        Instruction::Input { generator, replay, value } => {
            let payload = input_payload(generator, replay, value);
            lemma_task_appended(w, task, Seq::empty(), payload, script);
            let w1 = task_appended(w, task, Seq::empty(), payload, script).1;
            lemma_sound_aside(w1, register_set(w1, task, value));
        },
        Instruction::ReadClock => {
            lemma_clock_read(w, task, script);
            let (answer, w1) = clock_read(w, task, script);
            if let Ok(now) = answer {
                lemma_sound_aside(w1, register_set(w1, task, now));
            }
        },
        Instruction::FsWrite { path, value } => {
            lemma_value_written(w, task, path@, value, script);
            let (answer, w1) = value_written(w, task, path@, value, script);
            if let Err(e) = answer {
                lemma_noted(w1, e);
            }
        },
        Instruction::FsFsync => {
            lemma_flushed(w, task, script);
            let (answer, w1) = flushed(w, task, script);
            if let Err(e) = answer {
                lemma_noted(w1, e);
            }
        },
        Instruction::FsRead { path } => {
            lemma_value_read(w, task, path@, script);
            let (answer, w1) = value_read(w, task, path@, script);
            match answer {
                Ok(Some(value)) => {
                    lemma_sound_aside(w1, register_set(w1, task, value));
                },
                Ok(None) => {},
                Err(e) => {
                    lemma_noted(w1, e);
                },
            }
        },
        Instruction::FsCrash => {
            lemma_crashed(w, task, script);
        },
        Instruction::Assert(passed) => {
            lemma_task_appended(w, task, Seq::empty(), assert_payload(passed), script);
        },
        Instruction::Outcome => {
            let payload = outcome_payload(w.tasks[task as int].register);
            lemma_task_appended(w, task, Seq::empty(), payload, script);
            let (answer, w1) = task_appended(w, task, Seq::empty(), payload, script);
            if let Err(e) = answer {
                lemma_noted(w1, e);
            }
        },
        Instruction::Done => {
            lemma_task_appended(w, task, Seq::empty(), ending_payload(), script);
        },
    }
}

} // verus!
