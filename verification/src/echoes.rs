//! What one run says of another whose world answers alike.

use crate::books::{lemma_sound_aside, lemma_sound_refl, sound};
use crate::bytes::le;
use crate::config::{crash_of, Crash, SimFault};
use crate::executor::simulation::{
    begun, first_state, played, polled, ran, round_done, rounds_done, started, RunState,
};
use crate::host::{Ask, Reply, SeedStream, TimerFired};
use crate::ids::{ActorId, EntryHash, MessageId};
use crate::journal::{
    draft, kind_of, Draft, EntryKind, FaultModel, JournalError, Payload, PayloadFault,
};
use crate::model::{
    actor_of, appended, assert_payload, bytes_sent, carried, class_budget, clock_read, counted,
    crash_applied, crash_class, crash_payload, crash_sampled, crashed, delivered, drop_payload,
    duplicates, ending_payload, flushed, fs_crashed, fs_drawn, identified, injection_for,
    input_payload, joined, kept, loss_kept, marked, message_parked, net_chance, net_drawn,
    net_drawn_below, noted, notified, origin_kept, outcome_payload, partition_payload, received_now,
    recv_payload, refusal_kept, register_set, sampled_crash, send_injected, settled, signed,
    sleep_parked, swarm_decided, task_appended, timer_payload, told, transmitted, value_read,
    value_written, write_injected, SendFault, SendOutcome, SwarmAction, World,
};
use crate::net::{draws_of, earliest, policy_of, recv_bound, tick_sum, Envelope, QueueFullPolicy};
use crate::origin::{origin_of, OriginSource};
use crate::probability::chance_hit;
use crate::program::{executed, instruction_run, program_polled};
use crate::run_laws::{
    lemma_all_fired, lemma_all_woken, lemma_delivery_awaited, lemma_one_woken, lemma_quiesced,
    lemma_rounds_done, lemma_run_ended, lemma_step_begun, lemma_step_ended, lemma_task_chosen,
    lemma_timers_journaled, lemma_turn_taken, lemma_woken,
};
use crate::runtime::{HaltReason, Instruction, RunOutcome};
use crate::schedule::{
    all_done, all_fired, all_woken, batch_appended, batch_counted, choice_draft, coverage_of,
    delivery_awaited, one_fired, one_woken, paired, poll_noted, quiesced, roots_journaled,
    run_ended, sooner, spawn_draft, step_begun, step_ended, stray, task_chosen, timer_batch,
    timers_fired, timers_journaled, turn_taken, unblocked, wake_draft, wake_list, woken, work_found,
    RuntimeError, Turn,
};
use crate::sentinel::{BeltStatus, Protection};
use crate::soundness::{
    lemma_appended, lemma_carried, lemma_crash_sampled, lemma_fs_crashed, lemma_fs_drawn,
    lemma_idle, lemma_kept, lemma_loss_kept, lemma_message_parked, lemma_message_taken,
    lemma_net_chance, lemma_net_drawn, lemma_net_drawn_below, lemma_noted, lemma_notified,
    lemma_origin_kept, lemma_program_polled, lemma_refusal_kept, lemma_settled, lemma_swarm_decided,
    lemma_task_appended, lemma_transmitted, lemma_write_injected,
};
use crate::tape::{
    edited, lemma_quieted_prefix, quieted, recast, recorded, shown, unattached, whole, within, Edit,
    Tape,
};
use vstd::prelude::*;

verus! {

broadcast use {crate::books::lemma_sound_chain, crate::tape::lemma_within};

/// A question is answered alike, unless the other run has no monitor and the
/// question has to do with one.
proof fn echo_told(tape: Tape, w: World, ask: Ask)
    requires
        recorded(tape),
        whole(tape, w.log),
        within(tape, told(w, ask, tape.loud).1),
        tape.edit is Quiet ==> !(ask is HasMonitor) && !(ask is MonitorStep),
    ensures
        told(recast(tape, w), ask, tape.plain) == (
            told(w, ask, tape.loud).0,
            recast(tape, told(w, ask, tape.loud).1),
        ),
        whole(tape, told(w, ask, tape.loud).1.log),
{
    reveal(edited);
    reveal(whole);
    let (reply, w1) = told(w, ask, tape.loud);
    match tape.edit {
        Edit::Quiet => {
            assert(w1.log.drop_last() =~= w.log);
            assert(w1.log.last() == (ask, reply));
            if w1.log.len() > 1 {
                assert(w1.log[w1.log.len() - 2] == w.log.last());
            }
            assert(quieted(w1.log) == quieted(w.log).push((ask, reply)));
            lemma_quieted_prefix(tape.end, w1.log);
            let n = quieted(w.log).len();
            assert(quieted(tape.end)[n as int] == quieted(w1.log)[n as int]);
            assert(tape.plain[n as int] == reply);
        },
        Edit::Reopen { at, ask: other } => {
            let n = w.log.len();
            assert(edited(tape.edit, w1.log) =~= edited(tape.edit, w.log).push((ask, reply)));
            assert(tape.end[n as int] == w1.log[n as int]);
            assert(edited(tape.edit, tape.end)[n as int] == tape.end[n as int]);
            assert(tape.plain[n as int] == reply);
        },
    }
}

proof fn echo_appended(tape: Tape, w: World, entry: Draft)
    requires
        recorded(tape),
        whole(tape, w.log),
        within(tape, appended(w, entry, tape.loud).1),
    ensures
        appended(recast(tape, w), entry, tape.plain) == (
            appended(w, entry, tape.loud).0,
            recast(tape, appended(w, entry, tape.loud).1),
        ),
        whole(tape, appended(w, entry, tape.loud).1.log),
{
    let ask = Ask::Append { record: entry };
    assert(within(tape, told(w, ask, tape.loud).1));
    echo_told(tape, w, ask);
}

proof fn lemma_counted_recast(tape: Tape, w: World, batch: Seq<Draft>)
    ensures
        batch_counted(recast(tape, w), batch) == recast(tape, batch_counted(w, batch)),
        batch_counted(w, batch).log == w.log,
    decreases batch.len(),
{
    if batch.len() > 0 {
        lemma_counted_recast(tape, w, batch.drop_last());
    }
}

proof fn echo_batch_appended(tape: Tape, w: World, batch: Seq<Draft>)
    requires
        recorded(tape),
        whole(tape, w.log),
        within(tape, batch_appended(w, batch, tape.loud).1),
    ensures
        batch_appended(recast(tape, w), batch, tape.plain) == (
            batch_appended(w, batch, tape.loud).0,
            recast(tape, batch_appended(w, batch, tape.loud).1),
        ),
        whole(tape, batch_appended(w, batch, tape.loud).1.log),
{
    let ask = Ask::AppendBatch { batch };
    let w1 = told(w, ask, tape.loud).1;
    lemma_counted_recast(tape, w1, batch);
    assert(within(tape, w1));
    echo_told(tape, w, ask);
}

proof fn echo_net_drawn(tape: Tape, w: World)
    requires
        recorded(tape),
        whole(tape, w.log),
        within(tape, net_drawn(w, tape.loud).1),
    ensures
        net_drawn(recast(tape, w), tape.plain) == (
            net_drawn(w, tape.loud).0,
            recast(tape, net_drawn(w, tape.loud).1),
        ),
        whole(tape, net_drawn(w, tape.loud).1.log),
{
    let ask = Ask::Draw { stream: SeedStream::Net, offset: w.net_offset };
    assert(within(tape, told(w, ask, tape.loud).1));
    echo_told(tape, w, ask);
}

proof fn echo_fs_drawn(tape: Tape, w: World)
    requires
        recorded(tape),
        whole(tape, w.log),
        within(tape, fs_drawn(w, tape.loud).1),
    ensures
        fs_drawn(recast(tape, w), tape.plain) == (
            fs_drawn(w, tape.loud).0,
            recast(tape, fs_drawn(w, tape.loud).1),
        ),
        whole(tape, fs_drawn(w, tape.loud).1.log),
{
    let ask = Ask::Draw { stream: SeedStream::Fs, offset: w.fs_offset };
    assert(within(tape, told(w, ask, tape.loud).1));
    echo_told(tape, w, ask);
}

proof fn echo_notified(
    tape: Tape,
    w: World,
    actor: ActorId,
    kind: EntryKind,
    task: usize,
    id: Option<EntryHash>,
)
    requires
        recorded(tape),
        whole(tape, w.log),
        within(tape, notified(w, actor, kind, task, id, tape.loud)),
    ensures
        notified(recast(tape, w), actor, kind, task, id, tape.plain) == recast(
            tape,
            notified(w, actor, kind, task, id, tape.loud),
        ),
        whole(tape, notified(w, actor, kind, task, id, tape.loud).log),
{
    let script = tape.loud;
    let (reply, w1) = told(w, Ask::NoveltyActive, script);
    if reply->Flag_0 {
        match id {
            Some(entry) => {
                let (signature, w2) = signed(w1, entry, script);
                lemma_idle(w1, Ask::EntryClock { id: entry }, script);
                lemma_idle(w2, Ask::EntryEmitted { actor, kind, task, signature }, script);
                echo_told(tape, w, Ask::NoveltyActive);
                echo_told(tape, w1, Ask::EntryClock { id: entry });
                echo_told(tape, w2, Ask::EntryEmitted { actor, kind, task, signature });
            },
            None => {
                lemma_idle(w1, Ask::EntryEmitted { actor, kind, task, signature: None }, script);
                echo_told(tape, w, Ask::NoveltyActive);
                echo_told(tape, w1, Ask::EntryEmitted { actor, kind, task, signature: None });
            },
        }
    } else {
        echo_told(tape, w, Ask::NoveltyActive);
    }
}

proof fn echo_task_appended(
    tape: Tape,
    w: World,
    task: usize,
    parents: Seq<EntryHash>,
    payload: Payload,
)
    requires
        recorded(tape),
        whole(tape, w.log),
        within(tape, task_appended(w, task, parents, payload, tape.loud).1),
    ensures
        task_appended(recast(tape, w), task, parents, payload, tape.plain) == (
            task_appended(w, task, parents, payload, tape.loud).0,
            recast(tape, task_appended(w, task, parents, payload, tape.loud).1),
        ),
        whole(tape, task_appended(w, task, parents, payload, tape.loud).1.log),
{
    let entry = draft(actor_of(task), parents, payload);
    let (answer, w1) = appended(w, entry, tape.loud);
    if let Ok(id) = answer {
        lemma_notified(w1, actor_of(task), kind_of(payload), task, Some(id), tape.loud);
        echo_appended(tape, w, entry);
        echo_notified(tape, w1, actor_of(task), kind_of(payload), task, Some(id));
    } else {
        echo_appended(tape, w, entry);
    }
}

proof fn lemma_noted_recast(tape: Tape, w: World, error: JournalError)
    ensures
        noted(recast(tape, w), error) == recast(tape, noted(w, error)),
        noted(w, error).log == w.log,
{
}

proof fn echo_kept(
    tape: Tape,
    w: World,
    task: usize,
    parents: Seq<EntryHash>,
    payload: Payload,
)
    requires
        recorded(tape),
        whole(tape, w.log),
        within(tape, kept(w, task, parents, payload, tape.loud).1),
    ensures
        kept(recast(tape, w), task, parents, payload, tape.plain) == (
            kept(w, task, parents, payload, tape.loud).0,
            recast(tape, kept(w, task, parents, payload, tape.loud).1),
        ),
        whole(tape, kept(w, task, parents, payload, tape.loud).1.log),
{
    let w1 = task_appended(w, task, parents, payload, tape.loud).1;
    assert(within(tape, w1));
    echo_task_appended(tape, w, task, parents, payload);
}

proof fn echo_net_chance(tape: Tape, w: World, chance: u64)
    requires
        recorded(tape),
        whole(tape, w.log),
        within(tape, net_chance(w, chance, tape.loud).1),
    ensures
        net_chance(recast(tape, w), chance, tape.plain) == (
            net_chance(w, chance, tape.loud).0,
            recast(tape, net_chance(w, chance, tape.loud).1),
        ),
        whole(tape, net_chance(w, chance, tape.loud).1.log),
{
    if chance != 0 {
        echo_net_drawn(tape, w);
    }
}

proof fn echo_net_drawn_below(tape: Tape, w: World, bound: Option<u64>)
    requires
        recorded(tape),
        whole(tape, w.log),
        within(tape, net_drawn_below(w, bound, tape.loud).1),
    ensures
        net_drawn_below(recast(tape, w), bound, tape.plain) == (
            net_drawn_below(w, bound, tape.loud).0,
            recast(tape, net_drawn_below(w, bound, tape.loud).1),
        ),
        whole(tape, net_drawn_below(w, bound, tape.loud).1.log),
{
    if bound is Some {
        echo_net_drawn(tape, w);
    }
}

proof fn echo_swarm_decided(
    tape: Tape,
    w: World,
    task: usize,
    send_id: EntryHash,
    message_id: MessageId,
)
    requires
        recorded(tape),
        whole(tape, w.log),
        within(tape, swarm_decided(w, task, send_id, message_id, tape.loud).1),
    ensures
        swarm_decided(recast(tape, w), task, send_id, message_id, tape.plain) == (
            swarm_decided(w, task, send_id, message_id, tape.loud).0,
            recast(tape, swarm_decided(w, task, send_id, message_id, tape.loud).1),
        ),
        whole(tape, swarm_decided(w, task, send_id, message_id, tape.loud).1.log),
{
    let script = tape.loud;
    let (dropped, w1) = net_chance(w, w.swarm.drop_probability@, script);
    lemma_kept(w1, task, seq![send_id], drop_payload(message_id), script);
    let (delayed, w2) = net_chance(w1, w.swarm.delay_probability@, script);
    lemma_net_chance(w1, w.swarm.delay_probability@, script);
    lemma_net_drawn(w2, script);
    echo_net_chance(tape, w, w.swarm.drop_probability@);
    if dropped {
        echo_kept(tape, w1, task, seq![send_id], drop_payload(message_id));
    } else if w.swarm.max_delay_ticks != 0 {
        echo_net_chance(tape, w1, w.swarm.delay_probability@);
        if delayed {
            echo_net_drawn(tape, w2);
        }
    }
}

proof fn echo_crash_sampled(
    tape: Tape,
    w: World,
    task: usize,
    path: Seq<char>,
    write_id: EntryHash,
)
    requires
        recorded(tape),
        whole(tape, w.log),
        within(tape, crash_sampled(w, task, path, write_id, tape.loud).1),
    ensures
        crash_sampled(recast(tape, w), task, path, write_id, tape.plain) == (
            crash_sampled(w, task, path, write_id, tape.loud).0,
            recast(tape, crash_sampled(w, task, path, write_id, tape.loud).1),
        ),
        whole(tape, crash_sampled(w, task, path, write_id, tape.loud).1.log),
{
    let script = tape.loud;
    let chance = w.swarm.crash_probability@;
    if chance != 0 {
        let (word, w1) = fs_drawn(w, script);
        let (choice, w2) = fs_drawn(w1, script);
        lemma_fs_drawn(w1, script);
        if !chance_hit(chance, word) {
            echo_fs_drawn(tape, w);
        } else {
            let operation = sampled_crash(choice, path, write_id);
            if w2.fault_classes_used.len() >= class_budget(w.swarm) {
                echo_fs_drawn(tape, w);
                echo_fs_drawn(tape, w1);
            } else {
                let w3 = World {
                    fault_classes_used: joined(w2.fault_classes_used, crash_class(operation)),
                    ..w2
                };
                let (reply, w4) = told(w3, Ask::FsApply { operation }, script);
                lemma_idle(w3, Ask::FsApply { operation }, script);
                lemma_task_appended(
                    w4,
                    task,
                    Seq::empty(),
                    crash_payload(task, operation),
                    script,
                );
                assert(within(tape, w4));
                assert(within(tape, w3));
                assert(within(tape, w2));
                echo_fs_drawn(tape, w);
                echo_fs_drawn(tape, w1);
                echo_told(tape, w3, Ask::FsApply { operation });
                if reply->Applied_0 is Ok {
                    echo_task_appended(
                        tape,
                        w4,
                        task,
                        Seq::empty(),
                        crash_payload(task, operation),
                    );
                }
            }
        }
    }
}

proof fn echo_crash_applied(tape: Tape, w: World, task: usize, operation: Crash, corrupt: bool)
    requires
        recorded(tape),
        whole(tape, w.log),
        within(tape, crash_applied(w, task, operation, corrupt, tape.loud).1),
    ensures
        crash_applied(recast(tape, w), task, operation, corrupt, tape.plain) == (
            crash_applied(w, task, operation, corrupt, tape.loud).0,
            recast(tape, crash_applied(w, task, operation, corrupt, tape.loud).1),
        ),
        whole(tape, crash_applied(w, task, operation, corrupt, tape.loud).1.log),
{
    let (reply, w1) = told(w, Ask::FsApply { operation }, tape.loud);
    lemma_task_appended(w1, task, Seq::empty(), crash_payload(task, operation), tape.loud);
    echo_told(tape, w, Ask::FsApply { operation });
    if reply->Applied_0 is Ok {
        echo_task_appended(tape, w1, task, Seq::empty(), crash_payload(task, operation));
    }
}

proof fn lemma_marked_recast(tape: Tape, w: World, id: EntryHash)
    ensures
        marked(recast(tape, w), id) == recast(tape, marked(w, id)),
        marked(w, id).log == w.log,
{
}

proof fn echo_send_injected(
    tape: Tape,
    w: World,
    task: usize,
    send_id: EntryHash,
    message_id: MessageId,
)
    requires
        recorded(tape),
        whole(tape, w.log),
        within(tape, send_injected(w, task, send_id, message_id, tape.loud).1),
    ensures
        send_injected(recast(tape, w), task, send_id, message_id, tape.plain) == (
            send_injected(w, task, send_id, message_id, tape.loud).0,
            recast(tape, send_injected(w, task, send_id, message_id, tape.loud).1),
        ),
        whole(tape, send_injected(w, task, send_id, message_id, tape.loud).1.log),
{
    lemma_marked_recast(tape, w, send_id);
    if let Some(SimFault::Drop(_)) = injection_for(w.fault_schedule, send_id) {
        echo_kept(tape, marked(w, send_id), task, seq![send_id], drop_payload(message_id));
    }
}

proof fn echo_fs_crashed(tape: Tape, w: World)
    requires
        recorded(tape),
        whole(tape, w.log),
        within(tape, fs_crashed(w, tape.loud)),
    ensures
        fs_crashed(recast(tape, w), tape.plain) == recast(tape, fs_crashed(w, tape.loud)),
        whole(tape, fs_crashed(w, tape.loud).log),
{
    echo_told(tape, w, Ask::FsCrash { journaled: w.fs_journaling is Some });
}

proof fn echo_write_injected(
    tape: Tape,
    w: World,
    task: usize,
    write_id: EntryHash,
    path: Seq<char>,
)
    requires
        recorded(tape),
        whole(tape, w.log),
        within(tape, write_injected(w, task, write_id, path, tape.loud).1),
    ensures
        write_injected(recast(tape, w), task, write_id, path, tape.plain) == (
            write_injected(w, task, write_id, path, tape.loud).0,
            recast(tape, write_injected(w, task, write_id, path, tape.loud).1),
        ),
        whole(tape, write_injected(w, task, write_id, path, tape.loud).1.log),
{
    let script = tape.loud;
    let m = marked(w, write_id);
    lemma_marked_recast(tape, w, write_id);
    match injection_for(w.fault_schedule, write_id) {
        Some(SimFault::Crash(_)) => {
            let w1 = fs_crashed(m, script);
            let payload = crash_payload(task, Crash::DropAllUnsynced);
            lemma_task_appended(w1, task, Seq::empty(), payload, script);
            echo_fs_crashed(tape, m);
            echo_task_appended(tape, w1, task, Seq::empty(), payload);
        },
        Some(SimFault::Corrupt { write, xor_mask }) => {
            let operation = crash_of(SimFault::Corrupt { write, xor_mask }, path)->Some_0->Ok_0;
            echo_crash_applied(tape, m, task, operation, true);
        },
        Some(SimFault::CrashState { write, state }) => {
            match crash_of(SimFault::CrashState { write, state }, path)->Some_0 {
                Err(_) => {},
                Ok(operation) => {
                    echo_crash_applied(tape, m, task, operation, false);
                },
            }
        },
        _ => {},
    }
}

proof fn echo_refusal_kept(
    tape: Tape,
    w: World,
    task: usize,
    send_id: EntryHash,
    to: usize,
    message_id: MessageId,
)
    requires
        recorded(tape),
        whole(tape, w.log),
        within(tape, refusal_kept(w, task, send_id, to, message_id, tape.loud)),
    ensures
        refusal_kept(recast(tape, w), task, send_id, to, message_id, tape.plain) == recast(
            tape,
            refusal_kept(w, task, send_id, to, message_id, tape.loud),
        ),
        whole(tape, refusal_kept(w, task, send_id, to, message_id, tape.loud).log),
{
    let payload = match policy_of(w.net, task, to) {
        QueueFullPolicy::Drop => drop_payload(message_id),
        QueueFullPolicy::Block => Payload::Block,
    };
    echo_kept(tape, w, task, seq![send_id], payload);
}

proof fn echo_loss_kept(
    tape: Tape,
    w: World,
    task: usize,
    send_id: EntryHash,
    to: usize,
    message_id: MessageId,
)
    requires
        recorded(tape),
        whole(tape, w.log),
        within(tape, loss_kept(w, task, send_id, to, message_id, tape.loud)),
    ensures
        loss_kept(recast(tape, w), task, send_id, to, message_id, tape.plain) == recast(
            tape,
            loss_kept(w, task, send_id, to, message_id, tape.loud),
        ),
        whole(tape, loss_kept(w, task, send_id, to, message_id, tape.loud).log),
{
    let payload = if w.net.partitions.contains((task, to)) {
        partition_payload(task, to)
    } else {
        drop_payload(message_id)
    };
    echo_kept(tape, w, task, seq![send_id], payload);
}

proof fn echo_transmitted(tape: Tape, w: World, message: Envelope, now: u64, total_delay: u64)
    requires
        recorded(tape),
        whole(tape, w.log),
        within(tape, transmitted(w, message, now, total_delay, tape.loud).1),
    ensures
        transmitted(recast(tape, w), message, now, total_delay, tape.plain) == (
            transmitted(w, message, now, total_delay, tape.loud).0,
            recast(tape, transmitted(w, message, now, total_delay, tape.loud).1),
        ),
        whole(tape, transmitted(w, message, now, total_delay, tape.loud).1.log),
{
    if w.net.links.contains_key((message.from, message.to)) {
        let draws = draws_of(w.net, message.from, message.to);
        let (jitter, w1) = net_drawn_below(w, draws.0, tape.loud);
        let (loss, w2) = net_drawn_below(w1, draws.1, tape.loud);
        lemma_net_drawn_below(w1, draws.1, tape.loud);
        assert(within(tape, w2));
        echo_net_drawn_below(tape, w, draws.0);
        echo_net_drawn_below(tape, w1, draws.1);
    }
}

#[verifier::spinoff_prover]
proof fn echo_settled(
    tape: Tape,
    w: World,
    first: SendOutcome,
    message: Envelope,
    now: u64,
    total_delay: u64,
)
    requires
        recorded(tape),
        whole(tape, w.log),
        within(tape, settled(w, first, message, now, total_delay, tape.loud).1),
    ensures
        settled(recast(tape, w), first, message, now, total_delay, tape.plain) == (
            settled(w, first, message, now, total_delay, tape.loud).0,
            recast(tape, settled(w, first, message, now, total_delay, tape.loud).1),
        ),
        whole(tape, settled(w, first, message, now, total_delay, tape.loud).1.log),
{
    let script = tape.loud;
    let (task, to, id, message_id) = (
        message.from,
        message.to,
        message.send_id,
        message.message_id,
    );
    match first {
        SendOutcome::QueueFull => {
            echo_refusal_kept(tape, w, task, id, to, message_id);
        },
        SendOutcome::Queued(delivered) => if duplicates(w.fault_schedule, id) {
            let duplicate = Payload::Fault(
                FaultModel::DuplicateMessage { message_id, copy_ordinal: 1 },
            );
            let m = marked(w, id);
            lemma_marked_recast(tape, w, id);
            let w1 = kept(m, task, seq![id], duplicate, script).1;
            let (second, w2) = transmitted(w1, message, now, total_delay, script);
            lemma_transmitted(w1, message, now, total_delay, script);
            lemma_loss_kept(w2, task, id, to, message_id, script);
            lemma_sound_refl(w2);
            let w3 = if delivered {
                w2
            } else {
                loss_kept(w2, task, id, to, message_id, script)
            };
            assert(sound(w2, w3));
            lemma_sound_refl(w3);
            lemma_loss_kept(w3, task, id, to, message_id, script);
            lemma_refusal_kept(w3, task, id, to, message_id, script);
            assert(sound(w3, settled(w, first, message, now, total_delay, script).1));
            assert(within(tape, w3));
            assert(within(tape, w2));
            assert(within(tape, w1));
            echo_kept(tape, m, task, seq![id], duplicate);
            echo_transmitted(tape, w1, message, now, total_delay);
            if !delivered {
                echo_loss_kept(tape, w2, task, id, to, message_id);
            }
            match second {
                SendOutcome::Queued(again) => if !again {
                    echo_loss_kept(tape, w3, task, id, to, message_id);
                },
                SendOutcome::QueueFull => {
                    echo_refusal_kept(tape, w3, task, id, to, message_id);
                },
            }
        } else if !delivered {
            echo_loss_kept(tape, w, task, id, to, message_id);
        },
    }
}

#[verifier::spinoff_prover]
proof fn echo_carried(tape: Tape, w: World, message: Envelope, now: u64, base_delay: u64)
    requires
        recorded(tape),
        whole(tape, w.log),
        within(tape, carried(w, message, now, base_delay, tape.loud).1),
    ensures
        carried(recast(tape, w), message, now, base_delay, tape.plain) == (
            carried(w, message, now, base_delay, tape.loud).0,
            recast(tape, carried(w, message, now, base_delay, tape.loud).1),
        ),
        whole(tape, carried(w, message, now, base_delay, tape.loud).1.log),
{
    let script = tape.loud;
    let (task, id, message_id) = (message.from, message.send_id, message.message_id);
    if w.dropped_events.contains(id) {
        echo_kept(tape, w, task, seq![id], drop_payload(message_id));
    } else {
        let (fault, w1) = send_injected(w, task, id, message_id, script);
        if fault is Dropped {
            echo_send_injected(tape, w, task, id, message_id);
        } else {
            let injected = match fault {
                SendFault::Delayed(ticks) => ticks,
                _ => 0,
            };
            let (action, w2) = swarm_decided(w1, task, id, message_id, script);
            lemma_swarm_decided(w1, task, id, message_id, script);
            if action is Drop {
                echo_send_injected(tape, w, task, id, message_id);
                echo_swarm_decided(tape, w1, task, id, message_id);
            } else {
                let total = match action {
                    SwarmAction::Delay(extra) => tick_sum(tick_sum(base_delay, extra), injected),
                    _ => tick_sum(base_delay, injected),
                };
                let (first, w3) = transmitted(w2, message, now, total, script);
                lemma_transmitted(w2, message, now, total, script);
                lemma_settled(w3, first, message, now, total, script);
                assert(within(tape, w3));
                assert(within(tape, w2));
                assert(within(tape, w1));
                echo_send_injected(tape, w, task, id, message_id);
                echo_swarm_decided(tape, w1, task, id, message_id);
                echo_transmitted(tape, w2, message, now, total);
                echo_settled(tape, w3, first, message, now, total);
            }
        }
    }
}

proof fn lemma_origin_recast(tape: Tape, w: World, id: EntryHash, at: Option<OriginSource>)
    ensures
        origin_kept(recast(tape, w), id, at) == recast(tape, origin_kept(w, id, at)),
        origin_kept(w, id, at).log == w.log,
{
}

#[verifier::spinoff_prover]
proof fn echo_bytes_sent(
    tape: Tape,
    w: World,
    task: usize,
    to: usize,
    content: Seq<u8>,
    base_delay: u64,
    at: Option<OriginSource>,
)
    requires
        recorded(tape),
        whole(tape, w.log),
        within(tape, bytes_sent(w, task, to, content, base_delay, at, tape.loud).1),
    ensures
        bytes_sent(recast(tape, w), task, to, content, base_delay, at, tape.plain) == (
            bytes_sent(w, task, to, content, base_delay, at, tape.loud).0,
            recast(tape, bytes_sent(w, task, to, content, base_delay, at, tape.loud).1),
        ),
        whole(tape, bytes_sent(w, task, to, content, base_delay, at, tape.loud).1.log),
{
    let script = tape.loud;
    let (reply, w1) = told(w, Ask::Now, script);
    let now = reply->Ticks_0;
    let (message_id, w2) = identified(w1, task);
    lemma_sound_aside(w1, w2);
    assert(w2.log == w1.log);
    if content.len() > w.message_limit {
        let fault = PayloadFault::MessageTooLong {
            length: content.len() as u64,
            limit: w.message_limit,
        };
        lemma_noted(w2, JournalError::InvalidPayload(fault));
        lemma_noted_recast(tape, w2, JournalError::InvalidPayload(fault));
        assert(within(tape, w2));
        assert(within(tape, w1));
        echo_told(tape, w, Ask::Now);
        assert(identified(recast(tape, w1), task) == (message_id, recast(tape, w2)));
    } else {
        let payload = Payload::Send {
            message_id,
            from: actor_of(task),
            to: actor_of(to),
            original_content: content,
        };
        let (answer, w3) = task_appended(w2, task, Seq::empty(), payload, script);
        lemma_task_appended(w2, task, Seq::empty(), payload, script);
        match answer {
            Err(e) => {
                lemma_noted(w3, e);
                lemma_noted_recast(tape, w3, e);
                assert(within(tape, w3));
                assert(within(tape, w2));
                assert(within(tape, w1));
                echo_told(tape, w, Ask::Now);
                assert(identified(recast(tape, w1), task) == (message_id, recast(tape, w2)));
                echo_task_appended(tape, w2, task, Seq::empty(), payload);
            },
            Ok(id) => {
                let message = Envelope {
                    from: task,
                    to,
                    content,
                    send_id: id,
                    message_id,
                    deliver_at: now,
                };
                let w4 = origin_kept(w3, id, at);
                lemma_origin_kept(w3, id, at);
                lemma_origin_recast(tape, w3, id, at);
                lemma_carried(w4, message, now, base_delay, script);
                assert(within(tape, w4));
                assert(within(tape, w3));
                assert(within(tape, w2));
                assert(within(tape, w1));
                echo_told(tape, w, Ask::Now);
                assert(identified(recast(tape, w1), task) == (message_id, recast(tape, w2)));
                echo_task_appended(tape, w2, task, Seq::empty(), payload);
                echo_carried(tape, w4, message, now, base_delay);
            },
        }
    }
}

proof fn echo_delivered(tape: Tape, w: World, task: usize, now: u64)
    requires
        recorded(tape),
        whole(tape, w.log),
        within(tape, delivered(w, task, now, tape.loud).1),
    ensures
        delivered(recast(tape, w), task, now, tape.plain) == (
            delivered(w, task, now, tape.loud).0,
            recast(tape, delivered(w, task, now, tape.loud).1),
        ),
        whole(tape, delivered(w, task, now, tape.loud).1.log),
{
    if w.reorder_draw {
        let bound = recv_bound(w.net, task, now);
        assert(within(tape, net_drawn_below(w, bound, tape.loud).1));
        echo_net_drawn_below(tape, w, bound);
    }
}

proof fn echo_received_now(tape: Tape, w: World, task: usize)
    requires
        recorded(tape),
        whole(tape, w.log),
        within(tape, received_now(w, task, tape.loud).1),
    ensures
        received_now(recast(tape, w), task, tape.plain) == (
            received_now(w, task, tape.loud).0,
            recast(tape, received_now(w, task, tape.loud).1),
        ),
        whole(tape, received_now(w, task, tape.loud).1.log),
{
    let script = tape.loud;
    let (reply, w1) = told(w, Ask::Now, script);
    let now = reply->Ticks_0;
    lemma_message_taken(w1, task, task, now, script);
    let (message, w2) = delivered(w1, task, now, script);
    assert(within(tape, w1));
    echo_told(tape, w, Ask::Now);
    match message {
        None => {
            echo_delivered(tape, w1, task, now);
        },
        Some(m) => {
            let payload = recv_payload(task, m);
            let (id, w3) = kept(w2, task, seq![m.send_id], payload, script);
            lemma_kept(w2, task, seq![m.send_id], payload, script);
            if let Some(recv_id) = id {
                let at = origin_of(w3.origins, m.send_id);
                lemma_origin_kept(w3, recv_id, at);
                lemma_origin_recast(tape, w3, recv_id, at);
            }
            assert(within(tape, w3));
            assert(within(tape, w2));
            echo_delivered(tape, w1, task, now);
            echo_kept(tape, w2, task, seq![m.send_id], payload);
        },
    }
}

proof fn echo_sleep_parked(tape: Tape, w: World, task: usize, ticks: u64)
    requires
        recorded(tape),
        whole(tape, w.log),
        within(tape, sleep_parked(w, task, ticks, tape.loud).1),
    ensures
        sleep_parked(recast(tape, w), task, ticks, tape.plain) == (
            sleep_parked(w, task, ticks, tape.loud).0,
            recast(tape, sleep_parked(w, task, ticks, tape.loud).1),
        ),
        whole(tape, sleep_parked(w, task, ticks, tape.loud).1.log),
{
    let script = tape.loud;
    let (answer, w1) = task_appended(w, task, Seq::empty(), timer_payload(ticks), script);
    if let Ok(id) = answer {
        let ask = Ask::SetTimer { ticks, task, enabler: Some(id) };
        lemma_idle(w1, ask, script);
        assert(within(tape, told(w1, ask, script).1));
        echo_task_appended(tape, w, task, Seq::empty(), timer_payload(ticks));
        echo_told(tape, w1, ask);
    } else {
        echo_task_appended(tape, w, task, Seq::empty(), timer_payload(ticks));
    }
}

proof fn echo_message_parked(tape: Tape, w: World, task: usize)
    requires
        recorded(tape),
        whole(tape, w.log),
        within(tape, message_parked(w, task, tape.loud).1),
    ensures
        message_parked(recast(tape, w), task, tape.plain) == (
            message_parked(w, task, tape.loud).0,
            recast(tape, message_parked(w, task, tape.loud).1),
        ),
        whole(tape, message_parked(w, task, tape.loud).1.log),
{
    let w1 = task_appended(w, task, Seq::empty(), Payload::Block, tape.loud).1;
    assert(within(tape, w1));
    echo_task_appended(tape, w, task, Seq::empty(), Payload::Block);
}

proof fn echo_clock_read(tape: Tape, w: World, task: usize)
    requires
        recorded(tape),
        whole(tape, w.log),
        within(tape, clock_read(w, task, tape.loud).1),
    ensures
        clock_read(recast(tape, w), task, tape.plain) == (
            clock_read(w, task, tape.loud).0,
            recast(tape, clock_read(w, task, tape.loud).1),
        ),
        whole(tape, clock_read(w, task, tape.loud).1.log),
{
    let (reply, w1) = told(w, Ask::Now, tape.loud);
    let payload = Payload::ClockRead { ticks: reply->Ticks_0 };
    lemma_task_appended(w1, task, Seq::empty(), payload, tape.loud);
    echo_told(tape, w, Ask::Now);
    echo_task_appended(tape, w1, task, Seq::empty(), payload);
}

#[verifier::spinoff_prover]
proof fn echo_value_written(tape: Tape, w: World, task: usize, path: Seq<char>, value: u64)
    requires
        recorded(tape),
        whole(tape, w.log),
        within(tape, value_written(w, task, path, value, tape.loud).1),
    ensures
        value_written(recast(tape, w), task, path, value, tape.plain) == (
            value_written(w, task, path, value, tape.loud).0,
            recast(tape, value_written(w, task, path, value, tape.loud).1),
        ),
        whole(tape, value_written(w, task, path, value, tape.loud).1.log),
{
    let script = tape.loud;
    let actor = actor_of(task);
    let ask = Ask::FsWrite { actor, path, value };
    let (reply, w1) = told(w, ask, script);
    match reply->Appended_0 {
        Err(_) => {
            echo_told(tape, w, ask);
        },
        Ok(id) => {
            let c = counted(w1, actor);
            assert(counted(recast(tape, w1), actor) == recast(tape, c));
            let w2 = notified(c, actor, EntryKind::FsWrite, task, Some(id), script);
            lemma_notified(c, actor, EntryKind::FsWrite, task, Some(id), script);
            let (injected, w3) = write_injected(w2, task, id, path, script);
            lemma_write_injected(w2, task, id, path, script);
            if injected is Ok {
                lemma_crash_sampled(w3, task, path, id, script);
            }
            assert(within(tape, w3));
            assert(within(tape, w2));
            assert(within(tape, c));
            assert(within(tape, w1));
            echo_told(tape, w, ask);
            echo_notified(tape, c, actor, EntryKind::FsWrite, task, Some(id));
            echo_write_injected(tape, w2, task, id, path);
            if injected is Ok {
                echo_crash_sampled(tape, w3, task, path, id);
            }
        },
    }
}

proof fn echo_flushed(tape: Tape, w: World, task: usize)
    requires
        recorded(tape),
        whole(tape, w.log),
        within(tape, flushed(w, task, tape.loud).1),
    ensures
        flushed(recast(tape, w), task, tape.plain) == (
            flushed(w, task, tape.loud).0,
            recast(tape, flushed(w, task, tape.loud).1),
        ),
        whole(tape, flushed(w, task, tape.loud).1.log),
{
    let actor = actor_of(task);
    let ask = Ask::FsFsync { actor };
    let (reply, w1) = told(w, ask, tape.loud);
    match reply->Appended_0 {
        Err(_) => {
            echo_told(tape, w, ask);
        },
        Ok(id) => {
            let c = counted(w1, actor);
            assert(counted(recast(tape, w1), actor) == recast(tape, c));
            lemma_notified(c, actor, EntryKind::FsFsync, task, Some(id), tape.loud);
            assert(within(tape, c));
            assert(within(tape, w1));
            echo_told(tape, w, ask);
            echo_notified(tape, c, actor, EntryKind::FsFsync, task, Some(id));
        },
    }
}

proof fn echo_value_read(tape: Tape, w: World, task: usize, path: Seq<char>)
    requires
        recorded(tape),
        whole(tape, w.log),
        within(tape, value_read(w, task, path, tape.loud).1),
    ensures
        value_read(recast(tape, w), task, path, tape.plain) == (
            value_read(w, task, path, tape.loud).0,
            recast(tape, value_read(w, task, path, tape.loud).1),
        ),
        whole(tape, value_read(w, task, path, tape.loud).1.log),
{
    let script = tape.loud;
    let actor = actor_of(task);
    let ask = Ask::FsRead { actor, path };
    let (reply, w1) = told(w, ask, script);
    match reply->Value_0 {
        Err(_) => {
            echo_told(tape, w, ask);
        },
        Ok(_) => {
            let c = counted(w1, actor);
            assert(counted(recast(tape, w1), actor) == recast(tape, c));
            let head_ask = Ask::HeadForActor { actor };
            let (head, w2) = told(c, head_ask, script);
            lemma_idle(c, head_ask, script);
            lemma_notified(w2, actor, EntryKind::FsRead, task, head->Head_0, script);
            assert(within(tape, w2));
            assert(within(tape, c));
            assert(within(tape, w1));
            echo_told(tape, w, ask);
            echo_told(tape, c, head_ask);
            echo_notified(tape, w2, actor, EntryKind::FsRead, task, head->Head_0);
        },
    }
}

proof fn echo_crashed(tape: Tape, w: World, task: usize)
    requires
        recorded(tape),
        whole(tape, w.log),
        within(tape, crashed(w, task, tape.loud).1),
    ensures
        crashed(recast(tape, w), task, tape.plain) == (
            crashed(w, task, tape.loud).0,
            recast(tape, crashed(w, task, tape.loud).1),
        ),
        whole(tape, crashed(w, task, tape.loud).1.log),
{
    let payload = crash_payload(task, Crash::DropAllUnsynced);
    let w1 = kept(w, task, Seq::empty(), payload, tape.loud).1;
    lemma_fs_crashed(w1, tape.loud);
    echo_kept(tape, w, task, Seq::empty(), payload);
    echo_fs_crashed(tape, w1);
}

proof fn lemma_register_recast(tape: Tape, w: World, task: usize, value: u64)
    ensures
        register_set(recast(tape, w), task, value) == recast(tape, register_set(w, task, value)),
        register_set(w, task, value).log == w.log,
{
}

#[verifier::rlimit(60)]
#[verifier::spinoff_prover]
proof fn echo_instruction(tape: Tape, w: World, task: usize, instruction: Instruction)
    requires
        recorded(tape),
        whole(tape, w.log),
        within(tape, instruction_run(w, task, instruction, tape.loud).2),
    ensures
        instruction_run(recast(tape, w), task, instruction, tape.plain) == (
            instruction_run(w, task, instruction, tape.loud).0,
            instruction_run(w, task, instruction, tape.loud).1,
            recast(tape, instruction_run(w, task, instruction, tape.loud).2),
        ),
        whole(tape, instruction_run(w, task, instruction, tape.loud).2.log),
{
    let script = tape.loud;
    match instruction {
        Instruction::Yield => {
            echo_task_appended(tape, w, task, Seq::empty(), Payload::Block);
        },
        Instruction::Sleep(ticks) => {
            echo_sleep_parked(tape, w, task, ticks);
        },
        Instruction::Send { to, payload } => {
            echo_bytes_sent(tape, w, task, to, le(payload as nat, 8), 0, None);
        },
        Instruction::SendTimed { to, payload, delay } => {
            echo_bytes_sent(tape, w, task, to, le(payload as nat, 8), delay, None);
        },
        Instruction::Receive => {
            let (value, w1) = received_now(w, task, script);
            match value {
                Some(v) => {
                    lemma_register_recast(tape, w1, task, v);
                    assert(within(tape, w1));
                    echo_received_now(tape, w, task);
                },
                None => {
                    lemma_message_parked(w1, task, script);
                    assert(within(tape, w1));
                    echo_received_now(tape, w, task);
                    echo_message_parked(tape, w1, task);
                },
            }
        },
        Instruction::SetValue(value) => {
            let payload = input_payload(0, 0, value);
            let w1 = task_appended(w, task, Seq::empty(), payload, script).1;
            lemma_register_recast(tape, w1, task, value);
            assert(within(tape, w1));
            echo_task_appended(tape, w, task, Seq::empty(), payload);
        },
        Instruction::Input { generator, replay, value } => {
            let payload = input_payload(generator, replay, value);
            let w1 = task_appended(w, task, Seq::empty(), payload, script).1;
            lemma_register_recast(tape, w1, task, value);
            assert(within(tape, w1));
            echo_task_appended(tape, w, task, Seq::empty(), payload);
        },
        Instruction::ReadClock => {
            let (answer, w1) = clock_read(w, task, script);
            if let Ok(now) = answer {
                lemma_register_recast(tape, w1, task, now);
            }
            assert(within(tape, w1));
            echo_clock_read(tape, w, task);
        },
        Instruction::FsWrite { path, value } => {
            let (answer, w1) = value_written(w, task, path@, value, script);
            if let Err(e) = answer {
                lemma_noted_recast(tape, w1, e);
            }
            assert(within(tape, w1));
            echo_value_written(tape, w, task, path@, value);
        },
        Instruction::FsFsync => {
            let (answer, w1) = flushed(w, task, script);
            if let Err(e) = answer {
                lemma_noted_recast(tape, w1, e);
            }
            assert(within(tape, w1));
            echo_flushed(tape, w, task);
        },
        Instruction::FsRead { path } => {
            let (answer, w1) = value_read(w, task, path@, script);
            match answer {
                Ok(Some(value)) => {
                    lemma_register_recast(tape, w1, task, value);
                },
                Ok(None) => {},
                Err(e) => {
                    lemma_noted_recast(tape, w1, e);
                },
            }
            assert(within(tape, w1));
            echo_value_read(tape, w, task, path@);
        },
        Instruction::FsCrash => {
            echo_crashed(tape, w, task);
        },
        Instruction::Assert(passed) => {
            echo_task_appended(tape, w, task, Seq::empty(), assert_payload(passed));
        },
        Instruction::Outcome => {
            let payload = outcome_payload(w.tasks[task as int].register);
            let (answer, w1) = task_appended(w, task, Seq::empty(), payload, script);
            if let Err(e) = answer {
                lemma_noted_recast(tape, w1, e);
            }
            assert(within(tape, w1));
            echo_task_appended(tape, w, task, Seq::empty(), payload);
        },
        Instruction::Done => {
            echo_task_appended(tape, w, task, Seq::empty(), ending_payload());
        },
    }
}

proof fn echo_program_polled(
    tape: Tape,
    w: World,
    task: usize,
    program: Seq<Instruction>,
    at: nat,
)
    requires
        recorded(tape),
        whole(tape, w.log),
        within(tape, program_polled(w, task, program, at, tape.loud).2),
    ensures
        program_polled(recast(tape, w), task, program, at, tape.plain) == (
            program_polled(w, task, program, at, tape.loud).0,
            program_polled(w, task, program, at, tape.loud).1,
            recast(tape, program_polled(w, task, program, at, tape.loud).2),
        ),
        whole(tape, program_polled(w, task, program, at, tape.loud).2.log),
{
    reveal(program_polled);
    let (step, next, w1) = executed(w, task, program, at, tape.loud);
    if let Err(e) = step {
        lemma_noted_recast(tape, w1, e);
    }
    assert(within(tape, w1));
    if at < program.len() {
        echo_instruction(tape, w, task, program[at as int]);
    }
}

proof fn echo_roots_journaled(tape: Tape, w: World, n: nat)
    requires
        recorded(tape),
        whole(tape, w.log),
        within(tape, roots_journaled(w, n, tape.loud).1),
    ensures
        roots_journaled(recast(tape, w), n, tape.plain) == (
            roots_journaled(w, n, tape.loud).0,
            recast(tape, roots_journaled(w, n, tape.loud).1),
        ),
        whole(tape, roots_journaled(w, n, tape.loud).1.log),
    decreases n,
{
    if n > 0 {
        let (answer, w1) = roots_journaled(w, (n - 1) as nat, tape.loud);
        lemma_appended(w1, spawn_draft((n - 1) as usize), tape.loud);
        lemma_sound_refl(w1);
        assert(sound(w1, roots_journaled(w, n, tape.loud).1));
        echo_roots_journaled(tape, w, (n - 1) as nat);
        if answer is Ok {
            echo_appended(tape, w1, spawn_draft((n - 1) as usize));
        }
    }
}

proof fn echo_one_woken(tape: Tape, w: World, task: usize, now: u64)
    requires
        recorded(tape),
        whole(tape, w.log),
        within(tape, one_woken(w, task, now, tape.loud).1),
    ensures
        one_woken(recast(tape, w), task, now, tape.plain) == (
            one_woken(w, task, now, tape.loud).0,
            recast(tape, one_woken(w, task, now, tape.loud).1),
        ),
        whole(tape, one_woken(w, task, now, tape.loud).1.log),
{
    let entry = wake_draft(w.net, task, now);
    let (answer, w1) = appended(w, entry, tape.loud);
    if let Ok(id) = answer {
        let w2 = notified(w1, actor_of(task), EntryKind::Wake, task, Some(id), tape.loud);
        lemma_notified(w1, actor_of(task), EntryKind::Wake, task, Some(id), tape.loud);
        assert(within(tape, w2));
        echo_appended(tape, w, entry);
        echo_notified(tape, w1, actor_of(task), EntryKind::Wake, task, Some(id));
        assert(unblocked(recast(tape, w2), task) == recast(tape, unblocked(w2, task)));
    } else {
        echo_appended(tape, w, entry);
    }
}

proof fn echo_all_woken(tape: Tape, w: World, list: Seq<usize>, now: u64)
    requires
        recorded(tape),
        whole(tape, w.log),
        within(tape, all_woken(w, list, now, tape.loud).1),
    ensures
        all_woken(recast(tape, w), list, now, tape.plain) == (
            all_woken(w, list, now, tape.loud).0,
            recast(tape, all_woken(w, list, now, tape.loud).1),
        ),
        whole(tape, all_woken(w, list, now, tape.loud).1.log),
    decreases list.len(),
{
    if list.len() > 0 {
        let (before, w1) = all_woken(w, list.drop_last(), now, tape.loud);
        lemma_one_woken(w1, list.last(), now, tape.loud);
        lemma_sound_refl(w1);
        assert(sound(w1, all_woken(w, list, now, tape.loud).1));
        echo_all_woken(tape, w, list.drop_last(), now);
        if before is Ok {
            echo_one_woken(tape, w1, list.last(), now);
        }
    }
}

proof fn echo_woken(tape: Tape, w: World)
    requires
        recorded(tape),
        whole(tape, w.log),
        within(tape, woken(w, tape.loud).1),
    ensures
        woken(recast(tape, w), tape.plain) == (
            woken(w, tape.loud).0,
            recast(tape, woken(w, tape.loud).1),
        ),
        whole(tape, woken(w, tape.loud).1.log),
{
    let (reply, w1) = told(w, Ask::Now, tape.loud);
    let now = reply->Ticks_0;
    let list = wake_list(w1.tasks, w1.net, now);
    lemma_all_woken(w1, list, now, tape.loud);
    echo_told(tape, w, Ask::Now);
    echo_all_woken(tape, w1, list, now);
}

proof fn echo_all_fired(
    tape: Tape,
    w: World,
    fired: Seq<TimerFired>,
    ids: Seq<EntryHash>,
    n: nat,
)
    requires
        recorded(tape),
        whole(tape, w.log),
        within(tape, all_fired(w, fired, ids, n, tape.loud)),
    ensures
        all_fired(recast(tape, w), fired, ids, n, tape.plain) == recast(
            tape,
            all_fired(w, fired, ids, n, tape.loud),
        ),
        whole(tape, all_fired(w, fired, ids, n, tape.loud).log),
    decreases n,
{
    if n > 0 {
        let script = tape.loud;
        let w0 = all_fired(w, fired, ids, (n - 1) as nat, script);
        let timer = fired[n - 1];
        let actor = actor_of(timer.task);
        let fire = ids[2 * (n - 1)];
        let wake = ids[2 * (n - 1) + 1];
        let w1 = notified(w0, actor, EntryKind::TimerFire, timer.task, Some(fire), script);
        lemma_notified(w0, actor, EntryKind::TimerFire, timer.task, Some(fire), script);
        let w2 = notified(w1, actor, EntryKind::Wake, timer.task, Some(wake), script);
        lemma_notified(w1, actor, EntryKind::Wake, timer.task, Some(wake), script);
        assert(one_fired(w0, timer, fire, wake, script).log == w2.log);
        assert(within(tape, w2));
        assert(within(tape, w1));
        assert(within(tape, w0));
        echo_all_fired(tape, w, fired, ids, (n - 1) as nat);
        echo_notified(tape, w0, actor, EntryKind::TimerFire, timer.task, Some(fire));
        echo_notified(tape, w1, actor, EntryKind::Wake, timer.task, Some(wake));
    }
}

proof fn echo_timers_journaled(tape: Tape, w: World, fired: Seq<TimerFired>)
    requires
        recorded(tape),
        whole(tape, w.log),
        within(tape, timers_journaled(w, fired, tape.loud).1),
    ensures
        timers_journaled(recast(tape, w), fired, tape.plain) == (
            timers_journaled(w, fired, tape.loud).0,
            recast(tape, timers_journaled(w, fired, tape.loud).1),
        ),
        whole(tape, timers_journaled(w, fired, tape.loud).1.log),
{
    if stray(fired, w.tasks.len()) is None && fired.len() > 0 {
        let (answer, w1) = batch_appended(w, timer_batch(fired), tape.loud);
        if let Ok(ids) = answer {
            lemma_all_fired(w1, fired, ids, paired(fired, ids), tape.loud);
            echo_batch_appended(tape, w, timer_batch(fired));
            echo_all_fired(tape, w1, fired, ids, paired(fired, ids));
        } else {
            echo_batch_appended(tape, w, timer_batch(fired));
        }
    }
}

proof fn echo_timers_fired(tape: Tape, w: World, target: u64)
    requires
        recorded(tape),
        whole(tape, w.log),
        within(tape, timers_fired(w, target, tape.loud).1),
    ensures
        timers_fired(recast(tape, w), target, tape.plain) == (
            timers_fired(w, target, tape.loud).0,
            recast(tape, timers_fired(w, target, tape.loud).1),
        ),
        whole(tape, timers_fired(w, target, tape.loud).1.log),
{
    let (reply, w1) = told(w, Ask::Now, tape.loud);
    let ask = if target > reply->Ticks_0 {
        Ask::AdvanceToFiring { time: target }
    } else {
        Ask::AdvanceFiring
    };
    lemma_idle(w1, ask, tape.loud);
    echo_told(tape, w, Ask::Now);
    echo_told(tape, w1, ask);
}

proof fn lemma_timers_fired(w: World, target: u64, script: Seq<Reply>)
    ensures
        sound(w, timers_fired(w, target, script).1),
{
    lemma_idle(w, Ask::Now, script);
    let w1 = told(w, Ask::Now, script).1;
    lemma_idle(w1, Ask::AdvanceToFiring { time: target }, script);
    lemma_idle(w1, Ask::AdvanceFiring, script);
}

proof fn echo_quiesced(tape: Tape, w: World)
    requires
        recorded(tape),
        whole(tape, w.log),
        within(tape, quiesced(w, tape.loud).1),
    ensures
        quiesced(recast(tape, w), tape.plain) == (
            quiesced(w, tape.loud).0,
            recast(tape, quiesced(w, tape.loud).1),
        ),
        whole(tape, quiesced(w, tape.loud).1.log),
{
    let script = tape.loud;
    let (reply, w1) = told(w, Ask::NextDeadline, script);
    match sooner(reply->Deadline_0, earliest(w1.net.queue)) {
        None => {
            lemma_woken(w1, script);
            echo_told(tape, w, Ask::NextDeadline);
            echo_woken(tape, w1);
        },
        Some(target) => {
            let (fired, w2) = timers_fired(w1, target, script);
            lemma_timers_fired(w1, target, script);
            let (answer, w3) = timers_journaled(w2, fired, script);
            lemma_timers_journaled(w2, fired, script);
            lemma_woken(w3, script);
            lemma_sound_refl(w3);
            assert(sound(w3, quiesced(w, script).1));
            assert(within(tape, w3));
            assert(within(tape, w2));
            assert(within(tape, w1));
            echo_told(tape, w, Ask::NextDeadline);
            echo_timers_fired(tape, w1, target);
            echo_timers_journaled(tape, w2, fired);
            if answer is Ok {
                echo_woken(tape, w3);
            }
        },
    }
}

proof fn echo_delivery_awaited(tape: Tape, w: World)
    requires
        recorded(tape),
        whole(tape, w.log),
        within(tape, delivery_awaited(w, tape.loud).1),
    ensures
        delivery_awaited(recast(tape, w), tape.plain) == (
            delivery_awaited(w, tape.loud).0,
            recast(tape, delivery_awaited(w, tape.loud).1),
        ),
        whole(tape, delivery_awaited(w, tape.loud).1.log),
{
    let script = tape.loud;
    if let Some(time) = earliest(w.net.queue) {
        let (reply, w1) = told(w, Ask::Now, script);
        if time > reply->Ticks_0 {
            let w2 = told(w1, Ask::AdvanceTo { time }, script).1;
            lemma_idle(w1, Ask::AdvanceTo { time }, script);
            lemma_woken(w2, script);
            assert(within(tape, w2));
            assert(within(tape, w1));
            echo_told(tape, w, Ask::Now);
            echo_told(tape, w1, Ask::AdvanceTo { time });
            echo_woken(tape, w2);
        } else {
            echo_told(tape, w, Ask::Now);
        }
    }
}

proof fn echo_work_found(tape: Tape, w: World)
    requires
        recorded(tape),
        whole(tape, w.log),
        within(tape, work_found(w, tape.loud).1),
    ensures
        work_found(recast(tape, w), tape.plain) == (
            work_found(w, tape.loud).0,
            recast(tape, work_found(w, tape.loud).1),
        ),
        whole(tape, work_found(w, tape.loud).1.log),
{
    let script = tape.loud;
    let end = work_found(w, script).1;
    let (first, w1) = woken(w, script);
    let (second, w2) = quiesced(w1, script);
    let (third, w3) = delivery_awaited(w2, script);
    lemma_quiesced(w1, script);
    lemma_delivery_awaited(w2, script);
    lemma_sound_refl(w1);
    lemma_sound_refl(w2);
    assert(sound(w1, end));
    assert(within(tape, w1));
    echo_woken(tape, w);
    if first is Ok && w1.ready.len() == 0 {
        assert(sound(w2, end));
        assert(within(tape, w2));
        echo_quiesced(tape, w1);
        if second is Ok && w2.ready.len() == 0 && !all_done(w2.tasks) {
            echo_delivery_awaited(tape, w2);
        }
    }
}

proof fn echo_task_chosen(tape: Tape, w: World, step: usize)
    requires
        recorded(tape),
        whole(tape, w.log),
        within(tape, task_chosen(w, step, tape.loud).1),
    ensures
        task_chosen(recast(tape, w), step, tape.plain) == (
            task_chosen(w, step, tape.loud).0,
            recast(tape, task_chosen(w, step, tape.loud).1),
        ),
        whole(tape, task_chosen(w, step, tape.loud).1.log),
{
    let ask = Ask::ChooseReady { ready: w.ready, step };
    let (reply, w1) = told(w, ask, tape.loud);
    match reply->Choice_0 {
        Err(_) => {
            echo_told(tape, w, ask);
        },
        Ok(choice) => if choice >= w.ready.len() {
            echo_told(tape, w, ask);
        } else {
            let w2 = appended(w1, choice_draft(choice), tape.loud).1;
            lemma_appended(w1, choice_draft(choice), tape.loud);
            assert(within(tape, w2));
            echo_told(tape, w, ask);
            echo_appended(tape, w1, choice_draft(choice));
        },
    }
}

proof fn echo_turn_taken(tape: Tape, w: World, step: usize)
    requires
        recorded(tape),
        whole(tape, w.log),
        within(tape, turn_taken(w, step, tape.loud).1),
    ensures
        turn_taken(recast(tape, w), step, tape.plain) == (
            turn_taken(w, step, tape.loud).0,
            recast(tape, turn_taken(w, step, tape.loud).1),
        ),
        whole(tape, turn_taken(w, step, tape.loud).1.log),
{
    reveal(turn_taken);
    let (found, w1) = work_found(w, tape.loud);
    lemma_task_chosen(w1, step, tape.loud);
    lemma_sound_refl(w1);
    assert(sound(w1, turn_taken(w, step, tape.loud).1));
    echo_work_found(tape, w);
    if found == Ok::<Option<RunOutcome>, RuntimeError>(None) {
        echo_task_chosen(tape, w1, step);
    }
}

/// Without the monitor nothing is looked up for it.
proof fn echo_step_begun(tape: Tape, w: World)
    requires
        recorded(tape),
        whole(tape, w.log),
        within(tape, step_begun(w, tape.loud).1),
    ensures
        step_begun(recast(tape, w), tape.plain) == (
            shown(tape, step_begun(w, tape.loud).0),
            recast(tape, step_begun(w, tape.loud).1),
        ),
        whole(tape, step_begun(w, tape.loud).1.log),
{
    let script = tape.loud;
    let (reply, w1) = told(w, Ask::HasMonitor, script);
    let end = step_begun(w, script).1;
    if tape.edit is Quiet {
        reveal(edited);
        reveal(whole);
        assert(w1.log.drop_last() =~= w.log);
        assert(w1.log.last() == (Ask::HasMonitor, reply));
        if w1.log.len() > 1 {
            assert(w1.log[w1.log.len() - 2] == w.log.last());
        }
        let event = unattached((Ask::HasMonitor, reply));
        assert(quieted(w1.log) == quieted(w.log).push(event));
        if reply->Flag_0 {
            let w2 = told(w1, Ask::JournalLen, script).1;
            assert(w2.log.drop_last() =~= w1.log);
            assert(w2.log[w2.log.len() - 2] == w1.log.last());
            assert(quieted(w2.log) == quieted(w1.log));
            assert(w2.log.last().0 is JournalLen);
        }
        assert(quieted(end.log) == quieted(w.log).push(event));
        lemma_quieted_prefix(tape.end, end.log);
        let n = quieted(w.log).len();
        assert(quieted(tape.end)[n as int] == quieted(end.log)[n as int]);
        assert(tape.plain[n as int] == event.1);
    } else {
        lemma_idle(w1, Ask::JournalLen, script);
        lemma_sound_refl(w1);
        assert(sound(w1, end));
        assert(within(tape, w1));
        echo_told(tape, w, Ask::HasMonitor);
        if reply->Flag_0 {
            echo_told(tape, w1, Ask::JournalLen);
        }
    }
}

/// Without the monitor a step that it would let go on is not shown to it.
proof fn echo_step_shown(tape: Tape, w: World, from: usize)
    requires
        recorded(tape),
        whole(tape, w.log),
        within(tape, told(w, Ask::MonitorStep { start: from }, tape.loud).1),
    ensures
        ({
            let (reply, w1) = told(w, Ask::MonitorStep { start: from }, tape.loud);
            &&& whole(tape, w1.log)
            &&& tape.edit is Quiet ==> recast(tape, w1) == recast(tape, w) && reply->Action_0
                is Continue
            &&& !(tape.edit is Quiet) ==> told(
                recast(tape, w),
                Ask::MonitorStep { start: from },
                tape.plain,
            ) == (reply, recast(tape, w1))
        }),
{
    let ask = Ask::MonitorStep { start: from };
    let (reply, w1) = told(w, ask, tape.loud);
    if tape.edit is Quiet {
        reveal(edited);
        reveal(whole);
        assert(w1.log == w.log.push((ask, reply)));
        assert(w1.log.drop_last() =~= w.log);
        assert(tape.end[w.log.len() as int] == w1.log[w.log.len() as int]);
        assert(tape.end[w.log.len() as int].0 is MonitorStep);
        assert(quieted(w1.log) == quieted(w.log));
    } else {
        echo_told(tape, w, ask);
    }
}

proof fn echo_step_ended(tape: Tape, w: World, start: Option<usize>)
    requires
        recorded(tape),
        whole(tape, w.log),
        within(tape, step_ended(w, start, tape.loud).1),
    ensures
        step_ended(recast(tape, w), shown(tape, start), tape.plain) == (
            step_ended(w, start, tape.loud).0,
            recast(tape, step_ended(w, start, tape.loud).1),
        ),
        whole(tape, step_ended(w, start, tape.loud).1.log),
{
    let script = tape.loud;
    let w1 = match start {
        None => w,
        Some(from) => told(w, Ask::MonitorStep { start: from }, script).1,
    };
    let w2 = told(w1, Ask::TraceActive, script).1;
    let (len, w3) = told(w2, Ask::JournalLen, script);
    lemma_idle(w1, Ask::TraceActive, script);
    lemma_idle(w2, Ask::JournalLen, script);
    let note = Ask::NoteStep { journal_len: len->Count_0 };
    lemma_idle(w3, note, script);
    lemma_sound_refl(w1);
    lemma_sound_refl(w2);
    assert(sound(w1, step_ended(w, start, script).1));
    assert(within(tape, w1));
    if let Some(from) = start {
        echo_step_shown(tape, w, from);
    }
    if step_ended(w, start, script).0 is None {
        assert(sound(w2, step_ended(w, start, script).1));
        echo_told(tape, w1, Ask::TraceActive);
        if told(w1, Ask::TraceActive, script).0->Flag_0 {
            assert(within(tape, w3));
            echo_told(tape, w2, Ask::JournalLen);
            echo_told(tape, w3, note);
        }
    }
}

/// The other run in progress.
pub open spec fn recast_state(tape: Tape, state: RunState) -> RunState {
    RunState { world: recast(tape, state.world), ..state }
}

#[verifier::spinoff_prover]
proof fn echo_round_done(tape: Tape, state: RunState, programs: Seq<Seq<Instruction>>)
    requires
        recorded(tape),
        whole(tape, state.world.log),
        within(tape, round_done(state, programs, tape.loud).1.world),
    ensures
        round_done(recast_state(tape, state), programs, tape.plain) == (
            round_done(state, programs, tape.loud).0,
            recast_state(tape, round_done(state, programs, tape.loud).1),
        ),
        whole(tape, round_done(state, programs, tape.loud).1.world.log),
{
    let script = tape.loud;
    let (start, w1) = step_begun(state.world, script);
    let (turn, w2) = turn_taken(w1, state.steps as usize, script);
    lemma_turn_taken(w1, state.steps as usize, script);
    let after = RunState { world: w2, ..state };
    if let Ok(Turn::Poll { task, runnable }) = turn {
        let next = polled(after, programs, task, runnable, script);
        lemma_step_ended(next.world, start, script);
        assert(within(tape, next.world));
        if runnable {
            let (program, at) = (programs[task as int], state.places[task as int]);
            let (ended, place, w3) = program_polled(w2, task, program, at, script);
            lemma_program_polled(w2, task, program, at, script);
            assert(poll_noted(w3, task, ended).log == w3.log);
            assert(poll_noted(recast(tape, w3), task, ended) == recast(
                tape,
                poll_noted(w3, task, ended),
            ));
            assert(within(tape, w3));
            assert(within(tape, w2));
            assert(within(tape, w1));
            echo_step_begun(tape, state.world);
            echo_turn_taken(tape, w1, state.steps as usize);
            echo_program_polled(tape, w2, task, program, at);
        } else {
            assert(within(tape, w2));
            assert(within(tape, w1));
            echo_step_begun(tape, state.world);
            echo_turn_taken(tape, w1, state.steps as usize);
        }
        echo_step_ended(tape, next.world, start);
    } else {
        assert(within(tape, w2));
        assert(within(tape, w1));
        echo_step_begun(tape, state.world);
        echo_turn_taken(tape, w1, state.steps as usize);
    }
}

proof fn echo_rounds_done(
    tape: Tape,
    state: RunState,
    programs: Seq<Seq<Instruction>>,
    budget: usize,
    rounds: nat,
)
    requires
        recorded(tape),
        whole(tape, state.world.log),
        within(tape, rounds_done(state, programs, budget, rounds, tape.loud).1.world),
    ensures
        rounds_done(recast_state(tape, state), programs, budget, rounds, tape.plain) == (
            rounds_done(state, programs, budget, rounds, tape.loud).0,
            recast_state(tape, rounds_done(state, programs, budget, rounds, tape.loud).1),
        ),
        whole(tape, rounds_done(state, programs, budget, rounds, tape.loud).1.world.log),
    decreases rounds,
{
    if state.steps < budget && rounds > 0 {
        let (answer, next) = round_done(state, programs, tape.loud);
        if answer == Ok::<Option<RunOutcome>, RuntimeError>(None) {
            lemma_rounds_done(next, programs, budget, (rounds - 1) as nat, tape.loud);
            assert(within(tape, next.world));
            echo_round_done(tape, state, programs);
            echo_rounds_done(tape, next, programs, budget, (rounds - 1) as nat);
        } else {
            echo_round_done(tape, state, programs);
        }
    }
}

proof fn echo_run_ended(
    tape: Tape,
    w: World,
    outcome: RunOutcome,
    steps: usize,
    monitor: bool,
    protection: BeltStatus,
)
    requires
        recorded(tape),
        whole(tape, w.log),
        within(tape, run_ended(w, outcome, steps, monitor, protection, tape.loud).1),
    ensures
        run_ended(recast(tape, w), outcome, steps, monitor, protection, tape.plain) == (
            run_ended(w, outcome, steps, monitor, protection, tape.loud).0,
            recast(tape, run_ended(w, outcome, steps, monitor, protection, tape.loud).1),
        ),
        whole(tape, run_ended(w, outcome, steps, monitor, protection, tape.loud).1.log),
{
    let script = tape.loud;
    let end = run_ended(w, outcome, steps, monitor, protection, script).1;
    let (reply, w1) = told(w, Ask::Decisions, script);
    let ask = Ask::CheckTrailing { consumed: reply->Positions_0.len() as usize };
    lemma_idle(w1, ask, script);
    let (left, w2) = told(w1, ask, script);
    lemma_sound_refl(w2);
    lemma_idle(w2, Ask::Audit, script);
    let (found, w3) = told(w2, Ask::Audit, script);
    let check = Ask::CheckCoverage { entries: coverage_of(w3.coverage) };
    lemma_idle(w3, check, script);
    assert(sound(w2, end));
    assert(within(tape, w2));
    assert(within(tape, w1));
    echo_told(tape, w, Ask::Decisions);
    echo_told(tape, w1, ask);
    if left->Trailing_0 is None && w2.journal_error is None && monitor {
        assert(within(tape, told(w3, check, script).1));
        assert(within(tape, w3));
        echo_told(tape, w2, Ask::Audit);
        echo_told(tape, w3, check);
    }
}

proof fn echo_begun(tape: Tape, w: World)
    requires
        recorded(tape),
        whole(tape, w.log),
        within(tape, begun(w, tape.loud).1),
    ensures
        begun(recast(tape, w), tape.plain) == (
            begun(w, tape.loud).0,
            recast(tape, begun(w, tape.loud).1),
        ),
        whole(tape, begun(w, tape.loud).1.log),
{
    let script = tape.loud;
    let end = begun(w, script).1;
    let (answer, w1) = roots_journaled(w, w.tasks.len(), script);
    let (start, w2) = step_begun(w1, script);
    lemma_step_begun(w1, script);
    lemma_idle(w2, Ask::MonitorStep { start: 0 }, script);
    lemma_sound_refl(w1);
    lemma_sound_refl(w2);
    assert(sound(w1, end));
    assert(within(tape, w1));
    echo_roots_journaled(tape, w, w.tasks.len());
    if answer is Ok {
        assert(sound(w2, end));
        assert(within(tape, w2));
        echo_step_begun(tape, w1);
        if start is Some && start != Some(0usize) {
            echo_step_shown(tape, w2, 0);
        }
    }
}

pub(crate) proof fn echo_played(
    tape: Tape,
    w: World,
    programs: Seq<Seq<Instruction>>,
    budget: usize,
)
    requires
        recorded(tape),
        whole(tape, w.log),
        within(tape, played(w, programs, budget, tape.loud).1),
    ensures
        played(recast(tape, w), programs, budget, tape.plain) == (
            played(w, programs, budget, tape.loud).0,
            recast(tape, played(w, programs, budget, tape.loud).1),
        ),
        whole(tape, played(w, programs, budget, tape.loud).1.log),
{
    let (first, w1) = begun(w, tape.loud);
    if first == Ok::<Option<HaltReason>, RuntimeError>(None) {
        let state = first_state(w1, programs);
        lemma_rounds_done(state, programs, budget, u64::MAX as nat, tape.loud);
        assert(within(tape, w1));
        echo_begun(tape, w);
        assert(first_state(recast(tape, w1), programs) == recast_state(tape, state));
        echo_rounds_done(tape, state, programs, budget, u64::MAX as nat);
    } else {
        echo_begun(tape, w);
    }
}

/// The other run has the same result.
pub(crate) proof fn echo_ran(
    tape: Tape,
    w: World,
    programs: Seq<Seq<Instruction>>,
    budget: usize,
    audits: bool,
    protection: Protection,
)
    requires
        recorded(tape),
        whole(tape, w.log),
        within(tape, ran(w, programs, budget, audits, protection, tape.loud).1),
    ensures
        ran(recast(tape, w), programs, budget, audits, protection, tape.plain) == (
            ran(w, programs, budget, audits, protection, tape.loud).0,
            recast(tape, ran(w, programs, budget, audits, protection, tape.loud).1),
        ),
{
    if let Ok(status) = started(protection, budget) {
        let (answer, w1) = played(w, programs, budget, tape.loud);
        if let Ok((outcome, steps)) = answer {
            lemma_run_ended(w1, outcome, steps, audits, status, tape.loud);
            assert(within(tape, w1));
            echo_played(tape, w, programs, budget);
            echo_run_ended(tape, w1, outcome, steps, audits, status);
        } else {
            echo_played(tape, w, programs, budget);
        }
    }
}

} // verus!
