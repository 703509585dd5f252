//! How a run starts and counts.

use crate::config::{is_default_run, Policy, RunModel, SimFault};
use crate::deeds::deeds;
use crate::executor::simulation::{
    cut, linked, opened, polled, replaying, started, Limits, RunState,
};
use crate::host::{Ask, Reply};
use crate::ids::ActorId;
use crate::model::TaskEntry;
use crate::net::{is_default_link, LinkConfig, QueueFullPolicy};
use crate::program::program_polled;
use crate::runtime::Instruction;
use crate::schedule::RuntimeError;
use crate::sentinel::{effective_mode, BeltStatus, Protection, ProtectionMode};
use vstd::prelude::*;

verus! {

broadcast use crate::deeds::lemma_deeds;

/// The configuration of a link is the last one that was given for it.
pub proof fn law_last_link_configuration_holds(
    links: Seq<(usize, usize, LinkConfig)>,
    from: usize,
    to: usize,
)
    ensures
        linked(links).dom().contains((from, to)) <==> exists|i: int|
            0 <= i < links.len() && (#[trigger] links[i]).0 == from && links[i].1 == to,
        linked(links).dom().contains((from, to)) ==> exists|i: int|
            {
                &&& 0 <= i < links.len()
                &&& (#[trigger] links[i]).0 == from && links[i].1 == to && links[i].2 == linked(
                    links,
                )[(from, to)]
                &&& forall|j: int|
                    i < j < links.len() ==> !((#[trigger] links[j]).0 == from && links[j].1 == to)
            },
    decreases links.len(),
{
    if links.len() > 0 {
        let front = links.drop_last();
        law_last_link_configuration_holds(front, from, to);
        let last = links.len() - 1;
        if links[last].0 == from && links[last].1 == to {
            assert(links.last() == links[last]);
        } else {
            if exists|i: int| 0 <= i < links.len() && (#[trigger] links[i]).0 == from && links[i].1
                == to {
                let i = choose|i: int|
                    0 <= i < links.len() && (#[trigger] links[i]).0 == from && links[i].1 == to;
                assert(front[i] == links[i]);
            }
            if linked(front).dom().contains((from, to)) {
                let i = choose|i: int|
                    {
                        &&& 0 <= i < front.len()
                        &&& (#[trigger] front[i]).0 == from && front[i].1 == to && front[i].2
                            == linked(front)[(from, to)]
                        &&& forall|j: int|
                            i < j < front.len() ==> !((#[trigger] front[j]).0 == from && front[j].1
                                == to)
                    };
                assert(links[i] == front[i]);
                assert forall|j: int| i < j < links.len() implies !((#[trigger] links[j]).0 == from
                    && links[j].1 == to) by {
                    if j < front.len() {
                        assert(front[j] == links[j]);
                    }
                }
            }
        }
    }
}

/// A run starts with exactly those directed links cut that its fault schedule
/// partitions.
pub proof fn law_scheduled_partitions_are_cut(schedule: Seq<SimFault>, from: u32, to: u32)
    ensures
        cut(schedule).contains((from as usize, to as usize)) <==> exists|i: int|
            0 <= i < schedule.len() && #[trigger] schedule[i] == (SimFault::Partition {
                src: ActorId(from),
                dst: ActorId(to),
            }),
    decreases schedule.len(),
{
    if schedule.len() > 0 {
        let front = schedule.drop_last();
        law_scheduled_partitions_are_cut(front, from, to);
        let named = SimFault::Partition { src: ActorId(from), dst: ActorId(to) };
        if exists|i: int| 0 <= i < front.len() && #[trigger] front[i] == named {
            let i = choose|i: int| 0 <= i < front.len() && #[trigger] front[i] == named;
            assert(schedule[i] == named);
        }
        if schedule.last() == named {
            assert(schedule[schedule.len() - 1] == named);
        } else if exists|i: int| 0 <= i < schedule.len() && #[trigger] schedule[i] == named {
            let i = choose|i: int| 0 <= i < schedule.len() && #[trigger] schedule[i] == named;
            assert(front[i] == named);
        }
    }
}

/// A run opens its scheduler with its seed, policy and plan, and its storage with
/// its bounds and crash model. Every root task is new and in line, in order. The
/// network is empty, nothing was drawn, sent, counted or applied yet, and the
/// configuration is in force.
pub proof fn law_run_starts_afresh(
    config: RunModel,
    limits: Limits,
    replay: Seq<usize>,
    fallback: Policy,
    strict: bool,
    roots: nat,
    past: Seq<(Ask, Reply)>,
    script: Seq<Reply>,
)
    requires
        roots <= usize::MAX,
    ensures
        ({
            let w = opened(config, limits, replay, fallback, strict, roots, past, script);
            &&& deeds(w.log) == deeds(past).push(
                Ask::OpenScheduler {
                    seed: config.seed,
                    policy: config.policy,
                    replay,
                    fallback,
                    strict,
                },
            ).push(
                Ask::FsOpen {
                    extent: if config.max_file_extent is Some {
                        config.max_file_extent->Some_0
                    } else {
                        limits.max_file_extent
                    },
                    resident: config.max_resident_bytes,
                    mode: config.fs_journaling,
                },
            )
            &&& w.tasks.len() == roots && w.ready.len() == roots
            &&& forall|i: int|
                0 <= i < roots ==> #[trigger] w.ready[i] == i && w.tasks[i] == (TaskEntry {
                    blocked_on: None,
                    done: false,
                    register: 0,
                    timer_fired: false,
                })
            &&& w.net.queue.len() == 0 && w.net.window == 0
            &&& w.net.links == linked(config.links) && w.net.partitions == cut(
                config.fault_schedule,
            )
            &&& w.net_offset == 0 && w.fs_offset == 0 && w.send_seq.len() == 0
            &&& w.coverage.len() == 0 && w.fault_classes_used.len() == 0
            &&& w.applied_faults.len() == 0 && w.origins.len() == 0 && w.streams.len() == 0
            &&& w.journal_error is None
            &&& w.dns == config.dns && w.swarm == config.swarm && w.dropped_events
                == config.dropped_events && w.fault_schedule == config.fault_schedule
                && w.fs_journaling == config.fs_journaling && w.reorder_draw
                == config.reorder_draw
            &&& w.message_limit == limits.max_message_bytes
        }),
{
}

/// A round that polls a task counts one step and moves that task's program; a
/// task that is passed over counts none. No other program moves.
pub proof fn law_round_counts_polls(
    state: RunState,
    programs: Seq<Seq<Instruction>>,
    task: usize,
    runnable: bool,
    script: Seq<Reply>,
    other: int,
)
    requires
        task < state.places.len(),
        0 <= other < state.places.len(),
    ensures
        ({
            let after = polled(state, programs, task, runnable, script);
            &&& !runnable ==> after == state
            &&& runnable ==> after.steps == state.steps + 1
            &&& other != task ==> after.places[other] == state.places[other]
            &&& runnable ==> after.places[task as int] == program_polled(
                state.world,
                task,
                programs[task as int],
                state.places[task as int],
                script,
            ).1 && after.world.log == program_polled(
                state.world,
                task,
                programs[task as int],
                state.places[task as int],
                script,
            ).2.log
        }),
{
}

/// A run that requires protection starts exactly with the belt in force and no
/// trap error; a refused run names the trap error or the state of the belt.
pub proof fn law_required_protection_is_in_force(protection: Protection, budget: usize)
    ensures
        started(protection, budget) is Ok <==> budget > 0 && (protection.mode
            != ProtectionMode::Required || (protection.trap_error is None && protection.status
            is Active)),
        started(protection, budget) matches Ok(status) ==> status == protection.status,
        protection.mode == ProtectionMode::Required && protection.trap_error is Some ==> started(
            protection,
            budget,
        ) == Err::<BeltStatus, RuntimeError>(
            RuntimeError::Belt(BeltStatus::Failed(protection.trap_error->Some_0)),
        ),
        protection.mode == ProtectionMode::Required && protection.trap_error is None && !(
        protection.status is Active) ==> started(protection, budget) == Err::<
            BeltStatus,
            RuntimeError,
        >(RuntimeError::Belt(protection.status)),
{
}

/// A mode of the host's own overrides that of the environment.
pub proof fn law_host_mode_overrides(host: Option<ProtectionMode>, env: ProtectionMode)
    ensures
        host matches Some(mode) ==> effective_mode(host, env) == mode,
        host is None ==> effective_mode(host, env) == env,
{
}

/// A replay follows the policy of a replay, whatever the configuration says, and
/// keeps everything else of it.
pub proof fn law_replay_changes_the_policy_alone(config: RunModel)
    ensures
        replaying(config).policy == Policy::Replay,
        replaying(config) == (RunModel { policy: Policy::Replay, ..config }),
        replaying(config).seed == config.seed,
        replaying(config).max_steps == config.max_steps,
{
}

/// A configuration in which nothing was set: a random scheduler, ten thousand
/// steps, a monitored journal, and nothing that disturbs a run. A link in which
/// nothing was set neither delays, loses, reorders nor refuses a message.
pub proof fn law_defaults_disturb_nothing(m: RunModel, link: LinkConfig)
    requires
        is_default_run(m),
        is_default_link(link),
    ensures
        m.policy == Policy::Random && m.max_steps == 10_000 && m.monitor && !m.reorder_draw,
        forall|i: int| 0 <= i < 32 ==> #[trigger] m.seed@[i] == 0,
        m.fault_schedule.len() == 0 && m.dropped_events.len() == 0,
        m.links.len() == 0 && m.dns.len() == 0,
        m.swarm.drop_probability@ == 0 && m.swarm.delay_probability@ == 0,
        m.swarm.crash_probability@ == 0 && m.swarm.max_delay_ticks == 0,
        m.swarm.fault_classes_per_run == 2,
        m.fs_journaling is None && m.max_file_extent is None && m.max_resident_bytes is None,
        link.base_delay == 0 && link.jitter == 0 && link.loss_probability@ == 0,
        link.reorder_window == 0 && link.capacity is None,
        link.queue_policy == QueueFullPolicy::Drop,
{
}

} // verus!
