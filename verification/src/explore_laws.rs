//! Which schedules an exploration runs, said of the clocks of the journal.

use crate::bench::Trial;
use crate::clock::{count_at, precedes, within};
use crate::config::Policy;
use crate::dpor::{
    base_course, boundary, broken_at, conducted, course_of, explored, flips_at, flips_of,
    flips_until, forced, genuine, latest_clock, ordered, outcome, planned, Course, DporConfig,
    Exploration, Flip, Observation, TraceStep,
};
use crate::dpor_laws::{law_concurrent_alternatives_are_planned, law_flips_are_plausible, plausible};
use crate::executor::simulation::Limits;
use crate::ids::ActorId;
use crate::runtime::Instruction;
use crate::schedule::RuntimeError;
use vstd::prelude::*;

verus! {

/// The clock counts so many events of the actor: what it lists first for it, or
/// zero.
pub open spec fn counts(clock: Seq<(ActorId, u64)>, actor: ActorId, n: u64) -> bool {
    if exists|i: int| 0 <= i < clock.len() && (#[trigger] clock[i]).0 == actor {
        exists|i: int| #[trigger] listed_first(clock, actor, i) && clock[i].1 == n
    } else {
        n == 0
    }
}

/// The position is the first at which the clock lists the actor.
pub open spec fn listed_first(clock: Seq<(ActorId, u64)>, actor: ActorId, i: int) -> bool {
    &&& 0 <= i < clock.len() && clock[i].0 == actor
    &&& forall|j: int| 0 <= j < i ==> (#[trigger] clock[j]).0 != actor
}

/// No count of the first clock exceeds that of the second.
pub open spec fn nowhere_above(a: Seq<(ActorId, u64)>, b: Seq<(ActorId, u64)>) -> bool {
    forall|actor: ActorId, m: u64, n: u64| #[trigger]
        counts(a, actor, m) && #[trigger] counts(b, actor, n) ==> m <= n
}

/// Some count of the first clock is below that of the second.
pub open spec fn somewhere_below(a: Seq<(ActorId, u64)>, b: Seq<(ActorId, u64)>) -> bool {
    exists|actor: ActorId, m: u64, n: u64| #[trigger]
        counts(a, actor, m) && #[trigger] counts(b, actor, n) && m < n
}

/// What has the first clock happened before what has the second.
pub open spec fn before(a: Seq<(ActorId, u64)>, b: Seq<(ActorId, u64)>) -> bool {
    nowhere_above(a, b) && somewhere_below(a, b)
}

proof fn lemma_counts(clock: Seq<(ActorId, u64)>, actor: ActorId)
    ensures
        forall|n: u64| #[trigger] counts(clock, actor, n) <==> n == count_at(clock, actor),
    decreases clock.len(),
{
    if clock.len() > 0 {
        let rest = clock.drop_first();
        lemma_counts(rest, actor);
        let c = count_at(clock, actor);
        if clock[0].0 == actor {
            assert(listed_first(clock, actor, 0));
            assert(counts(clock, actor, c));
            assert forall|n: u64| #[trigger] counts(clock, actor, n) implies n == c by {
                let i = choose|i: int|
                    #[trigger] listed_first(clock, actor, i) && clock[i].1 == n;
                if i > 0 {
                    assert(clock[0].0 != actor);
                }
            }
        } else {
            assert(counts(rest, actor, c));
            if exists|i: int| 0 <= i < rest.len() && (#[trigger] rest[i]).0 == actor {
                let i = choose|i: int|
                    #[trigger] listed_first(rest, actor, i) && rest[i].1 == c;
                assert(clock[i + 1] == rest[i]);
                assert forall|j: int| 0 <= j < i + 1 implies (#[trigger] clock[j]).0 != actor by {
                    if j > 0 {
                        assert(rest[j - 1] == clock[j]);
                    }
                }
                assert(listed_first(clock, actor, i + 1));
            } else {
                assert forall|i: int| 0 <= i < clock.len() implies (#[trigger] clock[i]).0
                    != actor by {
                    if i > 0 {
                        assert(rest[i - 1] == clock[i]);
                    }
                }
            }
            assert(counts(clock, actor, c));
            assert forall|n: u64| #[trigger] counts(clock, actor, n) implies n == c by {
                if exists|i: int| 0 <= i < clock.len() && (#[trigger] clock[i]).0 == actor {
                    let i = choose|i: int|
                        #[trigger] listed_first(clock, actor, i) && clock[i].1 == n;
                    assert(rest[i - 1] == clock[i]);
                    assert forall|j: int| 0 <= j < i - 1 implies (#[trigger] rest[j]).0 != actor by {
                        assert(clock[j + 1] == rest[j]);
                    }
                    assert(listed_first(rest, actor, i - 1));
                    assert(counts(rest, actor, n));
                } else {
                    assert forall|i: int| 0 <= i < rest.len() implies (#[trigger] rest[i]).0
                        != actor by {
                        assert(clock[i + 1] == rest[i]);
                    }
                }
            }
        }
    }
}

/// A clock precedes another exactly when no count of it exceeds the other's and
/// some count is below it. So clocks with equal counts do not precede each
/// other.
pub proof fn law_precedence_is_read_off_the_counts(
    a: Seq<(ActorId, u64)>,
    b: Seq<(ActorId, u64)>,
)
    ensures
        precedes(a, b) <==> before(a, b),
        within(a, b) <==> nowhere_above(a, b),
        forall|actor: ActorId, n: u64| #[trigger]
            counts(a, actor, n) <==> n == count_at(a, actor),
{
    assert forall|actor: ActorId, n: u64| #[trigger] counts(a, actor, n) <==> n == count_at(
        a,
        actor,
    ) by {
        lemma_counts(a, actor);
    }
    assert forall|actor: ActorId, n: u64| #[trigger] counts(b, actor, n) <==> n == count_at(
        b,
        actor,
    ) by {
        lemma_counts(b, actor);
    }
    if within(a, b) {
        assert forall|actor: ActorId, m: u64, n: u64| #[trigger]
            counts(a, actor, m) && #[trigger] counts(b, actor, n) implies m <= n by {
            assert(count_at(a, actor) <= count_at(b, actor));
        }
    }
    if nowhere_above(a, b) {
        assert forall|actor: ActorId| #[trigger] count_at(a, actor) <= count_at(b, actor) by {
            assert(counts(a, actor, count_at(a, actor)));
            assert(counts(b, actor, count_at(b, actor)));
        }
    }
    if !within(b, a) {
        let actor = choose|actor: ActorId| !(#[trigger] count_at(b, actor) <= count_at(a, actor));
        assert(counts(a, actor, count_at(a, actor)));
        assert(counts(b, actor, count_at(b, actor)));
    }
    if somewhere_below(a, b) {
        let (actor, m, n) = choose|actor: ActorId, m: u64, n: u64| #[trigger]
            counts(a, actor, m) && #[trigger] counts(b, actor, n) && m < n;
        assert(!(count_at(b, actor) <= count_at(a, actor)));
    }
}

/// The entry is the latest of the actor among the first ones.
pub open spec fn latest(
    entries: Seq<(ActorId, Seq<(ActorId, u64)>)>,
    len: nat,
    actor: ActorId,
    i: int,
) -> bool {
    &&& 0 <= i < len && entries[i].0 == actor
    &&& forall|j: int| i < j < len ==> (#[trigger] entries[j]).0 != actor
}

proof fn lemma_latest(
    entries: Seq<(ActorId, Seq<(ActorId, u64)>)>,
    len: nat,
    actor: ActorId,
)
    ensures
        match latest_clock(entries, len, actor) {
            Some(clock) => exists|i: int| #[trigger]
                latest(entries, len, actor, i) && entries[i].1 == clock,
            None => forall|i: int| 0 <= i < len ==> (#[trigger] entries[i]).0 != actor,
        },
    decreases len,
{
    if len > 0 {
        if entries[len - 1].0 == actor {
            assert(latest(entries, len, actor, len - 1));
        } else {
            lemma_latest(entries, (len - 1) as nat, actor);
            if let Some(clock) = latest_clock(entries, (len - 1) as nat, actor) {
                let i = choose|i: int|
                    #[trigger] latest(entries, (len - 1) as nat, actor, i) && entries[i].1 == clock;
                assert(latest(entries, len, actor, i));
            }
        }
    }
}

/// Both tasks have an entry among the first ones, and the latest entry of one
/// happened before the latest of the other.
pub open spec fn causally_ordered(
    entries: Seq<(ActorId, Seq<(ActorId, u64)>)>,
    len: nat,
    a: usize,
    b: usize,
) -> bool {
    exists|i: int, j: int| #[trigger]
        latest(entries, len, ActorId(a as u32), i) && #[trigger] latest(
            entries,
            len,
            ActorId(b as u32),
            j,
        ) && (before(entries[i].1, entries[j].1) || before(entries[j].1, entries[i].1))
}

proof fn lemma_ordered(
    entries: Seq<(ActorId, Seq<(ActorId, u64)>)>,
    len: nat,
    a: usize,
    b: usize,
)
    ensures
        ordered(entries, len, a, b) <==> causally_ordered(entries, len, a, b),
{
    let (x, y) = (ActorId(a as u32), ActorId(b as u32));
    lemma_latest(entries, len, x);
    lemma_latest(entries, len, y);
    if let (Some(p), Some(q)) = (latest_clock(entries, len, x), latest_clock(entries, len, y)) {
        let i = choose|i: int| #[trigger] latest(entries, len, x, i) && entries[i].1 == p;
        let j = choose|j: int| #[trigger] latest(entries, len, y, j) && entries[j].1 == q;
        law_precedence_is_read_off_the_counts(p, q);
        law_precedence_is_read_off_the_counts(q, p);
        if causally_ordered(entries, len, a, b) {
            let (m, n) = choose|m: int, n: int| #[trigger]
                latest(entries, len, x, m) && #[trigger] latest(entries, len, y, n) && (before(
                    entries[m].1,
                    entries[n].1,
                ) || before(entries[n].1, entries[m].1));
            assert(m == i) by {
                if m < i {
                    assert(entries[i].0 != x);
                }
                if i < m {
                    assert(entries[m].0 != x);
                }
            }
            assert(n == j) by {
                if n < j {
                    assert(entries[j].0 != y);
                }
                if j < n {
                    assert(entries[n].0 != y);
                }
            }
        }
    }
}

/// The number of entries before the branch point of a trace position: as many as
/// the journal held after the steps before it.
pub open spec fn branches_at(trace: Seq<TraceStep>, at: int, len: nat) -> bool {
    &&& forall|k: int| 0 <= k < at ==> (#[trigger] trace[k]).journal_len <= len
    &&& len == 0 || exists|k: int| 0 <= k < at && (#[trigger] trace[k]).journal_len == len
}

proof fn lemma_boundary(trace: Seq<TraceStep>, at: nat)
    requires
        at <= trace.len(),
    ensures
        branches_at(trace, at as int, boundary(trace, at)),
    decreases at,
{
    if at > 0 {
        lemma_boundary(trace, (at - 1) as nat);
        let len = boundary(trace, at);
        if len == trace[at - 1].journal_len as nat {
            assert(trace[at - 1].journal_len == len);
        } else if len > 0 {
            let k = choose|k: int| 0 <= k < at - 1 && (#[trigger] trace[k]).journal_len == len;
            assert(trace[k].journal_len == len);
        }
    }
}

/// Each trace position records another step.
pub open spec fn steps_differ(trace: Seq<TraceStep>) -> bool {
    forall|i: int, j: int|
        0 <= i < j < trace.len() ==> (#[trigger] trace[i]).step != (#[trigger] trace[j]).step
}

/// The flip of the step to the task is planned.
pub open spec fn plans(flips: Seq<Flip>, step: usize, alt: usize) -> bool {
    exists|k: int| 0 <= k < flips.len() && (#[trigger] flips[k]).step == step && flips[k].alt == alt
}

/// The schedules that an exploration plans, for a step of the base run and a
/// ready task beside the chosen one: the alternative is planned unless the two
/// tasks are causally ordered by the clocks of their latest entries before the
/// branch point. Tasks without an entry, and tasks with equal clocks, are not
/// ordered. Only the budget leaves out an alternative that is not ordered.
pub proof fn law_concurrent_alternatives_are_explored(
    observed: Observation,
    max_runs: usize,
    at: int,
    position: int,
    len: nat,
)
    requires
        0 <= at < observed.trace.len(),
        steps_differ(observed.trace),
        forall|i: int|
            0 <= i < observed.trace.len() ==> (#[trigger] observed.trace[i]).ready.len()
                <= usize::MAX && observed.trace[i].chosen < observed.trace[i].ready.len(),
        0 <= position < observed.trace[at].ready.len(),
        position != observed.trace[at].chosen,
        branches_at(observed.trace, at, len),
    ensures
        ({
            let t = observed.trace[at];
            let alt = t.ready[position];
            let apart = !causally_ordered(
                observed.entries,
                len,
                t.ready[t.chosen as int],
                alt,
            );
            let flips = flips_of(observed, max_runs);
            &&& plans(flips, t.step, alt) ==> apart
            &&& apart ==> plans(flips, t.step, alt) || flips.len() + 1 >= max_runs
        }),
{
    let (trace, entries) = (observed.trace, observed.entries);
    let t = trace[at];
    let alt = t.ready[position];
    let all = flips_until(trace, entries, trace.len());
    let flips = flips_of(observed, max_runs);
    lemma_boundary(trace, at as nat);
    lemma_branch_is_one(trace, at, len, boundary(trace, at as nat));
    lemma_ordered(entries, len, t.ready[t.chosen as int], alt);
    if plans(flips, t.step, alt) {
        let k = choose|k: int|
            0 <= k < flips.len() && (#[trigger] flips[k]).step == t.step && flips[k].alt == alt;
        assert(flips[k] == all[k]);
        law_flips_are_plausible(trace, entries, trace.len(), k);
        let here = choose|here: int|
            here < trace.len() && #[trigger] plausible(all[k], trace, entries, here);
        if here < at {
            assert(trace[here].step != trace[at].step);
        }
        if at < here {
            assert(trace[at].step != trace[here].step);
        }
        assert(here == at);
    }
    if !ordered(entries, len, t.ready[t.chosen as int], alt) {
        law_concurrent_alternatives_are_planned(trace, entries, trace.len(), at, position);
        let k = choose|k: int|
            0 <= k < all.len() && (#[trigger] all[k]).step == t.step && all[k].alt == alt;
        if k < flips.len() {
            assert(flips[k] == all[k]);
        }
    }
}

proof fn lemma_branch_is_one(trace: Seq<TraceStep>, at: int, a: nat, b: nat)
    requires
        branches_at(trace, at, a),
        branches_at(trace, at, b),
    ensures
        a == b,
{
    if a > 0 {
        let k = choose|k: int| 0 <= k < at && (#[trigger] trace[k]).journal_len == a;
        assert(trace[k].journal_len <= b);
    }
    if b > 0 {
        let k = choose|k: int| 0 <= k < at && (#[trigger] trace[k]).journal_len == b;
        assert(trace[k].journal_len <= a);
    }
}

/// A flip is planned at the position of its task in the ready list, and each
/// flip of the plan stands where it stands in every larger plan. A plan holds
/// one flip less than the budget has runs, or fewer.
pub proof fn law_plan_keeps_to_its_budget(observed: Observation, less: usize, more: usize)
    requires
        less <= more,
    ensures
        ({
            let small = flips_of(observed, less);
            let large = flips_of(observed, more);
            &&& less > 0 ==> small.len() <= less - 1
            &&& less == 0 ==> small.len() == 0
            &&& small.len() <= large.len()
            &&& forall|k: int| 0 <= k < small.len() ==> #[trigger] small[k] == large[k]
            &&& small.len() < large.len() ==> small.len() + 1 == less || less == 0
        }),
{
}

/// The trace position does not fit its run.
pub open spec fn unfit(t: TraceStep, decisions: nat, entries: nat) -> bool {
    t.chosen >= t.ready.len() || t.step > decisions || t.journal_len > entries
}

proof fn lemma_broken(trace: Seq<TraceStep>, decisions: nat, entries: nat, from: nat)
    requires
        trace.len() <= usize::MAX,
    ensures
        match broken_at(trace, decisions, entries, from) {
            Some(position) => from <= position < trace.len() && unfit(
                trace[position as int],
                decisions,
                entries,
            ) && forall|i: int|
                from <= i < position ==> !unfit(#[trigger] trace[i], decisions, entries),
            None => forall|i: int|
                from <= i < trace.len() ==> !unfit(#[trigger] trace[i], decisions, entries),
        },
    decreases trace.len() - from,
{
    if from < trace.len() && !unfit(trace[from as int], decisions, entries) {
        lemma_broken(trace, decisions, entries, from + 1);
    }
}

/// A trace that does not fit its run is rejected at the first position that does
/// not: a choice outside its ready list, a step past the decisions, or more
/// entries than the journal holds. Every other trace is planned.
pub proof fn law_unfit_trace_is_rejected(decisions: nat, observed: Observation, max_runs: usize)
    requires
        observed.trace.len() <= usize::MAX,
    ensures
        ({
            let (trace, entries) = (observed.trace, observed.entries.len());
            match planned(decisions, observed, max_runs) {
                Ok(flips) => flips == flips_of(observed, max_runs) && forall|i: int|
                    0 <= i < trace.len() ==> !unfit(#[trigger] trace[i], decisions, entries),
                Err(RuntimeError::BrokenTrace { position }) => {
                    &&& position < trace.len()
                    &&& unfit(trace[position as int], decisions, entries)
                    &&& forall|i: int|
                        0 <= i < position ==> !unfit(#[trigger] trace[i], decisions, entries)
                },
                Err(_) => false,
            }
        }),
{
    lemma_broken(observed.trace, decisions, observed.entries.len(), 0);
}

/// The replay of a flip repeats the base run up to the step of the flip and then
/// runs the task at the flip's position.
pub proof fn law_flip_forces_its_step(decisions: Seq<usize>, flip: Flip, i: int)
    requires
        flip.step <= decisions.len(),
        0 <= i < flip.step,
    ensures
        forced(decisions, flip).len() == flip.step + 1,
        forced(decisions, flip)[i] == decisions[i],
        forced(decisions, flip).last() == flip.position,
{
}

/// The base run of an exploration follows its own policy; every other run
/// replays, with the seed and the budget of the exploration, no faults, no links
/// and no names.
pub proof fn law_explored_runs_are_plain(
    programs: Seq<Seq<Instruction>>,
    cfg: DporConfig,
    limits: Limits,
    trials: Seq<Trial>,
    flips: Seq<Flip>,
    i: int,
)
    ensures
        ({
            let course = course_of(programs, cfg, limits, trials, flips, i);
            &&& course.programs == programs && course.limits == limits
            &&& course.config.policy == if i == 0 {
                Policy::Dpor
            } else {
                Policy::Replay
            }
            &&& i == 0 ==> course.replay.len() == 0
            &&& course.config.seed == cfg.seed && course.config.max_steps == cfg.max_steps
            &&& course.config.fault_schedule.len() == 0 && course.config.links.len() == 0
            &&& course.config.dns.len() == 0 && course.config.dropped_events.len() == 0
            &&& course.config.swarm.max_delay_ticks == 0 && course.config.monitor
            &&& !course.config.reorder_draw && course.config.fs_journaling is None
        }),
{
}

/// A ready task beside the chosen one stands at the position, and the key names
/// it and its step.
pub open spec fn forks(
    trace: Seq<TraceStep>,
    at: int,
    position: usize,
    key: (usize, usize),
) -> bool {
    &&& 0 <= at < trace.len() && trace[at].step == key.0
    &&& position < trace[at].ready.len() && position != trace[at].chosen
    &&& trace[at].ready[position as int] == key.1
}

/// A report lists its trials in order: what the bench saw of each run and what
/// the run decided. Each run after the base run replays the base run up to the
/// step of its key and then the position of the task that the key names.
pub proof fn law_report_lists_its_trials(
    programs: Seq<Seq<Instruction>>,
    cfg: DporConfig,
    limits: Limits,
    trials: Seq<Trial>,
    report: Exploration,
    i: int,
) -> (course: Course)
    requires
        explored(programs, cfg, limits, trials, Ok(report)),
        0 <= i < trials.len(),
        (trials[0].observed->Some_0).trace.len() <= usize::MAX,
        forall|k: int|
            0 <= k < (trials[0].observed->Some_0).trace.len() ==> (#[trigger] (
            trials[0].observed->Some_0).trace[k]).ready.len() <= usize::MAX,
    ensures
        genuine(course, trials[i]),
        course.programs == programs && course.limits == limits,
        trials[i].observed is Some && outcome(course, trials[i]) is Ok,
        report.runs[i].root_hash == (trials[i].observed->Some_0).root_hash,
        report.runs[i].decisions == (outcome(course, trials[i])->Ok_0).decisions,
        i == 0 ==> course.replay.len() == 0 && course.config.policy == Policy::Dpor,
        i > 0 ==> course.config.policy == Policy::Replay && exists|at: int, position: usize|
            #[trigger]
            forks(
                (trials[0].observed->Some_0).trace,
                at,
                position,
                report.explored_flip_keys[i - 1],
            ) && course.replay == report.runs[0].decisions.take(
                report.explored_flip_keys[i - 1].0 as int,
            ).push(position),
{
    let base = outcome(base_course(programs, cfg, limits), trials[0])->Ok_0;
    let observed = trials[0].observed->Some_0;
    let flips = flips_of(observed, cfg.max_runs);
    let all = flips_until(observed.trace, observed.entries, observed.trace.len());
    let course = course_of(programs, cfg, limits, trials, flips, i);
    assert(conducted(programs, cfg, limits, trials, flips));
    assert(genuine(course, trials[i]));
    if i == trials.len() - 1 {
        assert(trials[i] == trials.last());
    }
    if i > 0 {
        assert(genuine(course_of(programs, cfg, limits, trials, flips, 0), trials[0]));
        assert(flips[i - 1] == all[i - 1]);
        law_flips_are_plausible(observed.trace, observed.entries, observed.trace.len(), i - 1);
        let at = choose|at: int|
            at < observed.trace.len() && #[trigger] plausible(
                all[i - 1],
                observed.trace,
                observed.entries,
                at,
            );
        let key = report.explored_flip_keys[i - 1];
        assert(forks(observed.trace, at, flips[i - 1].position, key));
    }
    course
}

proof fn lemma_added(
    flips: Seq<Flip>,
    t: TraceStep,
    entries: Seq<(ActorId, Seq<(ActorId, u64)>)>,
    len: nat,
    count: nat,
)
    requires
        count <= t.ready.len() <= usize::MAX,
    ensures
        ({
            let after = flips_at(flips, t, entries, len, count);
            &&& after.len() >= flips.len()
            &&& forall|k: int| 0 <= k < flips.len() ==> #[trigger] after[k] == flips[k]
            &&& forall|k: int|
                flips.len() <= k < after.len() ==> (#[trigger] after[k]).step == t.step
                    && after[k].position < count
            &&& forall|k: int, l: int|
                flips.len() <= k < l < after.len() ==> (#[trigger] after[k]).position < (
                #[trigger] after[l]).position
        }),
    decreases count,
{
    if count > 0 {
        lemma_added(flips, t, entries, len, (count - 1) as nat);
    }
}

/// The alternatives are planned in the order of the steps, and those of one step
/// in the order of the ready list: a budget that is too small leaves out the
/// latest.
pub proof fn law_earlier_steps_are_planned_first(
    trace: Seq<TraceStep>,
    entries: Seq<(ActorId, Seq<(ActorId, u64)>)>,
    count: nat,
    k: int,
    l: int,
    a: int,
    b: int,
)
    requires
        steps_differ(trace),
        count <= trace.len() <= usize::MAX,
        forall|i: int| 0 <= i < trace.len() ==> (#[trigger] trace[i]).ready.len() <= usize::MAX,
        0 <= k < l < flips_until(trace, entries, count).len(),
        0 <= a < trace.len() && trace[a].step == flips_until(trace, entries, count)[k].step,
        0 <= b < trace.len() && trace[b].step == flips_until(trace, entries, count)[l].step,
    ensures
        a < b || (a == b && flips_until(trace, entries, count)[k].position < flips_until(
            trace,
            entries,
            count,
        )[l].position),
    decreases count,
{
    if count > 0 {
        let last = (count - 1) as nat;
        let t = trace[last as int];
        let before = flips_until(trace, entries, last);
        let after = flips_until(trace, entries, count);
        lemma_added(before, t, entries, boundary(trace, last), t.ready.len());
        if l < before.len() {
            law_earlier_steps_are_planned_first(trace, entries, last, k, l, a, b);
        } else {
            lemma_one_place(trace, b, last as int);
            if k < before.len() {
                assert(after[k] == before[k]);
                law_flips_are_plausible(trace, entries, last, k);
                let at = choose|at: int|
                    at < last && #[trigger] plausible(before[k], trace, entries, at);
                lemma_one_place(trace, a, at);
            } else {
                lemma_one_place(trace, a, last as int);
            }
        }
    }
}

proof fn lemma_one_place(trace: Seq<TraceStep>, a: int, b: int)
    requires
        steps_differ(trace),
        0 <= a < trace.len(),
        0 <= b < trace.len(),
        trace[a].step == trace[b].step,
    ensures
        a == b,
{
    if a < b {
        assert(trace[a].step != trace[b].step);
    }
    if b < a {
        assert(trace[b].step != trace[a].step);
    }
}

} // verus!
