//! What holds of every exploration.

use crate::bench::Trial;
use crate::dpor::{
    base_course, boundary, course_of, distinct, explored, flips_at, flips_of, flips_until, forced,
    genuine, lemma_flips_fit, lemma_unbroken, ordered, outcome, planned, seen, simulated, summary,
    Course, DporConfig, Exploration, ExploredRun, Flip, Observation, TraceStep,
};
use crate::executor::simulation::Limits;
use crate::host::{follows, Ask, Reply};
use crate::ids::{ActorId, EntryHash};
use crate::runtime::Instruction;
use crate::schedule::RuntimeError;
use crate::sentinel::Protection;
use vstd::prelude::*;

verus! {

/// No two flips name the same step and task.
pub open spec fn unique(flips: Seq<Flip>) -> bool {
    forall|i: int, j: int|
        0 <= i < j < flips.len() ==> !((#[trigger] flips[i]).step == (#[trigger] flips[j]).step
            && flips[i].alt == flips[j].alt)
}

/// The flip runs another ready task than the chosen one, and the two tasks are
/// concurrent as of the branch point.
pub open spec fn plausible(
    flip: Flip,
    trace: Seq<TraceStep>,
    entries: Seq<(ActorId, Seq<(ActorId, u64)>)>,
    at: int,
) -> bool {
    &&& 0 <= at < trace.len()
    &&& flip.step == trace[at].step
    &&& flip.position < trace[at].ready.len()
    &&& flip.position != trace[at].chosen
    &&& flip.alt == trace[at].ready[flip.position as int]
    &&& !ordered(entries, boundary(trace, at as nat), trace[at].ready[trace[at].chosen as int], flip.alt)
}

proof fn lemma_unique_at(
    flips: Seq<Flip>,
    t: TraceStep,
    entries: Seq<(ActorId, Seq<(ActorId, u64)>)>,
    len: nat,
    count: nat,
)
    requires
        unique(flips),
    ensures
        unique(flips_at(flips, t, entries, len, count)),
    decreases count,
{
    if count > 0 {
        lemma_unique_at(flips, t, entries, len, (count - 1) as nat);
        let before = flips_at(flips, t, entries, len, (count - 1) as nat);
        let after = flips_at(flips, t, entries, len, count);
        assert forall|i: int, j: int| 0 <= i < j < after.len() implies !((
        #[trigger] after[i]).step == (#[trigger] after[j]).step && after[i].alt == after[j].alt) by {
            assert(after[i] == before[i]);
            if j < before.len() {
                assert(after[j] == before[j]);
            }
        }
    }
}

/// No flip is explored twice.
pub proof fn law_flips_are_unique(
    trace: Seq<TraceStep>,
    entries: Seq<(ActorId, Seq<(ActorId, u64)>)>,
    count: nat,
)
    requires
        count <= trace.len(),
    ensures
        unique(flips_until(trace, entries, count)),
    decreases count,
{
    if count > 0 {
        let before = (count - 1) as nat;
        law_flips_are_unique(trace, entries, before);
        let t = trace[count - 1];
        lemma_unique_at(
            flips_until(trace, entries, before),
            t,
            entries,
            boundary(trace, before),
            t.ready.len(),
        );
    }
}

proof fn lemma_plausible_at(
    flips: Seq<Flip>,
    trace: Seq<TraceStep>,
    entries: Seq<(ActorId, Seq<(ActorId, u64)>)>,
    at: int,
    count: nat,
    k: int,
)
    requires
        0 <= at < trace.len(),
        count <= trace[at].ready.len() <= usize::MAX,
        0 <= k < flips_at(flips, trace[at], entries, boundary(trace, at as nat), count).len(),
        flips.len() <= k,
    ensures
        plausible(
            flips_at(flips, trace[at], entries, boundary(trace, at as nat), count)[k],
            trace,
            entries,
            at,
        ),
    decreases count,
{
    let len = boundary(trace, at as nat);
    if count > 0 {
        let before = flips_at(flips, trace[at], entries, len, (count - 1) as nat);
        if k < before.len() {
            lemma_plausible_at(flips, trace, entries, at, (count - 1) as nat, k);
        }
    }
}

proof fn lemma_kept_at(
    flips: Seq<Flip>,
    t: TraceStep,
    entries: Seq<(ActorId, Seq<(ActorId, u64)>)>,
    len: nat,
    count: nat,
    k: int,
)
    requires
        0 <= k < flips.len(),
    ensures
        flips_at(flips, t, entries, len, count).len() >= flips.len(),
        flips_at(flips, t, entries, len, count)[k] == flips[k],
    decreases count,
{
    if count > 0 {
        lemma_kept_at(flips, t, entries, len, (count - 1) as nat, k);
    }
}

/// Every flip runs another ready task of its step than the chosen one, and
/// never one that is causally ordered with it.
pub proof fn law_flips_are_plausible(
    trace: Seq<TraceStep>,
    entries: Seq<(ActorId, Seq<(ActorId, u64)>)>,
    count: nat,
    k: int,
)
    requires
        count <= trace.len(),
        forall|i: int| 0 <= i < trace.len() ==> (#[trigger] trace[i]).ready.len() <= usize::MAX,
        0 <= k < flips_until(trace, entries, count).len(),
    ensures
        exists|at: int|
            at < count && #[trigger] plausible(
                flips_until(trace, entries, count)[k],
                trace,
                entries,
                at,
            ),
    decreases count,
{
    if count > 0 {
        let before = flips_until(trace, entries, (count - 1) as nat);
        let t = trace[count - 1];
        let len = boundary(trace, (count - 1) as nat);
        if k < before.len() {
            law_flips_are_plausible(trace, entries, (count - 1) as nat, k);
            lemma_kept_at(before, t, entries, len, t.ready.len(), k);
        } else {
            lemma_plausible_at(before, trace, entries, count - 1, t.ready.len(), k);
            assert(plausible(
                flips_until(trace, entries, count)[k],
                trace,
                entries,
                count - 1,
            ));
        }
    }
}

proof fn lemma_seen_at(
    flips: Seq<Flip>,
    t: TraceStep,
    entries: Seq<(ActorId, Seq<(ActorId, u64)>)>,
    len: nat,
    count: nat,
    position: int,
)
    requires
        0 <= position < count <= t.ready.len(),
        position != t.chosen,
        !ordered(entries, len, t.ready[t.chosen as int], t.ready[position]),
    ensures
        seen(flips_at(flips, t, entries, len, count), t.step, t.ready[position]),
    decreases count,
{
    let before = flips_at(flips, t, entries, len, (count - 1) as nat);
    let after = flips_at(flips, t, entries, len, count);
    if position < count - 1 {
        lemma_seen_at(flips, t, entries, len, (count - 1) as nat, position);
        let i = choose|i: int|
            0 <= i < before.len() && (#[trigger] before[i]).step == t.step && before[i].alt
                == t.ready[position];
        assert(after[i] == before[i]);
    } else if !seen(before, t.step, t.ready[position]) {
        assert(after[before.len() as int].step == t.step);
    }
}

/// Every ready task that is concurrent with the chosen one is planned as a
/// flip of its step.
pub proof fn law_concurrent_alternatives_are_planned(
    trace: Seq<TraceStep>,
    entries: Seq<(ActorId, Seq<(ActorId, u64)>)>,
    count: nat,
    at: int,
    position: int,
)
    requires
        0 <= at < count <= trace.len(),
        0 <= position < trace[at].ready.len(),
        position != trace[at].chosen,
        !ordered(
            entries,
            boundary(trace, at as nat),
            trace[at].ready[trace[at].chosen as int],
            trace[at].ready[position],
        ),
    ensures
        seen(flips_until(trace, entries, count), trace[at].step, trace[at].ready[position]),
    decreases count,
{
    let before = flips_until(trace, entries, (count - 1) as nat);
    let t = trace[count - 1];
    let len = boundary(trace, (count - 1) as nat);
    if at < count - 1 {
        law_concurrent_alternatives_are_planned(trace, entries, (count - 1) as nat, at, position);
        let i = choose|i: int|
            0 <= i < before.len() && (#[trigger] before[i]).step == trace[at].step && before[i].alt
                == trace[at].ready[position];
        lemma_kept_at(before, t, entries, len, t.ready.len(), i);
        assert(flips_until(trace, entries, count)[i] == before[i]);
    } else {
        lemma_seen_at(before, t, entries, len, t.ready.len(), position);
    }
}

/// A report keeps to the budget and to its own counts: the base run and one
/// run per flip, never more runs than the budget but for the base run, no flip
/// twice, and each flip forces its step and nothing after it.
pub proof fn law_report_is_consistent(
    programs: Seq<Seq<Instruction>>,
    cfg: DporConfig,
    limits: Limits,
    trials: Seq<Trial>,
    report: Exploration,
)
    requires
        explored(programs, cfg, limits, trials, Ok(report)),
    ensures
        report.runs.len() == trials.len(),
        report.runs.len() == report.explored_flips + 1,
        report.explored_flip_keys.len() == report.explored_flips,
        report.explored_flip_keys.no_duplicates(),
        report.runs.len() <= if cfg.max_runs > 1 {
            cfg.max_runs as nat
        } else {
            1
        },
        report.runs[0].forced_prefix_len == 0,
        forall|i: int|
            1 <= i < report.runs.len() ==> (#[trigger] report.runs[i]).forced_prefix_len
                == report.explored_flip_keys[i - 1].0 + 1,
        report.distinct_roots == distinct(report.runs),
        1 <= report.distinct_roots <= report.runs.len(),
{
    let base = outcome(base_course(programs, cfg, limits), trials[0])->Ok_0;
    let observed = trials[0].observed->Some_0;
    let flips = flips_of(observed, cfg.max_runs);
    assert(report == summary(programs, cfg, limits, trials, flips));
    assert forall|i: int| 0 <= i < observed.trace.len() implies (#[trigger] observed.trace[i]).step
        <= base.decisions.len() by {
        lemma_unbroken(observed.trace, base.decisions.len(), observed.entries.len(), 0, i);
    }
    lemma_flips_fit(observed.trace, observed.entries, observed.trace.len(), base.decisions.len());
    law_flips_are_unique(observed.trace, observed.entries, observed.trace.len());
    let all = flips_until(observed.trace, observed.entries, observed.trace.len());
    assert forall|i: int, j: int| 0 <= i < j < flips.len() implies report.explored_flip_keys[i]
        != report.explored_flip_keys[j] by {
        assert(flips[i] == all[i]);
        assert(flips[j] == all[j]);
    }
    assert forall|i: int| 1 <= i < report.runs.len() implies (#[trigger] report.runs[i]).forced_prefix_len
        == report.explored_flip_keys[i - 1].0 + 1 by {
        assert(flips[i - 1] == all[i - 1]);
        assert(course_of(programs, cfg, limits, trials, flips, i).replay == forced(
            base.decisions,
            flips[i - 1],
        ));
    }
    let roots = report.runs.map_values(|r: ExploredRun| r.root_hash);
    roots.lemma_cardinality_of_set();
    assert(roots.to_set().contains(roots[0]));
    vstd::seq_lib::seq_to_set_is_finite(roots);
    if roots.to_set().len() == 0 {
        assert(roots.to_set() =~= Set::<EntryHash>::empty());
    }
}

/// What a bench answers about one world: the protection, what the world had been
/// asked before, the answers to the questions that the world is asked, and what
/// is seen of it afterwards.
pub struct Answers {
    pub protection: Protection,
    pub past: Seq<(Ask, Reply)>,
    pub script: Seq<Reply>,
    pub observed: Observation,
}

/// The trials were answered so, world by world.
pub open spec fn answered(trials: Seq<Trial>, answers: Seq<Answers>) -> bool {
    &&& trials.len() <= answers.len()
    &&& forall|i: int|
        0 <= i < trials.len() ==> {
            &&& (#[trigger] trials[i]).protection == answers[i].protection
            &&& trials[i].past == answers[i].past
            &&& follows(answers[i].script, trials[i].log)
            &&& trials[i].observed is Some ==> trials[i].observed == Some(answers[i].observed)
        }
}

/// Two worlds of the same run that answer alike are asked alike and seen alike.
proof fn lemma_same_trial(course: Course, a: Trial, b: Trial, answers: Answers)
    requires
        genuine(course, a),
        genuine(course, b),
        a.protection == answers.protection,
        b.protection == answers.protection,
        a.past == answers.past,
        b.past == answers.past,
        follows(answers.script, a.log),
        follows(answers.script, b.log),
        a.observed is Some ==> a.observed == Some(answers.observed),
        b.observed is Some ==> b.observed == Some(answers.observed),
    ensures
        a == b,
{
    assert(simulated(course, a.protection, a.past, answers.script) == (outcome(course, a), a.log));
    assert(simulated(course, b.protection, b.past, answers.script) == (outcome(course, b), b.log));
}

/// Explorations of the same programs with the same seed, whose benches answer
/// alike, run the same trials and report the same.
pub proof fn law_same_answers_same_report(
    programs: Seq<Seq<Instruction>>,
    cfg: DporConfig,
    limits: Limits,
    a: Seq<Trial>,
    report_a: Result<Exploration, RuntimeError>,
    b: Seq<Trial>,
    report_b: Result<Exploration, RuntimeError>,
    answers: Seq<Answers>,
)
    requires
        explored(programs, cfg, limits, a, report_a),
        explored(programs, cfg, limits, b, report_b),
        answered(a, answers),
        answered(b, answers),
    ensures
        a == b,
        report_a == report_b,
{
    let base = base_course(programs, cfg, limits);
    assert(genuine(base, a[0]));
    assert(genuine(base, b[0]));
    lemma_same_trial(base, a[0], b[0], answers[0]);
    if let Ok(report) = outcome(base, a[0]) {
        if let Ok(flips) = planned(
            report.decisions.len(),
            a[0].observed->Some_0,
            cfg.max_runs,
        ) {
            assert forall|i: int| 0 <= i < a.len() && i < b.len() implies a[i] == b[i] by {
                let course = course_of(programs, cfg, limits, a, flips, i);
                assert(course == course_of(programs, cfg, limits, b, flips, i));
                assert(genuine(course, a[i]));
                assert(genuine(course, b[i]));
                lemma_same_trial(course, a[i], b[i], answers[i]);
            }
            if a.len() < b.len() {
                assert(a.last() == b[a.len() - 1]);
                assert(b[a.len() - 1].observed is Some);
                assert(genuine(
                    course_of(programs, cfg, limits, a, flips, a.len() - 1),
                    a[a.len() - 1],
                ));
            }
            if b.len() < a.len() {
                assert(b.last() == a[b.len() - 1]);
                assert(a[b.len() - 1].observed is Some);
                assert(genuine(
                    course_of(programs, cfg, limits, b, flips, b.len() - 1),
                    b[b.len() - 1],
                ));
            }
        }
    }
    assert(a =~= b);
}

} // verus!
