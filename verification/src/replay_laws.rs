//! What a replay repeats of a run.

use crate::books::sound;
use crate::config::{Policy, RunModel};
use crate::echoes::{echo_played, echo_ran};
use crate::executor::simulation::{begun, first_state, opened, played, ran, replaying, Limits};
use crate::host::{extends, follows, Ask, ReplayViolation, Reply};
use crate::model::{told, World};
use crate::run_laws::{full_run, law_run_keeps_the_books, lemma_begun, lemma_rounds_done};
use crate::runtime::{HaltReason, Instruction, RunOutcome};
use crate::schedule::{run_ended, task_chosen, RunReport, RuntimeError};
use crate::sentinel::{BeltStatus, Protection};
use crate::tape::{edited, recast, whole, within, Edit, Tape};
use vstd::prelude::*;

verus! {

/// The question that opens the scheduler of a replay.
pub open spec fn replay_opening(
    config: RunModel,
    decisions: Seq<usize>,
    fallback: Policy,
    strict: bool,
) -> Ask {
    Ask::OpenScheduler {
        seed: config.seed,
        policy: Policy::Replay,
        replay: decisions,
        fallback,
        strict,
    }
}

/// The state with another question at the given place of its log.
pub open spec fn reopened(w: World, at: int, ask: Ask) -> World {
    World { log: w.log.update(at, (ask, w.log[at].1)), ..w }
}

/// A run without recorded decisions.
pub open spec fn first_run(
    config: RunModel,
    limits: Limits,
    programs: Seq<Seq<Instruction>>,
    protection: Protection,
    past: Seq<(Ask, Reply)>,
    script: Seq<Reply>,
) -> (Result<RunReport, RuntimeError>, World) {
    full_run(
        config,
        limits,
        Seq::empty(),
        Policy::Random,
        false,
        programs,
        protection,
        past,
        script,
    )
}

/// The choices of the scheduler in a part of the log.
pub open spec fn choices(log: Seq<(Ask, Reply)>, from: int, to: int) -> Seq<usize>
    decreases to - from,
{
    if to <= from {
        Seq::empty()
    } else {
        let before = choices(log, from, to - 1);
        let (ask, reply) = log[to - 1];
        if ask is ChooseReady {
            before.push(reply->Choice_0->Ok_0)
        } else {
            before
        }
    }
}

/// Since the given place the scheduler made every choice that it was asked for,
/// and it reports the choices that it made.
pub open spec fn recording(log: Seq<(Ask, Reply)>, from: int) -> bool {
    forall|i: int|
        from <= i < log.len() ==> {
            &&& (#[trigger] log[i]).0 is ChooseReady ==> log[i].1 is Choice && log[i].1->Choice_0
                is Ok
            &&& log[i].0 is Decisions ==> log[i].1 == Reply::Positions(choices(log, from, i))
        }
}

/// The answer of a world whose scheduler chooses by the decisions, one after the
/// other, and that answers everything else as it did before.
pub open spec fn replayed(
    log: Seq<(Ask, Reply)>,
    from: int,
    decisions: Seq<usize>,
    i: int,
) -> Reply {
    if from <= i && log[i].0 is ChooseReady {
        Reply::Choice(Ok(decisions[choices(log, from, i).len() as int]))
    } else {
        log[i].1
    }
}

/// Where the log of an accepted run asks for the decisions. The check for
/// leftover decisions follows, then the audit if there is one.
pub open spec fn closing_at(log: Seq<(Ask, Reply)>, audits: bool) -> int {
    if audits {
        log.len() - 4
    } else {
        log.len() - 2
    }
}

proof fn lemma_choices_prefix(log: Seq<(Ask, Reply)>, from: int, i: int, to: int)
    requires
        from <= i <= to,
    ensures
        choices(log, from, i).len() <= choices(log, from, to).len(),
        forall|k: int|
            0 <= k < choices(log, from, i).len() ==> #[trigger] choices(log, from, to)[k]
                == choices(log, from, i)[k],
    decreases to - i,
{
    if i < to {
        lemma_choices_prefix(log, from, i, to - 1);
    }
}

/// The decisions of a run answer its questions for a choice as they were
/// answered.
proof fn lemma_replayed(
    log: Seq<(Ask, Reply)>,
    from: int,
    to: int,
    decisions: Seq<usize>,
    i: int,
)
    requires
        0 <= from,
        to <= log.len(),
        0 <= i < to,
        recording(log, from),
        choices(log, from, to).is_prefix_of(decisions),
    ensures
        replayed(log, from, decisions, i) == log[i].1,
{
    if from <= i && log[i].0 is ChooseReady {
        let k = choices(log, from, i).len() as int;
        lemma_choices_prefix(log, from, i + 1, to);
        assert(choices(log, from, i + 1) == choices(log, from, i).push(log[i].1->Choice_0->Ok_0));
        assert(choices(log, from, to)[k] == log[i].1->Choice_0->Ok_0);
        assert(choices(log, from, to) == decisions.subrange(
            0,
            choices(log, from, to).len() as int,
        ));
        assert(decisions[k] == choices(log, from, to)[k]);
    }
}

/// An accepted run closes with the question for the decisions, and asks for no
/// choice after it.
proof fn lemma_closing(
    w: World,
    programs: Seq<Seq<Instruction>>,
    budget: usize,
    audits: bool,
    protection: Protection,
    script: Seq<Reply>,
) -> (last: World)
    requires
        ran(w, programs, budget, audits, protection, script).0 is Ok,
    ensures
        last == played(w, programs, budget, script).1,
        ({
            let (result, end) = ran(w, programs, budget, audits, protection, script);
            let to = closing_at(end.log, audits);
            &&& w.log.len() <= to == last.log.len()
            &&& extends(end.log, w.log)
            &&& extends(end.log, last.log)
            &&& end.log[to].0 is Decisions
            &&& end.log[to].1->Positions_0 == result->Ok_0.decisions
            &&& forall|i: int|
                to <= i < end.log.len() ==> !((#[trigger] end.log[i]).0 is ChooseReady)
        }),
{
    broadcast use crate::books::lemma_sound_chain;

    let last = played(w, programs, budget, script).1;
    let (first, w1) = begun(w, script);
    lemma_begun(w, script);
    if first == Ok::<Option<HaltReason>, RuntimeError>(None) {
        lemma_rounds_done(first_state(w1, programs), programs, budget, u64::MAX as nat, script);
    }
    assert(sound(w, last));
    reveal(sound);
    last
}

/// The opening of a replay differs from that of the first run in one question.
proof fn lemma_opening(
    config: RunModel,
    limits: Limits,
    decisions: Seq<usize>,
    fallback: Policy,
    strict: bool,
    roots: nat,
    past: Seq<(Ask, Reply)>,
    script: Seq<Reply>,
    again: Seq<Reply>,
)
    requires
        again[past.len() as int] == script[past.len() as int],
        again[past.len() as int + 1] == script[past.len() as int + 1],
    ensures
        ({
            let random = Policy::Random;
            let a = opened(config, limits, Seq::empty(), random, false, roots, past, script);
            let b = opened(
                replaying(config),
                limits,
                decisions,
                fallback,
                strict,
                roots,
                past,
                again,
            );
            let opening = replay_opening(config, decisions, fallback, strict);
            &&& a.log.len() == past.len() + 2
            &&& a.log[past.len() as int].1 == script[past.len() as int]
            &&& b == reopened(a, past.len() as int, opening)
        }),
{
    let random = Policy::Random;
    let a = opened(config, limits, Seq::empty(), random, false, roots, past, script);
    let b = opened(replaying(config), limits, decisions, fallback, strict, roots, past, again);
    let opening = replay_opening(config, decisions, fallback, strict);
    assert(b.log =~= reopened(a, past.len() as int, opening).log);
}

/// A replay whose answers follow the log of the first run.
proof fn lemma_repeats(
    config: RunModel,
    limits: Limits,
    programs: Seq<Seq<Instruction>>,
    protection: Protection,
    decisions: Seq<usize>,
    fallback: Policy,
    strict: bool,
    past: Seq<(Ask, Reply)>,
    script: Seq<Reply>,
    again: Seq<Reply>,
)
    requires
        ({
            let end = first_run(config, limits, programs, protection, past, script).1;
            follows(script, end.log) && follows(again, end.log)
        }),
    ensures
        ({
            let (result, end) = first_run(config, limits, programs, protection, past, script);
            let opening = replay_opening(config, decisions, fallback, strict);
            &&& past.len() < end.log.len()
            &&& full_run(
                replaying(config),
                limits,
                decisions,
                fallback,
                strict,
                programs,
                protection,
                past,
                again,
            ) == (result, reopened(end, past.len() as int, opening))
        }),
{
    let a = opened(
        config,
        limits,
        Seq::empty(),
        Policy::Random,
        false,
        programs.len(),
        past,
        script,
    );
    let (budget, audits) = (config.max_steps, config.monitor);
    let end = ran(a, programs, budget, audits, protection, script).1;
    let at = past.len() as int;
    let ask = replay_opening(config, decisions, fallback, strict);
    let tape = Tape { edit: Edit::Reopen { at, ask }, loud: script, plain: again, end: end.log };
    law_run_keeps_the_books(a, programs, budget, audits, protection, script);
    assert(extends(end.log, a.log)) by {
        reveal(sound);
    }
    assert(a.log.len() == past.len() + 2);
    assert(end.log[at].1 == again[at] && end.log[at + 1].1 == again[at + 1]);
    let roots = programs.len();
    lemma_opening(config, limits, decisions, fallback, strict, roots, past, script, again);
    reveal(edited);
    reveal(whole);
    assert(within(tape, end));
    let other = edited(tape.edit, end.log);
    assert forall|i: int| 0 <= i < other.len() implies #[trigger] again[i] == other[i].1 by {
        assert(again[i] == end.log[i].1);
    }
    echo_ran(tape, a, programs, budget, audits, protection);
}

/// A replay in a world that answers as it did before repeats the run, strict or
/// not: it has the same result and ends in the same state, and it asks the same
/// questions, but for the one that opens its scheduler with the decisions.
pub proof fn law_same_answers_same_replay(
    config: RunModel,
    limits: Limits,
    programs: Seq<Seq<Instruction>>,
    protection: Protection,
    decisions: Seq<usize>,
    fallback: Policy,
    strict: bool,
    past: Seq<(Ask, Reply)>,
    script: Seq<Reply>,
)
    requires
        follows(script, first_run(config, limits, programs, protection, past, script).1.log),
    ensures
        ({
            let (result, end) = first_run(config, limits, programs, protection, past, script);
            let opening = replay_opening(config, decisions, fallback, strict);
            &&& past.len() < end.log.len()
            &&& full_run(
                replaying(config),
                limits,
                decisions,
                fallback,
                strict,
                programs,
                protection,
                past,
                script,
            ) == (result, reopened(end, past.len() as int, opening))
        }),
{
    lemma_repeats(
        config,
        limits,
        programs,
        protection,
        decisions,
        fallback,
        strict,
        past,
        script,
        script,
    );
}

/// A recorded run replays by its own decisions. The scheduler of the first run
/// makes its choices and reports them; that of the replay chooses by the report,
/// and the world answers everything else as it did before. Then the replay,
/// strict or not, has the same result, asks the same questions but for the one
/// that opens its scheduler, so journals the same, and ends in the same state.
pub proof fn law_recorded_run_replays(
    config: RunModel,
    limits: Limits,
    programs: Seq<Seq<Instruction>>,
    protection: Protection,
    fallback: Policy,
    strict: bool,
    past: Seq<(Ask, Reply)>,
    script: Seq<Reply>,
    again: Seq<Reply>,
)
    requires
        ({
            let (result, end) = first_run(config, limits, programs, protection, past, script);
            let from = past.len() as int;
            &&& result is Ok
            &&& follows(script, end.log)
            &&& recording(end.log, from)
            &&& again.len() >= end.log.len()
            &&& forall|i: int|
                0 <= i < end.log.len() ==> #[trigger] again[i] == replayed(
                    end.log,
                    from,
                    result->Ok_0.decisions,
                    i,
                )
        }),
    ensures
        ({
            let (result, end) = first_run(config, limits, programs, protection, past, script);
            let decisions = result->Ok_0.decisions;
            let opening = replay_opening(config, decisions, fallback, strict);
            full_run(
                replaying(config),
                limits,
                decisions,
                fallback,
                strict,
                programs,
                protection,
                past,
                again,
            ) == (result, reopened(end, past.len() as int, opening))
        }),
{
    let (result, end) = first_run(config, limits, programs, protection, past, script);
    let decisions = result->Ok_0.decisions;
    let from = past.len() as int;
    let a = opened(
        config,
        limits,
        Seq::empty(),
        Policy::Random,
        false,
        programs.len(),
        past,
        script,
    );
    let (budget, audits) = (config.max_steps, config.monitor);
    let to = closing_at(end.log, audits);
    lemma_closing(a, programs, budget, audits, protection, script);
    assert(choices(end.log, from, to) == decisions);
    assert forall|i: int| 0 <= i < end.log.len() implies #[trigger] again[i] == end.log[i].1 by {
        if i < to {
            lemma_replayed(end.log, from, to, decisions, i);
        }
    }
    lemma_repeats(
        config,
        limits,
        programs,
        protection,
        decisions,
        fallback,
        strict,
        past,
        script,
        again,
    );
}

/// Decisions that are left over reject the replay. The world is that of a
/// recorded run, the decisions are those of the run and more, and the scheduler
/// finds some left over at the end.
pub proof fn law_leftover_decisions_reject_the_replay(
    config: RunModel,
    limits: Limits,
    programs: Seq<Seq<Instruction>>,
    protection: Protection,
    extra: Seq<usize>,
    violation: ReplayViolation,
    fallback: Policy,
    strict: bool,
    past: Seq<(Ask, Reply)>,
    script: Seq<Reply>,
    again: Seq<Reply>,
)
    requires
        ({
            let (result, end) = first_run(config, limits, programs, protection, past, script);
            let from = past.len() as int;
            let to = closing_at(end.log, config.monitor);
            &&& result is Ok
            &&& follows(script, end.log)
            &&& recording(end.log, from)
            &&& again.len() > to + 1
            &&& forall|i: int|
                0 <= i <= to ==> #[trigger] again[i] == replayed(
                    end.log,
                    from,
                    result->Ok_0.decisions + extra,
                    i,
                )
            &&& again[to + 1] == Reply::Trailing(Some(violation))
        }),
    ensures
        ({
            let report = first_run(
                config,
                limits,
                programs,
                protection,
                past,
                script,
            ).0->Ok_0;
            let (result, end) = full_run(
                replaying(config),
                limits,
                report.decisions + extra,
                fallback,
                strict,
                programs,
                protection,
                past,
                again,
            );
            &&& result == Err::<RunReport, _>(RuntimeError::StrictReplay(violation))
            &&& end.log.last() == (
                Ask::CheckTrailing { consumed: report.decisions.len() as usize },
                Reply::Trailing(Some(violation)),
            )
        }),
{
    let (result, end) = first_run(config, limits, programs, protection, past, script);
    let own = result->Ok_0.decisions;
    let decisions = own + extra;
    let from = past.len() as int;
    let roots = programs.len();
    let a = opened(config, limits, Seq::empty(), Policy::Random, false, roots, past, script);
    let (budget, audits) = (config.max_steps, config.monitor);
    let to = closing_at(end.log, audits);
    let w = lemma_closing(a, programs, budget, audits, protection, script);
    assert(choices(end.log, from, to) == own);
    assert(own.is_prefix_of(decisions)) by {
        assert(decisions.subrange(0, own.len() as int) =~= own);
    }
    assert forall|i: int| 0 <= i <= to implies #[trigger] again[i] == end.log[i].1 by {
        if i < to {
            lemma_replayed(end.log, from, to, decisions, i);
        }
    }
    let ask = replay_opening(config, decisions, fallback, strict);
    let tape = Tape {
        edit: Edit::Reopen { at: from, ask },
        loud: script,
        plain: again,
        end: w.log,
    };
    assert(end.log[from].1 == again[from] && end.log[from + 1].1 == again[from + 1]);
    lemma_opening(config, limits, decisions, fallback, strict, roots, past, script, again);
    reveal(edited);
    reveal(whole);
    let other = edited(tape.edit, w.log);
    assert forall|i: int| 0 <= i < other.len() implies #[trigger] again[i] == other[i].1 by {
        assert(again[i] == end.log[i].1);
    }
    assert forall|i: int| 0 <= i < w.log.len() implies #[trigger] script[i] == w.log[i].1 by {
        assert(script[i] == end.log[i].1);
    }
    assert(within(tape, w));
    echo_played(tape, a, programs, budget);
    let last = recast(tape, w);
    assert(last.log.len() == to);
    assert(told(last, Ask::Decisions, again).0 == end.log[to].1);
}

/// Leftover decisions reject a run, and so does a decision that cannot be
/// followed. Nothing else is reported so.
pub proof fn law_broken_replay_rejects_the_run(
    w: World,
    outcome: RunOutcome,
    steps: usize,
    audits: bool,
    protection: BeltStatus,
    script: Seq<Reply>,
    violation: ReplayViolation,
)
    ensures
        ({
            let (taken, w1) = told(w, Ask::Decisions, script);
            let consumed = taken->Positions_0.len() as usize;
            let left = told(w1, Ask::CheckTrailing { consumed }, script).0;
            run_ended(w, outcome, steps, audits, protection, script).0 == Err::<RunReport, _>(
                RuntimeError::StrictReplay(violation),
            ) <==> left->Trailing_0 == Some(violation)
        }),
        ({
            let choice = told(w, Ask::ChooseReady { ready: w.ready, step: steps }, script).0;
            task_chosen(w, steps, script).0 == Err::<usize, _>(
                RuntimeError::StrictReplay(violation),
            ) <==> choice->Choice_0 == Err::<usize, _>(violation)
        }),
{
}

} // verus!
