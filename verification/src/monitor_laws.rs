//! What a monitor that lets every step go on changes of a run: nothing but the
//! questions that are put to it.

use crate::echoes::echo_ran;
use crate::executor::simulation::ran;
use crate::host::{follows, law_every_log_has_its_script, replies, Ask, Reply};
use crate::model::World;
use crate::runtime::Instruction;
use crate::sentinel::Protection;
use crate::tape::{continuing, edited, quieted, recast, unmonitored, whole, within, Edit, Tape};
use vstd::prelude::*;

verus! {

proof fn lemma_unmonitored_is_quiet(log: Seq<(Ask, Reply)>)
    requires
        unmonitored(log),
    ensures
        quieted(log) == log,
    decreases log.len(),
{
    if log.len() > 0 {
        let front = log.drop_last();
        assert forall|i: int| 0 <= i < front.len() implies !((#[trigger] front[i]).0 is MonitorStep)
            && !(front[i].0 is HasMonitor) by {
            assert(front[i] == log[i]);
        }
        lemma_unmonitored_is_quiet(front);
        assert(log[log.len() - 1] == log.last());
        assert(front.push(log.last()) =~= log);
    }
}

/// A monitor that lets every step go on changes nothing but the questions that
/// are put to it: the run without the monitor, answered alike otherwise, has the
/// same result, asks everything else in the same order, and ends in the same
/// state.
pub proof fn law_continuing_monitor_changes_nothing(
    w: World,
    programs: Seq<Seq<Instruction>>,
    budget: usize,
    audits: bool,
    protection: Protection,
    script: Seq<Reply>,
)
    requires
        unmonitored(w.log),
        follows(script, ran(w, programs, budget, audits, protection, script).1.log),
        continuing(ran(w, programs, budget, audits, protection, script).1.log),
    ensures
        ({
            let (result, end) = ran(w, programs, budget, audits, protection, script);
            ran(w, programs, budget, audits, protection, replies(quieted(end.log))) == (
                result,
                World { log: quieted(end.log), ..end },
            )
        }),
{
    let (result, end) = ran(w, programs, budget, audits, protection, script);
    let plain = replies(quieted(end.log));
    law_every_log_has_its_script(quieted(end.log));
    let tape = Tape { edit: Edit::Quiet, loud: script, plain, end: end.log };
    lemma_unmonitored_is_quiet(w.log);
    reveal(edited);
    reveal(whole);
    assert(recast(tape, w) == w);
    assert(within(tape, end));
    echo_ran(tape, w, programs, budget, audits, protection);
}

} // verus!
