//! The log of a run as the log of another run: one without a monitor, or one whose
//! scheduler was opened otherwise.

use crate::books::sound;
use crate::host::{extends, follows, Ask, Reply};
use crate::model::World;
use vstd::prelude::*;

verus! {

/// The answer says that a monitor is attached.
pub open spec fn attaches(event: (Ask, Reply)) -> bool {
    event.0 is HasMonitor && event.1->Flag_0
}

/// The last event of the log is there for a monitor alone: a step was shown to
/// it, or the place where a step begins was looked up for it.
pub open spec fn for_monitor(log: Seq<(Ask, Reply)>) -> bool {
    log.last().0 is MonitorStep || (log.len() > 1 && attaches(log[log.len() - 2]))
}

/// An event as it is without a monitor.
pub open spec fn unattached(event: (Ask, Reply)) -> (Ask, Reply) {
    if attaches(event) {
        (Ask::HasMonitor, Reply::Flag(false))
    } else {
        event
    }
}

/// The log without the monitor: nobody is attached, and nothing is shown or
/// looked up for it.
pub open spec fn quieted(log: Seq<(Ask, Reply)>) -> Seq<(Ask, Reply)>
    decreases log.len(),
{
    if log.len() == 0 {
        Seq::empty()
    } else if for_monitor(log) {
        quieted(log.drop_last())
    } else {
        quieted(log.drop_last()).push(unattached(log.last()))
    }
}

/// Every step that was shown to the monitor went on.
pub open spec fn continuing(log: Seq<(Ask, Reply)>) -> bool {
    forall|i: int|
        0 <= i < log.len() && (#[trigger] log[i]).0 is MonitorStep ==> log[i].1->Action_0
            is Continue
}

/// The log holds no question of or to a monitor.
pub open spec fn unmonitored(log: Seq<(Ask, Reply)>) -> bool {
    forall|i: int|
        0 <= i < log.len() ==> !((#[trigger] log[i]).0 is MonitorStep) && !(log[i].0 is HasMonitor)
}

/// What sets a run apart from the one that it is compared with.
pub enum Edit {
    /// The other run has no monitor.
    Quiet,
    /// The other run asks another question at the given place of the log, and
    /// gets the same answer.
    Reopen { at: int, ask: Ask },
}

/// The answers of a run, those of the other run, and the log of the former.
pub struct Tape {
    pub edit: Edit,
    pub loud: Seq<Reply>,
    pub plain: Seq<Reply>,
    pub end: Seq<(Ask, Reply)>,
}

/// The log of the other run.
#[verifier::opaque]
pub open spec fn edited(edit: Edit, log: Seq<(Ask, Reply)>) -> Seq<(Ask, Reply)> {
    match edit {
        Edit::Quiet => quieted(log),
        Edit::Reopen { at, ask } => log.update(at, (ask, log[at].1)),
    }
}

/// The state of the other run.
pub open spec fn recast(tape: Tape, w: World) -> World {
    World { log: edited(tape.edit, w.log), ..w }
}

/// The log does not end between the attachment of a monitor and its look-up, or
/// it holds the place at which the other run asks otherwise.
#[verifier::opaque]
pub open spec fn whole(tape: Tape, log: Seq<(Ask, Reply)>) -> bool {
    match tape.edit {
        Edit::Quiet => log.len() > 0 ==> !attaches(log.last()),
        Edit::Reopen { at, .. } => 0 <= at < log.len(),
    }
}

/// The answers belong to the logs, and a monitor that the other run lacks let
/// every step go on.
pub open spec fn recorded(tape: Tape) -> bool {
    &&& follows(tape.loud, tape.end)
    &&& follows(tape.plain, edited(tape.edit, tape.end))
    &&& tape.edit is Quiet ==> continuing(tape.end)
}

/// Where a step of the other run begins for its monitor.
pub open spec fn shown(tape: Tape, start: Option<usize>) -> Option<usize> {
    if tape.edit is Quiet {
        None
    } else {
        start
    }
}

/// The state is one on the way to the end of the log.
pub open spec fn within(tape: Tape, w: World) -> bool {
    extends(tape.end, w.log)
}

/// States before one on the way are on the way.
pub broadcast proof fn lemma_within(tape: Tape, a: World, b: World)
    requires
        #[trigger] sound(a, b),
        #[trigger] within(tape, b),
    ensures
        within(tape, a),
{
    reveal(sound);
    crate::host::lemma_extends(tape.end, b.log, a.log);
}

/// The logs without the monitor extend each other as the logs do.
pub proof fn lemma_quieted_prefix(end: Seq<(Ask, Reply)>, log: Seq<(Ask, Reply)>)
    requires
        extends(end, log),
    ensures
        extends(quieted(end), quieted(log)),
    decreases end.len(),
{
    if end.len() == log.len() {
        assert(end =~= log);
    } else {
        let front = end.drop_last();
        assert forall|i: int| 0 <= i < log.len() implies #[trigger] front[i] == log[i] by {
            assert(end[i] == log[i]);
        }
        lemma_quieted_prefix(front, log);
        assert forall|i: int| 0 <= i < quieted(log).len() implies #[trigger] quieted(end)[i]
            == quieted(log)[i] by {
            assert(quieted(front)[i] == quieted(log)[i]);
        }
    }
}

} // verus!
