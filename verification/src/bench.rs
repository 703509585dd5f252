//! Where the runs of an exploration find their worlds.

use crate::dpor::{Observation, Observed};
use crate::host::{Ask, Host, Reply};
use crate::model::World;
use crate::sentinel::Protection;
use vstd::prelude::*;

verus! {

/// What happened at a bench, in order.
pub type Visits = Seq<Visit>;

/// Where runs find their worlds.
///
/// Trusted: whatever stands behind the trait keeps no account, so that the
/// visits grow as stated is believed of it: a call records that the world was
/// handed out with what it had been asked so far, or that it came back with what
/// it has been asked since. Nothing is claimed of the worlds or of what is seen
/// of them.
pub trait Bench {
    /// A world.
    type World: Host;

    /// What has happened so far. Only contracts speak of it; it is never called.
    spec fn visits(&self) -> Visits;

    /// A world and the protection in force.
    fn open(&mut self) -> (out: (Self::World, Protection))
        ensures
            final(self).visits() == old(self).visits().push(
                Visit::Opened { protection: out.1, past: out.0.asked() },
            ),
    ;

    /// Take a world back without looking at it.
    fn leave(&mut self, world: Self::World)
        ensures
            final(self).visits() == old(self).visits().push(Visit::Left { log: world.asked() }),
    ;

    /// Take a world back and tell what is left to see of it after its run.
    fn inspect(&mut self, world: Self::World) -> (observed: Observed)
        ensures
            final(self).visits() == old(self).visits().push(
                Visit::Inspected { log: world.asked(), observed: observed@ },
            ),
    ;
}

/// What happened at a bench.
pub enum Visit {
    /// A world was handed out under the given protection, with what it had been
    /// asked before.
    Opened { protection: Protection, past: Seq<(Ask, Reply)> },
    /// A world came back and was not looked at.
    Left { log: Seq<(Ask, Reply)> },
    /// A world came back and was looked at.
    Inspected { log: Seq<(Ask, Reply)>, observed: Observation },
}

/// A world from the time it was handed out until it came back.
#[verifier::ext_equal]
pub struct Trial {
    pub protection: Protection,
    /// What the world had been asked when it was handed out.
    pub past: Seq<(Ask, Reply)>,
    /// What the world had been asked when it came back, and the answers.
    pub log: Seq<(Ask, Reply)>,
    /// What was seen of the world afterwards, if anybody looked.
    pub observed: Option<Observation>,
}

/// A world was handed out and came back.
pub open spec fn round_trip(opened: Visit, closed: Visit) -> bool {
    opened is Opened && !(closed is Opened)
}

/// The trial of a world that was handed out and came back.
pub open spec fn trial_of(opened: Visit, closed: Visit) -> Trial {
    Trial {
        protection: opened->protection,
        past: opened->past,
        log: match closed {
            Visit::Opened { .. } => Seq::empty(),
            Visit::Left { log } => log,
            Visit::Inspected { log, .. } => log,
        },
        observed: match closed {
            Visit::Inspected { observed, .. } => Some(observed),
            _ => None,
        },
    }
}

/// The later log starts with the earlier one and goes on with worlds that were
/// handed out and came back one after the other.
pub open spec fn visited(before: Seq<Visit>, after: Seq<Visit>) -> bool {
    &&& before.len() <= after.len()
    &&& forall|i: int| 0 <= i < before.len() ==> #[trigger] after[i] == before[i]
    &&& (after.len() - before.len()) % 2 == 0
    &&& forall|i: int|
        0 <= i < (after.len() - before.len()) / 2 ==> #[trigger] round_trip_at(before, after, i)
}

/// Round trip number `i` since the earlier log.
pub open spec fn round_trip_at(before: Seq<Visit>, after: Seq<Visit>, i: int) -> bool {
    round_trip(after[before.len() + 2 * i], after[before.len() + 2 * i + 1])
}

/// The trials between two logs.
pub open spec fn trials_of(before: Seq<Visit>, after: Seq<Visit>) -> Seq<Trial> {
    Seq::new(
        ((after.len() - before.len()) / 2) as nat,
        |i: int| trial_of(after[before.len() + 2 * i], after[before.len() + 2 * i + 1]),
    )
}

/// Nothing happened yet.
pub proof fn lemma_no_visit(log: Seq<Visit>)
    ensures
        visited(log, log),
        trials_of(log, log) == Seq::<Trial>::empty(),
{
    assert(trials_of(log, log) =~= Seq::<Trial>::empty());
}

/// One more world was handed out and came back.
pub proof fn lemma_one_more_visit(
    before: Seq<Visit>,
    so_far: Seq<Visit>,
    opened: Visit,
    closed: Visit,
)
    requires
        visited(before, so_far),
        round_trip(opened, closed),
    ensures
        visited(before, so_far.push(opened).push(closed)),
        trials_of(before, so_far.push(opened).push(closed)) == trials_of(before, so_far).push(
            trial_of(opened, closed),
        ),
{
    let after = so_far.push(opened).push(closed);
    let count = (so_far.len() - before.len()) / 2;
    assert(before.len() + 2 * count == so_far.len());
    assert((after.len() - before.len()) / 2 == count + 1);
    assert forall|i: int| 0 <= i < before.len() implies #[trigger] after[i] == before[i] by {
        assert(so_far[i] == before[i]);
    }
    assert forall|i: int| 0 <= i < count + 1 implies #[trigger] round_trip_at(before, after, i) by {
        if i < count {
            assert(round_trip_at(before, so_far, i));
        }
    }
    assert(trials_of(before, after) =~= trials_of(before, so_far).push(trial_of(opened, closed)));
}

} // verus!
