//! Vector clocks: which journal entries can have influenced which.

use crate::ids::ActorId;
use vstd::prelude::*;

verus! {

/// Events of each actor that an entry knows of.
#[derive(Debug, Clone, PartialEq, Eq)]
pub struct VectorClock {
    /// Actors with their event counts; an actor that is missing counts zero,
    /// and the first count of an actor is the one that holds.
    pub counts: Vec<(ActorId, u64)>,
}

impl View for VectorClock {
    type V = Seq<(ActorId, u64)>;

    open spec fn view(&self) -> Seq<(ActorId, u64)> {
        self.counts@
    }
}

/// Count of an actor.
pub open spec fn count_at(counts: Seq<(ActorId, u64)>, actor: ActorId) -> u64
    decreases counts.len(),
{
    if counts.len() == 0 {
        0
    } else if counts[0].0 == actor {
        counts[0].1
    } else {
        count_at(counts.drop_first(), actor)
    }
}

/// No count of the first clock exceeds the other's.
pub open spec fn within(a: Seq<(ActorId, u64)>, b: Seq<(ActorId, u64)>) -> bool {
    forall|actor: ActorId| #[trigger] count_at(a, actor) <= count_at(b, actor)
}

/// The first clock lies strictly below the other.
pub open spec fn precedes(a: Seq<(ActorId, u64)>, b: Seq<(ActorId, u64)>) -> bool {
    within(a, b) && !within(b, a)
}

/// An actor with a count is listed.
proof fn lemma_listed(counts: Seq<(ActorId, u64)>, actor: ActorId)
    requires
        count_at(counts, actor) > 0,
    ensures
        exists|i: int| 0 <= i < counts.len() && (#[trigger] counts[i]).0 == actor,
    decreases counts.len(),
{
    if counts[0].0 != actor {
        lemma_listed(counts.drop_first(), actor);
        let i = choose|i: int|
            0 <= i < counts.drop_first().len() && (#[trigger] counts.drop_first()[i]).0 == actor;
        assert(counts[i + 1].0 == actor);
    }
}

impl VectorClock {
    /// Count of an actor.
    pub fn count(&self, actor: ActorId) -> (count: u64)
        ensures
            count == count_at(self@, actor),
    {
        let mut i: usize = 0;
        assert(self@.skip(0) =~= self@);
        while i < self.counts.len()
            invariant
                i <= self.counts@.len(),
                count_at(self@.skip(i as int), actor) == count_at(self@, actor),
            decreases self.counts@.len() - i,
        {
            assert(self@.skip(i as int)[0] == self@[i as int]);
            assert(self@.skip(i as int).drop_first() =~= self@.skip(i + 1));
            if self.counts[i].0 == actor {
                return self.counts[i].1;
            }
            i = i + 1;
        }
        0
    }

    /// Whether no count exceeds the other clock's.
    pub fn is_within(&self, other: &VectorClock) -> (yes: bool)
        ensures
            yes == within(self@, other@),
    {
        let mut i: usize = 0;
        while i < self.counts.len()
            invariant
                i <= self.counts@.len(),
                forall|k: int|
                    0 <= k < i ==> count_at(self@, (#[trigger] self.counts@[k]).0) <= count_at(
                        other@,
                        self.counts@[k].0,
                    ),
            decreases self.counts@.len() - i,
        {
            let actor: ActorId = self.counts[i].0;
            if self.count(actor) > other.count(actor) {
                return false;
            }
            i = i + 1;
        }
        proof {
            assert forall|actor: ActorId|
                #[trigger] count_at(self@, actor) <= count_at(other@, actor) by {
                if count_at(self@, actor) > 0 {
                    lemma_listed(self@, actor);
                }
            }
        }
        true
    }

    /// Whether this clock lies strictly below the other.
    pub fn happens_before(&self, other: &VectorClock) -> (yes: bool)
        ensures
            yes == precedes(self@, other@),
    {
        self.is_within(other) && !other.is_within(self)
    }
}

/// Precedence of clocks is a strict order: no clock precedes itself, no two
/// clocks precede each other, and precedence carries over.
pub proof fn law_precedence_is_a_strict_order(
    a: Seq<(ActorId, u64)>,
    b: Seq<(ActorId, u64)>,
    c: Seq<(ActorId, u64)>,
)
    ensures
        !precedes(a, a),
        !(precedes(a, b) && precedes(b, a)),
        precedes(a, b) && precedes(b, c) ==> precedes(a, c),
{
    if precedes(a, b) && precedes(b, c) {
        assert forall|actor: ActorId| #[trigger] count_at(a, actor) <= count_at(c, actor) by {
            assert(count_at(a, actor) <= count_at(b, actor));
            assert(count_at(b, actor) <= count_at(c, actor));
        }
        if within(c, a) {
            assert forall|actor: ActorId| #[trigger] count_at(c, actor) <= count_at(b, actor) by {
                assert(count_at(c, actor) <= count_at(a, actor));
                assert(count_at(a, actor) <= count_at(b, actor));
            }
        }
    }
}

} // verus!
