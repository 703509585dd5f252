//! Identifiers shared by every module: journal entries, actors, messages and
//! random streams.

use vstd::prelude::*;

verus! {

/// Content hash that names one journal entry.
#[derive(Debug, Clone, Copy, PartialOrd, Ord, Hash)]
pub struct EntryHash(pub [u8; 32]);

impl PartialEq for EntryHash {
    fn eq(&self, other: &Self) -> (same: bool) {
        let mut i: usize = 0;
        while i < 32
            invariant
                i <= 32,
                forall|j: int| 0 <= j < i ==> self.0@[j] == other.0@[j],
            decreases 32 - i,
        {
            if self.0[i] != other.0[i] {
                assert(self.0@[i as int] != other.0@[i as int]);
                return false;
            }
            i = i + 1;
        }
        assert(self.0 =~= other.0);
        true
    }
}

impl vstd::std_specs::cmp::PartialEqSpecImpl for EntryHash {
    open spec fn obeys_eq_spec() -> bool {
        true
    }

    open spec fn eq_spec(&self, other: &Self) -> bool {
        *self == *other
    }
}

impl Eq for EntryHash {

}

impl View for EntryHash {
    type V = Seq<u8>;

    open spec fn view(&self) -> Seq<u8> {
        self.0@
    }
}

/// Two hashes with the same bytes are the same hash.
pub proof fn lemma_hash_determined_by_bytes(a: EntryHash, b: EntryHash)
    ensures
        a@ == b@ ==> a == b,
{
    if a@ == b@ {
        assert(a.0 =~= b.0);
    }
}

/// Identity of one simulated actor.
#[derive(Debug, Clone, Copy, PartialEq, Eq, PartialOrd, Ord, Hash, Structural)]
pub struct ActorId(pub u32);

/// Identity of one random stream.
#[derive(Debug, Clone, Copy, PartialEq, Eq, PartialOrd, Ord, Hash, Structural)]
pub struct StreamId(pub u32);

/// Identity of one message: the sender and the sender's send counter.
#[derive(Debug, Clone, Copy, PartialEq, Eq, PartialOrd, Ord, Hash, Structural)]
pub struct MessageId {
    /// Sending actor.
    pub actor: ActorId,
    /// Position of the send among the actor's sends.
    pub sequence: u64,
}

impl MessageId {
    /// Pair a sender with its send counter.
    pub fn new(actor: ActorId, sequence: u64) -> (id: Self)
        ensures
            id == (MessageId { actor, sequence }),
    {
        MessageId { actor, sequence }
    }
}

} // verus!
