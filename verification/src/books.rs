//! What every operation of the executor keeps.
//!
//! The coverage counts are exact, every draw takes the next offset of its
//! stream, the first journal error stays, the crash budget holds, and nothing
//! that was configured changes.

use crate::host::{extends, Ask, Reply, SeedStream};
use crate::journal::Draft;
use crate::model::{class_budget, World};
use vstd::prelude::*;

verus! {

/// Number of draws from a seed stream in a log.
pub open spec fn draws_in(log: Seq<(Ask, Reply)>, stream: SeedStream) -> nat
    decreases log.len(),
{
    if log.len() == 0 {
        0
    } else {
        draws_in(log.drop_last(), stream) + match log.last().0 {
            Ask::Draw { stream: s, .. } => if s == stream {
                1nat
            } else {
                0nat
            },
            _ => 0nat,
        }
    }
}

/// Number of an actor's entries in a batch.
pub open spec fn batch_share(batch: Seq<Draft>, actor: u32) -> nat
    decreases batch.len(),
{
    if batch.len() == 0 {
        0
    } else {
        batch_share(batch.drop_last(), actor) + if batch.last().actor.0 == actor {
            1nat
        } else {
            0nat
        }
    }
}

/// Number of an actor's entries that one answered question journaled.
pub open spec fn share(event: (Ask, Reply), actor: u32) -> nat {
    match event.0 {
        Ask::Append { record } => if record.actor.0 == actor && event.1->Appended_0 is Ok {
            1
        } else {
            0
        },
        Ask::AppendBatch { batch } => if event.1->Batch_0 is Ok {
            batch_share(batch, actor)
        } else {
            0
        },
        Ask::FsWrite { actor: a, .. } => if a.0 == actor && event.1->Appended_0 is Ok {
            1
        } else {
            0
        },
        Ask::FsFsync { actor: a } => if a.0 == actor && event.1->Appended_0 is Ok {
            1
        } else {
            0
        },
        Ask::FsRead { actor: a, .. } => if a.0 == actor && event.1->Value_0 is Ok {
            1
        } else {
            0
        },
        _ => 0,
    }
}

/// Number of an actor's entries that a log journaled.
pub open spec fn entries_in(log: Seq<(Ask, Reply)>, actor: u32) -> nat
    decreases log.len(),
{
    if log.len() == 0 {
        0
    } else {
        entries_in(log.drop_last(), actor) + share(log.last(), actor)
    }
}

/// The counts are ordered by actor.
pub open spec fn ascending_actors(counts: Seq<(u32, u64)>) -> bool {
    forall|i: int, j: int|
        0 <= i < j < counts.len() ==> (#[trigger] counts[i]).0 < (#[trigger] counts[j]).0
}

/// The count of an actor.
pub open spec fn count_of(counts: Seq<(u32, u64)>, actor: u32) -> u64
    decreases counts.len(),
{
    if counts.len() == 0 {
        0
    } else if counts.last().0 == actor {
        counts.last().1
    } else {
        count_of(counts.drop_last(), actor)
    }
}

/// A count as the machine keeps it.
pub open spec fn wrapped(n: nat) -> u64 {
    (n % 0x1_0000_0000_0000_0000) as u64
}

/// The books agree with the log: coverage counts, draw offsets, crash budget.
pub open spec fn booked(w: World) -> bool {
    &&& ascending_actors(w.coverage)
    &&& forall|actor: u32| #[trigger]
        count_of(w.coverage, actor) == wrapped(entries_in(w.log, actor))
    &&& w.net_offset == wrapped(draws_in(w.log, SeedStream::Net))
    &&& w.fs_offset == wrapped(draws_in(w.log, SeedStream::Fs))
    &&& w.fault_classes_used.no_duplicates()
    &&& w.fault_classes_used.len() <= class_budget(w.swarm)
}

/// Nothing that was configured changed.
pub open spec fn same_config(a: World, b: World) -> bool {
    &&& a.dns == b.dns
    &&& a.dropped_events == b.dropped_events
    &&& a.swarm == b.swarm
    &&& a.reorder_draw == b.reorder_draw
    &&& a.message_limit == b.message_limit
    &&& a.fault_schedule == b.fault_schedule
    &&& a.fs_journaling == b.fs_journaling
}

/// What holds between the states before and after any operation.
#[verifier::opaque]
pub open spec fn sound(a: World, b: World) -> bool {
    &&& extends(b.log, a.log)
    &&& (a.journal_error is Some ==> b.journal_error == a.journal_error)
    &&& (booked(a) ==> booked(b))
    &&& same_config(a, b)
}

/// Operations in sequence keep what each of them keeps.
pub broadcast proof fn lemma_sound_chain(a: World, b: World, c: World)
    requires
        #[trigger] sound(a, b),
        #[trigger] sound(b, c),
    ensures
        sound(a, c),
{
    reveal(sound);
    crate::host::lemma_extends(c.log, b.log, a.log);
}

/// Doing nothing keeps everything.
pub proof fn lemma_sound_refl(w: World)
    ensures
        sound(w, w),
{
    reveal(sound);
}

/// A change of parts that the books do not speak of.
pub proof fn lemma_sound_aside(a: World, b: World)
    requires
        b.log == a.log,
        b.coverage == a.coverage,
        b.net_offset == a.net_offset,
        b.fs_offset == a.fs_offset,
        b.fault_classes_used == a.fault_classes_used,
        a.journal_error is Some ==> b.journal_error == a.journal_error,
        same_config(a, b),
    ensures
        sound(a, b),
{
    reveal(sound);
}

/// A question neither draws nor journals.
pub open spec fn idle(ask: Ask) -> bool {
    match ask {
        Ask::Append { .. } => false,
        Ask::AppendBatch { .. } => false,
        Ask::FsWrite { .. } => false,
        Ask::FsFsync { .. } => false,
        Ask::FsRead { .. } => false,
        Ask::Draw { .. } => false,
        _ => true,
    }
}

} // verus!
