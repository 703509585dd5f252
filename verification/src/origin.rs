//! Effect origin capture: source location per journaled effect.
//!
//! Origins stay in a per-session side channel keyed by entry hash and never
//! enter journal bytes, so capture on or off yields identical journals.

use crate::ids::EntryHash;
use vstd::prelude::*;

verus! {

/// Source location of the system-under-test call that produced an effect.
#[derive(Debug, Clone, Copy, PartialEq, Eq)]
pub struct EffectOrigin {
    /// Source file.
    pub file: &'static str,
    /// Line in it.
    pub line: u32,
    /// Column in it.
    pub column: u32,
}

/// Provenance of one journaled effect.
#[derive(Debug, PartialEq, Eq)]
pub enum OriginSource {
    /// Native caller.
    Source(EffectOrigin),
    /// Foreign-process or guest effect with span-level provenance.
    Span {
        /// Span name.
        name: String,
        /// Trace identity.
        trace_id: [u8; 16],
    },
    /// No provenance available (guests, programmatic runs).
    Unknown,
}

impl Default for OriginSource {
    fn default() -> (source: OriginSource)
        ensures
            source == OriginSource::Unknown,
    {
        OriginSource::Unknown
    }
}

impl Clone for OriginSource {
    fn clone(&self) -> (source: OriginSource)
        ensures
            source == *self,
    {
        match self {
            OriginSource::Source(origin) => OriginSource::Source(*origin),
            OriginSource::Span { name, trace_id } => OriginSource::Span {
                name: name.clone(),
                trace_id: *trace_id,
            },
            OriginSource::Unknown => OriginSource::Unknown,
        }
    }
}

/// Position of an entry in a log.
pub open spec fn origin_slot(log: Seq<(EntryHash, OriginSource)>, id: EntryHash) -> Option<int>
    decreases log.len(),
{
    if log.len() == 0 {
        None
    } else if log.last().0 == id {
        Some(log.len() - 1)
    } else {
        origin_slot(log.drop_last(), id)
    }
}

/// The recorded origin of an entry.
pub open spec fn origin_of(log: Seq<(EntryHash, OriginSource)>, id: EntryHash) -> Option<
    OriginSource,
> {
    match origin_slot(log, id) {
        Some(i) => Some(log[i].1),
        None => None,
    }
}

/// The log after an origin was recorded: an unknown origin leaves no trace, a
/// second origin of an entry replaces the first in its place.
pub open spec fn recorded(
    log: Seq<(EntryHash, OriginSource)>,
    id: EntryHash,
    source: OriginSource,
) -> Seq<(EntryHash, OriginSource)> {
    if source is Unknown {
        log
    } else {
        match origin_slot(log, id) {
            Some(i) => log.update(i, (id, source)),
            None => log.push((id, source)),
        }
    }
}

proof fn lemma_origin_slot(log: Seq<(EntryHash, OriginSource)>, id: EntryHash)
    ensures
        match origin_slot(log, id) {
            Some(i) => 0 <= i < log.len() && log[i].0 == id && forall|j: int|
                i < j < log.len() ==> (#[trigger] log[j]).0 != id,
            None => forall|j: int| 0 <= j < log.len() ==> (#[trigger] log[j]).0 != id,
        },
    decreases log.len(),
{
    if log.len() > 0 && log.last().0 != id {
        let front = log.drop_last();
        lemma_origin_slot(front, id);
        assert forall|j: int|
            0 <= j < log.len() && (origin_slot(log, id) matches Some(i) ==> i < j) implies (
        #[trigger] log[j]).0 != id by {
            if j < front.len() {
                assert(front[j] == log[j]);
            }
        }
    }
}

/// Side-channel origin log keyed by entry hash; never serialized.
#[derive(Debug)]
pub struct OriginLog {
    entries: Vec<(EntryHash, OriginSource)>,
}

impl View for OriginLog {
    type V = Seq<(EntryHash, OriginSource)>;

    closed spec fn view(&self) -> Seq<(EntryHash, OriginSource)> {
        self.entries@
    }
}

impl Default for OriginLog {
    fn default() -> (log: OriginLog)
        ensures
            log@ == Seq::<(EntryHash, OriginSource)>::empty(),
    {
        OriginLog { entries: Vec::new() }
    }
}

impl OriginLog {
    /// Position of an entry.
    fn slot(&self, id: &EntryHash) -> (at: Option<usize>)
        ensures
            match at {
                Some(i) => origin_slot(self@, *id) == Some(i as int) && i < self@.len(),
                None => origin_slot(self@, *id) is None,
            },
    {
        let mut i: usize = self.entries.len();
        assert(self@.take(i as int) =~= self@);
        while i > 0
            invariant
                i <= self@.len(),
                self@ == self.entries@,
                origin_slot(self@.take(i as int), *id) == origin_slot(self@, *id),
            decreases i,
        {
            assert(self@.take(i as int).drop_last() =~= self@.take(i - 1));
            assert(self@.take(i as int).last() == self@[i - 1]);
            if self.entries[i - 1].0 == *id {
                return Some(i - 1);
            }
            i = i - 1;
        }
        None
    }

    /// Record the origin of an entry.
    pub fn record(&mut self, id: EntryHash, source: OriginSource)
        ensures
            final(self)@ == recorded(old(self)@, id, source),
    {
        let unknown: bool = match &source {
            OriginSource::Unknown => true,
            _ => false,
        };
        if unknown {
            return;
        }
        match self.slot(&id) {
            Some(i) => {
                self.entries.set(i, (id, source));
            },
            None => {
                self.entries.push((id, source));
            },
        }
    }

    /// The recorded origin of an entry.
    pub fn get(&self, id: &EntryHash) -> (source: Option<&OriginSource>)
        ensures
            match origin_of(self@, *id) {
                Some(found) => source matches Some(s) && *s == found,
                None => source is None,
            },
    {
        match self.slot(id) {
            Some(i) => Some(&self.entries[i].1),
            None => None,
        }
    }

    /// Snapshot in append order.
    pub fn snapshot(&self) -> (entries: Vec<(EntryHash, OriginSource)>)
        ensures
            entries@ == self@,
    {
        let mut entries: Vec<(EntryHash, OriginSource)> = Vec::new();
        let mut i: usize = 0;
        while i < self.entries.len()
            invariant
                i <= self.entries@.len(),
                entries@ == self.entries@.take(i as int),
            decreases self.entries@.len() - i,
        {
            let source: OriginSource = self.entries[i].1.clone();
            entries.push((self.entries[i].0, source));
            i = i + 1;
            assert(entries@ =~= self.entries@.take(i as int));
        }
        assert(self.entries@.take(i as int) =~= self.entries@);
        entries
    }
}

/// A recorded origin is found again, and the origins of other entries stay.
pub proof fn law_record_then_get(
    log: Seq<(EntryHash, OriginSource)>,
    id: EntryHash,
    source: OriginSource,
    other: EntryHash,
)
    ensures
        source !is Unknown ==> origin_of(recorded(log, id, source), id) == Some(source),
        source is Unknown ==> recorded(log, id, source) == log,
        other != id ==> origin_of(recorded(log, id, source), other) == origin_of(log, other),
{
    let after = recorded(log, id, source);
    lemma_origin_slot(log, id);
    lemma_origin_slot(log, other);
    lemma_origin_slot(after, id);
    lemma_origin_slot(after, other);
    if source !is Unknown {
        match origin_slot(log, id) {
            Some(i) => {
                assert(after[i] == (id, source));
                if other != id {
                    match origin_slot(log, other) {
                        Some(k) => {
                            assert(after[k] == log[k]);
                            match origin_slot(after, other) {
                                Some(m) => {
                                    assert(after[m] == log[m]);
                                },
                                None => {},
                            }
                        },
                        None => {
                            match origin_slot(after, other) {
                                Some(m) => {
                                    assert(after[m] == log[m]);
                                },
                                None => {},
                            }
                        },
                    }
                }
                match origin_slot(after, id) {
                    Some(m) => {
                        if m != i {
                            assert(after[m] == log[m]);
                        }
                    },
                    None => {},
                }
            },
            None => {
                assert(after[log.len() as int] == (id, source));
                assert(after.drop_last() =~= log);
            },
        }
    }
}

/// Origins stand in the order in which their entries were first recorded: a new
/// entry goes to the end, and another origin of an entry takes the place of the
/// one before it.
pub proof fn law_origins_stand_in_append_order(
    log: Seq<(EntryHash, OriginSource)>,
    id: EntryHash,
    source: OriginSource,
    i: int,
)
    requires
        source !is Unknown,
        0 <= i < log.len(),
    ensures
        ({
            let after = recorded(log, id, source);
            let known = exists|j: int| 0 <= j < log.len() && (#[trigger] log[j]).0 == id;
            &&& after[i].0 == log[i].0
            &&& log[i].0 != id ==> after[i] == log[i]
            &&& known ==> after.len() == log.len()
            &&& !known ==> after.len() == log.len() + 1 && after.last() == (id, source)
        }),
{
    lemma_origin_slot(log, id);
    if let Some(k) = origin_slot(log, id) {
        assert(log[k].0 == id);
    }
}

} // verus!
