//! Deterministic hostname resolution.

use crate::bytes::{is_lex_less, lemma_lex_total, lemma_lex_transitive, lex_less, same_bytes};
use vstd::prelude::*;
use vstd::utf8::encode_utf8;

verus! {

/// Order of names: bytewise, as their UTF-8 forms.
pub open spec fn name_less(a: Seq<char>, b: Seq<char>) -> bool {
    lex_less(encode_utf8(a), encode_utf8(b))
}

/// Names strictly ascend, so none occurs twice.
pub open spec fn ascending(entries: Seq<(Seq<char>, usize)>) -> bool {
    forall|i: int, j: int|
        0 <= i < j < entries.len() ==> name_less((#[trigger] entries[i]).0, (
        #[trigger] entries[j]).0)
}

/// How many leading names precede `name`.
pub open spec fn name_slot(entries: Seq<(Seq<char>, usize)>, name: Seq<char>) -> nat
    decreases entries.len(),
{
    if entries.len() == 0 || !name_less(entries[0].0, name) {
        0
    } else {
        1 + name_slot(entries.drop_first(), name)
    }
}

/// The actor that the table gives for `name`.
pub open spec fn resolved(entries: Seq<(Seq<char>, usize)>, name: Seq<char>) -> Option<usize> {
    let at = name_slot(entries, name) as int;
    if at < entries.len() && entries[at].0 == name {
        Some(entries[at].1)
    } else {
        None
    }
}

/// The table with `name` mapped to `actor`.
pub open spec fn with_name(
    entries: Seq<(Seq<char>, usize)>,
    name: Seq<char>,
    actor: usize,
) -> Seq<(Seq<char>, usize)> {
    let at = name_slot(entries, name) as int;
    if resolved(entries, name) is Some {
        entries.update(at, (name, actor))
    } else {
        entries.insert(at, (name, actor))
    }
}

proof fn lemma_names_with_equal_bytes(a: Seq<char>, b: Seq<char>)
    ensures
        encode_utf8(a) == encode_utf8(b) ==> a == b,
{
    vstd::utf8::encode_utf8_decode_utf8(a);
    vstd::utf8::encode_utf8_decode_utf8(b);
}

proof fn lemma_name_order(a: Seq<char>, b: Seq<char>)
    ensures
        a == b || name_less(a, b) || name_less(b, a),
        !(name_less(a, b) && name_less(b, a)),
        !name_less(a, a),
{
    lemma_lex_total(encode_utf8(a), encode_utf8(b));
    lemma_lex_total(encode_utf8(a), encode_utf8(a));
    lemma_names_with_equal_bytes(a, b);
}

/// Everything before the slot precedes the name; in an ascending table nothing
/// from the slot on does.
pub proof fn lemma_name_slot(entries: Seq<(Seq<char>, usize)>, name: Seq<char>)
    ensures
        name_slot(entries, name) <= entries.len(),
        forall|i: int|
            0 <= i < name_slot(entries, name) ==> name_less((#[trigger] entries[i]).0, name),
        name_slot(entries, name) < entries.len() ==> !name_less(
            entries[name_slot(entries, name) as int].0,
            name,
        ),
        ascending(entries) ==> forall|i: int|
            name_slot(entries, name) <= i < entries.len() ==> !name_less(
                (#[trigger] entries[i]).0,
                name,
            ),
    decreases entries.len(),
{
    let at = name_slot(entries, name);
    if entries.len() > 0 && name_less(entries[0].0, name) {
        let rest = entries.drop_first();
        lemma_name_slot(rest, name);
        assert forall|i: int| 0 <= i < at implies name_less((#[trigger] entries[i]).0, name) by {
            if i > 0 {
                assert(entries[i] == rest[i - 1]);
            }
        }
        if at < entries.len() {
            assert(entries[at as int] == rest[at - 1]);
        }
    }
    if ascending(entries) {
        assert forall|i: int| at <= i < entries.len() implies !name_less(
            (#[trigger] entries[i]).0,
            name,
        ) by {
            if i > at && name_less(entries[i].0, name) {
                assert(name_less(entries[at as int].0, entries[i].0));
                lemma_lex_transitive(
                    encode_utf8(entries[at as int].0),
                    encode_utf8(entries[i].0),
                    encode_utf8(name),
                );
            }
        }
    }
}

/// In an ascending table a name resolves to the actor of its one entry.
pub proof fn lemma_resolved_by_membership(entries: Seq<(Seq<char>, usize)>, name: Seq<char>)
    requires
        ascending(entries),
    ensures
        forall|i: int|
            0 <= i < entries.len() && (#[trigger] entries[i]).0 == name ==> resolved(entries, name)
                == Some(entries[i].1),
        resolved(entries, name) matches Some(actor) ==> entries.contains((name, actor)),
{
    lemma_name_slot(entries, name);
    let at = name_slot(entries, name) as int;
    assert forall|i: int|
        0 <= i < entries.len() && (#[trigger] entries[i]).0 == name implies resolved(entries, name)
        == Some(entries[i].1) by {
        lemma_name_order(name, name);
        assert(i >= at);
        if i > at {
            assert(name_less(entries[at].0, entries[i].0));
        }
    }
    if resolved(entries, name) is Some {
        assert(entries[at] == (name, entries[at].1));
    }
}

/// Mapping a name keeps the table ascending.
pub proof fn lemma_with_name_ascending(
    entries: Seq<(Seq<char>, usize)>,
    name: Seq<char>,
    actor: usize,
)
    requires
        ascending(entries),
    ensures
        ascending(with_name(entries, name, actor)),
{
    lemma_name_slot(entries, name);
    let at = name_slot(entries, name) as int;
    let after = with_name(entries, name, actor);
    if resolved(entries, name) is Some {
        assert forall|i: int, j: int| 0 <= i < j < after.len() implies name_less(
            (#[trigger] after[i]).0,
            (#[trigger] after[j]).0,
        ) by {
            assert(after[i].0 == entries[i].0);
            assert(after[j].0 == entries[j].0);
        }
    } else {
        assert forall|i: int, j: int| 0 <= i < j < after.len() implies name_less(
            (#[trigger] after[i]).0,
            (#[trigger] after[j]).0,
        ) by {
            if i < at {
                assert(after[i] == entries[i]);
            }
            if i > at {
                assert(after[i] == entries[i - 1]);
            }
            if j < at {
                assert(after[j] == entries[j]);
            }
            if j > at {
                assert(after[j] == entries[j - 1]);
            }
            if i == at {
                lemma_name_order(name, entries[j - 1].0);
                lemma_resolved_by_membership(entries, name);
            }
        }
    }
}

/// A mapped name resolves to its actor, and every other name as before.
pub proof fn law_insert_then_resolve(
    entries: Seq<(Seq<char>, usize)>,
    name: Seq<char>,
    actor: usize,
    other: Seq<char>,
)
    requires
        ascending(entries),
    ensures
        resolved(with_name(entries, name, actor), name) == Some(actor),
        other != name ==> resolved(with_name(entries, name, actor), other) == resolved(
            entries,
            other,
        ),
{
    let after = with_name(entries, name, actor);
    let at = name_slot(entries, name) as int;
    lemma_name_slot(entries, name);
    lemma_with_name_ascending(entries, name, actor);
    lemma_resolved_by_membership(after, name);
    assert(after[at] == (name, actor));
    if other != name {
        lemma_resolved_by_membership(entries, other);
        lemma_resolved_by_membership(after, other);
        if let Some(a) = resolved(entries, other) {
            let i = choose|i: int| 0 <= i < entries.len() && entries[i] == (other, a);
            if resolved(entries, name) is Some {
                assert(after[i] == entries[i]);
            } else if i < at {
                assert(after[i] == entries[i]);
            } else {
                assert(after[i + 1] == entries[i]);
            }
        }
        if let Some(a) = resolved(after, other) {
            let i = choose|i: int| 0 <= i < after.len() && after[i] == (other, a);
            assert(i != at);
            if resolved(entries, name) is Some {
                assert(after[i] == entries[i]);
            } else if i < at {
                assert(after[i] == entries[i]);
            } else {
                assert(after[i] == entries[i - 1]);
            }
        }
    }
}

/// Mapping a name that follows every name of the table appends it.
pub proof fn lemma_with_name_at_end(
    entries: Seq<(Seq<char>, usize)>,
    name: Seq<char>,
    actor: usize,
)
    requires
        forall|i: int| 0 <= i < entries.len() ==> name_less((#[trigger] entries[i]).0, name),
    ensures
        name_slot(entries, name) == entries.len(),
        resolved(entries, name) is None,
        with_name(entries, name, actor) == entries.push((name, actor)),
    decreases entries.len(),
{
    lemma_name_slot(entries, name);
    if entries.len() > 0 {
        let at = name_slot(entries, name) as int;
        if at < entries.len() {
            assert(name_less(entries[at].0, name));
        }
    }
    assert(with_name(entries, name, actor) =~= entries.push((name, actor)));
}

/// Deterministic hostname-to-actor resolution table.
///
/// The table is config-driven and never touched by the ambient host: a name
/// maps to exactly one task id, so resolution is identical for every run that
/// shares the config. Names that are absent resolve to `None`.
#[derive(Debug)]
pub struct DnsTable {
    names: Vec<(String, usize)>,
}

/// Names and actors in table order.
pub open spec fn name_views(names: Seq<(String, usize)>) -> Seq<(Seq<char>, usize)> {
    names.map_values(|e: (String, usize)| (e.0@, e.1))
}

impl View for DnsTable {
    type V = Seq<(Seq<char>, usize)>;

    closed spec fn view(&self) -> Seq<(Seq<char>, usize)> {
        name_views(self.names@)
    }
}

impl DnsTable {
    /// Entries stand in name order.
    #[verifier::type_invariant]
    pub closed spec fn valid(self) -> bool {
        ascending(name_views(self.names@))
    }

    /// An empty table.
    pub fn new() -> (table: DnsTable)
        ensures
            table@ == Seq::<(Seq<char>, usize)>::empty(),
    {
        let names: Vec<(String, usize)> = Vec::new();
        assert(name_views(names@) =~= Seq::<(Seq<char>, usize)>::empty());
        DnsTable { names }
    }

    /// Position of the first name that does not precede `name`.
    fn find(&self, name: &str) -> (at: usize)
        ensures
            at == name_slot(self@, name@),
            at <= self.names@.len(),
    {
        let ghost views = self@;
        let mut at: usize = 0;
        assert(views.skip(0) =~= views);
        while at < self.names.len() && is_lex_less(
            self.names[at].0.as_str().as_bytes(),
            name.as_bytes(),
        )
            invariant
                at <= self.names@.len(),
                views == name_views(self.names@),
                name_slot(views, name@) == at + name_slot(views.skip(at as int), name@),
            decreases self.names@.len() - at,
        {
            assert(views.skip(at as int).drop_first() =~= views.skip(at + 1));
            at = at + 1;
        }
        at
    }

    /// Whether the entry at `at` is the one of `name`.
    fn matches_at(&self, at: usize, name: &str) -> (yes: bool)
        ensures
            yes == (at < self@.len() && self@[at as int].0 == name@),
    {
        if at < self.names.len() {
            proof {
                lemma_names_with_equal_bytes(self.names@[at as int].0@, name@);
            }
            same_bytes(self.names[at].0.as_str().as_bytes(), name.as_bytes())
        } else {
            false
        }
    }

    /// Map `name` to `actor`. Returns `true` when a prior mapping was replaced.
    pub fn insert(&mut self, name: &str, actor: usize) -> (replaced: bool)
        ensures
            final(self)@ == with_name(old(self)@, name@, actor),
            replaced == (resolved(old(self)@, name@) is Some),
    {
        proof {
            use_type_invariant(&*self);
            lemma_with_name_ascending(self@, name@, actor);
            lemma_name_slot(self@, name@);
        }
        let ghost before = self@;
        let at: usize = self.find(name);
        let replaced: bool = self.matches_at(at, name);
        let entry: (String, usize) = (name.to_owned(), actor);
        let mut names: Vec<(String, usize)> = Vec::new();
        core::mem::swap(&mut names, &mut self.names);
        if replaced {
            names.set(at, entry);
            assert(name_views(names@) =~= before.update(at as int, (name@, actor)));
        } else {
            names.insert(at, entry);
            assert(name_views(names@) =~= before.insert(at as int, (name@, actor)));
        }
        self.names = names;
        replaced
    }

    /// Resolve `name` to its actor task id, or `None` when the name is unknown.
    pub fn resolve(&self, name: &str) -> (actor: Option<usize>)
        ensures
            actor == resolved(self@, name@),
            match actor {
                Some(a) => self@.contains((name@, a)),
                None => forall|a: usize| !self@.contains((name@, a)),
            },
    {
        proof {
            use_type_invariant(self);
            lemma_resolved_by_membership(self@, name@);
        }
        let at: usize = self.find(name);
        if self.matches_at(at, name) {
            Some(self.names[at].1)
        } else {
            None
        }
    }

    /// Whether `name` is present in the table.
    pub fn contains(&self, name: &str) -> (present: bool)
        ensures
            present == (resolved(self@, name@) is Some),
    {
        let at: usize = self.find(name);
        self.matches_at(at, name)
    }

    /// Hostname entries in name order.
    ///
    /// The order is deterministic, so the same table always gives the same
    /// canonical bytes.
    pub fn iter(&self) -> (entries: Vec<(&str, usize)>)
        ensures
            entries@.len() == self@.len(),
            forall|i: int|
                0 <= i < self@.len() ==> (#[trigger] entries@[i]).0@ == self@[i].0 && entries@[i].1
                    == self@[i].1,
            ascending(self@),
    {
        proof {
            use_type_invariant(self);
        }
        let mut entries: Vec<(&str, usize)> = Vec::new();
        let mut i: usize = 0;
        while i < self.names.len()
            invariant
                i <= self.names@.len(),
                entries@.len() == i,
                forall|j: int|
                    0 <= j < i ==> (#[trigger] entries@[j]).0@ == self@[j].0 && entries@[j].1
                        == self@[j].1,
            decreases self.names@.len() - i,
        {
            entries.push((self.names[i].0.as_str(), self.names[i].1));
            i = i + 1;
        }
        entries
    }

    /// Number of entries in the table.
    pub fn len(&self) -> (count: usize)
        ensures
            count == self@.len(),
    {
        self.names.len()
    }

    /// Whether the table is empty.
    pub fn is_empty(&self) -> (empty: bool)
        ensures
            empty == (self@.len() == 0),
    {
        self.names.len() == 0
    }
}

impl Default for DnsTable {
    fn default() -> (table: DnsTable)
        ensures
            table@ == Seq::<(Seq<char>, usize)>::empty(),
    {
        DnsTable::new()
    }
}

impl Clone for DnsTable {
    fn clone(&self) -> (copy: DnsTable)
        ensures
            copy@ == self@,
    {
        proof {
            use_type_invariant(self);
        }
        let mut names: Vec<(String, usize)> = Vec::new();
        let mut i: usize = 0;
        while i < self.names.len()
            invariant
                i <= self.names@.len(),
                name_views(names@) == self@.take(i as int),
            decreases self.names@.len() - i,
        {
            let ghost prior = names@;
            let name: String = self.names[i].0.clone();
            names.push((name, self.names[i].1));
            assert(name_views(names@) =~= name_views(prior).push(self@[i as int]));
            i = i + 1;
            assert(self@.take(i as int) =~= self@.take(i - 1).push(self@[i - 1]));
        }
        assert(self@.take(i as int) =~= self@);
        DnsTable { names }
    }
}

} // verus!
