//! Runtime disable set: temporarily hide an upstream (namespace) or a single qualified tool
//! from the gateway's snapshot. The two axes are independent ordered sets; persisting them is
//! the caller's business (the snapshot is the persisted form).

use vstd::prelude::*;
use crate::strset::{
    ascending, elems, set_contains, set_insert, set_remove, copy_strings, ascending_set_of, lemma_ascending_canonical,
};

verus! {

/// Ordered, owned view of the disabled set: the API body and the persisted form.
#[derive(Debug, Clone, PartialEq, Eq, Default)]
pub struct DisabledSnapshot {
    pub upstreams: Vec<String>,
    pub tools: Vec<String>,
}

/// The disabled upstream names and qualified tool names.
pub struct DisableSet {
    upstreams: Vec<String>,
    tools: Vec<String>,
}

impl DisableSet {
    #[verifier::type_invariant]
    spec fn ordered(&self) -> bool {
        ascending(self.upstreams@) && ascending(self.tools@)
    }

    /// The disabled upstream names.
    pub closed spec fn upstreams(&self) -> Set<Seq<char>> {
        elems(self.upstreams@)
    }

    /// The disabled qualified tool names.
    pub closed spec fn tools(&self) -> Set<Seq<char>> {
        elems(self.tools@)
    }

    /// An empty set.
    pub fn new() -> (r: DisableSet)
        ensures
            r.upstreams() == Set::<Seq<char>>::empty(),
            r.tools() == Set::<Seq<char>>::empty(),
    {
        let r = DisableSet { upstreams: Vec::new(), tools: Vec::new() };
        proof {
            assert(elems(r.upstreams@) =~= Set::<Seq<char>>::empty());
            assert(elems(r.tools@) =~= Set::<Seq<char>>::empty());
        }
        r
    }

    /// The set a persisted snapshot describes (duplicates collapse).
    pub fn from_snapshot(snap: &DisabledSnapshot) -> (r: DisableSet)
        ensures
            r.upstreams() == elems(snap.upstreams@),
            r.tools() == elems(snap.tools@),
    {
        DisableSet {
            upstreams: ascending_set_of(&snap.upstreams),
            tools: ascending_set_of(&snap.tools),
        }
    }

    pub fn is_upstream_disabled(&self, name: &str) -> (r: bool)
        ensures
            r == self.upstreams().contains(name@),
    {
        proof {
            use_type_invariant(self);
        }
        set_contains(&self.upstreams, name)
    }

    pub fn is_tool_disabled(&self, qualified: &str) -> (r: bool)
        ensures
            r == self.tools().contains(qualified@),
    {
        proof {
            use_type_invariant(self);
        }
        set_contains(&self.tools, qualified)
    }

    /// Both axes, each in ascending order.
    pub fn snapshot(&self) -> (s: DisabledSnapshot)
        ensures
            ascending(s.upstreams@),
            ascending(s.tools@),
            elems(s.upstreams@) == self.upstreams(),
            elems(s.tools@) == self.tools(),
    {
        proof {
            use_type_invariant(self);
        }
        DisabledSnapshot { upstreams: copy_strings(&self.upstreams), tools: copy_strings(&self.tools) }
    }

    /// Disables upstream `name`; reports whether that changed anything.
    pub fn disable_upstream(&mut self, name: &str) -> (changed: bool)
        ensures
            final(self).upstreams() == old(self).upstreams().insert(name@),
            final(self).tools() == old(self).tools(),
            changed == !old(self).upstreams().contains(name@),
    {
        proof {
            use_type_invariant(&*self);
        }
        let mut v: Vec<String> = Vec::new();
        std::mem::swap(&mut v, &mut self.upstreams);
        let changed = set_insert(&mut v, name);
        std::mem::swap(&mut v, &mut self.upstreams);
        changed
    }

    /// Re-enables upstream `name`; reports whether that changed anything.
    pub fn enable_upstream(&mut self, name: &str) -> (changed: bool)
        ensures
            final(self).upstreams() == old(self).upstreams().remove(name@),
            final(self).tools() == old(self).tools(),
            changed == old(self).upstreams().contains(name@),
    {
        proof {
            use_type_invariant(&*self);
        }
        let mut v: Vec<String> = Vec::new();
        std::mem::swap(&mut v, &mut self.upstreams);
        let changed = set_remove(&mut v, name);
        std::mem::swap(&mut v, &mut self.upstreams);
        changed
    }

    /// Disables the qualified tool; reports whether that changed anything.
    pub fn disable_tool(&mut self, qualified: &str) -> (changed: bool)
        ensures
            final(self).tools() == old(self).tools().insert(qualified@),
            final(self).upstreams() == old(self).upstreams(),
            changed == !old(self).tools().contains(qualified@),
    {
        proof {
            use_type_invariant(&*self);
        }
        let mut v: Vec<String> = Vec::new();
        std::mem::swap(&mut v, &mut self.tools);
        let changed = set_insert(&mut v, qualified);
        std::mem::swap(&mut v, &mut self.tools);
        changed
    }

    /// Re-enables the qualified tool; reports whether that changed anything.
    pub fn enable_tool(&mut self, qualified: &str) -> (changed: bool)
        ensures
            final(self).tools() == old(self).tools().remove(qualified@),
            final(self).upstreams() == old(self).upstreams(),
            changed == old(self).tools().contains(qualified@),
    {
        proof {
            use_type_invariant(&*self);
        }
        let mut v: Vec<String> = Vec::new();
        std::mem::swap(&mut v, &mut self.tools);
        let changed = set_remove(&mut v, qualified);
        std::mem::swap(&mut v, &mut self.tools);
        changed
    }
}

impl Default for DisableSet {
    fn default() -> (r: DisableSet)
        ensures
            r.upstreams() == Set::<Seq<char>>::empty(),
            r.tools() == Set::<Seq<char>>::empty(),
    {
        DisableSet::new()
    }
}

/// Disabling is idempotent: after a disable the name is disabled, and disabling it again
/// changes nothing and reports no change.
pub proof fn lemma_disable_idempotent(s: Set<Seq<char>>, x: Seq<char>)
    ensures
        s.insert(x).contains(x),
        s.insert(x).insert(x) == s.insert(x),
{
    assert(s.insert(x).insert(x) =~= s.insert(x));
}

/// Enabling undoes disabling: after disabling then enabling a name it is no longer disabled,
/// and the other names are as they were.
pub proof fn lemma_enable_undoes_disable(s: Set<Seq<char>>, x: Seq<char>)
    ensures
        !s.insert(x).remove(x).contains(x),
        s.insert(x).remove(x) == s.remove(x),
        !s.contains(x) ==> s.insert(x).remove(x) == s,
{
    assert(s.insert(x).remove(x) =~= s.remove(x));
    if !s.contains(x) {
        assert(s.remove(x) =~= s);
    }
}

/// The persisted form is canonical: two snapshots of sets holding the same names (each axis
/// ascending, as `snapshot` writes them) list the same names in the same order, whatever order
/// the names were disabled in.
pub proof fn lemma_snapshot_canonical(s1: DisabledSnapshot, s2: DisabledSnapshot)
    requires
        ascending(s1.upstreams@),
        ascending(s1.tools@),
        ascending(s2.upstreams@),
        ascending(s2.tools@),
        elems(s1.upstreams@) == elems(s2.upstreams@),
        elems(s1.tools@) == elems(s2.tools@),
    ensures
        s1.upstreams@.map_values(|s: String| s@) == s2.upstreams@.map_values(|s: String| s@),
        s1.tools@.map_values(|s: String| s@) == s2.tools@.map_values(|s: String| s@),
{
    lemma_ascending_canonical(s1.upstreams@, s2.upstreams@);
    lemma_ascending_canonical(s1.tools@, s2.tools@);
    assert(s1.upstreams@.map_values(|s: String| s@) =~= s2.upstreams@.map_values(|s: String| s@));
    assert(s1.tools@.map_values(|s: String| s@) =~= s2.tools@.map_values(|s: String| s@));
}

} // verus!
