use vstd::prelude::*;

use crate::text::same_text;

verus! {

/// `s` with every repeated item dropped, its first occurrence kept.
pub open spec fn first_occurrences(s: Seq<Seq<char>>) -> Seq<Seq<char>>
    decreases s.len(),
{
    if s.len() == 0 {
        Seq::empty()
    } else if first_occurrences(s.drop_last()).contains(s.last()) {
        first_occurrences(s.drop_last())
    } else {
        first_occurrences(s.drop_last()).push(s.last())
    }
}

/// The set of hosts that bypass interception and blocking. A host is
/// excluded when it equals one of the patterns exactly. Patterns are kept
/// without duplicates, in the order in which they were added.
#[derive(Debug)]
pub struct LocalExclusionStore {
    patterns: Vec<String>,
}

impl LocalExclusionStore {
    /// The patterns, in order.
    pub closed spec fn entries(&self) -> Seq<Seq<char>> {
        self.patterns@.map_values(|s: String| s@)
    }

    /// The patterns as a set.
    pub open spec fn set(&self) -> Set<Seq<char>> {
        self.entries().to_set()
    }

    pub open spec fn wf(&self) -> bool {
        self.entries().no_duplicates()
    }

    pub fn new_empty() -> (r: LocalExclusionStore)
        ensures
            r.wf(),
            r.entries() == Seq::<Seq<char>>::empty(),
    {
        LocalExclusionStore { patterns: Vec::new() }
    }

    /// A store holding `patterns`, duplicates dropped, first occurrence kept.
    pub fn new(patterns: Vec<String>) -> (r: LocalExclusionStore)
        ensures
            r.wf(),
            r.set() == patterns@.map_values(|s: String| s@).to_set(),
            r.entries() == first_occurrences(patterns@.map_values(|s: String| s@)),
    {
        let mut store = LocalExclusionStore::new_empty();
        let ghost src = patterns@.map_values(|s: String| s@);
        let mut i: usize = 0;
        while i < patterns.len()
            invariant
                i <= patterns@.len(),
                src == patterns@.map_values(|s: String| s@),
                store.wf(),
                store.set() == src.take(i as int).to_set(),
                store.entries() == first_occurrences(src.take(i as int)),
            decreases patterns@.len() - i,
        {
            let p = patterns[i].clone();
            proof {
                assert(src.take(i + 1).drop_last() =~= src.take(i as int));
                assert(src.take(i + 1).last() == p@);
            }
            store.add(p);
            proof {
                assert(src.take(i + 1) =~= src.take(i as int).push(src[i as int]));
                src.take(i as int).lemma_push_to_set_commute(src[i as int]);
            }
            i = i + 1;
        }
        assert(src.take(i as int) =~= src);
        store
    }

    /// The position of `host` among the patterns, if it is one.
    fn position(&self, host: &str) -> (r: Option<usize>)
        ensures
            match r {
                Some(i) => i < self.entries().len() && self.entries()[i as int] == host@,
                None => !self.entries().contains(host@),
            },
    {
        let mut i: usize = 0;
        while i < self.patterns.len()
            invariant
                i <= self.patterns@.len(),
                forall|j: int| 0 <= j < i ==> self.entries()[j] != host@,
            decreases self.patterns@.len() - i,
        {
            if same_text(self.patterns[i].as_str(), host) {
                return Some(i);
            }
            i = i + 1;
        }
        None
    }

    /// Whether `host` bypasses interception.
    pub fn is_excluded(&self, host: &str) -> (r: bool)
        ensures
            r == self.set().contains(host@),
    {
        self.position(host).is_some()
    }

    /// Adds `pattern`; a pattern already present is left where it is.
    pub fn add(&mut self, pattern: String)
        requires
            old(self).wf(),
        ensures
            final(self).wf(),
            final(self).set() == old(self).set().insert(pattern@),
            old(self).set().contains(pattern@) ==> final(self).entries() == old(self).entries(),
            !old(self).set().contains(pattern@) ==> final(self).entries() == old(self).entries().push(pattern@),
    {
        let ghost before = self.entries();
        if self.position(pattern.as_str()).is_none() {
            let ghost p = pattern@;
            self.patterns.push(pattern);
            proof {
                assert(self.entries() =~= before.push(p));
                before.lemma_push_to_set_commute(p);
                assert forall|a: int, b: int| 0 <= a < b < self.entries().len() implies self.entries()[a] != self.entries()[b] by {
                    if b == before.len() {
                        assert(before.contains(before[a]));
                    }
                }
            }
        } else {
            proof {
                assert(before.to_set().insert(pattern@) =~= before.to_set());
            }
        }
    }

    /// Removes `pattern`, if present; the others keep their order.
    pub fn remove(&mut self, pattern: &str)
        requires
            old(self).wf(),
        ensures
            final(self).wf(),
            final(self).set() == old(self).set().remove(pattern@),
            !old(self).entries().contains(pattern@) ==> final(self).entries() == old(self).entries(),
            old(self).entries().contains(pattern@) ==> exists|i: int| 0 <= i < old(self).entries().len()
                && old(self).entries()[i] == pattern@ && final(self).entries() == old(self).entries().remove(i),
    {
        let ghost before = self.entries();
        match self.position(pattern) {
            Some(i) => {
                self.patterns.remove(i);
                proof {
                    let after = self.entries();
                    assert(after =~= before.remove(i as int));
                    assert forall|x: Seq<char>| after.to_set().contains(x) == before.to_set().remove(pattern@).contains(x) by {
                        if after.contains(x) {
                            let k = choose|k: int| 0 <= k < after.len() && after[k] == x;
                            if k < i { assert(before[k] == x); } else { assert(before[k + 1] == x); }
                        }
                        if before.to_set().remove(pattern@).contains(x) {
                            let k = choose|k: int| 0 <= k < before.len() && before[k] == x;
                            assert(k != i);
                            if k < i { assert(after[k] == x); } else { assert(after[k - 1] == x); }
                        }
                    }
                    assert(after.to_set() =~= before.to_set().remove(pattern@));
                }
            },
            None => {
                proof {
                    assert(before.to_set().remove(pattern@) =~= before.to_set());
                }
            },
        }
    }

    /// The patterns, in the order in which they were added.
    pub fn list(&self) -> (r: Vec<String>)
        ensures
            r@.map_values(|s: String| s@) == self.entries(),
    {
        self.patterns.clone()
    }
}

/// Right after `add(p)`, `p` is excluded; right after `remove(p)`, it is not,
/// whatever the store held before.
pub proof fn lemma_add_then_remove(s: Set<Seq<char>>, p: Seq<char>)
    ensures
        s.insert(p).contains(p),
        !s.remove(p).contains(p),
        !s.insert(p).remove(p).contains(p),
{
}

} // verus!
