use vstd::prelude::*;

use crate::blocker::BlockingDecision;

verus! {

/// How many of `ds` are `Block`.
pub open spec fn count_blocked(ds: Seq<BlockingDecision>) -> nat
    decreases ds.len(),
{
    if ds.len() == 0 {
        0
    } else {
        count_blocked(ds.drop_last()) + if ds.last() == BlockingDecision::Block { 1nat } else { 0nat }
    }
}

/// How many of `ds` are `Allow`.
pub open spec fn count_allowed(ds: Seq<BlockingDecision>) -> nat
    decreases ds.len(),
{
    if ds.len() == 0 {
        0
    } else {
        count_allowed(ds.drop_last()) + if ds.last() == BlockingDecision::Allow { 1nat } else { 0nat }
    }
}

/// Request counters. Every recorded decision is either allowed or blocked,
/// so the two tallies always add up to the total.
#[derive(Debug, Clone, Copy)]
pub struct Statistics {
    total: u64,
    allowed: u64,
    blocked: u64,
}

/// A point-in-time copy of the counters.
#[derive(Debug, Clone, Copy, PartialEq, Eq, Structural)]
pub struct StatisticsSnapshot {
    pub total: u64,
    pub allowed: u64,
    pub blocked: u64,
}

impl Statistics {
    pub closed spec fn total(&self) -> nat {
        self.total as nat
    }

    pub closed spec fn allowed(&self) -> nat {
        self.allowed as nat
    }

    pub closed spec fn blocked(&self) -> nat {
        self.blocked as nat
    }

    pub open spec fn wf(&self) -> bool {
        self.allowed() + self.blocked() == self.total() && self.total() <= u64::MAX
    }

    pub fn new() -> (r: Statistics)
        ensures
            r.wf(),
            r.total() == 0,
            r.allowed() == 0,
            r.blocked() == 0,
    {
        Statistics { total: 0, allowed: 0, blocked: 0 }
    }

    /// Counts one decision.
    pub fn record(&mut self, decision: BlockingDecision)
        requires
            old(self).wf(),
            old(self).total() < u64::MAX,
        ensures
            final(self).wf(),
            final(self).total() == old(self).total() + 1,
            final(self).allowed() == old(self).allowed() + if decision == BlockingDecision::Allow { 1nat } else { 0nat },
            final(self).blocked() == old(self).blocked() + if decision == BlockingDecision::Block { 1nat } else { 0nat },
    {
        self.total = self.total + 1;
        match decision {
            BlockingDecision::Allow => self.allowed = self.allowed + 1,
            BlockingDecision::Block => self.blocked = self.blocked + 1,
        }
    }

    /// Counts every decision of `decisions`, in order.
    pub fn record_all(&mut self, decisions: &Vec<BlockingDecision>)
        requires
            old(self).wf(),
            old(self).total() + decisions@.len() <= u64::MAX,
        ensures
            final(self).wf(),
            final(self).total() == old(self).total() + decisions@.len(),
            final(self).allowed() == old(self).allowed() + count_allowed(decisions@),
            final(self).blocked() == old(self).blocked() + count_blocked(decisions@),
    {
        let ghost start = *self;
        let mut i: usize = 0;
        while i < decisions.len()
            invariant
                i <= decisions@.len(),
                self.wf(),
                start.total() + decisions@.len() <= u64::MAX,
                self.total() == start.total() + i,
                self.allowed() == start.allowed() + count_allowed(decisions@.take(i as int)),
                self.blocked() == start.blocked() + count_blocked(decisions@.take(i as int)),
            decreases decisions@.len() - i,
        {
            assert(decisions@.take(i + 1).drop_last() =~= decisions@.take(i as int));
            self.record(decisions[i]);
            i = i + 1;
        }
        assert(decisions@.take(i as int) =~= decisions@);
    }

    pub fn snapshot(&self) -> (r: StatisticsSnapshot)
        ensures
            r.total == self.total(),
            r.allowed == self.allowed(),
            r.blocked == self.blocked(),
    {
        StatisticsSnapshot { total: self.total, allowed: self.allowed, blocked: self.blocked }
    }
}

/// Every decision is counted once: the allowed and blocked tallies of a
/// sequence of decisions add up to its length.
pub proof fn lemma_tallies_cover_all(ds: Seq<BlockingDecision>)
    ensures
        count_allowed(ds) + count_blocked(ds) == ds.len(),
    decreases ds.len(),
{
    if ds.len() > 0 {
        lemma_tallies_cover_all(ds.drop_last());
    }
}

/// Counting two batches one after the other gives the tallies of the batches
/// joined: the order in which concurrent submitters are served does not
/// change the totals.
pub proof fn lemma_tallies_of_concatenation(a: Seq<BlockingDecision>, b: Seq<BlockingDecision>)
    ensures
        count_allowed(a + b) == count_allowed(a) + count_allowed(b),
        count_blocked(a + b) == count_blocked(a) + count_blocked(b),
    decreases b.len(),
{
    if b.len() > 0 {
        assert((a + b).drop_last() =~= a + b.drop_last());
        lemma_tallies_of_concatenation(a, b.drop_last());
    } else {
        assert(a + b =~= a);
    }
}

/// The tallies depend only on how many decisions of each kind there are, not
/// on their order: requests submitted concurrently from several tasks, served
/// in any interleaving, give the same counters.
pub proof fn lemma_tallies_ignore_order(a: Seq<BlockingDecision>, b: Seq<BlockingDecision>)
    requires
        a.to_multiset() == b.to_multiset(),
    ensures
        count_allowed(a) == count_allowed(b),
        count_blocked(a) == count_blocked(b),
{
    lemma_tallies_are_multiplicities(a);
    lemma_tallies_are_multiplicities(b);
}

proof fn lemma_tallies_are_multiplicities(ds: Seq<BlockingDecision>)
    ensures
        count_allowed(ds) == ds.to_multiset().count(BlockingDecision::Allow),
        count_blocked(ds) == ds.to_multiset().count(BlockingDecision::Block),
    decreases ds.len(),
{
    broadcast use vstd::multiset::group_multiset_axioms;
    if ds.len() == 0 {
        assert(ds.to_multiset() =~= vstd::multiset::Multiset::<BlockingDecision>::empty()) by {
            broadcast use vstd::seq_lib::group_to_multiset_ensures;
        }
    } else {
        lemma_tallies_are_multiplicities(ds.drop_last());
        assert(ds.drop_last().push(ds.last()) =~= ds);
        vstd::seq_lib::to_multiset_build(ds.drop_last(), ds.last());
    }
}

} // verus!
