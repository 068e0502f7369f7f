//! The migration exchange: individuals in transit between cells.
//!
//! During the sweep over the grid every individual that leaves its deme is
//! posted to the batch of its destination. The batches are handed out only
//! after the sweep, so nobody who arrives can be picked to move again.

use vstd::prelude::*;
use vstd::multiset::Multiset;
use crate::entry::DemeEntry;
use crate::order::all_in_bounds;

verus! {

/// The number of individuals in all the sequences of `grid`.
pub open spec fn census(grid: Seq<Seq<DemeEntry>>) -> nat
    decreases grid.len(),
{
    if grid.len() == 0 {
        0
    } else {
        census(grid.drop_last()) + grid.last().len()
    }
}

/// Whether every trait value in every sequence of `grid` is in bounds.
pub open spec fn grid_in_bounds(grid: Seq<Seq<DemeEntry>>) -> bool {
    forall|i: int| 0 <= i < grid.len() ==> all_in_bounds(#[trigger] grid[i])
}

/// The individuals in all the sequences of `grid`, each as often as it
/// occurs.
pub open spec fn crowd(grid: Seq<Seq<DemeEntry>>) -> Multiset<DemeEntry>
    decreases grid.len(),
{
    if grid.len() == 0 {
        Multiset::empty()
    } else {
        crowd(grid.drop_last()).add(grid.last().to_multiset())
    }
}

/// The census counts the crowd.
pub proof fn lemma_crowd_len(grid: Seq<Seq<DemeEntry>>)
    ensures
        crowd(grid).len() == census(grid),
    decreases grid.len(),
{
    broadcast use vstd::seq_lib::group_to_multiset_ensures;

    if grid.len() > 0 {
        lemma_crowd_len(grid.drop_last());
    }
}

/// Replacing one sequence takes its individuals out of the crowd and puts
/// those of the new sequence in.
pub proof fn lemma_crowd_update(grid: Seq<Seq<DemeEntry>>, i: int, s: Seq<DemeEntry>)
    requires
        0 <= i < grid.len(),
    ensures
        crowd(grid.update(i, s)).add(grid[i].to_multiset()) == crowd(grid).add(s.to_multiset()),
    decreases grid.len(),
{
    let after = grid.update(i, s);
    let front = grid.drop_last();
    if i == grid.len() - 1 {
        assert(after.drop_last() == front);
    } else {
        lemma_crowd_update(front, i, s);
        assert(after.drop_last() == front.update(i, s));
        assert forall|v: DemeEntry|
            crowd(after).add(grid[i].to_multiset()).count(v) == crowd(grid).add(
                s.to_multiset(),
            ).count(v) by {
            assert(crowd(front.update(i, s)).add(front[i].to_multiset()).count(v) == crowd(
                front,
            ).add(s.to_multiset()).count(v));
        }
    }
    assert(crowd(after).add(grid[i].to_multiset()) =~= crowd(grid).add(s.to_multiset()));
}

/// A grid of empty sequences holds nobody.
pub proof fn lemma_crowd_empty(grid: Seq<Seq<DemeEntry>>)
    requires
        forall|i: int| 0 <= i < grid.len() ==> (#[trigger] grid[i]).len() == 0,
    ensures
        crowd(grid) == Multiset::<DemeEntry>::empty(),
    decreases grid.len(),
{
    broadcast use vstd::seq_lib::group_to_multiset_ensures;

    if grid.len() > 0 {
        lemma_crowd_empty(grid.drop_last());
        assert(grid.last().len() == 0);
        assert(crowd(grid) =~= Multiset::<DemeEntry>::empty());
    }
}

/// The crowd of the first `k + 1` sequences is that of the first `k` with
/// the individuals of the next.
pub proof fn lemma_crowd_take(grid: Seq<Seq<DemeEntry>>, k: int)
    requires
        0 <= k < grid.len(),
    ensures
        crowd(grid.take(k + 1)) == crowd(grid.take(k)).add(grid[k].to_multiset()),
{
    assert(grid.take(k + 1).drop_last() == grid.take(k));
}

/// One pending batch per cell of the grid.
pub struct Exchange {
    pending: Vec<Vec<DemeEntry>>,
}

impl View for Exchange {
    type V = Seq<Seq<DemeEntry>>;

    closed spec fn view(&self) -> Seq<Seq<DemeEntry>> {
        Seq::new(self.pending.len() as nat, |i: int| self.pending[i]@)
    }
}

impl Exchange {
    /// An exchange for a grid of `cells` cells, with nobody in transit.
    pub fn new(cells: usize) -> (exchange: Exchange)
        ensures
            exchange@.len() == cells,
            forall|i: int| 0 <= i < cells ==> (#[trigger] exchange@[i]).len() == 0,
            crowd(exchange@) == Multiset::<DemeEntry>::empty(),
            grid_in_bounds(exchange@),
    {
        let mut pending: Vec<Vec<DemeEntry>> = Vec::new();
        while pending.len() < cells
            invariant
                pending.len() <= cells,
                forall|i: int| 0 <= i < pending.len() ==> (#[trigger] pending[i])@.len() == 0,
            decreases cells - pending.len(),
        {
            pending.push(Vec::new());
        }
        let exchange = Exchange { pending };
        proof {
            lemma_crowd_empty(exchange@);
        }
        exchange
    }

    /// Puts `entry` at the end of the batch for the cell with index `dest`.
    pub fn post(&mut self, dest: usize, entry: DemeEntry)
        requires
            dest < old(self)@.len(),
        ensures
            final(self)@ == old(self)@.update(dest as int, old(self)@[dest as int].push(entry)),
            crowd(final(self)@) == crowd(old(self)@).insert(entry),
    {
        self.pending[dest].push(entry);
        proof {
            assert(self@ =~= old(self)@.update(dest as int, old(self)@[dest as int].push(entry)));
            broadcast use vstd::seq_lib::group_to_multiset_ensures;

            let was = old(self)@[dest as int];
            lemma_crowd_update(old(self)@, dest as int, was.push(entry));
            assert forall|v: DemeEntry|
                crowd(self@).count(v) == crowd(old(self)@).insert(entry).count(v) by {
                assert(crowd(self@).add(was.to_multiset()).count(v) == crowd(old(self)@).add(
                    was.push(entry).to_multiset(),
                ).count(v));
            }
            assert(crowd(self@) =~= crowd(old(self)@).insert(entry));
        }
    }

    /// The batch for the cell with index `dest`.
    pub fn batch(&self, dest: usize) -> (batch: &Vec<DemeEntry>)
        requires
            dest < self@.len(),
        ensures
            batch@ == self@[dest as int],
    {
        &self.pending[dest]
    }
}

} // verus!
