//! A deme: one breeding generation and the offspring it is raising.

use vstd::prelude::*;
use linked_list::LinkedList;
use crate::entry::DemeEntry;
use crate::exchange::{crowd, grid_in_bounds, Exchange};
use crate::grid::destination;
use crate::list::{
    list_entries, list_insert, list_len, list_new, list_push_back, list_remove, list_split_at,
    list_to_vec,
};
use crate::migration::{leavers, stayers};
use crate::order::{
    all_in_bounds, ascending, find_slot, ids_of, lemma_merged, lemma_merged_ids,
    lemma_merged_push, lemma_placed_ascending, lemma_placed_in_bounds, lemma_slot_for,
    lemma_sorted, merged, sort_by_id, sorted,
};
use crate::params::{
    founded, mutate, mutated, trait_from, CARRY_SIZE, FOUNDERS, ID_LIMIT, MIN_RU, MUTATION_RANGE,
};
use crate::rng::uniform_below;

verus! {

/// The sub-population of one grid cell.
#[derive(Debug)]
pub struct Deme {
    parents: LinkedList<DemeEntry>,
    offspring: LinkedList<DemeEntry>,
}

/// What a deme holds, as two sequences.
#[verifier::ext_equal]
pub struct DemeView {
    pub parents: Seq<DemeEntry>,
    pub offspring: Seq<DemeEntry>,
}

impl DemeView {
    /// The invariant of a deme: both generations ascend by id, every trait
    /// value lies in `[MIN_RU, MAX_RU]`, and the parents fit the capacity.
    pub open spec fn wf(self) -> bool {
        &&& ascending(self.parents)
        &&& ascending(self.offspring)
        &&& all_in_bounds(self.parents)
        &&& all_in_bounds(self.offspring)
        &&& self.parents.len() <= CARRY_SIZE
    }
}

impl View for Deme {
    type V = DemeView;

    closed spec fn view(&self) -> DemeView {
        DemeView { parents: list_entries(self.parents), offspring: list_entries(self.offspring) }
    }
}

/// Founders that carry the given ids and the lowest trait value.
pub open spec fn blank(ids: Seq<u32>) -> Seq<DemeEntry> {
    Seq::new(ids.len(), |i: int| DemeEntry { id: ids[i], ru: MIN_RU })
}

/// The founding generation for the given ids and trait samples: the ids in
/// ascending order, the samples in the order given, each forced into bounds.
pub open spec fn founders(ids: Seq<u32>, samples: Seq<i64>) -> Seq<DemeEntry> {
    Seq::new(
        ids.len(),
        |i: int| DemeEntry { id: sorted(blank(ids))[i].id, ru: founded(samples[i]) },
    )
}

/// The children of `parents` in birth order: two per parent, child `k` with
/// id `ids[k]` and the trait of parent `k / 2` after mutation draw `pcts[k]`.
pub open spec fn litter(parents: Seq<DemeEntry>, pcts: Seq<u32>, ids: Seq<u32>) -> Seq<DemeEntry> {
    Seq::new(
        2 * parents.len(),
        |k: int| DemeEntry { id: ids[k], ru: mutated(parents[k / 2].ru, pcts[k]) },
    )
}

/// The offspring that `parents` raise: their litter in ascending order of id.
pub open spec fn bred(parents: Seq<DemeEntry>, pcts: Seq<u32>, ids: Seq<u32>) -> Seq<DemeEntry> {
    sorted(litter(parents, pcts, ids))
}

/// The first `CARRY_SIZE` of `offspring`, or all of them where there are fewer.
pub open spec fn survivors(offspring: Seq<DemeEntry>) -> Seq<DemeEntry> {
    if offspring.len() > CARRY_SIZE {
        offspring.take(CARRY_SIZE as int)
    } else {
        offspring
    }
}

/// Whether `gen` is a founding generation for `samples`, for some draw of
/// one id below `ID_LIMIT` per founder.
pub open spec fn founded_from(gen: Seq<DemeEntry>, samples: Seq<i64>) -> bool {
    exists|ids: Seq<u32>|
        ids.len() == FOUNDERS && (forall|i: int| 0 <= i < ids.len() ==> ids[i] < ID_LIMIT) && gen
            == #[trigger] founders(ids, samples)
}

/// Whether `offspring` is what `parents` raise, for some draw of one
/// mutation below `MUTATION_RANGE` and one id below `ID_LIMIT` per child.
pub open spec fn raised_from(offspring: Seq<DemeEntry>, parents: Seq<DemeEntry>) -> bool {
    exists|pcts: Seq<u32>, ids: Seq<u32>|
        {
            &&& pcts.len() == 2 * parents.len()
            &&& ids.len() == 2 * parents.len()
            &&& forall|k: int| 0 <= k < pcts.len() ==> pcts[k] < MUTATION_RANGE
            &&& forall|k: int| 0 <= k < ids.len() ==> ids[k] < ID_LIMIT
            &&& offspring == #[trigger] bred(parents, pcts, ids)
        }
}

/// A founding generation has one founder per id, ascends by id, carries
/// exactly the given ids, and gives founder `i` the trait of sample `i`,
/// forced into bounds.
pub proof fn lemma_founders(ids: Seq<u32>, samples: Seq<i64>)
    ensures
        founders(ids, samples).len() == ids.len(),
        ascending(founders(ids, samples)),
        all_in_bounds(founders(ids, samples)),
        ids_of(founders(ids, samples)).to_multiset() == ids.to_multiset(),
        forall|i: int|
            0 <= i < ids.len() ==> (#[trigger] founders(ids, samples)[i]).ru == founded(samples[i]),
{
    broadcast use vstd::seq_lib::group_to_multiset_ensures;

    lemma_sorted(blank(ids));
    lemma_merged_ids(Seq::empty(), blank(ids));
    assert(ids_of(founders(ids, samples)) =~= ids_of(sorted(blank(ids))));
    assert(ids_of(blank(ids)) =~= ids);
    assert(ids_of(Seq::<DemeEntry>::empty()) =~= Seq::<u32>::empty());
    assert(ids_of(founders(ids, samples)).to_multiset() =~= ids.to_multiset());
}

/// The offspring are the litter in another order: two children per parent,
/// ascending by id, all in bounds.
pub proof fn lemma_bred(parents: Seq<DemeEntry>, pcts: Seq<u32>, ids: Seq<u32>)
    ensures
        bred(parents, pcts, ids).len() == 2 * parents.len(),
        bred(parents, pcts, ids).to_multiset() == litter(parents, pcts, ids).to_multiset(),
        ascending(bred(parents, pcts, ids)),
        all_in_bounds(bred(parents, pcts, ids)),
{
    lemma_sorted(litter(parents, pcts, ids));
}

/// Survivors are at most `CARRY_SIZE`, and keep order and bounds.
pub proof fn lemma_survivors(offspring: Seq<DemeEntry>)
    ensures
        survivors(offspring).len() == if offspring.len() < CARRY_SIZE {
            offspring.len()
        } else {
            CARRY_SIZE as nat
        },
        ascending(offspring) ==> ascending(survivors(offspring)),
        all_in_bounds(offspring) ==> all_in_bounds(survivors(offspring)),
{
}

impl Deme {
    /// Whether the deme holds its invariant.
    pub open spec fn wf(&self) -> bool {
        self@.wf()
    }

    /// A deme with a freshly drawn founding generation and no offspring.
    ///
    /// `samples` holds one draw of the founding trait distribution per
    /// founder, cut to a whole number. The ids are drawn here.
    pub fn new(samples: &Vec<i64>) -> (deme: Deme)
        requires
            samples.len() == FOUNDERS,
        ensures
            deme.wf(),
            deme@.offspring.len() == 0,
            deme@.parents.len() == FOUNDERS,
            founded_from(deme@.parents, samples@),
    {
        let parents = Deme::make_gen(samples);
        let ghost ids = choose|ids: Seq<u32>|
            ids.len() == FOUNDERS && (forall|i: int| 0 <= i < ids.len() ==> ids[i] < ID_LIMIT)
                && list_entries(parents) == #[trigger] founders(ids, samples@);
        proof {
            lemma_founders(ids, samples@);
        }
        Deme { parents, offspring: list_new() }
    }

    /// A founding generation with freshly drawn ids.
    pub fn make_gen(samples: &Vec<i64>) -> (gen: LinkedList<DemeEntry>)
        requires
            samples.len() == FOUNDERS,
        ensures
            founded_from(list_entries(gen), samples@),
    {
        let mut ids: Vec<u32> = Vec::new();
        while ids.len() < FOUNDERS
            invariant
                ids.len() <= FOUNDERS,
                forall|i: int| 0 <= i < ids.len() ==> ids[i] < ID_LIMIT,
            decreases FOUNDERS - ids.len(),
        {
            ids.push(uniform_below(ID_LIMIT));
        }
        Deme::make_gen_with(&ids, samples)
    }

    /// The founding generation for the given ids and samples.
    pub fn make_gen_with(ids: &Vec<u32>, samples: &Vec<i64>) -> (gen: LinkedList<DemeEntry>)
        requires
            ids.len() == samples.len(),
        ensures
            list_entries(gen) == founders(ids@, samples@),
    {
        let mut unordered: Vec<DemeEntry> = Vec::new();
        let mut k: usize = 0;
        while k < ids.len()
            invariant
                k <= ids.len(),
                unordered@ == blank(ids@.take(k as int)),
            decreases ids.len() - k,
        {
            unordered.push(DemeEntry { id: ids[k], ru: MIN_RU });
            k += 1;
        }
        assert(ids@.take(k as int) == ids@);
        let ordered = sort_by_id(&unordered);
        let mut gen = list_new();
        let mut i: usize = 0;
        while i < ordered.len()
            invariant
                i <= ordered.len(),
                ordered.len() == samples.len(),
                ordered.len() == ids.len(),
                ordered@ == sorted(blank(ids@)),
                list_entries(gen) == founders(ids@, samples@).take(i as int),
            decreases ordered.len() - i,
        {
            list_push_back(&mut gen, DemeEntry { id: ordered[i].id, ru: trait_from(samples[i]) });
            i += 1;
        }
        assert(founders(ids@, samples@).take(i as int) == founders(ids@, samples@));
        gen
    }

    /// The breeding generation, front to back.
    pub fn parents(&self) -> (entries: Vec<DemeEntry>)
        ensures
            entries@ == self@.parents,
    {
        list_to_vec(&self.parents)
    }

    /// The offspring raised so far, front to back.
    pub fn offspring(&self) -> (entries: Vec<DemeEntry>)
        ensures
            entries@ == self@.offspring,
    {
        list_to_vec(&self.offspring)
    }

    /// Replaces the offspring by two children per parent, with freshly drawn
    /// mutations and ids, in ascending order of id.
    pub fn procreate(&mut self)
        requires
            old(self).wf(),
        ensures
            final(self).wf(),
            final(self)@.parents == old(self)@.parents,
            final(self)@.offspring.len() == 2 * old(self)@.parents.len(),
            raised_from(final(self)@.offspring, old(self)@.parents),
    {
        let births: usize = 2 * list_len(&self.parents);
        let mut pcts: Vec<u32> = Vec::new();
        let mut ids: Vec<u32> = Vec::new();
        while pcts.len() < births
            invariant
                pcts.len() == ids.len(),
                pcts.len() <= births,
                forall|k: int| 0 <= k < pcts.len() ==> pcts[k] < MUTATION_RANGE,
                forall|k: int| 0 <= k < ids.len() ==> ids[k] < ID_LIMIT,
            decreases births - pcts.len(),
        {
            pcts.push(uniform_below(MUTATION_RANGE));
            ids.push(uniform_below(ID_LIMIT));
        }
        self.procreate_with(&pcts, &ids);
    }

    /// Replaces the offspring by two children per parent: child `k` gets id
    /// `ids[k]` and the trait of parent `k / 2` after mutation draw
    /// `pcts[k]`; the children are then put in ascending order of id.
    pub fn procreate_with(&mut self, pcts: &Vec<u32>, ids: &Vec<u32>)
        requires
            old(self).wf(),
            pcts.len() == 2 * old(self)@.parents.len(),
            ids.len() == 2 * old(self)@.parents.len(),
        ensures
            final(self).wf(),
            final(self)@.parents == old(self)@.parents,
            final(self)@.offspring == bred(old(self)@.parents, pcts@, ids@),
            final(self)@.offspring.len() == 2 * old(self)@.parents.len(),
    {
        let parents = list_to_vec(&self.parents);
        let ghost born = litter(parents@, pcts@, ids@);
        let mut new_gen: Vec<DemeEntry> = Vec::new();
        let mut i: usize = 0;
        while i < parents.len()
            invariant
                i <= parents.len(),
                parents.len() <= CARRY_SIZE,
                pcts.len() == 2 * parents.len(),
                ids.len() == 2 * parents.len(),
                born == litter(parents@, pcts@, ids@),
                new_gen@ == born.take(2 * i),
            decreases parents.len() - i,
        {
            let ru = parents[i].ru;
            let first = DemeEntry { id: ids[2 * i], ru: mutate(ru, pcts[2 * i]) };
            let second = DemeEntry { id: ids[2 * i + 1], ru: mutate(ru, pcts[2 * i + 1]) };
            new_gen.push(first);
            new_gen.push(second);
            proof {
                assert((2 * i) / 2 == i && (2 * i + 1) / 2 == i);
                assert(born.take(2 * (i + 1)) == born.take(2 * i).push(first).push(second));
            }
            i += 1;
        }
        assert(born.take(2 * i) == born);
        let ordered = sort_by_id(&new_gen);
        let mut new_gen_list = list_new();
        let mut k: usize = 0;
        while k < ordered.len()
            invariant
                k <= ordered.len(),
                list_entries(new_gen_list) == ordered@.take(k as int),
            decreases ordered.len() - k,
        {
            list_push_back(&mut new_gen_list, ordered[k]);
            k += 1;
        }
        assert(ordered@.take(k as int) == ordered@);
        proof {
            lemma_bred(parents@, pcts@, ids@);
        }
        self.offspring = new_gen_list;
    }

    /// The number of parents.
    pub fn parents_len(&self) -> (n: usize)
        ensures
            n == self@.parents.len(),
    {
        list_len(&self.parents)
    }

    /// The number of offspring raised so far.
    pub fn offspring_len(&self) -> (n: usize)
        ensures
            n == self@.offspring.len(),
    {
        list_len(&self.offspring)
    }

    /// Takes out the offspring whose draw sends them to another cell and
    /// posts each to the batch of its destination; `draws[k]` decides for
    /// the offspring at position `k`. Whoever draws no direction, or one
    /// that leads off the grid, stays where it is.
    pub fn emigrate(
        &mut self,
        draws: &Vec<u32>,
        rows: u16,
        cols: u16,
        cell: usize,
        exchange: &mut Exchange,
    )
        requires
            old(self).wf(),
            draws.len() == old(self)@.offspring.len(),
            cell < rows * cols,
            old(exchange)@.len() == rows * cols,
            grid_in_bounds(old(exchange)@),
        ensures
            final(self).wf(),
            final(self)@.parents == old(self)@.parents,
            final(self)@.offspring == stayers(
                old(self)@.offspring,
                draws@,
                rows as int,
                cols as int,
                cell as int,
            ),
            final(exchange)@.len() == old(exchange)@.len(),
            forall|dest: int|
                0 <= dest < old(exchange)@.len() ==> #[trigger] final(exchange)@[dest] == old(
                    exchange,
                )@[dest] + leavers(
                    old(self)@.offspring,
                    draws@,
                    rows as int,
                    cols as int,
                    cell as int,
                    dest,
                ),
            grid_in_bounds(final(exchange)@),
            crowd(final(exchange)@).add(final(self)@.offspring.to_multiset()) == crowd(
                old(exchange)@,
            ).add(old(self)@.offspring.to_multiset()),
    {
        let ghost orig = self@.offspring;
        let ghost posted = exchange@;
        let ghost (r, c, at) = (rows as int, cols as int, cell as int);
        let mut pos: usize = 0;
        let mut k: usize = 0;
        while k < draws.len()
            invariant
                k <= draws.len(),
                draws.len() == orig.len(),
                cell < rows * cols,
                (r, c, at) == (rows as int, cols as int, cell as int),
                all_in_bounds(orig),
                self@.parents == old(self)@.parents,
                pos <= k,
                pos == stayers(orig.take(k as int), draws@, r, c, at).len(),
                self@.offspring == stayers(orig.take(k as int), draws@, r, c, at) + orig.skip(
                    k as int,
                ),
                ascending(self@.offspring),
                all_in_bounds(self@.offspring),
                exchange@.len() == posted.len(),
                posted.len() == rows * cols,
                forall|dest: int|
                    0 <= dest < posted.len() ==> #[trigger] exchange@[dest] == posted[dest]
                        + leavers(orig.take(k as int), draws@, r, c, at, dest),
                grid_in_bounds(exchange@),
                crowd(exchange@).add(self@.offspring.to_multiset()) == crowd(posted).add(
                    orig.to_multiset(),
                ),
            decreases draws.len() - k,
        {
            let ghost seen = orig.take(k as int);
            let ghost next = orig.take(k + 1);
            let ghost before = self@.offspring;
            let ghost held = exchange@;
            proof {
                assert(next.drop_last() == seen);
                assert(next.last() == orig[k as int]);
                assert(before[pos as int] == orig[k as int]);
            }
            match destination(rows, cols, cell, draws[k]) {
                Some(dest) => {
                    let taken = list_remove(&mut self.offspring, pos);
                    if let Some(entry) = taken {
                        exchange.post(dest, entry);
                    }
                    proof {
                        broadcast use vstd::seq_lib::group_to_multiset_ensures;

                        assert(before.to_multiset().count(orig[k as int]) > 0);
                        assert(crowd(exchange@).add(self@.offspring.to_multiset()) =~= crowd(
                            held,
                        ).add(before.to_multiset()));
                        assert(self@.offspring == stayers(next, draws@, r, c, at) + orig.skip(
                            k + 1,
                        ));
                        assert forall|d: int| 0 <= d < posted.len() implies #[trigger] exchange@[d]
                            == posted[d] + leavers(next, draws@, r, c, at, d) by {
                            assert(held[d] == posted[d] + leavers(seen, draws@, r, c, at, d));
                        }
                        assert forall|d: int| 0 <= d < exchange@.len() implies all_in_bounds(
                            #[trigger] exchange@[d],
                        ) by {
                            assert(all_in_bounds(held[d]));
                        }
                    }
                },
                None => {
                    proof {
                        assert(before == stayers(next, draws@, r, c, at) + orig.skip(k + 1));
                        assert forall|d: int| 0 <= d < posted.len() implies #[trigger] exchange@[d]
                            == posted[d] + leavers(next, draws@, r, c, at, d) by {
                            assert(held[d] == posted[d] + leavers(seen, draws@, r, c, at, d));
                        }
                    }
                    pos += 1;
                },
            }
            k += 1;
        }
        proof {
            assert(orig.take(k as int) == orig);
            assert(orig.skip(k as int) == Seq::<DemeEntry>::empty());
        }
    }

    /// Merges the individuals of `batch` into the offspring, front to back:
    /// each goes immediately before the first offspring with a strictly
    /// greater id.
    pub fn receive(&mut self, batch: &Vec<DemeEntry>)
        requires
            old(self).wf(),
            all_in_bounds(batch@),
        ensures
            final(self).wf(),
            final(self)@.parents == old(self)@.parents,
            final(self)@.offspring == merged(old(self)@.offspring, batch@),
            final(self)@.offspring.len() == old(self)@.offspring.len() + batch.len(),
            final(self)@.offspring.to_multiset() == old(self)@.offspring.to_multiset().add(
                batch@.to_multiset(),
            ),
    {
        let ghost orig = self@.offspring;
        let mut k: usize = 0;
        while k < batch.len()
            invariant
                k <= batch.len(),
                all_in_bounds(batch@),
                self@.parents == old(self)@.parents,
                self@.offspring == merged(orig, batch@.take(k as int)),
                ascending(self@.offspring),
                all_in_bounds(self@.offspring),
            decreases batch.len() - k,
        {
            let entry = batch[k];
            let present = list_to_vec(&self.offspring);
            let slot = find_slot(&present, entry.id);
            proof {
                lemma_slot_for(present@, entry.id);
                lemma_placed_ascending(present@, entry);
                lemma_placed_in_bounds(present@, entry);
                assert(batch@.take(k + 1) == batch@.take(k as int).push(entry));
                lemma_merged_push(orig, batch@.take(k as int), entry);
            }
            list_insert(&mut self.offspring, slot, entry);
            k += 1;
        }
        proof {
            assert(batch@.take(k as int) == batch@);
            lemma_merged(orig, batch@);
        }
    }

    /// Keeps the first `CARRY_SIZE` offspring as the next parents and leaves
    /// the deme without offspring.
    pub fn cut_carry(&mut self)
        requires
            old(self).wf(),
        ensures
            final(self).wf(),
            final(self)@.parents == survivors(old(self)@.offspring),
            final(self)@.parents.len() == if old(self)@.offspring.len() < CARRY_SIZE {
                old(self)@.offspring.len()
            } else {
                CARRY_SIZE as nat
            },
            final(self)@.offspring.len() == 0,
    {
        let _ = list_split_at(&mut self.offspring, CARRY_SIZE);
        proof {
            lemma_survivors(old(self)@.offspring);
            assert(list_entries(self.offspring) == survivors(old(self)@.offspring));
        }
        self.parents = list_split_at(&mut self.offspring, 0);
        proof {
            assert(list_entries(self.parents) == survivors(old(self)@.offspring));
        }
    }
}

} // verus!
