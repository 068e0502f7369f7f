//! The population: a grid of demes and the generation step that drives it.

use vstd::prelude::*;
use crate::deme::{bred, founded_from, lemma_bred, lemma_survivors, survivors, Deme, DemeView};
use crate::entry::DemeEntry;
use crate::exchange::{
    census, crowd, grid_in_bounds, lemma_crowd_len, lemma_crowd_take, lemma_crowd_update, Exchange,
};
use crate::grid::{cell_index, lemma_cell_index};
use crate::migration::{arrivals, lemma_settled, settled, stayers};
use crate::order::{all_in_bounds, ascending, merged};
use crate::params::{FOUNDERS, ID_LIMIT, MIGRATION_RANGE, MUTATION_RANGE};
use crate::rng::uniform_below;

verus! {

/// All demes of the simulation, one per cell of the grid.
#[derive(Debug)]
pub struct Population {
    cells: Vec<Deme>,
    col: u16,
    row: u16,
}

/// What a population holds: the size of the grid and its demes in index
/// order.
#[verifier::ext_equal]
pub struct PopulationView {
    pub rows: int,
    pub cols: int,
    pub demes: Seq<DemeView>,
}

impl PopulationView {
    /// The invariant of a population: one deme per cell, each holding its
    /// own invariant.
    pub open spec fn wf(self) -> bool {
        &&& self.demes.len() == self.rows * self.cols
        &&& forall|d: int| 0 <= d < self.demes.len() ==> (#[trigger] self.demes[d]).wf()
    }

    /// The parents of every deme, in index order.
    pub open spec fn parents(self) -> Seq<Seq<DemeEntry>> {
        Seq::new(self.demes.len(), |d: int| self.demes[d].parents)
    }

    /// The offspring of every deme, in index order.
    pub open spec fn offspring(self) -> Seq<Seq<DemeEntry>> {
        Seq::new(self.demes.len(), |d: int| self.demes[d].offspring)
    }
}

impl View for Population {
    type V = PopulationView;

    closed spec fn view(&self) -> PopulationView {
        PopulationView {
            rows: self.row as int,
            cols: self.col as int,
            demes: Seq::new(self.cells.len() as nat, |d: int| self.cells[d]@),
        }
    }
}

/// The draws of a whole grid, one sequence per cell.
pub open spec fn table(draws: Seq<Vec<u32>>) -> Seq<Seq<u32>> {
    Seq::new(draws.len(), |d: int| draws[d]@)
}

/// Whether `draws` holds `per` draws for every individual of `grid`.
pub open spec fn fits(draws: Seq<Seq<u32>>, grid: Seq<Seq<DemeEntry>>, per: int) -> bool {
    &&& draws.len() == grid.len()
    &&& forall|d: int| 0 <= d < grid.len() ==> (#[trigger] draws[d]).len() == per * grid[d].len()
}

/// Whether every draw is below `bound`.
pub open spec fn below(draws: Seq<Seq<u32>>, bound: u32) -> bool {
    forall|d: int, k: int| 0 <= d < draws.len() && 0 <= k < draws[d].len() ==> draws[d][k] < bound
}

/// The offspring that the parents of every deme raise.
pub open spec fn raised(
    parents: Seq<Seq<DemeEntry>>,
    pcts: Seq<Seq<u32>>,
    ids: Seq<Seq<u32>>,
) -> Seq<Seq<DemeEntry>> {
    Seq::new(parents.len(), |d: int| bred(parents[d], pcts[d], ids[d]))
}

/// The population one generation later: every deme breeds, the offspring
/// migrate, and every deme keeps its survivors as the next parents.
pub open spec fn stepped(
    pop: PopulationView,
    pcts: Seq<Seq<u32>>,
    ids: Seq<Seq<u32>>,
    moves: Seq<Seq<u32>>,
) -> PopulationView {
    let grid = settled(raised(pop.parents(), pcts, ids), moves, pop.rows, pop.cols);
    PopulationView {
        rows: pop.rows,
        cols: pop.cols,
        demes: Seq::new(
            pop.demes.len(),
            |d: int| DemeView { parents: survivors(grid[d]), offspring: Seq::empty() },
        ),
    }
}

/// A generation step keeps the invariant of the population: one deme per
/// cell, every deme in ascending order of id with at most `CARRY_SIZE`
/// parents, and every trait value in `[MIN_RU, MAX_RU]`. With it the
/// invariant holds after any number of steps.
pub proof fn lemma_stepped_wf(
    pop: PopulationView,
    pcts: Seq<Seq<u32>>,
    ids: Seq<Seq<u32>>,
    moves: Seq<Seq<u32>>,
)
    requires
        pop.demes.len() == pop.rows * pop.cols,
    ensures
        stepped(pop, pcts, ids, moves).wf(),
{
    let born = raised(pop.parents(), pcts, ids);
    let grid = settled(born, moves, pop.rows, pop.cols);
    assert forall|d: int| 0 <= d < born.len() implies ascending(#[trigger] born[d])
        && all_in_bounds(born[d]) by {
        lemma_bred(pop.parents()[d], pcts[d], ids[d]);
    }
    lemma_settled(born, moves, pop.rows, pop.cols);
    let after = stepped(pop, pcts, ids, moves);
    assert forall|d: int| 0 <= d < after.demes.len() implies (#[trigger] after.demes[d]).wf() by {
        assert(ascending(grid[d]) && all_in_bounds(grid[d]));
        lemma_survivors(grid[d]);
    }
}

/// Whether `after` is `before` one generation later, for some draw of one
/// mutation, one id and one migration per child.
pub open spec fn steps_to(before: PopulationView, after: PopulationView) -> bool {
    exists|pcts: Seq<Seq<u32>>, ids: Seq<Seq<u32>>, moves: Seq<Seq<u32>>|
        {
            &&& fits(pcts, before.parents(), 2)
            &&& fits(ids, before.parents(), 2)
            &&& fits(moves, before.parents(), 2)
            &&& below(pcts, MUTATION_RANGE)
            &&& below(ids, ID_LIMIT)
            &&& below(moves, MIGRATION_RANGE)
            &&& after == #[trigger] stepped(before, pcts, ids, moves)
        }
}

/// Whether `after` is what a migration pass makes of the offspring `before`,
/// for some draw of one migration per individual.
pub open spec fn migrates_to(
    before: Seq<Seq<DemeEntry>>,
    after: Seq<Seq<DemeEntry>>,
    rows: int,
    cols: int,
) -> bool {
    exists|moves: Seq<Seq<u32>>|
        {
            &&& fits(moves, before, 1)
            &&& below(moves, MIGRATION_RANGE)
            &&& after == #[trigger] settled(before, moves, rows, cols)
        }
}

/// For every cell `d`, `counts[d]` fresh draws below `bound`.
fn draw_table(counts: &Vec<usize>, bound: u32) -> (draws: Vec<Vec<u32>>)
    requires
        0 < bound,
    ensures
        draws.len() == counts.len(),
        forall|d: int| 0 <= d < counts.len() ==> (#[trigger] draws[d]).len() == counts[d],
        below(table(draws@), bound),
{
    let mut draws: Vec<Vec<u32>> = Vec::new();
    while draws.len() < counts.len()
        invariant
            0 < bound,
            draws.len() <= counts.len(),
            forall|d: int| 0 <= d < draws.len() ==> (#[trigger] draws[d]).len() == counts[d],
            below(table(draws@), bound),
        decreases counts.len() - draws.len(),
    {
        let wanted = counts[draws.len()];
        let mut row: Vec<u32> = Vec::new();
        while row.len() < wanted
            invariant
                0 < bound,
                row.len() <= wanted,
                forall|k: int| 0 <= k < row.len() ==> row[k] < bound,
            decreases wanted - row.len(),
        {
            row.push(uniform_below(bound));
        }
        let ghost before = draws@;
        draws.push(row);
        proof {
            assert forall|d: int, k: int|
                0 <= d < table(draws@).len() && 0 <= k < table(draws@)[d].len() implies table(
                draws@,
            )[d][k] < bound by {
                if d < before.len() {
                    assert(table(draws@)[d] == table(before)[d]);
                }
            }
        }
    }
    draws
}

impl Population {
    /// Whether the population holds its invariant.
    pub open spec fn wf(&self) -> bool {
        self@.wf()
    }

    /// A grid of `row` rows and `col` columns in which every deme has a
    /// freshly founded generation of parents and no offspring.
    ///
    /// `samples[d]` holds the trait samples for the founders of the deme with
    /// index `d`. A grid with no rows or no columns has no demes.
    pub fn new(row: u16, col: u16, samples: &Vec<Vec<i64>>) -> (pop: Population)
        requires
            samples.len() == row * col,
            forall|d: int| 0 <= d < samples.len() ==> (#[trigger] samples[d]).len() == FOUNDERS,
        ensures
            pop.wf(),
            pop@.rows == row,
            pop@.cols == col,
            forall|d: int|
                0 <= d < pop@.demes.len() ==> {
                    &&& (#[trigger] pop@.demes[d]).offspring.len() == 0
                    &&& pop@.demes[d].parents.len() == FOUNDERS
                    &&& founded_from(pop@.demes[d].parents, samples[d]@)
                },
    {
        let mut cells: Vec<Deme> = Vec::new();
        let total: usize = samples.len();
        while cells.len() < total
            invariant
                total == samples.len(),
                cells.len() <= total,
                forall|d: int| 0 <= d < samples.len() ==> (#[trigger] samples[d]).len() == FOUNDERS,
                forall|d: int|
                    0 <= d < cells.len() ==> {
                        &&& (#[trigger] cells[d]).wf()
                        &&& cells[d]@.offspring.len() == 0
                        &&& cells[d]@.parents.len() == FOUNDERS
                        &&& founded_from(cells[d]@.parents, samples[d]@)
                    },
            decreases total - cells.len(),
        {
            let deme = Deme::new(&samples[cells.len()]);
            cells.push(deme);
        }
        Population { cells, col, row }
    }

    /// The number of rows of the grid.
    pub fn rows(&self) -> (rows: u16)
        ensures
            rows == self@.rows,
    {
        self.row
    }

    /// The number of columns of the grid.
    pub fn cols(&self) -> (cols: u16)
        ensures
            cols == self@.cols,
    {
        self.col
    }

    /// The deme at `(row, col)`.
    pub fn get(&mut self, row: u16, col: u16) -> (deme: &mut Deme)
        requires
            old(self).wf(),
            row < old(self)@.rows,
            col < old(self)@.cols,
        ensures
            deme@ == old(self)@.demes[cell_index(old(self)@.rows, row as int, col as int)],
            final(self)@.rows == old(self)@.rows,
            final(self)@.cols == old(self)@.cols,
            final(self)@.demes == old(self)@.demes.update(
                cell_index(old(self)@.rows, row as int, col as int),
                final(deme)@,
            ),
    {
        proof {
            lemma_cell_index(self.row as int, self.col as int, row as int, col as int);
            assert(self.row * self.col <= 0xffff * 0xffff) by (nonlinear_arith)
                requires
                    0 <= self.row <= 0xffff,
                    0 <= self.col <= 0xffff,
            ;
            assert(0 <= col * self.row) by (nonlinear_arith)
                requires
                    0 <= col,
                    0 <= self.row,
            ;
        }
        &mut self.cells[row as usize + col as usize * self.row as usize]
    }

    /// The number of children every deme is about to have: two per parent.
    fn birth_counts(&self) -> (counts: Vec<usize>)
        requires
            self.wf(),
        ensures
            counts.len() == self@.demes.len(),
            forall|d: int|
                0 <= d < counts.len() ==> #[trigger] counts[d] == 2 * self@.demes[d].parents.len(),
    {
        let mut counts: Vec<usize> = Vec::new();
        while counts.len() < self.cells.len()
            invariant
                self.wf(),
                counts.len() <= self.cells.len(),
                forall|d: int|
                    0 <= d < counts.len() ==> #[trigger] counts[d] == 2
                        * self@.demes[d].parents.len(),
            decreases self.cells.len() - counts.len(),
        {
            let ghost d = counts.len() as int;
            assert(self@.demes[d].wf());
            counts.push(2 * self.cells[counts.len()].parents_len());
        }
        counts
    }

    /// The number of offspring of every deme.
    fn offspring_counts(&self) -> (counts: Vec<usize>)
        ensures
            counts.len() == self@.demes.len(),
            forall|d: int|
                0 <= d < counts.len() ==> #[trigger] counts[d] == self@.demes[d].offspring.len(),
    {
        let mut counts: Vec<usize> = Vec::new();
        while counts.len() < self.cells.len()
            invariant
                counts.len() <= self.cells.len(),
                forall|d: int|
                    0 <= d < counts.len() ==> #[trigger] counts[d]
                        == self@.demes[d].offspring.len(),
            decreases self.cells.len() - counts.len(),
        {
            counts.push(self.cells[counts.len()].offspring_len());
        }
        counts
    }

    /// One migration pass with freshly drawn moves: every offspring draws
    /// once, the leavers are collected from the whole grid, and only then
    /// is every batch merged into its destination.
    pub fn migrate_offspring(&mut self)
        requires
            old(self).wf(),
        ensures
            final(self).wf(),
            final(self)@.rows == old(self)@.rows,
            final(self)@.cols == old(self)@.cols,
            final(self)@.parents() == old(self)@.parents(),
            migrates_to(
                old(self)@.offspring(),
                final(self)@.offspring(),
                old(self)@.rows,
                old(self)@.cols,
            ),
            crowd(final(self)@.offspring()) == crowd(old(self)@.offspring()),
            census(final(self)@.offspring()) == census(old(self)@.offspring()),
    {
        let counts = self.offspring_counts();
        let moves = draw_table(&counts, MIGRATION_RANGE);
        self.migrate_offspring_with(&moves);
    }

    /// One migration pass in which `moves[d][k]` decides for the offspring
    /// at position `k` of the deme with index `d`.
    ///
    /// The cells are swept in index order. An offspring whose draw names a
    /// direction with a neighbor leaves its deme at once and waits in the
    /// batch of that neighbor; all others stay. After the sweep every batch
    /// is merged into the offspring of its cell, in the order of arrival.
    pub fn migrate_offspring_with(&mut self, moves: &Vec<Vec<u32>>)
        requires
            old(self).wf(),
            fits(table(moves@), old(self)@.offspring(), 1),
        ensures
            final(self).wf(),
            final(self)@.rows == old(self)@.rows,
            final(self)@.cols == old(self)@.cols,
            final(self)@.parents() == old(self)@.parents(),
            final(self)@.offspring() == settled(
                old(self)@.offspring(),
                table(moves@),
                old(self)@.rows,
                old(self)@.cols,
            ),
            crowd(final(self)@.offspring()) == crowd(old(self)@.offspring()),
            census(final(self)@.offspring()) == census(old(self)@.offspring()),
    {
        let rows = self.row;
        let cols = self.col;
        let total = self.cells.len();
        let ghost grid = self@.offspring();
        let ghost draws = table(moves@);
        let ghost (r, c) = (rows as int, cols as int);
        let mut exchange = Exchange::new(total);
        proof {
            assert(self@.parents() == old(self)@.parents());
        }
        let mut cell: usize = 0;
        while cell < total
            invariant
                cell <= total,
                total == self.cells.len(),
                total == rows * cols,
                (r, c) == (rows as int, cols as int),
                self@.rows == old(self)@.rows,
                self@.cols == old(self)@.cols,
                self@.rows == r,
                self@.cols == c,
                self.wf(),
                moves.len() == total,
                draws == table(moves@),
                grid.len() == total,
                forall|d: int| 0 <= d < total ==> (#[trigger] draws[d]).len() == grid[d].len(),
                self@.parents() == old(self)@.parents(),
                forall|d: int|
                    0 <= d < cell ==> (#[trigger] self@.demes[d]).offspring == stayers(
                        grid[d],
                        draws[d],
                        r,
                        c,
                        d,
                    ),
                forall|d: int| cell <= d < total ==> (#[trigger] self@.demes[d]).offspring == grid[d],
                exchange@.len() == total,
                forall|dest: int|
                    0 <= dest < total ==> #[trigger] exchange@[dest] == arrivals(
                        grid,
                        draws,
                        r,
                        c,
                        dest,
                        cell as int,
                    ),
                grid_in_bounds(exchange@),
                crowd(exchange@).add(crowd(self@.offspring())) == crowd(grid),
            decreases total - cell,
        {
            let ghost before = self@;
            let ghost posted = exchange@;
            proof {
                assert(before.demes[cell as int].wf());
                assert(draws[cell as int] == moves[cell as int]@);
                assert(grid[cell as int] == before.demes[cell as int].offspring);
                assert(draws[cell as int].len() == grid[cell as int].len());
            }
            self.cells[cell].emigrate(&moves[cell], rows, cols, cell, &mut exchange);
            proof {
                let now = self@.demes[cell as int];
                assert(self@.demes =~= before.demes.update(cell as int, now));
                assert(self@.offspring() =~= before.offspring().update(cell as int, now.offspring));
                assert(self@.parents() =~= before.parents());
                let was = before.offspring()[cell as int];
                lemma_crowd_update(before.offspring(), cell as int, now.offspring);
                assert forall|v: DemeEntry|
                    crowd(exchange@).add(crowd(self@.offspring())).count(v) == crowd(posted).add(
                        crowd(before.offspring()),
                    ).count(v) by {
                    assert(crowd(exchange@).add(now.offspring.to_multiset()).count(v) == crowd(
                        posted,
                    ).add(was.to_multiset()).count(v));
                    assert(crowd(self@.offspring()).add(was.to_multiset()).count(v) == crowd(
                        before.offspring(),
                    ).add(now.offspring.to_multiset()).count(v));
                }
                assert(crowd(exchange@).add(crowd(self@.offspring())) =~= crowd(posted).add(
                    crowd(before.offspring()),
                ));
                assert forall|dest: int| 0 <= dest < total implies #[trigger] exchange@[dest]
                    == arrivals(grid, draws, r, c, dest, cell + 1) by {
                    assert(posted[dest] == arrivals(grid, draws, r, c, dest, cell as int));
                }
            }
            cell += 1;
        }
        let ghost kept = self@.offspring();
        proof {
            assert(exchange@.take(0) =~= Seq::<Seq<DemeEntry>>::empty());
        }
        let mut dest: usize = 0;
        while dest < total
            invariant
                dest <= total,
                total == self.cells.len(),
                self@.rows == old(self)@.rows,
                self@.cols == old(self)@.cols,
                self@.rows == r,
                self@.cols == c,
                total == r * c,
                self.wf(),
                self@.parents() == old(self)@.parents(),
                kept.len() == total,
                exchange@.len() == total,
                grid_in_bounds(exchange@),
                forall|d: int|
                    0 <= d < dest ==> (#[trigger] self@.demes[d]).offspring == merged(
                        kept[d],
                        exchange@[d],
                    ),
                forall|d: int| dest <= d < total ==> (#[trigger] self@.demes[d]).offspring == kept[d],
                crowd(self@.offspring()) == crowd(kept).add(crowd(exchange@.take(dest as int))),
            decreases total - dest,
        {
            let ghost before = self@;
            proof {
                assert(before.demes[dest as int].wf());
                assert(all_in_bounds(exchange@[dest as int]));
            }
            self.cells[dest].receive(exchange.batch(dest));
            proof {
                let now = self@.demes[dest as int];
                assert(self@.demes =~= before.demes.update(dest as int, now));
                assert(self@.offspring() =~= before.offspring().update(dest as int, now.offspring));
                assert(self@.parents() =~= before.parents());
                let was = before.offspring()[dest as int];
                lemma_crowd_update(before.offspring(), dest as int, now.offspring);
                lemma_crowd_take(exchange@, dest as int);
                assert forall|v: DemeEntry|
                    crowd(self@.offspring()).count(v) == crowd(kept).add(
                        crowd(exchange@.take(dest as int + 1)),
                    ).count(v) by {
                    assert(crowd(self@.offspring()).add(was.to_multiset()).count(v) == crowd(
                        before.offspring(),
                    ).add(now.offspring.to_multiset()).count(v));
                    assert(now.offspring.to_multiset().count(v) == was.to_multiset().add(
                        exchange@[dest as int].to_multiset(),
                    ).count(v));
                    assert(crowd(before.offspring()).count(v) == crowd(kept).add(
                        crowd(exchange@.take(dest as int)),
                    ).count(v));
                }
                assert(crowd(self@.offspring()) =~= crowd(kept).add(
                    crowd(exchange@.take(dest as int + 1)),
                ));
            }
            dest += 1;
        }
        proof {
            assert(exchange@.take(total as int) == exchange@);
            assert(self@.offspring() =~= settled(grid, draws, r, c));
            assert(crowd(self@.offspring()) =~= crowd(grid));
            lemma_crowd_len(self@.offspring());
            lemma_crowd_len(grid);
        }
    }

    /// One generation step with freshly drawn mutations, ids and moves.
    pub fn next_gen(&mut self)
        requires
            old(self).wf(),
        ensures
            final(self).wf(),
            steps_to(old(self)@, final(self)@),
    {
        let births = self.birth_counts();
        let pcts = draw_table(&births, MUTATION_RANGE);
        let ids = draw_table(&births, ID_LIMIT);
        let moves = draw_table(&births, MIGRATION_RANGE);
        self.next_gen_with(&pcts, &ids, &moves);
    }

    /// One generation step: every deme breeds, then one migration pass runs
    /// over the whole grid, then every deme is cut to its capacity.
    ///
    /// Child `k` of the deme with index `d` gets the mutation draw
    /// `pcts[d][k]` and the id `ids[d][k]`; `moves[d][k]` decides for the
    /// offspring at position `k` of that deme once the children are in order.
    pub fn next_gen_with(
        &mut self,
        pcts: &Vec<Vec<u32>>,
        ids: &Vec<Vec<u32>>,
        moves: &Vec<Vec<u32>>,
    )
        requires
            old(self).wf(),
            fits(table(pcts@), old(self)@.parents(), 2),
            fits(table(ids@), old(self)@.parents(), 2),
            fits(table(moves@), old(self)@.parents(), 2),
        ensures
            final(self).wf(),
            final(self)@ == stepped(old(self)@, table(pcts@), table(ids@), table(moves@)),
    {
        let total = self.cells.len();
        let ghost start = self@;
        let ghost births = raised(start.parents(), table(pcts@), table(ids@));
        let mut d: usize = 0;
        while d < total
            invariant
                d <= total,
                total == self.cells.len(),
                start == old(self)@,
                start.demes.len() == total,
                self@.rows == start.rows,
                self@.cols == start.cols,
                self.wf(),
                fits(table(pcts@), start.parents(), 2),
                fits(table(ids@), start.parents(), 2),
                births == raised(start.parents(), table(pcts@), table(ids@)),
                self@.parents() == start.parents(),
                forall|e: int| 0 <= e < d ==> (#[trigger] self@.demes[e]).offspring == births[e],
            decreases total - d,
        {
            let ghost before = self@;
            proof {
                assert(before.demes[d as int].wf());
                assert(table(pcts@)[d as int] == pcts[d as int]@);
                assert(table(ids@)[d as int] == ids[d as int]@);
                assert(start.parents()[d as int] == before.parents()[d as int]);
                assert(before.parents()[d as int] == before.demes[d as int].parents);
            }
            self.cells[d].procreate_with(&pcts[d], &ids[d]);
            proof {
                let now = self@.demes[d as int];
                assert(self@.demes =~= before.demes.update(d as int, now));
                assert(self@.parents() =~= before.parents());
            }
            d += 1;
        }
        proof {
            assert(self@.offspring() =~= births);
            assert forall|e: int| 0 <= e < total implies (#[trigger] table(moves@)[e]).len() == 1
                * self@.offspring()[e].len() by {
                lemma_bred(
                    start.parents()[e],
                    table(pcts@)[e],
                    table(ids@)[e],
                );
            }
        }
        self.migrate_offspring_with(moves);
        let ghost grid = self@.offspring();
        let mut d: usize = 0;
        while d < total
            invariant
                d <= total,
                total == self.cells.len(),
                start.demes.len() == total,
                self@.rows == start.rows,
                self@.cols == start.cols,
                self.wf(),
                grid.len() == total,
                forall|e: int|
                    0 <= e < d ==> (#[trigger] self@.demes[e]).parents == survivors(grid[e])
                        && self@.demes[e].offspring.len() == 0,
                forall|e: int| d <= e < total ==> (#[trigger] self@.demes[e]).offspring == grid[e],
            decreases total - d,
        {
            let ghost before = self@;
            proof {
                assert(before.demes[d as int].wf());
            }
            self.cells[d].cut_carry();
            proof {
                let now = self@.demes[d as int];
                assert(self@.demes =~= before.demes.update(d as int, now));
            }
            d += 1;
        }
        proof {
            let goal = stepped(start, table(pcts@), table(ids@), table(moves@));
            assert forall|e: int| 0 <= e < total implies #[trigger] self@.demes[e]
                =~= goal.demes[e] by {
                assert(self@.demes[e].offspring =~= Seq::<DemeEntry>::empty());
            }
            assert(self@.demes =~= goal.demes);
            assert(self@ =~= goal);
        }
    }
}

} // verus!
