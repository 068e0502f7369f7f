//! What one migration pass does to the offspring of a whole grid.
//!
//! The offspring of the grid are a sequence of sequences, one per cell in
//! index order; `draws` holds one migration draw per individual, laid out the
//! same way. The pass first takes the leavers out of every cell and then
//! merges every cell's arrivals into those who stayed.

use vstd::prelude::*;
use crate::entry::DemeEntry;
use crate::exchange::grid_in_bounds;
use crate::grid::heads_to;
use crate::order::{all_in_bounds, ascending, lemma_merged, merged};
use crate::params::in_bounds;

verus! {

/// Whether every sequence of `grid` ascends by id.
pub open spec fn grid_ascending(grid: Seq<Seq<DemeEntry>>) -> bool {
    forall|d: int| 0 <= d < grid.len() ==> ascending(#[trigger] grid[d])
}

/// Those of `entries` whose draw sends them nowhere, in their order.
pub open spec fn stayers(
    entries: Seq<DemeEntry>,
    draws: Seq<u32>,
    rows: int,
    cols: int,
    cell: int,
) -> Seq<DemeEntry>
    decreases entries.len(),
{
    if entries.len() == 0 {
        Seq::empty()
    } else {
        let rest = stayers(entries.drop_last(), draws, rows, cols, cell);
        if heads_to(rows, cols, cell, draws[entries.len() - 1]) is None {
            rest.push(entries.last())
        } else {
            rest
        }
    }
}

/// Those of `entries` whose draw sends them to `dest`, in their order.
pub open spec fn leavers(
    entries: Seq<DemeEntry>,
    draws: Seq<u32>,
    rows: int,
    cols: int,
    cell: int,
    dest: int,
) -> Seq<DemeEntry>
    decreases entries.len(),
{
    if entries.len() == 0 {
        Seq::empty()
    } else {
        let rest = leavers(entries.drop_last(), draws, rows, cols, cell, dest);
        if heads_to(rows, cols, cell, draws[entries.len() - 1]) == Some(dest) {
            rest.push(entries.last())
        } else {
            rest
        }
    }
}

/// Those who leave one of the first `upto` cells for `dest`, cell by cell.
pub open spec fn arrivals(
    grid: Seq<Seq<DemeEntry>>,
    draws: Seq<Seq<u32>>,
    rows: int,
    cols: int,
    dest: int,
    upto: int,
) -> Seq<DemeEntry>
    decreases upto,
{
    if upto <= 0 {
        Seq::empty()
    } else {
        arrivals(grid, draws, rows, cols, dest, upto - 1) + leavers(
            grid[upto - 1],
            draws[upto - 1],
            rows,
            cols,
            upto - 1,
            dest,
        )
    }
}

/// The offspring of the grid after the pass: in every cell the arrivals
/// merged into the stayers.
pub open spec fn settled(
    grid: Seq<Seq<DemeEntry>>,
    draws: Seq<Seq<u32>>,
    rows: int,
    cols: int,
) -> Seq<Seq<DemeEntry>> {
    Seq::new(
        grid.len(),
        |d: int|
            merged(
                stayers(grid[d], draws[d], rows, cols, d),
                arrivals(grid, draws, rows, cols, d, grid.len() as int),
            ),
    )
}

/// Stayers are individuals of the cell they stay in, and keep its order and
/// its bounds.
pub proof fn lemma_stayers(entries: Seq<DemeEntry>, draws: Seq<u32>, rows: int, cols: int, cell: int)
    ensures
        stayers(entries, draws, rows, cols, cell).len() <= entries.len(),
        forall|i: int|
            0 <= i < stayers(entries, draws, rows, cols, cell).len() ==> entries.contains(
                #[trigger] stayers(entries, draws, rows, cols, cell)[i],
            ),
        ascending(entries) ==> ascending(stayers(entries, draws, rows, cols, cell)),
        all_in_bounds(entries) ==> all_in_bounds(stayers(entries, draws, rows, cols, cell)),
    decreases entries.len(),
{
    if entries.len() > 0 {
        let front = entries.drop_last();
        lemma_stayers(front, draws, rows, cols, cell);
        let rest = stayers(front, draws, rows, cols, cell);
        let all = stayers(entries, draws, rows, cols, cell);
        assert forall|i: int| 0 <= i < all.len() implies entries.contains(#[trigger] all[i]) by {
            if i < rest.len() {
                let j = choose|j: int| 0 <= j < front.len() && front[j] == rest[i];
                assert(entries[j] == rest[i]);
            } else {
                assert(entries[entries.len() - 1] == all[i]);
            }
        }
        if ascending(entries) {
            assert(ascending(front));
            assert forall|i: int, j: int| 0 <= i <= j < all.len() implies all[i].id
                <= all[j].id by {
                if j >= rest.len() && i < rest.len() {
                    let m = choose|m: int| 0 <= m < front.len() && front[m] == rest[i];
                    assert(entries[m].id <= entries[entries.len() - 1].id);
                }
            }
        }
        if all_in_bounds(entries) {
            assert forall|i: int| 0 <= i < all.len() implies in_bounds(#[trigger] all[i].ru) by {
                let j = choose|j: int| 0 <= j < entries.len() && entries[j] == all[i];
                assert(in_bounds(entries[j].ru));
            }
        }
    }
}

/// Leavers are individuals of the cell they leave, and keep its bounds.
pub proof fn lemma_leavers(
    entries: Seq<DemeEntry>,
    draws: Seq<u32>,
    rows: int,
    cols: int,
    cell: int,
    dest: int,
)
    ensures
        leavers(entries, draws, rows, cols, cell, dest).len() <= entries.len(),
        forall|i: int|
            0 <= i < leavers(entries, draws, rows, cols, cell, dest).len() ==> entries.contains(
                #[trigger] leavers(entries, draws, rows, cols, cell, dest)[i],
            ),
        all_in_bounds(entries) ==> all_in_bounds(leavers(entries, draws, rows, cols, cell, dest)),
    decreases entries.len(),
{
    if entries.len() > 0 {
        let front = entries.drop_last();
        lemma_leavers(front, draws, rows, cols, cell, dest);
        let rest = leavers(front, draws, rows, cols, cell, dest);
        let all = leavers(entries, draws, rows, cols, cell, dest);
        assert forall|i: int| 0 <= i < all.len() implies entries.contains(#[trigger] all[i]) by {
            if i < rest.len() {
                let j = choose|j: int| 0 <= j < front.len() && front[j] == rest[i];
                assert(entries[j] == rest[i]);
            } else {
                assert(entries[entries.len() - 1] == all[i]);
            }
        }
        if all_in_bounds(entries) {
            assert forall|i: int| 0 <= i < all.len() implies in_bounds(#[trigger] all[i].ru) by {
                let j = choose|j: int| 0 <= j < entries.len() && entries[j] == all[i];
                assert(in_bounds(entries[j].ru));
            }
        }
    }
}

/// Arrivals keep the bounds of the grid they come from.
pub proof fn lemma_arrivals(
    grid: Seq<Seq<DemeEntry>>,
    draws: Seq<Seq<u32>>,
    rows: int,
    cols: int,
    dest: int,
    upto: int,
)
    requires
        upto <= grid.len(),
        grid_in_bounds(grid),
    ensures
        all_in_bounds(arrivals(grid, draws, rows, cols, dest, upto)),
    decreases upto,
{
    if upto > 0 {
        lemma_arrivals(grid, draws, rows, cols, dest, upto - 1);
        assert(all_in_bounds(grid[upto - 1]));
        lemma_leavers(grid[upto - 1], draws[upto - 1], rows, cols, upto - 1, dest);
    }
}

/// A migration pass keeps the number of cells, and in every cell the order
/// by id and the bounds.
pub proof fn lemma_settled(grid: Seq<Seq<DemeEntry>>, draws: Seq<Seq<u32>>, rows: int, cols: int)
    ensures
        settled(grid, draws, rows, cols).len() == grid.len(),
        grid_ascending(grid) ==> grid_ascending(settled(grid, draws, rows, cols)),
        grid_in_bounds(grid) ==> grid_in_bounds(settled(grid, draws, rows, cols)),
{
    let after = settled(grid, draws, rows, cols);
    assert forall|d: int| 0 <= d < grid.len() implies (ascending(grid[d]) ==> ascending(
        #[trigger] after[d],
    )) && (grid_in_bounds(grid) ==> all_in_bounds(after[d])) by {
        let stay = stayers(grid[d], draws[d], rows, cols, d);
        let come = arrivals(grid, draws, rows, cols, d, grid.len() as int);
        lemma_stayers(grid[d], draws[d], rows, cols, d);
        lemma_merged(stay, come);
        if grid_in_bounds(grid) {
            assert(all_in_bounds(grid[d]));
            lemma_arrivals(grid, draws, rows, cols, d, grid.len() as int);
        }
    }
}

/// Where every draw sends its individual nowhere, everybody stays and
/// nobody leaves.
pub proof fn lemma_nobody_leaves(
    entries: Seq<DemeEntry>,
    draws: Seq<u32>,
    rows: int,
    cols: int,
    cell: int,
    dest: int,
)
    requires
        forall|i: int| 0 <= i < entries.len() ==> heads_to(rows, cols, cell, draws[i]) is None,
    ensures
        stayers(entries, draws, rows, cols, cell) == entries,
        leavers(entries, draws, rows, cols, cell, dest).len() == 0,
    decreases entries.len(),
{
    if entries.len() > 0 {
        lemma_nobody_leaves(entries.drop_last(), draws, rows, cols, cell, dest);
        assert(entries.drop_last().push(entries.last()) == entries);
    }
}

/// Nobody arrives where nobody leaves.
pub proof fn lemma_nobody_arrives(
    grid: Seq<Seq<DemeEntry>>,
    draws: Seq<Seq<u32>>,
    rows: int,
    cols: int,
    dest: int,
    upto: int,
)
    requires
        upto <= grid.len(),
        grid_at_rest(grid, draws, rows, cols),
    ensures
        arrivals(grid, draws, rows, cols, dest, upto).len() == 0,
    decreases upto,
{
    if upto > 0 {
        lemma_nobody_arrives(grid, draws, rows, cols, dest, upto - 1);
        lemma_nobody_leaves(grid[upto - 1], draws[upto - 1], rows, cols, upto - 1, dest);
    }
}

/// Whether no draw sends anybody anywhere.
pub open spec fn grid_at_rest(
    grid: Seq<Seq<DemeEntry>>,
    draws: Seq<Seq<u32>>,
    rows: int,
    cols: int,
) -> bool {
    forall|d: int, k: int|
        0 <= d < grid.len() && 0 <= k < grid[d].len() ==> heads_to(rows, cols, d, draws[d][k])
            is None
}

/// A migration pass in which no draw sends anybody anywhere changes
/// nothing.
pub proof fn lemma_settled_at_rest(
    grid: Seq<Seq<DemeEntry>>,
    draws: Seq<Seq<u32>>,
    rows: int,
    cols: int,
)
    requires
        grid_at_rest(grid, draws, rows, cols),
    ensures
        settled(grid, draws, rows, cols) == grid,
{
    let after = settled(grid, draws, rows, cols);
    assert forall|d: int| 0 <= d < grid.len() implies #[trigger] after[d] == grid[d] by {
        lemma_nobody_leaves(grid[d], draws[d], rows, cols, d, d);
        lemma_nobody_arrives(grid, draws, rows, cols, d, grid.len() as int);
        assert(arrivals(grid, draws, rows, cols, d, grid.len() as int) =~= Seq::empty());
    }
    assert(after =~= grid);
}

/// On a grid of a single cell a migration pass changes nothing, whatever
/// is drawn.
pub proof fn lemma_single_cell_settled(grid: Seq<Seq<DemeEntry>>, draws: Seq<Seq<u32>>)
    requires
        grid.len() == 1,
    ensures
        settled(grid, draws, 1, 1) == grid,
{
    lemma_settled_at_rest(grid, draws, 1, 1);
}

} // verus!
