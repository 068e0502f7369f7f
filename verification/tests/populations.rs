use deme_sim::entry::DemeEntry;
use deme_sim::params::{
    CARRY_SIZE, FOUNDERS, MAX_RU, MIGRATION_RANGE, MIN_RU, MOVE_EAST, MOVE_NORTH, MOVE_SOUTH,
    MOVE_WEST, MUTATE_UP,
};
use deme_sim::Population;

fn entry(id: u32, ru: i8) -> DemeEntry {
    DemeEntry { id, ru }
}

fn is_ascending(entries: &Vec<DemeEntry>) -> bool {
    let mut i = 1;
    while i < entries.len() {
        if entries[i - 1].id > entries[i].id {
            return false;
        }
        i += 1;
    }
    true
}

fn is_in_bounds(entries: &Vec<DemeEntry>) -> bool {
    entries.iter().all(|e| MIN_RU <= e.ru && e.ru <= MAX_RU)
}

/// Samples that give every founder of the deme with index `d` the trait
/// value `d + 1`.
fn samples_by_cell(cells: usize) -> Vec<Vec<i64>> {
    (0..cells).map(|d| vec![d as i64 + 1; FOUNDERS]).collect()
}

/// Ids `d, d + cells, d + 2 * cells, ..` for the children of the deme with
/// index `d`, so that no two children of the grid share an id.
fn ids_by_cell(cells: usize, children: usize) -> Vec<Vec<u32>> {
    (0..cells).map(|d| (0..children).map(|k| (d + k * cells) as u32).collect()).collect()
}

fn same_for_all(cells: usize, children: usize, draw: u32) -> Vec<Vec<u32>> {
    vec![vec![draw; children]; cells]
}

/// A grid in which every deme has raised `2 * FOUNDERS` unmutated children.
fn raised_grid(rows: u16, cols: u16) -> Population {
    let cells = rows as usize * cols as usize;
    let mut pop = Population::new(rows, cols, &samples_by_cell(cells));
    let ids = ids_by_cell(cells, 2 * FOUNDERS);
    let mut col = 0;
    while col < cols {
        let mut row = 0;
        while row < rows {
            let d = row as usize + col as usize * rows as usize;
            pop.get(row, col).procreate_with(&vec![0; 2 * FOUNDERS], &ids[d]);
            row += 1;
        }
        col += 1;
    }
    pop
}

fn offspring_of(pop: &mut Population) -> Vec<Vec<DemeEntry>> {
    let mut all = Vec::new();
    let mut col = 0;
    while col < pop.cols() {
        let mut row = 0;
        while row < pop.rows() {
            all.push(pop.get(row, col).offspring());
            row += 1;
        }
        col += 1;
    }
    all
}

fn parents_of(pop: &mut Population) -> Vec<Vec<DemeEntry>> {
    let mut all = Vec::new();
    let mut col = 0;
    while col < pop.cols() {
        let mut row = 0;
        while row < pop.rows() {
            all.push(pop.get(row, col).parents());
            row += 1;
        }
        col += 1;
    }
    all
}

fn head_count(grid: &Vec<Vec<DemeEntry>>) -> usize {
    grid.iter().map(|cell| cell.len()).sum()
}

#[test]
fn new_population_founds_every_deme() {
    let mut pop = Population::new(3, 2, &samples_by_cell(6));
    assert_eq!(pop.rows(), 3);
    assert_eq!(pop.cols(), 2);
    let parents = parents_of(&mut pop);
    assert_eq!(parents.len(), 6);
    for cell in &parents {
        assert_eq!(cell.len(), FOUNDERS);
        assert!(is_ascending(cell));
        assert!(is_in_bounds(cell));
    }
    for cell in offspring_of(&mut pop) {
        assert!(cell.is_empty());
    }
}

#[test]
fn get_addresses_cells_column_by_column() {
    let mut pop = Population::new(3, 2, &samples_by_cell(6));
    let mut col = 0;
    while col < 2 {
        let mut row = 0;
        while row < 3 {
            let expected = (row + col * 3 + 1) as i8;
            assert!(pop.get(row, col).parents().iter().all(|e| e.ru == expected));
            row += 1;
        }
        col += 1;
    }
}

#[test]
fn get_hands_out_the_deme_itself() {
    let mut pop = Population::new(2, 2, &samples_by_cell(4));
    pop.get(1, 0).procreate();
    assert_eq!(pop.get(1, 0).offspring_len(), 2 * FOUNDERS);
    assert_eq!(pop.get(0, 0).offspring_len(), 0);
    assert_eq!(pop.get(0, 1).offspring_len(), 0);
    assert_eq!(pop.get(1, 1).offspring_len(), 0);
}

#[test]
fn population_without_rows_or_columns_is_empty() {
    let mut none = Population::new(0, 5, &Vec::new());
    assert_eq!((none.rows(), none.cols()), (0, 5));
    none.next_gen();
    none.migrate_offspring();
    none.migrate_offspring_with(&Vec::new());
    none.next_gen_with(&Vec::new(), &Vec::new(), &Vec::new());
    let mut none = Population::new(4, 0, &Vec::new());
    assert_eq!((none.rows(), none.cols()), (4, 0));
    none.next_gen();
    let mut none = Population::new(0, 0, &Vec::new());
    none.next_gen();
    assert_eq!((none.rows(), none.cols()), (0, 0));
}

#[test]
fn migration_moves_the_drawn_offspring_to_their_neighbors() {
    // Two rows, one column: cell 0 lies above cell 1.
    let mut pop = raised_grid(2, 1);
    let before = offspring_of(&mut pop);
    let parents = parents_of(&mut pop);
    let mut moves = same_for_all(2, 2 * FOUNDERS, 0);
    moves[0][0] = MOVE_SOUTH;
    moves[0][1] = MOVE_NORTH;
    moves[0][2] = MOVE_EAST;
    moves[0][3] = MOVE_WEST;
    moves[1][0] = MOVE_NORTH;
    moves[1][5] = MOVE_NORTH;
    moves[1][6] = MOVE_SOUTH;
    pop.migrate_offspring_with(&moves);
    let after = offspring_of(&mut pop);

    // Cell 0 held the even ids 0, 2, 4, ..; it loses id 0 and gains 1 and 11.
    let mut upper: Vec<DemeEntry> = Vec::new();
    upper.push(entry(1, 2));
    let mut k = 1;
    while k < 2 * FOUNDERS {
        upper.push(entry(2 * k as u32, 1));
        if k == 5 {
            upper.push(entry(11, 2));
        }
        k += 1;
    }
    assert_eq!(after[0], upper);

    // Cell 1 held the odd ids; it loses 1 and 11 and gains 0.
    let mut lower: Vec<DemeEntry> = Vec::new();
    lower.push(entry(0, 1));
    let mut k = 1;
    while k < 2 * FOUNDERS {
        if k != 5 {
            lower.push(entry(2 * k as u32 + 1, 2));
        }
        k += 1;
    }
    assert_eq!(after[1], lower);

    assert_eq!(head_count(&after), head_count(&before));
    assert_eq!(parents_of(&mut pop), parents);
}

#[test]
fn migration_never_moves_an_arrival_again() {
    // One row, three columns. Everybody in cell 0 moves east; the draws of
    // cell 1 move its own first offspring east, and nobody else.
    let mut pop = raised_grid(1, 3);
    let before = offspring_of(&mut pop);
    let mut moves = same_for_all(3, 2 * FOUNDERS, 0);
    moves[0] = vec![MOVE_EAST; 2 * FOUNDERS];
    moves[1][0] = MOVE_EAST;
    pop.migrate_offspring_with(&moves);
    let after = offspring_of(&mut pop);
    assert!(after[0].is_empty());
    assert_eq!(after[1].len(), 2 * FOUNDERS - 1 + 2 * FOUNDERS);
    assert_eq!(after[2].len(), 2 * FOUNDERS + 1);
    assert!(after[1].iter().all(|e| e.ru == 1 || e.ru == 2));
    assert_eq!(after[1].iter().filter(|e| e.ru == 1).count(), 2 * FOUNDERS);
    assert!(after[2].contains(&before[1][0]));
    assert!(after[2].iter().all(|e| e.ru != 1));
    for cell in &after {
        assert!(is_ascending(cell));
    }
}

#[test]
fn migration_merges_arrivals_from_several_cells_in_id_order() {
    let mut pop = raised_grid(3, 3);
    let before = offspring_of(&mut pop);
    let mut moves = same_for_all(9, 2 * FOUNDERS, 0);
    // The middle cell has index 4; its neighbors are 1, 3, 5 and 7.
    moves[1][190] = MOVE_EAST;
    moves[1][3] = MOVE_EAST;
    moves[3][100] = MOVE_SOUTH;
    moves[5][0] = MOVE_NORTH;
    moves[7][197] = MOVE_WEST;
    moves[7][50] = MOVE_WEST;
    pop.migrate_offspring_with(&moves);
    let after = offspring_of(&mut pop);
    let mut expected = before[4].clone();
    expected.push(before[1][3]);
    expected.push(before[1][190]);
    expected.push(before[3][100]);
    expected.push(before[5][0]);
    expected.push(before[7][50]);
    expected.push(before[7][197]);
    expected.sort_by_key(|e| e.id);
    assert_eq!(after[4], expected);
    assert_eq!(after[1].len(), 2 * FOUNDERS - 2);
    assert_eq!(after[3].len(), 2 * FOUNDERS - 1);
    assert_eq!(after[5].len(), 2 * FOUNDERS - 1);
    assert_eq!(after[7].len(), 2 * FOUNDERS - 2);
    assert_eq!(head_count(&after), head_count(&before));
}

#[test]
fn migration_off_the_grid_is_cancelled() {
    let mut pop = raised_grid(2, 3);
    let before = offspring_of(&mut pop);
    let children = 2 * FOUNDERS;
    // Cells 0 and 1 form column 0, cells 4 and 5 the last column; the even
    // cells are row 0, the odd ones the last row.
    let mut moves = same_for_all(6, children, 0);
    moves[0] = vec![MOVE_WEST; children];
    moves[1] = vec![MOVE_WEST; children];
    moves[4] = vec![MOVE_EAST; children];
    moves[5] = vec![MOVE_EAST; children];
    moves[2] = vec![MOVE_NORTH; children];
    moves[3] = vec![MOVE_SOUTH; children];
    let mut k = 0;
    while k < children {
        if k % 2 == 0 {
            moves[0][k] = MOVE_NORTH;
            moves[1][k] = MOVE_SOUTH;
            moves[4][k] = MOVE_NORTH;
            moves[5][k] = MOVE_SOUTH;
        }
        k += 1;
    }
    pop.migrate_offspring_with(&moves);
    assert_eq!(offspring_of(&mut pop), before);
}

#[test]
fn migration_without_a_direction_changes_nothing() {
    let mut pop = raised_grid(2, 2);
    let before = offspring_of(&mut pop);
    let mut moves = same_for_all(4, 2 * FOUNDERS, 0);
    let mut k = 0;
    while k < 2 * FOUNDERS {
        moves[1][k] = 5 + k as u32;
        moves[2][k] = MIGRATION_RANGE - 1;
        k += 1;
    }
    pop.migrate_offspring_with(&moves);
    assert_eq!(offspring_of(&mut pop), before);
}

#[test]
fn migration_keeps_the_head_count() {
    let mut pop = raised_grid(3, 4);
    let before = offspring_of(&mut pop);
    let mut round = 0;
    while round < 50 {
        pop.migrate_offspring();
        let after = offspring_of(&mut pop);
        assert_eq!(head_count(&after), head_count(&before));
        for cell in &after {
            assert!(is_ascending(cell));
            assert!(is_in_bounds(cell));
        }
        round += 1;
    }
    let mut ids_before: Vec<u32> = before.iter().flatten().map(|e| e.id).collect();
    let mut ids_after: Vec<u32> = offspring_of(&mut pop).iter().flatten().map(|e| e.id).collect();
    ids_before.sort();
    ids_after.sort();
    assert_eq!(ids_after, ids_before);
}

#[test]
fn single_cell_never_migrates() {
    let mut pop = raised_grid(1, 1);
    let before = offspring_of(&mut pop);
    for draw in [0, MOVE_WEST, MOVE_NORTH, MOVE_EAST, MOVE_SOUTH] {
        pop.migrate_offspring_with(&same_for_all(1, 2 * FOUNDERS, draw));
        assert_eq!(offspring_of(&mut pop), before);
    }
    let mut round = 0;
    while round < 200 {
        pop.migrate_offspring();
        round += 1;
    }
    assert_eq!(offspring_of(&mut pop), before);
}

#[test]
fn single_cell_runs_any_number_of_steps() {
    let mut pop = Population::new(1, 1, &samples_by_cell(1));
    let mut step = 0;
    while step < 20 {
        pop.next_gen();
        let parents = pop.get(0, 0).parents();
        assert_eq!(parents.len(), CARRY_SIZE);
        assert!(is_ascending(&parents));
        assert!(is_in_bounds(&parents));
        assert_eq!(pop.get(0, 0).offspring_len(), 0);
        step += 1;
    }
}

#[test]
fn two_by_one_grid_fills_to_capacity_in_three_steps() {
    let mut pop = Population::new(2, 1, &samples_by_cell(2));
    let mut step = 0;
    while step < 3 {
        pop.next_gen();
        for cell in parents_of(&mut pop) {
            assert_eq!(cell.len(), CARRY_SIZE);
            assert!(is_ascending(&cell));
            assert!(is_in_bounds(&cell));
        }
        for cell in offspring_of(&mut pop) {
            assert!(cell.is_empty());
        }
        step += 1;
    }
}

#[test]
fn step_without_mutation_or_migration_doubles_and_truncates() {
    let mut samples = samples_by_cell(4);
    samples[2] = (0..FOUNDERS as i64).map(|i| 1 + i % 19).collect();
    let mut pop = Population::new(2, 2, &samples);
    let before = parents_of(&mut pop);
    let children = 2 * FOUNDERS;
    let ids: Vec<Vec<u32>> = vec![(0..children as u32).collect(); 4];
    pop.next_gen_with(&same_for_all(4, children, 0), &ids, &same_for_all(4, children, 0));
    let after = parents_of(&mut pop);
    let mut d = 0;
    while d < 4 {
        assert_eq!(after[d].len(), CARRY_SIZE);
        let mut k = 0;
        while k < CARRY_SIZE {
            assert_eq!(after[d][k], entry(k as u32, before[d][k / 2].ru));
            k += 1;
        }
        d += 1;
    }
    for cell in offspring_of(&mut pop) {
        assert!(cell.is_empty());
    }
}

#[test]
fn step_with_given_draws_breeds_migrates_and_cuts() {
    // One row, two columns. In cell 0 the first child mutates upwards and
    // then moves east, where it takes the front place by its id.
    let mut pop = Population::new(1, 2, &samples_by_cell(2));
    let children = 2 * FOUNDERS;
    let mut pcts = same_for_all(2, children, 0);
    pcts[0][0] = MUTATE_UP;
    let ids = vec![
        (0..children as u32).collect::<Vec<u32>>(),
        (1000..1000 + children as u32).collect::<Vec<u32>>(),
    ];
    let mut moves = same_for_all(2, children, 0);
    moves[0][0] = MOVE_EAST;
    pop.next_gen_with(&pcts, &ids, &moves);
    let after = parents_of(&mut pop);
    assert_eq!(after[0].len(), CARRY_SIZE);
    assert_eq!(after[0][0], entry(1, 1));
    assert_eq!(after[0][99], entry(100, 1));
    assert_eq!(after[1].len(), CARRY_SIZE);
    assert_eq!(after[1][0], entry(0, 2));
    assert_eq!(after[1][1], entry(1000, 2));
    assert_eq!(after[1][99], entry(1098, 2));
}

#[test]
fn traits_stay_in_bounds_over_many_steps() {
    let mut samples = samples_by_cell(6);
    samples[0] = vec![-1000; FOUNDERS];
    samples[5] = vec![1000; FOUNDERS];
    let mut pop = Population::new(2, 3, &samples);
    let mut step = 0;
    while step < 30 {
        pop.next_gen();
        for cell in parents_of(&mut pop) {
            assert!(cell.len() <= CARRY_SIZE);
            assert!(is_in_bounds(&cell));
            assert!(is_ascending(&cell));
        }
        step += 1;
    }
}
