use deme_sim::entry::DemeEntry;
use deme_sim::exchange::Exchange;
use deme_sim::params::{
    CARRY_SIZE, FOUNDERS, ID_LIMIT, MAX_RU, MIN_RU, MOVE_EAST, MOVE_NORTH, MOVE_SOUTH, MOVE_WEST,
    MUTATE_DOWN, MUTATE_UP,
};
use deme_sim::Deme;

fn entry(id: u32, ru: i8) -> DemeEntry {
    DemeEntry { id, ru }
}

fn is_ascending(entries: &Vec<DemeEntry>) -> bool {
    let mut i = 1;
    while i < entries.len() {
        if entries[i - 1].id > entries[i].id {
            return false;
        }
        i += 1;
    }
    true
}

fn is_in_bounds(entries: &Vec<DemeEntry>) -> bool {
    entries.iter().all(|e| MIN_RU <= e.ru && e.ru <= MAX_RU)
}

fn counting(from: u32, step: u32, count: usize) -> Vec<u32> {
    let mut ids = Vec::new();
    let mut next = from;
    while ids.len() < count {
        ids.push(next);
        next += step;
    }
    ids
}

/// A deme whose offspring carry the ids `from, from + step, ..` and the
/// trait value `ru`, two per founder.
fn raised_deme(from: u32, step: u32, ru: i64) -> Deme {
    let mut deme = Deme::new(&vec![ru; FOUNDERS]);
    deme.procreate_with(&vec![0; 2 * FOUNDERS], &counting(from, step, 2 * FOUNDERS));
    deme
}

#[test]
fn make_gen_with_sorts_the_ids_and_keeps_the_sample_order() {
    let gen = Deme::make_gen_with(&vec![30, 10, 20, 10], &vec![5, -4, 25, 7]);
    let entries: Vec<DemeEntry> = gen.iter().cloned().collect();
    assert_eq!(entries, vec![entry(10, 5), entry(10, 1), entry(20, 19), entry(30, 7)]);
    assert_eq!(gen.len(), 4);
}

#[test]
fn make_gen_with_nothing_gives_an_empty_generation() {
    let gen = Deme::make_gen_with(&Vec::new(), &Vec::new());
    assert_eq!(gen.len(), 0);
}

#[test]
fn make_gen_founds_one_fewer_than_the_capacity() {
    let samples: Vec<i64> = (0..FOUNDERS as i64).map(|i| i - 40).collect();
    let gen = Deme::make_gen(&samples);
    let entries: Vec<DemeEntry> = gen.iter().cloned().collect();
    assert_eq!(entries.len(), CARRY_SIZE - 1);
    assert!(is_ascending(&entries));
    assert!(entries.iter().all(|e| e.id < ID_LIMIT));
    let mut i = 0;
    while i < entries.len() {
        let sample = samples[i];
        let expected = if sample < 1 { 1 } else if sample > 19 { 19 } else { sample as i8 };
        assert_eq!(entries[i].ru, expected);
        i += 1;
    }
}

#[test]
fn new_deme_has_founders_and_no_offspring() {
    let deme = Deme::new(&vec![9; FOUNDERS]);
    let parents = deme.parents();
    assert_eq!(parents.len(), 99);
    assert_eq!(deme.parents_len(), 99);
    assert_eq!(deme.offspring_len(), 0);
    assert!(deme.offspring().is_empty());
    assert!(is_ascending(&parents));
    assert!(parents.iter().all(|e| e.ru == 9));
}

#[test]
fn procreate_with_gives_each_parent_two_children() {
    let mut samples = vec![5i64; FOUNDERS];
    samples[0] = 19;
    samples[1] = 1;
    samples[2] = 8;
    let mut deme = Deme::new(&samples);
    let parents_before = deme.parents();
    let mut pcts = vec![0u32; 2 * FOUNDERS];
    pcts[0] = MUTATE_UP;
    pcts[1] = MUTATE_DOWN;
    pcts[2] = MUTATE_DOWN;
    pcts[3] = MUTATE_UP;
    pcts[4] = MUTATE_UP;
    pcts[5] = 7;
    let ids = counting(100, 1, 2 * FOUNDERS);
    deme.procreate_with(&pcts, &ids);
    let offspring = deme.offspring();
    assert_eq!(offspring.len(), 2 * FOUNDERS);
    assert_eq!(deme.offspring_len(), 198);
    assert_eq!(offspring[0], entry(100, 19));
    assert_eq!(offspring[1], entry(101, 18));
    assert_eq!(offspring[2], entry(102, 1));
    assert_eq!(offspring[3], entry(103, 2));
    assert_eq!(offspring[4], entry(104, 9));
    assert_eq!(offspring[5], entry(105, 8));
    let mut k = 6;
    while k < offspring.len() {
        assert_eq!(offspring[k], entry(100 + k as u32, 5));
        k += 1;
    }
    assert_eq!(deme.parents(), parents_before);
}

#[test]
fn procreate_with_puts_the_children_in_id_order() {
    let mut samples = vec![5i64; FOUNDERS];
    samples[0] = 3;
    samples[98] = 12;
    let mut deme = Deme::new(&samples);
    // Ids fall from 197 to 0, with the first two children sharing one id.
    let mut ids: Vec<u32> = counting(0, 1, 2 * FOUNDERS);
    ids.reverse();
    ids[0] = 50;
    ids[1] = 50;
    let mut pcts = vec![0u32; 2 * FOUNDERS];
    pcts[1] = MUTATE_UP;
    deme.procreate_with(&pcts, &ids);
    let offspring = deme.offspring();
    assert_eq!(offspring.len(), 198);
    assert!(is_ascending(&offspring));
    assert_eq!(offspring[0], entry(0, 12));
    assert_eq!(offspring[1], entry(1, 12));
    assert_eq!(offspring[2], entry(2, 5));
    // The child born with id 50 in the ordinary run of ids comes first among
    // its equals only if it was born first: the two children of the first
    // parent were, in birth order.
    assert_eq!(offspring[50], entry(50, 3));
    assert_eq!(offspring[51], entry(50, 4));
    assert_eq!(offspring[52], entry(50, 5));
    assert_eq!(offspring[197], entry(195, 5));
}

#[test]
fn procreate_replaces_earlier_offspring() {
    let mut deme = raised_deme(0, 1, 5);
    deme.procreate_with(&vec![0; 2 * FOUNDERS], &counting(1000, 1, 2 * FOUNDERS));
    let offspring = deme.offspring();
    assert_eq!(offspring.len(), 198);
    assert_eq!(offspring[0], entry(1000, 5));
}

#[test]
fn procreate_draws_two_children_per_parent() {
    let samples: Vec<i64> = (0..FOUNDERS as i64).map(|i| 1 + i % 19).collect();
    let mut deme = Deme::new(&samples);
    let parents = deme.parents();
    deme.procreate();
    let offspring = deme.offspring();
    assert_eq!(offspring.len(), 2 * parents.len());
    assert!(is_ascending(&offspring));
    assert!(is_in_bounds(&offspring));
    assert!(offspring.iter().all(|e| e.id < ID_LIMIT));
    assert_eq!(deme.parents(), parents);
    // Mutation moves a trait by one at most, so the sums stay close.
    let of_parents: i64 = parents.iter().map(|e| e.ru as i64).sum();
    let of_children: i64 = offspring.iter().map(|e| e.ru as i64).sum();
    assert!((of_children - 2 * of_parents).abs() <= 2 * parents.len() as i64);
}

#[test]
fn cut_carry_keeps_the_first_hundred() {
    let mut deme = raised_deme(10, 2, 6);
    let offspring = deme.offspring();
    assert_eq!(offspring.len(), 198);
    deme.cut_carry();
    let parents = deme.parents();
    assert_eq!(parents.len(), CARRY_SIZE);
    assert_eq!(parents[..], offspring[..CARRY_SIZE]);
    assert_eq!(deme.offspring_len(), 0);
    assert!(deme.offspring().is_empty());
}

#[test]
fn cut_carry_keeps_everything_below_the_capacity() {
    let mut deme = raised_deme(0, 1, 6);
    let mut exchange = Exchange::new(2);
    // All but 40 offspring leave for the cell below.
    let mut draws = vec![MOVE_SOUTH; 2 * FOUNDERS];
    let mut k = 0;
    while k < 40 {
        draws[2 * k] = 0;
        k += 1;
    }
    deme.emigrate(&draws, 2, 1, 0, &mut exchange);
    let offspring = deme.offspring();
    assert_eq!(offspring.len(), 40);
    deme.cut_carry();
    assert_eq!(deme.parents(), offspring);
    assert_eq!(deme.parents_len(), 40);
    assert_eq!(deme.offspring_len(), 0);
}

#[test]
fn cut_carry_on_no_offspring_leaves_no_parents() {
    let mut deme = Deme::new(&vec![9; FOUNDERS]);
    deme.cut_carry();
    assert_eq!(deme.parents_len(), 0);
    assert_eq!(deme.offspring_len(), 0);
    deme.procreate();
    assert_eq!(deme.offspring_len(), 0);
}

#[test]
fn cut_carry_keeps_exactly_the_capacity() {
    let mut deme = raised_deme(0, 1, 6);
    let mut exchange = Exchange::new(2);
    let mut draws = vec![0u32; 2 * FOUNDERS];
    let mut k = CARRY_SIZE;
    while k < draws.len() {
        draws[k] = MOVE_SOUTH;
        k += 1;
    }
    deme.emigrate(&draws, 2, 1, 0, &mut exchange);
    assert_eq!(deme.offspring_len(), CARRY_SIZE);
    let offspring = deme.offspring();
    deme.cut_carry();
    assert_eq!(deme.parents(), offspring);
}

#[test]
fn emigrate_posts_leavers_and_keeps_the_rest() {
    // The middle cell of a 3 x 3 grid has all four neighbors.
    let mut deme = raised_deme(0, 1, 4);
    let before = deme.offspring();
    let mut exchange = Exchange::new(9);
    let mut draws = vec![0u32; 2 * FOUNDERS];
    draws[0] = MOVE_WEST;
    draws[1] = MOVE_NORTH;
    draws[2] = MOVE_EAST;
    draws[3] = MOVE_SOUTH;
    draws[4] = 5;
    draws[10] = MOVE_WEST;
    draws[197] = MOVE_SOUTH;
    deme.emigrate(&draws, 3, 3, 4, &mut exchange);
    assert_eq!(exchange.batch(1), &vec![before[0], before[10]]);
    assert_eq!(exchange.batch(3), &vec![before[1]]);
    assert_eq!(exchange.batch(7), &vec![before[2]]);
    assert_eq!(exchange.batch(5), &vec![before[3], before[197]]);
    assert!(exchange.batch(4).is_empty());
    assert!(exchange.batch(0).is_empty());
    let mut expected = Vec::new();
    let mut k = 0;
    while k < before.len() {
        if k > 3 && k != 10 && k != 197 {
            expected.push(before[k]);
        }
        k += 1;
    }
    assert_eq!(deme.offspring(), expected);
    assert_eq!(deme.offspring_len(), 192);
}

#[test]
fn emigrate_cancels_a_move_off_the_grid() {
    // The cell at the top of the first column: nothing west or north of it.
    let mut deme = raised_deme(0, 1, 4);
    let before = deme.offspring();
    let parents = deme.parents();
    let mut exchange = Exchange::new(4);
    let mut draws = vec![MOVE_WEST; 2 * FOUNDERS];
    let mut k = 0;
    while k < draws.len() {
        if k % 2 == 1 {
            draws[k] = MOVE_NORTH;
        }
        k += 1;
    }
    deme.emigrate(&draws, 2, 2, 0, &mut exchange);
    assert_eq!(deme.offspring(), before);
    assert_eq!(deme.parents(), parents);
    let mut cell = 0;
    while cell < 4 {
        assert!(exchange.batch(cell).is_empty());
        cell += 1;
    }
    // The cell at the bottom of the last column: nothing east or south.
    let mut draws = vec![MOVE_EAST; 2 * FOUNDERS];
    draws[7] = MOVE_SOUTH;
    deme.emigrate(&draws, 2, 2, 3, &mut exchange);
    assert_eq!(deme.offspring(), before);
    let mut cell = 0;
    while cell < 4 {
        assert!(exchange.batch(cell).is_empty());
        cell += 1;
    }
}

#[test]
fn emigrate_adds_behind_what_a_batch_already_holds() {
    let mut deme = raised_deme(0, 1, 4);
    let before = deme.offspring();
    let mut exchange = Exchange::new(2);
    exchange.post(1, entry(77, 3));
    let mut draws = vec![0u32; 2 * FOUNDERS];
    draws[5] = MOVE_SOUTH;
    deme.emigrate(&draws, 2, 1, 0, &mut exchange);
    assert_eq!(exchange.batch(1), &vec![entry(77, 3), before[5]]);
}

#[test]
fn receive_merges_before_the_first_greater_id() {
    let mut deme = raised_deme(10, 10, 4);
    // Offspring ids: 10, 20, 30, ...
    deme.receive(&vec![entry(25, 7), entry(5, 8), entry(20, 9), entry(25, 10), entry(5000, 11)]);
    let offspring = deme.offspring();
    assert_eq!(offspring.len(), 203);
    assert_eq!(offspring[0], entry(5, 8));
    assert_eq!(offspring[1], entry(10, 4));
    assert_eq!(offspring[2], entry(20, 4));
    assert_eq!(offspring[3], entry(20, 9));
    assert_eq!(offspring[4], entry(25, 7));
    assert_eq!(offspring[5], entry(25, 10));
    assert_eq!(offspring[6], entry(30, 4));
    assert_eq!(offspring[202], entry(5000, 11));
    assert!(is_ascending(&offspring));
}

#[test]
fn receive_into_no_offspring_sorts_the_batch() {
    let mut deme = Deme::new(&vec![9; FOUNDERS]);
    deme.receive(&vec![entry(3, 2), entry(1, 4), entry(3, 6), entry(2, 8)]);
    assert_eq!(deme.offspring(), vec![entry(1, 4), entry(2, 8), entry(3, 2), entry(3, 6)]);
    assert_eq!(deme.parents_len(), FOUNDERS);
}

#[test]
fn receive_of_nothing_changes_nothing() {
    let mut deme = raised_deme(0, 3, 4);
    let before = deme.offspring();
    deme.receive(&Vec::new());
    assert_eq!(deme.offspring(), before);
}
