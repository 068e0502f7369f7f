//! Fixed parameters of the simulation and the clamping rule for trait values.

use vstd::prelude::*;
use core::cmp::Ordering;
use vstd::std_specs::cmp::PartialOrdSpec;

verus! {

/// Largest number of individuals a deme keeps after a generation step.
pub const CARRY_SIZE: usize = 100;

/// Number of individuals in a freshly founded deme.
pub const FOUNDERS: usize = CARRY_SIZE - 1;

/// Smallest trait value an individual can carry.
pub const MIN_RU: i8 = 1;

/// Largest trait value an individual can carry.
pub const MAX_RU: i8 = 19;

/// Mutation draws are uniform over `0..MUTATION_RANGE`.
pub const MUTATION_RANGE: u32 = 200;

/// The mutation draw that raises the trait by one.
pub const MUTATE_UP: u32 = 1;

/// The mutation draw that lowers the trait by one.
pub const MUTATE_DOWN: u32 = 2;

/// Migration draws are uniform over `0..MIGRATION_RANGE`.
pub const MIGRATION_RANGE: u32 = 400;

/// The migration draw that sends an individual west, to the column before.
pub const MOVE_WEST: u32 = 1;

/// The migration draw that sends an individual north, to the row before.
pub const MOVE_NORTH: u32 = 2;

/// The migration draw that sends an individual east, to the column after.
pub const MOVE_EAST: u32 = 3;

/// The migration draw that sends an individual south, to the row after.
pub const MOVE_SOUTH: u32 = 4;

/// Identifiers are uniform over `0..ID_LIMIT`.
pub const ID_LIMIT: u32 = 0xffff_ffff;

/// What `clamp` returns for a type whose `<` and `>` follow its
/// `partial_cmp`: `min` below the range, `max` above it, else `a`.
pub open spec fn clamped<N: PartialOrd>(a: N, min: N, max: N) -> N {
    if a.partial_cmp_spec(&min) == Some(Ordering::Less) {
        min
    } else if a.partial_cmp_spec(&max) == Some(Ordering::Greater) {
        max
    } else {
        a
    }
}

/// Forces `a` into `[min, max]`.
pub fn clamp<N: PartialOrd>(a: N, min: N, max: N) -> (r: N)
    ensures
        r == a || r == min || r == max,
        N::obeys_partial_cmp_spec() ==> r == clamped(a, min, max),
{
    if a < min {
        return min;
    }
    if a > max {
        return max;
    }
    a
}

/// A trait value forced into `[MIN_RU, MAX_RU]`.
pub open spec fn bounded(v: int) -> int {
    if v < MIN_RU {
        MIN_RU as int
    } else if v > MAX_RU {
        MAX_RU as int
    } else {
        v
    }
}

/// Whether a trait value lies in `[MIN_RU, MAX_RU]`.
pub open spec fn in_bounds(ru: i8) -> bool {
    MIN_RU <= ru <= MAX_RU
}

/// The step a mutation draw adds to a trait value.
pub open spec fn shift(pct: u32) -> int {
    if pct == MUTATE_UP {
        1
    } else if pct == MUTATE_DOWN {
        -1
    } else {
        0
    }
}

/// The trait value of a child whose parent carries `ru`, for a mutation draw.
pub open spec fn mutated(ru: i8, pct: u32) -> i8 {
    bounded(ru + shift(pct)) as i8
}

/// The trait value of a founder, for a sample of the founding distribution
/// cut to a whole number.
pub open spec fn founded(sample: i64) -> i8 {
    bounded(sample as int) as i8
}

/// The trait value a child inherits: the parent's, one more on `MUTATE_UP`,
/// one less on `MUTATE_DOWN`, and never outside `[MIN_RU, MAX_RU]`.
pub fn mutate(ru: i8, pct: u32) -> (child: i8)
    ensures
        child == mutated(ru, pct),
        in_bounds(child),
{
    let adjust: i16 = if pct == MUTATE_UP {
        1
    } else if pct == MUTATE_DOWN {
        -1
    } else {
        0
    };
    let raised: i16 = ru as i16 + adjust;
    let low: i16 = MIN_RU as i16;
    let high: i16 = MAX_RU as i16;
    let kept: i16 = clamp(raised, low, high);
    kept as i8
}

/// The trait value a founder starts with: its sample forced into
/// `[MIN_RU, MAX_RU]`.
pub fn trait_from(sample: i64) -> (ru: i8)
    ensures
        ru == founded(sample),
        in_bounds(ru),
{
    let low: i64 = MIN_RU as i64;
    let high: i64 = MAX_RU as i64;
    let kept: i64 = clamp(sample, low, high);
    kept as i8
}

} // verus!
