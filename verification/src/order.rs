//! Ordering of individuals by identifier.
//!
//! A deme keeps its individuals in ascending order of `id`. A newcomer goes
//! immediately before the first individual whose `id` is strictly greater, so
//! individuals with equal ids stay in the order in which they came.

use vstd::prelude::*;
use crate::entry::DemeEntry;
use crate::params::in_bounds;

verus! {

/// Whether the ids never decrease from front to back.
pub open spec fn ascending(s: Seq<DemeEntry>) -> bool {
    forall|i: int, j: int| 0 <= i <= j < s.len() ==> s[i].id <= s[j].id
}

/// Whether every trait value lies in `[MIN_RU, MAX_RU]`.
pub open spec fn all_in_bounds(s: Seq<DemeEntry>) -> bool {
    forall|i: int| 0 <= i < s.len() ==> in_bounds(#[trigger] s[i].ru)
}

/// The position of the first individual whose id is strictly greater than
/// `id`, or the length of `s` where there is none.
pub open spec fn slot_for(s: Seq<DemeEntry>, id: u32) -> int
    decreases s.len(),
{
    if s.len() == 0 || s[0].id > id {
        0
    } else {
        1 + slot_for(s.drop_first(), id)
    }
}

/// `s` with `e` put at its slot.
pub open spec fn placed(s: Seq<DemeEntry>, e: DemeEntry) -> Seq<DemeEntry> {
    s.insert(slot_for(s, e.id), e)
}

/// `base` after the individuals of `incoming` were placed one by one, front
/// to back.
pub open spec fn merged(base: Seq<DemeEntry>, incoming: Seq<DemeEntry>) -> Seq<DemeEntry>
    decreases incoming.len(),
{
    if incoming.len() == 0 {
        base
    } else {
        placed(merged(base, incoming.drop_last()), incoming.last())
    }
}

/// `s` in ascending order of id, equal ids in their order in `s`.
pub open spec fn sorted(s: Seq<DemeEntry>) -> Seq<DemeEntry> {
    merged(Seq::empty(), s)
}

/// The slot lies inside `0..=len`, nothing before it has a greater id, and
/// what stands at it has.
pub proof fn lemma_slot_for(s: Seq<DemeEntry>, id: u32)
    ensures
        0 <= slot_for(s, id) <= s.len(),
        forall|i: int| 0 <= i < slot_for(s, id) ==> s[i].id <= id,
        slot_for(s, id) < s.len() ==> s[slot_for(s, id)].id > id,
    decreases s.len(),
{
    if s.len() == 0 || s[0].id > id {
    } else {
        let rest = s.drop_first();
        lemma_slot_for(rest, id);
        assert forall|i: int| 0 <= i < slot_for(s, id) implies s[i].id <= id by {
            if i > 0 {
                assert(s[i] == rest[i - 1]);
            }
        }
        if slot_for(s, id) < s.len() {
            assert(s[slot_for(s, id)] == rest[slot_for(rest, id)]);
        }
    }
}

/// Only one position qualifies as the slot.
pub proof fn lemma_slot_unique(s: Seq<DemeEntry>, id: u32, p: int)
    requires
        0 <= p <= s.len(),
        forall|i: int| 0 <= i < p ==> s[i].id <= id,
        p < s.len() ==> s[p].id > id,
    ensures
        slot_for(s, id) == p,
    decreases s.len(),
{
    if s.len() == 0 || s[0].id > id {
    } else {
        let rest = s.drop_first();
        assert forall|i: int| 0 <= i < p - 1 implies rest[i].id <= id by {
            assert(rest[i] == s[i + 1]);
        }
        if p < s.len() {
            assert(rest[p - 1] == s[p]);
        }
        lemma_slot_unique(rest, id, p - 1);
    }
}

/// Placing an individual keeps an ascending sequence ascending.
pub proof fn lemma_placed_ascending(s: Seq<DemeEntry>, e: DemeEntry)
    requires
        ascending(s),
    ensures
        ascending(placed(s, e)),
{
    lemma_slot_for(s, e.id);
    let p = slot_for(s, e.id);
    let r = placed(s, e);
    assert forall|i: int, j: int| 0 <= i <= j < r.len() implies r[i].id <= r[j].id by {
        if j < p {
            assert(r[i] == s[i] && r[j] == s[j]);
        } else if j == p {
            if i < p {
                assert(r[i] == s[i]);
            }
        } else {
            assert(r[j] == s[j - 1]);
            assert(s[p].id <= s[j - 1].id);
            if i < p {
                assert(r[i] == s[i]);
            } else if i > p {
                assert(r[i] == s[i - 1]);
            }
        }
    }
}

/// Placing an individual whose trait is in bounds keeps all traits in bounds.
pub proof fn lemma_placed_in_bounds(s: Seq<DemeEntry>, e: DemeEntry)
    requires
        all_in_bounds(s),
        in_bounds(e.ru),
    ensures
        all_in_bounds(placed(s, e)),
{
    lemma_slot_for(s, e.id);
    let p = slot_for(s, e.id);
    let r = placed(s, e);
    assert forall|i: int| 0 <= i < r.len() implies in_bounds(#[trigger] r[i].ru) by {
        if i < p {
            assert(r[i] == s[i]);
        } else if i > p {
            assert(r[i] == s[i - 1]);
        }
    }
}

/// Merging loses and makes nobody, and keeps the order and the bounds: the
/// result holds the individuals of both sequences, an ascending base stays
/// ascending, and traits in bounds stay so.
pub proof fn lemma_merged(base: Seq<DemeEntry>, incoming: Seq<DemeEntry>)
    ensures
        merged(base, incoming).len() == base.len() + incoming.len(),
        merged(base, incoming).to_multiset() == base.to_multiset().add(incoming.to_multiset()),
        ascending(base) ==> ascending(merged(base, incoming)),
        all_in_bounds(base) && all_in_bounds(incoming) ==> all_in_bounds(merged(base, incoming)),
    decreases incoming.len(),
{
    broadcast use vstd::seq_lib::group_to_multiset_ensures;

    if incoming.len() == 0 {
        assert(merged(base, incoming).to_multiset() =~= base.to_multiset().add(
            incoming.to_multiset(),
        ));
    } else {
        let before = merged(base, incoming.drop_last());
        lemma_merged(base, incoming.drop_last());
        lemma_slot_for(before, incoming.last().id);
        assert(incoming == incoming.drop_last().push(incoming.last()));
        assert(merged(base, incoming).to_multiset() =~= base.to_multiset().add(
            incoming.to_multiset(),
        ));
        if ascending(base) {
            lemma_placed_ascending(before, incoming.last());
        }
        if all_in_bounds(base) && all_in_bounds(incoming) {
            assert forall|i: int| 0 <= i < incoming.drop_last().len() implies in_bounds(
                #[trigger] incoming.drop_last()[i].ru,
            ) by {
                assert(incoming.drop_last()[i] == incoming[i]);
            }
            lemma_placed_in_bounds(before, incoming.last());
        }
    }
}

/// The ids of `s`, front to back.
pub open spec fn ids_of(s: Seq<DemeEntry>) -> Seq<u32> {
    s.map_values(|e: DemeEntry| e.id)
}

/// Merging loses and makes no id: the ids of the result are those of both
/// sequences, each as often as it occurs there.
pub proof fn lemma_merged_ids(base: Seq<DemeEntry>, incoming: Seq<DemeEntry>)
    ensures
        ids_of(merged(base, incoming)).to_multiset() == ids_of(base).to_multiset().add(
            ids_of(incoming).to_multiset(),
        ),
    decreases incoming.len(),
{
    broadcast use vstd::seq_lib::group_to_multiset_ensures;

    if incoming.len() > 0 {
        let front = incoming.drop_last();
        let last = incoming.last();
        let before = merged(base, front);
        lemma_merged_ids(base, front);
        lemma_slot_for(before, last.id);
        assert(ids_of(placed(before, last)) =~= ids_of(before).insert(
            slot_for(before, last.id),
            last.id,
        ));
        assert(ids_of(incoming) =~= ids_of(front).push(last.id));
    }
    assert(ids_of(merged(base, incoming)).to_multiset() =~= ids_of(base).to_multiset().add(
        ids_of(incoming).to_multiset(),
    ));
}

/// Merging one more individual is merging the others and then placing it.
pub proof fn lemma_merged_push(base: Seq<DemeEntry>, incoming: Seq<DemeEntry>, e: DemeEntry)
    ensures
        merged(base, incoming.push(e)) == placed(merged(base, incoming), e),
{
    assert(incoming.push(e).drop_last() == incoming);
}

/// The position at which `id` is placed among `entries`.
pub fn find_slot(entries: &Vec<DemeEntry>, id: u32) -> (p: usize)
    ensures
        p == slot_for(entries@, id),
{
    let mut p: usize = 0;
    while p < entries.len() && entries[p].id <= id
        invariant
            p <= entries.len(),
            forall|i: int| 0 <= i < p ==> entries[i].id <= id,
        decreases entries.len() - p,
    {
        p += 1;
    }
    proof {
        lemma_slot_unique(entries@, id, p as int);
    }
    p
}

/// Sorting loses and makes nobody, and its result ascends by id.
pub proof fn lemma_sorted(s: Seq<DemeEntry>)
    ensures
        sorted(s).len() == s.len(),
        sorted(s).to_multiset() == s.to_multiset(),
        ascending(sorted(s)),
        all_in_bounds(s) ==> all_in_bounds(sorted(s)),
{
    broadcast use vstd::seq_lib::group_to_multiset_ensures;

    lemma_merged(Seq::empty(), s);
    assert(sorted(s).to_multiset() =~= s.to_multiset());
}

/// The individuals of `entries` in ascending order of id, equal ids in the
/// order in which `entries` holds them.
pub fn sort_by_id(entries: &Vec<DemeEntry>) -> (out: Vec<DemeEntry>)
    ensures
        out@ == sorted(entries@),
        out.len() == entries.len(),
        out@.to_multiset() == entries@.to_multiset(),
        ascending(out@),
{
    let mut out: Vec<DemeEntry> = Vec::new();
    let mut k: usize = 0;
    while k < entries.len()
        invariant
            k <= entries.len(),
            out@ == sorted(entries@.take(k as int)),
        decreases entries.len() - k,
    {
        let e = entries[k];
        let p = find_slot(&out, e.id);
        proof {
            lemma_slot_for(out@, e.id);
            assert(entries@.take(k + 1) == entries@.take(k as int).push(e));
            lemma_merged_push(Seq::empty(), entries@.take(k as int), e);
        }
        out.insert(p, e);
        k += 1;
    }
    proof {
        assert(entries@.take(k as int) == entries@);
        lemma_sorted(entries@);
    }
    out
}

} // verus!
