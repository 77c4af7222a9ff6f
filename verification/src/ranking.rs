//! Sorting price levels and merging sorted lists.
use crate::levels_map::LevelsMap;
use crate::orderbook::Level;
use vstd::prelude::*;

verus! {

/// Whether a list holds levels of one side only.
pub open spec fn one_sided(s: Seq<Level>) -> bool {
    forall|i: int, j: int| 0 <= i < s.len() && 0 <= j < s.len() ==> s[i].side == s[j].side
}

/// Whether prices never fall along a list.
pub open spec fn price_sorted(s: Seq<Level>) -> bool {
    forall|i: int, j: int|
        0 <= i <= j < s.len() ==> s[i].price.value() <= s[j].price.value()
}

/// Whether no level of a list is greater than a later one.
pub open spec fn order_sorted(s: Seq<Level>) -> bool {
    forall|i: int, j: int|
        0 <= i <= j < s.len() ==> !(#[trigger] s[i]).exceeds(#[trigger] s[j])
}

/// Whether `sorted` holds the levels of `all`, each as often as `all` does, in ascending order.
///
/// Levels that compare as equal may stand in either order. The order of levels is one order for
/// bids and another for asks: a list that mixes them is sorted by price alone.
pub open spec fn is_sorting_of(sorted: Seq<Level>, all: Seq<Level>) -> bool {
    &&& sorted.to_multiset() == all.to_multiset()
    &&& price_sorted(sorted)
    &&& one_sided(all) ==> order_sorted(sorted)
}

/// A list and a permutation of it hold levels of the same sides.
pub proof fn lemma_permutation_one_sided(a: Seq<Level>, b: Seq<Level>)
    requires
        a.to_multiset() == b.to_multiset(),
        one_sided(a),
    ensures
        one_sided(b),
{
    broadcast use vstd::seq_lib::group_to_multiset_ensures;

    assert forall|i: int, j: int| 0 <= i < b.len() && 0 <= j < b.len() implies b[i].side
        == b[j].side by {
        assert(b.contains(b[i]) && b.contains(b[j]));
        assert(a.to_multiset().count(b[i]) > 0 && a.to_multiset().count(b[j]) > 0);
        assert(a.contains(b[i]) && a.contains(b[j]));
    }
}

/// A sorted list is merged with another list: the result sorts all that went into the two.
pub proof fn lemma_merged(first: Seq<Level>, all: Seq<Level>, more: Seq<Level>, merged: Seq<Level>)
    requires
        is_sorting_of(first, all),
        is_sorting_of(merged, first + more),
    ensures
        is_sorting_of(merged, all + more),
{
    vstd::seq_lib::lemma_multiset_commutative(first, more);
    vstd::seq_lib::lemma_multiset_commutative(all, more);
    if one_sided(all + more) {
        lemma_permutation_one_sided(all + more, first + more);
    }
}

/// A sorted list holds the levels that went into it.
pub proof fn lemma_sorting_contains(sorted: Seq<Level>, all: Seq<Level>)
    requires
        is_sorting_of(sorted, all),
    ensures
        sorted.len() == all.len(),
        forall|l: Level| sorted.contains(l) <==> all.contains(l),
{
    broadcast use vstd::seq_lib::group_to_multiset_ensures;

    assert forall|l: Level| sorted.contains(l) <==> all.contains(l) by {
        assert(sorted.contains(l) <==> sorted.to_multiset().count(l) > 0);
        assert(all.contains(l) <==> all.to_multiset().count(l) > 0);
    }
    assert(sorted.to_multiset().len() == sorted.len() && all.to_multiset().len() == all.len());
}

/// Puts a level into a sorted list, behind the levels that are not greater.
fn insert_sorted(levels: &mut Vec<Level>, level: Level)
    requires
        price_sorted(old(levels)@),
        one_sided(old(levels)@) ==> order_sorted(old(levels)@),
    ensures
        final(levels)@.to_multiset() == old(levels)@.to_multiset().insert(level),
        price_sorted(final(levels)@),
        one_sided(final(levels)@) ==> order_sorted(final(levels)@),
{
    let ghost before = levels@;
    let mut at: usize = 0;
    while at < levels.len() && !(levels[at] > level)
        invariant
            at <= levels.len(),
            levels@ == before,
            forall|j: int| 0 <= j < at ==> !(#[trigger] before[j]).exceeds(level),
        decreases levels.len() - at,
    {
        at += 1;
    }
    levels.insert(at, level);
    proof {
        let after = before.insert(at as int, level);
        vstd::seq_lib::to_multiset_insert(before, at as int, level);
        assert forall|i: int, j: int| 0 <= i <= j < after.len() implies after[i].price.value()
            <= after[j].price.value() by {
            if i < at {
                assert(!before[i].exceeds(level));
            }
        }
        if one_sided(after) {
            assert forall|i: int, j: int| 0 <= i < before.len() && 0 <= j < before.len() implies
                before[i].side == before[j].side by {
                let i2: int = if i < at { i } else { i + 1 };
                let j2: int = if j < at { j } else { j + 1 };
                assert(after[i2] == before[i] && after[j2] == before[j]);
            }
            assert forall|i: int, j: int| 0 <= i <= j < after.len() implies !(#[trigger]
            after[i]).exceeds(#[trigger] after[j]) by {
                assert(after[i].side == after[j].side && after[i].side == after[at as int].side);
                if i < at {
                    assert(!before[i].exceeds(level));
                }
            }
        }
    }
}

/// Sorts levels in ascending order.
pub fn sort_levels(levels: &Vec<Level>) -> (sorted: Vec<Level>)
    ensures
        is_sorting_of(sorted@, levels@),
{
    let mut sorted: Vec<Level> = Vec::new();
    let mut i: usize = 0;
    proof {
        assert(levels@.take(0) =~= sorted@);
    }
    while i < levels.len()
        invariant
            i <= levels.len(),
            sorted@.to_multiset() == levels@.take(i as int).to_multiset(),
            price_sorted(sorted@),
            one_sided(sorted@) ==> order_sorted(sorted@),
        decreases levels.len() - i,
    {
        insert_sorted(&mut sorted, levels[i]);
        proof {
            let done = levels@.take(i as int);
            assert(levels@.take(i + 1) =~= done.push(levels@[i as int]));
            vstd::seq_lib::to_multiset_build(done, levels@[i as int]);
        }
        i += 1;
    }
    proof {
        assert(levels@.take(levels.len() as int) =~= levels@);
        if one_sided(levels@) {
            lemma_permutation_one_sided(levels@, sorted@);
        }
    }
    sorted
}

/// Merging lists of levels into one sorted list.
pub trait Merge: Sized {
    fn merge(self, other: &Vec<Level>) -> Vec<Level>;

    fn merge_map(self, other: &LevelsMap) -> Vec<Level>;
}

impl Merge for Vec<Level> {
    /// The levels of both lists, sorted.
    fn merge(self, other: &Vec<Level>) -> (merged: Vec<Level>)
        ensures
            is_sorting_of(merged@, self@ + other@),
    {
        let mut levels: Vec<Level> = self;
        let mut i: usize = 0;
        while i < other.len()
            invariant
                i <= other.len(),
                levels@ == self@ + other@.take(i as int),
            decreases other.len() - i,
        {
            levels.push(other[i]);
            proof {
                assert(levels@ =~= self@ + other@.take(i + 1));
            }
            i += 1;
        }
        proof {
            assert(other@.take(other.len() as int) =~= other@);
        }
        sort_levels(&levels)
    }

    /// The levels of a list and of a map, sorted.
    fn merge_map(self, other: &LevelsMap) -> (merged: Vec<Level>)
        ensures
            is_sorting_of(merged@, self@ + other@),
    {
        self.merge(other.values())
    }
}

/// A sorted list holds the levels that went into it, each as often, and prices never fall along it.
/// Where all levels stand on one side, none is greater than a later one.
pub proof fn law_sorted_lists_are_permutations_in_order(
    sorted: Seq<Level>,
    all: Seq<Level>,
    i: int,
    j: int,
)
    requires
        is_sorting_of(sorted, all),
        0 <= i < j < sorted.len(),
    ensures
        sorted.to_multiset() == all.to_multiset(),
        sorted[i].price.value() <= sorted[j].price.value(),
        (forall|k: int, l: int|
            0 <= k < all.len() && 0 <= l < all.len() ==> (#[trigger] all[k]).side == (
            #[trigger] all[l]).side) ==> !sorted[i].exceeds(sorted[j]),
{
}

} // verus!
