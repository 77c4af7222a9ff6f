//! Price levels kept by price, one level to a price.
use crate::orderbook::{levels_equal, same_levels, Level};
use vstd::prelude::*;

verus! {

/// The levels of a list by the value of their price. Of levels at one price the last stands.
pub open spec fn by_price(s: Seq<Level>) -> Map<int, Level>
    decreases s.len(),
{
    if s.len() == 0 {
        Map::empty()
    } else {
        by_price(s.drop_last()).insert(s.last().price.value(), s.last())
    }
}

/// Whether prices rise along a list, so that no price occurs twice.
pub open spec fn strictly_ascending(s: Seq<Level>) -> bool {
    forall|i: int, j: int| 0 <= i < j < s.len() ==> s[i].price.value() < s[j].price.value()
}

/// The levels that hold an amount.
pub open spec fn live(m: Map<int, Level>) -> Map<int, Level> {
    m.filter_keys(|k: int| m[k].amount.value() != 0)
}

/// The prices above `price`.
pub open spec fn above(m: Map<int, Level>, price: int) -> Set<int> {
    m.dom().filter(|k: int| k > price)
}

/// The prices below `price`.
pub open spec fn below(m: Map<int, Level>, price: int) -> Set<int> {
    m.dom().filter(|k: int| k < price)
}

/// The `depth` levels with the highest prices: those with fewer than `depth` prices above them.
pub open spec fn keep_top(m: Map<int, Level>, depth: nat) -> Map<int, Level> {
    m.filter_keys(|k: int| above(m, k).len() < depth)
}

/// The `depth` levels with the lowest prices: those with fewer than `depth` prices below them.
pub open spec fn keep_bottom(m: Map<int, Level>, depth: nat) -> Map<int, Level> {
    m.filter_keys(|k: int| below(m, k).len() < depth)
}

/// Whether some level of a list has this price.
pub open spec fn has_price(s: Seq<Level>, price: int) -> bool {
    exists|i: int| 0 <= i < s.len() && (#[trigger] s[i]).price.value() == price
}

/// The prices of [`by_price`] are those of the list.
pub proof fn lemma_prices(s: Seq<Level>, k: int)
    ensures
        by_price(s).dom().contains(k) <==> has_price(s, k),
    decreases s.len(),
{
    if s.len() > 0 {
        let front = s.drop_last();
        lemma_prices(front, k);
        if has_price(front, k) {
            let i = choose|i: int| 0 <= i < front.len() && (#[trigger] front[i]).price.value() == k;
            assert(s[i].price.value() == k);
        }
        if has_price(s, k) && k != s.last().price.value() {
            let i = choose|i: int| 0 <= i < s.len() && (#[trigger] s[i]).price.value() == k;
            assert(front[i].price.value() == k);
        }
        if k == s.last().price.value() {
            assert(s[s.len() - 1].price.value() == k);
        }
    }
}

/// In a strictly ascending list every level is found by its price.
pub proof fn lemma_found(s: Seq<Level>, i: int)
    requires
        strictly_ascending(s),
        0 <= i < s.len(),
    ensures
        by_price(s).dom().contains(s[i].price.value()),
        by_price(s)[s[i].price.value()] == s[i],
    decreases s.len(),
{
    if i < s.len() - 1 {
        assert(strictly_ascending(s.drop_last()));
        lemma_found(s.drop_last(), i);
        assert(s[i].price.value() < s[s.len() - 1].price.value());
    }
}

/// The index at which a price stands in a list.
pub proof fn lemma_place(s: Seq<Level>, k: int) -> (i: int)
    requires
        by_price(s).dom().contains(k),
    ensures
        0 <= i < s.len(),
        s[i].price.value() == k,
{
    lemma_prices(s, k);
    choose|i: int| 0 <= i < s.len() && (#[trigger] s[i]).price.value() == k
}

/// One more level at the end of a list.
proof fn lemma_by_price_push(s: Seq<Level>, level: Level)
    ensures
        by_price(s.push(level)) == by_price(s).insert(level.price.value(), level),
{
    assert(s.push(level).drop_last() =~= s);
}

/// Puts a level into an ascending list, in the place of the level that has its price.
fn put(entries: &mut Vec<Level>, level: Level)
    requires
        strictly_ascending(old(entries)@),
    ensures
        strictly_ascending(final(entries)@),
        by_price(final(entries)@) == by_price(old(entries)@).insert(level.price.value(), level),
{
    let ghost before = entries@;
    let mut at: usize = 0;
    while at < entries.len() && entries[at].price < level.price
        invariant
            at <= entries.len(),
            entries@ == before,
            forall|j: int| 0 <= j < at ==> (#[trigger] before[j]).price.value()
                < level.price.value(),
        decreases entries.len() - at,
    {
        at += 1;
    }
    if at < entries.len() && entries[at].price == level.price {
        entries.set(at, level);
        proof {
            let after = before.update(at as int, level);
            lemma_put(before, after, at as int, level);
        }
    } else {
        entries.insert(at, level);
        proof {
            let after = before.insert(at as int, level);
            lemma_put(before, after, at as int, level);
        }
    }
}

/// What [`put`] does to the levels by price.
proof fn lemma_put(before: Seq<Level>, after: Seq<Level>, at: int, level: Level)
    requires
        strictly_ascending(before),
        0 <= at <= before.len(),
        forall|j: int| 0 <= j < at ==> (#[trigger] before[j]).price.value() < level.price.value(),
        ({
            ||| at < before.len() && before[at].price.value() == level.price.value() && after
                == before.update(at, level)
            ||| (at == before.len() || before[at].price.value() > level.price.value()) && after
                == before.insert(at, level)
        }),
    ensures
        strictly_ascending(after),
        by_price(after) == by_price(before).insert(level.price.value(), level),
{
    let key = level.price.value();
    let wanted = by_price(before).insert(key, level);
    assert(strictly_ascending(after));
    assert forall|k: int| #[trigger] by_price(after).dom().contains(k) implies wanted.dom().contains(
        k,
    ) && by_price(after)[k] == wanted[k] by {
        let i = lemma_place(after, k);
        lemma_found(after, i);
        if i != at {
            let i2: int = if after.len() == before.len() || i < at { i } else { i - 1 };
            assert(before[i2] == after[i]);
            lemma_found(before, i2);
            assert(after[i].price.value() != after[at].price.value());
        }
    }
    assert forall|k: int| #[trigger] wanted.dom().contains(k) implies by_price(
        after,
    ).dom().contains(k) by {
        if k == key {
            lemma_found(after, at);
        } else {
            let i = lemma_place(before, k);
            let i2: int = if after.len() == before.len() || i < at { i } else { i + 1 };
            assert(before[i] == after[i2]);
            lemma_found(after, i2);
        }
    }
    assert(by_price(after) =~= wanted);
}

/// The price of a level.
pub open spec fn price_value() -> spec_fn(Level) -> int {
    |l: Level| l.price.value()
}

/// How many prices stand above and below a level of an ascending list.
proof fn lemma_ranks(s: Seq<Level>, i: int)
    requires
        strictly_ascending(s),
        0 <= i < s.len(),
    ensures
        above(by_price(s), s[i].price.value()).len() == s.len() - 1 - i,
        below(by_price(s), s[i].price.value()).len() == i,
{
    let m = by_price(s);
    let key = s[i].price.value();
    let upper = s.skip(i + 1).map_values(price_value());
    let lower = s.take(i).map_values(price_value());
    assert(upper.no_duplicates());
    assert(lower.no_duplicates());
    upper.unique_seq_to_set();
    lower.unique_seq_to_set();
    assert forall|k: int| above(m, key).contains(k) <==> upper.to_set().contains(k) by {
        if above(m, key).contains(k) {
            let j = lemma_place(s, k);
            assert(j > i);
            assert(upper[j - i - 1] == k);
        }
        if upper.contains(k) {
            let j = choose|j: int| 0 <= j < upper.len() && upper[j] == k;
            assert(s[i + 1 + j].price.value() == k);
            lemma_found(s, i + 1 + j);
        }
    }
    assert forall|k: int| below(m, key).contains(k) <==> lower.to_set().contains(k) by {
        if below(m, key).contains(k) {
            let j = lemma_place(s, k);
            assert(j < i);
            assert(lower[j] == k);
        }
        if lower.contains(k) {
            let j = choose|j: int| 0 <= j < lower.len() && lower[j] == k;
            assert(s[j].price.value() == k);
            lemma_found(s, j);
        }
    }
    assert(above(m, key) =~= upper.to_set());
    assert(below(m, key) =~= lower.to_set());
}

/// An ascending list is determined by its levels by price.
pub proof fn law_ascending_lists_are_determined(s: Seq<Level>, t: Seq<Level>)
    requires
        strictly_ascending(s),
        strictly_ascending(t),
        by_price(s) == by_price(t),
    ensures
        s == t,
{
    assert forall|i: int| 0 <= i < s.len() implies i < t.len() && s[i] == t[i] by {
        lemma_found(s, i);
        let j = lemma_place(t, s[i].price.value());
        lemma_found(t, j);
        lemma_ranks(s, i);
        lemma_ranks(t, j);
    }
    if s.len() < t.len() {
        let j = t.len() - 1;
        lemma_found(t, j);
        let i = lemma_place(s, t[j].price.value());
        lemma_ranks(s, i);
        lemma_ranks(t, j);
    }
    if t.len() < s.len() {
        assert(s[s.len() - 1] == t[s.len() - 1]);
    }
    assert(s =~= t);
}

/// A part of an ascending list, by price: the levels that stand within it.
proof fn lemma_part(s: Seq<Level>, from: int, to: int)
    requires
        strictly_ascending(s),
        0 <= from <= to <= s.len(),
    ensures
        strictly_ascending(s.subrange(from, to)),
        forall|i: int|
            0 <= i < s.len() ==> (by_price(s.subrange(from, to)).dom().contains(
                (#[trigger] s[i]).price.value(),
            ) <==> from <= i < to),
        by_price(s.subrange(from, to)).submap_of(by_price(s)),
{
    let part = s.subrange(from, to);
    assert(strictly_ascending(part));
    assert forall|i: int| 0 <= i < s.len() implies (by_price(part).dom().contains(
        (#[trigger] s[i]).price.value(),
    ) <==> from <= i < to) by {
        if from <= i < to {
            assert(part[i - from] == s[i]);
            lemma_found(part, i - from);
        }
        if by_price(part).dom().contains(s[i].price.value()) {
            let j = lemma_place(part, s[i].price.value());
            assert(part[j] == s[from + j]);
            if i != from + j {
                assert(s[i].price.value() != s[from + j].price.value());
            }
        }
    }
    assert forall|k: int| #[trigger] by_price(part).dom().contains(k) implies by_price(
        s,
    ).dom().contains(k) && by_price(s)[k] == by_price(part)[k] by {
        let j = lemma_place(part, k);
        lemma_found(part, j);
        assert(part[j] == s[from + j]);
        lemma_found(s, from + j);
    }
}

/// The last `depth` levels of an ascending list are those with the highest prices.
proof fn lemma_top(s: Seq<Level>, depth: nat)
    requires
        strictly_ascending(s),
    ensures
        depth <= s.len() ==> by_price(s.subrange(s.len() - depth, s.len() as int)) == keep_top(
            by_price(s),
            depth,
        ),
        depth >= s.len() ==> by_price(s) == keep_top(by_price(s), depth),
{
    let from: int = if depth <= s.len() { s.len() - depth } else { 0 };
    let part = s.subrange(from, s.len() as int);
    let kept = keep_top(by_price(s), depth);
    lemma_part(s, from, s.len() as int);
    assert forall|k: int| #[trigger] by_price(s).dom().contains(k) implies (by_price(
        part,
    ).dom().contains(k) <==> kept.dom().contains(k)) by {
        let i = lemma_place(s, k);
        lemma_ranks(s, i);
    }
    assert(by_price(part) =~= kept);
    if from == 0 {
        assert(part =~= s);
    }
}

/// The first `depth` levels of an ascending list are those with the lowest prices.
proof fn lemma_bottom(s: Seq<Level>, depth: nat)
    requires
        strictly_ascending(s),
    ensures
        depth <= s.len() ==> by_price(s.subrange(0, depth as int)) == keep_bottom(
            by_price(s),
            depth,
        ),
        depth >= s.len() ==> by_price(s) == keep_bottom(by_price(s), depth),
{
    let to: int = if depth <= s.len() { depth as int } else { s.len() as int };
    let part = s.subrange(0, to);
    let kept = keep_bottom(by_price(s), depth);
    lemma_part(s, 0, to);
    assert forall|k: int| #[trigger] by_price(s).dom().contains(k) implies (by_price(
        part,
    ).dom().contains(k) <==> kept.dom().contains(k)) by {
        let i = lemma_place(s, k);
        lemma_ranks(s, i);
    }
    assert(by_price(part) =~= kept);
    if to == s.len() {
        assert(part =~= s);
    }
}

/// The levels of a list from index `from` on, up to but without `to`.
pub fn part_of(levels: &Vec<Level>, from: usize, to: usize) -> (part: Vec<Level>)
    requires
        from <= to <= levels.len(),
    ensures
        part@ == levels@.subrange(from as int, to as int),
{
    let mut part: Vec<Level> = Vec::new();
    let mut i: usize = from;
    while i < to
        invariant
            from <= i <= to <= levels.len(),
            part@ == levels@.subrange(from as int, i as int),
        decreases to - i,
    {
        part.push(levels[i]);
        i += 1;
    }
    part
}

/// Drops the levels of an ascending list that hold no amount.
fn without_empty(entries: &Vec<Level>) -> (kept: Vec<Level>)
    requires
        strictly_ascending(entries@),
    ensures
        strictly_ascending(kept@),
        by_price(kept@) == live(by_price(entries@)),
{
    let mut kept: Vec<Level> = Vec::new();
    let mut i: usize = 0;
    proof {
        assert(entries@.take(0) =~= Seq::empty());
        assert(live(by_price(entries@.take(0))) =~= by_price(kept@));
    }
    while i < entries.len()
        invariant
            i <= entries.len(),
            strictly_ascending(entries@),
            strictly_ascending(kept@),
            by_price(kept@) == live(by_price(entries@.take(i as int))),
            forall|j: int, t: int|
                0 <= j < kept.len() && i <= t < entries.len() ==> (#[trigger]
                kept[j]).price.value() < (#[trigger] entries[t]).price.value(),
        decreases entries.len() - i,
    {
        let level = entries[i];
        let ghost done = entries@.take(i as int);
        let ghost key = level.price.value();
        proof {
            assert(entries@.take(i + 1) =~= done.push(level));
            lemma_by_price_push(done, level);
            lemma_by_price_push(kept@, level);
            if by_price(done).dom().contains(key) {
                let j = lemma_place(done, key);
                assert(entries@[j].price.value() < entries@[i as int].price.value());
            }
        }
        if !level.amount.is_zero() {
            kept.push(level);
        }
        proof {
            let next = by_price(done).insert(key, level);
            if level.amount.value() != 0 {
                assert(live(next) =~= live(by_price(done)).insert(key, level));
            } else {
                assert(live(next) =~= live(by_price(done)));
            }
        }
        i += 1;
    }
    proof {
        assert(entries@.take(entries.len() as int) =~= entries@);
    }
    kept
}

/// Price levels by price, in ascending order of their prices, with one level to a price.
#[derive(Debug)]
pub struct LevelsMap {
    entries: Vec<Level>,
}

impl View for LevelsMap {
    type V = Seq<Level>;

    closed spec fn view(&self) -> Seq<Level> {
        self.entries@
    }
}

impl LevelsMap {
    /// Whether the levels stand in ascending order of their prices, as they always do.
    #[verifier::type_invariant]
    pub open spec fn ascending(self) -> bool {
        strictly_ascending(self@)
    }

    /// The levels by the value of their price.
    pub open spec fn by_price(self) -> Map<int, Level> {
        by_price(self@)
    }

    /// A map without levels.
    pub fn new() -> (m: LevelsMap)
        ensures
            m@ == Seq::<Level>::empty(),
    {
        LevelsMap { entries: Vec::new() }
    }

    /// The levels of a list by price. Of levels at one price the last stands.
    pub fn from_levels(levels: Vec<Level>) -> (m: LevelsMap)
        ensures
            strictly_ascending(m@),
            m.by_price() == by_price(levels@),
    {
        let mut entries: Vec<Level> = Vec::new();
        let mut i: usize = 0;
        proof {
            assert(levels@.take(0) =~= entries@);
        }
        while i < levels.len()
            invariant
                i <= levels.len(),
                strictly_ascending(entries@),
                by_price(entries@) == by_price(levels@.take(i as int)),
            decreases levels.len() - i,
        {
            put(&mut entries, levels[i]);
            proof {
                assert(levels@.take(i + 1) =~= levels@.take(i as int).push(levels@[i as int]));
                lemma_by_price_push(levels@.take(i as int), levels@[i as int]);
            }
            i += 1;
        }
        proof {
            assert(levels@.take(levels.len() as int) =~= levels@);
        }
        LevelsMap { entries }
    }

    /// How many levels there are.
    pub fn len(&self) -> (n: usize)
        ensures
            n == self@.len(),
    {
        self.entries.len()
    }

    /// The levels, in ascending order of their prices.
    pub fn values(&self) -> (levels: &Vec<Level>)
        ensures
            levels@ == self@,
            strictly_ascending(levels@),
    {
        proof {
            use_type_invariant(self);
        }
        &self.entries
    }

    /// The levels of this map and of `other`. At a price that both have, that of `other` stands.
    fn extended(&self, other: &LevelsMap) -> (entries: Vec<Level>)
        ensures
            strictly_ascending(entries@),
            by_price(entries@) == self.by_price().union_prefer_right(other.by_price()),
    {
        proof {
            use_type_invariant(self);
        }
        let mut entries: Vec<Level> = part_of(&self.entries, 0, self.entries.len());
        let mut i: usize = 0;
        proof {
            assert(entries@ =~= self@);
            assert(other@.take(0) =~= Seq::empty());
            assert(by_price(self@).union_prefer_right(by_price(other@.take(0))) =~= by_price(self@));
        }
        while i < other.entries.len()
            invariant
                i <= other.entries.len(),
                strictly_ascending(entries@),
                by_price(entries@) == by_price(self@).union_prefer_right(
                    by_price(other@.take(i as int)),
                ),
            decreases other.entries.len() - i,
        {
            let level = other.entries[i];
            put(&mut entries, level);
            proof {
                let done = other@.take(i as int);
                assert(other@.take(i + 1) =~= done.push(level));
                lemma_by_price_push(done, level);
                assert(by_price(self@).union_prefer_right(by_price(done.push(level))) =~= by_price(
                    self@,
                ).union_prefer_right(by_price(done)).insert(level.price.value(), level));
            }
            i += 1;
        }
        proof {
            assert(other@.take(other@.len() as int) =~= other@);
        }
        entries
    }

    /// Takes in the levels of `other`, drops those that hold no amount, and keeps the `depth`
    /// entries with the highest prices (best bids = highest price).
    pub fn extend_and_keep_top(&mut self, other: LevelsMap, depth: usize)
        ensures
            strictly_ascending(final(self)@),
            final(self)@.len() <= depth,
            final(self).by_price() == keep_top(
                live(old(self).by_price().union_prefer_right(other.by_price())),
                depth as nat,
            ),
    {
        let entries = without_empty(&self.extended(&other));
        let len: usize = entries.len();
        proof {
            lemma_top(entries@, depth as nat);
        }
        if len > depth {
            proof {
                lemma_part(entries@, len - depth, len as int);
            }
            let kept = part_of(&entries, len - depth, len);
            *self = LevelsMap { entries: kept };
        } else {
            *self = LevelsMap { entries };
        }
    }

    /// Takes in the levels of `other`, drops those that hold no amount, and keeps the `depth`
    /// entries with the lowest prices (best asks = lowest price).
    pub fn extend_and_keep_bottom(&mut self, other: LevelsMap, depth: usize)
        ensures
            strictly_ascending(final(self)@),
            final(self)@.len() <= depth,
            final(self).by_price() == keep_bottom(
                live(old(self).by_price().union_prefer_right(other.by_price())),
                depth as nat,
            ),
    {
        let entries = without_empty(&self.extended(&other));
        let len: usize = entries.len();
        proof {
            lemma_bottom(entries@, depth as nat);
        }
        if len > depth {
            proof {
                lemma_part(entries@, 0, depth as int);
            }
            let kept = part_of(&entries, 0, depth);
            *self = LevelsMap { entries: kept };
        } else {
            *self = LevelsMap { entries };
        }
    }
}

impl PartialEq for LevelsMap {
    fn eq(&self, other: &LevelsMap) -> (r: bool) {
        levels_equal(&self.entries, &other.entries)
    }
}

impl vstd::std_specs::cmp::PartialEqSpecImpl for LevelsMap {
    open spec fn obeys_eq_spec() -> bool {
        true
    }

    open spec fn eq_spec(&self, other: &LevelsMap) -> bool {
        same_levels(self@, other@)
    }
}

} // verus!
