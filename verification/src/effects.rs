//! What updates and merges do to the lists of levels themselves: which levels an exchange holds after
//! a tick, and which levels of the four exchanges a book shows.
use crate::decimal::{in_range, law_exact_results_are_kept, magnitude, value_of};
use crate::exchanges::{is_best, is_highest, is_lowest, Exchanges};
use crate::laws::{
    at_least_as_good, greatest, law_books_are_sorted, law_books_show_ten, law_books_show_the_best,
    lemma_by_price_finite, lemma_greatest, lemma_keep_bottom, lemma_keep_top, lemma_negated, negated,
};
use crate::levels_map::{
    above, below, by_price, keep_bottom, keep_top, law_ascending_lists_are_determined, lemma_found,
    lemma_place, lemma_prices, live,
};
use crate::orderbook::{same_levels, Exchange, InTick, Level, OutTick, Side};
use vstd::arithmetic::power::pow;
use vstd::prelude::*;
use vstd::std_specs::cmp::PartialEqSpec;

verus! {

/// Whether a level is one that a list may keep after a diff: it holds an amount, and it is either the
/// last level of the diff at its price, or a level of the list at a price that the diff does not name.
pub open spec fn is_candidate(l: Level, kept: Seq<Level>, diff: Seq<Level>) -> bool {
    &&& l.amount.value() != 0
    &&& {
        ||| exists|i: int|
            0 <= i < diff.len() && #[trigger] diff[i] == l && forall|j: int|
                i < j < diff.len() ==> (#[trigger] diff[j]).price.value() != l.price.value()
        ||| kept.contains(l) && forall|j: int|
            0 <= j < diff.len() ==> (#[trigger] diff[j]).price.value() != l.price.value()
    }
}

/// Whether `after` is what is kept of `kept` and a diff, no more than `depth` levels in ascending
/// order of their prices: nothing but candidates, and a candidate is missing only where `depth` levels
/// are kept and all of them have a better price, which is a higher one or a lower one.
pub open spec fn keeps_best(
    kept: Seq<Level>,
    diff: Seq<Level>,
    after: Seq<Level>,
    depth: nat,
    highest: bool,
) -> bool {
    &&& after.len() <= depth
    &&& forall|i: int, j: int|
        0 <= i < j < after.len() ==> (#[trigger] after[i]).price.value() < (
        #[trigger] after[j]).price.value()
    &&& forall|i: int| 0 <= i < after.len() ==> is_candidate(#[trigger] after[i], kept, diff)
    &&& forall|l: Level| #[trigger]
        is_candidate(l, kept, diff) && !after.contains(l) ==> after.len() == depth && forall|i: int|
            0 <= i < after.len() ==> if highest {
                (#[trigger] after[i]).price.value() > l.price.value()
            } else {
                after[i].price.value() < l.price.value()
            }
}

/// The level that a list has by price is the last one at that price.
proof fn lemma_last_stands(s: Seq<Level>, i: int)
    requires
        0 <= i < s.len(),
        forall|j: int| i < j < s.len() ==> (#[trigger] s[j]).price.value() != s[i].price.value(),
    ensures
        by_price(s).dom().contains(s[i].price.value()),
        by_price(s)[s[i].price.value()] == s[i],
    decreases s.len(),
{
    if i < s.len() - 1 {
        let front = s.drop_last();
        assert forall|j: int| i < j < front.len() implies (#[trigger] front[j]).price.value()
            != front[i].price.value() by {
            assert(front[j] == s[j]);
        }
        lemma_last_stands(front, i);
        assert(s[s.len() - 1].price.value() != s[i].price.value());
    }
}

/// Where the level stands that a list has by price.
proof fn lemma_where_last(s: Seq<Level>, k: int) -> (i: int)
    requires
        by_price(s).dom().contains(k),
    ensures
        0 <= i < s.len(),
        s[i].price.value() == k,
        s[i] == by_price(s)[k],
        forall|j: int| i < j < s.len() ==> (#[trigger] s[j]).price.value() != k,
    decreases s.len(),
{
    let last = s.len() - 1;
    if s[last].price.value() == k {
        last
    } else {
        let front = s.drop_last();
        let i = lemma_where_last(front, k);
        assert forall|j: int| i < j < s.len() implies (#[trigger] s[j]).price.value() != k by {
            if j < last {
                assert(front[j] == s[j]);
            }
        }
        i
    }
}

/// Candidates are what the two lists have by price, without the levels that hold no amount.
proof fn lemma_candidates(kept: Seq<Level>, diff: Seq<Level>, l: Level)
    requires
        forall|i: int, j: int|
            0 <= i < j < kept.len() ==> kept[i].price.value() < kept[j].price.value(),
    ensures
        ({
            let m = live(by_price(kept).union_prefer_right(by_price(diff)));
            is_candidate(l, kept, diff) <==> m.dom().contains(l.price.value()) && m[l.price.value()]
                == l
        }),
{
    let k = l.price.value();
    let m = live(by_price(kept).union_prefer_right(by_price(diff)));
    lemma_prices(diff, k);
    if is_candidate(l, kept, diff) {
        if exists|i: int|
            0 <= i < diff.len() && #[trigger] diff[i] == l && forall|j: int|
                i < j < diff.len() ==> (#[trigger] diff[j]).price.value() != l.price.value() {
            let i = choose|i: int|
                0 <= i < diff.len() && #[trigger] diff[i] == l && forall|j: int|
                    i < j < diff.len() ==> (#[trigger] diff[j]).price.value() != l.price.value();
            lemma_last_stands(diff, i);
        } else {
            let i = choose|i: int| 0 <= i < kept.len() && kept[i] == l;
            lemma_found(kept, i);
            assert(!by_price(diff).dom().contains(k));
        }
    }
    if m.dom().contains(k) && m[k] == l {
        if by_price(diff).dom().contains(k) {
            let i = lemma_where_last(diff, k);
            assert(diff[i] == l);
        } else {
            let i = lemma_place(kept, k);
            lemma_found(kept, i);
            assert(kept[i] == l);
            assert forall|j: int| 0 <= j < diff.len() implies (#[trigger] diff[j]).price.value()
                != k by {
                assert(!crate::levels_map::has_price(diff, k));
            }
        }
    }
}

/// An ascending list has as many prices as levels.
proof fn lemma_as_many_prices(s: Seq<Level>)
    requires
        forall|i: int, j: int| 0 <= i < j < s.len() ==> s[i].price.value() < s[j].price.value(),
    ensures
        by_price(s).dom().finite(),
        by_price(s).dom().len() == s.len(),
    decreases s.len(),
{
    lemma_by_price_finite(s);
    if s.len() > 0 {
        let front = s.drop_last();
        let k = s.last().price.value();
        lemma_as_many_prices(front);
        if by_price(front).dom().contains(k) {
            let i = lemma_place(front, k);
            assert(s[i].price.value() < s[s.len() - 1].price.value());
        }
        assert(by_price(s).dom() =~= by_price(front).dom().insert(k));
    }
}

/// The candidates are finitely many.
proof fn lemma_finitely_many(kept: Seq<Level>, diff: Seq<Level>)
    ensures
        live(by_price(kept).union_prefer_right(by_price(diff))).dom().finite(),
{
    lemma_by_price_finite(kept);
    lemma_by_price_finite(diff);
    let all = by_price(kept).dom().union(by_price(diff).dom());
    let m = live(by_price(kept).union_prefer_right(by_price(diff)));
    assert(m.dom().subset_of(all));
    vstd::set_lib::lemma_set_subset_finite(all, m.dom());
}

/// Extending a list of levels by a diff and keeping the highest prices keeps the best bids.
pub proof fn law_top_keeps_the_best(
    kept: Seq<Level>,
    diff: Seq<Level>,
    after: Seq<Level>,
    depth: nat,
)
    requires
        forall|i: int, j: int|
            0 <= i < j < kept.len() ==> kept[i].price.value() < kept[j].price.value(),
        forall|i: int, j: int|
            0 <= i < j < after.len() ==> after[i].price.value() < after[j].price.value(),
        by_price(after) == keep_top(
            live(by_price(kept).union_prefer_right(by_price(diff))),
            depth,
        ),
    ensures
        keeps_best(kept, diff, after, depth, true),
{
    let m = live(by_price(kept).union_prefer_right(by_price(diff)));
    lemma_finitely_many(kept, diff);
    lemma_as_many_prices(after);
    lemma_keep_top(m, depth);
    lemma_greatest(m.dom(), depth);
    assert forall|i: int| 0 <= i < after.len() implies is_candidate(
        #[trigger] after[i],
        kept,
        diff,
    ) by {
        lemma_found(after, i);
        lemma_candidates(kept, diff, after[i]);
    }
    assert forall|l: Level| #[trigger]
        is_candidate(l, kept, diff) && !after.contains(l) implies after.len() == depth && forall|
        i: int,
    | 0 <= i < after.len() ==> (#[trigger] after[i]).price.value() > l.price.value() by {
        let k = l.price.value();
        lemma_candidates(kept, diff, l);
        if by_price(after).dom().contains(k) {
            let i = lemma_place(after, k);
            lemma_found(after, i);
            assert(after[i] == l);
        }
        assert(above(m, k).len() >= depth);
        if m.dom().len() <= depth {
            assert(greatest(m.dom(), depth).contains(k));
        }
        assert forall|i: int| 0 <= i < after.len() implies (#[trigger] after[i]).price.value()
            > k by {
            let p = after[i].price.value();
            lemma_found(after, i);
            if p < k {
                assert(above(m, k).subset_of(above(m, p)));
                vstd::set_lib::lemma_set_subset_finite(m.dom(), above(m, p));
                vstd::set_lib::lemma_len_subset(above(m, k), above(m, p));
            }
        }
    }
}

/// Extending a list of levels by a diff and keeping the lowest prices keeps the best asks.
pub proof fn law_bottom_keeps_the_best(
    kept: Seq<Level>,
    diff: Seq<Level>,
    after: Seq<Level>,
    depth: nat,
)
    requires
        forall|i: int, j: int|
            0 <= i < j < kept.len() ==> kept[i].price.value() < kept[j].price.value(),
        forall|i: int, j: int|
            0 <= i < j < after.len() ==> after[i].price.value() < after[j].price.value(),
        by_price(after) == keep_bottom(
            live(by_price(kept).union_prefer_right(by_price(diff))),
            depth,
        ),
    ensures
        keeps_best(kept, diff, after, depth, false),
{
    let m = live(by_price(kept).union_prefer_right(by_price(diff)));
    lemma_finitely_many(kept, diff);
    lemma_as_many_prices(after);
    lemma_keep_bottom(m, depth);
    lemma_negated(m.dom());
    lemma_negated(by_price(after).dom());
    lemma_greatest(negated(m.dom()), depth);
    assert forall|i: int| 0 <= i < after.len() implies is_candidate(
        #[trigger] after[i],
        kept,
        diff,
    ) by {
        lemma_found(after, i);
        lemma_candidates(kept, diff, after[i]);
    }
    assert forall|l: Level| #[trigger]
        is_candidate(l, kept, diff) && !after.contains(l) implies after.len() == depth && forall|
        i: int,
    | 0 <= i < after.len() ==> (#[trigger] after[i]).price.value() < l.price.value() by {
        let k = l.price.value();
        lemma_candidates(kept, diff, l);
        if by_price(after).dom().contains(k) {
            let i = lemma_place(after, k);
            lemma_found(after, i);
            assert(after[i] == l);
        }
        assert(below(m, k).len() >= depth);
        if m.dom().len() <= depth {
            assert(negated(m.dom()).contains(-k));
            assert(greatest(negated(m.dom()), depth).contains(-k));
        }
        assert forall|i: int| 0 <= i < after.len() implies (#[trigger] after[i]).price.value()
            < k by {
            let p = after[i].price.value();
            lemma_found(after, i);
            if p > k {
                assert(below(m, k).subset_of(below(m, p)));
                vstd::set_lib::lemma_set_subset_finite(m.dom(), below(m, p));
                vstd::set_lib::lemma_len_subset(below(m, k), below(m, p));
            }
        }
    }
}

/// A tick of Bitstamp or Binance puts its own lists in the place of those of the exchange, whatever
/// they hold.
pub proof fn law_snapshots_are_taken_over(before: Exchanges, t: InTick, after: Exchanges)
    requires
        after@ == before@.updated(t@),
    ensures
        t.exchange == Exchange::Bitstamp ==> after.bitstamp.bids@ == t.bids@ && after.bitstamp.asks@
            == t.asks@,
        t.exchange == Exchange::Binance ==> after.binance.bids@ == t.bids@ && after.binance.asks@
            == t.asks@,
{
    assert(after@.bitstamp.bids == after.bitstamp.bids@);
    assert(after@.bitstamp.asks == after.bitstamp.asks@);
    assert(after@.binance.bids == after.binance.bids@);
    assert(after@.binance.asks == after.binance.asks@);
}

/// A tick of Kraken or Coinbase leaves that exchange with the ten highest bids and the ten lowest
/// asks of what it had and what the tick says.
pub proof fn law_diffs_keep_the_ten_best(before: Exchanges, t: InTick, after: Exchanges)
    requires
        before.ascending(),
        after.ascending(),
        after@ == before@.updated(t@),
    ensures
        t.exchange == Exchange::Kraken ==> keeps_best(
            before.kraken.bids@,
            t.bids@,
            after.kraken.bids@,
            10,
            true,
        ) && keeps_best(before.kraken.asks@, t.asks@, after.kraken.asks@, 10, false),
        t.exchange == Exchange::Coinbase ==> keeps_best(
            before.coinbase.bids@,
            t.bids@,
            after.coinbase.bids@,
            10,
            true,
        ) && keeps_best(before.coinbase.asks@, t.asks@, after.coinbase.asks@, 10, false),
{
    if t.exchange == Exchange::Kraken {
        assert(after@.kraken.bids == by_price(after.kraken.bids@));
        assert(after@.kraken.asks == by_price(after.kraken.asks@));
        law_top_keeps_the_best(before.kraken.bids@, t.bids@, after.kraken.bids@, 10);
        law_bottom_keeps_the_best(before.kraken.asks@, t.asks@, after.kraken.asks@, 10);
    }
    if t.exchange == Exchange::Coinbase {
        assert(after@.coinbase.bids == by_price(after.coinbase.bids@));
        assert(after@.coinbase.asks == by_price(after.coinbase.asks@));
        law_top_keeps_the_best(before.coinbase.bids@, t.bids@, after.coinbase.bids@, 10);
        law_bottom_keeps_the_best(before.coinbase.asks@, t.asks@, after.coinbase.asks@, 10);
    }
}

/// A tick leaves the lists of every other exchange as they are.
pub proof fn law_other_exchanges_stay(before: Exchanges, t: InTick, after: Exchanges)
    requires
        before.ascending(),
        after.ascending(),
        after@ == before@.updated(t@),
    ensures
        t.exchange != Exchange::Bitstamp ==> after.bitstamp.bids@ == before.bitstamp.bids@
            && after.bitstamp.asks@ == before.bitstamp.asks@,
        t.exchange != Exchange::Binance ==> after.binance.bids@ == before.binance.bids@
            && after.binance.asks@ == before.binance.asks@,
        t.exchange != Exchange::Kraken ==> after.kraken.bids@ == before.kraken.bids@
            && after.kraken.asks@ == before.kraken.asks@,
        t.exchange != Exchange::Coinbase ==> after.coinbase.bids@ == before.coinbase.bids@
            && after.coinbase.asks@ == before.coinbase.asks@,
{
    if t.exchange != Exchange::Bitstamp {
        assert(after@.bitstamp == before@.bitstamp);
    }
    if t.exchange != Exchange::Binance {
        assert(after@.binance == before@.binance);
    }
    if t.exchange != Exchange::Kraken {
        assert(after@.kraken == before@.kraken);
        law_ascending_lists_are_determined(after.kraken.bids@, before.kraken.bids@);
        law_ascending_lists_are_determined(after.kraken.asks@, before.kraken.asks@);
    }
    if t.exchange != Exchange::Coinbase {
        assert(after@.coinbase == before@.coinbase);
        law_ascending_lists_are_determined(after.coinbase.bids@, before.coinbase.bids@);
        law_ascending_lists_are_determined(after.coinbase.asks@, before.coinbase.asks@);
    }
}

/// A new best price is always kept: where the last level that a diff has at a price holds an amount
/// and its price is better than that of every other level of the diff and of the list, it is in the
/// list afterwards.
pub proof fn law_a_new_best_price_is_kept(
    kept: Seq<Level>,
    diff: Seq<Level>,
    after: Seq<Level>,
    depth: nat,
    highest: bool,
    i: int,
)
    requires
        depth > 0,
        keeps_best(kept, diff, after, depth, highest),
        0 <= i < diff.len(),
        diff[i].amount.value() != 0,
        forall|j: int|
            0 <= j < diff.len() && j != i ==> if highest {
                (#[trigger] diff[j]).price.value() < diff[i].price.value()
            } else {
                diff[j].price.value() > diff[i].price.value()
            },
        forall|j: int|
            0 <= j < kept.len() ==> if highest {
                (#[trigger] kept[j]).price.value() < diff[i].price.value()
            } else {
                kept[j].price.value() > diff[i].price.value()
            },
    ensures
        after.contains(diff[i]),
{
    let l = diff[i];
    assert(is_candidate(l, kept, diff));
    if !after.contains(l) {
        assert(is_candidate(after[0], kept, diff));
        if kept.contains(after[0]) {
            let j = choose|j: int| 0 <= j < kept.len() && kept[j] == after[0];
            assert(kept[j].price.value() == after[0].price.value());
        } else {
            let j = choose|j: int| 0 <= j < diff.len() && #[trigger] diff[j] == after[0];
            assert(diff[j].price.value() == after[0].price.value());
        }
    }
}

/// Whether a level is one of four lists.
pub open spec fn in_one_of(
    l: Level,
    bitstamp: Seq<Level>,
    binance: Seq<Level>,
    kraken: Seq<Level>,
    coinbase: Seq<Level>,
) -> bool {
    bitstamp.contains(l) || binance.contains(l) || kraken.contains(l) || coinbase.contains(l)
}

/// Whether a bid of some exchange is in a state, over the books of the four exchanges.
pub open spec fn has_bid(e: Exchanges, l: Level) -> bool {
    in_one_of(l, e.bitstamp.bids@, e.binance.bids@, e.kraken.bids@, e.coinbase.bids@)
}

/// Whether an ask of some exchange is in a state, over the books of the four exchanges.
pub open spec fn has_ask(e: Exchanges, l: Level) -> bool {
    in_one_of(l, e.bitstamp.asks@, e.binance.asks@, e.kraken.asks@, e.coinbase.asks@)
}

/// The levels of four lists, one behind the other, are those of the four lists.
proof fn lemma_four_lists(a: Seq<Level>, b: Seq<Level>, c: Seq<Level>, d: Seq<Level>)
    ensures
        (a + b + c + d).to_multiset() == a.to_multiset().add(b.to_multiset()).add(
            c.to_multiset(),
        ).add(d.to_multiset()),
        forall|l: Level| #[trigger] (a + b + c + d).contains(l) <==> in_one_of(l, a, b, c, d),
{
    vstd::seq_lib::lemma_multiset_commutative(a, b);
    vstd::seq_lib::lemma_multiset_commutative(a + b, c);
    vstd::seq_lib::lemma_multiset_commutative(a + b + c, d);
    let all = a + b + c + d;
    assert forall|l: Level| #[trigger] all.contains(l) <==> in_one_of(l, a, b, c, d) by {
        if a.contains(l) {
            let i = choose|i: int| 0 <= i < a.len() && a[i] == l;
            assert(all[i] == l);
        }
        if b.contains(l) {
            let i = choose|i: int| 0 <= i < b.len() && b[i] == l;
            assert(all[a.len() + i] == l);
        }
        if c.contains(l) {
            let i = choose|i: int| 0 <= i < c.len() && c[i] == l;
            assert(all[a.len() + b.len() + i] == l);
        }
        if d.contains(l) {
            let i = choose|i: int| 0 <= i < d.len() && d[i] == l;
            assert(all[a.len() + b.len() + c.len() + i] == l);
        }
        if all.contains(l) {
            let i = choose|i: int| 0 <= i < all.len() && all[i] == l;
            if i < a.len() {
                assert(a[i] == l);
            } else if i < a.len() + b.len() {
                assert(b[i - a.len()] == l);
            } else if i < a.len() + b.len() + c.len() {
                assert(c[i - a.len() - b.len()] == l);
            } else {
                assert(d[i - a.len() - b.len() - c.len()] == l);
            }
        }
    }
}

/// Whether a level stands before another on a side: at a better price, or at the same price with no
/// smaller an amount.
pub open spec fn stands_before(a: Level, b: Level, side: Side) -> bool {
    ||| side == Side::Bid && a.price.value() > b.price.value()
    ||| side == Side::Ask && a.price.value() < b.price.value()
    ||| a.price.value() == b.price.value() && a.amount.value() >= b.amount.value()
}

/// Whether the price of a level is no worse than that of another.
pub open spec fn no_worse(a: Level, b: Level, side: Side) -> bool {
    ||| side == Side::Bid && a.price.value() >= b.price.value()
    ||| side == Side::Ask && a.price.value() <= b.price.value()
}

/// Whether `shown` and `rest` are a side of a book and what it leaves out of four lists: together they
/// hold the levels of the four lists, each as often as these do; up to ten are shown, and ten where
/// any is left out; and they stand in order, what is left out behind what is shown.
pub open spec fn shows_best_of(
    shown: Seq<Level>,
    rest: Seq<Level>,
    bitstamp: Seq<Level>,
    binance: Seq<Level>,
    kraken: Seq<Level>,
    coinbase: Seq<Level>,
    side: Side,
) -> bool {
    &&& shown.to_multiset().add(rest.to_multiset()) == bitstamp.to_multiset().add(
        binance.to_multiset(),
    ).add(kraken.to_multiset()).add(coinbase.to_multiset())
    &&& shown.len() <= 10
    &&& rest.len() > 0 ==> shown.len() == 10
    &&& forall|i: int, j: int|
        0 <= i < j < shown.len() ==> no_worse(#[trigger] shown[i], #[trigger] shown[j], side)
    &&& forall|i: int, j: int|
        0 <= i < shown.len() && 0 <= j < rest.len() ==> no_worse(
            #[trigger] shown[i],
            #[trigger] rest[j],
            side,
        )
    &&& (forall|l: Level| #[trigger] in_one_of(l, bitstamp, binance, kraken, coinbase) ==> l.side
        == side) ==> {
        &&& forall|i: int, j: int|
            0 <= i < j < shown.len() ==> stands_before(
                #[trigger] shown[i],
                #[trigger] shown[j],
                side,
            )
        &&& forall|i: int, j: int|
            0 <= i < shown.len() && 0 <= j < rest.len() ==> stands_before(
                #[trigger] shown[i],
                #[trigger] rest[j],
                side,
            )
    }
}

/// A side of a book shows the best of the four lists that it is merged from.
proof fn lemma_shows_best_of(
    shown: Seq<Level>,
    a: Seq<Level>,
    b: Seq<Level>,
    c: Seq<Level>,
    d: Seq<Level>,
    side: Side,
) -> (rest: Seq<Level>)
    requires
        is_best(shown, a + b + c + d, side),
    ensures
        shows_best_of(shown, rest, a, b, c, d, side),
{
    let all = a + b + c + d;
    lemma_four_lists(a, b, c, d);
    law_books_show_ten(shown, all, side);
    let rest = law_books_show_the_best(shown, all, side);
    assert forall|i: int, j: int| 0 <= i < j < shown.len() implies no_worse(
        #[trigger] shown[i],
        #[trigger] shown[j],
        side,
    ) by {
        law_books_are_sorted(shown, all, side, i, j);
    }
    assert forall|i: int, j: int| 0 <= i < shown.len() && 0 <= j < rest.len() implies no_worse(
        #[trigger] shown[i],
        #[trigger] rest[j],
        side,
    ) by {
        assert(at_least_as_good(shown[i], rest[j], side));
    }
    if forall|l: Level| #[trigger] in_one_of(l, a, b, c, d) ==> l.side == side {
        assert forall|i: int| 0 <= i < all.len() implies (#[trigger] all[i]).side == side by {
            assert(all.contains(all[i]));
        }
        assert forall|i: int, j: int| 0 <= i < j < shown.len() implies stands_before(
            #[trigger] shown[i],
            #[trigger] shown[j],
            side,
        ) by {
            law_books_are_sorted(shown, all, side, i, j);
        }
        assert forall|i: int, j: int|
            0 <= i < shown.len() && 0 <= j < rest.len() implies stands_before(
            #[trigger] shown[i],
            #[trigger] rest[j],
            side,
        ) by {
            assert(at_least_as_good(shown[i], rest[j], side));
        }
    }
    rest
}

/// The merged book shows the best bids and the best asks of the four exchanges' own books.
pub proof fn law_books_show_the_best_of_all(e: Exchanges, t: OutTick) -> (rest: (
    Seq<Level>,
    Seq<Level>,
))
    requires
        e.shows(t),
    ensures
        shows_best_of(
            t.bids@,
            rest.0,
            e.bitstamp.bids@,
            e.binance.bids@,
            e.kraken.bids@,
            e.coinbase.bids@,
            Side::Bid,
        ),
        shows_best_of(
            t.asks@,
            rest.1,
            e.bitstamp.asks@,
            e.binance.asks@,
            e.kraken.asks@,
            e.coinbase.asks@,
            Side::Ask,
        ),
{
    let bids = lemma_shows_best_of(
        t.bids@,
        e.bitstamp.bids@,
        e.binance.bids@,
        e.kraken.bids@,
        e.coinbase.bids@,
        Side::Bid,
    );
    let asks = lemma_shows_best_of(
        t.asks@,
        e.bitstamp.asks@,
        e.binance.asks@,
        e.kraken.asks@,
        e.coinbase.asks@,
        Side::Ask,
    );
    (bids, asks)
}

/// What the levels of four lists have to do with what is shown of them.
proof fn lemma_shown_or_outdone(
    l: Level,
    shown: Seq<Level>,
    rest: Seq<Level>,
    a: Seq<Level>,
    b: Seq<Level>,
    c: Seq<Level>,
    d: Seq<Level>,
    side: Side,
)
    requires
        shows_best_of(shown, rest, a, b, c, d, side),
    ensures
        shown.contains(l) ==> in_one_of(l, a, b, c, d),
        in_one_of(l, a, b, c, d) ==> shown.contains(l) || (shown.len() == 10 && forall|i: int|
            0 <= i < shown.len() ==> no_worse(#[trigger] shown[i], l, side)),
{
    broadcast use vstd::seq_lib::group_to_multiset_ensures;

    let all = a.to_multiset().add(b.to_multiset()).add(c.to_multiset()).add(d.to_multiset());
    assert(all.count(l) == a.to_multiset().count(l) + b.to_multiset().count(l)
        + c.to_multiset().count(l) + d.to_multiset().count(l));
    assert(all.count(l) == shown.to_multiset().count(l) + rest.to_multiset().count(l));
    if shown.contains(l) {
        assert(shown.to_multiset().count(l) > 0);
    }
    if in_one_of(l, a, b, c, d) && !shown.contains(l) {
        assert(rest.contains(l));
        let j = choose|j: int| 0 <= j < rest.len() && rest[j] == l;
        assert forall|i: int| 0 <= i < shown.len() implies no_worse(#[trigger] shown[i], l, side) by {
            assert(no_worse(shown[i], rest[j], side));
        }
    }
}

/// Every level of every exchange competes for a place, whichever other exchanges have sent anything:
/// it is shown unless ten levels are shown whose prices are no worse. Nothing is shown that no
/// exchange has.
pub proof fn law_every_level_competes(e: Exchanges, t: OutTick, l: Level)
    requires
        e.shows(t),
    ensures
        t.bids@.contains(l) ==> has_bid(e, l),
        t.asks@.contains(l) ==> has_ask(e, l),
        has_bid(e, l) ==> t.bids@.contains(l) || (t.bids@.len() == 10 && forall|i: int|
            0 <= i < t.bids@.len() ==> (#[trigger] t.bids@[i]).price.value() >= l.price.value()),
        has_ask(e, l) ==> t.asks@.contains(l) || (t.asks@.len() == 10 && forall|i: int|
            0 <= i < t.asks@.len() ==> (#[trigger] t.asks@[i]).price.value() <= l.price.value()),
{
    let rest = law_books_show_the_best_of_all(e, t);
    lemma_shown_or_outdone(
        l,
        t.bids@,
        rest.0,
        e.bitstamp.bids@,
        e.binance.bids@,
        e.kraken.bids@,
        e.coinbase.bids@,
        Side::Bid,
    );
    lemma_shown_or_outdone(
        l,
        t.asks@,
        rest.1,
        e.bitstamp.asks@,
        e.binance.asks@,
        e.kraken.asks@,
        e.coinbase.asks@,
        Side::Ask,
    );
    if has_bid(e, l) && !t.bids@.contains(l) {
        assert forall|i: int| 0 <= i < t.bids@.len() implies (#[trigger] t.bids@[i]).price.value()
            >= l.price.value() by {
            assert(no_worse(t.bids@[i], l, Side::Bid));
        }
    }
    if has_ask(e, l) && !t.asks@.contains(l) {
        assert forall|i: int| 0 <= i < t.asks@.len() implies (#[trigger] t.asks@[i]).price.value()
            <= l.price.value() by {
            assert(no_worse(t.asks@[i], l, Side::Ask));
        }
    }
}

/// Whether a bid of a state is no lower than any other.
pub open spec fn tops_all_bids(e: Exchanges, l: Level) -> bool {
    has_bid(e, l) && forall|m: Level| #[trigger] has_bid(e, m) ==> m.price.value()
        <= l.price.value()
}

/// Whether an ask of a state is no higher than any other.
pub open spec fn undercuts_all_asks(e: Exchanges, l: Level) -> bool {
    has_ask(e, l) && forall|m: Level| #[trigger] has_ask(e, m) ==> m.price.value()
        >= l.price.value()
}

/// The spread is the lowest ask minus the highest bid of the four exchanges: exactly, where a decimal
/// can hold that difference, and otherwise to half a unit of its last digit. Without bids or without
/// asks it is zero.
pub proof fn law_spread_of_all(e: Exchanges, t: OutTick, ask: Level, bid: Level)
    requires
        e.shows(t),
    ensures
        (forall|l: Level| !#[trigger] has_bid(e, l)) || (forall|l: Level| !#[trigger] has_ask(e, l))
            ==> t.spread.spec_mantissa() == 0 && t.spread.spec_scale() == 0
            && !t.spread.spec_negative(),
        tops_all_bids(e, bid) && undercuts_all_asks(e, ask) ==> {
            let difference = ask.price.value() - bid.price.value();
            &&& 2 * magnitude(t.spread.value() - difference) <= pow(
                10,
                (28 - t.spread.spec_scale()) as nat,
            )
            &&& forall|mantissa: i128, scale: u32|
                -79_228_162_514_264_337_593_543_950_335 <= mantissa
                    <= 79_228_162_514_264_337_593_543_950_335 && scale <= 28 && difference
                    == #[trigger] value_of(mantissa, scale) ==> t.spread.value() == difference
        },
{
    if t.bids@.len() > 0 && t.asks@.len() > 0 {
        law_every_level_competes(e, t, t.bids@[0]);
        law_every_level_competes(e, t, t.asks@[0]);
        assert(t.bids@.contains(t.bids@[0]) && t.asks@.contains(t.asks@[0]));
    }
    if tops_all_bids(e, bid) && undercuts_all_asks(e, ask) {
        lemma_first_of_book(e, t, bid, ask);
        let difference = ask.price.value() - bid.price.value();
        assert forall|mantissa: i128, scale: u32|
            -79_228_162_514_264_337_593_543_950_335 <= mantissa
                <= 79_228_162_514_264_337_593_543_950_335 && scale <= 28 && difference
                == #[trigger] value_of(mantissa, scale) implies t.spread.value() == difference by {
            law_exact_results_are_kept(difference, 1, mantissa as int, scale as int);
        }
    }
}

/// The first levels of a book have the best prices of the four exchanges.
proof fn lemma_first_of_book(e: Exchanges, t: OutTick, bid: Level, ask: Level)
    requires
        e.shows(t),
        tops_all_bids(e, bid),
        undercuts_all_asks(e, ask),
    ensures
        t.bids@.len() > 0,
        t.asks@.len() > 0,
        t.bids@[0].price.value() == bid.price.value(),
        t.asks@[0].price.value() == ask.price.value(),
{
    let rest = law_books_show_the_best_of_all(e, t);
    law_every_level_competes(e, t, bid);
    law_every_level_competes(e, t, ask);
    let first_bid = t.bids@[0];
    let first_ask = t.asks@[0];
    assert(t.bids@.len() > 0 && t.asks@.len() > 0);
    assert(t.bids@.contains(first_bid) && t.asks@.contains(first_ask));
    law_every_level_competes(e, t, first_bid);
    law_every_level_competes(e, t, first_ask);
    if t.bids@.contains(bid) {
        let i = choose|i: int| 0 <= i < t.bids@.len() && t.bids@[i] == bid;
        if i > 0 {
            assert(no_worse(t.bids@[0], t.bids@[i], Side::Bid));
        }
    }
    if t.asks@.contains(ask) {
        let i = choose|i: int| 0 <= i < t.asks@.len() && t.asks@[i] == ask;
        if i > 0 {
            assert(no_worse(t.asks@[0], t.asks@[i], Side::Ask));
        }
    }
}

/// There is a book wherever the difference of the lowest ask and the highest bid, rounded to a whole
/// number, is no larger than `2^96 - 1`, and wherever there are no bids or no asks.
pub proof fn law_books_exist(e: Exchanges, ask: Level, bid: Level)
    ensures
        (forall|l: Level| !#[trigger] has_bid(e, l)) || (forall|l: Level| !#[trigger] has_ask(e, l))
            ==> e.spread_in_range(),
        tops_all_bids(e, bid) && undercuts_all_asks(e, ask) ==> (e.spread_in_range() <==> 2
            * magnitude(ask.price.value() - bid.price.value())
            < 158_456_325_028_528_675_187_087_900_671 * pow(10, 28)),
{
    lemma_four_lists(e.bitstamp.bids@, e.binance.bids@, e.kraken.bids@, e.coinbase.bids@);
    lemma_four_lists(e.bitstamp.asks@, e.binance.asks@, e.kraken.asks@, e.coinbase.asks@);
    let bids = e.all_bids();
    let asks = e.all_asks();
    if forall|l: Level| !#[trigger] has_bid(e, l) {
        assert forall|b: Level| !#[trigger] is_highest(b, bids) by {
            assert(bids.contains(b) <==> has_bid(e, b));
        }
    }
    if forall|l: Level| !#[trigger] has_ask(e, l) {
        assert forall|a: Level| !#[trigger] is_lowest(a, asks) by {
            assert(asks.contains(a) <==> has_ask(e, a));
        }
    }
    if tops_all_bids(e, bid) && undercuts_all_asks(e, ask) {
        assert(bids.contains(bid) && asks.contains(ask));
        assert forall|i: int| 0 <= i < bids.len() implies (#[trigger] bids[i]).price.value()
            <= bid.price.value() by {
            assert(bids.contains(bids[i]));
            assert(has_bid(e, bids[i]));
        }
        assert forall|i: int| 0 <= i < asks.len() implies (#[trigger] asks[i]).price.value()
            >= ask.price.value() by {
            assert(asks.contains(asks[i]));
            assert(has_ask(e, asks[i]));
        }
        assert(is_highest(bid, bids) && is_lowest(ask, asks));
        if in_range(ask.price.value() - bid.price.value()) {
            assert forall|a: Level, b: Level| #[trigger]
                is_lowest(a, asks) && #[trigger] is_highest(b, bids) implies in_range(
                a.price.value() - b.price.value(),
            ) by {
                assert(has_ask(e, a) && has_bid(e, b));
                let i = choose|i: int| 0 <= i < asks.len() && asks[i] == ask;
                let j = choose|j: int| 0 <= j < bids.len() && bids[j] == bid;
                assert(asks[i].price.value() >= a.price.value());
                assert(bids[j].price.value() <= b.price.value());
            }
        }
    }
}

/// Whether a level is the last one of a list at its price.
pub open spec fn is_last_at_its_price(l: Level, levels: Seq<Level>) -> bool {
    exists|i: int|
        0 <= i < levels.len() && #[trigger] levels[i] == l && forall|j: int|
            i < j < levels.len() ==> (#[trigger] levels[j]).price.value() != l.price.value()
}

/// A map made of a list holds, in ascending order of their prices, the last level at each price and
/// nothing else.
pub proof fn law_maps_hold_the_last_at_each_price(levels: Seq<Level>, entries: Seq<Level>, l: Level)
    requires
        forall|i: int, j: int|
            0 <= i < j < entries.len() ==> entries[i].price.value() < entries[j].price.value(),
        by_price(entries) == by_price(levels),
    ensures
        entries.contains(l) <==> is_last_at_its_price(l, levels),
{
    if entries.contains(l) {
        lemma_entry_is_last(levels, entries, l);
    }
    if is_last_at_its_price(l, levels) {
        lemma_last_is_entry(levels, entries, l);
    }
}

/// What a map made of a list holds is the last of the list at its price.
proof fn lemma_entry_is_last(levels: Seq<Level>, entries: Seq<Level>, l: Level)
    requires
        forall|i: int, j: int|
            0 <= i < j < entries.len() ==> entries[i].price.value() < entries[j].price.value(),
        by_price(entries) == by_price(levels),
        entries.contains(l),
    ensures
        is_last_at_its_price(l, levels),
{
    let i = choose|i: int| 0 <= i < entries.len() && entries[i] == l;
    lemma_found(entries, i);
    let j = lemma_where_last(levels, l.price.value());
    assert(levels[j] == l);
}

/// The last of a list at its price is in a map made of it.
proof fn lemma_last_is_entry(levels: Seq<Level>, entries: Seq<Level>, l: Level)
    requires
        forall|i: int, j: int|
            0 <= i < j < entries.len() ==> entries[i].price.value() < entries[j].price.value(),
        by_price(entries) == by_price(levels),
        is_last_at_its_price(l, levels),
    ensures
        entries.contains(l),
{
    let i = choose|i: int|
        0 <= i < levels.len() && #[trigger] levels[i] == l && forall|j: int|
            i < j < levels.len() ==> (#[trigger] levels[j]).price.value() != l.price.value();
    lemma_last_stands(levels, i);
    let j = lemma_place(entries, l.price.value());
    lemma_found(entries, j);
    assert(entries[j] == l);
}

/// A well-formed state keeps no more than ten levels of a side of an exchange that sends diffs, in
/// ascending order of their prices. States are equal where the lists of all four exchanges are.
pub proof fn law_states_are_bounded_and_compared_whole(e: Exchanges, f: Exchanges)
    ensures
        e.well_formed() ==> e.ascending() && e.kraken.bids@.len() <= 10 && e.kraken.asks@.len() <= 10
            && e.coinbase.bids@.len() <= 10 && e.coinbase.asks@.len() <= 10,
        e.eq_spec(&f) <==> {
            &&& same_levels(e.bitstamp.bids@, f.bitstamp.bids@)
            &&& same_levels(e.bitstamp.asks@, f.bitstamp.asks@)
            &&& same_levels(e.binance.bids@, f.binance.bids@)
            &&& same_levels(e.binance.asks@, f.binance.asks@)
            &&& same_levels(e.kraken.bids@, f.kraken.bids@)
            &&& same_levels(e.kraken.asks@, f.kraken.asks@)
            &&& same_levels(e.coinbase.bids@, f.coinbase.bids@)
            &&& same_levels(e.coinbase.asks@, f.coinbase.asks@)
        },
{
}

/// Where two ascending lists hold the same levels they are the same list, so what is kept of a list
/// and a diff is settled by which levels are candidates.
pub proof fn law_what_is_kept_is_settled(
    kept: Seq<Level>,
    diff: Seq<Level>,
    one: Seq<Level>,
    other: Seq<Level>,
    depth: nat,
    highest: bool,
)
    requires
        forall|i: int, j: int|
            0 <= i < j < kept.len() ==> kept[i].price.value() < kept[j].price.value(),
        keeps_best(kept, diff, one, depth, highest),
        keeps_best(kept, diff, other, depth, highest),
    ensures
        one == other,
{
    lemma_kept_of_other(kept, diff, one, other, depth, highest);
    lemma_kept_of_other(kept, diff, other, one, depth, highest);
    assert(by_price(one) =~= by_price(other)) by {
        assert forall|k: int| #[trigger] by_price(one).dom().contains(k) implies by_price(
            other,
        ).dom().contains(k) && by_price(other)[k] == by_price(one)[k] by {
            let i = lemma_place(one, k);
            lemma_found(one, i);
            let j = choose|j: int| 0 <= j < other.len() && other[j] == one[i];
            lemma_found(other, j);
        }
        assert forall|k: int| #[trigger] by_price(other).dom().contains(k) implies by_price(
            one,
        ).dom().contains(k) by {
            let i = lemma_place(other, k);
            let j = choose|j: int| 0 <= j < one.len() && one[j] == other[i];
            lemma_found(one, j);
        }
    }
    law_ascending_lists_are_determined(one, other);
}

/// What one of two lists keeps, the other keeps too.
proof fn lemma_kept_of_other(
    kept: Seq<Level>,
    diff: Seq<Level>,
    one: Seq<Level>,
    other: Seq<Level>,
    depth: nat,
    highest: bool,
)
    requires
        forall|i: int, j: int|
            0 <= i < j < kept.len() ==> kept[i].price.value() < kept[j].price.value(),
        keeps_best(kept, diff, one, depth, highest),
        keeps_best(kept, diff, other, depth, highest),
    ensures
        forall|i: int| 0 <= i < one.len() ==> other.contains(#[trigger] one[i]),
{
    assert forall|i: int| 0 <= i < one.len() implies other.contains(#[trigger] one[i]) by {
        let l = one[i];
        if !other.contains(l) {
            assert(is_candidate(l, kept, diff));
            // All levels of the other list are better than `l`, and there are `depth` of them: one of
            // them is missing here, so all of this list is better than that one, `l` included.
            assert(other.len() == depth);
            assert(exists|j: int| 0 <= j < other.len() && !one.contains(#[trigger] other[j])) by {
                if forall|j: int| 0 <= j < other.len() ==> one.contains(#[trigger] other[j]) {
                    broadcast use vstd::seq_lib::group_to_multiset_ensures;

                    lemma_as_many_prices(one);
                    lemma_as_many_prices(other);
                    let k = l.price.value();
                    lemma_found(one, i);
                    assert forall|q: int| #[trigger] by_price(other).dom().contains(q) implies by_price(
                        one,
                    ).dom().remove(k).contains(q) by {
                        let j = lemma_place(other, q);
                        let x = choose|x: int| 0 <= x < one.len() && one[x] == other[j];
                        lemma_found(one, x);
                        assert(other[j].price.value() != k);
                    }
                    assert(by_price(other).dom().subset_of(by_price(one).dom().remove(k)));
                    vstd::set_lib::lemma_len_subset(
                        by_price(other).dom(),
                        by_price(one).dom().remove(k),
                    );
                }
            }
            let j = choose|j: int| 0 <= j < other.len() && !one.contains(#[trigger] other[j]);
            assert(is_candidate(other[j], kept, diff));
            assert(one[i].price.value() != other[j].price.value());
        }
    }
}

/// Where a list keeps ten levels at better prices than `l` has, and each of them competes for a book of
/// up to ten, the book shows ten levels at prices no worse.
proof fn lemma_outdone(kept: Seq<Level>, shown: Seq<Level>, l: Level, side: Side)
    requires
        kept.len() == 10,
        shown.len() <= 10,
        forall|i: int, j: int|
            0 <= i < j < kept.len() ==> kept[i].price.value() < kept[j].price.value(),
        forall|i: int| 0 <= i < kept.len() ==> no_worse(#[trigger] kept[i], l, side),
        forall|i: int|
            0 <= i < kept.len() ==> shown.contains(#[trigger] kept[i]) || (shown.len() == 10
                && forall|j: int|
                0 <= j < shown.len() ==> no_worse(#[trigger] shown[j], kept[i], side)),
    ensures
        shown.len() == 10,
        forall|j: int| 0 <= j < shown.len() ==> no_worse(#[trigger] shown[j], l, side),
{
    if exists|i: int| 0 <= i < kept.len() && !shown.contains(#[trigger] kept[i]) {
        let i = choose|i: int| 0 <= i < kept.len() && !shown.contains(#[trigger] kept[i]);
        assert forall|j: int| 0 <= j < shown.len() implies no_worse(#[trigger] shown[j], l, side) by {
            assert(no_worse(shown[j], kept[i], side));
            assert(no_worse(kept[i], l, side));
        }
    } else {
        assert(kept.no_duplicates());
        kept.unique_seq_to_set();
        shown.lemma_cardinality_of_set();
        assert forall|x: Level| kept.to_set().contains(x) implies shown.to_set().contains(x) by {
            let i = choose|i: int| 0 <= i < kept.len() && kept[i] == x;
            assert(shown.contains(kept[i]));
        }
        assert(kept.to_set().subset_of(shown.to_set()));
        vstd::set_lib::lemma_len_subset(kept.to_set(), shown.to_set());
        vstd::set_lib::lemma_subset_equality(kept.to_set(), shown.to_set());
        assert forall|j: int| 0 <= j < shown.len() implies no_worse(#[trigger] shown[j], l, side) by {
            assert(shown.contains(shown[j]));
            assert(shown.to_set().contains(shown[j]));
            assert(kept.to_set().contains(shown[j]));
            let i = choose|i: int| 0 <= i < kept.len() && kept[i] == shown[j];
            assert(no_worse(kept[i], l, side));
        }
    }
}

/// What a tick brings reaches the book: of every exchange, each bid of its tick that holds an amount
/// and is the last at its price is in the book that is merged after the tick, unless ten bids are
/// shown at prices no lower.
pub proof fn law_bids_of_a_tick_reach_the_book(
    before: Exchanges,
    t: InTick,
    after: Exchanges,
    out: OutTick,
    l: Level,
)
    requires
        before.ascending(),
        after.ascending(),
        after@ == before@.updated(t@),
        after.shows(out),
        is_last_at_its_price(l, t.bids@),
        l.amount.value() != 0,
    ensures
        out.bids@.contains(l) || (out.bids@.len() == 10 && forall|i: int|
            0 <= i < out.bids@.len() ==> (#[trigger] out.bids@[i]).price.value()
                >= l.price.value()),
{
    law_snapshots_are_taken_over(before, t, after);
    law_diffs_keep_the_ten_best(before, t, after);
    law_every_level_competes(after, out, l);
    let rest = law_books_show_the_best_of_all(after, out);
    assert(t.bids@.contains(l));
    if !has_bid(after, l) {
        let (old, kept) = if t.exchange == Exchange::Kraken {
            (before.kraken.bids@, after.kraken.bids@)
        } else {
            (before.coinbase.bids@, after.coinbase.bids@)
        };
        assert(is_candidate(l, old, t.bids@));
        assert(!kept.contains(l));
        assert forall|i: int| 0 <= i < kept.len() implies no_worse(#[trigger] kept[i], l, Side::Bid) by {
            assert(kept[i].price.value() > l.price.value());
        }
        assert forall|i: int| 0 <= i < kept.len() implies out.bids@.contains(#[trigger] kept[i]) || (
        out.bids@.len() == 10 && forall|j: int|
            0 <= j < out.bids@.len() ==> no_worse(#[trigger] out.bids@[j], kept[i], Side::Bid)) by {
            assert(kept.contains(kept[i]));
            law_every_level_competes(after, out, kept[i]);
        }
        lemma_outdone(kept, out.bids@, l, Side::Bid);
        assert forall|i: int| 0 <= i < out.bids@.len() implies (#[trigger] out.bids@[i]).price.value()
            >= l.price.value() by {
            assert(no_worse(out.bids@[i], l, Side::Bid));
        }
    }
}

/// What a tick brings reaches the book: of every exchange, each ask of its tick that holds an amount
/// and is the last at its price is in the book that is merged after the tick, unless ten asks are
/// shown at prices no higher.
pub proof fn law_asks_of_a_tick_reach_the_book(
    before: Exchanges,
    t: InTick,
    after: Exchanges,
    out: OutTick,
    l: Level,
)
    requires
        before.ascending(),
        after.ascending(),
        after@ == before@.updated(t@),
        after.shows(out),
        is_last_at_its_price(l, t.asks@),
        l.amount.value() != 0,
    ensures
        out.asks@.contains(l) || (out.asks@.len() == 10 && forall|i: int|
            0 <= i < out.asks@.len() ==> (#[trigger] out.asks@[i]).price.value()
                <= l.price.value()),
{
    law_snapshots_are_taken_over(before, t, after);
    law_diffs_keep_the_ten_best(before, t, after);
    law_every_level_competes(after, out, l);
    let rest = law_books_show_the_best_of_all(after, out);
    assert(t.asks@.contains(l));
    if !has_ask(after, l) {
        let (old, kept) = if t.exchange == Exchange::Kraken {
            (before.kraken.asks@, after.kraken.asks@)
        } else {
            (before.coinbase.asks@, after.coinbase.asks@)
        };
        assert(is_candidate(l, old, t.asks@));
        assert(!kept.contains(l));
        assert forall|i: int| 0 <= i < kept.len() implies no_worse(#[trigger] kept[i], l, Side::Ask) by {
            assert(kept[i].price.value() < l.price.value());
        }
        assert forall|i: int| 0 <= i < kept.len() implies out.asks@.contains(#[trigger] kept[i]) || (
        out.asks@.len() == 10 && forall|j: int|
            0 <= j < out.asks@.len() ==> no_worse(#[trigger] out.asks@[j], kept[i], Side::Ask)) by {
            assert(kept.contains(kept[i]));
            law_every_level_competes(after, out, kept[i]);
        }
        lemma_outdone(kept, out.asks@, l, Side::Ask);
        assert forall|i: int| 0 <= i < out.asks@.len() implies (#[trigger] out.asks@[i]).price.value()
            <= l.price.value() by {
            assert(no_worse(out.asks@[i], l, Side::Ask));
        }
    }
}

} // verus!
