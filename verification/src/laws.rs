//! Laws of the merged book: what holds of every state, every tick and every run of ticks.
use crate::decimal::{in_range, is_close};
use crate::exchanges::{
    best_of, is_best, is_highest, is_lowest, lemma_first_is_best, DiffBook, Exchanges, ExchangesView,
    TickView, DEPTH,
};
use crate::levels_map::{above, below, by_price, keep_bottom, keep_top, live};
use crate::orderbook::{Exchange, Level, OutTick, Side};
use crate::ranking::{
    is_sorting_of, lemma_permutation_one_sided, lemma_sorting_contains, one_sided,
};
use vstd::prelude::*;

verus! {

/// Whether ticks of an exchange are whole snapshots.
pub open spec fn sends_snapshots(exchange: Exchange) -> bool {
    exchange == Exchange::Bitstamp || exchange == Exchange::Binance
}

/// Of the snapshots of one exchange only the last one counts.
pub proof fn law_snapshots_replace(s: ExchangesView, first: TickView, second: TickView)
    requires
        first.exchange == second.exchange,
        sends_snapshots(first.exchange),
    ensures
        s.updated(first).updated(second) == s.updated(second),
{
}

/// A tick leaves the state of every other exchange as it is.
pub proof fn law_exchanges_are_independent(s: ExchangesView, t: TickView)
    ensures
        t.exchange != Exchange::Bitstamp ==> s.updated(t).bitstamp == s.bitstamp,
        t.exchange != Exchange::Binance ==> s.updated(t).binance == s.binance,
        t.exchange != Exchange::Kraken ==> s.updated(t).kraken == s.kraken,
        t.exchange != Exchange::Coinbase ==> s.updated(t).coinbase == s.coinbase,
{
}

/// Ticks of two exchanges may arrive in either order.
pub proof fn law_ticks_of_two_exchanges_commute(s: ExchangesView, a: TickView, b: TickView)
    requires
        a.exchange != b.exchange,
    ensures
        s.updated(a).updated(b) == s.updated(b).updated(a),
{
}

/// The state after a run of ticks.
pub open spec fn after_ticks(s: ExchangesView, ticks: Seq<TickView>) -> ExchangesView
    decreases ticks.len(),
{
    if ticks.len() == 0 {
        s
    } else {
        after_ticks(s, ticks.drop_last()).updated(ticks.last())
    }
}

/// The ticks of one exchange, in the order in which they came.
pub open spec fn ticks_of(ticks: Seq<TickView>, exchange: Exchange) -> Seq<TickView>
    decreases ticks.len(),
{
    if ticks.len() == 0 {
        ticks
    } else if ticks.last().exchange == exchange {
        ticks_of(ticks.drop_last(), exchange).push(ticks.last())
    } else {
        ticks_of(ticks.drop_last(), exchange)
    }
}

/// Whether two states agree on an exchange.
pub open spec fn agree_on(a: ExchangesView, b: ExchangesView, exchange: Exchange) -> bool {
    match exchange {
        Exchange::Bitstamp => a.bitstamp == b.bitstamp,
        Exchange::Binance => a.binance == b.binance,
        Exchange::Kraken => a.kraken == b.kraken,
        Exchange::Coinbase => a.coinbase == b.coinbase,
    }
}

/// The state of an exchange depends on its own ticks and their order alone, however the ticks of the
/// other exchanges come in between.
pub proof fn law_only_own_ticks_matter(s: ExchangesView, ticks: Seq<TickView>, exchange: Exchange)
    ensures
        agree_on(after_ticks(s, ticks), after_ticks(s, ticks_of(ticks, exchange)), exchange),
    decreases ticks.len(),
{
    if ticks.len() > 0 {
        let front = ticks.drop_last();
        law_only_own_ticks_matter(s, front, exchange);
        if ticks.last().exchange == exchange {
            assert(ticks_of(ticks, exchange).drop_last() =~= ticks_of(front, exchange));
        }
    }
}

/// The state of an exchange that sends snapshots is its last tick.
pub proof fn law_last_snapshot_counts(s: ExchangesView, ticks: Seq<TickView>, exchange: Exchange)
    requires
        sends_snapshots(exchange),
        ticks_of(ticks, exchange).len() > 0,
    ensures
        exchange == Exchange::Bitstamp ==> after_ticks(s, ticks).bitstamp == ticks_of(
            ticks,
            exchange,
        ).last().snapshot(),
        exchange == Exchange::Binance ==> after_ticks(s, ticks).binance == ticks_of(
            ticks,
            exchange,
        ).last().snapshot(),
    decreases ticks.len(),
{
    if ticks.last().exchange != exchange {
        law_last_snapshot_counts(s, ticks.drop_last(), exchange);
    }
}

/// A level without an amount deletes the level at its price, and no level without an amount stays.
pub proof fn law_zero_amounts_delete(book: DiffBook, t: TickView, price: int)
    ensures
        by_price(t.bids).dom().contains(price) && by_price(t.bids)[price].amount.value() == 0
            ==> !t.diff(book).bids.dom().contains(price),
        by_price(t.asks).dom().contains(price) && by_price(t.asks)[price].amount.value() == 0
            ==> !t.diff(book).asks.dom().contains(price),
        t.diff(book).bids.dom().contains(price) ==> t.diff(book).bids[price].amount.value() != 0,
        t.diff(book).asks.dom().contains(price) ==> t.diff(book).asks[price].amount.value() != 0,
{
}

/// What a diff says of a price stands, and where it says nothing the old level does: a level of the
/// new book is the last one that the diff has at its price, or, where it has none, that of the old
/// book.
pub proof fn law_diffs_override(book: DiffBook, t: TickView, price: int)
    ensures
        t.diff(book).bids.dom().contains(price) ==> t.diff(book).bids[price] == if by_price(
            t.bids,
        ).dom().contains(price) {
            by_price(t.bids)[price]
        } else {
            book.bids[price]
        },
        t.diff(book).asks.dom().contains(price) ==> t.diff(book).asks[price] == if by_price(
            t.asks,
        ).dom().contains(price) {
            by_price(t.asks)[price]
        } else {
            book.asks[price]
        },
{
}

/// Whether the sides of a book are finite, as those of every book that was built from ticks are.
pub open spec fn finite(book: DiffBook) -> bool {
    book.bids.dom().finite() && book.asks.dom().finite()
}

/// The levels of a list by price are finitely many.
pub proof fn lemma_by_price_finite(s: Seq<Level>)
    ensures
        by_price(s).dom().finite(),
    decreases s.len(),
{
    if s.len() > 0 {
        lemma_by_price_finite(s.drop_last());
    }
}

/// The levels that a diff leaves to choose from.
spec fn candidates(m: Map<int, Level>, diff: Seq<Level>) -> Map<int, Level> {
    live(m.union_prefer_right(by_price(diff)))
}

/// They are finitely many.
proof fn lemma_candidates_finite(m: Map<int, Level>, diff: Seq<Level>)
    requires
        m.dom().finite(),
    ensures
        candidates(m, diff).dom().finite(),
{
    lemma_by_price_finite(diff);
    let all = m.dom().union(by_price(diff).dom());
    assert(candidates(m, diff).dom().subset_of(all));
    vstd::set_lib::lemma_set_subset_finite(all, candidates(m, diff).dom());
}

/// A non-empty finite set of integers has a least one.
proof fn lemma_least(s: Set<int>) -> (least: int)
    requires
        s.finite(),
        s.len() > 0,
    ensures
        s.contains(least),
        forall|x: int| s.contains(x) ==> least <= x,
    decreases s.len(),
{
    let a = s.choose();
    let rest = s.remove(a);
    if rest.len() == 0 {
        assert(rest =~= Set::empty());
        assert forall|x: int| s.contains(x) implies a <= x by {
            if x != a {
                assert(rest.contains(x));
            }
        }
        a
    } else {
        let b = lemma_least(rest);
        if a <= b {
            assert forall|x: int| s.contains(x) implies a <= x by {
                if x != a {
                    assert(rest.contains(x));
                }
            }
            a
        } else {
            assert forall|x: int| s.contains(x) implies b <= x by {
                if x != a {
                    assert(rest.contains(x));
                }
            }
            b
        }
    }
}

/// The members of a set that are greater than `x`.
pub open spec fn greater(s: Set<int>, x: int) -> Set<int> {
    s.filter(|y: int| y > x)
}

/// The `depth` greatest members of a set.
pub open spec fn greatest(s: Set<int>, depth: nat) -> Set<int> {
    s.filter(|x: int| greater(s, x).len() < depth)
}

/// Of a set with at least `depth` members, exactly `depth` are among the `depth` greatest; of a
/// smaller one all are.
pub proof fn lemma_greatest(s: Set<int>, depth: nat)
    requires
        s.finite(),
    ensures
        s.len() <= depth ==> greatest(s, depth) == s,
        s.len() >= depth ==> greatest(s, depth).len() == depth,
    decreases s.len(),
{
    if s.len() <= depth {
        assert forall|x: int| s.contains(x) implies greatest(s, depth).contains(x) by {
            assert(greater(s, x).subset_of(s.remove(x)));
            vstd::set_lib::lemma_len_subset(greater(s, x), s.remove(x));
        }
        assert(greatest(s, depth) =~= s);
    } else {
        let least = lemma_least(s);
        let rest = s.remove(least);
        lemma_greatest(rest, depth);
        assert forall|x: int| greatest(s, depth).contains(x) <==> greatest(rest, depth).contains(
            x,
        ) by {
            if x == least {
                assert(greater(s, least) =~= rest);
            } else if s.contains(x) {
                assert(greater(s, x) =~= greater(rest, x));
            }
        }
        assert(greatest(s, depth) =~= greatest(rest, depth));
    }
}

/// The prices that [`keep_top`] keeps.
pub proof fn lemma_keep_top(m: Map<int, Level>, depth: nat)
    ensures
        keep_top(m, depth).dom() == greatest(m.dom(), depth),
{
    assert forall|k: int| keep_top(m, depth).dom().contains(k) <==> greatest(
        m.dom(),
        depth,
    ).contains(k) by {
        assert(above(m, k) =~= greater(m.dom(), k));
    }
    assert(keep_top(m, depth).dom() =~= greatest(m.dom(), depth));
}

/// The negatives of a set of integers.
pub open spec fn negated(s: Set<int>) -> Set<int> {
    Set::new(|x: int| s.contains(-x))
}

/// There are as many negatives as there are members.
pub proof fn lemma_negated(s: Set<int>)
    requires
        s.finite(),
    ensures
        negated(s).finite(),
        negated(s).len() == s.len(),
    decreases s.len(),
{
    if s.len() == 0 {
        assert(s =~= Set::empty());
        assert(negated(s) =~= Set::empty());
    } else {
        let a = s.choose();
        lemma_negated(s.remove(a));
        assert(negated(s) =~= negated(s.remove(a)).insert(-a));
    }
}

/// The prices that [`keep_bottom`] keeps.
pub proof fn lemma_keep_bottom(m: Map<int, Level>, depth: nat)
    requires
        m.dom().finite(),
    ensures
        negated(keep_bottom(m, depth).dom()) == greatest(negated(m.dom()), depth),
{
    assert forall|k: int| negated(keep_bottom(m, depth).dom()).contains(k) <==> greatest(
        negated(m.dom()),
        depth,
    ).contains(k) by {
        vstd::set_lib::lemma_set_subset_finite(m.dom(), below(m, -k));
        lemma_negated(below(m, -k));
        assert(negated(below(m, -k)) =~= greater(negated(m.dom()), k));
    }
    assert(negated(keep_bottom(m, depth).dom()) =~= greatest(negated(m.dom()), depth));
}

/// A side that diffs are applied to holds ten levels, or all that there are where they are fewer.
pub proof fn law_diff_books_keep_ten(book: DiffBook, t: TickView)
    requires
        finite(book),
    ensures
        finite(t.diff(book)),
        t.diff(book).bids.dom().len() <= DEPTH,
        t.diff(book).asks.dom().len() <= DEPTH,
        ({
            let bids = live(book.bids.union_prefer_right(by_price(t.bids)));
            &&& bids.dom().len() <= DEPTH ==> t.diff(book).bids == bids
            &&& bids.dom().len() >= DEPTH ==> t.diff(book).bids.dom().len() == DEPTH
        }),
        ({
            let asks = live(book.asks.union_prefer_right(by_price(t.asks)));
            &&& asks.dom().len() <= DEPTH ==> t.diff(book).asks == asks
            &&& asks.dom().len() >= DEPTH ==> t.diff(book).asks.dom().len() == DEPTH
        }),
{
    let bids = candidates(book.bids, t.bids);
    let asks = candidates(book.asks, t.asks);
    lemma_candidates_finite(book.bids, t.bids);
    lemma_candidates_finite(book.asks, t.asks);
    lemma_keep_top(bids, DEPTH as nat);
    lemma_greatest(bids.dom(), DEPTH as nat);
    vstd::set_lib::lemma_set_subset_finite(bids.dom(), t.diff(book).bids.dom());
    lemma_keep_bottom(asks, DEPTH as nat);
    lemma_negated(asks.dom());
    lemma_greatest(negated(asks.dom()), DEPTH as nat);
    vstd::set_lib::lemma_set_subset_finite(asks.dom(), t.diff(book).asks.dom());
    lemma_negated(t.diff(book).asks.dom());
    if bids.dom().len() <= DEPTH {
        assert(t.diff(book).bids =~= bids);
    }
    if asks.dom().len() <= DEPTH {
        assert forall|k: int| asks.dom().contains(k) implies t.diff(book).asks.dom().contains(
            k,
        ) by {
            assert(negated(asks.dom()).contains(-k));
            assert(negated(t.diff(book).asks.dom()).contains(-k));
        }
        assert(t.diff(book).asks =~= asks);
    }
}

/// What is among the greatest of a set, and of a part that holds them, is the same.
proof fn lemma_greatest_of_part(all: Set<int>, part: Set<int>, depth: nat)
    requires
        all.finite(),
        part.subset_of(all),
        greatest(all, depth).subset_of(part),
    ensures
        greatest(part, depth) == greatest(all, depth),
{
    vstd::set_lib::lemma_set_subset_finite(all, part);
    assert forall|x: int| greatest(part, depth).contains(x) <==> greatest(all, depth).contains(
        x,
    ) by {
        vstd::set_lib::lemma_set_subset_finite(all, greater(all, x));
        vstd::set_lib::lemma_set_subset_finite(part, greater(part, x));
        if greatest(all, depth).contains(x) {
            assert(greater(part, x).subset_of(greater(all, x)));
            vstd::set_lib::lemma_len_subset(greater(part, x), greater(all, x));
        } else if part.contains(x) {
            let over = greater(all, x);
            lemma_greatest(over, depth);
            assert forall|y: int| greatest(over, depth).contains(y) implies greater(
                part,
                x,
            ).contains(y) by {
                assert(greater(over, y) =~= greater(all, y));
                assert(greatest(all, depth).contains(y));
            }
            vstd::set_lib::lemma_len_subset(greatest(over, depth), greater(part, x));
        }
    }
    assert(greatest(part, depth) =~= greatest(all, depth));
}

/// A diff that is applied twice in a row does what it does once.
pub proof fn law_diffs_are_idempotent(book: DiffBook, t: TickView)
    requires
        finite(book),
    ensures
        t.diff(t.diff(book)) == t.diff(book),
{
    let depth = DEPTH as nat;
    let once = t.diff(book);
    law_diff_books_keep_ten(book, t);
    // Bids.
    let all = candidates(book.bids, t.bids);
    let part = candidates(once.bids, t.bids);
    lemma_candidates_finite(book.bids, t.bids);
    lemma_candidates_finite(once.bids, t.bids);
    lemma_keep_top(all, depth);
    lemma_keep_top(part, depth);
    assert(part.dom().subset_of(all.dom()));
    assert(once.bids.dom().subset_of(part.dom()));
    lemma_greatest_of_part(all.dom(), part.dom(), depth);
    assert(t.diff(once).bids =~= once.bids);
    // Asks.
    let all = candidates(book.asks, t.asks);
    let part = candidates(once.asks, t.asks);
    lemma_candidates_finite(book.asks, t.asks);
    lemma_candidates_finite(once.asks, t.asks);
    lemma_keep_bottom(all, depth);
    lemma_keep_bottom(part, depth);
    lemma_negated(all.dom());
    assert(negated(part.dom()).subset_of(negated(all.dom())));
    assert(negated(once.asks.dom()).subset_of(negated(part.dom())));
    lemma_greatest_of_part(negated(all.dom()), negated(part.dom()), depth);
    assert forall|k: int| t.diff(once).asks.dom().contains(k) <==> once.asks.dom().contains(k) by {
        assert(negated(t.diff(once).asks.dom()).contains(-k) <==> negated(
            once.asks.dom(),
        ).contains(-k));
    }
    assert(t.diff(once).asks =~= once.asks);
}

/// The levels by price of a list of one.
proof fn lemma_by_price_one(level: Level)
    ensures
        by_price(seq![level]) == Map::<int, Level>::empty().insert(level.price.value(), level),
{
    assert(seq![level].drop_last() =~= Seq::<Level>::empty());
    assert(by_price(Seq::<Level>::empty()) =~= Map::<int, Level>::empty());
}

/// Whether a side has room for one more level at a price that it does not have, and holds no level
/// without an amount.
pub open spec fn has_room_at(side: Map<int, Level>, price: int) -> bool {
    &&& side.dom().len() < DEPTH
    &&& !side.dom().contains(price)
    &&& forall|k: int| #[trigger] side.dom().contains(k) ==> side[k].amount.value() != 0
}

/// Whether a level deletes another: it has the same price and no amount.
pub open spec fn deletes(deletion: Level, level: Level) -> bool {
    deletion.price.value() == level.price.value() && deletion.amount.value() == 0
}

/// Adding a level to a side with room and then deleting it leaves the choice that was there.
proof fn lemma_add_delete(side: Map<int, Level>, added: Level, deletion: Level)
    requires
        side.dom().finite(),
        has_room_at(side, added.price.value()),
        deletes(deletion, added),
    ensures
        candidates(side, seq![added]).dom().len() <= DEPTH,
        candidates(candidates(side, seq![added]), seq![deletion]) == side,
{
    lemma_by_price_one(added);
    lemma_by_price_one(deletion);
    let key = added.price.value();
    let grown = candidates(side, seq![added]);
    assert(grown.dom().subset_of(side.dom().insert(key)));
    vstd::set_lib::lemma_len_subset(grown.dom(), side.dom().insert(key));
    assert(candidates(grown, seq![deletion]) =~= side);
}

/// Deleting undoes adding: in a book that has room for a bid and an ask at prices that it does not
/// have, a diff that adds them and a diff that deletes them leave the book as it was.
pub proof fn law_deleting_undoes_adding(
    book: DiffBook,
    exchange: Exchange,
    bid: Level,
    ask: Level,
    no_bid: Level,
    no_ask: Level,
)
    requires
        finite(book),
        has_room_at(book.bids, bid.price.value()),
        has_room_at(book.asks, ask.price.value()),
        deletes(no_bid, bid),
        deletes(no_ask, ask),
    ensures
        ({
            let add = TickView { exchange, bids: seq![bid], asks: seq![ask] };
            let delete = TickView { exchange, bids: seq![no_bid], asks: seq![no_ask] };
            delete.diff(add.diff(book)) == book
        }),
{
    let add = TickView { exchange, bids: seq![bid], asks: seq![ask] };
    let delete = TickView { exchange, bids: seq![no_bid], asks: seq![no_ask] };
    lemma_add_delete(book.bids, bid, no_bid);
    lemma_add_delete(book.asks, ask, no_ask);
    law_diff_books_keep_ten(book, add);
    law_diff_books_keep_ten(add.diff(book), delete);
    assert(delete.diff(add.diff(book)) =~= book);
}

/// A price that beats all others enters the book: a level with an amount whose price is above every
/// other bid, or below every other ask, is kept.
pub proof fn law_better_prices_enter(book: DiffBook, t: TickView, price: int)
    ensures
        ({
            let bids = live(book.bids.union_prefer_right(by_price(t.bids)));
            bids.dom().contains(price) && (forall|k: int| #[trigger]
                bids.dom().contains(k) ==> k <= price) ==> t.diff(book).bids.dom().contains(price)
        }),
        ({
            let asks = live(book.asks.union_prefer_right(by_price(t.asks)));
            asks.dom().contains(price) && (forall|k: int| #[trigger]
                asks.dom().contains(k) ==> k >= price) ==> t.diff(book).asks.dom().contains(price)
        }),
{
    let bids = candidates(book.bids, t.bids);
    let asks = candidates(book.asks, t.asks);
    if forall|k: int| #[trigger] bids.dom().contains(k) ==> k <= price {
        assert(above(bids, price) =~= Set::empty());
    }
    if forall|k: int| #[trigger] asks.dom().contains(k) ==> k >= price {
        assert(below(asks, price) =~= Set::empty());
    }
}

/// Whether a level comes from an exchange, on a side.
pub open spec fn comes_from(l: Level, exchange: Exchange, side: Side) -> bool {
    l.exchange == exchange && l.side == side
}

/// Whether all levels of a list come from an exchange, on a side.
pub open spec fn list_comes_from(s: Seq<Level>, exchange: Exchange, side: Side) -> bool {
    forall|i: int| 0 <= i < s.len() ==> comes_from(#[trigger] s[i], exchange, side)
}

/// Whether all levels of a map come from an exchange, on a side, and are found by their own price.
pub open spec fn map_comes_from(m: Map<int, Level>, exchange: Exchange, side: Side) -> bool {
    forall|k: int| #[trigger]
        m.dom().contains(k) ==> comes_from(m[k], exchange, side) && m[k].price.value() == k
}

/// Whether the levels of a tick name the exchange that sent it, and stand on the side they belong to.
pub open spec fn tick_attributed(t: TickView) -> bool {
    list_comes_from(t.bids, t.exchange, Side::Bid) && list_comes_from(t.asks, t.exchange, Side::Ask)
}

/// Whether every level of a state names the exchange that it is kept under, stands on the side that
/// it belongs to, and, where diffs are applied, is found by its own price.
pub open spec fn attributed(s: ExchangesView) -> bool {
    &&& list_comes_from(s.bitstamp.bids, Exchange::Bitstamp, Side::Bid)
    &&& list_comes_from(s.bitstamp.asks, Exchange::Bitstamp, Side::Ask)
    &&& list_comes_from(s.binance.bids, Exchange::Binance, Side::Bid)
    &&& list_comes_from(s.binance.asks, Exchange::Binance, Side::Ask)
    &&& map_comes_from(s.kraken.bids, Exchange::Kraken, Side::Bid)
    &&& map_comes_from(s.kraken.asks, Exchange::Kraken, Side::Ask)
    &&& map_comes_from(s.coinbase.bids, Exchange::Coinbase, Side::Bid)
    &&& map_comes_from(s.coinbase.asks, Exchange::Coinbase, Side::Ask)
}

/// The levels of a list by price come from where the list comes from.
proof fn lemma_by_price_comes_from(s: Seq<Level>, exchange: Exchange, side: Side)
    requires
        list_comes_from(s, exchange, side),
    ensures
        map_comes_from(by_price(s), exchange, side),
    decreases s.len(),
{
    if s.len() > 0 {
        let front = s.drop_last();
        assert forall|i: int| 0 <= i < front.len() implies comes_from(
            #[trigger] front[i],
            exchange,
            side,
        ) by {
            assert(front[i] == s[i]);
        }
        lemma_by_price_comes_from(front, exchange, side);
        assert(comes_from(s[s.len() - 1], exchange, side));
    }
}

/// Every level keeps the exchange that sent it: ticks whose levels are attributed keep the state
/// attributed, and it is so at the start.
pub proof fn law_levels_keep_their_exchange(s: ExchangesView, t: TickView)
    requires
        tick_attributed(t),
    ensures
        attributed(ExchangesView::empty()),
        attributed(s) ==> attributed(s.updated(t)),
{
    lemma_by_price_comes_from(t.bids, t.exchange, Side::Bid);
    lemma_by_price_comes_from(t.asks, t.exchange, Side::Ask);
}

/// Whether a price is at least as good as another, on a side.
pub open spec fn at_least_as_good(a: Level, b: Level, side: Side) -> bool {
    match side {
        Side::Bid => a.price.value() >= b.price.value(),
        Side::Ask => a.price.value() <= b.price.value(),
    }
}

/// Whether all levels of a list stand on a side.
pub open spec fn on_side(s: Seq<Level>, side: Side) -> bool {
    forall|i: int| 0 <= i < s.len() ==> (#[trigger] s[i]).side == side
}

/// A side of a book shows ten levels, or all where they are fewer.
pub proof fn law_books_show_ten(shown: Seq<Level>, all: Seq<Level>, side: Side)
    requires
        is_best(shown, all, side),
    ensures
        shown.len() == if all.len() <= DEPTH {
            all.len()
        } else {
            DEPTH as nat
        },
{
    let sorted = choose|sorted: Seq<Level>| #[trigger]
        is_sorting_of(sorted, all) && shown == best_of(sorted, side);
    lemma_sorting_contains(sorted, all);
}

/// A side of a book shows the best price first, and at one price the largest amount first.
pub proof fn law_books_are_sorted(shown: Seq<Level>, all: Seq<Level>, side: Side, i: int, j: int)
    requires
        is_best(shown, all, side),
        0 <= i <= j < shown.len(),
    ensures
        at_least_as_good(shown[i], shown[j], side),
        on_side(all, side) && shown[i].price.value() == shown[j].price.value()
            ==> shown[i].amount.value() >= shown[j].amount.value(),
{
    let sorted = choose|sorted: Seq<Level>| #[trigger]
        is_sorting_of(sorted, all) && shown == best_of(sorted, side);
    let n = sorted.len();
    let a: int = match side {
        Side::Bid => n - 1 - i,
        Side::Ask => i,
    };
    let b: int = match side {
        Side::Bid => n - 1 - j,
        Side::Ask => j,
    };
    assert(shown[i] == sorted[a] && shown[j] == sorted[b]);
    if on_side(all, side) {
        assert(one_sided(all));
        lemma_sorting_contains(sorted, all);
        assert(sorted.contains(sorted[a]) && sorted.contains(sorted[b]));
        assert(sorted[a].side == side && sorted[b].side == side);
        match side {
            Side::Bid => assert(!sorted[b].exceeds(sorted[a])),
            Side::Ask => assert(!sorted[a].exceeds(sorted[b])),
        }
    }
}

/// A book shows nothing but levels of the exchanges, and leaves out nothing better: all levels are
/// those that it shows and a rest, each of which has a price no better than any that is shown, and at
/// the same price no larger amount. There is a rest only where ten levels are shown.
pub proof fn law_books_show_the_best(shown: Seq<Level>, all: Seq<Level>, side: Side) -> (rest: Seq<
    Level,
>)
    requires
        is_best(shown, all, side),
    ensures
        all.to_multiset() == shown.to_multiset().add(rest.to_multiset()),
        rest.len() > 0 ==> shown.len() == DEPTH,
        forall|i: int, j: int|
            0 <= i < shown.len() && 0 <= j < rest.len() ==> at_least_as_good(
                #[trigger] shown[i],
                #[trigger] rest[j],
                side,
            ),
        on_side(all, side) ==> forall|i: int, j: int|
            0 <= i < shown.len() && 0 <= j < rest.len() && (#[trigger] shown[i]).price.value() == (
            #[trigger] rest[j]).price.value() ==> shown[i].amount.value() >= rest[j].amount.value(),
{
    let sorted = choose|sorted: Seq<Level>| #[trigger]
        is_sorting_of(sorted, all) && shown == best_of(sorted, side);
    let n = sorted.len() as int;
    let cut: int = if n <= DEPTH { n } else { DEPTH as int };
    let best_first = match side {
        Side::Bid => sorted.reverse(),
        Side::Ask => sorted,
    };
    let rest = best_first.skip(cut);
    sorted.lemma_reverse_to_multiset();
    assert(shown =~= best_first.take(cut));
    assert(best_first =~= shown + rest);
    vstd::seq_lib::lemma_multiset_commutative(shown, rest);
    assert forall|i: int, j: int|
        0 <= i < shown.len() && 0 <= j < rest.len() implies at_least_as_good(
        #[trigger] shown[i],
        #[trigger] rest[j],
        side,
    ) by {
        match side {
            Side::Bid => {
                assert(shown[i] == sorted[n - 1 - i] && rest[j] == sorted[n - 1 - (cut + j)]);
            },
            Side::Ask => {
                assert(shown[i] == sorted[i] && rest[j] == sorted[cut + j]);
            },
        }
    }
    if on_side(all, side) {
        assert(one_sided(all));
        lemma_sorting_contains(sorted, all);
        assert forall|i: int, j: int|
            0 <= i < shown.len() && 0 <= j < rest.len() && (#[trigger] shown[i]).price.value() == (
            #[trigger] rest[j]).price.value() implies shown[i].amount.value()
            >= rest[j].amount.value() by {
            let (a, b): (int, int) = match side {
                Side::Bid => (n - 1 - i, n - 1 - (cut + j)),
                Side::Ask => (i, cut + j),
            };
            assert(shown[i] == sorted[a] && rest[j] == sorted[b]);
            assert(sorted.contains(sorted[a]) && sorted.contains(sorted[b]));
            match side {
                Side::Bid => assert(!sorted[b].exceeds(sorted[a])),
                Side::Ask => assert(!sorted[a].exceeds(sorted[b])),
            }
        }
    }
    rest
}

/// The spread is the lowest ask minus the highest bid of all exchanges: exactly, wherever that
/// difference needs no rounding, and always to half a unit of the spread's last digit.
pub proof fn law_spread_is_best_ask_minus_best_bid(
    e: Exchanges,
    t: OutTick,
    lowest: Level,
    highest: Level,
)
    requires
        e.shows(t),
        is_lowest(lowest, e.all_asks()),
        is_highest(highest, e.all_bids()),
    ensures
        t.asks@[0].price.value() == lowest.price.value(),
        t.bids@[0].price.value() == highest.price.value(),
        t.asks@[0].price.adds_exactly_to(t.bids@[0].price, -1) ==> t.spread.value()
            == lowest.price.value() - highest.price.value(),
        is_close(t.spread.parts(), lowest.price.value() - highest.price.value()),
{
    let bids = choose|sorted: Seq<Level>| #[trigger]
        is_sorting_of(sorted, e.all_bids()) && t.bids@ == best_of(sorted, Side::Bid);
    let asks = choose|sorted: Seq<Level>| #[trigger]
        is_sorting_of(sorted, e.all_asks()) && t.asks@ == best_of(sorted, Side::Ask);
    lemma_first_is_best(bids, e.all_bids());
    lemma_first_is_best(asks, e.all_asks());
    let all_bids = e.all_bids();
    let all_asks = e.all_asks();
    let i = choose|i: int| 0 <= i < all_bids.len() && all_bids[i] == highest;
    let j = choose|j: int| 0 <= j < all_asks.len() && all_asks[j] == lowest;
    assert(all_bids[i].price.value() <= t.bids@[0].price.value());
    assert(all_asks[j].price.value() >= t.asks@[0].price.value());
    let k = choose|k: int| 0 <= k < all_bids.len() && all_bids[k] == t.bids@[0];
    let l = choose|l: int| 0 <= l < all_asks.len() && all_asks[l] == t.asks@[0];
    assert(all_bids[k].price.value() <= highest.price.value());
    assert(all_asks[l].price.value() >= lowest.price.value());
}

/// Levels of one side are totally ordered by price and amount: the comparison is reversed when its
/// operands are, and it is transitive.
pub proof fn law_levels_are_totally_ordered(a: Level, b: Level, c: Level)
    requires
        a.side == b.side,
        b.side == c.side,
    ensures
        a.exceeds(b) <==> b.order_to(a) is Less,
        a.order_to(b) is Equal <==> b.order_to(a) is Equal,
        a.order_to(b) is Equal <==> a.price.value() == b.price.value() && a.amount.value()
            == b.amount.value(),
        !a.exceeds(b) && !b.exceeds(c) ==> !a.exceeds(c),
{
}

/// What a level ranks by: the values of its price and its amount.
pub open spec fn rank(l: Level) -> (int, int) {
    (l.price.value(), l.amount.value())
}

/// The ranks of a list of levels.
pub open spec fn ranks(s: Seq<Level>) -> Seq<(int, int)> {
    s.map_values(|l: Level| rank(l))
}

/// How ranks of a side are ordered.
pub open spec fn rank_order(side: Side) -> spec_fn((int, int), (int, int)) -> bool {
    |a: (int, int), b: (int, int)|
        a.0 < b.0 || (a.0 == b.0 && match side {
            Side::Bid => a.1 <= b.1,
            Side::Ask => a.1 >= b.1,
        })
}

/// Permutations of a list have the same ranks.
proof fn lemma_ranks_permute(a: Seq<Level>, b: Seq<Level>)
    requires
        a.to_multiset() == b.to_multiset(),
    ensures
        a.len() == b.len(),
        ranks(a).to_multiset() == ranks(b).to_multiset(),
    decreases a.len(),
{
    broadcast use vstd::seq_lib::group_to_multiset_ensures;

    assert(a.to_multiset().len() == a.len() && b.to_multiset().len() == b.len());
    if a.len() == 0 {
        assert(ranks(a) =~= ranks(b));
    } else {
        let last = a.len() - 1;
        assert(a.contains(a[last]));
        assert(b.to_multiset().count(a[last]) > 0);
        let j = choose|j: int| 0 <= j < b.len() && b[j] == a[last];
        vstd::seq_lib::to_multiset_remove(a, last);
        vstd::seq_lib::to_multiset_remove(b, j);
        lemma_ranks_permute(a.remove(last), b.remove(j));
        assert(ranks(a.remove(last)) =~= ranks(a).remove(last));
        assert(ranks(b.remove(j)) =~= ranks(b).remove(j));
        vstd::seq_lib::to_multiset_remove(ranks(a), last);
        vstd::seq_lib::to_multiset_remove(ranks(b), j);
        let r = rank(a[last]);
        assert(ranks(a).contains(ranks(a)[last]) && ranks(b).contains(ranks(b)[j]));
        assert(ranks(a).to_multiset() =~= ranks(a).to_multiset().remove(r).insert(r));
        assert(ranks(b).to_multiset() =~= ranks(b).to_multiset().remove(r).insert(r));
    }
}

/// Two sortings of levels of one side that have the same ranks have them in the same order.
proof fn lemma_sortings_agree(
    s: Seq<Level>,
    all: Seq<Level>,
    t: Seq<Level>,
    others: Seq<Level>,
    side: Side,
)
    requires
        is_sorting_of(s, all),
        is_sorting_of(t, others),
        on_side(all, side),
        on_side(others, side),
        ranks(all).to_multiset() == ranks(others).to_multiset(),
    ensures
        ranks(s) == ranks(t),
{
    let leq = rank_order(side);
    lemma_ranks_permute(s, all);
    lemma_ranks_permute(t, others);
    lemma_ranks_sorted(s, all, side);
    lemma_ranks_sorted(t, others, side);
    assert(vstd::relations::total_ordering(leq));
    vstd::seq_lib::lemma_sorted_unique(ranks(s), ranks(t), leq);
}

/// A sorting of levels of one side has its ranks in their order.
proof fn lemma_ranks_sorted(s: Seq<Level>, all: Seq<Level>, side: Side)
    requires
        is_sorting_of(s, all),
        on_side(all, side),
    ensures
        vstd::relations::sorted_by(ranks(s), rank_order(side)),
{
    assert(one_sided(all));
    lemma_sorting_contains(s, all);
    let leq = rank_order(side);
    assert forall|i: int, j: int| 0 <= i < j < s.len() implies leq(
        #[trigger] ranks(s)[i],
        #[trigger] ranks(s)[j],
    ) by {
        assert(s.contains(s[i]) && s.contains(s[j]));
        assert(!s[i].exceeds(s[j]));
    }
}

/// What a side of a book shows depends on the prices and amounts of the levels alone: two lists of
/// levels of one side, with the same prices and amounts in whatever order and of whichever exchanges,
/// are shown with the same prices and amounts at every index.
pub proof fn law_sides_depend_on_prices_and_amounts(
    one: Seq<Level>,
    all: Seq<Level>,
    other: Seq<Level>,
    others: Seq<Level>,
    of: Side,
    side: Side,
)
    requires
        is_best(one, all, side),
        is_best(other, others, side),
        on_side(all, of),
        on_side(others, of),
        ranks(all).to_multiset() == ranks(others).to_multiset(),
    ensures
        ranks(one) == ranks(other),
{
    let s = choose|sorted: Seq<Level>| #[trigger]
        is_sorting_of(sorted, all) && one == best_of(sorted, side);
    let t = choose|sorted: Seq<Level>| #[trigger]
        is_sorting_of(sorted, others) && other == best_of(sorted, side);
    lemma_sortings_agree(s, all, t, others, of);
    assert(ranks(s).len() == s.len() && ranks(t).len() == t.len());
    assert forall|i: int| 0 <= i < one.len() implies rank(#[trigger] one[i]) == rank(other[i]) by {
        let at: int = match side {
            Side::Bid => s.len() - 1 - i,
            Side::Ask => i,
        };
        assert(one[i] == s[at] && other[i] == t[at]);
        assert(ranks(s)[at] == ranks(t)[at]);
    }
    assert(ranks(one) =~= ranks(other));
}

/// Equal levels, listed in any order, are shown alike: what a side of a book shows is determined up
/// to the exchange that is named first where price and amount are the same.
pub proof fn law_books_are_determined(
    one: Seq<Level>,
    all: Seq<Level>,
    other: Seq<Level>,
    others: Seq<Level>,
    side: Side,
)
    requires
        is_best(one, all, side),
        is_best(other, others, side),
        one_sided(all),
        all.to_multiset() == others.to_multiset(),
    ensures
        ranks(one) == ranks(other),
{
    lemma_ranks_permute(all, others);
    lemma_permutation_one_sided(all, others);
    if all.len() > 0 {
        broadcast use vstd::seq_lib::group_to_multiset_ensures;

        let of = all[0].side;
        assert(on_side(all, of));
        assert(others.contains(others[0]));
        assert(all.to_multiset().count(others[0]) > 0);
        assert(on_side(others, of));
        law_sides_depend_on_prices_and_amounts(one, all, other, others, of, side);
    } else {
        law_sides_depend_on_prices_and_amounts(one, all, other, others, side, side);
    }
}

/// Whether two states hold the same prices and amounts on each side, over all exchanges together, in
/// whatever order and split over whichever exchanges.
pub open spec fn same_depth(e: Exchanges, f: Exchanges) -> bool {
    &&& ranks(e.all_bids()).to_multiset() == ranks(f.all_bids()).to_multiset()
    &&& ranks(e.all_asks()).to_multiset() == ranks(f.all_asks()).to_multiset()
}

/// Whether all bids of a state are on the bid side, and all asks on the ask side.
pub open spec fn sides_hold(e: Exchanges) -> bool {
    on_side(e.all_bids(), Side::Bid) && on_side(e.all_asks(), Side::Ask)
}

/// The merged book depends on prices and amounts alone: two states with the same depth show the same
/// prices and amounts at every index of both sides, and spreads of the same value. Neither the order
/// in which a snapshot lists its levels nor the exchange that they come from shows in them.
pub proof fn law_books_depend_on_depth_alone(e: Exchanges, t: OutTick, f: Exchanges, u: OutTick)
    requires
        e.shows(t),
        f.shows(u),
        sides_hold(e),
        sides_hold(f),
        same_depth(e, f),
    ensures
        t.spread.value() == u.spread.value(),
        ranks(t.bids@) == ranks(u.bids@),
        ranks(t.asks@) == ranks(u.asks@),
{
    law_sides_depend_on_prices_and_amounts(
        t.bids@,
        e.all_bids(),
        u.bids@,
        f.all_bids(),
        Side::Bid,
        Side::Bid,
    );
    law_sides_depend_on_prices_and_amounts(
        t.asks@,
        e.all_asks(),
        u.asks@,
        f.all_asks(),
        Side::Ask,
        Side::Ask,
    );
    assert(ranks(t.bids@).len() == t.bids@.len() && ranks(u.bids@).len() == u.bids@.len());
    assert(ranks(t.asks@).len() == t.asks@.len() && ranks(u.asks@).len() == u.asks@.len());
    if t.bids@.len() > 0 && t.asks@.len() > 0 {
        assert(ranks(t.bids@)[0] == rank(t.bids@[0]) && ranks(u.bids@)[0] == rank(u.bids@[0]));
        assert(ranks(t.asks@)[0] == rank(t.asks@[0]) && ranks(u.asks@)[0] == rank(u.asks@[0]));
    } else {
        assert(t.spread.value() == 0) by (nonlinear_arith)
            requires
                t.spread.spec_mantissa() == 0,
        ;
        assert(u.spread.value() == 0) by (nonlinear_arith)
            requires
                u.spread.spec_mantissa() == 0,
        ;
    }
}

/// A price of one list is also one of another list with the same ranks.
proof fn lemma_shared_price(s: Seq<Level>, t: Seq<Level>, i: int) -> (j: int)
    requires
        ranks(s).to_multiset() == ranks(t).to_multiset(),
        0 <= i < s.len(),
    ensures
        0 <= j < t.len(),
        t[j].price.value() == s[i].price.value(),
{
    broadcast use vstd::seq_lib::group_to_multiset_ensures;

    let r = rank(s[i]);
    assert(ranks(s)[i] == r);
    assert(ranks(s).contains(r));
    assert(ranks(t).to_multiset().count(r) > 0);
    assert(ranks(t).contains(r));
    choose|j: int| 0 <= j < ranks(t).len() && ranks(t)[j] == r
}

/// Whether a state has a book depends on its depth alone: two states with the same depth both have a
/// spread in range, or neither has.
pub proof fn law_overflow_depends_on_depth_alone(e: Exchanges, f: Exchanges)
    requires
        same_depth(e, f),
        e.spread_in_range(),
    ensures
        f.spread_in_range(),
{
    assert forall|a: Level, b: Level| #[trigger]
        is_lowest(a, f.all_asks()) && #[trigger] is_highest(b, f.all_bids()) implies in_range(
        a.price.value() - b.price.value(),
    ) by {
        let asks = f.all_asks();
        let bids = f.all_bids();
        let i = choose|i: int| 0 <= i < asks.len() && asks[i] == a;
        let j = choose|j: int| 0 <= j < bids.len() && bids[j] == b;
        let k = lemma_shared_price(asks, e.all_asks(), i);
        let l = lemma_shared_price(bids, e.all_bids(), j);
        let lowest = e.all_asks()[k];
        let highest = e.all_bids()[l];
        assert forall|x: int| 0 <= x < e.all_asks().len() implies (#[trigger]
        e.all_asks()[x]).price.value() >= lowest.price.value() by {
            let y = lemma_shared_price(e.all_asks(), asks, x);
            assert(asks[y].price.value() >= a.price.value());
        }
        assert forall|x: int| 0 <= x < e.all_bids().len() implies (#[trigger]
        e.all_bids()[x]).price.value() <= highest.price.value() by {
            let y = lemma_shared_price(e.all_bids(), bids, x);
            assert(bids[y].price.value() <= b.price.value());
        }
        assert(is_lowest(lowest, e.all_asks()) && is_highest(highest, e.all_bids()));
    }
}

} // verus!
