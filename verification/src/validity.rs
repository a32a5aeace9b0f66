//! Why every command keeps the book valid.
use vstd::prelude::*;

use crate::book;
use crate::book::{Book, Levels, Taker};
use crate::types::{OrderId, Price, Quantity, RestingOrder, Side};

verus! {

/// There is at most one best price.
pub proof fn lemma_best_is(side: Side, levels: Levels, p: Price)
    requires
        book::is_best(side, levels, p),
    ensures
        book::best(side, levels) == p,
        book::has_best(side, levels),
{
    let q = book::best(side, levels);
    assert(book::is_best(side, levels, q));
    assert(levels.contains_key(q));
}

/// A side with orders has a best price.
pub proof fn lemma_has_best(side: Side, levels: Levels)
    requires
        levels.dom().finite(),
        levels.dom() != Set::<Price>::empty(),
    ensures
        book::has_best(side, levels),
    decreases levels.dom().len(),
{
    assert(exists|p: Price| levels.dom().contains(p)) by {
        assert(!(levels.dom() =~= Set::<Price>::empty()));
    }
    let p = choose|p: Price| levels.dom().contains(p);
    assert(levels.contains_key(p));
    let less = levels.remove(p);
    if less.dom() =~= Set::<Price>::empty() {
        assert forall|q: Price| #[trigger] levels.contains_key(q) implies q == p by {
            assert(q != p ==> less.dom().contains(q));
        }
        lemma_best_is(side, levels, p);
    } else {
        lemma_has_best(side, less);
        let b = book::best(side, less);
        let best = if side.better(p, b) {
            p
        } else {
            b
        };
        assert forall|q: Price| #[trigger] levels.contains_key(q) implies q == best || side.better(
            best,
            q,
        ) by {
            assert(q != p ==> less.contains_key(q));
        }
        assert(levels.contains_key(best));
        lemma_best_is(side, levels, best);
    }
}

/// Every order of a price has units left.
pub proof fn lemma_units_left(levels: Levels, price: Price)
    requires
        book::levels_valid(levels),
        levels.contains_key(price),
    ensures
        forall|i: int| 0 <= i < levels[price].len() ==> (#[trigger] levels[price][i]).qty > 0,
{
}

/// A side stays valid when a price leaves it.
pub proof fn lemma_price_removed(levels: Levels, price: Price)
    requires
        book::levels_valid(levels),
    ensures
        book::levels_valid(levels.remove(price)),
{
    let less = levels.remove(price);
    assert forall|p: Price, i: int| less.contains_key(p) && 0 <= i < less[p].len() implies (
    #[trigger] less[p][i]).qty > 0 by {
        assert(levels[p][i].qty > 0);
    }
}

/// Whether `rest` is what remains of a level once its first `gone` orders have left it, perhaps
/// with fewer units in its orders.
pub open spec fn remains(level: Seq<RestingOrder>, rest: Seq<RestingOrder>, gone: int) -> bool {
    &&& 0 <= gone
    &&& level.len() == gone + rest.len()
    &&& forall|j: int|
        0 <= j < rest.len() ==> {
            &&& (#[trigger] rest[j]).id == level[j + gone].id
            &&& rest[j].seq == level[j + gone].seq
            &&& 0 < rest[j].qty <= level[j + gone].qty
        }
}

/// What an incoming order leaves of a level, and which orders it trades with.
pub proof fn lemma_match_level(
    taker: Taker,
    price: Price,
    level: Seq<RestingOrder>,
    qty: Quantity,
)
    requires
        forall|i: int| 0 <= i < level.len() ==> (#[trigger] level[i]).qty > 0,
        qty >= 0,
    ensures
        ({
            let m = book::match_level(taker, price, level, qty);
            let gone = level.len() - m.level.len();
            &&& remains(level, m.level, gone)
            &&& 0 <= m.left <= qty
            &&& m.level.len() > 0 ==> m.left == 0
            &&& gone <= m.fills.len() <= gone + 1
            &&& m.fills.len() <= level.len()
            &&& forall|j: int|
                0 <= j < m.fills.len() ==> {
                    &&& (#[trigger] m.fills[j]).maker == level[j].id
                    &&& m.fills[j].seq == taker.seq
                    &&& m.fills[j].taker == taker.id
                    &&& m.fills[j].price == price
                    &&& 0 < m.fills[j].qty <= level[j].qty
                    &&& j < gone ==> m.fills[j].qty == level[j].qty
                }
        }),
    decreases level.len(),
{
    if qty <= 0 || level.len() == 0 {
    } else if level[0].qty > qty {
    } else {
        let tail = level.drop_first();
        assert forall|i: int| 0 <= i < tail.len() implies (#[trigger] tail[i]).qty > 0 by {
            assert(tail[i] == level[i + 1]);
        }
        lemma_match_level(taker, price, tail, (qty - level[0].qty) as Quantity);
        let m = book::match_level(taker, price, level, qty);
        let next = book::match_level(taker, price, tail, (qty - level[0].qty) as Quantity);
        assert forall|j: int| 0 <= j < m.fills.len() implies {
            &&& (#[trigger] m.fills[j]).maker == level[j].id
            &&& m.fills[j].seq == taker.seq
            &&& m.fills[j].taker == taker.id
            &&& m.fills[j].price == price
            &&& 0 < m.fills[j].qty <= level[j].qty
            &&& j < level.len() - m.level.len() ==> m.fills[j].qty == level[j].qty
        } by {
            if j > 0 {
                assert(m.fills[j] == next.fills[j - 1]);
                assert(level[j] == tail[j - 1]);
            }
        }
        let gone = level.len() - m.level.len();
        assert forall|j: int| 0 <= j < m.level.len() implies {
            &&& (#[trigger] m.level[j]).id == level[j + gone].id
            &&& m.level[j].seq == level[j + gone].seq
            &&& 0 < m.level[j].qty <= level[j + gone].qty
        } by {
            assert(m.level[j] == next.level[j]);
            assert(tail[j + gone - 1] == level[j + gone]);
        }
    }
}

/// A valid book stays valid when orders leave the front of a level, or lose units.
pub proof fn lemma_level_replaced(
    before: Book,
    side: Side,
    price: Price,
    rest: Seq<RestingOrder>,
    gone: int,
)
    requires
        before.valid(),
        before.side(side).contains_key(price),
        remains(before.side(side)[price], rest, gone),
    ensures
        before.with_side(side, book::put_level(before.side(side), price, rest)).valid(),
{
    let levels = before.side(side);
    let put = book::put_level(levels, price, rest);
    let after = before.with_side(side, put);
    assert(book::levels_valid(levels));
    assert(book::levels_valid(put)) by {
        assert forall|p: Price, i: int| put.contains_key(p) && 0 <= i < put[p].len() implies (
        #[trigger] put[p][i]).qty > 0 by {
            if p != price {
                assert(put[p] == levels[p]);
                assert(levels[p][i].qty > 0);
            }
        }
        assert forall|p: Price| #[trigger] put.contains_key(p) implies put[p].len() > 0 by {
            assert(levels.contains_key(p));
        }
    }
    assert forall|s1: Side, p1: Price, i1: int, s2: Side, p2: Price, i2: int, id: OrderId|
        #[trigger] after.at(s1, p1, i1, id) && #[trigger] after.at(s2, p2, i2, id) implies s1 == s2
        && p1 == p2 && i1 == i2 by {
        lemma_at_before(before, side, price, rest, gone, s1, p1, i1, id);
        lemma_at_before(before, side, price, rest, gone, s2, p2, i2, id);
    }
    assert(after.uncrossed()) by {
        assert forall|b: Price, a: Price| #[trigger]
            after.bids.contains_key(b) && #[trigger] after.asks.contains_key(a) implies b < a by {
            assert(before.bids.contains_key(b));
            assert(before.asks.contains_key(a));
        }
    }
}

/// Where an order stood before the front of a level left.
pub proof fn lemma_at_before(
    before: Book,
    side: Side,
    price: Price,
    rest: Seq<RestingOrder>,
    gone: int,
    s: Side,
    p: Price,
    i: int,
    id: OrderId,
)
    requires
        before.side(side).contains_key(price),
        remains(before.side(side)[price], rest, gone),
        before.with_side(side, book::put_level(before.side(side), price, rest)).at(s, p, i, id),
    ensures
        s == side && p == price ==> before.at(s, p, i + gone, id),
        !(s == side && p == price) ==> before.at(s, p, i, id),
{
}

/// Whether no order of the other side reaches an order of side `side` with limit price `price`.
pub open spec fn stays_clear(before: Book, side: Side, price: Price) -> bool {
    forall|q: Price| #[trigger]
        before.side(side.opposite()).contains_key(q) ==> !side.opposite().crosses(q, price)
}

/// A sound book stays sound when an order with a new identifier joins it, and a valid book valid
/// when no order of the other side reaches the price.
pub proof fn lemma_order_added(before: Book, side: Side, price: Price, order: RestingOrder)
    requires
        before.sound(),
        !before.rests(order.id),
        order.qty > 0,
    ensures
        before.with_side(side, book::add_order(before.side(side), price, order)).sound(),
        before.uncrossed() && stays_clear(before, side, price) ==> before.with_side(
            side,
            book::add_order(before.side(side), price, order),
        ).valid(),
{
    let levels = before.side(side);
    let put = book::add_order(levels, price, order);
    let after = before.with_side(side, put);
    assert(book::levels_valid(levels));
    assert(book::levels_valid(put)) by {
        assert forall|p: Price, i: int| put.contains_key(p) && 0 <= i < put[p].len() implies (
        #[trigger] put[p][i]).qty > 0 by {
            if p != price {
                assert(put[p] == levels[p]);
                assert(levels[p][i].qty > 0);
            } else if levels.contains_key(p) && i < levels[p].len() {
                assert(levels[p][i].qty > 0);
            }
        }
        assert forall|p: Price| #[trigger] put.contains_key(p) implies put[p].len() > 0 by {
            assert(p != price ==> levels.contains_key(p));
        }
    }
    assert forall|s1: Side, p1: Price, i1: int, s2: Side, p2: Price, i2: int, id: OrderId|
        #[trigger] after.at(s1, p1, i1, id) && #[trigger] after.at(s2, p2, i2, id) implies s1 == s2
        && p1 == p2 && i1 == i2 by {
        assert(id != order.id ==> before.at(s1, p1, i1, id) && before.at(s2, p2, i2, id));
        assert(!before.at(s1, p1, i1, order.id));
        assert(!before.at(s2, p2, i2, order.id));
    }
    if before.uncrossed() && stays_clear(before, side, price) {
        assert(after.uncrossed()) by {
            assert forall|b: Price, a: Price| #[trigger]
                after.bids.contains_key(b) && #[trigger] after.asks.contains_key(a) implies b < a by {
                match side {
                    Side::Bid => {
                        assert(before.side(side.opposite()).contains_key(a));
                        assert(b != price ==> before.bids.contains_key(b));
                    },
                    Side::Ask => {
                        assert(before.side(side.opposite()).contains_key(b));
                        assert(a != price ==> before.asks.contains_key(a));
                    },
                }
            }
        }
    }
}

/// A level in which no order has identifier `id` is the same without `id`.
pub proof fn lemma_level_without_absent(level: Seq<RestingOrder>, id: OrderId)
    requires
        forall|i: int| 0 <= i < level.len() ==> (#[trigger] level[i]).id != id,
    ensures
        book::level_without(level, id) == level,
    decreases level.len(),
{
    reveal(Seq::filter);
    if level.len() > 0 {
        let front = level.drop_last();
        assert forall|i: int| 0 <= i < front.len() implies (#[trigger] front[i]).id != id by {
            assert(front[i] == level[i]);
        }
        lemma_level_without_absent(front, id);
        assert(level.last().id != id);
        assert(front.push(level.last()) =~= level);
    }
}

/// A level in which one order has identifier `id` is, without `id`, that level with the one order
/// taken out.
pub proof fn lemma_level_without_one(level: Seq<RestingOrder>, id: OrderId, pos: int)
    requires
        0 <= pos < level.len(),
        level[pos].id == id,
        forall|i: int| 0 <= i < level.len() && i != pos ==> (#[trigger] level[i]).id != id,
    ensures
        book::level_without(level, id) == level.remove(pos),
    decreases level.len(),
{
    reveal(Seq::filter);
    let front = level.drop_last();
    assert forall|i: int| 0 <= i < front.len() implies front[i] == level[i] by {}
    if pos == level.len() - 1 {
        lemma_level_without_absent(front, id);
        assert(level.remove(pos) =~= front);
    } else {
        lemma_level_without_one(front, id, pos);
        assert(level.last().id != id);
        assert(level.remove(pos) =~= front.remove(pos).push(level.last()));
    }
}

/// A side in which no order has identifier `id` is the same without `id`.
pub proof fn lemma_side_without_absent(levels: Levels, id: OrderId)
    requires
        book::levels_valid(levels),
        forall|p: Price, i: int|
            levels.contains_key(p) && 0 <= i < levels[p].len() ==> (#[trigger] levels[p][i]).id
                != id,
    ensures
        book::side_without(levels, id) == levels,
{
    assert forall|p: Price| #[trigger] levels.contains_key(p) implies book::level_without(
        levels[p],
        id,
    ) == levels[p] by {
        lemma_level_without_absent(levels[p], id);
    }
    assert(book::side_without(levels, id) =~= levels);
}

/// Cancelling an order that does not wait in the book changes nothing.
pub proof fn lemma_without_absent(before: Book, id: OrderId)
    requires
        before.sound(),
        !before.rests(id),
    ensures
        before.without(id) == before,
{
    assert forall|p: Price, i: int|
        before.bids.contains_key(p) && 0 <= i < before.bids[p].len() implies (
    #[trigger] before.bids[p][i]).id != id by {
        assert(!before.at(Side::Bid, p, i, id));
    }
    assert forall|p: Price, i: int|
        before.asks.contains_key(p) && 0 <= i < before.asks[p].len() implies (
    #[trigger] before.asks[p][i]).id != id by {
        assert(!before.at(Side::Ask, p, i, id));
    }
    lemma_side_without_absent(before.bids, id);
    lemma_side_without_absent(before.asks, id);
}

/// Cancelling an order that waits in the book takes it out of its place.
pub proof fn lemma_without_one(before: Book, side: Side, price: Price, pos: int, id: OrderId)
    requires
        before.sound(),
        before.at(side, price, pos, id),
    ensures
        before.without(id) == before.with_side(
            side,
            book::put_level(
                before.side(side),
                price,
                before.side(side)[price].remove(pos),
            ),
        ),
{
    let levels = before.side(side);
    let level = levels[price];
    let other = before.side(side.opposite());
    assert forall|p: Price, i: int| other.contains_key(p) && 0 <= i < other[p].len() implies (
    #[trigger] other[p][i]).id != id by {
        assert(before.at(side.opposite(), p, i, id) || other[p][i].id != id);
    }
    lemma_side_without_absent(other, id);
    assert forall|i: int| 0 <= i < level.len() && i != pos implies (#[trigger] level[i]).id
        != id by {
        assert(before.at(side, price, i, id) || level[i].id != id);
    }
    lemma_level_without_one(level, id, pos);
    assert forall|p: Price| #[trigger] levels.contains_key(p) && p != price implies
        book::level_without(levels[p], id) == levels[p] by {
        assert forall|i: int| 0 <= i < levels[p].len() implies (#[trigger] levels[p][i]).id
            != id by {
            assert(before.at(side, p, i, id) || levels[p][i].id != id);
        }
        lemma_level_without_absent(levels[p], id);
    }
    assert(book::side_without(levels, id) =~= book::put_level(levels, price, level.remove(pos)));
}

/// A sound book stays sound, and a valid book valid, when one order is taken out of its place, and
/// that order is gone.
pub proof fn lemma_order_removed(before: Book, side: Side, price: Price, pos: int, id: OrderId)
    requires
        before.sound(),
        before.at(side, price, pos, id),
    ensures
        before.without(id).sound(),
        before.uncrossed() ==> before.without(id).valid(),
        !before.without(id).rests(id),
        forall|s: Side, p: Price, i: int, other: OrderId| #[trigger]
            before.without(id).at(s, p, i, other) ==> other != id && if s == side && p == price
                && i >= pos {
                before.at(s, p, i + 1, other)
            } else {
                before.at(s, p, i, other)
            },
{
    lemma_without_one(before, side, price, pos, id);
    let levels = before.side(side);
    let level = levels[price];
    let put = book::put_level(levels, price, level.remove(pos));
    let after = before.with_side(side, put);
    assert forall|s: Side, p: Price, i: int, other: OrderId| #[trigger]
        after.at(s, p, i, other) implies other != id && if s == side && p == price && i >= pos {
        before.at(s, p, i + 1, other)
    } else {
        before.at(s, p, i, other)
    } by {}
    assert(book::levels_valid(put)) by {
        assert forall|p: Price, i: int| put.contains_key(p) && 0 <= i < put[p].len() implies (
        #[trigger] put[p][i]).qty > 0 by {
            if p != price || i < pos {
                assert(put[p][i] == levels[p][i]);
            } else {
                assert(put[p][i] == levels[p][i + 1]);
            }
        }
        assert forall|p: Price| #[trigger] put.contains_key(p) implies put[p].len() > 0 by {
            assert(levels.contains_key(p));
        }
    }
    if before.uncrossed() {
        assert(after.uncrossed()) by {
            assert forall|b: Price, a: Price| #[trigger]
                after.bids.contains_key(b) && #[trigger] after.asks.contains_key(a) implies b < a by {
                assert(before.bids.contains_key(b));
                assert(before.asks.contains_key(a));
            }
        }
    }
}

} // verus!
