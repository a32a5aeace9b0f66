//! Why trades follow price-time priority.
use vstd::prelude::*;

use crate::book;
use crate::book::{Levels, Taker};
use crate::types::{Fill, Price, Quantity, RestingOrder, Side};
use crate::validity;

verus! {

/// An incoming order of `qty` units trades with the orders `waiting` from the front: with the
/// first ones for all their units, with at most one more for some of its units. The orders `still`
/// remain, and the incoming order wants `left` more units.
pub open spec fn takes_from_front(
    waiting: Seq<(Price, RestingOrder)>,
    taker: Taker,
    qty: int,
    fills: Seq<Fill>,
    still: Seq<(Price, RestingOrder)>,
    left: int,
) -> bool {
    let gone = waiting.len() - still.len();
    &&& 0 <= gone <= fills.len() <= gone + 1
    &&& fills.len() <= waiting.len()
    &&& book::units(fills) + left == qty
    &&& left >= 0
    &&& fills.len() > gone ==> left == 0
    &&& forall|j: int|
        0 <= j < fills.len() ==> {
            &&& (#[trigger] fills[j]).seq == taker.seq
            &&& fills[j].maker == waiting[j].1.id
            &&& fills[j].taker == taker.id
            &&& fills[j].price == waiting[j].0
            &&& if j < gone {
                fills[j].qty == waiting[j].1.qty
            } else {
                0 < fills[j].qty < waiting[j].1.qty
            }
        }
    &&& forall|j: int|
        0 <= j < still.len() ==> #[trigger] still[j] == if j == 0 && fills.len() > gone {
            (
                waiting[gone].0,
                RestingOrder {
                    qty: (waiting[gone].1.qty - fills[gone].qty) as Quantity,
                    ..waiting[gone].1
                },
            )
        } else {
            waiting[j + gone]
        }
}

/// Trades add up.
pub proof fn lemma_units_concat(a: Seq<Fill>, b: Seq<Fill>)
    ensures
        book::units(a + b) == book::units(a) + book::units(b),
    decreases b.len(),
{
    if b.len() == 0 {
        assert(a + b =~= a);
    } else {
        assert((a + b).drop_last() =~= a + b.drop_last());
        lemma_units_concat(a, b.drop_last());
    }
}

/// One trade has its own units.
proof fn lemma_units_one(fill: Fill)
    ensures
        book::units(seq![fill]) == fill.qty,
{
    assert(seq![fill].drop_last() =~= Seq::<Fill>::empty());
    assert(book::units(seq![fill].drop_last()) == 0);
}

/// Taking all of some orders and then from others is taking from the one queue.
proof fn lemma_takes_then(
    first: Seq<(Price, RestingOrder)>,
    second: Seq<(Price, RestingOrder)>,
    taker: Taker,
    qty: int,
    fills1: Seq<Fill>,
    mid: int,
    fills2: Seq<Fill>,
    still: Seq<(Price, RestingOrder)>,
    left: int,
)
    requires
        takes_from_front(first, taker, qty, fills1, Seq::empty(), mid),
        takes_from_front(second, taker, mid, fills2, still, left),
    ensures
        takes_from_front(first + second, taker, qty, fills1 + fills2, still, left),
{
    lemma_units_concat(fills1, fills2);
    let waiting = first + second;
    let fills = fills1 + fills2;
    let gone = waiting.len() - still.len();
    let gone2 = second.len() - still.len();
    assert forall|j: int| 0 <= j < fills.len() implies {
        &&& (#[trigger] fills[j]).seq == taker.seq
        &&& fills[j].maker == waiting[j].1.id
        &&& fills[j].taker == taker.id
        &&& fills[j].price == waiting[j].0
        &&& if j < gone {
            fills[j].qty == waiting[j].1.qty
        } else {
            0 < fills[j].qty < waiting[j].1.qty
        }
    } by {
        if j < first.len() {
            assert(fills[j] == fills1[j]);
        } else {
            assert(fills[j] == fills2[j - first.len()]);
        }
    }
    assert forall|j: int| 0 <= j < still.len() implies #[trigger] still[j] == if j == 0
        && fills.len() > gone {
        (
            waiting[gone].0,
            RestingOrder {
                qty: (waiting[gone].1.qty - fills[gone].qty) as Quantity,
                ..waiting[gone].1
            },
        )
    } else {
        waiting[j + gone]
    } by {
        assert(waiting[j + gone] == second[j + gone2]);
        if j == 0 && fills.len() > gone {
            assert(fills[gone] == fills2[gone2]);
        }
    }
}

/// Orders behind those that are taken from stay as they are.
proof fn lemma_takes_before(
    first: Seq<(Price, RestingOrder)>,
    second: Seq<(Price, RestingOrder)>,
    taker: Taker,
    qty: int,
    fills: Seq<Fill>,
    still: Seq<(Price, RestingOrder)>,
    left: int,
)
    requires
        takes_from_front(first, taker, qty, fills, still, left),
        still.len() > 0,
    ensures
        takes_from_front(first + second, taker, qty, fills, still + second, left),
{
    let waiting = first + second;
    let after = still + second;
    let gone = first.len() - still.len();
    assert forall|j: int| 0 <= j < fills.len() implies {
        &&& (#[trigger] fills[j]).seq == taker.seq
        &&& fills[j].maker == waiting[j].1.id
        &&& fills[j].taker == taker.id
        &&& fills[j].price == waiting[j].0
        &&& if j < gone {
            fills[j].qty == waiting[j].1.qty
        } else {
            0 < fills[j].qty < waiting[j].1.qty
        }
    } by {
        assert(waiting[j] == first[j]);
    }
    assert forall|j: int| 0 <= j < after.len() implies #[trigger] after[j] == if j == 0
        && fills.len() > gone {
        (
            waiting[gone].0,
            RestingOrder {
                qty: (waiting[gone].1.qty - fills[gone].qty) as Quantity,
                ..waiting[gone].1
            },
        )
    } else {
        waiting[j + gone]
    } by {
        if j < still.len() {
            assert(after[j] == still[j]);
            assert(waiting[j + gone] == first[j + gone]);
        } else {
            assert(after[j] == second[j - still.len()]);
            assert(waiting[j + gone] == second[j - still.len()]);
        }
    }
}

/// At one price, an incoming order takes from the front.
pub proof fn lemma_level_takes(
    taker: Taker,
    price: Price,
    level: Seq<RestingOrder>,
    qty: Quantity,
)
    requires
        forall|i: int| 0 <= i < level.len() ==> (#[trigger] level[i]).qty > 0,
        qty >= 0,
    ensures
        ({
            let m = book::match_level(taker, price, level, qty);
            takes_from_front(
                book::priced(price, level),
                taker,
                qty as int,
                m.fills,
                book::priced(price, m.level),
                m.left as int,
            )
        }),
    decreases level.len(),
{
    let m = book::match_level(taker, price, level, qty);
    let waiting = book::priced(price, level);
    if qty <= 0 || level.len() == 0 {
    } else if level[0].qty > qty {
        lemma_units_one(book::trade(taker, level[0], price, qty));
    } else {
        let tail = level.drop_first();
        let one = seq![level[0]];
        let fill = book::trade(taker, level[0], price, level[0].qty);
        let mid = (qty - level[0].qty) as Quantity;
        assert forall|i: int| 0 <= i < tail.len() implies (#[trigger] tail[i]).qty > 0 by {
            assert(tail[i] == level[i + 1]);
        }
        lemma_level_takes(taker, price, tail, mid);
        lemma_units_one(fill);
        let next = book::match_level(taker, price, tail, mid);
        assert(takes_from_front(
            book::priced(price, one),
            taker,
            qty as int,
            seq![fill],
            Seq::empty(),
            mid as int,
        ));
        lemma_takes_then(
            book::priced(price, one),
            book::priced(price, tail),
            taker,
            qty as int,
            seq![fill],
            mid as int,
            next.fills,
            book::priced(price, next.level),
            next.left as int,
        );
        assert(waiting =~= book::priced(price, one) + book::priced(price, tail));
    }
}

/// Against one side, an incoming order takes from the front of the queue, only at prices within
/// its limit, and stops only when it has all its units or no price is within its limit.
pub proof fn lemma_side_takes(
    side: Side,
    taker: Taker,
    limit: Price,
    levels: Levels,
    qty: Quantity,
)
    requires
        book::levels_valid(levels),
        qty >= 0,
    ensures
        ({
            let m = book::match_side(side, taker, limit, levels, qty);
            &&& takes_from_front(
                book::queue(side, levels),
                taker,
                qty as int,
                m.fills,
                book::queue(side, m.levels),
                m.left as int,
            )
            &&& forall|j: int|
                0 <= j < m.fills.len() ==> side.crosses((#[trigger] m.fills[j]).price, limit)
            &&& m.left > 0 ==> forall|p: Price| #[trigger]
                m.levels.contains_key(p) ==> !side.crosses(p, limit)
            &&& book::levels_valid(m.levels)
            &&& forall|p: Price| #[trigger] m.levels.contains_key(p) ==> levels.contains_key(p)
        }),
    decreases levels.dom().len(),
{
    let price = book::best(side, levels);
    let m = book::match_side(side, taker, limit, levels, qty);
    let waiting = book::queue(side, levels);
    if !book::has_best(side, levels) {
        if levels.dom() != Set::<Price>::empty() {
            validity::lemma_has_best(side, levels);
        }
        assert forall|p: Price| !#[trigger] levels.contains_key(p) by {
            assert(!levels.dom().contains(p));
        }
    } else if qty <= 0 || !side.crosses(price, limit) {
    } else {
        let level = levels[price];
        let here = book::match_level(taker, price, level, qty);
        let less = levels.remove(price);
        validity::lemma_units_left(levels, price);
        lemma_level_takes(taker, price, level, qty);
        validity::lemma_match_level(taker, price, level, qty);
        validity::lemma_price_removed(levels, price);
        if here.level.len() > 0 {
            let put = levels.insert(price, here.level);
            assert forall|q: Price| #[trigger] put.contains_key(q) implies q == price
                || side.better(price, q) by {
                assert(levels.contains_key(q));
            }
            assert(book::is_best(side, put, price));
            validity::lemma_best_is(side, put, price);
            assert(put.remove(price) =~= less);
            assert(put.dom() =~= levels.dom());
            lemma_takes_before(
                book::priced(price, level),
                book::queue(side, less),
                taker,
                qty as int,
                here.fills,
                book::priced(price, here.level),
                here.left as int,
            );
            assert(book::levels_valid(put)) by {
                assert forall|p: Price, i: int|
                    put.contains_key(p) && 0 <= i < put[p].len() implies (
                #[trigger] put[p][i]).qty > 0 by {
                    if p != price {
                        assert(levels[p][i].qty > 0);
                    }
                }
            }
        } else {
            lemma_side_takes(side, taker, limit, less, here.left);
            let next = book::match_side(side, taker, limit, less, here.left);
            assert(book::priced(price, here.level) =~= Seq::empty());
            lemma_takes_then(
                book::priced(price, level),
                book::queue(side, less),
                taker,
                qty as int,
                here.fills,
                here.left as int,
                next.fills,
                book::queue(side, next.levels),
                next.left as int,
            );
            assert forall|j: int| 0 <= j < m.fills.len() implies side.crosses(
                (#[trigger] m.fills[j]).price,
                limit,
            ) by {
                if j >= here.fills.len() {
                    assert(m.fills[j] == next.fills[j - here.fills.len()]);
                }
            }
        }
    }
}

} // verus!
