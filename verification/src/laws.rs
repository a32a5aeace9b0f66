//! What holds of the engine as a whole.
use vstd::prelude::*;

use crate::book;
use crate::book::{Book, EngineState, Levels, Taker};
use crate::priority;
use crate::text;
use crate::types::{Command, EngineError, Event, Fill, OrderId, OrderView, Price, Quantity};
use crate::types::{RestingOrder, Sequence, Side};
use crate::validity;

verus! {

/// A valid book stays valid while an incoming order trades, and no order joins it.
proof fn lemma_side_matched(
    before: Book,
    side: Side,
    taker: Taker,
    limit: Price,
    qty: Quantity,
)
    requires
        before.valid(),
        qty >= 0,
    ensures
        ({
            let after = before.with_side(
                side,
                book::match_side(side, taker, limit, before.side(side), qty).levels,
            );
            &&& after.valid()
            &&& forall|id: OrderId| #[trigger] after.rests(id) ==> before.rests(id)
        }),
    decreases before.side(side).dom().len(),
{
    let levels = before.side(side);
    let price = book::best(side, levels);
    let m = book::match_side(side, taker, limit, levels, qty);
    if qty <= 0 || !book::has_best(side, levels) || !side.crosses(price, limit) {
        assert(before.with_side(side, levels) =~= before);
    } else {
        let level = levels[price];
        let here = book::match_level(taker, price, level, qty);
        let gone = level.len() - here.level.len();
        let next = before.with_side(side, book::put_level(levels, price, here.level));
        validity::lemma_units_left(levels, price);
        validity::lemma_match_level(taker, price, level, qty);
        validity::lemma_level_replaced(before, side, price, here.level, gone);
        assert forall|id: OrderId| #[trigger] next.rests(id) implies before.rests(id) by {
            let (s, p, i) = choose|s: Side, p: Price, i: int| next.at(s, p, i, id);
            validity::lemma_at_before(before, side, price, here.level, gone, s, p, i, id);
            assert(before.at(s, p, i, id) || before.at(s, p, i + gone, id));
        }
        if here.level.len() == 0 {
            lemma_side_matched(next, side, taker, limit, here.left);
            assert(before.with_side(side, m.levels) =~= next.with_side(side, m.levels));
        }
    }
}

/// Every command keeps the book valid: it is never crossed, no two orders share an identifier,
/// every order has units left, and no price is without orders.
pub proof fn every_command_keeps_the_book_valid(before: Book, seq: Sequence, command: Command)
    requires
        before.valid(),
    ensures
        before.after(seq, command).0.valid(),
{
    match command {
        Command::Limit { id, side, price, qty } => {
            if qty > 0 && !before.rests(id) {
                let other = side.opposite();
                let taker = Taker { seq, id };
                let m = book::match_side(other, taker, price, before.side(other), qty);
                let traded = before.with_side(other, m.levels);
                lemma_side_matched(before, other, taker, price, qty);
                priority::lemma_side_takes(other, taker, price, before.side(other), qty);
                if m.left > 0 {
                    validity::lemma_order_added(
                        traded,
                        side,
                        price,
                        RestingOrder { id, qty: m.left, seq },
                    );
                }
            }
        },
        Command::Cancel { id } => {
            if before.rests(id) {
                let (s, p, i) = choose|s: Side, p: Price, i: int| before.at(s, p, i, id);
                validity::lemma_order_removed(before, s, p, i, id);
            } else {
                validity::lemma_without_absent(before, id);
            }
        },
    }
}

/// A command that is turned down leaves the book as it was.
pub proof fn rejected_commands_change_nothing(before: Book, seq: Sequence, command: Command)
    requires
        before.after(seq, command).1 is Err,
    ensures
        before.after(seq, command).0 == before,
{
}

/// Trades follow price-time priority. A limit order that is carried out trades with the orders of
/// the other side in the order in which they wait, each at the price at which it waits, and that
/// price is no worse than the limit: no higher for a bid, no lower for an ask. Each order but the
/// last gives all its units, and the orders behind keep their places. What the order does not get
/// waits at its limit price, last in line, and then every price left on the other side is worse
/// than the limit.
pub proof fn trades_follow_price_time_priority(
    before: Book,
    seq: Sequence,
    id: OrderId,
    side: Side,
    price: Price,
    qty: Quantity,
)
    requires
        before.valid(),
        before.limit(seq, id, side, price, qty).1 is Ok,
    ensures
        ({
            let (after, outcome) = before.limit(seq, id, side, price, qty);
            let fills = outcome->Ok_0;
            let left = qty - book::units(fills);
            let (other, theirs, theirs_after, ours, ours_after) = match side {
                Side::Bid => (Side::Ask, before.asks, after.asks, before.bids, after.bids),
                Side::Ask => (Side::Bid, before.bids, after.bids, before.asks, after.asks),
            };
            let level = if ours.contains_key(price) {
                ours[price]
            } else {
                Seq::empty()
            };
            &&& priority::takes_from_front(
                book::queue(other, theirs),
                Taker { seq, id },
                qty as int,
                fills,
                book::queue(other, theirs_after),
                left,
            )
            &&& forall|j: int|
                0 <= j < fills.len() ==> match side {
                    Side::Bid => (#[trigger] fills[j]).price <= price,
                    Side::Ask => fills[j].price >= price,
                }
            &&& left == 0 ==> ours_after == ours
            &&& left > 0 ==> {
                &&& ours_after == ours.insert(
                    price,
                    level.push(RestingOrder { id, qty: left as Quantity, seq }),
                )
                &&& forall|p: Price| #[trigger]
                    theirs_after.contains_key(p) ==> match side {
                        Side::Bid => p > price,
                        Side::Ask => p < price,
                    }
            }
        }),
{
    let other = side.opposite();
    priority::lemma_side_takes(other, Taker { seq, id }, price, before.side(other), qty);
}

/// Cancelling takes out the one order, and every other order keeps its place in the queue.
pub proof fn cancel_removes_only_its_order(before: Book, side: Side, id: OrderId)
    requires
        before.valid(),
    ensures
        !before.without(id).rests(id),
        book::queue(side, before.without(id).side(side)) == book::queue(
            side,
            before.side(side),
        ).filter(|entry: (Price, RestingOrder)| entry.1.id != id),
{
    if before.rests(id) {
        let (s, p, i) = choose|s: Side, p: Price, i: int| before.at(s, p, i, id);
        validity::lemma_order_removed(before, s, p, i, id);
    } else {
        validity::lemma_without_absent(before, id);
    }
    lemma_queue_without(side, before.side(side), id);
}

/// The queue of a side without the orders of one identifier.
proof fn lemma_queue_without(side: Side, levels: Levels, id: OrderId)
    requires
        book::levels_valid(levels),
    ensures
        book::queue(side, book::side_without(levels, id)) == book::queue(side, levels).filter(
            |entry: (Price, RestingOrder)| entry.1.id != id,
        ),
    decreases levels.dom().len(),
{
    let keep = |entry: (Price, RestingOrder)| entry.1.id != id;
    let price = book::best(side, levels);
    let without = book::side_without(levels, id);
    assert(without.dom().subset_of(levels.dom()));
    if !book::has_best(side, levels) {
        if levels.dom() != Set::<Price>::empty() {
            validity::lemma_has_best(side, levels);
        }
        assert(!book::has_best(side, without)) by {
            if book::has_best(side, without) {
                assert(without.contains_key(book::best(side, without)));
                assert(levels.dom().contains(book::best(side, without)));
            }
        }
        reveal(Seq::filter);
    } else {
        let less = levels.remove(price);
        let here = book::priced(price, levels[price]);
        let rest = book::queue(side, less);
        validity::lemma_price_removed(levels, price);
        lemma_queue_without(side, less, id);
        Seq::filter_distributes_over_add(here, rest, keep);
        lemma_filter_priced(price, levels[price], id);
        let less_without = book::side_without(less, id);
        if book::level_without(levels[price], id).len() > 0 {
            assert forall|q: Price| #[trigger] without.contains_key(q) implies q == price
                || side.better(price, q) by {
                assert(levels.contains_key(q));
            }
            assert(without.contains_key(price));
            validity::lemma_best_is(side, without, price);
            assert(without.remove(price) =~= less_without);
        } else {
            assert(without =~= less_without);
            assert(here.filter(keep) =~= Seq::empty());
            assert(here.filter(keep) + rest.filter(keep) =~= rest.filter(keep));
        }
    }
}

/// A level without an identifier, with its price.
proof fn lemma_filter_priced(price: Price, level: Seq<RestingOrder>, id: OrderId)
    ensures
        book::priced(price, level).filter(|entry: (Price, RestingOrder)| entry.1.id != id)
            == book::priced(price, book::level_without(level, id)),
    decreases level.len(),
{
    reveal(Seq::filter);
    let keep = |entry: (Price, RestingOrder)| entry.1.id != id;
    if level.len() > 0 {
        lemma_filter_priced(price, level.drop_last(), id);
        assert(book::priced(price, level).drop_last() =~= book::priced(price, level.drop_last()));
        assert(book::priced(price, level).filter(keep) =~= book::priced(
            price,
            book::level_without(level, id),
        ));
    } else {
        assert(book::priced(price, level).filter(keep) =~= book::priced(
            price,
            book::level_without(level, id),
        ));
    }
}

/// Cancelling an order that has not traded undoes its arrival.
pub proof fn cancel_undoes_an_order_that_has_not_traded(
    before: Book,
    seq: Sequence,
    id: OrderId,
    side: Side,
    price: Price,
    qty: Quantity,
)
    requires
        before.valid(),
        before.limit(seq, id, side, price, qty).1 == Ok::<
            Seq<Fill>,
            EngineError,
        >(Seq::empty()),
    ensures
        before.limit(seq, id, side, price, qty).0.without(id) == before,
{
    let other = side.opposite();
    let taker = Taker { seq, id };
    let m = book::match_side(other, taker, price, before.side(other), qty);
    let after = before.limit(seq, id, side, price, qty).0;
    lemma_no_trade(other, taker, price, before.side(other), qty);
    assert(before.with_side(other, m.levels) =~= before);
    let order = RestingOrder { id, qty, seq };
    assert(after == before.with_side(side, book::add_order(before.side(side), price, order)));
    every_command_keeps_the_book_valid(before, seq, Command::Limit { id, side, price, qty });
    let last = after.side(side)[price].len() - 1;
    assert(after.at(side, price, last, id));
    validity::lemma_without_one(after, side, price, last, id);
    let level = after.side(side)[price].remove(last);
    if before.side(side).contains_key(price) {
        assert(level =~= before.side(side)[price]);
        assert(before.side(side)[price].len() > 0);
    } else {
        assert(level =~= Seq::empty());
    }
    assert(book::put_level(after.side(side), price, level) =~= before.side(side));
    assert(after.without(id) =~= before);
}

/// A book after an order has been cancelled a number of times.
pub open spec fn cancelled(before: Book, id: OrderId, times: nat) -> Book
    decreases times,
{
    if times == 0 {
        before
    } else {
        cancelled(before, id, (times - 1) as nat).without(id)
    }
}

/// Cancelling an order, once or several times, undoes its joining the book: the snapshot is the
/// one from before, without an empty level, and a new order can have the identifier.
pub proof fn cancel_undoes_a_rest(
    before: Book,
    side: Side,
    price: Price,
    order: RestingOrder,
    times: nat,
)
    requires
        before.sound(),
        !before.rests(order.id),
        times > 0,
    ensures
        ({
            let rested = before.with_side(
                side,
                book::add_order(before.side(side), price, order),
            );
            let after = cancelled(rested, order.id, times);
            &&& after == before
            &&& after.shown() == before.shown()
            &&& forall|seq: Sequence, s: Side, p: Price, qty: Quantity|
                qty > 0 ==> (#[trigger] after.limit(seq, order.id, s, p, qty)).1 is Ok
        }),
    decreases times,
{
    let id = order.id;
    let levels = before.side(side);
    let put = book::add_order(levels, price, order);
    let rested = before.with_side(side, put);
    validity::lemma_without_absent(before, id);
    if times > 1 {
        cancel_undoes_a_rest(before, side, price, order, (times - 1) as nat);
    } else {
        assert(book::side_without(levels, id) == levels);
        let level = if levels.contains_key(price) {
            levels[price]
        } else {
            Seq::empty()
        };
        assert forall|i: int| 0 <= i < level.len() implies (#[trigger] level[i]).id != id by {
            assert(!before.at(side, price, i, id));
        }
        validity::lemma_level_without_absent(level, id);
        text::lemma_filter_push(level, order, |o: RestingOrder| o.id != id);
        assert(book::side_without(put, id) =~= levels) by {
            assert forall|p: Price| p != price && #[trigger] levels.contains_key(p) implies
                book::level_without(levels[p], id) == levels[p] by {
                assert(book::side_without(levels, id).contains_key(p));
            }
        }
        assert(cancelled(rested, id, 0) == rested);
        assert(rested.without(id) =~= before);
    }
}

/// An order that trades with nobody leaves the other side as it was.
proof fn lemma_no_trade(side: Side, taker: Taker, limit: Price, levels: Levels, qty: Quantity)
    requires
        book::levels_valid(levels),
        qty >= 0,
        book::match_side(side, taker, limit, levels, qty).fills.len() == 0,
    ensures
        book::match_side(side, taker, limit, levels, qty).levels == levels,
        book::match_side(side, taker, limit, levels, qty).left == qty,
{
    let price = book::best(side, levels);
    if qty > 0 && book::has_best(side, levels) && side.crosses(price, limit) {
        let level = levels[price];
        assert(level.len() > 0);
        assert(levels[price][0].qty > 0);
        let here = book::match_level(taker, price, level, qty);
        assert(here.fills.len() > 0);
    }
}

/// Whether in every level the orders stand in the order of their events, all numbered below
/// `next_seq`.
pub open spec fn in_sequence(book: Book, next_seq: Sequence) -> bool {
    forall|side: Side, p: Price| #[trigger]
        book.side(side).contains_key(p) ==> level_in_sequence(book.side(side)[p], next_seq)
}

/// Whether the orders of one price stand in the order of their events, all numbered below
/// `next_seq`.
pub open spec fn level_in_sequence(level: Seq<RestingOrder>, next_seq: Sequence) -> bool {
    &&& forall|i: int, j: int| 0 <= i < j < level.len() ==> level[i].seq < level[j].seq
    &&& forall|i: int| 0 <= i < level.len() ==> (#[trigger] level[i]).seq < next_seq
}

/// Time priority is the order of events: as long as events come with numbers that are new, the
/// orders of each price stand in the order of their events.
pub proof fn time_priority_is_event_order(before: EngineState, event: Event)
    requires
        before.book.valid(),
        in_sequence(before.book, before.next_seq),
        before.next_seq <= event.seq < Sequence::MAX,
    ensures
        in_sequence(before.after(event).0.book, before.after(event).0.next_seq),
{
    let after = before.after(event).0;
    let next = after.next_seq;
    assert(in_sequence(before.book, next)) by {
        assert forall|side: Side, p: Price| #[trigger]
            before.book.side(side).contains_key(p) implies level_in_sequence(
            before.book.side(side)[p],
            next,
        ) by {
            assert(level_in_sequence(before.book.side(side)[p], before.next_seq));
        }
    }
    match event.command {
        Command::Limit { id, side, price, qty } => {
            if qty > 0 && !before.book.rests(id) {
                let other = side.opposite();
                let taker = Taker { seq: event.seq, id };
                let m = book::match_side(other, taker, price, before.book.side(other), qty);
                assert forall|p: Price| #[trigger]
                    before.book.side(other).contains_key(p) implies level_in_sequence(
                    before.book.side(other)[p],
                    next,
                ) by {}
                lemma_match_in_sequence(other, taker, price, before.book.side(other), qty, next);
                assert forall|s: Side, p: Price| #[trigger]
                    after.book.side(s).contains_key(p) implies level_in_sequence(
                    after.book.side(s)[p],
                    next,
                ) by {
                    if s == other {
                        assert(m.levels.contains_key(p));
                    } else if before.book.side(side).contains_key(p) {
                        assert(level_in_sequence(before.book.side(side)[p], before.next_seq));
                    }
                }
            }
        },
        Command::Cancel { id } => {
            assert forall|s: Side, p: Price| #[trigger]
                after.book.side(s).contains_key(p) implies level_in_sequence(
                after.book.side(s)[p],
                next,
            ) by {
                assert(before.book.side(s).contains_key(p));
                if before.book.rests(id) {
                    let (s1, p1, i1) = choose|s1: Side, p1: Price, i1: int|
                        before.book.at(s1, p1, i1, id);
                    validity::lemma_without_one(before.book, s1, p1, i1, id);
                } else {
                    validity::lemma_without_absent(before.book, id);
                }
            }
        },
    }
}

/// Trading keeps the orders of each price in the order of their events.
proof fn lemma_match_in_sequence(
    side: Side,
    taker: Taker,
    limit: Price,
    levels: Levels,
    qty: Quantity,
    next_seq: Sequence,
)
    requires
        book::levels_valid(levels),
        qty >= 0,
        forall|p: Price| #[trigger]
            levels.contains_key(p) ==> level_in_sequence(levels[p], next_seq),
    ensures
        ({
            let after = book::match_side(side, taker, limit, levels, qty).levels;
            forall|p: Price| #[trigger]
                after.contains_key(p) ==> level_in_sequence(after[p], next_seq)
        }),
    decreases levels.dom().len(),
{
    let price = book::best(side, levels);
    let after = book::match_side(side, taker, limit, levels, qty).levels;
    if qty > 0 && book::has_best(side, levels) && side.crosses(price, limit) {
        let level = levels[price];
        let here = book::match_level(taker, price, level, qty);
        validity::lemma_units_left(levels, price);
        validity::lemma_match_level(taker, price, level, qty);
        assert(level_in_sequence(level, next_seq));
        if here.level.len() == 0 {
            let less = levels.remove(price);
            validity::lemma_price_removed(levels, price);
            lemma_match_in_sequence(side, taker, limit, less, here.left, next_seq);
            assert(after == book::match_side(side, taker, limit, less, here.left).levels);
        } else {
            assert(level_in_sequence(here.level, next_seq)) by {
                let gone = level.len() - here.level.len();
                assert(validity::remains(level, here.level, gone));
                assert forall|i: int, j: int| 0 <= i < j < here.level.len() implies
                    here.level[i].seq < here.level[j].seq by {
                    assert(level[i + gone].seq < level[j + gone].seq);
                }
                assert forall|i: int| 0 <= i < here.level.len() implies (
                #[trigger] here.level[i]).seq < next_seq by {
                    assert(level[i + gone].seq < next_seq);
                }
            }
            let put = levels.insert(price, here.level);
            assert forall|p: Price| #[trigger] put.contains_key(p) implies level_in_sequence(
                put[p],
                next_seq,
            ) by {
                assert(levels.contains_key(p));
            }
            assert(after == put);
        }
    } else {
        assert(after == levels);
    }
}

/// What submitting commands to a new engine keeps: the book is valid, the orders of each price
/// stand in the order of their events, and each command, carried out or not, has used up a number.
pub proof fn sessions_stay_valid(commands: Seq<Command>)
    requires
        commands.len() < Sequence::MAX,
    ensures
        book::submitted(commands).state.book.valid(),
        book::submitted(commands).state.next_seq == commands.len() + 1,
        in_sequence(
            book::submitted(commands).state.book,
            book::submitted(commands).state.next_seq,
        ),
    decreases commands.len(),
{
    if commands.len() == 0 {
        assert(Book::empty().valid());
    } else {
        sessions_stay_valid(commands.drop_last());
        let before = book::submitted(commands.drop_last()).state;
        let event = before.event(commands.last());
        every_command_keeps_the_book_valid(before.book, event.seq, event.command);
        time_priority_is_event_order(before, event);
    }
}

/// Replaying the events of the commands that an engine has carried out rebuilds its book and its
/// trades. The numbering goes on after the last command that was carried out, so it may stand behind
/// the engine's own where later commands were turned down.
pub proof fn replay_rebuilds_the_book_and_the_trades(commands: Seq<Command>)
    requires
        commands.len() < Sequence::MAX,
    ensures
        ({
            let session = book::submitted(commands);
            let replay = book::replayed(session.accepted);
            &&& forall|i: int|
                0 <= i < session.accepted.len() ==> (#[trigger] session.accepted[i]).seq
                    < session.state.next_seq
            &&& replay is Ok
            &&& replay->Ok_0.0.book == session.state.book
            &&& replay->Ok_0.1 == session.fills
            &&& replay->Ok_0.0.next_seq <= session.state.next_seq
            &&& session.accepted.len() > 0 ==> replay->Ok_0.0.next_seq
                == session.accepted.last().seq + 1
        }),
    decreases commands.len(),
{
    if commands.len() > 0 {
        let front = commands.drop_last();
        replay_rebuilds_the_book_and_the_trades(front);
        sessions_stay_valid(front);
        let before = book::submitted(front);
        let session = book::submitted(commands);
        let event = before.state.event(commands.last());
        if before.state.after(event).1 is Ok {
            assert(session.accepted.drop_last() =~= before.accepted);
            assert(session.accepted.last() == event);
        }
    }
}

/// A replay ends with the first event that is turned down, whatever comes after it.
pub proof fn replay_stops_at_a_refused_event(events: Seq<Event>, n: int)
    requires
        0 <= n <= events.len(),
        book::replayed(events.take(n)) is Err,
    ensures
        book::replayed(events) == book::replayed(events.take(n)),
    decreases events.len(),
{
    if n < events.len() {
        let front = events.drop_last();
        assert(front.take(n) =~= events.take(n));
        replay_stops_at_a_refused_event(front, n);
    } else {
        assert(events.take(n) =~= events);
    }
}

/// Whether `s` lists the prices of a side with their orders, bids from the highest price down and
/// asks from the lowest price up. Each order is listed in its place, with its own identifier,
/// units and number.
pub open spec fn lists_side(side: Side, levels: Levels, s: Seq<(Price, Seq<OrderView>)>) -> bool {
    &&& forall|i: int, j: int|
        0 <= i < j < s.len() ==> match side {
            Side::Bid => (#[trigger] s[i]).0 > (#[trigger] s[j]).0,
            Side::Ask => s[i].0 < s[j].0,
        }
    &&& forall|i: int|
        0 <= i < s.len() ==> {
            &&& levels.contains_key((#[trigger] s[i]).0)
            &&& s[i].1.len() == levels[s[i].0].len()
            &&& s[i].1.len() > 0
        }
    &&& forall|i: int, k: int|
        0 <= i < s.len() && 0 <= k < s[i].1.len() ==> {
            &&& (#[trigger] s[i].1[k]).id == levels[s[i].0][k].id
            &&& s[i].1[k].qty == levels[s[i].0][k].qty
            &&& s[i].1[k].seq == levels[s[i].0][k].seq
        }
    &&& forall|p: Price| #[trigger]
        levels.contains_key(p) ==> exists|i: int| 0 <= i < s.len() && (#[trigger] s[i]).0 == p
}

/// A snapshot lists exactly the orders of the book: bids from the highest price down, asks from
/// the lowest price up, and the best bid below the best ask.
pub proof fn snapshots_list_the_book(book: Book)
    requires
        book.valid(),
    ensures
        lists_side(Side::Bid, book.bids, book.shown().bids),
        lists_side(Side::Ask, book.asks, book.shown().asks),
        book.shown().bids.len() > 0 && book.shown().asks.len() > 0 ==> book.shown().bids[0].0
            < book.shown().asks[0].0,
{
    lemma_shown_lists(Side::Bid, book.bids);
    lemma_shown_lists(Side::Ask, book.asks);
    if book.shown().bids.len() > 0 && book.shown().asks.len() > 0 {
        assert(book.bids.contains_key(book.shown().bids[0].0));
        assert(book.asks.contains_key(book.shown().asks[0].0));
    }
}

/// Two books with the same snapshot are the same book.
pub proof fn snapshots_tell_books_apart(a: Book, b: Book)
    requires
        a.valid(),
        b.valid(),
        a.shown() == b.shown(),
    ensures
        a == b,
{
    snapshots_list_the_book(a);
    snapshots_list_the_book(b);
    lemma_listed_once(Side::Bid, a.bids, b.bids, a.shown().bids);
    lemma_listed_once(Side::Ask, a.asks, b.asks, a.shown().asks);
}

/// A list of levels lists one side only.
proof fn lemma_listed_once(side: Side, a: Levels, b: Levels, s: Seq<(Price, Seq<OrderView>)>)
    requires
        lists_side(side, a, s),
        lists_side(side, b, s),
    ensures
        a == b,
{
    assert forall|p: Price| a.contains_key(p) <==> b.contains_key(p) by {
        if a.contains_key(p) {
            let i = choose|i: int| 0 <= i < s.len() && (#[trigger] s[i]).0 == p;
            assert(b.contains_key(s[i].0));
        }
        if b.contains_key(p) {
            let i = choose|i: int| 0 <= i < s.len() && (#[trigger] s[i]).0 == p;
            assert(a.contains_key(s[i].0));
        }
    }
    assert forall|p: Price| #[trigger] a.contains_key(p) implies a[p] == b[p] by {
        let i = choose|i: int| 0 <= i < s.len() && (#[trigger] s[i]).0 == p;
        assert(a[p].len() == s[i].1.len() && b[p].len() == s[i].1.len());
        assert forall|j: int| 0 <= j < a[p].len() implies a[p][j] == b[p][j] by {
            assert(s[i].1[j].id == a[p][j].id);
        }
        assert(a[p] =~= b[p]);
    }
    assert(a =~= b);
}

/// The levels that a snapshot shows list the side.
proof fn lemma_shown_lists(side: Side, levels: Levels)
    requires
        book::levels_valid(levels),
    ensures
        lists_side(side, levels, book::shown_levels(side, levels)),
    decreases levels.dom().len(),
{
    let price = book::best(side, levels);
    let s = book::shown_levels(side, levels);
    if !book::has_best(side, levels) {
        if levels.dom() != Set::<Price>::empty() {
            validity::lemma_has_best(side, levels);
        }
        assert forall|p: Price| !#[trigger] levels.contains_key(p) by {
            assert(!levels.dom().contains(p));
        }
    } else {
        let less = levels.remove(price);
        let tail = book::shown_levels(side, less);
        validity::lemma_price_removed(levels, price);
        lemma_shown_lists(side, less);
        assert(s.drop_first() =~= tail);
        assert forall|i: int, j: int| 0 <= i < j < s.len() implies side.better(
            (#[trigger] s[i]).0,
            (#[trigger] s[j]).0,
        ) by {
            assert(s[j] == tail[j - 1]);
            assert(less.contains_key(tail[j - 1].0));
            if i > 0 {
                assert(s[i] == tail[i - 1]);
            } else {
                assert(levels.contains_key(s[j].0));
            }
        }
        assert forall|i: int| 0 <= i < s.len() implies {
            &&& levels.contains_key((#[trigger] s[i]).0)
            &&& s[i].1.len() == levels[s[i].0].len()
            &&& s[i].1.len() > 0
        } by {
            if i > 0 {
                assert(s[i] == tail[i - 1]);
                assert(less.contains_key(tail[i - 1].0));
            }
        }
        assert forall|i: int, k: int| 0 <= i < s.len() && 0 <= k < s[i].1.len() implies {
            &&& (#[trigger] s[i].1[k]).id == levels[s[i].0][k].id
            &&& s[i].1[k].qty == levels[s[i].0][k].qty
            &&& s[i].1[k].seq == levels[s[i].0][k].seq
        } by {
            if i > 0 {
                assert(s[i] == tail[i - 1]);
                assert(less.contains_key(tail[i - 1].0));
                assert(tail[i - 1].1[k].id == less[tail[i - 1].0][k].id);
            }
        }
        assert forall|p: Price| #[trigger] levels.contains_key(p) implies exists|i: int|
            0 <= i < s.len() && (#[trigger] s[i]).0 == p by {
            if p == price {
                assert(s[0].0 == p);
            } else {
                assert(less.contains_key(p));
                let i = choose|i: int| 0 <= i < tail.len() && (#[trigger] tail[i]).0 == p;
                assert(s[i + 1] == tail[i]);
            }
        }
    }
}

/// The units of the orders in a queue.
pub open spec fn queued_units(queue: Seq<(Price, RestingOrder)>) -> int
    decreases queue.len(),
{
    if queue.len() == 0 {
        0
    } else {
        queued_units(queue.drop_last()) + queue.last().1.qty
    }
}

/// The units of all orders that wait in a book.
pub open spec fn waiting_units(book: Book) -> int {
    queued_units(book::queue(Side::Bid, book.bids)) + queued_units(
        book::queue(Side::Ask, book.asks),
    )
}

/// No units are made or lost. The units of an order that is carried out join those that wait, but
/// for the traded ones, which leave on both sides. Cancelling takes out the units of the one order,
/// and a command that is turned down none.
pub proof fn units_are_conserved(before: Book, seq: Sequence, command: Command)
    requires
        before.valid(),
    ensures
        ({
            let (after, outcome) = before.after(seq, command);
            match (command, outcome) {
                (_, Err(_)) => waiting_units(after) == waiting_units(before),
                (Command::Limit { qty, .. }, Ok(fills)) => waiting_units(after) == waiting_units(
                    before,
                ) + qty - 2 * book::units(fills),
                (Command::Cancel { id }, Ok(_)) => {
                    let only = |entry: (Price, RestingOrder)| entry.1.id == id;
                    waiting_units(after) == waiting_units(before) - queued_units(
                        book::queue(Side::Bid, before.bids).filter(only),
                    ) - queued_units(book::queue(Side::Ask, before.asks).filter(only))
                },
            }
        }),
{
    match command {
        Command::Limit { id, side, price, qty } => {
            if before.limit(seq, id, side, price, qty).1 is Ok {
                let other = side.opposite();
                let (after, outcome) = before.limit(seq, id, side, price, qty);
                let fills = outcome->Ok_0;
                let left = qty - book::units(fills);
                priority::lemma_side_takes(
                    other,
                    Taker { seq, id },
                    price,
                    before.side(other),
                    qty,
                );
                trades_follow_price_time_priority(before, seq, id, side, price, qty);
                lemma_taken_units(
                    book::queue(other, before.side(other)),
                    Taker { seq, id },
                    qty as int,
                    fills,
                    book::queue(other, after.side(other)),
                    left,
                );
                if left > 0 {
                    lemma_added_units(
                        side,
                        before.side(side),
                        price,
                        RestingOrder { id, qty: left as Quantity, seq },
                    );
                }
            }
        },
        Command::Cancel { id } => {
            lemma_queue_without(Side::Bid, before.bids, id);
            lemma_queue_without(Side::Ask, before.asks, id);
            lemma_split_units(book::queue(Side::Bid, before.bids), id);
            lemma_split_units(book::queue(Side::Ask, before.asks), id);
        },
    }
}

/// The units of two queues, one after the other, add up.
proof fn lemma_queued_concat(a: Seq<(Price, RestingOrder)>, b: Seq<(Price, RestingOrder)>)
    ensures
        queued_units(a + b) == queued_units(a) + queued_units(b),
    decreases b.len(),
{
    if b.len() == 0 {
        assert(a + b =~= a);
    } else {
        assert((a + b).drop_last() =~= a + b.drop_last());
        lemma_queued_concat(a, b.drop_last());
    }
}

/// Orders have an identifier or do not have it.
proof fn lemma_split_units(queue: Seq<(Price, RestingOrder)>, id: OrderId)
    ensures
        queued_units(queue) == queued_units(
            queue.filter(|entry: (Price, RestingOrder)| entry.1.id != id),
        ) + queued_units(queue.filter(|entry: (Price, RestingOrder)| entry.1.id == id)),
    decreases queue.len(),
{
    reveal(Seq::filter);
    if queue.len() > 0 {
        lemma_split_units(queue.drop_last(), id);
        let others = |entry: (Price, RestingOrder)| entry.1.id != id;
        let only = |entry: (Price, RestingOrder)| entry.1.id == id;
        let front = queue.drop_last();
        let last = queue.last();
        assert(front.filter(others).push(last).drop_last() =~= front.filter(others));
        assert(front.filter(only).push(last).drop_last() =~= front.filter(only));
    }
}

/// The units that are traded leave the queue.
proof fn lemma_taken_units(
    waiting: Seq<(Price, RestingOrder)>,
    taker: Taker,
    qty: int,
    fills: Seq<Fill>,
    still: Seq<(Price, RestingOrder)>,
    left: int,
)
    requires
        priority::takes_from_front(waiting, taker, qty, fills, still, left),
    ensures
        queued_units(still) == queued_units(waiting) - book::units(fills),
{
    let gone = waiting.len() - still.len();
    let taken = waiting.take(gone);
    let kept = waiting.skip(gone);
    assert(taken + kept =~= waiting);
    lemma_queued_concat(taken, kept);
    lemma_whole_units(taken, fills.take(gone));
    if fills.len() > gone {
        let fill = fills[gone];
        assert(fills.drop_last() =~= fills.take(gone));
        assert(fills.last() == fill);
        let first = still.take(1);
        let rest = still.skip(1);
        assert(still[0].1.qty == waiting[gone].1.qty - fill.qty);
        assert(rest =~= kept.skip(1)) by {
            assert forall|j: int| 0 <= j < rest.len() implies rest[j] == kept.skip(1)[j] by {
                assert(still[j + 1] == waiting[j + 1 + gone]);
            }
        }
        assert(first + rest =~= still);
        assert(kept.take(1) + kept.skip(1) =~= kept);
        lemma_queued_concat(first, rest);
        lemma_queued_concat(kept.take(1), kept.skip(1));
        assert(queued_units(first.drop_last()) == 0);
        assert(queued_units(kept.take(1).drop_last()) == 0);
        assert(first.last().1.qty == kept.take(1).last().1.qty - fill.qty);
    } else {
        assert(fills.take(gone) =~= fills);
        assert(still =~= kept) by {
            assert forall|j: int| 0 <= j < still.len() implies still[j] == kept[j] by {
                assert(still[j] == waiting[j + gone]);
            }
        }
    }
}

/// Orders that are taken whole give all their units.
proof fn lemma_whole_units(orders: Seq<(Price, RestingOrder)>, fills: Seq<Fill>)
    requires
        orders.len() == fills.len(),
        forall|j: int| 0 <= j < fills.len() ==> (#[trigger] fills[j]).qty == orders[j].1.qty,
    ensures
        queued_units(orders) == book::units(fills),
    decreases orders.len(),
{
    if orders.len() > 0 {
        let front = fills.drop_last();
        assert forall|j: int| 0 <= j < front.len() implies (#[trigger] front[j]).qty
            == orders.drop_last()[j].1.qty by {
            assert(front[j] == fills[j]);
        }
        lemma_whole_units(orders.drop_last(), front);
        assert(fills[fills.len() - 1].qty == orders.last().1.qty);
    }
}

/// The units of an order that joins a side are added to those of the side.
proof fn lemma_added_units(side: Side, levels: Levels, price: Price, order: RestingOrder)
    requires
        book::levels_valid(levels),
    ensures
        queued_units(book::queue(side, book::add_order(levels, price, order))) == queued_units(
            book::queue(side, levels),
        ) + order.qty,
    decreases levels.dom().len(),
{
    let after = book::add_order(levels, price, order);
    assert(after.dom().finite());
    assert(after.contains_key(price));
    assert(after.dom().contains(price));
    validity::lemma_has_best(side, after);
    let first = book::best(side, after);
    lemma_queued_concat(book::priced(first, after[first]), book::queue(side, after.remove(first)));
    if first == price {
        let here = book::priced(price, after[price]);
        assert(here.last().1 == order);
        if levels.contains_key(price) {
            assert forall|q: Price| #[trigger] levels.contains_key(q) implies q == price
                || side.better(price, q) by {
                assert(after.contains_key(q));
            }
            validity::lemma_best_is(side, levels, price);
            assert(after.remove(price) =~= levels.remove(price));
            assert(here.drop_last() =~= book::priced(price, levels[price]));
            lemma_queued_concat(
                book::priced(price, levels[price]),
                book::queue(side, levels.remove(price)),
            );
        } else {
            assert(after.remove(price) =~= levels);
            assert(queued_units(here.drop_last()) == 0);
        }
    } else {
        let less = levels.remove(first);
        assert(after[first] == levels[first]);
        assert(levels.contains_key(first));
        assert forall|q: Price| #[trigger] levels.contains_key(q) implies q == first
            || side.better(first, q) by {
            assert(after.contains_key(q));
        }
        validity::lemma_best_is(side, levels, first);
        validity::lemma_price_removed(levels, first);
        lemma_added_units(side, less, price, order);
        assert(after.remove(first) =~= book::add_order(less, price, order));
        lemma_queued_concat(book::priced(first, levels[first]), book::queue(side, less));
    }
}

} // verus!
