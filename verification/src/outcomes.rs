//! What comes of each event, said of the orders that wait before and after it.
use vstd::prelude::*;

use crate::book;
use crate::book::{Book, EngineState, Levels};
use crate::laws;
use crate::types::{BookSnapshot, Command, EngineError, Event, Fill, OrderId, Price};
use crate::types::{Quantity, RestingOrder, Sequence, Side};
use crate::validity;

verus! {

/// Whether an order with identifier `id` waits on one side.
pub open spec fn waits(levels: Levels, id: OrderId) -> bool {
    exists|p: Price, i: int|
        levels.contains_key(p) && 0 <= i < levels[p].len() && (#[trigger] levels[p][i]).id == id
}

/// An order waits in the book if it waits on one of its sides.
proof fn lemma_waits(book: Book, id: OrderId)
    ensures
        book.rests(id) == (waits(book.bids, id) || waits(book.asks, id)),
{
    if book.rests(id) {
        let (s, p, i) = choose|s: Side, p: Price, i: int| book.at(s, p, i, id);
        match s {
            Side::Bid => {
                assert(book.bids[p][i].id == id);
            },
            Side::Ask => {
                assert(book.asks[p][i].id == id);
            },
        }
    }
    if waits(book.bids, id) {
        let (p, i) = choose|p: Price, i: int|
            book.bids.contains_key(p) && 0 <= i < book.bids[p].len() && (
            #[trigger] book.bids[p][i]).id == id;
        assert(book.at(Side::Bid, p, i, id));
    }
    if waits(book.asks, id) {
        let (p, i) = choose|p: Price, i: int|
            book.asks.contains_key(p) && 0 <= i < book.asks[p].len() && (
            #[trigger] book.asks[p][i]).id == id;
        assert(book.at(Side::Ask, p, i, id));
    }
}

/// A limit order is carried out if and only if it has units and no order with its identifier
/// waits, on either side. Without units it is turned down for its quantity; with units, and the
/// identifier of an order that waits, for its identifier. Turned down, it leaves the book alone.
pub proof fn limit_orders_are_carried_out_or_turned_down(
    state: EngineState,
    seq: Sequence,
    id: OrderId,
    side: Side,
    price: Price,
    qty: Quantity,
)
    ensures
        ({
            let taken = waits(state.book.bids, id) || waits(state.book.asks, id);
            let (after, outcome) = state.after(
                Event { seq, command: Command::Limit { id, side, price, qty } },
            );
            &&& outcome is Ok <==> qty > 0 && !taken
            &&& qty <= 0 ==> outcome == Err::<Seq<Fill>, EngineError>(
                EngineError::NonPositiveQuantity(qty),
            )
            &&& qty > 0 && taken ==> outcome == Err::<Seq<Fill>, EngineError>(
                EngineError::DuplicateOrder(id),
            )
            &&& outcome is Err ==> after.book.bids == state.book.bids && after.book.asks
                == state.book.asks
        }),
{
    lemma_waits(state.book, id);
}

/// An event does to the book what its command does, as the event's number says.
pub proof fn events_carry_out_their_commands(state: EngineState, event: Event)
    ensures
        match event.command {
            Command::Limit { id, side, price, qty } => {
                let (book, outcome) = state.book.limit(event.seq, id, side, price, qty);
                state.after(event).0.book == book && state.after(event).1 == outcome
            },
            Command::Cancel { id } => {
                state.after(event).0.book == state.book.without(id) && state.after(event).1
                    == Ok::<Seq<Fill>, EngineError>(Seq::empty())
            },
        },
{
}

/// The units that change hands are the sum of what each trade says.
pub proof fn traded_units_are_the_sum_of_the_trades(fills: Seq<Fill>)
    ensures
        book::units(fills) == fills.fold_left(0int, |sum: int, fill: Fill| sum + fill.qty),
    decreases fills.len(),
{
    if fills.len() > 0 {
        traded_units_are_the_sum_of_the_trades(fills.drop_last());
    }
}

/// A cancellation is always carried out, and nothing trades. The order with the identifier leaves
/// the queue that it waits in, if it waits, and all other orders stay as they are and where they
/// are.
pub proof fn cancellations_take_one_order_out(state: EngineState, seq: Sequence, id: OrderId)
    requires
        state.book.valid(),
    ensures
        ({
            let (after, outcome) = state.after(Event { seq, command: Command::Cancel { id } });
            let others = |entry: (Price, RestingOrder)| entry.1.id != id;
            &&& outcome == Ok::<Seq<Fill>, EngineError>(Seq::empty())
            &&& !waits(after.book.bids, id) && !waits(after.book.asks, id)
            &&& book::queue(Side::Bid, after.book.bids) == book::queue(
                Side::Bid,
                state.book.bids,
            ).filter(others)
            &&& book::queue(Side::Ask, after.book.asks) == book::queue(
                Side::Ask,
                state.book.asks,
            ).filter(others)
        }),
{
    laws::cancel_removes_only_its_order(state.book, Side::Bid, id);
    laws::cancel_removes_only_its_order(state.book, Side::Ask, id);
    lemma_waits(state.book.without(id), id);
}

/// Whether no two orders that wait have the same identifier, and no price is without orders, and
/// no order without units.
pub open spec fn tidy(levels: Levels) -> bool {
    &&& forall|p: Price| #[trigger] levels.contains_key(p) ==> levels[p].len() > 0
    &&& forall|p: Price, i: int|
        levels.contains_key(p) && 0 <= i < levels[p].len() ==> (#[trigger] levels[p][i]).qty > 0
    &&& forall|p: Price, i: int, q: Price, j: int|
        levels.contains_key(p) && levels.contains_key(q) && 0 <= i < levels[p].len() && 0 <= j
            < levels[q].len() && (#[trigger] levels[p][i]).id == (#[trigger] levels[q][j]).id
            ==> p == q && i == j
}

/// Every event leaves a book in which every bid is below every ask, every order has units, no
/// price is without orders and no two orders have the same identifier.
pub proof fn books_stay_tidy_and_uncrossed(state: EngineState, event: Event)
    requires
        state.book.valid(),
    ensures
        ({
            let after = state.after(event).0.book;
            &&& after.valid()
            &&& tidy(after.bids)
            &&& tidy(after.asks)
            &&& forall|b: Price, a: Price| #[trigger]
                after.bids.contains_key(b) && #[trigger] after.asks.contains_key(a) ==> b < a
            &&& forall|id: OrderId| !(waits(after.bids, id) && waits(after.asks, id))
        }),
{
    laws::every_command_keeps_the_book_valid(state.book, event.seq, event.command);
    let after = state.after(event).0.book;
    assert forall|id: OrderId| !(waits(after.bids, id) && waits(after.asks, id)) by {
        if waits(after.bids, id) && waits(after.asks, id) {
            let (p, i) = choose|p: Price, i: int|
                after.bids.contains_key(p) && 0 <= i < after.bids[p].len() && (
                #[trigger] after.bids[p][i]).id == id;
            let (q, j) = choose|q: Price, j: int|
                after.asks.contains_key(q) && 0 <= j < after.asks[q].len() && (
                #[trigger] after.asks[q][j]).id == id;
            assert(after.at(Side::Bid, p, i, id));
            assert(after.at(Side::Ask, q, j, id));
        }
    }
    lemma_tidy(after, Side::Bid);
    lemma_tidy(after, Side::Ask);
}

/// The sides of a valid book are tidy.
proof fn lemma_tidy(book: Book, side: Side)
    requires
        book.valid(),
    ensures
        tidy(book.side(side)),
{
    let levels = book.side(side);
    assert(book::levels_valid(levels));
    assert forall|p: Price, i: int, q: Price, j: int|
        levels.contains_key(p) && levels.contains_key(q) && 0 <= i < levels[p].len() && 0 <= j
            < levels[q].len() && (#[trigger] levels[p][i]).id == (
        #[trigger] levels[q][j]).id implies p == q && i == j by {
        assert(book.at(side, p, i, levels[p][i].id));
        assert(book.at(side, q, j, levels[p][i].id));
    }
}

/// Numbers go on after the highest that was seen, whatever comes of the event, and a submitted
/// command gets the number that comes next.
pub proof fn numbers_go_on_after_the_highest(state: EngineState, event: Event, command: Command)
    requires
        event.seq < Sequence::MAX,
    ensures
        state.after(event).0.next_seq == if event.seq + 1 > state.next_seq {
            event.seq + 1
        } else {
            state.next_seq as int
        },
        state.event(command).seq == state.next_seq,
        state.event(command).command == command,
{
}

/// Picks the orders of one price.
pub open spec fn at_price(p: Price) -> spec_fn((Price, RestingOrder)) -> bool {
    |entry: (Price, RestingOrder)| entry.0 == p
}

/// The orders of one price in a queue, in the order of the queue.
pub open spec fn orders_at(queue: Seq<(Price, RestingOrder)>, p: Price) -> Seq<RestingOrder> {
    queue.filter(at_price(p)).map_values(|entry: (Price, RestingOrder)| entry.1)
}

/// Whether a queue lists a side in the order in which its orders trade: bids from the highest
/// price down and asks from the lowest price up, at each price all the orders that wait there, as
/// they stand.
pub open spec fn queues(side: Side, levels: Levels, queue: Seq<(Price, RestingOrder)>) -> bool {
    &&& forall|j: int, k: int|
        0 <= j < k < queue.len() ==> match side {
            Side::Bid => (#[trigger] queue[j]).0 >= (#[trigger] queue[k]).0,
            Side::Ask => queue[j].0 <= queue[k].0,
        }
    &&& forall|j: int| 0 <= j < queue.len() ==> levels.contains_key((#[trigger] queue[j]).0)
    &&& forall|p: Price| #[trigger]
        levels.contains_key(p) ==> orders_at(queue, p) == levels[p]
}

/// The queue that trades follow lists the side in price-time order.
pub proof fn queues_stand_in_price_time_order(side: Side, levels: Levels)
    requires
        book::levels_valid(levels),
    ensures
        queues(side, levels, book::queue(side, levels)),
    decreases levels.dom().len(),
{
    let price = book::best(side, levels);
    if !book::has_best(side, levels) {
        if levels.dom() != Set::<Price>::empty() {
            validity::lemma_has_best(side, levels);
        }
        assert forall|p: Price| !#[trigger] levels.contains_key(p) by {
            assert(!levels.dom().contains(p));
        }
    } else {
        let less = levels.remove(price);
        validity::lemma_price_removed(levels, price);
        queues_stand_in_price_time_order(side, less);
        lemma_queue_grows(side, levels, price, book::queue(side, less));
    }
}

/// The orders of the best price stand before a queue of the other prices.
proof fn lemma_queue_grows(
    side: Side,
    levels: Levels,
    price: Price,
    rest: Seq<(Price, RestingOrder)>,
)
    requires
        book::is_best(side, levels, price),
        queues(side, levels.remove(price), rest),
    ensures
        queues(side, levels, book::priced(price, levels[price]) + rest),
{
    let less = levels.remove(price);
    let here = book::priced(price, levels[price]);
    let queue = here + rest;
    assert forall|j: int| 0 <= j < queue.len() implies levels.contains_key(
        (#[trigger] queue[j]).0,
    ) by {
        if j >= here.len() {
            assert(queue[j] == rest[j - here.len()]);
            assert(less.contains_key(rest[j - here.len()].0));
        }
    }
    assert forall|j: int, k: int| 0 <= j < k < queue.len() implies match side {
        Side::Bid => (#[trigger] queue[j]).0 >= (#[trigger] queue[k]).0,
        Side::Ask => queue[j].0 <= queue[k].0,
    } by {
        assert(levels.contains_key(queue[k].0));
        if j >= here.len() {
            assert(rest[j - here.len()] == queue[j]);
            assert(rest[k - here.len()] == queue[k]);
        }
    }
    assert forall|p: Price| #[trigger] levels.contains_key(p) implies orders_at(queue, p)
        == levels[p] by {
        lemma_picked(side, levels, price, rest, p);
    }
}

/// What picking the orders of one price gives once the orders of the best price stand in front.
proof fn lemma_picked(
    side: Side,
    levels: Levels,
    price: Price,
    rest: Seq<(Price, RestingOrder)>,
    p: Price,
)
    requires
        levels.contains_key(p),
        queues(side, levels.remove(price), rest),
    ensures
        orders_at(book::priced(price, levels[price]) + rest, p) == levels[p],
{
    let less = levels.remove(price);
    let here = book::priced(price, levels[price]);
    let at = at_price(p);
    let order = |entry: (Price, RestingOrder)| entry.1;
    Seq::filter_distributes_over_add(here, rest, at);
    lemma_filter_here(price, levels[price], p);
    if p == price {
        assert forall|j: int| 0 <= j < rest.len() implies (#[trigger] rest[j]).0 != p by {
            assert(less.contains_key(rest[j].0));
        }
        lemma_filter_none(rest, p);
        assert(here.filter(at) == here);
        assert(rest.filter(at) == Seq::<(Price, RestingOrder)>::empty());
        assert(here + Seq::<(Price, RestingOrder)>::empty() =~= here);
        assert(here.map_values(order) =~= levels[price]);
    } else {
        assert(less.contains_key(p));
        assert(orders_at(rest, p) == less[p]);
        assert(here.filter(at) == Seq::<(Price, RestingOrder)>::empty());
        assert(Seq::<(Price, RestingOrder)>::empty() + rest.filter(at) =~= rest.filter(at));
    }
}

/// Picking the orders of a price from those of one price gives all of them or none.
proof fn lemma_filter_here(price: Price, level: Seq<RestingOrder>, p: Price)
    ensures
        book::priced(price, level).filter(at_price(p)) == if p
            == price {
            book::priced(price, level)
        } else {
            Seq::empty()
        },
    decreases level.len(),
{
    reveal(Seq::filter);
    let at = at_price(p);
    let all = book::priced(price, level);
    if level.len() > 0 {
        lemma_filter_here(price, level.drop_last(), p);
        assert(all.drop_last() =~= book::priced(price, level.drop_last()));
        if p == price {
            assert(all.filter(at) =~= all);
        }
    } else {
        assert(all.filter(at) =~= Seq::empty());
        assert(all =~= Seq::empty());
    }
}

/// Picking the orders of a price from those of other prices gives none.
proof fn lemma_filter_none(queue: Seq<(Price, RestingOrder)>, p: Price)
    requires
        forall|j: int| 0 <= j < queue.len() ==> (#[trigger] queue[j]).0 != p,
    ensures
        queue.filter(at_price(p)) == Seq::<
            (Price, RestingOrder),
        >::empty(),
    decreases queue.len(),
{
    reveal(Seq::filter);
    if queue.len() > 0 {
        let front = queue.drop_last();
        assert forall|j: int| 0 <= j < front.len() implies (#[trigger] front[j]).0 != p by {
            assert(front[j] == queue[j]);
        }
        lemma_filter_none(front, p);
        assert(queue[queue.len() - 1].0 != p);
    } else {
        assert(queue.filter(at_price(p)) =~= Seq::empty());
    }
}

/// An order that joins a side without trading stands last at its price; all other orders stay
/// where they are.
pub proof fn resting_orders_stand_last(levels: Levels, price: Price, order: RestingOrder)
    ensures
        ({
            let after = book::add_order(levels, price, order);
            &&& after.contains_key(price)
            &&& after[price].len() > 0
            &&& after[price].last() == order
            &&& after[price].drop_last() == if levels.contains_key(price) {
                levels[price]
            } else {
                Seq::empty()
            }
            &&& forall|p: Price|
                p != price ==> (#[trigger] after.contains_key(p) <==> levels.contains_key(p))
            &&& forall|p: Price|
                p != price && #[trigger] after.contains_key(p) ==> after[p] == levels[p]
        }),
{
    let level = if levels.contains_key(price) {
        levels[price]
    } else {
        Seq::empty()
    };
    assert(level.push(order).drop_last() =~= level);
}

/// Replay goes event by event, from an engine with an empty book whose first number is 1. Each
/// event that is carried out adds its trades behind those from before; the first that is turned
/// down ends the replay with its place and the reason, and nothing that follows changes that.
pub proof fn replay_goes_event_by_event(events: Seq<Event>, event: Event)
    ensures
        book::replayed(Seq::empty()) is Ok,
        book::replayed(Seq::empty())->Ok_0.0.next_seq == 1,
        book::replayed(Seq::empty())->Ok_0.0.book.bids == Map::<Price, Seq<RestingOrder>>::empty(),
        book::replayed(Seq::empty())->Ok_0.0.book.asks == Map::<Price, Seq<RestingOrder>>::empty(),
        book::replayed(Seq::empty())->Ok_0.1 == Seq::<Fill>::empty(),
        match book::replayed(events) {
            Err(e) => book::replayed(events.push(event)) == Err::<
                (EngineState, Seq<Fill>),
                (int, EngineError),
            >(e),
            Ok((state, fills)) => {
                let (after, outcome) = state.after(event);
                match outcome {
                    Ok(more) => book::replayed(events.push(event)) == Ok::<
                        (EngineState, Seq<Fill>),
                        (int, EngineError),
                    >((after, fills + more)),
                    Err(e) => book::replayed(events.push(event)) == Err::<
                        (EngineState, Seq<Fill>),
                        (int, EngineError),
                    >((events.len() as int, e)),
                }
            },
        },
{
    assert(events.push(event).drop_last() =~= events);
}

/// A replay cannot be done if and only if it reaches an event with the highest number there is.
pub proof fn replays_reach_no_highest_number(events: Seq<Event>)
    ensures
        !book::can_replay(events) <==> exists|i: int|
            0 <= i < events.len() && book::replayed(#[trigger] events.take(i)) is Ok
                && events[i].seq == Sequence::MAX,
{
}

/// A snapshot holds what its fields hold: on each side the same levels in the same order, each
/// with its price and its orders.
pub proof fn snapshots_hold_their_fields(snapshot: BookSnapshot)
    ensures
        snapshot@.bids.len() == snapshot.bids@.len(),
        snapshot@.asks.len() == snapshot.asks@.len(),
        forall|i: int|
            0 <= i < snapshot.bids@.len() ==> (#[trigger] snapshot@.bids[i]).0
                == snapshot.bids@[i].0 && snapshot@.bids[i].1 == snapshot.bids@[i].1@,
        forall|i: int|
            0 <= i < snapshot.asks@.len() ==> (#[trigger] snapshot@.asks[i]).0
                == snapshot.asks@[i].0 && snapshot@.asks[i].1 == snapshot.asks@[i].1@,
{
}

} // verus!
