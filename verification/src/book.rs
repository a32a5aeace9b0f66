//! The mathematical model of the book: what it holds, and what each command does to it.
use vstd::prelude::*;

use crate::types::{Command, EngineError, Event, Fill, OrderId, OrderView, Price, Quantity};
use crate::types::{RestingOrder, Sequence, Side, SnapshotContents};

verus! {

/// One side of the book: at each price the orders waiting there, the first to arrive first.
pub type Levels = Map<Price, Seq<RestingOrder>>;

/// Whether `p` is the price that trades first on a side.
pub open spec fn is_best(side: Side, levels: Levels, p: Price) -> bool {
    &&& levels.contains_key(p)
    &&& forall|q: Price| #[trigger] levels.contains_key(q) ==> q == p || side.better(p, q)
}

/// The price that trades first on a side, if any order waits there.
pub open spec fn best(side: Side, levels: Levels) -> Price {
    choose|p: Price| is_best(side, levels, p)
}

/// Whether a side has a price that trades first.
pub open spec fn has_best(side: Side, levels: Levels) -> bool {
    is_best(side, levels, best(side, levels))
}

/// What comes of an incoming order that trades with the orders of one price.
pub struct LevelMatch {
    pub fills: Seq<Fill>,
    pub level: Seq<RestingOrder>,
    pub left: Quantity,
}

/// What comes of an incoming order that trades with one side of the book.
#[verifier::ext_equal]
pub struct SideMatch {
    pub fills: Seq<Fill>,
    pub levels: Levels,
    pub left: Quantity,
}

/// An incoming order: the event that brought it and its identifier.
pub struct Taker {
    pub seq: Sequence,
    pub id: OrderId,
}

/// The trade of `qty` units between `taker` and the resting order `maker` at `price`.
pub open spec fn trade(taker: Taker, maker: RestingOrder, price: Price, qty: Quantity) -> Fill {
    Fill { seq: taker.seq, maker: maker.id, taker: taker.id, price, qty }
}

/// An incoming order of `qty` units takes the orders of one level from the front.
pub open spec fn match_level(
    taker: Taker,
    price: Price,
    level: Seq<RestingOrder>,
    qty: Quantity,
) -> LevelMatch
    decreases level.len(),
{
    if qty <= 0 || level.len() == 0 {
        LevelMatch { fills: Seq::empty(), level, left: qty }
    } else if level[0].qty > qty {
        let rest = RestingOrder { qty: (level[0].qty - qty) as Quantity, ..level[0] };
        LevelMatch {
            fills: seq![trade(taker, level[0], price, qty)],
            level: level.update(0, rest),
            left: 0,
        }
    } else {
        let next = match_level(
            taker,
            price,
            level.drop_first(),
            (qty - level[0].qty) as Quantity,
        );
        LevelMatch {
            fills: seq![trade(taker, level[0], price, level[0].qty)] + next.fills,
            level: next.level,
            left: next.left,
        }
    }
}

/// A side with the orders of one price replaced; a price without orders leaves the side.
pub open spec fn put_level(levels: Levels, price: Price, level: Seq<RestingOrder>) -> Levels {
    if level.len() == 0 {
        levels.remove(price)
    } else {
        levels.insert(price, level)
    }
}

/// An incoming order of `qty` units trades with the side `side`, from the best price on, as long
/// as the price is within its limit price `limit`.
pub open spec fn match_side(
    side: Side,
    taker: Taker,
    limit: Price,
    levels: Levels,
    qty: Quantity,
) -> SideMatch
    decreases levels.dom().len(),
{
    let price = best(side, levels);
    if qty <= 0 || !levels.dom().finite() || !has_best(side, levels) || !side.crosses(
        price,
        limit,
    ) {
        SideMatch { fills: Seq::empty(), levels, left: qty }
    } else {
        let here = match_level(taker, price, levels[price], qty);
        if here.level.len() > 0 {
            SideMatch { fills: here.fills, levels: levels.insert(price, here.level), left: here.left }
        } else {
            let next = match_side(side, taker, limit, levels.remove(price), here.left);
            SideMatch { fills: here.fills + next.fills, levels: next.levels, left: next.left }
        }
    }
}

/// A side with one more order, last in line at its price.
pub open spec fn add_order(levels: Levels, price: Price, order: RestingOrder) -> Levels {
    let level = if levels.contains_key(price) {
        levels[price]
    } else {
        Seq::empty()
    };
    levels.insert(price, level.push(order))
}

/// The orders of one price but for those with identifier `id`.
pub open spec fn level_without(level: Seq<RestingOrder>, id: OrderId) -> Seq<RestingOrder> {
    level.filter(|order: RestingOrder| order.id != id)
}

/// A side but for the orders with identifier `id`.
pub open spec fn side_without(levels: Levels, id: OrderId) -> Levels {
    Map::new(
        |p: Price| levels.contains_key(p) && level_without(levels[p], id).len() > 0,
        |p: Price| level_without(levels[p], id),
    )
}

/// The levels of a side from the best price to the worst, as a snapshot shows them.
pub open spec fn shown_levels(side: Side, levels: Levels) -> Seq<(Price, Seq<OrderView>)>
    decreases levels.dom().len(),
{
    let price = best(side, levels);
    if !levels.dom().finite() || !has_best(side, levels) {
        Seq::empty()
    } else {
        seq![(price, levels[price].map_values(|order: RestingOrder| order.shown()))]
            + shown_levels(side, levels.remove(price))
    }
}

/// The orders of one price, each with that price.
pub open spec fn priced(price: Price, level: Seq<RestingOrder>) -> Seq<(Price, RestingOrder)> {
    level.map_values(|order: RestingOrder| (price, order))
}

/// The orders of a side in the order in which they trade: best price first, and at one price first
/// come first.
pub open spec fn queue(side: Side, levels: Levels) -> Seq<(Price, RestingOrder)>
    decreases levels.dom().len(),
{
    let price = best(side, levels);
    if !levels.dom().finite() || !has_best(side, levels) {
        Seq::empty()
    } else {
        priced(price, levels[price]) + queue(side, levels.remove(price))
    }
}

/// The units that change hands in a series of trades.
pub open spec fn units(fills: Seq<Fill>) -> int
    decreases fills.len(),
{
    if fills.len() == 0 {
        0
    } else {
        units(fills.drop_last()) + fills.last().qty
    }
}

/// What a side of a valid book looks like: finitely many prices, at each of them at least one
/// order, and every order with units left.
pub open spec fn levels_valid(levels: Levels) -> bool {
    &&& levels.dom().finite()
    &&& forall|p: Price| #[trigger] levels.contains_key(p) ==> levels[p].len() > 0
    &&& forall|p: Price, i: int|
        levels.contains_key(p) && 0 <= i < levels[p].len() ==> (#[trigger] levels[p][i]).qty > 0
}

/// The two sides of the book.
#[verifier::ext_equal]
pub struct Book {
    pub bids: Levels,
    pub asks: Levels,
}

impl Book {
    /// The book in which nothing waits.
    pub open spec fn empty() -> Book {
        Book { bids: Map::empty(), asks: Map::empty() }
    }

    pub open spec fn side(self, side: Side) -> Levels {
        match side {
            Side::Bid => self.bids,
            Side::Ask => self.asks,
        }
    }

    /// The book with one side replaced.
    pub open spec fn with_side(self, side: Side, levels: Levels) -> Book {
        match side {
            Side::Bid => Book { bids: levels, ..self },
            Side::Ask => Book { asks: levels, ..self },
        }
    }

    /// Whether the order with identifier `id` waits on side `side` at price `p`, in place `i`.
    pub open spec fn at(self, side: Side, p: Price, i: int, id: OrderId) -> bool {
        &&& self.side(side).contains_key(p)
        &&& 0 <= i < self.side(side)[p].len()
        &&& self.side(side)[p][i].id == id
    }

    /// Whether an order with identifier `id` waits in the book.
    pub open spec fn rests(self, id: OrderId) -> bool {
        exists|side: Side, p: Price, i: int| self.at(side, p, i, id)
    }

    /// No two orders in the book have the same identifier.
    pub open spec fn ids_unique(self) -> bool {
        forall|s1: Side, p1: Price, i1: int, s2: Side, p2: Price, i2: int, id: OrderId|
            #[trigger] self.at(s1, p1, i1, id) && #[trigger] self.at(s2, p2, i2, id) ==> s1 == s2
                && p1 == p2 && i1 == i2
    }

    /// No bid reaches an ask.
    pub open spec fn uncrossed(self) -> bool {
        forall|b: Price, a: Price| #[trigger]
            self.bids.contains_key(b) && #[trigger] self.asks.contains_key(a) ==> b < a
    }

    /// Both sides are valid, and no two orders have the same identifier.
    pub open spec fn sound(self) -> bool {
        &&& levels_valid(self.bids)
        &&& levels_valid(self.asks)
        &&& self.ids_unique()
    }

    /// What holds of every book that the engine reaches.
    pub open spec fn valid(self) -> bool {
        &&& self.sound()
        &&& self.uncrossed()
    }

    /// A limit order arrives: it trades with the other side within its limit, and what is left of
    /// it waits at its limit price. Without units, or with the identifier of an order that waits,
    /// it is turned down.
    pub open spec fn limit(
        self,
        seq: Sequence,
        id: OrderId,
        side: Side,
        price: Price,
        qty: Quantity,
    ) -> (Book, Result<Seq<Fill>, EngineError>) {
        if qty <= 0 {
            (self, Err(EngineError::NonPositiveQuantity(qty)))
        } else if self.rests(id) {
            (self, Err(EngineError::DuplicateOrder(id)))
        } else {
            let other = self.side(side.opposite());
            let matched = match_side(side.opposite(), Taker { seq, id }, price, other, qty);
            let book = self.with_side(side.opposite(), matched.levels);
            if matched.left > 0 {
                let order = RestingOrder { id, qty: matched.left, seq };
                (book.with_side(side, add_order(book.side(side), price, order)), Ok(matched.fills))
            } else {
                (book, Ok(matched.fills))
            }
        }
    }

    /// The order with identifier `id` leaves the book, if it waits there.
    pub open spec fn without(self, id: OrderId) -> Book {
        Book { bids: side_without(self.bids, id), asks: side_without(self.asks, id) }
    }

    /// What a command that arrives as event `seq` does to the book, and what comes of it.
    pub open spec fn after(self, seq: Sequence, command: Command) -> (
        Book,
        Result<Seq<Fill>, EngineError>,
    ) {
        match command {
            Command::Limit { id, side, price, qty } => self.limit(seq, id, side, price, qty),
            Command::Cancel { id } => (self.without(id), Ok(Seq::empty())),
        }
    }

    /// The book as a snapshot shows it.
    pub open spec fn shown(self) -> SnapshotContents {
        SnapshotContents {
            bids: shown_levels(Side::Bid, self.bids),
            asks: shown_levels(Side::Ask, self.asks),
        }
    }
}

/// The state of an engine: the number that its next event gets, and its book.
#[verifier::ext_equal]
pub struct EngineState {
    pub next_seq: Sequence,
    pub book: Book,
}

impl EngineState {
    /// An engine that has seen nothing.
    pub open spec fn fresh() -> EngineState {
        EngineState { next_seq: 1, book: Book::empty() }
    }

    /// What an event does to the engine, and what comes of it. Events number on from the highest
    /// that was seen, also where the command is turned down.
    pub open spec fn after(self, event: Event) -> (EngineState, Result<Seq<Fill>, EngineError>) {
        let (book, outcome) = self.book.after(event.seq, event.command);
        let next_seq = if self.next_seq > event.seq {
            self.next_seq
        } else {
            (event.seq + 1) as Sequence
        };
        (EngineState { next_seq, book }, outcome)
    }

    /// The event that a submitted command becomes.
    pub open spec fn event(self, command: Command) -> Event {
        Event { seq: self.next_seq, command }
    }
}

/// What an engine that has seen nothing makes of a series of submitted commands.
pub struct Session {
    pub state: EngineState,
    /// The events of the commands that were carried out, in order.
    pub accepted: Seq<Event>,
    /// All trades, in order.
    pub fills: Seq<Fill>,
}

/// Submits commands in order to an engine that has seen nothing.
pub open spec fn submitted(commands: Seq<Command>) -> Session
    decreases commands.len(),
{
    if commands.len() == 0 {
        Session { state: EngineState::fresh(), accepted: Seq::empty(), fills: Seq::empty() }
    } else {
        let before = submitted(commands.drop_last());
        let event = before.state.event(commands.last());
        match before.state.after(event) {
            (state, Ok(fills)) => Session {
                state,
                accepted: before.accepted.push(event),
                fills: before.fills + fills,
            },
            (state, Err(_)) => Session { state, ..before },
        }
    }
}

/// Carries out events in order from an engine that has seen nothing. Gives the engine's state and
/// all trades in order, or the place of the first event that is turned down, and the reason.
pub open spec fn replayed(events: Seq<Event>) -> Result<
    (EngineState, Seq<Fill>),
    (int, EngineError),
>
    decreases events.len(),
{
    if events.len() == 0 {
        Ok((EngineState::fresh(), Seq::empty()))
    } else {
        match replayed(events.drop_last()) {
            Err(e) => Err(e),
            Ok((state, fills)) => match state.after(events.last()) {
                (next, Ok(more)) => Ok((next, fills + more)),
                (_, Err(e)) => Err((events.len() - 1, e)),
            },
        }
    }
}

/// Whether events can be replayed: each that the replay reaches leaves a number for the next.
pub open spec fn can_replay(events: Seq<Event>) -> bool {
    forall|i: int|
        0 <= i < events.len() && replayed(#[trigger] events.take(i)) is Ok ==> events[i].seq
            < Sequence::MAX
}

} // verus!
