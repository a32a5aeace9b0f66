//! The vocabulary of the engine: orders, commands, events, trades and snapshots.
use vstd::prelude::*;

use crate::decimal;

verus! {

/// Identifier that a client gives to an order.
pub type OrderId = u64;

/// Limit price, in ticks.
pub type Price = i64;

/// Number of units.
pub type Quantity = i64;

/// Position of an event in the engine's history.
pub type Sequence = u64;

/// Side of the book.
#[derive(Clone, Copy, Debug, Eq, PartialEq, Hash, Structural)]
pub enum Side {
    Bid,
    Ask,
}

impl Side {
    /// The side that an order of this side trades against.
    pub open spec fn opposite(self) -> Side {
        match self {
            Side::Bid => Side::Ask,
            Side::Ask => Side::Bid,
        }
    }

    /// Whether, among orders resting on this side, price `p` comes before price `q`: the highest
    /// bid and the lowest ask come first.
    pub open spec fn better(self, p: Price, q: Price) -> bool {
        match self {
            Side::Bid => p > q,
            Side::Ask => p < q,
        }
    }

    /// Whether an order resting on this side at price `p` trades against an incoming order of the
    /// other side with limit price `limit`.
    pub open spec fn crosses(self, p: Price, limit: Price) -> bool {
        match self {
            Side::Bid => p >= limit,
            Side::Ask => p <= limit,
        }
    }
}

/// What a client asks of the engine.
#[derive(Clone, Copy, Debug, Eq, PartialEq, Structural)]
pub enum Command {
    Limit { id: OrderId, side: Side, price: Price, qty: Quantity },
    Cancel { id: OrderId },
}

/// A command with its place in the engine's history.
#[derive(Clone, Copy, Debug, Eq, PartialEq, Structural)]
pub struct Event {
    pub seq: Sequence,
    pub command: Command,
}

/// A trade between a resting order (`maker`) and an incoming one (`taker`).
#[derive(Clone, Copy, Debug, Eq, PartialEq, Structural)]
pub struct Fill {
    pub seq: Sequence,
    pub maker: OrderId,
    pub taker: OrderId,
    pub price: Price,
    pub qty: Quantity,
}

/// An event that the engine has carried out, with the trades that it caused.
#[derive(Clone, Debug, Eq, PartialEq)]
pub struct Accepted {
    pub event: Event,
    pub fills: Vec<Fill>,
}

/// Why the engine turned a command down.
#[derive(Clone, Copy, Debug, Eq, PartialEq, Structural)]
pub enum EngineError {
    DuplicateOrder(OrderId),
    NonPositiveQuantity(Quantity),
}

impl EngineError {
    /// What the error says.
    pub open spec fn message(self) -> Seq<char> {
        match self {
            EngineError::DuplicateOrder(id) => "duplicate order id "@ + decimal::decimal(id as int),
            EngineError::NonPositiveQuantity(qty) => "quantity must be positive, got "@
                + decimal::decimal(qty as int),
        }
    }

    /// What the error says.
    pub fn to_string(&self) -> (message: String)
        ensures
            message@ == self.message(),
    {
        match self {
            EngineError::DuplicateOrder(id) => {
                let mut message = "duplicate order id ".to_owned();
                decimal::write_u64(&mut message, *id);
                message
            },
            EngineError::NonPositiveQuantity(qty) => {
                let mut message = "quantity must be positive, got ".to_owned();
                decimal::write_i64(&mut message, *qty);
                message
            },
        }
    }
}

/// An order waiting in the book.
#[derive(Clone, Copy, Debug, Eq, PartialEq, Structural)]
pub struct RestingOrder {
    pub id: OrderId,
    pub qty: Quantity,
    pub seq: Sequence,
}

impl RestingOrder {
    /// The order as a snapshot shows it.
    pub open spec fn shown(self) -> OrderView {
        OrderView { id: self.id, qty: self.qty, seq: self.seq }
    }
}

/// An order as a snapshot shows it.
#[derive(Clone, Copy, Debug, Eq, PartialEq, Structural)]
pub struct OrderView {
    pub id: OrderId,
    pub qty: Quantity,
    pub seq: Sequence,
}

/// The book at one moment: on each side the price levels from the best price to the worst, and at
/// each level the orders from the first to arrive to the last.
#[derive(Clone, Debug, Eq, PartialEq)]
pub struct BookSnapshot {
    pub bids: Vec<(Price, Vec<OrderView>)>,
    pub asks: Vec<(Price, Vec<OrderView>)>,
}

/// The contents of a [`BookSnapshot`].
#[verifier::ext_equal]
pub struct SnapshotContents {
    pub bids: Seq<(Price, Seq<OrderView>)>,
    pub asks: Seq<(Price, Seq<OrderView>)>,
}

/// The contents of a list of levels.
pub open spec fn level_contents(levels: Seq<(Price, Vec<OrderView>)>) -> Seq<
    (Price, Seq<OrderView>),
> {
    levels.map_values(|level: (Price, Vec<OrderView>)| (level.0, level.1@))
}

impl View for BookSnapshot {
    type V = SnapshotContents;

    open spec fn view(&self) -> SnapshotContents {
        SnapshotContents { bids: level_contents(self.bids@), asks: level_contents(self.asks@) }
    }
}

} // verus!
