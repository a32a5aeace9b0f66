//! The matching engine: price-time priority, one event at a time.
use std::collections::HashMap;
use std::collections::VecDeque;

use vstd::prelude::*;

use crate::book;
use crate::book::{Book, EngineState, Taker};
use crate::ladder::Ladder;
use crate::laws;
use crate::types::{Accepted, BookSnapshot, Command, EngineError, Event, Fill, OrderId, Price};
use crate::types::{Quantity, RestingOrder, Sequence, Side};
use crate::validity;

verus! {

/// A deterministic matching engine.
#[derive(Debug)]
pub struct Engine {
    next_seq: Sequence,
    bids: Ladder,
    asks: Ladder,
    order_index: HashMap<OrderId, (Side, Price)>,
}

/// Whether `index` gives the side and the price of exactly the orders that wait in the book.
spec fn indexes(index: Map<OrderId, (Side, Price)>, book: Book) -> bool {
    &&& forall|side: Side, p: Price, i: int, id: OrderId| #[trigger]
        book.at(side, p, i, id) ==> index.contains_key(id) && index[id] == (side, p)
    &&& forall|id: OrderId| #[trigger]
        index.contains_key(id) ==> exists|i: int| book.at(index[id].0, index[id].1, i, id)
}

impl View for Engine {
    type V = EngineState;

    closed spec fn view(&self) -> EngineState {
        EngineState {
            next_seq: self.next_seq,
            book: Book { bids: self.bids@, asks: self.asks@ },
        }
    }
}

impl Engine {
    /// The index of orders agrees with the book.
    pub closed spec fn indexed(&self) -> bool {
        indexes(self.order_index@, self@.book)
    }

    /// The book is sound, and the index agrees with it.
    pub open spec fn sound(&self) -> bool {
        &&& self@.book.sound()
        &&& self.indexed()
    }

    /// What holds of every engine between events: it is sound, and the book is not crossed.
    pub open spec fn wf(&self) -> bool {
        &&& self.sound()
        &&& self@.book.uncrossed()
    }

    /// An engine that has seen nothing, whose first event gets number `next_seq`.
    fn starting_at(next_seq: Sequence) -> (engine: Engine)
        ensures
            engine.wf(),
            engine@ == (EngineState { next_seq, book: Book::empty() }),
    {
        Engine {
            next_seq,
            bids: Ladder::new(),
            asks: Ladder::new(),
            order_index: HashMap::new(),
        }
    }

    /// An engine with an empty book. Its first event gets number 1.
    pub fn new() -> (engine: Engine)
        ensures
            engine.wf(),
            engine@ == EngineState::fresh(),
    {
        Engine::starting_at(1)
    }

    /// The best price of a side.
    fn best_price(&self, side: Side) -> (price: Option<Price>)
        ensures
            self@.book.side(side).dom().finite(),
            match price {
                Some(p) => book::is_best(side, self@.book.side(side), p),
                None => self@.book.side(side).dom() == Set::<Price>::empty(),
            },
    {
        match side {
            Side::Bid => self.bids.best_price(side),
            Side::Ask => self.asks.best_price(side),
        }
    }

    /// Takes the orders of one price out of the book.
    fn take_level(&mut self, side: Side, price: Price) -> (level: Option<VecDeque<RestingOrder>>)
        ensures
            final(self)@ == (EngineState {
                book: old(self)@.book.with_side(side, old(self)@.book.side(side).remove(price)),
                ..old(self)@
            }),
            final(self).order_index == old(self).order_index,
            match level {
                Some(orders) => old(self)@.book.side(side).contains_key(price) && orders@ == old(
                    self,
                )@.book.side(side)[price],
                None => !old(self)@.book.side(side).contains_key(price),
            },
    {
        match side {
            Side::Bid => self.bids.take(price),
            Side::Ask => self.asks.take(price),
        }
    }

    /// Puts the orders of one price into the book; without orders, the price leaves the book.
    fn put_level(&mut self, side: Side, price: Price, level: VecDeque<RestingOrder>)
        ensures
            final(self)@ == (EngineState {
                book: old(self)@.book.with_side(
                    side,
                    book::put_level(old(self)@.book.side(side), price, level@),
                ),
                ..old(self)@
            }),
            final(self).order_index == old(self).order_index,
    {
        match side {
            Side::Bid => self.bids.put(price, level),
            Side::Ask => self.asks.put(price, level),
        }
    }

    /// An incoming order of `taker_qty` units takes the orders of one price, first come first
    /// served. Adds the trades to `fills` and gives the units that the order still wants.
    fn match_level(
        &mut self,
        seq: Sequence,
        taker: OrderId,
        maker_side: Side,
        price: Price,
        taker_qty: Quantity,
        fills: &mut Vec<Fill>,
    ) -> (left: Quantity)
        requires
            old(self).wf(),
            old(self)@.book.side(maker_side).contains_key(price),
            taker_qty > 0,
        ensures
            final(self).wf(),
            ({
                let levels = old(self)@.book.side(maker_side);
                let matched = book::match_level(
                    Taker { seq, id: taker },
                    price,
                    levels[price],
                    taker_qty,
                );
                &&& final(self)@ == (EngineState {
                    book: old(self)@.book.with_side(
                        maker_side,
                        book::put_level(levels, price, matched.level),
                    ),
                    ..old(self)@
                })
                &&& final(fills)@ == old(fills)@ + matched.fills
                &&& left == matched.left
            }),
    {
        broadcast use vstd::std_specs::hash::group_hash_axioms;

        let ghost before = self@.book;
        let ghost index = self.order_index@;
        let ghost orders = before.side(maker_side)[price];
        let ghost by = Taker { seq, id: taker };
        let ghost whole = book::match_level(by, price, orders, taker_qty);
        let ghost mut gone: int = 0;
        let mut left: Quantity = taker_qty;
        let mut level = match self.take_level(maker_side, price) {
            Some(orders) => orders,
            None => VecDeque::new(),
        };
        proof {
            validity::lemma_units_left(before.side(maker_side), price);
            validity::lemma_match_level(by, price, orders, taker_qty);
            assert(fills@ + whole.fills =~= old(fills)@ + whole.fills);
            assert(orders.skip(0) =~= orders);
        }
        while left > 0
            invariant_except_break
                level@ == orders.skip(gone) || left == 0,
            invariant
                by == (Taker { seq, id: taker }),
                whole == book::match_level(by, price, orders, taker_qty),
                validity::remains(orders, whole.level, orders.len() - whole.level.len()),
                whole.level.len() > 0 ==> whole.left == 0,
                forall|i: int| 0 <= i < orders.len() ==> (#[trigger] orders[i]).qty > 0,
                0 <= gone <= orders.len(),
                left >= 0,
                self@ == (EngineState {
                    book: before.with_side(maker_side, before.side(maker_side).remove(price)),
                    ..old(self)@
                }),
                ({
                    let rest = book::match_level(by, price, level@, left);
                    &&& fills@ + rest.fills == old(fills)@ + whole.fills
                    &&& rest.level == whole.level
                    &&& rest.left == whole.left
                }),
                level@.len() + gone == orders.len(),
                forall|id: OrderId| #[trigger]
                    self.order_index@.contains_key(id) <==> index.contains_key(id) && !exists|
                        j: int,
                    | 0 <= j < gone && (#[trigger] orders[j]).id == id,
                forall|id: OrderId| #[trigger]
                    self.order_index@.contains_key(id) ==> self.order_index@[id] == index[id],
            ensures
                left == 0 || level@.len() == 0,
            decreases level@.len() + left,
        {
            let ghost tail = level@;
            match level.pop_front() {
                None => break,
                Some(maker) => {
                    assert(maker == orders[gone]);
                    assert(level@ =~= tail.drop_first());
                    let traded: Quantity = if maker.qty < left {
                        maker.qty
                    } else {
                        left
                    };
                    let ghost sofar = fills@;
                    let ghost rest = book::match_level(by, price, tail, left);
                    let fill = Fill { seq, maker: maker.id, taker, price, qty: traded };
                    fills.push(fill);
                    left = left - traded;
                    if maker.qty > traded {
                        level.push_front(RestingOrder { qty: maker.qty - traded, ..maker });
                        proof {
                            assert(level@ =~= rest.level);
                            assert(fills@ + Seq::<Fill>::empty() =~= sofar + rest.fills);
                        }
                    } else {
                        self.order_index.remove(&maker.id);
                        proof {
                            let next = book::match_level(by, price, level@, left);
                            assert(fills@ + next.fills =~= sofar + rest.fills);
                            gone = gone + 1;
                            assert(orders.skip(gone - 1).drop_first() =~= orders.skip(gone));
                        }
                    }
                }
            }
        }
        proof {
            assert(book::match_level(by, price, level@, left).fills =~= Seq::<Fill>::empty());
            assert(fills@ =~= old(fills)@ + whole.fills);
            assert(level@ == whole.level);
            assert(gone == orders.len() - whole.level.len());
            validity::lemma_level_replaced(before, maker_side, price, whole.level, gone);
        }
        self.put_level(maker_side, price, level);
        proof {
            let levels = before.side(maker_side);
            assert(book::put_level(levels.remove(price), price, whole.level) =~= book::put_level(
                levels,
                price,
                whole.level,
            ));
            assert(self@.book =~= before.with_side(
                maker_side,
                book::put_level(levels, price, whole.level),
            ));
            lemma_index_shrinks(
                index,
                self.order_index@,
                before,
                maker_side,
                price,
                whole.level,
                gone,
            );
        }
        left
    }

    /// Lets an order wait in the book, last in line at its price, without trading.
    pub fn rest(&mut self, seq: Sequence, id: OrderId, side: Side, price: Price, qty: Quantity)
        requires
            old(self).sound(),
            !old(self)@.book.rests(id),
            qty > 0,
        ensures
            final(self).sound(),
            old(self).wf() && validity::stays_clear(old(self)@.book, side, price)
                ==> final(self).wf(),
            final(self)@ == (EngineState {
                book: old(self)@.book.with_side(
                    side,
                    book::add_order(
                        old(self)@.book.side(side),
                        price,
                        RestingOrder { id, qty, seq },
                    ),
                ),
                ..old(self)@
            }),
    {
        broadcast use vstd::std_specs::hash::group_hash_axioms;

        let order = RestingOrder { id, qty, seq };
        match side {
            Side::Bid => self.bids.push_back(price, order),
            Side::Ask => self.asks.push_back(price, order),
        }
        self.order_index.insert(id, (side, price));
        proof {
            validity::lemma_order_added(old(self)@.book, side, price, order);
            lemma_index_grows(old(self).order_index@, old(self)@.book, side, price, order);
        }
    }

    /// Carries out a limit order. Gives its trades.
    fn apply_limit(
        &mut self,
        seq: Sequence,
        id: OrderId,
        side: Side,
        price: Price,
        qty: Quantity,
    ) -> (result: Result<Vec<Fill>, EngineError>)
        requires
            old(self).wf(),
        ensures
            final(self).wf(),
            final(self)@.next_seq == old(self)@.next_seq,
            ({
                let (after, outcome) = old(self)@.book.limit(seq, id, side, price, qty);
                &&& final(self)@.book == after
                &&& match result {
                    Ok(fills) => outcome == Ok::<Seq<Fill>, EngineError>(fills@),
                    Err(e) => outcome == Err::<Seq<Fill>, EngineError>(e),
                }
            }),
    {
        broadcast use vstd::std_specs::hash::group_hash_axioms;

        if qty <= 0 {
            return Err(EngineError::NonPositiveQuantity(qty));
        }
        proof {
            lemma_index_tells(self.order_index@, self@.book, id);
        }
        if self.order_index.contains_key(&id) {
            return Err(EngineError::DuplicateOrder(id));
        }
        let maker_side = match side {
            Side::Bid => Side::Ask,
            Side::Ask => Side::Bid,
        };
        let ghost before = self@.book;
        let ghost taker = Taker { seq, id };
        let ghost whole = book::match_side(
            maker_side,
            taker,
            price,
            before.side(maker_side),
            qty,
        );
        let mut left: Quantity = qty;
        let mut fills: Vec<Fill> = Vec::new();
        assert(fills@ + whole.fills =~= whole.fills);
        while left > 0
            invariant
                self.wf(),
                self@.next_seq == old(self)@.next_seq,
                maker_side == side.opposite(),
                taker == (Taker { seq, id }),
                self@.book.side(side) == before.side(side),
                !self@.book.rests(id),
                left >= 0,
                ({
                    let next = book::match_side(
                        maker_side,
                        taker,
                        price,
                        self@.book.side(maker_side),
                        left,
                    );
                    &&& fills@ + next.fills == whole.fills
                    &&& next.levels == whole.levels
                    &&& next.left == whole.left
                }),
            ensures
                left == 0 || forall|q: Price| #[trigger]
                    self@.book.side(maker_side).contains_key(q) ==> !maker_side.crosses(q, price),
            decreases self@.book.side(maker_side).dom().len() + (if left > 0 {
                1int
            } else {
                0
            }),
        {
            let ghost levels = self@.book.side(maker_side);
            let best = match self.best_price(maker_side) {
                Some(best) => best,
                None => {
                    assert forall|q: Price| !#[trigger] levels.contains_key(q) by {
                        assert(!levels.dom().contains(q));
                    }
                    break
                },
            };
            proof {
                validity::lemma_best_is(maker_side, levels, best);
            }
            let crosses = match maker_side {
                Side::Bid => best >= price,
                Side::Ask => best <= price,
            };
            if !crosses {
                break;
            }
            let ghost sofar = fills@;
            let ghost now = self@.book;
            let ghost wanted = left;
            let ghost here = book::match_level(taker, best, levels[best], left);
            proof {
                validity::lemma_units_left(levels, best);
                validity::lemma_match_level(taker, best, levels[best], left);
            }
            left = self.match_level(seq, id, maker_side, best, left, &mut fills);
            proof {
                let put = book::put_level(levels, best, here.level);
                let next = book::match_side(maker_side, taker, price, put, left);
                assert(fills@ + next.fills =~= sofar + book::match_side(
                    maker_side,
                    taker,
                    price,
                    levels,
                    wanted,
                ).fills);
                assert forall|s: Side, p: Price, i: int| !#[trigger] self@.book.at(s, p, i, id) by {
                    if self@.book.at(s, p, i, id) {
                        validity::lemma_at_before(
                            now,
                            maker_side,
                            best,
                            here.level,
                            levels[best].len() - here.level.len(),
                            s,
                            p,
                            i,
                            id,
                        );
                        assert(now.at(s, p, i, id) || now.at(
                            s,
                            p,
                            i + levels[best].len() - here.level.len(),
                            id,
                        ));
                    }
                }
            }
        }
        proof {
            let levels = self@.book.side(maker_side);
            let next = book::match_side(maker_side, taker, price, levels, left);
            if left > 0 && book::has_best(maker_side, levels) {
                assert(levels.contains_key(book::best(maker_side, levels)));
            }
            assert(next.fills =~= Seq::<Fill>::empty());
            assert(fills@ + next.fills =~= fills@);
            assert(self@.book =~= before.with_side(maker_side, whole.levels));
        }
        if left > 0 {
            self.rest(seq, id, side, price, left);
        }
        Ok(fills)
    }

    /// Takes an order out of the book, if it waits there.
    pub fn cancel(&mut self, id: OrderId)
        requires
            old(self).sound(),
        ensures
            final(self).sound(),
            old(self).wf() ==> final(self).wf(),
            final(self)@ == (EngineState { book: old(self)@.book.without(id), ..old(self)@ }),
    {
        broadcast use vstd::std_specs::hash::group_hash_axioms;

        let ghost before = self@.book;
        let ghost index = self.order_index@;
        proof {
            lemma_index_tells(index, before, id);
        }
        let (side, price) = match self.order_index.remove(&id) {
            Some(place) => place,
            None => {
                proof {
                    validity::lemma_without_absent(before, id);
                    assert(index.remove(id) =~= index);
                }
                return;
            },
        };
        let ghost place = choose|i: int| before.at(side, price, i, id);
        assert(before.at(side, price, place, id));
        if let Some(mut level) = self.take_level(side, price) {
            let ghost orders = level@;
            let mut pos: usize = 0;
            while level[pos].id != id
                invariant
                    0 <= pos <= place < level.len(),
                    level@[place].id == id,
                    forall|i: int| 0 <= i < pos ==> (#[trigger] level@[i]).id != id,
                decreases level@.len() - pos,
            {
                pos = pos + 1;
            }
            assert(before.at(side, price, pos as int, id));
            level.remove(pos);
            self.put_level(side, price, level);
            proof {
                let levels = before.side(side);
                validity::lemma_without_one(before, side, price, place, id);
                validity::lemma_order_removed(before, side, price, place, id);
                assert(book::put_level(levels.remove(price), price, orders.remove(place))
                    =~= book::put_level(levels, price, orders.remove(place)));
                assert(self@.book =~= before.without(id));
                lemma_index_loses_one(index, before, side, price, place, id);
            }
        }
    }

    /// Carries out an event with a number of its own. The numbers that the engine gives go on
    /// from the highest that it has seen.
    pub fn apply(&mut self, event: Event) -> (result: Result<Accepted, EngineError>)
        requires
            old(self).wf(),
            event.seq < Sequence::MAX,
        ensures
            final(self).wf(),
            final(self)@ == old(self)@.after(event).0,
            match result {
                Ok(accepted) => accepted.event == event && old(self)@.after(event).1 == Ok::<
                    Seq<Fill>,
                    EngineError,
                >(accepted.fills@),
                Err(e) => old(self)@.after(event).1 == Err::<Seq<Fill>, EngineError>(e),
            },
    {
        if self.next_seq <= event.seq {
            self.next_seq = event.seq + 1;
        }
        let fills = match event.command {
            Command::Limit { id, side, price, qty } => {
                match self.apply_limit(event.seq, id, side, price, qty) {
                    Ok(fills) => fills,
                    Err(e) => return Err(e),
                }
            },
            Command::Cancel { id } => {
                self.cancel(id);
                Vec::new()
            },
        };
        Ok(Accepted { event, fills })
    }

    /// Carries out a command as the engine's next event.
    pub fn submit(&mut self, command: Command) -> (result: Result<Accepted, EngineError>)
        requires
            old(self).wf(),
            old(self)@.next_seq < Sequence::MAX,
        ensures
            final(self).wf(),
            final(self)@.next_seq == old(self)@.next_seq + 1,
            final(self)@ == old(self)@.after(old(self)@.event(command)).0,
            match result {
                Ok(accepted) => accepted.event == old(self)@.event(command) && old(self)@.after(
                    old(self)@.event(command),
                ).1 == Ok::<Seq<Fill>, EngineError>(accepted.fills@),
                Err(e) => old(self)@.after(old(self)@.event(command)).1 == Err::<
                    Seq<Fill>,
                    EngineError,
                >(e),
            },
    {
        let seq = self.next_seq;
        self.next_seq = seq + 1;
        let event = Event { seq, command };
        self.apply(event)
    }

    /// Carries out events in order with an engine that has seen nothing. Gives that engine and all
    /// trades in order, or the reason why an event was turned down.
    pub fn replay(events: &[Event]) -> (result: Result<(Engine, Vec<Fill>), EngineError>)
        requires
            book::can_replay(events@),
        ensures
            match result {
                Ok((engine, fills)) => engine.wf() && book::replayed(events@) == Ok::<
                    (EngineState, Seq<Fill>),
                    (int, EngineError),
                >((engine@, fills@)),
                Err(e) => book::replayed(events@) is Err && book::replayed(events@)->Err_0.1 == e,
            },
    {
        match Engine::replay_located(events) {
            Ok(done) => Ok(done),
            Err((_, e)) => Err(e),
        }
    }

    /// As [`Engine::replay`]; also gives the place of the event that was turned down.
    pub(crate) fn replay_located(events: &[Event]) -> (result: Result<
        (Engine, Vec<Fill>),
        (usize, EngineError),
    >)
        requires
            book::can_replay(events@),
        ensures
            match result {
                Ok((engine, fills)) => engine.wf() && book::replayed(events@) == Ok::<
                    (EngineState, Seq<Fill>),
                    (int, EngineError),
                >((engine@, fills@)),
                Err((at, e)) => at < events@.len() && book::replayed(events@) == Err::<
                    (EngineState, Seq<Fill>),
                    (int, EngineError),
                >((at as int, e)),
            },
    {
        let mut engine = Engine::new();
        let mut fills: Vec<Fill> = Vec::new();
        let mut i: usize = 0;
        while i < events.len()
            invariant
                book::can_replay(events@),
                i <= events@.len(),
                engine.wf(),
                book::replayed(events@.take(i as int)) == Ok::<
                    (EngineState, Seq<Fill>),
                    (int, EngineError),
                >((engine@, fills@)),
            decreases events@.len() - i,
        {
            let ghost done = events@.take(i as int);
            let ghost more = events@.take(i + 1);
            assert(more.drop_last() =~= done);
            match engine.apply(events[i]) {
                Ok(accepted) => {
                    let mut next = accepted.fills;
                    fills.append(&mut next);
                },
                Err(e) => {
                    proof {
                        laws::replay_stops_at_a_refused_event(events@, i + 1);
                    }
                    return Err((i, e));
                },
            }
            i = i + 1;
        }
        assert(events@.take(i as int) =~= events@);
        Ok((engine, fills))
    }

    /// Whether events can be replayed: each that the replay reaches leaves a number for the next.
    pub fn accepts(events: &[Event]) -> (yes: bool)
        ensures
            yes == book::can_replay(events@),
    {
        let mut engine = Engine::new();
        let mut i: usize = 0;
        let ghost mut fills: Seq<Fill> = Seq::empty();
        while i < events.len()
            invariant
                i <= events@.len(),
                engine.wf(),
                book::replayed(events@.take(i as int)) == Ok::<
                    (EngineState, Seq<Fill>),
                    (int, EngineError),
                >((engine@, fills)),
                forall|j: int| 0 <= j < i ==> (#[trigger] events@[j]).seq < Sequence::MAX,
            decreases events@.len() - i,
        {
            if events[i].seq == Sequence::MAX {
                return false;
            }
            let ghost more = events@.take(i + 1);
            assert(more.drop_last() =~= events@.take(i as int));
            match engine.apply(events[i]) {
                Ok(accepted) => {
                    proof {
                        fills = fills + accepted.fills@;
                    }
                },
                Err(_) => {
                    assert forall|j: int|
                        0 <= j < events@.len() && book::replayed(
                            #[trigger] events@.take(j),
                        ) is Ok implies events@[j].seq < Sequence::MAX by {
                        if j > i {
                            assert(events@.take(j).take(i + 1) =~= more);
                            laws::replay_stops_at_a_refused_event(events@.take(j), i + 1);
                        }
                    }
                    return true;
                },
            }
            i = i + 1;
        }
        true
    }

    /// The book as it stands.
    pub fn snapshot(&self) -> (snapshot: BookSnapshot)
        ensures
            snapshot@ == self@.book.shown(),
    {
        BookSnapshot { bids: self.bids.shown(Side::Bid), asks: self.asks.shown(Side::Ask) }
    }

    /// The number that the next submitted command gets.
    pub fn next_seq(&self) -> (seq: Sequence)
        ensures
            seq == self@.next_seq,
    {
        self.next_seq
    }
}

impl Default for Engine {
    /// An engine with an empty book, whose first event gets number 0.
    fn default() -> (engine: Engine)
        ensures
            engine.wf(),
            engine@ == (EngineState { next_seq: 0, book: Book::empty() }),
    {
        Engine::starting_at(0)
    }
}

impl Clone for Engine {
    fn clone(&self) -> (copy: Engine)
        ensures
            copy@ == self@,
            self.sound() ==> copy.sound(),
            self.wf() ==> copy.wf(),
    {
        Engine {
            next_seq: self.next_seq,
            bids: self.bids.clone(),
            asks: self.asks.clone(),
            order_index: self.order_index.clone(),
        }
    }
}

/// The index agrees with the book once an order that was taken out of the book has left it.
proof fn lemma_index_loses_one(
    index: Map<OrderId, (Side, Price)>,
    before: Book,
    side: Side,
    price: Price,
    pos: int,
    id: OrderId,
)
    requires
        before.sound(),
        before.at(side, price, pos, id),
        indexes(index, before),
    ensures
        indexes(index.remove(id), before.without(id)),
{
    validity::lemma_without_one(before, side, price, pos, id);
    validity::lemma_order_removed(before, side, price, pos, id);
    let after = before.without(id);
    let after_index = index.remove(id);
    assert forall|s: Side, p: Price, i: int, other: OrderId| #[trigger]
        after.at(s, p, i, other) implies after_index.contains_key(other) && after_index[other] == (
        s,
        p,
    ) by {
        let place = if s == side && p == price && i >= pos {
            i + 1
        } else {
            i
        };
        assert(before.at(s, p, place, other));
    }
    assert forall|other: OrderId| #[trigger] after_index.contains_key(other) implies exists|i: int|
        after.at(after_index[other].0, after_index[other].1, i, other) by {
        assert(index.contains_key(other));
        let (s, p) = index[other];
        let i = choose|i: int| before.at(s, p, i, other);
        assert(before.at(s, p, i, other));
        let place = if s == side && p == price && i > pos {
            i - 1
        } else {
            i
        };
        assert(after.at(after_index[other].0, after_index[other].1, place, other));
    }
}

/// An order waits in the book if and only if the index has it.
proof fn lemma_index_tells(index: Map<OrderId, (Side, Price)>, book: Book, id: OrderId)
    requires
        indexes(index, book),
    ensures
        index.contains_key(id) <==> book.rests(id),
{
    if index.contains_key(id) {
        let i = choose|i: int| book.at(index[id].0, index[id].1, i, id);
        assert(book.at(index[id].0, index[id].1, i, id));
    }
}

/// The index agrees with the book once an order that joins the book joins it.
proof fn lemma_index_grows(
    index: Map<OrderId, (Side, Price)>,
    before: Book,
    side: Side,
    price: Price,
    order: RestingOrder,
)
    requires
        before.sound(),
        !before.rests(order.id),
        indexes(index, before),
    ensures
        indexes(
            index.insert(order.id, (side, price)),
            before.with_side(side, book::add_order(before.side(side), price, order)),
        ),
{
    let after = before.with_side(side, book::add_order(before.side(side), price, order));
    let after_index = index.insert(order.id, (side, price));
    assert forall|s: Side, p: Price, i: int, id: OrderId| #[trigger]
        after.at(s, p, i, id) implies after_index.contains_key(id) && after_index[id] == (s, p) by {
        if before.at(s, p, i, id) {
            assert(index.contains_key(id));
            assert(id != order.id);
        } else {
            assert(id == order.id);
        }
    }
    assert forall|id: OrderId| #[trigger] after_index.contains_key(id) implies exists|i: int|
        after.at(after_index[id].0, after_index[id].1, i, id) by {
        if id == order.id {
            let last = after.side(side)[price].len() - 1;
            assert(after.at(after_index[id].0, after_index[id].1, last, id));
        } else {
            assert(index.contains_key(id));
            let i = choose|i: int| before.at(index[id].0, index[id].1, i, id);
            assert(before.at(index[id].0, index[id].1, i, id));
            assert(after.at(after_index[id].0, after_index[id].1, i, id));
        }
    }
}

/// The index agrees with the book once the orders that left the front of a level have left it.
proof fn lemma_index_shrinks(
    index: Map<OrderId, (Side, Price)>,
    after_index: Map<OrderId, (Side, Price)>,
    before: Book,
    side: Side,
    price: Price,
    rest: Seq<RestingOrder>,
    gone: int,
)
    requires
        before.valid(),
        indexes(index, before),
        before.side(side).contains_key(price),
        validity::remains(before.side(side)[price], rest, gone),
        forall|id: OrderId| #[trigger]
            after_index.contains_key(id) <==> index.contains_key(id) && !exists|j: int|
                0 <= j < gone && (#[trigger] before.side(side)[price][j]).id == id,
        forall|id: OrderId| #[trigger]
            after_index.contains_key(id) ==> after_index[id] == index[id],
    ensures
        indexes(
            after_index,
            before.with_side(side, book::put_level(before.side(side), price, rest)),
        ),
{
    let orders = before.side(side)[price];
    let after = before.with_side(side, book::put_level(before.side(side), price, rest));
    assert forall|s: Side, p: Price, i: int, id: OrderId| #[trigger]
        after.at(s, p, i, id) implies after_index.contains_key(id) && after_index[id] == (s, p) by {
        validity::lemma_at_before(before, side, price, rest, gone, s, p, i, id);
        let place = if s == side && p == price {
            i + gone
        } else {
            i
        };
        assert(before.at(s, p, place, id));
        if exists|j: int| 0 <= j < gone && (#[trigger] orders[j]).id == id {
            let j = choose|j: int| 0 <= j < gone && (#[trigger] orders[j]).id == id;
            assert(before.at(side, price, j, id));
            assert(place == j);
        }
        assert(index.contains_key(id));
        assert(after_index.contains_key(id));
    }
    assert forall|id: OrderId| #[trigger] after_index.contains_key(id) implies exists|i: int|
        after.at(after_index[id].0, after_index[id].1, i, id) by {
        let (s, p) = index[id];
        assert(index.contains_key(id));
        let i = choose|i: int| before.at(s, p, i, id);
        assert(before.at(s, p, i, id));
        if s == side && p == price {
            assert(orders[i].id == id);
            assert(after.at(s, p, i - gone, id));
        } else {
            assert(after.at(s, p, i, id));
        }
    }
}

} // verus!
