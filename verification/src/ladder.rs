//! One side of the book: price levels in a B-tree, at each price a queue of orders.
use std::collections::{BTreeMap, VecDeque};

use vstd::prelude::*;
use vstd::std_specs::cmp::OrdSpec;
use vstd::std_specs::iter::IteratorSpec;

use crate::book;
use crate::book::Levels;
use crate::types;
use crate::types::{OrderView, Price, RestingOrder, Side};

verus! {

/// What the standard library's order on keys means for prices.
proof fn lemma_increasing(keys: Seq<Price>)
    requires
        vstd::std_specs::btree::increasing_seq(keys),
    ensures
        forall|i: int, j: int| 0 <= i < j < keys.len() ==> keys[i] < keys[j],
{
    broadcast use vstd::laws_cmp::group_laws_cmp;
    broadcast use vstd::std_specs::btree::group_btree_axioms;

    assert(vstd::laws_cmp::obeys_cmp::<Price>());
    assert forall|i: int, j: int| 0 <= i < j < keys.len() implies keys[i] < keys[j] by {
        assert(keys[i].cmp_spec(&keys[j]) is Less);
    }
}

/// The first item that an iterator yields.
fn first_item<I: Iterator>(items: I) -> (item: Option<I::Item>)
    requires
        items.obeys_prophetic_iter_laws(),
    ensures
        item == (if items.remaining().len() > 0 {
            Some(items.remaining()[0])
        } else {
            None
        }),
{
    let mut items = items;
    items.next()
}

/// The last item that an iterator yields.
fn last_item<I: DoubleEndedIterator>(items: I) -> (item: Option<I::Item>)
    requires
        items.obeys_prophetic_iter_laws(),
    ensures
        item == (if items.remaining().len() > 0 {
            Some(items.remaining().last())
        } else {
            None
        }),
{
    let mut items = items;
    items.next_back()
}

/// One side of the book.
#[derive(Debug)]
pub(crate) struct Ladder {
    levels: BTreeMap<Price, VecDeque<RestingOrder>>,
}

/// The entries of a B-tree of queues, with each queue's contents.
spec fn entries(s: Seq<(&Price, &VecDeque<RestingOrder>)>) -> Seq<(Price, Seq<RestingOrder>)> {
    s.map_values(|kv: (&Price, &VecDeque<RestingOrder>)| (*kv.0, kv.1@))
}

/// Whether `s` lists the prices of a side with their orders, from the best price to the worst.
spec fn lists(side: Side, levels: Levels, s: Seq<(Price, Seq<RestingOrder>)>) -> bool {
    &&& forall|i: int, j: int| 0 <= i < j < s.len() ==> side.better(s[i].0, s[j].0)
    &&& forall|i: int|
        0 <= i < s.len() ==> levels.contains_key((#[trigger] s[i]).0) && levels[s[i].0] == s[i].1
    &&& forall|p: Price| #[trigger]
        levels.contains_key(p) ==> exists|i: int| 0 <= i < s.len() && (#[trigger] s[i]).0 == p
}

impl View for Ladder {
    type V = Levels;

    closed spec fn view(&self) -> Levels {
        Map::new(|p: Price| self.levels@.contains_key(p), |p: Price| self.levels@[p]@)
    }
}

impl Ladder {
    pub(crate) fn new() -> (ladder: Ladder)
        ensures
            ladder@ == Map::<Price, Seq<RestingOrder>>::empty(),
    {
        let ladder = Ladder { levels: BTreeMap::new() };
        assert(ladder@ =~= Map::<Price, Seq<RestingOrder>>::empty());
        ladder
    }

    /// The contents of the side are finite, and its entries list it from the lowest price up.
    proof fn lemma_entries(&self, all: Seq<(&Price, &VecDeque<RestingOrder>)>)
        requires
            all == vstd::std_specs::btree::spec_btree_map_iter(&self.levels).remaining(),
            vstd::std_specs::btree::increasing_seq(
                all.map_values(|kv: (&Price, &VecDeque<RestingOrder>)| *kv.0),
            ),
        ensures
            self@.dom().finite(),
            lists(Side::Ask, self@, entries(all)),
    {
        broadcast use vstd::std_specs::btree::group_btree_axioms;

        let keys = all.map_values(|kv: (&Price, &VecDeque<RestingOrder>)| *kv.0);
        lemma_increasing(keys);
        assert(self@.dom() =~= self.levels@.dom());
        let s = entries(all);
        assert forall|i: int, j: int| 0 <= i < j < s.len() implies Side::Ask.better(
            s[i].0,
            s[j].0,
        ) by {
            assert(keys[i] < keys[j]);
        }
        assert forall|i: int| 0 <= i < s.len() implies self@.contains_key((#[trigger] s[i]).0)
            && self@[s[i].0] == s[i].1 by {
            assert(self.levels@.contains_key(*all[i].0));
        }
        assert forall|p: Price| #[trigger] self@.contains_key(p) implies exists|i: int|
            0 <= i < s.len() && (#[trigger] s[i]).0 == p by {
            let kv = (&p, &self.levels@[p]);
            assert(self.levels@.contains_key(p));
            assert(all.contains(kv));
            let i = all.index_of(kv);
            assert(s[i].0 == p);
        }
    }

    /// The price that trades first, if the orders are those of side `side`.
    pub(crate) fn best_price(&self, side: Side) -> (price: Option<Price>)
        ensures
            self@.dom().finite(),
            match price {
                Some(p) => book::is_best(side, self@, p),
                None => self@.dom() == Set::<Price>::empty(),
            },
    {
        broadcast use vstd::laws_cmp::group_laws_cmp;
        broadcast use vstd::std_specs::btree::group_btree_axioms;

        let items = self.levels.iter();
        let ghost all = items.remaining();
        let ghost s = entries(all);
        proof {
            self.lemma_entries(all);
        }
        let best = match side {
            Side::Bid => last_item(items),
            Side::Ask => first_item(items),
        };
        match best {
            Some((p, _)) => {
                let ghost at = match side {
                    Side::Bid => s.len() - 1,
                    Side::Ask => 0,
                };
                assert(s[at].0 == *p);
                assert forall|q: Price| #[trigger] self@.contains_key(q) implies q == *p
                    || side.better(*p, q) by {
                    let i = choose|i: int| 0 <= i < s.len() && (#[trigger] s[i]).0 == q;
                    if i < at {
                        assert(Side::Ask.better(s[i].0, s[at].0));
                    } else if at < i {
                        assert(Side::Ask.better(s[at].0, s[i].0));
                    }
                }
                Some(*p)
            },
            None => {
                assert(self@.dom() =~= Set::<Price>::empty());
                None
            },
        }
    }

    /// Takes the orders of one price off the side.
    pub(crate) fn take(&mut self, price: Price) -> (level: Option<VecDeque<RestingOrder>>)
        ensures
            final(self)@ == old(self)@.remove(price),
            match level {
                Some(orders) => old(self)@.contains_key(price) && orders@ == old(self)@[price],
                None => !old(self)@.contains_key(price),
            },
    {
        broadcast use vstd::laws_cmp::group_laws_cmp;
        broadcast use vstd::std_specs::btree::group_btree_axioms;

        let level = self.levels.remove(&price);
        assert(self@ =~= old(self)@.remove(price));
        level
    }

    /// Sets the orders of one price; without orders, the price leaves the side.
    pub(crate) fn put(&mut self, price: Price, level: VecDeque<RestingOrder>)
        ensures
            final(self)@ == book::put_level(old(self)@, price, level@),
    {
        broadcast use vstd::laws_cmp::group_laws_cmp;
        broadcast use vstd::std_specs::btree::group_btree_axioms;

        if level.len() == 0 {
            self.levels.remove(&price);
        } else {
            self.levels.insert(price, level);
        }
        assert(self@ =~= book::put_level(old(self)@, price, level@));
    }

    /// Adds an order, last in line at its price.
    pub(crate) fn push_back(&mut self, price: Price, order: RestingOrder)
        ensures
            final(self)@ == book::add_order(old(self)@, price, order),
    {
        let mut level = match self.take(price) {
            Some(orders) => orders,
            None => VecDeque::new(),
        };
        level.push_back(order);
        self.put(price, level);
        assert(self@ =~= book::add_order(old(self)@, price, order));
    }

    /// The levels from the best price to the worst, if the orders are those of side `side`.
    pub(crate) fn shown(&self, side: Side) -> (levels: Vec<(Price, Vec<OrderView>)>)
        ensures
            types::level_contents(levels@) == book::shown_levels(side, self@),
    {
        broadcast use vstd::laws_cmp::group_laws_cmp;
        broadcast use vstd::std_specs::btree::group_btree_axioms;

        let items = self.levels.iter();
        let ghost all = items.remaining();
        proof {
            self.lemma_entries(all);
        }
        match side {
            Side::Bid => {
                let shown = shown_items(items.rev());
                proof {
                    let s = entries(all);
                    let r = entries(all.reverse());
                    assert(r =~= s.reverse());
                    assert(lists(Side::Bid, self@, r)) by {
                        assert forall|i: int, j: int|
                            0 <= i < j < r.len() implies Side::Bid.better(r[i].0, r[j].0) by {
                            assert(Side::Ask.better(s[s.len() - 1 - j].0, s[s.len() - 1 - i].0));
                        }
                        assert forall|p: Price| #[trigger] self@.contains_key(p) implies exists|
                            i: int,
                        | 0 <= i < r.len() && (#[trigger] r[i]).0 == p by {
                            let i = choose|i: int| 0 <= i < s.len() && (#[trigger] s[i]).0 == p;
                            assert(r[s.len() - 1 - i].0 == p);
                        }
                    }
                    lemma_lists_shown(Side::Bid, self@, r);
                }
                shown
            },
            Side::Ask => {
                let shown = shown_items(items);
                proof {
                    lemma_lists_shown(Side::Ask, self@, entries(all));
                }
                shown
            },
        }
    }
}

/// A level as a snapshot shows it.
spec fn shown_entry(entry: (Price, Seq<RestingOrder>)) -> (Price, Seq<OrderView>) {
    (entry.0, entry.1.map_values(|order: RestingOrder| order.shown()))
}

/// A list of the levels of a side, best price first, is what a snapshot shows.
proof fn lemma_lists_shown(side: Side, levels: Levels, s: Seq<(Price, Seq<RestingOrder>)>)
    requires
        levels.dom().finite(),
        lists(side, levels, s),
    ensures
        s.map_values(|entry: (Price, Seq<RestingOrder>)| shown_entry(entry)) == book::shown_levels(
            side,
            levels,
        ),
    decreases s.len(),
{
    let shown = s.map_values(|entry: (Price, Seq<RestingOrder>)| shown_entry(entry));
    let price = book::best(side, levels);
    if s.len() == 0 {
        assert(!book::has_best(side, levels));
        assert(shown =~= Seq::empty());
    } else {
        assert(levels.contains_key(s[0].0));
        assert forall|q: Price| #[trigger] levels.contains_key(q) implies q == s[0].0
            || side.better(s[0].0, q) by {
            let i = choose|i: int| 0 <= i < s.len() && (#[trigger] s[i]).0 == q;
            if 0 < i {
                assert(side.better(s[0].0, s[i].0));
            }
        }
        assert(book::is_best(side, levels, s[0].0));
        assert(price == s[0].0);
        let tail = s.drop_first();
        let less = levels.remove(price);
        assert forall|i: int| 0 <= i < tail.len() implies less.contains_key((#[trigger] tail[i]).0)
            && less[tail[i].0] == tail[i].1 by {
            assert(tail[i] == s[i + 1]);
            assert(side.better(s[0].0, s[i + 1].0));
        }
        assert forall|p: Price| #[trigger] less.contains_key(p) implies exists|i: int|
            0 <= i < tail.len() && (#[trigger] tail[i]).0 == p by {
            assert(levels.contains_key(p));
            let i = choose|i: int| 0 <= i < s.len() && (#[trigger] s[i]).0 == p;
            assert(tail[i - 1].0 == p);
        }
        lemma_lists_shown(side, less, tail);
        assert(shown =~= seq![shown_entry(s[0])] + tail.map_values(
            |entry: (Price, Seq<RestingOrder>)| shown_entry(entry),
        ));
    }
}

/// The orders of one level as a snapshot shows them.
fn view_orders(orders: &VecDeque<RestingOrder>) -> (shown: Vec<OrderView>)
    ensures
        shown@ == orders@.map_values(|order: RestingOrder| order.shown()),
{
    let mut shown: Vec<OrderView> = Vec::new();
    for i in 0..orders.len()
        invariant
            shown@ == orders@.take(i as int).map_values(|order: RestingOrder| order.shown()),
    {
        let order = &orders[i];
        shown.push(OrderView { id: order.id, qty: order.qty, seq: order.seq });
    }
    assert(orders@.take(orders@.len() as int) =~= orders@);
    shown
}

/// The entries that an iterator yields, as a snapshot shows them.
fn shown_items<'a, I: Iterator<Item = (&'a Price, &'a VecDeque<RestingOrder>)>>(items: I) -> (shown:
    Vec<(Price, Vec<OrderView>)>)
    requires
        items.obeys_prophetic_iter_laws(),
        items.decrease() is Some,
    ensures
        types::level_contents(shown@) == entries(items.remaining()).map_values(
            |entry: (Price, Seq<RestingOrder>)| shown_entry(entry),
        ),
{
    let mut items = items;
    let ghost all = items.remaining();
    let mut shown: Vec<(Price, Vec<OrderView>)> = Vec::new();
    loop
        invariant
            items.obeys_prophetic_iter_laws(),
            items.decrease() is Some,
            shown@.len() + items.remaining().len() == all.len(),
            items.remaining() == all.skip(shown@.len() as int),
            forall|j: int|
                0 <= j < shown@.len() ==> ((#[trigger] shown@[j]).0, shown@[j].1@) == shown_entry(
                    (*all[j].0, all[j].1@),
                ),
        ensures
            shown@.len() == all.len(),
        decreases items.decrease()->0,
    {
        match items.next() {
            Some((price, orders)) => {
                shown.push((*price, view_orders(orders)));
            },
            None => break,
        }
    }
    assert(types::level_contents(shown@) =~= entries(all).map_values(
        |entry: (Price, Seq<RestingOrder>)| shown_entry(entry),
    ));
    shown
}

impl Clone for Ladder {
    fn clone(&self) -> (copy: Ladder)
        ensures
            copy@ == self@,
    {
        Ladder { levels: self.levels.clone() }
    }
}

} // verus!
