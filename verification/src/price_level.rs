//! Price levels and one side of the book.

use crate::order::{Order, Side};
use std::collections::{BTreeMap, VecDeque};
use vstd::prelude::*;

verus! {

/// The resting orders at one price, oldest first.
#[derive(Debug, Clone)]
pub struct PriceLevel {
    pub price: u64,
    pub orders: VecDeque<Order>,
}

impl View for PriceLevel {
    type V = Seq<Order>;

    open spec fn view(&self) -> Seq<Order> {
        self.orders@
    }
}

impl PriceLevel {
    pub fn new(price: u64) -> (level: Self)
        ensures
            level.price == price,
            level@ == Seq::<Order>::empty(),
    {
        Self { price, orders: VecDeque::new() }
    }

    /// Queues `order` behind every order already at this level.
    pub fn add_orders(&mut self, order: Order)
        ensures
            final(self).price == old(self).price,
            final(self)@ == old(self)@.push(order),
    {
        self.orders.push_back(order);
    }

    /// Takes the oldest order off the level, if there is one.
    pub fn pop_order(&mut self) -> (popped: Option<Order>)
        ensures
            final(self).price == old(self).price,
            old(self)@.len() == 0 ==> popped.is_none() && final(self)@ == old(self)@,
            old(self)@.len() > 0 ==> popped == Some(old(self)@[0]) && final(self)@ == old(
                self,
            )@.drop_first(),
    {
        let popped = self.orders.pop_front();
        popped
    }
}

/// Whether `price` is the best price among `levels` for `side`: the highest
/// occupied price on the bid side, the lowest on the ask side.
pub open spec fn is_best_price(levels: Map<u64, Seq<Order>>, side: Side, price: u64) -> bool {
    &&& levels.contains_key(price)
    &&& forall|other: u64| #[trigger]
        levels.contains_key(other) ==> match side {
            Side::Bid => other <= price,
            Side::Ask => price <= other,
        }
}

/// The best price among `levels` for `side`, if any price is occupied.
pub open spec fn best_price_of(levels: Map<u64, Seq<Order>>, side: Side) -> Option<u64> {
    if exists|price: u64| is_best_price(levels, side, price) {
        Some(choose|price: u64| is_best_price(levels, side, price))
    } else {
        None
    }
}

/// The queue at `price`, empty where the price is not occupied.
pub open spec fn queue_at(levels: Map<u64, Seq<Order>>, price: u64) -> Seq<Order> {
    if levels.contains_key(price) {
        levels[price]
    } else {
        Seq::empty()
    }
}

/// `levels` with `order` queued last at its own price.
pub open spec fn with_resting(levels: Map<u64, Seq<Order>>, order: Order) -> Map<u64, Seq<Order>> {
    levels.insert(order.price, queue_at(levels, order.price).push(order))
}

/// `levels` without the level at `price`, if that level holds no order.
pub open spec fn without_empty_level(levels: Map<u64, Seq<Order>>, price: u64) -> Map<
    u64,
    Seq<Order>,
> {
    if levels.contains_key(price) && levels[price].len() == 0 {
        levels.remove(price)
    } else {
        levels
    }
}

/// No occupied price has an empty queue.
pub open spec fn pruned(levels: Map<u64, Seq<Order>>) -> bool {
    forall|price: u64| #[trigger] levels.contains_key(price) ==> levels[price].len() > 0
}

/// Whatever price is shown to be the best is the one `best_price_of` names.
pub proof fn lemma_best_price_is(levels: Map<u64, Seq<Order>>, side: Side, price: u64)
    requires
        is_best_price(levels, side, price),
    ensures
        best_price_of(levels, side) == Some(price),
{
}

/// Finitely many levels, at least one, have a best price on either side.
pub proof fn lemma_best_price_exists(levels: Map<u64, Seq<Order>>, side: Side)
    requires
        levels.dom().finite(),
        levels.dom().len() > 0,
    ensures
        exists|price: u64| is_best_price(levels, side, price),
    decreases levels.dom().len(),
{
    let one = levels.dom().choose();
    let rest = levels.remove(one);
    if rest.dom().len() == 0 {
        assert(is_best_price(levels, side, one));
    } else {
        lemma_best_price_exists(rest, side);
        let among_rest = choose|price: u64| is_best_price(rest, side, price);
        let better = match side {
            Side::Bid => if among_rest <= one {
                one
            } else {
                among_rest
            },
            Side::Ask => if one <= among_rest {
                one
            } else {
                among_rest
            },
        };
        assert(is_best_price(levels, side, better));
    }
}

/// Finitely many levels have a best price exactly when there is a level.
pub proof fn lemma_best_price_some(levels: Map<u64, Seq<Order>>, side: Side)
    requires
        levels.dom().finite(),
    ensures
        best_price_of(levels, side).is_some() <==> exists|price: u64| levels.contains_key(price),
        best_price_of(levels, side).is_some() ==> is_best_price(
            levels,
            side,
            best_price_of(levels, side).unwrap(),
        ),
{
    if exists|price: u64| levels.contains_key(price) {
        lemma_best_price_exists(levels, side);
    }
}

/// The smallest key of a `BTreeMap`, by its method `first_key_value`: `None`
/// for an empty map, else a key of the map that no other key is below.
#[verifier::external_body]
fn lowest_key(levels: &BTreeMap<u64, PriceLevel>) -> (key: Option<u64>)
    ensures
        match key {
            Some(k) => levels@.contains_key(k) && forall|other: u64|
                levels@.contains_key(other) ==> k <= other,
            None => forall|other: u64| !levels@.contains_key(other),
        },
{
    match levels.first_key_value() {
        Some((key, _)) => Some(*key),
        None => None,
    }
}

/// The largest key of a `BTreeMap`, by its method `last_key_value`: `None`
/// for an empty map, else a key of the map that no other key is above.
#[verifier::external_body]
fn highest_key(levels: &BTreeMap<u64, PriceLevel>) -> (key: Option<u64>)
    ensures
        match key {
            Some(k) => levels@.contains_key(k) && forall|other: u64|
                levels@.contains_key(other) ==> other <= k,
            None => forall|other: u64| !levels@.contains_key(other),
        },
{
    match levels.last_key_value() {
        Some((key, _)) => Some(*key),
        None => None,
    }
}

/// One side of the book: its occupied prices, each with its queue.
#[derive(Debug, Clone)]
pub struct BookSide {
    pub levels: BTreeMap<u64, PriceLevel>,
}

impl View for BookSide {
    type V = Map<u64, Seq<Order>>;

    open spec fn view(&self) -> Map<u64, Seq<Order>> {
        Map::new(|price: u64| self.levels@.contains_key(price), |price: u64| self.levels@[price]@)
    }
}

impl BookSide {
    /// Every level is filed under its own price.
    pub open spec fn well_keyed(&self) -> bool {
        forall|price: u64| #[trigger]
            self.levels@.contains_key(price) ==> self.levels@[price].price == price
    }

    pub fn new() -> (side: Self)
        ensures
            side@ == Map::<u64, Seq<Order>>::empty(),
            side.well_keyed(),
    {
        let side = Self { levels: BTreeMap::new() };
        side
    }

    /// Queues `order` last at its price, opening the level if the price was
    /// not occupied.
    pub fn insert(&mut self, order: Order)
        ensures
            final(self)@ == with_resting(old(self)@, order),
            old(self).well_keyed() ==> final(self).well_keyed(),
    {
        let mut level = match self.levels.remove(&order.price) {
            Some(level) => level,
            None => PriceLevel::new(order.price),
        };
        level.add_orders(order);
        self.levels.insert(order.price, level);
    }

    /// Drops the level at `price` if it holds no order. An occupied level, or
    /// a price with no level, leaves the side as it was.
    pub fn remove_level_if_empty(&mut self, price: u64)
        ensures
            final(self)@ == without_empty_level(old(self)@, price),
            old(self).well_keyed() ==> final(self).well_keyed(),
    {
        let empty = match self.levels.get(&price) {
            Some(level) => level.orders.len() == 0,
            None => false,
        };
        if empty {
            self.levels.remove(&price);
        }
    }

    /// The best price of this side read as `side`: the highest occupied price
    /// for bids, the lowest for asks, `None` where no price is occupied.
    pub fn best_price(&self, side: Side) -> (best: Option<u64>)
        ensures
            best == best_price_of(self@, side),
            best.is_none() <==> self@.dom().is_empty(),
    {
        let best = match side {
            Side::Bid => highest_key(&self.levels),
            Side::Ask => lowest_key(&self.levels),
        };
        proof {
            if let Some(price) = best {
                lemma_best_price_is(self@, side, price);
            }
        }
        best
    }
}

} // verus!
