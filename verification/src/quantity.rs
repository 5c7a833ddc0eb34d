//! Totals of quantity over queues, sides and trades, and the fact that
//! matching moves quantity without making or losing any.

use crate::matching::{after_trade, match_outcome, next_trade_price, side_wf};
use crate::order::{Order, Trade};
use crate::price_level::{queue_at, with_resting};
use vstd::prelude::*;

verus! {

/// The unfilled quantity of all orders of `queue` together.
pub open spec fn queue_quantity(queue: Seq<Order>) -> nat
    decreases queue.len(),
{
    if queue.len() == 0 {
        0
    } else {
        queue[0].quantity as nat + queue_quantity(queue.drop_first())
    }
}

/// The unfilled quantity of all orders of `levels` together.
pub open spec fn side_quantity(levels: Map<u64, Seq<Order>>) -> nat
    decreases levels.dom().len(),
{
    if levels.dom().finite() && levels.dom().len() > 0 {
        let price = levels.dom().choose();
        queue_quantity(levels[price]) + side_quantity(levels.remove(price))
    } else {
        0
    }
}

/// The quantity that `trades` moved.
pub open spec fn traded_quantity(trades: Seq<Trade>) -> nat
    decreases trades.len(),
{
    if trades.len() == 0 {
        0
    } else {
        trades[0].quantity as nat + traded_quantity(trades.drop_first())
    }
}

/// A queue with one more order holds that order's quantity more.
pub proof fn lemma_queue_quantity_push(queue: Seq<Order>, order: Order)
    ensures
        queue_quantity(queue.push(order)) == queue_quantity(queue) + order.quantity,
    decreases queue.len(),
{
    if queue.len() == 0 {
        assert(queue_quantity(queue.push(order).drop_first()) == 0);
    } else {
        assert(queue.push(order).drop_first() =~= queue.drop_first().push(order));
        lemma_queue_quantity_push(queue.drop_first(), order);
    }
}

/// The quantity of a side is that of any one of its levels plus that of the
/// others.
pub proof fn lemma_side_quantity_split(levels: Map<u64, Seq<Order>>, price: u64)
    requires
        levels.dom().finite(),
        levels.contains_key(price),
    ensures
        side_quantity(levels) == queue_quantity(levels[price]) + side_quantity(
            levels.remove(price),
        ),
    decreases levels.dom().len(),
{
    let chosen = levels.dom().choose();
    if chosen != price {
        lemma_side_quantity_split(levels.remove(chosen), price);
        lemma_side_quantity_split(levels.remove(price), chosen);
        assert(levels.remove(chosen).remove(price) =~= levels.remove(price).remove(chosen));
    }
}

/// Putting `queue` at `price` makes the side hold the quantity of `queue`
/// plus that of its other levels.
pub proof fn lemma_side_quantity_insert(levels: Map<u64, Seq<Order>>, price: u64, queue: Seq<Order>)
    requires
        levels.dom().finite(),
    ensures
        side_quantity(levels.insert(price, queue)) == queue_quantity(queue) + side_quantity(
            levels.remove(price),
        ),
{
    lemma_side_quantity_split(levels.insert(price, queue), price);
    assert(levels.insert(price, queue).remove(price) =~= levels.remove(price));
}

/// One trade takes exactly the traded quantity out of the side.
pub proof fn lemma_after_trade_quantity(levels: Map<u64, Seq<Order>>, price: u64, traded: u64)
    requires
        levels.dom().finite(),
        levels.contains_key(price),
        levels[price].len() > 0,
        traded <= levels[price][0].quantity,
    ensures
        side_quantity(after_trade(levels, price, traded)) + traded == side_quantity(levels),
{
    let queue = levels[price];
    let maker = queue[0];
    lemma_side_quantity_split(levels, price);
    if maker.quantity > traded {
        let reduced = queue.update(0, maker.with_quantity((maker.quantity - traded) as u64));
        assert(reduced.drop_first() =~= queue.drop_first());
        lemma_side_quantity_insert(levels, price, reduced);
    } else if queue.len() > 1 {
        lemma_side_quantity_insert(levels, price, queue.drop_first());
    } else {
        assert(queue_quantity(queue.drop_first()) == 0);
    }
}

/// Resting an order adds exactly its quantity to the side.
pub proof fn lemma_with_resting_quantity(levels: Map<u64, Seq<Order>>, order: Order)
    requires
        levels.dom().finite(),
    ensures
        side_quantity(with_resting(levels, order)) == side_quantity(levels) + order.quantity,
{
    let queue = queue_at(levels, order.price);
    lemma_queue_quantity_push(queue, order);
    lemma_side_quantity_insert(levels, order.price, queue.push(order));
    if levels.contains_key(order.price) {
        lemma_side_quantity_split(levels, order.price);
    } else {
        assert(levels.remove(order.price) =~= levels);
    }
}

/// Matching conserves quantity: what leaves the opposing side, what the taker
/// gets filled, and what the trades add up to are one and the same amount.
pub proof fn lemma_match_conserves_quantity(
    levels: Map<u64, Seq<Order>>,
    taker: Order,
    sequence: int,
)
    requires
        side_wf(levels, taker.side.opposite()),
    ensures
        side_quantity(levels) - side_quantity(match_outcome(levels, taker, sequence).levels)
            == taker.quantity - match_outcome(levels, taker, sequence).remaining,
        taker.quantity - match_outcome(levels, taker, sequence).remaining == traded_quantity(
            match_outcome(levels, taker, sequence).trades,
        ),
    decreases taker.quantity,
{
    match next_trade_price(levels, taker) {
        Some(price) => {
            let maker = levels[price][0];
            let traded = if maker.quantity < taker.quantity {
                maker.quantity
            } else {
                taker.quantity
            };
            let after = after_trade(levels, price, traded);
            let rest = taker.with_quantity((taker.quantity - traded) as u64);
            crate::matching::lemma_next_trade_price(levels, taker, price);
            crate::matching::lemma_after_trade(levels, taker.side.opposite(), price, traded, 0);
            lemma_after_trade_quantity(levels, price, traded);
            lemma_match_conserves_quantity(after, rest, sequence + 1);
            let later = match_outcome(after, rest, sequence + 1);
            let all = match_outcome(levels, taker, sequence).trades;
            assert(all.drop_first() =~= later.trades);
        },
        None => {},
    }
}

} // verus!
