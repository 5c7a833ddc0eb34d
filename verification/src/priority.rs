//! Price-time priority, stated of every match: liquidity at a price is taken
//! from the oldest order on, and a price is touched only once every better
//! price is used up.

use crate::matching::{
    after_trade, lemma_after_trade, lemma_match_outcome_wf, lemma_next_trade_price, match_outcome,
    next_trade_price, side_wf,
};
use crate::order::{Order, Side};
use crate::price_level::queue_at;
use vstd::prelude::*;

verus! {

/// Whether `after` is what is left of the queue `before` once its `gone`
/// oldest orders were filled: the others in their places, untouched but for
/// the oldest of them, which may have less quantity left than before.
pub open spec fn is_rest_from(after: Seq<Order>, before: Seq<Order>, gone: int) -> bool {
    &&& 0 <= gone <= before.len()
    &&& after.len() == before.len() - gone
    &&& forall|i: int| 1 <= i < after.len() ==> #[trigger] after[i] == before[gone + i]
    &&& after.len() > 0 ==> {
        &&& after[0] == before[gone].with_quantity(after[0].quantity)
        &&& 0 < after[0].quantity <= before[gone].quantity
    }
}

/// Whether `after` is what is left of the queue `before` once some of its
/// oldest orders were filled.
pub open spec fn is_rest_of(after: Seq<Order>, before: Seq<Order>) -> bool {
    exists|gone: int| is_rest_from(after, before, gone)
}

/// Whether `better` is a better price than `price` on `side`: higher among
/// bids, lower among asks.
pub open spec fn is_better_price(side: Side, better: u64, price: u64) -> bool {
    match side {
        Side::Bid => better > price,
        Side::Ask => better < price,
    }
}

/// What is left of what is left of a queue is what is left of the queue.
pub proof fn lemma_rest_of_rest(
    last: Seq<Order>,
    middle: Seq<Order>,
    first: Seq<Order>,
    gone_then: int,
    gone_first: int,
)
    requires
        is_rest_from(middle, first, gone_first),
        is_rest_from(last, middle, gone_then),
    ensures
        is_rest_from(last, first, gone_first + gone_then),
{
    assert forall|i: int| 1 <= i < last.len() implies #[trigger] last[i] == first[gone_first
        + gone_then + i] by {}
}

/// A queue with quantity left in its oldest order is what is left of itself.
pub proof fn lemma_rest_of_itself(queue: Seq<Order>)
    requires
        queue.len() > 0 ==> queue[0].quantity > 0,
    ensures
        is_rest_from(queue, queue, 0),
{
}

/// One trade takes from the oldest order of the best level and leaves every
/// other level as it was.
pub proof fn lemma_trade_takes_oldest(
    levels: Map<u64, Seq<Order>>,
    side: Side,
    price: u64,
    traded: u64,
    at: u64,
)
    requires
        side_wf(levels, side),
        levels.contains_key(price),
        levels.contains_key(at),
        0 < traded <= levels[price][0].quantity,
    ensures
        is_rest_of(queue_at(after_trade(levels, price, traded), at), levels[at]),
        at != price ==> queue_at(after_trade(levels, price, traded), at) == levels[at],
{
    let after = after_trade(levels, price, traded);
    let queue = levels[price];
    if at != price {
        lemma_rest_of_itself(levels[at]);
    } else if queue[0].quantity > traded {
        assert(is_rest_from(queue_at(after, at), queue, 0));
    } else if queue.len() > 1 {
        assert(is_rest_from(queue_at(after, at), queue, 1));
    } else {
        assert(is_rest_from(queue_at(after, at), queue, 1));
    }
}

/// Price-time priority. After any match, what rests at a price is what is
/// left of its queue once some of its oldest orders were filled: no order is
/// touched while an older one at its price has quantity left. And where the
/// queue at a price was touched at all, nothing is left at any better price.
pub proof fn lemma_price_time_priority(
    levels: Map<u64, Seq<Order>>,
    taker: Order,
    sequence: int,
    price: u64,
)
    requires
        side_wf(levels, taker.side.opposite()),
        levels.contains_key(price),
    ensures
        is_rest_of(queue_at(match_outcome(levels, taker, sequence).levels, price), levels[price]),
        queue_at(match_outcome(levels, taker, sequence).levels, price) != levels[price]
            ==> forall|better: u64|
            is_better_price(taker.side.opposite(), better, price) ==> !#[trigger] match_outcome(
                levels,
                taker,
                sequence,
            ).levels.contains_key(better),
    decreases taker.quantity,
{
    let side = taker.side.opposite();
    let outcome = match_outcome(levels, taker, sequence).levels;
    match next_trade_price(levels, taker) {
        Some(best) => {
            lemma_next_trade_price(levels, taker, best);
            let maker = levels[best][0];
            let traded = if maker.quantity < taker.quantity {
                maker.quantity
            } else {
                taker.quantity
            };
            let traded_levels = after_trade(levels, best, traded);
            let rest = taker.with_quantity((taker.quantity - traded) as u64);
            lemma_after_trade(levels, side, best, traded, 0);
            lemma_trade_takes_oldest(levels, side, best, traded, price);
            lemma_match_outcome_wf(traded_levels, rest, sequence + 1, 0);
            let gone_first = choose|gone: int|
                is_rest_from(queue_at(traded_levels, price), levels[price], gone);
            if traded_levels.contains_key(price) {
                lemma_price_time_priority(traded_levels, rest, sequence + 1, price);
                let gone_then = choose|gone: int|
                    is_rest_from(queue_at(outcome, price), traded_levels[price], gone);
                lemma_rest_of_rest(
                    queue_at(outcome, price),
                    traded_levels[price],
                    levels[price],
                    gone_then,
                    gone_first,
                );
                if queue_at(outcome, price) != levels[price] {
                    assert forall|better: u64|
                        is_better_price(side, better, price) implies !#[trigger] outcome.contains_key(
                        better,
                    ) by {}
                }
            } else {
                assert forall|better: u64|
                    is_better_price(side, better, price) implies !#[trigger] outcome.contains_key(
                    better,
                ) by {}
            }
        },
        None => {
            lemma_rest_of_itself(levels[price]);
        },
    }
}

/// Whether `after` is what price-time priority leaves of the levels
/// `before` of `side`: at every price what is left of its queue once some of
/// its oldest orders were filled, and nothing at any price better than one
/// whose queue was touched.
pub open spec fn keeps_priority(
    before: Map<u64, Seq<Order>>,
    after: Map<u64, Seq<Order>>,
    side: Side,
) -> bool {
    forall|price: u64| #[trigger]
        before.contains_key(price) ==> {
            &&& is_rest_of(queue_at(after, price), before[price])
            &&& queue_at(after, price) != before[price] ==> forall|better: u64|
                is_better_price(side, better, price) ==> !#[trigger] after.contains_key(better)
        }
}

/// Every match keeps price-time priority.
pub proof fn lemma_match_keeps_priority(levels: Map<u64, Seq<Order>>, taker: Order, sequence: int)
    requires
        side_wf(levels, taker.side.opposite()),
    ensures
        keeps_priority(
            levels,
            match_outcome(levels, taker, sequence).levels,
            taker.side.opposite(),
        ),
{
    assert forall|price: u64| #[trigger] levels.contains_key(price) implies {
        &&& is_rest_of(queue_at(match_outcome(levels, taker, sequence).levels, price), levels[price])
        &&& queue_at(match_outcome(levels, taker, sequence).levels, price) != levels[price]
            ==> forall|better: u64|
            is_better_price(taker.side.opposite(), better, price) ==> !#[trigger] match_outcome(
                levels,
                taker,
                sequence,
            ).levels.contains_key(better)
    } by {
        lemma_price_time_priority(levels, taker, sequence, price);
    }
}

/// Levels that were not touched keep price-time priority.
pub proof fn lemma_untouched_keeps_priority(levels: Map<u64, Seq<Order>>, side: Side)
    requires
        side_wf(levels, side),
    ensures
        keeps_priority(levels, levels, side),
{
    assert forall|price: u64| #[trigger] levels.contains_key(price) implies is_rest_of(
        queue_at(levels, price),
        levels[price],
    ) by {
        assert(levels[price].len() > 0 && levels[price][0].quantity > 0);
        lemma_rest_of_itself(levels[price]);
    }
}

} // verus!
