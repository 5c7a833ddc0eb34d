//! The rule by which an incoming limit order trades against one side of the
//! book, and what follows from it.

use crate::order::{Order, Side, Trade};
use crate::price_level::{
    best_price_of, is_best_price, lemma_best_price_is, lemma_best_price_some, pruned, queue_at,
    with_resting, BookSide,
};
use vstd::prelude::*;

verus! {

/// Every order of `levels` is filed under its own price, on side `side`, with
/// something left to fill; no level is empty; and the levels are finitely
/// many.
pub open spec fn side_wf(levels: Map<u64, Seq<Order>>, side: Side) -> bool {
    &&& levels.dom().finite()
    &&& pruned(levels)
    &&& forall|price: u64, i: int|
        levels.contains_key(price) && 0 <= i < levels[price].len() ==> {
            let order = #[trigger] levels[price][i];
            order.price == price && order.side == side && order.quantity > 0
        }
}

/// No bid is priced at or above any ask.
pub open spec fn uncrossed(bids: Map<u64, Seq<Order>>, asks: Map<u64, Seq<Order>>) -> bool {
    forall|bid: u64, ask: u64| #[trigger]
        bids.contains_key(bid) && #[trigger] asks.contains_key(ask) ==> bid < ask
}

/// `levels` after `traded` units were taken from the oldest order at `price`:
/// the order leaves when nothing of it is left, and the level leaves with its
/// last order; otherwise the order keeps its place with the smaller quantity.
pub open spec fn after_trade(levels: Map<u64, Seq<Order>>, price: u64, traded: u64) -> Map<
    u64,
    Seq<Order>,
> {
    let queue = levels[price];
    let maker = queue[0];
    if maker.quantity > traded {
        levels.insert(price, queue.update(0, maker.with_quantity((maker.quantity - traded) as u64)))
    } else if queue.len() > 1 {
        levels.insert(price, queue.drop_first())
    } else {
        levels.remove(price)
    }
}

/// What matching leaves: the opposing levels, the taker's unfilled quantity,
/// and the trades in the order they happened.
pub struct MatchOutcome {
    pub levels: Map<u64, Seq<Order>>,
    pub remaining: u64,
    pub trades: Seq<Trade>,
}

/// `outcome` with `earlier` trades put before its own.
pub open spec fn after_trades(earlier: Seq<Trade>, outcome: MatchOutcome) -> MatchOutcome {
    MatchOutcome { trades: earlier + outcome.trades, ..outcome }
}

/// The price at which `taker` trades next against `levels`: the best opposing
/// price, provided the taker's limit reaches it and the taker has quantity
/// left.
pub open spec fn next_trade_price(levels: Map<u64, Seq<Order>>, taker: Order) -> Option<u64> {
    match best_price_of(levels, taker.side.opposite()) {
        Some(price) => if taker.quantity > 0 && taker.side.crosses(taker.price, price)
            && levels[price].len() > 0 && levels[price][0].quantity > 0 {
            Some(price)
        } else {
            None
        },
        None => None,
    }
}

/// Matching `taker` against the opposing `levels`, trade by trade. Each trade
/// is with the oldest order at the best opposing price, for as much as both
/// can fill, at that price; it stops when the taker is filled, the levels run
/// out, or the best price no longer reaches the taker's limit. Trades are
/// numbered from `sequence` on.
pub open spec fn match_outcome(
    levels: Map<u64, Seq<Order>>,
    taker: Order,
    sequence: int,
) -> MatchOutcome
    decreases taker.quantity,
{
    match next_trade_price(levels, taker) {
        Some(price) => {
            let maker = levels[price][0];
            let traded = if maker.quantity < taker.quantity {
                maker.quantity
            } else {
                taker.quantity
            };
            let trade = Trade {
                maker_order_id: maker.id,
                taker_order_id: taker.id,
                price,
                quantity: traded,
                sequence: sequence as u64,
            };
            after_trades(
                seq![trade],
                match_outcome(
                    after_trade(levels, price, traded),
                    taker.with_quantity((taker.quantity - traded) as u64),
                    sequence + 1,
                ),
            )
        },
        None => MatchOutcome { levels, remaining: taker.quantity, trades: Seq::empty() },
    }
}

/// The level at `price` put back among `rest` with `queue`, or left out when
/// the queue is empty.
pub open spec fn with_level(rest: Map<u64, Seq<Order>>, price: u64, queue: Seq<Order>) -> Map<
    u64,
    Seq<Order>,
> {
    if queue.len() > 0 {
        rest.insert(price, queue)
    } else {
        rest
    }
}

/// Matches `taker` against `opposing` and returns what is left of the taker
/// with the trades made, numbered from `first_sequence`.
pub fn match_against(opposing: &mut BookSide, taker: Order, first_sequence: u64) -> (result: (
    u64,
    Vec<Trade>,
))
    requires
        side_wf(old(opposing)@, taker.side.opposite()),
        first_sequence + taker.quantity <= u64::MAX,
    ensures
        final(opposing)@ == match_outcome(old(opposing)@, taker, first_sequence as int).levels,
        result.0 == match_outcome(old(opposing)@, taker, first_sequence as int).remaining,
        result.1@ == match_outcome(old(opposing)@, taker, first_sequence as int).trades,
        result.0 + result.1@.len() <= taker.quantity,
        side_wf(final(opposing)@, taker.side.opposite()),
        old(opposing).well_keyed() ==> final(opposing).well_keyed(),
{
    let resting_side = taker.side.opposite();
    let mut remaining: u64 = taker.quantity;
    let mut sequence: u64 = first_sequence;
    let mut trades: Vec<Trade> = Vec::new();
    let ghost start = opposing@;
    assert(after_trades(trades@, match_outcome(start, taker, first_sequence as int))
        == match_outcome(start, taker, first_sequence as int)) by {
        let outcome = match_outcome(start, taker, first_sequence as int);
        assert(trades@ + outcome.trades =~= outcome.trades);
    }
    while remaining > 0
        invariant
            resting_side == taker.side.opposite(),
            side_wf(opposing@, resting_side),
            old(opposing).well_keyed() ==> opposing.well_keyed(),
            sequence == first_sequence + trades@.len(),
            sequence + remaining <= first_sequence + taker.quantity,
            first_sequence + taker.quantity <= u64::MAX,
            match_outcome(start, taker, first_sequence as int) == after_trades(
                trades@,
                match_outcome(opposing@, taker.with_quantity(remaining), sequence as int),
            ),
        ensures
            next_trade_price(opposing@, taker.with_quantity(remaining)).is_none(),
        decreases remaining,
    {
        let ghost entered = remaining;
        let price = match opposing.best_price(resting_side) {
            Some(price) => price,
            None => {
                break ;
            },
        };
        if !taker.side.crosses(taker.price, price) {
            break ;
        }
        let ghost whole = opposing@;
        let mut level = match opposing.levels.remove(&price) {
            Some(level) => level,
            None => {
                // The best price is an occupied price: this arm is never taken.
                break ;
            },
        };
        let ghost rest = opposing@;
        proof {
            assert(rest =~= whole.remove(price));
            assert(whole =~= with_level(rest, price, level@));
            assert forall|other: u64, i: int|
                rest.contains_key(other) && 0 <= i < rest[other].len() implies {
                let order = #[trigger] rest[other][i];
                order.price == other && order.side == resting_side && order.quantity > 0
            } by {}
            assert(pruned(rest)) by {
                assert forall|other: u64| #[trigger] rest.contains_key(other) implies rest[other].len()
                    > 0 by {}
            }
        }
        loop
            invariant_except_break
                remaining > 0,
            invariant
                resting_side == taker.side.opposite(),
                opposing@ == rest,
                old(opposing).well_keyed() ==> opposing.well_keyed(),
                old(opposing).well_keyed() ==> level.price == price,
                side_wf(rest, resting_side),
                !rest.contains_key(price),
                forall|other: u64| #[trigger]
                    rest.contains_key(other) ==> match resting_side {
                        Side::Bid => other <= price,
                        Side::Ask => price <= other,
                    },
                forall|i: int|
                    0 <= i < level@.len() ==> {
                        let order = #[trigger] level@[i];
                        order.price == price && order.side == resting_side && order.quantity > 0
                    },
                taker.side.crosses(taker.price, price),
                sequence == first_sequence + trades@.len(),
                sequence + remaining <= first_sequence + taker.quantity,
                first_sequence + taker.quantity <= u64::MAX,
                remaining <= entered,
                remaining == entered ==> level@.len() > 0,
                match_outcome(start, taker, first_sequence as int) == after_trades(
                    trades@,
                    match_outcome(
                        with_level(rest, price, level@),
                        taker.with_quantity(remaining),
                        sequence as int,
                    ),
                ),
            ensures
                remaining < entered,
            decreases remaining,
        {
            let ghost queue = level@;
            let ghost before = with_level(rest, price, queue);
            let ghost earlier = trades@;
            let resting = match level.pop_order() {
                Some(resting) => resting,
                None => {
                    break ;
                },
            };
            let traded = if resting.quantity < remaining {
                resting.quantity
            } else {
                remaining
            };
            let trade = Trade {
                maker_order_id: resting.id,
                taker_order_id: taker.id,
                price,
                quantity: traded,
                sequence,
            };
            trades.push(trade);
            proof {
                lemma_best_price_is(before, resting_side, price);
                assert(taker.with_quantity(remaining).with_quantity((remaining - traded) as u64)
                    == taker.with_quantity((remaining - traded) as u64));
                let later = match_outcome(
                    after_trade(before, price, traded),
                    taker.with_quantity((remaining - traded) as u64),
                    sequence + 1,
                );
                assert(match_outcome(before, taker.with_quantity(remaining), sequence as int)
                    == after_trades(seq![trade], later));
                assert(earlier + (seq![trade] + later.trades) =~= earlier.push(trade)
                    + later.trades);
            }
            sequence = sequence + 1;
            remaining = remaining - traded;
            if resting.quantity > traded {
                level.orders.push_front(resting.with_quantity(resting.quantity - traded));
                proof {
                    assert(level@ =~= queue.update(
                        0,
                        resting.with_quantity((resting.quantity - traded) as u64),
                    ));
                    assert(with_level(rest, price, level@) =~= after_trade(before, price, traded));
                }
                break ;
            }
            proof {
                assert(with_level(rest, price, level@) =~= after_trade(before, price, traded));
            }
            if remaining == 0 {
                break ;
            }
        }
        let ghost queue = level@;
        opposing.levels.insert(price, level);
        opposing.remove_level_if_empty(price);
        proof {
            assert(opposing@ =~= with_level(rest, price, queue));
        }
    }
    proof {
        let stopped = match_outcome(opposing@, taker.with_quantity(remaining), sequence as int);
        assert(trades@ + stopped.trades =~= trades@);
    }
    (remaining, trades)
}

/// Within every level the arrival numbers rise from the oldest order to the
/// newest, and all of them are below `next_sequence`.
pub open spec fn in_arrival_order(levels: Map<u64, Seq<Order>>, next_sequence: u64) -> bool {
    &&& forall|price: u64, i: int, j: int|
        levels.contains_key(price) && 0 <= i < j < levels[price].len() ==> (
        #[trigger] levels[price][i]).sequence < (#[trigger] levels[price][j]).sequence
    &&& forall|price: u64, i: int|
        levels.contains_key(price) && 0 <= i < levels[price].len() ==> (
        #[trigger] levels[price][i]).sequence < next_sequence
}

/// One trade keeps a side well formed and in arrival order, and opens no new
/// price.
pub proof fn lemma_after_trade(
    levels: Map<u64, Seq<Order>>,
    side: Side,
    price: u64,
    traded: u64,
    next_sequence: u64,
)
    requires
        side_wf(levels, side),
        levels.contains_key(price),
        0 < traded <= levels[price][0].quantity,
    ensures
        side_wf(after_trade(levels, price, traded), side),
        after_trade(levels, price, traded).dom().subset_of(levels.dom()),
        in_arrival_order(levels, next_sequence) ==> in_arrival_order(
            after_trade(levels, price, traded),
            next_sequence,
        ),
{
    let after = after_trade(levels, price, traded);
    assert forall|p: u64, i: int| after.contains_key(p) && 0 <= i < after[p].len() implies {
        let order = #[trigger] after[p][i];
        order.price == p && order.side == side && order.quantity > 0
    } by {}
    assert(pruned(after)) by {
        assert forall|p: u64| #[trigger] after.contains_key(p) implies after[p].len() > 0 by {}
    }
    if in_arrival_order(levels, next_sequence) {
        assert forall|p: u64, i: int, j: int|
            after.contains_key(p) && 0 <= i < j < after[p].len() implies (
        #[trigger] after[p][i]).sequence < (#[trigger] after[p][j]).sequence by {}
        assert forall|p: u64, i: int| after.contains_key(p) && 0 <= i < after[p].len() implies (
        #[trigger] after[p][i]).sequence < next_sequence by {}
    }
}

/// The trade that fills the last order at a price takes that price out of
/// the side.
pub proof fn lemma_filled_level_leaves(levels: Map<u64, Seq<Order>>, price: u64, traded: u64)
    requires
        levels.contains_key(price),
        levels[price].len() == 1,
        levels[price][0].quantity <= traded,
    ensures
        !after_trade(levels, price, traded).contains_key(price),
{
}

/// Where the taker trades next, there is a level at that price whose oldest
/// order has quantity left, and the taker's limit reaches it.
pub proof fn lemma_next_trade_price(levels: Map<u64, Seq<Order>>, taker: Order, price: u64)
    requires
        next_trade_price(levels, taker) == Some(price),
    ensures
        is_best_price(levels, taker.side.opposite(), price),
        taker.side.crosses(taker.price, price),
        taker.quantity > 0,
        levels[price].len() > 0,
        levels[price][0].quantity > 0,
{
}

/// Matching keeps the opposing side well formed and in arrival order, opens
/// no new price, and fills no more than the taker asked for.
pub proof fn lemma_match_outcome_wf(
    levels: Map<u64, Seq<Order>>,
    taker: Order,
    sequence: int,
    next_sequence: u64,
)
    requires
        side_wf(levels, taker.side.opposite()),
    ensures
        side_wf(match_outcome(levels, taker, sequence).levels, taker.side.opposite()),
        match_outcome(levels, taker, sequence).levels.dom().subset_of(levels.dom()),
        match_outcome(levels, taker, sequence).remaining <= taker.quantity,
        in_arrival_order(levels, next_sequence) ==> in_arrival_order(
            match_outcome(levels, taker, sequence).levels,
            next_sequence,
        ),
    decreases taker.quantity,
{
    match next_trade_price(levels, taker) {
        Some(price) => {
            lemma_next_trade_price(levels, taker, price);
            let maker = levels[price][0];
            let traded = if maker.quantity < taker.quantity {
                maker.quantity
            } else {
                taker.quantity
            };
            lemma_after_trade(levels, taker.side.opposite(), price, traded, next_sequence);
            lemma_match_outcome_wf(
                after_trade(levels, price, traded),
                taker.with_quantity((taker.quantity - traded) as u64),
                sequence + 1,
                next_sequence,
            );
        },
        None => {},
    }
}

/// Every trade fills at least one unit, so the trades are no more than the
/// quantity filled.
pub proof fn lemma_trade_count(levels: Map<u64, Seq<Order>>, taker: Order, sequence: int)
    ensures
        match_outcome(levels, taker, sequence).remaining + match_outcome(
            levels,
            taker,
            sequence,
        ).trades.len() <= taker.quantity,
    decreases taker.quantity,
{
    match next_trade_price(levels, taker) {
        Some(price) => {
            let maker = levels[price][0];
            let traded = if maker.quantity < taker.quantity {
                maker.quantity
            } else {
                taker.quantity
            };
            lemma_trade_count(
                after_trade(levels, price, traded),
                taker.with_quantity((taker.quantity - traded) as u64),
                sequence + 1,
            );
        },
        None => {},
    }
}

/// Matching stops only when the taker is filled or no opposing price is left
/// that its limit reaches.
pub proof fn lemma_match_outcome_exhausts(levels: Map<u64, Seq<Order>>, taker: Order, sequence: int)
    requires
        side_wf(levels, taker.side.opposite()),
    ensures
        match_outcome(levels, taker, sequence).remaining > 0 ==> forall|price: u64| #[trigger]
            match_outcome(levels, taker, sequence).levels.contains_key(price)
                ==> !taker.side.crosses(taker.price, price),
    decreases taker.quantity,
{
    match next_trade_price(levels, taker) {
        Some(price) => {
            lemma_next_trade_price(levels, taker, price);
            let maker = levels[price][0];
            let traded = if maker.quantity < taker.quantity {
                maker.quantity
            } else {
                taker.quantity
            };
            lemma_after_trade(levels, taker.side.opposite(), price, traded, 0);
            lemma_match_outcome_exhausts(
                after_trade(levels, price, traded),
                taker.with_quantity((taker.quantity - traded) as u64),
                sequence + 1,
            );
        },
        None => {
            if taker.quantity > 0 {
                lemma_best_price_some(levels, taker.side.opposite());
                assert forall|price: u64| #[trigger] levels.contains_key(price) implies !taker.side.crosses(
                    taker.price,
                    price,
                ) by {
                    let best = best_price_of(levels, taker.side.opposite()).unwrap();
                    assert(levels[best].len() > 0 && levels[best][0].quantity > 0);
                }
            }
        },
    }
}

/// Resting an order with quantity left, on its own side, keeps that side well
/// formed.
pub proof fn lemma_with_resting_wf(levels: Map<u64, Seq<Order>>, order: Order)
    requires
        side_wf(levels, order.side),
        order.quantity > 0,
    ensures
        side_wf(with_resting(levels, order), order.side),
{
    let after = with_resting(levels, order);
    let queue = queue_at(levels, order.price);
    assert forall|p: u64, i: int| after.contains_key(p) && 0 <= i < after[p].len() implies {
        let resting = #[trigger] after[p][i];
        resting.price == p && resting.side == order.side && resting.quantity > 0
    } by {}
    assert(pruned(after)) by {
        assert forall|p: u64| #[trigger] after.contains_key(p) implies after[p].len() > 0 by {}
    }
}

/// Resting an order keeps a side in arrival order, where the order arrived
/// after all that queue at its price and before the bound.
pub proof fn lemma_with_resting(levels: Map<u64, Seq<Order>>, order: Order, next_sequence: u64)
    requires
        in_arrival_order(levels, next_sequence),
        order.sequence < next_sequence,
        forall|i: int|
            0 <= i < queue_at(levels, order.price).len() ==> (#[trigger] queue_at(
                levels,
                order.price,
            )[i]).sequence < order.sequence,
    ensures
        in_arrival_order(with_resting(levels, order), next_sequence),
{
    let after = with_resting(levels, order);
    assert forall|p: u64, i: int, j: int|
        after.contains_key(p) && 0 <= i < j < after[p].len() implies (
    #[trigger] after[p][i]).sequence < (#[trigger] after[p][j]).sequence by {}
    assert forall|p: u64, i: int| after.contains_key(p) && 0 <= i < after[p].len() implies (
    #[trigger] after[p][i]).sequence < next_sequence by {}
}

/// Levels in arrival order below one bound are in arrival order below any
/// higher bound.
pub proof fn lemma_arrival_order_widens(levels: Map<u64, Seq<Order>>, lower: u64, higher: u64)
    requires
        in_arrival_order(levels, lower),
        lower <= higher,
    ensures
        in_arrival_order(levels, higher),
{
}

} // verus!
