//! The store as plain mathematics, and why a book can be rebuilt from it:
//! as long as every submission's changes reach the store, the store holds
//! exactly the resting orders, and a walk of its price-level index puts them
//! back where they were.

use crate::db::{entry_order, replay, resting_op_of, trade_op_of, EntryView, LogOp};
use crate::error::StorageError;
use crate::keys::{
    lemma_be_bytes_value, lemma_price_level_keys_sort_by_price_then_arrival, order_key_of,
    price_level_key_of, sorts_before,
};
use crate::matching::{
    after_trade, in_arrival_order, lemma_after_trade, lemma_next_trade_price, match_outcome,
    next_trade_price, side_wf,
};
use crate::order::{Order, Side, Trade};
use crate::order_book::{
    lemma_restore_keeps_wf, lemma_submit_keeps_sequenced, lemma_submit_keeps_wf, offer_outcome,
    refusal_of, restore_outcome, submit_all, submit_outcome, BookState,
};
use crate::price_level::{best_price_of, queue_at, with_resting};
use vstd::prelude::*;

verus! {

/// What the store holds: each order under its id, and each order's id under
/// its price and arrival number.
pub struct LogState {
    pub orders: Map<u64, Order>,
    pub levels: Map<(u64, u64), u64>,
}

impl LogState {
    /// The store before anything was written.
    pub open spec fn empty() -> LogState {
        LogState { orders: Map::empty(), levels: Map::empty() }
    }

    /// The order held under `id`, if any.
    pub open spec fn snapshot(self, id: u64) -> Option<Order> {
        if self.orders.contains_key(id) {
            Some(self.orders[id])
        } else {
            None
        }
    }

    /// The store after one change.
    pub open spec fn apply(self, op: LogOp) -> LogState {
        match op {
            LogOp::Put(order) => LogState {
                orders: self.orders.insert(order.id, order),
                levels: self.levels.insert((order.price, order.sequence), order.id),
            },
            LogOp::Delete(order) => LogState {
                orders: self.orders.remove(order.id),
                levels: self.levels.remove((order.price, order.sequence)),
            },
        }
    }

    /// The store after the change that `trade` makes to its maker. A trade
    /// whose maker the store does not hold changes nothing.
    pub open spec fn after_trade(self, trade: Trade) -> LogState {
        match trade_op_of(self.snapshot(trade.maker_order_id), trade) {
            Ok(op) => self.apply(op),
            Err(_) => self,
        }
    }

    /// The store after the changes of `trades`, first to last.
    pub open spec fn after_trades(self, trades: Seq<Trade>) -> LogState
        decreases trades.len(),
    {
        if trades.len() == 0 {
            self
        } else {
            self.after_trade(trades[0]).after_trades(trades.drop_first())
        }
    }

    /// The store after all changes of submitting `order` to `book`: those of
    /// its trades, then the order itself if anything of it is left.
    pub open spec fn after_submission(self, book: BookState, order: Order) -> LogState {
        let outcome = submit_outcome(book, order);
        let traded = self.after_trades(outcome.trades);
        match resting_op_of(order, book.next_sequence, outcome.remaining) {
            Some(op) => traded.apply(op),
            None => traded,
        }
    }
}

/// Whether `order` rests in `levels`, at its own price.
pub open spec fn rests_in(levels: Map<u64, Seq<Order>>, order: Order) -> bool {
    levels.contains_key(order.price) && levels[order.price].contains(order)
}

/// Whether `order` rests in `book`, on its own side.
pub open spec fn rests(book: BookState, order: Order) -> bool {
    rests_in(book.side(order.side), order)
}

/// The store holds exactly the orders that rest in the book: each under its
/// id, and its id under its price and arrival number.
pub open spec fn in_step(log: LogState, book: BookState) -> bool {
    &&& forall|order: Order| #[trigger]
        rests(book, order) ==> {
            &&& log.orders.contains_key(order.id)
            &&& log.orders[order.id] == order
            &&& log.levels.contains_key((order.price, order.sequence))
            &&& log.levels[(order.price, order.sequence)] == order.id
        }
    &&& forall|id: u64| #[trigger]
        log.orders.contains_key(id) ==> rests(book, log.orders[id]) && log.orders[id].id == id
    &&& forall|price: u64, sequence: u64| #[trigger]
        log.levels.contains_key((price, sequence)) ==> {
            let id = log.levels[(price, sequence)];
            &&& log.orders.contains_key(id)
            &&& log.orders[id].price == price
            &&& log.orders[id].sequence == sequence
        }
}

/// Every resting order has an id below the book's order id counter.
pub open spec fn numbered(book: BookState) -> bool {
    forall|order: Order| #[trigger] rests(book, order) ==> order.id < book.next_order_id
}

/// `book` with `levels` in place of its `side`.
pub open spec fn with_side(book: BookState, side: Side, levels: Map<u64, Seq<Order>>) -> BookState {
    match side {
        Side::Bid => BookState { bids: levels, ..book },
        Side::Ask => BookState { asks: levels, ..book },
    }
}

/// After one trade the orders of a side are those of before without the
/// maker, and with what is left of the maker if anything is.
pub proof fn lemma_rests_after_trade(
    levels: Map<u64, Seq<Order>>,
    side: Side,
    price: u64,
    traded: u64,
    next_sequence: u64,
    order: Order,
)
    requires
        side_wf(levels, side),
        in_arrival_order(levels, next_sequence),
        levels.contains_key(price),
        0 < traded <= levels[price][0].quantity,
    ensures
        rests_in(after_trade(levels, price, traded), order) <==> ({
            let maker = levels[price][0];
            ||| (rests_in(levels, order) && order != maker)
            ||| (maker.quantity > traded && order == maker.with_quantity(
                (maker.quantity - traded) as u64,
            ))
        }),
{
    let after = after_trade(levels, price, traded);
    let queue = levels[price];
    let maker = queue[0];
    let left = maker.with_quantity((maker.quantity - traded) as u64);
    assert(queue.len() > 0);
    assert(maker.price == price);
    if rests_in(after, order) {
        let i = choose|i: int| 0 <= i < after[order.price].len() && after[order.price][i] == order;
        if order.price != price {
            assert(levels[order.price][i] == order);
        } else if maker.quantity > traded {
            if i > 0 {
                assert(queue[i] == order);
                assert(queue[0].sequence < queue[i].sequence);
            }
        } else {
            assert(queue[i + 1] == order);
            assert(queue[0].sequence < queue[i + 1].sequence);
        }
    }
    if rests_in(levels, order) && order != maker {
        let i = choose|i: int|
            0 <= i < levels[order.price].len() && levels[order.price][i] == order;
        if order.price != price {
            assert(after[order.price][i] == order);
        } else if maker.quantity > traded {
            assert(i > 0);
            assert(after[price][i] == order);
        } else {
            assert(i > 0);
            assert(queue.len() > 1);
            assert(after[price][i - 1] == order);
        }
    }
    if maker.quantity > traded && order == left {
        assert(after[price][0] == left);
    }
}

/// After an order was queued the orders of a side are those of before and
/// the new one.
pub proof fn lemma_rests_with_resting(levels: Map<u64, Seq<Order>>, queued: Order, order: Order)
    ensures
        rests_in(with_resting(levels, queued), order) <==> (rests_in(levels, order) || order
            == queued),
{
    let after = with_resting(levels, queued);
    let queue = queue_at(levels, queued.price);
    if rests_in(after, order) {
        let i = choose|i: int| 0 <= i < after[order.price].len() && after[order.price][i] == order;
        if order.price != queued.price {
            assert(levels[order.price][i] == order);
        } else if i < queue.len() {
            assert(levels[order.price][i] == order);
        }
    }
    if rests_in(levels, order) {
        let i = choose|i: int|
            0 <= i < levels[order.price].len() && levels[order.price][i] == order;
        assert(after[order.price][i] == order);
    }
    if order == queued {
        assert(after[queued.price][queue.len() as int] == queued);
    }
}

/// One trade, written to the store, leaves the store holding exactly the
/// resting orders.
pub proof fn lemma_trade_keeps_in_step(
    log: LogState,
    book: BookState,
    side: Side,
    price: u64,
    traded: u64,
    trade: Trade,
)
    requires
        in_step(log, book),
        side_wf(book.side(side), side),
        in_arrival_order(book.side(side), book.next_sequence),
        book.side(side).contains_key(price),
        0 < traded <= book.side(side)[price][0].quantity,
        trade.maker_order_id == book.side(side)[price][0].id,
        trade.price == price,
        trade.quantity == traded,
    ensures
        in_step(
            log.after_trade(trade),
            with_side(book, side, after_trade(book.side(side), price, traded)),
        ),
{
    let levels = book.side(side);
    let maker = levels[price][0];
    let left = maker.with_quantity((maker.quantity - traded) as u64);
    let after_levels = after_trade(levels, price, traded);
    let after_book = with_side(book, side, after_levels);
    let after_log = log.after_trade(trade);
    assert(levels[price].len() > 0);
    assert(rests(book, maker)) by {
        assert(levels[maker.price][0] == maker);
    }
    assert(log.snapshot(trade.maker_order_id) == Some(maker));
    assert forall|order: Order|
        rests(after_book, order) <==> (rests(book, order) && order != maker) || (maker.quantity
            > traded && order == left) by {
        if order.side == side {
            lemma_rests_after_trade(levels, side, price, traded, book.next_sequence, order);
        } else {
            assert(after_book.side(order.side) == book.side(order.side));
        }
    }
    assert forall|order: Order| #[trigger] rests(after_book, order) implies {
        &&& after_log.orders.contains_key(order.id)
        &&& after_log.orders[order.id] == order
        &&& after_log.levels.contains_key((order.price, order.sequence))
        &&& after_log.levels[(order.price, order.sequence)] == order.id
    } by {
        if rests(book, order) && order != maker {
            assert(order.id != maker.id);
            assert((order.price, order.sequence) != (maker.price, maker.sequence));
        }
    }
    assert forall|id: u64| #[trigger] after_log.orders.contains_key(id) implies rests(
        after_book,
        after_log.orders[id],
    ) && after_log.orders[id].id == id by {
        if id != maker.id {
            assert(log.orders.contains_key(id));
            assert(rests(book, log.orders[id]));
        }
    }
    assert forall|p: u64, s: u64| #[trigger] after_log.levels.contains_key((p, s)) implies {
        let id = after_log.levels[(p, s)];
        &&& after_log.orders.contains_key(id)
        &&& after_log.orders[id].price == p
        &&& after_log.orders[id].sequence == s
    } by {
        if (p, s) != (maker.price, maker.sequence) {
            assert(log.levels.contains_key((p, s)));
            let id = log.levels[(p, s)];
            assert(rests(book, log.orders[id]));
            assert(id != maker.id);
        }
    }
}

/// The changes of all trades of a match, written to the store, leave the
/// store holding exactly the resting orders.
pub proof fn lemma_match_keeps_in_step(log: LogState, book: BookState, taker: Order, sequence: int)
    requires
        in_step(log, book),
        side_wf(book.side(taker.side.opposite()), taker.side.opposite()),
        in_arrival_order(book.side(taker.side.opposite()), book.next_sequence),
    ensures
        in_step(
            log.after_trades(
                match_outcome(book.side(taker.side.opposite()), taker, sequence).trades,
            ),
            with_side(
                book,
                taker.side.opposite(),
                match_outcome(book.side(taker.side.opposite()), taker, sequence).levels,
            ),
        ),
    decreases taker.quantity,
{
    let side = taker.side.opposite();
    let levels = book.side(side);
    match next_trade_price(levels, taker) {
        Some(price) => {
            lemma_next_trade_price(levels, taker, price);
            let maker = levels[price][0];
            let traded = if maker.quantity < taker.quantity {
                maker.quantity
            } else {
                taker.quantity
            };
            let trade = Trade {
                maker_order_id: maker.id,
                taker_order_id: taker.id,
                price,
                quantity: traded,
                sequence: sequence as u64,
            };
            let after_levels = after_trade(levels, price, traded);
            let after_book = with_side(book, side, after_levels);
            let rest = taker.with_quantity((taker.quantity - traded) as u64);
            lemma_trade_keeps_in_step(log, book, side, price, traded, trade);
            lemma_after_trade(levels, side, price, traded, book.next_sequence);
            lemma_match_keeps_in_step(log.after_trade(trade), after_book, rest, sequence + 1);
            let later = match_outcome(after_levels, rest, sequence + 1);
            let all = match_outcome(levels, taker, sequence);
            assert(all.trades[0] == trade);
            assert(all.trades.drop_first() =~= later.trades);
            assert(with_side(after_book, side, later.levels) == with_side(book, side, all.levels));
        },
        None => {
            assert(with_side(book, side, levels) == book);
        },
    }
}

/// Filing a newly resting order, whose id and arrival number no resting
/// order has, leaves the store holding exactly the resting orders.
pub proof fn lemma_resting_keeps_in_step(log: LogState, book: BookState, queued: Order)
    requires
        in_step(log, book),
        forall|order: Order| #[trigger]
            rests(book, order) ==> order.id != queued.id && order.sequence != queued.sequence,
    ensures
        in_step(
            log.apply(LogOp::Put(queued)),
            with_side(book, queued.side, with_resting(book.side(queued.side), queued)),
        ),
{
    let after_book = with_side(book, queued.side, with_resting(book.side(queued.side), queued));
    let after_log = log.apply(LogOp::Put(queued));
    assert forall|order: Order| rests(after_book, order) <==> rests(book, order) || order
        == queued by {
        if order.side == queued.side {
            lemma_rests_with_resting(book.side(queued.side), queued, order);
        } else {
            assert(after_book.side(order.side) == book.side(order.side));
        }
    }
    assert forall|order: Order| #[trigger] rests(after_book, order) implies {
        &&& after_log.orders.contains_key(order.id)
        &&& after_log.orders[order.id] == order
        &&& after_log.levels.contains_key((order.price, order.sequence))
        &&& after_log.levels[(order.price, order.sequence)] == order.id
    } by {
        if order != queued {
            assert(rests(book, order));
        }
    }
    assert forall|id: u64| #[trigger] after_log.orders.contains_key(id) implies rests(
        after_book,
        after_log.orders[id],
    ) && after_log.orders[id].id == id by {
        if id != queued.id {
            assert(log.orders.contains_key(id));
            assert(rests(book, log.orders[id]));
        }
    }
    assert forall|p: u64, s: u64| #[trigger] after_log.levels.contains_key((p, s)) implies {
        let id = after_log.levels[(p, s)];
        &&& after_log.orders.contains_key(id)
        &&& after_log.orders[id].price == p
        &&& after_log.orders[id].sequence == s
    } by {
        if (p, s) != (queued.price, queued.sequence) {
            assert(log.levels.contains_key((p, s)));
            let id = log.levels[(p, s)];
            assert(rests(book, log.orders[id]));
        }
    }
}

/// Matching leaves no order in the opposing side that was not there, but for
/// what is left of a maker; so ids and arrival numbers of resting orders are
/// ids and arrival numbers of orders that rested before.
pub proof fn lemma_match_brings_no_order(
    levels: Map<u64, Seq<Order>>,
    taker: Order,
    sequence: int,
    next_sequence: u64,
    order: Order,
)
    requires
        side_wf(levels, taker.side.opposite()),
        in_arrival_order(levels, next_sequence),
        rests_in(match_outcome(levels, taker, sequence).levels, order),
    ensures
        exists|before: Order| #[trigger]
            rests_in(levels, before) && before.id == order.id && before.sequence == order.sequence,
    decreases taker.quantity,
{
    match next_trade_price(levels, taker) {
        Some(price) => {
            lemma_next_trade_price(levels, taker, price);
            let maker = levels[price][0];
            let traded = if maker.quantity < taker.quantity {
                maker.quantity
            } else {
                taker.quantity
            };
            let after_levels = after_trade(levels, price, traded);
            let rest = taker.with_quantity((taker.quantity - traded) as u64);
            lemma_after_trade(levels, taker.side.opposite(), price, traded, next_sequence);
            lemma_match_brings_no_order(after_levels, rest, sequence + 1, next_sequence, order);
            let between = choose|before: Order| #[trigger]
                rests_in(after_levels, before) && before.id == order.id && before.sequence
                    == order.sequence;
            lemma_rests_after_trade(
                levels,
                taker.side.opposite(),
                price,
                traded,
                next_sequence,
                between,
            );
            if !rests_in(levels, between) {
                assert(rests_in(levels, maker)) by {
                    assert(levels[maker.price][0] == maker);
                }
            }
        },
        None => {},
    }
}

/// A submission whose changes are written to the store leaves the store
/// holding exactly the resting orders, as long as the order's id is not below
/// the order id counter, and both counters have room.
pub proof fn lemma_submission_keeps_in_step(log: LogState, book: BookState, order: Order)
    requires
        book.wf(),
        book.sequenced(),
        numbered(book),
        in_step(log, book),
        book.next_order_id <= order.id < u64::MAX,
        book.next_sequence + order.quantity < u64::MAX,
    ensures
        in_step(log.after_submission(book, order), submit_outcome(book, order).book),
        numbered(submit_outcome(book, order).book),
{
    let side = order.side.opposite();
    let taker = order.with_sequence(book.next_sequence);
    let opposing = book.side(side);
    let matched = match_outcome(opposing, taker, book.next_sequence + 1);
    let traded_book = with_side(book, side, matched.levels);
    let traded_log = log.after_trades(matched.trades);
    let after_book = submit_outcome(book, order).book;
    let after_log = log.after_submission(book, order);
    lemma_match_keeps_in_step(log, book, taker, book.next_sequence + 1);
    assert forall|resting: Order| #[trigger] rests(traded_book, resting) implies resting.id
        < book.next_order_id && resting.sequence < book.next_sequence by {
        if resting.side == side {
            lemma_match_brings_no_order(
                opposing,
                taker,
                book.next_sequence + 1,
                book.next_sequence,
                resting,
            );
            let before = choose|before: Order| #[trigger]
                rests_in(opposing, before) && before.id == resting.id && before.sequence
                    == resting.sequence;
            assert(before.side == side) by {
                let i = choose|i: int|
                    0 <= i < opposing[before.price].len() && opposing[before.price][i] == before;
            }
            assert(rests(book, before));
            lemma_sequence_of_resting(book, before);
        } else {
            assert(rests(book, resting));
            lemma_sequence_of_resting(book, resting);
        }
    }
    if matched.remaining > 0 {
        let queued = taker.with_quantity(matched.remaining);
        lemma_resting_keeps_in_step(traded_log, traded_book, queued);
        assert(after_book.bids == with_side(
            traded_book,
            queued.side,
            with_resting(traded_book.side(queued.side), queued),
        ).bids);
        assert(after_book.asks == with_side(
            traded_book,
            queued.side,
            with_resting(traded_book.side(queued.side), queued),
        ).asks);
        assert forall|resting: Order| #[trigger] rests(after_book, resting) implies resting.id
            < after_book.next_order_id by {
            if resting.side == queued.side {
                lemma_rests_with_resting(traded_book.side(queued.side), queued, resting);
            }
            if resting != queued {
                assert(rests(traded_book, resting));
            }
        }
    } else {
        assert(after_book.bids == traded_book.bids);
        assert(after_book.asks == traded_book.asks);
        assert forall|resting: Order| #[trigger] rests(after_book, resting) implies resting.id
            < after_book.next_order_id by {
            assert(rests(traded_book, resting));
        }
    }
    lemma_in_step_of_sides(after_log, after_book, if matched.remaining > 0 {
        with_side(
            traded_book,
            order.side,
            with_resting(traded_book.side(order.side), taker.with_quantity(matched.remaining)),
        )
    } else {
        traded_book
    });
}

/// Every resting order of a book in arrival order arrived before the
/// sequence counter.
pub proof fn lemma_sequence_of_resting(book: BookState, order: Order)
    requires
        book.sequenced(),
        rests(book, order),
    ensures
        order.sequence < book.next_sequence,
{
    let levels = book.side(order.side);
    let i = choose|i: int| 0 <= i < levels[order.price].len() && levels[order.price][i] == order;
    assert(levels[order.price][i].sequence < book.next_sequence);
}

/// Whether a store holds exactly the resting orders of a book depends on the
/// two sides alone.
pub proof fn lemma_in_step_of_sides(log: LogState, book: BookState, other: BookState)
    requires
        in_step(log, other),
        book.bids == other.bids,
        book.asks == other.asks,
    ensures
        in_step(log, book),
{
    assert forall|order: Order| rests(book, order) == rests(other, order) by {}
    assert forall|order: Order| #[trigger] rests(book, order) implies {
        &&& log.orders.contains_key(order.id)
        &&& log.orders[order.id] == order
        &&& log.levels.contains_key((order.price, order.sequence))
        &&& log.levels[(order.price, order.sequence)] == order.id
    } by {
        assert(rests(other, order));
    }
    assert forall|id: u64| #[trigger] log.orders.contains_key(id) implies rests(
        book,
        log.orders[id],
    ) && log.orders[id].id == id by {
        assert(rests(other, log.orders[id]));
    }
}

/// `entry` is the entry of the price-level index of `log` for `price` and
/// `sequence`, together with the order that `log` holds under its value.
pub open spec fn files(log: LogState, entry: EntryView, price: u64, sequence: u64) -> bool {
    &&& log.levels.contains_key((price, sequence))
    &&& entry.key == price_level_key_of(price, sequence)
    &&& entry.value == order_key_of(log.levels[(price, sequence)])
    &&& entry.snapshot == log.snapshot(log.levels[(price, sequence)])
}

/// `entries` is what a walk of the price-level index of `log` yields: every
/// entry of the index once, in the bytewise order of the keys.
pub open spec fn is_walk_of(entries: Seq<EntryView>, log: LogState) -> bool {
    &&& forall|i: int, j: int|
        0 <= i < j < entries.len() ==> sorts_before(
            (#[trigger] entries[i]).key,
            (#[trigger] entries[j]).key,
        )
    &&& forall|i: int|
        0 <= i < entries.len() ==> exists|price: u64, sequence: u64|
            files(log, #[trigger] entries[i], price, sequence)
    &&& forall|price: u64, sequence: u64| #[trigger]
        log.levels.contains_key((price, sequence)) ==> exists|i: int|
            0 <= i < entries.len() && (#[trigger] entries[i]).key == price_level_key_of(
                price,
                sequence,
            )
}

/// Every entry of a walk of a store that holds exactly the resting orders
/// carries one of them, filed under its own key and value.
pub proof fn lemma_entry_of_walk(
    book: BookState,
    log: LogState,
    entries: Seq<EntryView>,
    at: int,
)
    requires
        book.wf(),
        in_step(log, book),
        is_walk_of(entries, log),
        0 <= at < entries.len(),
    ensures
        entries[at].snapshot.is_some(),
        rests(book, entries[at].snapshot.unwrap()),
        entries[at].snapshot.unwrap().quantity > 0,
        entries[at].key == price_level_key_of(
            entries[at].snapshot.unwrap().price,
            entries[at].snapshot.unwrap().sequence,
        ),
        entry_order(entries[at]) == Ok::<Option<Order>, StorageError>(entries[at].snapshot),
{
    let entry = entries[at];
    let (price, sequence) = choose|price: u64, sequence: u64| files(log, entry, price, sequence);
    let id = log.levels[(price, sequence)];
    let order = log.orders[id];
    assert(log.levels.contains_key((price, sequence)));
    assert(log.orders.contains_key(id));
    assert(rests(book, order));
    lemma_quantity_of_resting(book, order);
    lemma_be_bytes_value(price as nat, 8);
    lemma_be_bytes_value(sequence as nat, 8);
    lemma_be_bytes_value(id as nat, 8);
}

/// Every resting order of a well-formed book has quantity left, and its
/// price is occupied on its side.
pub proof fn lemma_quantity_of_resting(book: BookState, order: Order)
    requires
        book.wf(),
        rests(book, order),
    ensures
        order.quantity > 0,
        book.side(order.side).contains_key(order.price),
{
    let levels = book.side(order.side);
    let i = choose|i: int| 0 <= i < levels[order.price].len() && levels[order.price][i] == order;
    assert(levels[order.price][i].quantity > 0);
}

/// Every order queued in a well-formed book rests in it.
pub proof fn lemma_queued_rests(book: BookState, side: Side, price: u64, at: int)
    requires
        book.wf(),
        book.side(side).contains_key(price),
        0 <= at < book.side(side)[price].len(),
    ensures
        rests(book, book.side(side)[price][at]),
        book.side(side)[price][at].side == side,
        book.side(side)[price][at].price == price,
{
    let order = book.side(side)[price][at];
    assert(order.side == side && order.price == price);
}

/// The first entries of a walk are put back without refusal, and the book
/// then holds exactly the orders they carry.
pub proof fn lemma_replay_of_walk(
    book: BookState,
    log: LogState,
    entries: Seq<EntryView>,
    read: int,
)
    requires
        book.wf(),
        book.sequenced(),
        in_step(log, book),
        is_walk_of(entries, log),
        0 <= read <= entries.len(),
    ensures
        replay(BookState::empty(), entries.take(read)).is_ok(),
        ({
            let rebuilt = replay(BookState::empty(), entries.take(read)).unwrap();
            &&& rebuilt.wf()
            &&& rebuilt.sequenced()
            &&& forall|order: Order|
                rests(rebuilt, order) <==> exists|j: int|
                    0 <= j < read && (#[trigger] entries[j]).snapshot == Some(order)
        }),
    decreases read,
{
    let start = BookState::empty();
    if read == 0 {
        assert(entries.take(0) =~= Seq::<EntryView>::empty());
        assert(start.bids.dom() =~= Set::<u64>::empty());
        assert(start.asks.dom() =~= Set::<u64>::empty());
    } else {
        let at = read - 1;
        lemma_replay_of_walk(book, log, entries, at);
        assert(entries.take(read).drop_last() =~= entries.take(at));
        assert(entries.take(read).last() == entries[at]);
        let before = replay(start, entries.take(at)).unwrap();
        lemma_entry_of_walk(book, log, entries, at);
        let order = entries[at].snapshot.unwrap();
        lemma_quantity_of_resting(book, order);
        lemma_sequence_of_resting(book, order);
        let own = before.side(order.side);
        let other = before.side(order.side.opposite());
        assert(!crate::order_book::would_cross(other, order.side, order.price)) by {
            if crate::order_book::would_cross(other, order.side, order.price) {
                let resting = choose|resting: u64| #[trigger]
                    other.contains_key(resting) && order.side.crosses(order.price, resting);
                lemma_queued_rests(before, order.side.opposite(), resting, 0);
                let there = other[resting][0];
                let j = choose|j: int| 0 <= j < at && (#[trigger] entries[j]).snapshot == Some(there);
                lemma_entry_of_walk(book, log, entries, j);
                lemma_quantity_of_resting(book, there);
                assert(book.side(order.side.opposite()).contains_key(resting));
                assert(book.side(order.side).contains_key(order.price));
            }
        }
        if own.contains_key(order.price) && own[order.price].len() > 0 {
            let last = own[order.price].last();
            lemma_queued_rests(before, order.side, order.price, own[order.price].len() - 1);
            let j = choose|j: int| 0 <= j < at && (#[trigger] entries[j]).snapshot == Some(last);
            lemma_entry_of_walk(book, log, entries, j);
            assert(sorts_before(entries[j].key, entries[at].key));
            lemma_price_level_keys_sort_by_price_then_arrival(
                last.price,
                last.sequence,
                order.price,
                order.sequence,
            );
            assert(last.sequence < order.sequence);
        }
        lemma_restore_keeps_wf(before, order);
        let rebuilt = restore_outcome(before, order).unwrap();
        assert(replay(start, entries.take(read)) == Ok::<BookState, StorageError>(rebuilt));
        assert forall|resting: Order|
            rests(rebuilt, resting) <==> exists|j: int|
                0 <= j < read && (#[trigger] entries[j]).snapshot == Some(resting) by {
            if resting.side == order.side {
                lemma_rests_with_resting(own, order, resting);
            } else {
                assert(rebuilt.side(resting.side) == before.side(resting.side));
            }
            if rests(rebuilt, resting) {
                if resting == order {
                    assert(entries[at].snapshot == Some(resting));
                } else {
                    assert(rests(before, resting));
                    let j = choose|j: int|
                        0 <= j < at && (#[trigger] entries[j]).snapshot == Some(resting);
                    assert(0 <= j < read && entries[j].snapshot == Some(resting));
                }
            }
            if exists|j: int| 0 <= j < read && (#[trigger] entries[j]).snapshot == Some(resting) {
                let j = choose|j: int|
                    0 <= j < read && (#[trigger] entries[j]).snapshot == Some(resting);
                if j < at {
                    assert(rests(before, resting));
                }
            }
        }
    }
}

/// Two queues in which the arrival numbers rise, and which hold the same
/// orders, are the same queue.
pub proof fn lemma_same_orders_same_queue(a: Seq<Order>, b: Seq<Order>)
    requires
        forall|i: int, j: int|
            0 <= i < j < a.len() ==> (#[trigger] a[i]).sequence < (#[trigger] a[j]).sequence,
        forall|i: int, j: int|
            0 <= i < j < b.len() ==> (#[trigger] b[i]).sequence < (#[trigger] b[j]).sequence,
        forall|order: Order| a.contains(order) <==> b.contains(order),
    ensures
        a == b,
    decreases a.len(),
{
    if a.len() == 0 {
        if b.len() > 0 {
            assert(b.contains(b[0]));
            assert(a.contains(b[0]));
        }
        assert(a =~= b);
    } else {
        assert(a.contains(a[0]));
        assert(b.contains(a[0]));
        assert(b.contains(b[0]));
        assert(a.contains(b[0]));
        let i = choose|i: int| 0 <= i < a.len() && a[i] == b[0];
        let j = choose|j: int| 0 <= j < b.len() && b[j] == a[0];
        if i > 0 {
            assert(a[0].sequence < a[i].sequence);
            if j > 0 {
                assert(b[0].sequence < b[j].sequence);
            }
        }
        assert(a[0] == b[0]);
        let rest_a = a.drop_first();
        let rest_b = b.drop_first();
        assert forall|order: Order| rest_a.contains(order) <==> rest_b.contains(order) by {
            if rest_a.contains(order) {
                let k = choose|k: int| 0 <= k < rest_a.len() && rest_a[k] == order;
                assert(a[k + 1] == order);
                assert(a.contains(order));
                assert(a[0].sequence < a[k + 1].sequence);
                let m = choose|m: int| 0 <= m < b.len() && b[m] == order;
                assert(m > 0);
                assert(rest_b[m - 1] == order);
            }
            if rest_b.contains(order) {
                let k = choose|k: int| 0 <= k < rest_b.len() && rest_b[k] == order;
                assert(b[k + 1] == order);
                assert(b.contains(order));
                assert(b[0].sequence < b[k + 1].sequence);
                let m = choose|m: int| 0 <= m < a.len() && a[m] == order;
                assert(m > 0);
                assert(rest_a[m - 1] == order);
            }
        }
        assert forall|x: int, y: int| 0 <= x < y < rest_a.len() implies (
        #[trigger] rest_a[x]).sequence < (#[trigger] rest_a[y]).sequence by {
            assert(a[x + 1].sequence < a[y + 1].sequence);
        }
        assert forall|x: int, y: int| 0 <= x < y < rest_b.len() implies (
        #[trigger] rest_b[x]).sequence < (#[trigger] rest_b[y]).sequence by {
            assert(b[x + 1].sequence < b[y + 1].sequence);
        }
        lemma_same_orders_same_queue(rest_a, rest_b);
        assert(a =~= seq![a[0]] + rest_a);
        assert(b =~= seq![b[0]] + rest_b);
    }
}

/// Two well-formed sides in arrival order that hold the same orders are the
/// same side, level by level and place by place.
pub proof fn lemma_same_orders_same_side(
    a: Map<u64, Seq<Order>>,
    b: Map<u64, Seq<Order>>,
    side: Side,
    bound_a: u64,
    bound_b: u64,
)
    requires
        side_wf(a, side),
        side_wf(b, side),
        in_arrival_order(a, bound_a),
        in_arrival_order(b, bound_b),
        forall|order: Order| rests_in(a, order) <==> rests_in(b, order),
    ensures
        a == b,
{
    assert forall|price: u64| a.contains_key(price) <==> b.contains_key(price) by {
        if a.contains_key(price) {
            let first = a[price][0];
            assert(a[first.price].contains(first));
            assert(rests_in(a, first));
            assert(rests_in(b, first));
        }
        if b.contains_key(price) {
            let first = b[price][0];
            assert(b[first.price].contains(first));
            assert(rests_in(b, first));
            assert(rests_in(a, first));
        }
    }
    assert forall|price: u64| a.contains_key(price) implies a[price] == b[price] by {
        assert forall|order: Order| a[price].contains(order) <==> b[price].contains(order) by {
            if a[price].contains(order) {
                let i = choose|i: int| 0 <= i < a[price].len() && a[price][i] == order;
                assert(a[price][i].price == price);
                assert(rests_in(a, order));
                assert(rests_in(b, order));
            }
            if b[price].contains(order) {
                let i = choose|i: int| 0 <= i < b[price].len() && b[price][i] == order;
                assert(b[price][i].price == price);
                assert(rests_in(b, order));
                assert(rests_in(a, order));
            }
        }
        lemma_same_orders_same_queue(a[price], b[price]);
    }
    assert(a =~= b);
}

/// Orders of the other side do not rest in a side.
pub proof fn lemma_rests_on_own_side(levels: Map<u64, Seq<Order>>, side: Side, order: Order)
    requires
        side_wf(levels, side),
        rests_in(levels, order),
    ensures
        order.side == side,
{
    let i = choose|i: int| 0 <= i < levels[order.price].len() && levels[order.price][i] == order;
    assert(levels[order.price][i].side == side);
}

/// A walk of a store that holds exactly the resting orders of a book
/// rebuilds both sides of that book: the same prices, and at each price the
/// same orders in the same places.
pub proof fn lemma_walk_rebuilds_book(book: BookState, log: LogState, entries: Seq<EntryView>)
    requires
        book.wf(),
        book.sequenced(),
        in_step(log, book),
        is_walk_of(entries, log),
    ensures
        replay(BookState::empty(), entries).is_ok(),
        replay(BookState::empty(), entries).unwrap().bids == book.bids,
        replay(BookState::empty(), entries).unwrap().asks == book.asks,
{
    lemma_replay_of_walk(book, log, entries, entries.len() as int);
    assert(entries.take(entries.len() as int) =~= entries);
    let rebuilt = replay(BookState::empty(), entries).unwrap();
    assert forall|order: Order| rests(rebuilt, order) <==> rests(book, order) by {
        if rests(rebuilt, order) {
            let j = choose|j: int|
                0 <= j < entries.len() && (#[trigger] entries[j]).snapshot == Some(order);
            lemma_entry_of_walk(book, log, entries, j);
        }
        if rests(book, order) {
            assert(log.levels.contains_key((order.price, order.sequence)));
            let i = choose|i: int|
                0 <= i < entries.len() && (#[trigger] entries[i]).key == price_level_key_of(
                    order.price,
                    order.sequence,
                );
            lemma_entry_of_walk(book, log, entries, i);
            let filed = entries[i].snapshot.unwrap();
            lemma_price_level_keys_sort_by_price_then_arrival(
                filed.price,
                filed.sequence,
                order.price,
                order.sequence,
            );
            assert(log.orders[filed.id] == filed);
            assert(log.levels[(filed.price, filed.sequence)] == filed.id);
            assert(filed == order);
        }
    }
    assert forall|order: Order| rests_in(rebuilt.bids, order) <==> rests_in(book.bids, order) by {
        if rests_in(rebuilt.bids, order) {
            lemma_rests_on_own_side(rebuilt.bids, Side::Bid, order);
            assert(rests(rebuilt, order));
        }
        if rests_in(book.bids, order) {
            lemma_rests_on_own_side(book.bids, Side::Bid, order);
            assert(rests(book, order));
        }
    }
    assert forall|order: Order| rests_in(rebuilt.asks, order) <==> rests_in(book.asks, order) by {
        if rests_in(rebuilt.asks, order) {
            lemma_rests_on_own_side(rebuilt.asks, Side::Ask, order);
            assert(rests(rebuilt, order));
        }
        if rests_in(book.asks, order) {
            lemma_rests_on_own_side(book.asks, Side::Ask, order);
            assert(rests(book, order));
        }
    }
    lemma_same_orders_same_side(
        rebuilt.bids,
        book.bids,
        Side::Bid,
        rebuilt.next_sequence,
        book.next_sequence,
    );
    lemma_same_orders_same_side(
        rebuilt.asks,
        book.asks,
        Side::Ask,
        rebuilt.next_sequence,
        book.next_sequence,
    );
}

/// The store after the changes of submitting `orders` to `book` one after
/// the other, starting from `log`.
pub open spec fn log_after_all(log: LogState, book: BookState, orders: Seq<Order>) -> LogState
    decreases orders.len(),
{
    if orders.len() == 0 {
        log
    } else {
        log_after_all(log, book, orders.drop_last()).after_submission(
            submit_all(book, orders.drop_last()),
            orders.last(),
        )
    }
}

/// Each of `orders`, when its turn comes, carries an id that is not below
/// the book's order id counter, and finds room in both counters.
pub open spec fn in_turn(book: BookState, orders: Seq<Order>) -> bool
    decreases orders.len(),
{
    orders.len() == 0 || {
        let before = submit_all(book, orders.drop_last());
        &&& in_turn(book, orders.drop_last())
        &&& before.next_order_id <= orders.last().id < u64::MAX
        &&& before.next_sequence + orders.last().quantity < u64::MAX
    }
}

/// As long as the changes of every submission reach the store, the store
/// holds exactly the orders that rest in the book.
pub proof fn lemma_store_stays_in_step(orders: Seq<Order>)
    requires
        in_turn(BookState::empty(), orders),
    ensures
        submit_all(BookState::empty(), orders).wf(),
        submit_all(BookState::empty(), orders).sequenced(),
        numbered(submit_all(BookState::empty(), orders)),
        in_step(
            log_after_all(LogState::empty(), BookState::empty(), orders),
            submit_all(BookState::empty(), orders),
        ),
    decreases orders.len(),
{
    let start = BookState::empty();
    if orders.len() == 0 {
        assert(start.bids.dom() =~= Set::<u64>::empty());
        assert(start.asks.dom() =~= Set::<u64>::empty());
    } else {
        lemma_store_stays_in_step(orders.drop_last());
        let before = submit_all(start, orders.drop_last());
        let log = log_after_all(LogState::empty(), start, orders.drop_last());
        lemma_submit_keeps_wf(before, orders.last());
        lemma_submit_keeps_sequenced(before, orders.last());
        lemma_submission_keeps_in_step(log, before, orders.last());
    }
}

/// A book comes back from the store as it was. Submit any orders to an empty
/// book, each with an id not below the order id counter, and write the
/// changes of each to the store. Then a walk of the store's price-level index
/// in key order, put back into an empty book, is not refused, and gives both
/// sides as they were: the same prices, the same orders in the same places at
/// each price, and so the same best prices.
pub proof fn lemma_recovery_rebuilds_book(orders: Seq<Order>, entries: Seq<EntryView>)
    requires
        in_turn(BookState::empty(), orders),
        is_walk_of(entries, log_after_all(LogState::empty(), BookState::empty(), orders)),
    ensures
        replay(BookState::empty(), entries).is_ok(),
        replay(BookState::empty(), entries).unwrap().bids == submit_all(
            BookState::empty(),
            orders,
        ).bids,
        replay(BookState::empty(), entries).unwrap().asks == submit_all(
            BookState::empty(),
            orders,
        ).asks,
        best_price_of(replay(BookState::empty(), entries).unwrap().bids, Side::Bid)
            == best_price_of(submit_all(BookState::empty(), orders).bids, Side::Bid),
        best_price_of(replay(BookState::empty(), entries).unwrap().asks, Side::Ask)
            == best_price_of(submit_all(BookState::empty(), orders).asks, Side::Ask),
{
    lemma_store_stays_in_step(orders);
    lemma_walk_rebuilds_book(
        submit_all(BookState::empty(), orders),
        log_after_all(LogState::empty(), BookState::empty(), orders),
        entries,
    );
}

/// The book after `orders` were offered to `book` one after the other, each
/// taken or refused as the book then decides.
pub open spec fn offer_all(book: BookState, orders: Seq<Order>) -> BookState
    decreases orders.len(),
{
    if orders.len() == 0 {
        book
    } else {
        offer_outcome(offer_all(book, orders.drop_last()), orders.last())
    }
}

/// The store after `orders` were offered to `book` one after the other and
/// the changes of each taken one were written, starting from `log`.
pub open spec fn log_after_offers(log: LogState, book: BookState, orders: Seq<Order>) -> LogState
    decreases orders.len(),
{
    if orders.len() == 0 {
        log
    } else {
        let before = offer_all(book, orders.drop_last());
        let written = log_after_offers(log, book, orders.drop_last());
        if refusal_of(before, orders.last()).is_none() {
            written.after_submission(before, orders.last())
        } else {
            written
        }
    }
}

/// Whatever orders are offered, as long as the changes of every taken one
/// reach the store, the store holds exactly the orders that rest in the book.
pub proof fn lemma_store_stays_in_step_over_offers(orders: Seq<Order>)
    ensures
        offer_all(BookState::empty(), orders).wf(),
        offer_all(BookState::empty(), orders).sequenced(),
        numbered(offer_all(BookState::empty(), orders)),
        in_step(
            log_after_offers(LogState::empty(), BookState::empty(), orders),
            offer_all(BookState::empty(), orders),
        ),
    decreases orders.len(),
{
    let start = BookState::empty();
    if orders.len() == 0 {
        assert(start.bids.dom() =~= Set::<u64>::empty());
        assert(start.asks.dom() =~= Set::<u64>::empty());
    } else {
        lemma_store_stays_in_step_over_offers(orders.drop_last());
        let before = offer_all(start, orders.drop_last());
        let log = log_after_offers(LogState::empty(), start, orders.drop_last());
        if refusal_of(before, orders.last()).is_none() {
            lemma_submit_keeps_wf(before, orders.last());
            lemma_submit_keeps_sequenced(before, orders.last());
            lemma_submission_keeps_in_step(log, before, orders.last());
        }
    }
}

/// A book comes back from the store as it was, whatever was offered to it.
/// Offer any orders to an empty book, and write the changes of each taken one
/// to the store. Then a walk of the store's price-level index in key order,
/// put back into an empty book, is not refused, and gives both sides as they
/// were: the same prices, the same orders in the same places at each price,
/// and so the same best prices.
pub proof fn lemma_recovery_rebuilds_offered_book(orders: Seq<Order>, entries: Seq<EntryView>)
    requires
        is_walk_of(entries, log_after_offers(LogState::empty(), BookState::empty(), orders)),
    ensures
        replay(BookState::empty(), entries).is_ok(),
        replay(BookState::empty(), entries).unwrap().bids == offer_all(
            BookState::empty(),
            orders,
        ).bids,
        replay(BookState::empty(), entries).unwrap().asks == offer_all(
            BookState::empty(),
            orders,
        ).asks,
        best_price_of(replay(BookState::empty(), entries).unwrap().bids, Side::Bid)
            == best_price_of(offer_all(BookState::empty(), orders).bids, Side::Bid),
        best_price_of(replay(BookState::empty(), entries).unwrap().asks, Side::Ask)
            == best_price_of(offer_all(BookState::empty(), orders).asks, Side::Ask),
{
    lemma_store_stays_in_step_over_offers(orders);
    lemma_walk_rebuilds_book(
        offer_all(BookState::empty(), orders),
        log_after_offers(LogState::empty(), BookState::empty(), orders),
        entries,
    );
}

} // verus!
