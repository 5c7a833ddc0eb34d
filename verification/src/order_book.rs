//! The matching engine: both sides of the book, the counters, and what a
//! submission does to them.

use crate::error::{StorageError, SubmitError};
use crate::matching::{
    in_arrival_order, lemma_arrival_order_widens, lemma_match_outcome_exhausts,
    lemma_match_outcome_wf, lemma_trade_count, lemma_with_resting, lemma_with_resting_wf,
    match_against, match_outcome,
    side_wf, uncrossed,
};
use crate::order::{Order, OrderId, Side, Trade};
use crate::price_level::{
    best_price_of, lemma_best_price_some, queue_at, with_resting, BookSide,
};
use crate::priority::{keeps_priority, lemma_match_keeps_priority, lemma_untouched_keeps_priority};
use crate::quantity::{
    lemma_match_conserves_quantity, lemma_with_resting_quantity, side_quantity, traded_quantity,
};
use vstd::prelude::*;

verus! {

/// The state of the whole book: both sides, and the two counters.
pub struct BookState {
    pub bids: Map<u64, Seq<Order>>,
    pub asks: Map<u64, Seq<Order>>,
    pub next_order_id: OrderId,
    pub next_sequence: u64,
}

/// The order id counter after an order with `id` was seen: it stays above
/// every id seen so far, as far as `u64` reaches.
pub open spec fn order_id_after(next_order_id: OrderId, id: OrderId) -> OrderId {
    if id < next_order_id {
        next_order_id
    } else if id < u64::MAX {
        (id + 1) as u64
    } else {
        u64::MAX
    }
}

impl BookState {
    /// The book before any order: no level on either side, both counters at 1.
    pub open spec fn empty() -> BookState {
        BookState { bids: Map::empty(), asks: Map::empty(), next_order_id: 1, next_sequence: 1 }
    }

    pub open spec fn side(self, side: Side) -> Map<u64, Seq<Order>> {
        match side {
            Side::Bid => self.bids,
            Side::Ask => self.asks,
        }
    }

    /// Both sides are well formed and the book is not crossed.
    pub open spec fn wf(self) -> bool {
        &&& side_wf(self.bids, Side::Bid)
        &&& side_wf(self.asks, Side::Ask)
        &&& uncrossed(self.bids, self.asks)
    }

    /// One side is empty, or the best bid is below the best ask.
    pub open spec fn best_bid_below_best_ask(self) -> bool {
        ||| self.bids.dom().is_empty()
        ||| self.asks.dom().is_empty()
        ||| (best_price_of(self.bids, Side::Bid).is_some() && best_price_of(
            self.asks,
            Side::Ask,
        ).is_some() && best_price_of(self.bids, Side::Bid).unwrap() < best_price_of(
            self.asks,
            Side::Ask,
        ).unwrap())
    }

    /// Both sides are in arrival order, below the sequence counter.
    pub open spec fn sequenced(self) -> bool {
        &&& in_arrival_order(self.bids, self.next_sequence)
        &&& in_arrival_order(self.asks, self.next_sequence)
    }
}

/// What a submission leaves: the book, the unfilled quantity of the
/// submitted order, and the trades it made.
pub struct SubmitOutcome {
    pub book: BookState,
    pub remaining: u64,
    pub trades: Seq<Trade>,
}

/// Submitting `order` to `book`. The order takes the next arrival number and
/// is matched against the opposing side, its trades taking the numbers that
/// follow; what is left of it, if anything, rests last at its price on its own
/// side.
pub open spec fn submit_outcome(book: BookState, order: Order) -> SubmitOutcome {
    let taker = order.with_sequence(book.next_sequence);
    let matched = match_outcome(book.side(order.side.opposite()), taker, book.next_sequence + 1);
    let own = book.side(order.side);
    let own_after = if matched.remaining > 0 {
        with_resting(own, taker.with_quantity(matched.remaining))
    } else {
        own
    };
    SubmitOutcome {
        book: BookState {
            bids: match order.side {
                Side::Bid => own_after,
                Side::Ask => matched.levels,
            },
            asks: match order.side {
                Side::Bid => matched.levels,
                Side::Ask => own_after,
            },
            next_order_id: order_id_after(book.next_order_id, order.id),
            next_sequence: (book.next_sequence + 1 + matched.trades.len()) as u64,
        },
        remaining: matched.remaining,
        trades: matched.trades,
    }
}

/// The order book of one instrument.
#[derive(Debug, Clone)]
pub struct OrderBook {
    bids: BookSide,
    asks: BookSide,
    next_order_id: OrderId,
    next_sequence: u64,
}

impl View for OrderBook {
    type V = BookState;

    closed spec fn view(&self) -> BookState {
        BookState {
            bids: self.bids@,
            asks: self.asks@,
            next_order_id: self.next_order_id,
            next_sequence: self.next_sequence,
        }
    }
}

impl OrderBook {
    /// Every level of both sides is filed under its own price.
    pub closed spec fn well_keyed(&self) -> bool {
        self.bids.well_keyed() && self.asks.well_keyed()
    }

    /// What every book made by `new` and changed by the methods below
    /// satisfies.
    pub open spec fn wf(&self) -> bool {
        &&& self@.wf()
        &&& self@.sequenced()
        &&& self.well_keyed()
    }

    /// A book with nothing resting.
    pub fn new() -> (book: Self)
        ensures
            book@ == BookState::empty(),
            book.wf(),
    {
        let book = Self {
            bids: BookSide::new(),
            asks: BookSide::new(),
            next_order_id: 1,
            next_sequence: 1,
        };
        book
    }

    /// The bid side.
    pub fn bids(&self) -> (side: &BookSide)
        ensures
            side@ == self@.bids,
            self.well_keyed() ==> side.well_keyed(),
    {
        &self.bids
    }

    /// The ask side.
    pub fn asks(&self) -> (side: &BookSide)
        ensures
            side@ == self@.asks,
            self.well_keyed() ==> side.well_keyed(),
    {
        &self.asks
    }

    /// An id above every order id the book has seen, as far as `u64` reaches.
    pub fn next_order_id(&self) -> (id: OrderId)
        ensures
            id == self@.next_order_id,
    {
        self.next_order_id
    }

    /// The arrival number that the next submitted order will get.
    pub fn next_sequence(&self) -> (sequence: u64)
        ensures
            sequence == self@.next_sequence,
    {
        self.next_sequence
    }

    /// Whether the sequence counter has room for `order` and every trade it
    /// can make.
    pub fn has_room_for(&self, order: &Order) -> (room: bool)
        ensures
            room == (self@.next_sequence + order.quantity < u64::MAX),
    {
        order.quantity < u64::MAX - self.next_sequence
    }

    /// Submits a limit order. It trades against the opposing side by price,
    /// then by arrival, while its limit reaches the best opposing price; what
    /// is left rests on its own side, last at its price. Returns the quantity
    /// left unfilled and the trades made. An order without quantity trades
    /// nothing and does not rest. The sequence counter must have room for the
    /// order and its trades: see `has_room_for`.
    pub fn submit_limit_order(&mut self, order: Order) -> (result: (u64, Vec<Trade>))
        requires
            old(self).wf(),
            old(self)@.next_sequence + order.quantity < u64::MAX,
        ensures
            final(self)@ == submit_outcome(old(self)@, order).book,
            result.0 == submit_outcome(old(self)@, order).remaining,
            result.1@ == submit_outcome(old(self)@, order).trades,
            final(self).wf(),
            final(self)@.best_bid_below_best_ask(),
            keeps_priority(
                old(self)@.side(order.side.opposite()),
                final(self)@.side(order.side.opposite()),
                order.side.opposite(),
            ),
            result.0 <= order.quantity,
            side_quantity(old(self)@.side(order.side.opposite())) - side_quantity(
                final(self)@.side(order.side.opposite()),
            ) == order.quantity - result.0,
            traded_quantity(result.1@) == order.quantity - result.0,
            side_quantity(final(self)@.side(order.side)) == side_quantity(
                old(self)@.side(order.side),
            ) + result.0,
    {
        let arrival = self.next_sequence;
        let taker = order.with_sequence(arrival);
        let (remaining, trades) = match order.side {
            Side::Bid => match_against(&mut self.asks, taker, arrival + 1),
            Side::Ask => match_against(&mut self.bids, taker, arrival + 1),
        };
        if remaining > 0 {
            let resting = taker.with_quantity(remaining);
            match order.side {
                Side::Bid => self.bids.insert(resting),
                Side::Ask => self.asks.insert(resting),
            }
        }
        self.next_sequence = arrival + 1 + trades.len() as u64;
        if order.id >= self.next_order_id {
            self.next_order_id = if order.id < u64::MAX {
                order.id + 1
            } else {
                u64::MAX
            };
        }
        proof {
            lemma_submit_keeps_wf(old(self)@, order);
            lemma_submit_keeps_sequenced(old(self)@, order);
            lemma_wf_book_is_not_crossed(self@);
            lemma_submit_keeps_priority(old(self)@, order);
            lemma_submit_conserves_quantity(old(self)@, order);
        }
        (remaining, trades)
    }

    /// Submits a limit order if it can be taken. An order without quantity,
    /// one whose id is below the order id counter or the last id there is, and
    /// one for which the sequence counter has no room is refused, and the book
    /// stays as it was; any other order is submitted as by
    /// `submit_limit_order`.
    pub fn try_submit_limit_order(&mut self, order: Order) -> (result: Result<
        (u64, Vec<Trade>),
        SubmitError,
    >)
        requires
            old(self).wf(),
        ensures
            final(self).wf(),
            final(self)@ == offer_outcome(old(self)@, order),
            match result {
                Ok(taken) => {
                    &&& refusal_of(old(self)@, order).is_none()
                    &&& taken.0 == submit_outcome(old(self)@, order).remaining
                    &&& taken.1@ == submit_outcome(old(self)@, order).trades
                    &&& taken.0 <= order.quantity
                    &&& side_quantity(old(self)@.side(order.side.opposite())) - side_quantity(
                        final(self)@.side(order.side.opposite()),
                    ) == order.quantity - taken.0
                    &&& traded_quantity(taken.1@) == order.quantity - taken.0
                },
                Err(error) => refusal_of(old(self)@, order) == Some(error),
            },
            final(self)@.best_bid_below_best_ask(),
            keeps_priority(
                old(self)@.side(order.side.opposite()),
                final(self)@.side(order.side.opposite()),
                order.side.opposite(),
            ),
    {
        proof {
            lemma_wf_book_is_not_crossed(self@);
            lemma_untouched_keeps_priority(
                self@.side(order.side.opposite()),
                order.side.opposite(),
            );
        }
        if order.quantity == 0 {
            return Err(SubmitError::NoQuantity);
        }
        if order.id < self.next_order_id {
            return Err(SubmitError::StaleId);
        }
        if order.id == u64::MAX {
            return Err(SubmitError::IdExhausted);
        }
        if !self.has_room_for(&order) {
            return Err(SubmitError::SequenceExhausted);
        }
        Ok(self.submit_limit_order(order))
    }

    /// Puts back an order as it rested before: last at its price on its own
    /// side, under the arrival number it carries, with both counters moved
    /// above it. An order with nothing left to fill is left out. An order that
    /// would cross the book, that did not arrive after the last order at its
    /// price, or that carries the last arrival number is refused, and the book
    /// stays as it was.
    pub fn restore(&mut self, order: Order) -> (result: Result<(), StorageError>)
        requires
            old(self).wf(),
        ensures
            final(self).wf(),
            match result {
                Ok(()) => restore_outcome(old(self)@, order) == Ok::<BookState, StorageError>(
                    final(self)@,
                ),
                Err(error) => restore_outcome(old(self)@, order) == Err::<
                    BookState,
                    StorageError,
                >(error) && final(self)@ == old(self)@,
            },
    {
        if order.quantity == 0 {
            return Ok(());
        }
        if order.sequence == u64::MAX {
            return Err(StorageError::SequenceExhausted);
        }
        let opposing_best = match order.side {
            Side::Bid => self.asks.best_price(Side::Ask),
            Side::Ask => self.bids.best_price(Side::Bid),
        };
        let crossing = match opposing_best {
            Some(best) => order.side.crosses(order.price, best),
            None => false,
        };
        proof {
            let opposing = self@.side(order.side.opposite());
            lemma_best_price_some(opposing, order.side.opposite());
        }
        if crossing {
            return Err(StorageError::CrossedBook);
        }
        let own = match order.side {
            Side::Bid => &self.bids,
            Side::Ask => &self.asks,
        };
        let late = match own.levels.get(&order.price) {
            Some(level) => {
                let queued = level.orders.len();
                queued > 0 && level.orders[queued - 1].sequence >= order.sequence
            },
            None => false,
        };
        if late {
            return Err(StorageError::OutOfOrder);
        }
        match order.side {
            Side::Bid => self.bids.insert(order),
            Side::Ask => self.asks.insert(order),
        }
        if order.sequence >= self.next_sequence {
            self.next_sequence = order.sequence + 1;
        }
        if order.id >= self.next_order_id {
            self.next_order_id = if order.id < u64::MAX {
                order.id + 1
            } else {
                u64::MAX
            };
        }
        proof {
            lemma_restore_keeps_wf(old(self)@, order);
        }
        Ok(())
    }
}

/// Why `book` does not take `order`, if it does not: the order has no
/// quantity, its id was used up or is the last there is, or the sequence
/// counter has no room for it and its trades.
pub open spec fn refusal_of(book: BookState, order: Order) -> Option<SubmitError> {
    if order.quantity == 0 {
        Some(SubmitError::NoQuantity)
    } else if order.id < book.next_order_id {
        Some(SubmitError::StaleId)
    } else if order.id == u64::MAX {
        Some(SubmitError::IdExhausted)
    } else if book.next_sequence + order.quantity >= u64::MAX {
        Some(SubmitError::SequenceExhausted)
    } else {
        None
    }
}

/// The book after `order` was offered to `book`: submitted if it is taken,
/// else the book as it was.
pub open spec fn offer_outcome(book: BookState, order: Order) -> BookState {
    if refusal_of(book, order).is_none() {
        submit_outcome(book, order).book
    } else {
        book
    }
}

/// Whether an order of `side` at `price` would rest at or beyond some price
/// of the `opposing` levels.
pub open spec fn would_cross(opposing: Map<u64, Seq<Order>>, side: Side, price: u64) -> bool {
    exists|resting: u64| #[trigger] opposing.contains_key(resting) && side.crosses(price, resting)
}

/// The sequence counter after an order with arrival number `sequence` was
/// put back: it stays above every arrival number in the book.
pub open spec fn sequence_after(next_sequence: u64, sequence: u64) -> u64 {
    if sequence < next_sequence {
        next_sequence
    } else {
        (sequence + 1) as u64
    }
}

/// Putting `order` back into `book` as it rested before: last at its price on
/// its own side, under the arrival number it carries. An order with nothing
/// left to fill is left out. The order is refused where it would break what
/// every book keeps.
pub open spec fn restore_outcome(book: BookState, order: Order) -> Result<BookState, StorageError> {
    let own = book.side(order.side);
    if order.quantity == 0 {
        Ok(book)
    } else if order.sequence == u64::MAX {
        Err(StorageError::SequenceExhausted)
    } else if would_cross(book.side(order.side.opposite()), order.side, order.price) {
        Err(StorageError::CrossedBook)
    } else if own.contains_key(order.price) && own[order.price].len() > 0
        && own[order.price].last().sequence >= order.sequence {
        Err(StorageError::OutOfOrder)
    } else {
        Ok(
            BookState {
                bids: match order.side {
                    Side::Bid => with_resting(own, order),
                    Side::Ask => book.bids,
                },
                asks: match order.side {
                    Side::Bid => book.asks,
                    Side::Ask => with_resting(own, order),
                },
                next_order_id: order_id_after(book.next_order_id, order.id),
                next_sequence: sequence_after(book.next_sequence, order.sequence),
            },
        )
    }
}

/// An order put back leaves the book well formed and in arrival order.
pub proof fn lemma_restore_keeps_wf(book: BookState, order: Order)
    requires
        book.wf(),
        book.sequenced(),
    ensures
        restore_outcome(book, order) matches Ok(after) ==> after.wf() && after.sequenced(),
{
    if let Ok(after) = restore_outcome(book, order) {
        if order.quantity > 0 {
            let own = book.side(order.side);
            let other = book.side(order.side.opposite());
            lemma_arrival_order_widens(own, book.next_sequence, after.next_sequence);
            lemma_arrival_order_widens(other, book.next_sequence, after.next_sequence);
            assert forall|i: int| 0 <= i < queue_at(own, order.price).len() implies (
            #[trigger] queue_at(own, order.price)[i]).sequence < order.sequence by {}
            lemma_with_resting(own, order, after.next_sequence);
            assert forall|bid: u64, ask: u64| #[trigger]
                after.bids.contains_key(bid) && #[trigger] after.asks.contains_key(
                    ask,
                ) implies bid < ask by {}
        }
    }
}

/// A submission to a well-formed book leaves a well-formed book: every level
/// occupied, every resting order with quantity left, and no bid at or above
/// any ask.
pub proof fn lemma_submit_keeps_wf(book: BookState, order: Order)
    requires
        book.wf(),
    ensures
        submit_outcome(book, order).book.wf(),
{
    let taker = order.with_sequence(book.next_sequence);
    let opposing = book.side(order.side.opposite());
    let matched = match_outcome(opposing, taker, book.next_sequence + 1);
    let after = submit_outcome(book, order).book;
    lemma_match_outcome_wf(opposing, taker, book.next_sequence + 1, 0);
    lemma_match_outcome_exhausts(opposing, taker, book.next_sequence + 1);
    if matched.remaining > 0 {
        lemma_with_resting_wf(book.side(order.side), taker.with_quantity(matched.remaining));
    }
    assert forall|bid: u64, ask: u64| #[trigger]
        after.bids.contains_key(bid) && #[trigger] after.asks.contains_key(ask) implies bid
        < ask by {}
}

/// A submission keeps both sides in arrival order, as long as the sequence
/// counter has room for the order and its trades.
pub proof fn lemma_submit_keeps_sequenced(book: BookState, order: Order)
    requires
        book.wf(),
        book.sequenced(),
        book.next_sequence + order.quantity < u64::MAX,
    ensures
        submit_outcome(book, order).book.sequenced(),
        submit_outcome(book, order).book.next_sequence == book.next_sequence + 1 + submit_outcome(
            book,
            order,
        ).trades.len(),
{
    let taker = order.with_sequence(book.next_sequence);
    let opposing = book.side(order.side.opposite());
    let own = book.side(order.side);
    let matched = match_outcome(opposing, taker, book.next_sequence + 1);
    let after = submit_outcome(book, order).book;
    lemma_trade_count(opposing, taker, book.next_sequence + 1);
    lemma_match_outcome_wf(opposing, taker, book.next_sequence + 1, book.next_sequence);
    lemma_arrival_order_widens(matched.levels, book.next_sequence, after.next_sequence);
    lemma_arrival_order_widens(own, book.next_sequence, after.next_sequence);
    if matched.remaining > 0 {
        lemma_with_resting(own, taker.with_quantity(matched.remaining), after.next_sequence);
    }
}

/// The book after `orders` were submitted to `book` one after the other.
pub open spec fn submit_all(book: BookState, orders: Seq<Order>) -> BookState
    decreases orders.len(),
{
    if orders.len() == 0 {
        book
    } else {
        submit_outcome(submit_all(book, orders.drop_last()), orders.last()).book
    }
}

/// In a well-formed book one side is empty, or the best bid is below the best
/// ask.
pub proof fn lemma_wf_book_is_not_crossed(book: BookState)
    requires
        book.wf(),
    ensures
        book.best_bid_below_best_ask(),
{
    lemma_best_price_some(book.bids, Side::Bid);
    lemma_best_price_some(book.asks, Side::Ask);
    if !book.bids.dom().is_empty() && !book.asks.dom().is_empty() {
        let bid = choose|price: u64| book.bids.dom().contains(price);
        let ask = choose|price: u64| book.asks.dom().contains(price);
        assert(book.bids.contains_key(bid) && book.asks.contains_key(ask));
    }
}

/// No sequence of submissions crosses the book: afterwards one side is empty,
/// or the best bid is below the best ask.
pub proof fn lemma_book_never_crossed(book: BookState, orders: Seq<Order>)
    requires
        book.wf(),
    ensures
        submit_all(book, orders).wf(),
        submit_all(book, orders).best_bid_below_best_ask(),
    decreases orders.len(),
{
    if orders.len() > 0 {
        lemma_book_never_crossed(book, orders.drop_last());
        lemma_submit_keeps_wf(submit_all(book, orders.drop_last()), orders.last());
    }
    lemma_wf_book_is_not_crossed(submit_all(book, orders));
}

/// A submission keeps price-time priority on the opposing side.
pub proof fn lemma_submit_keeps_priority(book: BookState, order: Order)
    requires
        book.wf(),
    ensures
        keeps_priority(
            book.side(order.side.opposite()),
            submit_outcome(book, order).book.side(order.side.opposite()),
            order.side.opposite(),
        ),
{
    lemma_match_keeps_priority(
        book.side(order.side.opposite()),
        order.with_sequence(book.next_sequence),
        book.next_sequence + 1,
    );
}

/// After any sequence of submissions no price is left with an empty queue,
/// and no resting order with nothing to fill: an order leaves the book the
/// moment it is filled, and its level leaves with its last order.
pub proof fn lemma_no_empty_level(book: BookState, orders: Seq<Order>, side: Side, price: u64)
    requires
        book.wf(),
        submit_all(book, orders).side(side).contains_key(price),
    ensures
        submit_all(book, orders).side(side)[price].len() > 0,
        forall|i: int|
            0 <= i < submit_all(book, orders).side(side)[price].len() ==> (
            #[trigger] submit_all(book, orders).side(side)[price][i]).quantity > 0,
{
    lemma_book_never_crossed(book, orders);
}

/// A submission conserves quantity: what leaves the opposing side, what the
/// submitted order gets filled, and what the trades add up to are the same
/// amount; and the order's own side gains exactly what is left of it.
pub proof fn lemma_submit_conserves_quantity(book: BookState, order: Order)
    requires
        book.wf(),
    ensures
        ({
            let after = submit_outcome(book, order);
            let filled = order.quantity - after.remaining;
            &&& 0 <= filled
            &&& side_quantity(book.side(order.side.opposite())) - side_quantity(
                after.book.side(order.side.opposite()),
            ) == filled
            &&& traded_quantity(after.trades) == filled
            &&& side_quantity(after.book.side(order.side)) == side_quantity(book.side(order.side))
                + after.remaining
        }),
{
    let taker = order.with_sequence(book.next_sequence);
    let opposing = book.side(order.side.opposite());
    let matched = match_outcome(opposing, taker, book.next_sequence + 1);
    lemma_match_conserves_quantity(opposing, taker, book.next_sequence + 1);
    lemma_match_outcome_wf(opposing, taker, book.next_sequence + 1, 0);
    if matched.remaining > 0 {
        lemma_with_resting_quantity(book.side(order.side), taker.with_quantity(matched.remaining));
    }
}

} // verus!
