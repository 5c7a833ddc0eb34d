use clob::error::SubmitError;
use clob::order::{Order, Side, Trade};
use clob::order_book::OrderBook;
use clob::price_level::{BookSide, PriceLevel};

fn order(id: u64, side: Side, price: u64, quantity: u64) -> Order {
    Order { id, user_id: 1, side, price, quantity, timestamp: 0, sequence: 0 }
}

fn queue(side: &BookSide, price: u64) -> Vec<(u64, u64)> {
    match side.levels.get(&price) {
        Some(level) => level.orders.iter().map(|o| (o.id, o.quantity)).collect(),
        None => Vec::new(),
    }
}

fn total(side: &BookSide) -> u64 {
    side.levels.values().map(|l| l.orders.iter().map(|o| o.quantity).sum::<u64>()).sum()
}

#[test]
fn partial_fill_leaves_maker_resting() {
    let mut book = OrderBook::new();
    let (left, trades) = book.submit_limit_order(order(1, Side::Ask, 100, 10));
    assert_eq!(left, 10);
    assert!(trades.is_empty());
    let (left, trades) = book.submit_limit_order(order(2, Side::Bid, 100, 4));
    assert_eq!(left, 0);
    assert_eq!(
        trades,
        vec![Trade { maker_order_id: 1, taker_order_id: 2, price: 100, quantity: 4, sequence: 3 }]
    );
    assert_eq!(queue(book.asks(), 100), vec![(1, 6)]);
    assert_eq!(book.asks().best_price(Side::Ask), Some(100));
    assert!(book.bids().levels.is_empty());
}

#[test]
fn bid_rests_when_no_ask() {
    let mut book = OrderBook::new();
    let (left, trades) = book.submit_limit_order(order(3, Side::Bid, 99, 5));
    assert_eq!(left, 5);
    assert!(trades.is_empty());
    assert_eq!(queue(book.bids(), 99), vec![(3, 5)]);
    assert_eq!(book.bids().best_price(Side::Bid), Some(99));
    assert_eq!(book.asks().best_price(Side::Ask), None);
}

#[test]
fn older_order_at_a_price_fills_first() {
    let mut book = OrderBook::new();
    book.submit_limit_order(order(4, Side::Ask, 100, 5));
    book.submit_limit_order(order(5, Side::Ask, 100, 5));
    let resting: Vec<u64> =
        book.asks().levels.get(&100).unwrap().orders.iter().map(|o| o.sequence).collect();
    assert_eq!(resting, vec![1, 2]);
    let (left, trades) = book.submit_limit_order(order(6, Side::Bid, 100, 5));
    assert_eq!(left, 0);
    assert_eq!(trades.len(), 1);
    assert_eq!(trades[0].maker_order_id, 4);
    assert_eq!(trades[0].taker_order_id, 6);
    assert_eq!(trades[0].quantity, 5);
    assert_eq!(trades[0].price, 100);
    assert_eq!(queue(book.asks(), 100), vec![(5, 5)]);
}

#[test]
fn taker_for_both_fills_first_then_second() {
    let mut book = OrderBook::new();
    book.submit_limit_order(order(1, Side::Ask, 100, 3));
    book.submit_limit_order(order(2, Side::Ask, 100, 4));
    let (left, trades) = book.submit_limit_order(order(3, Side::Bid, 100, 7));
    assert_eq!(left, 0);
    let fills: Vec<(u64, u64)> = trades.iter().map(|t| (t.maker_order_id, t.quantity)).collect();
    assert_eq!(fills, vec![(1, 3), (2, 4)]);
    assert!(book.asks().levels.is_empty());
    assert!(book.bids().levels.is_empty());
}

#[test]
fn bid_takes_lowest_ask_first() {
    let mut book = OrderBook::new();
    book.submit_limit_order(order(1, Side::Ask, 102, 5));
    book.submit_limit_order(order(2, Side::Ask, 100, 5));
    book.submit_limit_order(order(3, Side::Ask, 101, 5));
    let (left, trades) = book.submit_limit_order(order(4, Side::Bid, 101, 12));
    assert_eq!(left, 2);
    let fills: Vec<(u64, u64, u64)> =
        trades.iter().map(|t| (t.maker_order_id, t.price, t.quantity)).collect();
    assert_eq!(fills, vec![(2, 100, 5), (3, 101, 5)]);
    assert_eq!(queue(book.bids(), 101), vec![(4, 2)]);
    assert_eq!(queue(book.asks(), 102), vec![(1, 5)]);
    assert_eq!(book.asks().best_price(Side::Ask), Some(102));
    assert_eq!(book.bids().best_price(Side::Bid), Some(101));
}

#[test]
fn ask_takes_highest_bid_first() {
    let mut book = OrderBook::new();
    book.submit_limit_order(order(1, Side::Bid, 98, 5));
    book.submit_limit_order(order(2, Side::Bid, 100, 5));
    book.submit_limit_order(order(3, Side::Bid, 99, 5));
    let (left, trades) = book.submit_limit_order(order(4, Side::Ask, 99, 7));
    assert_eq!(left, 0);
    let fills: Vec<(u64, u64, u64)> =
        trades.iter().map(|t| (t.maker_order_id, t.price, t.quantity)).collect();
    assert_eq!(fills, vec![(2, 100, 5), (3, 99, 2)]);
    assert_eq!(queue(book.bids(), 99), vec![(3, 3)]);
    assert_eq!(queue(book.bids(), 98), vec![(1, 5)]);
    assert_eq!(book.bids().levels.get(&100).is_none(), true);
}

#[test]
fn limit_is_not_traded_through() {
    let mut book = OrderBook::new();
    book.submit_limit_order(order(1, Side::Ask, 101, 5));
    let (left, trades) = book.submit_limit_order(order(2, Side::Bid, 100, 5));
    assert_eq!(left, 5);
    assert!(trades.is_empty());
    assert_eq!(queue(book.asks(), 101), vec![(1, 5)]);
    assert_eq!(queue(book.bids(), 100), vec![(2, 5)]);
}

#[test]
fn partly_filled_maker_keeps_its_place() {
    let mut book = OrderBook::new();
    book.submit_limit_order(order(1, Side::Ask, 100, 10));
    book.submit_limit_order(order(2, Side::Ask, 100, 10));
    book.submit_limit_order(order(3, Side::Bid, 100, 4));
    assert_eq!(queue(book.asks(), 100), vec![(1, 6), (2, 10)]);
    let (_, trades) = book.submit_limit_order(order(4, Side::Bid, 100, 8));
    let fills: Vec<(u64, u64)> = trades.iter().map(|t| (t.maker_order_id, t.quantity)).collect();
    assert_eq!(fills, vec![(1, 6), (2, 2)]);
    assert_eq!(queue(book.asks(), 100), vec![(2, 8)]);
}

#[test]
fn book_is_never_crossed() {
    let mut book = OrderBook::new();
    let submissions = [
        (Side::Bid, 100, 5),
        (Side::Ask, 105, 5),
        (Side::Bid, 106, 3),
        (Side::Ask, 99, 9),
        (Side::Bid, 99, 1),
        (Side::Ask, 101, 4),
        (Side::Bid, 103, 10),
        (Side::Ask, 90, 2),
    ];
    let mut id = 1;
    for (side, price, quantity) in submissions {
        book.submit_limit_order(order(id, side, price, quantity));
        id += 1;
        let bid = book.bids().best_price(Side::Bid);
        let ask = book.asks().best_price(Side::Ask);
        if let (Some(bid), Some(ask)) = (bid, ask) {
            assert!(bid < ask);
        }
    }
}

#[test]
fn filled_quantity_is_conserved() {
    let mut book = OrderBook::new();
    book.submit_limit_order(order(1, Side::Ask, 100, 5));
    book.submit_limit_order(order(2, Side::Ask, 101, 7));
    book.submit_limit_order(order(3, Side::Ask, 103, 9));
    let before = total(book.asks());
    let (left, trades) = book.submit_limit_order(order(4, Side::Bid, 102, 10));
    let after = total(book.asks());
    let traded: u64 = trades.iter().map(|t| t.quantity).sum();
    assert_eq!(traded, 10);
    assert_eq!(before - after, traded);
    assert_eq!(10 - left, traded);
}

#[test]
fn emptied_level_is_pruned() {
    let mut book = OrderBook::new();
    book.submit_limit_order(order(1, Side::Ask, 100, 5));
    book.submit_limit_order(order(2, Side::Ask, 101, 5));
    book.submit_limit_order(order(3, Side::Bid, 100, 5));
    assert!(!book.asks().levels.contains_key(&100));
    assert!(book.asks().levels.contains_key(&101));
    assert!(book.asks().levels.values().all(|l| !l.orders.is_empty()));
}

#[test]
fn trades_and_arrivals_share_one_numbering() {
    let mut book = OrderBook::new();
    assert_eq!(book.next_sequence(), 1);
    book.submit_limit_order(order(1, Side::Ask, 100, 1));
    book.submit_limit_order(order(2, Side::Ask, 100, 1));
    assert_eq!(book.next_sequence(), 3);
    let (left, trades) = book.submit_limit_order(order(3, Side::Bid, 100, 3));
    assert_eq!(left, 1);
    let numbers: Vec<u64> = trades.iter().map(|t| t.sequence).collect();
    assert_eq!(numbers, vec![4, 5]);
    assert_eq!(book.next_sequence(), 6);
    assert_eq!(book.bids().levels.get(&100).unwrap().orders[0].sequence, 3);
}

#[test]
fn order_id_counter_stays_above_ids_seen() {
    let mut book = OrderBook::new();
    assert_eq!(book.next_order_id(), 1);
    book.submit_limit_order(order(7, Side::Bid, 10, 1));
    assert_eq!(book.next_order_id(), 8);
    book.submit_limit_order(order(3, Side::Bid, 10, 1));
    assert_eq!(book.next_order_id(), 8);
    book.submit_limit_order(order(u64::MAX, Side::Bid, 10, 1));
    assert_eq!(book.next_order_id(), u64::MAX);
}

#[test]
fn order_without_quantity_changes_no_level() {
    let mut book = OrderBook::new();
    book.submit_limit_order(order(1, Side::Ask, 100, 5));
    let (left, trades) = book.submit_limit_order(order(2, Side::Bid, 100, 0));
    assert_eq!(left, 0);
    assert!(trades.is_empty());
    assert_eq!(queue(book.asks(), 100), vec![(1, 5)]);
    assert!(book.bids().levels.is_empty());
}

#[test]
fn room_for_sequence_numbers() {
    let book = OrderBook::new();
    assert!(book.has_room_for(&order(1, Side::Bid, 1, 10)));
    assert!(book.has_room_for(&order(1, Side::Bid, 1, u64::MAX - 2)));
    assert!(!book.has_room_for(&order(1, Side::Bid, 1, u64::MAX - 1)));
    assert!(!book.has_room_for(&order(1, Side::Bid, 1, u64::MAX)));
}

#[test]
fn level_is_first_in_first_out() {
    let mut level = PriceLevel::new(50);
    assert_eq!(level.price, 50);
    assert!(level.pop_order().is_none());
    level.add_orders(order(1, Side::Bid, 50, 1));
    level.add_orders(order(2, Side::Bid, 50, 2));
    assert_eq!(level.pop_order().map(|o| o.id), Some(1));
    assert_eq!(level.pop_order().map(|o| o.id), Some(2));
    assert!(level.pop_order().is_none());
}

#[test]
fn side_best_price_and_insert() {
    let mut side = BookSide::new();
    assert_eq!(side.best_price(Side::Bid), None);
    assert_eq!(side.best_price(Side::Ask), None);
    side.insert(order(1, Side::Bid, 10, 1));
    side.insert(order(2, Side::Bid, 30, 1));
    side.insert(order(3, Side::Bid, 20, 1));
    side.insert(order(4, Side::Bid, 30, 1));
    assert_eq!(side.best_price(Side::Bid), Some(30));
    assert_eq!(side.best_price(Side::Ask), Some(10));
    assert_eq!(queue(&side, 30), vec![(2, 1), (4, 1)]);
    assert_eq!(side.levels.get(&20).unwrap().price, 20);
    assert_eq!(side.levels.len(), 3);
}

#[test]
fn only_an_empty_level_is_removed() {
    let mut side = BookSide::new();
    side.insert(order(1, Side::Ask, 10, 1));
    side.remove_level_if_empty(10);
    assert_eq!(queue(&side, 10), vec![(1, 1)]);
    side.remove_level_if_empty(11);
    assert_eq!(side.levels.len(), 1);
    side.levels.get_mut(&10).unwrap().pop_order();
    assert!(side.levels.contains_key(&10));
    side.remove_level_if_empty(10);
    assert!(!side.levels.contains_key(&10));
    assert_eq!(side.best_price(Side::Ask), None);
}

#[test]
fn side_helpers() {
    assert_eq!(Side::Bid.opposite(), Side::Ask);
    assert_eq!(Side::Ask.opposite(), Side::Bid);
    assert!(Side::Bid.crosses(100, 100));
    assert!(Side::Bid.crosses(101, 100));
    assert!(!Side::Bid.crosses(99, 100));
    assert!(Side::Ask.crosses(100, 100));
    assert!(Side::Ask.crosses(99, 100));
    assert!(!Side::Ask.crosses(101, 100));
    let o = order(1, Side::Bid, 5, 9);
    assert_eq!(o.with_quantity(4).quantity, 4);
    assert_eq!(o.with_quantity(4).id, 1);
    assert_eq!(o.with_sequence(8).sequence, 8);
    assert_eq!(o.with_sequence(8).quantity, 9);
}

#[test]
fn stress_test() {
    let mut book = OrderBook::new();
    let mut total_requests: u64 = 0;
    for i in 0..20000u64 {
        let side = if total_requests & 1 != 0 { Side::Bid } else { Side::Ask };
        let (left, trades) = book.submit_limit_order(Order {
            id: i,
            user_id: 1,
            side,
            price: 100,
            quantity: 10,
            timestamp: 0,
            sequence: 0,
        });
        if side == Side::Bid {
            assert_eq!(left, 0);
            assert_eq!(trades.len(), 1);
        } else {
            assert_eq!(left, 10);
            assert!(trades.is_empty());
        }
        total_requests += 1;
    }
    assert_eq!(total_requests, 20000);
    assert!(book.asks().levels.is_empty());
    assert!(book.bids().levels.is_empty());
}

#[test]
fn matching_against_one_side() {
    let mut asks = BookSide::new();
    asks.insert(Order { sequence: 1, ..order(1, Side::Ask, 10, 2) });
    asks.insert(Order { sequence: 2, ..order(2, Side::Ask, 11, 2) });
    asks.insert(Order { sequence: 3, ..order(3, Side::Ask, 10, 2) });
    let taker = Order { sequence: 4, ..order(9, Side::Bid, 11, 5) };
    let (left, trades) = clob::matching::match_against(&mut asks, taker, 40);
    assert_eq!(left, 0);
    assert_eq!(
        trades,
        vec![
            Trade { maker_order_id: 1, taker_order_id: 9, price: 10, quantity: 2, sequence: 40 },
            Trade { maker_order_id: 3, taker_order_id: 9, price: 10, quantity: 2, sequence: 41 },
            Trade { maker_order_id: 2, taker_order_id: 9, price: 11, quantity: 1, sequence: 42 },
        ]
    );
    assert_eq!(queue(&asks, 11), vec![(2, 1)]);
    assert!(!asks.levels.contains_key(&10));
}

#[test]
fn worse_price_is_untouched_while_a_better_one_holds() {
    let mut book = OrderBook::new();
    book.submit_limit_order(order(1, Side::Bid, 50, 4));
    book.submit_limit_order(order(2, Side::Bid, 49, 4));
    book.submit_limit_order(order(3, Side::Bid, 50, 4));
    let (left, trades) = book.submit_limit_order(order(4, Side::Ask, 49, 6));
    assert_eq!(left, 0);
    let fills: Vec<(u64, u64, u64)> =
        trades.iter().map(|t| (t.maker_order_id, t.price, t.quantity)).collect();
    assert_eq!(fills, vec![(1, 50, 4), (3, 50, 2)]);
    assert_eq!(queue(book.bids(), 50), vec![(3, 2)]);
    assert_eq!(queue(book.bids(), 49), vec![(2, 4)]);
}

#[test]
fn order_that_cannot_be_taken_is_refused() {
    let mut book = OrderBook::new();
    assert_eq!(book.try_submit_limit_order(order(1, Side::Ask, 100, 5)), Ok((5, vec![])));
    assert_eq!(
        book.try_submit_limit_order(order(2, Side::Bid, 100, 0)),
        Err(SubmitError::NoQuantity)
    );
    assert_eq!(
        book.try_submit_limit_order(order(3, Side::Bid, 100, u64::MAX - 2)),
        Err(SubmitError::SequenceExhausted)
    );
    assert_eq!(queue(book.asks(), 100), vec![(1, 5)]);
    assert!(book.bids().levels.is_empty());
    assert_eq!(book.next_sequence(), 2);
    assert_eq!(
        book.try_submit_limit_order(order(4, Side::Bid, 100, 2)),
        Ok((
            0,
            vec![Trade { maker_order_id: 1, taker_order_id: 4, price: 100, quantity: 2, sequence: 3 }]
        ))
    );
}

#[test]
fn used_and_last_ids_are_refused() {
    let mut book = OrderBook::new();
    assert_eq!(book.try_submit_limit_order(order(0, Side::Bid, 10, 1)), Err(SubmitError::StaleId));
    assert_eq!(book.try_submit_limit_order(order(5, Side::Bid, 10, 1)), Ok((1, vec![])));
    assert_eq!(book.try_submit_limit_order(order(5, Side::Bid, 10, 1)), Err(SubmitError::StaleId));
    assert_eq!(book.try_submit_limit_order(order(3, Side::Ask, 11, 1)), Err(SubmitError::StaleId));
    assert_eq!(
        book.try_submit_limit_order(order(u64::MAX, Side::Ask, 11, 1)),
        Err(SubmitError::IdExhausted)
    );
    assert_eq!(
        book.try_submit_limit_order(order(u64::MAX, Side::Ask, 11, 0)),
        Err(SubmitError::NoQuantity)
    );
    assert_eq!(book.try_submit_limit_order(order(6, Side::Ask, 11, 1)), Ok((1, vec![])));
    assert_eq!(queue(book.bids(), 10), vec![(5, 1)]);
    assert_eq!(queue(book.asks(), 11), vec![(6, 1)]);
    assert_eq!(book.next_order_id(), 7);
    assert_eq!(book.next_sequence(), 3);
}
