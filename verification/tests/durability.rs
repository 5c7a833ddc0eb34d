use std::collections::BTreeMap;

use clob::db::{build_order_book, resting_op, trade_op, LogEntry, LogOp, TableInfo, TableSet, Tables};
use clob::error::StorageError;
use clob::keys::{decode_order_key, decode_price_level_key, order_key, price_level_key};
use clob::order::{Order, Side, Trade};
use clob::order_book::OrderBook;
use clob::price_level::BookSide;

fn order(id: u64, side: Side, price: u64, quantity: u64) -> Order {
    Order { id, user_id: 7, side, price, quantity, timestamp: 0, sequence: 0 }
}

fn resting(id: u64, side: Side, price: u64, quantity: u64, sequence: u64) -> Order {
    Order { id, user_id: 7, side, price, quantity, timestamp: 0, sequence }
}

/// A store in memory: both indices, sorted bytewise by key as a real store
/// sorts them.
struct Store {
    orders: BTreeMap<Vec<u8>, Order>,
    levels: BTreeMap<Vec<u8>, Vec<u8>>,
}

impl Store {
    fn new() -> Self {
        Store { orders: BTreeMap::new(), levels: BTreeMap::new() }
    }

    fn apply(&mut self, op: LogOp) {
        match op {
            LogOp::Put(o) => {
                self.orders.insert(order_key(o.id), o);
                self.levels.insert(price_level_key(o.price, o.sequence), order_key(o.id));
            }
            LogOp::Delete(o) => {
                self.orders.remove(&order_key(o.id));
                self.levels.remove(&price_level_key(o.price, o.sequence));
            }
        }
    }

    fn submit(&mut self, book: &mut OrderBook, order: Order) -> (u64, Vec<Trade>) {
        let arrival = book.next_sequence();
        let (left, trades) = book.submit_limit_order(order);
        for trade in &trades {
            let snapshot = self.orders.get(&order_key(trade.maker_order_id)).copied();
            let op = trade_op(snapshot, trade).expect("store in step with the book");
            self.apply(op);
        }
        if let Some(op) = resting_op(order, arrival, left) {
            self.apply(op);
        }
        (left, trades)
    }

    fn walk(&self) -> Vec<LogEntry> {
        self.levels
            .iter()
            .map(|(key, value)| LogEntry {
                key: key.clone(),
                value: value.clone(),
                snapshot: self.orders.get(value).copied(),
            })
            .collect()
    }
}

fn contents(side: &BookSide) -> Vec<(u64, Vec<Order>)> {
    side.levels.iter().map(|(p, l)| (*p, l.orders.iter().copied().collect())).collect()
}

#[test]
fn book_comes_back_from_the_store() {
    let mut book = OrderBook::new();
    let mut store = Store::new();
    let submissions = [
        (Side::Ask, 105, 5),
        (Side::Ask, 103, 5),
        (Side::Ask, 103, 2),
        (Side::Bid, 100, 4),
        (Side::Bid, 101, 1),
        (Side::Bid, 103, 6),
        (Side::Bid, 100, 9),
        (Side::Ask, 100, 7),
        (Side::Ask, 300, 1),
        (Side::Bid, 2, 1),
        (Side::Bid, 256, 1),
        (Side::Ask, 257, 3),
    ];
    let mut id = 1;
    for (side, price, quantity) in submissions {
        store.submit(&mut book, order(id, side, price, quantity));
        id += 1;
    }
    let mut rebuilt = OrderBook::new();
    assert_eq!(build_order_book(&mut rebuilt, &store.walk()), Ok(()));
    assert_eq!(contents(rebuilt.bids()), contents(book.bids()));
    assert_eq!(contents(rebuilt.asks()), contents(book.asks()));
    assert_eq!(rebuilt.bids().best_price(Side::Bid), book.bids().best_price(Side::Bid));
    assert_eq!(rebuilt.asks().best_price(Side::Ask), book.asks().best_price(Side::Ask));
    assert!(!contents(book.bids()).is_empty());
    assert!(!contents(book.asks()).is_empty());
    assert!(rebuilt.next_sequence() <= book.next_sequence());
    assert_eq!(rebuilt.next_order_id(), 13);
}

#[test]
fn filled_order_is_not_brought_back() {
    let mut book = OrderBook::new();
    let mut store = Store::new();
    store.submit(&mut book, order(1, Side::Ask, 100, 5));
    store.submit(&mut book, order(2, Side::Ask, 100, 5));
    store.submit(&mut book, order(3, Side::Bid, 100, 7));
    assert_eq!(store.orders.len(), 1);
    assert_eq!(store.levels.len(), 1);
    assert_eq!(store.orders.get(&order_key(2)).map(|o| o.quantity), Some(3));
    let mut rebuilt = OrderBook::new();
    assert_eq!(build_order_book(&mut rebuilt, &store.walk()), Ok(()));
    assert_eq!(contents(rebuilt.asks()), vec![(100, vec![resting(2, Side::Ask, 100, 3, 2)])]);
    assert!(rebuilt.bids().levels.is_empty());
}

#[test]
fn walk_passes_over_missing_and_filled_orders() {
    let live = resting(1, Side::Bid, 50, 3, 4);
    let filled = resting(2, Side::Bid, 50, 0, 5);
    let entries = vec![
        LogEntry { key: price_level_key(50, 2), value: order_key(9), snapshot: None },
        LogEntry { key: price_level_key(50, 4), value: order_key(1), snapshot: Some(live) },
        LogEntry { key: price_level_key(50, 5), value: order_key(2), snapshot: Some(filled) },
    ];
    let mut book = OrderBook::new();
    assert_eq!(build_order_book(&mut book, &entries), Ok(()));
    assert_eq!(contents(book.bids()), vec![(50, vec![live])]);
    assert_eq!(book.next_sequence(), 5);
    assert_eq!(book.next_order_id(), 2);
}

#[test]
fn walk_keeps_arrival_order_within_a_price() {
    let a = resting(9, Side::Ask, 70, 1, 3);
    let b = resting(4, Side::Ask, 70, 1, 8);
    let c = resting(6, Side::Ask, 70, 1, 300);
    let entries = vec![
        LogEntry { key: price_level_key(70, 3), value: order_key(9), snapshot: Some(a) },
        LogEntry { key: price_level_key(70, 8), value: order_key(4), snapshot: Some(b) },
        LogEntry { key: price_level_key(70, 300), value: order_key(6), snapshot: Some(c) },
    ];
    let mut book = OrderBook::new();
    assert_eq!(build_order_book(&mut book, &entries), Ok(()));
    assert_eq!(contents(book.asks()), vec![(70, vec![a, b, c])]);
    assert_eq!(book.next_sequence(), 301);
    assert_eq!(book.next_order_id(), 10);
}

#[test]
fn walk_is_refused_for_each_fault() {
    let o = resting(1, Side::Bid, 50, 3, 4);
    let good_key = price_level_key(50, 4);
    let good_value = order_key(1);
    let mut book = OrderBook::new();
    let short_key = LogEntry { key: vec![0; 15], value: good_value.clone(), snapshot: Some(o) };
    assert_eq!(build_order_book(&mut book, &vec![short_key]), Err(StorageError::MalformedKey));
    let short_value = LogEntry { key: good_key.clone(), value: vec![1], snapshot: Some(o) };
    assert_eq!(build_order_book(&mut book, &vec![short_value]), Err(StorageError::MalformedValue));
    let wrong_price =
        LogEntry { key: price_level_key(51, 4), value: good_value.clone(), snapshot: Some(o) };
    assert_eq!(build_order_book(&mut book, &vec![wrong_price]), Err(StorageError::IndexMismatch));
    let wrong_sequence =
        LogEntry { key: price_level_key(50, 5), value: good_value.clone(), snapshot: Some(o) };
    assert_eq!(
        build_order_book(&mut book, &vec![wrong_sequence]),
        Err(StorageError::IndexMismatch)
    );
    let wrong_id = LogEntry { key: good_key.clone(), value: order_key(2), snapshot: Some(o) };
    assert_eq!(build_order_book(&mut book, &vec![wrong_id]), Err(StorageError::IndexMismatch));
    assert!(book.bids().levels.is_empty());

    let ask = resting(2, Side::Ask, 50, 1, 9);
    let crossing = vec![
        LogEntry { key: good_key.clone(), value: good_value.clone(), snapshot: Some(o) },
        LogEntry { key: price_level_key(50, 9), value: order_key(2), snapshot: Some(ask) },
    ];
    let mut book = OrderBook::new();
    assert_eq!(build_order_book(&mut book, &crossing), Err(StorageError::CrossedBook));
    assert_eq!(contents(book.bids()), vec![(50, vec![o])]);
    assert!(book.asks().levels.is_empty());

    let earlier = resting(3, Side::Bid, 50, 1, 2);
    let unordered = vec![
        LogEntry { key: good_key.clone(), value: good_value.clone(), snapshot: Some(o) },
        LogEntry { key: price_level_key(50, 2), value: order_key(3), snapshot: Some(earlier) },
    ];
    let mut book = OrderBook::new();
    assert_eq!(build_order_book(&mut book, &unordered), Err(StorageError::OutOfOrder));

    let last = resting(4, Side::Bid, 50, 1, u64::MAX);
    let exhausted =
        vec![LogEntry { key: price_level_key(50, u64::MAX), value: order_key(4), snapshot: Some(last) }];
    let mut book = OrderBook::new();
    assert_eq!(build_order_book(&mut book, &exhausted), Err(StorageError::SequenceExhausted));
}

#[test]
fn restore_refuses_and_leaves_the_book() {
    let mut book = OrderBook::new();
    assert_eq!(book.restore(resting(1, Side::Ask, 100, 5, 10)), Ok(()));
    assert_eq!(book.restore(resting(2, Side::Bid, 100, 5, 11)), Err(StorageError::CrossedBook));
    assert_eq!(book.restore(resting(2, Side::Bid, 101, 5, 11)), Err(StorageError::CrossedBook));
    assert_eq!(book.restore(resting(3, Side::Ask, 100, 5, 10)), Err(StorageError::OutOfOrder));
    assert_eq!(book.restore(resting(3, Side::Ask, 100, 5, 9)), Err(StorageError::OutOfOrder));
    assert_eq!(
        book.restore(resting(3, Side::Ask, 100, 5, u64::MAX)),
        Err(StorageError::SequenceExhausted)
    );
    assert_eq!(book.restore(resting(3, Side::Ask, 100, 0, 3)), Ok(()));
    assert_eq!(contents(book.asks()), vec![(100, vec![resting(1, Side::Ask, 100, 5, 10)])]);
    assert_eq!(book.next_sequence(), 11);
    assert_eq!(book.restore(resting(4, Side::Bid, 99, 5, 2)), Ok(()));
    assert_eq!(book.next_sequence(), 11);
    assert_eq!(book.next_order_id(), 5);
    assert_eq!(contents(book.bids()), vec![(99, vec![resting(4, Side::Bid, 99, 5, 2)])]);
}

#[test]
fn trade_changes_the_stored_maker() {
    let maker = resting(1, Side::Ask, 100, 10, 1);
    let trade = Trade { maker_order_id: 1, taker_order_id: 2, price: 100, quantity: 4, sequence: 3 };
    assert_eq!(trade_op(Some(maker), &trade), Ok(LogOp::Put(resting(1, Side::Ask, 100, 6, 1))));
    let all = Trade { quantity: 10, ..trade };
    assert_eq!(trade_op(Some(maker), &all), Ok(LogOp::Delete(maker)));
    let too_much = Trade { quantity: 11, ..trade };
    assert_eq!(trade_op(Some(maker), &too_much), Err(StorageError::UnknownMaker));
    let other_maker = Trade { maker_order_id: 5, ..trade };
    assert_eq!(trade_op(Some(maker), &other_maker), Err(StorageError::UnknownMaker));
    let other_price = Trade { price: 99, ..trade };
    assert_eq!(trade_op(Some(maker), &other_price), Err(StorageError::UnknownMaker));
    assert_eq!(trade_op(None, &trade), Err(StorageError::UnknownMaker));
}

#[test]
fn resting_order_is_filed_with_its_arrival_number() {
    let submitted = order(8, Side::Bid, 55, 10);
    assert_eq!(resting_op(submitted, 12, 0), None);
    assert_eq!(resting_op(submitted, 12, 3), Some(LogOp::Put(resting(8, Side::Bid, 55, 3, 12))));
}

#[test]
fn order_key_is_little_endian() {
    assert_eq!(order_key(0), vec![0, 0, 0, 0, 0, 0, 0, 0]);
    assert_eq!(order_key(1), vec![1, 0, 0, 0, 0, 0, 0, 0]);
    assert_eq!(order_key(0x0102030405060708), vec![8, 7, 6, 5, 4, 3, 2, 1]);
    assert_eq!(order_key(u64::MAX), vec![255; 8]);
    assert_eq!(order_key(258), 258u64.to_le_bytes().to_vec());
}

#[test]
fn price_level_key_is_big_endian_price_then_sequence() {
    assert_eq!(
        price_level_key(1, 2),
        vec![0, 0, 0, 0, 0, 0, 0, 1, 0, 0, 0, 0, 0, 0, 0, 2]
    );
    assert_eq!(
        price_level_key(0x0102030405060708, 0x1112131415161718),
        vec![1, 2, 3, 4, 5, 6, 7, 8, 0x11, 0x12, 0x13, 0x14, 0x15, 0x16, 0x17, 0x18]
    );
    assert_eq!(price_level_key(u64::MAX, u64::MAX), vec![255; 16]);
}

#[test]
fn keys_decode_to_what_was_encoded() {
    for id in [0u64, 1, 255, 256, 65535, 1 << 40, u64::MAX] {
        assert_eq!(decode_order_key(&order_key(id)), Some(id));
    }
    for (price, sequence) in [(0u64, 0u64), (1, 2), (256, 255), (u64::MAX, 0), (7, u64::MAX)] {
        assert_eq!(
            decode_price_level_key(&price_level_key(price, sequence)),
            Some((price, sequence))
        );
    }
    assert_eq!(decode_order_key(&vec![0; 7]), None);
    assert_eq!(decode_order_key(&vec![0; 9]), None);
    assert_eq!(decode_order_key(&vec![]), None);
    assert_eq!(decode_price_level_key(&vec![0; 8]), None);
    assert_eq!(decode_price_level_key(&vec![0; 17]), None);
}

#[test]
fn price_level_keys_sort_by_price_then_arrival() {
    let pairs = [(1u64, 300u64), (1, 2), (255, 1), (256, 0), (2, 1), (1, 256), (65536, 7), (255, 70000)];
    let mut by_key: Vec<(Vec<u8>, (u64, u64))> =
        pairs.iter().map(|&(p, s)| (price_level_key(p, s), (p, s))).collect();
    by_key.sort();
    let mut by_number = pairs.to_vec();
    by_number.sort();
    let walked: Vec<(u64, u64)> = by_key.into_iter().map(|(_, pair)| pair).collect();
    assert_eq!(walked, by_number);
}

#[test]
fn tables_of_the_store() {
    let tables = Tables::tables();
    let names: Vec<&str> = tables.iter().map(|t| t.name).collect();
    assert_eq!(names, vec!["orders", "price_levels"]);
    assert_eq!(TableInfo::new("orders").name, "orders");
}
