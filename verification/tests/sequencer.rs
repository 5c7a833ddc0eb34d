use clob::error::SubmitError;
use clob::order::{Order, Side, Trade};
use clob::order_book::OrderBook;
use clob::sequencer::{Sequencer, WriteOutcome, WriteStep, WRITE_ATTEMPTS};

fn order(id: u64, side: Side, price: u64, quantity: u64) -> Order {
    Order { id, user_id: 1, side, price, quantity, timestamp: 0, sequence: 0 }
}

#[test]
fn sequencer_takes_orders_and_reports_the_arrival_number() {
    let mut sequencer = Sequencer::new(OrderBook::new());
    assert!(!sequencer.halted());
    let first = sequencer.submit(order(1, Side::Ask, 100, 10)).unwrap();
    assert_eq!((first.arrival, first.remaining, first.trades.len()), (1, 10, 0));
    let second = sequencer.submit(order(2, Side::Bid, 100, 4)).unwrap();
    assert_eq!(second.arrival, 2);
    assert_eq!(second.remaining, 0);
    assert_eq!(
        second.trades,
        vec![Trade { maker_order_id: 1, taker_order_id: 2, price: 100, quantity: 4, sequence: 3 }]
    );
    assert_eq!(sequencer.order_book().next_sequence(), 4);
    assert_eq!(sequencer.submit(order(2, Side::Bid, 100, 4)).err(), Some(SubmitError::StaleId));
    assert_eq!(sequencer.submit(order(3, Side::Bid, 100, 0)).err(), Some(SubmitError::NoQuantity));
    assert_eq!(sequencer.order_book().next_sequence(), 4);
}

#[test]
fn write_is_tried_again_only_while_the_store_is_busy() {
    assert_eq!(WRITE_ATTEMPTS, 3);
    let mut sequencer = Sequencer::new(OrderBook::new());
    assert_eq!(sequencer.after_write(WriteOutcome::Transient, 1), WriteStep::Retry);
    assert_eq!(sequencer.after_write(WriteOutcome::Transient, 2), WriteStep::Retry);
    assert!(!sequencer.halted());
    assert_eq!(sequencer.after_write(WriteOutcome::Committed, 3), WriteStep::Acknowledge);
    assert_eq!(sequencer.after_write(WriteOutcome::Committed, 1), WriteStep::Acknowledge);
    assert!(!sequencer.halted());
    assert!(sequencer.submit(order(1, Side::Ask, 100, 10)).is_ok());
}

#[test]
fn failed_write_halts_the_sequencer() {
    let mut sequencer = Sequencer::new(OrderBook::new());
    assert!(sequencer.submit(order(1, Side::Ask, 100, 10)).is_ok());
    assert_eq!(sequencer.after_write(WriteOutcome::Failed, 1), WriteStep::Halt);
    assert!(sequencer.halted());
    assert_eq!(sequencer.submit(order(2, Side::Bid, 100, 4)).err(), Some(SubmitError::Halted));
    assert_eq!(sequencer.order_book().next_sequence(), 2);
    assert_eq!(sequencer.after_write(WriteOutcome::Committed, 1), WriteStep::Acknowledge);
    assert!(sequencer.halted());

    let mut busy = Sequencer::new(OrderBook::new());
    assert_eq!(busy.after_write(WriteOutcome::Transient, 3), WriteStep::Halt);
    assert!(busy.halted());
    let mut later = Sequencer::new(OrderBook::new());
    assert_eq!(later.after_write(WriteOutcome::Transient, 200), WriteStep::Halt);
    assert!(later.halted());
}
