//! What the book keeps in a durable store, and how it is read back. The
//! store holds two indices: orders by id, and order ids by price and arrival
//! number. This module names the tables, says which entries a submission
//! changes, and rebuilds a book from a walk of the second index.

use crate::error::StorageError;
use crate::keys::{decode_order_key, decode_price_level_key, order_key_of, price_level_key_of};
use crate::order::{Order, Trade};
use crate::order_book::{restore_outcome, BookState, OrderBook};
use vstd::prelude::*;

verus! {

/// One table of the store.
#[derive(Debug, Clone, Copy)]
pub struct TableInfo {
    pub name: &'static str,
}

impl TableInfo {
    pub fn new(name: &'static str) -> (table: Self)
        ensures
            table.name == name,
    {
        Self { name }
    }
}

/// The tables that a store is opened with.
pub trait TableSet {
    fn tables() -> Vec<TableInfo>;
}

/// The tables of the order book.
#[derive(Debug, Clone, Copy)]
pub struct Tables;

impl TableSet for Tables {
    /// The index of orders by id, then the index of order ids by price and
    /// arrival number.
    fn tables() -> (tables: Vec<TableInfo>)
        ensures
            tables@.len() == 2,
            tables@[0].name@ == "orders"@,
            tables@[1].name@ == "price_levels"@,
    {
        let mut tables: Vec<TableInfo> = Vec::new();
        tables.push(TableInfo::new("orders"));
        tables.push(TableInfo::new("price_levels"));
        tables
    }
}

/// One change to the store. Both indices change together.
#[derive(Debug, Clone, Copy, PartialEq, Eq, Structural)]
pub enum LogOp {
    /// File the order under its id, and its id under its price and arrival
    /// number, in place of what was there.
    Put(Order),
    /// Take the order out of both indices.
    Delete(Order),
}

/// The change that `trade` makes to the stored order of its maker, of which
/// the store holds `snapshot`: the order with the traded quantity taken off,
/// or no order once nothing is left.
pub open spec fn trade_op_of(snapshot: Option<Order>, trade: Trade) -> Result<LogOp, StorageError> {
    match snapshot {
        Some(maker) => if maker.id != trade.maker_order_id || maker.price != trade.price
            || maker.quantity < trade.quantity {
            Err(StorageError::UnknownMaker)
        } else if maker.quantity == trade.quantity {
            Ok(LogOp::Delete(maker))
        } else {
            Ok(LogOp::Put(maker.with_quantity((maker.quantity - trade.quantity) as u64)))
        },
        None => Err(StorageError::UnknownMaker),
    }
}

/// The change that `trade` makes to the stored order of its maker.
/// `snapshot` is what the store holds under the maker's id.
pub fn trade_op(snapshot: Option<Order>, trade: &Trade) -> (result: Result<LogOp, StorageError>)
    ensures
        result == trade_op_of(snapshot, *trade),
{
    match snapshot {
        Some(maker) => {
            if maker.id != trade.maker_order_id || maker.price != trade.price || maker.quantity
                < trade.quantity {
                Err(StorageError::UnknownMaker)
            } else if maker.quantity == trade.quantity {
                Ok(LogOp::Delete(maker))
            } else {
                Ok(LogOp::Put(maker.with_quantity(maker.quantity - trade.quantity)))
            }
        },
        None => Err(StorageError::UnknownMaker),
    }
}

/// The change that a submitted order makes to the store for itself: filed
/// with its arrival number and what is left of it, or none when it was
/// filled.
pub open spec fn resting_op_of(order: Order, arrival: u64, remaining: u64) -> Option<LogOp> {
    if remaining > 0 {
        Some(LogOp::Put(order.with_sequence(arrival).with_quantity(remaining)))
    } else {
        None
    }
}

/// The change that a submitted order makes to the store for itself.
/// `arrival` is the arrival number the book gave it, `remaining` what was
/// left unfilled.
pub fn resting_op(order: Order, arrival: u64, remaining: u64) -> (op: Option<LogOp>)
    ensures
        op == resting_op_of(order, arrival, remaining),
{
    if remaining > 0 {
        Some(LogOp::Put(order.with_sequence(arrival).with_quantity(remaining)))
    } else {
        None
    }
}

/// One entry of the price-level index as a walk of the store yields it: its
/// key, its value, and the order that the index of orders holds under that
/// value.
#[derive(Debug, Clone)]
pub struct LogEntry {
    pub key: Vec<u8>,
    pub value: Vec<u8>,
    pub snapshot: Option<Order>,
}

/// A `LogEntry` as plain values.
pub struct EntryView {
    pub key: Seq<u8>,
    pub value: Seq<u8>,
    pub snapshot: Option<Order>,
}

impl View for LogEntry {
    type V = EntryView;

    open spec fn view(&self) -> EntryView {
        EntryView { key: self.key@, value: self.value@, snapshot: self.snapshot }
    }
}

/// The entries as plain values, in the order of the walk.
pub open spec fn entry_views(entries: Seq<LogEntry>) -> Seq<EntryView> {
    Seq::new(entries.len(), |i: int| entries[i]@)
}

/// The order that `entry` asks to put back: none where the store holds no
/// order under the entry's value, or one with nothing left to fill. An entry
/// of the wrong shape, or one that files an order under a key or a value that
/// is not its own, is refused.
pub open spec fn entry_order(entry: EntryView) -> Result<Option<Order>, StorageError> {
    if entry.key.len() != 16 {
        Err(StorageError::MalformedKey)
    } else if entry.value.len() != 8 {
        Err(StorageError::MalformedValue)
    } else {
        match entry.snapshot {
            Some(order) => if order.quantity == 0 {
                Ok(None)
            } else if entry.key != price_level_key_of(order.price, order.sequence) || entry.value
                != order_key_of(order.id) {
                Err(StorageError::IndexMismatch)
            } else {
                Ok(Some(order))
            },
            None => Ok(None),
        }
    }
}

impl LogEntry {
    /// The order that this entry asks to put back, if any.
    pub fn order(&self) -> (result: Result<Option<Order>, StorageError>)
        ensures
            result == entry_order(self@),
    {
        let filed_under = match decode_price_level_key(&self.key) {
            Some(filed_under) => filed_under,
            None => {
                return Err(StorageError::MalformedKey);
            },
        };
        let id = match decode_order_key(&self.value) {
            Some(id) => id,
            None => {
                return Err(StorageError::MalformedValue);
            },
        };
        match self.snapshot {
            Some(order) => {
                if order.quantity == 0 {
                    Ok(None)
                } else if filed_under.0 != order.price || filed_under.1 != order.sequence || id
                    != order.id {
                    Err(StorageError::IndexMismatch)
                } else {
                    Ok(Some(order))
                }
            },
            None => Ok(None),
        }
    }
}

/// The book after the orders of `entries` were put back into `book`, one
/// after the other in the order of the walk; the first entry or order that is
/// refused ends it.
pub open spec fn replay(book: BookState, entries: Seq<EntryView>) -> Result<
    BookState,
    StorageError,
>
    decreases entries.len(),
{
    if entries.len() == 0 {
        Ok(book)
    } else {
        match replay(book, entries.drop_last()) {
            Ok(before) => match entry_order(entries.last()) {
                Ok(Some(order)) => restore_outcome(before, order),
                Ok(None) => Ok(before),
                Err(error) => Err(error),
            },
            Err(error) => Err(error),
        }
    }
}

/// Once a walk was refused, no further entry mends it.
pub proof fn lemma_replay_refusal_stands(book: BookState, entries: Seq<EntryView>, read: int)
    requires
        0 <= read <= entries.len(),
        replay(book, entries.take(read)).is_err(),
    ensures
        replay(book, entries) == replay(book, entries.take(read)),
    decreases entries.len() - read,
{
    if read < entries.len() {
        assert(entries.take(read + 1).drop_last() =~= entries.take(read));
        lemma_replay_refusal_stands(book, entries, read + 1);
    } else {
        assert(entries.take(read) =~= entries);
    }
}

/// Rebuilds the book from a walk of the price-level index in key order. Each
/// entry's order is put back last at its price on its own side; entries
/// whose order is gone from the store or has nothing left to fill are passed
/// over. The first entry that is refused ends the walk with its error, and
/// the book keeps what was put back before it.
pub fn build_order_book(order_book: &mut OrderBook, entries: &Vec<LogEntry>) -> (result: Result<
    (),
    StorageError,
>)
    requires
        old(order_book).wf(),
    ensures
        final(order_book).wf(),
        match result {
            Ok(()) => replay(old(order_book)@, entry_views(entries@)) == Ok::<
                BookState,
                StorageError,
            >(final(order_book)@),
            Err(error) => {
                &&& replay(old(order_book)@, entry_views(entries@)) == Err::<
                    BookState,
                    StorageError,
                >(error)
                &&& exists|read: int|
                    0 <= read < entries@.len() && #[trigger] replay(
                        old(order_book)@,
                        entry_views(entries@).take(read),
                    ) == Ok::<BookState, StorageError>(final(order_book)@)
            },
        },
{
    let ghost all = entry_views(entries@);
    let mut read: usize = 0;
    while read < entries.len()
        invariant
            read <= entries.len(),
            all == entry_views(entries@),
            order_book.wf(),
            replay(old(order_book)@, all.take(read as int)) == Ok::<BookState, StorageError>(
                order_book@,
            ),
        decreases entries.len() - read,
    {
        proof {
            assert(all.take(read + 1).drop_last() =~= all.take(read as int));
        }
        let restored = match entries[read].order() {
            Ok(Some(order)) => order_book.restore(order),
            Ok(None) => Ok(()),
            Err(error) => Err(error),
        };
        match restored {
            Ok(()) => {},
            Err(error) => {
                proof {
                    lemma_replay_refusal_stands(old(order_book)@, all, read + 1);
                    assert(replay(old(order_book)@, all.take(read as int)) == Ok::<
                        BookState,
                        StorageError,
                    >(order_book@));
                }
                return Err(error);
            },
        }
        read = read + 1;
    }
    proof {
        assert(all.take(read as int) =~= all);
    }
    Ok(())
}

} // verus!
