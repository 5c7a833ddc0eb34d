//! The errors of the library, one closed type for each part that can fail.

use vstd::prelude::*;

verus! {

/// Why the settings were refused.
#[derive(Debug, Clone, Copy, PartialEq, Eq, Structural)]
pub enum ConfigError {
    /// No port is set, or what is set is not a decimal number from 1 to
    /// 65535.
    InvalidPort,
}

/// Why an order was not taken.
#[derive(Debug, Clone, Copy, PartialEq, Eq, Structural)]
pub enum SubmitError {
    /// Orders are no longer taken: a write to the store failed, and the store
    /// no longer holds what the book holds.
    Halted,
    /// The order has no quantity.
    NoQuantity,
    /// The order's id is below the order id counter: an order with that id,
    /// or a later one, was seen before.
    StaleId,
    /// The order carries the last id there is.
    IdExhausted,
    /// The sequence counter has no room for the order and the trades it can
    /// make.
    SequenceExhausted,
}

/// Why what was read from the store cannot be used.
#[derive(Debug, Clone, Copy, PartialEq, Eq, Structural)]
pub enum StorageError {
    /// A key of the price-level index is not sixteen bytes long.
    MalformedKey,
    /// A value of the price-level index is not the eight bytes of an order key.
    MalformedValue,
    /// An order is filed under a key that is not made of its own price and
    /// arrival number, or under a value that is not its own id.
    IndexMismatch,
    /// An order would rest at or beyond a price of the opposing side.
    CrossedBook,
    /// An order arrived no later than the order it would queue behind.
    OutOfOrder,
    /// An order carries the last arrival number there is.
    SequenceExhausted,
    /// A trade names a maker of which the store holds no order, or another
    /// order, or less quantity than was traded.
    UnknownMaker,
}

} // verus!
