//! A central limit order book for one instrument.
//!
//! `order_book` holds the book and the submission of limit orders, `matching`
//! the rule by which an order trades against the opposing side, and
//! `price_level` the sides and their queues. `priority` and `quantity` state
//! what matching guarantees: price-time priority, and that quantity is moved,
//! never made or lost. `db` and `keys` say what a durable store holds of the
//! book and how the book is rebuilt from it; `durability` proves that it
//! comes back as it was. `sequencer` holds the decisions of the one owner of
//! the book. `config` holds the settings, `response` the reply to
//! a submission, `decimal` the digits both are written in, and `error` the
//! error types.

pub mod config;
pub mod db;
pub mod decimal;
pub mod durability;
pub mod error;
pub mod keys;
pub mod matching;
pub mod order;
pub mod order_book;
pub mod price_level;
pub mod priority;
pub mod quantity;
pub mod response;
pub mod sequencer;
