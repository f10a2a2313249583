//! The core of a decentralized exchange for one market: an order book kept in
//! strict price-time priority, a matching engine, a settlement engine that
//! moves escrowed funds atomically, and the instruction processor that ties
//! them into one deterministic state machine.

pub mod book;
pub mod error;
pub mod exchange;
pub mod ledger;
pub mod matching;
pub mod order;
pub mod settlement;
pub mod theorems;
