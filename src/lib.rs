//! Arbitrary-precision integers over 64-bit words: an unsigned magnitude, a
//! signed integer built on it, decimal text, and Karatsuba multiplication,
//! every operation proved against the value of its word sequence.
//!
//! Beside them stand a few smaller verified utilities: a greedy capital
//! planner, an order book, an interval dynamic program and a block-record reader.

pub mod words;
pub mod helpers;
pub mod biguint;
pub mod bigint;
pub mod karatsuba;
pub mod convert;
pub mod laws;
pub mod capital;
pub mod utxo;
pub mod orderbook;
pub mod piniatas;
