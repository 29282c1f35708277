//! A single-asset limit order book with price-time priority matching.
//!
//! Orders rest in FIFO queues, one queue per price and side. An incoming
//! order first trades against the best resting prices of the opposite side
//! and whatever is left of it then rests on its own side.

pub mod book;
pub mod errors;
pub mod history;
pub mod laws;
pub mod levels;
pub mod matching;
pub mod ordering;
pub mod orders;
pub mod requests;
pub mod router;
pub mod table;
pub mod text;
pub mod tracker;
