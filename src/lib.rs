//! A single-instrument limit order book with price-time priority matching.
//!
//! Each side of the book is a sequence of price levels, best price first, each holding its
//! resting orders oldest first; an index maps every resting order's id to its level. Every
//! operation keeps the two in step (see `laws::lemma_index_matches_levels`), and a level is
//! dropped as soon as its last order leaves, whether by a fill or by a cancel.
use vstd::prelude::*;

pub mod book;
pub mod laws;
pub mod lemmas;
pub mod model;
pub mod order;

pub use book::Orderbook;
pub use order::{LevelIdentifier, LivreError, MatchInfo, ModifyOrder, Order, OrderState, OrderType, Side, Trade};

verus! {

} // verus!
