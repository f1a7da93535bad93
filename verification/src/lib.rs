//! An in-memory relational data engine with a small SQL-like statement
//! surface: sparse, typed, columnar storage with a primary-key index, a pure
//! expression evaluator, a statement executor that ties them together, and a
//! snapshot codec for the persist and restore meta commands.

use vstd::prelude::*;

pub mod casing;
pub mod codec;
pub mod database;
pub mod error;
pub mod evaluator;
pub mod expression;
pub mod laws;
pub mod metacommands;
pub mod render;
pub mod rowmap;
pub mod table;
pub mod view;

pub use error::Error;

verus! {

} // verus!
