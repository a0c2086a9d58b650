//! Exact-rational ledger core: a parser and serializer for rational number
//! literals (integers, fractions, mixed numbers) and an aggregator that folds
//! double-entry transactions into per-account net balances, all in exact
//! rational arithmetic.

pub mod decimal;
pub mod rational;
pub mod arith;
pub mod parser;
pub mod ledger;

use vstd::prelude::*;

verus! {

} // verus!
