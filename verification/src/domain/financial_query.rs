//! What a financial source is asked for.

use vstd::prelude::*;

use super::financial_row::{Scope, Statement};
use super::period::Period;
use super::symbol::Symbol;

verus! {

/// One statement of one symbol over some periods.
#[derive(Debug)]
pub struct Query {
    pub symbol: Symbol,
    pub statement: Statement,
    pub periods: Vec<Period>,
    pub scope: Scope,
}

} // verus!
