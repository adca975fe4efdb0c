//! Quotes: the source, and what becomes of failures.

use vstd::prelude::*;
use vstd::string::*;

use super::bars::{settle_symbols, settles};
use crate::error::{pair_views, SiftError};

verus! {

/// The options of the command.
#[derive(Debug)]
pub struct QuoteArgs {
    pub symbols: Vec<String>,
}

/// The source that is asked.
pub fn quote_source() -> (out: &'static str)
    ensures
        out@ == "eastmoney"@,
{
    "eastmoney"
}

/// What the quote command comes to.
pub fn settle_quotes(asked: usize, failures: Vec<(String, String)>) -> (r: Result<
    Vec<String>,
    SiftError,
>)
    ensures
        settles("quote"@, asked as nat, pair_views(failures@), r),
{
    settle_symbols("quote", asked, failures)
}

} // verus!
