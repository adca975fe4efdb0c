//! The whole market at one report date.

use vstd::prelude::*;

use crate::domain::Amount;
use crate::text_map::TextMap;

verus! {

/// One security with its figures, by column.
#[derive(Debug)]
pub struct MarketRow {
    pub code: String,
    pub name: String,
    pub board_name: Option<String>,
    pub notice_date: Option<String>,
    pub metrics: TextMap<Amount>,
}

impl MarketRow {
    pub open spec fn wf(self) -> bool {
        self.metrics.wf()
    }
}

} // verus!
