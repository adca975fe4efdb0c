//! What each command decides, and the texts that it shows.

pub mod announce;
pub mod bars;
pub mod extract;
pub mod fact;
pub mod map;
pub mod market;
pub mod metric;
pub mod quote;
pub mod report;
pub mod search;
pub mod sql;
