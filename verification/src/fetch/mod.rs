//! What the commands fetch, and how the pieces are put together.

pub mod announce;
pub mod bars;
pub mod extract;
pub mod market;
pub mod quote;
pub mod report;
pub mod search;
