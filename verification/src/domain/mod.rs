//! Domain types shared by the sources and the commands.

pub mod announcement;
pub mod bars;
pub mod financial_query;
pub mod financial_row;
pub mod items_dict;
pub mod market;
pub mod period;
pub mod quote;
pub mod single_quarter;
pub mod symbol;

pub use financial_query::Query;
pub use financial_row::{Amount, AuditStatus, FinancialRow, Scope, SourceTag, Statement, Unit};
pub use period::{Period, PeriodType};
pub use symbol::Symbol;
