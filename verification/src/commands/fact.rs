//! Facts that are set and removed by hand.

use vstd::prelude::*;
use vstd::string::*;

use super::metric::{deleted_line, summary_lines, BatchOutcome};
use crate::error::{ErrorView, SiftError};
use crate::text::views;

verus! {

/// The options of `fact set`.
#[derive(Debug)]
pub struct FactSetArgs {
    pub symbol: Option<String>,
    pub period: Option<String>,
    pub key: Option<String>,
    pub value: Option<String>,
    pub source: String,
    pub qmode: String,
    pub scope: String,
    pub currency: Option<String>,
    pub publish_date: Option<String>,
    pub skip_invalid: bool,
}

/// The options of `fact rm`.
#[derive(Debug)]
pub struct FactRmArgs {
    pub symbol: String,
    pub period: String,
    pub key: String,
    pub source: String,
    pub qmode: String,
    pub scope: String,
}

#[derive(Debug)]
pub enum FactCmd {
    Put(FactSetArgs),
    Rm(FactRmArgs),
}

/// What `fact set` does.
#[derive(Debug)]
pub enum FactPlan<'a> {
    /// Sets one fact: symbol, period, key and value.
    One(&'a str, &'a str, &'a str, &'a str),
    /// Reads a batch from the pipe; `atomic` if one bad row spoils all.
    Batch { atomic: bool },
}

/// What `fact set` does: with a symbol one fact, which needs period, key and
/// value; without one a batch from the pipe, which must be there.
pub fn plan_set<'a>(args: &'a FactSetArgs, stdin_is_tty: bool) -> (r: Result<
    FactPlan<'a>,
    SiftError,
>)
    ensures
        match args.symbol {
            Some(symbol) => match (args.period, args.key, args.value) {
                (None, _, _) => r matches Err(e) && e@ == ErrorView::Parse(
                    "--period is required with --symbol"@,
                ),
                (_, None, _) => r matches Err(e) && e@ == ErrorView::Parse(
                    "--key is required with --symbol"@,
                ),
                (_, _, None) => r matches Err(e) && e@ == ErrorView::Parse(
                    "--value is required with --symbol"@,
                ),
                (Some(p), Some(k), Some(v)) => r matches Ok(FactPlan::One(a, b, c, d)) && a@
                    == symbol@ && b@ == p@ && c@ == k@ && d@ == v@,
            },
            None => if stdin_is_tty {
                r matches Err(e) && e@ == ErrorView::Parse(
                    "provide --symbol for a single fact, or pipe a #header TSV batch on stdin"@,
                )
            } else {
                r matches Ok(FactPlan::Batch { atomic }) && atomic == !args.skip_invalid
            },
        },
{
    if let Some(symbol) = &args.symbol {
        let period = match &args.period {
            Some(p) => p.as_str(),
            None => return Err(
                SiftError::Parse("--period is required with --symbol".to_owned()),
            ),
        };
        let key = match &args.key {
            Some(k) => k.as_str(),
            None => return Err(SiftError::Parse("--key is required with --symbol".to_owned())),
        };
        let value = match &args.value {
            Some(v) => v.as_str(),
            None => return Err(SiftError::Parse("--value is required with --symbol".to_owned())),
        };
        return Ok(FactPlan::One(symbol.as_str(), period, key, value));
    }
    if stdin_is_tty {
        return Err(
            SiftError::Parse(
                "provide --symbol for a single fact, or pipe a #header TSV batch on stdin".to_owned(),
            ),
        );
    }
    Ok(FactPlan::Batch { atomic: !args.skip_invalid })
}

/// What is said after facts were written.
pub fn summarize(out: &BatchOutcome) -> (lines: Vec<String>)
    ensures
        views(lines@) == summary_lines(*out, "fact"@),
{
    super::metric::summarize(out, "fact")
}

/// What is said after facts were deleted.
pub fn deleted(n: u64) -> (out: String)
    ensures
        out@ == deleted_line(n, "fact"@),
{
    super::metric::deleted(n, "fact")
}

} // verus!
