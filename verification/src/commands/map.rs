//! Mappings from the keys of a source to standard metrics.

use vstd::prelude::*;
use vstd::string::*;

use super::metric::read_stdin_batch;
use crate::error::{ErrorView, SiftError};

verus! {

/// The options of `map set`.
#[derive(Debug)]
pub struct MapSetArgs {
    pub source: Option<String>,
    pub raw_key: Option<String>,
    pub std_key: Option<String>,
    pub skip_invalid: bool,
}

/// The options of `map ls`.
#[derive(Debug)]
pub struct MapLsArgs {
    pub source: Option<String>,
}

/// The options of `map rm`.
#[derive(Debug)]
pub struct MapRmArgs {
    pub source: String,
    pub raw_key: String,
}

#[derive(Debug)]
pub enum MapCmd {
    Put(MapSetArgs),
    Ls(MapLsArgs),
    Rm(MapRmArgs),
}

/// What `map set` does.
#[derive(Debug)]
pub enum MapPlan<'a> {
    /// Sets one mapping: source, raw key and standard key.
    One(&'a str, &'a str, &'a str),
    /// Reads a batch from the pipe; `atomic` if one bad row spoils all.
    Batch { atomic: bool },
}

/// What `map set` does: with both keys one mapping, which needs a source; with
/// neither a batch; with one of them nothing.
pub fn plan_set<'a>(args: &'a MapSetArgs, stdin_is_tty: bool) -> (r: Result<
    MapPlan<'a>,
    SiftError,
>)
    ensures
        match (args.raw_key, args.std_key) {
            (Some(raw), Some(std)) => match args.source {
                Some(source) => r matches Ok(MapPlan::One(a, b, c)) && a@ == source@ && b@ == raw@
                    && c@ == std@,
                None => r matches Err(e) && e@ == ErrorView::Parse(
                    "--source is required for a single mapping"@,
                ),
            },
            (None, None) => if stdin_is_tty {
                r matches Err(e) && e@ == ErrorView::Parse(
                    "provide the value inline, or pipe a #header TSV batch on stdin"@,
                )
            } else {
                r matches Ok(MapPlan::Batch { atomic }) && atomic == !args.skip_invalid
            },
            _ => r matches Err(e) && e@ == ErrorView::Parse(
                "give both RAW_KEY and STD_KEY for a single mapping, or neither for a stdin batch"@,
            ),
        },
{
    match (&args.raw_key, &args.std_key) {
        (Some(raw), Some(std_key)) => match &args.source {
            Some(source) => Ok(MapPlan::One(source.as_str(), raw.as_str(), std_key.as_str())),
            None => Err(
                SiftError::Parse("--source is required for a single mapping".to_owned()),
            ),
        },
        (None, None) => match read_stdin_batch(stdin_is_tty) {
            Ok(()) => Ok(MapPlan::Batch { atomic: !args.skip_invalid }),
            Err(e) => Err(e),
        },
        _ => Err(
            SiftError::Parse(
                "give both RAW_KEY and STD_KEY for a single mapping, or neither for a stdin batch".to_owned(),
            ),
        ),
    }
}

} // verus!
