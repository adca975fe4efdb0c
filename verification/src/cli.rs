//! The command line: its commands, the output format, and how the process ends.

use vstd::prelude::*;
use vstd::string::*;

use crate::commands::announce::AnnounceCmd;
use crate::commands::bars::BarsArgs;
use crate::commands::extract::ExtractArgs;
use crate::commands::fact::FactCmd;
use crate::commands::map::MapCmd;
use crate::commands::market::MarketArgs;
use crate::commands::metric::MetricCmd;
use crate::commands::quote::QuoteArgs;
use crate::commands::report::ReportCmd;
use crate::commands::sql::SqlArgs;
use crate::error::{concat2, concat3, SiftError};
use crate::text::{debug_quoted, quoted, same};

verus! {

/// How results are written.
#[derive(Debug, Clone, Copy, PartialEq, Eq, Structural)]
pub enum Format {
    Table,
    Tsv,
    Json,
}

/// The options of the search command.
#[derive(Debug)]
pub struct SearchArgs {
    pub query: String,
    pub limit: u32,
    pub no_cache: bool,
}

/// The commands.
#[derive(Debug)]
pub enum Command {
    Search(SearchArgs),
    Report(ReportCmd),
    Announce(AnnounceCmd),
    Extract(ExtractArgs),
    Quote(QuoteArgs),
    Bars(BarsArgs),
    Market(MarketArgs),
    Sql(SqlArgs),
    Fact(FactCmd),
    Metric(MetricCmd),
    Mapping(MapCmd),
}

/// The command line.
#[derive(Debug)]
pub struct Cli {
    pub format: Option<Format>,
    pub command: Command,
}

impl Cli {
    /// How results are written: as a table unless something else is named.
    pub fn output_format(&self) -> (f: Format)
        ensures
            f == (match self.format {
                Some(f) => f,
                None => Format::Table,
            }),
    {
        match self.format {
            Some(f) => f,
            None => Format::Table,
        }
    }
}

/// The format that is named. A table is had by naming none.
pub fn parse_user_format(s: &str) -> (r: Result<Format, String>)
    ensures
        if s@ == "tsv"@ {
            r == Ok::<Format, String>(Format::Tsv)
        } else if s@ == "json"@ {
            r == Ok::<Format, String>(Format::Json)
        } else if s@ == "table"@ {
            r matches Err(e) && e@ == "table is the default — omit `--format` to get it"@
        } else {
            r matches Err(e) && e@ == "unknown format "@ + quoted(s@)
                + " — expected `tsv` or `json`"@
        },
{
    proof {
        reveal_strlit("tsv");
        reveal_strlit("json");
        reveal_strlit("table");
        assert("tsv"@.len() == 3 && "json"@.len() == 4 && "table"@.len() == 5);
    }
    if same(s, "tsv") {
        Ok(Format::Tsv)
    } else if same(s, "json") {
        Ok(Format::Json)
    } else if same(s, "table") {
        Err("table is the default — omit `--format` to get it".to_owned())
    } else {
        Err(
            concat3("unknown format ", debug_quoted(s).as_str(), " — expected `tsv` or `json`"),
        )
    }
}

/// How the process ends: its exit code, and what it says before, if anything.
/// A pipe that was closed is no error.
pub fn ending(result: &Result<(), SiftError>) -> (r: (i32, Option<String>))
    ensures
        match *result {
            Ok(()) => r.0 == 0 && r.1 is None,
            Err(e) => if e is BrokenPipe {
                r.0 == 0 && r.1 is None
            } else {
                r.0 == e@.exit_code() && (r.1 matches Some(t) && t@ == "sift: "@ + e@.message())
            },
        },
{
    match result {
        Ok(()) => (0, None),
        Err(e) => match e {
            SiftError::BrokenPipe => (0, None),
            _ => (e.exit_code(), Some(concat2("sift: ", e.message().as_str()))),
        },
    }
}

} // verus!
