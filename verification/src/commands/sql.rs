//! SQL over the fact store.

use vstd::prelude::*;
use vstd::string::*;

use crate::db::DuckAccess;
use crate::error::concat3;
use crate::text::{decimal, decimal_string};

verus! {

/// The options of the command.
#[derive(Debug)]
pub struct SqlArgs {
    pub query: String,
    pub write: bool,
}

/// What the store is opened for: reading, unless writing is asked for.
pub fn access(args: &SqlArgs) -> (a: DuckAccess)
    ensures
        a == (if args.write {
            DuckAccess::Write
        } else {
            DuckAccess::Read
        }),
{
    if args.write {
        DuckAccess::Write
    } else {
        DuckAccess::Read
    }
}

/// The line after a statement without rows.
pub fn affected_line(n: u64) -> (out: String)
    ensures
        out@ == "[info] "@ + decimal(n as nat) + " row(s) affected"@,
{
    concat3("[info] ", decimal_string(n).as_str(), " row(s) affected")
}

} // verus!
