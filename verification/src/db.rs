//! Opening a database that another process may hold.

use vstd::prelude::*;
use vstd::string::*;

use crate::error::{concat4, concat5, ErrorView, SiftError};

verus! {

/// What a database is opened for.
#[derive(Debug, Clone, Copy, PartialEq, Eq, Structural)]
pub enum DuckAccess {
    Read,
    Write,
}

impl DuckAccess {
    pub open spec fn variant_name(self) -> Seq<char> {
        match self {
            DuckAccess::Read => "Read"@,
            DuckAccess::Write => "Write"@,
        }
    }

    /// The name in error texts.
    pub fn name(self) -> (out: &'static str)
        ensures
            out@ == self.variant_name(),
    {
        match self {
            DuckAccess::Read => "Read",
            DuckAccess::Write => "Write",
        }
    }
}

/// How long it is waited after each of the three attempts, in milliseconds.
pub open spec fn open_delay(attempt: int) -> nat {
    if attempt == 0 {
        20
    } else if attempt == 1 {
        80
    } else {
        320
    }
}

/// What is done after an attempt that failed.
#[derive(Debug)]
pub enum OpenStep {
    /// Another attempt, after so many milliseconds.
    Again(u64),
    /// The error, after so many milliseconds.
    GiveUp(u64, SiftError),
}

/// What is done after the attempt with the given number failed; there are three
/// of them.
pub fn on_open_failure(attempt: usize, path: &str, access: DuckAccess, message: &str) -> (step:
    OpenStep)
    requires
        attempt < 3,
    ensures
        if attempt < 2 {
            step matches OpenStep::Again(ms) && ms == open_delay(attempt as int)
        } else {
            step matches OpenStep::GiveUp(ms, e) && ms == open_delay(attempt as int) && e@
                == ErrorView::Io(
                "duckdb open "@ + path@ + " ("@ + access.variant_name() + ") after 3 retries: "@
                    + message@,
            )
        },
{
    if attempt == 0 {
        OpenStep::Again(20)
    } else if attempt == 1 {
        OpenStep::Again(80)
    } else {
        let mut text = concat5("duckdb open ", path, " (", access.name(), ") after 3 retries: ");
        text.append(message);
        OpenStep::GiveUp(320, SiftError::Io(text))
    }
}

/// The error of settings that are refused.
pub fn config_error(access: DuckAccess, message: &str) -> (e: SiftError)
    ensures
        e@ == ErrorView::Io("duckdb config ("@ + access.variant_name() + "): "@ + message@),
{
    SiftError::Io(concat4("duckdb config (", access.name(), "): ", message))
}

/// Each wait is four times as long as the one before.
pub proof fn law_waits_grow_fourfold(attempt: int)
    requires
        0 <= attempt < 2,
    ensures
        open_delay(0) == 20,
        open_delay(attempt + 1) == 4 * open_delay(attempt),
{
}

} // verus!
