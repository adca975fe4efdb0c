//! The source of quotes.

use vstd::prelude::*;
use vstd::string::*;

use crate::error::{ErrorView, SiftError};
use crate::fetch::bars::position_of;
use crate::text::{join, views};

verus! {

/// The position of the source that is named.
pub fn dispatch_named(sources: &Vec<String>, name: &str) -> (r: Result<usize, SiftError>)
    ensures
        match r {
            Ok(i) => i < sources@.len() && i == position_of(views(sources@), name@),
            Err(e) => position_of(views(sources@), name@) == sources@.len() && e@
                == ErrorView::NoApplicableSource(
                "--source "@ + name@ + " not registered; known sources: "@ + join(
                    views(sources@),
                    ", "@,
                ),
            ),
        },
{
    crate::fetch::bars::dispatch_named(sources, name)
}

} // verus!
