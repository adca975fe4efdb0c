//! Snapshots of the whole market, and when a cached one is used.

use vstd::prelude::*;
use vstd::string::*;

use crate::cache::ttl::{bucket_for, bucket_of_age, fresh_at, instant, is_fresh};
use crate::date::Date;
use crate::error::{concat2, concat5};
use crate::text::{decimal, pad_left, zero_padded};

verus! {

/// A year in four places, the sign included.
pub open spec fn year_text(y: int) -> Seq<char> {
    if y >= 0 {
        pad_left(decimal(y as nat), 4, '0')
    } else {
        "-"@ + pad_left(decimal((-y) as nat), 3, '0')
    }
}

/// The key of the snapshot of a report end.
pub fn snapshot_key(end: Date) -> (out: String)
    requires
        end.wf(),
    ensures
        out@ == year_text(end.year as int) + "-"@ + pad_left(decimal(end.month as nat), 2, '0')
            + "-"@ + pad_left(decimal(end.day as nat), 2, '0'),
{
    let year = if end.year >= 0 {
        zero_padded(end.year as u64, 4)
    } else {
        concat2("-", zero_padded((-end.year) as u64, 3).as_str())
    };
    concat5(
        year.as_str(),
        "-",
        zero_padded(end.month as u64, 2).as_str(),
        "-",
        zero_padded(end.day as u64, 2).as_str(),
    )
}

/// Whether a cached snapshot is used: the caller does not forbid it, it says
/// when it was written, and that is recent enough for the report end.
pub fn load_snapshot(
    no_cache: bool,
    created_at: Option<i128>,
    now: i128,
    end: Date,
    today: Date,
) -> (r: bool)
    requires
        created_at matches Some(t) ==> instant(t as int),
        instant(now as int),
        end.wf(),
        today.wf(),
    ensures
        r == (!no_cache && (created_at matches Some(written) && fresh_at(
            now - written,
            bucket_of_age(today.number() - end.number()),
        ))),
{
    if no_cache {
        return false;
    }
    match created_at {
        Some(written) => is_fresh(written, now, bucket_for(end, today)),
        None => false,
    }
}

} // verus!
