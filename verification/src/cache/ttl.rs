//! How long a cached report counts as fresh, by the age of its period.

use vstd::prelude::*;

use crate::date::Date;

verus! {

/// How old a report period is.
#[derive(Debug, Clone, Copy, PartialEq, Eq, Structural)]
pub enum TtlBucket {
    /// Less than 90 days: fresh for a day.
    Recent,
    /// 90 to 365 days: fresh for thirty days.
    Mid,
    /// More than 365 days: fresh for ever.
    Old,
}

impl TtlBucket {
    /// For how many seconds an entry is fresh; `None` for ever.
    pub open spec fn seconds(self) -> Option<nat> {
        match self {
            TtlBucket::Recent => Some(86400),
            TtlBucket::Mid => Some(2592000),
            TtlBucket::Old => None,
        }
    }

    /// For how many seconds an entry is fresh; `None` for ever.
    pub fn ttl(self) -> (r: Option<u64>)
        ensures
            match r {
                Some(n) => self.seconds() == Some(n as nat),
                None => self.seconds() is None,
            },
    {
        match self {
            TtlBucket::Recent => Some(86400),
            TtlBucket::Mid => Some(2592000),
            TtlBucket::Old => None,
        }
    }
}

/// The bucket of a period that ended `age` days ago.
pub open spec fn bucket_of_age(age: int) -> TtlBucket {
    if age > 365 {
        TtlBucket::Old
    } else if age >= 90 {
        TtlBucket::Mid
    } else {
        TtlBucket::Recent
    }
}

/// The bucket of a period that ended on `period_end`.
pub fn bucket_for(period_end: Date, today: Date) -> (b: TtlBucket)
    requires
        period_end.wf(),
        today.wf(),
    ensures
        b == bucket_of_age(today.number() - period_end.number()),
{
    let age: i64 = today.days_since(period_end);
    if age > 365 {
        TtlBucket::Old
    } else if age >= 90 {
        TtlBucket::Mid
    } else {
        TtlBucket::Recent
    }
}

/// Nanoseconds since 1970 whose seconds fit in 64 bits.
pub open spec fn instant(nanos: int) -> bool {
    -10_000_000_000_000_000_000_000_000_000 < nanos < 10_000_000_000_000_000_000_000_000_000
}

/// An entry of the given age, in nanoseconds, is fresh.
pub open spec fn fresh_at(age_nanos: int, bucket: TtlBucket) -> bool {
    match bucket.seconds() {
        Some(n) => age_nanos < n * 1_000_000_000,
        None => true,
    }
}

/// Whether an entry written at `written` is fresh at `now`, both in
/// nanoseconds since 1970.
pub fn is_fresh(written: i128, now: i128, bucket: TtlBucket) -> (r: bool)
    requires
        instant(written as int),
        instant(now as int),
    ensures
        r == fresh_at(now - written, bucket),
{
    match bucket.ttl() {
        Some(n) => now - written < n as i128 * 1_000_000_000,
        None => true,
    }
}

/// How long an entry is fresh, by how long ago its period ended: less than 90
/// days, for a day; up to 365 days, for thirty days; longer, for ever.
pub proof fn law_how_long_an_entry_is_fresh(days: int, age_nanos: int)
    ensures
        days < 90 ==> (fresh_at(age_nanos, bucket_of_age(days)) <==> age_nanos < 24 * 60 * 60
            * 1_000_000_000),
        90 <= days <= 365 ==> (fresh_at(age_nanos, bucket_of_age(days)) <==> age_nanos < 30 * 24
            * 60 * 60 * 1_000_000_000),
        days > 365 ==> fresh_at(age_nanos, bucket_of_age(days)),
{
}

/// What is fresh at some age was fresh before, and is fresh in the bucket of
/// any older period.
pub proof fn law_freshness_is_monotone(age1: int, age2: int, days1: int, days2: int)
    requires
        age1 <= age2,
        days1 <= days2,
        fresh_at(age2, bucket_of_age(days1)),
    ensures
        fresh_at(age1, bucket_of_age(days1)),
        fresh_at(age2, bucket_of_age(days2)),
{
}

} // verus!
