//! Price bars: the days that are asked for, and what becomes of failures.

use vstd::prelude::*;
use vstd::string::*;

use crate::date::{Date, first_day, iso8601_date, iso8601_parse};
use crate::domain::bars::{Adjust, Period};
use crate::error::{ErrorView, SiftError, concat3, concat4, outcome, pair_views};
use crate::text::{
    debug_quoted, law_what_occurs_is_part_of_the_text, lemma_occurs_between, occurs, quoted, views,
};

verus! {

/// How prices are adjusted.
#[derive(Debug, Clone, Copy, PartialEq, Eq, Structural)]
pub enum AdjustArg {
    Unadjusted,
    Pre,
    Post,
}

impl AdjustArg {
    pub open spec fn meaning(self) -> Adjust {
        match self {
            AdjustArg::Unadjusted => Adjust::Unadjusted,
            AdjustArg::Pre => Adjust::Pre,
            AdjustArg::Post => Adjust::Post,
        }
    }

    pub fn adjust(self) -> (a: Adjust)
        ensures
            a == self.meaning(),
    {
        match self {
            AdjustArg::Unadjusted => Adjust::Unadjusted,
            AdjustArg::Pre => Adjust::Pre,
            AdjustArg::Post => Adjust::Post,
        }
    }
}

/// How much time one bar covers.
#[derive(Debug, Clone, Copy, PartialEq, Eq, Structural)]
pub enum PeriodArg {
    Daily,
    Weekly,
    Monthly,
}

impl PeriodArg {
    pub open spec fn meaning(self) -> Period {
        match self {
            PeriodArg::Daily => Period::Daily,
            PeriodArg::Weekly => Period::Weekly,
            PeriodArg::Monthly => Period::Monthly,
        }
    }

    pub fn period(self) -> (p: Period)
        ensures
            p == self.meaning(),
    {
        match self {
            PeriodArg::Daily => Period::Daily,
            PeriodArg::Weekly => Period::Weekly,
            PeriodArg::Monthly => Period::Monthly,
        }
    }
}

/// The source to ask.
#[derive(Debug, Clone, Copy, PartialEq, Eq, Structural)]
pub enum SourceArg {
    Tencent,
    Eastmoney,
}

impl SourceArg {
    pub open spec fn label(self) -> Seq<char> {
        match self {
            SourceArg::Tencent => "tencent"@,
            SourceArg::Eastmoney => "eastmoney"@,
        }
    }

    /// The name under which the source is registered.
    pub fn as_name(self) -> (out: &'static str)
        ensures
            out@ == self.label(),
    {
        match self {
            SourceArg::Tencent => "tencent",
            SourceArg::Eastmoney => "eastmoney",
        }
    }
}

/// The options of the command.
#[derive(Debug)]
pub struct BarsArgs {
    pub symbols: Vec<String>,
    pub start: Option<String>,
    pub end: Option<String>,
    pub limit: Option<usize>,
    pub adjust: AdjustArg,
    pub period: PeriodArg,
    pub source: SourceArg,
}

/// How many days back the bars begin when nothing is said: one year, five or
/// twenty.
pub open spec fn lookback(period: Period) -> u32 {
    match period {
        Period::Daily => 365,
        Period::Weekly => 1825,
        Period::Monthly => 7300,
    }
}

/// How many days back the bars begin when nothing is said.
pub fn default_lookback_days(period: Period) -> (n: u32)
    ensures
        n == lookback(period),
{
    match period {
        Period::Daily => 365,
        Period::Weekly => 1825,
        Period::Monthly => 7300,
    }
}

/// A day that was read from a text, or the error that says why none was.
pub open spec fn day_or_error(s: Seq<char>, read: Result<Date, Seq<char>>) -> Result<
    Date,
    ErrorView,
> {
    match read {
        Ok(d) => Ok(d),
        Err(e) => Err(
            ErrorView::Parse(
                "invalid date "@ + quoted(s) + " (expected YYYY-MM-DD): "@ + e,
            ),
        ),
    }
}

/// What was read from a text, its error as text.
pub open spec fn read_text(read: Result<Date, String>) -> Result<Date, Seq<char>> {
    match read {
        Ok(d) => Ok(d),
        Err(e) => Err(e@),
    }
}

/// A day that was read from a text, or the error that says why none was.
pub fn read_day(s: &str, read: Result<Date, String>) -> (r: Result<Date, SiftError>)
    ensures
        outcome(r) == day_or_error(s@, read_text(read)),
{
    match read {
        Ok(d) => Ok(d),
        Err(e) => Err(
            SiftError::Parse(
                concat4(
                    "invalid date ",
                    debug_quoted(s).as_str(),
                    " (expected YYYY-MM-DD): ",
                    e.as_str(),
                ),
            ),
        ),
    }
}

/// The day that an ISO 8601 text names.
pub fn parse_iso_date(s: &str) -> (r: Result<Date, SiftError>)
    ensures
        outcome(r) == day_or_error(s@, iso8601_date(s@)),
        r matches Ok(d) ==> d.wf(),
{
    read_day(s, iso8601_parse(s))
}

/// `d` is `days` days before `today`, or the first day there is.
pub open spec fn is_days_before(d: Date, today: Date, days: int) -> bool {
    &&& d.wf()
    &&& today.number() - days >= first_day().number() ==> d.number() == today.number() - days
    &&& today.number() - days < first_day().number() ==> d == first_day()
}

/// The first and the last day that are asked for. With a limit there are none;
/// without a word on it the last day is today and the first one lies back as
/// far as the bars are long.
pub fn resolve_date_range(args: &BarsArgs, today: Date) -> (r: Result<
    (Option<Date>, Option<Date>),
    SiftError,
>)
    requires
        today.wf(),
    ensures
        if args.limit is Some {
            r matches Ok(p) && p.0 is None && p.1 is None
        } else {
            let start = match args.start {
                Some(s) => Some(day_or_error(s@, iso8601_date(s@))),
                None => None,
            };
            let end = match args.end {
                Some(s) => day_or_error(s@, iso8601_date(s@)),
                None => Ok(today),
            };
            match (start, end) {
                (Some(Err(e)), _) => r matches Err(f) && f@ == e,
                (_, Err(e)) => r matches Err(f) && f@ == e,
                (Some(Ok(a)), Ok(b)) => r matches Ok(p) && p.0 == Some(a) && p.1 == Some(b),
                (None, Ok(b)) => r matches Ok(p) && p.1 == Some(b) && (p.0 matches Some(a)
                    && is_days_before(a, today, lookback(args.period.meaning()) as int)),
            }
        },
{
    if args.limit.is_some() {
        return Ok((None, None));
    }
    let start = match &args.start {
        Some(s) => match parse_iso_date(s.as_str()) {
            Ok(d) => d,
            Err(e) => return Err(e),
        },
        None => today.days_back(default_lookback_days(args.period.period())),
    };
    let end = match &args.end {
        Some(s) => match parse_iso_date(s.as_str()) {
            Ok(d) => d,
            Err(e) => return Err(e),
        },
        None => today,
    };
    Ok((Some(start), Some(end)))
}

/// A failure with the command before the symbol.
pub open spec fn named_failure(cmd: Seq<char>, f: (Seq<char>, Seq<char>)) -> (Seq<char>, Seq<char>) {
    (cmd + " "@ + f.0, f.1)
}

/// A failure as a warning.
pub open spec fn failure_warning(cmd: Seq<char>, f: (Seq<char>, Seq<char>)) -> Seq<char> {
    "[warn] "@ + cmd + " "@ + f.0 + ": "@ + f.1
}

/// A command over `asked` symbols comes to `r`. If every symbol failed it fails
/// with all failures, in order; otherwise each failure is a warning that
/// follows the rows. A symbol without rows has not failed.
pub open spec fn settles(
    cmd: Seq<char>,
    asked: nat,
    failures: Seq<(Seq<char>, Seq<char>)>,
    r: Result<Vec<String>, SiftError>,
) -> bool {
    if asked > 0 && failures.len() == asked {
        r matches Err(e) && e@ == ErrorView::AllSourcesFailed(
            failures.map_values(|f: (Seq<char>, Seq<char>)| named_failure(cmd, f)),
        )
    } else {
        r matches Ok(w) && views(w@) == failures.map_values(
            |f: (Seq<char>, Seq<char>)| failure_warning(cmd, f),
        )
    }
}

/// What a command over several symbols comes to, given how many were asked for
/// and those that failed, each with its cause.
pub fn settle_symbols(cmd: &str, asked: usize, failures: Vec<(String, String)>) -> (r: Result<
    Vec<String>,
    SiftError,
>)
    ensures
        settles(cmd@, asked as nat, pair_views(failures@), r),
{
    let ghost v = pair_views(failures@);
    let mut named: Vec<(String, String)> = Vec::new();
    let mut warnings: Vec<String> = Vec::new();
    let mut i: usize = 0;
    while i < failures.len()
        invariant
            i <= failures@.len(),
            v == pair_views(failures@),
            named@.len() == i,
            warnings@.len() == i,
            forall|k: int|
                0 <= k < i ==> ((#[trigger] named@[k]).0@, named@[k].1@) == named_failure(
                    cmd@,
                    v[k],
                ),
            forall|k: int|
                0 <= k < i ==> (#[trigger] warnings@[k])@ == failure_warning(cmd@, v[k]),
        decreases failures@.len() - i,
    {
        let sym = failures[i].0.as_str();
        let cause = failures[i].1.as_str();
        named.push((concat3(cmd, " ", sym), cause.to_owned()));
        let mut w = concat4("[warn] ", cmd, " ", sym);
        w.append(": ");
        w.append(cause);
        warnings.push(w);
        i = i + 1;
    }
    if asked > 0 && failures.len() == asked {
        proof {
            assert(pair_views(named@) =~= v.map_values(
                |f: (Seq<char>, Seq<char>)| named_failure(cmd@, f),
            ));
        }
        Err(SiftError::AllSourcesFailed(named))
    } else {
        proof {
            assert(views(warnings@) =~= v.map_values(
                |f: (Seq<char>, Seq<char>)| failure_warning(cmd@, f),
            ));
        }
        Ok(warnings)
    }
}

/// What the bars command comes to.
pub fn settle_bars(asked: usize, failures: Vec<(String, String)>) -> (r: Result<
    Vec<String>,
    SiftError,
>)
    ensures
        settles("bars"@, asked as nat, pair_views(failures@), r),
{
    settle_symbols("bars", asked, failures)
}

/// A command fails only if every symbol did; otherwise there is one warning for
/// each symbol that failed, in order, which holds the symbol and the cause.
pub proof fn law_a_warning_for_each_failure(
    cmd: Seq<char>,
    asked: nat,
    failures: Seq<(Seq<char>, Seq<char>)>,
    r: Result<Vec<String>, SiftError>,
    i: int,
)
    requires
        settles(cmd, asked, failures, r),
        0 <= i < failures.len() <= asked,
    ensures
        r is Err <==> failures.len() == asked,
        r matches Ok(w) ==> w@.len() == failures.len() && occurs(w@[i]@, failures[i].0) && occurs(
            w@[i]@,
            failures[i].1,
        ),
        r matches Err(e) ==> (e@ matches ErrorView::AllSourcesFailed(told) && told.len()
            == failures.len() && occurs(told[i].0, failures[i].0) && told[i].1 == failures[i].1),
{
    let f = failures[i];
    let none = Seq::<char>::empty();
    match r {
        Ok(w) => {
            assert(views(w@).len() == failures.len());
            assert(views(w@)[i] == failure_warning(cmd, f));
            let text = failure_warning(cmd, f);
            let head = "[warn] "@ + cmd + " "@;
            assert(text =~= head + f.0 + (": "@ + f.1));
            law_what_occurs_is_part_of_the_text(text, f.0, head, ": "@ + f.1);
            assert(text =~= (head + f.0 + ": "@) + f.1 + none);
            law_what_occurs_is_part_of_the_text(text, f.1, head + f.0 + ": "@, none);
        },
        Err(e) => {
            let name = named_failure(cmd, f).0;
            assert(name =~= (cmd + " "@) + f.0 + none);
            law_what_occurs_is_part_of_the_text(name, f.0, cmd + " "@, none);
        },
    }
}

/// Bars go back whole years where nothing is said of days: those of a day one year,
/// and longer ones five and twenty times as far.
pub proof fn law_longer_bars_go_back_farther(p: Period)
    ensures
        lookback(p) >= 365,
        p == Period::Daily <==> lookback(p) == 365,
        p == Period::Weekly <==> lookback(p) == 5 * 365,
        p == Period::Monthly <==> lookback(p) == 20 * 365,
{
}

/// Going back a number of days stops at the first day there is: the day that comes
/// out is no later than today, never before the first day, and that many days back
/// wherever there is such a day.
pub proof fn law_going_back_stops_at_the_first_day(d: Date, today: Date, days: int)
    requires
        today.wf(),
        0 <= days,
        is_days_before(d, today, days),
    ensures
        d.number() <= today.number(),
        d.number() >= first_day().number(),
        d.number() == today.number() - days || d.number() == first_day().number() && d.number()
            > today.number() - days,
{
    crate::date::law_calendar_order_is_day_order(today, first_day());
    crate::date::law_calendar_order_is_day_order(d, first_day());
}

/// A day that was read is the day that is asked for; what is no day is told with
/// its text and the cause.
pub proof fn law_a_day_that_was_read_counts(s: Seq<char>, d: Date, cause: Seq<char>)
    ensures
        day_or_error(s, Ok(d)) == Ok::<Date, ErrorView>(d),
        day_or_error(s, Err(cause)) matches Err(ErrorView::Parse(text)) && occurs(text, quoted(s))
            && cause.is_suffix_of(text),
{
    let text = "invalid date "@ + quoted(s) + " (expected YYYY-MM-DD): "@ + cause;
    lemma_occurs_between("invalid date "@, quoted(s), " (expected YYYY-MM-DD): "@ + cause);
    assert("invalid date "@ + quoted(s) + (" (expected YYYY-MM-DD): "@ + cause) =~= text);
    assert(text.subrange(text.len() - cause.len(), text.len() as int) =~= cause);
}

/// The options mean what they say.
pub proof fn law_options_mean_what_they_say(adjust: AdjustArg, period: PeriodArg)
    ensures
        adjust.meaning() == Adjust::Unadjusted <==> adjust == AdjustArg::Unadjusted,
        adjust.meaning() == Adjust::Pre <==> adjust == AdjustArg::Pre,
        adjust.meaning() == Adjust::Post <==> adjust == AdjustArg::Post,
        period.meaning() == Period::Daily <==> period == PeriodArg::Daily,
        period.meaning() == Period::Weekly <==> period == PeriodArg::Weekly,
        period.meaning() == Period::Monthly <==> period == PeriodArg::Monthly,
{
}

} // verus!
