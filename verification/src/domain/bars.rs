//! Price bars: how they are adjusted, how long they are, what is asked for,
//! and how they are shown.

use vstd::prelude::*;
use vstd::string::*;

use super::symbol::Symbol;
use crate::date::Date;
use crate::text::{signed_decimal, signed_decimal_string, str_views, views};

verus! {

/// How dividends and splits are folded into the prices.
#[derive(Debug, Clone, Copy, PartialEq, Eq, Structural)]
pub enum Adjust {
    Unadjusted,
    Pre,
    Post,
}

/// How much time one bar covers.
#[derive(Debug, Clone, Copy, PartialEq, Eq, Structural)]
pub enum Period {
    Daily,
    Weekly,
    Monthly,
}

impl Adjust {
    pub open spec fn label(self) -> Seq<char> {
        match self {
            Adjust::Unadjusted => "none"@,
            Adjust::Pre => "pre"@,
            Adjust::Post => "post"@,
        }
    }

    pub fn as_str(self) -> (out: &'static str)
        ensures
            out@ == self.label(),
    {
        match self {
            Adjust::Unadjusted => "none",
            Adjust::Pre => "pre",
            Adjust::Post => "post",
        }
    }
}

impl Period {
    pub open spec fn label(self) -> Seq<char> {
        match self {
            Period::Daily => "daily"@,
            Period::Weekly => "weekly"@,
            Period::Monthly => "monthly"@,
        }
    }

    pub fn as_str(self) -> (out: &'static str)
        ensures
            out@ == self.label(),
    {
        match self {
            Period::Daily => "daily",
            Period::Weekly => "weekly",
            Period::Monthly => "monthly",
        }
    }
}

/// One request for bars.
#[derive(Debug)]
pub struct BarsQuery {
    pub symbol: Symbol,
    pub start: Option<Date>,
    pub end: Option<Date>,
    pub limit: Option<usize>,
    pub adjust: Adjust,
    pub period: Period,
}

/// One bar as it is shown: its prices and ratios with two decimals.
#[derive(Debug)]
pub struct BarRow {
    pub symbol: String,
    pub date: String,
    pub open: String,
    pub high: String,
    pub low: String,
    pub close: String,
    pub volume: i64,
    pub amount: String,
    pub pct_change: String,
    pub change: String,
    pub amplitude_pct: String,
    pub adjust: Adjust,
    pub period: Period,
    pub source: &'static str,
}

/// The headers of the table.
pub open spec fn bar_headers() -> Seq<Seq<char>> {
    seq![
        "symbol"@,
        "date"@,
        "open"@,
        "high"@,
        "low"@,
        "close"@,
        "volume"@,
        "amount"@,
        "pct_change"@,
        "change"@,
        "amplitude_pct"@,
        "adjust"@,
        "period"@,
        "source"@,
    ]
}

/// The cells of a row, in the order of the headers.
pub open spec fn bar_cells(r: BarRow) -> Seq<Seq<char>> {
    seq![
        r.symbol@,
        r.date@,
        r.open@,
        r.high@,
        r.low@,
        r.close@,
        signed_decimal(r.volume as int),
        r.amount@,
        r.pct_change@,
        r.change@,
        r.amplitude_pct@,
        r.adjust.label(),
        r.period.label(),
        r.source@,
    ]
}

impl BarRow {
    /// The headers of the table.
    pub fn headers() -> (out: Vec<&'static str>)
        ensures
            str_views(out@) == bar_headers(),
    {
        let out: Vec<&'static str> = vec![
            "symbol",
            "date",
            "open",
            "high",
            "low",
            "close",
            "volume",
            "amount",
            "pct_change",
            "change",
            "amplitude_pct",
            "adjust",
            "period",
            "source",
        ];
        proof {
            assert(str_views(out@) =~= bar_headers());
        }
        out
    }

    /// The cells of the row, in the order of the headers.
    pub fn cells(&self) -> (out: Vec<String>)
        ensures
            views(out@) == bar_cells(*self),
    {
        let mut out: Vec<String> = Vec::new();
        out.push(self.symbol.clone());
        out.push(self.date.clone());
        out.push(self.open.clone());
        out.push(self.high.clone());
        out.push(self.low.clone());
        out.push(self.close.clone());
        out.push(signed_decimal_string(self.volume));
        out.push(self.amount.clone());
        out.push(self.pct_change.clone());
        out.push(self.change.clone());
        out.push(self.amplitude_pct.clone());
        out.push(self.adjust.as_str().to_owned());
        out.push(self.period.as_str().to_owned());
        out.push(self.source.to_owned());
        proof {
            assert(views(out@) =~= bar_cells(*self));
        }
        out
    }
}

/// The cell stands under the header.
pub open spec fn bar_cell_under(r: BarRow, header: Seq<char>, cell: Seq<char>) -> bool {
    exists|i: int|
        0 <= i < bar_headers().len() && #[trigger] bar_headers()[i] == header && bar_cells(r)[i]
            == cell
}

/// Every cell of a bar stands under its own header.
pub proof fn law_bar_cells_stand_under_their_headers(r: BarRow)
    ensures
        bar_headers().len() == bar_cells(r).len(),
        bar_cell_under(r, "symbol"@, r.symbol@),
        bar_cell_under(r, "date"@, r.date@),
        bar_cell_under(r, "open"@, r.open@),
        bar_cell_under(r, "high"@, r.high@),
        bar_cell_under(r, "low"@, r.low@),
        bar_cell_under(r, "close"@, r.close@),
        bar_cell_under(r, "volume"@, signed_decimal(r.volume as int)),
        bar_cell_under(r, "amount"@, r.amount@),
        bar_cell_under(r, "pct_change"@, r.pct_change@),
        bar_cell_under(r, "change"@, r.change@),
        bar_cell_under(r, "amplitude_pct"@, r.amplitude_pct@),
        bar_cell_under(r, "source"@, r.source@),
{
    let h = bar_headers();
    let c = bar_cells(r);
    assert(h[0] == "symbol"@ && c[0] == r.symbol@);
    assert(h[1] == "date"@ && c[1] == r.date@);
    assert(h[2] == "open"@ && c[2] == r.open@);
    assert(h[3] == "high"@ && c[3] == r.high@);
    assert(h[4] == "low"@ && c[4] == r.low@);
    assert(h[5] == "close"@ && c[5] == r.close@);
    assert(h[6] == "volume"@ && c[6] == signed_decimal(r.volume as int));
    assert(h[7] == "amount"@ && c[7] == r.amount@);
    assert(h[8] == "pct_change"@ && c[8] == r.pct_change@);
    assert(h[9] == "change"@ && c[9] == r.change@);
    assert(h[10] == "amplitude_pct"@ && c[10] == r.amplitude_pct@);
    assert(h[13] == "source"@ && c[13] == r.source@);
}

} // verus!
