//! Quotes, and how they are shown.

use vstd::prelude::*;
use vstd::string::*;

use crate::text::{signed_decimal, signed_decimal_string, str_views, views};

verus! {

/// One quote as it is shown: its prices and ratios with two decimals.
#[derive(Debug)]
pub struct QuoteRow {
    pub symbol: String,
    pub name: String,
    pub price: String,
    pub change: String,
    pub pct_change: String,
    pub open: String,
    pub high: String,
    pub low: String,
    pub prev_close: String,
    pub volume: i64,
    pub amount: String,
    pub time: String,
    pub source: &'static str,
}

/// The headers of the table.
pub open spec fn quote_headers() -> Seq<Seq<char>> {
    seq![
        "symbol"@,
        "name"@,
        "price"@,
        "change"@,
        "pct_change"@,
        "open"@,
        "high"@,
        "low"@,
        "prev_close"@,
        "volume"@,
        "amount"@,
        "time"@,
        "source"@,
    ]
}

/// The cells of a row, in the order of the headers.
pub open spec fn quote_cells(r: QuoteRow) -> Seq<Seq<char>> {
    seq![
        r.symbol@,
        r.name@,
        r.price@,
        r.change@,
        r.pct_change@,
        r.open@,
        r.high@,
        r.low@,
        r.prev_close@,
        signed_decimal(r.volume as int),
        r.amount@,
        r.time@,
        r.source@,
    ]
}

impl QuoteRow {
    /// The headers of the table.
    pub fn headers() -> (out: Vec<&'static str>)
        ensures
            str_views(out@) == quote_headers(),
    {
        let out: Vec<&'static str> = vec![
            "symbol",
            "name",
            "price",
            "change",
            "pct_change",
            "open",
            "high",
            "low",
            "prev_close",
            "volume",
            "amount",
            "time",
            "source",
        ];
        proof {
            assert(str_views(out@) =~= quote_headers());
        }
        out
    }

    /// The cells of the row, in the order of the headers.
    pub fn cells(&self) -> (out: Vec<String>)
        ensures
            views(out@) == quote_cells(*self),
    {
        let mut out: Vec<String> = Vec::new();
        out.push(self.symbol.clone());
        out.push(self.name.clone());
        out.push(self.price.clone());
        out.push(self.change.clone());
        out.push(self.pct_change.clone());
        out.push(self.open.clone());
        out.push(self.high.clone());
        out.push(self.low.clone());
        out.push(self.prev_close.clone());
        out.push(signed_decimal_string(self.volume));
        out.push(self.amount.clone());
        out.push(self.time.clone());
        out.push(self.source.to_owned());
        proof {
            assert(views(out@) =~= quote_cells(*self));
        }
        out
    }
}

/// The cell stands under the header.
pub open spec fn quote_cell_under(r: QuoteRow, header: Seq<char>, cell: Seq<char>) -> bool {
    exists|i: int|
        0 <= i < quote_headers().len() && #[trigger] quote_headers()[i] == header && quote_cells(
            r,
        )[i] == cell
}

/// Every cell of a quote stands under its own header.
pub proof fn law_quote_cells_stand_under_their_headers(r: QuoteRow)
    ensures
        quote_headers().len() == quote_cells(r).len(),
        quote_cell_under(r, "symbol"@, r.symbol@),
        quote_cell_under(r, "name"@, r.name@),
        quote_cell_under(r, "price"@, r.price@),
        quote_cell_under(r, "change"@, r.change@),
        quote_cell_under(r, "pct_change"@, r.pct_change@),
        quote_cell_under(r, "open"@, r.open@),
        quote_cell_under(r, "high"@, r.high@),
        quote_cell_under(r, "low"@, r.low@),
        quote_cell_under(r, "prev_close"@, r.prev_close@),
        quote_cell_under(r, "volume"@, signed_decimal(r.volume as int)),
        quote_cell_under(r, "amount"@, r.amount@),
        quote_cell_under(r, "time"@, r.time@),
        quote_cell_under(r, "source"@, r.source@),
{
    let h = quote_headers();
    let c = quote_cells(r);
    assert(h[0] == "symbol"@ && c[0] == r.symbol@);
    assert(h[1] == "name"@ && c[1] == r.name@);
    assert(h[2] == "price"@ && c[2] == r.price@);
    assert(h[3] == "change"@ && c[3] == r.change@);
    assert(h[4] == "pct_change"@ && c[4] == r.pct_change@);
    assert(h[5] == "open"@ && c[5] == r.open@);
    assert(h[6] == "high"@ && c[6] == r.high@);
    assert(h[7] == "low"@ && c[7] == r.low@);
    assert(h[8] == "prev_close"@ && c[8] == r.prev_close@);
    assert(h[9] == "volume"@ && c[9] == signed_decimal(r.volume as int));
    assert(h[10] == "amount"@ && c[10] == r.amount@);
    assert(h[11] == "time"@ && c[11] == r.time@);
    assert(h[12] == "source"@ && c[12] == r.source@);
}

} // verus!
