//! `sift extract`: which pages, which mode, and what the user is told.

use vstd::prelude::*;
use vstd::string::*;

use crate::domain::period::{number_text, parse_number};
use crate::error::{ErrorView, SiftError, concat2, concat3, concat4, concat5};
use crate::fetch::extract::{
    FINE_SEC_PER_BATCH, FastOutput, FineOutcome, PADDLEOCR_BATCH_SIZE, Target, coalesced, eta_secs,
    expanded, format_page_list, ranges_text, run_pages,
};
use crate::order::{ascending, is_sorted_set, sorted_distinct};
use crate::text::{
    chars_of, debug_quoted, decimal, decimal_string, is_digit, join, join_strings,
    lemma_decimal_value, lemma_occurs_between, lemma_split_join, lemma_split_step,
    lemma_split_whole, occurs, quoted, split, split_chars, views,
};

verus! {

/// How pages are extracted.
#[derive(Debug, Clone, Copy, PartialEq, Eq, Structural)]
pub enum Mode {
    /// From the text layer.
    Fast,
    /// By text recognition.
    Fine,
    /// From the text layer, scanned pages by text recognition.
    Auto,
}

/// The arguments of `sift extract`.
#[derive(Debug)]
pub struct ExtractArgs {
    pub target: String,
    pub pages: Option<String>,
    pub mode: Mode,
    pub image_dir: Option<String>,
    pub no_cache: bool,
}

// ---------------------------------------------------------------------------
// Pages
// ---------------------------------------------------------------------------

/// Pages as the user asks for them: in ascending order, each once.
#[derive(Debug, PartialEq, Eq)]
pub struct PageSpec(pub Vec<u32>);

/// The run that one part of a page list names: `7` or `3-9`.
pub open spec fn run_of(s: Seq<char>) -> Option<(u32, u32)> {
    let parts = split(s, '-');
    if parts.len() == 1 {
        match number_text(parts[0], u32::MAX as nat) {
            Some(n) => Some((n as u32, n as u32)),
            None => None,
        }
    } else if parts.len() == 2 {
        match (number_text(parts[0], u32::MAX as nat), number_text(parts[1], u32::MAX as nat)) {
            (Some(lo), Some(hi)) => if lo <= hi {
                Some((lo as u32, hi as u32))
            } else {
                None
            },
            _ => None,
        }
    } else {
        None
    }
}

/// The pages that the parts of a page list name, part by part.
pub open spec fn named_pages(parts: Seq<Seq<char>>) -> Option<Seq<u32>>
    decreases parts.len(),
{
    if parts.len() == 0 {
        Some(Seq::empty())
    } else {
        match (named_pages(parts.drop_last()), run_of(parts.last())) {
            (Some(s), Some(r)) => Some(s + run_pages(r.0, r.1)),
            _ => None,
        }
    }
}

/// The run that one part of a page list names.
fn parse_run(s: &Vec<char>) -> (r: Option<(u32, u32)>)
    ensures
        r == run_of(s@),
        r matches Some(p) ==> p.0 <= p.1,
{
    let parts = split_chars(s, '-');
    let ghost split_parts = split(s@, '-');
    assert(split_parts.len() == parts@.len());
    assert(parts@[0]@ == split_parts[0]);
    if parts.len() == 1 {
        match parse_number(&parts[0], u32::MAX as u64) {
            Some(n) => Some((n as u32, n as u32)),
            None => None,
        }
    } else if parts.len() == 2 {
        assert(parts@[1]@ == split_parts[1]);
        match (parse_number(&parts[0], u32::MAX as u64), parse_number(&parts[1], u32::MAX as u64)) {
            (Some(lo), Some(hi)) => {
                if lo <= hi {
                    Some((lo as u32, hi as u32))
                } else {
                    None
                }
            },
            _ => None,
        }
    } else {
        None
    }
}

impl PageSpec {
    /// Parses pages and runs of pages with commas between them.
    pub fn parse(s: &str) -> (r: Result<PageSpec, SiftError>)
        ensures
            match r {
                Ok(spec) => named_pages(split(s@, ',')) matches Some(pages) && is_sorted_set(
                    pages,
                    spec.0@,
                ),
                Err(e) => named_pages(split(s@, ',')) is None && e@ == ErrorView::Parse(
                    "invalid page list "@ + quoted(s@),
                ),
            },
    {
        let parts = split_chars(&chars_of(s), ',');
        let ghost all = split(s@, ',');
        let mut pages: Vec<u32> = Vec::new();
        let mut i: usize = 0;
        while i < parts.len()
            invariant
                i <= parts@.len() == all.len(),
                all == split(s@, ','),
                forall|k: int| 0 <= k < parts@.len() ==> (#[trigger] parts@[k])@ == all[k],
                named_pages(all.take(i as int)) == Some(pages@),
            decreases parts@.len() - i,
        {
            proof {
                assert(all.take(i as int + 1).drop_last() =~= all.take(i as int));
                assert(all.take(i as int + 1).last() == parts@[i as int]@);
            }
            match parse_run(&parts[i]) {
                Some((lo, hi)) => {
                    push_run(&mut pages, lo, hi);
                },
                None => {
                    proof {
                        lemma_named_pages_fails(all, i as int);
                    }
                    let q = debug_quoted(s);
                    return Err(SiftError::Parse(concat2("invalid page list ", q.as_str())));
                },
            }
            i = i + 1;
        }
        proof {
            assert(all.take(i as int) =~= all);
        }
        Ok(PageSpec(sorted_distinct(pages)))
    }
}

/// A part that names no run spoils the whole list.
proof fn lemma_named_pages_fails(parts: Seq<Seq<char>>, i: int)
    requires
        0 <= i < parts.len(),
        run_of(parts[i]) is None,
    ensures
        named_pages(parts) is None,
    decreases parts.len(),
{
    if i < parts.len() - 1 {
        assert(parts.drop_last()[i] == parts[i]);
        lemma_named_pages_fails(parts.drop_last(), i);
    }
}

/// Adds the pages from `lo` to `hi`.
fn push_run(pages: &mut Vec<u32>, lo: u32, hi: u32)
    requires
        lo <= hi,
    ensures
        final(pages)@ == old(pages)@ + run_pages(lo, hi),
{
    let ghost start = pages@;
    let n: u32 = hi - lo;
    let mut k: u32 = 0;
    while k < n
        invariant
            k <= n,
            n == hi - lo,
            pages@ == start + Seq::new(k as nat, |i: int| (lo + i) as u32),
        decreases n - k,
    {
        pages.push(lo + k);
        proof {
            assert(pages@ =~= start + Seq::new((k + 1) as nat, |i: int| (lo + i) as u32));
        }
        k = k + 1;
    }
    pages.push(hi);
    proof {
        assert(pages@ =~= start + run_pages(lo, hi));
    }
}

/// Two ascending lists of the same pages are the same list.
proof fn lemma_ascending_unique(a: Seq<u32>, b: Seq<u32>)
    requires
        ascending(a),
        ascending(b),
        forall|p: u32| #[trigger] a.contains(p) <==> b.contains(p),
    ensures
        a == b,
{
    let leq = |x: u32, y: u32| x <= y;
    assert(a.no_duplicates());
    assert(b.no_duplicates());
    assert(a.to_multiset() =~= b.to_multiset()) by {
        a.lemma_multiset_has_no_duplicates();
        b.lemma_multiset_has_no_duplicates();
        assert forall|k: u32| #[trigger] a.to_multiset().count(k) == b.to_multiset().count(k) by {
            vstd::seq_lib::to_multiset_contains(a, k);
            vstd::seq_lib::to_multiset_contains(b, k);
            assert(a.contains(k) == b.contains(k));
        }
    }
    assert(vstd::relations::total_ordering(leq));
    vstd::seq_lib::lemma_sorted_unique(a, b, leq);
}

/// The text of a run names that run.
proof fn lemma_run_text(r: (u32, u32))
    requires
        r.0 <= r.1,
    ensures
        run_of(crate::fetch::extract::range_text(r)) == Some(r),
        forall|i: int|
            0 <= i < crate::fetch::extract::range_text(r).len()
                ==> #[trigger] crate::fetch::extract::range_text(r)[i] != ',',
{
    let lo = decimal(r.0 as nat);
    let hi = decimal(r.1 as nat);
    lemma_decimal_value(r.0 as nat);
    lemma_decimal_value(r.1 as nat);
    assert(is_digit(lo[0]));
    assert(is_digit(hi[0]));
    assert forall|i: int| 0 <= i < lo.len() implies lo[i] != '-' && lo[i] != ',' by {
        assert(is_digit(lo[i]));
    }
    assert forall|i: int| 0 <= i < hi.len() implies hi[i] != '-' && hi[i] != ',' by {
        assert(is_digit(hi[i]));
    }
    if r.0 == r.1 {
        lemma_split_whole(lo, '-');
    } else {
        reveal_strlit("-");
        assert("-"@ =~= seq!['-']);
        lemma_split_step(lo, '-', hi);
        lemma_split_whole(hi, '-');
        assert(split(lo + seq!['-'] + hi, '-') =~= seq![lo, hi]);
    }
}

/// The texts of runs name the pages of the runs.
proof fn lemma_runs_named(ranges: Seq<(u32, u32)>)
    requires
        forall|i: int| 0 <= i < ranges.len() ==> (#[trigger] ranges[i]).0 <= ranges[i].1,
    ensures
        named_pages(
            ranges.map_values(|r: (u32, u32)| crate::fetch::extract::range_text(r)),
        ) == Some(expanded(ranges)),
    decreases ranges.len(),
{
    let texts = ranges.map_values(|r: (u32, u32)| crate::fetch::extract::range_text(r));
    if ranges.len() > 0 {
        let init = ranges.drop_last();
        assert forall|i: int| 0 <= i < init.len() implies (#[trigger] init[i]).0 <= init[i].1 by {
            assert(init[i] == ranges[i]);
        }
        lemma_runs_named(init);
        assert(texts.drop_last() =~= init.map_values(
            |r: (u32, u32)| crate::fetch::extract::range_text(r),
        ));
        assert(ranges[ranges.len() - 1].0 <= ranges[ranges.len() - 1].1);
        lemma_run_text(ranges.last());
    }
}

/// The pages that a warning lists can be asked for as they stand there.
pub proof fn law_page_list_reads_back(pages: Seq<u32>, out: Seq<u32>)
    requires
        pages.len() > 0,
        ascending(pages),
        named_pages(split(ranges_text(coalesced(pages)), ',')) matches Some(named) ==> is_sorted_set(
            named,
            out,
        ),
    ensures
        named_pages(split(ranges_text(coalesced(pages)), ',')) is Some,
        out == pages,
{
    let ranges = coalesced(pages);
    let texts = ranges.map_values(|r: (u32, u32)| crate::fetch::extract::range_text(r));
    crate::fetch::extract::law_runs_cover_the_pages(pages);
    reveal_strlit(",");
    assert(","@ =~= seq![',']);
    assert forall|i: int, j: int| 0 <= i < texts.len() && 0 <= j < texts[i].len() implies (
    #[trigger] texts[i][j]) != ',' by {
        assert(ranges[i].0 <= ranges[i].1);
        lemma_run_text(ranges[i]);
    }
    lemma_split_join(texts, ',');
    lemma_runs_named(ranges);
    lemma_ascending_unique(pages, out);
}

/// A page list is read if every part of it names a run, and names a page exactly
/// if one of the runs holds it: its first page is not above it and its last not
/// below it.
pub proof fn law_a_page_is_named_by_a_run_that_holds_it(parts: Seq<Seq<char>>, p: u32)
    ensures
        named_pages(parts) is Some <==> forall|i: int|
            0 <= i < parts.len() ==> run_of(#[trigger] parts[i]) is Some,
        named_pages(parts) matches Some(pages) ==> (pages.contains(p) <==> exists|i: int|
            0 <= i < parts.len() && (run_of(#[trigger] parts[i]) matches Some(r) && r.0 <= p
                <= r.1)),
    decreases parts.len(),
{
    if parts.len() > 0 {
        let d = parts.drop_last();
        law_a_page_is_named_by_a_run_that_holds_it(d, p);
        if named_pages(parts) is None {
            if run_of(parts.last()) is None {
                assert(run_of(parts[parts.len() - 1]) is None);
            } else {
                let i = choose|i: int| 0 <= i < d.len() && run_of(#[trigger] d[i]) is None;
                assert(run_of(parts[i]) is None);
            }
        } else {
            let before = named_pages(d)->0;
            let r = run_of(parts.last())->0;
            let own = run_pages(r.0, r.1);
            let all = before + own;
            assert forall|i: int| 0 <= i < parts.len() implies run_of(
                #[trigger] parts[i],
            ) is Some by {
                if i < d.len() {
                    assert(run_of(d[i]) is Some);
                }
            }
            assert(own.contains(p) <==> r.0 <= p <= r.1) by {
                if r.0 <= p <= r.1 {
                    assert(own[p - r.0] == p);
                }
            }
            if all.contains(p) {
                let k = choose|k: int| 0 <= k < all.len() && all[k] == p;
                if k < before.len() {
                    assert(before[k] == p);
                    assert(before.contains(p));
                    let i = choose|i: int|
                        0 <= i < d.len() && (run_of(#[trigger] d[i]) matches Some(r) && r.0 <= p
                            <= r.1);
                    assert(run_of(parts[i]) == run_of(d[i]));
                } else {
                    assert(own[k - before.len()] == p);
                    assert(run_of(parts[parts.len() - 1]) == Some(r));
                }
            }
            if exists|i: int|
                0 <= i < parts.len() && (run_of(#[trigger] parts[i]) matches Some(r) && r.0 <= p
                    <= r.1) {
                let i = choose|i: int|
                    0 <= i < parts.len() && (run_of(#[trigger] parts[i]) matches Some(r) && r.0 <= p
                        <= r.1);
                if i < d.len() {
                    assert(run_of(d[i]) == run_of(parts[i]));
                    let k = choose|k: int| 0 <= k < before.len() && before[k] == p;
                    assert(all[k] == p);
                } else {
                    let k = choose|k: int| 0 <= k < own.len() && own[k] == p;
                    assert(all[before.len() + k] == p);
                }
            }
        }
    }
}

/// Two numbers with a hyphen between them name the run from the one to the other,
/// unless the first is the greater; one number alone names its page.
pub proof fn law_a_run_reads_as_written(a: u32, b: u32)
    ensures
        run_of(decimal(a as nat)) == Some((a, a)),
        run_of(decimal(a as nat) + "-"@ + decimal(b as nat)) == (if a <= b {
            Some((a, b))
        } else {
            None
        }),
{
    let x = decimal(a as nat);
    let y = decimal(b as nat);
    lemma_decimal_value(a as nat);
    lemma_decimal_value(b as nat);
    reveal_strlit("-");
    assert("-"@ =~= seq!['-']);
    assert forall|i: int| 0 <= i < x.len() implies x[i] != '-' by {
        assert(is_digit(x[i]));
    }
    assert forall|i: int| 0 <= i < y.len() implies y[i] != '-' by {
        assert(is_digit(y[i]));
    }
    lemma_split_whole(x, '-');
    lemma_split_whole(y, '-');
    lemma_split_step(x, '-', y);
    assert(is_digit(x[0]) && is_digit(y[0]));
    assert(number_text(x, u32::MAX as nat) == Some(a as nat));
    assert(number_text(y, u32::MAX as nat) == Some(b as nat));
    assert(split(x + "-"@ + y, '-') =~= seq![x, y]);
}

/// All the pages of a document.
pub open spec fn whole_document(page_count: u32) -> Seq<u32> {
    Seq::new(page_count as nat, |i: int| (i + 1) as u32)
}

/// A whole document has the pages from the first to the last, in order.
pub proof fn law_a_whole_document_has_every_page(page_count: u32, p: u32, i: int)
    ensures
        whole_document(page_count).len() == page_count,
        whole_document(page_count).contains(p) <==> 1 <= p <= page_count,
        0 <= i < page_count ==> whole_document(page_count)[i] == i + 1,
{
    if 1 <= p <= page_count {
        assert(whole_document(page_count)[p - 1] == p);
    }
}

/// The pages asked for, or all of them.
pub fn resolve_page_list(pages_opt: Option<PageSpec>, page_count: u32) -> (out: Vec<u32>)
    ensures
        out@ == (match pages_opt {
            Some(spec) => spec.0@,
            None => whole_document(page_count),
        }),
{
    match pages_opt {
        Some(spec) => spec.0,
        None => {
            let mut out: Vec<u32> = Vec::new();
            let mut p: u32 = 0;
            while p < page_count
                invariant
                    p <= page_count,
                    out@ == whole_document(p),
                decreases page_count - p,
            {
                p = p + 1;
                out.push(p);
                proof {
                    assert(out@ =~= whole_document(p));
                }
            }
            out
        },
    }
}

/// Whether the pages are all the pages of a document that has some.
pub fn pages_opt_was_none(pages: &[u32], page_count: u32) -> (r: bool)
    ensures
        r == (page_count > 0 && pages@ == whole_document(page_count)),
{
    if page_count == 0 || pages.len() as u64 != page_count as u64 {
        return false;
    }
    let mut i: usize = 0;
    while i < pages.len()
        invariant
            i <= pages@.len() == page_count,
            forall|k: int| 0 <= k < i ==> #[trigger] pages@[k] == k + 1,
        decreases pages@.len() - i,
    {
        if pages[i] as u64 != i as u64 + 1 {
            proof {
                assert(whole_document(page_count)[i as int] == i + 1);
            }
            return false;
        }
        i = i + 1;
    }
    proof {
        assert(pages@ =~= whole_document(page_count));
    }
    true
}

// ---------------------------------------------------------------------------
// Sizes
// ---------------------------------------------------------------------------

/// `n / d` rounded to the nearest integer, ties to the even one.
pub open spec fn half_even(n: nat, d: nat) -> nat {
    let q = n / d;
    let r = n % d;
    if 2 * r > d || (2 * r == d && q % 2 == 1) {
        q + 1
    } else {
        q
    }
}

/// The distance between the doubles around `n`, starting the search at `unit`:
/// a double has 53 bits.
pub open spec fn double_step(n: nat, unit: nat) -> nat
    decreases n - unit,
{
    if unit == 0 || n < 0x20000000000000 * unit {
        unit
    } else {
        double_step(n, 2 * unit)
    }
}

/// The double nearest to `n`.
pub open spec fn nearest_double(n: nat) -> nat {
    let step = double_step(n, 1);
    half_even(n, step) * step
}

/// `bytes` in units of `unit` with one digit behind the point.
pub open spec fn scaled(bytes: nat, unit: nat) -> Seq<char> {
    let tenths = half_even(nearest_double(bytes) * 10, unit);
    decimal(tenths / 10) + "."@ + decimal(tenths % 10)
}

/// A size for people.
pub open spec fn size_text(bytes: nat) -> Seq<char> {
    if bytes >= 1073741824 {
        scaled(bytes, 1073741824) + " GB"@
    } else if bytes >= 1048576 {
        scaled(bytes, 1048576) + " MB"@
    } else if bytes >= 1024 {
        scaled(bytes, 1024) + " KB"@
    } else {
        decimal(bytes) + " B"@
    }
}

/// A rounded quotient is off by no more than a half, and by a half only if it is
/// even.
pub proof fn law_rounding_is_to_the_nearest(n: nat, d: nat)
    requires
        d > 0,
    ensures
        2 * (half_even(n, d) * d) <= 2 * n + d,
        2 * n <= 2 * (half_even(n, d) * d) + d,
        2 * (half_even(n, d) * d) == 2 * n + d || 2 * n == 2 * (half_even(n, d) * d) + d
            ==> half_even(n, d) % 2 == 0,
{
    let q = n / d;
    let r = n % d;
    assert(n == q * d + r && 0 <= r < d) by (nonlinear_arith)
        requires
            d > 0,
            q == n / d,
            r == n % d,
    ;
    assert((q + 1) * d == q * d + d) by (nonlinear_arith);
}

/// A whole number below 2 to the power 53 is its own double.
pub proof fn law_small_numbers_are_doubles(n: nat)
    requires
        n < 0x20000000000000,
    ensures
        nearest_double(n) == n,
{
    assert(n / 1 == n && n % 1 == 0);
    assert(double_step(n, 1) == 1);
}

/// A whole number of units is shown as such, in the greatest unit of which it is at
/// least one: bytes below 1024, then KB, MB and GB.
pub proof fn law_whole_units_are_shown_whole(k: nat)
    requires
        0 < k < 1024,
    ensures
        size_text(k) == decimal(k) + " B"@,
        size_text(k * 1024) == decimal(k) + ".0 KB"@,
        size_text(k * 1048576) == decimal(k) + ".0 MB"@,
        size_text(k * 1073741824) == decimal(k) + ".0 GB"@,
{
    lemma_scaled(k, 1024);
    lemma_scaled(k, 1048576);
    lemma_scaled(k, 1073741824);
    reveal_strlit(".0");
    reveal_strlit(" KB");
    reveal_strlit(" MB");
    reveal_strlit(" GB");
    reveal_strlit(".0 KB");
    reveal_strlit(".0 MB");
    reveal_strlit(".0 GB");
    assert(".0"@ + " KB"@ =~= ".0 KB"@);
    assert(".0"@ + " MB"@ =~= ".0 MB"@);
    assert(".0"@ + " GB"@ =~= ".0 GB"@);
    assert(decimal(k) + ".0"@ + " KB"@ =~= decimal(k) + ".0 KB"@);
    assert(decimal(k) + ".0"@ + " MB"@ =~= decimal(k) + ".0 MB"@);
    assert(decimal(k) + ".0"@ + " GB"@ =~= decimal(k) + ".0 GB"@);
}

proof fn lemma_scaled(k: nat, unit: nat)
    requires
        0 < k < 1024,
        unit == 1024 || unit == 1048576 || unit == 1073741824,
    ensures
        scaled(k * unit, unit) == decimal(k) + ".0"@,
{
    let bytes = k * unit;
    assert(bytes < 0x20000000000000) by (nonlinear_arith)
        requires
            bytes == k * unit,
            k < 1024,
            unit <= 1073741824,
    ;
    law_small_numbers_are_doubles(bytes);
    let n = bytes * 10;
    assert(n == (10 * k) * unit) by (nonlinear_arith)
        requires
            n == bytes * 10,
            bytes == k * unit,
    ;
    assert(n / unit == 10 * k && n % unit == 0) by (nonlinear_arith)
        requires
            n == (10 * k) * unit,
            unit > 0,
    ;
    assert(half_even(n, unit) == 10 * k);
    reveal_strlit(".");
    reveal_strlit(".0");
    assert(decimal(0) =~= seq!['0']);
    assert("."@ + decimal(0) =~= ".0"@);
    assert(decimal(k) + "."@ + decimal(0) =~= decimal(k) + ".0"@);
}

/// A double has 53 bits: the distance between neighbours is the least power of two
/// with which they reach the number, and the nearest double is a multiple of it
/// that is off by no more than half of it.
pub proof fn law_doubles_have_fifty_three_bits(n: nat)
    ensures
        ({
            let step = double_step(n, 1);
            &&& step >= 1
            &&& n < 0x20000000000000 * step
            &&& step > 1 ==> n >= 0x10000000000000 * step
            &&& exists|m: nat| nearest_double(n) == #[trigger] (m * step)
            &&& 2 * nearest_double(n) <= 2 * n + step
            &&& 2 * n <= 2 * nearest_double(n) + step
        }),
{
    lemma_double_step(n, 1);
    let step = double_step(n, 1);
    law_rounding_is_to_the_nearest(n, step);
    assert(nearest_double(n) == half_even(n, step) * step);
}

proof fn lemma_double_step(n: nat, unit: nat)
    requires
        unit >= 1,
    ensures
        double_step(n, unit) >= unit,
        n < 0x20000000000000 * double_step(n, unit),
        double_step(n, unit) > unit ==> n >= 0x10000000000000 * double_step(n, unit),
    decreases n - unit,
{
    if n >= 0x20000000000000 * unit {
        lemma_double_step(n, 2 * unit);
    }
}

/// `n / d` rounded to the nearest integer, ties to the even one.
fn round_half_even(n: u128, d: u128) -> (r: u128)
    requires
        0 < d <= 0x1_0000_0000_0000_0000,
        n <= 0x1_0000_0000_0000_0000_0000,
    ensures
        r == half_even(n as nat, d as nat),
        r <= n + 1,
{
    let q: u128 = n / d;
    let m: u128 = n % d;
    proof {
        assert(q <= n) by (nonlinear_arith)
            requires
                q == n / d,
                d > 0,
        ;
    }
    if 2 * m > d || (2 * m == d && q % 2 == 1) {
        q + 1
    } else {
        q
    }
}

/// The double nearest to `n`.
fn as_double(n: u64) -> (r: u128)
    ensures
        r == nearest_double(n as nat),
        r <= 0x1_0000_0000_0000_0000,
{
    let wide: u128 = n as u128;
    let mut unit: u128 = 1;
    while wide >= 0x20000000000000 * unit
        invariant
            wide == n,
            1 <= unit <= 0x1000,
            double_step(n as nat, 1) == double_step(n as nat, unit as nat),
            unit == 1 || unit == 2 || unit == 4 || unit == 8 || unit == 16 || unit == 32 || unit
                == 64 || unit == 128 || unit == 256 || unit == 512 || unit == 1024 || unit == 2048,
        decreases wide - unit,
    {
        unit = unit * 2;
    }
    let q = round_half_even(wide, unit);
    proof {
        assert(q <= 0x20000000000000);
        assert(q * unit <= 0x1_0000_0000_0000_0000) by (nonlinear_arith)
            requires
                q <= 0x20000000000000,
                unit <= 2048,
        ;
    }
    q * unit
}

/// `bytes` in units of `unit` with one digit behind the point.
fn scaled_text(bytes: u64, unit: u64) -> (out: String)
    requires
        1024 <= unit <= 1073741824,
    ensures
        out@ == scaled(bytes as nat, unit as nat),
{
    let d: u128 = as_double(bytes);
    let tenths: u128 = round_half_even(d * 10, unit as u128);
    proof {
        let n = (d * 10) as nat;
        assert(n / (unit as nat) <= n / 1024) by (nonlinear_arith)
            requires
                unit >= 1024,
        ;
        assert(tenths <= 200_000_000_000_000_000);
    }
    let whole = decimal_string((tenths / 10) as u64);
    let tenth = decimal_string((tenths % 10) as u64);
    concat3(whole.as_str(), ".", tenth.as_str())
}

/// A size for people: whole bytes, or KB, MB and GB with one digit behind the
/// point.
pub fn human_size(bytes: u64) -> (out: String)
    ensures
        out@ == size_text(bytes as nat),
{
    if bytes >= 1073741824 {
        concat2(scaled_text(bytes, 1073741824).as_str(), " GB")
    } else if bytes >= 1048576 {
        concat2(scaled_text(bytes, 1048576).as_str(), " MB")
    } else if bytes >= 1024 {
        concat2(scaled_text(bytes, 1024).as_str(), " KB")
    } else {
        concat2(decimal_string(bytes).as_str(), " B")
    }
}

// ---------------------------------------------------------------------------
// What the user is told before the pages
// ---------------------------------------------------------------------------

pub open spec fn yes_no(b: bool) -> Seq<char> {
    if b {
        "yes"@
    } else {
        "no"@
    }
}

/// `yes` or `no`.
fn yes_or_no(b: bool) -> (out: &'static str)
    ensures
        out@ == yes_no(b),
{
    if b {
        "yes"
    } else {
        "no"
    }
}

/// The lines above the pages, down to the hint.
pub open spec fn header_lines(
    target: Target,
    cache_path: Option<Seq<char>>,
    cached: bool,
    pdf_path: Seq<char>,
    page_count: u32,
    size_bytes: u64,
    has_text: bool,
    chars_per_page: u64,
) -> Seq<Seq<char>> {
    let head = match target {
        Target::AnnouncementId(id) => seq![
            "[info] target      "@ + id@,
            "[info] cached      "@ + (match cache_path {
                Some(p) => p,
                None => "<cache disabled>"@,
            }) + "  ("@ + yes_no(cached) + ")"@,
        ],
        Target::LocalPdf(_) => seq!["[info] file        "@ + pdf_path],
    };
    head + seq![
        "[info] pages       "@ + decimal(page_count as nat),
        "[info] size        "@ + size_text(size_bytes as nat),
        "[info] text_layer  "@ + yes_no(has_text) + " (avg "@ + decimal(chars_per_page as nat)
            + " chars/page)"@,
        "[info] hint        "@ + (if has_text {
            "all pages have text layer; --mode fast should work"@
        } else {
            "some pages may be scanned; consider --mode auto"@
        }),
    ]
}

/// The lines above the pages tell the id of an announcement or the path of a file
/// first, then the number of pages and the size, each at the end of its line; and
/// the hint at the end speaks of fast mode exactly if there is a text layer.
pub proof fn law_the_header_tells_pages_and_size(
    target: Target,
    cache_path: Option<Seq<char>>,
    cached: bool,
    pdf_path: Seq<char>,
    page_count: u32,
    size_bytes: u64,
    has_text: bool,
    chars_per_page: u64,
)
    ensures
        ({
            let lines = header_lines(
                target,
                cache_path,
                cached,
                pdf_path,
                page_count,
                size_bytes,
                has_text,
                chars_per_page,
            );
            let n = lines.len();
            &&& n == (if target is AnnouncementId {
                6nat
            } else {
                5
            })
            &&& target matches Target::AnnouncementId(id) ==> id@.is_suffix_of(lines[0])
            &&& target is LocalPdf ==> pdf_path.is_suffix_of(lines[0])
            &&& decimal(page_count as nat).is_suffix_of(lines[n - 4])
            &&& size_text(size_bytes as nat).is_suffix_of(lines[n - 3])
            &&& has_text ==> "--mode fast should work"@.is_suffix_of(lines[n - 1])
            &&& !has_text ==> "--mode auto"@.is_suffix_of(lines[n - 1])
        }),
{
    let lines = header_lines(
        target,
        cache_path,
        cached,
        pdf_path,
        page_count,
        size_bytes,
        has_text,
        chars_per_page,
    );
    let n = lines.len();
    lemma_ends_with("[info] file        "@, pdf_path);
    if target is AnnouncementId {
        lemma_ends_with("[info] target      "@, target->AnnouncementId_0@);
    }
    lemma_ends_with("[info] pages       "@, decimal(page_count as nat));
    lemma_ends_with("[info] size        "@, size_text(size_bytes as nat));
    reveal_strlit("all pages have text layer; --mode fast should work");
    reveal_strlit("some pages may be scanned; consider --mode auto");
    reveal_strlit("--mode fast should work");
    reveal_strlit("--mode auto");
    let hint = lines[n - 1];
    if has_text {
        let end = "--mode fast should work"@;
        assert(hint.subrange(hint.len() - end.len(), hint.len() as int) =~= end);
    } else {
        let end = "--mode auto"@;
        assert(hint.subrange(hint.len() - end.len(), hint.len() as int) =~= end);
    }
}

proof fn lemma_ends_with(a: Seq<char>, b: Seq<char>)
    ensures
        b.is_suffix_of(a + b),
{
    let s = a + b;
    assert(s.subrange(s.len() - b.len(), s.len() as int) =~= b);
}

/// The lines above the pages: the target, its size, its text layer and a hint.
pub fn info_header(
    target: &Target,
    cache_path: Option<&str>,
    cached: bool,
    pdf_path: &str,
    page_count: u32,
    size_bytes: u64,
    has_text: bool,
    chars_per_page: u64,
) -> (lines: Vec<String>)
    ensures
        views(lines@) == header_lines(
            *target,
            match cache_path {
                Some(p) => Some(p@),
                None => None,
            },
            cached,
            pdf_path@,
            page_count,
            size_bytes,
            has_text,
            chars_per_page,
        ),
{
    let mut lines: Vec<String> = Vec::new();
    match target {
        Target::AnnouncementId(id) => {
            lines.push(concat2("[info] target      ", id.as_str()));
            let label = match cache_path {
                Some(p) => p,
                None => "<cache disabled>",
            };
            lines.push(concat5("[info] cached      ", label, "  (", yes_or_no(cached), ")"));
        },
        Target::LocalPdf(_) => {
            lines.push(concat2("[info] file        ", pdf_path));
        },
    }
    lines.push(concat2("[info] pages       ", decimal_string(page_count as u64).as_str()));
    lines.push(concat2("[info] size        ", human_size(size_bytes).as_str()));
    lines.push(
        concat5(
            "[info] text_layer  ",
            yes_or_no(has_text),
            " (avg ",
            decimal_string(chars_per_page).as_str(),
            " chars/page)",
        ),
    );
    let hint = if has_text {
        "all pages have text layer; --mode fast should work"
    } else {
        "some pages may be scanned; consider --mode auto"
    };
    lines.push(concat2("[info] hint        ", hint));
    proof {
        assert(views(lines@) =~= header_lines(
            *target,
            match cache_path {
                Some(p) => Some(p@),
                None => None,
            },
            cached,
            pdf_path@,
            page_count,
            size_bytes,
            has_text,
            chars_per_page,
        ));
    }
    lines
}

/// What else the user is told before the pages, by mode: where the images of a
/// local file go by default, that a whole document is extracted, and that the
/// texts of a local file are not kept.
pub open spec fn notice_lines(
    mode: Mode,
    target: Target,
    default_dir: bool,
    image_dir: Seq<char>,
    pages: Seq<u32>,
    page_count: u32,
) -> Seq<Seq<char>> {
    let dir = if default_dir && target is LocalPdf {
        seq!["[info] image_dir   "@ + image_dir]
    } else {
        Seq::empty()
    };
    let more = if mode == Mode::Fast && page_count > 0 && pages == whole_document(page_count) {
        seq![
            "[warn] extracting full document ("@ + decimal(page_count as nat)
                + " pages); pass --pages to limit scope"@,
        ]
    } else if mode == Mode::Fine && target is LocalPdf {
        seq!["[info] cache=disabled (local PDF without announcement_id)"@]
    } else {
        Seq::empty()
    };
    dir + more
}

/// Where images go is told for a local file and the default directory alone; a
/// directory that the user named is not told, nor is that of an announcement.
pub proof fn law_only_a_default_directory_is_told(
    mode: Mode,
    target: Target,
    a: Seq<char>,
    b: Seq<char>,
    pages: Seq<u32>,
    page_count: u32,
)
    ensures
        notice_lines(mode, target, false, a, pages, page_count) == notice_lines(
            mode,
            target,
            false,
            b,
            pages,
            page_count,
        ),
        target is AnnouncementId ==> notice_lines(mode, target, true, a, pages, page_count)
            == notice_lines(mode, target, false, a, pages, page_count),
        target is LocalPdf ==> notice_lines(mode, target, true, a, pages, page_count).len()
            == notice_lines(mode, target, false, a, pages, page_count).len() + 1 && a.is_suffix_of(
            notice_lines(mode, target, true, a, pages, page_count)[0],
        ),
{
    let line = "[info] image_dir   "@ + a;
    assert(line.subrange(line.len() - a.len(), line.len() as int) =~= a);
}

/// What else the user is told before the pages.
pub fn notices(
    mode: Mode,
    target: &Target,
    default_dir: bool,
    image_dir: &str,
    pages: &[u32],
    page_count: u32,
) -> (lines: Vec<String>)
    ensures
        views(lines@) == notice_lines(mode, *target, default_dir, image_dir@, pages@, page_count),
{
    let mut lines: Vec<String> = Vec::new();
    let local = match target {
        Target::LocalPdf(_) => true,
        Target::AnnouncementId(_) => false,
    };
    if default_dir && local {
        lines.push(concat2("[info] image_dir   ", image_dir));
    }
    if mode == Mode::Fast {
        if pages_opt_was_none(pages, page_count) {
            lines.push(
                concat3(
                    "[warn] extracting full document (",
                    decimal_string(page_count as u64).as_str(),
                    " pages); pass --pages to limit scope",
                ),
            );
        }
    } else if mode == Mode::Fine && local {
        lines.push("[info] cache=disabled (local PDF without announcement_id)".to_owned());
    }
    proof {
        assert(views(lines@) =~= notice_lines(
            mode,
            *target,
            default_dir,
            image_dir@,
            pages@,
            page_count,
        ));
    }
    lines
}

// ---------------------------------------------------------------------------
// Standard output
// ---------------------------------------------------------------------------

/// The pages that are not empty, each with a line end, a blank line between
/// them.
pub open spec fn output_text(pages: Seq<Seq<char>>) -> Seq<char>
    decreases pages.len(),
{
    if pages.len() == 0 {
        Seq::empty()
    } else {
        let before = output_text(pages.drop_last());
        let page = pages.last();
        if page.len() == 0 {
            before
        } else if before.len() == 0 {
            page + "\n"@
        } else {
            before + "\n"@ + page + "\n"@
        }
    }
}

/// Standard output gets every page that is not empty, in order, with a blank line
/// between neighbours and a line end behind the last; where all are empty it gets
/// nothing.
pub proof fn law_output_joins_the_pages(pages: Seq<Seq<char>>)
    ensures
        ({
            let shown = pages.filter(|p: Seq<char>| p.len() > 0);
            output_text(pages) == (if shown.len() == 0 {
                Seq::empty()
            } else {
                join(shown, "\n\n"@) + "\n"@
            })
        }),
    decreases pages.len(),
{
    reveal(Seq::filter);
    let wanted = |p: Seq<char>| p.len() > 0;
    let shown = pages.filter(wanted);
    if pages.len() > 0 {
        let d = pages.drop_last();
        let before = d.filter(wanted);
        let page = pages.last();
        law_output_joins_the_pages(d);
        reveal_strlit("\n");
        reveal_strlit("\n\n");
        assert("\n\n"@ =~= "\n"@ + "\n"@);
        if page.len() > 0 {
            assert(shown == before.push(page));
            assert(shown.drop_last() =~= before);
            if before.len() == 0 {
                assert(shown[0] == page);
            } else {
                assert(output_text(d).len() > 0);
                assert(join(shown, "\n\n"@) == join(before, "\n\n"@) + "\n\n"@ + page);
                assert(output_text(pages) =~= join(before, "\n\n"@) + "\n\n"@ + page + "\n"@);
            }
        } else {
            assert(shown == before);
        }
    }
}

/// What goes to standard output.
pub fn stdout_text(pages: &Vec<String>) -> (out: String)
    ensures
        out@ == output_text(views(pages@)),
{
    let mut out = String::new();
    let mut first = true;
    let mut i: usize = 0;
    let ghost all = views(pages@);
    proof {
        reveal_strlit("\n");
    }
    while i < pages.len()
        invariant
            i <= pages@.len(),
            all == views(pages@),
            out@ == output_text(all.take(i as int)),
            first == (out@.len() == 0),
            "\n"@.len() == 1,
        decreases pages@.len() - i,
    {
        proof {
            assert(all.take(i as int + 1).drop_last() =~= all.take(i as int));
            assert(all.take(i as int + 1).last() == pages@[i as int]@);
        }
        if !pages[i].as_str().is_empty() {
            let ghost before = out@;
            if !first {
                out.append("\n");
            }
            first = false;
            out.append(pages[i].as_str());
            out.append("\n");
            proof {
                assert(Seq::<char>::empty() + pages@[i as int]@ =~= pages@[i as int]@);
                if before.len() == 0 {
                    assert(before =~= Seq::<char>::empty());
                }
            }
        }
        i = i + 1;
    }
    proof {
        assert(all.take(i as int) =~= all);
    }
    out
}

// ---------------------------------------------------------------------------
// Fine mode
// ---------------------------------------------------------------------------

/// The line on what text recognition did and cost.
pub open spec fn budget_text(o: FineOutcome) -> Seq<char> {
    "[fine] backend="@ + o.backend@ + " cached "@ + decimal(o.cached_n as nat) + " / API "@
        + decimal(o.api_n as nat) + " pages ("@ + decimal(o.batches as nat) + " batch"@ + (
    if o.batches == 1 {
        ""@
    } else {
        "es"@
    }) + "); eta ~"@ + decimal(o.eta_secs as nat) + "s, billed per call"@
}

/// The line on what text recognition did and cost.
pub fn fine_budget_line(o: &FineOutcome) -> (out: String)
    ensures
        out@ == budget_text(*o),
{
    let mut out = concat4(
        "[fine] backend=",
        o.backend,
        " cached ",
        decimal_string(o.cached_n as u64).as_str(),
    );
    out.append(" / API ");
    out.append(decimal_string(o.api_n as u64).as_str());
    out.append(" pages (");
    out.append(decimal_string(o.batches as u64).as_str());
    out.append(" batch");
    out.append(if o.batches == 1 { "" } else { "es" });
    out.append("); eta ~");
    out.append(decimal_string(o.eta_secs).as_str());
    out.append("s, billed per call");
    out
}

/// The line on text recognition tells how many pages came from the cache and how
/// many were sent off, in how many batches.
pub proof fn law_the_budget_tells_the_counts(o: FineOutcome)
    ensures
        occurs(
            budget_text(o),
            " cached "@ + decimal(o.cached_n as nat) + " / API "@ + decimal(o.api_n as nat)
                + " pages ("@ + decimal(o.batches as nat) + " batch"@,
        ),
        o.backend@.len() > 0 ==> occurs(budget_text(o), o.backend@),
{
    let said = " cached "@ + decimal(o.cached_n as nat) + " / API "@ + decimal(o.api_n as nat)
        + " pages ("@ + decimal(o.batches as nat) + " batch"@;
    let head = "[fine] backend="@ + o.backend@;
    let more = if o.batches == 1 {
        ""@
    } else {
        "es"@
    };
    let tail = more + "); eta ~"@ + decimal(o.eta_secs as nat) + "s, billed per call"@;
    lemma_occurs_between(head, said, tail);
    assert(head + said + tail =~= budget_text(o));
    lemma_occurs_between("[fine] backend="@, o.backend@, said + tail);
    assert("[fine] backend="@ + o.backend@ + (said + tail) =~= budget_text(o));
}

/// Numbers with commas between them.
pub open spec fn numbers_text(pages: Seq<u32>) -> Seq<char> {
    join(pages.map_values(|p: u32| decimal(p as nat)), ","@)
}

/// The numbers of a list can be read from it: between commas stand the numbers, in
/// their order.
pub proof fn law_numbers_stand_between_commas(pages: Seq<u32>)
    requires
        pages.len() > 0,
    ensures
        split(numbers_text(pages), ',').len() == pages.len(),
        forall|i: int|
            0 <= i < pages.len() ==> #[trigger] split(numbers_text(pages), ',')[i] == decimal(
                pages[i] as nat,
            ),
{
    let parts = pages.map_values(|p: u32| decimal(p as nat));
    reveal_strlit(",");
    assert(","@ =~= seq![',']);
    assert forall|i: int, j: int| 0 <= i < parts.len() && 0 <= j < parts[i].len() implies (
    #[trigger] parts[i][j]) != ',' by {
        lemma_decimal_value(pages[i] as nat);
        assert(is_digit(decimal(pages[i] as nat)[j]));
    }
    lemma_split_join(parts, ',');
}

fn numbers_string(pages: &Vec<u32>) -> (out: String)
    ensures
        out@ == numbers_text(pages@),
{
    let mut parts: Vec<String> = Vec::new();
    let mut i: usize = 0;
    while i < pages.len()
        invariant
            i <= pages@.len(),
            parts@.len() == i,
            forall|k: int| 0 <= k < i ==> (#[trigger] parts@[k])@ == decimal(pages@[k] as nat),
        decreases pages@.len() - i,
    {
        parts.push(decimal_string(pages[i] as u64));
        i = i + 1;
    }
    proof {
        assert(views(parts@) =~= pages@.map_values(|p: u32| decimal(p as nat)));
    }
    join_strings(&parts, ",")
}

/// One line for each reason.
pub open spec fn cause_lines(reasons: Seq<Seq<char>>) -> Seq<Seq<char>> {
    reasons.map_values(|r: Seq<char>| "[fine] cause: "@ + r)
}

/// Adds one line for each reason.
fn push_causes(lines: &mut Vec<String>, reasons: &Vec<String>)
    ensures
        views(final(lines)@) == views(old(lines)@) + cause_lines(views(reasons@)),
{
    let ghost start = views(lines@);
    let mut i: usize = 0;
    while i < reasons.len()
        invariant
            i <= reasons@.len(),
            views(lines@) == start + cause_lines(views(reasons@).take(i as int)),
        decreases reasons@.len() - i,
    {
        let ghost before = views(lines@);
        lines.push(concat2("[fine] cause: ", reasons[i].as_str()));
        proof {
            assert(views(lines@) =~= before.push(lines@.last()@));
            assert(views(lines@) =~= start + cause_lines(views(reasons@).take(i as int + 1)));
        }
        i = i + 1;
    }
    proof {
        assert(views(reasons@).take(i as int) =~= views(reasons@));
    }
}

/// The lines on pages that failed and why; none if none did.
pub open spec fn fine_failures(o: FineOutcome) -> Seq<Seq<char>> {
    if o.failed@.len() == 0 {
        Seq::empty()
    } else {
        seq![
            "[fine] "@ + decimal(o.failed@.len()) + " page(s) failed: "@ + numbers_text(o.failed@),
        ] + cause_lines(views(o.failure_reasons@))
    }
}

/// Where pages failed, the first line tells how many and which, and one line
/// follows for each reason, which holds it; where none failed there is no line.
pub proof fn law_failed_pages_and_reasons_are_told(o: FineOutcome, i: int)
    requires
        0 <= i < o.failure_reasons@.len(),
    ensures
        o.failed@.len() == 0 ==> fine_failures(o).len() == 0,
        o.failed@.len() > 0 ==> {
            &&& fine_failures(o).len() == 1 + o.failure_reasons@.len()
            &&& occurs(fine_failures(o)[0], decimal(o.failed@.len()) + " page(s) failed: "@)
            &&& numbers_text(o.failed@).is_suffix_of(fine_failures(o)[0])
            &&& o.failure_reasons@[i]@.is_suffix_of(fine_failures(o)[i + 1])
        },
{
    if o.failed@.len() > 0 {
        let head = decimal(o.failed@.len()) + " page(s) failed: "@;
        let first = fine_failures(o)[0];
        let numbers = numbers_text(o.failed@);
        assert("[fine] "@ + head + numbers =~= first);
        lemma_occurs_between("[fine] "@, head, numbers);
        assert(first.subrange(first.len() - numbers.len(), first.len() as int) =~= numbers);
        let reason = o.failure_reasons@[i]@;
        let line = fine_failures(o)[i + 1];
        assert(line == "[fine] cause: "@ + reason);
        assert(line.subrange(line.len() - reason.len(), line.len() as int) =~= reason);
    }
}

/// The lines on pages that failed and why.
pub fn fine_failure_lines(o: &FineOutcome) -> (lines: Vec<String>)
    ensures
        views(lines@) == fine_failures(*o),
{
    let mut lines: Vec<String> = Vec::new();
    if o.failed.len() > 0 {
        lines.push(
            concat4(
                "[fine] ",
                decimal_string(o.failed.len() as u64).as_str(),
                " page(s) failed: ",
                numbers_string(&o.failed).as_str(),
            ),
        );
        let ghost first = lines@[0]@;
        proof {
            assert(views(lines@) =~= seq![first]);
        }
        push_causes(&mut lines, &o.failure_reasons);
    } else {
        proof {
            assert(views(lines@) =~= Seq::empty());
        }
    }
    lines
}

/// Fine mode fails if any page did.
pub fn fine_verdict(o: &FineOutcome) -> (r: Result<(), SiftError>)
    ensures
        match r {
            Ok(_) => o.failed@.len() == 0,
            Err(e) => o.failed@.len() > 0 && e@ == ErrorView::Network(
                decimal(o.failed@.len()) + " page(s) failed"@,
            ),
        },
{
    if o.failed.len() == 0 {
        Ok(())
    } else {
        Err(
            SiftError::Network(
                concat2(decimal_string(o.failed.len() as u64).as_str(), " page(s) failed"),
            ),
        )
    }
}

// ---------------------------------------------------------------------------
// Auto mode
// ---------------------------------------------------------------------------

/// How auto mode goes on after the local pass.
#[derive(Debug)]
pub enum AutoStep {
    /// Every page has a text layer: done, with this line.
    TextOnly(String),
    /// These pages go to text recognition, after this line.
    Escalate(String, Vec<u32>),
}

/// How many batches `n` pages take.
pub open spec fn batch_count(n: nat) -> nat {
    n / PADDLEOCR_BATCH_SIZE as nat + (if n % PADDLEOCR_BATCH_SIZE as nat == 0 {
        0nat
    } else {
        1nat
    })
}

/// The batches hold all the pages, and one batch fewer would not.
pub proof fn law_batches_are_as_few_as_can_be(n: nat)
    ensures
        n <= batch_count(n) * PADDLEOCR_BATCH_SIZE,
        n > 0 ==> (batch_count(n) - 1) * PADDLEOCR_BATCH_SIZE < n,
        n == 0 ==> batch_count(n) == 0,
{
}

/// Decides after the local pass: without scanned pages nothing is sent
/// anywhere, with or without credentials; with scanned pages and no
/// credentials the command fails and says which pages need them.
pub fn auto_step(fast: &FastOutput, configured: bool) -> (r: Result<AutoStep, SiftError>)
    ensures
        match r {
            Ok(AutoStep::TextOnly(line)) => fast.scanned@.len() == 0 && line@
                == "[info] auto       all pages have text layer; zero OCR calls"@,
            Ok(AutoStep::Escalate(line, pages)) => {
                &&& fast.scanned@.len() > 0
                &&& configured
                &&& pages@ == fast.scanned@
                &&& line@ == "[fine] auto: "@ + decimal(fast.scanned@.len())
                    + " scanned page(s) escalated to OCR ("@ + ranges_text(
                    coalesced(fast.scanned@),
                ) + "); eta ~"@ + decimal(
                    batch_count(fast.scanned@.len()) * FINE_SEC_PER_BATCH as nat,
                ) + "s, billed per call"@
            },
            Err(e) => {
                &&& fast.scanned@.len() > 0
                &&& !configured
                &&& e@ == ErrorView::Internal(
                    "auto detected "@ + decimal(fast.scanned@.len()) + " scanned page(s) ("@
                        + ranges_text(coalesced(fast.scanned@))
                        + ") requiring OCR but PaddleOCR is not configured; set PADDLEOCR_API_BASE+PADDLEOCR_API_TOKEN or PADDLEOCR_API_KEY+PADDLEOCR_SECRET_KEY, or use --mode fast to skip OCR"@,
                )
            },
        },
{
    let n: usize = fast.scanned.len();
    if n == 0 {
        return Ok(
            AutoStep::TextOnly(
                "[info] auto       all pages have text layer; zero OCR calls".to_owned(),
            ),
        );
    }
    let count = decimal_string(n as u64);
    let label = format_page_list(fast.scanned.as_slice());
    if !configured {
        return Err(
            SiftError::Internal(
                concat5(
                    "auto detected ",
                    count.as_str(),
                    " scanned page(s) (",
                    label.as_str(),
                    ") requiring OCR but PaddleOCR is not configured; set PADDLEOCR_API_BASE+PADDLEOCR_API_TOKEN or PADDLEOCR_API_KEY+PADDLEOCR_SECRET_KEY, or use --mode fast to skip OCR",
                ),
            ),
        );
    }
    let full: u64 = n as u64 / PADDLEOCR_BATCH_SIZE as u64;
    let batches: u64 = if n % PADDLEOCR_BATCH_SIZE == 0 {
        full
    } else {
        full + 1
    };
    let eta = decimal_string(batches * FINE_SEC_PER_BATCH);
    let mut line = concat5(
        "[fine] auto: ",
        count.as_str(),
        " scanned page(s) escalated to OCR (",
        label.as_str(),
        "); eta ~",
    );
    line.append(eta.as_str());
    line.append("s, billed per call");
    let mut pages: Vec<u32> = Vec::new();
    let mut i: usize = 0;
    while i < n
        invariant
            n == fast.scanned@.len(),
            i <= n,
            pages@ == fast.scanned@.take(i as int),
        decreases n - i,
    {
        pages.push(fast.scanned[i]);
        proof {
            assert(fast.scanned@.take(i as int + 1) =~= fast.scanned@.take(i as int).push(
                fast.scanned@[i as int],
            ));
        }
        i = i + 1;
    }
    proof {
        assert(fast.scanned@.take(i as int) =~= fast.scanned@);
    }
    Ok(AutoStep::Escalate(line, pages))
}

/// The last text that `fine` has for page `p`.
pub open spec fn text_for(fine: Seq<(u32, String)>, p: u32) -> Option<Seq<char>>
    decreases fine.len(),
{
    if fine.len() == 0 {
        None
    } else if fine.last().0 == p {
        Some(fine.last().1@)
    } else {
        text_for(fine.drop_last(), p)
    }
}

/// The text of a page is the last that was recognised for it; where none was,
/// there is none.
pub proof fn law_the_last_text_of_a_page_counts(fine: Seq<(u32, String)>, p: u32, n: int)
    requires
        -1 <= n < fine.len(),
        n >= 0 ==> fine[n].0 == p,
        forall|i: int| n < i < fine.len() ==> (#[trigger] fine[i]).0 != p,
    ensures
        text_for(fine, p) == (if n >= 0 {
            Some(fine[n].1@)
        } else {
            None
        }),
    decreases fine.len(),
{
    if fine.len() > 0 && n < fine.len() - 1 {
        assert(fine[fine.len() - 1].0 != p);
        law_the_last_text_of_a_page_counts(fine.drop_last(), p, n);
    }
}

/// The last text that `fine` has for page `p`, by its place.
fn find_text(fine: &Vec<(u32, String)>, p: u32) -> (r: Option<usize>)
    ensures
        match r {
            Some(i) => i < fine@.len() && text_for(fine@, p) == Some(fine@[i as int].1@),
            None => text_for(fine@, p) is None,
        },
{
    let mut i: usize = fine.len();
    proof {
        assert(fine@.take(i as int) =~= fine@);
    }
    while i > 0
        invariant
            i <= fine@.len(),
            text_for(fine@, p) == text_for(fine@.take(i as int), p),
        decreases i,
    {
        proof {
            assert(fine@.take(i as int).drop_last() =~= fine@.take(i as int - 1));
            assert(fine@.take(i as int).last() == fine@[i - 1]);
        }
        if fine[i - 1].0 == p {
            return Some(i - 1);
        }
        i = i - 1;
    }
    None
}

/// Each page with its recognised text if there is one, otherwise with the text
/// of the local pass.
pub fn auto_merge(pages: &[u32], fast_pages: &Vec<String>, fine: &Vec<(u32, String)>) -> (out: Vec<
    String,
>)
    requires
        fast_pages@.len() == pages@.len(),
    ensures
        out@.len() == pages@.len(),
        forall|i: int|
            0 <= i < pages@.len() ==> (#[trigger] out@[i])@ == (match text_for(fine@, pages@[i]) {
                Some(text) => text,
                None => fast_pages@[i]@,
            }),
{
    let mut out: Vec<String> = Vec::new();
    let mut i: usize = 0;
    while i < pages.len()
        invariant
            i <= pages@.len() == fast_pages@.len(),
            out@.len() == i,
            forall|k: int|
                0 <= k < i ==> (#[trigger] out@[k])@ == (match text_for(fine@, pages@[k]) {
                    Some(text) => text,
                    None => fast_pages@[k]@,
                }),
        decreases pages@.len() - i,
    {
        match find_text(fine, pages[i]) {
            Some(k) => out.push(fine[k].1.clone()),
            None => out.push(fast_pages[i].clone()),
        }
        i = i + 1;
    }
    out
}

/// One line for each page that keeps its local text.
pub open spec fn fallback_lines(failed: Seq<u32>) -> Seq<Seq<char>> {
    failed.map_values(
        |p: u32|
            "[warn] auto: page "@ + decimal(p as nat) + " OCR failed, falling back to fast output"@,
    )
}

/// Each page that keeps its local text is told by its number, in order.
pub proof fn law_each_fallback_is_told(failed: Seq<u32>, i: int)
    requires
        0 <= i < failed.len(),
    ensures
        fallback_lines(failed).len() == failed.len(),
        occurs(fallback_lines(failed)[i], "page "@ + decimal(failed[i] as nat) + " OCR failed"@),
{
    reveal_strlit("[warn] auto: page ");
    reveal_strlit("[warn] auto: ");
    reveal_strlit("page ");
    reveal_strlit(" OCR failed, falling back to fast output");
    reveal_strlit(" OCR failed");
    reveal_strlit(", falling back to fast output");
    let said = "page "@ + decimal(failed[i] as nat) + " OCR failed"@;
    assert("[warn] auto: "@ + "page "@ =~= "[warn] auto: page "@);
    assert(" OCR failed"@ + ", falling back to fast output"@
        =~= " OCR failed, falling back to fast output"@);
    lemma_occurs_between("[warn] auto: "@, said, ", falling back to fast output"@);
    assert("[warn] auto: "@ + said + ", falling back to fast output"@ =~= fallback_lines(
        failed,
    )[i]);
}

/// The lines on pages that failed in auto mode; none if none did.
pub fn auto_failure_lines(o: &FineOutcome) -> (lines: Vec<String>)
    ensures
        views(lines@) == (if o.failed@.len() == 0 {
            Seq::empty()
        } else {
            fallback_lines(o.failed@) + cause_lines(views(o.failure_reasons@))
        }),
{
    let mut lines: Vec<String> = Vec::new();
    let mut i: usize = 0;
    while i < o.failed.len()
        invariant
            i <= o.failed@.len(),
            lines@.len() == i,
            forall|k: int|
                0 <= k < i ==> (#[trigger] lines@[k])@ == fallback_lines(o.failed@)[k],
        decreases o.failed@.len() - i,
    {
        lines.push(
            concat3(
                "[warn] auto: page ",
                decimal_string(o.failed[i] as u64).as_str(),
                " OCR failed, falling back to fast output",
            ),
        );
        i = i + 1;
    }
    proof {
        assert(views(lines@) =~= fallback_lines(o.failed@));
    }
    if o.failed.len() > 0 {
        push_causes(&mut lines, &o.failure_reasons);
    } else {
        proof {
            assert(views(lines@) =~= Seq::empty());
        }
    }
    lines
}

/// Auto mode fails only if every page that was sent off did.
pub fn auto_verdict(o: &FineOutcome, escalated: usize) -> (r: Result<(), SiftError>)
    ensures
        match r {
            Ok(_) => o.failed@.len() == 0 || o.failed@.len() != escalated,
            Err(e) => o.failed@.len() > 0 && o.failed@.len() == escalated && e@
                == ErrorView::Network(
                "auto: all "@ + decimal(o.failed@.len()) + " OCR page(s) failed"@,
            ),
        },
{
    if o.failed.len() > 0 && o.failed.len() == escalated {
        Err(
            SiftError::Network(
                concat3(
                    "auto: all ",
                    decimal_string(o.failed.len() as u64).as_str(),
                    " OCR page(s) failed",
                ),
            ),
        )
    } else {
        Ok(())
    }
}

} // verus!
