//! Page extraction: what is extracted, what goes to text recognition in which
//! batches, and how the pages come together again.

use std::collections::HashMap;

use vstd::prelude::*;
use vstd::string::*;

use crate::error::{ErrorView, SiftError, concat2, concat3, concat5, outcome};
use crate::order::{
    Ranked, is_sorted_set, lemma_stable_sorted, lemma_stable_sorted_contains, sorted_distinct,
    stable_sort, stable_sorted,
};
use crate::text::{
    all_digits, char_is_space, chars_of, debug_quoted, decimal, decimal_string, distinct, ends_with,
    find_char, is_digit, is_space, join, join_strings, law_distinct_keeps_each_text_once,
    law_replacing_goes_by_occurrence, law_trim_end_drops_white_space, lemma_decimal_value,
    lemma_digits_value_padded, lemma_occurs_between, lower_chars, occurs, only_digits, opt_str,
    pad_left, push_distinct, quoted, replace_all, replaced, slice_chars, string_from, to_lower,
    trim_end, utf8_text, views, zero_padded,
};

verus! {

/// Pages in one request to text recognition.
pub const PADDLEOCR_BATCH_SIZE: usize = 8;

/// Requests to text recognition under way at one time.
pub const PADDLEOCR_PARALLELISM: usize = 4;

/// Seconds that one request is expected to take.
pub const FINE_SEC_PER_BATCH: u64 = 3;

// ---------------------------------------------------------------------------
// Targets
// ---------------------------------------------------------------------------

/// What is to be extracted.
#[derive(Debug, PartialEq, Eq)]
pub enum Target {
    /// A PDF by its path.
    LocalPdf(String),
    /// A cached PDF by its announcement.
    AnnouncementId(String),
}

pub enum TargetView {
    LocalPdf(Seq<char>),
    AnnouncementId(Seq<char>),
}

impl View for Target {
    type V = TargetView;

    open spec fn view(&self) -> TargetView {
        match self {
            Target::LocalPdf(p) => TargetView::LocalPdf(p@),
            Target::AnnouncementId(id) => TargetView::AnnouncementId(id@),
        }
    }
}

/// What a text means as a target: a path if it has a separator or ends in
/// `.pdf`, an announcement if it is all digits.
pub open spec fn target_of(s: Seq<char>) -> Result<TargetView, ErrorView> {
    if s.contains('/') || s.contains('\\') || ".pdf"@.is_suffix_of(to_lower(s)) {
        Ok(TargetView::LocalPdf(s))
    } else if s.len() > 0 && all_digits(s) {
        Ok(TargetView::AnnouncementId(s))
    } else {
        Err(
            ErrorView::Parse(
                "cannot interpret "@ + quoted(s) + " as announcementId or PDF file path"@,
            ),
        )
    }
}

/// A text with a separator in it is a path, and so is one that ends in `.pdf`, in
/// whichever case; digits alone are an announcement. Either keeps the text as it
/// is. A text that is neither is refused.
pub proof fn law_a_separator_or_an_ending_makes_a_path(a: Seq<char>, b: Seq<char>, s: Seq<char>)
    ensures
        target_of(a + seq!['/'] + b) == Ok::<TargetView, ErrorView>(
            TargetView::LocalPdf(a + seq!['/'] + b),
        ),
        target_of(a + seq!['\\'] + b) == Ok::<TargetView, ErrorView>(
            TargetView::LocalPdf(a + seq!['\\'] + b),
        ),
        to_lower(b) == ".pdf"@ ==> target_of(a + b) == Ok::<TargetView, ErrorView>(
            TargetView::LocalPdf(a + b),
        ),
        all_digits(s) && s.len() > 0 ==> target_of(s) == Ok::<TargetView, ErrorView>(
            TargetView::AnnouncementId(s),
        ),
        target_of(s) matches Ok(TargetView::AnnouncementId(id)) ==> id == s && s.len() > 0
            && all_digits(s),
        target_of(s) matches Ok(TargetView::LocalPdf(p)) ==> p == s && !(s.len() > 0 && all_digits(
            s,
        )),
        s.len() == 0 ==> target_of(s) is Err,
{
    reveal_strlit(".pdf");
    let x = a + seq!['/'] + b;
    let y = a + seq!['\\'] + b;
    assert(x[a.len() as int] == '/');
    assert(y[a.len() as int] == '\\');
    if to_lower(b) == ".pdf"@ {
        let z = to_lower(a + b);
        assert(z =~= to_lower(a) + to_lower(b));
        assert(z.subrange(z.len() - 4, z.len() as int) =~= ".pdf"@);
    }
    if all_digits(s) && s.len() > 0 {
        assert forall|i: int| 0 <= i < s.len() implies s[i] != '/' && s[i] != '\\' by {
            assert(is_digit(s[i]));
        }
        let z = to_lower(s);
        if ".pdf"@.is_suffix_of(z) {
            let end = z.subrange(z.len() - 4, z.len() as int);
            assert(end[3] == 'f');
            assert(z[z.len() - 1] == 'f');
            assert(is_digit(s[s.len() - 1]));
        }
    }
    if s.len() == 0 {
        assert(to_lower(s).len() == 0);
    }
}

/// Whether a character stands in a text.
fn has_char(v: &Vec<char>, c: char) -> (r: bool)
    ensures
        r == v@.contains(c),
{
    let at = find_char(v, c, 0);
    at < v.len()
}

impl Target {
    /// Tells a path from an announcement id.
    pub fn parse(s: &str) -> (r: Result<Target, SiftError>)
        ensures
            outcome(r) == target_of(s@),
    {
        let v = chars_of(s);
        if has_char(&v, '/') || has_char(&v, '\\') {
            return Ok(Target::LocalPdf(s.to_owned()));
        }
        let lower = lower_chars(&v);
        if ends_with(&lower, ".pdf") {
            return Ok(Target::LocalPdf(s.to_owned()));
        }
        if v.len() > 0 && only_digits(&v) {
            return Ok(Target::AnnouncementId(s.to_owned()));
        }
        let q = debug_quoted(s);
        Err(
            SiftError::Parse(
                concat3("cannot interpret ", q.as_str(), " as announcementId or PDF file path"),
            ),
        )
    }

    /// The text by which the user named the target.
    pub open spec fn hint(self) -> Seq<char> {
        match self {
            Target::LocalPdf(p) => p@,
            Target::AnnouncementId(id) => id@,
        }
    }
}

/// The path of the PDF to open, given what the file system says: whether the
/// local file is there, where the cache keeps the announcement, and whether it
/// holds it.
pub fn resolve_pdf_path(
    target: &Target,
    local_exists: bool,
    cache_path: Option<String>,
    cached: bool,
) -> (r: Result<String, SiftError>)
    ensures
        match target {
            Target::LocalPdf(p) => outcome(r) == (if local_exists {
                Ok::<Seq<char>, ErrorView>(p@)
            } else {
                Err(ErrorView::Io("PDF not found: "@ + p@))
            }),
            Target::AnnouncementId(id) => outcome(r) == (match cache_path {
                Some(path) if cached => Ok::<Seq<char>, ErrorView>(path@),
                _ => Err(
                    ErrorView::Io(
                        "PDF not cached for "@ + id@ + "; run `sift announce download "@ + id@
                            + " -o <dir>` first"@,
                    ),
                ),
            }),
        },
{
    match target {
        Target::LocalPdf(p) => {
            if local_exists {
                Ok(p.clone())
            } else {
                Err(SiftError::Io(concat2("PDF not found: ", p.as_str())))
            }
        },
        Target::AnnouncementId(id) => {
            match cache_path {
                Some(path) if cached => Ok(path),
                _ => Err(
                    SiftError::Io(
                        concat5(
                            "PDF not cached for ",
                            id.as_str(),
                            "; run `sift announce download ",
                            id.as_str(),
                            " -o <dir>` first",
                        ),
                    ),
                ),
            }
        },
    }
}

/// Where images go.
#[derive(Debug, PartialEq, Eq)]
pub enum ImageDir {
    /// The directory that the user gave.
    Given(String),
    /// A key below the root of the cache.
    InCache(String),
    /// `extracted_images` below the working directory.
    Working,
}

pub enum ImageDirView {
    Given(Seq<char>),
    InCache(Seq<char>),
    Working,
}

impl View for ImageDir {
    type V = ImageDirView;

    open spec fn view(&self) -> ImageDirView {
        match self {
            ImageDir::Given(p) => ImageDirView::Given(p@),
            ImageDir::InCache(k) => ImageDirView::InCache(k@),
            ImageDir::Working => ImageDirView::Working,
        }
    }
}

/// Where images go, and whether that is the default: the user's directory,
/// then the announcement's place in the cache, then the working directory.
pub fn resolve_image_dir(target: &Target, has_cache: bool, given: Option<&str>) -> (r: (
    ImageDir,
    bool,
))
    ensures
        match (given, target) {
            (Some(p), _) => r.0@ == ImageDirView::Given(p@) && !r.1,
            (None, Target::AnnouncementId(id)) if has_cache => r.0@ == ImageDirView::InCache(
                "announcements/"@ + id@ + "/images"@,
            ) && r.1,
            _ => r.0@ == ImageDirView::Working && r.1,
        },
{
    if let Some(p) = given {
        return (ImageDir::Given(p.to_owned()), false);
    }
    match target {
        Target::AnnouncementId(id) if has_cache => {
            (ImageDir::InCache(concat3("announcements/", id.as_str(), "/images")), true)
        },
        _ => (ImageDir::Working, true),
    }
}

// ---------------------------------------------------------------------------
// Pages
// ---------------------------------------------------------------------------

/// The first page outside `1..=max` is reported.
pub open spec fn page_check(pages: Seq<u32>, max: u32) -> Result<(), ErrorView>
    decreases pages.len(),
{
    if pages.len() == 0 {
        Ok(())
    } else if pages[0] == 0 || pages[0] > max {
        Err(
            ErrorView::Parse(
                "page "@ + decimal(pages[0] as nat) + " out of range (PDF has "@ + decimal(
                    max as nat,
                ) + " pages)"@,
            ),
        )
    } else {
        page_check(pages.drop_first(), max)
    }
}

/// Checks that every page is one of `1..=max`.
pub fn validate_pages(pages: &[u32], max: u32) -> (r: Result<(), SiftError>)
    ensures
        match r {
            Ok(_) => page_check(pages@, max) is Ok,
            Err(e) => page_check(pages@, max) == Err::<(), ErrorView>(e@),
        },
{
    let mut i: usize = 0;
    proof {
        assert(pages@.skip(0) =~= pages@);
    }
    while i < pages.len()
        invariant
            i <= pages@.len(),
            page_check(pages@, max) == page_check(pages@.skip(i as int), max),
        decreases pages@.len() - i,
    {
        let p: u32 = pages[i];
        proof {
            assert(pages@.skip(i as int).drop_first() =~= pages@.skip(i as int + 1));
        }
        if p == 0 || p > max {
            let n = decimal_string(p as u64);
            let m = decimal_string(max as u64);
            return Err(
                SiftError::Parse(
                    concat5(
                        "page ",
                        n.as_str(),
                        " out of range (PDF has ",
                        m.as_str(),
                        " pages)",
                    ),
                ),
            );
        }
        i = i + 1;
    }
    Ok(())
}

/// `validate_pages` accepts exactly the lists whose pages are all in range.
pub proof fn law_page_check_accepts_range(pages: Seq<u32>, max: u32)
    ensures
        page_check(pages, max) is Ok <==> forall|i: int|
            0 <= i < pages.len() ==> 1 <= #[trigger] pages[i] <= max,
    decreases pages.len(),
{
    if pages.len() > 0 {
        let rest = pages.drop_first();
        law_page_check_accepts_range(rest, max);
        if page_check(pages, max) is Ok {
            assert forall|i: int| 0 <= i < pages.len() implies 1 <= #[trigger] pages[i] <= max by {
                if i > 0 {
                    assert(rest[i - 1] == pages[i]);
                }
            }
        } else if forall|i: int| 0 <= i < pages.len() ==> 1 <= #[trigger] pages[i] <= max {
            assert(1 <= pages[0] <= max);
            assert forall|i: int| 0 <= i < rest.len() implies 1 <= #[trigger] rest[i] <= max by {
                assert(rest[i] == pages[i + 1]);
            }
        }
    }
}

/// The first page that is out of range is told, with the number of pages.
pub proof fn law_the_first_page_out_of_range_is_told(pages: Seq<u32>, max: u32, n: int)
    requires
        0 <= n < pages.len(),
        pages[n] == 0 || pages[n] > max,
        forall|i: int| 0 <= i < n ==> 1 <= #[trigger] pages[i] <= max,
    ensures
        page_check(pages, max) matches Err(ErrorView::Parse(text)) && occurs(
            text,
            "page "@ + decimal(pages[n] as nat) + " "@,
        ) && occurs(text, " "@ + decimal(max as nat) + " pages"@),
    decreases pages.len(),
{
    if n == 0 {
        reveal_strlit(" out of range (PDF has ");
        reveal_strlit(" out of range (PDF has");
        reveal_strlit("out of range (PDF has ");
        reveal_strlit(" pages)");
        reveal_strlit(" pages");
        reveal_strlit(")");
        reveal_strlit(" ");
        let p = decimal(pages[0] as nat);
        let m = decimal(max as nat);
        let text = "page "@ + p + " out of range (PDF has "@ + m + " pages)"@;
        assert(" "@ + "out of range (PDF has "@ =~= " out of range (PDF has "@);
        assert(" out of range (PDF has"@ + " "@ =~= " out of range (PDF has "@);
        assert(" pages"@ + ")"@ =~= " pages)"@);
        let none = Seq::<char>::empty();
        let a = "page "@ + p + " "@;
        let rest = "out of range (PDF has "@ + m + " pages)"@;
        lemma_occurs_between(none, a, rest);
        assert(none + a + rest =~= text);
        let head = "page "@ + p + " out of range (PDF has"@;
        let b = " "@ + m + " pages"@;
        lemma_occurs_between(head, b, ")"@);
        assert(head + b + ")"@ =~= text);
    } else {
        let d = pages.drop_first();
        assert(1 <= pages[0] <= max);
        assert forall|i: int| 0 <= i < n - 1 implies 1 <= #[trigger] d[i] <= max by {
            assert(d[i] == pages[i + 1]);
        }
        assert(d[n - 1] == pages[n]);
        law_the_first_page_out_of_range_is_told(d, max, n - 1);
    }
}

/// How many decimal digits `n` has.
pub fn digits(n: u32) -> (d: usize)
    ensures
        d == decimal(n as nat).len(),
        1 <= d <= 10,
{
    let mut rest: u32 = n;
    let mut d: usize = 1;
    while rest >= 10
        invariant
            decimal(n as nat).len() == d - 1 + decimal(rest as nat).len(),
            1 <= d <= 10,
            d == 1 ==> rest <= 4294967295,
            d == 2 ==> rest <= 429496729,
            d == 3 ==> rest <= 42949672,
            d == 4 ==> rest <= 4294967,
            d == 5 ==> rest <= 429496,
            d == 6 ==> rest <= 42949,
            d == 7 ==> rest <= 4294,
            d == 8 ==> rest <= 429,
            d == 9 ==> rest <= 42,
            d == 10 ==> rest <= 4,
        decreases rest,
    {
        rest = rest / 10;
        d = d + 1;
    }
    d
}

/// The runs of neighbouring pages, each as its first and last page.
pub open spec fn coalesced(pages: Seq<u32>) -> Seq<(u32, u32)>
    decreases pages.len(),
{
    if pages.len() == 0 {
        Seq::empty()
    } else {
        let r = coalesced(pages.drop_last());
        let p = pages.last();
        if r.len() > 0 && r.last().1 + 1 == p {
            r.drop_last().push((r.last().0, p))
        } else {
            r.push((p, p))
        }
    }
}

/// The runs of neighbouring pages.
pub fn coalesce_ranges(pages: &[u32]) -> (out: Vec<(u32, u32)>)
    ensures
        out@ == coalesced(pages@),
{
    let mut out: Vec<(u32, u32)> = Vec::new();
    let mut i: usize = 0;
    while i < pages.len()
        invariant
            i <= pages@.len(),
            out@ == coalesced(pages@.take(i as int)),
        decreases pages@.len() - i,
    {
        let p: u32 = pages[i];
        proof {
            assert(pages@.take(i as int + 1).drop_last() =~= pages@.take(i as int));
        }
        let n: usize = out.len();
        if n > 0 && p > 0 && out[n - 1].1 == p - 1 {
            let first: u32 = out[n - 1].0;
            out.pop();
            out.push((first, p));
        } else {
            out.push((p, p));
        }
        i = i + 1;
    }
    proof {
        assert(pages@.take(i as int) =~= pages@);
    }
    out
}

/// `lo` alone, or `lo-hi`.
pub open spec fn range_text(r: (u32, u32)) -> Seq<char> {
    if r.0 == r.1 {
        decimal(r.0 as nat)
    } else {
        decimal(r.0 as nat) + "-"@ + decimal(r.1 as nat)
    }
}

/// The runs, with commas between them.
pub open spec fn ranges_text(ranges: Seq<(u32, u32)>) -> Seq<char> {
    join(ranges.map_values(|r: (u32, u32)| range_text(r)), ","@)
}

/// The runs in the form in which pages are asked for.
pub fn format_ranges(ranges: &[(u32, u32)]) -> (out: String)
    ensures
        out@ == ranges_text(ranges@),
{
    let mut parts: Vec<String> = Vec::new();
    let mut i: usize = 0;
    while i < ranges.len()
        invariant
            i <= ranges@.len(),
            parts@.len() == i,
            forall|k: int| 0 <= k < i ==> (#[trigger] parts@[k])@ == range_text(ranges@[k]),
        decreases ranges@.len() - i,
    {
        let r: (u32, u32) = ranges[i];
        let lo = decimal_string(r.0 as u64);
        if r.0 == r.1 {
            parts.push(lo);
        } else {
            let hi = decimal_string(r.1 as u64);
            parts.push(concat3(lo.as_str(), "-", hi.as_str()));
        }
        i = i + 1;
    }
    proof {
        assert(views(parts@) =~= ranges@.map_values(|r: (u32, u32)| range_text(r)));
    }
    join_strings(&parts, ",")
}

/// Pages in the form in which they are asked for.
pub fn format_page_list(pages: &[u32]) -> (out: String)
    ensures
        out@ == ranges_text(coalesced(pages@)),
{
    let ranges = coalesce_ranges(pages);
    format_ranges(ranges.as_slice())
}

/// The pages from `lo` to `hi`.
pub open spec fn run_pages(lo: u32, hi: u32) -> Seq<u32> {
    Seq::new((hi - lo + 1) as nat, |i: int| (lo + i) as u32)
}

/// The pages of the runs, run by run.
pub open spec fn expanded(ranges: Seq<(u32, u32)>) -> Seq<u32>
    decreases ranges.len(),
{
    if ranges.len() == 0 {
        Seq::empty()
    } else {
        expanded(ranges.drop_last()) + run_pages(ranges.last().0, ranges.last().1)
    }
}

/// The runs cover exactly the pages, in order, and no run is empty.
pub proof fn law_runs_cover_the_pages(pages: Seq<u32>)
    ensures
        expanded(coalesced(pages)) == pages,
        forall|i: int|
            0 <= i < coalesced(pages).len() ==> (#[trigger] coalesced(pages)[i]).0
                <= coalesced(pages)[i].1,
        pages.len() > 0 ==> coalesced(pages).len() > 0 && coalesced(pages).last().1
            == pages.last(),
    decreases pages.len(),
{
    if pages.len() > 0 {
        let r = coalesced(pages.drop_last());
        let p = pages.last();
        law_runs_cover_the_pages(pages.drop_last());
        let c = coalesced(pages);
        if r.len() > 0 && r.last().1 + 1 == p {
            let lo = r.last().0;
            assert(lo <= r.last().1);
            assert(c.drop_last() =~= r.drop_last());
            assert(run_pages(lo, p) =~= run_pages(lo, r.last().1).push(p));
            assert(expanded(c) =~= expanded(r).push(p));
        } else {
            assert(c.drop_last() =~= r);
            assert(run_pages(p, p) =~= seq![p]);
        }
        assert(expanded(c) =~= pages.drop_last().push(p));
        assert(pages =~= pages.drop_last().push(p));
    }
}

/// Runs are as long as they can be: a run never begins right after the one
/// before it ends.
pub proof fn law_runs_are_maximal(pages: Seq<u32>, i: int)
    requires
        0 < i < coalesced(pages).len(),
    ensures
        coalesced(pages)[i - 1].1 + 1 != coalesced(pages)[i].0,
    decreases pages.len(),
{
    let r = coalesced(pages.drop_last());
    let p = pages.last();
    if r.len() > 0 && r.last().1 + 1 == p {
        if i < r.len() {
            law_runs_are_maximal(pages.drop_last(), i);
        }
    } else if i < r.len() {
        law_runs_are_maximal(pages.drop_last(), i);
    }
}

// ---------------------------------------------------------------------------
// Names
// ---------------------------------------------------------------------------

/// Where the recognised text of a page is kept.
pub open spec fn ocr_key_text(id: Seq<char>, page: u32, pad: nat) -> Seq<char> {
    "announcements/"@ + id + "/fine/p"@ + pad_left(decimal(page as nat), pad, '0') + ".md"@
}

/// Where the recognised text of a page is kept: pages are padded to the width
/// of the document's page count.
pub fn ocr_key(id: &str, page: u32, pad: usize) -> (out: String)
    ensures
        out@ == ocr_key_text(id@, page, pad as nat),
{
    let n = zero_padded(page as u64, pad);
    concat5("announcements/", id, "/fine/p", n.as_str(), ".md")
}

/// Different pages of one announcement are kept in different places.
pub proof fn law_ocr_keys_differ(id: Seq<char>, a: u32, b: u32, pad: nat)
    requires
        ocr_key_text(id, a, pad) == ocr_key_text(id, b, pad),
    ensures
        a == b,
{
    let head = "announcements/"@ + id + "/fine/p"@;
    let x = pad_left(decimal(a as nat), pad, '0');
    let y = pad_left(decimal(b as nat), pad, '0');
    let s = ocr_key_text(id, a, pad);
    let t = ocr_key_text(id, b, pad);
    let tail = ".md"@.len() as int;
    let n = head.len() as int;
    assert(s.subrange(n, s.len() - tail) =~= x);
    assert(t.subrange(n, t.len() - tail) =~= y);
    lemma_decimal_value(a as nat);
    lemma_decimal_value(b as nat);
    lemma_digits_value_padded(decimal(a as nat), pad);
    lemma_digits_value_padded(decimal(b as nat), pad);
}

/// The file name of the image `idx` of a page.
pub open spec fn image_name_text(page: u32, width: nat, idx: nat, ext: Seq<char>) -> Seq<char> {
    "p"@ + pad_left(decimal(page as nat), width, '0') + "-img"@ + pad_left(
        decimal((idx + 1) as nat),
        2,
        '0',
    ) + "."@ + ext
}

/// Different images of a document have different file names.
pub proof fn law_image_names_differ(
    a: u32,
    b: u32,
    width: nat,
    i: nat,
    j: nat,
    ext: Seq<char>,
)
    requires
        image_name_text(a, width, i, ext) == image_name_text(b, width, j, ext),
    ensures
        a == b,
        i == j,
{
    reveal_strlit("p");
    reveal_strlit("-img");
    reveal_strlit(".");
    let p = pad_left(decimal(a as nat), width, '0');
    let q = pad_left(decimal(b as nat), width, '0');
    let m = pad_left(decimal((i + 1) as nat), 2, '0');
    let n = pad_left(decimal((j + 1) as nat), 2, '0');
    lemma_decimal_value(a as nat);
    lemma_decimal_value(b as nat);
    lemma_decimal_value((i + 1) as nat);
    lemma_decimal_value((j + 1) as nat);
    lemma_digits_value_padded(decimal(a as nat), width);
    lemma_digits_value_padded(decimal(b as nat), width);
    lemma_digits_value_padded(decimal((i + 1) as nat), 2);
    lemma_digits_value_padded(decimal((j + 1) as nat), 2);
    let x = image_name_text(a, width, i, ext);
    let y = image_name_text(b, width, j, ext);
    assert(x[p.len() as int + 1] == '-' && y[q.len() as int + 1] == '-');
    assert(p.len() == q.len()) by {
        if p.len() < q.len() {
            assert(y[p.len() as int + 1] == q[p.len() as int]);
            assert(is_digit(q[p.len() as int]));
        }
        if q.len() < p.len() {
            assert(x[q.len() as int + 1] == p[q.len() as int]);
            assert(is_digit(p[q.len() as int]));
        }
    }
    assert(p =~= x.subrange(1, 1 + p.len() as int));
    assert(q =~= y.subrange(1, 1 + q.len() as int));
    assert("p"@.len() == 1 && "-img"@.len() == 4 && "."@.len() == 1);
    assert(x.len() == 6 + p.len() + m.len() + ext.len());
    assert(y.len() == 6 + q.len() + n.len() + ext.len());
    let at = 5 + p.len() as int;
    assert(m =~= x.subrange(at, at + m.len() as int));
    assert(n =~= y.subrange(at, at + n.len() as int));
}

/// The file name of the image `idx` of a page; `png` without an extension.
pub fn image_name(page: u32, width: usize, idx: usize, ext: Option<&str>) -> (out: String)
    requires
        idx < usize::MAX,
    ensures
        out@ == image_name_text(
            page,
            width as nat,
            idx as nat,
            match ext {
                Some(e) => e@,
                None => "png"@,
            },
        ),
{
    let p = zero_padded(page as u64, width);
    let n = zero_padded((idx + 1) as u64, 2);
    let mut out = concat5("p", p.as_str(), "-img", n.as_str(), ".");
    match ext {
        Some(e) => out.append(e),
        None => out.append("png"),
    }
    out
}

/// Whether an image has to be written: unless a file of some length is there
/// already, or always without the cache.
pub fn must_write_image(already_there: bool, no_cache: bool) -> (r: bool)
    ensures
        r == (!already_there || no_cache),
{
    !already_there || no_cache
}

/// The line that shows an image.
pub fn image_line(path: &str) -> (out: String)
    ensures
        out@ == "![]("@ + path@ + ")"@,
{
    concat3("![](", path, ")")
}

// ---------------------------------------------------------------------------
// Local extraction
// ---------------------------------------------------------------------------

/// What was found on one page.
#[derive(Debug)]
pub struct PageScan {
    /// The text layer as Markdown.
    pub markdown: String,
    /// One line for each image.
    pub image_lines: Vec<String>,
    /// Whether the page is a scan.
    pub is_scanned: bool,
}

/// The pages as Markdown, and the numbers of the scanned ones.
#[derive(Debug)]
pub struct FastOutput {
    pub pages: Vec<String>,
    pub scanned: Vec<u32>,
}

/// The text of a page, with its images below.
pub open spec fn page_body(markdown: Seq<char>, image_lines: Seq<Seq<char>>) -> Seq<char> {
    let text = trim_end(markdown);
    if image_lines.len() == 0 {
        text
    } else if text.len() == 0 {
        join(image_lines, "\n\n"@)
    } else {
        text + "\n\n"@ + join(image_lines, "\n\n"@)
    }
}

/// The pages among `pages` that are scans.
pub open spec fn scanned_pages(pages: Seq<u32>, scans: Seq<PageScan>) -> Seq<u32>
    decreases pages.len(),
{
    if pages.len() == 0 || scans.len() != pages.len() {
        Seq::empty()
    } else {
        let r = scanned_pages(pages.drop_last(), scans.drop_last());
        if scans.last().is_scanned {
            r.push(pages.last())
        } else {
            r
        }
    }
}

/// The body of a page begins with its Markdown without trailing white space,
/// whatever images it has: `n` characters of it are text, and only white space
/// comes behind them. It ends with the image lines, a blank line between
/// neighbours. Where there is both text and an image a blank line divides them,
/// and nothing else is added.
pub proof fn law_a_page_keeps_its_text_and_its_images(
    markdown: Seq<char>,
    image_lines: Seq<Seq<char>>,
    n: int,
)
    requires
        0 <= n <= markdown.len(),
        n > 0 ==> !is_space(markdown[n - 1]),
        forall|i: int| n <= i < markdown.len() ==> is_space(#[trigger] markdown[i]),
    ensures
        ({
            let body = page_body(markdown, image_lines);
            let images = join(image_lines, "\n\n"@);
            &&& markdown.take(n).is_prefix_of(body)
            &&& images.is_suffix_of(body)
            &&& image_lines.len() == 0 ==> body.len() == n
            &&& n == 0 ==> body.len() == images.len()
            &&& n > 0 && image_lines.len() > 0 ==> body.len() == n + 2 + images.len() && body[n]
                == '\n' && body[n + 1] == '\n'
        }),
{
    let text = trim_end(markdown);
    law_trim_end_drops_white_space(markdown);
    reveal_strlit("\n\n");
    assert(text.len() == n) by {
        if text.len() < n {
            assert(is_space(markdown[n - 1]));
        }
        if text.len() > n {
            assert(is_space(markdown[text.len() - 1]));
        }
    }
    let body = page_body(markdown, image_lines);
    let images = join(image_lines, "\n\n"@);
    assert(images.is_suffix_of(body)) by {
        assert(body.subrange(body.len() - images.len(), body.len() as int) =~= images);
    }
    if n > 0 && image_lines.len() > 0 {
        assert(body[n] == "\n\n"@[0] && body[n + 1] == "\n\n"@[1]);
    }
}

/// The scanned pages are the pages whose scan says so, each as often as it was
/// asked for and in the order asked for: what a beginning of the list has comes
/// first, and the page behind it follows exactly if it is a scan.
pub proof fn law_scanned_pages_are_the_scans(pages: Seq<u32>, scans: Seq<PageScan>, i: int)
    requires
        scans.len() == pages.len(),
        0 <= i < pages.len(),
    ensures
        ({
            let before = scanned_pages(pages.take(i), scans.take(i));
            let all = scanned_pages(pages, scans);
            let own = if scans[i].is_scanned {
                seq![pages[i]]
            } else {
                Seq::empty()
            };
            (before + own).is_prefix_of(all)
        }),
        forall|p: u32|
            #[trigger] scanned_pages(pages, scans).contains(p) <==> exists|k: int|
                0 <= k < pages.len() && #[trigger] pages[k] == p && scans[k].is_scanned,
    decreases pages.len(),
{
    let all = scanned_pages(pages, scans);
    let d = pages.drop_last();
    let e = scans.drop_last();
    let r = scanned_pages(d, e);
    if i < d.len() {
        law_scanned_pages_are_the_scans(d, e, i);
        assert(d.take(i) =~= pages.take(i));
        assert(e.take(i) =~= scans.take(i));
    } else {
        if d.len() > 0 {
            law_scanned_pages_are_the_scans(d, e, 0);
        }
        assert(d =~= pages.take(i));
        assert(e =~= scans.take(i));
    }
    assert forall|p: u32|
        #[trigger] all.contains(p) <==> exists|k: int|
            0 <= k < pages.len() && #[trigger] pages[k] == p && scans[k].is_scanned by {
        if all.contains(p) {
            let at = choose|at: int| 0 <= at < all.len() && all[at] == p;
            if at < r.len() {
                assert(r[at] == p);
                assert(r.contains(p));
                let k = choose|k: int|
                    0 <= k < d.len() && #[trigger] d[k] == p && e[k].is_scanned;
                assert(pages[k] == p && scans[k].is_scanned);
            } else {
                assert(pages[pages.len() - 1] == p);
            }
        }
        if exists|k: int| 0 <= k < pages.len() && #[trigger] pages[k] == p && scans[k].is_scanned {
            let k = choose|k: int|
                0 <= k < pages.len() && #[trigger] pages[k] == p && scans[k].is_scanned;
            if k < d.len() {
                assert(d[k] == p && e[k].is_scanned);
                assert(r.contains(p));
                let at = choose|at: int| 0 <= at < r.len() && r[at] == p;
                assert(all[at] == p);
            } else {
                assert(all[r.len() as int] == p);
            }
        }
    }
}

/// `v` without its trailing white space.
fn trim_end_chars(v: &Vec<char>) -> (out: Vec<char>)
    ensures
        out@ == trim_end(v@),
{
    let mut j: usize = v.len();
    proof {
        assert(v@.take(j as int) =~= v@);
    }
    while j > 0 && char_is_space(v[j - 1])
        invariant
            j <= v@.len(),
            trim_end(v@) == trim_end(v@.take(j as int)),
        decreases j,
    {
        proof {
            assert(v@.take(j as int).drop_last() =~= v@.take(j as int - 1));
        }
        j = j - 1;
    }
    let out = slice_chars(v, 0, j);
    proof {
        assert(out@ =~= v@.take(j as int));
    }
    out
}

/// The text of a page, with its images below.
fn combine_page(markdown: &str, image_lines: &Vec<String>) -> (out: String)
    ensures
        out@ == page_body(markdown@, views(image_lines@)),
{
    let text = trim_end_chars(&chars_of(markdown));
    let mut out = string_from(&text);
    if image_lines.len() > 0 {
        if text.len() > 0 {
            out.append("\n\n");
        }
        let lines = join_strings(image_lines, "\n\n");
        out.append(lines.as_str());
        proof {
            assert(Seq::<char>::empty() + lines@ =~= lines@);
        }
    }
    out
}

/// Puts the scanned pages of a document together: one body for each page, in
/// the order asked for.
pub fn fast(pages: &[u32], page_count: u32, scans: &Vec<PageScan>) -> (r: Result<
    FastOutput,
    SiftError,
>)
    requires
        scans@.len() == pages@.len(),
    ensures
        match r {
            Ok(out) => {
                &&& page_check(pages@, page_count) is Ok
                &&& views(out.pages@) == scans@.map_values(
                    |s: PageScan| page_body(s.markdown@, views(s.image_lines@)),
                )
                &&& out.scanned@ == scanned_pages(pages@, scans@)
            },
            Err(e) => page_check(pages@, page_count) == Err::<(), ErrorView>(e@),
        },
{
    match validate_pages(pages, page_count) {
        Ok(_) => {},
        Err(e) => {
            return Err(e);
        },
    }
    let mut out: Vec<String> = Vec::new();
    let mut scanned: Vec<u32> = Vec::new();
    let mut i: usize = 0;
    while i < pages.len()
        invariant
            i <= pages@.len() == scans@.len(),
            out@.len() == i,
            forall|k: int|
                0 <= k < i ==> (#[trigger] out@[k])@ == page_body(
                    scans@[k].markdown@,
                    views(scans@[k].image_lines@),
                ),
            scanned@ == scanned_pages(pages@.take(i as int), scans@.take(i as int)),
        decreases pages@.len() - i,
    {
        proof {
            assert(pages@.take(i as int + 1).drop_last() =~= pages@.take(i as int));
            assert(scans@.take(i as int + 1).drop_last() =~= scans@.take(i as int));
        }
        out.push(combine_page(scans[i].markdown.as_str(), &scans[i].image_lines));
        if scans[i].is_scanned {
            scanned.push(pages[i]);
        }
        i = i + 1;
    }
    proof {
        assert(pages@.take(i as int) =~= pages@);
        assert(scans@.take(i as int) =~= scans@);
        assert(views(out@) =~= scans@.map_values(
            |s: PageScan| page_body(s.markdown@, views(s.image_lines@)),
        ));
    }
    Ok(FastOutput { pages: out, scanned })
}

/// The two lines that point a user with scanned pages at text recognition.
pub fn scan_summary(target: &Target, scanned: &[u32]) -> (lines: (String, String))
    ensures
        lines.0@ == "[warn] scanned pages detected: "@ + ranges_text(coalesced(scanned@))
            + " (text layer too sparse for fast mode)"@,
        lines.1@ == "       re-extract with OCR: sift extract "@ + target.hint() + " --pages "@
            + ranges_text(coalesced(scanned@)) + " --mode fine"@,
{
    let spec = format_page_list(scanned);
    let first = concat3(
        "[warn] scanned pages detected: ",
        spec.as_str(),
        " (text layer too sparse for fast mode)",
    );
    let hint = match target {
        Target::LocalPdf(p) => p.as_str(),
        Target::AnnouncementId(id) => id.as_str(),
    };
    let second = concat5(
        "       re-extract with OCR: sift extract ",
        hint,
        " --pages ",
        spec.as_str(),
        " --mode fine",
    );
    (first, second)
}

// ---------------------------------------------------------------------------
// Text recognition
// ---------------------------------------------------------------------------

/// By which credentials text recognition is asked for.
#[derive(Debug, Clone, Copy, PartialEq, Eq, Structural)]
pub enum OcrBackend {
    /// A base address and a token.
    Token,
    /// An API key and a secret key.
    OAuth,
}

impl OcrBackend {
    pub open spec fn label(self) -> Seq<char> {
        match self {
            OcrBackend::Token => "token"@,
            OcrBackend::OAuth => "oauth"@,
        }
    }

    /// The name in the budget line.
    pub fn name(self) -> (out: &'static str)
        ensures
            out@ == self.label(),
    {
        match self {
            OcrBackend::Token => "token",
            OcrBackend::OAuth => "oauth",
        }
    }
}

/// A setting that is there and not empty.
pub open spec fn is_set(setting: Option<Seq<char>>) -> bool {
    setting matches Some(s) && s.len() > 0
}

/// A setting that is there counts unless it is empty.
pub proof fn law_an_empty_setting_is_none(s: Seq<char>)
    ensures
        is_set(Some(s)) <==> s != Seq::<char>::empty(),
        !is_set(None),
{
    assert(s.len() == 0 <==> s =~= Seq::empty());
}

fn setting_is_set(setting: Option<&str>) -> (r: bool)
    ensures
        r == is_set(opt_str(setting)),
{
    match setting {
        Some(s) => !s.is_empty(),
        None => false,
    }
}

/// The credentials to use: base and token where both are set, else the two keys
/// where both are set.
pub fn ocr_backend(
    api_base: Option<&str>,
    api_token: Option<&str>,
    api_key: Option<&str>,
    secret_key: Option<&str>,
) -> (r: Result<OcrBackend, SiftError>)
    ensures
        if is_set(opt_str(api_base)) && is_set(opt_str(api_token)) {
            r == Ok::<OcrBackend, SiftError>(OcrBackend::Token)
        } else if is_set(opt_str(api_key)) && is_set(opt_str(secret_key)) {
            r == Ok::<OcrBackend, SiftError>(OcrBackend::OAuth)
        } else {
            r matches Err(e) && e@ == ErrorView::OcrTokenMissing
        },
{
    if setting_is_set(api_base) && setting_is_set(api_token) {
        Ok(OcrBackend::Token)
    } else if setting_is_set(api_key) && setting_is_set(secret_key) {
        Ok(OcrBackend::OAuth)
    } else {
        Err(SiftError::OcrTokenMissing)
    }
}

/// Whether recognised pages are looked up before asking for them again: for
/// announcements, where there is a cache, unless it is switched off.
pub fn consults_cache(target: &Target, has_cache: bool, no_cache: bool) -> (r: bool)
    ensures
        r == (target is AnnouncementId && has_cache && !no_cache),
{
    match target {
        Target::AnnouncementId(_) => has_cache && !no_cache,
        Target::LocalPdf(_) => false,
    }
}

/// Whether recognised pages are kept: for announcements, where there is a
/// cache.
pub fn keeps_pages(target: &Target, has_cache: bool) -> (r: bool)
    ensures
        r == (target is AnnouncementId && has_cache),
{
    match target {
        Target::AnnouncementId(_) => has_cache,
        Target::LocalPdf(_) => false,
    }
}

/// What a kept page is worth: its text, if there is one.
pub fn ocr_cached(bytes: Option<Vec<u8>>) -> (r: Option<String>)
    ensures
        match r {
            Some(s) => bytes matches Some(b) && s@.len() > 0 && vstd::utf8::valid_utf8(b@)
                && vstd::utf8::encode_utf8(s@) == b@,
            None => bytes matches Some(b) ==> !vstd::utf8::valid_utf8(b@) || b@.len() == 0,
        },
{
    match bytes {
        Some(b) => {
            match utf8_text(b) {
                Some(s) => {
                    if s.as_str().is_empty() {
                        proof {
                            assert(s@ =~= Seq::<char>::empty());
                            reveal_with_fuel(vstd::utf8::encode_utf8, 1);
                        }
                        None
                    } else {
                        Some(s)
                    }
                },
                None => None,
            }
        },
        None => None,
    }
}

/// What the batches are made of: the pages that are known, the pages that are
/// not, and the latter in batches.
pub struct FinePlan {
    pub pages: Vec<u32>,
    pub cached: HashMap<u32, String>,
    pub missing: Vec<u32>,
    pub chunks: Vec<Vec<u32>>,
}

/// The known texts by page; a later one replaces an earlier one.
pub open spec fn known(pages: Seq<u32>, hits: Seq<Option<String>>) -> Map<u32, String>
    decreases pages.len(),
{
    if pages.len() == 0 || hits.len() != pages.len() {
        Map::empty()
    } else {
        let m = known(pages.drop_last(), hits.drop_last());
        match hits.last() {
            Some(s) => m.insert(pages.last(), s),
            None => m,
        }
    }
}

/// The pages that are not known, in the order asked for.
pub open spec fn unknown(pages: Seq<u32>, cached: Map<u32, String>) -> Seq<u32> {
    pages.filter(|p: u32| !cached.contains_key(p))
}

/// `s` in pieces of `n`, the last one as long as it comes.
pub open spec fn chunked(s: Seq<u32>, n: nat) -> Seq<Seq<u32>>
    decreases s.len(),
{
    if n == 0 || s.len() == 0 {
        Seq::empty()
    } else if s.len() <= n {
        seq![s]
    } else {
        seq![s.take(n as int)] + chunked(s.skip(n as int), n)
    }
}

/// The batches as sequences of pages.
pub open spec fn chunk_views(v: Seq<Vec<u32>>) -> Seq<Seq<u32>> {
    v.map_values(|c: Vec<u32>| c@)
}

/// The batches together are the pages, none is empty, and none is too large.
pub proof fn law_chunks_cover(s: Seq<u32>, n: nat)
    requires
        n > 0,
    ensures
        chunked(s, n).flatten() == s,
        forall|i: int|
            0 <= i < chunked(s, n).len() ==> 0 < (#[trigger] chunked(s, n)[i]).len() <= n,
        forall|i: int|
            0 <= i < chunked(s, n).len() - 1 ==> (#[trigger] chunked(s, n)[i]).len() == n,
    decreases s.len(),
{
    let c = chunked(s, n);
    if s.len() == 0 {
        assert(c.flatten() =~= s);
    } else if s.len() <= n {
        assert(c =~= seq![s]);
        c.lemma_flatten_one_element();
    } else {
        let rest = chunked(s.skip(n as int), n);
        law_chunks_cover(s.skip(n as int), n);
        assert(c.drop_first() =~= rest);
        assert(c.first() == s.take(n as int));
        assert(s =~= s.take(n as int) + s.skip(n as int));
        assert forall|i: int| 0 <= i < c.len() implies 0 < (#[trigger] c[i]).len() <= n by {
            if i > 0 {
                assert(c[i] == rest[i - 1]);
            }
        }
        assert forall|i: int| 0 <= i < c.len() - 1 implies (#[trigger] c[i]).len() == n by {
            if i > 0 {
                assert(c[i] == rest[i - 1]);
            }
        }
    }
}

/// A copy of `v[from..to]`.
fn copy_pages(v: &Vec<u32>, from: usize, to: usize) -> (out: Vec<u32>)
    requires
        from <= to <= v@.len(),
    ensures
        out@ == v@.subrange(from as int, to as int),
{
    let mut out: Vec<u32> = Vec::new();
    let mut i: usize = from;
    while i < to
        invariant
            from <= i <= to <= v@.len(),
            out@ == v@.subrange(from as int, i as int),
        decreases to - i,
    {
        out.push(v[i]);
        proof {
            assert(v@.subrange(from as int, i as int + 1) =~= v@.subrange(
                from as int,
                i as int,
            ).push(v@[i as int]));
        }
        i = i + 1;
    }
    out
}

/// `v` in pieces of `n`.
fn chunk_pages(v: &Vec<u32>, n: usize) -> (out: Vec<Vec<u32>>)
    requires
        n > 0,
    ensures
        chunk_views(out@) == chunked(v@, n as nat),
{
    let mut out: Vec<Vec<u32>> = Vec::new();
    let mut i: usize = 0;
    proof {
        assert(v@.skip(0) =~= v@);
        assert(chunk_views(out@) + chunked(v@, n as nat) =~= chunked(v@, n as nat));
    }
    while i < v.len()
        invariant
            n > 0,
            i <= v@.len(),
            chunk_views(out@) + chunked(v@.skip(i as int), n as nat) == chunked(v@, n as nat),
        decreases v@.len() - i,
    {
        let ghost rest = v@.skip(i as int);
        let ghost done = chunk_views(out@);
        let end: usize = if v.len() - i <= n {
            v.len()
        } else {
            i + n
        };
        let chunk = copy_pages(v, i, end);
        proof {
            assert(chunk@ =~= rest.take(end - i));
            if rest.len() <= n {
                assert(chunk@ =~= rest);
                assert(v@.skip(end as int) =~= Seq::<u32>::empty());
                assert(chunked(v@.skip(end as int), n as nat) =~= Seq::empty());
                assert(chunked(rest, n as nat) =~= seq![chunk@] + chunked(
                    v@.skip(end as int),
                    n as nat,
                ));
            } else {
                assert(rest.skip(n as int) =~= v@.skip(end as int));
            }
            let tail = chunked(v@.skip(end as int), n as nat);
            assert(done + (seq![chunk@] + tail) =~= done.push(chunk@) + tail);
        }
        out.push(chunk);
        proof {
            assert(chunk_views(out@) =~= done.push(out@.last()@));
        }
        i = end;
    }
    proof {
        assert(v@.skip(i as int) =~= Seq::<u32>::empty());
        assert(chunked(v@.skip(i as int), n as nat) =~= Seq::empty());
        assert(chunk_views(out@) + Seq::<Seq<u32>>::empty() =~= chunk_views(out@));
    }
    out
}

/// Checks the pages and splits them into those whose text is known and batches
/// of those whose text is not. `hits` holds, page for page, what the cache
/// gave.
pub fn plan_fine(pages: Vec<u32>, page_count: u32, hits: Vec<Option<String>>) -> (r: Result<
    FinePlan,
    SiftError,
>)
    requires
        hits@.len() == pages@.len(),
    ensures
        match r {
            Ok(plan) => {
                &&& page_check(pages@, page_count) is Ok
                &&& plan.pages@ == pages@
                &&& plan.cached@ == known(pages@, hits@)
                &&& plan.missing@ == unknown(pages@, plan.cached@)
                &&& chunk_views(plan.chunks@) == chunked(
                    plan.missing@,
                    PADDLEOCR_BATCH_SIZE as nat,
                )
            },
            Err(e) => page_check(pages@, page_count) == Err::<(), ErrorView>(e@),
        },
{
    broadcast use vstd::std_specs::hash::group_hash_axioms;

    match validate_pages(pages.as_slice(), page_count) {
        Ok(_) => {},
        Err(e) => {
            return Err(e);
        },
    }
    let mut cached: HashMap<u32, String> = HashMap::new();
    let mut i: usize = 0;
    while i < pages.len()
        invariant
            i <= pages@.len() == hits@.len(),
            cached@ == known(pages@.take(i as int), hits@.take(i as int)),
        decreases pages@.len() - i,
    {
        proof {
            assert(pages@.take(i as int + 1).drop_last() =~= pages@.take(i as int));
            assert(hits@.take(i as int + 1).drop_last() =~= hits@.take(i as int));
        }
        if let Some(text) = &hits[i] {
            cached.insert(pages[i], text.clone());
        }
        i = i + 1;
    }
    proof {
        assert(pages@.take(i as int) =~= pages@);
        assert(hits@.take(i as int) =~= hits@);
    }
    let mut missing: Vec<u32> = Vec::new();
    let ghost absent = |p: u32| !cached@.contains_key(p);
    let mut j: usize = 0;
    proof {
        assert(pages@.take(0) =~= Seq::<u32>::empty());
        reveal(Seq::filter);
        assert(missing@ =~= pages@.take(0).filter(absent));
    }
    while j < pages.len()
        invariant
            j <= pages@.len(),
            absent == (|p: u32| !cached@.contains_key(p)),
            missing@ == pages@.take(j as int).filter(absent),
        decreases pages@.len() - j,
    {
        proof {
            assert(pages@.take(j as int + 1) =~= pages@.take(j as int).push(pages@[j as int]));
            pages@.take(j as int).lemma_filter_push(pages@[j as int], absent);
        }
        if !cached.contains_key(&pages[j]) {
            missing.push(pages[j]);
        }
        j = j + 1;
    }
    proof {
        assert(pages@.take(j as int) =~= pages@);
    }
    let chunks = chunk_pages(&missing, PADDLEOCR_BATCH_SIZE);
    Ok(FinePlan { pages, cached, missing, chunks })
}

/// How a batch ended: with the texts of its pages, or with none of them and a
/// reason.
#[derive(Debug)]
pub enum ChunkResult {
    Done(Vec<(u32, String)>),
    Failed(Vec<u32>, String),
}

/// `m` with the texts of a batch put in.
pub open spec fn with_texts(m: Map<u32, String>, texts: Seq<(u32, String)>) -> Map<u32, String>
    decreases texts.len(),
{
    if texts.len() == 0 {
        m
    } else {
        with_texts(m, texts.drop_last()).insert(texts.last().0, texts.last().1)
    }
}

/// The texts that the batches brought.
pub open spec fn fresh_texts(results: Seq<ChunkResult>) -> Map<u32, String>
    decreases results.len(),
{
    if results.len() == 0 {
        Map::empty()
    } else {
        let m = fresh_texts(results.drop_last());
        match results.last() {
            ChunkResult::Done(texts) => with_texts(m, texts@),
            ChunkResult::Failed(_, _) => m,
        }
    }
}

/// The pages of the batches that failed, in the order in which they did.
pub open spec fn failed_pages(results: Seq<ChunkResult>) -> Seq<u32>
    decreases results.len(),
{
    if results.len() == 0 {
        Seq::empty()
    } else {
        let s = failed_pages(results.drop_last());
        match results.last() {
            ChunkResult::Done(_) => s,
            ChunkResult::Failed(pages, _) => s + pages@,
        }
    }
}

/// The reasons for which batches failed, in the order in which they did.
pub open spec fn reasons(results: Seq<ChunkResult>) -> Seq<Seq<char>>
    decreases results.len(),
{
    if results.len() == 0 {
        Seq::empty()
    } else {
        let s = reasons(results.drop_last());
        match results.last() {
            ChunkResult::Done(_) => s,
            ChunkResult::Failed(_, reason) => s.push(reason@),
        }
    }
}

/// The pages for which there is a text, with it: the known one first.
pub open spec fn found(
    pages: Seq<u32>,
    cached: Map<u32, String>,
    fresh: Map<u32, String>,
) -> Seq<(u32, String)>
    decreases pages.len(),
{
    if pages.len() == 0 {
        Seq::empty()
    } else {
        let s = found(pages.drop_last(), cached, fresh);
        let p = pages.last();
        if cached.contains_key(p) {
            s.push((p, cached[p]))
        } else if fresh.contains_key(p) {
            s.push((p, fresh[p]))
        } else {
            s
        }
    }
}

/// Everything that comes out of text recognition.
#[derive(Debug)]
pub struct FineOutcome {
    /// The pages with their texts, in ascending order.
    pub pages: Vec<(u32, String)>,
    pub cached_n: usize,
    pub api_n: usize,
    pub batches: usize,
    /// The pages that failed, in ascending order, each once.
    pub failed: Vec<u32>,
    /// The reasons, each where it first occurred.
    pub failure_reasons: Vec<String>,
    pub backend: &'static str,
    pub eta_secs: u64,
}

impl FineOutcome {
    /// What a plan and the results of its batches, in the order in which they
    /// came in, amount to.
    pub open spec fn sums_up(
        self,
        pages: Seq<u32>,
        cached: Map<u32, String>,
        missing: Seq<u32>,
        batches: nat,
        results: Seq<ChunkResult>,
    ) -> bool {
        &&& self.pages@ == stable_sorted(found(pages, cached, fresh_texts(results)))
        &&& self.cached_n == cached.dom().len()
        &&& self.api_n == missing.len()
        &&& self.batches == batches
        &&& is_sorted_set(failed_pages(results), self.failed@)
        &&& views(self.failure_reasons@) == distinct(reasons(results))
        &&& self.eta_secs == if batches * FINE_SEC_PER_BATCH <= u64::MAX {
            batches * FINE_SEC_PER_BATCH
        } else {
            u64::MAX as int
        }
    }
}

impl FinePlan {
    /// The batches are those of the pages whose text is not known.
    pub open spec fn sound(self) -> bool {
        &&& self.missing@ == unknown(self.pages@, self.cached@)
        &&& chunk_views(self.chunks@) == chunked(self.missing@, PADDLEOCR_BATCH_SIZE as nat)
    }
}

/// The pages that some texts are of.
pub open spec fn pages_of(texts: Seq<(u32, String)>) -> Seq<u32> {
    texts.map_values(|t: (u32, String)| t.0)
}

/// How a batch ended, by what became of it: an error is that of every page.
pub open spec fn ends_as(
    result: ChunkResult,
    chunk: Seq<u32>,
    got: Result<Vec<(u32, String)>, SiftError>,
) -> bool {
    match (got, result) {
        (Ok(texts), ChunkResult::Done(done)) => done@ == texts@,
        (Err(e), ChunkResult::Failed(pages, reason)) => pages@ == chunk && reason@
            == e@.message(),
        _ => false,
    }
}

/// The batches of a plan on their way: at most `PADDLEOCR_PARALLELISM` at a
/// time, each handed out once, in order, and settled once.
pub struct FineRun {
    plan: FinePlan,
    next: usize,
    pending: Vec<usize>,
    done: Vec<usize>,
    results: Vec<ChunkResult>,
}

impl FineRun {
    pub closed spec fn plan_of(self) -> FinePlan {
        self.plan
    }

    /// How many batches were handed out.
    pub closed spec fn handed_out(self) -> nat {
        self.next as nat
    }

    /// The batches under way, by number.
    pub closed spec fn under_way(self) -> Seq<usize> {
        self.pending@
    }

    /// The batches that are settled, by number, in the order in which they
    /// were.
    pub closed spec fn answered(self) -> Seq<usize> {
        self.done@
    }

    /// The results so far, in the order in which they came in.
    pub closed spec fn settled(self) -> Seq<ChunkResult> {
        self.results@
    }

    /// The pages of a batch.
    pub open spec fn batch(self, at: int) -> Seq<u32> {
        self.plan_of().chunks@[at]@
    }

    /// Every batch handed out is under way or settled, by a result that is
    /// about its pages, and no more are under way than may be.
    pub open spec fn wf(self) -> bool {
        &&& self.plan_of().sound()
        &&& self.handed_out() <= self.plan_of().chunks@.len()
        &&& self.under_way().len() <= PADDLEOCR_PARALLELISM
        &&& self.settled().len() == self.answered().len()
        &&& (self.answered() + self.under_way()).no_duplicates()
        &&& forall|i: int|
            0 <= i < self.under_way().len() ==> #[trigger] self.under_way()[i]
                < self.handed_out()
        &&& forall|i: int|
            0 <= i < self.answered().len() ==> #[trigger] self.answered()[i] < self.handed_out()
        &&& forall|at: usize|
            at < self.handed_out() ==> #[trigger] self.under_way().contains(at)
                || self.answered().contains(at)
        &&& forall|i: int|
            0 <= i < self.settled().len() ==> answers(
                #[trigger] self.settled()[i],
                self.batch(self.answered()[i] as int),
            )
    }

    /// Every batch is settled.
    pub open spec fn complete(self) -> bool {
        self.under_way().len() == 0 && self.handed_out() == self.plan_of().chunks@.len()
    }

    /// Nothing is handed out yet.
    pub fn start(plan: FinePlan) -> (run: FineRun)
        requires
            plan.sound(),
        ensures
            run.wf(),
            run.plan_of() == plan,
            run.handed_out() == 0,
            run.under_way() == Seq::<usize>::empty(),
            run.answered() == Seq::<usize>::empty(),
            run.settled() == Seq::<ChunkResult>::empty(),
    {
        FineRun { plan, next: 0, pending: Vec::new(), done: Vec::new(), results: Vec::new() }
    }

    /// The next batch to send off, with its number, if there is one and there
    /// is room.
    pub fn hand_out(&mut self) -> (r: Option<(usize, Vec<u32>)>)
        requires
            old(self).wf(),
        ensures
            final(self).wf(),
            final(self).plan_of() == old(self).plan_of(),
            final(self).settled() == old(self).settled(),
            final(self).answered() == old(self).answered(),
            match r {
                Some((at, chunk)) => {
                    &&& old(self).under_way().len() < PADDLEOCR_PARALLELISM
                    &&& old(self).handed_out() < old(self).plan_of().chunks@.len()
                    &&& at == old(self).handed_out()
                    &&& chunk@ == old(self).batch(at as int)
                    &&& final(self).handed_out() == old(self).handed_out() + 1
                    &&& final(self).under_way() == old(self).under_way().push(at)
                },
                None => {
                    &&& old(self).under_way().len() == PADDLEOCR_PARALLELISM || old(
                        self,
                    ).handed_out() == old(self).plan_of().chunks@.len()
                    &&& final(self).handed_out() == old(self).handed_out()
                    &&& final(self).under_way() == old(self).under_way()
                },
            },
    {
        if self.pending.len() >= PADDLEOCR_PARALLELISM || self.next >= self.plan.chunks.len() {
            return None;
        }
        let at: usize = self.next;
        let n: usize = self.plan.chunks[at].len();
        let chunk = copy_pages(&self.plan.chunks[at], 0, n);
        let ghost under_way = self.pending@;
        let ghost answered = self.done@;
        proof {
            assert(chunk@ =~= self.plan.chunks@[at as int]@);
        }
        self.next = at + 1;
        self.pending.push(at);
        proof {
            let all = answered + under_way;
            assert(answered + self.pending@ =~= all.push(at));
            assert forall|i: int| 0 <= i < all.len() implies #[trigger] all[i] != at by {
                if i < answered.len() {
                    assert(answered[i] < at);
                } else {
                    assert(under_way[i - answered.len()] < at);
                }
            }
            assert forall|b: usize| b < self.next implies #[trigger] self.pending@.contains(b)
                || answered.contains(b) by {
                if b == at {
                    assert(self.pending@[under_way.len() as int] == b);
                } else if under_way.contains(b) {
                    let k = choose|k: int| 0 <= k < under_way.len() && under_way[k] == b;
                    assert(self.pending@[k] == b);
                }
            }
        }
        Some((at, chunk))
    }

    /// Takes in what became of a batch. An error drops every page of it, and
    /// no page of any other.
    pub fn settle(&mut self, at: usize, got: Result<Vec<(u32, String)>, SiftError>)
        requires
            old(self).wf(),
            old(self).under_way().contains(at),
            got matches Ok(texts) ==> pages_of(texts@) == old(self).batch(at as int),
        ensures
            final(self).wf(),
            final(self).plan_of() == old(self).plan_of(),
            final(self).handed_out() == old(self).handed_out(),
            final(self).under_way() == old(self).under_way().remove_value(at),
            final(self).answered() == old(self).answered().push(at),
            final(self).settled().len() == old(self).settled().len() + 1,
            final(self).settled().drop_last() == old(self).settled(),
            ends_as(final(self).settled().last(), old(self).batch(at as int), got),
    {
        let ghost under_way = self.pending@;
        let ghost answered = self.done@;
        let ghost results = self.results@;
        let k: usize = self.find_pending(at);
        proof {
            lemma_run_moves(answered, under_way, at, k as int);
            assert(under_way[k as int] == at);
            assert(at < self.next);
        }
        let n: usize = self.plan.chunks[at].len();
        let result = match got {
            Ok(texts) => {
                proof {
                    lemma_texts_answer(texts@, self.plan.chunks@[at as int]@);
                }
                ChunkResult::Done(texts)
            },
            Err(e) => {
                let pages = copy_pages(&self.plan.chunks[at], 0, n);
                proof {
                    assert(pages@ =~= self.plan.chunks@[at as int]@);
                }
                ChunkResult::Failed(pages, e.message())
            },
        };
        let ghost last = result;
        self.pending.remove(k);
        self.done.push(at);
        self.results.push(result);
        proof {
            assert(self.results@.drop_last() =~= results);
            assert(self.pending@ == under_way.remove(k as int));
            assert forall|i: int| 0 <= i < self.results@.len() implies answers(
                #[trigger] self.results@[i],
                self.batch(self.done@[i] as int),
            ) by {
                if i < results.len() {
                    assert(self.results@[i] == results[i]);
                    assert(self.done@[i] == answered[i]);
                } else {
                    assert(self.results@[i] == last);
                }
            }
            assert forall|i: int| 0 <= i < self.done@.len() implies #[trigger] self.done@[i]
                < self.next by {
                if i < answered.len() {
                    assert(answered[i] < self.next);
                }
            }
            assert forall|i: int| 0 <= i < self.pending@.len() implies #[trigger] self.pending@[i]
                < self.next by {
                if i < k {
                    assert(self.pending@[i] == under_way[i]);
                } else {
                    assert(self.pending@[i] == under_way[i + 1]);
                }
            }
            assert forall|b: usize| b < self.next implies #[trigger] self.pending@.contains(b)
                || self.done@.contains(b) by {
                assert(under_way.contains(b) || answered.contains(b));
            }
        }
    }

    /// Where a batch stands among those under way.
    fn find_pending(&self, at: usize) -> (k: usize)
        requires
            self.under_way().contains(at),
        ensures
            k < self.under_way().len(),
            self.under_way()[k as int] == at,
            forall|i: int| 0 <= i < k ==> #[trigger] self.under_way()[i] != at,
    {
        let mut k: usize = 0;
        let ghost here = choose|i: int| 0 <= i < self.pending@.len() && self.pending@[i] == at;
        while self.pending[k] != at
            invariant
                0 <= here < self.pending@.len(),
                self.pending@[here] == at,
                k <= here,
                forall|i: int| 0 <= i < k ==> #[trigger] self.pending@[i] != at,
            decreases self.pending@.len() - k,
        {
            assert(k < self.pending.len());
            k = k + 1;
        }
        k
    }

    /// Whether batches are under way.
    pub fn busy(&self) -> (r: bool)
        ensures
            r == (self.under_way().len() > 0),
    {
        self.pending.len() > 0
    }

    /// Sums up once every batch is settled: the pages with a text and those
    /// that failed are together exactly the pages asked for.
    pub fn finish(self, backend: &'static str) -> (out: FineOutcome)
        requires
            self.wf(),
            self.complete(),
        ensures
            out.sums_up(
                self.plan_of().pages@,
                self.plan_of().cached@,
                self.plan_of().missing@,
                self.plan_of().chunks@.len(),
                self.settled(),
            ),
            out.backend@ == backend@,
            forall|p: u32|
                self.plan_of().pages@.contains(p) <==> #[trigger] out.failed@.contains(p)
                    || has_page(out.pages@, p),
    {
        let out = fine(&self.plan, &self.results, backend);
        proof {
            assert forall|p: u32|
                self.plan_of().pages@.contains(p) <==> #[trigger] out.failed@.contains(p)
                    || has_page(out.pages@, p) by {
                law_every_page_is_accounted_for(self, out, p);
            }
        }
        out
    }
}

/// A request holds eight pages at most, and only the last may hold fewer; no more
/// than four requests are under way at one time.
pub proof fn law_requests_are_limited(run: FineRun, i: int)
    requires
        run.wf(),
        0 <= i < run.plan_of().chunks@.len(),
    ensures
        1 <= run.plan_of().chunks@[i]@.len() <= 8,
        i < run.plan_of().chunks@.len() - 1 ==> run.plan_of().chunks@[i]@.len() == 8,
        run.under_way().len() <= 4,
{
    let plan = run.plan_of();
    law_chunks_cover(plan.missing@, PADDLEOCR_BATCH_SIZE as nat);
    assert(chunk_views(plan.chunks@)[i] == plan.chunks@[i]@);
}

/// Moving a batch from those under way to those settled.
proof fn lemma_run_moves(answered: Seq<usize>, under_way: Seq<usize>, at: usize, k: int)
    requires
        (answered + under_way).no_duplicates(),
        0 <= k < under_way.len(),
        under_way[k] == at,
        forall|i: int| 0 <= i < k ==> #[trigger] under_way[i] != at,
    ensures
        under_way.remove(k) == under_way.remove_value(at),
        (answered.push(at) + under_way.remove(k)).no_duplicates(),
        forall|b: usize|
            under_way.contains(b) || answered.contains(b) ==> #[trigger] under_way.remove(
                k,
            ).contains(b) || answered.push(at).contains(b),
{
    let all = answered + under_way;
    let rest = under_way.remove(k);
    let new = answered.push(at) + rest;
    under_way.index_of_first_ensures(at);
    assert(under_way.index_of_first(at) == Some(k)) by {
        let f = under_way.index_of_first(at)->Some_0;
        if f < k {
            assert(under_way[f] != at);
        }
    }
    let n = answered.len() as int;
    assert forall|i: int, j: int| 0 <= i < new.len() && 0 <= j < new.len() && i != j implies new[i]
        != new[j] by {
        let a = if i < n {
            i
        } else if i == n {
            n + k
        } else if i - n - 1 < k {
            i - 1
        } else {
            i
        };
        let b = if j < n {
            j
        } else if j == n {
            n + k
        } else if j - n - 1 < k {
            j - 1
        } else {
            j
        };
        assert(new[i] == all[a]);
        assert(new[j] == all[b]);
        assert(a != b);
    }
    assert forall|b: usize| under_way.contains(b) || answered.contains(b) implies
        #[trigger] rest.contains(b) || answered.push(at).contains(b) by {
        if answered.contains(b) {
            let i = choose|i: int| 0 <= i < answered.len() && answered[i] == b;
            assert(answered.push(at)[i] == b);
        } else {
            let i = choose|i: int| 0 <= i < under_way.len() && under_way[i] == b;
            if i == k {
                assert(answered.push(at)[n] == b);
            } else if i < k {
                assert(rest[i] == b);
            } else {
                assert(rest[i - 1] == b);
            }
        }
    }
}

/// Texts of exactly the pages of a batch answer it.
proof fn lemma_texts_answer(texts: Seq<(u32, String)>, chunk: Seq<u32>)
    requires
        pages_of(texts) == chunk,
    ensures
        forall|p: u32| chunk.contains(p) <==> has_page(texts, p),
{
    assert forall|p: u32| chunk.contains(p) <==> has_page(texts, p) by {
        if chunk.contains(p) {
            let i = choose|i: int| 0 <= i < chunk.len() && chunk[i] == p;
            assert(texts[i].0 == p);
        }
        if has_page(texts, p) {
            let i = choose|i: int| 0 <= i < texts.len() && (#[trigger] texts[i]).0 == p;
            assert(chunk[i] == p);
        }
    }
}

/// Puts the texts of a batch into a map.
fn put_texts(m: &mut HashMap<u32, String>, texts: &Vec<(u32, String)>)
    ensures
        final(m)@ == with_texts(old(m)@, texts@),
{
    broadcast use vstd::std_specs::hash::group_hash_axioms;

    let ghost start = m@;
    let mut i: usize = 0;
    while i < texts.len()
        invariant
            i <= texts@.len(),
            m@ == with_texts(start, texts@.take(i as int)),
        decreases texts@.len() - i,
    {
        proof {
            assert(texts@.take(i as int + 1).drop_last() =~= texts@.take(i as int));
        }
        let text = texts[i].1.clone();
        m.insert(texts[i].0, text);
        i = i + 1;
    }
    proof {
        assert(texts@.take(i as int) =~= texts@);
    }
}

/// The pages with a text, in the order asked for.
fn collect_found(
    pages: &Vec<u32>,
    cached: &HashMap<u32, String>,
    fresh: &HashMap<u32, String>,
) -> (out: Vec<(u32, String)>)
    ensures
        out@ == found(pages@, cached@, fresh@),
{
    broadcast use vstd::std_specs::hash::group_hash_axioms;

    let mut out: Vec<(u32, String)> = Vec::new();
    let mut i: usize = 0;
    while i < pages.len()
        invariant
            i <= pages@.len(),
            out@ == found(pages@.take(i as int), cached@, fresh@),
        decreases pages@.len() - i,
    {
        proof {
            assert(pages@.take(i as int + 1).drop_last() =~= pages@.take(i as int));
        }
        let p: u32 = pages[i];
        match cached.get(&p) {
            Some(text) => {
                out.push((p, text.clone()));
            },
            None => {
                if let Some(text) = fresh.get(&p) {
                    out.push((p, text.clone()));
                }
            },
        }
        i = i + 1;
    }
    proof {
        assert(pages@.take(i as int) =~= pages@);
    }
    out
}

/// Sums up a plan and the results of its batches: the known texts and the new
/// ones by page, the pages that failed and why.
pub fn fine(plan: &FinePlan, results: &Vec<ChunkResult>, backend: &'static str) -> (out:
    FineOutcome)
    ensures
        out.sums_up(
            plan.pages@,
            plan.cached@,
            plan.missing@,
            plan.chunks@.len(),
            results@,
        ),
        out.backend@ == backend@,
{
    broadcast use vstd::std_specs::hash::group_hash_axioms;

    let mut fresh: HashMap<u32, String> = HashMap::new();
    let mut failed: Vec<u32> = Vec::new();
    let mut failure_reasons: Vec<String> = Vec::new();
    let mut i: usize = 0;
    proof {
        assert(views(failure_reasons@) =~= distinct(reasons(results@.take(0))));
    }
    while i < results.len()
        invariant
            i <= results@.len(),
            fresh@ == fresh_texts(results@.take(i as int)),
            failed@ == failed_pages(results@.take(i as int)),
            views(failure_reasons@) == distinct(reasons(results@.take(i as int))),
        decreases results@.len() - i,
    {
        proof {
            assert(results@.take(i as int + 1).drop_last() =~= results@.take(i as int));
            assert(results@.take(i as int + 1).last() == results@[i as int]);
        }
        match &results[i] {
            ChunkResult::Done(texts) => {
                put_texts(&mut fresh, texts);
            },
            ChunkResult::Failed(pages, reason) => {
                let mut copy = copy_pages(pages, 0, pages.len());
                proof {
                    assert(copy@ =~= pages@);
                    let now = reasons(results@.take(i as int + 1));
                    assert(now.drop_last() =~= reasons(results@.take(i as int)));
                }
                failed.append(&mut copy);
                push_distinct(&mut failure_reasons, reason.as_str());
            },
        }
        i = i + 1;
    }
    proof {
        assert(results@.take(i as int) =~= results@);
    }
    let merged = stable_sort(collect_found(&plan.pages, &plan.cached, &fresh));
    let failed = sorted_distinct(failed);
    let batches: usize = plan.chunks.len();
    FineOutcome {
        pages: merged,
        cached_n: plan.cached.len(),
        api_n: plan.missing.len(),
        batches,
        failed,
        failure_reasons,
        backend,
        eta_secs: eta_secs(batches),
    }
}

/// How long the batches are expected to take.
pub fn eta_secs(batches: usize) -> (r: u64)
    ensures
        r == if batches * FINE_SEC_PER_BATCH <= u64::MAX {
            batches * FINE_SEC_PER_BATCH
        } else {
            u64::MAX as int
        },
{
    let n: u64 = batches as u64;
    if n <= u64::MAX / FINE_SEC_PER_BATCH {
        n * FINE_SEC_PER_BATCH
    } else {
        u64::MAX
    }
}

/// There is a text for page `p`.
pub open spec fn has_page(texts: Seq<(u32, String)>, p: u32) -> bool {
    exists|i: int| 0 <= i < texts.len() && (#[trigger] texts[i]).0 == p
}

/// `result` is about the pages of `chunk` and no others: it has a text for each
/// of them or names them as failed.
pub open spec fn answers(result: ChunkResult, chunk: Seq<u32>) -> bool {
    match result {
        ChunkResult::Done(texts) => forall|p: u32|
            chunk.contains(p) <==> has_page(texts@, p),
        ChunkResult::Failed(pages, _) => pages@ == chunk,
    }
}

proof fn lemma_with_texts_keeps(m: Map<u32, String>, texts: Seq<(u32, String)>, p: u32)
    requires
        m.contains_key(p) || has_page(texts, p),
    ensures
        with_texts(m, texts).contains_key(p),
    decreases texts.len(),
{
    if texts.len() > 0 {
        if texts.last().0 != p {
            let rest = texts.drop_last();
            if !m.contains_key(p) {
                let i = choose|i: int| 0 <= i < texts.len() && (#[trigger] texts[i]).0 == p;
                assert(rest[i].0 == p);
            }
            lemma_with_texts_keeps(m, rest, p);
        }
    }
}

/// A page that some result answers for has a text or is among the failed.
proof fn lemma_answered(results: Seq<ChunkResult>, chunk: Seq<u32>, k: int, p: u32)
    requires
        0 <= k < results.len(),
        answers(results[k], chunk),
        chunk.contains(p),
    ensures
        fresh_texts(results).contains_key(p) || failed_pages(results).contains(p),
    decreases results.len(),
{
    let rest = results.drop_last();
    if k == results.len() - 1 {
        match results.last() {
            ChunkResult::Done(texts) => {
                lemma_with_texts_keeps(fresh_texts(rest), texts@, p);
            },
            ChunkResult::Failed(pages, _) => {
                let i = choose|i: int| 0 <= i < pages@.len() && pages@[i] == p;
                let s = failed_pages(rest);
                assert((s + pages@)[s.len() + i] == p);
            },
        }
    } else {
        assert(rest[k] == results[k]);
        lemma_answered(rest, chunk, k, p);
        match results.last() {
            ChunkResult::Done(texts) => {
                if fresh_texts(rest).contains_key(p) {
                    lemma_with_texts_keeps(fresh_texts(rest), texts@, p);
                }
            },
            ChunkResult::Failed(pages, _) => {
                let s = failed_pages(rest);
                if s.contains(p) {
                    let i = choose|i: int| 0 <= i < s.len() && s[i] == p;
                    assert((s + pages@)[i] == p);
                }
            },
        }
    }
}

proof fn lemma_found(
    pages: Seq<u32>,
    cached: Map<u32, String>,
    fresh: Map<u32, String>,
    p: u32,
)
    requires
        pages.contains(p),
        cached.contains_key(p) || fresh.contains_key(p),
    ensures
        has_page(found(pages, cached, fresh), p),
    decreases pages.len(),
{
    let s = found(pages, cached, fresh);
    let rest = found(pages.drop_last(), cached, fresh);
    if pages.last() == p {
        assert(s[s.len() - 1].0 == p);
    } else {
        let k = choose|k: int| 0 <= k < pages.len() && pages[k] == p;
        assert(pages.drop_last()[k] == p);
        lemma_found(pages.drop_last(), cached, fresh, p);
        let i = choose|i: int| 0 <= i < rest.len() && (#[trigger] rest[i]).0 == p;
        assert(s[i].0 == p);
    }
}

/// What is among the failed was in some batch.
proof fn lemma_failed_was_asked(results: Seq<ChunkResult>, p: u32) -> (k: int)
    requires
        failed_pages(results).contains(p),
    ensures
        0 <= k < results.len(),
        results[k] is Failed,
        results[k]->Failed_0@.contains(p),
    decreases results.len(),
{
    let rest = results.drop_last();
    let s = failed_pages(rest);
    if s.contains(p) {
        let k = lemma_failed_was_asked(rest, p);
        assert(rest[k] == results[k]);
        k
    } else {
        let all = failed_pages(results);
        let i = choose|i: int| 0 <= i < all.len() && all[i] == p;
        if i < s.len() {
            assert(s[i] == p);
        }
        assert(results.last()->Failed_0@[i - s.len()] == p);
        results.len() - 1
    }
}

/// What is found was asked for.
proof fn lemma_found_was_asked(
    pages: Seq<u32>,
    cached: Map<u32, String>,
    fresh: Map<u32, String>,
    p: u32,
)
    requires
        has_page(found(pages, cached, fresh), p),
    ensures
        pages.contains(p),
    decreases pages.len(),
{
    let s = found(pages, cached, fresh);
    if pages.len() > 0 {
        let rest = found(pages.drop_last(), cached, fresh);
        let i = choose|i: int| 0 <= i < s.len() && (#[trigger] s[i]).0 == p;
        if i < rest.len() {
            assert(rest[i].0 == p);
            lemma_found_was_asked(pages.drop_last(), cached, fresh, p);
            let k = choose|k: int| 0 <= k < pages.drop_last().len() && pages.drop_last()[k] == p;
            assert(pages[k] == p);
        } else {
            assert(pages[pages.len() - 1] == p);
        }
    }
}

/// What is in a batch is in the list that the batches were made of.
proof fn lemma_chunk_in_whole(chunks: Seq<Seq<u32>>, i: int, p: u32)
    requires
        0 <= i < chunks.len(),
        chunks[i].contains(p),
    ensures
        chunks.flatten().contains(p),
    decreases chunks.len(),
{
    let first = chunks.first();
    let rest = chunks.drop_first();
    let all = chunks.flatten();
    if i == 0 {
        let k = choose|k: int| 0 <= k < first.len() && first[k] == p;
        assert(all[k] == p);
    } else {
        assert(rest[i - 1] == chunks[i]);
        lemma_chunk_in_whole(rest, i - 1, p);
        let k = choose|k: int| 0 <= k < rest.flatten().len() && rest.flatten()[k] == p;
        assert(all[first.len() + k] == p);
    }
}

/// No page is lost and none is made up: once every batch is settled, a page is
/// among those with a text or among the failed exactly if it was asked for.
pub proof fn law_every_page_is_accounted_for(run: FineRun, out: FineOutcome, p: u32)
    requires
        run.wf(),
        run.complete(),
        out.sums_up(
            run.plan_of().pages@,
            run.plan_of().cached@,
            run.plan_of().missing@,
            run.plan_of().chunks@.len(),
            run.settled(),
        ),
    ensures
        run.plan_of().pages@.contains(p) <==> has_page(out.pages@, p) || out.failed@.contains(p),
{
    let pages = run.plan_of().pages@;
    let cached = run.plan_of().cached@;
    let chunks = chunk_views(run.plan_of().chunks@);
    let results = run.settled();
    let fresh = fresh_texts(results);
    let list = found(pages, cached, fresh);
    let missing = unknown(pages, cached);
    let absent = |q: u32| !cached.contains_key(q);
    law_chunks_cover(missing, PADDLEOCR_BATCH_SIZE as nat);
    if pages.contains(p) && !cached.contains_key(p) {
        let k = choose|k: int| 0 <= k < pages.len() && pages[k] == p;
        pages.lemma_filter_contains(absent, k);
        assert(missing.contains(p));
        lemma_in_some_chunk(chunks, p);
        let i = choose|i: int| 0 <= i < chunks.len() && (#[trigger] chunks[i]).contains(p);
        let at = i as usize;
        assert(run.under_way().contains(at) || run.answered().contains(at));
        let r = choose|r: int| 0 <= r < run.answered().len() && run.answered()[r] == at;
        assert(answers(results[r], run.batch(at as int)));
        lemma_answered(results, chunks[i], r, p);
        if !fresh.contains_key(p) {
            assert(failed_pages(results).contains(p));
        }
    }
    if pages.contains(p) && (cached.contains_key(p) || fresh.contains_key(p)) {
        lemma_found(pages, cached, fresh, p);
        let i = choose|i: int| 0 <= i < list.len() && (#[trigger] list[i]).0 == p;
        assert(list.contains(list[i]));
        crate::order::lemma_stable_sorted_contains(list, list[i]);
        let j = choose|j: int| 0 <= j < out.pages@.len() && out.pages@[j] == list[i];
        assert(out.pages@[j].0 == p);
    }
    if has_page(out.pages@, p) {
        let j = choose|j: int| 0 <= j < out.pages@.len() && (#[trigger] out.pages@[j]).0 == p;
        assert(out.pages@.contains(out.pages@[j]));
        crate::order::lemma_stable_sorted_contains(list, out.pages@[j]);
        let i = choose|i: int| 0 <= i < list.len() && list[i] == out.pages@[j];
        assert(list[i].0 == p);
        lemma_found_was_asked(pages, cached, fresh, p);
    }
    if out.failed@.contains(p) {
        let r = lemma_failed_was_asked(results, p);
        let at = run.answered()[r];
        assert(answers(results[r], run.batch(at as int)));
        assert(chunks[at as int].contains(p));
        lemma_chunk_in_whole(chunks, at as int, p);
        assert(missing.contains(p));
        pages.lemma_filter_contains_rev(absent, p);
    }
}

proof fn lemma_in_some_chunk(chunks: Seq<Seq<u32>>, p: u32)
    requires
        chunks.flatten().contains(p),
    ensures
        exists|i: int| 0 <= i < chunks.len() && (#[trigger] chunks[i]).contains(p),
    decreases chunks.len(),
{
    if chunks.len() > 0 {
        let first = chunks.first();
        let rest = chunks.drop_first();
        let all = chunks.flatten();
        let k = choose|k: int| 0 <= k < all.len() && all[k] == p;
        if k < first.len() {
            assert(first[k] == p);
            assert(chunks[0].contains(p));
        } else {
            assert(rest.flatten()[k - first.len()] == p);
            lemma_in_some_chunk(rest, p);
            let i = choose|i: int| 0 <= i < rest.len() && (#[trigger] rest[i]).contains(p);
            assert(chunks[i + 1].contains(p));
        }
    }
}

/// A page that the cache had is known by the last text that it had for it; one
/// that it did not have is not known.
pub proof fn law_known_texts_are_those_of_the_cache(
    pages: Seq<u32>,
    hits: Seq<Option<String>>,
    p: u32,
    n: int,
)
    requires
        hits.len() == pages.len(),
        -1 <= n < pages.len(),
        n >= 0 ==> pages[n] == p && hits[n] is Some,
        forall|i: int| n < i < pages.len() ==> #[trigger] pages[i] != p || hits[i] is None,
    ensures
        n < 0 ==> !known(pages, hits).contains_key(p),
        n >= 0 ==> known(pages, hits).contains_key(p) && Some(known(pages, hits)[p]) == hits[n],
    decreases pages.len(),
{
    if pages.len() > 0 && n < pages.len() - 1 {
        assert(pages[pages.len() - 1] != p || hits[pages.len() - 1] is None);
        law_known_texts_are_those_of_the_cache(pages.drop_last(), hits.drop_last(), p, n);
    }
}

/// The pages that go to text recognition are those asked for whose text is not
/// known, as often and in the order in which they were asked for.
pub proof fn law_only_unknown_pages_are_sent_off(
    a: Seq<u32>,
    p: u32,
    b: Seq<u32>,
    cached: Map<u32, String>,
)
    ensures
        unknown(a + seq![p] + b, cached) == unknown(a, cached) + (if cached.contains_key(p) {
            Seq::empty()
        } else {
            seq![p]
        }) + unknown(b, cached),
{
    let open = |x: u32| !cached.contains_key(x);
    Seq::filter_distributes_over_add(a + seq![p], b, open);
    Seq::filter_distributes_over_add(a, seq![p], open);
    assert(seq![p].filter(open) =~= if open(p) {
        seq![p]
    } else {
        Seq::empty()
    }) by {
        reveal_with_fuel(Seq::filter, 2);
        assert(seq![p].drop_last() =~= Seq::empty());
        assert(seq![p].last() == p);
    }
}

/// Where no page is asked for twice, the known pages and those that are sent off
/// are together as many as were asked for.
pub proof fn law_known_and_unknown_make_up_the_pages(pages: Seq<u32>, hits: Seq<Option<String>>)
    requires
        hits.len() == pages.len(),
        pages.no_duplicates(),
    ensures
        known(pages, hits).dom().finite(),
        known(pages, hits).dom().len() + unknown(pages, known(pages, hits)).len() == pages.len(),
        forall|p: u32| #[trigger] known(pages, hits).contains_key(p) ==> pages.contains(p),
    decreases pages.len(),
{
    let all = known(pages, hits);
    let open = |p: u32| !all.contains_key(p);
    reveal(Seq::filter);
    if pages.len() > 0 {
        let d = pages.drop_last();
        let e = hits.drop_last();
        let p = pages.last();
        let before = known(d, e);
        law_known_and_unknown_make_up_the_pages(d, e);
        assert(!d.contains(p)) by {
            if d.contains(p) {
                let i = choose|i: int| 0 <= i < d.len() && d[i] == p;
                assert(pages[i] == pages[pages.len() - 1]);
            }
        }
        assert(unknown(d, all) == unknown(d, before)) by {
            lemma_same_filter(d, open, |x: u32| !before.contains_key(x));
        }
        assert(pages[pages.len() - 1] == p);
        assert forall|x: u32| #[trigger] all.contains_key(x) implies pages.contains(x) by {
            if x != p {
                assert(before.contains_key(x));
                let i = choose|i: int| 0 <= i < d.len() && d[i] == x;
                assert(pages[i] == x);
            }
        }
    }
}

proof fn lemma_same_filter(s: Seq<u32>, f: spec_fn(u32) -> bool, g: spec_fn(u32) -> bool)
    requires
        forall|i: int| 0 <= i < s.len() ==> f(#[trigger] s[i]) == g(s[i]),
    ensures
        s.filter(f) == s.filter(g),
    decreases s.len(),
{
    reveal(Seq::filter);
    if s.len() > 0 {
        let d = s.drop_last();
        assert forall|i: int| 0 <= i < d.len() implies f(#[trigger] d[i]) == g(d[i]) by {
            assert(f(s[i]) == g(s[i]));
        }
        lemma_same_filter(d, f, g);
        assert(f(s[s.len() - 1]) == g(s[s.len() - 1]));
    }
}

/// The account of a run: as many pages from the cache as it knew, as many sent off
/// as it did not know, together as many as were asked for where none was asked for
/// twice; and three seconds for each batch.
pub proof fn law_the_account_covers_the_pages(
    out: FineOutcome,
    pages: Seq<u32>,
    hits: Seq<Option<String>>,
    batches: nat,
    results: Seq<ChunkResult>,
)
    requires
        hits.len() == pages.len(),
        pages.no_duplicates(),
        out.sums_up(
            pages,
            known(pages, hits),
            unknown(pages, known(pages, hits)),
            batches,
            results,
        ),
    ensures
        out.cached_n + out.api_n == pages.len(),
        (forall|i: int| 0 <= i < hits.len() ==> (#[trigger] hits[i]) is None) ==> out.api_n
            == pages.len(),
        out.batches == batches,
        batches <= 1_000_000_000 ==> out.eta_secs == 3 * batches,
{
    law_known_and_unknown_make_up_the_pages(pages, hits);
    if forall|i: int| 0 <= i < hits.len() ==> (#[trigger] hits[i]) is None {
        lemma_nothing_known(pages, hits);
    }
}

proof fn lemma_nothing_known(pages: Seq<u32>, hits: Seq<Option<String>>)
    requires
        hits.len() == pages.len(),
        forall|i: int| 0 <= i < hits.len() ==> (#[trigger] hits[i]) is None,
    ensures
        known(pages, hits) == Map::<u32, String>::empty(),
    decreases pages.len(),
{
    if pages.len() > 0 {
        let e = hits.drop_last();
        assert forall|i: int| 0 <= i < e.len() implies (#[trigger] e[i]) is None by {
            assert(hits[i] is None);
        }
        assert(hits[hits.len() - 1] is None);
        lemma_nothing_known(pages.drop_last(), e);
    }
}

/// The reason why a batch failed is the text of its error, and it is the failure of
/// all its pages; a batch that came through keeps its texts.
pub proof fn law_an_error_is_that_of_every_page(
    result: ChunkResult,
    chunk: Seq<u32>,
    got: Result<Vec<(u32, String)>, SiftError>,
)
    requires
        ends_as(result, chunk, got),
    ensures
        got is Err <==> result is Failed,
        got matches Err(e) ==> result->Failed_0@ == chunk && result->Failed_1@ == e@.message(),
        got matches Ok(texts) ==> result->Done_0@ == texts@,
{
}

/// What is found for a page is its known text, or else a new one.
proof fn lemma_found_text(
    pages: Seq<u32>,
    cached: Map<u32, String>,
    fresh: Map<u32, String>,
    i: int,
)
    requires
        0 <= i < found(pages, cached, fresh).len(),
    ensures
        ({
            let (p, text) = found(pages, cached, fresh)[i];
            &&& pages.contains(p)
            &&& cached.contains_key(p) ==> text == cached[p]
            &&& !cached.contains_key(p) ==> fresh.contains_key(p) && text == fresh[p]
        }),
    decreases pages.len(),
{
    let d = pages.drop_last();
    let before = found(d, cached, fresh);
    assert(pages[pages.len() - 1] == pages.last());
    if i < before.len() {
        lemma_found_text(d, cached, fresh, i);
        assert(found(pages, cached, fresh)[i] == before[i]);
        let k = choose|k: int| 0 <= k < d.len() && d[k] == before[i].0;
        assert(pages[k] == before[i].0);
    }
}

/// A text that a batch brought for a page is one of its texts.
proof fn lemma_brought(m: Map<u32, String>, texts: Seq<(u32, String)>, p: u32)
    requires
        with_texts(m, texts).contains_key(p),
    ensures
        m.contains_key(p) && with_texts(m, texts)[p] == m[p] || texts.contains(
            (p, with_texts(m, texts)[p]),
        ),
    decreases texts.len(),
{
    if texts.len() > 0 {
        let d = texts.drop_last();
        if texts.last().0 == p {
            assert(texts[texts.len() - 1] == (p, with_texts(m, texts)[p]));
        } else {
            lemma_brought(m, d, p);
            if d.contains((p, with_texts(m, d)[p])) {
                let k = choose|k: int| 0 <= k < d.len() && d[k] == (p, with_texts(m, d)[p]);
                assert(texts[k] == d[k]);
            }
        }
    }
}

proof fn lemma_fresh_text(results: Seq<ChunkResult>, p: u32) -> (k: int)
    requires
        fresh_texts(results).contains_key(p),
    ensures
        0 <= k < results.len(),
        results[k] matches ChunkResult::Done(texts) && texts@.contains((p, fresh_texts(results)[p])),
    decreases results.len(),
{
    let d = results.drop_last();
    match results.last() {
        ChunkResult::Done(texts) => {
            let m = fresh_texts(d);
            lemma_brought(m, texts@, p);
            if texts@.contains((p, fresh_texts(results)[p])) {
                results.len() - 1
            } else {
                lemma_fresh_text(d, p)
            }
        },
        ChunkResult::Failed(_, _) => { lemma_fresh_text(d, p) },
    }
}

/// The pages come out in ascending order, each one of those asked for. The text
/// of a page is the known one where there is one; otherwise it is one that a
/// batch brought for that page.
pub proof fn law_pages_come_out_with_their_own_texts(
    out: FineOutcome,
    pages: Seq<u32>,
    cached: Map<u32, String>,
    missing: Seq<u32>,
    batches: nat,
    results: Seq<ChunkResult>,
    i: int,
    j: int,
)
    requires
        out.sums_up(pages, cached, missing, batches, results),
        0 <= i < out.pages@.len(),
    ensures
        i < j < out.pages@.len() ==> out.pages@[i].0 <= out.pages@[j].0,
        ({
            let (p, text) = out.pages@[i];
            &&& pages.contains(p)
            &&& cached.contains_key(p) ==> text == cached[p]
            &&& !cached.contains_key(p) ==> exists|k: int|
                0 <= k < results.len() && ((#[trigger] results[k]) matches ChunkResult::Done(texts)
                    && texts@.contains((p, text)))
        }),
{
    let fresh = fresh_texts(results);
    let all = found(pages, cached, fresh);
    let s = stable_sorted(all);
    lemma_stable_sorted(all);
    assert(s.contains(s[i]));
    lemma_stable_sorted_contains(all, s[i]);
    let at = choose|at: int| 0 <= at < all.len() && all[at] == s[i];
    lemma_found_text(pages, cached, fresh, at);
    if !cached.contains_key(s[i].0) {
        let k = lemma_fresh_text(results, s[i].0);
        assert(results[k] is Done);
    }
}

/// The pages that failed are those of the batches that did, in ascending order and
/// each once, and every reason that a batch gave is told once.
pub proof fn law_every_failure_is_told_once(
    out: FineOutcome,
    pages: Seq<u32>,
    cached: Map<u32, String>,
    missing: Seq<u32>,
    batches: nat,
    results: Seq<ChunkResult>,
    p: u32,
    reason: Seq<char>,
)
    requires
        out.sums_up(pages, cached, missing, batches, results),
    ensures
        out.failed@.contains(p) <==> exists|k: int|
            0 <= k < results.len() && ((#[trigger] results[k]) matches ChunkResult::Failed(ps, _)
                && ps@.contains(p)),
        forall|i: int, j: int|
            0 <= i < j < out.failed@.len() ==> #[trigger] out.failed@[i] < #[trigger] out.failed@[j],
        views(out.failure_reasons@).contains(reason) <==> exists|k: int|
            0 <= k < results.len() && ((#[trigger] results[k]) matches ChunkResult::Failed(_, r)
                && r@ == reason),
        views(out.failure_reasons@).no_duplicates(),
{
    lemma_failed_pages(results, p);
    lemma_reasons(results, reason);
    law_distinct_keeps_each_text_once(reasons(results), 0);
    assert(out.failed@.contains(p) <==> failed_pages(results).contains(p));
    assert(views(out.failure_reasons@).contains(reason) <==> reasons(results).contains(reason));
    assert forall|i: int, j: int| 0 <= i < j < out.failed@.len() implies #[trigger] out.failed@[i]
        < #[trigger] out.failed@[j] by {
        assert(u32::precedes(out.failed@[i], out.failed@[j]));
    }
}

proof fn lemma_failed_pages(results: Seq<ChunkResult>, p: u32)
    ensures
        failed_pages(results).contains(p) <==> exists|k: int|
            0 <= k < results.len() && ((#[trigger] results[k]) matches ChunkResult::Failed(ps, _)
                && ps@.contains(p)),
    decreases results.len(),
{
    if results.len() > 0 {
        let d = results.drop_last();
        let before = failed_pages(d);
        let all = failed_pages(results);
        lemma_failed_pages(d, p);
        if before.contains(p) {
            let i = choose|i: int| 0 <= i < before.len() && before[i] == p;
            assert(all[i] == p);
            let k = choose|k: int|
                0 <= k < d.len() && ((#[trigger] d[k]) matches ChunkResult::Failed(ps, _)
                    && ps@.contains(p));
            assert(results[k] == d[k]);
        }
        if all.contains(p) && !before.contains(p) {
            let i = choose|i: int| 0 <= i < all.len() && all[i] == p;
            if i < before.len() {
                assert(before[i] == p);
            } else {
                let ps = results.last()->Failed_0@;
                assert(ps[i - before.len()] == p);
                assert(results[results.len() - 1] == results.last());
            }
        }
        if exists|k: int|
            0 <= k < results.len() && ((#[trigger] results[k]) matches ChunkResult::Failed(ps, _)
                && ps@.contains(p)) {
            let k = choose|k: int|
                0 <= k < results.len() && ((#[trigger] results[k]) matches ChunkResult::Failed(
                    ps,
                    _,
                ) && ps@.contains(p));
            if k < d.len() {
                assert(d[k] == results[k]);
            } else {
                let ps = results.last()->Failed_0@;
                let i = choose|i: int| 0 <= i < ps.len() && ps[i] == p;
                assert(all[before.len() + i] == p);
            }
        }
    }
}

proof fn lemma_reasons(results: Seq<ChunkResult>, reason: Seq<char>)
    ensures
        reasons(results).contains(reason) <==> exists|k: int|
            0 <= k < results.len() && ((#[trigger] results[k]) matches ChunkResult::Failed(_, r)
                && r@ == reason),
    decreases results.len(),
{
    if results.len() > 0 {
        let d = results.drop_last();
        let before = reasons(d);
        let all = reasons(results);
        lemma_reasons(d, reason);
        if before.contains(reason) {
            let i = choose|i: int| 0 <= i < before.len() && before[i] == reason;
            assert(all[i] == reason);
            let k = choose|k: int|
                0 <= k < d.len() && ((#[trigger] d[k]) matches ChunkResult::Failed(_, r) && r@
                    == reason);
            assert(results[k] == d[k]);
        }
        if all.contains(reason) && !before.contains(reason) {
            let i = choose|i: int| 0 <= i < all.len() && all[i] == reason;
            if i < before.len() {
                assert(before[i] == reason);
            } else {
                assert(results[results.len() - 1] == results.last());
            }
        }
        if exists|k: int|
            0 <= k < results.len() && ((#[trigger] results[k]) matches ChunkResult::Failed(_, r)
                && r@ == reason) {
            let k = choose|k: int|
                0 <= k < results.len() && ((#[trigger] results[k]) matches ChunkResult::Failed(
                    _,
                    r,
                ) && r@ == reason);
            if k < d.len() {
                assert(d[k] == results[k]);
            } else {
                assert(all[before.len() as int] == reason);
            }
        }
    }
}

// ---------------------------------------------------------------------------
// One batch
// ---------------------------------------------------------------------------

/// What text recognition gave for one page: its text, and for each image in it
/// the name in the text and the path of the file.
#[derive(Debug)]
pub struct PageOcr {
    pub markdown: String,
    pub links: Vec<(String, String)>,
}

/// The text with the image names turned into paths, one after the other.
pub open spec fn relinked(markdown: Seq<char>, links: Seq<(String, String)>) -> Seq<char>
    decreases links.len(),
{
    if links.len() == 0 {
        markdown
    } else {
        replaced(relinked(markdown, links.drop_last()), links.last().0@, links.last().1@)
    }
}

/// Image names are turned into paths one after the other, the first one first. A
/// text in which no name occurs stays as it is.
pub proof fn law_links_are_set_one_after_the_other(
    markdown: Seq<char>,
    link: (String, String),
    rest: Seq<(String, String)>,
)
    ensures
        relinked(markdown, Seq::<(String, String)>::empty()) == markdown,
        relinked(markdown, seq![link] + rest) == relinked(
            replaced(markdown, link.0@, link.1@),
            rest,
        ),
        (forall|k: int|
            0 <= k < rest.len() ==> (#[trigger] rest[k]).0@.len() > 0 && !occurs(
                markdown,
                rest[k].0@,
            )) ==> relinked(markdown, rest) == markdown,
    decreases rest.len(),
{
    let all = seq![link] + rest;
    if rest.len() == 0 {
        assert(all.drop_last() =~= Seq::empty());
        assert(all.last() == link);
        assert(relinked(markdown, all.drop_last()) == markdown);
    } else {
        let d = rest.drop_last();
        law_links_are_set_one_after_the_other(markdown, link, d);
        assert(all.drop_last() =~= seq![link] + d);
        assert(all.last() == rest.last());
        if forall|k: int|
            0 <= k < rest.len() ==> (#[trigger] rest[k]).0@.len() > 0 && !occurs(
                markdown,
                rest[k].0@,
            ) {
            assert forall|k: int| 0 <= k < d.len() implies (#[trigger] d[k]).0@.len() > 0
                && !occurs(markdown, d[k].0@) by {
                assert(rest[k].0@.len() > 0);
            }
            let last = rest[rest.len() - 1];
            law_replacing_goes_by_occurrence(markdown, last.0@, last.1@, 0);
        }
    }
}

/// The text with the image names turned into paths.
pub fn land_ocr_page(result: &PageOcr) -> (out: String)
    ensures
        out@ == relinked(result.markdown@, result.links@),
{
    let mut md = result.markdown.clone();
    let mut i: usize = 0;
    while i < result.links.len()
        invariant
            i <= result.links@.len(),
            md@ == relinked(result.markdown@, result.links@.take(i as int)),
        decreases result.links@.len() - i,
    {
        proof {
            assert(result.links@.take(i as int + 1).drop_last() =~= result.links@.take(i as int));
        }
        md = replace_all(md.as_str(), result.links[i].0.as_str(), result.links[i].1.as_str());
        i = i + 1;
    }
    proof {
        assert(result.links@.take(i as int) =~= result.links@);
    }
    md
}

/// A batch has to come back with one result for each of its pages.
pub fn check_batch(backend: &str, expected: usize, got: usize) -> (r: Result<(), SiftError>)
    ensures
        match r {
            Ok(_) => expected == got,
            Err(e) => expected != got && e@ == ErrorView::Internal(
                backend@ + " backend: expected "@ + decimal(expected as nat) + " results, got "@
                    + decimal(got as nat),
            ),
        },
{
    if expected == got {
        return Ok(());
    }
    let e = decimal_string(expected as u64);
    let g = decimal_string(got as u64);
    Err(
        SiftError::Internal(
            concat5(backend, " backend: expected ", e.as_str(), " results, got ", g.as_str()),
        ),
    )
}

/// The pages of a batch with their texts. A batch comes through as a whole or
/// not at all.
pub fn run_chunk(backend: &str, chunk: &Vec<u32>, results: &Vec<PageOcr>) -> (r: Result<
    Vec<(u32, String)>,
    SiftError,
>)
    ensures
        match r {
            Ok(out) => {
                &&& results@.len() == chunk@.len()
                &&& out@.len() == chunk@.len()
                &&& forall|i: int|
                    0 <= i < chunk@.len() ==> (#[trigger] out@[i]).0 == chunk@[i] && out@[i].1@
                        == relinked(results@[i].markdown@, results@[i].links@)
            },
            Err(e) => results@.len() != chunk@.len() && e@ == ErrorView::Internal(
                backend@ + " backend: expected "@ + decimal(chunk@.len()) + " results, got "@
                    + decimal(results@.len()),
            ),
        },
        r matches Ok(out) ==> pages_of(out@) == chunk@,
{
    match check_batch(backend, chunk.len(), results.len()) {
        Ok(_) => {},
        Err(e) => {
            return Err(e);
        },
    }
    let mut out: Vec<(u32, String)> = Vec::new();
    let mut i: usize = 0;
    while i < chunk.len()
        invariant
            i <= chunk@.len() == results@.len(),
            out@.len() == i,
            forall|k: int|
                0 <= k < i ==> (#[trigger] out@[k]).0 == chunk@[k] && out@[k].1@ == relinked(
                    results@[k].markdown@,
                    results@[k].links@,
                ),
        decreases chunk@.len() - i,
    {
        out.push((chunk[i], land_ocr_page(&results[i])));
        i = i + 1;
    }
    proof {
        assert(pages_of(out@) =~= chunk@);
    }
    Ok(out)
}

} // verus!
