//! Report periods: `2024A`, `2024Q1`, `2024H1`, `2024Q3`, `2024-12-31`.

use vstd::prelude::*;
use vstd::string::*;

use crate::date::{Date, valid_date};
use crate::error::{ErrorView, SiftError, concat2, concat3, concat4, outcome};
use crate::text::{
    all_digits, chars_of, debug_quoted, decimal, digits_number, digits_value, is_digit, is_space,
    law_pieces_join_to_the_text, lemma_decimal_value, lemma_digits_value_padded, lemma_split_step,
    lemma_split_whole, lemma_trim_id, only_digits, pad_left, quoted, same, slice_chars, split,
    split_chars, string_from, to_upper, trim, trim_chars, upper, upper_chars,
};

verus! {

/// One report period.
#[derive(Debug, Clone, Copy, PartialEq, Eq, Hash, Structural)]
pub enum Period {
    /// Year end, 12-31.
    Annual(i32),
    /// First half, 06-30.
    H1(i32),
    /// First quarter, 03-31.
    Q1(i32),
    /// Third quarter, 09-30.
    Q3(i32),
    /// Any other end.
    Custom(Date),
}

/// The shape of a report end. `Q2` and `Q4` occur for single quarters only.
#[derive(Debug, Clone, Copy, PartialEq, Eq, Hash, PartialOrd, Ord, Structural)]
pub enum PeriodType {
    Annual,
    H1,
    Q1,
    Q3,
    Q2,
    Q4,
}

impl View for Period {
    type V = Period;

    open spec fn view(&self) -> Period {
        *self
    }
}

impl PeriodType {
    pub open spec fn label(self) -> Seq<char> {
        match self {
            PeriodType::Annual => "annual"@,
            PeriodType::H1 => "h1"@,
            PeriodType::Q1 => "q1"@,
            PeriodType::Q3 => "q3"@,
            PeriodType::Q2 => "q2"@,
            PeriodType::Q4 => "q4"@,
        }
    }

    /// The place of a type in the order of declaration.
    pub open spec fn rank(self) -> int {
        match self {
            PeriodType::Annual => 0,
            PeriodType::H1 => 1,
            PeriodType::Q1 => 2,
            PeriodType::Q3 => 3,
            PeriodType::Q2 => 4,
            PeriodType::Q4 => 5,
        }
    }

    /// The type of a standard end.
    pub open spec fn of_date(d: Date) -> Option<PeriodType> {
        if d.month == 12 && d.day == 31 {
            Some(PeriodType::Annual)
        } else if d.month == 6 && d.day == 30 {
            Some(PeriodType::H1)
        } else if d.month == 3 && d.day == 31 {
            Some(PeriodType::Q1)
        } else if d.month == 9 && d.day == 30 {
            Some(PeriodType::Q3)
        } else {
            None
        }
    }

    /// The label in the `period_type` column.
    pub fn as_str(self) -> (out: &'static str)
        ensures
            out@ == self.label(),
    {
        match self {
            PeriodType::Annual => "annual",
            PeriodType::H1 => "h1",
            PeriodType::Q1 => "q1",
            PeriodType::Q3 => "q3",
            PeriodType::Q2 => "q2",
            PeriodType::Q4 => "q4",
        }
    }

    /// The place of the type in the order of declaration.
    pub fn position(self) -> (out: u8)
        ensures
            out == self.rank(),
    {
        match self {
            PeriodType::Annual => 0,
            PeriodType::H1 => 1,
            PeriodType::Q1 => 2,
            PeriodType::Q3 => 3,
            PeriodType::Q2 => 4,
            PeriodType::Q4 => 5,
        }
    }

    /// The type of a report end, if it is one of the four standard ones.
    pub fn from_date(d: Date) -> (out: Option<PeriodType>)
        ensures
            out == PeriodType::of_date(d),
    {
        if d.month == 12 && d.day == 31 {
            Some(PeriodType::Annual)
        } else if d.month == 6 && d.day == 30 {
            Some(PeriodType::H1)
        } else if d.month == 3 && d.day == 31 {
            Some(PeriodType::Q1)
        } else if d.month == 9 && d.day == 30 {
            Some(PeriodType::Q3)
        } else {
            None
        }
    }
}

/// The digits of a number text: a leading plus sign does not count.
pub open spec fn number_body(s: Seq<char>) -> Seq<char> {
    if s.len() > 0 && s[0] == '+' {
        s.skip(1)
    } else {
        s
    }
}

/// The number that a text without a minus sign spells, if it is at most `max`.
pub open spec fn number_text(s: Seq<char>, max: nat) -> Option<nat> {
    let body = number_body(s);
    if body.len() > 0 && all_digits(body) && digits_value(body) <= max {
        Some(digits_value(body))
    } else {
        None
    }
}

/// The number that `v` spells, if it is at most `max`.
pub fn parse_number(v: &Vec<char>, max: u64) -> (r: Option<u64>)
    ensures
        match r {
            Some(n) => number_text(v@, max as nat) == Some(n as nat),
            None => number_text(v@, max as nat) is None,
        },
{
    let from: usize = if v.len() > 0 && v[0] == '+' {
        1
    } else {
        0
    };
    let body = slice_chars(v, from, v.len());
    proof {
        assert(body@ =~= number_body(v@));
        assert(body@.subrange(0, body@.len() as int) =~= body@);
    }
    if body.len() == 0 || !only_digits(&body) {
        return None;
    }
    digits_number(&body, 0, body.len(), max)
}

/// The day that the first three of `parts` spell.
pub open spec fn date_of_parts(parts: Seq<Seq<char>>) -> Option<Date> {
    if parts.len() < 3 {
        None
    } else {
        match (
            number_text(parts[0], i32::MAX as nat),
            number_text(parts[1], 255),
            number_text(parts[2], 255),
        ) {
            (Some(y), Some(m), Some(d)) => if valid_date(y as int, m as int, d as int) {
                Some(Date { year: y as i32, month: m as u8, day: d as u8 })
            } else {
                None
            },
            _ => None,
        }
    }
}

/// The day that exactly three parts between hyphens spell.
pub open spec fn hyphenated_date(s: Seq<char>) -> Option<Date> {
    let parts = split(s, '-');
    if parts.len() == 3 {
        date_of_parts(parts)
    } else {
        None
    }
}

/// The day that the first three parts between hyphens spell; more may follow.
pub open spec fn hyphenated_date_prefix(s: Seq<char>) -> Option<Date> {
    date_of_parts(split(s, '-'))
}

/// The day that three number texts spell.
fn date_from_parts(parts: &Vec<Vec<char>>) -> (r: Option<Date>)
    requires
        parts@.len() >= 3,
    ensures
        r == date_of_parts(parts@.map_values(|p: Vec<char>| p@)),
        r matches Some(d) ==> d.wf(),
{
    let ghost views = parts@.map_values(|p: Vec<char>| p@);
    assert(views[0] == parts@[0]@ && views[1] == parts@[1]@ && views[2] == parts@[2]@);
    let year = parse_number(&parts[0], i32::MAX as u64);
    let month = parse_number(&parts[1], 255);
    let day = parse_number(&parts[2], 255);
    match (year, month, day) {
        (Some(y), Some(m), Some(d)) => Date::from_calendar_date(y as i32, m as u8, d as u8),
        _ => None,
    }
}

/// The day that exactly three parts between hyphens spell.
fn parse_iso_date(v: &Vec<char>) -> (r: Option<Date>)
    ensures
        r == hyphenated_date(v@),
        r matches Some(d) ==> d.wf(),
{
    let parts = split_chars(v, '-');
    proof {
        assert(parts@.map_values(|p: Vec<char>| p@) =~= split(v@, '-'));
    }
    if parts.len() != 3 {
        return None;
    }
    date_from_parts(&parts)
}

/// The day that the first three parts between hyphens spell; more may follow.
pub fn parse_date_prefix(s: &str) -> (r: Option<Date>)
    ensures
        r == hyphenated_date_prefix(s@),
        r matches Some(d) ==> d.wf(),
{
    let parts = split_chars(&chars_of(s), '-');
    proof {
        assert(parts@.map_values(|p: Vec<char>| p@) =~= split(s@, '-'));
    }
    if parts.len() < 3 {
        return None;
    }
    date_from_parts(&parts)
}

/// The period of an upper-case suffix and a year, with the user's text for the
/// error.
pub open spec fn suffixed(year: i32, suffix: Seq<char>, input: Seq<char>) -> Result<
    Period,
    ErrorView,
> {
    if suffix.len() == 0 {
        Err(
            ErrorView::Parse(
                "ambiguous period "@ + quoted(input)
                    + "; use 2024A or expand at command layer"@,
            ),
        )
    } else if suffix == "A"@ || suffix == "Q4"@ {
        Ok(Period::Annual(year))
    } else if suffix == "Q1"@ {
        Ok(Period::Q1(year))
    } else if suffix == "Q2"@ || suffix == "H1"@ {
        Ok(Period::H1(year))
    } else if suffix == "Q3"@ {
        Ok(Period::Q3(year))
    } else {
        Err(
            ErrorView::Parse(
                "unrecognized period suffix "@ + quoted(suffix) + " in "@ + quoted(input),
            ),
        )
    }
}

/// What a text means as a period.
pub open spec fn period_of(input: Seq<char>) -> Result<Period, ErrorView> {
    let s = trim(input);
    if s.len() == 0 {
        Err(ErrorView::Parse("empty period"@))
    } else {
        match hyphenated_date(s) {
            Some(d) => Ok(Period::of_date(d)),
            None => if s.len() >= 4 && all_digits(s.take(4)) {
                suffixed(digits_value(s.take(4)) as i32, to_upper(s).skip(4), input)
            } else {
                Err(ErrorView::Parse("unrecognized period "@ + quoted(input)))
            },
        }
    }
}

impl Period {
    /// The period of a report end: one of the four standard ones if it is
    /// aligned, otherwise `Custom`.
    pub open spec fn of_date(d: Date) -> Period {
        match PeriodType::of_date(d) {
            Some(PeriodType::Annual) => Period::Annual(d.year),
            Some(PeriodType::H1) => Period::H1(d.year),
            Some(PeriodType::Q1) => Period::Q1(d.year),
            Some(PeriodType::Q3) => Period::Q3(d.year),
            _ => Period::Custom(d),
        }
    }

    /// The year is one that a date can have.
    pub open spec fn wf(self) -> bool {
        match self {
            Period::Annual(y) | Period::H1(y) | Period::Q1(y) | Period::Q3(y) => -9999 <= y
                <= 9999,
            Period::Custom(d) => d.wf(),
        }
    }

    /// The report end.
    pub open spec fn end(self) -> Date {
        match self {
            Period::Annual(y) => Date { year: y, month: 12, day: 31 },
            Period::H1(y) => Date { year: y, month: 6, day: 30 },
            Period::Q1(y) => Date { year: y, month: 3, day: 31 },
            Period::Q3(y) => Date { year: y, month: 9, day: 30 },
            Period::Custom(d) => d,
        }
    }

    /// The shape of the report end.
    pub open spec fn shape(self) -> Option<PeriodType> {
        match self {
            Period::Annual(_) => Some(PeriodType::Annual),
            Period::H1(_) => Some(PeriodType::H1),
            Period::Q1(_) => Some(PeriodType::Q1),
            Period::Q3(_) => Some(PeriodType::Q3),
            Period::Custom(d) => PeriodType::of_date(d),
        }
    }

    /// One of the four standard periods.
    pub open spec fn standard(self) -> bool {
        !(self is Custom)
    }

    /// The standard period before this one.
    pub open spec fn prior(self) -> Period {
        match self {
            Period::Annual(y) => Period::Q3(y),
            Period::Q3(y) => Period::H1(y),
            Period::H1(y) => Period::Q1(y),
            Period::Q1(y) => Period::Annual((y - 1) as i32),
            Period::Custom(_) => Period::Annual(2000),
        }
    }

    /// The standard period after this one.
    pub open spec fn next(self) -> Period {
        match self {
            Period::Annual(y) => Period::Q1((y + 1) as i32),
            Period::Q3(y) => Period::Annual(y),
            Period::H1(y) => Period::Q3(y),
            Period::Q1(y) => Period::H1(y),
            Period::Custom(_) => Period::Annual(2000),
        }
    }

    /// The last day on which an A-share report of this period is filed.
    pub open spec fn deadline(self) -> Date {
        match self {
            Period::Annual(y) => Date { year: (y + 1) as i32, month: 4, day: 30 },
            Period::H1(y) => Date { year: y, month: 8, day: 31 },
            Period::Q1(y) => Date { year: y, month: 4, day: 30 },
            Period::Q3(y) => Date { year: y, month: 10, day: 31 },
            Period::Custom(d) => d,
        }
    }

    /// Parses a period text, upper or lower case, white space around allowed.
    /// A bare year is ambiguous and rejected.
    pub fn parse(input: &str) -> (r: Result<Period, SiftError>)
        ensures
            outcome(r) == period_of(input@),
            r matches Ok(p) ==> p.wf(),
    {
        let s = trim_chars(&chars_of(input));
        if s.len() == 0 {
            return Err(SiftError::Parse("empty period".to_owned()));
        }
        if let Some(d) = parse_iso_date(&s) {
            return Ok(Period::from_date(d));
        }
        let head_len: usize = if s.len() >= 4 {
            4
        } else {
            0
        };
        let head = slice_chars(&s, 0, head_len);
        let q = debug_quoted(input);
        if head_len < 4 || !only_digits(&head) {
            proof {
                if head_len == 4 {
                    assert(head@ =~= s@.take(4));
                }
            }
            return Err(SiftError::Parse(concat2("unrecognized period ", q.as_str())));
        }
        proof {
            assert(head@ =~= s@.take(4));
            assert(head@.subrange(0, 4) =~= head@);
            lemma_four_digits(head@);
        }
        let year: i32 = match digits_number(&head, 0, 4, 9999) {
            Some(n) => n as i32,
            None => 0,
        };
        let upper = upper_chars(&s);
        let tail = slice_chars(&upper, 4, upper.len());
        proof {
            assert(tail@ =~= to_upper(s@).skip(4));
        }
        let suffix = string_from(&tail);
        if tail.len() == 0 {
            Err(
                SiftError::Parse(
                    concat3(
                        "ambiguous period ",
                        q.as_str(),
                        "; use 2024A or expand at command layer",
                    ),
                ),
            )
        } else if same(suffix.as_str(), "A") || same(suffix.as_str(), "Q4") {
            Ok(Period::Annual(year))
        } else if same(suffix.as_str(), "Q1") {
            Ok(Period::Q1(year))
        } else if same(suffix.as_str(), "Q2") || same(suffix.as_str(), "H1") {
            Ok(Period::H1(year))
        } else if same(suffix.as_str(), "Q3") {
            Ok(Period::Q3(year))
        } else {
            let sq = debug_quoted(suffix.as_str());
            Err(
                SiftError::Parse(
                    concat4("unrecognized period suffix ", sq.as_str(), " in ", q.as_str()),
                ),
            )
        }
    }

    /// The period of a report end.
    fn from_date(d: Date) -> (p: Period)
        ensures
            p == Period::of_date(d),
            d.wf() ==> p.wf(),
    {
        match PeriodType::from_date(d) {
            Some(PeriodType::Annual) => Period::Annual(d.year),
            Some(PeriodType::H1) => Period::H1(d.year),
            Some(PeriodType::Q1) => Period::Q1(d.year),
            Some(PeriodType::Q3) => Period::Q3(d.year),
            _ => Period::Custom(d),
        }
    }

    /// The report end.
    pub fn end_date(&self) -> (d: Date)
        requires
            self.wf(),
        ensures
            d == self.end(),
            d.wf(),
    {
        match *self {
            Period::Annual(y) => Date { year: y, month: 12, day: 31 },
            Period::H1(y) => Date { year: y, month: 6, day: 30 },
            Period::Q1(y) => Date { year: y, month: 3, day: 31 },
            Period::Q3(y) => Date { year: y, month: 9, day: 30 },
            Period::Custom(d) => d,
        }
    }

    /// The shape of the report end; `None` only for an end that is not aligned.
    pub fn period_type(&self) -> (t: Option<PeriodType>)
        ensures
            t == self.shape(),
    {
        match *self {
            Period::Annual(_) => Some(PeriodType::Annual),
            Period::H1(_) => Some(PeriodType::H1),
            Period::Q1(_) => Some(PeriodType::Q1),
            Period::Q3(_) => Some(PeriodType::Q3),
            Period::Custom(d) => PeriodType::from_date(d),
        }
    }

    /// The period of a Hong Kong report: a type code and the report end.
    pub fn from_date_type_code(code: &str, end: Date) -> (r: Result<Period, SiftError>)
        ensures
            outcome(r) == (if code@ == "001"@ {
                Ok::<Period, ErrorView>(Period::Annual(end.year))
            } else if code@ == "002"@ {
                Ok(Period::H1(end.year))
            } else if code@ == "003"@ {
                Ok(Period::Q1(end.year))
            } else if code@ == "004"@ {
                Ok(Period::Q3(end.year))
            } else {
                Err(ErrorView::Parse("unknown DATE_TYPE_CODE "@ + quoted(code@)))
            }),
    {
        if same(code, "001") {
            Ok(Period::Annual(end.year))
        } else if same(code, "002") {
            Ok(Period::H1(end.year))
        } else if same(code, "003") {
            Ok(Period::Q1(end.year))
        } else if same(code, "004") {
            Ok(Period::Q3(end.year))
        } else {
            let q = debug_quoted(code);
            Err(SiftError::Parse(concat2("unknown DATE_TYPE_CODE ", q.as_str())))
        }
    }

    /// The standard period before this one.
    pub fn previous(self) -> (p: Period)
        requires
            self matches Period::Q1(y) ==> y > i32::MIN,
        ensures
            p == self.prior(),
    {
        match self {
            Period::Annual(y) => Period::Q3(y),
            Period::Q3(y) => Period::H1(y),
            Period::H1(y) => Period::Q1(y),
            Period::Q1(y) => Period::Annual(y - 1),
            Period::Custom(_) => Period::Annual(2000),
        }
    }
}

/// Four digits spell at most 9999.
proof fn lemma_four_digits(s: Seq<char>)
    requires
        s.len() == 4,
        all_digits(s),
    ensures
        digits_value(s) <= 9999,
{
    reveal_with_fuel(digits_value, 5);
}

/// The latest period whose filing deadline lies before `today`.
pub open spec fn latest_filed(today: Date) -> Period {
    if today.month >= 11 {
        Period::Q3(today.year)
    } else if today.month >= 9 {
        Period::H1(today.year)
    } else if today.month >= 5 {
        Period::Q1(today.year)
    } else {
        Period::Q3((today.year - 1) as i32)
    }
}

/// The latest standard period that is certain to be filed on `today`.
pub fn most_recent_filed(today: Date) -> (p: Period)
    requires
        today.wf(),
    ensures
        p == latest_filed(today),
{
    if today.month >= 11 {
        Period::Q3(today.year)
    } else if today.month >= 9 {
        Period::H1(today.year)
    } else if today.month >= 5 {
        Period::Q1(today.year)
    } else {
        Period::Q3(today.year - 1)
    }
}

/// `p` and the `n - 1` standard periods before it, newest first.
pub open spec fn walk_back(p: Period, n: nat) -> Seq<Period>
    decreases n,
{
    if n == 0 {
        Seq::empty()
    } else {
        seq![p] + walk_back(p.prior(), (n - 1) as nat)
    }
}

/// How many quarters the end of a standard period lies after the year 0.
pub open spec fn quarter_index(p: Period) -> int {
    match p {
        Period::Annual(y) => 4 * y + 4,
        Period::Q3(y) => 4 * y + 3,
        Period::H1(y) => 4 * y + 2,
        Period::Q1(y) => 4 * y + 1,
        Period::Custom(d) => 4 * d.year,
    }
}

/// The `n` periods before `p` lie within the years that an `i32` can hold.
pub open spec fn reaches_back(p: Period, n: nat) -> bool {
    quarter_index(p) - n >= quarter_index(Period::Q1(i32::MIN))
}

/// The latest `n` periods that are certain to be filed on `today`, newest
/// first. `n` is limited by the years that an `i32` can hold.
pub fn last_n_filed(today: Date, n: usize) -> (out: Vec<Period>)
    requires
        today.wf(),
        reaches_back(latest_filed(today), n as nat),
    ensures
        out@ == walk_back(latest_filed(today), n as nat),
{
    let mut cur = most_recent_filed(today);
    let mut out: Vec<Period> = Vec::new();
    let mut i: usize = 0;
    while i < n
        invariant
            i <= n,
            cur.standard(),
            reaches_back(cur, (n - i) as nat),
            out@ + walk_back(cur, (n - i) as nat) == walk_back(latest_filed(today), n as nat),
        decreases n - i,
    {
        out.push(cur);
        proof {
            let rest = walk_back(cur.prior(), (n - i - 1) as nat);
            assert(walk_back(cur, (n - i) as nat) == seq![cur] + rest);
            assert(out@ + rest =~= (out@.drop_last() + (seq![cur] + rest)));
        }
        cur = cur.previous();
        i = i + 1;
    }
    proof {
        assert(out@ + walk_back(cur, 0) =~= out@);
    }
    out
}

/// A zero-padded number reads back.
proof fn lemma_padded_number(n: nat, width: nat, max: nat)
    requires
        n <= max,
    ensures
        number_text(pad_left(decimal(n), width, '0'), max) == Some(n),
        forall|i: int|
            0 <= i < pad_left(decimal(n), width, '0').len() ==> pad_left(
                decimal(n),
                width,
                '0',
            )[i] != '-',
{
    let p = pad_left(decimal(n), width, '0');
    lemma_decimal_value(n);
    lemma_digits_value_padded(decimal(n), width);
    assert(is_digit(p[0]));
    assert forall|i: int| 0 <= i < p.len() implies p[i] != '-' by {
        assert(is_digit(p[i]));
    }
}

/// A day reads back from its `YYYY-MM-DD` text.
pub proof fn law_iso_text_reads_back(d: Date)
    requires
        d.wf(),
        d.year >= 0,
    ensures
        hyphenated_date(d.iso()) == Some(d),
        hyphenated_date_prefix(d.iso()) == Some(d),
{
    let y = pad_left(decimal(d.year as nat), 4, '0');
    let m = pad_left(decimal(d.month as nat), 2, '0');
    let n = pad_left(decimal(d.day as nat), 2, '0');
    lemma_padded_number(d.year as nat, 4, i32::MAX as nat);
    lemma_padded_number(d.month as nat, 2, 255);
    lemma_padded_number(d.day as nat, 2, 255);
    reveal_strlit("-");
    assert("-"@ =~= seq!['-']);
    assert(d.iso() =~= y + seq!['-'] + (m + seq!['-'] + n));
    lemma_split_step(y, '-', m + seq!['-'] + n);
    lemma_split_step(m, '-', n);
    lemma_split_whole(n, '-');
    let parts = split(d.iso(), '-');
    assert(parts =~= seq![y, m, n]);
}

/// A standard period reads back from the text of its end.
pub proof fn law_end_date_text_reads_back(p: Period)
    requires
        p.wf(),
        p.end().year >= 0,
        p.standard() || PeriodType::of_date(p.end()) is None,
    ensures
        period_of(p.end().iso()) == Ok::<Period, ErrorView>(p),
{
    let d = p.end();
    let s = d.iso();
    law_iso_text_reads_back(d);
    let y = pad_left(decimal(d.year as nat), 4, '0');
    let n = pad_left(decimal(d.day as nat), 2, '0');
    lemma_decimal_value(d.year as nat);
    lemma_digits_value_padded(decimal(d.year as nat), 4);
    lemma_decimal_value(d.day as nat);
    lemma_digits_value_padded(decimal(d.day as nat), 2);
    assert(s[0] == y[0] && is_digit(y[0]));
    assert(s.last() == n.last() && is_digit(n[n.len() - 1]));
    lemma_trim_id(s);
}

/// A period text never gives `Custom` for one of the four standard ends.
pub proof fn law_parse_normalizes_aligned_ends(input: Seq<char>)
    ensures
        period_of(input) matches Ok(p) ==> (p matches Period::Custom(d) ==> PeriodType::of_date(d)
            is None),
{
}

/// The period before a standard one ends earlier.
pub proof fn law_previous_ends_earlier(p: Period)
    requires
        p.standard(),
        p.wf(),
    ensures
        p.prior().standard(),
        p.prior().end().before(p.end()),
        quarter_index(p.prior()) == quarter_index(p) - 1,
{
}

/// The `k`-th period of a walk lies `k` quarters before the first.
proof fn lemma_walk_back(p: Period, n: nat, k: int)
    requires
        p.standard(),
        0 <= k < n,
        reaches_back(p, n),
    ensures
        walk_back(p, n).len() == n,
        walk_back(p, n)[k].standard(),
        quarter_index(walk_back(p, n)[k]) == quarter_index(p) - k,
    decreases n,
{
    let rest = walk_back(p.prior(), (n - 1) as nat);
    if n > 1 {
        let j = if k > 0 {
            k - 1
        } else {
            0
        };
        lemma_walk_back(p.prior(), (n - 1) as nat, j);
    } else {
        assert(rest =~= Seq::empty());
    }
}

/// The periods of `last_n_filed` are as many as asked for, and each ends
/// before the one in front of it.
pub proof fn law_last_n_strictly_descends(today: Date, n: nat, i: int, j: int)
    requires
        today.wf(),
        reaches_back(latest_filed(today), n),
        0 <= i < j < n,
    ensures
        walk_back(latest_filed(today), n).len() == n,
        ({
            let p = walk_back(latest_filed(today), n);
            p[j].end().before(p[i].end())
        }),
{
    let first = latest_filed(today);
    lemma_walk_back(first, n, i);
    lemma_walk_back(first, n, j);
}

/// The most recent filed period is past its deadline on `today`, and the one
/// after it is not.
pub proof fn law_most_recent_filed_is_due(today: Date)
    requires
        today.wf(),
    ensures
        latest_filed(today).deadline().before(today),
        !latest_filed(today).next().deadline().before(today),
{
}

/// The empty text names no period.
pub proof fn lemma_empty_is_no_period()
    ensures
        period_of(Seq::empty()) is Err,
{
}

/// A year of four digits and a suffix, in either case, name a period of that year:
/// `A` and `Q4` the annual one, `H1` and `Q2` the half year, `Q1` and `Q3` the
/// first and the first three quarters. The year alone is refused.
pub proof fn law_a_year_and_a_suffix_name_a_period(y: Seq<char>, t: Seq<char>)
    requires
        y.len() == 4,
        all_digits(y),
    ensures
        ({
            let year = digits_value(y) as i32;
            &&& t == "A"@ || t == "a"@ || t == "Q4"@ || t == "q4"@ ==> period_of(y + t) == Ok::<
                Period,
                ErrorView,
            >(Period::Annual(year))
            &&& t == "H1"@ || t == "h1"@ || t == "Q2"@ || t == "q2"@ ==> period_of(y + t) == Ok::<
                Period,
                ErrorView,
            >(Period::H1(year))
            &&& t == "Q1"@ || t == "q1"@ ==> period_of(y + t) == Ok::<Period, ErrorView>(
                Period::Q1(year),
            )
            &&& t == "Q3"@ || t == "q3"@ ==> period_of(y + t) == Ok::<Period, ErrorView>(
                Period::Q3(year),
            )
            &&& period_of(y) is Err
        }),
{
    reveal_strlit("A");
    reveal_strlit("a");
    reveal_strlit("Q4");
    reveal_strlit("q4");
    reveal_strlit("H1");
    reveal_strlit("h1");
    reveal_strlit("Q2");
    reveal_strlit("q2");
    reveal_strlit("Q1");
    reveal_strlit("q1");
    reveal_strlit("Q3");
    reveal_strlit("q3");
    let known = t == "A"@ || t == "a"@ || t == "Q4"@ || t == "q4"@ || t == "H1"@ || t == "h1"@ || t
        == "Q2"@ || t == "q2"@ || t == "Q1"@ || t == "q1"@ || t == "Q3"@ || t == "q3"@;
    lemma_year_and_suffix(y, Seq::empty());
    assert(y + Seq::<char>::empty() =~= y);
    if known {
        assert(1 <= t.len() <= 2);
        assert(forall|i: int| 0 <= i < t.len() ==> t[i] != '-' && !is_space(t[i]));
        lemma_year_and_suffix(y, t);
        let u = to_upper(t);
        if t == "a"@ {
            assert(u =~= "A"@);
        }
        if t == "q4"@ {
            assert(u =~= "Q4"@);
        }
        if t == "h1"@ {
            assert(u =~= "H1"@);
        }
        if t == "q2"@ {
            assert(u =~= "Q2"@);
        }
        if t == "q1"@ {
            assert(u =~= "Q1"@);
        }
        if t == "q3"@ {
            assert(u =~= "Q3"@);
        }
        if t == "A"@ || t == "Q4"@ || t == "H1"@ || t == "Q2"@ || t == "Q1"@ || t == "Q3"@ {
            assert(u =~= t);
        }
        lemma_suffixes_differ();
    }
}

/// No two suffixes are the same.
proof fn lemma_suffixes_differ()
    ensures
        "Q1"@ != "A"@ && "Q1"@ != "Q4"@,
        "Q2"@ != "A"@ && "Q2"@ != "Q4"@ && "Q2"@ != "Q1"@,
        "H1"@ != "A"@ && "H1"@ != "Q4"@ && "H1"@ != "Q1"@,
        "Q3"@ != "A"@ && "Q3"@ != "Q4"@ && "Q3"@ != "Q1"@ && "Q3"@ != "Q2"@ && "Q3"@ != "H1"@,
{
    reveal_strlit("A");
    reveal_strlit("Q4");
    reveal_strlit("H1");
    reveal_strlit("Q2");
    reveal_strlit("Q1");
    reveal_strlit("Q3");
    assert("A"@.len() == 1 && "Q4"@.len() == 2 && "H1"@.len() == 2);
    assert("Q1"@[1] == '1' && "Q2"@[1] == '2' && "Q3"@[1] == '3' && "Q4"@[1] == '4');
    assert("H1"@[0] == 'H' && "Q1"@[0] == 'Q' && "Q2"@[0] == 'Q' && "Q3"@[0] == 'Q');
}

/// A year and what follows it are taken apart where they meet.
proof fn lemma_year_and_suffix(y: Seq<char>, t: Seq<char>)
    requires
        y.len() == 4,
        all_digits(y),
        forall|i: int| 0 <= i < t.len() ==> t[i] != '-' && !is_space(t[i]),
    ensures
        period_of(y + t) == suffixed(digits_value(y) as i32, to_upper(t), y + t),
{
    let s = y + t;
    assert forall|i: int| 0 <= i < s.len() implies s[i] != '-' && !is_space(s[i]) by {
        if i < 4 {
            assert(s[i] == y[i]);
            assert(is_digit(y[i]));
        } else {
            assert(s[i] == t[i - 4]);
        }
    }
    lemma_trim_id(s);
    lemma_split_whole(s, '-');
    assert(s.take(4) =~= y);
    assert(to_upper(s).skip(4) =~= to_upper(t));
}

/// A number reads back from its digits, with or without a plus sign and whatever
/// zeros lead it, unless it is above the limit. A text with any other character is
/// no number.
pub proof fn law_a_number_reads_from_its_digits(n: nat, width: nat, max: nat, s: Seq<char>, i: int)
    requires
        0 <= i < s.len(),
        !('0' <= s[i] <= '9'),
        i > 0 || s[0] != '+' || s.len() == 1,
    ensures
        ({
            let digits = pad_left(decimal(n), width, '0');
            let read = if n <= max {
                Some(n)
            } else {
                None
            };
            &&& number_text(digits, max) == read
            &&& number_text(seq!['+'] + digits, max) == read
        }),
        number_text(s, max) is None,
{
    let digits = pad_left(decimal(n), width, '0');
    lemma_decimal_value(n);
    lemma_digits_value_padded(decimal(n), width);
    assert(is_digit(digits[0]));
    assert((seq!['+'] + digits).skip(1) =~= digits);
    let body = number_body(s);
    if s[0] == '+' {
        if i > 0 {
            assert(body[i - 1] == s[i]);
            assert(!is_digit(body[i - 1]));
        }
    } else {
        assert(!is_digit(body[i]));
    }
}

/// A day reads from its three numbers with hyphens between them, whatever zeros
/// lead them, if there is such a day; and not otherwise.
pub proof fn law_a_day_reads_from_its_numbers(
    year: nat,
    month: nat,
    day: nat,
    w1: nat,
    w2: nat,
    w3: nat,
)
    requires
        year <= i32::MAX,
        month <= 255,
        day <= 255,
    ensures
        hyphenated_date(
            pad_left(decimal(year), w1, '0') + seq!['-'] + (pad_left(decimal(month), w2, '0') + seq![
                '-',
            ] + pad_left(decimal(day), w3, '0')),
        ) == (if valid_date(year as int, month as int, day as int) {
            Some(Date { year: year as i32, month: month as u8, day: day as u8 })
        } else {
            None
        }),
{
    let y = pad_left(decimal(year), w1, '0');
    let m = pad_left(decimal(month), w2, '0');
    let d = pad_left(decimal(day), w3, '0');
    lemma_padded_number(year, w1, i32::MAX as nat);
    lemma_padded_number(month, w2, 255);
    lemma_padded_number(day, w3, 255);
    lemma_split_whole(d, '-');
    lemma_split_step(m, '-', d);
    lemma_split_step(y, '-', m + seq!['-'] + d);
    let parts = split(y + seq!['-'] + (m + seq!['-'] + d), '-');
    assert(parts =~= seq![y, m, d]);
}

/// A text with fewer than three parts between hyphens is no day. A day may be
/// followed by a hyphen and anything else where that is allowed.
pub proof fn law_a_day_has_three_parts(a: Seq<char>, b: Seq<char>, c: Seq<char>, rest: Seq<char>)
    requires
        forall|i: int| 0 <= i < a.len() ==> #[trigger] a[i] != '-',
        forall|i: int| 0 <= i < b.len() ==> #[trigger] b[i] != '-',
        forall|i: int| 0 <= i < c.len() ==> #[trigger] c[i] != '-',
    ensures
        hyphenated_date(a) is None,
        hyphenated_date_prefix(a) is None,
        hyphenated_date(a + seq!['-'] + b) is None,
        hyphenated_date_prefix(a + seq!['-'] + b) is None,
        hyphenated_date(a + seq!['-'] + (b + seq!['-'] + (c + seq!['-'] + rest))) is None,
        hyphenated_date_prefix(a + seq!['-'] + (b + seq!['-'] + (c + seq!['-'] + rest)))
            == hyphenated_date(a + seq!['-'] + (b + seq!['-'] + c)),
{
    lemma_split_whole(a, '-');
    lemma_split_whole(b, '-');
    lemma_split_whole(c, '-');
    lemma_split_step(a, '-', b);
    lemma_split_step(c, '-', rest);
    lemma_split_step(b, '-', c);
    lemma_split_step(b, '-', c + seq!['-'] + rest);
    lemma_split_step(a, '-', b + seq!['-'] + c);
    lemma_split_step(a, '-', b + seq!['-'] + (c + seq!['-'] + rest));
    law_pieces_join_to_the_text(rest, '-');
    let short = split(a + seq!['-'] + (b + seq!['-'] + c), '-');
    let long = split(a + seq!['-'] + (b + seq!['-'] + (c + seq!['-'] + rest)), '-');
    assert(short =~= seq![a, b, c]);
    assert(long =~= seq![a, b, c] + split(rest, '-'));
}

/// The shape of a period is that of its last day.
pub proof fn law_the_last_day_tells_the_shape(p: Period)
    ensures
        p.shape() is Some <==> p.end().month == 3 && p.end().day == 31 || p.end().month == 6
            && p.end().day == 30 || p.end().month == 9 && p.end().day == 30 || p.end().month == 12
            && p.end().day == 31,
        p.shape() == Some(PeriodType::Q1) <==> p.end().month == 3 && p.end().day == 31,
        p.shape() == Some(PeriodType::H1) <==> p.end().month == 6 && p.end().day == 30,
        p.shape() == Some(PeriodType::Q3) <==> p.end().month == 9 && p.end().day == 30,
        p.shape() == Some(PeriodType::Annual) <==> p.end().month == 12 && p.end().day == 31,
{
}

} // verus!
