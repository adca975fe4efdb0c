//! From cumulative figures to single quarters.
//!
//! Income and cash flow are reported year to date. A single quarter is the
//! difference of two neighbouring cumulative reports of one year: Q2 is H1 less
//! Q1, Q3 is Q3 less H1, Q4 is the annual less Q3. The figures themselves are
//! subtracted by the caller; here it is decided which two belong together.

use vstd::prelude::*;
use vstd::string::*;

use super::financial_row::{row_views, Amount, FinancialRow, RowView};
use super::period::PeriodType;
use crate::date::Date;
use crate::order::{stable_sort, Ranked};
use crate::text::{
    lemma_text_less_asymmetric, lemma_text_less_total, lemma_text_less_transitive, less, same,
    text_less,
};

verus! {

/// A quarter that cannot be derived: its cumulative report is there, the one
/// before it is not.
#[derive(Debug, PartialEq, Eq)]
pub struct Missing {
    pub item: String,
    pub year: i32,
    /// 2, 3 or 4.
    pub quarter: u8,
}

/// A single quarter: `row.value` is the cumulative figure, `less` the one to
/// take away from it.
#[derive(Debug)]
pub struct SingleQuarter {
    pub row: FinancialRow,
    pub less: Option<Amount>,
}

pub struct MissingView {
    pub item: Seq<char>,
    pub year: i32,
    pub quarter: u8,
}

pub struct SingleView {
    pub row: RowView,
    pub less: Option<Amount>,
}

impl View for Missing {
    type V = MissingView;

    open spec fn view(&self) -> MissingView {
        MissingView { item: self.item@, year: self.year, quarter: self.quarter }
    }
}

impl View for SingleQuarter {
    type V = SingleView;

    open spec fn view(&self) -> SingleView {
        SingleView { row: self.row@, less: self.less }
    }
}

/// What cumulative reports are grouped by.
pub struct KeyView {
    pub code: Seq<char>,
    pub item: Seq<char>,
    pub year: i32,
}

/// The order of groups: by code, then item, then year.
pub open spec fn key_less(a: KeyView, b: KeyView) -> bool {
    if a.code != b.code {
        text_less(a.code, b.code)
    } else if a.item != b.item {
        text_less(a.item, b.item)
    } else {
        a.year < b.year
    }
}

/// The group of a fact.
pub open spec fn key_of(r: RowView) -> KeyView {
    KeyView { code: r.symbol.code, item: r.item, year: r.period.year }
}

/// Some fact belongs to the group.
pub open spec fn has_key(rows: Seq<RowView>, k: KeyView) -> bool {
    exists|i: int| 0 <= i < rows.len() && #[trigger] key_of(rows[i]) == k
}

/// `ks` lists the groups of `rows`, each once, in order.
pub open spec fn is_key_list(rows: Seq<RowView>, ks: Seq<KeyView>) -> bool {
    &&& forall|i: int, j: int|
        0 <= i < j < ks.len() ==> key_less(#[trigger] ks[i], #[trigger] ks[j])
    &&& forall|k: KeyView| #[trigger] ks.contains(k) <==> has_key(rows, k)
}

/// The last fact of a group with the given report type.
pub open spec fn latest(rows: Seq<RowView>, k: KeyView, t: PeriodType) -> Option<RowView>
    decreases rows.len(),
{
    if rows.len() == 0 {
        None
    } else if key_of(rows.last()) == k && rows.last().period_type == t {
        Some(rows.last())
    } else {
        latest(rows.drop_last(), k, t)
    }
}

/// The last day of a quarter.
pub open spec fn quarter_last_day(year: i32, t: PeriodType) -> Date {
    match t {
        PeriodType::Q1 => Date { year, month: 3, day: 31 },
        PeriodType::Q2 | PeriodType::H1 => Date { year, month: 6, day: 30 },
        PeriodType::Q3 => Date { year, month: 9, day: 30 },
        PeriodType::Q4 | PeriodType::Annual => Date { year, month: 12, day: 31 },
    }
}

/// The single quarter `t` out of the cumulative fact `base`.
pub open spec fn single(base: RowView, t: PeriodType, less: Option<Amount>) -> SingleView {
    SingleView {
        row: RowView { period: quarter_last_day(base.period.year, t), period_type: t, ..base },
        less,
    }
}

/// The quarter between two cumulative reports, if both are there.
pub open spec fn difference(
    rows: Seq<RowView>,
    k: KeyView,
    end: PeriodType,
    before: PeriodType,
    t: PeriodType,
) -> Seq<SingleView> {
    match (latest(rows, k, end), latest(rows, k, before)) {
        (Some(e), Some(b)) => seq![single(e, t, Some(b.value))],
        _ => Seq::empty(),
    }
}

/// The gap between two cumulative reports, if only the later one is there.
pub open spec fn gap(
    rows: Seq<RowView>,
    k: KeyView,
    end: PeriodType,
    before: PeriodType,
    quarter: u8,
) -> Seq<MissingView> {
    if latest(rows, k, end) is Some && latest(rows, k, before) is None {
        seq![MissingView { item: k.item, year: k.year, quarter }]
    } else {
        Seq::empty()
    }
}

/// The first quarter, which is its own cumulative report.
pub open spec fn opening(rows: Seq<RowView>, k: KeyView) -> Seq<SingleView> {
    match latest(rows, k, PeriodType::Q1) {
        Some(q1) => seq![single(q1, PeriodType::Q1, None)],
        None => Seq::empty(),
    }
}

/// The quarters of one group, in order.
pub open spec fn singles(rows: Seq<RowView>, k: KeyView) -> Seq<SingleView> {
    opening(rows, k) + difference(rows, k, PeriodType::H1, PeriodType::Q1, PeriodType::Q2)
        + difference(rows, k, PeriodType::Q3, PeriodType::H1, PeriodType::Q3) + difference(
        rows,
        k,
        PeriodType::Annual,
        PeriodType::Q3,
        PeriodType::Q4,
    )
}

/// The gaps of one group, in order.
pub open spec fn gaps(rows: Seq<RowView>, k: KeyView) -> Seq<MissingView> {
    gap(rows, k, PeriodType::H1, PeriodType::Q1, 2) + gap(
        rows,
        k,
        PeriodType::Q3,
        PeriodType::H1,
        3,
    ) + gap(rows, k, PeriodType::Annual, PeriodType::Q3, 4)
}

/// The quarters of the groups `ks`, group by group.
pub open spec fn all_singles(rows: Seq<RowView>, ks: Seq<KeyView>) -> Seq<SingleView>
    decreases ks.len(),
{
    if ks.len() == 0 {
        Seq::empty()
    } else {
        all_singles(rows, ks.drop_last()) + singles(rows, ks.last())
    }
}

/// The gaps of the groups `ks`, group by group.
pub open spec fn all_gaps(rows: Seq<RowView>, ks: Seq<KeyView>) -> Seq<MissingView>
    decreases ks.len(),
{
    if ks.len() == 0 {
        Seq::empty()
    } else {
        all_gaps(rows, ks.drop_last()) + gaps(rows, ks.last())
    }
}

/// The quarters and gaps that `derive` gives for `rows`.
pub open spec fn derived(
    rows: Seq<RowView>,
    out: Seq<SingleView>,
    missing: Seq<MissingView>,
) -> bool {
    exists|ks: Seq<KeyView>|
        #![trigger is_key_list(rows, ks)]
        is_key_list(rows, ks) && out == all_singles(rows, ks) && missing == all_gaps(rows, ks)
}

/// A group, as a value to sort by.
struct GroupKey {
    code: String,
    item: String,
    year: i32,
}

impl View for GroupKey {
    type V = KeyView;

    closed spec fn view(&self) -> KeyView {
        KeyView { code: self.code@, item: self.item@, year: self.year }
    }
}

proof fn lemma_key_asymmetric(a: KeyView, b: KeyView)
    ensures
        !(key_less(a, b) && key_less(b, a)),
{
    lemma_text_less_asymmetric(a.code, b.code);
    lemma_text_less_asymmetric(a.item, b.item);
}

proof fn lemma_key_total(a: KeyView, b: KeyView)
    ensures
        key_less(a, b) || key_less(b, a) || a == b,
{
    lemma_text_less_total(a.code, b.code);
    lemma_text_less_total(a.item, b.item);
}

proof fn lemma_key_transitive(a: KeyView, b: KeyView, c: KeyView)
    requires
        key_less(a, b),
        key_less(b, c),
    ensures
        key_less(a, c),
{
    if a.code != b.code && b.code != c.code {
        lemma_text_less_transitive(a.code, b.code, c.code);
        lemma_text_less_asymmetric(a.code, b.code);
    }
    if a.code == c.code && a.item != b.item && b.item != c.item {
        if a.code == b.code {
            lemma_text_less_transitive(a.item, b.item, c.item);
            lemma_text_less_asymmetric(a.item, b.item);
        }
    }
}

impl Ranked for GroupKey {
    closed spec fn precedes(a: Self, b: Self) -> bool {
        key_less(a@, b@)
    }

    proof fn asymmetric(a: Self, b: Self) {
        lemma_key_asymmetric(a@, b@);
    }

    proof fn between(a: Self, b: Self, c: Self) {
        lemma_key_total(a@, b@);
        if key_less(b@, a@) {
            lemma_key_transitive(b@, a@, c@);
        }
    }

    fn ranks_before(&self, other: &Self) -> (r: bool) {
        if !same(self.code.as_str(), other.code.as_str()) {
            less(self.code.as_str(), other.code.as_str())
        } else if !same(self.item.as_str(), other.item.as_str()) {
            less(self.item.as_str(), other.item.as_str())
        } else {
            self.year < other.year
        }
    }
}

/// The group of a row.
fn group_key(r: &FinancialRow) -> (k: GroupKey)
    ensures
        k@ == key_of(r@),
{
    GroupKey { code: r.symbol.code.clone(), item: r.item.clone(), year: r.period.year }
}

/// Whether two groups are the same.
fn same_key(a: &GroupKey, b: &GroupKey) -> (r: bool)
    ensures
        r == (a@ == b@),
{
    same(a.code.as_str(), b.code.as_str()) && same(a.item.as_str(), b.item.as_str()) && a.year
        == b.year
}

/// Whether a group is listed.
fn contains_key(keys: &Vec<GroupKey>, k: &GroupKey) -> (r: bool)
    ensures
        r == exists|a: int| 0 <= a < keys@.len() && (#[trigger] keys@[a])@ == k@,
{
    let mut j: usize = 0;
    while j < keys.len()
        invariant
            j <= keys@.len(),
            forall|a: int| 0 <= a < j ==> (#[trigger] keys@[a])@ != k@,
        decreases keys@.len() - j,
    {
        if same_key(&keys[j], k) {
            return true;
        }
        j = j + 1;
    }
    false
}

/// The groups of `rows`, each once, in order.
fn group_keys(rows: &Vec<FinancialRow>) -> (out: Vec<GroupKey>)
    ensures
        is_key_list(row_views(rows@), out@.map_values(|k: GroupKey| k@)),
{
    let ghost views = row_views(rows@);
    let mut keys: Vec<GroupKey> = Vec::new();
    let mut i: usize = 0;
    while i < rows.len()
        invariant
            i <= rows@.len(),
            views == row_views(rows@),
            forall|a: int, b: int| 0 <= a < b < keys@.len() ==> (#[trigger] keys@[a])@ != (
            #[trigger] keys@[b])@,
            forall|a: int| 0 <= a < keys@.len() ==> has_key(views, (#[trigger] keys@[a])@),
            forall|r: int|
                0 <= r < i ==> exists|a: int|
                    0 <= a < keys@.len() && (#[trigger] keys@[a])@ == key_of(#[trigger] views[r]),
        decreases rows@.len() - i,
    {
        let k = group_key(&rows[i]);
        let found = contains_key(&keys, &k);
        let ghost before = keys@;
        proof {
            assert(views[i as int] == rows@[i as int]@);
            assert(key_of(views[i as int]) == k@);
        }
        if !found {
            keys.push(k);
            proof {
                assert(keys@[before.len() as int]@ == key_of(views[i as int]));
                assert forall|r: int| 0 <= r < i implies exists|a: int|
                    0 <= a < keys@.len() && (#[trigger] keys@[a])@ == key_of(
                        #[trigger] views[r],
                    ) by {
                    let a = choose|a: int|
                        0 <= a < before.len() && (#[trigger] before[a])@ == key_of(views[r]);
                    assert(keys@[a] == before[a]);
                }
            }
        }
        i = i + 1;
    }
    let ghost unsorted = keys@;
    let sorted = stable_sort(keys);
    proof {
        crate::order::lemma_stable_sorted(unsorted);
        lemma_sorted_keys(views, unsorted, sorted@);
    }
    sorted
}

/// Sorting distinct groups lists them strictly in order.
proof fn lemma_sorted_keys(rows: Seq<RowView>, keys: Seq<GroupKey>, sorted: Seq<GroupKey>)
    requires
        sorted == crate::order::stable_sorted(keys),
        crate::order::sorted(sorted),
        sorted.to_multiset() == keys.to_multiset(),
        forall|a: int, b: int| 0 <= a < b < keys.len() ==> (#[trigger] keys[a])@ != (
        #[trigger] keys[b])@,
        forall|a: int| 0 <= a < keys.len() ==> has_key(rows, (#[trigger] keys[a])@),
        forall|r: int|
            0 <= r < rows.len() ==> exists|a: int|
                0 <= a < keys.len() && (#[trigger] keys[a])@ == key_of(#[trigger] rows[r]),
    ensures
        is_key_list(rows, sorted.map_values(|k: GroupKey| k@)),
{
    let ks = sorted.map_values(|k: GroupKey| k@);
    assert(keys.no_duplicates());
    keys.lemma_multiset_has_no_duplicates();
    sorted.lemma_multiset_has_no_duplicates_conv();
    assert forall|i: int, j: int| 0 <= i < j < ks.len() implies key_less(
        #[trigger] ks[i],
        #[trigger] ks[j],
    ) by {
        assert(!GroupKey::precedes(sorted[j], sorted[i]));
        lemma_key_total(ks[i], ks[j]);
        if ks[i] == ks[j] {
            crate::order::lemma_stable_sorted_contains(keys, sorted[i]);
            crate::order::lemma_stable_sorted_contains(keys, sorted[j]);
            assert(sorted.contains(sorted[i]));
            assert(sorted.contains(sorted[j]));
            let a = choose|a: int| 0 <= a < keys.len() && keys[a] == sorted[i];
            let b = choose|b: int| 0 <= b < keys.len() && keys[b] == sorted[j];
            assert(keys[a]@ == keys[b]@);
            assert(a == b);
            assert(sorted[i] == sorted[j]);
        }
    }
    assert forall|k: KeyView| #[trigger] ks.contains(k) <==> has_key(rows, k) by {
        if ks.contains(k) {
            let i = choose|i: int| 0 <= i < ks.len() && ks[i] == k;
            crate::order::lemma_stable_sorted_contains(keys, sorted[i]);
            assert(sorted.contains(sorted[i]));
            let a = choose|a: int| 0 <= a < keys.len() && keys[a] == sorted[i];
            assert(has_key(rows, keys[a]@));
        }
        if has_key(rows, k) {
            let r = choose|r: int| 0 <= r < rows.len() && #[trigger] key_of(rows[r]) == k;
            let a = choose|a: int|
                0 <= a < keys.len() && (#[trigger] keys[a])@ == key_of(rows[r]);
            assert(keys.contains(keys[a]));
            crate::order::lemma_stable_sorted_contains(keys, keys[a]);
            let i = choose|i: int| 0 <= i < sorted.len() && sorted[i] == keys[a];
            assert(ks[i] == k);
        }
    }
}

/// The last row of a group with the given report type.
fn find_latest(rows: &Vec<FinancialRow>, k: &GroupKey, t: PeriodType) -> (r: Option<usize>)
    ensures
        match r {
            Some(i) => i < rows@.len() && latest(row_views(rows@), k@, t) == Some(
                rows@[i as int]@,
            ),
            None => latest(row_views(rows@), k@, t) is None,
        },
{
    let ghost views = row_views(rows@);
    let mut i: usize = rows.len();
    proof {
        assert(views.take(views.len() as int) =~= views);
    }
    while i > 0
        invariant
            i <= rows@.len(),
            views == row_views(rows@),
            latest(views, k@, t) == latest(views.take(i as int), k@, t),
        decreases i,
    {
        let row = &rows[i - 1];
        proof {
            assert(views.take(i as int).last() == row@);
            assert(views.take(i as int).drop_last() =~= views.take(i as int - 1));
        }
        if row.period_type == t && same_key(&group_key(row), k) {
            return Some(i - 1);
        }
        i = i - 1;
    }
    None
}

/// The last day of a quarter.
fn quarter_end(year: i32, t: PeriodType) -> (d: Date)
    ensures
        d == quarter_last_day(year, t),
{
    match t {
        PeriodType::Q1 => Date { year, month: 3, day: 31 },
        PeriodType::Q2 | PeriodType::H1 => Date { year, month: 6, day: 30 },
        PeriodType::Q3 => Date { year, month: 9, day: 30 },
        PeriodType::Q4 | PeriodType::Annual => Date { year, month: 12, day: 31 },
    }
}

/// The single quarter `t` out of the cumulative row `base`.
fn single_row(base: &FinancialRow, t: PeriodType, less: Option<Amount>) -> (s: SingleQuarter)
    ensures
        s@ == single(base@, t, less),
{
    let mut row = base.clone();
    row.period = quarter_end(base.period.year, t);
    row.period_type = t;
    SingleQuarter { row, less }
}

/// The quarters that a list holds.
pub open spec fn single_views(v: Seq<SingleQuarter>) -> Seq<SingleView> {
    v.map_values(|s: SingleQuarter| s@)
}

/// The gaps that a list holds.
pub open spec fn missing_views(v: Seq<Missing>) -> Seq<MissingView> {
    v.map_values(|m: Missing| m@)
}

/// Adds the quarter between two cumulative reports, or the gap there.
fn push_difference(
    rows: &Vec<FinancialRow>,
    k: &GroupKey,
    end: PeriodType,
    before: PeriodType,
    quarter: u8,
    t: PeriodType,
    out: &mut Vec<SingleQuarter>,
    missing: &mut Vec<Missing>,
)
    ensures
        single_views(final(out)@) == single_views(old(out)@) + difference(
            row_views(rows@),
            k@,
            end,
            before,
            t,
        ),
        missing_views(final(missing)@) == missing_views(old(missing)@) + gap(
            row_views(rows@),
            k@,
            end,
            before,
            quarter,
        ),
{
    match (find_latest(rows, k, end), find_latest(rows, k, before)) {
        (Some(e), Some(b)) => {
            out.push(single_row(&rows[e], t, Some(rows[b].value)));
        },
        (Some(_), None) => {
            missing.push(Missing { item: k.item.clone(), year: k.year, quarter });
        },
        _ => {},
    }
    proof {
        assert(single_views(out@) =~= single_views(old(out)@) + difference(
            row_views(rows@),
            k@,
            end,
            before,
            t,
        ));
        assert(missing_views(missing@) =~= missing_views(old(missing)@) + gap(
            row_views(rows@),
            k@,
            end,
            before,
            quarter,
        ));
    }
}

/// The single quarters of cumulative rows, and the quarters that cannot be
/// derived. Groups come in the order of code, item and year; rows with types
/// other than the four cumulative ones are ignored.
pub fn derive(rows: Vec<FinancialRow>) -> (r: (Vec<SingleQuarter>, Vec<Missing>))
    ensures
        derived(row_views(rows@), single_views(r.0@), missing_views(r.1@)),
{
    let ghost views = row_views(rows@);
    let keys = group_keys(&rows);
    let ghost ks = keys@.map_values(|k: GroupKey| k@);
    let mut out: Vec<SingleQuarter> = Vec::new();
    let mut missing: Vec<Missing> = Vec::new();
    let mut i: usize = 0;
    proof {
        assert(single_views(out@) =~= all_singles(views, ks.take(0)));
        assert(missing_views(missing@) =~= all_gaps(views, ks.take(0)));
    }
    while i < keys.len()
        invariant
            i <= keys@.len(),
            views == row_views(rows@),
            ks == keys@.map_values(|k: GroupKey| k@),
            single_views(out@) == all_singles(views, ks.take(i as int)),
            missing_views(missing@) == all_gaps(views, ks.take(i as int)),
        decreases keys@.len() - i,
    {
        let k = &keys[i];
        let ghost out0 = single_views(out@);
        let ghost missing0 = missing_views(missing@);
        if let Some(q1) = find_latest(&rows, k, PeriodType::Q1) {
            out.push(single_row(&rows[q1], PeriodType::Q1, None));
        }
        proof {
            assert(single_views(out@) =~= out0 + opening(views, k@));
        }
        push_difference(
            &rows,
            k,
            PeriodType::H1,
            PeriodType::Q1,
            2,
            PeriodType::Q2,
            &mut out,
            &mut missing,
        );
        push_difference(
            &rows,
            k,
            PeriodType::Q3,
            PeriodType::H1,
            3,
            PeriodType::Q3,
            &mut out,
            &mut missing,
        );
        push_difference(
            &rows,
            k,
            PeriodType::Annual,
            PeriodType::Q3,
            4,
            PeriodType::Q4,
            &mut out,
            &mut missing,
        );
        proof {
            let next = ks.take(i as int + 1);
            assert(next.drop_last() =~= ks.take(i as int));
            assert(next.last() == k@);
            assert(single_views(out@) =~= out0 + singles(views, k@));
            assert(missing_views(missing@) =~= missing0 + gaps(views, k@));
        }
        i = i + 1;
    }
    proof {
        assert(ks.take(i as int) =~= ks);
        assert(is_key_list(views, ks));
    }
    (out, missing)
}

/// There is one list of groups only, so what `derive` gives is determined by
/// its input.
pub proof fn law_derive_is_determined(
    rows: Seq<RowView>,
    out1: Seq<SingleView>,
    missing1: Seq<MissingView>,
    out2: Seq<SingleView>,
    missing2: Seq<MissingView>,
)
    requires
        derived(rows, out1, missing1),
        derived(rows, out2, missing2),
    ensures
        out1 == out2,
        missing1 == missing2,
{
    let a = choose|ks: Seq<KeyView>|
        #![trigger is_key_list(rows, ks)]
        is_key_list(rows, ks) && out1 == all_singles(rows, ks) && missing1 == all_gaps(rows, ks);
    let b = choose|ks: Seq<KeyView>|
        #![trigger is_key_list(rows, ks)]
        is_key_list(rows, ks) && out2 == all_singles(rows, ks) && missing2 == all_gaps(rows, ks);
    lemma_key_lists_agree(rows, a, b);
}

/// Two ordered lists of the same groups are the same list.
proof fn lemma_key_lists_agree(rows: Seq<RowView>, a: Seq<KeyView>, b: Seq<KeyView>)
    requires
        is_key_list(rows, a),
        is_key_list(rows, b),
    ensures
        a == b,
{
    let leq = |x: KeyView, y: KeyView| key_less(x, y) || x == y;
    assert(a.no_duplicates()) by {
        assert forall|i: int, j: int| 0 <= i < a.len() && 0 <= j < a.len() && i != j implies a[i]
            != a[j] by {
            if i < j {
                lemma_key_asymmetric(a[i], a[j]);
            } else {
                lemma_key_asymmetric(a[j], a[i]);
            }
        }
    }
    assert(b.no_duplicates()) by {
        assert forall|i: int, j: int| 0 <= i < b.len() && 0 <= j < b.len() && i != j implies b[i]
            != b[j] by {
            if i < j {
                lemma_key_asymmetric(b[i], b[j]);
            } else {
                lemma_key_asymmetric(b[j], b[i]);
            }
        }
    }
    assert(a.to_multiset() =~= b.to_multiset()) by {
        a.lemma_multiset_has_no_duplicates();
        b.lemma_multiset_has_no_duplicates();
        assert forall|k: KeyView| #[trigger] a.to_multiset().count(k) == b.to_multiset().count(
            k,
        ) by {
            vstd::seq_lib::to_multiset_contains(a, k);
            vstd::seq_lib::to_multiset_contains(b, k);
            assert(a.contains(k) == b.contains(k));
        }
    }
    assert(vstd::relations::total_ordering(leq)) by {
        assert forall|x: KeyView, y: KeyView, z: KeyView| #[trigger] leq(x, y) && #[trigger] leq(
            y,
            z,
        ) implies leq(x, z) by {
            if key_less(x, y) && key_less(y, z) {
                lemma_key_transitive(x, y, z);
            }
        }
        assert forall|x: KeyView, y: KeyView| #[trigger] leq(x, y) && #[trigger] leq(
            y,
            x,
        ) implies x == y by {
            lemma_key_asymmetric(x, y);
        }
        assert forall|x: KeyView, y: KeyView| #[trigger] leq(x, y) || #[trigger] leq(y, x) by {
            lemma_key_total(x, y);
        }
    }
    vstd::seq_lib::lemma_sorted_unique(a, b, leq);
}

/// The last fact of a group with a report type is one of them; where there is
/// none, no fact is.
proof fn lemma_latest(rows: Seq<RowView>, k: KeyView, t: PeriodType)
    ensures
        match latest(rows, k, t) {
            Some(r) => rows.contains(r) && key_of(r) == k && r.period_type == t,
            None => forall|r: RowView| #[trigger]
                rows.contains(r) ==> !(key_of(r) == k && r.period_type == t),
        },
    decreases rows.len(),
{
    if rows.len() > 0 {
        let d = rows.drop_last();
        assert(rows[rows.len() - 1] == rows.last());
        lemma_latest(d, k, t);
        if latest(d, k, t) is Some {
            let r = latest(d, k, t)->0;
            let i = choose|i: int| 0 <= i < d.len() && d[i] == r;
            assert(rows[i] == r);
        } else {
            assert forall|r: RowView| #[trigger] rows.contains(r) && r != rows.last() implies
                d.contains(r) by {
                let i = choose|i: int| 0 <= i < rows.len() && rows[i] == r;
                assert(d[i] == r);
            }
        }
    }
}

/// No two different facts of a list are of the same group and report type.
pub open spec fn no_rivals(rows: Seq<RowView>) -> bool {
    forall|r: RowView, s: RowView|
        #![trigger rows.contains(r), rows.contains(s)]
        rows.contains(r) && rows.contains(s) && key_of(r) == key_of(s) && r.period_type
            == s.period_type ==> r == s
}

proof fn lemma_same_latest(a: Seq<RowView>, b: Seq<RowView>, k: KeyView, t: PeriodType)
    requires
        forall|r: RowView| #[trigger] a.contains(r) <==> b.contains(r),
        no_rivals(a),
    ensures
        latest(a, k, t) == latest(b, k, t),
{
    lemma_latest(a, k, t);
    lemma_latest(b, k, t);
    if latest(a, k, t) is Some {
        assert(b.contains(latest(a, k, t)->0));
    }
    if latest(b, k, t) is Some {
        assert(a.contains(latest(b, k, t)->0));
    }
}

proof fn lemma_same_quarters(a: Seq<RowView>, b: Seq<RowView>, ks: Seq<KeyView>)
    requires
        forall|r: RowView| #[trigger] a.contains(r) <==> b.contains(r),
        no_rivals(a),
    ensures
        all_singles(a, ks) == all_singles(b, ks),
        all_gaps(a, ks) == all_gaps(b, ks),
    decreases ks.len(),
{
    if ks.len() > 0 {
        lemma_same_quarters(a, b, ks.drop_last());
        lemma_same_latest(a, b, ks.last(), PeriodType::Q1);
        lemma_same_latest(a, b, ks.last(), PeriodType::H1);
        lemma_same_latest(a, b, ks.last(), PeriodType::Q3);
        lemma_same_latest(a, b, ks.last(), PeriodType::Annual);
    }
}

/// The order of the rows does not change what `derive` gives. Left out are
/// lists in which two different facts are of the same group and report type:
/// of those the later one counts.
pub proof fn law_the_order_of_rows_does_not_matter(
    a: Seq<RowView>,
    b: Seq<RowView>,
    out1: Seq<SingleView>,
    missing1: Seq<MissingView>,
    out2: Seq<SingleView>,
    missing2: Seq<MissingView>,
)
    requires
        a.to_multiset() == b.to_multiset(),
        no_rivals(a),
        derived(a, out1, missing1),
        derived(b, out2, missing2),
    ensures
        out1 == out2,
        missing1 == missing2,
{
    assert forall|r: RowView| #[trigger] a.contains(r) <==> b.contains(r) by {
        vstd::seq_lib::to_multiset_contains(a, r);
        vstd::seq_lib::to_multiset_contains(b, r);
    }
    let ks = choose|ks: Seq<KeyView>|
        #![trigger is_key_list(b, ks)]
        is_key_list(b, ks) && out2 == all_singles(b, ks) && missing2 == all_gaps(b, ks);
    assert forall|k: KeyView| #[trigger] has_key(a, k) <==> has_key(b, k) by {
        if has_key(a, k) {
            let i = choose|i: int| 0 <= i < a.len() && #[trigger] key_of(a[i]) == k;
            assert(a.contains(a[i]));
            let j = choose|j: int| 0 <= j < b.len() && b[j] == a[i];
            assert(key_of(b[j]) == k);
        }
        if has_key(b, k) {
            let i = choose|i: int| 0 <= i < b.len() && #[trigger] key_of(b[i]) == k;
            assert(b.contains(b[i]));
            assert(a.contains(b[i]));
            let j = choose|j: int| 0 <= j < a.len() && a[j] == b[i];
            assert(key_of(a[j]) == k);
        }
    }
    assert(is_key_list(a, ks));
    lemma_same_quarters(a, b, ks);
    assert(derived(a, out2, missing2));
    law_derive_is_determined(a, out1, missing1, out2, missing2);
}

/// One quarter stands before another: its group does, or it is an earlier one
/// of the same group.
pub open spec fn quarter_before(a: RowView, b: RowView) -> bool {
    key_less(key_of(a), key_of(b)) || key_of(a) == key_of(b) && a.period.before(b.period)
}

/// The quarters of one group are of that group and ascend.
proof fn lemma_singles_ascend(rows: Seq<RowView>, k: KeyView)
    ensures
        forall|i: int|
            0 <= i < singles(rows, k).len() ==> key_of((#[trigger] singles(rows, k)[i]).row) == k,
        forall|i: int, j: int|
            0 <= i < j < singles(rows, k).len() ==> (#[trigger] singles(rows, k)[i]).row.period.before(
                (#[trigger] singles(rows, k)[j]).row.period,
            ),
{
    lemma_latest(rows, k, PeriodType::Q1);
    lemma_latest(rows, k, PeriodType::H1);
    lemma_latest(rows, k, PeriodType::Q3);
    lemma_latest(rows, k, PeriodType::Annual);
    let q1 = opening(rows, k);
    let q2 = difference(rows, k, PeriodType::H1, PeriodType::Q1, PeriodType::Q2);
    let q3 = difference(rows, k, PeriodType::Q3, PeriodType::H1, PeriodType::Q3);
    let q4 = difference(rows, k, PeriodType::Annual, PeriodType::Q3, PeriodType::Q4);
    assert(q1.len() <= 1 && q2.len() <= 1 && q3.len() <= 1 && q4.len() <= 1);
    assert forall|i: int| 0 <= i < singles(rows, k).len() implies key_of(
        (#[trigger] singles(rows, k)[i]).row,
    ) == k && singles(rows, k)[i].row.period == quarter_last_day(
        k.year,
        if i < q1.len() {
            PeriodType::Q1
        } else if i < q1.len() + q2.len() {
            PeriodType::Q2
        } else if i < q1.len() + q2.len() + q3.len() {
            PeriodType::Q3
        } else {
            PeriodType::Q4
        },
    ) by {
        if i < q1.len() {
            assert(singles(rows, k)[i] == q1[0]);
        } else if i < q1.len() + q2.len() {
            assert(singles(rows, k)[i] == q2[0]);
        } else if i < q1.len() + q2.len() + q3.len() {
            assert(singles(rows, k)[i] == q3[0]);
        } else {
            assert(singles(rows, k)[i] == q4[0]);
        }
    }
}

proof fn lemma_all_singles_ascend(rows: Seq<RowView>, ks: Seq<KeyView>)
    requires
        forall|i: int, j: int|
            0 <= i < j < ks.len() ==> key_less(#[trigger] ks[i], #[trigger] ks[j]),
    ensures
        forall|i: int|
            0 <= i < all_singles(rows, ks).len() ==> ks.contains(
                key_of((#[trigger] all_singles(rows, ks)[i]).row),
            ),
        forall|i: int, j: int|
            0 <= i < j < all_singles(rows, ks).len() ==> quarter_before(
                (#[trigger] all_singles(rows, ks)[i]).row,
                (#[trigger] all_singles(rows, ks)[j]).row,
            ),
    decreases ks.len(),
{
    if ks.len() > 0 {
        let d = ks.drop_last();
        let k = ks.last();
        let before = all_singles(rows, d);
        let own = singles(rows, k);
        let all = all_singles(rows, ks);
        lemma_all_singles_ascend(rows, d);
        lemma_singles_ascend(rows, k);
        assert forall|i: int| 0 <= i < all.len() implies ks.contains(
            key_of((#[trigger] all[i]).row),
        ) && (i < before.len() ==> key_less(key_of(all[i].row), k)) by {
            if i < before.len() {
                assert(all[i] == before[i]);
                let at = choose|at: int| 0 <= at < d.len() && d[at] == key_of(before[i].row);
                assert(ks[at] == key_of(all[i].row));
                assert(key_less(ks[at], ks[ks.len() - 1]));
            } else {
                assert(all[i] == own[i - before.len()]);
                assert(ks[ks.len() - 1] == k);
            }
        }
        assert forall|i: int, j: int| 0 <= i < j < all.len() implies quarter_before(
            (#[trigger] all[i]).row,
            (#[trigger] all[j]).row,
        ) by {
            if j < before.len() {
                assert(all[i] == before[i] && all[j] == before[j]);
            } else {
                assert(all[j] == own[j - before.len()]);
                if i >= before.len() {
                    assert(all[i] == own[i - before.len()]);
                }
            }
        }
    }
}

/// The quarters that `derive` gives ascend: by code, item and year, and within a
/// year by quarter.
pub proof fn law_quarters_ascend(
    rows: Seq<RowView>,
    out: Seq<SingleView>,
    missing: Seq<MissingView>,
    i: int,
    j: int,
)
    requires
        derived(rows, out, missing),
        0 <= i < j < out.len(),
    ensures
        quarter_before(out[i].row, out[j].row),
{
    let ks = choose|ks: Seq<KeyView>|
        #![trigger is_key_list(rows, ks)]
        is_key_list(rows, ks) && out == all_singles(rows, ks) && missing == all_gaps(rows, ks);
    lemma_all_singles_ascend(rows, ks);
}

/// Where all four cumulative reports of a year are there, its quarters add up
/// to the annual figure, whatever figures the amounts stand for.
pub proof fn law_single_quarters_sum_to_the_year(
    rows: Seq<RowView>,
    k: KeyView,
    figure: spec_fn(Amount) -> int,
)
    requires
        latest(rows, k, PeriodType::Q1) is Some,
        latest(rows, k, PeriodType::H1) is Some,
        latest(rows, k, PeriodType::Q3) is Some,
        latest(rows, k, PeriodType::Annual) is Some,
    ensures
        gaps(rows, k).len() == 0,
        singles(rows, k).len() == 4,
        ({
            let q = singles(rows, k);
            let value = |s: SingleView|
                figure(s.row.value) - (match s.less {
                    Some(a) => figure(a),
                    None => 0,
                });
            value(q[0]) + value(q[1]) + value(q[2]) + value(q[3]) == figure(
                latest(rows, k, PeriodType::Annual)->0.value,
            )
        }),
{
}

/// Where the last fact of a group with a report type stands.
proof fn lemma_latest_at(rows: Seq<RowView>, k: KeyView, t: PeriodType) -> (at: int)
    requires
        latest(rows, k, t) is Some,
    ensures
        0 <= at < rows.len(),
        rows[at] == latest(rows, k, t)->0,
        key_of(rows[at]) == k,
        rows[at].period_type == t,
        forall|m: int|
            at < m < rows.len() ==> !(key_of(#[trigger] rows[m]) == k && rows[m].period_type == t),
    decreases rows.len(),
{
    if key_of(rows.last()) == k && rows.last().period_type == t {
        rows.len() - 1
    } else {
        let d = rows.drop_last();
        let at = lemma_latest_at(d, k, t);
        assert forall|m: int| at < m < rows.len() implies !(key_of(#[trigger] rows[m]) == k
            && rows[m].period_type == t) by {
            if m < d.len() {
                assert(d[m] == rows[m]);
            }
        }
        at
    }
}

/// A fact of a group with a report type makes sure that there is a last one, and
/// that the group is listed.
proof fn lemma_group_is_there(rows: Seq<RowView>, ks: Seq<KeyView>, i: int)
    requires
        is_key_list(rows, ks),
        0 <= i < rows.len(),
    ensures
        latest(rows, key_of(rows[i]), rows[i].period_type) is Some,
        ks.contains(key_of(rows[i])),
{
    lemma_latest(rows, key_of(rows[i]), rows[i].period_type);
    assert(rows.contains(rows[i]));
    assert(has_key(rows, key_of(rows[i])));
}

/// What a group gives is among what all groups give.
proof fn lemma_group_is_given(rows: Seq<RowView>, ks: Seq<KeyView>, k: KeyView)
    requires
        ks.contains(k),
    ensures
        forall|x: SingleView| #[trigger]
            singles(rows, k).contains(x) ==> all_singles(rows, ks).contains(x),
        forall|x: MissingView| #[trigger]
            gaps(rows, k).contains(x) ==> all_gaps(rows, ks).contains(x),
    decreases ks.len(),
{
    let d = ks.drop_last();
    let at = choose|at: int| 0 <= at < ks.len() && ks[at] == k;
    let before = all_singles(rows, d);
    let all = all_singles(rows, ks);
    let gaps_before = all_gaps(rows, d);
    let gaps_all = all_gaps(rows, ks);
    if at < d.len() {
        assert(d[at] == k);
        lemma_group_is_given(rows, d, k);
    }
    assert forall|x: SingleView| #[trigger] singles(rows, k).contains(x) implies all.contains(x) by {
        if at < d.len() {
            let i = choose|i: int| 0 <= i < before.len() && before[i] == x;
            assert(all[i] == x);
        } else {
            let own = singles(rows, k);
            let i = choose|i: int| 0 <= i < own.len() && own[i] == x;
            assert(all[before.len() + i] == x);
        }
    }
    assert forall|x: MissingView| #[trigger] gaps(rows, k).contains(x) implies gaps_all.contains(
        x,
    ) by {
        if at < d.len() {
            let i = choose|i: int| 0 <= i < gaps_before.len() && gaps_before[i] == x;
            assert(gaps_all[i] == x);
        } else {
            let own = gaps(rows, k);
            let i = choose|i: int| 0 <= i < own.len() && own[i] == x;
            assert(gaps_all[gaps_before.len() + i] == x);
        }
    }
}

/// What all groups give comes from one of them.
proof fn lemma_single_of_group(rows: Seq<RowView>, ks: Seq<KeyView>, j: int) -> (k: KeyView)
    requires
        0 <= j < all_singles(rows, ks).len(),
    ensures
        ks.contains(k),
        singles(rows, k).contains(all_singles(rows, ks)[j]),
    decreases ks.len(),
{
    let d = ks.drop_last();
    let before = all_singles(rows, d);
    if j < before.len() {
        let k = lemma_single_of_group(rows, d, j);
        let at = choose|at: int| 0 <= at < d.len() && d[at] == k;
        assert(ks[at] == k);
        k
    } else {
        assert(singles(rows, ks.last())[j - before.len()] == all_singles(rows, ks)[j]);
        assert(ks[ks.len() - 1] == ks.last());
        ks.last()
    }
}

/// A gap comes from one of the groups.
proof fn lemma_gap_of_group(rows: Seq<RowView>, ks: Seq<KeyView>, j: int) -> (k: KeyView)
    requires
        0 <= j < all_gaps(rows, ks).len(),
    ensures
        ks.contains(k),
        gaps(rows, k).contains(all_gaps(rows, ks)[j]),
    decreases ks.len(),
{
    let d = ks.drop_last();
    let before = all_gaps(rows, d);
    if j < before.len() {
        let k = lemma_gap_of_group(rows, d, j);
        let at = choose|at: int| 0 <= at < d.len() && d[at] == k;
        assert(ks[at] == k);
        k
    } else {
        assert(gaps(rows, ks.last())[j - before.len()] == all_gaps(rows, ks)[j]);
        assert(ks[ks.len() - 1] == ks.last());
        ks.last()
    }
}

/// Every first quarter is given: for each report of a first quarter there is a
/// quarter of the same company, item and year, from which nothing is to be taken
/// away.
pub proof fn law_every_first_quarter_is_given(
    rows: Seq<RowView>,
    out: Seq<SingleView>,
    missing: Seq<MissingView>,
    i: int,
)
    requires
        derived(rows, out, missing),
        0 <= i < rows.len(),
        rows[i].period_type == PeriodType::Q1,
    ensures
        exists|j: int|
            0 <= j < out.len() && (#[trigger] out[j]).row.symbol.code == rows[i].symbol.code
                && out[j].row.item == rows[i].item && out[j].row.period.year == rows[i].period.year
                && out[j].row.period_type == PeriodType::Q1 && out[j].less is None,
{
    let ks = choose|ks: Seq<KeyView>|
        #![trigger is_key_list(rows, ks)]
        is_key_list(rows, ks) && out == all_singles(rows, ks) && missing == all_gaps(rows, ks);
    let k = key_of(rows[i]);
    lemma_group_is_there(rows, ks, i);
    lemma_group_is_given(rows, ks, k);
    let at = lemma_latest_at(rows, k, PeriodType::Q1);
    let x = opening(rows, k)[0];
    assert(singles(rows, k)[0] == x);
    assert(singles(rows, k).contains(x));
    assert(out.contains(x));
    let j = choose|j: int| 0 <= j < out.len() && out[j] == x;
    assert(out[j].row.item == rows[i].item);
}

/// Every quarter with the reports at its end and at its beginning is given: where
/// two reports of one company, item and year are those of the half year and the
/// first quarter, of three quarters and the half year, or of the year and three
/// quarters, there is the second, third or fourth quarter of that company, item
/// and year, with something to take away.
pub proof fn law_every_quarter_between_two_reports_is_given(
    rows: Seq<RowView>,
    out: Seq<SingleView>,
    missing: Seq<MissingView>,
    i: int,
    m: int,
    t: PeriodType,
)
    requires
        derived(rows, out, missing),
        0 <= i < rows.len(),
        0 <= m < rows.len(),
        rows[i].symbol.code == rows[m].symbol.code,
        rows[i].item == rows[m].item,
        rows[i].period.year == rows[m].period.year,
        ({
            let end = rows[i].period_type;
            let before = rows[m].period_type;
            ||| t == PeriodType::Q2 && end == PeriodType::H1 && before == PeriodType::Q1
            ||| t == PeriodType::Q3 && end == PeriodType::Q3 && before == PeriodType::H1
            ||| t == PeriodType::Q4 && end == PeriodType::Annual && before == PeriodType::Q3
        }),
    ensures
        exists|j: int|
            0 <= j < out.len() && (#[trigger] out[j]).row.symbol.code == rows[i].symbol.code
                && out[j].row.item == rows[i].item && out[j].row.period.year == rows[i].period.year
                && out[j].row.period_type == t && out[j].less is Some,
{
    let ks = choose|ks: Seq<KeyView>|
        #![trigger is_key_list(rows, ks)]
        is_key_list(rows, ks) && out == all_singles(rows, ks) && missing == all_gaps(rows, ks);
    let k = key_of(rows[i]);
    let end = rows[i].period_type;
    let before = rows[m].period_type;
    lemma_group_is_there(rows, ks, i);
    lemma_group_is_there(rows, ks, m);
    lemma_group_is_given(rows, ks, k);
    let at = lemma_latest_at(rows, k, end);
    let first = opening(rows, k);
    let second = difference(rows, k, PeriodType::H1, PeriodType::Q1, PeriodType::Q2);
    let third = difference(rows, k, PeriodType::Q3, PeriodType::H1, PeriodType::Q3);
    let x = difference(rows, k, end, before, t)[0];
    let place: int = if t == PeriodType::Q2 {
        first.len() as int
    } else if t == PeriodType::Q3 {
        (first.len() + second.len()) as int
    } else {
        (first.len() + second.len() + third.len()) as int
    };
    assert(singles(rows, k)[place] == x);
    assert(singles(rows, k).contains(x));
    assert(out.contains(x));
    let j = choose|j: int| 0 <= j < out.len() && out[j] == x;
    assert(out[j].row.item == rows[i].item);
}

/// The fact at `at` is of the given company, item, year and kind of report, and
/// none behind it is.
pub open spec fn is_last_report(
    rows: Seq<RowView>,
    at: int,
    code: Seq<char>,
    item: Seq<char>,
    year: i32,
    t: PeriodType,
) -> bool {
    &&& 0 <= at < rows.len()
    &&& rows[at].symbol.code == code
    &&& rows[at].item == item
    &&& rows[at].period.year == year
    &&& rows[at].period_type == t
    &&& forall|m: int|
        at < m < rows.len() ==> !((#[trigger] rows[m]).symbol.code == code && rows[m].item == item
            && rows[m].period.year == year && rows[m].period_type == t)
}

proof fn lemma_last_report(rows: Seq<RowView>, k: KeyView, t: PeriodType) -> (at: int)
    requires
        latest(rows, k, t) is Some,
    ensures
        is_last_report(rows, at, k.code, k.item, k.year, t),
        rows[at] == latest(rows, k, t)->0,
{
    let at = lemma_latest_at(rows, k, t);
    assert forall|m: int| at < m < rows.len() implies !((#[trigger] rows[m]).symbol.code == k.code
        && rows[m].item == k.item && rows[m].period.year == k.year && rows[m].period_type
        == t) by {
        assert(!(key_of(rows[m]) == k && rows[m].period_type == t));
    }
    at
}

/// A quarter of a group is the first one or a difference.
proof fn lemma_single_is(rows: Seq<RowView>, k: KeyView, x: SingleView)
    requires
        singles(rows, k).contains(x),
    ensures
        ({
            ||| opening(rows, k) == seq![x]
            ||| difference(rows, k, PeriodType::H1, PeriodType::Q1, PeriodType::Q2) == seq![x]
            ||| difference(rows, k, PeriodType::Q3, PeriodType::H1, PeriodType::Q3) == seq![x]
            ||| difference(rows, k, PeriodType::Annual, PeriodType::Q3, PeriodType::Q4) == seq![x]
        }),
{
    let own = singles(rows, k);
    let i = choose|i: int| 0 <= i < own.len() && own[i] == x;
    let first = opening(rows, k);
    let second = difference(rows, k, PeriodType::H1, PeriodType::Q1, PeriodType::Q2);
    let third = difference(rows, k, PeriodType::Q3, PeriodType::H1, PeriodType::Q3);
    let fourth = difference(rows, k, PeriodType::Annual, PeriodType::Q3, PeriodType::Q4);
    assert(first.len() <= 1 && second.len() <= 1 && third.len() <= 1 && fourth.len() <= 1);
    if i < first.len() {
        assert(first =~= seq![x]);
    } else if i < first.len() + second.len() {
        assert(second =~= seq![x]);
    } else if i < first.len() + second.len() + third.len() {
        assert(third =~= seq![x]);
    } else {
        assert(fourth =~= seq![x]);
    }
}

/// A difference is made of the last reports of its group.
proof fn lemma_difference_is(
    rows: Seq<RowView>,
    k: KeyView,
    end: PeriodType,
    before: PeriodType,
    t: PeriodType,
    x: SingleView,
) -> (at: (int, int))
    requires
        difference(rows, k, end, before, t) == seq![x],
    ensures
        x.row.symbol.code == k.code,
        x.row.item == k.item,
        x.row.period == quarter_last_day(k.year, t),
        x.row.period_type == t,
        is_last_report(rows, at.0, k.code, k.item, k.year, end),
        x.row == (RowView { period: x.row.period, period_type: t, ..rows[at.0] }),
        is_last_report(rows, at.1, k.code, k.item, k.year, before),
        x.less == Some(rows[at.1].value),
{
    let d = difference(rows, k, end, before, t);
    assert(d.len() == 1 && d[0] == x);
    let a = lemma_last_report(rows, k, end);
    let b = lemma_last_report(rows, k, before);
    (a, b)
}

/// A quarter is made of reports of its own company, item and year. Its cumulative
/// figure, and all else but the day and the kind of period, is that of the report
/// at its end, and the figure to take away is that of the report at its
/// beginning: the first quarter has no such figure, the second takes the first
/// quarter from the half year, the third the half year from three quarters, the
/// fourth three quarters from the year. Of several reports of one kind the last
/// counts. The day is the last of the quarter.
pub proof fn law_a_quarter_is_made_of_its_own_reports(
    rows: Seq<RowView>,
    out: Seq<SingleView>,
    missing: Seq<MissingView>,
    j: int,
) -> (at: (int, int))
    requires
        derived(rows, out, missing),
        0 <= j < out.len(),
    ensures
        ({
            let q = out[j].row;
            let (end, before) = match q.period_type {
                PeriodType::Q1 => (PeriodType::Q1, PeriodType::Q1),
                PeriodType::Q2 => (PeriodType::H1, PeriodType::Q1),
                PeriodType::Q3 => (PeriodType::Q3, PeriodType::H1),
                _ => (PeriodType::Annual, PeriodType::Q3),
            };
            &&& is_last_report(rows, at.0, q.symbol.code, q.item, q.period.year, end)
            &&& q == (RowView { period: q.period, period_type: q.period_type, ..rows[at.0] })
            &&& q.period_type == PeriodType::Q1 ==> out[j].less is None
            &&& q.period_type != PeriodType::Q1 ==> is_last_report(
                rows,
                at.1,
                q.symbol.code,
                q.item,
                q.period.year,
                before,
            ) && out[j].less == Some(rows[at.1].value)
        }),
        ({
            let q = out[j].row;
            ||| q.period_type == PeriodType::Q1 && q.period.month == 3 && q.period.day == 31
            ||| q.period_type == PeriodType::Q2 && q.period.month == 6 && q.period.day == 30
            ||| q.period_type == PeriodType::Q3 && q.period.month == 9 && q.period.day == 30
            ||| q.period_type == PeriodType::Q4 && q.period.month == 12 && q.period.day == 31
        }),
{
    let ks = choose|ks: Seq<KeyView>|
        #![trigger is_key_list(rows, ks)]
        is_key_list(rows, ks) && out == all_singles(rows, ks) && missing == all_gaps(rows, ks);
    let k = lemma_single_of_group(rows, ks, j);
    let x = out[j];
    lemma_single_is(rows, k, x);
    if opening(rows, k) == seq![x] {
        assert(seq![x][0] == x);
        let a = lemma_last_report(rows, k, PeriodType::Q1);
        (a, a)
    } else if difference(rows, k, PeriodType::H1, PeriodType::Q1, PeriodType::Q2) == seq![x] {
        lemma_difference_is(rows, k, PeriodType::H1, PeriodType::Q1, PeriodType::Q2, x)
    } else if difference(rows, k, PeriodType::Q3, PeriodType::H1, PeriodType::Q3) == seq![x] {
        lemma_difference_is(rows, k, PeriodType::Q3, PeriodType::H1, PeriodType::Q3, x)
    } else {
        lemma_difference_is(rows, k, PeriodType::Annual, PeriodType::Q3, PeriodType::Q4, x)
    }
}

/// Quarters come by company code, then item, then year, then quarter, so that no
/// quarter of a company, item and year is given twice.
pub proof fn law_no_quarter_is_given_twice(
    rows: Seq<RowView>,
    out: Seq<SingleView>,
    missing: Seq<MissingView>,
    i: int,
    j: int,
)
    requires
        derived(rows, out, missing),
        0 <= i < j < out.len(),
    ensures
        ({
            let a = out[i].row;
            let b = out[j].row;
            ||| text_less(a.symbol.code, b.symbol.code)
            ||| a.symbol.code == b.symbol.code && text_less(a.item, b.item)
            ||| a.symbol.code == b.symbol.code && a.item == b.item && a.period.year < b.period.year
            ||| a.symbol.code == b.symbol.code && a.item == b.item && a.period.year == b.period.year
                && a.period.month < b.period.month
        }),
{
    law_quarters_ascend(rows, out, missing, i, j);
    let _ = law_a_quarter_is_made_of_its_own_reports(rows, out, missing, i);
    let _ = law_a_quarter_is_made_of_its_own_reports(rows, out, missing, j);
}

/// A report without the one before it is told as a gap: where a company has the
/// report of the half year, of three quarters or of the year for an item and
/// year, and no report of the quarter before, the second, third or fourth quarter
/// of that item and year is among the gaps.
pub proof fn law_every_gap_is_told(
    rows: Seq<RowView>,
    out: Seq<SingleView>,
    missing: Seq<MissingView>,
    i: int,
    before: PeriodType,
    quarter: u8,
)
    requires
        derived(rows, out, missing),
        0 <= i < rows.len(),
        ({
            let end = rows[i].period_type;
            ||| quarter == 2 && end == PeriodType::H1 && before == PeriodType::Q1
            ||| quarter == 3 && end == PeriodType::Q3 && before == PeriodType::H1
            ||| quarter == 4 && end == PeriodType::Annual && before == PeriodType::Q3
        }),
        forall|m: int|
            0 <= m < rows.len() ==> !((#[trigger] rows[m]).symbol.code == rows[i].symbol.code
                && rows[m].item == rows[i].item && rows[m].period.year == rows[i].period.year
                && rows[m].period_type == before),
    ensures
        exists|j: int|
            0 <= j < missing.len() && (#[trigger] missing[j]).item == rows[i].item
                && missing[j].year == rows[i].period.year && missing[j].quarter == quarter,
{
    let ks = choose|ks: Seq<KeyView>|
        #![trigger is_key_list(rows, ks)]
        is_key_list(rows, ks) && out == all_singles(rows, ks) && missing == all_gaps(rows, ks);
    let k = key_of(rows[i]);
    let end = rows[i].period_type;
    lemma_group_is_there(rows, ks, i);
    lemma_group_is_given(rows, ks, k);
    if latest(rows, k, before) is Some {
        let at = lemma_latest_at(rows, k, before);
        assert(rows[at].symbol.code == rows[i].symbol.code);
    }
    let second = gap(rows, k, PeriodType::H1, PeriodType::Q1, 2);
    let third = gap(rows, k, PeriodType::Q3, PeriodType::H1, 3);
    let x = gap(rows, k, end, before, quarter)[0];
    let place: int = if quarter == 2 {
        0
    } else if quarter == 3 {
        second.len() as int
    } else {
        (second.len() + third.len()) as int
    };
    assert(gaps(rows, k)[place] == x);
    assert(gaps(rows, k).contains(x));
    assert(missing.contains(x));
    let j = choose|j: int| 0 <= j < missing.len() && missing[j] == x;
    assert(missing[j].item == rows[i].item);
}

/// Every gap is one: some company has the report at the end of that quarter for
/// that item and year, and no report of the quarter before.
pub proof fn law_every_told_gap_is_one(
    rows: Seq<RowView>,
    out: Seq<SingleView>,
    missing: Seq<MissingView>,
    j: int,
)
    requires
        derived(rows, out, missing),
        0 <= j < missing.len(),
    ensures
        ({
            let g = missing[j];
            let lacks = |at: int, end: PeriodType, before: PeriodType|
                0 <= at < rows.len() && rows[at].item == g.item && rows[at].period.year == g.year
                    && rows[at].period_type == end && forall|m: int|
                    0 <= m < rows.len() ==> !((#[trigger] rows[m]).symbol.code
                        == rows[at].symbol.code && rows[m].item == g.item && rows[m].period.year
                        == g.year && rows[m].period_type == before);
            ||| g.quarter == 2 && exists|at: int| #[trigger]
                lacks(at, PeriodType::H1, PeriodType::Q1)
            ||| g.quarter == 3 && exists|at: int| #[trigger]
                lacks(at, PeriodType::Q3, PeriodType::H1)
            ||| g.quarter == 4 && exists|at: int| #[trigger]
                lacks(at, PeriodType::Annual, PeriodType::Q3)
        }),
{
    let ks = choose|ks: Seq<KeyView>|
        #![trigger is_key_list(rows, ks)]
        is_key_list(rows, ks) && out == all_singles(rows, ks) && missing == all_gaps(rows, ks);
    let k = lemma_gap_of_group(rows, ks, j);
    let g = missing[j];
    let own = gaps(rows, k);
    let i = choose|i: int| 0 <= i < own.len() && own[i] == g;
    let second = gap(rows, k, PeriodType::H1, PeriodType::Q1, 2);
    let third = gap(rows, k, PeriodType::Q3, PeriodType::H1, 3);
    let fourth = gap(rows, k, PeriodType::Annual, PeriodType::Q3, 4);
    let lacks = |at: int, end: PeriodType, before: PeriodType|
        0 <= at < rows.len() && rows[at].item == g.item && rows[at].period.year == g.year
            && rows[at].period_type == end && forall|m: int|
            0 <= m < rows.len() ==> !((#[trigger] rows[m]).symbol.code == rows[at].symbol.code
                && rows[m].item == g.item && rows[m].period.year == g.year && rows[m].period_type
                == before);
    let (end, before) = if i < second.len() {
        assert(g == second[0]);
        (PeriodType::H1, PeriodType::Q1)
    } else if i < second.len() + third.len() {
        assert(g == third[0]);
        (PeriodType::Q3, PeriodType::H1)
    } else {
        assert(g == fourth[0]);
        (PeriodType::Annual, PeriodType::Q3)
    };
    let at = lemma_latest_at(rows, k, end);
    lemma_latest(rows, k, before);
    assert forall|m: int| 0 <= m < rows.len() implies !((#[trigger] rows[m]).symbol.code
        == rows[at].symbol.code && rows[m].item == g.item && rows[m].period.year == g.year
        && rows[m].period_type == before) by {
        assert(rows.contains(rows[m]));
        assert(!(key_of(rows[m]) == k && rows[m].period_type == before));
    }
    assert(lacks(at, end, before));
}

} // verus!
