//! Announcements: lists put together from several queries, and ids resolved
//! from the record cache, the pipe or a walk over the whole market.

use vstd::prelude::*;
use vstd::string::*;

use crate::cache::file::FileCache;
use crate::cache::joined;
use crate::domain::announcement::{
    AnnouncementRow, AnnouncementView, announcement_views, lemma_newer_asymmetric,
    lemma_newer_between, lemma_newer_total, newer,
};
use crate::error::{ErrorView, SiftError, concat3, concat5, outcome};
use crate::order::{lemma_sorted_by, lemma_sorted_by_order, sorted_by, stable_sort, weak_order};
use crate::text::{
    contains_text, decimal, decimal_string, distinct, push_distinct, same, text_less, views,
};
use crate::text_map::{TextMap, TextSet, text_values, without_empty};

verus! {

// ---------------------------------------------------------------------------
// Lists
// ---------------------------------------------------------------------------

/// The announcements of several queries, one query after the other.
pub open spec fn flat(batches: Seq<Vec<AnnouncementRow>>) -> Seq<AnnouncementView>
    decreases batches.len(),
{
    if batches.len() == 0 {
        Seq::empty()
    } else {
        flat(batches.drop_last()) + announcement_views(batches.last()@)
    }
}

/// Some announcement has the given id.
pub open spec fn has_id(rows: Seq<AnnouncementView>, id: Seq<char>) -> bool {
    exists|i: int| 0 <= i < rows.len() && (#[trigger] rows[i]).id == id
}

/// The announcements without those whose id came earlier.
pub open spec fn first_by_id(rows: Seq<AnnouncementView>) -> Seq<AnnouncementView>
    decreases rows.len(),
{
    if rows.len() == 0 {
        rows
    } else {
        let d = first_by_id(rows.drop_last());
        if has_id(d, rows.last().id) {
            d
        } else {
            d.push(rows.last())
        }
    }
}

/// The order of lists, as a function.
pub open spec fn newer_fn() -> spec_fn(AnnouncementView, AnnouncementView) -> bool {
    |a: AnnouncementView, b: AnnouncementView| newer(a, b)
}

/// What a list shows: each announcement once, the newest first, no more than
/// `limit`.
pub open spec fn listed(rows: Seq<AnnouncementView>, limit: nat) -> Seq<AnnouncementView> {
    let s = sorted_by(first_by_id(rows), newer_fn());
    if s.len() > limit {
        s.take(limit as int)
    } else {
        s
    }
}

/// The category to ask for; the empty text stands for no category.
pub fn category_filter(cat: &str) -> (r: Option<String>)
    ensures
        match r {
            Some(c) => cat@.len() > 0 && c@ == cat@,
            None => cat@.len() == 0,
        },
{
    if cat.is_empty() {
        None
    } else {
        Some(cat.to_owned())
    }
}

/// Adds the announcements of one query to those there are, unless their id is
/// there already.
fn add_new(all: Vec<AnnouncementRow>, seen: &mut TextSet, batch: Vec<AnnouncementRow>, Ghost(
    before,
): Ghost<Seq<AnnouncementView>>) -> (out: Vec<AnnouncementRow>)
    requires
        old(seen).wf(),
        announcement_views(all@) == first_by_id(before),
        forall|x: Seq<char>| #[trigger]
            old(seen)@.contains(x) <==> has_id(first_by_id(before), x),
    ensures
        final(seen).wf(),
        announcement_views(out@) == first_by_id(before + announcement_views(batch@)),
        forall|x: Seq<char>| #[trigger]
            final(seen)@.contains(x) <==> has_id(
                first_by_id(before + announcement_views(batch@)),
                x,
            ),
{
    let mut out = all;
    let ghost b = announcement_views(batch@);
    proof {
        assert(before + b.take(0) =~= before);
    }
    for row in it: batch
        invariant
            it.seq() == batch@,
            b == announcement_views(batch@),
            seen.wf(),
            announcement_views(out@) == first_by_id(before + b.take(it.index() as int)),
            forall|x: Seq<char>| #[trigger]
                seen@.contains(x) <==> has_id(
                    first_by_id(before + b.take(it.index() as int)),
                    x,
                ),
    {
        let ghost n = it.index() as int;
        let ghost d = first_by_id(before + b.take(n));
        proof {
            let next = before + b.take(n + 1);
            assert(next.drop_last() =~= before + b.take(n));
            assert(next.last() == row@);
        }
        if !seen.contains(row.id.as_str()) {
            seen.insert(row.id.clone());
            let ghost prior = announcement_views(out@);
            let ghost v = row@;
            out.push(row);
            proof {
                assert(announcement_views(out@) =~= prior.push(v));
                let e = d.push(v);
                assert forall|x: Seq<char>| #[trigger] seen@.contains(x) <==> has_id(e, x) by {
                    if has_id(e, x) {
                        let i = choose|i: int| 0 <= i < e.len() && (#[trigger] e[i]).id == x;
                        if i < d.len() {
                            assert(d[i].id == x);
                        }
                    }
                    if has_id(d, x) {
                        let i = choose|i: int| 0 <= i < d.len() && (#[trigger] d[i]).id == x;
                        assert(e[i].id == x);
                    }
                    assert(e[d.len() as int].id == v.id);
                }
            }
        }
    }
    proof {
        assert(b.take(b.len() as int) =~= b);
    }
    out
}

/// The list that the answers to several queries make.
pub fn list(batches: Vec<Vec<AnnouncementRow>>, limit: u32) -> (out: Vec<AnnouncementRow>)
    ensures
        announcement_views(out@) == listed(flat(batches@), limit as nat),
{
    let mut all: Vec<AnnouncementRow> = Vec::new();
    let mut seen = TextSet::new();
    proof {
        assert(announcement_views(all@) =~= Seq::empty());
        assert(batches@.take(0) =~= Seq::empty());
    }
    for batch in it: batches
        invariant
            it.seq() == batches@,
            seen.wf(),
            announcement_views(all@) == first_by_id(flat(batches@.take(it.index() as int))),
            forall|x: Seq<char>| #[trigger]
                seen@.contains(x) <==> has_id(
                    first_by_id(flat(batches@.take(it.index() as int))),
                    x,
                ),
    {
        let ghost done = batches@.take(it.index() as int);
        proof {
            let next = batches@.take(it.index() as int + 1);
            assert(next.drop_last() =~= done);
            assert(next.last() == batch);
        }
        all = add_new(all, &mut seen, batch, Ghost(flat(done)));
    }
    proof {
        assert(batches@.take(batches@.len() as int) =~= batches@);
        lemma_sorted_by(all@, |r: AnnouncementRow| r@, newer_fn());
        crate::order::lemma_stable_sorted(all@);
    }
    let mut out = stable_sort(all);
    if out.len() > limit as usize {
        out.truncate(limit as usize);
        proof {
            let s = sorted_by(first_by_id(flat(batches@)), newer_fn());
            assert(announcement_views(out@) =~= s.take(limit as int));
        }
    }
    out
}

proof fn lemma_first_by_id(rows: Seq<AnnouncementView>)
    ensures
        forall|i: int, j: int|
            0 <= i < j < first_by_id(rows).len() ==> (#[trigger] first_by_id(rows)[i]).id != (
            #[trigger] first_by_id(rows)[j]).id,
        forall|id: Seq<char>| #[trigger] has_id(first_by_id(rows), id) <==> has_id(rows, id),
    decreases rows.len(),
{
    if rows.len() > 0 {
        let t = rows.drop_last();
        lemma_first_by_id(t);
        let d = first_by_id(t);
        let e = first_by_id(rows);
        assert forall|id: Seq<char>| #[trigger] has_id(e, id) <==> has_id(rows, id) by {
            if has_id(e, id) {
                let i = choose|i: int| 0 <= i < e.len() && (#[trigger] e[i]).id == id;
                if i < d.len() {
                    assert(d[i].id == id);
                    assert(has_id(d, id));
                    let k = choose|k: int| 0 <= k < t.len() && (#[trigger] t[k]).id == id;
                    assert(rows[k].id == id);
                } else {
                    assert(rows[rows.len() - 1].id == id);
                }
            }
            if has_id(rows, id) {
                let k = choose|k: int| 0 <= k < rows.len() && (#[trigger] rows[k]).id == id;
                if k < t.len() {
                    assert(t[k].id == id);
                    assert(has_id(d, id));
                    let i = choose|i: int| 0 <= i < d.len() && (#[trigger] d[i]).id == id;
                    assert(e[i].id == id);
                } else if has_id(d, id) {
                    let i = choose|i: int| 0 <= i < d.len() && (#[trigger] d[i]).id == id;
                    assert(e[i].id == id);
                } else {
                    assert(e[d.len() as int].id == id);
                }
            }
        }
        assert forall|i: int, j: int| 0 <= i < j < e.len() implies (#[trigger] e[i]).id != (
        #[trigger] e[j]).id by {
            assert(e[i] == d[i]);
            if j == d.len() {
                if d[i].id == rows.last().id {
                    assert(has_id(d, rows.last().id));
                }
            } else {
                assert(d[i].id != d[j].id);
            }
        }
    }
}

/// Leaving out repetitions leaves no id twice and loses none.
pub proof fn law_each_id_is_listed_once(rows: Seq<AnnouncementView>, i: int, j: int, id: Seq<char>)
    requires
        0 <= i < j < first_by_id(rows).len(),
    ensures
        first_by_id(rows)[i].id != first_by_id(rows)[j].id,
        has_id(first_by_id(rows), id) <==> has_id(rows, id),
{
    lemma_first_by_id(rows);
}

/// The order of lists is a weak order.
proof fn lemma_newer_order()
    ensures
        weak_order(newer_fn()),
{
    assert forall|a: AnnouncementView, b: AnnouncementView| #[trigger]
        newer_fn()(a, b) implies !newer_fn()(b, a) by {
        lemma_newer_asymmetric(a, b);
    }
    assert forall|a: AnnouncementView, b: AnnouncementView, c: AnnouncementView|
        #![trigger newer_fn()(a, b), newer_fn()(b, c)]
        newer_fn()(a, c) implies newer_fn()(a, b) || newer_fn()(b, c) by {
        lemma_newer_between(a, b, c);
    }
}

/// A list runs from new to old, and no id is in it twice.
pub proof fn law_lists_run_from_new_to_old(
    rows: Seq<AnnouncementView>,
    limit: nat,
    i: int,
    j: int,
)
    requires
        0 <= i < j < listed(rows, limit).len(),
    ensures
        listed(rows, limit)[i].id != listed(rows, limit)[j].id,
        newer(listed(rows, limit)[i], listed(rows, limit)[j]),
{
    let d = first_by_id(rows);
    let s = sorted_by(d, newer_fn());
    lemma_newer_order();
    lemma_sorted_by_order(d, newer_fn());
    lemma_first_by_id(rows);
    lemma_sorted_ids_differ(d, s, i, j);
    lemma_newer_total(s[i], s[j]);
    assert(!newer_fn()(s[j], s[i]));
}

/// What a limit leaves out is older than all that a list shows, and a list
/// shows as much as the limit lets it.
pub proof fn law_a_limit_leaves_out_the_oldest(
    rows: Seq<AnnouncementView>,
    limit: nat,
    row: AnnouncementView,
    k: int,
)
    requires
        first_by_id(rows).contains(row),
        !listed(rows, limit).contains(row),
        0 <= k < limit,
    ensures
        listed(rows, limit).len() == limit,
        newer(listed(rows, limit)[k], row),
{
    let d = first_by_id(rows);
    let s = sorted_by(d, newer_fn());
    lemma_newer_order();
    lemma_sorted_by_order(d, newer_fn());
    lemma_first_by_id(rows);
    vstd::seq_lib::to_multiset_contains(d, row);
    vstd::seq_lib::to_multiset_contains(s, row);
    let at = choose|at: int| 0 <= at < s.len() && s[at] == row;
    if at < listed(rows, limit).len() {
        assert(listed(rows, limit)[at] == row);
    }
    lemma_sorted_ids_differ(d, s, k, at);
    lemma_newer_total(s[k], s[at]);
    assert(!newer_fn()(s[at], s[k]));
}

/// The answers to several queries are taken query by query and row by row.
pub proof fn law_answers_are_taken_in_turn(
    a: Seq<Vec<AnnouncementRow>>,
    batch: Vec<AnnouncementRow>,
    b: Seq<Vec<AnnouncementRow>>,
)
    ensures
        flat(a + seq![batch] + b) == flat(a) + batch@.map_values(|r: AnnouncementRow| r@) + flat(b),
    decreases b.len(),
{
    let s = a + seq![batch] + b;
    if b.len() == 0 {
        assert(s.drop_last() =~= a);
        assert(s.last() == batch);
    } else {
        law_answers_are_taken_in_turn(a, batch, b.drop_last());
        assert(s.drop_last() =~= a + seq![batch] + b.drop_last());
        assert(s.last() == b.last());
    }
    assert(flat(s) =~= flat(a) + batch@.map_values(|r: AnnouncementRow| r@) + flat(b));
}

/// What is kept of a list are the first announcements of each id.
proof fn lemma_first_of_id(rows: Seq<AnnouncementView>, n: int)
    requires
        0 <= n < rows.len(),
        forall|i: int| 0 <= i < n ==> (#[trigger] rows[i]).id != rows[n].id,
    ensures
        first_by_id(rows).contains(rows[n]),
    decreases rows.len(),
{
    let d = rows.drop_last();
    let kept = first_by_id(d);
    if n < d.len() {
        lemma_first_of_id(d, n);
        let k = choose|k: int| 0 <= k < kept.len() && kept[k] == rows[n];
        assert(first_by_id(rows)[k] == rows[n]);
    } else {
        lemma_first_by_id(d);
        if has_id(d, rows[n].id) {
            let i = choose|i: int| 0 <= i < d.len() && (#[trigger] d[i]).id == rows[n].id;
            assert(rows[i].id == rows[n].id);
        }
        assert(first_by_id(rows)[kept.len() as int] == rows[n]);
    }
}

proof fn lemma_kept_was_given(rows: Seq<AnnouncementView>, row: AnnouncementView)
    requires
        first_by_id(rows).contains(row),
    ensures
        rows.contains(row),
    decreases rows.len(),
{
    let d = rows.drop_last();
    let kept = first_by_id(d);
    let all = first_by_id(rows);
    let k = choose|k: int| 0 <= k < all.len() && all[k] == row;
    if k < kept.len() {
        assert(kept[k] == row);
        lemma_kept_was_given(d, row);
        let i = choose|i: int| 0 <= i < d.len() && d[i] == row;
        assert(rows[i] == row);
    } else {
        assert(rows[rows.len() - 1] == row);
    }
}

/// A list shows announcements that were given, and no more than the limit; where
/// the limit is not reached it shows, of every id that was given, the first
/// announcement.
pub proof fn law_the_first_of_every_id_is_listed(rows: Seq<AnnouncementView>, limit: nat, n: int, i: int)
    requires
        0 <= n < rows.len(),
        forall|k: int| 0 <= k < n ==> (#[trigger] rows[k]).id != rows[n].id,
    ensures
        listed(rows, limit).len() <= limit,
        listed(rows, limit).len() < limit ==> listed(rows, limit).contains(rows[n]),
        0 <= i < listed(rows, limit).len() ==> rows.contains(listed(rows, limit)[i]),
{
    let d = first_by_id(rows);
    let s = sorted_by(d, newer_fn());
    let out = listed(rows, limit);
    lemma_newer_order();
    lemma_sorted_by_order(d, newer_fn());
    lemma_first_of_id(rows, n);
    vstd::seq_lib::to_multiset_contains(s, rows[n]);
    vstd::seq_lib::to_multiset_contains(d, rows[n]);
    assert(s.contains(rows[n]));
    if 0 <= i < out.len() {
        assert(out[i] == s[i]);
        assert(s.contains(s[i]));
        vstd::seq_lib::to_multiset_contains(s, s[i]);
        vstd::seq_lib::to_multiset_contains(d, s[i]);
        lemma_kept_was_given(rows, s[i]);
    }
}

/// Of two announcements in a list the first is of a later day, or of the same day
/// and has the greater id.
pub proof fn law_later_days_are_listed_first(
    rows: Seq<AnnouncementView>,
    limit: nat,
    i: int,
    j: int,
)
    requires
        0 <= i < j < listed(rows, limit).len(),
    ensures
        ({
            let a = listed(rows, limit)[i];
            let b = listed(rows, limit)[j];
            ||| a.date.year > b.date.year
            ||| a.date.year == b.date.year && a.date.month > b.date.month
            ||| a.date.year == b.date.year && a.date.month == b.date.month && a.date.day
                > b.date.day
            ||| a.date == b.date && text_less(b.id, a.id)
        }),
{
    law_lists_run_from_new_to_old(rows, limit, i, j);
}

/// Where ids differ, they differ in any order.
proof fn lemma_sorted_ids_differ(
    d: Seq<AnnouncementView>,
    s: Seq<AnnouncementView>,
    i: int,
    j: int,
)
    requires
        s.to_multiset() == d.to_multiset(),
        forall|a: int, b: int|
            0 <= a < b < d.len() ==> (#[trigger] d[a]).id != (#[trigger] d[b]).id,
        0 <= i < j < s.len(),
    ensures
        s[i].id != s[j].id,
{
    d.to_multiset_ensures();
    s.to_multiset_ensures();
    let x = s[i];
    let y = s[j];
    assert(s.contains(x) && s.contains(y));
    vstd::seq_lib::to_multiset_contains(s, x);
    vstd::seq_lib::to_multiset_contains(d, x);
    vstd::seq_lib::to_multiset_contains(s, y);
    vstd::seq_lib::to_multiset_contains(d, y);
    assert forall|a: int, b: int| 0 <= a < b < d.len() implies d[a] != d[b] by {
        assert(d[a].id != d[b].id);
    }
    assert(d.no_duplicates());
    d.lemma_multiset_has_no_duplicates();
    s.lemma_multiset_has_no_duplicates_conv();
    let a = choose|a: int| 0 <= a < d.len() && d[a] == x;
    let b = choose|b: int| 0 <= b < d.len() && d[b] == y;
    assert(s[i] != s[j]);
    if a < b {
        assert(d[a].id != d[b].id);
    } else {
        assert(d[b].id != d[a].id);
    }
}

// ---------------------------------------------------------------------------
// One id
// ---------------------------------------------------------------------------

/// What the pipe brought: announcements, and the URLs of ids.
#[derive(Debug)]
pub struct StdinContext {
    pub rows: Vec<AnnouncementRow>,
    pub url_map: TextMap<String>,
}

impl StdinContext {
    pub open spec fn wf(self) -> bool {
        self.url_map.wf()
    }

    /// Nothing was piped.
    pub fn empty() -> (c: StdinContext)
        ensures
            c.wf(),
            c.rows@.len() == 0,
            c.url_map@ == Map::<Seq<char>, String>::empty(),
    {
        StdinContext { rows: Vec::new(), url_map: TextMap::new() }
    }
}

/// The first announcement with the given id.
pub open spec fn row_with_id(rows: Seq<AnnouncementView>, id: Seq<char>) -> Option<
    AnnouncementView,
>
    decreases rows.len(),
{
    if rows.len() == 0 {
        None
    } else {
        match row_with_id(rows.drop_last(), id) {
            Some(r) => Some(r),
            None => if rows.last().id == id {
                Some(rows.last())
            } else {
                None
            },
        }
    }
}

pub open spec fn opt_row(r: Option<AnnouncementRow>) -> Option<AnnouncementView> {
    match r {
        Some(r) => Some(r@),
        None => None,
    }
}

/// The announcement of an id is the first with that id; there is none only where
/// no announcement has it.
pub proof fn law_the_first_with_an_id_is_found(rows: Seq<AnnouncementView>, id: Seq<char>, n: int)
    requires
        0 <= n <= rows.len(),
        n < rows.len() ==> rows[n].id == id,
        forall|i: int| 0 <= i < n ==> (#[trigger] rows[i]).id != id,
    ensures
        row_with_id(rows, id) == (if n < rows.len() {
            Some(rows[n])
        } else {
            None
        }),
    decreases rows.len(),
{
    if rows.len() > 0 {
        let d = rows.drop_last();
        if n < d.len() {
            law_the_first_with_an_id_is_found(d, id, n);
        } else {
            law_the_first_with_an_id_is_found(d, id, d.len() as int);
            if n == rows.len() {
                assert(rows[n - 1].id != id);
            }
        }
    }
}

fn find_row(rows: &Vec<AnnouncementRow>, id: &str) -> (r: Option<AnnouncementRow>)
    ensures
        opt_row(r) == row_with_id(announcement_views(rows@), id@),
{
    let ghost v = announcement_views(rows@);
    let mut found: Option<AnnouncementRow> = None;
    let mut i: usize = 0;
    while i < rows.len()
        invariant
            i <= rows@.len(),
            v == announcement_views(rows@),
            opt_row(found) == row_with_id(v.take(i as int), id@),
        decreases rows@.len() - i,
    {
        proof {
            let t = v.take(i as int + 1);
            assert(t.drop_last() =~= v.take(i as int));
            assert(t.last() == rows@[i as int]@);
        }
        if found.is_none() && same(rows[i].id.as_str(), id) {
            found = Some(rows[i].clone());
        }
        i = i + 1;
    }
    proof {
        assert(v.take(v.len() as int) =~= v);
    }
    found
}

/// What the record cache says of an id.
#[derive(Debug)]
pub enum CachedRow {
    /// Nothing, or there is no cache.
    Missing,
    /// Something that is no announcement.
    Garbled,
    Row(AnnouncementRow),
}

/// Where an id is resolved.
#[derive(Debug)]
pub enum RowPlan {
    /// In the record cache.
    Cached(AnnouncementRow),
    /// In the pipe; the announcement goes into the record cache.
    Piped(AnnouncementRow),
    /// In the pipe, and it is not there.
    Absent(SiftError),
    /// By a walk over the market, announced by the text.
    Walk(String),
}

pub enum RowPlanView {
    Cached(AnnouncementView),
    Piped(AnnouncementView),
    Absent(ErrorView),
    Walk(Seq<char>),
}

impl View for RowPlan {
    type V = RowPlanView;

    open spec fn view(&self) -> RowPlanView {
        match self {
            RowPlan::Cached(r) => RowPlanView::Cached(r@),
            RowPlan::Piped(r) => RowPlanView::Piped(r@),
            RowPlan::Absent(e) => RowPlanView::Absent(e@),
            RowPlan::Walk(t) => RowPlanView::Walk(t@),
        }
    }
}

/// Where an id is resolved: in the record cache if it is there; else, if
/// something was piped, in the pipe and nowhere else; else by a walk.
pub open spec fn row_plan(
    id: Seq<char>,
    cached: CachedRow,
    piped: Seq<AnnouncementView>,
    stdin_is_tty: bool,
) -> RowPlanView {
    match cached {
        CachedRow::Row(r) => RowPlanView::Cached(r@),
        _ => if stdin_is_tty {
            RowPlanView::Walk(
                "[info] announcement "@ + id
                    + " not in cache; scanning cninfo (this may take a while; ctrl-c to abort)..."@,
            )
        } else {
            match row_with_id(piped, id) {
                Some(r) => RowPlanView::Piped(r),
                None => RowPlanView::Absent(ErrorView::NotFound(id)),
            }
        },
    }
}

/// The record cache has the first word: what it has is used, whatever was piped.
/// Where it has nothing, nobody walks the market for an id while something was
/// piped, and the pipe is not looked at while nothing was.
pub proof fn law_where_an_id_is_looked_for(
    id: Seq<char>,
    cached: CachedRow,
    piped: Seq<AnnouncementView>,
    other: Seq<AnnouncementView>,
    stdin_is_tty: bool,
    n: int,
)
    ensures
        cached matches CachedRow::Row(r) ==> row_plan(id, cached, piped, stdin_is_tty)
            == RowPlanView::Cached(r@),
        !(cached is Row) ==> (row_plan(id, cached, piped, stdin_is_tty) is Walk <==> stdin_is_tty),
        stdin_is_tty ==> row_plan(id, cached, piped, true) == row_plan(id, cached, other, true),
        !(cached is Row) && !stdin_is_tty && 0 <= n < piped.len() && piped[n].id == id && (forall|
            i: int,
        |
            0 <= i < n ==> (#[trigger] piped[i]).id != id) ==> row_plan(id, cached, piped, false)
            == RowPlanView::Piped(piped[n]),
        !(cached is Row) && !stdin_is_tty && (forall|i: int|
            0 <= i < piped.len() ==> (#[trigger] piped[i]).id != id) ==> row_plan(
            id,
            cached,
            piped,
            false,
        ) == RowPlanView::Absent(ErrorView::NotFound(id)),
{
    if 0 <= n < piped.len() && piped[n].id == id && (forall|i: int|
        0 <= i < n ==> (#[trigger] piped[i]).id != id) {
        law_the_first_with_an_id_is_found(piped, id, n);
    }
    if forall|i: int| 0 <= i < piped.len() ==> (#[trigger] piped[i]).id != id {
        law_the_first_with_an_id_is_found(piped, id, piped.len() as int);
    }
}

/// Where an id is resolved, and the warning that comes first, if any.
pub fn resolve_row(
    id: &str,
    cached: CachedRow,
    stdin: &StdinContext,
    stdin_is_tty: bool,
) -> (r: (Option<String>, RowPlan))
    ensures
        match r.0 {
            Some(w) => cached is Garbled && w@ == "[warn] cached row for "@ + id@
                + " did not decode; refetching"@,
            None => !(cached is Garbled),
        },
        r.1@ == row_plan(id@, cached, announcement_views(stdin.rows@), stdin_is_tty),
{
    let warning = match cached {
        CachedRow::Row(row) => return (None, RowPlan::Cached(row)),
        CachedRow::Garbled => Some(
            concat3("[warn] cached row for ", id, " did not decode; refetching"),
        ),
        CachedRow::Missing => None,
    };
    if !stdin_is_tty {
        return match find_row(&stdin.rows, id) {
            Some(row) => (warning, RowPlan::Piped(row)),
            None => (warning, RowPlan::Absent(SiftError::NotFound(id.to_owned()))),
        };
    }
    (
        warning,
        RowPlan::Walk(
            concat3(
                "[info] announcement ",
                id,
                " not in cache; scanning cninfo (this may take a while; ctrl-c to abort)...",
            ),
        ),
    )
}

/// What a walk does after a page.
#[derive(Debug)]
pub enum WalkStep {
    Stop,
    /// Goes on, after the notice if there is one.
    Go(Option<String>),
}

pub enum WalkView {
    Stop,
    Go(Option<Seq<char>>),
}

impl View for WalkStep {
    type V = WalkView;

    open spec fn view(&self) -> WalkView {
        match self {
            WalkStep::Stop => WalkView::Stop,
            WalkStep::Go(None) => WalkView::Go(None),
            WalkStep::Go(Some(t)) => WalkView::Go(Some(t@)),
        }
    }
}

/// A walk over the market for one announcement.
#[derive(Debug)]
pub struct RowWalk {
    id: String,
    pages: u64,
    found: Option<AnnouncementRow>,
}

impl RowWalk {
    /// The id that is looked for.
    pub closed spec fn target(self) -> Seq<char> {
        self.id@
    }

    /// How many pages were seen.
    pub closed spec fn seen(self) -> nat {
        self.pages as nat
    }

    /// The announcement, once it was found.
    pub closed spec fn hit(self) -> Option<AnnouncementView> {
        opt_row(self.found)
    }

    /// Before the first page.
    pub fn new(id: &str) -> (w: RowWalk)
        ensures
            w.target() == id@,
            w.seen() == 0,
            w.hit() is None,
    {
        RowWalk { id: id.to_owned(), pages: 0, found: None }
    }

    /// Takes a page: the walk stops at the announcement, and says every twenty
    /// pages that it goes on.
    pub fn on_page(&mut self, rows: &Vec<AnnouncementRow>) -> (step: WalkStep)
        requires
            old(self).seen() < u64::MAX,
        ensures
            final(self).target() == old(self).target(),
            final(self).seen() == old(self).seen() + 1,
            match row_with_id(announcement_views(rows@), old(self).target()) {
                Some(r) => final(self).hit() == Some(r) && step@ == WalkView::Stop,
                None => final(self).hit() == old(self).hit() && step@ == WalkView::Go(
                    if final(self).seen() % 20 == 0 {
                        Some(
                            "[info] scanned "@ + decimal(final(self).seen())
                                + " pages, still searching for "@ + old(self).target() + "…"@,
                        )
                    } else {
                        None
                    },
                ),
            },
    {
        self.pages = self.pages + 1;
        match find_row(rows, self.id.as_str()) {
            Some(row) => {
                self.found = Some(row);
                WalkStep::Stop
            },
            None => {
                if self.pages % 20 == 0 {
                    WalkStep::Go(
                        Some(
                            concat5(
                                "[info] scanned ",
                                decimal_string(self.pages).as_str(),
                                " pages, still searching for ",
                                self.id.as_str(),
                                "…",
                            ),
                        ),
                    )
                } else {
                    WalkStep::Go(None)
                }
            },
        }
    }

    /// What the walk comes to.
    pub fn finish(self) -> (r: Result<AnnouncementRow, SiftError>)
        ensures
            outcome(r) == (match self.hit() {
                Some(row) => Ok::<AnnouncementView, ErrorView>(row),
                None => Err(ErrorView::NotFound(self.target())),
            }),
    {
        match self.found {
            Some(row) => Ok(row),
            None => Err(SiftError::NotFound(self.id)),
        }
    }
}

// ---------------------------------------------------------------------------
// The URLs of several ids
// ---------------------------------------------------------------------------

/// The ids of a list that have no URL yet, in order.
pub open spec fn unresolved_of(ids: Seq<Seq<char>>, urls: Map<Seq<char>, Seq<char>>) -> Seq<
    Seq<char>,
> {
    ids.filter(|id: Seq<char>| !urls.contains_key(id))
}

/// The URLs that the pipe brought; an empty one is none.
pub fn piped_urls(stdin: &StdinContext) -> (urls: TextMap<String>)
    requires
        stdin.wf(),
    ensures
        urls.wf(),
        text_values(urls@) == without_empty(text_values(stdin.url_map@)),
{
    stdin.url_map.non_empty()
}

/// The ids of a list that have no URL yet, in order.
pub fn unresolved(ids: &Vec<String>, urls: &TextMap<String>) -> (out: Vec<String>)
    requires
        urls.wf(),
    ensures
        views(out@) == unresolved_of(views(ids@), text_values(urls@)),
{
    let ghost v = views(ids@);
    let ghost m = text_values(urls@);
    let ghost open = |id: Seq<char>| !m.contains_key(id);
    let mut out: Vec<String> = Vec::new();
    let mut i: usize = 0;
    proof {
        reveal(Seq::filter);
        assert(v.take(0) =~= Seq::empty());
        assert(views(out@) =~= v.take(0).filter(open));
    }
    while i < ids.len()
        invariant
            i <= ids@.len(),
            v == views(ids@),
            m == text_values(urls@),
            urls.wf(),
            open == (|id: Seq<char>| !m.contains_key(id)),
            views(out@) == v.take(i as int).filter(open),
        decreases ids@.len() - i,
    {
        let ghost done = v.take(i as int);
        let ghost before = views(out@);
        proof {
            assert(v.take(i as int + 1) =~= done.push(ids@[i as int]@));
            done.lemma_filter_push(ids@[i as int]@, open);
        }
        if !urls.contains_key(ids[i].as_str()) {
            out.push(ids[i].clone());
            proof {
                assert(views(out@) =~= before.push(ids@[i as int]@));
            }
        }
        i = i + 1;
    }
    proof {
        assert(v.take(v.len() as int) =~= v);
    }
    out
}

/// Notes the URL of an announcement that the record cache had for an id; an
/// empty one is none.
pub fn note_cached(urls: &mut TextMap<String>, id: &str, row: Option<AnnouncementRow>)
    requires
        old(urls).wf(),
    ensures
        final(urls).wf(),
        text_values(final(urls)@) == (match row {
            Some(r) if r.url@.len() > 0 => text_values(old(urls)@).insert(id@, r.url@),
            _ => text_values(old(urls)@),
        }),
{
    match row {
        Some(r) => {
            if !r.url.as_str().is_empty() {
                let ghost before = text_values(urls@);
                let ghost url = r.url@;
                urls.insert(id.to_owned(), r.url);
                proof {
                    assert(text_values(urls@) =~= before.insert(id@, url));
                }
            }
        },
        None => {},
    }
}

/// The URL that the record cache has for an id; an empty one is none.
pub open spec fn cached_url(row: Option<AnnouncementRow>) -> Option<Seq<char>> {
    match row {
        Some(r) if r.url@.len() > 0 => Some(r.url@),
        _ => None,
    }
}

/// `urls` with what the record cache has for the ids, which comes before what
/// there was.
pub open spec fn with_cached(
    urls: Map<Seq<char>, Seq<char>>,
    ids: Seq<Seq<char>>,
    rows: Seq<Option<AnnouncementRow>>,
) -> Map<Seq<char>, Seq<char>>
    decreases ids.len(),
{
    if ids.len() == 0 {
        urls
    } else {
        let m = with_cached(urls, ids.drop_last(), rows.drop_last());
        match cached_url(rows.last()) {
            Some(url) => m.insert(ids.last(), url),
            None => m,
        }
    }
}

/// The URLs that are had without a walk: from the record cache, which holds, id
/// for id, `cached`; where it has none, from the pipe.
pub fn known_urls(
    ids: &Vec<String>,
    cached: Vec<Option<AnnouncementRow>>,
    stdin: &StdinContext,
) -> (urls: TextMap<String>)
    requires
        cached@.len() == ids@.len(),
        stdin.wf(),
    ensures
        urls.wf(),
        text_values(urls@) == with_cached(
            without_empty(text_values(stdin.url_map@)),
            views(ids@),
            cached@,
        ),
{
    let ghost piped = without_empty(text_values(stdin.url_map@));
    let ghost v = views(ids@);
    let ghost all = cached@;
    let mut urls = piped_urls(stdin);
    let mut i: usize = 0;
    for row in it: cached
        invariant
            it.seq() == all,
            all.len() == ids@.len(),
            v == views(ids@),
            i == it.index(),
            urls.wf(),
            text_values(urls@) == with_cached(piped, v.take(i as int), all.take(i as int)),
    {
        proof {
            assert(v.take(i as int + 1).drop_last() =~= v.take(i as int));
            assert(all.take(i as int + 1).drop_last() =~= all.take(i as int));
            assert(v.take(i as int + 1).last() == ids@[i as int]@);
            assert(all.take(i as int + 1).last() == row);
        }
        note_cached(&mut urls, ids[i].as_str(), row);
        assert(i < ids.len());
        i = i + 1;
    }
    proof {
        assert(v.take(v.len() as int) =~= v);
        assert(all.take(all.len() as int) =~= all);
    }
    urls
}

/// Where the record cache has a URL for an id it is the one that counts; for
/// an id that is not asked for, the pipe's does.
pub proof fn law_the_record_cache_comes_first(
    piped: Map<Seq<char>, Seq<char>>,
    ids: Seq<Seq<char>>,
    rows: Seq<Option<AnnouncementRow>>,
    i: int,
    id: Seq<char>,
)
    requires
        rows.len() == ids.len(),
        forall|a: int, b: int|
            0 <= a < b < ids.len() ==> #[trigger] ids[a] != #[trigger] ids[b],
    ensures
        0 <= i < ids.len() ==> match cached_url(rows[i]) {
            Some(url) => with_cached(piped, ids, rows).contains_key(ids[i]) && with_cached(
                piped,
                ids,
                rows,
            )[ids[i]] == url,
            None => with_cached(piped, ids, rows).contains_key(ids[i]) == piped.contains_key(
                ids[i],
            ) && with_cached(piped, ids, rows)[ids[i]] == piped[ids[i]],
        },
        !ids.contains(id) ==> with_cached(piped, ids, rows).contains_key(id) == piped.contains_key(
            id,
        ) && with_cached(piped, ids, rows)[id] == piped[id],
    decreases ids.len(),
{
    if ids.len() > 0 {
        let d = ids.drop_last();
        let last = ids.len() - 1;
        assert(!d.contains(ids[last])) by {
            if d.contains(ids[last]) {
                let k = choose|k: int| 0 <= k < d.len() && d[k] == ids[last];
                assert(ids[k] != ids[last]);
            }
        }
        if !ids.contains(id) {
            assert(!d.contains(id)) by {
                if d.contains(id) {
                    let k = choose|k: int| 0 <= k < d.len() && d[k] == id;
                    assert(ids[k] == id);
                }
            }
            assert(ids[last] != id) by {
                assert(ids.contains(ids[last]));
            }
        }
        law_the_record_cache_comes_first(piped, d, rows.drop_last(), i, id);
        law_the_record_cache_comes_first(piped, d, rows.drop_last(), i, ids[last]);
        if 0 <= i < last {
            assert(d[i] == ids[i]);
            assert(ids[i] != ids[last]);
        }
    }
}

/// The URL of an announcement that the record cache has for an id counts, whatever
/// was piped, unless it is empty.
pub proof fn law_a_cached_url_counts(
    piped: Map<Seq<char>, Seq<char>>,
    ids: Seq<Seq<char>>,
    rows: Seq<Option<AnnouncementRow>>,
    i: int,
)
    requires
        rows.len() == ids.len(),
        forall|a: int, b: int|
            0 <= a < b < ids.len() ==> #[trigger] ids[a] != #[trigger] ids[b],
        0 <= i < ids.len(),
    ensures
        (rows[i] matches Some(r) && r.url@.len() > 0) ==> with_cached(piped, ids, rows).contains_key(
            ids[i],
        ) && with_cached(piped, ids, rows)[ids[i]] == rows[i]->0.url@,
        !(rows[i] matches Some(r) && r.url@.len() > 0) ==> with_cached(
            piped,
            ids,
            rows,
        ).contains_key(ids[i]) == piped.contains_key(ids[i]) && with_cached(
            piped,
            ids,
            rows,
        )[ids[i]] == piped[ids[i]],
{
    law_the_record_cache_comes_first(piped, ids, rows, i, Seq::empty());
}

/// What a page adds to the URLs: for each id that is looked for and has none,
/// the first that is not empty.
pub open spec fn with_page(
    urls: Map<Seq<char>, Seq<char>>,
    targets: Seq<Seq<char>>,
    rows: Seq<AnnouncementView>,
) -> Map<Seq<char>, Seq<char>>
    decreases rows.len(),
{
    if rows.len() == 0 {
        urls
    } else {
        let m = with_page(urls, targets, rows.drop_last());
        let r = rows.last();
        if targets.contains(r.id) && !m.contains_key(r.id) && r.url.len() > 0 {
            m.insert(r.id, r.url)
        } else {
            m
        }
    }
}

/// A walk over the market for the URLs of several ids at once.
#[derive(Debug)]
pub struct UrlWalk {
    ids: Vec<String>,
    pages: u64,
    found: TextMap<String>,
}

impl UrlWalk {
    pub closed spec fn wf(self) -> bool {
        self.found.wf()
    }

    /// The ids that are looked for, each once.
    pub closed spec fn targets(self) -> Seq<Seq<char>> {
        views(self.ids@)
    }

    /// How many pages were seen.
    pub closed spec fn seen(self) -> nat {
        self.pages as nat
    }

    /// The URLs that are known.
    pub closed spec fn urls(self) -> Map<Seq<char>, Seq<char>> {
        text_values(self.found@)
    }

    /// Before the first page, with the notice that announces the walk.
    pub fn new(missing: &Vec<String>, urls: TextMap<String>) -> (r: (UrlWalk, String))
        requires
            urls.wf(),
        ensures
            r.0.wf(),
            r.0.targets() == distinct(views(missing@)),
            r.0.seen() == 0,
            r.0.urls() == text_values(urls@),
            r.1@ == walk_notice(distinct(views(missing@)).len()),
    {
        let ghost v = views(missing@);
        let mut ids: Vec<String> = Vec::new();
        let mut i: usize = 0;
        proof {
            assert(v.take(0) =~= Seq::empty());
            assert(views(ids@) =~= Seq::empty());
        }
        while i < missing.len()
            invariant
                i <= missing@.len(),
                v == views(missing@),
                views(ids@) == distinct(v.take(i as int)),
            decreases missing@.len() - i,
        {
            proof {
                let t = v.take(i as int + 1);
                assert(t.drop_last() =~= v.take(i as int));
                assert(t.last() == missing@[i as int]@);
            }
            push_distinct(&mut ids, missing[i].as_str());
            i = i + 1;
        }
        proof {
            assert(v.take(v.len() as int) =~= v);
        }
        let notice = concat3(
            "[info] ",
            decimal_string(ids.len() as u64).as_str(),
            " id(s) not in cache; scanning cninfo for URL context (this may take a while; ctrl-c to abort)...",
        );
        (UrlWalk { ids, pages: 0, found: urls }, notice)
    }

    /// Takes a page: the walk stops once every id has its URL, and says every
    /// twenty pages that it goes on.
    pub fn on_page(&mut self, rows: &Vec<AnnouncementRow>) -> (step: WalkStep)
        requires
            old(self).wf(),
            old(self).seen() < u64::MAX,
        ensures
            final(self).wf(),
            final(self).targets() == old(self).targets(),
            final(self).seen() == old(self).seen() + 1,
            final(self).urls() == with_page(
                old(self).urls(),
                old(self).targets(),
                announcement_views(rows@),
            ),
            step@ == ({
                let open = unresolved_of(final(self).targets(), final(self).urls()).len();
                if open == 0 {
                    WalkView::Stop
                } else if final(self).seen() % 20 == 0 {
                    WalkView::Go(
                        Some(
                            "[info] scanned "@ + decimal(final(self).seen()) + " pages, "@
                                + decimal(open) + " id(s) still missing…"@,
                        ),
                    )
                } else {
                    WalkView::Go(None)
                }
            }),
    {
        let ghost v = announcement_views(rows@);
        let ghost before = self.urls();
        let ghost targets = self.targets();
        self.pages = self.pages + 1;
        let ghost pages = self.pages;
        let mut i: usize = 0;
        proof {
            assert(v.take(0) =~= Seq::empty());
        }
        while i < rows.len()
            invariant
                i <= rows@.len(),
                v == announcement_views(rows@),
                self.wf(),
                self.targets() == targets,
                self.pages == pages,
                self.urls() == with_page(before, targets, v.take(i as int)),
            decreases rows@.len() - i,
        {
            let ghost m = self.urls();
            proof {
                let t = v.take(i as int + 1);
                assert(t.drop_last() =~= v.take(i as int));
                assert(t.last() == rows@[i as int]@);
            }
            if contains_text(&self.ids, rows[i].id.as_str()) && !self.found.contains_key(
                rows[i].id.as_str(),
            ) && !rows[i].url.as_str().is_empty() {
                self.found.insert(rows[i].id.clone(), rows[i].url.clone());
                proof {
                    assert(self.urls() =~= m.insert(rows@[i as int].id@, rows@[i as int].url@));
                }
            }
            i = i + 1;
        }
        proof {
            assert(v.take(v.len() as int) =~= v);
        }
        let open: usize = unresolved(&self.ids, &self.found).len();
        if open == 0 {
            WalkStep::Stop
        } else if self.pages % 20 == 0 {
            WalkStep::Go(
                Some(
                    concat5(
                        "[info] scanned ",
                        decimal_string(self.pages).as_str(),
                        " pages, ",
                        decimal_string(open as u64).as_str(),
                        " id(s) still missing…",
                    ),
                ),
            )
        } else {
            WalkStep::Go(None)
        }
    }

    /// The URLs that are known now.
    pub fn finish(self) -> (urls: TextMap<String>)
        requires
            self.wf(),
        ensures
            urls.wf(),
            text_values(urls@) == self.urls(),
    {
        self.found
    }
}

/// The text that announces a walk for some ids.
pub open spec fn walk_notice(ids: nat) -> Seq<char> {
    "[info] "@ + decimal(ids)
        + " id(s) not in cache; scanning cninfo for URL context (this may take a while; ctrl-c to abort)..."@
}

/// How the URLs of several ids are had.
#[derive(Debug)]
pub enum UrlPlan {
    /// These are all that can be had.
    Known(TextMap<String>),
    /// By a walk over the market, announced by the text.
    Walk(UrlWalk, String),
}

/// How the URLs of several ids are had, given those that are known. What was
/// piped is all there is, so ids that are missing lead to a walk only where
/// nothing was piped.
pub fn resolve_urls(ids: &Vec<String>, urls: TextMap<String>, stdin_is_tty: bool) -> (r: UrlPlan)
    requires
        urls.wf(),
    ensures
        ({
            let open = unresolved_of(views(ids@), text_values(urls@));
            match r {
                UrlPlan::Known(m) => m.wf() && m@ == urls@ && (!stdin_is_tty || open.len() == 0),
                UrlPlan::Walk(w, notice) => {
                    &&& stdin_is_tty && open.len() > 0
                    &&& w.wf() && w.seen() == 0
                    &&& w.targets() == distinct(open)
                    &&& w.urls() == text_values(urls@)
                    &&& notice@ == walk_notice(distinct(open).len())
                },
            }
        }),
{
    if !stdin_is_tty {
        return UrlPlan::Known(urls);
    }
    let open = unresolved(ids, &urls);
    if open.len() == 0 {
        return UrlPlan::Known(urls);
    }
    let (walk, notice) = UrlWalk::new(&open, urls);
    UrlPlan::Walk(walk, notice)
}

proof fn lemma_with_page(
    urls: Map<Seq<char>, Seq<char>>,
    targets: Seq<Seq<char>>,
    rows: Seq<AnnouncementView>,
    id: Seq<char>,
)
    ensures
        urls.contains_key(id) ==> with_page(urls, targets, rows).contains_key(id) && with_page(
            urls,
            targets,
            rows,
        )[id] == urls[id],
        with_page(urls, targets, rows).contains_key(id) && !urls.contains_key(id)
            ==> targets.contains(id) && exists|k: int|
            0 <= k < rows.len() && (#[trigger] rows[k]).id == id && rows[k].url == with_page(
                urls,
                targets,
                rows,
            )[id] && rows[k].url.len() > 0,
    decreases rows.len(),
{
    if rows.len() > 0 {
        let t = rows.drop_last();
        lemma_with_page(urls, targets, t, id);
        let m = with_page(urls, targets, rows);
        if m.contains_key(id) && !urls.contains_key(id) {
            if with_page(urls, targets, t).contains_key(id) {
                let k = choose|k: int|
                    0 <= k < t.len() && (#[trigger] t[k]).id == id && t[k].url == with_page(
                        urls,
                        targets,
                        t,
                    )[id] && t[k].url.len() > 0;
                assert(rows[k].id == id);
            } else {
                assert(rows[rows.len() - 1].id == id);
            }
        }
    }
}

/// A page never changes a URL that is known, and adds only URLs of announcements
/// on it whose ids are looked for.
pub proof fn law_pages_only_add(
    urls: Map<Seq<char>, Seq<char>>,
    targets: Seq<Seq<char>>,
    rows: Seq<AnnouncementView>,
    id: Seq<char>,
)
    ensures
        urls.contains_key(id) ==> with_page(urls, targets, rows).contains_key(id) && with_page(
            urls,
            targets,
            rows,
        )[id] == urls[id],
        with_page(urls, targets, rows).contains_key(id) && !urls.contains_key(id)
            ==> targets.contains(id) && exists|k: int|
            0 <= k < rows.len() && (#[trigger] rows[k]).id == id && rows[k].url == with_page(
                urls,
                targets,
                rows,
            )[id] && rows[k].url.len() > 0,
{
    lemma_with_page(urls, targets, rows, id);
}

/// A page gives an id that is looked for, and has no URL yet, the first URL on it
/// that is of that id and not empty.
pub proof fn law_a_page_gives_its_first_url(
    urls: Map<Seq<char>, Seq<char>>,
    targets: Seq<Seq<char>>,
    rows: Seq<AnnouncementView>,
    n: int,
)
    requires
        0 <= n < rows.len(),
        !urls.contains_key(rows[n].id),
        targets.contains(rows[n].id),
        rows[n].url.len() > 0,
        forall|i: int|
            0 <= i < n ==> (#[trigger] rows[i]).id != rows[n].id || rows[i].url.len() == 0,
    ensures
        with_page(urls, targets, rows).contains_key(rows[n].id),
        with_page(urls, targets, rows)[rows[n].id] == rows[n].url,
    decreases rows.len(),
{
    let d = rows.drop_last();
    if n < d.len() {
        law_a_page_gives_its_first_url(urls, targets, d, n);
    } else {
        let id = rows[n].id;
        lemma_with_page(urls, targets, d, id);
        if with_page(urls, targets, d).contains_key(id) {
            let k = choose|k: int|
                0 <= k < d.len() && (#[trigger] d[k]).id == id && d[k].url == with_page(
                    urls,
                    targets,
                    d,
                )[id] && d[k].url.len() > 0;
            assert(rows[k].id == id && rows[k].url.len() > 0);
        }
    }
}

/// The ids that are still open are those of the list without a URL, as often and
/// in the order in which they were listed.
pub proof fn law_ids_without_a_url_stay_open(
    a: Seq<Seq<char>>,
    id: Seq<char>,
    b: Seq<Seq<char>>,
    urls: Map<Seq<char>, Seq<char>>,
)
    ensures
        unresolved_of(a + seq![id] + b, urls) == unresolved_of(a, urls) + (if urls.contains_key(
            id,
        ) {
            Seq::empty()
        } else {
            seq![id]
        }) + unresolved_of(b, urls),
{
    let open = |x: Seq<char>| !urls.contains_key(x);
    Seq::filter_distributes_over_add(a + seq![id], b, open);
    Seq::filter_distributes_over_add(a, seq![id], open);
    assert(seq![id].filter(open) =~= if open(id) {
        seq![id]
    } else {
        Seq::empty()
    }) by {
        reveal_with_fuel(Seq::filter, 2);
        assert(seq![id].drop_last() =~= Seq::empty());
        assert(seq![id].last() == id);
    }
}

// ---------------------------------------------------------------------------
// PDFs
// ---------------------------------------------------------------------------

/// The key of a PDF in the file cache.
pub fn pdf_key(id: &str) -> (out: String)
    ensures
        out@ == "announcements/"@ + id@ + ".pdf"@,
{
    concat3("announcements/", id, ".pdf")
}

/// Where a PDF is kept; `None` without a file cache.
pub fn pdf_path(files: Option<&FileCache>, id: &str) -> (r: Option<String>)
    ensures
        match (files, r) {
            (Some(f), Some(p)) => p@ == joined(
                f.root_text(),
                "announcements/"@ + id@ + ".pdf"@,
            ),
            (None, None) => true,
            _ => false,
        },
{
    match files {
        Some(f) => Some(f.path(pdf_key(id).as_str())),
        None => None,
    }
}

/// Whether a PDF is there, given the length of the file at its place; never
/// without a file cache.
pub fn is_pdf_cached(files: Option<&FileCache>, file_len: Option<u64>) -> (r: bool)
    ensures
        r == (files is Some && (file_len matches Some(n) && n > 0)),
{
    match files {
        Some(_) => crate::cache::is_present(file_len),
        None => false,
    }
}

/// Where a download goes.
pub fn download_place(files: Option<&FileCache>, id: &str) -> (r: Result<String, SiftError>)
    ensures
        outcome(r) == (match files {
            Some(f) => Ok::<Seq<char>, ErrorView>(
                joined(f.root_text(), "announcements/"@ + id@ + ".pdf"@),
            ),
            None => Err(ErrorView::Io("file cache unavailable; cannot download PDF"@)),
        }),
{
    match pdf_path(files, id) {
        Some(p) => Ok(p),
        None => Err(SiftError::Io("file cache unavailable; cannot download PDF".to_owned())),
    }
}

/// Where a PDF is copied from, and where to.
pub fn copy_places(files: Option<&FileCache>, id: &str, dst_dir: &str) -> (r: Result<
    (String, String),
    SiftError,
>)
    ensures
        match (files, r) {
            (Some(f), Ok(places)) => places.0@ == joined(
                f.root_text(),
                "announcements/"@ + id@ + ".pdf"@,
            ) && places.1@ == joined(dst_dir@, id@ + ".pdf"@),
            (None, Err(e)) => e@ == ErrorView::Io("file cache unavailable; cannot copy PDF"@),
            _ => false,
        },
{
    match pdf_path(files, id) {
        Some(p) => Ok((p, crate::cache::announcements::copy_to(id, dst_dir))),
        None => Err(SiftError::Io("file cache unavailable; cannot copy PDF".to_owned())),
    }
}

} // verus!
