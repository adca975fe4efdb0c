//! Securities by code, name or initials.

use vstd::prelude::*;
use vstd::string::*;

use crate::cli::SearchArgs;
use crate::domain::market::{Board, Market, board_of, infer_board};
use crate::error::{ErrorView, SiftError};
use crate::order::{
    Ranked, lemma_sorted_by, lemma_sorted_by_order, sorted_by, stable_sort, weak_order,
};
use crate::sources::cninfo::{CnInfoRow, CnInfoView, StockLists};
use crate::text::{
    chars_of, has_text, is_space, law_what_occurs_is_part_of_the_text,
    law_white_space_around_is_trimmed, lemma_text_less_asymmetric, lemma_text_less_total,
    lemma_text_less_transitive, less, lower_chars, occurs, starts_with, str_views, string_from,
    text_less, to_lower, trim, trim_chars, views,
};

verus! {

/// One security that was found.
#[derive(Debug, PartialEq, Eq)]
pub struct SearchHit {
    pub code: String,
    pub name: String,
    pub pinyin: String,
    pub category: String,
    pub org_id: String,
    pub market: Market,
    pub board: Option<Board>,
    pub source: &'static str,
}

/// One security that was found, with its texts taken as such.
pub struct HitView {
    pub code: Seq<char>,
    pub name: Seq<char>,
    pub pinyin: Seq<char>,
    pub category: Seq<char>,
    pub org_id: Seq<char>,
    pub market: Market,
    pub board: Option<Board>,
    pub source: Seq<char>,
}

impl View for SearchHit {
    type V = HitView;

    open spec fn view(&self) -> HitView {
        HitView {
            code: self.code@,
            name: self.name@,
            pinyin: self.pinyin@,
            category: self.category@,
            org_id: self.org_id@,
            market: self.market,
            board: self.board,
            source: self.source@,
        }
    }
}

pub open spec fn hit_views(hits: Seq<SearchHit>) -> Seq<HitView> {
    hits.map_values(|h: SearchHit| h@)
}

/// What stands for a board that is not known.
pub const BOARD_UNKNOWN: &'static str = "—";

/// The label of a board, or what stands for an unknown one.
pub open spec fn board_text(b: Option<Board>) -> Seq<char> {
    match b {
        Some(b) => b.label(),
        None => "—"@,
    }
}

/// The label of a board, or what stands for an unknown one.
pub fn board_label(b: Option<Board>) -> (out: &'static str)
    ensures
        out@ == board_text(b),
{
    match b {
        Some(b) => b.as_str(),
        None => "—",
    }
}

impl HitView {
    /// The cells of a row, in the order of the headers.
    pub open spec fn cell_texts(self) -> Seq<Seq<char>> {
        seq![
            self.code,
            self.name,
            self.market.upper_label(),
            board_text(self.board),
            self.category,
            self.org_id,
        ]
    }
}

impl SearchHit {
    /// The headers of the table.
    pub fn headers() -> (out: Vec<&'static str>)
        ensures
            str_views(out@) == seq![
                "code"@,
                "name"@,
                "market"@,
                "board"@,
                "category"@,
                "orgId"@,
            ],
    {
        let out = vec!["code", "name", "market", "board", "category", "orgId"];
        proof {
            assert(str_views(out@) =~= seq![
                "code"@,
                "name"@,
                "market"@,
                "board"@,
                "category"@,
                "orgId"@,
            ]);
        }
        out
    }

    /// The cells of the row, in the order of the headers.
    pub fn cells(&self) -> (out: Vec<String>)
        ensures
            views(out@) == self@.cell_texts(),
    {
        let mut out: Vec<String> = Vec::new();
        out.push(self.code.clone());
        out.push(self.name.clone());
        out.push(self.market.as_upper().to_owned());
        out.push(board_label(self.board).to_owned());
        out.push(self.category.clone());
        out.push(self.org_id.clone());
        proof {
            assert(views(out@) =~= self@.cell_texts());
        }
        out
    }
}

/// A security matches a query: the query stands in its code or in its name, or
/// its initials begin with the query.
pub open spec fn matches_query(q: Seq<char>, r: CnInfoView) -> bool {
    occurs(r.code, q) || occurs(r.zwjc, q) || q.is_prefix_of(r.pinyin)
}

fn matches_any(q: &str, r: &CnInfoRow) -> (b: bool)
    ensures
        b == matches_query(q@, r@),
{
    has_text(r.code.as_str(), q) || has_text(r.zwjc.as_str(), q) || starts_with(
        r.pinyin.as_str(),
        q,
    )
}

/// The securities of a market that match.
pub open spec fn matching(q: Seq<char>, rows: Seq<CnInfoRow>, market: Market) -> Seq<
    (Market, CnInfoView),
>
    decreases rows.len(),
{
    if rows.len() == 0 {
        Seq::empty()
    } else {
        let t = matching(q, rows.drop_last(), market);
        if matches_query(q, rows.last()@) {
            t.push((market, rows.last()@))
        } else {
            t
        }
    }
}

/// By market, then by code.
pub open spec fn hit_before(a: (Market, CnInfoView), b: (Market, CnInfoView)) -> bool {
    a.0.rank() < b.0.rank() || a.0 == b.0 && text_less(a.1.code, b.1.code)
}

/// The order of the hits, as a function.
pub open spec fn hit_before_fn() -> spec_fn((Market, CnInfoView), (Market, CnInfoView)) -> bool {
    |a: (Market, CnInfoView), b: (Market, CnInfoView)| hit_before(a, b)
}

/// A security as it is shown.
pub open spec fn hit_of(m: (Market, CnInfoView)) -> HitView {
    HitView {
        code: m.1.code,
        name: m.1.zwjc,
        pinyin: m.1.pinyin,
        category: m.1.category,
        org_id: m.1.org_id,
        market: m.0,
        board: board_of(m.1.code),
        source: "cninfo"@,
    }
}

/// What a search finds: the securities that match the trimmed query in lower
/// case, by market and code, no more than `limit`; nothing for an empty query.
pub open spec fn found(cn_a: Seq<CnInfoRow>, hk: Seq<CnInfoRow>, query: Seq<char>, limit: nat) -> Seq<
    HitView,
> {
    let q = to_lower(trim(query));
    if q.len() == 0 {
        Seq::empty()
    } else {
        let s = sorted_by(
            matching(q, cn_a, Market::CnA) + matching(q, hk, Market::Hk),
            hit_before_fn(),
        );
        let shown = if s.len() > limit {
            s.take(limit as int)
        } else {
            s
        };
        shown.map_values(|m: (Market, CnInfoView)| hit_of(m))
    }
}

/// The order of the hits is a weak order.
proof fn lemma_hit_order()
    ensures
        weak_order(hit_before_fn()),
{
    assert forall|a: (Market, CnInfoView), b: (Market, CnInfoView)| #[trigger]
        hit_before_fn()(a, b) implies !hit_before_fn()(b, a) by {
        lemma_hit_asymmetric(a, b);
    }
    assert forall|a: (Market, CnInfoView), b: (Market, CnInfoView), c: (Market, CnInfoView)|
        #![trigger hit_before_fn()(a, b), hit_before_fn()(b, c)]
        hit_before_fn()(a, c) implies hit_before_fn()(a, b) || hit_before_fn()(b, c) by {
        lemma_hit_between(a, b, c);
    }
}

proof fn lemma_hit_asymmetric(a: (Market, CnInfoView), b: (Market, CnInfoView))
    ensures
        !(hit_before(a, b) && hit_before(b, a)),
{
    lemma_text_less_asymmetric(a.1.code, b.1.code);
}

proof fn lemma_hit_between(
    a: (Market, CnInfoView),
    b: (Market, CnInfoView),
    c: (Market, CnInfoView),
)
    requires
        hit_before(a, c),
    ensures
        hit_before(a, b) || hit_before(b, c),
{
    lemma_text_less_total(a.1.code, b.1.code);
    if text_less(b.1.code, a.1.code) && text_less(a.1.code, c.1.code) {
        lemma_text_less_transitive(b.1.code, a.1.code, c.1.code);
    }
}

/// The matching securities of a list are those that match.
proof fn lemma_matching(q: Seq<char>, rows: Seq<CnInfoRow>, market: Market, r: CnInfoView)
    ensures
        matching(q, rows, market).contains((market, r)) <==> matches_query(q, r) && exists|k: int|
            0 <= k < rows.len() && (#[trigger] rows[k])@ == r,
        forall|i: int|
            0 <= i < matching(q, rows, market).len() ==> (#[trigger] matching(q, rows, market)[i]).0
                == market && matches_query(q, matching(q, rows, market)[i].1),
    decreases rows.len(),
{
    let m = matching(q, rows, market);
    if rows.len() > 0 {
        let d = rows.drop_last();
        let t = matching(q, d, market);
        lemma_matching(q, d, market, r);
        if matches_query(q, rows.last()@) {
            if t.contains((market, r)) {
                let i = choose|i: int| 0 <= i < t.len() && t[i] == (market, r);
                assert(m[i] == (market, r));
            }
            if rows.last()@ == r {
                assert(m[t.len() as int] == (market, r));
            }
            if m.contains((market, r)) && !t.contains((market, r)) {
                let i = choose|i: int| 0 <= i < m.len() && m[i] == (market, r);
                if i < t.len() {
                    assert(t[i] == m[i]);
                }
                assert(rows[rows.len() - 1]@ == r);
            }
        }
        if exists|k: int| 0 <= k < d.len() && (#[trigger] d[k])@ == r {
            let k = choose|k: int| 0 <= k < d.len() && (#[trigger] d[k])@ == r;
            assert(rows[k]@ == r);
        }
        if matches_query(q, r) && exists|k: int| 0 <= k < rows.len() && (#[trigger] rows[k])@ == r {
            let k = choose|k: int| 0 <= k < rows.len() && (#[trigger] rows[k])@ == r;
            if k < d.len() {
                assert(d[k]@ == r);
            }
        }
    }
}

/// Hits of the mainland stand before those of Hong Kong, and within a market no
/// hit stands behind one with a greater code.
pub proof fn law_hits_are_in_order(
    cn_a: Seq<CnInfoRow>,
    hk: Seq<CnInfoRow>,
    query: Seq<char>,
    limit: nat,
    i: int,
    j: int,
)
    requires
        0 <= i < j < found(cn_a, hk, query, limit).len(),
    ensures
        ({
            let a = found(cn_a, hk, query, limit)[i];
            let b = found(cn_a, hk, query, limit)[j];
            a.market.rank() < b.market.rank() || a.market == b.market && !text_less(b.code, a.code)
        }),
{
    let q = to_lower(trim(query));
    let all = matching(q, cn_a, Market::CnA) + matching(q, hk, Market::Hk);
    let s = sorted_by(all, hit_before_fn());
    lemma_hit_order();
    lemma_sorted_by_order(all, hit_before_fn());
    assert(!hit_before_fn()(s[j], s[i]));
}

/// Every hit matches the query, and where the limit is not reached every
/// security of the mainland that matches is a hit; so is every one of Hong Kong.
pub proof fn law_hits_are_the_matches(
    cn_a: Seq<CnInfoRow>,
    hk: Seq<CnInfoRow>,
    query: Seq<char>,
    limit: nat,
    i: int,
    k: int,
)
    requires
        to_lower(trim(query)).len() > 0,
    ensures
        0 <= i < found(cn_a, hk, query, limit).len() ==> ({
            let h = found(cn_a, hk, query, limit)[i];
            let q = to_lower(trim(query));
            occurs(h.code, q) || occurs(h.name, q) || q.is_prefix_of(h.pinyin)
        }),
        found(cn_a, hk, query, limit).len() < limit && 0 <= k < cn_a.len() && matches_query(
            to_lower(trim(query)),
            cn_a[k]@,
        ) ==> found(cn_a, hk, query, limit).contains(hit_of((Market::CnA, cn_a[k]@))),
        found(cn_a, hk, query, limit).len() < limit && 0 <= k < hk.len() && matches_query(
            to_lower(trim(query)),
            hk[k]@,
        ) ==> found(cn_a, hk, query, limit).contains(hit_of((Market::Hk, hk[k]@))),
{
    let q = to_lower(trim(query));
    let a = matching(q, cn_a, Market::CnA);
    let b = matching(q, hk, Market::Hk);
    let all = a + b;
    let s = sorted_by(all, hit_before_fn());
    let out = found(cn_a, hk, query, limit);
    lemma_hit_order();
    lemma_sorted_by_order(all, hit_before_fn());
    if 0 <= i < out.len() {
        assert(s.contains(s[i]));
        vstd::seq_lib::to_multiset_contains(s, s[i]);
        vstd::seq_lib::to_multiset_contains(all, s[i]);
        let at = choose|at: int| 0 <= at < all.len() && all[at] == s[i];
        lemma_matching(q, cn_a, Market::CnA, s[i].1);
        lemma_matching(q, hk, Market::Hk, s[i].1);
        if at < a.len() {
            assert(a[at] == s[i]);
        } else {
            assert(b[at - a.len()] == s[i]);
        }
    }
    if out.len() < limit && 0 <= k < cn_a.len() && matches_query(q, cn_a[k]@) {
        let x = (Market::CnA, cn_a[k]@);
        lemma_matching(q, cn_a, Market::CnA, cn_a[k]@);
        let at = choose|at: int| 0 <= at < a.len() && a[at] == x;
        assert(all[at] == x);
        lemma_shown(all, s, out, x);
    }
    if out.len() < limit && 0 <= k < hk.len() && matches_query(q, hk[k]@) {
        let x = (Market::Hk, hk[k]@);
        lemma_matching(q, hk, Market::Hk, hk[k]@);
        let at = choose|at: int| 0 <= at < b.len() && b[at] == x;
        assert(all[a.len() + at] == x);
        lemma_shown(all, s, out, x);
    }
}

/// A security is found by any part of its code or of its name, and by what its
/// initials begin with: where the limit is not reached, and whatever white space
/// stands round the query and in whichever case its ASCII letters are, a listed
/// security is a hit under its own code, name, initials, category and
/// organisation, and under the market of its list, if its code or its name is
/// the query with something, or nothing, before and behind, or its initials are
/// the query with something, or nothing, behind.
pub proof fn law_no_match_is_missed(
    cn_a: Seq<CnInfoRow>,
    hk: Seq<CnInfoRow>,
    query: Seq<char>,
    limit: nat,
    q: Seq<char>,
    market: Market,
    list: Seq<CnInfoRow>,
    k: int,
    before: Seq<char>,
    behind: Seq<char>,
)
    requires
        q == to_lower(trim(query)),
        q.len() > 0,
        found(cn_a, hk, query, limit).len() < limit,
        market == Market::CnA && list == cn_a || market == Market::Hk && list == hk,
        0 <= k < list.len(),
        list[k].code@ == before + q + behind || list[k].zwjc@ == before + q + behind
            || list[k].pinyin@ == q + behind,
    ensures
        exists|i: int|
            0 <= i < found(cn_a, hk, query, limit).len() && ({
                let h = #[trigger] found(cn_a, hk, query, limit)[i];
                h.code == list[k].code@ && h.name == list[k].zwjc@ && h.pinyin == list[k].pinyin@
                    && h.category == list[k].category@ && h.org_id == list[k].org_id@ && h.market
                    == market
            }),
{
    let r = list[k];
    law_what_occurs_is_part_of_the_text(r.code@, q, before, behind);
    law_what_occurs_is_part_of_the_text(r.zwjc@, q, before, behind);
    if r.pinyin@ == q + behind {
        assert(q.is_prefix_of(r.pinyin@));
    }
    assert(matches_query(q, r@));
    law_hits_are_the_matches(cn_a, hk, query, limit, 0, k);
    let out = found(cn_a, hk, query, limit);
    assert(out.contains(hit_of((market, r@))));
    let i = choose|i: int| 0 <= i < out.len() && out[i] == hit_of((market, r@));
    assert(found(cn_a, hk, query, limit)[i].code == r.code@);
}

/// Every hit is a listed security of its market that the query is part of: its
/// code or its name is the query with something, or nothing, before and behind,
/// or its initials are the query with something, or nothing, behind. The board is
/// the one that the code is of. There are no more hits than the limit.
pub proof fn law_every_hit_is_listed_and_matches(
    cn_a: Seq<CnInfoRow>,
    hk: Seq<CnInfoRow>,
    query: Seq<char>,
    limit: nat,
    q: Seq<char>,
    i: int,
)
    requires
        q == to_lower(trim(query)),
        0 <= i < found(cn_a, hk, query, limit).len(),
    ensures
        q.len() > 0,
        found(cn_a, hk, query, limit).len() <= limit,
        found(cn_a, hk, query, limit)[i].board == board_of(found(cn_a, hk, query, limit)[i].code),
        ({
            let h = found(cn_a, hk, query, limit)[i];
            ||| exists|a: Seq<char>, b: Seq<char>| h.code == #[trigger] (a + q + b)
            ||| exists|a: Seq<char>, b: Seq<char>| h.name == #[trigger] (a + q + b)
            ||| exists|b: Seq<char>| h.pinyin == #[trigger] (q + b)
        }),
        ({
            let h = found(cn_a, hk, query, limit)[i];
            ||| h.market == Market::CnA && exists|k: int|
                0 <= k < cn_a.len() && (#[trigger] cn_a[k]).code@ == h.code && cn_a[k].zwjc@
                    == h.name && cn_a[k].pinyin@ == h.pinyin && cn_a[k].category@ == h.category
                    && cn_a[k].org_id@ == h.org_id
            ||| h.market == Market::Hk && exists|k: int|
                0 <= k < hk.len() && (#[trigger] hk[k]).code@ == h.code && hk[k].zwjc@ == h.name
                    && hk[k].pinyin@ == h.pinyin && hk[k].category@ == h.category
                    && hk[k].org_id@ == h.org_id
        }),
{
    let a = matching(q, cn_a, Market::CnA);
    let b = matching(q, hk, Market::Hk);
    let all = a + b;
    let s = sorted_by(all, hit_before_fn());
    let h = found(cn_a, hk, query, limit)[i];
    lemma_hit_order();
    lemma_sorted_by_order(all, hit_before_fn());
    law_hits_are_the_matches(cn_a, hk, query, limit, i, 0);
    law_what_occurs_is_part_of_the_text(h.code, q, q, q);
    law_what_occurs_is_part_of_the_text(h.name, q, q, q);
    if q.is_prefix_of(h.pinyin) {
        assert(h.pinyin =~= q + h.pinyin.skip(q.len() as int));
    }
    assert(s.contains(s[i]));
    vstd::seq_lib::to_multiset_contains(s, s[i]);
    vstd::seq_lib::to_multiset_contains(all, s[i]);
    let at = choose|at: int| 0 <= at < all.len() && all[at] == s[i];
    lemma_matching(q, cn_a, Market::CnA, s[i].1);
    lemma_matching(q, hk, Market::Hk, s[i].1);
    if at < a.len() {
        assert(a[at] == s[i]);
        assert(a.contains((Market::CnA, s[i].1)));
        let k = choose|k: int| 0 <= k < cn_a.len() && (#[trigger] cn_a[k])@ == s[i].1;
        assert(h.code == cn_a[k].code@);
    } else {
        assert(b[at - a.len()] == s[i]);
        assert(b.contains((Market::Hk, s[i].1)));
        let k = choose|k: int| 0 <= k < hk.len() && (#[trigger] hk[k])@ == s[i].1;
        assert(h.code == hk[k].code@);
    }
}

/// The matching securities of a list are taken one by one, each as often as it is
/// listed.
proof fn lemma_matching_step(
    q: Seq<char>,
    a: Seq<CnInfoRow>,
    r: CnInfoRow,
    b: Seq<CnInfoRow>,
    market: Market,
)
    ensures
        matching(q, a + seq![r] + b, market) == matching(q, a, market) + (if matches_query(q, r@) {
            seq![(market, r@)]
        } else {
            Seq::empty()
        }) + matching(q, b, market),
    decreases b.len(),
{
    let s = a + seq![r] + b;
    if b.len() == 0 {
        assert(s.drop_last() =~= a);
        assert(s.last() == r);
        assert(matching(q, b, market) =~= Seq::empty());
    } else {
        lemma_matching_step(q, a, r, b.drop_last(), market);
        assert(s.drop_last() =~= a + seq![r] + b.drop_last());
        assert(s.last() == b.last());
    }
    assert(matching(q, s, market) =~= matching(q, a, market) + (if matches_query(q, r@) {
        seq![(market, r@)]
    } else {
        Seq::empty()
    }) + matching(q, b, market));
}

/// One more security in a list is one more hit if the query is part of it, and
/// none if it is not, as long as the limit is above the number of securities:
/// its code or its name is the query with something, or nothing, before and
/// behind, or its initials are the query with something, or nothing, behind.
pub proof fn law_one_more_match_is_one_more_hit(
    a: Seq<CnInfoRow>,
    r: CnInfoRow,
    b: Seq<CnInfoRow>,
    other: Seq<CnInfoRow>,
    query: Seq<char>,
    limit: nat,
    q: Seq<char>,
)
    requires
        q == to_lower(trim(query)),
        q.len() > 0,
        a.len() + 1 + b.len() + other.len() <= limit,
    ensures
        ({
            let matched = {
                ||| exists|x: Seq<char>, y: Seq<char>| r.code@ == #[trigger] (x + q + y)
                ||| exists|x: Seq<char>, y: Seq<char>| r.zwjc@ == #[trigger] (x + q + y)
                ||| exists|y: Seq<char>| r.pinyin@ == #[trigger] (q + y)
            };
            let more: nat = if matched {
                1
            } else {
                0
            };
            &&& found(a + seq![r] + b, other, query, limit).len() == found(
                a + b,
                other,
                query,
                limit,
            ).len() + more
            &&& found(other, a + seq![r] + b, query, limit).len() == found(
                other,
                a + b,
                query,
                limit,
            ).len() + more
        }),
{
    lemma_matched(q, r);
    lemma_matching_step(q, a, r, b, Market::CnA);
    lemma_matching_step(q, a, r, b, Market::Hk);
    lemma_matching_joins(q, a, b, Market::CnA);
    lemma_matching_joins(q, a, b, Market::Hk);
    lemma_found_len(a + seq![r] + b, other, query, limit);
    lemma_found_len(a + b, other, query, limit);
    lemma_found_len(other, a + seq![r] + b, query, limit);
    lemma_found_len(other, a + b, query, limit);
}

proof fn lemma_matched(q: Seq<char>, r: CnInfoRow)
    ensures
        matches_query(q, r@) <==> {
            ||| exists|x: Seq<char>, y: Seq<char>| r.code@ == #[trigger] (x + q + y)
            ||| exists|x: Seq<char>, y: Seq<char>| r.zwjc@ == #[trigger] (x + q + y)
            ||| exists|y: Seq<char>| r.pinyin@ == #[trigger] (q + y)
        },
{
    law_what_occurs_is_part_of_the_text(r.code@, q, q, q);
    law_what_occurs_is_part_of_the_text(r.zwjc@, q, q, q);
    if exists|x: Seq<char>, y: Seq<char>| r.code@ == #[trigger] (x + q + y) {
        let (x, y) = choose|x: Seq<char>, y: Seq<char>| r.code@ == #[trigger] (x + q + y);
        law_what_occurs_is_part_of_the_text(r.code@, q, x, y);
    }
    if exists|x: Seq<char>, y: Seq<char>| r.zwjc@ == #[trigger] (x + q + y) {
        let (x, y) = choose|x: Seq<char>, y: Seq<char>| r.zwjc@ == #[trigger] (x + q + y);
        law_what_occurs_is_part_of_the_text(r.zwjc@, q, x, y);
    }
    if q.is_prefix_of(r.pinyin@) {
        assert(r.pinyin@ =~= q + r.pinyin@.skip(q.len() as int));
    }
    if exists|y: Seq<char>| r.pinyin@ == #[trigger] (q + y) {
        let y = choose|y: Seq<char>| r.pinyin@ == #[trigger] (q + y);
        assert(r.pinyin@.subrange(0, q.len() as int) =~= q);
    }
}

proof fn lemma_matching_joins(
    q: Seq<char>,
    a: Seq<CnInfoRow>,
    b: Seq<CnInfoRow>,
    market: Market,
)
    ensures
        matching(q, a + b, market) == matching(q, a, market) + matching(q, b, market),
        matching(q, a, market).len() <= a.len(),
        matching(q, b, market).len() <= b.len(),
    decreases a.len() + b.len(),
{
    if b.len() > 0 {
        let d = b.drop_last();
        lemma_matching_joins(q, a, d, market);
        assert((a + b).drop_last() =~= a + d);
        assert((a + b).last() == b.last());
    } else {
        assert(a + b =~= a);
        if a.len() > 0 {
            lemma_matching_joins(q, a.drop_last(), b, market);
        }
    }
    assert(matching(q, a + b, market) =~= matching(q, a, market) + matching(q, b, market));
}

proof fn lemma_found_len(
    cn_a: Seq<CnInfoRow>,
    hk: Seq<CnInfoRow>,
    query: Seq<char>,
    limit: nat,
)
    requires
        to_lower(trim(query)).len() > 0,
        cn_a.len() + hk.len() <= limit,
    ensures
        ({
            let q = to_lower(trim(query));
            found(cn_a, hk, query, limit).len() == matching(q, cn_a, Market::CnA).len() + matching(
                q,
                hk,
                Market::Hk,
            ).len()
        }),
{
    let q = to_lower(trim(query));
    let all = matching(q, cn_a, Market::CnA) + matching(q, hk, Market::Hk);
    let none = Seq::<CnInfoRow>::empty();
    lemma_hit_order();
    lemma_sorted_by_order(all, hit_before_fn());
    lemma_matching_joins(q, cn_a, none, Market::CnA);
    lemma_matching_joins(q, hk, none, Market::Hk);
}

/// A smaller limit shows the beginning of what a greater one shows, and leaves
/// something out only where it is reached.
pub proof fn law_a_limit_shows_the_first_hits(
    cn_a: Seq<CnInfoRow>,
    hk: Seq<CnInfoRow>,
    query: Seq<char>,
    small: nat,
    great: nat,
)
    requires
        small <= great,
    ensures
        found(cn_a, hk, query, small).is_prefix_of(found(cn_a, hk, query, great)),
        found(cn_a, hk, query, small).len() < small ==> found(cn_a, hk, query, small) == found(
            cn_a,
            hk,
            query,
            great,
        ),
{
}

/// A query finds the same in whichever case its ASCII letters are and whatever
/// white space stands round it.
pub proof fn law_case_and_white_space_do_not_matter(
    cn_a: Seq<CnInfoRow>,
    hk: Seq<CnInfoRow>,
    a: Seq<char>,
    b: Seq<char>,
    before: Seq<char>,
    behind: Seq<char>,
    limit: nat,
)
    requires
        a.len() == b.len(),
        forall|i: int|
            0 <= i < a.len() ==> #[trigger] a[i] == b[i] || 'A' <= a[i] <= 'Z' && b[i] as u32
                == a[i] as u32 + 32,
        a.len() > 0 ==> !is_space(a[0]) && !is_space(a.last()),
        forall|i: int| 0 <= i < before.len() ==> is_space(#[trigger] before[i]),
        forall|i: int| 0 <= i < behind.len() ==> is_space(#[trigger] behind[i]),
    ensures
        found(cn_a, hk, before + a + behind, limit) == found(cn_a, hk, b, limit),
{
    let none = Seq::<char>::empty();
    if a.len() > 0 {
        assert(a[0] == b[0] || 'A' <= a[0] <= 'Z');
        let last = a.len() - 1;
        assert(a[last] == b[last] || 'A' <= a[last] <= 'Z');
    }
    law_white_space_around_is_trimmed(before, a, behind);
    law_white_space_around_is_trimmed(none, b, none);
    assert(none + b + none =~= b);
    assert forall|i: int| 0 <= i < a.len() implies to_lower(a)[i] == to_lower(b)[i] by {
        assert(a[i] == b[i] || 'A' <= a[i] <= 'Z' && b[i] as u32 == a[i] as u32 + 32);
    }
    assert(to_lower(a) =~= to_lower(b));
}

proof fn lemma_shown(
    all: Seq<(Market, CnInfoView)>,
    s: Seq<(Market, CnInfoView)>,
    out: Seq<HitView>,
    x: (Market, CnInfoView),
)
    requires
        s.to_multiset() == all.to_multiset(),
        all.contains(x),
        out == s.map_values(|m: (Market, CnInfoView)| hit_of(m)),
    ensures
        out.contains(hit_of(x)),
{
    vstd::seq_lib::to_multiset_contains(s, x);
    vstd::seq_lib::to_multiset_contains(all, x);
    let at = choose|at: int| 0 <= at < s.len() && s[at] == x;
    assert(out[at] == hit_of(x));
}

/// A security with its market.
struct Tagged<'a> {
    market: Market,
    row: &'a CnInfoRow,
}

impl<'a> View for Tagged<'a> {
    type V = (Market, CnInfoView);

    closed spec fn view(&self) -> (Market, CnInfoView) {
        (self.market, self.row@)
    }
}

spec fn tagged_view<'a>() -> spec_fn(Tagged<'a>) -> (Market, CnInfoView) {
    |t: Tagged<'a>| t@
}

impl<'a> Ranked for Tagged<'a> {
    closed spec fn precedes(a: Self, b: Self) -> bool {
        hit_before(a@, b@)
    }

    proof fn asymmetric(a: Self, b: Self) {
        lemma_hit_asymmetric(a@, b@);
    }

    proof fn between(a: Self, b: Self, c: Self) {
        lemma_hit_between(a@, b@, c@);
    }

    fn ranks_before(&self, other: &Self) -> (r: bool) {
        if self.market != other.market {
            self.market.position() < other.market.position()
        } else {
            less(self.row.code.as_str(), other.row.code.as_str())
        }
    }
}

fn add_matching<'a>(
    out: &mut Vec<Tagged<'a>>,
    q: &str,
    rows: &'a Vec<CnInfoRow>,
    market: Market,
)
    ensures
        final(out)@.map_values(tagged_view()) == old(out)@.map_values(tagged_view()) + matching(
            q@,
            rows@,
            market,
        ),
{
    let ghost before = out@.map_values(tagged_view());
    let mut i: usize = 0;
    proof {
        assert(rows@.take(0) =~= Seq::empty());
        assert(before + matching(q@, rows@.take(0), market) =~= before);
    }
    while i < rows.len()
        invariant
            i <= rows@.len(),
            out@.map_values(tagged_view()) == before + matching(
                q@,
                rows@.take(i as int),
                market,
            ),
        decreases rows@.len() - i,
    {
        let ghost v = out@.map_values(tagged_view());
        let ghost m = matching(q@, rows@.take(i as int), market);
        proof {
            let t = rows@.take(i as int + 1);
            assert(t.drop_last() =~= rows@.take(i as int));
            assert(t.last() == rows@[i as int]);
        }
        if matches_any(q, &rows[i]) {
            out.push(Tagged { market, row: &rows[i] });
            proof {
                let x = (market, rows@[i as int]@);
                assert(out@.map_values(tagged_view()) =~= v.push(x));
                assert((before + m).push(x) =~= before + m.push(x));
            }
        }
        i = i + 1;
    }
    proof {
        assert(rows@.take(rows@.len() as int) =~= rows@);
    }
}

fn to_hit(t: &Tagged) -> (h: SearchHit)
    ensures
        h@ == hit_of(t@),
{
    SearchHit {
        code: t.row.code.clone(),
        name: t.row.zwjc.clone(),
        pinyin: t.row.pinyin.clone(),
        category: t.row.category.clone(),
        org_id: t.row.org_id.clone(),
        market: t.market,
        board: infer_board(t.row.code.as_str()),
        source: "cninfo",
    }
}

/// The securities that a search finds.
pub fn find_matches(lists: &StockLists, query: &str, limit: u32) -> (out: Vec<SearchHit>)
    ensures
        hit_views(out@) == found(lists.cn_a@, lists.hk@, query@, limit as nat),
{
    let q = lower_chars(&trim_chars(&chars_of(query)));
    if q.len() == 0 {
        let out: Vec<SearchHit> = Vec::new();
        proof {
            assert(hit_views(out@) =~= Seq::empty());
        }
        return out;
    }
    let text = string_from(&q);
    let mut matched: Vec<Tagged> = Vec::new();
    proof {
        assert(matched@.map_values(tagged_view()) =~= Seq::empty());
    }
    add_matching(&mut matched, text.as_str(), &lists.cn_a, Market::CnA);
    add_matching(&mut matched, text.as_str(), &lists.hk, Market::Hk);
    let ghost all = matching(text@, lists.cn_a@, Market::CnA) + matching(
        text@,
        lists.hk@,
        Market::Hk,
    );
    proof {
        assert(matched@.map_values(tagged_view()) =~= all);
        lemma_sorted_by(matched@, tagged_view(), hit_before_fn());
    }
    let ghost s = sorted_by(all, hit_before_fn());
    let matched = stable_sort(matched);
    assert(matched@.map_values(tagged_view()) == s);
    let n: usize = if matched.len() > limit as usize {
        limit as usize
    } else {
        matched.len()
    };
    let mut out: Vec<SearchHit> = Vec::new();
    let mut i: usize = 0;
    while i < n
        invariant
            i <= n <= matched@.len(),
            matched@.map_values(tagged_view()) == s,
            out@.len() == i,
            forall|k: int| 0 <= k < i ==> (#[trigger] out@[k])@ == hit_of(s[k]),
        decreases n - i,
    {
        assert(s[i as int] == matched@[i as int]@);
        out.push(to_hit(&matched[i]));
        i = i + 1;
    }
    proof {
        let shown = if s.len() > limit {
            s.take(limit as int)
        } else {
            s
        };
        assert(hit_views(out@) =~= shown.map_values(|m: (Market, CnInfoView)| hit_of(m)));
    }
    out
}

/// The hits of a search; an error if there are none.
pub fn search(lists: &StockLists, args: &SearchArgs) -> (r: Result<Vec<SearchHit>, SiftError>)
    ensures
        match r {
            Ok(out) => out@.len() > 0 && hit_views(out@) == found(
                lists.cn_a@,
                lists.hk@,
                args.query@,
                args.limit as nat,
            ),
            Err(e) => found(lists.cn_a@, lists.hk@, args.query@, args.limit as nat).len() == 0
                && e@ == ErrorView::NotFound(args.query@),
        },
{
    let hits = find_matches(lists, args.query.as_str(), args.limit);
    if hits.len() == 0 {
        Err(SiftError::NotFound(args.query.clone()))
    } else {
        Ok(hits)
    }
}

/// The cell stands under the header of the same place: code, name, market, board,
/// category and organisation.
pub proof fn law_hit_cells_stand_in_the_order_of_the_headers(h: HitView)
    ensures
        h.cell_texts().len() == 6,
        h.cell_texts()[0] == h.code,
        h.cell_texts()[1] == h.name,
        h.cell_texts()[2] == h.market.upper_label(),
        h.board matches Some(b) ==> h.cell_texts()[3] == b.label(),
        h.cell_texts()[4] == h.category,
        h.cell_texts()[5] == h.org_id,
{
}

} // verus!
