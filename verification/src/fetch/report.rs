//! Reports: which sources are asked, which answer counts, and what goes into
//! and comes out of the record cache.

use vstd::prelude::*;
use vstd::string::*;
use vstd::utf8::encode_utf8;

use crate::cache::financials::{
    StoredRow, StoredView, kept_whole, law_stored_row_reads_back, lemma_filter_keeps, restored,
    stored, stored_views,
};
use crate::cache::record::{Kind, blake3_digest, key_text, make_key};
use crate::cache::ttl::{bucket_for, bucket_of_age, fresh_at, instant, is_fresh};
use crate::date::Date;
use crate::domain::financial_row::{RowView, row_views};
use crate::domain::{FinancialRow, Period, PeriodType, Query, Scope, SourceTag, Statement, Symbol};
use crate::error::{ErrorView, SiftError, concat3, concat4, pair_views};
use crate::order::{Ranked, ascending, by_view, insert_distinct, stands_for, total};
use crate::text::{
    join, join_strings, law_every_part_is_in_the_joined_text, lemma_occurs_between,
    lemma_occurs_within, lemma_text_less_asymmetric, lemma_text_less_total,
    lemma_text_less_transitive, less, occurs, opt_str, same, str_views, text_less, views,
};
use crate::text_map::{TextSet, ascending_texts};

verus! {

// ---------------------------------------------------------------------------
// Sources
// ---------------------------------------------------------------------------

/// A registered source: its name, whether it takes part without being named,
/// and whether it supports the query at hand.
#[derive(Debug)]
pub struct SourceInfo {
    pub name: String,
    pub auto_dispatch: bool,
    pub supports: bool,
}

/// The names of the sources.
pub open spec fn source_names(sources: Seq<SourceInfo>) -> Seq<Seq<char>> {
    sources.map_values(|s: SourceInfo| s.name@)
}

/// The positions of the sources that take part without being named and support
/// the query, in order.
pub open spec fn auto_sources(sources: Seq<SourceInfo>) -> Seq<usize>
    decreases sources.len(),
{
    if sources.len() == 0 {
        Seq::empty()
    } else {
        let t = auto_sources(sources.drop_last());
        if sources.last().auto_dispatch && sources.last().supports {
            t.push((sources.len() - 1) as usize)
        } else {
            t
        }
    }
}

/// The position of the first source with a name; the number of sources if there
/// is none.
pub open spec fn source_named(sources: Seq<SourceInfo>, name: Seq<char>) -> int
    decreases sources.len(),
{
    if sources.len() == 0 || sources[0].name@ == name {
        0
    } else {
        1 + source_named(sources.drop_first(), name)
    }
}

/// The sources that race unnamed are those that take part unnamed and support the
/// query, all of them, each once and in the order of registration.
pub proof fn law_all_that_support_the_query_race(sources: Seq<SourceInfo>, p: usize)
    requires
        sources.len() <= usize::MAX,
    ensures
        auto_sources(sources).contains(p) <==> p < sources.len()
            && sources[p as int].auto_dispatch && sources[p as int].supports,
        forall|i: int, j: int|
            0 <= i < j < auto_sources(sources).len() ==> #[trigger] auto_sources(sources)[i]
                < #[trigger] auto_sources(sources)[j],
        forall|i: int|
            0 <= i < auto_sources(sources).len() ==> #[trigger] auto_sources(sources)[i]
                < sources.len(),
    decreases sources.len(),
{
    if sources.len() > 0 {
        let d = sources.drop_last();
        let t = auto_sources(d);
        let all = auto_sources(sources);
        law_all_that_support_the_query_race(d, p);
        if t.contains(p) {
            let k = choose|k: int| 0 <= k < t.len() && t[k] == p;
            assert(all[k] == p);
        }
        if all.contains(p) && !t.contains(p) {
            let k = choose|k: int| 0 <= k < all.len() && all[k] == p;
            if k < t.len() {
                assert(t[k] == p);
            }
        }
        if p == sources.len() - 1 && sources.last().auto_dispatch && sources.last().supports {
            assert(all[t.len() as int] == p);
        }
        assert forall|i: int, j: int| 0 <= i < j < all.len() implies #[trigger] all[i]
            < #[trigger] all[j] by {
            assert(all[i] == t[i]);
            if j < t.len() {
                assert(all[j] == t[j]);
            }
        }
    }
}

/// The source of a name is the first that has it, and only where none has it is
/// there none.
pub proof fn law_the_first_source_of_a_name_is_taken(sources: Seq<SourceInfo>, name: Seq<char>, i: int)
    ensures
        0 <= source_named(sources, name) <= sources.len(),
        source_named(sources, name) < sources.len() ==> sources[source_named(
            sources,
            name,
        )].name@ == name,
        0 <= i < source_named(sources, name) ==> sources[i].name@ != name,
    decreases sources.len(),
{
    if sources.len() > 0 && sources[0].name@ != name {
        let d = sources.drop_first();
        law_the_first_source_of_a_name_is_taken(d, name, i - 1);
        if source_named(d, name) < d.len() {
            assert(d[source_named(d, name)] == sources[source_named(d, name) + 1]);
        }
        if 0 < i < source_named(sources, name) {
            assert(d[i - 1] == sources[i]);
        }
    }
}

/// No source for a query.
pub open spec fn none_applies(q: Query) -> ErrorView {
    ErrorView::NoApplicableSource(
        "symbol="@ + q.symbol.code@ + " statement="@ + q.statement.label() + " scope="@
            + q.scope.label(),
    )
}

/// Where no source takes a query, its symbol, its statement and its scope are told.
pub proof fn law_a_query_without_a_source_is_told(q: Query)
    ensures
        none_applies(q) matches ErrorView::NoApplicableSource(text) && occurs(
            text,
            "symbol="@ + q.symbol.code@,
        ) && occurs(text, "statement="@ + q.statement.label()) && ("scope="@
            + q.scope.label()).is_suffix_of(text),
{
    reveal_strlit("scope=");
    reveal_strlit(" scope=");
    reveal_strlit("statement=");
    reveal_strlit(" statement=");
    reveal_strlit(" ");
    let text = "symbol="@ + q.symbol.code@ + " statement="@ + q.statement.label() + " scope="@
        + q.scope.label();
    let a = "symbol="@ + q.symbol.code@;
    let b = "statement="@ + q.statement.label();
    let c = "scope="@ + q.scope.label();
    assert(" "@ + "statement="@ =~= " statement="@);
    assert(" "@ + "scope="@ =~= " scope="@);
    let none = Seq::<char>::empty();
    lemma_occurs_between(none, a, " "@ + b + " "@ + c);
    assert(none + a + (" "@ + b + " "@ + c) =~= text);
    lemma_occurs_between(a + " "@, b, " "@ + c);
    assert(a + " "@ + b + (" "@ + c) =~= text);
    assert(text.subrange(text.len() - c.len(), text.len() as int) =~= c);
}

/// No source of a name.
pub open spec fn not_registered(name: Seq<char>, sources: Seq<SourceInfo>) -> ErrorView {
    ErrorView::NoApplicableSource(
        "--source "@ + name + " not registered; known sources: "@ + join(
            source_names(sources),
            ", "@,
        ),
    )
}

/// Where a source of a name is not there, the name and all sources that are there
/// are told.
pub proof fn law_the_known_sources_are_told(name: Seq<char>, sources: Seq<SourceInfo>, i: int)
    requires
        0 <= i < sources.len(),
    ensures
        not_registered(name, sources) matches ErrorView::NoApplicableSource(text) && occurs(
            text,
            name,
        ) && occurs(text, sources[i].name@),
{
    let text = "--source "@ + name + " not registered; known sources: "@ + join(
        source_names(sources),
        ", "@,
    );
    let known = join(source_names(sources), ", "@);
    let none = Seq::<char>::empty();
    let head = "--source "@ + name + " not registered; known sources: "@;
    lemma_occurs_between("--source "@, name, " not registered; known sources: "@ + known);
    assert("--source "@ + name + (" not registered; known sources: "@ + known) =~= text);
    lemma_occurs_between(head, known, none);
    assert(head + known + none =~= text);
    assert(source_names(sources)[i] == sources[i].name@);
    law_every_part_is_in_the_joined_text(source_names(sources), ", "@, i);
    lemma_occurs_within(text, known, sources[i].name@);
}

/// The names of the sources, with commas between them.
pub fn known_sources(sources: &Vec<SourceInfo>) -> (out: String)
    ensures
        out@ == join(source_names(sources@), ", "@),
{
    let mut names: Vec<String> = Vec::new();
    let mut i: usize = 0;
    while i < sources.len()
        invariant
            i <= sources@.len(),
            names@.len() == i,
            forall|k: int| 0 <= k < i ==> (#[trigger] names@[k])@ == sources@[k].name@,
        decreases sources@.len() - i,
    {
        names.push(sources[i].name.clone());
        i = i + 1;
    }
    proof {
        assert(views(names@) =~= source_names(sources@));
    }
    join_strings(&names, ", ")
}

fn no_source(query: &Query) -> (e: SiftError)
    ensures
        e@ == none_applies(*query),
{
    let mut text = concat4(
        "symbol=",
        query.symbol.code.as_str(),
        " statement=",
        query.statement.as_str(),
    );
    text.append(" scope=");
    text.append(query.scope.as_str());
    SiftError::NoApplicableSource(text)
}

/// The positions of the sources that race for a query: all that take part
/// without being named and support it.
pub fn dispatch_with_cache(query: &Query, sources: &Vec<SourceInfo>) -> (r: Result<
    Vec<usize>,
    SiftError,
>)
    ensures
        match r {
            Ok(out) => out@ == auto_sources(sources@) && out@.len() > 0,
            Err(e) => auto_sources(sources@).len() == 0 && e@ == none_applies(*query),
        },
{
    let mut out: Vec<usize> = Vec::new();
    let mut i: usize = 0;
    proof {
        assert(sources@.take(0) =~= Seq::empty());
    }
    while i < sources.len()
        invariant
            i <= sources@.len(),
            out@ == auto_sources(sources@.take(i as int)),
        decreases sources@.len() - i,
    {
        proof {
            let t = sources@.take(i as int + 1);
            assert(t.drop_last() =~= sources@.take(i as int));
            assert(t.last() == sources@[i as int]);
        }
        if sources[i].auto_dispatch && sources[i].supports {
            out.push(i);
        }
        i = i + 1;
    }
    proof {
        assert(sources@.take(sources@.len() as int) =~= sources@);
    }
    if out.len() == 0 {
        Err(no_source(query))
    } else {
        Ok(out)
    }
}

/// Any position with these properties is the position.
proof fn lemma_source_named(sources: Seq<SourceInfo>, name: Seq<char>, k: int)
    requires
        0 <= k <= sources.len(),
        forall|i: int| 0 <= i < k ==> (#[trigger] sources[i]).name@ != name,
        k < sources.len() ==> sources[k].name@ == name,
    ensures
        source_named(sources, name) == k,
    decreases k,
{
    if k > 0 {
        assert(sources[0].name@ != name);
        let t = sources.drop_first();
        assert forall|i: int| 0 <= i < k - 1 implies (#[trigger] t[i]).name@ != name by {
            assert(sources[i + 1].name@ != name);
        }
        lemma_source_named(t, name, k - 1);
    }
}

/// The position of the first source with a name.
pub fn find_source(sources: &Vec<SourceInfo>, name: &str) -> (r: Option<usize>)
    ensures
        match r {
            Some(i) => i < sources@.len() && i == source_named(sources@, name@),
            None => source_named(sources@, name@) == sources@.len(),
        },
{
    let mut i: usize = 0;
    while i < sources.len()
        invariant
            i <= sources@.len(),
            forall|k: int| 0 <= k < i ==> (#[trigger] sources@[k]).name@ != name@,
        decreases sources@.len() - i,
    {
        if same(sources[i].name.as_str(), name) {
            proof {
                lemma_source_named(sources@, name@, i as int);
            }
            return Some(i);
        }
        i = i + 1;
    }
    proof {
        lemma_source_named(sources@, name@, i as int);
    }
    None
}

/// The positions of the sources that race for a query: the one that is named,
/// or, without a name, all that take part unnamed.
pub fn dispatch_with_cache_named(
    query: &Query,
    sources: &Vec<SourceInfo>,
    name: Option<&str>,
) -> (r: Result<Vec<usize>, SiftError>)
    ensures
        match name {
            None => match r {
                Ok(out) => out@ == auto_sources(sources@) && out@.len() > 0,
                Err(e) => auto_sources(sources@).len() == 0 && e@ == none_applies(*query),
            },
            Some(want) => {
                let at = source_named(sources@, want@);
                if at >= sources@.len() {
                    r matches Err(e) && e@ == not_registered(want@, sources@)
                } else if sources@[at].supports {
                    r matches Ok(out) && out@ == seq![at as usize]
                } else {
                    r matches Err(e) && e@ == none_applies(*query)
                }
            },
        },
{
    let want = match name {
        None => return dispatch_with_cache(query, sources),
        Some(want) => want,
    };
    match find_source(sources, want) {
        None => Err(
            SiftError::NoApplicableSource(
                concat4(
                    "--source ",
                    want,
                    " not registered; known sources: ",
                    known_sources(sources).as_str(),
                ),
            ),
        ),
        Some(i) => {
            if sources[i].supports {
                let mut out: Vec<usize> = Vec::new();
                out.push(i);
                proof {
                    assert(out@ =~= seq![i]);
                }
                Ok(out)
            } else {
                Err(no_source(query))
            }
        },
    }
}

// ---------------------------------------------------------------------------
// The race
// ---------------------------------------------------------------------------

/// One answer: the source, and the rows or the error.
pub type Answer = (String, Result<Vec<FinancialRow>, SiftError>);

/// The rows of the first answer that has some; without one, what every source
/// said.
pub open spec fn raced(answers: Seq<Answer>) -> Result<Seq<RowView>, Seq<(Seq<char>, Seq<char>)>>
    decreases answers.len(),
{
    if answers.len() == 0 {
        Err(Seq::empty())
    } else {
        match raced(answers.drop_last()) {
            Ok(rows) => Ok(rows),
            Err(failures) => match answers.last().1 {
                Ok(rows) => Ok(row_views(rows@)),
                Err(e) => Err(failures.push((answers.last().0@, e@.message()))),
            },
        }
    }
}

/// The race, from the answers in the order in which they came: the first
/// success wins, and if there is none, all failures are told.
pub fn settle(answers: Vec<Answer>) -> (r: Result<Vec<FinancialRow>, SiftError>)
    ensures
        match r {
            Ok(rows) => raced(answers@) == Ok::<Seq<RowView>, Seq<(Seq<char>, Seq<char>)>>(
                row_views(rows@),
            ),
            Err(e) => raced(answers@) is Err && e@ == ErrorView::AllSourcesFailed(
                raced(answers@)->Err_0,
            ),
        },
{
    let mut failures: Vec<(String, String)> = Vec::new();
    proof {
        assert(answers@.take(0) =~= Seq::empty());
        assert(pair_views(failures@) =~= Seq::empty());
    }
    for answer in it: answers
        invariant
            it.seq() == answers@,
            raced(answers@.take(it.index() as int)) == Err::<
                Seq<RowView>,
                Seq<(Seq<char>, Seq<char>)>,
            >(pair_views(failures@)),
    {
        let ghost n = it.index() as int;
        proof {
            let t = answers@.take(n + 1);
            assert(t.drop_last() =~= answers@.take(n));
            assert(t.last() == answer);
        }
        let (name, result) = answer;
        match result {
            Ok(rows) => {
                proof {
                    lemma_raced_stays(answers@, n + 1);
                }
                return Ok(rows);
            },
            Err(e) => {
                let ghost before = pair_views(failures@);
                let ghost said = (name@, e@.message());
                failures.push((name, e.message()));
                proof {
                    assert(pair_views(failures@) =~= before.push(said));
                }
            },
        }
    }
    proof {
        assert(answers@.take(answers@.len() as int) =~= answers@);
    }
    Err(SiftError::AllSourcesFailed(failures))
}

proof fn lemma_raced_stays(answers: Seq<Answer>, n: int)
    requires
        0 <= n <= answers.len(),
        raced(answers.take(n)) is Ok,
    ensures
        raced(answers) == raced(answers.take(n)),
    decreases answers.len() - n,
{
    if n < answers.len() {
        assert(answers.take(n + 1).drop_last() =~= answers.take(n));
        lemma_raced_stays(answers, n + 1);
    } else {
        assert(answers.take(n) =~= answers);
    }
}

proof fn lemma_no_success(answers: Seq<Answer>, n: int)
    requires
        0 <= n <= answers.len(),
        forall|i: int| 0 <= i < n ==> (#[trigger] answers[i]).1 is Err,
    ensures
        raced(answers.take(n)) is Err,
    decreases n,
{
    if n > 0 {
        lemma_no_success(answers, n - 1);
        assert(answers.take(n).drop_last() =~= answers.take(n - 1));
        assert(answers.take(n).last() == answers[n - 1]);
    }
}

/// The first success wins, whatever comes after it.
pub proof fn law_first_success_wins(answers: Seq<Answer>, k: int)
    requires
        0 <= k < answers.len(),
        answers[k].1 is Ok,
        forall|i: int| 0 <= i < k ==> (#[trigger] answers[i]).1 is Err,
    ensures
        raced(answers) == Ok::<Seq<RowView>, Seq<(Seq<char>, Seq<char>)>>(
            row_views(answers[k].1->Ok_0@),
        ),
{
    lemma_no_success(answers, k);
    let t = answers.take(k + 1);
    assert(t.drop_last() =~= answers.take(k));
    assert(t.last() == answers[k]);
    lemma_raced_stays(answers, k + 1);
}

/// Without a success, every source is told with what it said, in order.
pub proof fn law_all_failures_are_told(answers: Seq<Answer>, k: int)
    requires
        0 <= k < answers.len(),
        forall|i: int| 0 <= i < answers.len() ==> (#[trigger] answers[i]).1 is Err,
    ensures
        raced(answers) matches Err(told) && told.len() == answers.len() && told[k] == (
            answers[k].0@,
            answers[k].1->Err_0@.message(),
        ),
    decreases answers.len(),
{
    let t = answers.drop_last();
    assert(answers.last().1 is Err);
    if t.len() > 0 {
        assert forall|i: int| 0 <= i < t.len() implies (#[trigger] t[i]).1 is Err by {
            assert(answers[i].1 is Err);
        }
        if k < t.len() {
            law_all_failures_are_told(t, k);
        } else {
            law_all_failures_are_told(t, 0);
        }
    }
}

/// The error of a source that panicked.
pub fn panicked(name: &str, message: &str) -> (e: SiftError)
    ensures
        e@ == ErrorView::Network(name@ + " panicked: "@ + message@),
{
    SiftError::Network(concat3(name, " panicked: ", message))
}

// ---------------------------------------------------------------------------
// One source and the cache
// ---------------------------------------------------------------------------

/// The tag of a source by name; East Money for a name that has none.
pub fn source_tag(name: &str) -> (t: SourceTag)
    ensures
        t == (match SourceTag::named(name@) {
            Some(t) => t,
            None => SourceTag::EastMoney,
        }),
{
    match SourceTag::from_name(name) {
        Some(t) => t,
        None => SourceTag::EastMoney,
    }
}

/// What the cache had, one period after the other.
pub open spec fn cached_rows(hits: Seq<Option<Vec<FinancialRow>>>) -> Seq<RowView>
    decreases hits.len(),
{
    if hits.len() == 0 {
        Seq::empty()
    } else {
        let t = cached_rows(hits.drop_last());
        match hits.last() {
            Some(rows) => t + row_views(rows@),
            None => t,
        }
    }
}

/// The periods that the cache had nothing for, in order.
pub open spec fn missed(periods: Seq<Period>, hits: Seq<Option<Vec<FinancialRow>>>) -> Seq<Period>
    decreases hits.len(),
{
    if hits.len() == 0 {
        Seq::empty()
    } else {
        let t = missed(periods, hits.drop_last());
        match hits.last() {
            Some(_) => t,
            None => t.push(periods[hits.len() - 1]),
        }
    }
}

/// What is there from the cache, and the query for the rest, if there is any.
#[derive(Debug)]
pub struct FetchPlan {
    pub cached: Vec<FinancialRow>,
    pub rest: Option<Query>,
}

/// Divides the periods of a query into those that the cache had and those that
/// have to be fetched. `hits` holds what the cache had for each period.
pub fn plan_fetch(query: &Query, hits: Vec<Option<Vec<FinancialRow>>>) -> (plan: FetchPlan)
    requires
        hits@.len() == query.periods@.len(),
    ensures
        row_views(plan.cached@) == cached_rows(hits@),
        match plan.rest {
            None => missed(query.periods@, hits@).len() == 0,
            Some(q) => missed(query.periods@, hits@).len() > 0 && q.periods@ == missed(
                query.periods@,
                hits@,
            ) && q.symbol@ == query.symbol@ && q.statement == query.statement && q.scope
                == query.scope,
        },
{
    let mut cached: Vec<FinancialRow> = Vec::new();
    let mut periods: Vec<Period> = Vec::new();
    proof {
        assert(hits@.take(0) =~= Seq::empty());
        assert(row_views(cached@) =~= Seq::empty());
    }
    let mut i: usize = 0;
    let count: usize = query.periods.len();
    for hit in it: hits
        invariant
            it.seq() == hits@,
            i == it.index(),
            hits@.len() == query.periods@.len(),
            count == query.periods@.len(),
            row_views(cached@) == cached_rows(hits@.take(it.index() as int)),
            periods@ == missed(query.periods@, hits@.take(it.index() as int)),
    {
        proof {
            let t = hits@.take(it.index() as int + 1);
            assert(t.drop_last() =~= hits@.take(it.index() as int));
            assert(t.last() == hit);
        }
        match hit {
            Some(rows) => {
                let ghost before = cached@;
                let ghost added = rows@;
                let mut more = rows;
                cached.append(&mut more);
                proof {
                    assert(row_views(cached@) =~= row_views(before) + row_views(added));
                }
            },
            None => {
                periods.push(query.periods[i]);
            },
        }
        i = i + 1;
    }
    proof {
        assert(hits@.take(hits@.len() as int) =~= hits@);
    }
    if periods.len() == 0 {
        FetchPlan { cached, rest: None }
    } else {
        FetchPlan {
            cached,
            rest: Some(
                Query {
                    symbol: query.symbol.clone(),
                    statement: query.statement,
                    periods,
                    scope: query.scope,
                },
            ),
        }
    }
}

/// What is there from the cache, and then what was fetched.
pub fn merge_fetch(cached: Vec<FinancialRow>, fresh: Vec<FinancialRow>) -> (out: Vec<FinancialRow>)
    ensures
        out@ == cached@ + fresh@,
{
    let mut out = cached;
    let mut more = fresh;
    out.append(&mut more);
    out
}

/// Every period of a query is either answered by the cache or asked for, and
/// a period is asked for only if the cache had nothing for it.
pub proof fn law_only_misses_are_fetched(
    periods: Seq<Period>,
    hits: Seq<Option<Vec<FinancialRow>>>,
    p: Period,
)
    requires
        hits.len() == periods.len(),
    ensures
        missed(periods, hits).contains(p) <==> exists|i: int|
            0 <= i < hits.len() && hits[i] is None && #[trigger] periods[i] == p,
{
    lemma_missed(periods, hits, p);
}

/// The rows that the cache had are taken period by period, and the periods that
/// it had nothing for are asked for in the order of the query.
pub proof fn law_hits_and_misses_keep_their_order(
    periods: Seq<Period>,
    hits: Seq<Option<Vec<FinancialRow>>>,
    n: int,
)
    requires
        hits.len() == periods.len(),
        0 <= n < hits.len(),
    ensures
        cached_rows(hits) == cached_rows(hits.take(n)) + (match hits[n] {
            Some(rows) => rows@.map_values(|r: FinancialRow| r@),
            None => Seq::empty(),
        }) + cached_rows(hits.skip(n + 1)),
        missed(periods, hits) == missed(periods.take(n), hits.take(n)) + (match hits[n] {
            Some(_) => Seq::empty(),
            None => seq![periods[n]],
        }) + missed(periods.skip(n + 1), hits.skip(n + 1)),
    decreases hits.len(),
{
    let d = hits.drop_last();
    let own = match hits[n] {
        Some(rows) => rows@.map_values(|r: FinancialRow| r@),
        None => Seq::empty(),
    };
    let open = match hits[n] {
        Some(_) => Seq::empty(),
        None => seq![periods[n]],
    };
    let rest = hits.skip(n + 1);
    let later = periods.skip(n + 1);
    if n == hits.len() - 1 {
        assert(hits.take(n) =~= d);
        assert(rest =~= Seq::empty());
        lemma_missed_reads(periods, periods.take(n), d);
    } else {
        let e = periods.drop_last();
        law_hits_and_misses_keep_their_order(e, d, n);
        lemma_missed_reads(periods, e, d);
        assert(d.take(n) =~= hits.take(n));
        assert(e.take(n) =~= periods.take(n));
        assert(rest.drop_last() =~= d.skip(n + 1));
        assert(later.drop_last() =~= e.skip(n + 1));
        assert(rest.last() == hits.last());
        lemma_missed_reads(later, later.drop_last(), rest.drop_last());
        assert(later[rest.len() - 1] == periods[hits.len() - 1]);
    }
    assert(cached_rows(hits) =~= cached_rows(hits.take(n)) + own + cached_rows(rest));
    assert(missed(periods, hits) =~= missed(periods.take(n), hits.take(n)) + open + missed(
        later,
        rest,
    ));
}

/// Only as many periods matter as there are hits.
proof fn lemma_missed_reads(a: Seq<Period>, b: Seq<Period>, hits: Seq<Option<Vec<FinancialRow>>>)
    requires
        forall|i: int| 0 <= i < hits.len() ==> #[trigger] a[i] == b[i],
    ensures
        missed(a, hits) == missed(b, hits),
    decreases hits.len(),
{
    if hits.len() > 0 {
        lemma_missed_reads(a, b, hits.drop_last());
        assert(a[hits.len() - 1] == b[hits.len() - 1]);
    }
}

proof fn lemma_missed(periods: Seq<Period>, hits: Seq<Option<Vec<FinancialRow>>>, p: Period)
    requires
        hits.len() <= periods.len(),
    ensures
        missed(periods, hits).contains(p) <==> exists|i: int|
            0 <= i < hits.len() && hits[i] is None && #[trigger] periods[i] == p,
    decreases hits.len(),
{
    if hits.len() > 0 {
        let t = hits.drop_last();
        lemma_missed(periods, t, p);
        let m = missed(periods, t);
        let n = missed(periods, hits);
        if n.contains(p) {
            let k = choose|k: int| 0 <= k < n.len() && n[k] == p;
            if k < m.len() {
                assert(m[k] == p);
                let i = choose|i: int|
                    0 <= i < t.len() && t[i] is None && #[trigger] periods[i] == p;
                assert(hits[i] is None && periods[i] == p);
            } else {
                assert(periods[hits.len() - 1] == p);
            }
        }
        if exists|i: int| 0 <= i < hits.len() && hits[i] is None && #[trigger] periods[i] == p {
            let i = choose|i: int|
                0 <= i < hits.len() && hits[i] is None && #[trigger] periods[i] == p;
            if i < t.len() {
                assert(t[i] is None && periods[i] == p);
                let k = choose|k: int| 0 <= k < m.len() && m[k] == p;
                assert(n[k] == p);
            } else {
                assert(n[m.len() as int] == p);
            }
        }
    }
}

// ---------------------------------------------------------------------------
// Periods
// ---------------------------------------------------------------------------

/// A period that a source has.
#[derive(Debug)]
pub struct PeriodEntry {
    pub end: Date,
    pub period_type: PeriodType,
    pub source: String,
}

/// A period that a source has, its source as text.
pub struct PeriodEntryView {
    pub end: Date,
    pub period_type: PeriodType,
    pub source: Seq<char>,
}

impl View for PeriodEntry {
    type V = PeriodEntryView;

    open spec fn view(&self) -> PeriodEntryView {
        PeriodEntryView { end: self.end, period_type: self.period_type, source: self.source@ }
    }
}

/// Later ends first; for one end, by source, then by type.
pub open spec fn listed_before(a: PeriodEntryView, b: PeriodEntryView) -> bool {
    ||| b.end.before(a.end)
    ||| a.end == b.end && {
        ||| text_less(a.source, b.source)
        ||| a.source == b.source && a.period_type.rank() < b.period_type.rank()
    }
}

impl Ranked for PeriodEntry {
    open spec fn precedes(a: Self, b: Self) -> bool {
        listed_before(a@, b@)
    }

    proof fn asymmetric(a: Self, b: Self) {
        lemma_text_less_asymmetric(a.source@, b.source@);
    }

    proof fn between(a: Self, b: Self, c: Self) {
        lemma_text_less_total(a.source@, b.source@);
        if text_less(b.source@, a.source@) && text_less(a.source@, c.source@) {
            lemma_text_less_transitive(b.source@, a.source@, c.source@);
        }
    }

    fn ranks_before(&self, other: &Self) -> (r: bool) {
        proof {
            lemma_text_less_asymmetric(self.source@, self.source@);
        }
        if self.end != other.end {
            other.end.is_before(self.end)
        } else if !same(self.source.as_str(), other.source.as_str()) {
            less(self.source.as_str(), other.source.as_str())
        } else {
            self.period_type.position() < other.period_type.position()
        }
    }
}

proof fn lemma_entries_total()
    ensures
        total::<PeriodEntry>(),
        by_view::<PeriodEntry>(),
{
    assert forall|a: PeriodEntry, b: PeriodEntry|
        #![trigger PeriodEntry::precedes(a, b)]
        PeriodEntry::precedes(a, b) || PeriodEntry::precedes(b, a) || a@ == b@ by {
        lemma_text_less_total(a.source@, b.source@);
    }
    assert forall|a: PeriodEntry, b: PeriodEntry|
        #![trigger PeriodEntry::precedes(a, b)]
        a@ == b@ implies !PeriodEntry::precedes(a, b) by {
        lemma_text_less_asymmetric(a.source@, a.source@);
    }
}

/// Whether a source is asked for its periods: the one that is named, or,
/// without a name, each that takes part unnamed; and only if it supports the
/// symbol.
pub open spec fn is_asked(s: SourceInfo, pinned: Option<Seq<char>>) -> bool {
    s.supports && match pinned {
        Some(want) => s.name@ == want,
        None => s.auto_dispatch,
    }
}

/// The positions of the sources that are asked for their periods.
pub open spec fn asked_sources(sources: Seq<SourceInfo>, pinned: Option<Seq<char>>) -> Seq<usize>
    decreases sources.len(),
{
    if sources.len() == 0 {
        Seq::empty()
    } else {
        let t = asked_sources(sources.drop_last(), pinned);
        if is_asked(sources.last(), pinned) {
            t.push((sources.len() - 1) as usize)
        } else {
            t
        }
    }
}

/// The sources that are asked for their periods support the symbol and have the
/// name that is given or, without one, take part unnamed; all such sources are
/// asked, each once and in the order of registration.
pub proof fn law_all_that_have_periods_are_asked(
    sources: Seq<SourceInfo>,
    pinned: Option<Seq<char>>,
    p: usize,
)
    requires
        sources.len() <= usize::MAX,
    ensures
        asked_sources(sources, pinned).contains(p) <==> p < sources.len()
            && sources[p as int].supports && (match pinned {
            Some(want) => sources[p as int].name@ == want,
            None => sources[p as int].auto_dispatch,
        }),
        forall|i: int, j: int|
            0 <= i < j < asked_sources(sources, pinned).len() ==> #[trigger] asked_sources(
                sources,
                pinned,
            )[i] < #[trigger] asked_sources(sources, pinned)[j],
        forall|i: int|
            0 <= i < asked_sources(sources, pinned).len() ==> #[trigger] asked_sources(
                sources,
                pinned,
            )[i] < sources.len(),
    decreases sources.len(),
{
    if sources.len() > 0 {
        let d = sources.drop_last();
        let t = asked_sources(d, pinned);
        let all = asked_sources(sources, pinned);
        law_all_that_have_periods_are_asked(d, pinned, p);
        if t.contains(p) {
            let k = choose|k: int| 0 <= k < t.len() && t[k] == p;
            assert(all[k] == p);
        }
        if all.contains(p) && !t.contains(p) {
            let k = choose|k: int| 0 <= k < all.len() && all[k] == p;
            if k < t.len() {
                assert(t[k] == p);
            }
        }
        if p == sources.len() - 1 && is_asked(sources.last(), pinned) {
            assert(all[t.len() as int] == p);
        }
        assert forall|i: int, j: int| 0 <= i < j < all.len() implies #[trigger] all[i]
            < #[trigger] all[j] by {
            assert(all[i] == t[i]);
            if j < t.len() {
                assert(all[j] == t[j]);
            }
        }
    }
}

/// The positions of the sources that are asked for the periods of a symbol.
pub fn period_sources(symbol: &Symbol, sources: &Vec<SourceInfo>, pinned: Option<&str>) -> (r: Result<
    Vec<usize>,
    SiftError,
>)
    ensures
        match r {
            Ok(out) => out@ == asked_sources(sources@, opt_str(pinned))
                && out@.len() > 0,
            Err(e) => asked_sources(sources@, opt_str(pinned)).len() == 0 && e@
                == ErrorView::NoApplicableSource(
                "no source supports "@ + symbol.code@ + " for periods query"@,
            ),
        },
{
    let ghost want = opt_str(pinned);
    let mut out: Vec<usize> = Vec::new();
    let mut i: usize = 0;
    proof {
        assert(sources@.take(0) =~= Seq::empty());
    }
    while i < sources.len()
        invariant
            i <= sources@.len(),
            want == opt_str(pinned),
            out@ == asked_sources(sources@.take(i as int), want),
        decreases sources@.len() - i,
    {
        proof {
            let t = sources@.take(i as int + 1);
            assert(t.drop_last() =~= sources@.take(i as int));
            assert(t.last() == sources@[i as int]);
        }
        let chosen = match pinned {
            Some(name) => same(sources[i].name.as_str(), name),
            None => sources[i].auto_dispatch,
        };
        if chosen && sources[i].supports {
            out.push(i);
        }
        i = i + 1;
    }
    proof {
        assert(sources@.take(sources@.len() as int) =~= sources@);
    }
    if out.len() == 0 {
        Err(
            SiftError::NoApplicableSource(
                concat3("no source supports ", symbol.code.as_str(), " for periods query"),
            ),
        )
    } else {
        Ok(out)
    }
}

/// One reply: the source, and its periods unless it failed.
pub type PeriodReply = (String, Option<Vec<Period>>);

/// The entry of a period.
pub open spec fn entry_of(p: Period, source: Seq<char>) -> PeriodEntryView {
    PeriodEntryView {
        end: p.end(),
        period_type: match p.shape() {
            Some(t) => t,
            None => PeriodType::Annual,
        },
        source,
    }
}

/// Some reply holds the entry.
pub open spec fn replied(replies: Seq<PeriodReply>, e: PeriodEntryView) -> bool {
    exists|i: int, k: int| #[trigger] reply_holds(replies, i, k, e)
}

/// Period `k` of reply `i` is the entry.
pub open spec fn reply_holds(replies: Seq<PeriodReply>, i: int, k: int, e: PeriodEntryView) -> bool {
    0 <= i < replies.len() && (replies[i].1 matches Some(ps) && 0 <= k < ps@.len() && e == entry_of(
        ps@[k],
        replies[i].0@,
    ))
}

/// The periods that the sources have, each once for each source, the newest
/// first and for one end by source. A source that failed has none.
pub fn list_periods_union(replies: Vec<PeriodReply>) -> (out: Vec<PeriodEntry>)
    requires
        forall|i: int, k: int|
            0 <= i < replies@.len() && (#[trigger] replies@[i]).1 is Some && 0 <= k
                < replies@[i].1->Some_0@.len() ==> (#[trigger] replies@[i].1->Some_0@[k]).wf(),
    ensures
        ascending(out@),
        forall|e: PeriodEntryView| #[trigger]
            stands_for(out@).contains(e) <==> replied(replies@, e),
{
    let mut out: Vec<PeriodEntry> = Vec::new();
    let mut i: usize = 0;
    while i < replies.len()
        invariant
            i <= replies@.len(),
            forall|i: int, k: int|
                0 <= i < replies@.len() && (#[trigger] replies@[i]).1 is Some && 0 <= k
                    < replies@[i].1->Some_0@.len() ==> (#[trigger] replies@[i].1->Some_0@[k]).wf(),
            ascending(out@),
            forall|e: PeriodEntryView| #[trigger]
                stands_for(out@).contains(e) <==> replied(replies@.take(i as int), e),
        decreases replies@.len() - i,
    {
        let ghost before = stands_for(out@);
        match &replies[i].1 {
            Some(periods) => {
                let mut k: usize = 0;
                while k < periods.len()
                    invariant
                        i < replies@.len(),
                        replies@[i as int].1 == Some(*periods),
                        forall|k: int|
                            0 <= k < periods@.len() ==> (#[trigger] periods@[k]).wf(),
                        k <= periods@.len(),
                        ascending(out@),
                        forall|e: PeriodEntryView| #[trigger]
                            stands_for(out@).contains(e) <==> before.contains(e) || exists|j: int|
                                0 <= j < k && e == entry_of(
                                    #[trigger] periods@[j],
                                    replies@[i as int].0@,
                                ),
                    decreases periods@.len() - k,
                {
                    let p = periods[k];
                    let period_type = match p.period_type() {
                        Some(t) => t,
                        None => PeriodType::Annual,
                    };
                    let entry = PeriodEntry {
                        end: p.end_date(),
                        period_type,
                        source: replies[i].0.clone(),
                    };
                    let ghost prior = stands_for(out@);
                    let ghost name = replies@[i as int].0@;
                    let ghost x = entry@;
                    proof {
                        lemma_entries_total();
                        assert(x == entry_of(p, name));
                    }
                    insert_distinct(&mut out, entry);
                    proof {
                        assert forall|e: PeriodEntryView| #[trigger]
                            stands_for(out@).contains(e) <==> before.contains(e) || exists|j: int|
                                0 <= j < k + 1 && e == entry_of(#[trigger] periods@[j], name) by {
                            if prior.contains(e) && !before.contains(e) {
                                let j = choose|j: int|
                                    0 <= j < k && e == entry_of(#[trigger] periods@[j], name);
                                assert(e == entry_of(periods@[j], name));
                            }
                            if e == x {
                                assert(e == entry_of(periods@[k as int], name));
                            }
                            if exists|j: int|
                                0 <= j < k + 1 && e == entry_of(#[trigger] periods@[j], name) {
                                let j = choose|j: int|
                                    0 <= j < k + 1 && e == entry_of(#[trigger] periods@[j], name);
                                if j < k {
                                    assert(prior.contains(e));
                                }
                            }
                        }
                    }
                    k = k + 1;
                }
            },
            None => {},
        }
        proof {
            let now = replies@.take(i as int + 1);
            let done = replies@.take(i as int);
            let name = replies@[i as int].0@;
            assert forall|e: PeriodEntryView| #[trigger] stands_for(out@).contains(e) <==> replied(
                now,
                e,
            ) by {
                if stands_for(out@).contains(e) {
                    if before.contains(e) {
                        assert(replied(done, e));
                        let (a, b) = choose|a: int, b: int| #[trigger] reply_holds(done, a, b, e);
                        assert(reply_holds(now, a, b, e));
                    } else {
                        let ps = replies@[i as int].1->Some_0@;
                        let j = choose|j: int|
                            0 <= j < ps.len() && e == entry_of(#[trigger] ps[j], name);
                        assert(reply_holds(now, i as int, j, e));
                    }
                }
                if replied(now, e) {
                    let (a, b) = choose|a: int, b: int| #[trigger] reply_holds(now, a, b, e);
                    if a < i {
                        assert(reply_holds(done, a, b, e));
                        assert(replied(done, e));
                    } else {
                        let ps = replies@[i as int].1->Some_0@;
                        assert(e == entry_of(ps[b], name));
                    }
                }
            }
        }
        i = i + 1;
    }
    proof {
        assert(replies@.take(replies@.len() as int) =~= replies@);
    }
    out
}

/// Every period of every source that replied is listed, with its last day, its
/// kind (annual where it is of none) and its source, and nothing else is: an entry
/// is that of a reply with its source and of a period in it with its last day.
pub proof fn law_every_replied_period_is_listed(
    replies: Seq<PeriodReply>,
    out: Seq<PeriodEntry>,
    i: int,
    k: int,
    j: int,
)
    requires
        forall|e: PeriodEntryView| #[trigger] stands_for(out).contains(e) <==> replied(replies, e),
    ensures
        0 <= i < replies.len() && (replies[i].1 matches Some(ps) && 0 <= k < ps@.len()) ==> exists|
            m: int,
        |
            0 <= m < out.len() && (#[trigger] out[m]).source@ == replies[i].0@ && out[m].end
                == replies[i].1->0@[k].end() && (match replies[i].1->0@[k].shape() {
                Some(t) => out[m].period_type == t,
                None => out[m].period_type == PeriodType::Annual,
            }),
        0 <= j < out.len() ==> exists|a: int, b: int|
            0 <= a < replies.len() && replies[a].1 is Some && 0 <= b < replies[a].1->0@.len()
                && replies[a].0@ == out[j].source@ && (#[trigger] replies[a].1->0@[b]).end()
                == out[j].end,
{
    let s = stands_for(out);
    if 0 <= i < replies.len() && (replies[i].1 matches Some(ps) && 0 <= k < ps@.len()) {
        let e = entry_of(replies[i].1->0@[k], replies[i].0@);
        assert(reply_holds(replies, i, k, e));
        assert(s.contains(e));
        let m = choose|m: int| 0 <= m < s.len() && s[m] == e;
        assert(out[m]@ == e);
        assert(out[m].source@ == replies[i].0@);
    }
    if 0 <= j < out.len() {
        assert(s[j] == out[j]@);
        assert(s.contains(out[j]@));
        assert(replied(replies, out[j]@));
        let (a, b) = choose|a: int, b: int| #[trigger] reply_holds(replies, a, b, out[j]@);
        assert(replies[a].1->0@[b].end() == out[j].end);
    }
}

/// Of two entries in the list the first has the later day; for the same day its
/// source comes first by name, or it is the same source.
pub proof fn law_later_periods_are_listed_first(out: Seq<PeriodEntry>, i: int, j: int)
    requires
        ascending(out),
        0 <= i < j < out.len(),
    ensures
        ({
            let a = out[i];
            let b = out[j];
            ||| a.end.year > b.end.year
            ||| a.end.year == b.end.year && a.end.month > b.end.month
            ||| a.end.year == b.end.year && a.end.month == b.end.month && a.end.day > b.end.day
            ||| a.end == b.end && text_less(a.source@, b.source@)
            ||| a.end == b.end && a.source@ == b.source@ && a.period_type != b.period_type
        }),
{
    assert(PeriodEntry::precedes(out[i], out[j]));
}

/// The list of periods is determined by the replies.
pub proof fn law_periods_union_is_determined(
    replies: Seq<PeriodReply>,
    a: Seq<PeriodEntry>,
    b: Seq<PeriodEntry>,
)
    requires
        ascending(a),
        ascending(b),
        forall|e: PeriodEntryView| #[trigger] stands_for(a).contains(e) <==> replied(replies, e),
        forall|e: PeriodEntryView| #[trigger] stands_for(b).contains(e) <==> replied(replies, e),
    ensures
        stands_for(a) == stands_for(b),
{
    lemma_entries_total();
    crate::order::lemma_ascending_unique(a, b);
}

// ---------------------------------------------------------------------------
// Records
// ---------------------------------------------------------------------------

/// The scope of a record: symbol, market, statement, scope and source.
pub open spec fn scope_texts(
    code: Seq<char>,
    market: crate::domain::market::Market,
    stmt: Statement,
    scope: Scope,
    source: SourceTag,
) -> Seq<Seq<char>> {
    seq![code, market.lower_label(), stmt.label(), scope.label(), source.label()]
}

/// Records of different symbols, markets, statements, scopes or sources have
/// different scopes.
pub proof fn law_record_scopes_differ(
    code1: Seq<char>,
    market1: crate::domain::market::Market,
    stmt1: Statement,
    scope1: Scope,
    source1: SourceTag,
    code2: Seq<char>,
    market2: crate::domain::market::Market,
    stmt2: Statement,
    scope2: Scope,
    source2: SourceTag,
)
    requires
        scope_texts(code1, market1, stmt1, scope1, source1) == scope_texts(
            code2,
            market2,
            stmt2,
            scope2,
            source2,
        ),
    ensures
        code1 == code2,
        market1 == market2,
        stmt1 == stmt2,
        scope1 == scope2,
        source1 == source2,
{
    let a = scope_texts(code1, market1, stmt1, scope1, source1);
    let b = scope_texts(code2, market2, stmt2, scope2, source2);
    assert(a[0] == code1 && a[1] == market1.lower_label() && a[2] == stmt1.label() && a[3]
        == scope1.label() && a[4] == source1.label());
    assert(b[0] == code2 && b[1] == market2.lower_label() && b[2] == stmt2.label() && b[3]
        == scope2.label() && b[4] == source2.label());
    crate::domain::financial_row::law_source_label_round_trip(source1, source1.label());
    crate::domain::financial_row::law_source_label_round_trip(source2, source2.label());
    reveal_strlit("cn-a");
    reveal_strlit("hk");
    reveal_strlit("us");
    assert("cn-a"@[0] == 'c' && "hk"@[0] == 'h' && "us"@[0] == 'u');
    reveal_strlit("income");
    reveal_strlit("balance");
    reveal_strlit("cashflow");
    reveal_strlit("indicator");
    assert("income"@.len() == 6 && "balance"@.len() == 7 && "cashflow"@.len() == 8
        && "indicator"@.len() == 9);
    reveal_strlit("consolidated");
    reveal_strlit("parent");
    assert("consolidated"@.len() == 12 && "parent"@.len() == 6);
}

/// The scope of a record: symbol, market, statement, scope and source.
pub fn financials_scope<'a>(
    sym: &'a Symbol,
    stmt: Statement,
    scope: Scope,
    source: SourceTag,
) -> (out: Vec<&'a str>)
    ensures
        str_views(out@) == scope_texts(sym.code@, sym.market, stmt, scope, source),
{
    let out = vec![
        sym.code.as_str(),
        sym.market.as_lower(),
        stmt.as_str(),
        scope.as_str(),
        source.as_str(),
    ];
    proof {
        assert(str_views(out@) =~= scope_texts(sym.code@, sym.market, stmt, scope, source));
    }
    out
}

/// The key of the record of a period; none for a year before 0.
pub fn financials_key(
    sym: &Symbol,
    stmt: Statement,
    period: Period,
    scope: Scope,
    source: SourceTag,
) -> (r: Option<Vec<u8>>)
    requires
        period.wf(),
    ensures
        match r {
            Some(key) => period.end().year >= 0 && key@ == blake3_digest(
                encode_utf8(
                    key_text(
                        Kind::Financials,
                        scope_texts(sym.code@, sym.market, stmt, scope, source),
                        period.end().iso(),
                    ),
                ),
            ),
            None => period.end().year < 0,
        },
{
    let end = period.end_date();
    if end.year < 0 {
        return None;
    }
    let parts = financials_scope(sym, stmt, scope, source);
    let id = end.to_iso();
    Some(make_key(Kind::Financials, parts.as_slice(), id.as_str()))
}

/// The rows of a record that was found: `None` unless it says when it was
/// written, that is recent enough for the period, and its body is a list of
/// rows. Items keep the labels that they were written with.
pub fn financials_cache_get(
    created_at: Option<i128>,
    body: Option<Vec<StoredRow>>,
    now: i128,
    period: Period,
    today: Date,
) -> (r: Option<Vec<FinancialRow>>)
    requires
        created_at matches Some(t) ==> instant(t as int),
        instant(now as int),
        period.wf(),
        today.wf(),
    ensures
        match (created_at, body) {
            (Some(written), Some(stored_rows)) => if fresh_at(
                now - written,
                bucket_of_age(today.number() - period.end().number()),
            ) {
                r matches Some(rows) && row_views(rows@) == stored_views(stored_rows@).map_values(
                    |s: StoredView| restored(s),
                )
            } else {
                r is None
            },
            _ => r is None,
        },
{
    let written = match created_at {
        Some(t) => t,
        None => return None,
    };
    let bucket = bucket_for(period.end_date(), today);
    if !is_fresh(written, now, bucket) {
        return None;
    }
    match body {
        Some(stored_rows) => Some(restore_all(stored_rows)),
        None => None,
    }
}

fn restore_all(stored_rows: Vec<StoredRow>) -> (out: Vec<FinancialRow>)
    ensures
        row_views(out@) == stored_views(stored_rows@).map_values(|s: StoredView| restored(s)),
{
    let ghost v = stored_views(stored_rows@);
    let mut out: Vec<FinancialRow> = Vec::new();
    for s in it: stored_rows
        invariant
            it.seq() == stored_rows@,
            v == stored_views(stored_rows@),
            out@.len() == it.index(),
            forall|k: int| 0 <= k < it.index() ==> (#[trigger] out@[k])@ == restored(v[k]),
    {
        out.push(s.into_row());
    }
    proof {
        assert(row_views(out@) =~= v.map_values(|s: StoredView| restored(s)));
    }
    out
}

/// A row is of the same symbol, statement and scope as another.
pub open spec fn agrees(r: RowView, head: RowView) -> bool {
    r.symbol == head.symbol && r.statement == head.statement && r.scope == head.scope
}

/// The rows that agree with the first.
pub open spec fn agreeing(rows: Seq<RowView>) -> Seq<RowView> {
    rows.filter(|r: RowView| agrees(r, rows[0]))
}

/// The rows whose end has the given text.
pub open spec fn of_end(rows: Seq<RowView>, end: Seq<char>) -> Seq<RowView> {
    rows.filter(|r: RowView| r.period.iso() == end)
}

/// Some row's end has the given text.
pub open spec fn has_end(rows: Seq<RowView>, end: Seq<char>) -> bool {
    exists|k: int| 0 <= k < rows.len() && (#[trigger] rows[k]).period.iso() == end
}

/// What goes into the cache: for each end, the rows of its record; and how many
/// rows were left out because they are of another symbol, statement or scope.
#[derive(Debug)]
pub struct CachePut {
    pub items: Vec<(String, Vec<StoredRow>)>,
    pub skipped: usize,
}

/// The ends of the items.
pub open spec fn item_ends(items: Seq<(String, Vec<StoredRow>)>) -> Seq<Seq<char>> {
    items.map_values(|i: (String, Vec<StoredRow>)| i.0@)
}

/// What is put into the cache is got back: the rows of one end, as they were,
/// in their order. Left out are rows of which the cache does not keep
/// everything.
pub proof fn law_cached_rows_read_back(rows: Seq<RowView>, end: Seq<char>)
    requires
        forall|i: int| 0 <= i < rows.len() ==> kept_whole(#[trigger] rows[i]),
    ensures
        of_end(agreeing(rows), end).map_values(|r: RowView| stored(r)).map_values(
            |s: StoredView| restored(s),
        ) == of_end(agreeing(rows), end),
{
    let kept = agreeing(rows);
    lemma_filter_keeps(rows, |r: RowView| agrees(r, rows[0]));
    lemma_filter_keeps(kept, |r: RowView| r.period.iso() == end);
    let put = of_end(kept, end);
    let got = put.map_values(|r: RowView| stored(r)).map_values(|s: StoredView| restored(s));
    assert forall|i: int| 0 <= i < put.len() implies got[i] == put[i] by {
        assert(kept_whole(put[i]));
        law_stored_row_reads_back(put[i]);
    }
    assert(got =~= put);
}

proof fn lemma_filtered(rows: Seq<RowView>, wanted: spec_fn(RowView) -> bool, r: RowView)
    ensures
        rows.filter(wanted).contains(r) <==> rows.contains(r) && wanted(r),
    decreases rows.len(),
{
    reveal(Seq::filter);
    if rows.len() > 0 {
        let d = rows.drop_last();
        let before = d.filter(wanted);
        let kept = rows.filter(wanted);
        lemma_filtered(d, wanted, r);
        assert(rows.contains(r) <==> d.contains(r) || r == rows.last()) by {
            if rows.contains(r) {
                let i = choose|i: int| 0 <= i < rows.len() && rows[i] == r;
                if i < d.len() {
                    assert(d[i] == r);
                }
            }
            if d.contains(r) {
                let i = choose|i: int| 0 <= i < d.len() && d[i] == r;
                assert(rows[i] == r);
            }
            assert(rows[rows.len() - 1] == rows.last());
        }
        if before.contains(r) {
            let i = choose|i: int| 0 <= i < before.len() && before[i] == r;
            assert(kept[i] == r);
        }
        if kept.contains(r) {
            let i = choose|i: int| 0 <= i < kept.len() && kept[i] == r;
            if i < before.len() {
                assert(before[i] == r);
            }
        }
        if wanted(rows.last()) {
            assert(kept[before.len() as int] == rows.last());
        }
    }
}

/// Every row that goes into the cache has its end among the ends of the records,
/// and every end there is that of a row.
pub proof fn law_every_end_has_its_rows(rows: Seq<RowView>, i: int, end: Seq<char>)
    ensures
        0 <= i < rows.len() ==> has_end(rows, rows[i].period.iso()),
        has_end(rows, end) <==> of_end(rows, end).len() > 0,
{
    let there = |x: RowView| x.period.iso() == end;
    let kept = of_end(rows, end);
    if has_end(rows, end) {
        let k = choose|k: int| 0 <= k < rows.len() && (#[trigger] rows[k]).period.iso() == end;
        assert(rows.contains(rows[k]));
        lemma_filtered(rows, there, rows[k]);
    }
    if kept.len() > 0 {
        assert(kept.contains(kept[0]));
        lemma_filtered(rows, there, kept[0]);
        let k = choose|k: int| 0 <= k < rows.len() && rows[k] == kept[0];
        assert(rows[k].period.iso() == end);
    }
}

/// The rows of an end keep the order in which they came, each as often as it came.
pub proof fn law_rows_of_an_end_keep_their_order(
    a: Seq<RowView>,
    r: RowView,
    b: Seq<RowView>,
    end: Seq<char>,
)
    ensures
        of_end(a + seq![r] + b, end) == of_end(a, end) + (if r.period.iso() == end {
            seq![r]
        } else {
            Seq::empty()
        }) + of_end(b, end),
{
    let there = |x: RowView| x.period.iso() == end;
    Seq::filter_distributes_over_add(a + seq![r], b, there);
    Seq::filter_distributes_over_add(a, seq![r], there);
    assert(seq![r].filter(there) =~= if there(r) {
        seq![r]
    } else {
        Seq::empty()
    }) by {
        reveal_with_fuel(Seq::filter, 2);
        assert(seq![r].drop_last() =~= Seq::empty());
        assert(seq![r].last() == r);
    }
}

/// What goes into the cache are the rows of the first row's symbol, statement and
/// scope, all of them and no others, each under the text of its own end.
pub proof fn law_rows_are_cached_under_their_own_end(rows: Seq<RowView>, end: Seq<char>, r: RowView)
    requires
        rows.len() > 0,
    ensures
        of_end(agreeing(rows), end).contains(r) <==> rows.contains(r) && r.symbol.code
            == rows[0].symbol.code && r.symbol.market == rows[0].symbol.market && r.symbol.kind
            == rows[0].symbol.kind && r.statement == rows[0].statement && r.scope == rows[0].scope
            && r.period.iso() == end,
{
    let head = rows[0];
    let like = |x: RowView| agrees(x, head);
    let there = |x: RowView| x.period.iso() == end;
    let kept = agreeing(rows);
    lemma_filtered(rows, like, r);
    lemma_filtered(kept, there, r);
}

fn row_agrees(r: &FinancialRow, head: &FinancialRow) -> (b: bool)
    ensures
        b == agrees(r@, head@),
{
    same(r.symbol.code.as_str(), head.symbol.code.as_str()) && r.symbol.market == head.symbol.market
        && r.symbol.kind == head.symbol.kind && r.statement == head.statement && r.scope
        == head.scope
}

/// Copies of the rows that agree with the first.
fn take_agreeing(rows: &[FinancialRow]) -> (out: Vec<&FinancialRow>)
    requires
        rows@.len() > 0,
    ensures
        ref_views(out@) == agreeing(row_views(rows@)),
        forall|i: int| 0 <= i < out@.len() ==> rows@.contains(*#[trigger] out@[i]),
        out@.len() <= rows@.len(),
{
    let ghost v = row_views(rows@);
    let ghost pred = |r: RowView| agrees(r, v[0]);
    let mut out: Vec<&FinancialRow> = Vec::new();
    let mut i: usize = 0;
    proof {
        reveal(Seq::filter);
        assert(v.take(0) =~= Seq::empty());
        assert(ref_views(out@) =~= v.take(0).filter(pred));
    }
    while i < rows.len()
        invariant
            v == row_views(rows@),
            pred == (|r: RowView| agrees(r, v[0])),
            rows@.len() > 0,
            i <= rows@.len(),
            out@.len() <= i,
            ref_views(out@) == v.take(i as int).filter(pred),
            forall|k: int| 0 <= k < out@.len() ==> rows@.contains(*#[trigger] out@[k]),
        decreases rows@.len() - i,
    {
        let ghost done = v.take(i as int);
        let ghost before = ref_views(out@);
        proof {
            assert(v.take(i as int + 1) =~= done.push(rows@[i as int]@));
            done.lemma_filter_push(rows@[i as int]@, pred);
        }
        if row_agrees(&rows[i], &rows[0]) {
            out.push(&rows[i]);
            proof {
                assert(ref_views(out@) =~= before.push(rows@[i as int]@));
                assert(rows@.contains(rows@[i as int]));
            }
        }
        i = i + 1;
    }
    proof {
        assert(v.take(v.len() as int) =~= v);
    }
    out
}

/// The facts that borrowed rows hold.
pub open spec fn ref_views(rows: Seq<&FinancialRow>) -> Seq<RowView> {
    rows.map_values(|r: &FinancialRow| r@)
}

/// The stored forms of the rows whose end has the given text.
fn stored_of_end(rows: &Vec<&FinancialRow>, end: &str) -> (out: Vec<StoredRow>)
    requires
        forall|i: int| 0 <= i < rows@.len() ==> (#[trigger] rows@[i])@.dated(),
    ensures
        stored_views(out@) == of_end(ref_views(rows@), end@).map_values(|r: RowView| stored(r)),
{
    let ghost v = ref_views(rows@);
    let ghost pred = |r: RowView| r.period.iso() == end@;
    let mut out: Vec<StoredRow> = Vec::new();
    let mut i: usize = 0;
    proof {
        reveal(Seq::filter);
        assert(v.take(0) =~= Seq::empty());
        assert(stored_views(out@) =~= v.take(0).filter(pred).map_values(|r: RowView| stored(r)));
    }
    while i < rows.len()
        invariant
            v == ref_views(rows@),
            pred == (|r: RowView| r.period.iso() == end@),
            forall|i: int| 0 <= i < rows@.len() ==> (#[trigger] rows@[i])@.dated(),
            i <= rows@.len(),
            stored_views(out@) == v.take(i as int).filter(pred).map_values(|r: RowView| stored(r)),
        decreases rows@.len() - i,
    {
        let ghost done = v.take(i as int);
        let ghost f = done.filter(pred);
        proof {
            assert(v.take(i as int + 1) =~= done.push(rows@[i as int]@));
            done.lemma_filter_push(rows@[i as int]@, pred);
        }
        let text = rows[i].period.to_iso();
        if same(text.as_str(), end) {
            let ghost before = stored_views(out@);
            out.push(StoredRow::from_row(rows[i]));
            proof {
                let x = rows@[i as int]@;
                assert(stored_views(out@) =~= before.push(stored(x)));
                assert(f.push(x).map_values(|r: RowView| stored(r)) =~= f.map_values(
                    |r: RowView| stored(r),
                ).push(stored(x)));
            }
        }
        i = i + 1;
    }
    proof {
        assert(v.take(v.len() as int) =~= v);
    }
    out
}

/// What goes into the cache from one fetch: the rows that agree with the first
/// on symbol, statement and scope, by the text of their end.
pub fn financials_cache_put(rows: &[FinancialRow]) -> (put: CachePut)
    requires
        forall|i: int| 0 <= i < rows@.len() ==> (#[trigger] rows@[i])@.dated(),
    ensures
        rows@.len() == 0 ==> put.items@.len() == 0 && put.skipped == 0,
        rows@.len() > 0 ==> {
            let kept = agreeing(row_views(rows@));
            let ends = item_ends(put.items@);
            &&& put.skipped == rows@.len() - kept.len()
            &&& ascending_texts(ends)
            &&& forall|t: Seq<char>| #[trigger] ends.contains(t) <==> has_end(kept, t)
            &&& forall|i: int|
                0 <= i < put.items@.len() ==> stored_views((#[trigger] put.items@[i]).1@)
                    == of_end(kept, put.items@[i].0@).map_values(|r: RowView| stored(r))
        },
{
    if rows.len() == 0 {
        return CachePut { items: Vec::new(), skipped: 0 };
    }
    let kept = take_agreeing(rows);
    let ghost v = ref_views(kept@);
    proof {
        assert forall|i: int| 0 <= i < kept@.len() implies (#[trigger] kept@[i])@.dated() by {
            let k = choose|k: int| 0 <= k < rows@.len() && rows@[k] == *kept@[i];
            assert(rows@[k]@.dated());
        }
    }
    let mut ends = TextSet::new();
    let mut i: usize = 0;
    while i < kept.len()
        invariant
            i <= kept@.len(),
            v == ref_views(kept@),
            forall|i: int| 0 <= i < kept@.len() ==> (#[trigger] kept@[i])@.dated(),
            ends.wf(),
            forall|t: Seq<char>| #[trigger]
                ends@.contains(t) <==> has_end(v.take(i as int), t),
        decreases kept@.len() - i,
    {
        let text = kept[i].period.to_iso();
        let ghost before = ends@;
        let ghost x = text@;
        ends.insert(text);
        proof {
            let done = v.take(i as int);
            let now = v.take(i as int + 1);
            assert forall|t: Seq<char>| #[trigger] ends@.contains(t) <==> has_end(now, t) by {
                if before.contains(t) {
                    assert(has_end(done, t));
                    let k = choose|k: int|
                        0 <= k < done.len() && (#[trigger] done[k]).period.iso() == t;
                    assert(now[k].period.iso() == t);
                }
                assert(now[i as int].period.iso() == x);
                if has_end(now, t) {
                    let k = choose|k: int|
                        0 <= k < now.len() && (#[trigger] now[k]).period.iso() == t;
                    if k < i {
                        assert(done[k].period.iso() == t);
                        assert(has_end(done, t));
                    }
                }
            }
        }
        i = i + 1;
    }
    proof {
        assert(v.take(v.len() as int) =~= v);
    }
    let ghost all = ends@;
    let texts = ends.drain();
    let ghost tv = views(texts@);
    let mut items: Vec<(String, Vec<StoredRow>)> = Vec::new();
    let mut i: usize = 0;
    while i < texts.len()
        invariant
            i <= texts@.len(),
            tv == views(texts@),
            v == ref_views(kept@),
            forall|i: int| 0 <= i < kept@.len() ==> (#[trigger] kept@[i])@.dated(),
            items@.len() == i,
            forall|k: int| 0 <= k < i ==> (#[trigger] items@[k]).0@ == tv[k],
            forall|k: int|
                0 <= k < i ==> stored_views((#[trigger] items@[k]).1@) == of_end(
                    v,
                    tv[k],
                ).map_values(|r: RowView| stored(r)),
        decreases texts@.len() - i,
    {
        let body = stored_of_end(&kept, texts[i].as_str());
        items.push((texts[i].clone(), body));
        i = i + 1;
    }
    proof {
        let e = item_ends(items@);
        assert(e =~= tv);
        assert forall|t: Seq<char>| #[trigger] e.contains(t) <==> has_end(v, t) by {
            assert(tv.to_set().contains(t) <==> tv.contains(t));
        }
    }
    CachePut { items, skipped: rows.len() - kept.len() }
}

/// The warning for each row that was left out.
pub fn skip_warning(src_name: &str) -> (out: String)
    ensures
        out@ == "[warn] "@ + src_name@
            + " cache write: skipping row that disagrees on (symbol/statement/scope) with batch head"@,
{
    concat3(
        "[warn] ",
        src_name,
        " cache write: skipping row that disagrees on (symbol/statement/scope) with batch head",
    )
}

} // verus!
