//! Announcements: what is asked for, what the pipe brings, and how downloads go.

use vstd::prelude::*;
use vstd::string::*;

use crate::date::{Date, iso8601_date, iso8601_parse};
use crate::domain::announcement::{
    AnnouncementRow, AnnouncementView, Category, CategoryView, announcement_views, category_views,
    dictionary_fault, first_named, law_members_are_other_types, lemma_sound_type_found,
    lemma_type_named, lookup, type_named,
};
use crate::domain::market::InstrumentKind;
use crate::domain::period::{number_text, parse_number};
use crate::domain::symbol::resolved;
use crate::domain::Symbol;
use crate::error::{ErrorView, SiftError, concat2, concat3, concat4, concat5, outcome};
use crate::fetch::announce::StdinContext;
use crate::sources::cninfo::{ResolvedSymbol, ResolvedView};
use crate::text::{
    chars_of, debug_quoted, decimal, decimal_string, is_space, law_white_space_around_is_trimmed,
    lemma_occurs_between, occurs, opt_str, opt_text, quoted, same, to_lower, trim, trimmed, views,
};
use crate::text_map::{TextMap, text_values};

verus! {

// ---------------------------------------------------------------------------
// Options
// ---------------------------------------------------------------------------

/// The options of `announce list`.
#[derive(Debug)]
pub struct ListArgs {
    pub symbols: Vec<String>,
    pub type_zh: Option<String>,
    pub keyword: Option<String>,
    pub start: Option<Date>,
    pub end: Option<Date>,
    pub limit: u32,
}

/// The options of `announce show`.
#[derive(Debug)]
pub struct ShowArgs {
    pub id: String,
}

/// The options of `announce download`.
#[derive(Debug)]
pub struct DownloadArgs {
    pub ids: Vec<String>,
    pub output: String,
}

#[derive(Debug)]
pub enum AnnounceCmd {
    Types,
    List(ListArgs),
    Show(ShowArgs),
    Download(DownloadArgs),
}

/// What is said of a day that was read from an option.
pub open spec fn option_day(s: Seq<char>, read: Result<Date, Seq<char>>) -> Result<
    Date,
    Seq<char>,
> {
    match read {
        Ok(d) => Ok(d),
        Err(e) => Err("invalid date "@ + quoted(s) + ": "@ + e),
    }
}

/// A day that was read from an option is that day; what is no day is told with its
/// text and the cause.
pub proof fn law_a_day_that_was_read_counts(s: Seq<char>, d: Date, cause: Seq<char>)
    ensures
        option_day(s, Ok(d)) == Ok::<Date, Seq<char>>(d),
        option_day(s, Err(cause)) matches Err(text) && occurs(text, quoted(s))
            && cause.is_suffix_of(text),
{
    let text = "invalid date "@ + quoted(s) + ": "@ + cause;
    lemma_occurs_between("invalid date "@, quoted(s), ": "@ + cause);
    assert("invalid date "@ + quoted(s) + (": "@ + cause) =~= text);
    assert(text.subrange(text.len() - cause.len(), text.len() as int) =~= cause);
}

/// A day that was read from an option, or the text that says why none was.
pub fn read_option_day(s: &str, read: Result<Date, String>) -> (r: Result<Date, String>)
    ensures
        match r {
            Ok(d) => read == Ok::<Date, String>(d),
            Err(t) => read matches Err(e) && t@ == "invalid date "@ + quoted(s@) + ": "@ + e@,
        },
{
    match read {
        Ok(d) => Ok(d),
        Err(e) => Err(concat4("invalid date ", debug_quoted(s).as_str(), ": ", e.as_str())),
    }
}

/// The day that an ISO 8601 text names.
pub fn parse_iso_date(s: &str) -> (r: Result<Date, String>)
    ensures
        match r {
            Ok(d) => option_day(s@, iso8601_date(s@)) == Ok::<Date, Seq<char>>(d) && d.wf(),
            Err(t) => option_day(s@, iso8601_date(s@)) == Err::<Date, Seq<char>>(t@),
        },
{
    read_option_day(s, iso8601_parse(s))
}

/// Whether a list is bounded: by symbols, or by a day on either side.
pub fn validate_list_args(args: &ListArgs) -> (r: Result<(), SiftError>)
    ensures
        match r {
            Ok(()) => args.symbols@.len() > 0 || args.start is Some || args.end is Some,
            Err(e) => args.symbols@.len() == 0 && args.start is None && args.end is None && e@
                == ErrorView::Internal(
                "`announce list` needs <symbol>... or --start / --end (at least one)"@,
            ),
        },
{
    if args.symbols.len() == 0 && args.start.is_none() && args.end.is_none() {
        return Err(
            SiftError::Internal(
                "`announce list` needs <symbol>... or --start / --end (at least one)".to_owned(),
            ),
        );
    }
    Ok(())
}

/// The code to ask for; an index has no announcements.
pub open spec fn code_of(raw: Seq<char>) -> Result<Seq<char>, ErrorView> {
    match resolved(to_lower(trim(raw))) {
        Err(e) => Err(e),
        Ok(s) => if s.kind == InstrumentKind::Index {
            Err(
                ErrorView::NoApplicableSource(
                    "index "@ + s.display()
                        + " (`sift announce` covers equities only; use `sift quote` / `sift bars`)"@,
                ),
            )
        } else {
            Ok(s.code)
        },
    }
}

/// Announcements are asked for by the code of the symbol that a text names; they
/// cannot be had for an index, nor for a text that names no symbol.
pub proof fn law_announcements_are_asked_for_by_code(raw: Seq<char>)
    ensures
        match resolved(to_lower(trim(raw))) {
            Ok(s) if s.kind == InstrumentKind::Equity => code_of(raw) == Ok::<
                Seq<char>,
                ErrorView,
            >(s.code),
            Ok(_) => code_of(raw) matches Err(e) && e is NoApplicableSource,
            Err(e) => code_of(raw) == Err::<Seq<char>, ErrorView>(e),
        },
{
}

/// The code that a text names; an index is refused.
pub fn announce_code(raw: &str) -> (r: Result<String, SiftError>)
    ensures
        outcome(r) == code_of(raw@),
{
    let sym = match Symbol::parse(raw) {
        Ok(s) => s,
        Err(e) => return Err(e),
    };
    if sym.kind == InstrumentKind::Index {
        return Err(
            SiftError::NoApplicableSource(
                concat3(
                    "index ",
                    sym.display_symbol().as_str(),
                    " (`sift announce` covers equities only; use `sift quote` / `sift bars`)",
                ),
            ),
        );
    }
    Ok(sym.code)
}

/// The symbols that answers give, or the first error among them.
pub open spec fn all_resolved(answers: Seq<Result<ResolvedSymbol, SiftError>>) -> Result<
    Seq<ResolvedView>,
    ErrorView,
>
    decreases answers.len(),
{
    if answers.len() == 0 {
        Ok(Seq::empty())
    } else {
        match all_resolved(answers.drop_last()) {
            Err(e) => Err(e),
            Ok(v) => match answers.last() {
                Ok(s) => Ok(v.push(s@)),
                Err(e) => Err(e@),
            },
        }
    }
}

/// Symbols are resolved all or not at all: with every answer given, each is there
/// at its place; otherwise the error is that of the first answer that failed.
pub proof fn law_the_first_failure_stops_the_list(
    answers: Seq<Result<ResolvedSymbol, SiftError>>,
    n: int,
)
    requires
        0 <= n <= answers.len(),
        forall|i: int| 0 <= i < n ==> (#[trigger] answers[i]) is Ok,
        n < answers.len() ==> answers[n] is Err,
    ensures
        n == answers.len() ==> (all_resolved(answers) matches Ok(v) && v.len() == n && forall|
            i: int,
        |
            0 <= i < n ==> (#[trigger] v[i]) == answers[i]->Ok_0@),
        n < answers.len() ==> all_resolved(answers) == Err::<Seq<ResolvedView>, ErrorView>(
            answers[n]->Err_0@,
        ),
    decreases answers.len(),
{
    if answers.len() > 0 {
        let d = answers.drop_last();
        if n == answers.len() {
            assert(answers[n - 1] is Ok);
            law_the_first_failure_stops_the_list(d, n - 1);
        } else {
            law_the_first_failure_stops_the_list(d, n);
        }
    }
}

/// The symbols that a list asks for. One that is not resolved ends it before
/// any query: a typing error is to be mended first.
pub fn resolve_all(answers: Vec<Result<ResolvedSymbol, SiftError>>) -> (r: Result<
    Vec<ResolvedSymbol>,
    SiftError,
>)
    ensures
        match r {
            Ok(v) => all_resolved(answers@) == Ok::<Seq<ResolvedView>, ErrorView>(
                v@.map_values(|s: ResolvedSymbol| s@),
            ),
            Err(e) => all_resolved(answers@) == Err::<Seq<ResolvedView>, ErrorView>(e@),
        },
{
    let ghost all = answers@;
    let mut out: Vec<ResolvedSymbol> = Vec::new();
    let mut first: Option<SiftError> = None;
    proof {
        assert(all.take(0) =~= Seq::empty());
        assert(out@.map_values(|s: ResolvedSymbol| s@) =~= Seq::empty());
    }
    for answer in it: answers
        invariant
            it.seq() == all,
            match first {
                None => all_resolved(all.take(it.index() as int)) == Ok::<
                    Seq<ResolvedView>,
                    ErrorView,
                >(out@.map_values(|s: ResolvedSymbol| s@)),
                Some(e) => all_resolved(all.take(it.index() as int)) == Err::<
                    Seq<ResolvedView>,
                    ErrorView,
                >(e@),
            },
    {
        let ghost n = it.index() as int;
        let ghost before = out@.map_values(|s: ResolvedSymbol| s@);
        proof {
            assert(all.take(n + 1).drop_last() =~= all.take(n));
            assert(all.take(n + 1).last() == answer);
        }
        match answer {
            Ok(s) => {
                out.push(s);
                proof {
                    assert(out@.map_values(|s: ResolvedSymbol| s@) =~= before.push(s@));
                }
            },
            Err(e) => {
                if first.is_none() {
                    first = Some(e);
                }
            },
        }
    }
    proof {
        assert(all.take(all.len() as int) =~= all);
    }
    match first {
        Some(e) => Err(e),
        None => Ok(out),
    }
}

// ---------------------------------------------------------------------------
// Types
// ---------------------------------------------------------------------------

/// The key of a type; none for one that stands for others.
pub open spec fn key_of(cats: Seq<CategoryView>, zh: Seq<char>) -> Option<Seq<char>> {
    match type_named(cats, zh) {
        Some(c) => c.category,
        None => None,
    }
}

/// The type with the given name, as the dictionary has it.
fn find_type<'a>(cats: &'a [Category], zh: &str) -> (r: Option<&'a Category>)
    ensures
        match r {
            Some(c) => type_named(category_views(cats@), zh@) == Some(c@),
            None => type_named(category_views(cats@), zh@) is None,
        },
{
    let found = lookup(cats, zh);
    proof {
        lemma_type_named(category_views(cats@), zh@);
        if found is Some {
            let i = choose|i: int| #[trigger]
                first_named(category_views(cats@), zh@, i) && *found->Some_0 == cats@[i];
            assert(category_views(cats@)[i] == cats@[i]@);
        }
    }
    found
}

/// The key of a type; none for one that stands for others.
pub fn lookup_category(cats: &[Category], zh: &str) -> (r: Option<String>)
    ensures
        opt_text(r) == key_of(category_views(cats@), zh@),
{
    match find_type(cats, zh) {
        Some(c) => match &c.category {
            Some(key) => Some(key.clone()),
            None => None,
        },
        None => None,
    }
}

/// The keys of the members of an aggregate, or the error of the first that has
/// none.
pub open spec fn member_keys(cats: Seq<CategoryView>, aggs: Seq<Seq<char>>) -> Result<
    Seq<Seq<char>>,
    ErrorView,
>
    decreases aggs.len(),
{
    if aggs.len() == 0 {
        Ok(Seq::empty())
    } else {
        match member_keys(cats, aggs.drop_last()) {
            Err(e) => Err(e),
            Ok(keys) => match key_of(cats, aggs.last()) {
                Some(key) => Ok(keys.push(key)),
                None => Err(
                    ErrorView::Internal(
                        "aggregate target "@ + quoted(aggs.last()) + " has no category"@,
                    ),
                ),
            },
        }
    }
}

proof fn lemma_member_keys_error(
    cats: Seq<CategoryView>,
    aggs: Seq<Seq<char>>,
    n: int,
    e: ErrorView,
)
    requires
        0 <= n <= aggs.len(),
        member_keys(cats, aggs.take(n)) == Err::<Seq<Seq<char>>, ErrorView>(e),
    ensures
        member_keys(cats, aggs) == Err::<Seq<Seq<char>>, ErrorView>(e),
    decreases aggs.len() - n,
{
    if n < aggs.len() {
        assert(aggs.take(n + 1).drop_last() =~= aggs.take(n));
        lemma_member_keys_error(cats, aggs, n + 1, e);
    } else {
        assert(aggs.take(n) =~= aggs);
    }
}

/// The keys to ask for: those of the members of an aggregate, the one key of
/// any other type, the empty text for no type.
pub open spec fn expanded(cats: Seq<CategoryView>, zh: Option<Seq<char>>) -> Result<
    Seq<Seq<char>>,
    ErrorView,
> {
    match zh {
        None => Ok(seq![Seq::empty()]),
        Some(zh) => match type_named(cats, zh) {
            None => Err(
                ErrorView::Internal("dictionary unexpectedly missing "@ + quoted(zh)),
            ),
            Some(c) => match c.aggregates {
                Some(aggs) => member_keys(cats, aggs),
                None => match c.category {
                    Some(key) => Ok(seq![key]),
                    None => Ok(seq![Seq::empty()]),
                },
            },
        },
    }
}

proof fn lemma_member_keys(cats: Seq<CategoryView>, aggs: Seq<Seq<char>>)
    requires
        forall|k: int| 0 <= k < aggs.len() ==> key_of(cats, #[trigger] aggs[k]) is Some,
    ensures
        member_keys(cats, aggs) is Ok,
        member_keys(cats, aggs)->Ok_0.len() == aggs.len(),
        forall|k: int|
            0 <= k < aggs.len() ==> key_of(cats, aggs[k]) == Some(
                #[trigger] member_keys(cats, aggs)->Ok_0[k],
            ),
    decreases aggs.len(),
{
    if aggs.len() > 0 {
        let t = aggs.drop_last();
        assert forall|k: int| 0 <= k < t.len() implies key_of(cats, #[trigger] t[k]) is Some by {
            assert(key_of(cats, aggs[k]) is Some);
        }
        lemma_member_keys(cats, t);
        assert(key_of(cats, aggs[aggs.len() - 1]) is Some);
        let keys = member_keys(cats, aggs)->Ok_0;
        assert forall|k: int| 0 <= k < aggs.len() implies key_of(cats, aggs[k]) == Some(
            #[trigger] keys[k],
        ) by {
            if k < t.len() {
                assert(key_of(cats, t[k]) == Some(member_keys(cats, t)->Ok_0[k]));
            }
        }
    }
}

/// In a sound dictionary every type can be asked for: by its own key, or by the
/// keys of its members, one for each and in their order. Left out are members
/// that stand for others themselves.
pub proof fn law_sound_types_expand(cats: Seq<CategoryView>, i: int)
    requires
        dictionary_fault(cats) is None,
        0 <= i < cats.len(),
        cats[i].aggregates matches Some(aggs) ==> forall|k: int|
            0 <= k < aggs.len() ==> (type_named(cats, #[trigger] aggs[k]) matches Some(c)
                ==> c.aggregates is None),
    ensures
        match cats[i].aggregates {
            Some(aggs) => {
                &&& expanded(cats, Some(cats[i].zh)) matches Ok(keys)
                &&& keys.len() == aggs.len()
                &&& forall|k: int|
                    0 <= k < aggs.len() ==> key_of(cats, aggs[k]) == Some(#[trigger] keys[k])
            },
            None => cats[i].category is Some && expanded(cats, Some(cats[i].zh)) == Ok::<
                Seq<Seq<char>>,
                ErrorView,
            >(seq![cats[i].category->Some_0]),
        },
{
    lemma_sound_type_found(cats, i);
    law_members_are_other_types(cats, i, 0);
    if cats[i].aggregates is Some {
        let aggs = cats[i].aggregates->Some_0;
        assert forall|k: int| 0 <= k < aggs.len() implies key_of(cats, #[trigger] aggs[k]) is Some by {
            law_members_are_other_types(cats, i, k);
            let j = choose|j: int| #[trigger] first_named(cats, aggs[k], j);
            lemma_type_named(cats, aggs[k]);
            law_members_are_other_types(cats, j, 0);
        }
        lemma_member_keys(cats, aggs);
    }
}

/// What is asked for a type: without one, everything; for a type with a key, that
/// key; for one that stands for others, one key for each of them in their order,
/// each the key of the type of that name in the dictionary. Left out are members
/// that stand for others themselves.
pub proof fn law_an_aggregate_asks_for_its_members(cats: Seq<CategoryView>, i: int, k: int)
    requires
        dictionary_fault(cats) is None,
        0 <= i < cats.len(),
        cats[i].aggregates matches Some(aggs) ==> forall|m: int|
            0 <= m < aggs.len() ==> (type_named(cats, #[trigger] aggs[m]) matches Some(c)
                ==> c.aggregates is None),
    ensures
        expanded(cats, None) matches Ok(keys) && keys.len() == 1 && keys[0].len() == 0,
        cats[i].category matches Some(key) ==> (expanded(cats, Some(cats[i].zh)) matches Ok(keys)
            && keys.len() == 1 && keys[0] == key),
        cats[i].aggregates matches Some(aggs) ==> (expanded(cats, Some(cats[i].zh)) matches Ok(keys)
            && keys.len() == aggs.len() && (0 <= k < aggs.len() ==> exists|j: int|
            0 <= j < cats.len() && (#[trigger] cats[j]).zh == aggs[k] && cats[j].category == Some(
                keys[k],
            ))),
{
    law_sound_types_expand(cats, i);
    law_members_are_other_types(cats, i, k);
    if cats[i].aggregates is Some {
        let aggs = cats[i].aggregates->0;
        if 0 <= k < aggs.len() {
            let j = choose|j: int| #[trigger] first_named(cats, aggs[k], j);
            lemma_type_named(cats, aggs[k]);
            assert(type_named(cats, aggs[k]) == Some(cats[j]));
            assert(cats[j].zh == aggs[k]);
            let keys = expanded(cats, Some(cats[i].zh))->Ok_0;
            assert(key_of(cats, aggs[k]) == Some(keys[k]));
        }
    }
}

/// The notice before the queries for an aggregate.
pub open spec fn fan_out_notice(cats: Seq<CategoryView>, zh: Option<Seq<char>>) -> Option<
    Seq<char>,
> {
    match zh {
        Some(zh) => match type_named(cats, zh) {
            Some(c) => match c.aggregates {
                Some(aggs) => Some("[info] "@ + zh + " = "@ + decimal(aggs.len()) + " 次子查询"@),
                None => None,
            },
            None => None,
        },
        None => None,
    }
}

/// The notice is given for a type that stands for others and for no other, and it
/// tells the name of the type and how many queries follow.
pub proof fn law_the_notice_tells_the_number_of_queries(
    cats: Seq<CategoryView>,
    zh: Seq<char>,
    keys: Seq<Seq<char>>,
)
    requires
        expanded(cats, Some(zh)) == Ok::<Seq<Seq<char>>, ErrorView>(keys),
    ensures
        fan_out_notice(cats, None) is None,
        fan_out_notice(cats, Some(zh)) is Some <==> type_named(cats, zh)->0.aggregates is Some,
        fan_out_notice(cats, Some(zh)) matches Some(text) ==> occurs(
            text,
            zh + " = "@ + decimal(keys.len()) + " "@,
        ),
{
    if type_named(cats, zh)->0.aggregates is Some {
        let aggs = type_named(cats, zh)->0.aggregates->0;
        lemma_as_many_keys(cats, aggs);
        reveal_strlit(" 次子查询");
        reveal_strlit(" ");
        let tail = " 次子查询"@;
        let said = zh + " = "@ + decimal(keys.len()) + " "@;
        lemma_occurs_between("[info] "@, said, tail.skip(1));
        assert(" "@ + tail.skip(1) =~= tail);
        assert("[info] "@ + said + tail.skip(1) =~= "[info] "@ + zh + " = "@ + decimal(aggs.len())
            + tail);
    }
}

proof fn lemma_as_many_keys(cats: Seq<CategoryView>, aggs: Seq<Seq<char>>)
    ensures
        member_keys(cats, aggs) matches Ok(keys) ==> keys.len() == aggs.len(),
    decreases aggs.len(),
{
    if aggs.len() > 0 {
        lemma_as_many_keys(cats, aggs.drop_last());
    }
}

fn keys_of_members(cats: &[Category], aggs: &Vec<String>) -> (r: Result<Vec<String>, SiftError>)
    ensures
        match r {
            Ok(keys) => member_keys(category_views(cats@), views(aggs@)) == Ok::<
                Seq<Seq<char>>,
                ErrorView,
            >(views(keys@)),
            Err(e) => member_keys(category_views(cats@), views(aggs@)) == Err::<
                Seq<Seq<char>>,
                ErrorView,
            >(e@),
        },
{
    let ghost cv = category_views(cats@);
    let ghost v = views(aggs@);
    let mut keys: Vec<String> = Vec::new();
    let mut i: usize = 0;
    proof {
        assert(v.take(0) =~= Seq::empty());
        assert(views(keys@) =~= Seq::empty());
    }
    while i < aggs.len()
        invariant
            i <= aggs@.len(),
            v == views(aggs@),
            cv == category_views(cats@),
            member_keys(cv, v.take(i as int)) == Ok::<Seq<Seq<char>>, ErrorView>(views(keys@)),
        decreases aggs@.len() - i,
    {
        proof {
            let t = v.take(i as int + 1);
            assert(t.drop_last() =~= v.take(i as int));
            assert(t.last() == aggs@[i as int]@);
        }
        match lookup_category(cats, aggs[i].as_str()) {
            Some(key) => {
                let ghost before = views(keys@);
                let ghost x = key@;
                keys.push(key);
                proof {
                    assert(views(keys@) =~= before.push(x));
                }
            },
            None => {
                let e = SiftError::Internal(
                    concat3(
                        "aggregate target ",
                        debug_quoted(aggs[i].as_str()).as_str(),
                        " has no category",
                    ),
                );
                proof {
                    lemma_member_keys_error(cv, v, i as int + 1, e@);
                }
                return Err(e);
            },
        }
        i = i + 1;
    }
    proof {
        assert(v.take(v.len() as int) =~= v);
    }
    Ok(keys)
}

/// The keys to ask for, and the notice that comes first, if any.
pub fn expand_categories(cats: &[Category], zh: Option<&str>) -> (r: (
    Option<String>,
    Result<Vec<String>, SiftError>,
))
    ensures
        opt_text(r.0) == fan_out_notice(category_views(cats@), opt_str(zh)),
        match r.1 {
            Ok(keys) => expanded(category_views(cats@), opt_str(zh)) == Ok::<
                Seq<Seq<char>>,
                ErrorView,
            >(views(keys@)),
            Err(e) => expanded(category_views(cats@), opt_str(zh)) == Err::<
                Seq<Seq<char>>,
                ErrorView,
            >(e@),
        },
{
    let mut one: Vec<String> = Vec::new();
    let zh = match zh {
        None => {
            one.push(String::new());
            proof {
                assert(views(one@) =~= seq![Seq::<char>::empty()]);
            }
            return (None, Ok(one));
        },
        Some(zh) => zh,
    };
    let cat = match find_type(cats, zh) {
        None => return (
            None,
            Err(
                SiftError::Internal(
                    concat2("dictionary unexpectedly missing ", debug_quoted(zh).as_str()),
                ),
            ),
        ),
        Some(c) => c,
    };
    if let Some(aggs) = &cat.aggregates {
        let notice = concat5(
            "[info] ",
            zh,
            " = ",
            decimal_string(aggs.len() as u64).as_str(),
            " 次子查询",
        );
        return (Some(notice), keys_of_members(cats, aggs));
    }
    match &cat.category {
        Some(key) => one.push(key.clone()),
        None => one.push(String::new()),
    }
    proof {
        let key = match cat@.category {
            Some(k) => k,
            None => Seq::empty(),
        };
        assert(views(one@) =~= seq![key]);
    }
    (None, Ok(one))
}

// ---------------------------------------------------------------------------
// The pipe
// ---------------------------------------------------------------------------

/// The texts that a JSON object holds, by key, where a text is JSON: nothing
/// under a key whose value is no text, and nothing at all where the JSON is no
/// object.
pub uninterp spec fn json_texts(text: Seq<char>) -> Option<Map<Seq<char>, Seq<char>>>;

/// `serde_json::from_str` into a `serde_json::Value`, then `Value::get` of the
/// key and `Value::as_str`: the text under the key, if there is one, and `None`
/// where the text is no JSON. What is JSON, and which texts it holds, depends on
/// the text alone and is left unsaid.
#[verifier::external_body]
fn json_text(text: &str, key: &str) -> (r: Option<Option<String>>)
    ensures
        match json_texts(text@) {
            Some(m) => r matches Some(v) && opt_text(v) == text_under(m, key@),
            None => r is None,
        },
{
    let value: serde_json::Value = serde_json::from_str(text).ok()?;
    Some(value.get(key).and_then(|v| v.as_str()).map(|s| s.to_owned()))
}

/// The text under a key, if there is one.
pub open spec fn text_under(m: Map<Seq<char>, Seq<char>>, key: Seq<char>) -> Option<Seq<char>> {
    if m.contains_key(key) {
        Some(m[key])
    } else {
        None
    }
}

/// A line as it comes out of the pipe, with the announcement that it holds as a
/// whole, or why it is none.
#[derive(Debug)]
pub struct RawLine {
    pub text: String,
    pub row: Result<AnnouncementRow, String>,
}

/// A line with its texts taken as such.
pub struct RawView {
    pub text: Seq<char>,
    pub row: Result<AnnouncementView, Seq<char>>,
}

/// What one piped line reads as: its id and URL, where it has them, and the
/// announcement, or why it is none.
#[derive(Debug)]
pub struct PipedLine {
    pub id: Option<String>,
    pub url: Option<String>,
    pub row: Result<AnnouncementRow, String>,
}

/// What one piped line reads as, with its texts taken as such.
pub struct PipedView {
    pub id: Option<Seq<char>>,
    pub url: Option<Seq<char>>,
    pub row: Result<AnnouncementView, Seq<char>>,
}

/// An announcement, or why there is none.
pub open spec fn row_view(row: Result<AnnouncementRow, String>) -> Result<
    AnnouncementView,
    Seq<char>,
> {
    match row {
        Ok(r) => Ok(r@),
        Err(e) => Err(e@),
    }
}

impl View for RawLine {
    type V = RawView;

    open spec fn view(&self) -> RawView {
        RawView { text: self.text@, row: row_view(self.row) }
    }
}

impl View for PipedLine {
    type V = PipedView;

    open spec fn view(&self) -> PipedView {
        PipedView { id: opt_text(self.id), url: opt_text(self.url), row: row_view(self.row) }
    }
}

/// What a line reads as; nothing if nothing is left of it without the white
/// space around it, or what is left is no JSON.
pub open spec fn line_of(raw: RawView) -> Option<PipedView> {
    if trim(raw.text).len() == 0 {
        None
    } else {
        match json_texts(trim(raw.text)) {
            Some(m) => Some(
                PipedView {
                    id: text_under(m, "id"@),
                    url: text_under(m, "url"@),
                    row: raw.row,
                },
            ),
            None => None,
        }
    }
}

/// A line that is JSON reads as the texts that it holds under `id` and under
/// `url`, where it holds them; one that is none reads as nothing.
pub proof fn law_a_line_reads_as_its_id_and_url(raw: RawView)
    requires
        trim(raw.text).len() > 0,
    ensures
        match (json_texts(trim(raw.text)), line_of(raw)) {
            (Some(m), Some(p)) => {
                &&& p.row == raw.row
                &&& p.id is Some <==> m.contains_key("id"@)
                &&& p.url is Some <==> m.contains_key("url"@)
                &&& p.id matches Some(id) ==> id == m["id"@]
                &&& p.url matches Some(url) ==> url == m["url"@]
            },
            (None, None) => true,
            _ => false,
        },
{
}

/// What a line reads as, given the texts under `id` and `url` of its JSON;
/// nothing where it is no JSON.
pub fn piped_parts(
    id: Option<Option<String>>,
    url: Option<Option<String>>,
    row: Result<AnnouncementRow, String>,
) -> (r: Option<PipedLine>)
    ensures
        match (id, url) {
            (Some(id), Some(url)) => r == Some(PipedLine { id, url, row }),
            _ => r is None,
        },
{
    match (id, url) {
        (Some(id), Some(url)) => Some(PipedLine { id, url, row }),
        _ => None,
    }
}

/// What a piped line reads as.
pub fn piped_line(raw: RawLine) -> (r: Option<PipedLine>)
    ensures
        match r {
            Some(p) => line_of(raw@) == Some(p@) && p.row == raw.row,
            None => line_of(raw@) is None,
        },
{
    let text = trimmed(raw.text.as_str());
    if text.as_str().is_empty() {
        return None;
    }
    piped_parts(json_text(text.as_str(), "id"), json_text(text.as_str(), "url"), raw.row)
}

/// What the lines of a pipe read as; lines that read as nothing are left out.
pub open spec fn lines_of(raw: Seq<RawView>) -> Seq<PipedView>
    decreases raw.len(),
{
    if raw.len() == 0 {
        Seq::empty()
    } else {
        match line_of(raw.last()) {
            Some(p) => lines_of(raw.drop_last()).push(p),
            None => lines_of(raw.drop_last()),
        }
    }
}

pub open spec fn raw_views(raw: Seq<RawLine>) -> Seq<RawView> {
    raw.map_values(|l: RawLine| l@)
}

pub open spec fn piped_views(lines: Seq<PipedLine>) -> Seq<PipedView> {
    lines.map_values(|l: PipedLine| l@)
}

/// What the lines of a pipe read as; lines that read as nothing are left out.
pub fn piped_lines(raw: Vec<RawLine>) -> (out: Vec<PipedLine>)
    ensures
        piped_views(out@) == lines_of(raw_views(raw@)),
{
    let ghost all = raw_views(raw@);
    let mut out: Vec<PipedLine> = Vec::new();
    proof {
        assert(all.take(0) =~= Seq::empty());
        assert(piped_views(out@) =~= Seq::empty());
    }
    for line in it: raw
        invariant
            it.seq() == raw@,
            all == raw_views(raw@),
            piped_views(out@) == lines_of(all.take(it.index() as int)),
    {
        let ghost before = piped_views(out@);
        proof {
            let t = all.take(it.index() as int + 1);
            assert(t.drop_last() =~= all.take(it.index() as int));
            assert(t.last() == line@);
        }
        if let Some(p) = piped_line(line) {
            let ghost x = p@;
            out.push(p);
            proof {
                assert(piped_views(out@) =~= before.push(x));
            }
        }
    }
    proof {
        assert(all.take(all.len() as int) =~= all);
    }
    out
}

/// The pipe is read line by line: every line that reads as something is kept, in
/// its place, and what the lines before it and behind it hold does not matter.
pub proof fn law_the_pipe_is_read_line_by_line(a: Seq<RawView>, l: RawView, b: Seq<RawView>)
    ensures
        lines_of(a + seq![l] + b) == lines_of(a) + (match line_of(l) {
            Some(p) => seq![p],
            None => Seq::empty(),
        }) + lines_of(b),
    decreases b.len(),
{
    let s = a + seq![l] + b;
    if b.len() == 0 {
        assert(s.drop_last() =~= a);
        assert(s.last() == l);
        assert(lines_of(b) =~= Seq::empty());
    } else {
        let c = b.drop_last();
        law_the_pipe_is_read_line_by_line(a, l, c);
        assert(s.drop_last() =~= a + seq![l] + c);
        assert(s.last() == b.last());
    }
    assert(lines_of(s) =~= lines_of(a) + (match line_of(l) {
        Some(p) => seq![p],
        None => Seq::empty(),
    }) + lines_of(b));
}

/// White space round a line does not change what it reads as, and a line of white
/// space alone reads as nothing.
pub proof fn law_white_space_round_a_line_does_not_matter(
    a: Seq<char>,
    line: RawView,
    b: Seq<char>,
)
    requires
        forall|i: int| 0 <= i < a.len() ==> is_space(#[trigger] a[i]),
        forall|i: int| 0 <= i < b.len() ==> is_space(#[trigger] b[i]),
        line.text.len() > 0 ==> !is_space(line.text[0]) && !is_space(line.text.last()),
    ensures
        line_of(RawView { text: a + line.text + b, row: line.row }) == line_of(line),
        line.text.len() == 0 ==> line_of(line) is None,
{
    let none = Seq::<char>::empty();
    law_white_space_around_is_trimmed(a, line.text, b);
    law_white_space_around_is_trimmed(none, line.text, none);
    assert(none + line.text + none =~= line.text);
}

/// The URLs of the lines that have both an id and a URL that is not empty; a
/// later line replaces an earlier one.
pub open spec fn urls_of(lines: Seq<PipedView>) -> Map<Seq<char>, Seq<char>>
    decreases lines.len(),
{
    if lines.len() == 0 {
        Map::empty()
    } else {
        let m = urls_of(lines.drop_last());
        match (lines.last().id, lines.last().url) {
            (Some(id), Some(url)) => if url.len() > 0 {
                m.insert(id, url)
            } else {
                m
            },
            _ => m,
        }
    }
}

/// The announcements of the lines that are some.
pub open spec fn rows_of(lines: Seq<PipedView>) -> Seq<AnnouncementView>
    decreases lines.len(),
{
    if lines.len() == 0 {
        Seq::empty()
    } else {
        let t = rows_of(lines.drop_last());
        match lines.last().row {
            Ok(r) => t.push(r),
            Err(_) => t,
        }
    }
}

/// The URL of an announcement is the one of the last line that has both its id
/// and a URL that is not empty; where there is no such line, it has none.
pub proof fn law_the_last_url_counts(lines: Seq<PipedView>, id: Seq<char>, n: int)
    requires
        -1 <= n < lines.len(),
        n >= 0 ==> lines[n].id == Some(id) && (lines[n].url matches Some(u) && u.len() > 0),
        forall|i: int|
            n < i < lines.len() ==> !((#[trigger] lines[i]).id == Some(id) && (
            lines[i].url matches Some(u) && u.len() > 0)),
    ensures
        n < 0 ==> !urls_of(lines).contains_key(id),
        n >= 0 ==> urls_of(lines).contains_key(id) && lines[n].url == Some(urls_of(lines)[id]),
    decreases lines.len(),
{
    if lines.len() > 0 {
        let d = lines.drop_last();
        let last = lines[lines.len() - 1];
        if n < lines.len() - 1 {
            assert(!(last.id == Some(id) && (last.url matches Some(u) && u.len() > 0)));
            law_the_last_url_counts(d, id, n);
        }
    }
}

/// The announcements that the pipe brings are those of its lines, line by line.
pub proof fn law_every_piped_announcement_counts(a: Seq<PipedView>, l: PipedView, b: Seq<PipedView>)
    ensures
        rows_of(a + seq![l] + b) == rows_of(a) + (match l.row {
            Ok(r) => seq![r],
            Err(_) => Seq::empty(),
        }) + rows_of(b),
    decreases b.len(),
{
    let s = a + seq![l] + b;
    if b.len() == 0 {
        assert(s.drop_last() =~= a);
        assert(s.last() == l);
        assert(rows_of(b) =~= Seq::empty());
    } else {
        let c = b.drop_last();
        law_every_piped_announcement_counts(a, l, c);
        assert(s.drop_last() =~= a + seq![l] + c);
        assert(s.last() == b.last());
    }
    assert(rows_of(s) =~= rows_of(a) + (match l.row {
        Ok(r) => seq![r],
        Err(_) => Seq::empty(),
    }) + rows_of(b));
}

/// What the lines that were read bring.
pub fn stdin_ctx(lines: Vec<PipedLine>) -> (c: StdinContext)
    ensures
        c.wf(),
        text_values(c.url_map@) == urls_of(piped_views(lines@)),
        announcement_views(c.rows@) == rows_of(piped_views(lines@)),
{
    let ghost all = piped_views(lines@);
    let mut url_map: TextMap<String> = TextMap::new();
    let mut rows: Vec<AnnouncementRow> = Vec::new();
    proof {
        assert(all.take(0) =~= Seq::empty());
        assert(text_values(url_map@) =~= Map::empty());
        assert(announcement_views(rows@) =~= Seq::empty());
    }
    for line in it: lines
        invariant
            it.seq() == lines@,
            all == piped_views(lines@),
            url_map.wf(),
            text_values(url_map@) == urls_of(all.take(it.index() as int)),
            announcement_views(rows@) == rows_of(all.take(it.index() as int)),
    {
        let ghost m = text_values(url_map@);
        let ghost before = announcement_views(rows@);
        proof {
            let t = all.take(it.index() as int + 1);
            assert(t.drop_last() =~= all.take(it.index() as int));
            assert(t.last() == line@);
        }
        let PipedLine { id, url, row } = line;
        if let (Some(id), Some(url)) = (id, url) {
            if !url.as_str().is_empty() {
                let ghost k = id@;
                let ghost u = url@;
                url_map.insert(id, url);
                proof {
                    assert(text_values(url_map@) =~= m.insert(k, u));
                }
            }
        }
        if let Ok(r) = row {
            let ghost x = r@;
            rows.push(r);
            proof {
                assert(announcement_views(rows@) =~= before.push(x));
            }
        }
    }
    proof {
        assert(all.take(all.len() as int) =~= all);
    }
    StdinContext { rows, url_map }
}

/// What the pipe brought.
pub fn read_stdin_ctx(raw: Vec<RawLine>) -> (c: StdinContext)
    ensures
        c.wf(),
        text_values(c.url_map@) == urls_of(lines_of(raw_views(raw@))),
        announcement_views(c.rows@) == rows_of(lines_of(raw_views(raw@))),
{
    stdin_ctx(piped_lines(raw))
}

/// The first line with the given id.
pub open spec fn line_with_id(lines: Seq<PipedView>, id: Seq<char>) -> Option<PipedView>
    decreases lines.len(),
{
    if lines.len() == 0 {
        None
    } else {
        match line_with_id(lines.drop_last(), id) {
            Some(l) => Some(l),
            None => if lines.last().id == Some(id) {
                Some(lines.last())
            } else {
                None
            },
        }
    }
}

proof fn lemma_line_with_id_stays(lines: Seq<PipedView>, id: Seq<char>, n: int)
    requires
        0 <= n <= lines.len(),
        line_with_id(lines.take(n), id) is Some,
    ensures
        line_with_id(lines, id) == line_with_id(lines.take(n), id),
    decreases lines.len() - n,
{
    if n < lines.len() {
        assert(lines.take(n + 1).drop_last() =~= lines.take(n));
        lemma_line_with_id_stays(lines, id, n + 1);
    } else {
        assert(lines.take(n) =~= lines);
    }
}

/// The announcement of the first line with the given id, or why there is none.
pub open spec fn row_for(lines: Seq<PipedView>, id: Seq<char>) -> Result<
    AnnouncementView,
    ErrorView,
> {
    match line_with_id(lines, id) {
        None => Err(ErrorView::NotFound(id)),
        Some(l) => match l.row {
            Ok(row) => Ok(row),
            Err(e) => Err(ErrorView::Internal("stdin row deserialize: "@ + e)),
        },
    }
}

/// The announcement of an id is that of the first line with the id, whatever
/// follows; without such a line it is not found.
pub proof fn law_the_first_line_of_an_id_counts(lines: Seq<PipedView>, id: Seq<char>, n: int)
    requires
        0 <= n <= lines.len(),
        n < lines.len() ==> lines[n].id == Some(id),
        forall|i: int| 0 <= i < n ==> (#[trigger] lines[i]).id != Some(id),
    ensures
        n == lines.len() ==> row_for(lines, id) == Err::<AnnouncementView, ErrorView>(
            ErrorView::NotFound(id),
        ),
        n < lines.len() ==> match lines[n].row {
            Ok(r) => row_for(lines, id) == Ok::<AnnouncementView, ErrorView>(r),
            Err(e) => row_for(lines, id) is Err,
        },
{
    lemma_line_with_id(lines, id, n);
}

proof fn lemma_line_with_id(lines: Seq<PipedView>, id: Seq<char>, n: int)
    requires
        0 <= n <= lines.len(),
        n < lines.len() ==> lines[n].id == Some(id),
        forall|i: int| 0 <= i < n ==> (#[trigger] lines[i]).id != Some(id),
    ensures
        line_with_id(lines, id) == (if n < lines.len() {
            Some(lines[n])
        } else {
            None
        }),
    decreases lines.len(),
{
    if lines.len() > 0 {
        let d = lines.drop_last();
        if n < d.len() {
            lemma_line_with_id(d, id, n);
        } else {
            lemma_line_with_id(d, id, d.len() as int);
            if n == lines.len() {
                assert(lines[n - 1].id != Some(id));
            }
        }
    }
}

/// The announcement with the given id among the lines that were read: that of
/// the first line with the id.
pub fn row_for_id(lines: Vec<PipedLine>, id: &str) -> (r: Result<AnnouncementRow, SiftError>)
    ensures
        outcome(r) == row_for(piped_views(lines@), id@),
{
    let ghost all = piped_views(lines@);
    proof {
        assert(all.take(0) =~= Seq::empty());
    }
    for line in it: lines
        invariant
            it.seq() == lines@,
            all == piped_views(lines@),
            line_with_id(all.take(it.index() as int), id@) is None,
    {
        proof {
            let t = all.take(it.index() as int + 1);
            assert(t.drop_last() =~= all.take(it.index() as int));
            assert(t.last() == line@);
        }
        let PipedLine { id: found, url, row } = line;
        if let Some(f) = found {
            if same(f.as_str(), id) {
                proof {
                    lemma_line_with_id_stays(all, id@, it.index() as int + 1);
                }
                return match row {
                    Ok(r) => Ok(r),
                    Err(e) => Err(
                        SiftError::Internal(concat2("stdin row deserialize: ", e.as_str())),
                    ),
                };
            }
        }
    }
    proof {
        assert(all.take(all.len() as int) =~= all);
    }
    Err(SiftError::NotFound(id.to_owned()))
}

/// The announcement with the given id in the pipe: that of the first line with
/// the id.
pub fn read_stdin_for_id(raw: Vec<RawLine>, id: &str) -> (r: Result<AnnouncementRow, SiftError>)
    ensures
        outcome(r) == row_for(lines_of(raw_views(raw@)), id@),
{
    row_for_id(piped_lines(raw), id)
}

/// Where the PDF of an announcement is kept, for `announce show`.
pub fn cached_str(path: Option<&str>, cached: bool) -> (out: String)
    ensures
        out@ == (match path {
            Some(p) => p@ + "  ("@ + (if cached {
                "yes"@
            } else {
                "no"@
            }) + ")"@,
            None => "—  (no cache)"@,
        }),
{
    match path {
        Some(p) => concat4(
            p,
            "  (",
            if cached {
                "yes"
            } else {
                "no"
            },
            ")",
        ),
        None => "—  (no cache)".to_owned(),
    }
}

// ---------------------------------------------------------------------------
// Downloads
// ---------------------------------------------------------------------------

/// The pause between downloads when nothing is said, in milliseconds.
pub const POLITE_DELAY_DEFAULT_MS: u64 = 200;

/// Batches up to this size have no pauses.
pub const POLITE_BATCH_THRESHOLD: usize = 4;

/// The pause between downloads: the one that is set, if it is a number.
pub fn polite_delay_ms(setting: Option<&str>) -> (ms: u64)
    ensures
        ms == (match setting {
            Some(s) => match number_text(s@, u64::MAX as nat) {
                Some(n) => n,
                None => POLITE_DELAY_DEFAULT_MS as nat,
            },
            None => POLITE_DELAY_DEFAULT_MS as nat,
        }),
        setting is None ==> ms == 200,
{
    match setting {
        Some(s) => match parse_number(&chars_of(s), u64::MAX) {
            Some(n) => n,
            None => POLITE_DELAY_DEFAULT_MS,
        },
        None => POLITE_DELAY_DEFAULT_MS,
    }
}

/// The ids whose PDF is not there, in order.
pub open spec fn ids_without_pdf(ids: Seq<Seq<char>>, cached: Seq<bool>) -> Seq<Seq<char>>
    decreases ids.len(),
{
    if ids.len() == 0 {
        Seq::empty()
    } else {
        let t = ids_without_pdf(ids.drop_last(), cached);
        if cached[ids.len() - 1] {
            t
        } else {
            t.push(ids.last())
        }
    }
}

/// A URL is needed for an id exactly where its PDF is not there, and the ids keep
/// their order.
pub proof fn law_urls_are_needed_where_no_pdf_is(ids: Seq<Seq<char>>, cached: Seq<bool>, n: int)
    requires
        cached.len() == ids.len(),
        0 <= n < ids.len(),
    ensures
        ids_without_pdf(ids, cached) == ids_without_pdf(ids.take(n), cached.take(n)) + (
        if cached[n] {
            Seq::empty()
        } else {
            seq![ids[n]]
        }) + ids_without_pdf(ids.skip(n + 1), cached.skip(n + 1)),
    decreases ids.len(),
{
    let d = ids.drop_last();
    let own = if cached[n] {
        Seq::empty()
    } else {
        seq![ids[n]]
    };
    if n == ids.len() - 1 {
        assert(ids.take(n) =~= d);
        assert(ids.skip(n + 1) =~= Seq::empty());
        lemma_without_pdf_prefix(d, cached, cached.take(n));
        assert(ids_without_pdf(ids, cached) =~= ids_without_pdf(d, cached) + own);
        assert(ids_without_pdf(ids.skip(n + 1), cached.skip(n + 1)) =~= Seq::empty());
        assert(ids_without_pdf(ids, cached) =~= ids_without_pdf(ids.take(n), cached.take(n)) + own
            + ids_without_pdf(ids.skip(n + 1), cached.skip(n + 1)));
    } else {
        let c = cached.drop_last();
        law_urls_are_needed_where_no_pdf_is(d, c, n);
        lemma_without_pdf_prefix(d, cached, c);
        assert(d.take(n) =~= ids.take(n));
        assert(c.take(n) =~= cached.take(n));
        let rest = ids.skip(n + 1);
        let flags = cached.skip(n + 1);
        assert(rest.drop_last() =~= d.skip(n + 1));
        assert(flags.drop_last() =~= c.skip(n + 1));
        lemma_without_pdf_prefix(rest.drop_last(), flags, flags.drop_last());
        assert(rest.last() == ids.last());
        assert(flags[rest.len() - 1] == cached[ids.len() - 1]);
        assert(ids_without_pdf(ids, cached) =~= ids_without_pdf(ids.take(n), cached.take(n)) + own
            + ids_without_pdf(rest, flags));
    }
}

proof fn lemma_without_pdf_prefix(ids: Seq<Seq<char>>, a: Seq<bool>, b: Seq<bool>)
    requires
        forall|i: int| 0 <= i < ids.len() ==> #[trigger] a[i] == b[i],
    ensures
        ids_without_pdf(ids, a) == ids_without_pdf(ids, b),
    decreases ids.len(),
{
    if ids.len() > 0 {
        lemma_without_pdf_prefix(ids.drop_last(), a, b);
        assert(a[ids.len() - 1] == b[ids.len() - 1]);
    }
}

/// The ids whose URL is needed: those whose PDF is not there.
pub fn needs_url(ids: &Vec<String>, cached: &Vec<bool>) -> (out: Vec<String>)
    requires
        cached@.len() == ids@.len(),
    ensures
        views(out@) == ids_without_pdf(views(ids@), cached@),
{
    let ghost v = views(ids@);
    let mut out: Vec<String> = Vec::new();
    let mut i: usize = 0;
    proof {
        assert(v.take(0) =~= Seq::empty());
        assert(views(out@) =~= Seq::empty());
    }
    while i < ids.len()
        invariant
            i <= ids@.len(),
            v == views(ids@),
            cached@.len() == ids@.len(),
            views(out@) == ids_without_pdf(v.take(i as int), cached@),
        decreases ids@.len() - i,
    {
        let ghost before = views(out@);
        proof {
            let t = v.take(i as int + 1);
            assert(t.drop_last() =~= v.take(i as int));
            assert(t.last() == ids@[i as int]@);
        }
        if !cached[i] {
            out.push(ids[i].clone());
            proof {
                assert(views(out@) =~= before.push(ids@[i as int]@));
            }
        }
        i = i + 1;
    }
    proof {
        assert(v.take(v.len() as int) =~= v);
    }
    out
}

/// How one PDF is had.
#[derive(Debug)]
pub enum DownloadStep {
    /// From the cache.
    Copy,
    /// From the URL, and through the cache.
    Fetch(String),
}

/// Why there is no URL for an id: no walk found one, or the pipe, which is all
/// there is, did not bring one.
pub open spec fn no_url(id: Seq<char>, stdin_is_tty: bool) -> ErrorView {
    if stdin_is_tty {
        ErrorView::Internal(
            "no url context for "@ + id
                + " after consulting record cache and a whole-market scan; try `sift announce list <symbol>` first or pipe `sift announce list … --format json` directly"@,
        )
    } else {
        ErrorView::NotFound(id)
    }
}

/// An id that the pipe did not bring is not found; one that a walk did not bring is
/// told of, by its own text.
pub proof fn law_an_id_without_a_url_is_told(id: Seq<char>)
    ensures
        no_url(id, false) == ErrorView::NotFound(id),
        no_url(id, true) matches ErrorView::Internal(text) && occurs(text, id),
{
    lemma_occurs_between(
        "no url context for "@,
        id,
        " after consulting record cache and a whole-market scan; try `sift announce list <symbol>` first or pipe `sift announce list … --format json` directly"@,
    );
}

/// How one PDF is had, or why it cannot be had.
pub fn download_one(id: &str, cached: bool, urls: &TextMap<String>, stdin_is_tty: bool) -> (r: Result<
    DownloadStep,
    SiftError,
>)
    requires
        urls.wf(),
    ensures
        if cached {
            r matches Ok(s) && s is Copy
        } else if text_values(urls@).contains_key(id@) {
            r matches Ok(DownloadStep::Fetch(url)) && url@ == text_values(urls@)[id@]
        } else {
            r matches Err(e) && e@ == no_url(id@, stdin_is_tty)
        },
{
    if cached {
        return Ok(DownloadStep::Copy);
    }
    match urls.get(id) {
        Some(url) => Ok(DownloadStep::Fetch(url.clone())),
        None => if stdin_is_tty {
            Err(
                SiftError::Internal(
                    concat3(
                        "no url context for ",
                        id,
                        " after consulting record cache and a whole-market scan; try `sift announce list <symbol>` first or pipe `sift announce list … --format json` directly",
                    ),
                ),
            )
        } else {
            Err(SiftError::NotFound(id.to_owned()))
        },
    }
}

/// The mark of one download among several.
pub open spec fn download_mark(n: nat, total: nat) -> Seq<char> {
    "["@ + decimal(n) + "/"@ + decimal(total) + "] "@
}

/// The mark of a download tells which of how many it is.
pub proof fn law_a_mark_tells_the_place(n: nat, total: nat)
    ensures
        occurs(download_mark(n, total), decimal(n) + "/"@ + decimal(total)),
{
    let said = decimal(n) + "/"@ + decimal(total);
    lemma_occurs_between("["@, said, "] "@);
    assert("["@ + said + "] "@ =~= download_mark(n, total));
}

fn mark(n: usize, total: usize) -> (out: String)
    ensures
        out@ == download_mark(n as nat, total as nat),
{
    concat5(
        "[",
        decimal_string(n as u64).as_str(),
        "/",
        decimal_string(total as u64).as_str(),
        "] ",
    )
}

/// The line after a PDF was copied from the cache.
pub fn cached_line(n: usize, total: usize, id: &str, dst: &str) -> (out: String)
    ensures
        out@ == download_mark(n as nat, total as nat) + id@ + "  cached  → "@ + dst@,
{
    concat4(mark(n, total).as_str(), id, "  cached  → ", dst)
}

/// The line after a PDF was fetched.
pub fn fetched_line(n: usize, total: usize, id: &str, bytes: usize, dst: &str) -> (out: String)
    ensures
        out@ == download_mark(n as nat, total as nat) + id@ + "  fetched "@ + decimal(
            (bytes / 1024) as nat,
        ) + " KB  → "@ + dst@,
{
    let mut out = concat4(
        mark(n, total).as_str(),
        id,
        "  fetched ",
        decimal_string((bytes / 1024) as u64).as_str(),
    );
    out.append(" KB  → ");
    out.append(dst);
    out
}

/// Downloads one after the other.
#[derive(Debug)]
pub struct DownloadRun {
    ids: Vec<String>,
    delay_ms: u64,
    done: usize,
    failures: u32,
}

impl DownloadRun {
    /// The ids, in order.
    pub closed spec fn all(self) -> Seq<Seq<char>> {
        views(self.ids@)
    }

    /// How many are done.
    pub closed spec fn count(self) -> nat {
        self.done as nat
    }

    /// How many of them failed.
    pub closed spec fn failed(self) -> nat {
        self.failures as nat
    }

    /// The pause between two downloads.
    pub closed spec fn pause(self) -> u64 {
        self.delay_ms
    }

    pub open spec fn wf(self) -> bool {
        self.failed() <= self.count() <= self.all().len() <= u32::MAX
    }

    /// Before the first download.
    pub fn new(ids: Vec<String>, delay_ms: u64) -> (d: DownloadRun)
        requires
            ids@.len() <= u32::MAX,
        ensures
            d.wf(),
            d.all() == views(ids@),
            d.count() == 0,
            d.failed() == 0,
            d.pause() == delay_ms,
    {
        DownloadRun { ids, delay_ms, done: 0, failures: 0 }
    }

    /// The id to download next.
    pub fn next(&self) -> (r: Option<&str>)
        requires
            self.wf(),
        ensures
            match r {
                Some(id) => self.count() < self.all().len() && id@ == self.all()[self.count() as int],
                None => self.count() == self.all().len(),
            },
    {
        if self.done < self.ids.len() {
            Some(self.ids[self.done].as_str())
        } else {
            None
        }
    }

    /// Takes the outcome of the download that was next: the line about a
    /// failure, and the pause before the one that follows. There is a pause
    /// only between downloads, and only in a batch of more than four.
    pub fn settle(&mut self, failure: Option<SiftError>) -> (r: (Option<String>, Option<u64>))
        requires
            old(self).wf(),
            old(self).count() < old(self).all().len(),
        ensures
            final(self).wf(),
            final(self).all() == old(self).all(),
            final(self).pause() == old(self).pause(),
            final(self).count() == old(self).count() + 1,
            final(self).failed() == old(self).failed() + (if failure is Some {
                1nat
            } else {
                0nat
            }),
            opt_text(r.0) == (match failure {
                Some(e) => Some(
                    download_mark(old(self).count() + 1, old(self).all().len()) + old(
                        self,
                    ).all()[old(self).count() as int] + " failed: "@ + e@.message(),
                ),
                None => None,
            }),
            r.1 == (if final(self).count() < final(self).all().len() && final(self).all().len()
                > POLITE_BATCH_THRESHOLD && final(self).pause() > 0 {
                Some(final(self).pause())
            } else {
                None
            }),
            old(self).all().len() <= 4 ==> r.1 is None,
            old(self).count() + 1 == old(self).all().len() ==> r.1 is None,
    {
        let total: usize = self.ids.len();
        let n: usize = self.done + 1;
        let line = match failure {
            Some(e) => {
                self.failures = self.failures + 1;
                Some(
                    concat4(
                        mark(n, total).as_str(),
                        self.ids[self.done].as_str(),
                        " failed: ",
                        e.message().as_str(),
                    ),
                )
            },
            None => None,
        };
        self.done = n;
        if n < total && total > POLITE_BATCH_THRESHOLD && self.delay_ms > 0 {
            (line, Some(self.delay_ms))
        } else {
            (line, None)
        }
    }

    /// What the downloads come to: a failure if one of them failed.
    pub fn finish(self) -> (r: Result<(), SiftError>)
        ensures
            match r {
                Ok(()) => self.failed() == 0,
                Err(e) => self.failed() > 0 && e@ == ErrorView::Network(
                    decimal(self.failed()) + " of "@ + decimal(self.all().len())
                        + " downloads failed"@,
                ),
            },
    {
        if self.failures > 0 {
            Err(
                SiftError::Network(
                    concat4(
                        decimal_string(self.failures as u64).as_str(),
                        " of ",
                        decimal_string(self.ids.len() as u64).as_str(),
                        " downloads failed",
                    ),
                ),
            )
        } else {
            Ok(())
        }
    }
}

} // verus!
