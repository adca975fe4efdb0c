//! Names and organisation ids from the listings that are on disk.

use vstd::prelude::*;
use vstd::string::*;

use crate::domain::market::Market;
use crate::sources::cninfo::CnInfoRow;
use crate::text_map::{text_values, TextMap};

verus! {

/// How listings are loaded.
#[derive(Debug, Clone, Copy, PartialEq, Eq, Structural)]
pub struct SearchCacheOpts {
    /// The listing on disk is not read; what is fetched is still written.
    pub no_cache: bool,
}

impl Default for SearchCacheOpts {
    fn default() -> (o: Self)
        ensures
            !o.no_cache,
    {
        SearchCacheOpts { no_cache: false }
    }
}

/// The rows of a listing; none where it is not there or is no listing.
pub open spec fn rows_or_none(rows: Option<Vec<CnInfoRow>>) -> Seq<CnInfoRow> {
    match rows {
        Some(v) => v@,
        None => Seq::empty(),
    }
}

/// `names` with the name of each code; a later row replaces an earlier one.
pub open spec fn with_names(names: Map<Seq<char>, Seq<char>>, rows: Seq<CnInfoRow>) -> Map<
    Seq<char>,
    Seq<char>,
>
    decreases rows.len(),
{
    if rows.len() == 0 {
        names
    } else {
        with_names(names, rows.drop_last()).insert(rows.last().code@, rows.last().zwjc@)
    }
}

/// The name of a code is that of its last row; a code without a row keeps the
/// name that it had.
pub proof fn law_the_last_name_counts(
    names: Map<Seq<char>, Seq<char>>,
    rows: Seq<CnInfoRow>,
    code: Seq<char>,
    n: int,
)
    requires
        -1 <= n < rows.len(),
        n >= 0 ==> rows[n].code@ == code,
        forall|i: int| n < i < rows.len() ==> (#[trigger] rows[i]).code@ != code,
    ensures
        n >= 0 ==> with_names(names, rows).contains_key(code) && with_names(names, rows)[code]
            == rows[n].zwjc@,
        n < 0 ==> with_names(names, rows).contains_key(code) == names.contains_key(code)
            && with_names(names, rows)[code] == names[code],
    decreases rows.len(),
{
    if rows.len() > 0 && n < rows.len() - 1 {
        assert(rows[rows.len() - 1].code@ != code);
        law_the_last_name_counts(names, rows.drop_last(), code, n);
    }
}

fn add_names(names: &mut TextMap<String>, rows: Vec<CnInfoRow>)
    requires
        old(names).wf(),
    ensures
        final(names).wf(),
        text_values(final(names)@) == with_names(text_values(old(names)@), rows@),
{
    let ghost before = text_values(names@);
    proof {
        assert(rows@.take(0) =~= Seq::empty());
    }
    for r in it: rows
        invariant
            it.seq() == rows@,
            names.wf(),
            text_values(names@) == with_names(before, rows@.take(it.index() as int)),
    {
        let ghost m = text_values(names@);
        let ghost code = r.code@;
        let ghost name = r.zwjc@;
        proof {
            let t = rows@.take(it.index() as int + 1);
            assert(t.drop_last() =~= rows@.take(it.index() as int));
            assert(t.last() == r);
        }
        names.insert(r.code, r.zwjc);
        proof {
            assert(text_values(names@) =~= m.insert(code, name));
        }
    }
    proof {
        assert(rows@.take(rows@.len() as int) =~= rows@);
    }
}

/// The names of the codes, from the two listings on disk.
pub fn load_cached_names(szse: Option<Vec<CnInfoRow>>, hke: Option<Vec<CnInfoRow>>) -> (names:
    TextMap<String>)
    ensures
        names.wf(),
        text_values(names@) == with_names(
            with_names(Map::empty(), rows_or_none(szse)),
            rows_or_none(hke),
        ),
{
    let mut names: TextMap<String> = TextMap::new();
    proof {
        assert(text_values(names@) =~= Map::empty());
    }
    match szse {
        Some(rows) => add_names(&mut names, rows),
        None => {},
    }
    match hke {
        Some(rows) => add_names(&mut names, rows),
        None => {},
    }
    names
}

/// The ids of a map, as texts.
pub open spec fn id_values(m: Map<Seq<char>, (Market, String)>) -> Map<
    Seq<char>,
    (Market, Seq<char>),
> {
    m.map_values(|v: (Market, String)| (v.0, v.1@))
}

/// `ids` with market and organisation id of each code; a later row replaces an
/// earlier one.
pub open spec fn with_ids(
    ids: Map<Seq<char>, (Market, Seq<char>)>,
    rows: Seq<CnInfoRow>,
    market: Market,
) -> Map<Seq<char>, (Market, Seq<char>)>
    decreases rows.len(),
{
    if rows.len() == 0 {
        ids
    } else {
        with_ids(ids, rows.drop_last(), market).insert(
            rows.last().code@,
            (market, rows.last().org_id@),
        )
    }
}

/// Organisation and market of a code are those of its last row and its listing; a
/// code without a row keeps what it had.
pub proof fn law_the_last_id_counts(
    ids: Map<Seq<char>, (Market, Seq<char>)>,
    rows: Seq<CnInfoRow>,
    market: Market,
    code: Seq<char>,
    n: int,
)
    requires
        -1 <= n < rows.len(),
        n >= 0 ==> rows[n].code@ == code,
        forall|i: int| n < i < rows.len() ==> (#[trigger] rows[i]).code@ != code,
    ensures
        n >= 0 ==> with_ids(ids, rows, market).contains_key(code) && with_ids(
            ids,
            rows,
            market,
        )[code] == (market, rows[n].org_id@),
        n < 0 ==> with_ids(ids, rows, market).contains_key(code) == ids.contains_key(code)
            && with_ids(ids, rows, market)[code] == ids[code],
    decreases rows.len(),
{
    if rows.len() > 0 && n < rows.len() - 1 {
        assert(rows[rows.len() - 1].code@ != code);
        law_the_last_id_counts(ids, rows.drop_last(), market, code, n);
    }
}

fn add_ids(ids: &mut TextMap<(Market, String)>, rows: Vec<CnInfoRow>, market: Market)
    requires
        old(ids).wf(),
    ensures
        final(ids).wf(),
        id_values(final(ids)@) == with_ids(id_values(old(ids)@), rows@, market),
{
    let ghost before = id_values(ids@);
    proof {
        assert(rows@.take(0) =~= Seq::empty());
    }
    for r in it: rows
        invariant
            it.seq() == rows@,
            ids.wf(),
            id_values(ids@) == with_ids(before, rows@.take(it.index() as int), market),
    {
        let ghost m = id_values(ids@);
        let ghost code = r.code@;
        let ghost id = r.org_id@;
        proof {
            let t = rows@.take(it.index() as int + 1);
            assert(t.drop_last() =~= rows@.take(it.index() as int));
            assert(t.last() == r);
        }
        ids.insert(r.code, (market, r.org_id));
        proof {
            assert(id_values(ids@) =~= m.insert(code, (market, id)));
        }
    }
    proof {
        assert(rows@.take(rows@.len() as int) =~= rows@);
    }
}

/// Market and organisation id of the codes, from the two listings on disk.
pub fn load_cached_org_ids(szse: Option<Vec<CnInfoRow>>, hke: Option<Vec<CnInfoRow>>) -> (ids:
    TextMap<(Market, String)>)
    ensures
        ids.wf(),
        id_values(ids@) == with_ids(
            with_ids(Map::empty(), rows_or_none(szse), Market::CnA),
            rows_or_none(hke),
            Market::Hk,
        ),
{
    let mut ids: TextMap<(Market, String)> = TextMap::new();
    proof {
        assert(id_values(ids@) =~= Map::empty());
    }
    match szse {
        Some(rows) => add_ids(&mut ids, rows, Market::CnA),
        None => {},
    }
    match hke {
        Some(rows) => add_ids(&mut ids, rows, Market::Hk),
        None => {},
    }
    ids
}

} // verus!
