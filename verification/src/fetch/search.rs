//! Listings: from disk while they are fresh, else from cninfo, else from disk
//! however old they are.

use vstd::prelude::*;
use vstd::string::*;

use crate::cache::search::{
    id_values, load_cached_names, load_cached_org_ids, rows_or_none, with_ids, with_names,
};
pub use crate::cache::search::SearchCacheOpts;
use crate::cache::{is_fresh, CACHE_TTL_SEARCH_SECS};
use crate::domain::market::Market;
use crate::error::{concat2, concat5, outcome, ErrorView, SiftError};
use crate::sources::cninfo::{CnInfoRow, ResolvedSymbol, ResolvedView, StockLists};
use crate::text_map::{text_values, TextMap};

verus! {

/// The two listings of cninfo.
#[derive(Debug, Clone, Copy, PartialEq, Eq, Structural)]
pub enum Endpoint {
    /// Shanghai, Shenzhen and Beijing.
    Szse,
    /// Hong Kong.
    Hke,
}

impl Endpoint {
    pub open spec fn path_text(self) -> Seq<char> {
        match self {
            Endpoint::Szse => "/new/data/szse_stock.json"@,
            Endpoint::Hke => "/new/data/hke_stock.json"@,
        }
    }

    pub open spec fn label_text(self) -> Seq<char> {
        match self {
            Endpoint::Szse => "szse_stock"@,
            Endpoint::Hke => "hke_stock"@,
        }
    }

    pub open spec fn key_text(self) -> Seq<char> {
        match self {
            Endpoint::Szse => "cninfo/szse_stock.json"@,
            Endpoint::Hke => "cninfo/hke_stock.json"@,
        }
    }

    /// The label in warnings.
    pub fn label(self) -> (out: &'static str)
        ensures
            out@ == self.label_text(),
    {
        match self {
            Endpoint::Szse => "szse_stock",
            Endpoint::Hke => "hke_stock",
        }
    }

    /// The key of the listing in the file cache.
    pub fn key(self) -> (out: &'static str)
        ensures
            out@ == self.key_text(),
    {
        match self {
            Endpoint::Szse => "cninfo/szse_stock.json",
            Endpoint::Hke => "cninfo/hke_stock.json",
        }
    }

    /// The address of the listing.
    pub fn url(self, base: &str) -> (out: String)
        ensures
            out@ == base@ + self.path_text(),
    {
        match self {
            Endpoint::Szse => concat2(base, "/new/data/szse_stock.json"),
            Endpoint::Hke => concat2(base, "/new/data/hke_stock.json"),
        }
    }
}

/// Whether the listing on disk is used as it is: it is fresh, the caller did
/// not forbid it, and it reads as a listing.
pub open spec fn serves_cache(
    opts: SearchCacheOpts,
    age_secs: Option<u64>,
    cached: Option<Vec<CnInfoRow>>,
) -> bool {
    !opts.no_cache && (age_secs matches Some(age) && age < CACHE_TTL_SEARCH_SECS) && cached is Some
}

/// A listing on disk is used while it is less than a day old, unless the caller
/// forbids it or it does not read as a listing; how it reads and how it is asked
/// for aside, what is used at some age is used at any lower age.
pub proof fn law_a_listing_is_used_for_a_day(
    no_cache: bool,
    age: u64,
    younger: u64,
    rows: Vec<CnInfoRow>,
)
    requires
        younger <= age,
    ensures
        serves_cache(SearchCacheOpts { no_cache }, Some(age), Some(rows)) <==> !no_cache && age < 24
            * 60 * 60,
        serves_cache(SearchCacheOpts { no_cache }, Some(age), Some(rows)) ==> serves_cache(
            SearchCacheOpts { no_cache },
            Some(younger),
            Some(rows),
        ),
        !serves_cache(SearchCacheOpts { no_cache }, None, Some(rows)),
        !serves_cache(SearchCacheOpts { no_cache }, Some(age), None),
{
}

/// The listing on disk, if it is used as it is; otherwise cninfo is asked.
/// `age_secs` is the age of the file, `cached` its rows if it reads as a
/// listing.
pub fn consult_cache(
    opts: SearchCacheOpts,
    age_secs: Option<u64>,
    cached: Option<Vec<CnInfoRow>>,
) -> (r: Option<Vec<CnInfoRow>>)
    ensures
        r == (if serves_cache(opts, age_secs, cached) {
            cached
        } else {
            None
        }),
{
    if !opts.no_cache && is_fresh(age_secs, CACHE_TTL_SEARCH_SECS) {
        cached
    } else {
        None
    }
}

/// What becomes of a reply of cninfo.
#[derive(Debug)]
pub enum Loaded {
    /// A listing; what was sent is written to disk.
    Fresh(Vec<CnInfoRow>),
    /// No listing; what is on disk stays as it is.
    Broken(SiftError),
    /// No reply; the listing on disk is tried.
    Unreachable(SiftError),
}

/// What becomes of a reply of cninfo: the error of the transfer, or what the
/// body reads as.
pub fn take_reply(reply: Result<Result<Vec<CnInfoRow>, SiftError>, SiftError>) -> (r: Loaded)
    ensures
        match reply {
            Ok(Ok(rows)) => r == Loaded::Fresh(rows),
            Ok(Err(e)) => r == Loaded::Broken(e),
            Err(e) => r == Loaded::Unreachable(e),
        },
{
    match reply {
        Ok(Ok(rows)) => Loaded::Fresh(rows),
        Ok(Err(e)) => Loaded::Broken(e),
        Err(e) => Loaded::Unreachable(e),
    }
}

/// The listing on disk in place of one that cannot be had, with the warning;
/// or the error of the transfer, if nothing on disk reads as a listing.
pub fn stale_fallback(
    ep: Endpoint,
    net_err: SiftError,
    cached: Option<Vec<CnInfoRow>>,
    when: &str,
) -> (r: Result<(Vec<CnInfoRow>, String), SiftError>)
    ensures
        match cached {
            Some(rows) => r matches Ok(p) && p.0 == rows && p.1@ == "[warn] cninfo "@
                + ep.label_text() + ": upstream failed ("@ + net_err@.message()
                + "); using cache from "@ + when@,
            None => r == Err::<(Vec<CnInfoRow>, String), SiftError>(net_err),
        },
{
    match cached {
        Some(rows) => {
            let mut warning = concat5(
                "[warn] cninfo ",
                ep.label(),
                ": upstream failed (",
                net_err.message().as_str(),
                "); using cache from ",
            );
            warning.append(when);
            Ok((rows, warning))
        },
        None => Err(net_err),
    }
}

/// The warning when a listing cannot be written to disk; the listing is used
/// all the same.
pub fn write_warning(ep: Endpoint, e: &SiftError) -> (out: String)
    ensures
        out@ == "[warn] cninfo "@ + ep.label_text() + ": cache write failed ("@ + e@.message()
            + "); next call will re-fetch"@,
{
    concat5(
        "[warn] cninfo ",
        ep.label(),
        ": cache write failed (",
        e.message().as_str(),
        "); next call will re-fetch",
    )
}

/// The error when there is no place for listings.
pub fn no_cache_root() -> (e: SiftError)
    ensures
        e@ == ErrorView::Io("cache root unresolved; set $HOME"@),
{
    SiftError::Io("cache root unresolved; set $HOME".to_owned())
}

/// A security with its market.
pub open spec fn tagged(rows: Seq<CnInfoRow>, market: Market) -> Seq<(Market, CnInfoRow)> {
    rows.map_values(|r: CnInfoRow| (market, r))
}

/// Every security is listed once with the market of its listing, in order.
pub proof fn law_securities_keep_the_market_of_their_listing(
    rows: Seq<CnInfoRow>,
    market: Market,
    i: int,
)
    requires
        0 <= i < rows.len(),
    ensures
        tagged(rows, market).len() == rows.len(),
        tagged(rows, market)[i].0 == market,
        tagged(rows, market)[i].1 == rows[i],
{
}

/// All securities with their markets, CN-A first.
pub fn load_all_listings(lists: StockLists) -> (out: Vec<(Market, CnInfoRow)>)
    ensures
        out@ == tagged(lists.cn_a@, Market::CnA) + tagged(lists.hk@, Market::Hk),
{
    let StockLists { cn_a, hk } = lists;
    let ghost a = cn_a@;
    let ghost h = hk@;
    let mut out: Vec<(Market, CnInfoRow)> = Vec::new();
    for r in it: cn_a
        invariant
            it.seq() == a,
            out@ == tagged(a.take(it.index() as int), Market::CnA),
    {
        proof {
            assert(tagged(a.take(it.index() as int + 1), Market::CnA) =~= tagged(
                a.take(it.index() as int),
                Market::CnA,
            ).push((Market::CnA, r)));
        }
        out.push((Market::CnA, r));
    }
    proof {
        assert(a.take(a.len() as int) =~= a);
        assert(tagged(h.take(0), Market::Hk) =~= Seq::empty());
        assert(out@ =~= tagged(a, Market::CnA) + tagged(h.take(0), Market::Hk));
    }
    for r in it: hk
        invariant
            it.seq() == h,
            out@ == tagged(a, Market::CnA) + tagged(h.take(it.index() as int), Market::Hk),
    {
        proof {
            assert(tagged(h.take(it.index() as int + 1), Market::Hk) =~= tagged(
                h.take(it.index() as int),
                Market::Hk,
            ).push((Market::Hk, r)));
        }
        out.push((Market::Hk, r));
        proof {
            assert(out@ =~= tagged(a, Market::CnA) + tagged(
                h.take(it.index() as int + 1),
                Market::Hk,
            ));
        }
    }
    proof {
        assert(h.take(h.len() as int) =~= h);
    }
    out
}

/// The names of the codes, from the two listings on disk; none without a file
/// cache.
pub fn cached_names(
    has_cache: bool,
    szse: Option<Vec<CnInfoRow>>,
    hke: Option<Vec<CnInfoRow>>,
) -> (names: TextMap<String>)
    ensures
        names.wf(),
        text_values(names@) == (if has_cache {
            with_names(with_names(Map::empty(), rows_or_none(szse)), rows_or_none(hke))
        } else {
            Map::empty()
        }),
{
    if has_cache {
        load_cached_names(szse, hke)
    } else {
        let names: TextMap<String> = TextMap::new();
        proof {
            assert(text_values(names@) =~= Map::empty());
        }
        names
    }
}

/// Market and organisation id of the codes, from the two listings on disk; none
/// without a file cache.
pub fn cached_org_ids(
    has_cache: bool,
    szse: Option<Vec<CnInfoRow>>,
    hke: Option<Vec<CnInfoRow>>,
) -> (ids: TextMap<(Market, String)>)
    ensures
        ids.wf(),
        id_values(ids@) == (if has_cache {
            with_ids(
                with_ids(Map::empty(), rows_or_none(szse), Market::CnA),
                rows_or_none(hke),
                Market::Hk,
            )
        } else {
            Map::empty()
        }),
{
    if has_cache {
        load_cached_org_ids(szse, hke)
    } else {
        let ids: TextMap<(Market, String)> = TextMap::new();
        proof {
            assert(id_values(ids@) =~= Map::empty());
        }
        ids
    }
}

/// What is known of a code.
pub open spec fn resolved_in(ids: Map<Seq<char>, (Market, Seq<char>)>, code: Seq<char>) -> Option<
    ResolvedView,
> {
    if ids.contains_key(code) {
        Some(ResolvedView { code, org_id: ids[code].1, market: ids[code].0 })
    } else {
        None
    }
}

pub open spec fn opt_resolved(r: Option<ResolvedSymbol>) -> Option<ResolvedView> {
    match r {
        Some(s) => Some(s@),
        None => None,
    }
}

/// A code that the listings have is resolved to itself, with the organisation and
/// the market that they give; one that they do not have is not.
pub proof fn law_a_listed_code_is_resolved(
    ids: Map<Seq<char>, (Market, Seq<char>)>,
    code: Seq<char>,
    market: Market,
    org_id: Seq<char>,
)
    ensures
        resolved_in(ids.insert(code, (market, org_id)), code) matches Some(s) && s.code == code
            && s.org_id == org_id && s.market == market,
        resolved_in(ids.remove(code), code) is None,
{
}

/// What the listings on disk say of a code. Where they say nothing the listings
/// are loaded, and then [`resolve_org_id`] has the last word.
pub fn lookup_org_id(ids: &TextMap<(Market, String)>, code: &str) -> (r: Option<ResolvedSymbol>)
    requires
        ids.wf(),
    ensures
        opt_resolved(r) == resolved_in(id_values(ids@), code@),
{
    match ids.get(code) {
        Some(v) => Some(
            ResolvedSymbol { code: code.to_owned(), org_id: v.1.clone(), market: v.0 },
        ),
        None => None,
    }
}

/// What the listings say of a code, once they have been loaded.
pub fn resolve_org_id(ids: &TextMap<(Market, String)>, code: &str) -> (r: Result<
    ResolvedSymbol,
    SiftError,
>)
    requires
        ids.wf(),
    ensures
        outcome(r) == (match resolved_in(id_values(ids@), code@) {
            Some(s) => Ok::<ResolvedView, ErrorView>(s),
            None => Err(ErrorView::MissingOrgId(code@)),
        }),
{
    match lookup_org_id(ids, code) {
        Some(s) => Ok(s),
        None => Err(SiftError::MissingOrgId(code.to_owned())),
    }
}

} // verus!
