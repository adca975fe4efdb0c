//! Listings and symbols of cninfo.

use vstd::prelude::*;
use vstd::string::*;

use crate::domain::market::Market;

verus! {

/// One security of a listing.
#[derive(Debug)]
pub struct CnInfoRow {
    pub code: String,
    /// The short name.
    pub zwjc: String,
    /// The initials of the name, in lower case.
    pub pinyin: String,
    pub category: String,
    pub org_id: String,
}

/// One security with its texts taken as such.
pub struct CnInfoView {
    pub code: Seq<char>,
    pub zwjc: Seq<char>,
    pub pinyin: Seq<char>,
    pub category: Seq<char>,
    pub org_id: Seq<char>,
}

impl View for CnInfoRow {
    type V = CnInfoView;

    open spec fn view(&self) -> CnInfoView {
        CnInfoView {
            code: self.code@,
            zwjc: self.zwjc@,
            pinyin: self.pinyin@,
            category: self.category@,
            org_id: self.org_id@,
        }
    }
}

/// The two listings.
#[derive(Debug)]
pub struct StockLists {
    pub cn_a: Vec<CnInfoRow>,
    pub hk: Vec<CnInfoRow>,
}

/// A code with what the announcement query needs beside it.
#[derive(Debug)]
pub struct ResolvedSymbol {
    pub code: String,
    pub org_id: String,
    pub market: Market,
}

/// A resolved code with its texts taken as such.
pub struct ResolvedView {
    pub code: Seq<char>,
    pub org_id: Seq<char>,
    pub market: Market,
}

impl View for ResolvedSymbol {
    type V = ResolvedView;

    open spec fn view(&self) -> ResolvedView {
        ResolvedView { code: self.code@, org_id: self.org_id@, market: self.market }
    }
}

/// Where cninfo is: the given address, or the public one.
pub fn cninfo_base(given: Option<String>) -> (out: String)
    ensures
        out@ == (match given {
            Some(base) => base@,
            None => "http://www.cninfo.com.cn"@,
        }),
{
    match given {
        Some(base) => base,
        None => "http://www.cninfo.com.cn".to_owned(),
    }
}

} // verus!
