//! Records by key: what they are, where they are, and how keys are made.

use vstd::prelude::*;
use vstd::string::*;
use vstd::utf8::encode_utf8;

use super::{cache_root, join_path, joined, root_below};
use crate::error::{outcome, ErrorView, SiftError};
use crate::text::{join, join_strings, lemma_split_join, opt_str, str_views, views};

verus! {

/// What a record is about. Its key text begins with it.
#[derive(Debug, Clone, Copy, PartialEq, Eq, Structural)]
pub enum Kind {
    /// One announcement.
    AnnounceMeta,
    /// The rows of one report.
    Financials,
    /// One snapshot of the whole market.
    MarketSnapshot,
}

impl Kind {
    pub open spec fn label_text(self) -> Seq<char> {
        match self {
            Kind::AnnounceMeta => "announce-meta"@,
            Kind::Financials => "financials"@,
            Kind::MarketSnapshot => "market-snapshot"@,
        }
    }

    /// The label in keys.
    pub fn label(self) -> (out: &'static str)
        ensures
            out@ == self.label_text(),
    {
        match self {
            Kind::AnnounceMeta => "announce-meta",
            Kind::Financials => "financials",
            Kind::MarketSnapshot => "market-snapshot",
        }
    }
}

/// The BLAKE3 digest of some bytes.
pub uninterp spec fn blake3_digest(input: Seq<u8>) -> Seq<u8>;

/// `blake3::hash`: the digest depends on the bytes alone and has 32 bytes.
#[verifier::external_body]
pub(crate) fn blake3_hash(input: &[u8]) -> (out: Vec<u8>)
    ensures
        out@ == blake3_digest(input@),
        out@.len() == 32,
{
    blake3::hash(input).as_bytes().to_vec()
}

/// The text that a key is the digest of: kind, scope and id, with colons
/// between them.
pub open spec fn key_text(kind: Kind, scope: Seq<Seq<char>>, id: Seq<char>) -> Seq<char> {
    join(seq![kind.label_text()] + scope + seq![id], ":"@)
}

/// The key of a record.
pub fn make_key(kind: Kind, scope_parts: &[&str], id: &str) -> (out: Vec<u8>)
    ensures
        out@ == blake3_digest(encode_utf8(key_text(kind, str_views(scope_parts@), id@))),
        out@.len() == 32,
{
    let mut parts: Vec<String> = Vec::new();
    parts.push(kind.label().to_owned());
    let mut i: usize = 0;
    proof {
        assert(views(parts@) =~= seq![kind.label_text()] + str_views(scope_parts@).take(0));
    }
    while i < scope_parts.len()
        invariant
            i <= scope_parts@.len(),
            views(parts@) == seq![kind.label_text()] + str_views(scope_parts@).take(i as int),
        decreases scope_parts@.len() - i,
    {
        let ghost before = views(parts@);
        parts.push(scope_parts[i].to_owned());
        proof {
            assert(views(parts@) =~= before.push(scope_parts@[i as int]@));
            assert(views(parts@) =~= seq![kind.label_text()] + str_views(scope_parts@).take(
                i as int + 1,
            ));
        }
        i = i + 1;
    }
    let ghost before = views(parts@);
    parts.push(id.to_owned());
    proof {
        assert(str_views(scope_parts@).take(i as int) =~= str_views(scope_parts@));
        assert(views(parts@) =~= before.push(id@));
        assert(views(parts@) =~= seq![kind.label_text()] + str_views(scope_parts@) + seq![id@]);
    }
    let text = join_strings(&parts, ":");
    blake3_hash(text.as_str().as_bytes())
}

/// A text without a colon.
pub open spec fn no_colon(s: Seq<char>) -> bool {
    forall|i: int| 0 <= i < s.len() ==> s[i] != ':'
}

proof fn lemma_label_no_colon(kind: Kind)
    ensures
        no_colon(kind.label_text()),
{
    reveal_strlit("announce-meta");
    reveal_strlit("financials");
    reveal_strlit("market-snapshot");
}

proof fn lemma_labels_differ(a: Kind, b: Kind)
    requires
        a.label_text() == b.label_text(),
    ensures
        a == b,
{
    reveal_strlit("announce-meta");
    reveal_strlit("financials");
    reveal_strlit("market-snapshot");
    assert("announce-meta"@.len() == 13);
    assert("financials"@.len() == 10);
    assert("market-snapshot"@.len() == 15);
}

/// Where no part holds a colon, a key text stands for one kind, one scope and
/// one id only.
pub proof fn law_key_texts_differ(
    kind1: Kind,
    scope1: Seq<Seq<char>>,
    id1: Seq<char>,
    kind2: Kind,
    scope2: Seq<Seq<char>>,
    id2: Seq<char>,
)
    requires
        no_colon(id1),
        no_colon(id2),
        forall|i: int| 0 <= i < scope1.len() ==> no_colon(#[trigger] scope1[i]),
        forall|i: int| 0 <= i < scope2.len() ==> no_colon(#[trigger] scope2[i]),
        key_text(kind1, scope1, id1) == key_text(kind2, scope2, id2),
    ensures
        kind1 == kind2,
        scope1 == scope2,
        id1 == id2,
{
    let a = seq![kind1.label_text()] + scope1 + seq![id1];
    let b = seq![kind2.label_text()] + scope2 + seq![id2];
    reveal_strlit(":");
    assert(":"@ =~= seq![':']);
    lemma_label_no_colon(kind1);
    lemma_label_no_colon(kind2);
    lemma_parts_no_colon(kind1, scope1, id1);
    lemma_parts_no_colon(kind2, scope2, id2);
    lemma_split_join(a, ':');
    lemma_split_join(b, ':');
    assert(a == b);
    assert(a[0] == kind1.label_text() && b[0] == kind2.label_text());
    lemma_labels_differ(kind1, kind2);
    assert(a.last() == id1 && b.last() == id2);
    assert(a.subrange(1, a.len() - 1) =~= scope1);
    assert(b.subrange(1, b.len() - 1) =~= scope2);
}

proof fn lemma_parts_no_colon(kind: Kind, scope: Seq<Seq<char>>, id: Seq<char>)
    requires
        no_colon(id),
        forall|i: int| 0 <= i < scope.len() ==> no_colon(#[trigger] scope[i]),
    ensures
        ({
            let p = seq![kind.label_text()] + scope + seq![id];
            forall|i: int, j: int|
                0 <= i < p.len() && 0 <= j < p[i].len() ==> (#[trigger] p[i][j]) != ':'
        }),
{
    let p = seq![kind.label_text()] + scope + seq![id];
    lemma_label_no_colon(kind);
    assert forall|i: int, j: int| 0 <= i < p.len() && 0 <= j < p[i].len() implies (
    #[trigger] p[i][j]) != ':' by {
        if i == 0 {
            assert(p[i] == kind.label_text());
        } else if i == p.len() - 1 {
            assert(p[i] == id);
        } else {
            assert(p[i] == scope[i - 1]);
            assert(no_colon(scope[i - 1]));
        }
    }
}

/// Where records are kept.
pub fn default_path(home: Option<&str>) -> (r: Result<String, SiftError>)
    ensures
        outcome(r) == (match root_below(opt_str(home)) {
            Ok(root) => Ok::<Seq<char>, ErrorView>(joined(root, "records.duckdb"@)),
            Err(e) => Err(e),
        }),
{
    match cache_root(home) {
        Ok(root) => Ok(join_path(root.as_str(), "records.duckdb")),
        Err(e) => Err(e),
    }
}

/// One record as it was found: its bytes, and when it was written, in
/// nanoseconds since 1970, where that is known.
#[derive(Debug)]
pub struct CacheEntry {
    pub body: Vec<u8>,
    pub created_at: Option<i128>,
}

/// Where records are kept, if anywhere.
#[derive(Debug)]
pub struct RecordCache {
    db_path: String,
    no_cache: bool,
}

impl RecordCache {
    /// The file that holds the records; `None` where nothing is kept.
    pub closed spec fn file(self) -> Option<Seq<char>> {
        if self.no_cache {
            None
        } else {
            Some(self.db_path@)
        }
    }

    /// The records at the default place.
    pub fn open(home: Option<&str>) -> (r: Result<RecordCache, SiftError>)
        ensures
            match r {
                Ok(c) => root_below(opt_str(home)) matches Ok(root) && c.file() == Some(
                    joined(root, "records.duckdb"@),
                ),
                Err(e) => root_below(opt_str(home)) == Err::<Seq<char>, ErrorView>(e@),
            },
    {
        match default_path(home) {
            Ok(path) => Ok(RecordCache::open_at(path)),
            Err(e) => Err(e),
        }
    }

    /// The records in a given file.
    pub fn open_at(path: String) -> (c: RecordCache)
        ensures
            c.file() == Some(path@),
    {
        RecordCache { db_path: path, no_cache: false }
    }

    /// Records that are never found and never kept.
    pub fn no_op() -> (c: RecordCache)
        ensures
            c.file() is None,
    {
        RecordCache { db_path: String::new(), no_cache: true }
    }

    /// The file to open for a read or a write; `None` where reads find nothing
    /// and writes are dropped.
    pub fn path(&self) -> (r: Option<&str>)
        ensures
            match r {
                Some(p) => self.file() == Some(p@),
                None => self.file() is None,
            },
    {
        if self.no_cache {
            None
        } else {
            Some(self.db_path.as_str())
        }
    }
}

} // verus!
