//! Announcements, and the dictionary of their types.

use vstd::prelude::*;
use vstd::string::*;

use crate::date::Date;
use crate::order::Ranked;
use crate::text::{
    copy_strings, debug_quoted, decimal, decimal_string, lemma_text_less_asymmetric,
    lemma_text_less_total, lemma_text_less_transitive, less, quoted, same, str_views, text_less,
    views,
};
use crate::text_map::TextSet;

verus! {

// ---------------------------------------------------------------------------
// Rows
// ---------------------------------------------------------------------------

/// One announcement.
#[derive(Debug)]
pub struct AnnouncementRow {
    pub id: String,
    pub symbol: String,
    pub name: String,
    pub date: Date,
    /// The type, by its Chinese name.
    pub type_zh: String,
    pub title: String,
    pub format: &'static str,
    pub size_kb: u32,
    pub url: String,
    pub source: &'static str,
}

/// One announcement with its texts taken as such.
pub struct AnnouncementView {
    pub id: Seq<char>,
    pub symbol: Seq<char>,
    pub name: Seq<char>,
    pub date: Date,
    pub type_zh: Seq<char>,
    pub title: Seq<char>,
    pub format: Seq<char>,
    pub size_kb: u32,
    pub url: Seq<char>,
    pub source: Seq<char>,
}

impl View for AnnouncementRow {
    type V = AnnouncementView;

    open spec fn view(&self) -> AnnouncementView {
        AnnouncementView {
            id: self.id@,
            symbol: self.symbol@,
            name: self.name@,
            date: self.date,
            type_zh: self.type_zh@,
            title: self.title@,
            format: self.format@,
            size_kb: self.size_kb,
            url: self.url@,
            source: self.source@,
        }
    }
}

impl Clone for AnnouncementRow {
    fn clone(&self) -> (out: Self)
        ensures
            out@ == self@,
    {
        AnnouncementRow {
            id: self.id.clone(),
            symbol: self.symbol.clone(),
            name: self.name.clone(),
            date: self.date,
            type_zh: self.type_zh.clone(),
            title: self.title.clone(),
            format: self.format,
            size_kb: self.size_kb,
            url: self.url.clone(),
            source: self.source,
        }
    }
}

/// The announcements of a list.
pub open spec fn announcement_views(rows: Seq<AnnouncementRow>) -> Seq<AnnouncementView> {
    rows.map_values(|r: AnnouncementRow| r@)
}

impl AnnouncementView {
    /// The cells of a row, in the order of the headers.
    pub open spec fn cell_texts(self) -> Seq<Seq<char>> {
        seq![
            self.id,
            self.symbol,
            self.name,
            self.date.iso(),
            self.type_zh,
            self.title,
            self.format,
            decimal(self.size_kb as nat),
            self.url,
            self.source,
        ]
    }
}

/// The headers of announcement tables.
pub open spec fn header_texts() -> Seq<Seq<char>> {
    seq![
        "id"@,
        "symbol"@,
        "name"@,
        "date"@,
        "type"@,
        "title"@,
        "format"@,
        "size_kb"@,
        "url"@,
        "source"@,
    ]
}

/// Every cell of an announcement stands under its own header.
pub proof fn law_cells_stand_under_their_headers(a: AnnouncementView)
    ensures
        header_texts().len() == a.cell_texts().len(),
        cell_under(a, "id"@, a.id),
        cell_under(a, "symbol"@, a.symbol),
        cell_under(a, "name"@, a.name),
        cell_under(a, "date"@, a.date.iso()),
        cell_under(a, "type"@, a.type_zh),
        cell_under(a, "title"@, a.title),
        cell_under(a, "format"@, a.format),
        cell_under(a, "size_kb"@, decimal(a.size_kb as nat)),
        cell_under(a, "url"@, a.url),
        cell_under(a, "source"@, a.source),
{
    let h = header_texts();
    let c = a.cell_texts();
    assert(h[0] == "id"@ && c[0] == a.id);
    assert(h[1] == "symbol"@ && c[1] == a.symbol);
    assert(h[2] == "name"@ && c[2] == a.name);
    assert(h[3] == "date"@ && c[3] == a.date.iso());
    assert(h[4] == "type"@ && c[4] == a.type_zh);
    assert(h[5] == "title"@ && c[5] == a.title);
    assert(h[6] == "format"@ && c[6] == a.format);
    assert(h[7] == "size_kb"@ && c[7] == decimal(a.size_kb as nat));
    assert(h[8] == "url"@ && c[8] == a.url);
    assert(h[9] == "source"@ && c[9] == a.source);
}

/// The cell stands under the header.
pub open spec fn cell_under(a: AnnouncementView, header: Seq<char>, cell: Seq<char>) -> bool {
    exists|i: int|
        0 <= i < header_texts().len() && #[trigger] header_texts()[i] == header && a.cell_texts()[i]
            == cell
}

impl AnnouncementRow {
    /// The headers of announcement tables.
    pub fn headers() -> (out: Vec<&'static str>)
        ensures
            str_views(out@) == header_texts(),
    {
        let out = vec![
            "id",
            "symbol",
            "name",
            "date",
            "type",
            "title",
            "format",
            "size_kb",
            "url",
            "source",
        ];
        proof {
            assert(str_views(out@) =~= header_texts());
        }
        out
    }

    /// The cells of the row, in the order of the headers.
    pub fn cells(&self) -> (out: Vec<String>)
        requires
            self.date.wf(),
        ensures
            views(out@) == self@.cell_texts(),
    {
        let mut out: Vec<String> = Vec::new();
        out.push(self.id.clone());
        out.push(self.symbol.clone());
        out.push(self.name.clone());
        out.push(self.date.to_iso());
        out.push(self.type_zh.clone());
        out.push(self.title.clone());
        out.push(self.format.to_owned());
        out.push(decimal_string(self.size_kb as u64));
        out.push(self.url.clone());
        out.push(self.source.to_owned());
        proof {
            assert(views(out@) =~= self@.cell_texts());
        }
        out
    }
}

/// `a` is listed before `b`: it is of a later day, or of the same day with a
/// greater id.
pub open spec fn newer(a: AnnouncementView, b: AnnouncementView) -> bool {
    b.date.before(a.date) || a.date == b.date && text_less(b.id, a.id)
}

/// No two announcements are listed before each other.
pub proof fn lemma_newer_asymmetric(a: AnnouncementView, b: AnnouncementView)
    ensures
        !(newer(a, b) && newer(b, a)),
{
    lemma_text_less_asymmetric(a.id, b.id);
}

/// What lies between two ordered announcements is ordered against one of them.
pub proof fn lemma_newer_between(a: AnnouncementView, b: AnnouncementView, c: AnnouncementView)
    requires
        newer(a, c),
    ensures
        newer(a, b) || newer(b, c),
{
    lemma_text_less_total(b.id, a.id);
    if text_less(a.id, b.id) && text_less(c.id, a.id) {
        lemma_text_less_transitive(c.id, a.id, b.id);
    }
}

/// Of two announcements with different ids one is listed before the other.
pub proof fn lemma_newer_total(a: AnnouncementView, b: AnnouncementView)
    requires
        a.id != b.id,
    ensures
        newer(a, b) || newer(b, a),
{
    lemma_text_less_total(a.id, b.id);
}

impl Ranked for AnnouncementRow {
    open spec fn precedes(a: Self, b: Self) -> bool {
        newer(a@, b@)
    }

    proof fn asymmetric(a: Self, b: Self) {
        lemma_newer_asymmetric(a@, b@);
    }

    proof fn between(a: Self, b: Self, c: Self) {
        lemma_newer_between(a@, b@, c@);
    }

    fn ranks_before(&self, other: &Self) -> (r: bool) {
        if self.date == other.date {
            less(other.id.as_str(), self.id.as_str())
        } else {
            other.date.is_before(self.date)
        }
    }
}

// ---------------------------------------------------------------------------
// Types
// ---------------------------------------------------------------------------

/// One type: either one that the exchange has, with its key, or one that
/// stands for several others.
#[derive(Debug)]
pub struct Category {
    pub zh: String,
    pub category: Option<String>,
    pub aggregates: Option<Vec<String>>,
}

/// One type with its texts taken as such.
pub struct CategoryView {
    pub zh: Seq<char>,
    pub category: Option<Seq<char>>,
    pub aggregates: Option<Seq<Seq<char>>>,
}

impl View for Category {
    type V = CategoryView;

    open spec fn view(&self) -> CategoryView {
        CategoryView {
            zh: self.zh@,
            category: match self.category {
                Some(c) => Some(c@),
                None => None,
            },
            aggregates: match self.aggregates {
                Some(v) => Some(views(v@)),
                None => None,
            },
        }
    }
}

impl Clone for Category {
    fn clone(&self) -> (out: Self)
        ensures
            out@ == self@,
    {
        let category = match &self.category {
            Some(c) => Some(c.clone()),
            None => None,
        };
        let aggregates = match &self.aggregates {
            Some(v) => Some(copy_strings(v)),
            None => None,
        };
        Category { zh: self.zh.clone(), category, aggregates }
    }
}

pub open spec fn category_views(cats: Seq<Category>) -> Seq<CategoryView> {
    cats.map_values(|c: Category| c@)
}

/// The names of a list of types.
pub open spec fn type_names(cats: Seq<CategoryView>) -> Seq<Seq<char>> {
    cats.map_values(|c: CategoryView| c.zh)
}

/// The first thing that is wrong with the members of an aggregate.
pub open spec fn member_fault(zh: Seq<char>, aggs: Seq<Seq<char>>, names: Seq<Seq<char>>) -> Option<
    Seq<char>,
>
    decreases aggs.len(),
{
    if aggs.len() == 0 {
        None
    } else {
        match member_fault(zh, aggs.drop_last(), names) {
            Some(e) => Some(e),
            None => if !names.contains(aggs.last()) {
                Some(
                    "category "@ + quoted(zh) + ": aggregate "@ + quoted(aggs.last())
                        + " not found in dictionary"@,
                )
            } else if aggs.last() == zh {
                Some("category "@ + quoted(zh) + ": cannot aggregate itself"@)
            } else {
                None
            },
        }
    }
}

/// What is wrong with one type.
pub open spec fn entry_fault(c: CategoryView, names: Seq<Seq<char>>) -> Option<Seq<char>> {
    match (c.category, c.aggregates) {
        (Some(_), Some(_)) => Some(
            "category "@ + quoted(c.zh) + " has both `category` and `aggregates`; pick one"@,
        ),
        (None, None) => Some(
            "category "@ + quoted(c.zh) + " has neither `category` nor `aggregates`"@,
        ),
        (None, Some(aggs)) => if aggs.len() == 0 {
            Some("category "@ + quoted(c.zh) + ": empty aggregates list"@)
        } else {
            member_fault(c.zh, aggs, names)
        },
        (Some(_), None) => None,
    }
}

/// What is wrong with the first type that something is wrong with.
pub open spec fn first_fault(cats: Seq<CategoryView>, names: Seq<Seq<char>>) -> Option<Seq<char>>
    decreases cats.len(),
{
    if cats.len() == 0 {
        None
    } else {
        match first_fault(cats.drop_last(), names) {
            Some(e) => Some(e),
            None => entry_fault(cats.last(), names),
        }
    }
}

/// What is wrong with a dictionary.
pub open spec fn dictionary_fault(cats: Seq<CategoryView>) -> Option<Seq<char>> {
    if cats.len() == 0 {
        Some("empty categories list"@)
    } else if !type_names(cats).no_duplicates() {
        Some("duplicate `zh` entry"@)
    } else {
        first_fault(cats, type_names(cats))
    }
}

/// Whether no name occurs twice.
fn names_differ(cats: &[Category]) -> (r: bool)
    ensures
        r == type_names(category_views(cats@)).no_duplicates(),
{
    let ghost names = type_names(category_views(cats@));
    let mut seen = TextSet::new();
    let mut i: usize = 0;
    while i < cats.len()
        invariant
            i <= cats@.len(),
            names == type_names(category_views(cats@)),
            seen.wf(),
            forall|k: int| 0 <= k < i ==> seen@.contains(#[trigger] names[k]),
            forall|x: Seq<char>| #[trigger]
                seen@.contains(x) ==> exists|k: int| 0 <= k < i && #[trigger] names[k] == x,
            forall|a: int, b: int| 0 <= a < b < i ==> names[a] != names[b],
        decreases cats@.len() - i,
    {
        assert(names[i as int] == cats@[i as int].zh@);
        if seen.contains(cats[i].zh.as_str()) {
            proof {
                let k = choose|k: int| 0 <= k < i && #[trigger] names[k] == names[i as int];
                assert(names[k] == names[i as int]);
                assert(!names.no_duplicates());
            }
            return false;
        }
        let ghost before = seen@;
        seen.insert(cats[i].zh.clone());
        proof {
            assert forall|x: Seq<char>| #[trigger] seen@.contains(x) implies exists|k: int|
                0 <= k < i + 1 && #[trigger] names[k] == x by {
                if before.contains(x) {
                    let k = choose|k: int| 0 <= k < i && #[trigger] names[k] == x;
                    assert(names[k] == x);
                } else {
                    assert(names[i as int] == x);
                }
            }
            assert forall|k: int| 0 <= k < i + 1 implies seen@.contains(#[trigger] names[k]) by {
                if k < i {
                    assert(before.contains(names[k]));
                }
            }
            assert forall|a: int, b: int| 0 <= a < b < i + 1 implies names[a] != names[b] by {
                if b == i {
                    assert(before.contains(names[a]));
                }
            }
        }
        i = i + 1;
    }
    true
}

/// Whether some type has the given name.
fn has_name(cats: &[Category], zh: &str) -> (r: bool)
    ensures
        r == type_names(category_views(cats@)).contains(zh@),
{
    let ghost names = type_names(category_views(cats@));
    let mut i: usize = 0;
    while i < cats.len()
        invariant
            i <= cats@.len(),
            names == type_names(category_views(cats@)),
            forall|k: int| 0 <= k < i ==> #[trigger] names[k] != zh@,
        decreases cats@.len() - i,
    {
        assert(names[i as int] == cats@[i as int].zh@);
        if same(cats[i].zh.as_str(), zh) {
            return true;
        }
        i = i + 1;
    }
    false
}

fn find_member_fault(zh: &str, aggs: &Vec<String>, cats: &[Category]) -> (r: Option<String>)
    ensures
        match r {
            Some(e) => member_fault(zh@, views(aggs@), type_names(category_views(cats@))) == Some(
                e@,
            ),
            None => member_fault(zh@, views(aggs@), type_names(category_views(cats@))) is None,
        },
{
    let ghost names = type_names(category_views(cats@));
    let ghost v = views(aggs@);
    let mut i: usize = 0;
    while i < aggs.len()
        invariant
            i <= aggs@.len(),
            v == views(aggs@),
            names == type_names(category_views(cats@)),
            member_fault(zh@, v.take(i as int), names) is None,
        decreases aggs@.len() - i,
    {
        proof {
            let t = v.take(i as int + 1);
            assert(t.drop_last() =~= v.take(i as int));
            assert(t.last() == aggs@[i as int]@);
        }
        if !has_name(cats, aggs[i].as_str()) {
            let mut e = "category ".to_owned();
            e.append(debug_quoted(zh).as_str());
            e.append(": aggregate ");
            e.append(debug_quoted(aggs[i].as_str()).as_str());
            e.append(" not found in dictionary");
            proof {
                lemma_member_fault_stays(zh@, v, names, i as int + 1, e@);
            }
            return Some(e);
        }
        if same(aggs[i].as_str(), zh) {
            let mut e = "category ".to_owned();
            e.append(debug_quoted(zh).as_str());
            e.append(": cannot aggregate itself");
            proof {
                lemma_member_fault_stays(zh@, v, names, i as int + 1, e@);
            }
            return Some(e);
        }
        i = i + 1;
    }
    proof {
        assert(v.take(v.len() as int) =~= v);
    }
    None
}

proof fn lemma_member_fault_stays(
    zh: Seq<char>,
    aggs: Seq<Seq<char>>,
    names: Seq<Seq<char>>,
    n: int,
    e: Seq<char>,
)
    requires
        0 <= n <= aggs.len(),
        member_fault(zh, aggs.take(n), names) == Some(e),
    ensures
        member_fault(zh, aggs, names) == Some(e),
    decreases aggs.len() - n,
{
    if n < aggs.len() {
        assert(aggs.take(n + 1).drop_last() =~= aggs.take(n));
        lemma_member_fault_stays(zh, aggs, names, n + 1, e);
    } else {
        assert(aggs.take(n) =~= aggs);
    }
}

proof fn lemma_first_fault_stays(
    cats: Seq<CategoryView>,
    names: Seq<Seq<char>>,
    n: int,
    e: Seq<char>,
)
    requires
        0 <= n <= cats.len(),
        first_fault(cats.take(n), names) == Some(e),
    ensures
        first_fault(cats, names) == Some(e),
    decreases cats.len() - n,
{
    if n < cats.len() {
        assert(cats.take(n + 1).drop_last() =~= cats.take(n));
        lemma_first_fault_stays(cats, names, n + 1, e);
    } else {
        assert(cats.take(n) =~= cats);
    }
}

fn find_entry_fault(c: &Category, cats: &[Category]) -> (r: Option<String>)
    ensures
        match r {
            Some(e) => entry_fault(c@, type_names(category_views(cats@))) == Some(e@),
            None => entry_fault(c@, type_names(category_views(cats@))) is None,
        },
{
    match (&c.category, &c.aggregates) {
        (Some(_), Some(_)) => {
            let mut e = "category ".to_owned();
            e.append(debug_quoted(c.zh.as_str()).as_str());
            e.append(" has both `category` and `aggregates`; pick one");
            Some(e)
        },
        (None, None) => {
            let mut e = "category ".to_owned();
            e.append(debug_quoted(c.zh.as_str()).as_str());
            e.append(" has neither `category` nor `aggregates`");
            Some(e)
        },
        (None, Some(aggs)) => {
            if aggs.len() == 0 {
                let mut e = "category ".to_owned();
                e.append(debug_quoted(c.zh.as_str()).as_str());
                e.append(": empty aggregates list");
                Some(e)
            } else {
                find_member_fault(c.zh.as_str(), aggs, cats)
            }
        },
        (Some(_), None) => None,
    }
}

/// Whether a dictionary is sound: it is not empty, no name occurs twice, each
/// type has either a key or members, and members are other types of the
/// dictionary.
pub fn validate_categories(cats: &[Category]) -> (r: Result<(), String>)
    ensures
        match r {
            Ok(()) => dictionary_fault(category_views(cats@)) is None,
            Err(e) => dictionary_fault(category_views(cats@)) == Some(e@),
        },
{
    if cats.len() == 0 {
        return Err("empty categories list".to_owned());
    }
    if !names_differ(cats) {
        return Err("duplicate `zh` entry".to_owned());
    }
    let ghost v = category_views(cats@);
    let ghost names = type_names(v);
    let mut i: usize = 0;
    while i < cats.len()
        invariant
            i <= cats@.len(),
            v == category_views(cats@),
            names == type_names(v),
            v.len() > 0,
            names.no_duplicates(),
            first_fault(v.take(i as int), names) is None,
        decreases cats@.len() - i,
    {
        proof {
            let t = v.take(i as int + 1);
            assert(t.drop_last() =~= v.take(i as int));
            assert(t.last() == cats@[i as int]@);
        }
        match find_entry_fault(&cats[i], cats) {
            Some(e) => {
                proof {
                    lemma_first_fault_stays(v, names, i as int + 1, e@);
                }
                return Err(e);
            },
            None => {},
        }
        i = i + 1;
    }
    proof {
        assert(v.take(v.len() as int) =~= v);
    }
    Ok(())
}

/// The dictionary that a list of types makes, if it is sound.
pub fn categories(cats: Vec<Category>) -> (r: Result<Vec<Category>, String>)
    ensures
        match r {
            Ok(out) => out == cats && dictionary_fault(category_views(cats@)) is None,
            Err(e) => dictionary_fault(category_views(cats@)) == Some(e@),
        },
{
    match validate_categories(cats.as_slice()) {
        Ok(()) => Ok(cats),
        Err(e) => Err(e),
    }
}

/// Type `i` is the first with the given name.
pub open spec fn first_named(cats: Seq<CategoryView>, zh: Seq<char>, i: int) -> bool {
    &&& 0 <= i < cats.len()
    &&& cats[i].zh == zh
    &&& forall|k: int| 0 <= k < i ==> (#[trigger] cats[k]).zh != zh
}

/// The type with the given name.
pub fn lookup<'a>(cats: &'a [Category], zh: &str) -> (r: Option<&'a Category>)
    ensures
        match r {
            Some(c) => exists|i: int| #[trigger]
                first_named(category_views(cats@), zh@, i) && *c == cats@[i],
            None => !type_names(category_views(cats@)).contains(zh@),
        },
{
    let ghost v = category_views(cats@);
    let mut i: usize = 0;
    while i < cats.len()
        invariant
            i <= cats@.len(),
            v == category_views(cats@),
            forall|k: int| 0 <= k < i ==> (#[trigger] v[k]).zh != zh@,
        decreases cats@.len() - i,
    {
        assert(v[i as int] == cats@[i as int]@);
        if same(cats[i].zh.as_str(), zh) {
            assert(first_named(v, zh@, i as int));
            return Some(&cats[i]);
        }
        i = i + 1;
    }
    None
}

/// The first type with the given name.
pub open spec fn type_named(cats: Seq<CategoryView>, zh: Seq<char>) -> Option<CategoryView>
    decreases cats.len(),
{
    if cats.len() == 0 {
        None
    } else {
        match type_named(cats.drop_last(), zh) {
            Some(c) => Some(c),
            None => if cats.last().zh == zh {
                Some(cats.last())
            } else {
                None
            },
        }
    }
}

/// The first type with a name is the one at the first position with it.
pub proof fn lemma_type_named(cats: Seq<CategoryView>, zh: Seq<char>)
    ensures
        forall|i: int| #[trigger]
            first_named(cats, zh, i) ==> type_named(cats, zh) == Some(cats[i]),
        !type_names(cats).contains(zh) ==> type_named(cats, zh) is None,
    decreases cats.len(),
{
    if cats.len() > 0 {
        let t = cats.drop_last();
        lemma_type_named(t, zh);
        assert forall|i: int| #[trigger] first_named(cats, zh, i) implies type_named(cats, zh)
            == Some(cats[i]) by {
            if i < t.len() {
                assert forall|k: int| 0 <= k < i implies (#[trigger] t[k]).zh != zh by {
                    assert(cats[k].zh != zh);
                }
                assert(first_named(t, zh, i));
            } else {
                if type_names(t).contains(zh) {
                    let k = choose|k: int| 0 <= k < t.len() && type_names(t)[k] == zh;
                    assert(cats[k].zh == zh);
                }
            }
        }
        if !type_names(cats).contains(zh) {
            if type_names(t).contains(zh) {
                let k = choose|k: int| 0 <= k < t.len() && type_names(t)[k] == zh;
                assert(type_names(cats)[k] == zh);
            }
            assert(type_names(cats)[cats.len() - 1] != zh);
        }
    }
}

/// Type `i` is the first with the given key.
pub open spec fn first_keyed(cats: Seq<CategoryView>, key: Seq<char>, i: int) -> bool {
    &&& 0 <= i < cats.len()
    &&& cats[i].category == Some(key)
    &&& forall|k: int| 0 <= k < i ==> (#[trigger] cats[k]).category != Some(key)
}

/// The type with the given key. Types that stand for others have none.
pub fn lookup_by_key<'a>(cats: &'a [Category], cninfo_key: &str) -> (r: Option<&'a Category>)
    ensures
        match r {
            Some(c) => exists|i: int| #[trigger]
                first_keyed(category_views(cats@), cninfo_key@, i) && *c == cats@[i],
            None => forall|i: int|
                0 <= i < cats@.len() ==> (#[trigger] cats@[i])@.category != Some(cninfo_key@),
        },
{
    let ghost v = category_views(cats@);
    let mut i: usize = 0;
    while i < cats.len()
        invariant
            i <= cats@.len(),
            v == category_views(cats@),
            forall|k: int| 0 <= k < i ==> (#[trigger] v[k]).category != Some(cninfo_key@),
        decreases cats@.len() - i,
    {
        assert(v[i as int] == cats@[i as int]@);
        match &cats[i].category {
            Some(key) => {
                if same(key.as_str(), cninfo_key) {
                    assert(first_keyed(v, cninfo_key@, i as int));
                    return Some(&cats[i]);
                }
            },
            None => {},
        }
        i = i + 1;
    }
    proof {
        assert forall|i: int| 0 <= i < cats@.len() implies (#[trigger] cats@[i])@.category != Some(
            cninfo_key@,
        ) by {
            assert(v[i] == cats@[i]@);
        }
    }
    None
}

/// A dictionary is sound exactly if it has a type, no two types have the same
/// name, each has either a key or members and not both, and the members of each
/// are at least one and other types of the dictionary.
pub proof fn law_what_makes_a_dictionary_sound(cats: Seq<CategoryView>)
    ensures
        dictionary_fault(cats) is None <==> {
            &&& cats.len() > 0
            &&& forall|i: int, j: int|
                0 <= i < j < cats.len() ==> (#[trigger] cats[i]).zh != (#[trigger] cats[j]).zh
            &&& forall|i: int|
                0 <= i < cats.len() ==> ((#[trigger] cats[i]).category is Some
                    <==> cats[i].aggregates is None)
            &&& forall|i: int|
                0 <= i < cats.len() && (#[trigger] cats[i]).aggregates is Some
                    ==> cats[i].aggregates->0.len() > 0
            &&& forall|i: int, k: int|
                0 <= i < cats.len() && cats[i].aggregates is Some && 0 <= k
                    < cats[i].aggregates->0.len() ==> is_other_type(
                    cats,
                    i,
                    #[trigger] cats[i].aggregates->0[k],
                )
        },
{
    let names = type_names(cats);
    assert(names.no_duplicates() <==> forall|i: int, j: int|
        0 <= i < j < cats.len() ==> (#[trigger] cats[i]).zh != (#[trigger] cats[j]).zh) by {
        if names.no_duplicates() {
            assert forall|i: int, j: int| 0 <= i < j < cats.len() implies (#[trigger] cats[i]).zh
                != (#[trigger] cats[j]).zh by {
                assert(names[i] != names[j]);
            }
        }
    }
    assert forall|i: int, zh: Seq<char>| 0 <= i < cats.len() implies (#[trigger] is_other_type(
        cats,
        i,
        zh,
    ) <==> names.contains(zh) && zh != cats[i].zh) by {
        if names.contains(zh) && zh != cats[i].zh {
            let j = choose|j: int| 0 <= j < names.len() && names[j] == zh;
            assert(cats[j].zh == zh);
        }
        if is_other_type(cats, i, zh) {
            let j = choose|j: int|
                0 <= j < cats.len() && (#[trigger] cats[j]).zh == zh && zh != cats[i].zh;
            assert(names[j] == zh);
        }
    }
    if dictionary_fault(cats) is None {
        assert forall|i: int| 0 <= i < cats.len() implies entry_fault(
            #[trigger] cats[i],
            names,
        ) is None by {
            lemma_no_first_fault(cats, names, i);
        }
        assert forall|i: int, k: int|
            0 <= i < cats.len() && cats[i].aggregates is Some && 0 <= k
                < cats[i].aggregates->0.len() implies is_other_type(
            cats,
            i,
            #[trigger] cats[i].aggregates->0[k],
        ) by {
            assert(entry_fault(cats[i], names) is None);
            lemma_no_member_fault(cats[i].zh, cats[i].aggregates->0, names, k);
        }
    } else if cats.len() > 0 && names.no_duplicates() {
        let i = lemma_first_fault_is(cats, names);
        if cats[i].category is None && cats[i].aggregates is Some && cats[i].aggregates->0.len()
            > 0 {
            let k = lemma_member_fault_is(cats[i].zh, cats[i].aggregates->0, names);
            assert(!is_other_type(cats, i, cats[i].aggregates->0[k]));
        }
    }
}

/// The name is that of a type of the dictionary, and not the name of type `i`.
pub open spec fn is_other_type(cats: Seq<CategoryView>, i: int, zh: Seq<char>) -> bool {
    exists|j: int| 0 <= j < cats.len() && (#[trigger] cats[j]).zh == zh && zh != cats[i].zh
}

proof fn lemma_first_fault_is(cats: Seq<CategoryView>, names: Seq<Seq<char>>) -> (i: int)
    requires
        first_fault(cats, names) is Some,
    ensures
        0 <= i < cats.len(),
        entry_fault(cats[i], names) is Some,
    decreases cats.len(),
{
    let d = cats.drop_last();
    if first_fault(d, names) is Some {
        let i = lemma_first_fault_is(d, names);
        assert(cats[i] == d[i]);
        i
    } else {
        cats.len() - 1
    }
}

proof fn lemma_member_fault_is(zh: Seq<char>, aggs: Seq<Seq<char>>, names: Seq<Seq<char>>) -> (k: int)
    requires
        member_fault(zh, aggs, names) is Some,
    ensures
        0 <= k < aggs.len(),
        !names.contains(aggs[k]) || aggs[k] == zh,
    decreases aggs.len(),
{
    let d = aggs.drop_last();
    if member_fault(zh, d, names) is Some {
        let k = lemma_member_fault_is(zh, d, names);
        assert(aggs[k] == d[k]);
        k
    } else {
        aggs.len() - 1
    }
}

proof fn lemma_no_member_fault(zh: Seq<char>, aggs: Seq<Seq<char>>, names: Seq<Seq<char>>, k: int)
    requires
        member_fault(zh, aggs, names) is None,
        0 <= k < aggs.len(),
    ensures
        names.contains(aggs[k]),
        aggs[k] != zh,
    decreases aggs.len(),
{
    if k < aggs.len() - 1 {
        lemma_no_member_fault(zh, aggs.drop_last(), names, k);
    }
}

proof fn lemma_no_first_fault(cats: Seq<CategoryView>, names: Seq<Seq<char>>, i: int)
    requires
        first_fault(cats, names) is None,
        0 <= i < cats.len(),
    ensures
        entry_fault(cats[i], names) is None,
    decreases cats.len(),
{
    if i < cats.len() - 1 {
        lemma_no_first_fault(cats.drop_last(), names, i);
    }
}

/// In a sound dictionary a type is found by its name.
pub proof fn lemma_sound_type_found(cats: Seq<CategoryView>, i: int)
    requires
        dictionary_fault(cats) is None,
        0 <= i < cats.len(),
    ensures
        type_named(cats, cats[i].zh) == Some(cats[i]),
{
    let names = type_names(cats);
    assert forall|m: int| 0 <= m < i implies (#[trigger] cats[m]).zh != cats[i].zh by {
        assert(names[m] != names[i]);
    }
    assert(first_named(cats, cats[i].zh, i));
    lemma_type_named(cats, cats[i].zh);
}

/// In a sound dictionary every member of an aggregate names another type of
/// the dictionary, and each type has either a key or members.
pub proof fn law_members_are_other_types(cats: Seq<CategoryView>, i: int, k: int)
    requires
        dictionary_fault(cats) is None,
        0 <= i < cats.len(),
    ensures
        cats[i].category is Some <==> cats[i].aggregates is None,
        cats[i].aggregates matches Some(aggs) ==> aggs.len() > 0 && (0 <= k < aggs.len() ==> aggs[k]
            != cats[i].zh && exists|j: int| #[trigger] first_named(cats, aggs[k], j)),
{
    let names = type_names(cats);
    lemma_no_first_fault(cats, names, i);
    if cats[i].aggregates is Some {
        let aggs = cats[i].aggregates->Some_0;
        if 0 <= k < aggs.len() {
            lemma_no_member_fault(cats[i].zh, aggs, names, k);
            let j = choose|j: int| 0 <= j < names.len() && names[j] == aggs[k];
            assert forall|m: int| 0 <= m < j implies (#[trigger] cats[m]).zh != aggs[k] by {
                assert(names[m] != names[j]);
            }
            assert(first_named(cats, aggs[k], j));
        }
    }
}

} // verus!
