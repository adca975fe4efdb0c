//! Cached reports: rows as they are stored, the records that hold them, and
//! what a record that was found is worth.

use vstd::prelude::*;
use vstd::string::*;
use vstd::utf8::encode_utf8;

use super::record::{blake3_digest, blake3_hash};
use super::ttl::{bucket_for, bucket_of_age, fresh_at, instant, is_fresh};
use crate::date::{read_instant, rfc3339_instant, Date};
use crate::domain::items_dict::{DictView, ItemsDict};
use crate::domain::market::{InstrumentKind, Market};
use crate::domain::period::{hyphenated_date_prefix, parse_date_prefix, period_of};
use crate::domain::financial_row::{row_views, RowView};
use crate::domain::symbol::SymbolView;
use crate::domain::{
    Amount, AuditStatus, FinancialRow, Period, PeriodType, Scope, SourceTag, Statement, Symbol,
    Unit,
};
use crate::error::{outcome, ErrorView, SiftError};
use crate::text::{
    chars_of, find_char, index_of_char, join, join_strings, lemma_index_of_char_is,
    lemma_split_join, lemma_text_less_asymmetric, lemma_text_less_total, lemma_text_less_transitive,
    less, opt_text, same, string_of, text_less, views,
};
use crate::text_map::TextSet;

verus! {

// ---------------------------------------------------------------------------
// Rows as they are stored
// ---------------------------------------------------------------------------

/// A row as it is stored: texts for everything but the figure and the market.
#[derive(Debug)]
pub struct StoredRow {
    pub symbol_code: String,
    pub symbol_market: u8,
    pub name: String,
    pub period: String,
    pub period_type: String,
    pub statement: String,
    pub scope: String,
    pub item: String,
    pub value: Amount,
    pub unit: String,
    pub currency: String,
    pub publish_date: Option<String>,
    pub audit: String,
    pub source: String,
}

/// A stored row with its texts taken as such.
pub struct StoredView {
    pub symbol_code: Seq<char>,
    pub symbol_market: u8,
    pub name: Seq<char>,
    pub period: Seq<char>,
    pub period_type: Seq<char>,
    pub statement: Seq<char>,
    pub scope: Seq<char>,
    pub item: Seq<char>,
    pub value: Amount,
    pub unit: Seq<char>,
    pub currency: Seq<char>,
    pub publish_date: Option<Seq<char>>,
    pub audit: Seq<char>,
    pub source: Seq<char>,
}

/// The text of a date, where there is one.
pub open spec fn opt_iso(d: Option<Date>) -> Option<Seq<char>> {
    match d {
        Some(d) => Some(d.iso()),
        None => None,
    }
}

impl View for StoredRow {
    type V = StoredView;

    open spec fn view(&self) -> StoredView {
        StoredView {
            symbol_code: self.symbol_code@,
            symbol_market: self.symbol_market,
            name: self.name@,
            period: self.period@,
            period_type: self.period_type@,
            statement: self.statement@,
            scope: self.scope@,
            item: self.item@,
            value: self.value,
            unit: self.unit@,
            currency: self.currency@,
            publish_date: opt_text(self.publish_date),
            audit: self.audit@,
            source: self.source@,
        }
    }
}

/// The stored rows of a list.
pub open spec fn stored_views(rows: Seq<StoredRow>) -> Seq<StoredView> {
    rows.map_values(|r: StoredRow| r@)
}

/// A row as it is stored.
pub open spec fn stored(r: RowView) -> StoredView {
    StoredView {
        symbol_code: r.symbol.code,
        symbol_market: r.symbol.market.rank() as u8,
        name: r.name,
        period: r.period.iso(),
        period_type: r.period_type.label(),
        statement: r.statement.label(),
        scope: r.scope.label(),
        item: r.item,
        value: r.value,
        unit: r.unit.label(),
        currency: r.currency,
        publish_date: opt_iso(r.publish_date),
        audit: r.audit.label(),
        source: r.source.label(),
    }
}

/// The market with the given number; CN-A for any other number.
pub open spec fn numbered_market(n: u8) -> Market {
    if n == 1 {
        Market::Hk
    } else if n == 2 {
        Market::Us
    } else {
        Market::CnA
    }
}

/// The market with the given number; CN-A for any other number.
pub fn market_from_u8(n: u8) -> (m: Market)
    ensures
        m == numbered_market(n),
{
    if n == 1 {
        Market::Hk
    } else if n == 2 {
        Market::Us
    } else {
        Market::CnA
    }
}

pub open spec fn labelled_period_type(s: Seq<char>) -> PeriodType {
    if s == "h1"@ {
        PeriodType::H1
    } else if s == "q1"@ {
        PeriodType::Q1
    } else if s == "q3"@ {
        PeriodType::Q3
    } else {
        PeriodType::Annual
    }
}

fn period_type_from_str(s: &str) -> (r: PeriodType)
    ensures
        r == labelled_period_type(s@),
{
    if same(s, "h1") {
        PeriodType::H1
    } else if same(s, "q1") {
        PeriodType::Q1
    } else if same(s, "q3") {
        PeriodType::Q3
    } else {
        PeriodType::Annual
    }
}

pub open spec fn labelled_statement(s: Seq<char>) -> Statement {
    if s == "balance"@ {
        Statement::Balance
    } else if s == "cashflow"@ {
        Statement::Cashflow
    } else if s == "indicator"@ {
        Statement::Indicator
    } else {
        Statement::Income
    }
}

fn statement_from_str(s: &str) -> (r: Statement)
    ensures
        r == labelled_statement(s@),
{
    if same(s, "balance") {
        Statement::Balance
    } else if same(s, "cashflow") {
        Statement::Cashflow
    } else if same(s, "indicator") {
        Statement::Indicator
    } else {
        Statement::Income
    }
}

pub open spec fn labelled_scope(s: Seq<char>) -> Scope {
    if s == "parent"@ {
        Scope::Parent
    } else {
        Scope::Consolidated
    }
}

fn scope_from_str(s: &str) -> (r: Scope)
    ensures
        r == labelled_scope(s@),
{
    if same(s, "parent") {
        Scope::Parent
    } else {
        Scope::Consolidated
    }
}

pub open spec fn labelled_unit(s: Seq<char>) -> Unit {
    if s == "wan"@ {
        Unit::Wan
    } else if s == "yi"@ {
        Unit::Yi
    } else {
        Unit::Raw
    }
}

fn unit_from_str(s: &str) -> (r: Unit)
    ensures
        r == labelled_unit(s@),
{
    if same(s, "wan") {
        Unit::Wan
    } else if same(s, "yi") {
        Unit::Yi
    } else {
        Unit::Raw
    }
}

pub open spec fn labelled_audit(s: Seq<char>) -> AuditStatus {
    if s == "audited"@ {
        AuditStatus::Audited
    } else if s == "unaudited"@ {
        AuditStatus::Unaudited
    } else {
        AuditStatus::Unknown
    }
}

fn audit_from_str(s: &str) -> (r: AuditStatus)
    ensures
        r == labelled_audit(s@),
{
    if same(s, "audited") {
        AuditStatus::Audited
    } else if same(s, "unaudited") {
        AuditStatus::Unaudited
    } else {
        AuditStatus::Unknown
    }
}

/// The row that a stored one stands for. Texts that say nothing known fall
/// back: the date to 1970-01-01, the labels to their defaults.
pub open spec fn restored(s: StoredView) -> RowView {
    RowView {
        symbol: SymbolView {
            code: s.symbol_code,
            market: numbered_market(s.symbol_market),
            kind: InstrumentKind::Equity,
        },
        name: s.name,
        period: match hyphenated_date_prefix(s.period) {
            Some(d) => d,
            None => Date { year: 1970, month: 1, day: 1 },
        },
        period_type: labelled_period_type(s.period_type),
        statement: labelled_statement(s.statement),
        scope: labelled_scope(s.scope),
        item: s.item,
        value: s.value,
        unit: labelled_unit(s.unit),
        currency: s.currency,
        publish_date: match s.publish_date {
            Some(t) => hyphenated_date_prefix(t),
            None => None,
        },
        audit: labelled_audit(s.audit),
        source: match SourceTag::named(s.source) {
            Some(t) => t,
            None => SourceTag::EastMoney,
        },
    }
}

impl StoredRow {
    /// A row as it is stored.
    pub fn from_row(r: &FinancialRow) -> (out: StoredRow)
        requires
            r@.dated(),
        ensures
            out@ == stored(r@),
    {
        let publish_date = match r.publish_date {
            Some(d) => Some(d.to_iso()),
            None => None,
        };
        let out = StoredRow {
            symbol_code: r.symbol.code.clone(),
            symbol_market: r.symbol.market.position(),
            name: r.name.clone(),
            period: r.period.to_iso(),
            period_type: r.period_type.as_str().to_owned(),
            statement: r.statement.as_str().to_owned(),
            scope: r.scope.as_str().to_owned(),
            item: r.item.clone(),
            value: r.value,
            unit: r.unit.as_str().to_owned(),
            currency: r.currency.clone(),
            publish_date,
            audit: r.audit.as_str().to_owned(),
            source: r.source.as_str().to_owned(),
        };
        out
    }

    /// The row that a stored one stands for.
    pub fn into_row(self) -> (out: FinancialRow)
        ensures
            out@ == restored(self@),
            out@.dated(),
    {
        let period = match parse_date_prefix(self.period.as_str()) {
            Some(d) => d,
            None => Date { year: 1970, month: 1, day: 1 },
        };
        let publish_date = match &self.publish_date {
            Some(t) => parse_date_prefix(t.as_str()),
            None => None,
        };
        let source = match SourceTag::from_name(self.source.as_str()) {
            Some(t) => t,
            None => SourceTag::EastMoney,
        };
        FinancialRow {
            symbol: Symbol {
                code: self.symbol_code,
                market: market_from_u8(self.symbol_market),
                kind: InstrumentKind::Equity,
            },
            name: self.name,
            period,
            period_type: period_type_from_str(self.period_type.as_str()),
            statement: statement_from_str(self.statement.as_str()),
            scope: scope_from_str(self.scope.as_str()),
            item: self.item,
            value: self.value,
            unit: unit_from_str(self.unit.as_str()),
            currency: self.currency,
            publish_date,
            audit: audit_from_str(self.audit.as_str()),
            source,
        }
    }
}

proof fn lemma_labels()
    ensures
        forall|t: PeriodType|
            t != PeriodType::Q2 && t != PeriodType::Q4 ==> #[trigger] labelled_period_type(
                t.label(),
            ) == t,
        forall|t: Statement| #[trigger] labelled_statement(t.label()) == t,
        forall|t: Scope| #[trigger] labelled_scope(t.label()) == t,
        forall|t: Unit| #[trigger] labelled_unit(t.label()) == t,
        forall|t: AuditStatus| #[trigger] labelled_audit(t.label()) == t,
{
    reveal_strlit("annual");
    reveal_strlit("h1");
    reveal_strlit("q1");
    reveal_strlit("q3");
    assert("annual"@.len() == 6 && "h1"@.len() == 2);
    assert("h1"@[0] == 'h' && "q1"@[0] == 'q' && "q1"@[1] == '1' && "q3"@[1] == '3');
    reveal_strlit("income");
    reveal_strlit("balance");
    reveal_strlit("cashflow");
    reveal_strlit("indicator");
    assert("income"@.len() == 6 && "balance"@.len() == 7 && "cashflow"@.len() == 8
        && "indicator"@.len() == 9);
    reveal_strlit("consolidated");
    reveal_strlit("parent");
    assert("consolidated"@.len() == 12 && "parent"@.len() == 6);
    reveal_strlit("raw");
    reveal_strlit("wan");
    reveal_strlit("yi");
    assert("raw"@[0] == 'r' && "wan"@[0] == 'w' && "yi"@.len() == 2);
    reveal_strlit("audited");
    reveal_strlit("unaudited");
    reveal_strlit("unknown");
    assert("audited"@.len() == 7 && "unaudited"@.len() == 9 && "unknown"@[0] == 'u'
        && "audited"@[0] == 'a' && "unknown"@.len() == 7);
}

/// A text that is no label falls back: to the annual report, to income, to
/// consolidated, to the currency's own unit, to an audit that is not known, and to
/// the first source. A text that is no day falls back to the first of 1970.
pub proof fn law_unknown_labels_fall_back(s: Seq<char>)
    ensures
        (forall|t: PeriodType| #[trigger] t.label() != s) ==> labelled_period_type(s)
            == PeriodType::Annual,
        (forall|t: Statement| #[trigger] t.label() != s) ==> labelled_statement(s)
            == Statement::Income,
        (forall|t: Scope| #[trigger] t.label() != s) ==> labelled_scope(s) == Scope::Consolidated,
        (forall|t: Unit| #[trigger] t.label() != s) ==> labelled_unit(s) == Unit::Raw,
        (forall|t: AuditStatus| #[trigger] t.label() != s) ==> labelled_audit(s)
            == AuditStatus::Unknown,
        SourceTag::named(s) is None ==> forall|x: StoredView|
            x.source == s ==> (#[trigger] restored(x)).source == SourceTag::EastMoney,
        hyphenated_date_prefix(s) is None ==> forall|x: StoredView|
            x.period == s ==> (#[trigger] restored(x)).period == (Date {
                year: 1970,
                month: 1,
                day: 1,
            }),
{
    assert(PeriodType::H1.label() == "h1"@ && PeriodType::Q1.label() == "q1"@
        && PeriodType::Q3.label() == "q3"@);
    assert(Statement::Balance.label() == "balance"@ && Statement::Cashflow.label() == "cashflow"@
        && Statement::Indicator.label() == "indicator"@);
    assert(Scope::Parent.label() == "parent"@);
    assert(Unit::Wan.label() == "wan"@ && Unit::Yi.label() == "yi"@);
    assert(AuditStatus::Audited.label() == "audited"@ && AuditStatus::Unaudited.label()
        == "unaudited"@);
}

/// A row of which the cache keeps everything: an equity's row for a period that
/// a report covers, with years that have a text.
pub open spec fn kept_whole(r: RowView) -> bool {
    &&& r.dated()
    &&& r.period.year >= 0
    &&& r.publish_date matches Some(d) ==> d.year >= 0
    &&& r.symbol.kind == InstrumentKind::Equity
    &&& r.period_type != PeriodType::Q2 && r.period_type != PeriodType::Q4
}

/// What is stored of a row gives the row back. Left out are an index, whose
/// kind is not stored; the second and fourth quarter alone, which no source
/// reports; and years before 0, which have no text.
pub proof fn law_stored_row_reads_back(r: RowView)
    requires
        kept_whole(r),
    ensures
        restored(stored(r)) == r,
{
    lemma_labels();
    crate::domain::financial_row::law_source_label_round_trip(r.source, r.source.label());
    crate::domain::period::law_iso_text_reads_back(r.period);
    if r.publish_date is Some {
        crate::domain::period::law_iso_text_reads_back(r.publish_date->Some_0);
    }
}

// ---------------------------------------------------------------------------
// Keys
// ---------------------------------------------------------------------------

/// What a key is the digest of: symbol, market, statement, end, scope and
/// source, with bars between them.
pub open spec fn key_text(
    code: Seq<char>,
    market: Market,
    stmt: Statement,
    end: Date,
    scope: Scope,
    source: SourceTag,
) -> Seq<char> {
    join(
        seq![
            code,
            market.lower_label(),
            stmt.label(),
            end.iso(),
            scope.label(),
            source.label(),
        ],
        "|"@,
    )
}

/// The key of a record.
pub fn cache_key(
    sym: &Symbol,
    stmt: Statement,
    period: Period,
    scope: Scope,
    source: SourceTag,
) -> (out: Vec<u8>)
    requires
        period.wf(),
    ensures
        out@ == blake3_digest(
            encode_utf8(key_text(sym@.code, sym.market, stmt, period.end(), scope, source)),
        ),
        out@.len() == 32,
{
    let mut parts: Vec<String> = Vec::new();
    parts.push(sym.code.clone());
    parts.push(sym.market.as_lower().to_owned());
    parts.push(stmt.as_str().to_owned());
    parts.push(period.end_date().to_iso());
    parts.push(scope.as_str().to_owned());
    parts.push(source.as_str().to_owned());
    proof {
        assert(views(parts@) =~= seq![
            sym@.code,
            sym.market.lower_label(),
            stmt.label(),
            period.end().iso(),
            scope.label(),
            source.label(),
        ]);
    }
    let text = join_strings(&parts, "|");
    blake3_hash(text.as_str().as_bytes())
}

/// No bar in a text.
pub open spec fn no_bar(s: Seq<char>) -> bool {
    forall|i: int| 0 <= i < s.len() ==> s[i] != '|'
}

proof fn lemma_no_bars(m: Market, stmt: Statement, end: Date, scope: Scope, source: SourceTag)
    requires
        end.wf(),
    ensures
        no_bar(m.lower_label()),
        no_bar(stmt.label()),
        no_bar(scope.label()),
        no_bar(source.label()),
        no_bar(end.iso()),
{
    reveal_strlit("cn-a");
    reveal_strlit("hk");
    reveal_strlit("us");
    reveal_strlit("income");
    reveal_strlit("balance");
    reveal_strlit("cashflow");
    reveal_strlit("indicator");
    reveal_strlit("consolidated");
    reveal_strlit("parent");
    reveal_strlit("eastmoney");
    reveal_strlit("sina");
    if end.year >= 0 {
        crate::date::lemma_iso_chars(end, '|');
    }
}

/// Codes without a bar have different key texts unless symbol, market,
/// statement, end, scope and source are all the same: sources do not share
/// records, and neither do scopes, statements, periods or symbols.
pub proof fn law_key_texts_differ(
    code1: Seq<char>,
    market1: Market,
    stmt1: Statement,
    end1: Date,
    scope1: Scope,
    source1: SourceTag,
    code2: Seq<char>,
    market2: Market,
    stmt2: Statement,
    end2: Date,
    scope2: Scope,
    source2: SourceTag,
)
    requires
        no_bar(code1),
        no_bar(code2),
        end1.wf() && end1.year >= 0,
        end2.wf() && end2.year >= 0,
        key_text(code1, market1, stmt1, end1, scope1, source1) == key_text(
            code2,
            market2,
            stmt2,
            end2,
            scope2,
            source2,
        ),
    ensures
        code1 == code2,
        market1 == market2,
        stmt1 == stmt2,
        end1 == end2,
        scope1 == scope2,
        source1 == source2,
{
    let a = seq![
        code1,
        market1.lower_label(),
        stmt1.label(),
        end1.iso(),
        scope1.label(),
        source1.label(),
    ];
    let b = seq![
        code2,
        market2.lower_label(),
        stmt2.label(),
        end2.iso(),
        scope2.label(),
        source2.label(),
    ];
    reveal_strlit("|");
    assert("|"@ =~= seq!['|']);
    lemma_no_bars(market1, stmt1, end1, scope1, source1);
    lemma_no_bars(market2, stmt2, end2, scope2, source2);
    lemma_split_join(a, '|');
    lemma_split_join(b, '|');
    assert(a == b);
    assert(a[0] == b[0] && a[1] == b[1] && a[2] == b[2] && a[3] == b[3] && a[4] == b[4] && a[5]
        == b[5]);
    lemma_labels();
    assert(labelled_statement(stmt1.label()) == labelled_statement(stmt2.label()));
    assert(labelled_scope(scope1.label()) == labelled_scope(scope2.label()));
    crate::domain::financial_row::law_source_label_round_trip(source1, source1.label());
    crate::domain::financial_row::law_source_label_round_trip(source2, source2.label());
    crate::domain::period::law_iso_text_reads_back(end1);
    crate::domain::period::law_iso_text_reads_back(end2);
    reveal_strlit("cn-a");
    reveal_strlit("hk");
    reveal_strlit("us");
    assert("cn-a"@.len() == 4 && "hk"@[0] == 'h' && "us"@[0] == 'u');
}

// ---------------------------------------------------------------------------
// Groups
// ---------------------------------------------------------------------------

/// What the rows of one record have in common.
#[derive(Debug)]
struct GroupKey {
    code: String,
    market: Market,
    period: Date,
    statement: Statement,
    scope: Scope,
}

/// What the rows of one record have in common.
pub struct GroupView {
    pub code: Seq<char>,
    pub market: Market,
    pub period: Date,
    pub statement: Statement,
    pub scope: Scope,
}

impl View for GroupKey {
    type V = GroupView;

    closed spec fn view(&self) -> GroupView {
        GroupView {
            code: self.code@,
            market: self.market,
            period: self.period,
            statement: self.statement,
            scope: self.scope,
        }
    }
}

spec fn key_views(keys: Seq<GroupKey>) -> Seq<GroupView> {
    keys.map_values(|k: GroupKey| k@)
}

/// The group of a row.
pub open spec fn group_of(r: RowView) -> GroupView {
    GroupView {
        code: r.symbol.code,
        market: r.symbol.market,
        period: r.period,
        statement: r.statement,
        scope: r.scope,
    }
}

/// Groups in order: by code, market, period, statement and scope.
#[verifier::opaque]
pub open spec fn group_before(a: GroupView, b: GroupView) -> bool {
    ||| text_less(a.code, b.code)
    ||| a.code == b.code && {
        ||| a.market.rank() < b.market.rank()
        ||| a.market == b.market && {
            ||| a.period.before(b.period)
            ||| a.period == b.period && {
                ||| a.statement.rank() < b.statement.rank()
                ||| a.statement == b.statement && a.scope.rank() < b.scope.rank()
            }
        }
    }
}

/// How many groups at the front of `groups` come before `g`.
pub open spec fn group_place(groups: Seq<GroupView>, g: GroupView) -> int
    decreases groups.len(),
{
    if groups.len() > 0 && group_before(groups[0], g) {
        1 + group_place(groups.drop_first(), g)
    } else {
        0
    }
}

/// `groups` with `g` at its place, unless it is there.
pub open spec fn with_group(groups: Seq<GroupView>, g: GroupView) -> Seq<GroupView> {
    if groups.contains(g) {
        groups
    } else {
        groups.insert(group_place(groups, g), g)
    }
}

/// The groups of some rows, in order and each once.
pub open spec fn groups_of(rows: Seq<RowView>) -> Seq<GroupView>
    decreases rows.len(),
{
    if rows.len() == 0 {
        Seq::empty()
    } else {
        with_group(groups_of(rows.drop_last()), group_of(rows.last()))
    }
}

/// Each group comes before all that follow.
pub open spec fn groups_ascend(groups: Seq<GroupView>) -> bool {
    forall|i: int, j: int|
        0 <= i < j < groups.len() ==> group_before(#[trigger] groups[i], #[trigger] groups[j])
}

proof fn lemma_group_order(a: GroupView, b: GroupView, c: GroupView)
    ensures
        !(group_before(a, b) && group_before(b, a)),
        !group_before(a, a),
        group_before(a, b) || group_before(b, a) || a == b,
        group_before(a, b) && group_before(b, c) ==> group_before(a, c),
{
    reveal(group_before);
    lemma_text_less_asymmetric(a.code, b.code);
    lemma_text_less_asymmetric(a.code, a.code);
    lemma_text_less_total(a.code, b.code);
    if text_less(a.code, b.code) && text_less(b.code, c.code) {
        lemma_text_less_transitive(a.code, b.code, c.code);
    }
}

proof fn lemma_group_place(groups: Seq<GroupView>, g: GroupView)
    ensures
        0 <= group_place(groups, g) <= groups.len(),
        forall|i: int| 0 <= i < group_place(groups, g) ==> group_before(#[trigger] groups[i], g),
        group_place(groups, g) < groups.len() ==> !group_before(
            groups[group_place(groups, g)],
            g,
        ),
    decreases groups.len(),
{
    if groups.len() > 0 && group_before(groups[0], g) {
        let t = groups.drop_first();
        lemma_group_place(t, g);
        assert forall|i: int| 0 <= i < group_place(groups, g) implies group_before(
            #[trigger] groups[i],
            g,
        ) by {
            if i > 0 {
                assert(groups[i] == t[i - 1]);
            }
        }
        if group_place(groups, g) < groups.len() {
            assert(groups[group_place(groups, g)] == t[group_place(t, g)]);
        }
    }
}

/// Any place with these properties is the place.
proof fn lemma_group_place_is(groups: Seq<GroupView>, g: GroupView, k: int)
    requires
        0 <= k <= groups.len(),
        forall|i: int| 0 <= i < k ==> group_before(#[trigger] groups[i], g),
        k < groups.len() ==> !group_before(groups[k], g),
    ensures
        group_place(groups, g) == k,
{
    lemma_group_place(groups, g);
}

/// A group at its place leaves the groups in order.
proof fn lemma_with_group(groups: Seq<GroupView>, g: GroupView)
    requires
        groups_ascend(groups),
    ensures
        groups_ascend(with_group(groups, g)),
{
    let w = with_group(groups, g);
    let p = group_place(groups, g);
    lemma_group_place(groups, g);
    if !groups.contains(g) {
        assert forall|i: int, j: int| 0 <= i < j < w.len() implies group_before(
            #[trigger] w[i],
            #[trigger] w[j],
        ) by {
            if j == p {
                assert(w[i] == groups[i]);
            } else if i == p {
                assert(w[j] == groups[j - 1]);
                lemma_group_order(groups[p], g, g);
                assert(groups[p] != g);
                if j - 1 > p {
                    assert(group_before(groups[p], groups[j - 1]));
                    lemma_group_order(g, groups[p], groups[j - 1]);
                }
            } else {
                let a = if i < p {
                    i
                } else {
                    i - 1
                };
                let b = if j < p {
                    j
                } else {
                    j - 1
                };
                assert(w[i] == groups[a] && w[j] == groups[b]);
            }
        }
    }
}

/// Putting a group in adds that group and nothing else.
proof fn lemma_with_group_members(groups: Seq<GroupView>, g: GroupView)
    ensures
        forall|x: GroupView| #[trigger]
            with_group(groups, g).contains(x) <==> groups.contains(x) || x == g,
{
    let w = with_group(groups, g);
    let p = group_place(groups, g);
    lemma_group_place(groups, g);
    if !groups.contains(g) {
        assert forall|x: GroupView| #[trigger] w.contains(x) <==> groups.contains(x) || x == g by {
            if w.contains(x) {
                let k = choose|k: int| 0 <= k < w.len() && w[k] == x;
                if k < p {
                    assert(groups[k] == x);
                } else if k > p {
                    assert(groups[k - 1] == x);
                }
            }
            if groups.contains(x) {
                let k = choose|k: int| 0 <= k < groups.len() && groups[k] == x;
                if k < p {
                    assert(w[k] == x);
                } else {
                    assert(w[k + 1] == x);
                }
            }
            assert(w[p] == g);
        }
    }
}

/// The groups are in order, so none occurs twice, and they are exactly the
/// groups of the rows.
pub proof fn law_groups_are_the_rows_groups(rows: Seq<RowView>)
    ensures
        groups_ascend(groups_of(rows)),
        forall|g: GroupView| #[trigger]
            groups_of(rows).contains(g) <==> exists|k: int|
                0 <= k < rows.len() && group_of(#[trigger] rows[k]) == g,
    decreases rows.len(),
{
    if rows.len() > 0 {
        let t = rows.drop_last();
        law_groups_are_the_rows_groups(t);
        lemma_with_group(groups_of(t), group_of(rows.last()));
        lemma_with_group_members(groups_of(t), group_of(rows.last()));
        assert forall|g: GroupView| #[trigger] groups_of(rows).contains(g) <==> exists|k: int|
            0 <= k < rows.len() && group_of(#[trigger] rows[k]) == g by {
            if groups_of(rows).contains(g) {
                if groups_of(t).contains(g) {
                    let k = choose|k: int| 0 <= k < t.len() && group_of(#[trigger] t[k]) == g;
                    assert(group_of(rows[k]) == g);
                } else {
                    assert(group_of(rows[rows.len() - 1]) == g);
                }
            }
            if exists|k: int| 0 <= k < rows.len() && group_of(#[trigger] rows[k]) == g {
                let k = choose|k: int| 0 <= k < rows.len() && group_of(#[trigger] rows[k]) == g;
                if k < t.len() {
                    assert(group_of(t[k]) == g);
                }
            }
        }
    }
}

fn key_of(r: &FinancialRow) -> (k: GroupKey)
    ensures
        k@ == group_of(r@),
{
    GroupKey {
        code: r.symbol.code.clone(),
        market: r.symbol.market,
        period: r.period,
        statement: r.statement,
        scope: r.scope,
    }
}

fn key_same(a: &GroupKey, b: &GroupKey) -> (r: bool)
    ensures
        r == (a@ == b@),
{
    same(a.code.as_str(), b.code.as_str()) && a.market == b.market && a.period == b.period
        && a.statement == b.statement && a.scope == b.scope
}

fn key_before(a: &GroupKey, b: &GroupKey) -> (r: bool)
    ensures
        r == group_before(a@, b@),
{
    proof {
        reveal(group_before);
        lemma_group_order(a@, b@, b@);
        lemma_text_less_asymmetric(a.code@, b.code@);
    }
    if !same(a.code.as_str(), b.code.as_str()) {
        less(a.code.as_str(), b.code.as_str())
    } else if a.market != b.market {
        proof {
            lemma_text_less_asymmetric(a.code@, a.code@);
        }
        a.market.position() < b.market.position()
    } else if a.period != b.period {
        proof {
            lemma_text_less_asymmetric(a.code@, a.code@);
        }
        a.period.is_before(b.period)
    } else if a.statement != b.statement {
        proof {
            lemma_text_less_asymmetric(a.code@, a.code@);
        }
        a.statement.position() < b.statement.position()
    } else {
        proof {
            lemma_text_less_asymmetric(a.code@, a.code@);
        }
        a.scope.position() < b.scope.position()
    }
}

/// The groups of some rows, in order and each once.
fn group_keys(rows: &[FinancialRow]) -> (keys: Vec<GroupKey>)
    ensures
        key_views(keys@) == groups_of(row_views(rows@)),
{
    let ghost v = row_views(rows@);
    let mut keys: Vec<GroupKey> = Vec::new();
    let mut i: usize = 0;
    proof {
        assert(v.take(0) =~= Seq::empty());
        assert(key_views(keys@) =~= Seq::empty());
    }
    while i < rows.len()
        invariant
            v == row_views(rows@),
            i <= rows@.len(),
            key_views(keys@) == groups_of(v.take(i as int)),
        decreases rows@.len() - i,
    {
        let key = key_of(&rows[i]);
        let ghost before = key_views(keys@);
        let ghost g = key@;
        proof {
            let t = v.take(i as int + 1);
            assert(t.drop_last() =~= v.take(i as int));
            assert(t.last() == rows@[i as int]@);
            law_groups_are_the_rows_groups(v.take(i as int));
        }
        let mut p: usize = 0;
        while p < keys.len() && key_before(&keys[p], &key)
            invariant
                p <= keys@.len(),
                before == key_views(keys@),
                g == key@,
                forall|k: int| 0 <= k < p ==> group_before(#[trigger] before[k], g),
            decreases keys@.len() - p,
        {
            p = p + 1;
        }
        proof {
            lemma_group_place_is(before, g, p as int);
        }
        if p < keys.len() && key_same(&keys[p], &key) {
            proof {
                assert(before[p as int] == g);
                assert(before.contains(g));
            }
        } else {
            proof {
                if before.contains(g) {
                    let k = choose|k: int| 0 <= k < before.len() && before[k] == g;
                    lemma_group_order(g, g, g);
                    assert(k > p);
                    assert(group_before(before[p as int], before[k]));
                }
            }
            keys.insert(p, key);
            proof {
                assert(key_views(keys@) =~= before.insert(p as int, g));
            }
        }
        i = i + 1;
    }
    proof {
        assert(v.take(v.len() as int) =~= v);
    }
    keys
}

// ---------------------------------------------------------------------------
// Records
// ---------------------------------------------------------------------------

/// One record: the columns, and the rows that go into its body.
#[derive(Debug)]
pub struct PutRecord {
    pub key: Vec<u8>,
    pub symbol: String,
    pub statement: String,
    pub period_end: String,
    pub period_type: String,
    pub scope: String,
    pub source: String,
    pub rows: Vec<StoredRow>,
    pub publish_date: Option<String>,
}

/// One record with its texts taken as such.
pub struct PutView {
    pub key: Seq<u8>,
    pub symbol: Seq<char>,
    pub statement: Seq<char>,
    pub period_end: Seq<char>,
    pub period_type: Seq<char>,
    pub scope: Seq<char>,
    pub source: Seq<char>,
    pub rows: Seq<StoredView>,
    pub publish_date: Option<Seq<char>>,
}

impl View for PutRecord {
    type V = PutView;

    open spec fn view(&self) -> PutView {
        PutView {
            key: self.key@,
            symbol: self.symbol@,
            statement: self.statement@,
            period_end: self.period_end@,
            period_type: self.period_type@,
            scope: self.scope@,
            source: self.source@,
            rows: stored_views(self.rows@),
            publish_date: opt_text(self.publish_date),
        }
    }
}

pub open spec fn put_views(records: Seq<PutRecord>) -> Seq<PutView> {
    records.map_values(|r: PutRecord| r@)
}

/// The rows of a group, in the order in which they came.
pub open spec fn members(rows: Seq<RowView>, g: GroupView) -> Seq<RowView> {
    rows.filter(|r: RowView| group_of(r) == g)
}

/// The first publication date that a row gives.
pub open spec fn first_published(rows: Seq<RowView>) -> Option<Date>
    decreases rows.len(),
{
    if rows.len() == 0 {
        None
    } else {
        match first_published(rows.drop_last()) {
            Some(d) => Some(d),
            None => rows.last().publish_date,
        }
    }
}

/// The record of a group with the given rows.
pub open spec fn record_of(g: GroupView, rows: Seq<RowView>, source: SourceTag) -> PutView {
    PutView {
        key: blake3_digest(
            encode_utf8(key_text(g.code, g.market, g.statement, g.period, g.scope, source)),
        ),
        symbol: g.code,
        statement: g.statement.label(),
        period_end: g.period.iso(),
        period_type: match PeriodType::of_date(g.period) {
            Some(t) => t.label(),
            None => PeriodType::Annual.label(),
        },
        scope: g.scope.label(),
        source: source.label(),
        rows: rows.map_values(|r: RowView| stored(r)),
        publish_date: opt_iso(first_published(rows)),
    }
}

/// The records of some rows, one for each group.
pub open spec fn records(rows: Seq<RowView>, source: SourceTag) -> Seq<PutView> {
    groups_of(rows).map_values(|g: GroupView| record_of(g, members(rows, g), source))
}

/// Some row is of a year before 0, whose end has no text.
pub open spec fn has_early_year(rows: Seq<RowView>) -> bool {
    exists|i: int| 0 <= i < rows.len() && (#[trigger] rows[i]).period.year < 0
}

/// The period that an end text gives; a time of day behind `T` is ignored.
pub open spec fn period_of_iso(s: Seq<char>) -> Result<Period, ErrorView> {
    period_of(s.take(index_of_char(s, 'T')))
}

fn parse_period_from_iso(s: &str) -> (r: Result<Period, SiftError>)
    ensures
        outcome(r) == period_of_iso(s@),
        r matches Ok(p) ==> p.wf(),
{
    let v = chars_of(s);
    let at: usize = find_char(&v, 'T', 0);
    proof {
        assert(v@.skip(0) =~= v@);
        assert(v@.subrange(0, at as int) =~= v@.take(at as int));
    }
    let head = string_of(&v, 0, at);
    Period::parse(head.as_str())
}

proof fn lemma_period_of_iso(d: Date)
    requires
        d.wf(),
        d.year >= 0,
    ensures
        period_of_iso(d.iso()) == Ok::<Period, ErrorView>(Period::of_date(d)),
        Period::of_date(d).wf(),
        Period::of_date(d).end() == d,
        Period::of_date(d).shape() == PeriodType::of_date(d),
{
    let s = d.iso();
    crate::date::lemma_iso_chars(d, 'T');
    lemma_index_of_char_is(s, 'T', s.len() as int);
    assert(s.take(s.len() as int) =~= s);
    crate::domain::period::law_end_date_text_reads_back(Period::of_date(d));
}

/// The stored rows of a group, and its first publication date.
fn collect_group(rows: &[FinancialRow], key: &GroupKey) -> (r: (Vec<StoredRow>, Option<Date>))
    requires
        forall|i: int| 0 <= i < rows@.len() ==> (#[trigger] rows@[i])@.dated(),
    ensures
        stored_views(r.0@) == members(row_views(rows@), key@).map_values(
            |r: RowView| stored(r),
        ),
        r.1 == first_published(members(row_views(rows@), key@)),
        r.1 matches Some(d) ==> d.wf(),
{
    let ghost v = row_views(rows@);
    let ghost pred = |r: RowView| group_of(r) == key@;
    let mut out: Vec<StoredRow> = Vec::new();
    let mut publish: Option<Date> = None;
    let mut i: usize = 0;
    proof {
        reveal(Seq::filter);
        assert(v.take(0) =~= Seq::empty());
        assert(v.take(0).filter(pred) =~= Seq::empty());
        assert(stored_views(out@) =~= v.take(0).filter(pred).map_values(|r: RowView| stored(r)));
    }
    while i < rows.len()
        invariant
            v == row_views(rows@),
            pred == (|r: RowView| group_of(r) == key@),
            forall|i: int| 0 <= i < rows@.len() ==> (#[trigger] rows@[i])@.dated(),
            i <= rows@.len(),
            stored_views(out@) == v.take(i as int).filter(pred).map_values(|r: RowView| stored(r)),
            publish == first_published(v.take(i as int).filter(pred)),
            publish matches Some(d) ==> d.wf(),
        decreases rows@.len() - i,
    {
        let ghost done = v.take(i as int);
        let ghost f = done.filter(pred);
        proof {
            assert(v.take(i as int + 1) =~= done.push(rows@[i as int]@));
            done.lemma_filter_push(rows@[i as int]@, pred);
        }
        if key_same(&key_of(&rows[i]), key) {
            let ghost before = stored_views(out@);
            out.push(StoredRow::from_row(&rows[i]));
            proof {
                let x = rows@[i as int]@;
                assert(v.take(i as int + 1).filter(pred) == f.push(x));
                assert(stored_views(out@) =~= before.push(stored(x)));
                assert(f.push(x).map_values(|r: RowView| stored(r)) =~= f.map_values(
                    |r: RowView| stored(r),
                ).push(stored(x)));
                assert(f.push(x).drop_last() =~= f);
            }
            match publish {
                Some(_) => {},
                None => {
                    publish = rows[i].publish_date;
                },
            }
        }
        i = i + 1;
    }
    proof {
        assert(v.take(v.len() as int) =~= v);
    }
    (out, publish)
}

/// The records to write for some rows of one source: one for each symbol,
/// period, statement and scope. A row of a year before 0 spoils all, and then
/// nothing is written.
pub fn put_records(rows: &[FinancialRow], source: SourceTag) -> (r: Result<
    Vec<PutRecord>,
    SiftError,
>)
    requires
        forall|i: int| 0 <= i < rows@.len() ==> (#[trigger] rows@[i])@.dated(),
    ensures
        match r {
            Ok(out) => !has_early_year(row_views(rows@)) && put_views(out@) == records(
                row_views(rows@),
                source,
            ),
            Err(e) => has_early_year(row_views(rows@)) && period_of(Seq::empty()) == Err::<
                Period,
                ErrorView,
            >(e@),
        },
{
    let ghost v = row_views(rows@);
    let keys = group_keys(rows);
    let ghost groups = groups_of(v);
    proof {
        law_groups_are_the_rows_groups(v);
    }
    let mut out: Vec<PutRecord> = Vec::new();
    let mut i: usize = 0;
    while i < keys.len()
        invariant
            v == row_views(rows@),
            groups == groups_of(v),
            key_views(keys@) == groups,
            forall|g: GroupView| #[trigger]
                groups.contains(g) <==> exists|k: int|
                    0 <= k < v.len() && group_of(#[trigger] v[k]) == g,
            forall|i: int| 0 <= i < rows@.len() ==> (#[trigger] rows@[i])@.dated(),
            i <= keys@.len(),
            out@.len() == i,
            forall|k: int| 0 <= k < i ==> (#[trigger] groups[k]).period.year >= 0,
            forall|k: int|
                0 <= k < i ==> (#[trigger] out@[k])@ == record_of(
                    groups[k],
                    members(v, groups[k]),
                    source,
                ),
        decreases keys@.len() - i,
    {
        let key = &keys[i];
        let ghost g = groups[i as int];
        proof {
            assert(g == key@);
            assert(groups.contains(g));
            let k = choose|k: int| 0 <= k < v.len() && group_of(#[trigger] v[k]) == g;
            assert(rows@[k]@ == v[k]);
            if g.period.year < 0 {
                assert(has_early_year(v));
            } else {
                lemma_period_of_iso(g.period);
            }
        }
        let end = key.period.to_iso();
        let period = match parse_period_from_iso(end.as_str()) {
            Ok(p) => p,
            Err(e) => {
                proof {
                    assert(g.period.year < 0);
                    assert(end@ == Seq::<char>::empty());
                    assert(end@.take(index_of_char(end@, 'T')) =~= Seq::<char>::empty());
                }
                return Err(e);
            },
        };
        proof {
            if g.period.year < 0 {
                assert(end@ == Seq::<char>::empty());
                assert(end@.take(index_of_char(end@, 'T')) =~= Seq::<char>::empty());
                crate::domain::period::lemma_empty_is_no_period();
            }
        }
        let sym = Symbol {
            code: key.code.clone(),
            market: key.market,
            kind: InstrumentKind::Equity,
        };
        let period_type = match period.period_type() {
            Some(t) => t,
            None => PeriodType::Annual,
        };
        let (stored_rows, publish) = collect_group(rows, key);
        let publish_date = match publish {
            Some(d) => Some(d.to_iso()),
            None => None,
        };
        let record = PutRecord {
            key: cache_key(&sym, key.statement, period, key.scope, source),
            symbol: key.code.clone(),
            statement: key.statement.as_str().to_owned(),
            period_end: period.end_date().to_iso(),
            period_type: period_type.as_str().to_owned(),
            scope: key.scope.as_str().to_owned(),
            source: source.as_str().to_owned(),
            rows: stored_rows,
            publish_date,
        };
        out.push(record);
        i = i + 1;
    }
    proof {
        assert(put_views(out@) =~= records(v, source));
        assert forall|k: int| 0 <= k < v.len() implies (#[trigger] v[k]).period.year >= 0 by {
            assert(groups.contains(group_of(v[k])));
            let j = choose|j: int| 0 <= j < groups.len() && groups[j] == group_of(v[k]);
            assert(groups[j].period.year >= 0);
        }
    }
    Ok(out)
}

// ---------------------------------------------------------------------------
// Reading
// ---------------------------------------------------------------------------

/// A row with its item under the standard name.
pub open spec fn with_standard_item(r: RowView, dict: DictView) -> RowView {
    RowView { item: dict.normal(r.item), ..r }
}

/// The items of stored rows that the dictionary does not know, added to `seen`.
pub open spec fn unknown_items(
    rows: Seq<StoredView>,
    dict: DictView,
    seen: Set<Seq<char>>,
) -> Set<Seq<char>>
    decreases rows.len(),
{
    if rows.len() == 0 {
        seen
    } else {
        let before = unknown_items(rows.drop_last(), dict, seen);
        if dict.standard(rows.last().item) is Some {
            before
        } else {
            before.insert(rows.last().item)
        }
    }
}

/// A record counts: it says when it was written, and that is recent enough for
/// the period.
pub open spec fn counts(written: Option<int>, now: int, period: Period, today: Date) -> bool {
    written matches Some(written) && fresh_at(
        now - written,
        bucket_of_age(today.number() - period.end().number()),
    )
}

/// The rows of a record that was found, their items under the names that the
/// dictionary has now. `None` if the record does not count, or its body is no
/// list of rows.
pub fn rows_of_record(
    body: Option<Vec<StoredRow>>,
    fetched_at: &str,
    now: i128,
    period: Period,
    today: Date,
    dict: &ItemsDict,
    unmapped: &mut TextSet,
) -> (r: Option<Vec<FinancialRow>>)
    requires
        instant(now as int),
        period.wf(),
        today.wf(),
        dict.wf(),
        old(unmapped).wf(),
    ensures
        final(unmapped).wf(),
        match (body, counts(rfc3339_instant(fetched_at@), now as int, period, today)) {
            (Some(stored), true) => {
                &&& r matches Some(rows) && row_views(rows@) == stored_views(stored@).map_values(
                    |s: StoredView| with_standard_item(restored(s), dict@),
                )
                &&& final(unmapped)@ == unknown_items(
                    stored_views(stored@),
                    dict@,
                    old(unmapped)@,
                )
            },
            _ => r is None && final(unmapped)@ == old(unmapped)@,
        },
{
    rows_written_at(body, read_instant(fetched_at), now, period, today, dict, unmapped)
}

/// The rows of a record that was written at the given instant, if it says when.
pub fn rows_written_at(
    body: Option<Vec<StoredRow>>,
    written: Option<i128>,
    now: i128,
    period: Period,
    today: Date,
    dict: &ItemsDict,
    unmapped: &mut TextSet,
) -> (r: Option<Vec<FinancialRow>>)
    requires
        written matches Some(t) ==> instant(t as int),
        instant(now as int),
        period.wf(),
        today.wf(),
        dict.wf(),
        old(unmapped).wf(),
    ensures
        final(unmapped).wf(),
        match (body, counts(instant_of(written), now as int, period, today)) {
            (Some(stored), true) => {
                &&& r matches Some(rows) && row_views(rows@) == stored_views(stored@).map_values(
                    |s: StoredView| with_standard_item(restored(s), dict@),
                )
                &&& final(unmapped)@ == unknown_items(
                    stored_views(stored@),
                    dict@,
                    old(unmapped)@,
                )
            },
            _ => r is None && final(unmapped)@ == old(unmapped)@,
        },
{
    let written = match written {
        Some(t) => t,
        None => return None,
    };
    let bucket = bucket_for(period.end_date(), today);
    if !is_fresh(written, now, bucket) {
        return None;
    }
    match body {
        Some(stored_rows) => Some(normalized_rows(stored_rows, dict, unmapped)),
        None => None,
    }
}

/// An instant as a number.
pub open spec fn instant_of(written: Option<i128>) -> Option<int> {
    match written {
        Some(t) => Some(t as int),
        None => None,
    }
}

/// Stored rows as rows, their items under standard names.
fn normalized_rows(
    stored_rows: Vec<StoredRow>,
    dict: &ItemsDict,
    unmapped: &mut TextSet,
) -> (out: Vec<FinancialRow>)
    requires
        dict.wf(),
        old(unmapped).wf(),
    ensures
        final(unmapped).wf(),
        row_views(out@) == stored_views(stored_rows@).map_values(
            |s: StoredView| with_standard_item(restored(s), dict@),
        ),
        final(unmapped)@ == unknown_items(stored_views(stored_rows@), dict@, old(unmapped)@),
{
    let ghost v = stored_views(stored_rows@);
    let ghost seen = unmapped@;
    let mut out: Vec<FinancialRow> = Vec::new();
    proof {
        assert(v.take(0) =~= Seq::empty());
    }
    for s in it: stored_rows
        invariant
            it.seq() == stored_rows@,
            v == stored_views(stored_rows@),
            dict.wf(),
            unmapped.wf(),
            out@.len() == it.index(),
            forall|k: int|
                0 <= k < it.index() ==> (#[trigger] out@[k])@ == with_standard_item(
                    restored(v[k]),
                    dict@,
                ),
            unmapped@ == unknown_items(v.take(it.index() as int), dict@, seen),
    {
        proof {
            let t = v.take(it.index() as int + 1);
            assert(t.drop_last() =~= v.take(it.index() as int));
            assert(t.last() == s@);
        }
        let mut row = s.into_row();
        let item = dict.normalize(row.item.as_str(), unmapped);
        row.item = item;
        out.push(row);
    }
    proof {
        assert(v.take(v.len() as int) =~= v);
        assert(row_views(out@) =~= v.map_values(
            |s: StoredView| with_standard_item(restored(s), dict@),
        ));
    }
    out
}

// ---------------------------------------------------------------------------
// Writing and reading
// ---------------------------------------------------------------------------

pub proof fn lemma_filter_keeps(rows: Seq<RowView>, pred: spec_fn(RowView) -> bool)
    requires
        forall|i: int| 0 <= i < rows.len() ==> kept_whole(#[trigger] rows[i]),
    ensures
        forall|i: int|
            0 <= i < rows.filter(pred).len() ==> kept_whole(#[trigger] rows.filter(pred)[i]),
    decreases rows.len(),
{
    reveal(Seq::filter);
    if rows.len() > 0 {
        let t = rows.drop_last();
        lemma_filter_keeps(t, pred);
        let out = rows.filter(pred);
        assert forall|i: int| 0 <= i < out.len() implies kept_whole(#[trigger] out[i]) by {
            if i < t.filter(pred).len() {
                assert(kept_whole(t.filter(pred)[i]));
            }
        }
    }
}

/// Rows as they are read: under the standard names of their items.
pub open spec fn standard_rows(rows: Seq<RowView>, dict: DictView) -> Seq<RowView> {
    rows.map_values(|r: RowView| with_standard_item(r, dict))
}

/// A table of records by key after some were written: a record takes the place
/// of the one that has its key.
pub open spec fn table_after(table: Map<Seq<u8>, PutView>, put: Seq<PutView>) -> Map<
    Seq<u8>,
    PutView,
>
    decreases put.len(),
{
    if put.len() == 0 {
        table
    } else {
        table_after(table, put.drop_last()).insert(put.last().key, put.last())
    }
}

/// The rows that a table has under a key, as they are read.
pub open spec fn rows_under(
    table: Map<Seq<u8>, PutView>,
    key: Seq<u8>,
    dict: DictView,
) -> Option<Seq<RowView>> {
    if table.contains_key(key) {
        Some(
            table[key].rows.map_values(
                |s: StoredView| with_standard_item(restored(s), dict),
            ),
        )
    } else {
        None
    }
}

/// The key under which the rows of a group stand.
pub open spec fn group_key(g: GroupView, source: SourceTag) -> Seq<u8> {
    blake3_digest(
        encode_utf8(key_text(g.code, g.market, g.statement, g.period, g.scope, source)),
    )
}

/// Reading the rows of any record that is written gives the rows of its group,
/// in their order, with items under standard names. Left out are rows of which
/// a record does not keep everything.
pub proof fn law_put_reads_back(rows: Seq<RowView>, source: SourceTag, i: int, dict: DictView)
    requires
        forall|k: int| 0 <= k < rows.len() ==> kept_whole(#[trigger] rows[k]),
        0 <= i < records(rows, source).len(),
    ensures
        records(rows, source)[i].key == group_key(groups_of(rows)[i], source),
        records(rows, source)[i].rows.map_values(
            |s: StoredView| with_standard_item(restored(s), dict),
        ) == standard_rows(members(rows, groups_of(rows)[i]), dict),
{
    let g = groups_of(rows)[i];
    let own = members(rows, g);
    lemma_filter_keeps(rows, |r: RowView| group_of(r) == g);
    let got = records(rows, source)[i].rows.map_values(
        |s: StoredView| with_standard_item(restored(s), dict),
    );
    assert forall|k: int| 0 <= k < own.len() implies got[k] == standard_rows(own, dict)[k] by {
        assert(kept_whole(own[k]));
        law_stored_row_reads_back(own[k]);
    }
    assert(got =~= standard_rows(own, dict));
}

/// Rows that share a group have one record, and it holds them all.
proof fn lemma_one_group(rows: Seq<RowView>, g: GroupView)
    requires
        rows.len() > 0,
        forall|k: int| 0 <= k < rows.len() ==> group_of(#[trigger] rows[k]) == g,
    ensures
        groups_of(rows) == seq![g],
        members(rows, g) == rows,
    decreases rows.len(),
{
    reveal(Seq::filter);
    let d = rows.drop_last();
    if d.len() > 0 {
        assert forall|k: int| 0 <= k < d.len() implies group_of(#[trigger] d[k]) == g by {
            assert(d[k] == rows[k]);
        }
        lemma_one_group(d, g);
        assert(seq![g][0] == g);
        assert(seq![g].contains(g));
    } else {
        assert(d =~= Seq::empty());
        assert(groups_of(d) =~= Seq::empty());
        assert(groups_of(rows) =~= seq![g]);
        assert(d.filter(|r: RowView| group_of(r) == g) =~= Seq::empty());
    }
    assert(members(rows, g) =~= rows);
}

/// What is put is got at once: after rows of one symbol, period, statement and
/// scope were written for a source, reading gives them, in their order and
/// number, with items under standard names, and the record counts. It takes
/// the place of what was there for them, so that the table grows by no more
/// than one record, and no record under another key changes.
pub proof fn law_put_then_get(
    table: Map<Seq<u8>, PutView>,
    rows: Seq<RowView>,
    source: SourceTag,
    g: GroupView,
    dict: DictView,
    now: int,
    period: Period,
    today: Date,
)
    requires
        rows.len() > 0,
        forall|k: int| 0 <= k < rows.len() ==> group_of(#[trigger] rows[k]) == g,
        forall|k: int| 0 <= k < rows.len() ==> kept_whole(#[trigger] rows[k]),
    ensures
        rows_under(table_after(table, records(rows, source)), group_key(g, source), dict) == Some(
            standard_rows(rows, dict),
        ),
        counts(Some(now), now, period, today),
        table_after(table, records(rows, source)).dom() == table.dom().insert(
            group_key(g, source),
        ),
        table_after(table, records(rows, source)).remove(group_key(g, source)) == table.remove(
            group_key(g, source),
        ),
{
    let put = records(rows, source);
    let key = group_key(g, source);
    lemma_one_group(rows, g);
    law_put_reads_back(rows, source, 0, dict);
    assert(put.len() == 1);
    assert(put.drop_last() =~= Seq::empty());
    assert(table_after(table, put.drop_last()) == table);
    let after = table_after(table, put);
    assert(after == table.insert(key, put[0]));
    assert(after.dom() =~= table.dom().insert(key));
    assert(after.remove(key) =~= table.remove(key));
}

/// Writing nothing changes nothing.
pub proof fn law_an_empty_put_changes_nothing(table: Map<Seq<u8>, PutView>, source: SourceTag)
    ensures
        table_after(table, records(Seq::empty(), source)) == table,
{
    assert(records(Seq::empty(), source) =~= Seq::empty());
}

/// What is stored for another source, symbol, market, period, statement or scope
/// is read as before, unless two different key texts have the same digest.
pub proof fn law_puts_keep_apart(
    table: Map<Seq<u8>, PutView>,
    rows: Seq<RowView>,
    source: SourceTag,
    g: GroupView,
    other: GroupView,
    other_source: SourceTag,
    dict: DictView,
)
    requires
        rows.len() > 0,
        forall|k: int| 0 <= k < rows.len() ==> group_of(#[trigger] rows[k]) == g,
        forall|k: int| 0 <= k < rows.len() ==> kept_whole(#[trigger] rows[k]),
        no_bar(g.code),
        no_bar(other.code),
        other.period.wf() && other.period.year >= 0,
        g != other || source != other_source,
        group_key(g, source) == group_key(other, other_source) ==> key_text(
            g.code,
            g.market,
            g.statement,
            g.period,
            g.scope,
            source,
        ) == key_text(
            other.code,
            other.market,
            other.statement,
            other.period,
            other.scope,
            other_source,
        ),
    ensures
        rows_under(table_after(table, records(rows, source)), group_key(other, other_source), dict)
            == rows_under(table, group_key(other, other_source), dict),
{
    assert(group_of(rows[0]) == g && kept_whole(rows[0]));
    if group_key(g, source) == group_key(other, other_source) {
        law_key_texts_differ(
            g.code,
            g.market,
            g.statement,
            g.period,
            g.scope,
            source,
            other.code,
            other.market,
            other.statement,
            other.period,
            other.scope,
            other_source,
        );
    }
    let put = records(rows, source);
    lemma_one_group(rows, g);
    assert(put.len() == 1);
    assert(put.drop_last() =~= Seq::empty());
    assert(table_after(table, put.drop_last()) == table);
    assert(put[0].key == group_key(g, source));
}

/// A row of a group is among its members, and a member is a row of the group.
proof fn lemma_members(rows: Seq<RowView>, g: GroupView, r: RowView)
    ensures
        members(rows, g).contains(r) <==> rows.contains(r) && group_of(r) == g,
    decreases rows.len(),
{
    reveal(Seq::filter);
    if rows.len() > 0 {
        let d = rows.drop_last();
        let wanted = |x: RowView| group_of(x) == g;
        let before = members(d, g);
        let kept = members(rows, g);
        lemma_members(d, g, r);
        assert(rows.contains(r) <==> d.contains(r) || r == rows.last()) by {
            if rows.contains(r) {
                let i = choose|i: int| 0 <= i < rows.len() && rows[i] == r;
                if i < d.len() {
                    assert(d[i] == r);
                }
            }
            if d.contains(r) {
                let i = choose|i: int| 0 <= i < d.len() && d[i] == r;
                assert(rows[i] == r);
            }
            assert(rows[rows.len() - 1] == rows.last());
        }
        assert(kept == if wanted(rows.last()) {
            before.push(rows.last())
        } else {
            before
        });
        if before.contains(r) {
            let i = choose|i: int| 0 <= i < before.len() && before[i] == r;
            assert(kept[i] == r);
        }
        if kept.contains(r) {
            let i = choose|i: int| 0 <= i < kept.len() && kept[i] == r;
            if i < before.len() {
                assert(before[i] == r);
            }
        }
        if wanted(rows.last()) {
            assert(kept[before.len() as int] == rows.last());
        }
    }
}

/// The rows of a record keep the order in which they came, each as often as it
/// came: a row is among them exactly if it is of the symbol, market, period,
/// statement and scope of the record.
pub proof fn law_rows_keep_their_order_in_a_record(
    a: Seq<RowView>,
    r: RowView,
    b: Seq<RowView>,
    g: GroupView,
)
    ensures
        members(a + seq![r] + b, g) == members(a, g) + (if r.symbol.code == g.code
            && r.symbol.market == g.market && r.period == g.period && r.statement == g.statement
            && r.scope == g.scope {
            seq![r]
        } else {
            Seq::empty()
        }) + members(b, g),
{
    let wanted = |x: RowView| group_of(x) == g;
    Seq::filter_distributes_over_add(a + seq![r], b, wanted);
    Seq::filter_distributes_over_add(a, seq![r], wanted);
    assert(seq![r].filter(wanted) =~= if wanted(r) {
        seq![r]
    } else {
        Seq::empty()
    }) by {
        reveal_with_fuel(Seq::filter, 2);
        assert(seq![r].drop_last() =~= Seq::empty());
        assert(seq![r].last() == r);
    }
}

/// Every row goes into a record of its own symbol, statement, period and scope
/// and of the source, as it is stored.
pub proof fn law_every_row_has_its_record(rows: Seq<RowView>, source: SourceTag, i: int)
    requires
        0 <= i < rows.len(),
    ensures
        exists|j: int|
            0 <= j < records(rows, source).len() && ({
                let p = #[trigger] records(rows, source)[j];
                &&& p.symbol == rows[i].symbol.code
                &&& p.statement == rows[i].statement.label()
                &&& p.period_end == rows[i].period.iso()
                &&& p.scope == rows[i].scope.label()
                &&& p.source == source.label()
                &&& p.period_type == (match PeriodType::of_date(rows[i].period) {
                    Some(t) => t.label(),
                    None => PeriodType::Annual.label(),
                })
                &&& p.key == blake3_digest(
                    encode_utf8(
                        key_text(
                            rows[i].symbol.code,
                            rows[i].symbol.market,
                            rows[i].statement,
                            rows[i].period,
                            rows[i].scope,
                            source,
                        ),
                    ),
                )
                &&& p.rows.contains(stored(rows[i]))
            }),
{
    let g = group_of(rows[i]);
    let groups = groups_of(rows);
    law_groups_are_the_rows_groups(rows);
    assert(groups.contains(g));
    let j = choose|j: int| 0 <= j < groups.len() && groups[j] == g;
    let p = records(rows, source)[j];
    let own = members(rows, g);
    assert(rows.contains(rows[i]));
    lemma_members(rows, g, rows[i]);
    let k = choose|k: int| 0 <= k < own.len() && own[k] == rows[i];
    assert(p.rows[k] == stored(rows[i]));
    assert(p.rows.contains(stored(rows[i])));
}

/// A record holds rows of its own symbol, statement, period and scope alone, and
/// of one market, each of them a row that was put.
pub proof fn law_a_record_holds_rows_of_one_kind(
    rows: Seq<RowView>,
    source: SourceTag,
    j: int,
    k: int,
) -> (i: int)
    requires
        0 <= j < records(rows, source).len(),
        0 <= k < records(rows, source)[j].rows.len(),
    ensures
        0 <= i < rows.len(),
        ({
            let p = records(rows, source)[j];
            &&& p.rows[k] == stored(rows[i])
            &&& p.symbol == rows[i].symbol.code
            &&& p.statement == rows[i].statement.label()
            &&& p.period_end == rows[i].period.iso()
            &&& p.scope == rows[i].scope.label()
            &&& p.key == blake3_digest(
                encode_utf8(
                    key_text(
                        rows[i].symbol.code,
                        rows[i].symbol.market,
                        rows[i].statement,
                        rows[i].period,
                        rows[i].scope,
                        source,
                    ),
                ),
            )
        }),
        0 < k ==> records(rows, source)[j].rows[k - 1].symbol_market == records(
            rows,
            source,
        )[j].rows[k].symbol_market,
{
    let g = groups_of(rows)[j];
    let own = members(rows, g);
    let p = records(rows, source)[j];
    assert(p.rows[k] == stored(own[k]));
    assert(own.contains(own[k]));
    lemma_members(rows, g, own[k]);
    if 0 < k {
        assert(p.rows[k - 1] == stored(own[k - 1]));
        assert(own.contains(own[k - 1]));
        lemma_members(rows, g, own[k - 1]);
    }
    let i = choose|i: int| 0 <= i < rows.len() && rows[i] == own[k];
    i
}

proof fn lemma_has_member(rows: Seq<RowView>, a: int)
    requires
        0 <= a < groups_of(rows).len(),
    ensures
        members(rows, groups_of(rows)[a]).len() > 0,
{
    let g = groups_of(rows)[a];
    law_groups_are_the_rows_groups(rows);
    assert(groups_of(rows).contains(g));
    let i = choose|i: int| 0 <= i < rows.len() && group_of(#[trigger] rows[i]) == g;
    assert(rows.contains(rows[i]));
    lemma_members(rows, g, rows[i]);
}

/// Every record of a put has a row, and no two records are of the same symbol,
/// market, statement, period and scope.
pub proof fn law_one_record_for_each_kind(rows: Seq<RowView>, source: SourceTag, a: int, b: int)
    requires
        0 <= a < b < records(rows, source).len(),
        forall|i: int|
            0 <= i < rows.len() ==> (#[trigger] rows[i]).period.wf() && rows[i].period.year >= 0,
    ensures
        records(rows, source)[a].rows.len() > 0,
        records(rows, source)[b].rows.len() > 0,
        ({
            let x = records(rows, source)[a];
            let y = records(rows, source)[b];
            ||| x.symbol != y.symbol
            ||| x.rows[0].symbol_market != y.rows[0].symbol_market
            ||| x.statement != y.statement
            ||| x.period_end != y.period_end
            ||| x.scope != y.scope
        }),
{
    let groups = groups_of(rows);
    law_groups_are_the_rows_groups(rows);
    assert(group_before(groups[a], groups[b]));
    lemma_group_order(groups[a], groups[b], groups[a]);
    let x = members(rows, groups[a]);
    let y = members(rows, groups[b]);
    lemma_has_member(rows, a);
    lemma_has_member(rows, b);
    assert(x.contains(x[0]) && y.contains(y[0]));
    lemma_members(rows, groups[a], x[0]);
    lemma_members(rows, groups[b], y[0]);
    assert(records(rows, source)[a].rows[0] == stored(x[0]));
    assert(records(rows, source)[b].rows[0] == stored(y[0]));
    let m = choose|m: int| 0 <= m < rows.len() && rows[m] == x[0];
    let n = choose|n: int| 0 <= n < rows.len() && rows[n] == y[0];
    crate::domain::period::law_iso_text_reads_back(rows[m].period);
    crate::domain::period::law_iso_text_reads_back(rows[n].period);
    lemma_labels();
    assert(labelled_statement(groups[a].statement.label()) == groups[a].statement);
    assert(labelled_statement(groups[b].statement.label()) == groups[b].statement);
    assert(labelled_scope(groups[a].scope.label()) == groups[a].scope);
    assert(labelled_scope(groups[b].scope.label()) == groups[b].scope);
}

/// A record has the publication date of the first of its rows that has one, as it
/// is stored; where none has one, it has none.
pub proof fn law_a_record_has_its_first_publication_date(
    rows: Seq<RowView>,
    source: SourceTag,
    j: int,
    n: int,
)
    requires
        0 <= j < records(rows, source).len(),
        0 <= n <= records(rows, source)[j].rows.len(),
        n < records(rows, source)[j].rows.len() ==> records(
            rows,
            source,
        )[j].rows[n].publish_date is Some,
        forall|i: int|
            0 <= i < n ==> (#[trigger] records(rows, source)[j].rows[i]).publish_date is None,
    ensures
        records(rows, source)[j].publish_date == (if n < records(rows, source)[j].rows.len() {
            records(rows, source)[j].rows[n].publish_date
        } else {
            None
        }),
{
    let own = members(rows, groups_of(rows)[j]);
    let p = records(rows, source)[j];
    assert(p.rows.len() == own.len());
    assert forall|i: int| 0 <= i < n implies (#[trigger] own[i]).publish_date is None by {
        assert(p.rows[i] == stored(own[i]));
        assert(p.rows[i].publish_date is None);
    }
    if n < own.len() {
        assert(p.rows[n] == stored(own[n]));
    }
    law_the_first_publication_date_counts(own, n);
}

/// Rows are read with the standard name of their item where the dictionary has
/// one, and are otherwise as they were stored.
pub proof fn law_only_the_item_is_put_under_its_standard_name(
    rows: Seq<RowView>,
    dict: DictView,
    i: int,
)
    requires
        0 <= i < rows.len(),
    ensures
        standard_rows(rows, dict).len() == rows.len(),
        standard_rows(rows, dict)[i] == (RowView {
            item: standard_rows(rows, dict)[i].item,
            ..rows[i]
        }),
        dict.aliases.contains_key(rows[i].item) ==> standard_rows(rows, dict)[i].item
            == dict.names[dict.aliases[rows[i].item] as int],
        !dict.aliases.contains_key(rows[i].item) ==> standard_rows(rows, dict)[i].item
            == rows[i].item,
{
}

/// Rows of years from 0 on are written; one row of an earlier year keeps all from
/// being written.
pub proof fn law_one_early_year_spoils_a_put(rows: Seq<RowView>, i: int)
    ensures
        0 <= i < rows.len() && rows[i].period.year <= -1 ==> has_early_year(rows),
        (forall|k: int| 0 <= k < rows.len() ==> (#[trigger] rows[k]).period.year >= 0)
            ==> !has_early_year(rows),
{
}

/// The publication date of a record is the first that one of its rows gives;
/// where none gives one, it has none.
pub proof fn law_the_first_publication_date_counts(rows: Seq<RowView>, n: int)
    requires
        0 <= n <= rows.len(),
        n < rows.len() ==> rows[n].publish_date is Some,
        forall|i: int| 0 <= i < n ==> (#[trigger] rows[i]).publish_date is None,
    ensures
        first_published(rows) == (if n < rows.len() {
            rows[n].publish_date
        } else {
            None
        }),
    decreases rows.len(),
{
    if rows.len() > 0 {
        let d = rows.drop_last();
        if n < d.len() {
            law_the_first_publication_date_counts(d, n);
        } else {
            law_the_first_publication_date_counts(d, d.len() as int);
            if n == rows.len() {
                assert(rows[n - 1].publish_date is None);
            }
        }
    }
}

/// What is noted of items without a standard name are those that were noted
/// before and the items of the rows that the dictionary does not know.
pub proof fn law_unknown_items_are_noted(
    rows: Seq<StoredView>,
    dict: DictView,
    seen: Set<Seq<char>>,
    item: Seq<char>,
)
    ensures
        unknown_items(rows, dict, seen).contains(item) <==> {
            ||| seen.contains(item)
            ||| !dict.aliases.contains_key(item) && exists|i: int|
                0 <= i < rows.len() && (#[trigger] rows[i]).item == item
        },
    decreases rows.len(),
{
    if rows.len() > 0 {
        let d = rows.drop_last();
        law_unknown_items_are_noted(d, dict, seen, item);
        if exists|i: int| 0 <= i < d.len() && (#[trigger] d[i]).item == item {
            let i = choose|i: int| 0 <= i < d.len() && (#[trigger] d[i]).item == item;
            assert(rows[i].item == item);
        }
        if exists|i: int| 0 <= i < rows.len() && (#[trigger] rows[i]).item == item {
            let i = choose|i: int| 0 <= i < rows.len() && (#[trigger] rows[i]).item == item;
            if i < d.len() {
                assert(d[i].item == item);
            }
        }
        assert(rows[rows.len() - 1].item == rows.last().item);
    }
}

} // verus!
