//! Financial facts: one line item of one symbol for one report period.

use vstd::prelude::*;
use vstd::string::*;

use super::period::PeriodType;
use super::symbol::{Symbol, SymbolView};
use crate::date::Date;
use crate::text::same;

verus! {

/// A figure, as the bits of an IEEE 754 double. The library carries figures
/// and does not compute with them.
#[derive(Debug, Clone, Copy, PartialEq, Eq, Structural)]
pub struct Amount {
    pub bits: u64,
}

impl Amount {
    /// The figure is no number.
    pub open spec fn is_nan(self) -> bool {
        self.bits % 0x8000_0000_0000_0000 > 0x7ff0_0000_0000_0000
    }

    /// Numbers lie in the order of these keys; both zeros have the key 0.
    pub open spec fn key(self) -> int {
        if self.bits >= 0x8000_0000_0000_0000 {
            0x8000_0000_0000_0000 - self.bits
        } else {
            self.bits as int
        }
    }

    /// Whether the figure is no number.
    pub fn not_a_number(self) -> (r: bool)
        ensures
            r == self.is_nan(),
    {
        self.bits % 0x8000_0000_0000_0000 > 0x7ff0_0000_0000_0000
    }

    /// Numbers lie in the order of these keys; both zeros have the key 0.
    pub fn order_key(self) -> (k: i64)
        ensures
            k == self.key(),
    {
        if self.bits >= 0x8000_0000_0000_0000 {
            -((self.bits - 0x8000_0000_0000_0000) as i64)
        } else {
            self.bits as i64
        }
    }
}

/// The four statements.
#[derive(Debug, Clone, Copy, PartialEq, Eq, Hash, PartialOrd, Ord, Structural)]
pub enum Statement {
    Income,
    Balance,
    Cashflow,
    Indicator,
}

/// Consolidated or parent company only.
#[derive(Debug, Clone, Copy, PartialEq, Eq, Hash, PartialOrd, Ord, Structural)]
pub enum Scope {
    Consolidated,
    Parent,
}

/// The unit in which figures are shown.
#[derive(Debug, Clone, Copy, PartialEq, Eq, Structural)]
pub enum Unit {
    Raw,
    Wan,
    Yi,
}

/// Whether a report was audited.
#[derive(Debug, Clone, Copy, PartialEq, Eq, Structural)]
pub enum AuditStatus {
    Audited,
    Unaudited,
    Unknown,
}

/// The source that a row came from.
#[derive(Debug, Clone, Copy, PartialEq, Eq, Structural)]
pub enum SourceTag {
    EastMoney,
    Sina,
}

/// One fact.
#[derive(Debug, PartialEq)]
pub struct FinancialRow {
    pub symbol: Symbol,
    /// Short name of the security.
    pub name: String,
    /// Report end.
    pub period: Date,
    pub period_type: PeriodType,
    pub statement: Statement,
    pub scope: Scope,
    /// Label of the line item.
    pub item: String,
    pub value: Amount,
    pub unit: Unit,
    pub currency: String,
    pub publish_date: Option<Date>,
    pub audit: AuditStatus,
    pub source: SourceTag,
}

/// A fact with its texts taken as such.
pub struct RowView {
    pub symbol: SymbolView,
    pub name: Seq<char>,
    pub period: Date,
    pub period_type: PeriodType,
    pub statement: Statement,
    pub scope: Scope,
    pub item: Seq<char>,
    pub value: Amount,
    pub unit: Unit,
    pub currency: Seq<char>,
    pub publish_date: Option<Date>,
    pub audit: AuditStatus,
    pub source: SourceTag,
}

impl View for FinancialRow {
    type V = RowView;

    open spec fn view(&self) -> RowView {
        RowView {
            symbol: self.symbol@,
            name: self.name@,
            period: self.period,
            period_type: self.period_type,
            statement: self.statement,
            scope: self.scope,
            item: self.item@,
            value: self.value,
            unit: self.unit,
            currency: self.currency@,
            publish_date: self.publish_date,
            audit: self.audit,
            source: self.source,
        }
    }
}

impl RowView {
    /// The dates of a fact are days of the calendar.
    pub open spec fn dated(self) -> bool {
        self.period.wf() && (self.publish_date matches Some(d) ==> d.wf())
    }
}

impl Clone for FinancialRow {
    fn clone(&self) -> (out: Self)
        ensures
            out@ == self@,
    {
        FinancialRow {
            symbol: self.symbol.clone(),
            name: self.name.clone(),
            period: self.period,
            period_type: self.period_type,
            statement: self.statement,
            scope: self.scope,
            item: self.item.clone(),
            value: self.value,
            unit: self.unit,
            currency: self.currency.clone(),
            publish_date: self.publish_date,
            audit: self.audit,
            source: self.source,
        }
    }
}

/// The facts that a list of rows holds.
pub open spec fn row_views(rows: Seq<FinancialRow>) -> Seq<RowView> {
    rows.map_values(|r: FinancialRow| r@)
}

impl Statement {
    pub const ALL: [Statement; 4] = [
        Statement::Income,
        Statement::Balance,
        Statement::Cashflow,
        Statement::Indicator,
    ];

    pub open spec fn label(self) -> Seq<char> {
        match self {
            Statement::Income => "income"@,
            Statement::Balance => "balance"@,
            Statement::Cashflow => "cashflow"@,
            Statement::Indicator => "indicator"@,
        }
    }

    /// The place of a statement in the order of declaration.
    pub open spec fn rank(self) -> int {
        match self {
            Statement::Income => 0,
            Statement::Balance => 1,
            Statement::Cashflow => 2,
            Statement::Indicator => 3,
        }
    }

    /// The place of the statement in the order of declaration.
    pub fn position(self) -> (out: u8)
        ensures
            out == self.rank(),
    {
        match self {
            Statement::Income => 0,
            Statement::Balance => 1,
            Statement::Cashflow => 2,
            Statement::Indicator => 3,
        }
    }

    pub fn as_str(self) -> (out: &'static str)
        ensures
            out@ == self.label(),
    {
        match self {
            Statement::Income => "income",
            Statement::Balance => "balance",
            Statement::Cashflow => "cashflow",
            Statement::Indicator => "indicator",
        }
    }
}

impl Scope {
    pub open spec fn label(self) -> Seq<char> {
        match self {
            Scope::Consolidated => "consolidated"@,
            Scope::Parent => "parent"@,
        }
    }

    /// The place of a scope in the order of declaration.
    pub open spec fn rank(self) -> int {
        match self {
            Scope::Consolidated => 0,
            Scope::Parent => 1,
        }
    }

    /// The place of the scope in the order of declaration.
    pub fn position(self) -> (out: u8)
        ensures
            out == self.rank(),
    {
        match self {
            Scope::Consolidated => 0,
            Scope::Parent => 1,
        }
    }

    pub fn as_str(self) -> (out: &'static str)
        ensures
            out@ == self.label(),
    {
        match self {
            Scope::Consolidated => "consolidated",
            Scope::Parent => "parent",
        }
    }
}

impl Unit {
    pub open spec fn label(self) -> Seq<char> {
        match self {
            Unit::Raw => "raw"@,
            Unit::Wan => "wan"@,
            Unit::Yi => "yi"@,
        }
    }

    pub fn as_str(self) -> (out: &'static str)
        ensures
            out@ == self.label(),
    {
        match self {
            Unit::Raw => "raw",
            Unit::Wan => "wan",
            Unit::Yi => "yi",
        }
    }

    /// How many of the currency's own units one of this unit is.
    pub open spec fn size(self) -> nat {
        match self {
            Unit::Raw => 1,
            Unit::Wan => 10000,
            Unit::Yi => 100000000,
        }
    }

    /// What amounts are divided by when they are shown in this unit.
    pub fn factor(self) -> (n: u64)
        ensures
            n == self.size(),
    {
        match self {
            Unit::Raw => 1,
            Unit::Wan => 10000,
            Unit::Yi => 100000000,
        }
    }
}

impl AuditStatus {
    pub open spec fn label(self) -> Seq<char> {
        match self {
            AuditStatus::Audited => "audited"@,
            AuditStatus::Unaudited => "unaudited"@,
            AuditStatus::Unknown => "unknown"@,
        }
    }

    pub fn as_str(self) -> (out: &'static str)
        ensures
            out@ == self.label(),
    {
        match self {
            AuditStatus::Audited => "audited",
            AuditStatus::Unaudited => "unaudited",
            AuditStatus::Unknown => "unknown",
        }
    }
}

impl SourceTag {
    pub const ALL: [SourceTag; 2] = [SourceTag::EastMoney, SourceTag::Sina];

    pub open spec fn label(self) -> Seq<char> {
        match self {
            SourceTag::EastMoney => "eastmoney"@,
            SourceTag::Sina => "sina"@,
        }
    }

    /// The source with the given label.
    pub open spec fn named(name: Seq<char>) -> Option<SourceTag> {
        if name == "eastmoney"@ {
            Some(SourceTag::EastMoney)
        } else if name == "sina"@ {
            Some(SourceTag::Sina)
        } else {
            None
        }
    }

    pub fn as_str(self) -> (out: &'static str)
        ensures
            out@ == self.label(),
    {
        match self {
            SourceTag::EastMoney => "eastmoney",
            SourceTag::Sina => "sina",
        }
    }

    /// The source with the given label, if there is one.
    pub fn from_name(name: &str) -> (out: Option<SourceTag>)
        ensures
            out == SourceTag::named(name@),
    {
        if same(name, "eastmoney") {
            Some(SourceTag::EastMoney)
        } else if same(name, "sina") {
            Some(SourceTag::Sina)
        } else {
            None
        }
    }
}

/// A source is found by its label, and a label belongs to one source only.
pub proof fn law_source_label_round_trip(t: SourceTag, name: Seq<char>)
    ensures
        SourceTag::named(t.label()) == Some(t),
        SourceTag::named(name) matches Some(u) ==> u.label() == name,
{
    reveal_strlit("eastmoney");
    reveal_strlit("sina");
    assert("eastmoney"@.len() != "sina"@.len());
}

/// Of two different units the greater is ten thousand of the other, or ten thousand
/// times ten thousand; the currency's own is the least.
pub proof fn law_units_are_ten_thousand_apart(a: Unit, b: Unit)
    requires
        a != b,
    ensures
        a == Unit::Raw ==> a.size() == 1 && b.size() >= 10000,
        a == Unit::Wan && b == Unit::Yi ==> b.size() == 10000 * a.size() && a.size() == 10000,
{
}

} // verus!
