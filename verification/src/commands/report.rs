//! Statements and periods: what is asked for, what is refused, and the texts
//! around the table.

use vstd::prelude::*;
use vstd::string::*;

use super::bars::{failure_warning, named_failure, settle_symbols};
use crate::date::Date;
use crate::domain::financial_row::{RowView, law_source_label_round_trip, row_views};
use crate::domain::market::{InstrumentKind, Market};
use crate::domain::period::{
    last_n_filed, latest_filed, law_last_n_strictly_descends, most_recent_filed, number_text,
    period_of, quarter_index, reaches_back, walk_back,
};
use crate::domain::single_quarter::{Missing, MissingView};
use crate::domain::symbol::{SymbolView, resolved};
use crate::domain::{FinancialRow, Period, PeriodType, Scope, SourceTag, Statement, Symbol, Unit};
use crate::error::{ErrorView, SiftError, concat3, concat4, concat5, outcome, pair_views};
use crate::fetch::report::PeriodEntry;
use crate::order::{Ranked, ascending, is_sorted_set, sorted_distinct};
use crate::text::{
    all_digits, chars_of, contains_text, debug_quoted, decimal, decimal_string, digits_number,
    digits_value, is_space, join, join_strings, law_every_part_is_in_the_joined_text,
    law_white_space_around_is_trimmed, lemma_occurs_between, lemma_occurs_within, occurs,
    only_digits, opt_str, quoted, same_ignoring_ascii_case, signed_decimal, signed_decimal_string,
    string_from, to_lower, trim, trim_chars, trimmed, views,
};

verus! {

// ---------------------------------------------------------------------------
// Options
// ---------------------------------------------------------------------------

/// Quarters as sources report them, or each alone.
#[derive(Debug, Clone, Copy, PartialEq, Eq, Structural)]
pub enum QModeArg {
    Cumulative,
    Single,
}

/// The source to ask.
#[derive(Debug, Clone, Copy, PartialEq, Eq, Structural)]
pub enum SourceArg {
    Auto,
    EastMoney,
    Sina,
}

impl SourceArg {
    pub open spec fn tag(self) -> Option<SourceTag> {
        match self {
            SourceArg::Auto => None,
            SourceArg::EastMoney => Some(SourceTag::EastMoney),
            SourceArg::Sina => Some(SourceTag::Sina),
        }
    }

    /// The source that is named; `None` for no particular one.
    pub fn as_source_tag(self) -> (r: Option<SourceTag>)
        ensures
            r == self.tag(),
    {
        match self {
            SourceArg::Auto => None,
            SourceArg::EastMoney => Some(SourceTag::EastMoney),
            SourceArg::Sina => Some(SourceTag::Sina),
        }
    }
}

#[derive(Debug, Clone, Copy, PartialEq, Eq, Structural)]
pub enum ScopeArg {
    Consolidated,
    Parent,
}

impl ScopeArg {
    pub open spec fn meaning(self) -> Scope {
        match self {
            ScopeArg::Consolidated => Scope::Consolidated,
            ScopeArg::Parent => Scope::Parent,
        }
    }

    pub fn scope(self) -> (s: Scope)
        ensures
            s == self.meaning(),
    {
        match self {
            ScopeArg::Consolidated => Scope::Consolidated,
            ScopeArg::Parent => Scope::Parent,
        }
    }
}

#[derive(Debug, Clone, Copy, PartialEq, Eq, Structural)]
pub enum UnitArg {
    Raw,
    Wan,
    Yi,
}

impl UnitArg {
    pub open spec fn meaning(self) -> Unit {
        match self {
            UnitArg::Raw => Unit::Raw,
            UnitArg::Wan => Unit::Wan,
            UnitArg::Yi => Unit::Yi,
        }
    }

    pub fn unit(self) -> (u: Unit)
        ensures
            u == self.meaning(),
    {
        match self {
            UnitArg::Raw => Unit::Raw,
            UnitArg::Wan => Unit::Wan,
            UnitArg::Yi => Unit::Yi,
        }
    }
}

/// The options of the statement commands.
#[derive(Debug)]
pub struct StatementArgs {
    pub symbols: Vec<String>,
    pub period: Vec<Vec<Period>>,
    pub last: Option<usize>,
    pub years: Option<usize>,
    pub start: Option<i32>,
    pub end: Option<i32>,
    pub annual: bool,
    pub scope: ScopeArg,
    pub unit: UnitArg,
    pub items: Vec<String>,
    pub source: SourceArg,
    pub qmode: QModeArg,
    pub no_cache: bool,
    pub no_ingest: bool,
}

/// The options of the periods command.
#[derive(Debug)]
pub struct PeriodsArgs {
    pub symbol: String,
    pub source: SourceArg,
}

/// The commands.
#[derive(Debug)]
pub enum ReportCmd {
    Income(StatementArgs),
    Balance(StatementArgs),
    Cashflow(StatementArgs),
    Indicator(StatementArgs),
    Periods(PeriodsArgs),
}

/// A bare year.
pub open spec fn is_bare_year(s: Seq<char>) -> bool {
    s.len() == 4 && all_digits(s)
}

/// The four ends of a year.
pub open spec fn four_ends(y: i32) -> Seq<Period> {
    seq![Period::Q1(y), Period::H1(y), Period::Q3(y), Period::Annual(y)]
}

/// The periods that a token of `--period` names: four for a bare year,
/// otherwise one.
pub open spec fn periods_of_token(s: Seq<char>) -> Result<Seq<Period>, Seq<char>> {
    let t = trim(s);
    if is_bare_year(t) {
        Ok(four_ends(digits_value(t) as i32))
    } else {
        match period_of(t) {
            Ok(p) => Ok(seq![p]),
            Err(e) => Err(e.message()),
        }
    }
}

/// A bare year names its four standard periods, in order, and any other token one
/// period, whatever white space stands round it.
pub proof fn law_a_bare_year_names_four_periods(a: Seq<char>, s: Seq<char>, b: Seq<char>)
    requires
        forall|i: int| 0 <= i < a.len() ==> is_space(#[trigger] a[i]),
        forall|i: int| 0 <= i < b.len() ==> is_space(#[trigger] b[i]),
        s.len() > 0,
        !is_space(s[0]),
        !is_space(s.last()),
    ensures
        s.len() == 4 && all_digits(s) ==> periods_of_token(a + s + b) == Ok::<
            Seq<Period>,
            Seq<char>,
        >(
            seq![
                Period::Q1(digits_value(s) as i32),
                Period::H1(digits_value(s) as i32),
                Period::Q3(digits_value(s) as i32),
                Period::Annual(digits_value(s) as i32),
            ],
        ),
        !(s.len() == 4 && all_digits(s)) ==> match (period_of(s), periods_of_token(a + s + b)) {
            (Ok(p), Ok(v)) => v == seq![p],
            (Err(e), Err(t)) => t == e.message(),
            _ => false,
        },
{
    law_white_space_around_is_trimmed(a, s, b);
}

/// The periods that a token of `--period` names.
pub fn parse_period_token(s: &str) -> (r: Result<Vec<Period>, String>)
    ensures
        match r {
            Ok(v) => periods_of_token(s@) == Ok::<Seq<Period>, Seq<char>>(v@),
            Err(e) => periods_of_token(s@) == Err::<Seq<Period>, Seq<char>>(e@),
        },
{
    let v = trim_chars(&chars_of(s));
    if v.len() == 4 && only_digits(&v) {
        proof {
            assert(v@.subrange(0, 4) =~= v@);
            reveal_with_fuel(digits_value, 5);
        }
        if let Some(n) = digits_number(&v, 0, 4, 9999) {
            let y: i32 = n as i32;
            let out = vec![Period::Q1(y), Period::H1(y), Period::Q3(y), Period::Annual(y)];
            proof {
                assert(out@ =~= four_ends(y));
            }
            return Ok(out);
        }
    }
    match Period::parse(string_from(&v).as_str()) {
        Ok(p) => {
            let out = vec![p];
            proof {
                assert(out@ =~= seq![p]);
            }
            Ok(out)
        },
        Err(e) => Err(e.message()),
    }
}

/// What `str::parse::<usize>` says of a text that it refuses, where the greatest
/// `usize` is `max`: a number that is too large is told by the digit that no
/// longer fits, so what is said depends on the width.
pub uninterp spec fn usize_refusal(s: Seq<char>, max: nat) -> Seq<char>;

/// `str::parse::<usize>`, its error as text: a plus sign or none, then digits,
/// whose number fits. The text of the error depends on the refused text and on
/// the width of a `usize`; what it says is left unsaid.
#[verifier::external_body]
fn usize_parse(s: &str) -> (r: Result<usize, String>)
    ensures
        match r {
            Ok(n) => number_text(s@, usize::MAX as nat) == Some(n as nat),
            Err(e) => number_text(s@, usize::MAX as nat) is None && e@ == usize_refusal(
                s@,
                usize::MAX as nat,
            ),
        },
{
    s.parse::<usize>().map_err(|e| e.to_string())
}

/// A number that was read, if it is at least 1.
pub fn positive_usize(s: &str, read: Result<usize, String>) -> (r: Result<usize, String>)
    ensures
        match read {
            Ok(n) => if n == 0 {
                r matches Err(e) && e@ == "value must be at least 1 (got 0)"@
            } else {
                r == Ok::<usize, String>(n)
            },
            Err(why) => r matches Err(e) && e@ == "invalid value "@ + quoted(s@) + ": "@ + why@,
        },
{
    match read {
        Ok(n) => {
            if n == 0 {
                Err("value must be at least 1 (got 0)".to_owned())
            } else {
                Ok(n)
            }
        },
        Err(why) => Err(
            concat4("invalid value ", debug_quoted(s).as_str(), ": ", why.as_str()),
        ),
    }
}

/// The number of `--last` and `--years`: at least 1.
pub fn parse_positive_usize(s: &str) -> (r: Result<usize, String>)
    ensures
        match number_text(s@, usize::MAX as nat) {
            Some(n) => if n == 0 {
                r matches Err(e) && e@ == "value must be at least 1 (got 0)"@
            } else {
                r matches Ok(m) && m == n
            },
            None => r matches Err(e) && e@ == "invalid value "@ + quoted(s@) + ": "@
                + usize_refusal(s@, usize::MAX as nat),
        },
{
    positive_usize(s, usize_parse(s))
}

// ---------------------------------------------------------------------------
// What is refused
// ---------------------------------------------------------------------------

pub open spec fn symbol_views(v: Seq<Symbol>) -> Seq<SymbolView> {
    v.map_values(|s: Symbol| s@)
}

/// What a text names: a symbol, or nothing for a reason.
pub open spec fn named_symbol(text: Seq<char>) -> (Seq<char>, Result<SymbolView, ErrorView>) {
    (text, resolved(to_lower(trim(text))))
}

/// Texts with what they name.
pub open spec fn named_views(v: Seq<(String, Result<Symbol, SiftError>)>) -> Seq<
    (Seq<char>, Result<SymbolView, ErrorView>),
> {
    v.map_values(|a: (String, Result<Symbol, SiftError>)| (a.0@, outcome(a.1)))
}

/// The symbols that the texts name, in order; a text that names none is left
/// out.
pub open spec fn symbols_of(raw: Seq<Seq<char>>) -> Seq<SymbolView>
    decreases raw.len(),
{
    if raw.len() == 0 {
        Seq::empty()
    } else {
        match resolved(to_lower(trim(raw.last()))) {
            Ok(s) => symbols_of(raw.drop_last()).push(s),
            Err(_) => symbols_of(raw.drop_last()),
        }
    }
}

/// A text is told with what it names, and names the same in whichever case its
/// ASCII letters are and whatever white space stands round it. A text that names a
/// symbol is one that gives it, and one that names none gives none.
pub proof fn law_a_text_names_its_symbol(a: Seq<char>, s: Seq<char>, t: Seq<char>, b: Seq<char>)
    requires
        forall|i: int| 0 <= i < a.len() ==> is_space(#[trigger] a[i]),
        forall|i: int| 0 <= i < b.len() ==> is_space(#[trigger] b[i]),
        s.len() > 0 ==> !is_space(s[0]) && !is_space(s.last()),
        s.len() == t.len(),
        forall|i: int|
            0 <= i < s.len() ==> #[trigger] s[i] == t[i] || 'A' <= s[i] <= 'Z' && t[i] as u32
                == s[i] as u32 + 32,
    ensures
        named_symbol(s).0 == s,
        named_symbol(a + s + b).1 == named_symbol(t).1,
        match named_symbol(s).1 {
            Ok(sym) => symbols_of(seq![s]) == seq![sym],
            Err(_) => symbols_of(seq![s]).len() == 0,
        },
{
    let none = Seq::<char>::empty();
    if s.len() > 0 {
        assert(s[0] == t[0] || 'A' <= s[0] <= 'Z');
        let last = s.len() - 1;
        assert(s[last] == t[last] || 'A' <= s[last] <= 'Z');
    }
    law_white_space_around_is_trimmed(a, s, b);
    law_white_space_around_is_trimmed(none, s, none);
    law_white_space_around_is_trimmed(none, t, none);
    assert(none + s + none =~= s);
    assert(none + t + none =~= t);
    assert forall|i: int| 0 <= i < s.len() implies to_lower(s)[i] == to_lower(t)[i] by {
        assert(s[i] == t[i] || 'A' <= s[i] <= 'Z' && t[i] as u32 == s[i] as u32 + 32);
    }
    assert(to_lower(s) =~= to_lower(t));
    law_symbols_are_taken_text_by_text(Seq::empty(), s, Seq::empty());
    assert(Seq::<Seq<char>>::empty() + seq![s] + Seq::<Seq<char>>::empty() =~= seq![s]);
    assert(symbols_of(Seq::empty()) =~= Seq::empty());
}

/// The symbols that texts name are taken text by text: each that names a symbol
/// gives it, in its place, and one that names none changes nothing for the
/// others.
pub proof fn law_symbols_are_taken_text_by_text(a: Seq<Seq<char>>, text: Seq<char>, b: Seq<Seq<char>>)
    ensures
        symbols_of(a + seq![text] + b) == symbols_of(a) + (match resolved(to_lower(trim(text))) {
            Ok(s) => seq![s],
            Err(_) => Seq::empty(),
        }) + symbols_of(b),
    decreases b.len(),
{
    let s = a + seq![text] + b;
    if b.len() == 0 {
        assert(s.drop_last() =~= a);
        assert(s.last() == text);
    } else {
        law_symbols_are_taken_text_by_text(a, text, b.drop_last());
        assert(s.drop_last() =~= a + seq![text] + b.drop_last());
        assert(s.last() == b.last());
    }
    assert(symbols_of(s) =~= symbols_of(a) + (match resolved(to_lower(trim(text))) {
        Ok(s) => seq![s],
        Err(_) => Seq::empty(),
    }) + symbols_of(b));
}

/// What each text names, in order. A text that names no symbol is the failure
/// of that symbol, and of no other.
pub fn parse_symbols(raw: &Vec<String>) -> (out: Vec<(String, Result<Symbol, SiftError>)>)
    ensures
        named_views(out@) == views(raw@).map_values(|t: Seq<char>| named_symbol(t)),
{
    let mut out: Vec<(String, Result<Symbol, SiftError>)> = Vec::new();
    let mut i: usize = 0;
    while i < raw.len()
        invariant
            i <= raw@.len(),
            out@.len() == i,
            forall|k: int|
                0 <= k < i ==> ((#[trigger] out@[k]).0@, outcome(out@[k].1)) == named_symbol(
                    raw@[k]@,
                ),
        decreases raw@.len() - i,
    {
        out.push((raw[i].clone(), Symbol::parse(raw[i].as_str())));
        i = i + 1;
    }
    proof {
        assert(named_views(out@) =~= views(raw@).map_values(|t: Seq<char>| named_symbol(t)));
    }
    out
}

/// The symbols among what texts name.
fn parsed(
    named: &Vec<(String, Result<Symbol, SiftError>)>,
    Ghost(raw): Ghost<Seq<Seq<char>>>,
) -> (out: Vec<Symbol>)
    requires
        named_views(named@) == raw.map_values(|t: Seq<char>| named_symbol(t)),
    ensures
        symbol_views(out@) == symbols_of(raw),
{
    let mut out: Vec<Symbol> = Vec::new();
    let mut i: usize = 0;
    proof {
        assert(named_views(named@).len() == raw.len());
        assert(raw.take(0) =~= Seq::empty());
        assert(symbol_views(out@) =~= Seq::empty());
    }
    while i < named.len()
        invariant
            i <= named@.len() == raw.len(),
            named_views(named@) == raw.map_values(|t: Seq<char>| named_symbol(t)),
            symbol_views(out@) == symbols_of(raw.take(i as int)),
        decreases named@.len() - i,
    {
        let ghost before = symbol_views(out@);
        proof {
            assert(raw.take(i as int + 1).drop_last() =~= raw.take(i as int));
            assert(named_views(named@)[i as int] == named_symbol(raw[i as int]));
        }
        if let Ok(s) = &named[i].1 {
            out.push(s.clone());
            proof {
                assert(symbol_views(out@) =~= before.push(s@));
            }
        }
        i = i + 1;
    }
    proof {
        assert(raw.take(i as int) =~= raw);
    }
    out
}

/// The first symbol outside CN-A.
pub open spec fn first_foreign(v: Seq<SymbolView>) -> Option<SymbolView>
    decreases v.len(),
{
    if v.len() == 0 {
        None
    } else {
        match first_foreign(v.drop_last()) {
            Some(s) => Some(s),
            None => if v.last().market != Market::CnA {
                Some(v.last())
            } else {
                None
            },
        }
    }
}

/// The first index.
pub open spec fn first_index(v: Seq<SymbolView>) -> Option<SymbolView>
    decreases v.len(),
{
    if v.len() == 0 {
        None
    } else {
        match first_index(v.drop_last()) {
            Some(s) => Some(s),
            None => if v.last().kind == InstrumentKind::Index {
                Some(v.last())
            } else {
                None
            },
        }
    }
}

/// The first symbol outside CN-A is one of them, and all before it are of CN-A;
/// only where all are of CN-A is there none.
pub proof fn law_the_first_foreign_symbol_is_told(v: Seq<SymbolView>, n: int)
    requires
        0 <= n <= v.len(),
        n < v.len() ==> v[n].market != Market::CnA,
        forall|i: int| 0 <= i < n ==> (#[trigger] v[i]).market == Market::CnA,
    ensures
        first_foreign(v) == (if n < v.len() {
            Some(v[n])
        } else {
            None
        }),
    decreases v.len(),
{
    if v.len() > 0 {
        let d = v.drop_last();
        if n < d.len() {
            law_the_first_foreign_symbol_is_told(d, n);
        } else {
            law_the_first_foreign_symbol_is_told(d, d.len() as int);
            if n == v.len() {
                assert(v[n - 1].market == Market::CnA);
            }
        }
    }
}

/// The first index is one of the symbols, and none before it is; only where none
/// is an index is there none.
pub proof fn law_the_first_index_is_told(v: Seq<SymbolView>, n: int)
    requires
        0 <= n <= v.len(),
        n < v.len() ==> v[n].kind == InstrumentKind::Index,
        forall|i: int| 0 <= i < n ==> (#[trigger] v[i]).kind != InstrumentKind::Index,
    ensures
        first_index(v) == (if n < v.len() {
            Some(v[n])
        } else {
            None
        }),
    decreases v.len(),
{
    if v.len() > 0 {
        let d = v.drop_last();
        if n < d.len() {
            law_the_first_index_is_told(d, n);
        } else {
            law_the_first_index_is_told(d, d.len() as int);
            if n == v.len() {
                assert(v[n - 1].kind != InstrumentKind::Index);
            }
        }
    }
}

fn find_foreign(symbols: &[Symbol]) -> (r: Option<&Symbol>)
    ensures
        match r {
            Some(s) => first_foreign(symbol_views(symbols@)) == Some(s@),
            None => first_foreign(symbol_views(symbols@)) is None,
        },
{
    let ghost v = symbol_views(symbols@);
    let mut found: Option<&Symbol> = None;
    let mut i: usize = 0;
    while i < symbols.len()
        invariant
            i <= symbols@.len(),
            v == symbol_views(symbols@),
            match found {
                Some(s) => first_foreign(v.take(i as int)) == Some(s@),
                None => first_foreign(v.take(i as int)) is None,
            },
        decreases symbols@.len() - i,
    {
        proof {
            let t = v.take(i as int + 1);
            assert(t.drop_last() =~= v.take(i as int));
            assert(t.last() == symbols@[i as int]@);
        }
        if found.is_none() && symbols[i].market != Market::CnA {
            found = Some(&symbols[i]);
        }
        i = i + 1;
    }
    proof {
        assert(v.take(v.len() as int) =~= v);
    }
    found
}

fn find_index(symbols: &[Symbol]) -> (r: Option<&Symbol>)
    ensures
        match r {
            Some(s) => first_index(symbol_views(symbols@)) == Some(s@),
            None => first_index(symbol_views(symbols@)) is None,
        },
{
    let ghost v = symbol_views(symbols@);
    let mut found: Option<&Symbol> = None;
    let mut i: usize = 0;
    while i < symbols.len()
        invariant
            i <= symbols@.len(),
            v == symbol_views(symbols@),
            match found {
                Some(s) => first_index(v.take(i as int)) == Some(s@),
                None => first_index(v.take(i as int)) is None,
            },
        decreases symbols@.len() - i,
    {
        proof {
            let t = v.take(i as int + 1);
            assert(t.drop_last() =~= v.take(i as int));
            assert(t.last() == symbols@[i as int]@);
        }
        if found.is_none() && symbols[i].kind == InstrumentKind::Index {
            found = Some(&symbols[i]);
        }
        i = i + 1;
    }
    proof {
        assert(v.take(v.len() as int) =~= v);
    }
    found
}

/// What an optional fault makes of a check.
pub open spec fn check_result(fault: Option<ErrorView>) -> Result<(), ErrorView> {
    match fault {
        Some(e) => Err(e),
        None => Ok(()),
    }
}

/// A check with its error taken by its view.
pub open spec fn check_outcome(r: Result<(), SiftError>) -> Result<(), ErrorView> {
    match r {
        Ok(()) => Ok(()),
        Err(e) => Err(e@),
    }
}

/// A check fails exactly where there is a fault, and with that fault.
pub proof fn law_a_fault_fails_the_check(fault: Option<ErrorView>, r: Result<(), SiftError>)
    ensures
        check_result(fault) is Err <==> fault is Some,
        fault matches Some(e) ==> check_result(fault) == Err::<(), ErrorView>(e),
        check_outcome(r) == check_result(fault) ==> (r is Err <==> fault is Some) && (r matches Err(
            f,
        ) ==> fault == Some(f@)),
{
}

/// The parent company alone can be had for CN-A only.
pub open spec fn scope_fault(scope: Scope, symbols: Seq<SymbolView>) -> Option<ErrorView> {
    if scope == Scope::Parent {
        match first_foreign(symbols) {
            Some(bad) => Some(
                ErrorView::NoApplicableSource(
                    "--scope parent is only supported for A-share; got "@ + bad.code + " ("@
                        + bad.market.variant_name() + ")"@,
                ),
            ),
            None => None,
        }
    } else {
        None
    }
}

/// Whether the scope can be had for all symbols.
pub fn validate_scope(scope: Scope, symbols: &[Symbol]) -> (r: Result<(), SiftError>)
    ensures
        check_outcome(r) == check_result(scope_fault(scope, symbol_views(symbols@))),
{
    if scope == Scope::Parent {
        if let Some(bad) = find_foreign(symbols) {
            return Err(
                SiftError::NoApplicableSource(
                    concat5(
                        "--scope parent is only supported for A-share; got ",
                        bad.code.as_str(),
                        " (",
                        bad.market.name(),
                        ")",
                    ),
                ),
            );
        }
    }
    Ok(())
}

/// An index has no reports.
pub open spec fn index_fault(symbols: Seq<SymbolView>) -> Option<ErrorView> {
    match first_index(symbols) {
        Some(bad) => Some(
            ErrorView::NoApplicableSource(
                "index "@ + bad.display()
                    + " (`sift report` covers equities only; use `sift quote` / `sift bars`)"@,
            ),
        ),
        None => None,
    }
}

/// Whether no symbol is an index.
pub fn validate_not_index(symbols: &[Symbol]) -> (r: Result<(), SiftError>)
    ensures
        check_outcome(r) == check_result(index_fault(symbol_views(symbols@))),
{
    match find_index(symbols) {
        Some(bad) => Err(
            SiftError::NoApplicableSource(
                concat3(
                    "index ",
                    bad.display_symbol().as_str(),
                    " (`sift report` covers equities only; use `sift quote` / `sift bars`)",
                ),
            ),
        ),
        None => Ok(()),
    }
}

/// Indicators can be had for CN-A only.
pub open spec fn indicator_fault(stmt: Statement, symbols: Seq<SymbolView>) -> Option<ErrorView> {
    if stmt == Statement::Indicator {
        match first_foreign(symbols) {
            Some(bad) => Some(
                ErrorView::NoApplicableSource(
                    "indicator is A-share only ("@ + bad.display() + " is "@
                        + bad.market.upper_label()
                        + "); use `report income/balance/cashflow` instead"@,
                ),
            ),
            None => None,
        }
    } else {
        None
    }
}

/// Whether the statement can be had for all symbols.
pub fn validate_indicator_market(stmt: Statement, symbols: &[Symbol]) -> (r: Result<(), SiftError>)
    ensures
        check_outcome(r) == check_result(indicator_fault(stmt, symbol_views(symbols@))),
{
    if stmt != Statement::Indicator {
        return Ok(());
    }
    match find_foreign(symbols) {
        Some(bad) => Err(
            SiftError::NoApplicableSource(
                concat5(
                    "indicator is A-share only (",
                    bad.display_symbol().as_str(),
                    " is ",
                    bad.market.as_upper(),
                    "); use `report income/balance/cashflow` instead",
                ),
            ),
        ),
        None => Ok(()),
    }
}

/// Single quarters make sense for flows only.
pub open spec fn qmode_fault(qmode: QModeArg, stmt: Statement) -> Option<ErrorView> {
    if qmode == QModeArg::Single && stmt != Statement::Income && stmt != Statement::Cashflow {
        Some(
            ErrorView::NoApplicableSource(
                "--qmode single 仅适用于 income / cashflow（"@ + stmt.label()
                    + " 是时点数 / 比率，无单季口径）"@,
            ),
        )
    } else {
        None
    }
}

/// Whether single quarters make sense for the statement.
pub fn validate_qmode(qmode: QModeArg, stmt: Statement) -> (r: Result<(), SiftError>)
    ensures
        check_outcome(r) == check_result(qmode_fault(qmode, stmt)),
{
    if qmode == QModeArg::Single && stmt != Statement::Income && stmt != Statement::Cashflow {
        return Err(
            SiftError::NoApplicableSource(
                concat3(
                    "--qmode single 仅适用于 income / cashflow（",
                    stmt.as_str(),
                    " 是时点数 / 比率，无单季口径）",
                ),
            ),
        );
    }
    Ok(())
}

// ---------------------------------------------------------------------------
// Periods
// ---------------------------------------------------------------------------

/// The periods of one year: the annual one, or all four.
pub open spec fn year_ends(y: i32, annual: bool) -> Seq<Period> {
    if annual {
        seq![Period::Annual(y)]
    } else {
        four_ends(y)
    }
}

/// The periods of the years from `start` to `end`, both included.
pub open spec fn year_range(start: int, end: int, annual: bool) -> Seq<Period>
    decreases end - start + 1,
{
    if start > end {
        Seq::empty()
    } else {
        year_range(start, end - 1, annual) + year_ends(end as i32, annual)
    }
}

fn push_year(out: &mut Vec<Period>, y: i32, annual: bool)
    ensures
        final(out)@ == old(out)@ + year_ends(y, annual),
{
    let ghost before = out@;
    if !annual {
        out.push(Period::Q1(y));
        out.push(Period::H1(y));
        out.push(Period::Q3(y));
    }
    out.push(Period::Annual(y));
    proof {
        assert(out@ =~= before + year_ends(y, annual));
    }
}

/// The periods of the years from `start` to `end`, both included.
pub fn expand_year_range(start: i32, end: i32, annual: bool) -> (out: Vec<Period>)
    ensures
        out@ == year_range(start as int, end as int, annual),
{
    let mut out: Vec<Period> = Vec::new();
    let mut y: i64 = start as i64;
    while y <= end as i64
        invariant
            i32::MIN <= start <= y,
            y <= end + 1 || y == start,
            out@ == year_range(start as int, y - 1, annual),
        decreases end - y + 1,
    {
        push_year(&mut out, y as i32, annual);
        y = y + 1;
    }
    proof {
        if y == start {
            assert(year_range(start as int, end as int, annual) =~= Seq::empty());
        }
    }
    out
}

/// The year that `--years` counts back from: that of the latest filed period,
/// or of the latest filed annual report.
pub open spec fn anchor_of(today: Date, annual: bool) -> int {
    let p = latest_filed(today);
    if annual && !(p is Annual) {
        p.end().year - 1
    } else {
        p.end().year as int
    }
}

/// The year that `--years` counts back from.
pub fn anchor_year(today: Date, annual: bool) -> (y: i32)
    requires
        today.wf(),
    ensures
        y == anchor_of(today, annual),
{
    let mut p = most_recent_filed(today);
    if annual {
        while p.period_type() != Some(PeriodType::Annual)
            invariant
                today.wf(),
                p.standard(),
                p == latest_filed(today) || p == latest_filed(today).prior() || p == latest_filed(
                    today,
                ).prior().prior() || p == latest_filed(today).prior().prior().prior(),
                !(latest_filed(today) is Annual),
                -10_001 <= p.end().year <= 9999,
                !(p is Annual) ==> p.end().year == latest_filed(today).end().year,
                p is Annual ==> p.end().year == latest_filed(today).end().year - 1,
            decreases (match p {
                Period::Q3(_) => 3int,
                Period::H1(_) => 2int,
                Period::Q1(_) => 1int,
                _ => 0int,
            }),
        {
            p = p.previous();
        }
    }
    match p {
        Period::Annual(y) | Period::H1(y) | Period::Q1(y) | Period::Q3(y) => y,
        Period::Custom(d) => d.year,
    }
}

/// The annual report of the year that `--years --annual` counts back from is
/// certain to be filed.
pub proof fn law_annual_anchor_is_filed(today: Date)
    requires
        today.wf(),
    ensures
        Period::Annual(anchor_of(today, true) as i32).deadline().before(today),
{
}

/// The periods of several tokens, one token after the other.
pub open spec fn flat_periods(v: Seq<Vec<Period>>) -> Seq<Period>
    decreases v.len(),
{
    if v.len() == 0 {
        Seq::empty()
    } else {
        flat_periods(v.drop_last()) + v.last()@
    }
}

fn flatten(v: &Vec<Vec<Period>>) -> (out: Vec<Period>)
    ensures
        out@ == flat_periods(v@),
{
    let mut out: Vec<Period> = Vec::new();
    let mut i: usize = 0;
    proof {
        assert(v@.take(0) =~= Seq::empty());
    }
    while i < v.len()
        invariant
            i <= v@.len(),
            out@ == flat_periods(v@.take(i as int)),
        decreases v@.len() - i,
    {
        let ghost before = out@;
        let mut k: usize = 0;
        proof {
            assert(before + v@[i as int]@.take(0) =~= before);
        }
        while k < v[i].len()
            invariant
                i < v@.len(),
                k <= v@[i as int]@.len(),
                out@ == before + v@[i as int]@.take(k as int),
            decreases v@[i as int]@.len() - k,
        {
            out.push(v[i][k]);
            proof {
                assert(out@ =~= before + v@[i as int]@.take(k as int + 1));
            }
            k = k + 1;
        }
        proof {
            let t = v@.take(i as int + 1);
            assert(t.drop_last() =~= v@.take(i as int));
            assert(t.last() == v@[i as int]);
            assert(v@[i as int]@.take(k as int) =~= v@[i as int]@);
        }
        i = i + 1;
    }
    proof {
        assert(v@.take(v@.len() as int) =~= v@);
    }
    out
}

/// Which periods the options name: `--period`, else `--last`, else `--years`,
/// else `--start` and `--end`, else the latest eight.
pub open spec fn asked_periods(args: StatementArgs, today: Date) -> Seq<Period> {
    if args.period@.len() > 0 {
        flat_periods(args.period@)
    } else {
        match (args.last, args.years, args.start, args.end) {
            (Some(n), _, _, _) => walk_back(latest_filed(today), n as nat),
            (None, Some(n), _, _) => {
                let anchor = anchor_of(today, args.annual);
                year_range(anchor - n + 1, anchor, args.annual)
            },
            (None, None, Some(s), Some(e)) => year_range(s as int, e as int, args.annual),
            _ => walk_back(latest_filed(today), 8),
        }
    }
}

/// The count that applies, if one does, stays within the years of an `i32`.
pub open spec fn counts_fit(args: StatementArgs, today: Date) -> bool {
    args.period@.len() == 0 ==> match (args.last, args.years) {
        (Some(n), _) => reaches_back(latest_filed(today), n as nat),
        (None, Some(n)) => n <= i32::MAX && anchor_of(today, args.annual) - n >= i32::MIN,
        (None, None) => true,
    }
}

/// Whether the count that applies stays within the years of an `i32`.
pub fn counts_allowed(args: &StatementArgs, today: Date) -> (r: bool)
    requires
        today.wf(),
    ensures
        r == counts_fit(*args, today),
{
    if args.period.len() > 0 {
        return true;
    }
    if let Some(n) = args.last {
        let quarter: i128 = match most_recent_filed(today) {
            Period::Annual(y) => 4 * (y as i128) + 4,
            Period::Q3(y) => 4 * (y as i128) + 3,
            Period::H1(y) => 4 * (y as i128) + 2,
            Period::Q1(y) => 4 * (y as i128) + 1,
            Period::Custom(d) => 4 * (d.year as i128),
        };
        return quarter - n as i128 >= 4 * (i32::MIN as i128) + 1;
    }
    if let Some(n) = args.years {
        let anchor: i32 = anchor_year(today, args.annual);
        return n as i128 <= i32::MAX as i128 && anchor as i128 - n as i128 >= i32::MIN as i128;
    }
    true
}

/// No count that anyone would ask for is too large.
pub proof fn law_ordinary_counts_fit(args: StatementArgs, today: Date)
    requires
        today.wf(),
        args.last matches Some(n) ==> n <= 8_000_000_000,
        args.years matches Some(n) ==> n <= 2_000_000_000,
    ensures
        counts_fit(args, today),
{
}

/// Which periods the options name.
pub fn resolve_periods(args: &StatementArgs, today: Date) -> (out: Vec<Period>)
    requires
        today.wf(),
        counts_fit(*args, today),
    ensures
        out@ == asked_periods(*args, today),
{
    if args.period.len() > 0 {
        return flatten(&args.period);
    }
    if let Some(n) = args.last {
        return last_n_filed(today, n);
    }
    if let Some(n) = args.years {
        let anchor: i32 = anchor_year(today, args.annual);
        return expand_year_range(anchor - (n as i32) + 1, anchor, args.annual);
    }
    if let (Some(s), Some(e)) = (args.start, args.end) {
        return expand_year_range(s, e, args.annual);
    }
    last_n_filed(today, 8)
}

/// A period is in the range of years exactly if it is a standard one, its year
/// lies between the first and the last, both included, and it is an annual one
/// where only those are asked for.
proof fn lemma_year_range(start: int, end: int, annual: bool, p: Period)
    requires
        i32::MIN <= start,
        end <= i32::MAX,
    ensures
        year_range(start, end, annual).contains(p) <==> match p {
            Period::Annual(y) => start <= y <= end,
            Period::Q1(y) => start <= y <= end && !annual,
            Period::H1(y) => start <= y <= end && !annual,
            Period::Q3(y) => start <= y <= end && !annual,
            Period::Custom(_) => false,
        },
        start <= end ==> year_range(start, end, annual).len() == (end - start + 1) * (if annual {
            1int
        } else {
            4
        }),
        start > end ==> year_range(start, end, annual).len() == 0,
    decreases end - start + 1,
{
    if start <= end {
        lemma_year_range(start, end - 1, annual, p);
        let before = year_range(start, end - 1, annual);
        let own = year_ends(end as i32, annual);
        let all = year_range(start, end, annual);
        assert(all == before + own);
        if before.contains(p) {
            let i = choose|i: int| 0 <= i < before.len() && before[i] == p;
            assert(all[i] == p);
        }
        if own.contains(p) {
            let i = choose|i: int| 0 <= i < own.len() && own[i] == p;
            assert(all[before.len() + i] == p);
        }
        if all.contains(p) && !before.contains(p) {
            let i = choose|i: int| 0 <= i < all.len() && all[i] == p;
            if i < before.len() {
                assert(before[i] == p);
            } else {
                assert(own[i - before.len()] == p);
            }
            assert(own.contains(p));
        }
        let y = end as i32;
        assert(own.contains(p) <==> match p {
            Period::Annual(z) => z == y,
            Period::Q1(z) => z == y && !annual,
            Period::H1(z) => z == y && !annual,
            Period::Q3(z) => z == y && !annual,
            Period::Custom(_) => false,
        }) by {
            if annual {
                assert(own[0] == Period::Annual(y));
            } else {
                assert(own[0] == Period::Q1(y));
                assert(own[1] == Period::H1(y));
                assert(own[2] == Period::Q3(y));
                assert(own[3] == Period::Annual(y));
            }
        }
        assert((end - start + 1) * 4 == (end - 1 - start + 1) * 4 + 4) by (nonlinear_arith);
    }
}

/// The periods of a range of years ascend by their last day.
proof fn lemma_year_range_ascends(start: int, end: int, annual: bool, i: int, j: int)
    requires
        i32::MIN <= start,
        end <= i32::MAX,
        0 <= i < j < year_range(start, end, annual).len(),
    ensures
        year_range(start, end, annual)[i].end().before(year_range(start, end, annual)[j].end()),
    decreases end - start + 1,
{
    let before = year_range(start, end - 1, annual);
    let own = year_ends(end as i32, annual);
    let all = year_range(start, end, annual);
    assert(all == before + own);
    if j < before.len() {
        lemma_year_range_ascends(start, end - 1, annual, i, j);
        assert(all[i] == before[i] && all[j] == before[j]);
    } else {
        assert(all[j] == own[j - before.len()]);
        assert(all[j].end().year == end);
        if i < before.len() {
            assert(all[i] == before[i]);
            assert(before.contains(before[i]));
            lemma_year_range(start, end - 1, annual, before[i]);
            assert(all[i].end().year <= end - 1);
        } else {
            assert(all[i] == own[i - before.len()]);
        }
    }
}

/// `--start` and `--end` alone name the years from the one to the other, both
/// included: a standard period is asked for exactly if its year lies among them
/// and, with `--annual`, it is an annual one. No other period is asked for, and
/// the periods ascend by their last day, so each is asked for once.
pub proof fn law_start_and_end_name_the_years_between(
    args: StatementArgs,
    today: Date,
    s: i32,
    e: i32,
    p: Period,
    i: int,
    j: int,
)
    requires
        args.period@.len() == 0,
        args.last is None,
        args.years is None,
        args.start == Some(s),
        args.end == Some(e),
    ensures
        asked_periods(args, today).contains(p) <==> match p {
            Period::Annual(y) => s <= y <= e,
            Period::Q1(y) => s <= y <= e && !args.annual,
            Period::H1(y) => s <= y <= e && !args.annual,
            Period::Q3(y) => s <= y <= e && !args.annual,
            Period::Custom(_) => false,
        },
        0 <= i < j < asked_periods(args, today).len() ==> asked_periods(
            args,
            today,
        )[i].end().before(asked_periods(args, today)[j].end()),
{
    lemma_year_range(s as int, e as int, args.annual, p);
    if 0 <= i < j < asked_periods(args, today).len() {
        lemma_year_range_ascends(s as int, e as int, args.annual, i, j);
    }
}

/// `--years n` names the `n` years up to the one of the latest filed period; with
/// `--annual`, up to the one of the latest annual report that is filed, and only
/// annual reports. The periods ascend by their last day.
pub proof fn law_years_name_the_latest_years(
    args: StatementArgs,
    today: Date,
    n: usize,
    p: Period,
    i: int,
    j: int,
)
    requires
        today.wf(),
        counts_fit(args, today),
        args.period@.len() == 0,
        args.last is None,
        args.years == Some(n),
    ensures
        ({
            let newest = latest_filed(today);
            let top = if args.annual && !(newest is Annual) {
                newest.end().year - 1
            } else {
                newest.end().year as int
            };
            asked_periods(args, today).contains(p) <==> match p {
                Period::Annual(y) => top - n < y <= top,
                Period::Q1(y) => top - n < y <= top && !args.annual,
                Period::H1(y) => top - n < y <= top && !args.annual,
                Period::Q3(y) => top - n < y <= top && !args.annual,
                Period::Custom(_) => false,
            }
        }),
        asked_periods(args, today).len() == n * (if args.annual {
            1int
        } else {
            4
        }),
        0 <= i < j < asked_periods(args, today).len() ==> asked_periods(
            args,
            today,
        )[i].end().before(asked_periods(args, today)[j].end()),
{
    let top = anchor_of(today, args.annual);
    lemma_year_range(top - n + 1, top, args.annual, p);
    if 0 <= i < j < asked_periods(args, today).len() {
        lemma_year_range_ascends(top - n + 1, top, args.annual, i, j);
    }
}

/// `--period` asks for the periods of all its tokens and for no others, and for
/// nothing else whatever the other options say.
pub proof fn law_period_names_just_its_periods(args: StatementArgs, today: Date, p: Period)
    requires
        args.period@.len() > 0,
    ensures
        asked_periods(args, today).contains(p) <==> exists|i: int|
            0 <= i < args.period@.len() && (#[trigger] args.period@[i])@.contains(p),
{
    lemma_flat_periods(args.period@, p);
}

/// The periods of `--period` come token by token, in the order of the tokens, each
/// as often as it is named.
pub proof fn law_tokens_keep_their_order(
    a: Seq<Vec<Period>>,
    token: Vec<Period>,
    b: Seq<Vec<Period>>,
)
    ensures
        flat_periods(a + seq![token] + b) == flat_periods(a) + token@ + flat_periods(b),
    decreases b.len(),
{
    let s = a + seq![token] + b;
    if b.len() == 0 {
        assert(s.drop_last() =~= a);
        assert(s.last() == token);
    } else {
        law_tokens_keep_their_order(a, token, b.drop_last());
        assert(s.drop_last() =~= a + seq![token] + b.drop_last());
        assert(s.last() == b.last());
    }
    assert(flat_periods(s) =~= flat_periods(a) + token@ + flat_periods(b));
}

proof fn lemma_flat_periods(v: Seq<Vec<Period>>, p: Period)
    ensures
        flat_periods(v).contains(p) <==> exists|i: int|
            0 <= i < v.len() && (#[trigger] v[i])@.contains(p),
    decreases v.len(),
{
    if v.len() > 0 {
        let d = v.drop_last();
        let before = flat_periods(d);
        let own = v.last()@;
        let all = flat_periods(v);
        lemma_flat_periods(d, p);
        if all.contains(p) {
            let k = choose|k: int| 0 <= k < all.len() && all[k] == p;
            if k < before.len() {
                assert(before[k] == p);
                assert(before.contains(p));
                let i = choose|i: int| 0 <= i < d.len() && (#[trigger] d[i])@.contains(p);
                assert(v[i]@.contains(p));
            } else {
                assert(own[k - before.len()] == p);
                assert(v[v.len() - 1]@.contains(p));
            }
        }
        if exists|i: int| 0 <= i < v.len() && (#[trigger] v[i])@.contains(p) {
            let i = choose|i: int| 0 <= i < v.len() && (#[trigger] v[i])@.contains(p);
            if i < d.len() {
                assert(d[i]@.contains(p));
                let k = choose|k: int| 0 <= k < before.len() && before[k] == p;
                assert(all[k] == p);
            } else {
                let k = choose|k: int| 0 <= k < own.len() && own[k] == p;
                assert(all[before.len() + k] == p);
            }
        }
    }
}

/// `--last n`, and eight where nothing is said of periods, names so many standard
/// periods from the latest filed one back, newest first, and skips none: every
/// standard period that ends between the last and the first of them, or with one
/// of them, is among them. One of `--start` and `--end` without the other says
/// nothing.
pub proof fn law_last_names_the_latest_periods(
    args: StatementArgs,
    today: Date,
    n: nat,
    i: int,
    j: int,
    p: Period,
)
    requires
        today.wf(),
        counts_fit(args, today),
        args.period@.len() == 0,
        match args.last {
            Some(k) => k == n,
            None => n == 8 && args.years is None && (args.start is None || args.end is None),
        },
    ensures
        asked_periods(args, today).len() == n,
        n > 0 ==> asked_periods(args, today)[0] == latest_filed(today),
        0 <= i < j < n ==> asked_periods(args, today)[j].end().before(
            asked_periods(args, today)[i].end(),
        ),
        0 <= i < n ==> !(asked_periods(args, today)[i] is Custom),
        n > 0 && !(p is Custom) && !latest_filed(today).end().before(p.end()) && !p.end().before(
            asked_periods(args, today)[n - 1].end(),
        ) ==> asked_periods(args, today).contains(p),
{
    let newest = latest_filed(today);
    assert(reaches_back(newest, n));
    if n > 0 {
        lemma_walk_is(newest, n, 0);
        lemma_walk_is(newest, n, n - 1);
    }
    if 0 <= i < j < n {
        law_last_n_strictly_descends(today, n, i, j);
    }
    if 0 <= i < n {
        lemma_walk_is(newest, n, i);
    }
    let asked = asked_periods(args, today);
    if n > 0 && !(p is Custom) && !newest.end().before(p.end()) && !p.end().before(
        asked[n - 1].end(),
    ) {
        let k = quarter_index(newest) - quarter_index(p);
        assert(0 <= k < n);
        lemma_walk_is(newest, n, k);
        assert(quarter_index(asked[k]) == quarter_index(p));
        assert(asked[k] == p);
    }
}

/// The periods of a walk back, by how many quarters they lie back.
proof fn lemma_walk_is(p: Period, n: nat, k: int)
    requires
        !(p is Custom),
        0 <= k < n,
        reaches_back(p, n),
    ensures
        walk_back(p, n).len() == n,
        !(walk_back(p, n)[k] is Custom),
        quarter_index(walk_back(p, n)[k]) == quarter_index(p) - k,
        walk_back(p, n)[0] == p,
    decreases n,
{
    assert(walk_back(p, n) == seq![p] + walk_back(p.prior(), (n - 1) as nat));
    if n > 1 {
        lemma_walk_is(p.prior(), (n - 1) as nat, if k > 0 {
            k - 1
        } else {
            0
        });
        if k > 0 {
            assert(walk_back(p, n)[k] == walk_back(p.prior(), (n - 1) as nat)[k - 1]);
        }
    } else {
        assert(walk_back(p.prior(), 0) =~= Seq::empty());
    }
}

/// The years of some periods.
pub open spec fn period_years(periods: Seq<Period>) -> Seq<i32> {
    periods.map_values(|p: Period| p.end().year)
}

/// The four ends of each year, one year after the other.
pub open spec fn four_each(years: Seq<i32>) -> Seq<Period>
    decreases years.len(),
{
    if years.len() == 0 {
        Seq::empty()
    } else {
        four_each(years.drop_last()) + four_ends(years.last())
    }
}

/// `out` holds the four ends of each year that `periods` touch, in order and
/// each year once.
pub open spec fn is_full_years(periods: Seq<Period>, out: Seq<Period>) -> bool {
    exists|years: Seq<i32>| #[trigger]
        is_sorted_set(period_years(periods), years) && out == four_each(years)
}

/// The four ends of each year that some periods touch: what single quarters
/// are computed from.
pub fn full_year_cumulative(periods: &[Period]) -> (out: Vec<Period>)
    ensures
        is_full_years(periods@, out@),
{
    let mut years: Vec<i32> = Vec::new();
    let mut i: usize = 0;
    while i < periods.len()
        invariant
            i <= periods@.len(),
            years@.len() == i,
            forall|k: int| 0 <= k < i ==> #[trigger] years@[k] == periods@[k].end().year,
        decreases periods@.len() - i,
    {
        let y: i32 = match periods[i] {
            Period::Annual(y) | Period::H1(y) | Period::Q1(y) | Period::Q3(y) => y,
            Period::Custom(d) => d.year,
        };
        years.push(y);
        i = i + 1;
    }
    proof {
        assert(years@ =~= period_years(periods@));
    }
    let years = sorted_distinct(years);
    let mut out: Vec<Period> = Vec::new();
    let mut k: usize = 0;
    proof {
        assert(years@.take(0) =~= Seq::empty());
    }
    while k < years.len()
        invariant
            k <= years@.len(),
            out@ == four_each(years@.take(k as int)),
        decreases years@.len() - k,
    {
        proof {
            let t = years@.take(k as int + 1);
            assert(t.drop_last() =~= years@.take(k as int));
            assert(t.last() == years@[k as int]);
        }
        push_year(&mut out, years[k], false);
        k = k + 1;
    }
    proof {
        assert(years@.take(years@.len() as int) =~= years@);
        assert(is_sorted_set(period_years(periods@), years@));
    }
    out
}

/// Which periods single quarters are computed from is determined.
pub proof fn law_full_years_are_determined(periods: Seq<Period>, a: Seq<Period>, b: Seq<Period>)
    requires
        is_full_years(periods, a),
        is_full_years(periods, b),
    ensures
        a == b,
{
    let x = choose|years: Seq<i32>| #[trigger]
        is_sorted_set(period_years(periods), years) && a == four_each(years);
    let y = choose|years: Seq<i32>| #[trigger]
        is_sorted_set(period_years(periods), years) && b == four_each(years);
    let sx = crate::order::stands_for(x);
    let sy = crate::order::stands_for(y);
    assert(sx =~= x);
    assert(sy =~= y);
    assert forall|v: i32| #[trigger] sx.contains(v) <==> sy.contains(v) by {
        assert(x.contains(v) <==> period_years(periods).contains(v));
        assert(y.contains(v) <==> period_years(periods).contains(v));
    }
    crate::order::lemma_ascending_unique(x, y);
}

/// Single quarters are computed from the four standard periods of every year in
/// which an asked period ends, each once and in ascending order, and from no
/// others.
pub proof fn law_full_years_hold_the_four_ends(
    periods: Seq<Period>,
    out: Seq<Period>,
    p: Period,
    i: int,
    j: int,
)
    requires
        is_full_years(periods, out),
    ensures
        out.contains(p) <==> !(p is Custom) && exists|k: int|
            0 <= k < periods.len() && (#[trigger] periods[k]).end().year == p.end().year,
        0 <= i < j < out.len() ==> out[i].end().before(out[j].end()),
{
    let years = choose|years: Seq<i32>| #[trigger]
        is_sorted_set(period_years(periods), years) && out == four_each(years);
    let all = period_years(periods);
    lemma_four_each(years, p);
    assert(all.contains(p.end().year) <==> exists|k: int|
        0 <= k < periods.len() && (#[trigger] periods[k]).end().year == p.end().year) by {
        if all.contains(p.end().year) {
            let k = choose|k: int| 0 <= k < all.len() && all[k] == p.end().year;
            assert(periods[k].end().year == p.end().year);
        }
        if exists|k: int|
            0 <= k < periods.len() && (#[trigger] periods[k]).end().year == p.end().year {
            let k = choose|k: int|
                0 <= k < periods.len() && (#[trigger] periods[k]).end().year == p.end().year;
            assert(all[k] == p.end().year);
        }
    }
    assert(years.contains(p.end().year) <==> all.contains(p.end().year));
    if 0 <= i < j < out.len() {
        lemma_four_each_ascends(years, i, j);
    }
}

proof fn lemma_four_each(years: Seq<i32>, p: Period)
    ensures
        four_each(years).contains(p) <==> !(p is Custom) && years.contains(p.end().year),
    decreases years.len(),
{
    if years.len() > 0 {
        let d = years.drop_last();
        let y = years.last();
        let before = four_each(d);
        let own = four_ends(y);
        let all = four_each(years);
        lemma_four_each(d, p);
        assert(years[years.len() - 1] == y);
        assert(years.contains(p.end().year) <==> d.contains(p.end().year) || p.end().year == y) by {
            if years.contains(p.end().year) {
                let k = choose|k: int| 0 <= k < years.len() && years[k] == p.end().year;
                if k < d.len() {
                    assert(d[k] == p.end().year);
                }
            }
            if d.contains(p.end().year) {
                let k = choose|k: int| 0 <= k < d.len() && d[k] == p.end().year;
                assert(years[k] == p.end().year);
            }
        }
        assert(own[0] == Period::Q1(y) && own[1] == Period::H1(y) && own[2] == Period::Q3(y)
            && own[3] == Period::Annual(y));
        assert(own.contains(p) <==> !(p is Custom) && p.end().year == y);
        if before.contains(p) {
            let k = choose|k: int| 0 <= k < before.len() && before[k] == p;
            assert(all[k] == p);
        }
        if own.contains(p) {
            let k = choose|k: int| 0 <= k < own.len() && own[k] == p;
            assert(all[before.len() + k] == p);
        }
        if all.contains(p) && !before.contains(p) {
            let k = choose|k: int| 0 <= k < all.len() && all[k] == p;
            if k < before.len() {
                assert(before[k] == p);
            } else {
                assert(own[k - before.len()] == p);
            }
        }
    }
}

proof fn lemma_four_each_ascends(years: Seq<i32>, i: int, j: int)
    requires
        ascending(years),
        0 <= i < j < four_each(years).len(),
    ensures
        four_each(years)[i].end().before(four_each(years)[j].end()),
    decreases years.len(),
{
    let d = years.drop_last();
    let y = years.last();
    let before = four_each(d);
    let own = four_ends(y);
    let all = four_each(years);
    assert(ascending(d)) by {
        assert forall|a: int, b: int| 0 <= a < b < d.len() implies i32::precedes(
            #[trigger] d[a],
            #[trigger] d[b],
        ) by {
            assert(i32::precedes(years[a], years[b]));
        }
    }
    if j < before.len() {
        lemma_four_each_ascends(d, i, j);
        assert(all[i] == before[i] && all[j] == before[j]);
    } else {
        assert(all[j] == own[j - before.len()]);
        assert(all[j].end().year == y);
        if i < before.len() {
            assert(all[i] == before[i]);
            assert(before.contains(before[i]));
            lemma_four_each(d, before[i]);
            let k = choose|k: int| 0 <= k < d.len() && d[k] == before[i].end().year;
            assert(i32::precedes(years[k], years[years.len() - 1]));
        } else {
            assert(all[i] == own[i - before.len()]);
        }
    }
}

// ---------------------------------------------------------------------------
// The whole command
// ---------------------------------------------------------------------------

/// What a statement command asks for.
#[derive(Debug)]
pub struct StatementPlan {
    /// What each text names; one that names no symbol fails, and no other does
    /// for it.
    pub symbols: Vec<(String, Result<Symbol, SiftError>)>,
    pub periods: Vec<Period>,
    pub scope: Scope,
    pub unit: Unit,
    /// The source that is named.
    pub source: Option<&'static str>,
    /// Cumulative figures are turned into single quarters.
    pub single: bool,
}

/// The first thing that is wrong with what is asked for.
pub open spec fn statement_fault(
    stmt: Statement,
    scope: Scope,
    qmode: QModeArg,
    symbols: Seq<SymbolView>,
) -> Option<ErrorView> {
    match scope_fault(scope, symbols) {
        Some(e) => Some(e),
        None => match index_fault(symbols) {
            Some(e) => Some(e),
            None => match indicator_fault(stmt, symbols) {
                Some(e) => Some(e),
                None => qmode_fault(qmode, stmt),
            },
        },
    }
}

/// A refusal names the symbol that it is for: the first that is not of CN-A, or the
/// first index.
pub proof fn law_a_refusal_names_the_symbol(
    stmt: Statement,
    scope: Scope,
    symbols: Seq<SymbolView>,
    n: int,
)
    requires
        0 <= n < symbols.len(),
    ensures
        symbols[n].market != Market::CnA && (forall|i: int|
            0 <= i < n ==> (#[trigger] symbols[i]).market == Market::CnA) ==> {
            &&& scope_fault(scope, symbols) matches Some(e) ==> (
            e matches ErrorView::NoApplicableSource(text) && occurs(text, symbols[n].code))
            &&& indicator_fault(stmt, symbols) matches Some(e) ==> (
            e matches ErrorView::NoApplicableSource(text) && occurs(text, symbols[n].display()))
        },
        symbols[n].kind == InstrumentKind::Index && (forall|i: int|
            0 <= i < n ==> (#[trigger] symbols[i]).kind != InstrumentKind::Index) ==> (index_fault(
            symbols,
        ) matches Some(ErrorView::NoApplicableSource(text)) && occurs(text, symbols[n].display())),
{
    let bad = symbols[n];
    if bad.market != Market::CnA && (forall|i: int|
        0 <= i < n ==> (#[trigger] symbols[i]).market == Market::CnA) {
        law_the_first_foreign_symbol_is_told(symbols, n);
        let a = "--scope parent is only supported for A-share; got "@;
        let b = " ("@ + bad.market.variant_name() + ")"@;
        lemma_occurs_between(a, bad.code, b);
        assert(a + bad.code + b =~= a + bad.code + " ("@ + bad.market.variant_name() + ")"@);
        let c = "indicator is A-share only ("@;
        let d = " is "@ + bad.market.upper_label()
            + "); use `report income/balance/cashflow` instead"@;
        lemma_occurs_between(c, bad.display(), d);
        assert(c + bad.display() + d =~= c + bad.display() + " is "@ + bad.market.upper_label()
            + "); use `report income/balance/cashflow` instead"@);
    }
    if bad.kind == InstrumentKind::Index && (forall|i: int|
        0 <= i < n ==> (#[trigger] symbols[i]).kind != InstrumentKind::Index) {
        law_the_first_index_is_told(symbols, n);
        lemma_occurs_between(
            "index "@,
            bad.display(),
            " (`sift report` covers equities only; use `sift quote` / `sift bars`)"@,
        );
    }
}

/// What is refused, and nothing else is: the parent company alone, or indicators,
/// with a symbol outside CN-A; an index; and single quarters of a balance sheet or
/// of indicators.
pub proof fn law_what_is_refused(
    stmt: Statement,
    scope: Scope,
    qmode: QModeArg,
    symbols: Seq<SymbolView>,
)
    ensures
        statement_fault(stmt, scope, qmode, symbols) is Some <==> {
            ||| (scope == Scope::Parent || stmt == Statement::Indicator) && exists|i: int|
                0 <= i < symbols.len() && (#[trigger] symbols[i]).market != Market::CnA
            ||| exists|i: int|
                0 <= i < symbols.len() && (#[trigger] symbols[i]).kind == InstrumentKind::Index
            ||| qmode == QModeArg::Single && (stmt == Statement::Balance || stmt
                == Statement::Indicator)
        },
{
    let n = lemma_first(symbols, |s: SymbolView| s.market != Market::CnA);
    law_the_first_foreign_symbol_is_told(symbols, n);
    let m = lemma_first(symbols, |s: SymbolView| s.kind == InstrumentKind::Index);
    law_the_first_index_is_told(symbols, m);
    if n < symbols.len() {
        assert(symbols[n].market != Market::CnA);
    }
    if m < symbols.len() {
        assert(symbols[m].kind == InstrumentKind::Index);
    }
}

/// The first place with a property, or the end.
proof fn lemma_first(v: Seq<SymbolView>, wanted: spec_fn(SymbolView) -> bool) -> (n: int)
    ensures
        0 <= n <= v.len(),
        n < v.len() ==> wanted(v[n]),
        forall|i: int| 0 <= i < n ==> !wanted(#[trigger] v[i]),
    decreases v.len(),
{
    if v.len() == 0 || wanted(v[0]) {
        0
    } else {
        let d = v.drop_first();
        let n = lemma_first(d, wanted);
        if n < d.len() {
            assert(d[n] == v[n + 1]);
        }
        assert forall|i: int| 0 <= i < n + 1 implies !wanted(#[trigger] v[i]) by {
            if i > 0 {
                assert(d[i - 1] == v[i]);
            }
        }
        n + 1
    }
}

/// The label of a source that is named.
pub open spec fn source_label(source: SourceArg) -> Option<Seq<char>> {
    match source.tag() {
        Some(t) => Some(t.label()),
        None => None,
    }
}

/// The label of a source that is named leads back to that source; without a name
/// there is none.
pub proof fn law_a_source_is_asked_by_its_label(source: SourceArg)
    ensures
        source_label(source) is None <==> source == SourceArg::Auto,
        source_label(source) matches Some(label) ==> SourceTag::named(label) == source.tag(),
        source == SourceArg::EastMoney ==> source.tag() == Some(SourceTag::EastMoney),
        source == SourceArg::Sina ==> source.tag() == Some(SourceTag::Sina),
{
    law_source_label_round_trip(SourceTag::EastMoney, Seq::empty());
    law_source_label_round_trip(SourceTag::Sina, Seq::empty());
}

/// What a statement command asks for, or why it is refused: a scope that cannot
/// be had, an index, an indicator that cannot be had, or single quarters of
/// what is no flow, in this order. A text that is no symbol refuses nothing but
/// itself. For single quarters all four periods of each year are asked for.
pub fn plan_statement(stmt: Statement, args: &StatementArgs, today: Date) -> (r: Result<
    StatementPlan,
    SiftError,
>)
    requires
        today.wf(),
        counts_fit(*args, today),
    ensures
        match statement_fault(
            stmt,
            args.scope.meaning(),
            args.qmode,
            symbols_of(views(args.symbols@)),
        ) {
            Some(e) => r matches Err(f) && f@ == e,
            None => {
                &&& r matches Ok(plan)
                &&& named_views(plan.symbols@) == views(args.symbols@).map_values(
                    |t: Seq<char>| named_symbol(t),
                )
                &&& plan.scope == args.scope.meaning()
                &&& plan.unit == args.unit.meaning()
                &&& opt_str(plan.source) == source_label(args.source)
                &&& plan.single == (args.qmode == QModeArg::Single)
                &&& if plan.single {
                    is_full_years(asked_periods(*args, today), plan.periods@)
                } else {
                    plan.periods@ == asked_periods(*args, today)
                }
            },
        },
{
    let named = parse_symbols(&args.symbols);
    let symbols = parsed(&named, Ghost(views(args.symbols@)));
    let scope = args.scope.scope();
    if let Err(e) = validate_scope(scope, symbols.as_slice()) {
        return Err(e);
    }
    if let Err(e) = validate_not_index(symbols.as_slice()) {
        return Err(e);
    }
    if let Err(e) = validate_indicator_market(stmt, symbols.as_slice()) {
        return Err(e);
    }
    if let Err(e) = validate_qmode(args.qmode, stmt) {
        return Err(e);
    }
    let asked = resolve_periods(args, today);
    let single = args.qmode == QModeArg::Single;
    let periods = if single {
        full_year_cumulative(asked.as_slice())
    } else {
        asked
    };
    let source = match args.source.as_source_tag() {
        Some(t) => Some(t.as_str()),
        None => None,
    };
    Ok(StatementPlan { symbols: named, periods, scope, unit: args.unit.unit(), source, single })
}

/// The rows of the symbols that were had, one symbol after the other.
pub open spec fn statement_rows(answers: Seq<(String, Result<Vec<FinancialRow>, SiftError>)>) -> Seq<
    RowView,
>
    decreases answers.len(),
{
    if answers.len() == 0 {
        Seq::empty()
    } else {
        let s = statement_rows(answers.drop_last());
        match answers.last().1 {
            Ok(rows) => s + row_views(rows@),
            Err(_) => s,
        }
    }
}

/// The symbols that failed, each with its cause, in order.
pub open spec fn statement_failures(
    answers: Seq<(String, Result<Vec<FinancialRow>, SiftError>)>,
) -> Seq<(Seq<char>, Seq<char>)>
    decreases answers.len(),
{
    if answers.len() == 0 {
        Seq::empty()
    } else {
        let s = statement_failures(answers.drop_last());
        match answers.last().1 {
            Ok(_) => s,
            Err(e) => s.push((answers.last().0@, e@.message())),
        }
    }
}

/// One failure does not sink the rest: where the answer for some symbol is there,
/// the command does not fail, and every row of that answer counts.
pub proof fn law_one_failure_does_not_sink_the_rest(
    answers: Seq<(String, Result<Vec<FinancialRow>, SiftError>)>,
    k: int,
    i: int,
)
    requires
        0 <= k < answers.len(),
        answers[k].1 is Ok,
        0 <= i < answers[k].1->Ok_0@.len(),
    ensures
        statement_failures(answers).len() < answers.len(),
        statement_rows(answers).contains(answers[k].1->Ok_0@[i]@),
    decreases answers.len(),
{
    let d = answers.drop_last();
    let s = statement_rows(d);
    let x = answers[k].1->Ok_0@[i]@;
    lemma_failures_bound(d);
    if k < d.len() {
        assert(d[k] == answers[k]);
        law_one_failure_does_not_sink_the_rest(d, k, i);
        let at = choose|at: int| 0 <= at < s.len() && s[at] == x;
        assert(statement_rows(answers)[at] == x);
    } else {
        assert(statement_rows(answers)[s.len() + i] == x);
    }
}

/// The answers are taken symbol by symbol: rows follow each other in the order of
/// the symbols, and a symbol that failed gives its own text and cause, in its
/// place.
pub proof fn law_answers_are_taken_symbol_by_symbol(
    a: Seq<(String, Result<Vec<FinancialRow>, SiftError>)>,
    x: (String, Result<Vec<FinancialRow>, SiftError>),
    b: Seq<(String, Result<Vec<FinancialRow>, SiftError>)>,
)
    ensures
        statement_rows(a + seq![x] + b) == statement_rows(a) + (match x.1 {
            Ok(rows) => rows@.map_values(|r: FinancialRow| r@),
            Err(_) => Seq::empty(),
        }) + statement_rows(b),
        statement_failures(a + seq![x] + b) == statement_failures(a) + (match x.1 {
            Ok(_) => Seq::empty(),
            Err(e) => seq![(x.0@, e@.message())],
        }) + statement_failures(b),
    decreases b.len(),
{
    let s = a + seq![x] + b;
    if b.len() == 0 {
        assert(s.drop_last() =~= a);
        assert(s.last() == x);
    } else {
        law_answers_are_taken_symbol_by_symbol(a, x, b.drop_last());
        assert(s.drop_last() =~= a + seq![x] + b.drop_last());
        assert(s.last() == b.last());
    }
    assert(statement_rows(s) =~= statement_rows(a) + (match x.1 {
        Ok(rows) => rows@.map_values(|r: FinancialRow| r@),
        Err(_) => Seq::empty(),
    }) + statement_rows(b));
    assert(statement_failures(s) =~= statement_failures(a) + (match x.1 {
        Ok(_) => Seq::empty(),
        Err(e) => seq![(x.0@, e@.message())],
    }) + statement_failures(b));
}

proof fn lemma_failures_bound(answers: Seq<(String, Result<Vec<FinancialRow>, SiftError>)>)
    ensures
        statement_failures(answers).len() <= answers.len(),
    decreases answers.len(),
{
    if answers.len() > 0 {
        lemma_failures_bound(answers.drop_last());
    }
}

/// What a statement command comes to, given the answer for each symbol. A single
/// symbol that failed is its own error. If every one of several failed, the
/// command fails with all failures; otherwise the rows of the others count, and
/// each failure is a warning.
pub fn settle_statement(answers: Vec<(String, Result<Vec<FinancialRow>, SiftError>)>) -> (r: Result<
    (Vec<FinancialRow>, Vec<String>),
    SiftError,
>)
    ensures
        if answers@.len() == 1 && answers@[0].1 is Err {
            r matches Err(e) && e@ == answers@[0].1->Err_0@
        } else if answers@.len() > 0 && statement_failures(answers@).len() == answers@.len() {
            r matches Err(e) && e@ == ErrorView::AllSourcesFailed(
                statement_failures(answers@).map_values(
                    |f: (Seq<char>, Seq<char>)| named_failure("report"@, f),
                ),
            )
        } else {
            r matches Ok(t) && row_views(t.0@) == statement_rows(answers@) && views(t.1@)
                == statement_failures(answers@).map_values(
                |f: (Seq<char>, Seq<char>)| failure_warning("report"@, f),
            )
        },
{
    let ghost all = answers@;
    let asked: usize = answers.len();
    let mut out: Vec<FinancialRow> = Vec::new();
    let mut failures: Vec<(String, String)> = Vec::new();
    let mut own: Option<SiftError> = None;
    proof {
        assert(all.take(0) =~= Seq::empty());
        assert(row_views(out@) =~= Seq::empty());
        assert(pair_views(failures@) =~= Seq::empty());
    }
    for answer in it: answers
        invariant
            it.seq() == all,
            row_views(out@) == statement_rows(all.take(it.index() as int)),
            pair_views(failures@) == statement_failures(all.take(it.index() as int)),
            it.index() == 0 ==> own is None,
            it.index() == 1 ==> match all[0].1 {
                Ok(_) => own is None,
                Err(e) => own == Some(e),
            },
    {
        let ghost n = it.index() as int;
        let ghost rows_before = row_views(out@);
        let ghost failures_before = pair_views(failures@);
        proof {
            assert(all.take(n + 1).drop_last() =~= all.take(n));
            assert(all.take(n + 1).last() == answer);
        }
        match answer.1 {
            Ok(rows) => {
                let mut more = rows;
                out.append(&mut more);
                proof {
                    assert(row_views(out@) =~= rows_before + row_views(rows@));
                }
            },
            Err(e) => {
                failures.push((answer.0, e.message()));
                proof {
                    assert(pair_views(failures@) =~= failures_before.push(
                        (answer.0@, e@.message()),
                    ));
                }
                own = Some(e);
            },
        }
    }
    proof {
        assert(all.take(all.len() as int) =~= all);
    }
    if asked == 1 {
        if let Some(e) = own {
            return Err(e);
        }
    }
    match settle_symbols("report", asked, failures) {
        Ok(warnings) => Ok((out, warnings)),
        Err(e) => Err(e),
    }
}

/// The symbol of the periods command; an index is refused.
pub fn plan_periods(args: &PeriodsArgs) -> (r: Result<(Symbol, Option<&'static str>), SiftError>)
    ensures
        match resolved(to_lower(trim(args.symbol@))) {
            Err(e) => r matches Err(f) && f@ == e,
            Ok(s) => match index_fault(seq![s]) {
                Some(e) => r matches Err(f) && f@ == e,
                None => r matches Ok(p) && p.0@ == s && opt_str(p.1)
                    == source_label(args.source),
            },
        },
{
    let sym = match Symbol::parse(args.symbol.as_str()) {
        Ok(s) => s,
        Err(e) => return Err(e),
    };
    let mut one: Vec<Symbol> = Vec::new();
    one.push(sym.clone());
    proof {
        assert(symbol_views(one@) =~= seq![sym@]);
    }
    if let Err(e) = validate_not_index(one.as_slice()) {
        return Err(e);
    }
    let source = match args.source.as_source_tag() {
        Some(t) => Some(t.as_str()),
        None => None,
    };
    Ok((sym, source))
}

// ---------------------------------------------------------------------------
// Items
// ---------------------------------------------------------------------------

/// The labels of items without white space around them.
pub open spec fn trimmed_texts(v: Seq<Seq<char>>) -> Seq<Seq<char>> {
    v.map_values(|s: Seq<char>| trim(s))
}

/// White space round the label of an item does not matter, and the labels keep
/// their order and number.
pub proof fn law_labels_are_taken_without_white_space(
    v: Seq<Seq<char>>,
    i: int,
    a: Seq<char>,
    s: Seq<char>,
    b: Seq<char>,
)
    requires
        0 <= i < v.len(),
        v[i] == a + s + b,
        forall|k: int| 0 <= k < a.len() ==> is_space(#[trigger] a[k]),
        forall|k: int| 0 <= k < b.len() ==> is_space(#[trigger] b[k]),
        s.len() > 0 ==> !is_space(s[0]) && !is_space(s.last()),
    ensures
        trimmed_texts(v).len() == v.len(),
        trimmed_texts(v)[i] == s,
{
    law_white_space_around_is_trimmed(a, s, b);
}

/// The items to show; `None` for all of them: without `--items`, and for the
/// single word `all`.
pub fn resolve_items(raw: &[String]) -> (r: Option<Vec<String>>)
    ensures
        match r {
            None => raw@.len() == 0 || raw@.len() == 1 && to_lower(raw@[0]@) == to_lower("all"@),
            Some(v) => raw@.len() > 0 && !(raw@.len() == 1 && to_lower(raw@[0]@) == to_lower(
                "all"@,
            )) && views(v@) == trimmed_texts(views(raw@)),
        },
        raw@.len() >= 2 ==> r is Some,
        r matches Some(v) ==> v@.len() == raw@.len(),
{
    if raw.len() == 0 {
        return None;
    }
    if raw.len() == 1 && same_ignoring_ascii_case(raw[0].as_str(), "all") {
        return None;
    }
    let mut out: Vec<String> = Vec::new();
    let mut i: usize = 0;
    while i < raw.len()
        invariant
            i <= raw@.len(),
            out@.len() == i,
            forall|k: int| 0 <= k < i ==> (#[trigger] out@[k])@ == trim(raw@[k]@),
        decreases raw@.len() - i,
    {
        out.push(trimmed(raw[i].as_str()));
        i = i + 1;
    }
    proof {
        assert(views(out@) =~= trimmed_texts(views(raw@)));
    }
    Some(out)
}

/// Some block shows the item.
pub open spec fn is_shown(blocks: Seq<Vec<String>>, item: Seq<char>) -> bool {
    exists|b: int| 0 <= b < blocks.len() && views(#[trigger] blocks[b]@).contains(item)
}

/// The items of a filter that no block shows, in order.
pub open spec fn not_shown(filter: Seq<Seq<char>>, blocks: Seq<Vec<String>>) -> Seq<Seq<char>> {
    filter.filter(|i: Seq<char>| !is_shown(blocks, i))
}

/// The items that are told as not shown are those of the filter that stand in no
/// block, as often and in the order in which the filter names them.
pub proof fn law_items_in_no_block_are_told(
    a: Seq<Seq<char>>,
    item: Seq<char>,
    b: Seq<Seq<char>>,
    blocks: Seq<Vec<String>>,
)
    ensures
        not_shown(a + seq![item] + b, blocks) == not_shown(a, blocks) + (if exists|k: int, i: int|
            0 <= k < blocks.len() && 0 <= i < blocks[k]@.len() && (#[trigger] blocks[k]@[i])@
                == item {
            Seq::empty()
        } else {
            seq![item]
        }) + not_shown(b, blocks),
{
    let open = |x: Seq<char>| !is_shown(blocks, x);
    Seq::filter_distributes_over_add(a + seq![item], b, open);
    Seq::filter_distributes_over_add(a, seq![item], open);
    assert(seq![item].filter(open) =~= if open(item) {
        seq![item]
    } else {
        Seq::empty()
    }) by {
        reveal_with_fuel(Seq::filter, 2);
        assert(seq![item].drop_last() =~= Seq::empty());
        assert(seq![item].last() == item);
    }
    if is_shown(blocks, item) {
        let k = choose|k: int|
            0 <= k < blocks.len() && views(#[trigger] blocks[k]@).contains(item);
        let v = views(blocks[k]@);
        let i = choose|i: int| 0 <= i < v.len() && v[i] == item;
        assert(blocks[k]@[i]@ == item);
    }
    if exists|k: int, i: int|
        0 <= k < blocks.len() && 0 <= i < blocks[k]@.len() && (#[trigger] blocks[k]@[i])@ == item {
        let (k, i) = choose|k: int, i: int|
            0 <= k < blocks.len() && 0 <= i < blocks[k]@.len() && (#[trigger] blocks[k]@[i])@
                == item;
        assert(views(blocks[k]@)[i] == item);
        assert(views(blocks[k]@).contains(item));
    }
}

fn shows(blocks: &Vec<Vec<String>>, item: &str) -> (r: bool)
    ensures
        r == is_shown(blocks@, item@),
{
    let mut b: usize = 0;
    while b < blocks.len()
        invariant
            b <= blocks@.len(),
            forall|k: int| 0 <= k < b ==> !views(#[trigger] blocks@[k]@).contains(item@),
        decreases blocks@.len() - b,
    {
        if contains_text(&blocks[b], item) {
            return true;
        }
        b = b + 1;
    }
    false
}

/// The items of the filter that no block of the table shows. `blocks` holds
/// the items that each block shows.
pub fn unmatched_items(filter: &[String], blocks: &Vec<Vec<String>>) -> (out: Vec<String>)
    ensures
        views(out@) == not_shown(views(filter@), blocks@),
{
    let ghost v = views(filter@);
    let ghost pred = |i: Seq<char>| !is_shown(blocks@, i);
    let mut out: Vec<String> = Vec::new();
    let mut i: usize = 0;
    proof {
        reveal(Seq::filter);
        assert(v.take(0) =~= Seq::empty());
        assert(views(out@) =~= v.take(0).filter(pred));
    }
    while i < filter.len()
        invariant
            i <= filter@.len(),
            v == views(filter@),
            pred == (|i: Seq<char>| !is_shown(blocks@, i)),
            views(out@) == v.take(i as int).filter(pred),
        decreases filter@.len() - i,
    {
        let ghost done = v.take(i as int);
        let ghost before = views(out@);
        proof {
            assert(v.take(i as int + 1) =~= done.push(filter@[i as int]@));
            done.lemma_filter_push(filter@[i as int]@, pred);
        }
        if !shows(blocks, filter[i].as_str()) {
            out.push(filter[i].clone());
            proof {
                assert(views(out@) =~= before.push(filter@[i as int]@));
            }
        }
        i = i + 1;
    }
    proof {
        assert(v.take(v.len() as int) =~= v);
    }
    out
}

/// The warning about items that no block shows, if there are any.
pub fn warn_unmatched_items(keep: Option<&Vec<String>>, blocks: &Vec<Vec<String>>) -> (r: Option<
    String,
>)
    ensures
        match keep {
            None => r is None,
            Some(filter) => {
                let missing = not_shown(views(filter@), blocks@);
                if missing.len() == 0 {
                    r is None
                } else {
                    r matches Some(t) && t@ == "[warn] --items 中有 "@ + decimal(missing.len())
                        + " 个科目未匹配（精确匹配；不带 --items 运行可先看全部列名）: "@ + join(
                        missing,
                        ", "@,
                    )
                }
            },
        },
{
    match keep {
        None => None,
        Some(filter) => {
            let missing = unmatched_items(filter.as_slice(), blocks);
            if missing.len() == 0 {
                None
            } else {
                Some(
                    concat4(
                        "[warn] --items 中有 ",
                        decimal_string(missing.len() as u64).as_str(),
                        " 个科目未匹配（精确匹配；不带 --items 运行可先看全部列名）: ",
                        join_strings(&missing, ", ").as_str(),
                    ),
                )
            }
        },
    }
}

/// One single quarter that cannot be computed.
pub open spec fn gap_text(m: MissingView) -> Seq<char> {
    m.item + " "@ + signed_decimal(m.year as int) + "Q"@ + decimal(m.quarter as nat)
}

/// The first six gaps.
pub open spec fn gap_texts(missing: Seq<Missing>) -> Seq<Seq<char>> {
    let shown = if missing.len() > 6 {
        missing.take(6)
    } else {
        missing
    };
    shown.map_values(|m: Missing| gap_text(m@))
}

/// The warning about single quarters that cannot be computed.
pub open spec fn gap_warning(missing: Seq<Missing>) -> Seq<char> {
    "[warn] "@ + decimal(missing.len())
        + " 个单季因缺中间累计期无法换算（如年报未披露 → Q4）: "@ + join(gap_texts(missing), ", "@) + (
    if missing.len() > 6 {
        ", +"@ + decimal((missing.len() - 6) as nat) + " more"@
    } else {
        Seq::empty()
    })
}

/// Each of the first six gaps stands in the warning with its item, its year and
/// its quarter.
pub proof fn law_the_first_gaps_are_told(missing: Seq<Missing>, i: int)
    requires
        0 <= i < missing.len(),
        i < 6,
    ensures
        occurs(
            gap_warning(missing),
            missing[i].item@ + " "@ + signed_decimal(missing[i].year as int) + "Q"@ + decimal(
                missing[i].quarter as nat,
            ),
        ),
{
    let texts = gap_texts(missing);
    let gap = gap_text(missing[i]@);
    let all = join(texts, ", "@);
    assert(texts[i] == gap);
    law_every_part_is_in_the_joined_text(texts, ", "@, i);
    lemma_gaps_in_warning(missing);
    lemma_occurs_within(gap_warning(missing), all, gap);
}

proof fn lemma_gaps_in_warning(missing: Seq<Missing>)
    ensures
        occurs(gap_warning(missing), join(gap_texts(missing), ", "@)),
{
    let head = "[warn] "@ + decimal(missing.len())
        + " 个单季因缺中间累计期无法换算（如年报未披露 → Q4）: "@;
    let tail = if missing.len() > 6 {
        ", +"@ + decimal((missing.len() - 6) as nat) + " more"@
    } else {
        Seq::empty()
    };
    lemma_occurs_between(head, join(gap_texts(missing), ", "@), tail);
}

/// The warning about single quarters that cannot be computed, if there are any.
pub fn warn_missing_single_quarters(missing: &[Missing]) -> (r: Option<String>)
    ensures
        match r {
            None => missing@.len() == 0,
            Some(t) => missing@.len() > 0 && t@ == gap_warning(missing@),
        },
{
    if missing.len() == 0 {
        return None;
    }
    let shown: usize = if missing.len() > 6 {
        6
    } else {
        missing.len()
    };
    let mut preview: Vec<String> = Vec::new();
    let mut i: usize = 0;
    while i < shown
        invariant
            i <= shown <= missing@.len(),
            preview@.len() == i,
            forall|k: int| 0 <= k < i ==> (#[trigger] preview@[k])@ == gap_text(missing@[k]@),
        decreases shown - i,
    {
        let mut text = concat3(
            missing[i].item.as_str(),
            " ",
            signed_decimal_string(missing[i].year as i64).as_str(),
        );
        text.append("Q");
        text.append(decimal_string(missing[i].quarter as u64).as_str());
        preview.push(text);
        i = i + 1;
    }
    proof {
        assert(views(preview@) =~= gap_texts(missing@));
    }
    let mut text = concat4(
        "[warn] ",
        decimal_string(missing.len() as u64).as_str(),
        " 个单季因缺中间累计期无法换算（如年报未披露 → Q4）: ",
        join_strings(&preview, ", ").as_str(),
    );
    if missing.len() > 6 {
        text.append(
            concat3(", +", decimal_string((missing.len() - 6) as u64).as_str(), " more").as_str(),
        );
    }
    proof {
        assert(text@ =~= gap_warning(missing@));
    }
    Some(text)
}

// ---------------------------------------------------------------------------
// The table of periods
// ---------------------------------------------------------------------------

/// The header of the table of periods; with a hash sign for tab-separated
/// output.
pub fn periods_header(tsv: bool) -> (out: &'static str)
    ensures
        out@ == (if tsv {
            "#period\tperiod_type\tsource"@
        } else {
            "period\tperiod_type\tsource"@
        }),
{
    if tsv {
        "#period\tperiod_type\tsource"
    } else {
        "period\tperiod_type\tsource"
    }
}

/// A line of the table of periods.
pub fn period_line(e: &PeriodEntry) -> (out: String)
    requires
        e.end.wf(),
    ensures
        out@ == e.end.iso() + "\t"@ + e.period_type.label() + "\t"@ + e.source@,
{
    concat5(e.end.to_iso().as_str(), "\t", e.period_type.as_str(), "\t", e.source.as_str())
}

/// The options mean what they say.
pub proof fn law_options_mean_what_they_say(scope: ScopeArg, unit: UnitArg)
    ensures
        scope.meaning() == Scope::Parent <==> scope == ScopeArg::Parent,
        scope.meaning() == Scope::Consolidated <==> scope == ScopeArg::Consolidated,
        unit.meaning() == Unit::Raw <==> unit == UnitArg::Raw,
        unit.meaning() == Unit::Wan <==> unit == UnitArg::Wan,
        unit.meaning() == Unit::Yi <==> unit == UnitArg::Yi,
{
}

} // verus!
