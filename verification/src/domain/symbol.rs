//! Symbols: `600519`, `sh600519`, `600519.SH`, `00700`, `sh000001` and the like.

use vstd::prelude::*;
use vstd::string::*;

use super::market::{begins, InstrumentKind, Market};
use crate::error::{concat2, concat3, concat4, concat5, outcome, ErrorView, SiftError};
use crate::text::{
    all_digits, chars_of, debug_quoted, decimal, decimal_string, find_char, index_of_char, is_digit,
    lemma_index_of_char_is, lemma_trim_id, lower, lower_chars, only_digits, quoted, same,
    slice_chars, starts_with, string_from, to_lower, trim, trim_chars,
};

verus! {

/// A security: its code, its market, and whether it is an index.
#[derive(Debug, PartialEq, Eq, Hash)]
pub struct Symbol {
    /// Digits, leading zeros kept: six for CN A-share, five for Hong Kong.
    pub code: String,
    pub market: Market,
    pub kind: InstrumentKind,
}

/// A symbol with its code as text.
pub struct SymbolView {
    pub code: Seq<char>,
    pub market: Market,
    pub kind: InstrumentKind,
}

impl View for Symbol {
    type V = SymbolView;

    open spec fn view(&self) -> SymbolView {
        SymbolView { code: self.code@, market: self.market, kind: self.kind }
    }
}

impl Clone for Symbol {
    fn clone(&self) -> (out: Self)
        ensures
            out@ == self@,
    {
        Symbol { code: self.code.clone(), market: self.market, kind: self.kind }
    }
}

/// A code segment that only Shanghai uses.
pub open spec fn sh_only(code: Seq<char>) -> bool {
    begins(code, "600") || begins(code, "601") || begins(code, "603") || begins(code, "605")
        || begins(code, "688") || begins(code, "689") || begins(code, "900")
}

/// A code segment that only Shenzhen uses.
pub open spec fn sz_only(code: Seq<char>) -> bool {
    begins(code, "001") || begins(code, "002") || begins(code, "003") || begins(code, "300")
        || begins(code, "301") || begins(code, "200") || begins(code, "399")
}

/// What `sh` before `code` stands for.
pub open spec fn shanghai_kind(code: Seq<char>) -> Result<InstrumentKind, ErrorView> {
    if begins(code, "000") {
        Ok(InstrumentKind::Index)
    } else if sz_only(code) {
        Err(ErrorView::Parse("sh"@ + code + ": code segment belongs to SZ, not SH"@))
    } else {
        Ok(InstrumentKind::Equity)
    }
}

/// What `sz` before `code` stands for.
pub open spec fn shenzhen_kind(code: Seq<char>) -> Result<InstrumentKind, ErrorView> {
    if begins(code, "399") {
        Ok(InstrumentKind::Index)
    } else if sh_only(code) {
        Err(ErrorView::Parse("sz"@ + code + ": code segment belongs to SH, not SZ"@))
    } else {
        Ok(InstrumentKind::Equity)
    }
}

/// Market and kind of a code with the market that the user named, if any.
pub open spec fn placed(code: Seq<char>, market: Option<Seq<char>>) -> Result<
    (Market, InstrumentKind),
    ErrorView,
> {
    match market {
        Some(m) => if m == "sh"@ {
            match shanghai_kind(code) {
                Ok(k) => Ok((Market::CnA, k)),
                Err(e) => Err(e),
            }
        } else if m == "sz"@ {
            match shenzhen_kind(code) {
                Ok(k) => Ok((Market::CnA, k)),
                Err(e) => Err(e),
            }
        } else if m == "bj"@ {
            Ok((Market::CnA, InstrumentKind::Equity))
        } else if m == "hk"@ {
            Ok((Market::Hk, InstrumentKind::Equity))
        } else {
            Err(ErrorView::Parse("unknown market suffix "@ + quoted(m)))
        },
        None => if code.len() == 6 {
            Ok((Market::CnA, InstrumentKind::Equity))
        } else if code.len() == 5 {
            Ok((Market::Hk, InstrumentKind::Equity))
        } else {
            Err(
                ErrorView::Parse(
                    "expected 5 or 6 digits, got "@ + decimal(code.len()) + "-digit "@ + quoted(
                        code,
                    ),
                ),
            )
        },
    }
}

/// How many digits a code of `market` has.
pub open spec fn code_length(market: Market) -> nat {
    match market {
        Market::Hk => 5,
        _ => 6,
    }
}

/// The symbol of a code and a market hint.
pub open spec fn assembled(code: Seq<char>, market: Option<Seq<char>>) -> Result<
    SymbolView,
    ErrorView,
> {
    if code.len() == 0 || !all_digits(code) {
        Err(ErrorView::Parse("expected digits, got "@ + quoted(code)))
    } else {
        match placed(code, market) {
            Err(e) => Err(e),
            Ok((m, k)) => if code.len() == code_length(m) {
                Ok(SymbolView { code, market: m, kind: k })
            } else {
                Err(
                    ErrorView::Parse(
                        "expected "@ + decimal(code_length(m)) + "-digit code for "@
                            + m.variant_name() + ", got "@ + quoted(code),
                    ),
                )
            },
        }
    }
}

/// The symbol that a trimmed, lower-case text stands for.
pub open spec fn resolved(s: Seq<char>) -> Result<SymbolView, ErrorView> {
    let dot = index_of_char(s, '.');
    if s.len() == 0 {
        Err(ErrorView::Parse("empty symbol"@))
    } else if dot < s.len() {
        assembled(s.take(dot), Some(s.skip(dot + 1)))
    } else if begins(s, "sh") || begins(s, "sz") || begins(s, "bj") || begins(s, "hk") {
        assembled(s.skip(2), Some(s.take(2)))
    } else {
        assembled(s, None)
    }
}

impl SymbolView {
    /// A symbol as parsing gives it: digits of the market's length, and an
    /// index only in the two index segments.
    pub open spec fn wf(self) -> bool {
        &&& all_digits(self.code)
        &&& self.code.len() == code_length(self.market)
        &&& self.market != Market::Us
        &&& self.kind == InstrumentKind::Index ==> self.market == Market::CnA && (begins(
            self.code,
            "000",
        ) || begins(self.code, "399"))
    }

    /// The form in output rows.
    pub open spec fn display(self) -> Seq<char> {
        if self.kind == InstrumentKind::Index {
            if begins(self.code, "000") {
                "sh"@ + self.code
            } else {
                "sz"@ + self.code
            }
        } else {
            self.code + "."@ + self.market.upper_label()
        }
    }
}

fn is_sh_only_segment(code: &str) -> (r: bool)
    ensures
        r == sh_only(code@),
{
    starts_with(code, "600") || starts_with(code, "601") || starts_with(code, "603")
        || starts_with(code, "605") || starts_with(code, "688") || starts_with(code, "689")
        || starts_with(code, "900")
}

fn is_sz_only_segment(code: &str) -> (r: bool)
    ensures
        r == sz_only(code@),
{
    starts_with(code, "001") || starts_with(code, "002") || starts_with(code, "003")
        || starts_with(code, "300") || starts_with(code, "301") || starts_with(code, "200")
        || starts_with(code, "399")
}

/// Market and kind of a code on one of the two mainland exchanges.
fn sh_or_sz(code: &str, shanghai: bool) -> (r: Result<InstrumentKind, SiftError>)
    ensures
        match r {
            Ok(k) => (if shanghai {
                shanghai_kind(code@)
            } else {
                shenzhen_kind(code@)
            }) == Ok::<InstrumentKind, ErrorView>(k),
            Err(e) => (if shanghai {
                shanghai_kind(code@)
            } else {
                shenzhen_kind(code@)
            }) == Err::<InstrumentKind, ErrorView>(e@),
        },
{
    if shanghai {
        if starts_with(code, "000") {
            Ok(InstrumentKind::Index)
        } else if is_sz_only_segment(code) {
            Err(SiftError::Parse(concat3("sh", code, ": code segment belongs to SZ, not SH")))
        } else {
            Ok(InstrumentKind::Equity)
        }
    } else if starts_with(code, "399") {
        Ok(InstrumentKind::Index)
    } else if is_sh_only_segment(code) {
        Err(SiftError::Parse(concat3("sz", code, ": code segment belongs to SH, not SZ")))
    } else {
        Ok(InstrumentKind::Equity)
    }
}

/// Market and kind of a code with the market that the user named.
fn place(code: &str, len: usize, market: Option<&str>) -> (r: Result<
    (Market, InstrumentKind),
    SiftError,
>)
    requires
        len == code@.len(),
    ensures
        match r {
            Ok(p) => placed(
                code@,
                match market {
                    Some(m) => Some(m@),
                    None => None,
                },
            ) == Ok::<(Market, InstrumentKind), ErrorView>(p) && p.0 != Market::Us,
            Err(e) => placed(
                code@,
                match market {
                    Some(m) => Some(m@),
                    None => None,
                },
            ) == Err::<(Market, InstrumentKind), ErrorView>(e@),
        },
{
    match market {
        Some(m) => {
            if same(m, "sh") || same(m, "sz") {
                proof {
                    reveal_strlit("sh");
                    reveal_strlit("sz");
                    assert("sh"@[1] != "sz"@[1]);
                }
                match sh_or_sz(code, same(m, "sh")) {
                    Ok(k) => Ok((Market::CnA, k)),
                    Err(e) => Err(e),
                }
            } else if same(m, "bj") {
                Ok((Market::CnA, InstrumentKind::Equity))
            } else if same(m, "hk") {
                Ok((Market::Hk, InstrumentKind::Equity))
            } else {
                let q = debug_quoted(m);
                Err(SiftError::Parse(concat2("unknown market suffix ", q.as_str())))
            }
        },
        None => {
            if len == 6 {
                Ok((Market::CnA, InstrumentKind::Equity))
            } else if len == 5 {
                Ok((Market::Hk, InstrumentKind::Equity))
            } else {
                let n = decimal_string(len as u64);
                let q = debug_quoted(code);
                Err(
                    SiftError::Parse(
                        concat4("expected 5 or 6 digits, got ", n.as_str(), "-digit ", q.as_str()),
                    ),
                )
            }
        },
    }
}

/// The symbol of a code and a market hint.
fn assemble(code: &Vec<char>, market: Option<&str>) -> (r: Result<Symbol, SiftError>)
    ensures
        outcome(r) == assembled(
            code@,
            match market {
                Some(m) => Some(m@),
                None => None,
            },
        ),
{
    let text = string_from(code);
    if code.len() == 0 || !only_digits(code) {
        let q = debug_quoted(text.as_str());
        return Err(SiftError::Parse(concat2("expected digits, got ", q.as_str())));
    }
    match place(text.as_str(), code.len(), market) {
        Err(e) => Err(e),
        Ok((m, k)) => {
            let expected: usize = match m {
                Market::Hk => 5,
                _ => 6,
            };
            if code.len() != expected {
                let n = decimal_string(expected as u64);
                let q = debug_quoted(text.as_str());
                let mut message = concat5("expected ", n.as_str(), "-digit code for ", m.name(), ", got ");
                message.append(q.as_str());
                return Err(SiftError::Parse(message));
            }
            Ok(Symbol { code: text, market: m, kind: k })
        },
    }
}

impl Symbol {
    /// Parses any of the accepted forms: bare digits, an exchange prefix or a
    /// market suffix, in any case and with white space around.
    pub fn parse(input: &str) -> (r: Result<Symbol, SiftError>)
        ensures
            outcome(r) == resolved(to_lower(trim(input@))),
    {
        let s = lower_chars(&trim_chars(&chars_of(input)));
        if s.len() == 0 {
            return Err(SiftError::Parse("empty symbol".to_owned()));
        }
        let dot: usize = find_char(&s, '.', 0);
        proof {
            assert(s@.skip(0) =~= s@);
        }
        if dot < s.len() {
            let code = slice_chars(&s, 0, dot);
            let tail = slice_chars(&s, dot + 1, s.len());
            proof {
                assert(code@ =~= s@.take(dot as int));
                assert(tail@ =~= s@.skip(dot + 1));
            }
            let market = string_from(&tail);
            return assemble(&code, Some(market.as_str()));
        }
        let text = string_from(&s);
        if starts_with(text.as_str(), "sh") || starts_with(text.as_str(), "sz") || starts_with(
            text.as_str(),
            "bj",
        ) || starts_with(text.as_str(), "hk") {
            proof {
                reveal_strlit("sh");
                reveal_strlit("sz");
                reveal_strlit("bj");
                reveal_strlit("hk");
            }
            let head = slice_chars(&s, 0, 2);
            let code = slice_chars(&s, 2, s.len());
            proof {
                assert(head@ =~= s@.take(2));
                assert(code@ =~= s@.skip(2));
            }
            let market = string_from(&head);
            return assemble(&code, Some(market.as_str()));
        }
        assemble(&s, None)
    }

    /// The form in output rows: `600519.CN-A`, or `sh000001` for an index.
    pub fn display_symbol(&self) -> (out: String)
        ensures
            out@ == self@.display(),
    {
        if self.kind == InstrumentKind::Index {
            if starts_with(self.code.as_str(), "000") {
                concat2("sh", self.code.as_str())
            } else {
                concat2("sz", self.code.as_str())
            }
        } else {
            concat3(self.code.as_str(), ".", self.market.as_upper())
        }
    }
}

/// Whatever the text, a symbol that parsing gives is well formed.
pub proof fn law_parsed_symbol_is_well_formed(s: Seq<char>)
    ensures
        resolved(s) matches Ok(sym) ==> sym.wf(),
{
}

/// A text of digits alone is never an index, whatever its segment.
pub proof fn law_bare_digits_are_equities(s: Seq<char>)
    requires
        all_digits(s),
    ensures
        resolved(s) matches Ok(sym) ==> sym.kind == InstrumentKind::Equity && sym.code == s,
{
    lemma_index_of_char_is(s, '.', s.len() as int);
    reveal_strlit("sh");
    reveal_strlit("sz");
    reveal_strlit("bj");
    reveal_strlit("hk");
    if s.len() > 0 {
        assert(is_digit(s[0]));
        if s.len() >= 2 {
            assert(s.subrange(0, 2)[0] == s[0]);
        }
    }
}

/// An index reads back from the form in which it is shown.
pub proof fn law_index_display_reads_back(sym: SymbolView)
    requires
        sym.wf(),
        sym.kind == InstrumentKind::Index,
    ensures
        resolved(to_lower(trim(sym.display()))) == Ok::<SymbolView, ErrorView>(sym),
{
    let s = sym.display();
    reveal_strlit("sh");
    reveal_strlit("sz");
    reveal_strlit("bj");
    reveal_strlit("hk");
    reveal_strlit("000");
    reveal_strlit("399");
    assert(s.len() == 8);
    assert forall|i: int| 2 <= i < 8 implies is_digit(#[trigger] s[i]) by {
        assert(s[i] == sym.code[i - 2]);
    }
    assert(is_digit(s[7]));
    lemma_trim_id(s);
    assert(to_lower(s) =~= s) by {
        assert forall|i: int| 0 <= i < 8 implies lower(#[trigger] s[i]) == s[i] by {
            if i >= 2 {
                assert(is_digit(s[i]));
            }
        }
    }
    assert forall|i: int| 0 <= i < 8 implies s[i] != '.' by {
        if i >= 2 {
            assert(is_digit(s[i]));
        }
    }
    lemma_index_of_char_is(s, '.', 8);
    assert(s.skip(2) =~= sym.code);
    if begins(sym.code, "000") {
        assert(s.take(2) =~= "sh"@);
        assert("sh"@.is_prefix_of(s));
    } else {
        assert(s.take(2) =~= "sz"@);
        assert("sz"@.is_prefix_of(s));
        assert("sz"@[1] != "sh"@[1]);
    }
}

/// A Hong Kong equity reads back from the form in which it is shown.
pub proof fn law_hk_display_reads_back(sym: SymbolView)
    requires
        sym.wf(),
        sym.market == Market::Hk,
    ensures
        resolved(to_lower(trim(sym.display()))) == Ok::<SymbolView, ErrorView>(sym),
{
    let s = sym.display();
    reveal_strlit("sh");
    reveal_strlit("sz");
    reveal_strlit("bj");
    reveal_strlit("hk");
    reveal_strlit("HK");
    reveal_strlit(".");
    assert(s.len() == 8);
    assert forall|i: int| 0 <= i < 5 implies is_digit(#[trigger] s[i]) by {
        assert(s[i] == sym.code[i]);
    }
    assert(is_digit(s[0]));
    lemma_trim_id(s);
    let t = to_lower(s);
    assert forall|i: int| 0 <= i < 5 implies #[trigger] t[i] == s[i] by {
        assert(is_digit(s[i]));
    }
    assert forall|i: int| 0 <= i < 5 implies t[i] != '.' by {
        assert(is_digit(s[i]));
    }
    assert(t[5] == '.');
    lemma_index_of_char_is(t, '.', 5);
    assert(t.take(5) =~= sym.code);
    assert(t.skip(6) =~= "hk"@) by {
        assert(t[6] == lower('H'));
        assert(t[7] == lower('K'));
        assert(lower('H') == 'h');
        assert(lower('K') == 'k');
    }
    assert("hk"@[0] != "sh"@[0] && "hk"@[0] != "sz"@[0] && "hk"@[0] != "bj"@[0]);
}

/// A text of digits and a market is taken apart where it was put together,
/// whichever comes first.
proof fn lemma_forms(code: Seq<char>, m: Seq<char>)
    requires
        all_digits(code),
        m == "sh"@ || m == "sz"@ || m == "bj"@ || m == "hk"@,
    ensures
        resolved(m + code) == assembled(code, Some(m)),
        resolved(code + "."@ + m) == assembled(code, Some(m)),
{
    reveal_strlit("sh");
    reveal_strlit("sz");
    reveal_strlit("bj");
    reveal_strlit("hk");
    reveal_strlit(".");
    let a = m + code;
    assert(m.len() == 2);
    assert(m[0] != '.' && m[1] != '.');
    assert forall|i: int| 0 <= i < a.len() implies a[i] != '.' by {
        if i >= 2 {
            assert(a[i] == code[i - 2]);
            assert(is_digit(code[i - 2]));
        }
    }
    lemma_index_of_char_is(a, '.', a.len() as int);
    assert(a.take(2) =~= m);
    assert(a.skip(2) =~= code);
    assert(m.is_prefix_of(a)) by {
        assert(a.subrange(0, 2) =~= m);
    }
    assert(begins(a, "sh") || begins(a, "sz") || begins(a, "bj") || begins(a, "hk"));
    let b = code + "."@ + m;
    assert forall|i: int| 0 <= i < code.len() implies b[i] != '.' by {
        assert(b[i] == code[i]);
        assert(is_digit(code[i]));
    }
    assert(b[code.len() as int] == '.');
    lemma_index_of_char_is(b, '.', code.len() as int);
    assert(b.take(code.len() as int) =~= code);
    assert(b.skip((code.len() + 1) as int) =~= m);
}

/// A market may stand before the digits or, with a dot, behind them: both forms
/// stand for the same symbol, or are both refused. The code of the symbol is the
/// digits, and its market the one that was named: Hong Kong for `hk`, the
/// mainland for the others.
pub proof fn law_both_forms_stand_for_one_symbol(code: Seq<char>, m: Seq<char>)
    requires
        all_digits(code),
        m == "sh"@ || m == "sz"@ || m == "bj"@ || m == "hk"@,
    ensures
        resolved(m + code) == resolved(code + "."@ + m),
        resolved(m + code) matches Ok(sym) ==> sym.code == code && (sym.market == Market::Hk <==> m
            == "hk"@) && (sym.market == Market::CnA <==> m != "hk"@) && code.len() == (if m
            == "hk"@ {
            5nat
        } else {
            6
        }),
{
    lemma_forms(code, m);
    lemma_market_words();
}

proof fn lemma_market_words()
    ensures
        "sh"@ != "sz"@,
        "sh"@ != "bj"@,
        "sh"@ != "hk"@,
        "sz"@ != "bj"@,
        "sz"@ != "hk"@,
        "bj"@ != "hk"@,
{
    reveal_strlit("sh");
    reveal_strlit("sz");
    reveal_strlit("bj");
    reveal_strlit("hk");
    assert("sh"@[1] == 'h' && "sz"@[1] == 'z' && "bj"@[1] == 'j' && "hk"@[1] == 'k');
}

/// Six digits alone are a mainland symbol, five a Hong Kong one, and any other
/// number of digits is refused.
pub proof fn law_bare_digits_name_their_market(code: Seq<char>)
    requires
        all_digits(code),
        code.len() > 0,
    ensures
        resolved(code) is Ok <==> code.len() == 5 || code.len() == 6,
        code.len() == 6 ==> (resolved(code) matches Ok(sym) && sym.market == Market::CnA),
        code.len() == 5 ==> (resolved(code) matches Ok(sym) && sym.market == Market::Hk),
{
    reveal_strlit("sh");
    reveal_strlit("sz");
    reveal_strlit("bj");
    reveal_strlit("hk");
    assert forall|i: int| 0 <= i < code.len() implies code[i] != '.' by {
        assert(is_digit(code[i]));
    }
    lemma_index_of_char_is(code, '.', code.len() as int);
    assert(is_digit(code[0]));
    assert(!begins(code, "sh") && !begins(code, "sz") && !begins(code, "bj") && !begins(
        code,
        "hk",
    )) by {
        if code.len() >= 2 {
            assert(code.subrange(0, 2)[0] == code[0]);
        }
    }
}

/// Which exchange is named tells an index from a share: of six digits `sh` makes
/// an index exactly if they begin with 000, and `sz` exactly if they begin with
/// 399. No six digits are refused by both exchanges, what one takes for an index
/// is no index on the other, and `bj` takes all of them for shares.
pub proof fn law_the_exchange_tells_an_index(code: Seq<char>)
    requires
        all_digits(code),
        code.len() == 6,
    ensures
        resolved("sh"@ + code) matches Ok(sym) && sym.kind == InstrumentKind::Index <==> code[0]
            == '0' && code[1] == '0' && code[2] == '0',
        resolved("sz"@ + code) matches Ok(sym) && sym.kind == InstrumentKind::Index <==> code[0]
            == '3' && code[1] == '9' && code[2] == '9',
        resolved("sh"@ + code) is Ok || resolved("sz"@ + code) is Ok,
        resolved("bj"@ + code) matches Ok(sym) && sym.kind == InstrumentKind::Equity,
{
    lemma_forms(code, "sh"@);
    lemma_forms(code, "sz"@);
    lemma_forms(code, "bj"@);
    lemma_market_words();
    lemma_shanghai(code);
    lemma_shenzhen(code);
}

proof fn lemma_shanghai(code: Seq<char>)
    requires
        code.len() == 6,
    ensures
        shanghai_kind(code) == Ok::<InstrumentKind, ErrorView>(InstrumentKind::Index) <==> code[0]
            == '0' && code[1] == '0' && code[2] == '0',
        shanghai_kind(code) is Err ==> code[0] == '0' || code[0] == '2' || code[0] == '3',
{
    reveal_strlit("000");
    lemma_segment(code, "000", '0', '0', '0');
    reveal_strlit("001");
    lemma_segment(code, "001", '0', '0', '1');
    reveal_strlit("002");
    lemma_segment(code, "002", '0', '0', '2');
    reveal_strlit("003");
    lemma_segment(code, "003", '0', '0', '3');
    reveal_strlit("300");
    lemma_segment(code, "300", '3', '0', '0');
    reveal_strlit("301");
    lemma_segment(code, "301", '3', '0', '1');
    reveal_strlit("200");
    lemma_segment(code, "200", '2', '0', '0');
    reveal_strlit("399");
    lemma_segment(code, "399", '3', '9', '9');
}

proof fn lemma_shenzhen(code: Seq<char>)
    requires
        code.len() == 6,
    ensures
        shenzhen_kind(code) == Ok::<InstrumentKind, ErrorView>(InstrumentKind::Index) <==> code[0]
            == '3' && code[1] == '9' && code[2] == '9',
        shenzhen_kind(code) is Err ==> code[0] == '6' || code[0] == '9',
{
    reveal_strlit("399");
    lemma_segment(code, "399", '3', '9', '9');
    reveal_strlit("600");
    lemma_segment(code, "600", '6', '0', '0');
    reveal_strlit("601");
    lemma_segment(code, "601", '6', '0', '1');
    reveal_strlit("603");
    lemma_segment(code, "603", '6', '0', '3');
    reveal_strlit("605");
    lemma_segment(code, "605", '6', '0', '5');
    reveal_strlit("688");
    lemma_segment(code, "688", '6', '8', '8');
    reveal_strlit("689");
    lemma_segment(code, "689", '6', '8', '9');
    reveal_strlit("900");
    lemma_segment(code, "900", '9', '0', '0');
}

/// How a code begins, character by character.
proof fn lemma_segment(code: Seq<char>, prefix: &str, a: char, b: char, c: char)
    requires
        code.len() >= 3,
        prefix@.len() == 3,
        prefix@[0] == a,
        prefix@[1] == b,
        prefix@[2] == c,
    ensures
        begins(code, prefix) <==> code[0] == a && code[1] == b && code[2] == c,
{
    let part = code.subrange(0, 3);
    if begins(code, prefix) {
        assert(prefix@ == part);
        assert(part[0] == a && part[1] == b && part[2] == c);
    } else if code[0] == a && code[1] == b && code[2] == c {
        assert(part =~= prefix@);
    }
}

/// Symbols that are shown alike are the same.
pub proof fn law_different_symbols_are_shown_differently(a: SymbolView, b: SymbolView)
    requires
        a.wf(),
        b.wf(),
        a.display() == b.display(),
    ensures
        a == b,
{
    reveal_strlit("sh");
    reveal_strlit("sz");
    reveal_strlit("000");
    reveal_strlit("399");
    reveal_strlit(".");
    reveal_strlit("CN-A");
    reveal_strlit("HK");
    reveal_strlit("US");
    let x = a.display();
    let y = b.display();
    assert(is_digit(a.code[0]) && is_digit(b.code[0]));
    if a.kind == InstrumentKind::Index {
        assert(x[0] == 's');
        assert(b.kind == InstrumentKind::Index) by {
            if b.kind != InstrumentKind::Index {
                assert(y[0] == b.code[0]);
            }
        }
        assert(x.skip(2) =~= a.code);
        assert(y.skip(2) =~= b.code);
    } else {
        assert(x[0] == a.code[0]);
        assert(b.kind == InstrumentKind::Equity) by {
            if b.kind == InstrumentKind::Index {
                assert(y[0] == 's');
            }
        }
        assert(a.market == b.market) by {
            if a.market != b.market {
                assert(x.len() != y.len());
            }
        }
        assert(x.take(a.code.len() as int) =~= a.code);
        assert(y.take(b.code.len() as int) =~= b.code);
    }
}

} // verus!
