//! The whole market: conditions, boards, order and columns of the printout.

use vstd::prelude::*;
use vstd::string::*;

use crate::date::Date;
use crate::domain::market::{Board, begins, board_of, law_the_first_digits_tell_the_board};
use crate::domain::period::{latest_filed, most_recent_filed, period_of};
use crate::domain::{Amount, Period};
use crate::error::{ErrorView, SiftError, concat2, concat3, outcome};
use crate::order::{
    Ranked, law_ties_stay_as_they_came, lemma_stable_sorted, lemma_stable_sorted_contains,
    stable_sort, stable_sorted,
};
use crate::sources::eastmoney_screen::MarketRow;
use crate::text::{
    all_digits, chars_of, copy_strings, debug_quoted, distinct, find_chars, first_at,
    law_distinct_keeps_each_text_once, lemma_first_at, occurs_at, opt_str, opt_text, push_distinct,
    quoted, same, slice_chars, starts_with, string_from, trim, trim_chars, views,
};

verus! {

/// The options of the command.
#[derive(Debug)]
pub struct MarketArgs {
    pub period: Option<String>,
    pub wheres: Vec<String>,
    pub sort: Option<String>,
    pub desc: bool,
    pub limit: usize,
    pub market: Option<String>,
    pub show: Vec<String>,
    pub no_cache: bool,
    pub no_ingest: bool,
}

/// The period to show: the one that is named, or the latest that is filed.
pub fn market_period(period: Option<&str>, today: Date) -> (r: Result<Period, SiftError>)
    requires
        today.wf(),
    ensures
        outcome(r) == (match period {
            Some(s) => period_of(s@),
            None => Ok::<Period, ErrorView>(latest_filed(today)),
        }),
{
    match period {
        Some(s) => Period::parse(s),
        None => Ok(most_recent_filed(today)),
    }
}

// ---------------------------------------------------------------------------
// Conditions
// ---------------------------------------------------------------------------

/// How a figure is compared.
#[derive(Debug, Clone, Copy, PartialEq, Eq, Structural)]
pub enum Op {
    Gt,
    Ge,
    Lt,
    Le,
    Eq,
    Ne,
}

/// One condition.
#[derive(Debug)]
pub struct Cond {
    pub metric: String,
    pub op: Op,
    pub val: Amount,
}

/// The operators, longer ones first.
pub open spec fn operators() -> Seq<(Seq<char>, Op)> {
    seq![
        (">="@, Op::Ge),
        ("<="@, Op::Le),
        ("!="@, Op::Ne),
        (">"@, Op::Gt),
        ("<"@, Op::Lt),
        ("="@, Op::Eq),
    ]
}

/// The parts of a condition: metric, operator and value text.
pub struct CondParts {
    pub metric: Seq<char>,
    pub op: Op,
    pub value: Seq<char>,
}

/// The parts of a condition at the first of the operators from `from` on that
/// stands in it; nothing if there is none, or no metric before it.
pub open spec fn parts_from(s: Seq<char>, from: int) -> Option<CondParts>
    decreases operators().len() - from,
{
    if from < 0 || from >= operators().len() {
        None
    } else {
        let (tok, op) = operators()[from];
        match first_at(s, tok) {
            None => parts_from(s, from + 1),
            Some(at) => {
                let metric = trim(s.take(at));
                if metric.len() == 0 {
                    None
                } else {
                    Some(CondParts { metric, op, value: trim(s.skip(at + tok.len())) })
                }
            },
        }
    }
}

/// The parts of a condition.
pub open spec fn cond_parts(s: Seq<char>) -> Option<CondParts> {
    parts_from(s, 0)
}

/// A character of which operators are made.
pub open spec fn is_operator_char(c: char) -> bool {
    c == '<' || c == '>' || c == '=' || c == '!'
}

/// In a text with one operator and no other character of which operators are
/// made, an operator that is tried before that one stands nowhere, and that one
/// stands where it was put.
proof fn lemma_one_operator(a: Seq<char>, b: Seq<char>, at: int, other: int)
    requires
        forall|i: int| 0 <= i < a.len() ==> !is_operator_char(#[trigger] a[i]),
        forall|i: int| 0 <= i < b.len() ==> !is_operator_char(#[trigger] b[i]),
        0 <= other <= at < operators().len(),
    ensures
        first_at(a + operators()[at].0 + b, operators()[other].0) == (if other == at {
            Some(a.len() as int)
        } else {
            None
        }),
{
    let tok = operators()[at].0;
    let o = operators()[other].0;
    let s = a + tok + b;
    reveal_strlit(">=");
    reveal_strlit("<=");
    reveal_strlit("!=");
    reveal_strlit(">");
    reveal_strlit("<");
    reveal_strlit("=");
    assert(1 <= tok.len() <= 2 && 1 <= o.len() <= 2);
    assert forall|i: int| 0 <= i < s.len() && !(a.len() <= i < a.len() + tok.len()) implies
        !is_operator_char(#[trigger] s[i]) by {
        if i < a.len() {
            assert(s[i] == a[i]);
        } else {
            assert(s[i] == b[i - a.len() - tok.len()]);
        }
    }
    assert(is_operator_char(o[0]) && is_operator_char(o[o.len() - 1]));
    assert forall|k: int| #[trigger] occurs_at(s, o, k) implies k == a.len() && other == at by {
        let part = s.subrange(k, k + o.len() as int);
        assert(part[0] == s[k] && part[o.len() - 1] == s[k + o.len() - 1]);
        assert(a.len() <= k && k + o.len() <= a.len() + tok.len());
        assert(s[k] == tok[k - a.len()]);
        if o.len() == 2 {
            assert(s[k + 1] == tok[1]);
        }
    }
    if other == at {
        assert(s.subrange(a.len() as int, (a.len() + tok.len()) as int) =~= tok);
        assert(occurs_at(s, o, a.len() as int));
    }
    lemma_first_at(s, o, a.len() as int);
}

/// A condition is read as it is written: a metric, one of the six operators and a
/// value, with or without white space between them, give that metric, that
/// operator and that value, as long as neither text holds a character of which
/// operators are made.
pub proof fn law_a_condition_reads_as_written(a: Seq<char>, b: Seq<char>)
    requires
        forall|i: int| 0 <= i < a.len() ==> !is_operator_char(#[trigger] a[i]),
        forall|i: int| 0 <= i < b.len() ==> !is_operator_char(#[trigger] b[i]),
        trim(a).len() > 0,
    ensures
        cond_parts(a + ">"@ + b) == Some(CondParts { metric: trim(a), op: Op::Gt, value: trim(b) }),
        cond_parts(a + ">="@ + b) == Some(
            CondParts { metric: trim(a), op: Op::Ge, value: trim(b) },
        ),
        cond_parts(a + "<"@ + b) == Some(CondParts { metric: trim(a), op: Op::Lt, value: trim(b) }),
        cond_parts(a + "<="@ + b) == Some(
            CondParts { metric: trim(a), op: Op::Le, value: trim(b) },
        ),
        cond_parts(a + "="@ + b) == Some(CondParts { metric: trim(a), op: Op::Eq, value: trim(b) }),
        cond_parts(a + "!="@ + b) == Some(
            CondParts { metric: trim(a), op: Op::Ne, value: trim(b) },
        ),
        cond_parts(a) is None,
        cond_parts(b) is None,
{
    lemma_written(a, b, 0);
    lemma_written(a, b, 1);
    lemma_written(a, b, 2);
    lemma_written(a, b, 3);
    lemma_written(a, b, 4);
    lemma_written(a, b, 5);
    lemma_no_operator(a, 0);
    lemma_no_operator(b, 0);
}

proof fn lemma_written(a: Seq<char>, b: Seq<char>, at: int)
    requires
        forall|i: int| 0 <= i < a.len() ==> !is_operator_char(#[trigger] a[i]),
        forall|i: int| 0 <= i < b.len() ==> !is_operator_char(#[trigger] b[i]),
        trim(a).len() > 0,
        0 <= at < operators().len(),
    ensures
        cond_parts(a + operators()[at].0 + b) == Some(
            CondParts { metric: trim(a), op: operators()[at].1, value: trim(b) },
        ),
{
    lemma_written_from(a, b, at, 0);
}

proof fn lemma_written_from(a: Seq<char>, b: Seq<char>, at: int, from: int)
    requires
        forall|i: int| 0 <= i < a.len() ==> !is_operator_char(#[trigger] a[i]),
        forall|i: int| 0 <= i < b.len() ==> !is_operator_char(#[trigger] b[i]),
        trim(a).len() > 0,
        0 <= from <= at < operators().len(),
    ensures
        parts_from(a + operators()[at].0 + b, from) == Some(
            CondParts { metric: trim(a), op: operators()[at].1, value: trim(b) },
        ),
    decreases at - from,
{
    let s = a + operators()[at].0 + b;
    lemma_one_operator(a, b, at, from);
    if from < at {
        lemma_written_from(a, b, at, from + 1);
    } else {
        assert(s.take(a.len() as int) =~= a);
        assert(s.skip((a.len() + operators()[at].0.len()) as int) =~= b);
    }
}

proof fn lemma_no_operator(a: Seq<char>, from: int)
    requires
        forall|i: int| 0 <= i < a.len() ==> !is_operator_char(#[trigger] a[i]),
        0 <= from <= operators().len(),
    ensures
        parts_from(a, from) is None,
    decreases operators().len() - from,
{
    if from < operators().len() {
        let o = operators()[from].0;
        reveal_strlit(">=");
        reveal_strlit("<=");
        reveal_strlit("!=");
        reveal_strlit(">");
        reveal_strlit("<");
        reveal_strlit("=");
        assert(o.len() > 0 && is_operator_char(o[0]));
        assert forall|k: int| !(#[trigger] occurs_at(a, o, k)) by {
            if occurs_at(a, o, k) {
                assert(a.subrange(k, k + o.len() as int)[0] == a[k]);
            }
        }
        lemma_first_at(a, o, 0);
        lemma_no_operator(a, from + 1);
    }
}

/// A condition whose value is still a text.
#[derive(Debug)]
pub struct CondText {
    pub metric: String,
    pub op: Op,
    pub value: String,
}

impl View for CondText {
    type V = CondParts;

    open spec fn view(&self) -> CondParts {
        CondParts { metric: self.metric@, op: self.op, value: self.value@ }
    }
}

/// Where an operator stands in a condition.
fn find_operator(v: &Vec<char>, tok: &str) -> (r: Option<usize>)
    ensures
        match r {
            Some(at) => first_at(v@, tok@) == Some(at as int) && at + tok@.len() <= v@.len(),
            None => first_at(v@, tok@) is None,
        },
{
    let t = chars_of(tok);
    match find_chars(v, &t) {
        Some(at) => {
            proof {
                lemma_first_at(v@, tok@, at as int);
            }
            Some(at)
        },
        None => {
            proof {
                lemma_first_at(v@, tok@, 0);
            }
            None
        },
    }
}

/// Divides a condition at an operator.
fn divide(v: &Vec<char>, at: usize, len: usize, op: Op) -> (r: Option<CondText>)
    requires
        at + len <= v@.len(),
    ensures
        match r {
            Some(c) => trim(v@.take(at as int)).len() > 0 && c@ == (CondParts {
                metric: trim(v@.take(at as int)),
                op,
                value: trim(v@.skip(at + len)),
            }),
            None => trim(v@.take(at as int)).len() == 0,
        },
{
    assert(v.len() == v@.len());
    let metric = trim_chars(&slice_chars(v, 0, at));
    let value = trim_chars(&slice_chars(v, at + len, v.len()));
    proof {
        assert(v@.subrange(0, at as int) =~= v@.take(at as int));
        assert(v@.subrange(at + len, v@.len() as int) =~= v@.skip(at + len));
    }
    if metric.len() == 0 {
        None
    } else {
        Some(CondText { metric: string_from(&metric), op, value: string_from(&value) })
    }
}

proof fn lemma_operator_lengths()
    ensures
        ">="@.len() == 2,
        "<="@.len() == 2,
        "!="@.len() == 2,
        ">"@.len() == 1,
        "<"@.len() == 1,
        "="@.len() == 1,
{
    reveal_strlit(">=");
    reveal_strlit("<=");
    reveal_strlit("!=");
    reveal_strlit(">");
    reveal_strlit("<");
    reveal_strlit("=");
}

/// The parts of a condition, if it has them.
fn find_parts(s: &str) -> (r: Option<CondText>)
    ensures
        match r {
            Some(c) => cond_parts(s@) == Some(c@),
            None => cond_parts(s@) is None,
        },
{
    let v = chars_of(s);
    proof {
        lemma_operator_lengths();
        reveal_with_fuel(parts_from, 7);
    }
    if let Some(at) = find_operator(&v, ">=") {
        return divide(&v, at, 2, Op::Ge);
    }
    if let Some(at) = find_operator(&v, "<=") {
        return divide(&v, at, 2, Op::Le);
    }
    if let Some(at) = find_operator(&v, "!=") {
        return divide(&v, at, 2, Op::Ne);
    }
    if let Some(at) = find_operator(&v, ">") {
        return divide(&v, at, 1, Op::Gt);
    }
    if let Some(at) = find_operator(&v, "<") {
        return divide(&v, at, 1, Op::Lt);
    }
    if let Some(at) = find_operator(&v, "=") {
        return divide(&v, at, 1, Op::Eq);
    }
    None
}

/// The parts of a condition `METRIC OP VALUE`.
pub fn split_cond(s: &str) -> (r: Result<CondText, SiftError>)
    ensures
        outcome(r) == (match cond_parts(s@) {
            Some(c) => Ok::<CondParts, ErrorView>(c),
            None => Err(
                ErrorView::Parse(
                    "bad --where "@ + quoted(s@)
                        + "; expected METRIC OP VALUE (e.g. WEIGHTAVG_ROE>15)"@,
                ),
            ),
        }),
{
    match find_parts(s) {
        Some(c) => Ok(c),
        None => Err(
            SiftError::Parse(
                concat3(
                    "bad --where ",
                    debug_quoted(s).as_str(),
                    "; expected METRIC OP VALUE (e.g. WEIGHTAVG_ROE>15)",
                ),
            ),
        ),
    }
}

/// A condition, given what its value text reads as.
pub fn parse_cond(s: &str, parts: CondText, value: Option<Amount>) -> (r: Result<Cond, SiftError>)
    ensures
        match value {
            Some(val) => r matches Ok(c) && c.metric@ == parts.metric@ && c.op == parts.op && c.val
                == val,
            None => r matches Err(e) && e@ == ErrorView::Parse(
                "bad --where value in "@ + quoted(s@),
            ),
        },
{
    match value {
        Some(val) => Ok(Cond { metric: parts.metric, op: parts.op, val }),
        None => Err(
            SiftError::Parse(concat2("bad --where value in ", debug_quoted(s).as_str())),
        ),
    }
}

/// A figure compares with another as asked; what is no number compares with
/// nothing and differs from everything.
pub open spec fn compares(a: Amount, op: Op, b: Amount) -> bool {
    if a.is_nan() || b.is_nan() {
        op == Op::Ne
    } else {
        match op {
            Op::Gt => a.key() > b.key(),
            Op::Ge => a.key() >= b.key(),
            Op::Lt => a.key() < b.key(),
            Op::Le => a.key() <= b.key(),
            Op::Eq => a.key() == b.key(),
            Op::Ne => a.key() != b.key(),
        }
    }
}

/// The operators fit together: for figures that are numbers, of `<`, `=` and `>`
/// exactly one holds, `<` holds of two figures exactly if `>` holds of them the
/// other way round, `<=` is `<` or `=`, `>=` is `>` or `=`, and `!=` is not `=`.
pub proof fn law_operators_fit_together(a: Amount, b: Amount)
    requires
        !a.is_nan(),
        !b.is_nan(),
    ensures
        compares(a, Op::Lt, b) <==> compares(b, Op::Gt, a),
        compares(a, Op::Eq, b) <==> compares(b, Op::Eq, a),
        compares(a, Op::Le, b) <==> compares(a, Op::Lt, b) || compares(a, Op::Eq, b),
        compares(a, Op::Ge, b) <==> compares(a, Op::Gt, b) || compares(a, Op::Eq, b),
        compares(a, Op::Ne, b) <==> !compares(a, Op::Eq, b),
        compares(a, Op::Lt, b) || compares(a, Op::Eq, b) || compares(a, Op::Gt, b),
        !(compares(a, Op::Lt, b) && compares(a, Op::Eq, b)),
        !(compares(a, Op::Lt, b) && compares(a, Op::Gt, b)),
        !(compares(a, Op::Eq, b) && compares(a, Op::Gt, b)),
        compares(a, Op::Eq, a),
{
}

/// `<` passes on: what is less than a figure is less than all that are greater
/// than or equal to it.
pub proof fn law_less_passes_on(a: Amount, b: Amount, c: Amount)
    requires
        compares(a, Op::Lt, b),
        compares(b, Op::Lt, c) || compares(b, Op::Eq, c),
    ensures
        compares(a, Op::Lt, c),
{
}

/// Which figure is the less is told by the bits: of two without a sign bit the
/// one with the smaller bits, of two with a sign bit the one with the greater
/// bits; one with a sign bit is less than one without, except that the two zeros
/// are equal.
pub proof fn law_the_bits_tell_which_is_less(a: Amount, b: Amount)
    requires
        !a.is_nan(),
        !b.is_nan(),
    ensures
        a.bits < 0x8000_0000_0000_0000 && b.bits < 0x8000_0000_0000_0000 ==> (compares(
            a,
            Op::Lt,
            b,
        ) <==> a.bits < b.bits),
        a.bits >= 0x8000_0000_0000_0000 && b.bits >= 0x8000_0000_0000_0000 ==> (compares(
            a,
            Op::Lt,
            b,
        ) <==> a.bits > b.bits),
        a.bits >= 0x8000_0000_0000_0000 && b.bits < 0x8000_0000_0000_0000 ==> if a.bits
            == 0x8000_0000_0000_0000 && b.bits == 0 {
            compares(a, Op::Eq, b)
        } else {
            compares(a, Op::Lt, b)
        },
{
}

/// What is no number, its exponent bits all set and its fraction not zero,
/// differs from every figure, itself too, and compares in no other way.
pub proof fn law_no_number_compares_with_nothing(a: Amount, op: Op, b: Amount)
    requires
        ({
            let exponent = |x: Amount| (x.bits as int / 0x10_0000_0000_0000) % 0x800;
            let fraction = |x: Amount| x.bits as int % 0x10_0000_0000_0000;
            exponent(a) == 0x7ff && fraction(a) != 0 || exponent(b) == 0x7ff && fraction(b) != 0
        }),
    ensures
        compares(a, op, b) <==> op == Op::Ne,
{
    law_what_is_no_number(a);
    law_what_is_no_number(b);
}

/// A figure is no number exactly if its exponent bits are all set and its fraction
/// is not zero.
pub proof fn law_what_is_no_number(a: Amount)
    ensures
        a.is_nan() <==> (a.bits as int / 0x10_0000_0000_0000) % 0x800 == 0x7ff && a.bits as int
            % 0x10_0000_0000_0000 != 0,
{
    let n = a.bits as int;
    let top = n / 0x10_0000_0000_0000;
    let low = n % 0x10_0000_0000_0000;
    assert(n == top * 0x10_0000_0000_0000 + low);
    assert(top < 0x1000);
    let sign = top / 0x800;
    let exponent = top % 0x800;
    assert(n == sign * 0x8000_0000_0000_0000 + exponent * 0x10_0000_0000_0000 + low);
    assert(n % 0x8000_0000_0000_0000 == exponent * 0x10_0000_0000_0000 + low);
}

/// A security meets a condition: it has the figure, and the figure compares.
pub open spec fn meets(r: MarketRow, c: Cond) -> bool {
    r.metrics@.contains_key(c.metric@) && compares(r.metrics@[c.metric@], c.op, c.val)
}

/// Whether a security meets a condition.
pub fn cond_matches(r: &MarketRow, c: &Cond) -> (b: bool)
    requires
        r.wf(),
    ensures
        b == meets(*r, *c),
{
    match r.metrics.get(c.metric.as_str()) {
        None => false,
        Some(v) => {
            if v.not_a_number() || c.val.not_a_number() {
                return c.op == Op::Ne;
            }
            let x: i64 = v.order_key();
            let y: i64 = c.val.order_key();
            match c.op {
                Op::Gt => x > y,
                Op::Ge => x >= y,
                Op::Lt => x < y,
                Op::Le => x <= y,
                Op::Eq => x == y,
                Op::Ne => x != y,
            }
        },
    }
}

/// A security without the figure meets no condition on it. With one that is a
/// number, and a number to compare it with, it meets `<` exactly if it does not
/// meet `>=`, `>` exactly if it does not meet `<=`, `=` exactly if it does not
/// meet `!=`, and `=` exactly if it meets both `<=` and `>=`.
pub proof fn law_opposite_conditions_divide_the_securities(r: MarketRow, c: Cond, d: Cond, e: Cond)
    requires
        c.metric@ == d.metric@,
        d.metric@ == e.metric@,
        c.val == d.val,
        d.val == e.val,
    ensures
        !r.metrics@.contains_key(c.metric@) ==> !meets(r, c),
        r.metrics@.contains_key(c.metric@) && !c.val.is_nan()
            && !r.metrics@[c.metric@].is_nan() ==> {
            &&& c.op == Op::Lt && d.op == Op::Ge ==> (meets(r, c) <==> !meets(r, d))
            &&& c.op == Op::Gt && d.op == Op::Le ==> (meets(r, c) <==> !meets(r, d))
            &&& c.op == Op::Eq && d.op == Op::Ne ==> (meets(r, c) <==> !meets(r, d))
            &&& c.op == Op::Eq && d.op == Op::Le && e.op == Op::Ge ==> (meets(r, c) <==> meets(r, d)
                && meets(r, e))
        },
{
}

/// A condition is on the figure that it names and on no other: securities with
/// the same figure there, or both without one, meet it alike. A greater figure
/// meets `>` and `>=` where a smaller one does, and a smaller one meets `<` and
/// `<=` where a greater one does.
pub proof fn law_a_condition_is_on_its_figure(r: MarketRow, s: MarketRow, c: Cond)
    ensures
        r.metrics@.contains_key(c.metric@) == s.metrics@.contains_key(c.metric@)
            && r.metrics@[c.metric@] == s.metrics@[c.metric@] ==> (meets(r, c) <==> meets(s, c)),
        r.metrics@.contains_key(c.metric@) && s.metrics@.contains_key(c.metric@) && compares(
            r.metrics@[c.metric@],
            Op::Lt,
            s.metrics@[c.metric@],
        ) ==> {
            &&& c.op == Op::Gt || c.op == Op::Ge ==> (meets(r, c) ==> meets(s, c))
            &&& c.op == Op::Lt || c.op == Op::Le ==> (meets(s, c) ==> meets(r, c))
        },
{
}

// ---------------------------------------------------------------------------
// Boards
// ---------------------------------------------------------------------------

/// A code is of the board that is asked for. No board, and any other word,
/// stands for all.
pub open spec fn of_board(code: Seq<char>, sel: Option<Seq<char>>) -> bool {
    match sel {
        None => true,
        Some(s) => if s == "main"@ {
            begins(code, "600") || begins(code, "601") || begins(code, "603") || begins(
                code,
                "605",
            ) || begins(code, "000") || begins(code, "001") || begins(code, "002") || begins(
                code,
                "003",
            )
        } else if s == "star"@ {
            begins(code, "688") || begins(code, "689")
        } else if s == "gem"@ {
            begins(code, "300") || begins(code, "301")
        } else if s == "bj"@ {
            begins(code, "8") || begins(code, "430") || begins(code, "920")
        } else {
            true
        },
    }
}

/// Whether a code is of the board that is asked for.
pub fn board_matches(code: &str, sel: Option<&str>) -> (b: bool)
    ensures
        b == of_board(code@, opt_str(sel)),
{
    let s = match sel {
        None => return true,
        Some(s) => s,
    };
    if same(s, "main") {
        starts_with(code, "600") || starts_with(code, "601") || starts_with(code, "603")
            || starts_with(code, "605") || starts_with(code, "000") || starts_with(code, "001")
            || starts_with(code, "002") || starts_with(code, "003")
    } else if same(s, "star") {
        starts_with(code, "688") || starts_with(code, "689")
    } else if same(s, "gem") {
        starts_with(code, "300") || starts_with(code, "301")
    } else if same(s, "bj") {
        starts_with(code, "8") || starts_with(code, "430") || starts_with(code, "920")
    } else {
        true
    }
}

/// How a code begins, character by character.
proof fn lemma_begins(code: Seq<char>)
    ensures
        forall|p: &str| #[trigger]
            begins(code, p) ==> p@.len() <= code.len() && forall|i: int|
                0 <= i < p@.len() ==> p@[i] == #[trigger] code[i],
{
    assert forall|p: &str| #[trigger] begins(code, p) implies p@.len() <= code.len() && forall|
        i: int,
    |
        0 <= i < p@.len() ==> p@[i] == #[trigger] code[i] by {
        assert(p@.is_prefix_of(code));
        assert(p@ == code.subrange(0, p@.len() as int));
    }
}

/// The boards that can be asked for are those that codes are said to be of: where
/// the board of a code is told, the code is of `star` or `gem` exactly if it is
/// of that board, of `main` exactly if it is of a main board or the board for
/// small companies, and of `bj` exactly if it is of the Beijing one.
pub proof fn law_boards_agree_with_the_told_board(code: Seq<char>, b: Board)
    requires
        board_of(code) == Some(b),
    ensures
        of_board(code, Some("star"@)) <==> b == Board::ShStar,
        of_board(code, Some("gem"@)) <==> b == Board::SzGem,
        of_board(code, Some("main"@)) <==> b == Board::ShMain || b == Board::SzMain || b
            == Board::SzSme,
        of_board(code, Some("bj"@)) <==> b == Board::BjMain,
{
    reveal_strlit("main");
    reveal_strlit("star");
    reveal_strlit("gem");
    reveal_strlit("bj");
    assert("main"@[0] != "star"@[0] && "main"@[0] != "gem"@[0] && "main"@[0] != "bj"@[0]);
    assert("star"@[0] != "gem"@[0] && "star"@[0] != "bj"@[0] && "gem"@[0] != "bj"@[0]);
    reveal_strlit("600");
    reveal_strlit("601");
    reveal_strlit("603");
    reveal_strlit("605");
    reveal_strlit("000");
    reveal_strlit("001");
    reveal_strlit("002");
    reveal_strlit("003");
    reveal_strlit("688");
    reveal_strlit("689");
    reveal_strlit("300");
    reveal_strlit("301");
    reveal_strlit("200");
    reveal_strlit("900");
    reveal_strlit("8");
    reveal_strlit("430");
    reveal_strlit("920");
    lemma_begins(code);
    if of_board(code, Some("main"@)) {
        assert(code[0] == '6' && code[1] == '0' || code[0] == '0');
    }
    if of_board(code, Some("star"@)) {
        assert(code[0] == '6' && code[1] == '8');
    }
    if of_board(code, Some("gem"@)) {
        assert(code[0] == '3');
    }
    if of_board(code, Some("bj"@)) {
        assert(code[0] == '8' || code[0] == '4' || code[0] == '9' && code[1] == '2');
    }
}

/// A code of six digits whose board is not told, or a B-share, is of no board that
/// can be asked for.
pub proof fn law_codes_without_a_board_are_of_none(code: Seq<char>)
    requires
        all_digits(code),
        code.len() == 6,
        board_of(code) is None || board_of(code) == Some(Board::BShare),
    ensures
        !of_board(code, Some("main"@)),
        !of_board(code, Some("star"@)),
        !of_board(code, Some("gem"@)),
        !of_board(code, Some("bj"@)),
{
    law_the_first_digits_tell_the_board(code);
    reveal_strlit("main");
    reveal_strlit("star");
    reveal_strlit("gem");
    reveal_strlit("bj");
    assert("main"@[0] != "star"@[0] && "main"@[0] != "gem"@[0] && "main"@[0] != "bj"@[0]);
    assert("star"@[0] != "gem"@[0] && "star"@[0] != "bj"@[0] && "gem"@[0] != "bj"@[0]);
    reveal_strlit("600");
    reveal_strlit("601");
    reveal_strlit("603");
    reveal_strlit("605");
    reveal_strlit("000");
    reveal_strlit("001");
    reveal_strlit("002");
    reveal_strlit("003");
    reveal_strlit("688");
    reveal_strlit("689");
    reveal_strlit("300");
    reveal_strlit("301");
    reveal_strlit("8");
    reveal_strlit("430");
    reveal_strlit("920");
    lemma_begins(code);
    if of_board(code, Some("main"@)) {
        assert(code[0] == '6' && code[1] == '0' || code[0] == '0' && code[1] == '0');
    }
    if of_board(code, Some("star"@)) {
        assert(code[0] == '6' && code[1] == '8');
    }
    if of_board(code, Some("gem"@)) {
        assert(code[0] == '3' && code[1] == '0');
    }
    if of_board(code, Some("bj"@)) {
        assert(code[0] == '8' || code[0] == '4' && code[1] == '3' || code[0] == '9' && code[1]
            == '2');
    }
}

/// A code is of one board at most; without a board, and for a word that names
/// none, every code is in.
pub proof fn law_boards_do_not_overlap(code: Seq<char>, a: Seq<char>, b: Seq<char>)
    ensures
        of_board(code, None),
        !seq!["main"@, "star"@, "gem"@, "bj"@].contains(a) ==> of_board(code, Some(a)),
        seq!["main"@, "star"@, "gem"@, "bj"@].contains(a)
            && seq!["main"@, "star"@, "gem"@, "bj"@].contains(b) && of_board(code, Some(a))
            && of_board(code, Some(b)) ==> a == b,
{
    let words = seq!["main"@, "star"@, "gem"@, "bj"@];
    assert(words[0] == "main"@ && words[1] == "star"@ && words[2] == "gem"@ && words[3] == "bj"@);
    reveal_strlit("main");
    reveal_strlit("star");
    reveal_strlit("gem");
    reveal_strlit("bj");
    reveal_strlit("600");
    reveal_strlit("601");
    reveal_strlit("603");
    reveal_strlit("605");
    reveal_strlit("000");
    reveal_strlit("001");
    reveal_strlit("002");
    reveal_strlit("003");
    reveal_strlit("688");
    reveal_strlit("689");
    reveal_strlit("300");
    reveal_strlit("301");
    reveal_strlit("8");
    reveal_strlit("430");
    reveal_strlit("920");
    assert("main"@[0] != "star"@[0] && "main"@[0] != "gem"@[0] && "main"@[0] != "bj"@[0]);
    assert("star"@[0] != "gem"@[0] && "star"@[0] != "bj"@[0] && "gem"@[0] != "bj"@[0]);
    lemma_begins(code);
    if of_board(code, Some("main"@)) {
        assert(code[0] == '6' && code[1] == '0' || code[0] == '0');
    }
    if of_board(code, Some("star"@)) {
        assert(code[0] == '6' && code[1] == '8');
    }
    if of_board(code, Some("gem"@)) {
        assert(code[0] == '3');
    }
    if of_board(code, Some("bj"@)) {
        assert(code[0] == '8' || code[0] == '4' || code[0] == '9');
    }
}

// ---------------------------------------------------------------------------
// The window
// ---------------------------------------------------------------------------

/// A security is shown: it is of the board and meets all conditions.
pub open spec fn is_kept(r: MarketRow, market: Option<Seq<char>>, conds: Seq<Cond>) -> bool {
    of_board(r.code@, market) && forall|k: int|
        0 <= k < conds.len() ==> meets(r, #[trigger] conds[k])
}

/// The positions of the securities that are shown, in order.
pub open spec fn kept(rows: Seq<MarketRow>, market: Option<Seq<char>>, conds: Seq<Cond>) -> Seq<
    usize,
>
    decreases rows.len(),
{
    if rows.len() == 0 {
        Seq::empty()
    } else {
        let t = kept(rows.drop_last(), market, conds);
        if is_kept(rows.last(), market, conds) {
            t.push((rows.len() - 1) as usize)
        } else {
            t
        }
    }
}

/// A position with the key of its figure.
#[derive(Debug, Clone, Copy, PartialEq, Eq, Structural)]
pub struct Keyed {
    pub key: i64,
    pub at: usize,
}

impl Ranked for Keyed {
    open spec fn precedes(a: Self, b: Self) -> bool {
        a.key < b.key
    }

    proof fn asymmetric(a: Self, b: Self) {
    }

    proof fn between(a: Self, b: Self, c: Self) {
    }

    fn ranks_before(&self, other: &Self) -> (r: bool) {
        self.key < other.key
    }
}

/// The positions whose security has a figure in the column, with its key.
pub open spec fn with_figure(rows: Seq<MarketRow>, at: Seq<usize>, col: Seq<char>) -> Seq<Keyed>
    decreases at.len(),
{
    if at.len() == 0 {
        Seq::empty()
    } else {
        let t = with_figure(rows, at.drop_last(), col);
        let m = rows[at.last() as int].metrics@;
        if m.contains_key(col) {
            t.push(Keyed { key: m[col].key() as i64, at: at.last() })
        } else {
            t
        }
    }
}

/// The positions whose security has no figure in the column.
pub open spec fn without_figure(rows: Seq<MarketRow>, at: Seq<usize>, col: Seq<char>) -> Seq<usize>
    decreases at.len(),
{
    if at.len() == 0 {
        Seq::empty()
    } else {
        let t = without_figure(rows, at.drop_last(), col);
        if rows[at.last() as int].metrics@.contains_key(col) {
            t
        } else {
            t.push(at.last())
        }
    }
}

/// The positions alone.
pub open spec fn positions(v: Seq<Keyed>) -> Seq<usize> {
    v.map_values(|k: Keyed| k.at)
}

/// The positions by the figure of the column, those without a figure last;
/// both parts turned round for a descending order.
pub open spec fn by_column(rows: Seq<MarketRow>, at: Seq<usize>, col: Seq<char>, desc: bool) -> Seq<
    usize,
> {
    let some = positions(stable_sorted(with_figure(rows, at, col)));
    let none = without_figure(rows, at, col);
    if desc {
        some.reverse() + none.reverse()
    } else {
        some + none
    }
}

/// What is printed: the securities of the board that meet all conditions, by
/// the column, no more than the limit.
pub open spec fn windowed(rows: Seq<MarketRow>, args: MarketArgs, conds: Seq<Cond>) -> Seq<usize> {
    let market = opt_text(args.market);
    let at = kept(rows, market, conds);
    let s = match args.sort {
        Some(col) => by_column(rows, at, col@, args.desc),
        None => at,
    };
    if s.len() > args.limit {
        s.take(args.limit as int)
    } else {
        s
    }
}

fn meets_all(r: &MarketRow, conds: &Vec<Cond>) -> (b: bool)
    requires
        r.wf(),
    ensures
        b == (forall|k: int| 0 <= k < conds@.len() ==> meets(*r, #[trigger] conds@[k])),
{
    let mut i: usize = 0;
    while i < conds.len()
        invariant
            i <= conds@.len(),
            r.wf(),
            forall|k: int| 0 <= k < i ==> meets(*r, #[trigger] conds@[k]),
        decreases conds@.len() - i,
    {
        if !cond_matches(r, &conds[i]) {
            return false;
        }
        i = i + 1;
    }
    true
}

proof fn lemma_kept_bounds(rows: Seq<MarketRow>, market: Option<Seq<char>>, conds: Seq<Cond>)
    requires
        rows.len() <= usize::MAX,
    ensures
        forall|i: int|
            0 <= i < kept(rows, market, conds).len() ==> (#[trigger] kept(rows, market, conds)[i])
                < rows.len(),
        kept(rows, market, conds).len() <= rows.len(),
    decreases rows.len(),
{
    if rows.len() > 0 {
        lemma_kept_bounds(rows.drop_last(), market, conds);
    }
}

fn turned_round(v: &Vec<usize>) -> (out: Vec<usize>)
    ensures
        out@ == v@.reverse(),
{
    let mut out: Vec<usize> = Vec::new();
    let mut i: usize = v.len();
    while i > 0
        invariant
            i <= v@.len(),
            out@.len() == v@.len() - i,
            forall|k: int| 0 <= k < out@.len() ==> #[trigger] out@[k] == v@[v@.len() - 1 - k],
        decreases i,
    {
        i = i - 1;
        out.push(v[i]);
    }
    proof {
        assert(out@ =~= v@.reverse());
    }
    out
}

fn sort_column(rows: &Vec<MarketRow>, at: &Vec<usize>, col: &str, desc: bool) -> (out: Vec<usize>)
    requires
        forall|i: int| 0 <= i < rows@.len() ==> (#[trigger] rows@[i]).wf(),
        forall|i: int| 0 <= i < at@.len() ==> #[trigger] at@[i] < rows@.len(),
    ensures
        out@ == by_column(rows@, at@, col@, desc),
{
    let mut some: Vec<Keyed> = Vec::new();
    let mut none: Vec<usize> = Vec::new();
    let mut i: usize = 0;
    proof {
        assert(at@.take(0) =~= Seq::empty());
    }
    while i < at.len()
        invariant
            i <= at@.len(),
            forall|i: int| 0 <= i < rows@.len() ==> (#[trigger] rows@[i]).wf(),
            forall|i: int| 0 <= i < at@.len() ==> #[trigger] at@[i] < rows@.len(),
            some@ == with_figure(rows@, at@.take(i as int), col@),
            none@ == without_figure(rows@, at@.take(i as int), col@),
        decreases at@.len() - i,
    {
        proof {
            let t = at@.take(i as int + 1);
            assert(t.drop_last() =~= at@.take(i as int));
            assert(t.last() == at@[i as int]);
            assert(rows@[at@[i as int] as int].wf());
        }
        match rows[at[i]].metrics.get(col) {
            Some(v) => some.push(Keyed { key: v.order_key(), at: at[i] }),
            None => none.push(at[i]),
        }
        i = i + 1;
    }
    proof {
        assert(at@.take(at@.len() as int) =~= at@);
    }
    let sorted_some = stable_sort(some);
    let mut first: Vec<usize> = Vec::new();
    let mut k: usize = 0;
    while k < sorted_some.len()
        invariant
            k <= sorted_some@.len(),
            first@.len() == k,
            forall|j: int| 0 <= j < k ==> #[trigger] first@[j] == sorted_some@[j].at,
        decreases sorted_some@.len() - k,
    {
        first.push(sorted_some[k].at);
        k = k + 1;
    }
    proof {
        assert(first@ =~= positions(sorted_some@));
    }
    if desc {
        let mut out = turned_round(&first);
        let mut rest = turned_round(&none);
        out.append(&mut rest);
        out
    } else {
        first.append(&mut none);
        first
    }
}

/// No figure in the column that is sorted by is other than a number.
pub open spec fn sortable(rows: Seq<MarketRow>, sort: Option<String>) -> bool {
    sort matches Some(col) ==> forall|i: int|
        0 <= i < rows.len() && (#[trigger] rows[i]).metrics@.contains_key(col@)
            ==> !rows[i].metrics@[col@].is_nan()
}

/// The positions of the securities to print, in order.
pub fn window(rows: &Vec<MarketRow>, args: &MarketArgs, conds: &Vec<Cond>) -> (out: Vec<usize>)
    requires
        forall|i: int| 0 <= i < rows@.len() ==> (#[trigger] rows@[i]).wf(),
        sortable(rows@, args.sort),
    ensures
        out@ == windowed(rows@, *args, conds@),
{
    let ghost market = opt_text(args.market);
    let board = match &args.market {
        Some(m) => Some(m.as_str()),
        None => None,
    };
    let mut at: Vec<usize> = Vec::new();
    let mut i: usize = 0;
    proof {
        assert(rows@.take(0) =~= Seq::empty());
    }
    while i < rows.len()
        invariant
            i <= rows@.len(),
            forall|i: int| 0 <= i < rows@.len() ==> (#[trigger] rows@[i]).wf(),
            market == opt_str(board),
            at@ == kept(rows@.take(i as int), market, conds@),
        decreases rows@.len() - i,
    {
        proof {
            let t = rows@.take(i as int + 1);
            assert(t.drop_last() =~= rows@.take(i as int));
            assert(t.last() == rows@[i as int]);
        }
        if board_matches(rows[i].code.as_str(), board) && meets_all(&rows[i], conds) {
            at.push(i);
        }
        i = i + 1;
    }
    proof {
        assert(rows@.take(rows@.len() as int) =~= rows@);
        lemma_kept_bounds(rows@, market, conds@);
    }
    let mut out = match &args.sort {
        Some(col) => sort_column(rows, &at, col.as_str(), args.desc),
        None => at,
    };
    if out.len() > args.limit {
        out.truncate(args.limit);
    }
    out
}

proof fn lemma_figures(rows: Seq<MarketRow>, at: Seq<usize>, col: Seq<char>)
    ensures
        with_figure(rows, at, col).len() + without_figure(rows, at, col).len() == at.len(),
        forall|i: int|
            0 <= i < with_figure(rows, at, col).len() ==> rows[(#[trigger] with_figure(
                rows,
                at,
                col,
            )[i]).at as int].metrics@.contains_key(col),
        forall|i: int|
            0 <= i < with_figure(rows, at, col).len() ==> (#[trigger] with_figure(
                rows,
                at,
                col,
            )[i]).key == rows[with_figure(rows, at, col)[i].at as int].metrics@[col].key(),
        forall|i: int|
            0 <= i < without_figure(rows, at, col).len() ==> !rows[(#[trigger] without_figure(
                rows,
                at,
                col,
            )[i]) as int].metrics@.contains_key(col),
    decreases at.len(),
{
    if at.len() > 0 {
        lemma_figures(rows, at.drop_last(), col);
    }
}

/// Sorting by a column shows as many securities as there were, those with a
/// figure first and those without last, in either direction.
pub proof fn law_missing_figures_come_last(
    rows: Seq<MarketRow>,
    at: Seq<usize>,
    col: Seq<char>,
    desc: bool,
    i: int,
)
    requires
        0 <= i < at.len(),
    ensures
        by_column(rows, at, col, desc).len() == at.len(),
        rows[by_column(rows, at, col, desc)[i] as int].metrics@.contains_key(col) <==> i
            < with_figure(rows, at, col).len(),
{
    lemma_figures(rows, at, col);
    let w = with_figure(rows, at, col);
    let s = stable_sorted(w);
    lemma_stable_sorted(w);
    let some = positions(s);
    let none = without_figure(rows, at, col);
    let out = by_column(rows, at, col, desc);
    if i < w.len() {
        let k = if desc {
            w.len() - 1 - i
        } else {
            i
        };
        assert(out[i] == some[k]);
        assert(s.contains(s[k]));
        lemma_stable_sorted_contains(w, s[k]);
        let j = choose|j: int| 0 <= j < w.len() && w[j] == s[k];
        assert(rows[w[j].at as int].metrics@.contains_key(col));
    } else {
        let k = if desc {
            none.len() - 1 - (i - w.len())
        } else {
            i - w.len()
        };
        assert(out[i] == none[k]);
    }
}

/// The figure of the column at a place of the sorted securities.
pub open spec fn key_at(
    rows: Seq<MarketRow>,
    at: Seq<usize>,
    col: Seq<char>,
    desc: bool,
    i: int,
) -> int {
    rows[by_column(rows, at, col, desc)[i] as int].metrics@[col].key()
}

/// Among the securities with a figure, figures do not fall in ascending order
/// and do not rise in descending order.
pub proof fn law_figures_are_in_order(
    rows: Seq<MarketRow>,
    at: Seq<usize>,
    col: Seq<char>,
    desc: bool,
    i: int,
    j: int,
)
    requires
        0 <= i < j < with_figure(rows, at, col).len(),
    ensures
        if desc {
            key_at(rows, at, col, desc, i) >= key_at(rows, at, col, desc, j)
        } else {
            key_at(rows, at, col, desc, i) <= key_at(rows, at, col, desc, j)
        },
{
    lemma_key_at(rows, at, col, desc, i);
    lemma_key_at(rows, at, col, desc, j);
    let w = with_figure(rows, at, col);
    let s = stable_sorted(w);
    lemma_stable_sorted(w);
    if desc {
        assert(!Keyed::precedes(s[w.len() - 1 - i], s[w.len() - 1 - j]));
    } else {
        assert(!Keyed::precedes(s[j], s[i]));
    }
}

/// The figure at a place is the one that was sorted by.
proof fn lemma_key_at(rows: Seq<MarketRow>, at: Seq<usize>, col: Seq<char>, desc: bool, i: int)
    requires
        0 <= i < with_figure(rows, at, col).len(),
    ensures
        key_at(rows, at, col, desc, i) == stable_sorted(
            with_figure(rows, at, col),
        )[if desc {
            with_figure(rows, at, col).len() - 1 - i
        } else {
            i
        }].key,
{
    lemma_figures(rows, at, col);
    let w = with_figure(rows, at, col);
    let s = stable_sorted(w);
    lemma_stable_sorted(w);
    let k = if desc {
        w.len() - 1 - i
    } else {
        i
    };
    assert(by_column(rows, at, col, desc)[i] == positions(s)[k]);
    assert(s.contains(s[k]));
    lemma_stable_sorted_contains(w, s[k]);
    let j = choose|j: int| 0 <= j < w.len() && w[j] == s[k];
    assert(w[j].key == rows[w[j].at as int].metrics@[col].key());
}

/// The positions that are kept are those of the securities that are shown, in
/// ascending order.
proof fn lemma_kept(rows: Seq<MarketRow>, market: Option<Seq<char>>, conds: Seq<Cond>, p: usize)
    requires
        rows.len() <= usize::MAX,
    ensures
        kept(rows, market, conds).contains(p) <==> p < rows.len() && is_kept(
            rows[p as int],
            market,
            conds,
        ),
        forall|i: int, j: int|
            0 <= i < j < kept(rows, market, conds).len() ==> #[trigger] kept(rows, market, conds)[i]
                < #[trigger] kept(rows, market, conds)[j],
    decreases rows.len(),
{
    if rows.len() > 0 {
        let d = rows.drop_last();
        let t = kept(d, market, conds);
        let all = kept(rows, market, conds);
        lemma_kept(d, market, conds, p);
        lemma_kept_bounds(d, market, conds);
        if t.contains(p) {
            let k = choose|k: int| 0 <= k < t.len() && t[k] == p;
            assert(all[k] == p);
        }
        if all.contains(p) && !t.contains(p) {
            let k = choose|k: int| 0 <= k < all.len() && all[k] == p;
            if k < t.len() {
                assert(t[k] == p);
            }
        }
        if p == rows.len() - 1 && is_kept(rows[p as int], market, conds) {
            assert(all[t.len() as int] == p);
        }
        assert forall|i: int, j: int| 0 <= i < j < all.len() implies #[trigger] all[i]
            < #[trigger] all[j] by {
            if j < t.len() {
                assert(t[i] < t[j]);
            } else {
                assert(all[i] == t[i]);
            }
        }
    }
}

/// The positions with a figure and those without are together the positions, and
/// both are in ascending order where the positions are.
proof fn lemma_figures_ascend(rows: Seq<MarketRow>, at: Seq<usize>, col: Seq<char>, p: usize)
    requires
        forall|i: int, j: int| 0 <= i < j < at.len() ==> #[trigger] at[i] < #[trigger] at[j],
    ensures
        at.contains(p) && rows[p as int].metrics@.contains_key(col) <==> with_figure(
            rows,
            at,
            col,
        ).contains(Keyed { key: rows[p as int].metrics@[col].key() as i64, at: p }),
        at.contains(p) && !rows[p as int].metrics@.contains_key(col) <==> without_figure(
            rows,
            at,
            col,
        ).contains(p),
        forall|i: int|
            0 <= i < with_figure(rows, at, col).len() ==> at.contains(
                (#[trigger] with_figure(rows, at, col)[i]).at,
            ),
        forall|i: int, j: int|
            0 <= i < j < with_figure(rows, at, col).len() ==> (#[trigger] with_figure(
                rows,
                at,
                col,
            )[i]).at < (#[trigger] with_figure(rows, at, col)[j]).at,
        forall|i: int, j: int|
            0 <= i < j < without_figure(rows, at, col).len() ==> #[trigger] without_figure(
                rows,
                at,
                col,
            )[i] < #[trigger] without_figure(rows, at, col)[j],
        forall|i: int|
            0 <= i < without_figure(rows, at, col).len() ==> at.contains(
                #[trigger] without_figure(rows, at, col)[i],
            ),
    decreases at.len(),
{
    if at.len() > 0 {
        let d = at.drop_last();
        let x = at.last();
        assert forall|i: int, j: int| 0 <= i < j < d.len() implies #[trigger] d[i]
            < #[trigger] d[j] by {
            assert(at[i] < at[j]);
        }
        lemma_figures_ascend(rows, d, col, p);
        assert(at.contains(p) <==> d.contains(p) || p == x) by {
            if at.contains(p) {
                let i = choose|i: int| 0 <= i < at.len() && at[i] == p;
                if i < d.len() {
                    assert(d[i] == p);
                }
            }
            if d.contains(p) {
                let i = choose|i: int| 0 <= i < d.len() && d[i] == p;
                assert(at[i] == p);
            }
            assert(at[at.len() - 1] == x);
        }
        assert forall|q: usize| #[trigger] d.contains(q) implies q < x && at.contains(q) by {
            let i = choose|i: int| 0 <= i < d.len() && d[i] == q;
            assert(at[i] < at[at.len() - 1]);
            assert(at[i] == q);
        }
        assert(at[at.len() - 1] == x);
        assert(at.contains(x));
        let w = with_figure(rows, d, col);
        let v = without_figure(rows, d, col);
        let key = Keyed { key: rows[p as int].metrics@[col].key() as i64, at: p };
        if rows[x as int].metrics@.contains_key(col) {
            let own = Keyed { key: rows[x as int].metrics@[col].key() as i64, at: x };
            let all = with_figure(rows, at, col);
            assert(all == w.push(own));
            assert(all.contains(key) <==> w.contains(key) || key == own) by {
                if w.contains(key) {
                    let i = choose|i: int| 0 <= i < w.len() && w[i] == key;
                    assert(all[i] == key);
                }
                if all.contains(key) {
                    let i = choose|i: int| 0 <= i < all.len() && all[i] == key;
                    if i < w.len() {
                        assert(w[i] == key);
                    }
                }
                assert(all[w.len() as int] == own);
            }
            assert forall|i: int, j: int| 0 <= i < j < all.len() implies (#[trigger] all[i]).at < (
            #[trigger] all[j]).at by {
                assert(all[i] == w[i]);
                assert(d.contains(w[i].at));
                if j < w.len() {
                    assert(all[j] == w[j]);
                }
            }
        } else {
            let all = without_figure(rows, at, col);
            assert(all == v.push(x));
            assert(all.contains(p) <==> v.contains(p) || p == x) by {
                if v.contains(p) {
                    let i = choose|i: int| 0 <= i < v.len() && v[i] == p;
                    assert(all[i] == p);
                }
                if all.contains(p) {
                    let i = choose|i: int| 0 <= i < all.len() && all[i] == p;
                    if i < v.len() {
                        assert(v[i] == p);
                    }
                }
                assert(all[v.len() as int] == x);
            }
            assert forall|i: int, j: int| 0 <= i < j < all.len() implies #[trigger] all[i]
                < #[trigger] all[j] by {
                assert(all[i] == v[i]);
                assert(d.contains(v[i]));
                if j < v.len() {
                    assert(all[j] == v[j]);
                }
            }
        }
    }
}

/// Sorting by a column neither loses nor adds a position.
proof fn lemma_by_column_contains(
    rows: Seq<MarketRow>,
    at: Seq<usize>,
    col: Seq<char>,
    desc: bool,
    p: usize,
)
    requires
        forall|i: int, j: int| 0 <= i < j < at.len() ==> #[trigger] at[i] < #[trigger] at[j],
    ensures
        by_column(rows, at, col, desc).contains(p) <==> at.contains(p),
        by_column(rows, at, col, desc).len() == at.len(),
{
    let w = with_figure(rows, at, col);
    let s = stable_sorted(w);
    let some = positions(s);
    let none = without_figure(rows, at, col);
    let all = by_column(rows, at, col, desc);
    let key = Keyed { key: rows[p as int].metrics@[col].key() as i64, at: p };
    lemma_figures(rows, at, col);
    lemma_figures_ascend(rows, at, col, p);
    lemma_stable_sorted(w);
    lemma_stable_sorted_contains(w, key);
    assert(some.contains(p) <==> s.contains(key)) by {
        if some.contains(p) {
            let i = choose|i: int| 0 <= i < some.len() && some[i] == p;
            assert(s.contains(s[i]));
            lemma_stable_sorted_contains(w, s[i]);
            let k = choose|k: int| 0 <= k < w.len() && w[k] == s[i];
            assert(w[k].at == p);
            assert(w[k] == key);
        }
        if s.contains(key) {
            let i = choose|i: int| 0 <= i < s.len() && s[i] == key;
            assert(some[i] == p);
        }
    }
    if some.contains(p) {
        let i = choose|i: int| 0 <= i < some.len() && some[i] == p;
        if desc {
            assert(all[some.len() - 1 - i] == p);
        } else {
            assert(all[i] == p);
        }
    }
    if none.contains(p) {
        let i = choose|i: int| 0 <= i < none.len() && none[i] == p;
        if desc {
            assert(all[some.len() + none.len() - 1 - i] == p);
        } else {
            assert(all[some.len() + i] == p);
        }
    }
    if all.contains(p) {
        let i = choose|i: int| 0 <= i < all.len() && all[i] == p;
        if i < some.len() {
            assert(some[if desc {
                some.len() - 1 - i
            } else {
                i
            }] == p);
        } else {
            assert(none[if desc {
                some.len() + none.len() - 1 - i
            } else {
                i - some.len()
            }] == p);
        }
    }
}

/// Of two places of the sorted positions the first has a figure where the second
/// has, and the figures, and for the same figure the positions, are in order.
proof fn lemma_by_column_order(
    rows: Seq<MarketRow>,
    at: Seq<usize>,
    col: Seq<char>,
    desc: bool,
    i: int,
    j: int,
)
    requires
        forall|a: int, b: int| 0 <= a < b < at.len() ==> #[trigger] at[a] < #[trigger] at[b],
        0 <= i < j < at.len(),
    ensures
        ({
            let a = by_column(rows, at, col, desc)[i];
            let b = by_column(rows, at, col, desc)[j];
            let m = rows[a as int].metrics@;
            let n = rows[b as int].metrics@;
            &&& a != b
            &&& n.contains_key(col) ==> m.contains_key(col)
            &&& m.contains_key(col) && n.contains_key(col) ==> if desc {
                m[col].key() > n[col].key() || m[col].key() == n[col].key() && a > b
            } else {
                m[col].key() < n[col].key() || m[col].key() == n[col].key() && a < b
            }
            &&& !m.contains_key(col) && !n.contains_key(col) ==> if desc {
                a > b
            } else {
                a < b
            }
        }),
{
    let w = with_figure(rows, at, col);
    let s = stable_sorted(w);
    let none = without_figure(rows, at, col);
    let all = by_column(rows, at, col, desc);
    lemma_figures(rows, at, col);
    lemma_figures_ascend(rows, at, col, 0);
    lemma_stable_sorted(w);
    law_missing_figures_come_last(rows, at, col, desc, i);
    law_missing_figures_come_last(rows, at, col, desc, j);
    if j < w.len() {
        lemma_key_at(rows, at, col, desc, i);
        lemma_key_at(rows, at, col, desc, j);
        let number = |k: Keyed| k.at as int;
        if desc {
            let x = w.len() - 1 - j;
            let y = w.len() - 1 - i;
            assert(all[i] == s[y].at && all[j] == s[x].at);
            assert(!Keyed::precedes(s[y], s[x]));
            if !Keyed::precedes(s[x], s[y]) {
                law_ties_stay_as_they_came(w, number, x, y);
            }
        } else {
            assert(all[i] == s[i].at && all[j] == s[j].at);
            assert(!Keyed::precedes(s[j], s[i]));
            if !Keyed::precedes(s[i], s[j]) {
                law_ties_stay_as_they_came(w, number, i, j);
            }
        }
    } else if i >= w.len() {
        let n = w.len() + none.len() - 1;
        if desc {
            assert(all[i] == none[n - i] && all[j] == none[n - j]);
        } else {
            assert(all[i] == none[i - w.len()] && all[j] == none[j - w.len()]);
        }
    }
    if i < w.len() && j >= w.len() {
        assert(rows[all[i] as int].metrics@.contains_key(col));
        assert(!rows[all[j] as int].metrics@.contains_key(col));
    }
}

/// The window shows securities of the list that are of the board and meet every
/// condition, each once and no more than the limit; where the limit is not
/// reached, it shows all of them.
pub proof fn law_the_window_shows_what_meets_the_conditions(
    rows: Seq<MarketRow>,
    args: MarketArgs,
    conds: Seq<Cond>,
    p: usize,
)
    requires
        rows.len() <= usize::MAX,
    ensures
        ({
            let shown = windowed(rows, args, conds);
            let wanted = p < rows.len() && of_board(rows[p as int].code@, opt_text(args.market))
                && forall|k: int| 0 <= k < conds.len() ==> meets(rows[p as int], #[trigger] conds[k]);
            &&& shown.len() <= args.limit
            &&& shown.contains(p) ==> wanted
            &&& wanted && shown.len() < args.limit ==> shown.contains(p)
            &&& shown.no_duplicates()
        }),
{
    let market = opt_text(args.market);
    let at = kept(rows, market, conds);
    let shown = windowed(rows, args, conds);
    lemma_kept(rows, market, conds, p);
    let s = match args.sort {
        Some(col) => by_column(rows, at, col@, args.desc),
        None => at,
    };
    if args.sort is Some {
        lemma_by_column_contains(rows, at, args.sort->0@, args.desc, p);
    }
    if shown.contains(p) {
        let i = choose|i: int| 0 <= i < shown.len() && shown[i] == p;
        assert(s[i] == p);
        assert(s.contains(p));
    }
    assert forall|i: int, j: int| 0 <= i < shown.len() && 0 <= j < shown.len() && i != j implies
        shown[i] != shown[j] by {
        let a = if i < j {
            i
        } else {
            j
        };
        let b = if i < j {
            j
        } else {
            i
        };
        assert(shown[a] == s[a] && shown[b] == s[b]);
        if args.sort is Some {
            lemma_by_column_order(rows, at, args.sort->0@, args.desc, a, b);
        } else {
            assert(at[a] < at[b]);
        }
    }
}

/// What the window shows at a place comes before every other security that is
/// wanted and not shown earlier, be it shown further down or left out. Without a
/// column to sort by that is one further down the list. With one, it is a
/// security without a figure there; or one with a greater figure, or for a
/// descending order a smaller one; or one with the same figure, or both without,
/// further down the list, or for a descending order further up.
pub proof fn law_the_window_shows_the_first_in_order(
    rows: Seq<MarketRow>,
    args: MarketArgs,
    conds: Seq<Cond>,
    i: int,
    p: usize,
)
    requires
        rows.len() <= usize::MAX,
        sortable(rows, args.sort),
        0 <= i < windowed(rows, args, conds).len(),
        p < rows.len(),
        of_board(rows[p as int].code@, opt_text(args.market)),
        forall|k: int| 0 <= k < conds.len() ==> meets(rows[p as int], #[trigger] conds[k]),
        forall|k: int| 0 <= k <= i ==> #[trigger] windowed(rows, args, conds)[k] != p,
    ensures
        ({
            let a = windowed(rows, args, conds)[i];
            match args.sort {
                None => a < p,
                Some(col) => {
                    let m = rows[a as int].metrics@;
                    let n = rows[p as int].metrics@;
                    &&& n.contains_key(col@) ==> m.contains_key(col@)
                    &&& m.contains_key(col@) && n.contains_key(col@) ==> {
                        ||| !args.desc && compares(m[col@], Op::Lt, n[col@])
                        ||| args.desc && compares(m[col@], Op::Gt, n[col@])
                        ||| compares(m[col@], Op::Eq, n[col@]) && (if args.desc {
                            a > p
                        } else {
                            a < p
                        })
                    }
                    &&& !m.contains_key(col@) && !n.contains_key(col@) ==> if args.desc {
                        a > p
                    } else {
                        a < p
                    }
                },
            }
        }),
{
    let market = opt_text(args.market);
    let at = kept(rows, market, conds);
    let shown = windowed(rows, args, conds);
    lemma_kept(rows, market, conds, p);
    let s = match args.sort {
        Some(col) => by_column(rows, at, col@, args.desc),
        None => at,
    };
    if args.sort is Some {
        lemma_by_column_contains(rows, at, args.sort->0@, args.desc, p);
    }
    assert(s.contains(p));
    let j = choose|j: int| 0 <= j < s.len() && s[j] == p;
    assert(shown[i] == s[i]);
    if j <= i {
        assert(shown[j] == s[j]);
    }
    if args.sort is Some {
        lemma_by_column_order(rows, at, args.sort->0@, args.desc, i, j);
        let a = shown[i];
        lemma_kept(rows, market, conds, a);
        lemma_by_column_contains(rows, at, args.sort->0@, args.desc, a);
        assert(s.contains(s[i]));
        assert(a < rows.len());
    }
}

// ---------------------------------------------------------------------------
// Columns
// ---------------------------------------------------------------------------

/// The columns that are named: shown ones, the one that is sorted by, those of
/// the conditions.
pub open spec fn named_columns(args: MarketArgs, conds: Seq<Cond>) -> Seq<Seq<char>> {
    views(args.show@) + (match args.sort {
        Some(s) => seq![s@],
        None => Seq::empty(),
    }) + conds.map_values(|c: Cond| c.metric@)
}

/// Every column that is to be shown, that is sorted by or that a condition is on
/// is printed, once, and no other is; the shown ones come first.
pub proof fn law_named_columns_are_printed_once(args: MarketArgs, conds: Seq<Cond>, c: Seq<char>)
    ensures
        distinct(named_columns(args, conds)).contains(c) <==> {
            ||| exists|i: int| 0 <= i < args.show@.len() && (#[trigger] args.show@[i])@ == c
            ||| args.sort matches Some(s) && s@ == c
            ||| exists|i: int| 0 <= i < conds.len() && (#[trigger] conds[i]).metric@ == c
        },
        distinct(named_columns(args, conds)).no_duplicates(),
        distinct(views(args.show@)).is_prefix_of(distinct(named_columns(args, conds))),
{
    let named = named_columns(args, conds);
    let shown = args.show@.len();
    let sorted: nat = if args.sort is Some {
        1
    } else {
        0
    };
    law_distinct_keeps_each_text_once(named, shown as int);
    assert(named.take(shown as int) =~= views(args.show@));
    if exists|i: int| 0 <= i < args.show@.len() && (#[trigger] args.show@[i])@ == c {
        let i = choose|i: int| 0 <= i < args.show@.len() && (#[trigger] args.show@[i])@ == c;
        assert(named[i] == c);
    }
    if args.sort is Some {
        assert(named[shown as int] == args.sort->0@);
    }
    if exists|i: int| 0 <= i < conds.len() && (#[trigger] conds[i]).metric@ == c {
        let i = choose|i: int| 0 <= i < conds.len() && (#[trigger] conds[i]).metric@ == c;
        assert(named[shown + sorted + i] == c);
    }
    if named.contains(c) {
        let i = choose|i: int| 0 <= i < named.len() && named[i] == c;
        if i < shown {
            assert(args.show@[i]@ == c);
        } else if i >= shown + sorted {
            assert(conds[i - shown - sorted].metric@ == c);
        }
    }
}

/// The columns that are printed when none is named.
pub open spec fn default_columns() -> Seq<Seq<char>> {
    seq![
        "TOTAL_OPERATE_INCOME"@,
        "PARENT_NETPROFIT"@,
        "WEIGHTAVG_ROE"@,
        "BASIC_EPS"@,
    ]
}

/// The columns to print: those that are named, each once; if none is, the
/// default ones.
pub fn printed_columns(args: &MarketArgs, conds: &Vec<Cond>) -> (out: Vec<String>)
    ensures
        views(out@) == (if named_columns(*args, conds@).len() == 0 {
            default_columns()
        } else {
            distinct(named_columns(*args, conds@))
        }),
{
    let mut want: Vec<String> = copy_strings(&args.show);
    let ghost shown = views(want@);
    if let Some(s) = &args.sort {
        want.push(s.clone());
        proof {
            assert(views(want@) =~= shown + seq![s@]);
        }
    }
    let ghost base = views(want@);
    let mut i: usize = 0;
    while i < conds.len()
        invariant
            i <= conds@.len(),
            views(want@) == base + conds@.take(i as int).map_values(|c: Cond| c.metric@),
        decreases conds@.len() - i,
    {
        let ghost before = views(want@);
        want.push(conds[i].metric.clone());
        proof {
            assert(views(want@) =~= before.push(conds@[i as int].metric@));
            assert(conds@.take(i as int + 1).map_values(|c: Cond| c.metric@) =~= conds@.take(
                i as int,
            ).map_values(|c: Cond| c.metric@).push(conds@[i as int].metric@));
            assert(views(want@) =~= base + conds@.take(i as int + 1).map_values(
                |c: Cond| c.metric@,
            ));
        }
        i = i + 1;
    }
    proof {
        assert(conds@.take(conds@.len() as int) =~= conds@);
        assert(views(want@) =~= named_columns(*args, conds@));
    }
    if want.len() == 0 {
        let mut out: Vec<String> = Vec::new();
        out.push("TOTAL_OPERATE_INCOME".to_owned());
        out.push("PARENT_NETPROFIT".to_owned());
        out.push("WEIGHTAVG_ROE".to_owned());
        out.push("BASIC_EPS".to_owned());
        proof {
            assert(views(out@) =~= default_columns());
        }
        return out;
    }
    let ghost v = views(want@);
    let mut out: Vec<String> = Vec::new();
    let mut k: usize = 0;
    proof {
        assert(v.take(0) =~= Seq::empty());
        assert(views(out@) =~= Seq::empty());
    }
    while k < want.len()
        invariant
            k <= want@.len(),
            v == views(want@),
            views(out@) == distinct(v.take(k as int)),
        decreases want@.len() - k,
    {
        proof {
            let t = v.take(k as int + 1);
            assert(t.drop_last() =~= v.take(k as int));
            assert(t.last() == want@[k as int]@);
        }
        push_distinct(&mut out, want[k].as_str());
        k = k + 1;
    }
    proof {
        assert(v.take(v.len() as int) =~= v);
    }
    out
}

/// The header of the printout: code, name and the columns.
pub fn header(cols: &Vec<String>) -> (out: Vec<String>)
    ensures
        views(out@) == seq!["code"@, "name"@] + views(cols@),
{
    let mut out: Vec<String> = Vec::new();
    out.push("code".to_owned());
    out.push("name".to_owned());
    let mut rest = copy_strings(cols);
    let ghost r = views(rest@);
    out.append(&mut rest);
    proof {
        assert(views(out@) =~= seq!["code"@, "name"@] + r);
    }
    out
}

// ---------------------------------------------------------------------------
// The store
// ---------------------------------------------------------------------------

/// The warning after figures were to be stored, if there is one. The result
/// says whether the store could be had.
pub fn ingest_warning(stored: &Result<bool, SiftError>) -> (r: Option<String>)
    ensures
        match *stored {
            Ok(true) => r is None,
            Ok(false) => r matches Some(t) && t@
                == "[warn] 事实库不可用，跳过入库（不影响输出）"@,
            Err(e) => r matches Some(t) && t@
                == "[warn] facts 入库失败（不影响输出）: "@ + e@.message(),
        },
{
    match stored {
        Ok(true) => None,
        Ok(false) => Some("[warn] 事实库不可用，跳过入库（不影响输出）".to_owned()),
        Err(e) => Some(
            concat2("[warn] facts 入库失败（不影响输出）: ", e.message().as_str()),
        ),
    }
}

/// The warning for a period whose figures are not stored: one that is not a
/// standard report period.
pub fn period_warning(period: Period) -> (r: Option<&'static str>)
    ensures
        match r {
            None => period.shape() is Some,
            Some(t) => period.shape() is None && t@ == "[warn] 非标准报告期，跳过入库"@,
        },
{
    match period.period_type() {
        Some(_) => None,
        None => Some("[warn] 非标准报告期，跳过入库"),
    }
}

} // verus!
