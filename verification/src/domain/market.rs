//! Markets, boards and the board that a code belongs to.

use vstd::prelude::*;
use vstd::string::*;
use vstd::utf8::*;

use crate::text::{all_digits, chars_of, is_digit, only_digits, starts_with};

verus! {

/// The markets, in the order in which rows are listed.
#[derive(Debug, Clone, Copy, PartialEq, Eq, PartialOrd, Ord, Hash, Structural)]
pub enum Market {
    /// CN A-share: Shanghai, Shenzhen and Beijing, B-shares included.
    CnA,
    /// Hong Kong, main board and GEM alike.
    Hk,
    /// United States; no symbol text resolves to it.
    Us,
}

/// What an instrument is.
#[derive(Debug, Clone, Copy, PartialEq, Eq, Hash, Structural)]
pub enum InstrumentKind {
    Equity,
    Index,
}

impl Market {
    /// The place of a market in listings: CN-A, then HK, then US.
    pub open spec fn rank(self) -> int {
        match self {
            Market::CnA => 0,
            Market::Hk => 1,
            Market::Us => 2,
        }
    }

    pub open spec fn lower_label(self) -> Seq<char> {
        match self {
            Market::CnA => "cn-a"@,
            Market::Hk => "hk"@,
            Market::Us => "us"@,
        }
    }

    pub open spec fn upper_label(self) -> Seq<char> {
        match self {
            Market::CnA => "CN-A"@,
            Market::Hk => "HK"@,
            Market::Us => "US"@,
        }
    }

    /// The name of the variant, as `Debug` writes it.
    pub open spec fn variant_name(self) -> Seq<char> {
        match self {
            Market::CnA => "CnA"@,
            Market::Hk => "Hk"@,
            Market::Us => "Us"@,
        }
    }

    /// The label for machines.
    pub fn as_lower(self) -> (out: &'static str)
        ensures
            out@ == self.lower_label(),
    {
        match self {
            Market::CnA => "cn-a",
            Market::Hk => "hk",
            Market::Us => "us",
        }
    }

    /// The label for people.
    pub fn as_upper(self) -> (out: &'static str)
        ensures
            out@ == self.upper_label(),
    {
        match self {
            Market::CnA => "CN-A",
            Market::Hk => "HK",
            Market::Us => "US",
        }
    }

    /// The name of the variant.
    pub fn name(self) -> (out: &'static str)
        ensures
            out@ == self.variant_name(),
    {
        match self {
            Market::CnA => "CnA",
            Market::Hk => "Hk",
            Market::Us => "Us",
        }
    }

    /// The place of the market in listings.
    pub fn position(self) -> (out: u8)
        ensures
            out == self.rank(),
    {
        match self {
            Market::CnA => 0,
            Market::Hk => 1,
            Market::Us => 2,
        }
    }
}

/// The boards of the CN A-share market.
#[derive(Debug, Clone, Copy, PartialEq, Eq, Structural)]
pub enum Board {
    ShMain,
    ShStar,
    SzMain,
    SzSme,
    SzGem,
    BShare,
    BjMain,
}

impl Board {
    pub open spec fn label(self) -> Seq<char> {
        match self {
            Board::ShMain => "sh-main"@,
            Board::ShStar => "sh-star"@,
            Board::SzMain => "sz-main"@,
            Board::SzSme => "sz-sme"@,
            Board::SzGem => "sz-gem"@,
            Board::BShare => "b-share"@,
            Board::BjMain => "bj-main"@,
        }
    }

    /// The label in every output format.
    pub fn as_str(self) -> (out: &'static str)
        ensures
            out@ == self.label(),
    {
        match self {
            Board::ShMain => "sh-main",
            Board::ShStar => "sh-star",
            Board::SzMain => "sz-main",
            Board::SzSme => "sz-sme",
            Board::SzGem => "sz-gem",
            Board::BShare => "b-share",
            Board::BjMain => "bj-main",
        }
    }
}

/// `code` begins with `prefix`.
pub open spec fn begins(code: Seq<char>, prefix: &str) -> bool {
    prefix@.is_prefix_of(code)
}

/// Five digits: a Hong Kong code.
pub open spec fn is_hk_code(code: Seq<char>) -> bool {
    code.len() == 5 && all_digits(code)
}

/// The board of a code: by its first three characters, with the six-byte codes
/// that begin with 8 in Beijing. Hong Kong codes have none.
pub open spec fn board_of(code: Seq<char>) -> Option<Board> {
    if is_hk_code(code) || !is_char_boundary(encode_utf8(code), 3) {
        None
    } else if begins(code, "600") || begins(code, "601") || begins(code, "603") || begins(
        code,
        "605",
    ) {
        Some(Board::ShMain)
    } else if begins(code, "688") || begins(code, "689") {
        Some(Board::ShStar)
    } else if begins(code, "000") || begins(code, "001") || begins(code, "003") {
        Some(Board::SzMain)
    } else if begins(code, "002") {
        Some(Board::SzSme)
    } else if begins(code, "300") || begins(code, "301") {
        Some(Board::SzGem)
    } else if begins(code, "200") || begins(code, "900") {
        Some(Board::BShare)
    } else if begins(code, "430") || begins(code, "920") {
        Some(Board::BjMain)
    } else if encode_utf8(code).len() == 6 && begins(code, "8") {
        Some(Board::BjMain)
    } else {
        None
    }
}

/// The board that `code` belongs to, if its prefix tells.
pub fn infer_board(code: &str) -> (out: Option<Board>)
    ensures
        out == board_of(code@),
{
    let chars = chars_of(code);
    if chars.len() == 5 && only_digits(&chars) {
        return None;
    }
    if !code.is_char_boundary(3) {
        return None;
    }
    if starts_with(code, "600") || starts_with(code, "601") || starts_with(code, "603")
        || starts_with(code, "605") {
        Some(Board::ShMain)
    } else if starts_with(code, "688") || starts_with(code, "689") {
        Some(Board::ShStar)
    } else if starts_with(code, "000") || starts_with(code, "001") || starts_with(code, "003") {
        Some(Board::SzMain)
    } else if starts_with(code, "002") {
        Some(Board::SzSme)
    } else if starts_with(code, "300") || starts_with(code, "301") {
        Some(Board::SzGem)
    } else if starts_with(code, "200") || starts_with(code, "900") {
        Some(Board::BShare)
    } else if starts_with(code, "430") || starts_with(code, "920") {
        Some(Board::BjMain)
    } else if code.as_bytes().len() == 6 && starts_with(code, "8") {
        Some(Board::BjMain)
    } else {
        None
    }
}

/// Digits take one byte each, and a character begins at each of them.
proof fn lemma_digit_bytes(code: Seq<char>, k: int)
    requires
        all_digits(code),
        0 <= k <= code.len(),
    ensures
        encode_utf8(code).len() == code.len(),
        is_char_boundary(encode_utf8(code), k),
    decreases code.len(),
{
    encode_utf8_valid_utf8(code);
    if code.len() > 0 {
        let d = code.drop_first();
        let bytes = encode_utf8(code);
        assert(is_digit(code[0]));
        assert forall|i: int| 0 <= i < d.len() implies is_digit(#[trigger] d[i]) by {
            assert(is_digit(code[i + 1]));
        }
        assert(has_width_1_encoding(code[0] as u32));
        encode_utf8_first_scalar(code);
        assert(pop_first_scalar(bytes) =~= encode_utf8(d));
        lemma_digit_bytes(d, if k > 0 {
            k - 1
        } else {
            0
        });
    }
}

/// The first three digits of a code of six tell its board; five digits are of
/// Hong Kong and have none.
pub proof fn law_the_first_digits_tell_the_board(code: Seq<char>)
    requires
        all_digits(code),
        code.len() == 5 || code.len() == 6,
    ensures
        code.len() == 5 ==> board_of(code) is None,
        code.len() == 6 ==> {
            let a = code[0];
            let b = code[1];
            let c = code[2];
            &&& board_of(code) == Some(Board::ShMain) <==> a == '6' && b == '0' && (c == '0' || c
                == '1' || c == '3' || c == '5')
            &&& board_of(code) == Some(Board::ShStar) <==> a == '6' && b == '8' && (c == '8' || c
                == '9')
            &&& board_of(code) == Some(Board::SzMain) <==> a == '0' && b == '0' && (c == '0' || c
                == '1' || c == '3')
            &&& board_of(code) == Some(Board::SzSme) <==> a == '0' && b == '0' && c == '2'
            &&& board_of(code) == Some(Board::SzGem) <==> a == '3' && b == '0' && (c == '0' || c
                == '1')
            &&& board_of(code) == Some(Board::BShare) <==> (a == '2' || a == '9') && b == '0' && c
                == '0'
            &&& board_of(code) == Some(Board::BjMain) <==> a == '8' || a == '4' && b == '3' && c
                == '0' || a == '9' && b == '2' && c == '0'
        },
{
    lemma_digit_bytes(code, 3);
    reveal_strlit("600");
    lemma_three(code, "600", '6', '0', '0');
    reveal_strlit("601");
    lemma_three(code, "601", '6', '0', '1');
    reveal_strlit("603");
    lemma_three(code, "603", '6', '0', '3');
    reveal_strlit("605");
    lemma_three(code, "605", '6', '0', '5');
    reveal_strlit("688");
    lemma_three(code, "688", '6', '8', '8');
    reveal_strlit("689");
    lemma_three(code, "689", '6', '8', '9');
    reveal_strlit("000");
    lemma_three(code, "000", '0', '0', '0');
    reveal_strlit("001");
    lemma_three(code, "001", '0', '0', '1');
    reveal_strlit("003");
    lemma_three(code, "003", '0', '0', '3');
    reveal_strlit("002");
    lemma_three(code, "002", '0', '0', '2');
    reveal_strlit("300");
    lemma_three(code, "300", '3', '0', '0');
    reveal_strlit("301");
    lemma_three(code, "301", '3', '0', '1');
    reveal_strlit("200");
    lemma_three(code, "200", '2', '0', '0');
    reveal_strlit("900");
    lemma_three(code, "900", '9', '0', '0');
    reveal_strlit("430");
    lemma_three(code, "430", '4', '3', '0');
    reveal_strlit("920");
    lemma_three(code, "920", '9', '2', '0');
    reveal_strlit("8");
    let first = code.subrange(0, 1);
    if begins(code, "8") {
        assert(first[0] == code[0]);
    } else if code[0] == '8' {
        assert(first =~= "8"@);
    }
}

/// How a code begins, character by character.
proof fn lemma_three(code: Seq<char>, prefix: &str, a: char, b: char, c: char)
    requires
        code.len() >= 3,
        prefix@.len() == 3 && prefix@[0] == a && prefix@[1] == b && prefix@[2] == c,
    ensures
        begins(code, prefix) <==> code[0] == a && code[1] == b && code[2] == c,
{
    let part = code.subrange(0, 3);
    if begins(code, prefix) {
        assert(prefix@ == part);
        assert(part[0] == code[0] && part[1] == code[1] && part[2] == code[2]);
    } else if code[0] == a && code[1] == b && code[2] == c {
        assert(part =~= prefix@);
    }
}

/// Of two different markets one is listed first: the mainland before all others,
/// the United States behind all others.
pub proof fn law_markets_are_listed_in_order(a: Market, b: Market)
    requires
        a != b,
    ensures
        a.rank() != b.rank(),
        a == Market::CnA ==> a.rank() < b.rank(),
        a == Market::Us ==> b.rank() < a.rank(),
{
}

} // verus!
