use sift::date::Date;
use sift::domain::announcement::{
    categories, lookup, lookup_by_key, validate_categories, AnnouncementRow, Category,
};
use sift::domain::bars;
use sift::domain::items_dict::{drain_unmapped, load_dict, record_unmapped, ItemsDict};
use sift::domain::market::{infer_board, Board, InstrumentKind, Market};
use sift::domain::period::{last_n_filed, most_recent_filed};
use sift::domain::quote::QuoteRow;
use sift::domain::single_quarter::SingleQuarter;
use sift::domain::{
    Amount, AuditStatus, FinancialRow, Period, PeriodType, Scope, SourceTag, Statement, Symbol,
    Unit,
};
use sift::error::SiftError;
use sift::text_map::TextSet;

fn date(y: i32, m: u8, d: u8) -> Date {
    Date::from_calendar_date(y, m, d).unwrap()
}

fn amount(x: f64) -> Amount {
    Amount { bits: x.to_bits() }
}

// ---- errors ---------------------------------------------------------------

#[test]
fn exit_code_matches_readme_table() {
    assert_eq!(SiftError::Internal("x".into()).exit_code(), 1);
    assert_eq!(SiftError::Parse("x".into()).exit_code(), 1);
    assert_eq!(SiftError::Io("x".into()).exit_code(), 1);
    assert_eq!(SiftError::NoApplicableSource("x".into()).exit_code(), 1);
    assert_eq!(SiftError::MissingOrgId("x".into()).exit_code(), 1);
    assert_eq!(SiftError::OcrTokenMissing.exit_code(), 1);
    assert_eq!(SiftError::BrokenPipe.exit_code(), 0);
    assert_eq!(SiftError::Network("x".into()).exit_code(), 3);
    assert_eq!(SiftError::AllSourcesFailed(vec![("a".into(), "x".into())]).exit_code(), 3);
    assert_eq!(SiftError::NotFound("x".into()).exit_code(), 4);
}

#[test]
fn all_sources_failed_display_includes_every_pair() {
    let e = SiftError::AllSourcesFailed(vec![
        ("eastmoney".into(), "HTTP 503".into()),
        ("sina".into(), "timeout".into()),
    ]);
    let s = e.message();
    assert!(s.contains("eastmoney"), "got: {s}");
    assert!(s.contains("HTTP 503"), "got: {s}");
    assert!(s.contains("sina"), "got: {s}");
    assert!(s.contains("timeout"), "got: {s}");
}

#[test]
fn parse_display() {
    assert_eq!(SiftError::Parse("bad symbol".into()).message(), "parse error: bad symbol");
}

// ---- markets --------------------------------------------------------------

#[test]
fn market_label_pairs() {
    assert_eq!(Market::CnA.as_lower(), "cn-a");
    assert_eq!(Market::CnA.as_upper(), "CN-A");
    assert_eq!(Market::Hk.as_lower(), "hk");
    assert_eq!(Market::Hk.as_upper(), "HK");
    assert_eq!(Market::Us.as_lower(), "us");
    assert_eq!(Market::Us.as_upper(), "US");
}

#[test]
fn market_orders_cn_a_before_hk_before_us() {
    assert!(Market::CnA < Market::Hk);
    assert!(Market::Hk < Market::Us);
    let mut v = vec![Market::Us, Market::Hk, Market::CnA];
    v.sort();
    assert_eq!(v, vec![Market::CnA, Market::Hk, Market::Us]);
}

#[test]
fn board_label_table() {
    assert_eq!(Board::ShMain.as_str(), "sh-main");
    assert_eq!(Board::ShStar.as_str(), "sh-star");
    assert_eq!(Board::SzMain.as_str(), "sz-main");
    assert_eq!(Board::SzSme.as_str(), "sz-sme");
    assert_eq!(Board::SzGem.as_str(), "sz-gem");
    assert_eq!(Board::BShare.as_str(), "b-share");
    assert_eq!(Board::BjMain.as_str(), "bj-main");
}

#[test]
fn infer_board_covers_each_readme_row() {
    assert_eq!(infer_board("600519"), Some(Board::ShMain));
    assert_eq!(infer_board("601398"), Some(Board::ShMain));
    assert_eq!(infer_board("603259"), Some(Board::ShMain));
    assert_eq!(infer_board("605358"), Some(Board::ShMain));
    assert_eq!(infer_board("688123"), Some(Board::ShStar));
    assert_eq!(infer_board("689009"), Some(Board::ShStar));
    assert_eq!(infer_board("000001"), Some(Board::SzMain));
    assert_eq!(infer_board("001202"), Some(Board::SzMain));
    assert_eq!(infer_board("003816"), Some(Board::SzMain));
    assert_eq!(infer_board("002415"), Some(Board::SzSme));
    assert_eq!(infer_board("300750"), Some(Board::SzGem));
    assert_eq!(infer_board("301029"), Some(Board::SzGem));
    assert_eq!(infer_board("200012"), Some(Board::BShare));
    assert_eq!(infer_board("900901"), Some(Board::BShare));
    assert_eq!(infer_board("430510"), Some(Board::BjMain));
    assert_eq!(infer_board("920002"), Some(Board::BjMain));
    assert_eq!(infer_board("830799"), Some(Board::BjMain));
    assert_eq!(infer_board("870299"), Some(Board::BjMain));
}

#[test]
fn infer_board_unknown_prefix_is_none() {
    assert_eq!(infer_board("555555"), None);
    assert_eq!(infer_board("999999"), None);
    assert_eq!(infer_board("12"), None);
}

#[test]
fn five_digit_codes_have_no_board() {
    assert_eq!(infer_board("00700"), None);
    assert_eq!(infer_board("30000"), None);
}

// ---- symbols --------------------------------------------------------------

#[test]
fn bare_six_digit_is_cn_a_with_board() {
    let s = Symbol::parse("600519").unwrap();
    assert_eq!(s.code, "600519");
    assert_eq!(s.market, Market::CnA);
    assert_eq!(infer_board(&s.code), Some(Board::ShMain));
}

#[test]
fn bare_five_digit_is_hk_with_leading_zero_preserved() {
    let s = Symbol::parse("00700").unwrap();
    assert_eq!(s.code, "00700");
    assert_eq!(s.market, Market::Hk);
}

#[test]
fn dot_suffix_and_prefix_forms_are_equivalent() {
    let a = Symbol::parse("600519.SH").unwrap();
    let b = Symbol::parse("sh600519").unwrap();
    let c = Symbol::parse("SH600519").unwrap();
    let d = Symbol::parse("  600519.sh  ").unwrap();
    assert_eq!(a, b);
    assert_eq!(b, c);
    assert_eq!(c, d);
    assert_eq!(a.code, "600519");
    assert_eq!(a.market, Market::CnA);
}

#[test]
fn hk_dot_suffix() {
    let s = Symbol::parse("00700.HK").unwrap();
    assert_eq!(s.code, "00700");
    assert_eq!(s.market, Market::Hk);
}

#[test]
fn explicit_sh_prefix_on_000_segment_is_the_sh_index() {
    let s = Symbol::parse("sh000001").unwrap();
    assert_eq!(s.code, "000001");
    assert_eq!(s.market, Market::CnA);
    assert_eq!(s.kind, InstrumentKind::Index);
    assert_eq!(s.display_symbol(), "sh000001");
}

#[test]
fn explicit_sz_prefix_on_399_segment_is_the_sz_index() {
    let s = Symbol::parse("sz399001").unwrap();
    assert_eq!(s.kind, InstrumentKind::Index);
    assert_eq!(s.display_symbol(), "sz399001");
}

#[test]
fn explicit_sz_prefix_on_000_segment_stays_equity() {
    let s = Symbol::parse("sz000001").unwrap();
    assert_eq!(s.market, Market::CnA);
    assert_eq!(s.kind, InstrumentKind::Equity);
    assert_eq!(s.display_symbol(), "000001.CN-A");
}

#[test]
fn bare_000001_stays_equity_for_backward_compatibility() {
    let s = Symbol::parse("000001").unwrap();
    assert_eq!(s.kind, InstrumentKind::Equity);
}

#[test]
fn contradicting_prefix_and_segment_is_parse_error() {
    assert!(matches!(Symbol::parse("sz600519"), Err(SiftError::Parse(_))));
    assert!(matches!(Symbol::parse("sh399001"), Err(SiftError::Parse(_))));
    assert!(matches!(Symbol::parse("sz688123"), Err(SiftError::Parse(_))));
    assert!(matches!(Symbol::parse("sh300750"), Err(SiftError::Parse(_))));
}

#[test]
fn non_digit_input_is_parse_error() {
    assert!(matches!(Symbol::parse("abc"), Err(SiftError::Parse(_))));
    assert!(matches!(Symbol::parse("60051a"), Err(SiftError::Parse(_))));
}

#[test]
fn wrong_length_is_parse_error() {
    assert!(matches!(Symbol::parse("1234"), Err(SiftError::Parse(_))));
    assert!(matches!(Symbol::parse("1234567"), Err(SiftError::Parse(_))));
    assert!(matches!(Symbol::parse("   "), Err(SiftError::Parse(_))));
}

#[test]
fn unknown_suffix_is_parse_error() {
    assert!(matches!(Symbol::parse("600519.US"), Err(SiftError::Parse(_))));
}

#[test]
fn case_insensitive_suffix() {
    assert_eq!(Symbol::parse("00700.hk").unwrap(), Symbol::parse("00700.HK").unwrap());
}

// ---- periods --------------------------------------------------------------

#[test]
fn parse_suffix_forms_case_insensitive() {
    assert_eq!(Period::parse("2024A").unwrap(), Period::Annual(2024));
    assert_eq!(Period::parse("2024a").unwrap(), Period::Annual(2024));
    assert_eq!(Period::parse("2024Q4").unwrap(), Period::Annual(2024));
    assert_eq!(Period::parse("2024Q1").unwrap(), Period::Q1(2024));
    assert_eq!(Period::parse("2024q1").unwrap(), Period::Q1(2024));
    assert_eq!(Period::parse("2024Q2").unwrap(), Period::H1(2024));
    assert_eq!(Period::parse("2024H1").unwrap(), Period::H1(2024));
    assert_eq!(Period::parse("2024Q3").unwrap(), Period::Q3(2024));
}

#[test]
fn parse_iso_date_normalizes_aligned_ends() {
    assert_eq!(Period::parse("2024-12-31").unwrap(), Period::Annual(2024));
    assert_eq!(Period::parse("2024-06-30").unwrap(), Period::H1(2024));
    assert_eq!(Period::parse("2024-03-31").unwrap(), Period::Q1(2024));
    assert_eq!(Period::parse("2024-09-30").unwrap(), Period::Q3(2024));
}

#[test]
fn parse_iso_date_keeps_non_aligned_as_custom() {
    let parsed = Period::parse("2024-08-15").unwrap();
    match parsed {
        Period::Custom(d) => {
            assert_eq!(d.year, 2024);
            assert_eq!(d.month, 8);
            assert_eq!(d.day, 15);
        }
        other => panic!("expected Custom, got {other:?}"),
    }
}

#[test]
fn parse_bare_year_is_ambiguous() {
    let err = Period::parse("2024").unwrap_err();
    match err {
        SiftError::Parse(m) => assert!(m.contains("ambiguous"), "msg: {m}"),
        other => panic!("expected Parse, got {other:?}"),
    }
}

#[test]
fn parse_short_year_or_unknown_suffix_is_parse_error() {
    assert!(matches!(Period::parse("24Q1"), Err(SiftError::Parse(_))));
    assert!(matches!(Period::parse("2024X"), Err(SiftError::Parse(_))));
    assert!(matches!(Period::parse("2024Q5"), Err(SiftError::Parse(_))));
    assert!(matches!(Period::parse("abcd"), Err(SiftError::Parse(_))));
    assert!(matches!(Period::parse(""), Err(SiftError::Parse(_))));
}

#[test]
fn end_date_for_each_variant_2024() {
    assert_eq!(Period::Annual(2024).end_date(), date(2024, 12, 31));
    assert_eq!(Period::H1(2024).end_date(), date(2024, 6, 30));
    assert_eq!(Period::Q1(2024).end_date(), date(2024, 3, 31));
    assert_eq!(Period::Q3(2024).end_date(), date(2024, 9, 30));
}

#[test]
fn end_date_in_non_leap_year_is_identical_structurally() {
    for &y in &[2023i32, 2024, 2025] {
        assert_eq!(Period::Annual(y).end_date().year, y);
        assert_eq!(Period::Annual(y).end_date().day, 31);
    }
}

#[test]
fn from_date_type_code_maps_hk_codes() {
    let end = date(2024, 6, 30);
    assert_eq!(
        Period::from_date_type_code("001", date(2024, 12, 31)).unwrap(),
        Period::Annual(2024)
    );
    assert_eq!(Period::from_date_type_code("002", end).unwrap(), Period::H1(2024));
    assert_eq!(
        Period::from_date_type_code("003", date(2024, 3, 31)).unwrap(),
        Period::Q1(2024)
    );
    assert_eq!(
        Period::from_date_type_code("004", date(2024, 9, 30)).unwrap(),
        Period::Q3(2024)
    );
    assert!(matches!(Period::from_date_type_code("999", end), Err(SiftError::Parse(_))));
}

#[test]
fn period_type_for_aligned_custom_is_some() {
    let p = Period::Custom(date(2024, 6, 30));
    assert_eq!(p.period_type(), Some(PeriodType::H1));
}

#[test]
fn period_type_for_non_aligned_custom_is_none() {
    let p = Period::Custom(date(2024, 8, 15));
    assert_eq!(p.period_type(), None);
}

#[test]
fn period_type_as_str_table() {
    assert_eq!(PeriodType::Annual.as_str(), "annual");
    assert_eq!(PeriodType::H1.as_str(), "h1");
    assert_eq!(PeriodType::Q1.as_str(), "q1");
    assert_eq!(PeriodType::Q3.as_str(), "q3");
}

#[test]
fn previous_walks_backwards() {
    assert_eq!(Period::Annual(2025).previous(), Period::Q3(2025));
    assert_eq!(Period::Q3(2025).previous(), Period::H1(2025));
    assert_eq!(Period::H1(2025).previous(), Period::Q1(2025));
    assert_eq!(Period::Q1(2025).previous(), Period::Annual(2024));
}

#[test]
fn most_recent_filed_per_calendar_month() {
    let d = |m: u8, day: u8| date(2026, m, day);
    assert_eq!(most_recent_filed(d(5, 20)), Period::Q1(2026));
    assert_eq!(most_recent_filed(d(8, 31)), Period::Q1(2026));
    assert_eq!(most_recent_filed(d(9, 1)), Period::H1(2026));
    assert_eq!(most_recent_filed(d(10, 31)), Period::H1(2026));
    assert_eq!(most_recent_filed(d(11, 1)), Period::Q3(2026));
    assert_eq!(most_recent_filed(d(12, 31)), Period::Q3(2026));
    assert_eq!(most_recent_filed(d(1, 15)), Period::Q3(2025));
    assert_eq!(most_recent_filed(d(4, 30)), Period::Q3(2025));
}

#[test]
fn last_n_filed_returns_n_strictly_descending_periods() {
    let today = date(2026, 5, 20);
    let p = last_n_filed(today, 5);
    assert_eq!(p.len(), 5);
    assert_eq!(p[0], Period::Q1(2026));
    for w in p.windows(2) {
        assert!(w[1].end_date().is_before(w[0].end_date()), "{:?}", p);
    }
}

// ---- single quarters ------------------------------------------------------

fn quarter_row(item: &str, year: i32, pt: PeriodType, value: f64) -> FinancialRow {
    let (m, d) = match pt {
        PeriodType::Q1 => (3u8, 31u8),
        PeriodType::H1 => (6, 30),
        PeriodType::Q3 => (9, 30),
        PeriodType::Annual => (12, 31),
        PeriodType::Q2 => (6, 30),
        PeriodType::Q4 => (12, 31),
    };
    FinancialRow {
        symbol: Symbol {
            code: "600519".into(),
            market: Market::CnA,
            kind: InstrumentKind::Equity,
        },
        name: "贵州茅台".into(),
        period: date(year, m, d),
        period_type: pt,
        statement: Statement::Income,
        scope: Scope::Consolidated,
        item: item.into(),
        value: amount(value),
        unit: Unit::Raw,
        currency: "CNY".into(),
        publish_date: None,
        audit: AuditStatus::Unknown,
        source: SourceTag::EastMoney,
    }
}

fn single_value(s: &SingleQuarter) -> f64 {
    let own = f64::from_bits(s.row.value.bits);
    match s.less {
        Some(a) => own - f64::from_bits(a.bits),
        None => own,
    }
}

fn find(rows: &[SingleQuarter], pt: PeriodType) -> Option<&SingleQuarter> {
    rows.iter().find(|r| r.row.period_type == pt)
}

#[test]
fn q1_single_equals_q1_cumulative() {
    let (out, missing) = sift::domain::single_quarter::derive(vec![quarter_row("营收", 2024, PeriodType::Q1, 10.0)]);
    assert!(missing.is_empty());
    assert_eq!(out.len(), 1);
    assert_eq!(out[0].row.period_type, PeriodType::Q1);
    assert_eq!(single_value(&out[0]), 10.0);
}

#[test]
fn q2_q3_q4_are_adjacent_cumulative_diffs() {
    let (out, missing) = sift::domain::single_quarter::derive(vec![
        quarter_row("营收", 2024, PeriodType::Q1, 10.0),
        quarter_row("营收", 2024, PeriodType::H1, 25.0),
        quarter_row("营收", 2024, PeriodType::Q3, 45.0),
        quarter_row("营收", 2024, PeriodType::Annual, 70.0),
    ]);
    assert!(missing.is_empty(), "missing: {missing:?}");
    assert_eq!(single_value(find(&out, PeriodType::Q1).unwrap()), 10.0);
    assert_eq!(single_value(find(&out, PeriodType::Q2).unwrap()), 15.0);
    assert_eq!(single_value(find(&out, PeriodType::Q3).unwrap()), 20.0);
    assert_eq!(single_value(find(&out, PeriodType::Q4).unwrap()), 25.0);
    assert_eq!(find(&out, PeriodType::Q2).unwrap().row.period.month, 6);
}

#[test]
fn missing_intermediate_cumulative_flags_only_the_real_gap() {
    let (out, missing) = sift::domain::single_quarter::derive(vec![
        quarter_row("营收", 2024, PeriodType::Q1, 10.0),
        quarter_row("营收", 2024, PeriodType::Q3, 45.0),
    ]);
    assert_eq!(single_value(find(&out, PeriodType::Q1).unwrap()), 10.0);
    assert!(find(&out, PeriodType::Q2).is_none());
    assert!(find(&out, PeriodType::Q3).is_none());
    let quarters: Vec<u8> = missing.iter().map(|m| m.quarter).collect();
    assert_eq!(quarters, vec![3], "missing: {missing:?}");
}

#[test]
fn negative_single_quarter_is_passed_through() {
    let (out, _) = sift::domain::single_quarter::derive(vec![
        quarter_row("净利润", 2024, PeriodType::H1, 30.0),
        quarter_row("净利润", 2024, PeriodType::Q3, 20.0),
    ]);
    assert_eq!(single_value(find(&out, PeriodType::Q3).unwrap()), -10.0);
}

#[test]
fn multi_year_does_not_cross_years() {
    let (out, _) = sift::domain::single_quarter::derive(vec![
        quarter_row("营收", 2023, PeriodType::Q1, 8.0),
        quarter_row("营收", 2023, PeriodType::H1, 18.0),
        quarter_row("营收", 2024, PeriodType::Q1, 10.0),
        quarter_row("营收", 2024, PeriodType::H1, 25.0),
    ]);
    let q2_23 = out
        .iter()
        .find(|r| r.row.period.year == 2023 && r.row.period_type == PeriodType::Q2)
        .unwrap();
    let q2_24 = out
        .iter()
        .find(|r| r.row.period.year == 2024 && r.row.period_type == PeriodType::Q2)
        .unwrap();
    assert_eq!(single_value(q2_23), 10.0);
    assert_eq!(single_value(q2_24), 15.0);
}

// ---- rows -----------------------------------------------------------------

#[test]
fn the_order_of_rows_does_not_change_the_quarters() {
    let rows = || {
        vec![
            quarter_row("营收", 2024, PeriodType::Q1, 10.0),
            quarter_row("营收", 2024, PeriodType::H1, 25.0),
            quarter_row("净利", 2024, PeriodType::Q1, 1.0),
            quarter_row("营收", 2023, PeriodType::Annual, 90.0),
        ]
    };
    let mut backwards = rows();
    backwards.reverse();
    let (a, gaps_a) = sift::domain::single_quarter::derive(rows());
    let (b, gaps_b) = sift::domain::single_quarter::derive(backwards);
    assert_eq!(gaps_a, gaps_b);
    let shown = |v: &Vec<sift::domain::single_quarter::SingleQuarter>| -> Vec<(String, i32, u8)> {
        v.iter().map(|s| (s.row.item.clone(), s.row.period.year, s.row.period.month)).collect()
    };
    assert_eq!(shown(&a), shown(&b));
    let mut sorted = shown(&a);
    sorted.sort();
    assert_eq!(shown(&a), sorted);
    assert_eq!(a.len(), 3);
}

#[test]
fn statement_all_lists_four_in_order() {
    assert_eq!(
        Statement::ALL,
        [Statement::Income, Statement::Balance, Statement::Cashflow, Statement::Indicator]
    );
}

#[test]
fn statement_as_str_table() {
    assert_eq!(Statement::Income.as_str(), "income");
    assert_eq!(Statement::Balance.as_str(), "balance");
    assert_eq!(Statement::Cashflow.as_str(), "cashflow");
    assert_eq!(Statement::Indicator.as_str(), "indicator");
}

#[test]
fn scope_as_str_table() {
    assert_eq!(Scope::Consolidated.as_str(), "consolidated");
    assert_eq!(Scope::Parent.as_str(), "parent");
}

#[test]
fn unit_factor_and_label_table() {
    assert_eq!(Unit::Raw.factor() as f64, 1.0);
    assert_eq!(Unit::Wan.factor() as f64, 1e4);
    assert_eq!(Unit::Yi.factor() as f64, 1e8);
    assert_eq!(Unit::Raw.as_str(), "raw");
    assert_eq!(Unit::Wan.as_str(), "wan");
    assert_eq!(Unit::Yi.as_str(), "yi");
}

#[test]
fn audit_status_as_str_table() {
    assert_eq!(AuditStatus::Audited.as_str(), "audited");
    assert_eq!(AuditStatus::Unaudited.as_str(), "unaudited");
    assert_eq!(AuditStatus::Unknown.as_str(), "unknown");
}

#[test]
fn source_tag_as_str_table() {
    assert_eq!(SourceTag::EastMoney.as_str(), "eastmoney");
    assert_eq!(SourceTag::Sina.as_str(), "sina");
}

#[test]
fn source_tag_from_name_round_trips_through_as_str() {
    for t in SourceTag::ALL {
        assert_eq!(SourceTag::from_name(t.as_str()), Some(t));
    }
    assert_eq!(SourceTag::from_name("unknown"), None);
    assert_eq!(SourceTag::from_name(""), None);
}

#[test]
fn amounts_order_as_the_floats_they_stand_for() {
    let values = [-1e300, -2.5, -0.0, 0.0, 1e-300, 1.5, 7.0, f64::INFINITY];
    for a in values {
        for b in values {
            assert_eq!(a < b, amount(a).order_key() < amount(b).order_key(), "{a} {b}");
        }
        assert!(!amount(a).not_a_number());
    }
    assert!(amount(f64::NAN).not_a_number());
}

#[test]
fn adjust_as_str_matches_cli_literals() {
    assert_eq!(bars::Adjust::Unadjusted.as_str(), "none");
    assert_eq!(bars::Adjust::Pre.as_str(), "pre");
    assert_eq!(bars::Adjust::Post.as_str(), "post");
}

#[test]
fn period_as_str_matches_cli_literals() {
    assert_eq!(bars::Period::Daily.as_str(), "daily");
    assert_eq!(bars::Period::Weekly.as_str(), "weekly");
    assert_eq!(bars::Period::Monthly.as_str(), "monthly");
}

fn shown(x: f64) -> String {
    format!("{x:.2}")
}

fn sample_bar() -> bars::BarRow {
    bars::BarRow {
        symbol: "600519.CN-A".into(),
        date: "2026-05-14".into(),
        open: shown(1325.00),
        high: shown(1340.50),
        low: shown(1320.10),
        close: shown(1330.00),
        volume: 358_060_000,
        amount: shown(4_762_320_000.0),
        pct_change: shown(0.45),
        change: shown(5.95),
        amplitude_pct: shown(1.54),
        adjust: bars::Adjust::Pre,
        period: bars::Period::Daily,
        source: "tencent",
    }
}

#[test]
fn headers_are_fourteen_columns_in_readme_order() {
    let h = bars::BarRow::headers();
    assert_eq!(h.len(), 14);
    assert_eq!(h[0], "symbol");
    assert_eq!(h[1], "date");
    assert_eq!(h[2], "open");
    assert_eq!(h[5], "close");
    assert_eq!(h[11], "adjust");
    assert_eq!(h[12], "period");
    assert_eq!(h[13], "source");
    assert!(!h.contains(&"turnover_pct"));
}

#[test]
fn cells_match_headers_and_format() {
    let cells = sample_bar().cells();
    assert_eq!(cells.len(), bars::BarRow::headers().len());
    assert_eq!(cells[0], "600519.CN-A");
    assert_eq!(cells[1], "2026-05-14");
    assert_eq!(cells[2], "1325.00");
    assert_eq!(cells[5], "1330.00");
    assert_eq!(cells[6], "358060000");
    assert_eq!(cells[11], "pre");
    assert_eq!(cells[12], "daily");
    assert_eq!(cells[13], "tencent");
}

fn sample_quote() -> QuoteRow {
    QuoteRow {
        symbol: "600519.SH".into(),
        name: "贵州茅台".into(),
        price: shown(1323.59),
        change: shown(-7.10),
        pct_change: shown(-0.53),
        open: shown(1321.00),
        high: shown(1332.99),
        low: shown(1320.00),
        prev_close: shown(1330.69),
        volume: 1_267_432,
        amount: shown(1_680_717_318.0),
        time: "2026-05-20 15:00:00".into(),
        source: "eastmoney",
    }
}

#[test]
fn headers_are_thirteen_columns_in_readme_order() {
    let h = QuoteRow::headers();
    assert_eq!(h.len(), 13);
    assert_eq!(h[0], "symbol");
    assert_eq!(h[12], "source");
}

#[test]
fn cells_match_header_count_and_format() {
    let mut row = sample_quote();
    let cells = row.cells();
    assert_eq!(cells.len(), QuoteRow::headers().len());
    assert_eq!(cells[0], "600519.SH");
    assert_eq!(cells[2], "1323.59");
    assert_eq!(cells[3], "-7.10");
    assert_eq!(cells[9], "1267432");
    assert_eq!(cells[12], "eastmoney");
    row.volume = i64::MIN;
    assert_eq!(row.cells()[9], i64::MIN.to_string());
}

// ---- items ----------------------------------------------------------------

const ITEMS: &str = "# item | aliases\n\
    归母净利润 | PARENT_NETPROFIT | 归属于母公司股东的净利润 | 归属于母公司所有者的净利润\n\
    基本每股收益 | EPS\n";

fn dict() -> ItemsDict {
    load_dict(ITEMS).unwrap()
}

#[test]
fn shipped_dict_loads_without_dup_aliases() {
    let d = dict();
    assert!(d.lookup("归母净利润").is_some(), "shipped dict missing canonical entry");
}

#[test]
fn shipped_dict_resolves_eps_alias() {
    let d = dict();
    assert_eq!(d.lookup("EPS").map(|e| e.cn.as_str()), Some("基本每股收益"));
}

#[test]
fn lookup_resolves_chinese_english_and_synonyms_to_same_entry() {
    let d = dict();
    let by_cn = d.lookup("归母净利润").expect("cn lookup");
    let by_em = d.lookup("PARENT_NETPROFIT").expect("EM lookup");
    let by_sina_a = d.lookup("归属于母公司股东的净利润").expect("sina-style");
    let by_sina_b = d.lookup("归属于母公司所有者的净利润").expect("alt sina form");
    assert_eq!(by_cn.cn, "归母净利润");
    assert_eq!(by_em.cn, "归母净利润");
    assert_eq!(by_sina_a.cn, "归母净利润");
    assert_eq!(by_sina_b.cn, "归母净利润");
}

#[test]
fn lookup_returns_none_for_unknown_label() {
    let d = dict();
    assert!(d.lookup("THIS_IS_NOT_IN_THE_DICT_001").is_none());
}

#[test]
fn normalize_passes_unknown_through_and_records_it() {
    let mut unmapped = TextSet::new();
    let out = dict().normalize("UNMAPPED_LABEL_FOO", &mut unmapped);
    assert_eq!(out, "UNMAPPED_LABEL_FOO");
    let drained = drain_unmapped(&mut unmapped);
    assert_eq!(drained, vec!["UNMAPPED_LABEL_FOO"]);
}

#[test]
fn normalizing_twice_changes_nothing() {
    let mut unmapped = TextSet::new();
    for label in ["PARENT_NETPROFIT", "UNMAPPED_LABEL_FOO"] {
        let once = dict().normalize(label, &mut unmapped);
        assert_eq!(dict().normalize(&once, &mut unmapped), once);
    }
}

#[test]
fn normalize_maps_a_known_alias_and_records_nothing() {
    let mut unmapped = TextSet::new();
    let out = dict().normalize("PARENT_NETPROFIT", &mut unmapped);
    assert_eq!(out, "归母净利润");
    assert!(drain_unmapped(&mut unmapped).is_empty());
}

#[test]
fn record_unmapped_dedupes_and_sorts_on_drain() {
    let mut unmapped = TextSet::new();
    for _ in 0..3 {
        record_unmapped(&mut unmapped, "X");
    }
    record_unmapped(&mut unmapped, "Y");
    record_unmapped(&mut unmapped, "A");
    let v = drain_unmapped(&mut unmapped);
    assert_eq!(v, vec!["A".to_string(), "X".to_string(), "Y".to_string()]);
    assert!(drain_unmapped(&mut unmapped).is_empty());
}

#[test]
fn load_dict_skips_comments_and_blank_lines() {
    let text = "\
            # header comment\n\
            \n\
            A | EN_A\n\
              # indented comment\n\
            \n\
            B | EN_B\n\
        ";
    let d = load_dict(text).expect("parse");
    assert_eq!(d.lookup("A").unwrap().cn, "A");
    assert_eq!(d.lookup("EN_B").unwrap().cn, "B");
}

#[test]
fn load_dict_auto_includes_cn_in_aliases() {
    let text = "X | EN_X\n";
    let d = load_dict(text).expect("parse");
    assert_eq!(d.lookup("X").unwrap().cn, "X");
    assert_eq!(d.lookup("EN_X").unwrap().cn, "X");
}

#[test]
fn load_dict_allows_entry_with_only_cn() {
    let d = load_dict("孤立项\n").expect("parse");
    assert_eq!(d.lookup("孤立项").unwrap().cn, "孤立项");
}

#[test]
fn load_dict_dedupes_cn_when_repeated_in_aliases() {
    let d = load_dict("X | X | EN_X\n").expect("parse");
    assert_eq!(d.lookup("X").unwrap().cn, "X");
    assert_eq!(d.lookup("EN_X").unwrap().cn, "X");
}

#[test]
fn load_dict_rejects_duplicate_alias_across_entries() {
    let bad = "A | SHARED\nB | SHARED\n";
    let err = load_dict(bad).unwrap_err();
    assert!(err.contains("SHARED"), "err: {err}");
    assert!(err.contains("line 2"), "err should cite line 2: {err}");
}

#[test]
fn load_dict_rejects_empty_cn() {
    let err = load_dict(" | EN_X\n").unwrap_err();
    assert!(err.contains("empty cn"), "err: {err}");
}

#[test]
fn load_dict_rejects_empty_alias_field() {
    let err = load_dict("X | | EN_X\n").unwrap_err();
    assert!(err.contains("empty alias"), "err: {err}");
}

// ---- announcements --------------------------------------------------------

fn single(zh: &str, key: &str) -> Category {
    Category { zh: zh.into(), category: Some(key.into()), aggregates: None }
}

fn aggregate(zh: &str, of: &[&str]) -> Category {
    Category {
        zh: zh.into(),
        category: None,
        aggregates: Some(of.iter().map(|s| s.to_string()).collect()),
    }
}

fn known() -> Vec<Category> {
    categories(vec![
        single("年报", "category_ndbg_szsh"),
        single("半年报", "category_bndbg_szsh"),
        single("一季报", "category_yjdbg_szsh"),
        single("三季报", "category_sjdbg_szsh"),
        single("可转债", "category_kzzq_szsh"),
        aggregate("定期报告", &["年报", "半年报", "一季报", "三季报"]),
    ])
    .unwrap()
}

fn sample_row() -> AnnouncementRow {
    AnnouncementRow {
        id: "1219506510".into(),
        symbol: "600519.SH".into(),
        name: "贵州茅台".into(),
        date: date(2024, 4, 3),
        type_zh: "年报".into(),
        title: "贵州茅台2023年年度报告".into(),
        format: "pdf",
        size_kb: 3481,
        url: "http://static.cninfo.com.cn/finalpage/2024-04-03/1219506510.PDF".into(),
        source: "cninfo",
    }
}

#[test]
fn lookup_returns_exact_match_only() {
    let cats = known();
    assert!(lookup(&cats, "年报").is_some());
    assert!(lookup(&cats, "定期报告").is_some());
    assert!(lookup(&cats, "年").is_none());
    assert!(lookup(&cats, "annual").is_none());
    assert!(lookup(&cats, "").is_none());
}

#[test]
fn lookup_by_key_resolves_cninfo_column_id_to_zh() {
    let cats = known();
    let entry = lookup_by_key(&cats, "category_ndbg_szsh").expect("年报 entry");
    assert_eq!(entry.zh, "年报");
    let entry = lookup_by_key(&cats, "category_kzzq_szsh").expect("可转债 entry");
    assert_eq!(entry.zh, "可转债");
    assert!(lookup_by_key(&cats, "definitely_not_a_real_key").is_none());
    assert!(lookup_by_key(&cats, "").is_none());
}

#[test]
fn validate_rejects_aggregate_pointing_at_missing_zh() {
    let bad = vec![
        single("年报", "category_ndbg_szsh"),
        aggregate("定期报告", &["年报", "假报告"]),
    ];
    let err = validate_categories(&bad).unwrap_err();
    assert!(err.contains("假报告"), "err: {err}");
    assert!(err.contains("not found"), "err: {err}");
}

#[test]
fn validate_rejects_self_aggregating_entry() {
    let bad = vec![
        single("年报", "category_ndbg_szsh"),
        aggregate("定期报告", &["定期报告"]),
    ];
    assert!(validate_categories(&bad).unwrap_err().contains("aggregate itself"));
}

#[test]
fn validate_rejects_entry_with_both_category_and_aggregates() {
    let bad = vec![Category {
        zh: "年报".into(),
        category: Some("x".into()),
        aggregates: Some(vec!["y".into()]),
    }];
    assert!(validate_categories(&bad).unwrap_err().contains("both"));
}

#[test]
fn validate_rejects_entry_with_neither_field() {
    let bad = vec![Category { zh: "年报".into(), category: None, aggregates: None }];
    assert!(validate_categories(&bad).unwrap_err().contains("neither"));
}

#[test]
fn validate_rejects_duplicate_zh() {
    let bad = vec![single("年报", "x"), single("年报", "y")];
    assert!(validate_categories(&bad).unwrap_err().contains("duplicate"));
}

#[test]
fn categories_hands_back_what_is_valid_and_refuses_the_rest() {
    let good = categories(vec![single("年报", "x")]).unwrap();
    assert_eq!(good.len(), 1);
    assert_eq!(good[0].zh, "年报");
    assert!(categories(vec![single("年报", "x"), single("年报", "y")]).is_err());
}

#[test]
fn announcement_row_headers_match_readme_schema() {
    let h = AnnouncementRow::headers();
    assert_eq!(
        h,
        vec![
            "id", "symbol", "name", "date", "type", "title", "format", "size_kb", "url", "source",
        ]
    );
}

#[test]
fn announcement_row_cells_serialize_date_and_size() {
    let row = sample_row();
    let cells = row.cells();
    assert_eq!(cells.len(), 10);
    assert_eq!(cells[0], "1219506510");
    assert_eq!(cells[3], "2024-04-03");
    assert_eq!(cells[4], "年报");
    assert_eq!(cells[6], "pdf");
    assert_eq!(cells[7], "3481");
    assert_eq!(cells[9], "cninfo");
}

// ---- dates ----------------------------------------------------------------

#[test]
fn calendar_dates_and_their_distances() {
    assert_eq!(Date::from_calendar_date(2024, 2, 29), Some(Date { year: 2024, month: 2, day: 29 }));
    assert_eq!(Date::from_calendar_date(2023, 2, 29), None);
    assert_eq!(Date::from_calendar_date(2024, 13, 1), None);
    assert_eq!(Date::from_calendar_date(10_000, 1, 1), None);
    assert_eq!(date(2024, 3, 1).days_since(date(2024, 2, 1)), 29);
    assert_eq!(date(2024, 2, 1).days_since(date(2024, 3, 1)), -29);
    assert_eq!(date(2024, 3, 1).days_back(1), date(2024, 2, 29));
    assert_eq!(date(2024, 1, 1).days_back(365), date(2023, 1, 1));
    assert_eq!(date(-9999, 1, 2).days_back(5), date(-9999, 1, 1));
    assert_eq!(date(2024, 4, 3).to_iso(), "2024-04-03");
}

#[test]
fn one_day_has_one_number() {
    let epoch = date(1970, 1, 1);
    let mut seen: Vec<i64> = Vec::new();
    for year in [1900, 1999, 2000, 2023, 2024] {
        for month in 1..=12u8 {
            for day in 1..=31u8 {
                if let Some(d) = Date::from_calendar_date(year, month, day) {
                    seen.push(d.days_since(epoch));
                }
            }
        }
    }
    let n = seen.len();
    assert_eq!(n, 365 * 3 + 366 * 2);
    for w in seen.windows(2) {
        assert!(w[0] < w[1], "later days have larger numbers");
    }
}
