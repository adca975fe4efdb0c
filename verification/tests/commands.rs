use sift::cli::{ending, parse_user_format, Cli, Command, Format, SearchArgs};
use sift::commands::bars::{
    default_lookback_days, parse_iso_date, resolve_date_range, settle_bars, AdjustArg, BarsArgs,
    PeriodArg,
};
use sift::commands::extract::{
    auto_merge, auto_step, auto_verdict, fine_verdict, human_size, pages_opt_was_none,
    resolve_page_list, stdout_text, AutoStep, PageSpec,
};
use sift::commands::fact::{self, FactPlan, FactSetArgs};
use sift::commands::map::{MapPlan, MapSetArgs};
use sift::commands::market::{
    board_matches, cond_matches, header, market_period, parse_cond, period_warning,
    printed_columns, split_cond, window, Cond, MarketArgs, Op,
};
use sift::commands::metric::{self, BatchOutcome, MetricAddArgs, MetricPlan};
use sift::commands::quote::{quote_source, settle_quotes};
use sift::commands::report::{
    anchor_year, counts_allowed, expand_year_range, full_year_cumulative, parse_period_token,
    parse_positive_usize, parse_symbols, period_line, plan_periods, plan_statement, resolve_items,
    resolve_periods, settle_statement, unmatched_items, validate_indicator_market, validate_not_index,
    validate_qmode, validate_scope, warn_missing_single_quarters, warn_unmatched_items,
    PeriodsArgs, QModeArg, ScopeArg, SourceArg, StatementArgs, UnitArg,
};
use sift::commands::search::{find_matches, search, SearchHit};
use sift::commands::sql::{access, affected_line, SqlArgs};
use sift::commands::{bars as bars_cmd, market as market_cmd};
use sift::date::Date;
use sift::db::{config_error, on_open_failure, DuckAccess, OpenStep};
use sift::domain::bars;
use sift::domain::market::{Board, InstrumentKind, Market};
use sift::domain::single_quarter::Missing;
use sift::domain::{
    Amount, AuditStatus, FinancialRow, Period, PeriodType, Scope, SourceTag, Statement, Symbol,
    Unit,
};
use sift::error::SiftError;
use sift::fetch::extract::{FastOutput, FineOutcome};
use sift::fetch::report::PeriodEntry;
use sift::sources::cninfo::{CnInfoRow, StockLists};
use sift::sources::eastmoney_screen::MarketRow;
use sift::text_map::TextMap;

fn d(y: i32, m: u8, day: u8) -> Date {
    Date::from_calendar_date(y, m, day).unwrap()
}

fn amount(x: f64) -> Amount {
    Amount { bits: x.to_bits() }
}

fn equity(code: &str, market: Market) -> Symbol {
    Symbol { code: code.into(), market, kind: InstrumentKind::Equity }
}

// ---- the command line -----------------------------------------------------

#[test]
fn parse_user_format_accepts_tsv_and_json() {
    assert_eq!(parse_user_format("tsv").unwrap(), Format::Tsv);
    assert_eq!(parse_user_format("json").unwrap(), Format::Json);
}

#[test]
fn parse_user_format_rejects_table_with_omit_hint() {
    let err = parse_user_format("table").unwrap_err();
    assert!(err.contains("default"), "msg should explain why: {err}");
    assert!(err.contains("omit"), "msg should suggest action: {err}");
}

#[test]
fn parse_user_format_rejects_unknown_listing_expected_values() {
    let err = parse_user_format("xml").unwrap_err();
    assert!(err.contains("xml"), "msg should echo the bad value: {err}");
    assert!(err.contains("tsv"), "msg should list tsv: {err}");
    assert!(err.contains("json"), "msg should list json: {err}");
    assert_eq!(err, "unknown format \"xml\" — expected `tsv` or `json`");
}

#[test]
fn quoting_escapes_what_debug_escapes() {
    let err = parse_user_format("a\"\n").unwrap_err();
    assert_eq!(err, "unknown format \"a\\\"\\n\" — expected `tsv` or `json`");
}

#[test]
fn a_table_is_the_default() {
    let cli = |format| Cli {
        format,
        command: Command::Search(SearchArgs { query: "x".into(), limit: 10, no_cache: false }),
    };
    assert_eq!(cli(None).output_format(), Format::Table);
    assert_eq!(cli(Some(Format::Json)).output_format(), Format::Json);
}

#[test]
fn endings() {
    assert_eq!(ending(&Ok(())), (0, None));
    assert_eq!(ending(&Err(SiftError::BrokenPipe)), (0, None));
    assert_eq!(
        ending(&Err(SiftError::Parse("bad".into()))),
        (1, Some("sift: parse error: bad".to_string()))
    );
    assert_eq!(ending(&Err(SiftError::Network("x".into()))).0, 3);
    assert_eq!(ending(&Err(SiftError::NotFound("x".into()))).0, 4);
}

// ---- extract --------------------------------------------------------------

#[test]
fn human_size_picks_right_unit() {
    assert_eq!(human_size(0), "0 B");
    assert_eq!(human_size(512), "512 B");
    assert_eq!(human_size(2 * 1024), "2.0 KB");
    assert_eq!(human_size(3 * 1024 * 1024), "3.0 MB");
    assert_eq!(human_size(5 * 1024 * 1024 * 1024), "5.0 GB");
}

#[test]
fn human_size_rounds_to_one_place() {
    assert_eq!(human_size(1536), "1.5 KB");
    assert_eq!(human_size(1023), "1023 B");
    assert_eq!(human_size(1024 + 102), format!("{:.1} KB", (1024.0 + 102.0) / 1024.0));
    assert_eq!(human_size(1280), format!("{:.1} KB", 1280.0 / 1024.0));
    assert_eq!(human_size(1408), format!("{:.1} KB", 1408.0 / 1024.0));
}

#[test]
fn resolve_page_list_defaults_to_full_range() {
    assert_eq!(resolve_page_list(None, 3), vec![1, 2, 3]);
}

#[test]
fn resolve_page_list_uses_explicit_spec() {
    let spec = PageSpec::parse("2,4").unwrap();
    assert_eq!(resolve_page_list(Some(spec), 10), vec![2, 4]);
}

#[test]
fn pages_opt_was_none_detects_full_range() {
    assert!(pages_opt_was_none(&[1, 2, 3], 3));
    assert!(!pages_opt_was_none(&[1, 2], 3));
    assert!(!pages_opt_was_none(&[2, 3], 3));
}

#[test]
fn page_specs() {
    assert_eq!(PageSpec::parse("1-3,7").unwrap().0, vec![1, 2, 3, 7]);
    assert_eq!(PageSpec::parse("3,1,3").unwrap().0, vec![1, 3]);
    assert!(matches!(PageSpec::parse("5-2"), Err(SiftError::Parse(_))));
    assert!(matches!(PageSpec::parse("x"), Err(SiftError::Parse(_))));
    assert!(matches!(PageSpec::parse(""), Err(SiftError::Parse(_))));
}

fn outcome(failed: Vec<u32>, pages: Vec<(u32, String)>) -> FineOutcome {
    FineOutcome {
        pages,
        cached_n: 0,
        api_n: 0,
        batches: 1,
        failed,
        failure_reasons: vec!["boom".into()],
        backend: "paddleocr",
        eta_secs: 3,
    }
}

#[test]
fn auto_mode_escalates_scanned_pages_only() {
    let text = FastOutput { pages: vec!["a".into()], scanned: vec![] };
    assert!(matches!(auto_step(&text, true), Ok(AutoStep::TextOnly(_))));
    let scanned = FastOutput { pages: vec!["a".into(), "b".into()], scanned: vec![2] };
    match auto_step(&scanned, true) {
        Ok(AutoStep::Escalate(_, pages)) => assert_eq!(pages, vec![2]),
        other => panic!("expected an escalation, got {other:?}"),
    }
    match auto_step(&scanned, false) {
        Err(SiftError::Internal(m)) => {
            assert!(m.contains("1 scanned page(s) (2)"), "{m}");
            assert!(m.contains("not configured"), "{m}");
        }
        other => panic!("expected a refusal, got {other:?}"),
    }
}

#[test]
fn auto_mode_merges_by_page() {
    let merged = auto_merge(
        &[1, 2, 3],
        &vec!["one".into(), "two".into(), "three".into()],
        &vec![(2, "TWO".into())],
    );
    assert_eq!(merged, vec!["one", "TWO", "three"]);
}

#[test]
fn verdicts_on_failed_pages() {
    assert!(fine_verdict(&outcome(vec![], vec![(1, "x".into())])).is_ok());
    assert!(fine_verdict(&outcome(vec![1], vec![])).is_err());
    assert!(auto_verdict(&outcome(vec![], vec![(1, "x".into())]), 1).is_ok());
    assert!(auto_verdict(&outcome(vec![1], vec![]), 1).is_err());
}

#[test]
fn pages_are_written_with_blank_lines_between_them() {
    let text = stdout_text(&vec!["a".into(), "".into(), "b".into()]);
    assert_eq!(text, "a\n\nb\n");
    assert_eq!(stdout_text(&vec![]), "");
}

// ---- market ---------------------------------------------------------------

fn cond(s: &str) -> Result<Cond, SiftError> {
    let parts = split_cond(s)?;
    let value = parts.value.parse::<f64>().ok().map(amount);
    parse_cond(s, parts, value)
}

#[test]
fn parse_cond_handles_all_operators() {
    assert!(matches!(cond("WEIGHTAVG_ROE>15").unwrap().op, Op::Gt));
    assert!(matches!(cond("BPS>=1.5").unwrap().op, Op::Ge));
    assert!(matches!(cond("XSMLL<=30").unwrap().op, Op::Le));
    assert!(matches!(cond("X!=0").unwrap().op, Op::Ne));
    let c = cond("WEIGHTAVG_ROE >= 15.5").unwrap();
    assert_eq!(c.metric, "WEIGHTAVG_ROE");
    assert_eq!(c.val, amount(15.5));
    assert!(cond("garbage").is_err());
}

#[test]
fn conditions_without_a_number_are_refused() {
    assert!(matches!(cond("X>abc"), Err(SiftError::Parse(_))));
    assert!(cond("X<1").is_ok());
    assert!(matches!(cond("X<1").unwrap().op, Op::Lt));
    assert!(matches!(cond("X=1").unwrap().op, Op::Eq));
}

#[test]
fn board_matches_by_prefix() {
    assert!(board_matches("600519", Some("main")));
    assert!(board_matches("688981", Some("star")));
    assert!(!board_matches("600519", Some("star")));
    assert!(board_matches("300750", Some("gem")));
    assert!(board_matches("830799", Some("bj")));
    assert!(board_matches("600519", None));
    assert!(board_matches("600519", Some("a-share")));
}

fn market_args() -> MarketArgs {
    MarketArgs {
        period: None,
        wheres: vec![],
        sort: None,
        desc: false,
        limit: 50,
        market: None,
        show: vec![],
        no_cache: false,
        no_ingest: false,
    }
}

#[test]
fn default_columns_used_when_none_named() {
    assert_eq!(
        printed_columns(&market_args(), &vec![]),
        vec!["TOTAL_OPERATE_INCOME", "PARENT_NETPROFIT", "WEIGHTAVG_ROE", "BASIC_EPS"]
    );
    let mut named = market_args();
    named.show = vec!["BPS".into()];
    assert_eq!(printed_columns(&named, &vec![]), vec!["BPS"]);
}

#[test]
fn named_columns_come_once_each() {
    let mut args = market_args();
    args.sort = Some("X".into());
    args.show = vec!["Y".into(), "X".into()];
    let cols = printed_columns(&args, &vec![cond("X>1").unwrap(), cond("Z>1").unwrap()]);
    let mut sorted = cols.clone();
    sorted.sort();
    sorted.dedup();
    assert_eq!(sorted.len(), cols.len());
    assert!(cols.contains(&"X".to_string()) && cols.contains(&"Y".to_string()));
    assert!(cols.contains(&"Z".to_string()));
    let head = header(&cols);
    assert_eq!(head.len(), cols.len() + 2);
    assert_eq!(head[0], "code");
}

fn market_row(code: &str, metrics: &[(&str, f64)]) -> MarketRow {
    let mut m = TextMap::new();
    for (k, v) in metrics {
        m.insert(k.to_string(), amount(*v));
    }
    MarketRow {
        code: code.into(),
        name: code.into(),
        board_name: None,
        notice_date: None,
        metrics: m,
    }
}

#[test]
fn missing_figures_come_last_in_both_directions() {
    let rows = vec![
        market_row("1", &[("X", 2.0)]),
        market_row("2", &[]),
        market_row("3", &[("X", -1.0)]),
        market_row("4", &[("X", 5.0)]),
    ];
    let mut args = market_args();
    args.sort = Some("X".into());
    assert_eq!(window(&rows, &args, &vec![]), vec![2, 0, 3, 1]);
    args.desc = true;
    assert_eq!(window(&rows, &args, &vec![]), vec![3, 0, 2, 1]);
    args.limit = 2;
    assert_eq!(window(&rows, &args, &vec![]), vec![3, 0]);
}

#[test]
fn conditions_filter_rows() {
    let rows = vec![
        market_row("600001", &[("X", 2.0)]),
        market_row("300001", &[("X", 3.0)]),
        market_row("600002", &[]),
        market_row("600003", &[("X", 1.0)]),
    ];
    let conds = vec![cond("X>=2").unwrap()];
    assert_eq!(window(&rows, &market_args(), &conds), vec![0, 1]);
    let mut args = market_args();
    args.market = Some("main".into());
    assert_eq!(window(&rows, &args, &conds), vec![0]);
    assert!(cond_matches(&rows[0], &cond("X!=3").unwrap()));
    assert!(!cond_matches(&rows[2], &cond("X!=3").unwrap()));
    assert!(!cond_matches(&rows[0], &cond("X>NaN").unwrap()));
}

#[test]
fn market_periods() {
    let today = d(2026, 5, 20);
    assert_eq!(market_period(Some("2024A"), today).unwrap(), Period::Annual(2024));
    assert_eq!(market_period(None, today).unwrap(), Period::Q1(2026));
    assert!(market_period(Some("2024"), today).is_err());
    assert_eq!(period_warning(Period::Annual(2024)), None);
}

#[test]
fn ingest_failures_are_told() {
    assert_eq!(market_cmd::ingest_warning(&Ok(true)), None);
    let told = market_cmd::ingest_warning(&Err(SiftError::Io("disk".into()))).unwrap();
    assert!(told.starts_with("[warn]") && told.contains("disk"), "{told}");
}

// ---- report ---------------------------------------------------------------

#[test]
fn parse_positive_usize_rejects_zero_and_garbage() {
    assert_eq!(parse_positive_usize("4").unwrap(), 4);
    let err = parse_positive_usize("0").unwrap_err();
    assert!(err.contains("at least 1"), "err: {err}");
    assert!(parse_positive_usize("abc").is_err());
}

#[test]
fn numbers_that_do_not_read_are_told_as_the_parser_tells_them() {
    for text in ["abc", "99999999999999999999999", "", "-1"] {
        let why = text.parse::<usize>().unwrap_err();
        assert_eq!(
            parse_positive_usize(text).unwrap_err(),
            format!("invalid value {text:?}: {why}")
        );
    }
    assert_eq!(parse_positive_usize("+7").unwrap(), 7);
}

#[test]
fn expand_year_range_annual_vs_quarterly() {
    assert_eq!(
        expand_year_range(2023, 2025, true),
        vec![Period::Annual(2023), Period::Annual(2024), Period::Annual(2025)]
    );
    let q = expand_year_range(2024, 2024, false);
    assert_eq!(
        q,
        vec![Period::Q1(2024), Period::H1(2024), Period::Q3(2024), Period::Annual(2024)]
    );
    assert!(expand_year_range(2025, 2024, true).is_empty());
}

#[test]
fn anchor_year_annual_backs_off_to_latest_filed_annual() {
    assert_eq!(anchor_year(d(2026, 5, 20), true), 2025);
    assert_eq!(anchor_year(d(2026, 5, 20), false), 2026);
    assert_eq!(anchor_year(d(2026, 2, 10), true), 2024);
}

#[test]
fn parse_period_token_handles_bare_year_and_iso_and_suffix() {
    let four = parse_period_token("2024").unwrap();
    assert_eq!(four.len(), 4);
    assert_eq!(four[0], Period::Q1(2024));
    assert_eq!(four[3], Period::Annual(2024));
    let one = parse_period_token("2024A").unwrap();
    assert_eq!(one, vec![Period::Annual(2024)]);
    let iso = parse_period_token("2024-12-31").unwrap();
    assert_eq!(iso, vec![Period::Annual(2024)]);
    assert!(parse_period_token("soon").is_err());
}

#[test]
fn resolve_items_empty_means_no_filter() {
    let items = resolve_items(&[]);
    assert!(items.is_none());
}

#[test]
fn resolve_items_all_returns_no_filter() {
    let items = resolve_items(&["all".to_string()]);
    assert!(items.is_none());
}

#[test]
fn unmatched_items_flags_only_absent_tokens() {
    let blocks = vec![vec!["TOTAL_OPERATE_INCOME".to_string(), "BASIC_EPS".to_string()]];
    let filter = vec![
        "TOTAL_OPERATE_INCOME".to_string(),
        "ROE".to_string(),
        "BASIC_EPS".to_string(),
    ];
    let missing = unmatched_items(&filter, &blocks);
    assert_eq!(missing, vec!["ROE"]);
    let ok = vec!["BASIC_EPS".to_string()];
    assert!(unmatched_items(&ok, &blocks).is_empty());
    let told = warn_unmatched_items(Some(&filter), &blocks).unwrap();
    assert!(told.contains("ROE"), "{told}");
    assert_eq!(warn_unmatched_items(None, &blocks), None);
    assert_eq!(warn_unmatched_items(Some(&ok), &blocks), None);
}

#[test]
fn resolve_items_keeps_raw_tokens_trimmed() {
    let raw = vec![
        "PARENT_NETPROFIT".to_string(),
        "  TOTAL_OPERATE_INCOME  ".to_string(),
        "归属于母公司股东的净利润".to_string(),
    ];
    let items = resolve_items(&raw).unwrap();
    assert_eq!(items[0], "PARENT_NETPROFIT");
    assert_eq!(items[1], "TOTAL_OPERATE_INCOME");
    assert_eq!(items[2], "归属于母公司股东的净利润");
}

#[test]
fn validate_not_index_rejects_index_symbols() {
    let idx =
        vec![Symbol { code: "000001".into(), market: Market::CnA, kind: InstrumentKind::Index }];
    let err = validate_not_index(&idx).unwrap_err();
    assert!(matches!(err, SiftError::NoApplicableSource(_)));
    assert!(err.message().contains("sh000001"), "msg: {err:?}");
    validate_not_index(&[equity("600519", Market::CnA)]).unwrap();
}

#[test]
fn validate_indicator_market_rejects_hk_but_allows_a_share() {
    let hk = vec![equity("00700", Market::Hk)];
    let err = validate_indicator_market(Statement::Indicator, &hk).unwrap_err();
    assert!(matches!(err, SiftError::NoApplicableSource(_)));
    assert!(err.message().contains("income/balance/cashflow"), "msg: {err:?}");
    validate_indicator_market(Statement::Income, &hk).unwrap();
    let cn = vec![equity("600519", Market::CnA)];
    validate_indicator_market(Statement::Indicator, &cn).unwrap();
}

#[test]
fn validate_qmode_single_flow_only() {
    validate_qmode(QModeArg::Single, Statement::Income).unwrap();
    validate_qmode(QModeArg::Single, Statement::Cashflow).unwrap();
    for stmt in [Statement::Balance, Statement::Indicator] {
        let err = validate_qmode(QModeArg::Single, stmt).unwrap_err();
        assert!(matches!(err, SiftError::NoApplicableSource(_)));
        assert!(err.message().contains("income / cashflow"), "msg: {err:?}");
    }
    validate_qmode(QModeArg::Cumulative, Statement::Balance).unwrap();
}

#[test]
fn full_year_cumulative_expands_distinct_years_to_four_ends() {
    let got = full_year_cumulative(&[Period::Q3(2024), Period::Annual(2024), Period::Q1(2023)]);
    assert_eq!(
        got,
        vec![
            Period::Q1(2023),
            Period::H1(2023),
            Period::Q3(2023),
            Period::Annual(2023),
            Period::Q1(2024),
            Period::H1(2024),
            Period::Q3(2024),
            Period::Annual(2024),
        ]
    );
}

#[test]
fn validate_scope_rejects_parent_for_hk() {
    let hk = vec![equity("00700", Market::Hk)];
    let err = validate_scope(Scope::Parent, &hk).unwrap_err();
    assert!(matches!(err, SiftError::NoApplicableSource(_)));
}

#[test]
fn validate_scope_allows_parent_for_a_share() {
    let cn = vec![equity("600519", Market::CnA)];
    validate_scope(Scope::Parent, &cn).unwrap();
}

#[test]
fn source_arg_maps_to_registered_tags() {
    assert_eq!(SourceArg::Auto.as_source_tag(), None);
    assert_eq!(SourceArg::EastMoney.as_source_tag(), Some(SourceTag::EastMoney));
    assert_eq!(SourceArg::Sina.as_source_tag(), Some(SourceTag::Sina));
}

#[test]
fn source_arg_via_tag_round_trips_to_cli_name() {
    let cli = SourceArg::EastMoney;
    let tag = cli.as_source_tag().unwrap();
    assert_eq!(tag.as_str(), "eastmoney");
}

fn statement_args() -> StatementArgs {
    StatementArgs {
        symbols: vec!["600519".into()],
        period: vec![],
        last: None,
        years: None,
        start: None,
        end: None,
        annual: false,
        scope: ScopeArg::Consolidated,
        unit: UnitArg::Raw,
        items: vec![],
        source: SourceArg::Auto,
        qmode: QModeArg::Cumulative,
        no_cache: false,
        no_ingest: false,
    }
}

#[test]
fn counts_stay_within_the_years_there_are() {
    let today = d(2026, 5, 20);
    let mut args = statement_args();
    assert!(counts_allowed(&args, today));
    // From the first quarter of 2026 to that of the year -2147483648.
    args.last = Some(4 * (2026 + 2_147_483_648));
    assert!(counts_allowed(&args, today));
    args.last = Some(4 * (2026 + 2_147_483_648) + 1);
    assert!(!counts_allowed(&args, today));
    args.period = vec![vec![Period::Annual(2024)]];
    assert!(counts_allowed(&args, today));
    args.period = vec![];
    args.last = None;
    args.years = Some(2_147_483_647);
    assert!(counts_allowed(&args, today));
    args.years = Some(2_147_483_648);
    assert!(!counts_allowed(&args, today));
}

#[test]
fn periods_come_from_the_first_selector_that_is_given() {
    let today = d(2026, 5, 20);
    let mut args = statement_args();
    args.period = vec![vec![Period::Annual(2024)], vec![Period::Q1(2025)]];
    assert_eq!(resolve_periods(&args, today), vec![Period::Annual(2024), Period::Q1(2025)]);
    let mut args = statement_args();
    args.last = Some(2);
    assert_eq!(resolve_periods(&args, today), vec![Period::Q1(2026), Period::Annual(2025)]);
    let mut args = statement_args();
    args.years = Some(2);
    args.annual = true;
    assert_eq!(resolve_periods(&args, today), vec![Period::Annual(2024), Period::Annual(2025)]);
}

#[test]
fn statement_plans() {
    let today = d(2026, 5, 20);
    let plan = plan_statement(Statement::Income, &statement_args(), today).unwrap();
    assert_eq!(plan.symbols.len(), 1);
    assert_eq!(plan.symbols[0].0, "600519");
    assert_eq!(plan.symbols[0].1.as_ref().unwrap(), &equity("600519", Market::CnA));
    assert_eq!(plan.scope, Scope::Consolidated);
    assert_eq!(plan.unit, Unit::Raw);
    assert_eq!(plan.source, None);
    assert!(!plan.single);
    let mut single = statement_args();
    single.qmode = QModeArg::Single;
    single.period = vec![vec![Period::Q3(2024)]];
    single.source = SourceArg::Sina;
    let plan = plan_statement(Statement::Income, &single, today).unwrap();
    assert!(plan.single);
    assert_eq!(plan.source, Some("sina"));
    assert!(plan_statement(Statement::Balance, &single, today).is_err());
    let mut bad = statement_args();
    bad.symbols = vec!["sh000001".into()];
    assert!(plan_statement(Statement::Income, &bad, today).is_err());
    bad.symbols = vec!["x".into(), "600519".into()];
    let plan = plan_statement(Statement::Income, &bad, today).unwrap();
    assert!(matches!(plan.symbols[0], (_, Err(SiftError::Parse(_)))));
    assert!(plan.symbols[1].1.is_ok());
}

fn figure(code: &str, item: &str) -> FinancialRow {
    FinancialRow {
        symbol: equity(code, Market::CnA),
        name: "n".into(),
        period: d(2024, 12, 31),
        period_type: PeriodType::Annual,
        statement: Statement::Income,
        scope: Scope::Consolidated,
        item: item.into(),
        value: amount(1.0),
        unit: Unit::Raw,
        currency: "CNY".into(),
        publish_date: None,
        audit: AuditStatus::Unknown,
        source: SourceTag::Sina,
    }
}

#[test]
fn one_failing_symbol_does_not_sink_a_report() {
    let answers = vec![
        ("600519".to_string(), Ok(vec![figure("600519", "a"), figure("600519", "b")])),
        ("x".to_string(), Err(SiftError::NotFound("x".into()))),
        ("600036".to_string(), Ok(vec![figure("600036", "a")])),
    ];
    let (rows, warnings) = settle_statement(answers).unwrap();
    let shown: Vec<(&str, &str)> =
        rows.iter().map(|r| (r.symbol.code.as_str(), r.item.as_str())).collect();
    assert_eq!(shown, vec![("600519", "a"), ("600519", "b"), ("600036", "a")]);
    assert_eq!(warnings, vec!["[warn] report x: no match for query \"x\""]);
}

#[test]
fn a_report_fails_only_if_every_symbol_does() {
    let failing = || ("x".to_string(), Err(SiftError::NotFound("x".into())));
    match settle_statement(vec![failing(), failing()]).unwrap_err() {
        SiftError::AllSourcesFailed(v) => {
            assert_eq!(v.len(), 2);
            assert_eq!(v[0], ("report x".to_string(), "no match for query \"x\"".to_string()));
        }
        other => panic!("expected AllSourcesFailed, got {other:?}"),
    }
    assert!(matches!(settle_statement(vec![failing()]), Err(SiftError::NotFound(q)) if q == "x"));
    let (rows, warnings) = settle_statement(vec![("600519".to_string(), Ok(vec![]))]).unwrap();
    assert!(rows.is_empty() && warnings.is_empty());
    assert!(settle_statement(vec![]).is_ok());
}

#[test]
fn period_plans_and_lines() {
    let (sym, source) =
        plan_periods(&PeriodsArgs { symbol: "00700".into(), source: SourceArg::EastMoney }).unwrap();
    assert_eq!(sym, equity("00700", Market::Hk));
    assert_eq!(source, Some("eastmoney"));
    assert!(plan_periods(&PeriodsArgs { symbol: "sz399001".into(), source: SourceArg::Auto })
        .is_err());
    let line = period_line(&PeriodEntry {
        end: d(2024, 12, 31),
        period_type: PeriodType::Annual,
        source: "eastmoney".into(),
    });
    assert_eq!(line, "2024-12-31\tannual\teastmoney");
    let three = parse_symbols(&vec!["600519".into(), "x".into(), "00700".into()]);
    assert_eq!(three.len(), 3);
    assert_eq!(three[2].1.as_ref().unwrap(), &equity("00700", Market::Hk));
    assert!(three[1].1.is_err());
}

#[test]
fn gaps_are_told_up_to_six() {
    assert_eq!(warn_missing_single_quarters(&[]), None);
    let gap = |n: i32| Missing { item: "营收".into(), year: 2000 + n, quarter: 4 };
    let one = warn_missing_single_quarters(&[gap(1)]).unwrap();
    assert!(one.contains("营收 2001Q4"), "{one}");
    let many: Vec<Missing> = (1..=8).map(gap).collect();
    let told = warn_missing_single_quarters(&many).unwrap();
    assert!(told.contains("2006Q4") && !told.contains("2007Q4"), "{told}");
    assert!(told.ends_with(", +2 more"), "{told}");
}

// ---- search ---------------------------------------------------------------

fn row(code: &str, zwjc: &str, pinyin: &str, category: &str, org_id: &str) -> CnInfoRow {
    CnInfoRow {
        code: code.into(),
        zwjc: zwjc.into(),
        pinyin: pinyin.into(),
        category: category.into(),
        org_id: org_id.into(),
    }
}

fn lists() -> StockLists {
    StockLists {
        cn_a: vec![
            row("600519", "贵州茅台", "gzmt", "A股", "gssh0600519"),
            row("002013", "贵州轮胎", "gzlt", "A股", "gssz0002013"),
            row("000001", "平安银行", "payh", "A股", "gssz0000001"),
            row("601288", "农业银行", "nyyh", "A股", "gssh0601288"),
            row("601398", "工商银行", "gsyh", "A股", "gssh0601398"),
            row("688123", "聚辰股份", "jcgf", "A股", "gssh0688123"),
        ],
        hk: vec![
            row("00388", "香港交易所", "xgjys", "港股", "gshk00388"),
            row("00700", "腾讯控股", "txkg", "港股", "gshk00700"),
        ],
    }
}

#[test]
fn chinese_substring_matches_zwjc() {
    let hits = find_matches(&lists(), "茅台", 10);
    assert_eq!(hits.len(), 1);
    assert_eq!(hits[0].code, "600519");
    assert_eq!(hits[0].name, "贵州茅台");
    assert_eq!(hits[0].market, Market::CnA);
    assert_eq!(hits[0].board, Some(Board::ShMain));
}

#[test]
fn pinyin_initials_match_case_insensitively() {
    let hits = find_matches(&lists(), "gzmt", 10);
    assert_eq!(hits.len(), 1);
    assert_eq!(hits[0].code, "600519");
    let upper = find_matches(&lists(), "GZMT", 10);
    assert_eq!(upper, hits);
    let multi = find_matches(&lists(), "gz", 10);
    let codes: Vec<&str> = multi.iter().map(|h| h.code.as_str()).collect();
    assert!(codes.contains(&"600519"));
    assert!(codes.contains(&"002013"));
    assert_eq!(codes[0], "002013");
}

#[test]
fn code_exact_match_returns_single_row() {
    let hits = find_matches(&lists(), "600519", 10);
    assert_eq!(hits.len(), 1);
    assert_eq!(hits[0].code, "600519");
}

#[test]
fn code_substring_match() {
    let hits = find_matches(&lists(), "688", 10);
    assert_eq!(hits.len(), 1);
    assert_eq!(hits[0].code, "688123");
    assert_eq!(hits[0].board, Some(Board::ShStar));
}

#[test]
fn five_digit_hk_code_returns_none_board() {
    let hits = find_matches(&lists(), "00700", 10);
    assert_eq!(hits.len(), 1);
    assert_eq!(hits[0].code, "00700");
    assert_eq!(hits[0].market, Market::Hk);
    assert_eq!(hits[0].board, None);
}

#[test]
fn empty_or_whitespace_query_returns_empty() {
    assert!(find_matches(&lists(), "", 10).is_empty());
    assert!(find_matches(&lists(), "   ", 10).is_empty());
}

#[test]
fn no_match_returns_empty_vec() {
    assert!(find_matches(&lists(), "absolutely_not_present", 10).is_empty());
}

#[test]
fn sort_puts_a_share_before_hk_then_by_code() {
    let hits = find_matches(&lists(), "00", 10);
    let codes: Vec<&str> = hits.iter().map(|h| h.code.as_str()).collect();
    assert_eq!(codes, vec!["000001", "002013", "600519", "00388", "00700"]);
    let markets: Vec<Market> = hits.iter().map(|h| h.market).collect();
    assert_eq!(markets, vec![Market::CnA, Market::CnA, Market::CnA, Market::Hk, Market::Hk]);
}

#[test]
fn limit_truncates_after_sort() {
    let hits = find_matches(&lists(), "银行", 2);
    assert_eq!(hits.len(), 2);
    assert_eq!(hits[0].code, "000001");
    assert_eq!(hits[1].code, "601288");
}

#[test]
fn renders_typed_fields_correctly() {
    let hits = find_matches(&lists(), "茅台", 10);
    let cells = hits[0].cells();
    assert_eq!(cells[2], "CN-A");
    assert_eq!(cells[3], "sh-main");
    let hk = find_matches(&lists(), "00700", 10);
    let cells = hk[0].cells();
    assert_eq!(cells[2], "HK");
    assert_eq!(cells[3], "—");
    assert_eq!(SearchHit::headers().len(), cells.len());
}

#[test]
fn a_search_without_hits_is_not_found() {
    let args = |q: &str| SearchArgs { query: q.into(), limit: 10, no_cache: false };
    assert!(matches!(search(&lists(), &args("nothing at all")), Err(SiftError::NotFound(_))));
    assert_eq!(search(&lists(), &args("茅台")).unwrap().len(), 1);
}

// ---- bars and quotes ------------------------------------------------------

fn bars_args() -> BarsArgs {
    BarsArgs {
        symbols: vec!["600519".into()],
        start: None,
        end: None,
        limit: Some(1),
        adjust: AdjustArg::Pre,
        period: PeriodArg::Daily,
        source: bars_cmd::SourceArg::Tencent,
    }
}

#[test]
fn default_lookback_scales_with_period() {
    assert_eq!(default_lookback_days(bars::Period::Daily), 365);
    assert_eq!(default_lookback_days(bars::Period::Weekly), 365 * 5);
    assert_eq!(default_lookback_days(bars::Period::Monthly), 365 * 20);
}

#[test]
fn resolve_date_range_uses_period_specific_default() {
    let today = d(2026, 5, 20);
    for (period_arg, period) in [
        (PeriodArg::Daily, bars::Period::Daily),
        (PeriodArg::Weekly, bars::Period::Weekly),
        (PeriodArg::Monthly, bars::Period::Monthly),
    ] {
        let mut args = bars_args();
        args.limit = None;
        args.period = period_arg;
        let (start, end) = resolve_date_range(&args, today).unwrap();
        let s = start.expect("start defaulted");
        let e = end.expect("end defaulted");
        let span = e.days_since(s);
        assert_eq!(span, default_lookback_days(period) as i64, "{period:?}: span mismatch");
    }
}

#[test]
fn resolve_date_range_returns_none_when_limit_set() {
    let mut a = bars_args();
    a.limit = Some(20);
    a.period = PeriodArg::Monthly;
    let (s, e) = resolve_date_range(&a, d(2026, 5, 20)).unwrap();
    assert!(s.is_none());
    assert!(e.is_none());
}

#[test]
fn invalid_date_yields_parse_error() {
    let mut a = bars_args();
    a.limit = None;
    a.start = Some("2024-13-01".into());
    let err = resolve_date_range(&a, d(2026, 5, 20)).unwrap_err();
    assert!(matches!(err, SiftError::Parse(_)), "got {err:?}");
}

#[test]
fn iso_days_read_as_the_calendar_reads_them() {
    assert_eq!(parse_iso_date("2024-02-29").unwrap(), d(2024, 2, 29));
    assert!(parse_iso_date("2023-02-29").is_err());
    let mut a = bars_args();
    a.limit = None;
    a.start = Some("2024-01-02".into());
    a.end = Some("2024-03-04".into());
    assert_eq!(
        resolve_date_range(&a, d(2026, 5, 20)).unwrap(),
        (Some(d(2024, 1, 2)), Some(d(2024, 3, 4)))
    );
}

#[test]
fn bars_all_symbols_failing_yields_all_sources_failed() {
    let failures = vec![
        ("999999".to_string(), "not found: 999999".to_string()),
        ("999998".to_string(), "not found: 999998".to_string()),
    ];
    match settle_bars(2, failures).unwrap_err() {
        SiftError::AllSourcesFailed(v) => {
            assert_eq!(v.len(), 2);
            assert!(v[0].0.starts_with("bars "));
        }
        other => panic!("expected AllSourcesFailed, got {other:?}"),
    }
}

#[test]
fn partial_failure_returns_ok_with_successful_rows() {
    let failures = vec![("999999".to_string(), "not found: 999999".to_string())];
    let res = settle_bars(2, failures);
    assert!(res.is_ok(), "partial failure should still exit 0: {res:?}");
    assert_eq!(res.unwrap(), vec!["[warn] bars 999999: not found: 999999"]);
}

#[test]
fn a_symbol_without_rows_has_not_failed() {
    assert!(settle_bars(1, vec![]).unwrap().is_empty());
    assert!(settle_bars(0, vec![]).unwrap().is_empty());
    assert!(settle_quotes(1, vec![]).unwrap().is_empty());
}

#[test]
fn quote_all_symbols_failing_yields_all_sources_failed() {
    let failures = vec![
        ("999999".to_string(), "not found: 999999".to_string()),
        ("999998".to_string(), "not found: 999998".to_string()),
    ];
    match settle_quotes(2, failures).unwrap_err() {
        SiftError::AllSourcesFailed(v) => {
            assert_eq!(v.len(), 2);
            assert!(v[0].0.starts_with("quote "));
        }
        other => panic!("expected AllSourcesFailed, got {other:?}"),
    }
}

#[test]
fn partial_failure_returns_ok() {
    let failures = vec![("999999".to_string(), "not found: 999999".to_string())];
    let res = settle_quotes(2, failures);
    assert!(res.is_ok(), "partial failure should exit 0: {res:?}");
    assert_eq!(quote_source(), "eastmoney");
}

// ---- facts, metrics, mappings, SQL ----------------------------------------

fn fact_args() -> FactSetArgs {
    FactSetArgs {
        symbol: Some("600519".into()),
        period: Some("2024A".into()),
        key: Some("revenue".into()),
        value: Some("1".into()),
        source: "manual".into(),
        qmode: "cumulative".into(),
        scope: "consolidated".into(),
        currency: None,
        publish_date: None,
        skip_invalid: false,
    }
}

#[test]
fn facts_are_set_one_by_one_or_in_batches() {
    assert!(matches!(
        fact::plan_set(&fact_args(), true),
        Ok(FactPlan::One("600519", "2024A", "revenue", "1"))
    ));
    let mut a = fact_args();
    a.value = None;
    assert_eq!(
        fact::plan_set(&a, true).unwrap_err().message(),
        "parse error: --value is required with --symbol"
    );
    a.key = None;
    assert!(fact::plan_set(&a, true).unwrap_err().message().contains("--key"));
    a.period = None;
    assert!(fact::plan_set(&a, true).unwrap_err().message().contains("--period"));
    a.symbol = None;
    assert!(matches!(fact::plan_set(&a, true), Err(SiftError::Parse(_))));
    assert!(matches!(fact::plan_set(&a, false), Ok(FactPlan::Batch { atomic: true })));
    a.skip_invalid = true;
    assert!(matches!(fact::plan_set(&a, false), Ok(FactPlan::Batch { atomic: false })));
}

#[test]
fn batches_are_summarized() {
    let out = BatchOutcome { written: 2, skipped: vec![(3, "bad period".into())] };
    assert_eq!(
        fact::summarize(&out),
        vec!["[info] wrote 2 fact(s)", "[warn] skipped row 3: bad period"]
    );
    assert_eq!(metric::summarize(&out, "metric")[0], "[info] wrote 2 metric(s)");
    assert_eq!(fact::deleted(1), "[info] deleted 1 fact(s)");
    assert_eq!(metric::deleted(0, "mapping"), "[info] deleted 0 mapping(s)");
}

#[test]
fn metrics_are_added_one_by_one_or_in_batches() {
    let mut a = MetricAddArgs {
        std_key: Some("roe".into()),
        label: None,
        unit_kind: "amount".into(),
        skip_invalid: true,
    };
    assert!(matches!(metric::plan_add(&a, true), Ok(MetricPlan::One("roe"))));
    a.std_key = None;
    assert!(matches!(metric::plan_add(&a, true), Err(SiftError::Parse(_))));
    assert!(matches!(metric::plan_add(&a, false), Ok(MetricPlan::Batch { atomic: false })));
}

#[test]
fn mappings_need_both_keys_and_a_source() {
    let mut a = MapSetArgs {
        source: Some("sina".into()),
        raw_key: Some("r".into()),
        std_key: Some("s".into()),
        skip_invalid: false,
    };
    assert!(matches!(sift::commands::map::plan_set(&a, true), Ok(MapPlan::One("sina", "r", "s"))));
    a.source = None;
    assert!(sift::commands::map::plan_set(&a, true).unwrap_err().message().contains("--source"));
    a.std_key = None;
    assert!(sift::commands::map::plan_set(&a, false).unwrap_err().message().contains("give both"));
    a.raw_key = None;
    assert!(matches!(sift::commands::map::plan_set(&a, true), Err(SiftError::Parse(_))));
    assert!(matches!(sift::commands::map::plan_set(&a, false), Ok(MapPlan::Batch { atomic: true })));
}

#[test]
fn sql_reads_unless_told_to_write() {
    let sql = |write| SqlArgs { query: "select 1".into(), write };
    assert_eq!(access(&sql(false)), DuckAccess::Read);
    assert_eq!(access(&sql(true)), DuckAccess::Write);
    assert_eq!(affected_line(3), "[info] 3 row(s) affected");
}

#[test]
fn opening_is_tried_three_times() {
    assert!(matches!(on_open_failure(0, "/p", DuckAccess::Read, "busy"), OpenStep::Again(20)));
    assert!(matches!(on_open_failure(1, "/p", DuckAccess::Read, "busy"), OpenStep::Again(80)));
    match on_open_failure(2, "/p", DuckAccess::Write, "busy") {
        OpenStep::GiveUp(320, SiftError::Io(m)) => {
            assert_eq!(m, "duckdb open /p (Write) after 3 retries: busy")
        }
        other => panic!("expected an end, got {other:?}"),
    }
    assert!(matches!(
        config_error(DuckAccess::Read, "no"),
        SiftError::Io(m) if m == "duckdb config (Read): no"
    ));
}
