use sift::cache::file::FileCache;
use sift::cache::financials::StoredRow;
use sift::date::Date;
use sift::domain::market::{InstrumentKind, Market};
use sift::domain::{
    Amount, AuditStatus, FinancialRow, Period, PeriodType, Query, Scope, SourceTag, Statement,
    Symbol, Unit,
};
use sift::error::SiftError;
use sift::fetch::extract::{
    check_batch, coalesce_ranges, consults_cache, digits, eta_secs, fast, format_page_list,
    format_ranges, image_line, image_name, land_ocr_page, must_write_image, ocr_backend, ocr_cached, ocr_key,
    plan_fine, resolve_image_dir, resolve_pdf_path, run_chunk, scan_summary, validate_pages,
    FineRun, ImageDir, OcrBackend, PageOcr, PageScan, Target, PADDLEOCR_BATCH_SIZE,
    PADDLEOCR_PARALLELISM,
};
use sift::fetch::market::{load_snapshot, snapshot_key};
use sift::fetch::report::{
    dispatch_with_cache, dispatch_with_cache_named, financials_cache_get, financials_cache_put,
    financials_key, financials_scope, list_periods_union, merge_fetch, panicked, period_sources,
    plan_fetch, settle, skip_warning, source_tag, SourceInfo,
};
use sift::fetch::search::{
    cached_names, cached_org_ids, consult_cache, load_all_listings, lookup_org_id, resolve_org_id,
    stale_fallback, take_reply, write_warning, Endpoint, Loaded, SearchCacheOpts,
};
use sift::fetch::{bars, quote};
use sift::sources::cninfo::{cninfo_base, CnInfoRow, StockLists};

const HOUR: i128 = 3_600_000_000_000;
const DAY: i128 = 24 * HOUR;

/// 2026-05-20T12:00:00Z.
const NOW: i128 = 1_779_278_400 * 1_000_000_000;

fn date(y: i32, m: u8, d: u8) -> Date {
    Date::from_calendar_date(y, m, d).unwrap()
}

fn maotai() -> Symbol {
    Symbol { code: "600519".into(), market: Market::CnA, kind: InstrumentKind::Equity }
}

// ---- extract --------------------------------------------------------------

#[test]
fn target_parses_pure_digits_as_announcement_id() {
    assert_eq!(
        Target::parse("1219506510").unwrap(),
        Target::AnnouncementId("1219506510".into())
    );
}

#[test]
fn target_with_slash_is_local_pdf_even_without_extension() {
    assert_eq!(
        Target::parse("./1219506510").unwrap(),
        Target::LocalPdf("./1219506510".into())
    );
}

#[test]
fn target_uppercase_pdf_extension_is_local_pdf() {
    assert_eq!(Target::parse("./Foo.PDF").unwrap(), Target::LocalPdf("./Foo.PDF".into()));
    assert_eq!(Target::parse("Foo.PDF").unwrap(), Target::LocalPdf("Foo.PDF".into()));
}

#[test]
fn target_pure_letters_rejected() {
    let err = Target::parse("abc").unwrap_err();
    assert!(matches!(err, SiftError::Parse(_)));
    assert!(err.message().contains("cannot interpret"));
}

#[test]
fn validate_pages_rejects_overflow() {
    let err = validate_pages(&[1, 2, 5], 3).unwrap_err();
    assert!(matches!(err, SiftError::Parse(_)));
    let s = err.message();
    assert!(s.contains("page 5"), "msg: {s}");
    assert!(s.contains("PDF has 3"), "msg: {s}");
}

#[test]
fn validate_pages_rejects_zero() {
    let err = validate_pages(&[0], 10).unwrap_err();
    assert!(matches!(err, SiftError::Parse(_)));
}

#[test]
fn validate_pages_accepts_in_range() {
    assert!(validate_pages(&[1, 2, 3], 3).is_ok());
}

#[test]
fn resolve_pdf_path_local_missing_returns_io() {
    let err = resolve_pdf_path(
        &Target::LocalPdf("/nonexistent/__nope__.pdf".into()),
        false,
        None,
        false,
    )
    .unwrap_err();
    assert!(matches!(err, SiftError::Io(_)));
    assert!(err.message().contains("PDF not found"));
}

#[test]
fn resolve_pdf_path_announce_missing_suggests_download() {
    let err =
        resolve_pdf_path(&Target::AnnouncementId("9999".into()), false, None, false).unwrap_err();
    assert!(matches!(err, SiftError::Io(_)));
    let s = err.message();
    assert!(s.contains("sift announce download"), "msg: {s}");
    assert!(s.contains("9999"), "msg: {s}");
}

#[test]
fn resolve_pdf_path_finds_what_is_there() {
    assert_eq!(
        resolve_pdf_path(&Target::LocalPdf("./a.pdf".into()), true, None, false).unwrap(),
        "./a.pdf"
    );
    let id = Target::AnnouncementId("7".into());
    assert_eq!(
        resolve_pdf_path(&id, false, Some("/c/announcements/7.pdf".into()), true).unwrap(),
        "/c/announcements/7.pdf"
    );
    assert!(resolve_pdf_path(&id, false, Some("/c/announcements/7.pdf".into()), false).is_err());
}

#[test]
fn resolve_image_dir_override_takes_precedence() {
    let (p, default) =
        resolve_image_dir(&Target::AnnouncementId("1".into()), false, Some("/tmp/x"));
    assert_eq!(p, ImageDir::Given("/tmp/x".into()));
    assert!(!default);
}

#[test]
fn resolve_image_dir_announcement_uses_cache_subdir() {
    let (p, default) = resolve_image_dir(&Target::AnnouncementId("42".into()), true, None);
    assert!(default);
    match p {
        ImageDir::InCache(key) => {
            let cache = FileCache::open("/root/dir".into());
            assert_eq!(cache.path(&key), "/root/dir/announcements/42/images");
        }
        other => panic!("expected a place in the cache, got {other:?}"),
    }
}

#[test]
fn resolve_image_dir_local_pdf_uses_cwd_default() {
    let (p, default) = resolve_image_dir(&Target::LocalPdf("./foo.pdf".into()), true, None);
    assert!(default);
    assert_eq!(p, ImageDir::Working);
}

#[test]
fn digits_handles_edge_values() {
    assert_eq!(digits(0), 1);
    assert_eq!(digits(1), 1);
    assert_eq!(digits(9), 1);
    assert_eq!(digits(10), 2);
    assert_eq!(digits(143), 3);
    assert_eq!(digits(1000), 4);
    assert_eq!(digits(u32::MAX), 10);
}

#[test]
fn images_are_kept_unless_told_otherwise() {
    assert_eq!(image_name(1, 3, 0, Some("png")), "p001-img01.png");
    assert_eq!(image_name(2, 3, 9, Some("jpg")), "p002-img10.jpg");
    assert!(must_write_image(false, false));
    assert!(!must_write_image(true, false));
    assert!(must_write_image(true, true));
    let line = image_line("/tmp/p002-img01.png");
    assert!(line.starts_with("!["), "got: {line}");
    assert!(line.contains("](/"), "got: {line}");
    assert!(line.contains("p002-img01.png"), "got: {line}");
}

#[test]
fn ocr_key_pads_to_doc_width() {
    assert_eq!(ocr_key("X", 3, 3), "announcements/X/fine/p003.md");
    assert_eq!(ocr_key("X", 3, 2), "announcements/X/fine/p03.md");
    assert_eq!(ocr_key("X", 143, 3), "announcements/X/fine/p143.md");
}

#[test]
fn ocr_cached_round_trips_through_filecache() {
    assert_eq!(ocr_cached(Some(b"## md body".to_vec())), Some("## md body".to_string()));
}

#[test]
fn ocr_cached_returns_none_for_missing_or_empty() {
    assert_eq!(ocr_cached(None), None);
    assert_eq!(ocr_cached(Some(Vec::new())), None);
    assert_eq!(ocr_cached(Some(vec![0xff, 0xfe])), None);
}

#[test]
fn coalesce_ranges_groups_consecutive_runs() {
    assert_eq!(
        coalesce_ranges(&[12, 13, 14, 15, 18, 22, 23, 24]),
        vec![(12, 15), (18, 18), (22, 24)],
    );
}

#[test]
fn coalesce_ranges_handles_single_and_empty() {
    assert_eq!(coalesce_ranges(&[]), Vec::<(u32, u32)>::new());
    assert_eq!(coalesce_ranges(&[7]), vec![(7, 7)]);
}

#[test]
fn format_ranges_emits_pages_spec_syntax() {
    assert_eq!(format_ranges(&[(12, 15), (18, 18), (22, 30)]), "12-15,18,22-30");
    assert_eq!(format_ranges(&[(3, 3)]), "3");
    assert_eq!(format_ranges(&[]), "");
}

#[test]
fn page_lists_name_the_pages_they_came_from() {
    let pages = [1, 2, 3, 7, 9, 10];
    let text = format_page_list(&pages);
    assert_eq!(text, "1-3,7,9-10");
    let spec = sift::commands::extract::PageSpec::parse(&text).unwrap();
    assert_eq!(spec.0, pages.to_vec());
}

#[test]
fn the_local_pass_reports_scanned_pages() {
    let scans = vec![
        PageScan { markdown: "text".into(), image_lines: vec![], is_scanned: false },
        PageScan {
            markdown: "".into(),
            image_lines: vec!["![x](/x.png)".into()],
            is_scanned: true,
        },
    ];
    let out = fast(&[1, 2], 2, &scans).unwrap();
    assert_eq!(out.pages.len(), 2);
    assert!(out.pages[0].contains("text"));
    assert!(out.pages[1].contains("![x](/x.png)"));
    assert_eq!(out.scanned, vec![2]);
    assert!(fast(&[3], 2, &vec![PageScan {
        markdown: "".into(),
        image_lines: vec![],
        is_scanned: false,
    }])
    .is_err());
    let (first, second) = scan_summary(&Target::AnnouncementId("7".into()), &[2]);
    assert!(first.contains('2') && second.contains("7"), "{first} / {second}");
}

fn chunk_done(chunk: Vec<u32>) -> Result<Vec<(u32, String)>, SiftError> {
    Ok(chunk.into_iter().map(|p| (p, format!("page {p}"))).collect())
}

#[test]
fn recognition_runs_in_batches_a_few_at_a_time() {
    let pages: Vec<u32> = (1..=40).collect();
    let hits: Vec<Option<String>> =
        pages.iter().map(|p| if *p <= 2 { Some(format!("hit {p}")) } else { None }).collect();
    let plan = plan_fine(pages.clone(), 40, hits).unwrap();
    assert_eq!(plan.missing.len(), 38);
    assert_eq!(plan.chunks.len(), 5);
    assert!(plan.chunks.iter().all(|c| c.len() <= PADDLEOCR_BATCH_SIZE));
    let mut run = FineRun::start(plan);
    let mut under_way: Vec<(usize, Vec<u32>)> = Vec::new();
    let mut failed: Vec<u32> = Vec::new();
    while let Some(chunk) = run.hand_out() {
        under_way.push(chunk);
    }
    assert_eq!(under_way.len(), PADDLEOCR_PARALLELISM);
    let mut handed = under_way.len();
    while let Some((at, chunk)) = under_way.pop() {
        if handed == 4 {
            failed.extend(&chunk);
            run.settle(at, Err(SiftError::Network("timeout".into())));
        } else {
            run.settle(at, chunk_done(chunk));
        }
        if let Some(next) = run.hand_out() {
            handed += 1;
            under_way.push(next);
        }
    }
    assert!(!run.busy());
    let out = run.finish("paddleocr");
    assert_eq!(out.cached_n, 2);
    assert_eq!(out.batches, 5);
    assert_eq!(out.pages.len() + out.failed.len(), 40);
    assert_eq!(out.failed, failed);
    assert_eq!(out.failed.len(), PADDLEOCR_BATCH_SIZE);
    assert_eq!(out.failure_reasons, vec![SiftError::Network("timeout".into()).message()]);
    let numbers: Vec<u32> = out.pages.iter().map(|p| p.0).collect();
    let mut sorted = numbers.clone();
    sorted.sort();
    assert_eq!(numbers, sorted);
    let mut all: Vec<u32> = numbers.iter().chain(&out.failed).copied().collect();
    all.sort();
    assert_eq!(all, pages);
    assert_eq!(out.pages[0], (1, "hit 1".to_string()));
    assert_eq!(out.eta_secs, eta_secs(5));
}

#[test]
fn recognition_checks_what_came_back() {
    assert!(check_batch("paddleocr", 2, 2).is_ok());
    assert!(check_batch("paddleocr", 2, 1).is_err());
    let page = |md: &str| PageOcr { markdown: md.into(), links: vec![] };
    let done = run_chunk("paddleocr", &vec![4, 5], &vec![page("four"), page("five")]).unwrap();
    assert_eq!(done[0].0, 4);
    assert_eq!(done[1].0, 5);
    assert!(run_chunk("paddleocr", &vec![4, 5], &vec![page("four")]).is_err());
    let landed = land_ocr_page(&PageOcr {
        markdown: "see img/a.png".into(),
        links: vec![("img/a.png".into(), "/tmp/p1-a.png".into())],
    });
    assert_eq!(landed, "see /tmp/p1-a.png");
}

#[test]
fn tokens_come_before_keys() {
    let full = Some("x");
    assert_eq!(ocr_backend(full, full, full, full).unwrap(), OcrBackend::Token);
    assert_eq!(ocr_backend(full, Some(""), full, full).unwrap(), OcrBackend::OAuth);
    assert_eq!(ocr_backend(None, full, full, full).unwrap().name(), "oauth");
    assert!(matches!(ocr_backend(full, None, full, None), Err(SiftError::OcrTokenMissing)));
    assert_eq!(OcrBackend::Token.name(), "token");
}

#[test]
fn recognized_pages_of_announcements_are_looked_up() {
    assert!(consults_cache(&Target::AnnouncementId("7".into()), true, false));
    assert!(!consults_cache(&Target::AnnouncementId("7".into()), true, true));
    assert!(!consults_cache(&Target::AnnouncementId("7".into()), false, false));
    assert!(!consults_cache(&Target::LocalPdf("x.pdf".into()), true, false));
}

// ---- bars and quotes ------------------------------------------------------

#[test]
fn dispatch_routes_to_matching_source() {
    let sources = vec!["tencent".to_string(), "eastmoney".to_string()];
    assert_eq!(sources[bars::dispatch_named(&sources, "tencent").unwrap()], "tencent");
    assert_eq!(sources[bars::dispatch_named(&sources, "eastmoney").unwrap()], "eastmoney");
}

#[test]
fn bars_unknown_source_yields_no_applicable_source() {
    let sources = vec!["tencent".to_string()];
    match bars::dispatch_named(&sources, "sina").unwrap_err() {
        SiftError::NoApplicableSource(msg) => {
            assert!(msg.contains("sina"));
            assert!(msg.contains("tencent"), "msg should list known: {msg}");
            assert!(msg.contains("not registered"), "{msg}");
        }
        other => panic!("expected NoApplicableSource, got {other:?}"),
    }
}

#[test]
fn dispatch_routes_to_named_source() {
    let sources = vec!["eastmoney".to_string()];
    assert_eq!(quote::dispatch_named(&sources, "eastmoney").unwrap(), 0);
}

#[test]
fn quote_unknown_source_yields_no_applicable_source() {
    let sources = vec!["eastmoney".to_string()];
    let err = quote::dispatch_named(&sources, "tencent").unwrap_err();
    assert!(matches!(err, SiftError::NoApplicableSource(_)));
}

// ---- report ---------------------------------------------------------------

fn fixture_query() -> Query {
    Query {
        symbol: maotai(),
        statement: Statement::Income,
        periods: vec![Period::Annual(2024)],
        scope: Scope::Consolidated,
    }
}

fn fixture_row(source: SourceTag, marker_code: &str) -> FinancialRow {
    FinancialRow {
        symbol: Symbol {
            code: marker_code.into(),
            market: Market::CnA,
            kind: InstrumentKind::Equity,
        },
        name: "test".into(),
        period: date(2024, 12, 31),
        period_type: PeriodType::Annual,
        statement: Statement::Income,
        scope: Scope::Consolidated,
        item: "营业总收入".into(),
        value: Amount { bits: 100f64.to_bits() },
        unit: Unit::Raw,
        currency: "CNY".into(),
        publish_date: None,
        audit: AuditStatus::Unknown,
        source,
    }
}

fn source(name: &str, supports: bool) -> SourceInfo {
    SourceInfo { name: name.into(), auto_dispatch: true, supports }
}

#[test]
fn no_applicable_source_returns_specific_error() {
    let sources = vec![source("a", false), source("b", false)];
    let err = dispatch_with_cache(&fixture_query(), &sources).unwrap_err();
    assert!(matches!(err, SiftError::NoApplicableSource(_)), "got {err:?}");
}

#[test]
fn single_source_success_returns_its_rows() {
    let sources = vec![source("em", true)];
    assert_eq!(dispatch_with_cache(&fixture_query(), &sources).unwrap(), vec![0]);
    let rows =
        settle(vec![("em".into(), Ok(vec![fixture_row(SourceTag::EastMoney, "600519")]))]).unwrap();
    assert_eq!(rows.len(), 1);
    assert_eq!(rows[0].source, SourceTag::EastMoney);
}

#[test]
fn fast_success_wins_over_slow_success() {
    let rows = settle(vec![
        ("fast".into(), Ok(vec![fixture_row(SourceTag::EastMoney, "FAST")])),
        ("slow".into(), Ok(vec![fixture_row(SourceTag::Sina, "SLOW")])),
    ])
    .unwrap();
    assert_eq!(rows[0].symbol.code, "FAST");
}

#[test]
fn fast_success_wins_when_slow_would_error() {
    let rows = settle(vec![
        ("fast".into(), Ok(vec![fixture_row(SourceTag::EastMoney, "FAST")])),
        ("slow_err".into(), Err(SiftError::Network("late boom".into()))),
    ])
    .unwrap();
    assert_eq!(rows[0].symbol.code, "FAST");
}

#[test]
fn slow_success_wins_when_fast_errors() {
    let rows = settle(vec![
        ("fast_err".into(), Err(SiftError::Network("immediate boom".into()))),
        ("slow".into(), Ok(vec![fixture_row(SourceTag::Sina, "SLOW")])),
    ])
    .unwrap();
    assert_eq!(rows[0].symbol.code, "SLOW");
}

#[test]
fn all_fail_returns_aggregated_failure_list() {
    let err = settle(vec![
        ("a".into(), Err(SiftError::Network("a-err".into()))),
        ("b".into(), Err(SiftError::Network("b-err".into()))),
    ])
    .unwrap_err();
    match err {
        SiftError::AllSourcesFailed(failures) => {
            assert_eq!(failures.len(), 2);
            let names: Vec<&str> = failures.iter().map(|(n, _)| n.as_str()).collect();
            assert!(names.contains(&"a"), "names: {names:?}");
            assert!(names.contains(&"b"), "names: {names:?}");
            let joined = failures.iter().map(|(_, m)| m.as_str()).collect::<Vec<_>>().join(",");
            assert!(joined.contains("a-err"), "joined: {joined}");
            assert!(joined.contains("b-err"), "joined: {joined}");
        }
        other => panic!("expected AllSourcesFailed, got {other:?}"),
    }
}

#[test]
fn supports_false_prevents_fetch_invocation() {
    let sources = vec![source("a", true), source("b", false)];
    assert_eq!(dispatch_with_cache(&fixture_query(), &sources).unwrap(), vec![0]);
    let rows = settle(vec![("a".into(), Ok(vec![fixture_row(SourceTag::EastMoney, "OK")]))]).unwrap();
    assert_eq!(rows[0].symbol.code, "OK");
}

#[test]
fn fetch_panic_is_caught_and_other_source_wins() {
    let rows = settle(vec![
        ("p".into(), Err(panicked("p", "kaboom"))),
        ("ok".into(), Ok(vec![fixture_row(SourceTag::Sina, "WIN")])),
    ])
    .unwrap();
    assert_eq!(rows[0].symbol.code, "WIN");
}

#[test]
fn all_panic_returns_aggregated_failures_with_panicked_messages() {
    let err = settle(vec![
        ("a".into(), Err(panicked("a", "a-panic"))),
        ("b".into(), Err(panicked("b", "b-panic"))),
    ])
    .unwrap_err();
    match err {
        SiftError::AllSourcesFailed(failures) => {
            assert_eq!(failures.len(), 2);
            for (_, msg) in &failures {
                assert!(msg.contains("panicked"), "msg: {msg}");
            }
        }
        other => panic!("expected AllSourcesFailed, got {other:?}"),
    }
}

#[test]
fn empty_ok_is_still_a_success() {
    let rows = settle(vec![
        ("empty".into(), Ok(Vec::new())),
        ("other".into(), Ok(vec![fixture_row(SourceTag::EastMoney, "OTHER")])),
    ])
    .unwrap();
    assert!(rows.is_empty() || rows[0].symbol.code == "OTHER");
    assert!(rows.is_empty());
}

#[test]
fn a_named_source_is_asked_alone() {
    let mut opt_in = source("sina", true);
    opt_in.auto_dispatch = false;
    let sources = vec![source("em", true), opt_in];
    let q = fixture_query();
    assert_eq!(dispatch_with_cache_named(&q, &sources, Some("sina")).unwrap(), vec![1]);
    assert_eq!(dispatch_with_cache_named(&q, &sources, None).unwrap(), vec![0]);
    let err = dispatch_with_cache_named(&q, &sources, Some("nope")).unwrap_err();
    assert!(matches!(err, SiftError::NoApplicableSource(_)));
}

#[test]
fn only_the_periods_that_are_missing_are_fetched() {
    let mut q = fixture_query();
    q.periods = vec![Period::Annual(2024), Period::Annual(2023)];
    let hit = vec![fixture_row(SourceTag::EastMoney, "600519")];
    let plan = plan_fetch(&q, vec![Some(hit), None]);
    assert_eq!(plan.cached.len(), 1);
    assert_eq!(plan.rest.as_ref().unwrap().periods, vec![Period::Annual(2023)]);
    let merged = merge_fetch(plan.cached, vec![fixture_row(SourceTag::Sina, "000001")]);
    let codes: Vec<&str> = merged.iter().map(|r| r.symbol.code.as_str()).collect();
    assert_eq!(codes, vec!["600519", "000001"]);
    let all = plan_fetch(&fixture_query(), vec![Some(vec![])]);
    assert!(all.rest.is_none());
}

#[test]
fn list_periods_union_unions_two_sources_sorted_newest_first() {
    let got = list_periods_union(vec![
        ("em".into(), Some(vec![Period::Annual(2023), Period::Annual(2024)])),
        ("sina".into(), Some(vec![Period::Annual(2024), Period::Annual(2022)])),
    ]);
    assert_eq!(got.len(), 4);
    assert_eq!(got[0].end.year, 2024);
    assert_eq!(got[0].source, "em");
    assert_eq!(got[1].end.year, 2024);
    assert_eq!(got[1].source, "sina");
    assert_eq!(got[2].end.year, 2023);
    assert_eq!(got[2].source, "em");
    assert_eq!(got[3].end.year, 2022);
    assert_eq!(got[3].source, "sina");
}

#[test]
fn list_periods_union_pinned_uses_only_named_source() {
    let sources = vec![source("em", true), source("sina", true)];
    assert_eq!(period_sources(&maotai(), &sources, Some("em")).unwrap(), vec![0]);
    let got = list_periods_union(vec![("em".into(), Some(vec![Period::Annual(2024)]))]);
    assert_eq!(got.len(), 1);
    assert_eq!(got[0].source, "em");
}

#[test]
fn list_periods_union_no_applicable_source_when_none_supports() {
    let sources = vec![source("em", false), source("sina", false)];
    let err = period_sources(&maotai(), &sources, None).unwrap_err();
    assert!(matches!(err, SiftError::NoApplicableSource(_)));
}

#[test]
fn list_periods_union_pinned_unknown_name_returns_no_applicable_source() {
    let sources = vec![source("em", true)];
    let err = period_sources(&maotai(), &sources, Some("nope")).unwrap_err();
    assert!(matches!(err, SiftError::NoApplicableSource(_)));
}

#[test]
fn sources_without_an_answer_add_no_periods() {
    let got = list_periods_union(vec![
        ("em".into(), None),
        ("sina".into(), Some(vec![Period::Q1(2024), Period::Custom(date(2024, 8, 15))])),
    ]);
    assert_eq!(got.len(), 2);
    assert_eq!(got[0].end, date(2024, 8, 15));
    assert_eq!(got[0].period_type, PeriodType::Annual);
    assert_eq!(got[1].period_type, PeriodType::Q1);
}

fn fc_row(period_end: Date, item: &str, value: f64, source: SourceTag) -> FinancialRow {
    let mut row = fixture_row(source, "600519");
    row.name = "贵州茅台".into();
    row.period = period_end;
    row.period_type = PeriodType::from_date(period_end).unwrap_or(PeriodType::Annual);
    row.item = item.into();
    row.value = Amount { bits: value.to_bits() };
    row
}

fn stored_body(rows: &[FinancialRow]) -> Vec<StoredRow> {
    let put = financials_cache_put(rows);
    assert_eq!(put.items.len(), 1);
    put.items.into_iter().next().unwrap().1
}

#[test]
fn financials_cache_put_get_round_trip_returns_identical_rows() {
    let period = date(2025, 12, 31);
    let rows = vec![
        fc_row(period, "营业总收入", 172054171891.0, SourceTag::EastMoney),
        fc_row(period, "归母净利润", 82320067102.0, SourceTag::EastMoney),
    ];
    let put = financials_cache_put(&rows);
    assert_eq!(put.items[0].0, "2025-12-31");
    assert_eq!(put.skipped, 0);
    let got = financials_cache_get(
        Some(NOW),
        Some(stored_body(&rows)),
        NOW,
        Period::Annual(2025),
        date(2026, 5, 20),
    )
    .unwrap();
    assert_eq!(got, rows);
}

#[test]
fn financials_cache_stale_recent_bucket_returns_none() {
    let rows = vec![fc_row(date(2026, 3, 31), "营业总收入", 1.0, SourceTag::EastMoney)];
    let got = financials_cache_get(
        Some(NOW - 25 * HOUR),
        Some(stored_body(&rows)),
        NOW,
        Period::Q1(2026),
        date(2026, 5, 20),
    );
    assert!(got.is_none(), "stale Recent-bucket row must miss");
}

#[test]
fn financials_cache_old_bucket_is_always_fresh() {
    let rows = vec![fc_row(date(2020, 12, 31), "营业总收入", 1.0, SourceTag::EastMoney)];
    let got = financials_cache_get(
        Some(NOW - 365 * 5 * DAY),
        Some(stored_body(&rows)),
        NOW,
        Period::Annual(2020),
        date(2026, 5, 20),
    );
    assert!(got.is_some(), "Old-bucket row is permanently fresh");
}

#[test]
fn financials_cache_upsert_overwrites_in_place() {
    let period = date(2025, 12, 31);
    let v1 = vec![fc_row(period, "营业总收入", 1.0, SourceTag::EastMoney)];
    let v2 = vec![fc_row(period, "营业总收入", 2.0, SourceTag::EastMoney)];
    assert_eq!(financials_cache_put(&v1).items[0].0, financials_cache_put(&v2).items[0].0);
    let got = financials_cache_get(
        Some(NOW),
        Some(stored_body(&v2)),
        NOW,
        Period::Annual(2025),
        date(2026, 5, 20),
    )
    .unwrap();
    assert_eq!(got.len(), 1);
    assert_eq!(f64::from_bits(got[0].value.bits), 2.0);
}

#[test]
fn financials_cache_different_sources_do_not_share() {
    let key = |tag| {
        financials_key(
            &maotai(),
            Statement::Income,
            Period::Annual(2025),
            Scope::Consolidated,
            tag,
        )
        .unwrap()
    };
    assert_ne!(key(SourceTag::EastMoney), key(SourceTag::Sina));
    assert_eq!(
        key(SourceTag::Sina),
        blake3::hash(b"financials:600519:cn-a:income:consolidated:sina:2025-12-31")
            .as_bytes()
            .to_vec()
    );
    assert_eq!(
        financials_scope(&maotai(), Statement::Income, Scope::Consolidated, SourceTag::Sina),
        vec!["600519", "cn-a", "income", "consolidated", "sina"]
    );
    let em = vec![fc_row(date(2025, 12, 31), "营业总收入", 1.0, SourceTag::EastMoney)];
    let sina = vec![fc_row(date(2025, 12, 31), "营业总收入", 2.0, SourceTag::Sina)];
    assert_eq!(stored_body(&em)[0].source, "eastmoney");
    assert_eq!(stored_body(&sina)[0].source, "sina");
}

#[test]
fn financials_cache_preserves_item_label_verbatim_on_read() {
    let row = fc_row(date(2025, 12, 31), "OPERATE_INCOME", 100.0, SourceTag::EastMoney);
    let got = financials_cache_get(
        Some(NOW),
        Some(stored_body(&[row])),
        NOW,
        Period::Annual(2025),
        date(2026, 5, 20),
    )
    .unwrap();
    assert_eq!(got[0].item, "OPERATE_INCOME");
}

#[test]
fn rows_of_other_securities_are_not_stored() {
    let rows = vec![
        fc_row(date(2025, 12, 31), "a", 1.0, SourceTag::Sina),
        fixture_row(SourceTag::Sina, "000001"),
        fc_row(date(2024, 12, 31), "b", 2.0, SourceTag::Sina),
    ];
    let put = financials_cache_put(&rows);
    assert_eq!(put.skipped, 1);
    let ends: Vec<&str> = put.items.iter().map(|i| i.0.as_str()).collect();
    assert_eq!(ends, vec!["2024-12-31", "2025-12-31"]);
    assert!(skip_warning("sina").contains("sina"));
    assert_eq!(source_tag("sina"), SourceTag::Sina);
    assert_eq!(source_tag("other"), SourceTag::EastMoney);
    assert_eq!(financials_cache_get(None, None, NOW, Period::Q1(2024), date(2024, 1, 1)), None);
}

#[test]
fn market_snapshots_are_kept_as_long_as_their_period_allows() {
    let today = date(2026, 5, 20);
    assert_eq!(snapshot_key(date(2025, 12, 31)), "2025-12-31");
    assert!(load_snapshot(false, Some(NOW - HOUR), NOW, date(2026, 3, 31), today));
    assert!(!load_snapshot(false, Some(NOW - 25 * HOUR), NOW, date(2026, 3, 31), today));
    assert!(load_snapshot(false, Some(NOW - 25 * HOUR), NOW, date(2020, 12, 31), today));
    assert!(!load_snapshot(true, Some(NOW), NOW, date(2020, 12, 31), today));
    assert!(!load_snapshot(false, None, NOW, date(2020, 12, 31), today));
}

// ---- search ---------------------------------------------------------------

fn stock(code: &str, name: &str, org: &str) -> CnInfoRow {
    CnInfoRow {
        code: code.into(),
        zwjc: name.into(),
        pinyin: "p".into(),
        category: "c".into(),
        org_id: org.into(),
    }
}

const FRESH: Option<u64> = Some(60);
const EXPIRED: Option<u64> = Some(25 * 3600);

#[test]
fn cached_lists_are_used_while_they_are_fresh() {
    let rows = || Some(vec![stock("600519", "贵州茅台", "gssh0600519")]);
    let by_default = SearchCacheOpts::default();
    assert_eq!(consult_cache(by_default, FRESH, rows()).unwrap()[0].code, "600519");
    assert!(consult_cache(by_default, EXPIRED, rows()).is_none());
    assert!(consult_cache(by_default, None, rows()).is_none());
    assert!(consult_cache(by_default, FRESH, None).is_none());
    assert!(consult_cache(SearchCacheOpts { no_cache: true }, FRESH, rows()).is_none());
}

#[test]
fn a_garbled_reply_is_no_reason_to_use_old_lists() {
    assert!(matches!(
        take_reply(Ok(Err(SiftError::Internal("schema".into())))),
        Loaded::Broken(SiftError::Internal(_))
    ));
    assert!(matches!(take_reply(Ok(Ok(vec![]))), Loaded::Fresh(_)));
    assert!(matches!(
        take_reply(Err(SiftError::Network("502".into()))),
        Loaded::Unreachable(SiftError::Network(_))
    ));
}

#[test]
fn old_lists_stand_in_when_the_network_fails() {
    let (rows, warning) = stale_fallback(
        Endpoint::Szse,
        SiftError::Network("GET x -> 502".into()),
        Some(vec![stock("000000", "old", "old")]),
        "2024-01-01 00:00:00",
    )
    .unwrap();
    assert_eq!(rows[0].code, "000000");
    assert!(warning.contains("[warn] cninfo szse_stock"), "{warning}");
    let err =
        stale_fallback(Endpoint::Hke, SiftError::Network("502".into()), None, "?").unwrap_err();
    assert!(matches!(err, SiftError::Network(_)), "got {err:?}");
    assert_eq!(err.exit_code(), 3);
    let told = write_warning(Endpoint::Hke, &SiftError::Io("disk".into()));
    assert!(told.contains("[warn] cninfo hke_stock: cache write failed"), "{told}");
}

#[test]
fn endpoints_and_their_places() {
    assert_eq!(Endpoint::Szse.key(), "cninfo/szse_stock.json");
    assert_eq!(Endpoint::Hke.key(), "cninfo/hke_stock.json");
    assert!(Endpoint::Szse.url("http://h").starts_with("http://h/"));
    assert_eq!(cninfo_base(None), "http://www.cninfo.com.cn");
    assert_eq!(cninfo_base(Some("http://x".into())), "http://x");
}

#[test]
fn cached_org_ids_reads_both_szse_and_hke_files() {
    let map = cached_org_ids(
        true,
        Some(vec![stock("600519", "贵州茅台", "gssh0600519")]),
        Some(vec![stock("00700", "腾讯", "gshk0000700")]),
    );
    assert_eq!(map.len(), 2);
    assert_eq!(map.get("600519"), Some(&(Market::CnA, "gssh0600519".to_string())));
    assert_eq!(map.get("00700"), Some(&(Market::Hk, "gshk0000700".to_string())));
    let found = lookup_org_id(&map, "00700").unwrap();
    assert_eq!(found.org_id, "gshk0000700");
    assert!(matches!(resolve_org_id(&map, "1"), Err(SiftError::MissingOrgId(_))));
    assert_eq!(resolve_org_id(&map, "600519").unwrap().market, Market::CnA);
}

#[test]
fn cached_org_ids_returns_empty_when_no_files() {
    let map = cached_org_ids(true, None, None);
    assert_eq!(map.len(), 0);
}

#[test]
fn cached_names_returns_empty_when_file_cache_disabled() {
    assert_eq!(cached_names(false, Some(vec![stock("1", "a", "b")]), None).len(), 0);
    assert_eq!(cached_names(true, Some(vec![stock("1", "a", "b")]), None).len(), 1);
}

#[test]
fn listings_keep_their_markets() {
    let all = load_all_listings(StockLists {
        cn_a: vec![stock("600519", "贵州茅台", "x")],
        hk: vec![stock("00700", "腾讯", "y")],
    });
    assert_eq!(all.len(), 2);
    assert_eq!(all[0].0, Market::CnA);
    assert_eq!(all[1].0, Market::Hk);
    assert_eq!(all[1].1.code, "00700");
}
