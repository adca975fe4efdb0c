use sift::cache::file::FileCache;
use sift::commands::announce::{
    announce_code, cached_line, cached_str, download_one, expand_categories, fetched_line,
    lookup_category, needs_url, parse_iso_date, piped_line, piped_parts, polite_delay_ms,
    read_stdin_ctx, read_stdin_for_id, resolve_all, row_for_id, stdin_ctx, validate_list_args,
    DownloadRun, DownloadStep, ListArgs, PipedLine, RawLine, POLITE_DELAY_DEFAULT_MS,
};
use sift::date::Date;
use sift::domain::announcement::{AnnouncementRow, Category};
use sift::domain::market::Market;
use sift::error::SiftError;
use sift::fetch::announce::{
    category_filter, copy_places, download_place, is_pdf_cached, known_urls, list, note_cached,
    pdf_path, piped_urls, resolve_row, resolve_urls, unresolved, CachedRow, RowPlan, RowWalk,
    StdinContext, UrlPlan, UrlWalk, WalkStep,
};
use sift::sources::cninfo::ResolvedSymbol;
use sift::text_map::TextMap;

fn d(y: i32, m: u8, day: u8) -> Date {
    Date::from_calendar_date(y, m, day).unwrap()
}

fn row(id: &str, date: Date, adjunct: &str) -> AnnouncementRow {
    AnnouncementRow {
        id: id.into(),
        symbol: "600519.SH".into(),
        name: "贵州茅台".into(),
        date,
        type_zh: "年报".into(),
        title: format!("title-{id}"),
        format: "pdf",
        size_kb: 1024,
        url: format!("http://static.cninfo.com.cn/{adjunct}"),
        source: "cninfo",
    }
}

fn single(zh: &str, key: &str) -> Category {
    Category { zh: zh.into(), category: Some(key.into()), aggregates: None }
}

fn cats() -> Vec<Category> {
    vec![
        single("年报", "category_ndbg_szsh"),
        single("半年报", "category_bndbg_szsh"),
        single("一季报", "category_yjdbg_szsh"),
        single("三季报", "category_sjdbg_szsh"),
        Category {
            zh: "定期报告".into(),
            category: None,
            aggregates: Some(vec![
                "年报".into(),
                "半年报".into(),
                "一季报".into(),
                "三季报".into(),
            ]),
        },
    ]
}

// ---- lists ----------------------------------------------------------------

#[test]
fn lists_are_merged_without_repeats_newest_first() {
    let a = vec![row("1", d(2024, 4, 3), "1"), row("2", d(2024, 4, 5), "2")];
    let b = vec![row("2", d(2024, 4, 5), "2b"), row("9", d(2024, 4, 5), "9")];
    let out = list(vec![a, b], 10);
    let ids: Vec<&str> = out.iter().map(|r| r.id.as_str()).collect();
    assert_eq!(ids, vec!["9", "2", "1"]);
    assert!(out[1].url.ends_with("/2"), "the first of two rows with one id stays");
    assert_eq!(category_filter(""), None);
    assert_eq!(category_filter("k").as_deref(), Some("k"));
}

#[test]
fn lists_are_cut_after_the_newest() {
    let rows = vec![row("1", d(2024, 1, 1), "1"), row("2", d(2024, 1, 2), "2")];
    let out = list(vec![rows], 1);
    assert_eq!(out.len(), 1);
    assert_eq!(out[0].id, "2");
    assert!(list(vec![], 5).is_empty());
}

// ---- one row --------------------------------------------------------------

#[test]
fn resolve_row_returns_cached_row_without_touching_stdin_or_network() {
    let r = row("100", d(2024, 4, 3), "finalpage/2024-04-03/100.PDF");
    let (warning, plan) = resolve_row("100", CachedRow::Row(r), &StdinContext::empty(), false);
    assert_eq!(warning, None);
    match plan {
        RowPlan::Cached(got) => {
            assert_eq!(got.id, "100");
            assert_eq!(
                got.url,
                "http://static.cninfo.com.cn/finalpage/2024-04-03/100.PDF"
            );
        }
        other => panic!("expected the cached row, got {other:?}"),
    }
}

#[test]
fn resolve_row_returns_stdin_row_when_cache_misses_and_piped() {
    let stdin = StdinContext {
        rows: vec![row("200", d(2024, 4, 4), "finalpage/2024-04-04/200.PDF")],
        url_map: TextMap::new(),
    };
    match resolve_row("200", CachedRow::Missing, &stdin, false).1 {
        RowPlan::Piped(got) => assert_eq!(got.id, "200"),
        other => panic!("expected the piped row, got {other:?}"),
    }
}

#[test]
fn resolve_row_paginates_when_tty_and_returns_first_match() {
    match resolve_row("300", CachedRow::Missing, &StdinContext::empty(), true).1 {
        RowPlan::Walk(notice) => assert!(notice.contains("300"), "{notice}"),
        other => panic!("expected a walk, got {other:?}"),
    }
    let mut walk = RowWalk::new("300");
    let step = walk.on_page(&vec![
        row("xxx", d(2024, 4, 5), "finalpage/2024-04-05/xxx.PDF"),
        row("300", d(2024, 4, 5), "finalpage/2024-04-05/300.PDF"),
    ]);
    assert!(matches!(step, WalkStep::Stop));
    assert_eq!(walk.finish().unwrap().id, "300");
}

#[test]
fn resolve_row_paginate_miss_returns_not_found() {
    let mut walk = RowWalk::new("nonexistent");
    assert!(matches!(walk.on_page(&vec![]), WalkStep::Go(None)));
    assert!(matches!(walk.on_page(&vec![]), WalkStep::Go(None)));
    assert!(matches!(walk.finish(), Err(SiftError::NotFound(_))));
}

#[test]
fn resolve_row_non_tty_miss_returns_not_found_without_paginating() {
    match resolve_row("nope", CachedRow::Missing, &StdinContext::empty(), false).1 {
        RowPlan::Absent(e) => assert!(matches!(e, SiftError::NotFound(_))),
        other => panic!("expected an end, got {other:?}"),
    }
}

#[test]
fn a_garbled_row_is_told_and_looked_for_again() {
    let (warning, plan) = resolve_row("7", CachedRow::Garbled, &StdinContext::empty(), true);
    assert_eq!(warning.unwrap(), "[warn] cached row for 7 did not decode; refetching");
    assert!(matches!(plan, RowPlan::Walk(_)));
}

#[test]
fn long_walks_are_told_every_twenty_pages() {
    let mut walk = RowWalk::new("7");
    for page in 1..=40 {
        match walk.on_page(&vec![]) {
            WalkStep::Go(notice) => assert_eq!(notice.is_some(), page % 20 == 0, "page {page}"),
            WalkStep::Stop => panic!("nothing was found"),
        }
    }
}

// ---- URLs -----------------------------------------------------------------

fn ids(list: &[&str]) -> Vec<String> {
    list.iter().map(|s| s.to_string()).collect()
}

fn url_map(pairs: &[(&str, &str)]) -> TextMap<String> {
    let mut m = TextMap::new();
    for (k, v) in pairs {
        m.insert(k.to_string(), v.to_string());
    }
    m
}

fn url<'a>(m: &'a TextMap<String>, id: &str) -> Option<&'a str> {
    m.get(id).map(|s| s.as_str())
}

#[test]
fn resolve_urls_merges_stdin_cache_and_paginate_in_one_pass() {
    let stdin = StdinContext {
        rows: vec![],
        url_map: url_map(&[("A", "http://static.cninfo.com.cn/finalpage/2024-04-01/A.PDF")]),
    };
    let wanted = ids(&["A", "B", "C"]);
    let cached = vec![None, Some(row("B", d(2024, 4, 3), "finalpage/2024-04-03/B.PDF")), None];
    let urls = known_urls(&wanted, cached, &stdin);
    assert_eq!(unresolved(&wanted, &urls), vec!["C"]);
    let (mut walk, notice) = match resolve_urls(&wanted, urls, true) {
        UrlPlan::Walk(walk, notice) => (walk, notice),
        other => panic!("expected a walk, got {other:?}"),
    };
    assert!(notice.contains("1 id(s)"), "{notice}");
    let step = walk.on_page(&vec![
        row("noise", d(2024, 4, 1), "finalpage/2024-04-01/noise.PDF"),
        row("C", d(2024, 4, 2), "finalpage/2024-04-02/C.PDF"),
    ]);
    assert!(matches!(step, WalkStep::Stop));
    let got = walk.finish();
    assert_eq!(got.len(), 3);
    assert_eq!(url(&got, "A"), Some("http://static.cninfo.com.cn/finalpage/2024-04-01/A.PDF"));
    assert_eq!(url(&got, "B"), Some("http://static.cninfo.com.cn/finalpage/2024-04-03/B.PDF"));
    assert_eq!(url(&got, "C"), Some("http://static.cninfo.com.cn/finalpage/2024-04-02/C.PDF"));
}

#[test]
fn resolve_urls_paginate_batches_missing_ids_in_one_walk() {
    let mut walk = match resolve_urls(&ids(&["P", "Q"]), TextMap::new(), true) {
        UrlPlan::Walk(walk, _) => walk,
        other => panic!("expected one walk, got {other:?}"),
    };
    let step = walk.on_page(&vec![
        row("P", d(2024, 4, 1), "finalpage/2024-04-01/P.PDF"),
        row("Q", d(2024, 4, 2), "finalpage/2024-04-02/Q.PDF"),
    ]);
    assert!(matches!(step, WalkStep::Stop));
    assert_eq!(walk.finish().len(), 2);
}

#[test]
fn resolve_urls_non_tty_returns_partial_map_without_paginating() {
    let stdin = StdinContext {
        rows: vec![],
        url_map: url_map(&[(
            "only-one",
            "http://static.cninfo.com.cn/finalpage/2024-04-01/1.PDF",
        )]),
    };
    let wanted = ids(&["only-one", "missing-on-purpose"]);
    let known = known_urls(&wanted, vec![None, None], &stdin);
    let got = match resolve_urls(&wanted, known, false) {
        UrlPlan::Known(urls) => urls,
        UrlPlan::Walk(..) => panic!("what was piped must not lead to a walk"),
    };
    assert_eq!(got.len(), 1);
    assert_eq!(
        url(&got, "only-one"),
        Some("http://static.cninfo.com.cn/finalpage/2024-04-01/1.PDF")
    );
    assert_eq!(unresolved(&wanted, &got), vec!["missing-on-purpose"]);
}

#[test]
fn the_record_cache_comes_before_the_pipe() {
    let stdin = StdinContext {
        rows: vec![],
        url_map: url_map(&[("A", "http://piped/A"), ("B", "http://piped/B"), ("C", "")]),
    };
    let mut empty = row("B", d(2024, 4, 3), "B.PDF");
    empty.url = "".into();
    let cached = vec![Some(row("A", d(2024, 4, 3), "A.PDF")), Some(empty), None];
    let wanted = ids(&["A", "B", "C"]);
    let urls = known_urls(&wanted, cached, &stdin);
    assert_eq!(url(&urls, "A"), Some("http://static.cninfo.com.cn/A.PDF"));
    assert_eq!(url(&urls, "B"), Some("http://piped/B"));
    assert_eq!(url(&urls, "C"), None);
    assert!(matches!(resolve_urls(&ids(&["A"]), urls, true), UrlPlan::Known(_)));
    let mut noted = piped_urls(&stdin);
    note_cached(&mut noted, "B", Some(row("B", d(2024, 4, 3), "B.PDF")));
    assert_eq!(url(&noted, "B"), Some("http://static.cninfo.com.cn/B.PDF"));
}

#[test]
fn walks_go_on_until_every_id_is_found() {
    let (mut walk, _) = UrlWalk::new(&ids(&["P", "Q"]), TextMap::new());
    assert!(matches!(walk.on_page(&vec![row("P", d(2024, 4, 1), "P.PDF")]), WalkStep::Go(_)));
    let mut empty = row("Q", d(2024, 4, 1), "");
    empty.url = "".into();
    assert!(matches!(walk.on_page(&vec![empty]), WalkStep::Go(_)));
    assert!(matches!(walk.on_page(&vec![row("Q", d(2024, 4, 1), "Q.PDF")]), WalkStep::Stop));
    let got = walk.finish();
    assert_eq!(url(&got, "P"), Some("http://static.cninfo.com.cn/P.PDF"));
    assert_eq!(url(&got, "Q"), Some("http://static.cninfo.com.cn/Q.PDF"));
}

// ---- PDFs -----------------------------------------------------------------

#[test]
fn pdfs_land_in_their_slots() {
    let files = FileCache::open("/f".into());
    assert_eq!(download_place(Some(&files), "100").unwrap(), "/f/announcements/100.pdf");
    assert_eq!(pdf_path(Some(&files), "100").as_deref(), Some("/f/announcements/100.pdf"));
    assert!(is_pdf_cached(Some(&files), Some(20)));
    assert!(!is_pdf_cached(Some(&files), Some(0)));
    assert_eq!(
        copy_places(Some(&files), "100", "/out").unwrap(),
        ("/f/announcements/100.pdf".to_string(), "/out/100.pdf".to_string())
    );
}

#[test]
fn download_pdf_without_file_cache_returns_io_error() {
    let err = download_place(None, "100").unwrap_err();
    assert!(matches!(err, SiftError::Io(_)), "got {err:?}");
    assert!(matches!(copy_places(None, "100", "/out"), Err(SiftError::Io(_))));
}

#[test]
fn is_pdf_cached_false_without_file_cache() {
    assert!(!is_pdf_cached(None, Some(5)));
    assert_eq!(pdf_path(None, "anything"), None);
}

// ---- options --------------------------------------------------------------

fn default_list_args() -> ListArgs {
    ListArgs {
        symbols: vec![],
        type_zh: None,
        keyword: None,
        start: None,
        end: None,
        limit: 20,
    }
}

#[test]
fn announce_polite_delay_ms_reads_env_var_when_set() {
    assert_eq!(polite_delay_ms(Some("7")), 7);
    assert_eq!(polite_delay_ms(None), POLITE_DELAY_DEFAULT_MS);
    assert_eq!(polite_delay_ms(Some("soon")), POLITE_DELAY_DEFAULT_MS);
}

#[test]
fn mod_polite_delay_ms_reads_env_var_when_set() {
    assert_eq!(polite_delay_ms(Some("7")), 7);
    assert_eq!(polite_delay_ms(None), POLITE_DELAY_DEFAULT_MS);
    assert_eq!(polite_delay_ms(Some("soon")), POLITE_DELAY_DEFAULT_MS);
}

#[test]
fn announce_validate_list_args_rejects_no_symbols_and_no_dates() {
    let args = default_list_args();
    let err = validate_list_args(&args).unwrap_err();
    assert!(matches!(err, SiftError::Internal(_)));
    assert_eq!(err.exit_code(), 1);
    assert!(err.message().contains("--start"));
}

#[test]
fn mod_validate_list_args_rejects_no_symbols_and_no_dates() {
    let args = default_list_args();
    let err = validate_list_args(&args).unwrap_err();
    assert!(matches!(err, SiftError::Internal(_)));
    assert_eq!(err.exit_code(), 1);
    assert!(err.message().contains("--start"));
}

#[test]
fn announce_validate_list_args_passes_with_only_symbols() {
    let args = ListArgs { symbols: vec!["600519".into()], ..default_list_args() };
    assert!(validate_list_args(&args).is_ok());
}

#[test]
fn mod_validate_list_args_passes_with_only_symbols() {
    let args = ListArgs { symbols: vec!["600519".into()], ..default_list_args() };
    assert!(validate_list_args(&args).is_ok());
}

#[test]
fn announce_validate_list_args_passes_with_only_start() {
    let args = ListArgs { start: Some(d(2024, 4, 1)), ..default_list_args() };
    assert!(validate_list_args(&args).is_ok());
    let args = ListArgs { end: Some(d(2024, 4, 1)), ..default_list_args() };
    assert!(validate_list_args(&args).is_ok());
}

#[test]
fn mod_validate_list_args_passes_with_only_start() {
    let args = ListArgs { start: Some(d(2024, 4, 1)), ..default_list_args() };
    assert!(validate_list_args(&args).is_ok());
    let args = ListArgs { end: Some(d(2024, 4, 1)), ..default_list_args() };
    assert!(validate_list_args(&args).is_ok());
}

#[test]
fn announce_parse_iso_date_accepts_yyyy_mm_dd() {
    let got = parse_iso_date("2024-04-03").unwrap();
    assert_eq!(got, d(2024, 4, 3));
}

#[test]
fn input_parse_iso_date_accepts_yyyy_mm_dd() {
    let got = parse_iso_date("2024-04-03").unwrap();
    assert_eq!(got, d(2024, 4, 3));
}

#[test]
fn announce_parse_iso_date_rejects_garbage() {
    let err = parse_iso_date("not-a-date").unwrap_err();
    assert!(err.contains("invalid date"), "err: {err}");
    assert!(err.starts_with("invalid date \"not-a-date\": "), "err: {err}");
}

#[test]
fn input_parse_iso_date_rejects_garbage() {
    let err = parse_iso_date("not-a-date").unwrap_err();
    assert!(err.contains("invalid date"), "err: {err}");
    assert!(err.starts_with("invalid date \"not-a-date\": "), "err: {err}");
}

#[test]
fn announce_lookup_category_resolves_known_and_returns_none_for_unknown() {
    assert_eq!(lookup_category(&cats(), "年报").as_deref(), Some("category_ndbg_szsh"));
    assert!(lookup_category(&cats(), "不存在").is_none());
    assert!(lookup_category(&cats(), "定期报告").is_none());
}

#[test]
fn input_lookup_category_resolves_known_and_returns_none_for_unknown() {
    assert_eq!(lookup_category(&cats(), "年报").as_deref(), Some("category_ndbg_szsh"));
    assert!(lookup_category(&cats(), "不存在").is_none());
    assert!(lookup_category(&cats(), "定期报告").is_none());
}

#[test]
fn announce_expand_categories_none_yields_single_empty_no_filter() {
    let (notice, keys) = expand_categories(&cats(), None);
    assert_eq!(notice, None);
    assert_eq!(keys.unwrap(), vec![String::new()]);
}

#[test]
fn input_expand_categories_none_yields_single_empty_no_filter() {
    let (notice, keys) = expand_categories(&cats(), None);
    assert_eq!(notice, None);
    assert_eq!(keys.unwrap(), vec![String::new()]);
}

#[test]
fn announce_expand_categories_known_returns_single_key() {
    let (notice, keys) = expand_categories(&cats(), Some("年报"));
    assert_eq!(notice, None);
    assert_eq!(keys.unwrap(), vec!["category_ndbg_szsh".to_string()]);
}

#[test]
fn input_expand_categories_known_returns_single_key() {
    let (notice, keys) = expand_categories(&cats(), Some("年报"));
    assert_eq!(notice, None);
    assert_eq!(keys.unwrap(), vec!["category_ndbg_szsh".to_string()]);
}

#[test]
fn announce_expand_categories_aggregate_fans_out_to_four_keys_in_readme_order() {
    let (notice, keys) = expand_categories(&cats(), Some("定期报告"));
    assert_eq!(notice.as_deref(), Some("[info] 定期报告 = 4 次子查询"));
    assert_eq!(
        keys.unwrap(),
        vec![
            "category_ndbg_szsh".to_string(),
            "category_bndbg_szsh".to_string(),
            "category_yjdbg_szsh".to_string(),
            "category_sjdbg_szsh".to_string(),
        ]
    );
}

#[test]
fn input_expand_categories_aggregate_fans_out_to_four_keys_in_readme_order() {
    let (notice, keys) = expand_categories(&cats(), Some("定期报告"));
    assert_eq!(notice.as_deref(), Some("[info] 定期报告 = 4 次子查询"));
    assert_eq!(
        keys.unwrap(),
        vec![
            "category_ndbg_szsh".to_string(),
            "category_bndbg_szsh".to_string(),
            "category_yjdbg_szsh".to_string(),
            "category_sjdbg_szsh".to_string(),
        ]
    );
}

#[test]
fn unknown_types_and_broken_aggregates_are_refused() {
    assert!(matches!(expand_categories(&cats(), Some("x")).1, Err(SiftError::Internal(_))));
    let broken = vec![Category {
        zh: "坏".into(),
        category: None,
        aggregates: Some(vec!["没有".into()]),
    }];
    let err = expand_categories(&broken, Some("坏")).1.unwrap_err();
    assert!(err.message().contains("has no category"), "{err:?}");
}

#[test]
fn indices_have_no_announcements() {
    assert_eq!(announce_code("600519.SH").unwrap(), "600519");
    assert_eq!(announce_code("00700").unwrap(), "00700");
    let err = announce_code("sh000001").unwrap_err();
    assert!(matches!(err, SiftError::NoApplicableSource(_)));
    assert!(err.message().contains("sh000001"), "{err:?}");
    assert!(matches!(announce_code("x"), Err(SiftError::Parse(_))));
}

#[test]
fn a_list_ends_at_the_first_symbol_that_is_not_resolved() {
    let found = |code: &str| {
        Ok(ResolvedSymbol { code: code.into(), org_id: format!("o{code}"), market: Market::CnA })
    };
    let all = resolve_all(vec![found("600519"), found("000001")]).unwrap();
    let codes: Vec<&str> = all.iter().map(|s| s.code.as_str()).collect();
    assert_eq!(codes, vec!["600519", "000001"]);
    assert!(resolve_all(vec![]).unwrap().is_empty());
    let broken = vec![
        found("600519"),
        Err(SiftError::MissingOrgId("1".into())),
        Err(SiftError::MissingOrgId("2".into())),
    ];
    match resolve_all(broken).unwrap_err() {
        SiftError::MissingOrgId(code) => assert_eq!(code, "1"),
        other => panic!("expected the first error, got {other:?}"),
    }
}

// ---- the pipe -------------------------------------------------------------

/// The announcement that a line holds as a whole.
fn whole_row(line: &str) -> Option<AnnouncementRow> {
    let v: serde_json::Value = serde_json::from_str(line.trim()).ok()?;
    let text = |k: &str| v.get(k).and_then(|x| x.as_str()).map(|s| s.to_string());
    Some(AnnouncementRow {
        id: text("id")?,
        symbol: text("symbol")?,
        name: text("name")?,
        date: parse_iso_date(&text("date")?).ok()?,
        type_zh: text("type")?,
        title: text("title")?,
        format: "pdf",
        size_kb: v.get("size_kb")?.as_u64()? as u32,
        url: text("url")?,
        source: "cninfo",
    })
}

fn lines(stdin: &str) -> Vec<RawLine> {
    stdin
        .lines()
        .map(|line| RawLine {
            text: line.to_string(),
            row: whole_row(line).ok_or_else(|| "missing field".to_string()),
        })
        .collect()
}

fn no_row() -> Result<AnnouncementRow, String> {
    Err("missing field".to_string())
}

fn read(text: &str) -> Option<PipedLine> {
    piped_line(RawLine { text: text.to_string(), row: no_row() })
}

#[test]
fn a_piped_line_is_taken_apart() {
    let line = read("  {\"id\":\"\\u0041\\\"1\",\"url\":\"http://x\",\"other\":[1]}\t").unwrap();
    assert_eq!(line.id.as_deref(), Some("A\"1"));
    assert_eq!(line.url.as_deref(), Some("http://x"));
    assert_eq!(line.row.unwrap_err(), "missing field");
    let numbers = read("{\"id\":7,\"url\":null}").unwrap();
    assert!(numbers.id.is_none() && numbers.url.is_none());
    let list = read("[\"id\",\"url\"]").unwrap();
    assert!(list.id.is_none() && list.url.is_none());
    let twice = read("{\"id\":\"1\",\"id\":\"2\"}").unwrap();
    assert_eq!(twice.id.as_deref(), Some("2"));
    for nothing in ["", "  \t ", "[info] done", "{\"id\":", "{\"id\":\"1\"} x"] {
        assert!(read(nothing).is_none(), "{nothing:?}");
    }
}

#[test]
fn what_is_read_makes_the_line() {
    let line = piped_parts(Some(Some("1".into())), Some(None), no_row()).unwrap();
    assert_eq!(line.id.as_deref(), Some("1"));
    assert!(line.url.is_none());
    assert!(piped_parts(None, Some(None), no_row()).is_none());
    assert!(piped_parts(Some(None), None, no_row()).is_none());
    let piped = |id: &str, url: &str| PipedLine {
        id: Some(id.into()),
        url: Some(url.into()),
        row: Ok(row(id, d(2024, 4, 3), "x.PDF")),
    };
    let ctx = stdin_ctx(vec![piped("1", "a"), piped("2", ""), piped("1", "b")]);
    assert_eq!(ctx.url_map.len(), 1);
    assert_eq!(url(&ctx.url_map, "1"), Some("b"));
    assert_eq!(ctx.rows.len(), 3);
    assert_eq!(row_for_id(vec![piped("1", "a"), piped("2", "")], "2").unwrap().id, "2");
    assert!(matches!(row_for_id(vec![], "2"), Err(SiftError::NotFound(_))));
}

const TWO_URLS: &str = r#"{"id":"100","url":"http://x/100.PDF","title":"t"}
{"id":"101","url":"http://x/101.PDF"}
"#;

const GARBLED: &str = "not json\n{\"id\":\"only-id\"}\n{\"url\":\"http://x/orphan.PDF\"}\n{\"id\":\"empty-url\",\"url\":\"\"}\n{\"id\":\"100\",\"url\":\"http://x/100.PDF\"}\n";

const ONE_ROW: &str = r#"{"id":"100","symbol":"600519.SH","name":"x","date":"2024-04-03","type":"年报","title":"t","format":"pdf","size_kb":12,"url":"http://u","source":"cninfo"}
{"id":"only-url","url":"http://y","title":"z"}
"#;

const TWO_ROWS: &str = r#"{"id":"100","symbol":"600519.SH","name":"x","date":"2024-04-03","type":"年报","title":"t","format":"pdf","size_kb":12,"url":"http://u","source":"cninfo"}
{"id":"101","symbol":"600519.SH","name":"y","date":"2024-04-04","type":"年报","title":"t2","format":"pdf","size_kb":34,"url":"http://v","source":"cninfo"}
"#;

#[test]
fn read_stdin_ctx_collects_id_to_url_pairs() {
    let ctx = read_stdin_ctx(lines(TWO_URLS));
    assert_eq!(ctx.url_map.len(), 2);
    assert_eq!(url(&ctx.url_map, "100"), Some("http://x/100.PDF"));
    assert_eq!(url(&ctx.url_map, "101"), Some("http://x/101.PDF"));
    assert!(ctx.rows.is_empty());
}

#[test]
fn read_stdin_url_map_collects_id_to_url_pairs() {
    let ctx = read_stdin_ctx(lines(TWO_URLS));
    assert_eq!(ctx.url_map.len(), 2);
    assert_eq!(url(&ctx.url_map, "100"), Some("http://x/100.PDF"));
    assert_eq!(url(&ctx.url_map, "101"), Some("http://x/101.PDF"));
    assert!(ctx.rows.is_empty());
}

#[test]
fn read_stdin_ctx_skips_rows_missing_url_or_id_or_malformed() {
    let ctx = read_stdin_ctx(lines(GARBLED));
    assert_eq!(ctx.url_map.len(), 1);
    assert_eq!(url(&ctx.url_map, "100"), Some("http://x/100.PDF"));
}

#[test]
fn read_stdin_url_map_skips_rows_missing_url_or_id_or_malformed() {
    let ctx = read_stdin_ctx(lines(GARBLED));
    assert_eq!(ctx.url_map.len(), 1);
    assert_eq!(url(&ctx.url_map, "100"), Some("http://x/100.PDF"));
}

#[test]
fn read_stdin_ctx_extracts_full_rows_when_present() {
    let ctx = read_stdin_ctx(lines(ONE_ROW));
    assert_eq!(ctx.url_map.len(), 2);
    assert_eq!(ctx.rows.len(), 1);
    assert_eq!(ctx.rows[0].id, "100");
    assert_eq!(ctx.rows[0].symbol, "600519.SH");
}

#[test]
fn read_stdin_url_map_extracts_full_rows_when_present() {
    let ctx = read_stdin_ctx(lines(ONE_ROW));
    assert_eq!(ctx.url_map.len(), 2);
    assert_eq!(ctx.rows.len(), 1);
    assert_eq!(ctx.rows[0].id, "100");
    assert_eq!(ctx.rows[0].symbol, "600519.SH");
}

#[test]
fn read_stdin_ctx_finds_row_by_id_among_many() {
    let ctx = read_stdin_ctx(lines(TWO_ROWS));
    let row = ctx.rows.iter().find(|r| r.id == "101").unwrap();
    assert_eq!(row.date, d(2024, 4, 4));
    assert_eq!(row.size_kb, 34);
}

#[test]
fn read_stdin_ctx_skips_malformed_lines() {
    let stdin = "not json\n{\"id\":\"100\",\"symbol\":\"x\",\"name\":\"x\",\"date\":\"2024-04-03\",\"type\":\"年报\",\"title\":\"t\",\"format\":\"pdf\",\"size_kb\":0,\"url\":\"http://u\",\"source\":\"cninfo\"}\n";
    let ctx = read_stdin_ctx(lines(stdin));
    assert_eq!(ctx.rows.len(), 1);
    assert_eq!(ctx.rows[0].id, "100");
    assert_eq!(ctx.url_map.len(), 1);
    assert_eq!(url(&ctx.url_map, "100"), Some("http://u"));
}

#[test]
fn read_stdin_for_id_finds_matching_id_among_many() {
    let row = read_stdin_for_id(lines(TWO_ROWS), "101").unwrap();
    assert_eq!(row.id, "101");
    assert_eq!(row.date, d(2024, 4, 4));
    assert_eq!(row.size_kb, 34);
}

#[test]
fn read_stdin_for_id_returns_not_found_when_no_match() {
    let stdin = r#"{"id":"100","symbol":"x","name":"x","date":"2024-04-03","type":"年报","title":"t","format":"pdf","size_kb":0,"url":"","source":"cninfo"}
"#;
    let err = read_stdin_for_id(lines(stdin), "999").unwrap_err();
    assert!(matches!(err, SiftError::NotFound(_)));
    assert_eq!(err.exit_code(), 4);
}

#[test]
fn read_stdin_for_id_skips_malformed_lines() {
    let stdin = "not json\n{\"id\":\"100\",\"symbol\":\"x\",\"name\":\"x\",\"date\":\"2024-04-03\",\"type\":\"年报\",\"title\":\"t\",\"format\":\"pdf\",\"size_kb\":0,\"url\":\"\",\"source\":\"cninfo\"}\n";
    let row = read_stdin_for_id(lines(stdin), "100").unwrap();
    assert_eq!(row.id, "100");
}

#[test]
fn a_line_with_the_id_but_no_row_is_told() {
    let err = read_stdin_for_id(lines(TWO_URLS), "101").unwrap_err();
    assert!(err.message().contains("stdin row deserialize: missing field"), "{err:?}");
}

#[test]
fn later_urls_replace_earlier_ones() {
    let stdin = "{\"id\":\"1\",\"url\":\"a\"}\n\n{\"id\":\"1\",\"url\":\"b\"}\n{\"id\":\"1\",\"url\":\"\"}\n";
    let ctx = read_stdin_ctx(lines(stdin));
    assert_eq!(url(&ctx.url_map, "1"), Some("b"));
}

// ---- downloads ------------------------------------------------------------

#[test]
fn downloads_come_from_the_cache_or_their_url() {
    let urls = url_map(&[("2", "http://x/2")]);
    assert!(matches!(download_one("1", true, &urls, true), Ok(DownloadStep::Copy)));
    match download_one("2", false, &urls, true) {
        Ok(DownloadStep::Fetch(u)) => assert_eq!(u, "http://x/2"),
        other => panic!("expected a fetch, got {other:?}"),
    }
    let tty = download_one("3", false, &urls, true).unwrap_err().message();
    assert!(tty.contains("no url context for 3"), "{tty}");
    match download_one("3", false, &urls, false).unwrap_err() {
        SiftError::NotFound(id) => assert_eq!(id, "3"),
        other => panic!("expected NotFound, got {other:?}"),
    }
    assert_eq!(needs_url(&ids(&["1", "2", "3"]), &vec![true, false, false]), ids(&["2", "3"]));
}

#[test]
fn download_lines() {
    assert_eq!(cached_line(1, 2, "7", "out/7.pdf"), "[1/2] 7  cached  → out/7.pdf");
    assert_eq!(fetched_line(2, 2, "7", 3000, "out/7.pdf"), "[2/2] 7  fetched 2 KB  → out/7.pdf");
    assert_eq!(cached_str(Some("/c/7.pdf"), true), "/c/7.pdf  (yes)");
    assert_eq!(cached_str(Some("/c/7.pdf"), false), "/c/7.pdf  (no)");
    assert_eq!(cached_str(None, false), "—  (no cache)");
}

fn run_all(n: usize, delay: u64, failing: &[usize]) -> (Vec<Option<u64>>, Result<(), SiftError>) {
    let list: Vec<String> = (0..n).map(|i| format!("id{i}")).collect();
    let mut run = DownloadRun::new(list, delay);
    let mut pauses = Vec::new();
    let mut i = 0;
    while run.next().is_some() {
        assert_eq!(run.next().unwrap(), format!("id{i}"));
        let failure = if failing.contains(&i) {
            Some(SiftError::Network("boom".into()))
        } else {
            None
        };
        let failed = failure.is_some();
        let (line, pause) = run.settle(failure);
        assert_eq!(line.is_some(), failed);
        if let Some(l) = line {
            assert!(l.starts_with(&format!("[{}/{}] id{} failed: ", i + 1, n, i)), "{l}");
        }
        pauses.push(pause);
        i += 1;
    }
    (pauses, run.finish())
}

#[test]
fn large_batches_pause_between_downloads() {
    let (pauses, end) = run_all(5, 200, &[]);
    assert_eq!(pauses, vec![Some(200), Some(200), Some(200), Some(200), None]);
    assert!(end.is_ok());
    let (pauses, _) = run_all(4, 200, &[]);
    assert_eq!(pauses, vec![None, None, None, None]);
    let (pauses, _) = run_all(5, 0, &[]);
    assert!(pauses.iter().all(|p| p.is_none()));
}

#[test]
fn failed_downloads_are_counted() {
    let (_, end) = run_all(3, 0, &[0, 2]);
    match end.unwrap_err() {
        SiftError::Network(m) => assert_eq!(m, "2 of 3 downloads failed"),
        other => panic!("expected Network, got {other:?}"),
    }
}
