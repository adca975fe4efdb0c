use std::collections::HashMap;

use sift::cache::announcements;
use sift::cache::file::FileCache;
use sift::cache::financials::{
    cache_key, market_from_u8, put_records, rows_of_record, rows_written_at, StoredRow,
};
use sift::cache::record::{default_path, make_key, Kind, RecordCache};
use sift::cache::search::{load_cached_names, load_cached_org_ids, SearchCacheOpts};
use sift::cache::ttl::{bucket_for, TtlBucket};
use sift::cache::{
    cache_root, format_mtime_utc, format_utc_secs, home_dir, is_fresh, is_present, join_path, ttl,
    tmp_extension, CACHE_TTL_SEARCH_SECS,
};
use sift::date::{civil_from_days, read_instant, Date};
use sift::domain::items_dict::{drain_unmapped, load_dict};
use sift::domain::market::{InstrumentKind, Market};
use sift::domain::{
    Amount, AuditStatus, FinancialRow, Period, PeriodType, Scope, SourceTag, Statement, Symbol,
    Unit,
};
use sift::error::SiftError;
use sift::sources::cninfo::CnInfoRow;
use sift::text_map::TextSet;

const HOUR: i128 = 3_600_000_000_000;
const DAY: i128 = 24 * HOUR;

/// 2026-05-20T12:00:00Z.
const NOW: i128 = 1_779_278_400 * 1_000_000_000;

fn d(y: i32, m: u8, day: u8) -> Date {
    Date::from_calendar_date(y, m, day).unwrap()
}

fn maotai() -> Symbol {
    Symbol { code: "600519".into(), market: Market::CnA, kind: InstrumentKind::Equity }
}

fn fin_row(period_end: Date, item: &str, value: f64, source: SourceTag) -> FinancialRow {
    FinancialRow {
        symbol: maotai(),
        name: "贵州茅台".into(),
        period: period_end,
        period_type: PeriodType::from_date(period_end).unwrap_or(PeriodType::Annual),
        statement: Statement::Income,
        scope: Scope::Consolidated,
        item: item.into(),
        value: Amount { bits: value.to_bits() },
        unit: Unit::Raw,
        currency: "CNY".into(),
        publish_date: None,
        audit: AuditStatus::Unknown,
        source,
    }
}

// ---- files ----------------------------------------------------------------

#[test]
fn filename_is_lowercase_pdf_extension() {
    assert_eq!(announcements::filename("1219506510"), "1219506510.pdf");
}

#[test]
fn a_file_is_cached_only_with_some_length() {
    assert!(!announcements::is_cached(true, None));
    assert!(!announcements::is_cached(true, Some(0)));
    assert!(announcements::is_cached(true, Some(14)));
    assert!(!announcements::is_cached(false, Some(14)));
    assert!(is_present(Some(1)));
    assert!(!is_present(None));
}

#[test]
fn announcement_places() {
    assert_eq!(
        announcements::pdf_path(Some("/home/u"), "7").unwrap(),
        "/home/u/.sift/cache/announcements/7.pdf"
    );
    assert_eq!(
        announcements::cache_dir(Some("/home/u")).unwrap(),
        "/home/u/.sift/cache/announcements"
    );
    assert!(matches!(announcements::pdf_path(None, "7"), Err(SiftError::Io(_))));
    assert_eq!(announcements::copy_to("abc", "/tmp/out"), "/tmp/out/abc.pdf");
}

#[test]
fn path_does_not_validate_existence() {
    let cache = FileCache::open("/no/such/place".into());
    let p = cache.path("anything/that/does/not/exist");
    assert!(p.starts_with("/no/such/place"));
    assert_eq!(p, "/no/such/place/anything/that/does/not/exist");
}

#[test]
fn paths_join_as_the_file_system_reads_them() {
    assert_eq!(join_path("/a", "b"), "/a/b");
    assert_eq!(join_path("/a/", "b"), "/a/b");
    assert_eq!(join_path("/a", "/b"), "/b");
    assert_eq!(join_path("", "b"), "b");
}

#[test]
fn homes_and_roots() {
    assert_eq!(home_dir(Some("/h".into()), Some("/s".into())).as_deref(), Some("/h"));
    assert_eq!(home_dir(Some("".into()), Some("/s".into())).as_deref(), Some("/s"));
    assert_eq!(home_dir(None, None), None);
    assert_eq!(cache_root(Some("/h")).unwrap(), "/h/.sift/cache");
    assert!(cache_root(None).is_err());
}

#[test]
fn ages_against_the_time_to_live() {
    assert!(is_fresh(Some(0), 3600));
    assert!(is_fresh(Some(3599), 3600));
    assert!(!is_fresh(Some(3600), 3600));
    assert!(!is_fresh(Some(25 * 3600), CACHE_TTL_SEARCH_SECS));
    assert!(!is_fresh(None, 3600));
}

#[test]
fn temporary_names_end_in_tmp() {
    assert_eq!(tmp_extension(Some("json")), "json.tmp");
    assert_eq!(tmp_extension(None), "dat.tmp");
}

#[test]
fn format_utc_secs_known_timestamps() {
    assert_eq!(format_utc_secs(0), "1970-01-01 00:00:00");
    assert_eq!(format_utc_secs(1_704_067_200), "2024-01-01 00:00:00");
    assert_eq!(format_utc_secs(1_779_287_521), "2026-05-20 14:32:01");
    assert_eq!(format_utc_secs(1_704_067_200 + 59 * 86_400), "2024-02-29 00:00:00");
}

#[test]
fn format_mtime_utc_returns_question_mark_for_missing_file() {
    assert_eq!(format_mtime_utc(None), "?");
    assert_eq!(format_mtime_utc(Some(86_399)), "1970-01-01 23:59:59");
}

#[test]
fn civil_days_on_both_sides_of_the_epoch() {
    assert_eq!(civil_from_days(0), (1970, 1, 1));
    assert_eq!(civil_from_days(-1), (1969, 12, 31));
    assert_eq!(civil_from_days(19_782), (2024, 2, 29));
    assert_eq!(civil_from_days(-719_468), (0, 3, 1));
}

// ---- time to live ---------------------------------------------------------

#[test]
fn bucket_for_classifies_by_age() {
    let today = d(2026, 5, 20);
    assert_eq!(bucket_for(d(2020, 12, 31), today), TtlBucket::Old);
    assert_eq!(bucket_for(d(2024, 12, 31), today), TtlBucket::Old);
    assert_eq!(bucket_for(d(2025, 9, 30), today), TtlBucket::Mid);
    assert_eq!(bucket_for(d(2026, 3, 31), today), TtlBucket::Recent);
    assert_eq!(bucket_for(today, today), TtlBucket::Recent);
}

#[test]
fn buckets_change_at_90_and_after_365_days() {
    let today = d(2026, 5, 20);
    assert_eq!(bucket_for(today.days_back(89), today), TtlBucket::Recent);
    assert_eq!(bucket_for(today.days_back(90), today), TtlBucket::Mid);
    assert_eq!(bucket_for(today.days_back(365), today), TtlBucket::Mid);
    assert_eq!(bucket_for(today.days_back(366), today), TtlBucket::Old);
}

#[test]
fn ttl_table_matches_readme() {
    assert_eq!(TtlBucket::Recent.ttl(), Some(24 * 3600));
    assert_eq!(TtlBucket::Mid.ttl(), Some(30 * 24 * 3600));
    assert_eq!(TtlBucket::Old.ttl(), None);
}

#[test]
fn old_bucket_is_always_fresh() {
    assert!(ttl::is_fresh(NOW - 365 * 5 * DAY, NOW, TtlBucket::Old));
}

#[test]
fn recent_bucket_expires_after_24h() {
    assert!(ttl::is_fresh(NOW - HOUR, NOW, TtlBucket::Recent));
    assert!(!ttl::is_fresh(NOW - 25 * HOUR, NOW, TtlBucket::Recent));
}

#[test]
fn mid_bucket_expires_after_30_days() {
    assert!(ttl::is_fresh(NOW - 15 * DAY, NOW, TtlBucket::Mid));
    assert!(!ttl::is_fresh(NOW - 31 * DAY, NOW, TtlBucket::Mid));
}

#[test]
fn what_is_fresh_later_was_fresh_before() {
    for bucket in [TtlBucket::Recent, TtlBucket::Mid, TtlBucket::Old] {
        let mut was = true;
        for hours in [0, 1, 23, 24, 25, 24 * 30, 24 * 31, 24 * 400] {
            let is = ttl::is_fresh(NOW - hours * HOUR, NOW, bucket);
            assert!(was || !is);
            was = is;
        }
    }
}

// ---- records --------------------------------------------------------------

#[test]
fn make_key_is_deterministic_and_scope_sensitive() {
    let a = make_key(Kind::AnnounceMeta, &[], "1");
    let b = make_key(Kind::AnnounceMeta, &[], "1");
    assert_eq!(a, b, "same inputs → same key");
    let c = make_key(Kind::AnnounceMeta, &["scope"], "1");
    assert_ne!(a, c, "scope changes the key");
}

#[test]
fn keys_are_blake3_digests_of_their_texts() {
    assert_eq!(
        make_key(Kind::AnnounceMeta, &["a", "b"], "1"),
        blake3::hash(b"announce-meta:a:b:1").as_bytes().to_vec()
    );
    assert_eq!(
        cache_key(
            &maotai(),
            Statement::Income,
            Period::Annual(2025),
            Scope::Consolidated,
            SourceTag::Sina,
        ),
        blake3::hash(b"600519|cn-a|income|2025-12-31|consolidated|sina").as_bytes().to_vec()
    );
    assert_eq!(make_key(Kind::Financials, &[], "").len(), 32);
}

#[test]
fn each_part_of_a_key_counts() {
    let base = make_key(Kind::AnnounceMeta, &["a"], "1");
    assert_ne!(base, make_key(Kind::Financials, &["a"], "1"));
    assert_ne!(base, make_key(Kind::AnnounceMeta, &["b"], "1"));
    assert_ne!(base, make_key(Kind::AnnounceMeta, &["a"], "2"));
}

#[test]
fn a_cache_without_storage_has_no_place() {
    assert_eq!(RecordCache::no_op().path(), None);
    assert_eq!(RecordCache::open_at("/x/records.duckdb".into()).path(), Some("/x/records.duckdb"));
    let open = RecordCache::open(Some("/h")).unwrap();
    assert_eq!(open.path().map(|p| p.to_string()), default_path(Some("/h")).ok());
    assert!(RecordCache::open(None).is_err());
}

// ---- financial records ----------------------------------------------------

#[test]
fn put_get_round_trip_returns_identical_rows() {
    let period = d(2025, 12, 31);
    let rows = vec![
        fin_row(period, "营业总收入", 172054171891.0, SourceTag::EastMoney),
        fin_row(period, "归母净利润", 82320067102.0, SourceTag::EastMoney),
    ];
    let records = put_records(&rows, SourceTag::EastMoney).unwrap();
    assert_eq!(records.len(), 1);
    let record = records.into_iter().next().unwrap();
    assert_eq!(
        record.key,
        cache_key(
            &rows[0].symbol,
            Statement::Income,
            Period::Annual(2025),
            Scope::Consolidated,
            SourceTag::EastMoney,
        )
    );
    assert_eq!(record.period_end, "2025-12-31");
    assert_eq!(record.period_type, "annual");
    let dict = load_dict("营业总收入\n归母净利润\n").unwrap();
    let mut unmapped = TextSet::new();
    let got = rows_of_record(
        Some(record.rows),
        "2026-05-20T11:00:00Z",
        NOW,
        Period::Annual(2025),
        d(2026, 5, 20),
        &dict,
        &mut unmapped,
    )
    .unwrap();
    assert_eq!(got.len(), 2);
    assert_eq!(got[0].item, "营业总收入");
    assert_eq!(f64::from_bits(got[0].value.bits), 172054171891.0);
    assert_eq!(got[1].item, "归母净利润");
    assert_eq!(f64::from_bits(got[1].value.bits), 82320067102.0);
    assert_eq!(got, rows);
    assert!(drain_unmapped(&mut unmapped).is_empty());
}

#[test]
fn stale_recent_bucket_returns_none() {
    let rows = vec![fin_row(d(2026, 3, 31), "营业总收入", 1.0, SourceTag::EastMoney)];
    let record = put_records(&rows, SourceTag::EastMoney).unwrap().into_iter().next().unwrap();
    let dict = load_dict("").unwrap();
    let mut unmapped = TextSet::new();
    let got = rows_written_at(
        Some(record.rows),
        Some(NOW - 25 * HOUR),
        NOW,
        Period::Q1(2026),
        d(2026, 5, 20),
        &dict,
        &mut unmapped,
    );
    assert!(got.is_none(), "stale Recent-bucket row must miss");
}

#[test]
fn old_bucket_is_always_fresh_even_with_ancient_fetched_at() {
    let rows = vec![fin_row(d(2020, 12, 31), "营业总收入", 1.0, SourceTag::EastMoney)];
    let record = put_records(&rows, SourceTag::EastMoney).unwrap().into_iter().next().unwrap();
    let dict = load_dict("").unwrap();
    let mut unmapped = TextSet::new();
    let got = rows_written_at(
        Some(record.rows),
        Some(NOW - 365 * 5 * DAY),
        NOW,
        Period::Annual(2020),
        d(2026, 5, 20),
        &dict,
        &mut unmapped,
    );
    assert!(got.is_some(), "Old-bucket row is permanently fresh");
}

#[test]
fn upsert_replaces_existing_row_without_growing_count() {
    let period = d(2025, 12, 31);
    let v1 = vec![fin_row(period, "营业总收入", 1.0, SourceTag::EastMoney)];
    let v2 = vec![fin_row(period, "营业总收入", 2.0, SourceTag::EastMoney)];
    let a = put_records(&v1, SourceTag::EastMoney).unwrap();
    let b = put_records(&v2, SourceTag::EastMoney).unwrap();
    assert_eq!(a.len(), 1);
    assert_eq!(b.len(), 1);
    assert_eq!(a[0].key, b[0].key, "upsert, not insert");
    assert_eq!(f64::from_bits(b[0].rows[0].value.bits), 2.0);
}

#[test]
fn different_sources_do_not_share_cache_rows() {
    let period = d(2025, 12, 31);
    let em = vec![fin_row(period, "营业总收入", 1.0, SourceTag::EastMoney)];
    let sina = vec![fin_row(period, "营业总收入", 2.0, SourceTag::Sina)];
    let a = put_records(&em, SourceTag::EastMoney).unwrap();
    let b = put_records(&sina, SourceTag::Sina).unwrap();
    assert_ne!(a[0].key, b[0].key);
    assert_eq!(a[0].rows[0].source, "eastmoney");
    assert_eq!(b[0].rows[0].source, "sina");
    let mut table = HashMap::new();
    for record in a.into_iter().chain(b) {
        table.insert(record.key.clone(), record);
    }
    assert_eq!(table.len(), 2);
    let dict = load_dict("营业总收入\n").unwrap();
    let mut get = |source: SourceTag| {
        let key = cache_key(
            &maotai(),
            Statement::Income,
            Period::Annual(2025),
            Scope::Consolidated,
            source,
        );
        let rows = table.remove(&key).map(|r| r.rows);
        let mut unmapped = TextSet::new();
        rows_written_at(
            rows,
            Some(NOW),
            NOW,
            Period::Annual(2025),
            d(2026, 5, 20),
            &dict,
            &mut unmapped,
        )
        .unwrap()
    };
    let got_em = get(SourceTag::EastMoney);
    let got_sina = get(SourceTag::Sina);
    assert_eq!(f64::from_bits(got_em[0].value.bits), 1.0);
    assert_eq!(f64::from_bits(got_sina[0].value.bits), 2.0);
}

#[test]
fn a_later_put_takes_the_place_of_an_earlier_one() {
    let period = d(2025, 12, 31);
    let mut table = HashMap::new();
    for value in [1.0, 2.0] {
        let rows = vec![
            fin_row(period, "b", value, SourceTag::Sina),
            fin_row(period, "a", value, SourceTag::Sina),
        ];
        for record in put_records(&rows, SourceTag::Sina).unwrap() {
            table.insert(record.key.clone(), record);
        }
        assert_eq!(table.len(), 1);
    }
    for record in put_records(&[], SourceTag::Sina).unwrap() {
        table.insert(record.key.clone(), record);
    }
    assert_eq!(table.len(), 1);
    let record = table.into_values().next().unwrap();
    let got: Vec<(String, f64)> = record
        .rows
        .into_iter()
        .map(|r| r.into_row())
        .map(|r| (r.item, f64::from_bits(r.value.bits)))
        .collect();
    assert_eq!(got, vec![("b".to_string(), 2.0), ("a".to_string(), 2.0)]);
}

#[test]
fn rows_are_grouped_by_period_statement_and_scope() {
    let mut parent = fin_row(d(2025, 12, 31), "x", 3.0, SourceTag::EastMoney);
    parent.scope = Scope::Parent;
    let rows = vec![
        fin_row(d(2025, 12, 31), "a", 1.0, SourceTag::EastMoney),
        fin_row(d(2024, 12, 31), "a", 2.0, SourceTag::EastMoney),
        parent,
        fin_row(d(2025, 12, 31), "b", 4.0, SourceTag::EastMoney),
    ];
    let records = put_records(&rows, SourceTag::EastMoney).unwrap();
    assert_eq!(records.len(), 3);
    let sizes: usize = records.iter().map(|r| r.rows.len()).sum();
    assert_eq!(sizes, 4);
    let both = records
        .iter()
        .find(|r| r.period_end == "2025-12-31" && r.scope == "consolidated")
        .unwrap();
    let items: Vec<&str> = both.rows.iter().map(|r| r.item.as_str()).collect();
    assert_eq!(items, vec!["a", "b"]);
    assert!(put_records(&[], SourceTag::Sina).unwrap().is_empty());
}

#[test]
fn a_record_without_a_readable_time_or_body_is_a_miss() {
    let dict = load_dict("").unwrap();
    let mut unmapped = TextSet::new();
    let stored = || vec![StoredRow::from_row(&fin_row(d(2020, 12, 31), "x", 1.0, SourceTag::Sina))];
    let get = |body, at: &str, unmapped: &mut TextSet| {
        rows_of_record(body, at, NOW, Period::Annual(2020), d(2026, 5, 20), &dict, unmapped)
    };
    assert!(get(Some(stored()), "yesterday", &mut unmapped).is_none());
    assert!(get(None, "2020-01-01T00:00:00Z", &mut unmapped).is_none());
    assert!(drain_unmapped(&mut unmapped).is_empty());
    let rows = get(Some(stored()), "2020-01-01T00:00:00Z", &mut unmapped).unwrap();
    assert_eq!(rows[0].item, "x");
    assert_eq!(drain_unmapped(&mut unmapped), vec!["x"]);
}

#[test]
fn instants_are_read_in_nanoseconds() {
    assert_eq!(read_instant("2026-05-20T12:00:00Z"), Some(NOW));
    assert_eq!(read_instant("2026-05-20T20:00:00+08:00"), Some(NOW));
    assert_eq!(read_instant("yesterday"), None);
}

#[test]
fn stored_rows_read_back() {
    let mut row = fin_row(d(2024, 6, 30), "item", -1.5, SourceTag::Sina);
    row.unit = Unit::Wan;
    row.audit = AuditStatus::Audited;
    row.publish_date = Some(d(2024, 8, 30));
    row.scope = Scope::Parent;
    row.statement = Statement::Cashflow;
    let stored = StoredRow::from_row(&row);
    assert_eq!(stored.period, "2024-06-30");
    assert_eq!(stored.publish_date.as_deref(), Some("2024-08-30"));
    assert_eq!(stored.into_row(), row);
}

#[test]
fn stored_rows_with_odd_fields_read_as_something() {
    let row = fin_row(d(2024, 6, 30), "item", 1.0, SourceTag::Sina);
    let mut stored = StoredRow::from_row(&row);
    stored.period = "someday".into();
    stored.symbol_market = 9;
    stored.statement = "?".into();
    stored.source = "?".into();
    stored.publish_date = Some("2024-02-30".into());
    let back = stored.into_row();
    assert_eq!(back.period, d(1970, 1, 1));
    assert_eq!(back.symbol.market, Market::CnA);
    assert_eq!(back.statement, Statement::Income);
    assert_eq!(back.source, SourceTag::EastMoney);
    assert_eq!(back.publish_date, None);
    assert_eq!(market_from_u8(1), Market::Hk);
    assert_eq!(market_from_u8(2), Market::Us);
}

// ---- names and ids --------------------------------------------------------

fn stock(code: &str, name: &str, org: &str) -> CnInfoRow {
    CnInfoRow {
        code: code.into(),
        zwjc: name.into(),
        pinyin: "".into(),
        category: "".into(),
        org_id: org.into(),
    }
}

#[test]
fn names_and_ids_of_both_lists() {
    let names = load_cached_names(
        Some(vec![stock("600519", "贵州茅台", "gssh0600519")]),
        Some(vec![stock("00700", "腾讯控股", "gshk00700")]),
    );
    assert_eq!(names.len(), 2);
    assert_eq!(names.get("600519").map(|s| s.as_str()), Some("贵州茅台"));
    let ids = load_cached_org_ids(None, Some(vec![stock("00700", "腾讯控股", "gshk00700")]));
    assert_eq!(ids.len(), 1);
    assert_eq!(ids.get("00700"), Some(&(Market::Hk, "gshk00700".to_string())));
    assert_eq!(load_cached_names(None, None).len(), 0);
}

#[test]
fn the_cache_is_consulted_by_default() {
    assert!(!SearchCacheOpts::default().no_cache);
}
