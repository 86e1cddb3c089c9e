use airq::client::{file_lines, poll_delay, split_pieces};
use airq::envelope::{decrypt, derive_key, encrypt, seal};
use airq::file_ref::{parse_number, sort_files};
use airq::index::{flatten_index, DayEntry, MonthEntry, YearEntry};
use airq::sync::{
    day_dir, month_dir, select_from_index, use_flat_index, walk_days, walk_files, walk_months,
    walk_years, year_dir, DAY_SECS, FLAT_INDEX_DAYS,
};
use airq::window::{combine_count, combine_window, start_file_at};
use airq::{AirQ, Error, FilePath, Sevendays, Stamped, Status, SyncCursor};

fn fp(year: u16, month: u8, day: u8, timestamp: u64) -> FilePath {
    FilePath { year, month, day, timestamp }
}

fn strings(v: &[&str]) -> Vec<String> {
    v.iter().map(|s| s.to_string()).collect()
}

fn stamped(ts: &[u64]) -> Vec<Stamped<u64>> {
    ts.iter().map(|&t| Stamped { timestamp: t, value: t * 10 }).collect()
}

fn timestamps_of(store: &Sevendays<u64>) -> Vec<u64> {
    store.records().iter().map(|r| r.timestamp).collect()
}

#[test]
fn key_is_padded_with_ascii_zeros() {
    let short = derive_key(b"abc");
    let padded = derive_key(format!("abc{}", "0".repeat(29)).as_bytes());
    assert_eq!(short, padded);
    assert_eq!(short.len(), 32);
    assert_eq!(&short[..3], b"abc");
    assert!(short[3..].iter().all(|&b| b == b'0'));
}

#[test]
fn key_is_truncated_to_32_bytes() {
    let long: Vec<u8> = (0u8..40).collect();
    let key = derive_key(&long);
    assert_eq!(key, long[..32].to_vec());
}

#[test]
fn sealed_envelope_opens_to_plaintext() {
    let key = derive_key(b"secret");
    let iv = vec![7u8; 16];
    let plain = b"{\"a\":1}".to_vec();
    let text = seal(&key, &iv, &plain);
    // 16 bytes of IV and one block of ciphertext: 32 bytes, 44 base64 characters.
    assert_eq!(text.len(), 44);
    assert_ne!(text.as_bytes(), &plain[..]);
    assert_eq!(decrypt(&key, &text).unwrap(), plain);
}

#[test]
fn encrypt_then_decrypt_round_trips() {
    let key = derive_key(b"password");
    for plain in [Vec::new(), b"x".to_vec(), vec![0xAB; 16], vec![1u8; 100]] {
        let text = encrypt(&key, &plain);
        assert_eq!(decrypt(&key, &text).unwrap(), plain);
    }
}

#[test]
fn encrypt_draws_a_fresh_iv() {
    let key = derive_key(b"password");
    let a = encrypt(&key, &b"same".to_vec());
    let b = encrypt(&key, &b"same".to_vec());
    assert_ne!(a, b);
}

#[test]
fn decrypt_rejects_bad_base64() {
    let key = derive_key(b"k");
    assert!(matches!(decrypt(&key, "not base64!"), Err(Error::Base64Error(_))));
}

#[test]
fn decrypt_rejects_short_envelope() {
    let key = derive_key(b"k");
    // eight bytes: too short for an IV
    assert!(matches!(decrypt(&key, "AAAAAAAAAAA="), Err(Error::DecryptionError)));
}

#[test]
fn decrypt_rejects_partial_block() {
    let key = derive_key(b"k");
    // sixteen bytes of IV and six bytes of ciphertext
    let text = "AAAAAAAAAAAAAAAAAAAAAAAAAAAAAA==";
    assert!(matches!(decrypt(&key, text), Err(Error::DecryptionError)));
}

#[test]
fn error_kinds_have_descriptions() {
    assert_eq!(Error::DecryptionError.describe(), "decryption error");
    assert_eq!(Error::JsonError.describe(), "JSON deserialization error");
    assert_eq!(Error::MalformedEntry("x".to_string()).describe(), "malformed directory entry");
}

#[test]
fn file_path_renders_as_request_path() {
    assert_eq!(fp(2021, 6, 7, 1623093314).path(), "2021/6/7/1623093314");
    assert_eq!(fp(0, 0, 0, 0).path(), "0/0/0/0");
    assert_eq!(fp(65535, 12, 31, u64::MAX).path(), format!("65535/12/31/{}", u64::MAX));
}

#[test]
fn file_order_is_lexicographic() {
    let a = fp(2021, 6, 7, 10);
    assert!(a.at_or_before(&a));
    assert!(a.at_or_before(&fp(2021, 6, 7, 11)));
    assert!(a.at_or_before(&fp(2021, 6, 8, 0)));
    assert!(a.at_or_before(&fp(2021, 7, 1, 0)));
    assert!(a.at_or_before(&fp(2022, 1, 1, 0)));
    assert!(!a.at_or_before(&fp(2021, 6, 7, 9)));
    assert!(!a.at_or_before(&fp(2020, 12, 31, 99)));
}

#[test]
fn sorting_orders_files() {
    let files = vec![fp(2021, 6, 8, 1), fp(2020, 12, 1, 5), fp(2021, 6, 7, 9), fp(2021, 6, 7, 3), fp(2020, 12, 1, 5)];
    let sorted = sort_files(&files);
    assert_eq!(
        sorted,
        vec![fp(2020, 12, 1, 5), fp(2020, 12, 1, 5), fp(2021, 6, 7, 3), fp(2021, 6, 7, 9), fp(2021, 6, 8, 1)]
    );
    let mut expected = files.clone();
    expected.sort();
    assert_eq!(sorted, expected);
    assert!(sort_files(&Vec::new()).is_empty());
}

#[test]
fn numbers_parse_within_bound() {
    assert_eq!(parse_number("2021", 0xffff), Some(2021));
    assert_eq!(parse_number("007", 0xff), Some(7));
    assert_eq!(parse_number("255", 0xff), Some(255));
    assert_eq!(parse_number("256", 0xff), None);
    assert_eq!(parse_number("", 0xff), None);
    assert_eq!(parse_number("12a", 0xffff), None);
    assert_eq!(parse_number("+5", 0xff), None);
    assert_eq!(parse_number("18446744073709551615", u64::MAX), Some(u64::MAX));
    assert_eq!(parse_number("18446744073709551616", u64::MAX), None);
}

#[test]
fn flat_index_window_is_inclusive() {
    let window = FLAT_INDEX_DAYS * DAY_SECS;
    let now = 1_700_000_000u64;
    let at = |ts: u64| Some(SyncCursor { last_file: fp(2023, 11, 1, ts), last_timestamp: ts });
    assert!(use_flat_index(&at(now - window), now, window));
    assert!(use_flat_index(&at(now), now, window));
    assert!(!use_flat_index(&at(now - window - 1), now, window));
    assert!(!use_flat_index(&None, now, window));
    assert!(use_flat_index(&at(0), 100, window));
}

#[test]
fn flat_index_selection_keeps_files_from_cursor() {
    let files = vec![fp(2021, 6, 8, 5), fp(2021, 6, 7, 1623093314), fp(2021, 6, 7, 1623093300), fp(2021, 5, 30, 1)];
    let from = fp(2021, 6, 7, 1623093314);
    assert_eq!(select_from_index(&files, &from), vec![fp(2021, 6, 7, 1623093314), fp(2021, 6, 8, 5)]);
}

#[test]
fn walk_filters_each_level_by_cursor_prefix() {
    let from = Some(fp(2021, 6, 7, 100));
    assert_eq!(walk_years(&strings(&["2020", "2021", "2022"]), &from).unwrap(), vec![2021, 2022]);
    assert_eq!(walk_months(2021, &strings(&["5", "6", "7"]), &from).unwrap(), vec![6, 7]);
    assert_eq!(walk_months(2022, &strings(&["1", "5"]), &from).unwrap(), vec![1, 5]);
    assert_eq!(walk_days(2021, 6, &strings(&["6", "7", "8"]), &from).unwrap(), vec![7, 8]);
    assert_eq!(walk_days(2021, 7, &strings(&["1"]), &from).unwrap(), vec![1]);
    assert_eq!(
        walk_files(2021, 6, 7, &strings(&["99", "100", "101"]), &from).unwrap(),
        vec![fp(2021, 6, 7, 100), fp(2021, 6, 7, 101)]
    );
    assert_eq!(walk_years(&strings(&["1999"]), &None).unwrap(), vec![1999]);
}

#[test]
fn walk_fails_on_malformed_entries() {
    assert!(matches!(walk_years(&strings(&["2021", "config"]), &None), Err(Error::MalformedEntry(e)) if e == "config"));
    assert!(matches!(walk_years(&strings(&["70000"]), &None), Err(Error::MalformedEntry(_))));
    assert!(matches!(walk_months(2021, &strings(&["6", "x"]), &None), Err(Error::MalformedEntry(e)) if e == "x"));
    assert!(matches!(walk_days(2021, 6, &strings(&["300"]), &None), Err(Error::MalformedEntry(_))));
    assert!(matches!(walk_files(2021, 6, 7, &strings(&["1.5"]), &None), Err(Error::MalformedEntry(_))));
}

#[test]
fn directory_paths() {
    assert_eq!(year_dir(2021), "/2021");
    assert_eq!(month_dir(2021, 6), "/2021/6");
    assert_eq!(day_dir(2021, 6, 7), "/2021/6/7");
}

fn fixture_tree() -> Vec<YearEntry> {
    let day = |d: &str, files: &[&str]| DayEntry { day: d.to_string(), files: strings(files) };
    vec![
        YearEntry {
            year: "2021".to_string(),
            months: vec![
                MonthEntry { month: "5".to_string(), days: vec![day("31", &["1622419200"])] },
                MonthEntry {
                    month: "6".to_string(),
                    days: vec![
                        day("7", &["1623093320", "1623093314", "1623093000"]),
                        day("8", &["1623110400"]),
                    ],
                },
            ],
        },
        YearEntry {
            year: "2022".to_string(),
            months: vec![MonthEntry { month: "1".to_string(), days: vec![day("2", &["1641081600"])] }],
        },
    ]
}

fn walk_fixture(tree: &[YearEntry], from: &Option<FilePath>) -> Vec<FilePath> {
    let years: Vec<String> = tree.iter().map(|y| y.year.clone()).collect();
    let mut found = Vec::new();
    for year in walk_years(&years, from).unwrap() {
        let ye = tree.iter().find(|y| y.year == year.to_string()).unwrap();
        let months: Vec<String> = ye.months.iter().map(|m| m.month.clone()).collect();
        for month in walk_months(year, &months, from).unwrap() {
            let me = ye.months.iter().find(|m| m.month == month.to_string()).unwrap();
            let days: Vec<String> = me.days.iter().map(|d| d.day.clone()).collect();
            for day in walk_days(year, month, &days, from).unwrap() {
                let de = me.days.iter().find(|d| d.day == day.to_string()).unwrap();
                found.extend(walk_files(year, month, day, &de.files, from).unwrap());
            }
        }
    }
    sort_files(&found)
}

#[test]
fn flat_index_and_walk_give_the_same_files() {
    let tree = fixture_tree();
    let cursor = SyncCursor { last_file: fp(2021, 6, 7, 1623093314), last_timestamp: 1623093310 };
    let now = 1623093400u64;
    let window = FLAT_INDEX_DAYS * DAY_SECS;
    assert!(use_flat_index(&Some(cursor), now, window));
    let flat = select_from_index(&flatten_index(&tree).unwrap(), &cursor.last_file);
    let walked = walk_fixture(&tree, &Some(cursor.last_file));
    assert_eq!(flat, walked);
    assert_eq!(
        flat,
        vec![fp(2021, 6, 7, 1623093314), fp(2021, 6, 7, 1623093320), fp(2021, 6, 8, 1623110400), fp(2022, 1, 2, 1641081600)]
    );
    // an old cursor takes the walk
    assert!(!use_flat_index(&Some(cursor), now + window + 10_000, window));
    let everything = walk_fixture(&tree, &None);
    assert_eq!(everything.len(), 6);
    assert_eq!(everything, flatten_index(&tree).unwrap());
}

#[test]
fn flatten_index_sorts_and_rejects_bad_keys() {
    let tree = fixture_tree();
    let files = flatten_index(&tree).unwrap();
    assert_eq!(files.first(), Some(&fp(2021, 5, 31, 1622419200)));
    assert_eq!(files.last(), Some(&fp(2022, 1, 2, 1641081600)));
    let bad = vec![YearEntry { year: "20x1".to_string(), months: vec![] }];
    assert!(matches!(flatten_index(&bad), Err(Error::MalformedEntry(_))));
    let bad_month = vec![YearEntry {
        year: "2021".to_string(),
        months: vec![MonthEntry { month: "June".to_string(), days: vec![] }],
    }];
    assert!(matches!(flatten_index(&bad_month), Err(Error::MalformedEntry(e)) if e == "June"));
    assert!(flatten_index(&Vec::new()).unwrap().is_empty());
}

#[test]
fn store_batch_drops_records_at_or_below_the_floor() {
    let mut store: Sevendays<u64> = Sevendays::new();
    let cursor = SyncCursor { last_file: fp(2021, 6, 7, 1623093314), last_timestamp: 1623093310 };
    let file = fp(2021, 6, 7, 1623093320);
    store.store_batch(vec![(file, stamped(&[1623093310, 1623093315, 1623093320]))], Some(cursor.last_timestamp));
    assert_eq!(timestamps_of(&store), vec![1623093315, 1623093320]);
    assert_eq!(store.last_file(), Some(file));
}

#[test]
fn store_batch_twice_changes_nothing() {
    let mut store: Sevendays<u64> = Sevendays::new();
    let batch = || vec![(fp(2021, 6, 7, 2), stamped(&[5, 3, 9])), (fp(2021, 6, 7, 1), stamped(&[9, 1]))];
    store.store_batch(batch(), None);
    let once = timestamps_of(&store);
    assert_eq!(once, vec![1, 3, 5, 9]);
    assert_eq!(store.last_file(), Some(fp(2021, 6, 7, 2)));
    store.store_batch(batch(), None);
    assert_eq!(timestamps_of(&store), once);
    assert_eq!(store.last_file(), Some(fp(2021, 6, 7, 2)));
}

#[test]
fn store_batch_keeps_one_record_per_timestamp() {
    let mut store: Sevendays<u64> = Sevendays::new();
    store.store_batch(vec![(fp(2021, 1, 1, 1), stamped(&[4, 4])), (fp(2021, 1, 1, 2), stamped(&[4, 6]))], None);
    assert_eq!(timestamps_of(&store), vec![4, 6]);
}

#[test]
fn store_batch_appends_only_after_the_tail() {
    let mut store = Sevendays::from_snapshot(Some(fp(2021, 1, 1, 5)), stamped(&[10, 20]));
    store.store_batch(vec![(fp(2021, 1, 1, 3), stamped(&[15, 25, 20]))], Some(0));
    assert_eq!(timestamps_of(&store), vec![10, 20, 25]);
    // the cursor does not move back to the older file
    assert_eq!(store.last_file(), Some(fp(2021, 1, 1, 5)));
    store.store_batch(Vec::new(), None);
    assert_eq!(store.last_file(), Some(fp(2021, 1, 1, 5)));
}

#[test]
fn snapshot_is_sorted_and_deduplicated() {
    let store = Sevendays::from_snapshot(None, stamped(&[30, 10, 20, 10]));
    assert_eq!(timestamps_of(&store), vec![10, 20, 30]);
    let (last, records) = store.into_parts();
    assert_eq!(last, None);
    assert_eq!(records.iter().map(|r| r.value).collect::<Vec<_>>(), vec![100, 200, 300]);
}

#[test]
fn timestamps_bound_the_store() {
    let empty: Sevendays<u64> = Sevendays::new();
    let t = empty.timestamps();
    assert_eq!((t.first, t.last), (None, None));
    let store = Sevendays::from_snapshot(None, stamped(&[7, 3, 5]));
    let t = store.timestamps();
    assert_eq!((t.first, t.last), (Some(3), Some(7)));
}

#[test]
fn combine_count_is_a_ceiling() {
    assert_eq!(combine_count(0, 500), 1);
    assert_eq!(combine_count(10, 3), 4);
    assert_eq!(combine_count(9, 3), 3);
    assert_eq!(combine_count(499, 500), 1);
    assert_eq!(combine_count(1001, 500), 3);
    assert_eq!(combine_count(u64::MAX, 1), u64::MAX);
}

#[test]
fn combine_window_for_relational_queries() {
    // one day of two-minute samples is 720 samples
    assert_eq!(combine_window(0, 86_400_000, 500), (2, 240_000));
    assert_eq!(combine_window(0, 60_000_000, 500), (1, 120_000));
    assert_eq!(combine_window(5, 1, 500), (1, 120_000));
}

#[test]
fn query_groups_downsample_the_range() {
    let store = Sevendays::from_snapshot(None, stamped(&[1, 2, 3, 4, 5, 6, 7, 8, 9, 10, 11, 12]));
    let groups = store.query_groups(2, 11, 3);
    // ten records in range, four per point
    let spans: Vec<(usize, usize, u64)> = groups.iter().map(|g| (g.start, g.end, g.timestamp)).collect();
    assert_eq!(spans, vec![(1, 5, 2), (5, 9, 6), (9, 11, 10)]);
    assert!(groups.len() <= 3);
    let all = store.query_groups(0, 100, 500);
    assert_eq!(all.len(), 12);
    assert!(store.query_groups(50, 60, 10).is_empty());
    assert!(store.query_groups(5, 4, 10).is_empty());
    assert_eq!(store.range_bounds(3, 5), (2, 5));
}

#[test]
fn empty_store_resumes_a_week_back() {
    let store: Sevendays<u64> = Sevendays::new();
    let now = 1623093314u64; // 2021-06-07T19:15:14Z
    let cursor = store.last_cursor(now, 1);
    let week_ago = now - 7 * 86400;
    assert_eq!(cursor.last_timestamp, week_ago);
    assert_eq!(cursor.last_file, fp(2021, 5, 31, week_ago));
    let in_millis = store.last_cursor(now, 1000);
    assert_eq!(in_millis.last_timestamp, week_ago * 1000);
    assert_eq!(in_millis.last_file, fp(2021, 5, 31, week_ago));
    assert_eq!(store.last_cursor(u64::MAX, 1000).last_timestamp, u64::MAX);
    assert_eq!(start_file_at(0), fp(1970, 1, 1, 0));
}

#[test]
fn stored_data_sets_the_cursor() {
    let store = Sevendays::from_snapshot(Some(fp(2021, 6, 7, 1623093320)), stamped(&[1623093315, 1623093320]));
    let cursor = store.last_cursor(1623100000, 1);
    assert_eq!(cursor, SyncCursor { last_file: fp(2021, 6, 7, 1623093320), last_timestamp: 1623093320 });
}

#[test]
fn client_builds_urls_and_encrypted_requests() {
    let device = AirQ::new("192.168.0.5", "abc");
    assert_eq!(device.url("/data"), "http://192.168.0.5/data");
    let key = derive_key(b"abc");
    let req = device.dir_request("/2021");
    let sealed = req.strip_prefix("/dir?request=").unwrap();
    assert_eq!(decrypt(&key, sealed).unwrap(), b"/2021".to_vec());
    let req = device.file_request(&fp(2021, 6, 7, 1623093314));
    let sealed = req.strip_prefix("/file?request=").unwrap();
    assert_eq!(decrypt(&key, sealed).unwrap(), b"2021/6/7/1623093314".to_vec());
    let req = device.file_recrypt_request(&fp(2021, 6, 7, 1));
    assert!(req.starts_with("/file_recrypt?request="));
}

#[test]
fn client_decodes_listings() {
    let device = AirQ::new("host", "pw");
    let key = derive_key(b"pw");
    let body = seal(&key, &vec![1u8; 16], &b"[\"2020\",\"2021\"]".to_vec());
    assert_eq!(device.decode_listing(&body).unwrap(), vec!["2020".to_string(), "2021".to_string()]);
    let not_list = seal(&key, &vec![1u8; 16], &b"{\"a\":1}".to_vec());
    assert!(matches!(device.decode_listing(&not_list), Err(Error::JsonError)));
    let other_key = AirQ::new("host", "other");
    assert!(other_key.decode_listing(&body).is_err());
    assert_eq!(device.decrypt(&body).unwrap(), b"[\"2020\",\"2021\"]".to_vec());
}

#[test]
fn client_decodes_file_lines() {
    let device = AirQ::new("host", "pw");
    let key = derive_key(b"pw");
    let a = seal(&key, &vec![2u8; 16], &b"{\"timestamp\":1}".to_vec());
    let b = seal(&key, &vec![3u8; 16], &b"{\"timestamp\":2}".to_vec());
    let body = format!("{}\n\n{}\r\n", a, b);
    let lines = device.decode_file(&body).unwrap();
    assert_eq!(lines, vec![b"{\"timestamp\":1}".to_vec(), b"{\"timestamp\":2}".to_vec()]);
    assert!(device.decode_file("").unwrap().is_empty());
    let broken = format!("{}\n%%%\n", a);
    assert!(matches!(device.decode_file(&broken), Err(Error::Base64Error(_))));
}

#[test]
fn lines_are_split_at_newlines() {
    let pieces = split_pieces("a\nb\r\n\nc");
    assert_eq!(pieces, strings(&["a", "b\r", "", "c"]));
    assert_eq!(split_pieces(""), strings(&[""]));
    let _ = file_lines;
}

#[test]
fn client_decodes_flat_index() {
    let device = AirQ::new("host", "pw");
    let key = derive_key(b"pw");
    let doc = br#"{"2021":{"6":{"8":["1623110400"],"7":["1623093320","1623093314"]}},"2020":{"12":{"31":["1609372800"]}}}"#;
    let body = seal(&key, &vec![4u8; 16], &doc.to_vec());
    assert_eq!(
        device.decode_index(&body).unwrap(),
        vec![fp(2020, 12, 31, 1609372800), fp(2021, 6, 7, 1623093314), fp(2021, 6, 7, 1623093320), fp(2021, 6, 8, 1623110400)]
    );
    let bad = seal(&key, &vec![4u8; 16], &br#"{"2021":{"6":{"7":["soon"]}}}"#.to_vec());
    assert!(matches!(device.decode_index(&bad), Err(Error::MalformedEntry(_))));
    let not_index = seal(&key, &vec![4u8; 16], &b"[1,2]".to_vec());
    assert!(matches!(device.decode_index(&not_index), Err(Error::JsonError)));
}

#[test]
fn live_polling_waits_out_the_interval() {
    assert_eq!(poll_delay(0, 1500), 1500);
    assert_eq!(poll_delay(1000, 1500), 500);
    assert_eq!(poll_delay(1500, 1500), 0);
    assert_eq!(poll_delay(4000, 1500), 0);
}

#[test]
fn status_reports_warm_up() {
    assert!(!Status::Ready("OK".to_string()).is_warming_up());
    let warm = Status::WarmUp { co: Some("warming".to_string()), no2: None, o3: None, so2: None };
    assert!(warm.is_warming_up());
}

#[test]
fn paths_sort_like_files_when_widths_match() {
    let pairs = [
        (fp(2021, 6, 7, 1623093314), fp(2021, 6, 7, 1623093320)),
        (fp(2021, 6, 7, 1623093314), fp(2021, 6, 8, 1623000000)),
        (fp(2020, 6, 7, 1), fp(2021, 6, 7, 1)),
        (fp(2021, 10, 7, 5), fp(2021, 11, 1, 5)),
    ];
    for (a, b) in pairs {
        assert!(a < b);
        assert!(a.path() < b.path(), "{} vs {}", a.path(), b.path());
    }
    // with months of different widths the string order disagrees
    let (a, b) = (fp(2021, 9, 1, 0), fp(2021, 10, 1, 0));
    assert!(a < b);
    assert!(a.path() > b.path());
}

#[test]
fn only_malformed_entries_end_a_cycle() {
    assert!(Error::MalformedEntry("x".to_string()).ends_cycle());
    assert!(!Error::DecryptionError.ends_cycle());
    assert!(!Error::JsonError.ends_cycle());
}

#[test]
fn decoders_keep_error_kinds_apart() {
    let device = AirQ::new("host", "pw");
    assert!(matches!(device.decode_index("not base64!"), Err(Error::Base64Error(_))));
    assert!(matches!(device.decode_index("AAAAAAAAAAA="), Err(Error::DecryptionError)));
    assert!(matches!(device.decode_listing("not base64!"), Err(Error::Base64Error(_))));
    assert!(matches!(device.decode_listing("AAAAAAAAAAA="), Err(Error::DecryptionError)));
    let key = derive_key(b"pw");
    let good = seal(&key, &vec![5u8; 16], &b"{}".to_vec());
    let body = format!("{}\nAAAAAAAAAAA=\n%%%\n", good);
    assert!(matches!(device.decode_file(&body), Err(Error::DecryptionError)));
    let body = format!("{}\n%%%\nAAAAAAAAAAA=\n", good);
    assert!(matches!(device.decode_file(&body), Err(Error::Base64Error(_))));
}

#[test]
fn time_buckets_can_exceed_the_point_count_by_two() {
    let (first, last) = (119_999u64, 119_999u64 + 60_119_999);
    let (count, width) = combine_window(first, last, 500);
    assert_eq!((count, width), (1, 120_000));
    assert_eq!(last / width - first / width + 1, 502);
    // a range that starts on a bucket boundary stays within one extra point
    let (count, width) = combine_window(0, 60_119_999, 500);
    assert_eq!(60_119_999 / width + 1, 501);
    assert_eq!(count, 1);
}
