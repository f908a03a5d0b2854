use minilog::encode;
use minilog::log2mlg;
use minilog::mlg2dau;
use minilog::mlg2mau;
use minilog::mlg2uniq;

const AUG_30: i32 = 1598745600;
const AUG_31: i32 = 1598832000;
const SEP_01: i32 = 1598918400;

fn ip(a: u32, b: u32, c: u32, d: u32) -> u32 {
    (a << 24) | (b << 16) | (c << 8) | d
}

fn stream(records: &[(i32, u32)]) -> Vec<u8> {
    let mut data = Vec::new();
    for &(t, a) in records {
        let mut r = encode(t, a);
        data.append(&mut r);
    }
    data
}

#[test]
fn daily_count_independent_of_record_count() {
    let a = ip(10, 0, 0, 1);
    let data = stream(&[
        (AUG_31, a),
        (AUG_31 + 10, a),
        (AUG_31 + 20, a),
        (AUG_31 + 3000, a),
        (AUG_31 + 86399, a),
    ]);
    assert_eq!(mlg2dau(&data), vec!["2020-08-31: 1".to_string()]);
}

#[test]
fn daily_two_days_ascending() {
    let data = stream(&[
        (AUG_31, ip(10, 0, 0, 1)),
        (AUG_30, ip(10, 0, 0, 1)),
        (AUG_30 + 5, ip(10, 0, 0, 2)),
    ]);
    assert_eq!(
        mlg2dau(&data),
        vec!["2020-08-30: 2".to_string(), "2020-08-31: 1".to_string()]
    );
}

#[test]
fn monthly_merge_overlapping_day_buckets() {
    let a1 = ip(10, 0, 0, 1);
    let a2 = ip(10, 0, 0, 2);
    let a3 = ip(10, 0, 0, 3);
    let a4 = ip(10, 0, 0, 4);
    let data = stream(&[
        (AUG_30, a1),
        (AUG_30 + 1, a2),
        (AUG_30 + 2, a3),
        (AUG_31, a1),
        (AUG_31 + 1, a4),
    ]);
    assert_eq!(mlg2dau(&data).len(), 2);
    assert_eq!(mlg2mau(&data), vec!["2020-08: 4".to_string()]);
}

#[test]
fn monthly_two_months_ascending() {
    let data = stream(&[(SEP_01, ip(1, 2, 3, 4)), (AUG_31, ip(1, 2, 3, 4))]);
    assert_eq!(
        mlg2mau(&data),
        vec!["2020-08: 1".to_string(), "2020-09: 1".to_string()]
    );
}

#[test]
fn uniq_sorted_and_deduplicated() {
    let data = stream(&[
        (AUG_31, ip(10, 0, 0, 2)),
        (AUG_30, ip(10, 0, 0, 1)),
        (SEP_01, ip(10, 0, 0, 2)),
        (AUG_31, ip(213, 180, 203, 32)),
    ]);
    assert_eq!(
        mlg2uniq(&data),
        vec![
            "10.0.0.1".to_string(),
            "10.0.0.2".to_string(),
            "213.180.203.32".to_string(),
        ]
    );
}

#[test]
fn passes_are_idempotent() {
    let data = stream(&[
        (AUG_30, ip(10, 0, 0, 1)),
        (AUG_31, ip(10, 0, 0, 2)),
        (SEP_01, ip(10, 0, 0, 1)),
    ]);
    assert_eq!(mlg2dau(&data), mlg2dau(&data));
    assert_eq!(mlg2mau(&data), mlg2mau(&data));
    assert_eq!(mlg2uniq(&data), mlg2uniq(&data));
}

#[test]
fn empty_stream_empty_reports() {
    let data: Vec<u8> = Vec::new();
    assert!(mlg2dau(&data).is_empty());
    assert!(mlg2mau(&data).is_empty());
    assert!(mlg2uniq(&data).is_empty());
}

#[test]
fn pre_epoch_timestamps_bucket_to_day_start() {
    let data = stream(&[(-86401, ip(1, 1, 1, 1)), (-1, ip(1, 1, 1, 2))]);
    assert_eq!(
        mlg2dau(&data),
        vec!["1969-12-30: 1".to_string(), "1969-12-31: 1".to_string()]
    );
}

#[test]
fn pre_epoch_day_shares_one_bucket() {
    let a = ip(1, 1, 1, 1);
    let data = stream(&[(-86400, a), (-1, a)]);
    assert_eq!(mlg2dau(&data), vec!["1969-12-31: 1".to_string()]);
    assert_eq!(mlg2mau(&data), vec!["1969-12: 1".to_string()]);
}

#[test]
fn end_to_end_three_line_log() {
    let lines: Vec<Vec<u8>> = vec![
        b"213.180.203.32 - - [31/Aug/2020:00:00:39 +0000] \"GET /a\"".to_vec(),
        b"garbage".to_vec(),
        b"213.180.203.32 - - [31/Aug/2020:00:59:39 +0000] \"GET /b\"".to_vec(),
    ];
    let (data, diags) = log2mlg(&lines);
    assert_eq!(diags.len(), 1);
    assert_eq!(mlg2uniq(&data), vec!["213.180.203.32".to_string()]);
    assert_eq!(mlg2dau(&data), vec!["2020-08-31: 1".to_string()]);
    assert_eq!(mlg2mau(&data), vec!["2020-08: 1".to_string()]);
}
