use survey_redirect::timestamp::{read_snapshot_stamp, read_ts, select_latest};

fn ts(s: &str) -> i128 {
    read_ts(&s.as_bytes().to_vec()).unwrap()
}

#[test]
fn one_second_is_a_billion_nanos() {
    assert_eq!(
        ts("1970-01-01T00:00:01Z") - ts("1970-01-01T00:00:00Z"),
        1_000_000_000
    );
}

#[test]
fn offsets_denote_the_same_instant() {
    assert_eq!(ts("1970-01-01T01:00:00+01:00"), ts("1970-01-01T00:00:00Z"));
    assert_eq!(ts("1969-12-31T19:00:00-05:00"), ts("1970-01-01T00:00:00+00:00"));
    assert!(ts("2024-06-01T12:00:00+02:00") < ts("2024-06-01T12:00:00+01:00"));
}

#[test]
fn fraction_counts_in_nanos() {
    assert_eq!(
        ts("2024-01-01T00:00:00.5Z") - ts("2024-01-01T00:00:00Z"),
        500_000_000
    );
    assert_eq!(
        ts("2024-01-01T00:00:00.000000001Z") - ts("2024-01-01T00:00:00Z"),
        1
    );
}

#[test]
fn calendar_boundaries() {
    assert_eq!(
        ts("2024-03-01T00:00:00Z") - ts("2024-02-29T00:00:00Z"),
        86_400_000_000_000
    );
    assert_eq!(
        ts("2023-03-01T00:00:00Z") - ts("2023-02-28T00:00:00Z"),
        86_400_000_000_000
    );
    assert!(read_ts(&b"2023-02-29T00:00:00Z".to_vec()).is_none());
    assert!(read_ts(&b"2024-13-01T00:00:00Z".to_vec()).is_none());
    assert!(read_ts(&b"2024-00-01T00:00:00Z".to_vec()).is_none());
    assert!(read_ts(&b"2024-04-31T00:00:00Z".to_vec()).is_none());
}

#[test]
fn leap_second_accepted() {
    assert_eq!(
        ts("2016-12-31T23:59:60Z") - ts("2016-12-31T23:59:59Z"),
        1_000_000_000
    );
}

#[test]
fn malformed_timestamps_rejected() {
    assert!(read_ts(&b"2024-01-01 00:00:00Z".to_vec()).is_none());
    assert!(read_ts(&b"2024-01-01T00:00:00".to_vec()).is_none());
    assert!(read_ts(&b"2024-01-01T24:00:00Z".to_vec()).is_none());
    assert!(read_ts(&b"2024-01-01T00:00:00.1234567890Z".to_vec()).is_none());
    assert!(read_ts(&b"2024-01-01T00:00:00Zx".to_vec()).is_none());
    assert!(read_ts(&b"2024-01-01T00:00:00+0100".to_vec()).is_none());
}

#[test]
fn chrono_output_parses() {
    let now = chrono::Local::now().to_rfc3339();
    assert!(read_ts(&now.into_bytes()).is_some());
}

#[test]
fn snapshot_names_need_the_extension() {
    assert!(read_snapshot_stamp(&b"2024-01-01T00:00:00Z.json".to_vec()).is_some());
    assert!(read_snapshot_stamp(&b"2024-01-01T00:00:00Z.txt".to_vec()).is_none());
    assert!(read_snapshot_stamp(&b"2024-01-01T00:00:00Z".to_vec()).is_none());
    assert!(read_snapshot_stamp(&b"code".to_vec()).is_none());
    assert!(read_snapshot_stamp(&b".json".to_vec()).is_none());
}

#[test]
fn latest_wins_whatever_the_listing_order() {
    let older = b"2024-01-01T00:00:00+00:00.json".to_vec();
    let newer = b"2024-01-01T00:00:01+00:00.json".to_vec();
    let noise = b"code".to_vec();
    let one = vec![older.clone(), noise.clone(), newer.clone()];
    let two = vec![newer.clone(), older.clone(), noise.clone()];
    let i1 = select_latest(&one).unwrap();
    let i2 = select_latest(&two).unwrap();
    assert_eq!(one[i1], newer);
    assert_eq!(two[i2], newer);
}

#[test]
fn latest_compares_instants_not_text() {
    // lexicographically the +05:00 name is greater, chronologically it is older
    let utc = b"2024-06-01T12:00:00+00:00.json".to_vec();
    let east = b"2024-06-01T12:00:00+05:00.json".to_vec();
    let names = vec![east.clone(), utc.clone()];
    let i = select_latest(&names).unwrap();
    assert_eq!(names[i], utc);
}

#[test]
fn no_snapshot_no_choice() {
    assert!(select_latest(&vec![]).is_none());
    assert!(select_latest(&vec![b"code".to_vec(), b"readme.txt".to_vec()]).is_none());
}
