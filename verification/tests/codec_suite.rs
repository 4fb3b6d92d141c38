use survey_redirect::bytemap::ByteMap;
use survey_redirect::codec::{encode_table, read_routes, read_table};

fn table_of(pairs: Vec<(&[u8], &[u8])>) -> ByteMap {
    ByteMap::from_pairs(pairs.into_iter().map(|(k, v)| (k.to_vec(), v.to_vec())).collect())
}

#[test]
fn empty_table_encodes_to_empty_object() {
    let t = ByteMap::new();
    let bytes = encode_table(&t);
    assert_eq!(bytes, b"{}".to_vec());
    let back = read_table(&bytes).unwrap();
    assert!(back.is_empty());
}

#[test]
fn single_pair_exact_encoding() {
    let t = table_of(vec![(b"a", b"b")]);
    assert_eq!(encode_table(&t), b"{\"a\":\"b\"}".to_vec());
}

#[test]
fn round_trip_plain_pairs() {
    let t = table_of(vec![
        (b"abc123", b"https://example.com/x?q=1"),
        (b"user", b"https://example.org/"),
    ]);
    let back = read_table(&encode_table(&t)).unwrap();
    assert_eq!(back.len(), 2);
    assert_eq!(back[0], (b"abc123".to_vec(), b"https://example.com/x?q=1".to_vec()));
    assert_eq!(back[1], (b"user".to_vec(), b"https://example.org/".to_vec()));
}

#[test]
fn round_trip_escapes_and_controls() {
    let key: Vec<u8> = b"q\"\\k".to_vec();
    let mut val: Vec<u8> = b"line1\nline2\ttab".to_vec();
    val.push(0x01);
    val.push(0x1f);
    let t = ByteMap::from_pairs(vec![(key.clone(), val.clone())]);
    let bytes = encode_table(&t);
    let back = read_table(&bytes).unwrap();
    assert_eq!(back, vec![(key, val)]);
}

#[test]
fn round_trip_multibyte_utf8() {
    let val = "caf\u{e9} \u{2764}".as_bytes().to_vec();
    let t = ByteMap::from_pairs(vec![(b"k".to_vec(), val.clone())]);
    let back = read_table(&encode_table(&t)).unwrap();
    assert_eq!(back, vec![(b"k".to_vec(), val)]);
}

#[test]
fn encoded_snapshot_is_plain_json() {
    let mut val: Vec<u8> = b"a\"b\\c\nd".to_vec();
    val.push(0x02);
    let t = ByteMap::from_pairs(vec![(b"key".to_vec(), val)]);
    let bytes = encode_table(&t);
    let parsed: std::collections::HashMap<String, String> =
        serde_json::from_slice(&bytes).unwrap();
    assert_eq!(parsed.len(), 1);
    assert_eq!(parsed.get("key").unwrap().as_bytes()[1], b'"');
}

#[test]
fn reads_serde_written_snapshot() {
    let mut m = std::collections::BTreeMap::new();
    m.insert("x".to_string(), "tab\there \u{1} quote\"".to_string());
    let bytes = serde_json::to_vec(&m).unwrap();
    let back = read_table(&bytes).unwrap();
    assert_eq!(back, vec![(b"x".to_vec(), b"tab\there \x01 quote\"".to_vec())]);
}

#[test]
fn table_rejects_trailing_and_malformed() {
    assert!(read_table(&b"{}x".to_vec()).is_none());
    assert!(read_table(&b"{\"a\":\"b\"} ".to_vec()).is_none());
    assert!(read_table(&b"{\"a\":\"b\"".to_vec()).is_none());
    assert!(read_table(&b"[]".to_vec()).is_none());
    assert!(read_table(&b"{\"a\":1}".to_vec()).is_none());
    assert!(read_table(&b"".to_vec()).is_none());
}

#[test]
fn unicode_escape_decodes() {
    let back = read_table(&b"{\"k\":\"\\u0041\\u00e9\\u20ac\"}".to_vec()).unwrap();
    assert_eq!(back, vec![(b"k".to_vec(), "A\u{e9}\u{20ac}".as_bytes().to_vec())]);
}

#[test]
fn lone_surrogate_escape_rejected() {
    assert!(read_table(&b"{\"k\":\"\\ud800\"}".to_vec()).is_none());
}

#[test]
fn routes_compact_and_padded() {
    let compact = b"[{\"id\":\"u1\",\"url\":\"https://e.com/\"}]".to_vec();
    let padded =
        b" [ { \"id\" : \"u1\" , \"url\" : \"https://e.com/\" } ] \n".to_vec();
    let a = read_routes(&compact).unwrap();
    let b = read_routes(&padded).unwrap();
    assert_eq!(a, b);
    assert_eq!(a, vec![(b"u1".to_vec(), b"https://e.com/".to_vec())]);
}

#[test]
fn routes_fields_in_either_order() {
    let swapped = b"[{\"url\":\"https://e.com/\",\"id\":\"u1\"}]".to_vec();
    let r = read_routes(&swapped).unwrap();
    assert_eq!(r, vec![(b"u1".to_vec(), b"https://e.com/".to_vec())]);
}

#[test]
fn routes_empty_array() {
    assert_eq!(read_routes(&b"[]".to_vec()).unwrap(), vec![]);
    assert_eq!(read_routes(&b" [ ] ".to_vec()).unwrap(), vec![]);
}

#[test]
fn routes_several_objects() {
    let body = b"[{\"id\":\"a\",\"url\":\"https://e.com/1\"},\n {\"id\":\"b\",\"url\":\"https://e.com/2\"}]"
        .to_vec();
    let r = read_routes(&body).unwrap();
    assert_eq!(r.len(), 2);
    assert_eq!(r[1].0, b"b".to_vec());
}

#[test]
fn routes_malformed_rejected() {
    assert!(read_routes(&b"[{\"id\":\"a\"}]".to_vec()).is_none());
    assert!(read_routes(&b"[{\"id\":\"a\",\"url\":\"x\",\"extra\":\"y\"}]".to_vec()).is_none());
    assert!(read_routes(&b"[{\"id\":\"a\",\"url\":2}]".to_vec()).is_none());
    assert!(read_routes(&b"[{\"id\":\"a\",\"url\":\"x\"}] junk".to_vec()).is_none());
    assert!(read_routes(&b"{\"id\":\"a\"}".to_vec()).is_none());
}

#[test]
fn insert_overwrites_and_keeps_order() {
    let mut t = ByteMap::new();
    t.insert(b"k1".to_vec(), b"v1".to_vec());
    t.insert(b"k2".to_vec(), b"v2".to_vec());
    t.insert(b"k1".to_vec(), b"v9".to_vec());
    assert_eq!(t.len(), 2);
    assert_eq!(t.key_at(0), &b"k1".to_vec());
    assert_eq!(t.val_at(0), &b"v9".to_vec());
    assert_eq!(t.get(&b"k2".to_vec()).unwrap(), &b"v2".to_vec());
    assert!(!t.contains_key(&b"k3".to_vec()));
    let copy = t.duplicate();
    assert_eq!(copy.len(), 2);
    assert_eq!(copy.val_at(0), &b"v9".to_vec());
}
