use survey_redirect::bytemap::ByteMap;
use survey_redirect::codec::encode_table;
use survey_redirect::admission::AdminGate;
use survey_redirect::state::{
    decode_routes, error_status, load_latest_code_table, load_latest_router_table,
    write_code_table, write_router_table, Code, Id, RedirectParams, Route, RouterState,
    StateError,
};

fn store_in(dir: &tempfile::TempDir) -> String {
    dir.path().to_str().unwrap().to_string()
}

fn route(id: &[u8], url: &[u8]) -> Route {
    Route { id: Id(id.to_vec()), url: url.to_vec() }
}

fn fresh(dir: &tempfile::TempDir) -> RouterState {
    RouterState::init(b"https://svc.example/".to_vec(), store_in(dir), None, None).unwrap()
}

fn encoded(pairs: Vec<(&[u8], &[u8])>) -> Vec<u8> {
    let t = ByteMap::from_pairs(
        pairs.into_iter().map(|(k, v)| (k.to_vec(), v.to_vec())).collect(),
    );
    encode_table(&t)
}

#[test]
fn redirect_composes_exact_url() {
    let dir = tempfile::tempdir().unwrap();
    let table = encoded(vec![(b"abc123", b"https://example.com/x?q=1")]);
    let st = RouterState::init(
        b"https://svc.example/".to_vec(),
        store_in(&dir),
        Some(table),
        None,
    )
    .unwrap();
    let got = st.redirect(&RedirectParams { code: Code(b"abc123".to_vec()) }).unwrap();
    assert_eq!(got, b"https://example.com/x?q=1&externalUserId=abc123".to_vec());
    let missing = st.redirect(&RedirectParams { code: Code(b"doesnotexist".to_vec()) });
    assert!(matches!(missing, Err(StateError::InvalidCode)));
}

#[test]
fn redirect_introduces_the_query() {
    let dir = tempfile::tempdir().unwrap();
    let table = encoded(vec![(b"c1", b"https://example.com/plain")]);
    let st = RouterState::init(b"https://svc.example/".to_vec(), store_in(&dir), Some(table), None)
        .unwrap();
    let got = st.redirect(&RedirectParams { code: Code(b"c1".to_vec()) }).unwrap();
    assert_eq!(got, b"https://example.com/plain?externalUserId=c1".to_vec());
}

#[test]
fn redirect_respects_a_fragment() {
    let dir = tempfile::tempdir().unwrap();
    let table = encoded(vec![(b"c1", b"https://example.com/p?a=1#frag")]);
    let st = RouterState::init(b"https://svc.example/".to_vec(), store_in(&dir), Some(table), None)
        .unwrap();
    let got = st.redirect(&RedirectParams { code: Code(b"c1".to_vec()) }).unwrap();
    assert_eq!(got, b"https://example.com/p?a=1&externalUserId=c1#frag".to_vec());
}

#[test]
fn redirect_encodes_the_code() {
    let dir = tempfile::tempdir().unwrap();
    let table = encoded(vec![(b"a b&c", b"https://example.com/p")]);
    let st = RouterState::init(b"https://svc.example/".to_vec(), store_in(&dir), Some(table), None)
        .unwrap();
    let got = st.redirect(&RedirectParams { code: Code(b"a b&c".to_vec()) }).unwrap();
    assert_eq!(got, b"https://example.com/p?externalUserId=a+b%26c".to_vec());
}

#[test]
fn codes_are_stable_across_updates() {
    let dir = tempfile::tempdir().unwrap();
    let mut st = fresh(&dir);
    st.put_routing_table(vec![route(b"user1", b"https://e.com/1")]).unwrap();
    let code1 = st.code_table().get(&b"user1".to_vec()).unwrap().clone();
    assert_eq!(code1.len(), 16);
    assert!(code1.iter().all(|b| b.is_ascii_alphanumeric()));
    st.put_routing_table(vec![
        route(b"user1", b"https://e.com/changed"),
        route(b"user2", b"https://e.com/2"),
    ])
    .unwrap();
    st.patch_routing_table(vec![route(b"user1", b"https://e.com/again")]).unwrap();
    let code_after = st.code_table().get(&b"user1".to_vec()).unwrap().clone();
    assert_eq!(code1, code_after);
    // and distinct ids draw distinct codes (overwhelmingly; deterministic here
    // only in that they were drawn independently)
    let code2 = st.code_table().get(&b"user2".to_vec()).unwrap().clone();
    assert_eq!(code2.len(), 16);
}

#[test]
fn failed_persistence_leaves_the_live_table_alone() {
    let dir = tempfile::tempdir().unwrap();
    let missing = dir.path().join("not_here").to_str().unwrap().to_string();
    let table = encoded(vec![(b"keep", b"https://example.com/kept")]);
    let mut st =
        RouterState::init(b"https://svc.example/".to_vec(), missing, Some(table), None).unwrap();
    let r = st.put_routing_table(vec![route(b"user1", b"https://e.com/1")]);
    assert!(matches!(r, Err(StateError::StoreError(_))));
    // the live routing table is byte-identical to before the call
    let got = st.redirect(&RedirectParams { code: Code(b"keep".to_vec()) }).unwrap();
    assert_eq!(got, b"https://example.com/kept?externalUserId=keep".to_vec());
    assert_eq!(st.router_table().len(), 1);
    let r2 = st.patch_routing_table(vec![route(b"user1", b"https://e.com/1")]);
    assert!(matches!(r2, Err(StateError::StoreError(_))));
    assert_eq!(st.router_table().len(), 1);
}

#[test]
fn replace_leaves_no_mixture() {
    let dir = tempfile::tempdir().unwrap();
    let mut st = fresh(&dir);
    st.put_routing_table(vec![
        route(b"a1", b"https://e.com/a1"),
        route(b"a2", b"https://e.com/a2"),
    ])
    .unwrap();
    let code_a1 = st.code_table().get(&b"a1".to_vec()).unwrap().clone();
    st.put_routing_table(vec![route(b"b1", b"https://e.com/b1")]).unwrap();
    let code_b1 = st.code_table().get(&b"b1".to_vec()).unwrap().clone();
    // the winning upload's route serves; nothing of the other remains
    assert!(st.redirect(&RedirectParams { code: Code(code_b1) }).is_ok());
    assert!(matches!(
        st.redirect(&RedirectParams { code: Code(code_a1) }),
        Err(StateError::InvalidCode)
    ));
    assert_eq!(st.router_table().len(), 1);
}

#[test]
fn patch_retains_unmentioned_routes() {
    let dir = tempfile::tempdir().unwrap();
    let mut st = fresh(&dir);
    st.put_routing_table(vec![route(b"a1", b"https://e.com/a1")]).unwrap();
    st.patch_routing_table(vec![route(b"a2", b"https://e.com/a2")]).unwrap();
    assert_eq!(st.router_table().len(), 2);
    let code_a1 = st.code_table().get(&b"a1".to_vec()).unwrap().clone();
    let got = st.redirect(&RedirectParams { code: Code(code_a1) }).unwrap();
    assert!(got.starts_with(b"https://e.com/a1?externalUserId="));
}

#[test]
fn admission_is_exclusive_and_immediate() {
    let mut gate = AdminGate::new();
    assert!(gate.try_acquire());
    // a second concurrent writer observes busy at once
    assert!(!gate.try_acquire());
    gate.release();
    assert!(gate.try_acquire());
}

#[test]
fn links_compose_the_public_urls() {
    let dir = tempfile::tempdir().unwrap();
    let router = encoded(vec![(b"abc123", b"https://t.example/x")]);
    let codes = encoded(vec![(b"user1", b"abc123"), (b"user2", b"gone")]);
    let st = RouterState::init(
        b"https://svc.example/".to_vec(),
        store_in(&dir),
        Some(router),
        Some(codes),
    )
    .unwrap();
    let links = st.get_links();
    assert_eq!(links.len(), 1);
    assert_eq!(links[0].0, b"user1".to_vec());
    assert_eq!(links[0].1, b"https://svc.example/api?code=abc123".to_vec());
}

#[test]
fn init_rejects_an_undecodable_snapshot() {
    let dir = tempfile::tempdir().unwrap();
    let r = RouterState::init(
        b"https://svc.example/".to_vec(),
        store_in(&dir),
        Some(b"{garbage".to_vec()),
        None,
    );
    assert!(matches!(r, Err(StateError::StoreError(_))));
    let r2 = RouterState::init(b"no scheme".to_vec(), store_in(&dir), None, None);
    assert!(matches!(r2, Err(StateError::StoreError(_))));
}

#[test]
fn uploads_normalize_their_urls() {
    let body = b"[{\"id\":\"u1\",\"url\":\"HTTPS://Example.COM/Keep\"}]".to_vec();
    let routes = decode_routes(&body).unwrap();
    assert_eq!(routes.len(), 1);
    assert_eq!(routes[0].id.0, b"u1".to_vec());
    assert_eq!(routes[0].url, b"https://example.com/Keep".to_vec());
    let bad = b"[{\"id\":\"u1\",\"url\":\"not a url\"}]".to_vec();
    assert!(decode_routes(&bad).is_none());
}

#[test]
fn every_error_has_its_status() {
    assert_eq!(error_status(&StateError::Unauthorized), 401);
    assert_eq!(error_status(&StateError::InvalidCode), 404);
    assert_eq!(error_status(&StateError::StoreError(String::new())), 500);
    assert_eq!(error_status(&StateError::Busy), 429);
}

#[test]
fn table_files_write_and_load_back() {
    let dir = tempfile::tempdir().unwrap();
    let store = store_in(&dir);
    let t = ByteMap::from_pairs(vec![(b"id9".to_vec(), b"codeX".to_vec())]);
    write_code_table(&t, &store).unwrap();
    write_router_table(&t, &store).unwrap();
    let rt = tokio::runtime::Runtime::new().unwrap();
    let code_bytes = rt.block_on(tokio::fs::read(dir.path().join("code"))).unwrap();
    let back = load_latest_code_table(Some(&code_bytes)).unwrap().unwrap();
    assert_eq!(back.get(&b"id9".to_vec()).unwrap(), &b"codeX".to_vec());
    assert!(load_latest_code_table(None).unwrap().is_none());
    assert!(load_latest_code_table(Some(&b"nope".to_vec())).is_err());
    assert!(load_latest_router_table(&b"nope".to_vec()).is_err());
}

#[test]
fn snapshots_survive_the_disk() {
    let dir = tempfile::tempdir().unwrap();
    let mut st = fresh(&dir);
    st.put_routing_table(vec![route(b"u1", b"https://e.com/1")]).unwrap();
    let rt = tokio::runtime::Runtime::new().unwrap();
    rt.block_on(async { tokio::time::sleep(std::time::Duration::from_millis(5)).await });
    st.patch_routing_table(vec![route(b"u2", b"https://e.com/2")]).unwrap();
    // scan the store as the loader would
    let names: Vec<Vec<u8>> = rt.block_on(async {
        let mut out = Vec::new();
        let mut rd = tokio::fs::read_dir(dir.path()).await.unwrap();
        while let Some(e) = rd.next_entry().await.unwrap() {
            out.push(e.file_name().to_string_lossy().as_bytes().to_vec());
        }
        out
    });
    let chosen = survey_redirect::timestamp::select_latest(&names).unwrap();
    let name = String::from_utf8(names[chosen].clone()).unwrap();
    let bytes = rt.block_on(tokio::fs::read(dir.path().join(&name))).unwrap();
    let loaded = load_latest_router_table(&bytes).unwrap();
    // the latest snapshot holds exactly the live table
    let live = st.router_table();
    assert_eq!(loaded.len(), live.len());
    let mut i = 0;
    while i < live.len() {
        let k = live.key_at(i).clone();
        assert_eq!(loaded.get(&k).unwrap(), live.val_at(i));
        i += 1;
    }
    assert_eq!(live.len(), 2);
}

#[test]
fn duplicate_id_in_one_upload_last_wins() {
    let dir = tempfile::tempdir().unwrap();
    let mut st = fresh(&dir);
    st.put_routing_table(vec![
        route(b"dup", b"https://e.com/first"),
        route(b"dup", b"https://e.com/second"),
    ])
    .unwrap();
    assert_eq!(st.router_table().len(), 1);
    let code = st.code_table().get(&b"dup".to_vec()).unwrap().clone();
    let got = st.redirect(&RedirectParams { code: Code(code) }).unwrap();
    assert!(got.starts_with(b"https://e.com/second?externalUserId="));
}

#[test]
fn duplicate_key_in_a_snapshot_last_wins() {
    let dir = tempfile::tempdir().unwrap();
    let bytes = b"{\"a\":\"https://e.com/1\",\"a\":\"https://e.com/2\"}".to_vec();
    let st = RouterState::init(b"https://svc.example/".to_vec(), store_in(&dir), Some(bytes), None)
        .unwrap();
    let got = st.redirect(&RedirectParams { code: Code(b"a".to_vec()) }).unwrap();
    assert_eq!(got, b"https://e.com/2?externalUserId=a".to_vec());
}
