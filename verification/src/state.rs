//! The routing-table manager: authoritative in-memory state, stable code
//! assignment, and write-then-swap persistence.
//!
//! A `put` or `patch` builds the new routing table, persists the code table
//! and the new routing table, and only then swaps the live table; when
//! persistence fails the live table is left exactly as it was. An id keeps
//! the code it was first assigned across every later update.
//!
//! Concurrency discipline is the caller's: reads go through a shared
//! snapshot, and an admin write must hold the single writer admission (see
//! [`crate::admission::AdminGate`]) for the whole call, failing fast with
//! [`StateError::Busy`] instead of queuing.
use vstd::prelude::*;
use vstd::string::StringExecFns;

use crate::bytemap::{clone_bytes, ByteMap};
use crate::bytes::is_alnum_byte;
use crate::codec;
use crate::timestamp::parse_ts;
use crate::urlq::append_pair;
use rand::Rng;

verus! {

/// Length of a generated short code, in bytes.
pub const CODE_LENGTH: usize = 16;

/// An administrative identifier for a route.
pub struct Id(pub Vec<u8>);

/// A public short code standing in for an id.
pub struct Code(pub Vec<u8>);

/// One uploaded route: an id and a destination URL.
pub struct Route {
    pub id: Id,
    pub url: Vec<u8>,
}

/// Query parameters of a public redirect request.
pub struct RedirectParams {
    pub code: Code,
}

/// Errors surfaced by the manager.
#[derive(Debug)]
pub enum StateError {
    /// The caller may not perform administrative calls.
    Unauthorized,
    /// The requested code is not in the routing table.
    InvalidCode,
    /// Durable storage failed; the message carries the cause.
    StoreError(String),
    /// Another administrative write holds the admission; retry later.
    Busy,
}

impl View for Id {
    type V = Seq<u8>;

    open spec fn view(&self) -> Seq<u8> {
        self.0@
    }
}

impl View for Code {
    type V = Seq<u8>;

    open spec fn view(&self) -> Seq<u8> {
        self.0@
    }
}

impl View for Route {
    type V = (Seq<u8>, Seq<u8>);

    open spec fn view(&self) -> (Seq<u8>, Seq<u8>) {
        (self.id@, self.url@)
    }
}

/// The `(id, url)` pairs of a route list.
pub open spec fn routes_view(rs: Seq<Route>) -> Seq<(Seq<u8>, Seq<u8>)> {
    Seq::new(rs.len(), |i: int| rs[i]@)
}

// ------------------------------------------------------------------
// Trusted boundary
// ------------------------------------------------------------------
/// Relies on `rand::Rng::sample_iter` over `rand::distributions::Alphanumeric`:
/// every sampled byte is an ASCII alphanumeric (`0-9A-Za-z`). Nothing is
/// assumed about which bytes come out.
#[verifier::external_body]
fn random_code() -> (r: Vec<u8>)
    ensures
        r@.len() == CODE_LENGTH,
        forall|i: int| 0 <= i < r@.len() ==> is_alnum_byte(#[trigger] r@[i]),
{
    rand::thread_rng().sample_iter(rand::distributions::Alphanumeric).take(CODE_LENGTH).collect()
}

/// Relies on `chrono::Local::now().to_rfc3339()`: the local time formatted
/// as `YYYY-MM-DDTHH:MM:SS[.fraction]+HH:MM` with zero, three, six or nine
/// fractional digits, which [`crate::timestamp::parse_ts`] accepts. Assumes
/// a clock year within 0 to 9999 and a real-world time-zone offset (chrono
/// would print a year outside that range with a sign, and an offset within
/// thirty seconds of a full day as `24:00`).
#[verifier::external_body]
fn now_rfc3339() -> (r: Vec<u8>)
    ensures
        parse_ts(r@) is Some,
{
    chrono::Local::now().to_rfc3339().into_bytes()
}

/// Relies on `tempfile::NamedTempFile`: the bytes are written to a fresh
/// temporary file in `dir`, flushed to stable storage, and atomically
/// renamed to `name` inside `dir`, so no partially written file is ever
/// visible under `name`. Nothing is assumed about the outcome.
#[verifier::external_body]
fn persist_bytes(dir: &str, name: &Vec<u8>, data: &Vec<u8>) -> (r: Result<(), String>)
{
    let mut path = std::path::PathBuf::from(dir);
    path.push(String::from_utf8_lossy(name).as_ref());
    let outcome = (|| -> std::io::Result<()> {
        let mut t = tempfile::NamedTempFile::new_in(dir)?;
        std::io::Write::write_all(&mut t, data.as_slice())?;
        t.as_file().sync_all()?;
        t.persist(&path).map_err(|e| e.error)?;
        Ok(())
    })();
    outcome.map_err(|e| format!("{e}"))
}

/// The canonical text that the `url` crate gives a URL, if it parses.
pub uninterp spec fn url_normalized(s: Seq<u8>) -> Option<Seq<u8>>;

/// Relies on `url::Url::parse` and `Url::as_str`: the canonical text of the
/// parsed URL, a function of the input alone; `None` exactly when the input
/// is no URL.
#[verifier::external_body]
fn normalize_url(b: &Vec<u8>) -> (r: Option<Vec<u8>>)
    ensures
        r.deep_view() == url_normalized(b@),
{
    match std::str::from_utf8(b.as_slice()) {
        Ok(s) => match url::Url::parse(s) {
            Ok(u) => Some(u.as_str().as_bytes().to_vec()),
            Err(_) => None,
        },
        Err(_) => None,
    }
}

/// The service base URL with its path replaced by `api`, if it parses.
pub uninterp spec fn url_with_api_path(s: Seq<u8>) -> Option<Seq<u8>>;

/// Relies on `url::Url::parse` and `Url::set_path`: the base URL with its
/// path set to `api`, a function of the input alone; `None` exactly when
/// the input is no URL.
#[verifier::external_body]
fn api_link_base(b: &Vec<u8>) -> (r: Option<Vec<u8>>)
    ensures
        r.deep_view() == url_with_api_path(b@),
{
    match std::str::from_utf8(b.as_slice()) {
        Ok(s) => match url::Url::parse(s) {
            Ok(mut u) => {
                u.set_path("api");
                Some(u.as_str().as_bytes().to_vec())
            },
            Err(_) => None,
        },
        Err(_) => None,
    }
}

// ------------------------------------------------------------------
// Code assignment
// ------------------------------------------------------------------
/// Every assignment in `a` stands unchanged in `b`.
pub open spec fn code_preserved(a: Map<Seq<u8>, Seq<u8>>, b: Map<Seq<u8>, Seq<u8>>) -> bool {
    forall|k: Seq<u8>| #[trigger] a.contains_key(k) ==> b.contains_key(k) && b[k] == a[k]
}

/// Code stability composes: an id assigned a code keeps it across any
/// number of later updates.
pub proof fn lemma_code_stability_chain(
    a: Map<Seq<u8>, Seq<u8>>,
    b: Map<Seq<u8>, Seq<u8>>,
    c: Map<Seq<u8>, Seq<u8>>,
)
    requires
        code_preserved(a, b),
        code_preserved(b, c),
    ensures
        code_preserved(a, c),
{
    assert forall|k: Seq<u8>| #[trigger] a.contains_key(k) implies c.contains_key(k) && c[k]
        == a[k] by {
        assert(b.contains_key(k) && b[k] == a[k]);
    }
}

/// Idempotent code assignment: across any number of administrative
/// updates, each of which preserves existing assignments (as `put` and
/// `patch` ensure), an id assigned a code at any point keeps exactly that
/// code to the end.
pub proof fn lemma_code_stability_sequence(history: Seq<Map<Seq<u8>, Seq<u8>>>)
    requires
        history.len() > 0,
        forall|i: int|
            0 <= i < history.len() - 1 ==> code_preserved(#[trigger] history[i], history[i + 1]),
    ensures
        forall|i: int| 0 <= i < history.len() ==> code_preserved(#[trigger] history[i], history.last()),
    decreases history.len(),
{
    if history.len() > 1 {
        let tail = history.drop_first();
        assert(forall|i: int|
            0 <= i < tail.len() - 1 ==> code_preserved(#[trigger] tail[i], tail[i + 1])) by {
            assert(forall|i: int|
                0 <= i < tail.len() - 1 ==> #[trigger] tail[i] == history[i + 1] && tail[i + 1]
                    == history[i + 2]);
        }
        lemma_code_stability_sequence(tail);
        assert(tail.last() == history.last());
        assert forall|i: int| 0 <= i < history.len() implies code_preserved(
            #[trigger] history[i],
            history.last(),
        ) by {
            if i == 0 {
                assert(code_preserved(history[0], history[1]));
                assert(tail[0] == history[1]);
                assert(code_preserved(tail[0], tail.last()));
                lemma_code_stability_chain(history[0], history[1], history.last());
            } else {
                assert(tail[i - 1] == history[i]);
                assert(code_preserved(tail[i - 1], tail.last()));
            }
        }
    } else {
        assert forall|k: Seq<u8>| #[trigger] history.last().contains_key(k) implies history.last().contains_key(k)
            && history.last()[k] == history.last()[k] by {}
        assert(code_preserved(history[0], history.last()));
    }
}

/// A generated code: fixed length, ASCII alphanumeric.
pub open spec fn valid_code(c: Seq<u8>) -> bool {
    c.len() == CODE_LENGTH && forall|i: int| 0 <= i < c.len() ==> is_alnum_byte(#[trigger] c[i])
}

/// Look up the code of an id, assigning a fresh random one on first sight.
fn get_or_assign_code(table: &mut ByteMap, id: Vec<u8>) -> (r: Vec<u8>)
    requires
        old(table).wf(),
    ensures
        final(table).wf(),
        code_preserved(old(table)@, final(table)@),
        final(table)@.contains_key(id@),
        final(table)@[id@] == r@,
        old(table)@.contains_key(id@) ==> final(table)@ == old(table)@,
        !old(table)@.contains_key(id@) ==> final(table)@ == old(table)@.insert(id@, r@)
            && valid_code(r@),
{
    let existing = match table.get(&id) {
        Some(c) => Some(clone_bytes(c)),
        None => None,
    };
    match existing {
        Some(c) => c,
        None => {
            let code = random_code();
            let copy = clone_bytes(&code);
            table.insert(id, copy);
            code
        },
    }
}

// ------------------------------------------------------------------
// Building a routing table from an upload
// ------------------------------------------------------------------
/// The routing table an upload produces over a code table: starting from
/// `init`, each route in order maps its id's code to its URL; a later route
/// wins a code collision.
pub open spec fn router_of(
    routes: Seq<(Seq<u8>, Seq<u8>)>,
    ct: Map<Seq<u8>, Seq<u8>>,
    init: Map<Seq<u8>, Seq<u8>>,
) -> Map<Seq<u8>, Seq<u8>>
    decreases routes.len(),
{
    if routes.len() == 0 {
        init
    } else {
        router_of(routes.drop_last(), ct, init).insert(ct[routes.last().0], routes.last().1)
    }
}

/// `router_of` reads the code table only at the uploaded ids.
pub proof fn lemma_router_of_agrees(
    routes: Seq<(Seq<u8>, Seq<u8>)>,
    ct1: Map<Seq<u8>, Seq<u8>>,
    ct2: Map<Seq<u8>, Seq<u8>>,
    init: Map<Seq<u8>, Seq<u8>>,
)
    requires
        forall|i: int|
            0 <= i < routes.len() ==> ct1.contains_key(#[trigger] routes[i].0)
                && ct2.contains_key(routes[i].0) && ct1[routes[i].0] == ct2[routes[i].0],
    ensures
        router_of(routes, ct1, init) == router_of(routes, ct2, init),
    decreases routes.len(),
{
    if routes.len() > 0 {
        assert(forall|i: int|
            0 <= i < routes.drop_last().len() ==> routes.drop_last()[i] == routes[i]);
        lemma_router_of_agrees(routes.drop_last(), ct1, ct2, init);
        assert(routes.last() == routes[routes.len() - 1]);
    }
}

/// Everything in a freshly built routing table comes from the one upload
/// that built it: each entry is the coded image of one uploaded route.
pub proof fn lemma_router_from_single_input(
    routes: Seq<(Seq<u8>, Seq<u8>)>,
    ct: Map<Seq<u8>, Seq<u8>>,
    c: Seq<u8>,
)
    requires
        router_of(routes, ct, Map::empty()).contains_key(c),
    ensures
        exists|i: int|
            0 <= i < routes.len() && ct[#[trigger] routes[i].0] == c && router_of(
                routes,
                ct,
                Map::empty(),
            )[c] == routes[i].1,
    decreases routes.len(),
{
    let m = router_of(routes, ct, Map::empty());
    if routes.len() > 0 {
        let last = routes.last();
        if ct[last.0] == c {
            assert(0 <= routes.len() - 1 < routes.len() && ct[routes[routes.len() - 1].0] == c
                && m[c] == routes[routes.len() - 1].1);
        } else {
            lemma_router_from_single_input(routes.drop_last(), ct, c);
            let i = choose|i: int|
                0 <= i < routes.drop_last().len() && ct[#[trigger] routes.drop_last()[i].0] == c
                    && router_of(routes.drop_last(), ct, Map::empty())[c] == routes.drop_last()[i].1;
            assert(routes.drop_last()[i] == routes[i]);
            assert(0 <= i < routes.len() && ct[routes[i].0] == c && m[c] == routes[i].1);
        }
    }
}

// ------------------------------------------------------------------
// Persistence of tables
// ------------------------------------------------------------------
/// The fixed file name of the code-table snapshot.
fn code_table_name() -> (r: Vec<u8>)
    ensures
        r@ == seq![99u8, 111u8, 100u8, 101u8],
{
    let mut v: Vec<u8> = Vec::new();
    v.push(99);
    v.push(111);
    v.push(100);
    v.push(101);
    assert(v@ =~= seq![99u8, 111u8, 100u8, 101u8]);
    v
}

/// A fresh snapshot file name: the current time, RFC 3339, with the `.json`
/// extension — a name [`crate::timestamp::snapshot_stamp`] accepts, so a
/// later load will consider the file.
fn snapshot_name() -> (r: Vec<u8>)
    ensures
        crate::timestamp::snapshot_stamp(r@) is Some,
{
    let stamp = now_rfc3339();
    let ghost ts = stamp@;
    let mut name = stamp;
    name.push(46);
    name.push(106);
    name.push(115);
    name.push(111);
    name.push(110);
    proof {
        assert(name@.subrange(0, name@.len() - 5) =~= ts);
        assert(name@.subrange(name@.len() - 5, name@.len() as int)
            =~= crate::timestamp::json_ext());
    }
    name
}

/// Persist a code table under its fixed file name in `dir`. An error is
/// always a storage error; memory is untouched either way.
pub fn write_code_table(table: &ByteMap, dir: &str) -> (r: Result<(), StateError>)
    ensures
        r matches Err(e) ==> e is StoreError,
{
    let bytes = codec::encode_table(table);
    let name = code_table_name();
    match persist_bytes(dir, &name, &bytes) {
        Ok(()) => Ok(()),
        Err(m) => Err(StateError::StoreError(m)),
    }
}

/// Persist a routing table under a fresh timestamped snapshot name in
/// `dir`. An error is always a storage error; memory is untouched.
pub fn write_router_table(table: &ByteMap, dir: &str) -> (r: Result<(), StateError>)
    ensures
        r matches Err(e) ==> e is StoreError,
{
    let bytes = codec::encode_table(table);
    let name = snapshot_name();
    match persist_bytes(dir, &name, &bytes) {
        Ok(()) => Ok(()),
        Err(m) => Err(StateError::StoreError(m)),
    }
}

/// Decode the selected routing-table snapshot. A snapshot that does not
/// decode is a hard error: there is no fallback to an older snapshot.
pub fn load_latest_router_table(bytes: &Vec<u8>) -> (r: Result<ByteMap, StateError>)
    ensures
        match r {
            Ok(t) => codec::parse_table_doc(bytes@) matches Some(ps) && t.wf() && t@
                == crate::bytemap::map_of(ps),
            Err(e) => codec::parse_table_doc(bytes@) is None && e is StoreError,
        },
{
    match codec::read_table(bytes) {
        Some(ps) => Ok(ByteMap::from_pairs(ps)),
        None => Err(StateError::StoreError(String::from_str("snapshot did not decode"))),
    }
}

/// Decode the code-table file if one exists; its absence is no error, a
/// file that does not decode is.
pub fn load_latest_code_table(bytes: Option<&Vec<u8>>) -> (r: Result<Option<ByteMap>, StateError>)
    ensures
        match r {
            Ok(o) => match o {
                Some(t) => bytes matches Some(b) && codec::parse_table_doc(b@) matches Some(ps)
                    && t.wf() && t@ == crate::bytemap::map_of(ps),
                None => bytes is None,
            },
            Err(e) => bytes matches Some(b) && codec::parse_table_doc(b@) is None
                && e is StoreError,
        },
{
    match bytes {
        Some(b) => match codec::read_table(b) {
            Some(ps) => Ok(Some(ByteMap::from_pairs(ps))),
            None => Err(StateError::StoreError(String::from_str("code table did not decode"))),
        },
        None => Ok(None),
    }
}

// ------------------------------------------------------------------
// The manager
// ------------------------------------------------------------------
/// The key under which a redirect carries the resolved code to the target.
pub open spec fn external_id_param() -> Seq<u8> {
    seq![
        101u8,
        120u8,
        116u8,
        101u8,
        114u8,
        110u8,
        97u8,
        108u8,
        85u8,
        115u8,
        101u8,
        114u8,
        73u8,
        100u8,
    ]
}

/// Exec value of [`external_id_param`]: `externalUserId`.
fn external_id_key() -> (r: Vec<u8>)
    ensures
        r@ == external_id_param(),
{
    let mut v: Vec<u8> = Vec::new();
    v.push(101);
    v.push(120);
    v.push(116);
    v.push(101);
    v.push(114);
    v.push(110);
    v.push(97);
    v.push(108);
    v.push(85);
    v.push(115);
    v.push(101);
    v.push(114);
    v.push(73);
    v.push(100);
    assert(v@ =~= external_id_param());
    v
}

/// The query key of a published link: `code`.
pub open spec fn code_param() -> Seq<u8> {
    seq![99u8, 111u8, 100u8, 101u8]
}

/// Exec value of [`code_param`], which spells the same as the code-table
/// file name.
fn code_param_key() -> (r: Vec<u8>)
    ensures
        r@ == code_param(),
{
    let r = code_table_name();
    assert(r@ == code_param());
    r
}

/// The authoritative state: the live routing table, the code table, and
/// where snapshots go.
pub struct RouterState {
    base_url: Vec<u8>,
    links_base: Vec<u8>,
    store_dir: String,
    routes: ByteMap,
    codes: ByteMap,
}

impl RouterState {
    /// The live routing table: code to target URL.
    pub closed spec fn router_map(&self) -> Map<Seq<u8>, Seq<u8>> {
        self.routes@
    }

    /// The live routing table's stored entries, in order: its byte-exact
    /// content.
    pub closed spec fn router_entries(&self) -> Seq<(Seq<u8>, Seq<u8>)> {
        self.routes.entries()
    }

    /// The code table: id to code.
    pub closed spec fn code_map(&self) -> Map<Seq<u8>, Seq<u8>> {
        self.codes@
    }

    /// The code table's stored entries, in order.
    pub closed spec fn code_entries(&self) -> Seq<(Seq<u8>, Seq<u8>)> {
        self.codes.entries()
    }

    /// The configured public base URL.
    pub closed spec fn base(&self) -> Seq<u8> {
        self.base_url@
    }

    /// The base URL with the public api path, used to publish links.
    pub closed spec fn links_base_spec(&self) -> Seq<u8> {
        self.links_base@
    }

    /// The snapshot directory.
    pub closed spec fn store(&self) -> Seq<char> {
        self.store_dir@
    }

    /// Both tables are well-formed.
    pub closed spec fn wf(&self) -> bool {
        self.routes.wf() && self.codes.wf()
    }

    /// The configuration fields are those of `other`.
    pub open spec fn same_config(&self, other: &RouterState) -> bool {
        self.base() == other.base() && self.links_base_spec() == other.links_base_spec()
            && self.store() == other.store()
    }

    /// The live routing table, for read paths.
    pub fn router_table(&self) -> (r: &ByteMap)
        ensures
            r@ == self.router_map(),
            self.wf() ==> r.wf(),
    {
        &self.routes
    }

    /// The code table.
    pub fn code_table(&self) -> (r: &ByteMap)
        ensures
            r@ == self.code_map(),
            r.entries() == self.code_entries(),
            self.wf() ==> r.wf(),
    {
        &self.codes
    }

    /// Build the initial state: the decoded snapshots, or empty tables
    /// where none exist. Fails exactly when the base URL does not parse or
    /// a present snapshot does not decode.
    pub fn init(
        base_url: Vec<u8>,
        store_dir: String,
        router_bytes: Option<Vec<u8>>,
        code_bytes: Option<Vec<u8>>,
    ) -> (r: Result<RouterState, StateError>)
        ensures
            match r {
                Ok(st) => {
                    &&& st.wf()
                    &&& st.base() == base_url@
                    &&& url_with_api_path(base_url@) == Some(st.links_base_spec())
                    &&& st.store() == store_dir@
                    &&& match router_bytes {
                        Some(b) => codec::parse_table_doc(b@) matches Some(ps) && st.router_map()
                            == crate::bytemap::map_of(ps),
                        None => st.router_map() == Map::<Seq<u8>, Seq<u8>>::empty(),
                    }
                    &&& match code_bytes {
                        Some(b) => codec::parse_table_doc(b@) matches Some(ps) && st.code_map()
                            == crate::bytemap::map_of(ps),
                        None => st.code_map() == Map::<Seq<u8>, Seq<u8>>::empty(),
                    }
                },
                Err(e) => {
                    &&& e is StoreError
                    &&& {
                        ||| url_with_api_path(base_url@) is None
                        ||| (router_bytes matches Some(b) && codec::parse_table_doc(b@) is None)
                        ||| (code_bytes matches Some(b) && codec::parse_table_doc(b@) is None)
                    }
                },
            },
    {
        let links_base = match api_link_base(&base_url) {
            Some(l) => l,
            None => {
                return Err(StateError::StoreError(String::from_str("base URL did not parse")));
            },
        };
        let routes = match router_bytes {
            Some(b) => match load_latest_router_table(&b) {
                Ok(t) => t,
                Err(e) => {
                    return Err(e);
                },
            },
            None => ByteMap::new(),
        };
        let codes = match load_latest_code_table(code_bytes.as_ref()) {
            Ok(Some(t)) => t,
            Ok(None) => ByteMap::new(),
            Err(e) => {
                return Err(e);
            },
        };
        Ok(RouterState { base_url, links_base, store_dir, routes, codes })
    }

    /// Look a code up in the live table and compose the redirect URL: the
    /// stored target with the resolved code appended as the external-id
    /// query parameter. Unknown codes are not found; nothing else fails.
    pub fn redirect(&self, params: &RedirectParams) -> (r: Result<Vec<u8>, StateError>)
        requires
            self.wf(),
        ensures
            match r {
                Ok(u) => self.router_map().contains_key(params.code@) && u@ == append_pair(
                    self.router_map()[params.code@],
                    external_id_param(),
                    params.code@,
                ),
                Err(e) => !self.router_map().contains_key(params.code@) && e is InvalidCode,
            },
    {
        redirect_in(&self.routes, params)
    }

    /// Replace the routing table. Codes are assigned stably — an id already
    /// in the code table keeps its code, a new id draws a fresh random one —
    /// and the new table is exactly the coded image of this upload. Both
    /// tables are persisted before the live table is swapped: on a storage
    /// error the live table is untouched.
    pub fn put_routing_table(&mut self, data: Vec<Route>) -> (r: Result<(), StateError>)
        requires
            old(self).wf(),
        ensures
            final(self).wf(),
            final(self).same_config(old(self)),
            code_preserved(old(self).code_map(), final(self).code_map()),
            forall|i: int|
                0 <= i < data@.len() ==> final(self).code_map().contains_key(
                    #[trigger] routes_view(data@)[i].0,
                ),
            forall|k: Seq<u8>|
                final(self).code_map().contains_key(k) && !old(self).code_map().contains_key(k)
                    ==> valid_code(#[trigger] final(self).code_map()[k]),
            match r {
                Ok(()) => final(self).router_map() == router_of(
                    routes_view(data@),
                    final(self).code_map(),
                    Map::empty(),
                ),
                Err(e) => final(self).router_entries() == old(self).router_entries()
                    && final(self).router_map() == old(self).router_map() && e is StoreError,
            },
    {
        let new_router = self.coded_table(&data, ByteMap::new());
        match write_code_table(&self.codes, self.store_dir.as_str()) {
            Ok(()) => {},
            Err(e) => {
                return Err(e);
            },
        }
        match write_router_table(&new_router, self.store_dir.as_str()) {
            Ok(()) => {},
            Err(e) => {
                return Err(e);
            },
        }
        self.routes = new_router;
        Ok(())
    }

    /// Merge an upload into a copy of the live routing table: mentioned
    /// routes are inserted or overwritten, others are retained. The same
    /// code stability and write-then-swap discipline as a full replace.
    pub fn patch_routing_table(&mut self, data: Vec<Route>) -> (r: Result<(), StateError>)
        requires
            old(self).wf(),
        ensures
            final(self).wf(),
            final(self).same_config(old(self)),
            code_preserved(old(self).code_map(), final(self).code_map()),
            forall|i: int|
                0 <= i < data@.len() ==> final(self).code_map().contains_key(
                    #[trigger] routes_view(data@)[i].0,
                ),
            forall|k: Seq<u8>|
                final(self).code_map().contains_key(k) && !old(self).code_map().contains_key(k)
                    ==> valid_code(#[trigger] final(self).code_map()[k]),
            match r {
                Ok(()) => final(self).router_map() == router_of(
                    routes_view(data@),
                    final(self).code_map(),
                    old(self).router_map(),
                ),
                Err(e) => final(self).router_entries() == old(self).router_entries()
                    && final(self).router_map() == old(self).router_map() && e is StoreError,
            },
    {
        let start = self.routes.duplicate();
        let new_router = self.coded_table(&data, start);
        match write_code_table(&self.codes, self.store_dir.as_str()) {
            Ok(()) => {},
            Err(e) => {
                return Err(e);
            },
        }
        match write_router_table(&new_router, self.store_dir.as_str()) {
            Ok(()) => {},
            Err(e) => {
                return Err(e);
            },
        }
        self.routes = new_router;
        Ok(())
    }

    /// Fold an upload over a starting table, assigning codes as needed.
    fn coded_table(&mut self, data: &Vec<Route>, start: ByteMap) -> (r: ByteMap)
        requires
            old(self).wf(),
            start.wf(),
        ensures
            final(self).wf(),
            final(self).same_config(old(self)),
            final(self).router_map() == old(self).router_map(),
            final(self).router_entries() == old(self).router_entries(),
            code_preserved(old(self).code_map(), final(self).code_map()),
            forall|i: int|
                0 <= i < data@.len() ==> final(self).code_map().contains_key(
                    #[trigger] routes_view(data@)[i].0,
                ),
            forall|k: Seq<u8>|
                final(self).code_map().contains_key(k) && !old(self).code_map().contains_key(k)
                    ==> valid_code(#[trigger] final(self).code_map()[k]),
            r.wf(),
            r@ == router_of(routes_view(data@), final(self).code_map(), start@),
    {
        let ghost rv = routes_view(data@);
        let ghost init_map = start@;
        let mut table = start;
        let n = data.len();
        let mut i: usize = 0;
        proof {
            assert(rv.take(0) =~= Seq::<(Seq<u8>, Seq<u8>)>::empty());
        }
        while i < n
            invariant
                n == data.len(),
                i <= n,
                rv == routes_view(data@),
                rv.len() == n,
                self.codes.wf(),
                table.wf(),
                self.base_url == old(self).base_url,
                self.links_base == old(self).links_base,
                self.store_dir == old(self).store_dir,
                self.routes == old(self).routes,
                code_preserved(old(self).codes@, self.codes@),
                forall|j: int| 0 <= j < i ==> self.codes@.contains_key(#[trigger] rv[j].0),
                forall|k: Seq<u8>|
                    self.codes@.contains_key(k) && !old(self).codes@.contains_key(k)
                        ==> valid_code(#[trigger] self.codes@[k]),
                table@ == router_of(rv.take(i as int), self.codes@, init_map),
            decreases n - i,
        {
            let id = clone_bytes(&data[i].id.0);
            let url = clone_bytes(&data[i].url);
            let ghost ct_before = self.codes@;
            let code = get_or_assign_code(&mut self.codes, id);
            proof {
                assert(forall|j: int| 0 <= j < i ==> rv.take(i as int)[j] == rv[j]);
                lemma_router_of_agrees(rv.take(i as int), ct_before, self.codes@, init_map);
            }
            table.insert(code, url);
            proof {
                assert(rv.take(i + 1).drop_last() =~= rv.take(i as int));
                assert(rv.take(i + 1).last() == rv[i as int]);
                assert(rv[i as int].0 == data@[i as int].id@ && rv[i as int].1
                    == data@[i as int].url@);
                assert(self.codes@[rv[i as int].0] == code@);
                assert(table@ == router_of(rv.take(i + 1), self.codes@, init_map));
            }
            i += 1;
        }
        proof {
            assert(rv.take(n as int) =~= rv);
        }
        table
    }

    /// Every published link: for each id whose code stands in the live
    /// routing table, the public api URL carrying the code as its query
    /// parameter, in code-table order.
    pub fn get_links(&self) -> (r: Vec<(Vec<u8>, Vec<u8>)>)
        requires
            self.wf(),
        ensures
            r.deep_view() == links_of(
                self.code_entries(),
                self.router_map(),
                self.links_base_spec(),
            ),
    {
        let key = code_param_key();
        let mut out: Vec<(Vec<u8>, Vec<u8>)> = Vec::new();
        let n = self.codes.len();
        let mut i: usize = 0;
        proof {
            assert(self.code_entries().take(0) =~= Seq::<(Seq<u8>, Seq<u8>)>::empty());
            assert(out.deep_view() =~~= links_of(
                self.code_entries().take(0),
                self.router_map(),
                self.links_base_spec(),
            ));
        }
        while i < n
            invariant
                n == self.code_entries().len(),
                self.wf(),
                i <= n,
                key@ == code_param(),
                out.deep_view() == links_of(
                    self.code_entries().take(i as int),
                    self.router_map(),
                    self.links_base_spec(),
                ),
            decreases n - i,
        {
            let ghost entries = self.code_entries();
            let ghost before = out.deep_view();
            let id = self.codes.key_at(i);
            let code = self.codes.val_at(i);
            if self.routes.contains_key(code) {
                let link = crate::urlq::append_query_pair(&self.links_base, &key, code);
                let id_copy = clone_bytes(id);
                out.push((id_copy, link));
                proof {
                    assert(out.deep_view() =~~= before.push((entries[i as int].0, link@)));
                }
            }
            proof {
                assert(entries.take(i + 1).drop_last() =~= entries.take(i as int));
                assert(entries.take(i + 1).last() == entries[i as int]);
            }
            i += 1;
        }
        proof {
            assert(self.code_entries().take(n as int) =~= self.code_entries());
        }
        out
    }
}

/// Look a code up in a routing-table snapshot and compose the redirect
/// URL. The hot read path works on such an immutable snapshot handle, so it
/// never waits on an administrative write in progress.
pub fn redirect_in(table: &ByteMap, params: &RedirectParams) -> (r: Result<Vec<u8>, StateError>)
    requires
        table.wf(),
    ensures
        match r {
            Ok(u) => table@.contains_key(params.code@) && u@ == append_pair(
                table@[params.code@],
                external_id_param(),
                params.code@,
            ),
            Err(e) => !table@.contains_key(params.code@) && e is InvalidCode,
        },
{
    match table.get(&params.code.0) {
        Some(url) => {
            let key = external_id_key();
            Ok(crate::urlq::append_query_pair(url, &key, &params.code.0))
        },
        None => Err(StateError::InvalidCode),
    }
}

/// Links published for a code table over a routing table: ids whose code is
/// live, each mapped to the api URL carrying its code.
pub open spec fn links_of(
    entries: Seq<(Seq<u8>, Seq<u8>)>,
    router: Map<Seq<u8>, Seq<u8>>,
    base: Seq<u8>,
) -> Seq<(Seq<u8>, Seq<u8>)>
    decreases entries.len(),
{
    if entries.len() == 0 {
        Seq::empty()
    } else {
        let prev = links_of(entries.drop_last(), router, base);
        let e = entries.last();
        if router.contains_key(e.1) {
            prev.push((e.0, append_pair(base, code_param(), e.1)))
        } else {
            prev
        }
    }
}

/// Decode and normalize an admin upload: the JSON route list, each URL
/// replaced by its canonical text. `None` when the JSON is malformed or a
/// URL does not parse.
pub fn decode_routes(body: &Vec<u8>) -> (r: Option<Vec<Route>>)
    ensures
        match r {
            Some(routes) => codec::parse_routes_doc(body@) matches Some(ps) && routes@.len()
                == ps.len() && forall|i: int|
                0 <= i < ps.len() ==> routes@[i].id@ == ps[i].0 && url_normalized(
                    #[trigger] ps[i].1,
                ) == Some(routes@[i].url@),
            None => codec::parse_routes_doc(body@) is None || (codec::parse_routes_doc(body@)
                matches Some(ps) && exists|i: int|
                0 <= i < ps.len() && url_normalized(#[trigger] ps[i].1) is None),
        },
{
    let raw = match codec::read_routes(body) {
        Some(v) => v,
        None => {
            return None;
        },
    };
    let ghost ps = raw.deep_view();
    let mut out: Vec<Route> = Vec::new();
    let n = raw.len();
    let mut i: usize = 0;
    while i < n
        invariant
            n == raw.len(),
            i <= n,
            ps == raw.deep_view(),
            ps.len() == n,
            codec::parse_routes_doc(body@) == Some(ps),
            out@.len() == i,
            forall|j: int|
                0 <= j < i ==> out@[j].id@ == ps[j].0 && url_normalized(#[trigger] ps[j].1) == Some(
                    out@[j].url@,
                ),
        decreases n - i,
    {
        assert(raw@[i as int].0@ == ps[i as int].0 && raw@[i as int].1@ == ps[i as int].1) by {
            assert(raw.deep_view()[i as int] == raw@[i as int].deep_view());
        }
        let url = match normalize_url(&raw[i].1) {
            Some(u) => u,
            None => {
                return None;
            },
        };
        let id = clone_bytes(&raw[i].0);
        out.push(Route { id: Id(id), url });
        i += 1;
    }
    Some(out)
}

/// The transport status of each manager error: not-found for an unknown
/// code, too-many-requests for a busy admission, internal for storage,
/// unauthorized for a failed credential.
pub fn error_status(e: &StateError) -> (r: u16)
    ensures
        r == match e {
            StateError::Unauthorized => 401u16,
            StateError::InvalidCode => 404u16,
            StateError::StoreError(_) => 500u16,
            StateError::Busy => 429u16,
        },
{
    match e {
        StateError::Unauthorized => 401,
        StateError::InvalidCode => 404,
        StateError::StoreError(_) => 500,
        StateError::Busy => 429,
    }
}
} // verus!
