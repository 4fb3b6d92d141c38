//! Redirect-URL composition: appending one query parameter to a stored
//! target URL, in the `application/x-www-form-urlencoded` convention
//! (alphanumerics and `*-._` kept, space as `+`, every other byte as `%XX`).
//! The parameter lands at the end of the query, before any fragment; a `?`
//! is introduced when the URL has none yet.
use vstd::prelude::*;

use crate::bytes::{hex_digit_upper, hex_digit_upper_exec, is_alnum_byte};

verus! {

pub const QMARK: u8 = 63;

pub const AMP: u8 = 38;

pub const EQ: u8 = 61;

pub const HASH: u8 = 35;

pub const PERCENT: u8 = 37;

pub const PLUS: u8 = 43;

/// Bytes the form-urlencoded serializer keeps unchanged.
pub open spec fn form_unchanged(b: u8) -> bool {
    b == 42 || b == 45 || b == 46 || b == 95 || is_alnum_byte(b)
}

/// The form-urlencoded image of one byte.
pub open spec fn form_byte(b: u8) -> Seq<u8> {
    if form_unchanged(b) {
        seq![b]
    } else if b == 32 {
        seq![PLUS]
    } else {
        seq![PERCENT, hex_digit_upper(b as int / 16), hex_digit_upper(b as int % 16)]
    }
}

/// The form-urlencoded image of a byte string.
pub open spec fn form_encoded(s: Seq<u8>) -> Seq<u8>
    decreases s.len(),
{
    if s.len() == 0 {
        Seq::empty()
    } else {
        form_byte(s[0]) + form_encoded(s.drop_first())
    }
}

/// First position at or after `i` holding `b`, or the length.
pub open spec fn find_byte(s: Seq<u8>, b: u8, i: int) -> int
    decreases s.len() - i,
{
    if 0 <= i < s.len() {
        if s[i] == b {
            i
        } else {
            find_byte(s, b, i + 1)
        }
    } else {
        s.len() as int
    }
}

pub proof fn lemma_find_byte(s: Seq<u8>, b: u8, i: int)
    requires
        0 <= i <= s.len(),
    ensures
        i <= find_byte(s, b, i) <= s.len(),
        find_byte(s, b, i) < s.len() ==> s[find_byte(s, b, i)] == b,
        forall|k: int| i <= k < find_byte(s, b, i) ==> s[k] != b,
    decreases s.len() - i,
{
    if i < s.len() && s[i] != b {
        lemma_find_byte(s, b, i + 1);
    }
}

/// The separator written before a new query parameter: `?` when the URL has
/// no query yet, nothing when the query is still empty, `&` otherwise. The
/// query lives between the first `?` and the fragment.
pub open spec fn pair_separator(base: Seq<u8>) -> Seq<u8> {
    let q = find_byte(base, QMARK, 0);
    if q == base.len() {
        seq![QMARK]
    } else if q + 1 == base.len() {
        Seq::empty()
    } else {
        seq![AMP]
    }
}

/// A URL with one more query parameter: the encoded pair goes to the end of
/// the query, and a fragment stays behind it.
pub open spec fn append_pair(url: Seq<u8>, key: Seq<u8>, value: Seq<u8>) -> Seq<u8> {
    let f = find_byte(url, HASH, 0);
    let base = url.subrange(0, f);
    let frag = url.subrange(f, url.len() as int);
    base + pair_separator(base) + form_encoded(key) + seq![EQ] + form_encoded(value) + frag
}

/// Encoding one more byte extends the image at its end.
proof fn lemma_form_encoded_push(t: Seq<u8>, c: u8)
    ensures
        form_encoded(t.push(c)) == form_encoded(t) + form_byte(c),
    decreases t.len(),
{
    if t.len() == 0 {
        assert(t.push(c)[0] == c);
        assert(t.push(c).drop_first() =~= Seq::<u8>::empty());
        assert(form_encoded(t.push(c)) == form_byte(c) + form_encoded(Seq::<u8>::empty()));
        assert(form_byte(c) + Seq::<u8>::empty() =~= form_byte(c));
        assert(form_encoded(t) + form_byte(c) =~= form_byte(c));
    } else {
        assert(t.push(c)[0] == t[0]);
        assert(t.push(c).drop_first() =~= t.drop_first().push(c));
        lemma_form_encoded_push(t.drop_first(), c);
        assert(form_encoded(t.push(c)) == form_byte(t[0]) + form_encoded(t.drop_first().push(c)));
        assert(form_encoded(t) == form_byte(t[0]) + form_encoded(t.drop_first()));
        assert(form_byte(t[0]) + (form_encoded(t.drop_first()) + form_byte(c)) =~= (form_byte(t[0])
            + form_encoded(t.drop_first())) + form_byte(c));
    }
    assert(form_encoded(t.push(c)) =~= form_encoded(t) + form_byte(c));
}

/// Append the form-urlencoded image of `s`.
fn form_encode_into(out: &mut Vec<u8>, s: &Vec<u8>)
    ensures
        final(out)@ == old(out)@ + form_encoded(s@),
{
    let n = s.len();
    let mut i: usize = 0;
    proof {
        assert(s@.take(0) =~= Seq::<u8>::empty());
        assert(old(out)@ + Seq::<u8>::empty() =~= old(out)@);
    }
    while i < n
        invariant
            n == s.len(),
            i <= n,
            out@ == old(out)@ + form_encoded(s@.take(i as int)),
        decreases n - i,
    {
        let b = s[i];
        if b == 42 || b == 45 || b == 46 || b == 95 || (0x30 <= b && b <= 0x39) || (0x41 <= b && b
            <= 0x5a) || (0x61 <= b && b <= 0x7a) {
            out.push(b);
            assert(out@ =~= old(out)@ + form_encoded(s@.take(i as int)) + form_byte(b));
        } else if b == 32 {
            out.push(PLUS);
            assert(out@ =~= old(out)@ + form_encoded(s@.take(i as int)) + form_byte(b));
        } else {
            out.push(PERCENT);
            out.push(hex_digit_upper_exec(b / 16));
            out.push(hex_digit_upper_exec(b % 16));
            assert(out@ =~= old(out)@ + form_encoded(s@.take(i as int)) + form_byte(b));
        }
        proof {
            assert(s@.take(i as int).push(s@[i as int]) =~= s@.take(i + 1));
            lemma_form_encoded_push(s@.take(i as int), s@[i as int]);
            assert(old(out)@ + form_encoded(s@.take(i as int)) + form_byte(b) =~= old(out)@
                + form_encoded(s@.take(i + 1)));
        }
        i += 1;
    }
    proof {
        assert(s@.take(n as int) =~= s@);
    }
}

/// First position below `limit` holding `b`, or `limit`.
fn find_byte_upto(s: &Vec<u8>, b: u8, limit: usize) -> (r: usize)
    requires
        limit <= s.len(),
    ensures
        r == find_byte(s@.subrange(0, limit as int), b, 0),
        r <= limit,
{
    let ghost sub = s@.subrange(0, limit as int);
    let mut j: usize = 0;
    while j < limit
        invariant
            limit <= s.len(),
            j <= limit,
            sub == s@.subrange(0, limit as int),
            find_byte(sub, b, 0) == find_byte(sub, b, j as int),
        decreases limit - j,
    {
        assert(sub[j as int] == s@[j as int]);
        if s[j] == b {
            assert(find_byte(sub, b, j as int) == j as int);
            return j;
        }
        j += 1;
    }
    assert(find_byte(sub, b, j as int) == sub.len());
    j
}

/// The URL with `key=value` appended to its query.
pub fn append_query_pair(url: &Vec<u8>, key: &Vec<u8>, value: &Vec<u8>) -> (r: Vec<u8>)
    ensures
        r@ == append_pair(url@, key@, value@),
{
    proof {
        lemma_find_byte(url@, HASH, 0);
    }
    let f = find_byte_upto(url, HASH, url.len());
    proof {
        assert(url@.subrange(0, url.len() as int) =~= url@);
    }
    let ghost base = url@.subrange(0, f as int);
    let ghost frag = url@.subrange(f as int, url@.len() as int);
    let mut out: Vec<u8> = Vec::new();
    let mut i: usize = 0;
    while i < f
        invariant
            f <= url.len(),
            i <= f,
            base == url@.subrange(0, f as int),
            out@ =~= base.take(i as int),
        decreases f - i,
    {
        out.push(url[i]);
        assert(out@ =~= base.take(i + 1)) by {
            assert(base[i as int] == url@[i as int]);
        }
        i += 1;
    }
    assert(out@ =~= base);
    // separator: ? when no query, nothing when the query is empty, & else
    let q = find_byte_upto(url, QMARK, f);
    assert(q as int == find_byte(base, QMARK, 0));
    if q == f {
        out.push(QMARK);
        assert(out@ =~= base + pair_separator(base));
    } else if q + 1 == f {
        assert(out@ =~= base + pair_separator(base));
    } else {
        out.push(AMP);
        assert(out@ =~= base + pair_separator(base));
    }
    form_encode_into(&mut out, key);
    out.push(EQ);
    form_encode_into(&mut out, value);
    let ghost mid = out@;
    let n = url.len();
    let mut i2: usize = f;
    while i2 < n
        invariant
            f <= i2 <= n,
            n == url.len(),
            frag == url@.subrange(f as int, url@.len() as int),
            out@ =~= mid + url@.subrange(f as int, i2 as int),
        decreases n - i2,
    {
        out.push(url[i2]);
        assert(out@ =~= mid + url@.subrange(f as int, i2 + 1));
        i2 += 1;
    }
    proof {
        assert(out@ =~= mid + frag);
        assert(out@ =~= base + pair_separator(base) + form_encoded(key@) + seq![EQ] + form_encoded(
            value@,
        ) + frag);
    }
    out
}

} // verus!
