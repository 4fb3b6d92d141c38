//! The snapshot wire format: a table is stored as a JSON object whose keys
//! and values are strings, and an admin upload is a JSON array of route
//! objects. Both the encoder and the parser are verified against the spec
//! functions here, and encoding then parsing a table is proved to be the
//! identity.
//!
//! Strings are handled at the byte level: bytes above `0x1f` other than `"`
//! and `\` pass through unchanged (multi-byte UTF-8 sequences are therefore
//! preserved), the short JSON escapes are used for the classic control
//! characters, and `\u00XX` for the rest. The parser additionally accepts
//! `\/` and any `\uXXXX` below the UTF-16 surrogate range (the code point is
//! re-encoded as UTF-8); an escaped surrogate is rejected.
use vstd::prelude::*;

use crate::bytes::{hex_digit_lower, hex_digit_lower_exec, hex_val, hex_val_exec};

verus! {

pub const QUOTE: u8 = 34;

pub const BACKSLASH: u8 = 92;

pub const LBRACE: u8 = 123;

pub const RBRACE: u8 = 125;

pub const LBRACKET: u8 = 91;

pub const RBRACKET: u8 = 93;

pub const COLON: u8 = 58;

pub const COMMA: u8 = 44;

// ------------------------------------------------------------------
// Encoding
// ------------------------------------------------------------------
/// How a single content byte is written inside a JSON string.
pub open spec fn escape_byte(b: u8) -> Seq<u8> {
    if b == QUOTE {
        seq![BACKSLASH, QUOTE]
    } else if b == BACKSLASH {
        seq![BACKSLASH, BACKSLASH]
    } else if b == 8 {
        seq![BACKSLASH, 98u8]  // \b
    } else if b == 12 {
        seq![BACKSLASH, 102u8]  // \f
    } else if b == 10 {
        seq![BACKSLASH, 110u8]  // \n
    } else if b == 13 {
        seq![BACKSLASH, 114u8]  // \r
    } else if b == 9 {
        seq![BACKSLASH, 116u8]  // \t
    } else if b < 32 {
        seq![BACKSLASH, 117u8, 48u8, 48u8, hex_digit_lower(b as int / 16), hex_digit_lower(
            b as int % 16,
        )]  // \u00XX
    } else {
        seq![b]
    }
}

/// A string's content, escaped byte by byte.
pub open spec fn escape_bytes(s: Seq<u8>) -> Seq<u8>
    decreases s.len(),
{
    if s.len() == 0 {
        Seq::empty()
    } else {
        escape_byte(s[0]) + escape_bytes(s.drop_first())
    }
}

/// A JSON string: quoted, escaped content.
pub open spec fn quoted(s: Seq<u8>) -> Seq<u8> {
    seq![QUOTE] + escape_bytes(s) + seq![QUOTE]
}

/// One `"key":"value"` member.
pub open spec fn encoded_pair(p: (Seq<u8>, Seq<u8>)) -> Seq<u8> {
    quoted(p.0) + seq![COLON] + quoted(p.1)
}

/// The members of an object, comma-separated.
pub open spec fn encoded_pairs(ps: Seq<(Seq<u8>, Seq<u8>)>) -> Seq<u8>
    decreases ps.len(),
{
    if ps.len() == 0 {
        Seq::empty()
    } else if ps.len() == 1 {
        encoded_pair(ps[0])
    } else {
        encoded_pair(ps[0]) + seq![COMMA] + encoded_pairs(ps.drop_first())
    }
}

/// A whole table document: a JSON object.
pub open spec fn encoded_table(ps: Seq<(Seq<u8>, Seq<u8>)>) -> Seq<u8> {
    seq![LBRACE] + encoded_pairs(ps) + seq![RBRACE]
}

// ------------------------------------------------------------------
// Parsing (spec)
// ------------------------------------------------------------------
/// Prepend already-read bytes to the outcome of the remaining parse.
pub open spec fn parsed_prepend(prefix: Seq<u8>, rest: Option<(Seq<u8>, int)>) -> Option<
    (Seq<u8>, int),
> {
    match rest {
        Some((t, n)) => Some((prefix + t, n)),
        None => None,
    }
}

/// UTF-8 encoding of a code point below the surrogate range or above it.
pub open spec fn utf8_enc(cp: int) -> Seq<u8> {
    if cp < 0x80 {
        seq![cp as u8]
    } else if cp < 0x800 {
        seq![(0xc0 + cp / 64) as u8, (0x80 + cp % 64) as u8]
    } else if cp < 0x10000 {
        seq![(0xe0 + cp / 4096) as u8, (0x80 + (cp / 64) % 64) as u8, (0x80 + cp % 64) as u8]
    } else {
        seq![
            (0xf0 + cp / 262144) as u8,
            (0x80 + (cp / 4096) % 64) as u8,
            (0x80 + (cp / 64) % 64) as u8,
            (0x80 + cp % 64) as u8,
        ]
    }
}

/// Value of four hexadecimal digit bytes starting at `i`.
pub open spec fn hex4_val(s: Seq<u8>, i: int) -> Option<int> {
    if 0 <= i && i + 4 <= s.len() {
        match (hex_val(s[i]), hex_val(s[i + 1]), hex_val(s[i + 2]), hex_val(s[i + 3])) {
            (Some(a), Some(b), Some(c), Some(d)) => Some(a * 4096 + b * 256 + c * 16 + d),
            _ => None,
        }
    } else {
        None
    }
}

/// Parse the content of a JSON string from position `i` (the opening quote
/// is already consumed) up to and including the closing quote. Returns the
/// decoded bytes and the position after the closing quote.
pub open spec fn parse_body_at(s: Seq<u8>, i: int) -> Option<(Seq<u8>, int)>
    decreases s.len() - i,
{
    if i < 0 || i >= s.len() {
        None
    } else if s[i] == QUOTE {
        Some((Seq::empty(), i + 1))
    } else if s[i] == BACKSLASH {
        if i + 2 > s.len() {
            None
        } else {
            let e = s[i + 1];
            if e == QUOTE || e == BACKSLASH || e == 47 {
                parsed_prepend(seq![e], parse_body_at(s, i + 2))
            } else if e == 98 {
                parsed_prepend(seq![8u8], parse_body_at(s, i + 2))
            } else if e == 102 {
                parsed_prepend(seq![12u8], parse_body_at(s, i + 2))
            } else if e == 110 {
                parsed_prepend(seq![10u8], parse_body_at(s, i + 2))
            } else if e == 114 {
                parsed_prepend(seq![13u8], parse_body_at(s, i + 2))
            } else if e == 116 {
                parsed_prepend(seq![9u8], parse_body_at(s, i + 2))
            } else if e == 117 {
                if i + 6 > s.len() {
                    None
                } else {
                    match hex4_val(s, i + 2) {
                        Some(cp) => if 0xd800 <= cp < 0xe000 {
                            None
                        } else {
                            parsed_prepend(utf8_enc(cp), parse_body_at(s, i + 6))
                        },
                        None => None,
                    }
                }
            } else {
                None
            }
        }
    } else if s[i] < 32 {
        None
    } else {
        parsed_prepend(seq![s[i]], parse_body_at(s, i + 1))
    }
}

/// Parse a JSON string starting at its opening quote.
pub open spec fn parse_string_at(s: Seq<u8>, i: int) -> Option<(Seq<u8>, int)> {
    if 0 <= i < s.len() && s[i] == QUOTE {
        parse_body_at(s, i + 1)
    } else {
        None
    }
}

pub proof fn lemma_parse_body_pos(s: Seq<u8>, i: int)
    ensures
        parse_body_at(s, i) matches Some((t, n)) ==> i < n <= s.len(),
    decreases s.len() - i,
{
    if 0 <= i < s.len() {
        if s[i] == QUOTE {
        } else if s[i] == BACKSLASH {
            if i + 2 <= s.len() {
                let e = s[i + 1];
                if e == 117 {
                    if i + 6 <= s.len() {
                        lemma_parse_body_pos(s, i + 6);
                    }
                } else {
                    lemma_parse_body_pos(s, i + 2);
                }
            }
        } else {
            lemma_parse_body_pos(s, i + 1);
        }
    }
}

pub proof fn lemma_parse_string_pos(s: Seq<u8>, i: int)
    ensures
        parse_string_at(s, i) matches Some((t, n)) ==> i + 1 < n <= s.len(),
{
    if 0 <= i < s.len() && s[i] == QUOTE {
        lemma_parse_body_pos(s, i + 1);
    }
}

/// Parse the members of an object from position `i` (just after `{`, with at
/// least one member present) up to and including the closing `}`.
pub open spec fn parse_items_at(s: Seq<u8>, i: int) -> Option<(Seq<(Seq<u8>, Seq<u8>)>, int)>
    decreases s.len() - i,
        via parse_items_at_dec
{
    match parse_string_at(s, i) {
        Some((k, j)) => if j < s.len() && s[j] == COLON {
            match parse_string_at(s, j + 1) {
                Some((v, m)) => if m < s.len() && s[m] == COMMA {
                    match parse_items_at(s, m + 1) {
                        Some((rest, n)) => Some((seq![(k, v)] + rest, n)),
                        None => None,
                    }
                } else if m < s.len() && s[m] == RBRACE {
                    Some((seq![(k, v)], m + 1))
                } else {
                    None
                },
                None => None,
            }
        } else {
            None
        },
        None => None,
    }
}

#[via_fn]
proof fn parse_items_at_dec(s: Seq<u8>, i: int) {
    lemma_parse_string_pos(s, i);
    if let Some((k, j)) = parse_string_at(s, i) {
        lemma_parse_string_pos(s, j + 1);
    }
}

/// Parse a whole table document: a JSON object covering the full input.
pub open spec fn parse_table_doc(s: Seq<u8>) -> Option<Seq<(Seq<u8>, Seq<u8>)>> {
    if s.len() >= 2 && s[0] == LBRACE {
        if s[1] == RBRACE {
            if s.len() == 2 {
                Some(Seq::empty())
            } else {
                None
            }
        } else {
            match parse_items_at(s, 1) {
                Some((ps, n)) => if n == s.len() {
                    Some(ps)
                } else {
                    None
                },
                None => None,
            }
        }
    } else {
        None
    }
}

// ------------------------------------------------------------------
// Round trip: parsing an encoded table yields the table back
// ------------------------------------------------------------------
/// When a segment of `s` equals `e`, every byte of the segment is known.
proof fn lemma_segment_index(s: Seq<u8>, i: int, e: Seq<u8>, k: int)
    requires
        0 <= i,
        i + e.len() <= s.len(),
        s.subrange(i, i + e.len() as int) == e,
        0 <= k < e.len(),
    ensures
        s[i + k] == e[k],
{
    assert(s.subrange(i, i + e.len() as int)[k] == s[i + k]);
}

/// A sub-segment of a known segment is the matching part of it.
proof fn lemma_sub_segment(s: Seq<u8>, i: int, e: Seq<u8>, a: int, b: int)
    requires
        0 <= i,
        i + e.len() <= s.len(),
        s.subrange(i, i + e.len() as int) == e,
        0 <= a <= b <= e.len(),
    ensures
        s.subrange(i + a, i + b) == e.subrange(a, b),
{
    assert forall|k: int| 0 <= k < b - a implies s.subrange(i + a, i + b)[k] == e.subrange(a, b)[k] by {
        lemma_segment_index(s, i, e, a + k);
        assert(s.subrange(i + a, i + b)[k] == s[i + a + k]);
        assert(e.subrange(a, b)[k] == e[a + k]);
    }
    assert(s.subrange(i + a, i + b) =~= e.subrange(a, b));
}

/// Reading back one escaped byte.
proof fn lemma_escape_byte_parse(s: Seq<u8>, i: int, b: u8)
    requires
        0 <= i,
        i + escape_byte(b).len() <= s.len(),
        s.subrange(i, i + escape_byte(b).len() as int) == escape_byte(b),
    ensures
        parse_body_at(s, i) == parsed_prepend(
            seq![b],
            parse_body_at(s, i + escape_byte(b).len() as int),
        ),
{
    let e = escape_byte(b);
    if b == QUOTE || b == BACKSLASH {
        lemma_segment_index(s, i, e, 0);
        lemma_segment_index(s, i, e, 1);
        assert(s[i] == BACKSLASH && s[i + 1] == b);
    } else if b == 8 || b == 12 || b == 10 || b == 13 || b == 9 {
        lemma_segment_index(s, i, e, 0);
        lemma_segment_index(s, i, e, 1);
        assert(s[i] == BACKSLASH);
    } else if b < 32 {
        lemma_segment_index(s, i, e, 0);
        lemma_segment_index(s, i, e, 1);
        lemma_segment_index(s, i, e, 2);
        lemma_segment_index(s, i, e, 3);
        lemma_segment_index(s, i, e, 4);
        lemma_segment_index(s, i, e, 5);
        assert(s[i] == BACKSLASH && s[i + 1] == 117u8);
        assert(s[i + 2] == 48u8 && s[i + 3] == 48u8);
        assert(s[i + 4] == hex_digit_lower(b as int / 16));
        assert(s[i + 5] == hex_digit_lower(b as int % 16));
        crate::bytes::lemma_hex_digit_roundtrip(b as int / 16);
        crate::bytes::lemma_hex_digit_roundtrip(b as int % 16);
        assert(hex4_val(s, i + 2) == Some(b as int)) by {
            assert(hex_val(s[i + 2]) == Some(0int));
            assert(hex_val(s[i + 3]) == Some(0int));
            assert(hex_val(s[i + 4]) == Some(b as int / 16));
            assert(hex_val(s[i + 5]) == Some(b as int % 16));
            assert(0 * 4096 + 0 * 256 + (b as int / 16) * 16 + b as int % 16 == b as int);
        }
        assert(utf8_enc(b as int) == seq![b]);
    } else {
        lemma_segment_index(s, i, e, 0);
        assert(s[i] == b);
        assert(s[i] != QUOTE && s[i] != BACKSLASH && !(s[i] < 32));
    }
}

/// Reading back a whole escaped string body followed by its closing quote.
proof fn lemma_escape_bytes_parse(s: Seq<u8>, i: int, content: Seq<u8>)
    requires
        0 <= i,
        i + escape_bytes(content).len() + 1 <= s.len(),
        s.subrange(i, i + escape_bytes(content).len() as int) == escape_bytes(content),
        s[i + escape_bytes(content).len() as int] == QUOTE,
    ensures
        parse_body_at(s, i) == Some((content, i + escape_bytes(content).len() + 1)),
    decreases content.len(),
{
    let total = escape_bytes(content);
    if content.len() == 0 {
        assert(s[i] == QUOTE);
    } else {
        let b = content[0];
        let e = escape_byte(b);
        let rest = escape_bytes(content.drop_first());
        assert(total == e + rest);
        assert(total.subrange(0, e.len() as int) =~= e);
        assert(total.subrange(e.len() as int, total.len() as int) =~= rest);
        lemma_sub_segment(s, i, total, 0, e.len() as int);
        assert(s.subrange(i, i + e.len() as int) == e);
        lemma_escape_byte_parse(s, i, b);
        let j = i + e.len();
        lemma_sub_segment(s, i, total, e.len() as int, total.len() as int);
        assert(s.subrange(j, j + rest.len() as int) == rest);
        assert(j + rest.len() == i + total.len());
        lemma_escape_bytes_parse(s, j, content.drop_first());
        assert(seq![b] + content.drop_first() =~= content);
    }
}

/// Reading back a whole quoted string.
proof fn lemma_quoted_parse(s: Seq<u8>, i: int, content: Seq<u8>)
    requires
        0 <= i,
        i + quoted(content).len() <= s.len(),
        s.subrange(i, i + quoted(content).len() as int) == quoted(content),
    ensures
        parse_string_at(s, i) == Some((content, i + quoted(content).len())),
{
    let q = quoted(content);
    let body = escape_bytes(content);
    assert(q.len() == body.len() + 2);
    lemma_segment_index(s, i, q, 0);
    assert(s[i] == QUOTE);
    assert(q.subrange(1, 1 + body.len() as int) =~= body);
    lemma_sub_segment(s, i, q, 1, 1 + body.len() as int);
    assert(s.subrange(i + 1, i + 1 + body.len() as int) == body);
    lemma_segment_index(s, i, q, 1 + body.len() as int);
    assert(q[1 + body.len() as int] == QUOTE);
    assert(s[i + 1 + body.len() as int] == QUOTE);
    lemma_escape_bytes_parse(s, i + 1, content);
}

/// Reading back the members of an encoded object; in `s` the members are
/// followed directly by the closing brace.
proof fn lemma_encoded_pairs_parse(s: Seq<u8>, i: int, ps: Seq<(Seq<u8>, Seq<u8>)>)
    requires
        0 <= i,
        ps.len() > 0,
        i + encoded_pairs(ps).len() + 1 <= s.len(),
        s.subrange(i, i + encoded_pairs(ps).len() as int) == encoded_pairs(ps),
        s[i + encoded_pairs(ps).len() as int] == RBRACE,
    ensures
        parse_items_at(s, i) == Some((ps, i + encoded_pairs(ps).len() + 1)),
    decreases ps.len(),
{
    let total = encoded_pairs(ps);
    let k = ps[0].0;
    let v = ps[0].1;
    let qk = quoted(k);
    let qv = quoted(v);
    let head = encoded_pair(ps[0]);
    assert(head == qk + seq![COLON] + qv);
    assert(head.len() == qk.len() + 1 + qv.len());
    if ps.len() == 1 {
        assert(total == head);
        assert(total.subrange(0, qk.len() as int) =~= qk);
        lemma_sub_segment(s, i, total, 0, qk.len() as int);
        lemma_quoted_parse(s, i, k);
        let j = i + qk.len();
        lemma_segment_index(s, i, total, qk.len() as int);
        assert(total[qk.len() as int] == COLON);
        assert(s[j] == COLON);
        assert(total.subrange(qk.len() as int + 1, total.len() as int) =~= qv);
        lemma_sub_segment(s, i, total, qk.len() as int + 1, total.len() as int);
        assert(s.subrange(j + 1, j + 1 + qv.len() as int) == qv);
        lemma_quoted_parse(s, j + 1, v);
        let m = j + 1 + qv.len();
        assert(m == i + total.len());
        assert(s[m] == RBRACE);
        assert(seq![(k, v)] =~= ps);
    } else {
        let rest = encoded_pairs(ps.drop_first());
        assert(total == head + seq![COMMA] + rest);
        assert(total.len() == head.len() + 1 + rest.len());
        assert(total.subrange(0, qk.len() as int) =~= qk);
        lemma_sub_segment(s, i, total, 0, qk.len() as int);
        lemma_quoted_parse(s, i, k);
        let j = i + qk.len();
        lemma_segment_index(s, i, total, qk.len() as int);
        assert(total[qk.len() as int] == COLON);
        assert(s[j] == COLON);
        assert(total.subrange(qk.len() as int + 1, head.len() as int) =~= qv);
        lemma_sub_segment(s, i, total, qk.len() as int + 1, head.len() as int);
        assert(s.subrange(j + 1, j + 1 + qv.len() as int) == qv);
        lemma_quoted_parse(s, j + 1, v);
        let m = j + 1 + qv.len();
        assert(m == i + head.len());
        lemma_segment_index(s, i, total, head.len() as int);
        assert(total[head.len() as int] == COMMA);
        assert(s[m] == COMMA);
        assert(total.subrange(head.len() as int + 1, total.len() as int) =~= rest);
        lemma_sub_segment(s, i, total, head.len() as int + 1, total.len() as int);
        assert(s.subrange(m + 1, m + 1 + rest.len() as int) == rest);
        assert(m + 1 + rest.len() == i + total.len());
        lemma_encoded_pairs_parse(s, m + 1, ps.drop_first());
        assert(seq![(k, v)] + ps.drop_first() =~= ps);
    }
}

/// Snapshot round trip: parsing an encoded table returns exactly the encoded
/// pair sequence, and hence a table with the same key/value map.
pub proof fn lemma_table_round_trip(ps: Seq<(Seq<u8>, Seq<u8>)>)
    ensures
        parse_table_doc(encoded_table(ps)) == Some(ps),
{
    let s = encoded_table(ps);
    let inner = encoded_pairs(ps);
    assert(s.len() == inner.len() + 2);
    assert(s[0] == LBRACE);
    if ps.len() == 0 {
        assert(inner =~= Seq::<u8>::empty());
        assert(s.len() == 2 && s[1] == RBRACE);
        assert(ps =~= Seq::<(Seq<u8>, Seq<u8>)>::empty());
    } else {
        assert(inner[0] == QUOTE) by {
            let qk = quoted(ps[0].0);
            assert(qk[0] == QUOTE);
            if ps.len() == 1 {
                assert(inner == qk + seq![COLON] + quoted(ps[0].1));
            } else {
                assert(inner == encoded_pair(ps[0]) + seq![COMMA] + encoded_pairs(
                    ps.drop_first(),
                ));
                assert(encoded_pair(ps[0])[0] == qk[0]);
            }
        }
        assert(s[1] == inner[0]);
        assert(s[1] != RBRACE);
        assert(s.subrange(1, 1 + inner.len() as int) =~= inner);
        assert(s[1 + inner.len() as int] == RBRACE);
        lemma_encoded_pairs_parse(s, 1, ps);
        assert(parse_items_at(s, 1) == Some((ps, s.len() as int)));
    }
}

// ------------------------------------------------------------------
// Encoder (exec)
// ------------------------------------------------------------------
/// Escaping one more byte extends the escaped body at its end.
proof fn lemma_escape_bytes_push(t: Seq<u8>, c: u8)
    ensures
        escape_bytes(t.push(c)) == escape_bytes(t) + escape_byte(c),
    decreases t.len(),
{
    if t.len() == 0 {
        assert(t.push(c)[0] == c);
        assert(t.push(c).drop_first() =~= Seq::<u8>::empty());
        assert(escape_bytes(t.push(c)) == escape_byte(c) + escape_bytes(Seq::<u8>::empty()));
        assert(escape_bytes(Seq::<u8>::empty()) =~= Seq::<u8>::empty());
        assert(escape_byte(c) + Seq::<u8>::empty() =~= escape_byte(c));
        assert(escape_bytes(t) + escape_byte(c) =~= escape_byte(c));
    } else {
        assert(t.push(c)[0] == t[0]);
        assert(t.push(c).drop_first() =~= t.drop_first().push(c));
        lemma_escape_bytes_push(t.drop_first(), c);
        assert(escape_bytes(t.push(c)) == escape_byte(t[0]) + escape_bytes(t.drop_first().push(c)));
        assert(escape_bytes(t) == escape_byte(t[0]) + escape_bytes(t.drop_first()));
        assert(escape_byte(t[0]) + (escape_bytes(t.drop_first()) + escape_byte(c)) =~= (escape_byte(
            t[0],
        ) + escape_bytes(t.drop_first())) + escape_byte(c));
    }
    assert(escape_bytes(t.push(c)) =~= escape_bytes(t) + escape_byte(c));
}

/// Encoding one more member extends the member list after a comma.
proof fn lemma_encoded_pairs_push(t: Seq<(Seq<u8>, Seq<u8>)>, p: (Seq<u8>, Seq<u8>))
    requires
        t.len() >= 1,
    ensures
        encoded_pairs(t.push(p)) == encoded_pairs(t) + seq![COMMA] + encoded_pair(p),
    decreases t.len(),
{
    if t.len() == 1 {
        assert(t.push(p)[0] == t[0]);
        assert(t.push(p).drop_first() =~= seq![p]);
        assert(seq![p][0] == p);
        assert(encoded_pairs(seq![p]) == encoded_pair(p));
    } else {
        assert(t.push(p)[0] == t[0]);
        assert(t.push(p).drop_first() =~= t.drop_first().push(p));
        lemma_encoded_pairs_push(t.drop_first(), p);
        assert(encoded_pair(t[0]) + seq![COMMA] + (encoded_pairs(t.drop_first()) + seq![COMMA]
            + encoded_pair(p)) =~= (encoded_pair(t[0]) + seq![COMMA] + encoded_pairs(
            t.drop_first(),
        )) + seq![COMMA] + encoded_pair(p));
    }
}

/// Append the escaped form of one byte.
fn escape_byte_into(out: &mut Vec<u8>, b: u8)
    ensures
        final(out)@ == old(out)@ + escape_byte(b),
{
    if b == QUOTE {
        out.push(BACKSLASH);
        out.push(QUOTE);
        assert(out@ =~= old(out)@ + escape_byte(b));
    } else if b == BACKSLASH {
        out.push(BACKSLASH);
        out.push(BACKSLASH);
        assert(out@ =~= old(out)@ + escape_byte(b));
    } else if b == 8 {
        out.push(BACKSLASH);
        out.push(98);
        assert(out@ =~= old(out)@ + escape_byte(b));
    } else if b == 12 {
        out.push(BACKSLASH);
        out.push(102);
        assert(out@ =~= old(out)@ + escape_byte(b));
    } else if b == 10 {
        out.push(BACKSLASH);
        out.push(110);
        assert(out@ =~= old(out)@ + escape_byte(b));
    } else if b == 13 {
        out.push(BACKSLASH);
        out.push(114);
        assert(out@ =~= old(out)@ + escape_byte(b));
    } else if b == 9 {
        out.push(BACKSLASH);
        out.push(116);
        assert(out@ =~= old(out)@ + escape_byte(b));
    } else if b < 32 {
        out.push(BACKSLASH);
        out.push(117);
        out.push(48);
        out.push(48);
        out.push(hex_digit_lower_exec(b / 16));
        out.push(hex_digit_lower_exec(b % 16));
        assert(out@ =~= old(out)@ + escape_byte(b));
    } else {
        out.push(b);
        assert(out@ =~= old(out)@ + escape_byte(b));
    }
}

/// Append a whole JSON string.
fn quoted_into(out: &mut Vec<u8>, s: &Vec<u8>)
    ensures
        final(out)@ == old(out)@ + quoted(s@),
{
    out.push(QUOTE);
    let n = s.len();
    let mut i: usize = 0;
    proof {
        assert(s@.take(0) =~= Seq::<u8>::empty());
    }
    while i < n
        invariant
            n == s.len(),
            i <= n,
            out@ == old(out)@ + seq![QUOTE] + escape_bytes(s@.take(i as int)),
        decreases n - i,
    {
        escape_byte_into(out, s[i]);
        proof {
            assert(s@.take(i as int).push(s@[i as int]) =~= s@.take(i + 1));
            lemma_escape_bytes_push(s@.take(i as int), s@[i as int]);
            assert(out@ =~= old(out)@ + seq![QUOTE] + escape_bytes(s@.take(i + 1)));
        }
        i += 1;
    }
    proof {
        assert(s@.take(n as int) =~= s@);
    }
    out.push(QUOTE);
    proof {
        assert(out@ =~= old(out)@ + quoted(s@));
    }
}

/// Encode a table as a JSON object, in entry order.
pub fn encode_table(t: &crate::bytemap::ByteMap) -> (r: Vec<u8>)
    ensures
        r@ == encoded_table(t.entries()),
{
    let mut out: Vec<u8> = Vec::new();
    out.push(LBRACE);
    let n = t.len();
    let mut i: usize = 0;
    while i < n
        invariant
            n == t.entries().len(),
            i <= n,
            i == 0 ==> out@ == seq![LBRACE],
            i > 0 ==> out@ == seq![LBRACE] + encoded_pairs(t.entries().take(i as int)),
        decreases n - i,
    {
        let ghost e = t.entries();
        let ghost was_first = i == 0;
        if i > 0 {
            out.push(COMMA);
        }
        quoted_into(&mut out, t.key_at(i));
        out.push(COLON);
        quoted_into(&mut out, t.val_at(i));
        proof {
            if was_first {
                assert(e.take(1).len() == 1);
                assert(e.take(1)[0] == e[0]);
                assert(encoded_pairs(e.take(1)) == encoded_pair(e[0]));
                assert(out@ =~= seq![LBRACE] + encoded_pairs(e.take(1)));
            } else {
                assert(e.take(i as int).push(e[i as int]) =~= e.take(i + 1));
                lemma_encoded_pairs_push(e.take(i as int), e[i as int]);
                assert(out@ =~= seq![LBRACE] + encoded_pairs(e.take(i + 1)));
            }
        }
        i += 1;
    }
    proof {
        assert(t.entries().take(n as int) =~= t.entries());
    }
    out.push(RBRACE);
    proof {
        if n == 0 {
            assert(encoded_pairs(t.entries()) == Seq::<u8>::empty());
        }
        assert(out@ =~= encoded_table(t.entries()));
    }
    out
}

// ------------------------------------------------------------------
// Parser (exec)
// ------------------------------------------------------------------
/// Prepending in two steps is prepending the concatenation.
proof fn lemma_prepend_chain(a: Seq<u8>, b: Seq<u8>, r: Option<(Seq<u8>, int)>)
    ensures
        parsed_prepend(a, parsed_prepend(b, r)) == parsed_prepend(a + b, r),
{
    match r {
        Some((t, n)) => {
            assert(a + (b + t) =~= (a + b) + t);
        },
        None => {},
    }
}

/// Append the UTF-8 encoding of a code point outside the surrogate range.
fn push_utf8(out: &mut Vec<u8>, cp: u32)
    requires
        cp < 0x110000,
    ensures
        final(out)@ == old(out)@ + utf8_enc(cp as int),
{
    if cp < 0x80 {
        out.push(cp as u8);
        assert(out@ =~= old(out)@ + utf8_enc(cp as int));
    } else if cp < 0x800 {
        assert(cp / 64 < 32 && cp % 64 < 64) by (nonlinear_arith)
            requires
                cp < 0x800,
        ;
        out.push((0xc0 + cp / 64) as u8);
        out.push((0x80 + cp % 64) as u8);
        assert(out@ =~= old(out)@ + utf8_enc(cp as int));
    } else if cp < 0x10000 {
        assert(cp / 4096 < 16 && (cp / 64) % 64 < 64 && cp % 64 < 64) by (nonlinear_arith)
            requires
                cp < 0x10000,
        ;
        out.push((0xe0 + cp / 4096) as u8);
        out.push((0x80 + (cp / 64) % 64) as u8);
        out.push((0x80 + cp % 64) as u8);
        assert(out@ =~= old(out)@ + utf8_enc(cp as int));
    } else {
        assert(cp / 262144 < 8 && (cp / 4096) % 64 < 64 && (cp / 64) % 64 < 64 && cp % 64 < 64)
            by (nonlinear_arith)
            requires
                cp < 0x110000,
        ;
        out.push((0xf0 + cp / 262144) as u8);
        out.push((0x80 + (cp / 4096) % 64) as u8);
        out.push((0x80 + (cp / 64) % 64) as u8);
        out.push((0x80 + cp % 64) as u8);
        assert(out@ =~= old(out)@ + utf8_enc(cp as int));
    }
}

/// Read a JSON string starting at its opening quote; returns the decoded
/// content and the position after the closing quote.
pub fn read_string_at(s: &Vec<u8>, start: usize) -> (r: Option<(Vec<u8>, usize)>)
    ensures
        match r {
            Some(p) => parse_string_at(s@, start as int) == Some((p.0@, p.1 as int)) && start < p.1
                <= s.len(),
            None => parse_string_at(s@, start as int) is None,
        },
{
    if !(start < s.len() && s[start] == QUOTE) {
        return None;
    }
    let mut content: Vec<u8> = Vec::new();
    let mut i: usize = start + 1;
    proof {
        assert(parsed_prepend(Seq::<u8>::empty(), parse_body_at(s@, start + 1)) == parse_body_at(
            s@,
            start + 1,
        )) by {
            match parse_body_at(s@, start + 1) {
                Some((t, n)) => {
                    assert(Seq::<u8>::empty() + t =~= t);
                },
                None => {},
            }
        }
    }
    loop
        invariant
            start + 1 <= i <= s.len(),
            start < s.len() && s@[start as int] == QUOTE,
            parse_body_at(s@, start as int + 1) == parsed_prepend(
                content@,
                parse_body_at(s@, i as int),
            ),
        decreases s.len() - i,
    {
        if i >= s.len() {
            return None;
        }
        let b = s[i];
        if b == QUOTE {
            proof {
                assert(content@ + Seq::<u8>::empty() =~= content@);
            }
            return Some((content, i + 1));
        } else if b == BACKSLASH {
            if i + 1 >= s.len() {
                return None;
            }
            let e = s[i + 1];
            let ghost at = i as int;
            if e == QUOTE || e == BACKSLASH || e == 47 {
                content.push(e);
                proof {
                    lemma_prepend_chain(content@.drop_last(), seq![e], parse_body_at(s@, at + 2));
                    assert(content@.drop_last() + seq![e] =~= content@);
                }
                i = i + 2;
            } else if e == 98 {
                content.push(8);
                proof {
                    lemma_prepend_chain(content@.drop_last(), seq![8u8], parse_body_at(s@, at + 2));
                    assert(content@.drop_last() + seq![8u8] =~= content@);
                }
                i = i + 2;
            } else if e == 102 {
                content.push(12);
                proof {
                    lemma_prepend_chain(
                        content@.drop_last(),
                        seq![12u8],
                        parse_body_at(s@, at + 2),
                    );
                    assert(content@.drop_last() + seq![12u8] =~= content@);
                }
                i = i + 2;
            } else if e == 110 {
                content.push(10);
                proof {
                    lemma_prepend_chain(
                        content@.drop_last(),
                        seq![10u8],
                        parse_body_at(s@, at + 2),
                    );
                    assert(content@.drop_last() + seq![10u8] =~= content@);
                }
                i = i + 2;
            } else if e == 114 {
                content.push(13);
                proof {
                    lemma_prepend_chain(
                        content@.drop_last(),
                        seq![13u8],
                        parse_body_at(s@, at + 2),
                    );
                    assert(content@.drop_last() + seq![13u8] =~= content@);
                }
                i = i + 2;
            } else if e == 116 {
                content.push(9);
                proof {
                    lemma_prepend_chain(content@.drop_last(), seq![9u8], parse_body_at(s@, at + 2));
                    assert(content@.drop_last() + seq![9u8] =~= content@);
                }
                i = i + 2;
            } else if e == 117 {
                if s.len() - i < 6 {
                    return None;
                }
                let d0 = hex_val_exec(s[i + 2]);
                let d1 = hex_val_exec(s[i + 3]);
                let d2 = hex_val_exec(s[i + 4]);
                let d3 = hex_val_exec(s[i + 5]);
                let (a0, a1, a2, a3) = match (d0, d1, d2, d3) {
                    (Some(a0), Some(a1), Some(a2), Some(a3)) => (a0, a1, a2, a3),
                    _ => {
                        assert(hex4_val(s@, at + 2) is None);
                        return None;
                    },
                };
                let cp: u32 = (a0 as u32) * 4096 + (a1 as u32) * 256 + (a2 as u32) * 16 + (
                a3 as u32);
                assert(hex4_val(s@, at + 2) == Some(cp as int));
                if 0xd800 <= cp && cp < 0xe000 {
                    return None;
                }
                let ghost before = content@;
                push_utf8(&mut content, cp);
                proof {
                    lemma_prepend_chain(before, utf8_enc(cp as int), parse_body_at(s@, at + 6));
                }
                i = i + 6;
            } else {
                return None;
            }
        } else if b < 32 {
            return None;
        } else {
            content.push(b);
            proof {
                lemma_prepend_chain(
                    content@.drop_last(),
                    seq![b],
                    parse_body_at(s@, i as int + 1),
                );
                assert(content@.drop_last() + seq![b] =~= content@);
            }
            i = i + 1;
        }
    }
}

/// Prepend already-read members to the outcome of the remaining member
/// parse.
pub open spec fn items_prepend(
    prefix: Seq<(Seq<u8>, Seq<u8>)>,
    rest: Option<(Seq<(Seq<u8>, Seq<u8>)>, int)>,
) -> Option<(Seq<(Seq<u8>, Seq<u8>)>, int)> {
    match rest {
        Some((t, n)) => Some((prefix + t, n)),
        None => None,
    }
}

proof fn lemma_items_prepend_chain(
    a: Seq<(Seq<u8>, Seq<u8>)>,
    b: Seq<(Seq<u8>, Seq<u8>)>,
    r: Option<(Seq<(Seq<u8>, Seq<u8>)>, int)>,
)
    ensures
        items_prepend(a, items_prepend(b, r)) == items_prepend(a + b, r),
{
    match r {
        Some((t, n)) => {
            assert(a + (b + t) =~= (a + b) + t);
        },
        None => {},
    }
}

/// Read a whole table document. Accepts exactly the output of
/// [`encode_table`]'s grammar and nothing else; trailing bytes are an error.
pub fn read_table(s: &Vec<u8>) -> (r: Option<Vec<(Vec<u8>, Vec<u8>)>>)
    ensures
        match r {
            Some(ps) => parse_table_doc(s@) == Some(ps.deep_view()),
            None => parse_table_doc(s@) is None,
        },
{
    if s.len() < 2 || s[0] != LBRACE {
        return None;
    }
    if s[1] == RBRACE {
        if s.len() == 2 {
            let empty: Vec<(Vec<u8>, Vec<u8>)> = Vec::new();
            assert(empty.deep_view() =~~= Seq::<(Seq<u8>, Seq<u8>)>::empty());
            return Some(empty);
        } else {
            return None;
        }
    }
    let mut acc: Vec<(Vec<u8>, Vec<u8>)> = Vec::new();
    let mut i: usize = 1;
    proof {
        assert(items_prepend(Seq::<(Seq<u8>, Seq<u8>)>::empty(), parse_items_at(s@, 1))
            == parse_items_at(s@, 1)) by {
            match parse_items_at(s@, 1) {
                Some((t, n)) => {
                    assert(Seq::<(Seq<u8>, Seq<u8>)>::empty() + t =~= t);
                },
                None => {},
            }
        }
    }
    loop
        invariant
            1 <= i <= s.len(),
            s.len() >= 2 && s@[0] == LBRACE && s@[1] != RBRACE,
            parse_items_at(s@, 1) == items_prepend(acc.deep_view(), parse_items_at(s@, i as int)),
        decreases s.len() - i,
    {
        let ghost at = i as int;
        let ghost acc_before = acc.deep_view();
        let (k, j) = match read_string_at(s, i) {
            Some(p) => p,
            None => {
                return None;
            },
        };
        if j >= s.len() || s[j] != COLON {
            return None;
        }
        let (v, m) = match read_string_at(s, j + 1) {
            Some(p) => p,
            None => {
                return None;
            },
        };
        let ghost kv = (k@, v@);
        acc.push((k, v));
        proof {
            assert(acc.deep_view() =~~= acc_before.push(kv));
            assert(acc_before + seq![kv] =~= acc.deep_view());
        }
        if m < s.len() && s[m] == COMMA {
            proof {
                assert(parse_items_at(s@, at) == items_prepend(
                    seq![kv],
                    parse_items_at(s@, m + 1),
                ));
                lemma_items_prepend_chain(acc_before, seq![kv], parse_items_at(s@, m + 1));
            }
            i = m + 1;
        } else if m < s.len() && s[m] == RBRACE {
            proof {
                assert(parse_items_at(s@, at) == Some((seq![kv], m + 1)));
                assert(parse_items_at(s@, 1) == Some((acc.deep_view(), m + 1)));
            }
            if m + 1 == s.len() {
                return Some(acc);
            } else {
                return None;
            }
        } else {
            return None;
        }
    }
}
// ------------------------------------------------------------------
// Admin uploads: a JSON array of route objects
// ------------------------------------------------------------------
/// JSON insignificant whitespace.
pub open spec fn is_ws(b: u8) -> bool {
    b == 32 || b == 9 || b == 10 || b == 13
}

/// First position at or after `i` holding no whitespace.
pub open spec fn skip_ws(s: Seq<u8>, i: int) -> int
    decreases s.len() - i,
{
    if 0 <= i < s.len() && is_ws(s[i]) {
        skip_ws(s, i + 1)
    } else {
        i
    }
}

pub proof fn lemma_skip_ws(s: Seq<u8>, i: int)
    requires
        0 <= i <= s.len(),
    ensures
        i <= skip_ws(s, i) <= s.len(),
        skip_ws(s, i) == s.len() || !is_ws(s[skip_ws(s, i)]),
    decreases s.len() - i,
{
    if i < s.len() && is_ws(s[i]) {
        lemma_skip_ws(s, i + 1);
    }
}

/// The field name `id`.
pub open spec fn id_key() -> Seq<u8> {
    seq![105u8, 100u8]
}

/// The field name `url`.
pub open spec fn url_key() -> Seq<u8> {
    seq![117u8, 114u8, 108u8]
}

/// Sort the two members of a route object into `(id, url)` order; an object
/// must hold exactly the two fields `id` and `url`, in either order.
pub open spec fn route_fields(
    k1: Seq<u8>,
    v1: Seq<u8>,
    k2: Seq<u8>,
    v2: Seq<u8>,
    n: int,
) -> Option<((Seq<u8>, Seq<u8>), int)> {
    if k1 == id_key() && k2 == url_key() {
        Some(((v1, v2), n))
    } else if k1 == url_key() && k2 == id_key() {
        Some(((v2, v1), n))
    } else {
        None
    }
}

/// Parse one route object starting at its `{`; returns `(id, url)` and the
/// position after the closing `}`.
pub open spec fn parse_route_at(s: Seq<u8>, i: int) -> Option<((Seq<u8>, Seq<u8>), int)> {
    if 0 <= i < s.len() && s[i] == LBRACE {
        let j0 = skip_ws(s, i + 1);
        match parse_string_at(s, j0) {
            Some((k1, j1)) => {
                let j2 = skip_ws(s, j1);
                if j2 < s.len() && s[j2] == COLON {
                    let j3 = skip_ws(s, j2 + 1);
                    match parse_string_at(s, j3) {
                        Some((v1, j4)) => {
                            let j5 = skip_ws(s, j4);
                            if j5 < s.len() && s[j5] == COMMA {
                                let j6 = skip_ws(s, j5 + 1);
                                match parse_string_at(s, j6) {
                                    Some((k2, j7)) => {
                                        let j8 = skip_ws(s, j7);
                                        if j8 < s.len() && s[j8] == COLON {
                                            let j9 = skip_ws(s, j8 + 1);
                                            match parse_string_at(s, j9) {
                                                Some((v2, j10)) => {
                                                    let j11 = skip_ws(s, j10);
                                                    if j11 < s.len() && s[j11] == RBRACE {
                                                        route_fields(k1, v1, k2, v2, j11 + 1)
                                                    } else {
                                                        None
                                                    }
                                                },
                                                None => None,
                                            }
                                        } else {
                                            None
                                        }
                                    },
                                    None => None,
                                }
                            } else {
                                None
                            }
                        },
                        None => None,
                    }
                } else {
                    None
                }
            },
            None => None,
        }
    } else {
        None
    }
}

pub proof fn lemma_parse_route_pos(s: Seq<u8>, i: int)
    ensures
        parse_route_at(s, i) matches Some((p, n)) ==> i < n <= s.len(),
{
    if 0 <= i < s.len() && s[i] == LBRACE {
        lemma_skip_ws(s, i + 1);
        let j0 = skip_ws(s, i + 1);
        lemma_parse_string_pos(s, j0);
        if let Some((k1, j1)) = parse_string_at(s, j0) {
            lemma_skip_ws(s, j1);
            let j2 = skip_ws(s, j1);
            if j2 < s.len() && s[j2] == COLON {
                lemma_skip_ws(s, j2 + 1);
                let j3 = skip_ws(s, j2 + 1);
                lemma_parse_string_pos(s, j3);
                if let Some((v1, j4)) = parse_string_at(s, j3) {
                    lemma_skip_ws(s, j4);
                    let j5 = skip_ws(s, j4);
                    if j5 < s.len() && s[j5] == COMMA {
                        lemma_skip_ws(s, j5 + 1);
                        let j6 = skip_ws(s, j5 + 1);
                        lemma_parse_string_pos(s, j6);
                        if let Some((k2, j7)) = parse_string_at(s, j6) {
                            lemma_skip_ws(s, j7);
                            let j8 = skip_ws(s, j7);
                            if j8 < s.len() && s[j8] == COLON {
                                lemma_skip_ws(s, j8 + 1);
                                let j9 = skip_ws(s, j8 + 1);
                                lemma_parse_string_pos(s, j9);
                                if let Some((v2, j10)) = parse_string_at(s, j9) {
                                    lemma_skip_ws(s, j10);
                                }
                            }
                        }
                    }
                }
            }
        }
    }
}

/// Parse the objects of a non-empty route array from the position of the
/// first object, up to and including the closing `]`.
pub open spec fn parse_routes_rest(s: Seq<u8>, i: int) -> Option<(Seq<(Seq<u8>, Seq<u8>)>, int)>
    decreases s.len() - i,
        via parse_routes_rest_dec
{
    match parse_route_at(s, i) {
        Some((r0, j)) => {
            let j1 = skip_ws(s, j);
            if j1 < s.len() && s[j1] == COMMA {
                let j2 = skip_ws(s, j1 + 1);
                match parse_routes_rest(s, j2) {
                    Some((rest, n)) => Some((seq![r0] + rest, n)),
                    None => None,
                }
            } else if j1 < s.len() && s[j1] == RBRACKET {
                Some((seq![r0], j1 + 1))
            } else {
                None
            }
        },
        None => None,
    }
}

#[via_fn]
proof fn parse_routes_rest_dec(s: Seq<u8>, i: int) {
    lemma_parse_route_pos(s, i);
    if let Some((r0, j)) = parse_route_at(s, i) {
        lemma_skip_ws(s, j);
        let j1 = skip_ws(s, j);
        if j1 < s.len() && s[j1] == COMMA {
            lemma_skip_ws(s, j1 + 1);
        }
    }
}

/// Parse a whole upload document: a JSON array of route objects covering
/// the full input up to trailing whitespace.
pub open spec fn parse_routes_doc(s: Seq<u8>) -> Option<Seq<(Seq<u8>, Seq<u8>)>> {
    let i = skip_ws(s, 0);
    if i < s.len() && s[i] == LBRACKET {
        let j = skip_ws(s, i + 1);
        if j < s.len() && s[j] == RBRACKET {
            if skip_ws(s, j + 1) == s.len() {
                Some(Seq::empty())
            } else {
                None
            }
        } else {
            match parse_routes_rest(s, j) {
                Some((rs, n)) => if skip_ws(s, n) == s.len() {
                    Some(rs)
                } else {
                    None
                },
                None => None,
            }
        }
    } else {
        None
    }
}

/// Exec counterpart of [`skip_ws`].
fn skip_ws_exec(s: &Vec<u8>, i: usize) -> (r: usize)
    requires
        i <= s.len(),
    ensures
        r == skip_ws(s@, i as int),
        i <= r <= s.len(),
{
    let mut cur = i;
    loop
        invariant
            i <= cur <= s.len(),
            skip_ws(s@, i as int) == skip_ws(s@, cur as int),
        decreases s.len() - cur,
    {
        if cur < s.len() && (s[cur] == 32 || s[cur] == 9 || s[cur] == 10 || s[cur] == 13) {
            cur += 1;
        } else {
            proof {
                lemma_skip_ws(s@, cur as int);
            }
            return cur;
        }
    }
}

/// Whether a key equals the field name `id`.
fn is_id_key(k: &Vec<u8>) -> (r: bool)
    ensures
        r <==> k@ == id_key(),
{
    if k.len() == 2 && k[0] == 105 && k[1] == 100 {
        assert(k@ =~= id_key());
        true
    } else {
        false
    }
}

/// Whether a key equals the field name `url`.
fn is_url_key(k: &Vec<u8>) -> (r: bool)
    ensures
        r <==> k@ == url_key(),
{
    if k.len() == 3 && k[0] == 117 && k[1] == 114 && k[2] == 108 {
        assert(k@ =~= url_key());
        true
    } else {
        false
    }
}

/// Read one route object; returns `(id, url)` and the position after `}`.
fn read_route_at(s: &Vec<u8>, i: usize) -> (r: Option<((Vec<u8>, Vec<u8>), usize)>)
    ensures
        match r {
            Some(p) => parse_route_at(s@, i as int) == Some(((p.0.0@, p.0.1@), p.1 as int)) && i
                < p.1 <= s.len(),
            None => parse_route_at(s@, i as int) is None,
        },
{
    proof {
        lemma_parse_route_pos(s@, i as int);
    }
    if !(i < s.len() && s[i] == LBRACE) {
        return None;
    }
    let j0 = skip_ws_exec(s, i + 1);
    let (k1, j1) = match read_string_at(s, j0) {
        Some(p) => p,
        None => {
            return None;
        },
    };
    let j2 = skip_ws_exec(s, j1);
    if !(j2 < s.len() && s[j2] == COLON) {
        return None;
    }
    let j3 = skip_ws_exec(s, j2 + 1);
    let (v1, j4) = match read_string_at(s, j3) {
        Some(p) => p,
        None => {
            return None;
        },
    };
    let j5 = skip_ws_exec(s, j4);
    if !(j5 < s.len() && s[j5] == COMMA) {
        return None;
    }
    let j6 = skip_ws_exec(s, j5 + 1);
    let (k2, j7) = match read_string_at(s, j6) {
        Some(p) => p,
        None => {
            return None;
        },
    };
    let j8 = skip_ws_exec(s, j7);
    if !(j8 < s.len() && s[j8] == COLON) {
        return None;
    }
    let j9 = skip_ws_exec(s, j8 + 1);
    let (v2, j10) = match read_string_at(s, j9) {
        Some(p) => p,
        None => {
            return None;
        },
    };
    let j11 = skip_ws_exec(s, j10);
    if !(j11 < s.len() && s[j11] == RBRACE) {
        return None;
    }
    if is_id_key(&k1) && is_url_key(&k2) {
        Some(((v1, v2), j11 + 1))
    } else if is_url_key(&k1) && is_id_key(&k2) {
        Some(((v2, v1), j11 + 1))
    } else {
        None
    }
}

/// Read a whole upload document: a JSON array of `{"id": ..., "url": ...}`
/// objects, with arbitrary whitespace between tokens.
pub fn read_routes(s: &Vec<u8>) -> (r: Option<Vec<(Vec<u8>, Vec<u8>)>>)
    ensures
        match r {
            Some(ps) => parse_routes_doc(s@) == Some(ps.deep_view()),
            None => parse_routes_doc(s@) is None,
        },
{
    let i = skip_ws_exec(s, 0);
    if !(i < s.len() && s[i] == LBRACKET) {
        return None;
    }
    let j = skip_ws_exec(s, i + 1);
    if j < s.len() && s[j] == RBRACKET {
        let t = skip_ws_exec(s, j + 1);
        if t == s.len() {
            let empty: Vec<(Vec<u8>, Vec<u8>)> = Vec::new();
            assert(empty.deep_view() =~~= Seq::<(Seq<u8>, Seq<u8>)>::empty());
            return Some(empty);
        } else {
            return None;
        }
    }
    let mut acc: Vec<(Vec<u8>, Vec<u8>)> = Vec::new();
    let mut cur: usize = j;
    proof {
        assert(items_prepend(Seq::<(Seq<u8>, Seq<u8>)>::empty(), parse_routes_rest(s@, j as int))
            == parse_routes_rest(s@, j as int)) by {
            match parse_routes_rest(s@, j as int) {
                Some((t, n)) => {
                    assert(Seq::<(Seq<u8>, Seq<u8>)>::empty() + t =~= t);
                },
                None => {},
            }
        }
    }
    loop
        invariant
            j <= cur <= s.len(),
            skip_ws(s@, 0) == i as int,
            i < s.len() && s@[i as int] == LBRACKET,
            j == skip_ws(s@, i as int + 1),
            !(j < s.len() && s@[j as int] == RBRACKET),
            parse_routes_rest(s@, j as int) == items_prepend(
                acc.deep_view(),
                parse_routes_rest(s@, cur as int),
            ),
        decreases s.len() - cur,
    {
        let ghost at = cur as int;
        let ghost acc_before = acc.deep_view();
        let (rt, n) = match read_route_at(s, cur) {
            Some(p) => p,
            None => {
                return None;
            },
        };
        let ghost kv = (rt.0@, rt.1@);
        acc.push(rt);
        proof {
            assert(acc.deep_view() =~~= acc_before.push(kv));
            assert(acc_before + seq![kv] =~= acc.deep_view());
        }
        let j1 = skip_ws_exec(s, n);
        if j1 < s.len() && s[j1] == COMMA {
            let j2 = skip_ws_exec(s, j1 + 1);
            proof {
                assert(parse_routes_rest(s@, at) == items_prepend(
                    seq![kv],
                    parse_routes_rest(s@, j2 as int),
                ));
                lemma_items_prepend_chain(acc_before, seq![kv], parse_routes_rest(s@, j2 as int));
            }
            cur = j2;
        } else if j1 < s.len() && s[j1] == RBRACKET {
            proof {
                assert(parse_routes_rest(s@, at) == Some((seq![kv], j1 + 1)));
                assert(parse_routes_rest(s@, j as int) == Some((acc.deep_view(), j1 + 1)));
            }
            let t = skip_ws_exec(s, j1 + 1);
            if t == s.len() {
                return Some(acc);
            } else {
                return None;
            }
        } else {
            return None;
        }
    }
}
} // verus!
