//! Snapshot versioning. A snapshot file is named `<RFC 3339 timestamp>.json`;
//! the authoritative snapshot is the one whose name parses to the greatest
//! instant, whatever order a directory scan yields the names in.
//!
//! The parser reads `YYYY-MM-DDTHH:MM:SS`, an optional fraction of one to
//! nine digits, and an offset (`Z`, `z`, or `+HH:MM`/`-HH:MM`), and maps the
//! whole to a single instant: nanoseconds relative to year 0 of the
//! proleptic Gregorian calendar. Names that do not parse are skipped, never
//! an error.
use vstd::prelude::*;

use crate::bytes::{digit_val, is_digit_byte};

verus! {

pub const DOT: u8 = 46;

/// Leap year of the proleptic Gregorian calendar.
pub open spec fn is_leap_year(y: int) -> bool {
    (y % 4 == 0 && y % 100 != 0) || y % 400 == 0
}

/// Days in a month, `1 <= m <= 12`.
pub open spec fn days_in_month(y: int, m: int) -> int {
    if m == 2 {
        if is_leap_year(y) {
            29
        } else {
            28
        }
    } else if m == 4 || m == 6 || m == 9 || m == 11 {
        30
    } else {
        31
    }
}

/// Days in the months before `m` within one year.
pub open spec fn days_before_month(y: int, m: int) -> int {
    let base: int = if m == 1 {
        0
    } else if m == 2 {
        31
    } else if m == 3 {
        59
    } else if m == 4 {
        90
    } else if m == 5 {
        120
    } else if m == 6 {
        151
    } else if m == 7 {
        181
    } else if m == 8 {
        212
    } else if m == 9 {
        243
    } else if m == 10 {
        273
    } else if m == 11 {
        304
    } else {
        334
    };
    if m >= 3 && is_leap_year(y) {
        base + 1
    } else {
        base
    }
}

/// Days in the years before `y`, counting from year 0.
pub open spec fn days_before_year(y: int) -> int {
    y * 365 + (y + 3) / 4 - (y + 99) / 100 + (y + 399) / 400
}

/// Day number of a calendar date, relative to the first day of year 0.
pub open spec fn day_number(y: int, m: int, d: int) -> int {
    days_before_year(y) + days_before_month(y, m) + (d - 1)
}

/// Value of two decimal digit bytes at `i`.
pub open spec fn two_digits(s: Seq<u8>, i: int) -> Option<int> {
    if 0 <= i && i + 2 <= s.len() && is_digit_byte(s[i]) && is_digit_byte(s[i + 1]) {
        Some(digit_val(s[i]) * 10 + digit_val(s[i + 1]))
    } else {
        None
    }
}

/// Value of four decimal digit bytes at `i`.
pub open spec fn four_digits(s: Seq<u8>, i: int) -> Option<int> {
    match (two_digits(s, i), two_digits(s, i + 2)) {
        (Some(a), Some(b)) => Some(a * 100 + b),
        _ => None,
    }
}

/// First position at or after `i` holding no decimal digit.
pub open spec fn digits_end(s: Seq<u8>, i: int) -> int
    decreases s.len() - i,
{
    if 0 <= i < s.len() && is_digit_byte(s[i]) {
        digits_end(s, i + 1)
    } else {
        i
    }
}

pub proof fn lemma_digits_end(s: Seq<u8>, i: int)
    requires
        0 <= i <= s.len(),
    ensures
        i <= digits_end(s, i) <= s.len(),
        digits_end(s, i) == s.len() || !is_digit_byte(s[digits_end(s, i)]),
    decreases s.len() - i,
{
    if i < s.len() && is_digit_byte(s[i]) {
        lemma_digits_end(s, i + 1);
    }
}

/// Value of the decimal digits in `s[i..k]`.
pub open spec fn digits_val(s: Seq<u8>, i: int, k: int) -> int
    decreases k - i,
{
    if i < k {
        digits_val(s, i, k - 1) * 10 + digit_val(s[k - 1])
    } else {
        0
    }
}

/// Ten to a small power.
pub open spec fn pow10(n: int) -> int {
    if n <= 0 {
        1
    } else if n == 1 {
        10
    } else if n == 2 {
        100
    } else if n == 3 {
        1000
    } else if n == 4 {
        10000
    } else if n == 5 {
        100000
    } else if n == 6 {
        1000000
    } else if n == 7 {
        10000000
    } else if n == 8 {
        100000000
    } else {
        1000000000
    }
}

/// Parse an optional fraction of a second at `i`: nanoseconds and the
/// position after the fraction. One to nine fractional digits are accepted.
pub open spec fn parse_frac(s: Seq<u8>, i: int) -> Option<(int, int)> {
    if 0 <= i < s.len() && s[i] == DOT {
        let k = digits_end(s, i + 1);
        let n = k - (i + 1);
        if 1 <= n <= 9 {
            Some((digits_val(s, i + 1, k) * pow10(9 - n), k))
        } else {
            None
        }
    } else {
        Some((0, i))
    }
}

/// Parse a UTC offset filling the rest of `s`: seconds east of UTC.
pub open spec fn parse_offset(s: Seq<u8>, i: int) -> Option<int> {
    if 0 <= i < s.len() && (s[i] == 90 || s[i] == 122) {  // Z | z
        if i + 1 == s.len() {
            Some(0)
        } else {
            None
        }
    } else if 0 <= i < s.len() && (s[i] == 43 || s[i] == 45) {  // + | -
        if i + 6 == s.len() && s[i + 3] == 58 {
            match (two_digits(s, i + 1), two_digits(s, i + 4)) {
                (Some(hh), Some(mm)) => if hh <= 23 && mm <= 59 {
                    if s[i] == 43 {
                        Some(hh * 3600 + mm * 60)
                    } else {
                        Some(-(hh * 3600 + mm * 60))
                    }
                } else {
                    None
                },
                _ => None,
            }
        } else {
            None
        }
    } else {
        None
    }
}

/// Parse a whole RFC 3339 timestamp; the result is the instant it denotes,
/// in nanoseconds relative to the start of year 0, offset applied.
pub open spec fn parse_ts(s: Seq<u8>) -> Option<int> {
    if s.len() >= 20 && s[4] == 45 && s[7] == 45 && (s[10] == 84 || s[10] == 116) && s[13] == 58
        && s[16] == 58 {
        match (
            four_digits(s, 0),
            two_digits(s, 5),
            two_digits(s, 8),
            two_digits(s, 11),
            two_digits(s, 14),
            two_digits(s, 17),
        ) {
            (Some(y), Some(mo), Some(d), Some(hh), Some(mi), Some(ss)) => {
                if 1 <= mo <= 12 && 1 <= d <= days_in_month(y, mo) && hh <= 23 && mi <= 59 && ss
                    <= 60 {
                    match parse_frac(s, 19) {
                        Some((nanos, f)) => match parse_offset(s, f) {
                            Some(off) => Some(
                                (day_number(y, mo, d) * 86400 + hh * 3600 + mi * 60 + ss - off)
                                    * 1000000000 + nanos,
                            ),
                            None => None,
                        },
                        None => None,
                    }
                } else {
                    None
                }
            },
            _ => None,
        }
    } else {
        None
    }
}

/// The `.json` snapshot extension.
pub open spec fn json_ext() -> Seq<u8> {
    seq![DOT, 106u8, 115u8, 111u8, 110u8]
}

/// The instant named by a snapshot file name: the name must end in `.json`
/// and its stem must parse as a timestamp.
pub open spec fn snapshot_stamp(name: Seq<u8>) -> Option<int> {
    if name.len() >= 5 && name.subrange(name.len() - 5, name.len() as int) == json_ext() {
        parse_ts(name.subrange(0, name.len() - 5))
    } else {
        None
    }
}

// ------------------------------------------------------------------
// Exec reader
// ------------------------------------------------------------------
fn two_digits_exec(s: &Vec<u8>, i: usize) -> (r: Option<u32>)
    ensures
        match r {
            Some(v) => two_digits(s@, i as int) == Some(v as int) && v < 100,
            None => two_digits(s@, i as int) is None,
        },
{
    if s.len() >= 2 && i <= s.len() - 2 {
        let a = s[i];
        let b = s[i + 1];
        if 0x30 <= a && a <= 0x39 && 0x30 <= b && b <= 0x39 {
            return Some(((a - 0x30) as u32) * 10 + ((b - 0x30) as u32));
        }
    }
    None
}

fn four_digits_exec(s: &Vec<u8>, i: usize) -> (r: Option<u32>)
    ensures
        match r {
            Some(v) => four_digits(s@, i as int) == Some(v as int) && v < 10000,
            None => four_digits(s@, i as int) is None,
        },
{
    let a = match two_digits_exec(s, i) {
        Some(a) => a,
        None => {
            return None;
        },
    };
    let n = s.len();
    assert(i + 2 <= n);
    let b = match two_digits_exec(s, i + 2) {
        Some(b) => b,
        None => {
            return None;
        },
    };
    Some(a * 100 + b)
}

/// Digits in a bounded window have a bounded value.
proof fn lemma_digits_val_bound(s: Seq<u8>, i: int, k: int)
    requires
        0 <= i <= k <= s.len(),
        forall|j: int| i <= j < k ==> is_digit_byte(#[trigger] s[j]),
        k - i <= 9,
    ensures
        0 <= digits_val(s, i, k) < pow10(k - i),
    decreases k - i,
{
    if i < k {
        lemma_digits_val_bound(s, i, k - 1);
    }
}

fn read_frac(s: &Vec<u8>, i: usize) -> (r: Option<(u32, usize)>)
    requires
        i <= s.len(),
    ensures
        match r {
            Some(p) => parse_frac(s@, i as int) == Some((p.0 as int, p.1 as int)) && i <= p.1
                <= s.len() && p.0 < 1000000000,
            None => parse_frac(s@, i as int) is None,
        },
{
    if !(i < s.len() && s[i] == DOT) {
        return Some((0, i));
    }
    let mut k = i + 1;
    let mut acc: u32 = 0;
    loop
        invariant
            i < s.len() && s@[i as int] == DOT,
            i + 1 <= k <= s.len(),
            k - (i + 1) <= 9,
            forall|j: int| i + 1 <= j < k ==> is_digit_byte(#[trigger] s@[j]),
            acc == digits_val(s@, i as int + 1, k as int),
            digits_end(s@, i as int + 1) == digits_end(s@, k as int),
        decreases s.len() - k,
    {
        proof {
            lemma_digits_val_bound(s@, i as int + 1, k as int);
        }
        if k < s.len() && 0x30 <= s[k] && s[k] <= 0x39 {
            if k - (i + 1) == 9 {
                // a tenth fractional digit: too precise, rejected
                proof {
                    lemma_digits_end(s@, k as int + 1);
                    assert(digits_end(s@, k as int) == digits_end(s@, k as int + 1));
                }
                return None;
            }
            acc = acc * 10 + ((s[k] - 0x30) as u32);
            k += 1;
        } else {
            proof {
                assert(digits_end(s@, k as int) == k as int);
                lemma_digits_val_bound(s@, i as int + 1, k as int);
            }
            let n = k - (i + 1);
            if n < 1 {
                return None;
            }
            let scale: u32 = if n == 1 {
                100000000
            } else if n == 2 {
                10000000
            } else if n == 3 {
                1000000
            } else if n == 4 {
                100000
            } else if n == 5 {
                10000
            } else if n == 6 {
                1000
            } else if n == 7 {
                100
            } else if n == 8 {
                10
            } else {
                1
            };
            assert(scale == pow10(9 - n));
            assert(acc * scale < 1000000000) by (nonlinear_arith)
                requires
                    acc < pow10(n as int),
                    scale == pow10(9 - n),
                    1 <= n <= 9,
            {
                assert(pow10(n as int) * pow10(9 - n) == 1000000000) by {
                    assert(1 <= n <= 9);
                }
            }
            return Some((acc * scale, k));
        }
    }
}

fn read_offset(s: &Vec<u8>, i: usize) -> (r: Option<i64>)
    ensures
        match r {
            Some(off) => parse_offset(s@, i as int) == Some(off as int) && -86400 <= off <= 86400,
            None => parse_offset(s@, i as int) is None,
        },
{
    if i < s.len() && (s[i] == 90 || s[i] == 122) {
        if i + 1 == s.len() {
            return Some(0);
        } else {
            return None;
        }
    }
    if i < s.len() && (s[i] == 43 || s[i] == 45) {
        if s.len() >= 6 && i == s.len() - 6 && s[i + 3] == 58 {
            match (two_digits_exec(s, i + 1), two_digits_exec(s, i + 4)) {
                (Some(hh), Some(mm)) => {
                    if hh <= 23 && mm <= 59 {
                        let secs = (hh as i64) * 3600 + (mm as i64) * 60;
                        if s[i] == 43 {
                            return Some(secs);
                        } else {
                            return Some(-secs);
                        }
                    }
                    return None;
                },
                _ => {
                    return None;
                },
            }
        } else {
            return None;
        }
    }
    None
}

/// Exec counterpart of [`day_number`]; the result is small enough for all
/// later arithmetic.
fn day_number_exec(y: u32, m: u32, d: u32) -> (r: i64)
    requires
        y < 10000,
        1 <= m <= 12,
        1 <= d <= 31,
    ensures
        r == day_number(y as int, m as int, d as int),
        0 <= r < 3660000,
{
    let leap = (y % 4 == 0 && y % 100 != 0) || y % 400 == 0;
    assert(leap == is_leap_year(y as int));
    let before_year: i64 = (y as i64) * 365 + ((y as i64) + 3) / 4 - ((y as i64) + 99) / 100 + ((
    y as i64) + 399) / 400;
    let base: i64 = if m == 1 {
        0
    } else if m == 2 {
        31
    } else if m == 3 {
        59
    } else if m == 4 {
        90
    } else if m == 5 {
        120
    } else if m == 6 {
        151
    } else if m == 7 {
        181
    } else if m == 8 {
        212
    } else if m == 9 {
        243
    } else if m == 10 {
        273
    } else if m == 11 {
        304
    } else {
        334
    };
    let before_month: i64 = if m >= 3 && leap {
        base + 1
    } else {
        base
    };
    before_year + before_month + (d as i64) - 1
}

/// Read a timestamp; `Some` holds the instant in nanoseconds relative to
/// year 0.
pub fn read_ts(s: &Vec<u8>) -> (r: Option<i128>)
    ensures
        match r {
            Some(v) => parse_ts(s@) == Some(v as int),
            None => parse_ts(s@) is None,
        },
{
    if !(s.len() >= 20 && s[4] == 45 && s[7] == 45 && (s[10] == 84 || s[10] == 116) && s[13] == 58
        && s[16] == 58) {
        return None;
    }
    let y = match four_digits_exec(s, 0) {
        Some(v) => v,
        None => {
            return None;
        },
    };
    let mo = match two_digits_exec(s, 5) {
        Some(v) => v,
        None => {
            return None;
        },
    };
    let d = match two_digits_exec(s, 8) {
        Some(v) => v,
        None => {
            return None;
        },
    };
    let hh = match two_digits_exec(s, 11) {
        Some(v) => v,
        None => {
            return None;
        },
    };
    let mi = match two_digits_exec(s, 14) {
        Some(v) => v,
        None => {
            return None;
        },
    };
    let ss = match two_digits_exec(s, 17) {
        Some(v) => v,
        None => {
            return None;
        },
    };
    let leap = (y % 4 == 0 && y % 100 != 0) || y % 400 == 0;
    assert(leap == is_leap_year(y as int));
    let dim: u32 = if mo == 2 {
        if leap {
            29
        } else {
            28
        }
    } else if mo == 4 || mo == 6 || mo == 9 || mo == 11 {
        30
    } else {
        31
    };
    if !(1 <= mo && mo <= 12 && 1 <= d && d <= dim && hh <= 23 && mi <= 59 && ss <= 60) {
        return None;
    }
    let (nanos, f) = match read_frac(s, 19) {
        Some(p) => p,
        None => {
            return None;
        },
    };
    let off = match read_offset(s, f) {
        Some(v) => v,
        None => {
            return None;
        },
    };
    let days = day_number_exec(y, mo, d);
    let secs: i64 = days * 86400 + (hh as i64) * 3600 + (mi as i64) * 60 + (ss as i64) - off;
    let value: i128 = (secs as i128) * 1000000000 + (nanos as i128);
    Some(value)
}

/// The instant named by a snapshot file name, if the name is one.
pub fn read_snapshot_stamp(name: &Vec<u8>) -> (r: Option<i128>)
    ensures
        match r {
            Some(v) => snapshot_stamp(name@) == Some(v as int),
            None => snapshot_stamp(name@) is None,
        },
{
    if name.len() < 5 {
        return None;
    }
    let tail = name.len() - 5;
    if !(name[tail] == DOT && name[tail + 1] == 106 && name[tail + 2] == 115 && name[tail + 3]
        == 111 && name[tail + 4] == 110) {
        assert(name@.subrange(name@.len() - 5, name@.len() as int) != json_ext()) by {
            let sub = name@.subrange(name@.len() - 5, name@.len() as int);
            if sub == json_ext() {
                assert(sub[0] == name@[tail as int]);
                assert(sub[1] == name@[tail as int + 1]);
                assert(sub[2] == name@[tail as int + 2]);
                assert(sub[3] == name@[tail as int + 3]);
                assert(sub[4] == name@[tail as int + 4]);
            }
        }
        return None;
    }
    assert(name@.subrange(name@.len() - 5, name@.len() as int) =~= json_ext());
    let mut stem: Vec<u8> = Vec::new();
    let mut i: usize = 0;
    while i < tail
        invariant
            tail <= name.len(),
            i <= tail,
            stem@ =~= name@.subrange(0, i as int),
        decreases tail - i,
    {
        stem.push(name[i]);
        assert(stem@ =~= name@.subrange(0, i + 1));
        i += 1;
    }
    assert(stem@ =~= name@.subrange(0, name@.len() - 5));
    read_ts(&stem)
}

// ------------------------------------------------------------------
// Selecting the authoritative snapshot
// ------------------------------------------------------------------
/// An optional stamp is at most `t`.
pub open spec fn stamp_le(a: Option<int>, t: int) -> bool {
    match a {
        Some(v) => v <= t,
        None => true,
    }
}

/// An optional stamp is strictly below `t`.
pub open spec fn stamp_lt(a: Option<int>, t: int) -> bool {
    match a {
        Some(v) => v < t,
        None => true,
    }
}

/// Pick the snapshot name carrying the greatest timestamp; among equal
/// stamps the earliest listed name wins. Names that are no snapshot name
/// are skipped. `None` only when no name parses.
pub fn select_latest(names: &Vec<Vec<u8>>) -> (r: Option<usize>)
    ensures
        match r {
            Some(i) => {
                &&& i < names.len()
                &&& snapshot_stamp(names.deep_view()[i as int]) is Some
                &&& forall|k: int|
                    0 <= k < names.len() ==> stamp_le(
                        #[trigger] snapshot_stamp(names.deep_view()[k]),
                        snapshot_stamp(names.deep_view()[i as int])->0,
                    )
                &&& forall|k: int|
                    0 <= k < i ==> stamp_lt(
                        #[trigger] snapshot_stamp(names.deep_view()[k]),
                        snapshot_stamp(names.deep_view()[i as int])->0,
                    )
                &&& is_latest_stamp(
                    names.deep_view(),
                    snapshot_stamp(names.deep_view()[i as int])->0,
                )
            },
            None => forall|k: int|
                0 <= k < names.len() ==> #[trigger] snapshot_stamp(names.deep_view()[k]) is None,
        },
{
    let ghost dv = names.deep_view();
    let n = names.len();
    let mut best: Option<(usize, i128)> = None;
    let mut i: usize = 0;
    while i < n
        invariant
            n == names.len(),
            dv == names.deep_view(),
            dv.len() == n,
            i <= n,
            match best {
                Some((bi, bv)) => {
                    &&& bi < i
                    &&& snapshot_stamp(dv[bi as int]) == Some(bv as int)
                    &&& forall|k: int|
                        0 <= k < i ==> stamp_le(#[trigger] snapshot_stamp(dv[k]), bv as int)
                    &&& forall|k: int|
                        0 <= k < bi ==> stamp_lt(#[trigger] snapshot_stamp(dv[k]), bv as int)
                },
                None => forall|k: int| 0 <= k < i ==> #[trigger] snapshot_stamp(dv[k]) is None,
            },
        decreases n - i,
    {
        assert(dv[i as int] == names@[i as int].deep_view());
        assert(dv[i as int] =~= names@[i as int]@);
        match read_snapshot_stamp(&names[i]) {
            Some(v) => {
                match best {
                    Some((bi, bv)) => {
                        if v > bv {
                            best = Some((i, v));
                        }
                    },
                    None => {
                        best = Some((i, v));
                    },
                }
            },
            None => {},
        }
        i += 1;
    }
    match best {
        Some((bi, bv)) => {
            proof {
                assert(0 <= bi < dv.len() && snapshot_stamp(dv[bi as int]) == Some(bv as int));
            }
            Some(bi)
        },
        None => None,
    }
}

/// The stamp `t` is the latest carried by any name in the listing.
pub open spec fn is_latest_stamp(names: Seq<Seq<u8>>, t: int) -> bool {
    &&& exists|i: int| 0 <= i < names.len() && snapshot_stamp(#[trigger] names[i]) == Some(t)
    &&& forall|i: int| 0 <= i < names.len() ==> stamp_le(snapshot_stamp(#[trigger] names[i]), t)
}

/// The latest stamp does not depend on the order a directory scan yields
/// the names in: listings with the same names have the same latest stamp.
pub proof fn lemma_latest_stamp_order_independent(a: Seq<Seq<u8>>, b: Seq<Seq<u8>>, t: int)
    requires
        a.to_multiset() == b.to_multiset(),
        is_latest_stamp(a, t),
    ensures
        is_latest_stamp(b, t),
{
    broadcast use vstd::seq_lib::group_to_multiset_ensures;

    let i = choose|i: int| 0 <= i < a.len() && snapshot_stamp(#[trigger] a[i]) == Some(t);
    assert(a.contains(a[i]));
    assert(b.to_multiset().count(a[i]) > 0);
    assert(b.contains(a[i]));
    let j = choose|j: int| 0 <= j < b.len() && b[j] == a[i];
    assert(snapshot_stamp(b[j]) == Some(t));
    assert forall|k: int| 0 <= k < b.len() implies stamp_le(
        snapshot_stamp(#[trigger] b[k]),
        t,
    ) by {
        assert(b.contains(b[k]));
        assert(a.to_multiset().count(b[k]) > 0);
        assert(a.contains(b[k]));
        let m = choose|m: int| 0 <= m < a.len() && a[m] == b[k];
        assert(stamp_le(snapshot_stamp(a[m]), t));
    }
}

/// There is only one latest stamp for a listing.
pub proof fn lemma_latest_stamp_unique(names: Seq<Seq<u8>>, t1: int, t2: int)
    requires
        is_latest_stamp(names, t1),
        is_latest_stamp(names, t2),
    ensures
        t1 == t2,
{
    let i1 = choose|i: int| 0 <= i < names.len() && snapshot_stamp(#[trigger] names[i]) == Some(t1);
    let i2 = choose|i: int| 0 <= i < names.len() && snapshot_stamp(#[trigger] names[i]) == Some(t2);
    assert(stamp_le(snapshot_stamp(names[i1]), t2));
    assert(stamp_le(snapshot_stamp(names[i2]), t1));
}

} // verus!
