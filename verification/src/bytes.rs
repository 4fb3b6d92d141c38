//! Small helpers on byte strings shared by the codec, the timestamp parser
//! and the URL composer.
use vstd::prelude::*;

verus! {

/// True for ASCII alphanumeric bytes (`0-9`, `A-Z`, `a-z`).
pub open spec fn is_alnum_byte(b: u8) -> bool {
    (0x30 <= b <= 0x39) || (0x41 <= b <= 0x5a) || (0x61 <= b <= 0x7a)
}

/// True for ASCII decimal digit bytes.
pub open spec fn is_digit_byte(b: u8) -> bool {
    0x30 <= b <= 0x39
}

/// Numeric value of a decimal digit byte.
pub open spec fn digit_val(b: u8) -> int {
    b - 0x30
}

/// Lower-case hexadecimal digit for a value below 16.
pub open spec fn hex_digit_lower(v: int) -> u8 {
    if v < 10 {
        (0x30 + v) as u8
    } else {
        (0x61 + (v - 10)) as u8
    }
}

/// Numeric value of a hexadecimal digit byte, upper or lower case;
/// `None` when the byte is no hexadecimal digit.
pub open spec fn hex_val(b: u8) -> Option<int> {
    if 0x30 <= b <= 0x39 {
        Some((b - 0x30) as int)
    } else if 0x41 <= b <= 0x46 {
        Some((b - 0x41 + 10) as int)
    } else if 0x61 <= b <= 0x66 {
        Some((b - 0x61 + 10) as int)
    } else {
        None
    }
}

/// Encoding a value below 16 and reading the digit back is the identity.
pub proof fn lemma_hex_digit_roundtrip(v: int)
    requires
        0 <= v < 16,
    ensures
        hex_val(hex_digit_lower(v)) == Some(v),
{
}

/// Byte-string equality, decided by a scan.
pub fn bytes_eq(a: &Vec<u8>, b: &Vec<u8>) -> (r: bool)
    ensures
        r <==> a@ == b@,
{
    if a.len() != b.len() {
        assert(a@ != b@);
        return false;
    }
    let n = a.len();
    let mut i: usize = 0;
    while i < n
        invariant
            n == a.len() == b.len(),
            i <= n,
            forall|j: int| 0 <= j < i ==> a@[j] == b@[j],
        decreases n - i,
    {
        if a[i] != b[i] {
            assert(a@ != b@);
            return false;
        }
        i += 1;
    }
    assert(a@ =~= b@);
    true
}

/// Exec counterpart of [`hex_digit_lower`].
pub fn hex_digit_lower_exec(v: u8) -> (r: u8)
    requires
        v < 16,
    ensures
        r == hex_digit_lower(v as int),
{
    if v < 10 {
        0x30 + v
    } else {
        0x61 + (v - 10)
    }
}

/// Exec counterpart of [`hex_val`].
pub fn hex_val_exec(b: u8) -> (r: Option<u8>)
    ensures
        match r {
            Some(v) => hex_val(b) == Some(v as int) && v < 16,
            None => hex_val(b) is None,
        },
{
    if 0x30 <= b && b <= 0x39 {
        Some(b - 0x30)
    } else if 0x41 <= b && b <= 0x46 {
        Some(b - 0x41 + 10)
    } else if 0x61 <= b && b <= 0x66 {
        Some(b - 0x61 + 10)
    } else {
        None
    }
}

/// Upper-case hexadecimal digit for a value below 16.
pub open spec fn hex_digit_upper(v: int) -> u8 {
    if v < 10 {
        (0x30 + v) as u8
    } else {
        (0x41 + (v - 10)) as u8
    }
}

/// Exec counterpart of [`hex_digit_upper`].
pub fn hex_digit_upper_exec(v: u8) -> (r: u8)
    requires
        v < 16,
    ensures
        r == hex_digit_upper(v as int),
{
    if v < 10 {
        0x30 + v
    } else {
        0x41 + (v - 10)
    }
}

} // verus!
