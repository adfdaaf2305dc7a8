use vstd::prelude::*;

use crate::util::all_ascii;

verus! {

// ---------------------------------------------------------------------------
// Lowercase hexadecimal rendering of byte sequences, and its inverse.
// ---------------------------------------------------------------------------

/// The ASCII byte of a single lowercase hex digit (value 0..15).
pub open spec fn hex_digit(n: int) -> u8 {
    if n < 10 {
        (48 + n) as u8
    } else {
        (87 + n) as u8
    }
}

/// The byte is an ASCII hex digit (either case).
pub open spec fn is_hex_digit(b: u8) -> bool {
    (48 <= b <= 57) || (97 <= b <= 102) || (65 <= b <= 70)
}

/// The value (0..15) of an ASCII hex digit.
pub open spec fn hex_digit_val(b: u8) -> int {
    if 48 <= b <= 57 {
        b - 48
    } else if 97 <= b <= 102 {
        b - 87
    } else {
        b - 55
    }
}

/// Lowercase hexadecimal rendering: two digits per byte, high nibble first.
pub open spec fn hex_of(s: Seq<u8>) -> Seq<u8> {
    Seq::new(
        2 * s.len(),
        |i: int|
            if i % 2 == 0 {
                hex_digit((s[i / 2] / 16) as int)
            } else {
                hex_digit((s[i / 2] % 16) as int)
            },
    )
}

/// The bytes denoted by an even-length sequence of ASCII hex digits.
pub open spec fn hex_val(s: Seq<u8>) -> Seq<u8> {
    Seq::new(s.len() / 2, |i: int| (hex_digit_val(s[2 * i]) * 16 + hex_digit_val(s[2 * i + 1])) as u8)
}

/// Every byte of the sequence is an ASCII hex digit.
pub open spec fn all_hex_digits(s: Seq<u8>) -> bool {
    forall|i: int| 0 <= i < s.len() ==> is_hex_digit(#[trigger] s[i])
}

/// Every byte of the sequence is a lowercase ASCII hex digit.
pub open spec fn all_lower_hex_digits(s: Seq<u8>) -> bool {
    forall|i: int| 0 <= i < s.len() ==> is_lower_hex_digit(#[trigger] s[i])
}

/// The byte is a lowercase ASCII hex digit.
pub open spec fn is_lower_hex_digit(b: u8) -> bool {
    (48 <= b <= 57) || (97 <= b <= 102)
}

/// The hex rendering consists of lowercase hex digits.
pub proof fn lemma_hex_of_digits(s: Seq<u8>)
    ensures
        all_lower_hex_digits(hex_of(s)),
        all_hex_digits(hex_of(s)),
        all_ascii(hex_of(s)),
{
    assert forall|i: int| 0 <= i < hex_of(s).len() implies is_lower_hex_digit(#[trigger] hex_of(s)[i])
        && is_hex_digit(hex_of(s)[i]) && hex_of(s)[i] < 128 by {
        if i % 2 == 0 {
            assert(0 <= s[i / 2] / 16 < 16);
        } else {
            assert(0 <= s[i / 2] % 16 < 16);
        }
    }
}

/// Rendering the bytes denoted by lowercase hex digits yields those digits.
pub proof fn lemma_hex_of_hex_val(s: Seq<u8>)
    requires
        all_lower_hex_digits(s),
        s.len() % 2 == 0,
    ensures
        hex_of(hex_val(s)) == s,
{
    let v = hex_val(s);
    assert forall|i: int| 0 <= i < s.len() implies #[trigger] hex_of(v)[i] == s[i] by {
        let j = i / 2;
        assert(is_lower_hex_digit(s[2 * j]) && is_lower_hex_digit(s[2 * j + 1]));
        let hi = hex_digit_val(s[2 * j]);
        let lo = hex_digit_val(s[2 * j + 1]);
        assert(0 <= hi < 16 && 0 <= lo < 16);
        assert(v[j] == (hi * 16 + lo) as u8);
        assert((hi * 16 + lo) / 16 == hi && (hi * 16 + lo) % 16 == lo);
        assert(hex_digit(hi) == s[2 * j] && hex_digit(lo) == s[2 * j + 1]);
        if i % 2 == 0 {
            assert(i == 2 * j);
        } else {
            assert(i == 2 * j + 1);
        }
    }
    assert(hex_of(v) =~= s);
}

/// Render bytes as lowercase hexadecimal ASCII.
pub fn hex_encode(bytes: &Vec<u8>) -> (r: Vec<u8>)
    ensures
        r@ == hex_of(bytes@),
{
    let mut r: Vec<u8> = Vec::new();
    let mut i: usize = 0;
    while i < bytes.len()
        invariant
            i <= bytes@.len(),
            r@ == hex_of(bytes@.take(i as int)),
        decreases bytes.len() - i,
    {
        let b = bytes[i];
        let hi = b / 16;
        let lo = b % 16;
        r.push(hex_digit_byte(hi));
        r.push(hex_digit_byte(lo));
        proof {
            assert(r@ =~= hex_of(bytes@.take(i + 1)));
        }
        i += 1;
    }
    proof {
        assert(bytes@.take(bytes@.len() as int) =~= bytes@);
    }
    r
}

/// The ASCII byte of a single lowercase hex digit.
fn hex_digit_byte(n: u8) -> (r: u8)
    requires
        n < 16,
    ensures
        r == hex_digit(n as int),
{
    if n < 10 {
        48 + n
    } else {
        87 + n
    }
}

/// Decode an even-length sequence of ASCII hex digits into bytes.
pub fn hex_decode(digits: &Vec<u8>) -> (r: Vec<u8>)
    requires
        all_hex_digits(digits@),
        digits@.len() % 2 == 0,
    ensures
        r@ == hex_val(digits@),
{
    let mut r: Vec<u8> = Vec::new();
    let mut i: usize = 0;
    while i + 1 < digits.len()
        invariant
            i % 2 == 0,
            i <= digits@.len(),
            digits@.len() % 2 == 0,
            all_hex_digits(digits@),
            r@ == hex_val(digits@.take(i as int)),
            r@.len() == i / 2,
        decreases digits.len() - i,
    {
        let hi = hex_digit_value(digits[i]);
        let lo = hex_digit_value(digits[i + 1]);
        r.push(hi * 16 + lo);
        proof {
            let t = digits@.take(i + 2);
            assert(t.len() % 2 == 0);
            assert forall|j: int| 0 <= j < hex_val(t).len() implies #[trigger] hex_val(t)[j]
                == r@[j] by {
                assert(t[2 * j] == digits@[2 * j] && t[2 * j + 1] == digits@[2 * j + 1]);
                if j < i / 2 {
                    let p = digits@.take(i as int);
                    assert(p[2 * j] == digits@[2 * j] && p[2 * j + 1] == digits@[2 * j + 1]);
                    assert(hex_val(p)[j] == r@[j]);
                }
            }
            assert(r@ =~= hex_val(digits@.take(i + 2)));
        }
        i += 2;
    }
    proof {
        assert(i == digits@.len());
        assert(digits@.take(digits@.len() as int) =~= digits@);
    }
    r
}

/// The value of a single ASCII hex digit.
fn hex_digit_value(b: u8) -> (r: u8)
    requires
        is_hex_digit(b),
    ensures
        r == hex_digit_val(b),
        r < 16,
{
    if 48 <= b && b <= 57 {
        b - 48
    } else if 97 <= b && b <= 102 {
        b - 87
    } else {
        b - 55
    }
}

/// Check that a byte vector consists of ASCII hex digits.
pub fn check_all_hex(bytes: &Vec<u8>) -> (r: bool)
    ensures
        r == all_hex_digits(bytes@),
{
    let mut i: usize = 0;
    while i < bytes.len()
        invariant
            i <= bytes@.len(),
            forall|j: int| 0 <= j < i ==> is_hex_digit(#[trigger] bytes@[j]),
        decreases bytes.len() - i,
    {
        let b = bytes[i];
        let ok = (48 <= b && b <= 57) || (97 <= b && b <= 102) || (65 <= b && b <= 70);
        if !ok {
            return false;
        }
        i += 1;
    }
    true
}

} // verus!
