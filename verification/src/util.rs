use vstd::prelude::*;

verus! {

// ---------------------------------------------------------------------------
// Byte-vector equality
// ---------------------------------------------------------------------------

/// Compare two byte vectors for equality of contents.
pub fn bytes_eq(a: &Vec<u8>, b: &Vec<u8>) -> (r: bool)
    ensures
        r == (a@ == b@),
{
    if a.len() != b.len() {
        proof {
            assert(a@.len() != b@.len());
        }
        return false;
    }
    let mut i: usize = 0;
    while i < a.len()
        invariant
            i <= a.len(),
            a@.len() == b@.len(),
            forall|j: int| 0 <= j < i ==> a@[j] == b@[j],
        decreases a.len() - i,
    {
        if a[i] != b[i] {
            return false;
        }
        i += 1;
    }
    proof {
        assert(a@ =~= b@);
    }
    true
}

// ---------------------------------------------------------------------------
// Decimal digits
// ---------------------------------------------------------------------------

/// ASCII decimal rendering of a natural number, most significant digit first,
/// without leading zeros (the rendering of 0 is "0").
pub open spec fn dec_rep(n: nat) -> Seq<u8>
    decreases n,
{
    if n < 10 {
        seq![(48 + n) as u8]
    } else {
        dec_rep(n / 10) + seq![(48 + n % 10) as u8]
    }
}

/// The byte is an ASCII decimal digit.
pub open spec fn is_digit(b: u8) -> bool {
    48 <= b <= 57
}

/// Every byte of the sequence is an ASCII decimal digit.
pub open spec fn all_digits(s: Seq<u8>) -> bool {
    forall|i: int| 0 <= i < s.len() ==> is_digit(#[trigger] s[i])
}

/// The non-negative value denoted by a sequence of ASCII decimal digits
/// (most significant first); the empty sequence denotes 0.
pub open spec fn dec_val(s: Seq<u8>) -> int
    decreases s.len(),
{
    if s.len() == 0 {
        0
    } else {
        dec_val(s.drop_last()) * 10 + (s.last() - 48)
    }
}

/// The decimal rendering consists of digits, is non-empty, and never starts
/// with a superfluous zero.
pub proof fn lemma_dec_rep_digits(n: nat)
    ensures
        dec_rep(n).len() >= 1,
        all_digits(dec_rep(n)),
        n >= 10 ==> dec_rep(n)[0] != 48,
        n >= 1 ==> dec_rep(n)[0] != 48,
    decreases n,
{
    if n >= 10 {
        lemma_dec_rep_digits(n / 10);
    }
}

/// Reading the decimal rendering back yields the original value.
pub proof fn lemma_dec_val_of_rep(n: nat)
    ensures
        dec_val(dec_rep(n)) == n,
    decreases n,
{
    if n < 10 {
        let s = dec_rep(n);
        assert(s =~= seq![(48 + n) as u8]);
        assert(s.drop_last() =~= Seq::<u8>::empty());
        assert(s.last() == (48 + n) as u8);
        assert(dec_val(s) == dec_val(s.drop_last()) * 10 + (s.last() - 48));
        assert(dec_val(s.drop_last()) == 0);
    } else {
        lemma_dec_val_of_rep(n / 10);
        let s = dec_rep(n);
        assert(s.drop_last() =~= dec_rep(n / 10));
        assert(dec_val(s) == dec_val(dec_rep(n / 10)) * 10 + (n % 10));
    }
}

/// Appending a digit multiplies the value by ten and adds the digit.
pub proof fn lemma_dec_val_push(s: Seq<u8>, d: u8)
    ensures
        dec_val(s.push(d)) == dec_val(s) * 10 + (d - 48),
{
    assert(s.push(d).drop_last() =~= s);
    assert(s.push(d).last() == d);
}

/// A digit sequence denotes a non-negative value, and extending it never
/// decreases the value.
pub proof fn lemma_dec_val_nonneg(s: Seq<u8>)
    requires
        all_digits(s),
    ensures
        dec_val(s) >= 0,
    decreases s.len(),
{
    if s.len() > 0 {
        assert(is_digit(s[s.len() - 1]));
        lemma_dec_val_nonneg(s.drop_last());
    }
}

/// The value of a digit-sequence prefix never exceeds the value of the whole.
pub proof fn lemma_dec_val_prefix(s: Seq<u8>, i: int)
    requires
        all_digits(s),
        0 <= i <= s.len(),
    ensures
        dec_val(s.take(i)) <= dec_val(s),
    decreases s.len() - i,
{
    if i < s.len() {
        lemma_dec_val_prefix(s, i + 1);
        let p = s.take(i);
        let q = s.take(i + 1);
        assert(q.drop_last() =~= p);
        assert(is_digit(q.last()));
        assert(forall|j: int| 0 <= j < p.len() ==> is_digit(#[trigger] p[j]));
        lemma_dec_val_nonneg(p);
        assert(dec_val(q) == dec_val(p) * 10 + (q.last() - 48));
        assert(dec_val(p) * 10 >= dec_val(p)) by (nonlinear_arith)
            requires dec_val(p) >= 0;
    } else {
        assert(s.take(i) =~= s);
    }
}

/// Render a natural number as ASCII decimal digits.
pub fn u64_to_dec(n: u64) -> (r: Vec<u8>)
    ensures
        r@ == dec_rep(n as nat),
    decreases n,
{
    if n < 10 {
        let mut v: Vec<u8> = Vec::new();
        v.push(48 + (n as u8));
        proof {
            assert(v@ =~= dec_rep(n as nat));
        }
        v
    } else {
        let mut v = u64_to_dec(n / 10);
        v.push(48 + ((n % 10) as u8));
        proof {
            assert(v@ =~= dec_rep(n as nat));
        }
        v
    }
}

/// ASCII decimal rendering of a signed value: a leading '-' for negative
/// values, then the digits of the magnitude.
pub open spec fn dec_rep_signed(n: int) -> Seq<u8> {
    if n < 0 {
        seq![45u8] + dec_rep((-n) as nat)
    } else {
        dec_rep(n as nat)
    }
}

/// Render a signed 64-bit value as ASCII decimal digits.
pub fn i64_to_dec(n: i64) -> (r: Vec<u8>)
    ensures
        r@ == dec_rep_signed(n as int),
{
    if n >= 0 {
        u64_to_dec(n as u64)
    } else {
        let mag: u64 = (-(n as i128)) as u64;
        assert(mag == -(n as int));
        let digits = u64_to_dec(mag);
        let mut v: Vec<u8> = Vec::new();
        v.push(45u8);
        let mut i: usize = 0;
        while i < digits.len()
            invariant
                i <= digits.len(),
                digits@ == dec_rep((-(n as int)) as nat),
                v@ == seq![45u8] + digits@.take(i as int),
            decreases digits.len() - i,
        {
            let d = digits[i];
            v.push(d);
            proof {
                assert(v@ =~= seq![45u8] + digits@.take(i + 1));
            }
            i += 1;
        }
        proof {
            assert(digits@.take(digits@.len() as int) =~= digits@);
        }
        v
    }
}

// ---------------------------------------------------------------------------
// Big-endian 16- and 32-bit integers
// ---------------------------------------------------------------------------

/// The four big-endian bytes of a 32-bit value.
pub open spec fn be32_bytes(n: int) -> Seq<u8> {
    seq![
        ((n / 0x1000000) % 256) as u8,
        ((n / 0x10000) % 256) as u8,
        ((n / 0x100) % 256) as u8,
        (n % 256) as u8,
    ]
}

/// The value of four big-endian bytes.
pub open spec fn be32_val(s: Seq<u8>) -> int {
    s[0] * 0x1000000 + s[1] * 0x10000 + s[2] * 0x100 + s[3]
}

/// The value of two big-endian bytes.
pub open spec fn be16_val(s: Seq<u8>) -> int {
    s[0] * 0x100 + s[1]
}

/// Serializing a 32-bit value big-endian and reading it back is the identity.
pub proof fn lemma_be32_roundtrip(n: int)
    requires
        0 <= n < 0x100000000,
    ensures
        be32_val(be32_bytes(n)) == n,
{
    assert(be32_val(be32_bytes(n)) == n) by (nonlinear_arith)
        requires 0 <= n < 0x100000000;
}

/// Split a 32-bit value into its four big-endian bytes.
pub fn u32_to_be(n: u32) -> (r: Vec<u8>)
    ensures
        r@ == be32_bytes(n as int),
        r@.len() == 4,
{
    let mut v: Vec<u8> = Vec::new();
    v.push((n >> 24) as u8);
    v.push(((n >> 16) & 0xff) as u8);
    v.push(((n >> 8) & 0xff) as u8);
    v.push((n & 0xff) as u8);
    proof {
        assert((n >> 24) < 256 && ((n >> 16) & 0xff) < 256 && ((n >> 8) & 0xff) < 256 && (n
            & 0xff) < 256) by (bit_vector);
        assert((n >> 24) == (n / 0x1000000) % 256 && ((n >> 16) & 0xff) == (n / 0x10000) % 256 && ((
        n >> 8) & 0xff) == (n / 0x100) % 256 && (n & 0xff) == n % 256) by (bit_vector);
        assert(v@ =~= be32_bytes(n as int));
    }
    v
}

/// Combine four big-endian bytes into a 32-bit value.
pub fn be_to_u32(b0: u8, b1: u8, b2: u8, b3: u8) -> (r: u32)
    ensures
        r == be32_val(seq![b0, b1, b2, b3]),
{
    (b0 as u32) * 0x1000000 + (b1 as u32) * 0x10000 + (b2 as u32) * 0x100 + (b3 as u32)
}

/// Combine two big-endian bytes into a 16-bit value.
pub fn be_to_u16(b0: u8, b1: u8) -> (r: u16)
    ensures
        r == be16_val(seq![b0, b1]),
{
    (b0 as u16) * 0x100 + (b1 as u16)
}

// ---------------------------------------------------------------------------
// ASCII strings
// ---------------------------------------------------------------------------

/// Every byte is 7-bit ASCII.
pub open spec fn all_ascii(s: Seq<u8>) -> bool {
    forall|i: int| 0 <= i < s.len() ==> #[trigger] s[i] < 128
}

/// The characters corresponding one-to-one to a sequence of ASCII bytes.
pub open spec fn ascii_chars(s: Seq<u8>) -> Seq<char> {
    s.map_values(|b: u8| b as char)
}

/// Relies on `String::from_utf8`: a buffer of 7-bit ASCII bytes is valid
/// UTF-8, and the resulting string has exactly one `char` per byte.
#[verifier::external_body]
pub fn ascii_string(bytes: &Vec<u8>) -> (r: String)
    requires
        all_ascii(bytes@),
    ensures
        r@ == ascii_chars(bytes@),
{
    match String::from_utf8(bytes.clone()) {
        Ok(s) => s,
        Err(_) => String::new(),
    }
}

} // verus!
