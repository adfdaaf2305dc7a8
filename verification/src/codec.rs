use vstd::prelude::*;

use crate::digest::sha1_of;
use crate::hexcode::hex_of;
use crate::util::{all_digits, be16_val, dec_rep, dec_val, is_digit};
use crate::value::{
    entries_insert, entries_view, key_info, key_info_hash, key_info_hash_vec, key_info_vec,
    key_ip, key_ip_vec, key_peers, key_peers_vec, key_pieces, key_pieces_vec, key_port,
    key_port_vec, map_insert, values_view, SpecValue, Value,
};

verus! {

// ---------------------------------------------------------------------------
// Parse errors
// ---------------------------------------------------------------------------

/// The ways a bencoded buffer can fail to parse.
#[derive(Debug, Clone, Copy, PartialEq, Eq, Structural)]
pub enum ParseError {
    /// The input is empty.
    EmptyInput,
    /// The leading byte of a value is not 'i', 'l', 'd' or a digit, or a
    /// byte-string length token is not digits followed by ':'.
    UnrecognizedTag,
    /// An integer token has no terminating 'e', holds something other than
    /// an optional '-' followed by digits, or does not fit in 64 bits.
    MalformedInteger,
    /// Fewer payload bytes remain than a byte-string length announces, or a
    /// compact peer list is not a whole number of 6-byte entries.
    TruncatedString,
    /// The input ends inside a list, before its terminating 'e'.
    UnterminatedList,
    /// The input ends inside a map, before its terminating 'e', or a key
    /// has no value.
    UnterminatedMap,
    /// A map key is not a byte string.
    NonStringKey,
}

// ---------------------------------------------------------------------------
// Specification of the decoder
// ---------------------------------------------------------------------------

/// The first index at or after `from` holding byte `b`, or -1 if none.
pub open spec fn find_byte(s: Seq<u8>, b: u8, from: int) -> int
    decreases s.len() - from,
{
    if from < 0 || from >= s.len() {
        -1
    } else if s[from] == b {
        from
    } else {
        find_byte(s, b, from + 1)
    }
}

/// A well-formed integer token body: an optional '-' followed by at least
/// one decimal digit ('-' alone, or a bare '-', is not allowed).
pub open spec fn int_token_ok(digits: Seq<u8>) -> bool {
    if digits.len() == 0 {
        false
    } else if digits[0] == 45 {
        digits.len() > 1 && all_digits(digits.skip(1))
    } else {
        all_digits(digits)
    }
}

/// The signed value of an integer token body.
pub open spec fn int_token_val(digits: Seq<u8>) -> int {
    if digits.len() > 0 && digits[0] == 45 {
        -dec_val(digits.skip(1))
    } else {
        dec_val(digits)
    }
}

/// The value fits in a signed 64-bit integer.
pub open spec fn fits_i64(v: int) -> bool {
    -0x8000000000000000 <= v <= 0x7fffffffffffffff
}

/// Decode an integer value `i<digits>e` at the head of `s` (`s[0]` is 'i').
/// Returns the value and the number of bytes consumed.
pub open spec fn sp_int(s: Seq<u8>) -> Result<(SpecValue, int), ParseError> {
    let e = find_byte(s, 101, 1);
    if e < 0 {
        Err(ParseError::MalformedInteger)
    } else {
        let digits = s.subrange(1, e);
        if int_token_ok(digits) && fits_i64(int_token_val(digits)) {
            Ok((SpecValue::Int(int_token_val(digits)), e + 1))
        } else {
            Err(ParseError::MalformedInteger)
        }
    }
}

/// Decode a byte string `<digits>:<payload>` at the head of `s` (`s[0]` is a
/// digit). Returns the payload bytes and the number of bytes consumed.
pub open spec fn sp_str(s: Seq<u8>) -> Result<(Seq<u8>, int), ParseError> {
    let c = find_byte(s, 58, 0);
    if c < 0 {
        Err(ParseError::UnrecognizedTag)
    } else if !all_digits(s.subrange(0, c)) {
        Err(ParseError::UnrecognizedTag)
    } else {
        let n = dec_val(s.subrange(0, c));
        if c + 1 + n > s.len() {
            Err(ParseError::TruncatedString)
        } else {
            Ok((s.subrange(c + 1, c + 1 + n), c + 1 + n))
        }
    }
}

/// The decoded form of a compact peer list: one map per 6-byte entry, with
/// an "ip" dotted-decimal text entry and a "port" big-endian integer entry.
pub open spec fn peer_entry(q: Seq<u8>) -> SpecValue {
    SpecValue::Dict(
        seq![
            (key_ip(), SpecValue::Bytes(dotted_quad(q))),
            (key_port(), SpecValue::Int(be16_val(q.subrange(4, 6)))),
        ],
    )
}

/// Dotted-decimal text of the first four bytes of a peer entry.
pub open spec fn dotted_quad(q: Seq<u8>) -> Seq<u8> {
    dec_rep(q[0] as nat) + seq![46u8] + dec_rep(q[1] as nat) + seq![46u8] + dec_rep(q[2] as nat)
        + seq![46u8] + dec_rep(q[3] as nat)
}

/// The decoded list of peers from a compact peer blob (length a multiple
/// of 6).
pub open spec fn peer_list(p: Seq<u8>) -> Seq<SpecValue> {
    Seq::new(p.len() / 6, |i: int| peer_entry(p.subrange(6 * i, 6 * i + 6)))
}

/// Decode one bencoded value at the head of `s`: an integer, byte string,
/// list or map, by its leading byte. Returns the value and the number of
/// bytes consumed.
pub open spec fn sp_value(s: Seq<u8>) -> Result<(SpecValue, int), ParseError>
    decreases s.len(), 0int,
{
    if s.len() == 0 {
        Err(ParseError::EmptyInput)
    } else if s[0] == 105 {  // 'i'
        sp_int(s)
    } else if s[0] == 108 {  // 'l'
        match sp_items(s.skip(1)) {
            Ok((items, n)) => Ok((SpecValue::List(items), 1 + n)),
            Err(e) => Err(e),
        }
    } else if s[0] == 100 {  // 'd'
        match sp_entries(s.skip(1), Seq::empty()) {
            Ok((es, n)) => Ok((SpecValue::Dict(es), 1 + n)),
            Err(e) => Err(e),
        }
    } else if is_digit(s[0]) {
        match sp_str(s) {
            Ok((payload, n)) => Ok((SpecValue::Bytes(payload), n)),
            Err(e) => Err(e),
        }
    } else {
        Err(ParseError::UnrecognizedTag)
    }
}

/// Decode list items until a terminating 'e'. Returns the items and the
/// number of bytes consumed, the 'e' included. The bound checks on the
/// consumed count bound the recursion; a successful decode always consumes
/// between one byte and the whole suffix.
pub open spec fn sp_items(s: Seq<u8>) -> Result<(Seq<SpecValue>, int), ParseError>
    decreases s.len(), 1int,
{
    if s.len() == 0 {
        Err(ParseError::UnterminatedList)
    } else if s[0] == 101 {  // 'e'
        Ok((Seq::empty(), 1))
    } else {
        match sp_value(s) {
            Err(e) => Err(e),
            Ok((v, n)) => if 1 <= n <= s.len() {
                match sp_items(s.skip(n)) {
                    Ok((items, m)) => Ok((seq![v] + items, n + m)),
                    Err(e) => Err(e),
                }
            } else {
                Err(ParseError::UnterminatedList)
            },
        }
    }
}

/// Decode map entries until a terminating 'e', accumulating into `acc`.
/// Keys must be byte strings; the keys "info", "pieces" and "peers" receive
/// the special handling described on `bdecode`. Returns the final entries
/// and the number of bytes consumed, the 'e' included.
pub open spec fn sp_entries(s: Seq<u8>, acc: Seq<(Seq<u8>, SpecValue)>) -> Result<
    (Seq<(Seq<u8>, SpecValue)>, int),
    ParseError,
>
    decreases s.len(), 3int,
{
    if s.len() == 0 {
        Err(ParseError::UnterminatedMap)
    } else if s[0] == 101 {  // 'e'
        Ok((acc, 1))
    } else {
        match sp_value(s) {
            Err(e) => Err(e),
            Ok((kv, kn)) => match kv {
                SpecValue::Bytes(k) => if 1 <= kn <= s.len() {
                    sp_entry_value(s, acc, k, kn)
                } else {
                    Err(ParseError::UnterminatedMap)
                },
                _ => Err(ParseError::NonStringKey),
            },
        }
    }
}

/// Decode the value of the entry whose key `k` occupied the first `kn`
/// bytes of `s`, then the remaining entries.
pub open spec fn sp_entry_value(
    s: Seq<u8>,
    acc: Seq<(Seq<u8>, SpecValue)>,
    k: Seq<u8>,
    kn: int,
) -> Result<(Seq<(Seq<u8>, SpecValue)>, int), ParseError>
    decreases s.len(), 2int,
    when 1 <= kn <= s.len()
{
    let rest = s.skip(kn);
    if rest.len() == 0 || rest[0] == 101 {
        // a key with no value
        Err(ParseError::UnterminatedMap)
    } else if k == key_pieces() {
        // the payload is a concatenation of raw digests: store it hex-encoded
        if !is_digit(rest[0]) {
            Err(ParseError::UnrecognizedTag)
        } else {
            match sp_str(rest) {
                Err(e) => Err(e),
                Ok((p, n)) => {
                    let acc1 = map_insert(acc, k, SpecValue::Bytes(hex_of(p)));
                    if 1 <= n <= rest.len() {
                        sp_entries_rest(s, acc1, kn + n)
                    } else {
                        Err(ParseError::UnterminatedMap)
                    }
                },
            }
        }
    } else if k == key_peers() && is_digit(rest[0]) {
        // a compact peer list: decode 6-byte entries into (ip, port) maps
        match sp_str(rest) {
            Err(e) => Err(e),
            Ok((p, n)) => if p.len() % 6 != 0 {
                Err(ParseError::TruncatedString)
            } else {
                let acc1 = map_insert(acc, k, SpecValue::List(peer_list(p)));
                if 1 <= n <= rest.len() {
                    sp_entries_rest(s, acc1, kn + n)
                } else {
                    Err(ParseError::UnterminatedMap)
                }
            },
        }
    } else {
        match sp_value(rest) {
            Err(e) => Err(e),
            Ok((v, n)) => {
                let acc1 = if k == key_info() {
                    // the digest is over the exact encoded bytes of the value
                    map_insert(
                        map_insert(
                            acc,
                            key_info_hash(),
                            SpecValue::Bytes(hex_of(sha1_of(rest.take(n)))),
                        ),
                        k,
                        v,
                    )
                } else {
                    map_insert(acc, k, v)
                };
                if 1 <= n <= rest.len() {
                    sp_entries_rest(s, acc1, kn + n)
                } else {
                    Err(ParseError::UnterminatedMap)
                }
            },
        }
    }
}

/// Continue decoding map entries after `used` bytes of `s`.
pub open spec fn sp_entries_rest(
    s: Seq<u8>,
    acc: Seq<(Seq<u8>, SpecValue)>,
    used: int,
) -> Result<(Seq<(Seq<u8>, SpecValue)>, int), ParseError>
    decreases s.len(), 1int,
    when 1 <= used <= s.len()
{
    match sp_entries(s.skip(used), acc) {
        Ok((es, m)) => Ok((es, used + m)),
        Err(e) => Err(e),
    }
}


// ---------------------------------------------------------------------------
// The executable decoder
// ---------------------------------------------------------------------------

/// Find, in the suffix of `input` starting at `pos`, the first index at or
/// after `rel` (relative to the suffix) holding byte `b`.
fn find_byte_from(input: &Vec<u8>, pos: usize, rel: usize, b: u8) -> (r: Option<usize>)
    requires
        pos + rel <= input.len(),
    ensures
        ({
            let s = input@.skip(pos as int);
            match r {
                Some(i) => rel <= i && pos + i < input.len() && find_byte(s, b, rel as int)
                    == i as int,
                None => find_byte(s, b, rel as int) == -1,
            }
        }),
{
    let ghost s = input@.skip(pos as int);
    let mut j: usize = pos + rel;
    while j < input.len()
        invariant
            pos + rel <= j,
            j <= input.len(),
            s == input@.skip(pos as int),
            pos + rel <= input.len(),
            find_byte(s, b, rel as int) == find_byte(s, b, (j - pos) as int),
        decreases input.len() - j,
    {
        if input[j] == b {
            return Some(j - pos);
        }
        proof {
            assert(s[(j - pos) as int] == input@[j as int]);
        }
        j += 1;
    }
    None
}

/// Check that all bytes of `input` in `[from, to)` are ASCII decimal digits.
fn digits_in_range(input: &Vec<u8>, from: usize, to: usize) -> (r: bool)
    requires
        from <= to <= input.len(),
    ensures
        r == all_digits(input@.subrange(from as int, to as int)),
{
    let ghost d = input@.subrange(from as int, to as int);
    let mut i: usize = from;
    while i < to
        invariant
            from <= i <= to <= input.len(),
            d == input@.subrange(from as int, to as int),
            forall|j: int| 0 <= j < i - from ==> is_digit(#[trigger] d[j]),
        decreases to - i,
    {
        let b = input[i];
        proof {
            assert(d[i - from] == input@[i as int]);
        }
        if !(48 <= b && b <= 57) {
            return false;
        }
        i += 1;
    }
    true
}

/// Copy the bytes of `input` in `[from, to)`.
fn copy_range(input: &Vec<u8>, from: usize, to: usize) -> (r: Vec<u8>)
    requires
        from <= to <= input.len(),
    ensures
        r@ == input@.subrange(from as int, to as int),
{
    let mut r: Vec<u8> = Vec::new();
    let mut i: usize = from;
    while i < to
        invariant
            from <= i <= to <= input.len(),
            r@ == input@.subrange(from as int, i as int),
        decreases to - i,
    {
        r.push(input[i]);
        proof {
            assert(r@ =~= input@.subrange(from as int, i + 1));
        }
        i += 1;
    }
    r
}

/// Parse the decimal digits of `input` in `[from, to)` as a length; `None`
/// means the value does not fit in `usize`.
fn parse_len(input: &Vec<u8>, from: usize, to: usize) -> (r: Option<usize>)
    requires
        from <= to <= input.len(),
        all_digits(input@.subrange(from as int, to as int)),
    ensures
        ({
            let d = input@.subrange(from as int, to as int);
            match r {
                Some(n) => n as int == dec_val(d),
                None => dec_val(d) > usize::MAX,
            }
        }),
{
    let ghost d = input@.subrange(from as int, to as int);
    let mut acc: usize = 0;
    let mut i: usize = from;
    while i < to
        invariant
            from <= i <= to <= input.len(),
            d == input@.subrange(from as int, to as int),
            all_digits(d),
            acc as int == dec_val(d.take(i - from)),
        decreases to - i,
    {
        proof {
            assert(d[i - from] == input@[i as int]);
            assert(is_digit(d[i - from]));
        }
        let dig = (input[i] - 48) as usize;
        if acc > (usize::MAX - dig) / 10 {
            proof {
                let p = d.take(i - from + 1);
                crate::util::lemma_dec_val_push(d.take(i - from), d[i - from]);
                assert(p =~= d.take(i - from).push(d[i - from]));
                assert(dec_val(p) == acc * 10 + dig);
                assert(acc * 10 + dig > usize::MAX) by (nonlinear_arith)
                    requires
                        acc > (usize::MAX - dig) / 10,
                        0 <= dig <= 9,
                        acc >= 0,
                ;
                crate::util::lemma_dec_val_prefix(d, i - from + 1);
            }
            return None;
        }
        proof {
            assert(acc * 10 + dig <= usize::MAX) by (nonlinear_arith)
                requires
                    acc <= (usize::MAX - dig) / 10,
                    0 <= dig <= 9,
                    acc >= 0,
            ;
            let p = d.take(i - from + 1);
            crate::util::lemma_dec_val_push(d.take(i - from), d[i - from]);
            assert(p =~= d.take(i - from).push(d[i - from]));
        }
        acc = acc * 10 + dig;
        i += 1;
    }
    proof {
        assert(d.take(to - from) =~= d);
    }
    Some(acc)
}

/// Parse the bytes of `input` in `[from, to)` as a signed 64-bit integer
/// token; `None` means the token is malformed or out of range.
fn parse_i64_token(input: &Vec<u8>, from: usize, to: usize) -> (r: Option<i64>)
    requires
        from <= to <= input.len(),
    ensures
        ({
            let digits = input@.subrange(from as int, to as int);
            match r {
                Some(v) => int_token_ok(digits) && fits_i64(int_token_val(digits)) && v as int
                    == int_token_val(digits),
                None => !(int_token_ok(digits) && fits_i64(int_token_val(digits))),
            }
        }),
{
    let ghost digits = input@.subrange(from as int, to as int);
    if from == to {
        return None;
    }
    let neg = input[from] == 45;
    proof {
        assert(digits[0] == input@[from as int]);
    }
    let dstart = if neg {
        from + 1
    } else {
        from
    };
    if dstart == to {
        // a bare '-'
        return None;
    }
    let ghost mag_digits = input@.subrange(dstart as int, to as int);
    proof {
        if neg {
            assert(mag_digits =~= digits.skip(1));
        } else {
            assert(mag_digits =~= digits);
        }
    }
    if !digits_in_range(input, dstart, to) {
        return None;
    }
    let mut acc: u64 = 0;
    let mut i: usize = dstart;
    while i < to
        invariant
            from <= dstart <= i <= to <= input.len(),
            digits == input@.subrange(from as int, to as int),
            mag_digits == input@.subrange(dstart as int, to as int),
            neg == (digits.len() > 0 && digits[0] == 45),
            neg ==> dstart == from + 1 && mag_digits == digits.skip(1),
            !neg ==> dstart == from && mag_digits == digits,
            all_digits(mag_digits),
            acc as int == dec_val(mag_digits.take(i - dstart)),
        decreases to - i,
    {
        proof {
            assert(mag_digits[i - dstart] == input@[i as int]);
            assert(is_digit(mag_digits[i - dstart]));
        }
        let dig = (input[i] - 48) as u64;
        if acc > (u64::MAX - dig) / 10 {
            proof {
                let p = mag_digits.take(i - dstart + 1);
                crate::util::lemma_dec_val_push(mag_digits.take(i - dstart), mag_digits[i - dstart]);
                assert(p =~= mag_digits.take(i - dstart).push(mag_digits[i - dstart]));
                assert(acc * 10 + dig > u64::MAX) by (nonlinear_arith)
                    requires
                        acc > (u64::MAX - dig) / 10,
                        0 <= dig <= 9,
                        acc >= 0,
                ;
                crate::util::lemma_dec_val_prefix(mag_digits, i - dstart + 1);
                assert(dec_val(mag_digits) > u64::MAX);
                if neg {
                    assert(digits[0] == 45);
                    assert(int_token_val(digits) == -dec_val(mag_digits));
                    assert(!fits_i64(int_token_val(digits)));
                } else {
                    assert(int_token_val(digits) == dec_val(mag_digits));
                    assert(!fits_i64(int_token_val(digits)));
                }
            }
            return None;
        }
        proof {
            assert(acc * 10 + dig <= u64::MAX) by (nonlinear_arith)
                requires
                    acc <= (u64::MAX - dig) / 10,
                    0 <= dig <= 9,
                    acc >= 0,
            ;
            let p = mag_digits.take(i - dstart + 1);
            crate::util::lemma_dec_val_push(mag_digits.take(i - dstart), mag_digits[i - dstart]);
            assert(p =~= mag_digits.take(i - dstart).push(mag_digits[i - dstart]));
        }
        acc = acc * 10 + dig;
        i += 1;
    }
    proof {
        assert(mag_digits.take(to - dstart) =~= mag_digits);
        assert(acc as int == dec_val(mag_digits));
    }
    if neg {
        if acc > 0x8000000000000000 {
            return None;
        }
        if acc == 0x8000000000000000 {
            return Some(i64::MIN);
        }
        Some(-(acc as i64))
    } else {
        if acc > 0x7fffffffffffffff {
            return None;
        }
        Some(acc as i64)
    }
}

/// Decode the integer value at `pos` (`input[pos]` is 'i').
fn d_int(input: &Vec<u8>, pos: usize) -> (r: Result<(Value, usize), ParseError>)
    requires
        pos < input.len(),
        input@[pos as int] == 105,
    ensures
        ({
            let s = input@.skip(pos as int);
            match r {
                Ok((v, n)) => 1 <= n && pos + n <= input.len() && sp_int(s) == Ok::<
                    _,
                    ParseError,
                >((v.model(), n as int)),
                Err(e) => sp_int(s) == Err::<(SpecValue, int), ParseError>(e),
            }
        }),
{
    let ghost s = input@.skip(pos as int);
    match find_byte_from(input, pos, 1, 101) {
        None => Err(ParseError::MalformedInteger),
        Some(e_rel) => {
            proof {
                assert(s.subrange(1, e_rel as int) =~= input@.subrange(
                    pos + 1,
                    (pos + e_rel) as int,
                ));
            }
            match parse_i64_token(input, pos + 1, pos + e_rel) {
                None => Err(ParseError::MalformedInteger),
                Some(v) => Ok((Value::Integer(v), e_rel + 1)),
            }
        },
    }
}

/// Decode the byte string at `pos` (`input[pos]` is a digit). Returns the
/// payload and the number of bytes consumed.
fn d_str(input: &Vec<u8>, pos: usize) -> (r: Result<(Vec<u8>, usize), ParseError>)
    requires
        pos < input.len(),
        is_digit(input@[pos as int]),
    ensures
        ({
            let s = input@.skip(pos as int);
            match r {
                Ok((p, n)) => 1 <= n && pos + n <= input.len() && sp_str(s) == Ok::<
                    _,
                    ParseError,
                >((p@, n as int)),
                Err(e) => sp_str(s) == Err::<(Seq<u8>, int), ParseError>(e),
            }
        }),
{
    let ghost s = input@.skip(pos as int);
    match find_byte_from(input, pos, 0, 58) {
        None => Err(ParseError::UnrecognizedTag),
        Some(c) => {
            proof {
                assert(s.subrange(0, c as int) =~= input@.subrange(pos as int, (pos + c) as int));
            }
            if !digits_in_range(input, pos, pos + c) {
                return Err(ParseError::UnrecognizedTag);
            }
            match parse_len(input, pos, pos + c) {
                None => {
                    proof {
                        assert(dec_val(s.subrange(0, c as int)) > usize::MAX >= s.len());
                    }
                    Err(ParseError::TruncatedString)
                },
                Some(n) => {
                    if n > input.len() - (pos + c + 1) {
                        return Err(ParseError::TruncatedString);
                    }
                    let payload = copy_range(input, pos + c + 1, pos + c + 1 + n);
                    proof {
                        assert(s.subrange(c + 1, c + 1 + n) =~= input@.subrange(
                            pos + c + 1,
                            pos + c + 1 + n,
                        ));
                    }
                    Ok((payload, c + 1 + n))
                },
            }
        },
    }
}


/// Build the decoded peer values from a compact peer blob.
fn build_peer_values(p: &Vec<u8>) -> (r: Vec<Value>)
    requires
        p@.len() % 6 == 0,
    ensures
        values_view(r@) == peer_list(p@),
{
    let mut r: Vec<Value> = Vec::new();
    let plen = p.len();
    let count = plen / 6;
    let mut i: usize = 0;
    while i < count
        invariant
            plen == p@.len(),
            p@.len() % 6 == 0,
            count == p@.len() / 6,
            i <= count,
            r@.len() == i,
            forall|j: int| 0 <= j < i ==> values_view(r@)[j] == peer_list(p@)[j],
        decreases count - i,
    {
        proof {
            assert(i * 6 + 6 <= count * 6 <= plen) by (nonlinear_arith)
                requires
                    i < count,
                    count == plen / 6,
                    plen % 6 == 0,
                    plen == p@.len(),
            ;
        }
        let base = i * 6;
        let ghost q = p@.subrange(base as int, base + 6);
        let mut ip: Vec<u8> = Vec::new();
        let mut d0 = crate::util::u64_to_dec(p[base] as u64);
        ip.append(&mut d0);
        ip.push(46);
        let mut d1 = crate::util::u64_to_dec(p[base + 1] as u64);
        ip.append(&mut d1);
        ip.push(46);
        let mut d2 = crate::util::u64_to_dec(p[base + 2] as u64);
        ip.append(&mut d2);
        ip.push(46);
        let mut d3 = crate::util::u64_to_dec(p[base + 3] as u64);
        ip.append(&mut d3);
        proof {
            assert(q[0] == p@[base as int] && q[1] == p@[base + 1] && q[2] == p@[base + 2] && q[3]
                == p@[base + 3]);
            assert(ip@ =~= dotted_quad(q));
        }
        let port = crate::util::be_to_u16(p[base + 4], p[base + 5]);
        let mut entry: Vec<(Vec<u8>, Value)> = Vec::new();
        entry.push((key_ip_vec(), Value::Bytes(ip)));
        entry.push((key_port_vec(), Value::Integer(port as i64)));
        let ghost prev = r@;
        r.push(Value::Dict(entry));
        proof {
            assert(q.subrange(4, 6) =~= seq![p@[base + 4], p@[base + 5]]);
            assert(entries_view(entry@) =~= seq![
                (key_ip(), SpecValue::Bytes(dotted_quad(q))),
                (key_port(), SpecValue::Int(be16_val(q.subrange(4, 6)))),
            ]);
            assert(Value::Dict(entry).model() == peer_entry(q));
            assert(forall|j: int| 0 <= j < i ==> values_view(r@)[j] == values_view(prev)[j]);
            assert(values_view(r@)[i as int] == peer_entry(q));
            assert(peer_list(p@)[i as int] == peer_entry(p@.subrange(6 * i, 6 * i + 6)));
            assert(p@.subrange(6 * i, 6 * i + 6) == q);
        }
        i += 1;
    }
    proof {
        assert(values_view(r@).len() == peer_list(p@).len());
        assert(values_view(r@) =~= peer_list(p@));
    }
    r
}

/// Decode one bencoded value at `pos`.
fn d_value(input: &Vec<u8>, pos: usize) -> (r: Result<(Value, usize), ParseError>)
    requires
        pos <= input.len(),
    ensures
        ({
            let s = input@.skip(pos as int);
            match r {
                Ok((v, n)) => 1 <= n && pos + n <= input.len() && sp_value(s) == Ok::<
                    _,
                    ParseError,
                >((v.model(), n as int)),
                Err(e) => sp_value(s) == Err::<(SpecValue, int), ParseError>(e),
            }
        }),
    decreases input.len() - pos, 0int,
{
    let ghost s = input@.skip(pos as int);
    if pos == input.len() {
        return Err(ParseError::EmptyInput);
    }
    let b0 = input[pos];
    proof {
        assert(s[0] == input@[pos as int]);
    }
    if b0 == 105 {
        d_int(input, pos)
    } else if b0 == 108 {
        proof {
            assert(input@.skip(pos + 1) =~= s.skip(1));
        }
        match d_items(input, pos + 1) {
            Ok((items, n)) => Ok((Value::List(items), 1 + n)),
            Err(e) => Err(e),
        }
    } else if b0 == 100 {
        let acc: Vec<(Vec<u8>, Value)> = Vec::new();
        proof {
            assert(input@.skip(pos + 1) =~= s.skip(1));
            assert(entries_view(acc@) =~= Seq::<(Seq<u8>, SpecValue)>::empty());
        }
        match d_entries(input, pos + 1, acc) {
            Ok((es, n)) => Ok((Value::Dict(es), 1 + n)),
            Err(e) => Err(e),
        }
    } else if 48 <= b0 && b0 <= 57 {
        match d_str(input, pos) {
            Ok((p, n)) => Ok((Value::Bytes(p), n)),
            Err(e) => Err(e),
        }
    } else {
        Err(ParseError::UnrecognizedTag)
    }
}

/// Decode list items at `pos` until the terminating 'e'.
fn d_items(input: &Vec<u8>, pos: usize) -> (r: Result<(Vec<Value>, usize), ParseError>)
    requires
        pos <= input.len(),
    ensures
        ({
            let s = input@.skip(pos as int);
            match r {
                Ok((items, n)) => 1 <= n && pos + n <= input.len() && sp_items(s) == Ok::<
                    _,
                    ParseError,
                >((values_view(items@), n as int)),
                Err(e) => sp_items(s) == Err::<(Seq<SpecValue>, int), ParseError>(e),
            }
        }),
    decreases input.len() - pos, 1int,
{
    let ghost s = input@.skip(pos as int);
    if pos == input.len() {
        return Err(ParseError::UnterminatedList);
    }
    proof {
        assert(s[0] == input@[pos as int]);
    }
    if input[pos] == 101 {
        let items: Vec<Value> = Vec::new();
        proof {
            assert(values_view(items@) =~= Seq::<SpecValue>::empty());
        }
        return Ok((items, 1));
    }
    match d_value(input, pos) {
        Err(e) => Err(e),
        Ok((v, n)) => {
            proof {
                assert(input@.skip(pos + n) =~= s.skip(n as int));
            }
            match d_items(input, pos + n) {
                Err(e) => Err(e),
                Ok((mut items, m)) => {
                    let ghost pre = items@;
                    items.insert(0, v);
                    proof {
                        assert(items@ =~= seq![v] + pre);
                        assert(values_view(items@) =~= seq![v.model()] + values_view(pre));
                    }
                    Ok((items, n + m))
                },
            }
        },
    }
}

/// Decode map entries at `pos` until the terminating 'e', accumulating into
/// `acc`.
fn d_entries(input: &Vec<u8>, pos: usize, acc: Vec<(Vec<u8>, Value)>) -> (r: Result<
    (Vec<(Vec<u8>, Value)>, usize),
    ParseError,
>)
    requires
        pos <= input.len(),
    ensures
        ({
            let s = input@.skip(pos as int);
            match r {
                Ok((es, n)) => 1 <= n && pos + n <= input.len() && sp_entries(
                    s,
                    entries_view(acc@),
                ) == Ok::<_, ParseError>((entries_view(es@), n as int)),
                Err(e) => sp_entries(s, entries_view(acc@)) == Err::<
                    (Seq<(Seq<u8>, SpecValue)>, int),
                    ParseError,
                >(e),
            }
        }),
    decreases input.len() - pos, 3int,
{
    let ghost s = input@.skip(pos as int);
    if pos == input.len() {
        return Err(ParseError::UnterminatedMap);
    }
    proof {
        assert(s[0] == input@[pos as int]);
    }
    if input[pos] == 101 {
        return Ok((acc, 1));
    }
    match d_value(input, pos) {
        Err(e) => Err(e),
        Ok((kv, kn)) => match kv {
            Value::Bytes(k) => d_entry_value(input, pos, acc, k, kn),
            Value::Integer(x) => Err(ParseError::NonStringKey),
            Value::List(x) => Err(ParseError::NonStringKey),
            Value::Dict(x) => Err(ParseError::NonStringKey),
        },
    }
}

/// Decode the value of the map entry whose key `k` occupied the first `kn`
/// bytes at `pos`, then the remaining entries.
#[verifier::rlimit(60)]
fn d_entry_value(
    input: &Vec<u8>,
    pos: usize,
    acc: Vec<(Vec<u8>, Value)>,
    k: Vec<u8>,
    kn: usize,
) -> (r: Result<(Vec<(Vec<u8>, Value)>, usize), ParseError>)
    requires
        pos <= input.len(),
        1 <= kn,
        pos + kn <= input.len(),
    ensures
        ({
            let s = input@.skip(pos as int);
            match r {
                Ok((es, n)) => 1 <= n && pos + n <= input.len() && sp_entry_value(
                    s,
                    entries_view(acc@),
                    k@,
                    kn as int,
                ) == Ok::<_, ParseError>((entries_view(es@), n as int)),
                Err(e) => sp_entry_value(s, entries_view(acc@), k@, kn as int) == Err::<
                    (Seq<(Seq<u8>, SpecValue)>, int),
                    ParseError,
                >(e),
            }
        }),
    decreases input.len() - pos, 2int,
{
    let ghost s = input@.skip(pos as int);
    let ghost acc0 = entries_view(acc@);
    let vpos = pos + kn;
    let ghost rest = s.skip(kn as int);
    proof {
        assert(rest =~= input@.skip(vpos as int));
    }
    if vpos == input.len() {
        return Err(ParseError::UnterminatedMap);
    }
    let b0 = input[vpos];
    proof {
        assert(rest[0] == input@[vpos as int]);
    }
    if b0 == 101 {
        return Err(ParseError::UnterminatedMap);
    }
    let pieces_key = key_pieces_vec();
    let peers_key = key_peers_vec();
    if crate::util::bytes_eq(&k, &pieces_key) {
        if !(48 <= b0 && b0 <= 57) {
            return Err(ParseError::UnrecognizedTag);
        }
        match d_str(input, vpos) {
            Err(e) => Err(e),
            Ok((p, n)) => {
                let hexed = crate::hexcode::hex_encode(&p);
                let ghost k_view = k@;
                let mut acc1 = acc;
                entries_insert(&mut acc1, k, Value::Bytes(hexed));
                proof {
                    assert(entries_view(acc1@) == map_insert(
                        acc0,
                        k_view,
                        SpecValue::Bytes(hex_of(p@)),
                    ));
                    assert(input@.skip(vpos + n) =~= s.skip(kn + n));
                }
                match d_entries(input, vpos + n, acc1) {
                    Err(e) => Err(e),
                    Ok((es, m)) => Ok((es, kn + n + m)),
                }
            },
        }
    } else if crate::util::bytes_eq(&k, &peers_key) && 48 <= b0 && b0 <= 57 {
        match d_str(input, vpos) {
            Err(e) => Err(e),
            Ok((p, n)) => {
                if p.len() % 6 != 0 {
                    return Err(ParseError::TruncatedString);
                }
                let peers = build_peer_values(&p);
                let ghost k_view = k@;
                let mut acc1 = acc;
                entries_insert(&mut acc1, k, Value::List(peers));
                proof {
                    assert(entries_view(acc1@) == map_insert(
                        acc0,
                        k_view,
                        SpecValue::List(peer_list(p@)),
                    ));
                    assert(input@.skip(vpos + n) =~= s.skip(kn + n));
                }
                match d_entries(input, vpos + n, acc1) {
                    Err(e) => Err(e),
                    Ok((es, m)) => Ok((es, kn + n + m)),
                }
            },
        }
    } else {
        match d_value(input, vpos) {
            Err(e) => Err(e),
            Ok((v, n)) => {
                let info_key = key_info_vec();
                let ghost k_view = k@;
                let mut acc1 = acc;
                if crate::util::bytes_eq(&k, &info_key) {
                    let span = copy_range(input, vpos, vpos + n);
                    proof {
                        assert(span@ =~= rest.take(n as int));
                    }
                    let digest = crate::digest::sha1_digest(&span);
                    let hexd = crate::hexcode::hex_encode(&digest);
                    entries_insert(&mut acc1, key_info_hash_vec(), Value::Bytes(hexd));
                    entries_insert(&mut acc1, k, v);
                    proof {
                        assert(entries_view(acc1@) == map_insert(
                            map_insert(
                                acc0,
                                key_info_hash(),
                                SpecValue::Bytes(hex_of(sha1_of(rest.take(n as int)))),
                            ),
                            k_view,
                            v.model(),
                        ));
                    }
                } else {
                    entries_insert(&mut acc1, k, v);
                }
                proof {
                    assert(input@.skip(vpos + n) =~= s.skip(kn + n));
                }
                match d_entries(input, vpos + n, acc1) {
                    Err(e) => Err(e),
                    Ok((es, m)) => Ok((es, kn + n + m)),
                }
            },
        }
    }
}

/// Decode the outermost bencoded value of `input`. On success, returns the
/// value and the number of bytes consumed, which the caller may compare to
/// the input length to detect unconsumed trailing bytes.
///
/// The keys "info", "pieces" and "peers" in maps receive the special
/// handling that torrent metadata requires: the value under "info" is also
/// recorded, hex-encoded, under the synthetic key "info hash" as the SHA-1
/// digest of its exact encoded byte span; the byte-string value under
/// "pieces" is stored hex-encoded; a byte-string value under "peers" is
/// decoded as a compact peer list into maps of "ip" and "port".
pub fn bdecode(input: &Vec<u8>) -> (r: Result<(Value, usize), ParseError>)
    ensures
        ({
            match r {
                Ok((v, used)) => 1 <= used <= input.len() && sp_value(input@) == Ok::<
                    _,
                    ParseError,
                >((v.model(), used as int)),
                Err(e) => sp_value(input@) == Err::<(SpecValue, int), ParseError>(e),
            }
        }),
{
    proof {
        assert(input@.skip(0) =~= input@);
    }
    d_value(input, 0)
}

} // verus!
