use vstd::prelude::*;

use crate::hexcode::{all_hex_digits, hex_val};
use crate::util::{all_ascii, ascii_chars, dec_rep};
use crate::value::{
    entries_view, key_announce, key_announce_vec, key_info, key_info_hash, key_info_hash_vec,
    key_info_vec, key_length, key_length_vec, key_piece_length, key_piece_length_vec, key_pieces,
    key_pieces_vec, map_find, SpecValue, Value,
};

verus! {

broadcast use vstd::std_specs::vec::group_vec_axioms;

// ---------------------------------------------------------------------------
// Schema errors
// ---------------------------------------------------------------------------

/// The first missing or mistyped field found while reading a torrent
/// descriptor out of a decoded value.
#[derive(Debug, Clone, Copy, PartialEq, Eq, Structural)]
pub enum SchemaError {
    /// The root value is not a map.
    Root,
    /// "announce" is missing, not a byte string, or not ASCII text.
    Announce,
    /// "info hash" is missing or not a 40-byte hex string.
    InfoHash,
    /// "info" is missing or not a map.
    Info,
    /// "info"."length" is missing, not an integer, or negative.
    Length,
    /// "info"."piece length" is missing, not an integer, or not positive.
    PieceLength,
    /// "info"."pieces" is missing or not an ASCII byte string.
    Pieces,
    /// A tracker response has no well-shaped "peers" list.
    Peers,
}

// ---------------------------------------------------------------------------
// The content digest in hex form
// ---------------------------------------------------------------------------

/// The 160-bit content digest, held as 40 ASCII hex digits.
#[derive(Debug)]
pub struct InfoHash {
    val: Vec<u8>,
}

impl InfoHash {
    /// The hex text of the digest.
    pub closed spec fn text(&self) -> Seq<u8> {
        self.val@
    }

    /// Well-formed: exactly 40 ASCII hex digits.
    pub open spec fn wf(&self) -> bool {
        self.text().len() == 40 && all_hex_digits(self.text())
    }

    /// Wrap 40 ASCII hex digits as a digest; `None` if the text is not
    /// exactly that.
    pub fn from_text(val: Vec<u8>) -> (r: Option<InfoHash>)
        ensures
            match r {
                Some(h) => h.text() == val@ && h.wf(),
                None => !(val@.len() == 40 && all_hex_digits(val@)),
            },
    {
        if val.len() == 40 && crate::hexcode::check_all_hex(&val) {
            Some(InfoHash { val })
        } else {
            None
        }
    }

    /// The digest percent-encoded for a URL: '%' before each hex pair.
    pub fn to_url(&self) -> (r: String)
        requires
            self.wf(),
        ensures
            r@ == ascii_chars(percent_pairs(self.text())),
    {
        let mut out: Vec<u8> = Vec::new();
        let mut i: usize = 0;
        while i + 1 < self.val.len()
            invariant
                i % 2 == 0,
                i <= self.val@.len(),
                self.val@.len() % 2 == 0,
                out@ == percent_pairs(self.val@.take(i as int)),
            decreases self.val.len() - i,
        {
            out.push(37);
            out.push(self.val[i]);
            out.push(self.val[i + 1]);
            proof {
                let t = self.val@.take(i + 2);
                assert(t.drop_last().drop_last() =~= self.val@.take(i as int));
                assert(t[t.len() - 2] == self.val@[i as int]);
                assert(t[t.len() - 1] == self.val@[i + 1]);
                assert(out@ =~= percent_pairs(t));
            }
            i += 2;
        }
        proof {
            assert(i == self.val@.len());
            assert(self.val@.take(self.val@.len() as int) =~= self.val@);
            lemma_percent_pairs_ascii(self.val@);
        }
        crate::util::ascii_string(&out)
    }

    /// The raw 20 digest bytes, decoded from the hex text.
    pub fn to_hex(&self) -> (r: Vec<u8>)
        requires
            self.wf(),
        ensures
            r@ == hex_val(self.text()),
            r@.len() == 20,
    {
        crate::hexcode::hex_decode(&self.val)
    }

    /// Borrow the hex text bytes of the digest.
    pub fn text_bytes(&self) -> (r: &Vec<u8>)
        ensures
            r@ == self.text(),
    {
        &self.val
    }

    /// Wrap hex text bytes as a digest without checking them.
    pub fn from_raw(val: Vec<u8>) -> (r: InfoHash)
        ensures
            r.text() == val@,
    {
        InfoHash { val }
    }

    /// The hex text as a string.
    pub fn as_text(&self) -> (r: String)
        requires
            self.wf(),
        ensures
            r@ == ascii_chars(self.text()),
    {
        proof {
            assert forall|i: int| 0 <= i < self.val@.len() implies #[trigger] self.val@[i]
                < 128 by {
                assert(crate::hexcode::is_hex_digit(self.val@[i]));
            }
        }
        crate::util::ascii_string(&self.val)
    }
}

/// '%' before each pair of hex digits, over the whole even-length text.
pub open spec fn percent_pairs(s: Seq<u8>) -> Seq<u8>
    decreases s.len(),
{
    if s.len() < 2 {
        Seq::empty()
    } else {
        percent_pairs(s.drop_last().drop_last()) + seq![
            37u8,
            s[s.len() - 2],
            s[s.len() - 1],
        ]
    }
}

/// Percent-encoded hex text is ASCII.
proof fn lemma_percent_pairs_ascii(s: Seq<u8>)
    requires
        all_hex_digits(s),
    ensures
        all_ascii(percent_pairs(s)),
    decreases s.len(),
{
    if s.len() >= 2 {
        assert(all_hex_digits(s.drop_last().drop_last()));
        lemma_percent_pairs_ascii(s.drop_last().drop_last());
        assert(crate::hexcode::is_hex_digit(s[s.len() - 2]));
        assert(crate::hexcode::is_hex_digit(s[s.len() - 1]));
    }
}

// ---------------------------------------------------------------------------
// The torrent descriptor
// ---------------------------------------------------------------------------

/// An immutable view over a decoded torrent metadata map: tracker URL,
/// total length, content digest, piece length, concatenated piece digests
/// (hex text), and the session's fixed local peer identifier.
#[derive(Debug)]
pub struct Torrent {
    pub url: String,
    pub length: usize,
    pub info_hash: InfoHash,
    pub piece_length: usize,
    pub piece_hashes: String,
    pub peer_id: Vec<u8>,
}

/// The fixed 20-byte local peer identifier ("00112233445566778899").
pub open spec fn local_peer_id() -> Seq<u8> {
    seq![
        48u8, 48u8, 49u8, 49u8, 50u8, 50u8, 51u8, 51u8, 52u8, 52u8, 53u8, 53u8, 54u8, 54u8, 55u8,
        55u8, 56u8, 56u8, 57u8, 57u8,
    ]
}

/// Build the fixed local peer identifier.
pub fn local_peer_id_vec() -> (r: Vec<u8>)
    ensures
        r@ == local_peer_id(),
{
    let mut v: Vec<u8> = Vec::new();
    let mut d: u8 = 48;
    while d < 58
        invariant
            48 <= d <= 58,
            v@.len() == 2 * (d - 48),
            forall|i: int| 0 <= i < v@.len() ==> #[trigger] v@[i] == 48 + i / 2,
        decreases 58 - d,
    {
        v.push(d);
        v.push(d);
        d += 1;
    }
    proof {
        assert(v@ =~= local_peer_id());
    }
    v
}

/// What it means for a torrent descriptor to be read from the model of a
/// decoded value: each field checked and converted as described on
/// `Torrent::new`.
pub open spec fn torrent_err(m: SpecValue) -> Option<SchemaError> {
    match m {
        SpecValue::Dict(es) => {
            if !(match map_find(es, key_announce()) {
                Some(SpecValue::Bytes(u)) => all_ascii(u),
                _ => false,
            }) {
                Some(SchemaError::Announce)
            } else if !(match map_find(es, key_info_hash()) {
                Some(SpecValue::Bytes(h)) => h.len() == 40 && all_hex_digits(h),
                _ => false,
            }) {
                Some(SchemaError::InfoHash)
            } else {
                match map_find(es, key_info()) {
                    Some(SpecValue::Dict(ies)) => {
                        if !(match map_find(ies, key_length()) {
                            Some(SpecValue::Int(l)) => 0 <= l <= usize::MAX,
                            _ => false,
                        }) {
                            Some(SchemaError::Length)
                        } else if !(match map_find(ies, key_piece_length()) {
                            Some(SpecValue::Int(p)) => 0 < p <= usize::MAX,
                            _ => false,
                        }) {
                            Some(SchemaError::PieceLength)
                        } else if !(match map_find(ies, key_pieces()) {
                            Some(SpecValue::Bytes(ph)) => all_ascii(ph),
                            _ => false,
                        }) {
                            Some(SchemaError::Pieces)
                        } else {
                            None
                        }
                    },
                    _ => Some(SchemaError::Info),
                }
            }
        },
        _ => Some(SchemaError::Root),
    }
}

/// The descriptor `t` holds exactly the fields of the model `m`.
pub open spec fn torrent_matches(m: SpecValue, t: Torrent) -> bool {
    match m {
        SpecValue::Dict(es) => {
            &&& (match map_find(es, key_announce()) {
                Some(SpecValue::Bytes(u)) => t.url@ == ascii_chars(u),
                _ => false,
            })
            &&& (match map_find(es, key_info_hash()) {
                Some(SpecValue::Bytes(h)) => t.info_hash.text() == h,
                _ => false,
            })
            &&& (match map_find(es, key_info()) {
                Some(SpecValue::Dict(ies)) => {
                    &&& (match map_find(ies, key_length()) {
                        Some(SpecValue::Int(l)) => t.length == l,
                        _ => false,
                    })
                    &&& (match map_find(ies, key_piece_length()) {
                        Some(SpecValue::Int(p)) => t.piece_length == p,
                        _ => false,
                    })
                    &&& (match map_find(ies, key_pieces()) {
                        Some(SpecValue::Bytes(ph)) => t.piece_hashes@ == ascii_chars(ph),
                        _ => false,
                    })
                },
                _ => false,
            })
            &&& t.peer_id@ == local_peer_id()
        },
        _ => false,
    }
}

impl Torrent {
    /// Well-formed: the digest is 40 hex digits, the piece length positive,
    /// and the peer identifier 20 bytes.
    pub open spec fn wf(&self) -> bool {
        self.info_hash.wf() && self.piece_length > 0 && self.peer_id@.len() == 20
    }

    /// Read a torrent descriptor out of a decoded metadata value. The root
    /// must be a map holding "announce" (ASCII text), "info hash" (40 hex
    /// digits, as the decoder stores it) and an "info" map with "length"
    /// (non-negative integer), "piece length" (positive integer) and
    /// "pieces" (the hex text the decoder stores). The first missing or
    /// mistyped field is reported as a `SchemaError`.
    pub fn new(decoded_value: &Value) -> (r: Result<Torrent, SchemaError>)
        ensures
            match r {
                Ok(t) => torrent_err(decoded_value.model()) is None && torrent_matches(
                    decoded_value.model(),
                    t,
                ) && t.wf(),
                Err(e) => torrent_err(decoded_value.model()) == Some(e),
            },
    {
        let es = match decoded_value {
            Value::Dict(es) => es,
            _ => {
                return Err(SchemaError::Root);
            },
        };
        let url = match entries_find(es, &key_announce_vec()) {
            Some(Value::Bytes(u)) => {
                if !check_all_ascii(u) {
                    return Err(SchemaError::Announce);
                }
                crate::util::ascii_string(u)
            },
            _ => {
                return Err(SchemaError::Announce);
            },
        };
        let info_hash = match entries_find(es, &key_info_hash_vec()) {
            Some(Value::Bytes(h)) => {
                let mut hv: Vec<u8> = Vec::new();
                let mut i: usize = 0;
                while i < h.len()
                    invariant
                        i <= h@.len(),
                        hv@ == h@.take(i as int),
                    decreases h.len() - i,
                {
                    hv.push(h[i]);
                    proof {
                        assert(hv@ =~= h@.take(i + 1));
                    }
                    i += 1;
                }
                proof {
                    assert(h@.take(h@.len() as int) =~= h@);
                }
                match InfoHash::from_text(hv) {
                    Some(ih) => ih,
                    None => {
                        return Err(SchemaError::InfoHash);
                    },
                }
            },
            _ => {
                return Err(SchemaError::InfoHash);
            },
        };
        let ies = match entries_find(es, &key_info_vec()) {
            Some(Value::Dict(ies)) => ies,
            _ => {
                return Err(SchemaError::Info);
            },
        };
        let length: usize = match entries_find(ies, &key_length_vec()) {
            Some(Value::Integer(l)) => {
                let l = *l;
                if l < 0 {
                    return Err(SchemaError::Length);
                }
                if l as u64 > usize::MAX as u64 {
                    return Err(SchemaError::Length);
                }
                l as usize
            },
            _ => {
                return Err(SchemaError::Length);
            },
        };
        let piece_length: usize = match entries_find(ies, &key_piece_length_vec()) {
            Some(Value::Integer(p)) => {
                let p = *p;
                if p <= 0 {
                    return Err(SchemaError::PieceLength);
                }
                if p as u64 > usize::MAX as u64 {
                    return Err(SchemaError::PieceLength);
                }
                p as usize
            },
            _ => {
                return Err(SchemaError::PieceLength);
            },
        };
        let piece_hashes = match entries_find(ies, &key_pieces_vec()) {
            Some(Value::Bytes(ph)) => {
                if !check_all_ascii(ph) {
                    return Err(SchemaError::Pieces);
                }
                crate::util::ascii_string(ph)
            },
            _ => {
                return Err(SchemaError::Pieces);
            },
        };
        Ok(
            Torrent {
                url,
                length,
                info_hash,
                piece_length,
                piece_hashes,
                peer_id: local_peer_id_vec(),
            },
        )
    }
}

/// Find the value of the first entry with the given key.
pub fn entries_find<'a>(es: &'a Vec<(Vec<u8>, Value)>, k: &Vec<u8>) -> (r: Option<&'a Value>)
    ensures
        match r {
            Some(v) => map_find(entries_view(es@), k@) == Some(v.model()),
            None => map_find(entries_view(es@), k@) is None,
        },
{
    let mut i: usize = 0;
    while i < es.len()
        invariant
            i <= es@.len(),
            forall|j: int| 0 <= j < i ==> (#[trigger] es@[j]).0@ != k@,
        decreases es.len() - i,
    {
        if crate::util::bytes_eq(&es[i].0, k) {
            proof {
                lemma_map_find_at(entries_view(es@), k@, i as int);
            }
            return Some(&es[i].1);
        }
        i += 1;
    }
    proof {
        lemma_map_find_none(entries_view(es@), k@);
    }
    None
}

/// When the first match is at index `i`, `map_find` returns that value.
proof fn lemma_map_find_at(es: Seq<(Seq<u8>, SpecValue)>, k: Seq<u8>, i: int)
    requires
        0 <= i < es.len(),
        es[i].0 == k,
        forall|j: int| 0 <= j < i ==> (#[trigger] es[j]).0 != k,
    ensures
        map_find(es, k) == Some(es[i].1),
    decreases i,
{
    if i > 0 {
        lemma_map_find_at(es.drop_first(), k, i - 1);
    }
}

/// When no key matches, `map_find` returns nothing.
proof fn lemma_map_find_none(es: Seq<(Seq<u8>, SpecValue)>, k: Seq<u8>)
    requires
        forall|j: int| 0 <= j < es.len() ==> (#[trigger] es[j]).0 != k,
    ensures
        map_find(es, k) is None,
    decreases es.len(),
{
    if es.len() > 0 {
        lemma_map_find_none(es.drop_first(), k);
    }
}

/// Check that a byte vector is 7-bit ASCII.
pub fn check_all_ascii(bytes: &Vec<u8>) -> (r: bool)
    ensures
        r == all_ascii(bytes@),
{
    let mut i: usize = 0;
    while i < bytes.len()
        invariant
            i <= bytes@.len(),
            forall|j: int| 0 <= j < i ==> #[trigger] bytes@[j] < 128,
        decreases bytes.len() - i,
    {
        if bytes[i] >= 128 {
            return false;
        }
        i += 1;
    }
    true
}


// ---------------------------------------------------------------------------
// The tracker request URL
// ---------------------------------------------------------------------------

/// A character that form-urlencoding passes through unchanged: ASCII
/// alphanumeric or one of '*', '-', '.', '_'.
pub open spec fn unreserved_char(c: char) -> bool {
    let u = c as u32;
    (48 <= u && u <= 57) || (97 <= u && u <= 122) || (65 <= u && u <= 90) || u == 42 || u == 45
        || u == 46 || u == 95
}

/// Every character of the text is unreserved.
pub open spec fn unreserved_chars(s: Seq<char>) -> bool {
    forall|i: int| 0 <= i < s.len() ==> unreserved_char(#[trigger] s[i])
}

/// Every key and value of the pairs is unreserved.
pub open spec fn all_unreserved(ps: Seq<(Seq<char>, Seq<char>)>) -> bool {
    forall|i: int|
        0 <= i < ps.len() ==> unreserved_chars((#[trigger] ps[i]).0) && unreserved_chars(ps[i].1)
}

/// The character views of a vector of string pairs.
pub open spec fn pairs_view(ps: Seq<(String, String)>) -> Seq<(Seq<char>, Seq<char>)> {
    Seq::new(ps.len(), |i: int| (ps[i].0@, ps[i].1@))
}

/// The pairs joined as k=v with '&' between pairs.
pub open spec fn pairs_joined(ps: Seq<(Seq<char>, Seq<char>)>) -> Seq<char>
    decreases ps.len(),
{
    if ps.len() == 0 {
        Seq::empty()
    } else if ps.len() == 1 {
        ps.last().0 + seq!['='] + ps.last().1
    } else {
        pairs_joined(ps.drop_last()) + seq!['&'] + ps.last().0 + seq!['='] + ps.last().1
    }
}

/// Relies on serde_urlencoded::to_string (through form_urlencoded): a
/// sequence of string pairs serializes as k=v joined with '&', and ASCII
/// alphanumeric bytes and '*', '-', '.', '_' pass through unchanged.
#[verifier::external_body]
fn urlencode_pairs(pairs: &Vec<(String, String)>) -> (r: Option<String>)
    ensures
        match r {
            Some(s) => all_unreserved(pairs_view(pairs@)) ==> s@ == pairs_joined(
                pairs_view(pairs@),
            ),
            None => !all_unreserved(pairs_view(pairs@)),
        },
{
    match serde_urlencoded::to_string(pairs) {
        Ok(s) => Some(s),
        Err(_) => None,
    }
}

/// The fixed tracker query parameters, with `left` set to the piece length.
pub open spec fn tracker_params(piece_len: nat) -> Seq<(Seq<char>, Seq<char>)> {
    seq![
        ("uploaded"@, "0"@),
        ("downloaded"@, "0"@),
        ("compact"@, "1"@),
        ("left"@, ascii_chars(dec_rep(piece_len))),
        ("peer_id"@, "00112233445566778899"@),
        ("port"@, "6881"@),
    ]
}

/// The full tracker request URL of a descriptor: the announce URL, '?', the
/// joined query parameters, and the percent-encoded content digest.
pub open spec fn tracker_url_chars(t: Torrent) -> Seq<char> {
    t.url@ + "?"@ + pairs_joined(tracker_params(t.piece_length as nat)) + "&info_hash="@
        + ascii_chars(percent_pairs(t.info_hash.text()))
}

impl Torrent {
    /// The tracker request URL: announce URL, the query parameters
    /// uploaded=0, downloaded=0, compact=1, left=<piece length>,
    /// peer_id=<fixed id>, port=6881, and the percent-encoded digest.
    pub fn tracker_url(&self) -> (r: String)
        requires
            self.wf(),
        ensures
            r@ == tracker_url_chars(*self),
    {
        let mut params: Vec<(String, String)> = Vec::new();
        params.push((String::from_str("uploaded"), String::from_str("0")));
        params.push((String::from_str("downloaded"), String::from_str("0")));
        params.push((String::from_str("compact"), String::from_str("1")));
        let left_digits = crate::util::u64_to_dec(self.piece_length as u64);
        proof {
            crate::util::lemma_dec_rep_digits(self.piece_length as nat);
            assert forall|i: int| 0 <= i < left_digits@.len() implies #[trigger] left_digits@[i]
                < 128 by {
                assert(crate::util::is_digit(left_digits@[i]));
            }
        }
        let left = crate::util::ascii_string(&left_digits);
        params.push((String::from_str("left"), left));
        params.push((String::from_str("peer_id"), String::from_str("00112233445566778899")));
        params.push((String::from_str("port"), String::from_str("6881")));
        proof {
            assert(pairs_view(params@) =~= tracker_params(self.piece_length as nat));
            lemma_tracker_params_unreserved(self.piece_length as nat);
        }
        let q = match urlencode_pairs(&params) {
            Some(s) => s,
            None => {
                proof {
                    assert(false);
                }
                String::new()
            },
        };
        let mut out = self.url.clone();
        out.append("?");
        out.append(q.as_str());
        out.append("&info_hash=");
        let ih = self.info_hash.to_url();
        out.append(ih.as_str());
        out
    }
}

/// The fixed tracker parameters hold only unreserved characters.
proof fn lemma_tracker_params_unreserved(piece_len: nat)
    ensures
        all_unreserved(tracker_params(piece_len)),
{
    reveal_strlit("uploaded");
    reveal_strlit("downloaded");
    reveal_strlit("compact");
    reveal_strlit("left");
    reveal_strlit("peer_id");
    reveal_strlit("port");
    reveal_strlit("0");
    reveal_strlit("1");
    reveal_strlit("00112233445566778899");
    reveal_strlit("6881");
    let ps = tracker_params(piece_len);
    assert(unreserved_chars("uploaded"@));
    assert(unreserved_chars("downloaded"@));
    assert(unreserved_chars("compact"@));
    assert(unreserved_chars("left"@));
    assert(unreserved_chars("peer_id"@));
    assert(unreserved_chars("port"@));
    assert(unreserved_chars("0"@));
    assert(unreserved_chars("1"@));
    assert(unreserved_chars("00112233445566778899"@));
    assert(unreserved_chars("6881"@));
    crate::util::lemma_dec_rep_digits(piece_len);
    assert forall|i: int| 0 <= i < ascii_chars(dec_rep(piece_len)).len() implies unreserved_char(
        #[trigger] ascii_chars(dec_rep(piece_len))[i],
    ) by {
        let b = dec_rep(piece_len)[i];
        assert(crate::util::is_digit(b));
        assert(ascii_chars(dec_rep(piece_len))[i] == b as char);
        assert((b as char) as u32 == b);
    }
    assert forall|i: int| 0 <= i < ps.len() implies unreserved_chars((#[trigger] ps[i]).0)
        && unreserved_chars(ps[i].1) by {}
}


// ---------------------------------------------------------------------------
// Peer endpoints from a decoded tracker response
// ---------------------------------------------------------------------------

/// A well-shaped peer entry in a decoded tracker response: a map with an
/// ASCII "ip" text and a non-negative "port" integer, as the decoder's
/// compact-peer-list handling produces.
pub open spec fn endpoint_ok(e: SpecValue) -> bool {
    match e {
        SpecValue::Dict(des) => (match map_find(des, crate::value::key_ip()) {
            Some(SpecValue::Bytes(ip)) => all_ascii(ip),
            _ => false,
        }) && (match map_find(des, crate::value::key_port()) {
            Some(SpecValue::Int(p)) => 0 <= p,
            _ => false,
        }),
        _ => false,
    }
}

/// The "ip:port" text of a well-shaped peer entry.
pub open spec fn endpoint_chars(e: SpecValue) -> Seq<char> {
    match e {
        SpecValue::Dict(des) => {
            let ip = (match map_find(des, crate::value::key_ip()) {
                Some(SpecValue::Bytes(ip)) => ip,
                _ => Seq::empty(),
            });
            let p = (match map_find(des, crate::value::key_port()) {
                Some(SpecValue::Int(p)) => p,
                _ => 0,
            });
            ascii_chars(ip) + seq![':'] + ascii_chars(dec_rep(p as nat))
        },
        _ => Seq::empty(),
    }
}

/// A decoded tracker response with a well-shaped peer list: a map whose
/// "peers" entry is a list of well-shaped peer entries.
pub open spec fn peers_ok(m: SpecValue) -> bool {
    match m {
        SpecValue::Dict(es) => (match map_find(es, crate::value::key_peers()) {
            Some(SpecValue::List(items)) => all_endpoints_ok(items),
            _ => false,
        }),
        _ => false,
    }
}

/// Every entry of the list is a well-shaped peer entry.
pub open spec fn all_endpoints_ok(items: Seq<SpecValue>) -> bool {
    forall|i: int| 0 <= i < items.len() ==> endpoint_ok(#[trigger] items[i])
}

/// The "ip:port" endpoint texts of the peer list of a decoded tracker
/// response, in list order; `SchemaError::Peers` when the response has no
/// well-shaped peer list.
pub fn peer_endpoints(v: &Value) -> (r: Result<Vec<String>, SchemaError>)
    ensures
        match r {
            Ok(out) => peers_ok(v.model()) && (match v.model() {
                SpecValue::Dict(es) => match map_find(es, crate::value::key_peers()) {
                    Some(SpecValue::List(items)) => out@.len() == items.len() && forall|i: int|
                        0 <= i < items.len() ==> (#[trigger] out@[i])@ == endpoint_chars(items[i]),
                    _ => false,
                },
                _ => false,
            }),
            Err(e) => e == SchemaError::Peers && !peers_ok(v.model()),
        },
{
    let es = match v {
        Value::Dict(es) => es,
        _ => {
            return Err(SchemaError::Peers);
        },
    };
    let items = match entries_find(es, &crate::value::key_peers_vec()) {
        Some(Value::List(items)) => items,
        _ => {
            return Err(SchemaError::Peers);
        },
    };
    let ghost items_v = crate::value::values_view(items@);
    let ghost root = match v.model() {
        SpecValue::Dict(ges) => ges,
        _ => Seq::empty(),
    };
    proof {
        assert(v.model() == SpecValue::Dict(root));
    }
    let mut out: Vec<String> = Vec::new();
    let mut j: usize = 0;
    while j < items.len()
        invariant
            j <= items@.len(),
            items_v == crate::value::values_view(items@),
            v.model() == SpecValue::Dict(root),
            map_find(root, crate::value::key_peers()) == Some(SpecValue::List(items_v)),
            out@.len() == j,
            forall|i: int| 0 <= i < j ==> endpoint_ok(#[trigger] items_v[i]),
            forall|i: int| 0 <= i < j ==> (#[trigger] out@[i])@ == endpoint_chars(items_v[i]),
        decreases items.len() - j,
    {
        proof {
            assert(items_v[j as int] == items@[j as int].model());
        }
        let item = &items[j];
        proof {
            assert(*item == items@[j as int]);
        }
        let des = match item {
            Value::Dict(des) => des,
            Value::Integer(x) => {
                proof {
                    assert(items_v[j as int] == SpecValue::Int(*x as int));
                    assert(!endpoint_ok(items_v[j as int]));
                    assert(!all_endpoints_ok(items_v)) by {
                        if all_endpoints_ok(items_v) {
                            assert(endpoint_ok(items_v[j as int]));
                        }
                    }
                    assert(!peers_ok(v.model()));
                }
                return Err(SchemaError::Peers);
            },
            Value::Bytes(x) => {
                proof {
                    assert(items_v[j as int] == SpecValue::Bytes(x@));
                    assert(!endpoint_ok(items_v[j as int]));
                    assert(!all_endpoints_ok(items_v)) by {
                        if all_endpoints_ok(items_v) {
                            assert(endpoint_ok(items_v[j as int]));
                        }
                    }
                    assert(!peers_ok(v.model()));
                }
                return Err(SchemaError::Peers);
            },
            Value::List(x) => {
                proof {
                    assert(items_v[j as int] == SpecValue::List(crate::value::values_view(x@)));
                    assert(!endpoint_ok(items_v[j as int]));
                    assert(!all_endpoints_ok(items_v)) by {
                        if all_endpoints_ok(items_v) {
                            assert(endpoint_ok(items_v[j as int]));
                        }
                    }
                    assert(!peers_ok(v.model()));
                }
                return Err(SchemaError::Peers);
            },
        };
        let ip = match entries_find(des, &crate::value::key_ip_vec()) {
            Some(Value::Bytes(ip)) => ip,
            _ => {
                proof {
                    assert(!endpoint_ok(items_v[j as int]));
                }
                return Err(SchemaError::Peers);
            },
        };
        if !check_all_ascii(ip) {
            proof {
                assert(!endpoint_ok(items_v[j as int]));
            }
            return Err(SchemaError::Peers);
        }
        let p = match entries_find(des, &crate::value::key_port_vec()) {
            Some(Value::Integer(p)) => *p,
            _ => {
                proof {
                    assert(!endpoint_ok(items_v[j as int]));
                }
                return Err(SchemaError::Peers);
            },
        };
        if p < 0 {
            proof {
                assert(!endpoint_ok(items_v[j as int]));
            }
            return Err(SchemaError::Peers);
        }
        let mut ep = crate::util::ascii_string(ip);
        ep.append(":");
        let digits = crate::util::u64_to_dec(p as u64);
        proof {
            crate::util::lemma_dec_rep_digits(p as nat);
            assert forall|i: int| 0 <= i < digits@.len() implies #[trigger] digits@[i] < 128 by {
                assert(crate::util::is_digit(digits@[i]));
            }
        }
        let ds = crate::util::ascii_string(&digits);
        ep.append(ds.as_str());
        proof {
            reveal_strlit(":");
            assert(":"@ =~= seq![':']);
            assert(ep@ =~= endpoint_chars(items_v[j as int]));
        }
        out.push(ep);
        j += 1;
    }
    proof {
        assert(out@.len() == items_v.len());
    }
    Ok(out)
}

} // verus!
