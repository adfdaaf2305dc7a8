use vstd::prelude::*;

use crate::codec::{
    find_byte, fits_i64, int_token_ok, int_token_val, sp_entries, sp_entry_value, sp_items,
    sp_str, sp_value, ParseError,
};
use crate::util::{
    dec_rep, dec_rep_signed, dec_val, is_digit, lemma_dec_rep_digits, lemma_dec_val_of_rep,
};
use crate::value::{
    entries_view, key_info, key_peers, key_pieces, map_has_key, map_insert, values_view,
    SpecValue, Value,
};

verus! {

broadcast use vstd::std_specs::vec::group_vec_axioms;

// ---------------------------------------------------------------------------
// The bencode encoder
// ---------------------------------------------------------------------------

/// The encoding of a byte string: its decimal length, ':', the bytes.
pub open spec fn encode_str(b: Seq<u8>) -> Seq<u8> {
    dec_rep(b.len()) + seq![58u8] + b
}

/// The bencode encoding of a value. Maps are encoded in their stored entry
/// order.
pub open spec fn encode_val(v: SpecValue) -> Seq<u8>
    decreases v, 0int,
{
    match v {
        SpecValue::Int(i) => seq![105u8] + dec_rep_signed(i) + seq![101u8],
        SpecValue::Bytes(b) => encode_str(b),
        SpecValue::List(items) => seq![108u8] + encode_items(items) + seq![101u8],
        SpecValue::Dict(es) => seq![100u8] + encode_entries(es) + seq![101u8],
    }
}

/// The concatenated encodings of list items.
pub open spec fn encode_items(items: Seq<SpecValue>) -> Seq<u8>
    decreases items, 1int,
{
    if items.len() == 0 {
        Seq::empty()
    } else {
        encode_items(items.drop_last()) + encode_val(items.last())
    }
}

/// The concatenated encodings of map entries, each a key byte string
/// followed by the value.
pub open spec fn encode_entries(es: Seq<(Seq<u8>, SpecValue)>) -> Seq<u8>
    decreases es, 1int,
{
    if es.len() == 0 {
        Seq::empty()
    } else {
        encode_entries(es.drop_last()) + encode_str(es.last().0) + encode_val(es.last().1)
    }
}

/// Encode the length-prefixed form of a byte string.
fn bencode_str(b: &Vec<u8>, out: &mut Vec<u8>)
    ensures
        final(out)@ == old(out)@ + encode_str(b@),
{
    let mut digits = crate::util::u64_to_dec(b.len() as u64);
    out.append(&mut digits);
    out.push(58);
    let mut i: usize = 0;
    while i < b.len()
        invariant
            i <= b@.len(),
            out@ == old(out)@ + dec_rep(b@.len()) + seq![58u8] + b@.take(i as int),
        decreases b.len() - i,
    {
        out.push(b[i]);
        proof {
            assert(out@ =~= old(out)@ + dec_rep(b@.len()) + seq![58u8] + b@.take(i + 1));
        }
        i += 1;
    }
    proof {
        assert(b@.take(b@.len() as int) =~= b@);
        assert(out@ =~= old(out)@ + encode_str(b@));
    }
}

/// Encode a value into `out`.
#[verifier::loop_isolation(false)]
fn bencode_into(v: &Value, out: &mut Vec<u8>)
    ensures
        final(out)@ == old(out)@ + encode_val(v.model()),
    decreases v,
{
    match v {
        Value::Integer(i) => {
            out.push(105);
            let mut digits = crate::util::i64_to_dec(*i);
            out.append(&mut digits);
            out.push(101);
            proof {
                assert(out@ =~= old(out)@ + (seq![105u8] + dec_rep_signed(*i as int)
                    + seq![101u8]));
            }
        },
        Value::Bytes(b) => {
            bencode_str(b, out);
        },
        Value::List(vs) => {
            out.push(108);
            let mut j: usize = 0;
            while j < vs.len()
                invariant
                    j <= vs@.len(),
                    out@ == old(out)@ + seq![108u8] + encode_items(values_view(vs@).take(j as int)),
                decreases vs.len() - j,
            {
                bencode_into(&vs[j], out);
                proof {
                    let w = values_view(vs@);
                    assert(w.take(j + 1).drop_last() =~= w.take(j as int));
                    assert(w.take(j + 1).last() == w[j as int]);
                    assert(encode_items(w.take(j + 1)) == encode_items(w.take(j as int))
                        + encode_val(w[j as int]));
                    assert(out@ =~= old(out)@ + seq![108u8] + encode_items(w.take(j + 1)));
                }
                j += 1;
            }
            out.push(101);
            proof {
                let w = values_view(vs@);
                assert(w.take(w.len() as int) =~= w);
                assert(out@ =~= old(out)@ + (seq![108u8] + encode_items(w) + seq![101u8]));
            }
        },
        Value::Dict(es) => {
            out.push(100);
            let mut j: usize = 0;
            while j < es.len()
                invariant
                    j <= es@.len(),
                    out@ == old(out)@ + seq![100u8] + encode_entries(
                        entries_view(es@).take(j as int),
                    ),
                decreases es.len() - j,
            {
                bencode_str(&es[j].0, out);
                bencode_into(&es[j].1, out);
                proof {
                    let w = entries_view(es@);
                    assert(w.take(j + 1).drop_last() =~= w.take(j as int));
                    assert(w.take(j + 1).last() == w[j as int]);
                    assert(encode_entries(w.take(j + 1)) == encode_entries(w.take(j as int))
                        + encode_str(w[j as int].0) + encode_val(w[j as int].1));
                    assert(out@ =~= old(out)@ + seq![100u8] + encode_entries(w.take(j + 1)));
                }
                j += 1;
            }
            out.push(101);
            proof {
                let w = entries_view(es@);
                assert(w.take(w.len() as int) =~= w);
                assert(out@ =~= old(out)@ + (seq![100u8] + encode_entries(w) + seq![101u8]));
            }
        },
    }
}

/// Encode a value as bencode bytes.
pub fn bencode(v: &Value) -> (r: Vec<u8>)
    ensures
        r@ == encode_val(v.model()),
{
    let mut out: Vec<u8> = Vec::new();
    bencode_into(v, &mut out);
    proof {
        assert(out@ =~= encode_val(v.model()));
    }
    out
}


// ---------------------------------------------------------------------------
// The round-trip law
// ---------------------------------------------------------------------------

/// A plain well-formed value: integers fit in 64 bits, map keys are unique,
/// and no map uses the keys "info", "pieces" or "peers", whose decoding is
/// special-cased.
pub open spec fn plain_wf(v: SpecValue) -> bool
    decreases v, 0int,
{
    match v {
        SpecValue::Int(i) => fits_i64(i),
        SpecValue::Bytes(b) => true,
        SpecValue::List(items) => plain_wf_items(items),
        SpecValue::Dict(es) => plain_keys_ok(es) && plain_wf_entries(es),
    }
}

/// All items of a list are plain well-formed.
pub open spec fn plain_wf_items(items: Seq<SpecValue>) -> bool
    decreases items, 1int,
{
    items.len() == 0 || (plain_wf(items.first()) && plain_wf_items(items.drop_first()))
}

/// All values of a map are plain well-formed.
pub open spec fn plain_wf_entries(es: Seq<(Seq<u8>, SpecValue)>) -> bool
    decreases es, 1int,
{
    es.len() == 0 || (plain_wf(es.first().1) && plain_wf_entries(es.drop_first()))
}

/// Map keys are unique and none of them is special-cased by the decoder.
pub open spec fn plain_keys_ok(es: Seq<(Seq<u8>, SpecValue)>) -> bool {
    (forall|i: int, j: int| 0 <= i < j < es.len() ==> (#[trigger] es[i]).0 != (#[trigger] es[j]).0)
        && (forall|i: int|
        0 <= i < es.len() ==> (#[trigger] es[i]).0 != key_info() && es[i].0 != key_pieces()
            && es[i].0 != key_peers())
}

/// If byte `b` first occurs at index `at` (at or after `from`), `find_byte`
/// returns `at`.
proof fn lemma_find_byte_at(s: Seq<u8>, b: u8, from: int, at: int)
    requires
        0 <= from <= at < s.len(),
        s[at] == b,
        forall|j: int| from <= j < at ==> s[j] != b,
    ensures
        find_byte(s, b, from) == at,
    decreases at - from,
{
    if from < at {
        lemma_find_byte_at(s, b, from + 1, at);
    }
}

/// The decimal rendering of a signed value is a well-formed integer token
/// denoting that value, and holds no 'e'.
proof fn lemma_dec_rep_signed_token(i: int)
    ensures
        int_token_ok(dec_rep_signed(i)),
        int_token_val(dec_rep_signed(i)) == i,
        forall|j: int|
            0 <= j < dec_rep_signed(i).len() ==> #[trigger] dec_rep_signed(i)[j] != 101,
{
    let d = dec_rep_signed(i);
    if i < 0 {
        lemma_dec_rep_digits((-i) as nat);
        lemma_dec_val_of_rep((-i) as nat);
        assert(d =~= seq![45u8] + dec_rep((-i) as nat));
        assert(d[0] == 45);
        assert(d.skip(1) =~= dec_rep((-i) as nat));
        assert(int_token_val(d) == -dec_val(dec_rep((-i) as nat)));
        assert forall|j: int| 0 <= j < d.len() implies #[trigger] d[j] != 101 by {
            if j > 0 {
                assert(is_digit(dec_rep((-i) as nat)[j - 1]));
            }
        }
    } else {
        lemma_dec_rep_digits(i as nat);
        lemma_dec_val_of_rep(i as nat);
        assert(d == dec_rep(i as nat));
        assert(is_digit(d[0]));
        assert(d[0] != 45);
        assert forall|j: int| 0 <= j < d.len() implies #[trigger] d[j] != 101 by {
            assert(is_digit(d[j]));
        }
    }
}

/// An encoding is at least two bytes and starts with the byte that selects
/// its variant in the decoder.
proof fn lemma_encode_first(v: SpecValue)
    ensures
        encode_val(v).len() >= 2,
        encode_val(v)[0] != 101,
        v is Int ==> encode_val(v)[0] == 105,
        v is Bytes ==> is_digit(encode_val(v)[0]) && encode_val(v)[0] <= 57,
        v is List ==> encode_val(v)[0] == 108,
        v is Dict ==> encode_val(v)[0] == 100,
{
    match v {
        SpecValue::Int(i) => {
            assert(encode_val(v)[0] == 105);
            assert(encode_val(v).len() == 2 + dec_rep_signed(i).len());
            lemma_dec_rep_signed_token(i);
        },
        SpecValue::Bytes(b) => {
            lemma_dec_rep_digits(b.len());
            assert(encode_val(v)[0] == dec_rep(b.len())[0]);
            assert(is_digit(dec_rep(b.len())[0]));
        },
        SpecValue::List(items) => {
            assert(encode_val(v)[0] == 108);
        },
        SpecValue::Dict(es) => {
            assert(encode_val(v)[0] == 100);
        },
    }
}

/// Decoding an encoded byte string yields the bytes back and consumes
/// exactly the encoding.
proof fn lemma_decode_str(b: Seq<u8>, rest: Seq<u8>)
    ensures
        sp_str(encode_str(b) + rest) == Ok::<(Seq<u8>, int), ParseError>((
            b,
            encode_str(b).len() as int,
        )),
        sp_value(encode_str(b) + rest) == Ok::<(SpecValue, int), ParseError>((
            SpecValue::Bytes(b),
            encode_str(b).len() as int,
        )),
{
    let s = encode_str(b) + rest;
    let d = dec_rep(b.len());
    let dl = d.len() as int;
    lemma_dec_rep_digits(b.len());
    lemma_dec_val_of_rep(b.len());
    assert forall|j: int| 0 <= j < dl implies s[j] != 58 by {
        assert(s[j] == d[j]);
        assert(is_digit(d[j]));
    }
    assert(s[dl] == 58);
    lemma_find_byte_at(s, 58, 0, dl);
    assert(s.subrange(0, dl) =~= d);
    assert(dec_val(d) == b.len());
    assert(dl + 1 + b.len() <= s.len());
    assert(s.subrange(dl + 1, dl + 1 + b.len()) =~= b);
    assert(is_digit(s[0]));
    assert(s[0] != 105 && s[0] != 108 && s[0] != 100);
}

/// Decoding an encoding of a plain well-formed value, followed by anything,
/// yields the value back and consumes exactly the encoding.
pub proof fn lemma_decode_encode(v: SpecValue, rest: Seq<u8>)
    requires
        plain_wf(v),
    ensures
        sp_value(encode_val(v) + rest) == Ok::<(SpecValue, int), ParseError>((
            v,
            encode_val(v).len() as int,
        )),
    decreases v,
{
    let s = encode_val(v) + rest;
    lemma_encode_first(v);
    match v {
        SpecValue::Int(i) => {
            let d = dec_rep_signed(i);
            lemma_dec_rep_signed_token(i);
            assert(s[0] == 105);
            assert forall|j: int| 1 <= j < 1 + d.len() implies s[j] != 101 by {
                assert(s[j] == d[j - 1]);
            }
            assert(s[1 + d.len() as int] == 101);
            lemma_find_byte_at(s, 101, 1, 1 + d.len() as int);
            assert(s.subrange(1, 1 + d.len() as int) =~= d);
        },
        SpecValue::Bytes(b) => {
            assert(encode_val(v) == encode_str(b));
            lemma_decode_str(b, rest);
        },
        SpecValue::List(items) => {
            assert(s[0] == 108);
            assert(s.skip(1) =~= encode_items(items) + seq![101u8] + rest);
            lemma_decode_items(items, rest);
        },
        SpecValue::Dict(es) => {
            assert(s[0] == 100);
            assert(s.skip(1) =~= encode_entries(es) + seq![101u8] + rest);
            lemma_decode_entries(es, Seq::empty(), rest);
            assert(Seq::empty() + es =~= es);
        },
    }
}

/// The encoding of a non-empty item sequence starts with the encoding of
/// its first item.
proof fn lemma_encode_items_first(items: Seq<SpecValue>)
    requires
        items.len() > 0,
    ensures
        encode_items(items) == encode_val(items.first()) + encode_items(items.drop_first()),
    decreases items,
{
    if items.len() == 1 {
        assert(items.drop_last() =~= Seq::<SpecValue>::empty());
        assert(items.drop_first() =~= Seq::<SpecValue>::empty());
        assert(items.last() == items.first());
        assert(encode_items(items) =~= encode_val(items.first()) + encode_items(
            items.drop_first(),
        ));
    } else {
        lemma_encode_items_first(items.drop_last());
        assert(items.drop_last().first() == items.first());
        assert(items.drop_last().drop_first() =~= items.drop_first().drop_last());
        assert(items.drop_first().last() == items.last());
        assert(encode_items(items.drop_first()) == encode_items(items.drop_first().drop_last())
            + encode_val(items.last()));
        assert(encode_items(items) =~= encode_val(items.first()) + encode_items(
            items.drop_first(),
        ));
    }
}

/// The encoding of a non-empty entry sequence starts with the encoding of
/// its first key and value.
proof fn lemma_encode_entries_first(es: Seq<(Seq<u8>, SpecValue)>)
    requires
        es.len() > 0,
    ensures
        encode_entries(es) == encode_str(es.first().0) + encode_val(es.first().1)
            + encode_entries(es.drop_first()),
    decreases es,
{
    if es.len() == 1 {
        assert(es.drop_last() =~= Seq::<(Seq<u8>, SpecValue)>::empty());
        assert(es.drop_first() =~= Seq::<(Seq<u8>, SpecValue)>::empty());
        assert(es.last() == es.first());
        assert(encode_entries(es) =~= encode_str(es.first().0) + encode_val(es.first().1)
            + encode_entries(es.drop_first()));
    } else {
        lemma_encode_entries_first(es.drop_last());
        assert(es.drop_last().first() == es.first());
        assert(es.drop_last().drop_first() =~= es.drop_first().drop_last());
        assert(es.drop_first().last() == es.last());
        assert(encode_entries(es.drop_first()) == encode_entries(es.drop_first().drop_last())
            + encode_str(es.last().0) + encode_val(es.last().1));
        assert(encode_entries(es) =~= encode_str(es.first().0) + encode_val(es.first().1)
            + encode_entries(es.drop_first()));
    }
}

/// Decoding encoded list items followed by 'e' yields the items back.
proof fn lemma_decode_items(items: Seq<SpecValue>, rest: Seq<u8>)
    requires
        plain_wf_items(items),
    ensures
        sp_items(encode_items(items) + seq![101u8] + rest) == Ok::<
            (Seq<SpecValue>, int),
            ParseError,
        >((items, encode_items(items).len() as int + 1)),
    decreases items,
{
    let s = encode_items(items) + seq![101u8] + rest;
    if items.len() == 0 {
        assert(s =~= seq![101u8] + rest);
        assert(s[0] == 101);
        assert(Seq::<SpecValue>::empty() =~= items);
    } else {
        lemma_encode_items_first(items);
        let v0 = items.first();
        let tail = encode_items(items.drop_first()) + seq![101u8] + rest;
        assert(s =~= encode_val(v0) + tail);
        lemma_encode_first(v0);
        assert(s[0] == encode_val(v0)[0]);
        assert(s[0] != 101);
        lemma_decode_encode(v0, tail);
        let n0 = encode_val(v0).len() as int;
        assert(sp_value(s) == Ok::<(SpecValue, int), ParseError>((v0, n0)));
        assert(1 <= n0 <= s.len());
        assert(s.skip(n0) =~= tail);
        lemma_decode_items(items.drop_first(), rest);
        assert(seq![v0] + items.drop_first() =~= items);
    }
}

/// Decoding encoded map entries followed by 'e' appends the entries, in
/// order, to the accumulated entries.
proof fn lemma_decode_entries(
    es: Seq<(Seq<u8>, SpecValue)>,
    acc: Seq<(Seq<u8>, SpecValue)>,
    rest: Seq<u8>,
)
    requires
        plain_keys_ok(es),
        plain_wf_entries(es),
        forall|i: int| 0 <= i < es.len() ==> !map_has_key(acc, (#[trigger] es[i]).0),
    ensures
        sp_entries(encode_entries(es) + seq![101u8] + rest, acc) == Ok::<
            (Seq<(Seq<u8>, SpecValue)>, int),
            ParseError,
        >((acc + es, encode_entries(es).len() as int + 1)),
    decreases es,
{
    let s = encode_entries(es) + seq![101u8] + rest;
    if es.len() == 0 {
        assert(s =~= seq![101u8] + rest);
        assert(s[0] == 101);
        assert(acc + es =~= acc);
    } else {
        lemma_encode_entries_first(es);
        let k = es.first().0;
        let v0 = es.first().1;
        let tail1 = encode_val(v0) + (encode_entries(es.drop_first()) + seq![101u8] + rest);
        assert(s =~= encode_str(k) + tail1);
        lemma_decode_str(k, tail1);
        let kn = encode_str(k).len() as int;
        assert(s[0] == encode_str(k)[0]) by {
            assert(encode_str(k).len() > 0);
        }
        lemma_dec_rep_digits(k.len());
        assert(encode_str(k)[0] == dec_rep(k.len())[0]);
        assert(is_digit(s[0]));
        assert(s[0] != 101);
        assert(sp_value(s) == Ok::<(SpecValue, int), ParseError>((SpecValue::Bytes(k), kn)));
        assert(1 <= kn <= s.len());
        // the value after the key
        let restv = s.skip(kn);
        assert(restv =~= tail1);
        lemma_encode_first(v0);
        assert(restv[0] == encode_val(v0)[0]);
        assert(restv[0] != 101);
        assert(restv.len() > 0);
        // the key is not special-cased
        assert(es[0].0 == k);
        assert(k != key_info() && k != key_pieces() && k != key_peers());
        lemma_decode_encode(v0, encode_entries(es.drop_first()) + seq![101u8] + rest);
        let n0 = encode_val(v0).len() as int;
        assert(sp_value(restv) == Ok::<(SpecValue, int), ParseError>((v0, n0)));
        assert(1 <= n0 <= restv.len());
        // the key is fresh, so the insertion appends
        assert(forall|j: int| 0 <= j < acc.len() ==> (#[trigger] acc[j]).0 != k) by {
            assert(!map_has_key(acc, es[0].0));
        }
        crate::value::lemma_map_insert_absent(acc, k, v0);
        let acc1 = acc + seq![(k, v0)];
        assert(map_insert(acc, k, v0) == acc1);
        // continue with the remaining entries
        assert(s.skip(kn + n0) =~= encode_entries(es.drop_first()) + seq![101u8] + rest);
        assert forall|i: int| 0 <= i < es.drop_first().len() implies !map_has_key(
            acc1,
            (#[trigger] es.drop_first()[i]).0,
        ) by {
            let ki = es.drop_first()[i].0;
            assert(es[i + 1].0 == ki);
            assert(ki != k);
            if map_has_key(acc1, ki) {
                let w = choose|w: int| 0 <= w < acc1.len() && (#[trigger] acc1[w]).0 == ki;
                assert(w < acc.len());
                assert(map_has_key(acc, ki));
            }
        }
        lemma_decode_entries(es.drop_first(), acc1, rest);
        assert(acc1 + es.drop_first() =~= acc + es);
        assert(sp_entry_value(s, acc, k, kn) == Ok::<(Seq<(Seq<u8>, SpecValue)>, int), ParseError>(
            (acc + es, kn + n0 + (encode_entries(es.drop_first()).len() as int + 1)),
        ));
        assert(kn + n0 + (encode_entries(es.drop_first()).len() as int + 1) == encode_entries(es).len()
            + 1);
    }
}

/// ROUND TRIP: decoding the encoding of any plain well-formed value — one
/// whose integers fit in 64 bits, whose map keys are unique, and whose maps
/// avoid the special-cased keys "info", "pieces" and "peers" — yields the
/// value itself and consumes the whole encoding.
pub proof fn lemma_round_trip(v: SpecValue)
    requires
        plain_wf(v),
    ensures
        sp_value(encode_val(v)) == Ok::<(SpecValue, int), ParseError>((
            v,
            encode_val(v).len() as int,
        )),
{
    lemma_decode_encode(v, Seq::empty());
    assert(encode_val(v) + Seq::empty() =~= encode_val(v));
}

} // verus!
