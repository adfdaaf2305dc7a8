use vstd::prelude::*;

verus! {

// ---------------------------------------------------------------------------
// The decoded value tree
// ---------------------------------------------------------------------------

/// A decoded bencode value: a signed 64-bit integer, an opaque byte string,
/// an ordered list, or an ordered map with byte-string keys (unique keys,
/// encounter order preserved).
#[derive(Debug)]
pub enum Value {
    Integer(i64),
    Bytes(Vec<u8>),
    List(Vec<Value>),
    Dict(Vec<(Vec<u8>, Value)>),
}

/// The mathematical model of a `Value`.
pub enum SpecValue {
    Int(int),
    Bytes(Seq<u8>),
    List(Seq<SpecValue>),
    Dict(Seq<(Seq<u8>, SpecValue)>),
}

impl Value {
    /// The mathematical model of this value.
    pub open spec fn model(self) -> SpecValue
        decreases self,
    {
        match self {
            Value::Integer(i) => SpecValue::Int(i as int),
            Value::Bytes(b) => SpecValue::Bytes(b@),
            Value::List(vs) => SpecValue::List(values_view(vs@)),
            Value::Dict(es) => SpecValue::Dict(entries_view(es@)),
        }
    }
}

/// The models of a sequence of values, element by element.
pub open spec fn values_view(vs: Seq<Value>) -> Seq<SpecValue>
    decreases vs,
{
    Seq::new(
        vs.len(),
        |i: int|
            if 0 <= i < vs.len() {
                vs[i].model()
            } else {
                SpecValue::Int(0)
            },
    )
}

/// The models of a sequence of map entries, entry by entry.
pub open spec fn entries_view(es: Seq<(Vec<u8>, Value)>) -> Seq<(Seq<u8>, SpecValue)>
    decreases es,
{
    Seq::new(
        es.len(),
        |i: int|
            if 0 <= i < es.len() {
                (es[i].0@, es[i].1.model())
            } else {
                (Seq::<u8>::empty(), SpecValue::Int(0))
            },
    )
}

// ---------------------------------------------------------------------------
// Map entries: lookup and insertion
// ---------------------------------------------------------------------------

/// Whether some entry has key `k`.
pub open spec fn map_has_key(es: Seq<(Seq<u8>, SpecValue)>, k: Seq<u8>) -> bool {
    exists|i: int| 0 <= i < es.len() && (#[trigger] es[i]).0 == k
}

/// The value of the first entry with key `k`.
pub open spec fn map_find(es: Seq<(Seq<u8>, SpecValue)>, k: Seq<u8>) -> Option<SpecValue>
    decreases es.len(),
{
    if es.len() == 0 {
        Option::None
    } else if es[0].0 == k {
        Option::Some(es[0].1)
    } else {
        map_find(es.drop_first(), k)
    }
}

/// Insert a key-value pair: replace the value in place if the key is
/// present, otherwise append the entry at the end.
pub open spec fn map_insert(es: Seq<(Seq<u8>, SpecValue)>, k: Seq<u8>, v: SpecValue) -> Seq<
    (Seq<u8>, SpecValue),
>
    decreases es.len(),
{
    if es.len() == 0 {
        seq![(k, v)]
    } else if es[0].0 == k {
        seq![(k, v)] + es.drop_first()
    } else {
        seq![es[0]] + map_insert(es.drop_first(), k, v)
    }
}

/// Append a key-value pair to the entries of a map value under construction,
/// replacing the value in place if the key is already present.
pub fn entries_insert(es: &mut Vec<(Vec<u8>, Value)>, k: Vec<u8>, v: Value)
    ensures
        entries_view(final(es)@) == map_insert(entries_view(old(es)@), k@, v.model()),
{
    let mut i: usize = 0;
    while i < es.len()
        invariant
            i <= es@.len(),
            *es == *old(es),
            forall|j: int| 0 <= j < i ==> (#[trigger] es@[j]).0@ != k@,
        decreases es.len() - i,
    {
        if crate::util::bytes_eq(&es[i].0, &k) {
            proof {
                assert(entries_view(es@)[i as int].0 == k@);
            }
            es.set(i, (k, v));
            proof {
                assert(forall|j: int|
                    0 <= j < i ==> (#[trigger] entries_view(old(es)@)[j]).0 != k@);
                lemma_map_insert_at(entries_view(old(es)@), k@, v.model(), i as int);
                assert(entries_view(es@) =~= entries_view(old(es)@).update(
                    i as int,
                    (k@, v.model()),
                ));
            }
            return ;
        }
        i += 1;
    }
    es.push((k, v));
    proof {
        assert(forall|j: int|
            0 <= j < old(es)@.len() ==> (#[trigger] entries_view(old(es)@)[j]).0 != k@);
        lemma_map_insert_absent(entries_view(old(es)@), k@, v.model());
        assert(entries_view(es@) =~= entries_view(old(es)@) + seq![(k@, v.model())]);
    }
}

/// When no key matches, `map_insert` appends the new entry.
pub proof fn lemma_map_insert_absent(es: Seq<(Seq<u8>, SpecValue)>, k: Seq<u8>, v: SpecValue)
    requires
        forall|j: int| 0 <= j < es.len() ==> (#[trigger] es[j]).0 != k,
    ensures
        map_insert(es, k, v) =~= es + seq![(k, v)],
    decreases es.len(),
{
    if es.len() > 0 {
        lemma_map_insert_absent(es.drop_first(), k, v);
    }
}

/// When the first match is at index `i`, `map_insert` updates index `i`.
proof fn lemma_map_insert_at(es: Seq<(Seq<u8>, SpecValue)>, k: Seq<u8>, v: SpecValue, i: int)
    requires
        0 <= i < es.len(),
        es[i].0 == k,
        forall|j: int| 0 <= j < i ==> (#[trigger] es[j]).0 != k,
    ensures
        map_insert(es, k, v) =~= es.update(i, (k, v)),
    decreases es.len(),
{
    if i > 0 {
        lemma_map_insert_at(es.drop_first(), k, v, i - 1);
        assert(map_insert(es, k, v) =~= seq![es[0]] + es.drop_first().update(i - 1, (k, v)));
    }
}

// ---------------------------------------------------------------------------
// Well-known keys (ASCII byte sequences)
// ---------------------------------------------------------------------------

/// The bytes of the key "info".
pub open spec fn key_info() -> Seq<u8> {
    seq![105u8, 110u8, 102u8, 111u8]
}

/// The bytes of the key "info hash".
pub open spec fn key_info_hash() -> Seq<u8> {
    seq![105u8, 110u8, 102u8, 111u8, 32u8, 104u8, 97u8, 115u8, 104u8]
}

/// The bytes of the key "pieces".
pub open spec fn key_pieces() -> Seq<u8> {
    seq![112u8, 105u8, 101u8, 99u8, 101u8, 115u8]
}

/// The bytes of the key "peers".
pub open spec fn key_peers() -> Seq<u8> {
    seq![112u8, 101u8, 101u8, 114u8, 115u8]
}

/// The bytes of the key "ip".
pub open spec fn key_ip() -> Seq<u8> {
    seq![105u8, 112u8]
}

/// The bytes of the key "port".
pub open spec fn key_port() -> Seq<u8> {
    seq![112u8, 111u8, 114u8, 116u8]
}

/// The bytes of the key "announce".
pub open spec fn key_announce() -> Seq<u8> {
    seq![97u8, 110u8, 110u8, 111u8, 117u8, 110u8, 99u8, 101u8]
}

/// The bytes of the key "length".
pub open spec fn key_length() -> Seq<u8> {
    seq![108u8, 101u8, 110u8, 103u8, 116u8, 104u8]
}

/// The bytes of the key "piece length".
pub open spec fn key_piece_length() -> Seq<u8> {
    seq![112u8, 105u8, 101u8, 99u8, 101u8, 32u8, 108u8, 101u8, 110u8, 103u8, 116u8, 104u8]
}

/// Build the byte vector of the key "info".
pub fn key_info_vec() -> (r: Vec<u8>)
    ensures
        r@ == key_info(),
{
    let mut v: Vec<u8> = Vec::new();
    v.push(105u8);
    v.push(110u8);
    v.push(102u8);
    v.push(111u8);
    proof {
        assert(v@ =~= key_info());
    }
    v
}

/// Build the byte vector of the key "info hash".
pub fn key_info_hash_vec() -> (r: Vec<u8>)
    ensures
        r@ == key_info_hash(),
{
    let mut v: Vec<u8> = Vec::new();
    v.push(105u8);
    v.push(110u8);
    v.push(102u8);
    v.push(111u8);
    v.push(32u8);
    v.push(104u8);
    v.push(97u8);
    v.push(115u8);
    v.push(104u8);
    proof {
        assert(v@ =~= key_info_hash());
    }
    v
}

/// Build the byte vector of the key "pieces".
pub fn key_pieces_vec() -> (r: Vec<u8>)
    ensures
        r@ == key_pieces(),
{
    let mut v: Vec<u8> = Vec::new();
    v.push(112u8);
    v.push(105u8);
    v.push(101u8);
    v.push(99u8);
    v.push(101u8);
    v.push(115u8);
    proof {
        assert(v@ =~= key_pieces());
    }
    v
}

/// Build the byte vector of the key "peers".
pub fn key_peers_vec() -> (r: Vec<u8>)
    ensures
        r@ == key_peers(),
{
    let mut v: Vec<u8> = Vec::new();
    v.push(112u8);
    v.push(101u8);
    v.push(101u8);
    v.push(114u8);
    v.push(115u8);
    proof {
        assert(v@ =~= key_peers());
    }
    v
}

/// Build the byte vector of the key "ip".
pub fn key_ip_vec() -> (r: Vec<u8>)
    ensures
        r@ == key_ip(),
{
    let mut v: Vec<u8> = Vec::new();
    v.push(105u8);
    v.push(112u8);
    proof {
        assert(v@ =~= key_ip());
    }
    v
}

/// Build the byte vector of the key "port".
pub fn key_port_vec() -> (r: Vec<u8>)
    ensures
        r@ == key_port(),
{
    let mut v: Vec<u8> = Vec::new();
    v.push(112u8);
    v.push(111u8);
    v.push(114u8);
    v.push(116u8);
    proof {
        assert(v@ =~= key_port());
    }
    v
}

/// Build the byte vector of the key "announce".
pub fn key_announce_vec() -> (r: Vec<u8>)
    ensures
        r@ == key_announce(),
{
    let mut v: Vec<u8> = Vec::new();
    v.push(97u8);
    v.push(110u8);
    v.push(110u8);
    v.push(111u8);
    v.push(117u8);
    v.push(110u8);
    v.push(99u8);
    v.push(101u8);
    proof {
        assert(v@ =~= key_announce());
    }
    v
}

/// Build the byte vector of the key "length".
pub fn key_length_vec() -> (r: Vec<u8>)
    ensures
        r@ == key_length(),
{
    let mut v: Vec<u8> = Vec::new();
    v.push(108u8);
    v.push(101u8);
    v.push(110u8);
    v.push(103u8);
    v.push(116u8);
    v.push(104u8);
    proof {
        assert(v@ =~= key_length());
    }
    v
}

/// Build the byte vector of the key "piece length".
pub fn key_piece_length_vec() -> (r: Vec<u8>)
    ensures
        r@ == key_piece_length(),
{
    let mut v: Vec<u8> = Vec::new();
    v.push(112u8);
    v.push(105u8);
    v.push(101u8);
    v.push(99u8);
    v.push(101u8);
    v.push(32u8);
    v.push(108u8);
    v.push(101u8);
    v.push(110u8);
    v.push(103u8);
    v.push(116u8);
    v.push(104u8);
    proof {
        assert(v@ =~= key_piece_length());
    }
    v
}

} // verus!
