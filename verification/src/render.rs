use vstd::prelude::*;

use crate::hexcode::hex_digit;
use crate::util::{all_ascii, ascii_chars, ascii_string, dec_rep, dec_rep_signed};
use crate::value::{entries_view, values_view, SpecValue, Value};

verus! {

broadcast use vstd::std_specs::vec::group_vec_axioms;

// ---------------------------------------------------------------------------
// JSON-style text rendering of decoded values
// ---------------------------------------------------------------------------

/// The rendering of one byte inside a JSON string: '"' and '\' are
/// backslash-escaped, control bytes and non-ASCII bytes become a \u00xx
/// escape, every other byte stands for itself.
pub open spec fn esc_byte(b: u8) -> Seq<u8> {
    if b == 34 {
        seq![92u8, 34u8]
    } else if b == 92 {
        seq![92u8, 92u8]
    } else if b < 32 || b >= 127 {
        seq![92u8, 117u8, 48u8, 48u8, hex_digit((b / 16) as int), hex_digit((b % 16) as int)]
    } else {
        seq![b]
    }
}

/// The escaped rendering of a byte string's contents.
pub open spec fn json_escaped(b: Seq<u8>) -> Seq<u8>
    decreases b.len(),
{
    if b.len() == 0 {
        Seq::empty()
    } else {
        json_escaped(b.drop_last()) + esc_byte(b.last())
    }
}

/// The JSON-style text of a value: integers in decimal, byte strings
/// double-quoted with escapes, lists bracketed and maps braced with
/// comma-separated elements in stored order.
pub open spec fn json_of(v: SpecValue) -> Seq<u8>
    decreases v, 0int,
{
    match v {
        SpecValue::Int(i) => dec_rep_signed(i),
        SpecValue::Bytes(b) => seq![34u8] + json_escaped(b) + seq![34u8],
        SpecValue::List(items) => seq![91u8] + json_items(items) + seq![93u8],
        SpecValue::Dict(es) => seq![123u8] + json_entries(es) + seq![125u8],
    }
}

/// Comma-separated renderings of list items.
pub open spec fn json_items(items: Seq<SpecValue>) -> Seq<u8>
    decreases items, 1int,
{
    if items.len() == 0 {
        Seq::empty()
    } else if items.len() == 1 {
        json_of(items.last())
    } else {
        json_items(items.drop_last()) + seq![44u8] + json_of(items.last())
    }
}

/// Comma-separated renderings of map entries, each a quoted key, ':' and
/// the value.
pub open spec fn json_entries(es: Seq<(Seq<u8>, SpecValue)>) -> Seq<u8>
    decreases es, 1int,
{
    if es.len() == 0 {
        Seq::empty()
    } else if es.len() == 1 {
        json_entry(es.last())
    } else {
        json_entries(es.drop_last()) + seq![44u8] + json_entry(es.last())
    }
}

/// The rendering of one map entry.
pub open spec fn json_entry(e: (Seq<u8>, SpecValue)) -> Seq<u8>
    decreases e, 2int,
{
    seq![34u8] + json_escaped(e.0) + seq![34u8, 58u8] + json_of(e.1)
}

/// Append the escaped contents of a byte string.
fn render_escaped(b: &Vec<u8>, out: &mut Vec<u8>)
    ensures
        final(out)@ == old(out)@ + json_escaped(b@),
{
    let mut i: usize = 0;
    while i < b.len()
        invariant
            i <= b@.len(),
            out@ == old(out)@ + json_escaped(b@.take(i as int)),
        decreases b.len() - i,
    {
        let x = b[i];
        if x == 34 {
            out.push(92);
            out.push(34);
        } else if x == 92 {
            out.push(92);
            out.push(92);
        } else if x < 32 || x >= 127 {
            out.push(92);
            out.push(117);
            out.push(48);
            out.push(48);
            out.push(if x / 16 < 10 {
                48 + x / 16
            } else {
                87 + x / 16
            });
            out.push(if x % 16 < 10 {
                48 + x % 16
            } else {
                87 + x % 16
            });
        } else {
            out.push(x);
        }
        proof {
            assert(b@.take(i + 1).drop_last() =~= b@.take(i as int));
            assert(b@.take(i + 1).last() == b@[i as int]);
            assert(out@ =~= old(out)@ + json_escaped(b@.take(i + 1)));
        }
        i += 1;
    }
    proof {
        assert(b@.take(b@.len() as int) =~= b@);
    }
}

/// Append the rendering of a value.
#[verifier::loop_isolation(false)]
fn render_into(v: &Value, out: &mut Vec<u8>)
    ensures
        final(out)@ == old(out)@ + json_of(v.model()),
    decreases v,
{
    match v {
        Value::Integer(i) => {
            let mut digits = crate::util::i64_to_dec(*i);
            out.append(&mut digits);
        },
        Value::Bytes(b) => {
            out.push(34);
            render_escaped(b, out);
            out.push(34);
            proof {
                assert(out@ =~= old(out)@ + (seq![34u8] + json_escaped(b@) + seq![34u8]));
            }
        },
        Value::List(vs) => {
            out.push(91);
            let mut j: usize = 0;
            while j < vs.len()
                invariant
                    j <= vs@.len(),
                    out@ == old(out)@ + seq![91u8] + json_items(values_view(vs@).take(j as int)),
                decreases vs.len() - j,
            {
                if j > 0 {
                    out.push(44);
                }
                render_into(&vs[j], out);
                proof {
                    let w = values_view(vs@);
                    assert(w.take(j + 1).drop_last() =~= w.take(j as int));
                    assert(w.take(j + 1).last() == w[j as int]);
                    assert(out@ =~= old(out)@ + seq![91u8] + json_items(w.take(j + 1)));
                }
                j += 1;
            }
            out.push(93);
            proof {
                let w = values_view(vs@);
                assert(w.take(w.len() as int) =~= w);
                assert(out@ =~= old(out)@ + (seq![91u8] + json_items(w) + seq![93u8]));
            }
        },
        Value::Dict(es) => {
            out.push(123);
            let mut j: usize = 0;
            while j < es.len()
                invariant
                    j <= es@.len(),
                    out@ == old(out)@ + seq![123u8] + json_entries(
                        entries_view(es@).take(j as int),
                    ),
                decreases es.len() - j,
            {
                if j > 0 {
                    out.push(44);
                }
                out.push(34);
                render_escaped(&es[j].0, out);
                out.push(34);
                out.push(58);
                render_into(&es[j].1, out);
                proof {
                    let w = entries_view(es@);
                    assert(w.take(j + 1).drop_last() =~= w.take(j as int));
                    assert(w.take(j + 1).last() == w[j as int]);
                    assert(json_entry(w[j as int]) == seq![34u8] + json_escaped(es@[j as int].0@)
                        + seq![34u8, 58u8] + json_of(es@[j as int].1.model()));
                    assert(out@ =~= old(out)@ + seq![123u8] + json_entries(w.take(j + 1)));
                }
                j += 1;
            }
            out.push(125);
            proof {
                let w = entries_view(es@);
                assert(w.take(w.len() as int) =~= w);
                assert(out@ =~= old(out)@ + (seq![123u8] + json_entries(w) + seq![125u8]));
            }
        },
    }
}

/// Every escaped byte is 7-bit ASCII.
proof fn lemma_escaped_ascii(b: Seq<u8>)
    ensures
        all_ascii(json_escaped(b)),
    decreases b.len(),
{
    if b.len() > 0 {
        lemma_escaped_ascii(b.drop_last());
        let x = b.last();
        assert(hex_digit((x / 16) as int) < 128 && hex_digit((x % 16) as int) < 128);
        assert forall|i: int| 0 <= i < esc_byte(x).len() implies #[trigger] esc_byte(x)[i]
            < 128 by {}
    }
}

/// Every rendered byte is 7-bit ASCII.
proof fn lemma_json_ascii(v: SpecValue)
    ensures
        all_ascii(json_of(v)),
    decreases v, 0int,
{
    match v {
        SpecValue::Int(i) => {
            crate::util::lemma_dec_rep_digits(if i < 0 {
                (-i) as nat
            } else {
                i as nat
            });
            assert forall|j: int| 0 <= j < dec_rep_signed(i).len() implies
                #[trigger] dec_rep_signed(i)[j] < 128 by {
                if i < 0 {
                    if j > 0 {
                        assert(crate::util::is_digit(dec_rep((-i) as nat)[j - 1]));
                    }
                } else {
                    assert(crate::util::is_digit(dec_rep_signed(i)[j]));
                }
            }
        },
        SpecValue::Bytes(b) => {
            lemma_escaped_ascii(b);
        },
        SpecValue::List(items) => {
            lemma_json_items_ascii(items);
        },
        SpecValue::Dict(es) => {
            lemma_json_entries_ascii(es);
        },
    }
}

/// Every rendered list byte is 7-bit ASCII.
proof fn lemma_json_items_ascii(items: Seq<SpecValue>)
    ensures
        all_ascii(json_items(items)),
    decreases items, 1int,
{
    if items.len() > 0 {
        lemma_json_items_ascii(items.drop_last());
        lemma_json_ascii(items.last());
    }
}

/// Every rendered map byte is 7-bit ASCII.
proof fn lemma_json_entries_ascii(es: Seq<(Seq<u8>, SpecValue)>)
    ensures
        all_ascii(json_entries(es)),
    decreases es, 1int,
{
    if es.len() > 0 {
        lemma_json_entries_ascii(es.drop_last());
        lemma_escaped_ascii(es.last().0);
        lemma_json_ascii(es.last().1);
        let e = es.last();
        assert forall|i: int| 0 <= i < json_entry(e).len() implies #[trigger] json_entry(e)[i]
            < 128 by {
            let a = seq![34u8] + json_escaped(e.0);
            let b = seq![34u8, 58u8] + json_of(e.1);
            assert(json_entry(e) =~= a + b);
            if i < a.len() {
                if i >= 1 {
                    assert(json_escaped(e.0)[i - 1] < 128);
                }
            } else {
                let t = i - a.len();
                if t >= 2 {
                    assert(json_of(e.1)[t - 2] < 128);
                }
            }
        }
        assert(all_ascii(json_entry(e)));
        if es.len() > 1 {
            let pre = json_entries(es.drop_last());
            assert forall|i: int| 0 <= i < json_entries(es).len() implies
                #[trigger] json_entries(es)[i] < 128 by {
                assert(json_entries(es) == pre + seq![44u8] + json_entry(e));
                if i < pre.len() {
                    assert(pre[i] < 128);
                } else if i > pre.len() {
                    assert(json_entry(e)[i - pre.len() - 1] < 128);
                }
            }
        }
    }
}

impl Value {
    /// The JSON-style text of this value, as `json_of` describes it.
    pub fn render(&self) -> (r: String)
        ensures
            r@ == ascii_chars(json_of(self.model())),
    {
        let mut out: Vec<u8> = Vec::new();
        render_into(self, &mut out);
        proof {
            lemma_json_ascii(self.model());
        }
        ascii_string(&out)
    }
}

} // verus!
