//! The RESP encoder: a `Value` becomes its exact wire-format byte
//! sequence. Encoding never fails; `Nil` is written in its bulk-null form
//! `$-1\r\n`, the same shape the decoder turns back into `Nil`.

use vstd::prelude::*;

use crate::num::{dec_u, int_bytes, push_i64_digits, push_u64_digits};
use crate::value::{elems_view, lemma_elems_view, push_bytes_vec, Value, ValueModel};

verus! {

/// The wire bytes of a value: tag, decimal length or payload, `\r\n`
/// terminators, and for arrays the elements' encodings in order.
pub open spec fn encode_spec(v: ValueModel) -> Seq<u8>
    decreases v, 0nat,
{
    match v {
        ValueModel::Okay => seq![43u8, 79u8, 75u8, 13u8, 10u8],
        ValueModel::Nil => seq![36u8, 45u8, 49u8, 13u8, 10u8],
        ValueModel::SimpleString(p) => seq![43u8] + p + seq![13u8, 10u8],
        ValueModel::ServerError(p) => seq![45u8] + p + seq![13u8, 10u8],
        ValueModel::Integer(i) => seq![58u8] + int_bytes(i as int) + seq![13u8, 10u8],
        ValueModel::BulkString(p) => seq![36u8] + dec_u(p.len()) + seq![13u8, 10u8] + p + seq![
            13u8,
            10u8,
        ],
        ValueModel::Array(vs) => seq![42u8] + dec_u(vs.len()) + seq![13u8, 10u8] + enc_list(vs),
    }
}

/// The concatenated encodings of a run of values.
pub open spec fn enc_list(vs: Seq<ValueModel>) -> Seq<u8>
    decreases vs, 1nat,
{
    if vs.len() == 0 {
        Seq::empty()
    } else {
        proof {
            assert(decreases_to!(vs => vs[0]));
            assert(decreases_to!(vs => vs.subrange(1, vs.len() as int)));
        }
        encode_spec(vs[0]) + enc_list(vs.subrange(1, vs.len() as int))
    }
}

/// Encoding a run of values element by element or all at once is the same.
pub proof fn lemma_enc_list_concat(a: Seq<ValueModel>, b: Seq<ValueModel>)
    ensures
        enc_list(a + b) == enc_list(a) + enc_list(b),
    decreases a.len(),
{
    if a.len() == 0 {
        assert(a + b =~= b);
        assert(enc_list(a) =~= Seq::<u8>::empty());
        assert(enc_list(a) + enc_list(b) =~= enc_list(b));
    } else {
        let t = a.subrange(1, a.len() as int);
        lemma_enc_list_concat(t, b);
        assert((a + b).subrange(1, (a + b).len() as int) =~= t + b);
        assert((a + b)[0] == a[0]);
        assert((a + b).len() > 0);
        assert(enc_list(a + b) == encode_spec(a[0]) + enc_list(t + b));
        assert(encode_spec(a[0]) + (enc_list(t) + enc_list(b)) =~= (encode_spec(a[0]) + enc_list(t))
            + enc_list(b));
    }
}

/// Append the two-byte `\r\n` terminator.
fn push_crlf(out: &mut Vec<u8>)
    ensures
        final(out)@ == old(out)@ + seq![13u8, 10u8],
{
    out.push(13);
    out.push(10);
    assert(out@ =~= old(out)@ + seq![13u8, 10u8]);
}

/// Append the exact wire encoding of `v`.
#[verifier::loop_isolation(false)]
pub fn encode(v: &Value, out: &mut Vec<u8>)
    ensures
        final(out)@ == old(out)@ + encode_spec(v@),
    decreases v,
{
    match v {
        Value::Okay => {
            out.push(43);
            out.push(79);
            out.push(75);
            out.push(13);
            out.push(10);
            assert(out@ =~= old(out)@ + encode_spec(v@));
        },
        Value::Nil => {
            out.push(36);
            out.push(45);
            out.push(49);
            out.push(13);
            out.push(10);
            assert(out@ =~= old(out)@ + encode_spec(v@));
        },
        Value::SimpleString(p) => {
            out.push(43);
            push_bytes_vec(out, p);
            push_crlf(out);
            assert(out@ =~= old(out)@ + encode_spec(v@));
        },
        Value::ServerError(p) => {
            out.push(45);
            push_bytes_vec(out, p);
            push_crlf(out);
            assert(out@ =~= old(out)@ + encode_spec(v@));
        },
        Value::Integer(i) => {
            out.push(58);
            push_i64_digits(out, *i);
            push_crlf(out);
            assert(out@ =~= old(out)@ + encode_spec(v@));
        },
        Value::BulkString(p) => {
            out.push(36);
            push_u64_digits(out, p.len() as u64);
            push_crlf(out);
            push_bytes_vec(out, p);
            push_crlf(out);
            assert(out@ =~= old(out)@ + encode_spec(v@));
        },
        Value::Array(vs) => {
            proof {
                lemma_elems_view(vs@);
            }
            out.push(42);
            push_u64_digits(out, vs.len() as u64);
            push_crlf(out);
            let ghost header_done = out@;
            let mut i: usize = 0;
            proof {
                assert(elems_view(vs@).take(0) =~= Seq::<ValueModel>::empty());
                assert(out@ =~= header_done + enc_list(elems_view(vs@).take(0)));
            }
            while i < vs.len()
                invariant
                    0 <= i <= vs@.len(),
                    elems_view(vs@).len() == vs@.len(),
                    forall|k: int| 0 <= k < vs@.len() ==> elems_view(vs@)[k] == vs@[k]@,
                    out@ == header_done + enc_list(elems_view(vs@).take(i as int)),
                    header_done == old(out)@ + seq![42u8] + dec_u(vs@.len() as nat) + seq![
                        13u8,
                        10u8,
                    ],
                decreases vs@.len() - i,
            {
                proof {
                    assert(decreases_to!(v => v->Array_0));
                    assert(decreases_to!(vs => vs@));
                    assert(decreases_to!(vs@ => vs@[i as int]));
                }
                let ghost before = out@;
                encode(&vs[i], out);
                proof {
                    let m = elems_view(vs@);
                    assert(m.take(i + 1) =~= m.take(i as int) + seq![m[i as int]]);
                    lemma_enc_list_concat(m.take(i as int), seq![m[i as int]]);
                    assert(enc_list(seq![m[i as int]]) == encode_spec(m[i as int]) + enc_list(
                        seq![m[i as int]].subrange(1, 1),
                    ));
                    assert(seq![m[i as int]].subrange(1, 1) =~= Seq::<ValueModel>::empty());
                    assert(enc_list(seq![m[i as int]]) =~= encode_spec(m[i as int]));
                    assert(out@ =~= header_done + enc_list(m.take(i + 1)));
                }
                i = i + 1;
            }
            proof {
                let m = elems_view(vs@);
                assert(m.take(m.len() as int) =~= m);
                assert(v@ == ValueModel::Array(m));
                assert(out@ =~= old(out)@ + encode_spec(v@));
            }
        },
    }
}

} // verus!
