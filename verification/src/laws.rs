//! Relations between the encoder and the decoder.
//!
//! The central results: every encodable value decodes back to itself from
//! its own encoding (`lemma_round_trip`); a decoded frame depends only on
//! the bytes it consumed, and any shorter prefix of it is reported as
//! incomplete, never as an error (`lemma_streaming_split`); and a buffer
//! whose first byte is not one of the five RESP tags is an error at offset
//! zero (`lemma_unknown_tag`).

use vstd::prelude::*;
use vstd::utf8::valid_utf8;

use crate::decode::{
    dec_elems, dec_value, find_crlf_from, spec_decode, ErrorKind, SpecDecoded, SpecElems,
    MAX_DEPTH,
};
use crate::encode::{enc_list, encode_spec};
use crate::num::{
    dec_u, int_bytes, is_digit, lemma_dec_u, lemma_int_bytes_plain, lemma_parse_int_bytes,
    parse_int_line,
};
use crate::value::ValueModel;

verus! {

/// No two-byte `\r\n` pair anywhere in `p`.
pub open spec fn no_crlf(p: Seq<u8>) -> bool {
    forall|k: int| #![trigger p[k]] 0 <= k && k + 1 < p.len() ==> !(p[k] == 13 && p[k + 1] == 10)
}

/// The values whose encodings decode back to themselves: simple-string and
/// error payloads must be valid UTF-8 with no embedded line terminator, a
/// simple string must not spell exactly `OK` (that encoding denotes
/// `Okay`), and lengths must fit the wire's signed 64-bit length prefix.
pub open spec fn encodable(v: ValueModel) -> bool
    decreases v, 0nat,
{
    match v {
        ValueModel::Okay => true,
        ValueModel::Nil => true,
        ValueModel::SimpleString(p) => valid_utf8(p) && no_crlf(p) && p != seq![79u8, 75u8],
        ValueModel::ServerError(p) => valid_utf8(p) && no_crlf(p),
        ValueModel::Integer(_) => true,
        ValueModel::BulkString(p) => p.len() <= i64::MAX,
        ValueModel::Array(vs) => vs.len() <= i64::MAX && all_encodable(vs),
    }
}

/// Every element is encodable.
pub open spec fn all_encodable(vs: Seq<ValueModel>) -> bool
    decreases vs, 1nat,
{
    if vs.len() == 0 {
        true
    } else {
        proof {
            assert(decreases_to!(vs => vs[0]));
            assert(decreases_to!(vs => vs.subrange(1, vs.len() as int)));
        }
        encodable(vs[0]) && all_encodable(vs.subrange(1, vs.len() as int))
    }
}

/// How many array levels enclose the deepest part of the value.
pub open spec fn nesting_depth(v: ValueModel) -> nat
    decreases v, 0nat,
{
    match v {
        ValueModel::Array(vs) => 1 + list_depth(vs),
        _ => 0,
    }
}

/// The deepest nesting among the elements.
pub open spec fn list_depth(vs: Seq<ValueModel>) -> nat
    decreases vs, 1nat,
{
    if vs.len() == 0 {
        0
    } else {
        proof {
            assert(decreases_to!(vs => vs[0]));
            assert(decreases_to!(vs => vs.subrange(1, vs.len() as int)));
        }
        let h = nesting_depth(vs[0]);
        let r = list_depth(vs.subrange(1, vs.len() as int));
        if h >= r {
            h
        } else {
            r
        }
    }
}

/// A terminator sits at `j` and none comes before it: the scan finds `j`.
proof fn lemma_find_crlf_at(s: Seq<u8>, i: int, j: int)
    requires
        0 <= i <= j,
        j + 2 <= s.len(),
        s[j] == 13,
        s[j + 1] == 10,
        forall|k: int| #![trigger s[k]] i <= k < j ==> !(s[k] == 13 && s[k + 1] == 10),
    ensures
        find_crlf_from(s, i) == Option::Some(j),
    decreases j - i,
{
    if i < j {
        assert(!(s[i] == 13 && s[i + 1] == 10));
        lemma_find_crlf_at(s, i + 1, j);
    }
}

/// No terminator anywhere at or after `i`: the scan finds nothing.
proof fn lemma_find_crlf_none(s: Seq<u8>, i: int)
    requires
        0 <= i <= s.len(),
        forall|k: int| #![trigger s[k]] i <= k && k + 2 <= s.len() ==> !(s[k] == 13 && s[k + 1]
            == 10),
    ensures
        find_crlf_from(s, i) is None,
    decreases s.len() - i,
{
    if i + 2 <= s.len() {
        lemma_find_crlf_none(s, i + 1);
    }
}

/// What a successful scan means: a terminator at the reported position and
/// none in front of it.
proof fn lemma_find_crlf_inv(s: Seq<u8>, i: int)
    requires
        0 <= i <= s.len(),
    ensures
        find_crlf_from(s, i) matches Option::Some(j) ==> {
            &&& i <= j
            &&& j + 2 <= s.len()
            &&& s[j] == 13
            &&& s[j + 1] == 10
            &&& forall|k: int| #![trigger s[k]] i <= k < j ==> !(s[k] == 13 && s[k + 1] == 10)
        },
    decreases s.len() - i,
{
    if i + 2 > s.len() {
    } else if s[i] == 13 && s[i + 1] == 10 {
    } else {
        lemma_find_crlf_inv(s, i + 1);
    }
}

/// In a frame `tag ++ p ++ \r\n ++ t` whose payload holds no terminator,
/// the scan from position 1 finds exactly the frame's own terminator.
proof fn lemma_line_frame(tag: u8, p: Seq<u8>, t: Seq<u8>)
    requires
        no_crlf(p),
    ensures
        ({
            let s = seq![tag] + p + seq![13u8, 10u8] + t;
            &&& s.len() == 3 + p.len() + t.len()
            &&& s[0] == tag
            &&& find_crlf_from(s, 1) == Option::Some(1 + p.len() as int)
            &&& s.subrange(1, 1 + p.len() as int) == p
        }),
{
    let s = seq![tag] + p + seq![13u8, 10u8] + t;
    let j = 1 + p.len() as int;
    assert(s[j] == 13);
    assert(s[j + 1] == 10);
    assert(forall|k: int| 0 <= k < p.len() ==> s[1 + k] == p[k]);
    assert forall|k: int| #![trigger s[k]] 1 <= k < j implies !(s[k] == 13 && s[k + 1] == 10) by {
        if k + 1 < j {
            assert(s[k] == p[k - 1]);
            assert(s[k + 1] == p[k]);
        } else {
            assert(s[k + 1] == 13);
        }
    }
    lemma_find_crlf_at(s, 1, j);
    assert(s.subrange(1, j) =~= p);
}

/// A successfully decoded frame consumed at least one byte and no more
/// than the buffer holds; a successful element run likewise, and it
/// yielded exactly as many values as were asked for.
proof fn lemma_used_bounds(s: Seq<u8>, depth: nat)
    ensures
        dec_value(s, depth) matches SpecDecoded::Found { v, used } ==> 1 <= used <= s.len(),
    decreases depth, 0nat, 0nat,
{
    if s.len() > 0 && s[0] == 42 {
        if let Option::Some(j) = find_crlf_from(s, 1) {
            lemma_find_crlf_inv(s, 1);
            if let Option::Some(n) = parse_int_line(s.subrange(1, j)) {
                if n > 0 || n == 0 {
                    if depth > 0 {
                        lemma_elems_used_bounds(s.skip(j + 2), n as nat, (depth - 1) as nat);
                    }
                }
            }
        }
    } else if s.len() > 0 && (s[0] == 43 || s[0] == 45 || s[0] == 58 || s[0] == 36) {
        lemma_find_crlf_inv(s, 1);
    }
}

proof fn lemma_elems_used_bounds(s: Seq<u8>, n: nat, depth: nat)
    ensures
        dec_elems(s, n, depth) matches SpecElems::Found { vs, used } ==> {
            &&& 0 <= used <= s.len()
            &&& vs.len() == n
        },
    decreases depth, 1nat, n,
{
    if n > 0 {
        lemma_used_bounds(s, depth);
        if let SpecDecoded::Found { v, used } = dec_value(s, depth) {
            lemma_elems_used_bounds(s.skip(used), (n - 1) as nat, depth);
        }
    }
}

/// Decoding the encoding of an encodable value, with any bytes following
/// it, yields exactly that value and consumes exactly its encoding.
proof fn lemma_rt_value(v: ValueModel, t: Seq<u8>, depth: nat)
    requires
        encodable(v),
        nesting_depth(v) <= depth,
    ensures
        dec_value(encode_spec(v) + t, depth) == (SpecDecoded::Found {
            v,
            used: encode_spec(v).len() as int,
        }),
    decreases v, 0nat,
{
    let s = encode_spec(v) + t;
    match v {
        ValueModel::Okay => {
            let p = seq![79u8, 75u8];
            assert(encode_spec(v) =~= seq![43u8] + p + seq![13u8, 10u8]);
            assert(s =~= seq![43u8] + p + seq![13u8, 10u8] + t);
            assert(no_crlf(p));
            lemma_line_frame(43u8, p, t);
            assert(valid_utf8(p)) by {
                let chars = seq!['O', 'K'];
                assert(vstd::utf8::is_ascii_chars(chars));
                vstd::utf8::is_ascii_chars_encode_utf8(chars);
                assert(p =~= vstd::utf8::encode_utf8(chars));
                vstd::utf8::encode_utf8_valid_utf8(chars);
            }
        },
        ValueModel::Nil => {
            let p = seq![45u8, 49u8];
            assert(encode_spec(v) =~= seq![36u8] + p + seq![13u8, 10u8]);
            assert(s =~= seq![36u8] + p + seq![13u8, 10u8] + t);
            assert(no_crlf(p));
            lemma_line_frame(36u8, p, t);
            assert(p =~= int_bytes(-1));
            lemma_parse_int_bytes(-1);
        },
        ValueModel::SimpleString(p) => {
            assert(s =~= seq![43u8] + p + seq![13u8, 10u8] + t);
            lemma_line_frame(43u8, p, t);
        },
        ValueModel::ServerError(p) => {
            assert(s =~= seq![45u8] + p + seq![13u8, 10u8] + t);
            lemma_line_frame(45u8, p, t);
        },
        ValueModel::Integer(i) => {
            let p = int_bytes(i as int);
            assert(s =~= seq![58u8] + p + seq![13u8, 10u8] + t);
            lemma_int_bytes_plain(i as int);
            assert(no_crlf(p));
            lemma_line_frame(58u8, p, t);
            lemma_parse_int_bytes(i as int);
        },
        ValueModel::BulkString(p) => {
            let l = p.len() as int;
            let h = dec_u(p.len());
            lemma_dec_u(p.len());
            assert(no_crlf(h)) by {
                assert(forall|k: int|
                    0 <= k < h.len() ==> is_digit(#[trigger] h[k]) && h[k] != 13);
            }
            let rest = p + seq![13u8, 10u8] + t;
            assert(s =~= seq![36u8] + h + seq![13u8, 10u8] + rest);
            lemma_line_frame(36u8, h, rest);
            let j = 1 + h.len() as int;
            assert(h =~= int_bytes(l));
            lemma_parse_int_bytes(l);
            assert(parse_int_line(s.subrange(1, j)) == Option::Some(l as i64));
            assert(s.len() == j + 2 + l + 2 + t.len());
            assert(forall|k: int| 0 <= k < rest.len() ==> s[j + 2 + k] == rest[k]);
            assert(s[j + 2 + l] == 13);
            assert(s[j + 2 + l + 1] == 10);
            assert(s.subrange(j + 2, j + 2 + l) =~= p);
            assert(encode_spec(v).len() == j + 2 + l + 2);
        },
        ValueModel::Array(vs) => {
            let n = vs.len() as int;
            let h = dec_u(vs.len());
            lemma_dec_u(vs.len());
            assert(no_crlf(h)) by {
                assert(forall|k: int|
                    0 <= k < h.len() ==> is_digit(#[trigger] h[k]) && h[k] != 13);
            }
            let rest = enc_list(vs) + t;
            assert(s =~= seq![42u8] + h + seq![13u8, 10u8] + rest);
            lemma_line_frame(42u8, h, rest);
            let j = 1 + h.len() as int;
            assert(h =~= int_bytes(n));
            lemma_parse_int_bytes(n);
            assert(parse_int_line(s.subrange(1, j)) == Option::Some(n as i64));
            assert(depth > 0);
            assert(s.skip(j + 2) =~= rest);
            assert(decreases_to!(v => vs));
            lemma_rt_list(vs, t, (depth - 1) as nat);
            assert(dec_elems(rest, vs.len(), (depth - 1) as nat) == (SpecElems::Found {
                vs,
                used: enc_list(vs).len() as int,
            }));
            assert(encode_spec(v).len() == j + 2 + enc_list(vs).len());
        },
    }
}

/// Decoding the concatenated encodings of a run of encodable values, with
/// any bytes following them, yields exactly those values.
proof fn lemma_rt_list(vs: Seq<ValueModel>, t: Seq<u8>, depth: nat)
    requires
        all_encodable(vs),
        list_depth(vs) <= depth,
    ensures
        dec_elems(enc_list(vs) + t, vs.len(), depth) == (SpecElems::Found {
            vs,
            used: enc_list(vs).len() as int,
        }),
    decreases vs, 1nat,
{
    if vs.len() == 0 {
        assert(enc_list(vs) =~= Seq::<u8>::empty());
        assert(vs =~= Seq::<ValueModel>::empty());
    } else {
        let v0 = vs[0];
        let rest = vs.subrange(1, vs.len() as int);
        assert(decreases_to!(vs => vs[0]));
        assert(decreases_to!(vs => vs.subrange(1, vs.len() as int)));
        let s = enc_list(vs) + t;
        let tail = enc_list(rest) + t;
        assert(enc_list(vs) == encode_spec(v0) + enc_list(rest));
        assert(s =~= encode_spec(v0) + tail);
        lemma_rt_value(v0, tail, depth);
        let u0 = encode_spec(v0).len() as int;
        assert(s.skip(u0) =~= tail);
        lemma_rt_list(rest, t, depth);
        assert(dec_elems(tail, rest.len(), depth) == (SpecElems::Found {
            vs: rest,
            used: enc_list(rest).len() as int,
        }));
        assert(seq![v0] + rest =~= vs);
        assert(dec_elems(s, vs.len(), depth) == (SpecElems::Found {
            vs,
            used: u0 + enc_list(rest).len(),
        }));
    }
}

/// Round trip: decoding the bytes produced by encoding any encodable
/// value yields that value back, consuming the whole encoding.
pub proof fn lemma_round_trip(v: ValueModel)
    requires
        encodable(v),
        nesting_depth(v) <= MAX_DEPTH as nat,
    ensures
        spec_decode(encode_spec(v)) == (SpecDecoded::Found {
            v,
            used: encode_spec(v).len() as int,
        }),
{
    lemma_rt_value(v, Seq::empty(), MAX_DEPTH as nat);
    assert(encode_spec(v) + Seq::<u8>::empty() =~= encode_spec(v));
}

/// A decoded frame depends only on the bytes it consumed: any buffer that
/// agrees on those bytes decodes to the same frame.
proof fn lemma_stable_value(s: Seq<u8>, s2: Seq<u8>, depth: nat)
    requires
        dec_value(s, depth) is Found,
        s2.len() >= dec_value(s, depth)->used,
        s2.take(dec_value(s, depth)->used) == s.take(dec_value(s, depth)->used),
    ensures
        dec_value(s2, depth) == dec_value(s, depth),
    decreases depth, 0nat, 0nat,
{
    let u = dec_value(s, depth)->used;
    lemma_used_bounds(s, depth);
    assert forall|k: int| 0 <= k < u implies s2[k] == s[k] by {
        assert(s2.take(u)[k] == s.take(u)[k]);
    }
    let tag = s[0];
    if tag == 43 || tag == 45 || tag == 58 || tag == 36 || tag == 42 {
        lemma_find_crlf_inv(s, 1);
        let j = find_crlf_from(s, 1)->0;
        assert(find_crlf_from(s, 1) is Some);
        assert(j + 2 <= u) by {
            if tag == 42 {
                if let Option::Some(n) = parse_int_line(s.subrange(1, j)) {
                    if n >= 0 && depth > 0 {
                        lemma_elems_used_bounds(s.skip(j + 2), n as nat, (depth - 1) as nat);
                    }
                }
            }
        }
        lemma_find_crlf_at(s2, 1, j);
        assert(s2.subrange(1, j) =~= s.subrange(1, j));
        if tag == 36 {
            if let Option::Some(len) = parse_int_line(s.subrange(1, j)) {
                if len >= 0 {
                    assert(u == j + 2 + len + 2);
                    assert(s2.subrange(j + 2, j + 2 + len) =~= s.subrange(j + 2, j + 2 + len));
                    assert(s2[j + 2 + len] == s[j + 2 + len]);
                    assert(s2[j + 2 + len + 1] == s[j + 2 + len + 1]);
                }
            }
        }
        if tag == 42 {
            if let Option::Some(n) = parse_int_line(s.subrange(1, j)) {
                if n >= 0 {
                    assert(depth > 0);
                    let inner = dec_elems(s.skip(j + 2), n as nat, (depth - 1) as nat);
                    assert(inner is Found);
                    let m = inner->used;
                    assert(u == j + 2 + m);
                    lemma_elems_used_bounds(s.skip(j + 2), n as nat, (depth - 1) as nat);
                    assert(s2.skip(j + 2).take(m) =~= s.skip(j + 2).take(m));
                    lemma_stable_elems(
                        s.skip(j + 2),
                        s2.skip(j + 2),
                        n as nat,
                        (depth - 1) as nat,
                    );
                }
            }
        }
    }
}

/// A decoded element run depends only on the bytes it consumed.
proof fn lemma_stable_elems(s: Seq<u8>, s2: Seq<u8>, n: nat, depth: nat)
    requires
        dec_elems(s, n, depth) is Found,
        s2.len() >= dec_elems(s, n, depth)->used,
        s2.take(dec_elems(s, n, depth)->used) == s.take(dec_elems(s, n, depth)->used),
    ensures
        dec_elems(s2, n, depth) == dec_elems(s, n, depth),
    decreases depth, 1nat, n,
{
    if n > 0 {
        let u = dec_elems(s, n, depth)->used;
        lemma_elems_used_bounds(s, n, depth);
        assert forall|k: int| 0 <= k < u implies s2[k] == s[k] by {
            assert(s2.take(u)[k] == s.take(u)[k]);
        }
        let first = dec_value(s, depth);
        assert(first is Found);
        let u0 = first->used;
        let rest = dec_elems(s.skip(u0), (n - 1) as nat, depth);
        assert(rest is Found);
        let m = rest->used;
        assert(u == u0 + m);
        lemma_used_bounds(s, depth);
        lemma_elems_used_bounds(s.skip(u0), (n - 1) as nat, depth);
        assert(s2.take(u0) =~= s.take(u0));
        lemma_stable_value(s, s2, depth);
        assert(s2.skip(u0).take(m) =~= s.skip(u0).take(m));
        lemma_stable_elems(s.skip(u0), s2.skip(u0), (n - 1) as nat, depth);
    }
}

/// Any strict prefix of a decodable frame is incomplete: never an error,
/// never a different frame.
proof fn lemma_prefix_value(s: Seq<u8>, depth: nat, i: int)
    requires
        dec_value(s, depth) is Found,
        0 <= i < dec_value(s, depth)->used,
    ensures
        dec_value(s.take(i), depth) == SpecDecoded::Incomplete,
    decreases depth, 0nat, 0nat,
{
    let u = dec_value(s, depth)->used;
    lemma_used_bounds(s, depth);
    let p = s.take(i);
    if i == 0 {
        assert(p.len() == 0);
    } else {
        assert(p[0] == s[0]);
        let tag = s[0];
        lemma_find_crlf_inv(s, 1);
        let j = find_crlf_from(s, 1)->0;
        assert(find_crlf_from(s, 1) is Some);
        if i < j + 2 {
            lemma_find_crlf_none(p, 1);
            assert(find_crlf_from(p, 1) is None);
        } else {
            // The whole header line is present, so only a payload or an
            // element can be missing: a bulk string or an array.
            lemma_find_crlf_at(p, 1, j);
            assert(p.subrange(1, j) =~= s.subrange(1, j));
            if tag == 36 {
                if let Option::Some(len) = parse_int_line(s.subrange(1, j)) {
                    if len >= 0 {
                        assert(u == j + 2 + len + 2);
                        assert(p.len() < j + 2 + len + 2);
                    }
                }
            }
            if tag == 42 {
                if let Option::Some(n) = parse_int_line(s.subrange(1, j)) {
                    if n >= 0 {
                        assert(depth > 0);
                        let inner = dec_elems(s.skip(j + 2), n as nat, (depth - 1) as nat);
                        assert(inner is Found);
                        let m = inner->used;
                        assert(u == j + 2 + m);
                        assert(p.skip(j + 2) =~= s.skip(j + 2).take(i - (j + 2)));
                        lemma_prefix_elems(
                            s.skip(j + 2),
                            n as nat,
                            (depth - 1) as nat,
                            i - (j + 2),
                        );
                    }
                }
            }
        }
    }
}

/// Any strict prefix of a decodable element run is incomplete.
proof fn lemma_prefix_elems(s: Seq<u8>, n: nat, depth: nat, i: int)
    requires
        dec_elems(s, n, depth) is Found,
        0 <= i < dec_elems(s, n, depth)->used,
    ensures
        dec_elems(s.take(i), n, depth) == SpecElems::Incomplete,
    decreases depth, 1nat, n,
{
    assert(n > 0);
    let first = dec_value(s, depth);
    assert(first is Found);
    let u0 = first->used;
    let rest = dec_elems(s.skip(u0), (n - 1) as nat, depth);
    assert(rest is Found);
    let m = rest->used;
    lemma_used_bounds(s, depth);
    lemma_elems_used_bounds(s.skip(u0), (n - 1) as nat, depth);
    if i < u0 {
        lemma_prefix_value(s, depth, i);
    } else {
        assert(s.take(i).len() >= u0);
        assert(s.take(i).take(u0) =~= s.take(u0));
        lemma_stable_value(s, s.take(i), depth);
        assert(dec_value(s.take(i), depth) == first);
        assert(s.take(i).skip(u0) =~= s.skip(u0).take(i - u0));
        lemma_prefix_elems(s.skip(u0), (n - 1) as nat, depth, i - u0);
    }
}

/// Streaming equivalence: a valid encoded message split at any byte
/// offset decodes the same way. The first chunk either already holds the
/// whole frame, yielding the very same value and consumed count, or is
/// reported incomplete, so the caller buffers the second chunk and then
/// decodes the identical full buffer.
pub proof fn lemma_streaming_split(s: Seq<u8>, i: int)
    requires
        0 <= i <= s.len(),
        spec_decode(s) is Found,
    ensures
        i < spec_decode(s)->used ==> spec_decode(s.take(i)) == SpecDecoded::Incomplete,
        i >= spec_decode(s)->used ==> spec_decode(s.take(i)) == spec_decode(s),
{
    let u = spec_decode(s)->used;
    lemma_used_bounds(s, MAX_DEPTH as nat);
    if i < u {
        lemma_prefix_value(s, MAX_DEPTH as nat, i);
    } else {
        assert(s.take(i).take(u) =~= s.take(u));
        lemma_stable_value(s, s.take(i), MAX_DEPTH as nat);
    }
}

/// A buffer that starts with a byte other than `+ - : $ *` is a decode
/// error at offset zero, whatever follows.
pub proof fn lemma_unknown_tag(s: Seq<u8>)
    requires
        s.len() > 0,
        s[0] != 43,
        s[0] != 45,
        s[0] != 58,
        s[0] != 36,
        s[0] != 42,
    ensures
        spec_decode(s) == (SpecDecoded::Fail { at: 0, kind: ErrorKind::UnknownTag }),
{
}

} // verus!
