//! The streaming RESP decoder.
//!
//! Given an immutable view of the bytes buffered so far, `value` produces
//! exactly one of three outcomes: a complete top-level `Value` together
//! with the number of bytes it consumed, a signal that the buffer does not
//! yet hold a whole frame, or a decode error naming the byte offset and the
//! violated expectation. The decoder keeps no state of its own; a caller
//! that buffered more bytes simply asks again.
//!
//! The whole behaviour is pinned down by the specification function
//! `spec_decode`, a recursive-descent description of the wire grammar:
//! dispatch on the first byte, scan scalar lines up to their `\r\n`
//! terminator, take bulk-string payloads literally from their length
//! prefix, and decode array elements recursively. Nesting is bounded by
//! `MAX_DEPTH` so that adversarial input cannot exhaust the stack.

use vstd::prelude::*;

use crate::num::{parse_i64, parse_int_line};
use crate::value::{elems_view, lemma_elems_view, Value, ValueModel};

verus! {

/// Deepest array nesting the decoder accepts.
pub const MAX_DEPTH: u32 = 64;

/// The expectation a malformed frame violated.
#[derive(Clone, Copy, Debug, PartialEq, Eq, Structural)]
pub enum ErrorKind {
    /// The frame began with a byte other than `+ - : $ *`.
    UnknownTag,
    /// A simple-string or error line was not valid UTF-8.
    InvalidUtf8,
    /// An integer or length line was not a decimal number in 64-bit range.
    InvalidInteger,
    /// A length prefix was negative but not the null marker `-1`.
    InvalidLength,
    /// A bulk-string payload was not followed by `\r\n`.
    MissingTerminator,
    /// Arrays were nested beyond `MAX_DEPTH`.
    TooDeep,
}

/// A malformed frame: the byte offset where decoding failed, and why.
#[derive(Clone, Copy, Debug, PartialEq, Eq, Structural)]
pub struct DecodeError {
    pub offset: usize,
    pub kind: ErrorKind,
}

/// What one decoding attempt yielded.
#[derive(Debug)]
pub enum DecodeOutcome {
    /// A complete value, and how many bytes of the buffer it consumed.
    Found(Value, usize),
    /// The buffer does not yet hold a complete frame; read more bytes.
    Incomplete,
    /// The buffer can never become a valid frame.
    Fail(DecodeError),
}

/// Model of a `DecodeOutcome`.
#[verifier::ext_equal]
pub enum SpecDecoded {
    Found { v: ValueModel, used: int },
    Incomplete,
    Fail { at: int, kind: ErrorKind },
}

/// Model of decoding a run of consecutive array elements.
#[verifier::ext_equal]
pub enum SpecElems {
    Found { vs: Seq<ValueModel>, used: int },
    Incomplete,
    Fail { at: int, kind: ErrorKind },
}

impl View for DecodeOutcome {
    type V = SpecDecoded;

    open spec fn view(&self) -> SpecDecoded {
        match self {
            DecodeOutcome::Found(v, used) => SpecDecoded::Found { v: v@, used: *used as int },
            DecodeOutcome::Incomplete => SpecDecoded::Incomplete,
            DecodeOutcome::Fail(e) => SpecDecoded::Fail { at: e.offset as int, kind: e.kind },
        }
    }
}

/// Position of the first `\r\n` at or after `i`, if the buffer holds one.
pub open spec fn find_crlf_from(s: Seq<u8>, i: int) -> Option<int>
    decreases s.len() - i,
    when 0 <= i <= s.len()
{
    if i + 2 > s.len() {
        Option::None
    } else if s[i] == 13 && s[i + 1] == 10 {
        Option::Some(i)
    } else {
        find_crlf_from(s, i + 1)
    }
}

/// A simple-string or error frame: tag, UTF-8 line, terminator. The line
/// `OK` after a `+` is the dedicated `Okay` value.
pub open spec fn dec_simple_line(s: Seq<u8>) -> SpecDecoded
    recommends
        s.len() > 0,
        s[0] == 43 || s[0] == 45,
{
    match find_crlf_from(s, 1) {
        Option::None => SpecDecoded::Incomplete,
        Option::Some(j) => {
            let line = s.subrange(1, j);
            if !vstd::utf8::valid_utf8(line) {
                SpecDecoded::Fail { at: 1, kind: ErrorKind::InvalidUtf8 }
            } else if s[0] == 43 {
                if line == seq![79u8, 75u8] {
                    SpecDecoded::Found { v: ValueModel::Okay, used: j + 2 }
                } else {
                    SpecDecoded::Found { v: ValueModel::SimpleString(line), used: j + 2 }
                }
            } else {
                SpecDecoded::Found { v: ValueModel::ServerError(line), used: j + 2 }
            }
        },
    }
}

/// An integer frame: `:`, a signed decimal line, terminator.
pub open spec fn dec_integer(s: Seq<u8>) -> SpecDecoded
    recommends
        s.len() > 0,
        s[0] == 58,
{
    match find_crlf_from(s, 1) {
        Option::None => SpecDecoded::Incomplete,
        Option::Some(j) => {
            match parse_int_line(s.subrange(1, j)) {
                Option::None => SpecDecoded::Fail { at: 1, kind: ErrorKind::InvalidInteger },
                Option::Some(n) => SpecDecoded::Found { v: ValueModel::Integer(n), used: j + 2 },
            }
        },
    }
}

/// A bulk-string frame: `$`, a length line, then exactly that many raw
/// payload bytes and a terminator. Length `-1` is the null value; the
/// payload is binary-safe, so the terminator is located by the length, not
/// by scanning.
pub open spec fn dec_bulk(s: Seq<u8>) -> SpecDecoded
    recommends
        s.len() > 0,
        s[0] == 36,
{
    match find_crlf_from(s, 1) {
        Option::None => SpecDecoded::Incomplete,
        Option::Some(j) => {
            match parse_int_line(s.subrange(1, j)) {
                Option::None => SpecDecoded::Fail { at: 1, kind: ErrorKind::InvalidInteger },
                Option::Some(n) => {
                    if n == -1 {
                        SpecDecoded::Found { v: ValueModel::Nil, used: j + 2 }
                    } else if n < 0 {
                        SpecDecoded::Fail { at: 1, kind: ErrorKind::InvalidLength }
                    } else if s.len() < j + 2 + n + 2 {
                        SpecDecoded::Incomplete
                    } else if s[j + 2 + n] == 13 && s[j + 2 + n + 1] == 10 {
                        SpecDecoded::Found {
                            v: ValueModel::BulkString(s.subrange(j + 2, j + 2 + n)),
                            used: j + 2 + n + 2,
                        }
                    } else {
                        SpecDecoded::Fail { at: j + 2 + n, kind: ErrorKind::MissingTerminator }
                    }
                },
            }
        },
    }
}

/// One RESP frame, starting at the head of `s`, with at most `depth`
/// levels of array nesting available.
pub open spec fn dec_value(s: Seq<u8>, depth: nat) -> SpecDecoded
    decreases depth, 0nat, 0nat,
{
    if s.len() == 0 {
        SpecDecoded::Incomplete
    } else if s[0] == 43 || s[0] == 45 {
        dec_simple_line(s)
    } else if s[0] == 58 {
        dec_integer(s)
    } else if s[0] == 36 {
        dec_bulk(s)
    } else if s[0] == 42 {
        match find_crlf_from(s, 1) {
            Option::None => SpecDecoded::Incomplete,
            Option::Some(j) => {
                match parse_int_line(s.subrange(1, j)) {
                    Option::None => SpecDecoded::Fail { at: 1, kind: ErrorKind::InvalidInteger },
                    Option::Some(n) => {
                        if n == -1 {
                            SpecDecoded::Found { v: ValueModel::Nil, used: j + 2 }
                        } else if n < 0 {
                            SpecDecoded::Fail { at: 1, kind: ErrorKind::InvalidLength }
                        } else if depth == 0 {
                            SpecDecoded::Fail { at: 0, kind: ErrorKind::TooDeep }
                        } else {
                            match dec_elems(s.skip(j + 2), n as nat, (depth - 1) as nat) {
                                SpecElems::Found { vs, used } => SpecDecoded::Found {
                                    v: ValueModel::Array(vs),
                                    used: j + 2 + used,
                                },
                                SpecElems::Incomplete => SpecDecoded::Incomplete,
                                SpecElems::Fail { at, kind } => SpecDecoded::Fail {
                                    at: j + 2 + at,
                                    kind,
                                },
                            }
                        }
                    },
                }
            },
        }
    } else {
        SpecDecoded::Fail { at: 0, kind: ErrorKind::UnknownTag }
    }
}

/// `n` consecutive frames, as the elements of an array.
pub open spec fn dec_elems(s: Seq<u8>, n: nat, depth: nat) -> SpecElems
    decreases depth, 1nat, n,
{
    if n == 0 {
        SpecElems::Found { vs: Seq::empty(), used: 0 }
    } else {
        match dec_value(s, depth) {
            SpecDecoded::Found { v, used } => {
                match dec_elems(s.skip(used), (n - 1) as nat, depth) {
                    SpecElems::Found { vs, used: more } => SpecElems::Found {
                        vs: seq![v] + vs,
                        used: used + more,
                    },
                    SpecElems::Incomplete => SpecElems::Incomplete,
                    SpecElems::Fail { at, kind } => SpecElems::Fail { at: used + at, kind },
                }
            },
            SpecDecoded::Incomplete => SpecElems::Incomplete,
            SpecDecoded::Fail { at, kind } => SpecElems::Fail { at, kind },
        }
    }
}

/// What decoding a buffer yields: one top-level frame with the standard
/// nesting allowance.
pub open spec fn spec_decode(s: Seq<u8>) -> SpecDecoded {
    dec_value(s, MAX_DEPTH as nat)
}

/// Prepending already-decoded elements and the bytes they consumed to the
/// outcome of the remaining elements.
pub open spec fn combine_elems(prefix: Seq<ValueModel>, pre_used: int, rest: SpecElems) -> SpecElems {
    match rest {
        SpecElems::Found { vs, used } => SpecElems::Found { vs: prefix + vs, used: pre_used + used },
        SpecElems::Incomplete => SpecElems::Incomplete,
        SpecElems::Fail { at, kind } => SpecElems::Fail { at: pre_used + at, kind },
    }
}

/// Relies on `core::str::from_utf8`, which returns `Ok` exactly when the
/// byte slice is valid UTF-8 (the notion vstd's `valid_utf8` describes).
#[verifier::external_body]
fn utf8_ok(bytes: &[u8]) -> (r: bool)
    ensures
        r == vstd::utf8::valid_utf8(bytes@),
{
    core::str::from_utf8(bytes).is_ok()
}

/// Scan for the first `\r\n` at or after `start`.
fn find_crlf(buf: &[u8], start: usize) -> (r: Option<usize>)
    requires
        1 <= start <= buf@.len(),
    ensures
        match r {
            Option::Some(j) => {
                &&& find_crlf_from(buf@, start as int) == Option::Some(j as int)
                &&& start <= j
                &&& j + 2 <= buf@.len()
                &&& buf@[j as int] == 13
                &&& buf@[j as int + 1] == 10
            },
            Option::None => find_crlf_from(buf@, start as int) is None,
        },
{
    let n = buf.len();
    let mut i: usize = start;
    while n >= 2 && i <= n - 2
        invariant
            start <= i <= n,
            n == buf@.len(),
            find_crlf_from(buf@, start as int) == find_crlf_from(buf@, i as int),
        decreases n - i,
    {
        if buf[i] == 13 && buf[i + 1] == 10 {
            return Some(i);
        }
        i = i + 1;
    }
    None
}

/// Decode one frame from the head of `input`, using at most `depth` levels
/// of array nesting. Offsets in the result are relative to `input`.
#[verifier::loop_isolation(false)]
#[verifier::rlimit(60)]
fn parse_value(input: &[u8], depth: u32) -> (r: DecodeOutcome)
    ensures
        r@ == dec_value(input@, depth as nat),
        r matches DecodeOutcome::Found(v, used) ==> used <= input@.len(),
        r matches DecodeOutcome::Fail(e) ==> e.offset <= input@.len(),
    decreases depth, 0nat, 0nat,
{
    let n = input.len();
    if n == 0 {
        return DecodeOutcome::Incomplete;
    }
    let tag = input[0];
    if tag == 43 || tag == 45 {
        match find_crlf(input, 1) {
            None => DecodeOutcome::Incomplete,
            Some(j) => {
                let line = &input[1..j];
                assert(line@ == input@.subrange(1, j as int));
                if !utf8_ok(line) {
                    DecodeOutcome::Fail(
                        DecodeError { offset: 1, kind: ErrorKind::InvalidUtf8 },
                    )
                } else if tag == 43 {
                    if line.len() == 2 && line[0] == 79 && line[1] == 75 {
                        assert(line@ =~= seq![79u8, 75u8]);
                        DecodeOutcome::Found(Value::Okay, j + 2)
                    } else {
                        assert(line@ != seq![79u8, 75u8]);
                        DecodeOutcome::Found(
                            Value::SimpleString(vstd::slice::slice_to_vec(line)),
                            j + 2,
                        )
                    }
                } else {
                    DecodeOutcome::Found(Value::ServerError(vstd::slice::slice_to_vec(line)), j + 2)
                }
            },
        }
    } else if tag == 58 {
        match find_crlf(input, 1) {
            None => DecodeOutcome::Incomplete,
            Some(j) => {
                let line = &input[1..j];
                assert(line@ == input@.subrange(1, j as int));
                match parse_i64(line) {
                    None => DecodeOutcome::Fail(
                        DecodeError { offset: 1, kind: ErrorKind::InvalidInteger },
                    ),
                    Some(v) => DecodeOutcome::Found(Value::Integer(v), j + 2),
                }
            },
        }
    } else if tag == 36 {
        match find_crlf(input, 1) {
            None => DecodeOutcome::Incomplete,
            Some(j) => {
                let line = &input[1..j];
                assert(line@ == input@.subrange(1, j as int));
                match parse_i64(line) {
                    None => DecodeOutcome::Fail(
                        DecodeError { offset: 1, kind: ErrorKind::InvalidInteger },
                    ),
                    Some(len) => {
                        if len == -1 {
                            DecodeOutcome::Found(Value::Nil, j + 2)
                        } else if len < 0 {
                            DecodeOutcome::Fail(
                                DecodeError { offset: 1, kind: ErrorKind::InvalidLength },
                            )
                        } else if (n as u128) < (j as u128) + 2 + (len as u128) + 2 {
                            DecodeOutcome::Incomplete
                        } else {
                            let l = len as usize;
                            let p = j + 2;
                            if input[p + l] == 13 && input[p + l + 1] == 10 {
                                let payload = vstd::slice::slice_to_vec(&input[p..p + l]);
                                assert(payload@ == input@.subrange(
                                    j + 2 as int,
                                    j + 2 + len as int,
                                ));
                                DecodeOutcome::Found(Value::BulkString(payload), p + l + 2)
                            } else {
                                DecodeOutcome::Fail(
                                    DecodeError { offset: p + l, kind: ErrorKind::MissingTerminator },
                                )
                            }
                        }
                    },
                }
            },
        }
    } else if tag == 42 {
        match find_crlf(input, 1) {
            None => DecodeOutcome::Incomplete,
            Some(j) => {
                let line = &input[1..j];
                assert(line@ == input@.subrange(1, j as int));
                match parse_i64(line) {
                    None => DecodeOutcome::Fail(
                        DecodeError { offset: 1, kind: ErrorKind::InvalidInteger },
                    ),
                    Some(count) => {
                        if count == -1 {
                            DecodeOutcome::Found(Value::Nil, j + 2)
                        } else if count < 0 {
                            DecodeOutcome::Fail(
                                DecodeError { offset: 1, kind: ErrorKind::InvalidLength },
                            )
                        } else if depth == 0 {
                            DecodeOutcome::Fail(
                                DecodeError { offset: 0, kind: ErrorKind::TooDeep },
                            )
                        } else {
                            let ghost s0 = input@.skip(j + 2);
                            let ghost d = (depth - 1) as nat;
                            let mut items: Vec<Value> = Vec::new();
                            let mut used: usize = j + 2;
                            let mut k: i64 = 0;
                            proof {
                                assert(elems_view(items@) =~= Seq::<ValueModel>::empty());
                                assert(input@.skip(used as int) == s0);
                                assert(dec_elems(s0, count as nat, d) == combine_elems(
                                    elems_view(items@),
                                    used - (j + 2),
                                    dec_elems(input@.skip(used as int), (count - k) as nat, d),
                                ));
                            }
                            while k < count
                                invariant
                                    0 <= k <= count,
                                    j + 2 <= used <= n,
                                    items@.len() == k,
                                    dec_elems(s0, count as nat, d) == combine_elems(
                                        elems_view(items@),
                                        used - (j + 2),
                                        dec_elems(
                                            input@.skip(used as int),
                                            (count - k) as nat,
                                            d,
                                        ),
                                    ),
                                decreases count - k,
                            {
                                let sub = &input[used..n];
                                let r = parse_value(sub, depth - 1);
                                proof {
                                    assert(sub@ == input@.skip(used as int));
                                }
                                match r {
                                    DecodeOutcome::Found(v, u) => {
                                        proof {
                                            lemma_step_elems(
                                                input@.skip(used as int),
                                                (count - k) as nat,
                                                d,
                                                v@,
                                                u as int,
                                            );
                                            lemma_combine_assoc(
                                                elems_view(items@),
                                                used - (j + 2),
                                                seq![v@],
                                                u as int,
                                                dec_elems(
                                                    input@.skip(used as int).skip(u as int),
                                                    (count - k - 1) as nat,
                                                    d,
                                                ),
                                            );
                                            assert(input@.skip(used as int).skip(u as int)
                                                =~= input@.skip(used + u));
                                            lemma_elems_view(items@.push(v));
                                            lemma_elems_view(items@);
                                            assert(elems_view(items@.push(v)) =~= elems_view(
                                                items@,
                                            ) + seq![v@]);
                                        }
                                        items.push(v);
                                        used = used + u;
                                        k = k + 1;
                                    },
                                    DecodeOutcome::Incomplete => {
                                        return DecodeOutcome::Incomplete;
                                    },
                                    DecodeOutcome::Fail(e) => {
                                        return DecodeOutcome::Fail(
                                            DecodeError { offset: used + e.offset, kind: e.kind },
                                        );
                                    },
                                }
                            }
                            proof {
                                assert(dec_elems(
                                    input@.skip(used as int),
                                    (count - k) as nat,
                                    d,
                                ) == (SpecElems::Found { vs: Seq::<ValueModel>::empty(), used: 0 }));
                                assert(elems_view(items@) + Seq::<ValueModel>::empty()
                                    =~= elems_view(items@));
                            }
                            DecodeOutcome::Found(Value::Array(items), used)
                        }
                    },
                }
            },
        }
    } else {
        DecodeOutcome::Fail(DecodeError { offset: 0, kind: ErrorKind::UnknownTag })
    }
}

/// Unfolding one element of `dec_elems` when its first frame is known.
proof fn lemma_step_elems(s: Seq<u8>, n: nat, depth: nat, v: ValueModel, used: int)
    requires
        n > 0,
        dec_value(s, depth) == (SpecDecoded::Found { v, used }),
    ensures
        dec_elems(s, n, depth) == combine_elems(
            seq![v],
            used,
            dec_elems(s.skip(used), (n - 1) as nat, depth),
        ),
{
    let rest = dec_elems(s.skip(used), (n - 1) as nat, depth);
    match rest {
        SpecElems::Found { vs, used: more } => {
            assert(dec_elems(s, n, depth) == (SpecElems::Found {
                vs: seq![v] + vs,
                used: used + more,
            }));
        },
        SpecElems::Incomplete => {},
        SpecElems::Fail { at, kind } => {},
    }
}

/// `combine_elems` composes.
proof fn lemma_combine_assoc(p1: Seq<ValueModel>, u1: int, p2: Seq<ValueModel>, u2: int, rest: SpecElems)
    ensures
        combine_elems(p1, u1, combine_elems(p2, u2, rest)) == combine_elems(
            p1 + p2,
            u1 + u2,
            rest,
        ),
{
    match rest {
        SpecElems::Found { vs, used } => {
            assert(p1 + (p2 + vs) =~= (p1 + p2) + vs);
        },
        SpecElems::Incomplete => {},
        SpecElems::Fail { at, kind } => {},
    }
}

/// Attempt to decode exactly one top-level frame from the buffered bytes.
pub fn value(input: &[u8]) -> (r: DecodeOutcome)
    ensures
        r@ == spec_decode(input@),
        r matches DecodeOutcome::Found(v, used) ==> used <= input@.len(),
{
    parse_value(input, MAX_DEPTH)
}

} // verus!
