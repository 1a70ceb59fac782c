//! The in-memory representation of a RESP message.
//!
//! `Value` is a closed, recursive tagged union covering every RESP reply
//! type, including nested arrays and the explicit null produced by
//! negative-length bulk-string and array frames. String-like payloads are
//! held as raw bytes; the decoder only builds `SimpleString` and
//! `ServerError` values from lines it has checked to be valid UTF-8.

use vstd::prelude::*;

use crate::num::{dec_u, int_bytes, push_i64_digits, push_u64_digits};

verus! {

/// One RESP message. `Okay` stands for the simple string `OK`, which
/// replies use so often that it earns its own variant; `Nil` stands for the
/// null value carried on the wire by a `-1` length prefix.
#[derive(Debug)]
pub enum Value {
    Okay,
    Nil,
    ServerError(Vec<u8>),
    SimpleString(Vec<u8>),
    BulkString(Vec<u8>),
    Integer(i64),
    Array(Vec<Value>),
}

/// The mathematical model of a `Value`: payloads become byte sequences and
/// arrays become sequences of models.
#[verifier::ext_equal]
pub enum ValueModel {
    Okay,
    Nil,
    ServerError(Seq<u8>),
    SimpleString(Seq<u8>),
    BulkString(Seq<u8>),
    Integer(i64),
    Array(Seq<ValueModel>),
}

impl View for Value {
    type V = ValueModel;

    open spec fn view(&self) -> ValueModel
        decreases self,
    {
        match self {
            Value::Okay => ValueModel::Okay,
            Value::Nil => ValueModel::Nil,
            Value::ServerError(s) => ValueModel::ServerError(s@),
            Value::SimpleString(s) => ValueModel::SimpleString(s@),
            Value::BulkString(s) => ValueModel::BulkString(s@),
            Value::Integer(i) => ValueModel::Integer(*i),
            Value::Array(vs) => {
                proof {
                    assert(decreases_to!(vs => vs@));
                }
                ValueModel::Array(elems_view(vs@))
            },
        }
    }
}

/// The models of a sequence of values, in order.
pub open spec fn elems_view(s: Seq<Value>) -> Seq<ValueModel>
    decreases s,
{
    if s.len() <= 0 {
        Seq::empty()
    } else {
        proof {
            assert(decreases_to!(s => s[0]));
            assert(decreases_to!(s => s.subrange(1, s.len() as int)));
        }
        seq![s[0]@] + elems_view(s.subrange(1, s.len() as int))
    }
}

/// `elems_view` maps the sequence pointwise.
pub proof fn lemma_elems_view(s: Seq<Value>)
    ensures
        elems_view(s).len() == s.len(),
        forall|i: int| 0 <= i < s.len() ==> elems_view(s)[i] == s[i]@,
    decreases s.len(),
{
    if s.len() > 0 {
        let rest = s.subrange(1, s.len() as int);
        lemma_elems_view(rest);
        assert(elems_view(s) == seq![s[0]@] + elems_view(rest));
        assert forall|i: int| 0 <= i < s.len() implies elems_view(s)[i] == s[i]@ by {
            if i > 0 {
                assert(elems_view(s)[i] == elems_view(rest)[i - 1]);
            }
        }
    } else {
        assert(elems_view(s) =~= Seq::empty());
    }
}

impl PartialEq for Value {
    /// Structural equality; arrays are compared element by element.
    fn eq(&self, other: &Value) -> (r: bool)
        decreases self,
    {
        match (self, other) {
            (Value::Okay, Value::Okay) => true,
            (Value::Nil, Value::Nil) => true,
            (Value::ServerError(a), Value::ServerError(b)) => compare_bytes(a, b),
            (Value::SimpleString(a), Value::SimpleString(b)) => compare_bytes(a, b),
            (Value::BulkString(a), Value::BulkString(b)) => compare_bytes(a, b),
            (Value::Integer(a), Value::Integer(b)) => a == b,
            (Value::Array(a), Value::Array(b)) => {
                proof {
                    lemma_elems_view(a@);
                    lemma_elems_view(b@);
                }
                if a.len() != b.len() {
                    return false;
                }
                let mut i: usize = 0;
                while i < a.len()
                    invariant
                        0 <= i <= a@.len(),
                        a@.len() == b@.len(),
                        self == Value::Array(*a) && other == Value::Array(*b),
                        forall|k: int| 0 <= k < i ==> a@[k]@ == b@[k]@,
                    decreases a@.len() - i,
                {
                    proof {
                        assert(decreases_to!(self => self->Array_0));
                        assert(decreases_to!(a => a@));
                        assert(decreases_to!(a@ => a@[i as int]));
                        assert(decreases_to!(self => a@[i as int]));
                    }
                    if !(a[i] == b[i]) {
                        proof {
                            lemma_elems_view(a@);
                            lemma_elems_view(b@);
                            assert(elems_view(a@)[i as int] != elems_view(b@)[i as int]);
                        }
                        return false;
                    }
                    i = i + 1;
                }
                proof {
                    lemma_elems_view(a@);
                    lemma_elems_view(b@);
                    assert(elems_view(a@) =~= elems_view(b@));
                }
                true
            },
            _ => false,
        }
    }
}

impl vstd::std_specs::cmp::PartialEqSpecImpl for Value {
    open spec fn obeys_eq_spec() -> bool {
        true
    }

    open spec fn eq_spec(&self, other: &Value) -> bool {
        self@ == other@
    }
}

/// Lowercase hexadecimal digit for `n < 16`.
pub open spec fn hex_digit(n: u8) -> u8 {
    if n < 10 {
        (48 + n) as u8
    } else {
        (87 + n) as u8
    }
}

/// One byte of a binary-safe payload as it is shown: printable ASCII
/// stands for itself, the common escapes use a backslash, and everything
/// else becomes `\xNN` in lowercase hex.
pub open spec fn escape_byte(b: u8) -> Seq<u8> {
    if b == 9 {
        seq![92u8, 116u8]
    } else if b == 13 {
        seq![92u8, 114u8]
    } else if b == 10 {
        seq![92u8, 110u8]
    } else if b == 92 {
        seq![92u8, 92u8]
    } else if b == 34 {
        seq![92u8, 34u8]
    } else if b == 39 {
        seq![92u8, 39u8]
    } else if 32 <= b <= 126 {
        seq![b]
    } else {
        seq![92u8, 120u8, hex_digit(b / 16), hex_digit(b % 16)]
    }
}

/// The escaped form of a whole payload.
pub open spec fn escape_bytes(p: Seq<u8>) -> Seq<u8>
    decreases p.len(),
{
    if p.len() == 0 {
        Seq::empty()
    } else {
        escape_byte(p[0]) + escape_bytes(p.subrange(1, p.len() as int))
    }
}

proof fn lemma_escape_snoc(p: Seq<u8>, b: u8)
    ensures
        escape_bytes(p.push(b)) == escape_bytes(p) + escape_byte(b),
    decreases p.len(),
{
    let q = p.push(b);
    if p.len() == 0 {
        assert(q[0] == b);
        assert(q.subrange(1, q.len() as int) =~= Seq::<u8>::empty());
        assert(escape_bytes(Seq::<u8>::empty()) =~= Seq::<u8>::empty());
        assert(escape_bytes(q) =~= escape_byte(b));
        assert(escape_bytes(p) + escape_byte(b) =~= escape_byte(b));
    } else {
        assert(q[0] == p[0]);
        assert(q.subrange(1, q.len() as int) =~= p.subrange(1, p.len() as int).push(b));
        lemma_escape_snoc(p.subrange(1, p.len() as int), b);
        assert(escape_byte(p[0]) + (escape_bytes(p.subrange(1, p.len() as int)) + escape_byte(b))
            =~= (escape_byte(p[0]) + escape_bytes(p.subrange(1, p.len() as int))) + escape_byte(b));
    }
}

/// `n` spaces.
pub open spec fn spaces(n: nat) -> Seq<u8>
    decreases n,
{
    if n == 0 {
        Seq::empty()
    } else {
        seq![32u8] + spaces((n - 1) as nat)
    }
}

proof fn lemma_spaces_snoc(n: nat)
    ensures
        spaces(n + 1) == spaces(n) + seq![32u8],
    decreases n,
{
    if n == 0 {
        assert(spaces(1) =~= spaces(0) + seq![32u8]);
    } else {
        lemma_spaces_snoc((n - 1) as nat);
        assert(seq![32u8] + (spaces((n - 1) as nat) + seq![32u8]) =~= (seq![32u8] + spaces(
            (n - 1) as nat,
        )) + seq![32u8]);
    }
}

/// The decimal digits of `i`, right-aligned in a field of `width`.
pub open spec fn pad_num(i: nat, width: nat) -> Seq<u8> {
    let d = dec_u(i);
    if d.len() >= width {
        d
    } else {
        spaces((width - d.len()) as nat) + d
    }
}

/// The human-readable form of a value, as the interactive client shows
/// it: scalars on one line each, arrays as numbered items whose nested
/// contents are indented under their number.
pub open spec fn render(v: ValueModel, indent: nat) -> Seq<u8>
    decreases v, 0nat, 0nat,
{
    match v {
        ValueModel::Okay => seq![79u8, 75u8, 10u8],
        ValueModel::Nil => seq![40u8, 110u8, 105u8, 108u8, 41u8, 10u8],
        ValueModel::ServerError(p) => seq![40u8, 101u8, 114u8, 114u8, 111u8, 114u8, 41u8, 32u8] + p
            + seq![10u8],
        ValueModel::SimpleString(p) => seq![34u8] + p + seq![34u8, 10u8],
        ValueModel::BulkString(p) => seq![34u8] + escape_bytes(p) + seq![34u8, 10u8],
        ValueModel::Integer(i) => seq![
            40u8,
            105u8,
            110u8,
            116u8,
            101u8,
            103u8,
            101u8,
            114u8,
            41u8,
            32u8,
        ] + int_bytes(i as int) + seq![10u8],
        ValueModel::Array(vs) => {
            if vs.len() == 0 {
                seq![
                    40u8,
                    101u8,
                    109u8,
                    112u8,
                    116u8,
                    121u8,
                    32u8,
                    97u8,
                    114u8,
                    114u8,
                    97u8,
                    121u8,
                    41u8,
                    10u8,
                ]
            } else {
                render_list(vs, 0, dec_u(vs.len()).len(), indent)
            }
        },
    }
}

/// The numbered items of an array from position `k` on: each item's
/// number right-aligned to `width`, then `") "`, then the item itself
/// indented by `indent + width + 2`; continuation lines of later items
/// start with `indent` spaces.
pub open spec fn render_list(vs: Seq<ValueModel>, k: nat, width: nat, indent: nat) -> Seq<u8>
    decreases vs, 1nat, (if k <= vs.len() { (vs.len() - k) as nat } else { 0nat }),
{
    if k >= vs.len() {
        Seq::empty()
    } else {
        proof {
            assert(decreases_to!(vs => vs[k as int]));
        }
        (if k == 0 {
            Seq::<u8>::empty()
        } else {
            spaces(indent)
        }) + pad_num((k + 1) as nat, width) + seq![41u8, 32u8] + render(
            vs[k as int],
            (indent + width + 2) as nat,
        ) + render_list(vs, (k + 1) as nat, width, indent)
    }
}

/// Rendering `v` under `indent` stays within the machine's index range:
/// the nested indent of every array item fits a `usize`.
pub open spec fn render_fits(v: ValueModel, indent: nat) -> bool
    decreases v, 0nat, 0nat,
{
    match v {
        ValueModel::Array(vs) => vs.len() == 0 || {
            let w = dec_u(vs.len()).len();
            &&& indent + w + 2 <= usize::MAX
            &&& list_fits(vs, 0, (indent + w + 2) as nat)
        },
        _ => true,
    }
}

/// Every element from position `k` on fits under the given indent.
pub open spec fn list_fits(vs: Seq<ValueModel>, k: nat, indent: nat) -> bool
    decreases vs, 1nat, (if k <= vs.len() { (vs.len() - k) as nat } else { 0nat }),
{
    if k >= vs.len() {
        true
    } else {
        proof {
            assert(decreases_to!(vs => vs[k as int]));
        }
        render_fits(vs[k as int], indent) && list_fits(vs, (k + 1) as nat, indent)
    }
}

/// Append `n` spaces.
fn push_spaces(out: &mut Vec<u8>, n: usize)
    ensures
        final(out)@ == old(out)@ + spaces(n as nat),
{
    let mut i: usize = 0;
    proof {
        assert(out@ =~= old(out)@ + spaces(0));
    }
    while i < n
        invariant
            0 <= i <= n,
            out@ == old(out)@ + spaces(i as nat),
        decreases n - i,
    {
        out.push(32);
        proof {
            lemma_spaces_snoc(i as nat);
            assert(out@ =~= old(out)@ + spaces((i + 1) as nat));
        }
        i = i + 1;
    }
}

/// Number of decimal digits in `n`.
fn dec_len(n: u64) -> (r: usize)
    ensures
        r == dec_u(n as nat).len(),
        1 <= r <= 20,
    decreases n,
{
    if n < 10 {
        1
    } else {
        let rest = dec_len(n / 10);
        assert(dec_u(n as nat).len() == dec_u((n / 10) as nat).len() + 1);
        proof {
            crate::num::lemma_pow10_19();
            crate::num::lemma_dec_u_len((n / 10) as nat, 19);
        }
        rest + 1
    }
}

/// Append the escaped form of `p`.
fn push_escaped(out: &mut Vec<u8>, p: &Vec<u8>)
    ensures
        final(out)@ == old(out)@ + escape_bytes(p@),
{
    let mut i: usize = 0;
    proof {
        assert(p@.take(0) =~= Seq::<u8>::empty());
        assert(escape_bytes(p@.take(0)) =~= Seq::<u8>::empty());
        assert(out@ =~= old(out)@ + escape_bytes(p@.take(0)));
    }
    while i < p.len()
        invariant
            0 <= i <= p@.len(),
            out@ == old(out)@ + escape_bytes(p@.take(i as int)),
        decreases p@.len() - i,
    {
        let ghost before = out@;
        let b = p[i];
        if b == 9 {
            out.push(92);
            out.push(116);
        } else if b == 13 {
            out.push(92);
            out.push(114);
        } else if b == 10 {
            out.push(92);
            out.push(110);
        } else if b == 92 {
            out.push(92);
            out.push(92);
        } else if b == 34 {
            out.push(92);
            out.push(34);
        } else if b == 39 {
            out.push(92);
            out.push(39);
        } else if 32 <= b && b <= 126 {
            out.push(b);
        } else {
            out.push(92);
            out.push(120);
            let hi = b / 16;
            let lo = b % 16;
            out.push(if hi < 10 {
                48 + hi
            } else {
                87 + hi
            });
            out.push(if lo < 10 {
                48 + lo
            } else {
                87 + lo
            });
        }
        proof {
            assert(out@ =~= before + escape_byte(p@[i as int]));
            lemma_escape_snoc(p@.take(i as int), p@[i as int]);
            assert(p@.take(i + 1) =~= p@.take(i as int).push(p@[i as int]));
            assert(out@ =~= old(out)@ + escape_bytes(p@.take(i + 1)));
        }
        i = i + 1;
    }
    proof {
        assert(p@.take(p@.len() as int) =~= p@);
    }
}

/// Write the human-readable form of `v` into `f`, each line of nested
/// content indented by `indent`. This is the diagnostic rendering the
/// server prints for a decoded value.
#[verifier::loop_isolation(false)]
#[verifier::rlimit(80)]
pub fn write_value_debug(f: &mut Vec<u8>, v: &Value, indent: usize)
    requires
        render_fits(v@, indent as nat),
    ensures
        final(f)@ == old(f)@ + render(v@, indent as nat),
    decreases v,
{
    match v {
        Value::Okay => {
            f.push(79);
            f.push(75);
            f.push(10);
            assert(f@ =~= old(f)@ + render(v@, indent as nat));
        },
        Value::Nil => {
            f.push(40);
            f.push(110);
            f.push(105);
            f.push(108);
            f.push(41);
            f.push(10);
            assert(f@ =~= old(f)@ + render(v@, indent as nat));
        },
        Value::ServerError(p) => {
            f.push(40);
            f.push(101);
            f.push(114);
            f.push(114);
            f.push(111);
            f.push(114);
            f.push(41);
            f.push(32);
            push_bytes_vec(f, p);
            f.push(10);
            assert(f@ =~= old(f)@ + render(v@, indent as nat));
        },
        Value::SimpleString(p) => {
            f.push(34);
            push_bytes_vec(f, p);
            f.push(34);
            f.push(10);
            assert(f@ =~= old(f)@ + render(v@, indent as nat));
        },
        Value::BulkString(p) => {
            f.push(34);
            push_escaped(f, p);
            f.push(34);
            f.push(10);
            assert(f@ =~= old(f)@ + render(v@, indent as nat));
        },
        Value::Integer(i) => {
            f.push(40);
            f.push(105);
            f.push(110);
            f.push(116);
            f.push(101);
            f.push(103);
            f.push(101);
            f.push(114);
            f.push(41);
            f.push(32);
            push_i64_digits(f, *i);
            f.push(10);
            assert(f@ =~= old(f)@ + render(v@, indent as nat));
        },
        Value::Array(vs) => {
            proof {
                lemma_elems_view(vs@);
            }
            let ghost m = elems_view(vs@);
            if vs.len() == 0 {
                f.push(40);
                f.push(101);
                f.push(109);
                f.push(112);
                f.push(116);
                f.push(121);
                f.push(32);
                f.push(97);
                f.push(114);
                f.push(114);
                f.push(97);
                f.push(121);
                f.push(41);
                f.push(10);
                assert(f@ =~= old(f)@ + render(v@, indent as nat));
            } else {
                let width = dec_len(vs.len() as u64);
                assert(indent + width + 2 <= usize::MAX);
                let inner = indent + width + 2;
                let mut k: usize = 0;
                while k < vs.len()
                    invariant
                        0 <= k <= vs@.len(),
                        list_fits(m, k as nat, inner as nat),
                        f@ + render_list(m, k as nat, width as nat, indent as nat) == old(f)@
                            + render(v@, indent as nat),
                    decreases vs@.len() - k,
                {
                    let ghost before = f@;
                    if k > 0 {
                        push_spaces(f, indent);
                    }
                    let d = dec_len((k + 1) as u64);
                    if d < width {
                        push_spaces(f, width - d);
                    }
                    push_u64_digits(f, (k + 1) as u64);
                    f.push(41);
                    f.push(32);
                    proof {
                        assert(f@ =~= before + (if k == 0 {
                            Seq::<u8>::empty()
                        } else {
                            spaces(indent as nat)
                        }) + pad_num((k + 1) as nat, width as nat) + seq![41u8, 32u8]);
                        assert(decreases_to!(v => v->Array_0));
                        assert(decreases_to!(vs => vs@));
                        assert(decreases_to!(vs@ => vs@[k as int]));
                        assert(list_fits(m, k as nat, inner as nat));
                        assert(render_fits(m[k as int], inner as nat));
                        assert(m[k as int] == vs@[k as int]@);
                    }
                    write_value_debug(f, &vs[k], inner);
                    proof {
                        let part = (if k == 0 {
                            Seq::<u8>::empty()
                        } else {
                            spaces(indent as nat)
                        }) + pad_num((k + 1) as nat, width as nat) + seq![41u8, 32u8] + render(
                            m[k as int],
                            inner as nat,
                        );
                        assert(f@ =~= before + part);
                        assert(render_list(m, k as nat, width as nat, indent as nat) == part
                            + render_list(m, (k + 1) as nat, width as nat, indent as nat));
                        assert(f@ + render_list(m, (k + 1) as nat, width as nat, indent as nat)
                            =~= before + render_list(m, k as nat, width as nat, indent as nat));
                    }
                    k = k + 1;
                }
                proof {
                    assert(render_list(m, k as nat, width as nat, indent as nat)
                        =~= Seq::<u8>::empty());
                    assert(f@ =~= old(f)@ + render(v@, indent as nat));
                }
            }
        },
    }
}

/// Append every byte of `p`.
pub(crate) fn push_bytes_vec(out: &mut Vec<u8>, p: &Vec<u8>)
    ensures
        final(out)@ == old(out)@ + p@,
{
    let mut i: usize = 0;
    while i < p.len()
        invariant
            0 <= i <= p@.len(),
            out@ == old(out)@ + p@.take(i as int),
        decreases p@.len() - i,
    {
        out.push(p[i]);
        assert(out@ =~= old(out)@ + p@.take(i + 1));
        i = i + 1;
    }
    assert(p@.take(p@.len() as int) =~= p@);
}

fn compare_bytes(a: &Vec<u8>, b: &Vec<u8>) -> (r: bool)
    ensures
        r == (a@ == b@),
{
    if a.len() != b.len() {
        return false;
    }
    let mut i: usize = 0;
    while i < a.len()
        invariant
            0 <= i <= a@.len(),
            a@.len() == b@.len(),
            forall|k: int| 0 <= k < i ==> a@[k] == b@[k],
        decreases a@.len() - i,
    {
        if a[i] != b[i] {
            return false;
        }
        i = i + 1;
    }
    assert(a@ =~= b@);
    true
}

} // verus!
