//! Decimal text for RESP length prefixes and integer frames: what a run of
//! ASCII digits denotes, how a number is printed, and a verified signed
//! 64-bit parser with explicit overflow detection.

use vstd::prelude::*;

verus! {

/// ASCII decimal digit.
pub open spec fn is_digit(b: u8) -> bool {
    48 <= b <= 57
}

/// Every byte of `s` is an ASCII decimal digit.
pub open spec fn all_digits(s: Seq<u8>) -> bool {
    forall|i: int| 0 <= i < s.len() ==> is_digit(#[trigger] s[i])
}

/// The number denoted by a run of digits, most significant first.
pub open spec fn digits_val(s: Seq<u8>) -> int
    decreases s.len(),
{
    if s.len() == 0 {
        0
    } else {
        digits_val(s.drop_last()) * 10 + (s.last() - 48)
    }
}

/// The canonical decimal digits of `n`: no sign, no leading zero.
pub open spec fn dec_u(n: nat) -> Seq<u8>
    decreases n,
{
    if n < 10 {
        seq![(48 + n) as u8]
    } else {
        dec_u(n / 10) + seq![(48 + (n % 10)) as u8]
    }
}

/// The canonical decimal form of a signed number: a `-` sign only when
/// negative, then the digits of its magnitude.
pub open spec fn int_bytes(i: int) -> Seq<u8> {
    if i < 0 {
        seq![45u8] + dec_u((-i) as nat)
    } else {
        dec_u(i as nat)
    }
}

/// What a RESP integer line denotes: an optional `+` or `-` sign, then one
/// or more digits, whose signed value must fit in 64 bits. Anything else,
/// an empty digit run and an overflowing value included, denotes nothing.
pub open spec fn parse_int_line(line: Seq<u8>) -> Option<i64> {
    let signed = line.len() > 0 && (line[0] == 43 || line[0] == 45);
    let neg = line.len() > 0 && line[0] == 45;
    let ds = if signed {
        line.drop_first()
    } else {
        line
    };
    if ds.len() == 0 || !all_digits(ds) {
        None
    } else {
        let v = if neg {
            -digits_val(ds)
        } else {
            digits_val(ds)
        };
        if i64::MIN <= v <= i64::MAX {
            Some(v as i64)
        } else {
            None
        }
    }
}

pub proof fn lemma_digits_val_nonneg(s: Seq<u8>)
    requires
        all_digits(s),
    ensures
        digits_val(s) >= 0,
    decreases s.len(),
{
    if s.len() > 0 {
        assert(is_digit(s[s.len() - 1]));
        lemma_digits_val_nonneg(s.drop_last());
    }
}

/// Reading one more digit can only grow the denoted number.
pub proof fn lemma_digits_val_take_step(s: Seq<u8>, k: int)
    requires
        all_digits(s),
        0 <= k < s.len(),
    ensures
        digits_val(s.take(k + 1)) == digits_val(s.take(k)) * 10 + (s[k] - 48),
        digits_val(s.take(k)) <= digits_val(s.take(k + 1)),
{
    assert(s.take(k + 1).drop_last() =~= s.take(k));
    assert(s.take(k + 1).last() == s[k]);
    assert(all_digits(s.take(k))) by {
        assert(forall|i: int| 0 <= i < k ==> s.take(k)[i] == s[i]);
    }
    lemma_digits_val_nonneg(s.take(k));
    assert(is_digit(s[k]));
}

/// The digits already read denote no more than the whole run does.
pub proof fn lemma_digits_val_take_mono(s: Seq<u8>, k: int)
    requires
        all_digits(s),
        0 <= k <= s.len(),
    ensures
        digits_val(s.take(k)) <= digits_val(s),
    decreases s.len() - k,
{
    if k == s.len() {
        assert(s.take(k) =~= s);
    } else {
        lemma_digits_val_take_step(s, k);
        lemma_digits_val_take_mono(s, k + 1);
    }
}

/// The canonical digits of `n` are digits, start with no sign, and denote
/// exactly `n`.
pub proof fn lemma_dec_u(n: nat)
    ensures
        all_digits(dec_u(n)),
        dec_u(n).len() >= 1,
        digits_val(dec_u(n)) == n,
    decreases n,
{
    if n < 10 {
        let s = dec_u(n);
        assert(s.drop_last() =~= Seq::<u8>::empty());
        assert(digits_val(Seq::<u8>::empty()) == 0);
        assert(s.last() == (48 + n) as u8);
    } else {
        lemma_dec_u(n / 10);
        let a = dec_u(n / 10);
        let d = (48 + (n % 10)) as u8;
        let s = a + seq![d];
        assert(dec_u(n) == s);
        assert(s.drop_last() =~= a);
        assert(s.last() == d);
        assert(digits_val(s) == digits_val(a) * 10 + (n % 10));
        assert(all_digits(s)) by {
            assert(forall|i: int| 0 <= i < a.len() ==> s[i] == a[i]);
            assert(s[s.len() - 1] == d);
        }
    }
}

/// Powers of ten, for bounding digit counts.
pub open spec fn pow10(e: nat) -> nat
    decreases e,
{
    if e == 0 {
        1
    } else {
        10 * pow10((e - 1) as nat)
    }
}

/// Ten to the nineteenth, written out: every 64-bit value divided by ten
/// falls below it.
pub proof fn lemma_pow10_19()
    ensures
        pow10(19) == 10000000000000000000,
{
    reveal_with_fuel(pow10, 20);
}

/// A number below ten to the `e` has at most `e` digits.
pub proof fn lemma_dec_u_len(n: nat, e: nat)
    requires
        n < pow10(e),
        e >= 1,
    ensures
        dec_u(n).len() <= e,
    decreases e,
{
    if n < 10 {
    } else {
        assert(e >= 2) by {
            if e == 1 {
                reveal_with_fuel(pow10, 2);
            }
        }
        assert(pow10(e) == 10 * pow10((e - 1) as nat));
        assert(n / 10 < pow10((e - 1) as nat));
        lemma_dec_u_len(n / 10, (e - 1) as nat);
        assert(dec_u(n).len() == dec_u(n / 10).len() + 1);
    }
}

/// Decimal printing and parsing agree: the canonical form of any 64-bit
/// value parses back to that value.
pub proof fn lemma_parse_int_bytes(i: int)
    requires
        i64::MIN <= i <= i64::MAX,
    ensures
        parse_int_line(int_bytes(i)) == Some(i as i64),
{
    if i < 0 {
        let m = (-i) as nat;
        lemma_dec_u(m);
        let line = seq![45u8] + dec_u(m);
        assert(int_bytes(i) == line);
        assert(line[0] == 45);
        assert(line.drop_first() =~= dec_u(m));
    } else {
        lemma_dec_u(i as nat);
        let line = dec_u(i as nat);
        assert(is_digit(line[0]));
    }
}

/// Canonical decimal text never contains a carriage return or a line feed.
pub proof fn lemma_int_bytes_plain(i: int)
    ensures
        forall|k: int|
            0 <= k < int_bytes(i).len() ==> #[trigger] int_bytes(i)[k] != 13 && int_bytes(i)[k]
                != 10,
{
    if i < 0 {
        lemma_dec_u((-i) as nat);
        assert forall|k: int| 0 <= k < int_bytes(i).len() implies #[trigger] int_bytes(i)[k] != 13
            && int_bytes(i)[k] != 10 by {
            if k > 0 {
                assert(int_bytes(i)[k] == dec_u((-i) as nat)[k - 1]);
                assert(is_digit(dec_u((-i) as nat)[k - 1]));
            }
        }
    } else {
        lemma_dec_u(i as nat);
        assert forall|k: int| 0 <= k < int_bytes(i).len() implies #[trigger] int_bytes(i)[k] != 13
            && int_bytes(i)[k] != 10 by {
            assert(is_digit(dec_u(i as nat)[k]));
        }
    }
}

/// Append the canonical decimal digits of `n`.
pub fn push_u64_digits(out: &mut Vec<u8>, n: u64)
    ensures
        final(out)@ == old(out)@ + dec_u(n as nat),
    decreases n,
{
    if n < 10 {
        out.push(48 + n as u8);
        assert(out@ =~= old(out)@ + dec_u(n as nat));
    } else {
        push_u64_digits(out, n / 10);
        out.push(48 + (n % 10) as u8);
        assert(out@ =~= old(out)@ + dec_u(n as nat));
    }
}

/// Append the canonical decimal form of `i`, sign included.
pub fn push_i64_digits(out: &mut Vec<u8>, i: i64)
    ensures
        final(out)@ == old(out)@ + int_bytes(i as int),
{
    if i < 0 {
        out.push(45);
        let mag = (-(i as i128)) as u64;
        push_u64_digits(out, mag);
        assert(out@ =~= old(out)@ + int_bytes(i as int));
    } else {
        push_u64_digits(out, i as u64);
    }
}

/// Parse a RESP integer line exactly as `parse_int_line` describes it.
pub fn parse_i64(line: &[u8]) -> (r: Option<i64>)
    ensures
        r == parse_int_line(line@),
{
    let n = line.len();
    if n == 0 {
        return None;
    }
    let neg = line[0] == 45;
    let signed = neg || line[0] == 43;
    let start: usize = if signed {
        1
    } else {
        0
    };
    let ghost ds = if signed {
        line@.drop_first()
    } else {
        line@
    };
    proof {
        assert(ds.len() == n - start);
        assert(forall|k: int| 0 <= k < ds.len() ==> ds[k] == line@[k + start]);
    }
    if start == n {
        return None;
    }
    let mut i: usize = start;
    let mut mag: u64 = 0;
    while i < n
        invariant
            start <= i <= n,
            n == line@.len(),
            start <= 1,
            n > 0,
            neg == (line@[0] == 45),
            signed == (line@[0] == 43 || line@[0] == 45),
            start == (if signed {
                1int
            } else {
                0int
            }),
            ds == (if signed {
                line@.drop_first()
            } else {
                line@
            }),
            ds.len() == n - start,
            forall|k: int| 0 <= k < ds.len() ==> ds[k] == line@[k + start],
            all_digits(ds.take(i - start)),
            mag == digits_val(ds.take(i - start)),
            mag <= 0x8000_0000_0000_0000u64,
        decreases n - i,
    {
        let b = line[i];
        if b < 48 || b > 57 {
            proof {
                assert(!is_digit(ds[i - start]));
            }
            return None;
        }
        let d = (b - 48) as u64;
        let wide: u128 = (mag as u128) * 10 + (d as u128);
        proof {
            let k = i - start;
            assert(ds.take(k + 1).drop_last() =~= ds.take(k));
            assert(ds.take(k + 1).last() == ds[k]);
            assert(all_digits(ds.take(k + 1))) by {
                assert(forall|j: int| 0 <= j < k + 1 ==> ds.take(k + 1)[j] == ds[j]);
            }
            assert(digits_val(ds.take(k + 1)) == wide);
        }
        if wide > 0x8000_0000_0000_0000u128 {
            proof {
                let k = i - start;
                if all_digits(ds) {
                    lemma_digits_val_take_mono(ds, k + 1);
                    assert(digits_val(ds) > 0x8000_0000_0000_0000);
                }
            }
            return None;
        }
        mag = wide as u64;
        i = i + 1;
    }
    proof {
        assert(ds.take(n - start) =~= ds);
    }
    if neg {
        if mag == 0x8000_0000_0000_0000u64 {
            Some(i64::MIN)
        } else {
            Some(-(mag as i64))
        }
    } else {
        if mag == 0x8000_0000_0000_0000u64 {
            None
        } else {
            Some(mag as i64)
        }
    }
}

} // verus!
