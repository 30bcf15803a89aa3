//! Decimal formatting and parsing of the integers on the wire.
#![allow(unused_imports)]

use vstd::prelude::*;

use crate::resp::wire::{
    all_digits, digits_val, is_digit, parse_signed, parse_unsigned, spec_digits, spec_int_payload,
};

verus! {

/// The digit string of a number is nonempty, all digits, and stands for
/// that number.
pub proof fn lemma_spec_digits(n: nat)
    ensures
        spec_digits(n).len() >= 1,
        all_digits(spec_digits(n)),
        digits_val(spec_digits(n)) == n,
    decreases n,
{
    if n < 10 {
        let s = spec_digits(n);
        assert(s.len() == 1);
        assert(s.drop_last() =~= Seq::<u8>::empty());
        assert(s.last() == (48 + n) as u8);
        assert(digits_val(s) == digits_val(s.drop_last()) * 10 + (s.last() - 48));
    } else {
        lemma_spec_digits(n / 10);
        let s = spec_digits(n);
        let t = spec_digits(n / 10);
        assert(s == t.push((48 + n % 10) as u8));
        assert(s.drop_last() =~= t);
        assert(s.last() == 48 + n % 10);
        assert(digits_val(s) == digits_val(t) * 10 + n % 10);
        assert(n / 10 * 10 + n % 10 == n) by {
            vstd::arithmetic::div_mod::lemma_fundamental_div_mod(n as int, 10);
        }
        assert forall|i: int| 0 <= i < s.len() implies is_digit(#[trigger] s[i]) by {
            if i < t.len() {
                assert(s[i] == t[i]);
            }
        }
    }
}

/// Format an unsigned number as decimal digits.
pub fn fmt_u64(n: u64) -> (r: Vec<u8>)
    ensures
        r@ == spec_digits(n as nat),
    decreases n,
{
    if n < 10 {
        let mut v: Vec<u8> = Vec::new();
        v.push(48 + n as u8);
        proof {
            assert(v@ =~= spec_digits(n as nat));
        }
        v
    } else {
        let mut v = fmt_u64(n / 10);
        v.push(48 + (n % 10) as u8);
        v
    }
}

/// Format a signed integer as the wire payload: an explicit `+` when
/// positive, a bare `0` when zero, `-` and the magnitude when negative.
pub fn fmt_i64_payload(v: i64) -> (r: Vec<u8>)
    ensures
        r@ == spec_int_payload(v as int),
{
    if v > 0 {
        let mut out: Vec<u8> = Vec::new();
        out.push(43);
        let mut ds = fmt_u64(v as u64);
        out.append(&mut ds);
        proof {
            assert(out@ =~= seq![43u8] + spec_digits(v as nat));
        }
        out
    } else if v == 0 {
        let mut out: Vec<u8> = Vec::new();
        out.push(48);
        proof {
            assert(out@ =~= seq![48u8]);
        }
        out
    } else {
        let mut out: Vec<u8> = Vec::new();
        out.push(45);
        let m: u64 = if v == (-9223372036854775807i64) - 1 {
            9223372036854775808
        } else {
            (-v) as u64
        };
        let mut ds = fmt_u64(m);
        out.append(&mut ds);
        proof {
            assert(out@ =~= seq![45u8] + spec_digits((-(v as int)) as nat));
        }
        out
    }
}

/// The value of a digit string grows as the string grows.
proof fn lemma_digits_val_nonneg(s: Seq<u8>)
    requires
        all_digits(s),
    ensures
        digits_val(s) >= 0,
    decreases s.len(),
{
    if s.len() > 0 {
        assert(all_digits(s.drop_last())) by {
            assert(forall|i: int|
                0 <= i < s.len() - 1 ==> #[trigger] s.drop_last()[i] == s[i]);
        }
        lemma_digits_val_nonneg(s.drop_last());
        assert(is_digit(s.last()));
    }
}

/// A strict prefix of a digit string never stands for a larger number.
proof fn lemma_digits_val_prefix(s: Seq<u8>, k: int)
    requires
        all_digits(s),
        0 <= k <= s.len(),
    ensures
        digits_val(s.take(k)) <= digits_val(s),
    decreases s.len() - k,
{
    assert(all_digits(s.take(k))) by {
        assert(forall|i: int| 0 <= i < k ==> #[trigger] s.take(k)[i] == s[i]);
    }
    if k == s.len() {
        assert(s.take(k) =~= s);
    } else {
        lemma_digits_val_prefix(s, k + 1);
        let t = s.take(k + 1);
        assert(t.drop_last() =~= s.take(k));
        assert(t.last() == s[k]);
        assert(digits_val(t) == digits_val(s.take(k)) * 10 + (s[k] - 48));
        lemma_digits_val_nonneg(s.take(k));
        assert(is_digit(s[k]));
    }
}

/// One more digit multiplies the prefix value by ten and adds the digit.
proof fn lemma_digits_val_step(s: Seq<u8>, k: int)
    requires
        0 <= k < s.len(),
    ensures
        digits_val(s.take(k + 1)) == digits_val(s.take(k)) * 10 + (s[k] - 48),
{
    let t = s.take(k + 1);
    assert(t.drop_last() =~= s.take(k));
    assert(t.last() == s[k]);
}

/// Parse the digits of `p` from position `from`, bounded by `limit`.
/// Returns the value, or `None` when a byte is not a digit, none are
/// present, or the value exceeds `limit`.
fn parse_digits(p: &[u8], from: usize, limit: u64) -> (r: Option<u64>)
    requires
        from <= p@.len(),
        limit >= 9,
    ensures
        match r {
            Option::Some(m) => {
                &&& all_digits(p@.skip(from as int))
                &&& p@.len() - from >= 1
                &&& digits_val(p@.skip(from as int)) == m as int
                &&& m <= limit
            },
            Option::None => {
                !(all_digits(p@.skip(from as int)) && p@.len() - from >= 1 && digits_val(
                    p@.skip(from as int),
                ) <= limit)
            },
        },
{
    let ghost ds = p@.skip(from as int);
    if from == p.len() {
        return Option::None;
    }
    let mut acc: u64 = 0;
    let mut i: usize = from;
    while i < p.len()
        invariant
            from <= i <= p@.len(),
            ds == p@.skip(from as int),
            all_digits(ds.take(i - from)),
            digits_val(ds.take(i - from)) == acc as int,
            acc <= limit,
            limit >= 9,
        decreases p@.len() - i,
    {
        let b = p[i];
        proof {
            assert(ds[i - from] == p@[i as int]);
        }
        if b < 48 || b > 57 {
            proof {
                assert(!is_digit(ds[i - from]));
            }
            return Option::None;
        }
        let d = (b - 48) as u64;
        proof {
            lemma_digits_val_step(ds, i - from);
        }
        if acc > (limit - d) / 10 {
            proof {
                assert(acc * 10 + d > limit) by (nonlinear_arith)
                    requires
                        acc > (limit - d) / 10 && d <= limit && acc >= 0,
                ;
                if all_digits(ds) {
                    lemma_digits_val_prefix(ds, i + 1 - from);
                    lemma_digits_val_nonneg(ds.take(i + 1 - from));
                }
            }
            return Option::None;
        }
        proof {
            assert(acc * 10 + d <= limit) by (nonlinear_arith)
                requires
                    acc <= (limit - d) / 10 && d <= limit && acc >= 0,
            ;
        }
        acc = acc * 10 + d;
        i = i + 1;
    }
    proof {
        assert(ds.take(i - from) =~= ds);
    }
    Option::Some(acc)
}

/// Parse a signed integer payload as `parse_signed` describes it.
pub fn parse_i64_payload(p: &[u8]) -> (r: Option<i64>)
    ensures
        match r {
            Option::Some(v) => parse_signed(p@) == Option::Some(v as int),
            Option::None => parse_signed(p@) is None,
        },
{
    let neg = p.len() > 0 && p[0] == 45;
    let signed = p.len() > 0 && (p[0] == 43 || p[0] == 45);
    let from: usize = if signed {
        1
    } else {
        0
    };
    proof {
        if signed {
            assert(p@.skip(1int) =~= p@.drop_first());
        } else {
            assert(p@.skip(0int) =~= p@);
        }
    }
    let limit: u64 = if neg {
        9223372036854775808
    } else {
        9223372036854775807
    };
    match parse_digits(p, from, limit) {
        Option::None => {
            proof {
                let ds = if signed {
                    p@.drop_first()
                } else {
                    p@
                };
                if ds.len() >= 1 && all_digits(ds) {
                    lemma_digits_val_nonneg(ds);
                }
            }
            Option::None
        },
        Option::Some(m) => {
            if neg {
                if m == 9223372036854775808 {
                    Option::Some((-9223372036854775807i64) - 1)
                } else {
                    Option::Some(-(m as i64))
                }
            } else {
                Option::Some(m as i64)
            }
        },
    }
}

/// Parse an unsigned length payload as `parse_unsigned` describes it.
pub fn parse_u64_payload(p: &[u8]) -> (r: Option<u64>)
    ensures
        match r {
            Option::Some(v) => parse_unsigned(p@) == Option::Some(v as int),
            Option::None => parse_unsigned(p@) is None,
        },
{
    let signed = p.len() > 0 && p[0] == 43;
    let from: usize = if signed {
        1
    } else {
        0
    };
    proof {
        if signed {
            assert(p@.skip(1int) =~= p@.drop_first());
        } else {
            assert(p@.skip(0int) =~= p@);
        }
    }
    match parse_digits(p, from, 18446744073709551615) {
        Option::None => {
            proof {
                let ds = if signed {
                    p@.drop_first()
                } else {
                    p@
                };
                if ds.len() >= 1 && all_digits(ds) {
                    lemma_digits_val_nonneg(ds);
                }
            }
            Option::None
        },
        Option::Some(m) => Option::Some(m),
    }
}

} // verus!
