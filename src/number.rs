use crate::text::{
    all_digits, digits_value, fixed_value, lemma_digits_value_nonneg, lemma_digits_value_push,
    parse_fixed, pow10, pow10_exec,
};
use vstd::prelude::*;

verus! {

pub open spec fn is_exp_mark(b: u8) -> bool {
    b == 'e' as u8 || b == 'E' as u8
}

/// The index of the first `e` or `E` in `s`, or its length.
pub open spec fn exp_index(s: Seq<u8>) -> nat
    decreases s.len(),
{
    if s.len() == 0 || is_exp_mark(s[0]) {
        0
    } else {
        1 + exp_index(s.skip(1))
    }
}

/// An exponent: an optional sign and at least one digit.
pub open spec fn exponent_value(t: Seq<u8>) -> Option<int> {
    if t.len() > 0 && (t[0] == '-' as u8 || t[0] == '+' as u8) {
        let d = t.skip(1);
        if d.len() > 0 && all_digits(d) {
            Some(
                if t[0] == '-' as u8 {
                    -digits_value(d)
                } else {
                    digits_value(d)
                },
            )
        } else {
            None
        }
    } else if t.len() > 0 && all_digits(t) {
        Some(digits_value(t))
    } else {
        None
    }
}

/// `v / d` cut toward zero.
pub open spec fn trunc_div(v: int, d: int) -> int {
    if v >= 0 {
        v / d
    } else {
        -((-v) / d)
    }
}

/// A decimal in units of `10^-places`, optionally followed by an exponent
/// (`e` or `E`, an optional sign, digits) that moves its point. The part
/// before the exponent reads as by `fixed_value` with `places + exponent`
/// decimals where that count lies in `0..=18`; for a smaller count it reads
/// whole and is divided, cut toward zero; a larger count does not read.
pub open spec fn number_value(s: Seq<u8>, places: nat) -> Option<i64> {
    let k = exp_index(s) as int;
    if k == s.len() {
        fixed_value(s, places)
    } else {
        match exponent_value(s.skip(k + 1)) {
            Some(e) => {
                let p = places + e;
                if 0 <= p <= 18 {
                    fixed_value(s.take(k), p as nat)
                } else if p < 0 {
                    match fixed_value(s.take(k), 0) {
                        Some(v) => Some(trunc_div(v as int, pow10((-p) as nat)) as i64),
                        None => None,
                    }
                } else {
                    None
                }
            },
            None => None,
        }
    }
}

/// `exp_index` is `k` when no mark comes before `k` and one stands there
/// (or `k` is the end).
pub proof fn lemma_exp_index(s: Seq<u8>, k: int)
    requires
        0 <= k <= s.len(),
        forall|i: int| 0 <= i < k ==> !is_exp_mark(#[trigger] s[i]),
        k == s.len() || is_exp_mark(s[k]),
    ensures
        exp_index(s) == k,
    decreases k,
{
    if k > 0 {
        let t = s.skip(1);
        assert(!is_exp_mark(s[0]));
        assert forall|i: int| 0 <= i < k - 1 implies !is_exp_mark(#[trigger] t[i]) by {
            assert(t[i] == s[i + 1]);
        }
        if k < s.len() {
            assert(t[k - 1] == s[k]);
        }
        lemma_exp_index(t, k - 1);
    }
}

proof fn lemma_pow10_monotone(a: nat, b: nat)
    requires
        a <= b,
    ensures
        pow10(a) <= pow10(b),
    decreases b - a,
{
    if a < b {
        lemma_pow10_monotone(a, (b - 1) as nat);
        crate::text::lemma_pow10_positive((b - 1) as nat);
    }
}

/// Dividing a value of `i64` by `10^k` for `k >= 19` gives zero.
proof fn lemma_trunc_div_large(v: i64, k: nat)
    requires
        k >= 19,
    ensures
        trunc_div(v as int, pow10(k)) == 0,
{
    reveal_with_fuel(pow10, 20);
    lemma_pow10_monotone(19, k);
    let d = pow10(k);
    assert(d >= 10_000_000_000_000_000_000);
    if v >= 0 {
        assert((v as int) / d == 0) by (nonlinear_arith)
            requires 0 <= v < d;
    } else {
        assert((-v) / d == 0) by (nonlinear_arith)
            requires 0 < -v < d;
    }
}

/// The index of the first `e` or `E` in `s[lo..hi]`, counted from `lo`.
fn find_exp(s: &[u8], lo: usize, hi: usize) -> (r: usize)
    requires
        lo <= hi <= s@.len(),
    ensures
        r == exp_index(s@.subrange(lo as int, hi as int)),
        r <= hi - lo,
{
    let ghost t = s@.subrange(lo as int, hi as int);
    let mut i = lo;
    while i < hi && s[i] != 'e' as u8 && s[i] != 'E' as u8
        invariant
            lo <= i <= hi <= s@.len(),
            t == s@.subrange(lo as int, hi as int),
            forall|j: int| 0 <= j < i - lo ==> !is_exp_mark(#[trigger] t[j]),
        decreases hi - i,
    {
        assert(t[i - lo] == s@[i as int]);
        i = i + 1;
    }
    proof {
        if i < hi {
            assert(t[i - lo] == s@[i as int]);
        }
        lemma_exp_index(t, i - lo);
    }
    i - lo
}

/// The exponent bound kept by `parse_exponent`.
pub open spec fn clamp_exponent(e: int) -> int {
    if e > 100 {
        100
    } else if e < -100 {
        -100
    } else {
        e
    }
}

/// Reads `s[lo..hi]` as an exponent, held to `-100..=100`.
fn parse_exponent(s: &[u8], lo: usize, hi: usize) -> (r: Option<i64>)
    requires
        lo <= hi <= s@.len(),
    ensures
        match exponent_value(s@.subrange(lo as int, hi as int)) {
            Some(e) => r == Some(clamp_exponent(e) as i64),
            None => r is None,
        },
{
    let ghost t = s@.subrange(lo as int, hi as int);
    assert(t.len() > 0 ==> t[0] == s@[lo as int]);
    let mut neg = false;
    let mut start = lo;
    if lo < hi && (s[lo] == '-' as u8 || s[lo] == '+' as u8) {
        neg = s[lo] == '-' as u8;
        start = lo + 1;
    }
    let ghost d = s@.subrange(start as int, hi as int);
    proof {
        if start > lo {
            assert(t.skip(1) == d);
        } else {
            assert(t == d);
        }
    }
    if start == hi {
        assert(d.len() == 0);
        return None;
    }
    let mut v: u64 = 0;
    let mut capped = false;
    let mut i = start;
    while i < hi
        invariant
            lo <= start <= i <= hi <= s@.len(),
            d == s@.subrange(start as int, hi as int),
            t == s@.subrange(lo as int, hi as int),
            start == lo ==> t == d && !(t.len() > 0 && (t[0] == '-' as u8 || t[0] == '+' as u8)),
            start > lo ==> t.skip(1) == d && t.len() > 0 && (t[0] == '-' as u8 || t[0] == '+' as u8)
                && neg == (t[0] == '-' as u8),
            d.len() > 0,
            all_digits(d.take(i - start)),
            !capped ==> v == digits_value(d.take(i - start)),
            capped ==> digits_value(d.take(i - start)) > 100,
            v <= 100,
        decreases hi - i,
    {
        if s[i] < '0' as u8 || s[i] > '9' as u8 {
            proof {
                assert(d[i - start] == s@[i as int]);
            }
            return None;
        }
        let dg = s[i] - '0' as u8;
        proof {
            assert(d[i - start] == s@[i as int]);
            assert(d.take(i - start + 1) == d.take(i - start).push(s@[i as int]));
            lemma_digits_value_push(d.take(i - start), s@[i as int]);
            lemma_digits_value_nonneg(d.take(i - start));
        }
        if !capped {
            let next = v * 10 + dg as u64;
            if next > 100 {
                capped = true;
            } else {
                v = next;
            }
        }
        i = i + 1;
    }
    assert(d.take(hi - start) == d);
    let m: i64 = if capped {
        100
    } else {
        v as i64
    };
    if neg {
        Some(-m)
    } else {
        Some(m)
    }
}

/// Reads `s[lo..hi]` as a decimal with an optional exponent, in units of
/// `10^-places` (see `number_value`).
pub fn parse_number(s: &[u8], lo: usize, hi: usize, places: u32) -> (r: Option<i64>)
    requires
        lo <= hi <= s@.len(),
        places <= 18,
    ensures
        r == number_value(s@.subrange(lo as int, hi as int), places as nat),
{
    let ghost t = s@.subrange(lo as int, hi as int);
    let k = find_exp(s, lo, hi);
    if k == hi - lo {
        return parse_fixed(s, lo, hi, places);
    }
    proof {
        assert(t.skip(k + 1) == s@.subrange(lo + k + 1, hi as int));
        assert(t.take(k as int) == s@.subrange(lo as int, lo + k));
    }
    let e = match parse_exponent(s, lo + k + 1, hi) {
        Some(e) => e,
        None => {
            return None;
        },
    };
    let p: i64 = places as i64 + e;
    if 0 <= p && p <= 18 {
        parse_fixed(s, lo, lo + k, p as u32)
    } else if p < 0 {
        let v = match parse_fixed(s, lo, lo + k, 0) {
            Some(v) => v,
            None => {
                return None;
            },
        };
        let kk = -p;
        proof {
            let ge = exponent_value(t.skip(k + 1))->Some_0;
            if ge < -100 {
                assert((-(places + ge)) >= 19);
                lemma_trunc_div_large(v, (-(places + ge)) as nat);
            }
        }
        if kk >= 19 {
            proof {
                lemma_trunc_div_large(v, kk as nat);
            }
            return Some(0);
        }
        let d = pow10_exec(kk as u32) as i128;
        let a: i128 = if v >= 0 {
            v as i128
        } else {
            -(v as i128)
        };
        let q0: i128 = match a.checked_div_euclid(d) {
            Some(x) => x,
            None => 0,
        };
        let q: i128 = if v >= 0 {
            q0
        } else {
            -q0
        };
        proof {
            crate::text::lemma_pow10_positive(kk as nat);
            let a: int = if v >= 0 { v as int } else { -(v as int) };
            assert(0 <= a / (d as int) <= a) by (nonlinear_arith)
                requires d >= 1, a >= 0;
        }
        Some(q as i64)
    } else {
        None
    }
}

} // verus!
