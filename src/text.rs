use vstd::arithmetic::div_mod::{lemma_fundamental_div_mod, lemma_fundamental_div_mod_converse, lemma_mod_bound};
use vstd::prelude::*;

verus! {

pub open spec fn is_digit(b: u8) -> bool {
    '0' as u8 <= b <= '9' as u8
}

pub open spec fn all_digits(s: Seq<u8>) -> bool {
    forall|i: int| 0 <= i < s.len() ==> is_digit(#[trigger] s[i])
}

/// The ASCII digit for `d`, which lies in `0..10`.
pub open spec fn digit_char(d: int) -> u8 {
    (d + '0' as u8) as u8
}

/// The number that a string of decimal digits denotes.
pub open spec fn digits_value(s: Seq<u8>) -> int
    decreases s.len(),
{
    if s.len() == 0 {
        0
    } else {
        digits_value(s.drop_last()) * 10 + (s.last() - '0' as u8)
    }
}

pub open spec fn pow10(n: nat) -> int
    decreases n,
{
    if n == 0 {
        1
    } else {
        10 * pow10((n - 1) as nat)
    }
}

/// The decimal digits of `n`, without leading zeros (zero is `0`).
pub open spec fn nat_digits(n: nat) -> Seq<u8>
    decreases n,
{
    if n < 10 {
        seq![digit_char(n as int)]
    } else {
        nat_digits(n / 10).push(digit_char((n % 10) as int))
    }
}

/// The last `w` decimal digits of `n`, with leading zeros.
pub open spec fn padded_digits(n: nat, w: nat) -> Seq<u8>
    decreases w,
{
    if w == 0 {
        Seq::empty()
    } else {
        padded_digits(n / 10, (w - 1) as nat).push(digit_char((n % 10) as int))
    }
}

pub open spec fn abs(v: int) -> nat {
    if v < 0 {
        (-v) as nat
    } else {
        v as nat
    }
}

/// The text of a fixed-point number `v` with `places` decimal places (the
/// number is `v / 10^places`): a `-` when negative, the whole part, and for
/// `places > 0` a `.` and exactly `places` fraction digits.
pub open spec fn fixed_text(v: int, places: nat) -> Seq<u8> {
    let m = abs(v) as int;
    let sign = if v < 0 {
        seq!['-' as u8]
    } else {
        Seq::empty()
    };
    let whole = nat_digits((m / pow10(places)) as nat);
    if places == 0 {
        sign + whole
    } else {
        sign + whole + seq!['.' as u8] + padded_digits((m % pow10(places)) as nat, places)
    }
}

/// The number of digits at the start of `s`.
pub open spec fn lead_digits(s: Seq<u8>) -> nat
    decreases s.len(),
{
    if s.len() > 0 && is_digit(s[0]) {
        1 + lead_digits(s.skip(1))
    } else {
        0
    }
}

/// Fraction digits `fp` in units of `10^-places`: cut after `places` digits,
/// or filled with zeros up to `places`.
pub open spec fn frac_units(fp: Seq<u8>, places: nat) -> int {
    if fp.len() >= places {
        digits_value(fp.take(places as int))
    } else {
        digits_value(fp) * pow10((places - fp.len()) as nat)
    }
}

/// An unsigned decimal `ddd`, `ddd.ddd`, `ddd.` or `.ddd` in units of
/// `10^-places`, digits beyond `places` cut off.
pub open spec fn unsigned_decimal(s: Seq<u8>, places: nat) -> Option<int> {
    let k = lead_digits(s);
    let whole = digits_value(s.take(k as int)) * pow10(places);
    let rest = s.skip(k as int);
    if rest.len() == 0 {
        if k > 0 {
            Some(whole)
        } else {
            None
        }
    } else if rest[0] == '.' as u8 && all_digits(rest.skip(1)) && (k > 0 || rest.len() > 1) {
        Some(whole + frac_units(rest.skip(1), places))
    } else {
        None
    }
}

/// A decimal with an optional sign, in units of `10^-places`.
pub open spec fn decimal_value(s: Seq<u8>, places: nat) -> Option<int> {
    if s.len() > 0 && s[0] == '-' as u8 {
        match unsigned_decimal(s.skip(1), places) {
            Some(v) => Some(-v),
            None => None,
        }
    } else if s.len() > 0 && s[0] == '+' as u8 {
        unsigned_decimal(s.skip(1), places)
    } else {
        unsigned_decimal(s, places)
    }
}

/// A decimal in units of `10^-places`, where the result fits in `i64`.
pub open spec fn fixed_value(s: Seq<u8>, places: nat) -> Option<i64> {
    match decimal_value(s, places) {
        Some(v) => if i64::MIN <= v <= i64::MAX {
            Some(v as i64)
        } else {
            None
        },
        None => None,
    }
}

/// A non-empty string of digits whose value fits in `u64`.
pub open spec fn uint_value(s: Seq<u8>) -> Option<u64> {
    if s.len() > 0 && all_digits(s) && digits_value(s) <= u64::MAX {
        Some(digits_value(s) as u64)
    } else {
        None
    }
}

pub proof fn lemma_pow10_positive(n: nat)
    ensures
        pow10(n) >= 1,
    decreases n,
{
    if n > 0 {
        lemma_pow10_positive((n - 1) as nat);
    }
}

pub(crate) proof fn lemma_digits_value_nonneg(s: Seq<u8>)
    requires
        all_digits(s),
    ensures
        digits_value(s) >= 0,
    decreases s.len(),
{
    if s.len() > 0 {
        assert(is_digit(s[s.len() - 1]));
        lemma_digits_value_nonneg(s.drop_last());
    }
}

/// Appending a digit multiplies by ten and adds it.
pub(crate) proof fn lemma_digits_value_push(s: Seq<u8>, b: u8)
    ensures
        digits_value(s.push(b)) == digits_value(s) * 10 + (b - '0' as u8),
{
    assert(s.push(b).drop_last() == s);
}

/// A longer prefix of digits is worth at least as much.
proof fn lemma_digits_value_prefix(s: Seq<u8>, j: int, k: int)
    requires
        all_digits(s),
        0 <= j <= k <= s.len(),
    ensures
        digits_value(s.take(j)) <= digits_value(s.take(k)),
    decreases k - j,
{
    if j < k {
        lemma_digits_value_prefix(s, j, k - 1);
        assert(s.take(k) == s.take(k - 1).push(s[k - 1]));
        lemma_digits_value_push(s.take(k - 1), s[k - 1]);
        assert(is_digit(s[k - 1]));
        assert(all_digits(s.take(k - 1)));
        lemma_digits_value_nonneg(s.take(k - 1));
    }
}

/// `lead_digits` is `k` when the first `k` are digits and the next is not.
proof fn lemma_lead_digits(s: Seq<u8>, k: int)
    requires
        0 <= k <= s.len(),
        all_digits(s.take(k)),
        k == s.len() || !is_digit(s[k]),
    ensures
        lead_digits(s) == k,
    decreases k,
{
    if k > 0 {
        assert(is_digit(s.take(k)[0]));
        let t = s.skip(1);
        assert(t.take(k - 1) == s.take(k).skip(1));
        assert forall|i: int| 0 <= i < k - 1 implies is_digit(#[trigger] t.take(k - 1)[i]) by {
            assert(t.take(k - 1)[i] == s.take(k)[i + 1]);
        }
        if k < s.len() {
            assert(t[k - 1] == s[k]);
        }
        lemma_lead_digits(t, k - 1);
    }
}

/// At least `k` digits lead when the first `k` are digits.
proof fn lemma_lead_digits_at_least(s: Seq<u8>, k: int)
    requires
        0 <= k <= s.len(),
        all_digits(s.take(k)),
    ensures
        k <= lead_digits(s),
        all_digits(s.take(lead_digits(s) as int)),
        lead_digits(s) <= s.len(),
    decreases s.len(),
{
    if s.len() > 0 && is_digit(s[0]) {
        let t = s.skip(1);
        let k1 = if k > 0 { k - 1 } else { 0 };
        assert forall|i: int| 0 <= i < k1 implies is_digit(#[trigger] t.take(k1)[i]) by {
            assert(t.take(k1)[i] == s.take(k)[i + 1]);
        }
        lemma_lead_digits_at_least(t, k1);
        let m = lead_digits(t) as int;
        assert forall|i: int| 0 <= i < m + 1 implies is_digit(#[trigger] s.take(m + 1)[i]) by {
            if i > 0 {
                assert(s.take(m + 1)[i] == t.take(m)[i - 1]);
            }
        }
    } else if k > 0 {
        assert(is_digit(s.take(k)[0]));
    }
}

pub(crate) fn pow10_exec(n: u32) -> (r: u64)
    requires
        n <= 18,
    ensures
        r == pow10(n as nat),
    decreases n,
{
    if n == 0 {
        1
    } else {
        let p = pow10_exec(n - 1);
        assert(pow10(n as nat) == 10 * pow10((n - 1) as nat));
        assert(pow10((n - 1) as nat) <= 100_000_000_000_000_000) by {
            lemma_pow10_bound((n - 1) as nat);
        }
        10 * p
    }
}

proof fn lemma_pow10_bound(n: nat)
    requires
        n <= 17,
    ensures
        pow10(n) <= 100_000_000_000_000_000,
    decreases n,
{
    reveal_with_fuel(pow10, 18);
}

/// Appends the decimal digits of `n`.
pub fn push_digits(out: &mut Vec<u8>, n: u64)
    ensures
        final(out)@ == old(out)@ + nat_digits(n as nat),
    decreases n,
{
    if n >= 10 {
        push_digits(out, n / 10);
    }
    let d = (n % 10) as u8 + '0' as u8;
    out.push(d);
    assert(old(out)@ + nat_digits(n as nat) == old(out)@ + (if n >= 10 {
        nat_digits((n / 10) as nat)
    } else {
        Seq::empty()
    }) + seq![d]);
}

/// Appends the last `w` decimal digits of `n`, with leading zeros.
pub fn push_padded(out: &mut Vec<u8>, n: u64, w: u32)
    ensures
        final(out)@ == old(out)@ + padded_digits(n as nat, w as nat),
    decreases w,
{
    if w > 0 {
        push_padded(out, n / 10, w - 1);
        let d = (n % 10) as u8 + '0' as u8;
        out.push(d);
        assert(old(out)@ + padded_digits(n as nat, w as nat) == old(out)@ + padded_digits(
            (n / 10) as nat,
            (w - 1) as nat,
        ) + seq![d]);
    }
}

/// Appends the text of the fixed-point number `v` with `places` decimals.
pub fn push_fixed(out: &mut Vec<u8>, v: i64, places: u32)
    requires
        places <= 18,
    ensures
        final(out)@ == old(out)@ + fixed_text(v as int, places as nat),
{
    let m: u64 = if v < 0 {
        (-(v as i128)) as u64
    } else {
        v as u64
    };
    assert(m == abs(v as int));
    let p = pow10_exec(places);
    proof {
        lemma_pow10_positive(places as nat);
    }
    let ghost before = out@;
    if v < 0 {
        out.push('-' as u8);
    }
    let ghost signed = out@;
    push_digits(out, m / p);
    if places > 0 {
        out.push('.' as u8);
        push_padded(out, m % p, places);
    }
    proof {
        let sign = if v < 0 {
            seq!['-' as u8]
        } else {
            Seq::<u8>::empty()
        };
        assert(signed == before + sign);
        if places == 0 {
            assert(out@ == before + (sign + nat_digits((m / p) as nat)));
        } else {
            assert(out@ == before + (sign + nat_digits((m / p) as nat) + seq!['.' as u8]
                + padded_digits((m % p) as nat, places as nat)));
        }
    }
}

/// The largest magnitude of an `i64`: `2^63`.
const MAGNITUDE_LIMIT: u128 = 0x8000_0000_0000_0000;

/// Reads the digits that lead `s[start..hi]`. Returns the index after them
/// and their value, or `None` for a value above `MAGNITUDE_LIMIT`.
fn scan_whole(s: &[u8], start: usize, hi: usize) -> (r: (usize, Option<u128>))
    requires
        start <= hi <= s@.len(),
    ensures
        ({
            let b = s@.subrange(start as int, hi as int);
            let k = lead_digits(b) as int;
            &&& k <= b.len()
            &&& all_digits(b.take(k))
            &&& r.1 is Some ==> r.0 == start + k && r.1 == Some(digits_value(b.take(k)) as u128)
                && digits_value(b.take(k)) <= MAGNITUDE_LIMIT
            &&& r.1 is None ==> digits_value(b.take(k)) > MAGNITUDE_LIMIT
        }),
{
    let ghost b = s@.subrange(start as int, hi as int);
    let mut whole: u128 = 0;
    let mut i = start;
    while i < hi && '0' as u8 <= s[i] && s[i] <= '9' as u8
        invariant
            start <= i <= hi <= s@.len(),
            b == s@.subrange(start as int, hi as int),
            all_digits(b.take(i - start)),
            whole == digits_value(b.take(i - start)),
            whole <= MAGNITUDE_LIMIT,
        decreases hi - i,
    {
        let d = s[i] - '0' as u8;
        proof {
            assert(b[i - start] == s@[i as int]);
            assert(b.take(i - start + 1) == b.take(i - start).push(s@[i as int]));
            lemma_digits_value_push(b.take(i - start), s@[i as int]);
        }
        let next = whole * 10 + d as u128;
        if next > MAGNITUDE_LIMIT {
            proof {
                let k = i - start + 1;
                assert(all_digits(b.take(k)));
                lemma_lead_digits_at_least(b, k);
                let ld = lead_digits(b) as int;
                assert(b.take(ld).take(k) == b.take(k));
                assert(b.take(ld).take(ld) == b.take(ld));
                lemma_digits_value_prefix(b.take(ld), k, ld);
            }
            return (i, None);
        }
        whole = next;
        i = i + 1;
    }
    proof {
        if i < hi {
            assert(b[i - start] == s@[i as int]);
        }
        lemma_lead_digits(b, i - start);
    }
    (i, Some(whole))
}

/// Reads `s[fstart..hi]` as fraction digits: their first `places` digits,
/// and how many that are, or `None` where a byte is not a digit.
fn scan_frac(s: &[u8], fstart: usize, hi: usize, places: u32) -> (r: Option<(u128, u32)>)
    requires
        fstart <= hi <= s@.len(),
        places <= 18,
    ensures
        ({
            let fp = s@.subrange(fstart as int, hi as int);
            match r {
                None => !all_digits(fp),
                Some((frac, fd)) => {
                    &&& all_digits(fp)
                    &&& fd <= places
                    &&& (fp.len() >= places ==> fd == places && frac == digits_value(fp.take(places as int)))
                    &&& (fp.len() < places ==> fd == fp.len() && frac == digits_value(fp))
                    &&& frac < pow10(fd as nat)
                },
            }
        }),
{
    let ghost fp = s@.subrange(fstart as int, hi as int);
    let mut frac: u128 = 0;
    let mut fd: u32 = 0;
    let mut i = fstart;
    while i < hi
        invariant
            fstart <= i <= hi <= s@.len(),
            fp == s@.subrange(fstart as int, hi as int),
            all_digits(fp.take(i - fstart)),
            fd <= places <= 18,
            fd == if i - fstart < places { i - fstart } else { places as int },
            frac == digits_value(fp.take(fd as int)),
            frac < pow10(fd as nat),
        decreases hi - i,
    {
        if s[i] < '0' as u8 || s[i] > '9' as u8 {
            proof {
                assert(fp[i - fstart] == s@[i as int]);
            }
            return None;
        }
        if fd < places {
            let d = s[i] - '0' as u8;
            proof {
                assert(fp[fd as int] == s@[i as int]);
                assert(fp.take(fd + 1) == fp.take(fd as int).push(s@[i as int]));
                lemma_digits_value_push(fp.take(fd as int), s@[i as int]);
                lemma_pow10_bound_18(fd as nat);
                assert(pow10((fd + 1) as nat) == 10 * pow10(fd as nat));
            }
            frac = frac * 10 + d as u128;
            fd = fd + 1;
        }
        proof {
            assert(fp[i - fstart] == s@[i as int]);
            assert(fp.take(i - fstart + 1) == fp.take(i - fstart).push(fp[i - fstart]));
        }
        i = i + 1;
    }
    proof {
        assert(fp.take(fp.len() as int) == fp);
    }
    Some((frac, fd))
}

/// Reads `s[lo..hi]` as a decimal with an optional sign, in units of
/// `10^-places` (digits beyond `places` are cut off), where it fits in `i64`.
pub fn parse_fixed(s: &[u8], lo: usize, hi: usize, places: u32) -> (r: Option<i64>)
    requires
        lo <= hi <= s@.len(),
        places <= 18,
    ensures
        r == fixed_value(s@.subrange(lo as int, hi as int), places as nat),
{
    let ghost t = s@.subrange(lo as int, hi as int);
    let mut start = lo;
    let mut neg = false;
    if lo < hi && s[lo] == '-' as u8 {
        neg = true;
        start = lo + 1;
    } else if lo < hi && s[lo] == '+' as u8 {
        start = lo + 1;
    }
    let ghost b = s@.subrange(start as int, hi as int);
    proof {
        if start > lo {
            assert(t.skip(1) == b);
        } else {
            assert(t == b);
        }
    }
    let ghost u = unsigned_decimal(b, places as nat);
    assert(decimal_value(t, places as nat) == match u {
        Some(v) => if neg { Some(-v) } else { Some(v) },
        None => None,
    });
    let (i, w) = scan_whole(s, start, hi);
    let ghost k = lead_digits(b) as int;
    proof {
        lemma_pow10_bound_18(places as nat);
        lemma_digits_value_nonneg(b.take(k));
    }
    let whole = match w {
        Some(v) => v,
        None => {
            proof {
                lemma_unsigned_decimal_at_least(b, places as nat);
            }
            return None;
        },
    };
    let mut frac: u128 = 0;
    let mut fd: u32 = 0;
    if i < hi {
        if s[i] != '.' as u8 {
            proof {
                assert(b.skip(k)[0] == s@[i as int]);
            }
            return None;
        }
        proof {
            assert(b.skip(k)[0] == s@[i as int]);
            assert(b.skip(k).skip(1) == s@.subrange(i + 1, hi as int));
        }
        match scan_frac(s, i + 1, hi, places) {
            None => {
                return None;
            },
            Some((f, d)) => {
                frac = f;
                fd = d;
            },
        }
        proof {
            assert(frac < pow10(fd as nat));
        }
        if i + 1 == hi && i == start {
            return None;
        }
    } else {
        if i == start {
            return None;
        }
    }
    proof {
        if i < hi {
            let fp = b.skip(k).skip(1);
            assert(fp == s@.subrange(i + 1, hi as int));
            lemma_frac_units_value(fp, places as nat, fd as nat, frac as int);
        }
    }
    let r = signed_total(whole, frac, fd, places, neg);
    proof {
        assert(u == Some(whole * pow10(places as nat) + frac * pow10((places - fd) as nat)));
    }
    r

}

/// The fraction digits read so far stand for `frac_units`.
proof fn lemma_frac_units_value(fp: Seq<u8>, places: nat, fd: nat, frac: int)
    requires
        fd <= places,
        fp.len() >= places ==> fd == places && frac == digits_value(fp.take(places as int)),
        fp.len() < places ==> fd == fp.len() && frac == digits_value(fp),
    ensures
        frac_units(fp, places) == frac * pow10((places - fd) as nat),
{
    if fp.len() >= places {
        assert(pow10(0) == 1);
    }
}

/// `whole * 10^places + frac * 10^(places - fd)`, negated when `neg`, where
/// it fits in `i64`.
fn signed_total(whole: u128, frac: u128, fd: u32, places: u32, neg: bool) -> (r: Option<i64>)
    requires
        whole <= MAGNITUDE_LIMIT,
        fd <= places <= 18,
        frac < pow10(fd as nat),
    ensures
        ({
            let t = whole * pow10(places as nat) + frac * pow10((places - fd) as nat);
            let v = if neg {
                -t
            } else {
                t
            };
            r == if i64::MIN <= v <= i64::MAX {
                Some(v as i64)
            } else {
                None::<i64>
            }
        }),
{
    let p_all = pow10_exec(places);
    let p_rest = pow10_exec(places - fd);
    proof {
        lemma_pow10_bound_18((places - fd) as nat);
        lemma_pow10_bound_18(fd as nat);
        lemma_pow10_bound_18(places as nat);
    }
    assert(whole * p_all <= 0x8000_0000_0000_0000 * 1_000_000_000_000_000_000) by (nonlinear_arith)
        requires whole <= 0x8000_0000_0000_0000, p_all <= 1_000_000_000_000_000_000;
    assert(frac * p_rest <= 1_000_000_000_000_000_000 * 1_000_000_000_000_000_000) by (nonlinear_arith)
        requires frac <= 1_000_000_000_000_000_000, p_rest <= 1_000_000_000_000_000_000;
    let total: u128 = whole * (p_all as u128) + frac * (p_rest as u128);
    if neg {
        if total > MAGNITUDE_LIMIT {
            return None;
        }
        Some((-(total as i128)) as i64)
    } else {
        if total >= MAGNITUDE_LIMIT {
            return None;
        }
        Some(total as i64)
    }
}

/// An unsigned decimal is worth at least its whole part.
proof fn lemma_unsigned_decimal_at_least(b: Seq<u8>, places: nat)
    requires
        all_digits(b.take(lead_digits(b) as int)),
        lead_digits(b) <= b.len(),
    ensures
        unsigned_decimal(b, places) matches Some(v) ==> v >= digits_value(b.take(lead_digits(b) as int)),
{
    let k = lead_digits(b) as int;
    let w = digits_value(b.take(k));
    lemma_digits_value_nonneg(b.take(k));
    lemma_pow10_positive(places);
    assert(w * pow10(places) >= w) by (nonlinear_arith)
        requires w >= 0, pow10(places) >= 1;
    let rest = b.skip(k);
    if rest.len() > 0 && all_digits(rest.skip(1)) {
        lemma_frac_units_nonneg(rest.skip(1), places);
    }
}

proof fn lemma_pow10_bound_18(n: nat)
    requires
        n <= 18,
    ensures
        1 <= pow10(n) <= 1_000_000_000_000_000_000,
{
    reveal_with_fuel(pow10, 19);
}

proof fn lemma_frac_units_nonneg(fp: Seq<u8>, places: nat)
    requires
        all_digits(fp),
    ensures
        frac_units(fp, places) >= 0,
{
    if fp.len() >= places {
        assert(all_digits(fp.take(places as int)));
        lemma_digits_value_nonneg(fp.take(places as int));
    } else {
        lemma_digits_value_nonneg(fp);
        lemma_pow10_positive((places - fp.len()) as nat);
        assert(digits_value(fp) * pow10((places - fp.len()) as nat) >= 0) by (nonlinear_arith)
            requires digits_value(fp) >= 0, pow10((places - fp.len()) as nat) >= 1;
    }
}

/// Reads `s[lo..hi]` as a non-empty string of digits whose value fits in
/// `u64`.
pub fn parse_uint(s: &[u8], lo: usize, hi: usize) -> (r: Option<u64>)
    requires
        lo <= hi <= s@.len(),
    ensures
        r == uint_value(s@.subrange(lo as int, hi as int)),
{
    let ghost t = s@.subrange(lo as int, hi as int);
    if lo == hi {
        return None;
    }
    let mut v: u128 = 0;
    let mut i = lo;
    while i < hi
        invariant
            lo <= i <= hi <= s@.len(),
            t == s@.subrange(lo as int, hi as int),
            all_digits(t.take(i - lo)),
            v == digits_value(t.take(i - lo)),
            v <= u64::MAX,
        decreases hi - i,
    {
        if s[i] < '0' as u8 || s[i] > '9' as u8 {
            proof {
                assert(t[i - lo] == s@[i as int]);
            }
            return None;
        }
        let d = s[i] - '0' as u8;
        proof {
            assert(t.take(i - lo + 1) == t.take(i - lo).push(s@[i as int]));
            lemma_digits_value_push(t.take(i - lo), s@[i as int]);
        }
        let next = v * 10 + d as u128;
        if next > u64::MAX as u128 {
            proof {
                let k = i - lo + 1;
                if all_digits(t) {
                    assert(t.take(t.len() as int) == t);
                    lemma_digits_value_prefix(t, k, t.len() as int);
                }
            }
            return None;
        }
        v = next;
        i = i + 1;
    }
    assert(t.take(hi - lo) == t);
    Some(v as u64)
}

/// Digits written for a number read back as that number.
pub proof fn lemma_nat_digits_value(n: nat)
    ensures
        all_digits(nat_digits(n)),
        nat_digits(n).len() > 0,
        digits_value(nat_digits(n)) == n,
    decreases n,
{
    if n >= 10 {
        lemma_nat_digits_value(n / 10);
        let d = nat_digits(n / 10);
        let b = digit_char((n % 10) as int);
        assert(n == (n / 10) * 10 + n % 10);
        assert(nat_digits(n) == d.push(b));
        assert(d.push(b).drop_last() == d);
        assert forall|i: int| 0 <= i < d.push(b).len() implies is_digit(#[trigger] d.push(b)[i]) by {
            if i < d.len() {
                assert(d.push(b)[i] == d[i]);
            }
        }
    } else {
        let d = seq![digit_char(n as int)];
        assert(d.drop_last() == Seq::<u8>::empty());
        assert(digits_value(Seq::<u8>::empty()) == 0);
        assert(d.last() == digit_char(n as int));
    }
}

/// The last `w` digits of `n`, with leading zeros, read back as `n` modulo
/// `10^w`.
pub proof fn lemma_padded_digits_value(n: nat, w: nat)
    ensures
        all_digits(padded_digits(n, w)),
        padded_digits(n, w).len() == w,
        digits_value(padded_digits(n, w)) == (n as int) % pow10(w),
    decreases w,
{
    if w == 0 {
        assert(n % 1 == 0);
    } else {
        let a = n / 10;
        let b = n % 10;
        let p = pow10((w - 1) as nat);
        lemma_padded_digits_value(a, (w - 1) as nat);
        lemma_pow10_positive((w - 1) as nat);
        let d = padded_digits(a, (w - 1) as nat);
        let c = digit_char(b as int);
        assert(padded_digits(n, w) == d.push(c));
        assert(d.push(c).drop_last() == d);
        assert forall|i: int| 0 <= i < d.push(c).len() implies is_digit(#[trigger] d.push(c)[i]) by {
            if i < d.len() {
                assert(d.push(c)[i] == d[i]);
            }
        }
        lemma_fundamental_div_mod(a as int, p);
        lemma_mod_bound(a as int, p);
        assert(n == 10 * a + b);
        let q = a as int / p;
        let r = a as int % p;
        assert(n == q * (10 * p) + (10 * r + b)) by (nonlinear_arith)
            requires n == 10 * a + b, a == p * q + r;
        assert(10 * r + b < 10 * p) by (nonlinear_arith)
            requires r < p, b < 10, r >= 0;
        lemma_fundamental_div_mod_converse(n as int, 10 * p, q, 10 * r + b);
        assert(pow10(w) == 10 * p);
    }
}

/// A fixed-point number written with `places` decimals reads back as
/// itself.
pub proof fn lemma_fixed_round_trip(v: i64, places: nat)
    ensures
        fixed_value(fixed_text(v as int, places), places) == Some(v),
{
    let m = abs(v as int) as int;
    let p = pow10(places);
    lemma_pow10_positive(places);
    let q = (m / p) as nat;
    let r = (m % p) as nat;
    lemma_fundamental_div_mod(m, p);
    lemma_mod_bound(m, p);
    assert(m / p >= 0) by (nonlinear_arith)
        requires m >= 0, p > 0;
    lemma_nat_digits_value(q);
    lemma_padded_digits_value(r, places);
    assert((r as int) % p == r) by {
        lemma_fundamental_div_mod_converse(r as int, p, 0, r as int);
    }
    let whole = nat_digits(q);
    let body = if places == 0 {
        whole
    } else {
        whole + seq!['.' as u8] + padded_digits(r, places)
    };
    let k = whole.len() as int;
    assert(body.take(k) == whole);
    lemma_lead_digits(body, k);
    assert(digits_value(body.take(k)) * p == q * p);
    if places == 0 {
        assert(body.skip(k).len() == 0);
        assert(p == 1);
        assert(unsigned_decimal(body, places) == Some(m));
    } else {
        let rest = body.skip(k);
        assert(rest == seq!['.' as u8] + padded_digits(r, places));
        assert(rest.skip(1) == padded_digits(r, places));
        assert(padded_digits(r, places).take(places as int) == padded_digits(r, places));
        assert(frac_units(rest.skip(1), places) == r as int);
        assert(unsigned_decimal(body, places) == Some(q * p + r));
        assert(q * p + r == m);
    }
    let text = fixed_text(v as int, places);
    if v < 0 {
        assert(text == seq!['-' as u8] + body);
        assert(text.skip(1) == body);
    } else {
        assert(text == body);
        assert(is_digit(whole[0]));
    }
}

} // verus!
