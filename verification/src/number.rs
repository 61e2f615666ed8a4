//! Decimal floating-point literals as `str::parse::<f32>` reads them, and
//! whether such a literal denotes a strictly positive `f32`.
//!
//! The library never computes with floating point: a number in a chart is
//! kept as the place in the text where it is written, and the decisions the
//! player takes on it (is a tempo positive?) are taken on the literal.

use vstd::prelude::*;
use crate::text::{all_digits, ascii_lower, digit_value, digits_value, eq_ignore_case, is_digit, is_digit_char};

verus! {

/// Decimal digits of 5^150. A decimal `D * 10^E` is above `2^-150` (half the
/// smallest positive `f32`, the largest value that rounds to zero) exactly
/// when `D * 10^(E + 150) > 5^150`.
pub const FIVE_POW_150: [char; 105] = ['7', '0', '0', '6', '4', '9', '2', '3', '2', '1', '6', '2', '4', '0', '8', '5', '3', '5', '4', '6', '1', '8', '6', '4', '7', '9', '1', '6', '4', '4', '9', '5', '8', '0', '6', '5', '6', '4', '0', '1', '3', '0', '9', '7', '0', '9', '3', '8', '2', '5', '7', '8', '8', '5', '8', '7', '8', '5', '3', '4', '1', '4', '1', '9', '4', '4', '8', '9', '5', '5', '4', '1', '3', '4', '2', '9', '3', '0', '3', '0', '0', '7', '4', '3', '3', '1', '9', '0', '9', '4', '1', '8', '1', '0', '6', '0', '7', '9', '1', '0', '1', '5', '6', '2', '5'];

pub open spec fn pow10(n: nat) -> nat
    decreases n,
{
    if n == 0 {
        1
    } else {
        10 * pow10((n - 1) as nat)
    }
}

pub open spec fn sign_len(t: Seq<char>) -> int {
    if t.len() > 0 && (t[0] == '+' || t[0] == '-') {
        1
    } else {
        0
    }
}

pub open spec fn is_negative(t: Seq<char>) -> bool {
    t.len() > 0 && t[0] == '-'
}

/// The literal without its sign.
pub open spec fn unsigned_part(t: Seq<char>) -> Seq<char> {
    t.subrange(sign_len(t), t.len() as int)
}

/// `b` spells the lowercase word `w`, ignoring ASCII case.
pub open spec fn spells(b: Seq<char>, w: Seq<char>) -> bool {
    b.len() == w.len() && forall|i: int| 0 <= i < b.len() ==> ascii_lower(#[trigger] b[i]) == w[i]
}

pub open spec fn is_infinity_word(b: Seq<char>) -> bool {
    spells(b, seq!['i', 'n', 'f']) || spells(b, seq!['i', 'n', 'f', 'i', 'n', 'i', 't', 'y'])
}

pub open spec fn is_nan_word(b: Seq<char>) -> bool {
    spells(b, seq!['n', 'a', 'n'])
}

/// End of the run of digits that starts at `i`.
pub open spec fn digit_run(b: Seq<char>, i: int) -> int
    decreases b.len() - i,
{
    if 0 <= i < b.len() && is_digit(b[i]) {
        digit_run(b, i + 1)
    } else {
        i
    }
}

/// End of the integer digits of an unsigned decimal `b`.
pub open spec fn int_end(b: Seq<char>) -> int {
    digit_run(b, 0)
}

pub open spec fn has_point(b: Seq<char>) -> bool {
    int_end(b) < b.len() && b[int_end(b)] == '.'
}

/// End of the mantissa (integer digits, then `.` and fraction digits).
pub open spec fn mantissa_end(b: Seq<char>) -> int {
    if has_point(b) {
        digit_run(b, int_end(b) + 1)
    } else {
        int_end(b)
    }
}

pub open spec fn int_digits(b: Seq<char>) -> Seq<char> {
    b.subrange(0, int_end(b))
}

pub open spec fn frac_digits(b: Seq<char>) -> Seq<char> {
    if has_point(b) {
        b.subrange(int_end(b) + 1, mantissa_end(b))
    } else {
        Seq::empty()
    }
}

/// What follows the mantissa: empty, or `e`/`E`, an optional sign, digits.
pub open spec fn exponent_part(b: Seq<char>) -> Seq<char> {
    b.subrange(mantissa_end(b), b.len() as int)
}

pub open spec fn exponent_digits(x: Seq<char>) -> Seq<char> {
    let y = x.drop_first();
    y.subrange(sign_len(y), y.len() as int)
}

pub open spec fn exponent_ok(x: Seq<char>) -> bool {
    x.len() == 0 || ((x[0] == 'e' || x[0] == 'E') && exponent_digits(x).len() > 0 && all_digits(
        exponent_digits(x),
    ))
}

pub open spec fn is_decimal(b: Seq<char>) -> bool {
    int_digits(b).len() + frac_digits(b).len() > 0 && exponent_ok(exponent_part(b))
}

/// What `str::parse::<f32>` accepts: an optional sign, then `inf`,
/// `infinity` or `nan` in any case, or a decimal `12`, `1.5`, `1.`, `.5`
/// with an optional exponent `e7`, `E-3`, `e+2`.
pub open spec fn is_float_literal(t: Seq<char>) -> bool {
    let b = unsigned_part(t);
    is_infinity_word(b) || is_nan_word(b) || is_decimal(b)
}

/// The integer `D` of a decimal `D * 10^E` (all mantissa digits).
pub open spec fn mantissa_value(b: Seq<char>) -> nat {
    digits_value(int_digits(b) + frac_digits(b))
}

/// The written exponent (after `e`), 0 when there is none.
pub open spec fn written_exponent(b: Seq<char>) -> int {
    let x = exponent_part(b);
    if x.len() == 0 {
        0
    } else {
        let v = digits_value(exponent_digits(x)) as int;
        if is_negative(x.drop_first()) {
            -v
        } else {
            v
        }
    }
}

/// The exponent `E` of a decimal `D * 10^E`.
pub open spec fn scale(b: Seq<char>) -> int {
    written_exponent(b) - frac_digits(b).len()
}

/// `d * 10^e > 2^-150`, written over integers as `d * 10^(e+150) > 5^150`.
pub open spec fn above_half_min(d: nat, e: int) -> bool {
    let p = digits_value(FIVE_POW_150@);
    let k = e + 150;
    if k >= 0 {
        d * pow10(k as nat) > p
    } else {
        d > p * pow10((-k) as nat)
    }
}

/// The literal parses to an `f32` strictly greater than zero: it is not
/// negative, not NaN, and infinite or above the value that rounds to 0.
pub open spec fn denotes_positive(t: Seq<char>) -> bool {
    let b = unsigned_part(t);
    is_float_literal(t) && !is_negative(t) && !is_nan_word(b) && (is_infinity_word(b) || (
    is_decimal(b) && above_half_min(mantissa_value(b), scale(b))))
}

// ---------------------------------------------------------------------------
// Lemmas on decimal digit strings.

pub proof fn lemma_pow10_pos(n: nat)
    ensures
        pow10(n) >= 1,
    decreases n,
{
    if n > 0 {
        lemma_pow10_pos((n - 1) as nat);
    }
}

pub proof fn lemma_pow10_add(a: nat, b: nat)
    ensures
        pow10(a + b) == pow10(a) * pow10(b),
    decreases a,
{
    if a > 0 {
        lemma_pow10_add((a - 1) as nat, b);
        assert(((a - 1) as nat + b) as nat == (a + b - 1) as nat);
        assert(pow10(a + b) == 10 * pow10((a + b - 1) as nat));
        assert(pow10(a) == 10 * pow10((a - 1) as nat));
        let x = pow10((a - 1) as nat);
        let y = pow10(b);
        assert(10 * (x * y) == (10 * x) * y) by (nonlinear_arith);
        assert(pow10(a + b) == 10 * (x * y));
        assert(pow10(a) * y == (10 * x) * y);
    } else {
        assert(pow10(a) == 1);
        assert(a + b == b);
        assert(1 * pow10(b) == pow10(b));
    }
}

pub proof fn lemma_pow10_mono(a: nat, b: nat)
    requires
        a <= b,
    ensures
        pow10(a) <= pow10(b),
{
    lemma_pow10_add(a, (b - a) as nat);
    lemma_pow10_pos((b - a) as nat);
    assert(pow10(a) * pow10((b - a) as nat) >= pow10(a)) by (nonlinear_arith)
        requires
            pow10((b - a) as nat) >= 1,
    ;
}

pub proof fn lemma_digits_upper(s: Seq<char>)
    requires
        all_digits(s),
    ensures
        digits_value(s) < pow10(s.len()),
    decreases s.len(),
{
    if s.len() > 0 {
        let p = s.drop_last();
        assert(all_digits(p)) by {
            assert forall|i: int| 0 <= i < p.len() implies is_digit(#[trigger] p[i]) by {
                assert(p[i] == s[i]);
            }
        }
        lemma_digits_upper(p);
        assert(is_digit(s[s.len() - 1]));
        assert(digits_value(s) == digits_value(p) * 10 + digit_value(s.last()));
        assert(digits_value(p) * 10 + digit_value(s.last()) < pow10(p.len()) * 10) by (nonlinear_arith)
            requires
                digits_value(p) < pow10(p.len()),
                digit_value(s.last()) < 10,
        ;
    }
}

pub proof fn lemma_digits_concat(a: Seq<char>, b: Seq<char>)
    ensures
        digits_value(a + b) == digits_value(a) * pow10(b.len()) + digits_value(b),
    decreases b.len(),
{
    if b.len() == 0 {
        assert(a + b =~= a);
        assert(digits_value(b) == 0);
        assert(pow10(b.len()) == 1);
        assert(digits_value(a) * 1 == digits_value(a));
    } else {
        let bp = b.drop_last();
        lemma_digits_concat(a, bp);
        assert((a + b).drop_last() =~= a + bp);
        assert((a + b).last() == b.last());
        assert(digits_value(a + b) == digits_value(a + bp) * 10 + digit_value(b.last()));
        assert(digits_value(b) == digits_value(bp) * 10 + digit_value(b.last()));
        assert(pow10(b.len()) == 10 * pow10(bp.len()));
        let x = digits_value(a);
        let y = digits_value(bp);
        let q = pow10(bp.len());
        let d = digit_value(b.last());
        assert((x * q + y) * 10 + d == x * (10 * q) + (y * 10 + d)) by (nonlinear_arith);
        assert(digits_value(a + bp) == x * q + y);
        assert(digits_value(a + b) == (x * q + y) * 10 + d);
        assert(digits_value(a) * pow10(b.len()) + digits_value(b) == x * (10 * q) + (y * 10 + d));
    }
}

pub proof fn lemma_digits_lower(s: Seq<char>)
    requires
        all_digits(s),
        s.len() >= 1,
        s[0] != '0',
    ensures
        digits_value(s) >= pow10((s.len() - 1) as nat),
{
    let h = s.take(1);
    let r = s.skip(1);
    assert(h + r =~= s);
    lemma_digits_concat(h, r);
    assert(h.drop_last() =~= Seq::<char>::empty());
    assert(digits_value(h.drop_last()) == 0);
    assert(h.last() == s[0]);
    assert(digits_value(h) == digit_value(s[0]));
    assert(digit_value(s[0]) >= 1);
    assert(digits_value(h) * pow10(r.len()) >= pow10(r.len())) by (nonlinear_arith)
        requires
            digits_value(h) >= 1,
    ;
}

pub open spec fn zeros(n: nat) -> Seq<char> {
    Seq::new(n, |i: int| '0')
}

pub proof fn lemma_zeros_value(n: nat)
    ensures
        digits_value(zeros(n)) == 0,
    decreases n,
{
    if n > 0 {
        assert(zeros(n).drop_last() =~= zeros((n - 1) as nat));
        lemma_zeros_value((n - 1) as nat);
    }
}

/// For digit strings of one length, the first differing digit decides.
pub proof fn lemma_first_difference(a: Seq<char>, b: Seq<char>, i: int)
    requires
        a.len() == b.len(),
        all_digits(a),
        all_digits(b),
        0 <= i < a.len(),
        a.take(i) == b.take(i),
        digit_value(a[i]) > digit_value(b[i]),
    ensures
        digits_value(a) > digits_value(b),
{
    let n = a.len();
    let ra = a.skip(i + 1);
    let rb = b.skip(i + 1);
    assert(a.take(i + 1) + ra =~= a);
    assert(b.take(i + 1) + rb =~= b);
    lemma_digits_concat(a.take(i + 1), ra);
    lemma_digits_concat(b.take(i + 1), rb);
    assert(a.take(i + 1).drop_last() =~= a.take(i));
    assert(b.take(i + 1).drop_last() =~= b.take(i));
    let pa = digits_value(a.take(i));
    assert(digits_value(a.take(i + 1)) == pa * 10 + digit_value(a[i]));
    assert(digits_value(b.take(i + 1)) == pa * 10 + digit_value(b[i]));
    assert(all_digits(rb)) by {
        assert forall|k: int| 0 <= k < rb.len() implies is_digit(#[trigger] rb[k]) by {
            assert(rb[k] == b[i + 1 + k]);
        }
    }
    lemma_digits_upper(rb);
    let m = pow10(ra.len());
    assert(rb.len() == ra.len());
    assert((pa * 10 + digit_value(a[i])) * m + digits_value(ra) > (pa * 10 + digit_value(b[i])) * m
        + digits_value(rb)) by (nonlinear_arith)
        requires
            digit_value(a[i]) >= digit_value(b[i]) + 1,
            digits_value(rb) < m,
    ;
}

pub proof fn lemma_five_pow_150_digits()
    ensures
        FIVE_POW_150@.len() == 105,
        all_digits(FIVE_POW_150@),
        FIVE_POW_150@[0] == '7',
{
}

/// The threshold has 105 digits: `10^104 <= 5^150 < 10^105`.
pub proof fn lemma_threshold_bounds()
    ensures
        pow10(104) <= digits_value(FIVE_POW_150@) < pow10(105),
{
    lemma_five_pow_150_digits();
    lemma_digits_upper(FIVE_POW_150@);
    lemma_digits_lower(FIVE_POW_150@);
}

/// Whether the threshold comparison holds, decided by digit count and, for
/// equal counts, by the first differing digit.
pub proof fn lemma_decide_threshold(ds: Seq<char>, e: int)
    requires
        ds.len() >= 1,
        all_digits(ds),
        ds[0] != '0',
    ensures
        ds.len() + e + 150 > 105 ==> above_half_min(digits_value(ds), e),
        ds.len() + e + 150 < 105 ==> !above_half_min(digits_value(ds), e),
        ds.len() + e + 150 >= 105 ==> (e + 150 >= 0 ==> digits_value(ds) * pow10((e + 150) as nat)
            == digits_value(ds + zeros((e + 150) as nat))),
        e + 150 < 0 ==> digits_value(FIVE_POW_150@) * pow10((-(e + 150)) as nat) == digits_value(
            FIVE_POW_150@ + zeros((-(e + 150)) as nat),
        ),
{
    let n = ds.len();
    let d = digits_value(ds);
    let p = digits_value(FIVE_POW_150@);
    let k = e + 150;
    lemma_threshold_bounds();
    lemma_digits_lower(ds);
    lemma_digits_upper(ds);
    if k >= 0 {
        lemma_digits_concat(ds, zeros(k as nat));
        lemma_zeros_value(k as nat);
        lemma_pow10_add((n - 1) as nat, k as nat);
        lemma_pow10_add(n as nat, k as nat);
        if n + k > 105 {
            lemma_pow10_mono(105, (n - 1 + k) as nat);
            assert(d * pow10(k as nat) >= pow10((n - 1) as nat) * pow10(k as nat)) by (nonlinear_arith)
                requires
                    d >= pow10((n - 1) as nat),
            ;
        }
        if n + k < 105 {
            lemma_pow10_mono((n + k) as nat, 104);
            assert(d * pow10(k as nat) <= pow10(n as nat) * pow10(k as nat)) by (nonlinear_arith)
                requires
                    d <= pow10(n as nat),
            ;
        }
    } else {
        let m = (-k) as nat;
        lemma_digits_concat(FIVE_POW_150@, zeros(m));
        lemma_zeros_value(m);
        lemma_pow10_add(104, m);
        lemma_pow10_add(105, m);
        if n + k > 105 {
            // n > 105 + m: d >= 10^(n-1) >= 10^(105+m) > p * 10^m
            lemma_pow10_mono(105 + m, (n - 1) as nat);
            lemma_pow10_pos(m);
            assert(p * pow10(m) < pow10(105) * pow10(m)) by (nonlinear_arith)
                requires
                    p < pow10(105),
                    pow10(m) >= 1,
            ;
        }
        if n + k < 105 {
            // n <= 104 + m: d < 10^n <= 10^(104+m) <= p * 10^m
            lemma_pow10_mono(n as nat, 104 + m);
            lemma_pow10_pos(m);
            assert(pow10(104) * pow10(m) <= p * pow10(m)) by (nonlinear_arith)
                requires
                    pow10(104) <= p,
            ;
        }
    }
}

pub proof fn lemma_digit_run_digits(b: Seq<char>, i: int, k: int)
    requires
        0 <= i <= k < digit_run(b, i),
    ensures
        is_digit(b[k]),
    decreases b.len() - i,
{
    if k > i {
        lemma_digit_run_digits(b, i + 1, k);
    }
}

/// `digits_value` of a digit string is unchanged by leading zeros.
pub proof fn lemma_leading_zeros(m: Seq<char>, z: int)
    requires
        0 <= z <= m.len(),
        forall|i: int| 0 <= i < z ==> m[i] == '0',
    ensures
        digits_value(m) == digits_value(m.skip(z)),
{
    assert(m.take(z) =~= zeros(z as nat));
    assert(m.take(z) + m.skip(z) =~= m);
    lemma_digits_concat(m.take(z), m.skip(z));
    lemma_zeros_value(z as nat);
}

/// End (absolute index) of the digit run starting at absolute index `i`,
/// for the sequence that starts at `base`.
fn digit_run_from(s: &Vec<char>, base: usize, i: usize, hi: usize) -> (r: usize)
    requires
        base <= i <= hi <= s.len(),
    ensures
        i <= r <= hi,
        r - base == digit_run(s@.subrange(base as int, hi as int), i - base),
        forall|k: int| i <= k < r ==> is_digit(#[trigger] s@[k]),
        r < hi ==> !is_digit(s@[r as int]),
    decreases hi - i,
{
    let ghost b = s@.subrange(base as int, hi as int);
    if i < hi && is_digit_char(s[i]) {
        assert(b[i - base] == s@[i as int]);
        digit_run_from(s, base, i + 1, hi)
    } else {
        proof {
            if i < hi {
                assert(b[i - base] == s@[i as int]);
            }
        }
        i
    }
}

/// Whether `s[lo..hi]` spells the lowercase ASCII word `w`, ignoring case.
fn spells_word(s: &Vec<char>, lo: usize, hi: usize, w: &Vec<char>) -> (r: bool)
    requires
        lo <= hi <= s.len(),
        forall|i: int| 0 <= i < w.len() ==> 'a' <= #[trigger] w@[i] <= 'z',
    ensures
        r == spells(s@.subrange(lo as int, hi as int), w@),
{
    let ghost b = s@.subrange(lo as int, hi as int);
    if hi - lo != w.len() {
        return false;
    }
    let mut k: usize = 0;
    while k < w.len()
        invariant
            lo <= hi <= s.len(),
            hi - lo == w.len(),
            b == s@.subrange(lo as int, hi as int),
            forall|i: int| 0 <= i < w.len() ==> 'a' <= #[trigger] w@[i] <= 'z',
            k <= w.len(),
            forall|q: int| 0 <= q < k ==> ascii_lower(#[trigger] b[q]) == w@[q],
        decreases w.len() - k,
    {
        assert(b[k as int] == s@[lo + k]);
        if !eq_ignore_case(s[lo + k], w[k]) {
            return false;
        }
        k = k + 1;
    }
    true
}

/// `min(digits_value(s[lo..hi]), cap)` for a run of digits.
fn saturating_digits(s: &Vec<char>, lo: usize, hi: usize, cap: u128) -> (r: u128)
    requires
        lo <= hi <= s.len(),
        all_digits(s@.subrange(lo as int, hi as int)),
        cap <= 0x1_0000_0000_0000_0000_0000_0000,
    ensures
        r as nat == if digits_value(s@.subrange(lo as int, hi as int)) < cap {
            digits_value(s@.subrange(lo as int, hi as int))
        } else {
            cap as nat
        },
{
    let mut acc: u128 = 0;
    let mut i = lo;
    assert(s@.subrange(lo as int, lo as int) =~= Seq::<char>::empty());
    while i < hi
        invariant
            lo <= i <= hi <= s.len(),
            all_digits(s@.subrange(lo as int, hi as int)),
            cap <= 0x1_0000_0000_0000_0000_0000_0000,
            acc as nat == if digits_value(s@.subrange(lo as int, i as int)) < cap {
                digits_value(s@.subrange(lo as int, i as int))
            } else {
                cap as nat
            },
        decreases hi - i,
    {
        let ghost prev = s@.subrange(lo as int, i as int);
        let ghost next = s@.subrange(lo as int, i + 1);
        assert(next.drop_last() =~= prev);
        assert(s@.subrange(lo as int, hi as int)[i - lo] == s@[i as int]);
        let c = s[i];
        let dv = (c as u32 - '0' as u32) as u128;
        let v = acc * 10 + dv;
        acc = if v < cap {
            v
        } else {
            cap
        };
        proof {
            assert(digits_value(next) == digits_value(prev) * 10 + dv);
            if digits_value(prev) >= cap {
                assert(digits_value(prev) * 10 >= cap) by (nonlinear_arith)
                    requires
                        digits_value(prev) >= cap,
                ;
            }
        }
        i = i + 1;
    }
    acc
}

const EXP_CAP: u128 = 0x40_0000_0000_0000_0000;

/// Shape of an unsigned decimal `s[bs..hi]`: end of the integer digits,
/// whether a point follows, end of the mantissa, and the written exponent as
/// a sign and a magnitude saturated at `EXP_CAP`.
#[verifier::rlimit(60)]
#[verifier::spinoff_prover]
fn decimal_shape(s: &Vec<char>, bs: usize, hi: usize) -> (r: Option<(usize, bool, usize, bool, u128)>)
    requires
        bs <= hi <= s.len(),
    ensures
        r is Some <==> is_decimal(s@.subrange(bs as int, hi as int)),
        r matches Some((ie, point, me, en, ev)) ==> {
            let b = s@.subrange(bs as int, hi as int);
            &&& bs <= ie <= me <= hi
            &&& ie - bs == int_end(b)
            &&& point == has_point(b)
            &&& me - bs == mantissa_end(b)
            &&& (en ==> written_exponent(b) <= 0)
            &&& (!en ==> written_exponent(b) >= 0)
            &&& ev as int == if (if en { -written_exponent(b) } else { written_exponent(b) })
                < EXP_CAP as int {
                if en {
                    -written_exponent(b)
                } else {
                    written_exponent(b)
                }
            } else {
                EXP_CAP as int
            }
        },
{
    let ghost b = s@.subrange(bs as int, hi as int);
    let ie = digit_run_from(s, bs, bs, hi);
    let point = ie < hi && s[ie] == '.';
    proof {
        if ie < hi {
            assert(b[ie - bs] == s@[ie as int]);
        }
    }
    assert(point == has_point(b));
    let me = if point {
        digit_run_from(s, bs, ie + 1, hi)
    } else {
        ie
    };
    let frac_len: usize = if point {
        me - (ie + 1)
    } else {
        0
    };
    assert(int_digits(b).len() == ie - bs);
    assert(frac_digits(b).len() == frac_len);
    let mant_ok = (ie - bs) + frac_len > 0;
    let ghost x = exponent_part(b);
    assert(x =~= s@.subrange(me as int, hi as int));
    if me == hi {
        if !mant_ok {
            return None;
        }
        return Some((ie, point, me, false, 0));
    }
    assert(x[0] == s@[me as int]);
    if !(s[me] == 'e' || s[me] == 'E') {
        return None;
    }
    let ys = me + 1;
    let ghost y = x.drop_first();
    assert(y =~= s@.subrange(ys as int, hi as int));
    let en = ys < hi && s[ys] == '-';
    let ds = if ys < hi && (s[ys] == '+' || s[ys] == '-') {
        ys + 1
    } else {
        ys
    };
    proof {
        if ys < hi {
            assert(y[0] == s@[ys as int]);
        }
    }
    assert(en == is_negative(y));
    assert(exponent_digits(x) =~= s@.subrange(ds as int, hi as int));
    let de = digit_run_from(s, ds, ds, hi);
    if de == ds || de != hi {
        proof {
            if de != ds && de != hi {
                assert(s@.subrange(ds as int, hi as int)[de - ds] == s@[de as int]);
            }
        }
        return None;
    }
    if !mant_ok {
        return None;
    }
    assert(all_digits(s@.subrange(ds as int, hi as int)));
    let ev = saturating_digits(s, ds, hi, EXP_CAP);
    Some((ie, point, me, en, ev))
}

/// The mantissa digits `s[bs..ie] ++ s[ie+1..me]` (the point left out).
fn mantissa_digits(s: &Vec<char>, bs: usize, ie: usize, point: bool, me: usize) -> (m: Vec<char>)
    requires
        bs <= ie <= me <= s.len(),
        forall|k: int| bs <= k < ie ==> is_digit(#[trigger] s@[k]),
        point ==> ie < me && forall|k: int| ie + 1 <= k < me ==> is_digit(#[trigger] s@[k]),
        !point ==> ie == me,
    ensures
        m@ == s@.subrange(bs as int, ie as int) + (if point {
            s@.subrange(ie + 1, me as int)
        } else {
            Seq::empty()
        }),
        all_digits(m@),
{
    let mut m: Vec<char> = Vec::new();
    let mut k = bs;
    while k < ie
        invariant
            bs <= k <= ie <= me <= s.len(),
            m@ =~= s@.subrange(bs as int, k as int),
        decreases ie - k,
    {
        m.push(s[k]);
        k = k + 1;
    }
    if point {
        let mut k2 = ie + 1;
        while k2 < me
            invariant
                ie + 1 <= k2 <= me <= s.len(),
                bs <= ie,
                m@ =~= s@.subrange(bs as int, ie as int) + s@.subrange(ie + 1, k2 as int),
            decreases me - k2,
        {
            m.push(s[k2]);
            k2 = k2 + 1;
        }
    }
    assert(m@ =~= s@.subrange(bs as int, ie as int) + (if point {
        s@.subrange(ie + 1, me as int)
    } else {
        Seq::empty()
    }));
    assert forall|i: int| 0 <= i < m@.len() implies is_digit(#[trigger] m@[i]) by {
        if i < ie - bs {
            assert(m@[i] == s@[bs + i]);
        } else {
            assert(m@[i] == s@[ie + 1 + (i - (ie - bs))]);
        }
    }
    m
}

/// Whether `digits_value(m) * 10^e > 2^-150`, given `m` (first nonzero digit
/// at `z`) and `e = x - frac_len` with `x` known up to saturation at
/// `EXP_CAP`.
#[verifier::spinoff_prover]
fn exceeds_half_min(m: &Vec<char>, z: usize, en: bool, ev: u128, frac_len: usize, Ghost(e): Ghost<int>) -> (r: bool)
    requires
        z < m.len(),
        all_digits(m@),
        m@[z as int] != '0',
        ev <= EXP_CAP,
        ev < EXP_CAP ==> e == (if en { -(ev as int) } else { ev as int }) - frac_len,
        ev == EXP_CAP ==> (if en { e <= -(EXP_CAP as int) - frac_len } else { e >= EXP_CAP as int - frac_len }),
    ensures
        r == above_half_min(digits_value(m@.skip(z as int)), e),
{
    let ghost ds = m@.skip(z as int);
    let n = m.len() - z;
    assert(all_digits(ds)) by {
        assert forall|i: int| 0 <= i < ds.len() implies is_digit(#[trigger] ds[i]) by {
            assert(ds[i] == m@[z + i]);
        }
    }
    assert(ds[0] == m@[z as int]);
    let xv: i128 = if en {
        -(ev as i128)
    } else {
        ev as i128
    };
    let kk: i128 = xv - (frac_len as i128) + 150;
    let c: i128 = (n as i128) + kk;
    proof {
        lemma_decide_threshold(ds, e);
    }
    if c > 105 {
        return true;
    }
    if c < 105 {
        return false;
    }
    assert(n + e + 150 == 105);
    let len: usize = if kk >= 0 {
        105
    } else {
        n
    };
    let ghost za = (len - n) as nat;
    let ghost zb = (len - 105) as nat;
    let ghost a = ds + zeros(za);
    let ghost bb = FIVE_POW_150@ + zeros(zb);
    proof {
        lemma_five_pow_150_digits();
        assert(all_digits(a)) by {
            assert forall|i: int| 0 <= i < a.len() implies is_digit(#[trigger] a[i]) by {
                if i < ds.len() {
                    assert(a[i] == ds[i]);
                }
            }
        }
        assert(all_digits(bb)) by {
            assert forall|i: int| 0 <= i < bb.len() implies is_digit(#[trigger] bb[i]) by {
                if i < 105 {
                    assert(bb[i] == FIVE_POW_150@[i]);
                }
            }
        }
        // both sides of the comparison as digit strings of length `len`
        if e + 150 >= 0 {
            assert(za == e + 150);
            assert(zb == 0);
            assert(bb =~= FIVE_POW_150@);
        } else {
            assert(za == 0);
            assert(a =~= ds);
            assert(zb == -(e + 150));
        }
        assert(above_half_min(digits_value(ds), e) == (digits_value(a) > digits_value(bb)));
    }
    let mut i: usize = 0;
    while i < len
        invariant
            i <= len,
            len >= n,
            len >= 105,
            a.len() == len,
            bb.len() == len,
            a == ds + zeros(za),
            bb == FIVE_POW_150@ + zeros(zb),
            all_digits(a),
            all_digits(bb),
            m.len() == z + n,
            ds == m@.skip(z as int),
            FIVE_POW_150@.len() == 105,
            a.take(i as int) == bb.take(i as int),
            above_half_min(digits_value(ds), e) == (digits_value(a) > digits_value(bb)),
        decreases len - i,
    {
        let ai = if i < n {
            m[z + i]
        } else {
            '0'
        };
        let bi = if i < 105 {
            FIVE_POW_150[i]
        } else {
            '0'
        };
        assert(ai == a[i as int]);
        assert(bi == bb[i as int]);
        if ai != bi {
            proof {
                assert(is_digit(a[i as int]) && is_digit(bb[i as int]));
                if ai > bi {
                    assert(digit_value(a[i as int]) > digit_value(bb[i as int]));
                    lemma_first_difference(a, bb, i as int);
                } else {
                    assert(digit_value(bb[i as int]) > digit_value(a[i as int]));
                    lemma_first_difference(bb, a, i as int);
                }
            }
            return ai > bi;
        }
        assert(a.take(i + 1) =~= a.take(i as int).push(ai));
        assert(bb.take(i + 1) =~= bb.take(i as int).push(bi));
        i = i + 1;
    }
    assert(a =~= a.take(len as int));
    assert(bb =~= bb.take(len as int));
    false
}

/// Classify `s[lo..hi]` as `str::parse::<f32>` would: `None` if it is not a
/// float literal, else whether the `f32` it denotes is strictly positive.
#[verifier::spinoff_prover]
pub fn float_literal(s: &Vec<char>, lo: usize, hi: usize) -> (r: Option<bool>)
    requires
        lo <= hi <= s.len(),
    ensures
        r is Some <==> is_float_literal(s@.subrange(lo as int, hi as int)),
        r matches Some(p) ==> p == denotes_positive(s@.subrange(lo as int, hi as int)),
{
    let ghost t = s@.subrange(lo as int, hi as int);
    let neg = lo < hi && s[lo] == '-';
    let bs = if lo < hi && (s[lo] == '+' || s[lo] == '-') {
        lo + 1
    } else {
        lo
    };
    let ghost b = s@.subrange(bs as int, hi as int);
    assert(b =~= unsigned_part(t));
    assert(neg == is_negative(t));
    let inf3 = vec!['i', 'n', 'f'];
    let inf8 = vec!['i', 'n', 'f', 'i', 'n', 'i', 't', 'y'];
    let nan3 = vec!['n', 'a', 'n'];
    assert(inf3@ =~= seq!['i', 'n', 'f']);
    assert(inf8@ =~= seq!['i', 'n', 'f', 'i', 'n', 'i', 't', 'y']);
    assert(nan3@ =~= seq!['n', 'a', 'n']);
    let is_inf = spells_word(s, bs, hi, &inf3) || spells_word(s, bs, hi, &inf8);
    let is_nan = spells_word(s, bs, hi, &nan3);
    let shape = decimal_shape(s, bs, hi);
    if !(is_inf || is_nan || shape.is_some()) {
        return None;
    }
    if neg || is_nan {
        return Some(false);
    }
    if is_inf {
        return Some(true);
    }
    let (ie, point, me, en, ev) = shape.unwrap();
    let frac_len: usize = if point {
        me - (ie + 1)
    } else {
        0
    };
    proof {
        assert(int_digits(b) =~= s@.subrange(bs as int, ie as int));
        assert(frac_digits(b) =~= (if point {
            s@.subrange(ie + 1, me as int)
        } else {
            Seq::empty()
        }));
        assert forall|k: int| bs <= k < ie implies is_digit(#[trigger] s@[k]) by {
            assert(s@[k] == b[k - bs]);
            lemma_digit_run_digits(b, 0, k - bs);
        }
        if point {
            assert forall|k: int| ie + 1 <= k < me implies is_digit(#[trigger] s@[k]) by {
                assert(s@[k] == b[k - bs]);
                lemma_digit_run_digits(b, ie + 1 - bs, k - bs);
            }
        }
    }
    let m = mantissa_digits(s, bs, ie, point, me);
    assert(m@ =~= int_digits(b) + frac_digits(b));
    let mut z: usize = 0;
    while z < m.len() && m[z] == '0'
        invariant
            z <= m.len(),
            forall|i: int| 0 <= i < z ==> m@[i] == '0',
        decreases m.len() - z,
    {
        z = z + 1;
    }
    proof {
        lemma_leading_zeros(m@, z as int);
    }
    if z == m.len() {
        proof {
            assert(m@.skip(z as int).len() == 0);
            lemma_pow10_pos(0);
            let e = scale(b);
            if e + 150 < 0 {
                assert(0 <= digits_value(FIVE_POW_150@) * pow10((-(e + 150)) as nat)) by (nonlinear_arith);
            }
        }
        return Some(false);
    }
    Some(exceeds_half_min(&m, z, en, ev, frac_len, Ghost(scale(b))))
}

} // verus!
