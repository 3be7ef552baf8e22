//! IEEE 754 double-precision values held as their bit patterns.
use vstd::prelude::*;

verus! {

/// `2^n`.
pub open spec fn p2(n: nat) -> nat
    decreases n,
{
    if n == 0 {
        1
    } else {
        2 * p2((n - 1) as nat)
    }
}

pub open spec fn sign_bit(b: u64) -> nat {
    (b / 0x8000_0000_0000_0000u64) as nat
}

pub open spec fn exp_field(b: u64) -> nat {
    ((b / 0x10_0000_0000_0000u64) % 2048) as nat
}

pub open spec fn frac_field(b: u64) -> nat {
    (b % 0x10_0000_0000_0000u64) as nat
}

pub open spec fn is_nan(b: u64) -> bool {
    exp_field(b) == 2047 && frac_field(b) != 0
}

pub open spec fn is_infinite(b: u64) -> bool {
    exp_field(b) == 2047 && frac_field(b) == 0
}

pub open spec fn is_zero(b: u64) -> bool {
    exp_field(b) == 0 && frac_field(b) == 0
}

/// IEEE equality: NaN equals nothing, and the two zeros are equal.
pub open spec fn float_eq(a: u64, b: u64) -> bool {
    !is_nan(a) && !is_nan(b) && (a == b || (is_zero(a) && is_zero(b)))
}

pub const POS_INFINITY: u64 = 0x7FF0_0000_0000_0000;

pub const NEG_INFINITY: u64 = 0xFFF0_0000_0000_0000;

pub const ONE: u64 = 0x3FF0_0000_0000_0000;

/// IEEE equality of two doubles given by their bits.
pub fn float_equals(a: u64, b: u64) -> (r: bool)
    ensures
        r == float_eq(a, b),
{
    let ea = (a / 0x10_0000_0000_0000u64) % 2048;
    let fa = a % 0x10_0000_0000_0000u64;
    let eb = (b / 0x10_0000_0000_0000u64) % 2048;
    let fb = b % 0x10_0000_0000_0000u64;
    if (ea == 2047 && fa != 0) || (eb == 2047 && fb != 0) {
        false
    } else {
        a == b || (ea == 0 && fa == 0 && eb == 0 && fb == 0)
    }
}

/// Whether the double given by its bits is infinite.
pub fn float_is_infinite(a: u64) -> (r: bool)
    ensures
        r == is_infinite(a),
{
    (a / 0x10_0000_0000_0000u64) % 2048 == 2047 && a % 0x10_0000_0000_0000u64 == 0
}

/// The number of binary digits of `a`.
pub open spec fn bit_len(a: nat) -> nat
    decreases a,
{
    if a == 0 {
        0
    } else {
        1 + bit_len(a / 2)
    }
}

/// `a / 2^s`, rounded to the nearest integer, ties to even.
pub open spec fn round_shift(a: nat, s: nat) -> nat {
    let q = a / p2(s);
    let r = a % p2(s);
    if s == 0 {
        q
    } else if r > p2((s - 1) as nat) || (r == p2((s - 1) as nat) && q % 2 == 1) {
        q + 1
    } else {
        q
    }
}

/// Bits of the positive double nearest to the positive integer `a`
/// (ties to even), for `a < 2^64`.
pub open spec fn magnitude_bits(a: nat) -> int {
    let k = bit_len(a);
    if k <= 53 {
        ((k - 1) + 1023) * p2(52) + (a * p2((53 - k) as nat) - p2(52))
    } else {
        let q = round_shift(a, (k - 53) as nat);
        if q == p2(53) {
            ((k + 1023) * p2(52)) as int
        } else {
            ((k - 1) + 1023) * p2(52) + (q - p2(52))
        }
    }
}

/// Bits of the double nearest to `i` (ties to even): the result of `i as f64`.
pub open spec fn int_to_float_bits(i: i64) -> u64 {
    if i == 0 {
        0
    } else if i > 0 {
        magnitude_bits(i as nat) as u64
    } else {
        (p2(63) + magnitude_bits((-i) as nat)) as u64
    }
}

proof fn lemma_p2_facts()
    ensures
        p2(52) == 0x10_0000_0000_0000,
        p2(53) == 0x20_0000_0000_0000,
        p2(63) == 0x8000_0000_0000_0000,
        p2(64) == 0x1_0000_0000_0000_0000,
{
    reveal_with_fuel(p2, 65);
}

proof fn lemma_p2_pos(n: nat)
    ensures
        p2(n) >= 1,
    decreases n,
{
    if n > 0 {
        lemma_p2_pos((n - 1) as nat);
    }
}

proof fn lemma_p2_mono(m: nat, n: nat)
    requires
        m <= n,
    ensures
        p2(m) <= p2(n),
    decreases n,
{
    if m < n {
        lemma_p2_mono(m, (n - 1) as nat);
        lemma_p2_pos((n - 1) as nat);
    }
}

proof fn lemma_p2_add(m: nat, n: nat)
    ensures
        p2(m + n) == p2(m) * p2(n),
    decreases n,
{
    if n > 0 {
        let n1 = (n - 1) as nat;
        lemma_p2_add(m, n1);
        assert((m + n - 1) as nat == m + n1);
        assert(p2(m + n) == 2 * p2(m + n1));
        assert(p2(n) == 2 * p2(n1));
        assert(p2(m) * (2 * p2(n1)) == 2 * (p2(m) * p2(n1))) by (nonlinear_arith);
        assert(p2(m + n) == p2(m) * p2(n));
    } else {
        assert(m + n == m);
        assert(p2(0) == 1);
        assert(p2(n) == 1);
        let x = p2(m);
        assert(x * 1 == x);
    }
}

proof fn lemma_bit_len(a: nat)
    requires
        a > 0,
    ensures
        bit_len(a) >= 1,
        p2((bit_len(a) - 1) as nat) <= a < p2(bit_len(a)),
    decreases a,
{
    if a > 1 {
        let l = bit_len(a / 2);
        lemma_bit_len(a / 2);
        assert(bit_len(a) == 1 + l);
        assert(p2(l) == 2 * p2((l - 1) as nat));
        assert(p2(l + 1) == 2 * p2(l));
        assert((bit_len(a) - 1) as nat == l);
    } else {
        assert(bit_len(0) == 0);
        assert(bit_len(a) == 1);
        assert(p2(0) == 1);
        assert(p2(1) == 2);
    }
}

/// The bits of `i as f64`.
pub fn int_to_float(i: i64) -> (r: u64)
    ensures
        r == int_to_float_bits(i),
{
    if i == 0 {
        return 0;
    }
    let neg = i < 0;
    let a: u64 = if neg { ((-(i + 1)) as u64) + 1 } else { i as u64 };
    assert(a as int == if neg { -(i as int) } else { i as int });
    // bit length
    let mut k: u64 = 0;
    let mut t: u64 = a;
    assert(p2(0) == 1);
    while t > 0
        invariant
            bit_len(a as nat) == k + bit_len(t as nat),
            k <= 64,
            t as nat <= (a as nat) / p2(k as nat),
            a > 0,
        decreases t,
    {
        proof {
            lemma_p2_pos(k as nat);
            lemma_p2_facts();
            lemma_bit_len(a as nat);
            if k == 64 {
                assert(bit_len(t as nat) >= 1);
                lemma_p2_mono(64, (bit_len(a as nat) - 1) as nat);
                assert(false);
            }
        }
        t = t / 2;
        k = k + 1;
        proof {
            assert((a as nat) / p2(k as nat) == ((a as nat) / p2((k - 1) as nat)) / 2) by {
                lemma_div_twice(a as nat, p2((k - 1) as nat));
            }
        }
    }
    proof {
        lemma_bit_len(a as nat);
        lemma_p2_facts();
        if k > 64 {
            lemma_p2_mono(64, (k - 1) as nat);
        }
    }
    let mag: u64;
    if k <= 53 {
        let mut m: u64 = a;
        let mut j: u64 = k;
        assert(p2(0) == 1);
        assert((j - k) as nat == 0);
        assert(m as nat == (a as nat) * p2((j - k) as nat));
        assert(bit_len(a as nat) == k);
        while j < 53
            invariant
                k <= j <= 53,
                m as nat == (a as nat) * p2((j - k) as nat),
                (m as nat) < p2(j as nat),
                p2((j - 1) as nat) <= m as nat,
                k >= 1,
            decreases 53 - j,
        {
            proof {
                lemma_p2_mono(j as nat, 53);
                lemma_p2_facts();
                assert(p2((j + 1 - k) as nat) == 2 * p2((j - k) as nat));
                assert(2 * ((a as nat) * p2((j - k) as nat)) == (a as nat) * (2 * p2((j - k) as nat))) by (nonlinear_arith);
            }
            m = m * 2;
            j = j + 1;
        }
        proof {
            lemma_p2_facts();
        }
        mag = (k - 1 + 1023) * 0x10_0000_0000_0000u64 + (m - 0x10_0000_0000_0000u64);
        assert(mag as nat == magnitude_bits(a as nat));
    } else {
        let s = k - 53;
        let mut p: u64 = 1;
        let mut j: u64 = 0;
        while j < s
            invariant
                j <= s,
                s <= 11,
                p as nat == p2(j as nat),
            decreases s - j,
        {
            proof {
                lemma_p2_mono(j as nat, 11);
                reveal_with_fuel(p2, 12);
            }
            p = p * 2;
            j = j + 1;
        }
        proof {
            lemma_p2_pos(j as nat);
        }
        let q = a / p;
        let r = a % p;
        let h = p / 2;
        proof {
            lemma_p2_add(52, s as nat);
            lemma_p2_add(53, s as nat);
            assert(p2((k - 1) as nat) == p2(52) * p2(s as nat));
            assert(p2(k as nat) == p2(53) * p2(s as nat));
            lemma_div_bounds(a as nat, p as nat, p2(52), p2(53));
            assert(h as nat == p2((s - 1) as nat));
        }
        let rounded = if r > h || (r == h && q % 2 == 1) { q + 1 } else { q };
        assert(rounded as nat == round_shift(a as nat, s as nat));
        if rounded == 0x20_0000_0000_0000u64 {
            mag = (k + 1023) * 0x10_0000_0000_0000u64;
        } else {
            mag = (k - 1 + 1023) * 0x10_0000_0000_0000u64 + (rounded - 0x10_0000_0000_0000u64);
        }
        assert(mag as nat == magnitude_bits(a as nat));
    }
    if neg {
        0x8000_0000_0000_0000u64 + mag
    } else {
        mag
    }
}

proof fn lemma_div_twice(a: nat, p: nat)
    requires
        p > 0,
    ensures
        a / (2 * p) == (a / p) / 2,
{
    vstd::arithmetic::div_mod::lemma_div_denominator(a as int, p as int, 2);
    assert(p * 2 == 2 * p);
}

#[verifier::spinoff_prover]
proof fn lemma_div_bounds(a: nat, p: nat, lo: nat, hi: nat)
    requires
        p > 0,
        lo * p <= a < hi * p,
    ensures
        lo <= a / p < hi,
{
    vstd::arithmetic::div_mod::lemma_fundamental_div_mod(a as int, p as int);
    let q = a / p;
    let r = a % p;
    assert(0 <= r < p);
    assert(a == q * p + r) by (nonlinear_arith)
        requires a == p * q + r;
    if q < lo {
        assert(q * p + p <= lo * p) by (nonlinear_arith)
            requires q + 1 <= lo, p > 0;
    }
    if q >= hi {
        assert(q * p >= hi * p) by (nonlinear_arith)
            requires q >= hi, p > 0;
    }
}


/// The bits of a positive double nearest to a whole number from 1 to `2^63`
/// lie between those of 1 and those of `2^64`: an exponent field from 1023
/// to 1087.
proof fn lemma_magnitude_bounds(a: nat)
    requires
        1 <= a <= p2(63),
    ensures
        1023 * p2(52) <= magnitude_bits(a) < 1088 * p2(52),
{
    lemma_p2_facts();
    lemma_bit_len(a);
    let k = bit_len(a);
    if k > 64 {
        lemma_p2_mono(64, (k - 1) as nat);
        assert(false);
    }
    let pp = p2(52);
    if k <= 53 {
        let e = (53 - k) as nat;
        lemma_p2_add((k - 1) as nat, e);
        lemma_p2_add(k, e);
        assert(((k - 1) as nat + e) as nat == 52);
        assert((k + e) as nat == 53);
        let t = a * p2(e);
        let pe = p2(e);
        let lo = p2((k - 1) as nat);
        let hi = p2(k);
        lemma_p2_pos(e);
        assert(lo * pe <= t) by (nonlinear_arith)
            requires lo <= a, t == a * pe, pe >= 1;
        assert(t < hi * pe) by (nonlinear_arith)
            requires a < hi, t == a * pe, pe >= 1;
        assert(magnitude_bits(a) == ((k - 1) + 1023) * pp + (t - pp));
    } else {
        let s = (k - 53) as nat;
        lemma_p2_add(52, s);
        lemma_p2_add(53, s);
        assert((52 + s) as nat == (k - 1) as nat);
        assert((53 + s) as nat == k);
        lemma_p2_pos(s);
        lemma_div_bounds(a, p2(s), p2(52), p2(53));
        let q = round_shift(a, s);
        assert(pp <= q <= p2(53));
        if q == p2(53) {
            assert(magnitude_bits(a) == (k + 1023) * pp);
        } else {
            assert(magnitude_bits(a) == ((k - 1) + 1023) * pp + (q - pp));
        }
    }
}

/// Converting a whole number to a double keeps its sign: zero gives the
/// positive zero, and any other number a double that is neither zero nor
/// NaN, with the sign bit set exactly for negative numbers.
pub proof fn lemma_int_to_float_sign(i: i64)
    ensures
        i == 0 ==> int_to_float_bits(i) == 0,
        i != 0 ==> !is_zero(int_to_float_bits(i)) && !is_nan(int_to_float_bits(i)),
        i > 0 ==> sign_bit(int_to_float_bits(i)) == 0,
        i < 0 ==> sign_bit(int_to_float_bits(i)) == 1,
{
    lemma_p2_facts();
    let pp = p2(52);
    if i > 0 {
        lemma_magnitude_bounds(i as nat);
        let b = int_to_float_bits(i);
        assert(b as int == magnitude_bits(i as nat));
        lemma_div_bounds(b as nat, pp, 1023, 1088);
        lemma_div_bounds(b as nat, p2(63), 0, 1);
    } else if i < 0 {
        lemma_magnitude_bounds((-i) as nat);
        let b = int_to_float_bits(i);
        assert(b as int == p2(63) + magnitude_bits((-i) as nat));
        lemma_div_bounds(b as nat, pp, 3071, 3136);
        lemma_div_bounds(b as nat, p2(63), 1, 2);
        assert(exp_field(b) == (b / 0x10_0000_0000_0000u64) - 2048);
    }
}

/// The value of a double when it is a whole number of magnitude below
/// `2^53`, the range in which every whole number is exact: the significand
/// `2^52 + fraction` scaled by `2^(exponent - 1075)`, with the sign applied.
pub open spec fn whole_value(b: u64) -> Option<int> {
    let e = exp_field(b);
    let m = frac_field(b);
    if e == 0 {
        if m == 0 {
            Some(0)
        } else {
            None
        }
    } else if e < 1023 || e > 1075 {
        None
    } else {
        let sig = p2(52) + m;
        let d = p2((1075 - e) as nat);
        if sig % d == 0 {
            Some(if sign_bit(b) == 1 { -((sig / d) as int) } else { (sig / d) as int })
        } else {
            None
        }
    }
}

/// The double given by its bits as a whole number, when it is one of
/// magnitude below `2^53`.
pub fn float_whole(b: u64) -> (r: Option<i64>)
    ensures
        r matches Some(v) ==> whole_value(b) == Some(v as int),
        r is None ==> whole_value(b) is None,
{
    let e = (b / 0x10_0000_0000_0000u64) % 2048;
    let m = b % 0x10_0000_0000_0000u64;
    let neg = b / 0x8000_0000_0000_0000u64 == 1;
    if e == 0 {
        return if m == 0 {
            Some(0)
        } else {
            None
        };
    }
    if e < 1023 || e > 1075 {
        return None;
    }
    let sh = 1075 - e;
    proof {
        lemma_p2_facts();
    }
    let mut d: u64 = 1;
    let mut k: u64 = 0;
    while k < sh
        invariant
            k <= sh,
            sh <= 52,
            d == p2(k as nat),
            p2(52) == 0x10_0000_0000_0000,
        decreases sh - k,
    {
        proof {
            lemma_p2_mono((k + 1) as nat, 52);
        }
        d = d * 2;
        k = k + 1;
    }
    proof {
        lemma_p2_pos(sh as nat);
    }
    let sig = 0x10_0000_0000_0000u64 + m;
    if sig % d != 0 {
        return None;
    }
    let q = sig / d;
    assert(q <= sig) by (nonlinear_arith)
        requires
            d >= 1,
            q == sig / d,
    ;
    let v = q as i64;
    if neg {
        Some(-v)
    } else {
        Some(v)
    }
}


/// Where a double that is not NaN stands on the number line: its bits for a
/// positive sign, and minus its magnitude bits for a negative sign, so that
/// both zeros stand at 0 and the order of positions is the order of values.
pub open spec fn order_key(b: u64) -> int {
    if sign_bit(b) == 0 {
        b as int
    } else {
        -(b - 0x8000_0000_0000_0000u64)
    }
}

/// Where a double stands against zero in the IEEE order: its order key is
/// zero exactly for the two zeros, positive exactly for the positive
/// non-zero doubles, and negative exactly for the negative non-zero ones.
pub proof fn lemma_order_key_sign(x: u64)
    ensures
        order_key(x) == 0 <==> is_zero(x),
        order_key(x) > 0 <==> (sign_bit(x) == 0 && !is_zero(x)),
        order_key(x) < 0 <==> (sign_bit(x) == 1 && !is_zero(x)),
        order_key(0u64) == 0,
{
    assert(x < 0x8000_0000_0000_0000u64 ==> (((x / 0x10_0000_0000_0000u64) % 2048 == 0 && x % 0x10_0000_0000_0000u64 == 0)
        <==> x == 0)) by (bit_vector);
    assert(x >= 0x8000_0000_0000_0000u64 ==> (((x / 0x10_0000_0000_0000u64) % 2048 == 0 && x % 0x10_0000_0000_0000u64
        == 0) <==> x == 0x8000_0000_0000_0000u64)) by (bit_vector);
    assert(x < 0x8000_0000_0000_0000u64 ==> x / 0x8000_0000_0000_0000u64 == 0) by (bit_vector);
    assert(x >= 0x8000_0000_0000_0000u64 ==> x / 0x8000_0000_0000_0000u64 == 1) by (bit_vector);
}

/// IEEE `a < b`: false when either is NaN.
pub open spec fn float_lt(a: u64, b: u64) -> bool {
    !is_nan(a) && !is_nan(b) && order_key(a) < order_key(b)
}

/// IEEE `a <= b`: false when either is NaN.
pub open spec fn float_le(a: u64, b: u64) -> bool {
    !is_nan(a) && !is_nan(b) && order_key(a) <= order_key(b)
}

fn order_key_of(b: u64) -> (r: i128)
    ensures
        r == order_key(b),
{
    if b < 0x8000_0000_0000_0000u64 {
        b as i128
    } else {
        -((b - 0x8000_0000_0000_0000u64) as i128)
    }
}

fn is_nan_bits(a: u64) -> (r: bool)
    ensures
        r == is_nan(a),
{
    (a / 0x10_0000_0000_0000u64) % 2048 == 2047 && a % 0x10_0000_0000_0000u64 != 0
}

/// IEEE `a < b` of two doubles given by their bits.
pub fn float_less(a: u64, b: u64) -> (r: bool)
    ensures
        r == float_lt(a, b),
{
    !is_nan_bits(a) && !is_nan_bits(b) && order_key_of(a) < order_key_of(b)
}

/// IEEE `a <= b` of two doubles given by their bits.
pub fn float_less_eq(a: u64, b: u64) -> (r: bool)
    ensures
        r == float_le(a, b),
{
    !is_nan_bits(a) && !is_nan_bits(b) && order_key_of(a) <= order_key_of(b)
}

/// How a number is brought to a whole one.
#[derive(Clone, Copy, Debug)]
pub enum Rounding {
    /// Toward zero, as a cast does.
    TowardZero,
    /// Toward minus infinity.
    Floor,
    /// Toward plus infinity.
    Ceiling,
    /// To the nearest, halves away from zero.
    Nearest,
}

/// The rounding that, applied to the magnitude of a negative number, gives
/// the magnitude of what `mode` gives on the number.
pub open spec fn mirrored(mode: Rounding) -> Rounding {
    match mode {
        Rounding::Floor => Rounding::Ceiling,
        Rounding::Ceiling => Rounding::Floor,
        _ => mode,
    }
}

/// The significand of a finite double: `2^52 + fraction` for a normal one,
/// the fraction for a subnormal one.
pub open spec fn significand(b: u64) -> nat {
    if exp_field(b) == 0 {
        frac_field(b)
    } else {
        p2(52) + frac_field(b)
    }
}

/// The biased exponent of a finite double's lowest significand bit: its
/// magnitude is `significand * 2^(unit_exp - 1075)`.
pub open spec fn unit_exp(b: u64) -> nat {
    if exp_field(b) == 0 {
        1
    } else {
        exp_field(b)
    }
}

/// `a / 2^k` brought to a whole number by `mode`.
pub open spec fn shift_whole(a: nat, k: nat, mode: Rounding) -> nat {
    match mode {
        Rounding::Ceiling => (a + p2(k) - 1) as nat / p2(k),
        Rounding::Nearest => if k == 0 {
            a
        } else {
            (a + p2((k - 1) as nat)) / p2(k)
        },
        _ => a / p2(k),
    }
}

/// The whole number that a finite double is brought to by `mode`.
pub open spec fn whole_of(b: u64, mode: Rounding) -> int {
    let s = significand(b);
    let e = unit_exp(b);
    let neg = sign_bit(b) == 1;
    let mag = if e >= 1075 {
        s * p2((e - 1075) as nat)
    } else {
        shift_whole(s, (1075 - e) as nat, if neg { mirrored(mode) } else { mode })
    };
    if neg {
        -(mag as int)
    } else {
        mag as int
    }
}

/// `v` saturated into the range of `i64`.
pub open spec fn saturate(v: int) -> i64 {
    if v > i64::MAX {
        i64::MAX
    } else if v < i64::MIN {
        i64::MIN
    } else {
        v as i64
    }
}

/// The double given by its bits brought to a whole number by `mode` and
/// cast to `i64`, saturating; NaN gives 0, and minus infinity gives
/// `i64::MIN + 1`, the integer that stands for it.
pub open spec fn whole_int(b: u64, mode: Rounding) -> i64 {
    if is_nan(b) {
        0
    } else if is_infinite(b) {
        if sign_bit(b) == 1 {
            (i64::MIN + 1) as i64
        } else {
            i64::MAX
        }
    } else {
        saturate(whole_of(b, mode))
    }
}

/// `2^k`.
fn pow2(k: u64) -> (r: u64)
    requires
        k < 64,
    ensures
        r == p2(k as nat),
{
    proof {
        lemma_p2_facts();
    }
    let mut d: u64 = 1;
    let mut i: u64 = 0;
    while i < k
        invariant
            i <= k,
            k < 64,
            d == p2(i as nat),
            p2(63) == 0x8000_0000_0000_0000,
        decreases k - i,
    {
        proof {
            lemma_p2_mono(i as nat, 62);
        }
        d = d * 2;
        i = i + 1;
    }
    d
}

fn mirror(mode: Rounding) -> (r: Rounding)
    ensures
        r == mirrored(mode),
{
    match mode {
        Rounding::Floor => Rounding::Ceiling,
        Rounding::Ceiling => Rounding::Floor,
        _ => mode,
    }
}

/// `s / 2^k` brought to a whole number by `mode`, for a significand `s`.
fn shift_whole_of(s: u64, k: u64, mode: Rounding) -> (r: u64)
    requires
        s < p2(53),
        1 <= k,
    ensures
        r == shift_whole(s as nat, k as nat, mode),
        r <= 0x40_0000_0000_0000,
{
    proof {
        lemma_p2_facts();
        lemma_p2_pos(k as nat);
        lemma_p2_pos((k - 1) as nat);
        assert(p2(k as nat) == 2 * p2((k - 1) as nat));
    }
    if k >= 54 {
        proof {
            lemma_p2_mono(53, (k - 1) as nat);
        }
        let ghost d = p2(k as nat);
        match mode {
            Rounding::Ceiling => {
                if s == 0 {
                    proof {
                        lemma_div_bounds((d - 1) as nat, d, 0, 1);
                    }
                    0
                } else {
                    proof {
                        lemma_div_bounds((s + d - 1) as nat, d, 1, 2);
                    }
                    1
                }
            },
            Rounding::Nearest => {
                proof {
                    lemma_div_bounds((s + p2((k - 1) as nat)) as nat, d, 0, 1);
                }
                0
            },
            _ => {
                proof {
                    lemma_div_bounds(s as nat, d, 0, 1);
                }
                0
            },
        }
    } else {
        proof {
            lemma_p2_mono(k as nat, 53);
        }
        let d = pow2(k);
        assert(d / 2 == p2((k - 1) as nat));
        let x: u64 = match mode {
            Rounding::Ceiling => s + d - 1,
            Rounding::Nearest => s + d / 2,
            _ => s,
        };
        let q = x / d;
        assert(q <= x) by (nonlinear_arith)
            requires
                d >= 1,
                q == x / d,
        ;
        q
    }
}

/// The double given by its bits brought to a whole number by `mode` and
/// cast to `i64`, saturating; NaN gives 0, and minus infinity gives
/// `i64::MIN + 1`, the integer that stands for it.
pub fn float_to_whole(b: u64, mode: Rounding) -> (r: i64)
    ensures
        r == whole_int(b, mode),
{
    proof {
        lemma_p2_facts();
    }
    let e = (b / 0x10_0000_0000_0000u64) % 2048;
    let m = b % 0x10_0000_0000_0000u64;
    let neg = b >= 0x8000_0000_0000_0000u64;
    assert(neg == (sign_bit(b) == 1));
    if e == 2047 {
        if m != 0 {
            return 0;
        }
        return if neg {
            i64::MIN + 1
        } else {
            i64::MAX
        };
    }
    let s: u64 = if e == 0 {
        m
    } else {
        0x10_0000_0000_0000u64 + m
    };
    let ue: u64 = if e == 0 {
        1
    } else {
        e
    };
    assert(s as nat == significand(b));
    assert(ue as nat == unit_exp(b));
    if ue >= 1075 {
        let sh = ue - 1075;
        if sh >= 11 {
            proof {
                lemma_p2_mono(11, sh as nat);
                lemma_p2_add(52, 11);
                let ps = p2(sh as nat);
                let p11 = p2(11);
                assert(s * ps >= p2(52) * p11) by (nonlinear_arith)
                    requires
                        s >= p2(52),
                        ps >= p11,
                        p11 >= 0,
                ;
            }
            return if neg {
                i64::MIN
            } else {
                i64::MAX
            };
        }
        proof {
            lemma_p2_mono(sh as nat, 10);
            lemma_p2_add(53, 10);
            lemma_p2_pos(sh as nat);
        }
        let d = pow2(sh);
        proof {
            let p10 = p2(10);
            assert(s * d < p2(53) * p10) by (nonlinear_arith)
                requires
                    s < p2(53),
                    1 <= d <= p10,
            ;
        }
        let mag = s * d;
        if neg {
            -(mag as i64)
        } else {
            mag as i64
        }
    } else {
        let k = 1075 - ue;
        let mm = if neg {
            mirror(mode)
        } else {
            mode
        };
        let mag = shift_whole_of(s, k, mm);
        if neg {
            -(mag as i64)
        } else {
            mag as i64
        }
    }
}

} // verus!
