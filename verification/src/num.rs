//! Numbers: unsigned and negative integers, and floats carried as their IEEE-754
//! bit pattern together with their decimal text.
use vstd::prelude::*;
use vstd::arithmetic::power2::{
    pow2, lemma2_to64, lemma_pow2_adds, lemma_pow2_strictly_increases, lemma_pow2_pos,
};
use vstd::arithmetic::div_mod::{lemma_basic_div, lemma_fundamental_div_mod, lemma_small_mod};
use vstd::bits::{lemma_u64_shr_is_div, lemma_u64_shl_is_mul};
use crate::text::int_text;
use crate::write::{null_text, WriteJson, Writer};

verus! {

/// The largest magnitude up to which an integral float is held as an integer.
pub const MAX_FLOAT_I: u64 = 9007199254740990;

/// Two to the power 52: the weight of a float's hidden bit.
pub const HIDDEN_BIT: u64 = 0x10_0000_0000_0000;

/// The sign bit of a float is set.
pub open spec fn float_negative(bits: u64) -> bool {
    bits >= 0x8000_0000_0000_0000
}

/// The biased exponent field of a float.
pub open spec fn float_exponent(bits: u64) -> nat {
    ((bits / HIDDEN_BIT) % 0x800) as nat
}

/// The fraction field of a float.
pub open spec fn float_fraction(bits: u64) -> nat {
    (bits % HIDDEN_BIT) as nat
}

/// Not a number.
pub open spec fn is_nan(bits: u64) -> bool {
    float_exponent(bits) == 0x7ff && float_fraction(bits) != 0
}

/// Positive or negative infinity.
pub open spec fn is_infinite(bits: u64) -> bool {
    float_exponent(bits) == 0x7ff && float_fraction(bits) == 0
}

/// Neither infinite nor not a number.
pub open spec fn is_finite(bits: u64) -> bool {
    float_exponent(bits) != 0x7ff
}

/// The significand of a finite float: its magnitude is the significand times two
/// to the power `float_scale`.
pub open spec fn float_significand(bits: u64) -> nat {
    if float_exponent(bits) == 0 {
        float_fraction(bits)
    } else {
        HIDDEN_BIT as nat + float_fraction(bits)
    }
}

/// The power of two by which the significand of a finite float is scaled.
pub open spec fn float_scale(bits: u64) -> int {
    if float_exponent(bits) == 0 {
        -1074
    } else {
        float_exponent(bits) - 1075
    }
}

/// A magnitude with the sign of the float.
pub open spec fn float_signed(bits: u64, magnitude: int) -> int {
    if float_negative(bits) {
        -magnitude
    } else {
        magnitude
    }
}

/// The integer that a float equals, if it is finite and has no fractional part.
pub open spec fn float_int(bits: u64) -> Option<int> {
    let m = float_significand(bits);
    let s = float_scale(bits);
    if !is_finite(bits) {
        None
    } else if s >= 0 {
        Some(float_signed(bits, (m * pow2(s as nat)) as int))
    } else if m % pow2((-s) as nat) == 0 {
        Some(float_signed(bits, m as int / pow2((-s) as nat) as int))
    } else {
        None
    }
}

/// The integer that a float equals, if it has one of magnitude up to `MAX_FLOAT_I`:
/// such a float is held as an integer.
pub open spec fn sane_int(bits: u64) -> Option<int> {
    match float_int(bits) {
        Some(n) => if -(MAX_FLOAT_I as int) <= n <= MAX_FLOAT_I as int {
            Some(n)
        } else {
            None
        },
        None => None,
    }
}

/// Equality of two floats as numbers: no float equals one that is not a number, and
/// the two zeros are equal.
pub open spec fn float_eq(a: u64, b: u64) -> bool {
    &&& !is_nan(a)
    &&& !is_nan(b)
    &&& (a == b || (a % 0x8000_0000_0000_0000 == 0 && b % 0x8000_0000_0000_0000 == 0))
}

/// The integer part of a finite float: its value without what follows the point.
pub open spec fn float_trunc(bits: u64) -> int {
    let m = float_significand(bits);
    let s = float_scale(bits);
    float_signed(
        bits,
        if s >= 0 {
            (m * pow2(s as nat)) as int
        } else {
            m as int / pow2((-s) as nat) as int
        },
    )
}

/// The integer from `lo` to `hi` that is nearest to the integer part of a float: zero
/// for what is not a number, a bound for an infinity and for what lies beyond it.
pub open spec fn float_to_int(bits: u64, lo: int, hi: int) -> int {
    if is_nan(bits) {
        0
    } else if is_infinite(bits) {
        if float_negative(bits) {
            lo
        } else {
            hi
        }
    } else if float_trunc(bits) < lo {
        lo
    } else if float_trunc(bits) > hi {
        hi
    } else {
        float_trunc(bits)
    }
}

/// Two to the power `s`, for a small `s`.
fn small_pow2(s: u64) -> (p: u128)
    requires
        s <= 74,
    ensures
        p == pow2(s as nat),
        p <= 0x400_0000_0000_0000_0000,
{
    proof {
        lemma2_to64();
        vstd::arithmetic::power2::lemma2_to64_rest();
    }
    if s <= 63 {
        proof {
            if s < 63 {
                lemma_pow2_strictly_increases(s as nat, 63);
            }
            lemma_u64_shl_is_mul(1, s);
        }
        (1u64 << s) as u128
    } else {
        let t: u64 = s - 63;
        proof {
            if t < 11 {
                lemma_pow2_strictly_increases(t as nat, 11);
            }
            lemma_u64_shl_is_mul(1, t);
            lemma_pow2_adds(63, t as nat);
            assert(pow2(63) * pow2(t as nat) <= 0x8000_0000_0000_0000 * 0x800 == 0x400_0000_0000_0000_0000) by (nonlinear_arith)
                requires
                    pow2(63) == 0x8000_0000_0000_0000,
                    pow2(t as nat) <= 0x800,
            ;
        }
        0x8000_0000_0000_0000u128 * ((1u64 << t) as u128)
    }
}

/// The integer part of a float, kept within the range of `i128`.
pub fn trunc_i128(bits: u64) -> (r: i128)
    ensures
        r == float_to_int(bits, i128::MIN as int, i128::MAX as int),
{
    let e: u64 = (bits / HIDDEN_BIT) % 0x800;
    let frac: u64 = bits % HIDDEN_BIT;
    let neg: bool = bits >= 0x8000_0000_0000_0000;
    proof {
        lemma2_to64();
        lemma2_to64_rest_52();
    }
    if e == 0x7ff {
        return if frac != 0 {
            0
        } else if neg {
            i128::MIN
        } else {
            i128::MAX
        };
    }
    if e == 0 {
        proof {
            lemma_pow2_strictly_increases(52, 1074);
            lemma_basic_div(frac as int, pow2(1074) as int);
        }
        return 0;
    }
    let m: u64 = HIDDEN_BIT + frac;
    if e >= 1075 {
        let s: u64 = e - 1075;
        if s >= 75 {
            proof {
                if s > 75 {
                    lemma_pow2_strictly_increases(75, s as nat);
                }
                lemma_pow2_adds(64, 11);
                assert(pow2(75) == 0x800_0000_0000_0000_0000);
                assert(m * pow2(s as nat) >= 0x10_0000_0000_0000 * 0x800_0000_0000_0000_0000)
                    by (nonlinear_arith)
                    requires
                        m >= 0x10_0000_0000_0000,
                        pow2(s as nat) >= 0x800_0000_0000_0000_0000,
                ;
            }
            return if neg {
                i128::MIN
            } else {
                i128::MAX
            };
        }
        let p = small_pow2(s);
        proof {
            assert(m * p <= 0x20_0000_0000_0000 * 0x400_0000_0000_0000_0000
                == 0x8000_0000_0000_0000_0000_0000_0000_0000) by (nonlinear_arith)
                requires
                    m < 0x20_0000_0000_0000,
                    p <= 0x400_0000_0000_0000_0000,
            ;
            lemma_pow2_pos(s as nat);
            assert(m * p < 0x8000_0000_0000_0000_0000_0000_0000_0000) by (nonlinear_arith)
                requires
                    m <= 0x20_0000_0000_0000 - 1,
                    0 < p <= 0x400_0000_0000_0000_0000,
            ;
        }
        let v: u128 = (m as u128) * p;
        return if neg {
            -(v as i128)
        } else {
            v as i128
        };
    }
    let k: u64 = 1075 - e;
    if k >= 64 {
        proof {
            lemma_pow2_strictly_increases(53, k as nat);
            lemma_basic_div(m as int, pow2(k as nat) as int);
        }
        return 0;
    }
    proof {
        lemma_u64_shr_is_div(m, k);
    }
    let q: u64 = m >> k;
    if neg {
        -(q as i128)
    } else {
        q as i128
    }
}

/// The position of the highest bit that is set in a number above zero.
pub open spec fn top_bit(m: nat) -> nat
    decreases m,
{
    if m <= 1 {
        0
    } else {
        1 + top_bit(m / 2)
    }
}

/// The float that equals the integer, if there is one: zero for zero, else the sign,
/// the exponent of the highest bit, and the bits below it as the fraction, which
/// must fit in 52 bits.
pub open spec fn int_float(n: int) -> Option<u64> {
    let m = (if n < 0 {
        -n
    } else {
        n
    }) as nat;
    let p = top_bit(m);
    let sign = if n < 0 {
        0x8000_0000_0000_0000nat
    } else {
        0nat
    };
    if n == 0 {
        Some(0u64)
    } else if p <= 52 {
        Some((sign + (1023 + p) * HIDDEN_BIT + (m * pow2((52 - p) as nat) - HIDDEN_BIT)) as u64)
    } else if m % pow2((p - 52) as nat) == 0 {
        Some((sign + (1023 + p) * HIDDEN_BIT + (m / pow2((p - 52) as nat) - HIDDEN_BIT)) as u64)
    } else {
        None
    }
}

/// A number above zero lies between the power of two of its highest bit and the
/// next one.
pub proof fn lemma_top_bit(m: nat)
    requires
        m >= 1,
    ensures
        pow2(top_bit(m)) <= m < pow2(top_bit(m) + 1),
    decreases m,
{
    lemma2_to64();
    if m > 1 {
        lemma_top_bit(m / 2);
        let p = top_bit(m / 2);
        vstd::arithmetic::power2::lemma_pow2_unfold(p + 1);
        vstd::arithmetic::power2::lemma_pow2_unfold(p + 2);
    }
}

/// The highest bit of a number above zero that fits in 64 bits.
fn highest_bit(m: u64) -> (p: u64)
    requires
        m >= 1,
    ensures
        p == top_bit(m as nat),
        p <= 63,
        pow2(p as nat) <= m,
        p < 63 ==> m < pow2(p as nat + 1),
{
    let mut t: u64 = m;
    let mut p: u64 = 0;
    proof {
        lemma2_to64();
    }
    while t > 1
        invariant
            t >= 1,
            p <= 63,
            top_bit(m as nat) == p + top_bit(t as nat),
            t as nat * pow2(p as nat) <= m,
            p > 0 ==> t < pow2((64 - p) as nat),
        decreases t,
    {
        proof {
            lemma2_to64();
            vstd::arithmetic::power2::lemma2_to64_rest();
            vstd::arithmetic::power2::lemma_pow2_unfold(p as nat + 1);
            if p > 0 {
                vstd::arithmetic::power2::lemma_pow2_unfold((64 - p) as nat);
            } else {
                assert(pow2(63) == 0x8000_0000_0000_0000);
            }
            assert((t / 2) as nat * (2 * pow2(p as nat)) <= t as nat * pow2(p as nat)) by (nonlinear_arith)
                requires
                    (t / 2) * 2 <= t,
            ;
            if p >= 63 {
                assert(pow2(1) == 2);
                assert(false);
            }
        }
        t = t / 2;
        p = p + 1;
    }
    proof {
        lemma_top_bit(m as nat);
        assert(t == 1);
        assert(1 * pow2(p as nat) == pow2(p as nat)) by (nonlinear_arith);
    }
    p
}

/// The float that equals the magnitude `m`, with the sign of `neg`, if there is one.
fn float_of_magnitude(m: u64, neg: bool) -> (r: Option<u64>)
    requires
        m >= 1,
    ensures
        r == int_float(if neg {
            -(m as int)
        } else {
            m as int
        }),
{
    let p = highest_bit(m);
    let sign: u64 = if neg {
        0x8000_0000_0000_0000
    } else {
        0
    };
    proof {
        lemma2_to64();
        lemma2_to64_rest_52();
    }
    if p <= 52 {
        let k: u64 = 52 - p;
        proof {
            lemma_pow2_adds(p as nat + 1, k as nat);
            assert(pow2(p as nat + 1 + k as nat) == pow2(53));
            assert(m * pow2(k as nat) < pow2(p as nat + 1) * pow2(k as nat)) by (nonlinear_arith)
                requires
                    m < pow2(p as nat + 1),
                    pow2(k as nat) > 0,
            {
                lemma_pow2_pos(k as nat);
            }
            lemma_pow2_pos(k as nat);
            lemma_pow2_adds(p as nat, k as nat);
            assert(m * pow2(k as nat) >= pow2(p as nat) * pow2(k as nat)) by (nonlinear_arith)
                requires
                    m >= pow2(p as nat),
                    pow2(k as nat) > 0,
            ;
            lemma_u64_shl_is_mul(m, k);
        }
        let mant: u64 = m << k;
        Some(sign + (1023 + p) * HIDDEN_BIT + (mant - HIDDEN_BIT))
    } else {
        let k: u64 = p - 52;
        proof {
            let unit = pow2(k as nat) as int;
            let quot = (m as int) / unit;
            let rem = (m as int) % unit;
            lemma_u64_shr_is_div(m, k);
            lemma_pow2_strictly_increases(k as nat, 12);
            lemma_pow2_pos(k as nat);
            assert(1 * pow2(k as nat) <= u64::MAX);
            lemma_u64_shl_is_mul(1, k);
            lemma_fundamental_div_mod(m as int, unit);
            lemma_pow2_adds(52, k as nat);
            assert(pow2(p as nat) == pow2(52) * pow2(k as nat));
            assert(quot >= pow2(52)) by (nonlinear_arith)
                requires
                    m >= pow2(52) * unit,
                    unit > 0,
                    m == unit * quot + rem,
                    0 <= rem < unit,
            ;
            if p < 63 {
                lemma_pow2_adds(53, k as nat);
                assert(pow2(p as nat + 1) == pow2(53) * pow2(k as nat));
                assert(quot < pow2(53)) by (nonlinear_arith)
                    requires
                        m < pow2(53) * unit,
                        unit > 0,
                        m == unit * quot + rem,
                        0 <= rem,
                ;
            } else {
                assert(k == 11);
                assert(quot < pow2(53)) by (nonlinear_arith)
                    requires
                        m <= 0xffff_ffff_ffff_ffff,
                        unit == 0x800,
                        pow2(53) == 0x20_0000_0000_0000,
                        m == unit * quot + rem,
                        0 <= rem,
                ;
            }
            assert(quot * unit <= m) by (nonlinear_arith)
                requires
                    m == unit * quot + rem,
                    0 <= rem,
            ;
        }
        let q: u64 = m >> k;
        let unit: u64 = 1u64 << k;
        if q * unit != m {
            return None;
        }
        Some(sign + (1023 + p) * HIDDEN_BIT + (q - HIDDEN_BIT))
    }
}

/// The integer of magnitude up to `MAX_FLOAT_I` that the float equals, if any.
pub fn small_int(bits: u64) -> (r: Option<i64>)
    ensures
        match r {
            Some(n) => sane_int(bits) == Some(n as int),
            None => sane_int(bits) is None,
        },
{
    let e: u64 = (bits / HIDDEN_BIT) % 0x800;
    let frac: u64 = bits % HIDDEN_BIT;
    let neg: bool = bits >= 0x8000_0000_0000_0000;
    proof {
        lemma2_to64();
        lemma2_to64_rest_52();
    }
    if e == 0x7ff {
        return None;
    }
    if e == 0 {
        if frac == 0 {
            proof {
                lemma_pow2_pos(1074);
                assert(0nat % pow2(1074) == 0) by {
                    lemma_small_mod(0, pow2(1074));
                }
                assert(0int / (pow2(1074) as int) == 0) by {
                    vstd::arithmetic::div_mod::lemma_basic_div(0, pow2(1074) as int);
                }
            }
            return Some(0);
        } else {
            proof {
                lemma_pow2_strictly_increases(52, 1074);
                lemma_small_mod(frac as nat, pow2(1074));
            }
            return None;
        }
    }
    let m: u64 = HIDDEN_BIT + frac;
    if e > 1075 {
        proof {
            let s = (e - 1075) as nat;
            lemma_pow2_strictly_increases(0, s);
            assert(m * pow2(s) >= 0x10_0000_0000_0000 * 2) by (nonlinear_arith)
                requires
                    m >= 0x10_0000_0000_0000,
                    pow2(s) >= 2,
            ;
        }
        return None;
    }
    if e == 1075 {
        proof {
            assert(m * pow2(0) == m);
        }
        if m <= MAX_FLOAT_I {
            return Some(if neg { -(m as i64) } else { m as i64 });
        } else {
            return None;
        }
    }
    let k: u64 = 1075 - e;
    if k > 52 {
        proof {
            if k > 53 {
                lemma_pow2_strictly_increases(53, k as nat);
            }
            lemma_small_mod(m as nat, pow2(k as nat));
        }
        return None;
    }
    let q: u64 = m >> k;
    let p: u64 = 1u64 << k;
    proof {
        if k < 52 {
            lemma_pow2_strictly_increases(k as nat, 52);
        }
        lemma_u64_shr_is_div(m, k);
        assert(1 * pow2(k as nat) <= u64::MAX);
        lemma_u64_shl_is_mul(1, k);
        lemma_pow2_pos(k as nat);
        lemma_pow2_strictly_increases(0, k as nat);
        lemma_fundamental_div_mod(m as int, p as int);
        assert(q == m as int / p as int);
        assert(q * p <= m) by (nonlinear_arith)
            requires
                m == p * (m as int / p as int) + (m as int % p as int),
                q == m as int / p as int,
                0 <= m as int % p as int,
        ;
        assert(q < 0x10_0000_0000_0000) by (nonlinear_arith)
            requires
                q * p <= m,
                p >= 2,
                m < 0x20_0000_0000_0000,
                q >= 0,
        ;
    }
    if q * p != m {
        return None;
    }
    Some(if neg { -(q as i64) } else { q as i64 })
}

/// A float: its IEEE-754 double-precision bit pattern, and the decimal text that
/// stands for it in JSON output. Both come from whoever made it; nothing here
/// converts between them.
#[derive(Debug)]
pub struct Float {
    bits: u64,
    text: String,
}

/// What a float is in contracts.
pub struct FloatView {
    pub bits: u64,
    pub text: Seq<char>,
}

impl View for Float {
    type V = FloatView;

    closed spec fn view(&self) -> FloatView {
        FloatView { bits: self.bits, text: self.text@ }
    }
}

impl Clone for Float {
    fn clone(&self) -> (r: Float)
        ensures
            r@ == self@,
    {
        Float { bits: self.bits, text: self.text.clone() }
    }
}

impl Float {
    /// A float from its bit pattern and its decimal text.
    pub fn new(bits: u64, text: String) -> (f: Float)
        ensures
            f@ == (FloatView { bits, text: text@ }),
    {
        Float { bits, text }
    }

    /// The bit pattern.
    pub fn bits(&self) -> (b: u64)
        ensures
            b == self@.bits,
    {
        self.bits
    }

    /// The decimal text.
    pub fn text(&self) -> (t: &str)
        ensures
            t@ == self@.text,
    {
        self.text.as_str()
    }

    /// Whether the float is not a number.
    pub fn is_nan(&self) -> (b: bool)
        ensures
            b == is_nan(self@.bits),
    {
        (self.bits / HIDDEN_BIT) % 0x800 == 0x7ff && self.bits % HIDDEN_BIT != 0
    }

    /// Whether the float is an infinity.
    pub fn is_infinite(&self) -> (b: bool)
        ensures
            b == is_infinite(self@.bits),
    {
        (self.bits / HIDDEN_BIT) % 0x800 == 0x7ff && self.bits % HIDDEN_BIT == 0
    }

    /// Whether the float is below zero.
    pub fn is_negative(&self) -> (b: bool)
        ensures
            b == float_negative(self@.bits),
    {
        self.bits >= 0x8000_0000_0000_0000
    }
}

/// Whether two bit patterns are equal as numbers.
pub fn bits_eq(a: u64, b: u64) -> (r: bool)
    ensures
        r == float_eq(a, b),
{
    let a_nan = (a / HIDDEN_BIT) % 0x800 == 0x7ff && a % HIDDEN_BIT != 0;
    let b_nan = (b / HIDDEN_BIT) % 0x800 == 0x7ff && b % HIDDEN_BIT != 0;
    !a_nan && !b_nan && (a == b || (a % 0x8000_0000_0000_0000 == 0 && b % 0x8000_0000_0000_0000
        == 0))
}

/// What a number is in contracts: an integer, or a float that is held as such.
pub enum NumView {
    Int(int),
    Float(FloatView),
}

/// Whether two numbers are equal. Integers are equal when they are the same integer,
/// floats when they are equal as numbers; an integer equals a float when the float
/// has that integer as its value and its magnitude is at most `MAX_FLOAT_I`.
pub open spec fn num_eq(a: NumView, b: NumView) -> bool {
    match (a, b) {
        (NumView::Int(x), NumView::Int(y)) => x == y,
        (NumView::Float(f), NumView::Float(g)) => float_eq(f.bits, g.bits),
        (NumView::Int(x), NumView::Float(f)) => sane_int(f.bits) == Some(x),
        (NumView::Float(f), NumView::Int(x)) => sane_int(f.bits) == Some(x),
    }
}

/// A number as it is held: a float only if it has no integer to stand for it, an
/// integer within the range of `i64` and `u64`.
pub open spec fn num_wf(n: NumView) -> bool {
    match n {
        NumView::Int(x) => i64::MIN <= x <= u64::MAX,
        NumView::Float(f) => sane_int(f.bits) is None,
    }
}

#[derive(Debug)]
enum N {
    F(Float),
    // only negative
    I(i64),
    U(u64),
}

/// A JSON number: a non-negative integer, a negative integer, or a float.
#[derive(Debug)]
pub struct Num(N);

impl View for Num {
    type V = NumView;

    closed spec fn view(&self) -> NumView {
        match self.0 {
            N::F(f) => NumView::Float(f@),
            N::I(i) => NumView::Int(i as int),
            N::U(u) => NumView::Int(u as int),
        }
    }
}

impl Clone for Num {
    fn clone(&self) -> (r: Num)
        ensures
            r@ == self@,
    {
        proof {
            use_type_invariant(self);
        }
        match &self.0 {
            N::F(f) => Num(N::F(f.clone())),
            N::I(i) => Num(N::I(*i)),
            N::U(u) => Num(N::U(*u)),
        }
    }
}

impl Num {
    #[verifier::type_invariant]
    spec fn inv(&self) -> bool {
        match self.0 {
            N::F(f) => sane_int(f@.bits) is None,
            N::I(i) => i < 0,
            N::U(_) => true,
        }
    }

    /// The number of an unsigned integer.
    pub fn from_u64(v: u64) -> (n: Num)
        ensures
            n == int_num(v as int),
            n@ == NumView::Int(v as int),
            num_wf(n@),
    {
        Num(N::U(v))
    }

    /// The number of a signed integer.
    pub fn from_i64(v: i64) -> (n: Num)
        ensures
            n == int_num(v as int),
            n@ == NumView::Int(v as int),
            num_wf(n@),
    {
        if v < 0 {
            Num(N::I(v))
        } else {
            Num(N::U(v as u64))
        }
    }

    /// The number of a float: the integer that it equals, if it has one of magnitude
    /// up to `MAX_FLOAT_I`, else the float itself.
    pub fn from_f64(v: Float) -> (n: Num)
        ensures
            n@ == (match sane_int(v@.bits) {
                Some(i) => NumView::Int(i),
                None => NumView::Float(v@),
            }),
            n == float_num(v),
            num_wf(n@),
    {
        match small_int(v.bits) {
            Some(i) => Num::from_i64(i),
            None => Num(N::F(v)),
        }
    }

    /// The integer as a `u64`, if the number is one that fits.
    pub fn as_u64(&self) -> (r: Option<u64>)
        ensures
            r == (match self@ {
                NumView::Int(x) => if x >= 0 {
                    Some(x as u64)
                } else {
                    None
                },
                NumView::Float(_) => None,
            }),
    {
        proof {
            use_type_invariant(self);
        }
        match &self.0 {
            N::F(_) => None,
            N::I(_) => None,
            N::U(u) => Some(*u),
        }
    }

    /// The integer as an `i64`, if the number is one below `i64::MAX`.
    pub fn as_i64(&self) -> (r: Option<i64>)
        ensures
            r == (match self@ {
                NumView::Int(x) => if x < i64::MAX {
                    Some(x as i64)
                } else {
                    None
                },
                NumView::Float(_) => None,
            }),
    {
        proof {
            use_type_invariant(self);
        }
        match &self.0 {
            N::F(_) => None,
            N::I(i) => Some(*i),
            N::U(u) => if *u < 0x7fff_ffff_ffff_ffff {
                Some(*u as i64)
            } else {
                None
            },
        }
    }

    /// The number as the bit pattern of a float: the float that is held, or the float
    /// that equals the integer, if there is one. The largest `u64`, which has none,
    /// gives two to the power 64, the float that it is rounded to.
    pub fn as_f64(&self) -> (r: Option<u64>)
        ensures
            r == (match self@ {
                NumView::Float(f) => Some(f.bits),
                NumView::Int(x) => if x == u64::MAX {
                    Some(0x43F0_0000_0000_0000u64)
                } else {
                    int_float(x)
                },
            }),
    {
        proof {
            use_type_invariant(self);
        }
        match &self.0 {
            N::F(f) => Some(f.bits),
            N::I(i) => {
                let m: u64 = if *i == i64::MIN {
                    0x8000_0000_0000_0000
                } else {
                    (-*i) as u64
                };
                float_of_magnitude(m, true)
            },
            N::U(u) => {
                if *u == 0 {
                    Some(0)
                } else if *u == 0xffff_ffff_ffff_ffff {
                    Some(0x43F0_0000_0000_0000)
                } else {
                    float_of_magnitude(*u, false)
                }
            },
        }
    }

    /// The number as an integer: a float gives its integer part, kept within the
    /// range of `i128`.
    pub fn as_int(&self) -> (r: i128)
        ensures
            r == (match self@ {
                NumView::Int(x) => x,
                NumView::Float(f) => float_to_int(f.bits, i128::MIN as int, i128::MAX as int),
            }),
    {
        match &self.0 {
            N::F(f) => trunc_i128(f.bits),
            N::I(i) => *i as i128,
            N::U(u) => *u as i128,
        }
    }

    /// The float, if the number is held as one.
    pub fn get_float(&self) -> (r: Option<&Float>)
        ensures
            match self@ {
                NumView::Int(_) => r is None,
                NumView::Float(f) => r is Some && r->0@ == f,
            },
    {
        match &self.0 {
            N::F(f) => Some(f),
            _ => None,
        }
    }

    /// The integer, if the number is held as one.
    pub fn get_int(&self) -> (r: Option<i128>)
        ensures
            r == (match self@ {
                NumView::Int(x) => Some(x as i128),
                NumView::Float(_) => None,
            }),
    {
        match &self.0 {
            N::F(_) => None,
            N::I(i) => Some(*i as i128),
            N::U(u) => Some(*u as i128),
        }
    }
}

impl PartialEq for Num {
    fn eq(&self, o: &Self) -> (r: bool) {
        proof {
            use_type_invariant(self);
            use_type_invariant(o);
        }
        match (&self.0, &o.0) {
            (N::F(a), N::F(b)) => bits_eq(a.bits, b.bits),
            (N::I(a), N::I(b)) => *a == *b,
            (N::U(a), N::U(b)) => *a == *b,
            (N::I(_), N::U(_)) => false,
            (N::U(_), N::I(_)) => false,
            (N::F(f), N::I(i)) => small_int(f.bits) == Some(*i),
            (N::I(i), N::F(f)) => small_int(f.bits) == Some(*i),
            (N::F(f), N::U(u)) => match small_int(f.bits) {
                Some(i) => i >= 0 && i as u64 == *u,
                None => false,
            },
            (N::U(u), N::F(f)) => match small_int(f.bits) {
                Some(i) => i >= 0 && i as u64 == *u,
                None => false,
            },
        }
    }
}

impl vstd::std_specs::cmp::PartialEqSpecImpl for Num {
    open spec fn obeys_eq_spec() -> bool {
        true
    }

    open spec fn eq_spec(&self, other: &Num) -> bool {
        num_eq(self@, other@)
    }
}

/// The decimal text of the largest finite float, which stands for an infinity.
pub open spec fn max_float_text() -> Seq<char> {
    "179769313486231570000000000000000000000000000000000000000000000000000000000000000000000000000000000000000000000000000000000000000000000000000000000000000000000000000000000000000000000000000000000000000000000000000000000000000000000000000000000000000000000000000000000000000000000000000000000000000000000000000"@
}

/// The text of a float in JSON: `null` for one that is not a number, the largest
/// finite float with the sign for an infinity, else the float's own text.
pub open spec fn float_json(f: FloatView) -> Seq<char> {
    if is_nan(f.bits) {
        null_text()
    } else if is_infinite(f.bits) {
        if float_negative(f.bits) {
            seq!['-'] + max_float_text()
        } else {
            max_float_text()
        }
    } else {
        f.text
    }
}

/// The text of a number in JSON.
pub open spec fn num_json(n: NumView) -> Seq<char> {
    match n {
        NumView::Int(x) => int_text(x),
        NumView::Float(f) => float_json(f),
    }
}

impl WriteJson for Float {
    /// A float that is not a number is left out of the scope it is put into.
    open spec fn included(&self) -> bool {
        !is_nan(self@.bits)
    }

    open spec fn json(&self, depth: nat, pretty: bool) -> Seq<char> {
        float_json(self@)
    }

    fn write_json(&self, dest: &mut Writer) {
        if self.is_nan() {
            dest.put_null();
        } else if self.is_infinite() {
            if self.is_negative() {
                dest.put_char('-');
                dest.put_raw("179769313486231570000000000000000000000000000000000000000000000000000000000000000000000000000000000000000000000000000000000000000000000000000000000000000000000000000000000000000000000000000000000000000000000000000000000000000000000000000000000000000000000000000000000000000000000000000000000000000000000000000");
                proof {
                    assert(dest.text() =~= old(dest).text() + (seq!['-'] + max_float_text()));
                }
            } else {
                dest.put_raw("179769313486231570000000000000000000000000000000000000000000000000000000000000000000000000000000000000000000000000000000000000000000000000000000000000000000000000000000000000000000000000000000000000000000000000000000000000000000000000000000000000000000000000000000000000000000000000000000000000000000000000000");
            }
        } else {
            dest.put_raw(self.text.as_str());
        }
    }

    fn should_include(&self) -> (b: bool) {
        !self.is_nan()
    }
}

impl WriteJson for Num {
    open spec fn included(&self) -> bool {
        true
    }

    open spec fn json(&self, depth: nat, pretty: bool) -> Seq<char> {
        num_json(self@)
    }

    fn write_json(&self, dest: &mut Writer) {
        match &self.0 {
            N::F(f) => f.write_json(dest),
            N::I(i) => dest.put_i64(*i),
            N::U(u) => {
                dest.put_u64(*u);
            },
        }
    }

    fn should_include(&self) -> (b: bool) {
        true
    }
}

/// The number of an integer, as a value of contracts.
pub closed spec fn int_num(x: int) -> Num {
    if x < 0 {
        Num(N::I(x as i64))
    } else {
        Num(N::U(x as u64))
    }
}

/// The number of a float, as a value of contracts.
pub closed spec fn float_num(f: Float) -> Num {
    match sane_int(f@.bits) {
        Some(i) => int_num(i),
        None => Num(N::F(f)),
    }
}

/// What the numbers of integers and floats are.
pub proof fn lemma_num_views(x: int, f: Float)
    ensures
        i64::MIN <= x <= u64::MAX ==> int_num(x)@ == NumView::Int(x),
        float_num(f)@ == (match sane_int(f@.bits) {
            Some(i) => NumView::Int(i),
            None => NumView::Float(f@),
        }),
{
}

impl From<Float> for Num {
    fn from(f: Float) -> (n: Num) {
        Num::from_f64(f)
    }
}

impl vstd::std_specs::convert::FromSpecImpl<Float> for Num {
    open spec fn obeys_from_spec() -> bool {
        true
    }

    open spec fn from_spec(f: Float) -> Num {
        float_num(f)
    }
}

impl From<i8> for Num {
    fn from(t: i8) -> (n: Num) {
        Num::from_i64(t as i64)
    }
}

impl vstd::std_specs::convert::FromSpecImpl<i8> for Num {
    open spec fn obeys_from_spec() -> bool {
        true
    }

    open spec fn from_spec(t: i8) -> Num {
        int_num(t as int)
    }
}

impl From<i16> for Num {
    fn from(t: i16) -> (n: Num) {
        Num::from_i64(t as i64)
    }
}

impl vstd::std_specs::convert::FromSpecImpl<i16> for Num {
    open spec fn obeys_from_spec() -> bool {
        true
    }

    open spec fn from_spec(t: i16) -> Num {
        int_num(t as int)
    }
}

impl From<i32> for Num {
    fn from(t: i32) -> (n: Num) {
        Num::from_i64(t as i64)
    }
}

impl vstd::std_specs::convert::FromSpecImpl<i32> for Num {
    open spec fn obeys_from_spec() -> bool {
        true
    }

    open spec fn from_spec(t: i32) -> Num {
        int_num(t as int)
    }
}

impl From<i64> for Num {
    fn from(t: i64) -> (n: Num) {
        Num::from_i64(t as i64)
    }
}

impl vstd::std_specs::convert::FromSpecImpl<i64> for Num {
    open spec fn obeys_from_spec() -> bool {
        true
    }

    open spec fn from_spec(t: i64) -> Num {
        int_num(t as int)
    }
}

impl From<isize> for Num {
    fn from(t: isize) -> (n: Num) {
        Num::from_i64(t as i64)
    }
}

impl vstd::std_specs::convert::FromSpecImpl<isize> for Num {
    open spec fn obeys_from_spec() -> bool {
        true
    }

    open spec fn from_spec(t: isize) -> Num {
        int_num(t as int)
    }
}

impl From<u8> for Num {
    fn from(t: u8) -> (n: Num) {
        Num::from_u64(t as u64)
    }
}

impl vstd::std_specs::convert::FromSpecImpl<u8> for Num {
    open spec fn obeys_from_spec() -> bool {
        true
    }

    open spec fn from_spec(t: u8) -> Num {
        int_num(t as int)
    }
}

impl From<u16> for Num {
    fn from(t: u16) -> (n: Num) {
        Num::from_u64(t as u64)
    }
}

impl vstd::std_specs::convert::FromSpecImpl<u16> for Num {
    open spec fn obeys_from_spec() -> bool {
        true
    }

    open spec fn from_spec(t: u16) -> Num {
        int_num(t as int)
    }
}

impl From<u32> for Num {
    fn from(t: u32) -> (n: Num) {
        Num::from_u64(t as u64)
    }
}

impl vstd::std_specs::convert::FromSpecImpl<u32> for Num {
    open spec fn obeys_from_spec() -> bool {
        true
    }

    open spec fn from_spec(t: u32) -> Num {
        int_num(t as int)
    }
}

impl From<u64> for Num {
    fn from(t: u64) -> (n: Num) {
        Num::from_u64(t as u64)
    }
}

impl vstd::std_specs::convert::FromSpecImpl<u64> for Num {
    open spec fn obeys_from_spec() -> bool {
        true
    }

    open spec fn from_spec(t: u64) -> Num {
        int_num(t as int)
    }
}

impl From<usize> for Num {
    fn from(t: usize) -> (n: Num) {
        Num::from_u64(t as u64)
    }
}

impl vstd::std_specs::convert::FromSpecImpl<usize> for Num {
    open spec fn obeys_from_spec() -> bool {
        true
    }

    open spec fn from_spec(t: usize) -> Num {
        int_num(t as int)
    }
}

/// Two to the powers 52 and 53.
proof fn lemma2_to64_rest_52()
    ensures
        pow2(52) == 0x10_0000_0000_0000,
        pow2(53) == 0x20_0000_0000_0000,
{
    vstd::arithmetic::power2::lemma2_to64_rest();
}

} // verus!
