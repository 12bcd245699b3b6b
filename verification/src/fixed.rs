//! Fixed-point scalars: a 64-bit count of billionths.
//!
//! Every operation is total. Results that leave the 64-bit range saturate at
//! the nearest bound, and quotients round toward zero.

use vstd::prelude::*;

verus! {

/// Number of raw units in one: the scalar `1` is stored as `SCALE`.
pub const SCALE: i64 = 1_000_000_000;

/// A fixed-point number; it stands for the real number `raw / SCALE`.
#[derive(Clone, Copy, Debug, PartialEq, Eq, Structural)]
pub struct Fixed {
    pub raw: i64,
}

impl View for Fixed {
    type V = real;

    /// The real number this scalar stands for.
    open spec fn view(&self) -> real {
        self.raw as real / 1_000_000_000real
    }
}

/// The 64-bit value nearest to `x`.
pub open spec fn saturate(x: int) -> int {
    if x < i64::MIN {
        i64::MIN as int
    } else if x > i64::MAX {
        i64::MAX as int
    } else {
        x
    }
}

/// The magnitude of `x`.
pub open spec fn magnitude(x: int) -> int {
    if x < 0 {
        -x
    } else {
        x
    }
}

/// `n / d` rounded toward zero. Division by zero saturates by the sign of `n`,
/// and `0 / 0` is `0`.
pub open spec fn quotient(n: int, d: int) -> int {
    if d == 0 {
        if n > 0 {
            i64::MAX as int
        } else if n < 0 {
            i64::MIN as int
        } else {
            0
        }
    } else if (n < 0) == (d < 0) {
        magnitude(n) / magnitude(d)
    } else {
        -(magnitude(n) / magnitude(d))
    }
}

/// Whether `r` is the integer square root of `n`: the largest `r >= 0` with `r * r <= n`.
pub open spec fn is_root(n: int, r: int) -> bool {
    0 <= r && r * r <= n < (r + 1) * (r + 1)
}

/// The integer square root of `n`, and `0` for negative `n`.
pub open spec fn root(n: int) -> int {
    if n < 0 {
        0
    } else {
        choose|r: int| is_root(n, r)
    }
}

/// At most one integer is the square root of `n`.
pub proof fn lemma_root_unique(n: int, r1: int, r2: int)
    requires
        is_root(n, r1),
        is_root(n, r2),
    ensures
        r1 == r2,
{
    if r1 < r2 {
        assert((r1 + 1) * (r1 + 1) <= r2 * r2) by (nonlinear_arith)
            requires
                0 <= r1,
                r1 + 1 <= r2,
        ;
    } else if r2 < r1 {
        assert((r2 + 1) * (r2 + 1) <= r1 * r1) by (nonlinear_arith)
            requires
                0 <= r2,
                r2 + 1 <= r1,
        ;
    }
}

/// Every integer that is not negative has an integer square root.
pub proof fn lemma_root_exists(n: int)
    requires
        n >= 0,
    ensures
        is_root(n, root(n)),
    decreases n,
{
    if n == 0 {
        assert(is_root(0, 0));
    } else {
        lemma_root_exists(n - 1);
        let r = root(n - 1);
        if (r + 1) * (r + 1) <= n {
            assert((r + 2) * (r + 2) > n) by (nonlinear_arith)
                requires
                    r >= 0,
                    (r + 1) * (r + 1) > n - 1,
            ;
            assert(is_root(n, r + 1));
        } else {
            assert(is_root(n, r));
        }
    }
}

/// The square root of a scalar is never negative, and for a scalar that is
/// not negative it is the integer square root of the raw count times `SCALE`.
pub proof fn lemma_sqrt_is_root(x: Fixed)
    ensures
        x.sqrt().raw >= 0,
        x.raw >= 0 ==> is_root(x.raw * SCALE, x.sqrt().raw as int),
{
    let n = x.raw * SCALE;
    if x.raw >= 0 {
        assert(0 <= n < 0x4000_0000_0000_0000_0000_0000) by (nonlinear_arith)
            requires
                0 <= x.raw <= 0x7fff_ffff_ffff_ffff,
                n == x.raw * 1_000_000_000,
        ;
        lemma_root_exists(n);
        let r = root(n);
        if r >= 0x8000_0000_0000 {
            lemma_square_monotone(0x8000_0000_0000, r);
            assert(0x8000_0000_0000 * 0x8000_0000_0000 == 0x4000_0000_0000_0000_0000_0000) by (nonlinear_arith);
        }
    } else {
        assert(n < 0) by (nonlinear_arith)
            requires
                x.raw < 0,
                n == x.raw * 1_000_000_000,
        ;
    }
}

/// The real number that one raw unit stands for: a billionth.
pub open spec fn step() -> real {
    1real / 1_000_000_000real
}

/// Going from integers to reals commutes with multiplication.
pub proof fn lemma_real_product(a: int, b: int)
    ensures
        (a * b) as real == (a as real) * (b as real),
{
    assert((a * b) as real == (a as real) * (b as real)) by (nonlinear_arith);
}

/// A quotient rounded toward zero differs from the exact quotient by less
/// than one, and is no larger in magnitude.
pub proof fn lemma_quotient_close(n: int, d: int)
    requires
        d != 0,
    ensures
        -(1real) < (quotient(n, d) as real) - (n as real) / (d as real) < 1real,
        magnitude(quotient(n, d) * d) <= magnitude(n),
{
    let m = magnitude(n);
    let e = magnitude(d);
    let q = m / e;
    vstd::arithmetic::div_mod::lemma_fundamental_div_mod(m, e);
    vstd::arithmetic::div_mod::lemma_mod_pos_bound(m, e);
    let rest = m % e;
    assert(m == e * q + rest);
    assert(q >= 0) by (nonlinear_arith)
        requires
            m >= 0,
            e > 0,
            q == m / e,
            m == e * q + rest,
            0 <= rest < e,
    ;
    lemma_real_product(e, q);
    let mr = m as real;
    let er = e as real;
    let qr = q as real;
    let rr = rest as real;
    assert(mr == er * qr + rr);
    assert(mr / er == qr + rr / er) by (nonlinear_arith)
        requires
            mr == er * qr + rr,
            er > 0real,
    ;
    assert(0real <= rr / er < 1real) by (nonlinear_arith)
        requires
            0real <= rr < er,
    ;
    assert((n as real) / (d as real) == if (n < 0) == (d < 0) {
        mr / er
    } else {
        -(mr / er)
    }) by (nonlinear_arith)
        requires
            d != 0,
            mr == (if n < 0 {
                -(n as real)
            } else {
                n as real
            }),
            er == (if d < 0 {
                -(d as real)
            } else {
                d as real
            }),
    ;
    assert(magnitude(quotient(n, d) * d) == q * e) by (nonlinear_arith)
        requires
            d != 0,
            q >= 0,
            e == magnitude(d),
            quotient(n, d) == q || quotient(n, d) == -q,
    ;
    assert(q * e == e * q) by (nonlinear_arith);
}

/// A sum that stays within the 64-bit range is exact.
pub proof fn lemma_add_exact(a: Fixed, b: Fixed)
    requires
        i64::MIN <= a.raw + b.raw <= i64::MAX,
    ensures
        a.add(b)@ == a@ + b@,
{
}

/// A difference that stays within the 64-bit range is exact.
pub proof fn lemma_sub_exact(a: Fixed, b: Fixed)
    requires
        i64::MIN <= a.raw - b.raw <= i64::MAX,
    ensures
        a.sub(b)@ == a@ - b@,
{
}

/// A product that stays within the 64-bit range is within one step of the
/// exact product.
pub proof fn lemma_mul_close(a: Fixed, b: Fixed)
    requires
        i64::MIN <= quotient(a.raw * b.raw, SCALE as int) <= i64::MAX,
    ensures
        -step() < a.mul(b)@ - a@ * b@ < step(),
{
    reveal(Fixed::spec_mul);
    let n = a.raw * b.raw;
    let q = quotient(n, SCALE as int);
    lemma_quotient_close(n, SCALE as int);
    lemma_real_product(a.raw as int, b.raw as int);
    let ar = a.raw as real;
    let br = b.raw as real;
    let qr = q as real;
    assert(a.mul(b).raw == q);
    assert(-(1real) < qr - (ar * br) / 1_000_000_000real < 1real);
    assert(a.mul(b)@ - a@ * b@ == (qr - (ar * br) / 1_000_000_000real) / 1_000_000_000real) by (nonlinear_arith)
        requires
            a.mul(b)@ == qr / 1_000_000_000real,
            a@ == ar / 1_000_000_000real,
            b@ == br / 1_000_000_000real,
    ;
}

/// A quotient by a scalar other than zero that stays within the 64-bit
/// range is within one step of the exact quotient.
pub proof fn lemma_div_close(a: Fixed, b: Fixed)
    requires
        b.raw != 0,
        i64::MIN <= quotient(a.raw * SCALE, b.raw as int) <= i64::MAX,
    ensures
        -step() < a.div(b)@ - a@ / b@ < step(),
{
    reveal(Fixed::spec_div);
    let n = a.raw * SCALE;
    let q = quotient(n, b.raw as int);
    lemma_quotient_close(n, b.raw as int);
    lemma_real_product(a.raw as int, SCALE as int);
    let ar = a.raw as real;
    let br = b.raw as real;
    let qr = q as real;
    assert(a.div(b).raw == q);
    assert(-(1real) < qr - (ar * 1_000_000_000real) / br < 1real);
    assert(a@ / b@ == ar / br) by (nonlinear_arith)
        requires
            a@ == ar / 1_000_000_000real,
            b@ == br / 1_000_000_000real,
            br != 0real,
    ;
    assert((ar * 1_000_000_000real) / br == (ar / br) * 1_000_000_000real) by (nonlinear_arith)
        requires
            br != 0real,
    ;
    assert(a.div(b)@ - a@ / b@ == (qr - (ar / br) * 1_000_000_000real) / 1_000_000_000real) by (nonlinear_arith)
        requires
            a.div(b)@ == qr / 1_000_000_000real,
            a@ / b@ == ar / br,
    ;
}

/// The square root of a scalar that is not negative is at most the exact
/// root and less than one step below it.
pub proof fn lemma_sqrt_close(a: Fixed)
    requires
        a.raw >= 0,
    ensures
        a.sqrt()@ >= 0real,
        a.sqrt()@ * a.sqrt()@ <= a@,
        a@ < (a.sqrt()@ + step()) * (a.sqrt()@ + step()),
{
    lemma_sqrt_is_root(a);
    let r = a.sqrt().raw as int;
    let n = a.raw * SCALE;
    lemma_real_product(r, r);
    lemma_real_product(r + 1, r + 1);
    lemma_real_product(a.raw as int, SCALE as int);
    let rr = r as real;
    let ar = a.raw as real;
    assert(rr * rr <= ar * 1_000_000_000real);
    assert(ar * 1_000_000_000real < (rr + 1real) * (rr + 1real));
    assert(a.sqrt()@ * a.sqrt()@ <= a@) by (nonlinear_arith)
        requires
            a.sqrt()@ == rr / 1_000_000_000real,
            a@ == ar / 1_000_000_000real,
            rr * rr <= ar * 1_000_000_000real,
    ;
    assert(a@ < (a.sqrt()@ + step()) * (a.sqrt()@ + step())) by (nonlinear_arith)
        requires
            a.sqrt()@ == rr / 1_000_000_000real,
            a@ == ar / 1_000_000_000real,
            step() == 1real / 1_000_000_000real,
            ar * 1_000_000_000real < (rr + 1real) * (rr + 1real),
    ;
}

/// Squaring is monotone on the non-negative integers.
proof fn lemma_square_monotone(a: int, b: int)
    requires
        0 <= a <= b,
    ensures
        a * a <= b * b,
{
    assert(a * a <= b * b) by (nonlinear_arith)
        requires
            0 <= a <= b,
    ;
}

/// Clamps a wide integer into the 64-bit range.
fn clamp_wide(x: i128) -> (r: i64)
    ensures
        r == saturate(x as int),
{
    if x < -0x8000_0000_0000_0000i128 {
        i64::MIN
    } else if x > 0x7fff_ffff_ffff_ffffi128 {
        i64::MAX
    } else {
        x as i64
    }
}

/// Quotient of two wide integers, rounded toward zero.
fn divide_wide(n: i128, d: i128) -> (r: i128)
    requires
        d != 0,
        -0x4000_0000_0000_0000_0000_0000_0000_0000 <= n <= 0x4000_0000_0000_0000_0000_0000_0000_0000,
        -0x4000_0000_0000_0000_0000_0000_0000_0000 <= d <= 0x4000_0000_0000_0000_0000_0000_0000_0000,
    ensures
        r == quotient(n as int, d as int),
        magnitude(r as int) <= magnitude(n as int),
{
    proof {
        let m = magnitude(n as int);
        let e = magnitude(d as int);
        assert(0 <= m / e <= m) by (nonlinear_arith)
            requires
                0 <= m,
                1 <= e,
        ;
    }
    if d > 0 {
        n / d
    } else {
        let pn: i128 = -n;
        let pd: i128 = -d;
        pn / pd
    }
}

/// Integer square root of a non-negative wide integer below `2^94`.
fn root_wide(n: u128) -> (r: u64)
    requires
        n < 0x4000_0000_0000_0000_0000_0000,
    ensures
        r == root(n as int),
        is_root(n as int, r as int),
{
    let mut lo: u128 = 0;
    let mut hi: u128 = 0x8000_0000_0000;
    assert(0x8000_0000_0000 * 0x8000_0000_0000 == 0x4000_0000_0000_0000_0000_0000) by (nonlinear_arith);
    while hi - lo > 1
        invariant
            0 <= lo < hi <= 0x8000_0000_0000,
            lo * lo <= n < hi * hi,
        decreases hi - lo,
    {
        let mid: u128 = lo + (hi - lo) / 2;
        proof {
            lemma_square_monotone(mid as int, 0x8000_0000_0000);
        }
        if mid * mid <= n {
            lo = mid;
        } else {
            hi = mid;
        }
    }
    proof {
        assert(is_root(n as int, lo as int));
        lemma_root_unique(n as int, lo as int, root(n as int));
    }
    lo as u64
}

impl Fixed {
    /// The scalar whose raw count is `raw`.
    pub fn from_raw(raw: i64) -> (r: Fixed)
        ensures
            r.raw == raw,
    {
        Fixed { raw }
    }

    pub open spec fn spec_from_int(n: i32) -> Fixed {
        Fixed { raw: (n * SCALE) as i64 }
    }

    /// The scalar that stands for the integer `n`.
    #[verifier::when_used_as_spec(spec_from_int)]
    pub fn from_int(n: i32) -> (r: Fixed)
        ensures
            r == Fixed::spec_from_int(n),
            r.raw == n * SCALE,
    {
        let wide: i64 = n as i64;
        Fixed { raw: wide * SCALE }
    }

    pub open spec fn spec_from_count(n: u32) -> Fixed {
        Fixed { raw: (n * SCALE) as i64 }
    }

    /// The scalar that stands for the count `n`.
    #[verifier::when_used_as_spec(spec_from_count)]
    pub fn from_count(n: u32) -> (r: Fixed)
        ensures
            r == Fixed::spec_from_count(n),
            r.raw == n * SCALE,
    {
        let wide: i64 = n as i64;
        Fixed { raw: wide * SCALE }
    }

    pub open spec fn spec_zero() -> Fixed {
        Fixed { raw: 0 }
    }

    /// The scalar `0`.
    #[verifier::when_used_as_spec(spec_zero)]
    pub fn zero() -> (r: Fixed)
        ensures
            r == Fixed::spec_zero(),
    {
        Fixed { raw: 0 }
    }

    pub open spec fn spec_one() -> Fixed {
        Fixed { raw: SCALE }
    }

    /// The scalar `1`.
    #[verifier::when_used_as_spec(spec_one)]
    pub fn one() -> (r: Fixed)
        ensures
            r == Fixed::spec_one(),
    {
        Fixed { raw: SCALE }
    }

    pub open spec fn spec_largest() -> Fixed {
        Fixed { raw: i64::MAX }
    }

    /// The largest scalar; it stands in for an unbounded upper limit.
    #[verifier::when_used_as_spec(spec_largest)]
    pub fn largest() -> (r: Fixed)
        ensures
            r == Fixed::spec_largest(),
    {
        Fixed { raw: i64::MAX }
    }

    pub open spec fn spec_add(self, rhs: Fixed) -> Fixed {
        Fixed { raw: saturate(self.raw + rhs.raw) as i64 }
    }

    /// Saturating sum.
    #[verifier::when_used_as_spec(spec_add)]
    pub fn add(self, rhs: Fixed) -> (r: Fixed)
        ensures
            r == self.spec_add(rhs),
    {
        Fixed { raw: clamp_wide(self.raw as i128 + rhs.raw as i128) }
    }

    pub open spec fn spec_sub(self, rhs: Fixed) -> Fixed {
        Fixed { raw: saturate(self.raw - rhs.raw) as i64 }
    }

    /// Saturating difference.
    #[verifier::when_used_as_spec(spec_sub)]
    pub fn sub(self, rhs: Fixed) -> (r: Fixed)
        ensures
            r == self.spec_sub(rhs),
    {
        Fixed { raw: clamp_wide(self.raw as i128 - rhs.raw as i128) }
    }

    pub open spec fn spec_neg(self) -> Fixed {
        Fixed { raw: saturate(-self.raw) as i64 }
    }

    /// Saturating negation.
    #[verifier::when_used_as_spec(spec_neg)]
    pub fn neg(self) -> (r: Fixed)
        ensures
            r == self.spec_neg(),
    {
        Fixed { raw: clamp_wide(-(self.raw as i128)) }
    }

    pub open spec fn spec_abs(self) -> Fixed {
        Fixed { raw: saturate(magnitude(self.raw as int)) as i64 }
    }

    /// Saturating absolute value.
    #[verifier::when_used_as_spec(spec_abs)]
    pub fn abs(self) -> (r: Fixed)
        ensures
            r == self.spec_abs(),
    {
        if self.raw < 0 {
            Fixed { raw: clamp_wide(-(self.raw as i128)) }
        } else {
            self
        }
    }

    #[verifier::opaque]
    pub open spec fn spec_mul(self, rhs: Fixed) -> Fixed {
        Fixed { raw: saturate(quotient(self.raw * rhs.raw, SCALE as int)) as i64 }
    }

    /// Saturating product, rounded toward zero.
    #[verifier::when_used_as_spec(spec_mul)]
    pub fn mul(self, rhs: Fixed) -> (r: Fixed)
        ensures
            r == self.spec_mul(rhs),
    {
        let a: i128 = self.raw as i128;
        let b: i128 = rhs.raw as i128;
        proof {
            reveal(Fixed::spec_mul);
            assert(-0x4000_0000_0000_0000_0000_0000_0000_0000 <= a * b
                <= 0x4000_0000_0000_0000_0000_0000_0000_0000) by (nonlinear_arith)
                requires
                    -0x8000_0000_0000_0000 <= a <= 0x7fff_ffff_ffff_ffff,
                    -0x8000_0000_0000_0000 <= b <= 0x7fff_ffff_ffff_ffff,
            ;
        }
        Fixed { raw: clamp_wide(divide_wide(a * b, SCALE as i128)) }
    }

    #[verifier::opaque]
    pub open spec fn spec_div(self, rhs: Fixed) -> Fixed {
        Fixed { raw: saturate(quotient(self.raw * SCALE, rhs.raw as int)) as i64 }
    }

    /// Saturating quotient, rounded toward zero. Dividing by zero gives the
    /// largest scalar, the smallest, or zero, by the sign of the dividend.
    #[verifier::when_used_as_spec(spec_div)]
    pub fn div(self, rhs: Fixed) -> (r: Fixed)
        ensures
            r == self.spec_div(rhs),
    {
        proof {
            reveal(Fixed::spec_div);
        }
        if rhs.raw == 0 {
            if self.raw > 0 {
                Fixed { raw: i64::MAX }
            } else if self.raw < 0 {
                Fixed { raw: i64::MIN }
            } else {
                Fixed { raw: 0 }
            }
        } else {
            let a: i128 = self.raw as i128;
            let wide: i128 = a * 1_000_000_000i128;
            Fixed { raw: clamp_wide(divide_wide(wide, rhs.raw as i128)) }
        }
    }

    pub open spec fn spec_sqrt(self) -> Fixed {
        Fixed { raw: root(self.raw * SCALE) as i64 }
    }

    /// Square root, rounded down; the root of a negative scalar is zero.
    #[verifier::when_used_as_spec(spec_sqrt)]
    pub fn sqrt(self) -> (r: Fixed)
        ensures
            r == self.spec_sqrt(),
            r.raw >= 0,
            self.raw >= 0 ==> is_root(self.raw * SCALE, r.raw as int),
    {
        if self.raw < 0 {
            Fixed { raw: 0 }
        } else {
            let n: u128 = (self.raw as u128) * 1_000_000_000u128;
            let r = root_wide(n);
            proof {
                assert(r < 0x8000_0000_0000) by {
                    if r >= 0x8000_0000_0000 {
                        lemma_square_monotone(0x8000_0000_0000, r as int);
                    }
                }
            }
            Fixed { raw: r as i64 }
        }
    }

    pub open spec fn spec_min(self, rhs: Fixed) -> Fixed {
        if rhs.raw < self.raw {
            rhs
        } else {
            self
        }
    }

    /// The smaller of two scalars.
    #[verifier::when_used_as_spec(spec_min)]
    pub fn min(self, rhs: Fixed) -> (r: Fixed)
        ensures
            r == self.spec_min(rhs),
    {
        if rhs.raw < self.raw {
            rhs
        } else {
            self
        }
    }

    pub open spec fn spec_max(self, rhs: Fixed) -> Fixed {
        if rhs.raw > self.raw {
            rhs
        } else {
            self
        }
    }

    /// The larger of two scalars.
    #[verifier::when_used_as_spec(spec_max)]
    pub fn max(self, rhs: Fixed) -> (r: Fixed)
        ensures
            r == self.spec_max(rhs),
    {
        if rhs.raw > self.raw {
            rhs
        } else {
            self
        }
    }

    pub open spec fn spec_clamp(self, lo: Fixed, hi: Fixed) -> Fixed {
        if self.raw < lo.raw {
            lo
        } else if self.raw > hi.raw {
            hi
        } else {
            self
        }
    }

    /// `self` limited to the range from `lo` to `hi`; `lo` wins where the two cross.
    #[verifier::when_used_as_spec(spec_clamp)]
    pub fn clamp(self, lo: Fixed, hi: Fixed) -> (r: Fixed)
        ensures
            r == self.spec_clamp(lo, hi),
    {
        if self.raw < lo.raw {
            lo
        } else if self.raw > hi.raw {
            hi
        } else {
            self
        }
    }
}

/// A product of a scalar with itself is never negative.
pub proof fn lemma_square_nonnegative(x: Fixed)
    ensures
        x.mul(x).raw >= 0,
{
    reveal(Fixed::spec_mul);
    assert(x.raw * x.raw >= 0) by (nonlinear_arith);
    let m = magnitude(x.raw * x.raw);
    assert(m / (SCALE as int) >= 0) by (nonlinear_arith)
        requires
            m >= 0,
            SCALE > 0,
    ;
}

/// Dividing by a scalar that is not negative keeps the order of the dividends.
pub proof fn lemma_div_monotone(a: Fixed, b: Fixed, d: Fixed)
    requires
        a.raw <= b.raw,
        d.raw >= 0,
    ensures
        a.div(d).raw <= b.div(d).raw,
{
    reveal(Fixed::spec_div);
    let s = SCALE as int;
    let n1 = a.raw * s;
    let n2 = b.raw * s;
    assert(n1 <= n2) by (nonlinear_arith)
        requires
            a.raw <= b.raw,
            s > 0,
            n1 == a.raw * s,
            n2 == b.raw * s,
    ;
    assert((n1 < 0) == (a.raw < 0) && (n1 > 0) == (a.raw > 0)) by (nonlinear_arith)
        requires
            s > 0,
            n1 == a.raw * s,
    ;
    assert((n2 < 0) == (b.raw < 0) && (n2 > 0) == (b.raw > 0)) by (nonlinear_arith)
        requires
            s > 0,
            n2 == b.raw * s,
    ;
    if d.raw > 0 {
        let e = d.raw as int;
        let m1 = magnitude(n1);
        let m2 = magnitude(n2);
        assert(m1 / e >= 0 && m2 / e >= 0) by (nonlinear_arith)
            requires
                m1 >= 0,
                m2 >= 0,
                e > 0,
        ;
        if n1 >= 0 {
            vstd::arithmetic::div_mod::lemma_div_is_ordered(n1, n2, e);
        } else if n2 < 0 {
            vstd::arithmetic::div_mod::lemma_div_is_ordered(m2, m1, e);
        }
    }
}

/// Multiplying by one changes nothing, multiplying by minus one negates,
/// and multiplying by zero gives zero; dividing by one changes nothing.
pub proof fn lemma_unit_factors(x: Fixed)
    ensures
        x.mul(Fixed::one()) == x,
        Fixed::one().mul(x) == x,
        x.mul(Fixed::one().neg()) == x.neg(),
        Fixed::one().neg().mul(x) == x.neg(),
        x.mul(Fixed::zero()) == Fixed::zero(),
        Fixed::zero().mul(x) == Fixed::zero(),
        x.div(Fixed::one()) == x,
{
    reveal(Fixed::spec_mul);
    reveal(Fixed::spec_div);
    let s = SCALE as int;
    let r = x.raw as int;
    let m = magnitude(r);
    assert(magnitude(r * s) == m * s && magnitude(s * r) == m * s && magnitude(r * (-s)) == m * s && magnitude(
        (-s) * r,
    ) == m * s) by (nonlinear_arith)
        requires
            s > 0,
            m == magnitude(r),
    ;
    assert((m * s) / s == m) by (nonlinear_arith)
        requires
            s > 0,
            m >= 0,
    ;
    assert((r * s < 0) == (r < 0) && (s * r < 0) == (r < 0) && (r * (-s) < 0) == (r > 0) && ((-s) * r < 0) == (r
        > 0)) by (nonlinear_arith)
        requires
            s > 0,
    ;
    assert(r * 0 == 0 && 0 * r == 0) by (nonlinear_arith);
    assert(0int / s == 0) by (nonlinear_arith)
        requires
            s > 0,
    ;
}

/// Quotients rounded toward zero keep the order of the dividends where the
/// divisor is above zero or zero, and turn it round where it is below zero.
pub proof fn lemma_quotient_ordered(n1: int, n2: int, d: int)
    requires
        n1 <= n2,
    ensures
        d >= 0 ==> quotient(n1, d) <= quotient(n2, d),
        d < 0 ==> quotient(n1, d) >= quotient(n2, d),
{
    if d != 0 {
        let e = magnitude(d);
        let m1 = magnitude(n1);
        let m2 = magnitude(n2);
        assert(m1 / e >= 0 && m2 / e >= 0) by (nonlinear_arith)
            requires
                m1 >= 0,
                m2 >= 0,
                e > 0,
        ;
        if n1 >= 0 {
            vstd::arithmetic::div_mod::lemma_div_is_ordered(n1, n2, e);
        } else if n2 < 0 {
            vstd::arithmetic::div_mod::lemma_div_is_ordered(m2, m1, e);
        }
    }
}

/// Whether `x` lies between `a` and `b`, whichever of the two is the smaller.
pub open spec fn lies_between(x: Fixed, a: Fixed, b: Fixed) -> bool {
    (a.raw <= x.raw <= b.raw) || (b.raw <= x.raw <= a.raw)
}

/// A quotient by one divisor lies between the quotients of what the
/// dividend lies between.
pub proof fn lemma_div_between(x: Fixed, a: Fixed, b: Fixed, d: Fixed)
    requires
        lies_between(x, a, b),
    ensures
        lies_between(x.div(d), a.div(d), b.div(d)),
{
    reveal(Fixed::spec_div);
    let s = SCALE as int;
    assert(a.raw <= x.raw ==> a.raw * s <= x.raw * s) by (nonlinear_arith)
        requires
            s > 0,
    ;
    assert(x.raw <= b.raw ==> x.raw * s <= b.raw * s) by (nonlinear_arith)
        requires
            s > 0,
    ;
    assert(b.raw <= x.raw ==> b.raw * s <= x.raw * s) by (nonlinear_arith)
        requires
            s > 0,
    ;
    assert(x.raw <= a.raw ==> x.raw * s <= a.raw * s) by (nonlinear_arith)
        requires
            s > 0,
    ;
    if a.raw <= x.raw <= b.raw {
        lemma_quotient_ordered(a.raw * s, x.raw * s, d.raw as int);
        lemma_quotient_ordered(x.raw * s, b.raw * s, d.raw as int);
    } else {
        lemma_quotient_ordered(b.raw * s, x.raw * s, d.raw as int);
        lemma_quotient_ordered(x.raw * s, a.raw * s, d.raw as int);
    }
}

/// A product with one factor lies between the products of what the other
/// factor lies between.
pub proof fn lemma_mul_between(k: Fixed, x: Fixed, a: Fixed, b: Fixed)
    requires
        lies_between(x, a, b),
    ensures
        lies_between(k.mul(x), k.mul(a), k.mul(b)),
{
    reveal(Fixed::spec_mul);
    let s = SCALE as int;
    let kx = k.raw * x.raw;
    let ka = k.raw * a.raw;
    let kb = k.raw * b.raw;
    assert((ka <= kx <= kb) || (kb <= kx <= ka)) by (nonlinear_arith)
        requires
            (a.raw <= x.raw <= b.raw) || (b.raw <= x.raw <= a.raw),
            kx == k.raw * x.raw,
            ka == k.raw * a.raw,
            kb == k.raw * b.raw,
    ;
    if ka <= kx <= kb {
        lemma_quotient_ordered(ka, kx, s);
        lemma_quotient_ordered(kx, kb, s);
    } else {
        lemma_quotient_ordered(kb, kx, s);
        lemma_quotient_ordered(kx, ka, s);
    }
}

} // verus!
