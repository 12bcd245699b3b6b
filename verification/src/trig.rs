//! Circular functions on fixed-point scalars, by range reduction and
//! truncated power series. Every step uses the saturating, truncating
//! arithmetic of `Fixed`, so each result is one definite scalar.

use vstd::prelude::*;
use crate::fixed::Fixed;

verus! {

/// Raw count of the scalar nearest to pi.
pub const PI_RAW: i64 = 3_141_592_654;

/// Raw count of the scalar nearest to two pi: a full turn.
pub const TAU_RAW: i64 = 6_283_185_307;

/// Raw count of the scalar nearest to half of pi: a quarter turn.
pub const QUARTER_TURN_RAW: i64 = 1_570_796_327;

/// `1 - s / k`, the shape of every factor of the series below.
pub open spec fn spec_step(s: Fixed, k: i32, inner: Fixed) -> Fixed {
    Fixed::one().sub(s.div(Fixed::from_int(k)).mul(inner))
}

/// One factor `1 - (s / k) * inner` of a series in Horner form.
#[verifier::when_used_as_spec(spec_step)]
pub fn step(s: Fixed, k: i32, inner: Fixed) -> (r: Fixed)
    ensures
        r == spec_step(s, k, inner),
{
    Fixed::one().sub(s.div(Fixed::from_int(k)).mul(inner))
}

/// The sine series through the eleventh power, for an angle within a quarter turn.
pub open spec fn spec_sine_series(y: Fixed) -> Fixed {
    let s = y.mul(y);
    y.mul(step(s, 6, step(s, 20, step(s, 42, step(s, 72, step(s, 110, Fixed::one()))))))
}

/// `y - y^3/3! + y^5/5! - ... - y^11/11!`, meant for `0 <= y <= pi/2`.
#[verifier::when_used_as_spec(spec_sine_series)]
pub fn sine_series(y: Fixed) -> (r: Fixed)
    ensures
        r == spec_sine_series(y),
{
    let s = y.mul(y);
    y.mul(step(s, 6, step(s, 20, step(s, 42, step(s, 72, step(s, 110, Fixed::one()))))))
}

/// The cosine series through the twelfth power, for an angle within a quarter turn.
pub open spec fn spec_cosine_series(y: Fixed) -> Fixed {
    let s = y.mul(y);
    step(s, 2, step(s, 12, step(s, 30, step(s, 56, step(s, 90, step(s, 132, Fixed::one()))))))
}

/// `1 - y^2/2! + y^4/4! - ... + y^12/12!`, meant for `0 <= y <= pi/2`.
#[verifier::when_used_as_spec(spec_cosine_series)]
pub fn cosine_series(y: Fixed) -> (r: Fixed)
    ensures
        r == spec_cosine_series(y),
{
    let s = y.mul(y);
    step(s, 2, step(s, 12, step(s, 30, step(s, 56, step(s, 90, step(s, 132, Fixed::one()))))))
}

/// The arctangent series through the ninth power, for a small tangent.
pub open spec fn spec_arctangent_series(w: Fixed) -> Fixed {
    let s = w.mul(w);
    let third = Fixed::one().div(Fixed::from_int(3));
    let fifth = Fixed::one().div(Fixed::from_int(5));
    let seventh = Fixed::one().div(Fixed::from_int(7));
    let ninth = Fixed::one().div(Fixed::from_int(9));
    w.mul(Fixed::one().sub(s.mul(third.sub(s.mul(fifth.sub(s.mul(seventh.sub(s.mul(ninth)))))))))
}

/// `w - w^3/3 + w^5/5 - w^7/7 + w^9/9`, meant for `0 <= w <= 0.2`.
#[verifier::when_used_as_spec(spec_arctangent_series)]
pub fn arctangent_series(w: Fixed) -> (r: Fixed)
    ensures
        r == spec_arctangent_series(w),
{
    let s = w.mul(w);
    let third = Fixed::one().div(Fixed::from_int(3));
    let fifth = Fixed::one().div(Fixed::from_int(5));
    let seventh = Fixed::one().div(Fixed::from_int(7));
    let ninth = Fixed::one().div(Fixed::from_int(9));
    w.mul(Fixed::one().sub(s.mul(third.sub(s.mul(fifth.sub(s.mul(seventh.sub(s.mul(ninth)))))))))
}

/// The tangent of half the angle whose tangent is `z`: `z / (1 + sqrt(1 + z^2))`.
pub open spec fn spec_halve_tangent(z: Fixed) -> Fixed {
    z.div(Fixed::one().add(Fixed::one().add(z.mul(z)).sqrt()))
}

/// Halves an angle given by its tangent.
#[verifier::when_used_as_spec(spec_halve_tangent)]
pub fn halve_tangent(z: Fixed) -> (r: Fixed)
    ensures
        r == spec_halve_tangent(z),
{
    z.div(Fixed::one().add(Fixed::one().add(z.mul(z)).sqrt()))
}

/// The arctangent of a tangent between zero and one: the angle is halved
/// twice, the series taken, and the result multiplied by four.
pub open spec fn spec_arctangent_unit(z: Fixed) -> Fixed {
    arctangent_series(halve_tangent(halve_tangent(z))).mul(Fixed::from_int(4))
}

/// The angle, in radians, whose tangent is `z`; meant for `0 <= z <= 1`.
#[verifier::when_used_as_spec(spec_arctangent_unit)]
pub fn arctangent_unit(z: Fixed) -> (r: Fixed)
    ensures
        r == spec_arctangent_unit(z),
{
    arctangent_series(halve_tangent(halve_tangent(z))).mul(Fixed::from_int(4))
}

/// The angle `raw` brought into one turn: the remainder of its division by a
/// full turn, never negative.
pub open spec fn within_turn(raw: int) -> int {
    raw % (TAU_RAW as int)
}

/// Which quarter of the turn the reduced angle `r` falls in, from 0 to 3.
pub open spec fn quarter_of(r: int) -> int {
    r / (QUARTER_TURN_RAW as int)
}

impl Fixed {
    pub open spec fn spec_pi() -> Fixed {
        Fixed { raw: PI_RAW }
    }

    /// The scalar nearest to pi.
    #[verifier::when_used_as_spec(spec_pi)]
    pub fn pi() -> (r: Fixed)
        ensures
            r == Fixed::spec_pi(),
    {
        Fixed { raw: PI_RAW }
    }

    /// The sine and the cosine of an angle in radians, as a pair.
    pub open spec fn spec_sin_cos(self) -> (Fixed, Fixed) {
        let r = within_turn(self.raw as int);
        let q = quarter_of(r);
        let y = Fixed { raw: (r - q * QUARTER_TURN_RAW) as i64 };
        let s = sine_series(y).clamp(Fixed::zero(), Fixed::one());
        let c = cosine_series(y).clamp(Fixed::zero(), Fixed::one());
        if q == 0 {
            (s, c)
        } else if q == 1 {
            (c, s.neg())
        } else if q == 2 {
            (s.neg(), c.neg())
        } else {
            (c.neg(), s)
        }
    }

    /// The sine and the cosine of an angle in radians. The angle is brought
    /// into one turn and then into a quarter turn, where the two series are
    /// taken; both results lie between minus one and one.
    #[verifier::when_used_as_spec(spec_sin_cos)]
    pub fn sin_cos(self) -> (r: (Fixed, Fixed))
        ensures
            r == self.spec_sin_cos(),
            -crate::fixed::SCALE <= r.0.raw <= crate::fixed::SCALE,
            -crate::fixed::SCALE <= r.1.raw <= crate::fixed::SCALE,
    {
        let t: i64 = self.raw % TAU_RAW;
        let r: i64 = if t < 0 {
            t + TAU_RAW
        } else {
            t
        };
        proof {
            lemma_remainder(self.raw as int, t as int, r as int);
        }
        let q: i64 = r / QUARTER_TURN_RAW;
        let y = Fixed { raw: r - q * QUARTER_TURN_RAW };
        let s = sine_series(y).clamp(Fixed::zero(), Fixed::one());
        let c = cosine_series(y).clamp(Fixed::zero(), Fixed::one());
        if q == 0 {
            (s, c)
        } else if q == 1 {
            (c, s.neg())
        } else if q == 2 {
            (s.neg(), c.neg())
        } else {
            (c.neg(), s)
        }
    }

    pub open spec fn spec_sin(self) -> Fixed {
        self.sin_cos().0
    }

    /// The sine of an angle in radians.
    #[verifier::when_used_as_spec(spec_sin)]
    pub fn sin(self) -> (r: Fixed)
        ensures
            r == self.spec_sin(),
    {
        self.sin_cos().0
    }

    pub open spec fn spec_cos(self) -> Fixed {
        self.sin_cos().1
    }

    /// The cosine of an angle in radians.
    #[verifier::when_used_as_spec(spec_cos)]
    pub fn cos(self) -> (r: Fixed)
        ensures
            r == self.spec_cos(),
    {
        self.sin_cos().1
    }

    pub open spec fn spec_tan(self) -> Fixed {
        self.sin_cos().0.div(self.sin_cos().1)
    }

    /// The tangent of an angle in radians: its sine divided by its cosine.
    #[verifier::when_used_as_spec(spec_tan)]
    pub fn tan(self) -> (r: Fixed)
        ensures
            r == self.spec_tan(),
    {
        let (s, c) = self.sin_cos();
        s.div(c)
    }

    pub open spec fn spec_atan2(self, x: Fixed) -> Fixed {
        let ay = self.abs();
        let ax = x.abs();
        if ay.raw == 0 && ax.raw == 0 {
            Fixed::zero()
        } else {
            let quarter = Fixed { raw: QUARTER_TURN_RAW };
            let first = if ay.raw <= ax.raw {
                arctangent_unit(ay.div(ax))
            } else {
                quarter.sub(arctangent_unit(ax.div(ay)))
            }.clamp(Fixed::zero(), quarter);
            let upper = if x.raw < 0 {
                Fixed::pi().sub(first)
            } else {
                first
            };
            if self.raw < 0 {
                upper.neg()
            } else {
                upper
            }
        }
    }

    /// The angle, in radians between minus pi and pi, of the direction with
    /// ordinate `self` and abscissa `x`; zero for the direction `(0, 0)`.
    #[verifier::when_used_as_spec(spec_atan2)]
    pub fn atan2(self, x: Fixed) -> (r: Fixed)
        ensures
            r == self.spec_atan2(x),
            -PI_RAW <= r.raw <= PI_RAW,
    {
        let ay = self.abs();
        let ax = x.abs();
        if ay.raw == 0 && ax.raw == 0 {
            Fixed::zero()
        } else {
            let quarter = Fixed { raw: QUARTER_TURN_RAW };
            let first = if ay.raw <= ax.raw {
                arctangent_unit(ay.div(ax))
            } else {
                quarter.sub(arctangent_unit(ax.div(ay)))
            }.clamp(Fixed::zero(), quarter);
            let upper = if x.raw < 0 {
                Fixed::pi().sub(first)
            } else {
                first
            };
            if self.raw < 0 {
                upper.neg()
            } else {
                upper
            }
        }
    }

    pub open spec fn spec_acos(self) -> Fixed {
        let x = self.clamp(Fixed::one().neg(), Fixed::one());
        Fixed::one().sub(x.mul(x)).sqrt().atan2(x)
    }

    /// The angle, in radians between zero and pi, whose cosine is `self`;
    /// arguments beyond minus one and one count as minus one and one.
    #[verifier::when_used_as_spec(spec_acos)]
    pub fn acos(self) -> (r: Fixed)
        ensures
            r == self.spec_acos(),
            0 <= r.raw <= PI_RAW,
    {
        let x = self.clamp(Fixed::one().neg(), Fixed::one());
        Fixed::one().sub(x.mul(x)).sqrt().atan2(x)
    }
}

/// The truncated remainder `t` of `raw` by a full turn, moved up by one turn
/// where it is negative, is the remainder that is never negative.
proof fn lemma_remainder(raw: int, t: int, r: int)
    requires
        raw >= 0 ==> t == raw % (TAU_RAW as int),
        raw < 0 ==> t == -((-raw) % (TAU_RAW as int)),
        r == if t < 0 {
            t + TAU_RAW
        } else {
            t
        },
    ensures
        r == within_turn(raw),
        0 <= r < TAU_RAW,
        0 <= quarter_of(r) <= 3,
        0 <= r - quarter_of(r) * QUARTER_TURN_RAW < QUARTER_TURN_RAW,
{
    let m = TAU_RAW as int;
    if raw < 0 {
        let k = (-raw) / m;
        let rem = (-raw) % m;
        assert(-raw == m * k + rem) by {
            vstd::arithmetic::div_mod::lemma_fundamental_div_mod(-raw, m);
        }
        if rem == 0 {
            assert(raw == m * (-k) + 0);
            vstd::arithmetic::div_mod::lemma_fundamental_div_mod_converse(raw, m, -k, 0);
        } else {
            assert(raw == m * (-k - 1) + (m - rem));
            vstd::arithmetic::div_mod::lemma_fundamental_div_mod_converse(raw, m, -k - 1, m - rem);
        }
    }
    let q = r / (QUARTER_TURN_RAW as int);
    vstd::arithmetic::div_mod::lemma_fundamental_div_mod(r, QUARTER_TURN_RAW as int);
    assert(0 <= q <= 3) by (nonlinear_arith)
        requires
            0 <= r < 6_283_185_307,
            q == r / 1_570_796_327,
    ;
    assert(r == 1_570_796_327 * q + r % 1_570_796_327);
    assert(q * QUARTER_TURN_RAW == 1_570_796_327 * q) by (nonlinear_arith)
        requires
            QUARTER_TURN_RAW == 1_570_796_327,
    ;
}

} // verus!
