//! Points on a Weierstrass elliptic curve `y^2 = x^3 + a*x + b` over a
//! prime field, with the chord-and-tangent group law.
//!
//! A [`Point`] either carries two finite coordinates that satisfy the curve
//! equation, or is the distinguished point at infinity — the group identity.
//! Addition is a case analysis that routes around every zero-denominator
//! configuration before a slope is computed; its exact outcome for every
//! input is pinned by the spec-level model [`Point::spec_add`].

use vstd::arithmetic::div_mod::*;
use vstd::arithmetic::mul::*;
use vstd::arithmetic::power::*;
use vstd::prelude::*;
use vstd::string::StringExecFns;

use crate::fermat::{is_prime, lemma_fermat_little, lemma_prime_zero_divisor};
use crate::field_element::{fadd, fdiv, fmul, fsub, FieldElement};
use crate::render::{dec_digits, decimal_string};
use crate::EccError;

verus! {

/// The curve equation on canonical residues:
/// `y^2 ≡ x^3 + a*x + b (mod p)`.
pub open spec fn on_curve(xn: int, yn: int, an: int, bn: int, p: int) -> bool {
    (yn * yn) % p == (xn * xn * xn + an * xn + bn) % p
}

/// The coordinates produced by the secant-line case: the line through two
/// points with distinct x-coordinates. `s = (y2-y1)/(x2-x1)`,
/// `x3 = s^2 - x1 - x2`, `y3 = s*(x1-x3) - y1`, all in field arithmetic.
pub open spec fn secant_coords(x1: int, y1: int, x2: int, y2: int, p: int) -> (int, int) {
    let s: int = fdiv(fsub(y2, y1, p), fsub(x2, x1, p), p);
    let x3: int = fsub(fsub(fmul(s, s, p), x1, p), x2, p);
    let y3: int = fsub(fmul(s, fsub(x1, x3, p), p), y1, p);
    (x3, y3)
}

/// The coordinates produced by the tangent-line case (doubling a point with
/// a nonzero y-coordinate): `s = (3*x1^2 + a)/(2*y1)`, `x3 = s^2 - 2*x1`,
/// `y3 = s*(x1-x3) - y1`, all in field arithmetic.
pub open spec fn tangent_coords(x1: int, y1: int, an: int, p: int) -> (int, int) {
    let sq: int = fmul(x1, x1, p);
    let s: int = fdiv(fadd(fadd(fadd(sq, sq, p), sq, p), an, p), fadd(y1, y1, p), p);
    let x3: int = fsub(fsub(fmul(s, s, p), x1, p), x1, p);
    let y3: int = fsub(fmul(s, fsub(x1, x3, p), p), y1, p);
    (x3, y3)
}

/// A point of the curve `y^2 = x^3 + a*x + b` over the prime field shared
/// by all four field elements, or the point at infinity (`x` and `y` both
/// absent).
#[derive(Debug, Clone, Copy, PartialEq, Eq)]
pub struct Point {
    /// The curve coefficient `a`.
    pub a: FieldElement,
    /// The curve coefficient `b`.
    pub b: FieldElement,
    /// The x-coordinate, absent for the point at infinity.
    pub x: Option<FieldElement>,
    /// The y-coordinate, absent for the point at infinity.
    pub y: Option<FieldElement>,
}

impl Point {
    /// The representation invariant: all components share one modulus,
    /// the coordinates are either both present and on the curve, or both
    /// absent (the point at infinity).
    pub open spec fn valid(self) -> bool {
        &&& self.a.valid()
        &&& self.b.valid()
        &&& self.a.prime == self.b.prime
        &&& match (self.x, self.y) {
            (Some(xe), Some(ye)) => xe.valid() && ye.valid() && xe.prime == self.a.prime
                && ye.prime == self.a.prime && on_curve(
                xe.num as int,
                ye.num as int,
                self.a.num as int,
                self.b.num as int,
                self.a.prime as int,
            ),
            (None, None) => true,
            _ => false,
        }
    }

    /// Whether this is the group identity, the point at infinity.
    pub open spec fn is_infinity(self) -> bool {
        self.x is None && self.y is None
    }

    /// The display form: the four residues of a finite point in order, or
    /// the word "infinity".
    pub open spec fn spec_render(p: Point) -> Seq<char> {
        match (p.x, p.y) {
            (Some(xe), Some(ye)) => seq!['('] + dec_digits(xe.num as nat) + seq![',', ' ']
                + dec_digits(ye.num as nat) + seq![',', ' '] + dec_digits(p.a.num as nat)
                + seq![',', ' '] + dec_digits(p.b.num as nat) + seq![')'],
            _ => seq!['i', 'n', 'f', 'i', 'n', 'i', 't', 'y'],
        }
    }

    /// The model of construction: components must share one modulus; two
    /// present coordinates must satisfy the curve equation; a single absent
    /// coordinate is rejected; two absent coordinates give the point at
    /// infinity without a membership check.
    pub open spec fn spec_new(
        x: Option<FieldElement>,
        y: Option<FieldElement>,
        a: FieldElement,
        b: FieldElement,
    ) -> Result<Point, EccError> {
        if a.prime != b.prime {
            Err(EccError::FieldMismatch)
        } else {
            match (x, y) {
                (Some(xe), Some(ye)) => {
                    if xe.prime != a.prime || ye.prime != a.prime {
                        Err(EccError::FieldMismatch)
                    } else if !on_curve(
                        xe.num as int,
                        ye.num as int,
                        a.num as int,
                        b.num as int,
                        a.prime as int,
                    ) {
                        Err(EccError::NotOnCurve)
                    } else {
                        Ok(Point { a, b, x, y })
                    }
                },
                (None, None) => Ok(Point { a, b, x: None, y: None }),
                _ => Err(EccError::NotOnCurve),
            }
        }
    }

    /// The model of the group law, the case analysis in its documented
    /// order: curve mismatch; identity; vertical line (additive inverses);
    /// secant line; point of order two; tangent line. The secant and
    /// tangent results run through `spec_new`, re-checking membership.
    pub open spec fn spec_add(p: Point, q: Point) -> Result<Point, EccError> {
        if p.a != q.a || p.b != q.b {
            Err(EccError::CurveMismatch)
        } else if p.x is None {
            Ok(q)
        } else if q.x is None {
            Ok(p)
        } else {
            match (p.x, p.y, q.x, q.y) {
                (Some(x1), Some(y1), Some(x2), Some(y2)) => {
                    let pr: int = p.a.prime as int;
                    if x1.num == x2.num && y1.num != y2.num {
                        Ok(Point { a: p.a, b: p.b, x: None, y: None })
                    } else if x1.num != x2.num {
                        let coords: (int, int) = secant_coords(
                            x1.num as int,
                            y1.num as int,
                            x2.num as int,
                            y2.num as int,
                            pr,
                        );
                        Point::spec_new(
                            Some(FieldElement { num: coords.0 as u64, prime: p.a.prime }),
                            Some(FieldElement { num: coords.1 as u64, prime: p.a.prime }),
                            p.a,
                            p.b,
                        )
                    } else if y1.num == 0 {
                        Ok(Point { a: p.a, b: p.b, x: None, y: None })
                    } else if fadd(y1.num as int, y1.num as int, pr) == 0 {
                        Err(EccError::DivisionByZero)
                    } else {
                        let coords: (int, int) = tangent_coords(
                            x1.num as int,
                            y1.num as int,
                            p.a.num as int,
                            pr,
                        );
                        Point::spec_new(
                            Some(FieldElement { num: coords.0 as u64, prime: p.a.prime }),
                            Some(FieldElement { num: coords.1 as u64, prime: p.a.prime }),
                            p.a,
                            p.b,
                        )
                    }
                },
                _ => Err(EccError::DegenerateCase),
            }
        }
    }
}

/// The chained field operations of the membership check compute exactly the
/// canonical residue of `x^3 + a*x + b`.
proof fn lemma_curve_rhs_chain(xn: int, an: int, bn: int, p: int)
    requires
        0 < p,
        0 <= bn < p,
    ensures
        fadd(fadd(fmul(fmul(xn, xn, p), xn, p), fmul(an, xn, p), p), bn, p) == (xn * xn * xn + an
            * xn + bn) % p,
{
    lemma_mul_mod_noop_left(xn * xn, xn, p);
    lemma_add_mod_noop(xn * xn * xn, an * xn, p);
    lemma_small_mod(bn as nat, p as nat);
    lemma_add_mod_noop(xn * xn * xn + an * xn, bn, p);
}

/// Two distinct canonical residues have a nonzero canonical difference.
proof fn lemma_canonical_difference_nonzero(u: int, v: int, p: int)
    requires
        0 < p,
        0 <= u < p,
        0 <= v < p,
        u != v,
    ensures
        fsub(u, v, p) != 0,
{
    if u > v {
        lemma_small_mod((u - v) as nat, p as nat);
    } else {
        lemma_mod_add_multiples_vanish(u - v, p);
        lemma_small_mod((p + u - v) as nat, p as nat);
    }
}

impl Point {
    /// Constructs a point of the curve `y^2 = x^3 + a*x + b`.
    ///
    /// Two present coordinates are verified against the curve equation
    /// using field operations; a mismatching point is rejected with
    /// `NotOnCurve`. Two absent coordinates give the point at infinity.
    /// Components drawn from different fields are rejected.
    pub fn new(
        x: Option<FieldElement>,
        y: Option<FieldElement>,
        a: FieldElement,
        b: FieldElement,
    ) -> (r: Result<Point, EccError>)
        requires
            a.valid(),
            b.valid(),
            x matches Some(fe) ==> fe.valid(),
            y matches Some(fe) ==> fe.valid(),
        ensures
            r == Self::spec_new(x, y, a, b),
            r matches Ok(pt) ==> pt.valid(),
    {
        if a.prime != b.prime {
            return Err(EccError::FieldMismatch);
        }
        match (x, y) {
            (Some(xe), Some(ye)) => {
                if xe.prime != a.prime || ye.prime != a.prime {
                    return Err(EccError::FieldMismatch);
                }
                let lhs = match ye.multiply(&ye) {
                    Ok(v) => v,
                    Err(e) => return Err(e),
                };
                let xsq = match xe.multiply(&xe) {
                    Ok(v) => v,
                    Err(e) => return Err(e),
                };
                let xcu = match xsq.multiply(&xe) {
                    Ok(v) => v,
                    Err(e) => return Err(e),
                };
                let ax = match a.multiply(&xe) {
                    Ok(v) => v,
                    Err(e) => return Err(e),
                };
                let t = match xcu.field_addition(&ax) {
                    Ok(v) => v,
                    Err(e) => return Err(e),
                };
                let rhs = match t.field_addition(&b) {
                    Ok(v) => v,
                    Err(e) => return Err(e),
                };
                proof {
                    lemma_curve_rhs_chain(
                        xe.num as int,
                        a.num as int,
                        b.num as int,
                        a.prime as int,
                    );
                }
                if lhs.num != rhs.num {
                    return Err(EccError::NotOnCurve);
                }
                Ok(Point { a, b, x, y })
            },
            (None, None) => Ok(Point { a, b, x: None, y: None }),
            _ => Err(EccError::NotOnCurve),
        }
    }

    /// Adds two points under the group law of the curve.
    ///
    /// The case analysis, in order: points of different curves fail with
    /// `CurveMismatch`; the point at infinity is the identity; two points
    /// with equal x- and different y-coordinates are additive inverses and
    /// sum to infinity; distinct x-coordinates take the secant line;
    /// doubling a point with `y = 0` gives infinity (vertical tangent);
    /// doubling any other point takes the tangent line, entirely via field
    /// division. Every other configuration breaks the point invariant.
    pub fn add(&self, other: Point) -> (r: Result<Point, EccError>)
        requires
            self.valid(),
            other.valid(),
        ensures
            r == Self::spec_add(*self, other),
            r matches Ok(pt) ==> pt.valid(),
    {
        if !(self.a == other.a) || !(self.b == other.b) {
            return Err(EccError::CurveMismatch);
        }
        if self.x.is_none() {
            return Ok(other);
        }
        if other.x.is_none() {
            return Ok(*self);
        }
        match (self.x, self.y, other.x, other.y) {
            (Some(x1), Some(y1), Some(x2), Some(y2)) => {
                if x1.num == x2.num && y1.num != y2.num {
                    Ok(Point { a: self.a, b: self.b, x: None, y: None })
                } else if x1.num != x2.num {
                    // Secant line: the denominator x2 - x1 is a nonzero
                    // canonical residue, so the field division succeeds.
                    let dy = match y2.field_subtraction(&y1) {
                        Ok(v) => v,
                        Err(e) => return Err(e),
                    };
                    let dx = match x2.field_subtraction(&x1) {
                        Ok(v) => v,
                        Err(e) => return Err(e),
                    };
                    proof {
                        lemma_canonical_difference_nonzero(
                            x2.num as int,
                            x1.num as int,
                            self.a.prime as int,
                        );
                    }
                    let s = match dy.field_division(&dx) {
                        Ok(v) => v,
                        Err(e) => return Err(e),
                    };
                    let ssq = match s.multiply(&s) {
                        Ok(v) => v,
                        Err(e) => return Err(e),
                    };
                    let t = match ssq.field_subtraction(&x1) {
                        Ok(v) => v,
                        Err(e) => return Err(e),
                    };
                    let x3 = match t.field_subtraction(&x2) {
                        Ok(v) => v,
                        Err(e) => return Err(e),
                    };
                    let run = match x1.field_subtraction(&x3) {
                        Ok(v) => v,
                        Err(e) => return Err(e),
                    };
                    let rise = match s.multiply(&run) {
                        Ok(v) => v,
                        Err(e) => return Err(e),
                    };
                    let y3 = match rise.field_subtraction(&y1) {
                        Ok(v) => v,
                        Err(e) => return Err(e),
                    };
                    Self::new(Some(x3), Some(y3), self.a, self.b)
                } else if y1.num == 0 {
                    // The points are equal and the y-coordinate is zero:
                    // the tangent is vertical, no slope exists.
                    Ok(Point { a: self.a, b: self.b, x: None, y: None })
                } else {
                    // Tangent line: s = (3*x1^2 + a) / (2*y1), where the
                    // scalar multiples are built by field additions. The
                    // division fails only when 2*y1 reduces to zero, which
                    // a field of odd prime order never produces here.
                    let sq = match x1.multiply(&x1) {
                        Ok(v) => v,
                        Err(e) => return Err(e),
                    };
                    let two_sq = match sq.field_addition(&sq) {
                        Ok(v) => v,
                        Err(e) => return Err(e),
                    };
                    let three_sq = match two_sq.field_addition(&sq) {
                        Ok(v) => v,
                        Err(e) => return Err(e),
                    };
                    let numer = match three_sq.field_addition(&self.a) {
                        Ok(v) => v,
                        Err(e) => return Err(e),
                    };
                    let denom = match y1.field_addition(&y1) {
                        Ok(v) => v,
                        Err(e) => return Err(e),
                    };
                    let s = match numer.field_division(&denom) {
                        Ok(v) => v,
                        Err(e) => return Err(e),
                    };
                    let ssq = match s.multiply(&s) {
                        Ok(v) => v,
                        Err(e) => return Err(e),
                    };
                    let t = match ssq.field_subtraction(&x1) {
                        Ok(v) => v,
                        Err(e) => return Err(e),
                    };
                    let x3 = match t.field_subtraction(&x1) {
                        Ok(v) => v,
                        Err(e) => return Err(e),
                    };
                    let run = match x1.field_subtraction(&x3) {
                        Ok(v) => v,
                        Err(e) => return Err(e),
                    };
                    let rise = match s.multiply(&run) {
                        Ok(v) => v,
                        Err(e) => return Err(e),
                    };
                    let y3 = match rise.field_subtraction(&y1) {
                        Ok(v) => v,
                        Err(e) => return Err(e),
                    };
                    Self::new(Some(x3), Some(y3), self.a, self.b)
                }
            },
            _ => Err(EccError::DegenerateCase),
        }
    }

    /// Renders the point: the coordinates and curve coefficients of a
    /// finite point, or the word "infinity" — never a panic.
    pub fn to_string(&self) -> (r: String)
        ensures
            r@ == Self::spec_render(*self),
    {
        match (self.x, self.y) {
            (Some(xe), Some(ye)) => {
                proof {
                    reveal_strlit("(");
                    reveal_strlit(", ");
                    reveal_strlit(")");
                }
                let mut s: String = "(".to_owned();
                let part: String = decimal_string(xe.num);
                s.append(part.as_str());
                s.append(", ");
                let part: String = decimal_string(ye.num);
                s.append(part.as_str());
                s.append(", ");
                let part: String = decimal_string(self.a.num);
                s.append(part.as_str());
                s.append(", ");
                let part: String = decimal_string(self.b.num);
                s.append(part.as_str());
                s.append(")");
                proof {
                    assert(s@ =~= Self::spec_render(*self));
                }
                s
            },
            _ => {
                proof {
                    reveal_strlit("infinity");
                }
                let s: String = "infinity".to_owned();
                proof {
                    assert(s@ =~= Self::spec_render(*self));
                }
                s
            },
        }
    }
}

// ------------------------------------------------------------------
// Laws of the group operation.
// ------------------------------------------------------------------

/// Law (group identity): adding the point at infinity on either side
/// leaves a point unchanged.
pub proof fn lemma_add_identity(p: Point, q: Point)
    requires
        p.valid(),
        q.valid(),
        p.a == q.a,
        p.b == q.b,
        q.is_infinity(),
    ensures
        Point::spec_add(p, q) == Ok::<Point, EccError>(p),
        Point::spec_add(q, p) == Ok::<Point, EccError>(p),
{
    if p.x is None {
        assert(p == q);
    }
}

/// Law (self-inverse): a finite point with `y = 0` is a point of order
/// two — added to itself it yields the point at infinity.
pub proof fn lemma_self_inverse(p: Point)
    requires
        p.valid(),
        p.x is Some,
        p.y matches Some(ye) && ye.num == 0,
    ensures
        Point::spec_add(p, p) == Ok::<Point, EccError>(
            (Point { a: p.a, b: p.b, x: None, y: None }),
        ),
{
}

/// Point addition is symmetric whenever either operand is the point at
/// infinity or the two x-coordinates coincide; no primality is needed for
/// these cases.
proof fn lemma_add_commutes_outside_secant(p: Point, q: Point)
    requires
        p.valid(),
        q.valid(),
        p.a == q.a,
        p.b == q.b,
        p.x is None || q.x is None || (p.x matches Some(x1) && q.x matches Some(x2) && x1.num
            == x2.num),
    ensures
        Point::spec_add(p, q) == Point::spec_add(q, p),
{
    if p.x is None && q.x is None {
        assert(p == q);
    } else if p.x is Some && q.x is Some {
        let x1 = p.x->0;
        let x2 = q.x->0;
        let y1 = p.y->0;
        let y2 = q.y->0;
        if y1.num == y2.num {
            assert(x1 == x2);
            assert(y1 == y2);
            assert(p == q);
        }
    }
}

/// `(-1)^k == -1` for odd `k`.
proof fn lemma_pow_neg_one_odd(k: nat)
    requires
        k % 2 == 1,
    ensures
        pow(-1, k) == -1,
{
    let j: nat = k / 2;
    assert(k == 2 * j + 1);
    lemma_square_is_pow2(-1);
    lemma_pow_multiplies(-1, 2, j);
    lemma1_pow(j);
    assert(pow(-1, 2 * j) == 1);
    lemma_pow_adds(-1, (2 * j) as nat, 1);
    lemma_pow1(-1);
}

/// The slope of the secant line does not depend on the order of the two
/// points: `(y2-y1)/(x2-x1) == (y1-y2)/(x1-x2)`, because both the rise and
/// the inverse-candidate of the run flip sign together (for a modulus that
/// is two or odd — every prime).
proof fn lemma_secant_slope_symmetric(x1: int, y1: int, x2: int, y2: int, p: int)
    requires
        2 <= p,
        p == 2 || p % 2 == 1,
    ensures
        fdiv(fsub(y2, y1, p), fsub(x2, x1, p), p) == fdiv(fsub(y1, y2, p), fsub(x1, x2, p), p),
        fdiv(fsub(y2, y1, p), fsub(x2, x1, p), p) == ((y2 - y1) * pow(x2 - x1, (p - 2) as nat))
            % p,
{
    let t: int = y2 - y1;
    let d: int = x2 - x1;
    let k: nat = (p - 2) as nat;
    // Strip the inner reductions: each side is (±t * pow(±d, k)) % p.
    lemma_pow_mod_noop(d, k, p);
    lemma_pow_mod_noop(-d, k, p);
    lemma_mul_mod_noop_general(t, pow(d % p, k) % p, p);
    lemma_mul_mod_noop_general(t, pow(d % p, k), p);
    lemma_mul_mod_noop_general(t, pow(d, k), p);
    assert(fdiv(fsub(y2, y1, p), fsub(x2, x1, p), p) == (t * pow(d, k)) % p);
    lemma_mul_mod_noop_general(-t, pow(-d % p, k) % p, p);
    lemma_mul_mod_noop_general(-t, pow(-d % p, k), p);
    lemma_mul_mod_noop_general(-t, pow(-d, k), p);
    assert(fdiv(fsub(y1, y2, p), fsub(x1, x2, p), p) == (-t * pow(-d, k)) % p);
    if p == 2 {
        // The exponent p - 2 is zero, so both inverse-candidates are one,
        // and -t and t agree modulo 2.
        lemma_pow0(d);
        lemma_pow0(-d);
        assert(-t * 1 == -t);
        assert(t * 1 == t);
        lemma_mod_multiples_vanish(-t, t, 2);
        assert((-t) % 2 == t % 2);
    } else {
        // The exponent p - 2 is odd, so pow(-d, k) == -pow(d, k), and the
        // two sign flips cancel in the product.
        assert(k % 2 == 1) by {
            lemma_fundamental_div_mod(p, 2);
            lemma_fundamental_div_mod_converse_mod(p - 2, 2, p / 2 - 1, 1);
        }
        lemma_pow_distributes(-1, d, k);
        lemma_pow_neg_one_odd(k);
        assert(pow(-d, k) == -1 * pow(d, k)) by {
            assert(-1 * d == -d);
        }
        assert(-t * (-1 * pow(d, k)) == t * pow(d, k)) by {
            lemma_mul_is_associative(-t, -1, pow(d, k));
        }
    }
}

/// For a modulus that is two or odd, the secant construction yields the
/// same x-coordinate in either order of the two points.
proof fn lemma_secant_x_symmetric(x1: int, y1: int, x2: int, y2: int, p: int)
    requires
        2 <= p,
        p == 2 || p % 2 == 1,
    ensures
        secant_coords(x1, y1, x2, y2, p).0 == secant_coords(x2, y2, x1, y1, p).0,
{
    lemma_secant_slope_symmetric(x1, y1, x2, y2, p);
    let s: int = fdiv(fsub(y2, y1, p), fsub(x2, x1, p), p);
    let ssq: int = fmul(s, s, p);
    // Both orders compute (s*s - x1 - x2) % p, peeling one residue at a time.
    lemma_sub_mod_noop(s * s, x1, p);
    lemma_sub_mod_noop_right(ssq, x1, p);
    lemma_sub_mod_noop(s * s, x2, p);
    lemma_sub_mod_noop_right(ssq, x2, p);
    lemma_sub_mod_noop(s * s - x1, x2, p);
    lemma_sub_mod_noop_right(fsub(ssq, x1, p), x2, p);
    lemma_sub_mod_noop(s * s - x2, x1, p);
    lemma_sub_mod_noop_right(fsub(ssq, x2, p), x1, p);
    assert(fsub(fsub(ssq, x1, p), x2, p) == (s * s - x1 - x2) % p);
    assert(fsub(fsub(ssq, x2, p), x1, p) == (s * s - x2 - x1) % p);
}

/// Over a prime modulus the secant construction is symmetric in both
/// coordinates: the slope times the run gives back the rise, by Fermat's
/// little theorem applied to the run.
proof fn lemma_secant_coords_symmetric(x1: int, y1: int, x2: int, y2: int, p: int)
    requires
        is_prime(p),
        0 <= x1 < p,
        0 <= y1 < p,
        0 <= x2 < p,
        0 <= y2 < p,
        x1 != x2,
    ensures
        secant_coords(x1, y1, x2, y2, p) == secant_coords(x2, y2, x1, y1, p),
{
    let t: int = y2 - y1;
    let d: int = x2 - x1;
    let k: nat = (p - 2) as nat;
    assert(p == 2 || p % 2 == 1) by {
        if p != 2 {
            assert(p % 2 != 0);
        }
    }
    lemma_secant_slope_symmetric(x1, y1, x2, y2, p);
    lemma_secant_x_symmetric(x1, y1, x2, y2, p);
    let s: int = fdiv(fsub(y2, y1, p), fsub(x2, x1, p), p);
    let x3: int = secant_coords(x1, y1, x2, y2, p).0;
    // The slope times the run is congruent to the rise: s * d ≡ t.
    assert((s * d) % p == t % p) by {
        assert(s == (t * pow(d, k)) % p);
        lemma_mul_mod_noop_left(t * pow(d, k), d, p);
        assert(t * pow(d, k) * d == t * pow(d, (k + 1) as nat)) by {
            lemma_pow_adds(d, k, 1);
            lemma_pow1(d);
            lemma_mul_is_associative(t, pow(d, k), d);
        }
        // Fermat's little theorem on the canonical residue of the run.
        let dr: int = d % p;
        lemma_mod_bound(d, p);
        lemma_canonical_difference_nonzero(x2, x1, p);
        assert(dr == fsub(x2, x1, p));
        lemma_fermat_little(p, dr);
        lemma_pow_mod_noop(d, (k + 1) as nat, p);
        assert(pow(d, (k + 1) as nat) % p == 1);
        lemma_mul_mod_noop_right(t, pow(d, (k + 1) as nat), p);
        assert(t * 1 == t);
    }
    // Both y-coordinates reduce the same integer expression.
    let a1: int = s * (x1 - x3) - y1;
    let a2: int = s * (x2 - x3) - y2;
    assert(a1 - a2 == t - s * d) by (nonlinear_arith)
        requires
            t == y2 - y1,
            d == x2 - x1,
            a1 == s * (x1 - x3) - y1,
            a2 == s * (x2 - x3) - y2,
    ;
    lemma_mod_equivalence(t, s * d, p);
    lemma_mod_equivalence(a1, a2, p);
    assert(a1 % p == a2 % p);
    // Peel the staged reductions of each y-coordinate down to a1 and a2.
    lemma_mul_mod_noop_right(s, x1 - x3, p);
    lemma_mul_mod_noop_right(s, x2 - x3, p);
    lemma_sub_mod_noop(s * (x1 - x3), y1, p);
    lemma_sub_mod_noop_right(fmul(s, fsub(x1, x3, p), p), y1, p);
    lemma_sub_mod_noop(s * (x2 - x3), y2, p);
    lemma_sub_mod_noop_right(fmul(s, fsub(x2, x3, p), p), y2, p);
    assert(fsub(fmul(s, fsub(x1, x3, p), p), y1, p) == a1 % p);
    assert(fsub(fmul(s, fsub(x2, x3, p), p), y2, p) == a2 % p);
}

/// Law (membership round-trip): coordinates that satisfy the curve
/// equation are accepted, and over a prime modulus, perturbing the
/// y-coordinate by any nonzero field element drives construction to
/// `NotOnCurve` — except by the one perturbation `-2y` that lands on the
/// opposite point, which the requires leaves out.
pub proof fn lemma_membership_perturbation(
    xe: FieldElement,
    ye: FieldElement,
    d: FieldElement,
    a: FieldElement,
    b: FieldElement,
)
    requires
        a.valid(),
        b.valid(),
        xe.valid(),
        ye.valid(),
        d.valid(),
        xe.prime == a.prime,
        ye.prime == a.prime,
        d.prime == a.prime,
        b.prime == a.prime,
        is_prime(a.prime as int),
        on_curve(xe.num as int, ye.num as int, a.num as int, b.num as int, a.prime as int),
        d.num != 0,
        fadd(ye.num as int + ye.num as int, d.num as int, a.prime as int) != 0,
    ensures
        Point::spec_new(Some(xe), Some(ye), a, b) == Ok::<Point, EccError>(
            (Point { a, b, x: Some(xe), y: Some(ye) }),
        ),
        Point::spec_new(
            Some(xe),
            Some(
                (FieldElement {
                    num: fadd(ye.num as int, d.num as int, a.prime as int) as u64,
                    prime: a.prime,
                }),
            ),
            a,
            b,
        ) == Err::<Point, EccError>(EccError::NotOnCurve),
{
    let p: int = a.prime as int;
    let y: int = ye.num as int;
    let dd: int = d.num as int;
    lemma_mod_bound(y + dd, p);
    let yv: int = (y + dd) % p;
    if on_curve(xe.num as int, yv, a.num as int, b.num as int, p) {
        // The perturbed square agrees with the original square ...
        lemma_mul_mod_noop(y + dd, y + dd, p);
        assert((y + dd) * (y + dd) == y * y + (2 * y + dd) * dd) by (nonlinear_arith);
        lemma_mod_equivalence(y * y + (2 * y + dd) * dd, y * y, p);
        assert(((2 * y + dd) * dd) % p == 0);
        // ... so the prime divides the perturbation times `2y + d`; the
        // perturbation is a nonzero residue, so `2y + d` vanishes — which
        // the preconditions exclude.
        lemma_mul_is_commutative(2 * y + dd, dd);
        lemma_prime_zero_divisor(p, dd, 2 * y + dd);
        assert(fadd(y + y, dd, p) == 0);
        assert(false);
    }
}

/// Law (commutativity): over a prime modulus, `P + Q == Q + P` for all
/// valid points of one curve.
pub proof fn lemma_add_commutative(p: Point, q: Point)
    requires
        p.valid(),
        q.valid(),
        p.a == q.a,
        p.b == q.b,
        is_prime(p.a.prime as int),
    ensures
        Point::spec_add(p, q) == Point::spec_add(q, p),
{
    if p.x is None || q.x is None {
        lemma_add_commutes_outside_secant(p, q);
    } else {
        let x1 = p.x->0;
        let x2 = q.x->0;
        let y1 = p.y->0;
        let y2 = q.y->0;
        if x1.num == x2.num {
            lemma_add_commutes_outside_secant(p, q);
        } else {
            lemma_secant_coords_symmetric(
                x1.num as int,
                y1.num as int,
                x2.num as int,
                y2.num as int,
                p.a.prime as int,
            );
        }
    }
}

} // verus!
