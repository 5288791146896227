//! Arithmetic in the residue field Z/pZ.
//!
//! A [`FieldElement`] holds one canonical residue `num` in `[0, prime)`.
//! The modulus is assumed prime by the caller (a documented precondition,
//! not verified here); every operation keeps residues canonical, and the
//! exact value of each result is pinned by a spec-level model of the
//! field arithmetic.

use vstd::arithmetic::div_mod::*;
use vstd::arithmetic::mul::*;
use vstd::arithmetic::power::*;
use vstd::prelude::*;

use crate::fermat::{is_prime, lemma_fermat_little};
use crate::render::{dec_digits, decimal_string};
use crate::EccError;

verus! {

// ------------------------------------------------------------------
// Spec-level model of arithmetic on canonical residues.
// In spec code `%` is the Euclidean remainder, so each of these yields
// a value in `[0, p)` whenever `p > 0`.
// ------------------------------------------------------------------

/// Field addition: `(x + y) mod p`.
pub open spec fn fadd(x: int, y: int, p: int) -> int {
    (x + y) % p
}

/// Field subtraction: `(x - y) mod p`.
pub open spec fn fsub(x: int, y: int, p: int) -> int {
    (x - y) % p
}

/// Field multiplication: `(x * y) mod p`.
pub open spec fn fmul(x: int, y: int, p: int) -> int {
    (x * y) % p
}

/// The multiplicative-inverse candidate `x^(p-2) mod p`.
///
/// By Fermat's little theorem this is the inverse of a nonzero `x`
/// whenever `p` is prime.
pub open spec fn finv(x: int, p: int) -> int {
    pow(x, (p - 2) as nat) % p
}

/// Field division: multiplication by the inverse candidate.
pub open spec fn fdiv(x: int, y: int, p: int) -> int {
    fmul(x, finv(y, p), p)
}

/// The product of a sequence of raw residues, as a mathematical integer.
pub open spec fn residue_product(s: Seq<i128>) -> int
    decreases s.len(),
{
    if s.len() == 0 {
        1
    } else {
        residue_product(s.drop_last()) * s.last()
    }
}

/// One residue of the field Z/pZ.
#[derive(Debug, Clone, Copy, PartialEq, Eq, Structural)]
pub struct FieldElement {
    /// The canonical residue, in `[0, prime)`.
    pub num: u64,
    /// The field modulus, assumed prime by the caller.
    pub prime: u64,
}

impl FieldElement {
    /// The representation invariant: the modulus admits a field and the
    /// residue is canonical.
    pub open spec fn valid(self) -> bool {
        &&& 2 <= self.prime
        &&& self.num < self.prime
    }

    /// The model of construction: a modulus below two cannot host a field,
    /// a residue at or above the modulus is rejected rather than silently
    /// wrapped, and any smaller (possibly negative) integer is reduced into
    /// `[0, prime)`.
    pub open spec fn spec_new(num: int, prime: u64) -> Result<FieldElement, EccError> {
        if prime < 2 {
            Err(EccError::OutOfRange)
        } else if num >= prime {
            Err(EccError::OutOfRange)
        } else {
            Ok(FieldElement { num: (num % (prime as int)) as u64, prime })
        }
    }

    /// The model of addition: residues must share the modulus.
    pub open spec fn spec_addition(a: FieldElement, b: FieldElement) -> Result<
        FieldElement,
        EccError,
    > {
        if a.prime != b.prime {
            Err(EccError::FieldMismatch)
        } else {
            Ok(
                FieldElement {
                    num: fadd(a.num as int, b.num as int, a.prime as int) as u64,
                    prime: a.prime,
                },
            )
        }
    }

    /// The model of subtraction.
    pub open spec fn spec_subtraction(a: FieldElement, b: FieldElement) -> Result<
        FieldElement,
        EccError,
    > {
        if a.prime != b.prime {
            Err(EccError::FieldMismatch)
        } else {
            Ok(
                FieldElement {
                    num: fsub(a.num as int, b.num as int, a.prime as int) as u64,
                    prime: a.prime,
                },
            )
        }
    }

    /// The model of multiplication of two residues.
    pub open spec fn spec_multiply(a: FieldElement, b: FieldElement) -> Result<
        FieldElement,
        EccError,
    > {
        if a.prime != b.prime {
            Err(EccError::FieldMismatch)
        } else {
            Ok(
                FieldElement {
                    num: fmul(a.num as int, b.num as int, a.prime as int) as u64,
                    prime: a.prime,
                },
            )
        }
    }

    /// The model of division: dividing by the additive identity fails.
    pub open spec fn spec_division(a: FieldElement, b: FieldElement) -> Result<
        FieldElement,
        EccError,
    > {
        if a.prime != b.prime {
            Err(EccError::FieldMismatch)
        } else if b.num == 0 {
            Err(EccError::DivisionByZero)
        } else {
            Ok(
                FieldElement {
                    num: fdiv(a.num as int, b.num as int, a.prime as int) as u64,
                    prime: a.prime,
                },
            )
        }
    }

    /// The model of a running product: every entry must lie below the
    /// modulus, and the result is the canonical residue of the whole product.
    pub open spec fn spec_multiplication(a: FieldElement, s: Seq<i128>) -> Result<u64, EccError> {
        if exists|i: int| 0 <= i < s.len() && s[i] >= a.prime {
            Err(EccError::FieldMismatch)
        } else {
            Ok(((a.num as int * residue_product(s)) % (a.prime as int)) as u64)
        }
    }

    /// The residue of exponentiation: the exponent is first reduced into
    /// `[0, prime - 1)`, computing in the multiplicative group of order
    /// `prime - 1`, so negative exponents wrap correctly.
    pub open spec fn spec_power_num(a: FieldElement, exponent: int) -> int {
        pow(a.num as int, (exponent % (a.prime - 1) as int) as nat) % (a.prime as int)
    }
}

// ------------------------------------------------------------------
// Executable modular arithmetic, verified against the model above.
// All intermediate products are computed in 128 bits, which is wide
// enough to hold the square of any 64-bit residue.
// ------------------------------------------------------------------

/// Reduces an arbitrary (possibly negative) integer into `[0, m)`.
fn reduce_i128(n: i128, m: u64) -> (r: u64)
    requires
        1 <= m,
    ensures
        r as int == n as int % m as int,
        r < m,
{
    proof {
        lemma_mod_bound(n as int, m as int);
    }
    if n >= 0 {
        let r128: u128 = (n as u128) % (m as u128);
        r128 as u64
    } else {
        // `-(n + 1)` avoids overflow when `n` is the smallest i128 value.
        let mag: u128 = ((-(n + 1)) as u128) + 1;
        let rem: u128 = mag % (m as u128);
        proof {
            assert(mag as int == -(n as int));
            lemma_fundamental_div_mod(mag as int, m as int);
            lemma_mod_bound(mag as int, m as int);
            let q: int = mag as int / m as int;
            let r0: int = mag as int % m as int;
            assert(mag as int == m as int * q + r0);
            assert((m as int) * (-q) == -((m as int) * q)) by {
                lemma_mul_unary_negation(m as int, q);
                lemma_mul_is_commutative(m as int, -q);
                lemma_mul_is_commutative(m as int, q);
            }
            if r0 == 0 {
                assert(n as int == m as int * (-q) + 0);
                lemma_mod_multiples_vanish(-q, 0, m as int);
                assert(n as int % m as int == 0);
            } else {
                assert(n as int == m as int * (-q - 1) + (m as int - r0)) by {
                    lemma_mul_is_distributive_sub(m as int, -q, 1);
                }
                lemma_mod_multiples_vanish(-q - 1, m as int - r0, m as int);
                lemma_small_mod((m as int - r0) as nat, m as nat);
                assert(n as int % m as int == m as int - r0);
            }
        }
        if rem == 0 {
            0u64
        } else {
            (m as u128 - rem) as u64
        }
    }
}

/// `(x * y) mod m`, with the product held in 128 bits.
fn mul_mod(x: u64, y: u64, m: u64) -> (r: u64)
    requires
        1 <= m,
    ensures
        r as int == fmul(x as int, y as int, m as int),
        r < m,
{
    proof {
        lemma_mul_upper_bound(x as int, 0xffffffffffffffff, y as int, 0xffffffffffffffff);
        lemma_mod_bound(x as int * y as int, m as int);
    }
    let prod: u128 = (x as u128) * (y as u128);
    let r128: u128 = prod % (m as u128);
    r128 as u64
}

/// `(x + y) mod m`, with the sum held in 128 bits.
fn add_mod(x: u64, y: u64, m: u64) -> (r: u64)
    requires
        1 <= m,
    ensures
        r as int == fadd(x as int, y as int, m as int),
        r < m,
{
    proof {
        lemma_mod_bound(x as int + y as int, m as int);
    }
    let s: u128 = x as u128 + y as u128;
    let r128: u128 = s % (m as u128);
    r128 as u64
}

/// `(x - y) mod m` for canonical residues, normalized non-negative.
fn sub_mod(x: u64, y: u64, m: u64) -> (r: u64)
    requires
        1 <= m,
        x < m,
        y < m,
    ensures
        r as int == fsub(x as int, y as int, m as int),
        r < m,
{
    proof {
        lemma_mod_add_multiples_vanish(x as int - y as int, m as int);
        lemma_mod_bound(x as int - y as int, m as int);
    }
    let s: u64 = ((x as u128 + m as u128 - y as u128) % (m as u128)) as u64;
    s
}

/// Modular exponentiation by square-and-multiply: iterate over the
/// exponent's bits, squaring the running base each step and multiplying the
/// accumulator by the current base whenever the low bit is set; every product
/// is reduced modulo `modulus` at once, so no intermediate value outgrows
/// 128 bits.
pub fn mod_exp(base: u64, exp: u64, modulus: u64) -> (r: u64)
    requires
        2 <= modulus,
    ensures
        r as int == pow(base as int, exp as nat) % (modulus as int),
        r < modulus,
{
    let m: u64 = modulus;
    let mut result: u64 = 1;
    let mut b: u64 = base % m;
    let mut e: u64 = exp;
    proof {
        lemma_pow_mod_noop(base as int, exp as nat, m as int);
        lemma_mod_bound(base as int, m as int);
    }
    while e > 0
        invariant
            2 <= m,
            result < m,
            b < m,
            (result as int * pow(b as int, e as nat)) % (m as int) == pow(
                base as int,
                exp as nat,
            ) % (m as int),
        decreases e,
    {
        let ghost gr: int = result as int;
        let ghost gb: int = b as int;
        let ghost ge: nat = e as nat;
        let ghost gm: int = m as int;
        let odd: bool = e % 2 == 1;
        if odd {
            result = mul_mod(result, b, m);
        }
        b = mul_mod(b, b, m);
        e = e / 2;
        proof {
            let eh: nat = ge / 2;
            assert(e as nat == eh);
            // pow(gb, 2*eh) == pow(gb * gb, eh)
            lemma_square_is_pow2(gb);
            lemma_pow_multiplies(gb, 2, eh);
            assert(pow(gb * gb, eh) == pow(gb, 2 * eh));
            // Replacing the squared base by its residue leaves the overall
            // residue unchanged.
            lemma_pow_mod_noop(gb * gb, eh, gm);
            assert(pow(b as int, eh) % gm == pow(gb * gb, eh) % gm);
            if odd {
                assert(ge == 2 * eh + 1);
                // pow(gb, ge) == gb * pow(gb, 2*eh), splitting off one factor.
                assert(pow(gb, ge) == gb * pow(gb, (ge - 1) as nat)) by {
                    lemma_pow_adds(gb, 1, (ge - 1) as nat);
                    lemma_pow1(gb);
                }
                assert((result as int * pow(b as int, e as nat)) % gm == (gr * pow(gb, ge)) % gm)
                    by {
                    lemma_mul_mod_noop_left(gr * gb, pow(b as int, eh), gm);
                    lemma_mul_mod_noop_right(gr * gb, pow(b as int, eh), gm);
                    lemma_mul_mod_noop_right(gr * gb, pow(gb * gb, eh), gm);
                    assert((gr * gb) * pow(gb * gb, eh) == gr * pow(gb, ge)) by {
                        lemma_mul_is_associative(gr, gb, pow(gb * gb, eh));
                    }
                }
            } else {
                assert(ge == 2 * eh);
                assert((result as int * pow(b as int, e as nat)) % gm == (gr * pow(gb, ge)) % gm)
                    by {
                    lemma_mul_mod_noop_right(gr, pow(b as int, eh), gm);
                    lemma_mul_mod_noop_right(gr, pow(gb * gb, eh), gm);
                }
            }
        }
    }
    proof {
        lemma_pow0(b as int);
        lemma_small_mod(result as nat, m as nat);
    }
    result
}

impl FieldElement {
    /// Constructs the canonical residue of `num` modulo `prime`.
    ///
    /// A modulus below two, or a residue at or above the modulus, is
    /// rejected with `OutOfRange`; any smaller integer (negative values
    /// included) is reduced into `[0, prime)`.
    pub fn new(num: i128, prime: u64) -> (r: Result<FieldElement, EccError>)
        ensures
            r == Self::spec_new(num as int, prime),
            r matches Ok(fe) ==> fe.valid() && fe.prime == prime,
    {
        if prime < 2 {
            return Err(EccError::OutOfRange);
        }
        if num >= prime as i128 {
            return Err(EccError::OutOfRange);
        }
        let reduced: u64 = reduce_i128(num, prime);
        Ok(FieldElement { num: reduced, prime })
    }

    /// Adds two residues of the same field: `(a + b) mod prime`,
    /// normalized non-negative.
    pub fn field_addition(&self, other: &FieldElement) -> (r: Result<FieldElement, EccError>)
        requires
            self.valid(),
            other.valid(),
        ensures
            r == Self::spec_addition(*self, *other),
            r matches Ok(fe) ==> fe.valid() && fe.prime == self.prime,
    {
        if self.prime != other.prime {
            return Err(EccError::FieldMismatch);
        }
        let num: u64 = add_mod(self.num, other.num, self.prime);
        Ok(FieldElement { num, prime: self.prime })
    }

    /// Subtracts two residues of the same field: `(a - b) mod prime`,
    /// normalized non-negative.
    pub fn field_subtraction(&self, other: &FieldElement) -> (r: Result<FieldElement, EccError>)
        requires
            self.valid(),
            other.valid(),
        ensures
            r == Self::spec_subtraction(*self, *other),
            r matches Ok(fe) ==> fe.valid() && fe.prime == self.prime,
    {
        if self.prime != other.prime {
            return Err(EccError::FieldMismatch);
        }
        let num: u64 = sub_mod(self.num, other.num, self.prime);
        Ok(FieldElement { num, prime: self.prime })
    }

    /// Multiplies two residues of the same field: `(a * b) mod prime`.
    pub fn multiply(&self, other: &FieldElement) -> (r: Result<FieldElement, EccError>)
        requires
            self.valid(),
            other.valid(),
        ensures
            r == Self::spec_multiply(*self, *other),
            r matches Ok(fe) ==> fe.valid() && fe.prime == self.prime,
    {
        if self.prime != other.prime {
            return Err(EccError::FieldMismatch);
        }
        let num: u64 = mul_mod(self.num, other.num, self.prime);
        Ok(FieldElement { num, prime: self.prime })
    }

    /// Divides two residues of the same field, via Fermat's little theorem:
    /// `a * b^(prime-2) mod prime`, where modular exponentiation stands in
    /// for the modular inverse. Dividing by the zero residue fails.
    pub fn field_division(&self, other: &FieldElement) -> (r: Result<FieldElement, EccError>)
        requires
            self.valid(),
            other.valid(),
        ensures
            r == Self::spec_division(*self, *other),
            r matches Ok(fe) ==> fe.valid() && fe.prime == self.prime,
    {
        if self.prime != other.prime {
            return Err(EccError::FieldMismatch);
        }
        if other.num == 0 {
            return Err(EccError::DivisionByZero);
        }
        let inverse: u64 = mod_exp(other.num, self.prime - 2, self.prime);
        let num: u64 = mul_mod(self.num, inverse, self.prime);
        Ok(FieldElement { num, prime: self.prime })
    }

    /// Multiplies this residue by a list of raw integers, reducing modulo
    /// the field's modulus at every step so no intermediate product can
    /// overflow. Every entry must lie below the modulus; negative entries
    /// are reduced into range.
    pub fn field_multiplication(&self, numbers: &Vec<i128>) -> (r: Result<u64, EccError>)
        requires
            self.valid(),
        ensures
            r == Self::spec_multiplication(*self, numbers@),
            r matches Ok(res) ==> res < self.prime,
    {
        let ghost p: int = self.prime as int;
        let mut res: u64 = self.num;
        let mut i: usize = 0;
        proof {
            assert(numbers@.take(0) =~= Seq::<i128>::empty());
            lemma_small_mod(self.num as nat, self.prime as nat);
        }
        while i < numbers.len()
            invariant
                self.valid(),
                p == self.prime as int,
                i <= numbers.len(),
                res < self.prime,
                res as int == (self.num as int * residue_product(numbers@.take(i as int))) % p,
                forall|j: int| 0 <= j < i ==> numbers@[j] < self.prime,
            decreases numbers.len() - i,
        {
            let n: i128 = numbers[i];
            if n >= self.prime as i128 {
                return Err(EccError::FieldMismatch);
            }
            let ghost old_res: int = res as int;
            let ghost prefix: Seq<i128> = numbers@.take(i as int);
            let reduced: u64 = reduce_i128(n, self.prime);
            res = mul_mod(res, reduced, self.prime);
            proof {
                let longer: Seq<i128> = numbers@.take(i as int + 1);
                assert(longer.drop_last() =~= prefix);
                assert(longer.last() == n);
                assert(residue_product(longer) == residue_product(prefix) * n);
                // Fold the two staged reductions into one overall residue.
                lemma_mul_mod_noop_right(old_res, n as int, p);
                lemma_mul_mod_noop_left(
                    self.num as int * residue_product(prefix),
                    n as int,
                    p,
                );
                assert((self.num as int * residue_product(prefix)) * (n as int) == self.num as int
                    * residue_product(longer)) by {
                    lemma_mul_is_associative(
                        self.num as int,
                        residue_product(prefix),
                        n as int,
                    );
                }
            }
            i = i + 1;
        }
        proof {
            assert(numbers@.take(numbers@.len() as int) =~= numbers@);
        }
        Ok(res)
    }

    /// Raises this residue to an integer exponent. The exponent is first
    /// reduced into `[0, prime - 1)` — computing in the multiplicative group
    /// of order `prime - 1`, so negative exponents wrap correctly — and the
    /// power is then taken by square-and-multiply.
    pub fn field_power(&self, exponent: i128) -> (r: Result<FieldElement, EccError>)
        requires
            self.valid(),
        ensures
            r matches Ok(fe) && fe.valid() && fe.prime == self.prime && fe.num as int
                == Self::spec_power_num(*self, exponent as int),
    {
        let n: u64 = reduce_i128(exponent, self.prime - 1);
        let num: u64 = mod_exp(self.num, n, self.prime);
        proof {
            lemma_small_mod(num as nat, self.prime as nat);
        }
        Self::new(num as i128, self.prime)
    }

    /// Renders the residue in decimal; the display form of a field element.
    pub fn to_string(&self) -> (r: String)
        ensures
            r@ == dec_digits(self.num as nat),
    {
        decimal_string(self.num)
    }
}

// ------------------------------------------------------------------
// Laws of the field operations.
// ------------------------------------------------------------------

/// Law: every residue has an additive inverse — `a + (prime - a) ≡ 0`.
pub proof fn lemma_additive_inverse(a: FieldElement)
    requires
        a.valid(),
    ensures
        fadd(
            a.num as int,
            (a.prime as int - a.num as int) % (a.prime as int),
            a.prime as int,
        ) == 0,
{
    let p: int = a.prime as int;
    if a.num == 0 {
        lemma_mod_self_0(p);
        assert((p - 0) % p == 0);
        assert(fadd(0, 0, p) == 0) by {
            lemma_small_mod(0, p as nat);
        }
    } else {
        lemma_small_mod((p - a.num as int) as nat, p as nat);
        lemma_mod_self_0(p);
        assert(a.num as int + (p - a.num as int) == p);
    }
}

/// Law (Fermat wraparound): raising any nonzero residue to the power
/// `prime - 1` yields one, because exponents are reduced modulo `prime - 1`.
pub proof fn lemma_fermat_wraparound(a: FieldElement)
    requires
        a.valid(),
        a.num != 0,
    ensures
        FieldElement::spec_power_num(a, a.prime as int - 1) == 1,
{
    let p: int = a.prime as int;
    lemma_mod_self_0(p - 1);
    assert((p - 1) % (p - 1) == 0);
    lemma_pow0(a.num as int);
    lemma_small_mod(1, p as nat);
}

/// Law (multiplicative inverse): over a prime modulus, every nonzero
/// residue times its inverse `a^(prime - 2)` is one — Fermat's little
/// theorem, proved in full in this crate.
pub proof fn lemma_multiplicative_inverse(a: FieldElement)
    requires
        a.valid(),
        a.num != 0,
        is_prime(a.prime as int),
    ensures
        fmul(
            a.num as int,
            FieldElement::spec_power_num(a, a.prime as int - 2),
            a.prime as int,
        ) == 1,
{
    let p: int = a.prime as int;
    let k: nat = (p - 2) as nat;
    lemma_small_mod(k, (p - 1) as nat);
    assert((p - 2) % (p - 1) == p - 2);
    lemma_fermat_little(p, a.num as int);
    lemma_mul_mod_noop_right(a.num as int, pow(a.num as int, k), p);
}

/// Law (division consistency): dividing by `b` agrees with multiplying by
/// `b` raised to the exponent `-1`, which wraps to `prime - 2`.
pub proof fn lemma_division_consistency(a: FieldElement, b: FieldElement)
    requires
        a.valid(),
        b.valid(),
        a.prime == b.prime,
        b.num != 0,
    ensures
        fdiv(a.num as int, b.num as int, a.prime as int) == fmul(
            a.num as int,
            FieldElement::spec_power_num(b, -1),
            a.prime as int,
        ),
{
    let p: int = a.prime as int;
    // (-1) mod (p - 1) is exactly p - 2, the exponent division uses.
    lemma_fundamental_div_mod_converse_mod(-1, p - 1, -1, p - 2);
    assert((-1int) % (p - 1) == p - 2);
}

} // verus!
