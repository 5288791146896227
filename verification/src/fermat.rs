//! Fermat's little theorem: over a prime modulus `p`, every residue `a`
//! with `1 <= a < p` satisfies `a^(p-1) ≡ 1 (mod p)`.
//!
//! This is the fact that lets modular exponentiation by `p - 2` stand in
//! for the modular inverse in field division. The proof is the classic
//! permutation argument: multiplication by `a` permutes the nonzero
//! residues, so the product of `a*1, a*2, ..., a*(p-1)` — which is
//! `a^(p-1) * (p-1)!` — agrees with `(p-1)!` modulo `p`, and the factorial
//! cancels because it is not divisible by `p`.

use vstd::arithmetic::div_mod::*;
use vstd::arithmetic::mul::*;
use vstd::arithmetic::power::*;
use vstd::prelude::*;
use vstd::seq_lib::*;
use vstd::set_lib::*;

verus! {

/// A prime modulus: at least two, with no divisor strictly between one
/// and itself.
pub open spec fn is_prime(p: int) -> bool {
    &&& 2 <= p
    &&& forall|d: int| 2 <= d < p ==> #[trigger] (p % d) != 0
}

/// If a prime divides a product and not the first factor (a residue),
/// it divides the second — by descent on the first factor.
pub proof fn lemma_prime_zero_divisor(p: int, a: int, b: int)
    requires
        is_prime(p),
        1 <= a < p,
        (a * b) % p == 0,
    ensures
        b % p == 0,
    decreases a,
{
    if a == 1 {
        assert(1 * b == b);
    } else {
        lemma_fundamental_div_mod(p, a);
        lemma_mod_bound(p, a);
        let q: int = p / a;
        let r: int = p % a;
        assert(r != 0);
        lemma_fundamental_div_mod(a * b, p);
        let k: int = (a * b) / p;
        assert(a * b == p * k);
        assert(r * b == p * (b - q * k)) by (nonlinear_arith)
            requires
                p == a * q + r,
                a * b == p * k,
        ;
        assert((r * b) % p == 0) by {
            lemma_mod_multiples_basic(b - q * k, p);
            lemma_mul_is_commutative(b - q * k, p);
        }
        lemma_prime_zero_divisor(p, r, b);
    }
}

/// Multiplication by a fixed nonzero residue is injective on canonical
/// residues.
proof fn lemma_mod_mul_cancel(p: int, a: int, x: int, y: int)
    requires
        is_prime(p),
        1 <= a < p,
        0 <= x < p,
        0 <= y < p,
        (a * x) % p == (a * y) % p,
    ensures
        x == y,
{
    if x > y {
        lemma_mod_equivalence(a * x, a * y, p);
        assert(a * x - a * y == a * (x - y)) by (nonlinear_arith);
        lemma_prime_zero_divisor(p, a, x - y);
        lemma_small_mod((x - y) as nat, p as nat);
    } else if y > x {
        lemma_mod_equivalence(a * y, a * x, p);
        assert(a * y - a * x == a * (y - x)) by (nonlinear_arith);
        lemma_prime_zero_divisor(p, a, y - x);
        lemma_small_mod((y - x) as nat, p as nat);
    }
}

/// A product of two nonzero residues stays nonzero modulo a prime.
proof fn lemma_mod_mul_nonzero(p: int, a: int, b: int)
    requires
        is_prime(p),
        1 <= a < p,
        1 <= b < p,
    ensures
        1 <= (a * b) % p < p,
{
    lemma_mod_bound(a * b, p);
    if (a * b) % p == 0 {
        lemma_prime_zero_divisor(p, a, b);
        lemma_small_mod(b as nat, p as nat);
    }
}

/// The product of a sequence of integers.
pub open spec fn seq_prod(s: Seq<int>) -> int
    decreases s.len(),
{
    if s.len() == 0 {
        1
    } else {
        seq_prod(s.drop_last()) * s.last()
    }
}

/// The factor at any position can be split off the product.
proof fn lemma_seq_prod_remove(s: Seq<int>, i: int)
    requires
        0 <= i < s.len(),
    ensures
        seq_prod(s) == seq_prod(s.remove(i)) * s[i],
    decreases s.len(),
{
    if i == s.len() - 1 {
        assert(s.remove(i) =~= s.drop_last());
    } else {
        let shorter: Seq<int> = s.drop_last();
        lemma_seq_prod_remove(shorter, i);
        assert(s.remove(i).drop_last() =~= shorter.remove(i));
        assert(s.remove(i).last() == s.last());
        lemma_mul_is_associative(seq_prod(shorter.remove(i)), s[i], s.last());
        lemma_mul_is_commutative(s[i], s.last());
        lemma_mul_is_associative(seq_prod(shorter.remove(i)), s.last(), s[i]);
    }
}

/// Sequences that hold the same multiset of factors have equal products.
proof fn lemma_seq_prod_permutation(s1: Seq<int>, s2: Seq<int>)
    requires
        s1.to_multiset() == s2.to_multiset(),
    ensures
        seq_prod(s1) == seq_prod(s2),
    decreases s1.len(),
{
    s1.to_multiset_ensures();
    s2.to_multiset_ensures();
    if s1.len() == 0 {
        assert(s2.len() == 0);
    } else {
        let x: int = s1.last();
        let i1: int = s1.len() - 1;
        assert(s1.contains(x));
        assert(s2.to_multiset().count(x) > 0);
        assert(s2.contains(x));
        let i2: int = choose|i: int| 0 <= i < s2.len() && s2[i] == x;
        lemma_seq_prod_remove(s1, i1);
        lemma_seq_prod_remove(s2, i2);
        assert(s1.remove(i1).to_multiset() =~= s2.remove(i2).to_multiset());
        lemma_seq_prod_permutation(s1.remove(i1), s2.remove(i2));
    }
}

/// The factorial of `n`.
pub open spec fn fact(n: nat) -> int
    decreases n,
{
    if n == 0 {
        1
    } else {
        n * fact((n - 1) as nat)
    }
}

/// The integers `1, 2, ..., n` in order.
spec fn range_seq(n: nat) -> Seq<int> {
    Seq::new(n, |i: int| i + 1)
}

/// The residues `a*1, a*2, ..., a*n` modulo `p`.
spec fn scaled_seq(a: int, n: nat, p: int) -> Seq<int> {
    Seq::new(n, |i: int| (a * (i + 1)) % p)
}

/// The product of `1, 2, ..., n` is the factorial.
proof fn lemma_range_seq_prod(n: nat)
    ensures
        seq_prod(range_seq(n)) == fact(n),
    decreases n,
{
    if n == 0 {
        assert(range_seq(0) =~= Seq::<int>::empty());
    } else {
        assert(range_seq(n).drop_last() =~= range_seq((n - 1) as nat));
        assert(range_seq(n).last() == n);
        lemma_range_seq_prod((n - 1) as nat);
        lemma_mul_is_commutative(fact((n - 1) as nat), n as int);
    }
}

/// The product of the scaled residues is `a^n * n!` modulo `p`.
proof fn lemma_scaled_seq_prod(a: int, n: nat, p: int)
    requires
        0 < p,
    ensures
        seq_prod(scaled_seq(a, n, p)) % p == (pow(a, n) * fact(n)) % p,
    decreases n,
{
    if n == 0 {
        assert(scaled_seq(a, 0, p) =~= Seq::<int>::empty());
        lemma_pow0(a);
    } else {
        let m: nat = (n - 1) as nat;
        assert(scaled_seq(a, n, p).drop_last() =~= scaled_seq(a, m, p));
        assert(scaled_seq(a, n, p).last() == (a * n) % p);
        lemma_scaled_seq_prod(a, m, p);
        let t: int = seq_prod(scaled_seq(a, m, p));
        lemma_mul_mod_noop_right(t, a * n, p);
        lemma_mul_mod_noop_left(t, a * n, p);
        lemma_mul_mod_noop_left(pow(a, m) * fact(m), a * n, p);
        assert(pow(a, n) == a * pow(a, m)) by {
            lemma_pow_adds(a, 1, m);
            lemma_pow1(a);
        }
        assert(pow(a, m) * fact(m) * (a * n) == pow(a, n) * fact(n)) by (nonlinear_arith)
            requires
                pow(a, n) == a * pow(a, m),
                fact(n) == n * fact(m),
        ;
    }
}

/// Multiplication by a nonzero residue permutes the nonzero residues:
/// the scaled residues are exactly `1, ..., p-1` in some order.
proof fn lemma_scaled_seq_permutes(p: int, a: int)
    requires
        is_prime(p),
        1 <= a < p,
    ensures
        scaled_seq(a, (p - 1) as nat, p).to_multiset() == range_seq((p - 1) as nat).to_multiset(),
{
    let n: nat = (p - 1) as nat;
    let s1: Seq<int> = scaled_seq(a, n, p);
    let s2: Seq<int> = range_seq(n);
    s1.to_multiset_ensures();
    s2.to_multiset_ensures();
    // Every scaled residue is a nonzero canonical residue, and distinct
    // indices give distinct residues.
    assert forall|i: int| 0 <= i < n implies 1 <= #[trigger] s1[i] < p by {
        lemma_mod_mul_nonzero(p, a, i + 1);
    }
    assert forall|i: int, j: int|
        0 <= i < n && 0 <= j < n && i != j implies #[trigger] s1[i] != #[trigger] s1[j] by {
        if s1[i] == s1[j] {
            lemma_mod_mul_cancel(p, a, i + 1, j + 1);
        }
    }
    assert(s1.no_duplicates());
    assert(s2.no_duplicates());
    // The scaled residues form a subset of {1, ..., p-1} of full size, so
    // they cover it.
    let vs1: Set<int> = s1.to_set();
    let range: Set<int> = set_int_range(1, p);
    lemma_int_range(1, p);
    s1.unique_seq_to_set();
    assert(vs1.subset_of(range)) by {
        assert forall|v: int| vs1.contains(v) implies range.contains(v) by {
            let i: int = choose|i: int| 0 <= i < s1.len() && s1[i] == v;
            assert(1 <= s1[i] < p);
        }
    }
    assert forall|v: int| range.contains(v) implies s1.contains(v) by {
        if !vs1.contains(v) {
            vs1.lemma_subset_not_in_lt(range, v);
        }
    }
    // With no duplicates on either side, equal value sets give equal
    // multisets: every count is one or zero on both sides.
    s1.lemma_multiset_has_no_duplicates();
    s2.lemma_multiset_has_no_duplicates();
    assert forall|v: int|
        #[trigger] s1.to_multiset().count(v) == s2.to_multiset().count(v) by {
        if 1 <= v < p {
            assert(s1.contains(v));
            assert(s2[v - 1] == v);
            assert(s2.contains(v));
        } else {
            if s1.contains(v) {
                let i: int = choose|i: int| 0 <= i < s1.len() && s1[i] == v;
                assert(1 <= s1[i] < p);
            }
            if s2.contains(v) {
                let i: int = choose|i: int| 0 <= i < s2.len() && s2[i] == v;
                assert(s2[i] == i + 1);
            }
            assert(!s1.contains(v) && !s2.contains(v));
        }
    }
    assert(s1.to_multiset() =~= s2.to_multiset());
}

/// No factorial up to `(p-1)!` is divisible by the prime `p`.
proof fn lemma_fact_mod_nonzero(p: int, n: nat)
    requires
        is_prime(p),
        n <= p - 1,
    ensures
        1 <= fact(n) % p < p,
    decreases n,
{
    if n == 0 {
        lemma_small_mod(1, p as nat);
    } else {
        lemma_fact_mod_nonzero(p, (n - 1) as nat);
        let f: int = fact((n - 1) as nat) % p;
        lemma_mul_mod_noop_right(n as int, fact((n - 1) as nat), p);
        lemma_mod_mul_nonzero(p, n as int, f);
    }
}

/// Fermat's little theorem: over a prime modulus every nonzero residue
/// raised to `p - 1` is one — equivalently, `a * a^(p-2) ≡ 1`, which is
/// what makes the inverse candidate `a^(p-2)` a true inverse.
pub proof fn lemma_fermat_little(p: int, a: int)
    requires
        is_prime(p),
        1 <= a < p,
    ensures
        pow(a, (p - 1) as nat) % p == 1,
        (a * pow(a, (p - 2) as nat)) % p == 1,
{
    let n: nat = (p - 1) as nat;
    lemma_scaled_seq_prod(a, n, p);
    lemma_scaled_seq_permutes(p, a);
    lemma_seq_prod_permutation(scaled_seq(a, n, p), range_seq(n));
    lemma_range_seq_prod(n);
    assert((pow(a, n) * fact(n)) % p == fact(n) % p);
    // Cancel the factorial, which the prime does not divide.
    lemma_fact_mod_nonzero(p, n);
    let f: int = fact(n) % p;
    let x: int = pow(a, n) % p;
    lemma_mod_bound(pow(a, n), p);
    lemma_mul_mod_noop(fact(n), pow(a, n), p);
    lemma_mul_is_commutative(fact(n), pow(a, n));
    lemma_mul_is_commutative(f, x);
    lemma_small_mod(f as nat, p as nat);
    assert(f * 1 == f);
    assert((f * x) % p == (f * 1) % p);
    lemma_mod_mul_cancel(p, f, x, 1);
    assert(pow(a, n) == a * pow(a, (p - 2) as nat)) by {
        lemma_pow_adds(a, 1, (p - 2) as nat);
        lemma_pow1(a);
    }
    lemma_mul_mod_noop_right(a, pow(a, (p - 2) as nat), p);
}

} // verus!
