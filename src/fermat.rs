//! Fermat's little theorem, proved from scratch: for a prime `p` and `a` not
//! divisible by `p`, `a^(p-1) mod p == 1`.

use vstd::arithmetic::div_mod::{
    lemma_add_mod_noop, lemma_fundamental_div_mod, lemma_mod_multiples_basic,
    lemma_mul_mod_noop_left, lemma_mul_mod_noop_right, lemma_small_mod, lemma_sub_mod_noop,
};
use vstd::arithmetic::power::pow;
use vstd::prelude::*;
use vstd::seq_lib::lemma_fold_left_permutation;
use vstd::set_lib::lemma_subset_equality;

verus! {

/// `n` is a prime number: at least 2, with no divisor strictly between 1 and `n`.
pub open spec fn is_prime(n: int) -> bool {
    &&& n >= 2
    &&& forall|d: int| 2 <= d < n ==> #[trigger] (n % d) != 0
}

/// Euclid's lemma for a residue below the prime, by descent on `a`:
/// with `p = q*a + r`, `p | a*b` gives `p | r*b`, and `0 < r < a`.
proof fn lemma_euclid_small(a: int, b: int, p: int)
    requires
        is_prime(p),
        0 < a < p,
        (a * b) % p == 0,
    ensures
        b % p == 0,
    decreases a,
{
    if a > 1 {
        let q = p / a;
        let r = p % a;
        lemma_fundamental_div_mod(p, a);
        assert(r != 0);
        assert(0 < r < a);
        let k = (a * b) / p;
        lemma_fundamental_div_mod(a * b, p);
        assert(r * b == p * (b - q * k)) by (nonlinear_arith)
            requires
                p == a * q + r,
                a * b == p * k,
        ;
        lemma_mod_multiples_basic(b - q * k, p);
        assert((p * (b - q * k)) % p == 0) by (nonlinear_arith)
            requires
                ((b - q * k) * p) % p == 0,
        ;
        lemma_euclid_small(r, b, p);
    }
}

/// Euclid's lemma: a prime that divides a product and not its first factor
/// divides the second.
pub proof fn lemma_euclid(a: int, b: int, p: int)
    requires
        is_prime(p),
        a % p != 0,
        (a * b) % p == 0,
    ensures
        b % p == 0,
{
    lemma_mul_mod_noop_left(a, b, p);
    lemma_euclid_small(a % p, b, p);
}

/// Multiplication by a unit modulo a prime is injective on residues.
pub proof fn lemma_cancel(a: int, i: int, j: int, p: int)
    requires
        is_prime(p),
        a % p != 0,
        (a * i) % p == (a * j) % p,
    ensures
        i % p == j % p,
{
    lemma_sub_mod_noop(a * i, a * j, p);
    lemma_small_mod(0, p as nat);
    assert((a * i - a * j) % p == 0);
    assert(a * i - a * j == a * (i - j)) by (nonlinear_arith);
    assert((a * (i - j)) % p == 0);
    lemma_euclid(a, i - j, p);
    lemma_sub_mod_noop(i, j, p);
    lemma_small_mod(0, p as nat);
    assert(0 <= i % p < p && 0 <= j % p < p);
    assert(((i % p) - (j % p)) % p == 0);
    if i % p != j % p {
        let d = (i % p) - (j % p);
        assert(-p < d < p);
        if d > 0 {
            lemma_small_mod(d as nat, p as nat);
        } else {
            lemma_small_mod((-d) as nat, p as nat);
            lemma_fundamental_div_mod(d, p);
            assert((-d) % p == -d);
            assert(d % p == 0);
            assert(false) by (nonlinear_arith)
                requires
                    d == p * (d / p),
                    -p < d < 0,
            ;
        }
    }
}

/// The product of a sequence of integers, folded from the left.
pub open spec fn product(s: Seq<int>) -> int {
    s.fold_left(1int, |acc: int, v: int| acc * v)
}

/// The residues `1, 2, ..., n`.
pub open spec fn residues(n: nat) -> Seq<int> {
    Seq::new(n, |k: int| k + 1)
}

/// The residues `1, 2, ..., n`, each multiplied by `a` and reduced modulo `p`.
pub open spec fn scaled_residues(a: int, p: int, n: nat) -> Seq<int> {
    Seq::new(n, |k: int| (a * (k + 1)) % p)
}

proof fn lemma_scaled_product(a: int, p: int, n: nat)
    requires
        p > 0,
    ensures
        product(scaled_residues(a, p, n)) % p == (pow(a, n) * product(residues(n))) % p,
    decreases n,
{
    if n > 0 {
        let m = (n - 1) as nat;
        lemma_scaled_product(a, p, m);
        assert(scaled_residues(a, p, n).drop_last() =~= scaled_residues(a, p, m));
        assert(residues(n).drop_last() =~= residues(m));
        let sp = product(scaled_residues(a, p, m));
        let rp = product(residues(m));
        let pa = pow(a, m);
        assert(product(scaled_residues(a, p, n)) == sp * ((a * n) % p));
        assert(product(residues(n)) == rp * n);
        reveal(pow);
        assert(pow(a, n) == a * pa);
        lemma_mul_mod_noop_right(sp, a * n, p);
        lemma_mul_mod_noop_left(sp, a * n, p);
        lemma_mul_mod_noop_left(pa * rp, a * n, p);
        assert((pa * rp) * (a * n) == (a * pa) * (rp * n)) by (nonlinear_arith);
    } else {
        vstd::arithmetic::power::lemma_pow0(a);
    }
}

proof fn lemma_residue_product_nonzero(p: int, n: nat)
    requires
        is_prime(p),
        n < p,
    ensures
        product(residues(n)) % p != 0,
    decreases n,
{
    if n == 0 {
        lemma_small_mod(1, p as nat);
    } else {
        let m = (n - 1) as nat;
        lemma_residue_product_nonzero(p, m);
        assert(residues(n).drop_last() =~= residues(m));
        assert(product(residues(n)) == product(residues(m)) * n);
        if product(residues(n)) % p == 0 {
            lemma_euclid(product(residues(m)), n as int, p);
            lemma_small_mod(n, p as nat);
        }
    }
}

proof fn lemma_scaled_is_permutation(a: int, p: int)
    requires
        is_prime(p),
        a % p != 0,
    ensures
        scaled_residues(a, p, (p - 1) as nat).to_multiset() == residues(
            (p - 1) as nat,
        ).to_multiset(),
{
    let n = (p - 1) as nat;
    let t = scaled_residues(a, p, n);
    let s = residues(n);
    assert forall|i: int, j: int| 0 <= i < t.len() && 0 <= j < t.len() && i != j implies t[i]
        != t[j] by {
        if t[i] == t[j] {
            lemma_cancel(a, i + 1, j + 1, p);
            lemma_small_mod((i + 1) as nat, p as nat);
            lemma_small_mod((j + 1) as nat, p as nat);
        }
    }
    assert(t.no_duplicates());
    assert(s.no_duplicates());
    assert forall|v: int| t.to_set().contains(v) implies s.to_set().contains(v) by {
        let k = choose|k: int| 0 <= k < t.len() && t[k] == v;
        if t[k] == 0 {
            lemma_euclid(a, k + 1, p);
            lemma_small_mod((k + 1) as nat, p as nat);
        }
        assert(s[v - 1] == v);
    }
    t.unique_seq_to_set();
    s.unique_seq_to_set();
    lemma_subset_equality(t.to_set(), s.to_set());
    t.lemma_multiset_has_no_duplicates();
    s.lemma_multiset_has_no_duplicates();
    assert forall|v: int| t.to_multiset().count(v) == s.to_multiset().count(v) by {
        broadcast use vstd::seq_lib::to_multiset_contains;

        assert(t.to_multiset().contains(v) <==> t.contains(v));
        assert(s.to_multiset().contains(v) <==> s.contains(v));
        assert(t.contains(v) <==> t.to_set().contains(v));
        assert(s.contains(v) <==> s.to_set().contains(v));
    }
    assert(t.to_multiset() =~= s.to_multiset());
}

/// Fermat's little theorem: for a prime `p` and an `a` that `p` does not
/// divide, `a^(p-1) mod p == 1`.
pub proof fn lemma_fermat(a: int, p: int)
    requires
        is_prime(p),
        a % p != 0,
    ensures
        pow(a, (p - 1) as nat) % p == 1,
{
    let n = (p - 1) as nat;
    let f = |acc: int, v: int| acc * v;
    assert forall|x: int, y: int, v: int| #[trigger] f(f(v, x), y) == f(f(v, y), x) by {
        assert((v * x) * y == (v * y) * x) by (nonlinear_arith);
    }
    lemma_scaled_is_permutation(a, p);
    lemma_fold_left_permutation(scaled_residues(a, p, n), residues(n), f, 1int);
    lemma_scaled_product(a, p, n);
    lemma_residue_product_nonzero(p, n);
    let r = product(residues(n));
    let e = pow(a, n);
    assert((e * r) % p == r % p);
    lemma_sub_mod_noop(e * r, r, p);
    lemma_small_mod(0, p as nat);
    assert(e * r - r == r * (e - 1)) by (nonlinear_arith);
    lemma_euclid(r, e - 1, p);
    lemma_add_mod_noop(e - 1, 1, p);
    lemma_small_mod(1, p as nat);
}

} // verus!
