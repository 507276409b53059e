//! Modular arithmetic on machine words: products are taken in `u128`, and
//! exponentiation is delegated to `num_bigint`.

use num_bigint::BigUint;
use num_traits::ToPrimitive;
use crate::fermat::{is_prime, lemma_fermat};
use vstd::arithmetic::div_mod::{lemma_mul_mod_noop_right, lemma_small_mod};
use vstd::arithmetic::power::{lemma_pow0, lemma_pow1, lemma_pow_adds, pow};
use vstd::prelude::*;

verus! {

/// The value `base^exponent mod modulus`, as a mathematical integer.
pub open spec fn pow_mod(base: int, exponent: nat, modulus: int) -> int {
    pow(base, exponent) % modulus
}

/// Relies on `num_bigint::BigUint::modpow`, documented to return
/// `(self ^ exponent) % modulus` and to panic on a zero modulus only; the
/// result is below the modulus and so converts back to `u64`.
#[verifier::external_body]
fn big_modpow(base: u64, exponent: u64, modulus: u64) -> (r: u64)
    requires
        modulus > 1,
    ensures
        r as int == pow_mod(base as int, exponent as nat, modulus as int),
{
    let b = BigUint::from(base);
    let e = BigUint::from(exponent);
    let m = BigUint::from(modulus);
    b.modpow(&e, &m).to_u64().unwrap()
}

/// Why a modular operation could not be carried out.
#[derive(Clone, Copy, Debug, PartialEq, Eq, Structural)]
pub enum ArithError {
    /// The base has no inverse: it is a multiple of the modulus.
    InvalidInput,
}

/// `base^exponent mod modulus`, always in `[0, modulus)`.
pub fn mod_pow(base: u64, exponent: u64, modulus: u64) -> (r: u64)
    requires
        modulus > 1,
    ensures
        r as int == pow_mod(base as int, exponent as nat, modulus as int),
        r < modulus,
        exponent == 0 ==> r == 1,
        exponent == 1 ==> r == base % modulus,
{
    let r = big_modpow(base, exponent, modulus);
    proof {
        lemma_pow0(base as int);
        lemma_pow1(base as int);
        lemma_small_mod(1, modulus as nat);
    }
    r
}

/// `(a * b) mod modulus`, with the product taken without overflow.
pub fn mul_mod(a: u64, b: u64, modulus: u64) -> (r: u64)
    requires
        modulus > 0,
    ensures
        r as int == (a as int * b as int) % modulus as int,
{
    assert((a as u128) * (b as u128) <= 0xffff_ffff_ffff_ffffu128 * 0xffff_ffff_ffff_ffffu128)
        by (nonlinear_arith)
        requires
            a <= 0xffff_ffff_ffff_ffffu64,
            b <= 0xffff_ffff_ffff_ffffu64,
    ;
    let prod: u128 = (a as u128) * (b as u128);
    (prod % (modulus as u128)) as u64
}

/// `(a + b) mod modulus`, with the sum taken without overflow.
pub fn add_mod(a: u64, b: u64, modulus: u64) -> (r: u64)
    requires
        modulus > 0,
    ensures
        r as int == (a as int + b as int) % modulus as int,
{
    let sum: u128 = (a as u128) + (b as u128);
    (sum % (modulus as u128)) as u64
}

/// `base^(modulus-2) mod modulus`: the inverse of `base` by Fermat's little
/// theorem when the modulus is prime and does not divide the base.
pub fn fermat_inverse(base: u64, modulus: u64) -> (r: u64)
    requires
        modulus > 1,
    ensures
        r as int == pow_mod(base as int, (modulus - 2) as nat, modulus as int),
        r < modulus,
        is_prime(modulus as int) && base % modulus != 0 ==> (base as int * r as int)
            % modulus as int == 1,
{
    let r = mod_pow(base, modulus - 2, modulus);
    proof {
        if is_prime(modulus as int) && base % modulus != 0 {
            lemma_inverse_of_fermat(base as int, modulus as int);
        }
    }
    r
}

/// The multiplicative inverse of `base` modulo the prime `modulus`, computed
/// as `base^(modulus-2) mod modulus`; a base that the modulus divides has none.
pub fn mod_inverse(base: u64, modulus: u64) -> (r: Result<u64, ArithError>)
    requires
        is_prime(modulus as int),
    ensures
        r is Err <==> base % modulus == 0,
        r is Err ==> r == Err::<u64, ArithError>(ArithError::InvalidInput),
        r matches Ok(v) ==> v as int == pow_mod(
            base as int,
            (modulus - 2) as nat,
            modulus as int,
        ) && v < modulus && (base as int * v as int) % modulus as int == 1,
{
    if base % modulus == 0 {
        Err(ArithError::InvalidInput)
    } else {
        Ok(fermat_inverse(base, modulus))
    }
}

/// For a prime `m` and a base it does not divide, `a * (a^(m-2) mod m)` is
/// `1` modulo `m`.
pub proof fn lemma_inverse_of_fermat(a: int, m: int)
    requires
        is_prime(m),
        a % m != 0,
    ensures
        (a * pow_mod(a, (m - 2) as nat, m)) % m == 1,
{
    lemma_fermat(a, m);
    lemma_mul_mod_noop_right(a, pow(a, (m - 2) as nat), m);
    lemma_pow1(a);
    lemma_pow_adds(a, 1, (m - 2) as nat);
}

} // verus!
