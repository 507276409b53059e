//! One participant of the protocol and its three private stores.

use crate::arith::{add_mod, fermat_inverse, mod_pow, mul_mod, pow_mod};
use std::collections::HashMap;
use vstd::arithmetic::div_mod::{lemma_add_mod_noop, lemma_add_mod_noop_right};
use vstd::seq_lib::lemma_fold_left_permutation;
use vstd::prelude::*;

verus! {

broadcast use vstd::std_specs::hash::group_hash_axioms;

/// The sum of a sequence of exponents, folded from the left.
pub open spec fn exponent_sum(s: Seq<u64>) -> int {
    s.fold_left(0int, |acc: int, v: u64| acc + v)
}

proof fn lemma_sum_concat(a: Seq<u64>, b: Seq<u64>)
    ensures
        exponent_sum(a + b) == exponent_sum(a) + exponent_sum(b),
    decreases b.len(),
{
    if b.len() == 0 {
        assert(a + b =~= a);
    } else {
        lemma_sum_concat(a, b.drop_last());
        assert((a + b).drop_last() =~= a + b.drop_last());
        assert((a + b).last() == b.last());
    }
}

/// The correction value does not depend on the order of the exponents:
/// any rearrangement of them gives the same value.
pub proof fn lemma_correction_order_independent(s1: Seq<u64>, s2: Seq<u64>, p: int)
    requires
        s1.to_multiset() == s2.to_multiset(),
    ensures
        correction_value(s1, p) == correction_value(s2, p),
{
    let f = |acc: int, v: u64| acc + v;
    assert forall|x: u64, y: u64, v: int| #[trigger] f(f(v, x), y) == f(f(v, y), x) by {}
    lemma_fold_left_permutation(s1, s2, f, 0int);
}

/// The correction value of a concatenation of exponent sequences is the
/// sum of their correction values, modulo `p - 1`: grouping does not matter.
pub proof fn lemma_correction_concat(a: Seq<u64>, b: Seq<u64>, p: int)
    requires
        p > 1,
    ensures
        correction_value(a + b, p) == (correction_value(a, p) + correction_value(b, p)) % (p
            - 1),
{
    lemma_sum_concat(a, b);
    lemma_add_mod_noop(exponent_sum(a), exponent_sum(b), p - 1);
}

/// The share that a node stores for `value` blinded by `lambda`:
/// `value * (g^(p-2))^lambda mod p`, that is `value * g^(-lambda) mod p`
/// when `p` is prime.
pub open spec fn blinded_share(value: int, lambda: nat, g: int, p: int) -> int {
    (value * pow_mod(pow_mod(g, (p - 2) as nat, p), lambda, p)) % p
}

/// The correction value for a term: the sum of its blinding exponents
/// reduced modulo `p - 1`, the order of the multiplicative group.
pub open spec fn correction_value(lambdas: Seq<u64>, p: int) -> int {
    exponent_sum(lambdas) % (p - 1)
}

/// A participant: its id, the domain parameters, and its stores of blinded
/// shares (by input id), correction values (by term id) and partial
/// products (by term id, then input id).
pub struct Node {
    node_id: usize,
    p: u64,
    g: u64,
    shared_values: HashMap<usize, u64>,
    gamma_values: HashMap<usize, u64>,
    partial_products: HashMap<usize, HashMap<usize, u64>>,
}

impl Node {
    /// The node's id.
    pub closed spec fn id(&self) -> usize {
        self.node_id
    }

    /// The prime modulus.
    pub closed spec fn modulus(&self) -> u64 {
        self.p
    }

    /// The generator of the masking group.
    pub closed spec fn generator(&self) -> u64 {
        self.g
    }

    /// The blinded shares, by input id.
    pub closed spec fn shares(&self) -> Map<usize, u64> {
        self.shared_values@
    }

    /// The correction values, by term id.
    pub closed spec fn gammas(&self) -> Map<usize, u64> {
        self.gamma_values@
    }

    /// The partial products, by (term id, input id).
    pub closed spec fn products(&self) -> Map<(usize, usize), u64> {
        Map::new(
            |k: (usize, usize)|
                self.partial_products@.contains_key(k.0)
                    && self.partial_products@[k.0]@.contains_key(k.1),
            |k: (usize, usize)| self.partial_products@[k.0]@[k.1],
        )
    }

    /// The modulus leaves room for the exponent `p - 2`.
    pub open spec fn wf(&self) -> bool {
        self.modulus() > 1
    }

    /// A node with empty stores.
    pub fn new(node_id: usize, p: u64, g: u64) -> (r: Node)
        requires
            p > 1,
        ensures
            r.wf(),
            r.id() == node_id,
            r.modulus() == p,
            r.generator() == g,
            r.shares() == Map::<usize, u64>::empty(),
            r.gammas() == Map::<usize, u64>::empty(),
            r.products() == Map::<(usize, usize), u64>::empty(),
    {
        let r = Node {
            node_id,
            p,
            g,
            shared_values: HashMap::new(),
            gamma_values: HashMap::new(),
            partial_products: HashMap::new(),
        };
        assert(r.products() =~= Map::<(usize, usize), u64>::empty());
        r
    }

    /// Stores under `input_id` the share `value * g^(-lambda_value) mod p`,
    /// removing the blinding factor that `value` arrives with; a share
    /// already stored under that id is replaced.
    pub fn receive_input(&mut self, input_id: usize, value: u64, lambda_value: u64)
        requires
            old(self).wf(),
        ensures
            final(self).wf(),
            final(self).id() == old(self).id(),
            final(self).modulus() == old(self).modulus(),
            final(self).generator() == old(self).generator(),
            final(self).shares() == old(self).shares().insert(
                input_id,
                blinded_share(
                    value as int,
                    lambda_value as nat,
                    old(self).generator() as int,
                    old(self).modulus() as int,
                ) as u64,
            ),
            final(self).gammas() == old(self).gammas(),
            final(self).products() == old(self).products(),
    {
        let g_inv = fermat_inverse(self.g, self.p);
        let mask = mod_pow(g_inv, lambda_value, self.p);
        let shared_value = mul_mod(value, mask, self.p);
        self.shared_values.insert(input_id, shared_value);
        proof {
            assert(self.products() =~= old(self).products());
        }
    }

    /// Stores under `term_id` the sum of `lambda_values` modulo `p - 1`;
    /// a value already stored under that id is replaced.
    pub fn compute_gamma_value(&mut self, term_id: usize, lambda_values: &Vec<u64>)
        requires
            old(self).wf(),
        ensures
            final(self).wf(),
            final(self).id() == old(self).id(),
            final(self).modulus() == old(self).modulus(),
            final(self).generator() == old(self).generator(),
            final(self).shares() == old(self).shares(),
            final(self).gammas() == old(self).gammas().insert(
                term_id,
                correction_value(lambda_values@, old(self).modulus() as int) as u64,
            ),
            final(self).products() == old(self).products(),
    {
        let order = self.p - 1;
        let mut acc: u64 = 0;
        let mut i: usize = 0;
        proof {
            vstd::arithmetic::div_mod::lemma_small_mod(0, order as nat);
            assert(lambda_values@.take(0) =~= Seq::<u64>::empty());
        }
        while i < lambda_values.len()
            invariant
                0 <= i <= lambda_values@.len(),
                order == self.p - 1,
                order > 0,
                acc as int == exponent_sum(lambda_values@.take(i as int)) % (order as int),
            decreases lambda_values@.len() - i,
        {
            let l = lambda_values[i];
            proof {
                let s = lambda_values@;
                assert(s.take(i + 1).drop_last() =~= s.take(i as int));
                assert(exponent_sum(s.take(i + 1)) == exponent_sum(s.take(i as int)) + l);
                lemma_add_mod_noop_right(l as int, exponent_sum(s.take(i as int)), order as int);
            }
            acc = add_mod(acc, l, order);
            i = i + 1;
        }
        proof {
            assert(lambda_values@.take(i as int) =~= lambda_values@);
        }
        self.gamma_values.insert(term_id, acc);
        proof {
            assert(self.products() =~= old(self).products());
        }
    }

    /// Copies the share stored under `input_id` into the partial products
    /// under `(term_id, input_id)`; with no such share nothing changes.
    pub fn compute_partial_product(&mut self, term_id: usize, input_id: usize)
        requires
            old(self).wf(),
        ensures
            final(self).wf(),
            final(self).id() == old(self).id(),
            final(self).modulus() == old(self).modulus(),
            final(self).generator() == old(self).generator(),
            final(self).shares() == old(self).shares(),
            final(self).gammas() == old(self).gammas(),
            old(self).shares().contains_key(input_id) ==> final(self).products() == old(
                self,
            ).products().insert((term_id, input_id), old(self).shares()[input_id]),
            !old(self).shares().contains_key(input_id) ==> final(self).products() == old(
                self,
            ).products(),
    {
        let found = match self.shared_values.get(&input_id) {
            Some(v) => Some(*v),
            None => None,
        };
        match found {
            Some(v) => {
                let mut inner = match self.partial_products.remove(&term_id) {
                    Some(m) => m,
                    None => HashMap::new(),
                };
                inner.insert(input_id, v);
                self.partial_products.insert(term_id, inner);
                proof {
                    assert(self.products() =~= old(self).products().insert(
                        (term_id, input_id),
                        v,
                    ));
                }
            },
            None => {},
        }
    }

    /// The node's id.
    pub fn node_id(&self) -> (r: usize)
        ensures
            r == self.id(),
    {
        self.node_id
    }

    /// The share stored under `input_id`, if any.
    pub fn shared_value(&self, input_id: usize) -> (r: Option<u64>)
        ensures
            r == (if self.shares().contains_key(input_id) {
                Some(self.shares()[input_id])
            } else {
                None
            }),
    {
        match self.shared_values.get(&input_id) {
            Some(v) => Some(*v),
            None => None,
        }
    }

    /// The correction value stored under `term_id`, if any.
    pub fn gamma_value(&self, term_id: usize) -> (r: Option<u64>)
        ensures
            r == (if self.gammas().contains_key(term_id) {
                Some(self.gammas()[term_id])
            } else {
                None
            }),
    {
        match self.gamma_values.get(&term_id) {
            Some(v) => Some(*v),
            None => None,
        }
    }

    /// The partial product stored under `(term_id, input_id)`, if any.
    pub fn partial_product(&self, term_id: usize, input_id: usize) -> (r: Option<u64>)
        ensures
            r == (if self.products().contains_key((term_id, input_id)) {
                Some(self.products()[(term_id, input_id)])
            } else {
                None
            }),
    {
        match self.partial_products.get(&term_id) {
            Some(inner) => match inner.get(&input_id) {
                Some(v) => Some(*v),
                None => None,
            },
            None => None,
        }
    }
}

} // verus!
