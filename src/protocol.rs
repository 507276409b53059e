//! The orchestrator: the fixed four-node topology, the preprocessing and
//! computation phases, reconstruction of `z = x0*x1 + x2*x3 mod p`, and its
//! validation against the direct computation.

use crate::arith::{add_mod, mod_pow, mul_mod, pow_mod};
use crate::fermat::{is_prime, lemma_fermat};
use crate::node::{blinded_share, correction_value, exponent_sum, Node};
use vstd::arithmetic::div_mod::{
    lemma_fundamental_div_mod, lemma_mul_mod_noop_left, lemma_mul_mod_noop_right, lemma_small_mod,
};
use vstd::arithmetic::power::{lemma1_pow, lemma_pow_adds, lemma_pow_mod_noop, lemma_pow_multiplies, pow};
use vstd::prelude::*;

verus! {

/// The id of the term `x0*x1`.
pub const TERM1: usize = 1;

/// The id of the term `x2*x3`.
pub const TERM2: usize = 2;

/// The number of participants, one per private input.
pub const NUM_NODES: usize = 4;

/// The term that input `i` feeds: inputs 0 and 1 feed `TERM1`, the others `TERM2`.
pub open spec fn spec_term_of_input(i: int) -> usize {
    if i < 2 {
        TERM1
    } else {
        TERM2
    }
}

/// The node that holds a term's correction value: node 0 for `TERM1`,
/// node 2 for any other term.
pub open spec fn spec_leader_of(term_id: usize) -> usize {
    if term_id == TERM1 {
        0
    } else {
        2
    }
}

/// The term that input `i` feeds.
pub fn term_of_input(i: usize) -> (r: usize)
    ensures
        r == spec_term_of_input(i as int),
{
    if i < 2 {
        TERM1
    } else {
        TERM2
    }
}

/// The node that holds the correction value of `term_id`.
pub fn leader_of(term_id: usize) -> (r: usize)
    ensures
        r == spec_leader_of(term_id),
{
    if term_id == TERM1 {
        0
    } else {
        2
    }
}

/// The product, modulo `p`, of the partial products that the first `n`
/// nodes hold for `term_id` under their own id, starting from 1.
pub open spec fn term_accumulation(nodes: Seq<Node>, term_id: usize, p: int, n: nat) -> int
    decreases n,
{
    if n == 0 {
        1
    } else {
        let prev = term_accumulation(nodes, term_id, p, (n - 1) as nat);
        let node = nodes[n - 1];
        if node.products().contains_key((term_id, node.id())) {
            (prev * node.products()[(term_id, node.id())]) % p
        } else {
            prev
        }
    }
}

/// A term's reconstructed value: its accumulated partial products, times
/// `g` raised to the correction value that its leader holds, if any.
pub open spec fn reconstructed_term(nodes: Seq<Node>, term_id: usize, leader: int, g: int, p: int) -> int {
    let acc = term_accumulation(nodes, term_id, p, nodes.len());
    let lead = nodes[leader];
    if lead.gammas().contains_key(term_id) {
        (acc * pow_mod(g, lead.gammas()[term_id] as nat, p)) % p
    } else {
        acc
    }
}

/// Multiplies together the partial products recorded for `term_id` on
/// every node (in ascending order, each under its own id), then the leader's
/// correction value exponentiated by `g`, all modulo `p`.
pub fn reconstruct_term(nodes: &Vec<Node>, term_id: usize, leader: usize, p: u64, g: u64) -> (r: u64)
    requires
        p > 1,
        leader < nodes@.len(),
    ensures
        r as int == reconstructed_term(nodes@, term_id, leader as int, g as int, p as int),
{
    let mut y: u64 = 1;
    let mut i: usize = 0;
    while i < nodes.len()
        invariant
            0 <= i <= nodes@.len(),
            p > 1,
            y as int == term_accumulation(nodes@, term_id, p as int, i as nat),
        decreases nodes@.len() - i,
    {
        let node = &nodes[i];
        match node.partial_product(term_id, node.node_id()) {
            Some(v) => {
                y = mul_mod(y, v, p);
            },
            None => {},
        }
        i = i + 1;
    }
    match nodes[leader].gamma_value(term_id) {
        Some(gamma) => {
            let mask = mod_pow(g, gamma, p);
            y = mul_mod(y, mask, p);
        },
        None => {},
    }
    y
}

/// `(x0*x1 + x2*x3) mod p`, computed directly from the private inputs.
pub fn expected_result(p: u64, x: &Vec<u64>) -> (r: u64)
    requires
        p > 1,
        x@.len() == NUM_NODES,
    ensures
        r as int == (x@[0] * x@[1] + x@[2] * x@[3]) % (p as int),
{
    let a = mul_mod(x[0], x[1], p);
    let b = mul_mod(x[2], x[3], p);
    proof {
        vstd::arithmetic::div_mod::lemma_add_mod_noop(
            x@[0] * x@[1],
            x@[2] * x@[3],
            p as int,
        );
    }
    add_mod(a, b, p)
}

/// The value of one term after reconstruction: the product of its two
/// partial products, times `g` raised to its correction value, modulo `p`.
pub open spec fn unblinded_term(sa: int, sb: int, gamma: nat, g: int, p: int) -> int {
    ((((1 * sa) % p) * sb) % p * pow_mod(g, gamma, p)) % p
}

proof fn lemma_share_congruent(x: int, lambda: nat, g: int, p: int)
    requires
        p > 1,
    ensures
        blinded_share(x, lambda, g, p) == (x * pow(g, ((p - 2) * lambda) as nat)) % p,
{
    let h = pow_mod(g, (p - 2) as nat, p);
    lemma_pow_mod_noop(pow(g, (p - 2) as nat), lambda, p);
    lemma_pow_multiplies(g, (p - 2) as nat, lambda);
    let a = pow(g, ((p - 2) * lambda) as nat);
    assert(pow(h, lambda) % p == a % p);
    lemma_mul_mod_noop_right(x, pow(h, lambda), p);
    lemma_mul_mod_noop_right(x, a, p);
}

/// The blinding removed from a term's two shares is restored exactly by `g`
/// raised to the term's correction value: the reconstructed term is the
/// product of the two private inputs modulo `p`.
pub proof fn lemma_term_unblinds(xa: int, xb: int, la: nat, lb: nat, g: int, p: int)
    requires
        is_prime(p),
        g % p != 0,
    ensures
        unblinded_term(
            blinded_share(xa, la, g, p),
            blinded_share(xb, lb, g, p),
            ((la + lb) as int % (p - 1)) as nat,
            g,
            p,
        ) == (xa * xb) % p,
{
    let sa = blinded_share(xa, la, g, p);
    let sb = blinded_share(xb, lb, g, p);
    let l: int = la as int + lb as int;
    let q = l / (p - 1);
    let r = l % (p - 1);
    let ea = ((p - 2) * la) as nat;
    let eb = ((p - 2) * lb) as nat;
    assert(ea >= 0 && eb >= 0) by (nonlinear_arith)
        requires
            p > 1,
    ;
    let a = pow(g, ea);
    let b = pow(g, eb);
    let c = pow(g, r as nat);
    lemma_share_congruent(xa, la, g, p);
    lemma_share_congruent(xb, lb, g, p);
    // Collect the four factors modulo p.
    assert((1 * sa) % p == sa) by {
        lemma_small_mod(sa as nat, p as nat);
    }
    lemma_mul_mod_noop_left(sa * sb, c, p);
    lemma_mul_mod_noop_right(sa * sb, c, p);
    lemma_mul_mod_noop_left(sa, sb, p);
    lemma_mul_mod_noop_left(xa * a, sb, p);
    lemma_mul_mod_noop_right(xa * a, xb * b, p);
    assert(((sa * sb) % p * c) % p == ((xa * a) * (xb * b) * c) % p) by {
        lemma_mul_mod_noop_left(sa * sb, c, p);
        lemma_mul_mod_noop_left((xa * a) * (xb * b), c, p);
    }
    assert((xa * a) * (xb * b) * c == (xa * xb) * (a * b * c)) by (nonlinear_arith);
    // The exponents add up to a multiple of p - 1.
    lemma_fundamental_div_mod(l, p - 1);
    assert(q >= 0) by (nonlinear_arith)
        requires
            l >= 0,
            p - 1 > 0,
            q == l / (p - 1),
    ;
    assert(l - q >= 0) by (nonlinear_arith)
        requires
            l >= 0,
            p - 1 >= 1,
            l == (p - 1) * q + r,
            r >= 0,
    ;
    let k = (l - q) as nat;
    assert(ea + eb + r == (p - 1) * k) by (nonlinear_arith)
        requires
            ea == (p - 2) * la,
            eb == (p - 2) * lb,
            l == la + lb,
            l == (p - 1) * q + r,
            k == l - q,
    ;
    lemma_pow_adds(g, ea, eb);
    lemma_pow_adds(g, ea + eb, r as nat);
    lemma_pow_multiplies(g, (p - 1) as nat, k);
    assert(a * b * c == pow(pow(g, (p - 1) as nat), k));
    // g^(p-1) is 1 modulo p, and so is every power of it.
    lemma_fermat(g, p);
    lemma_pow_mod_noop(pow(g, (p - 1) as nat), k, p);
    lemma1_pow(k);
    lemma_small_mod(1, p as nat);
    assert((a * b * c) % p == 1);
    lemma_mul_mod_noop_right(xa * xb, a * b * c, p);
    assert(((xa * a) * (xb * b) * c) % p == (xa * xb) % p);
    lemma_mul_mod_noop_right((sa * sb) % p, c, p);
    assert(pow_mod(g, r as nat, p) == c % p);
    assert(((sa * sb) % p * (c % p)) % p == (xa * xb) % p);
    assert(((1 * sa) % p * sb) % p == (sa * sb) % p);
}

/// The share that node `i` stores for its own input.
pub open spec fn share_of(p: int, g: int, x: Seq<u64>, lambda: Seq<u64>, i: int) -> u64 {
    blinded_share(x[i] as int, lambda[i] as nat, g, p) as u64
}

/// The result of one run: the four nodes in id order, and the
/// reconstructed `z`.
pub struct ProtocolRun {
    pub nodes: Vec<Node>,
    pub z: u64,
}

/// `r` is what running the protocol on `p`, `g`, the inputs `x` and the
/// blinding exponents `lambda` leaves: node `i` holds exactly the share of
/// input `i` and its partial product for the term that input feeds, the
/// leaders hold exactly their term's correction value, and `z` is the sum
/// of the two reconstructed terms modulo `p`.
pub open spec fn is_run_of(r: ProtocolRun, p: u64, g: u64, x: Seq<u64>, lambda: Seq<u64>) -> bool {
    &&& r.nodes@.len() == NUM_NODES
    &&& forall|i: int|
        0 <= i < NUM_NODES ==> {
            let n = #[trigger] r.nodes@[i];
            &&& n.wf()
            &&& n.id() == i
            &&& n.modulus() == p
            &&& n.generator() == g
            &&& n.shares() == map![i as usize => share_of(p as int, g as int, x, lambda, i)]
            &&& n.products() == map![(spec_term_of_input(i), i as usize) => share_of(p as int, g as int, x, lambda, i)]
        }
    &&& r.nodes@[0].gammas() == map![TERM1 => correction_value(lambda.subrange(0, 2), p as int) as u64]
    &&& r.nodes@[1].gammas() == Map::<usize, u64>::empty()
    &&& r.nodes@[2].gammas() == map![TERM2 => correction_value(lambda.subrange(2, 4), p as int) as u64]
    &&& r.nodes@[3].gammas() == Map::<usize, u64>::empty()
    &&& r.z as int == (reconstructed_term(r.nodes@, TERM1, 0, g as int, p as int)
        + reconstructed_term(r.nodes@, TERM2, 2, g as int, p as int)) % (p as int)
}

/// Runs the preprocessing phase (each node receives its input, the two
/// leaders compute their term's correction value), the computation phase
/// (each node records its partial product), and the reconstruction of `z`.
pub fn run_protocol(p: u64, g: u64, x: &Vec<u64>, lambda: &Vec<u64>) -> (r: ProtocolRun)
    requires
        p > 1,
        x@.len() == NUM_NODES,
        lambda@.len() == NUM_NODES,
    ensures
        is_run_of(r, p, g, x@, lambda@),
{
    let mut n0 = Node::new(0, p, g);
    let mut n1 = Node::new(1, p, g);
    let mut n2 = Node::new(2, p, g);
    let mut n3 = Node::new(3, p, g);
    // Preprocessing.
    n0.receive_input(0, x[0], lambda[0]);
    n1.receive_input(1, x[1], lambda[1]);
    n2.receive_input(2, x[2], lambda[2]);
    n3.receive_input(3, x[3], lambda[3]);
    let pair1 = vec![lambda[0], lambda[1]];
    let pair2 = vec![lambda[2], lambda[3]];
    proof {
        assert(pair1@ =~= lambda@.subrange(0, 2));
        assert(pair2@ =~= lambda@.subrange(2, 4));
    }
    n0.compute_gamma_value(TERM1, &pair1);
    n2.compute_gamma_value(TERM2, &pair2);
    // Computation.
    n0.compute_partial_product(term_of_input(0), 0);
    n1.compute_partial_product(term_of_input(1), 1);
    n2.compute_partial_product(term_of_input(2), 2);
    n3.compute_partial_product(term_of_input(3), 3);
    let nodes = vec![n0, n1, n2, n3];
    // Reconstruction.
    let y1 = reconstruct_term(&nodes, TERM1, leader_of(TERM1), p, g);
    let y2 = reconstruct_term(&nodes, TERM2, leader_of(TERM2), p, g);
    let z = add_mod(y1, y2, p);
    let r = ProtocolRun { nodes, z };
    proof {
        assert(r.nodes@[0].shares() =~= map![0usize => share_of(p as int, g as int, x@, lambda@, 0)]);
        assert(r.nodes@[1].shares() =~= map![1usize => share_of(p as int, g as int, x@, lambda@, 1)]);
        assert(r.nodes@[2].shares() =~= map![2usize => share_of(p as int, g as int, x@, lambda@, 2)]);
        assert(r.nodes@[3].shares() =~= map![3usize => share_of(p as int, g as int, x@, lambda@, 3)]);
        assert(r.nodes@[0].products() =~= map![(TERM1, 0usize) => share_of(p as int, g as int, x@, lambda@, 0)]);
        assert(r.nodes@[1].products() =~= map![(TERM1, 1usize) => share_of(p as int, g as int, x@, lambda@, 1)]);
        assert(r.nodes@[2].products() =~= map![(TERM2, 2usize) => share_of(p as int, g as int, x@, lambda@, 2)]);
        assert(r.nodes@[3].products() =~= map![(TERM2, 3usize) => share_of(p as int, g as int, x@, lambda@, 3)]);
        assert(r.nodes@[0].gammas() =~= map![TERM1 => correction_value(lambda@.subrange(0, 2), p as int) as u64]);
        assert(r.nodes@[2].gammas() =~= map![TERM2 => correction_value(lambda@.subrange(2, 4), p as int) as u64]);
    }
    r
}

/// The `z` that the protocol reconstructs, in closed form over its inputs.
pub open spec fn protocol_output(p: int, g: int, x: Seq<u64>, lambda: Seq<u64>) -> int {
    let y1 = unblinded_term(
        share_of(p, g, x, lambda, 0) as int,
        share_of(p, g, x, lambda, 1) as int,
        correction_value(lambda.subrange(0, 2), p) as u64 as nat,
        g,
        p,
    );
    let y2 = unblinded_term(
        share_of(p, g, x, lambda, 2) as int,
        share_of(p, g, x, lambda, 3) as int,
        correction_value(lambda.subrange(2, 4), p) as u64 as nat,
        g,
        p,
    );
    (y1 + y2) % p
}

/// The `z` of a run is the closed form `protocol_output` of its inputs.
pub proof fn lemma_run_output(r: ProtocolRun, p: u64, g: u64, x: Seq<u64>, lambda: Seq<u64>)
    requires
        p > 1,
        is_run_of(r, p, g, x, lambda),
    ensures
        r.z as int == protocol_output(p as int, g as int, x, lambda),
{
    let nodes = r.nodes@;
    let n0 = nodes[0];
    let n1 = nodes[1];
    let n2 = nodes[2];
    let n3 = nodes[3];
    let pi = p as int;
    let s0 = share_of(pi, g as int, x, lambda, 0);
    let s1 = share_of(pi, g as int, x, lambda, 1);
    let s2 = share_of(pi, g as int, x, lambda, 2);
    let s3 = share_of(pi, g as int, x, lambda, 3);
    assert(n0.products().contains_key((TERM1, 0usize)) && n0.products()[(TERM1, 0usize)] == s0);
    assert(n1.products().contains_key((TERM1, 1usize)) && n1.products()[(TERM1, 1usize)] == s1);
    assert(n2.products().contains_key((TERM2, 2usize)) && n2.products()[(TERM2, 2usize)] == s2);
    assert(n3.products().contains_key((TERM2, 3usize)) && n3.products()[(TERM2, 3usize)] == s3);
    assert(!n0.products().contains_key((TERM2, 0usize)));
    assert(!n1.products().contains_key((TERM2, 1usize)));
    assert(!n2.products().contains_key((TERM1, 2usize)));
    assert(!n3.products().contains_key((TERM1, 3usize)));
    assert(term_accumulation(nodes, TERM1, pi, 0) == 1);
    assert(term_accumulation(nodes, TERM1, pi, 1) == (1 * s0) % pi);
    assert(term_accumulation(nodes, TERM1, pi, 2) == ((1 * s0) % pi * s1) % pi);
    assert(term_accumulation(nodes, TERM1, pi, 3) == ((1 * s0) % pi * s1) % pi);
    assert(term_accumulation(nodes, TERM1, pi, 4) == ((1 * s0) % pi * s1) % pi);
    assert(term_accumulation(nodes, TERM2, pi, 0) == 1);
    assert(term_accumulation(nodes, TERM2, pi, 1) == 1);
    assert(term_accumulation(nodes, TERM2, pi, 2) == 1);
    assert(term_accumulation(nodes, TERM2, pi, 3) == (1 * s2) % pi);
    assert(term_accumulation(nodes, TERM2, pi, 4) == ((1 * s2) % pi * s3) % pi);
}

/// Running the protocol on a prime `p`, a generator `g` that `p` does not
/// divide, and any four inputs and blinding exponents reconstructs
/// `z == (x0*x1 + x2*x3) mod p`.
pub proof fn lemma_protocol_correct(r: ProtocolRun, p: u64, g: u64, x: Seq<u64>, lambda: Seq<u64>)
    requires
        is_prime(p as int),
        g % p != 0,
        x.len() == NUM_NODES,
        lambda.len() == NUM_NODES,
        is_run_of(r, p, g, x, lambda),
    ensures
        r.z as int == (x[0] * x[1] + x[2] * x[3]) % (p as int),
{
    let pi = p as int;
    let gi = g as int;
    lemma_run_output(r, p, g, x, lambda);
    lemma_pair_correction(lambda[0], lambda[1], lambda.subrange(0, 2), pi);
    lemma_pair_correction(lambda[2], lambda[3], lambda.subrange(2, 4), pi);
    lemma_term_unblinds(x[0] as int, x[1] as int, lambda[0] as nat, lambda[1] as nat, gi, pi);
    lemma_term_unblinds(x[2] as int, x[3] as int, lambda[2] as nat, lambda[3] as nat, gi, pi);
    vstd::arithmetic::div_mod::lemma_add_mod_noop(x[0] * x[1], x[2] * x[3], pi);
    lemma_small_mod(((x[0] * x[1]) % pi) as nat, pi as nat);
    lemma_small_mod(((x[2] * x[3]) % pi) as nat, pi as nat);
}

/// The correction value of two exponents is their sum modulo `p - 1`.
proof fn lemma_pair_correction(a: u64, b: u64, s: Seq<u64>, p: int)
    requires
        p > 1,
        s =~= seq![a, b],
    ensures
        correction_value(s, p) == (a + b) % (p - 1),
        0 <= correction_value(s, p) < p - 1,
{
    assert(s.drop_last() =~= seq![a]);
    assert(s.drop_last().drop_last() =~= Seq::<u64>::empty());
    assert(exponent_sum(Seq::<u64>::empty()) == 0);
    assert(exponent_sum(s.drop_last()) == a);
    assert(exponent_sum(s) == a + b);
}

/// Two runs on the same inputs leave nodes with the same stores and
/// reconstruct the same `z`.
pub proof fn lemma_runs_agree(
    r1: ProtocolRun,
    r2: ProtocolRun,
    p: u64,
    g: u64,
    x: Seq<u64>,
    lambda: Seq<u64>,
)
    requires
        p > 1,
        is_run_of(r1, p, g, x, lambda),
        is_run_of(r2, p, g, x, lambda),
    ensures
        r1.z == r2.z,
        forall|i: int|
            0 <= i < NUM_NODES ==> {
                &&& (#[trigger] r1.nodes@[i]).shares() == r2.nodes@[i].shares()
                &&& r1.nodes@[i].gammas() == r2.nodes@[i].gammas()
                &&& r1.nodes@[i].products() == r2.nodes@[i].products()
            },
{
    lemma_run_output(r1, p, g, x, lambda);
    lemma_run_output(r2, p, g, x, lambda);
    assert forall|i: int| 0 <= i < NUM_NODES implies {
        &&& (#[trigger] r1.nodes@[i]).shares() == r2.nodes@[i].shares()
        &&& r1.nodes@[i].gammas() == r2.nodes@[i].gammas()
        &&& r1.nodes@[i].products() == r2.nodes@[i].products()
    } by {}
}

/// The reconstructed `z` differs from the value computed directly.
#[derive(Clone, Copy, Debug, PartialEq, Eq, Structural)]
pub enum ProtocolError {
    Mismatch { expected: u64, actual: u64 },
}

/// Runs the protocol and checks its `z` against `(x0*x1 + x2*x3) mod p`,
/// reporting both values on a mismatch. For a prime `p` and a generator
/// that `p` does not divide the check always passes.
pub fn run_and_validate(p: u64, g: u64, x: &Vec<u64>, lambda: &Vec<u64>) -> (r: Result<
    ProtocolRun,
    ProtocolError,
>)
    requires
        p > 1,
        x@.len() == NUM_NODES,
        lambda@.len() == NUM_NODES,
    ensures
        r matches Ok(run) ==> is_run_of(run, p, g, x@, lambda@) && run.z as int == (x@[0]
            * x@[1] + x@[2] * x@[3]) % (p as int),
        r matches Err(ProtocolError::Mismatch { expected, actual }) ==> expected as int == (
        x@[0] * x@[1] + x@[2] * x@[3]) % (p as int) && actual as int == protocol_output(
            p as int,
            g as int,
            x@,
            lambda@,
        ) && expected != actual,
        r is Err <==> protocol_output(p as int, g as int, x@, lambda@) != (x@[0] * x@[1] + x@[2]
            * x@[3]) % (p as int),
        is_prime(p as int) && g % p != 0 ==> r is Ok,
{
    let expected = expected_result(p, x);
    let run = run_protocol(p, g, x, lambda);
    proof {
        lemma_run_output(run, p, g, x@, lambda@);
        if is_prime(p as int) && g % p != 0 {
            lemma_protocol_correct(run, p, g, x@, lambda@);
        }
    }
    if run.z == expected {
        Ok(run)
    } else {
        Err(ProtocolError::Mismatch { expected, actual: run.z })
    }
}

} // verus!
