use blind_mpc::arith::{add_mod, fermat_inverse, mod_inverse, mod_pow, mul_mod, ArithError};
use blind_mpc::node::Node;
use blind_mpc::protocol::{
    expected_result, leader_of, reconstruct_term, run_and_validate, run_protocol, term_of_input,
    ProtocolError, TERM1, TERM2,
};
use rand::Rng;

#[test]
fn test_secure_node_operation() {
    let p: u64 = 101;
    let g: u64 = 3;

    let mut rng = rand::thread_rng();

    let mut secure_nodes: Vec<Node> = (0..4).map(|i| Node::new(i, p, g)).collect();

    let x: Vec<u64> = vec![5, 3, 7, 4];
    let lambda_values: Vec<u64> = (0..4).map(|_| rng.gen_range(1..p)).collect();

    let expected_z = (x[0] * x[1] + x[2] * x[3]) % p;

    for (i, node) in secure_nodes.iter_mut().enumerate() {
        node.receive_input(i, x[i], lambda_values[i]);
    }

    let gamma_values_term1 = vec![lambda_values[0], lambda_values[1]];
    let gamma_values_term2 = vec![lambda_values[2], lambda_values[3]];
    secure_nodes[0].compute_gamma_value(TERM1, &gamma_values_term1);
    secure_nodes[2].compute_gamma_value(TERM2, &gamma_values_term2);

    for (i, node) in secure_nodes.iter_mut().enumerate() {
        let term_id = if i < 2 { TERM1 } else { TERM2 };
        node.compute_partial_product(term_id, i);
    }

    let mut y_values = vec![1u64, 1u64];
    for term_id in [TERM1, TERM2].iter() {
        let index: usize = if *term_id == TERM1 { 0 } else { 1 };
        for node in &secure_nodes {
            if let Some(partial_product) = node.partial_product(*term_id, node.node_id()) {
                y_values[index] = (y_values[index] * partial_product) % p;
            }
        }
        let leader: usize = if *term_id == TERM1 { 0 } else { 2 };
        if let Some(gamma_value) = secure_nodes[leader].gamma_value(*term_id) {
            y_values[index] = (y_values[index] * mod_pow(g, gamma_value, p)) % p;
        }
    }

    let z = (y_values[0] + y_values[1]) % p;
    assert_eq!(expected_z, z);
}

#[test]
fn test_gamma_value_computation() {
    let p: u64 = 101;
    let mut node = Node::new(0, p, 3);
    let test_term: usize = 7;

    let lambda_values: Vec<u64> = vec![2, 3];
    let expected_gamma_value = lambda_values.iter().sum::<u64>() % (p - 1);

    node.compute_gamma_value(test_term, &lambda_values);
    assert_eq!(node.gamma_value(test_term), Some(expected_gamma_value));
}

#[test]
fn small_scenario_reconstructs_z() {
    let x: Vec<u64> = vec![5, 3, 7, 4];
    let lambda: Vec<u64> = vec![2, 3, 6, 8];
    assert_eq!(expected_result(101, &x), 43);
    let run = run_protocol(101, 3, &x, &lambda);
    assert_eq!(run.z, 43);
    assert_eq!(run.nodes[0].gamma_value(TERM1), Some(5));
    assert_eq!(run.nodes[2].gamma_value(TERM2), Some(14));
    assert_eq!(run.nodes[1].gamma_value(TERM1), None);
    assert_eq!(run.nodes[3].gamma_value(TERM2), None);
    let checked = run_and_validate(101, 3, &x, &lambda);
    assert!(matches!(checked, Ok(r) if r.z == 43));
}

#[test]
fn large_prime_reconstructs_z() {
    let p: u64 = 982451653;
    let x: Vec<u64> = vec![982451652, 123456789, 5, 982451600];
    let lambda: Vec<u64> = vec![982451650, 1, 77777777, 982451652];
    let expected = ((x[0] as u128 * x[1] as u128 + x[2] as u128 * x[3] as u128) % p as u128) as u64;
    let run = run_protocol(p, 2, &x, &lambda);
    assert_eq!(run.z, expected);
    assert_eq!(expected_result(p, &x), expected);
}

#[test]
fn random_inputs_reconstruct_z() {
    let p: u64 = 982451653;
    let mut rng = rand::thread_rng();
    for _ in 0..20 {
        let x: Vec<u64> = (0..4).map(|_| rng.gen_range(1..p)).collect();
        let lambda: Vec<u64> = (0..4).map(|_| rng.gen_range(1..p)).collect();
        let run = run_and_validate(p, 2, &x, &lambda);
        assert!(run.is_ok());
    }
}

#[test]
fn zero_exponents_reconstruct_z() {
    let x: Vec<u64> = vec![5, 3, 7, 4];
    let lambda: Vec<u64> = vec![0, 0, 0, 0];
    let run = run_protocol(101, 3, &x, &lambda);
    assert_eq!(run.z, 43);
}

#[test]
fn rerun_gives_same_result() {
    let x: Vec<u64> = vec![5, 3, 7, 4];
    let lambda: Vec<u64> = vec![2, 3, 6, 8];
    let first = run_protocol(101, 3, &x, &lambda);
    let second = run_protocol(101, 3, &x, &lambda);
    assert_eq!(first.z, second.z);
    for i in 0..4 {
        assert_eq!(first.nodes[i].shared_value(i), second.nodes[i].shared_value(i));
    }
}

#[test]
fn generator_divisible_by_modulus_is_reported() {
    let x: Vec<u64> = vec![5, 3, 7, 4];
    let lambda: Vec<u64> = vec![2, 3, 6, 8];
    let checked = run_and_validate(101, 101, &x, &lambda);
    assert_eq!(checked.err(), Some(ProtocolError::Mismatch { expected: 43, actual: 0 }));
}

#[test]
fn receive_input_stores_unblinded_share() {
    let mut node = Node::new(0, 101, 3);
    node.receive_input(0, 5, 2);
    assert_eq!(node.shared_value(0), Some(23));
    assert_eq!(node.shared_value(1), None);
    node.receive_input(0, 5, 0);
    assert_eq!(node.shared_value(0), Some(5));
}

#[test]
fn partial_product_copies_share() {
    let mut node = Node::new(1, 101, 3);
    node.receive_input(1, 5, 2);
    node.compute_partial_product(TERM1, 1);
    assert_eq!(node.partial_product(TERM1, 1), Some(23));
    assert_eq!(node.partial_product(TERM2, 1), None);
}

#[test]
fn partial_product_without_share_changes_nothing() {
    let mut node = Node::new(1, 101, 3);
    node.receive_input(1, 5, 2);
    node.compute_partial_product(TERM1, 1);
    node.compute_partial_product(TERM2, 3);
    assert_eq!(node.partial_product(TERM2, 3), None);
    assert_eq!(node.partial_product(TERM1, 3), None);
    assert_eq!(node.partial_product(TERM1, 1), Some(23));
}

#[test]
fn correction_value_ignores_order_and_grouping() {
    let mut node = Node::new(0, 101, 3);
    node.compute_gamma_value(1, &vec![6, 8, 97]);
    node.compute_gamma_value(2, &vec![97, 8, 6]);
    node.compute_gamma_value(3, &vec![97]);
    node.compute_gamma_value(4, &vec![6, 8]);
    assert_eq!(node.gamma_value(1), Some(11));
    assert_eq!(node.gamma_value(2), Some(11));
    let grouped = (node.gamma_value(3).unwrap() + node.gamma_value(4).unwrap()) % 100;
    assert_eq!(grouped, 11);
}

#[test]
fn correction_value_of_no_exponents_is_zero() {
    let mut node = Node::new(0, 101, 3);
    node.compute_gamma_value(TERM1, &vec![]);
    assert_eq!(node.gamma_value(TERM1), Some(0));
}

#[test]
fn correction_value_of_large_exponents() {
    let mut node = Node::new(0, u64::MAX, 3);
    node.compute_gamma_value(TERM1, &vec![u64::MAX, u64::MAX, 5]);
    let order = (u64::MAX - 1) as u128;
    let sum = u64::MAX as u128 * 2 + 5;
    assert_eq!(node.gamma_value(TERM1), Some((sum % order) as u64));
}

#[test]
fn mod_pow_zero_exponent_is_one() {
    assert_eq!(mod_pow(0, 0, 2), 1);
    assert_eq!(mod_pow(12345, 0, 101), 1);
    assert_eq!(mod_pow(u64::MAX, 0, u64::MAX), 1);
}

#[test]
fn mod_pow_unit_exponent_reduces_base() {
    assert_eq!(mod_pow(250, 1, 101), 48);
    assert_eq!(mod_pow(7, 1, 101), 7);
}

#[test]
fn mod_pow_exact_values() {
    assert_eq!(mod_pow(3, 5, 101), 41);
    assert_eq!(mod_pow(2, 10, 1000), 24);
    assert_eq!(mod_pow(2, 982451652, 982451653), 1);
}

#[test]
fn mod_inverse_of_unit() {
    assert_eq!(mod_inverse(3, 101), Ok(34));
    assert_eq!(fermat_inverse(3, 101), 34);
    for a in 1..101u64 {
        let inv = mod_inverse(a, 101).unwrap();
        assert_eq!(a * inv % 101, 1);
    }
}

#[test]
fn mod_inverse_of_multiple_is_invalid() {
    assert_eq!(mod_inverse(0, 101), Err(ArithError::InvalidInput));
    assert_eq!(mod_inverse(202, 101), Err(ArithError::InvalidInput));
}

#[test]
fn mul_mod_and_add_mod_do_not_overflow() {
    let m: u64 = 1_000_000_007;
    let expected = ((u64::MAX as u128 * u64::MAX as u128) % m as u128) as u64;
    assert_eq!(mul_mod(u64::MAX, u64::MAX, m), expected);
    let expected_sum = ((u64::MAX as u128 * 2) % m as u128) as u64;
    assert_eq!(add_mod(u64::MAX, u64::MAX, m), expected_sum);
    assert_eq!(mul_mod(7, 8, 10), 6);
    assert_eq!(add_mod(7, 8, 10), 5);
}

#[test]
fn topology_of_terms() {
    assert_eq!(term_of_input(0), TERM1);
    assert_eq!(term_of_input(1), TERM1);
    assert_eq!(term_of_input(2), TERM2);
    assert_eq!(term_of_input(3), TERM2);
    assert_eq!(leader_of(TERM1), 0);
    assert_eq!(leader_of(TERM2), 2);
}

#[test]
fn reconstruct_term_multiplies_partial_products() {
    let x: Vec<u64> = vec![5, 3, 7, 4];
    let lambda: Vec<u64> = vec![2, 3, 6, 8];
    let run = run_protocol(101, 3, &x, &lambda);
    assert_eq!(reconstruct_term(&run.nodes, TERM1, 0, 101, 3), 15);
    assert_eq!(reconstruct_term(&run.nodes, TERM2, 2, 101, 3), 28);
    let nodes = vec![Node::new(0, 101, 3)];
    assert_eq!(reconstruct_term(&nodes, TERM1, 0, 101, 3), 1);
}
