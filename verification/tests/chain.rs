use chain_race::analysis::TransitionStructure;
use chain_race::simulation::simulate_until_win;
use nalgebra::DMatrix;
use rand::distributions::Bernoulli;

fn assemble_matrix(chain: &TransitionStructure, alpha: f64, rate_delay_product: f64) -> DMatrix<f64> {
    let chance_of_fork = 1.0 - f64::exp(-rate_delay_product);
    let gamma = (1.0 - alpha) * chance_of_fork;
    let beta = 1.0 - alpha - gamma;
    let n = chain.num_transient;
    let mut matrix = DMatrix::<f64>::zeros(n, n);
    for edge in chain.edges.iter() {
        if let Some(j) = edge.alpha_dst {
            matrix[(edge.src, j)] += alpha;
        }
        matrix[(edge.src, edge.beta_dst)] += beta;
        matrix[(edge.src, edge.src)] += gamma;
    }
    matrix
}

fn expected_steps(alpha: f64, rate_delay_product: f64, policy: Vec<i64>) -> f64 {
    let chain = TransitionStructure::new(policy);
    let q_matrix = assemble_matrix(&chain, alpha, rate_delay_product);
    let n = chain.num_transient;
    let identity = DMatrix::<f64>::identity(n, n);
    let inverse = (identity - q_matrix).try_inverse().expect("matrix should be invertible");
    let sums = inverse.column_sum();
    sums[0]
}

fn monte_carlo(num_trials: usize, alpha: f64, policy: &Vec<i64>) -> f64 {
    let dist = Bernoulli::new(alpha).expect("alpha is between 0 and 1");
    let mut total: f64 = 0.0;
    for _ in 0..num_trials {
        total += simulate_until_win(&dist, policy) as f64;
    }
    total / num_trials as f64
}

#[test]
fn transient_count_matches_closed_form() {
    for policy in [vec![0, 1, 2, 3], vec![0, 0, 0], vec![0, 5, 5, 5], vec![0], vec![0, 4]] {
        let sum: i64 = policy.iter().sum();
        let d = policy.len() as i64 - 1;
        let expected = (sum + d * (d + 1) / 2) as usize;
        let chain = TransitionStructure::new(policy);
        assert_eq!(chain.num_transient, expected);
        assert_eq!(chain.coords.len(), expected);
        assert_eq!(chain.edges.len(), expected);
    }
}

#[test]
fn state_ids_are_consecutive() {
    let chain = TransitionStructure::new(vec![0, 1, 2, 3]);
    for (n, edge) in chain.edges.iter().enumerate() {
        assert_eq!(edge.src, n);
    }
}

#[test]
fn node_index_matches_reference() {
    let chain = TransitionStructure::new(vec![0, 1, 2, 3]);
    assert_eq!(chain.num_transient, 12);
    // the origin, whatever the lead
    assert_eq!(chain.node_index(0, 0), 0);
    // a lead beyond the tolerance wraps back to the origin
    assert_eq!(chain.node_index(2, 5), 0);
    // heights beyond the confirmation depth are capped
    assert_eq!(chain.node_index(9, 3), chain.node_index(3, 3));
    // the winning corner is the sentinel one past the transient range
    assert_eq!(chain.node_index(3, 0), 12);
    assert_eq!(chain.node_index(3, -2), 12);
    // dense slots: height 1 owns ids 1..=3, height 2 ids 4..=8, height 3 ids 9..=11
    assert_eq!(chain.node_index(1, 1), 1);
    assert_eq!(chain.node_index(1, 0), 2);
    assert_eq!(chain.node_index(1, -1), 3);
    assert_eq!(chain.node_index(2, 2), 4);
    assert_eq!(chain.node_index(2, -2), 8);
    assert_eq!(chain.node_index(3, 3), 9);
    assert_eq!(chain.node_index(3, 1), 11);
}

#[test]
fn row_sums_are_one() {
    let alpha = 0.25;
    let chain = TransitionStructure::new(vec![0, 1, 2, 3]);
    let matrix = assemble_matrix(&chain, alpha, 1.0);
    for i in 0..chain.num_transient {
        let mut row_sum: f64 = matrix.row(i).sum();
        if chain.edges[i].alpha_dst.is_none() {
            // the implicit absorption column
            row_sum += alpha;
        }
        assert!((row_sum - 1.0).abs() < 1e-12, "row {} sums to {}", i, row_sum);
    }
}

#[test]
fn check_gamma() {
    let chain = TransitionStructure::new(vec![0, 1, 2, 3]);
    let matrix = assemble_matrix(&chain, 0.25, 1.0);
    println!("{:.2}", matrix);
}

#[test]
fn analytic_monte_carlo_agree() {
    // the simulator draws only attacker-versus-honest outcomes and never a
    // contested fork, so it estimates the chain with gamma == 0: a zero
    // rate-delay product on the analytic side
    let analytic = expected_steps(0.25, 0.0, vec![0, 1, 2, 3]);
    let sampled = monte_carlo(100_000, 0.25, &vec![0, 1, 2, 3]);
    let relative = (sampled - analytic).abs() / analytic;
    assert!(relative < 0.02, "analytic {} vs sampled {}", analytic, sampled);
}

#[test]
fn alpha_monotonicity() {
    let alphas = [0.2, 0.3, 0.4, 0.5, 0.6, 0.7, 0.8];
    let mut previous = f64::INFINITY;
    for alpha in alphas {
        let steps = expected_steps(alpha, 0.5, vec![0, 1, 2, 3]);
        assert!(steps < previous, "expected steps must strictly fall as alpha grows");
        previous = steps;
    }
}
