use chain_race::simulation::race_steps;
use chain_race::simulation::simulate_until_win;
use rand::distributions::Bernoulli;

#[test]
fn race_steps_exact_replays() {
    // depth 1: a single attacker block wins at once
    assert_eq!(race_steps(&vec![0, 1], &vec![true]), Some(1));
    // an honest block at height 0 exceeds tolerance 0: reset, then win
    assert_eq!(race_steps(&vec![0, 1], &vec![false, true]), Some(2));
    // depth 3, three straight attacker blocks
    assert_eq!(race_steps(&vec![0, 1, 2, 3], &vec![true, true, true]), Some(3));
    // an honest block after the first attacker block is within tolerance 1
    assert_eq!(race_steps(&vec![0, 1, 2, 3], &vec![true, false, true, true]), Some(4));
    // an honest block at height 0 forces a reset first
    assert_eq!(race_steps(&vec![0, 1, 2], &vec![false, true, true]), Some(3));
    // the win is reported at the first winning step even if blocks follow
    assert_eq!(race_steps(&vec![0, 1], &vec![true, false, false]), Some(1));
}

#[test]
fn race_steps_still_running() {
    assert_eq!(race_steps(&vec![0, 1], &vec![false]), None);
    assert_eq!(race_steps(&vec![0, 1, 2, 3], &vec![true, true]), None);
    assert_eq!(race_steps(&vec![0, 1], &vec![]), None);
}

#[test]
fn race_steps_reset_on_excess_lead() {
    // three honest blocks put the lead beyond tolerance 1 at height 1:
    // reset, so the attacker must climb back to depth 2 from scratch
    assert_eq!(
        race_steps(&vec![0, 1, 2], &vec![true, false, false, false, true, true]),
        Some(6)
    );
}

#[test]
fn deterministic_attacker_wins_in_depth_steps() {
    let dist = Bernoulli::new(1.0).expect("alpha is between 0 and 1");
    assert_eq!(simulate_until_win(&dist, &vec![0, 1, 2, 3]), 3);
    assert_eq!(simulate_until_win(&dist, &vec![0]), 1);
    assert_eq!(simulate_until_win(&dist, &vec![0, 2, 2, 2, 2, 2, 2, 2, 2]), 8);
}

#[test]
fn degenerate_policy_mean_is_inverse_alpha() {
    // confirmation depth 0 with zero tolerance: the attacker wins on its
    // first mined block, so the trial length is geometric with mean 1/alpha
    let alpha = 0.5;
    let dist = Bernoulli::new(alpha).expect("alpha is between 0 and 1");
    let policy = vec![0];
    let num_trials = 200_000;
    let mut total: f64 = 0.0;
    for _ in 0..num_trials {
        total += simulate_until_win(&dist, &policy) as f64;
    }
    let mean = total / num_trials as f64;
    let expected = 1.0 / alpha;
    assert!(
        (mean - expected).abs() / expected < 0.02,
        "mean {} vs 1/alpha {}",
        mean,
        expected
    );
}

#[test]
fn simulation_counts_every_block() {
    let dist = Bernoulli::new(0.7).expect("alpha is between 0 and 1");
    for _ in 0..100 {
        assert!(simulate_until_win(&dist, &vec![0, 1]) >= 1);
    }
}
