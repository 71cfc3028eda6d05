use chain_race::reset_policy::enumerate_policies;
use chain_race::reset_policy::linear_reset_policy;
use chain_race::reset_policy::PolicyIterator;

fn binom(n: u64, k: u64) -> u64 {
    if k > n {
        return 0;
    }
    let mut result: u64 = 1;
    for i in 0..k {
        result = result * (n - i) / (i + 1);
    }
    result
}

#[test]
fn enumerator_small_size_two() {
    let mut it = PolicyIterator::new(2, 2);
    assert_eq!(it.next(), Some(vec![0, 0]));
    assert_eq!(it.next(), Some(vec![0, 1]));
    assert_eq!(it.next(), Some(vec![0, 2]));
    assert_eq!(it.next(), None);
}

#[test]
fn enumerator_single_entry() {
    let mut it = PolicyIterator::new(1, 7);
    assert_eq!(it.next(), Some(vec![0]));
    assert_eq!(it.next(), None);
}

#[test]
fn enumerator_counts_match_binomial() {
    for (size, max_value) in [(1, 5), (2, 2), (3, 2), (4, 3), (5, 4), (9, 5)] {
        let policies = enumerate_policies(size, max_value);
        let expected = binom(max_value as u64 + size as u64 - 1, size as u64 - 1);
        assert_eq!(policies.len() as u64, expected);
    }
}

#[test]
fn enumerator_non_decreasing() {
    for policy in enumerate_policies(5, 3) {
        assert_eq!(policy.len(), 5);
        for pair in policy.windows(2) {
            assert!(pair[0] <= pair[1]);
        }
    }
}

#[test]
fn enumerator_order_and_start() {
    let policies = enumerate_policies(4, 2);
    assert_eq!(policies[0], vec![0, 0, 0, 0]);
    for policy in &policies {
        assert_eq!(policy[0], 0);
    }
    for pair in policies.windows(2) {
        assert!(pair[0] < pair[1], "enumeration must be strictly increasing");
    }
}

#[test]
fn policy_iterator_matches_enumerate() {
    let mut it = PolicyIterator::new(3, 3);
    let mut collected: Vec<Vec<i64>> = Vec::new();
    while let Some(policy) = it.next() {
        collected.push(policy);
    }
    assert_eq!(collected, enumerate_policies(3, 3));
}

#[test]
fn linear_reset_policy_values() {
    assert_eq!(linear_reset_policy(4, 5), vec![0, 1, 2, 3, 5]);
    assert_eq!(linear_reset_policy(1, 0), vec![0, 0]);
    assert_eq!(linear_reset_policy(3, 6), vec![0, 2, 4, 6]);
}
