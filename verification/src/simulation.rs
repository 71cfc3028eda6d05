//! Stochastic replay of the double-spend race.
//!
//! One trial draws block outcomes - `true` when the attacker mines the next
//! block - and applies the race rules step by step: an attacker block
//! raises the attacker's height and wins once the height reaches the
//! confirmation depth with the honest chain no longer ahead; an honest
//! block raises the honest height and, once the honest lead grows beyond
//! the policy's tolerance at the attacker's current height, resets both
//! heights to zero.  The rules themselves are the spec functions below; the
//! sampling is the only trusted part.

use vstd::prelude::*;

use crate::policy_ok;

verus! {

/// Declares rand's Bernoulli distribution so trial functions can carry it;
/// it stays opaque here.
#[verifier::external_type_specification]
#[verifier::external_body]
pub struct ExBernoulli(rand::distributions::Bernoulli);

/// Declares rand's thread-local generator so trial functions can hold one;
/// it stays opaque here.
#[verifier::external_type_specification]
#[verifier::external_body]
pub struct ExThreadRng(rand::rngs::ThreadRng);

/// Relies on rand::thread_rng for a thread-local generator; nothing is
/// assumed of it.
#[verifier::external_body]
fn fresh_rng() -> rand::rngs::ThreadRng {
    rand::thread_rng()
}

/// Relies on Distribution::sample of rand's Bernoulli distribution.  The
/// outcome is random, so nothing is promised of it; every caller must cope
/// with both values.
#[verifier::external_body]
fn sample_attacker_block(
    dist: &rand::distributions::Bernoulli,
    rng: &mut rand::rngs::ThreadRng,
) -> bool {
    rand::distributions::Distribution::sample(dist, rng)
}

/// The race as seen after some prefix of block outcomes: still running
/// with the two heights, or already won by the attacker.
pub enum RaceState {
    Running { height_a: int, height_b: int },
    Won,
}

/// One step of the race from heights `(a, b)`.  An attacker block wins
/// once the attacker is at least `confirmationDepth` high and not behind;
/// an honest block beyond the tolerated lead resets both heights.
pub open spec fn race_step(p: Seq<i64>, a: int, b: int, attacker: bool) -> RaceState {
    if attacker {
        if b <= a + 1 && a + 1 >= p.len() - 1 {
            RaceState::Won
        } else {
            RaceState::Running { height_a: a + 1, height_b: b }
        }
    } else {
        if b + 1 - a > p[crate::analysis::cap_height(p, a)] {
            RaceState::Running { height_a: 0, height_b: 0 }
        } else {
            RaceState::Running { height_a: a, height_b: b + 1 }
        }
    }
}

/// The race state after replaying every outcome in `samples`, starting
/// from height zero on both sides.  Winning is absorbing.
pub open spec fn race_after(p: Seq<i64>, samples: Seq<bool>) -> RaceState
    decreases samples.len(),
{
    if samples.len() == 0 {
        RaceState::Running { height_a: 0, height_b: 0 }
    } else {
        match race_after(p, samples.drop_last()) {
            RaceState::Won => RaceState::Won,
            RaceState::Running { height_a, height_b } => race_step(
                p,
                height_a,
                height_b,
                samples.last(),
            ),
        }
    }
}

/// The attacker wins for the first time on the `k`-th block.
pub open spec fn wins_at(p: Seq<i64>, samples: Seq<bool>, k: int) -> bool {
    &&& 1 <= k <= samples.len()
    &&& race_after(p, samples.take(k)) is Won
    &&& !(race_after(p, samples.take(k - 1)) is Won)
}

/// Winning is absorbing: once a prefix has won, the whole sequence has.
proof fn lemma_won_absorbing(p: Seq<i64>, samples: Seq<bool>, m: int)
    requires
        0 <= m <= samples.len(),
        race_after(p, samples.take(m)) is Won,
    ensures
        race_after(p, samples) is Won,
    decreases samples.len() - m,
{
    if m < samples.len() {
        assert(samples.take(m + 1).drop_last() =~= samples.take(m));
        assert(race_after(p, samples.take(m + 1)) is Won);
        lemma_won_absorbing(p, samples, m + 1);
    } else {
        assert(samples.take(m) =~= samples);
    }
}

/// Replays a recorded sequence of block outcomes and reports the step on
/// which the attacker first won, or `None` when the sequence ends with the
/// race still running.
pub fn race_steps(reset_policy: &Vec<i64>, samples: &Vec<bool>) -> (r: Option<i64>)
    requires
        policy_ok(reset_policy@),
        reset_policy@.len() <= i64::MAX,
        samples@.len() <= i64::MAX,
    ensures
        r is Some <==> race_after(reset_policy@, samples@) is Won,
        r matches Some(k) ==> wins_at(reset_policy@, samples@, k as int),
{
    let ghost p = reset_policy@;
    let confirmation_depth: i64 = (reset_policy.len() - 1) as i64;
    let mut height_a: i64 = 0;
    let mut height_b: i64 = 0;
    let mut idx: usize = 0;
    while idx < samples.len()
        invariant
            policy_ok(p),
            p == reset_policy@,
            p.len() <= i64::MAX,
            p.len() <= usize::MAX,
            samples@.len() <= i64::MAX,
            confirmation_depth == p.len() - 1,
            0 <= idx <= samples@.len(),
            0 <= height_a <= idx,
            0 <= height_b <= idx,
            race_after(p, samples@.take(idx as int)) == (RaceState::Running {
                height_a: height_a as int,
                height_b: height_b as int,
            }),
        decreases samples@.len() - idx,
    {
        let attacker = samples[idx];
        proof {
            assert(samples@.take(idx as int + 1).drop_last() =~= samples@.take(idx as int));
            assert(samples@.take(idx as int + 1).last() == samples@[idx as int]);
        }
        idx = idx + 1;
        if attacker {
            height_a = height_a + 1;
            if height_b <= height_a && height_a >= confirmation_depth {
                proof {
                    assert(race_after(p, samples@.take(idx as int)) is Won);
                    assert(wins_at(p, samples@, idx as int));
                    lemma_won_absorbing(p, samples@, idx as int);
                }
                return Some(idx as i64);
            }
        } else {
            height_b = height_b + 1;
            let xe: usize = if height_a < confirmation_depth {
                height_a as usize
            } else {
                reset_policy.len() - 1
            };
            if height_b - height_a > reset_policy[xe] {
                height_a = 0;
                height_b = 0;
            }
        }
    }
    proof {
        assert(samples@.take(samples@.len() as int) =~= samples@);
    }
    None
}

/// Draws block outcomes from `dist` until the attacker wins and returns
/// the number of blocks mined, at least `1`.  Some recorded sequence of
/// outcomes wins exactly there; for a policy and distribution under which
/// the attacker can never win, the trial does not terminate (the counter
/// would saturate only after `i64::MAX` blocks).
pub fn simulate_until_win(dist: &rand::distributions::Bernoulli, reset_policy: &Vec<i64>) -> (num_steps:
    i64)
    requires
        policy_ok(reset_policy@),
        reset_policy@.len() <= i64::MAX,
    ensures
        1 <= num_steps,
        num_steps < i64::MAX ==> exists|samples: Seq<bool>|
            wins_at(reset_policy@, samples, num_steps as int),
{
    let ghost p = reset_policy@;
    let confirmation_depth: i64 = (reset_policy.len() - 1) as i64;
    let mut rng = fresh_rng();
    let mut height_a: i64 = 0;
    let mut height_b: i64 = 0;
    let mut num_steps: i64 = 0;
    let ghost mut trace: Seq<bool> = Seq::empty();
    while num_steps < i64::MAX
        invariant
            policy_ok(p),
            p == reset_policy@,
            p.len() <= i64::MAX,
            p.len() <= usize::MAX,
            confirmation_depth == p.len() - 1,
            0 <= num_steps <= i64::MAX,
            num_steps == trace.len(),
            0 <= height_a <= num_steps,
            0 <= height_b <= num_steps,
            race_after(p, trace) == (RaceState::Running {
                height_a: height_a as int,
                height_b: height_b as int,
            }),
        decreases i64::MAX - num_steps,
    {
        let attacker = sample_attacker_block(dist, &mut rng);
        let ghost prev_trace = trace;
        let ghost a0 = height_a as int;
        let ghost b0 = height_b as int;
        proof {
            trace = trace.push(attacker);
            assert(trace.drop_last() =~= prev_trace);
            assert(trace.last() == attacker);
            assert(race_after(p, trace) == race_step(p, a0, b0, attacker));
        }
        num_steps = num_steps + 1;
        if attacker {
            height_a = height_a + 1;
            if height_b <= height_a && height_a >= confirmation_depth {
                proof {
                    assert(race_after(p, trace) is Won);
                    assert(trace.take(num_steps as int) =~= trace);
                    assert(trace.take(num_steps as int - 1) =~= prev_trace);
                    assert(wins_at(p, trace, num_steps as int));
                }
                return num_steps;
            }
        } else {
            height_b = height_b + 1;
            let xe: usize = if height_a < confirmation_depth {
                height_a as usize
            } else {
                reset_policy.len() - 1
            };
            proof {
                assert(xe as int == crate::analysis::cap_height(p, a0));
            }
            if height_b - height_a > reset_policy[xe] {
                height_a = 0;
                height_b = 0;
            }
        }
    }
    num_steps
}

/// In a race where only the running state `(0, 0)` is ever reachable, the
/// state after any all-honest prefix is `(0, 0)`.
proof fn lemma_zero_policy_all_honest(samples: Seq<bool>)
    requires
        forall|j: int| 0 <= j < samples.len() ==> !samples[j],
    ensures
        race_after(seq![0i64], samples) == (RaceState::Running { height_a: 0, height_b: 0 }),
    decreases samples.len(),
{
    if samples.len() > 0 {
        lemma_zero_policy_all_honest(samples.drop_last());
    }
}

/// Under the zero-tolerance single-entry policy the running state is
/// always `(0, 0)`.
proof fn lemma_zero_policy_running_is_origin(samples: Seq<bool>)
    ensures
        race_after(seq![0i64], samples) matches RaceState::Running { height_a, height_b }
            ==> height_a == 0 && height_b == 0,
    decreases samples.len(),
{
    if samples.len() > 0 {
        lemma_zero_policy_running_is_origin(samples.drop_last());
    }
}

/// Once any block of the sequence is the attacker's, the zero-tolerance
/// race has been won.
proof fn lemma_zero_policy_any_attacker_wins(samples: Seq<bool>)
    requires
        exists|j: int| 0 <= j < samples.len() && samples[j],
    ensures
        race_after(seq![0i64], samples) is Won,
    decreases samples.len(),
{
    let j = choose|j: int| 0 <= j < samples.len() && samples[j];
    lemma_zero_policy_running_is_origin(samples.drop_last());
    if samples.last() {
    } else {
        assert(0 <= j < samples.len() - 1 && samples.drop_last()[j]);
        lemma_zero_policy_any_attacker_wins(samples.drop_last());
    }
}

/// With the degenerate policy `[0]` - confirmation depth zero and no
/// tolerated honest lead - the attacker wins exactly on its first mined
/// block: the race is won at step `k` precisely when block `k` is the
/// attacker's and every earlier block was honest.  The number of blocks of
/// a trial is therefore geometric, with mean `1 / alpha`.
pub proof fn lemma_degenerate_policy_first_attacker_block(samples: Seq<bool>, k: int)
    ensures
        wins_at(seq![0i64], samples, k) <==> (1 <= k <= samples.len() && samples[k - 1] && (
        forall|j: int| 0 <= j < k - 1 ==> !samples[j])),
{
    let p = seq![0i64];
    if 1 <= k <= samples.len() {
        if samples[k - 1] && (forall|j: int| 0 <= j < k - 1 ==> !samples[j]) {
            assert(samples.take(k - 1) =~= samples.take(k).drop_last());
            lemma_zero_policy_all_honest(samples.take(k - 1));
            assert(samples.take(k).last() == samples[k - 1]);
            assert(race_after(p, samples.take(k)) is Won);
            assert(wins_at(p, samples, k));
        }
        if wins_at(p, samples, k) {
            assert forall|j: int| 0 <= j < k - 1 implies !samples[j] by {
                if samples[j] {
                    assert(0 <= j < samples.take(k - 1).len() && samples.take(k - 1)[j]);
                    lemma_zero_policy_any_attacker_wins(samples.take(k - 1));
                }
            }
            lemma_zero_policy_all_honest(samples.take(k - 1));
            assert(samples.take(k - 1) =~= samples.take(k).drop_last());
            assert(samples.take(k).last() == samples[k - 1]);
            if !samples[k - 1] {
                assert(!(race_after(p, samples.take(k)) is Won));
            }
        }
    }
}

} // verus!
