//! Enumeration of admissible reset policies: non-decreasing integer
//! sequences of a given length whose entries lie between zero and a given
//! maximum, produced in the classic rightmost-incrementable-position order.

use vstd::prelude::*;

verus! {

/// No adjacent pair of entries decreases.
pub open spec fn non_decreasing(s: Seq<i64>) -> bool {
    forall|i: int| #![trigger s[i]] 0 <= i < s.len() - 1 ==> s[i] <= s[i + 1]
}

/// Pascal's rule: the number of ways to choose `k` items out of `n`.
pub open spec fn binomial(n: nat, k: nat) -> nat
    decreases n,
{
    if k == 0 {
        1
    } else if n == 0 {
        0
    } else {
        binomial((n - 1) as nat, (k - 1) as nat) + binomial((n - 1) as nat, k)
    }
}

/// The number of non-decreasing sequences of length `len` whose entries lie
/// in `[lo, hi]`, counted by whether the first entry equals `lo`.
pub open spec fn num_nondec(len: nat, lo: int, hi: int) -> nat
    decreases len, hi + 1 - lo,
{
    if len == 0 {
        1
    } else if lo > hi {
        0
    } else {
        num_nondec((len - 1) as nat, lo, hi) + num_nondec(len, lo + 1, hi)
    }
}

pub proof fn lemma_binomial_above(n: nat, k: nat)
    requires
        k > n,
    ensures
        binomial(n, k) == 0,
    decreases n,
{
    if n > 0 {
        lemma_binomial_above((n - 1) as nat, (k - 1) as nat);
        lemma_binomial_above((n - 1) as nat, k);
    }
}

pub proof fn lemma_binomial_positive(n: nat, k: nat)
    requires
        k <= n,
    ensures
        binomial(n, k) >= 1,
    decreases n,
{
    if k > 0 {
        lemma_binomial_positive((n - 1) as nat, (k - 1) as nat);
    }
}

/// The count of bounded non-decreasing sequences is a binomial coefficient.
pub proof fn lemma_num_nondec_binomial(len: nat, lo: int, hi: int)
    requires
        lo <= hi,
    ensures
        num_nondec(len, lo, hi) == binomial((hi - lo + len) as nat, len),
    decreases len, hi + 1 - lo,
{
    if len == 0 {
    } else {
        lemma_num_nondec_binomial((len - 1) as nat, lo, hi);
        if lo < hi {
            lemma_num_nondec_binomial(len, lo + 1, hi);
        } else {
            lemma_binomial_above((len - 1) as nat, len);
            assert(num_nondec(len, lo + 1, hi) == 0);
        }
        assert(num_nondec(len, lo, hi) == num_nondec((len - 1) as nat, lo, hi) + num_nondec(
            len,
            lo + 1,
            hi,
        ));
        assert(binomial((hi - lo + len) as nat, len) == binomial(
            (hi - lo + len - 1) as nat,
            (len - 1) as nat,
        ) + binomial((hi - lo + len - 1) as nat, len));
    }
}

/// Only one non-decreasing sequence exists when only one value is allowed.
pub proof fn lemma_num_nondec_single(len: nat, v: int)
    ensures
        num_nondec(len, v, v) == 1,
    decreases len,
{
    if len > 0 {
        lemma_num_nondec_single((len - 1) as nat, v);
        assert(num_nondec(len, v + 1, v) == 0);
    }
}

/// How many admissible arrays are still to come when the enumerator's
/// current array is `a`: one for `a` itself, plus, for every position
/// `k >= p`, one for every way to raise position `k` and refill the tail.
/// Position `0` is pinned, so the enumerator counts from position `1`.
pub open spec fn tail_count(a: Seq<i64>, max_value: i64, p: int) -> nat
    decreases a.len() - p,
{
    if p < 0 || p >= a.len() {
        1
    } else {
        tail_count(a, max_value, p + 1) + num_nondec(
            (a.len() - p) as nat,
            a[p] + 1,
            max_value as int,
        )
    }
}

/// When every entry from position `p` on equals `w`, the remaining count is
/// exactly the number of non-decreasing tails over `[w, max_value]`.
pub proof fn lemma_tail_count_constant(a: Seq<i64>, max_value: i64, p: int, w: int)
    requires
        0 <= p <= a.len(),
        w <= max_value,
        forall|k: int| p <= k < a.len() ==> a[k] == w,
    ensures
        tail_count(a, max_value, p) == num_nondec((a.len() - p) as nat, w, max_value as int),
    decreases a.len() - p,
{
    if p < a.len() {
        lemma_tail_count_constant(a, max_value, p + 1, w);
    }
}

/// Positions before `q` contribute the same remaining count for two arrays
/// that agree on them.
pub proof fn lemma_tail_count_congruent(a: Seq<i64>, b: Seq<i64>, max_value: i64, p: int, q: int)
    requires
        a.len() == b.len(),
        0 <= p <= q <= a.len(),
        forall|k: int| p <= k < q ==> a[k] == b[k],
    ensures
        tail_count(a, max_value, p) + tail_count(b, max_value, q) == tail_count(b, max_value, p)
            + tail_count(a, max_value, q),
    decreases q - p,
{
    if p < q {
        lemma_tail_count_congruent(a, b, max_value, p + 1, q);
    }
}

/// Raising the rightmost raisable position and refilling the tail with the
/// raised value is the immediate successor: it leaves exactly one fewer
/// array to come.
pub proof fn lemma_advance_decreases(a: Seq<i64>, b: Seq<i64>, max_value: i64, i: int)
    requires
        a.len() == b.len(),
        1 <= i < a.len(),
        a[i] < max_value,
        forall|k: int| i < k < a.len() ==> a[k] == max_value,
        forall|k: int| 0 <= k < i ==> b[k] == a[k],
        forall|k: int| i <= k < a.len() ==> b[k] == a[i] + 1,
    ensures
        tail_count(b, max_value, 1) + 1 == tail_count(a, max_value, 1),
{
    let w = a[i] + 1;
    lemma_tail_count_congruent(a, b, max_value, 1, i);
    lemma_tail_count_constant(a, max_value, i + 1, max_value as int);
    lemma_num_nondec_single((a.len() - i - 1) as nat, max_value as int);
    lemma_tail_count_constant(b, max_value, i, w);
    assert(tail_count(a, max_value, i) == 1 + num_nondec((a.len() - i) as nat, w, max_value as int));
}

/// `b` is the enumerator's successor of `a`: the rightmost position below
/// `max_value` (position `0` never counts) is raised by one and every later
/// position is set to the raised value.
pub open spec fn advances_to(a: Seq<i64>, b: Seq<i64>, max_value: i64) -> bool {
    exists|i: int|
        #![trigger a[i]]
        1 <= i < a.len() && a[i] < max_value && (forall|k: int|
            i < k < a.len() ==> a[k] == max_value) && (b =~= Seq::new(
            a.len(),
            |k: int|
                if k < i {
                    a[k]
                } else {
                    (a[i] + 1) as i64
                },
        ))
}

/// Produces every non-decreasing sequence of length `size` over
/// `[0, max_value]` that starts at `0`, beginning with the all-zero
/// sequence.  To advance, the rightmost position below `max_value` is
/// raised by one and every later position is set to the raised value;
/// position `0` is never raised, so the first entry stays `0`.
#[derive(Clone)]
pub struct PolicyIterator {
    pub size: usize,
    pub max_value: i64,
    pub current_array: Vec<i64>,
    pub done: bool,
}

impl PolicyIterator {
    pub open spec fn wf(self) -> bool {
        &&& self.size >= 1
        &&& self.max_value >= 0
        &&& self.current_array@.len() == self.size
        &&& self.current_array@[0] == 0
        &&& non_decreasing(self.current_array@)
        &&& forall|k: int| 0 <= k < self.size ==> 0 <= #[trigger] self.current_array@[k] <= self.max_value
    }

    /// The number of arrays this iterator has still to yield.
    pub open spec fn remaining(self) -> nat {
        if self.done {
            0
        } else {
            tail_count(self.current_array@, self.max_value, 1)
        }
    }

    pub fn new(size: usize, max_value: i64) -> (it: Self)
        requires
            size >= 1,
            max_value >= 0,
        ensures
            it.wf(),
            it.size == size,
            it.max_value == max_value,
            !it.done,
            it.current_array@ == Seq::new(size as nat, |k: int| 0i64),
            it.remaining() == binomial((max_value + size - 1) as nat, (size - 1) as nat),
    {
        let mut current_array: Vec<i64> = Vec::new();
        while current_array.len() < size
            invariant
                current_array@.len() <= size,
                forall|k: int| 0 <= k < current_array@.len() ==> current_array@[k] == 0i64,
            decreases size - current_array.len(),
        {
            current_array.push(0);
        }
        proof {
            assert(current_array@ =~= Seq::new(size as nat, |k: int| 0i64));
            lemma_tail_count_constant(current_array@, max_value, 1, 0);
            lemma_num_nondec_binomial((size - 1) as nat, 0, max_value as int);
        }
        PolicyIterator { size, max_value, current_array, done: false }
    }

    /// Yields the current array and steps to its successor; yields `None`
    /// once every admissible array has been produced.
    pub fn next(&mut self) -> (r: Option<Vec<i64>>)
        requires
            old(self).wf(),
        ensures
            final(self).wf(),
            final(self).size == old(self).size,
            final(self).max_value == old(self).max_value,
            r is Some <==> !old(self).done,
            old(self).done ==> final(self).done && final(self).current_array@ == old(
                self,
            ).current_array@,
            !old(self).done ==> {
                &&& (r matches Some(v) && v@ == old(self).current_array@)
                &&& final(self).remaining() + 1 == old(self).remaining()
                &&& (!final(self).done ==> advances_to(
                    old(self).current_array@,
                    final(self).current_array@,
                    old(self).max_value,
                ))
                &&& (final(self).done ==> (forall|k: int|
                    1 <= k < old(self).size ==> old(self).current_array@[k] == old(self).max_value)
                    && final(self).current_array@ == old(self).current_array@)
            },
    {
        if self.done {
            return None;
        }
        let result = self.current_array.clone();
        let ghost prev = self.current_array@;
        proof {
            assert forall|k: int| 0 <= k < prev.len() implies result@[k] == prev[k] by {
                assert(cloned(self.current_array@[k], result@[k]));
            }
            assert(result@ =~= prev);
        }
        let mut i: usize = self.size;
        while i > 1
            invariant
                old(self).wf(),
                1 <= i <= self.size || (self.size == 1 && i == 1),
                i <= self.size,
                *self == *old(self),
                self.current_array@ == prev,
                prev == old(self).current_array@,
                result@ == prev,
                !self.done,
                forall|k: int| i <= k < self.size ==> prev[k] == self.max_value,
            decreases i,
        {
            i = i - 1;
            if self.current_array[i] < self.max_value {
                let w = self.current_array[i] + 1;
                let mut j: usize = i;
                while j < self.size
                    invariant
                        old(self).wf(),
                        1 <= i <= j <= self.size,
                        i < self.size,
                        self.size == old(self).size,
                        self.max_value == old(self).max_value,
                        self.done == old(self).done,
                        !self.done,
                        prev == old(self).current_array@,
                        result@ == prev,
                        prev[i as int] < self.max_value,
                        w == prev[i as int] + 1,
                        self.current_array@.len() == self.size,
                        forall|k: int| 0 <= k < i ==> self.current_array@[k] == prev[k],
                        forall|k: int| i <= k < j ==> self.current_array@[k] == w,
                        forall|k: int| j <= k < self.size ==> self.current_array@[k] == prev[k],
                    decreases self.size - j,
                {
                    self.current_array.set(j, w);
                    j = j + 1;
                }
                proof {
                    let cur = self.current_array@;
                    assert(cur =~= Seq::new(
                        self.size as nat,
                        |k: int| if k < i { prev[k] } else { (prev[i as int] + 1) as i64 },
                    ));
                    assert(non_decreasing(cur)) by {
                        assert forall|k: int| 0 <= k < cur.len() - 1 implies #[trigger] cur[k] <= cur[
                            k + 1
                        ] by {
                            if k + 1 == i {
                                assert(prev[k] <= prev[i as int]);
                            }
                        }
                    }
                    lemma_advance_decreases(prev, cur, self.max_value, i as int);
                    let iw = i as int;
                    assert(1 <= iw < old(self).size);
                    assert(old(self).current_array@[iw] < old(self).max_value);
                    assert(forall|k: int|
                        iw < k < old(self).size ==> old(self).current_array@[k] == old(
                            self,
                        ).max_value);
                    assert(self.current_array@ =~= Seq::new(
                        old(self).current_array@.len(),
                        |k: int|
                            if k < iw {
                                old(self).current_array@[k]
                            } else {
                                (old(self).current_array@[iw] + 1) as i64
                            },
                    ));
                    assert(advances_to(
                        old(self).current_array@,
                        self.current_array@,
                        old(self).max_value,
                    ));
                }
                return Some(result);
            }
        }
        self.done = true;
        proof {
            lemma_tail_count_constant(prev, self.max_value, 1, self.max_value as int);
            lemma_num_nondec_single((prev.len() - 1) as nat, self.max_value as int);
        }
        Some(result)
    }
}

/// Collects the whole enumeration.  The number of policies produced is the
/// binomial coefficient `C(max_value + size - 1, size - 1)`, and every
/// produced policy is a non-decreasing sequence of length `size` over
/// `[0, max_value]` starting at `0`.
#[verifier::rlimit(60)]
pub fn enumerate_policies(size: usize, max_value: i64) -> (policies: Vec<Vec<i64>>)
    requires
        size >= 1,
        max_value >= 0,
    ensures
        policies@.len() == binomial((max_value + size - 1) as nat, (size - 1) as nat),
        forall|n: int|
            0 <= n < policies@.len() ==> {
                &&& policies@[n]@.len() == size
                &&& policies@[n]@[0] == 0
                &&& non_decreasing(policies@[n]@)
                &&& forall|k: int| 0 <= k < size ==> 0 <= #[trigger] policies@[n]@[k] <= max_value
            },
        policies@[0]@ == Seq::new(size as nat, |k: int| 0i64),
        forall|n: int|
            0 <= n < policies@.len() - 1 ==> advances_to(
                #[trigger] policies@[n]@,
                policies@[n + 1]@,
                max_value,
            ),
{
    let mut it = PolicyIterator::new(size, max_value);
    let ghost total = it.remaining();
    proof {
        lemma_binomial_positive((max_value + size - 1) as nat, (size - 1) as nat);
    }
    let mut policies: Vec<Vec<i64>> = Vec::new();
    loop
        invariant
            it.wf(),
            it.size == size,
            it.max_value == max_value,
            policies@.len() + it.remaining() == total,
            total == binomial((max_value + size - 1) as nat, (size - 1) as nat),
            policies@.len() == 0 ==> !it.done && it.current_array@ == Seq::new(
                size as nat,
                |k: int| 0i64,
            ),
            policies@.len() > 0 ==> policies@[0]@ == Seq::new(size as nat, |k: int| 0i64),
            policies@.len() > 0 && !it.done ==> advances_to(
                policies@[policies@.len() - 1]@,
                it.current_array@,
                max_value,
            ),
            forall|n: int|
                0 <= n < policies@.len() - 1 ==> advances_to(
                    #[trigger] policies@[n]@,
                    policies@[n + 1]@,
                    max_value,
                ),
            forall|n: int|
                0 <= n < policies@.len() ==> {
                    &&& policies@[n]@.len() == size
                    &&& policies@[n]@[0] == 0
                    &&& non_decreasing(policies@[n]@)
                    &&& forall|k: int| 0 <= k < size ==> 0 <= #[trigger] policies@[n]@[k] <= max_value
                },
        ensures
            policies@.len() == total,
            policies@.len() > 0 ==> policies@[0]@ == Seq::new(size as nat, |k: int| 0i64),
            forall|n: int|
                0 <= n < policies@.len() - 1 ==> advances_to(
                    #[trigger] policies@[n]@,
                    policies@[n + 1]@,
                    max_value,
                ),
            forall|n: int|
                0 <= n < policies@.len() ==> {
                    &&& policies@[n]@.len() == size
                    &&& policies@[n]@[0] == 0
                    &&& non_decreasing(policies@[n]@)
                    &&& forall|k: int| 0 <= k < size ==> 0 <= #[trigger] policies@[n]@[k] <= max_value
                },
        decreases it.remaining(),
    {
        let ghost it_prev = it;
        match it.next() {
            Some(v) => {
                let ghost n0 = policies@.len() as int;
                policies.push(v);
                proof {
                    assert(policies@[n0]@ == it_prev.current_array@);
                    if n0 > 0 {
                        assert(advances_to(policies@[n0 - 1]@, policies@[n0]@, max_value));
                    }
                    if !it.done {
                        assert(advances_to(policies@[n0]@, it.current_array@, max_value));
                    }
                }
            },
            None => {
                break ;
            },
        }
    }
    policies
}

/// The reset policy whose tolerance grows linearly with the attacker's
/// height: entry `h` is `max_tolerable_height_difference * h`, scaled down
/// by the confirmation depth with truncating division.
pub fn linear_reset_policy(confirmation_depth: i64, max_tolerable_height_difference: i64) -> (policy:
    Vec<i64>)
    requires
        1 <= confirmation_depth < i64::MAX,
        max_tolerable_height_difference >= 0,
        max_tolerable_height_difference * confirmation_depth <= i64::MAX,
    ensures
        policy@.len() == confirmation_depth + 1,
        forall|h: int|
            0 <= h <= confirmation_depth ==> policy@[h] == (max_tolerable_height_difference as int) * h
                / (confirmation_depth as int),
{
    let mut policy: Vec<i64> = Vec::new();
    let mut height_a: i64 = 0;
    while height_a <= confirmation_depth
        invariant
            1 <= confirmation_depth < i64::MAX,
            max_tolerable_height_difference >= 0,
            max_tolerable_height_difference * confirmation_depth <= i64::MAX,
            0 <= height_a <= confirmation_depth + 1,
            policy@.len() == height_a,
            forall|h: int|
                0 <= h < height_a ==> policy@[h] == (max_tolerable_height_difference as int) * h
                    / (confirmation_depth as int),
        decreases confirmation_depth + 1 - height_a,
    {
        proof {
            assert(max_tolerable_height_difference * height_a <= max_tolerable_height_difference
                * confirmation_depth) by (nonlinear_arith)
                requires
                    0 <= height_a <= confirmation_depth,
                    max_tolerable_height_difference >= 0,
            ;
            assert(max_tolerable_height_difference * height_a >= 0) by (nonlinear_arith)
                requires
                    height_a >= 0,
                    max_tolerable_height_difference >= 0,
            ;
        }
        policy.push(max_tolerable_height_difference * height_a / confirmation_depth);
        height_a = height_a + 1;
    }
    policy
}

} // verus!
