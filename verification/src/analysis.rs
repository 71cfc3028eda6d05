//! Dense indexing of the transient race states and the symbolic transition
//! matrix of the absorbing Markov chain.
//!
//! A race state is a pair `(x, y)`: the attacker's height since the last
//! reset and the honest chain's lead.  For a policy of length `d + 1` the
//! transient states are every `(x, y)` with `1 <= y <= policy[x]` together
//! with every `(x, y)` with `-x <= y <= 0`, except the winning corner at
//! `x == d`.  Each transient state gets a dense id; the single absorbing
//! win state is the sentinel id one past the transient range.  Every
//! transition carries one of three probabilities - the attacker extends
//! (`alpha`), the honest side extends (`beta`), or a contested fork loops in
//! place (`gamma`) - so the matrix is kept here in exact symbolic form as
//! one unit of the corresponding weight per edge; scaling the units by the
//! numeric probabilities is left to the caller.

use vstd::prelude::*;

use crate::policy_ok;

verus! {

/// Sum of the first `n` tolerances of the policy.
pub open spec fn policy_sum(p: Seq<i64>, n: int) -> int
    decreases n,
{
    if n <= 0 {
        0
    } else {
        policy_sum(p, n - 1) + p[n - 1]
    }
}

/// `0 + 1 + ... + x`.
pub open spec fn triangle(x: int) -> int
    decreases x,
{
    if x <= 0 {
        0
    } else {
        triangle(x - 1) + x
    }
}

/// Number of dense ids taken by every height below `x`: height `h`
/// contributes one slot for each lead from `p[h]` down to `-h`.
pub open spec fn slots_below(p: Seq<i64>, x: int) -> int
    decreases x,
{
    if x <= 0 {
        0
    } else {
        slots_below(p, x - 1) + p[x - 1] + x
    }
}

/// Total number of transient states: every slot of every height, minus the
/// `d + 1` slots of the winning corner at the confirmation depth.
pub open spec fn transient_count(p: Seq<i64>) -> int {
    slots_below(p, p.len() - 1) + p[p.len() - 1]
}

pub proof fn lemma_slots_below_nonneg(p: Seq<i64>, x: int)
    requires
        policy_ok(p),
        0 <= x <= p.len(),
    ensures
        slots_below(p, x) >= 0,
    decreases x,
{
    if x > 0 {
        lemma_slots_below_nonneg(p, x - 1);
    }
}

pub proof fn lemma_slots_below_monotone(p: Seq<i64>, x1: int, x2: int)
    requires
        policy_ok(p),
        0 <= x1 <= x2 <= p.len(),
    ensures
        slots_below(p, x1) <= slots_below(p, x2),
    decreases x2 - x1,
{
    if x1 < x2 {
        lemma_slots_below_monotone(p, x1, x2 - 1);
    }
}

/// The slots of height `x` fit below the total transient count.
pub proof fn lemma_slots_fit(p: Seq<i64>, x: int)
    requires
        policy_ok(p),
        0 <= x <= p.len() - 1,
    ensures
        0 <= slots_below(p, x),
        slots_below(p, x) + p[x] <= transient_count(p),
        x < p.len() - 1 ==> slots_below(p, x) + p[x] + x + 1 <= transient_count(p),
        transient_count(p) >= 0,
{
    lemma_slots_below_nonneg(p, x);
    lemma_slots_below_nonneg(p, p.len() - 1);
    if x < p.len() - 1 {
        assert(slots_below(p, x) + p[x] + x + 1 == slots_below(p, x + 1));
        lemma_slots_below_monotone(p, x + 1, p.len() - 1);
    }
}

pub proof fn lemma_triangle_double(x: int)
    requires
        x >= 0,
    ensures
        2 * triangle(x) == x * (x + 1),
    decreases x,
{
    if x > 0 {
        lemma_triangle_double(x - 1);
        assert(triangle(x) == triangle(x - 1) + x);
        assert(2 * triangle(x - 1) == (x - 1) * x);
        assert((x - 1) * x + 2 * x == x * (x + 1)) by (nonlinear_arith);
        assert(2 * triangle(x) == x * (x + 1));
    } else {
        assert(triangle(x) == 0);
        assert(x * (x + 1) == 0) by (nonlinear_arith)
            requires
                x == 0,
        ;
    }
}

pub proof fn lemma_triangle_closed(x: int)
    requires
        x >= 0,
    ensures
        triangle(x) == x * (x + 1) / 2,
{
    lemma_triangle_double(x);
    assert(2 * triangle(x) / 2 == triangle(x));
}

pub proof fn lemma_slots_below_decomposed(p: Seq<i64>, x: int)
    requires
        x >= 0,
    ensures
        slots_below(p, x) == policy_sum(p, x) + triangle(x),
    decreases x,
{
    if x > 0 {
        lemma_slots_below_decomposed(p, x - 1);
    }
}

/// The number of transient states in closed form: the summed policy
/// tolerances plus `d * (d + 1) / 2` for a confirmation depth of `d`.
pub proof fn lemma_transient_count_closed_form(p: Seq<i64>)
    requires
        p.len() >= 1,
    ensures
        transient_count(p) == policy_sum(p, p.len() as int) + (p.len() - 1) * (p.len() as int) / 2,
{
    let d = p.len() - 1;
    lemma_slots_below_decomposed(p, d);
    lemma_triangle_closed(d);
    assert(policy_sum(p, d + 1) == policy_sum(p, d) + p[d]);
}

/// Heights beyond the confirmation depth count as the confirmation depth.
pub open spec fn cap_height(p: Seq<i64>, x: int) -> int {
    if x < p.len() - 1 {
        x
    } else {
        p.len() - 1
    }
}

/// The dense id of the state `(x, y)`.  Height `0` is the origin, id `0`,
/// whatever the lead.  A lead beyond the policy's tolerance wraps back to
/// the origin: the attack is abandoned and restarts.  The winning corner -
/// capped height at the confirmation depth with a non-positive lead - maps
/// to the sentinel `transient_count(p)`.  Everything else lands at its slot:
/// the slots of the lower heights plus the offset of `y` below `p[x]`.
pub open spec fn node_id(p: Seq<i64>, x: int, y: int) -> int {
    if x == 0 {
        0
    } else {
        let xe = cap_height(p, x);
        if y > p[xe] {
            0
        } else if xe == p.len() - 1 && y <= 0 {
            transient_count(p)
        } else {
            slots_below(p, xe) + p[xe] - y
        }
    }
}

/// How many transient states height `x` owns: leads `p[x]` down to `-x`,
/// except that the last height stops at lead `1` (the rest is the win).
pub open spec fn row_len(p: Seq<i64>, x: int) -> int {
    if x == p.len() - 1 {
        p[x] as int
    } else {
        p[x] + x + 1
    }
}

/// The outgoing transitions of one transient state: one unit of `alpha`
/// towards `alpha_dst` (`None` when the attacker's extension is the implicit
/// absorption into the win state), one unit of `beta` towards `beta_dst`,
/// and one unit of `gamma` back to `src` itself.
pub struct Edge {
    pub src: usize,
    pub alpha_dst: Option<usize>,
    pub beta_dst: usize,
}

/// The transient state `c` sits at dense index `n`.
pub open spec fn coord_ok(p: Seq<i64>, n: int, c: (i64, i64)) -> bool {
    let x = c.0 as int;
    let y = c.1 as int;
    &&& 0 <= x <= p.len() - 1
    &&& (x == p.len() - 1 ==> 1 <= y <= p[x])
    &&& (x < p.len() - 1 ==> -x <= y <= p[x])
    &&& n == slots_below(p, x) + p[x] - y
}

/// The edge record of the transient state `c` is exactly what the race
/// rules dictate: `alpha` towards `(x + 1, y - 1)` unless that is the win,
/// `beta` towards `(x, y + 1)`, and both stay inside the transient range.
pub open spec fn edge_ok(p: Seq<i64>, c: (i64, i64), e: Edge, total: int) -> bool {
    let x = c.0 as int;
    let y = c.1 as int;
    &&& e.src == node_id(p, x, y)
    &&& e.src < total
    &&& match e.alpha_dst {
        Some(j) => j < total && node_id(p, x + 1, y - 1) == j,
        None => node_id(p, x + 1, y - 1) == total,
    }
    &&& e.beta_dst == node_id(p, x, y + 1)
    &&& e.beta_dst < total
}

/// The enumerated transient states of one reset policy, with their dense
/// ids and their outgoing transitions in symbolic form.
pub struct TransitionStructure {
    pub policy: Vec<i64>,
    pub offsets: Vec<usize>,
    pub num_transient: usize,
    pub coords: Vec<(i64, i64)>,
    pub edges: Vec<Edge>,
}

impl TransitionStructure {
    pub open spec fn wf(self) -> bool {
        let p = self.policy@;
        &&& policy_ok(p)
        &&& transient_count(p) <= usize::MAX
        &&& transient_count(p) + p.len() <= i64::MAX
        &&& self.offsets@.len() == p.len()
        &&& (forall|h: int| 0 <= h < p.len() ==> self.offsets@[h] == slots_below(p, h))
        &&& self.num_transient == transient_count(p)
        &&& self.coords@.len() == transient_count(p)
        &&& self.edges@.len() == transient_count(p)
        &&& (forall|n: int| 0 <= n < self.coords@.len() ==> coord_ok(p, n, #[trigger] self.coords@[n]))
        &&& (forall|n: int|
            0 <= n < self.edges@.len() ==> edge_ok(
                p,
                self.coords@[n],
                #[trigger] self.edges@[n],
                transient_count(p),
            ))
        &&& (p[0] == 0 ==> forall|n: int|
            0 <= n < self.edges@.len() ==> (#[trigger] self.edges@[n]).src == n)
    }

    /// Enumerates the transient states of `policy` and assembles the
    /// symbolic transition matrix.  The number of enumerated states equals
    /// `transient_count(policy)`.
    pub fn new(policy: Vec<i64>) -> (chain: Self)
        requires
            policy_ok(policy@),
            transient_count(policy@) <= usize::MAX,
            transient_count(policy@) + policy@.len() <= i64::MAX,
        ensures
            chain.wf(),
            chain.policy@ == policy@,
    {
        let ghost p = policy@;
        let d = policy.len() - 1;
        let mut offsets: Vec<usize> = Vec::new();
        let mut acc: usize = 0;
        let mut x: usize = 0;
        while x < policy.len()
            invariant
                policy_ok(p),
                p == policy@,
                transient_count(p) <= usize::MAX,
                transient_count(p) + p.len() <= i64::MAX,
                d == p.len() - 1,
                0 <= x <= p.len(),
                offsets@.len() == x,
                forall|h: int| 0 <= h < x ==> offsets@[h] == slots_below(p, h),
                x <= d ==> acc == slots_below(p, x as int),
                x > d ==> acc == slots_below(p, d as int),
            decreases p.len() - x,
        {
            offsets.push(acc);
            if x < d {
                proof {
                    lemma_slots_fit(p, x as int);
                }
                acc = acc + (policy[x] as usize) + x + 1;
            }
            x = x + 1;
        }
        proof {
            lemma_slots_fit(p, d as int);
        }
        let num_transient: usize = acc + (policy[d] as usize);
        let mut coords: Vec<(i64, i64)> = Vec::new();
        let mut edges: Vec<Edge> = Vec::new();
        let mut x: usize = 0;
        while x < policy.len()
            invariant
                policy_ok(p),
                p == policy@,
                transient_count(p) <= usize::MAX,
                transient_count(p) + p.len() <= i64::MAX,
                d == p.len() - 1,
                offsets@.len() == p.len(),
                forall|h: int| 0 <= h < p.len() ==> offsets@[h] == slots_below(p, h),
                num_transient == transient_count(p),
                0 <= x <= p.len(),
                coords@.len() == edges@.len(),
                x <= d ==> coords@.len() == slots_below(p, x as int),
                x > d ==> coords@.len() == transient_count(p),
                forall|n: int| 0 <= n < coords@.len() ==> coord_ok(p, n, #[trigger] coords@[n]),
                forall|n: int|
                    0 <= n < edges@.len() ==> edge_ok(
                        p,
                        coords@[n],
                        #[trigger] edges@[n],
                        transient_count(p),
                    ),
                p[0] == 0 ==> forall|n: int|
                    0 <= n < edges@.len() ==> (#[trigger] edges@[n]).src == n,
            decreases p.len() - x,
        {
            let t = policy[x];
            proof {
                lemma_slots_fit(p, x as int);
            }
            let rl: usize = if x == d {
                t as usize
            } else {
                (t as usize) + x + 1
            };
            let mut k: usize = 0;
            while k < rl
                invariant
                    policy_ok(p),
                    p == policy@,
                    transient_count(p) <= usize::MAX,
                    transient_count(p) + p.len() <= i64::MAX,
                    d == p.len() - 1,
                    offsets@.len() == p.len(),
                    forall|h: int| 0 <= h < p.len() ==> offsets@[h] == slots_below(p, h),
                    num_transient == transient_count(p),
                    0 <= x <= d,
                    t == p[x as int],
                    rl == row_len(p, x as int),
                    0 <= k <= rl,
                    coords@.len() == edges@.len(),
                    coords@.len() == slots_below(p, x as int) + k,
                    forall|n: int| 0 <= n < coords@.len() ==> coord_ok(p, n, #[trigger] coords@[n]),
                    forall|n: int|
                        0 <= n < edges@.len() ==> edge_ok(
                            p,
                            coords@[n],
                            #[trigger] edges@[n],
                            transient_count(p),
                        ),
                    p[0] == 0 ==> forall|n: int|
                        0 <= n < edges@.len() ==> (#[trigger] edges@[n]).src == n,
                decreases rl - k,
            {
                proof {
                    lemma_slots_fit(p, x as int);
                    if (x as int) + 1 <= d {
                        lemma_slots_fit(p, x as int + 1);
                    }
                    lemma_slots_below_monotone(p, x as int, d as int);
                }
                let y: i64 = t - (k as i64);
                let src = node_index_of(&policy, &offsets, num_transient, x as i64, y);
                let a = node_index_of(&policy, &offsets, num_transient, (x as i64) + 1, y - 1);
                let b = node_index_of(&policy, &offsets, num_transient, x as i64, y + 1);
                proof {
                    assert(slots_below(p, x as int) + k < transient_count(p)) by {
                        lemma_slots_fit(p, x as int);
                        if (x as int) < d {
                            lemma_slots_below_monotone(p, x as int + 1, d as int);
                        }
                    }
                    if x > 0 {
                        assert(node_id(p, x as int, y as int) == slots_below(p, x as int) + k);
                    } else {
                        assert(node_id(p, x as int, y as int) == 0);
                    }
                    assert(src < num_transient);
                    assert(node_id(p, x as int, y as int + 1) < transient_count(p));
                }
                let alpha_dst: Option<usize> = if a == num_transient {
                    None
                } else {
                    Some(a)
                };
                let edge = Edge { src, alpha_dst, beta_dst: b };
                coords.push((x as i64, y));
                edges.push(edge);
                k = k + 1;
            }
            x = x + 1;
        }
        TransitionStructure { policy, offsets, num_transient, coords, edges }
    }

    /// The dense id of the state `(x, y)`, as `node_id` describes it.
    pub fn node_index(&self, x: i64, y: i64) -> (r: usize)
        requires
            self.wf(),
            0 <= x,
            y as int >= -cap_height(self.policy@, x as int),
        ensures
            r == node_id(self.policy@, x as int, y as int),
            r <= self.num_transient,
    {
        node_index_of(&self.policy, &self.offsets, self.num_transient, x, y)
    }
}

/// How many of the first `m` edge records satisfy `f`.
pub open spec fn hits_upto(edges: Seq<Edge>, f: spec_fn(Edge) -> bool, m: int) -> nat
    decreases m,
{
    if m <= 0 {
        0
    } else {
        hits_upto(edges, f, m - 1) + (if f(edges[m - 1]) {
            1nat
        } else {
            0nat
        })
    }
}

/// Units of `alpha` accumulated at matrix entry `(i, j)`.
pub open spec fn alpha_units(edges: Seq<Edge>, i: int, j: int) -> nat {
    hits_upto(
        edges,
        |e: Edge| e.src == i && (e.alpha_dst matches Some(v) && v == j),
        edges.len() as int,
    )
}

/// Units of `alpha` row `i` loses to the implicit absorption column.
pub open spec fn absorb_units(edges: Seq<Edge>, i: int) -> nat {
    hits_upto(edges, |e: Edge| e.src == i && e.alpha_dst is None, edges.len() as int)
}

/// Units of `beta` accumulated at matrix entry `(i, j)`.
pub open spec fn beta_units(edges: Seq<Edge>, i: int, j: int) -> nat {
    hits_upto(edges, |e: Edge| e.src == i && e.beta_dst == j, edges.len() as int)
}

/// Units of `gamma` accumulated at matrix entry `(i, j)`: every state loops
/// on itself, so they sit on the diagonal.
pub open spec fn gamma_units(edges: Seq<Edge>, i: int, j: int) -> nat {
    hits_upto(edges, |e: Edge| e.src == i && e.src == j, edges.len() as int)
}

/// Sum of `f(0) + ... + f(cols - 1)`: one row of the matrix, summed over
/// its columns.
pub open spec fn row_total(f: spec_fn(int) -> nat, cols: int) -> nat
    decreases cols,
{
    if cols <= 0 {
        0
    } else {
        row_total(f, cols - 1) + f(cols - 1)
    }
}

proof fn lemma_hits_single(edges: Seq<Edge>, f: spec_fn(Edge) -> bool, m: int, n0: int)
    requires
        0 <= m <= edges.len(),
        forall|n: int| 0 <= n < edges.len() && #[trigger] f(edges[n]) ==> n == n0,
    ensures
        hits_upto(edges, f, m) == if 0 <= n0 < m && f(edges[n0]) {
            1nat
        } else {
            0nat
        },
    decreases m,
{
    if m > 0 {
        lemma_hits_single(edges, f, m - 1, n0);
    }
}

proof fn lemma_row_total_single(f: spec_fn(int) -> nat, cols: int, j0: int)
    requires
        0 <= cols,
        forall|j: int| 0 <= j < cols && j != j0 ==> #[trigger] f(j) == 0,
    ensures
        row_total(f, cols) == if 0 <= j0 < cols {
            f(j0)
        } else {
            0nat
        },
    decreases cols,
{
    if cols > 0 {
        lemma_row_total_single(f, cols - 1, j0);
    }
}

/// Row-stochasticity of the assembled matrix.  For a policy with
/// `policy[0] == 0` the enumerated states and the dense ids coincide, and
/// every transient row carries exactly one unit of `alpha` (or, for the
/// rows whose attacker extension is the win, one unit in the implicit
/// absorption column), exactly one unit of `beta` and exactly one unit of
/// `gamma`.  Since `alpha + beta + gamma == 1`, every row of the numeric
/// matrix, absorption included, sums to exactly `1`.
/// Row `i` of the symbolic matrix carries one unit of each weight: the
/// `alpha` unit inside the transient columns or in the implicit absorption
/// column, the `beta` unit and the `gamma` unit inside the transient
/// columns.
pub open spec fn row_stochastic(edges: Seq<Edge>, cols: int, i: int) -> bool {
    &&& row_total(|j: int| alpha_units(edges, i, j), cols) + absorb_units(edges, i) == 1
    &&& row_total(|j: int| beta_units(edges, i, j), cols) == 1
    &&& row_total(|j: int| gamma_units(edges, i, j), cols) == 1
}

pub proof fn lemma_rows_stochastic(chain: TransitionStructure)
    requires
        chain.wf(),
        chain.policy@[0] == 0,
    ensures
        forall|i: int|
            0 <= i < chain.num_transient ==> row_stochastic(
                chain.edges@,
                chain.num_transient as int,
                i,
            ),
{
    let edges = chain.edges@;
    let cols = chain.num_transient as int;
    let m = edges.len() as int;
    assert forall|i: int| 0 <= i < chain.num_transient implies row_stochastic(
        edges,
        cols,
        i,
    ) by {
        let e = edges[i];
        assert(edge_ok(chain.policy@, chain.coords@[i], e, chain.num_transient as int));
        match e.alpha_dst {
            Some(j0u) => {
                let j0 = j0u as int;
                assert forall|j: int| 0 <= j < cols && j != j0 implies #[trigger] alpha_units(
                    edges,
                    i,
                    j,
                ) == 0 by {
                    lemma_hits_single(
                        edges,
                        |e2: Edge| e2.src == i && (e2.alpha_dst matches Some(v) && v == j),
                        m,
                        i,
                    );
                }
                assert(alpha_units(edges, i, j0) == 1) by {
                    lemma_hits_single(
                        edges,
                        |e2: Edge| e2.src == i && (e2.alpha_dst matches Some(v) && v == j0),
                        m,
                        i,
                    );
                }
                lemma_row_total_single(|j: int| alpha_units(edges, i, j), cols, j0);
                assert(absorb_units(edges, i) == 0) by {
                    lemma_hits_single(edges, |e2: Edge| e2.src == i && e2.alpha_dst is None, m, i);
                }
            },
            None => {
                assert forall|j: int| 0 <= j < cols && j != -1 implies #[trigger] alpha_units(
                    edges,
                    i,
                    j,
                ) == 0 by {
                    lemma_hits_single(
                        edges,
                        |e2: Edge| e2.src == i && (e2.alpha_dst matches Some(v) && v == j),
                        m,
                        i,
                    );
                }
                lemma_row_total_single(|j: int| alpha_units(edges, i, j), cols, -1);
                assert(absorb_units(edges, i) == 1) by {
                    lemma_hits_single(edges, |e2: Edge| e2.src == i && e2.alpha_dst is None, m, i);
                }
            },
        }
        let jb = e.beta_dst as int;
        assert forall|j: int| 0 <= j < cols && j != jb implies #[trigger] beta_units(
            edges,
            i,
            j,
        ) == 0 by {
            lemma_hits_single(edges, |e2: Edge| e2.src == i && e2.beta_dst == j, m, i);
        }
        assert(beta_units(edges, i, jb) == 1) by {
            lemma_hits_single(edges, |e2: Edge| e2.src == i && e2.beta_dst == jb, m, i);
        }
        lemma_row_total_single(|j: int| beta_units(edges, i, j), cols, jb);
        assert forall|j: int| 0 <= j < cols && j != i implies #[trigger] gamma_units(
            edges,
            i,
            j,
        ) == 0 by {
            lemma_hits_single(edges, |e2: Edge| e2.src == i && e2.src == j, m, i);
        }
        assert(gamma_units(edges, i, i) == 1) by {
            lemma_hits_single(edges, |e2: Edge| e2.src == i && e2.src == i, m, i);
        }
        lemma_row_total_single(|j: int| gamma_units(edges, i, j), cols, i);
    }
}

/// The dense id of `(x, y)`, computed from the precomputed offset table.
fn node_index_of(policy: &Vec<i64>, offsets: &Vec<usize>, num_transient: usize, x: i64, y: i64) -> (r:
    usize)
    requires
        policy_ok(policy@),
        transient_count(policy@) <= usize::MAX,
        transient_count(policy@) + policy@.len() <= i64::MAX,
        offsets@.len() == policy@.len(),
        forall|h: int| 0 <= h < policy@.len() ==> offsets@[h] == slots_below(policy@, h),
        num_transient == transient_count(policy@),
        0 <= x,
        y as int >= -cap_height(policy@, x as int),
    ensures
        r == node_id(policy@, x as int, y as int),
        r <= num_transient,
{
    let ghost p = policy@;
    proof {
        lemma_slots_fit(p, 0);
    }
    if x == 0 {
        return 0;
    }
    let d = policy.len() - 1;
    let xe: usize = if x < d as i64 {
        x as usize
    } else {
        d
    };
    let t = policy[xe];
    proof {
        lemma_slots_fit(p, xe as int);
    }
    if y > t {
        0
    } else if xe == d && y <= 0 {
        num_transient
    } else {
        offsets[xe] + ((t - y) as usize)
    }
}

} // verus!
