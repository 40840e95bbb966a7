//! The node arena and the PUCT search tree.
//!
//! All nodes live in one growable store and are addressed by index only.
//! The central invariant (`wf`) keeps the arena a forest whose edges point
//! upward in allocation order, gives every node at most one parent, keeps
//! the root parentless, ties every child's state to its parent's, and
//! conserves the visit statistics: an expanded node's visit count is one
//! plus the sum of its children's.

use vstd::prelude::*;
use crate::env::Env;
use crate::env::Policy;
use crate::num::is_sqrt;
use crate::num::is_temp_weight;
use crate::num::isqrt;
use crate::num::lemma_sqrt_unique;
use crate::num::lemma_sum64_update;
use crate::num::sum64;
use crate::num::temp_weight;
use crate::ACT_CAP;
use crate::CPUCT_CAP;
use crate::PRIOR_CAP;
use crate::SIM_CAP;
use crate::UNIT;
use crate::UNIT_SQ;

verus! {

/// One search node. Children are sparse: only actions with positive prior
/// appear, as `(action, child index)` pairs in action order.
pub struct Node<E> {
    pub state: E,
    pub over: bool,
    pub children: Vec<(usize, usize)>,
    pub num_visits: u64,
    pub total_value: i64,
    pub prior: i64,
}

/// The visit counts of a child list, summed.
pub open spec fn kids_visits<E>(nodes: Seq<Node<E>>, ch: Seq<(usize, usize)>) -> int
    decreases ch.len(),
{
    if ch.len() == 0 {
        0
    } else {
        nodes[ch[0].1 as int].num_visits + kids_visits(nodes, ch.drop_first())
    }
}

/// Everything `wf` asks of one node: the terminal flag mirrors the state,
/// the prior and the value accumulator are bounded, statistics are
/// conserved (visits are one more than the children's visits together),
/// edges go strictly upward in index order, actions are in range and
/// distinct, and each child holds the parent's state advanced by its
/// action.
pub open spec fn node_ok<E: Env>(nodes: Seq<Node<E>>, i: int, na: nat, sims: nat) -> bool {
    let n = nodes[i];
    &&& n.over == n.state.over_spec()
    &&& 0 <= n.prior <= PRIOR_CAP
    &&& n.num_visits <= sims + 1
    &&& -((n.num_visits as int) * (UNIT as int)) <= n.total_value <= (n.num_visits as int) * (
    UNIT as int)
    &&& (n.over ==> n.children@.len() == 0)
    &&& (!n.over && n.children@.len() == 0 ==> n.num_visits == 0 && n.total_value == 0)
    &&& (n.children@.len() > 0 ==> n.num_visits == 1 + kids_visits(nodes, n.children@))
    &&& (forall|k: int|
        0 <= k < n.children@.len() ==> i < (#[trigger] n.children@[k]).1 < nodes.len())
    &&& (forall|k: int| 0 <= k < n.children@.len() ==> ((#[trigger] n.children@[k]).0 as nat) < na)
    &&& (forall|k: int|
        0 <= k < n.children@.len() ==> nodes[(#[trigger] n.children@[k]).1 as int].state
            == n.state.next_spec(n.children@[k].0 as int))
    &&& (forall|k1: int, k2: int|
        0 <= k1 < k2 < n.children@.len() ==> (#[trigger] n.children@[k1]).0 < (
        #[trigger] n.children@[k2]).0)
}

/// Every child index appears in at most one child slot of the whole
/// arena: each node has at most one parent.
pub open spec fn edges_unique<E>(nodes: Seq<Node<E>>) -> bool {
    forall|i1: int, k1: int, i2: int, k2: int|
        0 <= i1 < nodes.len() && 0 <= k1 < nodes[i1].children@.len() && 0 <= i2 < nodes.len() && 0
            <= k2 < nodes[i2].children@.len() && (i1 != i2 || k1 != k2)
            ==> (#[trigger] nodes[i1].children@[k1]).1 != (#[trigger] nodes[i2].children@[k2]).1
}

/// The root is nobody's child.
pub open spec fn root_free<E>(nodes: Seq<Node<E>>, root: int) -> bool {
    forall|i: int, k: int|
        0 <= i < nodes.len() && 0 <= k < nodes[i].children@.len() ==> (
        #[trigger] nodes[i].children@[k]).1 != root
}

/// The search tree: the arena, the root index, the number of simulations
/// run over its lifetime, and the exploration constant.
pub struct Mcts<E> {
    pub nodes: Vec<Node<E>>,
    pub root: usize,
    pub sims: u64,
    pub c_puct: i64,
}

/// Truncated (toward zero) mean of the accumulated value, negated: the
/// child's mean value seen from the parent's side. Zero while unvisited.
pub open spec fn q_of(tv: int, nv: int) -> int {
    if nv <= 0 {
        0
    } else if tv >= 0 {
        -(tv / nv)
    } else {
        (-tv) / nv
    }
}

/// The PUCT score of a child in fixed point:
/// `Q + c_puct * prior * sqrt(parent visits) / (1 + child visits)`,
/// where `s` is the integer square root of `parent visits * UNIT_SQ`.
pub open spec fn puct_score(c: int, prior: int, nv: int, tv: int, s: int) -> int {
    q_of(tv, nv) + (c * prior * s) / ((1 + nv) * (UNIT_SQ as int))
}

impl<E: Env> Mcts<E> {
    /// The arena is a statistics-conserving forest (see module doc).
    pub open spec fn wf(self) -> bool {
        &&& 1 <= self.nodes@.len()
        &&& (self.root as int) < self.nodes@.len()
        &&& self.sims <= SIM_CAP
        &&& 0 <= self.c_puct <= CPUCT_CAP
        &&& (forall|i: int|
            0 <= i < self.nodes@.len() ==> node_ok(
                self.nodes@,
                i,
                E::actions_spec(),
                self.sims as nat,
            ))
        &&& edges_unique(self.nodes@)
        &&& root_free(self.nodes@, self.root as int)
    }

    /// The state at the root.
    pub open spec fn root_state_spec(self) -> E {
        self.nodes@[self.root as int].state
    }

    /// The root node.
    pub open spec fn root_node_spec(self) -> Node<E> {
        self.nodes@[self.root as int]
    }

    /// The PUCT score of child slot `j` of node `i`, given the square
    /// root `s` of `parent visits * UNIT^2`.
    pub open spec fn score_at(self, i: int, j: int, s: int) -> int {
        let n = self.nodes@[i];
        let c = self.nodes@[n.children@[j].1 as int];
        puct_score(self.c_puct as int, c.prior as int, c.num_visits as int, c.total_value as int, s)
    }

    pub fn num_nodes(&self) -> (n: usize)
        ensures
            n == self.nodes@.len(),
    {
        self.nodes.len()
    }

    /// A read-only view of a node; indices are the arena's own.
    pub fn get_node(&self, i: usize) -> (n: &Node<E>)
        requires
            (i as int) < self.nodes@.len(),
        ensures
            *n == self.nodes@[i as int],
    {
        &self.nodes[i]
    }

    /// A read-only view of the current root.
    pub fn root_node(&self) -> (n: &Node<E>)
        requires
            self.wf(),
        ensures
            *n == self.root_node_spec(),
    {
        &self.nodes[self.root]
    }

    /// An owned copy of the state at the root.
    pub fn root_state(&self) -> (e: E)
        requires
            self.wf(),
        ensures
            e == self.root_state_spec(),
    {
        self.nodes[self.root].state.snapshot()
    }
}

/// Creates one child node per positive-prior action of `ps`, appending to
/// the arena; returns the `(action, child index)` edge list in action
/// order.
fn spawn_children<E: Env>(nodes: &mut Vec<Node<E>>, ps: &E, priors: &Vec<i64>) -> (kids: Vec<
    (usize, usize),
>)
    requires
        !ps.over_spec(),
        priors@.len() == E::actions_spec(),
        forall|i: int| 0 <= i < priors@.len() ==> 0 <= #[trigger] priors@[i] <= UNIT,
        exists|i: int| 0 <= i < priors@.len() && #[trigger] priors@[i] > 0,
    ensures
        final(nodes)@.len() == old(nodes)@.len() + kids@.len(),
        forall|i: int| 0 <= i < old(nodes)@.len() ==> final(nodes)@[i] == old(nodes)@[i],
        1 <= kids@.len() <= priors@.len(),
        forall|m: int|
            0 <= m < kids@.len() ==> (#[trigger] kids@[m]).1 == old(nodes)@.len() + m,
        forall|m: int|
            0 <= m < kids@.len() ==> ((#[trigger] kids@[m]).0 as nat) < E::actions_spec(),
        forall|m1: int, m2: int|
            0 <= m1 < m2 < kids@.len() ==> (#[trigger] kids@[m1]).0 < (#[trigger] kids@[m2]).0,
        forall|m: int|
            0 <= m < kids@.len() ==> {
                let c = final(nodes)@[(#[trigger] kids@[m]).1 as int];
                &&& c.num_visits == 0
                &&& c.total_value == 0
                &&& c.children@.len() == 0
                &&& c.state == ps.next_spec(kids@[m].0 as int)
                &&& c.over == c.state.over_spec()
                &&& c.prior == priors@[kids@[m].0 as int]
                &&& 1 <= c.prior <= UNIT
            },
        forall|a: int|
            0 <= a < priors@.len() ==> (priors@[a] > 0 <==> exists|m: int|
                0 <= m < kids@.len() && (#[trigger] kids@[m]).0 == a),
{
    let n_act = priors.len();
    let mut kids: Vec<(usize, usize)> = Vec::new();
    let ghost base = nodes@.len();
    let mut a: usize = 0;
    while a < n_act
        invariant
            a <= n_act,
            n_act == priors@.len() == E::actions_spec(),
            !ps.over_spec(),
            forall|i: int| 0 <= i < priors@.len() ==> 0 <= #[trigger] priors@[i] <= UNIT,
            nodes@.len() == base + kids@.len(),
            base == old(nodes)@.len(),
            kids@.len() <= a,
            forall|i: int| 0 <= i < base ==> nodes@[i] == old(nodes)@[i],
            forall|m: int| 0 <= m < kids@.len() ==> (#[trigger] kids@[m]).1 == base + m,
            forall|m: int| 0 <= m < kids@.len() ==> ((#[trigger] kids@[m]).0 as int) < a,
            forall|m1: int, m2: int|
                0 <= m1 < m2 < kids@.len() ==> (#[trigger] kids@[m1]).0 < (#[trigger] kids@[m2]).0,
            forall|m: int|
                0 <= m < kids@.len() ==> {
                    let c = nodes@[(#[trigger] kids@[m]).1 as int];
                    &&& c.num_visits == 0
                    &&& c.total_value == 0
                    &&& c.children@.len() == 0
                    &&& c.state == ps.next_spec(kids@[m].0 as int)
                    &&& c.over == c.state.over_spec()
                    &&& c.prior == priors@[kids@[m].0 as int]
                    &&& 1 <= c.prior <= UNIT
                },
            forall|x: int|
                0 <= x < a ==> (priors@[x] > 0 <==> exists|m: int|
                    0 <= m < kids@.len() && (#[trigger] kids@[m]).0 == x),
        decreases n_act - a,
    {
        let ghost prevkids = kids@;
        if priors[a] > 0 {
            let mut st = ps.snapshot();
            let over = st.step(a);
            let idx = nodes.len();
            nodes.push(
                Node {
                    state: st,
                    over,
                    children: Vec::new(),
                    num_visits: 0,
                    total_value: 0,
                    prior: priors[a],
                },
            );
            kids.push((a, idx));
            proof {
                assert(kids@[kids@.len() - 1].0 == a);
                assert forall|x: int|
                    0 <= x < a + 1 implies (priors@[x] > 0 <==> exists|m: int|
                    0 <= m < kids@.len() && (#[trigger] kids@[m]).0 == x) by {
                    if x == a as int {
                        assert(kids@[kids@.len() - 1].0 == x);
                    } else {
                        if priors@[x] > 0 {
                            let m0 = choose|m: int|
                                0 <= m < prevkids.len() && (#[trigger] prevkids[m]).0 == x;
                            assert(kids@[m0].0 == x);
                        } else {
                            assert forall|m: int|
                                0 <= m < kids@.len() implies (#[trigger] kids@[m]).0 != x by {
                                if m < prevkids.len() {
                                    assert(kids@[m] == prevkids[m]);
                                }
                            }
                        }
                    }
                }
            }
        } else {
            proof {
                assert forall|m: int|
                    0 <= m < kids@.len() implies (#[trigger] kids@[m]).0 != a as int by {}
            }
        }
        a = a + 1;
    }
    kids
}

/// A mutable borrow of one arena slot, with the update made explicit.
fn node_at_mut<E>(v: &mut Vec<Node<E>>, i: usize) -> (r: &mut Node<E>)
    requires
        i < old(v).len(),
    ensures
        *r == old(v)@[i as int],
        final(v)@ == old(v)@.update(i as int, *final(r)),
{
    &mut v[i]
}

pub proof fn lemma_kids_visits_zero<E>(nodes: Seq<Node<E>>, ch: Seq<(usize, usize)>)
    requires
        forall|m: int|
            0 <= m < ch.len() ==> nodes[(#[trigger] ch[m]).1 as int].num_visits == 0,
    ensures
        kids_visits(nodes, ch) == 0,
    decreases ch.len(),
{
    if ch.len() > 0 {
        lemma_kids_visits_zero(nodes, ch.drop_first());
    }
}

pub proof fn lemma_kids_visits_same<E>(
    n1: Seq<Node<E>>,
    n2: Seq<Node<E>>,
    ch: Seq<(usize, usize)>,
)
    requires
        forall|m: int|
            0 <= m < ch.len() ==> n2[(#[trigger] ch[m]).1 as int].num_visits == n1[ch[m].1 as int].num_visits,
    ensures
        kids_visits(n2, ch) == kids_visits(n1, ch),
    decreases ch.len(),
{
    if ch.len() > 0 {
        lemma_kids_visits_same(n1, n2, ch.drop_first());
    }
}

pub proof fn lemma_kids_visits_bump<E>(
    n1: Seq<Node<E>>,
    n2: Seq<Node<E>>,
    ch: Seq<(usize, usize)>,
    m0: int,
)
    requires
        0 <= m0 < ch.len(),
        n2[ch[m0].1 as int].num_visits == n1[ch[m0].1 as int].num_visits + 1,
        forall|m: int|
            0 <= m < ch.len() && m != m0 ==> n2[(#[trigger] ch[m]).1 as int].num_visits == n1[ch[m].1 as int].num_visits,
    ensures
        kids_visits(n2, ch) == kids_visits(n1, ch) + 1,
    decreases ch.len(),
{
    if m0 == 0 {
        lemma_kids_visits_same(n1, n2, ch.drop_first());
    } else {
        lemma_kids_visits_bump(n1, n2, ch.drop_first(), m0 - 1);
    }
}

pub proof fn lemma_kids_visits_pos<E>(nodes: Seq<Node<E>>, ch: Seq<(usize, usize)>)
    requires
        kids_visits(nodes, ch) > 0,
    ensures
        exists|m: int|
            0 <= m < ch.len() && nodes[(#[trigger] ch[m]).1 as int].num_visits > 0,
    decreases ch.len(),
{
    if nodes[ch[0].1 as int].num_visits > 0 {
        assert(0 <= 0 < ch.len() && nodes[ch[0].1 as int].num_visits > 0);
    } else {
        lemma_kids_visits_pos(nodes, ch.drop_first());
        let m0 = choose|m: int|
            0 <= m < ch.drop_first().len() && nodes[(#[trigger] ch.drop_first()[m]).1 as int].num_visits
                > 0;
        assert(ch[m0 + 1] == ch.drop_first()[m0]);
        assert(nodes[ch[m0 + 1].1 as int].num_visits > 0);
    }
}

/// The exploration bonus and score, computed exactly as `puct_score`
/// states them.
fn puct_val(c: i64, prior: i64, nv: u64, tv: i64, s: u64) -> (sc: i64)
    requires
        0 <= c <= CPUCT_CAP,
        0 <= prior <= PRIOR_CAP,
        nv <= SIM_CAP + 1,
        -((nv as int) * (UNIT as int)) <= tv <= (nv as int) * (UNIT as int),
        (s as int) * (s as int) <= ((SIM_CAP + 1) as int) * (UNIT_SQ as int),
    ensures
        sc == puct_score(c as int, prior as int, nv as int, tv as int, s as int),
{
    proof {
        assert((nv as int) * (UNIT as int) <= ((SIM_CAP + 1) as int) * (UNIT as int))
            by (nonlinear_arith)
            requires
                0 <= nv as int <= (SIM_CAP + 1) as int,
        ;
        assert((s as int) <= 10300000) by (nonlinear_arith)
            requires
                (s as int) * (s as int) <= ((SIM_CAP + 1) as int) * (UNIT_SQ as int),
                0 <= s as int,
        ;
    }
    let q: i64 = if nv == 0 {
        0
    } else if tv >= 0 {
        proof {
            assert((tv as u64) / nv <= (tv as u64)) by (nonlinear_arith)
                requires
                    nv >= 1,
            ;
        }
        -(((tv as u64) / nv) as i64)
    } else {
        proof {
            assert(((-tv) as u64) / nv <= ((-tv) as u64)) by (nonlinear_arith)
                requires
                    nv >= 1,
            ;
        }
        (((-tv) as u64) / nv) as i64
    };
    proof {
        assert((c as int) * (prior as int) <= (CPUCT_CAP as int) * (PRIOR_CAP as int))
            by (nonlinear_arith)
            requires
                0 <= c as int <= CPUCT_CAP as int,
                0 <= prior as int <= PRIOR_CAP as int,
        ;
        assert((c as int) * (prior as int) * (s as int) <= (CPUCT_CAP as int) * (PRIOR_CAP as int)
            * 10300000) by (nonlinear_arith)
            requires
                0 <= (c as int) * (prior as int) <= (CPUCT_CAP as int) * (PRIOR_CAP as int),
                0 <= s as int <= 10300000,
        ;
        assert((1 + (nv as int)) * (UNIT_SQ as int) <= ((SIM_CAP + 2) as int) * (UNIT_SQ as int))
            by (nonlinear_arith)
            requires
                0 <= nv as int <= (SIM_CAP + 1) as int,
        ;
    }
    let num: i64 = c * prior * (s as i64);
    let den: i64 = (1 + (nv as i64)) * UNIT_SQ;
    proof {
        assert((num as u64) / (den as u64) <= (num as u64)) by (nonlinear_arith)
            requires
                (den as u64) >= 1,
        ;
    }
    let u: i64 = ((num as u64) / (den as u64)) as i64;
    q + u
}

impl<E: Env> Mcts<E> {
    /// Picks the child of node `i` with the maximal PUCT score; ties go
    /// to the earliest child in creation order.
    fn select_child(&self, i: usize) -> (k: usize)
        requires
            self.wf(),
            (i as int) < self.nodes@.len(),
            self.nodes@[i as int].children@.len() > 0,
        ensures
            (k as int) < self.nodes@[i as int].children@.len(),
            forall|s: int, j: int|
                is_sqrt(
                    s,
                    (self.nodes@[i as int].num_visits as int) * (UNIT_SQ as int),
                ) && 0 <= j < self.nodes@[i as int].children@.len() ==> self.score_at(i as int, j, s)
                    <= self.score_at(i as int, k as int, s),
            forall|s: int, j: int|
                is_sqrt(
                    s,
                    (self.nodes@[i as int].num_visits as int) * (UNIT_SQ as int),
                ) && 0 <= j < k ==> self.score_at(i as int, j, s) < self.score_at(
                    i as int,
                    k as int,
                    s,
                ),
    {
        let pv = self.nodes[i].num_visits;
        proof {
            assert(node_ok(self.nodes@, i as int, E::actions_spec(), self.sims as nat));
            assert((pv as int) * (UNIT_SQ as int) <= ((SIM_CAP + 1) as int) * (UNIT_SQ as int)) by (nonlinear_arith)
                requires
                    0 <= pv as int <= (SIM_CAP + 1) as int,
            ;
        }
        let sq: u64 = isqrt(pv * (UNIT_SQ as u64));
        proof {
            assert((sq as int) * (sq as int) <= ((SIM_CAP + 1) as int) * (UNIT_SQ as int)) by (nonlinear_arith)
                requires
                    (sq as int) * (sq as int) <= (pv as int) * (UNIT_SQ as int),
                    (pv as int) * (UNIT_SQ as int) <= ((SIM_CAP + 1) as int) * (UNIT_SQ as int),
            ;
        }
        let ghost gs = sq as int;
        let ch_len = self.nodes[i].children.len();
        let c0 = self.nodes[i].children[0].1;
        proof {
            assert(node_ok(self.nodes@, c0 as int, E::actions_spec(), self.sims as nat));
        }
        let n0 = &self.nodes[c0];
        let mut best: usize = 0;
        let mut best_sc: i64 = puct_val(self.c_puct, n0.prior, n0.num_visits, n0.total_value, sq);
        let mut j: usize = 1;
        while j < ch_len
            invariant
                self.wf(),
                (i as int) < self.nodes@.len(),
                ch_len == self.nodes@[i as int].children@.len(),
                (best as int) < j <= ch_len,
                is_sqrt(gs, (self.nodes@[i as int].num_visits as int) * (UNIT_SQ as int)),
                gs == sq as int,
                (sq as int) * (sq as int) <= ((SIM_CAP + 1) as int) * (UNIT_SQ as int),
                best_sc == self.score_at(i as int, best as int, gs),
                forall|jj: int| 0 <= jj < j ==> self.score_at(i as int, jj, gs) <= best_sc,
                forall|jj: int| 0 <= jj < best ==> self.score_at(i as int, jj, gs) < best_sc,
            decreases ch_len - j,
        {
            proof {
                assert(node_ok(self.nodes@, i as int, E::actions_spec(), self.sims as nat));
                assert((self.nodes@[i as int].children@[j as int]).1 < self.nodes@.len());
            }
            let cj = self.nodes[i].children[j].1;
            proof {
                assert(node_ok(self.nodes@, cj as int, E::actions_spec(), self.sims as nat));
            }
            let nj = &self.nodes[cj];
            let sc = puct_val(self.c_puct, nj.prior, nj.num_visits, nj.total_value, sq);
            if sc > best_sc {
                best = j;
                best_sc = sc;
            }
            j = j + 1;
        }
        proof {
            assert forall|s: int, jj: int|
                is_sqrt(
                    s,
                    (self.nodes@[i as int].num_visits as int) * (UNIT_SQ as int),
                ) && 0 <= jj < self.nodes@[i as int].children@.len() implies self.score_at(
                i as int,
                jj,
                s,
            ) <= self.score_at(i as int, best as int, s) by {
                lemma_sqrt_unique(
                    (self.nodes@[i as int].num_visits as int) * (UNIT_SQ as int),
                    s,
                    gs,
                );
            }
            assert forall|s: int, jj: int|
                is_sqrt(
                    s,
                    (self.nodes@[i as int].num_visits as int) * (UNIT_SQ as int),
                ) && 0 <= jj < best implies self.score_at(i as int, jj, s) < self.score_at(
                i as int,
                best as int,
                s,
            ) by {
                lemma_sqrt_unique(
                    (self.nodes@[i as int].num_visits as int) * (UNIT_SQ as int),
                    s,
                    gs,
                );
            }
        }
        best
    }

    /// Walks from the root along maximal-score children down to a node
    /// that is terminal or not yet expanded, returning the index path.
    fn descend(&self) -> (path: Vec<usize>)
        requires
            self.wf(),
        ensures
            path@.len() >= 1,
            path@[0] == self.root,
            forall|t: int| 0 <= t < path@.len() ==> ((#[trigger] path@[t]) as int) < self.nodes@.len(),
            forall|t: int| 0 <= t < path@.len() - 1 ==> path@[t] < #[trigger] path@[t + 1],
            forall|t: int|
                0 <= t < path@.len() - 1 ==> has_child(
                    self.nodes@,
                    (#[trigger] path@[t]) as int,
                    path@[t + 1] as int,
                ),
            forall|t: int|
                0 <= t < path@.len() - 1 ==> self.nodes@[(#[trigger] path@[t]) as int].children@.len()
                    > 0 && !self.nodes@[path@[t] as int].over,
            self.nodes@[path@[path@.len() - 1] as int].over || self.nodes@[path@[path@.len()
                - 1] as int].children@.len() == 0,
    {
        let mut path: Vec<usize> = Vec::new();
        path.push(self.root);
        let mut cur: usize = self.root;
        while !(self.nodes[cur].over || self.nodes[cur].children.len() == 0)
            invariant
                self.wf(),
                (cur as int) < self.nodes@.len(),
                path@.len() >= 1,
                path@[0] == self.root,
                path@[path@.len() - 1] == cur,
                forall|t: int|
                    0 <= t < path@.len() ==> ((#[trigger] path@[t]) as int) < self.nodes@.len(),
                forall|t: int| 0 <= t < path@.len() - 1 ==> path@[t] < #[trigger] path@[t + 1],
                forall|t: int|
                    0 <= t < path@.len() - 1 ==> has_child(
                        self.nodes@,
                        (#[trigger] path@[t]) as int,
                        path@[t + 1] as int,
                    ),
                forall|t: int|
                    0 <= t < path@.len() - 1 ==> self.nodes@[(#[trigger] path@[t]) as int].children@.len()
                        > 0 && !self.nodes@[path@[t] as int].over,
            decreases self.nodes@.len() - cur,
        {
            let k = self.select_child(cur);
            let c = self.nodes[cur].children[k].1;
            proof {
                assert(node_ok(self.nodes@, cur as int, E::actions_spec(), self.sims as nat));
                assert(has_child(self.nodes@, cur as int, c as int));
            }
            path.push(c);
            cur = c;
        }
        path
    }

    /// Allocates a tree of roughly `capacity` nodes (a hint), rooted at
    /// the game's initial state, with the root expanded once by the
    /// evaluator and counted as its first visit.
    pub fn with_capacity<P: Policy<E>>(capacity: usize, c_puct: i64, policy: &mut P) -> (t: Self)
        requires
            0 <= c_puct <= CPUCT_CAP,
        ensures
            t.wf(),
            *final(policy) == *old(policy),
            t.sims == 0,
            t.c_puct == c_puct,
            t.root_state_spec() == E::initial_spec(),
            t.root_node_spec().num_visits == 1,
            t.root_node_spec().children@.len() >= 1,
            !t.root_node_spec().over,
            // the root was expanded by the evaluator: one child per
            // positive-prior action, each carrying exactly that prior
            forall|m: int|
                0 <= m < t.root_node_spec().children@.len() ==> t.nodes@[(
                #[trigger] t.root_node_spec().children@[m]).1 as int].prior == old(
                    policy,
                ).priors_spec(E::initial_spec())[t.root_node_spec().children@[m].0 as int],
            forall|a: int|
                0 <= a < E::actions_spec() ==> (old(policy).priors_spec(E::initial_spec())[a] > 0
                    <==> exists|m: int|
                    0 <= m < t.root_node_spec().children@.len() && ((
                    #[trigger] t.root_node_spec().children@[m]).0 as int) == a),
    {
        let game = E::new();
        let (priors, _val) = policy.eval(&game);
        let ps = game.snapshot();
        let mut nodes: Vec<Node<E>> = Vec::with_capacity(capacity);
        nodes.push(
            Node {
                state: game,
                over: false,
                children: Vec::new(),
                num_visits: 0,
                total_value: 0,
                prior: UNIT,
            },
        );
        let kids = spawn_children(&mut nodes, &ps, &priors);
        let ghost gkids = kids@;
        let r0 = node_at_mut(&mut nodes, 0);
        r0.children = kids;
        r0.num_visits = 1;
        let t = Mcts { nodes, root: 0, sims: 0, c_puct };
        proof {
            let tn = t.nodes@;
            let na = E::actions_spec();
            assert(tn.len() == 1 + gkids.len());
            assert(tn[0].children@ == gkids);
            assert(tn[0].num_visits == 1);
            assert(tn[0].state == E::initial_spec());
            assert forall|m: int|
                0 <= m < gkids.len() implies tn[(#[trigger] gkids[m]).1 as int].num_visits == 0 by {
                assert((gkids[m]).1 == 1 + m);
            }
            assert forall|m: int|
                0 <= m < gkids.len() implies tn[(#[trigger] gkids[m]).1 as int].prior == old(
                policy,
            ).priors_spec(E::initial_spec())[gkids[m].0 as int] by {
                assert((gkids[m]).1 == 1 + m);
            }
            lemma_kids_visits_zero(tn, gkids);
            assert(node_ok(tn, 0, na, 0nat));
            assert forall|i: int| 0 <= i < tn.len() implies node_ok(tn, i, na, 0nat) by {
                if i >= 1 {
                    assert((gkids[i - 1]).1 == 1 + (i - 1));
                    assert(tn[i].children@.len() == 0);
                }
            }
            assert forall|i1: int, k1: int, i2: int, k2: int|
                0 <= i1 < tn.len() && 0 <= k1 < tn[i1].children@.len() && 0 <= i2 < tn.len() && 0
                    <= k2 < tn[i2].children@.len() && (i1 != i2 || k1 != k2) implies (
            #[trigger] tn[i1].children@[k1]).1 != (#[trigger] tn[i2].children@[k2]).1 by {
                if i1 >= 1 {
                    assert((gkids[i1 - 1]).1 == 1 + (i1 - 1));
                }
                if i2 >= 1 {
                    assert((gkids[i2 - 1]).1 == 1 + (i2 - 1));
                }
                assert(i1 == 0 && i2 == 0);
            }
            assert forall|i: int, k: int|
                0 <= i < tn.len() && 0 <= k < tn[i].children@.len() implies (
            #[trigger] tn[i].children@[k]).1 != 0 by {
                if i >= 1 {
                    assert((gkids[i - 1]).1 == 1 + (i - 1));
                }
                assert(i == 0);
            }
            assert(t.wf());
        }
        t
    }
}

/// Whether node `c` is a child of node `p`.
pub open spec fn has_child<E>(nodes: Seq<Node<E>>, p: int, c: int) -> bool {
    exists|k: int|
        0 <= k < nodes[p].children@.len() && (#[trigger] nodes[p].children@[k]).1 == c
}

/// Writes one slot of a weight vector.
fn set_u64(v: &mut Vec<u64>, i: usize, x: u64)
    requires
        i < old(v).len(),
    ensures
        final(v)@ == old(v)@.update(i as int, x),
{
    let r = &mut v[i];
    *r = x;
}

/// In a strictly action-sorted child list, slot `k` carries action >= k.
proof fn lemma_sorted_slot(ch: Seq<(usize, usize)>, k: int)
    requires
        forall|k1: int, k2: int|
            0 <= k1 < k2 < ch.len() ==> (#[trigger] ch[k1]).0 < (#[trigger] ch[k2]).0,
        0 <= k < ch.len(),
    ensures
        (ch[k].0 as int) >= k,
    decreases k,
{
    if k > 0 {
        lemma_sorted_slot(ch, k - 1);
        assert(ch[k - 1].0 < ch[k].0);
    }
}

impl<E: Env> Mcts<E> {
    /// Runs `n` simulations from the current root, strictly one after
    /// another. Each adds one visit at the root; if the root is not
    /// terminal it is expanded by the first of them.
    pub fn explore_n<P: Policy<E>>(&mut self, n: usize, policy: &mut P)
        requires
            old(self).wf(),
            old(self).sims + n <= SIM_CAP,
        ensures
            final(self).wf(),
            *final(policy) == *old(policy),
            final(self).sims == old(self).sims + n,
            final(self).root == old(self).root,
            final(self).c_puct == old(self).c_puct,
            final(self).root_node_spec().state == old(self).root_node_spec().state,
            final(self).root_node_spec().over == old(self).root_node_spec().over,
            final(self).root_node_spec().num_visits == old(self).root_node_spec().num_visits + n,
            old(self).root_node_spec().children@.len() > 0 ==> final(self).root_node_spec().children@
                == old(self).root_node_spec().children@,
            !old(self).root_node_spec().over && n >= 1 ==> final(self).root_node_spec().children@.len()
                > 0,
            // a root first expanded here got its children from the evaluator
            old(self).root_node_spec().children@.len() == 0 && !old(self).root_node_spec().over
                && n >= 1 ==> expanded_by(
                *final(self),
                old(policy).priors_spec(old(self).root_node_spec().state),
            ),
            // an already expanded root keeps each child's prior
            forall|m: int|
                0 <= m < old(self).root_node_spec().children@.len()
                    ==> #[trigger] final(self).nodes@[old(self).root_node_spec().children@[m].1 as int].prior
                    == old(self).nodes@[old(self).root_node_spec().children@[m].1 as int].prior,
    {
        let mut i: usize = 0;
        while i < n
            invariant
                i <= n,
                self.wf(),
                *policy == *old(policy),
                old(self).sims + n <= SIM_CAP,
                self.sims == old(self).sims + i,
                self.root == old(self).root,
                self.c_puct == old(self).c_puct,
                self.root_node_spec().state == old(self).root_node_spec().state,
                self.root_node_spec().over == old(self).root_node_spec().over,
                self.root_node_spec().num_visits == old(self).root_node_spec().num_visits + i,
                old(self).root_node_spec().children@.len() > 0 ==> self.root_node_spec().children@
                    == old(self).root_node_spec().children@,
                !old(self).root_node_spec().over && i >= 1 ==> self.root_node_spec().children@.len()
                    > 0,
                old(self).root_node_spec().children@.len() == 0 && !old(
                    self,
                ).root_node_spec().over && i >= 1 ==> expanded_by(
                    *self,
                    old(policy).priors_spec(old(self).root_node_spec().state),
                ),
                i == 0 ==> self.nodes@ == old(self).nodes@,
                forall|m: int|
                    0 <= m < old(self).root_node_spec().children@.len()
                        ==> #[trigger] self.nodes@[old(self).root_node_spec().children@[m].1 as int].prior
                        == old(self).nodes@[old(self).root_node_spec().children@[m].1 as int].prior,
            decreases n - i,
        {
            let ghost before = *self;
            self.explore_one(policy);
            proof {
                let pr = old(policy).priors_spec(old(self).root_node_spec().state);
                if old(self).root_node_spec().children@.len() == 0 && !old(
                    self,
                ).root_node_spec().over {
                    if i == 0 {
                        // this turn expanded the root via the evaluator
                        assert(before.root_node_spec().children@.len() == 0);
                        assert(expanded_by(*self, pr));
                    } else {
                        // an earlier turn expanded it; children and their
                        // priors were kept
                        assert(before.root_node_spec().children@
                            == self.root_node_spec().children@);
                        assert forall|m: int|
                            0 <= m < self.root_node_spec().children@.len() implies self.nodes@[(
                        #[trigger] self.root_node_spec().children@[m]).1 as int].prior
                            == pr[self.root_node_spec().children@[m].0 as int] by {
                            assert(self.nodes@[(before.root_node_spec().children@[m]).1 as int].prior
                                == before.nodes@[(before.root_node_spec().children@[m]).1 as int].prior);
                            assert(before.nodes@[(before.root_node_spec().children@[m]).1 as int].prior
                                == pr[before.root_node_spec().children@[m].0 as int]);
                        }
                        assert forall|a: int|
                            0 <= a < pr.len() implies (pr[a] > 0 <==> exists|m: int|
                            0 <= m < self.root_node_spec().children@.len() && ((
                            #[trigger] self.root_node_spec().children@[m]).0 as int) == a) by {
                            assert(pr[a] > 0 <==> exists|m: int|
                                0 <= m < before.root_node_spec().children@.len() && ((
                                #[trigger] before.root_node_spec().children@[m]).0 as int) == a);
                        }
                        assert(expanded_by(*self, pr));
                    }
                }
                if old(self).root_node_spec().children@.len() > 0 {
                    assert forall|m: int|
                        0 <= m < old(self).root_node_spec().children@.len() implies #[trigger] self.nodes@[old(
                        self,
                    ).root_node_spec().children@[m].1 as int].prior == old(self).nodes@[old(
                        self,
                    ).root_node_spec().children@[m].1 as int].prior by {
                        assert(before.root_node_spec().children@
                            == old(self).root_node_spec().children@);
                        assert(self.nodes@[(before.root_node_spec().children@[m]).1 as int].prior
                            == before.nodes@[(before.root_node_spec().children@[m]).1 as int].prior);
                        assert(before.nodes@[(old(self).root_node_spec().children@[m]).1 as int].prior
                            == old(self).nodes@[(old(self).root_node_spec().children@[m]).1 as int].prior);
                    }
                }
            }
            i = i + 1;
        }
    }

    /// The root child with the most visits; ties go to the earliest in
    /// creation order. This is the deterministic move choice.
    pub fn best_action(&self) -> (a: usize)
        requires
            self.wf(),
            self.root_node_spec().children@.len() > 0,
        ensures
            exists|k: int|
                {
                    &&& 0 <= k < self.root_node_spec().children@.len()
                    &&& (#[trigger] self.root_node_spec().children@[k]).0 == a
                    &&& (forall|j: int|
                        0 <= j < self.root_node_spec().children@.len() ==> self.nodes@[(
                        #[trigger] self.root_node_spec().children@[j]).1 as int].num_visits
                            <= self.nodes@[self.root_node_spec().children@[k].1 as int].num_visits)
                    &&& (forall|j: int|
                        0 <= j < k ==> self.nodes@[(
                        #[trigger] self.root_node_spec().children@[j]).1 as int].num_visits
                            < self.nodes@[self.root_node_spec().children@[k].1 as int].num_visits)
                },
            (a as nat) < E::actions_spec(),
    {
        proof {
            assert(node_ok(self.nodes@, self.root as int, E::actions_spec(), self.sims as nat));
        }
        let r = self.root;
        let ch_len = self.nodes[r].children.len();
        let mut best: usize = 0;
        let c0 = self.nodes[r].children[0].1;
        let mut best_v: u64 = self.nodes[c0].num_visits;
        let mut j: usize = 1;
        while j < ch_len
            invariant
                self.wf(),
                r == self.root,
                ch_len == self.root_node_spec().children@.len(),
                (best as int) < j <= ch_len,
                best_v == self.nodes@[self.root_node_spec().children@[best as int].1 as int].num_visits,
                forall|jj: int|
                    0 <= jj < j ==> self.nodes@[(#[trigger] self.root_node_spec().children@[jj]).1 as int].num_visits
                        <= best_v,
                forall|jj: int|
                    0 <= jj < best ==> self.nodes@[(
                    #[trigger] self.root_node_spec().children@[jj]).1 as int].num_visits < best_v,
            decreases ch_len - j,
        {
            proof {
                assert(node_ok(self.nodes@, r as int, E::actions_spec(), self.sims as nat));
            }
            let cj = self.nodes[r].children[j].1;
            let vj = self.nodes[cj].num_visits;
            if vj > best_v {
                best = j;
                best_v = vj;
            }
            j = j + 1;
        }
        let a = self.nodes[r].children[best].0;
        proof {
            assert(node_ok(self.nodes@, r as int, E::actions_spec(), self.sims as nat));
        }
        a
    }

    /// Mixes an exploration-noise vector into the priors of the root's
    /// expanded children, in place, saturating at `PRIOR_CAP`. Actions
    /// without a child receive nothing.
    pub fn add_noise(&mut self, noise: &Vec<i64>)
        requires
            old(self).wf(),
            noise@.len() == E::actions_spec(),
            forall|i: int| 0 <= i < noise@.len() ==> 0 <= #[trigger] noise@[i] <= UNIT,
        ensures
            final(self).wf(),
            final(self).root == old(self).root,
            final(self).sims == old(self).sims,
            final(self).c_puct == old(self).c_puct,
            final(self).nodes@.len() == old(self).nodes@.len(),
            final(self).root_node_spec().children@ == old(self).root_node_spec().children@,
            final(self).root_node_spec().state == old(self).root_node_spec().state,
            final(self).root_node_spec().over == old(self).root_node_spec().over,
            final(self).root_node_spec().num_visits == old(self).root_node_spec().num_visits,
            forall|i: int|
                0 <= i < old(self).nodes@.len() && !has_child(
                    old(self).nodes@,
                    old(self).root as int,
                    i,
                ) ==> #[trigger] final(self).nodes@[i] == old(self).nodes@[i],
            forall|m: int|
                0 <= m < old(self).root_node_spec().children@.len() ==> {
                    let c = (#[trigger] old(self).root_node_spec().children@[m]).1 as int;
                    let n1 = old(self).nodes@[c];
                    let n2 = final(self).nodes@[c];
                    &&& n2.prior == (if n1.prior + noise@[old(self).root_node_spec().children@[m].0 as int]
                        > PRIOR_CAP {
                        PRIOR_CAP as int
                    } else {
                        n1.prior + noise@[old(self).root_node_spec().children@[m].0 as int]
                    })
                    &&& n2.num_visits == n1.num_visits
                    &&& n2.total_value == n1.total_value
                    &&& n2.children == n1.children
                    &&& n2.state == n1.state
                    &&& n2.over == n1.over
                },
    {
        proof {
            assert(node_ok(self.nodes@, self.root as int, E::actions_spec(), self.sims as nat));
        }
        let r = self.root;
        let ch_len = self.nodes[r].children.len();
        let mut m: usize = 0;
        while m < ch_len
            invariant
                m <= ch_len,
                old(self).wf(),
                noise@.len() == E::actions_spec(),
                forall|i: int| 0 <= i < noise@.len() ==> 0 <= #[trigger] noise@[i] <= UNIT,
                r == old(self).root,
                self.root == old(self).root,
                self.sims == old(self).sims,
                self.c_puct == old(self).c_puct,
                self.nodes@.len() == old(self).nodes@.len(),
                ch_len == old(self).root_node_spec().children@.len(),
                forall|i: int|
                    0 <= i < old(self).nodes@.len() && !has_child(
                        old(self).nodes@,
                        old(self).root as int,
                        i,
                    ) ==> #[trigger] self.nodes@[i] == old(self).nodes@[i],
                forall|mm: int|
                    0 <= mm < ch_len ==> (#[trigger] self.nodes@[old(self).root as int].children@[mm])
                        == old(self).root_node_spec().children@[mm],
                self.nodes@[old(self).root as int].children@.len() == ch_len,
                forall|mm: int|
                    m <= mm < ch_len ==> #[trigger] self.nodes@[old(
                        self,
                    ).root_node_spec().children@[mm].1 as int] == old(self).nodes@[old(
                        self,
                    ).root_node_spec().children@[mm].1 as int],
                forall|mm: int|
                    0 <= mm < m ==> {
                        let c = (#[trigger] old(self).root_node_spec().children@[mm]).1 as int;
                        let n1 = old(self).nodes@[c];
                        let n2 = self.nodes@[c];
                        &&& n2.prior == (if n1.prior + noise@[old(
                            self,
                        ).root_node_spec().children@[mm].0 as int] > PRIOR_CAP {
                            PRIOR_CAP as int
                        } else {
                            n1.prior + noise@[old(self).root_node_spec().children@[mm].0 as int]
                        })
                        &&& n2.num_visits == n1.num_visits
                        &&& n2.total_value == n1.total_value
                        &&& n2.children == n1.children
                        &&& n2.state == n1.state
                        &&& n2.over == n1.over
                    },
                self.wf(),
            decreases ch_len - m,
        {
            proof {
                assert(node_ok(
                    old(self).nodes@,
                    old(self).root as int,
                    E::actions_spec(),
                    old(self).sims as nat,
                ));
            }
            let ghost prev = *self;
            proof {
                assert(node_ok(self.nodes@, self.root as int, E::actions_spec(), self.sims as nat));
            }
            let (act, c) = self.nodes[r].children[m];
            proof {
                assert(node_ok(self.nodes@, c as int, E::actions_spec(), self.sims as nat));
            }
            let p = self.nodes[c].prior;
            let nz = noise[act];
            let np: i64 = if p + nz > PRIOR_CAP {
                PRIOR_CAP
            } else {
                p + nz
            };
            let nr = node_at_mut(&mut self.nodes, c);
            nr.prior = np;
            proof {
                let on = old(self).nodes@;
                let rt = old(self).root as int;
                let ch = old(self).root_node_spec().children@;
                assert(has_child(on, rt, c as int));
                assert forall|i: int|
                    0 <= i < on.len() && !has_child(on, rt, i) implies #[trigger] self.nodes@[i]
                        == on[i] by {}
                assert forall|mm: int|
                    m + 1 <= mm < ch_len implies #[trigger] self.nodes@[ch[mm].1 as int] == on[ch[mm].1 as int] by {
                    if ch[mm].1 == c {
                        assert(mm == m as int);
                    }
                }
                assert forall|mm: int| 0 <= mm < m + 1 implies {
                    let cc = (#[trigger] ch[mm]).1 as int;
                    let n1 = on[cc];
                    let n2 = self.nodes@[cc];
                    &&& n2.prior == (if n1.prior + noise@[ch[mm].0 as int] > PRIOR_CAP {
                        PRIOR_CAP as int
                    } else {
                        n1.prior + noise@[ch[mm].0 as int]
                    })
                    &&& n2.num_visits == n1.num_visits
                    &&& n2.total_value == n1.total_value
                    &&& n2.children == n1.children
                    &&& n2.state == n1.state
                    &&& n2.over == n1.over
                } by {
                    if ch[mm].1 == c {
                        assert(mm == m as int);
                    }
                }
                // the arena is still well formed: only one prior moved
                assert forall|i: int|
                    0 <= i < self.nodes@.len() implies node_ok(
                    self.nodes@,
                    i,
                    E::actions_spec(),
                    self.sims as nat,
                ) by {
                    assert(node_ok(prev.nodes@, i, E::actions_spec(), prev.sims as nat));
                    if self.nodes@[i].children@.len() > 0 {
                        lemma_kids_visits_same(prev.nodes@, self.nodes@, prev.nodes@[i].children@);
                    }
                }
            }
            m = m + 1;
        }
        proof {
            assert(!has_child(old(self).nodes@, old(self).root as int, old(self).root as int)) by {
                if has_child(old(self).nodes@, old(self).root as int, old(self).root as int) {
                    let kk = choose|kk: int|
                        0 <= kk < old(self).nodes@[old(self).root as int].children@.len() && (
                        #[trigger] old(self).nodes@[old(self).root as int].children@[kk]).1 == old(
                            self,
                        ).root;
                }
            }
            assert(self.nodes@[self.root as int].children@ =~= old(
                self,
            ).root_node_spec().children@);
        }
    }

    /// The exact temperature-scaled visit-count policy target over the
    /// root's children, as a rational: per-action weights and their sum.
    /// The weight of action `a` with `v` visits is the floor of
    /// `v^(t_den/t_num)`; actions without a visited child weigh nothing.
    pub fn visit_targets(&self, t_num: u32, t_den: u32) -> (r: (Vec<u64>, u64))
        requires
            self.wf(),
            1 <= t_num,
            1 <= t_den <= 4,
            t_den <= 2 * t_num,
            exists|m: int|
                0 <= m < self.root_node_spec().children@.len() && self.nodes@[(
                #[trigger] self.root_node_spec().children@[m]).1 as int].num_visits >= 1,
        ensures
            r.0@.len() == E::actions_spec(),
            forall|m: int|
                0 <= m < self.root_node_spec().children@.len() ==> is_temp_weight(
                    r.0@[(#[trigger] self.root_node_spec().children@[m]).0 as int] as nat,
                    self.nodes@[self.root_node_spec().children@[m].1 as int].num_visits as nat,
                    t_num as nat,
                    t_den as nat,
                ),
            forall|m: int|
                0 <= m < self.root_node_spec().children@.len() ==> (r.0@[(
                #[trigger] self.root_node_spec().children@[m]).0 as int] >= 1 <==> self.nodes@[self.root_node_spec().children@[m].1 as int].num_visits
                    >= 1),
            forall|x: int|
                0 <= x < r.0@.len() && !(exists|m: int|
                    0 <= m < self.root_node_spec().children@.len() && ((
                    #[trigger] self.root_node_spec().children@[m]).0 as int) == x) ==> r.0@[x] == 0,
            sum64(r.0@) == r.1,
            1 <= r.1 <= 0x4000000000000000,
    {
        proof {
            assert(node_ok(self.nodes@, self.root as int, E::actions_spec(), self.sims as nat));
        }
        let r = self.root;
        let n_act = E::num_actions();
        let mut w: Vec<u64> = Vec::new();
        let mut z: usize = 0;
        while z < n_act
            invariant
                z <= n_act,
                w@.len() == z,
                forall|x: int| 0 <= x < z ==> #[trigger] w@[x] == 0,
                sum64(w@) == 0,
            decreases n_act - z,
        {
            let ghost oldw = w@;
            w.push(0);
            proof {
                crate::num::lemma_sum64_push(oldw, 0);
            }
            z = z + 1;
        }
        let ch_len = self.nodes[r].children.len();
        let mut total: u64 = 0;
        let mut m: usize = 0;
        while m < ch_len
            invariant
                m <= ch_len,
                self.wf(),
                1 <= t_num,
                1 <= t_den <= 4,
                t_den <= 2 * t_num,
                r == self.root,
                n_act == E::actions_spec(),
                n_act <= ACT_CAP,
                ch_len == self.root_node_spec().children@.len(),
                w@.len() == n_act,
                total == sum64(w@),
                total <= (m as int) * 0x40000000000,
                forall|mm: int|
                    0 <= mm < m ==> is_temp_weight(
                        w@[(#[trigger] self.root_node_spec().children@[mm]).0 as int] as nat,
                        self.nodes@[self.root_node_spec().children@[mm].1 as int].num_visits as nat,
                        t_num as nat,
                        t_den as nat,
                    ),
                forall|mm: int|
                    0 <= mm < m ==> (w@[(#[trigger] self.root_node_spec().children@[mm]).0 as int]
                        >= 1 <==> self.nodes@[self.root_node_spec().children@[mm].1 as int].num_visits
                        >= 1),
                forall|x: int|
                    0 <= x < n_act && !(exists|mm: int|
                        0 <= mm < m && ((#[trigger] self.root_node_spec().children@[mm]).0 as int)
                            == x) ==> w@[x] == 0,
            decreases ch_len - m,
        {
            proof {
                assert(node_ok(self.nodes@, r as int, E::actions_spec(), self.sims as nat));
            }
            let (act, c) = self.nodes[r].children[m];
            let v = self.nodes[c].num_visits;
            proof {
                assert(node_ok(self.nodes@, c as int, E::actions_spec(), self.sims as nat));
                assert(v <= SIM_CAP + 1);
            }
            let wt = temp_weight(v, t_num, t_den);
            proof {
                assert((v as int) * (v as int) <= 0x1fffff * 0x1fffff) by (nonlinear_arith)
                    requires
                        0 <= (v as int) <= 0x1fffff,
                ;
                assert(m as int + 1 <= 0x100000) by {
                    lemma_sorted_slot(
                        self.root_node_spec().children@,
                        self.root_node_spec().children@.len() - 1,
                    );
                }
                assert((m as int) * 0x40000000000 + 0x40000000000 <= (m as int + 1)
                    * 0x40000000000) by (nonlinear_arith);
                assert((m as int + 1) * 0x40000000000 <= 0x4000000000000000) by (nonlinear_arith)
                    requires
                        m as int + 1 <= 0x100000,
                ;
                assert(w@[act as int] == 0) by {
                    if exists|mm: int|
                        0 <= mm < m && ((#[trigger] self.root_node_spec().children@[mm]).0 as int)
                            == act as int {
                        let mm = choose|mm: int|
                            0 <= mm < m && ((#[trigger] self.root_node_spec().children@[mm]).0 as int)
                                == act as int;
                        assert(self.root_node_spec().children@[mm].0 < self.root_node_spec().children@[m as int].0);
                    }
                }
                lemma_sum64_update(w@, act as int, wt);
            }
            let ghost oldw = w@;
            set_u64(&mut w, act, wt);
            total = total + wt;
            proof {
                assert forall|x: int|
                    0 <= x < n_act && !(exists|mm: int|
                        0 <= mm < m + 1 && ((#[trigger] self.root_node_spec().children@[mm]).0 as int)
                            == x) implies w@[x] == 0 by {
                    if x != act as int {
                        assert(w@[x] == oldw[x]);
                    }
                }
            }
            m = m + 1;
        }
        proof {
            let ch = self.root_node_spec().children@;
            assert(node_ok(self.nodes@, r as int, E::actions_spec(), self.sims as nat));
            let m0 = choose|m0: int|
                0 <= m0 < ch.len() && self.nodes@[(#[trigger] ch[m0]).1 as int].num_visits >= 1;
            assert(w@[ch[m0].0 as int] >= 1);
            crate::num::lemma_sum64_lower(w@, ch[m0].0 as int);
            lemma_sorted_slot(ch, ch.len() - 1);
            assert(ch.len() <= 0x100000);
            assert((ch.len() as int) * 0x40000000000 <= 0x4000000000000000) by (nonlinear_arith)
                requires
                    0 <= ch.len() as int <= 0x100000,
            ;
        }
        (w, total)
    }

    /// Re-roots the tree at the child reached by `a`, keeping that
    /// subtree's statistics; if the action was never explored, a fresh
    /// child with zero statistics and the stepped state is synthesized.
    /// Everything outside the new root's subtree is discarded.
    pub fn step_action(&mut self, a: usize)
        requires
            old(self).wf(),
            (a as nat) < E::actions_spec(),
            !old(self).root_node_spec().over,
        ensures
            final(self).wf(),
            final(self).sims == old(self).sims,
            final(self).c_puct == old(self).c_puct,
            final(self).root_state_spec() == old(self).root_state_spec().next_spec(a as int),
            final(self).root_node_spec().over == final(self).root_state_spec().over_spec(),
            final(self).nodes@.len() <= old(self).nodes@.len() + 1,
            forall|i: int|
                0 <= i < old(self).nodes@.len() && i != old(self).root as int
                    ==> #[trigger] final(self).nodes@[i] == old(self).nodes@[i],
            final(self).nodes@[old(self).root as int].children@.len() == 0,
            final(self).root != old(self).root,
            forall|k: int|
                0 <= k < old(self).root_node_spec().children@.len() && (#[trigger] old(
                    self,
                ).root_node_spec().children@[k]).0 == a ==> final(self).root_node_spec() == old(
                    self,
                ).nodes@[old(self).root_node_spec().children@[k].1 as int],
            !(exists|k: int|
                0 <= k < old(self).root_node_spec().children@.len() && (#[trigger] old(
                    self,
                ).root_node_spec().children@[k]).0 == a) ==> final(self).root_node_spec().num_visits
                == 0 && final(self).root_node_spec().children@.len() == 0,
    {
        proof {
            assert(node_ok(self.nodes@, self.root as int, E::actions_spec(), self.sims as nat));
        }
        let r = self.root;
        let ch_len = self.nodes[r].children.len();
        let mut found: bool = false;
        let mut cidx: usize = 0;
        let mut k: usize = 0;
        while k < ch_len
            invariant
                k <= ch_len,
                self.wf(),
                self == old(self),
                r == self.root,
                ch_len == self.root_node_spec().children@.len(),
                found ==> exists|kk: int|
                    0 <= kk < ch_len && (#[trigger] self.root_node_spec().children@[kk]) == (
                    a,
                    cidx,
                ),
                !found ==> forall|kk: int|
                    0 <= kk < k ==> (#[trigger] self.root_node_spec().children@[kk]).0 != a,
                found ==> (cidx as int) < self.nodes@.len(),
            decreases ch_len - k,
        {
            let (act, c) = self.nodes[r].children[k];
            if act == a {
                proof {
                    assert(node_ok(
                        self.nodes@,
                        r as int,
                        E::actions_spec(),
                        self.sims as nat,
                    ));
                }
                found = true;
                cidx = c;
            }
            k = k + 1;
        }
        let ghost prev = *self;
        if found {
            let rr = node_at_mut(&mut self.nodes, r);
            rr.children = Vec::new();
            rr.num_visits = 0;
            rr.total_value = 0;
            self.root = cidx;
        } else {
            let mut st = self.nodes[r].state.snapshot();
            let over = st.step(a);
            let idx = self.nodes.len();
            self.nodes.push(
                Node {
                    state: st,
                    over,
                    children: Vec::new(),
                    num_visits: 0,
                    total_value: 0,
                    prior: UNIT,
                },
            );
            let rr = node_at_mut(&mut self.nodes, r);
            rr.children = Vec::new();
            rr.num_visits = 0;
            rr.total_value = 0;
            self.root = idx;
        }
        proof {
            let on = prev.nodes@;
            let fn_ = self.nodes@;
            let na = E::actions_spec();
            let rt = r as int;
            assert forall|i: int|
                0 <= i < fn_.len() implies node_ok(fn_, i, na, self.sims as nat) by {
                if i < on.len() {
                    assert(node_ok(on, i, na, prev.sims as nat));
                }
                if i != rt && i < on.len() {
                    assert(fn_[i] == on[i]);
                    if fn_[i].children@.len() > 0 {
                        assert forall|kk: int|
                            0 <= kk < fn_[i].children@.len() implies fn_[(
                        #[trigger] fn_[i].children@[kk]).1 as int].num_visits == on[fn_[i].children@[kk].1 as int].num_visits by {
                            assert((fn_[i].children@[kk]).1 != prev.root);
                        }
                        lemma_kids_visits_same(on, fn_, fn_[i].children@);
                    }
                }
            }
            assert forall|i1: int, k1: int, i2: int, k2: int|
                0 <= i1 < fn_.len() && 0 <= k1 < fn_[i1].children@.len() && 0 <= i2 < fn_.len()
                    && 0 <= k2 < fn_[i2].children@.len() && (i1 != i2 || k1 != k2) implies (
            #[trigger] fn_[i1].children@[k1]).1 != (#[trigger] fn_[i2].children@[k2]).1 by {
                assert(i1 != rt && i2 != rt);
                if i1 < on.len() && i2 < on.len() {
                    assert(fn_[i1].children@ == on[i1].children@);
                    assert(fn_[i2].children@ == on[i2].children@);
                }
            }
            assert forall|i: int, kk: int|
                0 <= i < fn_.len() && 0 <= kk < fn_[i].children@.len() implies (
            #[trigger] fn_[i].children@[kk]).1 != self.root by {
                assert(i != rt);
                assert(i < on.len());
                assert(fn_[i].children@ == on[i].children@);
                assert(node_ok(on, i, na, prev.sims as nat));
                if found {
                    if (on[i].children@[kk]).1 == cidx {
                        let k0 = choose|k0: int|
                            0 <= k0 < on[rt].children@.len() && (#[trigger] on[rt].children@[k0])
                                == (a, cidx);
                        assert(i == rt && kk == k0);
                    }
                } else {
                    assert((on[i].children@[kk]).1 < on.len());
                }
            }
            assert(self.wf());
            if found {
                let k0 = choose|k0: int|
                    0 <= k0 < on[rt].children@.len() && (#[trigger] on[rt].children@[k0]) == (
                    a,
                    cidx,
                );
                assert(node_ok(on, rt, na, prev.sims as nat));
                assert(on[cidx as int].state == on[rt].state.next_spec(a as int));
                assert(fn_[cidx as int] == on[cidx as int]);
                assert(node_ok(fn_, self.root as int, na, self.sims as nat));
                assert forall|kk: int|
                    0 <= kk < on[rt].children@.len() && (#[trigger] on[rt].children@[kk]).0 == a
                        implies fn_[self.root as int] == on[on[rt].children@[kk].1 as int] by {
                    if kk != k0 {
                        if kk < k0 {
                            assert(on[rt].children@[kk].0 < on[rt].children@[k0].0);
                        } else {
                            assert(on[rt].children@[k0].0 < on[rt].children@[kk].0);
                        }
                    }
                }
            } else {
                assert(fn_[self.root as int].state == on[rt].state.next_spec(a as int));
                assert(fn_[self.root as int].over == fn_[self.root as int].state.over_spec());
            }
        }
    }
}

/// Weights computed by `visit_targets` order like the visit counts: the
/// action `best_action` returns carries a positive weight no other
/// action exceeds, and at temperature one (weights equal to visit
/// counts) every smaller action weighs strictly less.
pub proof fn lemma_best_action_weights<E: Env>(
    nodes: Seq<Node<E>>,
    ch: Seq<(usize, usize)>,
    w: Seq<u64>,
    action: usize,
    t_num: u32,
    t_den: u32,
)
    requires
        1 <= t_num,
        forall|k1: int, k2: int|
            0 <= k1 < k2 < ch.len() ==> (#[trigger] ch[k1]).0 < (#[trigger] ch[k2]).0,
        forall|m: int| 0 <= m < ch.len() ==> ((#[trigger] ch[m]).0 as int) < w.len(),
        forall|m: int|
            0 <= m < ch.len() ==> is_temp_weight(
                w[(#[trigger] ch[m]).0 as int] as nat,
                nodes[ch[m].1 as int].num_visits as nat,
                t_num as nat,
                t_den as nat,
            ),
        forall|m: int|
            0 <= m < ch.len() ==> (w[(#[trigger] ch[m]).0 as int] >= 1
                <==> nodes[ch[m].1 as int].num_visits >= 1),
        forall|x: int|
            0 <= x < w.len() && !(exists|m: int|
                0 <= m < ch.len() && ((#[trigger] ch[m]).0 as int) == x) ==> w[x] == 0,
        exists|k: int|
            {
                &&& 0 <= k < ch.len()
                &&& ((#[trigger] ch[k]).0) == action
                &&& (forall|j: int|
                    0 <= j < ch.len() ==> nodes[(#[trigger] ch[j]).1 as int].num_visits
                        <= nodes[ch[k].1 as int].num_visits)
                &&& (forall|j: int|
                    0 <= j < k ==> nodes[(#[trigger] ch[j]).1 as int].num_visits
                        < nodes[ch[k].1 as int].num_visits)
            },
        exists|m: int|
            0 <= m < ch.len() && nodes[(#[trigger] ch[m]).1 as int].num_visits >= 1,
    ensures
        (action as int) < w.len(),
        w[action as int] >= 1,
        forall|x: int| 0 <= x < w.len() ==> #[trigger] w[x] <= w[action as int],
        t_num == t_den ==> forall|x: int| 0 <= x < action as int ==> #[trigger] w[x] < w[
            action as int],
{
    let k = choose|k: int|
        {
            &&& 0 <= k < ch.len()
            &&& ((#[trigger] ch[k]).0) == action
            &&& (forall|j: int|
                0 <= j < ch.len() ==> nodes[(#[trigger] ch[j]).1 as int].num_visits
                    <= nodes[ch[k].1 as int].num_visits)
            &&& (forall|j: int|
                0 <= j < k ==> nodes[(#[trigger] ch[j]).1 as int].num_visits < nodes[ch[k].1 as int].num_visits)
        };
    let m0 = choose|m: int|
        0 <= m < ch.len() && nodes[(#[trigger] ch[m]).1 as int].num_visits >= 1;
    assert(nodes[ch[k].1 as int].num_visits >= nodes[ch[m0].1 as int].num_visits);
    assert(w[action as int] >= 1);
    assert forall|x: int| 0 <= x < w.len() implies #[trigger] w[x] <= w[action as int] by {
        if exists|m: int| 0 <= m < ch.len() && ((#[trigger] ch[m]).0 as int) == x {
            let m = choose|m: int| 0 <= m < ch.len() && ((#[trigger] ch[m]).0 as int) == x;
            crate::num::lemma_temp_weight_mono(
                w[x] as nat,
                nodes[ch[m].1 as int].num_visits as nat,
                w[action as int] as nat,
                nodes[ch[k].1 as int].num_visits as nat,
                t_num as nat,
                t_den as nat,
            );
        } else {
            assert(w[x] == 0);
        }
    }
    if t_num == t_den {
        assert forall|x: int| 0 <= x < action as int implies #[trigger] w[x] < w[action as int] by {
            if exists|m: int| 0 <= m < ch.len() && ((#[trigger] ch[m]).0 as int) == x {
                let m = choose|m: int| 0 <= m < ch.len() && ((#[trigger] ch[m]).0 as int) == x;
                assert(m < k) by {
                    if m > k {
                        assert(ch[k].0 < ch[m].0);
                    }
                }
                assert(nodes[ch[m].1 as int].num_visits < nodes[ch[k].1 as int].num_visits);
                crate::num::lemma_temp_weight_id(
                    w[x] as nat,
                    nodes[ch[m].1 as int].num_visits as nat,
                    t_num as nat,
                );
                crate::num::lemma_temp_weight_id(
                    w[action as int] as nat,
                    nodes[ch[k].1 as int].num_visits as nat,
                    t_num as nat,
                );
            } else {
                assert(w[x] == 0);
            }
        }
    }
}

/// Whether `i` is one of `p[lo .. hi]`.
pub open spec fn on_path(p: Seq<usize>, lo: int, hi: int, i: int) -> bool {
    exists|u: int| lo <= u < hi && ((#[trigger] p[u]) as int) == i
}

proof fn lemma_inc_between(p: Seq<usize>, a: int, b: int)
    requires
        forall|t: int| 0 <= t < p.len() - 1 ==> p[t] < #[trigger] p[t + 1],
        0 <= a < b < p.len(),
    ensures
        p[a] < p[b],
    decreases b - a,
{
    if a + 1 < b {
        lemma_inc_between(p, a, b - 1);
        assert(p[b - 1] < p[b - 1 + 1]);
    } else {
        assert(p[a] < p[a + 1]);
    }
}

/// The current root's children are exactly the positive entries of the
/// prior vector `pr`, each child carrying that prior.
pub open spec fn expanded_by<E: Env>(t: Mcts<E>, pr: Seq<i64>) -> bool {
    &&& (forall|m: int|
        0 <= m < t.root_node_spec().children@.len() ==> t.nodes@[(
        #[trigger] t.root_node_spec().children@[m]).1 as int].prior == pr[t.root_node_spec().children@[m].0 as int])
    &&& (forall|a: int|
        0 <= a < pr.len() ==> (pr[a] > 0 <==> exists|m: int|
            0 <= m < t.root_node_spec().children@.len() && ((
            #[trigger] t.root_node_spec().children@[m]).0 as int) == a))
}

/// The shape of one simulation's backup, shared by the two restoration
/// lemmas: `pre` well formed with a descent path to a leaf, `mid` equal
/// to `pre` but for the leaf's expansion into `gkids`, and `fin` equal
/// to `mid` with every path node bumped by one visit and the
/// sign-alternated value `v`, plus one more simulation counted.
pub open spec fn backup_shape<E: Env>(
    pre: Mcts<E>,
    mid: Mcts<E>,
    fin: Mcts<E>,
    path: Seq<usize>,
    gkids: Seq<(usize, usize)>,
    v: i64,
) -> bool {
    &&& (pre.wf())
    &&& (pre.sims < SIM_CAP)
    &&& (-UNIT <= v <= UNIT)
    &&& (path.len() >= 1)
    &&& (path[0] == pre.root)
    &&& (forall|t: int| 0 <= t < path.len() ==> ((#[trigger] path[t]) as int) < pre.nodes@.len())
    &&& (forall|t: int| 0 <= t < path.len() - 1 ==> path[t] < #[trigger] path[t + 1])
    &&& (forall|t: int|
                0 <= t < path.len() - 1 ==> has_child(
                    pre.nodes@,
                    (#[trigger] path[t]) as int,
                    path[t + 1] as int,
                ))
    &&& (forall|t: int|
                0 <= t < path.len() - 1 ==> pre.nodes@[(#[trigger] path[t]) as int].children@.len()
                    > 0 && !pre.nodes@[path[t] as int].over)
    &&& (pre.nodes@[path[path.len() - 1] as int].over || pre.nodes@[path[path.len()
                - 1] as int].children@.len() == 0)
    &&& (mid.root == pre.root)
    &&& (mid.sims == pre.sims)
    &&& (mid.c_puct == pre.c_puct)
    &&& (mid.nodes@.len() >= pre.nodes@.len())
    &&& (forall|i: int|
                0 <= i < pre.nodes@.len() && i != path[path.len() - 1] as int
                    ==> #[trigger] mid.nodes@[i] == pre.nodes@[i])
    &&& (pre.nodes@[path[path.len() - 1] as int].over ==> mid.nodes@ == pre.nodes@)
    &&& (pre.nodes@[path[path.len() - 1] as int].over ==> gkids.len() == 0)
    &&& (!pre.nodes@[path[path.len() - 1] as int].over ==> {
                let lf = path[path.len() - 1] as int;
                let prelen = pre.nodes@.len() as int;
                &&& mid.nodes@.len() == prelen + gkids.len()
                &&& 1 <= gkids.len() <= E::actions_spec()
                &&& mid.nodes@[lf].children@ == gkids
                &&& mid.nodes@[lf].state == pre.nodes@[lf].state
                &&& mid.nodes@[lf].over == pre.nodes@[lf].over
                &&& mid.nodes@[lf].num_visits == pre.nodes@[lf].num_visits
                &&& mid.nodes@[lf].total_value == pre.nodes@[lf].total_value
                &&& mid.nodes@[lf].prior == pre.nodes@[lf].prior
                &&& (forall|m: int|
                    0 <= m < gkids.len() ==> (#[trigger] gkids[m]).1 == prelen + m)
                &&& (forall|m: int|
                    0 <= m < gkids.len() ==> ((#[trigger] gkids[m]).0 as nat) < E::actions_spec())
                &&& (forall|m1: int, m2: int|
                    0 <= m1 < m2 < gkids.len() ==> (#[trigger] gkids[m1]).0 < (
                    #[trigger] gkids[m2]).0)
                &&& (forall|m: int|
                    0 <= m < gkids.len() ==> {
                        let c = mid.nodes@[(#[trigger] gkids[m]).1 as int];
                        &&& c.num_visits == 0
                        &&& c.total_value == 0
                        &&& c.children@.len() == 0
                        &&& c.state == pre.nodes@[lf].state.next_spec(gkids[m].0 as int)
                        &&& c.over == c.state.over_spec()
                        &&& 1 <= c.prior <= UNIT
                    })
            })
    &&& (fin.nodes@.len() == mid.nodes@.len())
    &&& (fin.root == mid.root)
    &&& (fin.sims == pre.sims + 1)
    &&& (fin.c_puct == mid.c_puct)
    &&& (forall|u: int|
                0 <= u < path.len() ==> {
                    let i = (#[trigger] path[u]) as int;
                    let n1 = mid.nodes@[i];
                    let n2 = fin.nodes@[i];
                    &&& n2.num_visits == n1.num_visits + 1
                    &&& n2.total_value == n1.total_value + (if ((path.len() - 1 - u) % 2 == 0) {
                        v as int
                    } else {
                        -(v as int)
                    })
                    &&& n2.children == n1.children
                    &&& n2.state == n1.state
                    &&& n2.over == n1.over
                    &&& n2.prior == n1.prior
                })
    &&& (forall|i: int|
                0 <= i < fin.nodes@.len() && !on_path(path, 0, path.len() as int, i)
                    ==> #[trigger] fin.nodes@[i] == mid.nodes@[i])
}

impl<E: Env> Mcts<E> {
    /// One simulation: descend by PUCT, expand or read the terminal
    /// reward at the end of the path, and back the value up with the
    /// sign flipped at every ply.
    #[verifier::rlimit(100)]
    #[verifier::spinoff_prover]
    fn explore_one<P: Policy<E>>(&mut self, policy: &mut P)
        requires
            old(self).wf(),
            old(self).sims < SIM_CAP,
        ensures
            final(self).wf(),
            *final(policy) == *old(policy),
            final(self).sims == old(self).sims + 1,
            final(self).root == old(self).root,
            final(self).c_puct == old(self).c_puct,
            final(self).nodes@.len() >= old(self).nodes@.len(),
            final(self).root_node_spec().state == old(self).root_node_spec().state,
            final(self).root_node_spec().over == old(self).root_node_spec().over,
            final(self).root_node_spec().num_visits == old(self).root_node_spec().num_visits + 1,
            old(self).root_node_spec().children@.len() > 0 ==> final(self).root_node_spec().children@
                == old(self).root_node_spec().children@,
            !old(self).root_node_spec().over ==> final(self).root_node_spec().children@.len() > 0,
            // expanding the root is the evaluator's doing: its children
            // cover exactly the positive-prior actions, with those priors
            old(self).root_node_spec().children@.len() == 0 && !old(self).root_node_spec().over
                ==> expanded_by(
                *final(self),
                old(policy).priors_spec(old(self).root_node_spec().state),
            ),
            // an already expanded root keeps each child's prior
            forall|m: int|
                0 <= m < old(self).root_node_spec().children@.len()
                    ==> #[trigger] final(self).nodes@[old(self).root_node_spec().children@[m].1 as int].prior
                    == old(self).nodes@[old(self).root_node_spec().children@[m].1 as int].prior,
    {
        let ghost pre = *self;
        let path = self.descend();
        let plen = path.len();
        let leaf = path[plen - 1];
        proof {
            assert(node_ok(pre.nodes@, leaf as int, E::actions_spec(), pre.sims as nat));
        }
        let ghost mut gkids: Seq<(usize, usize)> = Seq::empty();
        let ghost mut gpriors: Seq<i64> = Seq::empty();
        let v: i64;
        if self.nodes[leaf].over {
            let p = self.nodes[leaf].state.player();
            v = self.nodes[leaf].state.reward(p);
        } else {
            let (priors, val) = policy.eval(&self.nodes[leaf].state);
            v = val;
            let ps = self.nodes[leaf].state.snapshot();
            let kids = spawn_children(&mut self.nodes, &ps, &priors);
            proof {
                gkids = kids@;
                gpriors = priors@;
            }
            let lr = node_at_mut(&mut self.nodes, leaf);
            lr.children = kids;
        }
        let ghost mid = *self;
        proof {
            // What expansion did, in either case.
            assert(mid.nodes@.len() >= pre.nodes@.len());
            assert(forall|i: int|
                0 <= i < pre.nodes@.len() && i != leaf as int ==> mid.nodes@[i] == pre.nodes@[i]);
            if pre.nodes@[leaf as int].over {
                assert(mid.nodes@ == pre.nodes@);
            } else {
                assert(mid.nodes@[leaf as int].children@ == gkids);
                assert(mid.nodes@[leaf as int].state == pre.nodes@[leaf as int].state);
                assert(mid.nodes@[leaf as int].num_visits == pre.nodes@[leaf as int].num_visits);
                assert(gkids.len() >= 1);
            }
            assert(-UNIT <= v <= UNIT);
        }
        let mut t: usize = plen;
        while t > 0
            invariant
                t <= plen,
                plen == path@.len(),
                1 <= plen,
                leaf == path@[plen - 1],
                pre.wf(),
                pre.sims < SIM_CAP,
                -UNIT <= v <= UNIT,
                forall|tt: int|
                    0 <= tt < plen ==> ((#[trigger] path@[tt]) as int) < pre.nodes@.len(),
                forall|tt: int| 0 <= tt < plen - 1 ==> path@[tt] < #[trigger] path@[tt + 1],
                mid.nodes@.len() >= pre.nodes@.len(),
                mid.sims == pre.sims,
                forall|i: int|
                    0 <= i < pre.nodes@.len() && i != leaf as int ==> #[trigger] mid.nodes@[i]
                        == pre.nodes@[i],
                mid.nodes@[leaf as int].num_visits == pre.nodes@[leaf as int].num_visits,
                mid.nodes@[leaf as int].total_value == pre.nodes@[leaf as int].total_value,
                self.nodes@.len() == mid.nodes@.len(),
                self.root == mid.root,
                self.sims == mid.sims,
                self.c_puct == mid.c_puct,
                forall|u: int|
                    t <= u < plen ==> {
                        let i = (#[trigger] path@[u]) as int;
                        let n1 = mid.nodes@[i];
                        let n2 = self.nodes@[i];
                        &&& n2.num_visits == n1.num_visits + 1
                        &&& n2.total_value == n1.total_value + (if ((plen - 1 - u) % 2 == 0) {
                            v as int
                        } else {
                            -(v as int)
                        })
                        &&& n2.children == n1.children
                        &&& n2.state == n1.state
                        &&& n2.over == n1.over
                        &&& n2.prior == n1.prior
                    },
                forall|i: int|
                    0 <= i < self.nodes@.len() && !on_path(path@, t as int, plen as int, i)
                        ==> #[trigger] self.nodes@[i] == mid.nodes@[i],
            decreases t,
        {
            t = t - 1;
            let idx = path[t];
            proof {
                assert(!on_path(path@, t as int + 1, plen as int, idx as int)) by {
                    if on_path(path@, t as int + 1, plen as int, idx as int) {
                        let u = choose|u: int|
                            t as int + 1 <= u < plen as int && ((#[trigger] path@[u]) as int)
                                == idx as int;
                        lemma_inc_between(path@, t as int, u);
                    }
                }
                assert(self.nodes@[idx as int] == mid.nodes@[idx as int]);
                assert(node_ok(pre.nodes@, idx as int, E::actions_spec(), pre.sims as nat));
                if idx as int == leaf as int {
                    assert(mid.nodes@[idx as int].num_visits == pre.nodes@[idx as int].num_visits);
                } else {
                    assert(mid.nodes@[idx as int] == pre.nodes@[idx as int]);
                }
                assert((mid.nodes@[idx as int].num_visits as int) * (UNIT as int) <= ((SIM_CAP
                    + 1) as int) * (UNIT as int)) by (nonlinear_arith)
                    requires
                        0 <= mid.nodes@[idx as int].num_visits as int <= (SIM_CAP + 1) as int,
                ;
            }
            let delta: i64 = if (plen - 1 - t) % 2 == 0 {
                v
            } else {
                -v
            };
            let nr = node_at_mut(&mut self.nodes, idx);
            nr.num_visits = nr.num_visits + 1;
            nr.total_value = nr.total_value + delta;
            proof {
                assert forall|u: int|
                    t <= u < plen implies {
                        let i = (#[trigger] path@[u]) as int;
                        let n1 = mid.nodes@[i];
                        let n2 = self.nodes@[i];
                        &&& n2.num_visits == n1.num_visits + 1
                        &&& n2.total_value == n1.total_value + (if ((plen - 1 - u) % 2 == 0) {
                            v as int
                        } else {
                            -(v as int)
                        })
                        &&& n2.children == n1.children
                        &&& n2.state == n1.state
                        &&& n2.over == n1.over
                        &&& n2.prior == n1.prior
                    } by {
                    if u > t {
                        lemma_inc_between(path@, t as int, u);
                        assert(path@[u] != path@[t as int]);
                    }
                }
            }
        }
        self.sims = self.sims + 1;
        proof {
            Self::lemma_restore_wf(pre, mid, *self, path@, gkids, v);
            let prelen = pre.nodes@.len() as int;
            let gl = plen as int;
            assert forall|m: int|
                0 <= m < gkids.len() implies #[trigger] self.nodes@[(gkids[m]).1 as int]
                    == mid.nodes@[(gkids[m]).1 as int] by {
                assert((gkids[m]).1 as int >= prelen);
                if on_path(path@, 0, gl, (gkids[m]).1 as int) {
                    let u = choose|u: int|
                        0 <= u < gl && ((#[trigger] path@[u]) as int) == (gkids[m]).1 as int;
                    assert((path@[u] as int) < prelen);
                }
            }
            if pre.nodes@[pre.root as int].children@.len() == 0 && !pre.nodes@[pre.root as int].over {
                assert(plen == 1) by {
                    if plen >= 2 {
                        assert(pre.nodes@[(path@[0]) as int].children@.len() > 0);
                    }
                }
                assert(leaf == pre.root);
                assert(gpriors == old(policy).priors_spec(pre.nodes@[pre.root as int].state));
                assert(self.nodes@[self.root as int].children@ == gkids);
                assert(expanded_by(*self, old(policy).priors_spec(pre.root_node_spec().state)));
            }
            assert forall|m: int|
                0 <= m < pre.root_node_spec().children@.len() implies #[trigger] self.nodes@[pre.root_node_spec().children@[m].1 as int].prior
                    == pre.nodes@[pre.root_node_spec().children@[m].1 as int].prior by {
                assert(node_ok(pre.nodes@, pre.root as int, E::actions_spec(), pre.sims as nat));
                let c = pre.root_node_spec().children@[m].1 as int;
                if on_path(path@, 0, gl, c) {
                } else {
                    assert(self.nodes@[c] == mid.nodes@[c]);
                    if c == leaf as int {
                        assert(mid.nodes@[c].prior == pre.nodes@[c].prior);
                    } else {
                        assert(mid.nodes@[c] == pre.nodes@[c]);
                    }
                }
            }
        }
    }

    /// Every node of `fin` satisfies `node_ok` after one simulation.
    #[verifier::rlimit(100)]
    #[verifier::spinoff_prover]
    proof fn lemma_nodes_ok(
        pre: Mcts<E>,
        mid: Mcts<E>,
        fin: Mcts<E>,
        path: Seq<usize>,
        gkids: Seq<(usize, usize)>,
        v: i64,
    )
        requires
            backup_shape(pre, mid, fin, path, gkids, v),
        ensures
            forall|i: int|
                0 <= i < fin.nodes@.len() ==> node_ok(
                    fin.nodes@,
                    i,
                    E::actions_spec(),
                    fin.sims as nat,
                ),
    {
        let plen = path.len();
        let leaf = path[plen - 1];
        let self_ = fin;
        assert forall|a: int, b: int| 0 <= a < b < path.len() implies path[a] < path[b] by {
            lemma_inc_between(path, a, b);
        }
            let fin = self_.nodes@;
            let na = E::actions_spec();
            let gl = plen as int;
            let lf = leaf as int;
            let prelen = pre.nodes@.len() as int;
            assert(path[gl - 1] == leaf);
            assert forall|m: int|
                0 <= m < gkids.len() implies !on_path(path, 0, gl, (#[trigger] gkids[m]).1 as int)
                && fin[gkids[m].1 as int] == mid.nodes@[gkids[m].1 as int] by {
                assert((gkids[m]).1 as int >= prelen);
                if on_path(path, 0, gl, gkids[m].1 as int) {
                    let u = choose|u: int|
                        0 <= u < gl && ((#[trigger] path[u]) as int) == gkids[m].1 as int;
                    assert((path[u] as int) < prelen);
                }
            }
            // A node whose child sits on the path is the path predecessor.
            assert forall|i: int, k: int, u: int|
                0 <= i < prelen && !on_path(path, 0, gl, i) && 0 <= k
                    < pre.nodes@[i].children@.len() && 1 <= u < gl implies (
            #[trigger] pre.nodes@[i].children@[k]).1 != #[trigger] path[u] by {
                if (pre.nodes@[i].children@[k]).1 == path[u] {
                    if u == 0 {
                    } else {
                        assert(has_child(pre.nodes@, path[u - 1] as int, path[u] as int));
                        let kk = choose|kk: int|
                            0 <= kk < pre.nodes@[path[u - 1] as int].children@.len() && (
                            #[trigger] pre.nodes@[path[u - 1] as int].children@[kk]).1 == path[u];
                        assert(i == path[u - 1] as int && k == kk);
                        assert(on_path(path, 0, gl, i));
                    }
                }
            }
            assert forall|u: int| 0 <= u < gl implies !((#[trigger] path[u]) == pre.root) || u
                == 0 by {
                if u > 0 && path[u] == pre.root {
                    assert(has_child(pre.nodes@, path[u - 1] as int, path[u] as int));
                    let kk = choose|kk: int|
                        0 <= kk < pre.nodes@[path[u - 1] as int].children@.len() && (
                        #[trigger] pre.nodes@[path[u - 1] as int].children@[kk]).1 == path[u];
                    assert(false);
                }
            }
            assert forall|i: int| 0 <= i < fin.len() implies node_ok(fin, i, na, self_.sims as nat)
                by {
                assert(fin.len() == mid.nodes@.len());
                if on_path(path, 0, gl, i) {
                    let u = choose|u: int| 0 <= u < gl && ((#[trigger] path[u]) as int) == i;
                    assert(node_ok(pre.nodes@, i, na, pre.sims as nat));
                    if u == gl - 1 {
                        if pre.nodes@[lf].over {
                            assert(fin[i].children@.len() == 0);
                            assert(node_ok(fin, i, na, self_.sims as nat));
                        } else {
                            assert(pre.nodes@[lf].num_visits == 0);
                            assert(pre.nodes@[lf].total_value == 0);
                            assert(fin[i].children@ == gkids);
                            assert(fin[i].num_visits == 1);
                            assert forall|m: int|
                                0 <= m < gkids.len() implies fin[(#[trigger] gkids[m]).1 as int].num_visits
                                    == 0 by {}
                            lemma_kids_visits_zero(fin, gkids);
                            assert forall|k: int|
                                0 <= k < fin[i].children@.len() implies i < (
                            #[trigger] fin[i].children@[k]).1 < fin.len() by {
                                assert((gkids[k]).1 == prelen + k);
                            }
                            assert forall|k: int|
                                0 <= k < fin[i].children@.len() implies fin[(
                            #[trigger] fin[i].children@[k]).1 as int].state == fin[i].state.next_spec(
                                fin[i].children@[k].0 as int,
                            ) by {
                                assert((gkids[k]).1 as int >= prelen);
                            }
                            assert(node_ok(fin, i, na, self_.sims as nat));
                        }
                    } else {
                        // interior path node: one child (the successor) was bumped
                        assert(u < gl - 1);
                        assert(path[u] != leaf) by {
                            lemma_inc_between(path, u, gl - 1);
                        }
                        assert(mid.nodes@[i] == pre.nodes@[i]);
                        let ch = pre.nodes@[i].children@;
                        assert(fin[i].children@ == ch);
                        assert(has_child(pre.nodes@, i, path[u + 1] as int));
                        let m0 = choose|m0: int|
                            0 <= m0 < ch.len() && ((#[trigger] ch[m0]).1 as int) == path[u
                                + 1] as int;
                        assert(on_path(path, 0, gl, ch[m0].1 as int));
                        assert(fin[ch[m0].1 as int].num_visits == mid.nodes@[ch[m0].1 as int].num_visits
                            + 1);
                        assert(mid.nodes@[ch[m0].1 as int].num_visits == pre.nodes@[ch[m0].1 as int].num_visits);
                        assert forall|m: int|
                            0 <= m < ch.len() && m != m0 implies fin[(#[trigger] ch[m]).1 as int].num_visits
                                == pre.nodes@[ch[m].1 as int].num_visits by {
                            if on_path(path, 0, gl, ch[m].1 as int) {
                                let uu = choose|uu: int|
                                    0 <= uu < gl && ((#[trigger] path[uu]) as int) == ch[m].1 as int;
                                if uu == 0 {
                                    assert(path[uu] == pre.root);
                                    assert(false);
                                } else {
                                    assert(has_child(
                                        pre.nodes@,
                                        path[uu - 1] as int,
                                        path[uu] as int,
                                    ));
                                    let kk = choose|kk: int|
                                        0 <= kk < pre.nodes@[path[uu - 1] as int].children@.len()
                                            && (#[trigger] pre.nodes@[path[uu
                                            - 1] as int].children@[kk]).1 == path[uu];
                                    assert(i == path[uu - 1] as int && m == kk);
                                    assert(path[uu - 1] as int == path[u] as int);
                                    assert(uu - 1 == u) by {
                                        if uu - 1 < u {
                                            lemma_inc_between(path, uu - 1, u);
                                        }
                                        if u < uu - 1 {
                                            lemma_inc_between(path, u, uu - 1);
                                        }
                                    }
                                    assert(m == m0);
                                    assert(false);
                                }
                            } else {
                                assert(fin[ch[m].1 as int] == mid.nodes@[ch[m].1 as int]);
                                if ch[m].1 as int == lf {
                                    assert(on_path(path, 0, gl, lf));
                                    assert(false);
                                }
                                assert(mid.nodes@[ch[m].1 as int] == pre.nodes@[ch[m].1 as int]);
                            }
                        }
                        lemma_kids_visits_bump(pre.nodes@, fin, ch, m0);
                        assert(fin[i].num_visits == pre.nodes@[i].num_visits + 1);
                        assert forall|k: int|
                            0 <= k < ch.len() implies fin[(#[trigger] ch[k]).1 as int].state
                                == pre.nodes@[ch[k].1 as int].state by {
                            if on_path(path, 0, gl, ch[k].1 as int) {
                            } else {
                                assert(fin[ch[k].1 as int] == mid.nodes@[ch[k].1 as int]);
                                if ch[k].1 as int == lf {
                                    assert(on_path(path, 0, gl, lf));
                                }
                            }
                        }
                        assert(node_ok(fin, i, na, self_.sims as nat));
                    }
                } else {
                    assert(fin[i] == mid.nodes@[i]);
                    if i < prelen {
                        assert(i != lf);
                        assert(fin[i] == pre.nodes@[i]);
                        assert(node_ok(pre.nodes@, i, na, pre.sims as nat));
                        let ch = pre.nodes@[i].children@;
                        assert forall|k: int|
                            0 <= k < ch.len() implies fin[(#[trigger] ch[k]).1 as int].num_visits
                                == pre.nodes@[ch[k].1 as int].num_visits && fin[ch[k].1 as int].state
                                == pre.nodes@[ch[k].1 as int].state by {
                            if on_path(path, 0, gl, ch[k].1 as int) {
                                let uu = choose|uu: int|
                                    0 <= uu < gl && ((#[trigger] path[uu]) as int) == ch[k].1 as int;
                                if uu == 0 {
                                    assert(path[uu] == pre.root);
                                    assert(false);
                                } else {
                                    assert((pre.nodes@[i].children@[k]).1 != path[uu]);
                                    assert(false);
                                }
                            } else {
                                assert(fin[ch[k].1 as int] == mid.nodes@[ch[k].1 as int]);
                                if ch[k].1 as int == lf {
                                    assert(on_path(path, 0, gl, lf));
                                }
                            }
                        }
                        lemma_kids_visits_same(pre.nodes@, fin, ch);
                        assert(node_ok(fin, i, na, self_.sims as nat));
                    } else {
                        let m = i - prelen;
                        assert((gkids[m]).1 as int == i);
                        assert(fin[i].children@.len() == 0);
                        assert(node_ok(fin, i, na, self_.sims as nat));
                    }
                }
            }
    }

    /// Restores the whole-tree invariant after one simulation: `pre` is
    /// the tree before, `mid` after the leaf expansion, `fin` after the
    /// backup pass and the simulation count bump.
    #[verifier::rlimit(100)]
    #[verifier::spinoff_prover]
    proof fn lemma_restore_wf(
        pre: Mcts<E>,
        mid: Mcts<E>,
        fin: Mcts<E>,
        path: Seq<usize>,
        gkids: Seq<(usize, usize)>,
        v: i64,
    )
        requires
            backup_shape(pre, mid, fin, path, gkids, v),
        ensures
            fin.wf(),
            fin.nodes@[fin.root as int].num_visits == pre.nodes@[pre.root as int].num_visits + 1,
            fin.nodes@[fin.root as int].state == pre.nodes@[pre.root as int].state,
            fin.nodes@[fin.root as int].over == pre.nodes@[pre.root as int].over,
            pre.nodes@[pre.root as int].children@.len() > 0 ==> fin.nodes@[fin.root as int].children@
                == pre.nodes@[pre.root as int].children@,
            !pre.nodes@[pre.root as int].over ==> fin.nodes@[fin.root as int].children@.len() > 0,
    {
        let plen = path.len();
        let leaf = path[plen - 1];
        let self_ = fin;
        assert forall|a: int, b: int| 0 <= a < b < path.len() implies path[a] < path[b] by {
            lemma_inc_between(path, a, b);
        }
            let fin = self_.nodes@;
            let na = E::actions_spec();
            let gl = plen as int;
            let lf = leaf as int;
            let prelen = pre.nodes@.len() as int;
            assert(path[gl - 1] == leaf);
            assert forall|m: int|
                0 <= m < gkids.len() implies !on_path(path, 0, gl, (#[trigger] gkids[m]).1 as int)
                && fin[gkids[m].1 as int] == mid.nodes@[gkids[m].1 as int] by {
                assert((gkids[m]).1 as int >= prelen);
                if on_path(path, 0, gl, gkids[m].1 as int) {
                    let u = choose|u: int|
                        0 <= u < gl && ((#[trigger] path[u]) as int) == gkids[m].1 as int;
                    assert((path[u] as int) < prelen);
                }
            }
            // A node whose child sits on the path is the path predecessor.
            assert forall|i: int, k: int, u: int|
                0 <= i < prelen && !on_path(path, 0, gl, i) && 0 <= k
                    < pre.nodes@[i].children@.len() && 1 <= u < gl implies (
            #[trigger] pre.nodes@[i].children@[k]).1 != #[trigger] path[u] by {
                if (pre.nodes@[i].children@[k]).1 == path[u] {
                    if u == 0 {
                    } else {
                        assert(has_child(pre.nodes@, path[u - 1] as int, path[u] as int));
                        let kk = choose|kk: int|
                            0 <= kk < pre.nodes@[path[u - 1] as int].children@.len() && (
                            #[trigger] pre.nodes@[path[u - 1] as int].children@[kk]).1 == path[u];
                        assert(i == path[u - 1] as int && k == kk);
                        assert(on_path(path, 0, gl, i));
                    }
                }
            }
            assert forall|u: int| 0 <= u < gl implies !((#[trigger] path[u]) == pre.root) || u
                == 0 by {
                if u > 0 && path[u] == pre.root {
                    assert(has_child(pre.nodes@, path[u - 1] as int, path[u] as int));
                    let kk = choose|kk: int|
                        0 <= kk < pre.nodes@[path[u - 1] as int].children@.len() && (
                        #[trigger] pre.nodes@[path[u - 1] as int].children@[kk]).1 == path[u];
                    assert(false);
                }
            }
            Self::lemma_nodes_ok(pre, mid, self_, path, gkids, v);
            // every node keeps (or, at the leaf, gains) its child list
            assert forall|i: int|
                0 <= i < fin.len() implies (#[trigger] fin[i]).children@ == (if i < prelen {
                    if i == lf && !pre.nodes@[lf].over {
                        gkids
                    } else {
                        pre.nodes@[i].children@
                    }
                } else {
                    Seq::<(usize, usize)>::empty()
                }) by {
                if on_path(path, 0, gl, i) {
                } else {
                    assert(fin[i] == mid.nodes@[i]);
                }
                if i >= prelen {
                    let m = i - prelen;
                    assert((gkids[m]).1 as int == i);
                    assert(fin[i].children@ =~= Seq::<(usize, usize)>::empty());
                }
            }
            assert forall|i1: int, k1: int, i2: int, k2: int|
                0 <= i1 < fin.len() && 0 <= k1 < fin[i1].children@.len() && 0 <= i2 < fin.len()
                    && 0 <= k2 < fin[i2].children@.len() && (i1 != i2 || k1 != k2) implies (
            #[trigger] fin[i1].children@[k1]).1 != (#[trigger] fin[i2].children@[k2]).1 by {
                let fresh1 = i1 == lf && !pre.nodes@[lf].over;
                let fresh2 = i2 == lf && !pre.nodes@[lf].over;
                if fresh1 && fresh2 {
                    assert((gkids[k1]).1 == prelen + k1);
                    assert((gkids[k2]).1 == prelen + k2);
                } else if fresh1 {
                    assert((gkids[k1]).1 == prelen + k1);
                    assert(node_ok(pre.nodes@, i2, na, pre.sims as nat));
                    assert((pre.nodes@[i2].children@[k2]).1 < prelen);
                } else if fresh2 {
                    assert((gkids[k2]).1 == prelen + k2);
                    assert(node_ok(pre.nodes@, i1, na, pre.sims as nat));
                    assert((pre.nodes@[i1].children@[k1]).1 < prelen);
                } else {
                    assert(fin[i1].children@ == pre.nodes@[i1].children@);
                    assert(fin[i2].children@ == pre.nodes@[i2].children@);
                }
            }
            assert forall|i: int, k: int|
                0 <= i < fin.len() && 0 <= k < fin[i].children@.len() implies (
            #[trigger] fin[i].children@[k]).1 != self_.root by {
                if i == lf && !pre.nodes@[lf].over {
                    assert((gkids[k]).1 == prelen + k);
                    assert((self_.root as int) < prelen);
                } else {
                    assert(fin[i].children@ == pre.nodes@[i].children@);
                }
            }
            assert(self_.wf());
            assert(on_path(path, 0, gl, pre.root as int)) by {
                assert(((path[0]) as int) == pre.root as int);
            }
            if pre.nodes@[pre.root as int].children@.len() > 0 {
                assert(node_ok(pre.nodes@, pre.root as int, na, pre.sims as nat));
                assert(!pre.nodes@[pre.root as int].over);
                if gl == 1 {
                    assert(leaf == pre.root);
                    assert(pre.nodes@[lf].children@.len() == 0);
                }
                assert(gl >= 2);
                assert(path[0] < path[gl - 1]);
                assert(pre.root != leaf);
                assert(fin[pre.root as int].children@ == pre.nodes@[pre.root as int].children@);
            }
        if !pre.nodes@[pre.root as int].over && pre.nodes@[pre.root as int].children@.len() == 0 {
            assert(path.len() == 1) by {
                if path.len() >= 2 {
                    assert(pre.nodes@[(path[0]) as int].children@.len() > 0);
                }
            }
            assert(leaf == pre.root);
            assert(self_.nodes@[self_.root as int].children@ == gkids);
        }
    }

}

} // verus!