//! A small family of built-in environments and a flat evaluator.
//!
//! Implementations of `Env` and `Policy` carry proof obligations, so they
//! must live inside the verified library; these are the ones the tests
//! and the surrounding program drive the engine with. `Countdown<A, L>`
//! is a game with `A + 1` identical actions that ends after `L + 1`
//! plies, the two players alternating; the player who moved first always
//! wins.

use vstd::prelude::*;
use crate::buffer::ReplayEntry;
use crate::env::Env;
use crate::env::NoiseSource;
use crate::env::Policy;
use crate::runner::move_linked;
use crate::runner::play_reaches;
use crate::runner::played_game;
use crate::runner::RolloutConfig;
use crate::UNIT;

verus! {

/// A countdown game: `left` plies remain, `player` is to move.
#[derive(Debug, PartialEq, Eq)]
pub struct Countdown<const A: u8, const L: u16> {
    pub left: u32,
    pub player: u8,
}

impl<const A: u8, const L: u16> Env for Countdown<A, L> {
    open spec fn initial_spec() -> Self {
        Countdown { left: ((L as int + 1) as u32), player: 0 }
    }

    open spec fn actions_spec() -> nat {
        A as nat + 1
    }

    open spec fn over_spec(self) -> bool {
        self.left == 0
    }

    open spec fn next_spec(self, a: int) -> Self {
        Countdown {
            left: (self.left - 1) as u32,
            player: if self.player == 0 {
                1
            } else {
                0
            },
        }
    }

    open spec fn player_spec(self) -> u8 {
        self.player
    }

    open spec fn reward_spec(self, player: u8) -> i64 {
        if player == 0 {
            UNIT
        } else {
            (-UNIT) as i64
        }
    }

    open spec fn horizon_spec(self) -> nat {
        self.left as nat
    }

    fn new() -> (e: Self) {
        Countdown { left: L as u32 + 1, player: 0 }
    }

    fn num_actions() -> (n: usize) {
        A as usize + 1
    }

    fn step(&mut self, a: usize) -> (over: bool) {
        self.left = self.left - 1;
        self.player = if self.player == 0 {
            1
        } else {
            0
        };
        self.left == 0
    }

    fn player(&self) -> (p: u8) {
        self.player
    }

    fn reward(&self, player: u8) -> (r: i64) {
        if player == 0 {
            UNIT
        } else {
            -UNIT
        }
    }

    fn snapshot(&self) -> (e: Self) {
        Countdown { left: self.left, player: self.player }
    }
}

/// A flat evaluator: the same prior for every action, a neutral value.
pub struct FlatEval;

impl<const A: u8, const L: u16> Policy<Countdown<A, L>> for FlatEval {
    open spec fn priors_spec(self, e: Countdown<A, L>) -> Seq<i64> {
        Seq::new(A as nat + 1, |i: int| ((UNIT as int / (A as int + 1)) as i64))
    }

    open spec fn value_spec(self, e: Countdown<A, L>) -> i64 {
        0
    }

    fn eval(&mut self, e: &Countdown<A, L>) -> (r: (Vec<i64>, i64)) {
        let n: usize = A as usize + 1;
        let p: i64 = ((UNIT as u64) / (n as u64)) as i64;
        proof {
            assert(1 <= (UNIT as int) / (A as int + 1) <= UNIT as int) by (nonlinear_arith)
                requires
                    1 <= A as int + 1 <= 256,
            ;
        }
        let mut w: Vec<i64> = Vec::new();
        let mut i: usize = 0;
        while i < n
            invariant
                i <= n,
                n == A as usize + 1,
                p as int == UNIT as int / (A as int + 1),
                1 <= p <= UNIT,
                w@ =~= Seq::new(i as nat, |j: int| ((UNIT as int / (A as int + 1)) as i64)),
            decreases n - i,
        {
            w.push(p);
            proof {
                assert(w@ =~= Seq::new((i + 1) as nat, |j: int| ((UNIT as int / (A as int + 1)) as i64)));
            }
            i = i + 1;
        }
        proof {
            assert(w@ =~= self.priors_spec(*e));
            assert(w@[0] == (UNIT as int / (A as int + 1)) as i64);
            assert(0 <= 0 < w@.len() && w@[0] > 0);
        }
        let res: (Vec<i64>, i64) = (w, 0);
        proof {
            assert(0 <= 0 < res.0@.len() && res.0@[0] > 0);
        }
        res
    }
}

/// A silent noise source: no perturbation at all.
pub struct ZeroNoise;

impl NoiseSource for ZeroNoise {
    fn draw(&mut self, n: usize) -> (v: Vec<i64>) {
        let mut w: Vec<i64> = Vec::new();
        let mut i: usize = 0;
        while i < n
            invariant
                i <= n,
                w@.len() == i,
                forall|j: int| 0 <= j < i ==> #[trigger] w@[j] == 0,
            decreases n - i,
        {
            w.push(0);
            i = i + 1;
        }
        w
    }
}

/// The end-to-end one-ply scenario, derived from `played_game` alone:
/// in the one-action game that ends after a single ply, a self-play
/// call on an empty buffer must have appended exactly one entry — the
/// initial state, back-filled with the winner's full reward.
pub proof fn lemma_one_shot_game_record(
    post: Seq<ReplayEntry<Countdown<0, 0>>>,
    cap: int,
    cfg: RolloutConfig,
    p: int,
    g: Countdown<0, 0>,
)
    requires
        cap >= 1,
        played_game(Seq::<ReplayEntry<Countdown<0, 0>>>::empty(), post, cap, cfg, p, g),
    ensures
        post.len() == 1,
        post[0].state == <Countdown<0, 0> as Env>::initial_spec(),
        post[0].value == UNIT,
{
    let init = <Countdown<0, 0> as Env>::initial_spec();
    let m = vstd::math::min(p, cap);
    let lostc = p - m;
    let keep = post.len() - m;
    assert(m >= 1);
    assert(!(post[keep + 0]).state.over_spec());
    // every move from the initial state ends this game at once
    assert(forall|a: int| (#[trigger] init.next_spec(a)).over_spec());
    // so no ply of this game can have been evicted
    if lostc >= 1 {
        let a = choose|a: int|
            0 <= a < <Countdown<0, 0> as Env>::actions_spec() && !init.over_spec()
                && play_reaches(#[trigger] init.next_spec(a), post[keep + 0].state, (lostc
                - 1) as nat);
        let nxt = init.next_spec(a);
        if lostc == 1 {
            assert(nxt == post[keep + 0].state);
            assert(false);
        } else {
            let a2 = choose|a2: int|
                0 <= a2 < <Countdown<0, 0> as Env>::actions_spec() && !nxt.over_spec()
                    && play_reaches(#[trigger] nxt.next_spec(a2), post[keep + 0].state, (lostc
                    - 2) as nat);
            assert(false);
        }
    }
    assert(lostc == 0);
    assert(post[keep + 0].state == init);
    // and no second ply can have been recorded
    if m >= 2 {
        assert(!(post[keep + 1]).state.over_spec());
        assert(move_linked(
            (post[keep + 0]).state,
            post[keep + 0].weights@,
            post[keep + 0 + 1].state,
            !cfg.sample_action,
            cfg.temp_num == cfg.temp_den,
        ));
        let a3 = choose|a3: int|
            {
                &&& 0 <= a3 < <Countdown<0, 0> as Env>::actions_spec()
                &&& post[keep + 0 + 1].state == #[trigger] (post[keep + 0]).state.next_spec(a3)
                &&& post[keep + 0].weights@[a3] >= 1
                &&& (!cfg.sample_action ==> forall|x: int|
                    0 <= x < post[keep + 0].weights@.len() ==> #[trigger] post[keep
                        + 0].weights@[x] <= post[keep + 0].weights@[a3])
                &&& (!cfg.sample_action && cfg.temp_num == cfg.temp_den ==> forall|x: int|
                    0 <= x < a3 ==> #[trigger] post[keep + 0].weights@[x] < post[keep
                        + 0].weights@[a3])
            };
        assert(post[keep + 1].state.over_spec());
        assert(false);
    }
    assert(m == 1 && p == 1);
    assert(post.len() == 1);
    assert(init.player_spec() == 0);
    assert(g.reward_spec(0) == UNIT);
    assert(post[keep + 0].value == g.reward_spec(init.player_spec()) as int);
}

} // verus!