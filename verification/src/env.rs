//! The two capability interfaces the search core is written against — the
//! game's rule engine and the learned policy/value evaluator — plus the
//! source of exploration noise.
//!
//! Implementations live with the caller: each game provides its rules, each
//! model its evaluator. The contracts below are exactly what the engine
//! relies on.

use vstd::prelude::*;
use crate::ACT_CAP;
use crate::UNIT;

verus! {

/// The rule engine of a two-player, zero-sum, perfect-information game.
/// A value of the implementing type is one game state; actions are the
/// indices `0 .. num_actions()`.
pub trait Env: Sized {
    /// The initial state.
    spec fn initial_spec() -> Self;

    /// The fixed size of the action space.
    spec fn actions_spec() -> nat;

    /// Whether the game is over in this state.
    spec fn over_spec(self) -> bool;

    /// The state reached from this one by action `a`.
    spec fn next_spec(self, a: int) -> Self;

    /// The player to move in this state.
    spec fn player_spec(self) -> u8;

    /// The terminal reward, in fixed point, from the given player's side.
    spec fn reward_spec(self, player: u8) -> i64;

    /// An upper bound on the number of plies still to be played: every
    /// game ends, and each non-terminal step lowers this bound.
    spec fn horizon_spec(self) -> nat;

    fn new() -> (e: Self)
        ensures
            e == Self::initial_spec(),
            !e.over_spec(),
    ;

    fn num_actions() -> (n: usize)
        ensures
            n as nat == Self::actions_spec(),
            1 <= n <= ACT_CAP,
    ;

    /// Plays action `a`; returns whether the game just ended.
    fn step(&mut self, a: usize) -> (over: bool)
        requires
            !old(self).over_spec(),
            (a as nat) < Self::actions_spec(),
        ensures
            *final(self) == old(self).next_spec(a as int),
            over == final(self).over_spec(),
            !over ==> final(self).horizon_spec() < old(self).horizon_spec(),
    ;

    fn player(&self) -> (p: u8)
        ensures
            p == self.player_spec(),
    ;

    /// The reward of a finished game from `player`'s side.
    fn reward(&self, player: u8) -> (r: i64)
        requires
            self.over_spec(),
        ensures
            r == self.reward_spec(player),
            -UNIT <= r <= UNIT,
    ;

    /// An owned copy of the state.
    fn snapshot(&self) -> (e: Self)
        ensures
            e == *self,
    ;
}

/// The learned policy/value evaluator: a state is mapped to a prior
/// probability vector over the action space (fixed point, each entry in
/// `[0, UNIT]`, at least one positive) and a value estimate in
/// `[-UNIT, UNIT]` from the side of the player to move.
pub trait Policy<E: Env>: Sized {
    /// The prior vector this evaluator assigns to a state.
    spec fn priors_spec(self, e: E) -> Seq<i64>;

    /// The value estimate this evaluator assigns to a state.
    spec fn value_spec(self, e: E) -> i64;

    /// Evaluates one state. Evaluation does not change the evaluator.
    fn eval(&mut self, e: &E) -> (r: (Vec<i64>, i64))
        ensures
            *final(self) == *old(self),
            r.0@ == old(self).priors_spec(*e),
            r.1 == old(self).value_spec(*e),
            r.0@.len() == E::actions_spec(),
            forall|i: int| 0 <= i < r.0@.len() ==> 0 <= #[trigger] r.0@[i] <= UNIT,
            exists|i: int| 0 <= i < r.0@.len() && #[trigger] r.0@[i] > 0,
            -UNIT <= r.1 <= UNIT,
    ;
}

/// A source of exploration noise over the action space, in fixed point.
/// It stands for the Dirichlet sampler: drawing the real thing is
/// floating-point work done by the caller, and only what holds of every
/// outcome — length and bounds — is relied on here.
pub trait NoiseSource {
    fn draw(&mut self, n: usize) -> (v: Vec<i64>)
        ensures
            v@.len() == n,
            forall|i: int| 0 <= i < v@.len() ==> 0 <= #[trigger] v@[i] <= UNIT,
    ;
}

} // verus!
