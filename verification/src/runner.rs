//! The two orchestration loops: self-play generation of training data,
//! and head-to-head evaluation of two policies over one shared game.

use vstd::prelude::*;
use rand::rngs::StdRng;
use crate::buffer::ReplayBuffer;
use crate::env::Env;
use crate::env::NoiseSource;
use crate::env::Policy;
use crate::num::sum64;
use crate::sampling::pick_weighted;
use crate::tree::kids_visits;
use crate::tree::lemma_kids_visits_pos;
use crate::tree::node_ok;
use crate::tree::Mcts;
use crate::CPUCT_CAP;
use crate::SIM_CAP;
use crate::UNIT;

verus! {

/// The configuration the orchestrators consume. Probabilities and the
/// exploration constant are fixed point; the temperature is the rational
/// `temp_num / temp_den`. The Dirichlet concentration lives with the
/// noise source the caller passes in.
pub struct RolloutConfig {
    /// Node-count hint for each fresh tree.
    pub capacity: usize,
    /// Simulations per ply.
    pub num_explores: usize,
    /// Temperature numerator.
    pub temp_num: u32,
    /// Temperature denominator.
    pub temp_den: u32,
    /// Sample the move from the policy target instead of playing the
    /// most-visited action.
    pub sample_action: bool,
    /// Replay entries to gather per batch.
    pub steps: usize,
    /// Mix exploration noise into the root priors each ply.
    pub noisy_explore: bool,
    /// The PUCT exploration constant, in fixed point.
    pub c_puct: i64,
}

impl RolloutConfig {
    /// The caller contract on the configuration: at least one simulation
    /// per ply, a positive temperature in the supported range, and a
    /// bounded exploration constant.
    pub open spec fn valid(self) -> bool {
        &&& 1 <= self.num_explores <= SIM_CAP
        &&& 1 <= self.temp_num
        &&& 1 <= self.temp_den <= 4
        &&& self.temp_den <= 2 * self.temp_num
        &&& 0 <= self.c_puct <= CPUCT_CAP
    }
}

/// State `s2` follows `s1` by the move the engine played at a ply whose
/// recorded target weights are `w`: a legal action of positive recorded
/// weight. Under deterministic play (`best`) no action outweighs it, and
/// at temperature one (`temp_one`, where weights equal visit counts
/// exactly) every smaller action weighs strictly less — the first
/// maximal action. At other temperatures the floor weights can collide
/// where visit counts differ, so only maximality is claimed.
pub open spec fn move_linked<E: Env>(s1: E, w: Seq<u64>, s2: E, best: bool, temp_one: bool) -> bool {
    exists|a: int|
        {
            &&& 0 <= a < E::actions_spec()
            &&& s2 == #[trigger] s1.next_spec(a)
            &&& w[a] >= 1
            &&& (best ==> forall|x: int| 0 <= x < w.len() ==> #[trigger] w[x] <= w[a])
            &&& (best && temp_one ==> forall|x: int| 0 <= x < a ==> #[trigger] w[x] < w[a])
        }
}

/// How `run_game` evolves the buffer: one `p`-ply game was actually
/// played out to the terminal state `g`, and its last `min(p, cap)`
/// plies stand at the tail while the surviving older entries are
/// unchanged (FIFO eviction only, oldest first). Each recorded ply holds
/// a non-terminal state, the earliest recorded state is reached from
/// the initial state by exactly the evicted plies (the initial state
/// itself when nothing was evicted), the last recorded state is one
/// move from `g`, every policy target is exact (weights summing to the
/// positive total), each move played is itself a
/// positive-weight (and, under deterministic play, maximal-weight)
/// action of its ply's target, and the value targets carry the terminal
/// reward of `g` for the player who moved first: the opening ply
/// positive, the sign flipped each ply after it. Anchoring the opening
/// ply follows the back-fill as implemented; values alternate walking
/// from the last ply to the first, and for odd-length games the last
/// ply reads exactly that reward.
pub open spec fn played_game<E: Env>(
    pre: Seq<crate::buffer::ReplayEntry<E>>,
    post: Seq<crate::buffer::ReplayEntry<E>>,
    cap: int,
    cfg: RolloutConfig,
    p: int,
    g: E,
) -> bool {
    let best = !cfg.sample_action;
    let temp_one = cfg.temp_num == cfg.temp_den;
    let m = vstd::math::min(p, cap);
    let lostc = p - m;
    let keep = post.len() - m;
    let rr = g.reward_spec(E::initial_spec().player_spec());
    &&& 1 <= p
    &&& post.len() == vstd::math::min(pre.len() + p, cap)
    &&& 0 <= keep <= pre.len()
    &&& (forall|i: int| 0 <= i < keep ==> #[trigger] post[i] == pre[pre.len() - keep + i])
    &&& g.over_spec()
    &&& -UNIT <= rr <= UNIT
    &&& play_reaches(E::initial_spec(), post[keep].state, lostc as nat)
    &&& (forall|j: int|
        0 <= j < m ==> {
            let e = #[trigger] post[keep + j];
            &&& !e.state.over_spec()
            &&& e.weights@.len() == E::actions_spec()
            &&& sum64(e.weights@) == e.total
            &&& 1 <= e.total
            &&& e.value == (if ((lostc + j) % 2 == 0) {
                rr as int
            } else {
                -(rr as int)
            })
        })
    &&& (forall|j: int|
        0 <= j < m - 1 ==> move_linked(
            (#[trigger] post[keep + j]).state,
            post[keep + j].weights@,
            post[keep + j + 1].state,
            best,
            temp_one,
        ))
    &&& move_linked(post[post.len() - 1].state, post[post.len() - 1].weights@, g, best, temp_one)
}

/// One self-play game: a fresh tree, one ply per loop turn — optional
/// root noise, `num_explores` simulations, the exact policy target
/// recorded with the root state, the move chosen by sampling or by most
/// visits, tree and game advanced together — and, once the game ends,
/// the terminal reward written back over the recorded plies with the
/// sign alternating. The whole trajectory is pinned by `played_game`.
#[verifier::rlimit(100)]
#[verifier::spinoff_prover]
pub fn run_game<E: Env, P: Policy<E>, NS: NoiseSource>(
    cfg: &RolloutConfig,
    policy: &mut P,
    rng: &mut StdRng,
    noise: &mut NS,
    buffer: &mut ReplayBuffer<E>,
)
    requires
        cfg.valid(),
        old(buffer).inv(),
        (cfg.num_explores as int) * (E::initial_spec().horizon_spec() + 1) <= SIM_CAP as int,
    ensures
        final(buffer).inv(),
        final(buffer).cap_spec() == old(buffer).cap_spec(),
        *final(policy) == *old(policy),
        final(buffer)@.len() >= 1,
        final(buffer)@.len() >= vstd::math::min(
            old(buffer)@.len() as int + 1,
            old(buffer).cap_spec() as int,
        ),
        exists|p: int, g: E|
            #[trigger] played_game(
                old(buffer)@,
                final(buffer)@,
                old(buffer).cap_spec() as int,
                *cfg,
                p,
                g,
            ),
{
    let mut mcts = Mcts::<E>::with_capacity(cfg.capacity, cfg.c_puct, policy);
    let mut game = E::new();
    let start_player = game.player();
    let n_act = E::num_actions();
    let mut is_over = false;
    let mut mwin: usize = 0;
    let mut lostpar: bool = false;
    let ghost mut lost: int = 0;
    let ghost mut gp: int = 0;
    proof {
        buffer.lemma_inv_cap();
    }
    while !is_over
        invariant
            cfg.valid(),
            *policy == *old(policy),
            mcts.wf(),
            buffer.inv(),
            buffer.cap_spec() == old(buffer).cap_spec(),
            old(buffer)@.len() <= old(buffer).cap_spec(),
            n_act == E::actions_spec(),
            is_over == game.over_spec(),
            mcts.root_state_spec() == game,
            mcts.root_node_spec().num_visits >= 1,
            !is_over ==> (mcts.sims as int) + (cfg.num_explores as int) * (game.horizon_spec()
                + 1) <= SIM_CAP as int,
            mwin as int <= buffer@.len(),
            mwin as nat <= buffer.cap_spec(),
            lost >= 0,
            lostpar == (lost % 2 == 1),
            is_over ==> mwin >= 1,
            gp == lost + mwin as int,
            mwin as int == vstd::math::min(gp, old(buffer).cap_spec() as int),
            buffer@.len() == vstd::math::min(
                old(buffer)@.len() as int + gp,
                old(buffer).cap_spec() as int,
            ),
            gp == 0 ==> game == E::initial_spec(),
            forall|i: int|
                0 <= i < buffer@.len() - mwin ==> #[trigger] buffer@[i] == old(buffer)@[old(
                    buffer,
                )@.len() - (buffer@.len() - mwin as int) + i],
            mwin >= 1 ==> play_reaches(
                E::initial_spec(),
                buffer@[buffer@.len() - mwin].state,
                lost as nat,
            ),
            forall|j: int|
                0 <= j < mwin ==> {
                    let e = #[trigger] buffer@[buffer@.len() - mwin + j];
                    &&& e.value == 0
                    &&& !e.state.over_spec()
                    &&& sum64(e.weights@) == e.total
                    &&& 1 <= e.total
                    &&& e.weights@.len() == E::actions_spec()
                },
            forall|j: int|
                0 <= j < mwin - 1 ==> move_linked(
                    (#[trigger] buffer@[buffer@.len() - mwin + j]).state,
                    buffer@[buffer@.len() - mwin + j].weights@,
                    buffer@[buffer@.len() - mwin + j + 1].state,
                    !cfg.sample_action,
                    cfg.temp_num == cfg.temp_den,
                ),
            mwin >= 1 ==> move_linked(
                buffer@[buffer@.len() - 1].state,
                buffer@[buffer@.len() - 1].weights@,
                game,
                !cfg.sample_action,
                cfg.temp_num == cfg.temp_den,
            ),
        decreases (if is_over {
            0int
        } else {
            game.horizon_spec() as int + 1
        }),
    {
        let ghost sims0 = mcts.sims;
        let ghost h_entry = game.horizon_spec();
        proof {
            assert(node_ok(mcts.nodes@, mcts.root as int, E::actions_spec(), mcts.sims as nat));
            assert((cfg.num_explores as int) * 1 <= (cfg.num_explores as int) * (
            game.horizon_spec() + 1)) by (nonlinear_arith)
                requires
                    0 <= cfg.num_explores as int,
                    1 <= game.horizon_spec() + 1,
            ;
        }
        if cfg.noisy_explore {
            let nv = noise.draw(n_act);
            mcts.add_noise(&nv);
        }
        mcts.explore_n(cfg.num_explores, policy);
        proof {
            assert(node_ok(mcts.nodes@, mcts.root as int, E::actions_spec(), mcts.sims as nat));
            assert(mcts.root_node_spec().num_visits >= 2);
            assert(kids_visits(mcts.nodes@, mcts.root_node_spec().children@) >= 1);
            lemma_kids_visits_pos(mcts.nodes@, mcts.root_node_spec().children@);
        }
        let (w, total) = mcts.visit_targets(cfg.temp_num, cfg.temp_den);
        let action: usize;
        if cfg.sample_action {
            action = pick_weighted(rng, &w);
        } else {
            action = mcts.best_action();
            proof {
                assert(node_ok(mcts.nodes@, mcts.root as int, E::actions_spec(), mcts.sims as nat));
                crate::tree::lemma_best_action_weights::<E>(
                    mcts.nodes@,
                    mcts.root_node_spec().children@,
                    w@,
                    action,
                    cfg.temp_num,
                    cfg.temp_den,
                );
            }
        }
        proof {
            assert((action as int) < w@.len() && w@[action as int] >= 1);
            assert(!cfg.sample_action ==> forall|x: int|
                0 <= x < w@.len() ==> #[trigger] w@[x] <= w@[action as int]);
            assert(!cfg.sample_action && cfg.temp_num == cfg.temp_den ==> forall|x: int|
                0 <= x < action as int ==> #[trigger] w@[x] < w@[action as int]);
            assert(exists|k: int|
                0 <= k < mcts.root_node_spec().children@.len() && (
                #[trigger] mcts.root_node_spec().children@[k]).0 == action && mcts.nodes@[mcts.root_node_spec().children@[k].1 as int].num_visits
                    >= 1);
        }
        let ghost prevbuf = buffer@;
        let ghost prevw = mwin as int;
        let ghost prevgame = game;
        let ghost gw = w@;
        let ghost gtotal = total;
        buffer.add(mcts.root_state(), w, total, 0);
        if mwin == buffer.capacity() {
            lostpar = !lostpar;
            proof {
                lost = lost + 1;
            }
        } else {
            mwin = mwin + 1;
        }
        proof {
            gp = gp + 1;
            buffer.lemma_inv_cap();
            let cap = old(buffer).cap_spec() as int;
            let d = crate::buffer::evict_count(prevbuf.len(), 1, buffer.cap_spec());
            let shift: int = if mwin as int == prevw {
                1int
            } else {
                0int
            };
            assert(buffer@[buffer@.len() - 1].weights@ == gw);
            assert(buffer@[buffer@.len() - 1].total == gtotal);
            assert(buffer@[buffer@.len() - 1].value == 0);
            assert(buffer@[buffer@.len() - 1].state == prevgame);
            assert(!prevgame.over_spec());
            assert forall|i: int| 0 <= i < buffer@.len() - 1 implies #[trigger] buffer@[i]
                == prevbuf[i + d] by {}
            // the surviving old prefix
            assert forall|i: int|
                0 <= i < buffer@.len() - mwin implies #[trigger] buffer@[i] == old(buffer)@[old(
                    buffer,
                )@.len() - (buffer@.len() - mwin as int) + i] by {
                assert(buffer@[i] == prevbuf[i + d]);
            }
            // the recorded window, old part mapped, new entry at the end
            assert forall|j: int|
                0 <= j < mwin as int - 1 implies #[trigger] buffer@[buffer@.len() - mwin as int
                    + j] == prevbuf[prevbuf.len() - prevw + j + shift] by {
                assert(buffer@[buffer@.len() - mwin as int + j] == prevbuf[buffer@.len()
                    - mwin as int + j + d]);
            }
            assert forall|j: int|
                0 <= j < mwin implies {
                let e = #[trigger] buffer@[buffer@.len() - mwin + j];
                &&& e.value == 0
                &&& !e.state.over_spec()
                &&& sum64(e.weights@) == e.total
                &&& 1 <= e.total
                &&& e.weights@.len() == E::actions_spec()
            } by {
                if j < mwin as int - 1 {
                    let jj = j + shift;
                    assert(buffer@[buffer@.len() - mwin as int + j] == prevbuf[prevbuf.len()
                        - prevw + jj]);
                    assert(0 <= jj < prevw);
                    assert(!(prevbuf[prevbuf.len() - prevw + jj]).state.over_spec());
                }
            }
            assert forall|j: int|
                0 <= j < mwin as int - 1 implies move_linked(
                (#[trigger] buffer@[buffer@.len() - mwin as int + j]).state,
                buffer@[buffer@.len() - mwin as int + j].weights@,
                buffer@[buffer@.len() - mwin as int + j + 1].state,
                !cfg.sample_action,
                cfg.temp_num == cfg.temp_den,
            ) by {
                let jj = j + shift;
                assert(buffer@[buffer@.len() - mwin as int + j] == prevbuf[prevbuf.len() - prevw
                    + jj]);
                if j < mwin as int - 2 {
                    assert(buffer@[buffer@.len() - mwin as int + j + 1] == prevbuf[prevbuf.len()
                        - prevw + jj + 1]);
                    assert(0 <= jj < prevw - 1);
                    assert(move_linked(
                        (prevbuf[prevbuf.len() - prevw + jj]).state,
                        prevbuf[prevbuf.len() - prevw + jj].weights@,
                        prevbuf[prevbuf.len() - prevw + jj + 1].state,
                        !cfg.sample_action,
                        cfg.temp_num == cfg.temp_den,
                    ));
                } else {
                    assert(buffer@.len() - mwin as int + j + 1 == buffer@.len() - 1);
                    assert(prevbuf.len() - prevw + jj == prevbuf.len() - 1);
                    assert(buffer@[buffer@.len() - 1].state == prevgame);
                    assert(move_linked(
                        prevbuf[prevbuf.len() - 1].state,
                        prevbuf[prevbuf.len() - 1].weights@,
                        prevgame,
                        !cfg.sample_action,
                        cfg.temp_num == cfg.temp_den,
                    ));
                }
            }
            // the earliest recorded state stays anchored to the start
            if prevw == 0 {
                assert(lost == 0);
                assert(buffer@[buffer@.len() - mwin as int].state == prevgame);
                assert(prevgame == E::initial_spec());
                assert(play_reaches(E::initial_spec(), prevgame, 0nat));
            } else if shift == 0 {
                let jj = 0int + shift;
                assert(buffer@[buffer@.len() - mwin as int] == prevbuf[prevbuf.len() - prevw
                    + jj]);
            } else {
                // this game's oldest recorded ply was evicted: the next
                // one is one played move further from the start
                let hd = prevbuf[prevbuf.len() - prevw + 0];
                assert(play_reaches(E::initial_spec(), hd.state, (lost - 1) as nat));
                assert(!hd.state.over_spec());
                if mwin >= 2 {
                    assert(move_linked(
                        hd.state,
                        hd.weights@,
                        prevbuf[prevbuf.len() - prevw + 0 + 1].state,
                        !cfg.sample_action,
                        cfg.temp_num == cfg.temp_den,
                    ));
                    let a = choose|a: int|
                        0 <= a < E::actions_spec() && prevbuf[prevbuf.len() - prevw
                            + 0 + 1].state == #[trigger] hd.state.next_spec(a);
                    lemma_play_extend(E::initial_spec(), hd.state, (lost - 1) as nat, a);
                    assert(buffer@[buffer@.len() - mwin as int] == prevbuf[prevbuf.len() - prevw
                        + 0 + 1]);
                } else {
                    assert(prevbuf.len() - prevw + 0 == prevbuf.len() - 1);
                    assert(move_linked(
                        hd.state,
                        hd.weights@,
                        prevgame,
                        !cfg.sample_action,
                        cfg.temp_num == cfg.temp_den,
                    ));
                    let a = choose|a: int|
                        0 <= a < E::actions_spec() && prevgame == #[trigger] hd.state.next_spec(
                            a,
                        );
                    lemma_play_extend(E::initial_spec(), hd.state, (lost - 1) as nat, a);
                    assert(buffer@[buffer@.len() - mwin as int].state == prevgame);
                }
            }
            assert(play_reaches(
                E::initial_spec(),
                buffer@[buffer@.len() - mwin as int].state,
                lost as nat,
            ));
            assert(mwin >= 1);
        }
        let ghost sims1 = mcts.sims;
        let ghost h_old = game.horizon_spec();
        mcts.step_action(action);
        is_over = game.step(action);
        proof {
            assert(game == prevgame.next_spec(action as int));
            assert(move_linked(
                buffer@[buffer@.len() - 1].state,
                buffer@[buffer@.len() - 1].weights@,
                game,
                !cfg.sample_action,
                cfg.temp_num == cfg.temp_den,
            )) by {
                assert(buffer@[buffer@.len() - 1].state == prevgame);
                assert(buffer@[buffer@.len() - 1].weights@ == gw);
                assert(game == #[trigger] prevgame.next_spec(action as int));
                assert(gw[action as int] >= 1);
            }
            if !is_over {
                assert((sims1 as int) + (cfg.num_explores as int) * (game.horizon_spec() + 1)
                    <= SIM_CAP as int) by (nonlinear_arith)
                    requires
                        0 <= cfg.num_explores as int,
                        game.horizon_spec() + 1 <= h_entry as int,
                        sims1 as int == sims0 as int + cfg.num_explores as int,
                        (sims0 as int) + (cfg.num_explores as int) * (h_entry as int + 1)
                            <= SIM_CAP as int,
                ;
            }
        }
    }
    let r = game.reward(start_player);
    let len = buffer.len();
    let mut j: usize = 0;
    let mut val: i64 = if lostpar {
        -r
    } else {
        r
    };
    proof {
        assert(start_player == E::initial_spec().player_spec());
    }
    while j < mwin
        invariant
            j <= mwin,
            mwin as int <= buffer@.len(),
            buffer@.len() == len,
            buffer.inv(),
            buffer.cap_spec() == old(buffer).cap_spec(),
            -UNIT <= r <= UNIT,
            lost >= 0,
            1 <= mwin,
            1 <= gp,
            gp == lost + mwin as int,
            mwin as int == vstd::math::min(gp, old(buffer).cap_spec() as int),
            buffer@.len() == vstd::math::min(
                old(buffer)@.len() as int + gp,
                old(buffer).cap_spec() as int,
            ),
            old(buffer)@.len() <= old(buffer).cap_spec(),
            game.over_spec(),
            r == game.reward_spec(E::initial_spec().player_spec()),
            val == (if ((j + lost) % 2 == 0) {
                r as int
            } else {
                -(r as int)
            }),
            forall|i: int|
                0 <= i < buffer@.len() - mwin ==> #[trigger] buffer@[i] == old(buffer)@[old(
                    buffer,
                )@.len() - (buffer@.len() - mwin as int) + i],
            play_reaches(E::initial_spec(), buffer@[buffer@.len() - mwin].state, lost as nat),
            forall|jj: int|
                0 <= jj < j ==> (#[trigger] buffer@[buffer@.len() - mwin as int + jj]).value
                    == (if ((jj + lost) % 2 == 0) {
                    r as int
                } else {
                    -(r as int)
                }),
            forall|jj: int|
                0 <= jj < mwin ==> {
                    let e = #[trigger] buffer@[buffer@.len() - mwin as int + jj];
                    &&& !e.state.over_spec()
                    &&& sum64(e.weights@) == e.total
                    &&& 1 <= e.total
                    &&& e.weights@.len() == E::actions_spec()
                },
            forall|jj: int|
                0 <= jj < mwin - 1 ==> move_linked(
                    (#[trigger] buffer@[buffer@.len() - mwin + jj]).state,
                    buffer@[buffer@.len() - mwin + jj].weights@,
                    buffer@[buffer@.len() - mwin + jj + 1].state,
                    !cfg.sample_action,
                    cfg.temp_num == cfg.temp_den,
                ),
            move_linked(
                buffer@[buffer@.len() - 1].state,
                buffer@[buffer@.len() - 1].weights@,
                game,
                !cfg.sample_action,
                cfg.temp_num == cfg.temp_den,
            ),
        decreases mwin - j,
    {
        let ghost prevbuf = buffer@;
        buffer.set_value(len - mwin + j, val);
        proof {
            assert forall|jj: int|
                0 <= jj < mwin - 1 implies move_linked(
                (#[trigger] buffer@[buffer@.len() - mwin + jj]).state,
                buffer@[buffer@.len() - mwin + jj].weights@,
                buffer@[buffer@.len() - mwin + jj + 1].state,
                !cfg.sample_action,
                cfg.temp_num == cfg.temp_den,
            ) by {
                assert(buffer@[buffer@.len() - mwin as int + jj].state == prevbuf[prevbuf.len()
                    - mwin as int + jj].state);
                assert(buffer@[buffer@.len() - mwin as int + jj].weights@
                    == prevbuf[prevbuf.len() - mwin as int + jj].weights@);
                assert(buffer@[buffer@.len() - mwin as int + jj + 1].state
                    == prevbuf[prevbuf.len() - mwin as int + jj + 1].state);
            }
            assert(buffer@[buffer@.len() - 1].state == prevbuf[prevbuf.len() - 1].state);
            assert(buffer@[buffer@.len() - 1].weights@ == prevbuf[prevbuf.len() - 1].weights@);
            assert(buffer@[buffer@.len() - mwin as int].state == prevbuf[prevbuf.len()
                - mwin as int].state);
        }
        val = -val;
        j = j + 1;
    }
    proof {
        let cap = old(buffer).cap_spec() as int;
        assert(mwin as int == vstd::math::min(gp, cap));
        assert(played_game(old(buffer)@, buffer@, cap, *cfg, gp, game));
    }
}

/// `g` is reached from `s` by exactly `n` legal moves, every state
/// before the last one non-terminal.
pub open spec fn play_reaches<E: Env>(s: E, g: E, n: nat) -> bool
    decreases n,
{
    if n == 0 {
        s == g
    } else {
        exists|a: int|
            0 <= a < E::actions_spec() && !s.over_spec() && play_reaches(
                #[trigger] s.next_spec(a),
                g,
                (n - 1) as nat,
            )
    }
}

/// A reached non-terminal state stays reached after one more legal
/// move.
proof fn lemma_play_extend<E: Env>(s: E, g: E, n: nat, a: int)
    requires
        play_reaches(s, g, n),
        !g.over_spec(),
        0 <= a < E::actions_spec(),
    ensures
        play_reaches(s, g.next_spec(a), (n + 1) as nat),
    decreases n,
{
    if n == 0 {
        assert(s == g);
        assert(0 <= a < E::actions_spec() && !s.over_spec() && play_reaches(
            s.next_spec(a),
            g.next_spec(a),
            0nat,
        ));
    } else {
        let a0 = choose|a0: int|
            0 <= a0 < E::actions_spec() && !s.over_spec() && play_reaches(
                #[trigger] s.next_spec(a0),
                g,
                (n - 1) as nat,
            );
        lemma_play_extend(s.next_spec(a0), g, (n - 1) as nat, a);
        assert(0 <= a0 < E::actions_spec() && !s.over_spec() && play_reaches(
            s.next_spec(a0),
            g.next_spec(a),
            n,
        ));
    }
}

/// Head-to-head evaluation: two independent trees, one per policy, over
/// one shared game. Each ply, only the tree of the player to move
/// searches and supplies the deterministic best action; both trees are
/// re-rooted with it so they stay synchronized. Returns the terminal
/// reward from the side of the player who moved first.
pub fn eval<E: Env, P: Policy<E>>(cfg: &RolloutConfig, policy_a: &mut P, policy_b: &mut P) -> (r:
    i64)
    requires
        cfg.valid(),
        (cfg.num_explores as int) * (E::initial_spec().horizon_spec() + 1) <= SIM_CAP as int,
    ensures
        -UNIT <= r <= UNIT,
        *final(policy_a) == *old(policy_a),
        *final(policy_b) == *old(policy_b),
        exists|g: E, n: nat|
            {
                &&& #[trigger] play_reaches(E::initial_spec(), g, n)
                &&& g.over_spec()
                &&& r == g.reward_spec(E::initial_spec().player_spec())
            },
{
    let mut game = E::new();
    let player = game.player();
    let mut ta = Mcts::<E>::with_capacity(cfg.capacity, cfg.c_puct, policy_a);
    let mut tb = Mcts::<E>::with_capacity(cfg.capacity, cfg.c_puct, policy_b);
    let mut is_over = false;
    proof {
        assert(play_reaches(E::initial_spec(), game, 0nat));
    }
    while !is_over
        invariant
            cfg.valid(),
            *policy_a == *old(policy_a),
            *policy_b == *old(policy_b),
            ta.wf(),
            tb.wf(),
            is_over == game.over_spec(),
            ta.root_state_spec() == game,
            tb.root_state_spec() == game,
            player == E::initial_spec().player_spec(),
            exists|n: nat| #[trigger] play_reaches(E::initial_spec(), game, n),
            !is_over ==> (ta.sims as int) + (cfg.num_explores as int) * (game.horizon_spec() + 1)
                <= SIM_CAP as int,
            !is_over ==> (tb.sims as int) + (cfg.num_explores as int) * (game.horizon_spec() + 1)
                <= SIM_CAP as int,
        decreases (if is_over {
            0int
        } else {
            game.horizon_spec() as int + 1
        }),
    {
        let ghost sims0a = ta.sims;
        let ghost sims0b = tb.sims;
        let ghost h_entry = game.horizon_spec();
        proof {
            assert(node_ok(ta.nodes@, ta.root as int, E::actions_spec(), ta.sims as nat));
            assert(node_ok(tb.nodes@, tb.root as int, E::actions_spec(), tb.sims as nat));
            assert((cfg.num_explores as int) * 1 <= (cfg.num_explores as int) * (
            game.horizon_spec() + 1)) by (nonlinear_arith)
                requires
                    0 <= cfg.num_explores as int,
                    1 <= game.horizon_spec() + 1,
            ;
        }
        let action: usize;
        if game.player() == player {
            ta.explore_n(cfg.num_explores, policy_a);
            action = ta.best_action();
        } else {
            tb.explore_n(cfg.num_explores, policy_b);
            action = tb.best_action();
        }
        let ghost gprev = game;
        ta.step_action(action);
        tb.step_action(action);
        is_over = game.step(action);
        proof {
            let n0 = choose|n: nat| play_reaches(E::initial_spec(), gprev, n);
            lemma_play_extend(E::initial_spec(), gprev, n0, action as int);
            assert(play_reaches(E::initial_spec(), game, (n0 + 1) as nat));
            if !is_over {
                assert((ta.sims as int) + (cfg.num_explores as int) * (game.horizon_spec() + 1)
                    <= SIM_CAP as int) by (nonlinear_arith)
                    requires
                        0 <= cfg.num_explores as int,
                        game.horizon_spec() + 1 <= h_entry as int,
                        ta.sims as int <= sims0a as int + cfg.num_explores as int,
                        (sims0a as int) + (cfg.num_explores as int) * (h_entry as int + 1)
                            <= SIM_CAP as int,
                ;
                assert((tb.sims as int) + (cfg.num_explores as int) * (game.horizon_spec() + 1)
                    <= SIM_CAP as int) by (nonlinear_arith)
                    requires
                        0 <= cfg.num_explores as int,
                        game.horizon_spec() + 1 <= h_entry as int,
                        tb.sims as int <= sims0b as int + cfg.num_explores as int,
                        (sims0b as int) + (cfg.num_explores as int) * (h_entry as int + 1)
                            <= SIM_CAP as int,
                ;
            }
        }
    }
    let r = game.reward(player);
    proof {
        let n0 = choose|n: nat| play_reaches(E::initial_spec(), game, n);
        assert(play_reaches(E::initial_spec(), game, n0) && game.over_spec() && r
            == game.reward_spec(E::initial_spec().player_spec()));
    }
    r
}

/// The buffer's contents are `base` evolved by `k` whole self-play
/// games, each one a `played_game` step: FIFO eviction only, every
/// entry that was appended belongs to a completed, back-filled game,
/// and every game began while the buffer was still below `target` — no
/// churning on past the requested fill.
pub open spec fn games_appended<E: Env>(
    base: Seq<crate::buffer::ReplayEntry<E>>,
    post: Seq<crate::buffer::ReplayEntry<E>>,
    cap: int,
    cfg: RolloutConfig,
    target: int,
    k: nat,
) -> bool
    decreases k,
{
    if k == 0 {
        post == base
    } else {
        exists|mid: Seq<crate::buffer::ReplayEntry<E>>, p: int, g: E|
            {
                &&& games_appended(base, mid, cap, cfg, target, (k - 1) as nat)
                &&& mid.len() < target
                &&& #[trigger] played_game(mid, post, cap, cfg, p, g)
            }
    }
}

/// Fills the buffer with at least `steps` fresh replay entries: makes
/// room once, then plays whole games until the target length is reached.
/// Afterwards the buffer is the room-making eviction followed by some
/// number of complete recorded games — no partial-game entries.
pub fn gather_experience<E: Env, P: Policy<E>, NS: NoiseSource>(
    cfg: &RolloutConfig,
    policy: &mut P,
    rng: &mut StdRng,
    noise: &mut NS,
    buffer: &mut ReplayBuffer<E>,
)
    requires
        cfg.valid(),
        old(buffer).inv(),
        cfg.steps as nat <= old(buffer).cap_spec(),
        (cfg.num_explores as int) * (E::initial_spec().horizon_spec() + 1) <= SIM_CAP as int,
    ensures
        final(buffer).inv(),
        final(buffer).cap_spec() == old(buffer).cap_spec(),
        *final(policy) == *old(policy),
        final(buffer)@.len() >= vstd::math::min(
            old(buffer)@.len() as int + cfg.steps as int,
            old(buffer).cap_spec() as int,
        ),
        exists|k: nat|
            #[trigger] games_appended(
                old(buffer)@.skip(
                    crate::buffer::evict_count(
                        old(buffer)@.len(),
                        cfg.steps as nat,
                        old(buffer).cap_spec(),
                    ),
                ),
                final(buffer)@,
                old(buffer).cap_spec() as int,
                *cfg,
                vstd::math::min(
                    old(buffer)@.len() as int + cfg.steps as int,
                    old(buffer).cap_spec() as int,
                ),
                k,
            ),
{
    proof {
        buffer.lemma_inv_cap();
    }
    buffer.make_room(cfg.steps);
    let ghost base = buffer@;
    let target = buffer.len() + cfg.steps;
    proof {
        assert(target as int == vstd::math::min(
            old(buffer)@.len() as int + cfg.steps as int,
            old(buffer).cap_spec() as int,
        ));
        assert(games_appended(base, buffer@, old(buffer).cap_spec() as int, *cfg, target as int, 0nat));
    }
    while buffer.len() < target
        invariant
            cfg.valid(),
            buffer.inv(),
            buffer.cap_spec() == old(buffer).cap_spec(),
            *policy == *old(policy),
            (cfg.num_explores as int) * (E::initial_spec().horizon_spec() + 1) <= SIM_CAP as int,
            target as nat <= buffer.cap_spec(),
            target as int == vstd::math::min(
                old(buffer)@.len() as int + cfg.steps as int,
                old(buffer).cap_spec() as int,
            ),
            exists|k: nat|
                #[trigger] games_appended(
                    base,
                    buffer@,
                    old(buffer).cap_spec() as int,
                    *cfg,
                    target as int,
                    k,
                ),
        decreases vstd::math::max(0, target as int - buffer@.len()),
    {
        let ghost len_before = buffer@.len();
        let ghost mid = buffer@;
        let ghost k0 = choose|k: nat|
            games_appended(base, mid, old(buffer).cap_spec() as int, *cfg, target as int, k);
        run_game(cfg, policy, rng, noise, buffer);
        proof {
            assert(buffer@.len() >= len_before + 1);
            let (p, g) = choose|p: int, g: E|
                played_game(mid, buffer@, old(buffer).cap_spec() as int, *cfg, p, g);
            assert(mid.len() < target as int);
            assert(games_appended(
                base,
                buffer@,
                old(buffer).cap_spec() as int,
                *cfg,
                target as int,
                k0 + 1,
            ));
        }
    }
}

} // verus!
