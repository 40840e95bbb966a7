use selfplay::buffer::ReplayBuffer;
use selfplay::env::Env;
use selfplay::num::isqrt;
use selfplay::num::temp_weight;
use selfplay::runner::eval;
use selfplay::runner::gather_experience;
use selfplay::runner::run_game;
use selfplay::runner::RolloutConfig;
use selfplay::sampling::new_rng;
use selfplay::sampling::pick_weighted;
use selfplay::demo::Countdown;
use selfplay::demo::FlatEval;
use selfplay::demo::ZeroNoise;
use selfplay::tree::Mcts;
use selfplay::UNIT;

type OneShot = Countdown<0, 0>;

type ThreePly = Countdown<1, 2>;

fn cfg(num_explores: usize, steps: usize) -> RolloutConfig {
    RolloutConfig {
        capacity: 64,
        num_explores,
        temp_num: 1,
        temp_den: 1,
        sample_action: false,
        steps,
        noisy_explore: false,
        c_puct: UNIT,
    }
}

#[test]
fn one_shot_game_records_single_certain_entry() {
    let c = cfg(2, 1);
    let mut policy = FlatEval;
    let mut rng = new_rng(7);
    let mut noise = ZeroNoise;
    let mut buffer: ReplayBuffer<OneShot> = ReplayBuffer::new(8);
    run_game(&c, &mut policy, &mut rng, &mut noise, &mut buffer);
    assert_eq!(buffer.len(), 1);
    let e = buffer.get(0);
    // the single action holds the whole policy target: weights/total is 1.0
    assert_eq!(e.weights, vec![2]);
    assert_eq!(e.total, 2);
    // and the recorded value is the winner's full reward
    assert_eq!(e.value, UNIT);
}

#[test]
fn backfill_alternates_from_the_last_ply_backwards() {
    let c = cfg(2, 3);
    let mut policy = FlatEval;
    let mut rng = new_rng(7);
    let mut noise = ZeroNoise;
    let mut buffer: ReplayBuffer<ThreePly> = ReplayBuffer::new(16);
    run_game(&c, &mut policy, &mut rng, &mut noise, &mut buffer);
    assert_eq!(buffer.len(), 3);
    assert_eq!(buffer.get(0).value, UNIT);
    assert_eq!(buffer.get(1).value, -UNIT);
    assert_eq!(buffer.get(2).value, UNIT);
}

#[test]
fn best_action_is_first_most_visited_child() {
    let mut policy = FlatEval;
    let mut t: Mcts<ThreePly> = Mcts::with_capacity(16, UNIT, &mut policy);
    t.explore_n(5, &mut policy);
    let a = t.best_action();
    let root = t.root_node().children.clone();
    let mut best = 0usize;
    let mut best_v = 0u64;
    for &(act, ci) in root.iter() {
        let v = t.get_node(ci).num_visits;
        if v > best_v {
            best = act;
            best_v = v;
        }
    }
    assert_eq!(a, best);
    // determinism: the same search again gives the same action
    let mut policy2 = FlatEval;
    let mut t2: Mcts<ThreePly> = Mcts::with_capacity(16, UNIT, &mut policy2);
    t2.explore_n(5, &mut policy2);
    assert_eq!(t2.best_action(), a);
}

#[test]
fn step_action_tracks_the_environment() {
    let mut policy = FlatEval;
    let mut t: Mcts<ThreePly> = Mcts::with_capacity(16, UNIT, &mut policy);
    t.explore_n(3, &mut policy);
    let mut game = ThreePly::new();
    t.step_action(1);
    game.step(1);
    assert_eq!(t.root_state(), game);
}

#[test]
fn visit_counts_are_conserved_across_the_arena() {
    let mut policy = FlatEval;
    let mut t: Mcts<ThreePly> = Mcts::with_capacity(32, UNIT, &mut policy);
    t.explore_n(9, &mut policy);
    for i in 0..t.num_nodes() {
        let n = t.get_node(i);
        let ch = n.children.clone();
        if !ch.is_empty() {
            let sum: u64 = ch.iter().map(|&(_, c)| t.get_node(c).num_visits).sum();
            assert_eq!(n.num_visits, 1 + sum);
        }
    }
}

#[test]
fn policy_target_sums_to_its_total_and_skips_unvisited() {
    let mut policy = FlatEval;
    let mut t: Mcts<ThreePly> = Mcts::with_capacity(32, UNIT, &mut policy);
    t.explore_n(4, &mut policy);
    let (w, total) = t.visit_targets(1, 1);
    assert_eq!(w.len(), 2);
    assert_eq!(w.iter().sum::<u64>(), total);
    assert!(total >= 1);
    let root = t.root_node().children.clone();
    for &(act, ci) in root.iter() {
        let v = t.get_node(ci).num_visits;
        assert_eq!(w[act], v, "temperature one keeps raw visit counts");
        if v == 0 {
            assert_eq!(w[act], 0);
        }
    }
}

#[test]
fn first_player_wins_head_to_head_either_way() {
    let c = cfg(2, 1);
    let mut a = FlatEval;
    let mut b = FlatEval;
    let r: i64 = eval::<OneShot, FlatEval>(&c, &mut a, &mut b);
    assert_eq!(r, UNIT);
    let r2: i64 = eval::<OneShot, FlatEval>(&c, &mut b, &mut a);
    assert_eq!(r2, UNIT);
}

#[test]
fn make_room_evicts_exactly_the_oldest() {
    let mut buffer: ReplayBuffer<OneShot> = ReplayBuffer::new(3);
    for v in 0..3i64 {
        buffer.add(OneShot::new(), vec![1], 1, v);
    }
    assert_eq!(buffer.len(), 3);
    buffer.make_room(2);
    assert_eq!(buffer.len(), 1);
    assert_eq!(buffer.get(0).value, 2, "the newest entry stays, order kept");
}

#[test]
fn adding_to_a_full_buffer_evicts_one() {
    let mut buffer: ReplayBuffer<OneShot> = ReplayBuffer::new(2);
    buffer.add(OneShot::new(), vec![1], 1, 10);
    buffer.add(OneShot::new(), vec![1], 1, 11);
    buffer.add(OneShot::new(), vec![1], 1, 12);
    assert_eq!(buffer.len(), 2);
    assert_eq!(buffer.get(0).value, 11);
    assert_eq!(buffer.get(1).value, 12);
}

#[test]
fn gather_experience_fills_the_requested_room() {
    let c = cfg(1, 4);
    let mut policy = FlatEval;
    let mut rng = new_rng(3);
    let mut noise = ZeroNoise;
    let mut buffer: ReplayBuffer<ThreePly> = ReplayBuffer::new(8);
    gather_experience(&c, &mut policy, &mut rng, &mut noise, &mut buffer);
    assert!(buffer.len() >= 4);
    assert!(buffer.len() <= 8);
}

#[test]
fn weighted_pick_never_lands_on_zero_weight() {
    let mut rng = new_rng(99);
    let w = vec![0u64, 5, 0];
    for _ in 0..20 {
        assert_eq!(pick_weighted(&mut rng, &w), 1);
    }
}

#[test]
fn seeded_rng_is_deterministic() {
    let mut r1 = new_rng(1234);
    let mut r2 = new_rng(1234);
    let w = vec![3u64, 3, 3, 3];
    for _ in 0..10 {
        assert_eq!(pick_weighted(&mut r1, &w), pick_weighted(&mut r2, &w));
    }
}

#[test]
fn integer_square_root_is_exact_floor() {
    assert_eq!(isqrt(0), 0);
    assert_eq!(isqrt(100000000), 10000);
    assert_eq!(isqrt(99999999), 9999);
    assert_eq!(isqrt(2), 1);
}

#[test]
fn temperature_weights_follow_the_rational_exponent() {
    // temperature 1: identity
    assert_eq!(temp_weight(7, 1, 1), 7);
    // temperature 1/2: squaring
    assert_eq!(temp_weight(9, 1, 2), 81);
    // temperature 2: floor of the square root
    assert_eq!(temp_weight(16, 2, 1), 4);
    assert_eq!(temp_weight(17, 2, 1), 4);
    // temperature 3/2: floor of v^(2/3)
    assert_eq!(temp_weight(5, 3, 2), 2);
    assert_eq!(temp_weight(0, 1, 1), 0);
}

#[test]
fn noisy_exploration_still_completes_games() {
    let mut c = cfg(2, 2);
    c.noisy_explore = true;
    c.sample_action = true;
    let mut policy = FlatEval;
    let mut rng = new_rng(5);
    let mut noise = ZeroNoise;
    let mut buffer: ReplayBuffer<ThreePly> = ReplayBuffer::new(16);
    run_game(&c, &mut policy, &mut rng, &mut noise, &mut buffer);
    assert_eq!(buffer.len(), 3);
}
