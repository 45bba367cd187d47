use rand::rngs::StdRng;
use rand::SeedableRng;
use stack_rank_dice::board::Board;
use stack_rank_dice::game::{sum_of_faces, GameState};
use stack_rank_dice::hex::HexCoord;
use stack_rank_dice::region::Region;

fn region(id: usize, q: isize, owner: usize, num_dice: usize) -> Region {
    Region { id, hexes: vec![HexCoord::new(q, 0)], owner, num_dice }
}

fn state(regions: Vec<Region>, players: usize) -> GameState {
    GameState::new(Board { hexes: Vec::new(), regions }, players)
}

#[test]
fn attacker_with_higher_total_captures_and_splits_dice() {
    let mut g = state(vec![region(0, 0, 0, 3), region(1, 1, 1, 2), region(2, 10, 1, 1)], 2);
    g.begin_combat(0, 1);
    let out = g.resolve_combat(vec![4, 3, 3], vec![4, 3], 2);
    assert!(out.attacker_won);
    assert_eq!(out.winner, 0);
    assert_eq!(out.captured_region, 1);
    assert!(out.redrawn);
    assert_eq!(g.board.regions[1].owner, 0);
    assert_eq!(g.board.regions[1].num_dice, 2);
    assert_eq!(g.board.regions[0].num_dice, 2);
    assert_eq!(g.board.regions[0].owner, 0);
    assert_eq!(g.board.regions[2].owner, 1);
}

#[test]
fn random_reinforcement_stays_in_range() {
    for seed in 0..20u64 {
        let mut rng = StdRng::seed_from_u64(seed);
        let mut g = state(vec![region(0, 0, 0, 3), region(1, 1, 1, 2), region(2, 10, 1, 1)], 2);
        g.begin_combat(0, 1);
        let out = g.complete_combat(vec![6, 3, 1], vec![4, 3], &mut rng);
        assert!(out.attacker_won);
        let captured = g.board.regions[1].num_dice;
        assert!(captured >= 1 && captured < 3);
        assert_eq!(g.board.regions[0].num_dice, 3 - (captured - 1));
        assert_eq!(g.board.regions[1].owner, 0);
        assert_eq!(g.game_log[0].region_1_dice_result, vec![6, 3, 1]);
        assert_eq!(g.game_log[0].region_2_dice_result, vec![4, 3]);
    }
}

#[test]
fn defender_wins_a_tie() {
    let mut g = state(vec![region(0, 0, 0, 2), region(1, 1, 1, 3), region(2, 2, 0, 1)], 2);
    g.begin_combat(0, 1);
    let out = g.resolve_combat(vec![3, 2], vec![1, 2, 2], 2);
    assert!(!out.attacker_won);
    assert_eq!(out.winner, 1);
    assert_eq!(out.captured_region, 0);
    assert_eq!(g.board.regions[0].owner, 1);
    assert_eq!(g.board.regions[0].num_dice, 2);
    assert_eq!(g.board.regions[1].num_dice, 2);
    // region 2 of player 0 still borders region 1 and has not attacked
    assert!(!out.turn_advanced);
    assert_eq!(g.turn_of_player, 0);
    assert_eq!(g.turn_counter, 0);
    assert_eq!(out.game_over, None);
}

#[test]
fn winner_with_one_die_moves_nothing() {
    let mut g = state(vec![region(0, 0, 0, 1), region(1, 1, 1, 2), region(2, 10, 1, 1)], 2);
    g.begin_combat(0, 1);
    g.resolve_combat(vec![6], vec![1, 1], 1);
    assert_eq!(g.board.regions[1].owner, 0);
    assert_eq!(g.board.regions[1].num_dice, 2);
    assert_eq!(g.board.regions[0].num_dice, 1);
}

#[test]
fn turn_passes_when_no_region_can_attack() {
    let mut g = state(vec![region(0, 0, 0, 3), region(1, 1, 1, 2), region(2, 10, 1, 1)], 2);
    g.begin_combat(0, 1);
    let out = g.resolve_combat(vec![6, 6, 6], vec![1, 1], 1);
    assert!(out.turn_advanced);
    assert_eq!(g.turn_of_player, 1);
    assert_eq!(g.turn_counter, 1);
    assert_eq!(out.game_over, None);
    assert_eq!(g.winner, None);
}

#[test]
fn turn_wraps_from_last_player_to_first() {
    let mut g = state(vec![region(0, 0, 2, 3), region(1, 1, 0, 2), region(2, 10, 1, 1)], 3);
    g.turn_of_player = 2;
    g.turn_counter = 5;
    g.begin_combat(0, 1);
    let out = g.resolve_combat(vec![6, 6], vec![1], 1);
    assert!(out.turn_advanced);
    assert_eq!(g.turn_of_player, 0);
    assert_eq!(g.turn_counter, 6);
}

#[test]
fn game_over_when_one_player_owns_everything() {
    let mut g = state(vec![region(0, 0, 0, 2), region(1, 1, 1, 1)], 2);
    g.begin_combat(0, 1);
    let out = g.resolve_combat(vec![5, 5], vec![2], 1);
    assert_eq!(out.game_over, Some(0));
    assert_eq!(g.winner, Some(0));
    assert_eq!(g.find_sole_owner(), Some(0));
}

#[test]
fn same_inputs_give_same_resolution() {
    let mut a = state(vec![region(0, 0, 0, 3), region(1, 1, 1, 2), region(2, 10, 1, 1)], 2);
    let mut b = state(vec![region(0, 0, 0, 3), region(1, 1, 1, 2), region(2, 10, 1, 1)], 2);
    a.begin_combat(0, 1);
    b.begin_combat(0, 1);
    let oa = a.resolve_combat(vec![3, 4], vec![2, 2], 2);
    let ob = b.resolve_combat(vec![3, 4], vec![2, 2], 2);
    assert_eq!(oa, ob);
    for i in 0..3 {
        assert_eq!(a.board.regions[i].owner, b.board.regions[i].owner);
        assert_eq!(a.board.regions[i].num_dice, b.board.regions[i].num_dice);
    }
    assert_eq!(a.turn_of_player, b.turn_of_player);
}

#[test]
fn both_regions_keep_a_die_and_pair_gains_one() {
    for captured in 1..5usize {
        let mut g = state(vec![region(0, 0, 0, 5), region(1, 1, 1, 4), region(2, 10, 1, 1)], 2);
        g.begin_combat(0, 1);
        g.resolve_combat(vec![6, 6, 6, 6, 6], vec![1, 1, 1, 1], captured);
        let w = g.board.regions[0].num_dice;
        let l = g.board.regions[1].num_dice;
        assert!(w >= 1 && l >= 1);
        assert_eq!(w + l, 6);
        assert_eq!(l, captured);
    }
}

#[test]
fn begin_combat_logs_pending_entry() {
    let mut g = state(vec![region(0, 0, 0, 3), region(1, 1, 1, 2)], 2);
    let e = g.begin_combat(0, 1);
    assert_eq!(e.turn_of_player, 0);
    assert_eq!(e.turn_counter, 0);
    assert_eq!(e.region_1.id, 0);
    assert_eq!(e.region_2.id, 1);
    assert_eq!(e.region_1.num_dice, 3);
    assert_eq!(e.region_2.num_dice, 2);
    assert!(e.region_1_dice_result.is_empty());
    assert_eq!(g.game_log.len(), 1);
    assert!(g.has_moved(0));
    assert!(!g.has_moved(1));
}

#[test]
fn moved_region_no_longer_counts_as_able_to_attack() {
    let mut g = state(vec![region(0, 0, 0, 3), region(1, 1, 1, 2), region(2, 2, 1, 1)], 2);
    assert!(g.region_can_attack(0));
    assert!(!g.region_can_attack(1));
    assert!(!g.is_turn_over());
    g.begin_combat(0, 1);
    assert!(!g.region_can_attack(0));
    assert!(g.is_turn_over());
}

#[test]
fn sole_owner_needs_every_region() {
    let g = state(vec![region(0, 0, 1, 3), region(1, 1, 1, 2)], 2);
    assert_eq!(g.find_sole_owner(), Some(1));
    let h = state(vec![region(0, 0, 0, 3), region(1, 1, 1, 2)], 2);
    assert_eq!(h.find_sole_owner(), None);
    let e = state(Vec::new(), 2);
    assert_eq!(e.find_sole_owner(), None);
}

#[test]
fn faces_add_up() {
    assert_eq!(sum_of_faces(&vec![]), 0);
    assert_eq!(sum_of_faces(&vec![6, 5, 1]), 12);
}

#[test]
fn clash_end_event_reports_totals() {
    let mut g = state(vec![region(0, 0, 0, 3), region(1, 1, 1, 2), region(2, 10, 1, 1)], 2);
    assert!(g.clash_end_event().is_none());
    g.begin_combat(0, 1);
    g.resolve_combat(vec![4, 3, 3], vec![4, 3], 1);
    let e = g.clash_end_event().unwrap();
    assert_eq!(e.dice_1_sum, 10);
    assert_eq!(e.dice_2_sum, 7);
    assert_eq!(e.region1.id, 0);
    assert_eq!(e.region2.id, 1);
}
