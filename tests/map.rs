use std::collections::HashSet;

use rand::rngs::StdRng;
use rand::SeedableRng;
use stack_rank_dice::board::{
    accept_patch, allocate_dice, borders, contains_cell, generate_board, grow_patch, place_patch, Board,
};
use stack_rank_dice::hex::HexCoord;
use stack_rank_dice::region::Region;
use stack_rank_dice::selection::SelectedRegion;

fn touching(a: &Region, b: &Region) -> bool {
    a.hexes.iter().any(|x| b.hexes.iter().any(|y| x.is_adjacent(y)))
}

fn check_board(board: &Board, players: usize) {
    assert_eq!(board.regions.len(), 16 * players);
    let patch_size = 400 / (32 * players);
    let mut owned = Vec::new();
    for (k, r) in board.regions.iter().enumerate() {
        assert_eq!(r.owner, k % players);
        assert!(r.hexes.len() >= 2 && r.hexes.len() <= patch_size + 1);
        assert!(r.hexes[0].q >= -9 && r.hexes[0].q < 9 && r.hexes[0].r >= -9 && r.hexes[0].r < 9);
        for j in 1..r.hexes.len() {
            assert!((0..j).any(|i| r.hexes[i].is_adjacent(&r.hexes[j])));
        }
        for h in r.hexes.iter() {
            owned.push((*h, r.owner));
        }
    }
    assert_eq!(board.hexes, owned);
    let mut seen = HashSet::new();
    for (i, r) in board.regions.iter().enumerate() {
        assert_eq!(r.id, i);
        assert!(!r.hexes.is_empty());
        assert!(r.num_dice >= 1 && r.num_dice <= 3);
        assert!(r.owner < players);
        for h in r.hexes.iter() {
            assert!(seen.insert((h.q, h.r)), "cell used twice");
        }
        if i > 0 {
            assert!((0..i).any(|j| touching(r, &board.regions[j])));
        }
    }
    let mut total = 0;
    for p in 0..players {
        let owned: Vec<&Region> = board.regions.iter().filter(|r| r.owner == p).collect();
        assert_eq!(owned.len(), 16);
        let dice: usize = owned.iter().map(|r| r.num_dice).sum();
        assert!(dice <= 64);
        total += owned.len();
    }
    assert_eq!(total, board.regions.len());
}

#[test]
fn two_player_board_from_fixed_seed() {
    let mut rng = StdRng::seed_from_u64(2024);
    let board = generate_board(2, &mut rng).unwrap();
    check_board(&board, 2);
    assert!(board.regions.iter().any(|r| r.hexes.len() > 1));
}

#[test]
fn boards_for_every_player_count() {
    for players in 1..=8usize {
        for seed in 0..3u64 {
            let mut rng = StdRng::seed_from_u64(seed * 31 + players as u64);
            if let Ok(board) = generate_board(players, &mut rng) {
                check_board(&board, players);
            }
        }
    }
}

#[test]
fn same_seed_same_board() {
    let a = generate_board(3, &mut StdRng::seed_from_u64(9)).unwrap();
    let b = generate_board(3, &mut StdRng::seed_from_u64(9)).unwrap();
    assert_eq!(a.regions.len(), b.regions.len());
    for (x, y) in a.regions.iter().zip(b.regions.iter()) {
        assert_eq!(x.hexes, y.hexes);
        assert_eq!(x.num_dice, y.num_dice);
    }
}

#[test]
fn patch_grows_over_free_cells_only() {
    let mut rng = StdRng::seed_from_u64(1);
    let occupied = vec![HexCoord::new(1, 0), HexCoord::new(0, 1)];
    let patch = grow_patch(&mut rng, &occupied, HexCoord::new(0, 0), 6);
    assert_eq!(patch[0], HexCoord::new(0, 0));
    assert_eq!(patch.len(), 7);
    for (i, h) in patch.iter().enumerate() {
        assert!(!occupied.contains(h));
        assert!(!patch[..i].contains(h));
        if i > 0 {
            assert!(patch[..i].iter().any(|p| p.is_adjacent(h)));
        }
    }
}

#[test]
fn patch_boxed_in_stays_single() {
    let mut rng = StdRng::seed_from_u64(1);
    let seed = HexCoord::new(0, 0);
    let occupied = seed.neighbors();
    let patch = grow_patch(&mut rng, &occupied, seed, 6);
    assert_eq!(patch, vec![seed]);
}

#[test]
fn placement_gives_up_when_no_seed_is_free() {
    let mut rng = StdRng::seed_from_u64(3);
    let mut occupied = Vec::new();
    for q in -9..9isize {
        for r in -9..9isize {
            occupied.push(HexCoord::new(q, r));
        }
    }
    let mut regions = vec![Region { id: 0, hexes: occupied.clone(), owner: 0, num_dice: 0 }];
    let placed = place_patch(&mut rng, &mut occupied, &mut regions, 1, 2, 6);
    assert!(!placed);
    assert_eq!(regions.len(), 1);
}

#[test]
fn first_patch_needs_no_neighbour() {
    let mut rng = StdRng::seed_from_u64(5);
    let mut occupied = Vec::new();
    let mut regions = Vec::new();
    assert!(place_patch(&mut rng, &mut occupied, &mut regions, 0, 2, 6));
    assert_eq!(regions.len(), 1);
    assert_eq!(regions[0].owner, 0);
    assert_eq!(regions[0].id, 0);
    assert!(regions[0].hexes.len() > 1);
    assert_eq!(occupied, regions[0].hexes);
    assert!(place_patch(&mut rng, &mut occupied, &mut regions, 1, 2, 6));
    assert!(touching(&regions[1], &regions[0]));
}

#[test]
fn dice_allocation_respects_budget() {
    let mut rng = StdRng::seed_from_u64(11);
    let mut regions: Vec<Region> = (0..32)
        .map(|i| Region { id: i, hexes: vec![HexCoord::new(i as isize, 0)], owner: i % 2, num_dice: 0 })
        .collect();
    allocate_dice(&mut rng, &mut regions, 2);
    for p in 0..2 {
        let dice: usize = regions.iter().filter(|r| r.owner == p).map(|r| r.num_dice).sum();
        assert!(dice >= 16 && dice <= 48);
    }
    assert!(regions.iter().all(|r| r.num_dice >= 1 && r.num_dice <= 3));
}

#[test]
fn cell_lookup_and_borders() {
    let cells = vec![HexCoord::new(3, 3), HexCoord::new(-2, 4)];
    assert!(contains_cell(&cells, HexCoord::new(-2, 4)));
    assert!(!contains_cell(&cells, HexCoord::new(4, -2)));
    assert!(borders(&vec![HexCoord::new(4, 3)], &cells));
    assert!(!borders(&vec![HexCoord::new(5, 3)], &cells));
}

#[test]
fn neighbours_in_axial_order() {
    let ns = HexCoord::new(2, -1).neighbors();
    let got: Vec<(isize, isize)> = ns.iter().map(|h| (h.q, h.r)).collect();
    assert_eq!(got, vec![(3, -1), (3, -2), (2, -2), (1, -1), (1, 0), (2, 0)]);
    assert!(HexCoord::new(0, 0).is_adjacent(&HexCoord::new(-1, 1)));
    assert!(!HexCoord::new(0, 0).is_adjacent(&HexCoord::new(1, 1)));
    assert!(!HexCoord::new(0, 0).is_adjacent(&HexCoord::new(0, 0)));
}

#[test]
fn opponents_need_an_edge_and_different_owners() {
    let a = Region { id: 0, hexes: vec![HexCoord::new(0, 0), HexCoord::new(1, 0)], owner: 0, num_dice: 1 };
    let b = Region { id: 1, hexes: vec![HexCoord::new(2, 0)], owner: 1, num_dice: 1 };
    let c = Region { id: 2, hexes: vec![HexCoord::new(2, -1)], owner: 0, num_dice: 1 };
    let d = Region { id: 3, hexes: vec![HexCoord::new(5, 5)], owner: 1, num_dice: 1 };
    assert!(a.is_opponent(&b));
    assert!(b.is_opponent(&a));
    assert!(!a.is_opponent(&c));
    assert!(!a.is_opponent(&d));
}

#[test]
fn center_hex_is_nearest_to_mean() {
    let line = Region {
        id: 0,
        hexes: vec![HexCoord::new(0, 0), HexCoord::new(1, 0), HexCoord::new(2, 0)],
        owner: 0,
        num_dice: 1,
    };
    assert_eq!(line.center_hex(), HexCoord::new(1, 0));
    let pair = Region { id: 0, hexes: vec![HexCoord::new(4, 1), HexCoord::new(5, 1)], owner: 0, num_dice: 1 };
    assert_eq!(pair.center_hex(), HexCoord::new(4, 1));
    let bent = Region {
        id: 0,
        hexes: vec![HexCoord::new(0, 0), HexCoord::new(3, 0), HexCoord::new(3, 3), HexCoord::new(2, 2)],
        owner: 0,
        num_dice: 1,
    };
    assert_eq!(bent.center_hex(), HexCoord::new(2, 2));
    let empty = Region { id: 0, hexes: vec![], owner: 0, num_dice: 1 };
    assert_eq!(empty.center_hex(), HexCoord::new(0, 0));
}

#[test]
fn selection_then_attack() {
    let own = Region { id: 0, hexes: vec![HexCoord::new(0, 0)], owner: 0, num_dice: 2 };
    let enemy = Region { id: 1, hexes: vec![HexCoord::new(1, 0)], owner: 1, num_dice: 1 };
    let far = Region { id: 2, hexes: vec![HexCoord::new(7, 0)], owner: 1, num_dice: 1 };
    let mut sel = SelectedRegion::new();
    assert!(sel.pick(9, &enemy, 0).is_none());
    assert!(sel.pick(5, &own, 0).is_none());
    assert_eq!(sel.entity, Some(5));
    assert_eq!(sel.region.as_ref().unwrap().id, 0);
    assert!(sel.pick(6, &far, 0).is_none());
    assert!(sel.region.is_none());
    sel.pick(5, &own, 0);
    let attack = sel.pick(7, &enemy, 0).unwrap();
    assert_eq!(attack.region_1.id, 0);
    assert_eq!(attack.region_2.id, 1);
    assert!(sel.entity.is_none() && sel.region.is_none());
    sel.select(3, own.clone());
    sel.deselect();
    assert!(sel.entity.is_none() && sel.region.is_none());
}

#[test]
fn patch_stops_when_enclosed() {
    let mut rng = StdRng::seed_from_u64(4);
    let a = HexCoord::new(0, 0);
    let b = HexCoord::new(1, 0);
    let mut occupied: Vec<HexCoord> = Vec::new();
    for h in a.neighbors().into_iter().chain(b.neighbors().into_iter()) {
        if h != a && h != b && !occupied.contains(&h) {
            occupied.push(h);
        }
    }
    let patch = grow_patch(&mut rng, &occupied, a, 6);
    assert_eq!(patch, vec![a, b]);
}

#[test]
fn patch_acceptance() {
    let occupied = vec![HexCoord::new(0, 0)];
    let touching_patch = vec![HexCoord::new(1, 0), HexCoord::new(2, 0)];
    let distant_patch = vec![HexCoord::new(5, 0), HexCoord::new(6, 0)];
    let single = vec![HexCoord::new(1, 0)];
    assert!(accept_patch(&occupied, false, &touching_patch));
    assert!(!accept_patch(&occupied, false, &distant_patch));
    assert!(accept_patch(&occupied, true, &distant_patch));
    assert!(!accept_patch(&occupied, true, &single));
    assert!(!accept_patch(&occupied, false, &single));
}
