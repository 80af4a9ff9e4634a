use ant_planner::allocate::{allocate, Beacon};
use ant_planner::board::{Board, CellType, TurnState};
use ant_planner::expand::{expand, nearest_resource, settle_path, Expansion, ANTS_PER_CELL};
use ant_planner::search::find_nearest_cell_multi;
use ant_planner::turn::plan_turn;

fn row(links: &[usize]) -> [Option<usize>; 6] {
    let mut out = [None; 6];
    for (k, &l) in links.iter().enumerate() {
        out[k] = Some(l);
    }
    out
}

/// The chain 0 - 1 - 2 with a base on 0 and a crystal on 2.
fn crystal_chain() -> Board {
    Board {
        types: vec![CellType::Empty, CellType::Empty, CellType::Crystal],
        neighbours: vec![row(&[1]), row(&[0, 2]), row(&[1])],
        my_bases: vec![0],
        opp_bases: vec![2],
    }
}

fn strengths(beacons: &[Beacon]) -> Vec<(usize, usize)> {
    beacons.iter().map(|b| (b.index, b.strength)).collect()
}

#[test]
fn chain_with_four_ants_is_taken_whole() {
    let board = crystal_chain();
    let state = TurnState {
        resources: vec![0, 0, 10],
        my_ants: vec![4, 0, 0],
        opp_ants: vec![0, 0, 0],
    };
    let found = find_nearest_cell_multi(&board, &[0], &|i| {
        board.types[i] != CellType::Empty && state.resources[i] > 0
    });
    assert_eq!(found, Some(vec![2, 1]));
    assert_eq!(nearest_resource(&board, &state, &vec![0]), Some(vec![2, 1]));
    let grown = expand(&board, &state, &[0]);
    assert_eq!(grown, Expansion { controlled: vec![0, 2, 1], free_ants: 0 });
    let mut cells = grown.controlled.clone();
    cells.sort();
    assert_eq!(cells, vec![0, 1, 2]);
    let beacons = allocate(&grown.controlled, &state, grown.free_ants);
    assert_eq!(strengths(&beacons), vec![(0, 2), (2, 2), (1, 2)]);
    assert_eq!(plan_turn(&board, &state), beacons);
}

#[test]
fn contested_crystal_is_reinforced_from_the_balance() {
    let board = crystal_chain();
    let state = TurnState {
        resources: vec![0, 0, 10],
        my_ants: vec![10, 0, 0],
        opp_ants: vec![0, 0, 5],
    };
    let grown = expand(&board, &state, &[0]);
    assert_eq!(grown.controlled, vec![0, 2, 1]);
    assert_eq!(grown.free_ants, 6);
    let beacons = plan_turn(&board, &state);
    assert_eq!(strengths(&beacons), vec![(0, 2), (2, 5), (1, 2)]);
    assert_eq!(beacons[1], Beacon { index: 2, strength: 5, resources: 10, opp_ants: 5 });
}

#[test]
fn isolated_base_keeps_to_itself() {
    // The neighbours of the base are empty or depleted.
    let board = Board {
        types: vec![CellType::Empty, CellType::Empty, CellType::Crystal, CellType::Egg],
        neighbours: vec![row(&[1, 2, 3]), row(&[0]), row(&[0]), row(&[0])],
        my_bases: vec![0],
        opp_bases: vec![1],
    };
    let state = TurnState {
        resources: vec![0, 7, 0, 0],
        my_ants: vec![9, 0, 0, 0],
        opp_ants: vec![0, 0, 0, 0],
    };
    let grown = expand(&board, &state, &[0]);
    assert_eq!(grown, Expansion { controlled: vec![0], free_ants: 9 });
    let beacons = plan_turn(&board, &state);
    assert_eq!(beacons, vec![Beacon { index: 0, strength: 2, resources: 0, opp_ants: 0 }]);
}

#[test]
fn two_bases_without_resources_give_two_default_beacons() {
    let board = Board {
        types: vec![CellType::Empty; 3],
        neighbours: vec![row(&[1]), row(&[0, 2]), row(&[1])],
        my_bases: vec![2, 0],
        opp_bases: vec![1],
    };
    let state = TurnState { resources: vec![0; 3], my_ants: vec![0; 3], opp_ants: vec![0; 3] };
    assert_eq!(strengths(&plan_turn(&board, &state)), vec![(2, 2), (0, 2)]);
}

/// A chain of `n` cells, base on 0, an egg with resources on each listed cell.
fn egg_chain(n: usize, eggs: &[usize], ants: usize) -> (Board, TurnState) {
    let mut types = vec![CellType::Empty; n];
    let mut resources = vec![0; n];
    for &e in eggs {
        types[e] = CellType::Egg;
        resources[e] = 3;
    }
    let mut neighbours = Vec::new();
    for i in 0..n {
        let mut l = Vec::new();
        if i > 0 {
            l.push(i - 1);
        }
        if i + 1 < n {
            l.push(i + 1);
        }
        neighbours.push(row(&l));
    }
    let mut my_ants = vec![0; n];
    my_ants[0] = ants;
    let board = Board { types, neighbours, my_bases: vec![0], opp_bases: vec![n - 1] };
    let state = TurnState { resources, my_ants, opp_ants: vec![0; n] };
    (board, state)
}

#[test]
fn growth_stops_when_the_next_path_is_too_dear() {
    // Eggs two and then three more hops out: 4 ants for the first, 6 for the second.
    let (board, state) = egg_chain(6, &[2, 5], 9);
    let grown = expand(&board, &state, &[0]);
    assert_eq!(grown, Expansion { controlled: vec![0, 2, 1], free_ants: 5 });
    let (board, state) = egg_chain(6, &[2, 5], 10);
    let grown = expand(&board, &state, &[0]);
    assert_eq!(grown, Expansion { controlled: vec![0, 2, 1, 5, 4, 3], free_ants: 0 });
}

#[test]
fn first_step_is_taken_even_without_ants() {
    let (board, state) = egg_chain(6, &[2, 3], 0);
    let grown = expand(&board, &state, &[0]);
    assert_eq!(grown, Expansion { controlled: vec![0, 2, 1], free_ants: 0 });
    let (board, state) = egg_chain(6, &[2, 3], 3);
    let grown = expand(&board, &state, &[0]);
    assert_eq!(grown, Expansion { controlled: vec![0, 2, 1], free_ants: 0 });
}

#[test]
fn growth_keeps_the_bases_and_stays_on_the_board() {
    let (mut board, state) = egg_chain(8, &[1, 3, 6, 7], 1000);
    board.my_bases = vec![4, 0];
    let grown = expand(&board, &state, &board.my_bases);
    assert_eq!(&grown.controlled[..2], &[4, 0]);
    assert!(grown.controlled.len() <= 8);
    let mut cells = grown.controlled.clone();
    cells.sort();
    cells.dedup();
    assert_eq!(cells.len(), grown.controlled.len());
    assert_eq!(grown.controlled, vec![4, 0, 3, 1, 6, 5, 7]);
    assert_eq!(grown.free_ants, 1000 - 5 * ANTS_PER_CELL);
}

#[test]
fn spending_never_exceeds_the_pool() {
    for ants in 0..20 {
        let (board, state) = egg_chain(9, &[1, 2, 4, 8], ants);
        let grown = expand(&board, &state, &[0]);
        let taken = grown.controlled.len() - 1;
        assert!(grown.free_ants <= ants);
        if taken > 1 {
            assert_eq!(grown.free_ants + taken * ANTS_PER_CELL, ants);
        } else {
            assert_eq!(taken, 1);
            assert_eq!(grown.free_ants, ants.saturating_sub(ANTS_PER_CELL));
        }
    }
}

#[test]
fn depleted_and_empty_cells_are_no_targets() {
    let (mut board, mut state) = egg_chain(5, &[1, 3], 50);
    state.resources[1] = 0;
    board.types[3] = CellType::Empty;
    assert_eq!(nearest_resource(&board, &state, &vec![0]), None);
    board.types[3] = CellType::Crystal;
    assert_eq!(nearest_resource(&board, &state, &vec![0]), Some(vec![3, 2, 1]));
}

#[test]
fn nearest_resource_finds_nothing_on_a_bare_board() {
    let (board, state) = egg_chain(5, &[], 50);
    assert_eq!(nearest_resource(&board, &state, &vec![0]), None);
    assert_eq!(nearest_resource(&board, &state, &vec![3, 1]), None);
}

#[test]
fn settle_path_applies_the_rule() {
    assert_eq!(ANTS_PER_CELL, 2);
    assert_eq!(settle_path(2, 4, true), Some(0));
    assert_eq!(settle_path(2, 4, false), Some(0));
    assert_eq!(settle_path(1, 5, true), Some(3));
    assert_eq!(settle_path(2, 3, true), None);
    assert_eq!(settle_path(2, 3, false), Some(0));
    assert_eq!(settle_path(3, 0, false), Some(0));
    assert_eq!(settle_path(1, 0, true), None);
    assert_eq!(settle_path(usize::MAX, usize::MAX, true), None);
    assert_eq!(settle_path(usize::MAX / 2, usize::MAX, true), Some(1));
}

#[test]
fn planning_twice_gives_the_same_plan() {
    let (board, mut state) = egg_chain(9, &[1, 2, 4, 8], 11);
    state.opp_ants[2] = 4;
    state.opp_ants[4] = 9;
    let first = plan_turn(&board, &state);
    let second = plan_turn(&board, &state);
    assert_eq!(first, second);
    assert_eq!(expand(&board, &state, &[0]), expand(&board, &state, &[0]));
    assert_eq!(strengths(&first), vec![(0, 2), (1, 2), (2, 4), (4, 2), (3, 2)]);
}

#[test]
fn growth_takes_ties_in_slot_order() {
    // Eggs on both neighbours of the base; slot order decides which comes first.
    let board = Board {
        types: vec![CellType::Empty, CellType::Egg, CellType::Egg],
        neighbours: vec![row(&[2, 1]), row(&[0]), row(&[0])],
        my_bases: vec![0],
        opp_bases: vec![1],
    };
    let state = TurnState { resources: vec![0, 1, 1], my_ants: vec![3, 0, 0], opp_ants: vec![0; 3] };
    assert_eq!(expand(&board, &state, &[0]), Expansion { controlled: vec![0, 2], free_ants: 1 });
    let state = TurnState { resources: vec![0, 1, 1], my_ants: vec![4, 0, 0], opp_ants: vec![0; 3] };
    assert_eq!(expand(&board, &state, &[0]), Expansion { controlled: vec![0, 2, 1], free_ants: 0 });
}
