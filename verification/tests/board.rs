use ant_planner::board::{link_from_code, Board, CellType, TurnState};

fn row(links: &[usize]) -> [Option<usize>; 6] {
    let mut out = [None; 6];
    for (k, &l) in links.iter().enumerate() {
        out[k] = Some(l);
    }
    out
}

fn triangle() -> Board {
    Board {
        types: vec![CellType::Empty, CellType::Egg, CellType::Crystal],
        neighbours: vec![row(&[1, 2]), row(&[0, 2]), row(&[0, 1])],
        my_bases: vec![0],
        opp_bases: vec![2],
    }
}

#[test]
fn type_codes_decode() {
    assert_eq!(CellType::from_code(0), Some(CellType::Empty));
    assert_eq!(CellType::from_code(1), Some(CellType::Egg));
    assert_eq!(CellType::from_code(2), Some(CellType::Crystal));
    assert_eq!(CellType::from_code(3), None);
    assert_eq!(CellType::from_code(-1), None);
    assert_eq!(CellType::from_code(i32::MAX), None);
}

#[test]
fn neighbour_codes_decode() {
    assert_eq!(link_from_code(-1, 5), Some(None));
    assert_eq!(link_from_code(i32::MIN, 5), Some(None));
    assert_eq!(link_from_code(0, 5), Some(Some(0)));
    assert_eq!(link_from_code(4, 5), Some(Some(4)));
    assert_eq!(link_from_code(5, 5), None);
    assert_eq!(link_from_code(0, 0), None);
}

#[test]
fn sound_board_is_well_formed() {
    let board = triangle();
    assert!(board.has_sound_graph());
    assert!(board.is_well_formed());
}

#[test]
fn link_off_the_board_is_refused() {
    let mut board = triangle();
    board.neighbours[1][5] = Some(3);
    assert!(!board.has_sound_graph());
    assert!(!board.is_well_formed());
}

#[test]
fn missing_neighbour_row_is_refused() {
    let mut board = triangle();
    board.neighbours.pop();
    assert!(!board.has_sound_graph());
    assert!(!board.is_well_formed());
}

#[test]
fn bases_must_be_cells_and_distinct() {
    let mut board = triangle();
    board.my_bases = vec![0, 1, 0];
    assert!(!board.is_well_formed());
    board.my_bases = vec![0, 3];
    assert!(!board.is_well_formed());
    board.my_bases = vec![];
    assert!(!board.is_well_formed());
    board.my_bases = vec![2, 1];
    assert!(board.is_well_formed());
    board.opp_bases = vec![7];
    assert!(!board.is_well_formed());
    board.opp_bases = vec![];
    assert!(!board.is_well_formed());
}

#[test]
fn distinct_cells_are_told_from_repeated_ones() {
    let board = triangle();
    assert!(board.lists_distinct_cells(&[]));
    assert!(board.lists_distinct_cells(&[2, 0, 1]));
    assert!(!board.lists_distinct_cells(&[2, 0, 2]));
    assert!(!board.lists_distinct_cells(&[3]));
}

#[test]
fn snapshot_must_have_one_entry_per_cell() {
    let board = triangle();
    let mut state = TurnState { resources: vec![0; 3], my_ants: vec![0; 3], opp_ants: vec![0; 3] };
    assert!(state.fits_board(&board));
    state.opp_ants.push(0);
    assert!(!state.fits_board(&board));
    state.opp_ants.pop();
    state.resources.pop();
    assert!(!state.fits_board(&board));
}

#[test]
fn ants_are_counted_over_all_cells() {
    let mut state = TurnState { resources: vec![0; 3], my_ants: vec![4, 0, 6], opp_ants: vec![9; 3] };
    assert_eq!(state.total_ants(), Some(10));
    state.my_ants = vec![];
    assert_eq!(state.total_ants(), Some(0));
    state.my_ants = vec![usize::MAX - 1, 1];
    assert_eq!(state.total_ants(), Some(usize::MAX));
    state.my_ants = vec![usize::MAX - 1, 1, 1];
    assert_eq!(state.total_ants(), None);
}

#[test]
fn one_way_link_is_refused() {
    let mut board = triangle();
    assert!(board.is_symmetric());
    assert!(board.links_to(0, 2));
    assert!(!board.links_to(0, 0));
    board.neighbours[2] = row(&[1]);
    assert!(board.has_sound_graph());
    assert!(board.links_to(0, 2));
    assert!(!board.links_to(2, 0));
    assert!(!board.is_symmetric());
    assert!(!board.is_well_formed());
}

#[test]
fn links_may_stand_in_any_slot() {
    let mut board = triangle();
    board.neighbours[0] = [None, Some(2), None, None, None, Some(1)];
    assert!(board.links_to(0, 1));
    assert!(board.links_to(0, 2));
    assert!(board.is_well_formed());
}
