use ant_planner::allocate::{allocate, Beacon};
use ant_planner::board::TurnState;
use ant_planner::command::{push_decimal, push_directive, render_commands};

fn snapshot(resources: &[usize], opp_ants: &[usize]) -> TurnState {
    TurnState {
        resources: resources.to_vec(),
        my_ants: vec![0; resources.len()],
        opp_ants: opp_ants.to_vec(),
    }
}

fn strengths_of(beacons: &[Beacon]) -> Vec<usize> {
    beacons.iter().map(|b| b.strength).collect()
}

#[test]
fn uncontested_cells_get_the_default_strength() {
    let state = snapshot(&[0, 4, 9], &[0, 1, 2]);
    let beacons = allocate(&[2, 0, 1], &state, 100);
    assert_eq!(
        beacons,
        vec![
            Beacon { index: 2, strength: 2, resources: 9, opp_ants: 2 },
            Beacon { index: 0, strength: 2, resources: 0, opp_ants: 0 },
            Beacon { index: 1, strength: 2, resources: 4, opp_ants: 1 },
        ]
    );
}

#[test]
fn allocation_is_repeatable() {
    let state = snapshot(&[5, 5, 5, 0], &[7, 3, 9, 30]);
    let first = allocate(&[3, 2, 1, 0], &state, 8);
    let second = allocate(&[3, 2, 1, 0], &state, 8);
    assert_eq!(first, second);
    assert_eq!(strengths_of(&first), vec![2, 9, 3, 2]);
}

#[test]
fn reinforcement_is_whole_or_not_at_all() {
    // Deficits 8 and 3 with 5 ants to spare: the first is skipped, the second paid.
    let state = snapshot(&[1, 1], &[10, 5]);
    assert_eq!(strengths_of(&allocate(&[0, 1], &state, 5)), vec![2, 5]);
    assert_eq!(strengths_of(&allocate(&[0, 1], &state, 7)), vec![2, 5]);
    assert_eq!(strengths_of(&allocate(&[0, 1], &state, 8)), vec![10, 2]);
    assert_eq!(strengths_of(&allocate(&[0, 1], &state, 11)), vec![10, 5]);
    assert_eq!(strengths_of(&allocate(&[0, 1], &state, 2)), vec![2, 2]);
}

#[test]
fn reinforcement_goes_in_footprint_order() {
    let state = snapshot(&[1, 1], &[6, 6]);
    assert_eq!(strengths_of(&allocate(&[0, 1], &state, 4)), vec![6, 2]);
    assert_eq!(strengths_of(&allocate(&[1, 0], &state, 4)), vec![6, 2]);
    assert_eq!(allocate(&[1, 0], &state, 4)[0].index, 1);
}

#[test]
fn depleted_cells_are_not_reinforced() {
    let state = snapshot(&[0, 3], &[9, 9]);
    assert_eq!(strengths_of(&allocate(&[0, 1], &state, 100)), vec![2, 9]);
}

#[test]
fn empty_footprint_gives_no_beacons() {
    let state = snapshot(&[1], &[1]);
    assert_eq!(allocate(&[], &state, 3), vec![]);
}

#[test]
fn every_strength_is_at_least_one() {
    let state = snapshot(&[1, 0, 2, 3], &[0, 50, 3, 1000]);
    for spare in 0..12 {
        for b in allocate(&[0, 1, 2, 3], &state, spare) {
            assert!(b.strength >= 1);
        }
    }
}

#[test]
fn command_line_joins_directives_with_semicolons() {
    let beacons = vec![
        Beacon { index: 0, strength: 2, resources: 0, opp_ants: 0 },
        Beacon { index: 1, strength: 2, resources: 0, opp_ants: 0 },
        Beacon { index: 2, strength: 5, resources: 10, opp_ants: 5 },
    ];
    assert_eq!(render_commands(&beacons), b"BEACON 0 2;BEACON 1 2;BEACON 2 5".to_vec());
    assert_eq!(render_commands(&beacons[..1]), b"BEACON 0 2".to_vec());
    assert_eq!(render_commands(&[]), Vec::<u8>::new());
}

#[test]
fn directive_holds_index_and_strength() {
    let mut out = b"x".to_vec();
    push_directive(&mut out, &Beacon { index: 107, strength: 40, resources: 1, opp_ants: 99 });
    assert_eq!(out, b"xBEACON 107 40".to_vec());
}

#[test]
fn decimal_digits_are_written_in_order() {
    for n in [0usize, 7, 9, 10, 11, 99, 100, 1234567890, usize::MAX] {
        let mut out = Vec::new();
        push_decimal(&mut out, n);
        assert_eq!(out, format!("{}", n).into_bytes());
    }
}
