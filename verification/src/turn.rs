//! One turn of planning: grow the footprint, then set the beacons.

use vstd::prelude::*;
use crate::allocate::{allocate, allocation_is_determined, is_allocation, Beacon};
use crate::board::{Board, TurnState};
use crate::expand::{expand, expansion_is_determined, is_expansion};

verus! {

/// `beacons` is a plan for the turn: the allocation for a footprint that
/// growth from the colony's bases may end in, made with the ants that the
/// growth left over.
pub open spec fn is_plan(board: &Board, state: &TurnState, beacons: Seq<Beacon>) -> bool {
    exists|controlled: Seq<usize>, free_ants: int|
        {
            &&& #[trigger] is_expansion(
                board,
                state,
                board.my_bases@,
                state.ant_pool(),
                controlled,
                free_ants,
            )
            &&& is_allocation(controlled, state, free_ants, beacons)
        }
}

/// The plan is determined: a board and a snapshot have one plan only.
pub proof fn plan_is_determined(
    board: &Board,
    state: &TurnState,
    first: Seq<Beacon>,
    second: Seq<Beacon>,
)
    requires
        is_plan(board, state, first),
        is_plan(board, state, second),
    ensures
        first == second,
{
    let (grown_a, left_a) = choose|controlled: Seq<usize>, free_ants: int|
        {
            &&& #[trigger] is_expansion(
                board,
                state,
                board.my_bases@,
                state.ant_pool(),
                controlled,
                free_ants,
            )
            &&& is_allocation(controlled, state, free_ants, first)
        };
    let (grown_b, left_b) = choose|controlled: Seq<usize>, free_ants: int|
        {
            &&& #[trigger] is_expansion(
                board,
                state,
                board.my_bases@,
                state.ant_pool(),
                controlled,
                free_ants,
            )
            &&& is_allocation(controlled, state, free_ants, second)
        };
    expansion_is_determined(
        board,
        state,
        board.my_bases@,
        state.ant_pool(),
        grown_a,
        left_a,
        grown_b,
        left_b,
    );
    allocation_is_determined(grown_a, state, left_a, first, second);
}

/// Plans the turn: grows the footprint from the colony's bases and gives each
/// of its cells a beacon.
pub fn plan_turn(board: &Board, state: &TurnState) -> (beacons: Vec<Beacon>)
    requires
        board.wf(),
        state.fits(board),
        state.ant_pool() <= usize::MAX,
    ensures
        is_plan(board, state, beacons@),
        beacons@.len() >= board.my_bases@.len(),
        beacons@.len() <= board.cell_count(),
        forall|i: int| 0 <= i < beacons@.len() ==> (#[trigger] beacons@[i]).strength >= 1,
        forall|i: int|
            0 <= i < board.my_bases@.len() ==> (#[trigger] beacons@[i]).index == board.my_bases@[i],
{
    let grown = expand(board, state, board.my_bases.as_slice());
    let beacons = allocate(grown.controlled.as_slice(), state, grown.free_ants);
    proof {
        assert forall|i: int| 0 <= i < board.my_bases@.len() implies (#[trigger] beacons@[i]).index
            == board.my_bases@[i] by {
            assert(grown.controlled@.take(board.my_bases@.len() as int)[i] == grown.controlled@[i]);
        }
    }
    beacons
}

} // verus!
