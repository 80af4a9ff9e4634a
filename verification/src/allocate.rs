//! Beacon strengths for the controlled footprint.

use vstd::prelude::*;
use crate::board::TurnState;
use crate::expand::ANTS_PER_CELL;

verus! {

/// A directive to gather ants on a cell.
#[derive(Debug, Clone, Copy, PartialEq, Eq, Structural)]
pub struct Beacon {
    /// The cell.
    pub index: usize,
    /// How many ants the cell should draw; at least one.
    pub strength: usize,
    /// The resources on the cell when the beacon was planned.
    pub resources: usize,
    /// The opponent's ants on the cell when the beacon was planned.
    pub opp_ants: usize,
}

/// Every listed cell has an entry in the snapshot.
pub open spec fn covers(state: &TurnState, controlled: Seq<usize>) -> bool {
    forall|i: int|
        0 <= i < controlled.len() ==> (#[trigger] controlled[i]) < state.resources@.len()
            && controlled[i] < state.opp_ants@.len()
}

/// The ants by which the opponent outnumbers a default beacon on cell `c`.
pub open spec fn deficit(state: &TurnState, c: usize) -> int {
    state.opp_ants@[c as int] - ANTS_PER_CELL
}

/// With `balance` ants to spare, the beacon on cell `c` is raised: the cell
/// still holds resources, the opponent outnumbers the default, and the balance
/// covers the whole deficit.
pub open spec fn reinforced(state: &TurnState, c: usize, balance: int) -> bool {
    &&& state.resources@[c as int] > 0
    &&& state.opp_ants@[c as int] > ANTS_PER_CELL
    &&& deficit(state, c) <= balance
}

/// The ants still to spare when the beacon at position `i` is considered, out
/// of `free_ants` at the start.
pub open spec fn reserve_at(controlled: Seq<usize>, state: &TurnState, free_ants: int, i: int) -> int
    decreases i,
{
    if i <= 0 {
        free_ants
    } else {
        let earlier = reserve_at(controlled, state, free_ants, i - 1);
        let c = controlled[i - 1];
        if reinforced(state, c, earlier) {
            earlier - deficit(state, c)
        } else {
            earlier
        }
    }
}

/// The beacon that position `i` of the footprint gets.
pub open spec fn beacon_at(controlled: Seq<usize>, state: &TurnState, free_ants: int, i: int) -> Beacon {
    let c = controlled[i];
    Beacon {
        index: c,
        strength: if reinforced(state, c, reserve_at(controlled, state, free_ants, i)) {
            state.opp_ants@[c as int]
        } else {
            ANTS_PER_CELL
        },
        resources: state.resources@[c as int],
        opp_ants: state.opp_ants@[c as int],
    }
}

/// `beacons` is the allocation for `controlled`: one beacon per cell, in
/// order, each as `beacon_at` gives it.
pub open spec fn is_allocation(
    controlled: Seq<usize>,
    state: &TurnState,
    free_ants: int,
    beacons: Seq<Beacon>,
) -> bool {
    &&& beacons.len() == controlled.len()
    &&& forall|i: int|
        0 <= i < beacons.len() ==> #[trigger] beacons[i] == beacon_at(controlled, state, free_ants, i)
}

/// Allocating twice from the same footprint, snapshot and balance gives the
/// same beacons.
pub proof fn allocation_is_determined(
    controlled: Seq<usize>,
    state: &TurnState,
    free_ants: int,
    first: Seq<Beacon>,
    second: Seq<Beacon>,
)
    requires
        is_allocation(controlled, state, free_ants, first),
        is_allocation(controlled, state, free_ants, second),
    ensures
        first == second,
{
}

/// The reserve never goes below zero and never grows.
pub proof fn reserve_is_bounded(controlled: Seq<usize>, state: &TurnState, free_ants: int, i: int)
    requires
        free_ants >= 0,
    ensures
        0 <= reserve_at(controlled, state, free_ants, i) <= free_ants,
    decreases i,
{
    if i > 0 {
        reserve_is_bounded(controlled, state, free_ants, i - 1);
    }
}

/// Gives every controlled cell a beacon of the default strength, then goes
/// through them in order and raises each contested one to the opponent's count
/// where the ants to spare cover the whole difference.
pub fn allocate(controlled: &[usize], state: &TurnState, free_ants: usize) -> (beacons: Vec<Beacon>)
    requires
        covers(state, controlled@),
    ensures
        is_allocation(controlled@, state, free_ants as int, beacons@),
        forall|i: int| 0 <= i < beacons@.len() ==> (#[trigger] beacons@[i]).strength >= ANTS_PER_CELL,
{
    let mut beacons: Vec<Beacon> = Vec::new();
    let mut k: usize = 0;
    while k < controlled.len()
        invariant
            k <= controlled@.len(),
            covers(state, controlled@),
            beacons@.len() == k,
            forall|i: int|
                0 <= i < k ==> #[trigger] beacons@[i] == (Beacon {
                    index: controlled@[i],
                    strength: ANTS_PER_CELL,
                    resources: state.resources@[controlled@[i] as int],
                    opp_ants: state.opp_ants@[controlled@[i] as int],
                }),
        decreases controlled@.len() - k,
    {
        let c = controlled[k];
        beacons.push(
            Beacon {
                index: c,
                strength: ANTS_PER_CELL,
                resources: state.resources[c],
                opp_ants: state.opp_ants[c],
            },
        );
        k += 1;
    }
    let mut free_ants = free_ants;
    let ghost pool = free_ants as int;
    let mut k: usize = 0;
    while k < beacons.len()
        invariant
            k <= beacons@.len(),
            beacons@.len() == controlled@.len(),
            covers(state, controlled@),
            free_ants == reserve_at(controlled@, state, pool, k as int),
            forall|i: int| 0 <= i < k ==> #[trigger] beacons@[i] == beacon_at(controlled@, state, pool, i),
            forall|i: int|
                k <= i < beacons@.len() ==> #[trigger] beacons@[i] == (Beacon {
                    index: controlled@[i],
                    strength: ANTS_PER_CELL,
                    resources: state.resources@[controlled@[i] as int],
                    opp_ants: state.opp_ants@[controlled@[i] as int],
                }),
        decreases beacons@.len() - k,
    {
        let mut b = beacons[k];
        if b.strength < b.opp_ants && b.resources > 0 {
            let diff = b.opp_ants - b.strength;
            if free_ants >= diff {
                b.strength += diff;
                free_ants -= diff;
                beacons[k] = b;
            }
        }
        k += 1;
    }
    beacons
}

} // verus!
