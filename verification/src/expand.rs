//! Greedy growth of the controlled footprint under the ant budget.

use vstd::prelude::*;
use vstd::set_lib::*;
use crate::board::{Board, CellType, TurnState};
use crate::search::{discovery_order, find_nearest_cell_multi, is_first_link, is_route, is_trail, reached_from};

verus! {

/// The ants that holding one more cell takes; also the strength of an
/// unreinforced beacon.
pub const ANTS_PER_CELL: usize = 2;

/// The footprint after growth, and the ants that growing it left unspent.
#[derive(Debug, Clone, PartialEq, Eq)]
pub struct Expansion {
    /// The controlled cells: the bases first, then each admitted path in turn.
    pub controlled: Vec<usize>,
    /// The ants left over.
    pub free_ants: usize,
}

/// `target` is the first cell in the discovery order from `controlled` that
/// lies outside it and is worth walking to.
pub open spec fn is_first_wanted(
    board: &Board,
    state: &TurnState,
    controlled: Seq<usize>,
    target: usize,
) -> bool {
    let order = discovery_order(board, controlled);
    exists|h: int|
        0 <= h < order.len() && #[trigger] order[h] == target && forall|k: int|
            0 <= k < h ==> controlled.contains(#[trigger] order[k]) || !state.qualifies(board, order[k])
}

/// `path` is the catch that a search from `controlled` makes: a shortest
/// route to a cell outside it that is worth walking to, through fresh cells
/// only; of the nearest such cells it ends in the one discovered first, and it
/// leads back the way the search came.
pub open spec fn is_nearest_catch(
    board: &Board,
    state: &TurnState,
    controlled: Seq<usize>,
    path: Seq<usize>,
) -> bool {
    &&& is_route(board, controlled, path)
    &&& path.no_duplicates()
    &&& forall|i: int| 0 <= i < path.len() ==> !controlled.contains(#[trigger] path[i])
    &&& state.qualifies(board, path[0])
    &&& is_first_wanted(board, state, controlled, path[0])
    &&& is_trail(board, controlled, discovery_order(board, controlled), path)
    &&& forall|other: Seq<usize>|
        #[trigger] is_route(board, controlled, other) && !controlled.contains(other[0])
            && state.qualifies(board, other[0]) ==> other.len() >= path.len()
}

/// No route from `controlled` of at most `reach` hops ends in a cell outside it
/// that is worth walking to.
pub open spec fn nothing_within(
    board: &Board,
    state: &TurnState,
    controlled: Seq<usize>,
    reach: int,
) -> bool {
    forall|other: Seq<usize>|
        #[trigger] is_route(board, controlled, other) && !controlled.contains(other[0])
            && other.len() <= reach ==> !state.qualifies(board, other[0])
}

/// No route from `controlled`, however long, ends in a cell outside it that
/// is worth walking to.
pub open spec fn nothing_in_reach(board: &Board, state: &TurnState, controlled: Seq<usize>) -> bool {
    forall|other: Seq<usize>|
        #[trigger] is_route(board, controlled, other) && !controlled.contains(other[0])
            ==> !state.qualifies(board, other[0])
}

/// `cells` may serve as a footprint on `board`: it is not empty, every entry
/// is a cell, and none is listed twice.
pub open spec fn is_footprint(board: &Board, cells: Seq<usize>) -> bool {
    &&& cells.len() > 0
    &&& forall|i: int| 0 <= i < cells.len() ==> #[trigger] cells[i] < board.cell_count()
    &&& cells.no_duplicates()
}

/// Searches from the footprint for the nearest cell outside it that is not
/// empty and still holds resources, and gives the catch: the shortest route
/// to it, target first. `None` means that no such cell can be reached.
pub fn nearest_resource(board: &Board, state: &TurnState, controlled: &Vec<usize>) -> (found: Option<
    Vec<usize>,
>)
    requires
        board.graph_wf(),
        state.fits(board),
        controlled@.len() > 0,
        forall|i: int| 0 <= i < controlled@.len() ==> #[trigger] controlled@[i] < board.cell_count(),
    ensures
        match found {
            Some(path) => is_nearest_catch(board, state, controlled@, path@),
            None => nothing_in_reach(board, state, controlled@),
        },
        (forall|c: usize| !state.qualifies(board, c)) ==> found is None,
{
    let wanted = |i: usize| -> (yes: bool)
        requires
            i < board.cell_count(),
            state.fits(board),
        ensures
            yes == state.qualifies(board, i),
        {
            !matches!(board.types[i], CellType::Empty) && state.resources[i] > 0
        };
    find_nearest_cell_multi(board, controlled.as_slice(), &wanted)
}

/// The admission rule: a path of `path_len` cells is taken if the balance pays
/// for it, or if nothing was annexed yet.
pub open spec fn admits(path_len: int, free_ants: int, annexed: bool) -> bool {
    ANTS_PER_CELL * path_len <= free_ants || !annexed
}

/// The balance after a path of `path_len` cells was taken: its cost is
/// deducted as far as the balance goes.
pub open spec fn balance_after(path_len: int, free_ants: int) -> int {
    if ANTS_PER_CELL * path_len <= free_ants {
        free_ants - ANTS_PER_CELL * path_len
    } else {
        0
    }
}

/// Decides on a discovered path of `path_len` cells. `Some` holds the new
/// balance where the path is admitted; `None` means that growth stops.
pub fn settle_path(path_len: usize, free_ants: usize, annexed: bool) -> (decision: Option<usize>)
    ensures
        decision == if admits(path_len as int, free_ants as int, annexed) {
            Some(balance_after(path_len as int, free_ants as int) as usize)
        } else {
            None
        },
{
    if path_len <= free_ants / ANTS_PER_CELL {
        Some(free_ants - path_len * ANTS_PER_CELL)
    } else if !annexed {
        Some(0)
    } else {
        None
    }
}

/// The balance once `admitted` cells beyond the bases are held, out of a pool
/// of `pool` ants.
pub open spec fn balance_left(pool: int, admitted: int) -> int {
    if ANTS_PER_CELL * admitted <= pool {
        pool - ANTS_PER_CELL * admitted
    } else {
        0
    }
}

/// Round `r` of the growth that `cuts` describes appended a nearest catch of
/// the footprint as it then was, and, unless it was the first round, it was
/// paid for in full out of `pool`.
pub open spec fn round_is_greedy(
    board: &Board,
    state: &TurnState,
    bases: Seq<usize>,
    pool: int,
    controlled: Seq<usize>,
    cuts: Seq<int>,
    r: int,
) -> bool {
    &&& 0 <= cuts[r] < cuts[r + 1] <= controlled.len()
    &&& is_nearest_catch(
        board,
        state,
        controlled.take(cuts[r]),
        controlled.subrange(cuts[r], cuts[r + 1]),
    )
    &&& r > 0 ==> ANTS_PER_CELL * (cuts[r + 1] - bases.len()) <= pool
}

/// `controlled` grew out of `bases` round by round, `cuts` giving its length
/// before each round and after the last, and every round was greedy.
pub open spec fn greedy_growth(
    board: &Board,
    state: &TurnState,
    bases: Seq<usize>,
    pool: int,
    controlled: Seq<usize>,
    cuts: Seq<int>,
) -> bool {
    &&& cuts.len() >= 1
    &&& cuts[0] == bases.len()
    &&& cuts.last() == controlled.len()
    &&& bases.len() <= controlled.len()
    &&& controlled.take(bases.len() as int) == bases
    &&& forall|r: int|
        0 <= r < cuts.len() - 1 ==> #[trigger] round_is_greedy(
            board,
            state,
            bases,
            pool,
            controlled,
            cuts,
            r,
        )
}

/// What growth from `bases` with `pool` ants may end in: a footprint grown
/// greedily, the balance that its cells leave, and nothing more that the rule
/// would take.
pub open spec fn is_expansion(
    board: &Board,
    state: &TurnState,
    bases: Seq<usize>,
    pool: int,
    controlled: Seq<usize>,
    free_ants: int,
) -> bool {
    &&& is_footprint(board, controlled)
    &&& controlled.len() <= board.cell_count()
    &&& exists|cuts: Seq<int>| greedy_growth(board, state, bases, pool, controlled, cuts)
    &&& free_ants == balance_left(pool, controlled.len() - bases.len())
    &&& if controlled.len() == bases.len() {
        nothing_in_reach(board, state, controlled)
    } else {
        nothing_within(board, state, controlled, free_ants / (ANTS_PER_CELL as int))
    }
}

/// The cells with an index below `n`.
spec fn cells_below(n: nat) -> Set<usize> {
    Set::new(|c: usize| (c as nat) < n)
}

/// There are `n` cells with an index below `n`.
proof fn cells_below_len(n: nat)
    requires
        n <= usize::MAX + 1,
    ensures
        cells_below(n).finite(),
        cells_below(n).len() == n,
    decreases n,
{
    if n == 0 {
        assert(cells_below(0) =~= Set::empty());
    } else {
        cells_below_len((n - 1) as nat);
        assert(cells_below(n) =~= cells_below((n - 1) as nat).insert((n - 1) as usize));
    }
}

/// A footprint never lists more cells than the board has.
pub proof fn footprint_fits_board(board: &Board, cells: Seq<usize>)
    requires
        is_footprint(board, cells),
    ensures
        cells.len() <= board.cell_count(),
{
    let n = board.cell_count();
    assert(n == board.types.len());
    cells_below_len(n);
    cells.unique_seq_to_set();
    assert(cells.to_set().subset_of(cells_below(n))) by {
        assert forall|c: usize| cells.to_set().contains(c) implies cells_below(n).contains(c) by {
            let i = choose|i: int| 0 <= i < cells.len() && cells[i] == c;
            assert(cells[i] < n);
        }
    }
    lemma_len_subset(cells.to_set(), cells_below(n));
}

/// Two trails that start in the same cell and are equally long hold the same
/// cells up to position `i`.
proof fn trails_agree(
    board: &Board,
    from: Seq<usize>,
    order: Seq<usize>,
    first: Seq<usize>,
    second: Seq<usize>,
    i: int,
)
    requires
        is_trail(board, from, order, first),
        is_trail(board, from, order, second),
        first[0] == second[0],
        first.len() == second.len(),
        0 <= i < first.len(),
    ensures
        first[i] == second[i],
    decreases i,
{
    if i > 0 {
        trails_agree(board, from, order, first, second, i - 1);
        let c = first[i - 1];
        assert(reached_from(board, order, c, first[(i - 1) + 1]));
        assert(reached_from(board, order, c, second[(i - 1) + 1]));
        let ha = choose|h: int| #[trigger] is_first_link(board, order, h, c) && order[h] == first[i];
        let hb = choose|h: int| #[trigger] is_first_link(board, order, h, c) && order[h] == second[i];
        assert(ha == hb) by {
            if ha < hb {
                assert(board.adjacent(order[ha], c));
            } else if hb < ha {
                assert(board.adjacent(order[hb], c));
            }
        }
    }
}

/// The catch is determined: a footprint has at most one.
pub proof fn catch_is_determined(
    board: &Board,
    state: &TurnState,
    controlled: Seq<usize>,
    first: Seq<usize>,
    second: Seq<usize>,
)
    requires
        is_nearest_catch(board, state, controlled, first),
        is_nearest_catch(board, state, controlled, second),
    ensures
        first == second,
{
    let order = discovery_order(board, controlled);
    let ha = choose|h: int|
        0 <= h < order.len() && #[trigger] order[h] == first[0] && forall|k: int|
            0 <= k < h ==> controlled.contains(#[trigger] order[k]) || !state.qualifies(board, order[k]);
    let hb = choose|h: int|
        0 <= h < order.len() && #[trigger] order[h] == second[0] && forall|k: int|
            0 <= k < h ==> controlled.contains(#[trigger] order[k]) || !state.qualifies(board, order[k]);
    assert(ha == hb) by {
        if ha < hb {
            assert(controlled.contains(order[ha]) || !state.qualifies(board, order[ha]));
        } else if hb < ha {
            assert(controlled.contains(order[hb]) || !state.qualifies(board, order[hb]));
        }
    }
    nearest_catch_is_shortest(board, state, controlled, first, second);
    assert forall|i: int| 0 <= i < first.len() implies first[i] == second[i] by {
        trails_agree(board, controlled, order, first, second, i);
    }
    assert(first =~= second);
}

/// Where a nearest catch exists, something is in reach, and all nearest
/// catches are equally long: no route to a wanted cell outside the footprint
/// is shorter than any of them.
pub proof fn nearest_catch_is_shortest(
    board: &Board,
    state: &TurnState,
    controlled: Seq<usize>,
    first: Seq<usize>,
    second: Seq<usize>,
)
    requires
        is_nearest_catch(board, state, controlled, first),
        is_nearest_catch(board, state, controlled, second),
    ensures
        first.len() == second.len(),
        !nothing_in_reach(board, state, controlled),
{
}

/// Growth keeps the bases and stays on the board: the footprint it ends in
/// starts with the bases in their order, holds each of them, and lists no more
/// cells than the board has.
pub proof fn expansion_keeps_bases(
    board: &Board,
    state: &TurnState,
    bases: Seq<usize>,
    pool: int,
    controlled: Seq<usize>,
    free_ants: int,
)
    requires
        is_expansion(board, state, bases, pool, controlled, free_ants),
    ensures
        controlled.len() <= board.cell_count(),
        bases.len() <= controlled.len(),
        forall|i: int| 0 <= i < bases.len() ==> controlled[i] == #[trigger] bases[i],
        forall|b: usize| bases.contains(b) ==> #[trigger] controlled.contains(b),
{
    assert forall|i: int| 0 <= i < bases.len() implies controlled[i] == #[trigger] bases[i] by {
        assert(controlled.take(bases.len() as int)[i] == controlled[i]);
    }
    assert forall|b: usize| bases.contains(b) implies #[trigger] controlled.contains(b) by {
        let i = choose|i: int| 0 <= i < bases.len() && bases[i] == b;
        assert(controlled[i] == bases[i]);
    }
}

/// Growth never spends more than the pool held, and the cost of the cells it
/// took stays within the pool too, unless all of them came in the first round,
/// which is taken whatever it costs.
pub proof fn spending_stays_in_budget(
    board: &Board,
    state: &TurnState,
    bases: Seq<usize>,
    pool: int,
    controlled: Seq<usize>,
    free_ants: int,
)
    requires
        pool >= 0,
        is_expansion(board, state, bases, pool, controlled, free_ants),
    ensures
        0 <= pool - free_ants <= pool,
        ANTS_PER_CELL * (controlled.len() - bases.len()) <= pool || is_nearest_catch(
            board,
            state,
            bases,
            controlled.subrange(bases.len() as int, controlled.len() as int),
        ),
{
    let cuts = choose|cuts: Seq<int>| greedy_growth(board, state, bases, pool, controlled, cuts);
    if cuts.len() > 2 {
        assert(round_is_greedy(board, state, bases, pool, controlled, cuts, cuts.len() - 2));
    } else if cuts.len() == 2 {
        assert(round_is_greedy(board, state, bases, pool, controlled, cuts, 0));
    }
}

/// Two growths from the same bases agree as far as both go: after the same
/// number of rounds they hold the same cells.
proof fn growths_agree(
    board: &Board,
    state: &TurnState,
    bases: Seq<usize>,
    pool: int,
    first: Seq<usize>,
    first_cuts: Seq<int>,
    second: Seq<usize>,
    second_cuts: Seq<int>,
    r: int,
)
    requires
        greedy_growth(board, state, bases, pool, first, first_cuts),
        greedy_growth(board, state, bases, pool, second, second_cuts),
        0 <= r < first_cuts.len(),
        r < second_cuts.len(),
    ensures
        first_cuts[r] == second_cuts[r],
        0 <= first_cuts[r] <= first.len(),
        0 <= second_cuts[r] <= second.len(),
        first.take(first_cuts[r]) == second.take(second_cuts[r]),
    decreases r,
{
    if r > 0 {
        growths_agree(board, state, bases, pool, first, first_cuts, second, second_cuts, r - 1);
        assert(round_is_greedy(board, state, bases, pool, first, first_cuts, r - 1));
        assert(round_is_greedy(board, state, bases, pool, second, second_cuts, r - 1));
        let so_far = first.take(first_cuts[r - 1]);
        let a = first.subrange(first_cuts[r - 1], first_cuts[r]);
        let b = second.subrange(second_cuts[r - 1], second_cuts[r]);
        catch_is_determined(board, state, so_far, a, b);
        assert(a.len() == first_cuts[r] - first_cuts[r - 1]);
        assert(b.len() == second_cuts[r] - second_cuts[r - 1]);
        assert(first.take(first_cuts[r]) =~= so_far + a);
        assert(second.take(second_cuts[r]) =~= so_far + b);
    }
}

/// A growth that has stopped is not outdone: another growth from the same
/// bases with at least as many rounds ends in the same footprint.
proof fn stopped_growth_is_whole(
    board: &Board,
    state: &TurnState,
    bases: Seq<usize>,
    pool: int,
    first: Seq<usize>,
    first_cuts: Seq<int>,
    free_ants: int,
    second: Seq<usize>,
    second_cuts: Seq<int>,
)
    requires
        is_expansion(board, state, bases, pool, first, free_ants),
        greedy_growth(board, state, bases, pool, first, first_cuts),
        greedy_growth(board, state, bases, pool, second, second_cuts),
        first_cuts.len() <= second_cuts.len(),
    ensures
        first == second,
{
    let r = first_cuts.len() - 1;
    growths_agree(board, state, bases, pool, first, first_cuts, second, second_cuts, r);
    assert(first.take(first.len() as int) =~= first);
    if second_cuts.len() > first_cuts.len() {
        assert(round_is_greedy(board, state, bases, pool, second, second_cuts, r));
        let more = second.subrange(second_cuts[r], second_cuts[r + 1]);
        assert(is_nearest_catch(board, state, first, more));
        assert(is_route(board, first, more));
        assert(!first.contains(more[0]));
        assert(more.len() == second_cuts[r + 1] - first.len());
        if first.len() != bases.len() {
            assert(r > 0);
            assert(ANTS_PER_CELL * more.len() <= free_ants);
            assert(more.len() <= free_ants / (ANTS_PER_CELL as int));
        }
        assert(false);
    } else {
        assert(second.take(second.len() as int) =~= second);
    }
}

/// Growth is determined: from the same board, snapshot, bases and pool it
/// ends in one footprint and one balance only.
pub proof fn expansion_is_determined(
    board: &Board,
    state: &TurnState,
    bases: Seq<usize>,
    pool: int,
    first: Seq<usize>,
    first_left: int,
    second: Seq<usize>,
    second_left: int,
)
    requires
        is_expansion(board, state, bases, pool, first, first_left),
        is_expansion(board, state, bases, pool, second, second_left),
    ensures
        first == second,
        first_left == second_left,
{
    let first_cuts = choose|cuts: Seq<int>| greedy_growth(board, state, bases, pool, first, cuts);
    let second_cuts = choose|cuts: Seq<int>| greedy_growth(board, state, bases, pool, second, cuts);
    if first_cuts.len() <= second_cuts.len() {
        stopped_growth_is_whole(
            board,
            state,
            bases,
            pool,
            first,
            first_cuts,
            first_left,
            second,
            second_cuts,
        );
    } else {
        stopped_growth_is_whole(
            board,
            state,
            bases,
            pool,
            second,
            second_cuts,
            second_left,
            first,
            first_cuts,
        );
    }
}

/// Grows the footprint from `bases`: as long as the search finds a nearest
/// resource cell and the admission rule takes its path, the path is appended
/// and paid for.
pub fn expand(board: &Board, state: &TurnState, bases: &[usize]) -> (grown: Expansion)
    requires
        board.graph_wf(),
        state.fits(board),
        is_footprint(board, bases@),
        state.ant_pool() <= usize::MAX,
    ensures
        is_expansion(board, state, bases@, state.ant_pool(), grown.controlled@, grown.free_ants as int),
{
    let pool = match state.total_ants() {
        Some(pool) => pool,
        // Ruled out by the precondition on the pool.
        None => 0,
    };
    let mut controlled: Vec<usize> = Vec::new();
    controlled.extend_from_slice(bases);
    let mut free_ants = pool;
    let ghost mut cuts: Seq<int> = seq![bases@.len() as int];
    proof {
        assert(controlled@.take(bases@.len() as int) =~= bases@);
        footprint_fits_board(board, controlled@);
    }
    loop
        invariant
            board.graph_wf(),
            state.fits(board),
            pool == state.ant_pool(),
            is_footprint(board, controlled@),
            controlled@.len() <= board.cell_count(),
            greedy_growth(board, state, bases@, pool as int, controlled@, cuts),
            free_ants == balance_left(pool as int, controlled@.len() - bases@.len()),
        ensures
            is_expansion(board, state, bases@, pool as int, controlled@, free_ants as int),
        decreases board.cell_count() - controlled@.len(),
    {
        let mut path = match nearest_resource(board, state, &controlled) {
            Some(path) => path,
            None => {
                break ;
            },
        };
        let annexed = controlled.len() != bases.len();
        match settle_path(path.len(), free_ants, annexed) {
            Some(balance) => {
                let ghost before = controlled@;
                let ghost added = path@;
                let ghost old_cuts = cuts;
                controlled.append(&mut path);
                free_ants = balance;
                proof {
                    cuts = cuts.push(controlled@.len() as int);
                    assert(controlled@.take(before.len() as int) =~= before);
                    assert(controlled@.take(bases@.len() as int) =~= before.take(bases@.len() as int));
                    assert forall|i: int, j: int|
                        0 <= i < j < controlled@.len() implies controlled@[i] != controlled@[j] by {
                        if i < before.len() <= j {
                            assert(before.contains(controlled@[i]));
                        }
                    }
                    footprint_fits_board(board, controlled@);
                    assert forall|r: int| 0 <= r < cuts.len() - 1 implies #[trigger] round_is_greedy(
                        board,
                        state,
                        bases@,
                        pool as int,
                        controlled@,
                        cuts,
                        r,
                    ) by {
                        if r < old_cuts.len() - 1 {
                            assert(round_is_greedy(board, state, bases@, pool as int, before, old_cuts, r));
                            assert(controlled@.take(cuts[r]) =~= before.take(cuts[r]));
                            assert(controlled@.subrange(cuts[r], cuts[r + 1]) =~= before.subrange(
                                cuts[r],
                                cuts[r + 1],
                            ));
                        } else if r > 0 {
                            assert(round_is_greedy(board, state, bases@, pool as int, before, old_cuts, 0));
                        }
                    }
                }
            },
            None => {
                proof {
                    assert(nothing_within(
                        board,
                        state,
                        controlled@,
                        (free_ants / ANTS_PER_CELL) as int,
                    ));
                }
                break ;
            },
        }
    }
    Expansion { controlled, free_ants }
}

} // verus!
