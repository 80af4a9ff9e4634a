//! Multi-source breadth-first search for the nearest qualifying cell.

use std::collections::VecDeque;
use vstd::prelude::*;
use vstd::set_lib::*;
use crate::board::Board;

verus! {

/// `path` leads from the controlled cells `from` to its first cell: listed
/// target first, each cell one hop from the one after it, and the last cell one
/// hop from a controlled cell. The controlled cell itself is not listed.
pub open spec fn is_route(board: &Board, from: Seq<usize>, path: Seq<usize>) -> bool {
    &&& path.len() > 0
    &&& forall|i: int| 0 <= i < path.len() ==> #[trigger] path[i] < board.cell_count()
    &&& forall|i: int| 0 <= i < path.len() - 1 ==> board.adjacent(#[trigger] path[i + 1], path[i])
    &&& exists|s: usize| #[trigger] from.contains(s) && board.adjacent(s, path.last())
}

/// The cells known once a link has been looked at: the cell it points to is
/// appended unless it is known already.
pub open spec fn note_link(known: Seq<usize>, link: Option<usize>) -> Seq<usize> {
    match link {
        Some(b) => if known.contains(b) {
            known
        } else {
            known.push(b)
        },
        None => known,
    }
}

/// The cells known once the slots of `cell` from `slot` on have been looked
/// at in turn.
pub open spec fn discovered_by(board: &Board, known: Seq<usize>, cell: usize, slot: int) -> Seq<usize>
    decreases 6 - slot,
{
    if slot < 0 || slot >= 6 {
        known
    } else {
        discovered_by(board, note_link(known, board.link(cell as int, slot)), cell, slot + 1)
    }
}

/// The cells known once the cells from position `at` on have been expanded
/// one after the other, in at most `steps` steps.
pub open spec fn explored(board: &Board, known: Seq<usize>, at: int, steps: nat) -> Seq<usize>
    decreases steps,
{
    if steps == 0 || at < 0 || at >= known.len() {
        known
    } else {
        explored(board, discovered_by(board, known, known[at], 0), at + 1, (steps - 1) as nat)
    }
}

/// The order in which a breadth-first search from `from` comes upon the
/// cells: first `from` as it is listed, then, for each cell in turn, what its
/// slots link to and was not come upon before. One step per listed cell and
/// one per cell of the board are enough to get through.
pub open spec fn discovery_order(board: &Board, from: Seq<usize>) -> Seq<usize> {
    explored(board, from, 0, from.len() + board.cell_count())
}

/// Position `h` holds the first cell of `order` that links to `c`.
pub open spec fn is_first_link(board: &Board, order: Seq<usize>, h: int, c: usize) -> bool {
    &&& 0 <= h < order.len()
    &&& board.adjacent(order[h], c)
    &&& forall|k: int| 0 <= k < h ==> !board.adjacent(#[trigger] order[k], c)
}

/// The search reaches `c` from `p`: `p` is the first cell of `order` that
/// links to `c`.
pub open spec fn reached_from(board: &Board, order: Seq<usize>, c: usize, p: usize) -> bool {
    exists|h: int| #[trigger] is_first_link(board, order, h, c) && order[h] == p
}

/// `path` leads back from its first cell the way the search came: each cell
/// is followed by the cell it was reached from, and the last was reached from
/// a cell of `from`.
pub open spec fn is_trail(board: &Board, from: Seq<usize>, order: Seq<usize>, path: Seq<usize>) -> bool {
    &&& path.len() > 0
    &&& forall|i: int|
        0 <= i < path.len() - 1 ==> reached_from(board, order, path[i], #[trigger] path[i + 1])
    &&& exists|s: usize| #[trigger] from.contains(s) && reached_from(board, order, path.last(), s)
}

/// `target` comes before any other cell of `order` that `accept` might take:
/// every cell before it belongs to `from` or was refused.
pub open spec fn is_first_accepted<F: Fn(usize) -> bool>(
    order: Seq<usize>,
    from: Seq<usize>,
    accept: &F,
    target: usize,
) -> bool {
    exists|h: int|
        0 <= h < order.len() && #[trigger] order[h] == target && forall|k: int|
            0 <= k < h ==> from.contains(#[trigger] order[k]) || accept.ensures((order[k],), false)
}

/// `longer` starts with `shorter`.
spec fn extends(longer: Seq<usize>, shorter: Seq<usize>) -> bool {
    &&& shorter.len() <= longer.len()
    &&& forall|i: int| 0 <= i < shorter.len() ==> #[trigger] longer[i] == shorter[i]
}

/// Looking at a cell's slots only appends to what is known.
proof fn discovered_by_extends(board: &Board, known: Seq<usize>, cell: usize, slot: int)
    ensures
        extends(discovered_by(board, known, cell, slot), known),
    decreases 6 - slot,
{
    if 0 <= slot < 6 {
        discovered_by_extends(board, note_link(known, board.link(cell as int, slot)), cell, slot + 1);
    }
}

/// Expanding cells only appends to what is known.
proof fn explored_extends(board: &Board, known: Seq<usize>, at: int, steps: nat)
    ensures
        extends(explored(board, known, at, steps), known),
    decreases steps,
{
    if steps > 0 && 0 <= at < known.len() {
        let next = discovered_by(board, known, known[at], 0);
        discovered_by_extends(board, known, known[at], 0);
        explored_extends(board, next, at + 1, (steps - 1) as nat);
    }
}

/// What a cell was reached from stays the same when the order grows.
proof fn reached_from_carries_over(
    board: &Board,
    known: Seq<usize>,
    order: Seq<usize>,
    c: usize,
    p: usize,
)
    requires
        extends(order, known),
        reached_from(board, known, c, p),
    ensures
        reached_from(board, order, c, p),
{
    let h = choose|h: int| #[trigger] is_first_link(board, known, h, c) && known[h] == p;
    assert(order[h] == known[h]);
    assert forall|k: int| 0 <= k < h implies !board.adjacent(#[trigger] order[k], c) by {
        assert(order[k] == known[k]);
    }
    assert(is_first_link(board, order, h, c));
}

/// The predecessor links form a forest rooted at the controlled cells, and
/// `dist` counts the hops from a root along them.
spec fn forest(
    board: &Board,
    from: Seq<usize>,
    visited: Seq<Option<usize>>,
    dist: Seq<int>,
) -> bool {
    &&& visited.len() == board.cell_count()
    &&& dist.len() == board.cell_count()
    &&& forall|s: usize| #[trigger] from.contains(s) ==> s < visited.len() && visited[s as int] == Some(s)
    &&& forall|c: int|
        0 <= c < visited.len() ==> match #[trigger] visited[c] {
            Some(p) => {
                &&& p < visited.len()
                &&& visited[p as int] is Some
                &&& p == c ==> from.contains(p) && dist[c] == 0
                &&& p != c ==> board.adjacent(p, c as usize) && dist[c] == dist[p as int] + 1
                    && dist[p as int] >= 0
            },
            None => true,
        }
}

/// Every neighbour of a finished cell has been reached, at most one hop
/// further out, and no finished cell outside `from` was accepted.
spec fn settled<F: Fn(usize) -> bool>(
    board: &Board,
    from: Seq<usize>,
    visited: Seq<Option<usize>>,
    dist: Seq<int>,
    done: Set<usize>,
    accept: &F,
) -> bool {
    &&& forall|d: usize| #[trigger]
        done.contains(d) ==> d < visited.len() && visited[d as int] is Some && (!from.contains(d)
            ==> accept.ensures((d,), false))
    &&& forall|d: usize, slot: int|
        done.contains(d) && 0 <= slot < 6 ==> match #[trigger] board.link(d as int, slot) {
            Some(b) => visited[b as int] is Some && dist[b as int] <= dist[d as int] + 1,
            None => true,
        }
}

/// The bookkeeping of the search agrees with the discovery order so far:
/// `known` lists just the reached cells, those before position `at` are
/// finished, and each reached cell outside `from` points at the cell it was
/// reached from.
spec fn recorded(
    board: &Board,
    from: Seq<usize>,
    visited: Seq<Option<usize>>,
    known: Seq<usize>,
    at: int,
    done: Set<usize>,
) -> bool {
    &&& forall|i: int|
        0 <= i < known.len() ==> (#[trigger] known[i]) < visited.len() && visited[known[i] as int] is Some
    &&& forall|c: usize| c < visited.len() && (#[trigger] visited[c as int]) is Some ==> known.contains(c)
    &&& forall|k: int| 0 <= k < at ==> done.contains(#[trigger] known[k])
    &&& forall|c: usize|
        c < visited.len() && !from.contains(c) ==> match #[trigger] visited[c as int] {
            Some(p) => reached_from(board, known, c, p),
            None => true,
        }
}

/// The waiting cells have all been reached, and they wait in the order of
/// their distance.
spec fn in_order(queue: Seq<usize>, visited: Seq<Option<usize>>, dist: Seq<int>) -> bool {
    &&& forall|i: int|
        0 <= i < queue.len() ==> (#[trigger] queue[i]) < visited.len() && visited[queue[i] as int] is Some
    &&& forall|i: int, j: int|
        0 <= i <= j < queue.len() ==> dist[(#[trigger] queue[i]) as int] <= dist[(#[trigger] queue[j]) as int]
}

/// A route shorter than the level up to which every reached cell is finished
/// ends in a finished cell.
proof fn short_route_is_settled<F: Fn(usize) -> bool>(
    board: &Board,
    from: Seq<usize>,
    visited: Seq<Option<usize>>,
    dist: Seq<int>,
    done: Set<usize>,
    accept: &F,
    level: int,
    route: Seq<usize>,
)
    requires
        board.graph_wf(),
        forest(board, from, visited, dist),
        settled(board, from, visited, dist, done, accept),
        forall|c: usize|
            c < visited.len() && (#[trigger] visited[c as int]) is Some && dist[c as int] < level
                ==> done.contains(c),
        is_route(board, from, route),
        route.len() < level,
    ensures
        done.contains(route[0]),
        dist[route[0] as int] <= route.len(),
    decreases route.len(),
{
    let prev: usize = if route.len() == 1 {
        choose|s: usize| #[trigger] from.contains(s) && board.adjacent(s, route.last())
    } else {
        route[1]
    };
    if route.len() == 1 {
        assert(visited[prev as int] == Some(prev));
        assert(dist[prev as int] == 0);
        assert(board.adjacent(prev, route[0]));
    } else {
        let rest = route.subrange(1, route.len() as int);
        assert(rest.last() == route.last());
        assert forall|i: int| 0 <= i < rest.len() - 1 implies board.adjacent(
            #[trigger] rest[i + 1],
            rest[i],
        ) by {
            assert(rest[i + 1] == route[(i + 1) + 1]);
            assert(rest[i] == route[i + 1]);
        }
        assert(is_route(board, from, rest));
        short_route_is_settled(board, from, visited, dist, done, accept, level, rest);
        assert(rest[0] == route[1]);
        assert(board.adjacent(route[0int + 1], route[0]));
    }
    assert(done.contains(prev));
    assert(dist[prev as int] <= route.len() - 1);
    let slot = choose|slot: int| 0 <= slot < 6 && #[trigger] board.link(prev as int, slot) == Some(route[0]);
    assert(board.link(prev as int, slot) == Some(route[0]));
    assert(visited[route[0] as int] is Some);
}

/// Whether cell `i` is one of the cells the search started from: those are
/// their own predecessors.
fn is_start_pt(visited: &Vec<Option<usize>>, i: usize) -> (start: bool)
    requires
        i < visited@.len(),
    ensures
        start == (visited@[i as int] == Some(i)),
{
    match visited[i] {
        Some(j) => j == i,
        None => false,
    }
}

/// Walks the predecessor links from `goal` back to the cell of `from` that
/// the search reached it from, and lists the cells on the way, `goal` first.
fn trail_back(
    board: &Board,
    from: &[usize],
    visited: &Vec<Option<usize>>,
    goal: usize,
    Ghost(dist): Ghost<Seq<int>>,
    Ghost(order): Ghost<Seq<usize>>,
) -> (result: Vec<usize>)
    requires
        forest(board, from@, visited@, dist),
        goal < visited@.len(),
        visited@[goal as int] is Some,
        !from@.contains(goal),
        forall|c: usize|
            c < visited@.len() && !from@.contains(c) ==> match #[trigger] visited@[c as int] {
                Some(p) => reached_from(board, order, c, p),
                None => true,
            },
    ensures
        is_route(board, from@, result@),
        is_trail(board, from@, order, result@),
        result@.no_duplicates(),
        forall|i: int| 0 <= i < result@.len() ==> !from@.contains(#[trigger] result@[i]),
        result@[0] == goal,
        result@.len() == dist[goal as int],
{
    let ghost n = visited@.len();
    let mut result: Vec<usize> = Vec::new();
    let mut index = goal;
    loop
        invariant
            n == board.cell_count(),
            n == visited@.len(),
            forest(board, from@, visited@, dist),
            index < n,
            goal < n,
            !from@.contains(goal),
            visited@[index as int] is Some,
            dist[index as int] + result@.len() == dist[goal as int],
            dist[index as int] >= 0,
            result@.len() == 0 ==> index == goal,
            result@.len() > 0 ==> result@[0] == goal && board.adjacent(index, result@.last()),
            forall|i: int|
                0 <= i < result@.len() ==> (#[trigger] result@[i]) < n && !from@.contains(result@[i])
                    && dist[result@[i] as int] == dist[goal as int] - i,
            forall|i: int|
                0 <= i < result@.len() - 1 ==> board.adjacent(#[trigger] result@[i + 1], result@[i]),
            forall|c: usize|
                c < n && !from@.contains(c) ==> match #[trigger] visited@[c as int] {
                    Some(p) => reached_from(board, order, c, p),
                    None => true,
                },
            forall|i: int|
                0 <= i < result@.len() - 1 ==> reached_from(
                    board,
                    order,
                    result@[i],
                    #[trigger] result@[i + 1],
                ),
            result@.len() > 0 ==> reached_from(board, order, result@.last(), index),
        ensures
            visited@[index as int] == Some(index),
        decreases dist[index as int],
    {
        let prev_index = match visited[index] {
            Some(prev_index) => prev_index,
            None => {
                break ;
            },
        };
        if prev_index == index {
            break ;
        }
        result.push(index);
        proof {
            assert forall|i: int| 0 <= i < result@.len() - 1 implies board.adjacent(
                #[trigger] result@[i + 1],
                result@[i],
            ) by {}
            assert forall|i: int| 0 <= i < result@.len() - 1 implies reached_from(
                board,
                order,
                result@[i],
                #[trigger] result@[i + 1],
            ) by {}
        }
        index = prev_index;
    }
    proof {
        assert(from@.contains(index));
        assert(result@.len() > 0);
        assert(is_route(board, from@, result@));
        assert(is_trail(board, from@, order, result@));
    }
    result
}

/// Searches breadth first, from all the cells of `from` at once, for the
/// nearest cell outside `from` that `cell_predicate` accepts.
///
/// The result is a shortest route to such a cell, target first and without the
/// controlled cell it starts from; every cell outside `from` that a shorter
/// route reaches was refused by the predicate. Among equally near cells the
/// one that comes first in the discovery order is taken, and the route leads
/// back the way the search came. `None` means that the predicate refused every
/// cell outside `from` that any route reaches; a predicate that accepts no
/// cell at all always gives `None`.
#[verifier::rlimit(50)]
pub fn find_nearest_cell_multi<F: Fn(usize) -> bool>(
    board: &Board,
    from: &[usize],
    cell_predicate: &F,
) -> (found: Option<Vec<usize>>)
    requires
        board.graph_wf(),
        from@.len() > 0,
        forall|i: int| 0 <= i < from@.len() ==> #[trigger] from@[i] < board.cell_count(),
        forall|c: usize| c < board.cell_count() ==> cell_predicate.requires((c,)),
    ensures
        match found {
            Some(path) => {
                &&& is_route(board, from@, path@)
                &&& path@.no_duplicates()
                &&& forall|i: int| 0 <= i < path@.len() ==> !from@.contains(#[trigger] path@[i])
                &&& cell_predicate.ensures((path@[0],), true)
                &&& is_first_accepted(discovery_order(board, from@), from@, cell_predicate, path@[0])
                &&& is_trail(board, from@, discovery_order(board, from@), path@)
                &&& forall|other: Seq<usize>|
                    #[trigger] is_route(board, from@, other) && other.len() < path@.len()
                        && !from@.contains(other[0]) ==> cell_predicate.ensures(
                        (other[0],),
                        false,
                    )
            },
            None => {
                &&& forall|other: Seq<usize>|
                    #[trigger] is_route(board, from@, other) && !from@.contains(other[0])
                        ==> cell_predicate.ensures((other[0],), false)
                &&& forall|k: int|
                    0 <= k < discovery_order(board, from@).len() ==> from@.contains(
                        #[trigger] discovery_order(board, from@)[k],
                    ) || cell_predicate.ensures((discovery_order(board, from@)[k],), false)
            },
        },
        (forall|c: usize| !cell_predicate.ensures((c,), true)) ==> found is None,
{
    let n = board.types.len();
    let mut visited: Vec<Option<usize>> = Vec::new();
    let mut fill: usize = 0;
    while fill < n
        invariant
            fill <= n,
            visited@.len() == fill,
            forall|c: int| 0 <= c < fill ==> visited@[c] is None,
        decreases n - fill,
    {
        visited.push(None);
        fill += 1;
    }
    let mut queue: VecDeque<usize> = VecDeque::new();
    let ghost dist: Seq<int> = Seq::new(n as nat, |c: int| 0int);
    let ghost mut done: Set<usize> = Set::empty();
    let ghost mut unseen: Set<int> = set_int_range(0, n as int);
    proof {
        lemma_int_range(0, n as int);
    }
    let mut seed: usize = 0;
    while seed < from.len()
        invariant
            seed <= from@.len(),
            n == board.cell_count(),
            visited@.len() == n,
            dist == Seq::new(n as nat, |c: int| 0int),
            forall|i: int| 0 <= i < from@.len() ==> #[trigger] from@[i] < n,
            queue@ == from@.take(seed as int),
            forall|i: int| 0 <= i < seed ==> visited@[(#[trigger] from@[i]) as int] == Some(from@[i]),
            forall|c: int|
                0 <= c < n ==> match #[trigger] visited@[c] {
                    Some(p) => p == c && from@.contains(p),
                    None => true,
                },
        decreases from@.len() - seed,
    {
        let index = from[seed];
        queue.push_back(index);
        visited[index] = Some(index);
        proof {
            assert(from@.contains(index));
        }
        seed += 1;
    }
    proof {
        assert(from@.take(seed as int) =~= from@);
        assert forall|s: usize| #[trigger] from@.contains(s) implies s < visited@.len()
            && visited@[s as int] == Some(s) by {
            let i = choose|i: int| 0 <= i < from@.len() && from@[i] == s;
            assert(visited@[from@[i] as int] == Some(from@[i]));
        }
        assert(forest(board, from@, visited@, dist));
        assert(settled(board, from@, visited@, dist, done, cell_predicate));
    }
    let ghost mut dist = dist;
    let ghost order = discovery_order(board, from@);
    let ghost mut known: Seq<usize> = from@;
    let ghost mut at: int = 0;
    let ghost mut fuel: nat = from@.len() + n as nat;
    loop
        invariant
            board.graph_wf(),
            n == board.cell_count(),
            order == discovery_order(board, from@),
            0 <= at <= known.len(),
            queue@ == known.subrange(at, known.len() as int),
            explored(board, known, at, fuel) == order,
            fuel >= unseen.len() + known.len() - at,
            recorded(board, from@, visited@, known, at, done),
            forall|c: usize| c < board.cell_count() ==> cell_predicate.requires((c,)),
            forest(board, from@, visited@, dist),
            settled(board, from@, visited@, dist, done, cell_predicate),
            unseen.finite(),
            forall|c: int| 0 <= c < n && visited@[c] is None ==> unseen.contains(c),
            forall|c: usize|
                c < n && (#[trigger] visited@[c as int]) is Some ==> done.contains(c) || queue@.contains(c),
            in_order(queue@, visited@, dist),
            forall|i: int| 0 <= i < queue@.len() ==> dist[(#[trigger] queue@[i]) as int] <= dist[queue@[0] as int] + 1,
            forall|i: int, d: usize|
                0 <= i < queue@.len() && #[trigger] done.contains(d) ==> dist[d as int] <= dist[(#[trigger] queue@[i]) as int],
        decreases 2 * unseen.len() + queue@.len(),
    {
        let ghost measure = 2 * unseen.len() + queue@.len();
        let ghost before = queue@;
        let index = match queue.pop_front() {
            Some(index) => index,
            None => {
                proof {
                    assert forall|other: Seq<usize>|
                        #[trigger] is_route(board, from@, other) && !from@.contains(
                            other[0],
                        ) implies cell_predicate.ensures((other[0],), false) by {
                        short_route_is_settled(
                            board,
                            from@,
                            visited@,
                            dist,
                            done,
                            cell_predicate,
                            other.len() + 1int,
                            other,
                        );
                    }
                }
                return None;
            },
        };
        proof {
            assert forall|i: int| 0 <= i < queue@.len() implies queue@[i] == before[i + 1] by {}
        }
        if cell_predicate(index) && !is_start_pt(&visited, index) {
            proof {
                assert forall|c: usize|
                    c < visited@.len() && (#[trigger] visited@[c as int]) is Some && dist[c as int]
                        < dist[index as int] implies done.contains(c) by {
                    if !done.contains(c) {
                        let i = choose|i: int| 0 <= i < before.len() && before[i] == c;
                        assert(dist[before[0] as int] <= dist[before[i] as int]);
                    }
                }
                explored_extends(board, known, at, fuel);
                assert(order[at] == known[at]);
                assert forall|k: int| 0 <= k < at implies from@.contains(#[trigger] order[k])
                    || cell_predicate.ensures((order[k],), false) by {
                    assert(order[k] == known[k]);
                }
                assert forall|c: usize| c < n && !from@.contains(c) implies match #[trigger] visited@[c as int] {
                    Some(p) => reached_from(board, order, c, p),
                    None => true,
                } by {
                    if let Some(p) = visited@[c as int] {
                        reached_from_carries_over(board, known, order, c, p);
                    }
                }
            }
            let result = trail_back(board, from, &visited, index, Ghost(dist), Ghost(order));
            proof {
                assert forall|other: Seq<usize>|
                    #[trigger] is_route(board, from@, other) && other.len() < result@.len()
                        && !from@.contains(other[0]) implies cell_predicate.ensures(
                    (other[0],),
                    false,
                ) by {
                    short_route_is_settled(
                        board,
                        from@,
                        visited@,
                        dist,
                        done,
                        cell_predicate,
                        dist[index as int],
                        other,
                    );
                }
            }
            return Some(result);
        }
        proof {
            assert forall|c: usize|
                c < n && (#[trigger] visited@[c as int]) is Some implies done.contains(c)
                || queue@.contains(c) || c == index by {
                if !done.contains(c) && c != index {
                    let i = choose|i: int| 0 <= i < before.len() && before[i] == c;
                    assert(queue@[i - 1] == c);
                }
            }
        }
        let links = board.neighbours[index];
        let mut slot: usize = 0;
        while slot < 6
            invariant
                slot <= 6,
                order == discovery_order(board, from@),
                0 <= at < known.len(),
                known[at] == index,
                queue@ == known.subrange(at + 1, known.len() as int),
                fuel >= 1,
                explored(board, discovered_by(board, known, index, slot as int), at + 1, (fuel - 1) as nat)
                    == order,
                fuel - 1 >= unseen.len() + known.len() - (at + 1),
                recorded(board, from@, visited@, known, at, done),
                board.graph_wf(),
                n == board.cell_count(),
                index < n,
                links == board.neighbours@[index as int],
                visited@[index as int] is Some,
                !done.contains(index) ==> from@.contains(index) || cell_predicate.ensures((index,), false),
                forest(board, from@, visited@, dist),
                settled(board, from@, visited@, dist, done, cell_predicate),
                unseen.finite(),
                2 * unseen.len() + queue@.len() < measure,
                forall|c: int| 0 <= c < n && visited@[c] is None ==> unseen.contains(c),
                forall|c: usize|
                    c < n && (#[trigger] visited@[c as int]) is Some ==> done.contains(c) || queue@.contains(c)
                        || c == index,
                in_order(queue@, visited@, dist),
                forall|i: int|
                    0 <= i < queue@.len() ==> dist[index as int] <= dist[(#[trigger] queue@[i]) as int] <= dist[index as int] + 1,
                forall|d: usize| #[trigger] done.contains(d) ==> dist[d as int] <= dist[index as int],
                forall|k: int|
                    0 <= k < slot ==> match #[trigger] board.link(index as int, k) {
                        Some(b) => visited@[b as int] is Some && dist[b as int] <= dist[index as int] + 1,
                        None => true,
                    },
            decreases 6 - slot,
        {
            if let Some(neighbour) = links[slot] {
                if visited[neighbour].is_none() {
                    let ghost old_queue = queue@;
                    let ghost old_known = known;
                    proof {
                        assert forall|k: int| 0 <= k < at implies !board.adjacent(
                            #[trigger] known[k],
                            neighbour,
                        ) by {
                            if board.adjacent(known[k], neighbour) {
                                let via = choose|via: int|
                                    0 <= via < 6 && #[trigger] board.link(known[k] as int, via) == Some(
                                        neighbour,
                                    );
                                assert(visited@[neighbour as int] is Some);
                            }
                        }
                    }
                    visited[neighbour] = Some(index);
                    queue.push_back(neighbour);
                    proof {
                        known = known.push(neighbour);
                        assert forall|c: usize| c < n && (#[trigger] visited@[c as int]) is Some implies known.contains(
                            c,
                        ) by {
                            if c == neighbour {
                                assert(known[old_known.len() as int] == neighbour);
                            } else {
                                let i = choose|i: int| 0 <= i < old_known.len() && old_known[i] == c;
                                assert(known[i] == c);
                            }
                        }
                        assert(is_first_link(board, known, at, neighbour)) by {
                            assert forall|k: int| 0 <= k < at implies !board.adjacent(
                                #[trigger] known[k],
                                neighbour,
                            ) by {
                                assert(known[k] == old_known[k]);
                            }
                        }
                        assert forall|c: usize| c < n && !from@.contains(c) implies match #[trigger] visited@[c as int] {
                            Some(p) => reached_from(board, known, c, p),
                            None => true,
                        } by {
                            if c != neighbour {
                                if let Some(p) = visited@[c as int] {
                                    reached_from_carries_over(board, old_known, known, c, p);
                                }
                            }
                        }
                        dist = dist.update(neighbour as int, dist[index as int] + 1);
                        unseen = unseen.remove(neighbour as int);
                        assert forall|c: usize|
                            c < n && (#[trigger] visited@[c as int]) is Some implies done.contains(c)
                            || queue@.contains(c) || c == index by {
                            if c == neighbour {
                                assert(queue@[old_queue.len() as int] == neighbour);
                            } else if old_queue.contains(c) {
                                let i = choose|i: int| 0 <= i < old_queue.len() && old_queue[i] == c;
                                assert(queue@[i] == c);
                            }
                        }
                    }
                }
            }
            slot += 1;
        }
        proof {
            done = done.insert(index);
            at = at + 1;
            fuel = (fuel - 1) as nat;
        }
    }
}

} // verus!
