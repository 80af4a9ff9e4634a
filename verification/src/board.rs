//! The board graph and the per-turn snapshot of what stands on it.

use vstd::prelude::*;

verus! {

/// What a cell of the board is for.
#[derive(Debug, Clone, Copy, PartialEq, Eq, Structural)]
pub enum CellType {
    Empty,
    Egg,
    Crystal,
}

impl CellType {
    /// The cell type that a numeric type code stands for, if any.
    pub open spec fn of_code(code: int) -> Option<CellType> {
        if code == 0 {
            Some(CellType::Empty)
        } else if code == 1 {
            Some(CellType::Egg)
        } else if code == 2 {
            Some(CellType::Crystal)
        } else {
            None
        }
    }

    /// Decodes a numeric type code; unknown codes give `None`.
    pub fn from_code(code: i32) -> (kind: Option<CellType>)
        ensures
            kind == Self::of_code(code as int),
    {
        if code == 0 {
            Some(CellType::Empty)
        } else if code == 1 {
            Some(CellType::Egg)
        } else if code == 2 {
            Some(CellType::Crystal)
        } else {
            None
        }
    }
}

/// What a neighbour code stands for: a negative code for no neighbour in that
/// direction, any other for the cell of that index, which has to be one of the
/// `cells` cells of the board.
pub open spec fn link_of_code(code: int, cells: int) -> Option<Option<usize>> {
    if code < 0 {
        Some(None)
    } else if code < cells {
        Some(Some(code as usize))
    } else {
        None
    }
}

/// Decodes a neighbour code for a board of `cells` cells; a code that names no
/// cell of the board gives `None`.
pub fn link_from_code(code: i32, cells: usize) -> (link: Option<Option<usize>>)
    ensures
        link == link_of_code(code as int, cells as int),
{
    if code < 0 {
        Some(None)
    } else {
        let index = code as usize;
        if index < cells {
            Some(Some(index))
        } else {
            None
        }
    }
}

/// The hexagonal cell graph. Cells are numbered densely from zero; each has a
/// type and up to six links to neighbouring cells.
#[derive(Debug, Clone)]
pub struct Board {
    /// Cell types by index.
    pub types: Vec<CellType>,
    /// The six neighbour slots of each cell, by index.
    pub neighbours: Vec<[Option<usize>; 6]>,
    /// Cells that hold this colony's bases.
    pub my_bases: Vec<usize>,
    /// Cells that hold the opponent's bases.
    pub opp_bases: Vec<usize>,
}

impl Board {
    /// The number of cells.
    pub open spec fn cell_count(&self) -> nat {
        self.types@.len()
    }

    /// What slot `slot` of cell `a` links to.
    pub open spec fn link(&self, a: int, slot: int) -> Option<usize> {
        self.neighbours@[a]@[slot]
    }

    /// One hop leads from `a` to `b`.
    pub open spec fn adjacent(&self, a: usize, b: usize) -> bool {
        exists|slot: int| 0 <= slot < 6 && #[trigger] self.link(a as int, slot) == Some(b)
    }

    /// Every cell has its six slots, and every link points at a cell.
    pub open spec fn graph_wf(&self) -> bool {
        &&& self.neighbours@.len() == self.types@.len()
        &&& forall|a: int, slot: int|
            0 <= a < self.types@.len() && 0 <= slot < 6 ==> match #[trigger] self.link(a, slot) {
                Some(b) => b < self.types@.len(),
                None => true,
            }
    }

    /// Whoever lists a neighbour is listed back by it.
    pub open spec fn symmetric(&self) -> bool {
        forall|a: usize, b: usize|
            a < self.cell_count() && b < self.cell_count() && #[trigger] self.adjacent(a, b)
                ==> self.adjacent(b, a)
    }

    /// A well-formed board: every link points at a cell and is answered by a
    /// link back, each side has at least one base, every base stands on a
    /// cell, and no base of this colony is listed twice.
    pub open spec fn wf(&self) -> bool {
        &&& self.graph_wf()
        &&& self.symmetric()
        &&& self.my_bases@.len() >= 1
        &&& self.opp_bases@.len() >= 1
        &&& forall|i: int| 0 <= i < self.my_bases@.len() ==> #[trigger] self.my_bases@[i] < self.cell_count()
        &&& forall|i: int| 0 <= i < self.opp_bases@.len() ==> #[trigger] self.opp_bases@[i] < self.cell_count()
        &&& self.my_bases@.no_duplicates()
    }

    /// Tests whether every link points at a cell.
    pub fn has_sound_graph(&self) -> (ok: bool)
        ensures
            ok == self.graph_wf(),
    {
        let n = self.types.len();
        if self.neighbours.len() != n {
            return false;
        }
        let mut a: usize = 0;
        while a < n
            invariant
                a <= n,
                n == self.types@.len(),
                self.neighbours@.len() == n,
                forall|c: int, slot: int|
                    0 <= c < a && 0 <= slot < 6 ==> match #[trigger] self.link(c, slot) {
                        Some(b) => b < n,
                        None => true,
                    },
            decreases n - a,
        {
            let links = self.neighbours[a];
            let mut slot: usize = 0;
            while slot < 6
                invariant
                    slot <= 6,
                    a < n,
                    n == self.types@.len(),
                    links == self.neighbours@[a as int],
                    forall|k: int|
                        0 <= k < slot ==> match #[trigger] self.link(a as int, k) {
                            Some(b) => b < n,
                            None => true,
                        },
                decreases 6 - slot,
            {
                proof {
                    assert(self.link(a as int, slot as int) == links@[slot as int]);
                }
                if let Some(b) = links[slot] {
                    if b >= n {
                        return false;
                    }
                }
                slot += 1;
            }
            a += 1;
        }
        true
    }

    /// Tests whether one hop leads from `a` to `b`.
    pub fn links_to(&self, a: usize, b: usize) -> (yes: bool)
        requires
            a < self.neighbours@.len(),
        ensures
            yes == self.adjacent(a, b),
    {
        let links = self.neighbours[a];
        let mut slot: usize = 0;
        while slot < 6
            invariant
                slot <= 6,
                a < self.neighbours@.len(),
                links == self.neighbours@[a as int],
                forall|k: int| 0 <= k < slot ==> #[trigger] self.link(a as int, k) != Some(b),
            decreases 6 - slot,
        {
            proof {
                assert(self.link(a as int, slot as int) == links@[slot as int]);
            }
            if let Some(c) = links[slot] {
                if c == b {
                    return true;
                }
            }
            slot += 1;
        }
        false
    }

    /// Tests whether every link is answered by a link back.
    pub fn is_symmetric(&self) -> (ok: bool)
        requires
            self.graph_wf(),
        ensures
            ok == self.symmetric(),
    {
        let n = self.types.len();
        let mut a: usize = 0;
        while a < n
            invariant
                a <= n,
                n == self.types@.len(),
                self.graph_wf(),
                forall|c: int, slot: int|
                    0 <= c < a && 0 <= slot < 6 ==> match #[trigger] self.link(c, slot) {
                        Some(b) => self.adjacent(b, c as usize),
                        None => true,
                    },
            decreases n - a,
        {
            let links = self.neighbours[a];
            let mut slot: usize = 0;
            while slot < 6
                invariant
                    slot <= 6,
                    a < n,
                    n == self.types@.len(),
                    self.graph_wf(),
                    links == self.neighbours@[a as int],
                    forall|k: int|
                        0 <= k < slot ==> match #[trigger] self.link(a as int, k) {
                            Some(b) => self.adjacent(b, a),
                            None => true,
                        },
                decreases 6 - slot,
            {
                proof {
                    assert(self.link(a as int, slot as int) == links@[slot as int]);
                }
                if let Some(b) = links[slot] {
                    if !self.links_to(b, a) {
                        proof {
                            assert(self.adjacent(a, b));
                        }
                        return false;
                    }
                }
                slot += 1;
            }
            a += 1;
        }
        proof {
            assert forall|x: usize, y: usize|
                x < self.cell_count() && y < self.cell_count() && #[trigger] self.adjacent(
                    x,
                    y,
                ) implies self.adjacent(y, x) by {
                let slot = choose|slot: int| 0 <= slot < 6 && #[trigger] self.link(x as int, slot) == Some(y);
                assert(self.link(x as int, slot) == Some(y));
            }
        }
        true
    }

    /// Tests whether `cells` lists cells of this board only, each at most once.
    pub fn lists_distinct_cells(&self, cells: &[usize]) -> (ok: bool)
        ensures
            ok == (cells@.no_duplicates() && forall|i: int|
                0 <= i < cells@.len() ==> #[trigger] cells@[i] < self.cell_count()),
    {
        let n = self.types.len();
        let mut seen: Vec<bool> = Vec::new();
        let mut fill: usize = 0;
        while fill < n
            invariant
                fill <= n,
                seen@.len() == fill,
                forall|c: int| 0 <= c < fill ==> !seen@[c],
            decreases n - fill,
        {
            seen.push(false);
            fill += 1;
        }
        let mut k: usize = 0;
        while k < cells.len()
            invariant
                k <= cells@.len(),
                n == self.types@.len(),
                seen@.len() == n,
                forall|i: int| 0 <= i < k ==> (#[trigger] cells@[i]) < n && seen@[cells@[i] as int],
                forall|c: int|
                    0 <= c < n && #[trigger] seen@[c] ==> exists|i: int| 0 <= i < k && cells@[i] == c,
                forall|i: int, j: int| 0 <= i < j < k ==> cells@[i] != cells@[j],
            decreases cells@.len() - k,
        {
            let c = cells[k];
            if c >= n {
                return false;
            }
            if seen[c] {
                proof {
                    let i = choose|i: int| 0 <= i < k && cells@[i] == c;
                    assert(cells@[i] == cells@[k as int]);
                }
                return false;
            }
            seen[c] = true;
            k += 1;
        }
        true
    }

    /// Tests whether the board is well formed.
    pub fn is_well_formed(&self) -> (ok: bool)
        ensures
            ok == self.wf(),
    {
        if !self.has_sound_graph() {
            return false;
        }
        if !self.is_symmetric() {
            return false;
        }
        if self.my_bases.len() == 0 || self.opp_bases.len() == 0 {
            return false;
        }
        let n = self.types.len();
        let mut k: usize = 0;
        while k < self.opp_bases.len()
            invariant
                k <= self.opp_bases@.len(),
                n == self.types@.len(),
                forall|i: int| 0 <= i < k ==> #[trigger] self.opp_bases@[i] < n,
            decreases self.opp_bases@.len() - k,
        {
            if self.opp_bases[k] >= n {
                return false;
            }
            k += 1;
        }
        self.lists_distinct_cells(self.my_bases.as_slice())
    }
}

/// The sum of a sequence of counts.
pub open spec fn total(counts: Seq<usize>) -> int
    decreases counts.len(),
{
    if counts.len() == 0 {
        0
    } else {
        total(counts.drop_last()) + counts.last()
    }
}

/// The sum of a prefix never exceeds the sum of the whole.
pub proof fn total_of_prefix(counts: Seq<usize>, k: int)
    requires
        0 <= k <= counts.len(),
    ensures
        0 <= total(counts.take(k)) <= total(counts),
    decreases counts.len(),
{
    if k == counts.len() {
        assert(counts.take(k) =~= counts);
        if k > 0 {
            total_of_prefix(counts.drop_last(), k - 1);
        }
    } else {
        total_of_prefix(counts.drop_last(), k);
        assert(counts.drop_last().take(k) =~= counts.take(k));
    }
}

/// What stands on the board this turn, by cell.
#[derive(Debug, Clone)]
pub struct TurnState {
    /// Resources left on each cell.
    pub resources: Vec<usize>,
    /// This colony's ants on each cell.
    pub my_ants: Vec<usize>,
    /// The opponent's ants on each cell.
    pub opp_ants: Vec<usize>,
}

impl TurnState {
    /// The snapshot has one entry per cell of `board` in each of its lists.
    pub open spec fn fits(&self, board: &Board) -> bool {
        &&& self.resources@.len() == board.cell_count()
        &&& self.my_ants@.len() == board.cell_count()
        &&& self.opp_ants@.len() == board.cell_count()
    }

    /// Tests whether the snapshot fits `board`.
    pub fn fits_board(&self, board: &Board) -> (ok: bool)
        ensures
            ok == self.fits(board),
    {
        let n = board.types.len();
        self.resources.len() == n && self.my_ants.len() == n && self.opp_ants.len() == n
    }

    /// Cell `c` is worth walking to: it is not an empty cell and still holds
    /// resources.
    pub open spec fn qualifies(&self, board: &Board, c: usize) -> bool {
        &&& c < board.cell_count()
        &&& c < self.resources@.len()
        &&& board.types@[c as int] != CellType::Empty
        &&& self.resources@[c as int] > 0
    }

    /// The colony's ants over all cells.
    pub open spec fn ant_pool(&self) -> int {
        total(self.my_ants@)
    }

    /// Counts the colony's ants; `None` where the count does not fit a `usize`.
    pub fn total_ants(&self) -> (pool: Option<usize>)
        ensures
            match pool {
                Some(p) => p == self.ant_pool(),
                None => self.ant_pool() > usize::MAX,
            },
    {
        let mut sum: usize = 0;
        let mut i: usize = 0;
        while i < self.my_ants.len()
            invariant
                i <= self.my_ants@.len(),
                sum == total(self.my_ants@.take(i as int)),
            decreases self.my_ants@.len() - i,
        {
            proof {
                assert(self.my_ants@.take(i + 1).drop_last() =~= self.my_ants@.take(i as int));
                total_of_prefix(self.my_ants@, i + 1);
            }
            match sum.checked_add(self.my_ants[i]) {
                Some(next) => {
                    sum = next;
                },
                None => {
                    return None;
                },
            }
            i += 1;
        }
        proof {
            assert(self.my_ants@.take(i as int) =~= self.my_ants@);
        }
        Some(sum)
    }
}

} // verus!
