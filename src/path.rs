//! Four-connected shortest-path search over the cells of a grid, with a
//! caller's predicate that tells which cells are passable.
use crate::grid::Grid;
use vstd::prelude::*;

verus! {

/// Struct used by the `Grid::astar`
pub struct AStarVisit<'a, T> {
    /// Current index of the cell being visited
    pub index: (i32, i32),
    /// The cell being visited
    pub cell: &'a T,
}

/// Whether `a` and `b` are four-connected neighbours.
pub open spec fn adjacent(a: (i32, i32), b: (i32, i32)) -> bool {
    ||| a.0 == b.0 && (a.1 - b.1 == 1 || b.1 - a.1 == 1)
    ||| a.1 == b.1 && (a.0 - b.0 == 1 || b.0 - a.0 == 1)
}

/// Manhattan distance between `a` and `b`.
pub open spec fn manhattan_spec(a: (i32, i32), b: (i32, i32)) -> int {
    (if a.0 >= b.0 {
        a.0 - b.0
    } else {
        b.0 - a.0
    }) + (if a.1 >= b.1 {
        a.1 - b.1
    } else {
        b.1 - a.1
    })
}

/// Whether a search may step onto `q`: the grid holds a value there and
/// `visit` may answer that it is passable.
pub open spec fn open_cell<T, F: Fn(AStarVisit<T>) -> bool>(
    cells: Map<(i32, i32), T>,
    visit: F,
    q: (i32, i32),
) -> bool {
    &&& cells.contains_key(q)
    &&& call_ensures(visit, (AStarVisit { index: q, cell: &cells[q] },), true)
}

/// Whether `visit` may answer that `q` blocks.
pub open spec fn can_block<T, F: Fn(AStarVisit<T>) -> bool>(
    cells: Map<(i32, i32), T>,
    visit: F,
    q: (i32, i32),
) -> bool {
    call_ensures(visit, (AStarVisit { index: q, cell: &cells[q] },), false)
}

/// Whether `visit` answers that `q` blocks, whenever it is asked.
pub open spec fn blocked<T, F: Fn(AStarVisit<T>) -> bool>(
    cells: Map<(i32, i32), T>,
    visit: F,
    q: (i32, i32),
) -> bool {
    forall|b: bool| call_ensures(visit, (AStarVisit { index: q, cell: &cells[q] },), b) ==> !b
}

/// Whether `visit` may be asked about each stored cell, with its value.
pub open spec fn accepts_cells<T, F: Fn(AStarVisit<T>) -> bool>(
    cells: Map<(i32, i32), T>,
    visit: F,
) -> bool {
    forall|v: AStarVisit<T>|
        cells.contains_key(v.index) && *v.cell == cells[v.index] ==> call_requires(visit, (v,))
}

/// Whether `visit` gives one answer for each cell of `cells`, however often
/// it is asked.
pub open spec fn answers_fixed<T, F: Fn(AStarVisit<T>) -> bool>(
    cells: Map<(i32, i32), T>,
    visit: F,
) -> bool {
    forall|q: (i32, i32), a: bool, b: bool|
        #![trigger call_ensures(visit, (AStarVisit { index: q, cell: &cells[q] },), a), call_ensures(visit, (AStarVisit { index: q, cell: &cells[q] },), b)]
        cells.contains_key(q) && call_ensures(visit, (AStarVisit { index: q, cell: &cells[q] },), a)
            && call_ensures(visit, (AStarVisit { index: q, cell: &cells[q] },), b) ==> a == b
}

/// Whether `p` is a path from `start` to `end` that holds no cell twice and
/// steps each time to a four-connected neighbour onto which it may step.
pub open spec fn is_path<T, F: Fn(AStarVisit<T>) -> bool>(
    cells: Map<(i32, i32), T>,
    visit: F,
    start: (i32, i32),
    end: (i32, i32),
    p: Seq<(i32, i32)>,
) -> bool {
    &&& p.len() >= 1
    &&& p[0] == start
    &&& p.last() == end
    &&& p.no_duplicates()
    &&& forall|i: int|
        0 <= i < p.len() - 1 ==> adjacent(#[trigger] p[i], p[i + 1]) && open_cell(
            cells,
            visit,
            p[i + 1],
        )
}

/// Manhattan distance between `a` and `b`.
pub fn manhattan(a: (i32, i32), b: (i32, i32)) -> (r: i64)
    ensures
        r == manhattan_spec(a, b),
{
    let dx: i64 = if a.0 >= b.0 {
        a.0 as i64 - b.0 as i64
    } else {
        b.0 as i64 - a.0 as i64
    };
    let dy: i64 = if a.1 >= b.1 {
        a.1 as i64 - b.1 as i64
    } else {
        b.1 as i64 - a.1 as i64
    };
    dx + dy
}

/// Whether the search has reached `end`.
fn reached(n: &(i32, i32), end: (i32, i32)) -> (r: bool)
    ensures
        r == (*n == end),
{
    n.0 == end.0 && n.1 == end.1
}

impl<T> Grid<T> {
    /// The four-connected neighbours of `p` onto which a search may step,
    /// each with a cost of one: those that the grid holds a value for and
    /// that `visit` answers are passable, in the order left, right, up,
    /// down. A neighbour outside the `i32` range is not offered.
    pub fn open_neighbours<F: Fn(AStarVisit<T>) -> bool>(&self, p: (i32, i32), visit: &F) -> (r:
        Vec<((i32, i32), i64)>)
        requires
            self.wf(),
            accepts_cells(self@, *visit),
        ensures
            forall|i: int|
                0 <= i < r.len() ==> (#[trigger] r@[i]).1 == 1 && adjacent(p, r@[i].0) && open_cell(
                    self@,
                    *visit,
                    r@[i].0,
                ),
            forall|q: (i32, i32)|
                adjacent(p, q) && #[trigger] self@.contains_key(q) ==> (exists|i: int|
                    0 <= i < r.len() && (#[trigger] r@[i]).0 == q) || can_block(self@, *visit, q),
    {
        let mut candidates: Vec<(i32, i32)> = Vec::new();
        if p.0 > i32::MIN {
            candidates.push((p.0 - 1, p.1));
        }
        if p.0 < i32::MAX {
            candidates.push((p.0 + 1, p.1));
        }
        if p.1 > i32::MIN {
            candidates.push((p.0, p.1 - 1));
        }
        if p.1 < i32::MAX {
            candidates.push((p.0, p.1 + 1));
        }
        assert forall|q: (i32, i32)| adjacent(p, q) implies exists|j: int|
            0 <= j < candidates.len() && candidates@[j] == q by {
            if q.0 == p.0 - 1 {
                assert(candidates@[0] == q);
            } else if q.0 == p.0 + 1 {
                assert(candidates@[if p.0 > i32::MIN { 1int } else { 0 }] == q);
            } else if q.1 == p.1 - 1 {
                let j = (if p.0 > i32::MIN { 1int } else { 0 }) + (if p.0 < i32::MAX { 1int } else { 0 });
                assert(candidates@[j] == q);
            } else {
                let j = (if p.0 > i32::MIN { 1int } else { 0 }) + (if p.0 < i32::MAX { 1int } else { 0 })
                    + (if p.1 > i32::MIN { 1int } else { 0 });
                assert(candidates@[j] == q);
            }
        }
        assert(forall|j: int| 0 <= j < candidates.len() ==> adjacent(p, #[trigger] candidates@[j]));
        let mut r: Vec<((i32, i32), i64)> = Vec::new();
        let mut k: usize = 0;
        while k < candidates.len()
            invariant
                self.wf(),
                accepts_cells(self@, *visit),
                k <= candidates.len(),
                forall|j: int| 0 <= j < candidates.len() ==> adjacent(p, #[trigger] candidates@[j]),
                forall|i: int|
                    0 <= i < r.len() ==> (#[trigger] r@[i]).1 == 1 && adjacent(p, r@[i].0)
                        && open_cell(self@, *visit, r@[i].0),
                forall|j: int|
                    0 <= j < k && self@.contains_key(#[trigger] candidates@[j]) ==> (exists|i: int|
                        0 <= i < r.len() && (#[trigger] r@[i]).0 == candidates@[j]) || can_block(
                        self@,
                        *visit,
                        candidates@[j],
                    ),
            decreases candidates.len() - k,
        {
            let q = candidates[k];
            let ghost r0 = r@;
            if let Some(cell) = self.get(q) {
                let asked = AStarVisit { index: q, cell };
                assert(self@.contains_key(asked.index) && *asked.cell == self@[asked.index]);
                let passable = visit(asked);
                if passable {
                    r.push((q, 1));
                    assert(r@[r.len() - 1].0 == q);
                }
            }
            proof {
                assert forall|j: int|
                    0 <= j < k && self@.contains_key(#[trigger] candidates@[j]) implies (exists|i: int|
                        0 <= i < r.len() && (#[trigger] r@[i]).0 == candidates@[j]) || can_block(
                        self@,
                        *visit,
                        candidates@[j],
                    ) by {
                    if exists|i: int| 0 <= i < r0.len() && (#[trigger] r0[i]).0 == candidates@[j] {
                        let i = choose|i: int| 0 <= i < r0.len() && (#[trigger] r0[i]).0 == candidates@[j];
                        assert(r@[i] == r0[i]);
                    }
                }
            }
            k = k + 1;
        }
        r
    }

    /// Perform the A-star algorithm
    /// `visit` returns `true` when a cell is passable and `false` when it
    /// blocks the path; cells that hold no value are never stepped onto and
    /// are not offered to it. Steps go to the four-connected neighbours, at a
    /// cost of one each, guided by the Manhattan distance to `end`.
    pub fn astar<F: Fn(AStarVisit<T>) -> bool>(&self, start: (i32, i32), end: (i32, i32), visit: F) -> (r:
        Option<Vec<(i32, i32)>>)
        requires
            self.wf(),
            accepts_cells(self@, visit),
        ensures
            r matches Some(p) ==> is_path(self@, visit, start, end, p@),
            start == end ==> r is Some && r.unwrap()@ == seq![start],
            answers_fixed(self@, visit) && r is None ==> forall|p: Seq<(i32, i32)>|
                !is_path(self@, visit, start, end, p),
            answers_fixed(self@, visit) && r is Some ==> forall|p: Seq<(i32, i32)>|
                is_path(self@, visit, start, end, p) ==> r.unwrap()@.len() <= p.len(),
    {
        match search(self, start, end, &visit) {
            Some(found) => Some(found.0),
            None => None,
        }
    }
}

/// Relies on pathfinding::directed::astar::astar: a path that it returns
/// starts at `start`, ends at a node for which `success` holds, holds no
/// node twice, steps each time to a node that `successors` listed for the
/// node before, and costs the sum of those steps' costs; when `success`
/// holds of `start` it returns the path `[start]` at once. When the
/// successors of each node are always the same, it returns `None` only if
/// no node for which `success` holds can be reached, and otherwise a
/// shortest path, the heuristic (the Manhattan distance, as each step
/// moves to a four-connected neighbour at a cost of one) never being
/// greater than the real cost.
#[verifier::external_body]
fn search<T, F: Fn(AStarVisit<T>) -> bool>(
    grid: &Grid<T>,
    start: (i32, i32),
    end: (i32, i32),
    visit: &F,
) -> (r: Option<(Vec<(i32, i32)>, i64)>)
    requires
        grid.wf(),
        accepts_cells(grid@, *visit),
    ensures
        r is Some ==> is_path(grid@, *visit, start, end, r.unwrap().0@),
        r is Some ==> r.unwrap().1 == r.unwrap().0@.len() - 1,
        r is Some || start != end,
        r is Some && start == end ==> r.unwrap().0@ == seq![start],
        answers_fixed(grid@, *visit) && r is None ==> forall|p: Seq<(i32, i32)>|
            !is_path(grid@, *visit, start, end, p),
        answers_fixed(grid@, *visit) && r is Some ==> forall|p: Seq<(i32, i32)>|
            is_path(grid@, *visit, start, end, p) ==> r.unwrap().0@.len() <= p.len(),
{
    pathfinding::directed::astar::astar(
        &start,
        |n: &(i32, i32)| grid.open_neighbours(*n, visit),
        |n: &(i32, i32)| manhattan(*n, end),
        |n: &(i32, i32)| reached(n, end),
    )
}

/// A search from a cell whose four neighbours all block, or hold no value,
/// finds no path to any other cell.
pub proof fn lemma_enclosed_start_has_no_path<T, F: Fn(AStarVisit<T>) -> bool>(
    cells: Map<(i32, i32), T>,
    visit: F,
    start: (i32, i32),
    end: (i32, i32),
    p: Seq<(i32, i32)>,
)
    requires
        start != end,
        forall|q: (i32, i32)|
            adjacent(start, q) && #[trigger] cells.contains_key(q) ==> blocked(cells, visit, q),
    ensures
        !is_path(cells, visit, start, end, p),
{
    if is_path(cells, visit, start, end, p) {
        assert(p.len() >= 2);
        assert(adjacent(p[0], p[1]) && open_cell(cells, visit, p[1]));
        assert(cells.contains_key(p[1]));
    }
}

} // verus!
