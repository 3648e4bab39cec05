//! The mathematical model of a maze: a rectangle of cells, stored row by row.
use vstd::prelude::*;
use crate::error::MazeError;
use crate::maze::square::Cell;

verus! {

/// Whether `dir` is one of the four directions: north is 0, south is 1, east
/// is 2 and west is 3.
pub open spec fn is_direction(dir: int) -> bool {
    0 <= dir < 4
}

/// The direction that faces `dir`: north and south face each other, and so do
/// east and west.
pub open spec fn opposite(dir: int) -> int {
    if dir == 0 {
        1
    } else if dir == 1 {
        0
    } else if dir == 2 {
        3
    } else {
        2
    }
}

/// The column reached from column `x` by one step towards `dir`: columns
/// count up towards the east.
pub open spec fn step_x(x: int, dir: int) -> int {
    if dir == 2 {
        x + 1
    } else if dir == 3 {
        x - 1
    } else {
        x
    }
}

/// The row reached from row `y` by one step towards `dir`: rows count up
/// towards the south.
pub open spec fn step_y(y: int, dir: int) -> int {
    if dir == 0 {
        y - 1
    } else if dir == 1 {
        y + 1
    } else {
        y
    }
}

/// The mathematical value of a maze: `rows` by `cols` cells, the cell in
/// column `x` of row `y` at position `y * cols + x` of `cells`.
pub struct Grid {
    pub rows: int,
    pub cols: int,
    pub cells: Seq<Cell>,
}

impl Grid {
    /// The grid holds exactly one cell per position.
    pub open spec fn wf(self) -> bool {
        &&& 0 <= self.rows
        &&& 0 <= self.cols
        &&& self.cells.len() == self.rows * self.cols
    }

    /// Whether `(x, y)` names a cell of the grid.
    pub open spec fn in_bounds(self, x: int, y: int) -> bool {
        0 <= x < self.cols && 0 <= y < self.rows
    }

    /// The position of cell `(x, y)` in `cells`.
    pub open spec fn offset(self, x: int, y: int) -> int {
        y * self.cols + x
    }

    /// The cell in column `x` of row `y`.
    pub open spec fn at(self, x: int, y: int) -> Cell {
        self.cells[self.offset(x, y)]
    }

    /// The grid of `rows` by `cols` untouched cells.
    pub open spec fn fresh(rows: int, cols: int) -> Grid {
        Grid { rows: rows, cols: cols, cells: Seq::new((rows * cols) as nat, |i: int| Cell::fresh()) }
    }

    /// Every cell is untouched: all walls stand and all ids are 0.
    pub open spec fn all_fresh(self) -> bool {
        forall|i: int| 0 <= i < self.cells.len() ==> self.cells[i] == Cell::fresh()
    }

    /// The reason for which carving from `(x, y)` towards `dir` is refused, or
    /// `None` where it is allowed: the square must lie inside the grid, `dir`
    /// must be a direction, and the neighbour towards `dir` must lie inside
    /// the grid too.
    pub open spec fn carve_error(self, x: u32, y: u32, dir: u32) -> Option<MazeError> {
        if !self.in_bounds(x as int, y as int) {
            Some(MazeError::OutOfBounds { x, y })
        } else if !is_direction(dir as int) {
            Some(MazeError::IllegalDirection { dir })
        } else if !self.in_bounds(step_x(x as int, dir as int), step_y(y as int, dir as int)) {
            Some(MazeError::WallExitsMaze { x, y, dir })
        } else {
            None
        }
    }

    /// The grid after the wall between `(x, y)` and its neighbour towards
    /// `dir` has been broken from both sides. The origin takes the region
    /// `id`; the neighbour takes it unless `carve_out` is set.
    pub open spec fn carved(self, x: int, y: int, dir: int, id: int, carve_out: bool) -> Grid {
        let nx = step_x(x, dir);
        let ny = step_y(y, dir);
        let origin = self.at(x, y).with_wall(dir, false).with_id(id);
        let opened = self.at(nx, ny).with_wall(opposite(dir), false);
        let dest = if carve_out {
            opened
        } else {
            opened.with_id(id)
        };
        Grid {
            rows: self.rows,
            cols: self.cols,
            cells: self.cells.update(self.offset(x, y), origin).update(self.offset(nx, ny), dest),
        }
    }

    /// Whether carving from `(x, y)` towards `dir` is allowed: the square and
    /// its neighbour towards `dir` both lie inside the grid.
    pub open spec fn can_carve(self, x: int, y: int, dir: int) -> bool {
        &&& self.in_bounds(x, y)
        &&& is_direction(dir)
        &&& self.in_bounds(step_x(x, dir), step_y(y, dir))
    }

    /// Whether the growing-tree walk may go from `(x, y)` towards `dir`: the
    /// neighbour in that direction lies inside the grid and is not carved yet.
    pub open spec fn is_candidate(self, x: int, y: int, dir: int) -> bool {
        &&& self.can_carve(x, y, dir)
        &&& !self.at(step_x(x, dir), step_y(y, dir)).carved()
    }

    /// The single direction `dir` if the walk may take it from `(x, y)`, else
    /// nothing.
    pub open spec fn candidate_or_none(self, x: int, y: int, dir: u32) -> Seq<u32> {
        if self.is_candidate(x, y, dir as int) {
            seq![dir]
        } else {
            Seq::<u32>::empty()
        }
    }

    /// The directions that the walk may take from `(x, y)`, in the order
    /// north, south, east, west.
    pub open spec fn candidates(self, x: int, y: int) -> Seq<u32> {
        self.candidate_or_none(x, y, 0) + self.candidate_or_none(x, y, 1) + self.candidate_or_none(
            x,
            y,
            2,
        ) + self.candidate_or_none(x, y, 3)
    }
}

/// The candidate list holds exactly the directions that the walk may take.
pub proof fn lemma_candidates_members(g: Grid, x: int, y: int)
    ensures
        forall|dir: u32| g.candidates(x, y).contains(dir) <==> g.is_candidate(x, y, dir as int),
        g.candidates(x, y).len() == 0 <==> forall|dir: int| !g.is_candidate(x, y, dir),
        g.candidates(x, y).len() <= 4,
{
    let a = g.candidate_or_none(x, y, 0);
    let b = g.candidate_or_none(x, y, 1);
    let c = g.candidate_or_none(x, y, 2);
    let d = g.candidate_or_none(x, y, 3);
    let all = g.candidates(x, y);
    assert forall|dir: u32| all.contains(dir) <==> g.is_candidate(x, y, dir as int) by {
        if g.is_candidate(x, y, dir as int) {
            if dir == 0 {
                assert(all[0] == dir);
            } else if dir == 1 {
                assert(all[a.len() as int] == dir);
            } else if dir == 2 {
                assert(all[(a.len() + b.len()) as int] == dir);
            } else {
                assert(all[(a.len() + b.len() + c.len()) as int] == dir);
            }
        }
    }
    if all.len() == 0 {
        assert forall|dir: int| !g.is_candidate(x, y, dir) by {
            if g.is_candidate(x, y, dir) {
                assert(all.contains(dir as u32));
            }
        }
    } else {
        assert(all.contains(all[0]));
    }
}

/// Every candidate stands once in the candidate list: the places of the list
/// and the candidates correspond one to one, so that a number drawn evenly
/// from the places picks each candidate with the same chance.
pub proof fn lemma_candidates_each_once(g: Grid, x: int, y: int)
    ensures
        forall|i: int, j: int|
            0 <= i < j < g.candidates(x, y).len() ==> g.candidates(x, y)[i] < g.candidates(
                x,
                y,
            )[j],
        forall|dir: int|
            g.is_candidate(x, y, dir) ==> exists|r: int|
                0 <= r < g.candidates(x, y).len() && #[trigger] g.candidates(x, y)[r] == dir,
{
    let all = g.candidates(x, y);
    lemma_candidates_members(g, x, y);
    assert forall|dir: int| g.is_candidate(x, y, dir) implies exists|r: int|
        0 <= r < all.len() && #[trigger] all[r] == dir by {
        assert(all.contains(dir as u32));
        let r = choose|r: int| 0 <= r < all.len() && all[r] == dir as u32;
        assert(all[r] == dir);
    }
}

/// At a cell away from the outer boundary whose four neighbours are all
/// uncarved, every direction is a candidate.
pub proof fn lemma_candidates_interior(g: Grid, x: int, y: int)
    requires
        0 < x < g.cols - 1,
        0 < y < g.rows - 1,
        !g.at(x, y - 1).carved(),
        !g.at(x, y + 1).carved(),
        !g.at(x + 1, y).carved(),
        !g.at(x - 1, y).carved(),
    ensures
        g.candidates(x, y) == seq![0u32, 1u32, 2u32, 3u32],
{
    assert(g.candidates(x, y) =~= seq![0u32, 1u32, 2u32, 3u32]);
}

/// A candidate never points out of the grid. At the corner `(0, 0)` only
/// south and east can be candidates.
pub proof fn lemma_candidates_in_bounds(g: Grid, x: int, y: int, dir: u32)
    requires
        g.candidates(x, y).contains(dir),
    ensures
        is_direction(dir as int),
        g.in_bounds(x, y),
        g.in_bounds(step_x(x, dir as int), step_y(y, dir as int)),
        x == 0 && y == 0 ==> dir == 1 || dir == 2,
{
    lemma_candidates_members(g, x, y);
}

/// Once every neighbour inside the grid is carved, no candidate is left.
pub proof fn lemma_candidates_none(g: Grid, x: int, y: int)
    requires
        forall|dir: int|
            is_direction(dir) && g.in_bounds(step_x(x, dir), step_y(y, dir)) ==> g.at(
                step_x(x, dir),
                step_y(y, dir),
            ).carved(),
    ensures
        g.candidates(x, y) == Seq::<u32>::empty(),
{
    lemma_candidates_members(g, x, y);
    assert(g.candidates(x, y) =~= Seq::<u32>::empty());
}

/// What carving does, cell by cell: the origin loses the wall facing `dir`
/// and takes `id`, the neighbour loses the wall facing back and takes `id`
/// unless `carve_out` is set, and every other cell stays as it was.
pub proof fn lemma_carved_at(
    g: Grid,
    x: int,
    y: int,
    dir: int,
    id: int,
    carve_out: bool,
    cx: int,
    cy: int,
)
    requires
        g.wf(),
        g.can_carve(x, y, dir),
        g.in_bounds(cx, cy),
    ensures
        g.carved(x, y, dir, id, carve_out).wf(),
        g.carved(x, y, dir, id, carve_out).rows == g.rows,
        g.carved(x, y, dir, id, carve_out).cols == g.cols,
        g.carved(x, y, dir, id, carve_out).at(cx, cy) == if cx == x && cy == y {
            g.at(x, y).with_wall(dir, false).with_id(id)
        } else if cx == step_x(x, dir) && cy == step_y(y, dir) {
            if carve_out {
                g.at(cx, cy).with_wall(opposite(dir), false)
            } else {
                g.at(cx, cy).with_wall(opposite(dir), false).with_id(id)
            }
        } else {
            g.at(cx, cy)
        },
{
    let nx = step_x(x, dir);
    let ny = step_y(y, dir);
    lemma_offset_in_range(g.rows, g.cols, x, y);
    lemma_offset_in_range(g.rows, g.cols, nx, ny);
    lemma_offset_in_range(g.rows, g.cols, cx, cy);
    if g.offset(cx, cy) == g.offset(x, y) {
        lemma_offset_injective(g.cols, cx, cy, x, y);
    }
    if g.offset(cx, cy) == g.offset(nx, ny) {
        lemma_offset_injective(g.cols, cx, cy, nx, ny);
    }
}

/// Carving is symmetric: wherever it is allowed, it breaks the wall of the
/// origin that faces `dir` together with the wall of the neighbour that faces
/// back. Towards the outer boundary it is refused.
pub proof fn lemma_carve_symmetric(g: Grid, x: u32, y: u32, dir: u32, id: int, carve_out: bool)
    requires
        g.wf(),
    ensures
        g.carve_error(x, y, dir) is None <==> g.can_carve(x as int, y as int, dir as int),
        g.can_carve(x as int, y as int, dir as int) ==> {
            let after = g.carved(x as int, y as int, dir as int, id, carve_out);
            &&& !after.at(x as int, y as int).wall(dir as int)
            &&& !after.at(step_x(x as int, dir as int), step_y(y as int, dir as int)).wall(
                opposite(dir as int),
            )
        },
        g.in_bounds(x as int, y as int) && is_direction(dir as int) && !g.in_bounds(
            step_x(x as int, dir as int),
            step_y(y as int, dir as int),
        ) ==> g.carve_error(x, y, dir) == Some(MazeError::WallExitsMaze { x, y, dir }),
{
    if g.can_carve(x as int, y as int, dir as int) {
        let nx = step_x(x as int, dir as int);
        let ny = step_y(y as int, dir as int);
        lemma_carved_at(g, x as int, y as int, dir as int, id, carve_out, x as int, y as int);
        lemma_carved_at(g, x as int, y as int, dir as int, id, carve_out, nx, ny);
    }
}

/// Carving is idempotent: a second carve with the same arguments is allowed
/// again and leaves the grid as the first one made it.
pub proof fn lemma_carve_idempotent(g: Grid, x: int, y: int, dir: int, id: int, carve_out: bool)
    requires
        g.wf(),
        g.can_carve(x, y, dir),
    ensures
        g.carved(x, y, dir, id, carve_out).can_carve(x, y, dir),
        g.carved(x, y, dir, id, carve_out).carved(x, y, dir, id, carve_out) == g.carved(
            x,
            y,
            dir,
            id,
            carve_out,
        ),
{
    let nx = step_x(x, dir);
    let ny = step_y(y, dir);
    let once = g.carved(x, y, dir, id, carve_out);
    let twice = once.carved(x, y, dir, id, carve_out);
    lemma_offset_in_range(g.rows, g.cols, x, y);
    lemma_offset_in_range(g.rows, g.cols, nx, ny);
    if g.offset(x, y) == g.offset(nx, ny) {
        lemma_offset_injective(g.cols, x, y, nx, ny);
    }
    assert(twice.cells =~= once.cells);
}

/// A cell inside the grid has its position inside `cells`.
pub proof fn lemma_offset_in_range(rows: int, cols: int, x: int, y: int)
    requires
        0 <= x < cols,
        0 <= y < rows,
    ensures
        0 <= y * cols + x < rows * cols,
        0 <= y * cols <= y * cols + x,
{
    assert(0 <= y * cols) by (nonlinear_arith)
        requires
            0 <= y,
            0 <= cols,
    ;
    assert(y * cols + cols <= rows * cols) by (nonlinear_arith)
        requires
            y + 1 <= rows,
            0 <= cols,
    ;
}

/// Two cells of one grid with the same position in `cells` are the same cell.
pub proof fn lemma_offset_injective(cols: int, x1: int, y1: int, x2: int, y2: int)
    requires
        0 <= x1 < cols,
        0 <= x2 < cols,
        y1 * cols + x1 == y2 * cols + x2,
    ensures
        x1 == x2,
        y1 == y2,
{
    if y1 < y2 {
        assert(y1 * cols + cols <= y2 * cols) by (nonlinear_arith)
            requires
                y1 + 1 <= y2,
                0 <= cols,
        ;
    } else if y2 < y1 {
        assert(y2 * cols + cols <= y1 * cols) by (nonlinear_arith)
            requires
                y2 + 1 <= y1,
                0 <= cols,
        ;
    }
}

/// Every position of `cells` belongs to exactly one cell of the grid.
pub proof fn lemma_offset_surjective(rows: int, cols: int, i: int)
    requires
        0 <= i < rows * cols,
        0 <= rows,
        0 <= cols,
    ensures
        0 < cols,
        0 <= i % cols < cols,
        0 <= i / cols < rows,
        (i / cols) * cols + i % cols == i,
{
    if cols == 0 {
        assert(rows * cols == 0) by (nonlinear_arith)
            requires
                cols == 0,
        ;
    }
    assert(i == cols * (i / cols) + i % cols && 0 <= i % cols < cols) by (nonlinear_arith)
        requires
            0 < cols,
    ;
    assert((i / cols) * cols == cols * (i / cols)) by (nonlinear_arith);
    assert(0 <= i / cols) by (nonlinear_arith)
        requires
            0 <= i,
            0 < cols,
    ;
    if i / cols >= rows {
        assert((i / cols) * cols >= rows * cols) by (nonlinear_arith)
            requires
                i / cols >= rows,
                0 < cols,
        ;
    }
}

} // verus!
