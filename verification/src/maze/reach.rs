//! Passages, connectivity and reachability in the model of a maze, with the
//! facts about them that generation relies on.
use vstd::prelude::*;
use crate::constants::ID_MAZE_PATH;
use crate::error::MazeError;
use crate::maze::grid::{
    is_direction, lemma_candidates_members, lemma_carved_at, lemma_offset_in_range,
    lemma_offset_injective, lemma_offset_surjective, opposite, step_x, step_y, Grid,
};
use crate::maze::square::Cell;

verus! {

impl Cell {
    /// The number of walls of the cell that are gone.
    pub open spec fn missing_walls(self) -> nat {
        (if self.north {
            0nat
        } else {
            1nat
        }) + (if self.south {
            0nat
        } else {
            1nat
        }) + (if self.east {
            0nat
        } else {
            1nat
        }) + (if self.west {
            0nat
        } else {
            1nat
        })
    }

    /// This cell came out of `before` by breaking walls: no wall stands that
    /// did not stand before, and the id is the old one or the corridor id.
    pub open spec fn opened_from(self, before: Cell) -> bool {
        &&& self.north ==> before.north
        &&& self.south ==> before.south
        &&& self.east ==> before.east
        &&& self.west ==> before.west
        &&& self.id == before.id || self.id == ID_MAZE_PATH
    }
}

impl Grid {
    /// There is a passage from `(x, y)` towards `dir`: the neighbour lies
    /// inside the grid and the wall between the two is broken from both sides.
    pub open spec fn passage(self, x: int, y: int, dir: int) -> bool {
        &&& self.can_carve(x, y, dir)
        &&& !self.at(x, y).wall(dir)
        &&& !self.at(step_x(x, dir), step_y(y, dir)).wall(opposite(dir))
    }

    /// `(bx, by)` can be reached from `(ax, ay)` by walking through at most
    /// `n` passages.
    pub open spec fn linked(self, ax: int, ay: int, bx: int, by: int, n: nat) -> bool
        decreases n,
    {
        if n == 0 {
            self.in_bounds(ax, ay) && ax == bx && ay == by
        } else {
            let m = (n - 1) as nat;
            ||| self.linked(ax, ay, bx, by, m)
            ||| self.passage(bx, by, 0) && self.linked(ax, ay, step_x(bx, 0), step_y(by, 0), m)
            ||| self.passage(bx, by, 1) && self.linked(ax, ay, step_x(bx, 1), step_y(by, 1), m)
            ||| self.passage(bx, by, 2) && self.linked(ax, ay, step_x(bx, 2), step_y(by, 2), m)
            ||| self.passage(bx, by, 3) && self.linked(ax, ay, step_x(bx, 3), step_y(by, 3), m)
        }
    }

    /// A walk from `(ax, ay)` through at most `m` passages arrives at the
    /// neighbour of `(bx, by)` towards `dir`, from which a passage leads on to
    /// `(bx, by)`.
    pub open spec fn arrives(self, ax: int, ay: int, bx: int, by: int, dir: int, m: nat) -> bool {
        self.passage(bx, by, dir) && self.linked(ax, ay, step_x(bx, dir), step_y(by, dir), m)
    }

    /// A direction in which to look from `(bx, by)` for the last cell before
    /// it on a walk from `(ax, ay)` through at most `m + 1` passages: the
    /// first of the four directions from which such a walk `arrives`.
    pub open spec fn last_step(self, ax: int, ay: int, bx: int, by: int, m: nat) -> int {
        if self.arrives(ax, ay, bx, by, 0, m) {
            0
        } else if self.arrives(ax, ay, bx, by, 1, m) {
            1
        } else if self.arrives(ax, ay, bx, by, 2, m) {
            2
        } else {
            3
        }
    }

    /// A direction in which to look from `(x, y)` for the cell before it on
    /// a way from `(sx, sy)` of at most `m + 1` steps: the first of the four
    /// directions whose neighbour is reached in `m` steps.
    pub open spec fn came_from(self, sx: int, sy: int, x: int, y: int, m: nat) -> int {
        if self.reaches(sx, sy, step_x(x, 0), step_y(y, 0), m) {
            0
        } else if self.reaches(sx, sy, step_x(x, 1), step_y(y, 1), m) {
            1
        } else if self.reaches(sx, sy, step_x(x, 2), step_y(y, 2), m) {
            2
        } else {
            3
        }
    }

    /// `(bx, by)` can be reached from `(ax, ay)` by walking through passages:
    /// a flood fill that starts at the one visits the other.
    pub open spec fn connected(self, ax: int, ay: int, bx: int, by: int) -> bool {
        exists|n: nat| self.linked(ax, ay, bx, by, n)
    }

    /// `(x, y)` can be reached from `(sx, sy)` in at most `n` steps between
    /// adjacent cells, each step entering a cell that is not carved.
    pub open spec fn reaches(self, sx: int, sy: int, x: int, y: int, n: nat) -> bool
        decreases n,
    {
        if n == 0 {
            x == sx && y == sy
        } else {
            let m = (n - 1) as nat;
            ||| self.reaches(sx, sy, x, y, m)
            ||| {
                &&& self.in_bounds(x, y)
                &&& !self.at(x, y).carved()
                &&& {
                    ||| self.reaches(sx, sy, step_x(x, 0), step_y(y, 0), m)
                    ||| self.reaches(sx, sy, step_x(x, 1), step_y(y, 1), m)
                    ||| self.reaches(sx, sy, step_x(x, 2), step_y(y, 2), m)
                    ||| self.reaches(sx, sy, step_x(x, 3), step_y(y, 3), m)
                }
            }
        }
    }

    /// The wall of `(x, y)` that faces `dir` stands, or it leads to a cell
    /// that is carved.
    pub open spec fn wall_or_carved(self, x: int, y: int, dir: int) -> bool {
        self.at(x, y).wall(dir) || (self.can_carve(x, y, dir) && self.at(
            step_x(x, dir),
            step_y(y, dir),
        ).carved())
    }

    /// No direction is open to the walk at `(x, y)`.
    pub open spec fn stuck(self, x: int, y: int) -> bool {
        &&& !self.is_candidate(x, y, 0)
        &&& !self.is_candidate(x, y, 1)
        &&& !self.is_candidate(x, y, 2)
        &&& !self.is_candidate(x, y, 3)
    }

    /// This grid came out of `init` by breaking walls between cells: the
    /// dimensions are the same, every cell is `opened_from` its old value, and
    /// the walls of the outer boundary are as they were.
    pub open spec fn opened_from(self, init: Grid) -> bool {
        &&& self.wf()
        &&& init.wf()
        &&& self.rows == init.rows
        &&& self.cols == init.cols
        &&& forall|x: int, y: int| #![trigger self.at(x, y)]
            init.in_bounds(x, y) ==> self.at(x, y).opened_from(init.at(x, y))
        &&& forall|x: int, y: int, dir: int| #![trigger self.at(x, y).wall(dir)]
            init.in_bounds(x, y) && is_direction(dir) && !init.in_bounds(
                step_x(x, dir),
                step_y(y, dir),
            ) ==> self.at(x, y).wall(dir) == init.at(x, y).wall(dir)
    }
}

impl Grid {
    /// The reason for which the growing-tree walk refuses to start at
    /// `(sx, sy)`, or `None` where it runs. On a grid without cells there is
    /// nothing to do and nothing to refuse. Otherwise the start must lie
    /// inside the grid and have a neighbour that is free to be carved into.
    pub open spec fn growth_error(self, sx: u32, sy: u32) -> Option<MazeError> {
        if self.rows == 0 || self.cols == 0 {
            None
        } else if !self.in_bounds(sx as int, sy as int) {
            Some(MazeError::OutOfBounds { x: sx, y: sy })
        } else if self.candidates(sx as int, sy as int).len() == 0 {
            Some(MazeError::NoInitialDirection { x: sx, y: sy })
        } else {
            None
        }
    }

    /// Neighbours agree on the wall between them: it stands on both sides or
    /// on neither.
    pub open spec fn walls_agree(self) -> bool {
        forall|x: int, y: int, dir: int| #![trigger self.at(x, y).wall(dir)]
            self.can_carve(x, y, dir) ==> self.at(x, y).wall(dir) == self.at(
                step_x(x, dir),
                step_y(y, dir),
            ).wall(opposite(dir))
    }

    /// The walk from `(sx, sy)` has broken no wall that it had no need to
    /// break: for every cell that it newly carved, the start apart, it took
    /// down at most the two sides of one wall, and exactly these where the
    /// neighbours agreed on their walls before. So it has closed no cycle.
    pub open spec fn frugal_from(self, init: Grid, sx: int, sy: int) -> bool {
        let for_start: int = if init.at(sx, sy).carved() {
            0
        } else {
            2
        };
        let now = count_missing_walls(self.cells) + 2 * count_uncarved(self.cells) + for_start;
        let before = count_missing_walls(init.cells) + 2 * count_uncarved(init.cells);
        &&& now <= before
        &&& init.walls_agree() ==> self.walls_agree() && now == before
    }

    /// What holds of a grid that the growing-tree walk made out of `init`,
    /// starting at `(sx, sy)`, whichever directions were drawn:
    /// - walls were broken between cells and nothing else was done;
    /// - no more walls were broken than cells were newly carved;
    /// - the start is carved and belongs to a corridor, and so does every
    ///   other cell that the walk carved, unless it belonged to a room before;
    /// - a cell of a room that the walk entered and did not leave again, so
    ///   that it has lost one wall and no more, has kept the id of its room;
    /// - a cell that was carved before, the start apart, is as it was, and so
    ///   is a cell that is still not carved;
    /// - every cell that the walk carved is connected to the start;
    /// - every cell that could be reached from the start through cells that
    ///   were not carved is carved now.
    pub open spec fn grown_from(self, init: Grid, sx: int, sy: int) -> bool {
        &&& self.opened_from(init)
        &&& init.in_bounds(sx, sy)
        &&& self.frugal_from(init, sx, sy)
        &&& self.at(sx, sy).carved()
        &&& self.at(sx, sy).id == ID_MAZE_PATH
        &&& forall|x: int, y: int| #![trigger self.at(x, y)]
            init.in_bounds(x, y) && self.at(x, y).carved() && !init.at(x, y).carved() && !init.at(
                x,
                y,
            ).in_room() ==> self.at(x, y).id == ID_MAZE_PATH
        &&& forall|x: int, y: int| #![trigger self.at(x, y)]
            init.in_bounds(x, y) && !(x == sx && y == sy) && init.at(x, y).in_room() && !init.at(
                x,
                y,
            ).carved() && self.at(x, y).missing_walls() == 1 ==> self.at(x, y).id == init.at(
                x,
                y,
            ).id
        &&& forall|x: int, y: int| #![trigger self.at(x, y)]
            init.in_bounds(x, y) && !(x == sx && y == sy) && init.at(x, y).carved() ==> self.at(
                x,
                y,
            ) == init.at(x, y)
        &&& forall|x: int, y: int| #![trigger self.at(x, y)]
            init.in_bounds(x, y) && !self.at(x, y).carved() ==> self.at(x, y) == init.at(x, y)
        &&& forall|x: int, y: int| #![trigger self.connected(sx, sy, x, y)]
            init.in_bounds(x, y) && self.at(x, y).carved() && !init.at(x, y).carved()
                ==> self.connected(sx, sy, x, y)
        &&& forall|x: int, y: int, n: nat| #![trigger init.reaches(sx, sy, x, y, n)]
            init.reaches(sx, sy, x, y, n) ==> self.in_bounds(x, y) && self.at(x, y).carved()
    }

    /// What holds of a grid after the walk from the corner `(0, 0)` was asked
    /// for on `init`: where the walk ran (`ran`) on a grid with cells, the grid
    /// is `grown_from` `init`; where it was refused, or there were no cells,
    /// the grid is `init`.
    pub open spec fn grown_or_same(self, init: Grid, ran: bool) -> bool {
        if ran && init.rows != 0 && init.cols != 0 {
            self.grown_from(init, 0, 0)
        } else {
            self == init
        }
    }

    /// Every cell belongs to a corridor.
    pub open spec fn all_corridors(self) -> bool {
        forall|x: int, y: int| #![trigger self.at(x, y)]
            self.in_bounds(x, y) ==> self.at(x, y).id == ID_MAZE_PATH
    }

    /// Every cell is carved, and every cell is connected to every other: a
    /// flood fill from any cell visits all of them.
    pub open spec fn fully_connected(self) -> bool {
        &&& forall|x: int, y: int| #![trigger self.at(x, y)]
            self.in_bounds(x, y) ==> self.at(x, y).carved()
        &&& forall|ax: int, ay: int, bx: int, by: int| #![trigger self.connected(ax, ay, bx, by)]
            self.in_bounds(ax, ay) && self.in_bounds(bx, by) ==> self.connected(ax, ay, bx, by)
    }
}

impl Grid {
    /// The grid is a perfect maze: every cell is carved and connected to
    /// every other, neighbours agree on their walls, the outer boundary is
    /// closed, and there is one passage less than there are cells, so that
    /// no two cells are connected in more than one way.
    pub open spec fn perfect(self) -> bool {
        &&& self.fully_connected()
        &&& self.walls_agree()
        &&& forall|x: int, y: int, dir: int| #![trigger self.at(x, y).wall(dir)]
            self.in_bounds(x, y) && is_direction(dir) && !self.in_bounds(
                step_x(x, dir),
                step_y(y, dir),
            ) ==> self.at(x, y).wall(dir)
        &&& self.cells.len() > 0 ==> count_missing_walls(self.cells) == 2 * (self.cells.len() - 1)
    }
}

/// The number of walls that are gone, over all cells of `cells`.
pub open spec fn count_missing_walls(cells: Seq<Cell>) -> nat
    decreases cells.len(),
{
    if cells.len() == 0 {
        0
    } else {
        count_missing_walls(cells.drop_last()) + cells.last().missing_walls()
    }
}

/// Replacing one cell changes the number of missing walls by what the old
/// and the new cell count for.
pub proof fn lemma_count_missing_update(cells: Seq<Cell>, i: int, c: Cell)
    requires
        0 <= i < cells.len(),
    ensures
        count_missing_walls(cells.update(i, c)) + cells[i].missing_walls() == count_missing_walls(
            cells,
        ) + c.missing_walls(),
    decreases cells.len(),
{
    if i == cells.len() - 1 {
        assert(cells.update(i, c).drop_last() =~= cells.drop_last());
    } else {
        assert(cells.update(i, c).drop_last() =~= cells.drop_last().update(i, c));
        lemma_count_missing_update(cells.drop_last(), i, c);
    }
}

/// Among untouched cells no wall is missing and no cell is carved.
pub proof fn lemma_count_fresh(cells: Seq<Cell>)
    requires
        forall|i: int| 0 <= i < cells.len() ==> cells[i] == Cell::fresh(),
    ensures
        count_missing_walls(cells) == 0,
        count_uncarved(cells) == cells.len(),
    decreases cells.len(),
{
    if cells.len() > 0 {
        lemma_count_fresh(cells.drop_last());
    }
}

/// Where every cell is carved, the number of uncarved cells is 0.
pub proof fn lemma_count_all_carved(cells: Seq<Cell>)
    requires
        forall|i: int| 0 <= i < cells.len() ==> cells[i].carved(),
    ensures
        count_uncarved(cells) == 0,
    decreases cells.len(),
{
    if cells.len() > 0 {
        lemma_count_all_carved(cells.drop_last());
    }
}

/// The number of cells of `cells` that are not carved.
pub open spec fn count_uncarved(cells: Seq<Cell>) -> nat
    decreases cells.len(),
{
    if cells.len() == 0 {
        0
    } else {
        count_uncarved(cells.drop_last()) + if cells.last().carved() {
            0nat
        } else {
            1nat
        }
    }
}

/// Replacing one cell changes the number of uncarved cells by what the old
/// and the new cell count for.
pub proof fn lemma_count_uncarved_update(cells: Seq<Cell>, i: int, c: Cell)
    requires
        0 <= i < cells.len(),
    ensures
        count_uncarved(cells.update(i, c)) + (if cells[i].carved() {
            0nat
        } else {
            1nat
        }) == count_uncarved(cells) + (if c.carved() {
            0nat
        } else {
            1nat
        }),
    decreases cells.len(),
{
    if i == cells.len() - 1 {
        assert(cells.update(i, c).drop_last() =~= cells.drop_last());
    } else {
        assert(cells.update(i, c).drop_last() =~= cells.drop_last().update(i, c));
        lemma_count_uncarved_update(cells.drop_last(), i, c);
    }
}

/// What carving into a cell that was not carved does to the counts: the
/// neighbour is carved now, and so is the origin if it was not; the neighbour
/// has lost one wall, and the origin has lost one if that wall stood.
pub proof fn lemma_carved_counts(g: Grid, x: int, y: int, dir: int, id: int, carve_out: bool)
    requires
        g.wf(),
        g.is_candidate(x, y, dir),
    ensures
        count_uncarved(g.carved(x, y, dir, id, carve_out).cells) + 1 + (if g.at(x, y).carved() {
            0int
        } else {
            1int
        }) == count_uncarved(g.cells),
        count_missing_walls(g.carved(x, y, dir, id, carve_out).cells) == count_missing_walls(
            g.cells,
        ) + 1 + (if g.at(x, y).wall(dir) {
            1int
        } else {
            0int
        }),
{
    let nx = step_x(x, dir);
    let ny = step_y(y, dir);
    lemma_offset_in_range(g.rows, g.cols, x, y);
    lemma_offset_in_range(g.rows, g.cols, nx, ny);
    if g.offset(x, y) == g.offset(nx, ny) {
        lemma_offset_injective(g.cols, x, y, nx, ny);
    }
    let origin = g.at(x, y).with_wall(dir, false).with_id(id);
    let dest = g.carved(x, y, dir, id, carve_out).at(nx, ny);
    let first = g.cells.update(g.offset(x, y), origin);
    lemma_count_uncarved_update(g.cells, g.offset(x, y), origin);
    lemma_count_uncarved_update(first, g.offset(nx, ny), dest);
    lemma_count_missing_update(g.cells, g.offset(x, y), origin);
    lemma_count_missing_update(first, g.offset(nx, ny), dest);
}

/// Carving keeps neighbours in agreement on their walls.
pub proof fn lemma_carved_walls_agree(g: Grid, x: int, y: int, dir: int, id: int, carve_out: bool)
    requires
        g.wf(),
        g.can_carve(x, y, dir),
        g.walls_agree(),
    ensures
        g.carved(x, y, dir, id, carve_out).walls_agree(),
{
    let h = g.carved(x, y, dir, id, carve_out);
    assert forall|cx: int, cy: int, d: int| #![trigger h.at(cx, cy).wall(d)]
        h.can_carve(cx, cy, d) implies h.at(cx, cy).wall(d) == h.at(
        step_x(cx, d),
        step_y(cy, d),
    ).wall(opposite(d)) by {
        lemma_carved_at(g, x, y, dir, id, carve_out, cx, cy);
        lemma_carved_at(g, x, y, dir, id, carve_out, step_x(cx, d), step_y(cy, d));
        assert(g.at(cx, cy).wall(d) == g.at(step_x(cx, d), step_y(cy, d)).wall(opposite(d)));
    }
}

/// On a grid of untouched cells every cell can be reached from the corner
/// `(0, 0)` through cells that are not carved.
pub proof fn lemma_fresh_reaches(g: Grid, x: int, y: int)
    requires
        g.wf(),
        g.all_fresh(),
        g.in_bounds(x, y),
    ensures
        g.reaches(0, 0, x, y, (x + y) as nat),
    decreases x + y,
{
    lemma_offset_in_range(g.rows, g.cols, x, y);
    assert(!g.at(x, y).carved());
    if x > 0 {
        lemma_fresh_reaches(g, x - 1, y);
        assert(step_x(x, 3) == x - 1 && step_y(y, 3) == y);
    } else if y > 0 {
        lemma_fresh_reaches(g, x, y - 1);
        assert(step_x(x, 0) == x && step_y(y, 0) == y - 1);
    }
}

/// On a grid of untouched cells the walk from the corner `(0, 0)` is refused
/// in one case only: when the grid is a single cell, which has no neighbour.
pub proof fn lemma_fresh_growth_error(rows: int, cols: int)
    requires
        0 <= rows,
        0 <= cols,
    ensures
        Grid::fresh(rows, cols).growth_error(0, 0) == if rows == 1 && cols == 1 {
            Some(MazeError::NoInitialDirection { x: 0, y: 0 })
        } else {
            None
        },
{
    let g = Grid::fresh(rows, cols);
    assert(0 <= rows * cols) by (nonlinear_arith)
        requires
            0 <= rows,
            0 <= cols,
    ;
    lemma_candidates_members(g, 0, 0);
    if rows > 0 && cols > 0 {
        if rows > 1 {
            lemma_offset_in_range(rows, cols, 0, 1);
            assert(g.is_candidate(0, 0, 1));
        } else if cols > 1 {
            lemma_offset_in_range(rows, cols, 1, 0);
            assert(g.is_candidate(0, 0, 2));
        }
    }
}

/// After the walk from the corner `(0, 0)` of a grid of untouched cells,
/// every cell is carved and connected to the corner.
pub proof fn lemma_grown_cell_from_fresh(init: Grid, grown: Grid, x: int, y: int)
    requires
        init.all_fresh(),
        grown.grown_from(init, 0, 0),
        grown.in_bounds(x, y),
    ensures
        grown.at(x, y).carved(),
        grown.at(x, y).id == ID_MAZE_PATH,
        grown.connected(0, 0, x, y),
{
    lemma_fresh_reaches(init, x, y);
    lemma_offset_in_range(init.rows, init.cols, x, y);
    assert(init.at(x, y) == Cell::fresh());
    assert(grown.at(x, y).carved());
}

/// A perfect maze: the growing-tree walk from the corner `(0, 0)` of a grid
/// of untouched cells carves every cell, connects every cell to every
/// other, and closes no cycle.
pub proof fn lemma_grown_from_fresh(init: Grid, grown: Grid)
    requires
        init.all_fresh(),
        grown.grown_from(init, 0, 0),
    ensures
        grown.fully_connected(),
        grown.perfect(),
        grown.all_corridors(),
{
    assert forall|x: int, y: int| #![trigger grown.at(x, y)] grown.in_bounds(x, y) implies grown.at(
        x,
        y,
    ).carved() && grown.at(x, y).id == ID_MAZE_PATH by {
        lemma_grown_cell_from_fresh(init, grown, x, y);
    }
    assert forall|ax: int, ay: int, bx: int, by: int| #![trigger grown.connected(ax, ay, bx, by)]
        grown.in_bounds(ax, ay) && grown.in_bounds(bx, by) implies grown.connected(
        ax,
        ay,
        bx,
        by,
    ) by {
        lemma_grown_cell_from_fresh(init, grown, ax, ay);
        lemma_grown_cell_from_fresh(init, grown, bx, by);
        lemma_connected_symmetric(grown, 0, 0, ax, ay);
        lemma_connected_transitive(grown, ax, ay, 0, 0, bx, by);
    }
    // the walls of the untouched grid all stand
    assert forall|x: int, y: int| #![trigger init.at(x, y)] init.in_bounds(x, y) implies init.at(
        x,
        y,
    ) == Cell::fresh() by {
        lemma_offset_in_range(init.rows, init.cols, x, y);
    }
    assert(init.walls_agree()) by {
        assert forall|x: int, y: int, dir: int| #![trigger init.at(x, y).wall(dir)]
            init.can_carve(x, y, dir) implies init.at(x, y).wall(dir) == init.at(
            step_x(x, dir),
            step_y(y, dir),
        ).wall(opposite(dir)) by {
            assert(init.at(x, y) == Cell::fresh());
            assert(init.at(step_x(x, dir), step_y(y, dir)) == Cell::fresh());
        }
    }
    assert forall|x: int, y: int, dir: int| #![trigger grown.at(x, y).wall(dir)]
        grown.in_bounds(x, y) && is_direction(dir) && !grown.in_bounds(
            step_x(x, dir),
            step_y(y, dir),
        ) implies grown.at(x, y).wall(dir) by {
        assert(init.at(x, y) == Cell::fresh());
    }
    // the counts
    lemma_count_fresh(init.cells);
    assert forall|i: int| 0 <= i < grown.cells.len() implies grown.cells[i].carved() by {
        lemma_offset_surjective(grown.rows, grown.cols, i);
        assert(grown.at(i % grown.cols, i / grown.cols).carved());
    }
    lemma_count_all_carved(grown.cells);
    lemma_offset_in_range(init.rows, init.cols, 0, 0);
}

/// A walk that needs all of its `n` passages has a last one.
pub proof fn lemma_last_step(g: Grid, ax: int, ay: int, bx: int, by: int, n: nat)
    requires
        n > 0,
        g.linked(ax, ay, bx, by, n),
        !g.linked(ax, ay, bx, by, (n - 1) as nat),
    ensures
        is_direction(g.last_step(ax, ay, bx, by, (n - 1) as nat)),
        g.arrives(ax, ay, bx, by, g.last_step(ax, ay, bx, by, (n - 1) as nat), (n - 1) as nat),
{
}

/// A way that needs all of its `n` steps has a last one, into a cell that is
/// not carved.
pub proof fn lemma_came_from(g: Grid, sx: int, sy: int, x: int, y: int, n: nat)
    requires
        n > 0,
        g.reaches(sx, sy, x, y, n),
        !g.reaches(sx, sy, x, y, (n - 1) as nat),
    ensures
        is_direction(g.came_from(sx, sy, x, y, (n - 1) as nat)),
        g.in_bounds(x, y),
        !g.at(x, y).carved(),
        g.reaches(
            sx,
            sy,
            step_x(x, g.came_from(sx, sy, x, y, (n - 1) as nat)),
            step_y(y, g.came_from(sx, sy, x, y, (n - 1) as nat)),
            (n - 1) as nat,
        ),
{
}

/// A bound on the number of passages may be raised.
pub proof fn lemma_linked_longer(g: Grid, ax: int, ay: int, bx: int, by: int, n: nat, m: nat)
    requires
        g.linked(ax, ay, bx, by, n),
        n <= m,
    ensures
        g.linked(ax, ay, bx, by, m),
    decreases m,
{
    if n < m {
        lemma_linked_longer(g, ax, ay, bx, by, n, (m - 1) as nat);
    }
}

/// A passage can be walked in both directions.
pub proof fn lemma_passage_symmetric(g: Grid, x: int, y: int, dir: int)
    requires
        g.passage(x, y, dir),
    ensures
        g.passage(step_x(x, dir), step_y(y, dir), opposite(dir)),
        step_x(step_x(x, dir), opposite(dir)) == x,
        step_y(step_y(y, dir), opposite(dir)) == y,
        opposite(opposite(dir)) == dir,
{
}

/// A walk can be continued through one more passage.
pub proof fn lemma_linked_extend(g: Grid, ax: int, ay: int, cx: int, cy: int, dir: int, n: nat)
    requires
        g.linked(ax, ay, cx, cy, n),
        g.passage(cx, cy, dir),
    ensures
        g.linked(ax, ay, step_x(cx, dir), step_y(cy, dir), n + 1),
{
    lemma_passage_symmetric(g, cx, cy, dir);
    let bx = step_x(cx, dir);
    let by = step_y(cy, dir);
    let back = opposite(dir);
    assert(g.passage(bx, by, back) && g.linked(ax, ay, step_x(bx, back), step_y(by, back), n));
    assert((n + 1 - 1) as nat == n);
}

/// Two walks, the second starting where the first ends, make one walk.
pub proof fn lemma_linked_transitive(
    g: Grid,
    ax: int,
    ay: int,
    bx: int,
    by: int,
    cx: int,
    cy: int,
    n: nat,
    k: nat,
)
    requires
        g.linked(ax, ay, bx, by, n),
        g.linked(bx, by, cx, cy, k),
    ensures
        g.linked(ax, ay, cx, cy, n + k),
    decreases k,
{
    if k > 0 {
        let m = (k - 1) as nat;
        assert((n + k - 1) as nat == n + m);
        if g.linked(bx, by, cx, cy, m) {
            lemma_linked_transitive(g, ax, ay, bx, by, cx, cy, n, m);
        } else {
            let dir = g.last_step(bx, by, cx, cy, m);
            lemma_last_step(g, bx, by, cx, cy, k);
            lemma_linked_transitive(g, ax, ay, bx, by, step_x(cx, dir), step_y(cy, dir), n, m);
        }
    }
}

/// A walk can be walked backwards.
pub proof fn lemma_linked_symmetric(g: Grid, ax: int, ay: int, bx: int, by: int, n: nat)
    requires
        g.linked(ax, ay, bx, by, n),
    ensures
        g.linked(bx, by, ax, ay, n),
    decreases n,
{
    if n > 0 {
        let m = (n - 1) as nat;
        if g.linked(ax, ay, bx, by, m) {
            lemma_linked_symmetric(g, ax, ay, bx, by, m);
            lemma_linked_longer(g, bx, by, ax, ay, m, n);
        } else {
            let dir = g.last_step(ax, ay, bx, by, m);
            lemma_last_step(g, ax, ay, bx, by, n);
            let cx = step_x(bx, dir);
            let cy = step_y(by, dir);
            lemma_linked_symmetric(g, ax, ay, cx, cy, m);
            assert(g.linked(bx, by, bx, by, 0));
            lemma_linked_extend(g, bx, by, bx, by, dir, 0);
            lemma_linked_transitive(g, bx, by, cx, cy, ax, ay, 1, m);
        }
    }
}

/// Breaking walls keeps every walk: what was linked in `g` is linked in a
/// grid that was opened from `g`.
pub proof fn lemma_linked_preserved(
    g: Grid,
    h: Grid,
    ax: int,
    ay: int,
    bx: int,
    by: int,
    n: nat,
)
    requires
        h.opened_from(g),
        g.linked(ax, ay, bx, by, n),
    ensures
        h.linked(ax, ay, bx, by, n),
    decreases n,
{
    if n > 0 {
        let m = (n - 1) as nat;
        if g.linked(ax, ay, bx, by, m) {
            lemma_linked_preserved(g, h, ax, ay, bx, by, m);
        } else {
            let dir = g.last_step(ax, ay, bx, by, m);
            lemma_last_step(g, ax, ay, bx, by, n);
            let cx = step_x(bx, dir);
            let cy = step_y(by, dir);
            lemma_linked_preserved(g, h, ax, ay, cx, cy, m);
            assert(h.at(bx, by).opened_from(g.at(bx, by)));
            assert(h.at(cx, cy).opened_from(g.at(cx, cy)));
            assert(h.passage(bx, by, dir));
        }
    }
}

/// Being connected is symmetric.
pub proof fn lemma_connected_symmetric(g: Grid, ax: int, ay: int, bx: int, by: int)
    requires
        g.connected(ax, ay, bx, by),
    ensures
        g.connected(bx, by, ax, ay),
{
    let n = choose|n: nat| g.linked(ax, ay, bx, by, n);
    lemma_linked_symmetric(g, ax, ay, bx, by, n);
}

/// Being connected is transitive.
pub proof fn lemma_connected_transitive(
    g: Grid,
    ax: int,
    ay: int,
    bx: int,
    by: int,
    cx: int,
    cy: int,
)
    requires
        g.connected(ax, ay, bx, by),
        g.connected(bx, by, cx, cy),
    ensures
        g.connected(ax, ay, cx, cy),
{
    let n = choose|n: nat| g.linked(ax, ay, bx, by, n);
    let k = choose|k: nat| g.linked(bx, by, cx, cy, k);
    lemma_linked_transitive(g, ax, ay, bx, by, cx, cy, n, k);
}

/// Breaking walls keeps cells connected.
pub proof fn lemma_connected_preserved(g: Grid, h: Grid, ax: int, ay: int, bx: int, by: int)
    requires
        h.opened_from(g),
        g.connected(ax, ay, bx, by),
    ensures
        h.connected(ax, ay, bx, by),
{
    let n = choose|n: nat| g.linked(ax, ay, bx, by, n);
    lemma_linked_preserved(g, h, ax, ay, bx, by, n);
}

/// Two cells with a passage between them are connected to the same cells.
pub proof fn lemma_connected_extend(g: Grid, ax: int, ay: int, cx: int, cy: int, dir: int)
    requires
        g.connected(ax, ay, cx, cy),
        g.passage(cx, cy, dir),
    ensures
        g.connected(ax, ay, step_x(cx, dir), step_y(cy, dir)),
{
    let n = choose|n: nat| g.linked(ax, ay, cx, cy, n);
    lemma_linked_extend(g, ax, ay, cx, cy, dir, n);
}

/// `opened_from` is reflexive and transitive.
pub proof fn lemma_opened_from_chain(a: Grid, b: Grid, c: Grid)
    requires
        b.opened_from(a),
        c.opened_from(b),
    ensures
        a.opened_from(a),
        c.opened_from(a),
{
    assert forall|x: int, y: int| #![trigger c.at(x, y)] a.in_bounds(x, y) implies c.at(
        x,
        y,
    ).opened_from(a.at(x, y)) by {
        assert(b.at(x, y).opened_from(a.at(x, y)));
    }
    assert forall|x: int, y: int, dir: int| #![trigger c.at(x, y).wall(dir)]
        a.in_bounds(x, y) && is_direction(dir) && !a.in_bounds(
            step_x(x, dir),
            step_y(y, dir),
        ) implies c.at(x, y).wall(dir) == a.at(x, y).wall(dir) by {
        assert(b.at(x, y).wall(dir) == a.at(x, y).wall(dir));
    }
}

/// Carving a corridor opens the grid: it breaks the wall between two cells
/// and nothing else, and it sets no id but that of a corridor.
pub proof fn lemma_carved_opened_from(g: Grid, x: int, y: int, dir: int, carve_out: bool)
    requires
        g.wf(),
        g.can_carve(x, y, dir),
    ensures
        g.carved(x, y, dir, ID_MAZE_PATH as int, carve_out).opened_from(g),
        g.carved(x, y, dir, ID_MAZE_PATH as int, carve_out).passage(x, y, dir),
{
    let id = ID_MAZE_PATH as int;
    let h = g.carved(x, y, dir, id, carve_out);
    lemma_carved_at(g, x, y, dir, id, carve_out, x, y);
    lemma_carved_at(g, x, y, dir, id, carve_out, step_x(x, dir), step_y(y, dir));
    assert forall|cx: int, cy: int| #![trigger h.at(cx, cy)] g.in_bounds(cx, cy) implies h.at(
        cx,
        cy,
    ).opened_from(g.at(cx, cy)) by {
        lemma_carved_at(g, x, y, dir, id, carve_out, cx, cy);
    }
    assert forall|cx: int, cy: int, d: int| #![trigger h.at(cx, cy).wall(d)]
        g.in_bounds(cx, cy) && is_direction(d) && !g.in_bounds(
            step_x(cx, d),
            step_y(cy, d),
        ) implies h.at(cx, cy).wall(d) == g.at(cx, cy).wall(d) by {
        lemma_carved_at(g, x, y, dir, id, carve_out, cx, cy);
    }
}

} // verus!
