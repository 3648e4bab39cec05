//! The text picture of a maze: `X` for a piece of wall, a blank for open
//! floor, two characters per square.
use vstd::prelude::*;
use vstd::string::StringExecFns;
use crate::constants::{DIR_EAST, DIR_SOUTH};
use crate::maze::grid::{lemma_offset_in_range, Grid};
use crate::maze::Maze;

verus! {

impl Grid {
    /// The two characters that cell `(x, y)` adds to the line that shows the
    /// walls between the cells of row `y`: the floor of the cell, then its
    /// east wall.
    pub open spec fn side_glyphs(self, x: int, y: int) -> Seq<char> {
        if self.at(x, y).east {
            seq![' ', 'X']
        } else {
            seq![' ', ' ']
        }
    }

    /// The two characters that cell `(x, y)` adds to the line below row `y`:
    /// its south wall, then the corner post to the south east. Where the
    /// south wall is gone the post is left out too if the cell and its east
    /// neighbour both are part of a room, so that no posts stand inside an
    /// open room.
    pub open spec fn floor_glyphs(self, x: int, y: int) -> Seq<char> {
        if self.at(x, y).south {
            seq!['X', 'X']
        } else if self.in_bounds(x + 1, y) && self.at(x, y).in_room() && self.at(
            x + 1,
            y,
        ).in_room() {
            seq![' ', ' ']
        } else {
            seq![' ', 'X']
        }
    }

    /// Character `j` of line `r` of the picture. Line 0 is the top border;
    /// row `y` of the grid is shown by line `2 * y + 1`, with the walls
    /// between its cells, and line `2 * y + 2`, with the walls below it. Each
    /// line starts with a piece of the left border, and cell `x` fills the
    /// characters `2 * x + 1` and `2 * x + 2`.
    pub open spec fn glyph(self, r: int, j: int) -> char {
        if r == 0 || j == 0 {
            'X'
        } else if (r - 1) % 2 == 0 {
            self.side_glyphs((j - 1) / 2, (r - 1) / 2)[(j - 1) % 2]
        } else {
            self.floor_glyphs((j - 1) / 2, (r - 1) / 2)[(j - 1) % 2]
        }
    }

    /// Line `r` of the picture: `2 * cols + 1` characters.
    pub open spec fn text_line(self, r: int) -> Seq<char> {
        Seq::new((2 * self.cols + 1) as nat, |j: int| self.glyph(r, j))
    }

    /// Whether `line` holds the first `n` characters of line `r`.
    pub open spec fn is_line_start(self, line: Seq<char>, r: int, n: int) -> bool {
        &&& line.len() == n
        &&& forall|j: int| 0 <= j < n ==> line[j] == self.glyph(r, j)
    }
}

impl Maze {
    /// Draws the maze as text, one string per line: the top border, and then
    /// two lines for each row of the maze, the first with the walls between
    /// its squares and the second with the walls below them.
    pub fn render(&self) -> (lines: Vec<String>)
        requires
            self.wf(),
        ensures
            lines@.len() == 2 * self@.rows + 1,
            forall|r: int| 0 <= r < lines@.len() ==> (#[trigger] lines@[r])@ == self@.text_line(r),
    {
        proof {
            reveal_strlit("X");
            reveal_strlit("XX");
            reveal_strlit(" X");
            reveal_strlit("  ");
        }
        let mut lines: Vec<String> = Vec::new();

        // The first row
        let mut line = String::new();
        line.append("X");
        let mut x: u32 = 0;
        while x < self.cols
            invariant
                x <= self.cols,
                "XX"@ == seq!['X', 'X'],
                self@.is_line_start(line@, 0, 2 * x + 1),
            decreases self.cols - x,
        {
            line.append("XX");
            x = x + 1;
        }
        assert(line@ =~= self@.text_line(0));
        lines.push(line);

        let mut y: u32 = 0;
        while y < self.rows
            invariant
                self.wf(),
                y <= self.rows,
                "X"@ == seq!['X'],
                "XX"@ == seq!['X', 'X'],
                " X"@ == seq![' ', 'X'],
                "  "@ == seq![' ', ' '],
                lines@.len() == 2 * y + 1,
                forall|r: int|
                    0 <= r < lines@.len() ==> (#[trigger] lines@[r])@ == self@.text_line(r),
            decreases self.rows - y,
        {
            let mut line = String::new();
            line.append("X");
            let mut x: u32 = 0;
            while x < self.cols
                invariant
                    self.wf(),
                    y < self.rows,
                    x <= self.cols,
                    " X"@ == seq![' ', 'X'],
                    "  "@ == seq![' ', ' '],
                    self@.is_line_start(line@, 2 * y + 1, 2 * x + 1),
                decreases self.cols - x,
            {
                proof {
                    lemma_offset_in_range(self.rows as int, self.cols as int, x as int, y as int);
                }
                let sq = &self.sq[self.get_offset(x, y)];
                if sq.is_wall_present(DIR_EAST) {
                    line.append(" X");
                } else {
                    line.append("  ");
                }
                x = x + 1;
            }
            assert(line@ =~= self@.text_line(2 * y + 1));
            lines.push(line);

            let mut line = String::new();
            line.append("X");
            let mut x: u32 = 0;
            while x < self.cols
                invariant
                    self.wf(),
                    y < self.rows,
                    x <= self.cols,
                    "XX"@ == seq!['X', 'X'],
                    " X"@ == seq![' ', 'X'],
                    "  "@ == seq![' ', ' '],
                    self@.is_line_start(line@, 2 * y + 2, 2 * x + 1),
                decreases self.cols - x,
            {
                proof {
                    lemma_offset_in_range(self.rows as int, self.cols as int, x as int, y as int);
                }
                let sq = &self.sq[self.get_offset(x, y)];
                if sq.is_wall_present(DIR_SOUTH) {
                    line.append("XX");
                } else {
                    // Leave out the post inside a room: this square and the
                    // one to the east both belong to a room.
                    let mut in_room = false;
                    if x < self.cols - 1 {
                        proof {
                            lemma_offset_in_range(
                                self.rows as int,
                                self.cols as int,
                                x + 1,
                                y as int,
                            );
                        }
                        let sq2 = &self.sq[self.get_offset(x + 1, y)];
                        in_room = sq.is_part_of_room() && sq2.is_part_of_room();
                    }
                    if in_room {
                        line.append("  ");
                    } else {
                        line.append(" X");
                    }
                }
                x = x + 1;
            }
            assert(line@ =~= self@.text_line(2 * y + 2));
            lines.push(line);
            y = y + 1;
        }
        lines
    }
}

} // verus!
