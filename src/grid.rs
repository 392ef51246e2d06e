use vstd::prelude::*;

verus! {

/// One square of the grid: its letter and the letter's point value.
#[derive(Clone, Copy)]
pub struct Cell {
    pub letter: char,
    pub value: u32,
}

impl Default for Cell {
    /// A blank cell: a space worth nothing.
    fn default() -> (c: Cell)
        ensures
            c.letter == ' ',
            c.value == 0,
    {
        Cell { letter: ' ', value: 0 }
    }
}

/// Row offset of neighbour `k`, in the order NW, N, NE, W, E, SW, S, SE.
pub open spec fn row_step(k: int) -> int {
    if k < 3 {
        -1
    } else if k < 5 {
        0
    } else {
        1
    }
}

/// Column offset of neighbour `k`, in the order NW, N, NE, W, E, SW, S, SE.
pub open spec fn col_step(k: int) -> int {
    if k == 0 || k == 3 || k == 5 {
        -1
    } else if k == 1 || k == 6 {
        0
    } else {
        1
    }
}

/// Row-major position of `(row, col)` in a grid `width` cells wide.
pub open spec fn flat_index(width: int, row: int, col: int) -> int {
    row * width + col
}

pub proof fn lemma_flat_index_bounds(width: int, height: int, row: int, col: int)
    requires
        0 <= row < height,
        0 <= col < width,
    ensures
        0 <= flat_index(width, row, col) < width * height,
        row * width + width <= width * height,
{
    assert(0 <= row * width + col < width * height) by (nonlinear_arith)
        requires
            0 <= row < height,
            0 <= col < width,
    ;
    assert(row * width + width <= width * height) by (nonlinear_arith)
        requires
            0 <= row < height,
            0 <= col < width,
    ;
}

pub proof fn lemma_flat_index_injective(width: int, r1: int, c1: int, r2: int, c2: int)
    requires
        0 <= r1,
        0 <= r2,
        0 <= c1 < width,
        0 <= c2 < width,
        flat_index(width, r1, c1) == flat_index(width, r2, c2),
    ensures
        r1 == r2,
        c1 == c2,
{
    if r1 < r2 {
        assert(r1 * width + width <= r2 * width) by (nonlinear_arith)
            requires
                r1 < r2,
                0 <= width,
        ;
    } else if r2 < r1 {
        assert(r2 * width + width <= r1 * width) by (nonlinear_arith)
            requires
                r2 < r1,
                0 <= width,
        ;
    }
}

/// A rectangular grid of cells, `height` rows of `width` cells.
pub struct Grid {
    /// The cells in row-major order.
    pub cells: Vec<Cell>,
    pub width: usize,
    pub height: usize,
}

impl View for Grid {
    type V = Seq<Seq<Cell>>;

    /// The grid as rows of cells.
    open spec fn view(&self) -> Seq<Seq<Cell>> {
        Seq::new(
            self.height as nat,
            |r: int|
                Seq::new(
                    self.width as nat,
                    |c: int| self.cells@[flat_index(self.width as int, r, c)],
                ),
        )
    }
}

impl Grid {
    /// The cell storage holds exactly one cell per position.
    pub open spec fn well_formed(&self) -> bool {
        self.cells@.len() == self.width * self.height
    }

    /// Whether `(row, col)` lies inside the grid.
    pub open spec fn in_bounds(&self, row: int, col: int) -> bool {
        0 <= row < self.height && 0 <= col < self.width
    }

    /// Neighbour `k` of `(row, col)`, or `None` where it would fall off the grid.
    pub open spec fn neighbor(&self, row: int, col: int, k: int) -> Option<Cell> {
        let r = row + row_step(k);
        let c = col + col_step(k);
        if self.in_bounds(r, c) {
            Some(self@[r][c])
        } else {
            None
        }
    }

    /// A grid of the given size whose cells are all blank.
    pub fn init(width: usize, height: usize) -> (g: Grid)
        requires
            width * height <= usize::MAX,
        ensures
            g.well_formed(),
            g.width == width,
            g.height == height,
            forall|r: int, c: int| g.in_bounds(r, c) ==> #[trigger] g@[r][c] == (Cell { letter: ' ', value: 0 }),
    {
        let n = width * height;
        let mut cells: Vec<Cell> = Vec::new();
        let mut i: usize = 0;
        while i < n
            invariant
                i <= n,
                cells@.len() == i,
                forall|j: int| 0 <= j < i ==> #[trigger] cells@[j] == (Cell { letter: ' ', value: 0 }),
            decreases n - i,
        {
            cells.push(Cell::default());
            i = i + 1;
        }
        let g = Grid { cells, width, height };
        assert forall|r: int, c: int| g.in_bounds(r, c) implies #[trigger] g@[r][c] == (Cell { letter: ' ', value: 0 }) by {
            lemma_flat_index_bounds(width as int, height as int, r, c);
        }
        g
    }

    /// Writes `letter` and `value` into the cell at `(row, col)`.
    pub fn set(&mut self, letter: char, value: u32, row: usize, col: usize)
        requires
            old(self).well_formed(),
            row < old(self).height,
            col < old(self).width,
        ensures
            final(self).well_formed(),
            final(self).width == old(self).width,
            final(self).height == old(self).height,
            final(self)@ == old(self)@.update(
                row as int,
                old(self)@[row as int].update(col as int, (Cell { letter, value })),
            ),
    {
        proof {
            lemma_flat_index_bounds(self.width as int, self.height as int, row as int, col as int);
        }
        let ghost before = self@;
        let _len = self.cells.len();
        self.cells.set(row * self.width + col, Cell { letter, value });
        let ghost after = before.update(row as int, before[row as int].update(col as int, Cell { letter, value }));
        assert forall|r: int| 0 <= r < self.height implies #[trigger] self@[r] =~= after[r] by {
            assert forall|c: int| 0 <= c < self.width implies self@[r][c] == after[r][c] by {
                lemma_flat_index_bounds(self.width as int, self.height as int, r, c);
                if r != row || c != col {
                    if flat_index(self.width as int, r, c) == flat_index(self.width as int, row as int, col as int) {
                        lemma_flat_index_injective(self.width as int, r, c, row as int, col as int);
                    }
                }
            }
        }
        assert(self@ =~= after);
    }

    /// The cell at `(row, col)`.
    pub fn get(&self, row: usize, col: usize) -> (c: Cell)
        requires
            self.well_formed(),
            row < self.height,
            col < self.width,
        ensures
            c == self@[row as int][col as int],
    {
        proof {
            lemma_flat_index_bounds(self.width as int, self.height as int, row as int, col as int);
        }
        let _len = self.cells.len();
        self.cells[row * self.width + col]
    }

    /// The eight neighbours of `(row, col)` in the order NW, N, NE, W, E, SW,
    /// S, SE; a slot is `None` where the neighbour would fall off the grid.
    pub fn find_neighbors(&self, row: usize, col: usize) -> (r: [Option<Cell>; 8])
        requires
            self.well_formed(),
            row < self.height,
            col < self.width,
        ensures
            forall|k: int| 0 <= k < 8 ==> #[trigger] r@[k] == self.neighbor(row as int, col as int, k),
    {
        let left_bound = col > 0;
        let upper_bound = row > 0;
        let right_bound = col < self.width - 1;
        let bottom_bound = row < self.height - 1;
        let possible_neighbors: [Option<Cell>; 8] = [
            if upper_bound && left_bound {
                Some(self.get(row - 1, col - 1))
            } else {
                None
            },
            if upper_bound {
                Some(self.get(row - 1, col))
            } else {
                None
            },
            if upper_bound && right_bound {
                Some(self.get(row - 1, col + 1))
            } else {
                None
            },
            if left_bound {
                Some(self.get(row, col - 1))
            } else {
                None
            },
            if right_bound {
                Some(self.get(row, col + 1))
            } else {
                None
            },
            if bottom_bound && left_bound {
                Some(self.get(row + 1, col - 1))
            } else {
                None
            },
            if bottom_bound {
                Some(self.get(row + 1, col))
            } else {
                None
            },
            if bottom_bound && right_bound {
                Some(self.get(row + 1, col + 1))
            } else {
                None
            },
        ];
        possible_neighbors
    }
}

} // verus!
