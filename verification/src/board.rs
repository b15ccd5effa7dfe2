//! The board: grid storage with checked access, the fall of a piece to its
//! resting row, and the clearing of completed rows.

use crate::grid::{
    blank, can_land, clamped, cleared, filled, free_at, is_full, is_grid, landed,
    lemma_cleared_drops, lemma_cleared_keeps, lemma_cleared_len, lemma_resting_row_unique,
    resting_row, rests_at, stamped, without_row,
};
use crate::piece::{
    is_matrix, matrix_of, piece_shape, rotate_piece, rotated, shape_matrix, Rotation, Shape,
};
use vstd::prelude::*;

verus! {

/// The one way in which access to the board fails.
#[derive(Copy, Clone, Debug, PartialEq, Eq, Structural)]
pub enum BoardError {
    /// A column or row lies outside the board.
    OutOfBounds,
}

/// A board of fixed size. Row 0 is the top row; pieces fall towards the
/// last row.
pub struct Board {
    cell_size: usize,
    width: usize,
    height: usize,
    grid: Vec<Option<Shape>>,
}

/// A cell inside the board has a place in the row-major storage.
proof fn lemma_flat_index(x: int, y: int, width: int, height: int)
    by (nonlinear_arith)
    requires
        0 <= x < width,
        0 <= y < height,
    ensures
        0 <= y * width <= y * width + x < width * height,
{
}

/// Two cells of the board that share their place in the storage are the
/// same cell.
proof fn lemma_flat_index_unique(x1: int, y1: int, x2: int, y2: int, width: int)
    by (nonlinear_arith)
    requires
        0 <= x1 < width,
        0 <= x2 < width,
        0 <= y1,
        0 <= y2,
        y1 * width + x1 == y2 * width + x2,
    ensures
        x1 == x2,
        y1 == y2,
{
}

/// The grid while a piece is being written row by row: the filled cells of
/// the matrix rows before `mr`, and of row `mr` before column `mc`, are
/// written already.
spec fn stamped_before(
    g: Seq<Seq<Option<Shape>>>,
    m: Seq<Seq<u8>>,
    col: int,
    row: int,
    piece: Shape,
    mr: int,
    mc: int,
) -> Seq<Seq<Option<Shape>>> {
    Seq::new(
        g.len(),
        |r: int|
            Seq::new(
                g[r].len(),
                |c: int|
                    if filled(m, r - row, c - col) && (r - row < mr || (r - row == mr && c - col
                        < mc)) {
                        Some(piece)
                    } else {
                        g[r][c]
                    },
            ),
    )
}

/// The grid while row `line` is being taken out: the rows from `line` up to
/// row `y` hold what stood one row higher, row `y` does so up to column `x`,
/// and the top row is empty up to column `top`.
spec fn shifted_down(g: Seq<Seq<Option<Shape>>>, line: int, y: int, x: int, top: int) -> Seq<
    Seq<Option<Shape>>,
> {
    Seq::new(
        g.len(),
        |r: int|
            Seq::new(
                g[r].len(),
                |c: int|
                    if r == 0 && c < top {
                        None
                    } else if 0 < r <= line && (y < r || (r == y && c < x)) {
                        g[r - 1][c]
                    } else {
                        g[r][c]
                    },
            ),
    )
}

/// A point lies in one of the first `count` cells of side `cell` exactly if
/// it lies before their far edge.
proof fn lemma_cell_of_point(x: int, cell: int, count: int)
    by (nonlinear_arith)
    requires
        0 <= x,
        0 < cell,
        0 <= count,
    ensures
        (x / cell < count) <==> (x < count * cell),
        0 <= x / cell,
{
}

/// The rotation that a row at the given distance from the floor stands for:
/// the four rows above the floor stand for the four rotations.
pub open spec fn rotation_at(distance: int) -> Option<Rotation> {
    if distance == 4 {
        Some(Rotation::OneEighty)
    } else if distance == 3 {
        Some(Rotation::Clockwise)
    } else if distance == 2 {
        Some(Rotation::Normal)
    } else if distance == 1 {
        Some(Rotation::CounterClockwise)
    } else {
        None
    }
}

impl View for Board {
    type V = Seq<Seq<Option<Shape>>>;

    /// The rows of the board, top row first.
    closed spec fn view(&self) -> Seq<Seq<Option<Shape>>> {
        Seq::new(
            self.height as nat,
            |r: int| Seq::new(self.width as nat, |c: int| self.grid@[r * self.width + c]),
        )
    }
}

impl Board {
    /// The number of columns.
    pub closed spec fn spec_width(&self) -> nat {
        self.width as nat
    }

    /// The number of rows.
    pub closed spec fn spec_height(&self) -> nat {
        self.height as nat
    }

    /// The side of a cell, in the units in which points on the board are
    /// given.
    pub closed spec fn spec_cell_size(&self) -> nat {
        self.cell_size as nat
    }

    /// The storage holds exactly one entry for each cell.
    pub closed spec fn inv(&self) -> bool {
        self.grid@.len() == self.width * self.height
    }

    /// A board is well formed when its storage matches its size; its view is
    /// then a grid of that size.
    pub open spec fn wf(&self) -> bool {
        &&& self.inv()
        &&& is_grid(self@, self.spec_width(), self.spec_height())
    }

    /// This board has the size and the cell size of `other`.
    pub open spec fn framed_like(&self, other: &Board) -> bool {
        &&& self.spec_width() == other.spec_width()
        &&& self.spec_height() == other.spec_height()
        &&& self.spec_cell_size() == other.spec_cell_size()
    }

    /// The cell that holds the point (`x`, `y`), given from the top-left
    /// corner of the board, if the point lies on the board.
    pub open spec fn cell_under(&self, x: int, y: int) -> Option<(int, int)> {
        if 0 <= x < self.spec_width() * self.spec_cell_size() && 0 <= y < self.spec_height()
            * self.spec_cell_size() {
            Some((x / (self.spec_cell_size() as int), y / (self.spec_cell_size() as int)))
        } else {
            None
        }
    }

    /// The column and the rotation that a click at the point (`x`, `y`) asks
    /// for: the column is that of the cell under the point, the rotation is
    /// the one its row stands for. There is none where the point lies off
    /// the board or its row stands for no rotation.
    pub open spec fn aim(&self, x: int, y: int) -> Option<(int, Rotation)> {
        match self.cell_under(x, y) {
            Some((col, row)) => match rotation_at(self.spec_height() - row) {
                Some(rotation) => Some((col, rotation)),
                None => None,
            },
            None => None,
        }
    }

    /// Makes an empty board of `width` columns and `height` rows whose cells
    /// are `cell_size` units wide.
    pub fn new(cell_size: usize, width: usize, height: usize) -> (board: Board)
        requires
            width * height <= usize::MAX,
        ensures
            board.wf(),
            board.spec_width() == width,
            board.spec_height() == height,
            board.spec_cell_size() == cell_size,
            board@ == blank(width as nat, height as nat),
    {
        let cells: usize = width * height;
        let mut grid: Vec<Option<Shape>> = Vec::with_capacity(cells);
        let mut i: usize = 0;
        while i < cells
            invariant
                i <= cells,
                grid@.len() == i,
                forall|k: int| 0 <= k < i ==> (#[trigger] grid@[k]) is None,
            decreases cells - i,
        {
            grid.push(None);
            i += 1;
        }
        let board = Board { cell_size, width, height, grid };
        proof {
            assert forall|r: int| 0 <= r < height implies #[trigger] board@[r] == blank(
                width as nat,
                height as nat,
            )[r] by {
                assert forall|c: int| 0 <= c < width implies #[trigger] board@[r][c] == None::<
                    Shape,
                > by {
                    lemma_flat_index(c, r, width as int, height as int);
                }
                assert(board@[r] =~= blank(width as nat, height as nat)[r]);
            }
            assert(board@ =~= blank(width as nat, height as nat));
        }
        board
    }

    /// The place of a cell in the row-major storage.
    pub fn index(&self, x: usize, y: usize) -> (place: Result<usize, BoardError>)
        requires
            self.wf(),
        ensures
            match place {
                Ok(i) => x < self.spec_width() && y < self.spec_height() && i == y
                    * self.spec_width() + x,
                Err(e) => e == BoardError::OutOfBounds && !(x < self.spec_width() && y
                    < self.spec_height()),
            },
    {
        if x >= self.width || y >= self.height {
            Err(BoardError::OutOfBounds)
        } else {
            proof {
                lemma_flat_index(x as int, y as int, self.width as int, self.height as int);
                assert(self.grid.len() == self.width * self.height);
            }
            Ok(y * self.width + x)
        }
    }

    /// Reads the cell in column `x` of row `y`.
    pub fn get(&self, x: usize, y: usize) -> (cell: Result<Option<Shape>, BoardError>)
        requires
            self.wf(),
        ensures
            match cell {
                Ok(held) => x < self.spec_width() && y < self.spec_height() && held
                    == self@[y as int][x as int],
                Err(e) => e == BoardError::OutOfBounds && !(x < self.spec_width() && y
                    < self.spec_height()),
            },
    {
        match self.index(x, y) {
            Ok(i) => {
                proof {
                    lemma_flat_index(x as int, y as int, self.width as int, self.height as int);
                }
                Ok(self.grid[i])
            },
            Err(e) => Err(e),
        }
    }

    /// Writes the cell in column `x` of row `y` and hands back what it held.
    /// Outside the board nothing is written.
    pub fn set(&mut self, x: usize, y: usize, new: Option<Shape>) -> (previous: Result<
        Option<Shape>,
        BoardError,
    >)
        requires
            old(self).wf(),
        ensures
            final(self).wf(),
            final(self).framed_like(old(self)),
            match previous {
                Ok(held) => x < old(self).spec_width() && y < old(self).spec_height() && held
                    == old(self)@[y as int][x as int] && final(self)@ == old(self)@.update(
                    y as int,
                    old(self)@[y as int].update(x as int, new),
                ),
                Err(e) => e == BoardError::OutOfBounds && !(x < old(self).spec_width() && y
                    < old(self).spec_height()) && final(self)@ == old(self)@,
            },
    {
        match self.index(x, y) {
            Ok(i) => {
                proof {
                    lemma_flat_index(x as int, y as int, self.width as int, self.height as int);
                }
                let held = self.grid[i];
                self.grid[i] = new;
                proof {
                    let w = self.width as int;
                    let h = self.height as int;
                    let want = old(self)@.update(
                        y as int,
                        old(self)@[y as int].update(x as int, new),
                    );
                    assert forall|r: int| 0 <= r < h implies #[trigger] self@[r] == want[r] by {
                        assert forall|c: int| 0 <= c < w implies #[trigger] self@[r][c]
                            == want[r][c] by {
                            lemma_flat_index(c, r, w, h);
                            if r * w + c == y * w + x {
                                lemma_flat_index_unique(c, r, x as int, y as int, w);
                            }
                        }
                        assert(self@[r] =~= want[r]);
                    }
                    assert(self@ =~= want);
                }
                Ok(held)
            },
            Err(e) => Err(e),
        }
    }

    /// Tells whether a piece with its top-left corner at column `col` of
    /// row `row` overlaps no occupied cell.
    fn is_free(&self, col: usize, row: usize, shape: &Vec<Vec<u8>>) -> (free: bool)
        requires
            self.wf(),
            is_matrix(matrix_of(shape)),
            col + matrix_of(shape)[0].len() <= self.spec_width(),
            row + matrix_of(shape).len() <= self.spec_height(),
        ensures
            free == free_at(self@, matrix_of(shape), col as int, row as int),
    {
        let ghost m = matrix_of(shape);
        let mut mr: usize = 0;
        while mr < shape.len()
            invariant
                self.wf(),
                m == matrix_of(shape),
                is_matrix(m),
                col + m[0].len() <= self.spec_width(),
                row + m.len() <= self.spec_height(),
                mr <= m.len(),
                forall|i: int, j: int|
                    0 <= i < mr && #[trigger] filled(m, i, j) ==> self@[row + i][col + j] is None,
            decreases m.len() - mr,
        {
            assert(m[mr as int] == shape@[mr as int]@);
            let mut mc: usize = 0;
            while mc < shape[mr].len()
                invariant
                    self.wf(),
                    m == matrix_of(shape),
                    is_matrix(m),
                    col + m[0].len() <= self.spec_width(),
                    row + m.len() <= self.spec_height(),
                    mr < m.len(),
                    m[mr as int] == shape@[mr as int]@,
                    mc <= m[mr as int].len(),
                    forall|i: int, j: int|
                        0 <= i < mr && #[trigger] filled(m, i, j) ==> self@[row + i][col
                            + j] is None,
                    forall|j: int|
                        0 <= j < mc && #[trigger] filled(m, mr as int, j) ==> self@[row + mr][col
                            + j] is None,
                decreases m[mr as int].len() - mc,
            {
                if shape[mr][mc] == 1 {
                    let held = self.get(col + mc, row + mr);
                    if held.unwrap().is_some() {
                        assert(filled(m, mr as int, mc as int));
                        return false;
                    }
                }
                mc += 1;
            }
            mr += 1;
        }
        true
    }

    /// Lets a piece fall down a column: the column is first moved left as far
    /// as the piece needs to lie on the board, then the piece falls from the
    /// top row until it stands on the floor or on an occupied cell. Hands
    /// back the column and row of its top-left corner at rest. There is none
    /// where the piece is larger than the board or overlaps an occupied cell
    /// already at the top row.
    pub fn drop(&self, x: usize, shape: &Vec<Vec<u8>>) -> (landing: Result<
        (usize, usize),
        BoardError,
    >)
        requires
            self.wf(),
            is_matrix(matrix_of(shape)),
        ensures
            match landing {
                Ok((col, row)) => {
                    &&& can_land(self@, matrix_of(shape), self.spec_width(), x as int)
                    &&& col == clamped(
                        x as int,
                        self.spec_width() as int,
                        matrix_of(shape)[0].len() as int,
                    )
                    &&& rests_at(self@, matrix_of(shape), col as int, row as int)
                    &&& row == resting_row(self@, matrix_of(shape), col as int)
                },
                Err(e) => {
                    &&& e == BoardError::OutOfBounds
                    &&& !can_land(self@, matrix_of(shape), self.spec_width(), x as int)
                },
            },
    {
        let ghost m = matrix_of(shape);
        assert(m[0] == shape@[0]@);
        let m_height: usize = shape.len();
        let m_width: usize = shape[0].len();
        if m_width > self.width || m_height > self.height {
            return Err(BoardError::OutOfBounds);
        }
        let col: usize = if x > self.width - m_width {
            self.width - m_width
        } else {
            x
        };
        let limit: usize = self.height - m_height;
        let mut y: usize = 0;
        let mut blocked = false;
        while !blocked && y <= limit
            invariant
                self.wf(),
                m == matrix_of(shape),
                is_matrix(m),
                m_height == m.len(),
                m_width == m[0].len(),
                col + m_width <= self.spec_width(),
                limit + m_height == self.spec_height(),
                y <= limit + 1,
                forall|k: int| 0 <= k < y ==> #[trigger] free_at(self@, m, col as int, k),
                blocked ==> y <= limit && !free_at(self@, m, col as int, y as int),
            decreases limit + 1 - y + (if blocked { 0int } else { 1int }),
        {
            if self.is_free(col, y, shape) {
                y += 1;
            } else {
                blocked = true;
            }
        }
        if y == 0 {
            Err(BoardError::OutOfBounds)
        } else {
            proof {
                assert(rests_at(self@, m, col as int, y - 1));
                lemma_resting_row_unique(self@, m, col as int, y - 1, y - 1);
            }
            Ok((col, y - 1))
        }
    }

    /// Places a piece: its matrix is turned into `rotation`, falls down
    /// column `x` (moved left where the piece would reach over the right
    /// edge) and is written at its resting row. Fails, and leaves the board
    /// as it is, where the piece is larger than the board or overlaps an
    /// occupied cell already at the top row.
    pub fn put(&mut self, x: usize, rotation: Rotation, piece: Shape) -> (placed: Result<
        (),
        BoardError,
    >)
        requires
            old(self).wf(),
        ensures
            final(self).wf(),
            final(self).framed_like(old(self)),
            match placed {
                Ok(()) => {
                    &&& can_land(
                        old(self)@,
                        rotated(shape_matrix(piece), rotation),
                        old(self).spec_width(),
                        x as int,
                    )
                    &&& final(self)@ == landed(
                        old(self)@,
                        rotated(shape_matrix(piece), rotation),
                        old(self).spec_width(),
                        x as int,
                        piece,
                    )
                },
                Err(e) => {
                    &&& e == BoardError::OutOfBounds
                    &&& !can_land(
                        old(self)@,
                        rotated(shape_matrix(piece), rotation),
                        old(self).spec_width(),
                        x as int,
                    )
                    &&& final(self)@ == old(self)@
                },
            },
    {
        let normal = piece_shape(piece);
        let shape = rotate_piece(&normal, rotation);
        let ghost m = matrix_of(&shape);
        let ghost g = self@;
        let (col, row) = match self.drop(x, &shape) {
            Ok(corner) => corner,
            Err(e) => {
                return Err(e);
            },
        };
        assert(m[0] == shape@[0]@);
        let m_height: usize = shape.len();
        let m_width: usize = shape[0].len();
        assert(self@ =~~= stamped_before(g, m, col as int, row as int, piece, 0, 0));
        let mut mr: usize = 0;
        while mr < m_height
            invariant
                self.wf(),
                self.framed_like(old(self)),
                g == old(self)@,
                is_grid(g, self.spec_width(), self.spec_height()),
                m == matrix_of(&shape),
                is_matrix(m),
                m_height == m.len(),
                m_width == m[0].len(),
                col + m_width <= self.spec_width(),
                row + m_height <= self.spec_height(),
                mr <= m_height,
                self@ == stamped_before(g, m, col as int, row as int, piece, mr as int, 0),
            decreases m_height - mr,
        {
            assert(m[mr as int] == shape@[mr as int]@);
            let mut mc: usize = 0;
            while mc < m_width
                invariant
                    self.wf(),
                    self.framed_like(old(self)),
                    g == old(self)@,
                    is_grid(g, self.spec_width(), self.spec_height()),
                    m == matrix_of(&shape),
                    is_matrix(m),
                    m_height == m.len(),
                    m_width == m[0].len(),
                    col + m_width <= self.spec_width(),
                    row + m_height <= self.spec_height(),
                    mr < m_height,
                    m[mr as int] == shape@[mr as int]@,
                    mc <= m_width,
                    self@ == stamped_before(
                        g,
                        m,
                        col as int,
                        row as int,
                        piece,
                        mr as int,
                        mc as int,
                    ),
                decreases m_width - mc,
            {
                if shape[mr][mc] == 1 {
                    self.set(col + mc, row + mr, Some(piece)).unwrap();
                }
                assert(self@ =~~= stamped_before(
                    g,
                    m,
                    col as int,
                    row as int,
                    piece,
                    mr as int,
                    mc + 1,
                ));
                mc += 1;
            }
            assert(self@ =~~= stamped_before(g, m, col as int, row as int, piece, mr + 1, 0));
            mr += 1;
        }
        assert(self@ =~~= stamped(g, m, col as int, row as int, piece));
        Ok(())
    }

    /// Takes out row `line_y`: every row above it moves down by one, and the
    /// top row becomes empty.
    pub fn clear_line(&mut self, line_y: usize)
        requires
            old(self).wf(),
            line_y < old(self).spec_height(),
        ensures
            final(self).wf(),
            final(self).framed_like(old(self)),
            final(self)@ == without_row(old(self)@, old(self).spec_width(), line_y as int),
    {
        let ghost g = self@;
        assert(self@ =~~= shifted_down(g, line_y as int, line_y as int, 0, 0));
        let mut y: usize = line_y;
        while y > 0
            invariant
                self.wf(),
                self.framed_like(old(self)),
                g == old(self)@,
                is_grid(g, self.spec_width(), self.spec_height()),
                line_y < self.spec_height(),
                y <= line_y,
                self@ == shifted_down(g, line_y as int, y as int, 0, 0),
            decreases y,
        {
            let mut x: usize = 0;
            while x < self.width
                invariant
                    self.wf(),
                    self.framed_like(old(self)),
                    g == old(self)@,
                    is_grid(g, self.spec_width(), self.spec_height()),
                    line_y < self.spec_height(),
                    0 < y <= line_y,
                    x <= self.spec_width(),
                    self.width == self.spec_width(),
                    self@ == shifted_down(g, line_y as int, y as int, x as int, 0),
                decreases self.width - x,
            {
                let above = self.get(x, y - 1).unwrap();
                self.set(x, y, above).unwrap();
                assert(self@ =~~= shifted_down(g, line_y as int, y as int, x + 1, 0));
                x += 1;
            }
            assert(self@ =~~= shifted_down(g, line_y as int, y - 1, 0, 0));
            y -= 1;
        }
        let mut x: usize = 0;
        while x < self.width
            invariant
                self.wf(),
                self.framed_like(old(self)),
                g == old(self)@,
                is_grid(g, self.spec_width(), self.spec_height()),
                line_y < self.spec_height(),
                x <= self.spec_width(),
                self.width == self.spec_width(),
                self@ == shifted_down(g, line_y as int, 0, 0, x as int),
            decreases self.width - x,
        {
            self.set(x, 0, None).unwrap();
            assert(self@ =~~= shifted_down(g, line_y as int, 0, 0, x + 1));
            x += 1;
        }
        assert(self@ =~~= without_row(g, self.spec_width(), line_y as int));
    }

    /// Takes out every full row: the rows that are not full move down to
    /// the bottom in their order, and as many empty rows as there were full
    /// ones come in at the top.
    pub fn clear_lines(&mut self)
        requires
            old(self).wf(),
        ensures
            final(self).wf(),
            final(self).framed_like(old(self)),
            final(self)@ == cleared(old(self)@, old(self).spec_width()),
    {
        let ghost g = self@;
        let ghost w = self.spec_width();
        proof {
            lemma_cleared_len(g.take(0), w);
            assert(self@ =~= cleared(g.take(0), w) + g.skip(0));
        }
        let mut y: usize = 0;
        while y < self.height
            invariant
                self.wf(),
                self.framed_like(old(self)),
                g == old(self)@,
                w == self.spec_width(),
                is_grid(g, w, self.spec_height()),
                self.height == self.spec_height(),
                y <= self.spec_height(),
                self@ == cleared(g.take(y as int), w) + g.skip(y as int),
            decreases self.height - y,
        {
            proof {
                lemma_cleared_len(g.take(y as int), w);
                assert(self@[y as int] == g[y as int]);
            }
            let mut full = true;
            let mut x: usize = 0;
            while full && x < self.width
                invariant
                    self.wf(),
                    y < self.spec_height(),
                    self.width == self.spec_width(),
                    x <= self.spec_width(),
                    forall|c: int| 0 <= c < x ==> (#[trigger] self@[y as int][c]) is Some,
                    !full ==> !is_full(self@[y as int]),
                decreases self.width - x + (if full { 1int } else { 0int }),
            {
                if self.get(x, y).unwrap().is_none() {
                    full = false;
                } else {
                    x += 1;
                }
            }
            if full {
                let ghost before = self@;
                self.clear_line(y);
                proof {
                    lemma_cleared_drops(g, w, y as int);
                    assert(before.remove(y as int) =~= cleared(g.take(y as int), w) + g.skip(
                        y + 1,
                    ));
                    assert(self@ =~= cleared(g.take(y + 1), w) + g.skip(y + 1));
                }
            } else {
                proof {
                    lemma_cleared_keeps(g, w, y as int);
                    assert(self@ =~= cleared(g.take(y + 1), w) + g.skip(y + 1));
                }
            }
            y += 1;
        }
        assert(g.take(y as int) =~= g);
        assert(self@ =~= cleared(g, w));
    }

    /// Finds the cell that holds a point. The point is given from the
    /// top-left corner of the board, in the units of the cell size.
    pub fn click(&self, x: usize, y: usize) -> (cell: Option<(usize, usize)>)
        ensures
            match cell {
                Some((col, row)) => {
                    &&& self.cell_under(x as int, y as int) == Some((col as int, row as int))
                    &&& col < self.spec_width()
                    &&& row < self.spec_height()
                },
                None => self.cell_under(x as int, y as int) is None,
            },
    {
        proof {
            if self.cell_size > 0 {
                lemma_cell_of_point(x as int, self.cell_size as int, self.width as int);
                lemma_cell_of_point(y as int, self.cell_size as int, self.height as int);
            } else {
                assert(self.width * self.cell_size == 0) by (nonlinear_arith)
                    requires
                        self.cell_size == 0,
                ;
            }
        }
        if self.cell_size > 0 && x / self.cell_size < self.width && y / self.cell_size
            < self.height {
            Some((x / self.cell_size, y / self.cell_size))
        } else {
            None
        }
    }

    /// Reads a rotation off a row: the four rows above the floor stand for
    /// the four rotations.
    pub fn get_rotation(&self, grid_y: usize) -> (rotation: Option<Rotation>)
        ensures
            rotation == rotation_at(self.spec_height() - grid_y),
    {
        if grid_y > self.height {
            None
        } else {
            let distance: usize = self.height - grid_y;
            if distance == 4 {
                Some(Rotation::OneEighty)
            } else if distance == 3 {
                Some(Rotation::Clockwise)
            } else if distance == 2 {
                Some(Rotation::Normal)
            } else if distance == 1 {
                Some(Rotation::CounterClockwise)
            } else {
                None
            }
        }
    }

    /// Shows where the piece would come to rest if the point (`x`, `y`) were
    /// clicked: the column and row of its top-left corner and its rotated
    /// matrix. The board is not changed. There is nothing to show where the
    /// click asks for no placement or the piece cannot be placed.
    pub fn preview(&self, x: usize, y: usize, piece: Shape) -> (shown: Option<
        (usize, usize, Vec<Vec<u8>>),
    >)
        requires
            self.wf(),
        ensures
            match shown {
                Some((col, row, shape)) => {
                    &&& self.aim(x as int, y as int) matches Some((asked, rotation))
                    &&& matrix_of(&shape) == rotated(shape_matrix(piece), rotation)
                    &&& can_land(self@, matrix_of(&shape), self.spec_width(), asked)
                    &&& col == clamped(
                        asked,
                        self.spec_width() as int,
                        matrix_of(&shape)[0].len() as int,
                    )
                    &&& row == resting_row(self@, matrix_of(&shape), col as int)
                },
                None => self.aim(x as int, y as int) matches Some((asked, rotation)) ==> !can_land(
                    self@,
                    rotated(shape_matrix(piece), rotation),
                    self.spec_width(),
                    asked,
                ),
            },
    {
        let (grid_x, grid_y) = match self.click(x, y) {
            Some(cell) => cell,
            None => {
                return None;
            },
        };
        let rotation = match self.get_rotation(grid_y) {
            Some(rotation) => rotation,
            None => {
                return None;
            },
        };
        let normal = piece_shape(piece);
        let shape = rotate_piece(&normal, rotation);
        match self.drop(grid_x, &shape) {
            Ok((col, row)) => Some((col, row, shape)),
            Err(_) => None,
        }
    }

    /// The number of columns.
    pub fn width(&self) -> (width: usize)
        ensures
            width == self.spec_width(),
    {
        self.width
    }

    /// The number of rows.
    pub fn height(&self) -> (height: usize)
        ensures
            height == self.spec_height(),
    {
        self.height
    }

    /// The side of a cell.
    pub fn cell_size(&self) -> (cell_size: usize)
        ensures
            cell_size == self.spec_cell_size(),
    {
        self.cell_size
    }
}

impl BoardError {
    /// What went wrong, in words.
    pub fn message(&self) -> (text: &'static str)
        ensures
            text@ == "out of bounds index"@,
    {
        match self {
            BoardError::OutOfBounds => "out of bounds index",
        }
    }
}

} // verus!
