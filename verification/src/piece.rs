//! The piece kinds, their cell matrices and colours, and the rotation of a
//! cell matrix.

use vstd::prelude::*;

verus! {

/// One of the four orientations a piece can be placed in.
#[derive(Copy, Clone, Debug, PartialEq, Eq, Structural)]
pub enum Rotation {
    OneEighty,
    Clockwise,
    Normal,
    CounterClockwise,
}

/// One of the seven tetromino kinds.
#[derive(Copy, Clone, Debug, PartialEq, Eq, Hash, Structural)]
pub enum Shape {
    I,
    J,
    L,
    O,
    S,
    T,
    Z,
}

/// The display colour of each piece kind, as red, green and blue.
pub open spec fn shape_color(shape: Shape) -> (u8, u8, u8) {
    match shape {
        Shape::I => (65, 175, 222),
        Shape::J => (25, 131, 191),
        Shape::L => (239, 149, 53),
        Shape::O => (247, 211, 62),
        Shape::S => (102, 198, 92),
        Shape::T => (180, 81, 172),
        Shape::Z => (239, 98, 77),
    }
}

/// Looks up the display colour of a piece kind.
pub fn piece_color(shape: Shape) -> (rgb: (u8, u8, u8))
    ensures
        rgb == shape_color(shape),
{
    match shape {
        Shape::I => (65, 175, 222),
        Shape::J => (25, 131, 191),
        Shape::L => (239, 149, 53),
        Shape::O => (247, 211, 62),
        Shape::S => (102, 198, 92),
        Shape::T => (180, 81, 172),
        Shape::Z => (239, 98, 77),
    }
}

/// The cell matrix of each piece kind in its normal orientation: a flag of 1
/// marks a cell that the piece occupies.
pub open spec fn shape_matrix(shape: Shape) -> Seq<Seq<u8>> {
    match shape {
        Shape::I => seq![seq![1u8, 1u8, 1u8, 1u8]],
        Shape::J => seq![seq![1u8, 0u8, 0u8], seq![1u8, 1u8, 1u8]],
        Shape::L => seq![seq![0u8, 0u8, 1u8], seq![1u8, 1u8, 1u8]],
        Shape::O => seq![seq![1u8, 1u8], seq![1u8, 1u8]],
        Shape::S => seq![seq![0u8, 1u8, 1u8], seq![1u8, 1u8, 0u8]],
        Shape::T => seq![seq![0u8, 1u8, 0u8], seq![1u8, 1u8, 1u8]],
        Shape::Z => seq![seq![1u8, 1u8, 0u8], seq![0u8, 1u8, 1u8]],
    }
}

/// Looks up the cell matrix of a piece kind in its normal orientation.
pub fn piece_shape(shape: Shape) -> (piece: Vec<Vec<u8>>)
    ensures
        matrix_of(&piece) == shape_matrix(shape),
        is_matrix(matrix_of(&piece)),
{
    let piece: Vec<Vec<u8>> = match shape {
        Shape::I => vec![vec![1u8, 1u8, 1u8, 1u8]],
        Shape::J => vec![vec![1u8, 0u8, 0u8], vec![1u8, 1u8, 1u8]],
        Shape::L => vec![vec![0u8, 0u8, 1u8], vec![1u8, 1u8, 1u8]],
        Shape::O => vec![vec![1u8, 1u8], vec![1u8, 1u8]],
        Shape::S => vec![vec![0u8, 1u8, 1u8], vec![1u8, 1u8, 0u8]],
        Shape::T => vec![vec![0u8, 1u8, 0u8], vec![1u8, 1u8, 1u8]],
        Shape::Z => vec![vec![1u8, 1u8, 0u8], vec![0u8, 1u8, 1u8]],
    };
    proof {
        let m = matrix_of(&piece);
        let want = shape_matrix(shape);
        assert(m.len() == want.len());
        assert forall|r: int| 0 <= r < m.len() implies #[trigger] m[r] == want[r] by {
            assert(m[r] =~= want[r]);
        }
        assert(m =~= want);
        lemma_shape_matrix_is_matrix(shape);
    }
    piece
}

/// Every piece kind has a rectangular matrix with a filled cell in each row.
pub proof fn lemma_shape_matrix_is_matrix(shape: Shape)
    ensures
        is_matrix(shape_matrix(shape)),
        forall|r: int|
            0 <= r < shape_matrix(shape).len() ==> (#[trigger] shape_matrix(shape)[r]).contains(
                1u8,
            ),
{
    let m = shape_matrix(shape);
    assert forall|r: int| 0 <= r < m.len() implies (#[trigger] m[r]).contains(1u8) by {
        if m[r][0] == 1u8 {
        } else if m[r][1] == 1u8 {
        } else {
            assert(m[r][2] == 1u8);
        }
    }
}

/// The cells of a matrix as a sequence of rows, each a sequence of flags.
pub open spec fn matrix_of(piece: &Vec<Vec<u8>>) -> Seq<Seq<u8>> {
    Seq::new(piece@.len(), |r: int| piece@[r]@)
}

/// A cell matrix is rectangular and has at least one row and one column.
pub open spec fn is_matrix(m: Seq<Seq<u8>>) -> bool {
    &&& m.len() > 0
    &&& m[0].len() > 0
    &&& forall|r: int| 0 <= r < m.len() ==> (#[trigger] m[r]).len() == m[0].len()
}

/// The cell that a rotation moves to row `r` and column `c` of its result.
pub open spec fn turned_cell(m: Seq<Seq<u8>>, rotation: Rotation, r: int, c: int) -> u8 {
    match rotation {
        Rotation::Normal => m[r][c],
        Rotation::OneEighty => m[m.len() - 1 - r][m[0].len() - 1 - c],
        Rotation::Clockwise => m[m.len() - 1 - c][r],
        Rotation::CounterClockwise => m[c][m[0].len() - 1 - r],
    }
}

/// The number of rows of a rotated matrix: a quarter turn swaps the sides.
pub open spec fn turned_rows(m: Seq<Seq<u8>>, rotation: Rotation) -> nat {
    match rotation {
        Rotation::Normal | Rotation::OneEighty => m.len(),
        Rotation::Clockwise | Rotation::CounterClockwise => m[0].len(),
    }
}

/// The number of columns of a rotated matrix.
pub open spec fn turned_cols(m: Seq<Seq<u8>>, rotation: Rotation) -> nat {
    match rotation {
        Rotation::Normal | Rotation::OneEighty => m[0].len(),
        Rotation::Clockwise | Rotation::CounterClockwise => m.len(),
    }
}

/// A matrix turned from the normal orientation into `rotation`.
///
/// A half turn is the point reflection through the centre: each row is
/// reversed and so is the order of the rows. A clockwise quarter turn reads
/// the columns bottom-up, a counter-clockwise one reads them right to left.
pub open spec fn rotated(m: Seq<Seq<u8>>, rotation: Rotation) -> Seq<Seq<u8>> {
    Seq::new(
        turned_rows(m, rotation),
        |r: int| Seq::new(turned_cols(m, rotation), |c: int| turned_cell(m, rotation, r, c)),
    )
}

/// Turns a cell matrix into the given orientation, leaving the input as it is.
pub fn rotate_piece(piece: &Vec<Vec<u8>>, rotation: Rotation) -> (turned: Vec<Vec<u8>>)
    requires
        is_matrix(matrix_of(piece)),
    ensures
        matrix_of(&turned) == rotated(matrix_of(piece), rotation),
        is_matrix(matrix_of(&turned)),
        rotation is Normal ==> matrix_of(&turned) == matrix_of(piece),
{
    let ghost m = matrix_of(piece);
    proof {
        lemma_rotated_is_matrix(m, rotation);
        lemma_normal_keeps(m);
    }
    let rows: usize = piece.len();
    assert(m[0] == piece@[0]@);
    let cols: usize = piece[0].len();
    let (out_rows, out_cols): (usize, usize) = match rotation {
        Rotation::Normal | Rotation::OneEighty => (rows, cols),
        Rotation::Clockwise | Rotation::CounterClockwise => (cols, rows),
    };
    let mut turned: Vec<Vec<u8>> = Vec::with_capacity(out_rows);
    let mut r: usize = 0;
    while r < out_rows
        invariant
            m == matrix_of(piece),
            is_matrix(m),
            rows == m.len(),
            cols == m[0].len(),
            out_rows == turned_rows(m, rotation),
            out_cols == turned_cols(m, rotation),
            r <= out_rows,
            turned@.len() == r,
            forall|i: int| 0 <= i < r ==> (#[trigger] turned@[i])@ == rotated(m, rotation)[i],
        decreases out_rows - r,
    {
        let mut row: Vec<u8> = Vec::with_capacity(out_cols);
        let mut c: usize = 0;
        while c < out_cols
            invariant
                m == matrix_of(piece),
                is_matrix(m),
                rows == m.len(),
                cols == m[0].len(),
                out_rows == turned_rows(m, rotation),
                out_cols == turned_cols(m, rotation),
                r < out_rows,
                c <= out_cols,
                row@.len() == c,
                forall|j: int| 0 <= j < c ==> #[trigger] row@[j] == turned_cell(m, rotation, r as int, j),
            decreases out_cols - c,
        {
            let flag: u8 = match rotation {
                Rotation::Normal => {
                    assert(m[r as int] == piece@[r as int]@);
                    piece[r][c]
                },
                Rotation::OneEighty => {
                    assert(m[rows - 1 - r] == piece@[rows - 1 - r]@);
                    piece[rows - 1 - r][cols - 1 - c]
                },
                Rotation::Clockwise => {
                    assert(m[rows - 1 - c] == piece@[rows - 1 - c]@);
                    piece[rows - 1 - c][r]
                },
                Rotation::CounterClockwise => {
                    assert(m[c as int] == piece@[c as int]@);
                    piece[c][cols - 1 - r]
                },
            };
            row.push(flag);
            c += 1;
        }
        assert(row@ =~= rotated(m, rotation)[r as int]);
        turned.push(row);
        r += 1;
    }
    assert(matrix_of(&turned) =~= rotated(m, rotation));
    turned
}

/// A rotated matrix is again a matrix; a quarter turn swaps its sides.
pub proof fn lemma_rotated_is_matrix(m: Seq<Seq<u8>>, rotation: Rotation)
    requires
        is_matrix(m),
    ensures
        is_matrix(rotated(m, rotation)),
        rotated(m, rotation).len() == turned_rows(m, rotation),
        rotated(m, rotation)[0].len() == turned_cols(m, rotation),
{
}

/// The normal orientation is the matrix itself.
pub proof fn lemma_normal_keeps(m: Seq<Seq<u8>>)
    requires
        is_matrix(m),
    ensures
        rotated(m, Rotation::Normal) == m,
{
    assert forall|r: int| 0 <= r < m.len() implies #[trigger] rotated(m, Rotation::Normal)[r]
        == m[r] by {
        assert(rotated(m, Rotation::Normal)[r] =~= m[r]);
    }
    assert(rotated(m, Rotation::Normal) =~= m);
}

/// A half turn reverses every row and then the order of the rows.
pub proof fn lemma_half_turn_reverses(m: Seq<Seq<u8>>)
    requires
        is_matrix(m),
    ensures
        rotated(m, Rotation::OneEighty) == m.map_values(|row: Seq<u8>| row.reverse()).reverse(),
{
    let flipped = m.map_values(|row: Seq<u8>| row.reverse()).reverse();
    let half = rotated(m, Rotation::OneEighty);
    assert forall|r: int| 0 <= r < m.len() implies #[trigger] half[r] == flipped[r] by {
        assert(flipped[r] == m[m.len() - 1 - r].reverse());
        assert(half[r] =~= flipped[r]);
    }
    assert(half =~= flipped);
}

/// Two half turns give the matrix back.
pub proof fn lemma_half_turn_twice(m: Seq<Seq<u8>>)
    requires
        is_matrix(m),
    ensures
        rotated(rotated(m, Rotation::OneEighty), Rotation::OneEighty) == m,
{
    let half = rotated(m, Rotation::OneEighty);
    let full = rotated(half, Rotation::OneEighty);
    assert forall|r: int| 0 <= r < m.len() implies #[trigger] full[r] == m[r] by {
        assert(full[r] =~= m[r]);
    }
    assert(full =~= m);
}

/// A clockwise quarter turn undoes a counter-clockwise one and the other way
/// round: either pair gives back the matrix, with its rows and columns as
/// they were.
pub proof fn lemma_quarter_turns_cancel(m: Seq<Seq<u8>>)
    requires
        is_matrix(m),
    ensures
        rotated(rotated(m, Rotation::Clockwise), Rotation::CounterClockwise) == m,
        rotated(rotated(m, Rotation::CounterClockwise), Rotation::Clockwise) == m,
        rotated(rotated(m, Rotation::Clockwise), Rotation::CounterClockwise) == rotated(
            m,
            Rotation::Normal,
        ),
        rotated(rotated(m, Rotation::CounterClockwise), Rotation::Clockwise) == rotated(
            m,
            Rotation::Normal,
        ),
{
    let there = rotated(m, Rotation::Clockwise);
    let back = rotated(there, Rotation::CounterClockwise);
    assert forall|r: int| 0 <= r < m.len() implies #[trigger] back[r] == m[r] by {
        assert(back[r] =~= m[r]);
    }
    assert(back =~= m);
    let away = rotated(m, Rotation::CounterClockwise);
    let home = rotated(away, Rotation::Clockwise);
    assert forall|r: int| 0 <= r < m.len() implies #[trigger] home[r] == m[r] by {
        assert(home[r] =~= m[r]);
    }
    assert(home =~= m);
    lemma_normal_keeps(m);
}

} // verus!
