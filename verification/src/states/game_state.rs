//! The game in play: a board, the piece to be placed, and the generator
//! that deals the pieces.

use crate::board::Board;
use crate::generator::{follows, PieceGenerator};
use crate::grid::{blank, can_land, cleared, landed};
use crate::piece::{rotated, shape_matrix, Rotation, Shape};
use vstd::prelude::*;

verus! {

/// A button of the pointing device.
#[derive(Copy, Clone, Debug, PartialEq, Eq, Structural)]
pub enum MouseButton {
    Left,
    Right,
    Middle,
    Other(u8),
}

/// A game in play.
pub struct GameState<G: PieceGenerator> {
    board: Board,
    current: Shape,
    generator: G,
}

impl<G: PieceGenerator> GameState<G> {
    /// The board.
    pub closed spec fn spec_board(&self) -> Board {
        self.board
    }

    /// The piece that the next click places.
    pub closed spec fn spec_current(&self) -> Shape {
        self.current
    }

    /// The generator that deals the pieces.
    pub closed spec fn spec_generator(&self) -> G {
        self.generator
    }

    /// The board and the generator are well formed.
    pub open spec fn wf(&self) -> bool {
        &&& self.spec_board().wf()
        &&& self.spec_generator().wf()
    }

    /// The placement that a button pressed at the point (`x`, `y`) of the
    /// board brings about: with the left button on a row that stands for a
    /// rotation, the column under the point and that rotation, if the piece
    /// can be placed there; otherwise none.
    pub open spec fn placement(&self, button: MouseButton, x: int, y: int) -> Option<
        (int, Rotation),
    > {
        if button == MouseButton::Left {
            match self.spec_board().aim(x, y) {
                Some((col, rotation)) => if can_land(
                    self.spec_board()@,
                    rotated(shape_matrix(self.spec_current()), rotation),
                    self.spec_board().spec_width(),
                    col,
                ) {
                    Some((col, rotation))
                } else {
                    None
                },
                None => None,
            }
        } else {
            None
        }
    }

    /// Starts a game on an empty board of 10 columns and 20 rows with cells
    /// of side 32, and draws the first piece.
    pub fn new(generator: G) -> (state: Self)
        requires
            generator.wf(),
        ensures
            state.wf(),
            state.spec_board()@ == blank(10, 20),
            state.spec_board().spec_width() == 10,
            state.spec_board().spec_height() == 20,
            state.spec_board().spec_cell_size() == 32,
            follows(
                generator.upcoming(),
                state.spec_current(),
                state.spec_generator().upcoming(),
            ),
    {
        let mut generator = generator;
        let current = generator.get_next();
        Self { board: Board::new(32, 10, 20), current, generator }
    }

    /// Takes a button pressed at the point (`x`, `y`), given from the
    /// top-left corner of the board. Where this brings about a placement,
    /// the current piece is placed, the next piece is drawn, and the full
    /// rows are cleared. Otherwise nothing changes.
    pub fn mouse_button_down_event(&mut self, button: MouseButton, x: usize, y: usize)
        requires
            old(self).wf(),
        ensures
            final(self).wf(),
            final(self).spec_board().framed_like(&old(self).spec_board()),
            match old(self).placement(button, x as int, y as int) {
                Some((col, rotation)) => {
                    &&& final(self).spec_board()@ == cleared(
                        landed(
                            old(self).spec_board()@,
                            rotated(shape_matrix(old(self).spec_current()), rotation),
                            old(self).spec_board().spec_width(),
                            col,
                            old(self).spec_current(),
                        ),
                        old(self).spec_board().spec_width(),
                    )
                    &&& follows(
                        old(self).spec_generator().upcoming(),
                        final(self).spec_current(),
                        final(self).spec_generator().upcoming(),
                    )
                },
                None => {
                    &&& final(self).spec_board()@ == old(self).spec_board()@
                    &&& final(self).spec_current() == old(self).spec_current()
                    &&& final(self).spec_generator() == old(self).spec_generator()
                },
            },
    {
        if button == MouseButton::Left {
            if let Some((grid_x, grid_y)) = self.board.click(x, y) {
                if let Some(rotation) = self.board.get_rotation(grid_y) {
                    if self.board.put(grid_x, rotation, self.current).is_ok() {
                        self.current = self.generator.get_next();
                        self.board.clear_lines();
                    }
                }
            }
        }
    }

    /// The board.
    pub fn board(&self) -> (board: &Board)
        ensures
            *board == self.spec_board(),
    {
        &self.board
    }

    /// The piece that the next click places.
    pub fn current(&self) -> (current: Shape)
        ensures
            current == self.spec_current(),
    {
        self.current
    }

    /// The generator that deals the pieces.
    pub fn generator(&self) -> (generator: &G)
        ensures
            *generator == self.spec_generator(),
    {
        &self.generator
    }
}

} // verus!
