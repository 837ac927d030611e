//! Cells, squares and the mathematical model of the grid.

use vstd::prelude::*;

verus! {

/// Number of files and of ranks.
pub const BOARD_SIZE: usize = 8;

/// What one cell holds. As a winner, `EMPTY` stands for a draw.
#[allow(non_camel_case_types)]
#[derive(Clone, Copy, Debug, PartialEq, Eq, Structural)]
pub enum Colour {
    WHITE,
    BLACK,
    EMPTY,
}

/// A coordinate pair; both a board address and a move.
#[derive(Clone, Copy, Debug, PartialEq, Eq, Structural)]
pub struct Square {
    pub x: usize,
    pub y: usize,
}

/// The executable board: `board[x][y]` is the cell at file `x`, rank `y`.
pub type Board = [[Colour; 8]; 8];

/// The mathematical board: a sequence of files, each a sequence of cells.
pub type Grid = Seq<Seq<Colour>>;

/// The grid that an executable board stands for.
pub open spec fn grid_of(board: Board) -> Grid {
    Seq::new(8, |x: int| Seq::new(8, |y: int| board[x][y]))
}

/// The cell at `(x, y)`.
pub open spec fn cell(g: Grid, x: int, y: int) -> Colour {
    g[x][y]
}

/// `(x, y)` names a cell of the board.
pub open spec fn on_board(x: int, y: int) -> bool {
    0 <= x < 8 && 0 <= y < 8
}

/// A grid has eight files of eight cells.
pub open spec fn well_shaped(g: Grid) -> bool {
    g.len() == 8 && forall|x: int| 0 <= x < 8 ==> (#[trigger] g[x]).len() == 8
}

/// The colour of the stones of the side named by `white`.
pub open spec fn own(white: bool) -> Colour {
    if white {
        Colour::WHITE
    } else {
        Colour::BLACK
    }
}

/// The colour of the stones of the other side.
pub open spec fn opponent(white: bool) -> Colour {
    if white {
        Colour::BLACK
    } else {
        Colour::WHITE
    }
}

/// A grid read from a board is well shaped and has the board's cells.
pub proof fn lemma_grid_of(board: Board)
    ensures
        well_shaped(grid_of(board)),
        forall|x: int, y: int|
            on_board(x, y) ==> #[trigger] cell(grid_of(board), x, y) == board[x][y],
{
}

/// Two well-shaped grids with the same cells are the same grid.
pub proof fn lemma_grid_ext(a: Grid, b: Grid)
    requires
        well_shaped(a),
        well_shaped(b),
        forall|x: int, y: int| on_board(x, y) ==> #[trigger] cell(a, x, y) == cell(b, x, y),
    ensures
        a == b,
{
    assert forall|x: int| 0 <= x < 8 implies a[x] == b[x] by {
        assert forall|y: int| 0 <= y < 8 implies a[x][y] == b[x][y] by {
            assert(cell(a, x, y) == cell(b, x, y));
        }
        assert(a[x] =~= b[x]);
    }
    assert(a =~= b);
}

/// The stone colour of the side to move.
pub fn colour_of(white: bool) -> (c: Colour)
    ensures
        c == own(white),
{
    if white {
        Colour::WHITE
    } else {
        Colour::BLACK
    }
}

/// The starting layout: four stones on the centre squares, alternating on
/// the diagonals.
pub open spec fn start_grid() -> Grid {
    Seq::new(
        8,
        |x: int|
            Seq::new(
                8,
                |y: int|
                    if (x == 3 && y == 3) || (x == 4 && y == 4) {
                        Colour::BLACK
                    } else if (x == 4 && y == 3) || (x == 3 && y == 4) {
                        Colour::WHITE
                    } else {
                        Colour::EMPTY
                    },
            ),
    )
}

/// Builds the starting layout.
pub fn set_up_board() -> (board: Board)
    ensures
        grid_of(board) == start_grid(),
{
    let mut board: Board = [[Colour::EMPTY; 8]; 8];
    board[BOARD_SIZE / 2 - 1][BOARD_SIZE / 2 - 1] = Colour::BLACK;
    board[BOARD_SIZE / 2][BOARD_SIZE / 2 - 1] = Colour::WHITE;
    board[BOARD_SIZE / 2 - 1][BOARD_SIZE / 2] = Colour::WHITE;
    board[BOARD_SIZE / 2][BOARD_SIZE / 2] = Colour::BLACK;
    proof {
        lemma_grid_of(board);
        lemma_grid_ext(grid_of(board), start_grid());
    }
    board
}

} // verus!
