//! Counting stones and naming the winner.

use vstd::prelude::*;
use crate::board::{cell, grid_of, lemma_grid_of, on_board, Board, Colour, Grid};

verus! {

/// How many of the first `n` cells, walked file by file, hold `c`.
pub open spec fn count_upto(g: Grid, c: Colour, n: int) -> int
    decreases n,
{
    if n <= 0 {
        0
    } else {
        count_upto(g, c, n - 1) + if cell(g, (n - 1) / 8, (n - 1) % 8) == c {
            1int
        } else {
            0int
        }
    }
}

/// How many cells of the grid hold `c`.
pub open spec fn count(g: Grid, c: Colour) -> int {
    count_upto(g, c, 64)
}

/// How many stones lie on the grid.
pub open spec fn stone_count(g: Grid) -> int {
    count(g, Colour::WHITE) + count(g, Colour::BLACK)
}

/// The side with more stones; `EMPTY` where both have as many.
pub open spec fn winner_of(g: Grid) -> Colour {
    if count(g, Colour::BLACK) == count(g, Colour::WHITE) {
        Colour::EMPTY
    } else if count(g, Colour::BLACK) > count(g, Colour::WHITE) {
        Colour::BLACK
    } else {
        Colour::WHITE
    }
}

/// A count lies between nothing and every cell walked, and grows with the
/// walk.
pub proof fn lemma_count_bounds(g: Grid, c: Colour, n: int)
    requires
        0 <= n <= 64,
    ensures
        0 <= count_upto(g, c, n) <= n,
        count_upto(g, c, n) <= count(g, c) <= count_upto(g, c, n) + 64 - n,
    decreases 64 - n,
{
    lemma_count_low(g, c, n);
    if n < 64 {
        lemma_count_bounds(g, c, n + 1);
    }
}

proof fn lemma_count_low(g: Grid, c: Colour, n: int)
    requires
        0 <= n,
    ensures
        0 <= count_upto(g, c, n) <= n,
    decreases n,
{
    if n > 0 {
        lemma_count_low(g, c, n - 1);
    }
}

/// Every cell holds a white stone, a black stone or nothing.
pub proof fn lemma_count_total(g: Grid, n: int)
    requires
        0 <= n,
    ensures
        count_upto(g, Colour::WHITE, n) + count_upto(g, Colour::BLACK, n) + count_upto(
            g,
            Colour::EMPTY,
            n,
        ) == n,
    decreases n,
{
    if n > 0 {
        lemma_count_total(g, n - 1);
    }
}

/// The stones on a grid number at most 64.
pub proof fn lemma_stone_count_bounds(g: Grid)
    ensures
        0 <= stone_count(g) <= 64,
        stone_count(g) == 64 - count(g, Colour::EMPTY),
        0 <= count(g, Colour::WHITE) <= 64,
        0 <= count(g, Colour::BLACK) <= 64,
{
    lemma_count_total(g, 64);
    lemma_count_bounds(g, Colour::WHITE, 64);
    lemma_count_bounds(g, Colour::BLACK, 64);
    lemma_count_bounds(g, Colour::EMPTY, 64);
}

proof fn lemma_fill_upto(a: Grid, b: Grid, x: int, y: int, n: int)
    requires
        on_board(x, y),
        0 <= n <= 64,
        cell(a, x, y) == Colour::EMPTY,
        cell(b, x, y) != Colour::EMPTY,
        forall|i: int, j: int|
            on_board(i, j) && (i != x || j != y) ==> (#[trigger] cell(b, i, j) == Colour::EMPTY
                <==> cell(a, i, j) == Colour::EMPTY),
    ensures
        count_upto(b, Colour::EMPTY, n) == count_upto(a, Colour::EMPTY, n) - if 8 * x + y < n {
            1int
        } else {
            0int
        },
    decreases n,
{
    if n > 0 {
        lemma_fill_upto(a, b, x, y, n - 1);
        let i = (n - 1) / 8;
        let j = (n - 1) % 8;
        assert(on_board(i, j));
        if i != x || j != y {
            assert(cell(b, i, j) == Colour::EMPTY <==> cell(a, i, j) == Colour::EMPTY);
        }
    }
}

/// Filling one empty cell, whatever happens to the colours of the stones
/// already there, adds one stone.
pub proof fn lemma_fill_adds_one(a: Grid, b: Grid, x: int, y: int)
    requires
        on_board(x, y),
        cell(a, x, y) == Colour::EMPTY,
        cell(b, x, y) != Colour::EMPTY,
        forall|i: int, j: int|
            on_board(i, j) && (i != x || j != y) ==> (#[trigger] cell(b, i, j) == Colour::EMPTY
                <==> cell(a, i, j) == Colour::EMPTY),
    ensures
        stone_count(b) == stone_count(a) + 1,
{
    lemma_fill_upto(a, b, x, y, 64);
    lemma_stone_count_bounds(a);
    lemma_stone_count_bounds(b);
}

proof fn lemma_none_upto(g: Grid, c: Colour, n: int, x: int, y: int)
    requires
        0 <= n <= 64,
        count_upto(g, c, n) == 0,
        on_board(x, y),
        8 * x + y < n,
    ensures
        cell(g, x, y) != c,
    decreases n,
{
    lemma_count_low(g, c, n - 1);
    if 8 * x + y < n - 1 {
        lemma_none_upto(g, c, n - 1, x, y);
    }
}

/// A grid with 64 stones has no empty cell.
pub proof fn lemma_full_grid(g: Grid, x: int, y: int)
    requires
        stone_count(g) == 64,
        on_board(x, y),
    ensures
        cell(g, x, y) != Colour::EMPTY,
{
    lemma_stone_count_bounds(g);
    lemma_none_upto(g, Colour::EMPTY, 64, x, y);
}

proof fn lemma_count_pair_upto(g: Grid, c: Colour, p: int, q: int, n: int)
    requires
        0 <= p < q < 64,
        0 <= n <= 64,
        forall|i: int, j: int|
            on_board(i, j) ==> (#[trigger] cell(g, i, j) == c <==> 8 * i + j == p || 8 * i + j
                == q),
    ensures
        count_upto(g, c, n) == (if p < n {
            1int
        } else {
            0int
        }) + (if q < n {
            1int
        } else {
            0int
        }),
    decreases n,
{
    if n > 0 {
        lemma_count_pair_upto(g, c, p, q, n - 1);
        let i = (n - 1) / 8;
        let j = (n - 1) % 8;
        assert(on_board(i, j));
        assert(cell(g, i, j) == c <==> 8 * i + j == p || 8 * i + j == q);
    }
}

/// A colour that sits on exactly two cells is counted twice.
pub proof fn lemma_count_pair(g: Grid, c: Colour, px: int, py: int, qx: int, qy: int)
    requires
        on_board(px, py),
        on_board(qx, qy),
        8 * px + py < 8 * qx + qy,
        forall|i: int, j: int|
            on_board(i, j) ==> (#[trigger] cell(g, i, j) == c <==> (i == px && j == py) || (i
                == qx && j == qy)),
    ensures
        count(g, c) == 2,
{
    lemma_count_pair_upto(g, c, 8 * px + py, 8 * qx + qy, 64);
}

/// Counts the stones of each side and names the side with more of them;
/// `EMPTY` where both have as many.
pub fn get_winner(board: &Board) -> (winner: Colour)
    ensures
        winner == winner_of(grid_of(*board)),
{
    let ghost g = grid_of(*board);
    let mut black_count: usize = 0;
    let mut white_count: usize = 0;
    proof {
        lemma_grid_of(*board);
    }
    for x in 0..8usize
        invariant
            g == grid_of(*board),
            forall|a: int, b: int| on_board(a, b) ==> #[trigger] cell(g, a, b) == board[a][b],
            black_count == count_upto(g, Colour::BLACK, 8 * x),
            white_count == count_upto(g, Colour::WHITE, 8 * x),
    {
        for y in 0..8usize
            invariant
                x < 8,
                g == grid_of(*board),
                forall|a: int, b: int| on_board(a, b) ==> #[trigger] cell(g, a, b) == board[a][b],
                black_count == count_upto(g, Colour::BLACK, 8 * x + y),
                white_count == count_upto(g, Colour::WHITE, 8 * x + y),
        {
            proof {
                lemma_count_bounds(g, Colour::BLACK, 8 * x + y);
                lemma_count_bounds(g, Colour::WHITE, 8 * x + y);
                assert(cell(g, x as int, y as int) == board[x as int][y as int]);
                assert((8 * x + y + 1 - 1) / 8 == x && (8 * x + y + 1 - 1) % 8 == y);
            }
            match board[x][y] {
                Colour::BLACK => black_count += 1,
                Colour::WHITE => white_count += 1,
                _ => (),
            }
        }
    }
    if black_count == white_count {
        Colour::EMPTY
    } else if black_count > white_count {
        Colour::BLACK
    } else {
        Colour::WHITE
    }
}

} // verus!
