//! The rules of capture, stated over the grid.

use vstd::prelude::*;
use crate::board::{cell, on_board, opponent, own, Colour, Grid};

verus! {

/// -1, 0 or 1 as `v` is negative, zero or positive.
pub open spec fn sign(v: int) -> int {
    if v > 0 {
        1
    } else if v < 0 {
        -1
    } else {
        0
    }
}

/// The absolute value of `v`.
pub open spec fn magnitude(v: int) -> int {
    if v < 0 {
        -v
    } else {
        v
    }
}

/// The number of king's steps from `(ax, ay)` to `(bx, by)`.
pub open spec fn distance(ax: int, ay: int, bx: int, by: int) -> int {
    if magnitude(bx - ax) >= magnitude(by - ay) {
        magnitude(bx - ax)
    } else {
        magnitude(by - ay)
    }
}

/// Two distinct cells share a file, a rank or a diagonal.
pub open spec fn aligned(ax: int, ay: int, bx: int, by: int) -> bool {
    (ax != bx || ay != by) && (ax == bx || ay == by || magnitude(bx - ax) == magnitude(by - ay))
}

/// `p` lies strictly between `a` and `b` on the line that joins them.
pub open spec fn between(ax: int, ay: int, px: int, py: int, bx: int, by: int) -> bool {
    &&& aligned(ax, ay, bx, by)
    &&& aligned(ax, ay, px, py)
    &&& sign(px - ax) == sign(bx - ax)
    &&& sign(py - ay) == sign(by - ay)
    &&& distance(ax, ay, px, py) < distance(ax, ay, bx, by)
}

/// A stone of the side `white` placed on the empty cell `e` brackets a run
/// of opposing stones against that side's stone on `s`.
pub open spec fn captures(g: Grid, white: bool, ex: int, ey: int, sx: int, sy: int) -> bool {
    &&& on_board(ex, ey)
    &&& on_board(sx, sy)
    &&& cell(g, ex, ey) == Colour::EMPTY
    &&& cell(g, sx, sy) == own(white)
    &&& aligned(ex, ey, sx, sy)
    &&& distance(ex, ey, sx, sy) >= 2
    &&& forall|px: int, py: int| #[trigger]
        between(ex, ey, px, py, sx, sy) ==> cell(g, px, py) == opponent(white)
}

/// The stone on `q` is bracketed between the empty cell `e` and the stone
/// on `s`.
pub open spec fn anchored(
    g: Grid,
    white: bool,
    ex: int,
    ey: int,
    qx: int,
    qy: int,
    sx: int,
    sy: int,
) -> bool {
    captures(g, white, ex, ey, sx, sy) && between(ex, ey, qx, qy, sx, sy)
}

/// A stone of the side `white` placed on `e` turns the stone on `q`.
pub open spec fn flips(g: Grid, white: bool, ex: int, ey: int, qx: int, qy: int) -> bool {
    exists|sx: int, sy: int| #[trigger] anchored(g, white, ex, ey, qx, qy, sx, sy)
}

/// The side `white` may place a stone on `(x, y)`: the stone turns at least
/// one opposing stone.
pub open spec fn legal(g: Grid, white: bool, x: int, y: int) -> bool {
    exists|sx: int, sy: int| #[trigger] captures(g, white, x, y, sx, sy)
}

/// The side `white` has a legal move.
pub open spec fn has_move(g: Grid, white: bool) -> bool {
    exists|x: int, y: int| #[trigger] legal(g, white, x, y)
}

/// The grid after the side `white` has placed a stone on `(x, y)`.
pub open spec fn placed(g: Grid, white: bool, x: int, y: int) -> Grid {
    Seq::new(
        8,
        |i: int|
            Seq::new(
                8,
                |j: int|
                    if (i == x && j == y) || flips(g, white, x, y, i, j) {
                        own(white)
                    } else {
                        cell(g, i, j)
                    },
            ),
    )
}

/// A cell between two cells of the board is on the board.
pub proof fn lemma_between_on_board(ax: int, ay: int, px: int, py: int, bx: int, by: int)
    requires
        on_board(ax, ay),
        on_board(bx, by),
        between(ax, ay, px, py, bx, by),
    ensures
        on_board(px, py),
        (px != ax || py != ay),
        (px != bx || py != by),
{
}

/// A stone is bracketed against one anchor only.
pub proof fn lemma_anchor_unique(
    g: Grid,
    white: bool,
    ex: int,
    ey: int,
    qx: int,
    qy: int,
    sx: int,
    sy: int,
    tx: int,
    ty: int,
)
    requires
        anchored(g, white, ex, ey, qx, qy, sx, sy),
        anchored(g, white, ex, ey, qx, qy, tx, ty),
    ensures
        sx == tx,
        sy == ty,
{
    if distance(ex, ey, sx, sy) < distance(ex, ey, tx, ty) {
        assert(between(ex, ey, sx, sy, tx, ty));
    } else if distance(ex, ey, tx, ty) < distance(ex, ey, sx, sy) {
        assert(between(ex, ey, tx, ty, sx, sy));
    }
}

/// A legal move turns at least one stone, and every turned stone is an
/// opposing stone on the board.
pub proof fn lemma_legal_flips(g: Grid, white: bool, x: int, y: int)
    ensures
        legal(g, white, x, y) <==> exists|qx: int, qy: int| #[trigger]
            flips(g, white, x, y, qx, qy),
        forall|qx: int, qy: int| #[trigger]
            flips(g, white, x, y, qx, qy) ==> on_board(qx, qy) && cell(g, qx, qy) == opponent(
                white,
            ) && legal(g, white, x, y),
        legal(g, white, x, y) ==> on_board(x, y) && cell(g, x, y) == Colour::EMPTY,
{
    if legal(g, white, x, y) {
        let (sx, sy) = choose|sx: int, sy: int| #[trigger] captures(g, white, x, y, sx, sy);
        let qx = x + sign(sx - x);
        let qy = y + sign(sy - y);
        assert(between(x, y, qx, qy, sx, sy));
        assert(anchored(g, white, x, y, qx, qy, sx, sy));
        assert(flips(g, white, x, y, qx, qy));
    }
    assert forall|qx: int, qy: int| #[trigger] flips(g, white, x, y, qx, qy) implies on_board(
        qx,
        qy,
    ) && cell(g, qx, qy) == opponent(white) && legal(g, white, x, y) by {
        let (sx, sy) = choose|sx: int, sy: int| #[trigger]
            anchored(g, white, x, y, qx, qy, sx, sy);
        assert(captures(g, white, x, y, sx, sy));
        lemma_between_on_board(x, y, qx, qy, sx, sy);
    }
}

} // verus!
