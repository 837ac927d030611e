//! The legal-move index: for every cell, the stones that a stone placed
//! there would turn.

use vstd::prelude::*;
use crate::board::{
    cell, colour_of, grid_of, lemma_grid_of, on_board, opponent, own, Board, Colour, Grid, Square,
};
use crate::rules::{
    anchored, between, captures, distance, flips, has_move, legal, lemma_anchor_unique, sign,
};
use crate::game::BoardEssentials;

verus! {

/// The mathematical legal-move index: for each file and rank the list of
/// squares turned by a stone placed there.
pub type FlipIndex = Seq<Seq<Seq<Square>>>;

/// The index that an executable table stands for.
pub open spec fn index_view(dump: Vec<Vec<Vec<Square>>>) -> FlipIndex {
    Seq::new(dump.len() as nat, |x: int| Seq::new(dump[x].len() as nat, |y: int| dump[x][y]@))
}

/// The list recorded for the cell `(x, y)`.
pub open spec fn entry(ix: FlipIndex, x: int, y: int) -> Seq<Square> {
    ix[x][y]
}

/// An index has a list for each of the 64 cells.
pub open spec fn shaped(ix: FlipIndex) -> bool {
    ix.len() == 8 && forall|x: int| 0 <= x < 8 ==> (#[trigger] ix[x]).len() == 8
}

/// No list of the index names a square twice.
pub open spec fn distinct(ix: FlipIndex) -> bool {
    forall|x: int, y: int| on_board(x, y) ==> (#[trigger] entry(ix, x, y)).no_duplicates()
}

/// A shaped table has eight rows of eight lists, which are the entries of
/// its index.
pub proof fn lemma_index_view(dump: Vec<Vec<Vec<Square>>>)
    requires
        shaped(index_view(dump)),
    ensures
        dump.len() == 8,
        forall|x: int| 0 <= x < 8 ==> (#[trigger] dump[x]).len() == 8,
        forall|x: int, y: int|
            on_board(x, y) ==> #[trigger] entry(index_view(dump), x, y) == dump[x][y]@,
{
    assert forall|x: int| 0 <= x < 8 implies (#[trigger] dump[x]).len() == 8 by {
        assert(index_view(dump)[x].len() == 8);
    }
}

/// `(dx, dy)` is one of the eight compass directions.
pub open spec fn is_direction(dx: int, dy: int) -> bool {
    -1 <= dx <= 1 && -1 <= dy <= 1 && (dx != 0 || dy != 0)
}

/// Seen from `s`, the cell `e` lies in the direction `(dx, dy)`.
pub open spec fn heads(sx: int, sy: int, ex: int, ey: int, dx: int, dy: int) -> bool {
    sign(ex - sx) == dx && sign(ey - sy) == dy
}

/// No list of the index names a stone as bracketed against the stone on
/// `s`.
pub open spec fn unseen(ix: FlipIndex, g: Grid, white: bool, sx: int, sy: int) -> bool {
    forall|ex: int, ey: int, q: Square|
        on_board(ex, ey) && #[trigger] entry(ix, ex, ey).contains(q) ==> !anchored(
            g,
            white,
            ex,
            ey,
            q.x as int,
            q.y as int,
            sx,
            sy,
        )
}

/// No list of the index names a stone as bracketed against the stone on
/// `s` from a cell in the direction `(dx, dy)`.
pub open spec fn unseen_towards(
    ix: FlipIndex,
    g: Grid,
    white: bool,
    sx: int,
    sy: int,
    dx: int,
    dy: int,
) -> bool {
    forall|ex: int, ey: int, q: Square|
        on_board(ex, ey) && #[trigger] entry(ix, ex, ey).contains(q) ==> !(anchored(
            g,
            white,
            ex,
            ey,
            q.x as int,
            q.y as int,
            sx,
            sy,
        ) && heads(sx, sy, ex, ey, dx, dy))
}

/// The coordinate reached from `v` after `i` steps of `d`.
spec fn shift(v: int, d: int, i: int) -> int {
    if d > 0 {
        v + i
    } else if d < 0 {
        v - i
    } else {
        v
    }
}

/// The first step at or after `i` on the ray from `s` that is not an
/// opposing stone on the board.
spec fn run_end(g: Grid, white: bool, sx: int, sy: int, dx: int, dy: int, i: int) -> int
    decreases 8 - i,
{
    if i < 8 && on_board(shift(sx, dx, i), shift(sy, dy, i)) && cell(
        g,
        shift(sx, dx, i),
        shift(sy, dy, i),
    ) == opponent(white) {
        run_end(g, white, sx, sy, dx, dy, i + 1)
    } else {
        i
    }
}

/// The first `n - 1` squares of the ray from `s`, nearest first.
spec fn passed(sx: int, sy: int, dx: int, dy: int, n: int) -> Seq<Square> {
    Seq::new(
        (n - 1) as nat,
        |j: int| Square { x: shift(sx, dx, j + 1) as usize, y: shift(sy, dy, j + 1) as usize },
    )
}

/// The ray from `s` crosses at least one opposing stone and then meets an
/// empty cell.
spec fn lands(g: Grid, white: bool, sx: int, sy: int, dx: int, dy: int) -> bool {
    let n = run_end(g, white, sx, sy, dx, dy, 1);
    n >= 2 && on_board(shift(sx, dx, n), shift(sy, dy, n)) && cell(
        g,
        shift(sx, dx, n),
        shift(sy, dy, n),
    ) == Colour::EMPTY
}

proof fn lemma_run_end(g: Grid, white: bool, sx: int, sy: int, dx: int, dy: int, i: int)
    requires
        1 <= i <= 8,
    ensures
        i <= run_end(g, white, sx, sy, dx, dy, i) <= 8,
        forall|j: int|
            i <= j < run_end(g, white, sx, sy, dx, dy, i) ==> on_board(
                #[trigger] shift(sx, dx, j),
                shift(sy, dy, j),
            ) && cell(g, shift(sx, dx, j), shift(sy, dy, j)) == opponent(white),
    decreases 8 - i,
{
    if i < 8 && on_board(shift(sx, dx, i), shift(sy, dy, i)) && cell(
        g,
        shift(sx, dx, i),
        shift(sy, dy, i),
    ) == opponent(white) {
        lemma_run_end(g, white, sx, sy, dx, dy, i + 1);
    }
}

proof fn lemma_run_reaches(
    g: Grid,
    white: bool,
    sx: int,
    sy: int,
    dx: int,
    dy: int,
    i: int,
    n: int,
)
    requires
        1 <= i <= n < 8,
        forall|j: int|
            i <= j < n ==> on_board(#[trigger] shift(sx, dx, j), shift(sy, dy, j)) && cell(
                g,
                shift(sx, dx, j),
                shift(sy, dy, j),
            ) == opponent(white),
        !(on_board(shift(sx, dx, n), shift(sy, dy, n)) && cell(
            g,
            shift(sx, dx, n),
            shift(sy, dy, n),
        ) == opponent(white)),
    ensures
        run_end(g, white, sx, sy, dx, dy, i) == n,
    decreases n - i,
{
    if i < n {
        assert(on_board(shift(sx, dx, i), shift(sy, dy, i)));
        lemma_run_reaches(g, white, sx, sy, dx, dy, i + 1, n);
    }
}

/// Where a ray from the stone on `s` lands, the landing cell captures
/// against `s`, lies in the ray's direction, and the squares between are
/// the squares that the ray passed.
proof fn lemma_lands_captures(g: Grid, white: bool, sx: int, sy: int, dx: int, dy: int)
    requires
        on_board(sx, sy),
        cell(g, sx, sy) == own(white),
        is_direction(dx, dy),
        lands(g, white, sx, sy, dx, dy),
    ensures
        ({
            let n = run_end(g, white, sx, sy, dx, dy, 1);
            let ex = shift(sx, dx, n);
            let ey = shift(sy, dy, n);
            &&& captures(g, white, ex, ey, sx, sy)
            &&& heads(sx, sy, ex, ey, dx, dy)
            &&& forall|q: Square| #[trigger]
                passed(sx, sy, dx, dy, n).contains(q) <==> between(
                    ex,
                    ey,
                    q.x as int,
                    q.y as int,
                    sx,
                    sy,
                )
        }),
{
    let n = run_end(g, white, sx, sy, dx, dy, 1);
    let ex = shift(sx, dx, n);
    let ey = shift(sy, dy, n);
    let p = passed(sx, sy, dx, dy, n);
    lemma_run_end(g, white, sx, sy, dx, dy, 1);
    assert forall|px: int, py: int| #[trigger] between(ex, ey, px, py, sx, sy) implies cell(
        g,
        px,
        py,
    ) == opponent(white) by {
        let k = distance(sx, sy, px, py);
        assert(px == shift(sx, dx, k) && py == shift(sy, dy, k));
    }
    assert forall|q: Square| #[trigger] p.contains(q) <==> between(
        ex,
        ey,
        q.x as int,
        q.y as int,
        sx,
        sy,
    ) by {
        if p.contains(q) {
            let j = choose|j: int| 0 <= j < p.len() && p[j] == q;
            assert(on_board(shift(sx, dx, j + 1), shift(sy, dy, j + 1)));
        }
        if between(ex, ey, q.x as int, q.y as int, sx, sy) {
            let k = distance(sx, sy, q.x as int, q.y as int);
            assert(q.x == shift(sx, dx, k) && q.y == shift(sy, dy, k));
            assert(p[k - 1] == q);
        }
    }
}

/// Where the empty cell `e` captures against the stone on `s`, the ray from
/// `s` towards `e` lands on `e`.
proof fn lemma_captures_lands(g: Grid, white: bool, ex: int, ey: int, sx: int, sy: int)
    requires
        captures(g, white, ex, ey, sx, sy),
    ensures
        ({
            let dx = sign(ex - sx);
            let dy = sign(ey - sy);
            let n = run_end(g, white, sx, sy, dx, dy, 1);
            &&& is_direction(dx, dy)
            &&& lands(g, white, sx, sy, dx, dy)
            &&& ex == shift(sx, dx, n)
            &&& ey == shift(sy, dy, n)
        }),
{
    let dx = sign(ex - sx);
    let dy = sign(ey - sy);
    let n = distance(ex, ey, sx, sy);
    assert forall|j: int| 1 <= j < n implies on_board(
        #[trigger] shift(sx, dx, j),
        shift(sy, dy, j),
    ) && cell(g, shift(sx, dx, j), shift(sy, dy, j)) == opponent(white) by {
        assert(between(ex, ey, shift(sx, dx, j), shift(sy, dy, j), sx, sy));
    }
    lemma_run_reaches(g, white, sx, sy, dx, dy, 1, n);
}

/// One step of `d` from the coordinate `v`, where that stays on the board.
fn advance(v: usize, d: i8) -> (next: Option<usize>)
    requires
        v < 8,
        -1 <= d <= 1,
    ensures
        next matches Some(n) ==> n == v + d && n < 8,
        next is None <==> !(0 <= v + d < 8),
{
    if d < 0 {
        if v == 0 {
            None
        } else {
            Some(v - 1)
        }
    } else if d > 0 {
        if v >= 7 {
            None
        } else {
            Some(v + 1)
        }
    } else {
        Some(v)
    }
}

/// Follows the ray from the stone on `(x, y)` in the direction `(dx, dy)`.
/// Where it crosses opposing stones and then meets an empty cell, the
/// crossed squares are recorded under that cell.
pub fn scan_direction(
    board: &Board,
    white_turn: bool,
    x: usize,
    y: usize,
    dx: i8,
    dy: i8,
    dump: &mut Vec<Vec<Vec<Square>>>,
) -> (found: bool)
    requires
        x < 8,
        y < 8,
        is_direction(dx as int, dy as int),
        cell(grid_of(*board), x as int, y as int) == own(white_turn),
        shaped(index_view(*old(dump))),
    ensures
        shaped(index_view(*final(dump))),
        distinct(index_view(*old(dump))) && unseen_towards(
            index_view(*old(dump)),
            grid_of(*board),
            white_turn,
            x as int,
            y as int,
            dx as int,
            dy as int,
        ) ==> distinct(index_view(*final(dump))),
        forall|ex: int, ey: int, q: Square|
            on_board(ex, ey) ==> (#[trigger] entry(index_view(*final(dump)), ex, ey).contains(q)
                <==> entry(index_view(*old(dump)), ex, ey).contains(q) || (anchored(
                grid_of(*board),
                white_turn,
                ex,
                ey,
                q.x as int,
                q.y as int,
                x as int,
                y as int,
            ) && heads(x as int, y as int, ex, ey, dx as int, dy as int))),
        found <==> exists|ex: int, ey: int| #[trigger]
            captures(grid_of(*board), white_turn, ex, ey, x as int, y as int) && heads(
                x as int,
                y as int,
                ex,
                ey,
                dx as int,
                dy as int,
            ),
{
    let ghost g = grid_of(*board);
    let ghost sx = x as int;
    let ghost sy = y as int;
    let ghost ddx = dx as int;
    let ghost ddy = dy as int;
    let ghost n = run_end(g, white_turn, sx, sy, ddx, ddy, 1);
    let ghost before = index_view(*dump);
    let mut squares_passed: Vec<Square> = Vec::new();
    let mut cx: usize = x;
    let mut cy: usize = y;
    let mut i: usize = 1;
    let mut found = false;
    proof {
        lemma_grid_of(*board);
        lemma_run_end(g, white_turn, sx, sy, ddx, ddy, 1);
    }
    loop
        invariant_except_break
            1 <= i <= 8,
            cx == shift(sx, ddx, i - 1),
            cy == shift(sy, ddy, i - 1),
            n == run_end(g, white_turn, sx, sy, ddx, ddy, i as int),
            squares_passed@ == passed(sx, sy, ddx, ddy, i as int),
            !found,
        invariant
            g == grid_of(*board),
            x < 8,
            y < 8,
            cx < 8,
            cy < 8,
            sx == x,
            sy == y,
            ddx == dx,
            ddy == dy,
            is_direction(ddx, ddy),
            n == run_end(g, white_turn, sx, sy, ddx, ddy, 1),
            forall|a: int, b: int|
                on_board(a, b) ==> #[trigger] cell(grid_of(*board), a, b) == board[a][b],
        ensures
            found == lands(g, white_turn, sx, sy, ddx, ddy),
            found ==> cx == shift(sx, ddx, n) && cy == shift(sy, ddy, n) && squares_passed@
                == passed(sx, sy, ddx, ddy, n),
        decreases 8 - i,
    {
        let next_x = advance(cx, dx);
        let next_y = advance(cy, dy);
        if next_x.is_none() || next_y.is_none() {
            break ;
        }
        cx = next_x.unwrap();
        cy = next_y.unwrap();
        let here = board[cx][cy];
        assert(here == cell(g, cx as int, cy as int));
        if here == Colour::EMPTY {
            found = squares_passed.len() > 0;
            break ;
        } else if here == colour_against(white_turn) {
            squares_passed.push(Square { x: cx, y: cy });
            i = i + 1;
            assert(squares_passed@ =~= passed(sx, sy, ddx, ddy, i as int));
        } else {
            break ;
        }
    }
    if found {
        proof {
            lemma_index_view(*dump);
        }
        dump[cx][cy].append(&mut squares_passed);
    }
    proof {
        lemma_index_view(*old(dump));
        lemma_index_view(*dump);
        assert forall|a: int, b: int| on_board(a, b) implies #[trigger] entry(
            index_view(*dump),
            a,
            b,
        ) == (if found && a == shift(sx, ddx, n) && b == shift(sy, ddy, n) {
            entry(before, a, b) + passed(sx, sy, ddx, ddy, n)
        } else {
            entry(before, a, b)
        }) by {}
        let after = index_view(*dump);
        if found {
            lemma_lands_captures(g, white_turn, sx, sy, ddx, ddy);
        }
        let tx = shift(sx, ddx, n);
        let ty = shift(sy, ddy, n);
        assert forall|ex: int, ey: int| #[trigger]
            captures(g, white_turn, ex, ey, sx, sy) && heads(
                sx,
                sy,
                ex,
                ey,
                ddx,
                ddy,
            ) implies found && ex == tx && ey == ty by {
            lemma_captures_lands(g, white_turn, ex, ey, sx, sy);
        }
        assert forall|ex: int, ey: int, q: Square| on_board(ex, ey) implies (#[trigger] entry(
            after,
            ex,
            ey,
        ).contains(q) <==> entry(before, ex, ey).contains(q) || (anchored(
            g,
            white_turn,
            ex,
            ey,
            q.x as int,
            q.y as int,
            sx,
            sy,
        ) && heads(sx, sy, ex, ey, ddx, ddy))) by {
            let old_list = entry(before, ex, ey);
            let new_list = entry(after, ex, ey);
            if found && ex == tx && ey == ty {
                let p = passed(sx, sy, ddx, ddy, n);
                assert(new_list == old_list + p);
                if new_list.contains(q) {
                    let k = choose|k: int| 0 <= k < new_list.len() && new_list[k] == q;
                    if k < old_list.len() {
                        assert(old_list[k] == q);
                    } else {
                        assert(p[k - old_list.len()] == q);
                        assert(p.contains(q));
                    }
                }
                if old_list.contains(q) {
                    let k = choose|k: int| 0 <= k < old_list.len() && old_list[k] == q;
                    assert(new_list[k] == q);
                }
                if p.contains(q) {
                    let k = choose|k: int| 0 <= k < p.len() && p[k] == q;
                    assert(new_list[old_list.len() + k] == q);
                }
            } else {
                assert(new_list == old_list);
                if anchored(g, white_turn, ex, ey, q.x as int, q.y as int, sx, sy) && heads(
                    sx,
                    sy,
                    ex,
                    ey,
                    ddx,
                    ddy,
                ) {
                    assert(captures(g, white_turn, ex, ey, sx, sy));
                }
            }
        }
        if distinct(before) && unseen_towards(before, g, white_turn, sx, sy, ddx, ddy) {
            assert forall|ex: int, ey: int| on_board(ex, ey) implies (#[trigger] entry(
                after,
                ex,
                ey,
            )).no_duplicates() by {
                let old_list = entry(before, ex, ey);
                let new_list = entry(after, ex, ey);
                assert(old_list.no_duplicates());
                if found && ex == tx && ey == ty {
                    let p = passed(sx, sy, ddx, ddy, n);
                    assert(new_list == old_list + p);
                    assert forall|a: int, b: int|
                        0 <= a < new_list.len() && 0 <= b < new_list.len() && a
                            != b implies new_list[a] != new_list[b] by {
                        if a < old_list.len() && b >= old_list.len() {
                            assert(old_list.contains(new_list[a]));
                            assert(p[b - old_list.len()] == new_list[b]);
                            assert(p.contains(new_list[b]));
                        } else if b < old_list.len() && a >= old_list.len() {
                            assert(old_list.contains(new_list[b]));
                            assert(p[a - old_list.len()] == new_list[a]);
                            assert(p.contains(new_list[a]));
                        } else if a >= old_list.len() {
                            assert(p[a - old_list.len()] == new_list[a]);
                            assert(p[b - old_list.len()] == new_list[b]);
                        }
                    }
                }
            }
        }
        if found {
            assert(captures(g, white_turn, tx, ty, sx, sy) && heads(sx, sy, tx, ty, ddx, ddy));
        }
    }
    found
}

/// The file step of the `k`-th direction, in the order in which a stone's
/// rays are followed.
spec fn dir_x(k: int) -> int {
    if k <= 2 {
        -1
    } else if k == 3 || k == 7 {
        0
    } else {
        1
    }
}

/// The rank step of the `k`-th direction.
spec fn dir_y(k: int) -> int {
    if k == 0 || k == 6 || k == 7 {
        -1
    } else if k == 1 || k == 5 {
        0
    } else {
        1
    }
}

/// The place of the direction `(dx, dy)` in that order.
spec fn dir_number(dx: int, dy: int) -> int {
    if dx < 0 {
        if dy < 0 {
            0
        } else if dy == 0 {
            1
        } else {
            2
        }
    } else if dx == 0 {
        if dy > 0 {
            3
        } else {
            7
        }
    } else {
        if dy > 0 {
            4
        } else if dy == 0 {
            5
        } else {
            6
        }
    }
}

/// The `k`-th direction: towards (0,0), (0,_), (0,7), (_,7), (7,7), (7,_),
/// (7,0), (_,0).
fn direction(k: usize) -> (d: (i8, i8))
    requires
        k < 8,
    ensures
        d.0 == dir_x(k as int),
        d.1 == dir_y(k as int),
        is_direction(d.0 as int, d.1 as int),
        dir_number(d.0 as int, d.1 as int) == k,
{
    if k == 0 {
        (-1, -1)
    } else if k == 1 {
        (-1, 0)
    } else if k == 2 {
        (-1, 1)
    } else if k == 3 {
        (0, 1)
    } else if k == 4 {
        (1, 1)
    } else if k == 5 {
        (1, 0)
    } else if k == 6 {
        (1, -1)
    } else {
        (0, -1)
    }
}

/// Follows the eight rays from the stone of the side to move on `(x, y)`
/// and records, under each empty cell that a ray lands on, the opposing
/// stones bracketed between that cell and `(x, y)`. Returns whether any
/// ray landed.
pub fn insert_square_possible_moves(
    board_essential: &BoardEssentials,
    x: usize,
    y: usize,
    dump: &mut Vec<Vec<Vec<Square>>>,
) -> (a_move_exists: bool)
    requires
        x < 8,
        y < 8,
        cell(board_essential.grid(), x as int, y as int) == own(board_essential.white_to_move()),
        shaped(index_view(*old(dump))),
    ensures
        shaped(index_view(*final(dump))),
        distinct(index_view(*old(dump))) && unseen(
            index_view(*old(dump)),
            board_essential.grid(),
            board_essential.white_to_move(),
            x as int,
            y as int,
        ) ==> distinct(index_view(*final(dump))),
        forall|ex: int, ey: int, q: Square|
            on_board(ex, ey) ==> (#[trigger] entry(index_view(*final(dump)), ex, ey).contains(q)
                <==> entry(index_view(*old(dump)), ex, ey).contains(q) || anchored(
                board_essential.grid(),
                board_essential.white_to_move(),
                ex,
                ey,
                q.x as int,
                q.y as int,
                x as int,
                y as int,
            )),
        a_move_exists <==> exists|ex: int, ey: int| #[trigger]
            captures(
                board_essential.grid(),
                board_essential.white_to_move(),
                ex,
                ey,
                x as int,
                y as int,
            ),
{
    let board = board_essential.board();
    let white_turn = board_essential.white_turn();
    let ghost g = board_essential.grid();
    let ghost before = index_view(*dump);
    let mut a_move_exists = false;
    let mut k: usize = 0;
    while k < 8
        invariant
            k <= 8,
            x < 8,
            y < 8,
            g == grid_of(*board),
            cell(g, x as int, y as int) == own(white_turn),
            shaped(index_view(*dump)),
            distinct(before) && unseen(before, g, white_turn, x as int, y as int) ==> distinct(
                index_view(*dump),
            ),
            forall|ex: int, ey: int, q: Square|
                on_board(ex, ey) ==> (#[trigger] entry(index_view(*dump), ex, ey).contains(q)
                    <==> entry(before, ex, ey).contains(q) || (anchored(
                    g,
                    white_turn,
                    ex,
                    ey,
                    q.x as int,
                    q.y as int,
                    x as int,
                    y as int,
                ) && dir_number(sign(ex - x), sign(ey - y)) < k)),
            a_move_exists <==> exists|ex: int, ey: int| #[trigger]
                captures(g, white_turn, ex, ey, x as int, y as int) && dir_number(
                    sign(ex - x),
                    sign(ey - y),
                ) < k,
        decreases 8 - k,
    {
        let (dx, dy) = direction(k);
        let ghost mid = index_view(*dump);
        let ghost had = a_move_exists;
        let found = scan_direction(board, white_turn, x, y, dx, dy, dump);
        if found {
            a_move_exists = true;
        }
        proof {
            if found {
                let (ex, ey) = choose|ex: int, ey: int| #[trigger]
                    captures(g, white_turn, ex, ey, x as int, y as int) && heads(
                        x as int,
                        y as int,
                        ex,
                        ey,
                        dx as int,
                        dy as int,
                    );
                assert(captures(g, white_turn, ex, ey, x as int, y as int) && dir_number(
                    sign(ex - x),
                    sign(ey - y),
                ) < k + 1);
            } else if had {
                let (ex, ey) = choose|ex: int, ey: int| #[trigger]
                    captures(g, white_turn, ex, ey, x as int, y as int) && dir_number(
                        sign(ex - x),
                        sign(ey - y),
                    ) < k;
                assert(captures(g, white_turn, ex, ey, x as int, y as int) && dir_number(
                    sign(ex - x),
                    sign(ey - y),
                ) < k + 1);
            }
            if !a_move_exists {
                assert forall|ex: int, ey: int| #[trigger]
                    captures(g, white_turn, ex, ey, x as int, y as int) implies !(dir_number(
                    sign(ex - x),
                    sign(ey - y),
                ) < k + 1) by {
                    if dir_number(sign(ex - x), sign(ey - y)) < k {
                    } else if heads(x as int, y as int, ex, ey, dx as int, dy as int) {
                    }
                }
            }
            assert forall|ex: int, ey: int, q: Square| on_board(ex, ey) implies (#[trigger] entry(
                index_view(*dump),
                ex,
                ey,
            ).contains(q) <==> entry(before, ex, ey).contains(q) || (anchored(
                g,
                white_turn,
                ex,
                ey,
                q.x as int,
                q.y as int,
                x as int,
                y as int,
            ) && dir_number(sign(ex - x), sign(ey - y)) < k + 1)) by {
                assert(entry(mid, ex, ey).contains(q) <==> entry(before, ex, ey).contains(q) || (
                anchored(g, white_turn, ex, ey, q.x as int, q.y as int, x as int, y as int)
                    && dir_number(sign(ex - x), sign(ey - y)) < k));
            }
        }
        k = k + 1;
    }
    proof {
        assert forall|ex: int, ey: int| #[trigger]
            captures(g, white_turn, ex, ey, x as int, y as int) implies dir_number(
            sign(ex - x),
            sign(ey - y),
        ) < 8 by {}
        if a_move_exists {
            let (ex, ey) = choose|ex: int, ey: int| #[trigger]
                captures(g, white_turn, ex, ey, x as int, y as int) && dir_number(
                    sign(ex - x),
                    sign(ey - y),
                ) < 8;
            assert(captures(g, white_turn, ex, ey, x as int, y as int));
        }
    }
    a_move_exists
}

/// An index agrees with a position: under each cell it lists, once each,
/// exactly the stones that the side `white` would turn by playing there.
pub open spec fn consistent(ix: FlipIndex, g: Grid, white: bool) -> bool {
    &&& shaped(ix)
    &&& distinct(ix)
    &&& forall|x: int, y: int, q: Square|
        on_board(x, y) ==> (#[trigger] entry(ix, x, y).contains(q) <==> flips(
            g,
            white,
            x,
            y,
            q.x as int,
            q.y as int,
        ))
}

/// `(sx, sy)` comes before `(x, y)` when the board is walked file by file.
pub open spec fn precedes(sx: int, sy: int, x: int, y: int) -> bool {
    sx < x || (sx == x && sy < y)
}

/// The stone on `q` is bracketed between the empty cell `e` and a stone
/// that comes before `(x, y)`.
spec fn recorded(g: Grid, white: bool, ex: int, ey: int, q: Square, x: int, y: int) -> bool {
    exists|sx: int, sy: int| #[trigger]
        anchored(g, white, ex, ey, q.x as int, q.y as int, sx, sy) && precedes(sx, sy, x, y)
}

/// The index holds what the stones before `(x, y)` capture, and nothing
/// else.
spec fn covered(ix: FlipIndex, g: Grid, white: bool, x: int, y: int) -> bool {
    &&& shaped(ix)
    &&& distinct(ix)
    &&& forall|ex: int, ey: int, q: Square|
        on_board(ex, ey) ==> (#[trigger] entry(ix, ex, ey).contains(q) <==> recorded(
            g,
            white,
            ex,
            ey,
            q,
            x,
            y,
        ))
}

/// Some stone before `(x, y)` captures.
spec fn seen_move(g: Grid, white: bool, x: int, y: int) -> bool {
    exists|ex: int, ey: int, sx: int, sy: int| #[trigger]
        captures(g, white, ex, ey, sx, sy) && precedes(sx, sy, x, y)
}

/// What is recorded once the cell `(x, y)` has been dealt with.
proof fn lemma_recorded_step(g: Grid, white: bool, ex: int, ey: int, q: Square, x: int, y: int)
    ensures
        recorded(g, white, ex, ey, q, x, y + 1) <==> recorded(g, white, ex, ey, q, x, y)
            || anchored(g, white, ex, ey, q.x as int, q.y as int, x, y),
{
    let qx = q.x as int;
    let qy = q.y as int;
    if recorded(g, white, ex, ey, q, x, y) {
        let (sx, sy) = choose|sx: int, sy: int| #[trigger]
            anchored(g, white, ex, ey, qx, qy, sx, sy) && precedes(sx, sy, x, y);
        assert(anchored(g, white, ex, ey, qx, qy, sx, sy) && precedes(sx, sy, x, y + 1));
    }
    if anchored(g, white, ex, ey, qx, qy, x, y) {
        assert(precedes(x, y, x, y + 1));
    }
    if recorded(g, white, ex, ey, q, x, y + 1) {
        let (sx, sy) = choose|sx: int, sy: int| #[trigger]
            anchored(g, white, ex, ey, qx, qy, sx, sy) && precedes(sx, sy, x, y + 1);
        if sx != x || sy != y {
            assert(anchored(g, white, ex, ey, qx, qy, sx, sy) && precedes(sx, sy, x, y));
        }
    }
}

/// The end of one file is the start of the next.
proof fn lemma_recorded_next_file(g: Grid, white: bool, ex: int, ey: int, q: Square, x: int)
    ensures
        recorded(g, white, ex, ey, q, x, 8) <==> recorded(g, white, ex, ey, q, x + 1, 0),
{
    let qx = q.x as int;
    let qy = q.y as int;
    if recorded(g, white, ex, ey, q, x, 8) {
        let (sx, sy) = choose|sx: int, sy: int| #[trigger]
            anchored(g, white, ex, ey, qx, qy, sx, sy) && precedes(sx, sy, x, 8);
        assert(anchored(g, white, ex, ey, qx, qy, sx, sy) && precedes(sx, sy, x + 1, 0));
    }
    if recorded(g, white, ex, ey, q, x + 1, 0) {
        let (sx, sy) = choose|sx: int, sy: int| #[trigger]
            anchored(g, white, ex, ey, qx, qy, sx, sy) && precedes(sx, sy, x + 1, 0);
        assert(anchored(g, white, ex, ey, qx, qy, sx, sy) && precedes(sx, sy, x, 8));
    }
}

/// Before the first cell nothing is recorded; after the last, every turned
/// stone is.
proof fn lemma_recorded_ends(g: Grid, white: bool, ex: int, ey: int, q: Square)
    ensures
        !recorded(g, white, ex, ey, q, 0, 0),
        recorded(g, white, ex, ey, q, 8, 0) <==> flips(g, white, ex, ey, q.x as int, q.y as int),
{
    let qx = q.x as int;
    let qy = q.y as int;
    if recorded(g, white, ex, ey, q, 0, 0) {
        let (sx, sy) = choose|sx: int, sy: int| #[trigger]
            anchored(g, white, ex, ey, qx, qy, sx, sy) && precedes(sx, sy, 0, 0);
        assert(false);
    }
    if recorded(g, white, ex, ey, q, 8, 0) {
        let (sx, sy) = choose|sx: int, sy: int| #[trigger]
            anchored(g, white, ex, ey, qx, qy, sx, sy) && precedes(sx, sy, 8, 0);
        assert(anchored(g, white, ex, ey, qx, qy, sx, sy));
    }
    if flips(g, white, ex, ey, qx, qy) {
        let (sx, sy) = choose|sx: int, sy: int| #[trigger]
            anchored(g, white, ex, ey, qx, qy, sx, sy);
        assert(anchored(g, white, ex, ey, qx, qy, sx, sy) && precedes(sx, sy, 8, 0));
    }
}

/// Whether a capturing stone has been seen once the cell `(x, y)` has been
/// dealt with.
proof fn lemma_seen_step(g: Grid, white: bool, x: int, y: int)
    ensures
        seen_move(g, white, x, y + 1) <==> seen_move(g, white, x, y) || exists|ex: int, ey: int|
            #[trigger] captures(g, white, ex, ey, x, y),
{
    if seen_move(g, white, x, y) {
        let (ex, ey, sx, sy) = choose|ex: int, ey: int, sx: int, sy: int| #[trigger]
            captures(g, white, ex, ey, sx, sy) && precedes(sx, sy, x, y);
        assert(captures(g, white, ex, ey, sx, sy) && precedes(sx, sy, x, y + 1));
    }
    if exists|ex: int, ey: int| #[trigger] captures(g, white, ex, ey, x, y) {
        let (ex, ey) = choose|ex: int, ey: int| #[trigger] captures(g, white, ex, ey, x, y);
        assert(captures(g, white, ex, ey, x, y) && precedes(x, y, x, y + 1));
    }
    if seen_move(g, white, x, y + 1) {
        let (ex, ey, sx, sy) = choose|ex: int, ey: int, sx: int, sy: int| #[trigger]
            captures(g, white, ex, ey, sx, sy) && precedes(sx, sy, x, y + 1);
        if sx == x && sy == y {
            assert(captures(g, white, ex, ey, x, y));
        } else {
            assert(captures(g, white, ex, ey, sx, sy) && precedes(sx, sy, x, y));
        }
    }
}

/// Before the first cell nothing has been seen; at the end of a file what
/// has been seen is what the next file starts with; after the last cell
/// a capturing stone has been seen exactly where the side has a move.
proof fn lemma_seen_ends(g: Grid, white: bool, x: int)
    ensures
        !seen_move(g, white, 0, 0),
        seen_move(g, white, x, 8) <==> seen_move(g, white, x + 1, 0),
        seen_move(g, white, 8, 0) <==> has_move(g, white),
{
    if seen_move(g, white, 0, 0) {
        let (ex, ey, sx, sy) = choose|ex: int, ey: int, sx: int, sy: int| #[trigger]
            captures(g, white, ex, ey, sx, sy) && precedes(sx, sy, 0, 0);
        assert(false);
    }
    if seen_move(g, white, x, 8) {
        let (ex, ey, sx, sy) = choose|ex: int, ey: int, sx: int, sy: int| #[trigger]
            captures(g, white, ex, ey, sx, sy) && precedes(sx, sy, x, 8);
        assert(captures(g, white, ex, ey, sx, sy) && precedes(sx, sy, x + 1, 0));
    }
    if seen_move(g, white, x + 1, 0) {
        let (ex, ey, sx, sy) = choose|ex: int, ey: int, sx: int, sy: int| #[trigger]
            captures(g, white, ex, ey, sx, sy) && precedes(sx, sy, x + 1, 0);
        assert(captures(g, white, ex, ey, sx, sy) && precedes(sx, sy, x, 8));
    }
    if seen_move(g, white, 8, 0) {
        let (ex, ey, sx, sy) = choose|ex: int, ey: int, sx: int, sy: int| #[trigger]
            captures(g, white, ex, ey, sx, sy) && precedes(sx, sy, 8, 0);
        assert(legal(g, white, ex, ey));
    }
    if has_move(g, white) {
        let (ex, ey) = choose|ex: int, ey: int| #[trigger] legal(g, white, ex, ey);
        let (sx, sy) = choose|sx: int, sy: int| #[trigger] captures(g, white, ex, ey, sx, sy);
        assert(captures(g, white, ex, ey, sx, sy) && precedes(sx, sy, 8, 0));
    }
}

/// The stones recorded so far were not bracketed against the stone on
/// `(x, y)`, which is still to be dealt with.
proof fn lemma_covered_unseen(ix: FlipIndex, g: Grid, white: bool, x: int, y: int)
    requires
        covered(ix, g, white, x, y),
    ensures
        unseen(ix, g, white, x, y),
{
    assert forall|ex: int, ey: int, q: Square|
        on_board(ex, ey) && #[trigger] entry(ix, ex, ey).contains(q) implies !anchored(
        g,
        white,
        ex,
        ey,
        q.x as int,
        q.y as int,
        x,
        y,
    ) by {
        let qx = q.x as int;
        let qy = q.y as int;
        assert(recorded(g, white, ex, ey, q, x, y));
        let (sx, sy) = choose|sx: int, sy: int| #[trigger]
            anchored(g, white, ex, ey, qx, qy, sx, sy) && precedes(sx, sy, x, y);
        if anchored(g, white, ex, ey, qx, qy, x, y) {
            lemma_anchor_unique(g, white, ex, ey, qx, qy, sx, sy, x, y);
        }
    }
}

/// A table of 64 empty lists.
fn empty_table() -> (table: Vec<Vec<Vec<Square>>>)
    ensures
        shaped(index_view(table)),
        forall|x: int, y: int|
            on_board(x, y) ==> #[trigger] entry(index_view(table), x, y) == Seq::<Square>::empty(),
{
    let mut table: Vec<Vec<Vec<Square>>> = Vec::with_capacity(8);
    let mut x: usize = 0;
    while x < 8
        invariant
            x <= 8,
            table.len() == x,
            forall|i: int| 0 <= i < x ==> (#[trigger] table[i]).len() == 8,
            forall|i: int, j: int|
                0 <= i < x && 0 <= j < 8 ==> (#[trigger] table[i][j])@ == Seq::<Square>::empty(),
        decreases 8 - x,
    {
        let mut column: Vec<Vec<Square>> = Vec::with_capacity(8);
        let mut y: usize = 0;
        while y < 8
            invariant
                y <= 8,
                column.len() == y,
                forall|j: int| 0 <= j < y ==> (#[trigger] column[j])@ == Seq::<Square>::empty(),
            decreases 8 - y,
        {
            column.push(Vec::new());
            y = y + 1;
        }
        table.push(column);
        x = x + 1;
    }
    table
}

/// Computes the legal-move index of the side to move, and whether that
/// side has any legal move: every stone of that side is visited, file by
/// file, and its eight rays are followed.
pub fn get_all_possible_moves(board_essential: &BoardEssentials) -> (result: (
    Vec<Vec<Vec<Square>>>,
    bool,
))
    ensures
        consistent(
            index_view(result.0),
            board_essential.grid(),
            board_essential.white_to_move(),
        ),
        result.1 == has_move(board_essential.grid(), board_essential.white_to_move()),
{
    let mut result = empty_table();
    let mut a_move_exists = false;
    let board = board_essential.board();
    let white_turn = board_essential.white_turn();
    let mine = colour_of(white_turn);
    let ghost g = board_essential.grid();
    proof {
        lemma_grid_of(*board);
        lemma_seen_ends(g, white_turn, 0);
        assert forall|ex: int, ey: int, q: Square| on_board(ex, ey) implies (#[trigger] entry(
            index_view(result),
            ex,
            ey,
        ).contains(q) <==> recorded(g, white_turn, ex, ey, q, 0, 0)) by {
            lemma_recorded_ends(g, white_turn, ex, ey, q);
        }
    }
    let mut x: usize = 0;
    while x < 8
        invariant
            x <= 8,
            g == grid_of(*board),
            g == board_essential.grid(),
            white_turn == board_essential.white_to_move(),
            mine == own(white_turn),
            forall|a: int, b: int| on_board(a, b) ==> #[trigger] cell(g, a, b) == board[a][b],
            covered(index_view(result), g, white_turn, x as int, 0),
            a_move_exists == seen_move(g, white_turn, x as int, 0),
        decreases 8 - x,
    {
        let mut y: usize = 0;
        while y < 8
            invariant
                x < 8,
                y <= 8,
                g == grid_of(*board),
                g == board_essential.grid(),
                white_turn == board_essential.white_to_move(),
                mine == own(white_turn),
                forall|a: int, b: int| on_board(a, b) ==> #[trigger] cell(g, a, b) == board[a][b],
                covered(index_view(result), g, white_turn, x as int, y as int),
                a_move_exists == seen_move(g, white_turn, x as int, y as int),
            decreases 8 - y,
        {
            let ghost mid = index_view(result);
            if board[x][y] == mine {
                proof {
                    lemma_covered_unseen(mid, g, white_turn, x as int, y as int);
                }
                if insert_square_possible_moves(board_essential, x, y, &mut result) {
                    a_move_exists = true;
                }
            }
            proof {
                lemma_seen_step(g, white_turn, x as int, y as int);
                assert forall|ex: int, ey: int, q: Square| on_board(ex, ey) implies (
                #[trigger] entry(index_view(result), ex, ey).contains(q) <==> recorded(
                    g,
                    white_turn,
                    ex,
                    ey,
                    q,
                    x as int,
                    y + 1,
                )) by {
                    lemma_recorded_step(g, white_turn, ex, ey, q, x as int, y as int);
                    assert(entry(mid, ex, ey).contains(q) <==> recorded(
                        g,
                        white_turn,
                        ex,
                        ey,
                        q,
                        x as int,
                        y as int,
                    ));
                }
            }
            y = y + 1;
        }
        proof {
            lemma_seen_ends(g, white_turn, x as int);
            assert forall|ex: int, ey: int, q: Square| on_board(ex, ey) implies (#[trigger] entry(
                index_view(result),
                ex,
                ey,
            ).contains(q) <==> recorded(g, white_turn, ex, ey, q, x + 1, 0)) by {
                lemma_recorded_next_file(g, white_turn, ex, ey, q, x as int);
            }
        }
        x = x + 1;
    }
    proof {
        lemma_seen_ends(g, white_turn, 8);
        assert forall|ex: int, ey: int, q: Square| on_board(ex, ey) implies (#[trigger] entry(
            index_view(result),
            ex,
            ey,
        ).contains(q) <==> flips(g, white_turn, ex, ey, q.x as int, q.y as int)) by {
            lemma_recorded_ends(g, white_turn, ex, ey, q);
        }
    }
    (result, a_move_exists)
}

/// The stone colour of the side that is not to move.
pub fn colour_against(white: bool) -> (c: Colour)
    ensures
        c == opponent(white),
{
    if white {
        Colour::BLACK
    } else {
        Colour::WHITE
    }
}

} // verus!
