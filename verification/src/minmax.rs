//! The look-ahead search: a static evaluator, a fixed-depth minimax with a
//! single cutoff bound, and the choice of a move at the root.

use vstd::prelude::*;
use crate::board::{cell, grid_of, lemma_grid_of, on_board, Colour, Grid, Square};
use crate::game::{
    do_move_essentials, lemma_consistent_legal, lemma_full_is_over, over, turn_after,
    BoardEssentials,
};
use crate::moves::{entry, precedes};
use crate::rules::{has_move, legal, lemma_legal_flips, placed};
use crate::score::{count, count_upto, lemma_count_bounds, lemma_stone_count_bounds, winner_of};

verus! {

/// How many moves the search looks ahead.
pub const DEPTH: usize = 5;

/// What a cell counts for: 1 for a white stone, -1 for a black one.
pub open spec fn worth(c: Colour) -> int {
    match c {
        Colour::WHITE => 1,
        Colour::BLACK => -1,
        Colour::EMPTY => 0,
    }
}

/// The worth of the cells on the four edges, for the first `n` places
/// along each; a corner belongs to two edges and counts for both.
pub open spec fn edge_upto(g: Grid, n: int) -> int
    decreases n,
{
    if n <= 0 {
        0
    } else {
        edge_upto(g, n - 1) + worth(cell(g, 0, n - 1)) + worth(cell(g, 7, n - 1)) + worth(
            cell(g, n - 1, 0),
        ) + worth(cell(g, n - 1, 7))
    }
}

/// The static value of a grid, from white's side: one for each stone, and
/// two more for each edge that the stone lies on.
pub open spec fn evaluation(g: Grid) -> int {
    count(g, Colour::WHITE) - count(g, Colour::BLACK) + 2 * edge_upto(g, 8)
}

/// The edge sum of `n` places lies within four per place.
pub proof fn lemma_edge_bounds(g: Grid, n: int)
    requires
        0 <= n,
    ensures
        -4 * n <= edge_upto(g, n) <= 4 * n,
    decreases n,
{
    if n > 0 {
        lemma_edge_bounds(g, n - 1);
    }
}

/// What a stone on an edge counts for on top of its own worth.
fn edge_bonus(colour: Colour) -> (bonus: isize)
    ensures
        bonus == 2 * worth(colour),
{
    match colour {
        Colour::BLACK => -2,
        Colour::WHITE => 2,
        Colour::EMPTY => 0,
    }
}

/// The static value of the position, from white's side.
pub fn evaluate_game(board_essential: &BoardEssentials) -> (res: isize)
    ensures
        res == evaluation(board_essential.grid()),
{
    let board = board_essential.board();
    let ghost g = grid_of(*board);
    let mut res: isize = 0;
    proof {
        lemma_grid_of(*board);
    }
    for x in 0..8usize
        invariant
            g == grid_of(*board),
            forall|a: int, b: int| on_board(a, b) ==> #[trigger] cell(g, a, b) == board[a][b],
            res == count_upto(g, Colour::WHITE, 8 * x) - count_upto(g, Colour::BLACK, 8 * x),
    {
        for y in 0..8usize
            invariant
                x < 8,
                g == grid_of(*board),
                forall|a: int, b: int| on_board(a, b) ==> #[trigger] cell(g, a, b) == board[a][b],
                res == count_upto(g, Colour::WHITE, 8 * x + y) - count_upto(
                    g,
                    Colour::BLACK,
                    8 * x + y,
                ),
        {
            proof {
                lemma_count_bounds(g, Colour::BLACK, 8 * x + y);
                lemma_count_bounds(g, Colour::WHITE, 8 * x + y);
                assert(cell(g, x as int, y as int) == board[x as int][y as int]);
                assert((8 * x + y + 1 - 1) / 8 == x && (8 * x + y + 1 - 1) % 8 == y);
            }
            match board[x][y] {
                Colour::BLACK => res -= 1,
                Colour::WHITE => res += 1,
                _ => (),
            }
        }
    }
    proof {
        lemma_stone_count_bounds(g);
    }
    for i in 0..8usize
        invariant
            g == grid_of(*board),
            forall|a: int, b: int| on_board(a, b) ==> #[trigger] cell(g, a, b) == board[a][b],
            -64 <= count(g, Colour::WHITE) - count(g, Colour::BLACK) <= 64,
            res == count(g, Colour::WHITE) - count(g, Colour::BLACK) + 2 * edge_upto(g, i as int),
    {
        proof {
            lemma_edge_bounds(g, i as int);
            assert(cell(g, 0, i as int) == board[0][i as int]);
            assert(cell(g, 7, i as int) == board[7][i as int]);
            assert(cell(g, i as int, 0) == board[i as int][0]);
            assert(cell(g, i as int, 7) == board[i as int][7]);
        }
        res += edge_bonus(board[0][i]);
        res += edge_bonus(board[crate::board::BOARD_SIZE - 1][i]);
        res += edge_bonus(board[i][0]);
        res += edge_bonus(board[i][crate::board::BOARD_SIZE - 1]);
    }
    res
}

/// The value from which a side starts looking: the worst it could get.
pub open spec fn worst(maximise: bool) -> int {
    if maximise {
        isize::MIN as int
    } else {
        isize::MAX as int
    }
}

/// The value of a certain win.
pub open spec fn best(maximise: bool) -> int {
    if maximise {
        isize::MAX as int
    } else {
        isize::MIN as int
    }
}

/// `a` is strictly better than `b` for the side that is optimised.
pub open spec fn better(maximise: bool, a: int, b: int) -> bool {
    if maximise {
        a > b
    } else {
        a < b
    }
}

/// The better of two values.
pub open spec fn pick(maximise: bool, a: int, b: int) -> int {
    if better(maximise, a, b) {
        a
    } else {
        b
    }
}

/// The colour whose win the optimised side looks for: white where the
/// value is maximised.
pub open spec fn champion(maximise: bool) -> Colour {
    if maximise {
        Colour::WHITE
    } else {
        Colour::BLACK
    }
}

/// The value of a node from the candidate `(x, y)` on, with `running` the
/// best value found among the candidates before it.
pub open spec fn search_from(
    maximise: bool,
    bound: int,
    g: Grid,
    white: bool,
    depth: nat,
    x: int,
    y: int,
    running: int,
) -> int
    decreases depth, 8 - x, 8 - y,
{
    if depth == 0 || x < 0 || y < 0 || x >= 8 {
        running
    } else if y >= 8 {
        search_from(maximise, bound, g, white, depth, x + 1, 0, running)
    } else if !legal(g, white, x, y) {
        search_from(maximise, bound, g, white, depth, x, y + 1, running)
    } else {
        let after = placed(g, white, x, y);
        if over(after) {
            if winner_of(after) == champion(maximise) {
                best(maximise)
            } else if winner_of(after) == Colour::EMPTY {
                search_from(
                    maximise,
                    bound,
                    g,
                    white,
                    depth,
                    x,
                    y + 1,
                    pick(maximise, 0, running),
                )
            } else {
                search_from(maximise, bound, g, white, depth, x, y + 1, running)
            }
        } else {
            let reached = pick(
                maximise,
                search_value(
                    !maximise,
                    running,
                    after,
                    turn_after(g, white, x, y),
                    (depth - 1) as nat,
                ),
                running,
            );
            if better(maximise, reached, bound) {
                reached
            } else {
                search_from(maximise, bound, g, white, depth, x, y + 1, reached)
            }
        }
    }
}

/// The value that the search gives a position: at depth 0 its static
/// value; else the candidates are tried file by file. A move that wins
/// the game at once gives the value of a win. A move that draws it counts
/// for 0, a move that loses it is passed over, and any other move counts
/// for what the other side's search, one move shallower and bounded by
/// the best value so far, gives the position after it; after such a move
/// the walk stops if the best value so far is better than `bound`. A
/// node of which every move loses at once keeps the value it started
/// from, which is the value of a win for the other side.
pub open spec fn search_value(maximise: bool, bound: int, g: Grid, white: bool, depth: nat) -> int
    decreases depth, 9int, 0int,
{
    if depth == 0 {
        evaluation(g)
    } else {
        search_from(maximise, bound, g, white, depth, 0, 0, worst(maximise))
    }
}

/// The value of the position for the side that is optimised; see
/// `search_value`.
pub fn search(
    maximise: bool,
    bound: isize,
    board_essential: &BoardEssentials,
    depth: usize,
) -> (value: isize)
    requires
        board_essential.wf(),
        depth > 0 ==> !board_essential.finished(),
    ensures
        value == search_value(
            maximise,
            bound as int,
            board_essential.grid(),
            board_essential.white_to_move(),
            depth as nat,
        ),
        depth == 0 ==> value == evaluation(board_essential.grid()),
    decreases depth,
{
    if depth == 0 {
        return evaluate_game(board_essential);
    }
    let ghost g = board_essential.grid();
    let ghost white = board_essential.white_to_move();
    let ghost goal = search_value(maximise, bound as int, g, white, depth as nat);
    let winning = if maximise {
        Colour::WHITE
    } else {
        Colour::BLACK
    };
    let mut running: isize = if maximise {
        isize::MIN
    } else {
        isize::MAX
    };
    let mut x: usize = 0;
    while x < 8
        invariant
            x <= 8,
            depth > 0,
            board_essential.wf(),
            !board_essential.finished(),
            g == board_essential.grid(),
            white == board_essential.white_to_move(),
            winning == champion(maximise),
            goal == search_value(maximise, bound as int, g, white, depth as nat),
            goal == search_from(
                maximise,
                bound as int,
                g,
                white,
                depth as nat,
                x as int,
                0,
                running as int,
            ),
        decreases 8 - x,
    {
        let mut y: usize = 0;
        while y < 8
            invariant
                x < 8,
                y <= 8,
                depth > 0,
                board_essential.wf(),
                !board_essential.finished(),
                g == board_essential.grid(),
                white == board_essential.white_to_move(),
                winning == champion(maximise),
                goal == search_value(maximise, bound as int, g, white, depth as nat),
                goal == search_from(
                    maximise,
                    bound as int,
                    g,
                    white,
                    depth as nat,
                    x as int,
                    y as int,
                    running as int,
                ),
            decreases 8 - y,
        {
            if board_essential.can_move(x, y) {
                let mut clone = board_essential.clone();
                do_move_essentials(x, y, &mut clone);
                if clone.game_over() {
                    let winner = clone.winner();
                    if winner == winning {
                        return if maximise {
                            isize::MAX
                        } else {
                            isize::MIN
                        };
                    } else if winner == Colour::EMPTY {
                        if (maximise && 0 > running) || (!maximise && 0 < running) {
                            running = 0;
                        }
                    }
                } else {
                    let value = search(!maximise, running, &clone, depth - 1);
                    if (maximise && value > running) || (!maximise && value < running) {
                        running = value;
                    }
                    if (maximise && running > bound) || (!maximise && running < bound) {
                        return running;
                    }
                }
            }
            y = y + 1;
        }
        x = x + 1;
    }
    running
}

/// The value of the position for white, who maximises; see
/// `search_value`.
pub fn max_search(alpha: isize, board_essential: BoardEssentials, depth: usize) -> (value: isize)
    requires
        board_essential.wf(),
        depth > 0 ==> !board_essential.finished(),
    ensures
        value == search_value(
            true,
            alpha as int,
            board_essential.grid(),
            board_essential.white_to_move(),
            depth as nat,
        ),
        depth == 0 ==> value == evaluation(board_essential.grid()),
{
    search(true, alpha, &board_essential, depth)
}

/// The value of the position for black, who minimises; see
/// `search_value`.
pub fn min_search(alpha: isize, board_essential: BoardEssentials, depth: usize) -> (value: isize)
    requires
        board_essential.wf(),
        depth > 0 ==> !board_essential.finished(),
    ensures
        value == search_value(
            false,
            alpha as int,
            board_essential.grid(),
            board_essential.white_to_move(),
            depth as nat,
        ),
        depth == 0 ==> value == evaluation(board_essential.grid()),
{
    search(false, alpha, &board_essential, depth)
}

/// How deep the root looks: the configured depth, but no deeper than
/// there are empty cells.
pub open spec fn root_depth(stones: int) -> nat {
    if DEPTH < 64 - stones {
        DEPTH as nat
    } else if stones <= 64 {
        (64 - stones) as nat
    } else {
        0
    }
}

/// The move chosen at the root from the candidate `(x, y)` on, with
/// `chosen` the best candidate before it and `running` its value.
pub open spec fn root_from(
    maximise: bool,
    g: Grid,
    white: bool,
    depth: nat,
    x: int,
    y: int,
    running: int,
    chosen: Option<Square>,
) -> Option<Square>
    decreases 8 - x, 8 - y,
{
    if x < 0 || y < 0 || x >= 8 {
        chosen
    } else if y >= 8 {
        root_from(maximise, g, white, depth, x + 1, 0, running, chosen)
    } else if !legal(g, white, x, y) {
        root_from(maximise, g, white, depth, x, y + 1, running, chosen)
    } else {
        let after = placed(g, white, x, y);
        let here = Some(Square { x: x as usize, y: y as usize });
        if over(after) {
            if winner_of(after) == champion(maximise) {
                here
            } else if winner_of(after) == Colour::EMPTY {
                if better(maximise, 0, running) {
                    root_from(maximise, g, white, depth, x, y + 1, 0, here)
                } else {
                    root_from(maximise, g, white, depth, x, y + 1, running, chosen)
                }
            } else {
                root_from(
                    maximise,
                    g,
                    white,
                    depth,
                    x,
                    y + 1,
                    running,
                    if chosen is None {
                        here
                    } else {
                        chosen
                    },
                )
            }
        } else {
            let value = search_value(
                !maximise,
                running,
                after,
                turn_after(g, white, x, y),
                (depth - 1) as nat,
            );
            if chosen is None || better(maximise, value, running) {
                root_from(maximise, g, white, depth, x, y + 1, value, here)
            } else {
                root_from(maximise, g, white, depth, x, y + 1, running, chosen)
            }
        }
    }
}

/// The move that the root picks for the side to move of a running game,
/// optimising as `maximise` says. The candidates are tried file by file.
/// A move that wins the game at once is taken at once. A move that draws
/// it counts for 0. A move that loses it is kept only while there is no
/// other. Any other move counts for what the other side's search, one
/// move shallower, gives the position after it. A candidate replaces the
/// one held where its value is strictly better, or where none is held.
pub open spec fn root_choice(maximise: bool, state: BoardEssentials) -> Option<Square> {
    root_from(
        maximise,
        state.grid(),
        state.white_to_move(),
        root_depth(state.stones()),
        0,
        0,
        worst(maximise),
        None,
    )
}

/// The move that the computer plays: none where the game is over, else
/// the root's choice, maximising for white and minimising for black.
pub open spec fn chosen_move(state: BoardEssentials) -> Option<Square> {
    if state.finished() {
        None
    } else {
        root_choice(state.white_to_move(), state)
    }
}

/// Picks a move for the side to move of a running game; see
/// `root_choice`. The move picked is a legal one.
pub fn best_move(maximise: bool, board_essential: &BoardEssentials) -> (chosen: Option<Square>)
    requires
        board_essential.wf(),
        !board_essential.finished(),
    ensures
        chosen == root_choice(maximise, *board_essential),
        chosen matches Some(sq) && sq.x < 8 && sq.y < 8 && legal(
            board_essential.grid(),
            board_essential.white_to_move(),
            sq.x as int,
            sq.y as int,
        ),
{
    let ghost g = board_essential.grid();
    let ghost white = board_essential.white_to_move();
    let ghost goal = root_choice(maximise, *board_essential);
    let stones = board_essential.amount_of_stone();
    proof {
        lemma_stone_count_bounds(g);
        if stones == 64 {
            lemma_full_is_over(g);
        }
    }
    let depth = if DEPTH < 64 - stones {
        DEPTH
    } else {
        64 - stones
    };
    let winning = if maximise {
        Colour::WHITE
    } else {
        Colour::BLACK
    };
    let mut running: isize = if maximise {
        isize::MIN
    } else {
        isize::MAX
    };
    let mut chosen: Option<Square> = None;
    let mut x: usize = 0;
    while x < 8
        invariant
            x <= 8,
            depth >= 1,
            depth == root_depth(board_essential.stones()),
            board_essential.wf(),
            !board_essential.finished(),
            g == board_essential.grid(),
            white == board_essential.white_to_move(),
            winning == champion(maximise),
            goal == root_choice(maximise, *board_essential),
            goal == root_from(
                maximise,
                g,
                white,
                depth as nat,
                x as int,
                0,
                running as int,
                chosen,
            ),
            chosen matches Some(sq) ==> sq.x < 8 && sq.y < 8 && legal(
                g,
                white,
                sq.x as int,
                sq.y as int,
            ),
            chosen is None ==> running == worst(maximise),
            chosen is None ==> forall|i: int, j: int|
                on_board(i, j) && precedes(i, j, x as int, 0) ==> !#[trigger] legal(g, white, i, j),
        decreases 8 - x,
    {
        let mut y: usize = 0;
        while y < 8
            invariant
                x < 8,
                y <= 8,
                depth >= 1,
                depth == root_depth(board_essential.stones()),
                board_essential.wf(),
                !board_essential.finished(),
                g == board_essential.grid(),
                white == board_essential.white_to_move(),
                winning == champion(maximise),
                goal == root_choice(maximise, *board_essential),
                goal == root_from(
                    maximise,
                    g,
                    white,
                    depth as nat,
                    x as int,
                    y as int,
                    running as int,
                    chosen,
                ),
                chosen matches Some(sq) ==> sq.x < 8 && sq.y < 8 && legal(
                    g,
                    white,
                    sq.x as int,
                    sq.y as int,
                ),
                chosen is None ==> running == worst(maximise),
                chosen is None ==> forall|i: int, j: int|
                    on_board(i, j) && precedes(i, j, x as int, y as int) ==> !#[trigger] legal(
                        g,
                        white,
                        i,
                        j,
                    ),
            decreases 8 - y,
        {
            if board_essential.can_move(x, y) {
                let mut clone = board_essential.clone();
                do_move_essentials(x, y, &mut clone);
                if clone.game_over() {
                    let winner = clone.winner();
                    if winner == winning {
                        return Some(Square { x: x, y: y });
                    } else if winner == Colour::EMPTY {
                        if (maximise && 0 > running) || (!maximise && 0 < running) {
                            running = 0;
                            chosen = Some(Square { x: x, y: y });
                        }
                    } else {
                        if chosen.is_none() {
                            chosen = Some(Square { x: x, y: y });
                        }
                    }
                } else {
                    let value_of_move = search(!maximise, running, &clone, depth - 1);
                    if chosen.is_none() || (maximise && value_of_move > running) || (!maximise
                        && value_of_move < running) {
                        running = value_of_move;
                        chosen = Some(Square { x: x, y: y });
                    }
                }
            }
            y = y + 1;
        }
        x = x + 1;
    }
    proof {
        if chosen is None {
            assert forall|i: int, j: int| !#[trigger] legal(g, white, i, j) by {
                lemma_legal_flips(g, white, i, j);
                if on_board(i, j) {
                    assert(precedes(i, j, 8, 0));
                }
            }
            assert(!has_move(g, white));
        }
    }
    chosen
}

/// Picks a move for black, who minimises; see `root_choice`.
pub fn get_best_move_for_black(board_essential: &BoardEssentials) -> (square: Square)
    requires
        board_essential.wf(),
        !board_essential.finished(),
    ensures
        Some(square) == root_choice(false, *board_essential),
        square.x < 8,
        square.y < 8,
        legal(
            board_essential.grid(),
            board_essential.white_to_move(),
            square.x as int,
            square.y as int,
        ),
{
    best_move(false, board_essential).unwrap()
}

/// Picks a move for white, who maximises; see `root_choice`.
pub fn get_best_move_for_white(board_essential: &BoardEssentials) -> (square: Square)
    requires
        board_essential.wf(),
        !board_essential.finished(),
    ensures
        Some(square) == root_choice(true, *board_essential),
        square.x < 8,
        square.y < 8,
        legal(
            board_essential.grid(),
            board_essential.white_to_move(),
            square.x as int,
            square.y as int,
        ),
{
    best_move(true, board_essential).unwrap()
}

/// The move that the computer plays for the side to move: none where the
/// game is over, else a legal move, chosen by the search.
pub fn get_for_whoever_best_move(board_essential: &BoardEssentials) -> (chosen: Option<Square>)
    requires
        board_essential.wf(),
    ensures
        chosen == chosen_move(*board_essential),
        board_essential.finished() <==> chosen is None,
        chosen matches Some(sq) ==> sq.x < 8 && sq.y < 8 && legal(
            board_essential.grid(),
            board_essential.white_to_move(),
            sq.x as int,
            sq.y as int,
        ) && entry(board_essential.index(), sq.x as int, sq.y as int).len() > 0,
{
    proof {
        assert forall|x: int, y: int| on_board(x, y) implies (#[trigger] entry(
            board_essential.index(),
            x,
            y,
        ).len() > 0 <==> legal(
            board_essential.grid(),
            board_essential.white_to_move(),
            x,
            y,
        )) by {
            lemma_consistent_legal(
                board_essential.index(),
                board_essential.grid(),
                board_essential.white_to_move(),
                x,
                y,
            );
        }
    }
    if board_essential.game_over() {
        return None;
    } else if board_essential.white_turn() {
        return Some(get_best_move_for_white(board_essential));
    } else {
        return Some(get_best_move_for_black(board_essential));
    }
}

} // verus!
