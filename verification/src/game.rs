//! The game state, the application of a move, and the controller that
//! keeps the history of a live game.

use vstd::prelude::*;
use crate::board::{
    cell, grid_of, lemma_grid_ext, lemma_grid_of, on_board, own, set_up_board, start_grid, Board,
    Colour, Grid, Square,
};
use crate::moves::{
    consistent, entry, get_all_possible_moves, index_view, lemma_index_view, shaped, FlipIndex,
};
use crate::rules::{captures, flips, has_move, legal, lemma_legal_flips, placed};
use crate::score::{
    count, get_winner, lemma_count_pair, lemma_fill_adds_one, lemma_full_grid,
    lemma_stone_count_bounds, stone_count, winner_of,
};

verus! {

/// Whether white moves first.
pub const WHITE_IS_STARTING: bool = true;

/// The colour that the computer plays; `EMPTY` where nobody is.
pub const AI_COLOUR: Colour = Colour::BLACK;

/// The number of stones of the starting layout.
pub const STARTING_STONES: usize = 4;

/// Neither side has a legal move.
pub open spec fn over(g: Grid) -> bool {
    !has_move(g, true) && !has_move(g, false)
}

/// Who is to move after the side `white` has played `(x, y)`: the other
/// side, unless it has to pass on a board that is not full.
pub open spec fn turn_after(g: Grid, white: bool, x: int, y: int) -> bool {
    let after = placed(g, white, x, y);
    if stone_count(after) != 64 && !has_move(after, !white) {
        white
    } else {
        !white
    }
}

/// On a full grid nobody can move.
pub proof fn lemma_full_is_over(g: Grid)
    requires
        stone_count(g) == 64,
    ensures
        over(g),
{
    assert forall|white: bool| !has_move(g, white) by {
        if has_move(g, white) {
            let (x, y) = choose|x: int, y: int| #[trigger] legal(g, white, x, y);
            lemma_legal_flips(g, white, x, y);
            lemma_full_grid(g, x, y);
        }
    }
}

/// A well-formed state is over exactly where the board is full or neither
/// side can move, and a state that is over names the side with more
/// stones as its winner, or a draw where both have as many.
pub proof fn lemma_over_means_full_or_stuck(state: BoardEssentials)
    requires
        state.wf(),
    ensures
        state.finished() <==> state.stones() == 64 || (!has_move(state.grid(), true) && !has_move(
            state.grid(),
            false,
        )),
        state.finished() ==> state.victor() == winner_of(state.grid()),
{
    if state.stones() == 64 {
        lemma_full_is_over(state.grid());
    }
}

/// A move adds exactly one stone to the board, and the state after it is
/// well formed: its index lists the legal moves of the side that is then
/// to move, whether or not the turn passed back.
pub proof fn lemma_move_adds_one_stone(pre: BoardEssentials, x: int, y: int, post: BoardEssentials)
    requires
        pre.wf(),
        BoardEssentials::moved(pre, x, y, post),
    ensures
        stone_count(post.grid()) == stone_count(pre.grid()) + 1,
        post.stones() == pre.stones() + 1,
        consistent(post.index(), post.grid(), post.white_to_move()),
        post.white_to_move() == pre.white_to_move() <==> stone_count(post.grid()) != 64
            && !has_move(post.grid(), !pre.white_to_move()),
{
}

/// Taking back a move that was just played restores the board, the side
/// to move, the number of stones and the history, and leaves the game
/// running.
pub proof fn lemma_undo_restores(start: Game, x: int, y: int, played: Game, back: Game)
    requires
        start.wf(),
        Game::moved(start, x, y, played),
        Game::undone(played, back),
    ensures
        back.essentials().grid() == start.essentials().grid(),
        back.essentials().white_to_move() == start.essentials().white_to_move(),
        back.essentials().stones() == start.essentials().stones(),
        back.essentials().stones() == played.essentials().stones() - 1,
        back.history() == start.history(),
        !back.essentials().finished(),
        back.wf(),
{
    let entry = (start.essentials().grid(), start.essentials().white_to_move());
    assert(start.history().push(entry).drop_last() =~= start.history());
    assert(start.history().push(entry).last() == entry);
}

/// Under a consistent index a cell is a legal move exactly where its list
/// is not empty, and the listed squares are on the board.
pub proof fn lemma_consistent_legal(ix: FlipIndex, g: Grid, white: bool, x: int, y: int)
    requires
        consistent(ix, g, white),
        on_board(x, y),
    ensures
        entry(ix, x, y).len() > 0 <==> legal(g, white, x, y),
        forall|k: int|
            0 <= k < entry(ix, x, y).len() ==> on_board(
                (#[trigger] entry(ix, x, y)[k]).x as int,
                entry(ix, x, y)[k].y as int,
            ) && flips(g, white, x, y, entry(ix, x, y)[k].x as int, entry(ix, x, y)[k].y as int),
{
    let list = entry(ix, x, y);
    lemma_legal_flips(g, white, x, y);
    if list.len() > 0 {
        assert(list.contains(list[0]));
    }
    if legal(g, white, x, y) {
        let (qx, qy) = choose|qx: int, qy: int| #[trigger] flips(g, white, x, y, qx, qy);
        let q = Square { x: qx as usize, y: qy as usize };
        assert(list.contains(q));
    }
    assert forall|k: int| 0 <= k < list.len() implies on_board(
        (#[trigger] list[k]).x as int,
        list[k].y as int,
    ) && flips(g, white, x, y, list[k].x as int, list[k].y as int) by {
        assert(list.contains(list[k]));
    }
}

/// A board with the side to move and everything derived from the two: the
/// legal-move index, the number of stones, whether the game is over and
/// who won it.
pub struct BoardEssentials {
    board: Board,
    white_turn: bool,
    possible_moves: Vec<Vec<Vec<Square>>>,
    amount_of_stone: usize,
    game_over: bool,
    winner: Colour,
}

impl BoardEssentials {
    /// The grid of the board.
    pub closed spec fn grid(&self) -> Grid {
        grid_of(self.board)
    }

    /// Whether white is to move.
    pub closed spec fn white_to_move(&self) -> bool {
        self.white_turn
    }

    /// The legal-move index held by the state.
    pub closed spec fn index(&self) -> FlipIndex {
        index_view(self.possible_moves)
    }

    /// The tracked number of stones.
    pub closed spec fn stones(&self) -> int {
        self.amount_of_stone as int
    }

    /// Whether the game is marked as over.
    pub closed spec fn finished(&self) -> bool {
        self.game_over
    }

    /// The recorded winner; `EMPTY` for a draw.
    pub closed spec fn victor(&self) -> Colour {
        self.winner
    }

    /// The derived fields agree with the board and the side to move: the
    /// index lists the legal moves of that side, the counter is the number
    /// of stones, the game is over exactly where nobody can move, the side
    /// to move of a running game has a move, and a finished game names the
    /// side with more stones as its winner.
    pub open spec fn wf(&self) -> bool {
        &&& consistent(self.index(), self.grid(), self.white_to_move())
        &&& self.stones() == stone_count(self.grid())
        &&& self.finished() <==> over(self.grid())
        &&& !self.finished() ==> has_move(self.grid(), self.white_to_move())
        &&& self.finished() ==> self.victor() == winner_of(self.grid())
    }

    /// Two states hold the same board, side to move, index, counter and
    /// result.
    pub open spec fn agrees(&self, other: &BoardEssentials) -> bool {
        &&& self.grid() == other.grid()
        &&& self.white_to_move() == other.white_to_move()
        &&& self.index() == other.index()
        &&& self.stones() == other.stones()
        &&& self.finished() == other.finished()
        &&& self.victor() == other.victor()
    }

    /// `post` is `pre` after its side to move has played `(x, y)`.
    pub open spec fn moved(pre: BoardEssentials, x: int, y: int, post: BoardEssentials) -> bool {
        &&& post.wf()
        &&& post.grid() == placed(pre.grid(), pre.white_to_move(), x, y)
        &&& post.white_to_move() == turn_after(pre.grid(), pre.white_to_move(), x, y)
        &&& post.stones() == pre.stones() + 1
        &&& post.finished() <==> post.stones() == 64 || over(post.grid())
        &&& !post.finished() ==> post.victor() == pre.victor()
    }

    /// The board snapshot.
    pub fn board(&self) -> (board: &Board)
        ensures
            grid_of(*board) == self.grid(),
    {
        &self.board
    }

    /// Whether white is to move.
    pub fn white_turn(&self) -> (white: bool)
        ensures
            white == self.white_to_move(),
    {
        self.white_turn
    }

    /// The legal-move index: `possible_moves()[x][y]` lists the squares
    /// that a stone placed on `(x, y)` turns.
    pub fn possible_moves(&self) -> (table: &Vec<Vec<Vec<Square>>>)
        ensures
            index_view(*table) == self.index(),
    {
        &self.possible_moves
    }

    /// The number of stones on the board.
    pub fn amount_of_stone(&self) -> (n: usize)
        ensures
            n == self.stones(),
    {
        self.amount_of_stone
    }

    /// Whether the game is over.
    pub fn game_over(&self) -> (is_over: bool)
        ensures
            is_over == self.finished(),
    {
        self.game_over
    }

    /// The winner of a finished game; `EMPTY` for a draw.
    pub fn winner(&self) -> (colour: Colour)
        ensures
            colour == self.victor(),
    {
        self.winner
    }

    /// Whether `(x, y)` is on the board and a legal move for the side to
    /// move.
    pub fn can_move(&self, x: usize, y: usize) -> (ok: bool)
        requires
            self.wf(),
        ensures
            ok == (x < 8 && y < 8 && legal(self.grid(), self.white_to_move(), x as int, y as int)),
    {
        if x < crate::board::BOARD_SIZE && y < crate::board::BOARD_SIZE {
            proof {
                lemma_index_view(self.possible_moves);
                lemma_consistent_legal(
                    self.index(),
                    self.grid(),
                    self.white_to_move(),
                    x as int,
                    y as int,
                );
            }
            self.possible_moves[x][y].len() > 0
        } else {
            false
        }
    }
}

/// Copies a legal-move table list by list.
fn copy_table(table: &Vec<Vec<Vec<Square>>>) -> (copy: Vec<Vec<Vec<Square>>>)
    ensures
        index_view(copy) == index_view(*table),
{
    let mut copy: Vec<Vec<Vec<Square>>> = Vec::with_capacity(table.len());
    let mut x: usize = 0;
    while x < table.len()
        invariant
            x <= table.len(),
            copy.len() == x,
            forall|i: int| 0 <= i < x ==> (#[trigger] copy[i]).len() == table[i].len(),
            forall|i: int, j: int|
                0 <= i < x && 0 <= j < table[i].len() ==> (#[trigger] copy[i][j])@ == table[i][j]@,
        decreases table.len() - x,
    {
        let mut column: Vec<Vec<Square>> = Vec::with_capacity(table[x].len());
        let mut y: usize = 0;
        while y < table[x].len()
            invariant
                x < table.len(),
                y <= table[x as int].len(),
                column.len() == y,
                forall|j: int| 0 <= j < y ==> (#[trigger] column[j])@ == table[x as int][j]@,
            decreases table[x as int].len() - y,
        {
            let mut list: Vec<Square> = Vec::with_capacity(table[x][y].len());
            let mut k: usize = 0;
            while k < table[x][y].len()
                invariant
                    x < table.len(),
                    y < table[x as int].len(),
                    k <= table[x as int][y as int].len(),
                    list@ == table[x as int][y as int]@.subrange(0, k as int),
                decreases table[x as int][y as int].len() - k,
            {
                list.push(table[x][y][k]);
                k = k + 1;
                assert(list@ =~= table[x as int][y as int]@.subrange(0, k as int));
            }
            assert(list@ =~= table[x as int][y as int]@);
            column.push(list);
            y = y + 1;
        }
        copy.push(column);
        x = x + 1;
    }
    proof {
        let a = index_view(copy);
        let b = index_view(*table);
        assert(a.len() == b.len());
        assert forall|i: int| 0 <= i < a.len() implies a[i] == b[i] by {
            assert(copy[i].len() == table[i].len());
            assert forall|j: int| 0 <= j < a[i].len() implies a[i][j] == b[i][j] by {
                assert(copy[i][j]@ == table[i][j]@);
            }
            assert(a[i] =~= b[i]);
        }
        assert(a =~= b);
    }
    copy
}

impl Clone for BoardEssentials {
    /// A copy with the same board, side to move, index, counter and
    /// result.
    fn clone(&self) -> (copy: Self)
        ensures
            copy.agrees(self),
    {
        BoardEssentials {
            board: self.board,
            white_turn: self.white_turn,
            possible_moves: copy_table(&self.possible_moves),
            amount_of_stone: self.amount_of_stone,
            game_over: self.game_over,
            winner: self.winner,
        }
    }
}

/// Plays `(x, y)` for the side to move: places the stone, turns the
/// bracketed stones, hands the turn over, and recomputes the index. Where
/// the board is then full the game is over. Where the other side cannot
/// move the turn passes back, and where the first side cannot move either
/// the game is over.
pub fn do_move_essentials(x: usize, y: usize, board_essential: &mut BoardEssentials)
    requires
        old(board_essential).wf(),
        x < 8,
        y < 8,
        legal(
            old(board_essential).grid(),
            old(board_essential).white_to_move(),
            x as int,
            y as int,
        ),
    ensures
        BoardEssentials::moved(*old(board_essential), x as int, y as int, *final(board_essential)),
{
    let ghost g0 = board_essential.grid();
    let ghost white = board_essential.white_turn;
    let ghost list = entry(board_essential.index(), x as int, y as int);
    let colour = if board_essential.white_turn {
        Colour::WHITE
    } else {
        Colour::BLACK
    };
    proof {
        lemma_grid_of(board_essential.board);
        lemma_index_view(board_essential.possible_moves);
        lemma_consistent_legal(board_essential.index(), g0, white, x as int, y as int);
        lemma_legal_flips(g0, white, x as int, y as int);
    }
    let n = board_essential.possible_moves[x][y].len();
    let mut k: usize = 0;
    while k < n
        invariant
            x < 8,
            y < 8,
            k <= n,
            n == list.len(),
            colour == own(white),
            board_essential.possible_moves == old(board_essential).possible_moves,
            board_essential.white_turn == white,
            board_essential.amount_of_stone == old(board_essential).amount_of_stone,
            board_essential.game_over == old(board_essential).game_over,
            board_essential.winner == old(board_essential).winner,
            board_essential.possible_moves.len() == 8,
            board_essential.possible_moves[x as int].len() == 8,
            board_essential.possible_moves[x as int][y as int]@ == list,
            forall|m: int|
                0 <= m < list.len() ==> on_board((#[trigger] list[m]).x as int, list[m].y as int)
                    && flips(g0, white, x as int, y as int, list[m].x as int, list[m].y as int),
            forall|m: int|
                0 <= m < k ==> cell(
                    grid_of(board_essential.board),
                    (#[trigger] list[m]).x as int,
                    list[m].y as int,
                ) == colour,
            forall|i: int, j: int|
                on_board(i, j) ==> #[trigger] cell(grid_of(board_essential.board), i, j) == colour
                    || cell(grid_of(board_essential.board), i, j) == cell(g0, i, j),
            forall|i: int, j: int|
                on_board(i, j) && #[trigger] cell(grid_of(board_essential.board), i, j) != cell(
                    g0,
                    i,
                    j,
                ) ==> flips(g0, white, x as int, y as int, i, j),
        decreases n - k,
    {
        let sq = board_essential.possible_moves[x][y][k];
        let ghost prev = board_essential.board;
        board_essential.board[sq.x][sq.y] = colour;
        proof {
            lemma_grid_of(prev);
            lemma_grid_of(board_essential.board);
            assert forall|i: int, j: int| on_board(i, j) implies #[trigger] cell(
                grid_of(board_essential.board),
                i,
                j,
            ) == (if i == sq.x && j == sq.y {
                colour
            } else {
                cell(grid_of(prev), i, j)
            }) by {}
        }
        k = k + 1;
    }
    let ghost prev = board_essential.board;
    board_essential.board[x][y] = colour;
    let ghost g1 = grid_of(board_essential.board);
    proof {
        lemma_grid_of(prev);
        lemma_grid_of(board_essential.board);
        assert forall|i: int, j: int| on_board(i, j) implies #[trigger] cell(g1, i, j) == cell(
            placed(g0, white, x as int, y as int),
            i,
            j,
        ) by {
            assert(cell(g1, i, j) == (if i == x && j == y {
                colour
            } else {
                cell(grid_of(prev), i, j)
            }));
            if flips(g0, white, x as int, y as int, i, j) {
                let q = Square { x: i as usize, y: j as usize };
                assert(list.contains(q));
                let m = choose|m: int| 0 <= m < list.len() && list[m] == q;
                assert(cell(grid_of(prev), list[m].x as int, list[m].y as int) == colour);
            }
        }
        lemma_grid_ext(g1, placed(g0, white, x as int, y as int));
        assert forall|i: int, j: int| on_board(i, j) && (i != x || j != y) implies (#[trigger] cell(
            g1,
            i,
            j,
        ) == Colour::EMPTY <==> cell(g0, i, j) == Colour::EMPTY) by {
            if flips(g0, white, x as int, y as int, i, j) {
            }
        }
        lemma_fill_adds_one(g0, g1, x as int, y as int);
        lemma_stone_count_bounds(g1);
    }

    board_essential.white_turn = !board_essential.white_turn;
    let temp = get_all_possible_moves(board_essential);
    board_essential.possible_moves = temp.0;
    let a_move_exists = temp.1;
    board_essential.amount_of_stone += 1;

    if board_essential.amount_of_stone == crate::board::BOARD_SIZE * crate::board::BOARD_SIZE {
        board_essential.game_over = true;
        board_essential.winner = get_winner(&board_essential.board);
        proof {
            lemma_full_is_over(g1);
        }
    } else if !a_move_exists {
        board_essential.white_turn = !board_essential.white_turn;
        let temp = get_all_possible_moves(board_essential);
        board_essential.possible_moves = temp.0;
        let a_move_exists = temp.1;
        if !a_move_exists {
            board_essential.game_over = true;
            board_essential.winner = get_winner(&board_essential.board);
        }
    }
    proof {
        if !board_essential.game_over {
            assert(!old(board_essential).game_over) by {
                assert(has_move(g0, white));
            }
        }
    }
}

/// A live game: the state, the positions it went through, and the last
/// move for display.
pub struct Game {
    board_essential: BoardEssentials,
    prev_boards: Vec<(Board, bool)>,
    last_placed: Square,
    flipped_tiles_from_move: Vec<Square>,
}

/// What there is to report of a game.
#[derive(Clone, Copy, Debug, PartialEq, Eq, Structural)]
pub enum GameInformation {
    /// The game is over; `winner` is `EMPTY` for a draw.
    Over { winner: Colour },
    /// The game goes on.
    Running { white_to_move: bool, stones: usize },
}

impl Game {
    /// The current state.
    pub closed spec fn essentials(&self) -> BoardEssentials {
        self.board_essential
    }

    /// The positions before each move played and not undone, oldest
    /// first, each with its side to move.
    pub closed spec fn history(&self) -> Seq<(Grid, bool)> {
        Seq::new(
            self.prev_boards.len() as nat,
            |i: int| (grid_of(self.prev_boards[i].0), self.prev_boards[i].1),
        )
    }

    /// The square of the last move.
    pub closed spec fn last(&self) -> Square {
        self.last_placed
    }

    /// The squares turned by the last move.
    pub closed spec fn turned(&self) -> Seq<Square> {
        self.flipped_tiles_from_move@
    }

    /// The state is well formed, and each position of the history had a
    /// move for its side and one stone fewer than the position after it.
    pub open spec fn wf(&self) -> bool {
        &&& self.essentials().wf()
        &&& forall|i: int|
            0 <= i < self.history().len() ==> has_move(
                (#[trigger] self.history()[i]).0,
                self.history()[i].1,
            ) && stone_count(self.history()[i].0) + (self.history().len() - i)
                == self.essentials().stones()
    }

    /// `post` is `pre` after its side to move has played `(x, y)`.
    pub open spec fn moved(pre: Game, x: int, y: int, post: Game) -> bool {
        &&& post.wf()
        &&& BoardEssentials::moved(pre.essentials(), x, y, post.essentials())
        &&& post.history() == pre.history().push(
            (pre.essentials().grid(), pre.essentials().white_to_move()),
        )
        &&& post.last() == (Square { x: x as usize, y: y as usize })
        &&& post.turned() == entry(pre.essentials().index(), x, y)
    }

    /// `post` is `pre` after the last move has been taken back, or `pre`
    /// itself where there is none.
    pub open spec fn undone(pre: Game, post: Game) -> bool {
        &&& post.wf()
        &&& post.last() == pre.last()
        &&& post.turned() == pre.turned()
        &&& pre.history().len() == 0 ==> post.essentials() == pre.essentials() && post.history()
            == pre.history()
        &&& pre.history().len() > 0 ==> {
            &&& post.history() == pre.history().drop_last()
            &&& post.essentials().grid() == pre.history().last().0
            &&& post.essentials().white_to_move() == pre.history().last().1
            &&& post.essentials().stones() == pre.essentials().stones() - 1
            &&& !post.essentials().finished()
            &&& post.essentials().victor() == pre.essentials().victor()
        }
    }

    /// The current state.
    pub fn board_essential(&self) -> (state: &BoardEssentials)
        ensures
            *state == self.essentials(),
    {
        &self.board_essential
    }

    /// How many moves can be taken back.
    pub fn moves_played(&self) -> (n: usize)
        ensures
            n == self.history().len(),
    {
        self.prev_boards.len()
    }

    /// The square of the last move; `(0, 0)` before the first.
    pub fn last_placed(&self) -> (square: Square)
        ensures
            square == self.last(),
    {
        self.last_placed
    }

    /// The squares turned by the last move.
    pub fn flipped_tiles_from_move(&self) -> (tiles: &Vec<Square>)
        ensures
            tiles@ == self.turned(),
    {
        &self.flipped_tiles_from_move
    }
}

impl Clone for Game {
    /// A copy with the same state, history and last move.
    fn clone(&self) -> (copy: Self)
        ensures
            copy.essentials().agrees(&self.essentials()),
            copy.history() == self.history(),
            copy.last() == self.last(),
            copy.turned() == self.turned(),
    {
        let mut prev_boards: Vec<(Board, bool)> = Vec::with_capacity(self.prev_boards.len());
        let mut i: usize = 0;
        while i < self.prev_boards.len()
            invariant
                i <= self.prev_boards.len(),
                prev_boards@ == self.prev_boards@.subrange(0, i as int),
            decreases self.prev_boards.len() - i,
        {
            prev_boards.push(self.prev_boards[i]);
            i = i + 1;
            assert(prev_boards@ =~= self.prev_boards@.subrange(0, i as int));
        }
        let mut flipped: Vec<Square> = Vec::with_capacity(self.flipped_tiles_from_move.len());
        let mut k: usize = 0;
        while k < self.flipped_tiles_from_move.len()
            invariant
                k <= self.flipped_tiles_from_move.len(),
                flipped@ == self.flipped_tiles_from_move@.subrange(0, k as int),
            decreases self.flipped_tiles_from_move.len() - k,
        {
            flipped.push(self.flipped_tiles_from_move[k]);
            k = k + 1;
            assert(flipped@ =~= self.flipped_tiles_from_move@.subrange(0, k as int));
        }
        let copy = Game {
            board_essential: self.board_essential.clone(),
            prev_boards: prev_boards,
            last_placed: self.last_placed,
            flipped_tiles_from_move: flipped,
        };
        proof {
            assert(copy.prev_boards@ =~= self.prev_boards@);
            assert(copy.flipped_tiles_from_move@ =~= self.flipped_tiles_from_move@);
            assert(copy.history() =~= self.history());
        }
        copy
    }
}

/// The starting position has two stones of each colour.
pub proof fn lemma_start_count()
    ensures
        count(start_grid(), Colour::WHITE) == 2,
        count(start_grid(), Colour::BLACK) == 2,
        stone_count(start_grid()) == 4,
{
    lemma_count_pair(start_grid(), Colour::WHITE, 3, 4, 4, 3);
    lemma_count_pair(start_grid(), Colour::BLACK, 3, 3, 4, 4);
}

/// Either side could open the game.
pub proof fn lemma_start_has_move(white: bool)
    ensures
        has_move(start_grid(), white),
{
    let g = start_grid();
    if white {
        assert(captures(g, white, 2, 3, 4, 3));
        assert(legal(g, white, 2, 3));
    } else {
        assert(captures(g, white, 5, 3, 3, 3));
        assert(legal(g, white, 5, 3));
    }
}

/// A new game: the starting layout, the starting side to move, four
/// stones, and the legal moves of that side.
pub fn init_game() -> (game: Game)
    ensures
        game.wf(),
        game.essentials().grid() == start_grid(),
        game.essentials().white_to_move() == WHITE_IS_STARTING,
        game.essentials().stones() == 4,
        !game.essentials().finished(),
        game.essentials().victor() == Colour::EMPTY,
        game.history().len() == 0,
        game.last() == (Square { x: 0, y: 0 }),
        game.turned().len() == 0,
{
    let board = set_up_board();
    let board_ess = BoardEssentials {
        board: board,
        white_turn: WHITE_IS_STARTING,
        possible_moves: Vec::new(),
        amount_of_stone: STARTING_STONES,
        game_over: false,
        winner: Colour::EMPTY,
    };
    let mut game = Game {
        board_essential: board_ess,
        prev_boards: Vec::with_capacity(crate::board::BOARD_SIZE * crate::board::BOARD_SIZE),
        last_placed: Square { x: 0, y: 0 },
        flipped_tiles_from_move: Vec::new(),
    };
    game.board_essential.possible_moves = get_all_possible_moves(&game.board_essential).0;
    proof {
        lemma_start_count();
        lemma_start_has_move(WHITE_IS_STARTING);
    }
    game
}

/// Takes the last move back: restores the board and the side to move,
/// recomputes the index, takes one stone off the counter and marks the
/// game as running. The recorded winner and the last-move display stay.
/// Does nothing where no move is left to take back.
pub fn undo(game: &mut Game)
    requires
        old(game).wf(),
    ensures
        Game::undone(*old(game), *final(game)),
{
    let ghost before = game.history();
    match game.prev_boards.pop() {
        Some(old_board) => {
            game.board_essential.board = old_board.0;
            game.board_essential.white_turn = old_board.1;
            game.board_essential.possible_moves = get_all_possible_moves(&game.board_essential).0;
            proof {
                assert(before[before.len() - 1] == (grid_of(old_board.0), old_board.1));
                lemma_stone_count_bounds(grid_of(old_board.0));
            }
            game.board_essential.amount_of_stone -= 1;
            game.board_essential.game_over = false;
            proof {
                assert(game.history() =~= before.drop_last());
                assert forall|i: int| 0 <= i < game.history().len() implies has_move(
                    (#[trigger] game.history()[i]).0,
                    game.history()[i].1,
                ) && stone_count(game.history()[i].0) + (game.history().len() - i)
                    == game.essentials().stones() by {
                    assert(game.history()[i] == before[i]);
                }
            }
        },
        None => {
            proof {
                assert(game.history() =~= before);
            }
        },
    }
}

/// Whether the side to move is played by a person.
pub open spec fn human_to_move(white_turn: bool) -> bool {
    match AI_COLOUR {
        Colour::EMPTY => true,
        Colour::WHITE => !white_turn,
        Colour::BLACK => white_turn,
    }
}

/// Whether the side to move is played by a person rather than by the
/// computer.
pub fn player_turn(white_turn: bool) -> (human: bool)
    ensures
        human == human_to_move(white_turn),
{
    match AI_COLOUR {
        Colour::EMPTY => true,
        Colour::WHITE => !white_turn,
        Colour::BLACK => white_turn,
    }
}

/// Plays `(x, y)` in a live game: remembers the position for `undo` and
/// the move for display, then applies the move to the state.
pub fn do_move(x: usize, y: usize, game: &mut Game)
    requires
        old(game).wf(),
        x < 8,
        y < 8,
        legal(
            old(game).essentials().grid(),
            old(game).essentials().white_to_move(),
            x as int,
            y as int,
        ),
    ensures
        Game::moved(*old(game), x as int, y as int, *final(game)),
{
    let ghost before = game.history();
    let ghost g0 = game.board_essential.grid();
    let ghost white = game.board_essential.white_turn;
    proof {
        lemma_index_view(game.board_essential.possible_moves);
    }
    game.prev_boards.push((game.board_essential.board, game.board_essential.white_turn));
    game.last_placed = Square { x: x, y: y };
    game.flipped_tiles_from_move = game.board_essential.possible_moves[x][y].clone();
    proof {
        assert(game.flipped_tiles_from_move@ =~= entry(
            game.board_essential.index(),
            x as int,
            y as int,
        ));
        assert(game.history() =~= before.push((g0, white)));
    }
    do_move_essentials(x, y, &mut game.board_essential);
    proof {
        assert forall|i: int| 0 <= i < game.history().len() implies has_move(
            (#[trigger] game.history()[i]).0,
            game.history()[i].1,
        ) && stone_count(game.history()[i].0) + (game.history().len() - i)
            == game.essentials().stones() by {
            if i < before.len() {
                assert(game.history()[i] == before[i]);
            } else {
                assert(has_move(g0, white));
            }
        }
    }
}

/// What there is to report of the game: its winner where it is over, else
/// the side to move and the number of stones.
pub fn game_information(game: &Game) -> (info: GameInformation)
    ensures
        info == (if game.essentials().finished() {
            GameInformation::Over { winner: game.essentials().victor() }
        } else {
            GameInformation::Running {
                white_to_move: game.essentials().white_to_move(),
                stones: game.essentials().stones() as usize,
            }
        }),
{
    if game.board_essential.game_over {
        GameInformation::Over { winner: game.board_essential.winner }
    } else {
        GameInformation::Running {
            white_to_move: game.board_essential.white_turn,
            stones: game.board_essential.amount_of_stone,
        }
    }
}

} // verus!
