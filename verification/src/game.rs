//! The game session: the playfield, the piece in play, the score, the count
//! of cleared lines and the level, and the steps that lock a piece and clear
//! full rows.

use vstd::prelude::*;
use crate::catalog::TetriminoTypes;
use crate::grid::{
    cleared, empty_rows, full_count, has_shape_of, is_board, is_full, is_shape, kept_rows,
    lemma_kept_rows_step,
    lemma_stamp_is_board, rows_of, stamp, stamped_cell, Grid, BOARD_HEIGHT, BOARD_WIDTH,
};
use crate::piece::{PieceView, Tetrimino};
use crate::random::gen_range_inclusive;

verus! {

/// The highest level; the level tables end here.
pub const MAX_LEVEL: u32 = 10;

/// Points for clearing every row of the playfield at once.
pub const FULL_CLEAR_BONUS: u32 = 1000;

/// Milliseconds between two forced falls, by level minus one.
pub const LEVEL_TIMES: [u32; 10] = [1000, 850, 700, 600, 500, 400, 300, 250, 221, 190];

/// Cleared lines beyond which a level is left, by level minus one.
pub const LEVEL_LINES: [u32; 10] = [20, 40, 60, 80, 100, 120, 140, 160, 180, 200];

/// The state of one game.
#[derive(Debug)]
pub struct Tetris {
    pub game_map: Vec<Vec<u8>>,
    pub current_level: u32,
    pub score: u32,
    pub nb_lines: u32,
    pub current_piece: Option<Tetrimino>,
    pub last_piece: Option<TetriminoTypes>,
}

/// The number of cleared lines beyond which `level` is left for the next.
pub open spec fn lines_to_leave(level: int) -> int {
    20 * level
}

/// The level after one more line is cleared at `level`, when `lines` lines
/// are cleared in all, that one included. The last level is never left.
pub open spec fn level_step(level: int, lines: int) -> int {
    if level < MAX_LEVEL && lines > lines_to_leave(level) {
        level + 1
    } else {
        level
    }
}

/// The level after `n` more lines are cleared one by one, starting at `level`
/// with `lines` lines cleared before.
pub open spec fn level_after(level: int, lines: int, n: nat) -> int
    decreases n,
{
    if n == 0 {
        level
    } else {
        level_step(level_after(level, lines, (n - 1) as nat), lines + n)
    }
}

/// The points for clearing the full rows of `g` at `level`: the level for
/// each row, and the bonus when no row is left.
pub open spec fn clear_score(g: Grid, level: int) -> int {
    level * full_count(g) + if kept_rows(g).len() == 0 {
        FULL_CLEAR_BONUS as int
    } else {
        0
    }
}

/// A game as a mathematical value.
pub struct GameView {
    pub board: Grid,
    pub level: int,
    pub score: int,
    pub lines: int,
    pub piece: Option<PieceView>,
    pub last: Option<TetriminoTypes>,
}

impl GameView {
    /// The playfield has 16 rows of 10 cells with values from 0 to 7, the
    /// level is from 1 to 10, score and line count are not negative, and
    /// the piece in play, if any, is well formed.
    pub open spec fn wf(self) -> bool {
        &&& is_board(self.board)
        &&& 1 <= self.level <= MAX_LEVEL
        &&& 0 <= self.score
        &&& 0 <= self.lines
        &&& self.piece matches Some(piece) ==> piece.wf()
    }

    /// Score and line count fit the counters that hold them.
    pub open spec fn fits(self) -> bool {
        self.score <= u32::MAX && self.lines <= u32::MAX
    }

    /// The game with `piece` in play.
    pub open spec fn with_piece(self, piece: Option<PieceView>) -> GameView {
        GameView {
            board: self.board,
            level: self.level,
            score: self.score,
            lines: self.lines,
            piece,
            last: self.last,
        }
    }

    /// The game with a new piece of `kind` in play, as it enters the
    /// playfield.
    pub open spec fn spawned(self, kind: TetriminoTypes) -> GameView {
        GameView {
            board: self.board,
            level: self.level,
            score: self.score,
            lines: self.lines,
            piece: Some(kind.spawn()),
            last: Some(kind),
        }
    }

    /// The game after its full rows are cleared: each is taken out, empty
    /// rows fill the top, every cleared row scores the level that the game
    /// was at and counts as a line, and the level follows the line count.
    pub open spec fn cleared_lines(self) -> GameView {
        GameView {
            board: cleared(self.board),
            level: level_after(self.level, self.lines, full_count(self.board) as nat),
            score: self.score + clear_score(self.board, self.level),
            lines: self.lines + full_count(self.board),
            piece: self.piece,
            last: self.last,
        }
    }

    /// The playfield with the piece in play written into it; the playfield
    /// itself where no piece is in play.
    pub open spec fn locked_board(self) -> Grid {
        match self.piece {
            Some(piece) => stamp(self.board, piece.shape(), piece.x, piece.y),
            None => self.board,
        }
    }

    /// The game after the piece in play is locked: the piece is written
    /// into the playfield and scores the level, full rows are cleared, and
    /// no piece is in play.
    pub open spec fn locked(self) -> GameView {
        GameView {
            board: self.locked_board(),
            level: self.level,
            score: self.score + if self.piece is Some {
                self.level
            } else {
                0
            },
            lines: self.lines,
            piece: None,
            last: self.last,
        }.cleared_lines()
    }
}

impl View for Tetris {
    type V = GameView;

    open spec fn view(&self) -> GameView {
        GameView {
            board: rows_of(self.game_map@),
            level: self.current_level as int,
            score: self.score as int,
            lines: self.nb_lines as int,
            piece: match self.current_piece {
                Some(piece) => Some(piece@),
                None => None,
            },
            last: self.last_piece,
        }
    }
}

impl Tetris {
    /// A new game: an empty playfield, level 1, no score, no piece.
    pub fn new() -> (tetris: Tetris)
        ensures
            tetris@ == (GameView {
                board: empty_rows(BOARD_HEIGHT as int),
                level: 1,
                score: 0,
                lines: 0,
                piece: None,
                last: None,
            }),
            tetris@.wf(),
    {
        let mut game_map: Vec<Vec<u8>> = Vec::new();
        let mut r: usize = 0;
        while r < BOARD_HEIGHT
            invariant
                r <= BOARD_HEIGHT,
                game_map@.len() == r,
                forall|i: int| 0 <= i < r ==> (#[trigger] game_map@[i])@ == Seq::new(
                    BOARD_WIDTH as nat,
                    |c: int| 0u8,
                ),
            decreases BOARD_HEIGHT - r,
        {
            game_map.push(empty_row());
            r += 1;
        }
        let tetris = Tetris {
            game_map,
            current_level: 1,
            score: 0,
            nb_lines: 0,
            current_piece: None,
            last_piece: None,
        };
        assert(tetris@.board =~~= empty_rows(BOARD_HEIGHT as int));
        tetris
    }

    /// Whether the game is well formed: a playfield of 16 rows of 10 cells
    /// with values from 0 to 7, a level from 1 to 10, and a well-formed
    /// piece in play, if any.
    pub fn is_well_formed(&self) -> (ok: bool)
        ensures
            ok == self@.wf(),
    {
        if !has_shape_of(self.game_map.as_slice(), BOARD_WIDTH, BOARD_HEIGHT) {
            return false;
        }
        if self.current_level < 1 || self.current_level > MAX_LEVEL {
            return false;
        }
        match &self.current_piece {
            Some(piece) => piece.is_well_formed(),
            None => true,
        }
    }

    /// Puts a new piece in play. Its kind is drawn at random, evenly among
    /// the kinds other than the one that came before (among all seven for
    /// the first piece), so no kind comes twice in a row.
    pub fn create_next_tetrimino(&mut self)
        ensures
            final(self)@.last matches Some(kind) && old(self)@.last != Some(kind) && final(self)@
                == old(self)@.spawned(kind),
            old(self)@.wf() ==> final(self)@.wf(),
    {
        let mut rng = rand::thread_rng();
        let draw = match self.last_piece {
            Some(_) => gen_range_inclusive(&mut rng, 0, 5),
            None => gen_range_inclusive(&mut rng, 0, 6),
        };
        let next = TetriminoTypes::pick(self.last_piece, draw);
        self.last_piece = Some(next);
        self.current_piece = Some(next.generate());
    }

    /// Adds `to_add` points.
    pub fn update_score(&mut self, to_add: u32)
        requires
            old(self).score + to_add <= u32::MAX,
        ensures
            final(self)@ == (GameView { score: old(self).score + to_add, ..old(self)@ }),
            final(self).game_map == old(self).game_map,
            final(self).current_piece == old(self).current_piece,
    {
        self.score += to_add;
    }

    /// Counts one more cleared line, and goes up one level when the count
    /// passes what the current level asks for.
    pub fn increase_line(&mut self)
        requires
            1 <= old(self).current_level <= MAX_LEVEL,
            old(self).nb_lines < u32::MAX,
        ensures
            final(self)@ == (GameView {
                lines: old(self).nb_lines + 1,
                level: level_step(old(self).current_level as int, old(self).nb_lines + 1),
                ..old(self)@
            }),
            final(self).game_map == old(self).game_map,
            final(self).current_piece == old(self).current_piece,
    {
        self.nb_lines += 1;
        if self.current_level < MAX_LEVEL && self.nb_lines > LEVEL_LINES[self.current_level as usize
            - 1] {
            self.current_level += 1;
        }
    }

    /// Writes `value` into the cell at column `x` of row `y`.
    pub fn write_cell(&mut self, x: usize, y: usize, value: u8)
        requires
            y < old(self)@.board.len(),
            x < old(self)@.board[y as int].len(),
        ensures
            final(self)@ == (GameView {
                board: old(self)@.board.update(
                    y as int,
                    old(self)@.board[y as int].update(x as int, value),
                ),
                ..old(self)@
            }),
            final(self).current_piece == old(self).current_piece,
    {
        self.game_map[y][x] = value;
        assert(self@.board =~~= old(self)@.board.update(
            y as int,
            old(self)@.board[y as int].update(x as int, value),
        ));
    }

    /// Takes the full rows out of the playfield: the rows above them move
    /// down, and as many empty rows fill the top. Gives the number of rows
    /// that were full. Score, lines and level are left as they are.
    pub fn clear_full_rows_and_compact(&mut self) -> (removed: usize)
        requires
            is_board(old(self)@.board),
        ensures
            final(self)@ == (GameView { board: cleared(old(self)@.board), ..old(self)@ }),
            is_board(final(self)@.board),
            removed == full_count(old(self)@.board),
            removed <= BOARD_HEIGHT,
            (removed == BOARD_HEIGHT) == (kept_rows(old(self)@.board).len() == 0),
            final(self).current_piece == old(self).current_piece,
    {
        let ghost before = self@.board;
        let ghost seen: int = 0;
        let mut y: usize = 0;
        let mut removed: usize = 0;
        proof {
            lemma_kept_rows_step(before, 0);
            assert(self@.board.subrange(0, 0) =~= kept_rows(before.subrange(0, 0)));
            assert(self@.board.subrange(0, 16) =~= before.subrange(0, 16));
        }
        while y < self.game_map.len()
            invariant
                is_board(before),
                0 <= y <= seen <= 16,
                removed == seen - y,
                self.game_map@.len() == 16 - removed,
                self@.board.subrange(0, y as int) == kept_rows(before.subrange(0, seen)),
                self@.board.subrange(y as int, self.game_map@.len() as int) == before.subrange(
                    seen,
                    16,
                ),
                self.current_level == old(self).current_level,
                self.score == old(self).score,
                self.nb_lines == old(self).nb_lines,
                self.current_piece == old(self).current_piece,
                self.last_piece == old(self).last_piece,
            decreases 16 - seen,
        {
            let ghost row = self@.board[y as int];
            proof {
                assert(row == self@.board.subrange(y as int, self.game_map@.len() as int)[0]);
                assert(row == before[seen]);
                lemma_kept_rows_step(before, seen);
            }
            let mut complete = true;
            let width = self.game_map[y].len();
            let mut x: usize = 0;
            while x < width
                invariant_except_break
                    complete,
                invariant
                    x <= width,
                    y < self.game_map@.len(),
                    width == row.len(),
                    row == self.game_map@[y as int]@,
                    forall|c: int| 0 <= c < x ==> row[c] != 0,
                ensures
                    complete == is_full(row),
                decreases width - x,
            {
                if self.game_map[y][x] == 0 {
                    complete = false;
                    break ;
                }
                x += 1;
            }
            let ghost board_before = self@.board;
            let ghost len_before = self.game_map@.len() as int;
            if complete {
                removed += 1;
                self.game_map.remove(y);
                proof {
                    assert(self@.board =~= board_before.remove(y as int));
                    assert(self@.board.subrange(0, y as int) =~= board_before.subrange(
                        0,
                        y as int,
                    ));
                    assert(self@.board.subrange(y as int, len_before - 1)
                        =~= board_before.subrange(y as int, len_before).subrange(
                        1,
                        len_before - y,
                    ));
                    assert(before.subrange(seen + 1, 16) =~= before.subrange(seen, 16).subrange(
                        1,
                        16 - seen,
                    ));
                    seen = seen + 1;
                }
            } else {
                proof {
                    assert(self@.board.subrange(0, y + 1) =~= self@.board.subrange(
                        0,
                        y as int,
                    ).push(row));
                    assert(self@.board.subrange(y + 1, len_before) =~= self@.board.subrange(
                        y as int,
                        len_before,
                    ).subrange(1, len_before - y));
                    assert(before.subrange(seen + 1, 16) =~= before.subrange(seen, 16).subrange(
                        1,
                        16 - seen,
                    ));
                    seen = seen + 1;
                }
                y += 1;
            }
        }
        proof {
            assert(before.subrange(0, 16) =~= before);
            assert(self@.board.subrange(0, y as int) =~= self@.board);
            assert(self@.board == kept_rows(before));
            assert(full_count(before) == removed);
        }
        let ghost kept = kept_rows(before);
        while self.game_map.len() < BOARD_HEIGHT
            invariant
                kept.len() == 16 - removed,
                removed <= 16,
                16 - removed <= self.game_map@.len() <= 16,
                self@.board == empty_rows(self.game_map@.len() - kept.len()) + kept,
                self.current_level == old(self).current_level,
                self.score == old(self).score,
                self.nb_lines == old(self).nb_lines,
                self.current_piece == old(self).current_piece,
                self.last_piece == old(self).last_piece,
            decreases 16 - self.game_map@.len(),
        {
            let ghost board_before = self@.board;
            let ghost added = self.game_map@.len() - kept.len();
            self.game_map.insert(0, empty_row());
            proof {
                assert(self@.board =~= board_before.insert(0, self@.board[0]));
                assert(self@.board =~~= empty_rows(added + 1) + kept);
            }
        }
        proof {
            assert(self@.board == cleared(before));
            lemma_cleared_is_board(before);
        }
        removed
    }

    /// Clears the full rows: each is taken out, the rows above it move down,
    /// and empty rows fill the top. Every cleared row scores the level that
    /// the game was at before, and counts as one more line; clearing every
    /// row of the playfield at once brings the bonus.
    pub fn check_lines(&mut self)
        requires
            old(self)@.wf(),
            old(self)@.cleared_lines().fits(),
        ensures
            final(self)@ == old(self)@.cleared_lines(),
            final(self)@.wf(),
            final(self).current_piece == old(self).current_piece,
            final(self)@.score >= old(self)@.score,
            final(self)@.lines >= old(self)@.lines,
            final(self)@.level >= old(self)@.level,
    {
        let ghost before = self@.board;
        let removed = self.clear_full_rows_and_compact();
        assert(self.current_level * removed <= 160) by (nonlinear_arith)
            requires
                1 <= self.current_level <= 10,
                0 <= removed <= 16,
        ;
        let mut score_add: u32 = self.current_level * removed as u32;
        if removed == BOARD_HEIGHT {
            score_add += FULL_CLEAR_BONUS;
        }
        self.update_score(score_add);
        let mut counted: usize = 0;
        while counted < removed
            invariant
                counted <= removed,
                old(self).nb_lines + removed <= u32::MAX,
                self@ == (GameView {
                    board: cleared(before),
                    score: old(self).score + clear_score(before, old(self).current_level as int),
                    lines: old(self).nb_lines + counted,
                    level: level_after(
                        old(self).current_level as int,
                        old(self).nb_lines as int,
                        counted as nat,
                    ),
                    ..old(self)@
                }),
                1 <= self.current_level <= MAX_LEVEL,
                self.current_piece == old(self).current_piece,
            decreases removed - counted,
        {
            self.increase_line();
            counted += 1;
        }
        proof {
            lemma_clear_gains(before, old(self).current_level as int, old(self).nb_lines as int);
        }
    }

    /// Writes the filled cells of `piece` into the playfield, where they
    /// fall inside it. Score, lines, level and the piece in play are left as
    /// they are.
    pub fn write_piece(&mut self, piece: &Tetrimino)
        requires
            is_board(old(self)@.board),
            piece@.wf(),
        ensures
            final(self)@ == (GameView {
                board: stamp(old(self)@.board, piece@.shape(), piece@.x, piece@.y),
                ..old(self)@
            }),
            is_board(final(self)@.board),
            final(self).current_piece == old(self).current_piece,
    {
        let ghost before = self@.board;
        let ghost shape = piece@.shape();
        let ghost px = piece.x as int;
        let ghost py = piece.y as int;
        let state = &piece.states[piece.current_state as usize];
        assert(is_shape(piece@.shapes[piece@.state]));
        let mut shift_y: usize = 0;
        while shift_y < 4 && piece.y < BOARD_HEIGHT && shift_y < BOARD_HEIGHT - piece.y
            invariant
                shift_y <= 4,
                is_board(before),
                is_shape(shape),
                shape == rows_of(state@),
                px == piece.x,
                py == piece.y,
                self@.board.len() == 16,
                forall|r: int| 0 <= r < 16 ==> (#[trigger] self@.board[r]).len() == 10,
                forall|r: int, c: int|
                    0 <= r < 16 && 0 <= c < 10 ==> #[trigger] self@.board[r][c] == partial_cell(
                        before,
                        shape,
                        px,
                        py,
                        c,
                        r,
                        shift_y as int,
                        0,
                    ),
                self.current_level == old(self).current_level,
                self.score == old(self).score,
                self.nb_lines == old(self).nb_lines,
                self.current_piece == old(self).current_piece,
                self.last_piece == old(self).last_piece,
            decreases 4 - shift_y,
        {
            let mut shift_x: usize = 0;
            while shift_x < 4
                invariant
                    shift_x <= 4,
                    shift_y < 4,
                    py + shift_y < 16,
                    is_board(before),
                    is_shape(shape),
                    shape == rows_of(state@),
                    px == piece.x,
                    py == piece.y,
                    self@.board.len() == 16,
                    forall|r: int| 0 <= r < 16 ==> (#[trigger] self@.board[r]).len() == 10,
                    forall|r: int, c: int|
                        0 <= r < 16 && 0 <= c < 10 ==> #[trigger] self@.board[r][c]
                            == partial_cell(
                            before,
                            shape,
                            px,
                            py,
                            c,
                            r,
                            shift_y as int,
                            shift_x as int,
                        ),
                    self.current_level == old(self).current_level,
                    self.score == old(self).score,
                    self.nb_lines == old(self).nb_lines,
                    self.current_piece == old(self).current_piece,
                    self.last_piece == old(self).last_piece,
                decreases 4 - shift_x,
            {
                assert(shape[shift_y as int].len() == 4);
                let value = state[shift_y][shift_x];
                if value != 0 && -(shift_x as isize) <= piece.x && piece.x < BOARD_WIDTH as isize
                    - shift_x as isize {
                    let x = (piece.x + shift_x as isize) as usize;
                    self.write_cell(x, piece.y + shift_y, value);
                }
                shift_x += 1;
            }
            shift_y += 1;
        }
        proof {
            assert(self@.board =~~= stamp(before, shape, px, py));
            lemma_stamp_is_board(before, shape, px, py);
        }
    }

    /// Locks the piece in play: its filled cells are written into the
    /// playfield where they fall inside it, the level is scored for the
    /// piece, full rows are cleared and scored, and no piece is in play
    /// afterwards. The score, the line count and the level never go down.
    pub fn make_permanent(&mut self)
        requires
            old(self)@.wf(),
            old(self)@.locked().fits(),
        ensures
            final(self)@ == old(self)@.locked(),
            final(self)@.wf(),
            final(self)@.score >= old(self)@.score,
            final(self)@.lines >= old(self)@.lines,
            final(self)@.level >= old(self)@.level,
    {
        let mut to_add: u32 = 0;
        if let Some(piece) = self.current_piece.take() {
            self.write_piece(&piece);
            to_add += self.current_level;
        }
        proof {
            lemma_clear_gains(self@.board, self.current_level as int, self.nb_lines as int);
        }
        self.update_score(to_add);
        self.check_lines();
        self.current_piece = None;
    }
}

/// The value of cell `(c, r)` while a shape is being written into `g` row by
/// row: the cells of the shape's rows before `rows`, and those before column
/// `cols` of row `rows`, are written, the others not yet.
pub open spec fn partial_cell(
    g: Grid,
    shape: Grid,
    x: int,
    y: int,
    c: int,
    r: int,
    rows: int,
    cols: int,
) -> u8 {
    if r - y < rows || (r - y == rows && c - x < cols) {
        stamped_cell(g, shape, x, y, c, r)
    } else {
        g[r][c]
    }
}

/// Clearing lines never lowers the level, and never takes it past the last.
pub proof fn lemma_level_after_bounds(level: int, lines: int, n: nat)
    requires
        1 <= level <= MAX_LEVEL,
    ensures
        level <= level_after(level, lines, n) <= MAX_LEVEL,
    decreases n,
{
    if n > 0 {
        lemma_level_after_bounds(level, lines, (n - 1) as nat);
    }
}

/// Clearing full rows and locking a piece keep a game well formed, and
/// neither lowers the score, the line count or the level.
pub proof fn lemma_lock_keeps_game(game: GameView)
    requires
        game.wf(),
    ensures
        game.cleared_lines().wf(),
        game.cleared_lines().last == game.last && game.locked().last == game.last,
        game.cleared_lines().score >= game.score,
        game.cleared_lines().lines >= game.lines,
        game.cleared_lines().level >= game.level,
        game.locked().wf(),
        game.locked().piece is None,
        game.locked().score >= game.score,
        game.locked().lines >= game.lines,
        game.locked().level >= game.level,
{
    lemma_clear_gains(game.board, game.level, game.lines);
    if let Some(piece) = game.piece {
        lemma_stamp_is_board(game.board, piece.shape(), piece.x, piece.y);
    }
    lemma_clear_gains(game.locked_board(), game.level, game.lines);
}

/// Clearing the full rows of a playfield scores no less than nothing, and
/// leaves the level between where it was and the last.
pub proof fn lemma_clear_gains(g: Grid, level: int, lines: int)
    requires
        is_board(g),
        1 <= level <= MAX_LEVEL,
    ensures
        is_board(cleared(g)),
        0 <= full_count(g) <= BOARD_HEIGHT,
        clear_score(g, level) >= 0,
        level <= level_after(level, lines, full_count(g) as nat) <= MAX_LEVEL,
{
    lemma_cleared_is_board(g);
    lemma_level_after_bounds(level, lines, full_count(g) as nat);
    assert(level * full_count(g) >= 0) by (nonlinear_arith)
        requires
            level >= 1,
            full_count(g) >= 0,
    ;
}

/// Clearing the full rows of a playfield gives a playfield.
pub proof fn lemma_cleared_is_board(g: Grid)
    requires
        is_board(g),
    ensures
        is_board(cleared(g)),
        0 <= full_count(g) <= BOARD_HEIGHT,
{
    let kept = kept_rows(g);
    g.lemma_filter_len(crate::grid::is_not_full());
    assert forall|r: int| 0 <= r < kept.len() implies (#[trigger] kept[r]).len() == BOARD_WIDTH
        && forall|c: int| 0 <= c < BOARD_WIDTH ==> #[trigger] kept[r][c] <= 7 by {
        g.lemma_filter_contains_rev(crate::grid::is_not_full(), kept[r]);
    }
}

/// A row of the playfield with every cell empty.
pub fn empty_row() -> (row: Vec<u8>)
    ensures
        row@ == Seq::new(BOARD_WIDTH as nat, |c: int| 0u8),
{
    let row: Vec<u8> = vec![0, 0, 0, 0, 0, 0, 0, 0, 0, 0];
    assert(row@ =~= Seq::new(BOARD_WIDTH as nat, |c: int| 0u8));
    row
}

} // verus!
