//! One step of play: the fall that the clock forces, a new piece where none
//! is in play, and the intents of the player, taken in one by one.

use vstd::prelude::*;
use crate::catalog::{lemma_catalog_shapes, TetriminoTypes};
use crate::game::{lemma_lock_keeps_game, GameView, Tetris, LEVEL_TIMES, MAX_LEVEL};
use crate::grid::{full_count, legal_at, lemma_outside_is_illegal, rows_of, BOARD_WIDTH};
use crate::piece::{lemma_legal_inside, PieceView};

verus! {

/// What the player asks for.
#[derive(Clone, Copy, PartialEq, Eq, Structural, Debug)]
pub enum Intent {
    Quit,
    MoveLeft,
    MoveRight,
    SoftDrop,
    HardDrop,
    Rotate,
}

/// The milliseconds between two forced falls at `level`.
pub open spec fn fall_interval(level: int) -> int {
    LEVEL_TIMES@[level - 1] as int
}

/// A step of play while the player's intents are taken in: the game, whether
/// the player quit, whether the clock of the forced fall starts anew, and
/// whether the piece was locked.
pub struct Turn {
    pub game: GameView,
    pub quit: bool,
    pub reset_timer: bool,
    pub locked: bool,
}

impl GameView {
    /// Whether a forced fall is due after `elapsed_millis`: more time has
    /// passed than the level's interval. `None` stands for a clock that
    /// could not be read, on which nothing is due.
    pub open spec fn is_due(self, elapsed_millis: Option<u64>) -> bool {
        elapsed_millis matches Some(millis) && millis > fall_interval(self.level)
    }

    /// Whether the piece in play can go down one row.
    pub open spec fn can_fall(self) -> bool {
        self.piece matches Some(piece) && legal_at(
            self.board,
            piece.shape(),
            piece.x,
            piece.y + 1,
        )
    }

    /// The game after an attempt to move the piece in play `dx` columns to
    /// the right.
    pub open spec fn shifted(self, dx: int) -> GameView {
        match self.piece {
            Some(piece) => self.with_piece(Some(piece.moved(self.board, piece.x + dx, piece.y))),
            None => self,
        }
    }

    /// The game after an attempt to rotate the piece in play.
    pub open spec fn turned(self) -> GameView {
        match self.piece {
            Some(piece) => self.with_piece(Some(piece.rotated(self.board))),
            None => self,
        }
    }

    /// The game after the piece in play has fallen as far as it can. It is
    /// not locked by that.
    pub open spec fn dropped(self) -> GameView {
        match self.piece {
            Some(piece) => self.with_piece(Some(piece.dropped(self.board))),
            None => self,
        }
    }

    /// The game after a move down by one row, forced or asked for: the
    /// piece goes down, or is locked where the row below does not take it.
    /// With no piece in play nothing happens.
    pub open spec fn after_gravity(self) -> GameView {
        match self.piece {
            None => self,
            Some(piece) => if self.can_fall() {
                self.with_piece(Some(piece.at(piece.x, piece.y + 1)))
            } else {
                self.locked()
            },
        }
    }

    /// The game after the clock had its say: after a forced fall if one is
    /// due, as it was if not.
    pub open spec fn after_clock(self, elapsed_millis: Option<u64>) -> GameView {
        if self.is_due(elapsed_millis) {
            self.after_gravity()
        } else {
            self
        }
    }

    /// Whether a piece of `kind` that enters the playfield ends the game:
    /// no piece is in play, and the new one does not fit.
    pub open spec fn ends_with(self, kind: TetriminoTypes) -> bool {
        self.piece is None && !kind.spawn().fits(self.board)
    }

    /// The game with a piece in play: the one that it has, or a new one of
    /// `kind`.
    pub open spec fn after_spawn(self, kind: TetriminoTypes) -> GameView {
        if self.piece is None {
            self.spawned(kind)
        } else {
            self
        }
    }

    /// The game after the intents of one step.
    pub open spec fn after_events(self, intents: Seq<Intent>) -> GameView {
        Turn::start(self).apply_all(intents).game
    }

    /// The game after one step in which `kind` is the kind of piece that
    /// enters if one has to: the forced fall if it is due, then the new
    /// piece if none is in play, then, unless that piece ended the game,
    /// the intents of the player.
    pub open spec fn after_step(
        self,
        elapsed_millis: Option<u64>,
        kind: TetriminoTypes,
        intents: Seq<Intent>,
    ) -> GameView {
        let fallen = self.after_clock(elapsed_millis);
        if fallen.ends_with(kind) {
            fallen.spawned(kind)
        } else {
            fallen.after_spawn(kind).after_events(intents)
        }
    }
}

impl Turn {
    /// Before any intent.
    pub open spec fn start(game: GameView) -> Turn {
        Turn { game, quit: false, reset_timer: false, locked: false }
    }

    /// One intent taken in. A move to the side, a rotation or a hard drop
    /// changes the piece if the playfield allows it, and nothing if not. A
    /// soft drop moves the piece down one row and starts the clock anew;
    /// where the row below does not take the piece, the piece is locked.
    /// With no piece in play only quitting has an effect.
    pub open spec fn apply(self, intent: Intent) -> Turn {
        match intent {
            Intent::Quit => Turn { quit: true, ..self },
            Intent::MoveLeft => Turn { game: self.game.shifted(-1), ..self },
            Intent::MoveRight => Turn { game: self.game.shifted(1), ..self },
            Intent::Rotate => Turn { game: self.game.turned(), ..self },
            Intent::HardDrop => Turn { game: self.game.dropped(), ..self },
            Intent::SoftDrop => if self.game.piece is Some {
                Turn {
                    game: self.game.after_gravity(),
                    quit: self.quit,
                    reset_timer: true,
                    locked: self.locked || !self.game.can_fall(),
                }
            } else {
                self
            },
        }
    }

    /// The intents taken in one after the other, up to the first that quits.
    pub open spec fn apply_all(self, intents: Seq<Intent>) -> Turn
        decreases intents.len(),
    {
        if intents.len() == 0 {
            self
        } else {
            let before = self.apply_all(intents.drop_last());
            if before.quit {
                before
            } else {
                before.apply(intents.last())
            }
        }
    }
}

/// What one step of play ended with.
#[derive(Clone, Copy, PartialEq, Eq, Structural, Debug)]
pub struct StepOutcome {
    /// A new piece did not fit where it entered: the game is over.
    pub game_over: bool,
    /// The player quit.
    pub quit: bool,
    /// The intents of the step ended with the piece locked.
    pub locked: bool,
    /// The clock of the forced fall starts anew.
    pub reset_timer: bool,
}

/// Whether the piece is due to fall: more time has passed since it last
/// went down than the level's interval. `None` stands for a clock that
/// could not be read, on which nothing is due.
pub fn is_time_over(tetris: &Tetris, elapsed_millis: Option<u64>) -> (due: bool)
    requires
        1 <= tetris.current_level <= MAX_LEVEL,
    ensures
        due == tetris@.is_due(elapsed_millis),
{
    match elapsed_millis {
        Some(millis) => millis > LEVEL_TIMES[tetris.current_level as usize - 1] as u64,
        None => false,
    }
}

/// Puts a new piece in play where none is, and says whether the game is
/// over: it is when the new piece does not fit where it enters. A game with
/// a piece in play is left as it is.
pub fn spawn_piece(tetris: &mut Tetris) -> (game_over: bool)
    requires
        old(tetris)@.wf(),
    ensures
        final(tetris)@.wf(),
        old(tetris)@.piece is Some ==> final(tetris)@ == old(tetris)@ && !game_over,
        old(tetris)@.piece is None ==> (final(tetris)@.last matches Some(kind) && old(tetris)@.last
            != Some(kind) && final(tetris)@ == old(tetris)@.spawned(kind) && game_over == old(
            tetris,
        )@.ends_with(kind)),
{
    if tetris.current_piece.is_none() {
        tetris.create_next_tetrimino();
        match &tetris.current_piece {
            Some(piece) => !piece.test_current_position(&tetris.game_map),
            None => false,
        }
    } else {
        false
    }
}

/// Moves the piece down one row, and locks it where it cannot go down.
/// Says whether it was locked.
pub fn apply_gravity(tetris: &mut Tetris) -> (locked: bool)
    requires
        old(tetris)@.wf(),
        old(tetris)@.after_gravity().fits(),
    ensures
        final(tetris)@ == old(tetris)@.after_gravity(),
        final(tetris)@.wf(),
        locked == (old(tetris)@.piece is Some && !old(tetris)@.can_fall()),
        final(tetris)@.score >= old(tetris)@.score,
        final(tetris)@.lines >= old(tetris)@.lines,
        final(tetris)@.level >= old(tetris)@.level,
{
    let mut make_permanent = false;
    if let Some(mut piece) = tetris.current_piece.take() {
        let x = piece.x;
        if piece.y == usize::MAX {
            proof {
                if legal_at(tetris@.board, piece@.shape(), piece@.x, piece@.y + 1) {
                    lemma_legal_inside(tetris@.board, piece@.shape(), piece@.x, piece@.y + 1);
                }
            }
            make_permanent = true;
        } else {
            let y = piece.y + 1;
            make_permanent = !piece.change_position(&tetris.game_map, x, y);
        }
        tetris.current_piece = Some(piece);
    }
    if make_permanent {
        tetris.make_permanent();
    }
    make_permanent
}

/// Moves the piece one column to the left or to the right if it fits there.
pub fn move_sideways(tetris: &mut Tetris, to_the_right: bool)
    requires
        old(tetris)@.wf(),
    ensures
        final(tetris)@ == old(tetris)@.shifted(
            if to_the_right {
                1
            } else {
                -1
            },
        ),
        final(tetris)@.wf(),
{
    if let Some(mut piece) = tetris.current_piece.take() {
        let target = if to_the_right {
            piece.x.checked_add(1)
        } else {
            piece.x.checked_sub(1)
        };
        match target {
            Some(x) => {
                let y = piece.y;
                piece.change_position(&tetris.game_map, x, y);
            },
            None => {
                proof {
                    lemma_outside_is_illegal(
                        tetris@.board,
                        piece@.shape(),
                        if to_the_right {
                            piece@.x + 1
                        } else {
                            piece@.x - 1
                        },
                        piece@.y,
                        BOARD_WIDTH as int,
                    );
                }
            },
        }
        tetris.current_piece = Some(piece);
    }
}

/// Turns the piece to its next orientation, with a wall kick where one is
/// needed and fits.
pub fn rotate_piece(tetris: &mut Tetris)
    requires
        old(tetris)@.wf(),
    ensures
        final(tetris)@ == old(tetris)@.turned(),
        final(tetris)@.wf(),
{
    if let Some(mut piece) = tetris.current_piece.take() {
        piece.rotate(&tetris.game_map);
        tetris.current_piece = Some(piece);
    }
}

/// Lets the piece fall as far as it can. The piece is not locked by that.
pub fn hard_drop(tetris: &mut Tetris)
    requires
        old(tetris)@.wf(),
    ensures
        final(tetris)@ == old(tetris)@.dropped(),
        final(tetris)@.wf(),
{
    if let Some(mut piece) = tetris.current_piece.take() {
        piece.drop_down(&tetris.game_map);
        tetris.current_piece = Some(piece);
    }
}

/// Taking in one intent keeps a game well formed, and does not lower its
/// score, its line count or its level.
pub proof fn lemma_intent_only_gains(turn: Turn, intent: Intent)
    requires
        turn.game.wf(),
    ensures
        turn.apply(intent).game.wf(),
        turn.apply(intent).game.last == turn.game.last,
        turn.apply(intent).game.score >= turn.game.score,
        turn.apply(intent).game.lines >= turn.game.lines,
        turn.apply(intent).game.level >= turn.game.level,
{
    lemma_lock_keeps_game(turn.game);
}

/// While intents are taken in, the game stays well formed, and its score,
/// its line count and its level only grow: after the first `i` intents they
/// are no less than at the start and no more than after all of them.
pub proof fn lemma_turn_only_gains(start: Turn, intents: Seq<Intent>, i: int)
    requires
        start.game.wf(),
        0 <= i <= intents.len(),
    ensures
        start.apply_all(intents.subrange(0, i)).game.wf(),
        start.apply_all(intents.subrange(0, i)).game.last == start.game.last,
        start.game.score <= start.apply_all(intents.subrange(0, i)).game.score
            <= start.apply_all(intents).game.score,
        start.game.lines <= start.apply_all(intents.subrange(0, i)).game.lines
            <= start.apply_all(intents).game.lines,
        start.game.level <= start.apply_all(intents.subrange(0, i)).game.level
            <= start.apply_all(intents).game.level,
    decreases intents.len(), intents.len() - i,
{
    if i < intents.len() {
        lemma_turn_only_gains(start, intents, i + 1);
        assert(intents.subrange(0, i + 1).drop_last() =~= intents.subrange(0, i));
        let before = start.apply_all(intents.subrange(0, i));
        lemma_turn_only_gains(start, intents.subrange(0, i), i);
        assert(intents.subrange(0, i).subrange(0, i) =~= intents.subrange(0, i));
        if !before.quit {
            lemma_intent_only_gains(before, intents[i]);
        }
    } else {
        assert(intents.subrange(0, i) =~= intents);
        if i > 0 {
            lemma_turn_only_gains(start, intents.drop_last(), i - 1);
            assert(intents.drop_last().subrange(0, i - 1) =~= intents.drop_last());
            let before = start.apply_all(intents.drop_last());
            if !before.quit {
                lemma_intent_only_gains(before, intents.last());
            }
        }
    }
}

/// Once the player has quit, the intents that follow change nothing.
pub proof fn lemma_quit_ends(start: Turn, intents: Seq<Intent>, i: int)
    requires
        0 <= i <= intents.len(),
        start.apply_all(intents.subrange(0, i)).quit,
    ensures
        start.apply_all(intents) == start.apply_all(intents.subrange(0, i)),
    decreases intents.len() - i,
{
    if i < intents.len() {
        assert(intents.subrange(0, i + 1).drop_last() =~= intents.subrange(0, i));
        lemma_quit_ends(start, intents, i + 1);
    } else {
        assert(intents.subrange(0, i) =~= intents);
    }
}

/// Takes in the intents of one step, in order, up to the first that quits.
/// The result says whether the piece was locked. `quit` is set when the
/// player quit, `reset_timer` when the clock of the forced fall starts
/// anew, which it does on a soft drop.
pub fn handle_events(
    tetris: &mut Tetris,
    quit: &mut bool,
    reset_timer: &mut bool,
    intents: &[Intent],
) -> (make_permanent: bool)
    requires
        old(tetris)@.wf(),
        old(tetris)@.after_events(intents@).fits(),
    ensures
        final(tetris)@ == old(tetris)@.after_events(intents@),
        final(tetris)@.wf(),
        make_permanent == Turn::start(old(tetris)@).apply_all(intents@).locked,
        *final(quit) == (*old(quit) || Turn::start(old(tetris)@).apply_all(intents@).quit),
        *final(reset_timer) == (*old(reset_timer) || Turn::start(old(tetris)@).apply_all(
            intents@,
        ).reset_timer),
        final(tetris)@.score >= old(tetris)@.score,
        final(tetris)@.lines >= old(tetris)@.lines,
        final(tetris)@.level >= old(tetris)@.level,
{
    let ghost start = Turn::start(tetris@);
    let ghost turn = start;
    let mut make_permanent = false;
    let n = intents.len();
    let mut i: usize = 0;
    proof {
        assert(intents@.subrange(0, 0) =~= Seq::<Intent>::empty());
        lemma_turn_only_gains(start, intents@, 0);
        if n == 0 {
            assert(intents@ =~= Seq::<Intent>::empty());
        }
    }
    while i < n
        invariant_except_break
            !turn.quit,
            *quit == *old(quit),
            turn == start.apply_all(intents@.subrange(0, i as int)),
            i == n ==> turn == start.apply_all(intents@),
        invariant
            i <= n,
            n == intents@.len(),
            start == Turn::start(old(tetris)@),
            start.game.wf(),
            start.apply_all(intents@).game.fits(),
            tetris@ == turn.game,
            tetris@.wf(),
            make_permanent == turn.locked,
            *reset_timer == (*old(reset_timer) || turn.reset_timer),
        ensures
            turn == start.apply_all(intents@),
            *quit == (*old(quit) || turn.quit),
        decreases n - i,
    {
        let ghost before = turn;
        proof {
            assert(intents@.subrange(0, i + 1).drop_last() =~= intents@.subrange(0, i as int));
            turn = before.apply(intents@[i as int]);
            assert(turn == start.apply_all(intents@.subrange(0, i + 1)));
            lemma_turn_only_gains(start, intents@, i + 1);
        }
        match intents[i] {
            Intent::Quit => {
                *quit = true;
                proof {
                    lemma_quit_ends(start, intents@, i + 1);
                }
                break ;
            },
            Intent::SoftDrop => {
                if tetris.current_piece.is_some() {
                    *reset_timer = true;
                    if apply_gravity(tetris) {
                        make_permanent = true;
                    }
                }
            },
            Intent::MoveRight => {
                move_sideways(tetris, true);
            },
            Intent::MoveLeft => {
                move_sideways(tetris, false);
            },
            Intent::Rotate => {
                rotate_piece(tetris);
            },
            Intent::HardDrop => {
                hard_drop(tetris);
            },
        }
        i += 1;
        proof {
            if i == n {
                assert(intents@.subrange(0, i as int) =~= intents@);
            }
        }
    }
    proof {
        lemma_turn_only_gains(start, intents@, n as int);
        assert(intents@.subrange(0, n as int) =~= intents@);
    }
    make_permanent
}

impl GameView {
    /// What a step ends with; see `after_step`.
    pub open spec fn step_outcome(
        self,
        elapsed_millis: Option<u64>,
        kind: TetriminoTypes,
        intents: Seq<Intent>,
    ) -> StepOutcome {
        let fallen = self.after_clock(elapsed_millis);
        if fallen.ends_with(kind) {
            StepOutcome {
                game_over: true,
                quit: false,
                locked: false,
                reset_timer: self.is_due(elapsed_millis),
            }
        } else {
            let turn = Turn::start(fallen.after_spawn(kind)).apply_all(intents);
            StepOutcome {
                game_over: false,
                quit: turn.quit,
                locked: turn.locked,
                reset_timer: self.is_due(elapsed_millis) || turn.reset_timer,
            }
        }
    }
}

/// One step of play: the forced fall if it is due, a new piece if none is in
/// play, and the intents of the player, in this order. A new piece that does
/// not fit ends the game, and the intents are then left aside. The kind of a
/// new piece is drawn at random, never the kind of the piece before; the
/// game's last kind says which it was.
pub fn step(tetris: &mut Tetris, elapsed_millis: Option<u64>, intents: &[Intent]) -> (outcome:
    StepOutcome)
    requires
        old(tetris)@.wf(),
        old(tetris)@.after_clock(elapsed_millis).fits(),
        forall|kind: TetriminoTypes|
            !old(tetris)@.after_clock(elapsed_millis).ends_with(kind) ==> (#[trigger] old(
                tetris,
            )@.after_step(elapsed_millis, kind, intents@)).fits(),
    ensures
        final(tetris)@.wf(),
        final(tetris)@.score >= old(tetris)@.score,
        final(tetris)@.lines >= old(tetris)@.lines,
        final(tetris)@.level >= old(tetris)@.level,
        old(tetris)@.after_clock(elapsed_millis).piece is None ==> final(tetris)@.last is Some
            && final(tetris)@.last != old(tetris)@.last,
        forall|kind: TetriminoTypes|
            (old(tetris)@.after_clock(elapsed_millis).piece is None ==> final(tetris)@.last
                == Some(kind)) ==> final(tetris)@ == old(tetris)@.after_step(
                elapsed_millis,
                kind,
                intents@,
            ) && outcome == old(tetris)@.step_outcome(elapsed_millis, kind, intents@),
{
    let mut reset_timer = false;
    if is_time_over(tetris, elapsed_millis) {
        apply_gravity(tetris);
        reset_timer = true;
    }
    proof {
        lemma_lock_keeps_game(old(tetris)@);
    }
    if spawn_piece(tetris) {
        return StepOutcome { game_over: true, quit: false, locked: false, reset_timer };
    }
    proof {
        let kind = if old(tetris)@.after_clock(elapsed_millis).piece is None {
            tetris@.last->0
        } else {
            TetriminoTypes::TetriminoI
        };
        assert(old(tetris)@.after_step(elapsed_millis, kind, intents@).fits());
        lemma_turn_only_gains(Turn::start(tetris@), intents@, intents@.len() as int);
        assert(intents@.subrange(0, intents@.len() as int) =~= intents@);
    }
    let mut quit = false;
    let locked = handle_events(tetris, &mut quit, &mut reset_timer, intents);
    StepOutcome { game_over: false, quit, locked, reset_timer }
}

/// Something that changes a game.
pub enum Operation {
    /// Full rows are cleared.
    ClearLines,
    /// The piece in play is locked.
    Lock,
    /// A piece of the given kind enters.
    Spawn(TetriminoTypes),
    /// The clock forces the piece down.
    Gravity,
    /// The player's intents of one step are taken in.
    Events(Seq<Intent>),
    /// One whole step of play.
    Step(Option<u64>, TetriminoTypes, Seq<Intent>),
}

impl GameView {
    /// The game after `op`.
    pub open spec fn after(self, op: Operation) -> GameView {
        match op {
            Operation::ClearLines => self.cleared_lines(),
            Operation::Lock => self.locked(),
            Operation::Spawn(kind) => self.spawned(kind),
            Operation::Gravity => self.after_gravity(),
            Operation::Events(intents) => self.after_events(intents),
            Operation::Step(elapsed_millis, kind, intents) => self.after_step(
                elapsed_millis,
                kind,
                intents,
            ),
        }
    }

    /// The game after the operations `ops`, one after the other.
    pub open spec fn after_all(self, ops: Seq<Operation>) -> GameView
        decreases ops.len(),
    {
        if ops.len() == 0 {
            self
        } else {
            self.after_all(ops.drop_last()).after(ops.last())
        }
    }
}

/// No operation breaks a game or takes anything back: a well-formed game
/// stays well formed, so its playfield keeps 16 rows of 10 cells with values
/// from 0 to 7, and its score, its line count and its level do not go down.
pub proof fn lemma_operation_only_gains(game: GameView, op: Operation)
    requires
        game.wf(),
    ensures
        game.after(op).wf(),
        game.after(op).score >= game.score,
        game.after(op).lines >= game.lines,
        game.after(op).level >= game.level,
{
    lemma_lock_keeps_game(game);
    match op {
        Operation::Spawn(kind) => {
            lemma_catalog_shapes(kind);
        },
        Operation::Events(intents) => {
            lemma_turn_only_gains(Turn::start(game), intents, intents.len() as int);
            assert(intents.subrange(0, intents.len() as int) =~= intents);
        },
        Operation::Step(elapsed_millis, kind, intents) => {
            let ready = game.after_clock(elapsed_millis).after_spawn(kind);
            lemma_catalog_shapes(kind);
            lemma_turn_only_gains(Turn::start(ready), intents, intents.len() as int);
            assert(intents.subrange(0, intents.len() as int) =~= intents);
        },
        _ => {},
    }
}

/// Over any sequence of operations a well-formed game stays well formed,
/// and its score, its line count and its level never go down.
pub proof fn lemma_play_only_gains(game: GameView, ops: Seq<Operation>)
    requires
        game.wf(),
    ensures
        game.after_all(ops).wf(),
        game.after_all(ops).score >= game.score,
        game.after_all(ops).lines >= game.lines,
        game.after_all(ops).level >= game.level,
    decreases ops.len(),
{
    if ops.len() > 0 {
        lemma_play_only_gains(game, ops.drop_last());
        lemma_operation_only_gains(game.after_all(ops.drop_last()), ops.last());
    }
}

/// The most that locking one piece adds to the score: the highest level for
/// the piece and for each of 16 rows, and the bonus.
pub const MAX_LOCK_SCORE: u32 = 1170;

/// The most that locking one piece adds to the line count.
pub const MAX_LOCK_LINES: u32 = 16;

impl GameView {
    /// The counters have room for what one step can add at most: two locks,
    /// one forced by the clock and one asked for by the player.
    pub open spec fn has_room_for_step(self) -> bool {
        &&& self.score + 2 * MAX_LOCK_SCORE <= u32::MAX
        &&& self.lines + 2 * MAX_LOCK_LINES <= u32::MAX
    }
}

/// Locking a piece, or clearing full rows, adds no more than 1170 to the
/// score and no more than 16 to the line count.
pub proof fn lemma_lock_is_bounded(game: GameView)
    requires
        game.wf(),
    ensures
        game.cleared_lines().score <= game.score + MAX_LOCK_SCORE,
        game.cleared_lines().lines <= game.lines + MAX_LOCK_LINES,
        game.locked().score <= game.score + MAX_LOCK_SCORE,
        game.locked().lines <= game.lines + MAX_LOCK_LINES,
{
    lemma_lock_keeps_game(game);
    crate::game::lemma_clear_gains(game.board, game.level, game.lines);
    crate::game::lemma_clear_gains(game.locked_board(), game.level, game.lines);
    assert(game.level * full_count(game.board) <= 160) by (nonlinear_arith)
        requires
            1 <= game.level <= 10,
            0 <= full_count(game.board) <= 16,
    ;
    assert(game.level * full_count(game.locked_board()) <= 160) by (nonlinear_arith)
        requires
            1 <= game.level <= 10,
            0 <= full_count(game.locked_board()) <= 16,
    ;
}

/// The intents of one step lock one piece at most: either the counters are
/// as they were, or no piece is in play and the counters have grown by no
/// more than one lock adds.
pub proof fn lemma_events_are_bounded(game: GameView, intents: Seq<Intent>)
    requires
        game.wf(),
    ensures
        ({
            let after = game.after_events(intents);
            ||| after.score == game.score && after.lines == game.lines
            ||| after.piece is None && after.score <= game.score + MAX_LOCK_SCORE && after.lines
                <= game.lines + MAX_LOCK_LINES
        }),
    decreases intents.len(),
{
    if intents.len() > 0 {
        lemma_events_are_bounded(game, intents.drop_last());
        let before = Turn::start(game).apply_all(intents.drop_last());
        lemma_turn_only_gains(Turn::start(game), intents.drop_last(), intents.len() - 1);
        assert(intents.drop_last().subrange(0, intents.len() - 1) =~= intents.drop_last());
        lemma_lock_is_bounded(before.game);
    }
}

/// One step adds no more to the counters than two locks add.
pub proof fn lemma_step_is_bounded(
    game: GameView,
    elapsed_millis: Option<u64>,
    kind: TetriminoTypes,
    intents: Seq<Intent>,
)
    requires
        game.wf(),
    ensures
        game.after_clock(elapsed_millis).score <= game.score + MAX_LOCK_SCORE,
        game.after_clock(elapsed_millis).lines <= game.lines + MAX_LOCK_LINES,
        game.after_step(elapsed_millis, kind, intents).score <= game.score + 2 * MAX_LOCK_SCORE,
        game.after_step(elapsed_millis, kind, intents).lines <= game.lines + 2 * MAX_LOCK_LINES,
{
    lemma_lock_is_bounded(game);
    lemma_lock_keeps_game(game);
    lemma_catalog_shapes(kind);
    let ready = game.after_clock(elapsed_millis).after_spawn(kind);
    lemma_events_are_bounded(ready, intents);
}

/// One step of play for any game: where the game is well formed and its
/// counters have room for two locks, the step is made and its outcome
/// given; where not, nothing is done and nothing is given.
pub fn try_step(tetris: &mut Tetris, elapsed_millis: Option<u64>, intents: &[Intent]) -> (outcome:
    Option<StepOutcome>)
    ensures
        outcome is Some == (old(tetris)@.wf() && old(tetris)@.has_room_for_step()),
        outcome is None ==> final(tetris)@ == old(tetris)@,
        outcome is Some ==> final(tetris)@.wf(),
        outcome is Some ==> final(tetris)@.score >= old(tetris)@.score,
        outcome is Some ==> final(tetris)@.lines >= old(tetris)@.lines,
        outcome is Some ==> final(tetris)@.level >= old(tetris)@.level,
        outcome is Some && old(tetris)@.after_clock(elapsed_millis).piece is None
            ==> final(tetris)@.last is Some && final(tetris)@.last != old(tetris)@.last,
        forall|kind: TetriminoTypes|
            outcome is Some && (old(tetris)@.after_clock(elapsed_millis).piece is None
                ==> final(tetris)@.last == Some(kind))
                ==> final(tetris)@ == old(tetris)@.after_step(elapsed_millis, kind, intents@)
                && outcome == Some(old(tetris)@.step_outcome(elapsed_millis, kind, intents@)),
{
    if !tetris.is_well_formed() || tetris.score > u32::MAX - 2 * MAX_LOCK_SCORE || tetris.nb_lines
        > u32::MAX - 2 * MAX_LOCK_LINES {
        return None;
    }
    proof {
        assert forall|kind: TetriminoTypes|
            (#[trigger] tetris@.after_step(elapsed_millis, kind, intents@)).fits() by {
            lemma_step_is_bounded(tetris@, elapsed_millis, kind, intents@);
            lemma_operation_only_gains(
                tetris@,
                Operation::Step(elapsed_millis, kind, intents@),
            );
        }
        lemma_step_is_bounded(tetris@, elapsed_millis, TetriminoTypes::TetriminoI, intents@);
        lemma_lock_keeps_game(tetris@);
    }
    Some(step(tetris, elapsed_millis, intents))
}

} // verus!
