//! The active piece: its orientations, its position, and the moves and
//! rotations that the playfield allows.

use vstd::prelude::*;
use crate::grid::{
    has_filled_cell, has_shape_of, is_cell_blocking, is_shape, legal_at, lemma_outside_is_illegal,
    rows_of, rows_within, Grid, SHAPE_SIZE,
};

verus! {

/// One orientation of a piece, as rows of cell values.
pub type Piece = Vec<Vec<u8>>;

/// The orientations of a piece, in rotation order.
pub type States = Vec<Piece>;

/// The piece in play.
#[derive(Clone, Debug)]
pub struct Tetrimino {
    pub states: States,
    pub x: isize,
    pub y: usize,
    pub current_state: u8,
}

/// A piece as a mathematical value: its orientations, the offset of its
/// matrix on the playfield, and the orientation that it is in.
pub struct PieceView {
    pub shapes: Seq<Grid>,
    pub x: int,
    pub y: int,
    pub state: int,
}

impl PieceView {
    /// One to four orientations, each a 4 by 4 shape, and a current
    /// orientation among them.
    pub open spec fn wf(self) -> bool {
        &&& 1 <= self.shapes.len() <= 4
        &&& forall|s: int| 0 <= s < self.shapes.len() ==> is_shape(#[trigger] self.shapes[s])
        &&& 0 <= self.state < self.shapes.len()
    }

    /// The orientation that the piece is in.
    pub open spec fn shape(self) -> Grid {
        self.shapes[self.state]
    }

    /// Whether the piece fits on `g` as it stands.
    pub open spec fn fits(self, g: Grid) -> bool {
        legal_at(g, self.shape(), self.x, self.y)
    }

    /// The piece at offset `(x, y)`.
    pub open spec fn at(self, x: int, y: int) -> PieceView {
        PieceView { shapes: self.shapes, x, y, state: self.state }
    }

    /// The piece after an attempt to move it to `(x, y)`: there if it fits
    /// there, where it was if not.
    pub open spec fn moved(self, g: Grid, x: int, y: int) -> PieceView {
        if legal_at(g, self.shape(), x, y) {
            self.at(x, y)
        } else {
            self
        }
    }

    /// The orientation that follows the current one, the first after the last.
    pub open spec fn next_state(self) -> int {
        if self.state + 1 >= self.shapes.len() {
            0
        } else {
            self.state + 1
        }
    }

    /// The wall kick that a rotation takes: the first of the column shifts
    /// 0, -1, +1, -2, +2, -3 at which the next orientation fits, if any of
    /// them does.
    pub open spec fn kick(self, g: Grid) -> Option<int> {
        let shape = self.shapes[self.next_state()];
        if legal_at(g, shape, self.x, self.y) {
            Some(0)
        } else if legal_at(g, shape, self.x - 1, self.y) {
            Some(-1)
        } else if legal_at(g, shape, self.x + 1, self.y) {
            Some(1)
        } else if legal_at(g, shape, self.x - 2, self.y) {
            Some(-2)
        } else if legal_at(g, shape, self.x + 2, self.y) {
            Some(2)
        } else if legal_at(g, shape, self.x - 3, self.y) {
            Some(-3)
        } else {
            None
        }
    }

    /// The piece after an attempt to rotate it: in its next orientation,
    /// shifted by the wall kick, or as it was where no kick fits.
    pub open spec fn rotated(self, g: Grid) -> PieceView {
        match self.kick(g) {
            Some(shift) => PieceView {
                shapes: self.shapes,
                x: self.x + shift,
                y: self.y,
                state: self.next_state(),
            },
            None => self,
        }
    }

    /// The row on which the piece comes to rest when it falls from row `y`:
    /// the first row at or below `y` from which it cannot go one row further.
    pub open spec fn landing_row(self, g: Grid, y: int) -> int
        decreases g.len() - y,
    {
        if y + 1 < g.len() && legal_at(g, self.shape(), self.x, y + 1) {
            self.landing_row(g, y + 1)
        } else {
            y
        }
    }

    /// The piece after it has fallen as far as it can.
    pub open spec fn dropped(self, g: Grid) -> PieceView {
        self.at(self.x, self.landing_row(g, self.y))
    }
}

impl View for Tetrimino {
    type V = PieceView;

    open spec fn view(&self) -> PieceView {
        PieceView {
            shapes: Seq::new(self.states@.len(), |s: int| rows_of(self.states@[s]@)),
            x: self.x as int,
            y: self.y as int,
            state: self.current_state as int,
        }
    }
}

impl Tetrimino {
    /// Whether the piece is well formed: one to four orientations, each a
    /// 4 by 4 shape, and a current orientation among them.
    pub fn is_well_formed(&self) -> (ok: bool)
        ensures
            ok == self@.wf(),
    {
        let n = self.states.len();
        if n < 1 || n > 4 || self.current_state as usize >= n {
            return false;
        }
        let mut s: usize = 0;
        while s < n
            invariant
                s <= n,
                n == self@.shapes.len(),
                1 <= n <= 4,
                forall|i: int| 0 <= i < s ==> is_shape(#[trigger] self@.shapes[i]),
            decreases n - s,
        {
            let state = self.states[s].as_slice();
            assert(rows_of(state@) == self@.shapes[s as int]);
            if !has_shape_of(state, SHAPE_SIZE, SHAPE_SIZE) || !has_filled_cell(state) {
                return false;
            }
            s += 1;
        }
        true
    }

    /// Whether orientation `tmp_state` fits on `game_map` at offset `(x, y)`.
    pub fn test_position(&self, game_map: &[Vec<u8>], tmp_state: u8, x: isize, y: usize) -> (ok:
        bool)
        requires
            self@.wf(),
            (tmp_state as int) < self@.shapes.len(),
        ensures
            ok == legal_at(rows_of(game_map@), self@.shapes[tmp_state as int], x as int, y as int),
    {
        let ghost g = rows_of(game_map@);
        let ghost shape = self@.shapes[tmp_state as int];
        let state = &self.states[tmp_state as usize];
        assert(is_shape(shape));
        let mut decal_y: usize = 0;
        while decal_y < 4
            invariant
                decal_y <= 4,
                g == rows_of(game_map@),
                is_shape(shape),
                shape == rows_of(state@),
                shape == self@.shapes[tmp_state as int],
                forall|dx: int, dy: int|
                    0 <= dx < 4 && 0 <= dy < decal_y && #[trigger] shape[dy][dx] != 0
                        ==> !is_cell_blocking(g, x + dx, y + dy),
            decreases 4 - decal_y,
        {
            let mut decal_x: usize = 0;
            while decal_x < 4
                invariant
                    decal_x <= 4,
                    decal_y < 4,
                    g == rows_of(game_map@),
                    is_shape(shape),
                    shape == rows_of(state@),
                    shape == self@.shapes[tmp_state as int],
                    forall|dx: int, dy: int|
                        0 <= dx < 4 && 0 <= dy < decal_y && #[trigger] shape[dy][dx] != 0
                            ==> !is_cell_blocking(g, x + dx, y + dy),
                    forall|dx: int|
                        0 <= dx < decal_x && #[trigger] shape[decal_y as int][dx] != 0
                            ==> !is_cell_blocking(g, x + dx, y + decal_y),
                decreases 4 - decal_x,
            {
                assert(shape[decal_y as int].len() == 4);
                if state[decal_y][decal_x] != 0 {
                    assert(shape[decal_y as int][decal_x as int] != 0);
                    if y >= game_map.len() || decal_y >= game_map.len() - y {
                        assert(is_cell_blocking(g, x + decal_x, y + decal_y));
                        return false;
                    }
                    let row = &game_map[y + decal_y];
                    if x < 0 && x + (decal_x as isize) < 0 {
                        assert(is_cell_blocking(g, x + decal_x, y + decal_y));
                        return false;
                    }
                    let col: usize = if x < 0 {
                        (x + decal_x as isize) as usize
                    } else {
                        x as usize + decal_x
                    };
                    if col >= row.len() || row[col] != 0 {
                        assert(is_cell_blocking(g, x + decal_x, y + decal_y));
                        return false;
                    }
                }
                decal_x += 1;
            }
            decal_y += 1;
        }
        true
    }

    /// Whether the piece fits on `game_map` as it stands.
    pub fn test_current_position(&self, game_map: &[Vec<u8>]) -> (ok: bool)
        requires
            self@.wf(),
        ensures
            ok == self@.fits(rows_of(game_map@)),
    {
        self.test_position(game_map, self.current_state, self.x, self.y)
    }

    /// Moves the piece to `(new_x, new_y)` if it fits there, and says whether
    /// it did. A piece that does not fit stays where it was.
    pub fn change_position(&mut self, game_map: &[Vec<u8>], new_x: isize, new_y: usize) -> (moved:
        bool)
        requires
            old(self)@.wf(),
        ensures
            moved == legal_at(
                rows_of(game_map@),
                old(self)@.shape(),
                new_x as int,
                new_y as int,
            ),
            final(self)@ == old(self)@.moved(rows_of(game_map@), new_x as int, new_y as int),
            final(self).states == old(self).states,
    {
        if self.test_position(game_map, self.current_state, new_x, new_y) {
            self.x = new_x;
            self.y = new_y;
            return true;
        }
        false
    }

    /// Turns the piece to its next orientation, shifted by the first wall
    /// kick that fits. Where none fits the piece stays as it was. A piece
    /// that was placed legally is placed legally afterwards. No row of
    /// `game_map` may be longer than the largest `isize`.
    pub fn rotate(&mut self, game_map: &[Vec<u8>])
        requires
            old(self)@.wf(),
            rows_within(rows_of(game_map@), isize::MAX as int),
        ensures
            final(self)@ == old(self)@.rotated(rows_of(game_map@)),
            final(self)@.wf(),
            final(self).states == old(self).states,
            old(self)@.fits(rows_of(game_map@)) ==> final(self)@.fits(rows_of(game_map@)),
    {
        let mut tmp_state: u8 = self.current_state + 1;
        if tmp_state as usize >= self.states.len() {
            tmp_state = 0;
        }
        let x_pos: [isize; 6] = [0, -1, 1, -2, 2, -3];
        let ghost g = rows_of(game_map@);
        let ghost shape = self@.shapes[tmp_state as int];
        let mut i: usize = 0;
        while i < 6
            invariant
                i <= 6,
                *self == *old(self),
                self@.wf(),
                rows_within(g, isize::MAX as int),
                tmp_state == self@.next_state(),
                g == rows_of(game_map@),
                shape == self@.shapes[tmp_state as int],
                x_pos@[0] == 0 && x_pos@[1] == -1 && x_pos@[2] == 1,
                x_pos@[3] == -2 && x_pos@[4] == 2 && x_pos@[5] == -3,
                forall|k: int| 0 <= k < i ==> !legal_at(g, shape, self.x + x_pos@[k], self.y as int),
            decreases 6 - i,
        {
            match self.x.checked_add(x_pos[i]) {
                Some(x) => {
                    if self.test_position(game_map, tmp_state, x, self.y) {
                        self.current_state = tmp_state;
                        self.x = x;
                        return ;
                    }
                },
                None => {
                    proof {
                        lemma_outside_is_illegal(
                            g,
                            shape,
                            self.x + x_pos@[i as int],
                            self.y as int,
                            isize::MAX as int,
                        );
                    }
                },
            }
            i += 1;
        }
    }

    /// Lets the piece fall: it moves down one row at a time until the next
    /// row does not take it.
    pub fn drop_down(&mut self, game_map: &[Vec<u8>])
        requires
            old(self)@.wf(),
        ensures
            final(self)@ == old(self)@.dropped(rows_of(game_map@)),
            final(self).states == old(self).states,
    {
        let ghost g = rows_of(game_map@);
        let ghost shape = self@.shape();
        let x = self.x;
        let height = game_map.len();
        loop
            invariant
                self@.wf(),
                height == g.len(),
                self.states == old(self).states,
                self@ == old(self)@.at(x as int, self.y as int),
                x == old(self).x,
                g == rows_of(game_map@),
                shape == self@.shape(),
                old(self)@.landing_row(g, self.y as int) == old(self)@.landing_row(
                    g,
                    old(self).y as int,
                ),
            decreases g.len() - self.y,
        {
            if self.y == usize::MAX {
                return ;
            }
            let y = self.y + 1;
            if !self.change_position(game_map, x, y) {
                return ;
            }
            proof {
                lemma_legal_inside(g, shape, x as int, y as int);
            }
        }
    }
}

/// A shape that fits at `(x, y)` has a filled cell inside the grid, so `y` is
/// one of the grid's rows.
pub proof fn lemma_legal_inside(g: Grid, shape: Grid, x: int, y: int)
    requires
        is_shape(shape),
        legal_at(g, shape, x, y),
        y >= 0,
    ensures
        y < g.len(),
{
    let (dx, dy) = choose|dx: int, dy: int|
        0 <= dx < 4 && 0 <= dy < 4 && #[trigger] shape[dy][dx] != 0;
    assert(!is_cell_blocking(g, x + dx, y + dy));
}

/// A move, a rotation or a fall never leaves a piece where it does not fit:
/// a well-formed piece that fits on `g` still fits after any of them, and is
/// still well formed.
pub proof fn lemma_piece_stays_legal(piece: PieceView, g: Grid, x: int, y: int)
    requires
        piece.wf(),
        piece.fits(g),
    ensures
        piece.moved(g, x, y).wf() && piece.moved(g, x, y).fits(g),
        piece.rotated(g).wf() && piece.rotated(g).fits(g),
        piece.dropped(g).wf() && piece.dropped(g).fits(g),
{
    lemma_landing_row(piece, g, piece.y);
}

/// The row on which a piece lands is at or below the row that it falls from,
/// the piece fits on it if it fitted where it fell from, and it does not fit
/// one row further down.
pub proof fn lemma_landing_row(piece: PieceView, g: Grid, y: int)
    requires
        piece.wf(),
    ensures
        piece.landing_row(g, y) >= y,
        legal_at(g, piece.shape(), piece.x, y) ==> legal_at(
            g,
            piece.shape(),
            piece.x,
            piece.landing_row(g, y),
        ),
        y >= 0 ==> !legal_at(g, piece.shape(), piece.x, piece.landing_row(g, y) + 1),
        forall|r: int|
            y < r <= piece.landing_row(g, y) ==> legal_at(g, piece.shape(), piece.x, r),
    decreases g.len() - y,
{
    if y + 1 < g.len() && legal_at(g, piece.shape(), piece.x, y + 1) {
        lemma_landing_row(piece, g, y + 1);
    } else if y >= 0 && legal_at(g, piece.shape(), piece.x, y + 1) {
        lemma_legal_inside(g, piece.shape(), piece.x, y + 1);
    }
}

} // verus!
