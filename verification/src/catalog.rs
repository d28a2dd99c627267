//! The seven kinds of piece, each with its orientations and its spawn column.

use vstd::prelude::*;
use crate::grid::{is_shape, Grid};
use crate::piece::{PieceView, States, Tetrimino};

verus! {

/// A kind of piece.
#[derive(Clone, Copy, PartialEq, Eq, Structural, Debug)]
pub enum TetriminoTypes {
    TetriminoI,
    TetriminoJ,
    TetriminoL,
    TetriminoO,
    TetriminoS,
    TetriminoT,
    TetriminoZ,
}

impl TetriminoTypes {
    /// The value that a cell filled by this kind holds.
    pub open spec fn color(self) -> u8 {
        match self {
            Self::TetriminoI => 1,
            Self::TetriminoJ => 2,
            Self::TetriminoL => 3,
            Self::TetriminoO => 4,
            Self::TetriminoS => 5,
            Self::TetriminoT => 6,
            Self::TetriminoZ => 7,
        }
    }

    /// How many distinct orientations the kind has.
    pub open spec fn state_count(self) -> int {
        match self {
            Self::TetriminoO => 1,
            Self::TetriminoI | Self::TetriminoS | Self::TetriminoZ => 2,
            Self::TetriminoJ | Self::TetriminoL | Self::TetriminoT => 4,
        }
    }

    /// The column at which the kind enters the playfield.
    pub open spec fn spawn_column(self) -> int {
        match self {
            Self::TetriminoO => 5,
            _ => 4,
        }
    }

    /// Whether orientation `state` of the kind fills the cell at column `dx`
    /// of row `dy` of its matrix.
    pub open spec fn occupies(self, state: int, dx: int, dy: int) -> bool {
        match self {
            Self::TetriminoI => if state == 0 {
                dy == 0
            } else {
                dx == 1
            },
            Self::TetriminoJ => if state == 0 {
                (dy == 0 && dx <= 2) || (dy == 1 && dx == 2)
            } else if state == 1 {
                (dx == 0 && dy <= 2) || (dy == 0 && dx == 1)
            } else if state == 2 {
                (dy == 1 && dx <= 2) || (dy == 0 && dx == 0)
            } else {
                (dx == 1 && dy <= 2) || (dy == 2 && dx == 0)
            },
            Self::TetriminoL => if state == 0 {
                (dy == 0 && dx <= 2) || (dy == 1 && dx == 0)
            } else if state == 1 {
                (dx == 1 && dy <= 2) || (dy == 0 && dx == 0)
            } else if state == 2 {
                (dy == 1 && dx <= 2) || (dy == 0 && dx == 2)
            } else {
                (dx == 0 && dy <= 2) || (dy == 2 && dx == 1)
            },
            Self::TetriminoO => dx <= 1 && dy <= 1,
            Self::TetriminoS => if state == 0 {
                (dy == 0 && 1 <= dx <= 2) || (dy == 1 && dx <= 1)
            } else {
                (dx == 1 && dy <= 1) || (dx == 2 && 1 <= dy <= 2)
            },
            Self::TetriminoT => if state == 0 {
                (dy == 0 && dx <= 2) || (dy == 1 && dx == 1)
            } else if state == 1 {
                (dx == 1 && dy <= 2) || (dy == 1 && dx == 0)
            } else if state == 2 {
                (dy == 1 && dx <= 2) || (dy == 0 && dx == 1)
            } else {
                (dx == 1 && dy <= 2) || (dy == 1 && dx == 2)
            },
            Self::TetriminoZ => if state == 0 {
                (dy == 0 && dx <= 1) || (dy == 1 && 1 <= dx <= 2)
            } else {
                (dx == 2 && dy <= 1) || (dx == 1 && 1 <= dy <= 2)
            },
        }
    }

    /// Orientation `state` of the kind as a 4 by 4 matrix: the kind's colour
    /// where it fills a cell, 0 elsewhere.
    pub open spec fn shape(self, state: int) -> Grid {
        Seq::new(
            4,
            |dy: int|
                Seq::new(
                    4,
                    |dx: int|
                        if self.occupies(state, dx, dy) {
                            self.color()
                        } else {
                            0u8
                        },
                ),
        )
    }

    /// The place of the kind in the order I, J, L, O, S, T, Z, from 0.
    pub open spec fn index(self) -> int {
        self.color() - 1
    }

    /// A piece of this kind as it enters the playfield: the kind's
    /// orientations, the first of them current, at the top of the spawn
    /// column.
    pub open spec fn spawn(self) -> PieceView {
        PieceView { shapes: self.shapes(), x: self.spawn_column(), y: 0, state: 0 }
    }

    /// The kind that a draw picks when `last` was the kind before. With no
    /// kind before, draw `n` picks the kind at place `n`. With one, the draw
    /// counts through the six other kinds, so the same kind never comes
    /// twice in a row. A draw past the last place picks the last.
    pub open spec fn picked(last: Option<TetriminoTypes>, draw: int) -> int {
        match last {
            None => if draw > 6 {
                6
            } else {
                draw
            },
            Some(kind) => {
                let place = if draw > 5 {
                    5
                } else {
                    draw
                };
                if place >= kind.index() {
                    place + 1
                } else {
                    place
                }
            },
        }
    }

    /// The kind at place `n`; the last kind for any `n` past the last place.
    pub fn from_index(n: u8) -> (kind: TetriminoTypes)
        ensures
            kind.index() == if n > 6 {
                6
            } else {
                n as int
            },
    {
        match n {
            0 => TetriminoTypes::TetriminoI,
            1 => TetriminoTypes::TetriminoJ,
            2 => TetriminoTypes::TetriminoL,
            3 => TetriminoTypes::TetriminoO,
            4 => TetriminoTypes::TetriminoS,
            5 => TetriminoTypes::TetriminoT,
            _ => TetriminoTypes::TetriminoZ,
        }
    }

    /// The place of the kind, from 0 to 6.
    pub fn to_index(self) -> (n: u8)
        ensures
            n == self.index(),
    {
        match self {
            TetriminoTypes::TetriminoI => 0,
            TetriminoTypes::TetriminoJ => 1,
            TetriminoTypes::TetriminoL => 2,
            TetriminoTypes::TetriminoO => 3,
            TetriminoTypes::TetriminoS => 4,
            TetriminoTypes::TetriminoT => 5,
            TetriminoTypes::TetriminoZ => 6,
        }
    }

    /// Turns a draw into the next kind, given the kind before. The result
    /// differs from `last`, and every other kind is picked by exactly one
    /// draw from 0 to 5 (from 0 to 6 when there is no kind before).
    pub fn pick(last: Option<TetriminoTypes>, draw: u8) -> (kind: TetriminoTypes)
        ensures
            kind.index() == Self::picked(last, draw as int),
            last != Some(kind),
    {
        match last {
            None => Self::from_index(draw),
            Some(before) => {
                let place: u8 = if draw > 5 {
                    5
                } else {
                    draw
                };
                if place >= before.to_index() {
                    Self::from_index(place + 1)
                } else {
                    Self::from_index(place)
                }
            },
        }
    }

    /// The orientations of the kind, in rotation order.
    pub open spec fn shapes(self) -> Seq<Grid> {
        Seq::new(self.state_count() as nat, |state: int| self.shape(state))
    }

    /// A new piece of this kind: its orientations, placed at the top of the
    /// playfield in its spawn column, in its first orientation.
    pub fn generate(self) -> (piece: Tetrimino)
        ensures
            piece@ == self.spawn(),
            piece@.wf(),
    {
        let piece = match self {
            Self::TetriminoI => {
                let states: States = vec![
                    vec![
                        vec![1, 1, 1, 1],
                        vec![0, 0, 0, 0],
                        vec![0, 0, 0, 0],
                        vec![0, 0, 0, 0],
                    ],
                    vec![
                        vec![0, 1, 0, 0],
                        vec![0, 1, 0, 0],
                        vec![0, 1, 0, 0],
                        vec![0, 1, 0, 0],
                    ],
                ];
                let piece = Tetrimino { states, x: 4, y: 0, current_state: 0 };
                proof {
                    assert(piece@.shapes[0] =~~= self.shape(0));
                    assert(piece@.shapes[1] =~~= self.shape(1));
                }
                piece
            },
            Self::TetriminoJ => {
                let states: States = vec![
                    vec![
                        vec![2, 2, 2, 0],
                        vec![0, 0, 2, 0],
                        vec![0, 0, 0, 0],
                        vec![0, 0, 0, 0],
                    ],
                    vec![
                        vec![2, 2, 0, 0],
                        vec![2, 0, 0, 0],
                        vec![2, 0, 0, 0],
                        vec![0, 0, 0, 0],
                    ],
                    vec![
                        vec![2, 0, 0, 0],
                        vec![2, 2, 2, 0],
                        vec![0, 0, 0, 0],
                        vec![0, 0, 0, 0],
                    ],
                    vec![
                        vec![0, 2, 0, 0],
                        vec![0, 2, 0, 0],
                        vec![2, 2, 0, 0],
                        vec![0, 0, 0, 0],
                    ],
                ];
                let piece = Tetrimino { states, x: 4, y: 0, current_state: 0 };
                proof {
                    assert(piece@.shapes[0] =~~= self.shape(0));
                    assert(piece@.shapes[1] =~~= self.shape(1));
                    assert(piece@.shapes[2] =~~= self.shape(2));
                    assert(piece@.shapes[3] =~~= self.shape(3));
                }
                piece
            },
            Self::TetriminoL => {
                let states: States = vec![
                    vec![
                        vec![3, 3, 3, 0],
                        vec![3, 0, 0, 0],
                        vec![0, 0, 0, 0],
                        vec![0, 0, 0, 0],
                    ],
                    vec![
                        vec![3, 3, 0, 0],
                        vec![0, 3, 0, 0],
                        vec![0, 3, 0, 0],
                        vec![0, 0, 0, 0],
                    ],
                    vec![
                        vec![0, 0, 3, 0],
                        vec![3, 3, 3, 0],
                        vec![0, 0, 0, 0],
                        vec![0, 0, 0, 0],
                    ],
                    vec![
                        vec![3, 0, 0, 0],
                        vec![3, 0, 0, 0],
                        vec![3, 3, 0, 0],
                        vec![0, 0, 0, 0],
                    ],
                ];
                let piece = Tetrimino { states, x: 4, y: 0, current_state: 0 };
                proof {
                    assert(piece@.shapes[0] =~~= self.shape(0));
                    assert(piece@.shapes[1] =~~= self.shape(1));
                    assert(piece@.shapes[2] =~~= self.shape(2));
                    assert(piece@.shapes[3] =~~= self.shape(3));
                }
                piece
            },
            Self::TetriminoO => {
                let states: States = vec![
                    vec![
                        vec![4, 4, 0, 0],
                        vec![4, 4, 0, 0],
                        vec![0, 0, 0, 0],
                        vec![0, 0, 0, 0],
                    ],
                ];
                let piece = Tetrimino { states, x: 5, y: 0, current_state: 0 };
                proof {
                    assert(piece@.shapes[0] =~~= self.shape(0));
                }
                piece
            },
            Self::TetriminoS => {
                let states: States = vec![
                    vec![
                        vec![0, 5, 5, 0],
                        vec![5, 5, 0, 0],
                        vec![0, 0, 0, 0],
                        vec![0, 0, 0, 0],
                    ],
                    vec![
                        vec![0, 5, 0, 0],
                        vec![0, 5, 5, 0],
                        vec![0, 0, 5, 0],
                        vec![0, 0, 0, 0],
                    ],
                ];
                let piece = Tetrimino { states, x: 4, y: 0, current_state: 0 };
                proof {
                    assert(piece@.shapes[0] =~~= self.shape(0));
                    assert(piece@.shapes[1] =~~= self.shape(1));
                }
                piece
            },
            Self::TetriminoT => {
                let states: States = vec![
                    vec![
                        vec![6, 6, 6, 0],
                        vec![0, 6, 0, 0],
                        vec![0, 0, 0, 0],
                        vec![0, 0, 0, 0],
                    ],
                    vec![
                        vec![0, 6, 0, 0],
                        vec![6, 6, 0, 0],
                        vec![0, 6, 0, 0],
                        vec![0, 0, 0, 0],
                    ],
                    vec![
                        vec![0, 6, 0, 0],
                        vec![6, 6, 6, 0],
                        vec![0, 0, 0, 0],
                        vec![0, 0, 0, 0],
                    ],
                    vec![
                        vec![0, 6, 0, 0],
                        vec![0, 6, 6, 0],
                        vec![0, 6, 0, 0],
                        vec![0, 0, 0, 0],
                    ],
                ];
                let piece = Tetrimino { states, x: 4, y: 0, current_state: 0 };
                proof {
                    assert(piece@.shapes[0] =~~= self.shape(0));
                    assert(piece@.shapes[1] =~~= self.shape(1));
                    assert(piece@.shapes[2] =~~= self.shape(2));
                    assert(piece@.shapes[3] =~~= self.shape(3));
                }
                piece
            },
            Self::TetriminoZ => {
                let states: States = vec![
                    vec![
                        vec![7, 7, 0, 0],
                        vec![0, 7, 7, 0],
                        vec![0, 0, 0, 0],
                        vec![0, 0, 0, 0],
                    ],
                    vec![
                        vec![0, 0, 7, 0],
                        vec![0, 7, 7, 0],
                        vec![0, 7, 0, 0],
                        vec![0, 0, 0, 0],
                    ],
                ];
                let piece = Tetrimino { states, x: 4, y: 0, current_state: 0 };
                proof {
                    assert(piece@.shapes[0] =~~= self.shape(0));
                    assert(piece@.shapes[1] =~~= self.shape(1));
                }
                piece
            },
        };
        proof {
            assert(piece@.shapes =~= self.shapes());
            lemma_catalog_shapes(self);
        }
        piece
    }
}

/// Every orientation of every kind is a shape: 4 by 4, with the kind's
/// colour in its filled cells and at least one of them filled.
pub proof fn lemma_catalog_shapes(kind: TetriminoTypes)
    ensures
        1 <= kind.shapes().len() <= 4,
        forall|s: int| 0 <= s < kind.shapes().len() ==> is_shape(#[trigger] kind.shapes()[s]),
{
    assert forall|s: int| 0 <= s < kind.shapes().len() implies is_shape(
        #[trigger] kind.shapes()[s],
    ) by {
        let g = kind.shape(s);
        assert(g[0][1] != 0 || g[1][1] != 0 || g[0][0] != 0);
    }
}


} // verus!
