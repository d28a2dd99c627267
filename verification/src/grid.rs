//! The mathematical model shared by the playfield and the piece shapes:
//! a grid is a sequence of rows, a row a sequence of cell values.

use vstd::prelude::*;

verus! {

/// Number of columns of the playfield.
pub const BOARD_WIDTH: usize = 10;

/// Number of rows of the playfield.
pub const BOARD_HEIGHT: usize = 16;

/// Largest cell value: 0 is empty, 1 to 7 name the kind that filled the cell.
pub const MAX_CELL: u8 = 7;

/// Side of the square matrix that holds one orientation of a piece.
pub const SHAPE_SIZE: usize = 4;

/// A grid of cell values, rows first.
pub type Grid = Seq<Seq<u8>>;

/// The rows of an executable grid, each taken by its view.
pub open spec fn rows_of(map: Seq<Vec<u8>>) -> Grid {
    Seq::new(map.len(), |r: int| map[r]@)
}

/// A piece may not occupy `(x, y)`: the cell is left or right of its row,
/// at or below the bottom edge, or already filled. Rows above the top edge
/// are not looked at here; every caller passes `y >= 0`.
pub open spec fn is_cell_blocking(g: Grid, x: int, y: int) -> bool {
    y >= g.len() || x < 0 || x >= g[y].len() || g[y][x] != 0
}

/// `g` has `height` rows of `width` cells, each cell a value from 0 to 7.
pub open spec fn is_grid(g: Grid, width: int, height: int) -> bool {
    &&& g.len() == height
    &&& forall|r: int| 0 <= r < height ==> (#[trigger] g[r]).len() == width
    &&& forall|r: int, c: int|
        0 <= r < height && 0 <= c < width ==> #[trigger] g[r][c] <= MAX_CELL
}

/// `g` is a playfield: 16 rows of 10 cells with values from 0 to 7.
pub open spec fn is_board(g: Grid) -> bool {
    is_grid(g, BOARD_WIDTH as int, BOARD_HEIGHT as int)
}

/// `s` is one orientation of a piece: a 4 by 4 matrix with values from 0 to 7
/// and at least one filled cell.
pub open spec fn is_shape(s: Grid) -> bool {
    &&& is_grid(s, SHAPE_SIZE as int, SHAPE_SIZE as int)
    &&& exists|dx: int, dy: int| 0 <= dx < 4 && 0 <= dy < 4 && #[trigger] s[dy][dx] != 0
}

/// Every filled cell of `shape`, moved to offset `(x, y)`, falls on a cell of
/// `g` that does not block.
pub open spec fn legal_at(g: Grid, shape: Grid, x: int, y: int) -> bool {
    forall|dx: int, dy: int|
        0 <= dx < 4 && 0 <= dy < 4 && #[trigger] shape[dy][dx] != 0 ==> !is_cell_blocking(
            g,
            x + dx,
            y + dy,
        )
}

/// Every cell of `row` is filled.
pub open spec fn is_full(row: Seq<u8>) -> bool {
    forall|c: int| 0 <= c < row.len() ==> row[c] != 0
}

/// The test that keeps a row when full rows are cleared.
pub open spec fn is_not_full() -> spec_fn(Seq<u8>) -> bool {
    |row: Seq<u8>| !is_full(row)
}

/// The rows of `g` that are not full, in the order in which `g` has them.
pub open spec fn kept_rows(g: Grid) -> Grid {
    g.filter(is_not_full())
}

/// How many rows of `g` are full.
pub open spec fn full_count(g: Grid) -> int {
    g.len() - kept_rows(g).len()
}

/// `n` rows of the playfield's width with every cell empty.
pub open spec fn empty_rows(n: int) -> Grid {
    Seq::new(n as nat, |r: int| Seq::new(BOARD_WIDTH as nat, |c: int| 0u8))
}

/// `g` with its full rows taken out, the rows above them moved down, and as
/// many empty rows put on top.
pub open spec fn cleared(g: Grid) -> Grid {
    empty_rows(full_count(g)) + kept_rows(g)
}

/// Clearing the first `k + 1` rows keeps what clearing the first `k` keeps,
/// and row `k` after it unless that row is full.
pub proof fn lemma_kept_rows_step(g: Grid, k: int)
    requires
        0 <= k < g.len(),
    ensures
        kept_rows(g.subrange(0, k + 1)) == if is_full(g[k]) {
            kept_rows(g.subrange(0, k))
        } else {
            kept_rows(g.subrange(0, k)).push(g[k])
        },
        kept_rows(g.subrange(0, 0)).len() == 0,
{
    reveal(Seq::filter);
    assert(g.subrange(0, k + 1).drop_last() =~= g.subrange(0, k));
}

/// The value of cell `(c, r)` of `g` once the filled cells of `shape`, placed
/// at offset `(x, y)`, are written into it: the shape's value where the shape
/// fills the cell, the value of `g` elsewhere.
pub open spec fn stamped_cell(g: Grid, shape: Grid, x: int, y: int, c: int, r: int) -> u8 {
    if 0 <= r - y < 4 && 0 <= c - x < 4 && shape[r - y][c - x] != 0 {
        shape[r - y][c - x]
    } else {
        g[r][c]
    }
}

/// `g` with the filled cells of `shape` written into it at offset `(x, y)`.
/// Cells of the shape that fall outside `g` are left out.
pub open spec fn stamp(g: Grid, shape: Grid, x: int, y: int) -> Grid {
    Seq::new(
        g.len(),
        |r: int| Seq::new(g[r].len(), |c: int| stamped_cell(g, shape, x, y, c, r)),
    )
}

/// Writing a shape into a playfield gives a playfield.
pub proof fn lemma_stamp_is_board(g: Grid, shape: Grid, x: int, y: int)
    requires
        is_board(g),
        is_shape(shape),
    ensures
        is_board(stamp(g, shape, x, y)),
{
    let out = stamp(g, shape, x, y);
    assert forall|r: int, c: int| 0 <= r < 16 && 0 <= c < 10 implies #[trigger] out[r][c]
        <= MAX_CELL by {
        assert(out[r][c] == stamped_cell(g, shape, x, y, c, r));
        if 0 <= r - y < 4 && 0 <= c - x < 4 {
            assert(shape[r - y][c - x] <= MAX_CELL);
        }
    }
}

/// Clearing keeps the rows that are not full in their order: such a row, at
/// place `i` of `g`, comes back in the cleared grid below the empty rows, as
/// many places down as there are rows that are not full before it in `g`.
/// Of two such rows the one that was first is still first.
pub proof fn lemma_cleared_keeps_order(g: Grid, i: int, j: int)
    requires
        0 <= i < j < g.len(),
        !is_full(g[i]),
        !is_full(g[j]),
    ensures
        0 <= full_count(g),
        kept_rows(g.subrange(0, i)).len() < kept_rows(g.subrange(0, j)).len() < kept_rows(
            g,
        ).len(),
        cleared(g)[full_count(g) + kept_rows(g.subrange(0, i)).len()] == g[i],
        cleared(g)[full_count(g) + kept_rows(g.subrange(0, j)).len()] == g[j],
{
    g.lemma_filter_len(is_not_full());
    lemma_kept_rows_grow(g, i, j);
    lemma_kept_rows_grow(g, i, g.len() as int);
    lemma_kept_rows_grow(g, j, g.len() as int);
    assert(g.subrange(0, g.len() as int) =~= g);
}

/// The rows kept of the first `k` rows start with the rows kept of the
/// first `i + 1`, the last of which is row `i` where that row is not full.
pub proof fn lemma_kept_rows_grow(g: Grid, i: int, k: int)
    requires
        0 <= i < k <= g.len(),
        !is_full(g[i]),
    ensures
        kept_rows(g.subrange(0, i)).len() < kept_rows(g.subrange(0, k)).len(),
        kept_rows(g.subrange(0, k))[kept_rows(g.subrange(0, i)).len() as int] == g[i],
    decreases k - i,
{
    lemma_kept_rows_step(g, k - 1);
    if k - 1 > i {
        lemma_kept_rows_grow(g, i, k - 1);
    }
}

/// No row of `g` has more than `width` cells.
pub open spec fn rows_within(g: Grid, width: int) -> bool {
    forall|r: int| 0 <= r < g.len() ==> (#[trigger] g[r]).len() <= width
}

/// A shape whose matrix lies wholly left or right of a grid does not fit.
pub proof fn lemma_outside_is_illegal(g: Grid, shape: Grid, x: int, y: int, width: int)
    requires
        is_shape(shape),
        rows_within(g, width),
        y >= 0,
        x >= width || x <= -4,
    ensures
        !legal_at(g, shape, x, y),
{
    let (dx, dy) = choose|dx: int, dy: int|
        0 <= dx < 4 && 0 <= dy < 4 && #[trigger] shape[dy][dx] != 0;
    assert(is_cell_blocking(g, x + dx, y + dy));
}

/// Whether `map` has `height` rows of `width` cells with values from 0 to 7.
pub fn has_shape_of(map: &[Vec<u8>], width: usize, height: usize) -> (ok: bool)
    ensures
        ok == is_grid(rows_of(map@), width as int, height as int),
{
    if map.len() != height {
        return false;
    }
    let ghost g = rows_of(map@);
    let mut r: usize = 0;
    while r < height
        invariant
            r <= height,
            height == map@.len(),
            g == rows_of(map@),
            forall|i: int| 0 <= i < r ==> (#[trigger] g[i]).len() == width,
            forall|i: int, c: int| 0 <= i < r && 0 <= c < width ==> #[trigger] g[i][c] <= MAX_CELL,
        decreases height - r,
    {
        if map[r].len() != width {
            assert(g[r as int].len() != width);
            return false;
        }
        let mut c: usize = 0;
        while c < width
            invariant
                c <= width,
                r < height,
                height == map@.len(),
                g == rows_of(map@),
                g[r as int].len() == width,
                forall|k: int| 0 <= k < c ==> #[trigger] g[r as int][k] <= MAX_CELL,
            decreases width - c,
        {
            if map[r][c] > MAX_CELL {
                assert(g[r as int][c as int] > MAX_CELL);
                return false;
            }
            c += 1;
        }
        r += 1;
    }
    true
}

/// Whether one of the cells of a 4 by 4 matrix is filled.
pub fn has_filled_cell(map: &[Vec<u8>]) -> (ok: bool)
    requires
        is_grid(rows_of(map@), SHAPE_SIZE as int, SHAPE_SIZE as int),
    ensures
        ok == is_shape(rows_of(map@)),
{
    let ghost g = rows_of(map@);
    let mut r: usize = 0;
    while r < SHAPE_SIZE
        invariant
            r <= SHAPE_SIZE,
            g == rows_of(map@),
            is_grid(g, SHAPE_SIZE as int, SHAPE_SIZE as int),
            forall|dx: int, dy: int| 0 <= dx < 4 && 0 <= dy < r ==> #[trigger] g[dy][dx] == 0,
        decreases SHAPE_SIZE - r,
    {
        let mut c: usize = 0;
        while c < SHAPE_SIZE
            invariant
                c <= SHAPE_SIZE,
                r < SHAPE_SIZE,
                g == rows_of(map@),
                is_grid(g, SHAPE_SIZE as int, SHAPE_SIZE as int),
                forall|dx: int, dy: int| 0 <= dx < 4 && 0 <= dy < r ==> #[trigger] g[dy][dx] == 0,
                forall|dx: int| 0 <= dx < c ==> #[trigger] g[r as int][dx] == 0,
            decreases SHAPE_SIZE - c,
        {
            assert(g[r as int].len() == 4);
            if map[r][c] != 0 {
                assert(g[r as int][c as int] != 0);
                return true;
            }
            c += 1;
        }
        r += 1;
    }
    false
}

} // verus!
