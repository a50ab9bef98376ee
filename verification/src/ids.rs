use crate::direction::in_grid;
use crate::grid::{
    cell_count, cell_index, cells_before_row, lemma_cell_index_unique,
    lemma_cells_before_row_grows, on_grid,
};
use crate::scan::before;
use crate::sokoannotatedboard::{grid_of, AnnotatedField, SokoAnnotatedBoard};
use vstd::prelude::*;

verus! {

/// The most squares that a board can have: each square takes four variable
/// numbers, and the numbers are 32 bits wide.
pub const MAX_CELLS: usize = 0x4000_0000;

/// The square with its two variables: four times its place on the board for
/// the pusher, two more for the box.
pub open spec fn with_ids(f: AnnotatedField, place: int) -> AnnotatedField {
    AnnotatedField {
        man_id: Some((4 * place) as u32),
        block_id: Some((4 * place + 2) as u32),
        ..f
    }
}

/// `b` is `a` with the variables of the squares before `(row, col)` set.
#[verifier::opaque]
pub open spec fn ids_set_before(
    a: Seq<Vec<AnnotatedField>>,
    b: Seq<Vec<AnnotatedField>>,
    row: int,
    col: int,
) -> bool {
    &&& b.len() == a.len()
    &&& forall|r: int| 0 <= r < a.len() ==> (#[trigger] b[r]).len() == a[r].len()
    &&& forall|r: int, c: int|
        in_grid(a, r, c) ==> #[trigger] b[r][c] == if before(r, c, row, col) {
            with_ids(a[r][c], cell_index(grid_of(a), r, c))
        } else {
            a[r][c]
        }
}

/// `b` is `a` with the variables of every square set.
pub open spec fn ids_set(a: Seq<Vec<AnnotatedField>>, b: Seq<Vec<AnnotatedField>>) -> bool {
    &&& b.len() == a.len()
    &&& forall|r: int| 0 <= r < a.len() ==> (#[trigger] b[r]).len() == a[r].len()
    &&& forall|r: int, c: int|
        in_grid(a, r, c) ==> #[trigger] b[r][c] == with_ids(a[r][c], cell_index(grid_of(a), r, c))
}

/// Sets the two variables of `(row, col)`.
fn set_ids(board: &mut Vec<Vec<AnnotatedField>>, row: usize, col: usize, place: usize)
    requires
        in_grid(old(board)@, row as int, col as int),
        place < MAX_CELLS,
    ensures
        final(board)@.len() == old(board)@.len(),
        forall|r: int| 0 <= r < old(board)@.len() ==> (#[trigger] final(board)@[r]).len() == old(board)@[r].len(),
        forall|r: int, c: int|
            in_grid(old(board)@, r, c) ==> #[trigger] final(board)@[r][c] == if r == row && c == col {
                with_ids(old(board)@[r][c], place as int)
            } else {
                old(board)@[r][c]
            },
{
    let id: u32 = (4 * place) as u32;
    board[row][col].man_id = Some(id);
    board[row][col].block_id = Some(id + 2);
}

/// The number of squares, if it is within `MAX_CELLS`.
fn count_cells(board: &Vec<Vec<AnnotatedField>>) -> (n: Option<usize>)
    ensures
        match n {
            Some(n) => n == cell_count(grid_of(board@)) && n <= MAX_CELLS,
            None => cell_count(grid_of(board@)) > MAX_CELLS,
        },
{
    let ghost g = grid_of(board@);
    let mut total: usize = 0;
    let mut row: usize = 0;
    while row < board.len()
        invariant
            g == grid_of(board@),
            row <= board@.len(),
            total == cells_before_row(g, row as int),
            total <= MAX_CELLS,
        decreases board@.len() - row,
    {
        let n = board[row].len();
        assert(g[row as int].len() == n);
        if n > MAX_CELLS - total {
            proof {
                lemma_cells_before_row_grows(g, row + 1, g.len() as int);
            }
            return None;
        }
        total = total + n;
        row += 1;
    }
    Some(total)
}

/// Advancing by one square in a row.
pub proof fn lemma_ids_next(
    a: Seq<Vec<AnnotatedField>>,
    b: Seq<Vec<AnnotatedField>>,
    c: Seq<Vec<AnnotatedField>>,
    row: int,
    col: int,
)
    requires
        ids_set_before(a, b, row, col),
        in_grid(a, row, col),
        c.len() == b.len(),
        forall|r: int| 0 <= r < b.len() ==> (#[trigger] c[r]).len() == b[r].len(),
        forall|r: int, k: int|
            in_grid(b, r, k) ==> #[trigger] c[r][k] == if r == row && k == col {
                with_ids(b[r][k], cell_index(grid_of(a), row, col))
            } else {
                b[r][k]
            },
    ensures
        ids_set_before(a, c, row, col + 1),
{
    reveal(ids_set_before);
    assert forall|r: int| 0 <= r < a.len() implies (#[trigger] c[r]).len() == a[r].len() by {
        assert(b[r].len() == a[r].len());
    }
    assert forall|r: int, k: int| in_grid(a, r, k) implies #[trigger] c[r][k] == if before(
        r,
        k,
        row,
        col + 1,
    ) {
        with_ids(a[r][k], cell_index(grid_of(a), r, k))
    } else {
        a[r][k]
    } by {
        assert(b[r].len() == a[r].len());
        assert(in_grid(b, r, k));
        assert(b[r][k] == if before(r, k, row, col) {
            with_ids(a[r][k], cell_index(grid_of(a), r, k))
        } else {
            a[r][k]
        });
    }
}

/// From the end of a row to the start of the next, and to the end of the
/// board.
pub proof fn lemma_ids_row(a: Seq<Vec<AnnotatedField>>, b: Seq<Vec<AnnotatedField>>, row: int)
    requires
        0 <= row < a.len(),
        ids_set_before(a, b, row, a[row].len() as int),
    ensures
        ids_set_before(a, b, row + 1, 0),
        row + 1 == a.len() ==> ids_set(a, b),
        in_grid(b, row, 0) == in_grid(a, row, 0),
{
    reveal(ids_set_before);
    assert forall|r: int, k: int| in_grid(a, r, k) implies before(r, k, row + 1, 0) == before(
        r,
        k,
        row,
        a[row].len() as int,
    ) by {}
    assert(b[row].len() == a[row].len());
}

/// Gives every square its two variables, numbered in the order in which the
/// squares are read row by row: four numbers to a square, the first for the
/// pusher, the third for the box, each followed by the number that speaks of
/// the state after a step. Does nothing, and says so, if the board has more
/// than `MAX_CELLS` squares.
pub fn assignIDs(soko: &mut SokoAnnotatedBoard) -> (fits: bool)
    ensures
        fits == (cell_count(grid_of(old(soko).board@)) <= MAX_CELLS),
        fits ==> ids_set(old(soko).board@, final(soko).board@),
        !fits ==> final(soko).board@ == old(soko).board@,
{
    let ghost start = soko.board@;
    let ghost g = grid_of(start);
    if count_cells(&soko.board).is_none() {
        return false;
    }
    proof {
        reveal(ids_set_before);
        assert(ids_set_before(start, start, 0, 0));
        if start.len() == 0 {
            assert(ids_set(start, start));
        }
    }
    let mut place: usize = 0;
    let mut row: usize = 0;
    while row < soko.board.len()
        invariant
            start == old(soko).board@,
            g == grid_of(start),
            cell_count(g) <= MAX_CELLS,
            soko.board@.len() == start.len(),
            row <= start.len(),
            place == cells_before_row(g, row as int),
            ids_set_before(start, soko.board@, row as int, 0),
            row == start.len() ==> ids_set(start, soko.board@),
        decreases start.len() - row,
    {
        let mut col: usize = 0;
        proof {
            reveal(ids_set_before);
            assert(soko.board@[row as int].len() == start[row as int].len());
        }
        while col < soko.board[row].len()
            invariant
                g == grid_of(start),
                cell_count(g) <= MAX_CELLS,
                soko.board@.len() == start.len(),
                row < start.len(),
                soko.board@[row as int].len() == start[row as int].len(),
                col <= start[row as int].len(),
                place == cell_index(g, row as int, col as int),
                ids_set_before(start, soko.board@, row as int, col as int),
            decreases start[row as int].len() - col,
        {
            let ghost prev = soko.board@;
            proof {
                assert(in_grid(start, row as int, col as int));
                assert(on_grid(g, row as int, col as int));
                lemma_cell_index_unique(g, row as int, col as int, row as int, col as int);
            }
            set_ids(&mut soko.board, row, col, place);
            proof {
                lemma_ids_next(start, prev, soko.board@, row as int, col as int);
            }
            place = place + 1;
            col += 1;
        }
        proof {
            lemma_ids_row(start, soko.board@, row as int);
            assert(g[row as int].len() == start[row as int].len());
        }
        row += 1;
    }
    true
}

/// The two boards have the same rows of the same lengths.
pub open spec fn same_shape(a: Seq<Vec<AnnotatedField>>, b: Seq<Vec<AnnotatedField>>) -> bool {
    &&& a.len() == b.len()
    &&& forall|r: int| 0 <= r < a.len() ==> (#[trigger] a[r]).len() == b[r].len()
}

/// On boards of the same shape the rows before row `r` hold the same number
/// of squares.
proof fn lemma_cells_by_shape(a: Seq<Vec<AnnotatedField>>, b: Seq<Vec<AnnotatedField>>, r: int)
    requires
        same_shape(a, b),
        0 <= r <= a.len(),
    ensures
        cells_before_row(grid_of(a), r) == cells_before_row(grid_of(b), r),
    decreases r,
{
    if r > 0 {
        lemma_cells_by_shape(a, b, r - 1);
        assert(a[r - 1].len() == b[r - 1].len());
    }
}

/// The variables depend on the shape of the board alone: on two boards with
/// the same rows of the same lengths, whatever their squares hold, a square
/// gets the same two variables.
pub proof fn lemma_ids_by_shape(
    a1: Seq<Vec<AnnotatedField>>,
    b1: Seq<Vec<AnnotatedField>>,
    a2: Seq<Vec<AnnotatedField>>,
    b2: Seq<Vec<AnnotatedField>>,
    r: int,
    c: int,
)
    requires
        ids_set(a1, b1),
        ids_set(a2, b2),
        same_shape(a1, a2),
        in_grid(a1, r, c),
    ensures
        b1[r][c].man_id == b2[r][c].man_id,
        b1[r][c].block_id == b2[r][c].block_id,
{
    lemma_cells_by_shape(a1, a2, r);
    assert(a1[r].len() == a2[r].len());
    assert(in_grid(a2, r, c));
    assert(b1[r][c] == with_ids(a1[r][c], cell_index(grid_of(a1), r, c)));
    assert(b2[r][c] == with_ids(a2[r][c], cell_index(grid_of(a2), r, c)));
}

} // verus!
