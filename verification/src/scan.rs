use crate::direction::in_grid;
use vstd::prelude::*;

verus! {

/// `(r, c)` comes before `(row, col)` when the squares are read row by row.
pub open spec fn before(r: int, c: int, row: int, col: int) -> bool {
    r < row || (r == row && c < col)
}

/// `p` holds of every square before `(row, col)`.
pub open spec fn all_before<T>(
    fs: Seq<Vec<T>>,
    p: spec_fn(int, int) -> bool,
    row: int,
    col: int,
) -> bool {
    forall|r: int, c: int| in_grid(fs, r, c) && before(r, c, row, col) ==> #[trigger] p(r, c)
}

/// `p` holds of some square before `(row, col)`.
pub open spec fn any_before<T>(
    fs: Seq<Vec<T>>,
    p: spec_fn(int, int) -> bool,
    row: int,
    col: int,
) -> bool {
    exists|r: int, c: int| in_grid(fs, r, c) && before(r, c, row, col) && #[trigger] p(r, c)
}

/// Reading one square further, or from the end of a row to the start of the
/// next, or to the end of the grid.
pub proof fn lemma_before_steps<T>(fs: Seq<Vec<T>>, p: spec_fn(int, int) -> bool, row: int, col: int)
    requires
        0 <= row < fs.len(),
        0 <= col <= fs[row].len(),
    ensures
        col < fs[row].len() ==> all_before(fs, p, row, col + 1) == (all_before(fs, p, row, col) && p(
            row,
            col,
        )),
        col < fs[row].len() ==> any_before(fs, p, row, col + 1) == (any_before(fs, p, row, col) || p(
            row,
            col,
        )),
        col == fs[row].len() ==> all_before(fs, p, row + 1, 0) == all_before(fs, p, row, col),
        col == fs[row].len() ==> any_before(fs, p, row + 1, 0) == any_before(fs, p, row, col),
{
    if col < fs[row].len() {
        assert(before(row, col, row, col + 1));
        assert(forall|r: int, c: int|
            before(r, c, row, col + 1) == (before(r, c, row, col) || (r == row && c == col)));
        if any_before(fs, p, row, col + 1) {
            let (r, c) = choose|r: int, c: int|
                in_grid(fs, r, c) && before(r, c, row, col + 1) && #[trigger] p(r, c);
            assert(before(r, c, row, col) || (r == row && c == col));
        }
    } else {
        assert(forall|r: int, c: int|
            in_grid(fs, r, c) ==> before(r, c, row + 1, 0) == before(r, c, row, col));
        if any_before(fs, p, row + 1, 0) {
            let (r, c) = choose|r: int, c: int|
                in_grid(fs, r, c) && before(r, c, row + 1, 0) && #[trigger] p(r, c);
            assert(before(r, c, row, col));
        }
        if any_before(fs, p, row, col) {
            let (r, c) = choose|r: int, c: int|
                in_grid(fs, r, c) && before(r, c, row, col) && #[trigger] p(r, c);
            assert(before(r, c, row + 1, 0));
        }
    }
}

} // verus!
