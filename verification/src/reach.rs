use crate::direction::{in_grid, valid_index, Direction};
use crate::flags::{lemma_unset, reach_flag, unset};
use crate::grid::{
    adjacent, is_start, lemma_start_unique, on_grid, passable, reachable, walk_to, Grid,
};
use crate::scan::before;
use crate::sokoannotatedboard::{grid_of, AnnotatedField, SokoAnnotatedBoard};
use crate::sokoboard::Field;
use vstd::prelude::*;

verus! {

/// The two boards are the same but for the marks of reachability, and `b`
/// has every mark that `a` has.
pub open spec fn marks_grow(a: Seq<Vec<AnnotatedField>>, b: Seq<Vec<AnnotatedField>>) -> bool {
    &&& a.len() == b.len()
    &&& forall|r: int| 0 <= r < a.len() ==> (#[trigger] a[r]).len() == b[r].len()
    &&& forall|r: int, c: int|
        in_grid(a, r, c) ==> (#[trigger] b[r][c]) == (AnnotatedField {
            reachable: b[r][c].reachable,
            ..a[r][c]
        }) && (a[r][c].reachable ==> b[r][c].reachable)
}

/// `path` is a walk from where the pusher starts to `(r, c)` over squares
/// that `z` does not mark reachable.
pub open spec fn fresh_walk_to(z: Seq<Vec<AnnotatedField>>, path: Seq<(int, int)>, r: int, c: int) -> bool {
    &&& walk_to(grid_of(z), path, r, c)
    &&& forall|i: int| 0 <= i < path.len() ==> !z[(#[trigger] path[i]).0][path[i].1].reachable
}

/// The flood over `z` comes to `(r, c)`: the pusher can walk there from
/// where it starts over squares that `z` does not mark reachable.
#[verifier::opaque]
pub open spec fn flood(z: Seq<Vec<AnnotatedField>>, r: int, c: int) -> bool {
    exists|path: Seq<(int, int)>| fresh_walk_to(z, path, r, c)
}

/// `b` marks the squares that `z` marks and those that the flood over `z`
/// comes to, and no others.
pub open spec fn flood_exact(z: Seq<Vec<AnnotatedField>>, b: Seq<Vec<AnnotatedField>>) -> bool {
    forall|r: int, c: int|
        in_grid(z, r, c) ==> (#[trigger] b[r][c]).reachable == (z[r][c].reachable || flood(z, r, c))
}

/// The flood over `z` may enter `(r, c)`: if the square is passable and not
/// marked in `z`, the flood comes to it.
pub open spec fn enterable(z: Seq<Vec<AnnotatedField>>, r: int, c: int) -> bool {
    passable(grid_of(z), r, c) && !z[r][c].reachable ==> flood(z, r, c)
}

/// `fs` has the marks of `z` and, besides, only marks on squares that the
/// flood over `z` comes to.
#[verifier::opaque]
pub open spec fn marks_sound(z: Seq<Vec<AnnotatedField>>, fs: Seq<Vec<AnnotatedField>>) -> bool {
    &&& marks_grow(z, fs)
    &&& forall|r: int, c: int|
        in_grid(fs, r, c) && (#[trigger] fs[r][c]).reachable ==> z[r][c].reachable || flood(z, r, c)
}

/// Square `(r, c)` is marked reachable if the pusher can stand on it.
pub open spec fn marked_if_passable(fs: Seq<Vec<AnnotatedField>>, r: int, c: int) -> bool {
    passable(grid_of(fs), r, c) ==> fs[r][c].reachable
}

/// Every passable neighbour of `(r, c)` is marked reachable.
pub open spec fn closed_at(fs: Seq<Vec<AnnotatedField>>, r: int, c: int) -> bool {
    forall|d: Direction| #[trigger] marked_if_passable(fs, r + d.dr(), c + d.dc())
}

/// The flood over `z` went on from `a` to `b`: marks were added, none taken
/// away, the marks that `b` has are right, and every square marked since `a`
/// has all its passable neighbours marked.
#[verifier::opaque]
pub open spec fn flooded(
    z: Seq<Vec<AnnotatedField>>,
    a: Seq<Vec<AnnotatedField>>,
    b: Seq<Vec<AnnotatedField>>,
) -> bool {
    &&& marks_grow(a, b)
    &&& marks_sound(z, b)
    &&& forall|r: int, c: int|
        in_grid(b, r, c) && (#[trigger] b[r][c]).reachable && !a[r][c].reachable ==> closed_at(
            b,
            r,
            c,
        )
}

/// Marks of reachability change neither the screen nor the shape of the
/// board.
pub proof fn lemma_marks_grow_grid(a: Seq<Vec<AnnotatedField>>, b: Seq<Vec<AnnotatedField>>)
    requires
        marks_grow(a, b),
    ensures
        grid_of(a) == grid_of(b),
        forall|r: int, c: int| in_grid(a, r, c) == in_grid(b, r, c),
{
    let (ga, gb) = (grid_of(a), grid_of(b));
    assert forall|r: int| 0 <= r < ga.len() implies #[trigger] ga[r] =~= gb[r] by {
        assert(a[r].len() == b[r].len());
        assert forall|c: int| 0 <= c < ga[r].len() implies ga[r][c] == gb[r][c] by {
            assert(in_grid(a, r, c));
            assert(b[r][c].field == a[r][c].field);
        }
    }
    assert(ga =~= gb);
    assert forall|r: int, c: int| in_grid(a, r, c) == in_grid(b, r, c) by {
        if 0 <= r < a.len() {
            assert(a[r].len() == b[r].len());
        }
    }
}

/// A flood that has not begun.
pub proof fn lemma_flooded_refl(z: Seq<Vec<AnnotatedField>>, a: Seq<Vec<AnnotatedField>>)
    requires
        marks_sound(z, a),
    ensures
        flooded(z, a, a),
{
    reveal(flooded);
    reveal(marks_sound);
}

/// What a flood keeps: the screen, the squares left unmarked get no more,
/// and a mark once set stays.
pub proof fn lemma_flooded_keeps(
    z: Seq<Vec<AnnotatedField>>,
    a: Seq<Vec<AnnotatedField>>,
    b: Seq<Vec<AnnotatedField>>,
    r: int,
    c: int,
)
    requires
        flooded(z, a, b),
    ensures
        grid_of(a) == grid_of(b),
        marks_sound(z, b),
        0 <= unset(b, reach_flag(), b.len() as int) <= unset(a, reach_flag(), a.len() as int),
        marked_if_passable(a, r, c) ==> marked_if_passable(b, r, c),
{
    reveal(flooded);
    reveal(marks_sound);
    lemma_marks_grow_grid(a, b);
    lemma_unset(a, b, reach_flag(), a.len() as int, 0, 0);
    if passable(grid_of(a), r, c) {
        assert(in_grid(a, r, c));
        assert(b[r][c] == AnnotatedField { reachable: b[r][c].reachable, ..a[r][c] });
    }
}

/// One flood after another is a flood.
pub proof fn lemma_flooded_trans(
    z: Seq<Vec<AnnotatedField>>,
    a: Seq<Vec<AnnotatedField>>,
    b: Seq<Vec<AnnotatedField>>,
    c: Seq<Vec<AnnotatedField>>,
)
    requires
        flooded(z, a, b),
        flooded(z, b, c),
    ensures
        flooded(z, a, c),
{
    reveal(flooded);
    reveal(marks_sound);
    lemma_marks_grow_grid(a, b);
    lemma_marks_grow_grid(b, c);
    assert forall|r: int| 0 <= r < a.len() implies (#[trigger] a[r]).len() == c[r].len() by {
        assert(a[r].len() == b[r].len());
        assert(b[r].len() == c[r].len());
    }
    assert forall|r: int, k: int| in_grid(a, r, k) implies (#[trigger] c[r][k]) == (AnnotatedField {
        reachable: c[r][k].reachable,
        ..a[r][k]
    }) && (a[r][k].reachable ==> c[r][k].reachable) by {
        assert(in_grid(b, r, k));
        assert(b[r][k] == AnnotatedField { reachable: b[r][k].reachable, ..a[r][k] });
        assert(c[r][k] == AnnotatedField { reachable: c[r][k].reachable, ..b[r][k] });
    }
    assert forall|r: int, k: int|
        in_grid(c, r, k) && (#[trigger] c[r][k]).reachable && !a[r][k].reachable implies closed_at(
        c,
        r,
        k,
    ) by {
        assert(in_grid(b, r, k));
        assert(c[r][k] == AnnotatedField { reachable: c[r][k].reachable, ..b[r][k] });
        if b[r][k].reachable {
            assert(closed_at(b, r, k));
            assert forall|d: Direction| #[trigger]
                marked_if_passable(c, r + d.dr(), k + d.dc()) by {
                assert(marked_if_passable(b, r + d.dr(), k + d.dc()));
                if passable(grid_of(b), r + d.dr(), k + d.dc()) {
                    assert(in_grid(b, r + d.dr(), k + d.dc()));
                    assert(c[r + d.dr()][k + d.dc()] == AnnotatedField {
                        reachable: c[r + d.dr()][k + d.dc()].reachable,
                        ..b[r + d.dr()][k + d.dc()]
                    });
                }
            }
        }
    }
}

/// `b` is `a` with one more mark, on `(row, col)`.
#[verifier::opaque]
pub open spec fn one_more_mark(
    a: Seq<Vec<AnnotatedField>>,
    b: Seq<Vec<AnnotatedField>>,
    row: int,
    col: int,
) -> bool {
    &&& in_grid(a, row, col)
    &&& !a[row][col].reachable
    &&& b.len() == a.len()
    &&& forall|r: int| 0 <= r < a.len() ==> (#[trigger] b[r]).len() == a[r].len()
    &&& forall|r: int, c: int|
        in_grid(a, r, c) ==> #[trigger] b[r][c] == if r == row && c == col {
            AnnotatedField { reachable: true, ..a[r][c] }
        } else {
            a[r][c]
        }
}

/// A walk over fresh squares goes on to a passable neighbour that is fresh.
pub proof fn lemma_flood_step(z: Seq<Vec<AnnotatedField>>, r: int, c: int, d: Direction)
    requires
        flood(z, r, c),
    ensures
        enterable(z, r + d.dr(), c + d.dc()),
{
    reveal(flood);
    let g = grid_of(z);
    let (tr, tc) = (r + d.dr(), c + d.dc());
    if passable(g, tr, tc) && !z[tr][tc].reachable {
        let path = choose|path: Seq<(int, int)>| fresh_walk_to(z, path, r, c);
        let longer = path.push((tr, tc));
        assert forall|i: int| 0 <= i < longer.len() - 1 implies adjacent(
            #[trigger] longer[i],
            longer[i + 1],
        ) by {
            if i < path.len() - 1 {
                assert(adjacent(path[i], path[i + 1]));
            } else {
                assert(longer[i] == (r, c));
                assert(longer[i + 1].0 == longer[i].0 + d.dr() && longer[i + 1].1 == longer[i].1
                    + d.dc());
            }
        }
        assert forall|i: int| 0 <= i < longer.len() implies passable(
            g,
            (#[trigger] longer[i]).0,
            longer[i].1,
        ) && !z[longer[i].0][longer[i].1].reachable by {
            if i < path.len() {
                assert(longer[i] == path[i]);
            }
        }
        assert(fresh_walk_to(z, longer, tr, tc));
    }
}

/// Marking a square that the flood comes to keeps the marks right, leaves
/// one square fewer unmarked, and lets the flood enter the neighbours.
pub proof fn lemma_mark(
    z: Seq<Vec<AnnotatedField>>,
    a: Seq<Vec<AnnotatedField>>,
    b: Seq<Vec<AnnotatedField>>,
    row: int,
    col: int,
)
    requires
        one_more_mark(a, b, row, col),
        marks_sound(z, a),
        flood(z, row, col),
    ensures
        marks_grow(a, b),
        marks_sound(z, b),
        grid_of(a) == grid_of(b),
        grid_of(z) == grid_of(b),
        0 <= unset(b, reach_flag(), b.len() as int) < unset(a, reach_flag(), a.len() as int),
        forall|d: Direction| enterable(z, row + #[trigger] d.dr(), col + d.dc()),
{
    reveal(marks_sound);
    reveal(one_more_mark);
    assert(marks_grow(a, b));
    lemma_marks_grow_grid(a, b);
    lemma_marks_grow_grid(z, a);
    lemma_unset(a, b, reach_flag(), a.len() as int, row, col);
    assert forall|r: int| 0 <= r < z.len() implies (#[trigger] z[r]).len() == b[r].len() by {
        assert(z[r].len() == a[r].len());
        assert(b[r].len() == a[r].len());
    }
    assert forall|r: int, k: int| in_grid(z, r, k) implies (#[trigger] b[r][k]) == (AnnotatedField {
        reachable: b[r][k].reachable,
        ..z[r][k]
    }) && (z[r][k].reachable ==> b[r][k].reachable) by {
        assert(in_grid(a, r, k));
        assert(a[r][k] == AnnotatedField { reachable: a[r][k].reachable, ..z[r][k] });
    }
    assert forall|r: int, k: int| in_grid(b, r, k) && (#[trigger] b[r][k]).reachable implies z[r][k].reachable
        || flood(z, r, k) by {
        assert(in_grid(a, r, k));
        if !(r == row && k == col) {
            assert(a[r][k].reachable);
        }
    }
    assert forall|d: Direction| enterable(z, row + #[trigger] d.dr(), col + d.dc()) by {
        lemma_flood_step(z, row, col, d);
    }
}

/// The flood from a newly marked square is done once all four neighbours
/// have been seen to.
pub proof fn lemma_flood_done(
    z: Seq<Vec<AnnotatedField>>,
    a: Seq<Vec<AnnotatedField>>,
    b: Seq<Vec<AnnotatedField>>,
    c: Seq<Vec<AnnotatedField>>,
    row: int,
    col: int,
)
    requires
        one_more_mark(a, b, row, col),
        marks_sound(z, a),
        flooded(z, b, c),
        forall|d: Direction| #[trigger] marked_if_passable(c, row + d.dr(), col + d.dc()),
    ensures
        flooded(z, a, c),
        c[row][col].reachable,
{
    reveal(flooded);
    reveal(marks_sound);
    reveal(one_more_mark);
    assert(marks_grow(a, b));
    lemma_marks_grow_grid(a, b);
    lemma_marks_grow_grid(b, c);
    assert forall|r: int| 0 <= r < a.len() implies (#[trigger] a[r]).len() == c[r].len() by {
        assert(b[r].len() == a[r].len());
        assert(b[r].len() == c[r].len());
    }
    assert forall|r: int, k: int| in_grid(a, r, k) implies (#[trigger] c[r][k]) == (AnnotatedField {
        reachable: c[r][k].reachable,
        ..a[r][k]
    }) && (a[r][k].reachable ==> c[r][k].reachable) by {
        assert(in_grid(b, r, k));
        assert(b[r][k] == AnnotatedField { reachable: b[r][k].reachable, ..a[r][k] });
        assert(c[r][k] == AnnotatedField { reachable: c[r][k].reachable, ..b[r][k] });
    }
    assert(in_grid(b, row, col));
    assert(b[row][col].reachable);
    assert(c[row][col] == AnnotatedField { reachable: c[row][col].reachable, ..b[row][col] });
    assert forall|r: int, k: int|
        in_grid(c, r, k) && (#[trigger] c[r][k]).reachable && !a[r][k].reachable implies closed_at(
        c,
        r,
        k,
    ) by {
        assert(in_grid(b, r, k));
        assert(in_grid(a, r, k));
        if !(r == row && k == col) {
            assert(b[r][k] == a[r][k]);
        }
    }
}

/// Marks `(row, col)` reachable.
fn mark(board: &mut Vec<Vec<AnnotatedField>>, row: usize, col: usize)
    requires
        in_grid(old(board)@, row as int, col as int),
        !old(board)@[row as int][col as int].reachable,
    ensures
        one_more_mark(old(board)@, final(board)@, row as int, col as int),
{
    reveal(one_more_mark);
    board[row][col].reachable = true;
}

/// Sound marks are marks over the same screen.
pub proof fn lemma_sound_grid(z: Seq<Vec<AnnotatedField>>, a: Seq<Vec<AnnotatedField>>)
    requires
        marks_sound(z, a),
    ensures
        grid_of(z) == grid_of(a),
        forall|r: int, c: int| in_grid(z, r, c) == in_grid(a, r, c),
{
    reveal(marks_sound);
    lemma_marks_grow_grid(z, a);
}

/// Marks every square that the pusher can walk to from `(row, col)` and that
/// is not yet marked; walls, and squares off the grid, stop the walk.
/// `z` is the board before the flood began.
fn visit(board: &mut Vec<Vec<AnnotatedField>>, row: usize, col: usize, Ghost(z): Ghost<Seq<Vec<AnnotatedField>>>)
    requires
        marks_sound(z, old(board)@),
        enterable(z, row as int, col as int),
    ensures
        flooded(z, old(board)@, final(board)@),
        marked_if_passable(final(board)@, row as int, col as int),
    decreases unset(old(board)@, reach_flag(), old(board)@.len() as int),
{
    let ghost start = board@;
    proof {
        lemma_flooded_refl(z, start);
        lemma_sound_grid(z, start);
    }
    if !valid_index(row, col, board.as_slice()) {
        return ;
    }
    if board[row][col].reachable || board[row][col].field == Field::Wall {
        return ;
    }
    proof {
        reveal(marks_sound);
        assert(!z[row as int][col as int].reachable);
        assert(grid_of(z)[row as int][col as int] == start[row as int][col as int].field);
        assert(flood(z, row as int, col as int));
    }
    assert(row < board.len() <= usize::MAX && col < board[row as int].len() <= usize::MAX);
    mark(board, row, col);
    let ghost marked = board@;
    proof {
        lemma_mark(z, start, marked, row as int, col as int);
        lemma_flooded_refl(z, marked);
        assert(Direction::Down.dr() == 1 && Direction::Down.dc() == 0);
        assert(Direction::Up.dr() == -1 && Direction::Up.dc() == 0);
        assert(Direction::Right.dr() == 0 && Direction::Right.dc() == 1);
        assert(Direction::Left.dr() == 0 && Direction::Left.dc() == -1);
    }
    visit(board, row + 1, col, Ghost(z));
    let ghost after_down = board@;
    proof {
        lemma_flooded_keeps(z, marked, after_down, 0, 0);
    }
    if row > 0 {
        visit(board, row - 1, col, Ghost(z));
    }
    let ghost after_up = board@;
    proof {
        if row > 0 {
            lemma_flooded_trans(z, marked, after_down, after_up);
            lemma_flooded_keeps(z, after_down, after_up, row + 1, col as int);
        }
        lemma_flooded_keeps(z, marked, after_up, 0, 0);
    }
    visit(board, row, col + 1, Ghost(z));
    let ghost after_right = board@;
    proof {
        lemma_flooded_trans(z, marked, after_up, after_right);
        lemma_flooded_keeps(z, after_up, after_right, row + 1, col as int);
        lemma_flooded_keeps(z, after_up, after_right, row - 1, col as int);
        lemma_flooded_keeps(z, marked, after_right, 0, 0);
    }
    if col > 0 {
        visit(board, row, col - 1, Ghost(z));
    }
    proof {
        let last = board@;
        if col > 0 {
            lemma_flooded_trans(z, marked, after_right, last);
            lemma_flooded_keeps(z, after_right, last, row + 1, col as int);
            lemma_flooded_keeps(z, after_right, last, row - 1, col as int);
            lemma_flooded_keeps(z, after_right, last, row as int, col + 1);
        }
        lemma_flooded_keeps(z, marked, last, 0, 0);
        assert forall|d: Direction| #[trigger]
            marked_if_passable(last, row + d.dr(), col + d.dc()) by {
            match d {
                Direction::Down => {},
                Direction::Up => {},
                Direction::Right => {},
                Direction::Left => {},
            }
        }
        lemma_flood_done(z, start, marked, last, row as int, col as int);
    }
}

/// No square is marked reachable.
pub open spec fn unmarked(fs: Seq<Vec<AnnotatedField>>) -> bool {
    forall|r: int, c: int| in_grid(fs, r, c) ==> !(#[trigger] fs[r][c]).reachable
}

/// Exactly the reachable squares are marked reachable.
pub open spec fn reach_exact(fs: Seq<Vec<AnnotatedField>>) -> bool {
    forall|r: int, c: int|
        in_grid(fs, r, c) ==> (#[trigger] fs[r][c]).reachable == reachable(grid_of(fs), r, c)
}

/// No square before `(row, col)` shows the pusher.
pub open spec fn no_man_before(g: Grid, row: int, col: int) -> bool {
    forall|r: int, c: int|
        on_grid(g, r, c) && before(r, c, row, col) ==> !(#[trigger] g[r][c]).has_man()
}

/// A flood from the start marks every square of a walk from the start over
/// fresh squares.
pub proof fn lemma_walk_marked(
    z: Seq<Vec<AnnotatedField>>,
    b: Seq<Vec<AnnotatedField>>,
    path: Seq<(int, int)>,
    i: int,
)
    requires
        flooded(z, z, b),
        fresh_walk_to(z, path, path.last().0, path.last().1),
        0 <= i < path.len(),
        marked_if_passable(b, path[0].0, path[0].1),
    ensures
        in_grid(b, path[i].0, path[i].1),
        b[path[i].0][path[i].1].reachable,
    decreases i,
{
    reveal(flooded);
    lemma_marks_grow_grid(z, b);
    assert(passable(grid_of(z), path[i].0, path[i].1));
    if i > 0 {
        lemma_walk_marked(z, b, path, i - 1);
        let (p, q) = (path[i - 1], path[i]);
        assert(adjacent(p, q));
        let d = choose|d: Direction| q.0 == p.0 + #[trigger] d.dr() && q.1 == p.1 + d.dc();
        assert(in_grid(z, p.0, p.1));
        assert(!z[p.0][p.1].reachable);
        assert(closed_at(b, p.0, p.1));
        assert(marked_if_passable(b, p.0 + d.dr(), p.1 + d.dc()));
    }
}

/// A flood from the start marks the squares that it comes to, and no others.
pub proof fn lemma_flood_complete(z: Seq<Vec<AnnotatedField>>, b: Seq<Vec<AnnotatedField>>, sr: int, sc: int)
    requires
        flooded(z, z, b),
        is_start(grid_of(z), sr, sc),
        marked_if_passable(b, sr, sc),
    ensures
        flood_exact(z, b),
{
    let g = grid_of(z);
    reveal(flooded);
    reveal(marks_sound);
    lemma_marks_grow_grid(z, b);
    assert forall|r: int, c: int| in_grid(z, r, c) implies (#[trigger] b[r][c]).reachable == (
    z[r][c].reachable || flood(z, r, c)) by {
        assert(in_grid(b, r, c));
        if flood(z, r, c) {
            reveal(flood);
            let path = choose|path: Seq<(int, int)>| fresh_walk_to(z, path, r, c);
            lemma_start_unique(g, sr, sc, path[0].0, path[0].1);
            lemma_walk_marked(z, b, path, path.len() - 1);
        }
    }
}

/// Without a pusher on the board the flood comes to no square.
pub proof fn lemma_no_start(z: Seq<Vec<AnnotatedField>>)
    requires
        no_man_before(grid_of(z), z.len() as int, 0),
    ensures
        flood_exact(z, z),
{
    let g = grid_of(z);
    assert forall|r: int, c: int| in_grid(z, r, c) implies !flood(z, r, c) by {
        if flood(z, r, c) {
            reveal(flood);
            let path = choose|path: Seq<(int, int)>| fresh_walk_to(z, path, r, c);
            let (sr, sc) = path[0];
            assert(before(sr, sc, z.len() as int, 0));
            assert(!g[sr][sc].has_man());
        }
    }
}

/// Over a board without marks the flood comes to exactly the reachable
/// squares.
pub proof fn lemma_flood_reachable(z: Seq<Vec<AnnotatedField>>, r: int, c: int)
    requires
        unmarked(z),
    ensures
        flood(z, r, c) == reachable(grid_of(z), r, c),
{
    reveal(flood);
    reveal(reachable);
    let g = grid_of(z);
    if reachable(g, r, c) {
        let path = choose|path: Seq<(int, int)>| walk_to(g, path, r, c);
        assert forall|i: int| 0 <= i < path.len() implies !z[(#[trigger] path[i]).0][path[i].1].reachable by {
            assert(passable(g, path[i].0, path[i].1));
            assert(in_grid(z, path[i].0, path[i].1));
        }
        assert(fresh_walk_to(z, path, r, c));
    }
    if flood(z, r, c) {
        let path = choose|path: Seq<(int, int)>| fresh_walk_to(z, path, r, c);
        assert(walk_to(g, path, r, c));
    }
}

/// Marks the squares that the pusher can walk to from where it starts,
/// whatever boxes are in the way; the marks that the board has are kept, and
/// the walk stops at them as it stops at walls. Without a pusher nothing is
/// marked. On a board without marks, the marks are then on exactly the
/// reachable squares.
pub fn reachability(soko: &mut SokoAnnotatedBoard)
    ensures
        marks_grow(old(soko).board@, final(soko).board@),
        flood_exact(old(soko).board@, final(soko).board@),
        unmarked(old(soko).board@) ==> reach_exact(final(soko).board@),
{
    let ghost start = soko.board@;
    let ghost g = grid_of(start);
    let mut row: usize = 0;
    while row < soko.board.len()
        invariant
            soko.board@ == start,
            start == old(soko).board@,
            row <= start.len(),
            g == grid_of(start),
            no_man_before(g, row as int, 0),
        decreases start.len() - row,
    {
        let mut col: usize = 0;
        while col < soko.board[row].len()
            invariant
                soko.board@ == start,
                start == old(soko).board@,
                row < start.len(),
                col <= start[row as int].len(),
                g == grid_of(start),
                no_man_before(g, row as int, col as int),
            decreases start[row as int].len() - col,
        {
            if soko.board[row][col].hasMan() {
                proof {
                    assert(g[row as int][col as int] == start[row as int][col as int].field);
                    assert(is_start(g, row as int, col as int));
                    if !start[row as int][col as int].reachable {
                        lemma_flood_start(start, row as int, col as int);
                    }
                    reveal(marks_sound);
                    assert(marks_sound(start, start));
                }
                visit(&mut soko.board, row, col, Ghost(start));
                proof {
                    let last = soko.board@;
                    assert(marks_grow(start, last)) by {
                        reveal(flooded);
                    }
                    lemma_marks_grow_grid(start, last);
                    lemma_flood_complete(start, last, row as int, col as int);
                    lemma_reach_exact(start, last);
                }
                return ;
            }
            proof {
                assert(g[row as int][col as int] == start[row as int][col as int].field);
                assert forall|r: int, c: int|
                    on_grid(g, r, c) && before(r, c, row as int, col + 1) implies !(#[trigger] g[r][c]).has_man() by {
                    if !(r == row && c == col) {
                        assert(before(r, c, row as int, col as int));
                    }
                }
            }
            col += 1;
        }
        proof {
            assert forall|r: int, c: int|
                on_grid(g, r, c) && before(r, c, row + 1, 0) implies !(#[trigger] g[r][c]).has_man() by {
                assert(before(r, c, row as int, col as int));
            }
        }
        row += 1;
    }
    proof {
        lemma_no_start(start);
        lemma_reach_exact(start, start);
    }
}

/// The flood begins on the square where the pusher starts, if that is
/// fresh.
pub proof fn lemma_flood_start(z: Seq<Vec<AnnotatedField>>, r: int, c: int)
    requires
        is_start(grid_of(z), r, c),
        !z[r][c].reachable,
    ensures
        flood(z, r, c),
{
    reveal(flood);
    let path = seq![(r, c)];
    assert(grid_of(z)[r][c] != Field::Wall);
    assert(fresh_walk_to(z, path, r, c));
}

/// The marks of a flood over a board without marks are on exactly the
/// reachable squares.
pub proof fn lemma_reach_exact(z: Seq<Vec<AnnotatedField>>, b: Seq<Vec<AnnotatedField>>)
    requires
        marks_grow(z, b),
        flood_exact(z, b),
    ensures
        unmarked(z) ==> reach_exact(b),
{
    if unmarked(z) {
        lemma_marks_grow_grid(z, b);
        assert forall|r: int, c: int| in_grid(b, r, c) implies (#[trigger] b[r][c]).reachable
            == reachable(grid_of(b), r, c) by {
            assert(in_grid(z, r, c));
            lemma_flood_reachable(z, r, c);
        }
    }
}

} // verus!
