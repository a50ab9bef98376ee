use crate::direction::{in_grid, valid_index, Direction};
use crate::flags::{lemma_unset, prod_flag, unset};
use crate::grid::{productive, productive_within, push_toward, reachable};
use crate::reach::reach_exact;
use crate::scan::{all_before, before, lemma_before_steps};
use crate::sokoannotatedboard::{grid_of, AnnotatedField, SokoAnnotatedBoard};
use vstd::prelude::*;

verus! {

/// The sweep has work on `(r, c)` in direction `d`: the square is reachable
/// and not yet marked productive, the square ahead is marked productive, and
/// the square behind is reachable.
pub open spec fn needs_mark(fs: Seq<Vec<AnnotatedField>>, r: int, c: int, d: Direction) -> bool {
    &&& in_grid(fs, r, c)
    &&& fs[r][c].reachable
    &&& in_grid(fs, r + d.dr(), c + d.dc())
    &&& in_grid(fs, r - d.dr(), c - d.dc())
    &&& !fs[r][c].productive
    &&& fs[r + d.dr()][c + d.dc()].productive
    &&& fs[r - d.dr()][c - d.dc()].reachable
}

/// The sweep has no work on `(r, c)`.
pub open spec fn settled(fs: Seq<Vec<AnnotatedField>>, r: int, c: int) -> bool {
    forall|d: Direction| !#[trigger] needs_mark(fs, r, c, d)
}

/// `settled` as a function of the square.
pub open spec fn settled_at(fs: Seq<Vec<AnnotatedField>>) -> spec_fn(int, int) -> bool {
    |r: int, c: int| settled(fs, r, c)
}

/// One more sweep would mark nothing.
pub open spec fn sweep_stable(fs: Seq<Vec<AnnotatedField>>) -> bool {
    forall|r: int, c: int, d: Direction| !#[trigger] needs_mark(fs, r, c, d)
}

/// Exactly the goals are marked productive.
pub open spec fn goals_marked(fs: Seq<Vec<AnnotatedField>>) -> bool {
    forall|r: int, c: int|
        in_grid(fs, r, c) ==> (#[trigger] fs[r][c]).productive == fs[r][c].field.is_goal()
}

/// Exactly the productive squares are marked productive.
pub open spec fn prod_exact(fs: Seq<Vec<AnnotatedField>>) -> bool {
    forall|r: int, c: int|
        in_grid(fs, r, c) ==> (#[trigger] fs[r][c]).productive == productive(grid_of(fs), r, c)
}

/// The two boards are the same but for the marks of productivity, and `b`
/// has every mark that `a` has.
pub open spec fn prod_marks_grow(a: Seq<Vec<AnnotatedField>>, b: Seq<Vec<AnnotatedField>>) -> bool {
    &&& a.len() == b.len()
    &&& forall|r: int| 0 <= r < a.len() ==> (#[trigger] a[r]).len() == b[r].len()
    &&& forall|r: int, c: int|
        in_grid(a, r, c) ==> (#[trigger] b[r][c]) == (AnnotatedField {
            productive: b[r][c].productive,
            ..a[r][c]
        }) && (a[r][c].productive ==> b[r][c].productive)
}

/// A box on `(r, c)` can be pushed one step in direction `d` onto a square
/// that the sweeps mark within `n` rounds, going by the marks of
/// reachability that the board has.
pub open spec fn push_marks(fs: Seq<Vec<AnnotatedField>>, r: int, c: int, d: Direction, n: nat) -> bool
    decreases n, 1nat,
{
    &&& fs[r][c].reachable
    &&& in_grid(fs, r - d.dr(), c - d.dc())
    &&& fs[r - d.dr()][c - d.dc()].reachable
    &&& marked_within(fs, r + d.dr(), c + d.dc(), n)
}

/// The sweeps mark `(r, c)` within `n` rounds, going by the marks that the
/// board has: the squares marked productive at once, and in each round the
/// squares from which a box can be pushed onto a square marked before.
pub open spec fn marked_within(fs: Seq<Vec<AnnotatedField>>, r: int, c: int, n: nat) -> bool
    decreases n, 0nat,
{
    in_grid(fs, r, c) && (fs[r][c].productive || (n > 0 && (marked_within(fs, r, c, (n - 1) as nat)
        || push_marks(fs, r, c, Direction::Up, (n - 1) as nat) || push_marks(
        fs,
        r,
        c,
        Direction::Down,
        (n - 1) as nat,
    ) || push_marks(fs, r, c, Direction::Left, (n - 1) as nat) || push_marks(
        fs,
        r,
        c,
        Direction::Right,
        (n - 1) as nat,
    ))))
}

/// The sweeps mark `(r, c)` sooner or later, going by the marks that the
/// board has.
#[verifier::opaque]
pub open spec fn closure(fs: Seq<Vec<AnnotatedField>>, r: int, c: int) -> bool {
    exists|n: nat| marked_within(fs, r, c, n)
}

/// `b` has the marks of productivity that the sweeps over `a` come to, and
/// no others.
pub open spec fn closure_exact(a: Seq<Vec<AnnotatedField>>, b: Seq<Vec<AnnotatedField>>) -> bool {
    forall|r: int, c: int| in_grid(a, r, c) ==> (#[trigger] b[r][c]).productive == closure(a, r, c)
}

/// The sweeps went on from `a` to `b`: marks of productivity were added, none
/// taken away, and every mark that `b` has is one that the sweeps over `a`
/// come to.
#[verifier::opaque]
pub open spec fn swept(a: Seq<Vec<AnnotatedField>>, b: Seq<Vec<AnnotatedField>>) -> bool {
    &&& prod_marks_grow(a, b)
    &&& forall|r: int, c: int| in_grid(b, r, c) && (#[trigger] b[r][c]).productive ==> closure(a, r, c)
}

/// `b` is `a` with one more mark of productivity, on `(row, col)`.
#[verifier::opaque]
pub open spec fn one_more_productive(
    a: Seq<Vec<AnnotatedField>>,
    b: Seq<Vec<AnnotatedField>>,
    row: int,
    col: int,
) -> bool {
    &&& b.len() == a.len()
    &&& forall|r: int| 0 <= r < a.len() ==> (#[trigger] b[r]).len() == a[r].len()
    &&& forall|r: int, c: int|
        in_grid(a, r, c) ==> #[trigger] b[r][c] == if r == row && c == col {
            AnnotatedField { productive: true, ..a[r][c] }
        } else {
            a[r][c]
        }
}

/// Marks of productivity change neither the screen nor the shape of the
/// board.
pub proof fn lemma_prod_marks_grow_grid(a: Seq<Vec<AnnotatedField>>, b: Seq<Vec<AnnotatedField>>)
    requires
        prod_marks_grow(a, b),
    ensures
        grid_of(a) == grid_of(b),
        forall|r: int, c: int| in_grid(a, r, c) == in_grid(b, r, c),
{
    let (ga, gb) = (grid_of(a), grid_of(b));
    assert forall|r: int| 0 <= r < ga.len() implies #[trigger] ga[r] =~= gb[r] by {
        assert(a[r].len() == b[r].len());
        assert forall|c: int| 0 <= c < ga[r].len() implies ga[r][c] == gb[r][c] by {
            assert(in_grid(a, r, c));
            assert(b[r][c].field == a[r][c].field);
        }
    }
    assert(ga =~= gb);
    assert forall|r: int, c: int| in_grid(a, r, c) == in_grid(b, r, c) by {
        if 0 <= r < a.len() {
            assert(a[r].len() == b[r].len());
        }
    }
}

/// Before the first sweep.
pub proof fn lemma_swept_refl(a: Seq<Vec<AnnotatedField>>)
    ensures
        swept(a, a),
{
    reveal(swept);
    assert forall|r: int, c: int| in_grid(a, r, c) && (#[trigger] a[r][c]).productive implies closure(
        a,
        r,
        c,
    ) by {
        reveal(closure);
        assert(marked_within(a, r, c, 0));
    }
}

/// A mark where the sweep has work is one that the sweeps come to, and
/// leaves one square fewer without a mark.
pub proof fn lemma_swept_mark(
    start: Seq<Vec<AnnotatedField>>,
    a: Seq<Vec<AnnotatedField>>,
    b: Seq<Vec<AnnotatedField>>,
    row: int,
    col: int,
    d: Direction,
)
    requires
        swept(start, a),
        needs_mark(a, row, col, d),
        one_more_productive(a, b, row, col),
    ensures
        swept(start, b),
        0 <= unset(b, prod_flag(), b.len() as int) < unset(a, prod_flag(), a.len() as int),
{
    reveal(swept);
    reveal(one_more_productive);
    assert(prod_marks_grow(a, b));
    lemma_prod_marks_grow_grid(start, a);
    lemma_prod_marks_grow_grid(a, b);
    lemma_unset(a, b, prod_flag(), a.len() as int, row, col);
    assert forall|r: int| 0 <= r < start.len() implies (#[trigger] start[r]).len() == b[r].len() by {
        assert(start[r].len() == a[r].len());
        assert(b[r].len() == a[r].len());
    }
    assert forall|r: int, c: int| in_grid(start, r, c) implies (#[trigger] b[r][c]) == (
    AnnotatedField { productive: b[r][c].productive, ..start[r][c] }) && (start[r][c].productive
        ==> b[r][c].productive) by {
        assert(in_grid(a, r, c));
        assert(a[r][c] == AnnotatedField { productive: a[r][c].productive, ..start[r][c] });
    }
    assert forall|r: int, c: int| in_grid(b, r, c) && (#[trigger] b[r][c]).productive implies closure(
        start,
        r,
        c,
    ) by {
        assert(in_grid(a, r, c));
        if r == row && c == col {
            let (fr, fc) = (row + d.dr(), col + d.dc());
            let (br, bc) = (row - d.dr(), col - d.dc());
            assert(in_grid(start, row, col) && in_grid(start, fr, fc) && in_grid(start, br, bc));
            assert(a[row][col] == AnnotatedField { productive: a[row][col].productive, ..start[row][col] });
            assert(a[br][bc] == AnnotatedField { productive: a[br][bc].productive, ..start[br][bc] });
            assert(a[fr][fc].productive);
            assert(closure(start, fr, fc));
            reveal(closure);
            let n = choose|n: nat| marked_within(start, fr, fc, n);
            assert(push_marks(start, row, col, d, n));
            match d {
                Direction::Up => {},
                Direction::Down => {},
                Direction::Left => {},
                Direction::Right => {},
            }
            assert(marked_within(start, row, col, n + 1));
        } else {
            assert(a[r][c].productive);
        }
    }
}

/// How many squares the sweeps have left without a mark.
pub proof fn lemma_swept_unset(a: Seq<Vec<AnnotatedField>>, b: Seq<Vec<AnnotatedField>>)
    requires
        swept(a, b),
    ensures
        0 <= unset(b, prod_flag(), b.len() as int),
{
    reveal(swept);
    lemma_unset(b, b, prod_flag(), b.len() as int, 0, 0);
}

/// Once a sweep marks nothing, whatever the sweeps come to within any number
/// of rounds is marked.
pub proof fn lemma_stable_within(
    start: Seq<Vec<AnnotatedField>>,
    b: Seq<Vec<AnnotatedField>>,
    r: int,
    c: int,
    n: nat,
)
    requires
        swept(start, b),
        sweep_stable(b),
        marked_within(start, r, c, n),
    ensures
        in_grid(b, r, c),
        b[r][c].productive,
    decreases n,
{
    reveal(swept);
    lemma_prod_marks_grow_grid(start, b);
    assert(in_grid(b, r, c));
    assert(b[r][c] == AnnotatedField { productive: b[r][c].productive, ..start[r][c] });
    if !start[r][c].productive {
        let m = (n - 1) as nat;
        if marked_within(start, r, c, m) {
            lemma_stable_within(start, b, r, c, m);
        } else {
            let d = if push_marks(start, r, c, Direction::Up, m) {
                Direction::Up
            } else if push_marks(start, r, c, Direction::Down, m) {
                Direction::Down
            } else if push_marks(start, r, c, Direction::Left, m) {
                Direction::Left
            } else {
                Direction::Right
            };
            assert(push_marks(start, r, c, d, m));
            lemma_stable_within(start, b, r + d.dr(), c + d.dc(), m);
            let (br, bc) = (r - d.dr(), c - d.dc());
            assert(in_grid(b, br, bc));
            assert(b[br][bc] == AnnotatedField { productive: b[br][bc].productive, ..start[br][bc] });
            assert(!needs_mark(b, r, c, d));
        }
    }
}

/// Once a sweep marks nothing, exactly the squares that the sweeps come to
/// are marked.
pub proof fn lemma_stable_exact(start: Seq<Vec<AnnotatedField>>, b: Seq<Vec<AnnotatedField>>)
    requires
        swept(start, b),
        sweep_stable(b),
    ensures
        closure_exact(start, b),
        prod_marks_grow(start, b),
{
    reveal(swept);
    lemma_prod_marks_grow_grid(start, b);
    assert forall|r: int, c: int| in_grid(start, r, c) implies (#[trigger] b[r][c]).productive
        == closure(start, r, c) by {
        assert(in_grid(b, r, c));
        if closure(start, r, c) {
            reveal(closure);
            let n = choose|n: nat| marked_within(start, r, c, n);
            lemma_stable_within(start, b, r, c, n);
        }
    }
}

/// On a board where no sweep has work, the sweeps come to the marks that the
/// board has and to no others.
pub proof fn lemma_stable_closure(fs: Seq<Vec<AnnotatedField>>, r: int, c: int)
    requires
        sweep_stable(fs),
        in_grid(fs, r, c),
    ensures
        closure(fs, r, c) == fs[r][c].productive,
{
    lemma_swept_refl(fs);
    lemma_stable_exact(fs, fs);
}

/// With the marks of reachability right and exactly the goals marked, what
/// the sweeps come to within some rounds is productive within as many.
proof fn lemma_marked_is_productive(fs: Seq<Vec<AnnotatedField>>, r: int, c: int, n: nat)
    requires
        reach_exact(fs),
        goals_marked(fs),
        marked_within(fs, r, c, n),
    ensures
        productive_within(grid_of(fs), r, c, n),
    decreases n,
{
    let g = grid_of(fs);
    assert(g[r][c] == fs[r][c].field);
    if !fs[r][c].productive {
        let m = (n - 1) as nat;
        if marked_within(fs, r, c, m) {
            lemma_marked_is_productive(fs, r, c, m);
        } else {
            let d = if push_marks(fs, r, c, Direction::Up, m) {
                Direction::Up
            } else if push_marks(fs, r, c, Direction::Down, m) {
                Direction::Down
            } else if push_marks(fs, r, c, Direction::Left, m) {
                Direction::Left
            } else {
                Direction::Right
            };
            assert(push_marks(fs, r, c, d, m));
            lemma_marked_is_productive(fs, r + d.dr(), c + d.dc(), m);
            assert(push_toward(g, r, c, d, m));
        }
    }
}

/// With the marks of reachability right and exactly the goals marked, what
/// is productive within some rounds the sweeps come to within as many.
proof fn lemma_productive_is_marked(fs: Seq<Vec<AnnotatedField>>, r: int, c: int, n: nat)
    requires
        reach_exact(fs),
        goals_marked(fs),
        productive_within(grid_of(fs), r, c, n),
    ensures
        marked_within(fs, r, c, n),
    decreases n,
{
    let g = grid_of(fs);
    assert(in_grid(fs, r, c));
    assert(g[r][c] == fs[r][c].field);
    if !g[r][c].is_goal() {
        let m = (n - 1) as nat;
        if productive_within(g, r, c, m) {
            lemma_productive_is_marked(fs, r, c, m);
        } else {
            let d = if push_toward(g, r, c, Direction::Up, m) {
                Direction::Up
            } else if push_toward(g, r, c, Direction::Down, m) {
                Direction::Down
            } else if push_toward(g, r, c, Direction::Left, m) {
                Direction::Left
            } else {
                Direction::Right
            };
            assert(push_toward(g, r, c, d, m));
            lemma_productive_is_marked(fs, r + d.dr(), c + d.dc(), m);
            assert(in_grid(fs, r - d.dr(), c - d.dc()));
            assert(push_marks(fs, r, c, d, m));
        }
    }
}

/// With the marks of reachability right and exactly the goals marked, the
/// sweeps come to exactly the productive squares.
pub proof fn lemma_closure_productive(fs: Seq<Vec<AnnotatedField>>, r: int, c: int)
    requires
        reach_exact(fs),
        goals_marked(fs),
        in_grid(fs, r, c),
    ensures
        closure(fs, r, c) == productive(grid_of(fs), r, c),
{
    reveal(closure);
    reveal(productive);
    if closure(fs, r, c) {
        let n = choose|n: nat| marked_within(fs, r, c, n);
        lemma_marked_is_productive(fs, r, c, n);
    }
    if productive(grid_of(fs), r, c) {
        let n = choose|n: nat| productive_within(grid_of(fs), r, c, n);
        lemma_productive_is_marked(fs, r, c, n);
    }
}

/// Marks `(row, col)` productive if the sweep has work on it in direction
/// `dir`, and says whether it did.
fn check_productive(row: usize, col: usize, dir: Direction, fields: &mut Vec<Vec<AnnotatedField>>) -> (changed:
    bool)
    ensures
        changed == needs_mark(old(fields)@, row as int, col as int, dir),
        changed ==> one_more_productive(old(fields)@, final(fields)@, row as int, col as int),
        !changed ==> final(fields)@ == old(fields)@,
{
    if !valid_index(row, col, fields.as_slice()) || !fields[row][col].reachable
        || fields[row][col].productive {
        return false;
    }
    let ahead = match dir.step(row, col, fields.as_slice()) {
        Some(p) => p,
        None => {
            return false;
        },
    };
    let behind = match dir.opposite().step(row, col, fields.as_slice()) {
        Some(p) => p,
        None => {
            return false;
        },
    };
    if fields[ahead.0][ahead.1].productive && fields[behind.0][behind.1].reachable {
        reveal(one_more_productive);
        fields[row][col].productive = true;
        true
    } else {
        false
    }
}

/// Marks the squares on which a box may rest. The marks that the board has
/// are kept: a fresh board has them on the goals. Then, sweep after sweep
/// over the board until a sweep marks nothing, every square marked reachable
/// is marked from which a box can be pushed onto a marked square by a pusher
/// standing on the square behind it, if that is marked reachable. On a board
/// with the marks of reachability right and exactly the goals marked, these
/// are the productive squares. On a board where no sweep has work, nothing
/// changes.
pub fn productivity(soko: &mut SokoAnnotatedBoard)
    ensures
        prod_marks_grow(old(soko).board@, final(soko).board@),
        closure_exact(old(soko).board@, final(soko).board@),
        sweep_stable(final(soko).board@),
        reach_exact(old(soko).board@) ==> reach_exact(final(soko).board@),
        reach_exact(old(soko).board@) && goals_marked(old(soko).board@) ==> prod_exact(
            final(soko).board@,
        ),
        sweep_stable(old(soko).board@) ==> forall|r: int, c: int|
            in_grid(old(soko).board@, r, c) ==> #[trigger] final(soko).board@[r][c] == old(
                soko,
            ).board@[r][c],
{
    let ghost start = soko.board@;
    proof {
        lemma_swept_refl(start);
        lemma_swept_unset(start, start);
    }
    let mut change = true;
    while change
        invariant
            start == old(soko).board@,
            swept(start, soko.board@),
            !change ==> sweep_stable(soko.board@),
            0 <= unset(soko.board@, prod_flag(), soko.board@.len() as int),
        decreases
            unset(soko.board@, prod_flag(), soko.board@.len() as int) + if change {
                1int
            } else {
                0int
            },
    {
        change = false;
        let ghost at_sweep = soko.board@;
        let ghost left_before = unset(at_sweep, prod_flag(), at_sweep.len() as int);
        let mut row: usize = 0;
        while row < soko.board.len()
            invariant
                swept(start, soko.board@),
                soko.board@.len() == at_sweep.len(),
                row <= soko.board@.len(),
                0 <= unset(soko.board@, prod_flag(), soko.board@.len() as int) <= left_before,
                change ==> unset(soko.board@, prod_flag(), soko.board@.len() as int) < left_before,
                !change ==> all_before(soko.board@, settled_at(soko.board@), row as int, 0),
            decreases soko.board@.len() - row,
        {
            let mut col: usize = 0;
            while col < soko.board[row].len()
                invariant
                    swept(start, soko.board@),
                    soko.board@.len() == at_sweep.len(),
                    row < soko.board@.len(),
                    col <= soko.board@[row as int].len(),
                    0 <= unset(soko.board@, prod_flag(), soko.board@.len() as int) <= left_before,
                    change ==> unset(soko.board@, prod_flag(), soko.board@.len() as int)
                        < left_before,
                    !change ==> all_before(
                        soko.board@,
                        settled_at(soko.board@),
                        row as int,
                        col as int,
                    ),
                decreases soko.board@[row as int].len() - col,
            {
                let ghost b0 = soko.board@;
                let up = check_productive(row, col, Direction::Up, &mut soko.board);
                let ghost b1 = soko.board@;
                proof {
                    if up {
                        lemma_swept_mark(start, b0, b1, row as int, col as int, Direction::Up);
                    }
                }
                let down = check_productive(row, col, Direction::Down, &mut soko.board);
                let ghost b2 = soko.board@;
                proof {
                    if down {
                        lemma_swept_mark(start, b1, b2, row as int, col as int, Direction::Down);
                    }
                }
                let left = check_productive(row, col, Direction::Left, &mut soko.board);
                let ghost b3 = soko.board@;
                proof {
                    if left {
                        lemma_swept_mark(start, b2, b3, row as int, col as int, Direction::Left);
                    }
                }
                let right = check_productive(row, col, Direction::Right, &mut soko.board);
                let ghost b4 = soko.board@;
                proof {
                    if right {
                        lemma_swept_mark(start, b3, b4, row as int, col as int, Direction::Right);
                    }
                    lemma_sweep_shape(start, b0, b4);
                }
                change = change || up || down || left || right;
                proof {
                    if !change {
                        assert(b4 == b0);
                        assert(settled(b4, row as int, col as int)) by {
                            assert forall|d: Direction| !#[trigger] needs_mark(
                                b4,
                                row as int,
                                col as int,
                                d,
                            ) by {
                                match d {
                                    Direction::Up => {},
                                    Direction::Down => {},
                                    Direction::Left => {},
                                    Direction::Right => {},
                                }
                            }
                        }
                        lemma_before_steps(b4, settled_at(b4), row as int, col as int);
                    }
                }
                col += 1;
            }
            proof {
                lemma_before_steps(soko.board@, settled_at(soko.board@), row as int, col as int);
            }
            row += 1;
        }
        proof {
            if !change {
                let b = soko.board@;
                assert forall|r: int, c: int, d: Direction| !#[trigger] needs_mark(b, r, c, d) by {
                    if in_grid(b, r, c) {
                        assert(before(r, c, row as int, 0));
                        assert(settled_at(b)(r, c));
                    }
                }
            }
        }
    }
    proof {
        let last = soko.board@;
        lemma_stable_exact(start, last);
        lemma_prod_marks_grow_grid(start, last);
        if reach_exact(start) {
            assert forall|r: int, c: int| in_grid(last, r, c) implies (#[trigger] last[r][c]).reachable
                == reachable(grid_of(last), r, c) by {
                assert(in_grid(start, r, c));
                assert(last[r][c] == AnnotatedField {
                    productive: last[r][c].productive,
                    ..start[r][c]
                });
            }
            if goals_marked(start) {
                assert forall|r: int, c: int| in_grid(last, r, c) implies (#[trigger] last[r][c]).productive
                    == productive(grid_of(last), r, c) by {
                    assert(in_grid(start, r, c));
                    lemma_closure_productive(start, r, c);
                }
            }
        }
        if sweep_stable(start) {
            assert forall|r: int, c: int| in_grid(start, r, c) implies #[trigger] last[r][c]
                == start[r][c] by {
                lemma_stable_closure(start, r, c);
                assert(last[r][c] == AnnotatedField {
                    productive: last[r][c].productive,
                    ..start[r][c]
                });
            }
        }
    }
}

/// The sweeps keep the shape of the board.
pub proof fn lemma_sweep_shape(
    start: Seq<Vec<AnnotatedField>>,
    a: Seq<Vec<AnnotatedField>>,
    b: Seq<Vec<AnnotatedField>>,
)
    requires
        swept(start, a),
        swept(start, b),
    ensures
        a.len() == b.len(),
        forall|r: int| 0 <= r < a.len() ==> (#[trigger] a[r]).len() == b[r].len(),
{
    reveal(swept);
    assert forall|r: int| 0 <= r < a.len() implies (#[trigger] a[r]).len() == b[r].len() by {
        assert(start[r].len() == a[r].len());
        assert(start[r].len() == b[r].len());
    }
}

} // verus!
