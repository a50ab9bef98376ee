use crate::direction::Direction;
use crate::scan::before;
use crate::sokoboard::Field;
use vstd::prelude::*;

verus! {

/// The squares of a board, row by row. Rows may differ in length.
pub type Grid = Seq<Seq<Field>>;

/// Whether `(r, c)` names a square of the grid.
pub open spec fn on_grid(g: Grid, r: int, c: int) -> bool {
    0 <= r < g.len() && 0 <= c < g[r].len()
}

/// Whether the pusher can stand on `(r, c)` when no box is in the way: the
/// square is on the grid and is no wall.
pub open spec fn passable(g: Grid, r: int, c: int) -> bool {
    on_grid(g, r, c) && g[r][c] != Field::Wall
}

/// Whether the pusher starts on `(r, c)`: it is the first square, read row by
/// row, that shows the pusher.
pub open spec fn is_start(g: Grid, r: int, c: int) -> bool {
    &&& on_grid(g, r, c)
    &&& g[r][c].has_man()
    &&& forall|r2: int, c2: int|
        on_grid(g, r2, c2) && before(r2, c2, r, c) ==> !(#[trigger] g[r2][c2]).has_man()
}

/// The pusher is on `(r, c)` and on no other square.
pub open spec fn only_man(g: Grid, r: int, c: int) -> bool {
    &&& on_grid(g, r, c)
    &&& g[r][c].has_man()
    &&& forall|r2: int, c2: int|
        on_grid(g, r2, c2) && (#[trigger] g[r2][c2]).has_man() ==> r2 == r && c2 == c
}

/// The screen shows the pusher on exactly one square.
pub open spec fn one_man(g: Grid) -> bool {
    exists|r: int, c: int| only_man(g, r, c)
}

/// Whether two squares are one axis step apart.
pub open spec fn adjacent(p: (int, int), q: (int, int)) -> bool {
    exists|d: Direction| q.0 == p.0 + #[trigger] d.dr() && q.1 == p.1 + d.dc()
}

/// Whether `path` is a walk of the pusher: every square passable, every two
/// squares in a row one axis step apart.
pub open spec fn is_walk(g: Grid, path: Seq<(int, int)>) -> bool {
    &&& forall|i: int| 0 <= i < path.len() ==> passable(g, (#[trigger] path[i]).0, path[i].1)
    &&& forall|i: int| 0 <= i < path.len() - 1 ==> adjacent(#[trigger] path[i], path[i + 1])
}

/// Whether `path` is a walk from where the pusher starts to `(r, c)`.
pub open spec fn walk_to(g: Grid, path: Seq<(int, int)>, r: int, c: int) -> bool {
    &&& path.len() > 0
    &&& is_start(g, path[0].0, path[0].1)
    &&& path.last() == (r, c)
    &&& is_walk(g, path)
}

/// Whether the pusher can walk to `(r, c)` from where it starts, by axis
/// steps that avoid the walls; boxes are no obstacle.
#[verifier::opaque]
pub open spec fn reachable(g: Grid, r: int, c: int) -> bool {
    exists|path: Seq<(int, int)>| walk_to(g, path, r, c)
}

/// Whether a box on `(r, c)` can be pushed one step in direction `d` onto a
/// square that is productive within `n` rounds: the pusher can stand behind
/// the box and can follow it.
pub open spec fn push_toward(g: Grid, r: int, c: int, d: Direction, n: nat) -> bool
    decreases n, 1nat,
{
    &&& reachable(g, r, c)
    &&& on_grid(g, r - d.dr(), c - d.dc())
    &&& reachable(g, r - d.dr(), c - d.dc())
    &&& productive_within(g, r + d.dr(), c + d.dc(), n)
}

/// Whether `(r, c)` is found productive within `n` rounds: goals at once, and
/// in each round the squares from which a box can be pushed onto a square
/// found before.
pub open spec fn productive_within(g: Grid, r: int, c: int, n: nat) -> bool
    decreases n, 0nat,
{
    on_grid(g, r, c) && (g[r][c].is_goal() || (n > 0 && (productive_within(g, r, c, (n - 1) as nat)
        || push_toward(g, r, c, Direction::Up, (n - 1) as nat) || push_toward(
        g,
        r,
        c,
        Direction::Down,
        (n - 1) as nat,
    ) || push_toward(g, r, c, Direction::Left, (n - 1) as nat) || push_toward(
        g,
        r,
        c,
        Direction::Right,
        (n - 1) as nat,
    ))))
}

/// Whether a box may rest on `(r, c)`: the square is a goal, or a box on it
/// can be pushed, step by step over productive squares, onto a goal.
#[verifier::opaque]
pub open spec fn productive(g: Grid, r: int, c: int) -> bool {
    exists|n: nat| productive_within(g, r, c, n)
}

/// The number of squares in the rows before row `r`.
pub open spec fn cells_before_row(g: Grid, r: int) -> int
    decreases r,
{
    if r <= 0 {
        0
    } else {
        cells_before_row(g, r - 1) + g[r - 1].len()
    }
}

/// The number of squares of the grid.
pub open spec fn cell_count(g: Grid) -> int {
    cells_before_row(g, g.len() as int)
}

/// The place of `(r, c)` when the squares are read row by row, from 0.
pub open spec fn cell_index(g: Grid, r: int, c: int) -> int {
    cells_before_row(g, r) + c
}

/// A walk that ends next to a passable square goes on to that square.
pub proof fn lemma_reachable_step(g: Grid, r: int, c: int, d: Direction)
    requires
        reachable(g, r, c),
        passable(g, r + d.dr(), c + d.dc()),
    ensures
        reachable(g, r + d.dr(), c + d.dc()),
{
    reveal(reachable);
    let path = choose|path: Seq<(int, int)>| walk_to(g, path, r, c);
    let longer = path.push((r + d.dr(), c + d.dc()));
    assert forall|i: int| 0 <= i < longer.len() - 1 implies adjacent(
        #[trigger] longer[i],
        longer[i + 1],
    ) by {
        if i < path.len() - 1 {
            assert(adjacent(path[i], path[i + 1]));
        } else {
            assert(longer[i] == (r, c));
            assert(longer[i + 1].0 == longer[i].0 + d.dr() && longer[i + 1].1 == longer[i].1
                + d.dc());
        }
    }
    assert forall|i: int| 0 <= i < longer.len() implies passable(
        g,
        (#[trigger] longer[i]).0,
        longer[i].1,
    ) by {
        if i < path.len() {
            assert(longer[i] == path[i]);
        }
    }
    assert(walk_to(g, longer, r + d.dr(), c + d.dc()));
}

/// The pusher reaches the square it starts on.
pub proof fn lemma_start_reachable(g: Grid, r: int, c: int)
    requires
        is_start(g, r, c),
    ensures
        reachable(g, r, c),
{
    reveal(reachable);
    let path = seq![(r, c)];
    assert(g[r][c] != Field::Wall);
    assert(walk_to(g, path, r, c));
}

/// The pusher starts on one square at most.
pub proof fn lemma_start_unique(g: Grid, r: int, c: int, r2: int, c2: int)
    requires
        is_start(g, r, c),
        is_start(g, r2, c2),
    ensures
        r == r2 && c == c2,
{
    if before(r, c, r2, c2) {
        assert(!g[r][c].has_man());
    }
    if before(r2, c2, r, c) {
        assert(!g[r2][c2].has_man());
    }
}

/// A square that is reachable is passable.
pub proof fn lemma_reachable_passable(g: Grid, r: int, c: int)
    requires
        reachable(g, r, c),
    ensures
        passable(g, r, c),
{
    reveal(reachable);
    let path = choose|path: Seq<(int, int)>| walk_to(g, path, r, c);
    assert(passable(g, path[path.len() - 1].0, path[path.len() - 1].1));
}

/// A goal is productive.
pub proof fn lemma_goal_productive(g: Grid, r: int, c: int)
    requires
        on_grid(g, r, c),
        g[r][c].is_goal(),
    ensures
        productive(g, r, c),
{
    reveal(productive);
    assert(productive_within(g, r, c, 0));
}

/// What is found productive within some rounds is found within more.
pub proof fn lemma_productive_within_more(g: Grid, r: int, c: int, n: nat, m: nat)
    requires
        productive_within(g, r, c, n),
        n <= m,
    ensures
        productive_within(g, r, c, m),
    decreases m,
{
    if n < m {
        lemma_productive_within_more(g, r, c, n, (m - 1) as nat);
    }
}

/// The productive squares are closed under the rule that finds them: a
/// square from which a box can be pushed onto a productive one is productive.
pub proof fn lemma_productive_push(g: Grid, r: int, c: int, d: Direction)
    requires
        reachable(g, r, c),
        reachable(g, r - d.dr(), c - d.dc()),
        productive(g, r + d.dr(), c + d.dc()),
    ensures
        productive(g, r, c),
{
    reveal(productive);
    let (tr, tc) = (r + d.dr(), c + d.dc());
    let n = choose|n: nat| productive_within(g, tr, tc, n);
    lemma_reachable_passable(g, r, c);
    lemma_reachable_passable(g, r - d.dr(), c - d.dc());
    assert(push_toward(g, r, c, d, n));
    assert(productive_within(g, r, c, n + 1));
}

/// A productive square is a goal, or a box on it can be pushed onto a
/// productive square.
pub proof fn lemma_productive_cases(g: Grid, r: int, c: int)
    requires
        productive(g, r, c),
    ensures
        on_grid(g, r, c),
        g[r][c].is_goal() || exists|d: Direction|
            reachable(g, r, c) && reachable(g, r - d.dr(), c - d.dc()) && #[trigger] productive(
                g,
                r + d.dr(),
                c + d.dc(),
            ),
{
    reveal(productive);
    let n = choose|n: nat| productive_within(g, r, c, n);
    lemma_productive_within_cases(g, r, c, n);
}

/// As `lemma_productive_cases`, of a square found within `n` rounds.
proof fn lemma_productive_within_cases(g: Grid, r: int, c: int, n: nat)
    requires
        productive_within(g, r, c, n),
    ensures
        on_grid(g, r, c),
        g[r][c].is_goal() || exists|d: Direction|
            reachable(g, r, c) && reachable(g, r - d.dr(), c - d.dc()) && #[trigger] productive(
                g,
                r + d.dr(),
                c + d.dc(),
            ),
    decreases n,
{
    if !g[r][c].is_goal() {
        let m = (n - 1) as nat;
        if productive_within(g, r, c, m) {
            lemma_productive_within_cases(g, r, c, m);
        } else {
            let d = if push_toward(g, r, c, Direction::Up, m) {
                Direction::Up
            } else if push_toward(g, r, c, Direction::Down, m) {
                Direction::Down
            } else if push_toward(g, r, c, Direction::Left, m) {
                Direction::Left
            } else {
                Direction::Right
            };
            assert(push_toward(g, r, c, d, m));
            assert(productive_within(g, r + d.dr(), c + d.dc(), m));
            assert(productive(g, r + d.dr(), c + d.dc())) by {
                reveal(productive);
            }
        }
    }
}

/// The squares of later rows come later.
pub proof fn lemma_cells_before_row_grows(g: Grid, r: int, r2: int)
    requires
        0 <= r <= r2 <= g.len(),
    ensures
        0 <= cells_before_row(g, r) <= cells_before_row(g, r2),
        r < r2 ==> cells_before_row(g, r) + g[r].len() <= cells_before_row(g, r2),
    decreases r2,
{
    if r < r2 {
        lemma_cells_before_row_grows(g, r, r2 - 1);
    } else if r > 0 {
        lemma_cells_before_row_grows(g, 0, r - 1);
    }
}

/// Every square has a place of its own, below the number of squares.
pub proof fn lemma_cell_index_unique(g: Grid, r: int, c: int, r2: int, c2: int)
    requires
        on_grid(g, r, c),
        on_grid(g, r2, c2),
    ensures
        0 <= cell_index(g, r, c) < cell_count(g),
        (r, c) != (r2, c2) ==> cell_index(g, r, c) != cell_index(g, r2, c2),
{
    lemma_cells_before_row_grows(g, r, g.len() as int);
    lemma_cells_before_row_grows(g, r2, g.len() as int);
    if r < r2 {
        lemma_cells_before_row_grows(g, r, r2);
    } else if r2 < r {
        lemma_cells_before_row_grows(g, r2, r);
    }
}

} // verus!
