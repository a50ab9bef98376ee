use crate::bdd::Assignment;
use crate::direction::{in_grid, Direction};
use crate::encoding::{
    any_move, block_moves, block_var, can_step, cell_initial, cell_unchanged, goal, initial,
    man_moves, man_var, moves, no_block, push, transition, walk,
};
use crate::grid::{
    is_start, lemma_cell_index_unique, lemma_goal_productive, lemma_productive_cases,
    lemma_productive_push, lemma_reachable_passable, lemma_reachable_step, lemma_start_reachable,
    on_grid, one_man, only_man, passable, productive, reachable, Grid,
};
use crate::sokoannotatedboard::{annotation, AnnotatedField, SokoAnnotatedBoard};
use vstd::prelude::*;

verus! {

/// A position of the game: where the pusher stands and where the boxes rest.
pub struct Position {
    pub man: (int, int),
    pub boxes: Set<(int, int)>,
}

/// The square one step from `at` in direction `d`.
pub open spec fn ahead(at: (int, int), d: Direction) -> (int, int) {
    (at.0 + d.dr(), at.1 + d.dc())
}

/// The rules of the game: the position after the pusher takes one step in
/// direction `d`, or `None` if it cannot. The pusher cannot leave the grid
/// or enter a wall. If a box is in its way, the box moves one square on,
/// which must be on the grid, no wall, and free of boxes.
pub open spec fn step(g: Grid, p: Position, d: Direction) -> Option<Position> {
    let to = ahead(p.man, d);
    let beyond = ahead(to, d);
    if !passable(g, to.0, to.1) {
        None
    } else if !p.boxes.contains(to) {
        Some(Position { man: to, boxes: p.boxes })
    } else if passable(g, beyond.0, beyond.1) && !p.boxes.contains(beyond) {
        Some(Position { man: to, boxes: p.boxes.remove(to).insert(beyond) })
    } else {
        None
    }
}

/// A step that pushes no box onto a square where it would be lost: as
/// `step`, but a box is pushed onto productive squares only.
pub open spec fn careful_step(g: Grid, p: Position, d: Direction) -> Option<Position> {
    let to = ahead(p.man, d);
    let beyond = ahead(to, d);
    if p.boxes.contains(to) && !productive(g, beyond.0, beyond.1) {
        None
    } else {
        step(g, p, d)
    }
}

/// The position after the steps `ds`, one after another, or `None` if one of
/// them cannot be taken.
pub open spec fn play(g: Grid, p: Position, ds: Seq<Direction>) -> Option<Position>
    decreases ds.len(),
{
    if ds.len() == 0 {
        Some(p)
    } else {
        match step(g, p, ds[0]) {
            Some(q) => play(g, q, ds.drop_first()),
            None => None,
        }
    }
}

/// As `play`, with careful steps.
pub open spec fn careful_play(g: Grid, p: Position, ds: Seq<Direction>) -> Option<Position>
    decreases ds.len(),
{
    if ds.len() == 0 {
        Some(p)
    } else {
        match careful_step(g, p, ds[0]) {
            Some(q) => careful_play(g, q, ds.drop_first()),
            None => None,
        }
    }
}

/// Every goal holds a box.
pub open spec fn solved(g: Grid, p: Position) -> bool {
    forall|r: int, c: int| on_grid(g, r, c) && (#[trigger] g[r][c]).is_goal() ==> p.boxes.contains((r, c))
}

/// The position that a screen shows: the pusher where it starts, a box
/// wherever the screen shows one.
pub open spec fn shown_on(g: Grid, p: Position) -> bool {
    &&& is_start(g, p.man.0, p.man.1)
    &&& forall|r: int, c: int| p.boxes.contains((r, c)) == (on_grid(g, r, c) && g[r][c].has_block())
}

/// The pusher can reach every goal, if no box is in its way.
pub open spec fn goals_in_reach(g: Grid) -> bool {
    forall|r: int, c: int| on_grid(g, r, c) && (#[trigger] g[r][c]).is_goal() ==> reachable(g, r, c)
}

/// A position that the encoding can tell from the others: the pusher stands
/// on a reachable square and not on a box, and every box within its reach
/// rests on a productive square.
pub open spec fn playable(g: Grid, p: Position) -> bool {
    &&& reachable(g, p.man.0, p.man.1)
    &&& !p.boxes.contains(p.man)
    &&& forall|r: int, c: int| #[trigger]
        p.boxes.contains((r, c)) && reachable(g, r, c) ==> productive(g, r, c)
}

/// The assignment `x` says of the variables before a step what the position
/// `p` is: the pusher variable of a reachable square is true exactly if the
/// pusher stands there, the box variable of a reachable productive square
/// exactly if a box rests there.
pub open spec fn shows(fs: Seq<Vec<AnnotatedField>>, x: Assignment, p: Position) -> bool {
    forall|r: int, c: int|
        in_grid(fs, r, c) && (#[trigger] fs[r][c]).reachable ==> {
            &&& x.contains(man_var(fs, r, c)) == (p.man == (r, c))
            &&& fs[r][c].productive ==> x.contains(block_var(fs, r, c)) == p.boxes.contains((r, c))
        }
}

/// Two states as one assignment: the even variables say what `x` says of
/// them, and each odd variable says what `y` says of the even one before it.
pub open spec fn pair(x: Assignment, y: Assignment) -> Assignment {
    Set::new(
        |v: int|
            if v % 2 == 0 {
                x.contains(v)
            } else {
                y.contains(v - 1)
            },
    )
}

/// What an annotated board knows of its squares, in the terms of the screen.
pub proof fn lemma_flags(soko: SokoAnnotatedBoard, r: int, c: int)
    requires
        soko.wf(),
    ensures
        in_grid(soko.board@, r, c) == on_grid(soko.grid(), r, c),
        in_grid(soko.board@, r, c) ==> {
            &&& soko.board@[r][c].field == soko.grid()[r][c]
            &&& soko.board@[r][c].reachable == reachable(soko.grid(), r, c)
            &&& soko.board@[r][c].productive == productive(soko.grid(), r, c)
            &&& man_var(soko.board@, r, c) == 4 * crate::grid::cell_index(soko.grid(), r, c)
            &&& block_var(soko.board@, r, c) == 4 * crate::grid::cell_index(soko.grid(), r, c) + 2
        },
{
    if in_grid(soko.board@, r, c) {
        assert(soko.board@[r][c] == annotation(soko.grid(), r, c));
        lemma_cell_index_unique(soko.grid(), r, c, r, c);
    }
}

/// In a pair of states, the variables of a square say of the first state
/// what `x` says, and the variables after them say of the second what `y`
/// says.
pub proof fn lemma_pair_vars(soko: SokoAnnotatedBoard, x: Assignment, y: Assignment, r: int, c: int)
    requires
        soko.wf(),
        in_grid(soko.board@, r, c),
    ensures
        pair(x, y).contains(man_var(soko.board@, r, c)) == x.contains(man_var(soko.board@, r, c)),
        pair(x, y).contains(man_var(soko.board@, r, c) + 1) == y.contains(man_var(soko.board@, r, c)),
        pair(x, y).contains(block_var(soko.board@, r, c)) == x.contains(block_var(soko.board@, r, c)),
        pair(x, y).contains(block_var(soko.board@, r, c) + 1) == y.contains(
            block_var(soko.board@, r, c),
        ),
{
    lemma_flags(soko, r, c);
}

/// The squares of a step are squares that the pusher can reach, and the
/// pusher stands where the step begins.
proof fn lemma_step_squares(
    soko: SokoAnnotatedBoard,
    x: Assignment,
    y: Assignment,
    p: Position,
    r: int,
    c: int,
    d: Direction,
)
    requires
        soko.wf(),
        shows(soko.board@, x, p),
        can_step(soko.board@, r, c, d),
        man_moves(soko.board@, r, c, r + d.dr(), c + d.dc(), pair(x, y)),
    ensures
        p.man == (r, c),
        reachable(soko.grid(), r, c),
        reachable(soko.grid(), r + d.dr(), c + d.dc()),
        passable(soko.grid(), r + d.dr(), c + d.dc()),
        ahead(p.man, d) == (r + d.dr(), c + d.dc()),
{
    let fs = soko.board@;
    lemma_flags(soko, r, c);
    lemma_flags(soko, r + d.dr(), c + d.dc());
    lemma_pair_vars(soko, x, y, r, c);
    assert(fs[r][c].reachable);
    lemma_reachable_passable(soko.grid(), r + d.dr(), c + d.dc());
}

/// A walk that the encoding admits is a step of the game, and leads from a
/// playable position that the first state shows to a playable position that
/// the second state shows.
proof fn lemma_walk_is_step(
    soko: SokoAnnotatedBoard,
    x: Assignment,
    y: Assignment,
    p: Position,
    r: int,
    c: int,
    d: Direction,
)
    requires
        soko.wf(),
        playable(soko.grid(), p),
        shows(soko.board@, x, p),
        can_step(soko.board@, r, c, d),
        walk(soko.board@, r, c, d, pair(x, y)),
    ensures
        careful_step(soko.grid(), p, d) matches Some(q) && shows(soko.board@, y, q) && playable(
            soko.grid(),
            q,
        ),
{
    let fs = soko.board@;
    let g = soko.grid();
    let a = pair(x, y);
    let to = (r + d.dr(), c + d.dc());
    lemma_step_squares(soko, x, y, p, r, c, d);
    lemma_flags(soko, r, c);
    lemma_flags(soko, to.0, to.1);
    lemma_pair_vars(soko, x, y, r, c);
    lemma_pair_vars(soko, x, y, to.0, to.1);
    assert(fs[to.0][to.1].reachable);
    assert(!p.boxes.contains(to)) by {
        if p.boxes.contains(to) {
            assert(p.boxes.contains((to.0, to.1)) && reachable(g, to.0, to.1));
            assert(productive(g, to.0, to.1));
            assert(no_block(fs, to.0, to.1, a));
        }
    }
    let q = Position { man: to, boxes: p.boxes };
    assert(step(g, p, d) == Some(q));
    assert(careful_step(g, p, d) == Some(q));
    assert forall|r2: int, c2: int| in_grid(fs, r2, c2) && (#[trigger] fs[r2][c2]).reachable implies {
        &&& y.contains(man_var(fs, r2, c2)) == (q.man == (r2, c2))
        &&& fs[r2][c2].productive ==> y.contains(block_var(fs, r2, c2)) == q.boxes.contains((r2, c2))
    } by {
        lemma_pair_vars(soko, x, y, r2, c2);
        lemma_flags(soko, r2, c2);
        if (r2, c2) == (r, c) {
            assert(no_block(fs, r, c, a));
        } else if (r2, c2) == to {
            assert(no_block(fs, to.0, to.1, a));
        } else {
            assert(!set![(r, c), to].contains((r2, c2)));
            assert(cell_unchanged(fs, r2, c2, a));
        }
    }
    assert(playable(g, q));
}

/// A push that the encoding admits is a careful step of the game, and leads
/// from a playable position that the first state shows to a playable position
/// that the second state shows.
proof fn lemma_push_is_step(
    soko: SokoAnnotatedBoard,
    x: Assignment,
    y: Assignment,
    p: Position,
    r: int,
    c: int,
    d: Direction,
)
    requires
        soko.wf(),
        playable(soko.grid(), p),
        shows(soko.board@, x, p),
        can_step(soko.board@, r, c, d),
        push(soko.board@, r, c, d, pair(x, y)),
    ensures
        careful_step(soko.grid(), p, d) matches Some(q) && shows(soko.board@, y, q) && playable(
            soko.grid(),
            q,
        ),
{
    let fs = soko.board@;
    let g = soko.grid();
    let a = pair(x, y);
    let to = (r + d.dr(), c + d.dc());
    let beyond = (r + 2 * d.dr(), c + 2 * d.dc());
    lemma_step_squares(soko, x, y, p, r, c, d);
    lemma_flags(soko, r, c);
    lemma_flags(soko, to.0, to.1);
    lemma_flags(soko, beyond.0, beyond.1);
    lemma_pair_vars(soko, x, y, r, c);
    lemma_pair_vars(soko, x, y, to.0, to.1);
    lemma_pair_vars(soko, x, y, beyond.0, beyond.1);
    assert(ahead(to, d) == beyond);
    assert(productive(g, beyond.0, beyond.1));
    assert(productive(g, to.0, to.1)) by {
        assert(reachable(g, to.0 - d.dr(), to.1 - d.dc()));
        lemma_productive_push(g, to.0, to.1, d);
    }
    lemma_beyond_reachable(g, to.0, to.1, d);
    assert(fs[to.0][to.1].reachable && fs[to.0][to.1].productive);
    assert(fs[beyond.0][beyond.1].reachable && fs[beyond.0][beyond.1].productive);
    assert(block_moves(fs, to.0, to.1, beyond.0, beyond.1, a));
    assert(p.boxes.contains(to));
    assert(!p.boxes.contains(beyond));
    lemma_reachable_passable(g, beyond.0, beyond.1);
    let q = Position { man: to, boxes: p.boxes.remove(to).insert(beyond) };
    assert(step(g, p, d) == Some(q));
    assert(careful_step(g, p, d) == Some(q));
    assert forall|r2: int, c2: int| in_grid(fs, r2, c2) && (#[trigger] fs[r2][c2]).reachable implies {
        &&& y.contains(man_var(fs, r2, c2)) == (q.man == (r2, c2))
        &&& fs[r2][c2].productive ==> y.contains(block_var(fs, r2, c2)) == q.boxes.contains((r2, c2))
    } by {
        lemma_pair_vars(soko, x, y, r2, c2);
        lemma_flags(soko, r2, c2);
        if (r2, c2) == (r, c) {
            assert(no_block(fs, r, c, a));
        } else if (r2, c2) == to {
        } else if (r2, c2) == beyond {
        } else {
            assert(!set![(r, c), to, beyond].contains((r2, c2)));
            assert(cell_unchanged(fs, r2, c2, a));
        }
    }
    assert forall|r2: int, c2: int| #[trigger]
        q.boxes.contains((r2, c2)) && reachable(g, r2, c2) implies productive(g, r2, c2) by {
        if (r2, c2) != beyond {
            assert(p.boxes.contains((r2, c2)));
        }
    }
    assert(playable(g, q));
}

/// The pusher can follow a box that it pushes onto a productive square.
proof fn lemma_beyond_reachable(g: Grid, r: int, c: int, d: Direction)
    requires
        reachable(g, r, c),
        productive(g, r + d.dr(), c + d.dc()),
    ensures
        reachable(g, r + d.dr(), c + d.dc()),
{
    let (br, bc) = (r + d.dr(), c + d.dc());
    lemma_productive_cases(g, br, bc);
    if g[br][bc].is_goal() {
        lemma_reachable_step(g, r, c, d);
    }
}

/// Soundness of the encoded steps. If the encoding admits a step in
/// direction `d` between two states, and the first state shows a playable
/// position, then the rules of the game allow the pusher that step, the
/// step pushes no box off the productive squares, and the second state shows
/// the position after it, which is playable again.
pub proof fn lemma_move_is_step(
    soko: SokoAnnotatedBoard,
    x: Assignment,
    y: Assignment,
    p: Position,
    d: Direction,
)
    requires
        soko.wf(),
        playable(soko.grid(), p),
        shows(soko.board@, x, p),
        moves(soko.board@, d, pair(x, y)),
    ensures
        careful_step(soko.grid(), p, d) matches Some(q) && step(soko.grid(), p, d) == Some(q)
            && shows(soko.board@, y, q) && playable(soko.grid(), q),
{
    let fs = soko.board@;
    let a = pair(x, y);
    let (r, c) = choose|r: int, c: int| in_grid(fs, r, c) && #[trigger] transition(fs, r, c, d, a);
    if walk(fs, r, c, d, a) {
        lemma_walk_is_step(soko, x, y, p, r, c, d);
    } else {
        lemma_push_is_step(soko, x, y, p, r, c, d);
    }
}

/// Completeness of the encoded steps. If the rules of the game allow the
/// pusher a careful step in direction `d` from a playable position, then the
/// encoding admits that step between any state that shows the position
/// before and any state that shows the position after.
pub proof fn lemma_step_is_move(
    soko: SokoAnnotatedBoard,
    x: Assignment,
    y: Assignment,
    p: Position,
    q: Position,
    d: Direction,
)
    requires
        soko.wf(),
        playable(soko.grid(), p),
        careful_step(soko.grid(), p, d) == Some(q),
        shows(soko.board@, x, p),
        shows(soko.board@, y, q),
    ensures
        moves(soko.board@, d, pair(x, y)),
        playable(soko.grid(), q),
{
    let fs = soko.board@;
    let g = soko.grid();
    let a = pair(x, y);
    let (r, c) = p.man;
    let to = ahead(p.man, d);
    let beyond = ahead(to, d);
    lemma_reachable_passable(g, r, c);
    lemma_reachable_step(g, r, c, d);
    lemma_flags(soko, r, c);
    lemma_flags(soko, to.0, to.1);
    lemma_pair_vars(soko, x, y, r, c);
    lemma_pair_vars(soko, x, y, to.0, to.1);
    assert(can_step(fs, r, c, d));
    assert(fs[r][c].reachable && fs[to.0][to.1].reachable);
    assert(man_moves(fs, r, c, to.0, to.1, a));
    assert(no_block(fs, r, c, a));
    if !p.boxes.contains(to) {
        assert(q == Position { man: to, boxes: p.boxes });
        assert(no_block(fs, to.0, to.1, a));
        assert forall|r2: int, c2: int|
            in_grid(fs, r2, c2) && !set![(r, c), to].contains((r2, c2)) implies #[trigger] cell_unchanged(
            fs,
            r2,
            c2,
            a,
        ) by {
            lemma_pair_vars(soko, x, y, r2, c2);
        }
        assert(walk(fs, r, c, d, a));
        assert(playable(g, q));
    } else {
        assert(q == Position { man: to, boxes: p.boxes.remove(to).insert(beyond) });
        assert(beyond == (r + 2 * d.dr(), c + 2 * d.dc()));
        assert(productive(g, beyond.0, beyond.1));
        lemma_reachable_step(g, to.0, to.1, d);
        lemma_flags(soko, beyond.0, beyond.1);
        lemma_pair_vars(soko, x, y, beyond.0, beyond.1);
        assert(p.boxes.contains((to.0, to.1)) && reachable(g, to.0, to.1));
        assert(productive(g, to.0, to.1));
        assert(fs[beyond.0][beyond.1].reachable && fs[beyond.0][beyond.1].productive);
        assert(block_moves(fs, to.0, to.1, beyond.0, beyond.1, a));
        assert forall|r2: int, c2: int|
            in_grid(fs, r2, c2) && !set![(r, c), to, beyond].contains((r2, c2)) implies #[trigger] cell_unchanged(
            fs,
            r2,
            c2,
            a,
        ) by {
            lemma_pair_vars(soko, x, y, r2, c2);
        }
        assert(push(fs, r, c, d, a));
        assert forall|r2: int, c2: int| #[trigger]
            q.boxes.contains((r2, c2)) && reachable(g, r2, c2) implies productive(g, r2, c2) by {
            if (r2, c2) != beyond {
                assert(p.boxes.contains((r2, c2)));
            }
        }
        assert(playable(g, q));
    }
    assert(transition(fs, r, c, d, a));
}

/// Variable `v` is a variable of `(r, c)` that is true in position `p`.
pub open spec fn true_of(fs: Seq<Vec<AnnotatedField>>, p: Position, v: int, r: int, c: int) -> bool {
    in_grid(fs, r, c) && ((v == man_var(fs, r, c) && p.man == (r, c)) || (v == block_var(fs, r, c)
        && p.boxes.contains((r, c))))
}

/// The state that says of every square what the position is.
pub open spec fn state_of(fs: Seq<Vec<AnnotatedField>>, p: Position) -> Assignment {
    Set::new(|v: int| exists|r: int, c: int| true_of(fs, p, v, r, c))
}

/// The state of a position shows the position, and more: it is right about
/// every square of the board, reachable or not.
pub proof fn lemma_state_of(soko: SokoAnnotatedBoard, p: Position, r: int, c: int)
    requires
        soko.wf(),
        in_grid(soko.board@, r, c),
    ensures
        state_of(soko.board@, p).contains(man_var(soko.board@, r, c)) == (p.man == (r, c)),
        state_of(soko.board@, p).contains(block_var(soko.board@, r, c)) == p.boxes.contains((r, c)),
{
    let fs = soko.board@;
    let x = state_of(fs, p);
    let m = man_var(fs, r, c);
    let b = block_var(fs, r, c);
    if x.contains(m) {
        let (r2, c2) = choose|r2: int, c2: int| true_of(fs, p, m, r2, c2);
        crate::sokoannotatedboard::lemma_ids_unique(soko, r, c, r2, c2);
    }
    if x.contains(b) {
        let (r2, c2) = choose|r2: int, c2: int| true_of(fs, p, b, r2, c2);
        crate::sokoannotatedboard::lemma_ids_unique(soko, r2, c2, r, c);
        crate::sokoannotatedboard::lemma_ids_unique(soko, r, c, r2, c2);
    }
    if p.man == (r, c) {
        assert(true_of(fs, p, m, r, c));
    }
    if p.boxes.contains((r, c)) {
        assert(true_of(fs, p, b, r, c));
    }
}

/// The state of a position shows the position.
pub proof fn lemma_state_shows(soko: SokoAnnotatedBoard, p: Position)
    requires
        soko.wf(),
    ensures
        shows(soko.board@, state_of(soko.board@, p), p),
{
    let fs = soko.board@;
    assert forall|r: int, c: int| in_grid(fs, r, c) && (#[trigger] fs[r][c]).reachable implies {
        &&& state_of(fs, p).contains(man_var(fs, r, c)) == (p.man == (r, c))
        &&& fs[r][c].productive ==> state_of(fs, p).contains(block_var(fs, r, c)) == p.boxes.contains(
            (r, c),
        )
    } by {
        lemma_state_of(soko, p, r, c);
    }
}

/// The initial state of the encoding is the position that the screen shows:
/// on a screen with one pusher, a state is initial exactly if it shows that
/// position. The position is playable.
pub proof fn lemma_initial_shows(soko: SokoAnnotatedBoard, x: Assignment, p: Position)
    requires
        soko.wf(),
        one_man(soko.grid()),
        shown_on(soko.grid(), p),
    ensures
        initial(soko.board@, x) == shows(soko.board@, x, p),
        playable(soko.grid(), p),
{
    let fs = soko.board@;
    let g = soko.grid();
    let (wr, wc) = choose|r: int, c: int| only_man(g, r, c);
    assert(g[p.man.0][p.man.1].has_man());
    assert(p.man == (wr, wc));
    lemma_start_reachable(g, p.man.0, p.man.1);
    assert(!p.boxes.contains(p.man));
    assert forall|r: int, c: int| #[trigger]
        p.boxes.contains((r, c)) && reachable(g, r, c) implies productive(g, r, c) by {
        assert(!crate::sokoannotatedboard::stuck_block(g, r, c));
    }
    if initial(fs, x) {
        assert forall|r: int, c: int| in_grid(fs, r, c) && (#[trigger] fs[r][c]).reachable implies {
            &&& x.contains(man_var(fs, r, c)) == (p.man == (r, c))
            &&& fs[r][c].productive ==> x.contains(block_var(fs, r, c)) == p.boxes.contains((r, c))
        } by {
            lemma_flags(soko, r, c);
            assert(cell_initial(fs, r, c, x));
            assert(g[r][c].has_man() == (p.man == (r, c)));
        }
    }
    if shows(fs, x, p) {
        assert forall|r: int, c: int| in_grid(fs, r, c) implies #[trigger] cell_initial(fs, r, c, x) by {
            lemma_flags(soko, r, c);
            if fs[r][c].reachable {
                assert(g[r][c].has_man() == (p.man == (r, c)));
            }
        }
    }
}

/// A goal state shows a position with a box on every goal that the pusher
/// can reach.
pub proof fn lemma_goal_shows(soko: SokoAnnotatedBoard, x: Assignment, p: Position, r: int, c: int)
    requires
        soko.wf(),
        shows(soko.board@, x, p),
        goal(soko.board@, x),
        on_grid(soko.grid(), r, c),
        soko.grid()[r][c].is_goal(),
        reachable(soko.grid(), r, c),
    ensures
        p.boxes.contains((r, c)),
{
    let fs = soko.board@;
    lemma_flags(soko, r, c);
    lemma_goal_productive(soko.grid(), r, c);
    assert(x.contains(block_var(fs, r, c)));
    assert(fs[r][c].reachable && fs[r][c].productive);
}

/// The state of a solved position is a goal state.
pub proof fn lemma_solved_is_goal(soko: SokoAnnotatedBoard, p: Position)
    requires
        soko.wf(),
        solved(soko.grid(), p),
    ensures
        goal(soko.board@, state_of(soko.board@, p)),
{
    let fs = soko.board@;
    let g = soko.grid();
    assert forall|r: int, c: int| in_grid(fs, r, c) && fs[r][c].field.is_goal() implies state_of(
        fs,
        p,
    ).contains(#[trigger] block_var(fs, r, c)) by {
        lemma_flags(soko, r, c);
        lemma_state_of(soko, p, r, c);
        assert(g[r][c].is_goal());
    }
}

/// The encoding admits the steps `ds` one after another along the states
/// `xs`: from each state to the next by a step in the direction of that
/// place.
pub open spec fn chain(fs: Seq<Vec<AnnotatedField>>, xs: Seq<Assignment>, ds: Seq<Direction>) -> bool {
    &&& xs.len() == ds.len() + 1
    &&& forall|i: int| 0 <= i < ds.len() ==> moves(fs, #[trigger] ds[i], pair(xs[i], xs[i + 1]))
}

/// Every box within the pusher's reach rests on a productive square.
pub open spec fn boxes_productive(g: Grid, p: Position) -> bool {
    forall|r: int, c: int| #[trigger]
        p.boxes.contains((r, c)) && reachable(g, r, c) ==> productive(g, r, c)
}

/// Every box rests on a goal.
pub open spec fn boxes_on_goals(g: Grid, p: Position) -> bool {
    forall|r: int, c: int| #[trigger] p.boxes.contains((r, c)) ==> on_grid(g, r, c) && g[r][c].is_goal()
}

/// The steps of a chain can be played, carefully, from a playable position
/// that the first state shows, and the last state shows where they lead.
pub proof fn lemma_chain_plays(
    soko: SokoAnnotatedBoard,
    xs: Seq<Assignment>,
    ds: Seq<Direction>,
    p: Position,
)
    requires
        soko.wf(),
        playable(soko.grid(), p),
        chain(soko.board@, xs, ds),
        shows(soko.board@, xs[0], p),
    ensures
        play(soko.grid(), p, ds) matches Some(q) && careful_play(soko.grid(), p, ds) == Some(q)
            && shows(soko.board@, xs.last(), q) && playable(soko.grid(), q),
    decreases ds.len(),
{
    if ds.len() > 0 {
        assert(moves(soko.board@, ds[0], pair(xs[0], xs[1])));
        lemma_move_is_step(soko, xs[0], xs[1], p, ds[0]);
        let q = step(soko.grid(), p, ds[0]).unwrap();
        let (xs1, ds1) = (xs.drop_first(), ds.drop_first());
        assert forall|i: int| 0 <= i < ds1.len() implies moves(
            soko.board@,
            #[trigger] ds1[i],
            pair(xs1[i], xs1[i + 1]),
        ) by {
            assert(ds1[i] == ds[i + 1]);
            assert(xs1[i] == xs[i + 1] && xs1[i + 1] == xs[i + 2]);
        }
        assert(xs1[0] == xs[1]);
        assert(xs1.last() == xs.last());
        lemma_chain_plays(soko, xs1, ds1, q);
    }
}

/// Soundness of a solution. On a screen with one pusher and every goal
/// within its reach: if the encoding admits the steps `ds` from an initial
/// state to a goal state, then the steps can be played by the rules of the
/// game from the position that the screen shows, and they end with a box on
/// every goal.
pub proof fn lemma_solution_replays(
    soko: SokoAnnotatedBoard,
    xs: Seq<Assignment>,
    ds: Seq<Direction>,
    p: Position,
)
    requires
        soko.wf(),
        one_man(soko.grid()),
        goals_in_reach(soko.grid()),
        shown_on(soko.grid(), p),
        chain(soko.board@, xs, ds),
        initial(soko.board@, xs[0]),
        goal(soko.board@, xs.last()),
    ensures
        play(soko.grid(), p, ds) matches Some(q) && solved(soko.grid(), q),
{
    let g = soko.grid();
    lemma_initial_shows(soko, xs[0], p);
    lemma_chain_plays(soko, xs, ds, p);
    let q = play(g, p, ds).unwrap();
    assert forall|r: int, c: int| on_grid(g, r, c) && (#[trigger] g[r][c]).is_goal() implies q.boxes.contains(
        (r, c),
    ) by {
        lemma_goal_shows(soko, xs.last(), q, r, c);
    }
}

/// The states of the positions along a careful play form a chain.
pub proof fn lemma_careful_play_is_chain(
    soko: SokoAnnotatedBoard,
    p: Position,
    ds: Seq<Direction>,
    q: Position,
) -> (xs: Seq<Assignment>)
    requires
        soko.wf(),
        playable(soko.grid(), p),
        careful_play(soko.grid(), p, ds) == Some(q),
    ensures
        chain(soko.board@, xs, ds),
        xs[0] == state_of(soko.board@, p),
        xs.last() == state_of(soko.board@, q),
        playable(soko.grid(), q),
    decreases ds.len(),
{
    let fs = soko.board@;
    let x = state_of(fs, p);
    if ds.len() == 0 {
        seq![x]
    } else {
        let p1 = careful_step(soko.grid(), p, ds[0]).unwrap();
        let y = state_of(fs, p1);
        lemma_state_shows(soko, p);
        lemma_state_shows(soko, p1);
        lemma_step_is_move(soko, x, y, p, p1, ds[0]);
        let rest = lemma_careful_play_is_chain(soko, p1, ds.drop_first(), q);
        let xs = seq![x] + rest;
        assert forall|i: int| 0 <= i < ds.len() implies moves(
            fs,
            #[trigger] ds[i],
            pair(xs[i], xs[i + 1]),
        ) by {
            if i > 0 {
                assert(ds[i] == ds.drop_first()[i - 1]);
                assert(xs[i] == rest[i - 1] && xs[i + 1] == rest[i]);
            } else {
                assert(xs[0] == x && xs[1] == rest[0]);
            }
        }
        assert(xs.last() == rest.last());
        xs
    }
}

/// A play that leaves every box within reach on a productive square has
/// never pushed a box off the productive squares: all its steps are careful.
pub proof fn lemma_play_is_careful(g: Grid, p: Position, ds: Seq<Direction>, q: Position)
    requires
        reachable(g, p.man.0, p.man.1),
        play(g, p, ds) == Some(q),
        boxes_productive(g, q),
    ensures
        careful_play(g, p, ds) == Some(q),
        boxes_productive(g, p),
    decreases ds.len(),
{
    if ds.len() > 0 {
        let d = ds[0];
        let p1 = step(g, p, d).unwrap();
        let to = ahead(p.man, d);
        let beyond = ahead(to, d);
        lemma_reachable_step(g, p.man.0, p.man.1, d);
        lemma_play_is_careful(g, p1, ds.drop_first(), q);
        if p.boxes.contains(to) {
            lemma_reachable_step(g, to.0, to.1, d);
            assert(p1.boxes.contains((beyond.0, beyond.1)) && reachable(g, beyond.0, beyond.1));
            assert(productive(g, beyond.0, beyond.1));
            assert(reachable(g, to.0 - d.dr(), to.1 - d.dc()));
            lemma_productive_push(g, to.0, to.1, d);
            assert forall|r: int, c: int| #[trigger]
                p.boxes.contains((r, c)) && reachable(g, r, c) implies productive(g, r, c) by {
                if (r, c) != to {
                    assert(p1.boxes.contains((r, c)));
                }
            }
        }
        assert(careful_step(g, p, d) == Some(p1));
    }
}

/// Completeness of the encoding. On a screen with one pusher: if some play
/// by the rules of the game leads from the position that the screen shows to
/// a position with a box on every goal and every box on a goal, then the
/// encoding admits the steps of that play from an initial state to a goal
/// state. A search that follows the encoded steps from the initial state as
/// far as they lead therefore meets the goal.
pub proof fn lemma_solution_is_chain(
    soko: SokoAnnotatedBoard,
    p: Position,
    ds: Seq<Direction>,
    q: Position,
) -> (xs: Seq<Assignment>)
    requires
        soko.wf(),
        one_man(soko.grid()),
        shown_on(soko.grid(), p),
        play(soko.grid(), p, ds) == Some(q),
        solved(soko.grid(), q),
        boxes_on_goals(soko.grid(), q),
    ensures
        chain(soko.board@, xs, ds),
        initial(soko.board@, xs[0]),
        goal(soko.board@, xs.last()),
{
    let g = soko.grid();
    let fs = soko.board@;
    lemma_initial_shows(soko, state_of(fs, p), p);
    lemma_state_shows(soko, p);
    assert forall|r: int, c: int| #[trigger]
        q.boxes.contains((r, c)) && reachable(g, r, c) implies productive(g, r, c) by {
        lemma_goal_productive(g, r, c);
    }
    lemma_play_is_careful(g, p, ds, q);
    let xs = lemma_careful_play_is_chain(soko, p, ds, q);
    lemma_solved_is_goal(soko, q);
    xs
}

/// `x` is a state of `s` from which the encoding admits a step to `y`.
pub open spec fn leads(fs: Seq<Vec<AnnotatedField>>, s: Set<Assignment>, x: Assignment, y: Assignment) -> bool {
    s.contains(x) && any_move(fs, pair(x, y))
}

/// The image of a set of states: the states one encoded step after a state
/// of the set.
pub open spec fn image(fs: Seq<Vec<AnnotatedField>>, s: Set<Assignment>) -> Set<Assignment> {
    Set::new(|y: Assignment| exists|x: Assignment| leads(fs, s, x, y))
}

/// The states that the forward search has reached after `k` images: the
/// initial states, and with each image the states one step further.
pub open spec fn reached(fs: Seq<Vec<AnnotatedField>>, k: nat) -> Set<Assignment>
    decreases k,
{
    if k == 0 {
        Set::new(|x: Assignment| initial(fs, x))
    } else {
        reached(fs, (k - 1) as nat).union(image(fs, reached(fs, (k - 1) as nat)))
    }
}

/// The search only grows: what is reached after some images is reached
/// after more.
pub proof fn lemma_reached_grows(fs: Seq<Vec<AnnotatedField>>, j: nat, k: nat)
    requires
        j <= k,
    ensures
        reached(fs, j).subset_of(reached(fs, k)),
    decreases k,
{
    if j < k {
        lemma_reached_grows(fs, j, (k - 1) as nat);
    }
}

/// A state reached after `k` images is reached along a chain of at most `k`
/// encoded steps from an initial state.
pub proof fn lemma_reached_by_chain(fs: Seq<Vec<AnnotatedField>>, k: nat, x: Assignment) -> (way: (
    Seq<Assignment>,
    Seq<Direction>,
))
    requires
        reached(fs, k).contains(x),
    ensures
        chain(fs, way.0, way.1),
        way.1.len() <= k,
        initial(fs, way.0[0]),
        way.0.last() == x,
    decreases k,
{
    if k == 0 {
        (seq![x], Seq::empty())
    } else if reached(fs, (k - 1) as nat).contains(x) {
        lemma_reached_by_chain(fs, (k - 1) as nat, x)
    } else {
        let earlier = reached(fs, (k - 1) as nat);
        let before = choose|before: Assignment| leads(fs, earlier, before, x);
        let d = choose|d: Direction| #[trigger] moves(fs, d, pair(before, x));
        let (xs, ds) = lemma_reached_by_chain(fs, (k - 1) as nat, before);
        let (xs1, ds1) = (xs.push(x), ds.push(d));
        assert forall|i: int| 0 <= i < ds1.len() implies moves(
            fs,
            #[trigger] ds1[i],
            pair(xs1[i], xs1[i + 1]),
        ) by {
            if i < ds.len() {
                assert(ds1[i] == ds[i]);
                assert(moves(fs, ds[i], pair(xs[i], xs[i + 1])));
            }
        }
        (xs1, ds1)
    }
}

/// The last state of a chain from an initial state is reached after as many
/// images as the chain has steps.
pub proof fn lemma_chain_is_reached(fs: Seq<Vec<AnnotatedField>>, xs: Seq<Assignment>, ds: Seq<Direction>)
    requires
        chain(fs, xs, ds),
        initial(fs, xs[0]),
    ensures
        reached(fs, ds.len()).contains(xs.last()),
    decreases ds.len(),
{
    if ds.len() > 0 {
        let (xs0, ds0) = (xs.drop_last(), ds.drop_last());
        assert forall|i: int| 0 <= i < ds0.len() implies moves(
            fs,
            #[trigger] ds0[i],
            pair(xs0[i], xs0[i + 1]),
        ) by {
            assert(ds0[i] == ds[i]);
        }
        lemma_chain_is_reached(fs, xs0, ds0);
        let n = ds.len() - 1;
        assert(xs0.last() == xs[n]);
        assert(moves(fs, ds[n], pair(xs[n], xs[n + 1])));
        assert(any_move(fs, pair(xs[n], xs.last())));
        assert(leads(fs, reached(fs, n as nat), xs[n], xs.last()));
        assert(image(fs, reached(fs, n as nat)).contains(xs.last()));
    }
}

/// Once an image adds nothing, no image ever will.
pub proof fn lemma_fixed_point(fs: Seq<Vec<AnnotatedField>>, k: nat, j: nat)
    requires
        reached(fs, k + 1) == reached(fs, k),
        k <= j,
    ensures
        reached(fs, j) == reached(fs, k),
    decreases j,
{
    if k < j {
        lemma_fixed_point(fs, k, (j - 1) as nat);
        assert(reached(fs, j) == reached(fs, (j - 1) as nat).union(
            image(fs, reached(fs, (j - 1) as nat)),
        ));
        assert(reached(fs, k + 1) == reached(fs, k).union(image(fs, reached(fs, k))));
    }
}

/// Soundness of the search. On a screen with one pusher and every goal
/// within its reach: if a state reached after `k` images is a goal state,
/// then at most `k` steps, played by the rules of the game from the position
/// that the screen shows, put a box on every goal.
pub proof fn lemma_won_is_solvable(soko: SokoAnnotatedBoard, k: nat, x: Assignment, p: Position) -> (ds:
    Seq<Direction>)
    requires
        soko.wf(),
        one_man(soko.grid()),
        goals_in_reach(soko.grid()),
        shown_on(soko.grid(), p),
        reached(soko.board@, k).contains(x),
        goal(soko.board@, x),
    ensures
        ds.len() <= k,
        play(soko.grid(), p, ds) matches Some(q) && solved(soko.grid(), q),
{
    let (xs, ds) = lemma_reached_by_chain(soko.board@, k, x);
    lemma_solution_replays(soko, xs, ds, p);
    ds
}

/// Completeness of the search. On a screen with one pusher: if an image
/// adds nothing to the states reached and none of them is a goal state, then
/// no play by the rules of the game leads from the position that the screen
/// shows to a position with a box on every goal and every box on a goal.
pub proof fn lemma_lost_is_unsolvable(
    soko: SokoAnnotatedBoard,
    k: nat,
    p: Position,
    ds: Seq<Direction>,
)
    requires
        soko.wf(),
        one_man(soko.grid()),
        shown_on(soko.grid(), p),
        reached(soko.board@, k + 1) == reached(soko.board@, k),
        forall|x: Assignment| #[trigger] reached(soko.board@, k).contains(x) ==> !goal(soko.board@, x),
    ensures
        !(play(soko.grid(), p, ds) matches Some(q) && solved(soko.grid(), q) && boxes_on_goals(
            soko.grid(),
            q,
        )),
{
    let fs = soko.board@;
    if play(soko.grid(), p, ds) matches Some(q) && solved(soko.grid(), q) && boxes_on_goals(
        soko.grid(),
        q,
    ) {
        let q = play(soko.grid(), p, ds).unwrap();
        let xs = lemma_solution_is_chain(soko, p, ds, q);
        lemma_chain_is_reached(fs, xs, ds);
        if ds.len() <= k {
            lemma_reached_grows(fs, ds.len(), k);
        } else {
            lemma_fixed_point(fs, k, ds.len());
        }
        assert(reached(fs, k).contains(xs.last()));
    }
}

} // verus!
