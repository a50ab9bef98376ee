use crate::bdd::{Assignment, Bdd};
use crate::direction::{in_grid, valid_index, Direction};
use crate::grid::lemma_cell_index_unique;
use crate::scan::{all_before, any_before, before, lemma_before_steps};
use crate::sokoannotatedboard::{annotation, AnnotatedField, SokoAnnotatedBoard};
use vstd::prelude::*;

verus! {

/// Every square has its two variables, and the variable after each fits too.
pub open spec fn ids_assigned(fs: Seq<Vec<AnnotatedField>>) -> bool {
    forall|r: int, c: int| #[trigger]
        in_grid(fs, r, c) ==> {
            &&& fs[r][c].man_id matches Some(m) && m < u32::MAX
            &&& fs[r][c].block_id matches Some(b) && b < u32::MAX
        }
}

/// The variable "the pusher is on `(r, c)` now"; one more is the same after
/// the step.
pub open spec fn man_var(fs: Seq<Vec<AnnotatedField>>, r: int, c: int) -> int {
    fs[r][c].man_id.unwrap() as int
}

/// The variable "a box is on `(r, c)` now"; one more is the same after the
/// step.
pub open spec fn block_var(fs: Seq<Vec<AnnotatedField>>, r: int, c: int) -> int {
    fs[r][c].block_id.unwrap() as int
}

/// The squares that a list names.
pub open spec fn cells_of(except: Seq<(usize, usize)>) -> Set<(int, int)> {
    Set::new(
        |p: (int, int)|
            exists|i: int| 0 <= i < except.len() && #[trigger] except[i].0 == p.0 && except[i].1 == p.1,
    )
}

/// The list names squares of the grid, none of them twice.
pub open spec fn distinct_cells(fs: Seq<Vec<AnnotatedField>>, except: Seq<(usize, usize)>) -> bool {
    &&& forall|i: int|
        0 <= i < except.len() ==> in_grid(fs, (#[trigger] except[i]).0 as int, except[i].1 as int)
    &&& forall|i: int, j: int|
        0 <= i < j < except.len() ==> #[trigger] except[i] != #[trigger] except[j]
}

/// Square `(r, c)` looks the same before and after the step: the pusher is
/// there both times or neither, and so is a box.
pub open spec fn cell_unchanged(fs: Seq<Vec<AnnotatedField>>, r: int, c: int, a: Assignment) -> bool {
    fs[r][c].reachable ==> {
        &&& a.contains(man_var(fs, r, c)) == a.contains(man_var(fs, r, c) + 1)
        &&& fs[r][c].productive ==> a.contains(block_var(fs, r, c)) == a.contains(
            block_var(fs, r, c) + 1,
        )
    }
}

/// The frame condition: every square outside `except` is unchanged.
pub open spec fn frame(fs: Seq<Vec<AnnotatedField>>, except: Set<(int, int)>, a: Assignment) -> bool {
    forall|r: int, c: int|
        in_grid(fs, r, c) && !except.contains((r, c)) ==> #[trigger] cell_unchanged(fs, r, c, a)
}

/// "`(r, c)` is excepted or unchanged" as a function of the square.
pub open spec fn unchanged_at(
    fs: Seq<Vec<AnnotatedField>>,
    except: Set<(int, int)>,
    a: Assignment,
) -> spec_fn(int, int) -> bool {
    |r: int, c: int| except.contains((r, c)) || cell_unchanged(fs, r, c, a)
}

/// The box variable of square `(row, col)`.
pub fn block_var_at(fields: &[Vec<AnnotatedField>], row: usize, col: usize) -> (id: u32)
    requires
        in_grid(fields@, row as int, col as int),
        fields[row as int][col as int].block_id is Some,
    ensures
        id == block_var(fields@, row as int, col as int),
{
    fields[row][col].block_id.unwrap()
}

/// The pusher variable of square `(row, col)`.
pub fn man_var_at(fields: &[Vec<AnnotatedField>], row: usize, col: usize) -> (id: u32)
    requires
        in_grid(fields@, row as int, col as int),
        fields[row as int][col as int].man_id is Some,
    ensures
        id == man_var(fields@, row as int, col as int),
{
    fields[row][col].man_id.unwrap()
}

/// The pusher is on `(row, col)` after the step exactly if it is there before.
pub fn same_man(fields: &[Vec<AnnotatedField>], row: usize, col: usize) -> (r: Bdd)
    requires
        in_grid(fields@, row as int, col as int),
        ids_assigned(fields@),
    ensures
        forall|a: Assignment| #[trigger]
            r.holds(a) == (a.contains(man_var(fields@, row as int, col as int)) == a.contains(
                man_var(fields@, row as int, col as int) + 1,
            )),
{
    let mva = man_var_at(fields, row, col);
    Bdd::fromId(mva).biimp(Bdd::fromId(mva + 1))
}

/// A box is on `(row, col)` after the step exactly if one is there before.
pub fn same_block(fields: &[Vec<AnnotatedField>], row: usize, col: usize) -> (r: Bdd)
    requires
        in_grid(fields@, row as int, col as int),
        ids_assigned(fields@),
    ensures
        forall|a: Assignment| #[trigger]
            r.holds(a) == (a.contains(block_var(fields@, row as int, col as int)) == a.contains(
                block_var(fields@, row as int, col as int) + 1,
            )),
{
    let bva = block_var_at(fields, row, col);
    Bdd::fromId(bva).biimp(Bdd::fromId(bva + 1))
}

/// Whether the list names `(row, col)`.
fn excepted(except: &[(usize, usize)], row: usize, col: usize) -> (b: bool)
    ensures
        b == cells_of(except@).contains((row as int, col as int)),
{
    let mut i: usize = 0;
    while i < except.len()
        invariant
            i <= except.len(),
            forall|j: int| 0 <= j < i ==> !(#[trigger] except[j].0 == row && except[j].1 == col),
        decreases except.len() - i,
    {
        if except[i].0 == row && except[i].1 == col {
            return true;
        }
        i += 1;
    }
    false
}

/// The frame condition as a function: every reachable square outside
/// `except` keeps the pusher as it was, and every productive one of them
/// keeps its box as it was. The list names squares of the grid, each of them
/// once, so that as many squares are left out as the list is long.
pub fn everything_else_same(fields: &[Vec<AnnotatedField>], except: &[(usize, usize)]) -> (result: Bdd)
    requires
        ids_assigned(fields@),
        distinct_cells(fields@, except@),
    ensures
        forall|a: Assignment| #[trigger] result.holds(a) == frame(fields@, cells_of(except@), a),
{
    let ghost fs = fields@;
    let ghost ex = cells_of(except@);
    let mut result = Bdd::bddTrue();
    let mut row: usize = 0;
    while row < fields.len()
        invariant
            row <= fields.len(),
            fs == fields@,
            ex == cells_of(except@),
            ids_assigned(fs),
            forall|a: Assignment| #[trigger] result.holds(a) == all_before(fs, unchanged_at(fs, ex, a), row as int, 0),
        decreases fields.len() - row,
    {
        let mut col: usize = 0;
        while col < fields[row].len()
            invariant
                row < fields.len(),
                col <= fields[row as int].len(),
                fs == fields@,
                ex == cells_of(except@),
                ids_assigned(fs),
                forall|a: Assignment| #[trigger]
                    result.holds(a) == all_before(fs, unchanged_at(fs, ex, a), row as int, col as int),
            decreases fields[row as int].len() - col,
        {
            assert(in_grid(fs, row as int, col as int));
            if !excepted(except, row, col) {
                if fields[row][col].reachable {
                    result = result.and(same_man(fields, row, col));
                    if fields[row][col].productive {
                        result = result.and(same_block(fields, row, col));
                    }
                }
            }
            proof {
                assert forall|a: Assignment| #[trigger]
                    result.holds(a) == all_before(fs, unchanged_at(fs, ex, a), row as int, col + 1) by {
                    lemma_before_steps(fs, unchanged_at(fs, ex, a), row as int, col as int);
                }
            }
            col += 1;
        }
        proof {
            assert forall|a: Assignment| #[trigger]
                result.holds(a) == all_before(fs, unchanged_at(fs, ex, a), row + 1, 0) by {
                lemma_before_steps(fs, unchanged_at(fs, ex, a), row as int, col as int);
            }
        }
        row += 1;
    }
    proof {
        assert forall|a: Assignment| #[trigger] result.holds(a) == frame(fs, ex, a) by {
            assert(forall|r: int, c: int| in_grid(fs, r, c) ==> before(r, c, row as int, 0));
            assert(forall|r: int, c: int|
                unchanged_at(fs, ex, a)(r, c) == (ex.contains((r, c)) || cell_unchanged(fs, r, c, a)));
        }
    }
    result
}

/// The pusher leaves `(r, c)` and arrives on `(tr, tc)`.
pub open spec fn man_moves(
    fs: Seq<Vec<AnnotatedField>>,
    r: int,
    c: int,
    tr: int,
    tc: int,
    a: Assignment,
) -> bool {
    &&& a.contains(man_var(fs, r, c))
    &&& !a.contains(man_var(fs, tr, tc))
    &&& !a.contains(man_var(fs, r, c) + 1)
    &&& a.contains(man_var(fs, tr, tc) + 1)
}

/// A box leaves `(tr, tc)` and arrives on `(pr, pc)`, which was free.
pub open spec fn block_moves(
    fs: Seq<Vec<AnnotatedField>>,
    tr: int,
    tc: int,
    pr: int,
    pc: int,
    a: Assignment,
) -> bool {
    &&& a.contains(block_var(fs, tr, tc))
    &&& !a.contains(block_var(fs, pr, pc))
    &&& !a.contains(block_var(fs, tr, tc) + 1)
    &&& a.contains(block_var(fs, pr, pc) + 1)
}

/// No box is on `(r, c)`, neither before nor after the step. Says nothing of
/// a square that is not productive: such a square has no box variable in use.
pub open spec fn no_block(fs: Seq<Vec<AnnotatedField>>, r: int, c: int, a: Assignment) -> bool {
    fs[r][c].productive ==> !a.contains(block_var(fs, r, c)) && !a.contains(
        block_var(fs, r, c) + 1,
    )
}

/// The pusher may try a step from `(r, c)` in direction `d`: both the square
/// and its neighbour are reachable squares of the grid.
pub open spec fn can_step(fs: Seq<Vec<AnnotatedField>>, r: int, c: int, d: Direction) -> bool {
    &&& in_grid(fs, r, c)
    &&& fs[r][c].reachable
    &&& in_grid(fs, r + d.dr(), c + d.dc())
    &&& fs[r + d.dr()][c + d.dc()].reachable
}

/// The pusher walks from `(r, c)` one step in direction `d`, onto a square
/// without a box; nothing else changes.
pub open spec fn walk(fs: Seq<Vec<AnnotatedField>>, r: int, c: int, d: Direction, a: Assignment) -> bool {
    let (tr, tc) = (r + d.dr(), c + d.dc());
    &&& man_moves(fs, r, c, tr, tc, a)
    &&& no_block(fs, r, c, a)
    &&& no_block(fs, tr, tc, a)
    &&& frame(fs, set![(r, c), (tr, tc)], a)
}

/// The pusher steps from `(r, c)` in direction `d` and pushes the box on the
/// next square one square further, onto a productive square; nothing else
/// changes.
pub open spec fn push(fs: Seq<Vec<AnnotatedField>>, r: int, c: int, d: Direction, a: Assignment) -> bool {
    let (tr, tc) = (r + d.dr(), c + d.dc());
    let (pr, pc) = (r + 2 * d.dr(), c + 2 * d.dc());
    &&& in_grid(fs, pr, pc)
    &&& fs[pr][pc].productive
    &&& man_moves(fs, r, c, tr, tc, a)
    &&& block_moves(fs, tr, tc, pr, pc, a)
    &&& no_block(fs, r, c, a)
    &&& a.contains(man_var(fs, pr, pc)) == a.contains(man_var(fs, pr, pc) + 1)
    &&& frame(fs, set![(r, c), (tr, tc), (pr, pc)], a)
}

/// One step of the pusher from `(r, c)` in direction `d`, with or without a
/// push. Variable `v` speaks of the state before the step, `v + 1` of the
/// state after it.
pub open spec fn transition(
    fs: Seq<Vec<AnnotatedField>>,
    r: int,
    c: int,
    d: Direction,
    a: Assignment,
) -> bool {
    can_step(fs, r, c, d) && (walk(fs, r, c, d, a) || push(fs, r, c, d, a))
}

/// The pusher leaves `here` and arrives on `there`.
fn man_moves_bdd(fields: &[Vec<AnnotatedField>], here: (usize, usize), there: (usize, usize)) -> (r: Bdd)
    requires
        ids_assigned(fields@),
        in_grid(fields@, here.0 as int, here.1 as int),
        in_grid(fields@, there.0 as int, there.1 as int),
    ensures
        forall|a: Assignment| #[trigger]
            r.holds(a) == man_moves(
                fields@,
                here.0 as int,
                here.1 as int,
                there.0 as int,
                there.1 as int,
                a,
            ),
{
    let mva0 = man_var_at(fields, here.0, here.1);
    let current_man = Bdd::fromId(mva0);
    let next_man = Bdd::fromId(mva0 + 1);
    let mva1 = man_var_at(fields, there.0, there.1);
    let current_man_dxdy = Bdd::fromId(mva1);
    let next_man_dxdy = Bdd::fromId(mva1 + 1);
    current_man.and(current_man_dxdy.not()).and(next_man.not()).and(next_man_dxdy)
}

/// A box leaves `there` and arrives on `beyond`, which was free.
fn block_moves_bdd(fields: &[Vec<AnnotatedField>], there: (usize, usize), beyond: (usize, usize)) -> (r:
    Bdd)
    requires
        ids_assigned(fields@),
        in_grid(fields@, there.0 as int, there.1 as int),
        in_grid(fields@, beyond.0 as int, beyond.1 as int),
    ensures
        forall|a: Assignment| #[trigger]
            r.holds(a) == block_moves(
                fields@,
                there.0 as int,
                there.1 as int,
                beyond.0 as int,
                beyond.1 as int,
                a,
            ),
{
    let bva1 = block_var_at(fields, there.0, there.1);
    let current_block_dxdy = Bdd::fromId(bva1);
    let next_block_dxdy = Bdd::fromId(bva1 + 1);
    let bva2 = block_var_at(fields, beyond.0, beyond.1);
    let current_block_2dxdy = Bdd::fromId(bva2);
    let next_block_2dxdy = Bdd::fromId(bva2 + 1);
    current_block_dxdy.and(current_block_2dxdy.not()).and(next_block_dxdy.not()).and(
        next_block_2dxdy,
    )
}

/// No box is on `here`, neither before nor after the step; true of a square
/// that is not productive.
fn no_block_bdd(fields: &[Vec<AnnotatedField>], here: (usize, usize)) -> (r: Bdd)
    requires
        ids_assigned(fields@),
        in_grid(fields@, here.0 as int, here.1 as int),
    ensures
        forall|a: Assignment| #[trigger] r.holds(a) == no_block(fields@, here.0 as int, here.1 as int, a),
{
    if fields[here.0][here.1].productive {
        let bva0 = block_var_at(fields, here.0, here.1);
        let current_block = Bdd::fromId(bva0);
        let next_block = Bdd::fromId(bva0 + 1);
        current_block.not().and(next_block.not())
    } else {
        Bdd::bddTrue()
    }
}

/// The steps of the pusher from `(row, col)` in direction `dir`: the walk
/// onto a free neighbour, or the push of the box on the neighbour onto the
/// square behind it. False if the pusher cannot stand on `(row, col)` or on
/// the neighbour.
pub fn to_bdd_transitions(row: usize, col: usize, dir: Direction, fields: &[Vec<AnnotatedField>]) -> (result:
    Bdd)
    requires
        ids_assigned(fields@),
    ensures
        forall|a: Assignment| #[trigger]
            result.holds(a) == transition(fields@, row as int, col as int, dir, a),
{
    if !valid_index(row, col, fields) || !fields[row][col].reachable {
        return Bdd::bddFalse();
    }
    let here = (row, col);
    let there = match dir.step(row, col, fields) {
        Some(there) => there,
        None => {
            return Bdd::bddFalse();
        },
    };
    if !fields[there.0][there.1].reachable {
        return Bdd::bddFalse();
    }
    let ghost fs = fields@;
    let no_block_here = no_block_bdd(fields, here);
    let no_block_there = no_block_bdd(fields, there);
    let except_2 = vec![here, there];
    proof {
        assert(cells_of(except_2@) =~= set![(row as int, col as int), (there.0 as int, there.1 as int)])
            by {
            assert(except_2@[0] == here);
            assert(except_2@[1] == there);
        }
    }
    let everything_same_2 = everything_else_same(fields, except_2.as_slice());
    let mut result = man_moves_bdd(fields, here, there).and(no_block_here).and(no_block_there).and(
        everything_same_2,
    );
    assert(forall|a: Assignment| #[trigger]
        result.holds(a) == walk(fs, row as int, col as int, dir, a));
    if let Some(beyond) = dir.step(there.0, there.1, fields) {
        if fields[beyond.0][beyond.1].productive {
            let except_3 = vec![here, there, beyond];
            proof {
                assert(cells_of(except_3@) =~= set![
                    (row as int, col as int),
                    (there.0 as int, there.1 as int),
                    (beyond.0 as int, beyond.1 as int),
                ]) by {
                    assert(except_3@[0] == here);
                    assert(except_3@[1] == there);
                    assert(except_3@[2] == beyond);
                }
            }
            let everything_same_3 = everything_else_same(fields, except_3.as_slice());
            let man_2dxdy_same = same_man(fields, beyond.0, beyond.1);
            let pushed = man_moves_bdd(fields, here, there).and(
                block_moves_bdd(fields, there, beyond),
            ).and(no_block_bdd(fields, here)).and(man_2dxdy_same).and(everything_same_3);
            assert(forall|a: Assignment| #[trigger]
                pushed.holds(a) == push(fs, row as int, col as int, dir, a));
            result = result.or(pushed);
        }
    }
    result
}

/// What the pusher and the boxes are at the start, square by square.
pub open spec fn cell_initial(fs: Seq<Vec<AnnotatedField>>, r: int, c: int, a: Assignment) -> bool {
    fs[r][c].reachable ==> {
        &&& a.contains(man_var(fs, r, c)) == fs[r][c].field.has_man()
        &&& fs[r][c].productive ==> a.contains(block_var(fs, r, c)) == fs[r][c].field.has_block()
    }
}

/// The initial state: the pusher variable of every reachable square, and the
/// box variable of every reachable productive one, says what the board shows.
pub open spec fn initial(fs: Seq<Vec<AnnotatedField>>, a: Assignment) -> bool {
    forall|r: int, c: int| in_grid(fs, r, c) ==> #[trigger] cell_initial(fs, r, c, a)
}

/// `cell_initial` as a function of the square.
pub open spec fn initial_at(fs: Seq<Vec<AnnotatedField>>, a: Assignment) -> spec_fn(int, int) -> bool {
    |r: int, c: int| cell_initial(fs, r, c, a)
}

/// The initial state as a function.
pub fn to_bdd_init(fields: &[Vec<AnnotatedField>]) -> (result: Bdd)
    requires
        ids_assigned(fields@),
    ensures
        forall|a: Assignment| #[trigger] result.holds(a) == initial(fields@, a),
{
    let ghost fs = fields@;
    let mut result = Bdd::bddTrue();
    let mut row: usize = 0;
    while row < fields.len()
        invariant
            row <= fields.len(),
            fs == fields@,
            ids_assigned(fs),
            forall|a: Assignment| #[trigger]
                result.holds(a) == all_before(fs, initial_at(fs, a), row as int, 0),
        decreases fields.len() - row,
    {
        let mut col: usize = 0;
        while col < fields[row].len()
            invariant
                row < fields.len(),
                col <= fields[row as int].len(),
                fs == fields@,
                ids_assigned(fs),
                forall|a: Assignment| #[trigger]
                    result.holds(a) == all_before(fs, initial_at(fs, a), row as int, col as int),
            decreases fields[row as int].len() - col,
        {
            assert(in_grid(fs, row as int, col as int));
            let field = &fields[row][col];
            if field.reachable {
                let man = Bdd::fromId(man_var_at(fields, row, col));
                if field.hasMan() {
                    result = result.and(man);
                } else {
                    result = result.and(man.not());
                }
                if field.productive {
                    let block = Bdd::fromId(block_var_at(fields, row, col));
                    if field.hasBlock() {
                        result = result.and(block);
                    } else {
                        result = result.and(block.not());
                    }
                }
            }
            proof {
                assert forall|a: Assignment| #[trigger]
                    result.holds(a) == all_before(fs, initial_at(fs, a), row as int, col + 1) by {
                    lemma_before_steps(fs, initial_at(fs, a), row as int, col as int);
                }
            }
            col += 1;
        }
        proof {
            assert forall|a: Assignment| #[trigger]
                result.holds(a) == all_before(fs, initial_at(fs, a), row + 1, 0) by {
                lemma_before_steps(fs, initial_at(fs, a), row as int, col as int);
            }
        }
        row += 1;
    }
    proof {
        assert forall|a: Assignment| #[trigger] result.holds(a) == initial(fs, a) by {
            assert(forall|r: int, c: int| in_grid(fs, r, c) ==> before(r, c, row as int, 0));
            assert(forall|r: int, c: int| initial_at(fs, a)(r, c) == cell_initial(fs, r, c, a));
        }
    }
    result
}

/// The goal: a box on every goal square.
pub open spec fn goal(fs: Seq<Vec<AnnotatedField>>, a: Assignment) -> bool {
    forall|r: int, c: int|
        in_grid(fs, r, c) && fs[r][c].field.is_goal() ==> a.contains(#[trigger] block_var(fs, r, c))
}

/// "`(r, c)` is no goal or holds a box" as a function of the square.
pub open spec fn goal_at(fs: Seq<Vec<AnnotatedField>>, a: Assignment) -> spec_fn(int, int) -> bool {
    |r: int, c: int| fs[r][c].field.is_goal() ==> a.contains(block_var(fs, r, c))
}

/// The goal as a function.
pub fn to_bdd_goal(fields: &[Vec<AnnotatedField>]) -> (result: Bdd)
    requires
        ids_assigned(fields@),
    ensures
        forall|a: Assignment| #[trigger] result.holds(a) == goal(fields@, a),
{
    let ghost fs = fields@;
    let mut result = Bdd::bddTrue();
    let mut row: usize = 0;
    while row < fields.len()
        invariant
            row <= fields.len(),
            fs == fields@,
            ids_assigned(fs),
            forall|a: Assignment| #[trigger]
                result.holds(a) == all_before(fs, goal_at(fs, a), row as int, 0),
        decreases fields.len() - row,
    {
        let mut col: usize = 0;
        while col < fields[row].len()
            invariant
                row < fields.len(),
                col <= fields[row as int].len(),
                fs == fields@,
                ids_assigned(fs),
                forall|a: Assignment| #[trigger]
                    result.holds(a) == all_before(fs, goal_at(fs, a), row as int, col as int),
            decreases fields[row as int].len() - col,
        {
            assert(in_grid(fs, row as int, col as int));
            if fields[row][col].isGoal() {
                result = result.and(Bdd::fromId(block_var_at(fields, row, col)));
            }
            proof {
                assert forall|a: Assignment| #[trigger]
                    result.holds(a) == all_before(fs, goal_at(fs, a), row as int, col + 1) by {
                    lemma_before_steps(fs, goal_at(fs, a), row as int, col as int);
                }
            }
            col += 1;
        }
        proof {
            assert forall|a: Assignment| #[trigger]
                result.holds(a) == all_before(fs, goal_at(fs, a), row + 1, 0) by {
                lemma_before_steps(fs, goal_at(fs, a), row as int, col as int);
            }
        }
        row += 1;
    }
    proof {
        assert forall|a: Assignment| #[trigger] result.holds(a) == goal(fs, a) by {
            assert(forall|r: int, c: int| in_grid(fs, r, c) ==> before(r, c, row as int, 0));
            assert(forall|r: int, c: int|
                goal_at(fs, a)(r, c) == (fs[r][c].field.is_goal() ==> a.contains(
                    block_var(fs, r, c),
                )));
            if all_before(fs, goal_at(fs, a), row as int, 0) {
                assert forall|r: int, c: int|
                    in_grid(fs, r, c) && fs[r][c].field.is_goal() implies a.contains(
                    #[trigger] block_var(fs, r, c),
                ) by {
                    assert(goal_at(fs, a)(r, c));
                }
            }
        }
    }
    result
}

/// Some step of the pusher in direction `d`, from whatever square.
pub open spec fn moves(fs: Seq<Vec<AnnotatedField>>, d: Direction, a: Assignment) -> bool {
    exists|r: int, c: int| in_grid(fs, r, c) && #[trigger] transition(fs, r, c, d, a)
}

/// `transition` as a function of the square the pusher leaves.
pub open spec fn transition_at(
    fs: Seq<Vec<AnnotatedField>>,
    d: Direction,
    a: Assignment,
) -> spec_fn(int, int) -> bool {
    |r: int, c: int| transition(fs, r, c, d, a)
}

/// All steps of the pusher in one direction, as a function.
pub fn to_bdd_trans_direction(fields: &[Vec<AnnotatedField>], dir: Direction) -> (result: Bdd)
    requires
        ids_assigned(fields@),
    ensures
        forall|a: Assignment| #[trigger] result.holds(a) == moves(fields@, dir, a),
{
    let ghost fs = fields@;
    let mut result = Bdd::bddFalse();
    let mut row: usize = 0;
    while row < fields.len()
        invariant
            row <= fields.len(),
            fs == fields@,
            ids_assigned(fs),
            forall|a: Assignment| #[trigger]
                result.holds(a) == any_before(fs, transition_at(fs, dir, a), row as int, 0),
        decreases fields.len() - row,
    {
        let mut col: usize = 0;
        while col < fields[row].len()
            invariant
                row < fields.len(),
                col <= fields[row as int].len(),
                fs == fields@,
                ids_assigned(fs),
                forall|a: Assignment| #[trigger]
                    result.holds(a) == any_before(
                        fs,
                        transition_at(fs, dir, a),
                        row as int,
                        col as int,
                    ),
            decreases fields[row as int].len() - col,
        {
            if fields[row][col].reachable {
                result = result.or(to_bdd_transitions(row, col, dir, fields));
            }
            proof {
                assert forall|a: Assignment| #[trigger]
                    result.holds(a) == any_before(
                        fs,
                        transition_at(fs, dir, a),
                        row as int,
                        col + 1,
                    ) by {
                    lemma_before_steps(fs, transition_at(fs, dir, a), row as int, col as int);
                }
            }
            col += 1;
        }
        proof {
            assert forall|a: Assignment| #[trigger]
                result.holds(a) == any_before(fs, transition_at(fs, dir, a), row + 1, 0) by {
                lemma_before_steps(fs, transition_at(fs, dir, a), row as int, col as int);
            }
        }
        row += 1;
    }
    proof {
        assert forall|a: Assignment| #[trigger] result.holds(a) == moves(fs, dir, a) by {
            assert(forall|r: int, c: int| in_grid(fs, r, c) ==> before(r, c, row as int, 0));
            assert(forall|r: int, c: int|
                transition_at(fs, dir, a)(r, c) == transition(fs, r, c, dir, a));
            if moves(fs, dir, a) {
                let (r, c) = choose|r: int, c: int|
                    in_grid(fs, r, c) && #[trigger] transition(fs, r, c, dir, a);
                assert(transition_at(fs, dir, a)(r, c));
            }
        }
    }
    result
}

/// All steps upwards.
pub fn to_bdd_trans_up(fields: &[Vec<AnnotatedField>]) -> (result: Bdd)
    requires
        ids_assigned(fields@),
    ensures
        forall|a: Assignment| #[trigger] result.holds(a) == moves(fields@, Direction::Up, a),
{
    to_bdd_trans_direction(fields, Direction::Up)
}

/// All steps downwards.
pub fn to_bdd_trans_down(fields: &[Vec<AnnotatedField>]) -> (result: Bdd)
    requires
        ids_assigned(fields@),
    ensures
        forall|a: Assignment| #[trigger] result.holds(a) == moves(fields@, Direction::Down, a),
{
    to_bdd_trans_direction(fields, Direction::Down)
}

/// All steps to the left.
pub fn to_bdd_trans_left(fields: &[Vec<AnnotatedField>]) -> (result: Bdd)
    requires
        ids_assigned(fields@),
    ensures
        forall|a: Assignment| #[trigger] result.holds(a) == moves(fields@, Direction::Left, a),
{
    to_bdd_trans_direction(fields, Direction::Left)
}

/// All steps to the right.
pub fn to_bdd_trans_right(fields: &[Vec<AnnotatedField>]) -> (result: Bdd)
    requires
        ids_assigned(fields@),
    ensures
        forall|a: Assignment| #[trigger] result.holds(a) == moves(fields@, Direction::Right, a),
{
    to_bdd_trans_direction(fields, Direction::Right)
}

/// Some step of the pusher, in whatever direction.
pub open spec fn any_move(fs: Seq<Vec<AnnotatedField>>, a: Assignment) -> bool {
    exists|d: Direction| #[trigger] moves(fs, d, a)
}

/// The whole transition relation, as a function.
pub fn to_bdd_trans(fields: &[Vec<AnnotatedField>]) -> (result: Bdd)
    requires
        ids_assigned(fields@),
    ensures
        forall|a: Assignment| #[trigger] result.holds(a) == any_move(fields@, a),
{
    let up = to_bdd_trans_up(fields);
    let down = to_bdd_trans_down(fields);
    let left = to_bdd_trans_left(fields);
    let right = to_bdd_trans_right(fields);
    let result = up.or(down).or(left).or(right);
    proof {
        assert forall|a: Assignment| #[trigger] result.holds(a) == any_move(fields@, a) by {
            if any_move(fields@, a) {
                let d = choose|d: Direction| #[trigger] moves(fields@, d, a);
                assert(d == Direction::Up || d == Direction::Down || d == Direction::Left || d
                    == Direction::Right);
            }
        }
    }
    result
}

/// Some variable that speaks of the state before a step is true: the pusher
/// variable of a reachable square, or the box variable of a reachable
/// productive one.
pub open spec fn some_current_var(fs: Seq<Vec<AnnotatedField>>, a: Assignment) -> bool {
    exists|r: int, c: int| in_grid(fs, r, c) && #[trigger] current_var(fs, r, c, a)
}

/// A variable of `(r, c)` that speaks of the state before a step is true.
pub open spec fn current_var(fs: Seq<Vec<AnnotatedField>>, r: int, c: int, a: Assignment) -> bool {
    fs[r][c].reachable && (a.contains(man_var(fs, r, c)) || (fs[r][c].productive && a.contains(
        block_var(fs, r, c),
    )))
}

/// `current_var` as a function of the square.
pub open spec fn current_var_at(fs: Seq<Vec<AnnotatedField>>, a: Assignment) -> spec_fn(int, int) -> bool {
    |r: int, c: int| current_var(fs, r, c, a)
}

/// The variables to quantify over in an image, as the disjunction of their
/// literals: every variable that speaks of the state before a step.
pub fn all_vars(fields: &[Vec<AnnotatedField>]) -> (result: Bdd)
    requires
        ids_assigned(fields@),
    ensures
        forall|a: Assignment| #[trigger] result.holds(a) == some_current_var(fields@, a),
{
    let ghost fs = fields@;
    let mut result = Bdd::bddFalse();
    let mut row: usize = 0;
    while row < fields.len()
        invariant
            row <= fields.len(),
            fs == fields@,
            ids_assigned(fs),
            forall|a: Assignment| #[trigger]
                result.holds(a) == any_before(fs, current_var_at(fs, a), row as int, 0),
        decreases fields.len() - row,
    {
        let mut col: usize = 0;
        while col < fields[row].len()
            invariant
                row < fields.len(),
                col <= fields[row as int].len(),
                fs == fields@,
                ids_assigned(fs),
                forall|a: Assignment| #[trigger]
                    result.holds(a) == any_before(fs, current_var_at(fs, a), row as int, col as int),
            decreases fields[row as int].len() - col,
        {
            assert(in_grid(fs, row as int, col as int));
            if fields[row][col].reachable {
                let mva = man_var_at(fields, row, col);
                result = result.or(Bdd::fromId(mva));
                if fields[row][col].productive {
                    let bva = block_var_at(fields, row, col);
                    result = result.or(Bdd::fromId(bva));
                }
            }
            proof {
                assert forall|a: Assignment| #[trigger]
                    result.holds(a) == any_before(fs, current_var_at(fs, a), row as int, col + 1) by {
                    lemma_before_steps(fs, current_var_at(fs, a), row as int, col as int);
                }
            }
            col += 1;
        }
        proof {
            assert forall|a: Assignment| #[trigger]
                result.holds(a) == any_before(fs, current_var_at(fs, a), row + 1, 0) by {
                lemma_before_steps(fs, current_var_at(fs, a), row as int, col as int);
            }
        }
        row += 1;
    }
    proof {
        assert forall|a: Assignment| #[trigger] result.holds(a) == some_current_var(fs, a) by {
            assert(forall|r: int, c: int| in_grid(fs, r, c) ==> before(r, c, row as int, 0));
            assert(forall|r: int, c: int| current_var_at(fs, a)(r, c) == current_var(fs, r, c, a));
            if some_current_var(fs, a) {
                let (r, c) = choose|r: int, c: int|
                    in_grid(fs, r, c) && #[trigger] current_var(fs, r, c, a);
                assert(current_var_at(fs, a)(r, c));
            }
        }
    }
    result
}

/// A puzzle as the search takes it: Boolean functions of the variables of
/// the squares, where variable `v` speaks of the state before a step and
/// `v + 1` of the state after it.
pub struct Puzzle {
    /// The state in which the puzzle starts.
    pub initial: Bdd,
    /// The steps of the pusher, in any direction.
    pub transitions: Bdd,
    /// The states in which every goal holds a box.
    pub goal: Bdd,
    /// The steps upwards.
    pub up: Bdd,
    /// The steps downwards.
    pub down: Bdd,
    /// The steps to the left.
    pub left: Bdd,
    /// The steps to the right.
    pub right: Bdd,
    /// The disjunction of the variables that speak of the state before a
    /// step.
    pub vars: Bdd,
    /// The state after a step is the state before it.
    pub equalizer: Bdd,
}

impl Puzzle {
    /// The functions say of the board `fs` what their names promise.
    pub open spec fn encodes(self, fs: Seq<Vec<AnnotatedField>>) -> bool {
        &&& forall|a: Assignment| #[trigger] self.initial.holds(a) == initial(fs, a)
        &&& forall|a: Assignment| #[trigger] self.transitions.holds(a) == any_move(fs, a)
        &&& forall|a: Assignment| #[trigger] self.goal.holds(a) == goal(fs, a)
        &&& forall|a: Assignment| #[trigger] self.up.holds(a) == moves(fs, Direction::Up, a)
        &&& forall|a: Assignment| #[trigger] self.down.holds(a) == moves(fs, Direction::Down, a)
        &&& forall|a: Assignment| #[trigger] self.left.holds(a) == moves(fs, Direction::Left, a)
        &&& forall|a: Assignment| #[trigger] self.right.holds(a) == moves(fs, Direction::Right, a)
        &&& forall|a: Assignment| #[trigger] self.vars.holds(a) == some_current_var(fs, a)
        &&& forall|a: Assignment| #[trigger]
            self.equalizer.holds(a) == frame(fs, Set::<(int, int)>::empty(), a)
    }
}

/// An annotated board has the variables that the encoding needs.
pub proof fn lemma_wf_ids_assigned(soko: SokoAnnotatedBoard)
    requires
        soko.wf(),
    ensures
        ids_assigned(soko.board@),
{
    let fs = soko.board@;
    assert forall|r: int, c: int| #[trigger] in_grid(fs, r, c) implies {
        &&& fs[r][c].man_id matches Some(m) && m < u32::MAX
        &&& fs[r][c].block_id matches Some(b) && b < u32::MAX
    } by {
        assert(fs[r][c] == annotation(soko.grid(), r, c));
        lemma_cell_index_unique(soko.grid(), r, c, r, c);
    }
}

/// Encodes the puzzle for a symbolic search: the initial state, the
/// transition relation as a whole and direction by direction, the goal, the
/// variables to quantify over in an image, and the relation that renames the
/// state after a step to the state before the next.
#[allow(non_snake_case)]
pub fn do_sylvan(soko: &SokoAnnotatedBoard) -> (puzzle: Puzzle)
    requires
        soko.wf(),
    ensures
        puzzle.encodes(soko.board@),
{
    proof {
        lemma_wf_ids_assigned(*soko);
    }
    let fields = soko.board.as_slice();
    let initial = to_bdd_init(fields);
    let transitions = to_bdd_trans(fields);
    let goal = to_bdd_goal(fields);
    let nothing: Vec<(usize, usize)> = Vec::new();
    assert(cells_of(nothing@) =~= Set::<(int, int)>::empty());
    let equalizer = everything_else_same(fields, nothing.as_slice());
    Puzzle {
        initial,
        transitions,
        goal,
        up: to_bdd_trans_up(fields),
        down: to_bdd_trans_down(fields),
        left: to_bdd_trans_left(fields),
        right: to_bdd_trans_right(fields),
        vars: all_vars(fields),
        equalizer,
    }
}

/// The frame of a step: a step of the pusher from `(r, c)` in direction `d`
/// leaves every square unchanged but the square it starts from and the two
/// squares ahead: the pusher is on such a square after the step exactly if
/// it was before, and so is a box.
pub proof fn lemma_transition_frame(
    fs: Seq<Vec<AnnotatedField>>,
    r: int,
    c: int,
    d: Direction,
    a: Assignment,
    r2: int,
    c2: int,
)
    requires
        transition(fs, r, c, d, a),
        in_grid(fs, r2, c2),
        (r2, c2) != (r, c),
        (r2, c2) != (r + d.dr(), c + d.dc()),
        (r2, c2) != (r + 2 * d.dr(), c + 2 * d.dc()),
    ensures
        cell_unchanged(fs, r2, c2, a),
        fs[r2][c2].reachable ==> a.contains(man_var(fs, r2, c2)) == a.contains(
            man_var(fs, r2, c2) + 1,
        ),
        fs[r2][c2].reachable && fs[r2][c2].productive ==> a.contains(block_var(fs, r2, c2))
            == a.contains(block_var(fs, r2, c2) + 1),
{
    if walk(fs, r, c, d, a) {
        assert(!set![(r, c), (r + d.dr(), c + d.dc())].contains((r2, c2)));
    } else {
        assert(push(fs, r, c, d, a));
        assert(!set![(r, c), (r + d.dr(), c + d.dc()), (r + 2 * d.dr(), c + 2 * d.dc())].contains(
            (r2, c2),
        ));
    }
}

/// The frame of a walk: a step without a push changes nothing but the
/// square that the pusher leaves and the square that it enters.
pub proof fn lemma_walk_frame(
    fs: Seq<Vec<AnnotatedField>>,
    r: int,
    c: int,
    d: Direction,
    a: Assignment,
    r2: int,
    c2: int,
)
    requires
        walk(fs, r, c, d, a),
        in_grid(fs, r2, c2),
        (r2, c2) != (r, c),
        (r2, c2) != (r + d.dr(), c + d.dc()),
    ensures
        cell_unchanged(fs, r2, c2, a),
{
    assert(!set![(r, c), (r + d.dr(), c + d.dc())].contains((r2, c2)));
}

} // verus!
