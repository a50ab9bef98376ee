//! The puzzle as Boolean functions: what they say, assignment by
//! assignment.

use sokoban::bdd::{Bdd, Op};
use sokoban::direction::Direction;
use sokoban::encoding::{
    all_vars, block_var_at, do_sylvan, everything_else_same, man_var_at, same_block, same_man,
    to_bdd_goal, to_bdd_init, to_bdd_trans, to_bdd_trans_direction, to_bdd_trans_down,
    to_bdd_trans_left, to_bdd_trans_right, to_bdd_trans_up, to_bdd_transitions,
};
use sokoban::sokoannotatedboard::SokoAnnotatedBoard;
use sokoban::sokoboard::SokoBoard;
use std::collections::HashSet;

fn annotate(text: &str) -> SokoAnnotatedBoard {
    SokoAnnotatedBoard::fromSokoBoard(SokoBoard::from_str(text).unwrap()).unwrap()
}

/// Whether the term is true when exactly the variables whose bit is set in
/// `on` are true.
fn holds(term: &Bdd, on: u32) -> bool {
    match term {
        Bdd::True => true,
        Bdd::False => false,
        Bdd::Var(id) => on & (1 << *id) != 0,
        Bdd::Not(f) => !holds(f, on),
        Bdd::Apply(op, f, g) => {
            let (x, y) = (holds(f, on), holds(g, on));
            match op {
                Op::And => x && y,
                Op::Xor => x != y,
                Op::Or => x || y,
                Op::Nand => !(x && y),
                Op::Nor => !(x || y),
                Op::Imp => !x || y,
                Op::Biimp => x == y,
                Op::Diff => x && !y,
                Op::Less => !x && y,
                Op::Invimp => x || !y,
            }
        }
        Bdd::Ite(c, f, g) => {
            if holds(c, on) {
                holds(f, on)
            } else {
                holds(g, on)
            }
        }
    }
}

fn bit(on: u32, var: u32) -> bool {
    on & (1 << var) != 0
}

fn support(term: &Bdd, vars: &mut HashSet<u32>) {
    match term {
        Bdd::True | Bdd::False => {}
        Bdd::Var(id) => {
            vars.insert(*id);
        }
        Bdd::Not(f) => support(f, vars),
        Bdd::Apply(_, f, g) => {
            support(f, vars);
            support(g, vars);
        }
        Bdd::Ite(c, f, g) => {
            support(c, vars);
            support(f, vars);
            support(g, vars);
        }
    }
}

/// A row of squares: pusher, box, empty square, goal. Square `k` has the
/// pusher variable `4k` and the box variable `4k + 2`; the first square is
/// not productive, the others are.
const ROW: &str = "@$ .";

/// A position on `ROW`: the square of the pusher, and for each square
/// whether a box is on it.
#[derive(Clone, Copy, Debug, PartialEq, Eq)]
struct Position {
    man: u32,
    boxes: [bool; 4],
}

/// The position that the variables `4k + shift` and `4k + 2 + shift` show,
/// if they show one: one pusher, not on a box; no word on the box variable
/// of the first square, which is not in use.
fn shown(on: u32, shift: u32) -> Option<Position> {
    let men: Vec<u32> = (0..4).filter(|k| bit(on, 4 * k + shift)).collect();
    if men.len() != 1 {
        return None;
    }
    let mut boxes = [false; 4];
    for k in 1..4u32 {
        boxes[k as usize] = bit(on, 4 * k + 2 + shift);
    }
    if boxes[men[0] as usize] {
        return None;
    }
    Some(Position { man: men[0], boxes })
}

/// The rules of the game on `ROW`, with pushes onto productive squares
/// only.
fn step(p: Position, right: bool) -> Option<Position> {
    let to: i64 = p.man as i64 + if right { 1 } else { -1 };
    if !(0..4).contains(&to) {
        return None;
    }
    let mut q = Position { man: to as u32, boxes: p.boxes };
    if p.boxes[to as usize] {
        let beyond: i64 = to + if right { 1 } else { -1 };
        if !(1..4).contains(&beyond) || p.boxes[beyond as usize] {
            return None;
        }
        q.boxes[to as usize] = false;
        q.boxes[beyond as usize] = true;
    }
    Some(q)
}

#[test]
fn variables_of_a_square() {
    let soko = annotate(ROW);
    for k in 0..4usize {
        assert_eq!(man_var_at(&soko.board, 0, k), 4 * k as u32);
        assert_eq!(block_var_at(&soko.board, 0, k), 4 * k as u32 + 2);
    }
}

#[test]
fn same_before_and_after() {
    let soko = annotate(ROW);
    let man = same_man(&soko.board, 0, 1);
    let block = same_block(&soko.board, 0, 1);
    for on in 0..256u32 {
        assert_eq!(holds(&man, on), bit(on, 4) == bit(on, 5));
        assert_eq!(holds(&block, on), bit(on, 6) == bit(on, 7));
    }
}

#[test]
fn initial_state_is_what_the_screen_shows() {
    let soko = annotate(ROW);
    let initial = to_bdd_init(&soko.board);
    let mut count: u32 = 0;
    for on in 0..(1u32 << 16) {
        let expected = bit(on, 0) && !bit(on, 4) && bit(on, 6) && !bit(on, 8) && !bit(on, 10)
            && !bit(on, 12) && !bit(on, 14);
        assert_eq!(holds(&initial, on), expected);
        if expected {
            count += 1;
            assert_eq!(shown(on, 0), Some(Position { man: 0, boxes: [false, true, false, false] }));
        }
    }
    // seven variables are fixed, nine are free
    assert_eq!(count, 1 << 9);
}

#[test]
fn initial_state_leaves_out_what_cannot_be_reached() {
    let soko = annotate("@#*");
    let initial = to_bdd_init(&soko.board);
    let mut vars = HashSet::new();
    support(&initial, &mut vars);
    assert_eq!(vars, HashSet::from([0]));
    assert_eq!(initial, Bdd::bddTrue().and(Bdd::fromId(0)));
}

#[test]
fn goal_wants_a_box_on_every_goal() {
    let soko = annotate(".@$*.");
    let goal = to_bdd_goal(&soko.board);
    assert_eq!(
        goal,
        Bdd::bddTrue().and(Bdd::fromId(2)).and(Bdd::fromId(14)).and(Bdd::fromId(18))
    );
    let soko = annotate(ROW);
    let goal = to_bdd_goal(&soko.board);
    for on in 0..(1u32 << 16) {
        assert_eq!(holds(&goal, on), bit(on, 14));
    }
}

#[test]
fn frame_keeps_the_squares_outside_the_exceptions() {
    let soko = annotate(ROW);
    let frame = everything_else_same(&soko.board, &[(0, 1), (0, 3)]);
    for on in 0..(1u32 << 16) {
        // the first square is not productive: its box variables are free
        let expected = bit(on, 0) == bit(on, 1) && bit(on, 8) == bit(on, 9) && bit(on, 10) == bit(on, 11);
        assert_eq!(holds(&frame, on), expected);
    }
    let all = everything_else_same(&soko.board, &[]);
    let mut vars = HashSet::new();
    support(&all, &mut vars);
    assert_eq!(vars, HashSet::from([0, 1, 4, 5, 6, 7, 8, 9, 10, 11, 12, 13, 14, 15]));
    let none = everything_else_same(&soko.board, &[(0, 0), (0, 1), (0, 2), (0, 3)]);
    assert_eq!(none, Bdd::bddTrue());
}

#[test]
fn step_keeps_the_squares_it_does_not_touch() {
    let soko = annotate(ROW);
    let from_first = to_bdd_transitions(0, 0, Direction::Right, &soko.board);
    let mut seen: u32 = 0;
    for on in 0..(1u32 << 16) {
        if holds(&from_first, on) {
            seen += 1;
            // the pusher leaves the first square and enters the second
            assert!(bit(on, 0) && !bit(on, 1) && !bit(on, 4) && bit(on, 5));
            // the last square is out of the way of the step
            assert_eq!(bit(on, 12), bit(on, 13));
            assert_eq!(bit(on, 14), bit(on, 15));
            // the third square keeps its pusher variable; its box variable
            // changes only with a push
            assert_eq!(bit(on, 8), bit(on, 9));
            if !bit(on, 6) {
                assert_eq!(bit(on, 10), bit(on, 11));
            }
        }
    }
    assert!(seen > 0);
}

#[test]
fn no_step_from_where_the_pusher_cannot_be() {
    let soko = annotate("@#. \n  # ");
    // into the wall, off the grid, from the wall, from a square out of reach
    assert_eq!(to_bdd_transitions(0, 0, Direction::Right, &soko.board), Bdd::bddFalse());
    assert_eq!(to_bdd_transitions(0, 0, Direction::Up, &soko.board), Bdd::bddFalse());
    assert_eq!(to_bdd_transitions(0, 0, Direction::Left, &soko.board), Bdd::bddFalse());
    assert_eq!(to_bdd_transitions(0, 1, Direction::Left, &soko.board), Bdd::bddFalse());
    assert_eq!(to_bdd_transitions(0, 2, Direction::Right, &soko.board), Bdd::bddFalse());
    assert_eq!(to_bdd_transitions(7, 7, Direction::Down, &soko.board), Bdd::bddFalse());
    // downwards the way is free: the pusher leaves variable 0 for variable 17
    let down = to_bdd_transitions(0, 0, Direction::Down, &soko.board);
    assert!(holds(&down, (1 << 0) | (1 << 17)));
    assert!(!holds(&down, (1 << 0) | (1 << 16)));
    assert!(!holds(&down, 1 << 17));
}

#[test]
fn encoded_steps_are_the_steps_of_the_game() {
    let soko = annotate(ROW);
    let right = to_bdd_trans_right(&soko.board);
    let left = to_bdd_trans_left(&soko.board);
    let up = to_bdd_trans_up(&soko.board);
    let down = to_bdd_trans_down(&soko.board);
    let any = to_bdd_trans(&soko.board);
    let mut steps: u32 = 0;
    for on in 0..(1u32 << 16) {
        assert!(!holds(&up, on) && !holds(&down, on));
        assert_eq!(holds(&any, on), holds(&left, on) || holds(&right, on));
        let before = match shown(on, 0) {
            Some(p) => p,
            None => continue,
        };
        let after = shown(on, 1);
        for (term, to_right) in [(&right, true), (&left, false)] {
            let expected = step(before, to_right);
            assert_eq!(holds(term, on), expected.is_some() && after == expected, "{:016b}", on);
            if holds(term, on) {
                steps += 1;
            }
        }
    }
    assert!(steps > 0);
}

#[test]
fn steps_in_one_direction_start_anywhere() {
    let soko = annotate(ROW);
    let right = to_bdd_trans_direction(&soko.board, Direction::Right);
    assert_eq!(right, to_bdd_trans_right(&soko.board));
    let cells: Vec<Bdd> =
        (0..4).map(|c| to_bdd_transitions(0, c, Direction::Right, &soko.board)).collect();
    for on in (0..(1u32 << 16)).step_by(7) {
        assert_eq!(holds(&right, on), cells.iter().any(|t| holds(t, on)));
    }
}

#[test]
fn variables_of_an_image() {
    let soko = annotate(ROW);
    let vars = all_vars(&soko.board);
    let mut found = HashSet::new();
    support(&vars, &mut found);
    assert_eq!(found, HashSet::from([0, 4, 6, 8, 10, 12, 14]));
    for on in 0..(1u32 << 16) {
        assert_eq!(holds(&vars, on), [0, 4, 6, 8, 10, 12, 14].iter().any(|v| bit(on, *v)));
    }
    let soko = annotate("@#.");
    let mut found = HashSet::new();
    support(&all_vars(&soko.board), &mut found);
    assert_eq!(found, HashSet::from([0]));
}

#[test]
fn puzzle_holds_every_function() {
    let soko = annotate("#####\n#@$.#\n#####\n");
    let puzzle = do_sylvan(&soko);
    assert_eq!(puzzle.initial, to_bdd_init(&soko.board));
    assert_eq!(puzzle.transitions, to_bdd_trans(&soko.board));
    assert_eq!(puzzle.goal, to_bdd_goal(&soko.board));
    assert_eq!(puzzle.up, to_bdd_trans_up(&soko.board));
    assert_eq!(puzzle.down, to_bdd_trans_down(&soko.board));
    assert_eq!(puzzle.left, to_bdd_trans_left(&soko.board));
    assert_eq!(puzzle.right, to_bdd_trans_right(&soko.board));
    assert_eq!(puzzle.vars, all_vars(&soko.board));
    assert_eq!(puzzle.equalizer, everything_else_same(&soko.board, &[]));
}
