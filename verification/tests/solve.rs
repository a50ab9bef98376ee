//! Whole puzzles, solved with a small decision-diagram engine that stands in
//! for the engine of a real run.

use sokoban::bdd::{Bdd, Op};
use sokoban::encoding::do_sylvan;
use sokoban::sokoannotatedboard::{Impossible, SokoAnnotatedBoard};
use sokoban::sokoboard::{Field, ParseError, SokoBoard};
use sokoban::solver::{won, Node, Progress, Search, Witness};
use std::collections::{HashMap, HashSet, VecDeque};

const FALSE: Node = 0;
const TRUE: Node = 1;

/// Reduced ordered decision diagrams over one shared table: equal functions
/// have equal nodes.
struct Engine {
    nodes: Vec<(u32, Node, Node)>,
    unique: HashMap<(u32, Node, Node), Node>,
}

fn table(op: Op, x: bool, y: bool) -> bool {
    match op {
        Op::And => x && y,
        Op::Xor => x != y,
        Op::Or => x || y,
        Op::Nand => !(x && y),
        Op::Nor => !(x || y),
        Op::Imp => !x || y,
        Op::Biimp => x == y,
        Op::Diff => x && !y,
        Op::Less => !x && y,
        Op::Invimp => x || !y,
    }
}

impl Engine {
    fn new() -> Engine {
        Engine { nodes: vec![(u32::MAX, 0, 0), (u32::MAX, 1, 1)], unique: HashMap::new() }
    }

    fn var_of(&self, n: Node) -> u32 {
        self.nodes[n as usize].0
    }

    fn low(&self, n: Node) -> Node {
        self.nodes[n as usize].1
    }

    fn high(&self, n: Node) -> Node {
        self.nodes[n as usize].2
    }

    fn mk(&mut self, var: u32, low: Node, high: Node) -> Node {
        if low == high {
            return low;
        }
        if let Some(n) = self.unique.get(&(var, low, high)) {
            return *n;
        }
        let n: Node = self.nodes.len() as Node;
        self.nodes.push((var, low, high));
        self.unique.insert((var, low, high), n);
        n
    }

    fn lit(&mut self, var: u32) -> Node {
        self.mk(var, FALSE, TRUE)
    }

    fn apply_memo(&mut self, op: Op, a: Node, b: Node, memo: &mut HashMap<(Node, Node), Node>) -> Node {
        if a < 2 && b < 2 {
            return if table(op, a == TRUE, b == TRUE) { TRUE } else { FALSE };
        }
        if let Some(n) = memo.get(&(a, b)) {
            return *n;
        }
        let var: u32 = self.var_of(a).min(self.var_of(b));
        let (a0, a1) = if self.var_of(a) == var { (self.low(a), self.high(a)) } else { (a, a) };
        let (b0, b1) = if self.var_of(b) == var { (self.low(b), self.high(b)) } else { (b, b) };
        let low = self.apply_memo(op, a0, b0, memo);
        let high = self.apply_memo(op, a1, b1, memo);
        let n = self.mk(var, low, high);
        memo.insert((a, b), n);
        n
    }

    fn apply(&mut self, op: Op, a: Node, b: Node) -> Node {
        let mut memo = HashMap::new();
        self.apply_memo(op, a, b, &mut memo)
    }

    fn and(&mut self, a: Node, b: Node) -> Node {
        self.apply(Op::And, a, b)
    }

    fn or(&mut self, a: Node, b: Node) -> Node {
        self.apply(Op::Or, a, b)
    }

    fn not(&mut self, a: Node) -> Node {
        self.apply(Op::Xor, a, TRUE)
    }

    fn build(&mut self, term: &Bdd) -> Node {
        match term {
            Bdd::True => TRUE,
            Bdd::False => FALSE,
            Bdd::Var(id) => self.lit(*id),
            Bdd::Not(f) => {
                let f = self.build(f);
                self.not(f)
            }
            Bdd::Apply(op, f, g) => {
                let f = self.build(f);
                let g = self.build(g);
                self.apply(*op, f, g)
            }
            Bdd::Ite(c, f, g) => {
                let c = self.build(c);
                let f = self.build(f);
                let g = self.build(g);
                let then = self.and(c, f);
                let not_c = self.not(c);
                let other = self.and(not_c, g);
                self.or(then, other)
            }
        }
    }

    fn forget_memo(&mut self, a: Node, vars: &HashSet<u32>, memo: &mut HashMap<Node, Node>) -> Node {
        if a < 2 {
            return a;
        }
        if let Some(n) = memo.get(&a) {
            return *n;
        }
        let var: u32 = self.var_of(a);
        let (a0, a1) = (self.low(a), self.high(a));
        let low = self.forget_memo(a0, vars, memo);
        let high = self.forget_memo(a1, vars, memo);
        let n = if vars.contains(&var) { self.or(low, high) } else { self.mk(var, low, high) };
        memo.insert(a, n);
        n
    }

    fn forget(&mut self, a: Node, vars: &HashSet<u32>) -> Node {
        let mut memo = HashMap::new();
        self.forget_memo(a, vars, &mut memo)
    }

    /// Renames `from(v)` to `to(v)` for every `v` of `vars`, where the two
    /// are `v` and `v + 1` in one order or the other.
    fn rename_memo(&mut self, a: Node, vars: &HashSet<u32>, up: bool, memo: &mut HashMap<Node, Node>) -> Node {
        if a < 2 {
            return a;
        }
        if let Some(n) = memo.get(&a) {
            return *n;
        }
        let var: u32 = self.var_of(a);
        let (a0, a1) = (self.low(a), self.high(a));
        let low = self.rename_memo(a0, vars, up, memo);
        let high = self.rename_memo(a1, vars, up, memo);
        let renamed: u32 = if up && vars.contains(&var) {
            var + 1
        } else if !up && var > 0 && vars.contains(&(var - 1)) {
            var - 1
        } else {
            var
        };
        let n = self.mk(renamed, low, high);
        memo.insert(a, n);
        n
    }

    fn rename(&mut self, a: Node, vars: &HashSet<u32>, up: bool) -> Node {
        let mut memo = HashMap::new();
        self.rename_memo(a, vars, up, &mut memo)
    }

    /// The states one step of `t` after a state of `r`.
    fn relprod(&mut self, r: Node, t: Node, vars: &HashSet<u32>) -> Node {
        let both = self.and(r, t);
        let after = self.forget(both, vars);
        self.rename(after, vars, false)
    }

    /// The states one step of `t` before a state of `r`.
    fn relprod_reversed(&mut self, r: Node, t: Node, vars: &HashSet<u32>) -> Node {
        let after = self.rename(r, vars, true);
        let both = self.and(after, t);
        let next: HashSet<u32> = vars.iter().map(|v| *v + 1).collect();
        self.forget(both, &next)
    }
}

/// The variables of a disjunction of literals.
fn support(term: &Bdd, vars: &mut HashSet<u32>) {
    match term {
        Bdd::True | Bdd::False => {}
        Bdd::Var(id) => {
            vars.insert(*id);
        }
        Bdd::Not(f) => support(f, vars),
        Bdd::Apply(_, f, g) => {
            support(f, vars);
            support(g, vars);
        }
        Bdd::Ite(c, f, g) => {
            support(c, vars);
            support(f, vars);
            support(g, vars);
        }
    }
}

#[derive(Debug, PartialEq, Eq)]
enum Failure {
    Parse(ParseError),
    Impossible(Impossible),
    NoSolution,
    Backtracking,
}

/// Solves a puzzle: the number of images taken and the moves.
fn solve(text: &str) -> Result<(usize, String), Failure> {
    solve_board(SokoBoard::from_str(text).map_err(Failure::Parse)?)
}

/// As `solve`, of a screen that is at hand.
fn solve_board(board: SokoBoard) -> Result<(usize, String), Failure> {
    let annotated = SokoAnnotatedBoard::fromSokoBoard(board).map_err(Failure::Impossible)?;
    let puzzle = do_sylvan(&annotated);
    let mut engine = Engine::new();
    let initial = engine.build(&puzzle.initial);
    let transitions = engine.build(&puzzle.transitions);
    let goal = engine.build(&puzzle.goal);
    let equalizer = engine.build(&puzzle.equalizer);
    let up = engine.build(&puzzle.up);
    let down = engine.build(&puzzle.down);
    let left = engine.build(&puzzle.left);
    let right = engine.build(&puzzle.right);
    let mut vars = HashSet::new();
    support(&puzzle.vars, &mut vars);

    let hit = engine.and(initial, goal);
    let (mut search, mut progress) = Search::start(initial, hit, FALSE);
    while progress == Progress::Continue {
        let frontier = search.frontier();
        let image = engine.relprod(frontier, transitions, &vars);
        let next = engine.or(image, frontier);
        // every set holds the one before it
        assert_eq!(engine.and(frontier, next), frontier);
        let hit = engine.and(next, goal);
        assert_eq!(won(hit, FALSE), hit != FALSE);
        progress = search.advance(next, hit, FALSE);
    }
    if progress == Progress::Lost {
        return Err(Failure::NoSolution);
    }
    let mut witness = Witness::new(&search, goal);
    while let Some(previous) = witness.previous(&search) {
        let current = engine.relprod(witness.current, equalizer, &vars);
        let before_up = engine.relprod_reversed(current, up, &vars);
        let before_down = engine.relprod_reversed(current, down, &vars);
        let before_left = engine.relprod_reversed(current, left, &vars);
        let before_right = engine.relprod_reversed(current, right, &vars);
        let from_up = engine.and(previous, before_up);
        let from_down = engine.and(previous, before_down);
        let from_left = engine.and(previous, before_left);
        let from_right = engine.and(previous, before_right);
        if witness.step_back(from_up, from_down, from_left, from_right, FALSE).is_none() {
            return Err(Failure::Backtracking);
        }
    }
    Ok((search.steps(), witness.solution()))
}

/// A position of the game itself: where the pusher is and where the boxes
/// are.
#[derive(Clone, Debug, PartialEq, Eq, Hash)]
struct Position {
    man: (i64, i64),
    boxes: Vec<(i64, i64)>,
}

struct Game {
    walls: HashSet<(i64, i64)>,
    goals: Vec<(i64, i64)>,
    rows: i64,
    cols: i64,
    start: Position,
}

fn game(text: &str) -> Game {
    let mut walls = HashSet::new();
    let mut goals = Vec::new();
    let mut boxes = Vec::new();
    let mut man = (-1, -1);
    let mut rows: i64 = 0;
    let mut cols: i64 = 0;
    for (r, line) in text.lines().enumerate() {
        rows += 1;
        cols = cols.max(line.len() as i64);
        for (c, ch) in line.chars().enumerate() {
            let at = (r as i64, c as i64);
            match ch {
                '#' => {
                    walls.insert(at);
                }
                '@' => man = at,
                '+' => {
                    man = at;
                    goals.push(at);
                }
                '$' => boxes.push(at),
                '*' => {
                    boxes.push(at);
                    goals.push(at);
                }
                '.' => goals.push(at),
                _ => {}
            }
        }
    }
    boxes.sort();
    Game { walls, goals, rows, cols, start: Position { man, boxes } }
}

impl Game {
    fn free(&self, at: (i64, i64)) -> bool {
        0 <= at.0 && at.0 < self.rows && 0 <= at.1 && at.1 < self.cols && !self.walls.contains(&at)
    }

    fn solved(&self, p: &Position) -> bool {
        self.goals.iter().all(|g| p.boxes.contains(g))
    }

    /// The position after a move, if the move is legal.
    fn step(&self, p: &Position, letter: char) -> Option<Position> {
        let (dr, dc): (i64, i64) = match letter {
            'u' => (-1, 0),
            'd' => (1, 0),
            'l' => (0, -1),
            'r' => (0, 1),
            _ => return None,
        };
        let to = (p.man.0 + dr, p.man.1 + dc);
        if !self.free(to) {
            return None;
        }
        let mut boxes = p.boxes.clone();
        if let Some(i) = boxes.iter().position(|b| *b == to) {
            let beyond = (to.0 + dr, to.1 + dc);
            if !self.free(beyond) || boxes.contains(&beyond) {
                return None;
            }
            boxes[i] = beyond;
            boxes.sort();
        }
        Some(Position { man: to, boxes })
    }

    /// Plays the moves; true if all are legal and the last position is
    /// solved.
    fn replay(&self, moves: &str) -> bool {
        let mut p = self.start.clone();
        for letter in moves.chars() {
            match self.step(&p, letter) {
                Some(q) => p = q,
                None => return false,
            }
        }
        self.solved(&p)
    }

    /// The length of a shortest solution, by a search over the positions.
    fn shortest(&self) -> Option<usize> {
        let mut seen = HashSet::new();
        let mut queue = VecDeque::new();
        seen.insert(self.start.clone());
        queue.push_back((self.start.clone(), 0usize));
        while let Some((p, n)) = queue.pop_front() {
            if self.solved(&p) {
                return Some(n);
            }
            for letter in ['u', 'd', 'l', 'r'] {
                if let Some(q) = self.step(&p, letter) {
                    if seen.insert(q.clone()) {
                        queue.push_back((q, n + 1));
                    }
                }
            }
        }
        None
    }
}

const TRIVIAL_PUSH: &str = "#####\n#@$.#\n#####\n";
const TWO_STEP_PUSH: &str = "######\n#@$ .#\n######\n";
const PUSH_UP: &str = "#######\n#  .  #\n#  $  #\n#  @  #\n#######\n";
const DEAD_LOCKED: &str = "#####\n#$ .#\n#####\n";
const PUSH_UP_TWICE: &str = "#######\n#  .  #\n#     #\n#  $  #\n#  @  #\n#######\n";
const GOAL_BEHIND_BOX: &str = "#####\n#.$@#\n#####\n";
const BOXES_IN_A_ROW: &str = "########\n#@$$ ..#\n########\n";
const AROUND: &str = "######\n#    #\n# .$@#\n#    #\n######\n";
const TWO_BOXES: &str = "#######\n#.$@$.#\n#######\n";

#[test]
fn already_solved() {
    assert_eq!(solve("@*"), Ok((0, String::new())));
}

#[test]
fn trivial_push() {
    assert_eq!(solve(TRIVIAL_PUSH), Ok((1, String::from("r"))));
}

#[test]
fn two_step_push() {
    assert_eq!(solve(TWO_STEP_PUSH), Ok((2, String::from("rr"))));
}

#[test]
fn push_up() {
    // the goal is the square above the box: one push brings the box there
    assert_eq!(solve(PUSH_UP), Ok((1, String::from("u"))));
    assert_eq!(game(PUSH_UP).shortest(), Some(1));
    assert!(!game(PUSH_UP).replay("uu"));
}

#[test]
fn push_up_twice() {
    let (steps, moves) = solve(PUSH_UP_TWICE).unwrap();
    assert_eq!(steps, 2);
    assert_eq!(moves.len(), 2);
    assert_eq!(moves, "uu");
}

#[test]
fn box_dead_locked() {
    // the screen shows no pusher: as a text it is refused
    assert_eq!(solve(DEAD_LOCKED), Err(Failure::Parse(ParseError::NotOnePusher)));
    // built by hand, its box is found lost
    let wall = vec![Field::Wall; 5];
    let board = SokoBoard(vec![
        wall.clone(),
        vec![Field::Wall, Field::Block, Field::Empty, Field::Goal, Field::Wall],
        wall,
    ]);
    assert_eq!(
        solve_board(board),
        Err(Failure::Impossible(Impossible::BlockOnUnproductive { row: 1, col: 1 }))
    );
    // and so it is with a pusher beside the box
    assert_eq!(
        solve("#####\n#$@.#\n#####\n"),
        Err(Failure::Impossible(Impossible::BlockOnUnproductive { row: 1, col: 1 }))
    );
}

#[test]
fn goal_behind_the_box() {
    // the pusher stands to the right of the box and the goal to its left:
    // one push to the left solves the puzzle
    assert_eq!(solve(GOAL_BEHIND_BOX), Ok((1, String::from("l"))));
    assert_eq!(game(GOAL_BEHIND_BOX).shortest(), Some(1));
}

#[test]
fn no_solution_despite_productive_placement() {
    // both boxes rest on productive squares, but neither can be moved
    assert_eq!(solve(BOXES_IN_A_ROW), Err(Failure::NoSolution));
}

#[test]
fn walks_around_the_box() {
    let (steps, moves) = solve(AROUND).unwrap();
    assert_eq!(steps, 1);
    assert_eq!(moves, "l");
    let turned = "######\n#    #\n#@$. #\n#    #\n######\n";
    assert_eq!(solve(turned), Ok((1, String::from("r"))));
    // the pusher has to get behind the box first
    let behind = "######\n#    #\n# .$ #\n#  @ #\n######\n";
    let (steps, moves) = solve(behind).unwrap();
    assert_eq!(steps, 3);
    assert_eq!(moves, "rul");
    assert!(game(behind).replay(&moves));
}

#[test]
fn solutions_replay_to_a_solved_position() {
    for text in [TRIVIAL_PUSH, TWO_STEP_PUSH, PUSH_UP, PUSH_UP_TWICE, GOAL_BEHIND_BOX, AROUND, TWO_BOXES, "@*"] {
        let (steps, moves) = solve(text).unwrap();
        assert_eq!(moves.len(), steps);
        assert!(game(text).replay(&moves), "{:?} does not solve {:?}", moves, text);
    }
}

#[test]
fn solutions_are_shortest() {
    for text in [TRIVIAL_PUSH, TWO_STEP_PUSH, PUSH_UP, PUSH_UP_TWICE, GOAL_BEHIND_BOX, AROUND, TWO_BOXES, "@*"] {
        let (steps, _) = solve(text).unwrap();
        assert_eq!(game(text).shortest(), Some(steps));
    }
}

#[test]
fn no_solution_means_no_position_is_solved() {
    assert_eq!(game(BOXES_IN_A_ROW).shortest(), None);
    assert_eq!(solve(BOXES_IN_A_ROW), Err(Failure::NoSolution));
    // the box can be pushed along the wall but never away from it
    let along_the_wall = "######\n#@   #\n# $ .#\n#   .#\n# $  #\n######\n";
    let found = solve(along_the_wall);
    assert_eq!(found.is_ok(), game(along_the_wall).shortest().is_some());
}

#[test]
fn goal_out_of_reach_counts_as_filled() {
    // the second goal lies behind a wall: no variable of the initial state
    // speaks of it, so the search takes it for filled
    let text = "#@$.#.#";
    assert_eq!(solve(text), Ok((1, String::from("r"))));
    assert!(!game(text).replay("r"));
    // with its box on it the goal behind the wall is no matter
    let text = "#@$.#*#";
    assert_eq!(solve(text), Ok((1, String::from("r"))));
    assert!(game(text).replay("r"));
}

#[test]
fn box_to_spare_may_hide_a_solution() {
    // two boxes and one goal: the way to the goal is free once the box to
    // spare is pushed aside, onto a square from which it never comes back;
    // the search pushes no box onto such a square
    let text = " @  \n $$.\n   #\n";
    assert!(game(text).replay("dr"));
    assert_eq!(solve(text), Err(Failure::NoSolution));
}

/// Screens of three rows and four columns with one pusher, as many boxes as
/// goals, and walls here and there, all from one seed.
fn small_screens(count: usize, boxes: usize) -> Vec<String> {
    let mut seed: u64 = 2024;
    let mut draw = move |below: u64| {
        seed = seed.wrapping_mul(6364136223846793005).wrapping_add(1442695040888963407);
        (seed >> 33) % below
    };
    let mut screens = Vec::new();
    while screens.len() < count {
        let mut cells: Vec<char> = (0..12).map(|_| if draw(10) < 2 { '#' } else { ' ' }).collect();
        if cells.iter().filter(|c| **c == ' ').count() < 2 * boxes + 1 {
            continue;
        }
        let mut marks = vec!['@'];
        for _ in 0..boxes {
            marks.push('$');
            marks.push('.');
        }
        for mark in marks {
            loop {
                let k = draw(12) as usize;
                if cells[k] == ' ' {
                    cells[k] = mark;
                    break;
                }
            }
        }
        let mut text = String::new();
        for row in cells.chunks(4) {
            text.extend(row.iter());
            text.push('\n');
        }
        screens.push(text);
    }
    screens
}

#[test]
fn search_agrees_with_the_game_on_small_screens() {
    let mut solved = 0;
    let mut lost = 0;
    let mut impossible = 0;
    for text in small_screens(150, 1).into_iter().chain(small_screens(150, 2)) {
        let board = SokoBoard::from_str(&text).unwrap();
        let shortest = game(&text).shortest();
        let annotated = match SokoAnnotatedBoard::fromSokoBoard(board) {
            Ok(annotated) => annotated,
            Err(_) => {
                // a box that the analysis gives up for lost is lost
                assert_eq!(shortest, None, "{}", text);
                impossible += 1;
                continue;
            }
        };
        let goals_in_reach =
            annotated.board.iter().flatten().all(|f| !f.isGoal() || f.reachable || f.hasBlock());
        match solve(&text) {
            Ok((steps, moves)) => {
                if goals_in_reach {
                    assert!(game(&text).replay(&moves), "{:?} does not solve\n{}", moves, text);
                    assert_eq!(shortest, Some(steps), "{}", text);
                    solved += 1;
                }
            }
            Err(failure) => {
                assert_eq!(failure, Failure::NoSolution);
                assert_eq!(shortest, None, "{}", text);
                lost += 1;
            }
        }
    }
    // every kind of outcome was met
    assert!(solved > 10 && lost > 10 && impossible > 10, "{} {} {}", solved, lost, impossible);
}

#[test]
fn bad_text_is_refused_before_the_search() {
    assert_eq!(solve(""), Err(Failure::Parse(ParseError::Empty)));
    assert_eq!(solve("#@x#"), Err(Failure::Parse(ParseError::InvalidCharacter('x'))));
}

#[test]
fn stand_in_engine_knows_equal_functions() {
    let mut engine = Engine::new();
    let a = Bdd::fromId(0).and(Bdd::fromId(2));
    let b = Bdd::fromId(2).not().or(Bdd::fromId(0).not()).not();
    assert_eq!(engine.build(&a), engine.build(&b));
    let c = Bdd::fromId(0).biimp(Bdd::fromId(1));
    let d = Bdd::fromId(0).xor(Bdd::fromId(1)).not();
    assert_eq!(engine.build(&c), engine.build(&d));
    assert_ne!(engine.build(&a), engine.build(&c));
    let never = Bdd::fromId(4).and(Bdd::fromId(4).not());
    assert_eq!(engine.build(&never), FALSE);
    let ever = Bdd::fromId(4).imp(Bdd::fromId(4));
    assert_eq!(engine.build(&ever), TRUE);
}
