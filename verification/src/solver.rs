use crate::direction::Direction;
use vstd::prelude::*;
use vstd::string::*;

verus! {

/// The name an engine gives to a diagram. The engine keeps one diagram for
/// each Boolean function, so two names are equal exactly when the functions
/// are.
pub type Node = u64;

/// How the forward search stands after one more image.
#[derive(Clone, Copy, Debug, PartialEq, Eq, Structural)]
pub enum Progress {
    /// Some reached state is a goal state.
    Won,
    /// Nothing new was reached and no reached state is a goal state.
    Lost,
    /// New states were reached, none of them a goal state.
    Continue,
}

/// The goal test: `hit` names the reached states that are goal states, and
/// the puzzle is won if there is one.
pub fn won(hit: Node, bdd_false: Node) -> (b: bool)
    ensures
        b == (hit != bdd_false),
{
    hit != bdd_false
}

/// What one more image means for the search. `frontier` names the states
/// reached before, `next` those reached now, `hit` the goal states among
/// `next`.
pub open spec fn progress(frontier: Node, next: Node, hit: Node, bdd_false: Node) -> Progress {
    if hit != bdd_false {
        Progress::Won
    } else if next == frontier {
        Progress::Lost
    } else {
        Progress::Continue
    }
}

/// The forward search: the sets of states reached after 0, 1, 2, ... steps,
/// each by its name.
#[derive(Debug, PartialEq, Eq)]
pub struct Search {
    pub visited: Vec<Node>,
}

impl Search {
    /// The search has a frontier.
    pub open spec fn wf(&self) -> bool {
        self.visited@.len() > 0
    }

    /// The search before its first step: only the initial states are reached.
    pub fn new(initial: Node) -> (s: Search)
        ensures
            s.visited@ == seq![initial],
            s.wf(),
    {
        let mut visited = Vec::new();
        visited.push(initial);
        Search { visited }
    }

    /// The search with its first verdict. `hit` names the initial states that
    /// are goal states: if there is one, the puzzle is won before the first
    /// step.
    pub fn start(initial: Node, hit: Node, bdd_false: Node) -> (r: (Search, Progress))
        ensures
            r.0.visited@ == seq![initial],
            r.0.wf(),
            r.1 == if hit != bdd_false {
                Progress::Won
            } else {
                Progress::Continue
            },
    {
        let search = Search::new(initial);
        if won(hit, bdd_false) {
            (search, Progress::Won)
        } else {
            (search, Progress::Continue)
        }
    }

    /// The states reached so far, from which the next image is taken.
    pub fn frontier(&self) -> (n: Node)
        requires
            self.wf(),
        ensures
            n == self.visited@.last(),
    {
        self.visited[self.visited.len() - 1]
    }

    /// The number of images taken.
    pub fn steps(&self) -> (i: usize)
        requires
            self.wf(),
        ensures
            i == self.visited@.len() - 1,
    {
        self.visited.len() - 1
    }

    /// Takes note of one more image. `next` names the image of the frontier
    /// together with the frontier, `hit` the goal states in it. The search is
    /// won as soon as there is a goal state, and lost when the image adds
    /// nothing.
    pub fn advance(&mut self, next: Node, hit: Node, bdd_false: Node) -> (p: Progress)
        requires
            old(self).wf(),
        ensures
            final(self).visited@ == old(self).visited@.push(next),
            final(self).wf(),
            p == progress(old(self).visited@.last(), next, hit, bdd_false),
    {
        let frontier = self.frontier();
        self.visited.push(next);
        if won(hit, bdd_false) {
            Progress::Won
        } else if next == frontier {
            Progress::Lost
        } else {
            Progress::Continue
        }
    }
}

/// The first direction, in the order up, down, left, right, from which the
/// states looked for can be entered, with the name of the states one step
/// before them; `None` if there is no such direction.
pub open spec fn first_move(up: Node, down: Node, left: Node, right: Node, bdd_false: Node) -> Option<
    (Direction, Node),
> {
    if up != bdd_false {
        Some((Direction::Up, up))
    } else if down != bdd_false {
        Some((Direction::Down, down))
    } else if left != bdd_false {
        Some((Direction::Left, left))
    } else if right != bdd_false {
        Some((Direction::Right, right))
    } else {
        None
    }
}

/// The letters of the steps, last step first in `path`, first step first in
/// the result.
pub open spec fn letters(path: Seq<Direction>) -> Seq<char> {
    Seq::new(path.len(), |i: int| path[path.len() - 1 - i].letter_of())
}

/// The way back from the goal: the search is walked from its last set of
/// states to its first, one step at a time.
#[derive(Debug, PartialEq, Eq)]
pub struct Witness {
    /// How many steps are still to be found.
    pub level: usize,
    /// The states at `level` from which the goal is reached by the steps
    /// found.
    pub current: Node,
    /// The steps found, the last step of the solution first.
    pub path: Vec<Direction>,
}

impl Witness {
    /// The way back before its first step: all of the search is ahead, and
    /// the states looked for are the goal states.
    pub fn new(search: &Search, goal: Node) -> (w: Witness)
        requires
            search.wf(),
        ensures
            w.level == search.visited@.len() - 1,
            w.current == goal,
            w.path@ == Seq::<Direction>::empty(),
    {
        Witness { level: search.steps(), current: goal, path: Vec::new() }
    }

    /// The states that the search had reached one step before the current
    /// level; `None` when the way back is complete.
    pub fn previous(&self, search: &Search) -> (n: Option<Node>)
        ensures
            n == if 0 < self.level <= search.visited@.len() {
                Some(search.visited@[self.level - 1])
            } else {
                None
            },
    {
        if 0 < self.level && self.level <= search.visited.len() {
            Some(search.visited[self.level - 1])
        } else {
            None
        }
    }

    /// One step back. `up`, `down`, `left` and `right` name the states one
    /// level earlier from which a step in that direction leads into the
    /// current states. The first of them that has a state is taken. If none
    /// has, the search and the way back disagree: nothing changes and the
    /// result is `None`.
    pub fn step_back(&mut self, up: Node, down: Node, left: Node, right: Node, bdd_false: Node) -> (d:
        Option<Direction>)
        requires
            old(self).level > 0,
        ensures
            match first_move(up, down, left, right, bdd_false) {
                Some((dir, node)) => {
                    &&& d == Some(dir)
                    &&& final(self).level == old(self).level - 1
                    &&& final(self).current == node
                    &&& final(self).path@ == old(self).path@.push(dir)
                },
                None => d.is_none() && *final(self) == *old(self),
            },
    {
        let (dir, node) = if up != bdd_false {
            (Direction::Up, up)
        } else if down != bdd_false {
            (Direction::Down, down)
        } else if left != bdd_false {
            (Direction::Left, left)
        } else if right != bdd_false {
            (Direction::Right, right)
        } else {
            return None;
        };
        self.path.push(dir);
        self.current = node;
        self.level = self.level - 1;
        Some(dir)
    }

    /// The solution: the letters of the steps found, in the order in which
    /// the pusher takes them.
    pub fn solution(&self) -> (s: String)
        ensures
            s@ == letters(self.path@),
    {
        let mut s = String::new();
        let mut i: usize = self.path.len();
        while i > 0
            invariant
                i <= self.path.len(),
                s@ == letters(self.path@).subrange(0, self.path.len() - i),
            decreases i,
        {
            i -= 1;
            proof {
                reveal_strlit("u");
                reveal_strlit("d");
                reveal_strlit("l");
                reveal_strlit("r");
            }
            let ghost before = s@;
            match self.path[i] {
                Direction::Up => s.append("u"),
                Direction::Down => s.append("d"),
                Direction::Left => s.append("l"),
                Direction::Right => s.append("r"),
            }
            assert(s@ =~= before.push(self.path@[i as int].letter_of()));
            assert(s@ =~= letters(self.path@).subrange(0, self.path.len() - i));
        }
        assert(s@ =~= letters(self.path@));
        s
    }
}

} // verus!
