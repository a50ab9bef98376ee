use crate::direction::{in_grid, Direction};
use crate::grid::{
    cell_count, cell_index, lemma_cell_index_unique, lemma_productive_push, on_grid, productive,
    reachable, walk_to, Grid,
};
use crate::ids::{assignIDs, with_ids, MAX_CELLS};
use crate::productive::{
    goals_marked, lemma_prod_marks_grow_grid, needs_mark, prod_exact, prod_marks_grow, productivity,
    sweep_stable,
};
use crate::reach::{lemma_marks_grow_grid, marks_grow, reach_exact, reachability, unmarked};
use crate::scan::{all_before, before, lemma_before_steps};
use crate::sokoboard::{Field, SokoBoard};
use vstd::prelude::*;

verus! {

/// A square with what the analysis of the board found out about it.
/// The pair (`row`, `col`) gives the square's coordinates on the board.
/// `reachable` is `true` if the pusher can walk to the square.
/// `productive` is `true` if a box may rest on the square.
/// `man_id` numbers the proposition "the pusher is on this square",
/// `block_id` the proposition "a box is on this square".
#[derive(Clone, Copy, Debug, PartialEq, Eq, Structural)]
pub struct AnnotatedField {
    pub field: Field,
    pub row: usize,
    pub col: usize,
    pub reachable: bool,
    pub productive: bool,
    pub man_id: Option<u32>,
    pub block_id: Option<u32>,
}

#[allow(non_snake_case)]
impl AnnotatedField {
    /// A square before any analysis: not known to be reachable, productive
    /// only if it is a goal, and without variables.
    pub fn new(field: Field, row: usize, col: usize) -> (f: AnnotatedField)
        ensures
            f == (AnnotatedField {
                field,
                row,
                col,
                reachable: false,
                productive: field.is_goal(),
                man_id: None,
                block_id: None,
            }),
    {
        AnnotatedField {
            field,
            row,
            col,
            reachable: false,
            productive: field == Field::Goal || field == Field::BlockOnGoal || field
                == Field::ManOnGoal,
            man_id: None,
            block_id: None,
        }
    }

    /// Whether a box rests on the square.
    pub fn hasBlock(&self) -> (b: bool)
        ensures
            b == self.field.has_block(),
    {
        match self.field {
            Field::Block | Field::BlockOnGoal => true,
            _ => false,
        }
    }

    /// Whether the pusher stands on the square.
    pub fn hasMan(&self) -> (b: bool)
        ensures
            b == self.field.has_man(),
    {
        match self.field {
            Field::Man | Field::ManOnGoal => true,
            _ => false,
        }
    }

    /// Whether the square is a goal.
    pub fn isGoal(&self) -> (b: bool)
        ensures
            b == self.field.is_goal(),
    {
        match self.field {
            Field::Goal | Field::ManOnGoal | Field::BlockOnGoal => true,
            _ => false,
        }
    }
}

/// A Sokoban playing field whose squares carry what was found out about them
/// when the board was set up.
#[derive(Debug, PartialEq, Eq)]
pub struct SokoAnnotatedBoard {
    pub board: Vec<Vec<AnnotatedField>>,
}

/// The screen under the annotations.
pub open spec fn grid_of(fs: Seq<Vec<AnnotatedField>>) -> Grid {
    Seq::new(fs.len(), |r: int| Seq::new(fs[r]@.len(), |c: int| fs[r][c].field))
}

/// A box rests on `(r, c)`, and the square is not marked productive.
pub open spec fn stuck(fs: Seq<Vec<AnnotatedField>>, r: int, c: int) -> bool {
    fs[r][c].field.has_block() && !fs[r][c].productive
}

/// `!stuck` as a function of the square.
pub open spec fn free_at(fs: Seq<Vec<AnnotatedField>>) -> spec_fn(int, int) -> bool {
    |r: int, c: int| !stuck(fs, r, c)
}

/// `(row, col)` is the first square, read row by row, with a box that is
/// stuck.
pub open spec fn first_stuck(fs: Seq<Vec<AnnotatedField>>, row: int, col: int) -> bool {
    &&& in_grid(fs, row, col)
    &&& stuck(fs, row, col)
    &&& forall|r: int, c: int| in_grid(fs, r, c) && before(r, c, row, col) ==> !#[trigger] stuck(fs, r, c)
}

/// No box is stuck.
pub open spec fn none_stuck(fs: Seq<Vec<AnnotatedField>>) -> bool {
    forall|r: int, c: int| in_grid(fs, r, c) ==> !#[trigger] stuck(fs, r, c)
}

/// Looks for a box on a square that is not marked productive: the puzzle
/// cannot be solved with such a box. Gives the first such square, read row by
/// row.
pub fn sanityCheck(soko: &SokoAnnotatedBoard) -> (bad: Option<(usize, usize)>)
    ensures
        match bad {
            Some((row, col)) => first_stuck(soko.board@, row as int, col as int),
            None => none_stuck(soko.board@),
        },
{
    let ghost fs = soko.board@;
    let mut row: usize = 0;
    while row < soko.board.len()
        invariant
            fs == soko.board@,
            row <= fs.len(),
            all_before(fs, free_at(fs), row as int, 0),
        decreases fs.len() - row,
    {
        let mut col: usize = 0;
        while col < soko.board[row].len()
            invariant
                fs == soko.board@,
                row < fs.len(),
                col <= fs[row as int].len(),
                all_before(fs, free_at(fs), row as int, col as int),
            decreases fs[row as int].len() - col,
        {
            let field = &soko.board[row][col];
            if !field.productive && field.hasBlock() {
                proof {
                    assert forall|r: int, c: int|
                        in_grid(fs, r, c) && before(r, c, row as int, col as int) implies !#[trigger] stuck(
                        fs,
                        r,
                        c,
                    ) by {
                        assert(free_at(fs)(r, c));
                    }
                }
                return Some((row, col));
            }
            proof {
                lemma_before_steps(fs, free_at(fs), row as int, col as int);
            }
            col += 1;
        }
        proof {
            lemma_before_steps(fs, free_at(fs), row as int, col as int);
        }
        row += 1;
    }
    proof {
        assert forall|r: int, c: int| in_grid(fs, r, c) implies !#[trigger] stuck(fs, r, c) by {
            assert(before(r, c, row as int, 0));
            assert(free_at(fs)(r, c));
        }
    }
    None
}

/// Why a board cannot be annotated.
#[derive(Clone, Copy, Debug, PartialEq, Eq)]
pub enum Impossible {
    /// A box rests on a square that is not productive: it can never be
    /// brought to a goal.
    BlockOnUnproductive { row: usize, col: usize },
    /// The board has more than `MAX_CELLS` squares.
    TooLarge,
}

/// What the analysis finds out about square `(r, c)` of a screen.
pub open spec fn annotation(g: Grid, r: int, c: int) -> AnnotatedField {
    AnnotatedField {
        field: g[r][c],
        row: r as usize,
        col: c as usize,
        reachable: reachable(g, r, c),
        productive: productive(g, r, c),
        man_id: Some((4 * cell_index(g, r, c)) as u32),
        block_id: Some((4 * cell_index(g, r, c) + 2) as u32),
    }
}

/// A box rests on `(r, c)`, and the square is not productive.
pub open spec fn stuck_block(g: Grid, r: int, c: int) -> bool {
    g[r][c].has_block() && !productive(g, r, c)
}

/// `(row, col)` is the first square of the screen, read row by row, with a
/// box on a square that is not productive.
pub open spec fn first_stuck_block(g: Grid, row: int, col: int) -> bool {
    &&& on_grid(g, row, col)
    &&& stuck_block(g, row, col)
    &&& forall|r: int, c: int| on_grid(g, r, c) && before(r, c, row, col) ==> !#[trigger] stuck_block(g, r, c)
}

/// Every box of the screen rests on a productive square.
pub open spec fn no_stuck_block(g: Grid) -> bool {
    forall|r: int, c: int| on_grid(g, r, c) ==> !#[trigger] stuck_block(g, r, c)
}

/// The squares as they are before the analysis.
pub open spec fn fresh(fs: Seq<Vec<AnnotatedField>>, g: Grid) -> bool {
    &&& fs.len() == g.len()
    &&& forall|r: int| 0 <= r < fs.len() ==> (#[trigger] fs[r]).len() == g[r].len()
    &&& forall|r: int, c: int|
        in_grid(fs, r, c) ==> #[trigger] fs[r][c] == (AnnotatedField {
            field: g[r][c],
            row: r as usize,
            col: c as usize,
            reachable: false,
            productive: g[r][c].is_goal(),
            man_id: None,
            block_id: None,
        })
}

/// The annotations agree with the screen under them.
pub open spec fn annotated(fs: Seq<Vec<AnnotatedField>>) -> bool {
    forall|r: int, c: int| in_grid(fs, r, c) ==> #[trigger] fs[r][c] == annotation(grid_of(fs), r, c)
}

/// Squares fresh from the screen show the screen, carry no mark of
/// reachability, and are marked productive exactly where a goal is.
proof fn lemma_fresh(fs: Seq<Vec<AnnotatedField>>, g: Grid)
    requires
        fresh(fs, g),
    ensures
        grid_of(fs) == g,
        unmarked(fs),
        goals_marked(fs),
{
    let h = grid_of(fs);
    assert forall|r: int| 0 <= r < h.len() implies #[trigger] h[r] =~= g[r] by {
        assert(fs[r].len() == g[r].len());
        assert forall|c: int| 0 <= c < h[r].len() implies h[r][c] == g[r][c] by {
            assert(in_grid(fs, r, c));
            assert(fs[r][c].field == g[r][c]);
        }
    }
    assert(h =~= g);
}

/// The passes one after another give the annotation of every square.
proof fn lemma_passes(
    g: Grid,
    f0: Seq<Vec<AnnotatedField>>,
    f1: Seq<Vec<AnnotatedField>>,
    f2: Seq<Vec<AnnotatedField>>,
)
    requires
        fresh(f0, g),
        marks_grow(f0, f1),
        reach_exact(f1),
        prod_marks_grow(f1, f2),
        reach_exact(f2),
        prod_exact(f2),
    ensures
        grid_of(f1) == g,
        goals_marked(f1),
        grid_of(f2) == g,
        forall|r: int, c: int| in_grid(f2, r, c) == on_grid(g, r, c),
        forall|r: int, c: int| on_grid(g, r, c) ==> stuck(f2, r, c) == #[trigger] stuck_block(g, r, c),
        forall|r: int, c: int|
            on_grid(g, r, c) ==> #[trigger] f2[r][c] == (AnnotatedField {
                man_id: None,
                block_id: None,
                ..annotation(g, r, c)
            }),
{
    lemma_fresh(f0, g);
    lemma_marks_grow_grid(f0, f1);
    lemma_prod_marks_grow_grid(f1, f2);
    assert forall|r: int, c: int| in_grid(f1, r, c) implies (#[trigger] f1[r][c]).productive
        == f1[r][c].field.is_goal() by {
        assert(in_grid(f0, r, c));
        assert(f1[r][c] == AnnotatedField { reachable: f1[r][c].reachable, ..f0[r][c] });
    }
    assert forall|r: int, c: int| in_grid(f2, r, c) == on_grid(g, r, c) by {
        if 0 <= r < g.len() {
            assert(f0[r].len() == g[r].len());
            assert(f0[r].len() == f1[r].len());
            assert(f1[r].len() == f2[r].len());
        }
    }
    assert forall|r: int, c: int| on_grid(g, r, c) implies #[trigger] f2[r][c] == (AnnotatedField {
        man_id: None,
        block_id: None,
        ..annotation(g, r, c)
    }) by {
        assert(in_grid(f2, r, c));
        assert(in_grid(f1, r, c));
        assert(in_grid(f0, r, c));
        assert(f1[r][c] == AnnotatedField { reachable: f1[r][c].reachable, ..f0[r][c] });
        assert(f2[r][c] == AnnotatedField { productive: f2[r][c].productive, ..f1[r][c] });
        assert(f2[r][c].reachable == reachable(g, r, c));
        assert(f2[r][c].productive == productive(g, r, c));
    }
    assert forall|r: int, c: int| on_grid(g, r, c) implies stuck(f2, r, c) == #[trigger] stuck_block(
        g,
        r,
        c,
    ) by {
        assert(f2[r][c] == AnnotatedField {
            man_id: None,
            block_id: None,
            ..annotation(g, r, c)
        });
    }
}

#[allow(non_snake_case)]
impl SokoAnnotatedBoard {
    /// The screen under the annotations.
    pub open spec fn grid(&self) -> Grid {
        grid_of(self.board@)
    }

    /// The board is annotated as the analysis annotates it, and the analysis
    /// found it fit to be played: every square carries its coordinates,
    /// whether it is reachable, whether it is productive, and its two
    /// variables; no box rests on a square that is not productive; and the
    /// variable numbers fit in 32 bits.
    pub open spec fn wf(&self) -> bool {
        &&& annotated(self.board@)
        &&& no_stuck_block(self.grid())
        &&& cell_count(self.grid()) <= MAX_CELLS
    }

    /// Annotates a screen: finds the squares that the pusher can reach and
    /// those on which a box may rest, makes sure that no box rests elsewhere,
    /// and numbers the variables of every square.
    pub fn fromSokoBoard(board: SokoBoard) -> (result: Result<SokoAnnotatedBoard, Impossible>)
        ensures
            match result {
                Ok(soko) => soko.wf() && soko.grid() == board@,
                Err(Impossible::BlockOnUnproductive { row, col }) => first_stuck_block(
                    board@,
                    row as int,
                    col as int,
                ),
                Err(Impossible::TooLarge) => no_stuck_block(board@) && cell_count(board@) > MAX_CELLS,
            },
    {
        let ghost g = board@;
        let SokoBoard(board) = board;
        let mut newBoard: Vec<Vec<AnnotatedField>> = Vec::new();
        let mut row: usize = 0;
        while row < board.len()
            invariant
                row <= board@.len(),
                g.len() == board@.len(),
                forall|r: int| 0 <= r < g.len() ==> #[trigger] g[r] == board@[r]@,
                newBoard@.len() == row,
                forall|r: int| 0 <= r < row ==> (#[trigger] newBoard@[r]).len() == g[r].len(),
                forall|r: int, c: int|
                    0 <= r < row && in_grid(newBoard@, r, c) ==> #[trigger] newBoard@[r][c] == (
                    AnnotatedField {
                        field: g[r][c],
                        row: r as usize,
                        col: c as usize,
                        reachable: false,
                        productive: g[r][c].is_goal(),
                        man_id: None,
                        block_id: None,
                    }),
            decreases board@.len() - row,
        {
            let mut newRow: Vec<AnnotatedField> = Vec::new();
            let mut col: usize = 0;
            while col < board[row].len()
                invariant
                    row < board@.len(),
                    g[row as int] == board@[row as int]@,
                    col <= board@[row as int].len(),
                    newRow@.len() == col,
                    forall|c: int|
                        0 <= c < col ==> #[trigger] newRow@[c] == (AnnotatedField {
                            field: g[row as int][c],
                            row: row,
                            col: c as usize,
                            reachable: false,
                            productive: g[row as int][c].is_goal(),
                            man_id: None,
                            block_id: None,
                        }),
                decreases board@[row as int].len() - col,
            {
                newRow.push(AnnotatedField::new(board[row][col], row, col));
                col += 1;
            }
            newBoard.push(newRow);
            row += 1;
        }
        let mut result = SokoAnnotatedBoard { board: newBoard };
        let ghost f0 = result.board@;
        proof {
            assert(fresh(f0, g));
            lemma_fresh(f0, g);
        }
        reachability(&mut result);
        let ghost f1 = result.board@;
        proof {
            lemma_marks_grow_grid(f0, f1);
            assert forall|r: int, c: int| in_grid(f1, r, c) implies (#[trigger] f1[r][c]).productive
                == f1[r][c].field.is_goal() by {
                assert(in_grid(f0, r, c));
                assert(f1[r][c] == AnnotatedField { reachable: f1[r][c].reachable, ..f0[r][c] });
            }
        }
        productivity(&mut result);
        let ghost f2 = result.board@;
        proof {
            lemma_passes(g, f0, f1, f2);
        }
        if let Some((row, col)) = sanityCheck(&result) {
            proof {
                assert(stuck(f2, row as int, col as int) == stuck_block(g, row as int, col as int));
                assert forall|r: int, c: int|
                    on_grid(g, r, c) && before(r, c, row as int, col as int) implies !#[trigger] stuck_block(
                    g,
                    r,
                    c,
                ) by {
                    assert(stuck(f2, r, c) == stuck_block(g, r, c));
                }
            }
            return Err(Impossible::BlockOnUnproductive { row, col });
        }
        proof {
            assert forall|r: int, c: int| on_grid(g, r, c) implies !#[trigger] stuck_block(
                g,
                r,
                c,
            ) by {
                assert(stuck(f2, r, c) == stuck_block(g, r, c));
            }
        }
        if !assignIDs(&mut result) {
            return Err(Impossible::TooLarge);
        }
        proof {
            let f3 = result.board@;
            assert forall|r: int| 0 <= r < g.len() implies #[trigger] grid_of(f3)[r] =~= g[r] by {
                assert(f3[r].len() == f2[r].len());
                assert forall|c: int| 0 <= c < g[r].len() implies grid_of(f3)[r][c] == g[r][c] by {
                    assert(in_grid(f2, r, c));
                    assert(f3[r][c] == with_ids(f2[r][c], cell_index(g, r, c)));
                    assert(f2[r][c] == AnnotatedField {
                        man_id: None,
                        block_id: None,
                        ..annotation(g, r, c)
                    });
                }
            }
            assert(grid_of(f3) =~= g);
            assert forall|r: int, c: int| in_grid(f3, r, c) implies #[trigger] f3[r][c] == annotation(
                g,
                r,
                c,
            ) by {
                assert(f3[r].len() == f2[r].len());
                assert(in_grid(f2, r, c));
                assert(f3[r][c] == with_ids(f2[r][c], cell_index(g, r, c)));
                assert(f2[r][c] == AnnotatedField {
                    man_id: None,
                    block_id: None,
                    ..annotation(g, r, c)
                });
            }
        }
        Ok(result)
    }
}

/// The annotation is a function of the screen alone: two annotated boards
/// over the same screen are the same, square by square.
pub proof fn lemma_annotation_determined(a: SokoAnnotatedBoard, b: SokoAnnotatedBoard)
    requires
        a.wf(),
        b.wf(),
        a.grid() == b.grid(),
    ensures
        a.board@.len() == b.board@.len(),
        forall|r: int| 0 <= r < a.board@.len() ==> (#[trigger] a.board@[r])@ == b.board@[r]@,
{
    let g = a.grid();
    assert(a.board@.len() == g.len());
    assert(b.board@.len() == b.grid().len());
    assert forall|r: int| 0 <= r < a.board@.len() implies (#[trigger] a.board@[r])@ == b.board@[r]@ by {
        assert(a.grid()[r].len() == a.board@[r]@.len());
        assert(b.grid()[r].len() == b.board@[r]@.len());
        assert forall|c: int| 0 <= c < a.board@[r]@.len() implies a.board@[r]@[c] == b.board@[r]@[c] by {
            assert(in_grid(a.board@, r, c));
            assert(in_grid(b.board@, r, c));
            assert(a.board@[r][c] == annotation(g, r, c));
            assert(b.board@[r][c] == annotation(g, r, c));
        }
        assert(a.board@[r]@ =~= b.board@[r]@);
    }
}

/// A square is marked reachable exactly if some walk of the pusher leads to
/// it from where the pusher starts: a walk takes axis steps, keeps off the
/// walls and off the edge, and takes no notice of boxes.
pub proof fn lemma_reachable_iff_walk(soko: SokoAnnotatedBoard, r: int, c: int)
    requires
        soko.wf(),
        in_grid(soko.board@, r, c),
    ensures
        soko.board@[r][c].reachable <==> exists|path: Seq<(int, int)>| walk_to(soko.grid(), path, r, c),
{
    reveal(reachable);
    assert(soko.board@[r][c] == annotation(soko.grid(), r, c));
}

/// One more sweep over an annotated board marks nothing: the squares marked
/// productive are a fixed point of the rule that marks them.
pub proof fn lemma_one_more_sweep(soko: SokoAnnotatedBoard)
    requires
        soko.wf(),
    ensures
        sweep_stable(soko.board@),
{
    let fs = soko.board@;
    let g = soko.grid();
    assert forall|r: int, c: int, d: Direction| !#[trigger] needs_mark(fs, r, c, d) by {
        if needs_mark(fs, r, c, d) {
            let (ar, ac) = (r + d.dr(), c + d.dc());
            let (br, bc) = (r - d.dr(), c - d.dc());
            assert(fs[r][c] == annotation(g, r, c));
            assert(fs[ar][ac] == annotation(g, ar, ac));
            assert(fs[br][bc] == annotation(g, br, bc));
            lemma_productive_push(g, r, c, d);
        }
    }
}

/// No two variables are the same: each square has a pusher variable and a
/// box variable of its own, all of them even, so that the odd number after
/// each is free for the state after a step.
pub proof fn lemma_ids_unique(soko: SokoAnnotatedBoard, r: int, c: int, r2: int, c2: int)
    requires
        soko.wf(),
        in_grid(soko.board@, r, c),
        in_grid(soko.board@, r2, c2),
    ensures
        soko.board@[r][c].man_id is Some,
        soko.board@[r][c].block_id is Some,
        soko.board@[r][c].man_id.unwrap() as int == 4 * cell_index(soko.grid(), r, c),
        soko.board@[r][c].block_id.unwrap() as int == 4 * cell_index(soko.grid(), r, c) + 2,
        soko.board@[r][c].man_id.unwrap() != soko.board@[r2][c2].block_id.unwrap(),
        (r, c) != (r2, c2) ==> soko.board@[r][c].man_id.unwrap() != soko.board@[r2][c2].man_id.unwrap(),
        (r, c) != (r2, c2) ==> soko.board@[r][c].block_id.unwrap()
            != soko.board@[r2][c2].block_id.unwrap(),
{
    let fs = soko.board@;
    let g = soko.grid();
    assert(fs[r][c] == annotation(g, r, c));
    assert(fs[r2][c2] == annotation(g, r2, c2));
    lemma_cell_index_unique(g, r, c, r2, c2);
    lemma_cell_index_unique(g, r2, c2, r, c);
}

} // verus!
