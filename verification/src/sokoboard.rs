use crate::grid::{on_grid, one_man, only_man, Grid};
use crate::scan::before;
use vstd::prelude::*;
use vstd::string::*;

verus! {

/// What one square of the screen holds.
#[derive(Clone, Copy, Debug, PartialEq, Eq, Structural)]
pub enum Field {
    Empty,
    Wall,
    Man,
    Block,
    Goal,
    BlockOnGoal,
    ManOnGoal,
}

impl Field {
    /// The pusher stands on this square.
    pub open spec fn has_man(self) -> bool {
        self == Field::Man || self == Field::ManOnGoal
    }

    /// A box rests on this square.
    pub open spec fn has_block(self) -> bool {
        self == Field::Block || self == Field::BlockOnGoal
    }

    /// A box must end up on this square.
    pub open spec fn is_goal(self) -> bool {
        self == Field::Goal || self == Field::ManOnGoal || self == Field::BlockOnGoal
    }

    /// The character that shows the square on a screen.
    pub open spec fn char_of(self) -> char {
        match self {
            Field::Empty => ' ',
            Field::Wall => '#',
            Field::Man => '@',
            Field::Block => '$',
            Field::Goal => '.',
            Field::BlockOnGoal => '*',
            Field::ManOnGoal => '+',
        }
    }

    /// The square that a character shows, if it shows one.
    pub open spec fn of_char(c: char) -> Option<Field> {
        if c == ' ' {
            Some(Field::Empty)
        } else if c == '#' {
            Some(Field::Wall)
        } else if c == '@' {
            Some(Field::Man)
        } else if c == '$' {
            Some(Field::Block)
        } else if c == '.' {
            Some(Field::Goal)
        } else if c == '*' {
            Some(Field::BlockOnGoal)
        } else if c == '+' {
            Some(Field::ManOnGoal)
        } else {
            None
        }
    }

    /// The square that a character shows, if it shows one.
    pub fn from_char(c: char) -> (f: Option<Field>)
        ensures
            f == Field::of_char(c),
    {
        if c == ' ' {
            Some(Field::Empty)
        } else if c == '#' {
            Some(Field::Wall)
        } else if c == '@' {
            Some(Field::Man)
        } else if c == '$' {
            Some(Field::Block)
        } else if c == '.' {
            Some(Field::Goal)
        } else if c == '*' {
            Some(Field::BlockOnGoal)
        } else if c == '+' {
            Some(Field::ManOnGoal)
        } else {
            None
        }
    }

    /// The square that a text of one character shows; `None` for any other
    /// text.
    pub fn from_str(s: &str) -> (f: Option<Field>)
        ensures
            f == if s@.len() == 1 {
                Field::of_char(s@[0])
            } else {
                None
            },
    {
        let chars = chars_of(s);
        if chars.len() == 1 {
            Field::from_char(chars[0])
        } else {
            None
        }
    }

    /// The character that shows the square on a screen.
    pub fn to_char(&self) -> (c: char)
        ensures
            c == self.char_of(),
            Field::of_char(c) == Some(*self),
    {
        match self {
            Field::Empty => ' ',
            Field::Wall => '#',
            Field::Man => '@',
            Field::Block => '$',
            Field::Goal => '.',
            Field::BlockOnGoal => '*',
            Field::ManOnGoal => '+',
        }
    }
}

/// The characters of a text, one by one.
fn chars_of(s: &str) -> (v: Vec<char>)
    ensures
        v@ == s@,
{
    let mut v: Vec<char> = Vec::new();
    for c in it: s.chars()
        invariant
            it.seq() == s@,
            v@ == it.seq().take(it.index()),
    {
        v.push(c);
    }
    v
}

/// Why a text is no screen.
#[derive(Clone, Copy, Debug, PartialEq, Eq)]
pub enum ParseError {
    /// The text has no line, or only empty lines.
    Empty,
    /// The text holds a character that shows no square; this is the first
    /// such character.
    InvalidCharacter(char),
    /// The text shows no pusher, or more than one.
    NotOnePusher,
}

/// A line without the carriage return at its end, if it has one.
pub open spec fn strip_cr(line: Seq<char>) -> Seq<char> {
    if line.len() > 0 && line.last() == '\r' {
        line.drop_last()
    } else {
        line
    }
}

/// The lines of `s` from position `i` on, after the lines `done`, when `cur`
/// has been read of the line at hand. A line ends at a line feed; a carriage
/// return just before the line feed belongs to the line's end. What follows
/// the last line feed is a line if it is not empty.
pub open spec fn split_lines(s: Seq<char>, i: int, cur: Seq<char>, done: Seq<Seq<char>>) -> Seq<
    Seq<char>,
>
    decreases s.len() - i,
{
    if i < 0 || i >= s.len() {
        if cur.len() > 0 {
            done.push(cur)
        } else {
            done
        }
    } else if s[i] == '\n' {
        split_lines(s, i + 1, Seq::empty(), done.push(strip_cr(cur)))
    } else {
        split_lines(s, i + 1, cur.push(s[i]), done)
    }
}

/// The lines of a text.
pub open spec fn lines(s: Seq<char>) -> Seq<Seq<char>> {
    split_lines(s, 0, Seq::empty(), Seq::empty())
}

/// The length of the longest of the first `n` lines.
pub open spec fn width_of(ls: Seq<Seq<char>>, n: int) -> nat
    decreases n,
{
    if n <= 0 {
        0
    } else if ls[n - 1].len() > width_of(ls, n - 1) {
        ls[n - 1].len()
    } else {
        width_of(ls, n - 1)
    }
}

/// The length of the longest line.
pub open spec fn width(ls: Seq<Seq<char>>) -> nat {
    width_of(ls, ls.len() as int)
}

/// Character `i` of line `r` shows no square.
pub open spec fn bad_char(ls: Seq<Seq<char>>, r: int, i: int) -> bool {
    0 <= r < ls.len() && 0 <= i < ls[r].len() && Field::of_char(ls[r][i]) is None
}

/// Character `i` of line `r` is the first in the text to show no square.
pub open spec fn first_bad_char(ls: Seq<Seq<char>>, r: int, i: int) -> bool {
    &&& bad_char(ls, r, i)
    &&& forall|r2: int, i2: int| before(r2, i2, r, i) ==> !#[trigger] bad_char(ls, r2, i2)
}

/// Every character of the text shows a square.
pub open spec fn all_good(ls: Seq<Seq<char>>) -> bool {
    forall|r: int, i: int| !#[trigger] bad_char(ls, r, i)
}

/// The squares that a line shows, with empty squares after them up to the
/// width `w`.
pub open spec fn row_of(line: Seq<char>, w: nat) -> Seq<Field> {
    Seq::new(
        w,
        |i: int|
            if i < line.len() {
                Field::of_char(line[i]).unwrap()
            } else {
                Field::Empty
            },
    )
}

/// The screen that the lines show: one row to a line, every row as long as
/// the longest line.
pub open spec fn screen(ls: Seq<Seq<char>>) -> Grid {
    Seq::new(ls.len(), |r: int| row_of(ls[r], width(ls)))
}

/// The text that shows the first `n` rows of a screen: the characters of
/// each row, and a line feed after each.
pub open spec fn text_of(g: Grid, n: int) -> Seq<char>
    decreases n,
{
    if n <= 0 {
        Seq::empty()
    } else {
        text_of(g, n - 1) + g[n - 1].map_values(|f: Field| f.char_of()) + seq!['\n']
    }
}

/// Of the squares before `(row, col)`, `found` is the one with the pusher,
/// and no other has it; no square before `(row, col)` has it if `found` is
/// `None`.
pub open spec fn only_man_before(g: Grid, found: Option<(usize, usize)>, row: int, col: int) -> bool {
    &&& found matches Some(f) ==> on_grid(g, f.0 as int, f.1 as int) && g[f.0 as int][f.1 as int].has_man()
        && before(f.0 as int, f.1 as int, row, col)
    &&& forall|r: int, c: int|
        on_grid(g, r, c) && before(r, c, row, col) && (#[trigger] g[r][c]).has_man() ==> (found matches Some(
            f,
        ) && f.0 == r && f.1 == c)
}

/// The lines as sequences.
pub open spec fn seqs_of(v: Seq<Vec<char>>) -> Seq<Seq<char>> {
    Seq::new(v.len(), |r: int| v[r]@)
}

/// The lines of a text.
fn lines_of(s: &str) -> (done: Vec<Vec<char>>)
    ensures
        seqs_of(done@) == lines(s@),
{
    let chars = chars_of(s);
    let mut done: Vec<Vec<char>> = Vec::new();
    let mut cur: Vec<char> = Vec::new();
    let mut i: usize = 0;
    assert(seqs_of(done@) =~= Seq::empty());
    while i < chars.len()
        invariant
            chars@ == s@,
            i <= chars@.len(),
            split_lines(s@, i as int, cur@, seqs_of(done@)) == lines(s@),
        decreases chars@.len() - i,
    {
        let c = chars[i];
        if c == '\n' {
            if cur.len() > 0 && cur[cur.len() - 1] == '\r' {
                cur.pop();
            }
            let ghost before_push = seqs_of(done@);
            let ghost line = cur@;
            done.push(cur);
            cur = Vec::new();
            assert(seqs_of(done@) =~= before_push.push(line));
        } else {
            cur.push(c);
        }
        i += 1;
    }
    if cur.len() > 0 {
        let ghost before_push = seqs_of(done@);
        let ghost line = cur@;
        done.push(cur);
        assert(seqs_of(done@) =~= before_push.push(line));
    }
    done
}

/// The length of the longest line.
fn width_of_lines(ls: &Vec<Vec<char>>) -> (w: usize)
    ensures
        w == width(seqs_of(ls@)),
{
    let mut w: usize = 0;
    let mut r: usize = 0;
    while r < ls.len()
        invariant
            r <= ls@.len(),
            w == width_of(seqs_of(ls@), r as int),
        decreases ls@.len() - r,
    {
        if ls[r].len() > w {
            w = ls[r].len();
        }
        r += 1;
    }
    w
}

impl SokoBoard {
    /// Every row has as many squares as the first, and there is a square.
    pub open spec fn rectangular(&self) -> bool {
        &&& self@.len() > 0
        &&& self@[0].len() > 0
        &&& forall|r: int| 0 <= r < self@.len() ==> (#[trigger] self@[r]).len() == self@[0].len()
    }

    /// Reads a screen from a text, line by line: `' '` is an empty square,
    /// `'#'` a wall, `'@'` the pusher, `'$'` a box, `'.'` a goal, `'*'` a box
    /// on a goal, `'+'` the pusher on a goal. Lines shorter than the longest
    /// are filled up with empty squares. A text without a character in any
    /// line is refused, and so is a text with any other character, and a
    /// text that does not show the pusher exactly once.
    pub fn from_str(s: &str) -> (result: Result<SokoBoard, ParseError>)
        ensures
            match result {
                Ok(board) => {
                    &&& width(lines(s@)) > 0
                    &&& all_good(lines(s@))
                    &&& board@ == screen(lines(s@))
                    &&& board.rectangular()
                    &&& one_man(board@)
                },
                Err(ParseError::Empty) => width(lines(s@)) == 0,
                Err(ParseError::InvalidCharacter(c)) => {
                    &&& width(lines(s@)) > 0
                    &&& exists|r: int, i: int| #[trigger]
                        first_bad_char(lines(s@), r, i) && lines(s@)[r][i] == c
                },
                Err(ParseError::NotOnePusher) => {
                    &&& width(lines(s@)) > 0
                    &&& all_good(lines(s@))
                    &&& !one_man(screen(lines(s@)))
                },
            },
    {
        let text = lines_of(s);
        let ghost ls = seqs_of(text@);
        let cols = width_of_lines(&text);
        if cols == 0 {
            return Err(ParseError::Empty);
        }
        let mut result: Vec<Vec<Field>> = Vec::new();
        let mut r: usize = 0;
        while r < text.len()
            invariant
                ls == seqs_of(text@),
                ls == lines(s@),
                cols == width(ls),
                cols > 0,
                r <= text@.len(),
                result@.len() == r,
                forall|r2: int, i2: int| before(r2, i2, r as int, 0) ==> !#[trigger] bad_char(ls, r2, i2),
                forall|k: int| 0 <= k < r ==> (#[trigger] result@[k])@ == row_of(ls[k], cols as nat),
            decreases text@.len() - r,
        {
            let line = &text[r];
            assert(line@ == ls[r as int]);
            proof {
                lemma_width_bounds(ls, ls.len() as int, r as int);
            }
            let mut row: Vec<Field> = Vec::new();
            let mut i: usize = 0;
            while i < line.len()
                invariant
                    line@ == ls[r as int],
                    ls == lines(s@),
                    cols == width(ls),
                    cols > 0,
                    r < ls.len(),
                    i <= line@.len() <= cols,
                    row@.len() == i,
                    forall|r2: int, i2: int|
                        before(r2, i2, r as int, i as int) ==> !#[trigger] bad_char(ls, r2, i2),
                    forall|k: int| 0 <= k < i ==> Field::of_char(line@[k]) == Some(#[trigger] row@[k]),
                decreases line@.len() - i,
            {
                match Field::from_char(line[i]) {
                    Some(field) => {
                        row.push(field);
                    },
                    None => {
                        assert(first_bad_char(ls, r as int, i as int));
                        return Err(ParseError::InvalidCharacter(line[i]));
                    },
                }
                proof {
                    assert forall|r2: int, i2: int| before(r2, i2, r as int, i + 1) implies !#[trigger] bad_char(
                        ls,
                        r2,
                        i2,
                    ) by {
                        if !(r2 == r && i2 == i) {
                            assert(before(r2, i2, r as int, i as int));
                        }
                    }
                }
                i += 1;
            }
            while row.len() < cols
                invariant
                    r < ls.len(),
                    line@ == ls[r as int],
                    line@.len() <= row@.len() <= cols,
                    forall|k: int|
                        0 <= k < line@.len() ==> Field::of_char(line@[k]) == Some(#[trigger] row@[k]),
                    forall|k: int| line@.len() <= k < row@.len() ==> #[trigger] row@[k] == Field::Empty,
                decreases cols - row@.len(),
            {
                row.push(Field::Empty);
            }
            assert(row@ =~= row_of(ls[r as int], cols as nat));
            result.push(row);
            proof {
                assert forall|r2: int, i2: int| before(r2, i2, r + 1, 0) implies !#[trigger] bad_char(
                    ls,
                    r2,
                    i2,
                ) by {
                    if bad_char(ls, r2, i2) {
                        assert(before(r2, i2, r as int, line@.len() as int));
                    }
                }
            }
            r += 1;
        }
        let board = SokoBoard(result);
        proof {
            assert(board@ =~= screen(ls));
            assert forall|r2: int, i2: int| !#[trigger] bad_char(ls, r2, i2) by {
                if bad_char(ls, r2, i2) {
                    assert(before(r2, i2, r as int, 0));
                }
            }
        }
        if !board.one_pusher() {
            return Err(ParseError::NotOnePusher);
        }
        Ok(board)
    }

    /// Whether the screen shows the pusher on exactly one square.
    pub fn one_pusher(&self) -> (b: bool)
        ensures
            b == one_man(self@),
    {
        let ghost g = self@;
        let mut found: Option<(usize, usize)> = None;
        let mut r: usize = 0;
        while r < self.0.len()
            invariant
                g == self@,
                r <= g.len(),
                only_man_before(g, found, r as int, 0),
            decreases g.len() - r,
        {
            let mut c: usize = 0;
            assert(g[r as int] == self.0@[r as int]@);
            while c < self.0[r].len()
                invariant
                    g == self@,
                    r < g.len(),
                    g[r as int] == self.0@[r as int]@,
                    c <= g[r as int].len(),
                    only_man_before(g, found, r as int, c as int),
                decreases g[r as int].len() - c,
            {
                let field = self.0[r][c];
                if field == Field::Man || field == Field::ManOnGoal {
                    if let Some(first) = found {
                        proof {
                            assert(g[first.0 as int][first.1 as int].has_man());
                            assert(on_grid(g, r as int, c as int) && g[r as int][c as int].has_man());
                            assert(!one_man(g)) by {
                                if one_man(g) {
                                    let (wr, wc) = choose|wr: int, wc: int| only_man(g, wr, wc);
                                    assert(first.0 == wr && first.1 == wc);
                                    assert(r == wr && c == wc);
                                }
                            }
                        }
                        return false;
                    }
                    found = Some((r, c));
                }
                proof {
                    assert forall|r2: int, c2: int|
                        on_grid(g, r2, c2) && before(r2, c2, r as int, c + 1) && (#[trigger] g[r2][c2]).has_man() implies (
                    found matches Some(f) && f.0 == r2 && f.1 == c2) by {
                        if !(r2 == r && c2 == c) {
                            assert(before(r2, c2, r as int, c as int));
                        }
                    }
                }
                c += 1;
            }
            proof {
                assert forall|r2: int, c2: int|
                    on_grid(g, r2, c2) && before(r2, c2, r + 1, 0) && (#[trigger] g[r2][c2]).has_man() implies (
                found matches Some(f) && f.0 == r2 && f.1 == c2) by {
                    assert(before(r2, c2, r as int, c as int));
                }
            }
            r += 1;
        }
        match found {
            Some(first) => {
                proof {
                    assert forall|r2: int, c2: int|
                        on_grid(g, r2, c2) && (#[trigger] g[r2][c2]).has_man() implies r2 == first.0
                        && c2 == first.1 by {
                        assert(before(r2, c2, r as int, 0));
                    }
                    assert(only_man(g, first.0 as int, first.1 as int));
                }
                true
            },
            None => {
                proof {
                    if one_man(g) {
                        let (wr, wc) = choose|wr: int, wc: int| only_man(g, wr, wc);
                        assert(before(wr, wc, r as int, 0));
                        assert(g[wr][wc].has_man());
                    }
                }
                false
            },
        }
    }

    /// The text that shows the screen: row after row, each followed by a line
    /// feed.
    pub fn to_string(&self) -> (s: String)
        ensures
            s@ == text_of(self@, self@.len() as int),
    {
        let mut s = String::new();
        let mut r: usize = 0;
        while r < self.0.len()
            invariant
                r <= self@.len(),
                self@.len() == self.0@.len(),
                s@ == text_of(self@, r as int),
            decreases self@.len() - r,
        {
            let ghost start = s@;
            let ghost shown = self@[r as int].map_values(|f: Field| f.char_of());
            let mut i: usize = 0;
            assert(self@[r as int] == self.0@[r as int]@);
            while i < self.0[r].len()
                invariant
                    r < self.0@.len(),
                    self@[r as int] == self.0@[r as int]@,
                    shown == self@[r as int].map_values(|f: Field| f.char_of()),
                    i <= self.0@[r as int]@.len(),
                    s@ == start + shown.take(i as int),
                decreases self.0@[r as int]@.len() - i,
            {
                proof {
                    reveal_strlit(" ");
                    reveal_strlit("#");
                    reveal_strlit("@");
                    reveal_strlit("$");
                    reveal_strlit(".");
                    reveal_strlit("*");
                    reveal_strlit("+");
                }
                let ghost prev = s@;
                match self.0[r][i] {
                    Field::Empty => s.append(" "),
                    Field::Wall => s.append("#"),
                    Field::Man => s.append("@"),
                    Field::Block => s.append("$"),
                    Field::Goal => s.append("."),
                    Field::BlockOnGoal => s.append("*"),
                    Field::ManOnGoal => s.append("+"),
                }
                assert(s@ =~= prev.push(shown[i as int]));
                assert(s@ =~= start + shown.take(i + 1));
                i += 1;
            }
            proof {
                reveal_strlit("\n");
                assert(shown.take(i as int) =~= shown);
            }
            s.append("\n");
            assert(s@ =~= start + shown + seq!['\n']);
            r += 1;
        }
        s
    }
}

/// No line is longer than the longest.
proof fn lemma_width_bounds(ls: Seq<Seq<char>>, n: int, r: int)
    requires
        0 <= r < n <= ls.len(),
    ensures
        ls[r].len() <= width_of(ls, n),
    decreases n,
{
    if r < n - 1 {
        lemma_width_bounds(ls, n - 1, r);
    }
}

/// A Sokoban screen: its squares, row by row.
#[derive(Debug, PartialEq, Eq)]
pub struct SokoBoard(pub Vec<Vec<Field>>);

impl View for SokoBoard {
    type V = Grid;

    /// The squares, row by row.
    open spec fn view(&self) -> Grid {
        Seq::new(self.0@.len(), |r: int| self.0@[r]@)
    }
}

} // verus!
