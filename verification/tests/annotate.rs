//! The analysis of the board: reachable squares, productive squares, the
//! check for lost boxes, and the numbering of the variables.

use sokoban::direction::{valid_index, Direction};
use sokoban::ids::{assignIDs, MAX_CELLS};
use sokoban::productive::productivity;
use sokoban::reach::reachability;
use sokoban::sokoannotatedboard::{sanityCheck, AnnotatedField, Impossible, SokoAnnotatedBoard};
use sokoban::sokoboard::{Field, SokoBoard};

fn annotate(text: &str) -> SokoAnnotatedBoard {
    SokoAnnotatedBoard::fromSokoBoard(SokoBoard::from_str(text).unwrap()).unwrap()
}

/// One character to a square: `X` where `flag` holds, `-` elsewhere.
fn picture(soko: &SokoAnnotatedBoard, flag: fn(&AnnotatedField) -> bool) -> Vec<String> {
    soko.board
        .iter()
        .map(|row| row.iter().map(|f| if flag(f) { 'X' } else { '-' }).collect())
        .collect()
}

fn is_reachable(f: &AnnotatedField) -> bool {
    f.reachable
}

fn is_productive(f: &AnnotatedField) -> bool {
    f.productive
}

/// The screen of a text that need not show the pusher once.
fn screen(text: &str) -> SokoBoard {
    SokoBoard(text.lines().map(|l| l.chars().map(|c| Field::from_char(c).unwrap()).collect()).collect())
}

fn fresh(text: &str) -> SokoAnnotatedBoard {
    let SokoBoard(rows) = screen(text);
    let mut board = Vec::new();
    for (r, row) in rows.iter().enumerate() {
        let mut fields = Vec::new();
        for (c, field) in row.iter().enumerate() {
            fields.push(AnnotatedField::new(*field, r, c));
        }
        board.push(fields);
    }
    SokoAnnotatedBoard { board }
}

/// The squares that a walk from the pusher reaches, found square by square.
fn walk_from_pusher(text: &str) -> Vec<String> {
    let rows: Vec<Vec<char>> = {
        let lines: Vec<&str> = text.lines().collect();
        let width: usize = lines.iter().map(|l| l.len()).max().unwrap_or(0);
        lines
            .iter()
            .map(|l| {
                let mut row: Vec<char> = l.chars().collect();
                row.resize(width, ' ');
                row
            })
            .collect()
    };
    let mut seen: Vec<Vec<bool>> = rows.iter().map(|r| vec![false; r.len()]).collect();
    let mut todo: Vec<(usize, usize)> = Vec::new();
    'find: for (r, row) in rows.iter().enumerate() {
        for (c, ch) in row.iter().enumerate() {
            if *ch == '@' || *ch == '+' {
                seen[r][c] = true;
                todo.push((r, c));
                break 'find;
            }
        }
    }
    while let Some((r, c)) = todo.pop() {
        let mut next: Vec<(usize, usize)> = vec![(r + 1, c), (r, c + 1)];
        if r > 0 {
            next.push((r - 1, c));
        }
        if c > 0 {
            next.push((r, c - 1));
        }
        for (r2, c2) in next {
            if r2 < rows.len() && c2 < rows[r2].len() && rows[r2][c2] != '#' && !seen[r2][c2] {
                seen[r2][c2] = true;
                todo.push((r2, c2));
            }
        }
    }
    seen.iter().map(|row| row.iter().map(|s| if *s { 'X' } else { '-' }).collect()).collect()
}

const ROOMS: &str = "########\n#  #   #\n# @# *.#\n#  #   #\n####   #\n#  .  .#\n########\n";

#[test]
fn new_field_knows_nothing_yet() {
    let f = AnnotatedField::new(Field::Block, 3, 5);
    assert_eq!(
        f,
        AnnotatedField {
            field: Field::Block,
            row: 3,
            col: 5,
            reachable: false,
            productive: false,
            man_id: None,
            block_id: None,
        }
    );
    assert!(AnnotatedField::new(Field::Goal, 0, 0).productive);
    assert!(AnnotatedField::new(Field::BlockOnGoal, 0, 0).productive);
    assert!(AnnotatedField::new(Field::ManOnGoal, 0, 0).productive);
    assert!(!AnnotatedField::new(Field::Empty, 0, 0).productive);
    assert!(!AnnotatedField::new(Field::Wall, 0, 0).productive);
    assert!(!AnnotatedField::new(Field::Man, 0, 0).productive);
}

#[test]
fn what_a_field_holds() {
    let all = [
        Field::Empty,
        Field::Wall,
        Field::Man,
        Field::Block,
        Field::Goal,
        Field::BlockOnGoal,
        Field::ManOnGoal,
    ];
    let has_block: Vec<bool> = all.iter().map(|f| AnnotatedField::new(*f, 0, 0).hasBlock()).collect();
    let has_man: Vec<bool> = all.iter().map(|f| AnnotatedField::new(*f, 0, 0).hasMan()).collect();
    let is_goal: Vec<bool> = all.iter().map(|f| AnnotatedField::new(*f, 0, 0).isGoal()).collect();
    assert_eq!(has_block, vec![false, false, false, true, false, true, false]);
    assert_eq!(has_man, vec![false, false, true, false, false, false, true]);
    assert_eq!(is_goal, vec![false, false, false, false, true, true, true]);
}

#[test]
fn valid_index_knows_the_grid() {
    let rows: Vec<Vec<u8>> = vec![vec![1, 2, 3], vec![], vec![4]];
    assert!(valid_index(0, 0, &rows));
    assert!(valid_index(0, 2, &rows));
    assert!(!valid_index(0, 3, &rows));
    assert!(!valid_index(1, 0, &rows));
    assert!(valid_index(2, 0, &rows));
    assert!(!valid_index(2, 1, &rows));
    assert!(!valid_index(3, 0, &rows));
    assert!(!valid_index(usize::MAX, usize::MAX, &rows));
}

#[test]
fn steps_stay_on_the_grid() {
    let rows: Vec<Vec<u8>> = vec![vec![0, 0], vec![0, 0, 0]];
    assert_eq!(Direction::Up.step(1, 1, &rows), Some((0, 1)));
    assert_eq!(Direction::Up.step(1, 2, &rows), None);
    assert_eq!(Direction::Up.step(0, 0, &rows), None);
    assert_eq!(Direction::Down.step(0, 1, &rows), Some((1, 1)));
    assert_eq!(Direction::Down.step(1, 1, &rows), None);
    assert_eq!(Direction::Left.step(1, 1, &rows), Some((1, 0)));
    assert_eq!(Direction::Left.step(1, 0, &rows), None);
    assert_eq!(Direction::Right.step(0, 0, &rows), Some((0, 1)));
    assert_eq!(Direction::Right.step(0, 1, &rows), None);
    assert_eq!(Direction::Right.step(0, usize::MAX, &rows), None);
    assert_eq!(Direction::Down.step(usize::MAX, 0, &rows), None);
}

#[test]
fn directions_have_letters_and_opposites() {
    assert_eq!(Direction::Up.letter(), 'u');
    assert_eq!(Direction::Down.letter(), 'd');
    assert_eq!(Direction::Left.letter(), 'l');
    assert_eq!(Direction::Right.letter(), 'r');
    assert_eq!(Direction::Up.opposite(), Direction::Down);
    assert_eq!(Direction::Down.opposite(), Direction::Up);
    assert_eq!(Direction::Left.opposite(), Direction::Right);
    assert_eq!(Direction::Right.opposite(), Direction::Left);
}

#[test]
fn walls_stop_the_pusher() {
    let soko = annotate(ROOMS);
    assert_eq!(
        picture(&soko, is_reachable),
        vec!["--------", "-XX-----", "-XX-----", "-XX-----", "--------", "--------", "--------"]
    );
}

#[test]
fn boxes_do_not_stop_the_pusher() {
    let soko = annotate("#######\n#@$  .#\n#######\n");
    assert_eq!(picture(&soko, is_reachable), vec!["-------", "-XXXXX-", "-------"]);
}

#[test]
fn the_edge_stops_the_pusher() {
    let soko = annotate(" @ \n   \n. *");
    assert_eq!(picture(&soko, is_reachable), vec!["XXX", "XXX", "XXX"]);
    let soko = annotate("@");
    assert_eq!(picture(&soko, is_reachable), vec!["X"]);
}

#[test]
fn reachable_squares_are_those_of_a_walk() {
    let screens = [
        ROOMS,
        "#######\n#@$  .#\n#######\n",
        "  ###\n###.#\n#@$ #\n### #\n  # #\n  ###\n",
        " @ \n # \n. *",
        "#####\n# # #\n#@#.#\n#####\n",
    ];
    for text in screens {
        let found: Result<SokoAnnotatedBoard, Impossible> =
            SokoAnnotatedBoard::fromSokoBoard(SokoBoard::from_str(text).unwrap());
        if let Ok(soko) = found {
            assert_eq!(picture(&soko, is_reachable), walk_from_pusher(text), "{:?}", text);
        }
    }
    let mut soko = fresh("#####\n# # #\n#@#$#\n#####\n");
    reachability(&mut soko);
    assert_eq!(picture(&soko, is_reachable), walk_from_pusher("#####\n# # #\n#@#$#\n#####\n"));
}

#[test]
fn without_a_pusher_nothing_is_reachable() {
    let mut soko = fresh("#####\n#  .#\n#####\n");
    reachability(&mut soko);
    assert_eq!(picture(&soko, is_reachable), vec!["-----", "-----", "-----"]);
}

#[test]
fn the_first_pusher_counts() {
    let mut soko = fresh("@#@");
    reachability(&mut soko);
    assert_eq!(picture(&soko, is_reachable), vec!["X--"]);
}

#[test]
fn productive_squares_lead_to_a_goal() {
    let soko = annotate("#######\n#@$  .#\n#######\n");
    // a box on the square of the pusher has no square behind it to push from
    assert_eq!(picture(&soko, is_productive), vec!["-------", "--XXXX-", "-------"]);
    let soko = annotate("#######\n#     #\n# $ . #\n#  @  #\n#######\n");
    assert_eq!(
        picture(&soko, is_productive),
        vec!["-------", "-------", "--XXX--", "-------", "-------"]
    );
}

#[test]
fn corners_and_walls_without_goal_are_not_productive() {
    let soko = annotate("######\n#    #\n# $. #\n#   @#\n######\n");
    // next to the goal, a box can be pushed onto it only from the left: on
    // the other three sides the pusher would have to stand in the wall
    assert_eq!(
        picture(&soko, is_productive),
        vec!["------", "------", "--XX--", "------", "------"]
    );
}

#[test]
fn goals_are_productive_wherever_they_are() {
    let soko = annotate("#####\n#@#.#\n#####\n");
    assert_eq!(picture(&soko, is_reachable), vec!["-----", "-X---", "-----"]);
    assert_eq!(picture(&soko, is_productive), vec!["-----", "---X-", "-----"]);
}

#[test]
fn one_more_sweep_changes_nothing() {
    for text in [ROOMS, "#######\n#@$  .#\n#######\n", "######\n#    #\n# $. #\n#   @#\n######\n"] {
        let soko = annotate(text);
        let mut again = annotate(text);
        productivity(&mut again);
        assert_eq!(again, soko);
        // the rule itself, square by square
        let fields = &soko.board;
        for r in 0..fields.len() {
            for c in 0..fields[r].len() {
                for dir in [Direction::Up, Direction::Down, Direction::Left, Direction::Right] {
                    let ahead = dir.step(r, c, fields);
                    let behind = dir.opposite().step(r, c, fields);
                    if let (Some(a), Some(b)) = (ahead, behind) {
                        if fields[r][c].reachable && fields[a.0][a.1].productive && fields[b.0][b.1].reachable {
                            assert!(fields[r][c].productive, "{:?} at {},{}", text, r, c);
                        }
                    }
                }
            }
        }
    }
}

#[test]
fn sweeps_start_from_the_goals() {
    let mut soko = fresh("#######\n#@$  .#\n#######\n");
    reachability(&mut soko);
    assert_eq!(picture(&soko, is_productive), vec!["-------", "-----X-", "-------"]);
    productivity(&mut soko);
    assert_eq!(picture(&soko, is_productive), vec!["-------", "--XXXX-", "-------"]);
}

#[test]
fn lost_box_is_found() {
    let board = screen("#####\n#$ .#\n#####\n");
    assert_eq!(
        SokoAnnotatedBoard::fromSokoBoard(board),
        Err(Impossible::BlockOnUnproductive { row: 1, col: 1 })
    );
    let board = SokoBoard::from_str("#####\n#$@.#\n#####\n").unwrap();
    assert_eq!(
        SokoAnnotatedBoard::fromSokoBoard(board),
        Err(Impossible::BlockOnUnproductive { row: 1, col: 1 })
    );
    // the first of two
    let board = SokoBoard::from_str("######\n#   $#\n#$ @ #\n#  . #\n######\n").unwrap();
    assert_eq!(
        SokoAnnotatedBoard::fromSokoBoard(board),
        Err(Impossible::BlockOnUnproductive { row: 1, col: 4 })
    );
}

#[test]
fn sanity_check_reads_the_marks() {
    let mut soko = fresh("@$.");
    assert_eq!(sanityCheck(&soko), Some((0, 1)));
    soko.board[0][1].productive = true;
    assert_eq!(sanityCheck(&soko), None);
    let soko = annotate("#######\n#@$  .#\n#######\n");
    assert_eq!(sanityCheck(&soko), None);
}

#[test]
fn box_on_goal_is_never_lost() {
    let soko = annotate("###\n#*#\n#@#\n###\n");
    assert!(soko.board[1][1].productive);
}

#[test]
fn variables_are_numbered_row_by_row() {
    let soko = annotate("#####\n#@$.#\n#####\n");
    let mut k: u32 = 0;
    for (r, row) in soko.board.iter().enumerate() {
        for (c, f) in row.iter().enumerate() {
            assert_eq!((f.row, f.col), (r, c));
            assert_eq!(f.man_id, Some(k));
            assert_eq!(f.block_id, Some(k + 2));
            k += 4;
        }
    }
    assert_eq!(k, 60);
    assert_eq!(soko.board[1][2].man_id, Some(28));
    assert_eq!(soko.board[1][2].block_id, Some(30));
}

#[test]
fn variables_of_ragged_rows() {
    let mut soko = SokoAnnotatedBoard {
        board: vec![
            vec![AnnotatedField::new(Field::Man, 0, 0)],
            vec![],
            vec![AnnotatedField::new(Field::Empty, 2, 0), AnnotatedField::new(Field::Goal, 2, 1)],
        ],
    };
    assert!(assignIDs(&mut soko));
    assert_eq!(soko.board[0][0].man_id, Some(0));
    assert_eq!(soko.board[0][0].block_id, Some(2));
    assert_eq!(soko.board[2][0].man_id, Some(4));
    assert_eq!(soko.board[2][1].man_id, Some(8));
    assert_eq!(soko.board[2][1].block_id, Some(10));
    let mut none = SokoAnnotatedBoard { board: Vec::new() };
    assert!(assignIDs(&mut none));
    assert_eq!(MAX_CELLS, 1 << 30);
}

#[test]
fn annotation_depends_on_the_screen_alone() {
    for text in [ROOMS, "#######\n#@$  .#\n#######\n", "@*"] {
        assert_eq!(annotate(text), annotate(text));
    }
    // the fields of the screen are kept
    let soko = annotate("#@$.* #");
    let fields: Vec<Field> = soko.board[0].iter().map(|f| f.field).collect();
    assert_eq!(SokoBoard(vec![fields]), SokoBoard::from_str("#@$.* #").unwrap());
}

#[test]
fn marks_on_entry_are_kept_and_stop_the_walk() {
    // the square right of the pusher is marked before the flood: the walk
    // does not go through it
    let mut soko = fresh("@   ");
    soko.board[0][1].reachable = true;
    reachability(&mut soko);
    assert_eq!(picture(&soko, is_reachable), vec!["XX--"]);
    // the pusher's own square is marked: the flood does not begin
    let mut soko = fresh("@   ");
    soko.board[0][0].reachable = true;
    soko.board[0][3].reachable = true;
    reachability(&mut soko);
    assert_eq!(picture(&soko, is_reachable), vec!["X--X"]);
    // a second flood finds nothing new
    let mut soko = fresh("#####\n# @ #\n#####\n");
    reachability(&mut soko);
    let once = picture(&soko, is_reachable);
    reachability(&mut soko);
    assert_eq!(picture(&soko, is_reachable), once);
    assert_eq!(once, vec!["-----", "-XXX-", "-----"]);
}

#[test]
fn sweeps_go_by_the_marks_they_find() {
    // no goal, but the last square is marked productive on entry
    let mut soko = fresh("@   ");
    reachability(&mut soko);
    soko.board[0][3].productive = true;
    productivity(&mut soko);
    assert_eq!(picture(&soko, is_productive), vec!["-XXX"]);
    // without marks of reachability no square is added to the goals
    let mut soko = fresh("@  .");
    productivity(&mut soko);
    assert_eq!(picture(&soko, is_productive), vec!["---X"]);
    assert_eq!(picture(&soko, is_reachable), vec!["----"]);
    // sweeps over their own result change nothing
    let mut soko = fresh("#######\n#@$  .#\n#######\n");
    reachability(&mut soko);
    productivity(&mut soko);
    let once = picture(&soko, is_productive);
    productivity(&mut soko);
    assert_eq!(picture(&soko, is_productive), once);
}
