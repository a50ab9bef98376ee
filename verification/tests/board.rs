//! The screen: reading it from text and writing it back.

use sokoban::sokoboard::{Field, ParseError, SokoBoard};

#[test]
fn every_character_has_its_square() {
    assert_eq!(Field::from_char(' '), Some(Field::Empty));
    assert_eq!(Field::from_char('#'), Some(Field::Wall));
    assert_eq!(Field::from_char('@'), Some(Field::Man));
    assert_eq!(Field::from_char('$'), Some(Field::Block));
    assert_eq!(Field::from_char('.'), Some(Field::Goal));
    assert_eq!(Field::from_char('*'), Some(Field::BlockOnGoal));
    assert_eq!(Field::from_char('+'), Some(Field::ManOnGoal));
    assert_eq!(Field::from_char('x'), None);
    assert_eq!(Field::from_char('\n'), None);
}

#[test]
fn field_from_str_takes_one_character() {
    assert_eq!(Field::from_str(" "), Some(Field::Empty));
    assert_eq!(Field::from_str("#"), Some(Field::Wall));
    assert_eq!(Field::from_str("@"), Some(Field::Man));
    assert_eq!(Field::from_str("$"), Some(Field::Block));
    assert_eq!(Field::from_str("."), Some(Field::Goal));
    assert_eq!(Field::from_str("*"), Some(Field::BlockOnGoal));
    assert_eq!(Field::from_str("+"), Some(Field::ManOnGoal));
    assert_eq!(Field::from_str(""), None);
    assert_eq!(Field::from_str("##"), None);
    assert_eq!(Field::from_str("a"), None);
}

#[test]
fn field_to_char_and_back() {
    let all = [
        Field::Empty,
        Field::Wall,
        Field::Man,
        Field::Block,
        Field::Goal,
        Field::BlockOnGoal,
        Field::ManOnGoal,
    ];
    let shown: String = all.iter().map(|f| f.to_char()).collect();
    assert_eq!(shown, " #@$.*+");
    for f in all {
        assert_eq!(Field::from_char(f.to_char()), Some(f));
    }
}

#[test]
fn reads_a_screen() {
    let board = SokoBoard::from_str("#####\n#@$.#\n#####\n").unwrap();
    let wall = vec![Field::Wall; 5];
    assert_eq!(
        board,
        SokoBoard(vec![
            wall.clone(),
            vec![Field::Wall, Field::Man, Field::Block, Field::Goal, Field::Wall],
            wall,
        ])
    );
}

#[test]
fn last_line_needs_no_line_feed() {
    assert_eq!(SokoBoard::from_str("@*"), Ok(SokoBoard(vec![vec![Field::Man, Field::BlockOnGoal]])));
    assert_eq!(SokoBoard::from_str("@*\n"), SokoBoard::from_str("@*"));
}

#[test]
fn short_lines_are_filled_with_empty_squares() {
    let board = SokoBoard::from_str("#\n#@$.\n##\n").unwrap();
    assert_eq!(
        board,
        SokoBoard(vec![
            vec![Field::Wall, Field::Empty, Field::Empty, Field::Empty],
            vec![Field::Wall, Field::Man, Field::Block, Field::Goal],
            vec![Field::Wall, Field::Wall, Field::Empty, Field::Empty],
        ])
    );
}

#[test]
fn empty_lines_are_rows() {
    let board = SokoBoard::from_str("@\n\n.").unwrap();
    assert_eq!(
        board,
        SokoBoard(vec![vec![Field::Man], vec![Field::Empty], vec![Field::Goal]])
    );
    assert_eq!(SokoBoard::from_str("@\n\n").unwrap().0.len(), 2);
}

#[test]
fn carriage_return_before_line_feed_ends_the_line() {
    assert_eq!(SokoBoard::from_str("#@\r\n$.\r\n"), SokoBoard::from_str("#@\n$.\n"));
    assert_eq!(SokoBoard::from_str("#@\r"), Err(ParseError::InvalidCharacter('\r')));
    assert_eq!(SokoBoard::from_str("#\r@\n"), Err(ParseError::InvalidCharacter('\r')));
}

#[test]
fn empty_text_is_refused() {
    assert_eq!(SokoBoard::from_str(""), Err(ParseError::Empty));
    assert_eq!(SokoBoard::from_str("\n"), Err(ParseError::Empty));
    assert_eq!(SokoBoard::from_str("\n\r\n\n"), Err(ParseError::Empty));
}

#[test]
fn first_unknown_character_is_reported() {
    assert_eq!(SokoBoard::from_str("#a#\n#b#"), Err(ParseError::InvalidCharacter('a')));
    assert_eq!(SokoBoard::from_str("###\n#b#a"), Err(ParseError::InvalidCharacter('b')));
    assert_eq!(SokoBoard::from_str("\t"), Err(ParseError::InvalidCharacter('\t')));
    assert_eq!(SokoBoard::from_str("#@\u{e9}"), Err(ParseError::InvalidCharacter('\u{e9}')));
}

#[test]
fn writes_a_screen_row_by_row() {
    let text = "#####\n#@$.#\n# * #\n#####\n";
    assert_eq!(SokoBoard::from_str(text).unwrap().to_string(), text);
    assert_eq!(SokoBoard::from_str("#+$").unwrap().to_string(), "#+$\n");
    let all = SokoBoard(vec![vec![Field::ManOnGoal, Field::Man], vec![Field::Goal, Field::Block]]);
    assert_eq!(all.to_string(), "+@\n.$\n");
    assert_eq!(SokoBoard::from_str("#\n#@$.").unwrap().to_string(), "#   \n#@$.\n");
    assert_eq!(SokoBoard(Vec::new()).to_string(), "");
}

#[test]
fn screen_shows_the_pusher_once() {
    assert_eq!(SokoBoard::from_str("@@"), Err(ParseError::NotOnePusher));
    assert_eq!(SokoBoard::from_str("@+"), Err(ParseError::NotOnePusher));
    assert_eq!(SokoBoard::from_str("#@$.#\n#  @#"), Err(ParseError::NotOnePusher));
    assert_eq!(SokoBoard::from_str("#####\n#$ .#\n#####\n"), Err(ParseError::NotOnePusher));
    assert_eq!(SokoBoard::from_str(" "), Err(ParseError::NotOnePusher));
    assert!(SokoBoard::from_str("@").is_ok());
    assert!(SokoBoard::from_str("+").is_ok());
    assert!(SokoBoard::from_str("#  #\n# +#").is_ok());
}

#[test]
fn other_faults_come_before_the_count_of_pushers() {
    assert_eq!(SokoBoard::from_str("@@x"), Err(ParseError::InvalidCharacter('x')));
    assert_eq!(SokoBoard::from_str("x"), Err(ParseError::InvalidCharacter('x')));
    assert_eq!(SokoBoard::from_str("\n\n"), Err(ParseError::Empty));
}

#[test]
fn one_pusher_counts_the_squares_with_the_pusher() {
    let board = |rows: Vec<Vec<Field>>| SokoBoard(rows).one_pusher();
    assert!(!board(Vec::new()));
    assert!(!board(vec![vec![], vec![Field::Goal, Field::Block]]));
    assert!(board(vec![vec![Field::Wall], vec![Field::Goal, Field::Man]]));
    assert!(board(vec![vec![Field::ManOnGoal]]));
    assert!(!board(vec![vec![Field::ManOnGoal], vec![Field::Empty, Field::Man]]));
    assert!(!board(vec![vec![Field::Man, Field::Man]]));
    assert!(!board(vec![vec![Field::Man, Field::Empty, Field::Man, Field::Man]]));
}
