//! Sokoban for a symbolic search: the screen and its analysis, the puzzle as
//! Boolean functions over the variables of its squares, and the decisions of
//! the search over the diagrams that an engine builds from those functions.
//!
//! * `sokoboard` reads a screen from text.
//! * `sokoannotatedboard` annotates it: `reach` finds the squares that the
//!   pusher can walk to, `productive` those on which a box may rest, `ids`
//!   numbers the variables.
//! * `bdd` holds Boolean functions as terms, `encoding` writes the puzzle in
//!   them: initial state, steps, goal.
//! * `solver` decides, from what the engine answers, when the search is won
//!   or lost and which steps lead back from the goal.
//! * `game` states the rules of the game itself and proves that the encoded
//!   steps are exactly the steps of the game.

pub mod bdd;
pub mod direction;
pub mod encoding;
pub mod flags;
pub mod game;
pub mod grid;
pub mod ids;
pub mod productive;
pub mod reach;
pub mod scan;
pub mod sokoannotatedboard;
pub mod sokoboard;
pub mod solver;
