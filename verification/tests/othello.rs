//! The disc-capture board: the opening position, bracket legality,
//! multi-direction flips, forced passes and double-pass termination.

use grid_games::game::Coord;
use grid_games::othello::Othello;

/// An 8x8 position from (row, column, owner) triples; everything else
/// empty.
fn position(discs: &[(usize, usize, bool)], player: bool) -> Othello {
    let mut cells: Vec<Option<bool>> = vec![None; 64];
    for &(r, c, p) in discs {
        cells[r * 8 + c] = Some(p);
    }
    Othello::from_position(cells, player).expect("64 cells")
}

fn at(g: &Othello, r: usize, c: usize) -> Option<bool> {
    g.iter_row(r)[c]
}

#[test]
fn new_sets_center_pattern_and_first_player() {
    let g = Othello::new();
    assert_eq!(g.get_current_player(), false);
    assert!(!g.is_game_over());
    assert_eq!(at(&g, 3, 3), Some(true));
    assert_eq!(at(&g, 3, 4), Some(false));
    assert_eq!(at(&g, 4, 3), Some(false));
    assert_eq!(at(&g, 4, 4), Some(true));
    assert_eq!(at(&g, 0, 0), None);
    assert_eq!(g.get_score(), (2, 2));
}

#[test]
fn from_position_requires_64_cells() {
    assert!(Othello::from_position(vec![None; 63], false).is_none());
    assert!(Othello::from_position(vec![None; 64], true).is_some());
}

#[test]
fn opening_move_flips_exactly_the_bracketed_disc() {
    // Black (false) plays directly "north" of the white disc at (3,3),
    // bracketing it against the black disc at... stepping south from
    // (2,3): (3,3) white, (4,3) black — a legal bracket of one.
    let mut g = Othello::new();
    assert!(g.play(Coord(2, 3)));
    assert_eq!(at(&g, 2, 3), Some(false));
    assert_eq!(at(&g, 3, 3), Some(false), "the bracketed white disc flips");
    // nothing else changes ownership
    assert_eq!(at(&g, 3, 4), Some(false));
    assert_eq!(at(&g, 4, 3), Some(false));
    assert_eq!(at(&g, 4, 4), Some(true));
    assert_eq!(g.get_score(), (4, 1));
    // the opponent has moves, so the turn advances
    assert_eq!(g.get_current_player(), true);
    assert!(!g.is_game_over());
}

#[test]
fn occupied_cell_is_illegal() {
    let mut g = Othello::new();
    assert!(!g.play(Coord(3, 3)));
    assert_eq!(at(&g, 3, 3), Some(true));
    assert_eq!(g.get_score(), (2, 2));
    assert_eq!(g.get_current_player(), false);
}

#[test]
fn unbracketed_cell_is_illegal() {
    let mut g = Othello::new();
    assert!(!g.play(Coord(0, 0)));
    assert_eq!(g.get_score(), (2, 2));
    assert_eq!(g.get_current_player(), false);
}

#[test]
fn has_move_on_opening_board() {
    let g = Othello::new();
    assert!(g.has_move(false));
    assert!(g.has_move(true));
}

#[test]
fn capture_flips_along_several_directions_at_once() {
    // Black plays at (2,2) with brackets east ((2,3) white against
    // (2,4) black) and south-east ((3,3) white against (4,4) black).
    let g = position(
        &[(2, 3, true), (2, 4, false), (3, 3, true), (4, 4, false), (3, 2, true), (4, 2, false)],
        false,
    );
    let mut g = g;
    assert!(g.play(Coord(2, 2)));
    assert_eq!(at(&g, 2, 2), Some(false));
    assert_eq!(at(&g, 2, 3), Some(false), "east bracket flips");
    assert_eq!(at(&g, 3, 3), Some(false), "south-east bracket flips");
    assert_eq!(at(&g, 3, 2), Some(false), "south bracket flips");
    assert_eq!(at(&g, 2, 4), Some(false));
    assert_eq!(at(&g, 4, 4), Some(false));
}

#[test]
fn turn_skip_when_opponent_has_no_move() {
    // After Black plays (0,2) capturing the white disc at (0,1), White
    // (true) has no legal move anywhere, but Black still has one at
    // (7,5): the mover keeps the turn and the game goes on.
    let mut g = position(&[(0, 0, false), (0, 1, true), (7, 7, false), (7, 6, true)], false);
    assert!(g.play(Coord(0, 2)));
    assert_eq!(at(&g, 0, 1), Some(false));
    assert!(!g.has_move(true));
    assert!(g.has_move(false));
    assert_eq!(g.get_current_player(), false, "forced pass: same player moves again");
    assert!(!g.is_game_over());
}

#[test]
fn double_pass_ends_the_game_for_good() {
    let mut g = position(&[(0, 0, false), (0, 1, true), (7, 7, false), (7, 6, true)], false);
    assert!(g.play(Coord(0, 2)));
    assert!(!g.is_game_over());
    // the forced-pass move: capturing the last white disc leaves neither
    // player a move
    assert!(g.play(Coord(7, 5)));
    assert!(g.is_game_over());
    assert_eq!(g.get_score(), (6, 0));
    // game over is monotonic: no later play can reset it
    assert!(!g.play(Coord(4, 4)));
    assert!(g.is_game_over());
}

#[test]
fn find_anchor_needs_an_opposing_disc_between() {
    let g = Othello::new();
    // adjacent own disc without a bracket: no anchor
    assert!(g.find_anchor(Coord(2, 3), Coord(1, 0), true).is_none());
    // (2,3) south for black: (3,3) white then (4,3) black: anchor at (4,3)
    let a = g.find_anchor(Coord(2, 3), Coord(1, 0), false).expect("anchor");
    assert_eq!((a.0, a.1), (4, 3));
    // leaving the board without closing the bracket: no anchor
    assert!(g.find_anchor(Coord(5, 3), Coord(1, 0), true).is_none());
}
