//! The actor-facing layer: turn enforcement and status text of the
//! two-player game, and the cooperative wrapper's counters and narrative
//! attribution.

use grid_games::coop_game::CoopGame;
use grid_games::game::{Actor, Coord};
use grid_games::grid_game::{GameState, GridGame};
use grid_games::mine_field::MineField;
use grid_games::minesweeper::{Minesweeper, MinesweeperModes};
use grid_games::othello::Othello;
use grid_games::othello_game::OthelloGame;

fn actor(id: i64, username: Option<&str>, first_name: &str) -> Actor {
    Actor {
        id,
        username: username.map(|s| s.to_string()),
        first_name: first_name.to_string(),
    }
}

/// A 2x2 minesweeper with the mine at (1,1), deterministically seeded.
fn tiny_sweeper(mode: MinesweeperModes) -> Minesweeper {
    let mut field = MineField::new(2, 2, 1);
    field.place_mines(&vec![2], Coord(0, 0));
    Minesweeper { field, mode }
}

#[test]
fn othello_game_reports_turn_in_text() {
    let (game, text, board) = OthelloGame::create("alice".to_string(), 42, "bob".to_string());
    assert_eq!(text, "⚫ alice 2 vs 2 bob");
    assert_eq!(board.len(), 8);
    assert_eq!(board[0].len(), 8);
    assert_eq!(board[3][3].0, "⚪");
    assert_eq!(board[3][4].0, "⚫");
    assert_eq!(board[0][0].0, " ");
    assert_eq!(board[2][3].1, "2 3");
    assert!(!game.game.is_game_over());
}

#[test]
fn othello_game_rejects_wrong_actor() {
    let (mut game, _, _) = OthelloGame::create("alice".to_string(), 42, "bob".to_string());
    // black to move: only the mentioned handle may act
    assert!(game.interact(Coord(2, 3), &actor(7, Some("mallory"), "Mallory")).is_none());
    assert!(game.interact(Coord(2, 3), &actor(7, None, "alice")).is_none());
    // the creator owns the white discs, not the black ones
    assert!(game.interact(Coord(2, 3), &actor(42, Some("bob"), "Bob")).is_none());
}

#[test]
fn othello_game_accepts_the_mentioned_player() {
    let (mut game, _, _) = OthelloGame::create("alice".to_string(), 42, "bob".to_string());
    let res = game.interact(Coord(2, 3), &actor(7, Some("alice"), "Alice")).expect("legal move");
    assert!(!res.game_end);
    assert_eq!(res.update_text.as_deref(), Some("alice 4 vs 1 bob ⚪"));
    let board = res.update_board.expect("board");
    assert_eq!(board[2][3].0, "⚫");
    assert_eq!(board[3][3].0, "⚫");
    // now the creator moves by identity token, whatever the handle
    let res = game.interact(Coord(2, 2), &actor(42, None, "whoever")).expect("legal move");
    assert!(!res.game_end);
}

#[test]
fn othello_game_illegal_move_is_silent() {
    let (mut game, _, _) = OthelloGame::create("alice".to_string(), 42, "bob".to_string());
    assert!(game.interact(Coord(0, 0), &actor(7, Some("alice"), "Alice")).is_none());
    assert!(game.interact(Coord(3, 3), &actor(7, Some("alice"), "Alice")).is_none());
}

#[test]
fn othello_game_announces_the_winner() {
    // A position one move from wiping White out: Black plays (0,2), then
    // (7,5), ending the game 6-0.
    let mut cells: Vec<Option<bool>> = vec![None; 64];
    cells[0] = Some(false);
    cells[1] = Some(true);
    cells[7 * 8 + 7] = Some(false);
    cells[7 * 8 + 6] = Some(true);
    let game = Othello::from_position(cells, false).expect("position");
    let mut game = OthelloGame {
        game,
        first_player: "alice".to_string(),
        second_id: 42,
        second_name: "bob".to_string(),
    };
    let alice = actor(7, Some("alice"), "Alice");
    let res = game.interact(Coord(0, 2), &alice).expect("legal");
    assert!(!res.game_end, "forced pass keeps the game running");
    let res = game.interact(Coord(7, 5), &alice).expect("forced pass: alice again");
    assert!(res.game_end);
    assert_eq!(res.update_text.as_deref(), Some("alice 6 vs 0 bob\nWinner: alice"));
}

#[test]
fn coop_create_hands_back_text_and_board() {
    let (coop, text, board) = CoopGame::create(tiny_sweeper(MinesweeperModes::Classic));
    assert_eq!(text, "2 x 2\n1 left / 1 mines");
    assert_eq!(board.len(), 2);
    assert_eq!(board[0][0].0, "■");
    assert_eq!(board[1][1].1, "1 1");
    assert_eq!(coop.interactions.len(), 0);
}

#[test]
fn coop_rejects_a_move_without_effect() {
    let (mut coop, _, _) = CoopGame::create(tiny_sweeper(MinesweeperModes::NoFlag));
    let a = actor(1, Some("A"), "Ann");
    assert!(coop.interact(Coord(0, 0), &a).is_some());
    // uncovering again does nothing, and chording is disabled in this mode
    assert!(coop.interact(Coord(0, 0), &a).is_none());
    assert_eq!(coop.interactions.len(), 1);
    assert_eq!(coop.interactions[0].1, 1);
}

#[test]
fn coop_counts_moves_per_actor() {
    let (mut coop, _, _) = CoopGame::create(tiny_sweeper(MinesweeperModes::Classic));
    let a = actor(1, Some("A"), "Ann");
    let b = actor(2, None, "B");
    let res = coop.interact(Coord(0, 0), &a).expect("accepted");
    assert!(!res.game_end);
    assert_eq!(res.update_text.as_deref(), Some("2 x 2\n1 left / 1 mines"));
    coop.interact(Coord(0, 1), &a).expect("accepted");
    coop.interact(Coord(1, 0), &b).expect("accepted");
    // the display name falls back to the first name without a handle
    assert_eq!(coop.interactions[0].0, "A");
    assert_eq!(coop.interactions[0].1, 2);
    assert_eq!(coop.interactions[1].0, "B");
    assert_eq!(coop.interactions[1].1, 1);
}

#[test]
fn coop_attributes_the_finish_to_the_top_contributor() {
    // A, A, B: B triggers Solved but A holds the top count.
    let (mut coop, _, _) = CoopGame::create(tiny_sweeper(MinesweeperModes::Classic));
    let a = actor(1, Some("A"), "Ann");
    let b = actor(2, Some("B"), "Ben");
    coop.interact(Coord(0, 0), &a).expect("accepted");
    coop.interact(Coord(0, 1), &a).expect("accepted");
    let res = coop.interact(Coord(1, 0), &b).expect("accepted");
    assert!(res.game_end);
    assert_eq!(coop.game.get_state(), GameState::Solved);
    assert_eq!(
        res.update_text.as_deref(),
        Some("A - 2 moves\nB - 1 moves\nB has snatched it from A!")
    );
}

#[test]
fn coop_blames_the_actor_who_ruined_it() {
    // A, A, then B hits the mine: game over on B's move, A on top.
    let (mut coop, _, _) = CoopGame::create(tiny_sweeper(MinesweeperModes::Classic));
    let a = actor(1, Some("A"), "Ann");
    let b = actor(2, Some("B"), "Ben");
    coop.interact(Coord(0, 0), &a).expect("accepted");
    coop.interact(Coord(0, 1), &a).expect("accepted");
    let res = coop.interact(Coord(1, 1), &b).expect("accepted");
    assert!(res.game_end);
    assert_eq!(coop.game.get_state(), GameState::GameOver);
    assert_eq!(
        res.update_text.as_deref(),
        Some("A - 2 moves\nB - 1 moves\nB has ruined it for A!")
    );
}

#[test]
fn coop_celebrates_a_top_contributor_finish() {
    let (mut coop, _, _) = CoopGame::create(tiny_sweeper(MinesweeperModes::Classic));
    let a = actor(1, Some("A"), "Ann");
    coop.interact(Coord(0, 0), &a).expect("accepted");
    coop.interact(Coord(0, 1), &a).expect("accepted");
    let res = coop.interact(Coord(1, 0), &a).expect("accepted");
    assert!(res.game_end);
    assert_eq!(
        res.update_text.as_deref(),
        Some("A - 3 moves\nA has won the game!")
    );
}

#[test]
fn coop_mourns_a_top_contributor_explosion() {
    let (mut coop, _, _) = CoopGame::create(tiny_sweeper(MinesweeperModes::Classic));
    let a = actor(1, Some("A"), "Ann");
    coop.interact(Coord(0, 0), &a).expect("accepted");
    let res = coop.interact(Coord(1, 1), &a).expect("accepted");
    assert!(res.game_end);
    assert_eq!(
        res.update_text.as_deref(),
        Some("A - 2 moves\nBoom, A is dead!")
    );
}

#[test]
fn minesweeper_state_classification() {
    let mut game = tiny_sweeper(MinesweeperModes::Classic);
    assert_eq!(game.get_state(), GameState::Normal);
    game.interact(Coord(0, 0));
    game.interact(Coord(0, 1));
    assert_eq!(game.get_state(), GameState::Normal);
    game.interact(Coord(1, 0));
    assert_eq!(game.get_state(), GameState::Solved);

    let mut game = tiny_sweeper(MinesweeperModes::Classic);
    game.interact(Coord(1, 1));
    assert_eq!(game.get_state(), GameState::GameOver);
}

#[test]
fn minesweeper_renders_digits_and_markers() {
    let mut game = tiny_sweeper(MinesweeperModes::Classic);
    game.interact(Coord(0, 0));
    let board = game.render();
    assert_eq!(board[0][0].0, "1");
    assert_eq!(board[0][1].0, "■");
    assert_eq!(board[0][0].1, "0 0");
    let mut game = tiny_sweeper(MinesweeperModes::Classic);
    game.interact(Coord(1, 1));
    let board = game.render();
    assert_eq!(board[1][1].0, "💣");
}
