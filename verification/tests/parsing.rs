//! Command-argument parsing for the mine-clearing game, and the decimal
//! rendering helpers.

use grid_games::minesweeper::{Minesweeper, MinesweeperModes};
use grid_games::text::{u32_to_string, usize_to_string};

#[test]
fn defaults_without_arguments() {
    let g = Minesweeper::from_message("/mine");
    assert_eq!(g.field.get_rows(), 10);
    assert_eq!(g.field.get_columns(), 8);
    assert_eq!(g.field.get_mines(), 8);
    assert!(matches!(g.mode, MinesweeperModes::Classic));
    assert!(!g.field.is_initialized());
}

#[test]
fn explicit_dimensions_and_mines() {
    let g = Minesweeper::from_message("/mine 5 6 7");
    assert_eq!(g.field.get_rows(), 5);
    assert_eq!(g.field.get_columns(), 6);
    assert_eq!(g.field.get_mines(), 7);
}

#[test]
fn rows_and_columns_are_capped() {
    let g = Minesweeper::from_message("/mine 100 100 1000");
    assert_eq!(g.field.get_rows(), 10);
    assert_eq!(g.field.get_columns(), 8);
    // the engine clamps the mine budget below the cell count
    assert_eq!(g.field.get_mines(), 79);
}

#[test]
fn partial_arguments_use_defaults() {
    let g = Minesweeper::from_message("/mine 3");
    assert_eq!(g.field.get_rows(), 3);
    assert_eq!(g.field.get_columns(), 8);
    assert_eq!(g.field.get_mines(), 2);
}

#[test]
fn tiny_dimensions_are_raised() {
    let g = Minesweeper::from_message("/mine 1 1 1");
    assert_eq!(g.field.get_rows(), 2);
    assert_eq!(g.field.get_columns(), 2);
    assert_eq!(g.field.get_mines(), 1);
}

#[test]
fn mode_names_are_case_insensitive() {
    let g = Minesweeper::from_message("/mine NoFlag 4 4");
    assert!(matches!(g.mode, MinesweeperModes::NoFlag));
    assert_eq!(g.field.get_rows(), 4);
    assert_eq!(g.field.get_columns(), 4);
    assert_eq!(g.field.get_mines(), 1);

    let g = Minesweeper::from_message("/mine CLASSIC");
    assert!(matches!(g.mode, MinesweeperModes::Classic));
}

#[test]
fn unparseable_tokens_are_skipped() {
    let g = Minesweeper::from_message("/mine big 4 x 5 - 6 7");
    assert_eq!(g.field.get_rows(), 4);
    assert_eq!(g.field.get_columns(), 5);
    assert_eq!(g.field.get_mines(), 6);
}

#[test]
fn a_plus_sign_counts_as_part_of_a_number() {
    let g = Minesweeper::from_message("/mine +5 +4");
    assert_eq!(g.field.get_rows(), 5);
    assert_eq!(g.field.get_columns(), 4);
}

#[test]
fn overflowing_numbers_are_skipped() {
    let g = Minesweeper::from_message("/mine 99999999999999999999999999 4 4 3");
    assert_eq!(g.field.get_rows(), 4);
    assert_eq!(g.field.get_columns(), 4);
    assert_eq!(g.field.get_mines(), 3);
}

#[test]
fn only_the_first_three_numbers_count() {
    let g = Minesweeper::from_message("/mine 4 4 2 9 9");
    assert_eq!(g.field.get_rows(), 4);
    assert_eq!(g.field.get_columns(), 4);
    assert_eq!(g.field.get_mines(), 2);
}

#[test]
fn unicode_spaces_separate_tokens() {
    let g = Minesweeper::from_message("/mine\u{a0}4\u{2003}5\u{2002}3");
    assert_eq!(g.field.get_rows(), 4);
    assert_eq!(g.field.get_columns(), 5);
    assert_eq!(g.field.get_mines(), 3);
}

#[test]
fn decimal_rendering() {
    assert_eq!(usize_to_string(0), "0");
    assert_eq!(usize_to_string(7), "7");
    assert_eq!(usize_to_string(10), "10");
    assert_eq!(usize_to_string(90210), "90210");
    assert_eq!(u32_to_string(4294967295), "4294967295");
}
