//! The mine-field engine: construction clamps, deterministic seeding,
//! neighbor numbering, flood-fill revealing and the chord rule.

use grid_games::game::Coord;
use grid_games::mine_field::{CellValue, MineField, State};

/// A field seeded from explicit sample indices, for deterministic play.
fn seeded(rows: usize, columns: usize, mines: usize, sample: Vec<usize>, avoid: Coord) -> MineField {
    let mut f = MineField::new(rows, columns, mines);
    f.place_mines(&sample, avoid);
    f
}

fn count_mines(f: &MineField) -> usize {
    let mut n = 0;
    for r in 0..f.get_rows() {
        for c in f.iter_row(r) {
            if matches!(c.value, CellValue::Mine) {
                n += 1;
            }
        }
    }
    n
}

#[test]
fn new_clamps_dimensions_and_mines() {
    let f = MineField::new(0, 1, 0);
    assert_eq!(f.get_rows(), 2);
    assert_eq!(f.get_columns(), 2);
    assert_eq!(f.get_mines(), 1);

    let f = MineField::new(3, 3, 100);
    assert_eq!(f.get_mines(), 8);

    let f = MineField::new(10, 8, 10);
    assert_eq!(f.get_rows(), 10);
    assert_eq!(f.get_columns(), 8);
    assert_eq!(f.get_mines(), 10);
    assert!(!f.is_initialized());
    assert_eq!(f.get_stats().uncovered_blank, 0);
    assert_eq!(f.get_stats().covered_mine, 10);
    assert_eq!(f.get_stats().exploded, 0);
}

#[test]
fn place_mines_shifts_past_avoided_cell() {
    // 3x3 grid, one mine drawn as raw index 7; the avoided cell is index
    // 0, so the mine lands on index 8 = (2,2).
    let f = seeded(3, 3, 1, vec![7], Coord(0, 0));
    assert!(f.is_initialized());
    assert!(matches!(f.get(Coord(2, 2)).value, CellValue::Mine));
    assert!(!matches!(f.get(Coord(0, 0)).value, CellValue::Mine));
    assert_eq!(count_mines(&f), 1);
}

#[test]
fn mine_count_invariant_after_random_initialize() {
    let mut f = MineField::new(6, 5, 7);
    f.initialize(Coord(2, 3));
    assert!(f.is_initialized());
    assert_eq!(count_mines(&f), 7);
    assert!(!matches!(f.get(Coord(2, 3)).value, CellValue::Mine));
}

#[test]
fn neighbor_numbering_matches_mine_counts() {
    // Mines at (2,2) and (0,0) on a 3x3 grid: raw samples 7 and 0 with
    // (1,1) avoided (index 4), so 7 -> 8 and 0 -> 0.
    let f = seeded(3, 3, 2, vec![7, 0], Coord(1, 1));
    assert!(matches!(f.get(Coord(0, 0)).value, CellValue::Mine));
    assert!(matches!(f.get(Coord(2, 2)).value, CellValue::Mine));
    for r in 0..3i32 {
        for c in 0..3i32 {
            let cell = *f.get(Coord(r, c));
            if matches!(cell.value, CellValue::Mine) {
                continue;
            }
            let mut expected = 0;
            for dr in -1..=1i32 {
                for dc in -1..=1i32 {
                    if dr == 0 && dc == 0 {
                        continue;
                    }
                    let (nr, nc) = (r + dr, c + dc);
                    if (0..3).contains(&nr) && (0..3).contains(&nc) {
                        if matches!(f.get(Coord(nr, nc)).value, CellValue::Mine) {
                            expected += 1;
                        }
                    }
                }
            }
            match cell.value {
                CellValue::Number(n) => assert_eq!(n, expected, "cell ({}, {})", r, c),
                CellValue::Mine => unreachable!(),
            }
        }
    }
}

#[test]
fn uncover_mine_explodes_without_cascade() {
    let mut f = seeded(3, 3, 1, vec![7], Coord(0, 0));
    f.uncover(Coord(2, 2));
    assert!(matches!(f.get(Coord(2, 2)).state, State::Exploded));
    assert_eq!(f.get_stats().exploded, 1);
    assert_eq!(f.get_stats().uncovered_blank, 0);
    // no cascading: every other cell stays covered
    assert!(matches!(f.get(Coord(1, 1)).state, State::Covered));
    assert!(matches!(f.get(Coord(0, 0)).state, State::Covered));
}

#[test]
fn flood_fill_reveals_zero_region_and_ring_only() {
    // 4x4 grid, one mine at (3,3): indices 0..14 raw, avoid (0,0) ->
    // sample 14 shifts to 15 = (3,3). The zero region is everything away
    // from the mine; the ring (2,2),(2,3),(3,2) shows 1.
    let mut f = seeded(4, 4, 1, vec![14], Coord(0, 0));
    f.uncover(Coord(0, 0));
    for r in 0..4i32 {
        for c in 0..4i32 {
            let cell = *f.get(Coord(r, c));
            if r == 3 && c == 3 {
                assert!(matches!(cell.state, State::Covered), "mine must stay covered");
            } else {
                assert!(matches!(cell.state, State::Uncovered), "({}, {})", r, c);
            }
        }
    }
    match f.get(Coord(2, 2)).value {
        CellValue::Number(n) => assert_eq!(n, 1),
        CellValue::Mine => unreachable!(),
    }
    assert_eq!(f.get_stats().uncovered_blank, 15);
    assert_eq!(f.get_stats().covered_mine, 1);
}

#[test]
fn flood_fill_stops_at_numbered_cells() {
    // 2x4 grid, mine at (0,0): numbered cells block the cascade seeded in
    // the zero half.
    // raw indices over 7 cells (avoid (1,3) = index 7): 0 -> 0 = (0,0).
    let mut g = seeded(2, 4, 1, vec![0], Coord(1, 3));
    // values: (0,1), (1,0) and (1,1) see the mine; the right half is 0.
    g.uncover(Coord(0, 3));
    // zero cells (0,2),(0,3),(1,2),(1,3) plus the bordering ring
    // (0,1),(1,1) are revealed; (1,0) stays covered.
    assert!(matches!(g.get(Coord(0, 3)).state, State::Uncovered));
    assert!(matches!(g.get(Coord(0, 2)).state, State::Uncovered));
    assert!(matches!(g.get(Coord(1, 2)).state, State::Uncovered));
    assert!(matches!(g.get(Coord(1, 3)).state, State::Uncovered));
    assert!(matches!(g.get(Coord(0, 1)).state, State::Uncovered));
    assert!(matches!(g.get(Coord(1, 1)).state, State::Uncovered));
    assert!(matches!(g.get(Coord(1, 0)).state, State::Covered));
    assert!(matches!(g.get(Coord(0, 0)).state, State::Covered));
    assert_eq!(g.get_stats().uncovered_blank, 6);
}

#[test]
fn chord_no_op_while_counts_inconsistent() {
    // 2x2 grid, mine at (1,1): uncover (0,0), then chord it while three
    // neighbors are covered — the number 1 does not match, so no-op.
    let mut f = seeded(2, 2, 1, vec![2], Coord(0, 0));
    assert!(matches!(f.get(Coord(1, 1)).value, CellValue::Mine));
    f.uncover(Coord(0, 0));
    assert!(!f.uncover_around(Coord(0, 0)));
    assert!(matches!(f.get(Coord(0, 1)).state, State::Covered));
}

#[test]
fn chord_reveals_all_covered_neighbors_when_counts_match() {
    let mut f = seeded(2, 2, 1, vec![2], Coord(0, 0));
    f.uncover(Coord(0, 0));
    f.uncover(Coord(0, 1));
    f.uncover(Coord(1, 0));
    // (0,0) shows 1 and has exactly one unresolved neighbor: the mine.
    assert!(f.uncover_around(Coord(0, 0)));
    assert!(matches!(f.get(Coord(1, 1)).state, State::Uncovered));
    assert_eq!(f.get_stats().covered_mine, 0);
    // nothing left to reveal: a second chord is a no-op
    assert!(!f.uncover_around(Coord(0, 0)));
}

#[test]
fn chord_on_mine_cell_is_no_op() {
    let mut f = seeded(2, 2, 1, vec![2], Coord(0, 0));
    assert!(!f.uncover_around(Coord(1, 1)));
}

#[test]
fn chord_ignores_exploded_neighbors() {
    // 2x2 grid, mine at (1,1): explode it, reveal (0,1) and (1,0); the
    // chord on (0,1) then sees one covered neighbor, (0,0), matching its
    // number — the exploded cell counts neither as covered nor as an
    // uncovered mine.
    let mut f = seeded(2, 2, 1, vec![2], Coord(0, 0));
    f.uncover(Coord(1, 1));
    assert!(matches!(f.get(Coord(1, 1)).state, State::Exploded));
    f.uncover(Coord(0, 1));
    f.uncover(Coord(1, 0));
    assert!(f.uncover_around(Coord(0, 1)));
    assert!(matches!(f.get(Coord(0, 0)).state, State::Uncovered));
    // with no covered neighbor left, the chord reports no change even
    // though the exploded neighbor is still not uncovered
    assert!(!f.uncover_around(Coord(0, 1)));
}

#[test]
fn solved_when_every_non_mine_uncovered() {
    let mut f = seeded(4, 4, 1, vec![14], Coord(0, 0));
    f.uncover(Coord(0, 0));
    let stats = f.get_stats();
    assert_eq!(stats.uncovered_blank + f.get_mines(), f.get_rows() * f.get_columns());
    assert_eq!(stats.exploded, 0);
}
