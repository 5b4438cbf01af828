//! The pattern decoder: headers, run tokens, terminators, rule strings,
//! and the non-strict handling of malformed pieces.

use std::str::FromStr;
use yagol::Grid;
use yagol::RLE;

/// Counts the live cells that a window scan of get_cell sees.
fn count_alive(grid: &Grid, row: i64, col: i64, len: i64) -> usize {
    let mut count = 0;
    for r in row..(row + len) {
        for c in col..(col + len) {
            if grid.get_cell(r, c) {
                count += 1;
            }
        }
    }
    count
}

/// Decodes and applies pattern text to a fresh grid.
fn load(text: &str) -> Grid {
    let rle = RLE::parse(text).unwrap();
    assert!(rle.counts_fit());
    let mut grid = Grid::new();
    rle.apply(&mut grid);
    grid
}

#[test]
fn decodes_header_and_body() {
    let grid = load("x = 3, y = 2, rule = B3/S23\n3o$2bo!");
    assert!(grid.get_cell(0, 0));
    assert!(grid.get_cell(0, 1));
    assert!(grid.get_cell(0, 2));
    // the second row reads dead, dead, alive: the live cell sits at
    // column 2, after the two-cell dead run
    assert!(grid.get_cell(1, 2));
    assert!(!grid.get_cell(1, 0));
    assert!(!grid.get_cell(1, 1));
    assert_eq!(count_alive(&grid, -3, -3, 10), 4);
    assert!(grid.get_rule().contains_for_birth(3));
    assert!(!grid.get_rule().contains_for_birth(2));
    assert!(grid.get_rule().contains_for_survival(2));
    assert!(grid.get_rule().contains_for_survival(3));
    assert!(!grid.get_rule().contains_for_survival(1));
    assert!(!grid.get_rule().contains_for_survival(4));
}

#[test]
fn terminator_discards_the_rest() {
    let grid = load("x = 1, y = 1, rule = B3/S23\no!3o");
    assert!(grid.get_cell(0, 0));
    assert_eq!(count_alive(&grid, -2, -2, 8), 1);
}

#[test]
fn multi_digit_run_counts() {
    let grid = load("x = 12, y = 1, rule = B3/S23\n12o!");
    for c in 0..12 {
        assert!(grid.get_cell(0, c));
    }
    assert_eq!(count_alive(&grid, -2, -2, 20), 12);
}

#[test]
fn line_end_token_carries_a_count() {
    let grid = load("x = 1, y = 4, rule = B3/S23\no3$o!");
    assert!(grid.get_cell(0, 0));
    assert!(grid.get_cell(3, 0));
    assert_eq!(count_alive(&grid, -2, -2, 10), 2);
}

#[test]
fn zero_count_line_end_moves_nothing() {
    let grid = load("x = 2, y = 1, rule = B3/S23\no0$o!");
    assert!(grid.get_cell(0, 0));
    assert!(grid.get_cell(0, 1));
    assert_eq!(count_alive(&grid, -2, -2, 8), 2);
}

#[test]
fn dead_runs_clear_cells() {
    let mut grid = Grid::new();
    grid.set_cell(0, 0, true);
    grid.set_cell(0, 1, true);
    let rle = RLE::parse("x = 2, y = 1, rule = B3/S23\nbo!").unwrap();
    assert!(rle.counts_fit());
    rle.apply(&mut grid);
    assert!(!grid.get_cell(0, 0));
    assert!(grid.get_cell(0, 1));
}

#[test]
fn unrecognized_bytes_are_skipped() {
    let grid = load("x = 3, y = 1, rule = B3/S23\nq3w o_o*!");
    // the digit run before the garbage is discarded, the two tags stand
    assert!(grid.get_cell(0, 0));
    assert!(grid.get_cell(0, 1));
    assert_eq!(count_alive(&grid, -2, -2, 10), 2);
}

#[test]
fn digits_split_from_tag_are_discarded() {
    // a digit run not immediately followed by a tag counts for nothing
    let grid = load("x = 3, y = 1, rule = B3/S23\n12x3o!");
    assert!(grid.get_cell(0, 0));
    assert!(grid.get_cell(0, 1));
    assert!(grid.get_cell(0, 2));
    assert_eq!(count_alive(&grid, -2, -2, 10), 3);
}

#[test]
fn comment_lines_are_ignored() {
    let grid = load("#N test pattern\n#O nobody\nx = 2, y = 1, rule = B3/S23\n2o!");
    assert!(grid.get_cell(0, 0));
    assert!(grid.get_cell(0, 1));
    assert_eq!(count_alive(&grid, -2, -2, 8), 2);
}

#[test]
fn crlf_line_endings_decode_like_lf() {
    let grid = load("#N name\r\nx = 2, y = 2, rule = B3/S23\r\no$bo!\r\n");
    assert!(grid.get_cell(0, 0));
    assert!(grid.get_cell(1, 1));
    assert_eq!(count_alive(&grid, -2, -2, 8), 2);
}

#[test]
fn body_may_span_several_lines() {
    // a run count and its tag may be split by a line break
    let grid = load("x = 3, y = 1, rule = B3/S23\n3\no!");
    assert!(grid.get_cell(0, 0));
    assert!(grid.get_cell(0, 1));
    assert!(grid.get_cell(0, 2));
    assert_eq!(count_alive(&grid, -2, -2, 10), 3);
}

#[test]
fn missing_header_leaves_the_rule_alone() {
    let grid = load("3o$2bo!");
    assert!(grid.get_cell(0, 0));
    assert!(grid.get_cell(1, 2));
    assert_eq!(count_alive(&grid, -3, -3, 10), 4);
    // the default rule still governs
    assert!(grid.get_rule().contains_for_birth(3));
    assert!(grid.get_rule().contains_for_survival(2));
}

#[test]
fn malformed_header_line_joins_the_body() {
    // not a header: decoding continues, the line's tags are body tokens
    let grid = load("x = oops\no!");
    assert!(grid.get_cell(0, 0));
    assert!(grid.get_rule().contains_for_birth(3));
}

#[test]
fn unparseable_rule_string_keeps_the_previous_rule() {
    let mut grid = Grid::new();
    grid.set_rule(yagol::Rule { become_alive: vec![1], stay_alive: vec![] });
    let rle = RLE::parse("x = 1, y = 1, rule = nonsense\no!").unwrap();
    rle.apply(&mut grid);
    assert!(grid.get_rule().contains_for_birth(1));
    assert!(!grid.get_rule().contains_for_birth(3));
}

#[test]
fn rule_string_match_may_sit_inside_noise() {
    let grid = load("x = 1, y = 1, rule = see B36/S23 (highlife)\no!");
    assert!(grid.get_rule().contains_for_birth(3));
    assert!(grid.get_rule().contains_for_birth(6));
    assert!(!grid.get_rule().contains_for_birth(2));
    assert!(grid.get_rule().contains_for_survival(2));
    assert!(grid.get_rule().contains_for_survival(3));
}

#[test]
fn rule_string_without_letters_parses() {
    let grid = load("x = 1, y = 1, rule = 23/3\no!");
    // the first digit run feeds the birth set, the second the survival set
    assert!(grid.get_rule().contains_for_birth(2));
    assert!(grid.get_rule().contains_for_birth(3));
    assert!(grid.get_rule().contains_for_survival(3));
    assert!(!grid.get_rule().contains_for_survival(2));
}

#[test]
fn rule_string_tolerates_spaces_around_the_slash() {
    let grid = load("x = 1, y = 1, rule = B3 / S23\no!");
    assert!(grid.get_rule().contains_for_birth(3));
    assert!(grid.get_rule().contains_for_survival(2));
}

#[test]
fn empty_input_decodes_to_nothing() {
    let grid = load("");
    assert_eq!(count_alive(&grid, -5, -5, 10), 0);
    assert!(grid.get_rule().contains_for_birth(3));
}

#[test]
fn oversized_header_values_do_not_abort() {
    let grid = load("x = 99999999999999999999999999, y = 2, rule = B3/S23\no!");
    assert!(grid.get_cell(0, 0));
    assert!(grid.get_rule().contains_for_birth(3));
}

#[test]
fn from_str_decodes_like_parse() {
    let rle = RLE::from_str("x = 2, y = 1, rule = B3/S23\n2o!").unwrap();
    assert!(rle.counts_fit());
    let mut grid = Grid::new();
    rle.apply(&mut grid);
    assert!(grid.get_cell(0, 0));
    assert!(grid.get_cell(0, 1));
}

#[test]
fn decoded_pattern_evolves_correctly() {
    // the decoded glider walks one cell diagonally every four generations
    let mut grid = load("x = 3, y = 3, rule = B3/S23\nbo$2bo$3o!");
    let seed = [(0i64, 1i64), (1, 2), (2, 0), (2, 1), (2, 2)];
    for _ in 0..4 {
        grid.calc_next_generation();
    }
    for (r, c) in seed {
        assert!(grid.get_cell(r + 1, c + 1));
    }
    assert_eq!(count_alive(&grid, -10, -10, 25), 5);
}
