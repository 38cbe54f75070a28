use grocery_bagger::nominos::NominoColor;
use grocery_bagger::connectivity::get_connected_empties_count;
use grocery_bagger::scoring::{
    calculate_bag_fill_multiplier, calculate_base_score, count_holes, score_bag,
};

/// Builds a bag from a picture of it: one line per row, top row first, `0` for an empty
/// cell and a digit `d` for a block of the color at position `d - 1`.
fn to_matrix(cols: usize, bag: &str) -> Vec<Vec<Option<NominoColor>>> {
    let bag: String = bag.chars().filter(|c| !c.is_whitespace()).rev().collect();
    let mut matrix = Vec::new();

    for (i, c) in bag.chars().enumerate() {
        if i % cols == 0 {
            matrix.push(Vec::new());
        };
        let row: &mut Vec<Option<NominoColor>> = &mut matrix[i / cols];

        row.push(if c == '0' {
            None
        } else {
            let id = c.to_digit(10).unwrap() - 1;
            Some(NominoColor::from_index(id as usize).unwrap())
        });
    }

    matrix
}

#[test]
fn empty_bag_gets_zero() {
    let bag = to_matrix(
        6,
        "
        000 000
        000 000
        000 000
        000 000
        000 000
        000 000
    ",
    );

    assert_eq!(0, score_bag(&bag, 36));
}

#[test]
fn full_bag_gets_max_score() {
    let bag = to_matrix(
        6,
        "
        111 111
        111 111
        111 111
        111 111
        111 111
        111 111
    ",
    );

    assert_eq!(20000, score_bag(&bag, 36));
}

#[test]
fn bag_gets_score_without_multiplier() {
    let bag = to_matrix(
        6,
        "
        000 000
        000 000
        000 001
        111 111
        111 111
        111 111
    ",
    );

    assert_eq!(950, score_bag(&bag, 36));
}

#[test]
fn bag_gets_2x_score() {
    let bag = to_matrix(
        6,
        "
        000 000
        000 111
        111 111
        111 111
        111 111
        111 111
    ",
    );

    assert_eq!(2700, score_bag(&bag, 36));
}

#[test]
fn bag_gets_5x_score() {
    let bag = to_matrix(
        6,
        "
        110 111
        111 111
        111 111
        111 111
        111 111
        111 111
    ",
    );

    assert_eq!(8750, score_bag(&bag, 36));
}

#[test]
fn bag_with_deep_open_space_isnt_detected_as_hole() {
    let bag = to_matrix(
        6,
        "
        110 111
        100 001
        111 011
        101 001
        101 011
        100 001
    ",
    );

    assert_eq!(2100, score_bag(&bag, 36));
}

#[test]
fn bag_with_holes_suffers_penalty() {
    let bag = to_matrix(
        6,
        "
        111 111
        100 001
        111 011
        101 001
        101 011
        100 001
    ",
    );

    assert_eq!(1500, score_bag(&bag, 36));
}

#[test]
fn bag_with_multiple_colors_reduces_score() {
    let bag = to_matrix(
        6,
        "
        111 111
        100 002
        222 022
        202 002
        202 022
        200 002
    ",
    );

    assert_eq!(1325, score_bag(&bag, 36));
}

#[test]
fn small_full_bag_returns_max_score() {
    let bag = to_matrix(
        4,
        "
        1111
        1111
    ",
    );

    assert_eq!(6000, score_bag(&bag, 8));
}

#[test]
fn fill_multiplier_steps() {
    // Capacity 36: thresholds 20 and 29.
    assert_eq!(calculate_bag_fill_multiplier(0, 36), 1);
    assert_eq!(calculate_bag_fill_multiplier(19, 36), 1);
    assert_eq!(calculate_bag_fill_multiplier(20, 36), 2);
    assert_eq!(calculate_bag_fill_multiplier(28, 36), 2);
    assert_eq!(calculate_bag_fill_multiplier(29, 36), 5);
    assert_eq!(calculate_bag_fill_multiplier(35, 36), 5);
    assert_eq!(calculate_bag_fill_multiplier(36, 36), 10);
    // A full bag of 4 cells only reaches the second step.
    assert_eq!(calculate_bag_fill_multiplier(4, 4), 2);
}

#[test]
fn fill_multiplier_never_drops() {
    for capacity in [4u8, 8, 12, 36] {
        let mut last = 0;
        for blocks in 0..=capacity {
            let m = calculate_bag_fill_multiplier(blocks, capacity);
            assert!(m >= last);
            last = m;
        }
    }
}

#[test]
fn base_score_weighs_colors_by_rank() {
    // 420 times (25 * 10 * 2 + 25 * 6 * 1.5 + 25 * 2 * 4 / 3).
    assert_eq!(calculate_base_score(&[10, 6, 2, 0, 0, 0, 0], 36), 420 * 500 + 420 * 225 + 420 * 200 / 3);
    // A color filling the bag gets 100 more raw points.
    assert_eq!(calculate_base_score(&[8, 0, 0, 0, 0, 0, 0], 8), 420 * 600);
    // Counting stops at the first color without blocks.
    assert_eq!(calculate_base_score(&[0, 5, 0, 0, 0, 0, 0], 36), 0);
}

#[test]
fn connected_empties_follow_open_paths_from_the_top() {
    let bag = to_matrix(
        6,
        "
        110 111
        100 001
        111 011
        101 001
        101 011
        100 001
    ",
    );
    // The open cell on top reaches every open cell, winding down to the bottom row and back up.
    assert_eq!(get_connected_empties_count(&bag), 15);
    assert_eq!(count_holes(&bag, 21, 36), 0);

    let closed = to_matrix(
        6,
        "
        111 111
        100 001
        111 011
        101 001
        101 011
        100 001
    ",
    );
    assert_eq!(get_connected_empties_count(&closed), 0);
    assert_eq!(count_holes(&closed, 22, 36), 14);
}

#[test]
fn empty_bag_has_every_cell_connected() {
    let bag = to_matrix(
        3,
        "
        000
        000
        000
        000
    ",
    );
    assert_eq!(get_connected_empties_count(&bag), 12);
}

#[test]
fn hole_penalty_can_wipe_out_a_score() {
    // A covered bag whose blocks score less than its holes cost scores 0.
    let bag = to_matrix(
        3,
        "
        111
        000
        000
        000
    ",
    );
    assert_eq!(score_bag(&bag, 12), 0);
}

#[test]
fn no_bag_scores_more_than_a_full_one_color_bag() {
    let two_colors = to_matrix(
        4,
        "
        1111
        2222
    ",
    );
    let one_color = to_matrix(
        4,
        "
        1111
        1111
    ",
    );
    assert!(score_bag(&two_colors, 8) < score_bag(&one_color, 8));
    assert_eq!(score_bag(&one_color, 8), 20 * (25 * 8 + 100));
}

#[test]
fn walled_in_cells_are_holes() {
    let bag = to_matrix(
        4,
        "
        0000
        1111
        1001
        1111
    ",
    );
    assert_eq!(get_connected_empties_count(&bag), 4);
    assert_eq!(count_holes(&bag, 10, 16), 2);
}

#[test]
fn recoloring_a_bag_keeps_its_score() {
    let bag = to_matrix(
        6,
        "
        111 111
        100 002
        222 022
        202 002
        202 022
        200 002
        ",
    );
    let recolored = to_matrix(
        6,
        "
        555 555
        500 003
        333 033
        303 003
        303 033
        300 003
        ",
    );

    assert_eq!(score_bag(&bag, 36), 1325);
    assert_eq!(score_bag(&recolored, 36), 1325);
}
