use grocery_bagger::current_score::{reclaim_memory, reset_score, score_bags, CurrentScore};
use grocery_bagger::nominos::NominoColor;

fn small_full_bag() -> Vec<Vec<Option<NominoColor>>> {
    vec![vec![Some(NominoColor::Red); 4]; 2]
}

fn small_half_bag() -> Vec<Vec<Option<NominoColor>>> {
    vec![vec![Some(NominoColor::Red); 4], vec![None; 4]]
}

#[test]
fn scoring_a_bag_adds_its_score() {
    let mut score = CurrentScore::default();
    let change = score_bags(&mut score, 7, &small_half_bag(), 8);
    assert_eq!(change.cause, 7);
    assert_eq!(change.diff, 200);
    assert_eq!(score.points, 200);
    assert_eq!(score.all_time_points, 200);
}

#[test]
fn rescoring_a_bag_counts_only_the_difference() {
    let mut score = CurrentScore::new();
    score_bags(&mut score, 7, &small_half_bag(), 8);
    let change = score_bags(&mut score, 7, &small_full_bag(), 8);
    assert_eq!(change.diff, 6000 - 200);
    assert_eq!(score.points, 6000);
    let change = score_bags(&mut score, 7, &small_full_bag(), 8);
    assert_eq!(change.diff, 0);
    assert_eq!(score.points, 6000);
    assert_eq!(score.all_time_points, 6000);
}

#[test]
fn forgetting_a_filled_bag_keeps_points() {
    let mut score = CurrentScore::new();
    score_bags(&mut score, 1, &small_full_bag(), 8);
    score_bags(&mut score, 2, &small_half_bag(), 8);
    reclaim_memory(&mut score, 1);
    assert_eq!(score.points, 6200);
    // Bag 1 now counts as new: its whole score is added again.
    let change = score_bags(&mut score, 1, &small_half_bag(), 8);
    assert_eq!(change.diff, 200);
    reclaim_memory(&mut score, 99);
    assert_eq!(score.points, 6400);
}

#[test]
fn replaying_a_level_takes_its_points_back() {
    let mut score = CurrentScore::new();
    let mut prev_level = 0u16;
    reset_score(&mut score, 1, &mut prev_level);
    score_bags(&mut score, 1, &small_full_bag(), 8);
    assert_eq!(score.all_time_points, 6000);

    reset_score(&mut score, 1, &mut prev_level);
    assert_eq!(score.points, 0);
    assert_eq!(score.all_time_points, 0);

    score_bags(&mut score, 2, &small_half_bag(), 8);
    reset_score(&mut score, 2, &mut prev_level);
    assert_eq!(prev_level, 2);
    assert_eq!(score.points, 0);
    assert_eq!(score.all_time_points, 200);

    // After the restart, bag 2 has no score any more.
    let change = score_bags(&mut score, 2, &small_half_bag(), 8);
    assert_eq!(change.diff, 200);
}
