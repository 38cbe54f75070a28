//! Game rules of Grocery Bagger 9000: bag scoring, conveyor belts of pieces,
//! bag replacement and level transitions.

pub mod analytics;
pub mod bags;
pub mod connectivity;
pub mod conveyor_belt;
pub mod current_score;
pub mod debug;
pub mod grid;
pub mod levels;
pub mod nominos;
pub mod score_laws;
pub mod scoring;
