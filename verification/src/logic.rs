pub mod aabb_grid;
pub mod grid_pos;
pub mod loose_grid;
pub mod seqs;
pub mod vec2d;
