pub mod logic;
pub mod math;
pub mod simulation;
