pub mod angle;
pub mod circle;
pub mod collision;
pub mod num;
pub mod point;
pub mod rect;
