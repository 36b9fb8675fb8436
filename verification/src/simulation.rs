pub mod blob;
pub mod world;
