pub mod world;
pub mod game;
pub mod rle;
pub mod standard_error;
