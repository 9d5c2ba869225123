pub mod game;
pub mod grid;
pub mod math;
pub mod shapes;
