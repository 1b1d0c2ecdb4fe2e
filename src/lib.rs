//! A snake game on a wrap-around board: the grid model, the snake stored as a
//! chain of directions inside the grid, and the step-by-step state machine.

mod cell;
mod field;
mod game;
mod point;




pub use cell::{Cell, Direction};
pub use field::Field;
pub use game::{Game, GameState, GameView};
pub use point::{modulus, Point, Size2D};
