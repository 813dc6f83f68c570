//! Small verified toolkit of mathematical objects: finite integer sets,
//! integer matrices and boolean logic gates, with their text formats.

pub mod math_set;
pub mod matrix;
pub mod logic;
pub mod text;
