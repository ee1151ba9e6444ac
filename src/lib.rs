//! Map files of a game: rows of colored line segments and text labels, read
//! into layers.
pub mod map;
pub mod string;
