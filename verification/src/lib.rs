//! Terminal charts: the integer logic of drawing braille line graphs and pie
//! charts, of laying them out, and of reading columns of numbers.
pub mod raster;
pub mod text;
pub mod braille;
pub mod graph;
pub mod pie;
pub mod input;
pub mod titles;
