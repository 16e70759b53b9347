pub mod media;
pub mod grid;
pub mod sheet;
pub mod canvas;
