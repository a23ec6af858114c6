pub mod band;
pub mod field;
pub mod laws;
pub mod plane;
pub mod shade;
