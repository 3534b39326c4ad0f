pub mod text;
pub mod img;
