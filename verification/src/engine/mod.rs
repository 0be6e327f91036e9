pub mod input;
pub mod mesh;
