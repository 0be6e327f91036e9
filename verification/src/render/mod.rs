pub mod graphics;
pub mod line;
pub mod raster;
pub mod pipeline;
