pub mod bmp;
pub mod utils;
