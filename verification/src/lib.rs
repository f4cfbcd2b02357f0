pub mod bitmap;
pub mod canny;
pub mod gaussian_blur;
pub mod image;
