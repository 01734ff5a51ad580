//! Reading meshes and images.

pub mod obj;
pub mod png_image;

pub use obj::from_obj;
pub use png_image::from_png;
