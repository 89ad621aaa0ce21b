//! Surface textures.

pub mod image;
