//! Integer and buffer logic of a GPU path tracer: the framebuffer and its
//! encodings, the index tables that lay a scene out for the GPU, and the
//! render settings.

pub mod image;
pub mod rgb_image;
pub mod gpu;
pub mod scene;
pub mod pdf;
pub mod texture;
pub mod background;
