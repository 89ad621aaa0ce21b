//! What the renderer hands the GPU: index records, the tables that tie them
//! to scene data, the flattened bounding volume hierarchy, and the sizes of
//! the compute dispatch.

pub mod buffers;
pub mod bvh;
pub mod layout;
pub mod dispatch;
