//! Records and tag values of the GPU scene format that hold integers only.

use vstd::prelude::*;

verus! {

/// Material tag: diffuse (Lambertian).
pub const MAT_LAMBERTIAN: u32 = 0;
/// Material tag: metal.
pub const MAT_METALLIC: u32 = 1;
/// Material tag: glass.
pub const MAT_DIELECTRIC: u32 = 2;
/// Material tag: light emitter.
pub const MAT_DIFFUSE_LIGHT: u32 = 3;
/// Material tag: glossy (diffuse with a specular coat).
pub const MAT_SPECULAR: u32 = 4;

/// Primitive tag: sphere.
pub const PRIM_SPHERE: u32 = 0;
/// Primitive tag: quad.
pub const PRIM_QUAD: u32 = 1;
/// Primitive tag: triangle.
pub const PRIM_TRIANGLE: u32 = 2;

/// Background tag: flat color.
pub const BG_COLOR: u32 = 0;
/// Background tag: environment map.
pub const BG_HDRI: u32 = 1;

/// A primitive: its kind, and indices into the per-kind data table, the
/// material table and the transform table.
#[derive(Clone, Copy, Debug, PartialEq, Eq, Structural)]
pub struct GpuPrimitive {
    pub prim_type: u32,
    /// Index into the sphere, quad or triangle table, as `prim_type` says.
    pub data_index: u32,
    pub material_index: u32,
    pub transform_index: u32,
}

/// A light entry: the index of an emitting primitive.
#[derive(Clone, Copy, Debug, PartialEq, Eq)]
pub struct GpuLight {
    pub prim_index: u32,
    pub _pad: [u32; 3],
}

} // verus!
