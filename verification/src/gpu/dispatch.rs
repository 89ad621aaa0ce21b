//! The sizes of a render pass and the light table as the shader reads it.

use vstd::prelude::*;

verus! {

/// How a frame of `width` by `height` pixels is dispatched and read back.
pub struct DispatchSize {
    /// Work groups along x: one per 8 columns, rounded up.
    pub workgroups_x: u32,
    /// Work groups along y: one per 8 rows, rounded up.
    pub workgroups_y: u32,
    /// Pixels in the frame.
    pub pixel_count: usize,
    /// Bytes of a buffer holding one 4 x f32 vector per pixel.
    pub buffer_bytes: u64,
}

/// The dispatch of a frame: 8 by 8 pixels per work group, one 16-byte vector
/// per pixel in the accumulation and output buffers.
pub fn dispatch_size(width: u32, height: u32) -> (d: DispatchSize)
    requires
        width * height <= u32::MAX,
        width + 7 <= u32::MAX,
        height + 7 <= u32::MAX,
        width * height * 16 <= usize::MAX,
    ensures
        d.workgroups_x == (width + 7) / 8,
        d.workgroups_y == (height + 7) / 8,
        d.pixel_count == width * height,
        d.buffer_bytes == width * height * 16,
        d.workgroups_x * 8 >= width,
        d.workgroups_y * 8 >= height,
{
    let pixel_count = (width * height) as usize;
    let buffer_bytes = (pixel_count * 16) as u64;
    DispatchSize {
        workgroups_x: (width + 7) / 8,
        workgroups_y: (height + 7) / 8,
        pixel_count,
        buffer_bytes,
    }
}

/// The light table as the shader reads it: the number of lights, then their
/// primitive indices; a table with no lights gets one filler entry, since a
/// GPU buffer cannot be empty.
pub open spec fn light_buffer_spec(indices: Seq<u32>) -> Seq<u32> {
    let data = seq![indices.len() as u32] + indices;
    if data.len() < 2 {
        data.push(0)
    } else {
        data
    }
}

/// Builds the light table that the shader reads.
pub fn light_buffer(indices: &Vec<u32>) -> (data: Vec<u32>)
    ensures
        data@ == light_buffer_spec(indices@),
{
    let mut data: Vec<u32> = Vec::new();
    data.push(indices.len() as u32);
    let mut i: usize = 0;
    while i < indices.len()
        invariant
            i <= indices@.len(),
            data@ == seq![indices@.len() as u32] + indices@.take(i as int),
        decreases indices@.len() - i,
    {
        data.push(indices[i]);
        i = i + 1;
        assert(indices@.take(i as int) =~= indices@.take(i - 1).push(indices@[i - 1]));
    }
    assert(indices@.take(i as int) =~= indices@);
    if data.len() < 2 {
        data.push(0);
    }
    data
}

} // verus!
