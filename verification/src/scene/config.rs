//! The render settings of a scene description.

use vstd::prelude::*;

verus! {

/// The `render` block of a scene description.
pub struct RenderConfig {
    pub image_width: u32,
    pub image_height: u32,
    pub spp: u32,
    pub max_depth: u32,
    pub output: String,
}

/// Image width, image height, samples per pixel, maximum bounce depth and
/// output path of a scene: those of its `render` block, or 800 by 450
/// pixels, 100 samples, depth 50 and no output path when it has none.
pub fn render_params(render: &Option<RenderConfig>) -> (params: (usize, usize, usize, usize, Option<String>))
    ensures
        match render {
            Some(r) => {
                &&& params.0 == r.image_width
                &&& params.1 == r.image_height
                &&& params.2 == r.spp
                &&& params.3 == r.max_depth
                &&& params.4 matches Some(o) && o@ == r.output@
            },
            None => params == (800usize, 450usize, 100usize, 50usize, None::<String>),
        },
{
    match render {
        Some(r) => (
            r.image_width as usize,
            r.image_height as usize,
            r.spp as usize,
            r.max_depth as usize,
            Some(r.output.clone()),
        ),
        None => (800, 450, 100, 50, None),
    }
}

} // verus!
