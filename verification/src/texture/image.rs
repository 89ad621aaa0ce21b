//! A texture read from an image file, held as 8-bit RGBA texels.

use vstd::prelude::*;

verus! {

/// What a texture is: its texels, four bytes each (RGBA) row by row, when an
/// image was loaded, and its size.
pub struct TextureView {
    pub texels: Option<Seq<u8>>,
    pub width: nat,
    pub height: nat,
}

/// Position of texel `(i, j)` clamped into a `width` by `height` grid, as a
/// byte offset into RGBA texels.
pub open spec fn clamped_texel_start(width: nat, height: nat, i: nat, j: nat) -> int {
    let ci: int = if i >= width { width - 1 } else { i as int };
    let cj: int = if j >= height { height - 1 } else { j as int };
    (cj * width + ci) * 4
}

/// A texture made from an image, or an empty one when the image could not be
/// loaded.
pub struct ImageTexture {
    texels: Option<Vec<u8>>,
    width: u32,
    height: u32,
}

impl View for ImageTexture {
    type V = TextureView;

    closed spec fn view(&self) -> TextureView {
        TextureView {
            texels: match self.texels {
                Some(t) => Some(t@),
                None => None,
            },
            width: self.width as nat,
            height: self.height as nat,
        }
    }
}

impl ImageTexture {
    /// A texture from a decoded image, given as its width, height and RGBA
    /// bytes; without one (the file could not be opened) the texture is empty
    /// and of size 0 by 0.
    pub fn new(loaded: Option<(u32, u32, Vec<u8>)>) -> (tex: Self)
        requires
            loaded matches Some(img) ==> img.2@.len() == img.0 * img.1 * 4,
        ensures
            match loaded {
                Some(img) => tex@ == TextureView { texels: Some(img.2@), width: img.0 as nat, height: img.1 as nat },
                None => tex@ == TextureView { texels: None, width: 0, height: 0 },
            },
    {
        match loaded {
            Some(img) => {
                let (width, height, texels) = img;
                ImageTexture { texels: Some(texels), width, height }
            },
            None => ImageTexture { texels: None, width: 0, height: 0 },
        }
    }

    /// The RGB bytes of texel `(i, j)`, each coordinate clamped to the last
    /// column or row; `None` for an empty texture.
    pub fn texel(&self, i: u32, j: u32) -> (rgb: Option<(u8, u8, u8)>)
        requires
            self@.texels matches Some(t) ==> {
                &&& t.len() == self@.width * self@.height * 4
                &&& self@.width > 0
                &&& self@.height > 0
            },
        ensures
            match self@.texels {
                None => rgb is None,
                Some(t) => {
                    let k = clamped_texel_start(self@.width, self@.height, i as nat, j as nat);
                    rgb == Some((t[k], t[k + 1], t[k + 2]))
                },
            },
    {
        match &self.texels {
            None => None,
            Some(t) => {
                let mut i = i;
                let mut j = j;
                if i >= self.width {
                    i = self.width - 1;
                }
                if j >= self.height {
                    j = self.height - 1;
                }
                let ghost w = self.width as int;
                let ghost h = self.height as int;
                proof {
                    assert(0 <= j * w + i < w * h) by (nonlinear_arith)
                        requires 0 <= i < w, 0 <= j < h;
                    assert((j * w + i) * 4 + 3 < w * h * 4) by (nonlinear_arith)
                        requires 0 <= j * w + i < w * h;
                    assert(t@.len() == t.len());
                }
                let k = (j as usize * self.width as usize + i as usize) * 4;
                Some((t[k], t[k + 1], t[k + 2]))
            },
        }
    }

    /// The RGBA texels of a loaded image, row by row, with its width and
    /// height; `None` for an empty texture.
    pub fn get_pixel_data(&self) -> (data: Option<(&Vec<u8>, u32, u32)>)
        ensures
            match self@.texels {
                None => data is None,
                Some(t) => data matches Some(d) && d.0@ == t && d.1 == self@.width && d.2 == self@.height,
            },
    {
        match &self.texels {
            Some(t) => Some((t, self.width, self.height)),
            None => None,
        }
    }
}

} // verus!