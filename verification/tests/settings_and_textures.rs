use raytracer::background::hdri_pixel_index;
use raytracer::pdf::SpherePdf;
use raytracer::scene::config::{render_params, RenderConfig};
use raytracer::texture::image::ImageTexture;

#[test]
fn render_params_default() {
    assert_eq!(render_params(&None), (800, 450, 100, 50, None));
}

#[test]
fn render_params_from_config() {
    let cfg = RenderConfig { image_width: 640, image_height: 480, spp: 16, max_depth: 8, output: "out.png".to_string() };
    assert_eq!(render_params(&Some(cfg)), (640, 480, 16, 8, Some("out.png".to_string())));
}

fn checker() -> ImageTexture {
    // 2 x 2 texels, RGBA.
    let texels = vec![
        1, 2, 3, 255, 4, 5, 6, 255, //
        7, 8, 9, 255, 10, 11, 12, 255,
    ];
    ImageTexture::new(Some((2, 2, texels)))
}

#[test]
fn texel_lookup() {
    let tex = checker();
    assert_eq!(tex.texel(0, 0), Some((1, 2, 3)));
    assert_eq!(tex.texel(1, 0), Some((4, 5, 6)));
    assert_eq!(tex.texel(0, 1), Some((7, 8, 9)));
    assert_eq!(tex.texel(1, 1), Some((10, 11, 12)));
}

#[test]
fn texel_clamps_to_last_row_and_column() {
    let tex = checker();
    assert_eq!(tex.texel(2, 0), Some((4, 5, 6)));
    assert_eq!(tex.texel(0, 9), Some((7, 8, 9)));
    assert_eq!(tex.texel(u32::MAX, u32::MAX), Some((10, 11, 12)));
}

#[test]
fn missing_image_has_no_texels() {
    let tex = ImageTexture::new(None);
    assert_eq!(tex.texel(0, 0), None);
}

#[test]
fn hdri_index_clamps() {
    assert_eq!(hdri_pixel_index(0, 0, 4, 2), 0);
    assert_eq!(hdri_pixel_index(3, 1, 4, 2), 7);
    assert_eq!(hdri_pixel_index(4, 0, 4, 2), 3);
    assert_eq!(hdri_pixel_index(2, 5, 4, 2), 6);
}

#[test]
fn sphere_pdf_constructs() {
    let _pdf: SpherePdf = SpherePdf::new();
}

#[test]
fn pixel_data_of_loaded_and_missing_texture() {
    let tex = checker();
    let (texels, width, height) = tex.get_pixel_data().expect("loaded texture");
    assert_eq!((width, height), (2, 2));
    assert_eq!(texels.len(), 16);
    assert_eq!(&texels[4..8], &[4, 5, 6, 255]);
    assert!(ImageTexture::new(None).get_pixel_data().is_none());
}
