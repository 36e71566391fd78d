use fsearch::images::{
    check_header, is_image_path, is_svg_path, load, refusal, within_pixel_limit, Picture,
    MAX_IMAGE_BYTES,
};

#[test]
fn recognizes_image_extensions() {
    for p in [
        "/a/photo.png",
        "/a/photo.JPG",
        "/a/scan.tiff",
        "/a/scan.tif",
        "/a/anim.gif",
        "/a/pic.webp",
        "/a/pic.bmp",
        "/a/icon.svg",
    ] {
        assert!(is_image_path(p), "should be image: {p}");
    }
    for p in ["/a/notes.md", "/a/code.rs", "/a/archive.tar.gz", "/a/png"] {
        assert!(!is_image_path(p), "should not be image: {p}");
    }
}

#[test]
fn svg_paths_and_pixel_limits() {
    assert!(is_svg_path("/a/icon.SVG"));
    assert!(!is_svg_path("/a/icon.png"));
    assert!(within_pixel_limit(1, 1));
    assert!(!within_pixel_limit(u32::MAX, u32::MAX));
}

fn png(width: u32, height: u32) -> Vec<u8> {
    let mut data = std::io::Cursor::new(Vec::new());
    image::RgbaImage::from_pixel(width, height, image::Rgba([255, 0, 0, 255]))
        .write_to(&mut data, image::ImageFormat::Png)
        .unwrap();
    data.into_inner()
}

#[test]
fn loads_a_png_roundtrip() {
    let Ok(Picture::Raster(img)) = load("/d/dot.png", &png(3, 2), MAX_IMAGE_BYTES) else {
        panic!("a png is a raster image");
    };
    assert_eq!((img.width(), img.height()), (3, 2));
    assert_eq!(img.to_rgba8().get_pixel(1, 1).0, [255, 0, 0, 255]);
}

#[test]
fn oversized_files_are_refused() {
    let data = png(2, 2);
    assert!(refusal(true, data.len() as u64, 10).is_some());
    assert_eq!(
        refusal(true, 3 * 1024 * 1024, 2 * 1024 * 1024).as_deref(),
        Some("image larger than 2 MiB")
    );
    assert_eq!(refusal(false, 0, 10).as_deref(), Some("not a regular image file"));
    assert_eq!(refusal(true, 10, 10), None);
}

#[test]
fn corrupt_image_is_an_error_not_a_panic() {
    assert!(load("/d/bad.png", &b"not a png".to_vec(), MAX_IMAGE_BYTES).is_err());
    // an extension of no image format
    assert!(load("/d/dot.zzz", &png(2, 2), MAX_IMAGE_BYTES).is_err());
}

#[test]
fn extreme_dimensions_are_refused_before_full_decode() {
    assert!(load("/d/wide.png", &png(16_385, 1), MAX_IMAGE_BYTES).is_err());
    assert_eq!(
        check_header(Ok((8_000, 4_001))).as_deref(),
        Some("image exceeds the 32 megapixel preview limit")
    );
    assert_eq!(check_header(Ok((8_000, 4_000))), None);
    assert_eq!(check_header(Err("x".to_string())).as_deref(), Some("x"));
}

#[test]
fn vector_art_is_left_to_the_renderer() {
    assert!(matches!(load("/d/a.svg", &b"<svg/>".to_vec(), 10), Ok(Picture::Vector)));
    assert_eq!(
        load("/d/a.svg", &vec![0; 11], 10).err().as_deref(),
        Some("SVG grew beyond the input-size limit")
    );
}
