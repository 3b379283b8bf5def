use image::ImageFormat;
use s2_tiler::composite::SceneTile;
use s2_tiler::raster::{BandStack, MaskGrid, NdviGrid};
use s2_tiler::render::{empty_tile_png, encode_tile, tile_rgba, Levels, OutputFormat};

#[test]
fn formats_are_read_in_any_case() {
    assert_eq!(OutputFormat::from_str("png"), Some(OutputFormat::Png));
    assert_eq!(OutputFormat::from_str("PNG"), Some(OutputFormat::Png));
    assert_eq!(OutputFormat::from_str("jpg"), Some(OutputFormat::Jpeg));
    assert_eq!(OutputFormat::from_str("JpEg"), Some(OutputFormat::Jpeg));
    assert_eq!(OutputFormat::from_str("WebP"), Some(OutputFormat::WebP));
    assert_eq!(OutputFormat::from_str("gif"), None);
    assert_eq!(OutputFormat::from_str(""), None);
    assert_eq!(OutputFormat::from_lowercase("PNG"), None);
}

#[test]
fn formats_have_types_and_extensions() {
    let all = [
        (OutputFormat::Png, "image/png", "png"),
        (OutputFormat::Jpeg, "image/jpeg", "jpg"),
        (OutputFormat::WebP, "image/webp", "webp"),
    ];
    for (f, media, ext) in all {
        assert_eq!(f.content_type(), media);
        assert_eq!(f.as_ext(), ext);
        assert_eq!(OutputFormat::from_str(f.as_ext()), Some(f));
    }
}

fn levels() -> Levels {
    Levels { samples: (0..65536u32).map(|v| (v / 256) as u8).collect(), index: vec![1, 2, 3, 4] }
}

fn tile(bands: usize) -> SceneTile {
    let mut data = BandStack::filled(bands, 2, 2, 0);
    for b in 0..bands {
        data.set(b, 0, 1, 256 * (b as u16 + 1));
    }
    SceneTile { data, mask: MaskGrid::filled(2, 2, false), ndvi: None }
}

#[test]
fn three_bands_are_colours() {
    let rgba = tile_rgba(&tile(3), &levels());
    assert_eq!(rgba.len(), 16);
    assert_eq!(rgba[0..4], [0, 0, 0, 255]);
    assert_eq!(rgba[4..8], [1, 2, 3, 255]);
}

#[test]
fn other_bands_are_grey() {
    assert_eq!(tile_rgba(&tile(1), &levels())[4..8], [1, 1, 1, 255]);
    assert_eq!(tile_rgba(&tile(2), &levels())[4..8], [1, 1, 1, 255]);
}

#[test]
fn index_is_shown_in_place_of_bands() {
    let mut t = tile(1);
    t.ndvi = Some(NdviGrid::filled(2, 2, (0, 1)));
    let rgba = tile_rgba(&t, &levels());
    assert_eq!(rgba[4..8], [2, 2, 2, 255]);
    assert_eq!(rgba[12..16], [4, 4, 4, 255]);
}

#[test]
fn tiles_are_encoded_in_each_format() {
    for (f, kind) in [
        (OutputFormat::Png, ImageFormat::Png),
        (OutputFormat::WebP, ImageFormat::WebP),
    ] {
        let file = encode_tile(&tile(3), &levels(), f).unwrap();
        let img = image::load_from_memory_with_format(&file, kind).unwrap().to_rgba8();
        assert_eq!(img.dimensions(), (2, 2));
        assert_eq!(img.get_pixel(1, 0).0, [1, 2, 3, 255]);
        assert_eq!(img.get_pixel(0, 1).0, [0, 0, 0, 255]);
    }
    let file = encode_tile(&tile(3), &levels(), OutputFormat::Jpeg).unwrap();
    let img = image::load_from_memory_with_format(&file, ImageFormat::Jpeg).unwrap();
    assert_eq!((img.width(), img.height()), (2, 2));
    assert!(!img.color().has_alpha());
}

#[test]
fn tile_without_pixels_is_refused() {
    let t = SceneTile {
        data: BandStack::filled(1, 0, 0, 0),
        mask: MaskGrid::filled(0, 0, false),
        ndvi: None,
    };
    assert!(encode_tile(&t, &levels(), OutputFormat::Png).is_none());
}

#[test]
fn empty_tile_is_transparent() {
    let file = empty_tile_png();
    let img = image::load_from_memory_with_format(&file, ImageFormat::Png).unwrap().to_rgba8();
    assert_eq!(img.dimensions(), (256, 256));
    assert!(img.pixels().all(|p| p.0 == [0, 0, 0, 0]));
}

#[test]
fn texts_with_slashes_name_no_format() {
    for text in ["png/", "/png", "p/ng", "image/png"] {
        assert_eq!(OutputFormat::from_str(text), None);
    }
}

#[test]
fn formats_limit_the_size_of_an_image() {
    let wide = |n: usize| SceneTile {
        data: BandStack::filled(1, n, n, 5),
        mask: MaskGrid::filled(n, n, true),
        ndvi: None,
    };
    for f in [OutputFormat::Png, OutputFormat::Jpeg, OutputFormat::WebP] {
        assert!(encode_tile(&wide(0), &levels(), f).is_none());
        assert!(encode_tile(&wide(1), &levels(), f).is_some());
        assert!(encode_tile(&wide(256), &levels(), f).is_some());
    }
}
