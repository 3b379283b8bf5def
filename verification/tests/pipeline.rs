use s2_tiler::composite::SceneTile;
use s2_tiler::config::{Composite, S2Config};
use s2_tiler::geo::{tile_to_quadkey, TileRange};
use s2_tiler::index::{load_index, IndexRows, KeyRow, MosaicIndex, SceneRef, SceneRow};
use s2_tiler::number::Real;
use s2_tiler::pipeline::{
    all_read, assemble_scene, compose_tile, loaded_scene, scene_reads, stack_bands, tile_scenes,
    ClassRead, ClassResult, TILE_SIZE,
};
use s2_tiler::prefetch::chunk_scenes;
use s2_tiler::raster::{BandGrid, ClassGrid};
use s2_tiler::textmap::TextMap;

fn num(v: f64) -> Real {
    Real::from_bits(v.to_bits())
}

fn config(max_scenes_per_tile: usize) -> S2Config {
    S2Config {
        name: "t".to_string(),
        extent: [num(0.0), num(0.0), num(10.0), num(10.0)],
        years: vec![2024],
        season: None,
        max_cloud_cover: num(20.0),
        bands: vec!["B04".to_string()],
        composite: Composite::BestPixel,
        rescale: [num(0.0), num(3000.0)],
        max_scenes_per_tile,
        haze_dn_max: 0,
        scl_masking: true,
        temporal_priority: false,
        minzoom: 8,
        maxzoom: 15,
        quadkey_zoom: 8,
        stac_url: String::new(),
        collection: String::new(),
    }
}

/// Scenes of falling cloud cover in one cell.
fn crowded_index(n: i32) -> MosaicIndex {
    let row = |i: i32| SceneRow {
        idx: i,
        id: format!("s{i}"),
        cloud: num((n - i) as f64),
        dt: String::new(),
        epsg: 32631,
        scl_url: String::new(),
        bands: "{}".to_string(),
        bbox: [num(0.0), num(0.0), num(10.0), num(10.0)],
    };
    let key = tile_to_quadkey(129, 126, 8) as i64;
    let rows = IndexRows {
        quadkey_zoom: 8,
        scenes: (0..n).map(row).collect(),
        keys: (0..n).map(|i| KeyRow { quadkey: key, scene_idx: i }).collect(),
    };
    load_index(rows, false).unwrap()
}

#[test]
fn no_zoom_level_reads_more_scenes_than_the_limit() {
    assert_eq!(TILE_SIZE, 256);
    let ix = crowded_index(20);
    let area = [num(1.0), num(1.0), num(2.0), num(2.0)];
    let near = |m: usize, z: u8, x: u32, y: u32| -> Vec<String> {
        tile_scenes(&ix, &config(m), z, x, y, area).iter().map(|s| s.id.clone()).collect()
    };
    assert_eq!(near(3, 8, 129, 126), ["s19", "s18", "s17"]);
    assert_eq!(near(3, 15, 129 << 7, 126 << 7), ["s19", "s18", "s17"]);
    assert_eq!(near(3, 6, 129 >> 2, 126 >> 2), ["s19", "s18", "s17"]);
    assert_eq!(near(40, 8, 129, 126).len(), 20);
    assert!(near(0, 8, 129, 126).is_empty());
}

#[test]
fn a_chunk_reads_up_to_four_times_the_scenes_of_a_tile() {
    let ix = crowded_index(20);
    let cells = TileRange { x_min: 128, y_min: 126, x_max: 130, y_max: 127 };
    for (minzoom, maxzoom, n) in [(15, 15, 3), (14, 15, 6), (13, 15, 12), (8, 15, 12)] {
        let mut c = config(3);
        (c.minzoom, c.maxzoom) = (minzoom, maxzoom);
        let found = chunk_scenes(&ix, &c, cells);
        let ids: Vec<String> = found.iter().map(|s| s.id.clone()).collect();
        let best: Vec<String> = (0..n).map(|i| format!("s{}", 19 - i)).collect();
        assert_eq!(ids, best);
    }
}

fn scene(scl: Option<&str>) -> SceneRef {
    SceneRef {
        id: "s".to_string(),
        band_urls: TextMap::new().with("B04".to_string(), "https://x/red".to_string()),
        scl_url: scl.map(str::to_string),
        cloud_cover: Real::from_bits(0),
        datetime: String::new(),
        epsg: 32631,
        bbox: [Real::from_bits(0); 4],
    }
}

#[test]
fn reads_follow_bands_and_masking() {
    let bands = vec!["B04".to_string(), "B03".to_string()];
    let r = scene_reads(&scene(Some("https://x/scl")), &bands, true);
    assert_eq!(r.bands, vec![Some("https://x/red".to_string()), None]);
    assert!(matches!(r.classes, ClassRead::From(u) if u == "https://x/scl"));
    assert!(matches!(scene_reads(&scene(None), &bands, true).classes, ClassRead::Missing));
    assert!(matches!(
        scene_reads(&scene(Some("https://x/scl")), &bands, false).classes,
        ClassRead::Unused
    ));
}

#[test]
fn one_failed_read_fails_all() {
    assert_eq!(all_read(vec![Some(1), Some(2)]), Some(vec![1, 2]));
    assert_eq!(all_read(vec![Some(1), None]), None);
    assert_eq!(all_read(Vec::<Option<u8>>::new()), Some(Vec::new()));
}

fn band(values: [u16; 4]) -> BandGrid {
    BandGrid::from_values(2, 2, values.to_vec()).unwrap()
}

fn classes(values: [u8; 4]) -> ClassGrid {
    ClassGrid::from_values(2, 2, values.to_vec()).unwrap()
}

#[test]
fn bands_are_stacked_in_order() {
    let data = stack_bands(&vec![band([1, 2, 3, 4]), band([5, 6, 7, 8])], 2);
    assert_eq!(data.dim(), (2, 2, 2));
    assert_eq!(data.get(0, 1, 0), 3);
    assert_eq!(data.get(1, 0, 1), 6);
}

fn mask(t: &SceneTile) -> [bool; 4] {
    [t.mask.get(0, 0), t.mask.get(0, 1), t.mask.get(1, 0), t.mask.get(1, 1)]
}

#[test]
fn scenes_that_were_not_read_whole_are_not_used() {
    let read = loaded_scene(vec![Some(1), Some(2)], ClassResult::Read('c'));
    assert_eq!(read, Some((vec![1, 2], Some('c'))));
    assert_eq!(loaded_scene(vec![Some(1)], ClassResult::<u8>::Unused), Some((vec![1], None)));
    assert_eq!(loaded_scene(vec![Some(1)], ClassResult::<u8>::Failed), None);
    assert_eq!(loaded_scene(vec![Some(1), None], ClassResult::Read('c')), None);
}

#[test]
fn classes_haze_and_missing_data_mask_pixels() {
    let bands = vec![band([100, 100, 0, 3000])];
    let t = assemble_scene(&bands, Some(classes([4, 8, 5, 6])), 2400, 2).unwrap();
    assert_eq!(mask(&t), [true, false, false, false]);
}

#[test]
fn without_classes_any_data_counts() {
    let t = assemble_scene(&vec![band([100, 0, 5, 3000])], None, 2400, 2).unwrap();
    assert_eq!(mask(&t), [true, false, true, true]);
}

#[test]
fn scenes_that_cannot_be_used_give_no_tile() {
    assert!(assemble_scene(&Vec::new(), None, 0, 2).is_none());
    assert!(assemble_scene(&vec![band([0, 0, 0, 0])], None, 0, 2).is_none());
    let cloudy = Some(classes([3, 3, 3, 3]));
    assert!(assemble_scene(&vec![band([1, 1, 1, 1])], cloudy, 0, 2).is_none());
}

#[test]
fn composed_tile_takes_the_first_valid_pixel_and_fills() {
    let first = assemble_scene(&vec![band([10, 0, 0, 0])], None, 0, 2);
    let second = assemble_scene(&vec![band([99, 20, 0, 0])], None, 0, 2);
    let t = compose_tile(vec![None, first, second], &Composite::BestPixel, 1, 2, 2).unwrap();
    assert_eq!(mask(&t), [true; 4]);
    assert_eq!(t.data.get(0, 0, 0), 10);
    assert_eq!(t.data.get(0, 0, 1), 20);
    assert_eq!(t.data.get(0, 1, 0), 10);
    assert_eq!(t.data.get(0, 1, 1), 20);
}

#[test]
fn a_tile_composites_the_first_scenes_that_have_a_pixel_for_it() {
    let scenes = || {
        vec![
            None,
            assemble_scene(&vec![band([10, 0, 0, 0])], None, 0, 2),
            None,
            assemble_scene(&vec![band([99, 20, 0, 0])], None, 0, 2),
            assemble_scene(&vec![band([99, 99, 30, 0])], None, 0, 2),
        ]
    };
    let corner = |max: usize| {
        compose_tile(scenes(), &Composite::BestPixel, 1, 2, max)
            .map(|t| (t.data.get(0, 0, 1), t.data.get(0, 1, 0)))
    };
    assert_eq!(corner(0), None);
    assert_eq!(corner(1), Some((10, 10)));
    assert_eq!(corner(2), Some((20, 10)));
    assert_eq!(corner(3), Some((20, 30)));
    assert_eq!(corner(9), Some((20, 30)));
}

#[test]
fn no_scenes_compose_no_tile() {
    assert!(compose_tile(vec![None, None], &Composite::Median, 1, 2, 6).is_none());
    assert!(compose_tile(Vec::new(), &Composite::Median, 1, 2, 6).is_none());
}
