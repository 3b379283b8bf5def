use s2_tiler::config::{Composite, S2Config};
use s2_tiler::geo::{tile_to_quadkey, TileRange};
use s2_tiler::index::{
    build_index, clip_to_extent, load_index, save_index, scene_extents, IndexRows, KeyRow,
    MosaicIndex, SceneRow,
};
use s2_tiler::number::Real;
use s2_tiler::stac::{StacAsset, StacItem, StacItemProperties};
use s2_tiler::textmap::TextMap;

fn num(v: f64) -> Real {
    Real::from_bits(v.to_bits())
}

fn area(w: f64, s: f64, e: f64, n: f64) -> [Real; 4] {
    [num(w), num(s), num(e), num(n)]
}

fn config() -> S2Config {
    S2Config {
        name: "t".to_string(),
        extent: area(0.0, 0.0, 10.0, 10.0),
        years: vec![2024],
        season: None,
        max_cloud_cover: num(20.0),
        bands: vec!["B04".to_string()],
        composite: Composite::BestPixel,
        rescale: [num(0.0), num(3000.0)],
        max_scenes_per_tile: 6,
        haze_dn_max: 0,
        scl_masking: true,
        temporal_priority: false,
        minzoom: 8,
        maxzoom: 15,
        quadkey_zoom: 8,
        stac_url: String::new(),
        collection: String::new(),
    }
}

fn item(id: &str, cloud: f64, when: &str, bbox: Option<[Real; 4]>) -> StacItem {
    let mut assets = TextMap::new();
    for a in ["red", "scl"] {
        assets = assets.with(
            a.to_string(),
            StacAsset { href: format!("https://x/{id}/{a}"), media_type: None },
        );
    }
    StacItem {
        id: id.to_string(),
        bbox,
        properties: StacItemProperties {
            cloud_cover: Some(num(cloud)),
            datetime: Some(when.to_string()),
            proj_epsg: Some(32631),
        },
        assets,
    }
}

fn cells(x_min: u32, y_min: u32, x_max: u32, y_max: u32) -> Option<TileRange> {
    Some(TileRange { x_min, y_min, x_max, y_max })
}

fn sample(temporal: bool) -> MosaicIndex {
    let mut c = config();
    c.temporal_priority = temporal;
    let items = vec![
        item("clear", 1.0, "2023-07-01T10:00:00Z", Some(area(0.0, 0.0, 2.0, 2.0))),
        item("hazy", 8.0, "2024-06-01T10:00:00Z", Some(area(1.0, 1.0, 3.0, 3.0))),
        item("far", 2.0, "2024-08-01T10:00:00Z", Some(area(5.0, 5.0, 6.0, 6.0))),
    ];
    let ranges = vec![cells(128, 126, 129, 127), cells(129, 126, 130, 127), cells(129, 126, 129, 126)];
    build_index(&items, &ranges, &c)
}

fn names(scenes: &[&s2_tiler::index::SceneRef]) -> Vec<String> {
    scenes.iter().map(|s| s.id.clone()).collect()
}

#[test]
fn boxes_are_clipped() {
    let extent = area(0.0, 0.0, 10.0, 10.0);
    assert_eq!(
        clip_to_extent(&area(-5.0, 2.0, 4.0, 20.0), &extent),
        Some(area(0.0, 2.0, 4.0, 10.0))
    );
    assert_eq!(clip_to_extent(&area(-5.0, 2.0, 0.0, 3.0), &extent), None);
    assert_eq!(clip_to_extent(&area(2.0, 11.0, 3.0, 12.0), &extent), None);
}

#[test]
fn only_usable_items_have_ground() {
    let c = config();
    let mut no_epsg = item("a", 1.0, "", None);
    no_epsg.properties.proj_epsg = None;
    let mut no_scl = item("b", 1.0, "", None);
    no_scl.assets = TextMap::new().with(
        "red".to_string(),
        StacAsset { href: "h".to_string(), media_type: None },
    );
    let mut no_band = item("c", 1.0, "", None);
    no_band.assets = TextMap::new().with(
        "scl".to_string(),
        StacAsset { href: "h".to_string(), media_type: None },
    );
    let outside = item("d", 1.0, "", Some(area(11.0, 0.0, 12.0, 1.0)));
    let whole = item("e", 1.0, "", None);
    let items = vec![no_epsg, no_scl, no_band, outside, whole];
    let ground = scene_extents(&items, &c);
    assert_eq!(ground[..4], [None, None, None, None]);
    assert_eq!(ground[4], Some(c.extent));

    let mut repeated = config();
    repeated.bands = vec!["B04".to_string(); 3];
    assert_eq!(scene_extents(&items, &repeated)[4], None);

    let mut unmasked = config();
    unmasked.scl_masking = false;
    assert_eq!(scene_extents(&items, &unmasked)[1], Some(c.extent));
}

#[test]
fn scenes_are_entered_under_their_cells() {
    let ix = sample(false);
    assert_eq!(ix.scene_count(), 3);
    assert_eq!(ix.total_scenes, 3);
    assert_eq!(ix.index_cell_count(), 6);
    assert!(ix.is_well_formed());
    assert_eq!(ix.index[&tile_to_quadkey(129, 126, 8)], vec![0, 1, 2]);
    assert_eq!(ix.index[&tile_to_quadkey(128, 127, 8)], vec![0]);
    let s = &ix.scenes[0];
    assert_eq!(s.band_urls.len(), 1);
    assert_eq!(s.band_urls.get("B04"), Some(&"https://x/clear/red".to_string()));
    assert_eq!(s.scl_url.as_deref(), Some("https://x/clear/scl"));
    assert_eq!(s.epsg, 32631);
    assert_eq!(s.cloud_cover, num(1.0));
}

#[test]
fn items_without_cells_are_left_out() {
    let items = vec![item("a", 1.0, "", None), item("b", 1.0, "", None), item("c", 1.0, "", None)];
    let ranges = vec![None, cells(5, 5, 4, 5), cells(5, 5, 5, 5)];
    let mut c = config();
    c.scl_masking = false;
    let ix = build_index(&items, &ranges, &c);
    assert_eq!(ix.scene_count(), 1);
    assert_eq!(ix.scenes[0].id, "c");
    assert_eq!(ix.scenes[0].scl_url, None);
    assert_eq!(ix.scenes[0].bbox, c.extent);
}

#[test]
fn tile_lookup_filters_orders_and_cuts() {
    let ix = sample(false);
    let near = area(1.5, 1.5, 1.8, 1.8);
    // all three share the cell, "far" does not overlap the tile
    assert_eq!(names(&ix.scenes_for_tile(10, 517, 505, 6, near)), ["clear", "hazy"]);
    assert_eq!(names(&ix.scenes_for_tile(10, 517, 505, 1, near)), ["clear"]);
    let all = area(0.0, 0.0, 9.0, 9.0);
    assert_eq!(names(&ix.scenes_for_tile(10, 517, 505, 6, all)), ["clear", "far", "hazy"]);
    assert!(ix.scenes_for_tile(10, 0, 0, 6, all).is_empty());
    // a tile above the index level meets a scene once, though it is in several cells
    assert_eq!(names(&ix.scenes_for_tile(7, 64, 63, 6, all)), ["clear", "far", "hazy"]);
}

#[test]
fn boxes_that_only_touch_do_not_overlap() {
    let ix = sample(false);
    assert!(ix.scenes_for_tile(8, 129, 126, 6, area(3.0, 3.0, 4.0, 4.0)).is_empty());
}

#[test]
fn latest_period_comes_first_where_it_has_priority() {
    let ix = sample(true);
    let all = area(0.0, 0.0, 9.0, 9.0);
    assert_eq!(names(&ix.scenes_for_tile(10, 517, 505, 6, all)), ["far", "hazy", "clear"]);
}

#[test]
fn rectangle_lookup_takes_all_scenes() {
    let ix = sample(false);
    let range = TileRange { x_min: 128, y_min: 127, x_max: 130, y_max: 127 };
    assert_eq!(names(&ix.scenes_for_bbox(range, 6)), ["clear", "hazy"]);
    assert_eq!(names(&ix.scenes_for_bbox(range, 1)), ["clear"]);
    let none = TileRange { x_min: 0, y_min: 0, x_max: 3, y_max: 3 };
    assert!(ix.scenes_for_bbox(none, 6).is_empty());
}

#[test]
fn addressable_tiles_are_told_apart() {
    let ix = sample(false);
    assert!(ix.is_addressable(8, 3, 3));
    assert!(ix.is_addressable(39, 3, 3));
    assert!(!ix.is_addressable(40, 3, 3));
    assert!(ix.is_addressable(0, 0, 0));
    assert!(!ix.is_addressable(7, u32::MAX, 0));
}

#[test]
fn saved_index_loads_back() {
    let ix = sample(true);
    let rows = save_index(&ix);
    assert_eq!(rows.quadkey_zoom, 8);
    assert_eq!(rows.keys.len(), 9);
    assert_eq!(rows.scenes[2].idx, 2);
    let back = load_index(rows, true).expect("the rows can be read");
    assert!(back.is_well_formed());
    assert_eq!(back.quadkey_zoom, ix.quadkey_zoom);
    assert_eq!(back.index, ix.index);
    assert_eq!(back.total_scenes, 3);
    for (a, b) in ix.scenes.iter().zip(&back.scenes) {
        assert_eq!(a.id, b.id);
        assert_eq!(a.band_urls.entries(), b.band_urls.entries());
        assert_eq!(a.scl_url, b.scl_url);
        assert_eq!(a.cloud_cover, b.cloud_cover);
        assert_eq!(a.datetime, b.datetime);
        assert_eq!(a.epsg, b.epsg);
        assert_eq!(a.bbox, b.bbox);
    }
}

#[test]
fn rows_are_loaded_as_they_stand() {
    let rows = IndexRows {
        quadkey_zoom: 8,
        scenes: vec![SceneRow {
            idx: 0,
            id: "a".to_string(),
            cloud: num(4.0),
            dt: "2024".to_string(),
            epsg: 32631,
            scl_url: String::new(),
            bands: r#"{"red":"https://x/r","nir":"https://x/n"}"#.to_string(),
            bbox: area(0.0, 0.0, 1.0, 1.0),
        }],
        keys: vec![
            KeyRow { quadkey: -1, scene_idx: 0 },
            KeyRow { quadkey: 5, scene_idx: 0 },
            KeyRow { quadkey: 5, scene_idx: 3 },
        ],
    };
    let ix = load_index(rows, false).expect("the rows can be read");
    assert_eq!(ix.scenes[0].scl_url, None);
    assert_eq!(ix.scenes[0].band_urls.len(), 2);
    assert_eq!(ix.scenes[0].band_urls.get("nir"), Some(&"https://x/n".to_string()));
    assert_eq!(ix.index[&u64::MAX], vec![0]);
    assert_eq!(ix.index[&5], vec![0, 3]);
    // scene 3 is not there
    assert!(!ix.is_well_formed());
}

#[test]
fn band_urls_are_stored_as_a_json_object() {
    let mut ix = sample(false);
    ix.scenes[0].band_urls = TextMap::new()
        .with("nir".to_string(), "https://x/\"n\"".to_string())
        .with("blue".to_string(), "b\\c".to_string());
    let rows = save_index(&ix);
    assert_eq!(rows.scenes[0].bands, r#"{"blue":"b\\c","nir":"https://x/\"n\""}"#);
    let back = load_index(rows, false).expect("the rows can be read");
    assert_eq!(back.scenes[0].band_urls.get("blue"), Some(&"b\\c".to_string()));
}

#[test]
fn unreadable_band_urls_are_refused() {
    for text in ["", "{", "[]", r#"{"red":1}"#] {
        let ix = sample(false);
        let mut rows = save_index(&ix);
        rows.scenes[1].bands = text.to_string();
        assert!(load_index(rows, false).is_none());
    }
}

#[test]
fn cells_follow_the_order_of_the_items() {
    let mut items = Vec::new();
    let mut ranges = Vec::new();
    for i in 0..5u32 {
        items.push(item(&format!("s{i}"), i as f64, "", None));
        ranges.push(cells(i, 0, 4, 1));
    }
    let ix = build_index(&items, &ranges, &config());
    for cell in ix.index.values() {
        for pair in cell.windows(2) {
            assert!(pair[0] < pair[1]);
            let (a, b) = (&ix.scenes[pair[0]], &ix.scenes[pair[1]]);
            assert!(a.cloud_cover.le(&b.cloud_cover));
        }
    }
    assert_eq!(ix.index[&tile_to_quadkey(4, 1, 8)].len(), 5);
}

#[test]
fn periods_are_read_from_the_start_of_a_time() {
    let mut s = build_index(&vec![item("a", 1.0, "2024-06-01T00:00:00Z", None)], &vec![cells(0, 0, 0, 0)], &config())
        .scenes
        .remove(0);
    assert_eq!(s.order_key(true).0, -(2024 * 12 + 6));
    assert_eq!(s.order_key(false), (0, num(1.0).order()));
    for text in ["", "2024", "2024/06/01", "20240601T00", "x024-06-01"] {
        s.datetime = text.to_string();
        assert_eq!(s.order_key(true).0, 0);
    }
}
