use s2_tiler::config::{Composite, S2Config};
use s2_tiler::index::load_index;
use s2_tiler::index::IndexRows;
use s2_tiler::number::Real;
use s2_tiler::render::OutputFormat;
use s2_tiler::server::{
    build_reply, build_step, check_request, checked_request, default_format, index_source, info,
    prefetch_names, sorted_names, tile_outcome, tile_reply, tile_response, tilejson,
    tileset_not_found, tileset_or_404, IndexSource,
};
use s2_tiler::geo::{tile_to_quadkey, TileRange};
use s2_tiler::stac::{StacAsset, StacItem, StacItemProperties};
use s2_tiler::textmap::TextMap;

fn num(v: f64) -> Real {
    Real::from_bits(v.to_bits())
}

fn texts(list: &[&str]) -> Vec<String> {
    list.iter().map(|s| s.to_string()).collect()
}

fn config() -> S2Config {
    S2Config {
        name: "ma".to_string(),
        extent: [num(1.0), num(2.0), num(3.0), num(4.0)],
        years: vec![2024],
        season: None,
        max_cloud_cover: num(20.0),
        bands: texts(&["B04", "B03", "B02"]),
        composite: Composite::Median,
        rescale: [num(0.0), num(3000.0)],
        max_scenes_per_tile: 6,
        haze_dn_max: 0,
        scl_masking: true,
        temporal_priority: false,
        minzoom: 10,
        maxzoom: 15,
        quadkey_zoom: 8,
        stac_url: String::new(),
        collection: String::new(),
    }
}

#[test]
fn requests_are_checked_in_order() {
    let c = config();
    for z in [9, 16] {
        let e = check_request(&c, "ma", z, 1, 2, "bmp").unwrap_err();
        assert_eq!((e.status, e.message.as_str()), (404, "zoom out of range"));
    }
    let e = check_request(&c, "ma", 10, 1, 2, "bmp").unwrap_err();
    assert_eq!(
        (e.status, e.message.as_str()),
        (400, "unsupported format; use png, jpg, or webp")
    );
    let ok = check_request(&c, "ma", 15, 1, 2, "JPG").unwrap();
    assert_eq!(ok.format, OutputFormat::Jpeg);
    assert_eq!(ok.key.to_path(), "ma/15/1/2.JPG");
    let given = checked_request(&c, "ma", 12, 1, 2, "x", Some(OutputFormat::WebP)).unwrap();
    assert_eq!(given.format, OutputFormat::WebP);
    assert_eq!(default_format(), "png");
}

#[test]
fn unknown_tilesets_are_not_found() {
    let r = tileset_not_found("x");
    assert_eq!((r.status, r.message.as_str()), (404, "tileset 'x' not found"));
    let r = tileset_or_404(None::<&u8>, "x").unwrap_err();
    assert_eq!((r.status, r.message.as_str()), (404, "tileset 'x' not found"));
    assert_eq!(*tileset_or_404(Some(&7u8), "x").unwrap(), 7);
}

#[test]
fn tiles_are_answered_with_headers() {
    let r = tile_response(vec![1], OutputFormat::WebP, Some(86400));
    assert_eq!(r.content_type, "image/webp");
    assert_eq!(r.cache_control.as_deref(), Some("public, max-age=86400"));
    assert_eq!(r.body, vec![1]);
    assert_eq!(tile_response(vec![1], OutputFormat::Png, None).cache_control, None);
}

#[test]
fn tiles_without_data_are_transparent() {
    let r = tile_reply(None, OutputFormat::Jpeg, Some(60));
    assert_eq!(r.content_type, "image/png");
    assert_eq!(r.cache_control, None);
    assert_eq!(r.body[1..4], *b"PNG");
    let r = tile_reply(Some(vec![7]), OutputFormat::Jpeg, Some(60));
    assert_eq!(r.content_type, "image/jpeg");
    assert_eq!(r.cache_control.as_deref(), Some("public, max-age=60"));
    assert_eq!(r.body, vec![7]);
}

#[test]
fn only_rendered_tiles_are_stored() {
    let request = check_request(&config(), "ma", 12, 3, 4, "jpg").unwrap();
    let cached = tile_outcome(&request, Some(vec![1, 2]), None, Some(60));
    assert_eq!((cached.reply.content_type, cached.reply.body), ("image/jpeg", vec![1, 2]));
    assert!(cached.store.is_none());

    let rendered = tile_outcome(&request, None, Some(vec![3]), Some(60));
    assert_eq!((rendered.reply.content_type, rendered.reply.body), ("image/jpeg", vec![3]));
    assert_eq!(rendered.reply.cache_control.as_deref(), Some("public, max-age=60"));
    let (key, tile) = rendered.store.unwrap();
    assert_eq!((key.to_path().as_str(), tile), ("ma/12/3/4.jpg", vec![3]));

    let nothing = tile_outcome(&request, None, None, Some(60));
    assert_eq!((nothing.reply.content_type, nothing.reply.cache_control), ("image/png", None));
    assert!(nothing.store.is_none());
}

fn found_item() -> StacItem {
    let mut assets = TextMap::new();
    for a in ["red", "green", "blue", "scl"] {
        assets =
            assets.with(a.to_string(), StacAsset { href: a.to_string(), media_type: None });
    }
    let properties =
        StacItemProperties { cloud_cover: None, datetime: None, proj_epsg: Some(32631) };
    StacItem { id: "a".to_string(), bbox: None, properties, assets }
}

#[test]
fn a_search_that_succeeds_replaces_the_index() {
    let range = TileRange { x_min: 128, y_min: 126, x_max: 128, y_max: 126 };
    let found = Ok((vec![found_item()], vec![Some(range)]));
    let step = build_step("ma", &config(), found);
    assert_eq!((step.reply.status, step.reply.message.as_str()), (200, "'ma' rebuilt: 1 scenes"));
    let change = step.change.unwrap();
    assert_eq!(change.tileset, "ma");
    assert_eq!(change.index.index[&tile_to_quadkey(128, 126, 8)], vec![0]);

    let failed = build_step("ma", &config(), Err("no route".to_string()));
    assert_eq!((failed.reply.status, failed.reply.message.as_str()), (500, "no route"));
    assert!(failed.change.is_none());
}

#[test]
fn tilejson_names_the_tiles() {
    let t = tilejson(&config(), "ma", &Some("https://tiles.example.com//".to_string()), 3000);
    assert_eq!(t.tilejson, "2.2.0");
    assert_eq!(t.name, "ma");
    assert_eq!(t.tiles, ["https://tiles.example.com/ma/{z}/{x}/{y}?format=png"]);
    assert_eq!((t.minzoom, t.maxzoom, t.center_zoom), (10, 15, 12));
    assert_eq!(t.bounds, config().extent);
    let local = tilejson(&config(), "ma", &None, 8080);
    assert_eq!(local.tiles, ["http://localhost:8080/ma/{z}/{x}/{y}?format=png"]);
}

#[test]
fn info_counts_scenes_and_cells() {
    let rows = IndexRows { quadkey_zoom: 7, scenes: Vec::new(), keys: Vec::new() };
    let r = info(&config(), &load_index(rows, false).expect("the rows can be read"));
    assert_eq!((r.scene_count, r.index_cells, r.quadkey_zoom), (0, 0, 7));
    assert_eq!((r.minzoom, r.maxzoom), (10, 15));
    assert_eq!(r.bands, texts(&["B04", "B03", "B02"]));
    assert_eq!(r.composite, "Median");
    for (c, name) in [
        (Composite::BestPixel, "BestPixel"),
        (Composite::Latest, "Latest"),
        (Composite::Ndvi, "Ndvi"),
    ] {
        let mut other = config();
        other.composite = c;
        let rows = IndexRows { quadkey_zoom: 7, scenes: Vec::new(), keys: Vec::new() };
        assert_eq!(info(&other, &load_index(rows, false).expect("the rows can be read")).composite, name);
        assert_eq!(format!("{c:?}"), name);
    }
}

#[test]
fn rebuilds_are_answered() {
    let ok = build_reply("ma", Ok(42));
    assert_eq!((ok.status, ok.message.as_str()), (200, "'ma' rebuilt: 42 scenes"));
    let bad = build_reply("ma", Err("no network".to_string()));
    assert_eq!((bad.status, bad.message.as_str()), (500, "no network"));
}

#[test]
fn names_are_sorted() {
    assert_eq!(sorted_names(texts(&["b", "a", "B", "a"])), texts(&["B", "a", "a", "b"]));
    assert!(sorted_names(Vec::new()).is_empty());
}

#[test]
fn index_is_loaded_unless_rebuilt() {
    let path = Some("t.db".to_string());
    assert!(matches!(index_source(false, &path), IndexSource::Database(p) if p == "t.db"));
    assert!(matches!(index_source(true, &path), IndexSource::Search));
    assert!(matches!(index_source(false, &None), IndexSource::Search));
}

#[test]
fn tilesets_to_fill_are_checked() {
    let available = texts(&["miami", "boston", "lyon"]);
    assert_eq!(prefetch_names(&Vec::new(), &available).unwrap(), texts(&["boston", "lyon", "miami"]));
    assert_eq!(
        prefetch_names(&texts(&["miami", "boston"]), &available).unwrap(),
        texts(&["boston", "miami"])
    );
    assert_eq!(
        prefetch_names(&texts(&["miami", "nice", "rome"]), &available).unwrap_err(),
        "unknown tileset 'nice'; available: miami, boston, lyon"
    );
}
