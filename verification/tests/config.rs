use s2_tiler::config::{
    band_to_asset, days_in_month, default_collection, default_max_cloud_cover,
    default_max_scenes_per_tile, default_maxzoom, default_minzoom, default_port,
    default_quadkey_zoom, default_region, default_rescale, default_scl_masking, default_stac_url,
    AppConfig, Composite, ConfigError, ConfigFile, Preset, S2Config, TileCacheConfig, TilesetEntry,
};
use s2_tiler::number::Real;
use s2_tiler::textmap::TextMap;

fn num(v: f64) -> Real {
    Real::from_bits(v.to_bits())
}

fn texts(list: &[&str]) -> Vec<String> {
    list.iter().map(|s| s.to_string()).collect()
}

fn config() -> S2Config {
    S2Config {
        name: "massachusetts".to_string(),
        extent: [num(-73.6), num(41.2), num(-69.8), num(42.9)],
        years: vec![2023, 2024],
        season: None,
        max_cloud_cover: num(20.0),
        bands: texts(&["B04", "B03", "B02"]),
        composite: Composite::BestPixel,
        rescale: [num(0.0), num(3000.0)],
        max_scenes_per_tile: 6,
        haze_dn_max: 0,
        scl_masking: true,
        temporal_priority: false,
        minzoom: 10,
        maxzoom: 15,
        quadkey_zoom: 8,
        stac_url: "https://example.com/v1".to_string(),
        collection: "sentinel-2-l2a".to_string(),
    }
}

fn entry(name: &str) -> TilesetEntry {
    TilesetEntry {
        name: name.to_string(),
        preset: None,
        extent: [num(0.0), num(0.0), num(1.0), num(1.0)],
        years: vec![2024],
        season: Some(vec![6]),
        max_cloud_cover: num(15.0),
        bands: Some(texts(&["B04"])),
        composite: None,
        rescale: None,
        max_scenes_per_tile: 8,
        haze_dn_max: 2400,
        scl_masking: false,
        temporal_priority: true,
    }
}

fn file(tilesets: Vec<TilesetEntry>) -> ConfigFile {
    ConfigFile {
        port: 3001,
        minzoom: 9,
        maxzoom: 14,
        quadkey_zoom: 7,
        stac_url: "https://example.com/v1".to_string(),
        collection: "c".to_string(),
        index_path: Some("tilesets.db".to_string()),
        tile_cache: TileCacheConfig::default(),
        public_url: None,
        cache_max_age: Some(60),
        presets: TextMap::new().with(
            "falsecolor".to_string(),
            Preset {
                bands: texts(&["B08", "B04", "B03"]),
                rescale: [num(0.0), num(4000.0)],
                composite: Composite::Median,
            },
        ),
        tilesets,
    }
}

#[test]
fn defaults_are_those_documented() {
    assert_eq!(default_region(), "us-east-1");
    assert_eq!(f64::from_bits(default_max_cloud_cover().to_bits()), 20.0);
    let [lo, hi] = default_rescale();
    assert_eq!(f64::from_bits(lo.to_bits()), 0.0);
    assert_eq!(f64::from_bits(hi.to_bits()), 3000.0);
    assert_eq!(default_minzoom(), 10);
    assert_eq!(default_maxzoom(), 15);
    assert_eq!(default_quadkey_zoom(), 8);
    assert_eq!(default_stac_url(), "https://earth-search.aws.element84.com/v1");
    assert_eq!(default_collection(), "sentinel-2-l2a");
    assert_eq!(default_max_scenes_per_tile(), 6);
    assert_eq!(default_port(), 3000);
    assert!(default_scl_masking());
    assert_eq!(Composite::default(), Composite::BestPixel);
    assert!(matches!(TileCacheConfig::default(), TileCacheConfig::Memory));
}

#[test]
fn bands_have_assets() {
    let known = [
        ("B01", "coastal"),
        ("B02", "blue"),
        ("B03", "green"),
        ("B04", "red"),
        ("B05", "rededge1"),
        ("B06", "rededge2"),
        ("B07", "rededge3"),
        ("B08", "nir"),
        ("B8A", "nir08"),
        ("B09", "nir09"),
        ("B11", "swir16"),
        ("B12", "swir22"),
        ("SCL", "scl"),
    ];
    for (band, asset) in known {
        assert_eq!(band_to_asset(band), Some(asset));
    }
    assert_eq!(band_to_asset("B10"), None);
    assert_eq!(band_to_asset("b04"), None);
}

#[test]
fn months_have_their_days() {
    assert_eq!(days_in_month(2023, 1), 31);
    assert_eq!(days_in_month(2023, 4), 30);
    assert_eq!(days_in_month(2023, 2), 28);
    assert_eq!(days_in_month(2024, 2), 29);
    assert_eq!(days_in_month(1900, 2), 28);
    assert_eq!(days_in_month(2000, 2), 29);
    assert_eq!(days_in_month(2023, 13), 30);
}

#[test]
fn whole_years_are_one_period_each() {
    assert_eq!(
        config().datetime_ranges(),
        vec![
            "2023-01-01T00:00:00Z/2023-12-31T23:59:59Z".to_string(),
            "2024-01-01T00:00:00Z/2024-12-31T23:59:59Z".to_string()
        ]
    );
}

#[test]
fn seasons_with_gaps_are_not_widened() {
    let mut c = config();
    c.season = Some(vec![2, 9]);
    assert_eq!(
        c.datetime_ranges(),
        vec![
            "2023-02-01T00:00:00Z/2023-02-28T23:59:59Z".to_string(),
            "2023-09-01T00:00:00Z/2023-09-30T23:59:59Z".to_string(),
            "2024-02-01T00:00:00Z/2024-02-29T23:59:59Z".to_string(),
            "2024-09-01T00:00:00Z/2024-09-30T23:59:59Z".to_string()
        ]
    );
    c.season = Some(Vec::new());
    assert!(c.datetime_ranges().is_empty());
}

#[test]
fn sound_settings_pass() {
    assert!(config().validate().is_ok());
    let mut c = config();
    c.composite = Composite::Ndvi;
    c.bands = texts(&["B08", "B04"]);
    assert!(c.validate().is_ok());
}

fn message(c: &S2Config) -> String {
    c.validate().unwrap_err().message()
}

#[test]
fn each_fault_is_reported() {
    let mut c = config();
    c.name = String::new();
    assert_eq!(message(&c), "tileset name must not be empty");
    let mut c = config();
    c.years.clear();
    assert_eq!(message(&c), "years must not be empty");
    let mut c = config();
    c.bands.clear();
    assert_eq!(message(&c), "bands must not be empty");
    let mut c = config();
    c.composite = Composite::Ndvi;
    assert_eq!(
        message(&c),
        "composite: ndvi requires exactly 2 bands: [NIR, Red] (e.g. [B08, B04])"
    );
    let mut c = config();
    c.bands.pop();
    assert_eq!(message(&c), "bands must have 1 (grayscale) or 3 (RGB) entries");
    let mut c = config();
    c.minzoom = 16;
    assert_eq!(message(&c), "minzoom must be <= maxzoom");
    let mut c = config();
    c.extent[2] = c.extent[0];
    assert_eq!(message(&c), "extent must be [west, south, east, north]");
    let mut c = config();
    c.bands[1] = "B10".to_string();
    assert_eq!(message(&c), "unknown band: B10; supported: B01-B12, B8A, SCL");
}

#[test]
fn the_first_fault_counts() {
    let mut c = config();
    c.name = String::new();
    c.years.clear();
    assert!(matches!(c.validate(), Err(ConfigError::EmptyName)));
}

#[test]
fn global_settings_reach_every_tileset() {
    let app = AppConfig::from_parsed(file(vec![entry("a"), entry("b")])).unwrap();
    assert_eq!(app.port, 3001);
    assert_eq!(app.index_path.as_deref(), Some("tilesets.db"));
    assert_eq!(app.cache_max_age, Some(60));
    assert_eq!(app.tilesets.len(), 2);
    for (ts, name) in app.tilesets.iter().zip(["a", "b"]) {
        assert_eq!(ts.name, name);
        assert_eq!((ts.minzoom, ts.maxzoom, ts.quadkey_zoom), (9, 14, 7));
        assert_eq!(ts.stac_url, "https://example.com/v1");
        assert_eq!(ts.collection, "c");
        assert_eq!(ts.season, Some(vec![6]));
        assert_eq!(ts.max_scenes_per_tile, 8);
        assert_eq!(ts.haze_dn_max, 2400);
        assert!(!ts.scl_masking);
        assert!(ts.temporal_priority);
        assert_eq!(ts.composite, Composite::BestPixel);
        assert_eq!(ts.rescale[1], num(3000.0));
    }
}

#[test]
fn presets_fill_what_a_tileset_leaves_out() {
    let mut e = entry("a");
    e.preset = Some("falsecolor".to_string());
    e.bands = None;
    let app = AppConfig::from_parsed(file(vec![e])).unwrap();
    assert_eq!(app.tilesets[0].bands, texts(&["B08", "B04", "B03"]));
    assert_eq!(app.tilesets[0].composite, Composite::Median);
    assert_eq!(app.tilesets[0].rescale[1], num(4000.0));

    let mut own = entry("a");
    own.preset = Some("falsecolor".to_string());
    own.composite = Some(Composite::Latest);
    own.rescale = Some([num(1.0), num(2.0)]);
    let app = AppConfig::from_parsed(file(vec![own])).unwrap();
    assert_eq!(app.tilesets[0].bands, texts(&["B04"]));
    assert_eq!(app.tilesets[0].composite, Composite::Latest);
    assert_eq!(app.tilesets[0].rescale[0], num(1.0));
}

#[test]
fn faulty_files_are_refused() {
    let e = AppConfig::from_parsed(file(Vec::new())).unwrap_err();
    assert_eq!(e.message(), "at least one tileset must be defined");

    let mut lost = entry("a");
    lost.preset = Some("nowhere".to_string());
    let e = AppConfig::from_parsed(file(vec![lost])).unwrap_err();
    assert_eq!(e.message(), "unknown preset: nowhere");

    let mut bare = entry("a");
    bare.bands = None;
    let e = AppConfig::from_parsed(file(vec![entry("b"), bare])).unwrap_err();
    assert!(matches!(e, ConfigError::NoBands));
}
