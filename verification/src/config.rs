//! Tileset configuration: defaults, presets, validation and acquisition periods.
use crate::number::Real;
use crate::text;
use crate::text::{clone_texts, push_decimal, push_decimal2, str_eq};
use crate::textmap::TextMap;
use vstd::prelude::*;
use vstd::string::*;

verus! {

// ─── Types ──────────────────────────────────────────────────────────────────

/// How the scenes of a tile are merged.
#[derive(Debug, Clone, Copy, PartialEq, Eq, Structural)]
pub enum Composite {
    /// First valid pixel in scene order.
    BestPixel,
    /// Per-band median of the valid pixels.
    Median,
    /// Merged as `BestPixel`.
    Latest,
    /// (NIR − Red) / (NIR + Red) of the best pixel; needs exactly the bands NIR and Red.
    Ndvi,
}

impl Default for Composite {
    fn default() -> (c: Self)
        ensures
            c == Composite::BestPixel,
    {
        Composite::BestPixel
    }
}

/// Tile cache backend.
#[derive(Debug, Clone)]
pub enum TileCacheConfig {
    /// No caching: every request renders its tile.
    Disabled,
    /// In-process map, lost on restart.
    Memory,
    /// Local filesystem under the directory `path`.
    Local { path: String },
    /// DuckDB table in the file at `path`.
    Duckdb { path: String },
    /// Amazon S3.
    S3 { bucket: String, region: String, prefix: Option<String> },
    /// Cloudflare R2.
    R2 { bucket: String, account_id: String, prefix: Option<String> },
}

impl Default for TileCacheConfig {
    fn default() -> (c: Self)
        ensures
            c == TileCacheConfig::Memory,
    {
        TileCacheConfig::Memory
    }
}

/// Named visual parameters that tilesets refer to.
#[derive(Debug)]
pub struct Preset {
    pub bands: Vec<String>,
    pub rescale: [Real; 2],
    pub composite: Composite,
}

/// A tileset as the configuration file gives it. What it leaves out among bands,
/// rescale and composite comes from its preset or else from the defaults.
#[derive(Debug)]
pub struct TilesetEntry {
    pub name: String,
    pub preset: Option<String>,
    pub extent: [Real; 4],
    pub years: Vec<u32>,
    pub season: Option<Vec<u8>>,
    pub max_cloud_cover: Real,
    pub bands: Option<Vec<String>>,
    pub composite: Option<Composite>,
    pub rescale: Option<[Real; 2]>,
    pub max_scenes_per_tile: usize,
    pub haze_dn_max: u16,
    pub scl_masking: bool,
    pub temporal_priority: bool,
}

/// The configuration file: global settings, presets and tilesets.
#[derive(Debug)]
pub struct ConfigFile {
    pub port: u16,
    pub minzoom: u8,
    pub maxzoom: u8,
    pub quadkey_zoom: u8,
    pub stac_url: String,
    pub collection: String,
    pub index_path: Option<String>,
    pub tile_cache: TileCacheConfig,
    pub public_url: Option<String>,
    pub cache_max_age: Option<u64>,
    pub presets: TextMap<Preset>,
    pub tilesets: Vec<TilesetEntry>,
}

/// The settings of one tileset, with the global ones filled in.
#[derive(Debug, Clone)]
pub struct S2Config {
    /// Tileset identifier, the URL prefix of its tiles.
    pub name: String,
    /// WGS84 bounding box: west, south, east, north.
    pub extent: [Real; 4],
    /// Years to take scenes from.
    pub years: Vec<u32>,
    /// Months to take scenes from; all of them where absent.
    pub season: Option<Vec<u8>>,
    /// Upper bound on scene cloud cover in the search, in percent.
    pub max_cloud_cover: Real,
    /// Band codes to render.
    pub bands: Vec<String>,
    pub composite: Composite,
    /// Value range mapped to [0, 255] for display.
    pub rescale: [Real; 2],
    /// Scenes composited per tile at most.
    pub max_scenes_per_tile: usize,
    /// Pixels where all bands exceed this value count as haze; 0 turns the test off.
    pub haze_dn_max: u16,
    /// Whether pixels are filtered by scene class.
    pub scl_masking: bool,
    /// Whether scenes are ordered by period, latest first, before cloud cover.
    pub temporal_priority: bool,
    pub minzoom: u8,
    pub maxzoom: u8,
    pub quadkey_zoom: u8,
    pub stac_url: String,
    pub collection: String,
}

/// The whole configuration.
#[derive(Debug)]
pub struct AppConfig {
    pub port: u16,
    pub minzoom: u8,
    pub maxzoom: u8,
    pub quadkey_zoom: u8,
    pub stac_url: String,
    pub collection: String,
    /// File of the shared index database.
    pub index_path: Option<String>,
    pub tile_cache: TileCacheConfig,
    /// Base URL that clients reach the server by.
    pub public_url: Option<String>,
    /// Seconds that clients may keep a tile.
    pub cache_max_age: Option<u64>,
    pub tilesets: Vec<S2Config>,
}

/// What is wrong with a configuration.
#[derive(Debug)]
pub enum ConfigError {
    NoTilesets,
    UnknownPreset(String),
    EmptyName,
    NoYears,
    NoBands,
    NdviBands,
    BandCount,
    ZoomOrder,
    ExtentOrder,
    UnknownBand(String),
}

impl ConfigError {
    /// The message to report.
    pub open spec fn text(self) -> Seq<char> {
        match self {
            ConfigError::NoTilesets => "at least one tileset must be defined"@,
            ConfigError::UnknownPreset(name) => "unknown preset: "@ + name@,
            ConfigError::EmptyName => "tileset name must not be empty"@,
            ConfigError::NoYears => "years must not be empty"@,
            ConfigError::NoBands => "bands must not be empty"@,
            ConfigError::NdviBands =>
                "composite: ndvi requires exactly 2 bands: [NIR, Red] (e.g. [B08, B04])"@,
            ConfigError::BandCount => "bands must have 1 (grayscale) or 3 (RGB) entries"@,
            ConfigError::ZoomOrder => "minzoom must be <= maxzoom"@,
            ConfigError::ExtentOrder => "extent must be [west, south, east, north]"@,
            ConfigError::UnknownBand(band) => "unknown band: "@ + band@
                + "; supported: B01-B12, B8A, SCL"@,
        }
    }

    /// The message to report.
    pub fn message(&self) -> (m: String)
        ensures
            m@ == self.text(),
    {
        match self {
            ConfigError::NoTilesets => "at least one tileset must be defined".to_owned(),
            ConfigError::UnknownPreset(name) => {
                let mut m = "unknown preset: ".to_owned();
                m.append(name.as_str());
                m
            },
            ConfigError::EmptyName => "tileset name must not be empty".to_owned(),
            ConfigError::NoYears => "years must not be empty".to_owned(),
            ConfigError::NoBands => "bands must not be empty".to_owned(),
            ConfigError::NdviBands =>
                "composite: ndvi requires exactly 2 bands: [NIR, Red] (e.g. [B08, B04])".to_owned(),
            ConfigError::BandCount =>
                "bands must have 1 (grayscale) or 3 (RGB) entries".to_owned(),
            ConfigError::ZoomOrder => "minzoom must be <= maxzoom".to_owned(),
            ConfigError::ExtentOrder => "extent must be [west, south, east, north]".to_owned(),
            ConfigError::UnknownBand(band) => {
                let mut m = "unknown band: ".to_owned();
                m.append(band.as_str());
                m.append("; supported: B01-B12, B8A, SCL");
                m
            },
        }
    }
}

// ─── Defaults ───────────────────────────────────────────────────────────────

/// Region of an S3 cache that names none.
pub fn default_region() -> (r: String)
    ensures
        r@ == "us-east-1"@,
{
    "us-east-1".to_owned()
}

/// Bound on scene cloud cover: 20 percent.
pub fn default_max_cloud_cover() -> (r: Real)
    ensures
        r.bits == 0x4034_0000_0000_0000,
{
    Real::from_bits(0x4034_0000_0000_0000)
}

/// Display range: 0 to 3000.
pub fn default_rescale() -> (r: [Real; 2])
    ensures
        r@ == seq![Real { bits: 0 }, Real { bits: 0x40A7_7000_0000_0000 }],
{
    let r = [Real::from_bits(0), Real::from_bits(0x40A7_7000_0000_0000)];
    assert(r@ =~= seq![Real { bits: 0 }, Real { bits: 0x40A7_7000_0000_0000 }]);
    r
}

/// Smallest zoom level served.
pub fn default_minzoom() -> (r: u8)
    ensures
        r == 10,
{
    10
}

/// Largest zoom level served.
pub fn default_maxzoom() -> (r: u8)
    ensures
        r == 15,
{
    15
}

/// Zoom level of the index cells.
pub fn default_quadkey_zoom() -> (r: u8)
    ensures
        r == 8,
{
    8
}

/// Base URL of the search service.
pub fn default_stac_url() -> (r: String)
    ensures
        r@ == "https://earth-search.aws.element84.com/v1"@,
{
    "https://earth-search.aws.element84.com/v1".to_owned()
}

/// Collection that is searched.
pub fn default_collection() -> (r: String)
    ensures
        r@ == "sentinel-2-l2a"@,
{
    "sentinel-2-l2a".to_owned()
}

/// Scenes composited per tile at most.
pub fn default_max_scenes_per_tile() -> (r: usize)
    ensures
        r == 6,
{
    6
}

/// Port to serve on.
pub fn default_port() -> (r: u16)
    ensures
        r == 3000,
{
    3000
}

/// Filtering by scene class is on.
pub fn default_scl_masking() -> (r: bool)
    ensures
        r,
{
    true
}

// ─── Bands ──────────────────────────────────────────────────────────────────

/// Asset key of a band code.
pub open spec fn asset_of(band: Seq<char>) -> Option<Seq<char>> {
    if band == "B01"@ {
        Some("coastal"@)
    } else if band == "B02"@ {
        Some("blue"@)
    } else if band == "B03"@ {
        Some("green"@)
    } else if band == "B04"@ {
        Some("red"@)
    } else if band == "B05"@ {
        Some("rededge1"@)
    } else if band == "B06"@ {
        Some("rededge2"@)
    } else if band == "B07"@ {
        Some("rededge3"@)
    } else if band == "B08"@ {
        Some("nir"@)
    } else if band == "B8A"@ {
        Some("nir08"@)
    } else if band == "B09"@ {
        Some("nir09"@)
    } else if band == "B11"@ {
        Some("swir16"@)
    } else if band == "B12"@ {
        Some("swir22"@)
    } else if band == "SCL"@ {
        Some("scl"@)
    } else {
        None
    }
}

/// The class layer is the asset of its own band code.
pub proof fn lemma_class_band()
    ensures
        asset_of("SCL"@) == Some("scl"@),
{
    reveal_strlit("SCL");
    reveal_strlit("B01");
    reveal_strlit("B02");
    reveal_strlit("B03");
    reveal_strlit("B04");
    reveal_strlit("B05");
    reveal_strlit("B06");
    reveal_strlit("B07");
    reveal_strlit("B08");
    reveal_strlit("B8A");
    reveal_strlit("B09");
    reveal_strlit("B11");
    reveal_strlit("B12");
    assert("SCL"@[0] == 'S');
    assert("B01"@[0] == 'B' && "B02"@[0] == 'B' && "B03"@[0] == 'B' && "B04"@[0] == 'B');
    assert("B05"@[0] == 'B' && "B06"@[0] == 'B' && "B07"@[0] == 'B' && "B08"@[0] == 'B');
    assert("B8A"@[0] == 'B' && "B09"@[0] == 'B' && "B11"@[0] == 'B' && "B12"@[0] == 'B');
}

/// No two bands share an asset, and only the thirteen band codes have one.
pub proof fn assets_tell_bands_apart(a: Seq<char>, b: Seq<char>)
    ensures
        asset_of(a) is Some && asset_of(a) == asset_of(b) ==> a == b,
        asset_of(a) is Some <==> {
            ||| a == "B01"@ || a == "B02"@ || a == "B03"@ || a == "B04"@ || a == "B05"@
            ||| a == "B06"@ || a == "B07"@ || a == "B08"@ || a == "B8A"@ || a == "B09"@
            ||| a == "B11"@ || a == "B12"@ || a == "SCL"@
        },
{
    reveal_strlit("coastal");
    reveal_strlit("blue");
    reveal_strlit("green");
    reveal_strlit("red");
    reveal_strlit("rededge1");
    reveal_strlit("rededge2");
    reveal_strlit("rededge3");
    reveal_strlit("nir");
    reveal_strlit("nir08");
    reveal_strlit("nir09");
    reveal_strlit("swir16");
    reveal_strlit("swir22");
    reveal_strlit("scl");
    assert("coastal"@.len() == 7 && "coastal"@[0] == 'c' && "coastal"@[6] == 'l');
    assert("blue"@.len() == 4 && "blue"@[0] == 'b' && "blue"@[3] == 'e');
    assert("green"@.len() == 5 && "green"@[0] == 'g' && "green"@[4] == 'n');
    assert("red"@.len() == 3 && "red"@[0] == 'r' && "red"@[2] == 'd');
    assert("rededge1"@.len() == 8 && "rededge1"@[0] == 'r' && "rededge1"@[7] == '1');
    assert("rededge2"@.len() == 8 && "rededge2"@[0] == 'r' && "rededge2"@[7] == '2');
    assert("rededge3"@.len() == 8 && "rededge3"@[0] == 'r' && "rededge3"@[7] == '3');
    assert("nir"@.len() == 3 && "nir"@[0] == 'n' && "nir"@[2] == 'r');
    assert("nir08"@.len() == 5 && "nir08"@[0] == 'n' && "nir08"@[4] == '8');
    assert("nir09"@.len() == 5 && "nir09"@[0] == 'n' && "nir09"@[4] == '9');
    assert("swir16"@.len() == 6 && "swir16"@[0] == 's' && "swir16"@[5] == '6');
    assert("swir22"@.len() == 6 && "swir22"@[0] == 's' && "swir22"@[5] == '2');
    assert("scl"@.len() == 3 && "scl"@[0] == 's' && "scl"@[2] == 'l');
}

/// Asset key of a band code.
pub fn band_to_asset(band: &str) -> (r: Option<&'static str>)
    ensures
        match r {
            Some(a) => asset_of(band@) == Some(a@),
            None => asset_of(band@) is None,
        },
{
    if str_eq(band, "B01") {
        Some("coastal")
    } else if str_eq(band, "B02") {
        Some("blue")
    } else if str_eq(band, "B03") {
        Some("green")
    } else if str_eq(band, "B04") {
        Some("red")
    } else if str_eq(band, "B05") {
        Some("rededge1")
    } else if str_eq(band, "B06") {
        Some("rededge2")
    } else if str_eq(band, "B07") {
        Some("rededge3")
    } else if str_eq(band, "B08") {
        Some("nir")
    } else if str_eq(band, "B8A") {
        Some("nir08")
    } else if str_eq(band, "B09") {
        Some("nir09")
    } else if str_eq(band, "B11") {
        Some("swir16")
    } else if str_eq(band, "B12") {
        Some("swir22")
    } else if str_eq(band, "SCL") {
        Some("scl")
    } else {
        None
    }
}

// ─── Validation ─────────────────────────────────────────────────────────────

/// The first band from position `i` on that has no asset.
pub open spec fn unknown_from(bands: Seq<String>, i: int) -> Option<String>
    decreases bands.len() - i,
{
    if i < 0 || i >= bands.len() {
        None
    } else if asset_of(bands[i]@) is None {
        Some(bands[i])
    } else {
        unknown_from(bands, i + 1)
    }
}

/// What is wrong with the settings of a tileset, the first fault found.
pub open spec fn settings_fault(
    name: Seq<char>,
    years: nat,
    bands: Seq<String>,
    composite: Composite,
    minzoom: u8,
    maxzoom: u8,
    extent: [Real; 4],
) -> Option<ConfigError> {
    if name.len() == 0 {
        Some(ConfigError::EmptyName)
    } else if years == 0 {
        Some(ConfigError::NoYears)
    } else if bands.len() == 0 {
        Some(ConfigError::NoBands)
    } else if composite == Composite::Ndvi && bands.len() != 2 {
        Some(ConfigError::NdviBands)
    } else if composite != Composite::Ndvi && bands.len() != 1 && bands.len() != 3 {
        Some(ConfigError::BandCount)
    } else if minzoom > maxzoom {
        Some(ConfigError::ZoomOrder)
    } else if !(extent[0].below(extent[2]) && extent[1].below(extent[3])) {
        Some(ConfigError::ExtentOrder)
    } else {
        match unknown_from(bands, 0) {
            Some(band) => Some(ConfigError::UnknownBand(band)),
            None => None,
        }
    }
}

impl S2Config {
    /// What is wrong with the tileset.
    pub open spec fn fault(self) -> Option<ConfigError> {
        settings_fault(
            self.name@,
            self.years@.len(),
            self.bands@,
            self.composite,
            self.minzoom,
            self.maxzoom,
            self.extent,
        )
    }

    /// Check the settings; the first fault is reported.
    pub fn validate(&self) -> (r: Result<(), ConfigError>)
        ensures
            match r {
                Ok(_) => self.fault() is None,
                Err(e) => self.fault() == Some(e),
            },
    {
        if self.name.as_str().unicode_len() == 0 {
            return Err(ConfigError::EmptyName);
        }
        if self.years.len() == 0 {
            return Err(ConfigError::NoYears);
        }
        if self.bands.len() == 0 {
            return Err(ConfigError::NoBands);
        }
        if self.composite == Composite::Ndvi {
            if self.bands.len() != 2 {
                return Err(ConfigError::NdviBands);
            }
        } else if self.bands.len() != 1 && self.bands.len() != 3 {
            return Err(ConfigError::BandCount);
        }
        if self.minzoom > self.maxzoom {
            return Err(ConfigError::ZoomOrder);
        }
        if !(self.extent[0].lt(&self.extent[2]) && self.extent[1].lt(&self.extent[3])) {
            return Err(ConfigError::ExtentOrder);
        }
        let mut i: usize = 0;
        while i < self.bands.len()
            invariant
                i <= self.bands@.len(),
                unknown_from(self.bands@, 0) == unknown_from(self.bands@, i as int),
                self.fault() == match unknown_from(self.bands@, 0) {
                    Some(band) => Some(ConfigError::UnknownBand(band)),
                    None => None,
                },
            decreases self.bands@.len() - i,
        {
            if band_to_asset(self.bands[i].as_str()).is_none() {
                return Err(ConfigError::UnknownBand(self.bands[i].clone()));
            }
            i += 1;
        }
        Ok(())
    }
}

/// The band that is reported has no asset while all before it have one; where none is
/// reported, all have one.
pub proof fn reported_band(bands: Seq<String>, from: int)
    requires
        0 <= from <= bands.len(),
    ensures
        unknown_from(bands, from) matches Some(band) ==> exists|i: int|
            {
                &&& from <= i < bands.len()
                &&& #[trigger] bands[i] == band
                &&& asset_of(band@) is None
                &&& forall|j: int| from <= j < i ==> asset_of((#[trigger] bands[j])@) is Some
            },
        unknown_from(bands, from) is None ==> forall|j: int|
            from <= j < bands.len() ==> asset_of((#[trigger] bands[j])@) is Some,
    decreases bands.len() - from,
{
    if from < bands.len() {
        if asset_of(bands[from]@) is Some {
            reported_band(bands, from + 1);
            if let Some(band) = unknown_from(bands, from) {
                let i = choose|i: int|
                    {
                        &&& from + 1 <= i < bands.len()
                        &&& #[trigger] bands[i] == band
                        &&& asset_of(band@) is None
                        &&& forall|j: int|
                            from + 1 <= j < i ==> asset_of((#[trigger] bands[j])@) is Some
                    };
                assert(bands[i] == band);
            }
        } else {
            assert(bands[from] == unknown_from(bands, from)->0);
        }
    }
}

/// What makes a tileset sound: a name, a year, two bands for the vegetation index and one
/// or three for anything else, zoom levels in order, an extent that goes from west to east
/// and from south to north, and known bands. Of several faults the first in this order is
/// found.
pub proof fn sound_settings(c: S2Config)
    ensures
        ({
            let named = c.name@.len() > 0;
            let dated = named && c.years@.len() > 0;
            let banded = dated && c.bands@.len() > 0;
            let counted = banded && if c.composite is Ndvi {
                c.bands@.len() == 2
            } else {
                c.bands@.len() == 1 || c.bands@.len() == 3
            };
            let zoomed = counted && c.minzoom <= c.maxzoom;
            let placed = zoomed && c.extent[0].below(c.extent[2]) && c.extent[1].below(c.extent[3]);
            let known = forall|i: int|
                0 <= i < c.bands@.len() ==> asset_of((#[trigger] c.bands@[i])@) is Some;
            &&& c.fault() is None <==> placed && known
            &&& !named <==> c.fault() == Some(ConfigError::EmptyName)
            &&& named && !dated <==> c.fault() == Some(ConfigError::NoYears)
            &&& dated && !banded <==> c.fault() == Some(ConfigError::NoBands)
            &&& banded && !counted && c.composite is Ndvi <==> c.fault() == Some(
                ConfigError::NdviBands,
            )
            &&& banded && !counted && !(c.composite is Ndvi) <==> c.fault() == Some(
                ConfigError::BandCount,
            )
            &&& counted && !zoomed <==> c.fault() == Some(ConfigError::ZoomOrder)
            &&& zoomed && !placed <==> c.fault() == Some(ConfigError::ExtentOrder)
            &&& placed && !known <==> c.fault() matches Some(ConfigError::UnknownBand(_))
        }),
{
    reported_band(c.bands@, 0);
    if let Some(band) = unknown_from(c.bands@, 0) {
        let i = choose|i: int|
            {
                &&& 0 <= i < c.bands@.len()
                &&& #[trigger] c.bands@[i] == band
                &&& asset_of(band@) is None
                &&& forall|j: int| 0 <= j < i ==> asset_of((#[trigger] c.bands@[j])@) is Some
            };
        assert(asset_of(c.bands@[i]@) is None);
    }
}

/// Every band of a sound tileset has an asset, and their number suits the composite.
pub proof fn sound_tileset_bands(c: S2Config)
    requires
        c.fault() is None,
    ensures
        c.composite == Composite::Ndvi ==> c.bands@.len() == 2,
        c.composite != Composite::Ndvi ==> c.bands@.len() == 1 || c.bands@.len() == 3,
        forall|i: int| 0 <= i < c.bands@.len() ==> asset_of(#[trigger] c.bands@[i]@) is Some,
{
    assert forall|i: int| 0 <= i < c.bands@.len() implies asset_of(#[trigger] c.bands@[i]@) is Some by {
        lemma_none_unknown(c.bands@, 0, i);
    }
}

proof fn lemma_none_unknown(bands: Seq<String>, from: int, i: int)
    requires
        unknown_from(bands, from) is None,
        0 <= from <= i < bands.len(),
    ensures
        asset_of(bands[i]@) is Some,
    decreases i - from,
{
    if from < i {
        lemma_none_unknown(bands, from + 1, i);
    }
}

// ─── Periods ────────────────────────────────────────────────────────────────

/// A leap year of the Gregorian calendar.
pub open spec fn is_leap(year: int) -> bool {
    year % 4 == 0 && (year % 100 != 0 || year % 400 == 0)
}

/// Days of a month; 30 for what is no month.
pub open spec fn month_days(year: int, month: int) -> nat {
    if month == 2 {
        if is_leap(year) {
            29
        } else {
            28
        }
    } else if month == 1 || month == 3 || month == 5 || month == 7 || month == 8 || month == 10
        || month == 12 {
        31
    } else {
        30
    }
}

/// Days of a month; 30 for what is no month.
pub fn days_in_month(year: u32, month: u8) -> (d: u8)
    ensures
        d == month_days(year as int, month as int),
{
    match month {
        1 | 3 | 5 | 7 | 8 | 10 | 12 => 31,
        2 => {
            if year % 4 == 0 && (year % 100 != 0 || year % 400 == 0) {
                29
            } else {
                28
            }
        },
        _ => 30,
    }
}

/// The months of a year: of the twelve, seven have 31 days and four have 30, and February
/// has 29 in the years that are divisible by 4, those divisible by 100 only where they are
/// divisible by 400, and else 28. So a year has 365 days, or 366.
pub proof fn calendar(year: int)
    ensures
        month_days(year, 2) == 29 <==> year % 400 == 0 || (year % 4 == 0 && year % 100 != 0),
        month_days(year, 2) == 28 || month_days(year, 2) == 29,
        month_days(year, 1) == 31 && month_days(year, 3) == 31 && month_days(year, 5) == 31
            && month_days(year, 7) == 31 && month_days(year, 8) == 31 && month_days(year, 10) == 31
            && month_days(year, 12) == 31,
        month_days(year, 4) == 30 && month_days(year, 6) == 30 && month_days(year, 9) == 30
            && month_days(year, 11) == 30,
        forall|month: int| month < 1 || month > 12 ==> #[trigger] month_days(year, month) == 30,
{
}

/// The period of a whole year, start and end separated by a slash.
pub open spec fn year_period(year: nat) -> Seq<char> {
    text::decimal(year) + "-01-01T00:00:00Z/"@ + text::decimal(year) + "-12-31T23:59:59Z"@
}

/// The period of one month.
pub open spec fn month_period(year: nat, month: nat) -> Seq<char> {
    text::decimal(year) + "-"@ + text::decimal2(month) + "-01T00:00:00Z/"@ + text::decimal(year)
        + "-"@ + text::decimal2(month) + "-"@ + text::decimal2(
        month_days(year as int, month as int),
    ) + "T23:59:59Z"@
}

/// The periods to search: each month of the season in each year, or each whole year.
pub open spec fn periods(years: Seq<u32>, season: Option<Seq<u8>>) -> Seq<Seq<char>> {
    match season {
        None => Seq::new(years.len(), |i: int| year_period(years[i] as nat)),
        Some(months) => {
            let m = months.len() as int;
            Seq::new(
                years.len() * months.len(),
                |i: int| month_period(years[i / m] as nat, months[i % m] as nat),
            )
        },
    }
}

/// The periods to search. Without a season there is one for each year, from the first
/// second of January to the last of December. With one there is, year by year, one for each
/// of its months in the order given, from the first second to the last of that month.
pub proof fn periods_of_settings(years: Seq<u32>, months: Seq<u8>, i: int, j: int)
    requires
        0 <= i < years.len(),
    ensures
        periods(years, None).len() == years.len(),
        periods(years, None)[i] == text::decimal(years[i] as nat) + "-01-01T00:00:00Z/"@
            + text::decimal(years[i] as nat) + "-12-31T23:59:59Z"@,
        periods(years, Some(months)).len() == years.len() * months.len(),
        0 <= j < months.len() ==> {
            let at = i * months.len() + j;
            let month = text::decimal(years[i] as nat) + "-"@ + text::decimal2(months[j] as nat);
            &&& 0 <= at < periods(years, Some(months)).len()
            &&& periods(years, Some(months))[at] == month + "-01T00:00:00Z/"@ + month + "-"@
                + text::decimal2(month_days(years[i] as int, months[j] as int)) + "T23:59:59Z"@
        },
{
    if 0 <= j < months.len() {
        let m = months.len() as int;
        let at = i * m + j;
        assert(0 <= at < years.len() * m) by (nonlinear_arith)
            requires
                at == i * m + j,
                0 <= i < years.len(),
                0 <= j < m,
        ;
        vstd::arithmetic::div_mod::lemma_fundamental_div_mod_converse(at, m, i, j);
        let month = text::decimal(years[i] as nat) + "-"@ + text::decimal2(months[j] as nat);
        assert(periods(years, Some(months))[at] =~= month + "-01T00:00:00Z/"@ + month + "-"@
            + text::decimal2(month_days(years[i] as int, months[j] as int)) + "T23:59:59Z"@);
    }
}

fn year_text(year: u32) -> (t: String)
    ensures
        t@ == year_period(year as nat),
{
    let mut t = String::new();
    push_decimal(&mut t, year as u64);
    t.append("-01-01T00:00:00Z/");
    push_decimal(&mut t, year as u64);
    t.append("-12-31T23:59:59Z");
    assert(t@ =~= year_period(year as nat));
    t
}

fn month_text(year: u32, month: u8) -> (t: String)
    ensures
        t@ == month_period(year as nat, month as nat),
{
    let mut t = String::new();
    push_decimal(&mut t, year as u64);
    t.append("-");
    push_decimal2(&mut t, month as u64);
    t.append("-01T00:00:00Z/");
    push_decimal(&mut t, year as u64);
    t.append("-");
    push_decimal2(&mut t, month as u64);
    t.append("-");
    let days: u8 = days_in_month(year, month);
    push_decimal2(&mut t, days as u64);
    t.append("T23:59:59Z");
    assert(t@ =~= month_period(year as nat, month as nat));
    t
}

impl S2Config {
    /// The periods to search.
    pub open spec fn search_periods(self) -> Seq<Seq<char>> {
        periods(
            self.years@,
            match self.season {
                Some(months) => Some(months@),
                None => None,
            },
        )
    }

    /// The periods to search are those of the years and, where there is one, the season of
    /// the tileset.
    pub proof fn searches_its_own_periods(self)
        ensures
            self.season is None ==> self.search_periods() == periods(self.years@, None),
            self.season matches Some(months) ==> self.search_periods() == periods(
                self.years@,
                Some(months@),
            ),
    {
    }

    /// The periods to search: one per month of the season in each year, so that months
    /// outside a season with gaps are not searched, or one per year without a season.
    pub fn datetime_ranges(&self) -> (ranges: Vec<String>)
        ensures
            ranges@.len() == self.search_periods().len(),
            forall|i: int|
                0 <= i < ranges@.len() ==> #[trigger] ranges@[i]@ == self.search_periods()[i],
    {
        let ghost want = self.search_periods();
        let mut ranges: Vec<String> = Vec::new();
        match &self.season {
            None => {
                for i in 0..self.years.len()
                    invariant
                        self.season is None,
                        want == self.search_periods(),
                        ranges@.len() == i,
                        forall|k: int| 0 <= k < i ==> #[trigger] ranges@[k]@ == want[k],
                {
                    ranges.push(year_text(self.years[i]));
                }
            },
            Some(months) => {
                let ghost m = months@.len() as int;
                assert(0 * m == 0) by (nonlinear_arith);
                for i in 0..self.years.len()
                    invariant
                        self.season == Some(*months),
                        m == months@.len(),
                        want == self.search_periods(),
                        ranges@.len() == i * m,
                        forall|k: int| 0 <= k < i * m ==> #[trigger] ranges@[k]@ == want[k],
                {
                    for j in 0..months.len()
                        invariant
                            self.season == Some(*months),
                            m == months@.len(),
                            i < self.years@.len(),
                            want == self.search_periods(),
                            ranges@.len() == i * m + j,
                            forall|k: int| 0 <= k < i * m + j ==> #[trigger] ranges@[k]@ == want[k],
                    {
                        let t = month_text(self.years[i], months[j]);
                        proof {
                            let k = i * m + j;
                            assert(k < self.years@.len() * m) by (nonlinear_arith)
                                requires
                                    k == i * m + j,
                                    0 <= i < self.years@.len(),
                                    0 <= j < m,
                            ;
                            vstd::arithmetic::div_mod::lemma_fundamental_div_mod_converse(
                                k,
                                m,
                                i as int,
                                j as int,
                            );
                            assert(want[k] == t@);
                        }
                        ranges.push(t);
                    }
                    assert((i + 1) * m == i * m + m) by (nonlinear_arith);
                }
            },
        }
        ranges
    }
}

// ─── Assembly ───────────────────────────────────────────────────────────────

/// The preset that a tileset refers to, where there is one.
pub open spec fn preset_of(file: ConfigFile, e: TilesetEntry) -> Option<Preset> {
    match e.preset {
        Some(name) => if file.presets@.contains_key(name@) {
            Some(file.presets@[name@])
        } else {
            None
        },
        None => None,
    }
}

/// Bands of a tileset: its own, else its preset's, else none.
pub open spec fn entry_bands(file: ConfigFile, e: TilesetEntry) -> Seq<String> {
    match (e.bands, preset_of(file, e)) {
        (Some(bands), _) => bands@,
        (None, Some(preset)) => preset.bands@,
        (None, None) => Seq::empty(),
    }
}

/// Composite of a tileset: its own, else its preset's, else the best pixel.
pub open spec fn entry_composite(file: ConfigFile, e: TilesetEntry) -> Composite {
    match (e.composite, preset_of(file, e)) {
        (Some(composite), _) => composite,
        (None, Some(preset)) => preset.composite,
        (None, None) => Composite::BestPixel,
    }
}

/// Display range of a tileset: its own, else its preset's, else 0 to 3000.
pub open spec fn entry_rescale(file: ConfigFile, e: TilesetEntry) -> Seq<Real> {
    match (e.rescale, preset_of(file, e)) {
        (Some(rescale), _) => rescale@,
        (None, Some(preset)) => preset.rescale@,
        (None, None) => seq![Real { bits: 0 }, Real { bits: 0x40A7_7000_0000_0000 }],
    }
}

/// What is wrong with a tileset of the file.
pub open spec fn entry_fault(file: ConfigFile, e: TilesetEntry) -> Option<ConfigError> {
    if e.preset is Some && preset_of(file, e) is None {
        Some(ConfigError::UnknownPreset(e.preset->0))
    } else {
        settings_fault(
            e.name@,
            e.years@.len(),
            entry_bands(file, e),
            entry_composite(file, e),
            file.minzoom,
            file.maxzoom,
            e.extent,
        )
    }
}

/// The settings of a tileset of the file.
pub open spec fn entry_gives(file: ConfigFile, e: TilesetEntry, c: S2Config) -> bool {
    &&& c.name == e.name
    &&& c.extent == e.extent
    &&& c.years == e.years
    &&& c.season == e.season
    &&& c.max_cloud_cover == e.max_cloud_cover
    &&& c.bands@ == entry_bands(file, e)
    &&& c.composite == entry_composite(file, e)
    &&& c.rescale@ == entry_rescale(file, e)
    &&& c.max_scenes_per_tile == e.max_scenes_per_tile
    &&& c.haze_dn_max == e.haze_dn_max
    &&& c.scl_masking == e.scl_masking
    &&& c.temporal_priority == e.temporal_priority
    &&& c.minzoom == file.minzoom
    &&& c.maxzoom == file.maxzoom
    &&& c.quadkey_zoom == file.quadkey_zoom
    &&& c.stac_url == file.stac_url
    &&& c.collection == file.collection
}

/// What is wrong with the tilesets from position `i` on, the first fault found.
pub open spec fn fault_from(file: ConfigFile, i: int) -> Option<ConfigError>
    decreases file.tilesets@.len() - i,
{
    if i < 0 || i >= file.tilesets@.len() {
        None
    } else if entry_fault(file, file.tilesets@[i]) is Some {
        entry_fault(file, file.tilesets@[i])
    } else {
        fault_from(file, i + 1)
    }
}

/// Where the bands, composite and display range of a tileset come from: from the tileset
/// itself, else from the preset that it refers to, else from the defaults.
pub proof fn entry_sources(file: ConfigFile, e: TilesetEntry)
    ensures
        e.bands matches Some(own) ==> entry_bands(file, e) == own@,
        e.composite matches Some(own) ==> entry_composite(file, e) == own,
        e.rescale matches Some(own) ==> entry_rescale(file, e) == own@,
        e.preset matches Some(name) ==> file.presets@.contains_key(name@) ==> {
            let preset = file.presets@[name@];
            &&& e.bands is None ==> entry_bands(file, e) == preset.bands@
            &&& e.composite is None ==> entry_composite(file, e) == preset.composite
            &&& e.rescale is None ==> entry_rescale(file, e) == preset.rescale@
        },
        e.preset is None ==> {
            &&& e.bands is None ==> entry_bands(file, e).len() == 0
            &&& e.composite is None ==> entry_composite(file, e) is BestPixel
            &&& e.rescale is None ==> entry_rescale(file, e) == seq![
                Real { bits: 0 },
                Real { bits: 0x40A7_7000_0000_0000 },
            ]
        },
{
}

/// A tileset has the settings of its entry and, in all that the entry does not give, those
/// of the file.
pub proof fn tileset_settings(file: ConfigFile, e: TilesetEntry, c: S2Config)
    requires
        entry_gives(file, e, c),
    ensures
        c.name@ == e.name@,
        c.extent[0] == e.extent[0] && c.extent[1] == e.extent[1] && c.extent[2] == e.extent[2]
            && c.extent[3] == e.extent[3],
        c.years@ == e.years@,
        c.season is Some <==> e.season is Some,
        e.season matches Some(months) ==> c.season->0@ == months@,
        c.max_cloud_cover.bits == e.max_cloud_cover.bits,
        c.max_scenes_per_tile == e.max_scenes_per_tile,
        c.haze_dn_max == e.haze_dn_max,
        c.scl_masking == e.scl_masking,
        c.temporal_priority == e.temporal_priority,
        c.minzoom == file.minzoom,
        c.maxzoom == file.maxzoom,
        c.quadkey_zoom == file.quadkey_zoom,
        c.stac_url@ == file.stac_url@,
        c.collection@ == file.collection@,
        c.bands@ == entry_bands(file, e),
        c.composite == entry_composite(file, e),
        c.rescale@ == entry_rescale(file, e),
{
}

/// A tileset without fault is one whose preset exists, if it refers to one, and whose
/// settings are sound.
pub proof fn entry_faults(file: ConfigFile, e: TilesetEntry, c: S2Config)
    requires
        entry_gives(file, e, c),
    ensures
        e.preset matches Some(name) ==> !file.presets@.contains_key(name@) ==> entry_fault(file, e)
            == Some(ConfigError::UnknownPreset(name)),
        e.preset is None || file.presets@.contains_key((e.preset->0)@) ==> entry_fault(file, e)
            == c.fault(),
{
}

/// The fault that is reported is that of the first tileset that has one; where none is
/// reported, no tileset has one.
pub proof fn reported_fault(file: ConfigFile, from: int)
    requires
        0 <= from <= file.tilesets@.len(),
    ensures
        fault_from(file, from) is Some ==> exists|i: int|
            {
                &&& from <= i < file.tilesets@.len()
                &&& entry_fault(file, #[trigger] file.tilesets@[i]) == fault_from(file, from)
                &&& forall|j: int|
                    from <= j < i ==> entry_fault(file, #[trigger] file.tilesets@[j]) is None
            },
        fault_from(file, from) is None ==> forall|j: int|
            from <= j < file.tilesets@.len() ==> entry_fault(
                file,
                #[trigger] file.tilesets@[j],
            ) is None,
    decreases file.tilesets@.len() - from,
{
    if from < file.tilesets@.len() && entry_fault(file, file.tilesets@[from]) is None {
        reported_fault(file, from + 1);
        if fault_from(file, from) is Some {
            let i = choose|i: int|
                {
                    &&& from + 1 <= i < file.tilesets@.len()
                    &&& entry_fault(file, #[trigger] file.tilesets@[i]) == fault_from(file, from + 1)
                    &&& forall|j: int|
                        from + 1 <= j < i ==> entry_fault(
                            file,
                            #[trigger] file.tilesets@[j],
                        ) is None
                };
            assert(entry_fault(file, file.tilesets@[i]) == fault_from(file, from));
        }
    }
}

impl AppConfig {
    /// Complete the tilesets of a configuration file with presets, defaults and global
    /// settings, and check them; the first fault is reported.
    pub fn from_parsed(file: ConfigFile) -> (r: Result<Self, ConfigError>)
        ensures
            file.tilesets@.len() == 0 ==> r == Err::<AppConfig, ConfigError>(
                ConfigError::NoTilesets,
            ),
            file.tilesets@.len() > 0 ==> match r {
                Err(e) => fault_from(file, 0) == Some(e),
                Ok(c) => {
                    &&& fault_from(file, 0) is None
                    &&& c.port == file.port
                    &&& c.minzoom == file.minzoom
                    &&& c.maxzoom == file.maxzoom
                    &&& c.quadkey_zoom == file.quadkey_zoom
                    &&& c.stac_url == file.stac_url
                    &&& c.collection == file.collection
                    &&& c.index_path == file.index_path
                    &&& c.tile_cache == file.tile_cache
                    &&& c.public_url == file.public_url
                    &&& c.cache_max_age == file.cache_max_age
                    &&& c.tilesets@.len() == file.tilesets@.len()
                    &&& forall|i: int|
                        0 <= i < file.tilesets@.len() ==> entry_gives(
                            file,
                            file.tilesets@[i],
                            #[trigger] c.tilesets@[i],
                        )
                },
            },
    {
        let ghost all = file;
        if file.tilesets.len() == 0 {
            return Err(ConfigError::NoTilesets);
        }
        let entries = file.tilesets;
        let mut tilesets: Vec<S2Config> = Vec::new();
        for entry in it: entries
            invariant
                it.seq() == all.tilesets@,
                all.tilesets@.len() > 0,
                all == file,
                tilesets@.len() == it.index(),
                fault_from(all, 0) == fault_from(all, it.index() as int),
                forall|i: int|
                    0 <= i < tilesets@.len() ==> entry_gives(
                        all,
                        all.tilesets@[i],
                        #[trigger] tilesets@[i],
                    ),
        {
            let ghost i = it.index() as int;
            let ghost e = all.tilesets@[i];
            let preset: Option<&Preset> = match &entry.preset {
                Some(name) => match file.presets.get(name.as_str()) {
                    Some(p) => Some(p),
                    None => {
                        return Err(ConfigError::UnknownPreset(name.clone()));
                    },
                },
                None => None,
            };
            let bands: Vec<String> = match (entry.bands, preset) {
                (Some(own), _) => own,
                (None, Some(p)) => clone_texts(&p.bands),
                (None, None) => Vec::new(),
            };
            let composite: Composite = match (entry.composite, preset) {
                (Some(own), _) => own,
                (None, Some(p)) => p.composite,
                (None, None) => Composite::default(),
            };
            let rescale: [Real; 2] = match (entry.rescale, preset) {
                (Some(own), _) => own,
                (None, Some(p)) => p.rescale,
                (None, None) => default_rescale(),
            };
            let config = S2Config {
                name: entry.name,
                extent: entry.extent,
                years: entry.years,
                season: entry.season,
                max_cloud_cover: entry.max_cloud_cover,
                bands,
                composite,
                rescale,
                max_scenes_per_tile: entry.max_scenes_per_tile,
                haze_dn_max: entry.haze_dn_max,
                scl_masking: entry.scl_masking,
                temporal_priority: entry.temporal_priority,
                minzoom: file.minzoom,
                maxzoom: file.maxzoom,
                quadkey_zoom: file.quadkey_zoom,
                stac_url: file.stac_url.clone(),
                collection: file.collection.clone(),
            };
            assert(config.bands@ =~= entry_bands(all, e));
            assert(entry_gives(all, e, config));
            if let Err(fault) = config.validate() {
                return Err(fault);
            }
            tilesets.push(config);
        }
        Ok(
            AppConfig {
                port: file.port,
                minzoom: file.minzoom,
                maxzoom: file.maxzoom,
                quadkey_zoom: file.quadkey_zoom,
                stac_url: file.stac_url,
                collection: file.collection,
                index_path: file.index_path,
                tile_cache: file.tile_cache,
                public_url: file.public_url,
                cache_max_age: file.cache_max_age,
                tilesets,
            },
        )
    }
}

} // verus!
