//! Request rules: what each request is answered, and the documents about a tileset.
use crate::cache;
use crate::cache::TileKey;
use crate::config::{Composite, S2Config};
use crate::geo::TileRange;
use crate::index;
use crate::index::{build_index, MosaicIndex};
use crate::number::Real;
use crate::order;
use crate::order::{stable_order, take_in_order};
use crate::render;
use crate::render::{empty_tile_png, OutputFormat};
use crate::stac::StacItem;
use crate::text;
use crate::text::{clone_texts, push_decimal, str_eq, trim_end_slashes};
use vstd::prelude::*;
use vstd::string::*;

verus! {

// ─── Replies ────────────────────────────────────────────────────────────────

/// Status: done.
pub const STATUS_OK: u16 = 200;

/// Status: the request makes no sense.
pub const STATUS_BAD_REQUEST: u16 = 400;

/// Status: there is no such thing.
pub const STATUS_NOT_FOUND: u16 = 404;

/// Status: it could not be done.
pub const STATUS_FAILED: u16 = 500;

/// An answer in words.
#[derive(Debug)]
pub struct Refusal {
    pub status: u16,
    pub message: String,
}

/// The answer about a tileset that there is not.
pub fn tileset_not_found(name: &str) -> (r: Refusal)
    ensures
        r.status == STATUS_NOT_FOUND,
        r.status == 404,
        r.message@ == "tileset '"@ + name@ + "' not found"@,
{
    let mut message = "tileset '".to_owned();
    message.append(name);
    message.append("' not found");
    Refusal { status: STATUS_NOT_FOUND, message }
}

/// A tileset that was looked up, or the answer where there is none of that name.
pub fn tileset_or_404<'a, T>(found: Option<&'a T>, name: &str) -> (r: Result<&'a T, Refusal>)
    ensures
        match found {
            Some(t) => r is Ok && *r->Ok_0 == *t,
            None => r is Err && r->Err_0.status == STATUS_NOT_FOUND && r->Err_0.message@
                == "tileset '"@ + name@ + "' not found"@,
        },
{
    match found {
        Some(t) => Ok(t),
        None => Err(tileset_not_found(name)),
    }
}

// ─── Tile requests ──────────────────────────────────────────────────────────

/// Format of a tile request that names none.
pub fn default_format() -> (f: String)
    ensures
        f@ == "png"@,
{
    "png".to_owned()
}

/// A tile request that is to be served: the format and the cache key.
#[derive(Debug)]
pub struct TileRequest {
    pub format: OutputFormat,
    pub key: TileKey,
}

/// Check a tile request for a tileset, given what `OutputFormat::from_str` makes of its
/// format: a zoom level outside those served is answered first, then an unknown format.
/// The cache key holds the format as the request gives it.
pub fn checked_request(
    config: &S2Config,
    name: &str,
    z: u8,
    x: u32,
    y: u32,
    format_text: &str,
    format: Option<OutputFormat>,
) -> (r: Result<TileRequest, Refusal>)
    ensures
        z < config.minzoom || z > config.maxzoom ==> r is Err && r->Err_0.status == STATUS_NOT_FOUND
            && r->Err_0.message@ == "zoom out of range"@,
        z < config.minzoom || z > config.maxzoom ==> r->Err_0.status == 404,
        config.minzoom <= z <= config.maxzoom && format is None ==> r is Err && r->Err_0.status
            == STATUS_BAD_REQUEST && r->Err_0.message@
            == "unsupported format; use png, jpg, or webp"@,
        config.minzoom <= z <= config.maxzoom && format is None ==> r->Err_0.status == 400,
        config.minzoom <= z <= config.maxzoom && format is Some ==> r is Ok && r->Ok_0.format
            == format->0 && r->Ok_0.key@ == (cache::KeyView {
            tileset: name@,
            z,
            x,
            y,
            format: format_text@,
        }),
{
    if z < config.minzoom || z > config.maxzoom {
        return Err(
            Refusal { status: STATUS_NOT_FOUND, message: "zoom out of range".to_owned() },
        );
    }
    match format {
        Some(f) => Ok(
            TileRequest { format: f, key: TileKey::new(name, z, x, y, format_text) },
        ),
        None => Err(
            Refusal {
                status: STATUS_BAD_REQUEST,
                message: "unsupported format; use png, jpg, or webp".to_owned(),
            },
        ),
    }
}

/// Check a tile request for a tileset.
pub fn check_request(config: &S2Config, name: &str, z: u8, x: u32, y: u32, format_text: &str) -> (r:
    Result<TileRequest, Refusal>)
    ensures
        z < config.minzoom || z > config.maxzoom ==> r is Err && r->Err_0.status == STATUS_NOT_FOUND
            && r->Err_0.message@ == "zoom out of range"@,
        config.minzoom <= z <= config.maxzoom && render::format_named(
            render::lowercase_of(format_text@),
        ) is None ==> r is Err && r->Err_0.status == STATUS_BAD_REQUEST && r->Err_0.message@
            == "unsupported format; use png, jpg, or webp"@,
        config.minzoom <= z <= config.maxzoom && render::format_named(
            render::lowercase_of(format_text@),
        ) is Some ==> r is Ok && Some(r->Ok_0.format) == render::format_named(
            render::lowercase_of(format_text@),
        ) && r->Ok_0.key@ == (cache::KeyView { tileset: name@, z, x, y, format: format_text@ }),
{
    let format = OutputFormat::from_str(format_text);
    checked_request(config, name, z, x, y, format_text, format)
}

/// An image to answer with.
#[derive(Debug, Clone)]
pub struct ImageReply {
    pub content_type: &'static str,
    /// The `Cache-Control` header, if there is one.
    pub cache_control: Option<String>,
    pub body: Vec<u8>,
}

/// The `Cache-Control` header for a time in seconds.
pub open spec fn cache_control_of(max_age: Option<u64>) -> Option<Seq<char>> {
    match max_age {
        Some(s) => Some("public, max-age="@ + text::decimal(s as nat)),
        None => None,
    }
}

/// The answer carries a tile as its body, in a format, to be kept by clients for a time.
pub open spec fn carries(r: ImageReply, tile: Seq<u8>, format: OutputFormat, max_age: Option<u64>) -> bool {
    &&& r.content_type@ == format.media_type()
    &&& r.body@ == tile
    &&& match r.cache_control {
        Some(h) => cache_control_of(max_age) == Some(h@),
        None => cache_control_of(max_age) is None,
    }
}

/// The answer carries a transparent tile, which clients are not told to keep.
pub open spec fn carries_nothing(r: ImageReply) -> bool {
    &&& r.content_type@ == "image/png"@
    &&& render::encoded(
        render::transparent(),
        render::EMPTY_SIDE,
        render::EMPTY_SIDE,
        OutputFormat::Png,
    ) == Some(r.body@)
    &&& r.cache_control is None
}

/// An answer that carries a tile has the tile as its body and the media type of its format,
/// and tells clients how long to keep it exactly when a time is given.
pub proof fn carried_tile(
    r: ImageReply,
    tile: Seq<u8>,
    format: OutputFormat,
    max_age: Option<u64>,
)
    requires
        carries(r, tile, format, max_age),
    ensures
        r.body@ == tile,
        r.content_type@ == format.media_type(),
        r.cache_control is Some <==> max_age is Some,
        max_age matches Some(s) ==> r.cache_control->0@ == "public, max-age="@ + text::decimal(
            s as nat,
        ),
{
}

/// An answer without a tile is a PNG of 256 by 256 transparent pixels that clients are not
/// told to keep.
pub proof fn carried_nothing(r: ImageReply)
    requires
        carries_nothing(r),
    ensures
        r.content_type@ == OutputFormat::Png.media_type(),
        r.cache_control is None,
        exists|pixels: Seq<u8>| #[trigger]
            render::encoded(pixels, 256, 256, OutputFormat::Png) == Some(r.body@) && pixels.len()
                == 4 * (256 * 256) && forall|i: int|
                0 <= i < pixels.len() ==> #[trigger] pixels[i] == 0,
{
    let pixels = render::transparent();
    assert(render::encoded(pixels, 256, 256, OutputFormat::Png) == Some(r.body@));
}

/// The answer with a tile.
pub fn tile_response(bytes: Vec<u8>, format: OutputFormat, cache_max_age: Option<u64>) -> (r:
    ImageReply)
    ensures
        carries(r, bytes@, format, cache_max_age),
{
    let cache_control: Option<String> = match cache_max_age {
        Some(s) => {
            let mut h = "public, max-age=".to_owned();
            push_decimal(&mut h, s);
            Some(h)
        },
        None => None,
    };
    ImageReply { content_type: format.content_type(), cache_control, body: bytes }
}

/// The answer to a tile request, given the encoded tile if there is one: without it a
/// transparent tile, which clients are not told to keep.
pub fn tile_reply(
    rendered: Option<Vec<u8>>,
    format: OutputFormat,
    cache_max_age: Option<u64>,
) -> (r: ImageReply)
    ensures
        match rendered {
            Some(bytes) => carries(r, bytes@, format, cache_max_age),
            None => carries_nothing(r),
        },
{
    match rendered {
        Some(bytes) => tile_response(bytes, format, cache_max_age),
        None => ImageReply {
            content_type: "image/png",
            cache_control: None,
            body: empty_tile_png(),
        },
    }
}

/// What a tile request comes to: the answer, and the tile to put into the cache, under
/// its key.
#[derive(Debug)]
pub struct TileOutcome {
    pub reply: ImageReply,
    pub store: Option<(TileKey, Vec<u8>)>,
}

/// What a tile request comes to, given the tile that the cache holds for it and, where
/// it holds none, the tile that was rendered and encoded: a cached tile is answered and
/// not put again; a rendered one is answered and put, once, under the request's key;
/// without either the answer is a transparent tile, which is never put.
pub fn tile_outcome(
    request: &TileRequest,
    cached: Option<Vec<u8>>,
    rendered: Option<Vec<u8>>,
    cache_max_age: Option<u64>,
) -> (r: TileOutcome)
    ensures
        match (cached, rendered) {
            (Some(tile), _) => {
                &&& carries(r.reply, tile@, request.format, cache_max_age)
                &&& r.store is None
            },
            (None, Some(tile)) => {
                &&& carries(r.reply, tile@, request.format, cache_max_age)
                &&& r.store matches Some((key, kept)) && key@ == request.key@ && kept@ == tile@
            },
            (None, None) => carries_nothing(r.reply) && r.store is None,
        },
{
    match cached {
        Some(tile) => TileOutcome {
            reply: tile_response(tile, request.format, cache_max_age),
            store: None,
        },
        None => {
            let store: Option<(TileKey, Vec<u8>)> = match &rendered {
                Some(tile) => {
                    let key = &request.key;
                    let copy = TileKey::new(
                        key.tileset.as_str(),
                        key.z,
                        key.x,
                        key.y,
                        key.format.as_str(),
                    );
                    let kept: Vec<u8> = tile.clone();
                    assert(kept@ =~= tile@);
                    Some((copy, kept))
                },
                None => None,
            };
            TileOutcome { reply: tile_reply(rendered, request.format, cache_max_age), store }
        },
    }
}

// ─── Documents ──────────────────────────────────────────────────────────────

/// The names in alphabetical order of their bytes.
pub fn sorted_names(names: Vec<String>) -> (r: Vec<String>)
    ensures
        r@.to_multiset() == names@.to_multiset(),
        forall|i: int, j: int|
            0 <= i < j < r@.len() ==> order::text_le((#[trigger] r@[i])@, (#[trigger] r@[j])@),
{
    let ghost given = names@;
    assert(given.len() == names.len());
    let keys = clone_texts(&names);
    let p = stable_order(&keys);
    proof {
        assert forall|i: int| 0 <= i < p@.len() implies #[trigger] p@[i] < given.len() by {
            assert(p@.contains(p@[i]));
        }
    }
    let r = take_in_order(names, &p);
    proof {
        order::lemma_reordered(given, p@, r@);
        assert forall|i: int, j: int| 0 <= i < j < r@.len() implies order::text_le(
            (#[trigger] r@[i])@,
            (#[trigger] r@[j])@,
        ) by {
            assert(order::comes_before(keys@, p@[i] as int, p@[j] as int));
        }
    }
    r
}

/// A TileJSON document, without the centre's coordinates.
#[derive(Debug)]
pub struct TileJson {
    pub tilejson: &'static str,
    pub name: String,
    pub tiles: Vec<String>,
    pub minzoom: u8,
    pub maxzoom: u8,
    pub bounds: [Real; 4],
    pub center_zoom: u8,
}

/// The base URL of the server: the public one without slashes at its end, or the local
/// one.
pub open spec fn base_url(public_url: Option<Seq<char>>, port: u16) -> Seq<char> {
    match public_url {
        Some(u) => text::without_end_slashes(u),
        None => "http://localhost:"@ + text::decimal(port as nat),
    }
}

/// The base URL of the server starts the public one where there is one, leaving out
/// nothing but slashes at the end, and does not end in a slash.
pub proof fn base_of_public_url(u: Seq<char>, port: u16)
    ensures
        base_url(Some(u), port).is_prefix_of(u),
        forall|i: int| base_url(Some(u), port).len() <= i < u.len() ==> #[trigger] u[i] == '/',
        base_url(Some(u), port).len() > 0 ==> base_url(Some(u), port).last() != '/',
        base_url(None, port) == "http://localhost:"@ + text::decimal(port as nat),
{
    text::end_slashes(u);
}

/// The base URL of the server.
fn base_text(public_url: &Option<String>, port: u16) -> (b: String)
    ensures
        b@ == base_url(
            match *public_url {
                Some(u) => Some(u@),
                None => None,
            },
            port,
        ),
{
    match public_url {
        Some(u) => trim_end_slashes(u.as_str()),
        None => {
            let mut b = "http://localhost:".to_owned();
            push_decimal(&mut b, port as u64);
            b
        },
    }
}

/// The TileJSON document of a tileset.
pub fn tilejson(config: &S2Config, name: &str, public_url: &Option<String>, port: u16) -> (t: TileJson)
    requires
        config.minzoom + config.maxzoom <= u8::MAX,
    ensures
        t.tilejson@ == "2.2.0"@,
        t.name@ == name@,
        t.tiles@.len() == 1,
        t.tiles@[0]@ == base_url(
            match *public_url {
                Some(u) => Some(u@),
                None => None,
            },
            port,
        ) + "/"@ + name@ + "/{z}/{x}/{y}?format=png"@,
        t.minzoom == config.minzoom,
        t.maxzoom == config.maxzoom,
        t.bounds == config.extent,
        t.center_zoom == (config.minzoom + config.maxzoom) / 2,
{
    let mut url = base_text(public_url, port);
    url.append("/");
    url.append(name);
    url.append("/{z}/{x}/{y}?format=png");
    let mut tiles: Vec<String> = Vec::new();
    tiles.push(url);
    TileJson {
        tilejson: "2.2.0",
        name: name.to_owned(),
        tiles,
        minzoom: config.minzoom,
        maxzoom: config.maxzoom,
        bounds: config.extent,
        center_zoom: (config.minzoom + config.maxzoom) / 2,
    }
}

/// The name of a composite.
pub open spec fn composite_name(c: Composite) -> Seq<char> {
    match c {
        Composite::BestPixel => "BestPixel"@,
        Composite::Median => "Median"@,
        Composite::Latest => "Latest"@,
        Composite::Ndvi => "Ndvi"@,
    }
}

/// What a tileset's index holds.
#[derive(Debug)]
pub struct InfoResponse {
    pub scene_count: usize,
    pub index_cells: usize,
    pub quadkey_zoom: u8,
    pub extent: [Real; 4],
    pub minzoom: u8,
    pub maxzoom: u8,
    pub bands: Vec<String>,
    pub composite: &'static str,
}

/// What a tileset's index holds.
pub fn info(config: &S2Config, index: &MosaicIndex) -> (r: InfoResponse)
    ensures
        r.scene_count == index.scenes@.len(),
        r.index_cells == index.index@.len(),
        r.quadkey_zoom == index.quadkey_zoom,
        r.extent == config.extent,
        r.minzoom == config.minzoom,
        r.maxzoom == config.maxzoom,
        r.bands@ == config.bands@,
        r.composite@ == composite_name(config.composite),
        config.composite is BestPixel ==> r.composite@ == "BestPixel"@,
        config.composite is Median ==> r.composite@ == "Median"@,
        config.composite is Latest ==> r.composite@ == "Latest"@,
        config.composite is Ndvi ==> r.composite@ == "Ndvi"@,
{
    let composite: &'static str = match config.composite {
        Composite::BestPixel => "BestPixel",
        Composite::Median => "Median",
        Composite::Latest => "Latest",
        Composite::Ndvi => "Ndvi",
    };
    InfoResponse {
        scene_count: index.scene_count(),
        index_cells: index.index_cell_count(),
        quadkey_zoom: index.quadkey_zoom,
        extent: config.extent,
        minzoom: config.minzoom,
        maxzoom: config.maxzoom,
        bands: clone_texts(&config.bands),
        composite,
    }
}

/// The answer to a rebuild request, given the number of scenes found or what went wrong.
pub fn build_reply(name: &str, outcome: Result<usize, String>) -> (r: Refusal)
    ensures
        match outcome {
            Ok(n) => r.status == STATUS_OK && r.message@ == "'"@ + name@ + "' rebuilt: "@
                + text::decimal(n as nat) + " scenes"@,
            Err(e) => r.status == STATUS_FAILED && r.message == e,
        },
        r.status == if outcome is Ok {
            200u16
        } else {
            500u16
        },
{
    match outcome {
        Ok(n) => {
            let mut message = "'".to_owned();
            message.append(name);
            message.append("' rebuilt: ");
            push_decimal(&mut message, n as u64);
            message.append(" scenes");
            Refusal { status: STATUS_OK, message }
        },
        Err(e) => Refusal { status: STATUS_FAILED, message: e },
    }
}

// ─── Rebuilds ───────────────────────────────────────────────────────────────

/// A change to one tileset: its index is replaced and its tiles are dropped from the
/// cache.
#[derive(Debug)]
pub struct Rebuild {
    pub tileset: String,
    pub index: MosaicIndex,
}

/// What a rebuild request for a tileset comes to: the answer, and the change to make.
#[derive(Debug)]
pub struct BuildStep {
    pub reply: Refusal,
    pub change: Option<Rebuild>,
}

/// What a rebuild request for a tileset comes to, given the items that a search found,
/// with the tiles that each one's ground spans, or what went wrong. Only a search that
/// succeeded changes anything: this tileset's index becomes that of the items.
pub fn build_step(
    name: &str,
    config: &S2Config,
    found: Result<(Vec<StacItem>, Vec<Option<TileRange>>), String>,
) -> (r: BuildStep)
    requires
        found matches Ok(pair) ==> {
            &&& config.quadkey_zoom <= 32
            &&& pair.1@.len() == pair.0@.len()
            &&& forall|i: int|
                0 <= i < pair.1@.len() && (#[trigger] pair.1@[i]) is Some ==> index::range_valid(
                    pair.1@[i]->0,
                    config.quadkey_zoom as nat,
                )
        },
    ensures
        match found {
            Ok(pair) => {
                &&& r.change matches Some(change) && change.tileset@ == name@
                    && index::index_of_items(pair.0@, pair.1@, *config, change.index)
                    && change.index.wf()
                &&& r.reply.status == STATUS_OK
                &&& r.reply.message@ == "'"@ + name@ + "' rebuilt: "@ + text::decimal(
                    r.change->0.index.scenes@.len(),
                ) + " scenes"@
            },
            Err(e) => r.change is None && r.reply.status == STATUS_FAILED && r.reply.message == e,
        },
{
    match found {
        Ok((items, ranges)) => {
            let index = build_index(&items, &ranges, config);
            let reply = build_reply(name, Ok(index.scene_count()));
            BuildStep { reply, change: Some(Rebuild { tileset: name.to_owned(), index }) }
        },
        Err(e) => BuildStep { reply: build_reply(name, Err(e)), change: None },
    }
}

/// The indices of all tilesets after a step.
pub open spec fn indices_after(step: BuildStep, indices: Map<Seq<char>, MosaicIndex>) -> Map<
    Seq<char>,
    MosaicIndex,
> {
    match step.change {
        Some(change) => indices.insert(change.tileset@, change.index),
        None => indices,
    }
}

/// The cached tiles of all tilesets after a step.
pub open spec fn tiles_after(
    step: BuildStep,
    tiles: Map<(Seq<char>, u8, u32, u32, Seq<char>), Seq<u8>>,
) -> Map<(Seq<char>, u8, u32, u32, Seq<char>), Seq<u8>> {
    match step.change {
        Some(change) => cache::without_tileset(tiles, change.tileset@),
        None => tiles,
    }
}

/// A rebuild touches one tileset: the indices and tiles of every other stay as they
/// were, its own index is the new one, and it has no tiles left. Without a change
/// everything stays.
pub proof fn rebuild_touches_one_tileset(
    step: BuildStep,
    indices: Map<Seq<char>, MosaicIndex>,
    tiles: Map<(Seq<char>, u8, u32, u32, Seq<char>), Seq<u8>>,
)
    ensures
        step.change is None ==> indices_after(step, indices) == indices && tiles_after(step, tiles)
            == tiles,
        step.change matches Some(change) ==> {
            &&& indices_after(step, indices).contains_key(change.tileset@)
            &&& indices_after(step, indices)[change.tileset@] == change.index
            &&& forall|n: Seq<char>|
                n != change.tileset@ ==> (#[trigger] indices_after(step, indices).contains_key(n)
                    <==> indices.contains_key(n)) && (indices.contains_key(n) ==> indices_after(
                    step,
                    indices,
                )[n] == indices[n])
            &&& forall|k: (Seq<char>, u8, u32, u32, Seq<char>)| #[trigger]
                tiles_after(step, tiles).contains_key(k) <==> tiles.contains_key(k) && k.0
                    != change.tileset@
            &&& forall|k: (Seq<char>, u8, u32, u32, Seq<char>)| #[trigger]
                tiles_after(step, tiles).contains_key(k) ==> tiles_after(step, tiles)[k] == tiles[k]
        },
{
}

// ─── Start ──────────────────────────────────────────────────────────────────

/// Where a tileset's index comes from at the start.
#[derive(Debug)]
pub enum IndexSource {
    /// From the database at this path, or from a search where that fails.
    Database(String),
    /// From a search.
    Search,
}

/// Where a tileset's index comes from at the start.
pub fn index_source(rebuild: bool, index_path: &Option<String>) -> (s: IndexSource)
    ensures
        s == match (rebuild, *index_path) {
            (false, Some(path)) => IndexSource::Database(path),
            _ => IndexSource::Search,
        },
{
    if rebuild {
        return IndexSource::Search;
    }
    match index_path {
        Some(path) => IndexSource::Database(path.clone()),
        None => IndexSource::Search,
    }
}

/// The first of the names that is not available.
pub open spec fn unknown_name(names: Seq<String>, available: Seq<String>, i: int) -> Option<int>
    decreases names.len() - i,
{
    if i < 0 || i >= names.len() {
        None
    } else if exists|j: int| 0 <= j < available.len() && (#[trigger] available[j])@ == names[i]@ {
        unknown_name(names, available, i + 1)
    } else {
        Some(i)
    }
}

/// The name that is reported is not available while all before it are; where none is
/// reported, all are available.
pub proof fn reported_name(names: Seq<String>, available: Seq<String>, from: int)
    requires
        0 <= from <= names.len(),
    ensures
        unknown_name(names, available, from) matches Some(i) ==> {
            &&& from <= i < names.len()
            &&& forall|j: int| 0 <= j < available.len() ==> (#[trigger] available[j])@ != names[i]@
            &&& forall|k: int|
                from <= k < i ==> exists|j: int|
                    0 <= j < available.len() && (#[trigger] available[j])@ == (#[trigger] names[k])@
        },
        unknown_name(names, available, from) is None ==> forall|k: int|
            from <= k < names.len() ==> exists|j: int|
                0 <= j < available.len() && (#[trigger] available[j])@ == (#[trigger] names[k])@,
    decreases names.len() - from,
{
    if from < names.len() && exists|j: int|
        0 <= j < available.len() && (#[trigger] available[j])@ == names[from]@ {
        reported_name(names, available, from + 1);
        let j0 = choose|j: int| 0 <= j < available.len() && (#[trigger] available[j])@ == names[from]@;
        match unknown_name(names, available, from) {
            Some(i) => {
                assert forall|k: int| from <= k < i implies exists|j: int|
                    0 <= j < available.len() && (#[trigger] available[j])@ == (#[trigger] names[k])@ by {
                    if k == from {
                        assert(available[j0]@ == names[k]@);
                    }
                }
            },
            None => {
                assert forall|k: int| from <= k < names.len() implies exists|j: int|
                    0 <= j < available.len() && (#[trigger] available[j])@ == (#[trigger] names[k])@ by {
                    if k == from {
                        assert(available[j0]@ == names[k]@);
                    }
                }
            },
        }
    }
}

fn has_name(list: &Vec<String>, name: &str) -> (r: bool)
    ensures
        r == exists|j: int| 0 <= j < list@.len() && (#[trigger] list@[j])@ == name@,
{
    for i in 0..list.len()
        invariant
            forall|j: int| 0 <= j < i ==> (#[trigger] list@[j])@ != name@,
    {
        if str_eq(list[i].as_str(), name) {
            return true;
        }
    }
    false
}

/// The texts of a list, separated by commas.
pub open spec fn joined(list: Seq<String>) -> Seq<char>
    decreases list.len(),
{
    if list.len() == 0 {
        Seq::empty()
    } else if list.len() == 1 {
        list[0]@
    } else {
        joined(list.drop_last()) + ", "@ + list.last()@
    }
}

/// One text stays as it is, and two lists are joined with a comma and a space between what
/// each of them gives.
pub proof fn joined_lists(a: Seq<String>, b: Seq<String>, one: String)
    requires
        a.len() > 0,
        b.len() > 0,
    ensures
        joined(Seq::empty()).len() == 0,
        joined(seq![one]) == one@,
        joined(a + b) == joined(a) + ", "@ + joined(b),
    decreases b.len(),
{
    let all = a + b;
    assert(all.drop_last() =~= a + b.drop_last());
    if b.len() == 1 {
        assert(all.drop_last() =~= a);
    } else {
        joined_lists(a, b.drop_last(), one);
    }
    assert(joined(all) =~= joined(a) + ", "@ + joined(b));
}

fn join_texts(list: &Vec<String>) -> (r: String)
    ensures
        r@ == joined(list@),
{
    let mut r = String::new();
    assert(r@ =~= joined(list@.take(0)));
    for i in 0..list.len()
        invariant
            r@ == joined(list@.take(i as int)),
    {
        let ghost more = list@.take(i + 1);
        assert(more.drop_last() =~= list@.take(i as int));
        assert(more.last() == list@[i as int]);
        if i > 0 {
            r.append(", ");
        }
        r.append(list[i].as_str());
        assert(r@ =~= joined(more));
    }
    assert(list@.take(list@.len() as int) =~= list@);
    r
}

/// The tilesets to fill, in alphabetical order: those asked for, or all where none is.
/// One that there is not is reported with the list of those that there are.
pub fn prefetch_names(requested: &Vec<String>, available: &Vec<String>) -> (r: Result<
    Vec<String>,
    String,
>)
    ensures
        match unknown_name(requested@, available@, 0) {
            Some(i) => r is Err && r->Err_0@ == "unknown tileset '"@ + requested@[i]@
                + "'; available: "@ + joined(available@),
            None => {
                &&& r is Ok
                &&& r->Ok_0@.to_multiset() == if requested@.len() == 0 {
                    available@.to_multiset()
                } else {
                    requested@.to_multiset()
                }
                &&& forall|i: int, j: int|
                    0 <= i < j < r->Ok_0@.len() ==> order::text_le(
                        (#[trigger] r->Ok_0@[i])@,
                        (#[trigger] r->Ok_0@[j])@,
                    )
            },
        },
{
    if requested.len() == 0 {
        return Ok(sorted_names(clone_texts(available)));
    }
    let mut i: usize = 0;
    while i < requested.len()
        invariant
            i <= requested@.len(),
            unknown_name(requested@, available@, 0) == unknown_name(
                requested@,
                available@,
                i as int,
            ),
        decreases requested@.len() - i,
    {
        if !has_name(available, requested[i].as_str()) {
            let mut message = "unknown tileset '".to_owned();
            message.append(requested[i].as_str());
            message.append("'; available: ");
            message.append(join_texts(available).as_str());
            return Err(message);
        }
        i += 1;
    }
    Ok(sorted_names(clone_texts(requested)))
}

} // verus!
