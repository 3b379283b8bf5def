//! Tile caches: keys, where each backend puts a tile, and the in-process cache.
use crate::config::TileCacheConfig;
use crate::locate;
use crate::locate::object_path;
use crate::text;
use crate::text::{push_decimal, str_eq};
use dashmap::DashMap;
use vstd::prelude::*;
use vstd::string::*;

verus! {

// ─── Key ────────────────────────────────────────────────────────────────────

/// What a cached tile is found by. One cache serves all tilesets.
#[derive(Debug, Clone)]
pub struct TileKey {
    pub tileset: String,
    pub z: u8,
    pub x: u32,
    pub y: u32,
    pub format: String,
}

/// A tile key by its texts and numbers.
pub struct KeyView {
    pub tileset: Seq<char>,
    pub z: u8,
    pub x: u32,
    pub y: u32,
    pub format: Seq<char>,
}

impl View for TileKey {
    type V = KeyView;

    open spec fn view(&self) -> KeyView {
        KeyView {
            tileset: self.tileset@,
            z: self.z,
            x: self.x,
            y: self.y,
            format: self.format@,
        }
    }
}

/// The file name of a tile.
pub open spec fn tile_file(y: nat, format: Seq<char>) -> Seq<char> {
    text::decimal(y) + seq!['.'] + format
}

/// The path of a tile: tileset, zoom, column and row with the format as extension.
pub open spec fn tile_path(k: KeyView) -> Seq<char> {
    k.tileset + seq!['/'] + text::decimal(k.z as nat) + seq!['/'] + text::decimal(k.x as nat) + seq![
        '/',
    ] + tile_file(k.y as nat, k.format)
}

/// The file name of a tile.
fn file_name(y: u32, format: &str) -> (name: String)
    ensures
        name@ == tile_file(y as nat, format@),
{
    let mut name = String::new();
    push_decimal(&mut name, y as u64);
    name.append(".");
    name.append(format);
    proof {
        reveal_strlit(".");
    }
    assert(name@ =~= tile_file(y as nat, format@));
    name
}

impl TileKey {
    /// The key of a tile.
    pub fn new(tileset: &str, z: u8, x: u32, y: u32, format: &str) -> (k: Self)
        ensures
            k@ == (KeyView { tileset: tileset@, z, x, y, format: format@ }),
    {
        TileKey { tileset: tileset.to_owned(), z, x, y, format: format.to_owned() }
    }

    /// The path of the tile.
    pub fn to_path(&self) -> (path: String)
        ensures
            path@ == tile_path(self@),
            path@ == self.tileset@ + seq!['/'] + text::decimal(self.z as nat) + seq!['/']
                + text::decimal(self.x as nat) + seq!['/'] + text::decimal(self.y as nat) + seq!['.']
                + self.format@,
    {
        proof {
            reveal_strlit("/");
        }
        let mut path = self.tileset.clone();
        path.append("/");
        push_decimal(&mut path, self.z as u64);
        path.append("/");
        push_decimal(&mut path, self.x as u64);
        path.append("/");
        path.append(file_name(self.y, self.format.as_str()).as_str());
        assert(path@ =~= tile_path(self@));
        assert(path@ =~= self.tileset@ + seq!['/'] + text::decimal(self.z as nat) + seq!['/']
            + text::decimal(self.x as nat) + seq!['/'] + text::decimal(self.y as nat) + seq!['.']
            + self.format@);
        path
    }
}

/// Decimal notation holds neither slashes nor points.
proof fn lemma_decimal_plain(n: nat)
    ensures
        !text::decimal(n).contains('/'),
        !text::decimal(n).contains('.'),
{
    text::lemma_decimal_digits(n);
}

/// Different tiles have different paths, whatever the tilesets are named, as long as the
/// formats hold no slash.
pub proof fn paths_distinguish_tiles(a: KeyView, b: KeyView)
    requires
        tile_path(a) == tile_path(b),
        !a.format.contains('/'),
        !b.format.contains('/'),
    ensures
        a == b,
{
    let (fa, fb) = (tile_file(a.y as nat, a.format), tile_file(b.y as nat, b.format));
    let (xa, xb) = (text::decimal(a.x as nat), text::decimal(b.x as nat));
    let (za, zb) = (text::decimal(a.z as nat), text::decimal(b.z as nat));
    let (ya, yb) = (text::decimal(a.y as nat), text::decimal(b.y as nat));
    lemma_decimal_plain(a.x as nat);
    lemma_decimal_plain(b.x as nat);
    lemma_decimal_plain(a.y as nat);
    lemma_decimal_plain(b.y as nat);
    lemma_decimal_plain(a.z as nat);
    lemma_decimal_plain(b.z as nat);
    assert(!fa.contains('/')) by {
        if fa.contains('/') {
            let i = choose|i: int| 0 <= i < fa.len() && fa[i] == '/';
            if i < ya.len() {
                assert(ya[i] == '/');
            } else if i > ya.len() {
                assert(a.format[i - ya.len() - 1] == '/');
            }
        }
    }
    assert(!fb.contains('/')) by {
        if fb.contains('/') {
            let i = choose|i: int| 0 <= i < fb.len() && fb[i] == '/';
            if i < yb.len() {
                assert(yb[i] == '/');
            } else if i > yb.len() {
                assert(b.format[i - yb.len() - 1] == '/');
            }
        }
    }
    let pa = a.tileset + seq!['/'] + za + seq!['/'] + xa;
    let pb = b.tileset + seq!['/'] + zb + seq!['/'] + xb;
    text::lemma_split_last(pa, fa, pb, fb, '/');
    text::lemma_split_first(ya, a.format, yb, b.format, '.');
    text::lemma_decimal_injective(a.y as nat, b.y as nat);
    text::lemma_split_last(a.tileset + seq!['/'] + za, xa, b.tileset + seq!['/'] + zb, xb, '/');
    text::lemma_decimal_injective(a.x as nat, b.x as nat);
    text::lemma_split_last(a.tileset, za, b.tileset, zb, '/');
    text::lemma_decimal_injective(a.z as nat, b.z as nat);
}

// ─── No cache ───────────────────────────────────────────────────────────────

/// A cache that keeps nothing.
#[derive(Debug, Clone, Copy)]
pub struct NoCache;

impl NoCache {
    /// There is never a tile.
    pub fn get(&self, _key: &TileKey) -> (r: Option<Vec<u8>>)
        ensures
            r is None,
    {
        None
    }
}

// ─── Memory ─────────────────────────────────────────────────────────────────

/// The map that tiles are kept in: by tileset, zoom, column, row and format.
#[verifier::external_type_specification]
#[verifier::external_body]
#[verifier::reject_recursive_types(K)]
#[verifier::reject_recursive_types(V)]
#[verifier::reject_recursive_types(S)]
pub struct ExDashMap<K, V, S>(dashmap::DashMap<K, V, S>);

/// What the map holds: for each tileset, zoom, column, row and format, the tile.
pub uninterp spec fn tiles_held(
    m: DashMap<(String, u8, u32, u32, String), Vec<u8>>,
) -> Map<(Seq<char>, u8, u32, u32, Seq<char>), Seq<u8>>;

/// No tiles.
pub open spec fn no_tiles() -> Map<(Seq<char>, u8, u32, u32, Seq<char>), Seq<u8>> {
    Map::empty()
}

/// Trusted: `dashmap::DashMap::new` gives a map without entries.
#[verifier::external_body]
fn tiles_new() -> (m: DashMap<(String, u8, u32, u32, String), Vec<u8>>)
    ensures
        tiles_held(m) == no_tiles(),
{
    DashMap::new()
}

/// Trusted: `dashmap::DashMap::get` finds the value of a key, copied here, and nothing
/// where the key has none.
#[verifier::external_body]
fn tiles_get(
    m: &DashMap<(String, u8, u32, u32, String), Vec<u8>>,
    key: &(String, u8, u32, u32, String),
) -> (r: Option<Vec<u8>>)
    ensures
        match r {
            Some(data) => tiles_held(*m).contains_key((key.0@, key.1, key.2, key.3, key.4@))
                && tiles_held(*m)[(key.0@, key.1, key.2, key.3, key.4@)] == data@,
            None => !tiles_held(*m).contains_key((key.0@, key.1, key.2, key.3, key.4@)),
        },
{
    m.get(key).map(|v| v.value().clone())
}

/// Trusted: `dashmap::DashMap::insert` sets the value of a key and leaves every other
/// entry as it is. The caller holds the only reference to the map.
#[verifier::external_body]
fn tiles_insert(
    m: &mut DashMap<(String, u8, u32, u32, String), Vec<u8>>,
    key: (String, u8, u32, u32, String),
    data: Vec<u8>,
)
    ensures
        tiles_held(*final(m)) == tiles_held(*old(m)).insert(
            (key.0@, key.1, key.2, key.3, key.4@),
            data@,
        ),
{
    m.insert(key, data);
}

/// A tile of another tileset.
pub fn is_elsewhere(key: &(String, u8, u32, u32, String), tileset: &str) -> (r: bool)
    ensures
        r == (key.0@ != tileset@),
{
    !str_eq(key.0.as_str(), tileset)
}

/// The map without the tiles of a tileset.
pub open spec fn without_tileset(
    m: Map<(Seq<char>, u8, u32, u32, Seq<char>), Seq<u8>>,
    tileset: Seq<char>,
) -> Map<(Seq<char>, u8, u32, u32, Seq<char>), Seq<u8>> {
    Map::new(
        |k: (Seq<char>, u8, u32, u32, Seq<char>)| m.contains_key(k) && k.0 != tileset,
        |k: (Seq<char>, u8, u32, u32, Seq<char>)| m[k],
    )
}

/// Trusted: `dashmap::DashMap::retain` keeps the entries for which the predicate holds,
/// here those of other tilesets, and drops the rest. The caller holds the only
/// reference to the map.
#[verifier::external_body]
fn tiles_retain(m: &mut DashMap<(String, u8, u32, u32, String), Vec<u8>>, tileset: &str)
    ensures
        tiles_held(*final(m)) == without_tileset(tiles_held(*old(m)), tileset@),
{
    m.retain(|k, _| is_elsewhere(k, tileset));
}

/// An in-process cache.
#[derive(Debug)]
pub struct MemoryCache {
    inner: DashMap<(String, u8, u32, u32, String), Vec<u8>>,
}

impl View for MemoryCache {
    type V = Map<(Seq<char>, u8, u32, u32, Seq<char>), Seq<u8>>;

    closed spec fn view(&self) -> Self::V {
        tiles_held(self.inner)
    }
}

/// A tile key as the in-process cache files it.
pub open spec fn filed(k: KeyView) -> (Seq<char>, u8, u32, u32, Seq<char>) {
    (k.tileset, k.z, k.x, k.y, k.format)
}

impl MemoryCache {
    /// A cache without tiles.
    pub fn new() -> (c: Self)
        ensures
            c@ == no_tiles(),
    {
        MemoryCache { inner: tiles_new() }
    }

    /// The tile kept under a key.
    pub fn get(&self, key: &TileKey) -> (r: Option<Vec<u8>>)
        ensures
            match r {
                Some(data) => self@.contains_key(filed(key@)) && self@[filed(key@)] == data@,
                None => !self@.contains_key(filed(key@)),
            },
    {
        let k = (key.tileset.clone(), key.z, key.x, key.y, key.format.clone());
        tiles_get(&self.inner, &k)
    }

    /// Keep a tile under a key, in place of the one that was there.
    pub fn put(&mut self, key: &TileKey, data: Vec<u8>)
        ensures
            final(self)@ == old(self)@.insert(filed(key@), data@),
    {
        let k = (key.tileset.clone(), key.z, key.x, key.y, key.format.clone());
        tiles_insert(&mut self.inner, k, data);
    }

    /// Drop all tiles of a tileset.
    pub fn clear_tileset(&mut self, tileset: &str)
        ensures
            final(self)@ == without_tileset(old(self)@, tileset@),
    {
        tiles_retain(&mut self.inner, tileset);
    }
}

/// A tile that was put is read back until it is put again, whatever is put elsewhere.
pub proof fn cache_reads_last_write(
    m: Map<(Seq<char>, u8, u32, u32, Seq<char>), Seq<u8>>,
    key: KeyView,
    data: Seq<u8>,
    other: KeyView,
    later: Seq<u8>,
)
    requires
        key != other,
    ensures
        m.insert(filed(key), data).contains_key(filed(key)),
        m.insert(filed(key), data)[filed(key)] == data,
        m.insert(filed(key), data).insert(filed(other), later).contains_key(filed(key)),
        m.insert(filed(key), data).insert(filed(other), later)[filed(key)] == data,
{
}

/// Clearing a tileset drops its tiles and no tile of another one.
pub proof fn clearing_is_exact(
    m: Map<(Seq<char>, u8, u32, u32, Seq<char>), Seq<u8>>,
    tileset: Seq<char>,
    key: KeyView,
)
    ensures
        key.tileset == tileset ==> !without_tileset(m, tileset).contains_key(filed(key)),
        key.tileset != tileset ==> (without_tileset(m, tileset).contains_key(filed(key))
            <==> m.contains_key(filed(key))),
        key.tileset != tileset && m.contains_key(filed(key)) ==> without_tileset(m, tileset)[filed(key)]
            == m[filed(key)],
{
}

// ─── Local filesystem ───────────────────────────────────────────────────────

/// A cache in a directory.
#[derive(Debug)]
pub struct LocalCache {
    pub root: String,
}

impl LocalCache {
    /// A cache in the directory `path`.
    pub fn new(path: &str) -> (c: Self)
        ensures
            c.root@ == path@,
    {
        LocalCache { root: path.to_owned() }
    }

    /// The parts of a tile's path, from the root directory to the file name.
    pub fn tile_path(&self, key: &TileKey) -> (parts: Vec<String>)
        ensures
            parts@.len() == 5,
            parts@[0]@ == self.root@,
            parts@[1]@ == key.tileset@,
            parts@[2]@ == text::decimal(key.z as nat),
            parts@[3]@ == text::decimal(key.x as nat),
            parts@[4]@ == tile_file(key.y as nat, key.format@),
            parts@[4]@ == text::decimal(key.y as nat) + seq!['.'] + key.format@,
    {
        let mut z = String::new();
        push_decimal(&mut z, key.z as u64);
        let mut x = String::new();
        push_decimal(&mut x, key.x as u64);
        let file = file_name(key.y, key.format.as_str());
        let mut parts: Vec<String> = Vec::new();
        parts.push(self.root.clone());
        parts.push(key.tileset.clone());
        parts.push(z);
        parts.push(x);
        parts.push(file);
        parts
    }

    /// The parts of the path of a tileset's directory.
    pub fn tileset_dir(&self, tileset: &str) -> (parts: Vec<String>)
        ensures
            parts@.len() == 2,
            parts@[0]@ == self.root@,
            parts@[1]@ == tileset@,
    {
        let mut parts: Vec<String> = Vec::new();
        parts.push(self.root.clone());
        parts.push(tileset.to_owned());
        parts
    }
}

// ─── Database ───────────────────────────────────────────────────────────────

/// The columns that a tile is found by in a database table.
#[derive(Debug)]
pub struct TileRowKey {
    pub tileset: String,
    pub z: i32,
    pub x: i32,
    pub y: i32,
    pub format: String,
}

/// The columns of a key: the numbers as signed words of the same bits.
pub open spec fn row_key_of(k: KeyView, row: TileRowKey) -> bool {
    &&& row.tileset@ == k.tileset
    &&& row.z == k.z as i32
    &&& row.x == k.x as i32
    &&& row.y == k.y as i32
    &&& row.format@ == k.format
}

impl TileKey {
    /// The columns that the tile is found by in a database table.
    pub fn row_key(&self) -> (row: TileRowKey)
        ensures
            row_key_of(self@, row),
            row.tileset@ == self.tileset@,
            row.format@ == self.format@,
            row.z == self.z,
            self.x <= i32::MAX ==> row.x == self.x,
            self.y <= i32::MAX ==> row.y == self.y,
    {
        TileRowKey {
            tileset: self.tileset.clone(),
            z: self.z as i32,
            x: self.x as i32,
            y: self.y as i32,
            format: self.format.clone(),
        }
    }
}

/// Different tiles have different columns.
pub proof fn rows_distinguish_tiles(a: KeyView, b: KeyView, row: TileRowKey)
    requires
        row_key_of(a, row),
        row_key_of(b, row),
    ensures
        a == b,
{
    let (ax, bx, ay, by) = (a.x, b.x, a.y, b.y);
    assert(ax as i32 == bx as i32 ==> ax == bx) by (bit_vector);
    assert(ay as i32 == by as i32 ==> ay == by) by (bit_vector);
}

// ─── Object store ───────────────────────────────────────────────────────────

/// A cache in an object store, of a kind that only the caller knows.
#[derive(Debug)]
pub struct ObjectStoreCache<S> {
    pub store: S,
    pub prefix: String,
}

/// A path under a prefix; an empty prefix adds nothing.
pub open spec fn under_prefix(prefix: Seq<char>, path: Seq<char>) -> Seq<char> {
    if prefix.len() == 0 {
        path
    } else {
        prefix + "/"@ + path
    }
}

/// The object path of a text.
pub open spec fn stored_at(text: Seq<char>, path: Seq<char>) -> bool {
    path == locate::object_path_of(text) && locate::made_by_parts(text, path)
}

/// An object lies in a directory of an object store: its path goes on after that of the
/// directory and a slash. Every object lies in the root.
pub open spec fn lies_in(path: Seq<char>, dir: Seq<char>) -> bool {
    dir.len() == 0 || exists|rest: Seq<char>|
        rest.len() > 0 && path == #[trigger] locate::slashed(dir, rest)
}

/// Every tile that an object store cache keeps lies in the directory of its tileset.
pub proof fn tiles_lie_in_their_tileset(
    prefix: Seq<char>,
    key: KeyView,
    path: Seq<char>,
    dir: Seq<char>,
)
    requires
        stored_at(under_prefix(prefix, tile_path(key)), path),
        stored_at(under_prefix(prefix, key.tileset), dir),
    ensures
        lies_in(path, dir),
{
    reveal_strlit("/");
    let a = under_prefix(prefix, key.tileset);
    let b = text::decimal(key.z as nat) + seq!['/'] + text::decimal(key.x as nat) + seq!['/']
        + tile_file(key.y as nat, key.format);
    assert(under_prefix(prefix, tile_path(key)) =~= locate::slashed(a, b));
    lemma_decimal_plain(key.z as nat);
    text::lemma_decimal_digits(key.z as nat);
    assert(locate::has_segment(b)) by {
        assert(b[0] == text::decimal(key.z as nat)[0]);
        assert(text::decimal(key.z as nat).contains(text::decimal(key.z as nat)[0]));
    }
    if locate::has_segment(a) {
        let rest = locate::object_path_of(b);
        assert(path == locate::slashed(dir, rest));
        assert(rest.len() > 0);
    }
}

impl<S> ObjectStoreCache<S> {
    /// A cache under a prefix of a store.
    pub fn new(store: S, prefix: &str) -> (c: Self)
        ensures
            c.store == store,
            c.prefix@ == prefix@,
    {
        ObjectStoreCache { store, prefix: prefix.to_owned() }
    }

    /// A path under the cache's prefix.
    pub fn prefixed(&self, path: &str) -> (r: String)
        ensures
            r@ == under_prefix(self.prefix@, path@),
            self.prefix@.len() == 0 ==> r@ == path@,
            self.prefix@.len() > 0 ==> r@ == self.prefix@ + seq!['/'] + path@,
    {
        proof {
            reveal_strlit("/");
        }
        if self.prefix.as_str().unicode_len() == 0 {
            path.to_owned()
        } else {
            let mut r = self.prefix.clone();
            r.append("/");
            r.append(path);
            assert(r@ =~= self.prefix@ + seq!['/'] + path@);
            r
        }
    }

    /// The object path of a tile.
    pub fn tile_path(&self, key: &TileKey) -> (path: String)
        ensures
            stored_at(under_prefix(self.prefix@, tile_path(key@)), path@),
    {
        object_path(self.prefixed(key.to_path().as_str()).as_str())
    }

    /// The object path that all tiles of a tileset lie under.
    pub fn tileset_prefix(&self, tileset: &str) -> (path: String)
        ensures
            stored_at(under_prefix(self.prefix@, tileset@), path@),
    {
        object_path(self.prefixed(tileset).as_str())
    }
}

// ─── Choice of backend ──────────────────────────────────────────────────────

/// The bucket that an object store cache uses.
#[derive(Debug)]
pub struct BucketPlan {
    pub bucket: String,
    pub region: String,
    /// Endpoint, where it is not Amazon's own.
    pub endpoint: Option<String>,
    /// Environment variables that the credentials are read from.
    pub key_var: &'static str,
    pub secret_var: &'static str,
    pub prefix: String,
}

/// The cache to set up.
#[derive(Debug)]
pub enum CachePlan {
    Disabled,
    Memory,
    Local(LocalCache),
    Duckdb(String),
    Bucket(BucketPlan),
}

/// The prefix of an object store cache, `tiles` where none is given.
pub open spec fn prefix_or_tiles(prefix: Option<String>) -> Seq<char> {
    match prefix {
        Some(p) => p@,
        None => "tiles"@,
    }
}

/// The cache that a configuration asks for.
pub open spec fn plan_of(cfg: TileCacheConfig, plan: CachePlan) -> bool {
    match cfg {
        TileCacheConfig::Disabled => plan is Disabled,
        TileCacheConfig::Memory => plan is Memory,
        TileCacheConfig::Local { path } => plan matches CachePlan::Local(c) && c.root@ == path@,
        TileCacheConfig::Duckdb { path } => plan matches CachePlan::Duckdb(p) && p@ == path@,
        TileCacheConfig::S3 { bucket, region, prefix } => {
            &&& plan matches CachePlan::Bucket(b)
            &&& b.bucket@ == bucket@
            &&& b.region@ == region@
            &&& b.endpoint is None
            &&& b.key_var@ == "AWS_ACCESS_KEY_ID"@
            &&& b.secret_var@ == "AWS_SECRET_ACCESS_KEY"@
            &&& b.prefix@ == prefix_or_tiles(prefix)
        },
        TileCacheConfig::R2 { bucket, account_id, prefix } => {
            &&& plan matches CachePlan::Bucket(b)
            &&& b.bucket@ == bucket@
            &&& b.region@ == "auto"@
            &&& b.endpoint is Some
            &&& b.endpoint->0@ == "https://"@ + account_id@ + ".r2.cloudflarestorage.com"@
            &&& b.key_var@ == "R2_ACCESS_KEY_ID"@
            &&& b.secret_var@ == "R2_SECRET_ACCESS_KEY"@
            &&& b.prefix@ == prefix_or_tiles(prefix)
        },
    }
}

/// The cache of a configuration is of its kind and at its place. A bucket of Amazon's own
/// has its region and no endpoint, one of Cloudflare's the endpoint of the account; each
/// reads its own credentials, and keeps tiles under its prefix, `tiles` where none is
/// given.
pub proof fn planned_cache(cfg: TileCacheConfig, plan: CachePlan)
    requires
        plan_of(cfg, plan),
    ensures
        cfg is Disabled <==> plan is Disabled,
        cfg is Memory <==> plan is Memory,
        cfg matches TileCacheConfig::Local { path } ==> plan is Local && plan->Local_0.root@ == path@,
        cfg matches TileCacheConfig::Duckdb { path } ==> plan is Duckdb && plan->Duckdb_0@ == path@,
        plan is Bucket <==> cfg is S3 || cfg is R2,
        cfg matches TileCacheConfig::S3 { bucket, region, prefix } ==> {
            let b = plan->Bucket_0;
            &&& b.bucket@ == bucket@
            &&& b.region@ == region@
            &&& b.endpoint is None
            &&& b.key_var@ == "AWS_ACCESS_KEY_ID"@
            &&& b.secret_var@ == "AWS_SECRET_ACCESS_KEY"@
            &&& prefix matches Some(p) ==> b.prefix@ == p@
            &&& prefix is None ==> b.prefix@ == "tiles"@
        },
        cfg matches TileCacheConfig::R2 { bucket, account_id, prefix } ==> {
            let b = plan->Bucket_0;
            &&& b.bucket@ == bucket@
            &&& b.region@ == "auto"@
            &&& b.endpoint is Some
            &&& b.endpoint->0@ == "https://"@ + account_id@ + ".r2.cloudflarestorage.com"@
            &&& b.key_var@ == "R2_ACCESS_KEY_ID"@
            &&& b.secret_var@ == "R2_SECRET_ACCESS_KEY"@
            &&& prefix matches Some(p) ==> b.prefix@ == p@
            &&& prefix is None ==> b.prefix@ == "tiles"@
        },
{
}

fn prefix_text(prefix: &Option<String>) -> (p: String)
    ensures
        p@ == prefix_or_tiles(*prefix),
{
    match prefix {
        Some(p) => p.clone(),
        None => "tiles".to_owned(),
    }
}

/// The cache that a configuration asks for.
pub fn build_tile_cache(cfg: &TileCacheConfig) -> (plan: CachePlan)
    ensures
        plan_of(*cfg, plan),
{
    match cfg {
        TileCacheConfig::Disabled => CachePlan::Disabled,
        TileCacheConfig::Memory => CachePlan::Memory,
        TileCacheConfig::Local { path } => CachePlan::Local(LocalCache::new(path.as_str())),
        TileCacheConfig::Duckdb { path } => CachePlan::Duckdb(path.clone()),
        TileCacheConfig::S3 { bucket, region, prefix } => CachePlan::Bucket(
            BucketPlan {
                bucket: bucket.clone(),
                region: region.clone(),
                endpoint: None,
                key_var: "AWS_ACCESS_KEY_ID",
                secret_var: "AWS_SECRET_ACCESS_KEY",
                prefix: prefix_text(prefix),
            },
        ),
        TileCacheConfig::R2 { bucket, account_id, prefix } => {
            let mut endpoint = "https://".to_owned();
            endpoint.append(account_id.as_str());
            endpoint.append(".r2.cloudflarestorage.com");
            CachePlan::Bucket(
                BucketPlan {
                    bucket: bucket.clone(),
                    region: "auto".to_owned(),
                    endpoint: Some(endpoint),
                    key_var: "R2_ACCESS_KEY_ID",
                    secret_var: "R2_SECRET_ACCESS_KEY",
                    prefix: prefix_text(prefix),
                },
            )
        },
    }
}

} // verus!
