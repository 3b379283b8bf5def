//! The mosaic index: scenes by the quadkey cells they cover.
use crate::config::S2Config;
use crate::geo;
use crate::geo::{bbox_to_quadkeys, tile_to_covering_quadkeys, TileRange};
use crate::number::Real;
use crate::order;
use crate::order::stable_order;
use crate::stac;
use crate::stac::StacItem;
use crate::textmap;
use crate::textmap::TextMap;
use std::collections::{BTreeMap, HashMap};
use vstd::arithmetic::power2::*;
use vstd::prelude::*;
use vstd::std_specs::hash::*;
use vstd::string::*;

verus! {

// ─── Types ──────────────────────────────────────────────────────────────────

/// A scene that tiles can be rendered from.
#[derive(Debug)]
pub struct SceneRef {
    pub id: String,
    /// URL of each spectral band, by band code.
    pub band_urls: TextMap<String>,
    /// URL of the class layer; absent where it is not read.
    pub scl_url: Option<String>,
    /// Cloud cover in percent.
    pub cloud_cover: Real,
    /// Acquisition time in ISO 8601.
    pub datetime: String,
    /// EPSG code of the UTM zone.
    pub epsg: u32,
    /// WGS84 bounding box: west, south, east, north.
    pub bbox: [Real; 4],
}

/// Scenes, and for each quadkey cell the scenes that cover it.
#[derive(Debug)]
pub struct MosaicIndex {
    pub scenes: Vec<SceneRef>,
    /// Positions in `scenes`, by quadkey.
    pub index: HashMap<u64, Vec<usize>>,
    pub quadkey_zoom: u8,
    pub total_scenes: usize,
    /// Whether lookups order scenes by period, latest first, before cloud cover.
    pub temporal_priority: bool,
}

// ─── Cells ──────────────────────────────────────────────────────────────────

/// The scenes of a cell, where `lists` gives the keys of each scene.
pub open spec fn cell_of(lists: Seq<Seq<u64>>, qk: u64) -> Seq<usize>
    decreases lists.len(),
{
    if lists.len() == 0 {
        Seq::empty()
    } else {
        let before = cell_of(lists.drop_last(), qk);
        if lists.last().contains(qk) {
            before.push((lists.len() - 1) as usize)
        } else {
            before
        }
    }
}

/// The map holds the cells of these lists of keys, and no empty ones.
pub open spec fn holds_cells(m: Map<u64, Vec<usize>>, lists: Seq<Seq<u64>>) -> bool {
    forall|qk: u64|
        #![trigger m.contains_key(qk)]
        (m.contains_key(qk) <==> cell_of(lists, qk).len() > 0) && (m.contains_key(qk) ==> m[qk]@
            == cell_of(lists, qk))
}

/// A cell lists, in ascending order, exactly the scenes with its key.
pub proof fn cell_is_exact(lists: Seq<Seq<u64>>, qk: u64)
    requires
        lists.len() <= usize::MAX,
    ensures
        forall|a: int, b: int|
            0 <= a < b < cell_of(lists, qk).len() ==> #[trigger] cell_of(lists, qk)[a]
                < #[trigger] cell_of(lists, qk)[b],
        forall|k: usize|
            #[trigger] cell_of(lists, qk).contains(k) <==> k < lists.len()
                && lists[k as int].contains(qk),
    decreases lists.len(),
{
    if lists.len() > 0 {
        let less = lists.drop_last();
        cell_is_exact(less, qk);
        let before = cell_of(less, qk);
        let after = cell_of(lists, qk);
        let last = (lists.len() - 1) as usize;
        assert forall|a: int| 0 <= a < before.len() implies #[trigger] before[a] < last by {
            assert(before.contains(before[a]));
        }
        assert forall|k: usize| #[trigger] after.contains(k) <==> k < lists.len()
            && lists[k as int].contains(qk) by {
            if after.contains(k) {
                let a = choose|a: int| 0 <= a < after.len() && after[a] == k;
                if a < before.len() {
                    assert(before.contains(k));
                    assert(less[k as int] == lists[k as int]);
                }
            }
            if k < lists.len() && lists[k as int].contains(qk) {
                if k < last {
                    assert(less[k as int] == lists[k as int]);
                    assert(before.contains(k));
                    let a = choose|a: int| 0 <= a < before.len() && before[a] == k;
                    assert(after[a] == k);
                } else {
                    assert(after[before.len() as int] == k);
                }
            }
        }
    }
}

/// The cell of `qk` while a scene is entered: done for the keys in `some`.
spec fn enters(
    m: Map<u64, Vec<usize>>,
    lists: Seq<Seq<u64>>,
    some: Seq<u64>,
    scene: usize,
    qk: u64,
) -> bool {
    if some.contains(qk) {
        m.contains_key(qk) && m[qk]@ == cell_of(lists, qk).push(scene)
    } else {
        (m.contains_key(qk) <==> cell_of(lists, qk).len() > 0) && (m.contains_key(qk) ==> m[qk]@
            == cell_of(lists, qk))
    }
}

/// The cells while a scene is entered.
spec fn entered(
    m: Map<u64, Vec<usize>>,
    lists: Seq<Seq<u64>>,
    some: Seq<u64>,
    scene: usize,
) -> bool {
    forall|qk: u64| #[trigger] enters(m, lists, some, scene, qk)
}

/// Enter a scene under its keys.
fn add_scene(
    index: &mut HashMap<u64, Vec<usize>>,
    keys: &Vec<u64>,
    scene: usize,
    Ghost(lists): Ghost<Seq<Seq<u64>>>,
)
    requires
        holds_cells(old(index)@, lists),
        keys@.no_duplicates(),
        scene == lists.len(),
    ensures
        holds_cells(final(index)@, lists.push(keys@)),
{
    broadcast use group_hash_axioms;

    proof {
        assert forall|qk: u64| #[trigger] enters(index@, lists, keys@.take(0), scene, qk) by {
            assert(index@.contains_key(qk) || !index@.contains_key(qk));
        }
    }
    for j in 0..keys.len()
        invariant
            keys@.no_duplicates(),
            entered(index@, lists, keys@.take(j as int), scene),
    {
        broadcast use group_hash_axioms;

        let qk: u64 = keys[j];
        let ghost before = index@;
        proof {
            let some = keys@.take(j as int);
            if some.contains(qk) {
                let i = choose|i: int| 0 <= i < some.len() && some[i] == qk;
                assert(keys@[i] == keys@[j as int]);
            }
            assert(enters(before, lists, some, scene, qk));
            if !before.contains_key(qk) {
                assert(cell_of(lists, qk) =~= Seq::empty());
            }
        }
        index.entry(qk).or_insert(Vec::new()).push(scene);
        proof {
            let some = keys@.take(j as int);
            let more = keys@.take(j + 1);
            assert(index@[qk]@ == cell_of(lists, qk).push(scene));
            assert forall|k: u64| #[trigger] enters(index@, lists, more, scene, k) by {
                assert(enters(before, lists, some, scene, k));
                assert(more[j as int] == qk);
                if k != qk {
                    assert(index@.contains_key(k) == before.contains_key(k));
                    if more.contains(k) {
                        let i = choose|i: int| 0 <= i < more.len() && more[i] == k;
                        assert(some[i] == k);
                    } else if some.contains(k) {
                        let i = choose|i: int| 0 <= i < some.len() && some[i] == k;
                        assert(more[i] == k);
                    }
                }
            }
        }
    }
    proof {
        assert(keys@.take(keys@.len() as int) =~= keys@);
        let longer = lists.push(keys@);
        assert(longer.drop_last() =~= lists);
        assert forall|qk: u64|
            #![trigger index@.contains_key(qk)]
            (index@.contains_key(qk) <==> cell_of(longer, qk).len() > 0) && (index@.contains_key(qk)
                ==> index@[qk]@ == cell_of(longer, qk)) by {
            assert(enters(index@, lists, keys@, scene, qk));
        }
    }
}

// ─── Building ───────────────────────────────────────────────────────────────

/// The box of an item; one that gives none is taken to cover the whole extent.
pub open spec fn item_box(item: StacItem, config: S2Config) -> [Real; 4] {
    match item.bbox {
        Some(b) => b,
        None => config.extent,
    }
}

/// The part of a box that lies in an extent.
pub open spec fn clip(b: [Real; 4], extent: [Real; 4]) -> Seq<Real> {
    seq![
        b[0].larger(extent[0]),
        b[1].larger(extent[1]),
        b[2].smaller(extent[2]),
        b[3].smaller(extent[3]),
    ]
}

/// A box has ground in it.
pub open spec fn has_ground(c: Seq<Real>) -> bool {
    !c[2].at_most(c[0]) && !c[3].at_most(c[1])
}

/// The item makes a scene: it has a projection, the class layer where that is read, as
/// many URLs as there are bands, and ground in the extent.
pub open spec fn admissible(item: StacItem, config: S2Config) -> bool {
    &&& item.properties.proj_epsg is Some
    &&& config.scl_masking ==> item.href("scl"@) is Some
    &&& item.requested_urls(config.bands@).len() == config.bands@.len()
    &&& has_ground(clip(item_box(item, config), config.extent))
}

/// The scene that an item makes.
pub open spec fn scene_of(item: StacItem, config: S2Config, s: SceneRef) -> bool {
    &&& s.id == item.id
    &&& s.band_urls@ == item.requested_urls(config.bands@)
    &&& s.scl_url == if config.scl_masking {
        item.href("scl"@)
    } else {
        None
    }
    &&& s.cloud_cover == item.cover()
    &&& s.datetime@ == match item.properties.datetime {
        Some(d) => d@,
        None => Seq::empty(),
    }
    &&& Some(s.epsg) == item.properties.proj_epsg
    &&& s.bbox == item_box(item, config)
}

/// An item makes a scene only where the bands are different, and its scene has the URL of
/// every band and of no others.
pub proof fn scenes_have_every_band(item: StacItem, config: S2Config, s: SceneRef)
    requires
        admissible(item, config),
        scene_of(item, config, s),
    ensures
        stac::different(config.bands@),
        forall|i: int|
            0 <= i < config.bands@.len() ==> s.band_urls@.contains_key(
                (#[trigger] config.bands@[i])@,
            ) && Some(s.band_urls@[config.bands@[i]@]) == item.band_url(config.bands@[i]@),
        forall|k: Seq<char>| #[trigger]
            s.band_urls@.contains_key(k) ==> exists|i: int|
                0 <= i < config.bands@.len() && (#[trigger] config.bands@[i])@ == k,
{
    stac::full_band_count(item, config.bands@);
}

/// The part of a box that lies in an extent, if there is any ground in it.
pub fn clip_to_extent(b: &[Real; 4], extent: &[Real; 4]) -> (r: Option<[Real; 4]>)
    ensures
        match r {
            Some(c) => c@ == clip(*b, *extent) && has_ground(c@),
            None => !has_ground(clip(*b, *extent)),
        },
        r matches Some(c) ==> forall|k: int|
            #![trigger c@[k]]
            0 <= k < 4 && !b@[k].nan() && !extent@[k].nan() ==> {
                &&& k < 2 ==> b@[k].at_most(c@[k]) && extent@[k].at_most(c@[k])
                &&& k >= 2 ==> c@[k].at_most(b@[k]) && c@[k].at_most(extent@[k])
            },
{
    let c = [
        b[0].max(&extent[0]),
        b[1].max(&extent[1]),
        b[2].min(&extent[2]),
        b[3].min(&extent[3]),
    ];
    assert(c@ =~= clip(*b, *extent));
    if c[2].le(&c[0]) || c[3].le(&c[1]) {
        None
    } else {
        Some(c)
    }
}

/// The ground of a box in an extent lies within both on all four sides, and each of its
/// sides is a side of one of them. There is such ground exactly when there is a point
/// strictly inside both. Points are given in half steps of the order of the numbers, so
/// that there is one between any two different numbers.
pub proof fn clipped_ground(b: [Real; 4], extent: [Real; 4])
    requires
        forall|k: int| 0 <= k < 4 ==> !(#[trigger] b[k]).nan() && !extent[k].nan(),
        forall|k: int| 0 <= k < 4 ==> !(#[trigger] extent[k]).nan(),
    ensures
        clip(b, extent).len() == 4,
        extent[0].at_most(clip(b, extent)[0]),
        extent[1].at_most(clip(b, extent)[1]),
        clip(b, extent)[2].at_most(extent[2]),
        clip(b, extent)[3].at_most(extent[3]),
        b[0].at_most(clip(b, extent)[0]),
        b[1].at_most(clip(b, extent)[1]),
        clip(b, extent)[2].at_most(b[2]),
        clip(b, extent)[3].at_most(b[3]),
        forall|k: int|
            0 <= k < 4 ==> #[trigger] clip(b, extent)[k] == b[k] || clip(b, extent)[k] == extent[k],
        has_ground(clip(b, extent)) <==> exists|lon: int, lat: int|
            {
                &&& #[trigger] inside(b, lon, lat)
                &&& 2 * b[0].rank() < lon < 2 * b[2].rank()
                &&& 2 * b[1].rank() < lat < 2 * b[3].rank()
                &&& 2 * extent[0].rank() < lon < 2 * extent[2].rank()
                &&& 2 * extent[1].rank() < lat < 2 * extent[3].rank()
            },
{
    let c = clip(b, extent);
    assert(!b[0].nan() && !b[1].nan() && !b[2].nan() && !b[3].nan());
    assert(!extent[0].nan() && !extent[1].nan() && !extent[2].nan() && !extent[3].nan());
    assert(c[0] == b[0] || c[0] == extent[0]);
    assert(c[1] == b[1] || c[1] == extent[1]);
    assert(c[2] == b[2] || c[2] == extent[2]);
    assert(c[3] == b[3] || c[3] == extent[3]);
    if has_ground(c) {
        let lon = 2 * c[0].rank() + 1;
        let lat = 2 * c[1].rank() + 1;
        assert(inside(b, lon, lat));
    }
}

/// A point, in half steps of the order of the numbers, lies strictly inside a box.
pub open spec fn inside(b: [Real; 4], lon: int, lat: int) -> bool {
    &&& 2 * b[0].rank() < lon < 2 * b[2].rank()
    &&& 2 * b[1].rank() < lat < 2 * b[3].rank()
}

/// A side that is not a number does not limit the ground: the other box gives it.
pub proof fn clip_without_number(b: [Real; 4], extent: [Real; 4], k: int)
    requires
        0 <= k < 4,
    ensures
        b[k].nan() ==> clip(b, extent)[k] == extent[k],
        extent[k].nan() && !b[k].nan() ==> clip(b, extent)[k] == b[k],
{
}

/// Where neither box gives a number for a side, that axis does not keep an item out.
pub proof fn ground_without_numbers(b: [Real; 4], extent: [Real; 4])
    ensures
        (b[0].nan() && extent[0].nan()) || (b[2].nan() && extent[2].nan()) ==> (has_ground(
            clip(b, extent),
        ) <==> !clip(b, extent)[3].at_most(clip(b, extent)[1])),
        (b[1].nan() && extent[1].nan()) || (b[3].nan() && extent[3].nan()) ==> (has_ground(
            clip(b, extent),
        ) <==> !clip(b, extent)[2].at_most(clip(b, extent)[0])),
{
}

/// Which items make a scene. An item does when it has a projection, the class layer where
/// that is read, an asset for every band with no band asked for twice, and a point
/// strictly inside both its box and the extent; an item without a box is taken to cover
/// the extent.
pub proof fn items_that_make_scenes(item: StacItem, config: S2Config)
    requires
        forall|k: int| 0 <= k < 4 ==> !(#[trigger] config.extent[k]).nan(),
        item.bbox matches Some(b) ==> forall|k: int| 0 <= k < 4 ==> !(#[trigger] b[k]).nan(),
    ensures
        admissible(item, config) <==> {
            &&& item.properties.proj_epsg is Some
            &&& config.scl_masking ==> item.assets@.contains_key("scl"@)
            &&& forall|i: int|
                0 <= i < config.bands@.len() ==> match crate::config::asset_of(
                    (#[trigger] config.bands@[i])@,
                ) {
                    Some(asset) => item.assets@.contains_key(asset),
                    None => false,
                }
            &&& forall|i: int, j: int|
                0 <= i < j < config.bands@.len() ==> (#[trigger] config.bands@[i])@ != (
                #[trigger] config.bands@[j])@
            &&& match item.bbox {
                Some(b) => exists|lon: int, lat: int|
                    {
                        &&& #[trigger] inside(b, lon, lat)
                        &&& 2 * b[0].rank() < lon < 2 * b[2].rank()
                        &&& 2 * b[1].rank() < lat < 2 * b[3].rank()
                        &&& 2 * config.extent[0].rank() < lon < 2 * config.extent[2].rank()
                        &&& 2 * config.extent[1].rank() < lat < 2 * config.extent[3].rank()
                    },
                None => config.extent[0].rank() < config.extent[2].rank() && config.extent[1].rank()
                    < config.extent[3].rank(),
            }
        },
{
    stac::full_band_count(item, config.bands@);
    let b = item_box(item, config);
    assert(!config.extent[0].nan() && !config.extent[1].nan() && !config.extent[2].nan()
        && !config.extent[3].nan());
    assert forall|k: int| 0 <= k < 4 implies !(#[trigger] b[k]).nan() && !config.extent[k].nan() by {
        assert(!config.extent[k].nan());
    }
    clipped_ground(b, config.extent);
    assert(item.has_bands(config.bands@) <==> forall|i: int|
        0 <= i < config.bands@.len() ==> match crate::config::asset_of(
            (#[trigger] config.bands@[i])@,
        ) {
            Some(asset) => item.assets@.contains_key(asset),
            None => false,
        }) by {
        if item.has_bands(config.bands@) {
            assert forall|i: int| 0 <= i < config.bands@.len() implies match crate::config::asset_of(
                (#[trigger] config.bands@[i])@,
            ) {
                Some(asset) => item.assets@.contains_key(asset),
                None => false,
            } by {
                assert(item.band_url(config.bands@[i]@) is Some);
            }
        }
    }
    let e = config.extent;
    if item.bbox is None {
        assert(clip(b, e) =~= e@);
        assert(has_ground(clip(b, e)) <==> e[0].rank() < e[2].rank() && e[1].rank() < e[3].rank());
    } else {
        assert(has_ground(clip(b, e)) <==> exists|lon: int, lat: int|
            {
                &&& #[trigger] inside(b, lon, lat)
                &&& 2 * b[0].rank() < lon < 2 * b[2].rank()
                &&& 2 * b[1].rank() < lat < 2 * b[3].rank()
                &&& 2 * e[0].rank() < lon < 2 * e[2].rank()
                &&& 2 * e[1].rank() < lat < 2 * e[3].rank()
            });
    }
    assert(stac::different(config.bands@) <==> forall|i: int, j: int|
        0 <= i < j < config.bands@.len() ==> (#[trigger] config.bands@[i])@ != (
        #[trigger] config.bands@[j])@);
}

/// What a scene takes over from its item: the id, projection, cloud cover (100 percent
/// where the item gives none), time (empty where it gives none), box (the extent where it
/// gives none), the URL of the class layer only where that is read, and of each band the
/// URL of its asset.
pub proof fn scene_takes_over(item: StacItem, config: S2Config, s: SceneRef)
    requires
        admissible(item, config),
        scene_of(item, config, s),
    ensures
        s.id@ == item.id@,
        item.properties.proj_epsg == Some(s.epsg),
        s.cloud_cover.bits == match item.properties.cloud_cover {
            Some(c) => c.bits,
            None => 0x4059_0000_0000_0000,
        },
        item.properties.datetime matches Some(d) ==> s.datetime@ == d@,
        item.properties.datetime is None ==> s.datetime@.len() == 0,
        forall|k: int|
            0 <= k < 4 ==> (#[trigger] s.bbox[k]) == match item.bbox {
                Some(b) => b[k],
                None => config.extent[k],
            },
        s.scl_url is Some <==> config.scl_masking,
        config.scl_masking ==> s.scl_url->0@ == item.assets@["scl"@].href@,
        forall|i: int|
            0 <= i < config.bands@.len() ==> match crate::config::asset_of(
                (#[trigger] config.bands@[i])@,
            ) {
                Some(asset) => s.band_urls@.contains_key(config.bands@[i]@)
                    && s.band_urls@[config.bands@[i]@]@ == item.assets@[asset].href@,
                None => false,
            },
{
    scenes_have_every_band(item, config, s);
    assert forall|i: int| 0 <= i < config.bands@.len() implies match crate::config::asset_of(
        (#[trigger] config.bands@[i])@,
    ) {
        Some(asset) => s.band_urls@.contains_key(config.bands@[i]@)
            && s.band_urls@[config.bands@[i]@]@ == item.assets@[asset].href@,
        None => false,
    } by {
        assert(s.band_urls@.contains_key(config.bands@[i]@));
    }
}

/// The ground in the extent of an item that makes a scene.
fn scene_extent(item: &StacItem, config: &S2Config) -> (r: Option<[Real; 4]>)
    ensures
        match r {
            Some(c) => admissible(*item, *config) && c@ == clip(
                item_box(*item, *config),
                config.extent,
            ),
            None => !admissible(*item, *config),
        },
{
    if item.epsg().is_none() {
        return None;
    }
    if config.scl_masking && item.scl_url().is_none() {
        return None;
    }
    if item.spectral_urls(&config.bands).len() != config.bands.len() {
        return None;
    }
    match &item.bbox {
        Some(b) => clip_to_extent(b, &config.extent),
        None => clip_to_extent(&config.extent, &config.extent),
    }
}

/// For each item that makes a scene, its ground in the extent.
pub fn scene_extents(items: &Vec<StacItem>, config: &S2Config) -> (r: Vec<Option<[Real; 4]>>)
    ensures
        r@.len() == items@.len(),
        forall|i: int|
            0 <= i < items@.len() ==> match #[trigger] r@[i] {
                Some(c) => admissible(items@[i], *config) && c@ == clip(
                    item_box(items@[i], *config),
                    config.extent,
                ),
                None => !admissible(items@[i], *config),
            },
{
    let mut r: Vec<Option<[Real; 4]>> = Vec::new();
    for i in 0..items.len()
        invariant
            r@.len() == i,
            forall|j: int|
                0 <= j < i ==> match #[trigger] r@[j] {
                    Some(c) => admissible(items@[j], *config) && c@ == clip(
                        item_box(items@[j], *config),
                        config.extent,
                    ),
                    None => !admissible(items@[j], *config),
                },
    {
        r.push(scene_extent(&items[i], config));
    }
    r
}

/// The item at `i` is entered: it makes a scene and covers at least one cell.
pub open spec fn entered_item(
    items: Seq<StacItem>,
    ranges: Seq<Option<TileRange>>,
    config: S2Config,
    i: int,
) -> bool {
    admissible(items[i], config) && ranges[i] is Some && ranges[i]->0.area() > 0
}

/// Positions of the entered items among the first `n`.
pub open spec fn entered_items(
    items: Seq<StacItem>,
    ranges: Seq<Option<TileRange>>,
    config: S2Config,
    n: int,
) -> Seq<int>
    decreases n,
{
    if n <= 0 {
        Seq::empty()
    } else {
        let before = entered_items(items, ranges, config, n - 1);
        if entered_item(items, ranges, config, n - 1) {
            before.push(n - 1)
        } else {
            before
        }
    }
}

/// The keys of the items at these positions.
pub open spec fn key_lists(ranges: Seq<Option<TileRange>>, at: Seq<int>, qz: nat) -> Seq<Seq<u64>> {
    at.map_values(|i: int| ranges[i]->0.keys(qz))
}

/// The tiles of a range exist at the zoom level.
pub open spec fn range_valid(range: TileRange, qz: nat) -> bool {
    range.x_max < pow2(qz) && range.y_max < pow2(qz)
}

/// The index that items make, where `ranges` gives the tiles each item's ground spans.
pub open spec fn index_of_items(
    items: Seq<StacItem>,
    ranges: Seq<Option<TileRange>>,
    config: S2Config,
    ix: MosaicIndex,
) -> bool {
    let at = entered_items(items, ranges, config, items.len() as int);
    &&& ix.scenes@.len() == at.len()
    &&& forall|k: int|
        0 <= k < at.len() ==> scene_of(items[at[k]], config, #[trigger] ix.scenes@[k])
    &&& holds_cells(ix.index@, key_lists(ranges, at, config.quadkey_zoom as nat))
    &&& ix.quadkey_zoom == config.quadkey_zoom
    &&& ix.total_scenes == ix.scenes@.len()
    &&& ix.temporal_priority == config.temporal_priority
}

impl MosaicIndex {
    /// Every cell names scenes that are there.
    pub open spec fn wf(self) -> bool {
        &&& self.quadkey_zoom <= 32
        &&& forall|qk: u64, j: int|
            self.index@.contains_key(qk) && 0 <= j < self.index@[qk]@.len()
                ==> #[trigger] self.index@[qk]@[j] < self.scenes@.len()
    }
}

/// The scene that an item makes.
fn scene_ref(item: &StacItem, config: &S2Config) -> (s: SceneRef)
    requires
        admissible(*item, *config),
    ensures
        scene_of(*item, *config, s),
{
    let bbox: [Real; 4] = match item.bbox {
        Some(b) => b,
        None => config.extent,
    };
    let scl_url: Option<String> = if config.scl_masking {
        item.scl_url()
    } else {
        None
    };
    let datetime: String = match &item.properties.datetime {
        Some(d) => d.clone(),
        None => String::new(),
    };
    SceneRef {
        id: item.id.clone(),
        band_urls: item.spectral_urls(&config.bands),
        scl_url,
        cloud_cover: item.cloud_cover(),
        datetime,
        epsg: item.epsg().unwrap(),
        bbox,
    }
}

/// Enter the items that make a scene, in order, under the cells that their ground spans:
/// `ranges` gives for each item the tiles at the index zoom level that it spans.
pub fn build_index(
    items: &Vec<StacItem>,
    ranges: &Vec<Option<TileRange>>,
    config: &S2Config,
) -> (ix: MosaicIndex)
    requires
        config.quadkey_zoom <= 32,
        ranges@.len() == items@.len(),
        forall|i: int|
            0 <= i < ranges@.len() && (#[trigger] ranges@[i]) is Some ==> range_valid(
                ranges@[i]->0,
                config.quadkey_zoom as nat,
            ),
    ensures
        index_of_items(items@, ranges@, *config, ix),
        ix.wf(),
{
    broadcast use group_hash_axioms;

    let qz: u8 = config.quadkey_zoom;
    let mut scenes: Vec<SceneRef> = Vec::new();
    let mut index: HashMap<u64, Vec<usize>> = HashMap::new();
    let ghost mut at: Seq<int> = Seq::empty();
    assert(key_lists(ranges@, at, qz as nat) =~= Seq::empty());
    for i in 0..items.len()
        invariant
            qz == config.quadkey_zoom,
            qz <= 32,
            ranges@.len() == items@.len(),
            forall|j: int|
                0 <= j < ranges@.len() && (#[trigger] ranges@[j]) is Some ==> range_valid(
                    ranges@[j]->0,
                    qz as nat,
                ),
            at == entered_items(items@, ranges@, *config, i as int),
            scenes@.len() == at.len(),
            forall|k: int|
                0 <= k < at.len() ==> scene_of(items@[at[k]], *config, #[trigger] scenes@[k]),
            holds_cells(index@, key_lists(ranges@, at, qz as nat)),
    {
        let item = &items[i];
        let ground = scene_extent(item, config);
        if let (Some(_), Some(range)) = (ground, ranges[i]) {
            let qks = bbox_to_quadkeys(range, qz);
            proof {
                assert(qks@.len() == range.tile_list().len() == range.area());
                geo::range_keys_are_exact(range, qz as nat);
            }
            if qks.len() > 0 {
                let scene_idx: usize = scenes.len();
                scenes.push(scene_ref(item, config));
                let ghost lists = key_lists(ranges@, at, qz as nat);
                add_scene(&mut index, &qks, scene_idx, Ghost(lists));
                proof {
                    at = at.push(i as int);
                    assert(key_lists(ranges@, at, qz as nat) =~= lists.push(qks@));
                }
            }
        }
    }
    let total_scenes: usize = scenes.len();
    let ix = MosaicIndex {
        scenes,
        index,
        quadkey_zoom: qz,
        total_scenes,
        temporal_priority: config.temporal_priority,
    };
    proof {
        let lists = key_lists(ranges@, at, qz as nat);
        assert forall|qk: u64, j: int|
            ix.index@.contains_key(qk) && 0 <= j < ix.index@[qk]@.len() implies
            #[trigger] ix.index@[qk]@[j] < ix.scenes@.len() by {
            cell_is_exact(lists, qk);
            assert(cell_of(lists, qk).contains(ix.index@[qk]@[j]));
        }
    }
    ix
}

// ─── Scene order ────────────────────────────────────────────────────────────

/// A decimal digit.
pub open spec fn is_digit(c: char) -> bool {
    '0' <= c && c <= '9'
}

/// Value of a decimal digit.
pub open spec fn digit(c: char) -> int {
    c as int - '0' as int
}

/// Months since year 0 of a time that starts with year and month, as in `2024-06`;
/// 0 for any other text.
pub open spec fn period(t: Seq<char>) -> int {
    if t.len() >= 7 && is_digit(t[0]) && is_digit(t[1]) && is_digit(t[2]) && is_digit(t[3]) && t[4]
        == '-' && is_digit(t[5]) && is_digit(t[6]) {
        (digit(t[0]) * 1000 + digit(t[1]) * 100 + digit(t[2]) * 10 + digit(t[3])) * 12 + digit(t[5])
            * 10 + digit(t[6])
    } else {
        0
    }
}

/// What a scene is ordered by: the period, latest first, where that has priority, and
/// cloud cover.
pub open spec fn scene_key(s: SceneRef, temporal: bool) -> (int, int) {
    (
        if temporal {
            -period(s.datetime@)
        } else {
            0
        },
        s.cloud_cover.rank(),
    )
}

/// Value of a digit of a text, if there is one at the position.
fn digit_at(t: &str, i: usize) -> (d: Option<i64>)
    requires
        i < t@.len(),
    ensures
        match d {
            Some(v) => is_digit(t@[i as int]) && v == digit(t@[i as int]) && 0 <= v <= 9,
            None => !is_digit(t@[i as int]),
        },
{
    let c: char = t.get_char(i);
    if '0' <= c && c <= '9' {
        Some((c as u32 - '0' as u32) as i64)
    } else {
        None
    }
}

/// Months since year 0 of a time.
fn period_of(t: &str) -> (p: i64)
    ensures
        p == period(t@),
        0 <= p <= 120087,
{
    if t.unicode_len() < 7 {
        return 0;
    }
    if t.get_char(4) != '-' {
        return 0;
    }
    match (digit_at(t, 0), digit_at(t, 1), digit_at(t, 2), digit_at(t, 3), digit_at(t, 5), digit_at(
        t,
        6,
    )) {
        (Some(a), Some(b), Some(c), Some(d), Some(e), Some(f)) => (a * 1000 + b * 100 + c * 10 + d)
            * 12 + e * 10 + f,
        _ => 0,
    }
}

impl SceneRef {
    /// What the scene is ordered by.
    pub fn order_key(&self, temporal: bool) -> (k: (i64, i64))
        ensures
            (k.0 as int, k.1 as int) == scene_key(*self, temporal),
    {
        let first: i64 = if temporal {
            -period_of(self.datetime.as_str())
        } else {
            0
        };
        (first, self.cloud_cover.order())
    }
}

// ─── Lookup ─────────────────────────────────────────────────────────────────

/// A list of scenes with those of a cell added that are not in it yet.
pub open spec fn with_cell(found: Seq<usize>, cell: Seq<usize>) -> Seq<usize>
    decreases cell.len(),
{
    if cell.len() == 0 {
        found
    } else {
        let f = with_cell(found, cell.drop_last());
        if f.contains(cell.last()) {
            f
        } else {
            f.push(cell.last())
        }
    }
}

/// The scenes of some cells, each once, in the order in which they are met.
pub open spec fn gather(m: Map<u64, Vec<usize>>, keys: Seq<u64>) -> Seq<usize>
    decreases keys.len(),
{
    if keys.len() == 0 {
        Seq::empty()
    } else {
        let f = gather(m, keys.drop_last());
        if m.contains_key(keys.last()) {
            with_cell(f, m[keys.last()]@)
        } else {
            f
        }
    }
}

/// Two boxes overlap.
pub open spec fn overlaps(b: [Real; 4], t: [Real; 4]) -> bool {
    t[0].below(b[2]) && b[0].below(t[2]) && t[1].below(b[3]) && b[1].below(t[3])
}

/// Those of the scenes found whose box overlaps another one.
pub open spec fn overlapping(scenes: Seq<SceneRef>, found: Seq<usize>, t: [Real; 4]) -> Seq<usize>
    decreases found.len(),
{
    if found.len() == 0 {
        found
    } else {
        let f = overlapping(scenes, found.drop_last(), t);
        if overlaps(scenes[found.last() as int].bbox, t) {
            f.push(found.last())
        } else {
            f
        }
    }
}

/// The keys that the scenes found are ordered by.
pub open spec fn found_keys(ix: MosaicIndex, found: Seq<usize>) -> Seq<(i64, i64)> {
    found.map_values(
        |i: usize|
            {
                let k = scene_key(ix.scenes@[i as int], ix.temporal_priority);
                (k.0 as i64, k.1 as i64)
            },
    )
}

/// `out` is the first `max` of the scenes found, in stable order by key.
pub open spec fn best_of(ix: MosaicIndex, found: Seq<usize>, max: nat, out: Seq<usize>) -> bool {
    exists|p: Seq<usize>|
        {
            &&& #[trigger] order::arranged(found_keys(ix, found), p)
            &&& order::lists_range(p, 0, found.len() as int)
            &&& out.len() == if max < found.len() {
                max
            } else {
                found.len()
            }
            &&& forall|i: int| 0 <= i < out.len() ==> #[trigger] out[i] == found[p[i] as int]
        }
}

/// The scenes that a lookup gives of its candidates, at most `max`.
pub open spec fn best_scenes(ix: MosaicIndex, candidates: Seq<usize>, max: nat, r: Seq<&SceneRef>) -> bool {
    exists|out: Seq<usize>|
        {
            &&& #[trigger] best_of(ix, candidates, max, out)
            &&& r.len() == out.len()
            &&& forall|i: int| 0 <= i < r.len() ==> *(#[trigger] r[i]) == ix.scenes@[out[i] as int]
        }
}

impl MosaicIndex {
    /// The scenes of some cells, each once, in the order in which they are met.
    fn collect(&self, keys: &Vec<u64>) -> (found: Vec<usize>)
        requires
            self.wf(),
        ensures
            found@ == gather(self.index@, keys@),
            forall|i: int| 0 <= i < found@.len() ==> #[trigger] found@[i] < self.scenes@.len(),
    {
        broadcast use group_hash_axioms;

        let n: usize = self.scenes.len();
        let mut seen: Vec<bool> = Vec::new();
        for i in 0..n
            invariant
                seen@.len() == i,
                forall|j: int| 0 <= j < i ==> !(#[trigger] seen@[j]),
        {
            seen.push(false);
        }
        let mut found: Vec<usize> = Vec::new();
        assert(keys@.take(0) =~= Seq::empty());
        for i in 0..keys.len()
            invariant
                self.wf(),
                n == self.scenes@.len(),
                seen@.len() == n,
                found@ == gather(self.index@, keys@.take(i as int)),
                forall|j: int| 0 <= j < found@.len() ==> #[trigger] found@[j] < n,
                forall|k: usize| k < n ==> (#[trigger] seen@[k as int] <==> found@.contains(k)),
        {
            broadcast use group_hash_axioms;

            let ghost start = found@;
            proof {
                assert(keys@.take(i + 1).drop_last() =~= keys@.take(i as int));
            }
            if let Some(cell) = self.index.get(&keys[i]) {
                assert(cell@.take(0) =~= Seq::empty());
                for c in 0..cell.len()
                    invariant
                        n == self.scenes@.len(),
                        seen@.len() == n,
                        forall|j: int| 0 <= j < cell@.len() ==> #[trigger] cell@[j] < n,
                        found@ == with_cell(start, cell@.take(c as int)),
                        forall|j: int| 0 <= j < found@.len() ==> #[trigger] found@[j] < n,
                        forall|k: usize|
                            k < n ==> (#[trigger] seen@[k as int] <==> found@.contains(k)),
                {
                    let at: usize = cell[c];
                    let ghost before = found@;
                    let ghost flags = seen@;
                    proof {
                        assert(cell@.take(c + 1).drop_last() =~= cell@.take(c as int));
                    }
                    if !seen[at] {
                        seen.set(at, true);
                        found.push(at);
                        proof {
                            assert forall|k: usize| k < n implies (#[trigger] seen@[k as int]
                                <==> found@.contains(k)) by {
                                assert(flags[k as int] <==> before.contains(k));
                                if before.contains(k) {
                                    let j = choose|j: int| 0 <= j < before.len() && before[j] == k;
                                    assert(found@[j] == k);
                                }
                                if k == at {
                                    assert(found@[before.len() as int] == k);
                                }
                                if found@.contains(k) && k != at {
                                    let j = choose|j: int| 0 <= j < found@.len() && found@[j] == k;
                                    assert(before[j] == k);
                                }
                            }
                        }
                    }
                }
                assert(cell@.take(cell@.len() as int) =~= cell@);
            }
        }
        assert(keys@.take(keys@.len() as int) =~= keys@);
        found
    }

    /// The first `max` of the scenes found, ordered by key.
    fn rank(&self, found: &Vec<usize>, max_scenes: usize) -> (out: Vec<usize>)
        requires
            forall|i: int| 0 <= i < found@.len() ==> #[trigger] found@[i] < self.scenes@.len(),
        ensures
            best_of(*self, found@, max_scenes as nat, out@),
            forall|i: int| 0 <= i < out@.len() ==> #[trigger] out@[i] < self.scenes@.len(),
    {
        let mut keys: Vec<(i64, i64)> = Vec::new();
        for i in 0..found.len()
            invariant
                forall|j: int| 0 <= j < found@.len() ==> #[trigger] found@[j] < self.scenes@.len(),
                keys@.len() == i,
                forall|j: int| 0 <= j < i ==> #[trigger] keys@[j] == found_keys(*self, found@)[j],
        {
            keys.push(self.scenes[found[i]].order_key(self.temporal_priority));
        }
        assert(keys@ =~= found_keys(*self, found@));
        let p = stable_order(&keys);
        proof {
            assert forall|i: int| 0 <= i < p@.len() implies #[trigger] p@[i] < found@.len() by {
                assert(p@.contains(p@[i]));
            }
        }
        let n: usize = if max_scenes < p.len() {
            max_scenes
        } else {
            p.len()
        };
        let mut out: Vec<usize> = Vec::new();
        for i in 0..n
            invariant
                n <= p@.len(),
                forall|j: int| 0 <= j < p@.len() ==> #[trigger] p@[j] < found@.len(),
                forall|j: int| 0 <= j < found@.len() ==> #[trigger] found@[j] < self.scenes@.len(),
                out@.len() == i,
                forall|j: int| 0 <= j < i ==> #[trigger] out@[j] == found@[p@[j] as int],
                forall|j: int| 0 <= j < i ==> #[trigger] out@[j] < self.scenes@.len(),
        {
            out.push(found[p[i]]);
        }
        assert(order::arranged(found_keys(*self, found@), p@));
        out
    }

    /// The scenes at some positions.
    fn scenes_at(&self, at: &Vec<usize>) -> (r: Vec<&SceneRef>)
        requires
            forall|i: int| 0 <= i < at@.len() ==> #[trigger] at@[i] < self.scenes@.len(),
        ensures
            r@.len() == at@.len(),
            forall|i: int| 0 <= i < r@.len() ==> *(#[trigger] r@[i]) == self.scenes@[at@[i] as int],
    {
        let mut r: Vec<&SceneRef> = Vec::new();
        for i in 0..at.len()
            invariant
                forall|j: int| 0 <= j < at@.len() ==> #[trigger] at@[j] < self.scenes@.len(),
                r@.len() == i,
                forall|j: int| 0 <= j < i ==> *(#[trigger] r@[j]) == self.scenes@[at@[j] as int],
        {
            r.push(&self.scenes[at[i]]);
        }
        r
    }

    /// The scenes met in the cells of a rectangle.
    pub open spec fn range_candidates(self, range: TileRange) -> Seq<usize> {
        gather(self.index@, range.keys(self.quadkey_zoom as nat))
    }

    /// The scenes met in the cells that cover a tile and whose box overlaps the tile's.
    pub open spec fn tile_candidates(
        self,
        z: u8,
        x: u32,
        y: u32,
        tile_wgs84: [Real; 4],
    ) -> Seq<usize> {
        overlapping(
            self.scenes@,
            gather(
                self.index@,
                geo::covering_keys(z as nat, x as nat, y as nat, self.quadkey_zoom as nat),
            ),
            tile_wgs84,
        )
    }

    /// The tile's cells can be addressed.
    pub open spec fn tile_addressable(self, z: u8, x: u32, y: u32) -> bool {
        let d = (self.quadkey_zoom - z) as nat;
        &&& self.quadkey_zoom <= z ==> z - self.quadkey_zoom < 32
        &&& self.quadkey_zoom > z ==> d < 16 && geo::shifted(x as nat, d) + pow2(d) <= u32::MAX
            && geo::shifted(y as nat, d) + pow2(d) <= u32::MAX
    }

    /// The tile's cells can be addressed.
    pub fn is_addressable(&self, z: u8, x: u32, y: u32) -> (r: bool)
        ensures
            r == self.tile_addressable(z, x, y),
    {
        if self.quadkey_zoom <= z {
            return z - self.quadkey_zoom < 32;
        }
        let d: u8 = self.quadkey_zoom - z;
        if d >= 16 {
            return false;
        }
        let cells: u32 = 1u32 << d;
        let x0: u32 = x << d;
        let y0: u32 = y << d;
        proof {
            geo::lemma_shl_shifted(x, d);
            geo::lemma_shl_shifted(y, d);
            geo::lemma_shl_shifted(1, d);
            lemma2_to64();
            lemma_pow2_strictly_increases(d as nat, 16);
            vstd::arithmetic::div_mod::lemma_small_mod(pow2(d as nat), 0x1_0000_0000);
        }
        x0 as u64 + cells as u64 <= u32::MAX as u64 && y0 as u64 + cells as u64 <= u32::MAX as u64
    }

    /// The best scenes for a tile, at most `max_scenes`. Scenes that share a cell with
    /// the tile but whose box does not overlap its own are left out before the cut.
    pub fn scenes_for_tile(
        &self,
        z: u8,
        x: u32,
        y: u32,
        max_scenes: usize,
        tile_wgs84: [Real; 4],
    ) -> (r: Vec<&SceneRef>)
        requires
            self.wf(),
            self.tile_addressable(z, x, y),
        ensures
            best_scenes(
                *self,
                self.tile_candidates(z, x, y, tile_wgs84),
                max_scenes as nat,
                r@,
            ),
            r@.len() <= max_scenes,
            forall|i: int|
                0 <= i < r@.len() ==> {
                    let b = (#[trigger] r@[i]).bbox;
                    &&& tile_wgs84[0].below(b[2])
                    &&& b[0].below(tile_wgs84[2])
                    &&& tile_wgs84[1].below(b[3])
                    &&& b[1].below(tile_wgs84[3])
                },
    {
        let keys = tile_to_covering_quadkeys(z, x, y, self.quadkey_zoom);
        let found = self.collect(&keys);
        let mut near: Vec<usize> = Vec::new();
        assert(found@.take(0) =~= Seq::empty());
        for i in 0..found.len()
            invariant
                forall|j: int| 0 <= j < found@.len() ==> #[trigger] found@[j] < self.scenes@.len(),
                near@ == overlapping(self.scenes@, found@.take(i as int), tile_wgs84),
                forall|j: int| 0 <= j < near@.len() ==> #[trigger] near@[j] < self.scenes@.len(),
        {
            assert(found@.take(i + 1).drop_last() =~= found@.take(i as int));
            let b = &self.scenes[found[i]].bbox;
            if tile_wgs84[0].lt(&b[2]) && b[0].lt(&tile_wgs84[2]) && tile_wgs84[1].lt(&b[3])
                && b[1].lt(&tile_wgs84[3]) {
                near.push(found[i]);
            }
        }
        assert(found@.take(found@.len() as int) =~= found@);
        let out = self.rank(&near, max_scenes);
        assert(near@ == self.tile_candidates(z, x, y, tile_wgs84));
        assert(best_of(
            *self,
            self.tile_candidates(z, x, y, tile_wgs84),
            max_scenes as nat,
            out@,
        ));
        let r = self.scenes_at(&out);
        proof {
            assert forall|i: int| 0 <= i < r@.len() implies {
                let b = (#[trigger] r@[i]).bbox;
                &&& tile_wgs84[0].below(b[2])
                &&& b[0].below(tile_wgs84[2])
                &&& tile_wgs84[1].below(b[3])
                &&& b[1].below(tile_wgs84[3])
            } by {
                returned_scenes_share_ground(
                    *self,
                    z,
                    x,
                    y,
                    tile_wgs84,
                    max_scenes as nat,
                    r@,
                    i,
                );
            }
        }
        r
    }

    /// The best scenes for the cells in a rectangle, at most `max_scenes`.
    pub fn scenes_for_bbox(&self, range: TileRange, max_scenes: usize) -> (r: Vec<&SceneRef>)
        requires
            self.wf(),
        ensures
            best_scenes(*self, self.range_candidates(range), max_scenes as nat, r@),
            r@.len() <= max_scenes,
    {
        let keys = bbox_to_quadkeys(range, self.quadkey_zoom);
        let found = self.collect(&keys);
        let out = self.rank(&found, max_scenes);
        self.scenes_at(&out)
    }

    /// Number of scenes.
    pub fn scene_count(&self) -> (n: usize)
        ensures
            n == self.scenes@.len(),
    {
        self.scenes.len()
    }

    /// Number of cells with a scene.
    pub fn index_cell_count(&self) -> (n: usize)
        ensures
            n == self.index@.len(),
    {
        broadcast use group_hash_axioms;

        self.index.len()
    }
}

// ─── What lookups find ──────────────────────────────────────────────────────

/// Adding a cell adds its scenes and repeats none.
proof fn lemma_with_cell(found: Seq<usize>, cell: Seq<usize>)
    requires
        found.no_duplicates(),
    ensures
        with_cell(found, cell).no_duplicates(),
        forall|k: usize|
            #[trigger] with_cell(found, cell).contains(k) <==> found.contains(k) || cell.contains(k),
    decreases cell.len(),
{
    if cell.len() > 0 {
        let less = cell.drop_last();
        lemma_with_cell(found, less);
        let f = with_cell(found, less);
        let g = with_cell(found, cell);
        assert forall|k: usize| #[trigger] g.contains(k) <==> found.contains(k) || cell.contains(k) by {
            if g.contains(k) {
                let i = choose|i: int| 0 <= i < g.len() && g[i] == k;
                if i < f.len() {
                    assert(f.contains(k));
                    if less.contains(k) {
                        let j = choose|j: int| 0 <= j < less.len() && less[j] == k;
                        assert(cell[j] == k);
                    }
                } else {
                    assert(cell[cell.len() - 1] == k);
                }
            }
            if found.contains(k) || cell.contains(k) {
                if cell.contains(k) {
                    let j = choose|j: int| 0 <= j < cell.len() && cell[j] == k;
                    if j < less.len() {
                        assert(less[j] == k);
                    }
                }
                if f.contains(k) {
                    let i = choose|i: int| 0 <= i < f.len() && f[i] == k;
                    assert(g[i] == k);
                } else {
                    assert(k == cell.last());
                    assert(g[f.len() as int] == k);
                }
            }
        }
    }
}

/// A scene is met exactly when it is in one of the cells, and it is met once.
pub proof fn gather_is_exact(m: Map<u64, Vec<usize>>, keys: Seq<u64>)
    ensures
        gather(m, keys).no_duplicates(),
        forall|k: usize|
            #[trigger] gather(m, keys).contains(k) <==> exists|i: int|
                0 <= i < keys.len() && m.contains_key(#[trigger] keys[i]) && m[keys[i]]@.contains(k),
    decreases keys.len(),
{
    if keys.len() > 0 {
        let less = keys.drop_last();
        gather_is_exact(m, less);
        let f = gather(m, less);
        let g = gather(m, keys);
        if m.contains_key(keys.last()) {
            lemma_with_cell(f, m[keys.last()]@);
        }
        assert forall|k: usize| #[trigger] g.contains(k) <==> exists|i: int|
            0 <= i < keys.len() && m.contains_key(#[trigger] keys[i]) && m[keys[i]]@.contains(k) by {
            if g.contains(k) {
                if f.contains(k) {
                    let i = choose|i: int|
                        0 <= i < less.len() && m.contains_key(#[trigger] less[i])
                            && m[less[i]]@.contains(k);
                    assert(keys[i] == less[i]);
                } else {
                    assert(m.contains_key(keys[keys.len() - 1]));
                }
            }
            if exists|i: int|
                0 <= i < keys.len() && m.contains_key(#[trigger] keys[i]) && m[keys[i]]@.contains(k) {
                let i = choose|i: int|
                    0 <= i < keys.len() && m.contains_key(#[trigger] keys[i])
                        && m[keys[i]]@.contains(k);
                if i < less.len() {
                    assert(less[i] == keys[i]);
                    assert(f.contains(k));
                }
            }
        }
    }
}

/// Looking up one more cell leaves what was met as it is and adds, in their order, the
/// scenes of the cell that were not met yet.
pub proof fn cells_are_met_in_turn(m: Map<u64, Vec<usize>>, keys: Seq<u64>, qk: u64)
    ensures
        gather(m, Seq::empty()).len() == 0,
        gather(m, keys).is_prefix_of(gather(m, keys.push(qk))),
        !m.contains_key(qk) ==> gather(m, keys.push(qk)) == gather(m, keys),
        m.contains_key(qk) ==> gather(m, keys.push(qk)).skip(gather(m, keys).len() as int) == m[qk]@.filter(
            |k: usize| !gather(m, keys).contains(k),
        ) || !m[qk]@.no_duplicates(),
{
    assert(keys.push(qk).drop_last() =~= keys);
    let f = gather(m, keys);
    if m.contains_key(qk) {
        gather_is_exact(m, keys);
        lemma_with_cell_order(f, m[qk]@);
    }
}

/// Adding a cell appends, in their order, those of its scenes that are new.
proof fn lemma_with_cell_order(found: Seq<usize>, cell: Seq<usize>)
    requires
        found.no_duplicates(),
    ensures
        found.is_prefix_of(with_cell(found, cell)),
        cell.no_duplicates() ==> with_cell(found, cell).skip(found.len() as int) == cell.filter(
            |k: usize| !found.contains(k),
        ),
    decreases cell.len(),
{
    reveal(Seq::filter);
    let fresh = |k: usize| !found.contains(k);
    let w = with_cell(found, cell);
    if cell.len() == 0 {
        assert(w.skip(found.len() as int) =~= cell.filter(fresh));
    } else {
        let less = cell.drop_last();
        lemma_with_cell_order(found, less);
        lemma_with_cell(found, less);
        let f = with_cell(found, less);
        let n = found.len() as int;
        assert(f.subrange(0, n) =~= found);
        assert(w.subrange(0, n) =~= found);
        if cell.no_duplicates() {
            if less.contains(cell.last()) {
                let j = choose|j: int| 0 <= j < less.len() && less[j] == cell.last();
                assert(cell[j] == cell[cell.len() - 1]);
            }
            if f.contains(cell.last()) {
                assert(found.contains(cell.last()));
            } else {
                assert(w.skip(n) =~= f.skip(n).push(cell.last()));
            }
        }
    }
}

/// In an index built from items, looking up a tile's cells meets exactly the scenes
/// whose tiles share ground with it.
pub proof fn tile_lookup_is_exact(
    items: Seq<StacItem>,
    ranges: Seq<Option<TileRange>>,
    config: S2Config,
    ix: MosaicIndex,
    z: nat,
    x: nat,
    y: nat,
    k: usize,
)
    requires
        index_of_items(items, ranges, config, ix),
        ranges.len() == items.len(),
        config.quadkey_zoom <= 32,
        forall|i: int|
            0 <= i < ranges.len() && (#[trigger] ranges[i]) is Some ==> range_valid(
                ranges[i]->0,
                config.quadkey_zoom as nat,
            ),
        z <= 32,
        x < pow2(z),
        y < pow2(z),
        k < ix.scenes@.len(),
    ensures
        gather(ix.index@, geo::covering_keys(z, x, y, ix.quadkey_zoom as nat)).contains(k) <==> exists|
            tx: u32,
            ty: u32,
        |
            #[trigger] ranges[entered_items(items, ranges, config, items.len() as int)[k as int]]->0.has(
                tx as int,
                ty as int,
            ) && geo::nested(z, x, y, ix.quadkey_zoom as nat, tx as nat, ty as nat),
{
    let qz = ix.quadkey_zoom as nat;
    let keys = geo::covering_keys(z, x, y, qz);
    let at = entered_items(items, ranges, config, items.len() as int);
    let lists = key_lists(ranges, at, qz);
    lemma_entered(items, ranges, config, items.len() as int, k as int);
    let range = ranges[at[k as int]]->0;
    gather_is_exact(ix.index@, keys);
    geo::range_keys_are_exact(range, qz);
    assert(lists[k as int] == range.keys(qz));
    let found = gather(ix.index@, keys);
    if found.contains(k) {
        let i = choose|i: int|
            0 <= i < keys.len() && ix.index@.contains_key(#[trigger] keys[i])
                && ix.index@[keys[i]]@.contains(k);
        let qk = keys[i];
        cell_is_exact(lists, qk);
        assert(cell_of(lists, qk).contains(k));
        assert(range.keys(qz).contains(qk));
        let t = choose|t: int| 0 <= t < range.keys(qz).len() && range.keys(qz)[t] == qk;
        let (tx, ty) = range.tile_list()[t];
        geo::tile_list_is_exact(range);
        assert(range.tile_list().contains((tx, ty)));
        assert(range.has(tx as int, ty as int));
        assert(keys.contains(qk));
        geo::covering_is_exact(z, x, y, qz, tx as nat, ty as nat);
        assert(geo::nested(z, x, y, qz, tx as nat, ty as nat));
    }
    if exists|tx: u32, ty: u32|
        #[trigger] range.has(tx as int, ty as int) && geo::nested(
            z,
            x,
            y,
            qz,
            tx as nat,
            ty as nat,
        ) {
        let (tx, ty) = choose|tx: u32, ty: u32|
            #[trigger] range.has(tx as int, ty as int) && geo::nested(
                z,
                x,
                y,
                qz,
                tx as nat,
                ty as nat,
            );
        let qk = geo::quadkey(tx as nat, ty as nat, qz) as u64;
        geo::covering_is_exact(z, x, y, qz, tx as nat, ty as nat);
        assert(range.keys(qz).contains(qk));
        assert(keys.contains(qk));
        let i = choose|i: int| 0 <= i < keys.len() && keys[i] == qk;
        cell_is_exact(lists, qk);
        assert(cell_of(lists, qk).contains(k));
        assert(ix.index@.contains_key(keys[i]));
        assert(ix.index@[keys[i]]@.contains(k));
    }
}

/// In an index built from items, looking up the cells of a rectangle meets exactly the
/// scenes whose tiles lie in it.
pub proof fn bbox_lookup_is_exact(
    items: Seq<StacItem>,
    ranges: Seq<Option<TileRange>>,
    config: S2Config,
    ix: MosaicIndex,
    range: TileRange,
    k: usize,
)
    requires
        index_of_items(items, ranges, config, ix),
        ranges.len() == items.len(),
        config.quadkey_zoom <= 32,
        forall|i: int|
            0 <= i < ranges.len() && (#[trigger] ranges[i]) is Some ==> range_valid(
                ranges[i]->0,
                config.quadkey_zoom as nat,
            ),
        range_valid(range, config.quadkey_zoom as nat),
        k < ix.scenes@.len(),
    ensures
        gather(ix.index@, range.keys(ix.quadkey_zoom as nat)).contains(k) <==> exists|
            tx: u32,
            ty: u32,
        |
            #[trigger] ranges[entered_items(items, ranges, config, items.len() as int)[k as int]]->0.has(
                tx as int,
                ty as int,
            ) && range.has(tx as int, ty as int),
{
    let qz = ix.quadkey_zoom as nat;
    let keys = range.keys(qz);
    let at = entered_items(items, ranges, config, items.len() as int);
    let lists = key_lists(ranges, at, qz);
    lemma_entered(items, ranges, config, items.len() as int, k as int);
    let own = ranges[at[k as int]]->0;
    gather_is_exact(ix.index@, keys);
    geo::range_keys_are_exact(range, qz);
    geo::range_keys_are_exact(own, qz);
    assert(lists[k as int] == own.keys(qz));
    let found = gather(ix.index@, keys);
    if found.contains(k) {
        let i = choose|i: int|
            0 <= i < keys.len() && ix.index@.contains_key(#[trigger] keys[i])
                && ix.index@[keys[i]]@.contains(k);
        let qk = keys[i];
        cell_is_exact(lists, qk);
        assert(cell_of(lists, qk).contains(k));
        assert(own.keys(qz).contains(qk));
        let (tx, ty) = range.tile_list()[i];
        geo::tile_list_is_exact(range);
        assert(range.tile_list().contains((tx, ty)));
        assert(range.has(tx as int, ty as int));
        assert(qk == geo::quadkey(tx as nat, ty as nat, qz) as u64);
        assert(own.has(tx as int, ty as int));
    }
    if exists|tx: u32, ty: u32|
        #[trigger] own.has(tx as int, ty as int) && range.has(tx as int, ty as int) {
        let (tx, ty) = choose|tx: u32, ty: u32|
            #[trigger] own.has(tx as int, ty as int) && range.has(tx as int, ty as int);
        let qk = geo::quadkey(tx as nat, ty as nat, qz) as u64;
        assert(own.keys(qz).contains(qk));
        assert(keys.contains(qk));
        let i = choose|i: int| 0 <= i < keys.len() && keys[i] == qk;
        cell_is_exact(lists, qk);
        assert(cell_of(lists, qk).contains(k));
        assert(ix.index@.contains_key(keys[i]));
        assert(ix.index@[keys[i]]@.contains(k));
    }
}

/// An entered item is one that makes a scene and spans tiles.
proof fn lemma_entered(
    items: Seq<StacItem>,
    ranges: Seq<Option<TileRange>>,
    config: S2Config,
    n: int,
    k: int,
)
    requires
        0 <= n <= items.len(),
        ranges.len() == items.len(),
        0 <= k < entered_items(items, ranges, config, n).len(),
    ensures
        0 <= entered_items(items, ranges, config, n)[k] < n,
        entered_item(items, ranges, config, entered_items(items, ranges, config, n)[k]),
    decreases n,
{
    if n > 0 {
        let before = entered_items(items, ranges, config, n - 1);
        if k < before.len() {
            lemma_entered(items, ranges, config, n - 1, k);
        }
    }
}

/// Every item that makes a scene and spans tiles is entered.
proof fn lemma_all_entered(
    items: Seq<StacItem>,
    ranges: Seq<Option<TileRange>>,
    config: S2Config,
    n: int,
    i: int,
)
    requires
        0 <= i < n <= items.len(),
        ranges.len() == items.len(),
        entered_item(items, ranges, config, i),
    ensures
        entered_items(items, ranges, config, n).contains(i),
    decreases n,
{
    let before = entered_items(items, ranges, config, n - 1);
    let all = entered_items(items, ranges, config, n);
    if i < n - 1 {
        lemma_all_entered(items, ranges, config, n - 1, i);
        let k = choose|k: int| 0 <= k < before.len() && before[k] == i;
        assert(all[k] == i);
    } else {
        assert(all[before.len() as int] == i);
    }
}

/// An index holds a scene for each item that makes one and spans a tile, in the order of
/// the items, and no others; `at` gives the position of the item of each scene. A cell
/// names a scene exactly when the tile of the cell is among those that the item spans.
pub proof fn index_of_its_items(
    items: Seq<StacItem>,
    ranges: Seq<Option<TileRange>>,
    config: S2Config,
    ix: MosaicIndex,
) -> (at: Seq<int>)
    requires
        index_of_items(items, ranges, config, ix),
        ranges.len() == items.len(),
        config.quadkey_zoom <= 32,
        forall|i: int|
            0 <= i < ranges.len() && (#[trigger] ranges[i]) is Some ==> range_valid(
                ranges[i]->0,
                config.quadkey_zoom as nat,
            ),
    ensures
        at.len() == ix.scenes@.len(),
        ix.total_scenes == ix.scenes@.len(),
        ix.quadkey_zoom == config.quadkey_zoom,
        ix.temporal_priority == config.temporal_priority,
        forall|a: int, b: int| 0 <= a < b < at.len() ==> #[trigger] at[a] < #[trigger] at[b],
        forall|k: int|
            0 <= k < at.len() ==> {
                &&& 0 <= #[trigger] at[k] < items.len()
                &&& admissible(items[at[k]], config)
                &&& ranges[at[k]] is Some
                &&& scene_of(items[at[k]], config, ix.scenes@[k])
            },
        forall|i: int|
            0 <= i < items.len() && admissible(items[i], config) && (
            #[trigger] ranges[i]) is Some && (ranges[i]->0).x_min <= (ranges[i]->0).x_max && (
            ranges[i]->0).y_min <= (ranges[i]->0).y_max ==> at.contains(i),
        forall|k: int, x: u32, y: u32|
            0 <= k < at.len() && x < pow2(config.quadkey_zoom as nat) && y < pow2(
                config.quadkey_zoom as nat,
            ) ==> (#[trigger] named(ix, k, x, y) <==> {
                let range = ranges[at[k]]->0;
                range.x_min <= x && x <= range.x_max && range.y_min <= y && y <= range.y_max
            }),
{
    let qz = config.quadkey_zoom as nat;
    let n = items.len() as int;
    let at = entered_items(items, ranges, config, n);
    let lists = key_lists(ranges, at, qz);
    assert(ix.scenes@.len() <= usize::MAX);
    assert forall|a: int, b: int| 0 <= a < b < at.len() implies #[trigger] at[a] < #[trigger] at[b] by {
        lemma_entered_order(items, ranges, config, n, a, b);
    }
    assert forall|k: int| 0 <= k < at.len() implies {
        &&& 0 <= #[trigger] at[k] < items.len()
        &&& admissible(items[at[k]], config)
        &&& ranges[at[k]] is Some
        &&& scene_of(items[at[k]], config, ix.scenes@[k])
    } by {
        lemma_entered(items, ranges, config, n, k);
        assert(scene_of(items[at[k]], config, ix.scenes@[k]));
    }
    assert forall|i: int|
        0 <= i < items.len() && admissible(items[i], config) && (#[trigger] ranges[i]) is Some && (
        ranges[i]->0).x_min <= (ranges[i]->0).x_max && (ranges[i]->0).y_min <= (
        ranges[i]->0).y_max implies at.contains(i) by {
        let range = ranges[i]->0;
        geo::tiles_by_bounds(range);
        assert(range.area() > 0) by (nonlinear_arith)
            requires
                range.area() == range.width() * range.height(),
                range.width() > 0,
                range.height() > 0,
        ;
        lemma_all_entered(items, ranges, config, n, i);
    }
    assert forall|k: int, x: u32, y: u32|
        0 <= k < at.len() && x < pow2(qz) && y < pow2(qz) implies (#[trigger] named(ix, k, x, y) <==> {
        let range = ranges[at[k]]->0;
        range.x_min <= x && x <= range.x_max && range.y_min <= y && y <= range.y_max
    }) by {
        lemma_entered(items, ranges, config, n, k);
        let range = ranges[at[k]]->0;
        let qk = geo::quadkey(x as nat, y as nat, qz) as u64;
        geo::range_keys_are_exact(range, qz);
        cell_is_exact(lists, qk);
        assert(lists[k] == range.keys(qz));
        assert(range.keys(qz).contains(qk) <==> range.has(x as int, y as int));
        assert(cell_of(lists, qk).contains(k as usize) <==> lists[k].contains(qk));
        assert(ix.index@.contains_key(qk) <==> cell_of(lists, qk).len() > 0);
    }
    at
}

/// The cell of the tile (x, y) at the zoom level of the index names the scene at `k`.
pub open spec fn named(ix: MosaicIndex, k: int, x: u32, y: u32) -> bool {
    let qk = geo::quadkey(x as nat, y as nat, ix.quadkey_zoom as nat) as u64;
    ix.index@.contains_key(qk) && ix.index@[qk]@.contains(k as usize)
}

/// Entered items keep the order of the items.
proof fn lemma_entered_order(
    items: Seq<StacItem>,
    ranges: Seq<Option<TileRange>>,
    config: S2Config,
    n: int,
    a: int,
    b: int,
)
    requires
        0 <= n <= items.len(),
        ranges.len() == items.len(),
        0 <= a < b < entered_items(items, ranges, config, n).len(),
    ensures
        entered_items(items, ranges, config, n)[a] < entered_items(items, ranges, config, n)[b],
    decreases n,
{
    if n > 0 {
        let before = entered_items(items, ranges, config, n - 1);
        if b < before.len() {
            lemma_entered_order(items, ranges, config, n - 1, a, b);
        } else {
            lemma_entered(items, ranges, config, n - 1, a);
        }
    }
}

/// In an index built from items that are ordered by cloud cover, the scenes of every cell
/// are ordered by cloud cover.
pub proof fn cells_are_ordered(
    items: Seq<StacItem>,
    ranges: Seq<Option<TileRange>>,
    config: S2Config,
    ix: MosaicIndex,
    qk: u64,
    a: int,
    b: int,
)
    requires
        index_of_items(items, ranges, config, ix),
        ranges.len() == items.len(),
        forall|i: int, j: int|
            0 <= i < j < items.len() ==> (#[trigger] items[i]).cover().rank() <= (
            #[trigger] items[j]).cover().rank(),
        ix.index@.contains_key(qk),
        0 <= a < b < ix.index@[qk]@.len(),
    ensures
        ix.scenes@[ix.index@[qk]@[a] as int].cloud_cover.rank()
            <= ix.scenes@[ix.index@[qk]@[b] as int].cloud_cover.rank(),
{
    let at = entered_items(items, ranges, config, items.len() as int);
    let lists = key_lists(ranges, at, config.quadkey_zoom as nat);
    let cell = cell_of(lists, qk);
    assert(ix.scenes@.len() <= usize::MAX);
    cell_is_exact(lists, qk);
    assert(cell.contains(cell[a]) && cell.contains(cell[b]));
    let (k, l) = (cell[a] as int, cell[b] as int);
    assert(k < l);
    lemma_entered(items, ranges, config, items.len() as int, k);
    lemma_entered(items, ranges, config, items.len() as int, l);
    lemma_entered_order(items, ranges, config, items.len() as int, k, l);
    assert(scene_of(items[at[k]], config, ix.scenes@[k]));
    assert(scene_of(items[at[l]], config, ix.scenes@[l]));
}

/// Of the scenes that a lookup finds, none that it leaves out comes before one that it
/// returns, and those that it returns are in order.
pub proof fn lookup_returns_the_best(
    ix: MosaicIndex,
    found: Seq<usize>,
    max: nat,
    out: Seq<usize>,
)
    requires
        best_of(ix, found, max, out),
        found.no_duplicates(),
        forall|i: int| 0 <= i < found.len() ==> #[trigger] found[i] < ix.scenes@.len(),
        found.len() <= usize::MAX,
    ensures
        out.no_duplicates(),
        forall|i: int| 0 <= i < out.len() ==> found.contains(#[trigger] out[i]),
        forall|i: int, j: int|
            0 <= i < j < out.len() ==> key_le(
                scene_key(ix.scenes@[#[trigger] out[i] as int], ix.temporal_priority),
                scene_key(ix.scenes@[#[trigger] out[j] as int], ix.temporal_priority),
            ),
        forall|i: int, j: int|
            0 <= i < out.len() && 0 <= j < found.len() && !out.contains(#[trigger] found[j])
                ==> key_le(
                scene_key(ix.scenes@[#[trigger] out[i] as int], ix.temporal_priority),
                scene_key(ix.scenes@[found[j] as int], ix.temporal_priority),
            ),
{
    let keys = found_keys(ix, found);
    let p = choose|p: Seq<usize>|
        {
            &&& #[trigger] order::arranged(keys, p)
            &&& order::lists_range(p, 0, found.len() as int)
            &&& out.len() == if max < found.len() {
                max
            } else {
                found.len()
            }
            &&& forall|i: int| 0 <= i < out.len() ==> #[trigger] out[i] == found[p[i] as int]
        };
    assert forall|i: int| 0 <= i < p.len() implies #[trigger] p[i] < found.len() by {
        assert(p.contains(p[i]));
    }
    assert forall|i: int| 0 <= i < found.len() implies {
        let k = scene_key(ix.scenes@[found[i] as int], ix.temporal_priority);
        &&& (#[trigger] keys[i]).0 == k.0
        &&& keys[i].1 == k.1
    } by {
        lemma_period(ix.scenes@[found[i] as int].datetime@);
    }
    assert forall|i: int, j: int| 0 <= i < j < out.len() implies out[i] != out[j] by {
        assert(p[i] != p[j]);
        assert(out[i] == found[p[i] as int] && out[j] == found[p[j] as int]);
    }
    assert forall|i: int, j: int| 0 <= i < j < out.len() implies key_le(
        scene_key(ix.scenes@[#[trigger] out[i] as int], ix.temporal_priority),
        scene_key(ix.scenes@[#[trigger] out[j] as int], ix.temporal_priority),
    ) by {
        assert(order::comes_before(keys, p[i] as int, p[j] as int));
        assert(keys[p[i] as int].0 <= keys[p[j] as int].0);
    }
    assert forall|i: int, j: int|
        0 <= i < out.len() && 0 <= j < found.len() && !out.contains(#[trigger] found[j]) implies key_le(
        scene_key(ix.scenes@[#[trigger] out[i] as int], ix.temporal_priority),
        scene_key(ix.scenes@[found[j] as int], ix.temporal_priority),
    ) by {
        assert(p.contains(j as usize));
        let t = choose|t: int| 0 <= t < p.len() && p[t] == j as usize;
        if t < out.len() {
            assert(out[t] == found[j]);
        }
        assert(order::comes_before(keys, p[i] as int, p[t] as int));
        assert(keys[p[i] as int].0 <= keys[p[t] as int].0);
    }
}

/// Of the scenes found, exactly those whose box overlaps the tile's are candidates.
pub proof fn candidates_overlap(scenes: Seq<SceneRef>, found: Seq<usize>, t: [Real; 4])
    ensures
        forall|k: usize|
            #[trigger] overlapping(scenes, found, t).contains(k) <==> found.contains(k) && overlaps(
                scenes[k as int].bbox,
                t,
            ),
        found.no_duplicates() ==> overlapping(scenes, found, t).no_duplicates(),
    decreases found.len(),
{
    if found.len() > 0 {
        let less = found.drop_last();
        candidates_overlap(scenes, less, t);
        let f = overlapping(scenes, less, t);
        let g = overlapping(scenes, found, t);
        assert forall|k: usize| #[trigger] g.contains(k) <==> found.contains(k) && overlaps(
            scenes[k as int].bbox,
            t,
        ) by {
            if g.contains(k) {
                let i = choose|i: int| 0 <= i < g.len() && g[i] == k;
                if i < f.len() {
                    assert(f.contains(k));
                    let j = choose|j: int| 0 <= j < less.len() && less[j] == k;
                    assert(found[j] == k);
                } else {
                    assert(found[found.len() - 1] == k);
                }
            }
            if found.contains(k) && overlaps(scenes[k as int].bbox, t) {
                let j = choose|j: int| 0 <= j < found.len() && found[j] == k;
                if j < less.len() {
                    assert(less[j] == k);
                    assert(f.contains(k));
                    let i = choose|i: int| 0 <= i < f.len() && f[i] == k;
                    assert(g[i] == k);
                } else {
                    assert(g[f.len() as int] == k);
                }
            }
        }
        if found.no_duplicates() {
            if f.contains(found.last()) {
                assert(less.contains(found.last()));
                let j = choose|j: int| 0 <= j < less.len() && less[j] == found.last();
                assert(found[j] == found[found.len() - 1]);
            }
        }
    }
}

/// Every scene that a tile lookup returns shares ground with the tile: it ends east of the
/// tile's west edge and north of its south edge, and starts west of its east edge and
/// south of its north edge. Where neither box is degenerate, there is a point strictly
/// inside both, on both axes.
pub proof fn returned_scenes_share_ground(
    ix: MosaicIndex,
    z: u8,
    x: u32,
    y: u32,
    t: [Real; 4],
    max: nat,
    r: Seq<&SceneRef>,
    i: int,
)
    requires
        best_scenes(ix, ix.tile_candidates(z, x, y, t), max, r),
        0 <= i < r.len(),
    ensures
        ({
            let b = r[i].bbox;
            &&& t[0].below(b[2])
            &&& b[0].below(t[2])
            &&& t[1].below(b[3])
            &&& b[1].below(t[3])
            &&& !b[3].at_most(t[1])
            &&& !t[3].at_most(b[1])
            &&& !b[2].at_most(t[0])
            &&& !t[2].at_most(b[0])
            &&& b[0].below(b[2]) && b[1].below(b[3]) && t[0].below(t[2]) && t[1].below(t[3])
                ==> exists|lon: int, lat: int|
                {
                    &&& #[trigger] inside(b, lon, lat)
                    &&& 2 * b[0].rank() < lon < 2 * b[2].rank()
                    &&& 2 * b[1].rank() < lat < 2 * b[3].rank()
                    &&& 2 * t[0].rank() < lon < 2 * t[2].rank()
                    &&& 2 * t[1].rank() < lat < 2 * t[3].rank()
                }
        }),
{
    let found = gather(
        ix.index@,
        geo::covering_keys(z as nat, x as nat, y as nat, ix.quadkey_zoom as nat),
    );
    let near = ix.tile_candidates(z, x, y, t);
    candidates_overlap(ix.scenes@, found, t);
    let k = lemma_returned_candidate(ix, near, max, r, i);
    assert(overlaps(ix.scenes@[k as int].bbox, t));
    let b = r[i].bbox;
    if b[0].below(b[2]) && b[1].below(b[3]) && t[0].below(t[2]) && t[1].below(t[3]) {
        let west = if b[0].rank() < t[0].rank() {
            t[0].rank()
        } else {
            b[0].rank()
        };
        let south = if b[1].rank() < t[1].rank() {
            t[1].rank()
        } else {
            b[1].rank()
        };
        assert(inside(b, 2 * west + 1, 2 * south + 1));
    }
}

/// A returned scene is that of a candidate.
proof fn lemma_returned_candidate(
    ix: MosaicIndex,
    candidates: Seq<usize>,
    max: nat,
    r: Seq<&SceneRef>,
    i: int,
) -> (k: usize)
    requires
        best_scenes(ix, candidates, max, r),
        0 <= i < r.len(),
    ensures
        candidates.contains(k),
        *r[i] == ix.scenes@[k as int],
{
    let out = choose|out: Seq<usize>|
        {
            &&& #[trigger] best_of(ix, candidates, max, out)
            &&& r.len() == out.len()
            &&& forall|i: int| 0 <= i < r.len() ==> *(#[trigger] r[i]) == ix.scenes@[out[i] as int]
        };
    let p = choose|p: Seq<usize>|
        {
            &&& #[trigger] order::arranged(found_keys(ix, candidates), p)
            &&& order::lists_range(p, 0, candidates.len() as int)
            &&& out.len() == if max < candidates.len() {
                max
            } else {
                candidates.len()
            }
            &&& forall|i: int| 0 <= i < out.len() ==> #[trigger] out[i] == candidates[p[i] as int]
        };
    assert(p.contains(p[i]));
    assert(out[i] == candidates[p[i] as int]);
    out[i]
}

/// The candidates for a tile are exactly the scenes that are in a cell on its ground and
/// whose box overlaps its own on both axes, each once.
pub proof fn tile_candidates_are_exact(
    ix: MosaicIndex,
    z: u8,
    x: u32,
    y: u32,
    t: [Real; 4],
    k: usize,
)
    ensures
        ix.tile_candidates(z, x, y, t).no_duplicates(),
        ix.tile_candidates(z, x, y, t).contains(k) <==> {
            let b = ix.scenes@[k as int].bbox;
            let keys = geo::covering_keys(z as nat, x as nat, y as nat, ix.quadkey_zoom as nat);
            &&& exists|i: int|
                0 <= i < keys.len() && ix.index@.contains_key(#[trigger] keys[i])
                    && ix.index@[keys[i]]@.contains(k)
            &&& forall|j: int| 0 <= j < 4 ==> !(#[trigger] b[j]).nan()
            &&& forall|j: int| 0 <= j < 4 ==> !(#[trigger] t[j]).nan()
            &&& t[0].rank() < b[2].rank()
            &&& b[0].rank() < t[2].rank()
            &&& t[1].rank() < b[3].rank()
            &&& b[1].rank() < t[3].rank()
        },
{
    let keys = geo::covering_keys(z as nat, x as nat, y as nat, ix.quadkey_zoom as nat);
    gather_is_exact(ix.index@, keys);
    candidates_overlap(ix.scenes@, gather(ix.index@, keys), t);
    let b = ix.scenes@[k as int].bbox;
    assert(overlaps(b, t) <==> {
        &&& forall|j: int| 0 <= j < 4 ==> !(#[trigger] b[j]).nan()
        &&& forall|j: int| 0 <= j < 4 ==> !(#[trigger] t[j]).nan()
        &&& t[0].rank() < b[2].rank()
        &&& b[0].rank() < t[2].rank()
        &&& t[1].rank() < b[3].rank()
        &&& b[1].rank() < t[3].rank()
    }) by {
        if forall|j: int| 0 <= j < 4 ==> !(#[trigger] b[j]).nan() {
            assert(!b[0].nan() && !b[1].nan() && !b[2].nan() && !b[3].nan());
        }
        if forall|j: int| 0 <= j < 4 ==> !(#[trigger] t[j]).nan() {
            assert(!t[0].nan() && !t[1].nan() && !t[2].nan() && !t[3].nan());
        }
    }
}

/// The candidates for a rectangle are exactly the scenes that the cell of one of its tiles
/// names, each once.
pub proof fn range_candidates_are_exact(ix: MosaicIndex, range: TileRange, k: usize)
    ensures
        ix.range_candidates(range).no_duplicates(),
        ix.range_candidates(range).contains(k) <==> exists|x: u32, y: u32|
            {
                &&& range.x_min <= x && x <= range.x_max
                &&& range.y_min <= y && y <= range.y_max
                &&& #[trigger] named(ix, k as int, x, y)
            },
{
    let qz = ix.quadkey_zoom as nat;
    let keys = range.keys(qz);
    let list = range.tile_list();
    gather_is_exact(ix.index@, keys);
    geo::tiles_by_bounds(range);
    if ix.range_candidates(range).contains(k) {
        let i = choose|i: int|
            0 <= i < keys.len() && ix.index@.contains_key(#[trigger] keys[i])
                && ix.index@[keys[i]]@.contains(k);
        let (x, y) = list[i];
        assert(list.contains((x, y)));
        assert(named(ix, k as int, x, y));
    }
    if exists|x: u32, y: u32|
        {
            &&& range.x_min <= x && x <= range.x_max
            &&& range.y_min <= y && y <= range.y_max
            &&& #[trigger] named(ix, k as int, x, y)
        } {
        let (x, y) = choose|x: u32, y: u32|
            {
                &&& range.x_min <= x && x <= range.x_max
                &&& range.y_min <= y && y <= range.y_max
                &&& #[trigger] named(ix, k as int, x, y)
            };
        assert(list.contains((x, y)));
        let i = choose|i: int| 0 <= i < list.len() && list[i] == (x, y);
        assert(keys[i] == geo::quadkey(x as nat, y as nat, qz) as u64);
        assert(ix.index@.contains_key(keys[i]));
    }
}

/// What a lookup returns of its candidates: as many as it may, each of them once, and in
/// order: the least cloudy first, or with priority by time those of the latest month
/// first and among these the least cloudy. A candidate that it leaves out is no better than
/// any that it returns.
pub proof fn lookup_order(
    ix: MosaicIndex,
    candidates: Seq<usize>,
    max: nat,
    r: Seq<&SceneRef>,
)
    requires
        best_scenes(ix, candidates, max, r),
        candidates.no_duplicates(),
        forall|i: int| 0 <= i < candidates.len() ==> #[trigger] candidates[i] < ix.scenes@.len(),
        candidates.len() <= usize::MAX,
    ensures
        r.len() <= max,
        r.len() <= candidates.len(),
        r.len() == max || r.len() == candidates.len(),
        exists|out: Seq<usize>|
            {
                &&& #[trigger] out.no_duplicates()
                &&& out.len() == r.len()
                &&& forall|i: int|
                    0 <= i < out.len() ==> candidates.contains(#[trigger] out[i]) && *r[i]
                        == ix.scenes@[out[i] as int]
                &&& forall|i: int, k: usize|
                    0 <= i < r.len() && candidates.contains(k) && !out.contains(k)
                        ==> #[trigger] no_worse(*r[i], ix.scenes@[k as int], ix.temporal_priority)
            },
        forall|i: int, j: int|
            #![trigger r[i], r[j]]
            0 <= i < j < r.len() ==> {
                &&& !ix.temporal_priority ==> r[i].cloud_cover.rank() <= r[j].cloud_cover.rank()
                &&& ix.temporal_priority ==> period(r[i].datetime@) > period(r[j].datetime@) || (
                period(r[i].datetime@) == period(r[j].datetime@) && r[i].cloud_cover.rank()
                    <= r[j].cloud_cover.rank())
            },
{
    let out = choose|out: Seq<usize>|
        {
            &&& #[trigger] best_of(ix, candidates, max, out)
            &&& r.len() == out.len()
            &&& forall|i: int| 0 <= i < r.len() ==> *(#[trigger] r[i]) == ix.scenes@[out[i] as int]
        };
    lookup_returns_the_best(ix, candidates, max, out);
    assert forall|i: int, k: usize|
        0 <= i < r.len() && candidates.contains(k) && !out.contains(k) implies #[trigger] no_worse(
        *r[i],
        ix.scenes@[k as int],
        ix.temporal_priority,
    ) by {
        let j = choose|j: int| 0 <= j < candidates.len() && candidates[j] == k;
        assert(!out.contains(candidates[j]));
        assert(key_le(
            scene_key(ix.scenes@[out[i] as int], ix.temporal_priority),
            scene_key(ix.scenes@[candidates[j] as int], ix.temporal_priority),
        ));
    }
    assert forall|i: int, j: int|
        #![trigger r[i], r[j]]
        0 <= i < j < r.len() implies {
        &&& !ix.temporal_priority ==> r[i].cloud_cover.rank() <= r[j].cloud_cover.rank()
        &&& ix.temporal_priority ==> period(r[i].datetime@) > period(r[j].datetime@) || (period(
            r[i].datetime@,
        ) == period(r[j].datetime@) && r[i].cloud_cover.rank() <= r[j].cloud_cover.rank())
    } by {
        assert(key_le(
            scene_key(ix.scenes@[out[i] as int], ix.temporal_priority),
            scene_key(ix.scenes@[out[j] as int], ix.temporal_priority),
        ));
    }
    assert(out.no_duplicates());
}

/// A scene may come before another one: it is no cloudier, or with priority by time of a
/// later month, or of the same month and no cloudier.
pub open spec fn no_worse(a: SceneRef, b: SceneRef, temporal: bool) -> bool {
    if temporal {
        period(a.datetime@) > period(b.datetime@) || (period(a.datetime@) == period(b.datetime@)
            && a.cloud_cover.rank() <= b.cloud_cover.rank())
    } else {
        a.cloud_cover.rank() <= b.cloud_cover.rank()
    }
}

/// A time that starts with a year of four digits, a hyphen and a month.
pub open spec fn starts_with_month(t: Seq<char>) -> bool {
    &&& t.len() >= 7
    &&& '0' <= t[0] <= '9'
    &&& '0' <= t[1] <= '9'
    &&& '0' <= t[2] <= '9'
    &&& '0' <= t[3] <= '9'
    &&& t[4] == '-'
    &&& (t[5] == '0' && '1' <= t[6] <= '9') || (t[5] == '1' && '0' <= t[6] <= '2')
}

/// Times are ordered by period as the texts of their months are: the first character in
/// which two months differ decides, and times of the same month are of the same period.
pub proof fn periods_are_months(a: Seq<char>, b: Seq<char>, p: int)
    requires
        starts_with_month(a),
        0 <= p <= 7,
        b.len() >= 7,
        forall|q: int| 0 <= q < p ==> #[trigger] a[q] == b[q],
    ensures
        p == 7 ==> period(a) == period(b),
        p < 7 && starts_with_month(b) && a[p] < b[p] ==> period(a) < period(b),
        period(a) > 0,
{
    if p > 0 {
        assert(a[0] == b[0]);
    }
    if p > 1 {
        assert(a[1] == b[1]);
    }
    if p > 2 {
        assert(a[2] == b[2]);
    }
    if p > 3 {
        assert(a[3] == b[3]);
    }
    if p > 4 {
        assert(a[4] == b[4]);
    }
    if p > 5 {
        assert(a[5] == b[5]);
    }
    if p > 6 {
        assert(a[6] == b[6]);
    }
}

/// A text that does not start with four digits, a hyphen and two digits is of the period 0,
/// before all months.
pub proof fn other_texts_have_no_period(t: Seq<char>, i: int)
    requires
        t.len() < 7 || t[4] != '-' || (0 <= i < 7 && i != 4 && (t[i] < '0' || t[i] > '9')),
    ensures
        period(t) == 0,
{
}

/// The cells of every tile that exists can be addressed, as long as tile and cells are not
/// too many zoom levels apart.
pub proof fn tiles_are_addressable(ix: MosaicIndex, z: u8, x: u32, y: u32)
    requires
        ix.quadkey_zoom <= 31,
        x < pow2(z as nat),
        y < pow2(z as nat),
    ensures
        ix.quadkey_zoom <= z ==> (ix.tile_addressable(z, x, y) <==> z - ix.quadkey_zoom < 32),
        ix.quadkey_zoom > z ==> (ix.tile_addressable(z, x, y) <==> ix.quadkey_zoom - z < 16),
{
    if ix.quadkey_zoom > z {
        let d = (ix.quadkey_zoom - z) as nat;
        geo::lemma_descendant_bound(x as nat, z as nat, d);
        geo::lemma_descendant_bound(y as nat, z as nat, d);
        lemma2_to64();
        if ix.quadkey_zoom < 31 {
            lemma_pow2_strictly_increases(ix.quadkey_zoom as nat, 31);
        }
    }
}

/// Order of scene keys.
pub open spec fn key_le(a: (int, int), b: (int, int)) -> bool {
    a.0 < b.0 || (a.0 == b.0 && a.1 <= b.1)
}

/// A period fits a machine word.
proof fn lemma_period(t: Seq<char>)
    ensures
        0 <= period(t) <= 120087,
{
}

// ─── Persistence ────────────────────────────────────────────────────────────

/// A scene as it is stored.
#[derive(Debug)]
pub struct SceneRow {
    pub idx: i32,
    pub id: String,
    pub cloud: Real,
    pub dt: String,
    pub epsg: i32,
    /// Empty where the scene has no class layer.
    pub scl_url: String,
    /// URL of each band, as a JSON object.
    pub bands: String,
    pub bbox: [Real; 4],
}

/// A scene of a cell as it is stored.
#[derive(Debug, Clone, Copy, PartialEq, Eq, Structural)]
pub struct KeyRow {
    pub quadkey: i64,
    pub scene_idx: i32,
}

/// A stored index: the scenes by ascending `idx`, and the scenes of the cells.
#[derive(Debug)]
pub struct IndexRows {
    pub quadkey_zoom: i32,
    pub scenes: Vec<SceneRow>,
    pub keys: Vec<KeyRow>,
}

/// The texts of a map.
pub open spec fn map_texts(m: Map<Seq<char>, String>) -> Map<Seq<char>, Seq<char>> {
    m.map_values(|s: String| s@)
}

/// The JSON object that `serde_json::to_string` makes of a map of texts.
pub uninterp spec fn json_object(m: Map<Seq<char>, Seq<char>>) -> Seq<char>;

/// The map of texts that `serde_json::from_str` reads from a JSON object, if it can.
pub uninterp spec fn object_texts(json: Seq<char>) -> Option<Map<Seq<char>, Seq<char>>>;

/// Trusted: `serde_json::to_string` writes the map that a list of texts stands for, its
/// keys in ascending order, as a JSON object that is determined by the map, and that `serde_json::from_str` reads
/// back as the same map. Writing such a map does not fail.
#[verifier::external_body]
fn to_json(list: &Vec<(String, String)>) -> (json: String)
    ensures
        json@ == json_object(map_texts(textmap::map_of(list@))),
        object_texts(json@) == Some(map_texts(textmap::map_of(list@))),
{
    let map: BTreeMap<&str, &str> = list.iter().map(|(k, v)| (k.as_str(), v.as_str())).collect();
    serde_json::to_string(&map).expect("texts have a JSON form")
}

/// Trusted: `serde_json::from_str`, asked for a map of texts, gives a result that is
/// determined by the text; each key occurs once in it. What it is, is named and not
/// stated.
#[verifier::external_body]
fn from_json(json: &str) -> (r: Option<Vec<(String, String)>>)
    ensures
        match r {
            Some(list) => object_texts(json@) == Some(map_texts(textmap::map_of(list@))),
            None => object_texts(json@) is None,
        },
{
    let map: BTreeMap<String, String> = serde_json::from_str(json).ok()?;
    Some(map.into_iter().collect())
}

/// How a scene is stored.
pub open spec fn stored_scene(s: SceneRef, k: int, row: SceneRow) -> bool {
    &&& row.idx == k as i32
    &&& row.id == s.id
    &&& row.cloud == s.cloud_cover
    &&& row.dt == s.datetime
    &&& row.epsg == s.epsg as i32
    &&& row.scl_url@ == match s.scl_url {
        Some(u) => u@,
        None => Seq::empty(),
    }
    &&& row.bands@ == json_object(map_texts(s.band_urls@))
    &&& object_texts(row.bands@) == Some(map_texts(s.band_urls@))
    &&& row.bbox == s.bbox
}

/// The scenes that the rows give for a cell, in order.
pub open spec fn row_cell(rows: Seq<KeyRow>, qk: u64) -> Seq<i32>
    decreases rows.len(),
{
    if rows.len() == 0 {
        Seq::empty()
    } else {
        let before = row_cell(rows.drop_last(), qk);
        if rows.last().quadkey as u64 == qk {
            before.push(rows.last().scene_idx)
        } else {
            before
        }
    }
}

/// A cell as it is stored.
pub open spec fn stored_cell(cell: Seq<usize>) -> Seq<i32> {
    cell.map_values(|i: usize| i as i32)
}

/// How an index is stored.
pub open spec fn stored(ix: MosaicIndex, rows: IndexRows) -> bool {
    &&& rows.quadkey_zoom == ix.quadkey_zoom
    &&& rows.scenes@.len() == ix.scenes@.len()
    &&& forall|k: int|
        0 <= k < ix.scenes@.len() ==> stored_scene(ix.scenes@[k], k, #[trigger] rows.scenes@[k])
    &&& forall|qk: u64|
        #[trigger] row_cell(rows.keys@, qk) == if ix.index@.contains_key(qk) {
            stored_cell(ix.index@[qk]@)
        } else {
            Seq::empty()
        }
}

/// A key survives being stored as a signed word.
proof fn lemma_key_word(qk: u64)
    ensures
        (qk as i64) as u64 == qk,
{
    assert((qk as i64) as u64 == qk) by (bit_vector);
}

/// Store the scenes of one cell.
fn push_cell(rows: &mut Vec<KeyRow>, qk: u64, cell: &Vec<usize>)
    ensures
        forall|k: u64|
            #[trigger] row_cell(final(rows)@, k) == if k == qk {
                row_cell(old(rows)@, k) + stored_cell(cell@)
            } else {
                row_cell(old(rows)@, k)
            },
{
    let ghost start = rows@;
    proof {
        lemma_key_word(qk);
    }
    for j in 0..cell.len()
        invariant
            (qk as i64) as u64 == qk,
            forall|k: u64|
                #[trigger] row_cell(rows@, k) == if k == qk {
                    row_cell(start, k) + stored_cell(cell@.take(j as int))
                } else {
                    row_cell(start, k)
                },
    {
        let ghost before = rows@;
        rows.push(KeyRow { quadkey: qk as i64, scene_idx: cell[j] as i32 });
        proof {
            assert(rows@.drop_last() =~= before);
            assert forall|k: u64|
                #[trigger] row_cell(rows@, k) == if k == qk {
                    row_cell(start, k) + stored_cell(cell@.take(j + 1))
                } else {
                    row_cell(start, k)
                } by {
                assert(row_cell(before, k) == if k == qk {
                    row_cell(start, k) + stored_cell(cell@.take(j as int))
                } else {
                    row_cell(start, k)
                });
                if k == qk {
                    assert(row_cell(start, k) + stored_cell(cell@.take(j + 1)) =~= (row_cell(
                        start,
                        k,
                    ) + stored_cell(cell@.take(j as int))).push(cell@[j as int] as i32));
                }
            }
        }
    }
    proof {
        assert(cell@.take(cell@.len() as int) =~= cell@);
    }
}

/// The rows to store an index as. The order of the cells is left open.
pub fn save_index(index: &MosaicIndex) -> (rows: IndexRows)
    ensures
        stored(*index, rows),
{
    broadcast use group_hash_axioms;

    let mut scenes: Vec<SceneRow> = Vec::new();
    for k in 0..index.scenes.len()
        invariant
            scenes@.len() == k,
            forall|j: int| 0 <= j < k ==> stored_scene(index.scenes@[j], j, #[trigger] scenes@[j]),
    {
        let s = &index.scenes[k];
        let scl_url: String = match &s.scl_url {
            Some(u) => u.clone(),
            None => String::new(),
        };
        scenes.push(
            SceneRow {
                idx: k as i32,
                id: s.id.clone(),
                cloud: s.cloud_cover,
                dt: s.datetime.clone(),
                epsg: s.epsg as i32,
                scl_url,
                bands: to_json(s.band_urls.entries()),
                bbox: s.bbox,
            },
        );
    }
    let mut keys: Vec<KeyRow> = Vec::new();
    let ghost m = index.index@;
    for entry in it: index.index.iter()
        invariant
            m == index.index@,
            forall|qk: u64| #[trigger] m.contains_key(qk) ==> it.seq().contains((&qk, &m[qk])),
            it.seq().no_duplicates(),
            forall|i: int|
                0 <= i < it.seq().len() ==> m.contains_key(*(#[trigger] it.seq()[i]).0)
                    && m[*it.seq()[i].0] == *it.seq()[i].1,
            forall|qk: u64|
                #[trigger] row_cell(keys@, qk) == if exists|i: int|
                    0 <= i < it.index() && *(#[trigger] it.seq()[i]).0 == qk {
                    stored_cell(m[qk]@)
                } else {
                    Seq::empty()
                },
    {
        let ghost i = it.index() as int;
        let ghost before = keys@;
        let (qk, cell): (&u64, &Vec<usize>) = entry;
        push_cell(&mut keys, *qk, cell);
        proof {
            let all = it.seq();
            assert(all[i] == entry);
            assert forall|k: u64|
                #[trigger] row_cell(keys@, k) == if exists|j: int|
                    0 <= j < i + 1 && *(#[trigger] all[j]).0 == k {
                    stored_cell(m[k]@)
                } else {
                    Seq::empty()
                } by {
                if k == *qk {
                    if exists|j: int| 0 <= j < i && *(#[trigger] all[j]).0 == k {
                        let j = choose|j: int| 0 <= j < i && *(#[trigger] all[j]).0 == k;
                        assert(all[j] == all[i]);
                    }
                    assert(row_cell(before, k) =~= Seq::<i32>::empty());
                    assert(*all[i].0 == k);
                    assert(row_cell(keys@, k) =~= stored_cell(m[k]@));
                } else {
                    assert(row_cell(keys@, k) == row_cell(before, k));
                }
            }
        }
    }
    IndexRows { quadkey_zoom: index.quadkey_zoom as i32, scenes, keys }
}

/// The scene that a row stands for.
pub open spec fn loaded_scene(row: SceneRow, s: SceneRef) -> bool {
    &&& s.id == row.id
    &&& object_texts(row.bands@) == Some(map_texts(s.band_urls@))
    &&& s.scl_url == if row.scl_url@.len() == 0 {
        None
    } else {
        Some(row.scl_url)
    }
    &&& s.cloud_cover == row.cloud
    &&& s.datetime == row.dt
    &&& s.epsg == row.epsg as u32
    &&& s.bbox == row.bbox
}

/// The scenes of a cell as they are loaded.
pub open spec fn loaded_cell(cell: Seq<i32>) -> Seq<usize> {
    cell.map_values(|i: i32| i as usize)
}

/// The map holds the cells of these rows, and no empty ones.
pub open spec fn holds_rows(m: Map<u64, Vec<usize>>, rows: Seq<KeyRow>) -> bool {
    forall|qk: u64|
        #![trigger m.contains_key(qk)]
        (m.contains_key(qk) <==> row_cell(rows, qk).len() > 0) && (m.contains_key(qk) ==> m[qk]@
            == loaded_cell(row_cell(rows, qk)))
}

/// The index that rows stand for.
pub open spec fn loaded(rows: IndexRows, temporal_priority: bool, ix: MosaicIndex) -> bool {
    &&& ix.quadkey_zoom == rows.quadkey_zoom as u8
    &&& ix.scenes@.len() == rows.scenes@.len()
    &&& forall|k: int|
        0 <= k < rows.scenes@.len() ==> loaded_scene(rows.scenes@[k], #[trigger] ix.scenes@[k])
    &&& holds_rows(ix.index@, rows.keys@)
    &&& ix.total_scenes == ix.scenes@.len()
    &&& ix.temporal_priority == temporal_priority
}

/// Load the scenes of the cells.
fn load_cells(keys: &Vec<KeyRow>) -> (index: HashMap<u64, Vec<usize>>)
    ensures
        holds_rows(index@, keys@),
{
    broadcast use group_hash_axioms;

    let mut index: HashMap<u64, Vec<usize>> = HashMap::new();
    for j in 0..keys.len()
        invariant
            holds_rows(index@, keys@.take(j as int)),
    {
        broadcast use group_hash_axioms;

        let row: KeyRow = keys[j];
        let qk: u64 = row.quadkey as u64;
        let ghost some = keys@.take(j as int);
        let ghost more = keys@.take(j + 1);
        let ghost before = index@;
        proof {
            assert(more.drop_last() =~= some);
            assert(before.contains_key(qk) <==> row_cell(some, qk).len() > 0);
            if !before.contains_key(qk) {
                assert(row_cell(some, qk) =~= Seq::empty());
            }
        }
        index.entry(qk).or_insert(Vec::new()).push(row.scene_idx as usize);
        proof {
            assert(index@[qk]@ =~= loaded_cell(row_cell(more, qk)));
            assert forall|k: u64|
                #![trigger index@.contains_key(k)]
                (index@.contains_key(k) <==> row_cell(more, k).len() > 0) && (index@.contains_key(k)
                    ==> index@[k]@ == loaded_cell(row_cell(more, k))) by {
                if k != qk {
                    assert(index@.contains_key(k) == before.contains_key(k));
                }
            }
        }
    }
    assert(keys@.take(keys@.len() as int) =~= keys@);
    index
}

/// The band URLs of every scene can be read.
pub open spec fn readable(rows: Seq<SceneRow>) -> bool {
    forall|k: int| 0 <= k < rows.len() ==> object_texts((#[trigger] rows[k]).bands@) is Some
}

/// What loading rows gives.
pub open spec fn load_result(rows: IndexRows, temporal_priority: bool, r: Option<MosaicIndex>) -> bool {
    &&& r is Some <==> readable(rows.scenes@)
    &&& r matches Some(ix) ==> loaded(rows, temporal_priority, ix)
}

/// The index that rows stand for; `None` where the band URLs of a scene cannot be read.
/// A row may name a scene that is not there; see `is_well_formed`.
pub fn load_index(rows: IndexRows, temporal_priority: bool) -> (r: Option<MosaicIndex>)
    ensures
        load_result(rows, temporal_priority, r),
{
    let ghost all = rows;
    let index = load_cells(&rows.keys);
    let mut scenes: Vec<SceneRef> = Vec::new();
    for row in it: rows.scenes
        invariant
            it.seq() == all.scenes@,
            all == rows,
            scenes@.len() == it.index(),
            forall|k: int|
                0 <= k < it.index() ==> object_texts((#[trigger] all.scenes@[k]).bands@) is Some,
            forall|k: int|
                0 <= k < scenes@.len() ==> loaded_scene(all.scenes@[k], #[trigger] scenes@[k]),
    {
        let ghost at = it.index() as int;
        let list = match from_json(row.bands.as_str()) {
            Some(list) => list,
            None => {
                assert(object_texts(all.scenes@[at].bands@) is None);
                return None;
            },
        };
        let scl_url: Option<String> = if row.scl_url.as_str().unicode_len() == 0 {
            None
        } else {
            Some(row.scl_url)
        };
        scenes.push(
            SceneRef {
                id: row.id,
                band_urls: TextMap::from_entries(list),
                scl_url,
                cloud_cover: row.cloud,
                datetime: row.dt,
                epsg: row.epsg as u32,
                bbox: row.bbox,
            },
        );
    }
    let total_scenes: usize = scenes.len();
    Some(
        MosaicIndex {
            scenes,
            index,
            quadkey_zoom: rows.quadkey_zoom as u8,
            total_scenes,
            temporal_priority,
        },
    )
}

/// What the rows of a stored index hold: a row for each scene, in order, with its
/// position, id, cloud cover, time, projection, box and the URL of its class layer, empty
/// where it has none.
pub proof fn rows_of_scenes(ix: MosaicIndex, rows: IndexRows, k: int)
    requires
        stored(ix, rows),
        0 <= k < ix.scenes@.len(),
    ensures
        rows.quadkey_zoom == ix.quadkey_zoom,
        rows.scenes@.len() == ix.scenes@.len(),
        ({
            let row = rows.scenes@[k];
            let s = ix.scenes@[k];
            &&& k <= i32::MAX ==> row.idx == k
            &&& row.id@ == s.id@
            &&& row.cloud.bits == s.cloud_cover.bits
            &&& row.dt@ == s.datetime@
            &&& s.epsg <= i32::MAX ==> row.epsg == s.epsg
            &&& s.scl_url matches Some(u) ==> row.scl_url@ == u@
            &&& s.scl_url is None ==> row.scl_url@.len() == 0
            &&& row.bbox[0] == s.bbox[0] && row.bbox[1] == s.bbox[1] && row.bbox[2] == s.bbox[2]
                && row.bbox[3] == s.bbox[3]
            &&& object_texts(row.bands@) is Some
            &&& forall|band: Seq<char>| #[trigger]
                s.band_urls@.contains_key(band) <==> object_texts(row.bands@)->0.contains_key(band)
            &&& forall|band: Seq<char>| #[trigger]
                s.band_urls@.contains_key(band) ==> object_texts(row.bands@)->0[band]
                    == s.band_urls@[band]@
        }),
{
    assert(stored_scene(ix.scenes@[k], k, rows.scenes@[k]));
}

/// The rows of a cell, in order, give its scenes: a row for each, and none for a cell that
/// is not there.
pub proof fn rows_of_cells(ix: MosaicIndex, rows: IndexRows, qk: u64)
    requires
        stored(ix, rows),
    ensures
        ({
            let own = rows.keys@.filter(|row: KeyRow| row.quadkey as u64 == qk);
            &&& !ix.index@.contains_key(qk) ==> own.len() == 0
            &&& ix.index@.contains_key(qk) ==> {
                &&& own.len() == ix.index@[qk]@.len()
                &&& forall|j: int|
                    0 <= j < own.len() && ix.index@[qk]@[j] <= i32::MAX ==> (
                    #[trigger] own[j]).scene_idx == ix.index@[qk]@[j]
            }
        }),
{
    lemma_row_cell(rows.keys@, qk, |row: KeyRow| row.quadkey as u64 == qk);
    let cell = row_cell(rows.keys@, qk);
    let own = rows.keys@.filter(|row: KeyRow| row.quadkey as u64 == qk);
    assert(own.len() == cell.len());
    if ix.index@.contains_key(qk) {
        assert(cell == stored_cell(ix.index@[qk]@));
        assert(cell.len() == ix.index@[qk]@.len());
        assert forall|j: int| 0 <= j < own.len() && ix.index@[qk]@[j] <= i32::MAX implies (
        #[trigger] own[j]).scene_idx == ix.index@[qk]@[j] by {
            assert(own[j].scene_idx == cell[j]);
        }
    }
}

/// The scenes that the rows give for a cell are those of the rows with its key, in order.
proof fn lemma_row_cell(rows: Seq<KeyRow>, qk: u64, own: spec_fn(KeyRow) -> bool)
    requires
        forall|row: KeyRow| #[trigger] own(row) == (row.quadkey as u64 == qk),
    ensures
        row_cell(rows, qk) == rows.filter(own).map_values(|row: KeyRow| row.scene_idx),
    decreases rows.len(),
{
    reveal(Seq::filter);
    let idx = |row: KeyRow| row.scene_idx;
    if rows.len() > 0 {
        lemma_row_cell(rows.drop_last(), qk, own);
        assert(own(rows.last()) == (rows.last().quadkey as u64 == qk));
    }
    assert(row_cell(rows, qk) =~= rows.filter(own).map_values(idx));
}

/// What a loaded index takes from its rows: a scene for each row, in order, with its id,
/// cloud cover, time, projection and box, and a class layer where the row has a URL.
pub proof fn scenes_of_rows(rows: IndexRows, temporal_priority: bool, ix: MosaicIndex, k: int)
    requires
        loaded(rows, temporal_priority, ix),
        0 <= k < rows.scenes@.len(),
    ensures
        0 <= rows.quadkey_zoom <= 255 ==> ix.quadkey_zoom == rows.quadkey_zoom,
        ix.scenes@.len() == rows.scenes@.len(),
        ix.total_scenes == rows.scenes@.len(),
        ix.temporal_priority == temporal_priority,
        ({
            let row = rows.scenes@[k];
            let s = ix.scenes@[k];
            &&& s.id@ == row.id@
            &&& s.cloud_cover.bits == row.cloud.bits
            &&& s.datetime@ == row.dt@
            &&& row.epsg >= 0 ==> s.epsg == row.epsg
            &&& row.scl_url@.len() > 0 ==> s.scl_url is Some && s.scl_url->0@ == row.scl_url@
            &&& row.scl_url@.len() == 0 ==> s.scl_url is None
            &&& s.bbox[0] == row.bbox[0] && s.bbox[1] == row.bbox[1] && s.bbox[2] == row.bbox[2]
                && s.bbox[3] == row.bbox[3]
            &&& object_texts(row.bands@) is Some
            &&& forall|band: Seq<char>| #[trigger]
                s.band_urls@.contains_key(band) <==> object_texts(row.bands@)->0.contains_key(band)
            &&& forall|band: Seq<char>| #[trigger]
                s.band_urls@.contains_key(band) ==> object_texts(row.bands@)->0[band]
                    == s.band_urls@[band]@
        }),
{
    assert(loaded_scene(rows.scenes@[k], ix.scenes@[k]));
}

/// The cells of a loaded index: there is one for each key that a row has, and it names, in
/// order, the scenes of the rows with that key.
pub proof fn cells_of_rows(rows: IndexRows, temporal_priority: bool, ix: MosaicIndex, qk: u64)
    requires
        loaded(rows, temporal_priority, ix),
    ensures
        ({
            let own = rows.keys@.filter(|row: KeyRow| row.quadkey as u64 == qk);
            &&& ix.index@.contains_key(qk) <==> own.len() > 0
            &&& ix.index@.contains_key(qk) ==> {
                &&& ix.index@[qk]@.len() == own.len()
                &&& forall|j: int|
                    0 <= j < own.len() && (#[trigger] own[j]).scene_idx >= 0 ==> ix.index@[qk]@[j]
                        == own[j].scene_idx
            }
        }),
{
    lemma_row_cell(rows.keys@, qk, |row: KeyRow| row.quadkey as u64 == qk);
    assert(ix.index@.contains_key(qk) <==> row_cell(rows.keys@, qk).len() > 0);
}

/// Two scenes agree in everything.
pub open spec fn same_scene(a: SceneRef, b: SceneRef) -> bool {
    &&& b.id == a.id
    &&& map_texts(b.band_urls@) == map_texts(a.band_urls@)
    &&& (b.scl_url is Some) == (a.scl_url is Some)
    &&& a.scl_url is Some ==> b.scl_url->0@ == a.scl_url->0@
    &&& b.cloud_cover == a.cloud_cover
    &&& b.datetime == a.datetime
    &&& b.epsg == a.epsg
    &&& b.bbox == a.bbox
}

/// Two indices agree scene by scene and cell by cell.
pub open spec fn same_index(a: MosaicIndex, b: MosaicIndex) -> bool {
    &&& b.quadkey_zoom == a.quadkey_zoom
    &&& b.temporal_priority == a.temporal_priority
    &&& b.total_scenes == a.scenes@.len()
    &&& b.scenes@.len() == a.scenes@.len()
    &&& forall|k: int|
        0 <= k < a.scenes@.len() ==> same_scene(a.scenes@[k], #[trigger] b.scenes@[k])
    &&& b.index@.dom() == a.index@.dom()
    &&& forall|qk: u64| #[trigger] a.index@.contains_key(qk) ==> b.index@[qk]@ == a.index@[qk]@
}

/// A stored index loads back as it was: scene by scene and cell by cell, as long as it
/// has no more scenes than rows can count, no empty cell, and no class layer with an
/// empty URL.
pub proof fn stored_index_loads_back(ix: MosaicIndex, rows: IndexRows, r: Option<MosaicIndex>)
    requires
        stored(ix, rows),
        load_result(rows, ix.temporal_priority, r),
        ix.wf(),
        ix.scenes@.len() <= i32::MAX,
        forall|qk: u64| #[trigger] ix.index@.contains_key(qk) ==> ix.index@[qk]@.len() > 0,
        forall|k: int|
            0 <= k < ix.scenes@.len() && (#[trigger] ix.scenes@[k]).scl_url is Some
                ==> ix.scenes@[k].scl_url->0@.len() > 0,
    ensures
        r is Some,
        same_index(ix, r->0),
        (r->0).wf(),
{
    assert(readable(rows.scenes@)) by {
        assert forall|k: int| 0 <= k < rows.scenes@.len() implies object_texts(
            (#[trigger] rows.scenes@[k]).bands@,
        ) is Some by {
            assert(stored_scene(ix.scenes@[k], k, rows.scenes@[k]));
        }
    }
    let back = r->0;
    assert forall|k: int| 0 <= k < ix.scenes@.len() implies same_scene(
        ix.scenes@[k],
        #[trigger] back.scenes@[k],
    ) by {
        let s = ix.scenes@[k];
        let row = rows.scenes@[k];
        assert(stored_scene(s, k, row));
        assert(loaded_scene(row, back.scenes@[k]));
        let e = s.epsg;
        assert((e as i32) as u32 == e) by (bit_vector);
    }
    assert forall|qk: u64|
        #![trigger ix.index@.contains_key(qk)]
        (back.index@.contains_key(qk) <==> ix.index@.contains_key(qk)) && (ix.index@.contains_key(qk)
            ==> back.index@[qk]@ == ix.index@[qk]@) by {
        let cell = row_cell(rows.keys@, qk);
        assert(back.index@.contains_key(qk) <==> cell.len() > 0);
        if ix.index@.contains_key(qk) {
            let own = ix.index@[qk]@;
            assert(cell == stored_cell(own));
            assert forall|j: int| 0 <= j < own.len() implies loaded_cell(cell)[j]
                == #[trigger] own[j] by {
                assert(ix.index@[qk]@[j] < ix.scenes@.len());
            }
            assert(loaded_cell(cell) =~= own);
        }
    }
    assert(back.index@.dom() =~= ix.index@.dom()) by {
        assert forall|qk: u64| #[trigger] back.index@.dom().contains(qk) <==> ix.index@.dom().contains(
            qk,
        ) by {
            assert(back.index@.contains_key(qk) <==> ix.index@.contains_key(qk));
        }
    }
    assert forall|qk: u64, j: int|
        back.index@.contains_key(qk) && 0 <= j < back.index@[qk]@.len() implies
        #[trigger] back.index@[qk]@[j] < back.scenes@.len() by {
        assert(ix.index@.contains_key(qk));
        assert(ix.index@[qk]@[j] < ix.scenes@.len());
    }
}

impl MosaicIndex {
    /// Every cell names scenes that are there, and the zoom level is one that exists.
    pub fn is_well_formed(&self) -> (r: bool)
        ensures
            r == self.wf(),
    {
        broadcast use group_hash_axioms;

        if self.quadkey_zoom > 32 {
            return false;
        }
        let n: usize = self.scenes.len();
        let ghost m = self.index@;
        for entry in it: self.index.iter()
            invariant
                n == self.scenes@.len(),
                m == self.index@,
                self.quadkey_zoom <= 32,
                forall|qk: u64| #[trigger] m.contains_key(qk) ==> it.seq().contains((&qk, &m[qk])),
                forall|i: int|
                    0 <= i < it.seq().len() ==> m.contains_key(*(#[trigger] it.seq()[i]).0)
                        && m[*it.seq()[i].0] == *it.seq()[i].1,
                forall|i: int, j: int|
                    0 <= i < it.index() && 0 <= j < it.seq()[i].1@.len()
                        ==> #[trigger] it.seq()[i].1@[j] < n,
        {
            let (qk, cell): (&u64, &Vec<usize>) = entry;
            assert(m.contains_key(*it.seq()[it.index() as int].0));
            for j in 0..cell.len()
                invariant
                    n == self.scenes@.len(),
                    m == self.index@,
                    m.contains_key(*qk),
                    m[*qk] == *cell,
                    forall|k: int| 0 <= k < j ==> #[trigger] cell@[k] < n,
            {
                if cell[j] >= n {
                    assert(self.index@[*qk]@[j as int] >= n);
                    return false;
                }
            }
        }
        proof {
            assert forall|qk: u64, j: int|
                self.index@.contains_key(qk) && 0 <= j < self.index@[qk]@.len() implies
                #[trigger] self.index@[qk]@[j] < self.scenes@.len() by {
                assert(m.contains_key(qk));
            }
        }
        true
    }
}

} // verus!
