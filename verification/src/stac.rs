//! Catalog search: items, requests, pagination and the choice of scenes.
use crate::config;
use crate::config::{band_to_asset, S2Config};
use crate::number::Real;
use crate::order;
use crate::order::{stable_order, take_in_order};
use crate::text;
use crate::text::{str_eq, trim_end_slashes};
use crate::textmap::TextMap;
use vstd::prelude::*;
use vstd::string::*;

verus! {

// ─── Items ──────────────────────────────────────────────────────────────────

/// A file of a catalog item.
#[derive(Debug)]
pub struct StacAsset {
    pub href: String,
    pub media_type: Option<String>,
}

/// The properties of a catalog item that are used here.
#[derive(Debug)]
pub struct StacItemProperties {
    /// Cloud cover in percent.
    pub cloud_cover: Option<Real>,
    pub datetime: Option<String>,
    /// EPSG code of the item's projection.
    pub proj_epsg: Option<u32>,
}

/// A catalog item: one scene.
#[derive(Debug)]
pub struct StacItem {
    pub id: String,
    /// WGS84 bounding box: west, south, east, north.
    pub bbox: Option<[Real; 4]>,
    pub properties: StacItemProperties,
    pub assets: TextMap<StacAsset>,
}

/// No text occurs twice.
pub open spec fn different(texts: Seq<String>) -> bool {
    forall|i: int, j: int| 0 <= i < j < texts.len() ==> (#[trigger] texts[i])@ != (#[trigger] texts[j])@
}

/// 100 percent, the cloud cover of an item that gives none.
pub const FULL_COVER: u64 = 0x4059_0000_0000_0000;

impl StacItem {
    /// Cloud cover, 100 percent where the item gives none.
    pub open spec fn cover(self) -> Real {
        match self.properties.cloud_cover {
            Some(c) => c,
            None => Real { bits: FULL_COVER },
        }
    }

    /// URL of an asset.
    pub open spec fn href(self, asset: Seq<char>) -> Option<String> {
        if self.assets@.contains_key(asset) {
            Some(self.assets@[asset].href)
        } else {
            None
        }
    }

    /// URL of a band.
    pub open spec fn band_url(self, band: Seq<char>) -> Option<String> {
        match config::asset_of(band) {
            Some(asset) => self.href(asset),
            None => None,
        }
    }

    /// URLs of those among the bands that the item has, by band code.
    pub open spec fn requested_urls(self, bands: Seq<String>) -> Map<Seq<char>, String> {
        Map::new(
            |k: Seq<char>|
                self.band_url(k) is Some && exists|i: int|
                    0 <= i < bands.len() && (#[trigger] bands[i])@ == k,
            |k: Seq<char>| self.band_url(k)->0,
        )
    }

    /// URLs of those among the bands that the item has and of its class layer, by band
    /// code.
    pub open spec fn url_map(self, bands: Seq<String>) -> Map<Seq<char>, String> {
        match self.href("scl"@) {
            Some(url) => self.requested_urls(bands).insert("SCL"@, url),
            None => self.requested_urls(bands),
        }
    }

    /// The item has a URL for every band.
    pub open spec fn has_bands(self, bands: Seq<String>) -> bool {
        forall|i: int| 0 <= i < bands.len() ==> self.band_url((#[trigger] bands[i])@) is Some
    }

    /// The item can be rendered: it has every band, the class layer and a projection.
    pub open spec fn complete(self, bands: Seq<String>) -> bool {
        &&& forall|i: int|
            0 <= i < bands.len() && config::asset_of((#[trigger] bands[i])@) is Some ==> self.assets@.contains_key(
                config::asset_of(bands[i]@)->0,
            )
        &&& self.assets@.contains_key("scl"@)
        &&& self.properties.proj_epsg is Some
    }

    /// Cloud cover, 100 percent where the item gives none.
    pub fn cloud_cover(&self) -> (c: Real)
        ensures
            c == self.cover(),
            self.properties.cloud_cover matches Some(own) ==> c.bits == own.bits,
            self.properties.cloud_cover is None ==> c.bits == 0x4059_0000_0000_0000,
    {
        match self.properties.cloud_cover {
            Some(c) => c,
            None => Real::from_bits(FULL_COVER),
        }
    }

    /// EPSG code of the item's projection.
    pub fn epsg(&self) -> (e: Option<u32>)
        ensures
            e == self.properties.proj_epsg,
    {
        self.properties.proj_epsg
    }

    /// URL of an asset.
    pub fn asset_href(&self, asset_key: &str) -> (href: Option<String>)
        ensures
            href == self.href(asset_key@),
            href is Some <==> self.assets@.contains_key(asset_key@),
            href matches Some(url) ==> url@ == self.assets@[asset_key@].href@,
    {
        match self.assets.get(asset_key) {
            Some(a) => Some(a.href.clone()),
            None => None,
        }
    }

    /// URLs of those among the bands that the item has, by band code.
    pub fn spectral_urls(&self, bands: &Vec<String>) -> (urls: TextMap<String>)
        ensures
            urls@ == self.requested_urls(bands@),
    {
        let mut urls: TextMap<String> = TextMap::new();
        assert(urls@ =~= self.requested_urls(bands@.take(0)));
        for i in 0..bands.len()
            invariant
                urls@ == self.requested_urls(bands@.take(i as int)),
        {
            let ghost before = urls@;
            let ghost some = bands@.take(i as int);
            let ghost more = bands@.take(i + 1);
            let ghost band = bands@[i as int];
            if let Some(asset) = band_to_asset(bands[i].as_str()) {
                if let Some(href) = self.asset_href(asset) {
                    urls = urls.with(bands[i].clone(), href);
                }
            }
            proof {
                assert(more[i as int] == band);
                assert forall|k: Seq<char>| #[trigger]
                    urls@.contains_key(k) <==> self.requested_urls(more).contains_key(k) by {
                    if before.contains_key(k) {
                        let j = choose|j: int| 0 <= j < some.len() && (#[trigger] some[j])@ == k;
                        assert(more[j]@ == k);
                    }
                    if self.requested_urls(more).contains_key(k) {
                        let j = choose|j: int| 0 <= j < more.len() && (#[trigger] more[j])@ == k;
                        if j < i {
                            assert(some[j]@ == k);
                        }
                    }
                }
                assert(urls@ =~= self.requested_urls(more));
            }
        }
        assert(bands@.take(bands@.len() as int) =~= bands@);
        urls
    }

    /// URLs of those among the bands that the item has and of its class layer, by band
    /// code; that of the class layer is `SCL`.
    pub fn band_urls(&self, bands: &Vec<String>) -> (urls: TextMap<String>)
        ensures
            urls@ == self.url_map(bands@),
    {
        let urls = self.spectral_urls(bands);
        match self.scl_url() {
            Some(href) => urls.with("SCL".to_owned(), href),
            None => urls,
        }
    }

    /// URL of the class layer.
    pub fn scl_url(&self) -> (href: Option<String>)
        ensures
            href == self.href("scl"@),
    {
        self.asset_href("scl")
    }

    /// The item can be rendered with these bands.
    fn is_complete(&self, bands: &Vec<String>) -> (r: bool)
        ensures
            r == self.complete(bands@),
    {
        let mut i: usize = 0;
        while i < bands.len()
            invariant
                i <= bands@.len(),
                forall|j: int|
                    0 <= j < i && config::asset_of((#[trigger] bands@[j])@) is Some ==> self.assets@.contains_key(
                        config::asset_of(bands@[j]@)->0,
                    ),
            decreases bands@.len() - i,
        {
            if let Some(asset) = band_to_asset(bands[i].as_str()) {
                if !self.assets.contains_key(asset) {
                    assert(config::asset_of(bands@[i as int]@) is Some);
                    return false;
                }
            }
            i += 1;
        }
        self.assets.contains_key("scl") && self.properties.proj_epsg.is_some()
    }
}

/// The URL of a band is that of the asset that holds it, and only bands that were asked for
/// have one among the URLs of an item, with the class layer as a further one.
pub proof fn urls_come_from_assets(item: StacItem, bands: Seq<String>, k: Seq<char>)
    ensures
        item.requested_urls(bands).contains_key(k) <==> {
            &&& exists|i: int| 0 <= i < bands.len() && (#[trigger] bands[i])@ == k
            &&& config::asset_of(k) is Some
            &&& item.assets@.contains_key(config::asset_of(k)->0)
        },
        item.requested_urls(bands).contains_key(k) ==> item.requested_urls(bands)[k]
            == item.assets@[config::asset_of(k)->0].href,
        item.url_map(bands).contains_key(k) <==> item.requested_urls(bands).contains_key(k) || (k
            == "SCL"@ && item.assets@.contains_key("scl"@)),
        k == "SCL"@ && item.assets@.contains_key("scl"@) ==> item.url_map(bands)[k]
            == item.assets@["scl"@].href,
        k != "SCL"@ && item.requested_urls(bands).contains_key(k) ==> item.url_map(bands)[k]
            == item.requested_urls(bands)[k],
{
}

/// An item has as many URLs of bands as bands are asked for exactly when the bands are
/// different and the item has every one.
pub proof fn full_band_count(item: StacItem, bands: Seq<String>)
    ensures
        item.requested_urls(bands).dom().finite(),
        item.requested_urls(bands).len() == bands.len() <==> item.has_bands(bands) && different(
            bands,
        ),
        item.requested_urls(bands).len() <= bands.len(),
    decreases bands.len(),
{
    if bands.len() == 0 {
        assert(item.requested_urls(bands) =~= Map::empty());
    } else {
        let less = bands.drop_last();
        let last = bands.last()@;
        full_band_count(item, less);
        let m = item.requested_urls(less);
        let n = item.requested_urls(bands);
        let grows = item.band_url(last) is Some && !m.contains_key(last);
        assert forall|k: Seq<char>| #[trigger] n.contains_key(k) <==> (m.contains_key(k) || (k == last
            && item.band_url(last) is Some)) by {
            if n.contains_key(k) {
                let j = choose|j: int| 0 <= j < bands.len() && (#[trigger] bands[j])@ == k;
                if j < less.len() {
                    assert(less[j]@ == k);
                }
            }
            if m.contains_key(k) {
                let j = choose|j: int| 0 <= j < less.len() && (#[trigger] less[j])@ == k;
                assert(bands[j]@ == k);
            }
            if k == last {
                assert(bands[bands.len() - 1]@ == k);
            }
        }
        if grows {
            assert(n =~= m.insert(last, item.band_url(last)->0));
        } else {
            assert(n =~= m);
        }
        if n.len() == bands.len() {
            assert(grows);
            assert forall|i: int| 0 <= i < bands.len() implies item.band_url(
                (#[trigger] bands[i])@,
            ) is Some by {
                if i < less.len() {
                    assert(less[i] == bands[i]);
                }
            }
            assert forall|i: int, j: int| 0 <= i < j < bands.len() implies (#[trigger] bands[i])@ != (
            #[trigger] bands[j])@ by {
                assert(less[i] == bands[i]);
                if j < less.len() {
                    assert(less[j] == bands[j]);
                } else if bands[i]@ == bands[j]@ {
                    assert(m.contains_key(last));
                }
            }
        }
        if item.has_bands(bands) && different(bands) {
            assert forall|i: int| 0 <= i < less.len() implies item.band_url(
                (#[trigger] less[i])@,
            ) is Some by {
                assert(less[i] == bands[i]);
            }
            assert forall|i: int, j: int| 0 <= i < j < less.len() implies (#[trigger] less[i])@ != (
            #[trigger] less[j])@ by {
                assert(less[i] == bands[i] && less[j] == bands[j]);
            }
            assert(item.band_url(bands[bands.len() - 1]@) is Some);
            if m.contains_key(last) {
                let j = choose|j: int| 0 <= j < less.len() && (#[trigger] less[j])@ == last;
                assert(bands[j]@ != bands[bands.len() - 1]@);
            }
        }
    }
}

/// The URLs of an item hold nothing but the bands asked for and the class layer, each
/// with the URL of its asset, and they hold every band asked for exactly when the item
/// has each of them.
pub proof fn full_url_map(item: StacItem, bands: Seq<String>)
    ensures
        forall|k: Seq<char>| #[trigger]
            item.url_map(bands).contains_key(k) <==> item.band_url(k) is Some && (k == "SCL"@
                || exists|i: int| 0 <= i < bands.len() && (#[trigger] bands[i])@ == k),
        forall|k: Seq<char>| #[trigger]
            item.url_map(bands).contains_key(k) ==> Some(item.url_map(bands)[k]) == item.band_url(k),
        item.url_map(bands).contains_key("SCL"@) <==> item.href("scl"@) is Some,
        item.has_bands(bands) <==> forall|i: int|
            0 <= i < bands.len() ==> item.url_map(bands).contains_key((#[trigger] bands[i])@),
{
    config::lemma_class_band();
    let m = item.url_map(bands);
    assert forall|i: int| 0 <= i < bands.len() implies (m.contains_key((#[trigger] bands[i])@)
        <==> item.band_url(bands[i]@) is Some) by {
        assert(bands[i]@ == bands[i]@);
    }
    if forall|i: int| 0 <= i < bands.len() ==> m.contains_key((#[trigger] bands[i])@) {
        assert forall|i: int| 0 <= i < bands.len() implies item.band_url(
            (#[trigger] bands[i])@,
        ) is Some by {
            assert(m.contains_key(bands[i]@));
        }
    }
}

// ─── Choice of items ────────────────────────────────────────────────────────

/// The item at `i` is taken: it is the first with its id and can be rendered.
pub open spec fn taken(items: Seq<StacItem>, bands: Seq<String>, i: int) -> bool {
    &&& 0 <= i < items.len()
    &&& items[i].complete(bands)
    &&& forall|j: int| 0 <= j < i ==> (#[trigger] items[j]).id@ != items[i].id@
}

/// One item precedes another: by cloud cover, then by id.
pub open spec fn precedes(a: StacItem, b: StacItem) -> bool {
    a.cover().rank() < b.cover().rank() || (a.cover().rank() == b.cover().rank() && order::text_le(
        a.id@,
        b.id@,
    ) && a.id@ != b.id@)
}

/// `p` lists the items to take, in order.
pub open spec fn selection(items: Seq<StacItem>, bands: Seq<String>, p: Seq<usize>) -> bool {
    &&& p.no_duplicates()
    &&& forall|i: usize| #[trigger] p.contains(i) <==> taken(items, bands, i as int)
    &&& forall|a: int, b: int|
        0 <= a < b < p.len() ==> precedes(
            items[#[trigger] p[a] as int],
            items[#[trigger] p[b] as int],
        )
}

/// Of the items found, take one per id, leave out those that cannot be rendered, and
/// order the rest by cloud cover.
pub fn select_items(items: Vec<StacItem>, bands: &Vec<String>) -> (r: Vec<StacItem>)
    ensures
        exists|p: Seq<usize>|
            #[trigger] selection(items@, bands@, p) && r@ == p.map_values(
                |i: usize| items@[i as int],
            ),
{
    let ghost all = items@;
    let n: usize = items.len();
    let mut ids: Vec<String> = Vec::new();
    for i in 0..n
        invariant
            n == items@.len(),
            all == items@,
            ids@.len() == i,
            forall|j: int| 0 <= j < i ==> #[trigger] ids@[j] == all[j].id,
    {
        ids.push(items[i].id.clone());
    }
    let by_id = stable_order(&ids);
    proof {
        assert forall|t: int| 0 <= t < n implies #[trigger] by_id@[t] < n by {
            assert(by_id@.contains(by_id@[t]));
        }
    }
    let mut kept: Vec<usize> = Vec::new();
    let mut covers: Vec<i64> = Vec::new();
    for t in 0..n
        invariant
            n == items@.len(),
            all == items@,
            ids@.len() == n,
            forall|j: int| 0 <= j < n ==> #[trigger] ids@[j] == all[j].id,
            order::arranged(ids@, by_id@),
            order::lists_range(by_id@, 0, n as int),
            forall|s: int| 0 <= s < n ==> #[trigger] by_id@[s] < n,
            kept@.len() == covers@.len(),
            forall|k: int| 0 <= k < kept@.len() ==> #[trigger] covers@[k] == all[kept@[k] as int].cover().rank(),
            forall|k: int| 0 <= k < kept@.len() ==> taken(all, bands@, #[trigger] kept@[k] as int),
            forall|k: int| 0 <= k < kept@.len() ==> by_id@.take(t as int).contains(#[trigger] kept@[k]),
            forall|s: int|
                0 <= s < t && taken(all, bands@, #[trigger] by_id@[s] as int) ==> kept@.contains(
                    by_id@[s],
                ),
            forall|a: int, b: int|
                0 <= a < b < kept@.len() ==> order::comes_before(
                    ids@,
                    #[trigger] kept@[a] as int,
                    #[trigger] kept@[b] as int,
                ),
    {
        let at: usize = by_id[t];
        let fresh: bool = t == 0 || !str_eq(ids[by_id[t - 1]].as_str(), ids[at].as_str());
        let whole: bool = items[at].is_complete(bands);
        proof {
            lemma_first_of_id(all, ids@, by_id@, t as int);
            assert((fresh && whole) == taken(all, bands@, at as int));
        }
        let ghost before = kept@;
        if fresh && whole {
            proof {
                assert forall|a: int| 0 <= a < kept@.len() implies order::comes_before(
                    ids@,
                    #[trigger] kept@[a] as int,
                    at as int,
                ) by {
                    let some = by_id@.take(t as int);
                    let s = choose|s: int| 0 <= s < some.len() && some[s] == kept@[a];
                    assert(order::comes_before(ids@, by_id@[s] as int, by_id@[t as int] as int));
                }
            }
            kept.push(at);
            covers.push(items[at].cloud_cover().order());
        }
        proof {
            let some = by_id@.take(t as int);
            let more = by_id@.take(t + 1);
            assert(more[t as int] == at);
            assert forall|k: int| 0 <= k < kept@.len() implies more.contains(#[trigger] kept@[k]) by {
                if k < before.len() {
                    assert(some.contains(before[k]));
                    let s = choose|s: int| 0 <= s < some.len() && some[s] == before[k];
                    assert(more[s] == kept@[k]);
                }
            }
            assert forall|s: int|
                0 <= s < t + 1 && taken(all, bands@, #[trigger] by_id@[s] as int) implies kept@.contains(
                by_id@[s],
            ) by {
                if s < t {
                    assert(before.contains(by_id@[s]));
                    let k = choose|k: int| 0 <= k < before.len() && before[k] == by_id@[s];
                    assert(kept@[k] == by_id@[s]);
                } else {
                    assert(kept@[kept@.len() - 1] == at);
                }
            }
        }
    }
    let count: usize = kept.len();
    let by_cover = stable_order(&covers);
    let mut p: Vec<usize> = Vec::new();
    proof {
        assert forall|k: int| 0 <= k < by_cover@.len() implies #[trigger] by_cover@[k] < kept@.len() by {
            assert(by_cover@.contains(by_cover@[k]));
        }
    }
    for k in 0..count
        invariant
            forall|j: int| 0 <= j < by_cover@.len() ==> #[trigger] by_cover@[j] < kept@.len(),
            count == by_cover@.len(),
            p@.len() == k,
            forall|j: int| 0 <= j < k ==> #[trigger] p@[j] == kept@[by_cover@[j] as int],
    {
        p.push(kept[by_cover[k]]);
    }
    proof {
        lemma_selected(all, bands@, ids@, by_id@, kept@, covers@, by_cover@, p@);
        assert forall|i: int| 0 <= i < p@.len() implies #[trigger] p@[i] < all.len() by {
            assert(p@.contains(p@[i]));
            assert(taken(all, bands@, p@[i] as int));
        }
    }
    let r = take_in_order(items, &p);
    assert(r@ =~= p@.map_values(|i: usize| all[i as int]));
    r
}

/// In the order by id, an item is the first with its id exactly when its predecessor
/// has another one.
proof fn lemma_first_of_id(items: Seq<StacItem>, ids: Seq<String>, p: Seq<usize>, t: int)
    requires
        ids.len() == items.len(),
        forall|j: int| 0 <= j < ids.len() ==> #[trigger] ids[j] == items[j].id,
        order::arranged(ids, p),
        order::lists_range(p, 0, ids.len() as int),
        0 <= t < p.len(),
    ensures
        p[t] < items.len(),
        (t == 0 || ids[p[t - 1] as int]@ != ids[p[t] as int]@) <==> (forall|j: int|
            0 <= j < p[t] ==> (#[trigger] items[j]).id@ != items[p[t] as int].id@),
{
    assert(p.contains(p[t]));
    let at = p[t] as int;
    if t > 0 {
        assert(p.contains(p[t - 1]));
        assert(order::comes_before(ids, p[t - 1] as int, at));
    }
    if t > 0 && ids[p[t - 1] as int]@ == ids[at]@ {
        let j = p[t - 1] as int;
        <String as order::Key>::order_total(ids[at], ids[at]);
        assert(j < at);
        assert(items[j].id@ == items[at].id@);
    } else {
        assert forall|j: int| 0 <= j < at implies (#[trigger] items[j]).id@ != items[at].id@ by {
            if items[j].id@ == items[at].id@ {
                assert(p.contains(j as usize));
                let s = choose|s: int| 0 <= s < p.len() && p[s] == j as usize;
                assert(ids[j] == items[j].id);
                <String as order::Key>::order_total(ids[at], ids[at]);
                if s > t {
                    assert(order::comes_before(ids, p[t] as int, p[s] as int));
                }
                assert(s < t);
                let q = p[t - 1] as int;
                if s < t - 1 {
                    assert(order::comes_before(ids, p[s] as int, p[t - 1] as int));
                }
                assert(order::text_le(ids[j]@, ids[q]@));
                assert(order::text_le(ids[q]@, ids[at]@));
                order::text_order_antisymmetric(ids[q]@, ids[at]@);
            }
        }
    }
}

/// Ordering the kept items by cloud cover gives the selection.
proof fn lemma_selected(
    items: Seq<StacItem>,
    bands: Seq<String>,
    ids: Seq<String>,
    by_id: Seq<usize>,
    kept: Seq<usize>,
    covers: Seq<i64>,
    by_cover: Seq<usize>,
    p: Seq<usize>,
)
    requires
        ids.len() == items.len(),
        forall|j: int| 0 <= j < ids.len() ==> #[trigger] ids[j] == items[j].id,
        order::lists_range(by_id, 0, items.len() as int),
        items.len() <= usize::MAX,
        kept.len() == covers.len(),
        kept.len() <= usize::MAX,
        forall|k: int|
            0 <= k < kept.len() ==> #[trigger] covers[k] == items[kept[k] as int].cover().rank(),
        forall|k: int| 0 <= k < kept.len() ==> taken(items, bands, #[trigger] kept[k] as int),
        forall|s: int|
            0 <= s < by_id.len() && taken(items, bands, #[trigger] by_id[s] as int) ==> kept.contains(
                by_id[s],
            ),
        forall|a: int, b: int|
            0 <= a < b < kept.len() ==> order::comes_before(
                ids,
                #[trigger] kept[a] as int,
                #[trigger] kept[b] as int,
            ),
        order::arranged(covers, by_cover),
        order::lists_range(by_cover, 0, covers.len() as int),
        p.len() == by_cover.len(),
        forall|j: int| 0 <= j < p.len() ==> #[trigger] p[j] == kept[by_cover[j] as int],
    ensures
        selection(items, bands, p),
{
    assert forall|k: int| 0 <= k < by_cover.len() implies #[trigger] by_cover[k] < kept.len() by {
        assert(by_cover.contains(by_cover[k]));
    }
    assert forall|a: int, b: int| 0 <= a < b < kept.len() implies items[#[trigger] kept[a] as int].id@
        != items[#[trigger] kept[b] as int].id@ && order::text_le(
        items[kept[a] as int].id@,
        items[kept[b] as int].id@,
    ) by {
        let (x, y) = (kept[a] as int, kept[b] as int);
        assert(order::comes_before(ids, x, y));
        assert(taken(items, bands, x) && taken(items, bands, y));
        assert(ids[x] == items[x].id && ids[y] == items[y].id);
        if items[x].id@ == items[y].id@ {
            <String as order::Key>::order_total(ids[x], ids[x]);
            assert(x < y);
        }
    }
    assert forall|a: int, b: int| 0 <= a < b < p.len() implies precedes(
        items[#[trigger] p[a] as int],
        items[#[trigger] p[b] as int],
    ) by {
        let (x, y) = (by_cover[a] as int, by_cover[b] as int);
        assert(order::comes_before(covers, x, y));
        assert(p[a] == kept[x] && p[b] == kept[y]);
        if covers[x] == covers[y] {
            assert(x < y);
            assert(items[kept[x] as int].id@ != items[kept[y] as int].id@);
        }
    }
    assert forall|a: int, b: int| 0 <= a < b < p.len() implies p[a] != p[b] by {
        assert(precedes(items[p[a] as int], items[p[b] as int]));
    }
    assert forall|i: usize| #[trigger] p.contains(i) <==> taken(items, bands, i as int) by {
        if p.contains(i) {
            let a = choose|a: int| 0 <= a < p.len() && p[a] == i;
            assert(p[a] == kept[by_cover[a] as int]);
        }
        if taken(items, bands, i as int) {
            assert(by_id.contains(i));
            let s = choose|s: int| 0 <= s < by_id.len() && by_id[s] == i;
            assert(kept.contains(by_id[s]));
            let k = choose|k: int| 0 <= k < kept.len() && kept[k] == i;
            assert(by_cover.contains(k as usize));
            let a = choose|a: int| 0 <= a < by_cover.len() && by_cover[a] == k as usize;
            assert(p[a] == i);
        }
    }
}

/// No two selected items have the same id, cloud cover never falls along the
/// selection, and every one can be rendered.
pub proof fn selection_is_sound(items: Seq<StacItem>, bands: Seq<String>, p: Seq<usize>)
    requires
        selection(items, bands, p),
    ensures
        forall|a: int, b: int|
            0 <= a < b < p.len() ==> items[#[trigger] p[a] as int].id@ != items[#[trigger] p[b] as int].id@,
        forall|a: int, b: int|
            0 <= a < b < p.len() ==> items[#[trigger] p[a] as int].cover().rank()
                <= items[#[trigger] p[b] as int].cover().rank(),
        forall|a: int| 0 <= a < p.len() ==> items[#[trigger] p[a] as int].complete(bands),
{
    assert forall|a: int| 0 <= a < p.len() implies taken(items, bands, #[trigger] p[a] as int) by {
        assert(p.contains(p[a]));
    }
    assert forall|a: int, b: int| 0 <= a < b < p.len() implies items[#[trigger] p[a] as int].id@
        != items[#[trigger] p[b] as int].id@ by {
        let (x, y) = (p[a] as int, p[b] as int);
        assert(taken(items, bands, x) && taken(items, bands, y));
        assert(x != y);
        if items[x].id@ == items[y].id@ {
            if x < y {
                assert(items[x].id@ != items[y].id@);
            } else {
                assert(items[y].id@ != items[x].id@);
            }
        }
    }
    assert forall|a: int, b: int| 0 <= a < b < p.len() implies items[#[trigger] p[a] as int].cover().rank()
        <= items[#[trigger] p[b] as int].cover().rank() by {
        assert(precedes(items[p[a] as int], items[p[b] as int]));
    }
}

/// What a selection holds. An item is selected exactly when it is the first with its id,
/// has the asset of every band that has one, the class layer and a projection. Selected
/// items are ordered by cloud cover and, where that is the same, by the bytes of their ids.
pub proof fn selection_by_items(items: Seq<StacItem>, bands: Seq<String>, p: Seq<usize>)
    requires
        selection(items, bands, p),
        items.len() <= usize::MAX,
    ensures
        forall|a: int, b: int| 0 <= a < b < p.len() ==> #[trigger] p[a] != #[trigger] p[b],
        forall|i: int|
            0 <= i < items.len() ==> (p.contains(i as usize) <==> {
                let item = #[trigger] items[i];
                &&& forall|j: int| 0 <= j < i ==> (#[trigger] items[j]).id@ != item.id@
                &&& forall|b: int|
                    0 <= b < bands.len() && config::asset_of((#[trigger] bands[b])@) is Some
                        ==> item.assets@.contains_key(config::asset_of(bands[b]@)->0)
                &&& item.assets@.contains_key("scl"@)
                &&& item.properties.proj_epsg is Some
            }),
        forall|a: int| 0 <= a < p.len() ==> #[trigger] p[a] < items.len(),
        forall|a: int, b: int|
            0 <= a < b < p.len() ==> {
                let s = items[#[trigger] p[a] as int];
                let t = items[#[trigger] p[b] as int];
                &&& s.cover().rank() <= t.cover().rank()
                &&& s.cover().rank() == t.cover().rank() ==> order::text_le(s.id@, t.id@)
            },
{
    assert forall|a: int| 0 <= a < p.len() implies #[trigger] p[a] < items.len() by {
        assert(p.contains(p[a]));
    }
    assert forall|i: int| 0 <= i < items.len() implies (p.contains(i as usize) <==> {
        let item = #[trigger] items[i];
        &&& forall|j: int| 0 <= j < i ==> (#[trigger] items[j]).id@ != item.id@
        &&& forall|b: int|
            0 <= b < bands.len() && config::asset_of((#[trigger] bands[b])@) is Some
                ==> item.assets@.contains_key(config::asset_of(bands[b]@)->0)
        &&& item.assets@.contains_key("scl"@)
        &&& item.properties.proj_epsg is Some
    }) by {
        assert(p.contains(i as usize) <==> taken(items, bands, i));
    }
    assert forall|a: int, b: int| 0 <= a < b < p.len() implies {
        let s = items[#[trigger] p[a] as int];
        let t = items[#[trigger] p[b] as int];
        &&& s.cover().rank() <= t.cover().rank()
        &&& s.cover().rank() == t.cover().rank() ==> order::text_le(s.id@, t.id@)
    } by {
        assert(precedes(items[p[a] as int], items[p[b] as int]));
    }
}

// ─── Requests and pages ─────────────────────────────────────────────────────

/// Items asked for per page.
pub const PAGE_LIMIT: u32 = 200;

/// After this many pages no further one is asked for.
pub const LAST_PAGE: usize = 50;

/// What a search asks for.
#[derive(Debug)]
pub struct SearchRequest {
    pub url: String,
    pub collection: String,
    pub bbox: [Real; 4],
    pub datetime: String,
    /// Cloud cover of the items is below this.
    pub max_cloud_cover: Real,
    pub limit: u32,
}

/// The search of a tileset for one period.
pub fn search_request(config: &S2Config, datetime_range: &str) -> (q: SearchRequest)
    ensures
        q.url@ == text::without_end_slashes(config.stac_url@) + "/search"@,
        q.collection == config.collection,
        q.bbox == config.extent,
        q.datetime@ == datetime_range@,
        q.max_cloud_cover == config.max_cloud_cover,
        q.limit == PAGE_LIMIT,
        q.limit == 200,
{
    let mut url = trim_end_slashes(config.stac_url.as_str());
    url.append("/search");
    SearchRequest {
        url,
        collection: config.collection.clone(),
        bbox: config.extent,
        datetime: datetime_range.to_owned(),
        max_cloud_cover: config.max_cloud_cover,
        limit: PAGE_LIMIT,
    }
}

/// A link of a result page, its body of a kind that only the caller knows.
#[derive(Debug)]
pub struct StacLink<B> {
    pub rel: String,
    pub href: Option<String>,
    pub method: Option<String>,
    pub body: Option<B>,
}

/// The body of a page request.
#[derive(Debug)]
pub enum PageBody<B> {
    /// The search itself.
    Search,
    /// What a link gave.
    Linked(B),
    /// An empty object.
    Empty,
}

/// The page request to make next.
#[derive(Debug)]
pub struct PageRequest<B> {
    pub url: String,
    pub body: PageBody<B>,
    /// Pages received so far.
    pub page: usize,
}

/// The first page of a search.
pub fn first_page<B>(search_url: &str) -> (q: PageRequest<B>)
    ensures
        q.url@ == search_url@,
        q.body == PageBody::<B>::Search,
        q.page == 0,
{
    PageRequest { url: search_url.to_owned(), body: PageBody::Search, page: 0 }
}

/// Position of the first link to a next page from `i` on.
pub open spec fn next_link_from<B>(links: Seq<StacLink<B>>, i: int) -> Option<int>
    decreases links.len() - i,
{
    if i < 0 || i >= links.len() {
        None
    } else if links[i].rel@ == "next"@ {
        Some(i)
    } else {
        next_link_from(links, i + 1)
    }
}

/// Where a link to a next page leads: one to be posted may change body and address, any
/// other one is followed with an empty body and needs an address.
pub open spec fn follow<B>(q: PageRequest<B>, link: StacLink<B>) -> Option<(String, PageBody<B>)> {
    if link.method is Some && link.method->0@ == "POST"@ {
        Some(
            (
                match link.href {
                    Some(href) => href,
                    None => q.url,
                },
                match link.body {
                    Some(body) => PageBody::Linked(body),
                    None => q.body,
                },
            ),
        )
    } else {
        match link.href {
            Some(href) => Some((href, PageBody::Empty)),
            None => None,
        }
    }
}

/// The request after a page with `found` items and these links, if there is to be one:
/// not after an empty page, without a link to follow, or past the last page.
pub open spec fn page_after<B>(
    q: PageRequest<B>,
    found: int,
    links: Seq<StacLink<B>>,
) -> Option<PageRequest<B>> {
    match next_link_from(links, 0) {
        Some(i) if found > 0 && q.page + 1 <= LAST_PAGE => match follow(q, links[i]) {
            Some(t) => Some(PageRequest { url: t.0, body: t.1, page: (q.page + 1) as usize }),
            None => None,
        },
        _ => None,
    }
}

/// The request to make after a page, given its number of items and its links.
pub fn next_page<B>(q: PageRequest<B>, found: usize, links: Vec<StacLink<B>>) -> (r: Option<
    PageRequest<B>,
>)
    requires
        q.page <= LAST_PAGE,
    ensures
        r == page_after(q, found as int, links@),
{
    let mut i: usize = 0;
    let mut links = links;
    let ghost all = links@;
    while i < links.len() && !str_eq(links[i].rel.as_str(), "next")
        invariant
            i <= links@.len(),
            links@ == all,
            next_link_from(all, 0) == next_link_from(all, i as int),
        decreases links@.len() - i,
    {
        i += 1;
    }
    if i == links.len() || found == 0 {
        return None;
    }
    let link = links.swap_remove(i);
    let posted: bool = match &link.method {
        Some(method) => str_eq(method.as_str(), "POST"),
        None => false,
    };
    let (url, body): (String, PageBody<B>) = if posted {
        let body = match link.body {
            Some(body) => PageBody::Linked(body),
            None => q.body,
        };
        let url = match link.href {
            Some(href) => href,
            None => q.url,
        };
        (url, body)
    } else {
        match link.href {
            Some(href) => (href, PageBody::Empty),
            None => {
                return None;
            },
        }
    };
    let page: usize = q.page + 1;
    if page > LAST_PAGE {
        return None;
    }
    Some(PageRequest { url, body, page })
}

/// The link that is followed is the first one to a next page.
pub proof fn first_next_link<B>(links: Seq<StacLink<B>>, from: int)
    requires
        0 <= from <= links.len(),
    ensures
        next_link_from(links, from) matches Some(i) ==> {
            &&& from <= i < links.len()
            &&& links[i].rel@ == "next"@
            &&& forall|j: int| from <= j < i ==> (#[trigger] links[j]).rel@ != "next"@
        },
        next_link_from(links, from) is None ==> forall|j: int|
            from <= j < links.len() ==> (#[trigger] links[j]).rel@ != "next"@,
    decreases links.len() - from,
{
    if from < links.len() && links[from].rel@ != "next"@ {
        first_next_link(links, from + 1);
    }
}

/// How a search goes on after a page, where the first link to a next page is at `i`. It
/// ends with an empty page and after fifty pages. A link to be posted replaces the address
/// and the body as far as it gives them; any other link is asked for at its own address
/// with an empty body, and ends the search where it gives none.
pub proof fn search_goes_on<B>(
    q: PageRequest<B>,
    found: int,
    links: Seq<StacLink<B>>,
    i: int,
)
    requires
        q.page <= LAST_PAGE,
        found >= 0,
        0 <= i < links.len(),
        links[i].rel@ == "next"@,
        forall|j: int| 0 <= j < i ==> (#[trigger] links[j]).rel@ != "next"@,
    ensures
        ({
            let link = links[i];
            let posted = link.method is Some && link.method->0@ == "POST"@;
            let next = page_after(q, found, links);
            &&& next is Some <==> found > 0 && q.page < 50 && (posted || link.href is Some)
            &&& next is Some ==> next->0.page == q.page + 1
            &&& next is Some && link.href is Some ==> next->0.url == link.href->0
            &&& next is Some && link.href is None ==> next->0.url == q.url
            &&& next is Some && !posted ==> next->0.body is Empty
            &&& next is Some && posted && link.body is Some ==> next->0.body == PageBody::Linked(
                link.body->0,
            )
            &&& next is Some && posted && link.body is None ==> next->0.body == q.body
        }),
{
    first_next_link(links, 0);
    match next_link_from(links, 0) {
        Some(k) => {
            if k < i {
                assert(links[k].rel@ != "next"@);
            } else if i < k {
                assert(links[i].rel@ != "next"@);
            }
        },
        None => {
            assert(links[i].rel@ != "next"@);
        },
    }
}

/// Without a link to a next page a search ends.
pub proof fn search_ends<B>(q: PageRequest<B>, found: int, links: Seq<StacLink<B>>)
    requires
        forall|j: int| 0 <= j < links.len() ==> (#[trigger] links[j]).rel@ != "next"@,
    ensures
        page_after(q, found, links) is None,
{
    first_next_link(links, 0);
}

/// A search asks for one page more each time, and for a bounded number of pages in all.
pub proof fn pages_are_bounded<B>(q: PageRequest<B>, found: int, links: Seq<StacLink<B>>)
    requires
        q.page <= LAST_PAGE,
    ensures
        page_after(q, found, links) matches Some(next) ==> next.page == q.page + 1 && next.page
            <= LAST_PAGE,
{
}

} // verus!
