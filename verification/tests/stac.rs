use s2_tiler::config::{Composite, S2Config};
use s2_tiler::number::Real;
use s2_tiler::stac::{
    first_page, next_page, search_request, select_items, PageBody, PageRequest, StacAsset,
    StacItem, StacItemProperties, StacLink,
};
use s2_tiler::textmap::TextMap;

fn num(v: f64) -> Real {
    Real::from_bits(v.to_bits())
}

fn texts(list: &[&str]) -> Vec<String> {
    list.iter().map(|s| s.to_string()).collect()
}

fn item(id: &str, cloud: Option<f64>, assets: &[&str], epsg: Option<u32>) -> StacItem {
    let mut map = TextMap::new();
    for a in assets {
        map = map.with(
            a.to_string(),
            StacAsset { href: format!("https://x/{id}/{a}.tif"), media_type: None },
        );
    }
    StacItem {
        id: id.to_string(),
        bbox: None,
        properties: StacItemProperties {
            cloud_cover: cloud.map(num),
            datetime: None,
            proj_epsg: epsg,
        },
        assets: map,
    }
}

fn ids(items: &[StacItem]) -> Vec<String> {
    items.iter().map(|i| i.id.clone()).collect()
}

#[test]
fn cloud_cover_defaults_to_full() {
    assert_eq!(item("a", None, &[], None).cloud_cover(), num(100.0));
    assert_eq!(item("a", Some(3.5), &[], None).cloud_cover(), num(3.5));
    assert_eq!(item("a", None, &[], Some(32618)).epsg(), Some(32618));
}

#[test]
fn urls_are_found_by_band() {
    let i = item("a", None, &["red", "blue", "scl"], None);
    assert_eq!(i.asset_href("red"), Some("https://x/a/red.tif".to_string()));
    assert_eq!(i.asset_href("nir"), None);
    assert_eq!(i.scl_url(), Some("https://x/a/scl.tif".to_string()));
    let urls = i.band_urls(&texts(&["B04", "B08", "B02", "B99"]));
    assert_eq!(urls.len(), 3);
    assert_eq!(urls.get("SCL"), Some(&"https://x/a/scl.tif".to_string()));
    assert_eq!(urls.get("B04"), Some(&"https://x/a/red.tif".to_string()));
    assert_eq!(urls.get("B02"), Some(&"https://x/a/blue.tif".to_string()));
    assert_eq!(urls.get("B08"), None);
}

#[test]
fn spectral_urls_leave_out_the_class_layer() {
    let i = item("a", None, &["red", "blue", "scl"], None);
    let bands = texts(&["B04", "B03"]);
    let all = i.band_urls(&bands);
    assert_eq!((all.len(), all.contains_key("B04"), all.contains_key("SCL")), (2, true, true));
    assert!(!all.contains_key("B03") && !all.contains_key("B02"));
    let spectral = i.spectral_urls(&bands);
    assert_eq!((spectral.len(), spectral.contains_key("SCL")), (1, false));
    assert!(!item("b", None, &["red"], None).band_urls(&bands).contains_key("SCL"));
}

#[test]
fn a_repeated_band_has_one_url() {
    let i = item("a", None, &["red"], None);
    assert_eq!(i.band_urls(&texts(&["B04", "B04", "B04"])).len(), 1);
}

#[test]
fn items_are_chosen_and_ordered() {
    let full = ["red", "scl"];
    let items = vec![
        item("d", Some(5.0), &full, Some(1)),
        item("c", Some(9.0), &full, Some(1)),
        item("b", Some(5.0), &full, Some(1)),
        item("a", None, &full, Some(1)),
        item("no-scl", Some(0.0), &["red"], Some(1)),
        item("no-band", Some(0.0), &["scl"], Some(1)),
        item("no-epsg", Some(0.0), &full, None),
        item("c", Some(1.0), &full, Some(1)),
    ];
    let chosen = select_items(items, &texts(&["B04"]));
    assert_eq!(ids(&chosen), texts(&["b", "d", "c", "a"]));
    // of the two with id "c", the first one found stays
    assert_eq!(chosen[2].cloud_cover(), num(9.0));
}

#[test]
fn a_duplicate_does_not_stand_in() {
    let items = vec![
        item("a", Some(1.0), &["scl"], Some(1)),
        item("a", Some(1.0), &["red", "scl"], Some(1)),
    ];
    assert!(select_items(items, &texts(&["B04"])).is_empty());
}

#[test]
fn search_request_states_the_tileset() {
    let config = S2Config {
        name: "t".to_string(),
        extent: [num(1.0), num(2.0), num(3.0), num(4.0)],
        years: vec![2024],
        season: None,
        max_cloud_cover: num(12.0),
        bands: texts(&["B04"]),
        composite: Composite::BestPixel,
        rescale: [num(0.0), num(1.0)],
        max_scenes_per_tile: 6,
        haze_dn_max: 0,
        scl_masking: true,
        temporal_priority: false,
        minzoom: 1,
        maxzoom: 2,
        quadkey_zoom: 8,
        stac_url: "https://example.com/v1//".to_string(),
        collection: "s2".to_string(),
    };
    let q = search_request(&config, "2024-01-01/2024-02-01");
    assert_eq!(q.url, "https://example.com/v1/search");
    assert_eq!(q.collection, "s2");
    assert_eq!(q.bbox, config.extent);
    assert_eq!(q.datetime, "2024-01-01/2024-02-01");
    assert_eq!(q.max_cloud_cover, num(12.0));
    assert_eq!(q.limit, 200);
}

fn link(rel: &str, href: Option<&str>, method: Option<&str>, body: Option<u32>) -> StacLink<u32> {
    StacLink {
        rel: rel.to_string(),
        href: href.map(str::to_string),
        method: method.map(str::to_string),
        body,
    }
}

#[test]
fn posted_links_replace_what_they_give() {
    let first: PageRequest<u32> = first_page("https://s");
    assert_eq!(first.page, 0);
    let links = vec![link("self", Some("https://no"), None, None), link("next", None, Some("POST"), Some(7))];
    let second = next_page(first, 3, links).unwrap();
    assert_eq!(second.url, "https://s");
    assert_eq!(second.page, 1);
    assert!(matches!(second.body, PageBody::Linked(7)));
    let third = next_page(second, 3, vec![link("next", Some("https://t"), Some("POST"), None)]).unwrap();
    assert_eq!(third.url, "https://t");
    assert!(matches!(third.body, PageBody::Linked(7)));
}

#[test]
fn other_links_are_followed_with_an_empty_body() {
    let first: PageRequest<u32> = first_page("https://s");
    let second = next_page(first, 1, vec![link("next", Some("https://t"), Some("GET"), Some(7))]).unwrap();
    assert_eq!(second.url, "https://t");
    assert!(matches!(second.body, PageBody::Empty));
    assert!(next_page(second, 1, vec![link("next", None, None, None)]).is_none());
}

#[test]
fn search_ends_without_items_links_or_pages() {
    let next = || vec![link("next", Some("https://t"), None, None)];
    assert!(next_page(first_page("https://s"), 0, next()).is_none());
    assert!(next_page(first_page::<u32>("https://s"), 5, Vec::new()).is_none());
    let mut q: PageRequest<u32> = first_page("https://s");
    let mut pages = 1;
    while let Some(n) = next_page(q, 200, next()) {
        q = n;
        pages += 1;
    }
    assert_eq!(pages, 51);
}
