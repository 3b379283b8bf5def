use s2_tiler::cache::{
    build_tile_cache, is_elsewhere, CachePlan, LocalCache, MemoryCache, NoCache, ObjectStoreCache,
    TileKey,
};
use s2_tiler::config::TileCacheConfig;
use s2_tiler::locate::{locate, locate_parts, UrlParts};

#[test]
fn key_path_is_tileset_zoom_column_row() {
    let k = TileKey::new("massachusetts", 12, 1240, 1513, "png");
    assert_eq!(k.to_path(), "massachusetts/12/1240/1513.png");
}

#[test]
fn different_keys_have_different_paths() {
    let keys = [
        TileKey::new("a", 1, 2, 3, "png"),
        TileKey::new("a/1", 2, 3, 4, "png"),
        TileKey::new("a", 12, 3, 4, "png"),
        TileKey::new("a", 1, 23, 4, "png"),
        TileKey::new("a", 1, 2, 3, "jpg"),
        TileKey::new("b", 1, 2, 3, "png"),
    ];
    for i in 0..keys.len() {
        for j in 0..i {
            assert_ne!(keys[i].to_path(), keys[j].to_path());
        }
    }
}

#[test]
fn no_cache_keeps_nothing() {
    assert!(NoCache.get(&TileKey::new("a", 1, 2, 3, "png")).is_none());
}

#[test]
fn memory_cache_reads_the_last_write() {
    let mut c = MemoryCache::new();
    let k = TileKey::new("a", 1, 2, 3, "png");
    let other = TileKey::new("a", 1, 2, 3, "jpg");
    assert_eq!(c.get(&k), None);
    c.put(&k, vec![1, 2]);
    c.put(&other, vec![9]);
    assert_eq!(c.get(&k), Some(vec![1, 2]));
    c.put(&k, vec![3]);
    assert_eq!(c.get(&k), Some(vec![3]));
    assert_eq!(c.get(&other), Some(vec![9]));
}

#[test]
fn clearing_a_tileset_leaves_the_others() {
    let mut c = MemoryCache::new();
    let a = TileKey::new("a", 1, 2, 3, "png");
    let a2 = TileKey::new("a", 2, 2, 3, "png");
    let b = TileKey::new("ab", 1, 2, 3, "png");
    c.put(&a, vec![1]);
    c.put(&a2, vec![2]);
    c.put(&b, vec![3]);
    c.clear_tileset("a");
    assert_eq!(c.get(&a), None);
    assert_eq!(c.get(&a2), None);
    assert_eq!(c.get(&b), Some(vec![3]));
    let filed = ("a".to_string(), 1, 2, 3, "png".to_string());
    assert!(is_elsewhere(&filed, "b"));
    assert!(!is_elsewhere(&filed, "a"));
}

#[test]
fn local_cache_lays_out_directories() {
    let c = LocalCache::new("/var/cache/s2-tiler");
    let k = TileKey::new("t", 12, 1240, 1513, "webp");
    assert_eq!(c.tile_path(&k), ["/var/cache/s2-tiler", "t", "12", "1240", "1513.webp"]);
    assert_eq!(c.tileset_dir("t"), ["/var/cache/s2-tiler", "t"]);
}

#[test]
fn row_keys_keep_the_bits() {
    let row = TileKey::new("t", 200, u32::MAX, 7, "png").row_key();
    assert_eq!((row.tileset.as_str(), row.format.as_str()), ("t", "png"));
    assert_eq!((row.z, row.x, row.y), (200, -1, 7));
}

#[test]
fn object_paths_lie_under_the_prefix() {
    let k = TileKey::new("t", 12, 1240, 1513, "png");
    let c = ObjectStoreCache::new((), "tiles");
    assert_eq!(c.tile_path(&k), "tiles/t/12/1240/1513.png");
    assert_eq!(c.tileset_prefix("t"), "tiles/t");
    let bare = ObjectStoreCache::new((), "");
    assert_eq!(bare.tile_path(&k), "t/12/1240/1513.png");
    assert_eq!(bare.prefixed("x"), "x");
    // what an object store does not take is encoded, and empty segments are dropped
    assert_eq!(ObjectStoreCache::new((), "/a//b/").tileset_prefix("c#d"), "a/b/c%23d");
}

#[test]
fn stored_tiles_lie_in_their_tileset() {
    for (prefix, tileset) in [("tiles", "t"), ("", "t"), ("/a//b/", "c#d"), ("p", ""), ("", "x/y/")] {
        let c = ObjectStoreCache::new((), prefix);
        let path = c.tile_path(&TileKey::new(tileset, 12, 3, 4, "png"));
        let dir = c.tileset_prefix(tileset);
        assert!(path.strip_prefix(&format!("{dir}/")).is_some_and(|rest| rest == "12/3/4.png"));
    }
    let root = ObjectStoreCache::new((), "/");
    assert_eq!(root.tileset_prefix("//"), "");
    assert_eq!(root.tile_path(&TileKey::new("", 1, 2, 3, "png")), "1/2/3.png");
}

#[test]
fn backends_are_planned() {
    assert!(matches!(build_tile_cache(&TileCacheConfig::Disabled), CachePlan::Disabled));
    assert!(matches!(build_tile_cache(&TileCacheConfig::Memory), CachePlan::Memory));
    let local = TileCacheConfig::Local { path: "/x".to_string() };
    assert!(matches!(build_tile_cache(&local), CachePlan::Local(c) if c.root == "/x"));
    let duck = TileCacheConfig::Duckdb { path: "t.db".to_string() };
    assert!(matches!(build_tile_cache(&duck), CachePlan::Duckdb(p) if p == "t.db"));
}

#[test]
fn buckets_are_planned() {
    let s3 = TileCacheConfig::S3 {
        bucket: "b".to_string(),
        region: "eu-west-1".to_string(),
        prefix: Some("p".to_string()),
    };
    let CachePlan::Bucket(plan) = build_tile_cache(&s3) else { panic!() };
    assert_eq!((plan.bucket.as_str(), plan.region.as_str()), ("b", "eu-west-1"));
    assert_eq!(plan.endpoint, None);
    assert_eq!((plan.key_var, plan.secret_var), ("AWS_ACCESS_KEY_ID", "AWS_SECRET_ACCESS_KEY"));
    assert_eq!(plan.prefix, "p");

    let r2 = TileCacheConfig::R2 {
        bucket: "b".to_string(),
        account_id: "abc123".to_string(),
        prefix: None,
    };
    let CachePlan::Bucket(plan) = build_tile_cache(&r2) else { panic!() };
    assert_eq!(plan.endpoint.as_deref(), Some("https://abc123.r2.cloudflarestorage.com"));
    assert_eq!(plan.region, "auto");
    assert_eq!((plan.key_var, plan.secret_var), ("R2_ACCESS_KEY_ID", "R2_SECRET_ACCESS_KEY"));
    assert_eq!(plan.prefix, "tiles");
}

#[test]
fn urls_are_located() {
    let at = locate("https://sentinel-cogs.s3.amazonaws.com/a/b%20c/B04.tif?x=1").unwrap();
    assert_eq!(at.base, "https://sentinel-cogs.s3.amazonaws.com");
    assert_eq!(at.path, "a/b%2520c/B04.tif");
    assert!(locate("not a url").is_none());
    assert!(locate("/relative/path").is_none());
}

#[test]
fn url_without_host_is_local() {
    let parts = UrlParts { scheme: "unix".to_string(), host: None, path: "//run/x".to_string() };
    let at = locate_parts(&parts);
    assert_eq!(at.base, "unix://localhost");
    assert_eq!(at.path, "run/x");
}

#[test]
fn different_keys_have_different_columns() {
    let columns = |k: TileKey| {
        let r = k.row_key();
        (r.tileset, r.z, r.x, r.y, r.format)
    };
    let base = columns(TileKey::new("a", 1, 2, 3, "png"));
    assert_eq!(base, columns(TileKey::new("a", 1, 2, 3, "png")));
    for other in [
        TileKey::new("b", 1, 2, 3, "png"),
        TileKey::new("a", 129, 2, 3, "png"),
        TileKey::new("a", 1, 0x8000_0002, 3, "png"),
        TileKey::new("a", 1, 2, 0x8000_0003, "png"),
        TileKey::new("a", 1, 2, 3, "jpg"),
    ] {
        assert_ne!(base, columns(other));
    }
}
