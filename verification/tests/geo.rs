use s2_tiler::geo::{
    bbox_to_quadkeys, envelope, epsg_to_proj_string, neighbours_with_grid, nn_sample_u8,
    tile_to_covering_quadkeys, tile_to_quadkey, warp_scl_with_grid, Neighbours, TileRange,
};
use s2_tiler::number::Real;
use s2_tiler::raster::{BandGrid, ClassGrid};

#[test]
fn test_quadkey_z1() {
    // Tile (0,0) at z=1 → quadkey 0; (1,0) → 1; (0,1) → 2; (1,1) → 3
    assert_eq!(tile_to_quadkey(0, 0, 1), 0);
    assert_eq!(tile_to_quadkey(1, 0, 1), 1);
    assert_eq!(tile_to_quadkey(0, 1, 1), 2);
    assert_eq!(tile_to_quadkey(1, 1, 1), 3);
}

#[test]
fn test_covering_quadkeys_same_zoom() {
    let qks = tile_to_covering_quadkeys(8, 128, 100, 8);
    assert_eq!(qks.len(), 1);
    assert_eq!(qks[0], tile_to_quadkey(128, 100, 8));
}

#[test]
fn test_covering_quadkeys_tile_below_qz() {
    // tile at z=6, qz=8: each tile covers 4×4 quadkeys
    let qks = tile_to_covering_quadkeys(6, 32, 20, 8);
    assert_eq!(qks.len(), 16);
}

#[test]
fn quadkey_interleaves_bits() {
    // x = 0b101, y = 0b011 → digits 1, 2, 3
    assert_eq!(tile_to_quadkey(5, 3, 3), 0b01_10_11);
    assert_eq!(tile_to_quadkey(0, 0, 0), 0);
    assert_eq!(tile_to_quadkey(u32::MAX, u32::MAX, 32), u64::MAX);
    // bits above the zoom level do not count
    assert_eq!(tile_to_quadkey(4, 0, 1), 0);
}

#[test]
fn quadkey_without_last_digit_is_the_parent() {
    let qk = tile_to_quadkey(77, 52, 8);
    assert_eq!(qk / 4, tile_to_quadkey(38, 26, 7));
}

#[test]
fn quadkeys_of_a_level_differ() {
    let mut seen = Vec::new();
    for x in 0..8 {
        for y in 0..8 {
            let qk = tile_to_quadkey(x, y, 3);
            assert!(!seen.contains(&qk));
            seen.push(qk);
        }
    }
    assert_eq!(seen.len(), 64);
}

#[test]
fn covering_keys_of_a_deeper_tile_are_the_ancestors() {
    assert_eq!(
        tile_to_covering_quadkeys(10, 515, 403, 8),
        vec![tile_to_quadkey(128, 100, 8)]
    );
}

#[test]
fn covering_keys_of_a_shallower_tile_are_its_descendants() {
    assert_eq!(
        tile_to_covering_quadkeys(1, 1, 0, 2),
        vec![
            tile_to_quadkey(2, 0, 2),
            tile_to_quadkey(3, 0, 2),
            tile_to_quadkey(2, 1, 2),
            tile_to_quadkey(3, 1, 2)
        ]
    );
}

#[test]
fn range_lists_tiles_by_column() {
    let range = TileRange { x_min: 3, y_min: 7, x_max: 4, y_max: 8 };
    assert_eq!(range.tiles(), vec![(3, 7), (3, 8), (4, 7), (4, 8)]);
    let none = TileRange { x_min: 3, y_min: 9, x_max: 4, y_max: 8 };
    assert!(none.tiles().is_empty());
    let edge = TileRange { x_min: u32::MAX, y_min: u32::MAX, x_max: u32::MAX, y_max: u32::MAX };
    assert_eq!(edge.tiles(), vec![(u32::MAX, u32::MAX)]);
}

#[test]
fn range_keys_follow_its_tiles() {
    let range = TileRange { x_min: 1, y_min: 2, x_max: 2, y_max: 2 };
    assert_eq!(
        bbox_to_quadkeys(range, 3),
        vec![tile_to_quadkey(1, 2, 3), tile_to_quadkey(2, 2, 3)]
    );
}

fn num(v: f64) -> Real {
    Real::from_bits(v.to_bits())
}

#[test]
fn envelope_spans_the_corners() {
    let points = vec![
        (num(3.5), num(-1.0)),
        (num(-2.0), num(4.0)),
        (num(f64::NAN), num(9.0)),
        (num(1.0), num(f64::NAN)),
    ];
    let b = envelope(&points);
    assert_eq!(f64::from_bits(b.x_min.to_bits()), -2.0);
    assert_eq!(f64::from_bits(b.x_max.to_bits()), 3.5);
    assert_eq!(f64::from_bits(b.y_min.to_bits()), -1.0);
    assert_eq!(f64::from_bits(b.y_max.to_bits()), 9.0);
    let none = envelope(&Vec::new());
    assert_eq!(f64::from_bits(none.x_min.to_bits()), f64::MAX);
    assert_eq!(f64::from_bits(none.x_max.to_bits()), f64::MIN);
}

#[test]
fn class_sample_is_zero_outside() {
    let src = ClassGrid::from_values(2, 3, vec![1, 2, 3, 4, 5, 6]).unwrap();
    assert_eq!(nn_sample_u8(&src, 2, 1), 6);
    assert_eq!(nn_sample_u8(&src, 3, 1), 0);
    assert_eq!(nn_sample_u8(&src, 0, 2), 0);
}

#[test]
fn class_warp_follows_the_grid() {
    let src = ClassGrid::from_values(2, 2, vec![4, 5, 6, 7]).unwrap();
    let grid = vec![Some((1, 0)), None, Some((0, 1)), Some((5, 5))];
    let dst = warp_scl_with_grid(&src, &grid, 2);
    assert_eq!(dst.dim(), (2, 2));
    assert_eq!(dst.get(0, 0), 5);
    assert_eq!(dst.get(0, 1), 0);
    assert_eq!(dst.get(1, 0), 6);
    assert_eq!(dst.get(1, 1), 0);
}

#[test]
fn neighbours_stop_at_the_edge() {
    let src = BandGrid::from_values(2, 2, vec![10, 0, 30, 40]).unwrap();
    let inner = Neighbours::sample(&src, 0, 0);
    assert_eq!((inner.v00, inner.v01, inner.v10, inner.v11), (10, 0, 30, 40));
    assert_eq!(inner.weighted(), [true, false, true, true]);
    let corner = Neighbours::sample(&src, 1, 1);
    assert_eq!((corner.v00, corner.v01, corner.v10, corner.v11), (40, 40, 40, 40));
    let outside = Neighbours::sample(&src, 2, 0);
    assert_eq!(outside.weighted(), [false; 4]);
    let all = neighbours_with_grid(&src, &vec![None, Some((0, 1))]);
    assert_eq!(all[0].v00, 0);
    assert_eq!((all[1].v00, all[1].v01), (30, 40));
}

#[test]
fn utm_zones_have_proj_strings() {
    assert_eq!(
        epsg_to_proj_string(32618).unwrap(),
        "+proj=utm +zone=18 +datum=WGS84 +units=m +no_defs"
    );
    assert_eq!(
        epsg_to_proj_string(32733).unwrap(),
        "+proj=utm +zone=33 +south +datum=WGS84 +units=m +no_defs"
    );
    assert_eq!(
        epsg_to_proj_string(32601).unwrap(),
        "+proj=utm +zone=1 +datum=WGS84 +units=m +no_defs"
    );
    assert!(epsg_to_proj_string(32660).is_ok());
    assert!(epsg_to_proj_string(32760).is_ok());
    for epsg in [32600, 32661, 32700, 32761, 4326] {
        let e = epsg_to_proj_string(epsg).unwrap_err();
        assert_eq!(e.epsg, epsg);
    }
    assert_eq!(
        epsg_to_proj_string(4326).unwrap_err().message(),
        "unsupported EPSG 4326: only UTM zones 1–60 N/S are supported"
    );
}
