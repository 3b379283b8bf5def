use s2_tiler::cog::{
    assemble_window, ifd_pixel_size, ifd_to_affine, ifd_to_affine_with_fallback, narrow_to_classes,
    overview_scale, select_overview, tiles_of_window, AffinePlan, CogError, DecodedTile, ImageTags,
    OverviewScale, Tiling, Window,
};
use s2_tiler::number::Real;

fn num(v: f64) -> Real {
    Real::from_bits(v.to_bits())
}

fn tags(width: u32, scale: Option<f64>, origin: bool) -> ImageTags {
    ImageTags {
        width,
        height: width,
        tile_width: Some(4),
        tile_height: Some(4),
        tile_count: Some((3, 3)),
        pixel_scale: scale.map(|s| [num(s), num(-s)]),
        origin: if origin { Some([num(500.0), num(900.0)]) } else { None },
    }
}

#[test]
fn pixel_size_is_positive() {
    assert_eq!(ifd_pixel_size(&tags(10, Some(-10.0), true)), Ok(num(10.0)));
    assert_eq!(ifd_pixel_size(&tags(10, None, true)), Err(CogError::NoPixelScale));
}

#[test]
fn transform_needs_scale_and_tiepoint() {
    let a = ifd_to_affine(&tags(10, Some(10.0), true)).unwrap();
    assert_eq!((a.origin_x, a.origin_y), (num(500.0), num(900.0)));
    assert_eq!((a.pixel_width, a.pixel_height), (num(10.0), num(10.0)));
    assert_eq!(ifd_to_affine(&tags(10, None, true)), Err(CogError::NoPixelScale));
    assert_eq!(ifd_to_affine(&tags(10, Some(10.0), false)), Err(CogError::NoTiepoint));
}

#[test]
fn overviews_borrow_the_full_transform() {
    let full = tags(100, Some(10.0), true);
    let own = ifd_to_affine(&full).unwrap();
    let overview = tags(50, None, false);
    let all = vec![full, tags(50, None, false)];
    assert_eq!(
        ifd_to_affine_with_fallback(&overview, &all),
        Ok(AffinePlan::Scaled { full: own, full_width: 100, width: 50 })
    );
    assert_eq!(ifd_to_affine_with_fallback(&all[0], &all), Ok(AffinePlan::Own(own)));
    assert_eq!(ifd_to_affine_with_fallback(&overview, &Vec::new()), Err(CogError::NoImages));
    assert_eq!(
        ifd_to_affine_with_fallback(&overview, &vec![tags(100, Some(1.0), false)]),
        Err(CogError::NoTiepoint)
    );
    assert_eq!(
        ifd_to_affine_with_fallback(&overview, &vec![tags(100, None, true)]),
        Err(CogError::NoPixelScale)
    );
}

#[test]
fn overviews_keep_what_they_give_themselves() {
    let all = vec![tags(100, Some(10.0), true), tags(50, Some(20.0), false)];
    let scale_only = ifd_to_affine_with_fallback(&all[1], &all).unwrap();
    let AffinePlan::Own(a) = scale_only else { panic!("not its own scale") };
    assert_eq!((a.origin_x, a.origin_y), (num(500.0), num(900.0)));
    assert_eq!((a.pixel_width, a.pixel_height), (num(20.0), num(20.0)));

    let mut shifted = tags(50, None, true);
    shifted.origin = Some([num(1.0), num(2.0)]);
    let origin_only = ifd_to_affine_with_fallback(&shifted, &all).unwrap();
    let AffinePlan::Scaled { full, full_width, width } = origin_only else {
        panic!("not inferred")
    };
    assert_eq!((full.origin_x, full.origin_y), (num(1.0), num(2.0)));
    assert_eq!((full.pixel_width, full.pixel_height), (num(10.0), num(10.0)));
    assert_eq!((full_width, width), (100, 50));

    // Only what an overview lacks has to stand in the full image.
    let bare = vec![tags(100, None, true)];
    assert!(ifd_to_affine_with_fallback(&all[1], &bare).is_ok());
    assert_eq!(
        ifd_to_affine_with_fallback(&all[1], &vec![tags(100, Some(10.0), false)]),
        Err(CogError::NoTiepoint)
    );
    assert!(ifd_to_affine_with_fallback(&shifted, &vec![tags(100, Some(10.0), false)]).is_ok());
    assert_eq!(ifd_to_affine_with_fallback(&shifted, &bare), Err(CogError::NoPixelScale));
}

#[test]
fn overview_resolution_is_given_inferred_or_absent() {
    assert_eq!(overview_scale(&tags(50, Some(-20.0), false)), OverviewScale::Given(num(20.0)));
    assert_eq!(overview_scale(&tags(50, None, false)), OverviewScale::Inferred);
    assert_eq!(overview_scale(&tags(0, None, false)), OverviewScale::Empty);
}

#[test]
fn coarsest_overview_within_the_limit_is_read() {
    let gsds = vec![Some(num(10.0)), Some(num(20.0)), Some(num(40.0)), Some(num(80.0))];
    assert_eq!(select_overview(&gsds, num(5.0)), Ok(0));
    assert_eq!(select_overview(&gsds, num(40.0)), Ok(2));
    assert_eq!(select_overview(&gsds, num(1000.0)), Ok(3));
    let broken = vec![Some(num(10.0)), None, Some(num(40.0))];
    assert_eq!(select_overview(&broken, num(1000.0)), Ok(0));
    assert_eq!(select_overview(&Vec::new(), num(1.0)), Err(CogError::NoImages));
    let unknown = vec![None, Some(num(20.0))];
    assert_eq!(select_overview(&unknown, num(1000.0)), Err(CogError::NoPixelScale));
}

#[test]
fn tiling_names_what_is_missing() {
    let mut t = tags(10, None, false);
    assert_eq!(
        Tiling::of_image(&t),
        Ok(Tiling { tile_w: 4, tile_h: 4, n_tx: 3, n_ty: 3 })
    );
    t.tile_count = None;
    assert_eq!(Tiling::of_image(&t), Err(CogError::NoTileCount));
    t.tile_height = None;
    assert_eq!(Tiling::of_image(&t), Err(CogError::NoTileHeight));
    t.tile_width = None;
    assert_eq!(Tiling::of_image(&t), Err(CogError::NoTileWidth));
}

#[test]
fn errors_have_messages() {
    let all = [
        (CogError::NoImages, "TIFF has no IFDs"),
        (CogError::NoPixelScale, "IFD missing ModelPixelScale"),
        (CogError::NoTiepoint, "IFD missing ModelTiepoint"),
        (CogError::NoTileWidth, "COG not tiled (missing TileWidth)"),
        (CogError::NoTileHeight, "COG not tiled (missing TileHeight)"),
        (CogError::NoTileCount, "COG missing tile count"),
        (CogError::InvalidUrl, "invalid COG URL"),
    ];
    for (e, m) in all {
        assert_eq!(e.message(), m);
    }
}

const TILING: Tiling = Tiling { tile_w: 4, tile_h: 4, n_tx: 3, n_ty: 2 };

#[test]
fn window_tiles_are_listed_by_row() {
    let w = Window { col_min: 3, row_min: 2, col_max: 8, row_max: 5 };
    assert_eq!(tiles_of_window(w, TILING), vec![(0, 0), (1, 0), (0, 1), (1, 1)]);
    let beyond = Window { col_min: 2, row_min: 2, col_max: 100, row_max: 100 };
    assert_eq!(
        tiles_of_window(beyond, TILING),
        vec![(0, 0), (1, 0), (2, 0), (0, 1), (1, 1), (2, 1)]
    );
    let off = Window { col_min: 50, row_min: 0, col_max: 60, row_max: 1 };
    assert!(tiles_of_window(off, TILING).is_empty());
}

fn tile(x: usize, y: usize, first: u16) -> DecodedTile {
    let mut bytes = Vec::new();
    for i in 0..16u16 {
        bytes.extend((first + i).to_le_bytes());
    }
    DecodedTile { x, y, shape: (4, 4, 1), pixel_bytes: 2, bytes }
}

#[test]
fn window_pixels_come_from_their_tiles() {
    let w = Window { col_min: 3, row_min: 1, col_max: 6, row_max: 3 };
    let out = assemble_window(&w, &TILING, &vec![tile(0, 0, 100), tile(1, 0, 300)]);
    assert_eq!(out.dim(), (2, 3));
    assert_eq!(out.get(0, 0), 107);
    assert_eq!(out.get(0, 1), 304);
    assert_eq!(out.get(0, 2), 305);
    assert_eq!(out.get(1, 0), 111);
    assert_eq!(out.get(1, 1), 308);
}

#[test]
fn later_tiles_cover_earlier_ones() {
    let w = Window { col_min: 0, row_min: 0, col_max: 2, row_max: 1 };
    let out = assemble_window(&w, &TILING, &vec![tile(0, 0, 100), tile(0, 0, 500)]);
    assert_eq!(out.get(0, 0), 500);
    let none = assemble_window(&w, &TILING, &Vec::new());
    assert_eq!(none.get(0, 1), 0);
}

#[test]
fn planar_short_and_single_byte_tiles_are_read() {
    let w = Window { col_min: 0, row_min: 0, col_max: 3, row_max: 1 };
    let planar = DecodedTile { x: 0, y: 0, shape: (1, 2, 3), pixel_bytes: 1, bytes: vec![7, 8, 9, 1, 2, 3] };
    let out = assemble_window(&w, &TILING, &vec![planar]);
    assert_eq!((out.get(0, 0), out.get(0, 1), out.get(0, 2)), (7, 8, 9));
    // two pixels and a half
    let short = DecodedTile { x: 0, y: 0, shape: (1, 4, 1), pixel_bytes: 2, bytes: vec![1, 1, 2, 1, 3] };
    let out = assemble_window(&w, &TILING, &vec![short]);
    assert_eq!((out.get(0, 0), out.get(0, 1), out.get(0, 2)), (257, 258, 3));
}

#[test]
fn empty_window_is_a_single_zero() {
    let w = Window { col_min: 5, row_min: 0, col_max: 5, row_max: 9 };
    let out = assemble_window(&w, &TILING, &vec![tile(1, 0, 9)]);
    assert_eq!(out.dim(), (1, 1));
    assert_eq!(out.get(0, 0), 0);
}

#[test]
fn limits_are_tested() {
    assert!(tile(2, 1, 0).is_placeable(&TILING));
    assert!(!tile(usize::MAX, 0, 0).is_placeable(&TILING));
    let big = DecodedTile { x: 0, y: 0, shape: (usize::MAX, 2, 1), pixel_bytes: 2, bytes: Vec::new() };
    assert!(!big.is_placeable(&TILING));
    assert!(Window { col_min: 0, row_min: 0, col_max: 8, row_max: 8 }.is_holdable());
    assert!(Window { col_min: 9, row_min: 0, col_max: 8, row_max: usize::MAX }.is_holdable());
    assert!(!Window { col_min: 0, row_min: 0, col_max: usize::MAX, row_max: 2 }.is_holdable());
}

#[test]
fn classes_keep_the_low_byte() {
    let w = Window { col_min: 0, row_min: 0, col_max: 2, row_max: 1 };
    let out = assemble_window(&w, &TILING, &vec![tile(0, 0, 259)]);
    let classes = narrow_to_classes(&out);
    assert_eq!((classes.get(0, 0), classes.get(0, 1)), (3, 4));
}

#[test]
fn every_pixel_comes_from_the_tile_it_lies_on() {
    let w = Window { col_min: 1, row_min: 2, col_max: 11, row_max: 7 };
    let wanted = tiles_of_window(w, TILING);
    let tiles: Vec<DecodedTile> =
        wanted.iter().map(|(x, y)| tile(*x, *y, 1000 * (*y as u16 * 3 + *x as u16 + 1))).collect();
    let out = assemble_window(&w, &TILING, &tiles);
    for row in w.row_min..w.row_max {
        for col in w.col_min..w.col_max {
            let first = 1000 * ((row / 4) as u16 * 3 + (col / 4) as u16 + 1);
            let inside = ((row % 4) * 4 + col % 4) as u16;
            assert_eq!(out.get(row - w.row_min, col - w.col_min), first + inside);
        }
    }
}
