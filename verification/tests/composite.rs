use s2_tiler::composite::{
    apply_scl_mask, best_pixel, composite, compute_ndvi, fill_gaps, median, median_u16, scl_is_valid,
    SceneTile,
};
use s2_tiler::config::Composite;
use s2_tiler::raster::{BandStack, ClassGrid, MaskGrid, NdviGrid};

fn make_scene(val: u16, valid: bool, size: usize) -> SceneTile {
    let data = BandStack::filled(3, size, size, val);
    let mask = MaskGrid::filled(size, size, valid);
    SceneTile { data, mask, ndvi: None }
}

#[test]
fn best_pixel_first_valid_wins() {
    let s1 = make_scene(100, true, 4);
    let s2 = make_scene(200, true, 4);
    let result = best_pixel(vec![s1, s2]);
    assert_eq!(result.data.get(0, 0, 0), 100);
}

#[test]
fn best_pixel_falls_through_invalid() {
    let s1 = make_scene(100, false, 4);
    let s2 = make_scene(200, true, 4);
    let result = best_pixel(vec![s1, s2]);
    assert_eq!(result.data.get(0, 0, 0), 200);
}

#[test]
fn median_correct() {
    assert_eq!(median_u16(&[3, 1, 2]), 2);
    assert_eq!(median_u16(&[4, 2]), 3);
    assert_eq!(median_u16(&[10]), 10);
}

#[test]
fn scl_valid_classes() {
    assert!(scl_is_valid(4));
    assert!(scl_is_valid(5));
    assert!(scl_is_valid(6));
    assert!(scl_is_valid(7));
    assert!(!scl_is_valid(3));
    assert!(!scl_is_valid(8));
    assert!(!scl_is_valid(9));
    assert!(!scl_is_valid(0));
}

#[test]
fn wide_scenes_are_cropped_to_a_square() {
    for f in [best_pixel, median] {
        let wide = SceneTile {
            data: BandStack::filled(2, 3, 5, 7),
            mask: MaskGrid::filled(3, 5, true),
            ndvi: None,
        };
        let t = f(vec![wide]);
        assert_eq!((t.data.dim(), t.mask.dim()), ((2, 3, 3), (3, 3)));
        assert_eq!(t.data.get(1, 2, 2), 7);
    }
}

#[test]
fn an_index_tile_of_usable_scenes_has_no_gaps() {
    let mut data = BandStack::filled(2, 2, 2, 0);
    data.set(0, 0, 1, 30);
    data.set(1, 0, 1, 10);
    let scene = apply_scl_mask(data, None, 0);
    let mut t = composite(vec![scene], &Composite::Ndvi, 2);
    assert!(t.mask.get(0, 1) && !t.mask.get(1, 0));
    fill_gaps(&mut t);
    let ndvi = t.ndvi.expect("an index tile");
    for (r, c) in [(0, 0), (0, 1), (1, 0), (1, 1)] {
        assert!(t.mask.get(r, c));
        assert_eq!(ndvi.get(r, c), (20, 40));
    }
}

fn one_band(values: [u16; 4], valid: [bool; 4]) -> SceneTile {
    let mut data = BandStack::filled(1, 2, 2, 0);
    let mut mask = MaskGrid::filled(2, 2, false);
    for i in 0..4 {
        data.set(0, i / 2, i % 2, values[i]);
        mask.set(i / 2, i % 2, valid[i]);
    }
    SceneTile { data, mask, ndvi: None }
}

#[test]
fn median_ignores_the_order_of_the_scenes() {
    let scene = |v: u16, valid: bool| one_band([v; 4], [valid, true, false, true]);
    let orders = [[0, 1, 2], [1, 2, 0], [2, 1, 0], [0, 2, 1]];
    let values = [(7, true), (100, false), (9, true)];
    for order in orders {
        let t = median(order.iter().map(|i| scene(values[*i].0, values[*i].1)).collect());
        assert_eq!((t.data.get(0, 0, 0), t.data.get(0, 0, 1)), (8, 9));
        assert!(t.mask.get(0, 0) && t.mask.get(0, 1) && !t.mask.get(1, 0));
    }
}

#[test]
fn median_of_large_values_does_not_wrap() {
    assert_eq!(median_u16(&[60000, 50000]), 55000);
    assert_eq!(median_u16(&[65535, 65535]), 65535);
    assert_eq!(median_u16(&[5, 1, 9, 3]), 4);
}

#[test]
fn median_uses_valid_pixels_only() {
    let t = median(vec![
        one_band([10, 1, 0, 0], [true, true, false, false]),
        one_band([30, 2, 9, 0], [true, false, true, false]),
        one_band([20, 5, 0, 0], [true, true, false, false]),
    ]);
    assert_eq!(t.data.get(0, 0, 0), 20);
    assert_eq!(t.data.get(0, 0, 1), 3);
    assert_eq!(t.data.get(0, 1, 0), 9);
    assert_eq!(t.data.get(0, 1, 1), 0);
    assert!(!t.mask.get(1, 1));
}

#[test]
fn mask_needs_clear_class_data_and_no_haze() {
    let mut data = BandStack::filled(2, 1, 2, 500);
    data.set(1, 0, 1, 2500);
    let classes = ClassGrid::from_values(1, 2, vec![4, 7]).unwrap();
    let t = apply_scl_mask(data, Some(&classes), 2400);
    // only one band is above the threshold
    assert!(t.mask.get(0, 0));
    assert!(t.mask.get(0, 1));
    let hazy = apply_scl_mask(BandStack::filled(2, 1, 2, 2500), Some(&classes), 2400);
    assert!(!hazy.mask.get(0, 0));
    let off = apply_scl_mask(BandStack::filled(2, 1, 2, 2500), Some(&classes), 0);
    assert!(off.mask.get(0, 0));
    let plain = apply_scl_mask(BandStack::filled(2, 1, 2, 2500), None, 2400);
    assert!(plain.mask.get(0, 1));
}

#[test]
fn index_is_an_exact_fraction() {
    let mut data = BandStack::filled(2, 2, 2, 0);
    data.set(0, 0, 0, 3000);
    data.set(1, 0, 0, 1000);
    data.set(0, 0, 1, 0);
    data.set(1, 0, 1, 700);
    let mask = MaskGrid::filled(2, 2, true);
    let t = compute_ndvi(SceneTile { data, mask, ndvi: None });
    let n = t.ndvi.as_ref().unwrap();
    let (a, b) = n.get(0, 0);
    assert_eq!(a as f64 / b as f64, 0.5);
    let (a, b) = n.get(0, 1);
    assert_eq!(a as f64 / b as f64, -1.0);
    // no light in either band: no data
    assert!(!t.mask.get(1, 1));
    assert_eq!(n.get(1, 1), (0, 1));
    assert_eq!(t.bands(), 1);
}

#[test]
fn strategies_are_told_apart() {
    let scenes = || {
        vec![
            one_band([10, 0, 0, 0], [true, false, false, false]),
            one_band([30, 40, 0, 0], [true, true, false, false]),
        ]
    };
    assert_eq!(composite(scenes(), &Composite::BestPixel, 1).data.get(0, 0, 0), 10);
    assert_eq!(composite(scenes(), &Composite::Latest, 1).data.get(0, 0, 0), 10);
    assert_eq!(composite(scenes(), &Composite::Median, 1).data.get(0, 0, 0), 20);
    let empty = composite(Vec::new(), &Composite::Median, 3);
    assert_eq!((empty.bands(), empty.size()), (3, 256));
    assert!(!empty.mask.get(0, 0));
}

#[test]
fn gaps_take_the_nearest_value() {
    let mut data = BandStack::filled(1, 5, 5, 0);
    let mut mask = MaskGrid::filled(5, 5, false);
    data.set(0, 0, 0, 11);
    mask.set(0, 0, true);
    data.set(0, 4, 4, 22);
    mask.set(4, 4, true);
    let mut t = SceneTile { data, mask, ndvi: None };
    fill_gaps(&mut t);
    for r in 0..5 {
        for c in 0..5 {
            assert!(t.mask.get(r, c));
        }
    }
    assert_eq!(t.data.get(0, 1, 2), 11);
    assert_eq!(t.data.get(0, 3, 2), 22);
    assert_eq!(t.data.get(0, 4, 4), 22);
}

#[test]
fn gaps_without_a_source_stay() {
    let mut t = one_band([7, 7, 7, 7], [false; 4]);
    fill_gaps(&mut t);
    assert!(!t.mask.get(0, 0));
    assert_eq!(t.data.get(0, 1, 1), 7);
}

#[test]
fn index_gaps_are_filled_too() {
    let mut ndvi = NdviGrid::filled(2, 2, (0, 1));
    ndvi.set(0, 0, (1, 2));
    let mut mask = MaskGrid::filled(2, 2, false);
    mask.set(0, 0, true);
    let mut t = SceneTile { data: BandStack::filled(1, 2, 2, 0), mask, ndvi: Some(ndvi) };
    fill_gaps(&mut t);
    assert_eq!(t.ndvi.as_ref().unwrap().get(1, 1), (1, 2));
    assert!(t.mask.get(1, 1));
}
