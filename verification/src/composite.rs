//! Pixel compositing: class masking, first-valid and median composites, vegetation
//! index, and gap filling.
use crate::config::Composite;
use crate::flood;
use crate::flood::{Flood, Pixel};
use crate::raster;
use crate::raster::{BandStack, ClassGrid, MaskGrid, NdviGrid};
use std::collections::VecDeque;
use vstd::multiset::Multiset;
use vstd::prelude::*;
use vstd::relations::*;
use vstd::seq_lib::*;

verus! {

/// Scene classes that count as clear: vegetation, bare soil, water and
/// low-probability cloud.
pub open spec fn clear_class(scl: u8) -> bool {
    4 <= scl <= 7
}

/// Whether a scene class is clear (not cloud, shadow, snow or nodata).
pub fn scl_is_valid(scl: u8) -> (r: bool)
    ensures
        r == clear_class(scl),
        r <==> scl == 4 || scl == 5 || scl == 6 || scl == 7,
{
    matches!(scl, 4 | 5 | 6 | 7)
}

/// One scene's warped and masked raster, or the composite of several.
#[derive(Debug)]
pub struct SceneTile {
    /// Spectral bands.
    pub data: BandStack,
    /// Which pixels are valid.
    pub mask: MaskGrid,
    /// Vegetation index, set only for an index composite; rendering then uses it in
    /// place of `data`.
    pub ndvi: Option<NdviGrid>,
}

impl SceneTile {
    /// Number of bands.
    pub open spec fn n_bands(self) -> nat {
        self.data.bands()
    }

    /// Side length in pixels.
    pub open spec fn side(self) -> nat {
        self.data.rows()
    }

    /// All rasters of the tile are square and of the same side.
    pub open spec fn wf(self) -> bool {
        &&& self.data.cols() == self.side()
        &&& self.mask.rows() == self.side()
        &&& self.mask.cols() == self.side()
        &&& self.ndvi matches Some(n) ==> n.rows() == self.side() && n.cols() == self.side()
    }

    /// The tile has at least these bands and this side.
    pub open spec fn covers(self, bands: nat, side: nat) -> bool {
        &&& self.data.bands() >= bands
        &&& self.data.rows() >= side
        &&& self.data.cols() >= side
        &&& self.mask.rows() >= side
        &&& self.mask.cols() >= side
    }

    /// A tile without any valid pixel.
    pub fn empty(bands: usize, size: usize) -> (t: Self)
        requires
            raster::fits3(bands as nat, size as nat, size as nat, 2),
            raster::fits2(size as nat, size as nat, 1),
        ensures
            t.wf(),
            t.n_bands() == bands,
            t.side() == size,
            t.ndvi is None,
            forall|b: int, r: int, c: int|
                0 <= b < bands && 0 <= r < size && 0 <= c < size ==> #[trigger] t.data.at(b, r, c) == 0,
            forall|r: int, c: int|
                0 <= r < size && 0 <= c < size ==> !#[trigger] t.mask.at(r, c),
    {
        SceneTile {
            data: BandStack::filled(bands, size, size, 0),
            mask: MaskGrid::filled(size, size, false),
            ndvi: None,
        }
    }

    /// Number of bands.
    pub fn bands(&self) -> (n: usize)
        ensures
            n == self.n_bands(),
    {
        self.data.dim().0
    }

    /// Side length in pixels.
    pub fn size(&self) -> (n: usize)
        ensures
            n == self.side(),
    {
        self.data.dim().1
    }
}

/// One plane of an allocated stack fits, with one byte for each cell.
proof fn lemma_plane_fits(bands: nat, rows: nat, cols: nat)
    requires
        raster::fits3(bands, rows, cols, 2),
    ensures
        raster::fits2(rows, cols, 1),
{
    let b = raster::axis_weight(bands);
    let p = raster::axis_weight(rows) * raster::axis_weight(cols);
    assert(b * raster::axis_weight(rows) * raster::axis_weight(cols) == b * p) by (nonlinear_arith)
        requires
            p == raster::axis_weight(rows) * raster::axis_weight(cols),
    ;
    assert(p <= b * p) by (nonlinear_arith)
        requires
            b >= 1,
            p >= 0,
    ;
    assert(rows * cols * 1 <= p) by (nonlinear_arith)
        requires
            p == raster::axis_weight(rows) * raster::axis_weight(cols),
            rows <= raster::axis_weight(rows),
            cols <= raster::axis_weight(cols),
    ;
}

/// The square part of an allocated stack fits.
proof fn lemma_square_fits(bands: nat, rows: nat, cols: nat)
    requires
        raster::fits3(bands, rows, cols, 2),
        rows <= cols,
    ensures
        raster::fits3(bands, rows, rows, 2),
{
    let p = raster::axis_weight(bands) * raster::axis_weight(rows);
    assert(p * raster::axis_weight(rows) <= p * raster::axis_weight(cols)) by (nonlinear_arith)
        requires
            raster::axis_weight(rows) <= raster::axis_weight(cols),
            p >= 0,
    ;
    assert(bands * rows * rows * 2 <= bands * rows * cols * 2) by (nonlinear_arith)
        requires
            rows <= cols,
    ;
}

// ─── Masking ────────────────────────────────────────────────────────────────

/// Every band of the pixel holds data.
pub open spec fn has_data(data: BandStack, r: int, c: int) -> bool {
    forall|b: int| 0 <= b < data.bands() ==> #[trigger] data.at(b, r, c) != 0
}

/// Every band of the pixel is brighter than the threshold.
pub open spec fn all_above(data: BandStack, r: int, c: int, limit: u16) -> bool {
    forall|b: int| 0 <= b < data.bands() ==> #[trigger] data.at(b, r, c) > limit
}

/// When a pixel is valid. With scene classes: a clear class, data in every band, and
/// not brighter than the haze threshold in every band (a threshold of 0 is off).
/// Without scene classes: data in every band.
pub open spec fn pixel_valid(
    data: BandStack,
    scl: Option<ClassGrid>,
    haze_dn_max: u16,
    r: int,
    c: int,
) -> bool {
    match scl {
        Some(classes) => {
            &&& clear_class(classes.at(r, c))
            &&& has_data(data, r, c)
            &&& !(haze_dn_max > 0 && all_above(data, r, c, haze_dn_max))
        },
        None => has_data(data, r, c),
    }
}

fn has_data_at(data: &BandStack, r: usize, c: usize) -> (ok: bool)
    requires
        r < data.rows(),
        c < data.cols(),
    ensures
        ok == has_data(*data, r as int, c as int),
{
    let bands: usize = data.dim().0;
    for b in 0..bands
        invariant
            bands == data.bands(),
            r < data.rows(),
            c < data.cols(),
            forall|k: int| 0 <= k < b ==> #[trigger] data.at(k, r as int, c as int) != 0,
    {
        if data.get(b, r, c) == 0 {
            return false;
        }
    }
    true
}

fn all_above_at(data: &BandStack, r: usize, c: usize, limit: u16) -> (ok: bool)
    requires
        r < data.rows(),
        c < data.cols(),
    ensures
        ok == all_above(*data, r as int, c as int, limit),
{
    let bands: usize = data.dim().0;
    for b in 0..bands
        invariant
            bands == data.bands(),
            r < data.rows(),
            c < data.cols(),
            forall|k: int| 0 <= k < b ==> #[trigger] data.at(k, r as int, c as int) > limit,
    {
        if data.get(b, r, c) <= limit {
            return false;
        }
    }
    true
}

/// Mask a scene. Without scene classes the haze threshold is not used.
pub fn apply_scl_mask(data: BandStack, scl: Option<&ClassGrid>, haze_dn_max: u16) -> (t: SceneTile)
    requires
        scl matches Some(classes) ==> classes.rows() >= data.rows() && classes.cols()
            >= data.cols(),
    ensures
        t.data == data,
        t.ndvi is None,
        t.mask.rows() == data.rows(),
        t.mask.cols() == data.cols(),
        forall|r: int, c: int|
            0 <= r < data.rows() && 0 <= c < data.cols() ==> #[trigger] t.mask.at(r, c)
                == pixel_valid(
                data,
                (match scl {
                    Some(classes) => Some(*classes),
                    None => None,
                }),
                haze_dn_max,
                r,
                c,
            ),
{
    let (_, h, w) = data.dim();
    let ghost classes: Option<ClassGrid> = match scl {
        Some(k) => Some(*k),
        None => None,
    };
    proof {
        lemma_plane_fits(data.bands(), h as nat, w as nat);
    }
    let mut mask = MaskGrid::filled(h, w, false);
    for r in 0..h
        invariant
            h == data.rows(),
            w == data.cols(),
            mask.rows() == h,
            mask.cols() == w,
            classes == (match scl {
                Some(k) => Some(*k),
                None => None,
            }),
            scl matches Some(k) ==> k.rows() >= h && k.cols() >= w,
            forall|i: int, j: int|
                0 <= i < r && 0 <= j < w ==> #[trigger] mask.at(i, j) == pixel_valid(
                    data,
                    classes,
                    haze_dn_max,
                    i,
                    j,
                ),
    {
        for c in 0..w
            invariant
                r < h,
                h == data.rows(),
                w == data.cols(),
                mask.rows() == h,
                mask.cols() == w,
                classes == (match scl {
                    Some(k) => Some(*k),
                    None => None,
                }),
                scl matches Some(k) ==> k.rows() >= h && k.cols() >= w,
                forall|i: int, j: int|
                    0 <= i < r && 0 <= j < w ==> #[trigger] mask.at(i, j) == pixel_valid(
                        data,
                        classes,
                        haze_dn_max,
                        i,
                        j,
                    ),
                forall|j: int|
                    0 <= j < c ==> #[trigger] mask.at(r as int, j) == pixel_valid(
                        data,
                        classes,
                        haze_dn_max,
                        r as int,
                        j,
                    ),
        {
            let ok = match scl {
                Some(k) => {
                    if !scl_is_valid(k.get(r, c)) {
                        false
                    } else if !has_data_at(&data, r, c) {
                        false
                    } else {
                        !(haze_dn_max > 0 && all_above_at(&data, r, c, haze_dn_max))
                    }
                },
                None => has_data_at(&data, r, c),
            };
            mask.set(r, c, ok);
        }
    }
    SceneTile { data, mask, ndvi: None }
}

/// A pixel is valid when every band holds data and, where there are scene classes, its
/// class is vegetation, bare soil, water or low-probability cloud and, with a haze
/// threshold, some band does not exceed it.
pub proof fn valid_pixels(
    data: BandStack,
    scl: Option<ClassGrid>,
    haze_dn_max: u16,
    r: int,
    c: int,
)
    ensures
        pixel_valid(data, scl, haze_dn_max, r, c) <==> {
            &&& forall|b: int| 0 <= b < data.bands() ==> #[trigger] data.at(b, r, c) > 0
            &&& scl matches Some(k) ==> {
                &&& k.at(r, c) == 4 || k.at(r, c) == 5 || k.at(r, c) == 6 || k.at(r, c) == 7
                &&& haze_dn_max == 0 || exists|b: int|
                    0 <= b < data.bands() && #[trigger] data.at(b, r, c) <= haze_dn_max
            }
        },
{
    let data_everywhere = forall|b: int|
        0 <= b < data.bands() ==> #[trigger] data.at(b, r, c) > 0;
    assert(has_data(data, r, c) <==> data_everywhere);
    let some_dark = exists|b: int|
        0 <= b < data.bands() && #[trigger] data.at(b, r, c) <= haze_dn_max;
    assert(all_above(data, r, c, haze_dn_max) <==> !some_dark);
}

// ─── First-valid composite ──────────────────────────────────────────────────

/// The first scene, in order, whose pixel is valid.
pub open spec fn first_valid(scenes: Seq<SceneTile>, r: int, c: int) -> Option<int>
    decreases scenes.len(),
{
    if scenes.len() == 0 {
        None
    } else {
        match first_valid(scenes.drop_last(), r, c) {
            Some(i) => Some(i),
            None => if scenes.last().mask.at(r, c) {
                Some(scenes.len() - 1)
            } else {
                None
            },
        }
    }
}

/// The value that the first-valid composite has at a pixel: that of the first valid
/// scene, 0 where there is none.
pub open spec fn first_valid_value(scenes: Seq<SceneTile>, b: int, r: int, c: int) -> u16 {
    match first_valid(scenes, r, c) {
        Some(i) => scenes[i].data.at(b, r, c),
        None => 0,
    }
}

/// What `first_valid` finds: a valid pixel with none before it, or nothing where
/// every scene is invalid.
pub proof fn lemma_first_valid(scenes: Seq<SceneTile>, r: int, c: int)
    ensures
        match first_valid(scenes, r, c) {
            Some(i) => {
                &&& 0 <= i < scenes.len()
                &&& scenes[i].mask.at(r, c)
                &&& forall|j: int| 0 <= j < i ==> !(#[trigger] scenes[j]).mask.at(r, c)
            },
            None => forall|j: int|
                0 <= j < scenes.len() ==> !(#[trigger] scenes[j]).mask.at(r, c),
        },
    decreases scenes.len(),
{
    if scenes.len() > 0 {
        let init = scenes.drop_last();
        lemma_first_valid(init, r, c);
        assert forall|j: int| 0 <= j < init.len() implies init[j] == #[trigger] scenes[j] by {}
    }
}

/// First-valid-pixel composite: with scenes ordered by cloud cover, the least cloudy
/// valid pixel wins.
pub fn best_pixel(scenes: Vec<SceneTile>) -> (t: SceneTile)
    requires
        scenes@.len() > 0,
        forall|i: int|
            0 <= i < scenes@.len() ==> (#[trigger] scenes@[i]).covers(
                scenes@[0].n_bands(),
                scenes@[0].side(),
            ),
    ensures
        t.wf(),
        t.n_bands() == scenes@[0].n_bands(),
        t.side() == scenes@[0].side(),
        t.ndvi is None,
        forall|r: int, c: int|
            0 <= r < t.side() && 0 <= c < t.side() ==> #[trigger] t.mask.at(r, c) == (first_valid(
                scenes@,
                r,
                c,
            ) is Some),
        forall|b: int, r: int, c: int|
            0 <= b < t.n_bands() && 0 <= r < t.side() && 0 <= c < t.side()
                ==> #[trigger] t.data.at(b, r, c) == first_valid_value(scenes@, b, r, c),
        forall|i: int, b: int, r: int, c: int|
            0 <= i < scenes@.len() && 0 <= b < t.data.bands() && 0 <= r < t.data.rows() && 0 <= c
                < t.data.cols() && scenes@[i].mask.at(r, c) && (forall|j: int|
                0 <= j < i ==> !(#[trigger] scenes@[j]).mask.at(r, c)) ==> #[trigger] t.data.at(
                b,
                r,
                c,
            ) == (#[trigger] scenes@[i]).data.at(b, r, c),
{
    let (bands, size, width): (usize, usize, usize) = scenes[0].data.dim();
    proof {
        lemma_square_fits(bands as nat, size as nat, width as nat);
        lemma_plane_fits(bands as nat, size as nat, size as nat);
    }
    let mut data = BandStack::filled(bands, size, size, 0);
    let mut mask = MaskGrid::filled(size, size, false);
    let mut unfilled = true;
    let mut k: usize = 0;
    while k < scenes.len() && unfilled
        invariant
            k <= scenes@.len(),
            data.bands() == bands,
            data.rows() == size,
            data.cols() == size,
            mask.rows() == size,
            mask.cols() == size,
            forall|i: int|
                0 <= i < scenes@.len() ==> (#[trigger] scenes@[i]).covers(bands as nat, size as nat),
            forall|r: int, c: int|
                0 <= r < size && 0 <= c < size ==> #[trigger] mask.at(r, c) == (first_valid(
                    scenes@.take(k as int),
                    r,
                    c,
                ) is Some),
            forall|b: int, r: int, c: int|
                0 <= b < bands && 0 <= r < size && 0 <= c < size ==> #[trigger] data.at(b, r, c)
                    == first_valid_value(scenes@.take(k as int), b, r, c),
            !unfilled ==> forall|r: int, c: int|
                0 <= r < size && 0 <= c < size ==> #[trigger] mask.at(r, c),
        decreases scenes@.len() - k,
    {
        let scene = &scenes[k];
        unfilled = false;
        let ghost before = scenes@.take(k as int);
        let ghost after = scenes@.take(k + 1);
        proof {
            assert(after.drop_last() =~= before);
            assert(after.last() == *scene);
        }
        for row in 0..size
            invariant
                k < scenes@.len(),
                *scene == scenes@[k as int],
                scene.covers(bands as nat, size as nat),
                data.bands() == bands,
                data.rows() == size,
                data.cols() == size,
                mask.rows() == size,
                mask.cols() == size,
                before == scenes@.take(k as int),
                after == scenes@.take(k + 1),
                after.drop_last() == before,
                after.last() == *scene,
                forall|r: int, c: int|
                    0 <= r < size && 0 <= c < size ==> #[trigger] mask.at(r, c) == (first_valid(
                        (if r < row {
                            after
                        } else {
                            before
                        }),
                        r,
                        c,
                    ) is Some),
                forall|b: int, r: int, c: int|
                    0 <= b < bands && 0 <= r < size && 0 <= c < size ==> #[trigger] data.at(b, r, c)
                        == first_valid_value(
                        (if r < row {
                            after
                        } else {
                            before
                        }),
                        b,
                        r,
                        c,
                    ),
                !unfilled ==> forall|r: int, c: int|
                    0 <= r < row && 0 <= c < size ==> #[trigger] mask.at(r, c),
        {
            for col in 0..size
                invariant
                    k < scenes@.len(),
                    row < size,
                    *scene == scenes@[k as int],
                    scene.covers(bands as nat, size as nat),
                    data.bands() == bands,
                    data.rows() == size,
                    data.cols() == size,
                    mask.rows() == size,
                    mask.cols() == size,
                    before == scenes@.take(k as int),
                    after == scenes@.take(k + 1),
                    after.drop_last() == before,
                    after.last() == *scene,
                    forall|r: int, c: int|
                        0 <= r < size && 0 <= c < size ==> #[trigger] mask.at(r, c) == (first_valid(
                            (if r < row || (r == row && c < col) {
                                after
                            } else {
                                before
                            }),
                            r,
                            c,
                        ) is Some),
                    forall|b: int, r: int, c: int|
                        0 <= b < bands && 0 <= r < size && 0 <= c < size
                            ==> #[trigger] data.at(b, r, c) == first_valid_value(
                            (if r < row || (r == row && c < col) {
                                after
                            } else {
                                before
                            }),
                            b,
                            r,
                            c,
                        ),
                    !unfilled ==> forall|r: int, c: int|
                        0 <= r < size && 0 <= c < size && (r < row || (r == row && c < col))
                            ==> #[trigger] mask.at(r, c),
            {
                proof {
                    lemma_first_valid(before, row as int, col as int);
                    lemma_first_valid(after, row as int, col as int);
                    if first_valid(before, row as int, col as int) is Some {
                        let i = first_valid(before, row as int, col as int)->0;
                        assert(before[i] == after[i]);
                    }
                }
                if !mask.get(row, col) {
                    if scene.mask.get(row, col) {
                        let ghost data0 = data;
                        for b in 0..bands
                            invariant
                                row < size,
                                col < size,
                                scene.covers(bands as nat, size as nat),
                                data.bands() == bands,
                                data.rows() == size,
                                data.cols() == size,
                                forall|i: int, r: int, c: int|
                                    #[trigger] data.at(i, r, c) == if r == row && c == col && 0 <= i
                                        < b {
                                        scene.data.at(i, r, c)
                                    } else {
                                        data0.at(i, r, c)
                                    },
                        {
                            data.set(b, row, col, scene.data.get(b, row, col));
                        }
                        mask.set(row, col, true);
                    } else {
                        unfilled = true;
                    }
                }
            }
        }
        k += 1;
    }
    proof {
        if k < scenes@.len() {
            assert forall|r: int, c: int| 0 <= r < size && 0 <= c < size implies first_valid(
                scenes@,
                r,
                c,
            ) == #[trigger] first_valid(scenes@.take(k as int), r, c) by {
                assert(mask.at(r, c));
                lemma_first_valid(scenes@, r, c);
                lemma_first_valid(scenes@.take(k as int), r, c);
                lemma_first_valid_prefix(scenes@, k as int, r, c);
            }
        } else {
            assert(scenes@.take(k as int) =~= scenes@);
        }
        assert forall|r: int, c: int| 0 <= r < size && 0 <= c < size implies #[trigger] mask.at(r, c)
            == (first_valid(scenes@, r, c) is Some) by {
            let p = first_valid(scenes@.take(k as int), r, c);
        }
        assert forall|b: int, r: int, c: int|
            0 <= b < bands && 0 <= r < size && 0 <= c < size implies #[trigger] data.at(b, r, c)
            == first_valid_value(scenes@, b, r, c) by {
            lemma_first_valid(scenes@.take(k as int), r, c);
            let p = first_valid(scenes@.take(k as int), r, c);
            assert(first_valid(scenes@, r, c) == p);
        }
        assert forall|i: int, b: int, r: int, c: int|
            0 <= i < scenes@.len() && 0 <= b < bands && 0 <= r < size && 0 <= c < size
                && scenes@[i].mask.at(r, c) && (forall|j: int|
                0 <= j < i ==> !(#[trigger] scenes@[j]).mask.at(r, c)) implies #[trigger] data.at(
            b,
            r,
            c,
        ) == (#[trigger] scenes@[i]).data.at(b, r, c) by {
            lemma_first_valid_value(scenes@, i, r, c);
            assert(first_valid_value(scenes@, b, r, c) == scenes@[i].data.at(b, r, c));
        }
    }
    SceneTile { data, mask, ndvi: None }
}

/// A valid pixel found among the first scenes is the one found among all.
proof fn lemma_first_valid_prefix(scenes: Seq<SceneTile>, k: int, r: int, c: int)
    requires
        0 <= k <= scenes.len(),
        first_valid(scenes.take(k), r, c) is Some,
    ensures
        first_valid(scenes, r, c) == first_valid(scenes.take(k), r, c),
    decreases scenes.len(),
{
    if k < scenes.len() {
        assert(scenes.drop_last().take(k) =~= scenes.take(k));
        lemma_first_valid_prefix(scenes.drop_last(), k, r, c);
    } else {
        assert(scenes.take(k) =~= scenes);
    }
}

/// The value at a pixel, in every band, is that of the scene that is valid there with no
/// valid one before it; 0 where no scene is valid.
proof fn lemma_first_valid_value(scenes: Seq<SceneTile>, i: int, r: int, c: int)
    requires
        0 <= i < scenes.len(),
        scenes[i].mask.at(r, c),
        forall|j: int| 0 <= j < i ==> !(#[trigger] scenes[j]).mask.at(r, c),
    ensures
        first_valid(scenes, r, c) == Some(i),
        forall|b: int|
            #[trigger] first_valid_value(scenes, b, r, c) == scenes[i].data.at(b, r, c),
{
    lemma_first_valid(scenes, r, c);
    match first_valid(scenes, r, c) {
        Some(k) => {
            if k < i {
                assert(!scenes[k].mask.at(r, c));
            } else if i < k {
                assert(!scenes[i].mask.at(r, c));
            }
        },
        None => {
            assert(!scenes[i].mask.at(r, c));
        },
    }
}

// ─── Median composite ───────────────────────────────────────────────────────

/// Ascending order of samples.
pub open spec fn ascending() -> spec_fn(u16, u16) -> bool {
    |a: u16, b: u16| a <= b
}

/// Median of a non-empty sequence: the middle value in ascending order, or the mean
/// of the middle two, rounded down.
pub open spec fn median_of(vals: Seq<u16>) -> int {
    let s = vals.sort_by(ascending());
    let n = s.len() as int;
    if n % 2 == 0 {
        (s[n / 2 - 1] + s[n / 2]) / 2
    } else {
        s[n / 2] as int
    }
}

fn sort_samples(vals: &[u16]) -> (s: Vec<u16>)
    ensures
        s@ == vals@.sort_by(ascending()),
{
    let mut s: Vec<u16> = Vec::with_capacity(vals.len());
    let mut i: usize = 0;
    assert(s@ =~= vals@.take(0));
    while i < vals.len()
        invariant
            i <= vals@.len(),
            s@.len() == i,
            s@.to_multiset() == vals@.take(i as int).to_multiset(),
            sorted_by(s@, ascending()),
        decreases vals@.len() - i,
    {
        let x: u16 = vals[i];
        let mut j: usize = i;
        while j > 0 && s[j - 1] > x
            invariant
                j <= i,
                s@.len() == i,
                forall|m: int| j <= m < i ==> s@[m] > x,
            decreases j,
        {
            j -= 1;
        }
        let ghost s0 = s@;
        assert forall|m: int| 0 <= m < j implies s0[m] <= x by {
            if m < j - 1 {
                assert(ascending()(s0[m], s0[j - 1]));
            }
        }
        s.insert(j, x);
        proof {
            assert(vals@.take(i + 1) =~= vals@.take(i as int).push(x));
            to_multiset_insert(s0, j as int, x);
            to_multiset_build(vals@.take(i as int), x);
            assert forall|a: int, b: int| 0 <= a < b < s@.len() implies #[trigger] ascending()(
                s@[a],
                s@[b],
            ) by {
                let pa = if a < j { a } else { a - 1 };
                let pb = if b < j { b } else { b - 1 };
                if a != j && b != j {
                    assert(ascending()(s0[pa], s0[pb]));
                }
            }
        }
        i += 1;
    }
    proof {
        assert(vals@.take(i as int) =~= vals@);
        vals@.lemma_sort_by_ensures(ascending());
        lemma_sorted_unique(s@, vals@.sort_by(ascending()), ascending());
    }
    s
}

/// Median of a non-empty slice.
pub fn median_u16(vals: &[u16]) -> (m: u16)
    requires
        vals@.len() > 0,
    ensures
        m == median_of(vals@),
        2 * vals@.filter(|v: u16| v <= m).len() >= vals@.len(),
        2 * vals@.filter(|v: u16| v >= m).len() >= vals@.len(),
        vals@.len() % 2 == 1 ==> vals@.contains(m),
{
    let sorted = sort_samples(vals);
    proof {
        vals@.lemma_sort_by_ensures(ascending());
        broadcast use group_to_multiset_ensures;

        assert(sorted@.to_multiset().len() == vals@.to_multiset().len());
    }
    let n: usize = sorted.len();
    let m: u16 = if n % 2 == 0 {
        let sum: u32 = sorted[n / 2 - 1] as u32 + sorted[n / 2] as u32;
        (sum / 2) as u16
    } else {
        sorted[n / 2]
    };
    proof {
        median_splits_samples(vals@);
        assert((|v: u16| v <= m) =~= (|v: u16| v <= median_of(vals@)));
        assert((|v: u16| v >= m) =~= (|v: u16| v >= median_of(vals@)));
    }
    m
}

/// Filtering keeps at least the items of a stretch that all qualify.
proof fn lemma_filter_stretch(s: Seq<u16>, pred: spec_fn(u16) -> bool, from: int, to: int)
    requires
        0 <= from <= to <= s.len(),
        forall|i: int| from <= i < to ==> pred(#[trigger] s[i]),
    ensures
        s.filter(pred).len() >= to - from,
    decreases s.len(),
{
    reveal(Seq::filter);
    if s.len() > 0 {
        let init = s.drop_last();
        if to < s.len() {
            lemma_filter_stretch(init, pred, from, to);
        } else if from < to {
            assert(pred(s[to - 1]));
            assert forall|i: int| from <= i < to - 1 implies pred(#[trigger] init[i]) by {
                assert(init[i] == s[i]);
            }
            lemma_filter_stretch(init, pred, from, to - 1);
        }
    }
}

/// Filtering drops at least the items of a stretch none of which qualifies.
proof fn lemma_filter_outside(s: Seq<u16>, pred: spec_fn(u16) -> bool, from: int, to: int)
    requires
        0 <= from <= to <= s.len(),
        forall|i: int| from <= i < to ==> !pred(#[trigger] s[i]),
    ensures
        s.filter(pred).len() <= s.len() - (to - from),
    decreases s.len(),
{
    reveal(Seq::filter);
    if s.len() > 0 {
        let init = s.drop_last();
        if to < s.len() {
            lemma_filter_outside(init, pred, from, to);
        } else if from < to {
            assert(!pred(s[to - 1]));
            assert forall|i: int| from <= i < to - 1 implies !pred(#[trigger] init[i]) by {
                assert(init[i] == s[i]);
            }
            lemma_filter_outside(init, pred, from, to - 1);
        } else {
            init.lemma_filter_len(pred);
        }
    }
}

/// As many items qualify when one of them is taken out, but for that one.
proof fn lemma_filter_remove(s: Seq<u16>, pred: spec_fn(u16) -> bool, i: int)
    requires
        0 <= i < s.len(),
    ensures
        s.filter(pred).len() == s.remove(i).filter(pred).len() + if pred(s[i]) {
            1int
        } else {
            0
        },
    decreases s.len(),
{
    reveal(Seq::filter);
    let init = s.drop_last();
    let rest = s.remove(i);
    if i == s.len() - 1 {
        assert(rest =~= init);
    } else {
        lemma_filter_remove(init, pred, i);
        assert(rest.drop_last() =~= init.remove(i));
        assert(rest.last() == s.last());
    }
}

/// As many items qualify in whatever order they stand.
proof fn lemma_filter_reordered(s: Seq<u16>, t: Seq<u16>, pred: spec_fn(u16) -> bool)
    requires
        s.to_multiset() == t.to_multiset(),
    ensures
        s.filter(pred).len() == t.filter(pred).len(),
    decreases s.len(),
{
    broadcast use group_to_multiset_ensures;

    reveal(Seq::filter);
    to_multiset_len(s);
    to_multiset_len(t);
    if s.len() > 0 {
        let n = s.len() - 1;
        let x = s[n];
        assert(s.to_multiset().contains(x));
        assert(t.contains(x));
        let j = choose|j: int| 0 <= j < t.len() && t[j] == x;
        lemma_filter_remove(s, pred, n);
        lemma_filter_remove(t, pred, j);
        assert(s.remove(n).to_multiset() =~= t.remove(j).to_multiset());
        lemma_filter_reordered(s.remove(n), t.remove(j), pred);
    }
}

/// How many samples lie on either side of the sample at position `k` in ascending order.
proof fn lemma_rank_counts(vals: Seq<u16>, k: int)
    requires
        0 <= k < vals.len(),
    ensures
        vals.sort_by(ascending()).len() == vals.len(),
        vals.contains(vals.sort_by(ascending())[k]),
        forall|i: int, j: int|
            0 <= i <= j < vals.len() ==> #[trigger] vals.sort_by(ascending())[i]
                <= #[trigger] vals.sort_by(ascending())[j],
        vals.filter(|v: u16| v <= vals.sort_by(ascending())[k]).len() >= k + 1,
        vals.filter(|v: u16| v < vals.sort_by(ascending())[k]).len() <= k,
        vals.filter(|v: u16| v >= vals.sort_by(ascending())[k]).len() >= vals.len() - k,
        vals.filter(|v: u16| v > vals.sort_by(ascending())[k]).len() <= vals.len() - k - 1,
{
    broadcast use group_to_multiset_ensures;

    let s = vals.sort_by(ascending());
    vals.lemma_sort_by_ensures(ascending());
    to_multiset_len(s);
    to_multiset_len(vals);
    assert forall|i: int, j: int| 0 <= i <= j < s.len() implies #[trigger] s[i]
        <= #[trigger] s[j] by {
        if i < j {
            assert(ascending()(s[i], s[j]));
        }
    }
    assert(s.contains(s[k]));
    assert(s.to_multiset().contains(s[k]));
    let at_most = |v: u16| v <= s[k];
    let below = |v: u16| v < s[k];
    let at_least = |v: u16| v >= s[k];
    let above = |v: u16| v > s[k];
    lemma_filter_reordered(vals, s, at_most);
    lemma_filter_reordered(vals, s, below);
    lemma_filter_reordered(vals, s, at_least);
    lemma_filter_reordered(vals, s, above);
    lemma_filter_stretch(s, at_most, 0, k + 1);
    lemma_filter_outside(s, below, k, s.len() as int);
    lemma_filter_stretch(s, at_least, k, s.len() as int);
    lemma_filter_outside(s, above, 0, k + 1);
}

/// At least half of the samples are at most the median and at least half are at least the
/// median. Of an odd number of samples it is one, with less than half below and less
/// than half above it; of an even number it is the mean, rounded down, of two of them,
/// the lower with less than half below and the upper with less than half above it.
pub proof fn median_splits_samples(vals: Seq<u16>)
    requires
        vals.len() > 0,
    ensures
        2 * vals.filter(|v: u16| v <= median_of(vals)).len() >= vals.len(),
        2 * vals.filter(|v: u16| v >= median_of(vals)).len() >= vals.len(),
        vals.len() % 2 == 1 ==> {
            &&& exists|i: int| 0 <= i < vals.len() && #[trigger] vals[i] == median_of(vals)
            &&& 2 * vals.filter(|v: u16| v < median_of(vals)).len() < vals.len()
            &&& 2 * vals.filter(|v: u16| v > median_of(vals)).len() < vals.len()
        },
        vals.len() % 2 == 0 ==> exists|i: int, j: int|
            {
                &&& 0 <= i < vals.len()
                &&& 0 <= j < vals.len()
                &&& #[trigger] vals[i] <= #[trigger] vals[j]
                &&& median_of(vals) == (vals[i] + vals[j]) / 2
                &&& 2 * vals.filter(|v: u16| v <= vals[i]).len() >= vals.len()
                &&& 2 * vals.filter(|v: u16| v < vals[i]).len() < vals.len()
                &&& 2 * vals.filter(|v: u16| v >= vals[j]).len() >= vals.len()
                &&& 2 * vals.filter(|v: u16| v > vals[j]).len() < vals.len()
            },
{
    let n = vals.len() as int;
    let s = vals.sort_by(ascending());
    let m = median_of(vals);
    lemma_rank_counts(vals, n / 2);
    let hi = s[n / 2];
    let j = choose|j: int| 0 <= j < vals.len() && vals[j] == hi;
    let at_most = |v: u16| v <= m;
    let at_least = |v: u16| v >= m;
    if n % 2 == 1 {
        assert(vals[j] == m);
        assert(at_most =~= (|v: u16| v <= hi));
        assert(at_least =~= (|v: u16| v >= hi));
        assert((|v: u16| v < m) =~= (|v: u16| v < hi));
        assert((|v: u16| v > m) =~= (|v: u16| v > hi));
    } else {
        lemma_rank_counts(vals, n / 2 - 1);
        let lo = s[n / 2 - 1];
        let i = choose|i: int| 0 <= i < vals.len() && vals[i] == lo;
        assert(lo <= hi);
        assert(lo <= m <= hi);
        lemma_filter_implies(vals, |v: u16| v <= lo, at_most);
        lemma_filter_implies(vals, |v: u16| v >= hi, at_least);
        assert(vals[i] <= vals[j]);
    }
}

/// At least as many items qualify by a weaker condition.
proof fn lemma_filter_implies(s: Seq<u16>, p: spec_fn(u16) -> bool, q: spec_fn(u16) -> bool)
    requires
        forall|v: u16| #[trigger] p(v) ==> q(v),
    ensures
        s.filter(p).len() <= s.filter(q).len(),
    decreases s.len(),
{
    reveal(Seq::filter);
    if s.len() > 0 {
        lemma_filter_implies(s.drop_last(), p, q);
        assert(p(s.last()) ==> q(s.last()));
    }
}

/// The samples of a band at a pixel, from the scenes where the pixel is valid, in
/// scene order.
pub open spec fn valid_samples(scenes: Seq<SceneTile>, b: int, r: int, c: int) -> Seq<u16>
    decreases scenes.len(),
{
    if scenes.len() == 0 {
        Seq::empty()
    } else {
        let init = valid_samples(scenes.drop_last(), b, r, c);
        if scenes.last().mask.at(r, c) {
            init.push(scenes.last().data.at(b, r, c))
        } else {
            init
        }
    }
}

/// There are samples exactly where some scene is valid.
proof fn lemma_valid_samples_nonempty(scenes: Seq<SceneTile>, b: int, r: int, c: int)
    ensures
        valid_samples(scenes, b, r, c).len() > 0 <==> first_valid(scenes, r, c) is Some,
    decreases scenes.len(),
{
    if scenes.len() > 0 {
        lemma_valid_samples_nonempty(scenes.drop_last(), b, r, c);
    }
}

fn any_valid(scenes: &Vec<SceneTile>, r: usize, c: usize) -> (v: bool)
    requires
        forall|i: int| 0 <= i < scenes@.len() ==> r < (#[trigger] scenes@[i]).mask.rows(),
        forall|i: int| 0 <= i < scenes@.len() ==> c < (#[trigger] scenes@[i]).mask.cols(),
    ensures
        v == (first_valid(scenes@, r as int, c as int) is Some),
{
    let mut i: usize = 0;
    proof {
        lemma_first_valid(scenes@, r as int, c as int);
    }
    while i < scenes.len()
        invariant
            i <= scenes@.len(),
            forall|k: int| 0 <= k < scenes@.len() ==> r < (#[trigger] scenes@[k]).mask.rows(),
            forall|k: int| 0 <= k < scenes@.len() ==> c < (#[trigger] scenes@[k]).mask.cols(),
            forall|k: int|
                0 <= k < i ==> !(#[trigger] scenes@[k]).mask.at(r as int, c as int),
            match first_valid(scenes@, r as int, c as int) {
                Some(m) => 0 <= m < scenes@.len() && scenes@[m].mask.at(r as int, c as int),
                None => forall|j: int|
                    0 <= j < scenes@.len() ==> !(#[trigger] scenes@[j]).mask.at(
                        r as int,
                        c as int,
                    ),
            },
        decreases scenes@.len() - i,
    {
        if scenes[i].mask.get(r, c) {
            return true;
        }
        i += 1;
    }
    false
}

fn collect_samples(scenes: &Vec<SceneTile>, b: usize, r: usize, c: usize) -> (buf: Vec<u16>)
    requires
        forall|i: int| 0 <= i < scenes@.len() ==> b < (#[trigger] scenes@[i]).data.bands(),
        forall|i: int| 0 <= i < scenes@.len() ==> r < (#[trigger] scenes@[i]).data.rows(),
        forall|i: int| 0 <= i < scenes@.len() ==> c < (#[trigger] scenes@[i]).data.cols(),
        forall|i: int| 0 <= i < scenes@.len() ==> r < (#[trigger] scenes@[i]).mask.rows(),
        forall|i: int| 0 <= i < scenes@.len() ==> c < (#[trigger] scenes@[i]).mask.cols(),
    ensures
        buf@ == valid_samples(scenes@, b as int, r as int, c as int),
{
    let mut buf: Vec<u16> = Vec::with_capacity(scenes.len());
    let mut i: usize = 0;
    while i < scenes.len()
        invariant
            i <= scenes@.len(),
            forall|k: int| 0 <= k < scenes@.len() ==> b < (#[trigger] scenes@[k]).data.bands(),
            forall|k: int| 0 <= k < scenes@.len() ==> r < (#[trigger] scenes@[k]).data.rows(),
            forall|k: int| 0 <= k < scenes@.len() ==> c < (#[trigger] scenes@[k]).data.cols(),
            forall|k: int| 0 <= k < scenes@.len() ==> r < (#[trigger] scenes@[k]).mask.rows(),
            forall|k: int| 0 <= k < scenes@.len() ==> c < (#[trigger] scenes@[k]).mask.cols(),
            buf@ == valid_samples(scenes@.take(i as int), b as int, r as int, c as int),
        decreases scenes@.len() - i,
    {
        proof {
            assert(scenes@.take(i + 1).drop_last() =~= scenes@.take(i as int));
            assert(scenes@.take(i + 1).last() == scenes@[i as int]);
        }
        let scene = &scenes[i];
        if scene.mask.get(r, c) {
            buf.push(scene.data.get(b, r, c));
        }
        i += 1;
    }
    assert(scenes@.take(i as int) =~= scenes@);
    buf
}

/// What the median composite has at a pixel: the median of the valid samples, 0
/// where there are none.
pub open spec fn median_value(scenes: Seq<SceneTile>, b: int, r: int, c: int) -> int {
    if first_valid(scenes, r, c) is Some {
        median_of(valid_samples(scenes, b, r, c))
    } else {
        0
    }
}

/// Median composite over all valid samples.
pub fn median(scenes: Vec<SceneTile>) -> (t: SceneTile)
    requires
        scenes@.len() > 0,
        forall|i: int|
            0 <= i < scenes@.len() ==> (#[trigger] scenes@[i]).covers(
                scenes@[0].n_bands(),
                scenes@[0].side(),
            ),
    ensures
        t.wf(),
        t.n_bands() == scenes@[0].n_bands(),
        t.side() == scenes@[0].side(),
        t.ndvi is None,
        forall|r: int, c: int|
            0 <= r < t.side() && 0 <= c < t.side() ==> #[trigger] t.mask.at(r, c) == (first_valid(
                scenes@,
                r,
                c,
            ) is Some),
        forall|b: int, r: int, c: int|
            0 <= b < t.n_bands() && 0 <= r < t.side() && 0 <= c < t.side()
                ==> #[trigger] t.data.at(b, r, c) == median_value(scenes@, b, r, c),
{
    let (bands, size, width): (usize, usize, usize) = scenes[0].data.dim();
    proof {
        lemma_square_fits(bands as nat, size as nat, width as nat);
        lemma_plane_fits(bands as nat, size as nat, size as nat);
    }
    let mut data = BandStack::filled(bands, size, size, 0);
    let mut mask = MaskGrid::filled(size, size, false);
    for row in 0..size
        invariant
            data.bands() == bands,
            data.rows() == size,
            data.cols() == size,
            mask.rows() == size,
            mask.cols() == size,
            forall|i: int|
                0 <= i < scenes@.len() ==> (#[trigger] scenes@[i]).covers(bands as nat, size as nat),
            forall|r: int, c: int|
                0 <= r < size && 0 <= c < size ==> #[trigger] mask.at(r, c) == (r < row
                    && first_valid(scenes@, r, c) is Some),
            forall|b: int, r: int, c: int|
                0 <= b < bands && 0 <= r < size && 0 <= c < size ==> #[trigger] data.at(b, r, c) == if r
                    < row {
                    median_value(scenes@, b, r, c)
                } else {
                    0
                },
    {
        for col in 0..size
            invariant
                row < size,
                data.bands() == bands,
                data.rows() == size,
                data.cols() == size,
                mask.rows() == size,
                mask.cols() == size,
                forall|i: int|
                    0 <= i < scenes@.len() ==> (#[trigger] scenes@[i]).covers(
                        bands as nat,
                        size as nat,
                    ),
                forall|r: int, c: int|
                    0 <= r < size && 0 <= c < size ==> #[trigger] mask.at(r, c) == ((r < row || (r
                        == row && c < col)) && first_valid(scenes@, r, c) is Some),
                forall|b: int, r: int, c: int|
                    0 <= b < bands && 0 <= r < size && 0 <= c < size ==> #[trigger] data.at(b, r, c)
                        == if r < row || (r == row && c < col) {
                        median_value(scenes@, b, r, c)
                    } else {
                        0
                    },
        {
            if any_valid(&scenes, row, col) {
                mask.set(row, col, true);
                let ghost data0 = data;
                for b in 0..bands
                    invariant
                        row < size,
                        col < size,
                        data.bands() == bands,
                        data.rows() == size,
                        data.cols() == size,
                        first_valid(scenes@, row as int, col as int) is Some,
                        forall|i: int|
                            0 <= i < scenes@.len() ==> (#[trigger] scenes@[i]).covers(
                                bands as nat,
                                size as nat,
                            ),
                        forall|i: int, r: int, c: int|
                            #[trigger] data.at(i, r, c) == if r == row && c == col && 0 <= i < b {
                                median_value(scenes@, i, r, c)
                            } else {
                                data0.at(i, r, c) as int
                            },
                {
                    let buf = collect_samples(&scenes, b, row, col);
                    proof {
                        lemma_valid_samples_nonempty(scenes@, b as int, row as int, col as int);
                    }
                    data.set(b, row, col, median_u16(buf.as_slice()));
                }
            }
        }
    }
    SceneTile { data, mask, ndvi: None }
}

// ─── Vegetation index ───────────────────────────────────────────────────────

/// The vegetation index of a pixel as an exact fraction; 0 where it has no value.
pub open spec fn ndvi_of(nir: int, red: int) -> (int, int) {
    if nir + red > 0 {
        (nir - red, nir + red)
    } else {
        (0, 1)
    }
}

/// The index lies in [-1, 1].
pub proof fn ndvi_in_unit_range(nir: u16, red: u16)
    ensures
        ndvi_of(nir as int, red as int).1 > 0,
        -ndvi_of(nir as int, red as int).1 <= ndvi_of(nir as int, red as int).0 <= ndvi_of(
            nir as int,
            red as int,
        ).1,
{
}

/// The pixel of the composited tile carries an index value: it is valid, and NIR and
/// Red are not both 0.
pub open spec fn ndvi_valid(t: SceneTile, r: int, c: int) -> bool {
    t.mask.at(r, c) && t.data.at(0, r, c) + t.data.at(1, r, c) > 0
}

/// Per-pixel vegetation index of a composited tile (band 0 NIR, band 1 Red).
///
/// Pixels without a value are not valid and hold the index 0.
pub fn compute_ndvi(composited: SceneTile) -> (t: SceneTile)
    requires
        composited.wf(),
        composited.n_bands() >= 2,
        raster::fits2(composited.side(), composited.side(), 8),
    ensures
        t.wf(),
        t.n_bands() == 1,
        t.side() == composited.side(),
        forall|r: int, c: int|
            0 <= r < t.side() && 0 <= c < t.side() ==> #[trigger] t.data.at(0, r, c) == 0,
        forall|r: int, c: int|
            0 <= r < t.side() && 0 <= c < t.side() ==> #[trigger] t.mask.at(r, c) == ndvi_valid(
                composited,
                r,
                c,
            ),
        t.ndvi matches Some(n) && forall|r: int, c: int|
            0 <= r < t.side() && 0 <= c < t.side() ==> ((#[trigger] n.at(r, c)).0 as int, n.at(
                r,
                c,
            ).1 as int) == if ndvi_valid(composited, r, c) {
                ndvi_of(composited.data.at(0, r, c) as int, composited.data.at(1, r, c) as int)
            } else {
                (0int, 1int)
            },
{
    let (bands, size, _) = composited.data.dim();
    proof {
        lemma_plane_fits(bands as nat, size as nat, size as nat);
        lemma_one_band_fits(size as nat);
    }
    let mut ndvi = NdviGrid::filled(size, size, (0, 1));
    let mut mask = MaskGrid::filled(size, size, false);
    for row in 0..size
        invariant
            composited.wf(),
            composited.n_bands() >= 2,
            size == composited.side(),
            ndvi.rows() == size,
            ndvi.cols() == size,
            mask.rows() == size,
            mask.cols() == size,
            forall|r: int, c: int|
                0 <= r < size && 0 <= c < size ==> #[trigger] mask.at(r, c) == (r < row
                    && ndvi_valid(composited, r, c)),
            forall|r: int, c: int|
                0 <= r < size && 0 <= c < size ==> ((#[trigger] ndvi.at(r, c)).0 as int, ndvi.at(
                    r,
                    c,
                ).1 as int) == if r < row && ndvi_valid(composited, r, c) {
                    ndvi_of(composited.data.at(0, r, c) as int, composited.data.at(1, r, c) as int)
                } else {
                    (0int, 1int)
                },
    {
        for col in 0..size
            invariant
                row < size,
                composited.wf(),
                composited.n_bands() >= 2,
                size == composited.side(),
                ndvi.rows() == size,
                ndvi.cols() == size,
                mask.rows() == size,
                mask.cols() == size,
                forall|r: int, c: int|
                    0 <= r < size && 0 <= c < size ==> #[trigger] mask.at(r, c) == ((r < row || (r
                        == row && c < col)) && ndvi_valid(composited, r, c)),
                forall|r: int, c: int|
                    0 <= r < size && 0 <= c < size ==> ((#[trigger] ndvi.at(r, c)).0 as int, ndvi.at(
                        r,
                        c,
                    ).1 as int) == if (r < row || (r == row && c < col)) && ndvi_valid(
                        composited,
                        r,
                        c,
                    ) {
                        ndvi_of(
                            composited.data.at(0, r, c) as int,
                            composited.data.at(1, r, c) as int,
                        )
                    } else {
                        (0int, 1int)
                    },
        {
            if composited.mask.get(row, col) {
                let nir: i32 = composited.data.get(0, row, col) as i32;
                let red: i32 = composited.data.get(1, row, col) as i32;
                let denom: i32 = nir + red;
                if denom > 0 {
                    ndvi.set(row, col, (nir - red, denom as u32));
                    mask.set(row, col, true);
                }
            }
        }
    }
    SceneTile { data: BandStack::filled(1, size, size, 0), mask, ndvi: Some(ndvi) }
}

/// A single band fits where eight bytes for each of its cells fit.
proof fn lemma_one_band_fits(size: nat)
    requires
        raster::fits2(size, size, 8),
    ensures
        raster::fits3(1, size, size, 2),
{
    let a = raster::axis_weight(size);
    assert(1 * a * a == a * a) by (nonlinear_arith);
    assert(1 * size * size * 2 <= size * size * 8) by (nonlinear_arith);
}

// ─── Strategy ───────────────────────────────────────────────────────────────

/// Side of the tile that stands for a composite of no scenes.
pub const EMPTY_TILE_SIZE: usize = 256;

/// The composite of the scenes of a tile: without scenes an empty tile, else each pixel
/// from the first scene that has it valid or the median of those that do, or the
/// vegetation index of the first one.
pub open spec fn composite_of(
    scenes: Seq<SceneTile>,
    strategy: Composite,
    n_bands: nat,
    t: SceneTile,
) -> bool {
    &&& t.wf()
    &&& scenes.len() == 0 ==> {
        &&& t.n_bands() == n_bands
        &&& t.side() == EMPTY_TILE_SIZE
        &&& t.ndvi is None
        &&& forall|r: int, c: int|
            0 <= r < t.side() && 0 <= c < t.side() ==> !#[trigger] t.mask.at(r, c)
        &&& forall|b: int, r: int, c: int|
            0 <= b < n_bands && 0 <= r < t.side() && 0 <= c < t.side() ==> #[trigger] t.data.at(
                b,
                r,
                c,
            ) == 0
    }
    &&& scenes.len() > 0 ==> t.side() == scenes[0].side()
    &&& scenes.len() > 0 && !(strategy is Ndvi) ==> {
        &&& t.n_bands() == scenes[0].n_bands()
        &&& t.ndvi is None
        &&& forall|r: int, c: int|
            0 <= r < t.side() && 0 <= c < t.side() ==> #[trigger] t.mask.at(r, c) == (
            first_valid(scenes, r, c) is Some)
        &&& forall|b: int, r: int, c: int|
            0 <= b < t.n_bands() && 0 <= r < t.side() && 0 <= c < t.side()
                ==> #[trigger] t.data.at(b, r, c) == (if strategy is Median {
                median_value(scenes, b, r, c)
            } else {
                first_valid_value(scenes, b, r, c) as int
            })
    }
    &&& scenes.len() > 0 && strategy is Ndvi ==> {
        &&& t.n_bands() == 1
        &&& forall|r: int, c: int|
            0 <= r < t.side() && 0 <= c < t.side() ==> #[trigger] t.data.at(0, r, c) == 0
        &&& forall|r: int, c: int|
            0 <= r < t.side() && 0 <= c < t.side() ==> #[trigger] t.mask.at(r, c) == (
            first_valid(scenes, r, c) is Some && first_valid_value(scenes, 0, r, c)
                + first_valid_value(scenes, 1, r, c) > 0)
        &&& t.ndvi matches Some(n) && forall|r: int, c: int|
            0 <= r < t.side() && 0 <= c < t.side() ==> ((#[trigger] n.at(r, c)).0 as int, n.at(
                r,
                c,
            ).1 as int) == if t.mask.at(r, c) {
                ndvi_of(
                    first_valid_value(scenes, 0, r, c) as int,
                    first_valid_value(scenes, 1, r, c) as int,
                )
            } else {
                (0int, 1int)
            }
    }
}

/// The first scene that is valid at a pixel gives a first-valid composite its whole pixel:
/// every band of it, and no band of any other scene.
pub proof fn first_valid_scene_wins(
    scenes: Seq<SceneTile>,
    strategy: Composite,
    n_bands: nat,
    t: SceneTile,
    i: int,
    r: int,
    c: int,
)
    requires
        strategy is BestPixel || strategy is Latest,
        composite_of(scenes, strategy, n_bands, t),
        0 <= i < scenes.len(),
        0 <= r < t.data.rows(),
        0 <= c < t.data.cols(),
        scenes[i].mask.at(r, c),
        forall|j: int| 0 <= j < i ==> !(#[trigger] scenes[j]).mask.at(r, c),
    ensures
        t.data.bands() == scenes[0].data.bands(),
        t.mask.at(r, c),
        forall|b: int|
            0 <= b < t.data.bands() ==> #[trigger] t.data.at(b, r, c) == scenes[i].data.at(b, r, c),
{
    lemma_first_valid_value(scenes, i, r, c);
    assert forall|b: int| 0 <= b < t.data.bands() implies #[trigger] t.data.at(b, r, c)
        == scenes[i].data.at(b, r, c) by {
        assert(first_valid_value(scenes, b, r, c) == scenes[i].data.at(b, r, c));
    }
}

/// The composite of a single scene is that scene in every band at its valid pixels,
/// whether the first valid pixel or the median is taken.
pub proof fn single_scene_is_kept(
    scene: SceneTile,
    strategy: Composite,
    n_bands: nat,
    t: SceneTile,
    r: int,
    c: int,
)
    requires
        !(strategy is Ndvi),
        composite_of(seq![scene], strategy, n_bands, t),
        0 <= r < t.data.rows(),
        0 <= c < t.data.cols(),
    ensures
        t.data.bands() == scene.data.bands(),
        t.mask.at(r, c) == scene.mask.at(r, c),
        scene.mask.at(r, c) ==> forall|b: int|
            0 <= b < t.data.bands() ==> #[trigger] t.data.at(b, r, c) == scene.data.at(b, r, c),
{
    let scenes = seq![scene];
    lemma_first_valid(scenes, r, c);
    if scene.mask.at(r, c) {
        lemma_first_valid_value(scenes, 0, r, c);
        assert forall|b: int| 0 <= b < t.data.bands() implies #[trigger] t.data.at(b, r, c)
            == scene.data.at(b, r, c) by {
            assert(first_valid_value(scenes, b, r, c) == scene.data.at(b, r, c));
            let vals = valid_samples(scenes, b, r, c);
            assert(scenes.drop_last() =~= Seq::empty());
            assert(vals =~= seq![scene.data.at(b, r, c)]) by {
                reveal_with_fuel(valid_samples, 2);
            }
            median_splits_samples(vals);
            let k = choose|k: int| 0 <= k < vals.len() && #[trigger] vals[k] == median_of(vals);
        }
    } else {
        assert(!scenes[0].mask.at(r, c));
    }
}

/// Where no scene is valid a composite is not valid either, and holds 0 in every band.
pub proof fn unseen_pixels_are_empty(
    scenes: Seq<SceneTile>,
    strategy: Composite,
    n_bands: nat,
    t: SceneTile,
    r: int,
    c: int,
)
    requires
        composite_of(scenes, strategy, n_bands, t),
        0 <= r < t.data.rows(),
        0 <= c < t.data.cols(),
        forall|j: int| 0 <= j < scenes.len() ==> !(#[trigger] scenes[j]).mask.at(r, c),
    ensures
        !t.mask.at(r, c),
        forall|b: int| 0 <= b < t.data.bands() ==> #[trigger] t.data.at(b, r, c) == 0,
{
    lemma_first_valid(scenes, r, c);
}

/// The shape of a composite: that of the first scene, with one band for the vegetation
/// index, or 256 pixels square with the bands asked for where there is no scene.
pub proof fn composite_shape(
    scenes: Seq<SceneTile>,
    strategy: Composite,
    n_bands: nat,
    t: SceneTile,
)
    requires
        composite_of(scenes, strategy, n_bands, t),
    ensures
        t.mask.rows() == t.data.rows(),
        t.mask.cols() == t.data.rows(),
        t.data.cols() == t.data.rows(),
        scenes.len() == 0 ==> t.data.rows() == 256 && t.data.bands() == n_bands && t.ndvi is None,
        scenes.len() > 0 ==> t.data.rows() == scenes[0].data.rows(),
        scenes.len() > 0 && strategy is Ndvi ==> t.data.bands() == 1,
        scenes.len() > 0 && !(strategy is Ndvi) ==> t.data.bands() == scenes[0].data.bands(),
        scenes.len() > 0 ==> (t.ndvi is Some <==> strategy is Ndvi),
        t.ndvi matches Some(n) ==> n.rows() == t.data.rows() && n.cols() == t.data.rows(),
{
}

/// The vegetation index of a pixel is the difference of NIR and Red over their sum, both
/// taken from the first scene that is valid there; a pixel where both are 0 has none.
pub proof fn ndvi_of_first_valid_scene(
    scenes: Seq<SceneTile>,
    n_bands: nat,
    t: SceneTile,
    i: int,
    r: int,
    c: int,
)
    requires
        composite_of(scenes, Composite::Ndvi, n_bands, t),
        0 <= i < scenes.len(),
        0 <= r < t.data.rows(),
        0 <= c < t.data.cols(),
        scenes[i].mask.at(r, c),
        forall|j: int| 0 <= j < i ==> !(#[trigger] scenes[j]).mask.at(r, c),
    ensures
        t.ndvi is Some,
        ({
            let nir = scenes[i].data.at(0, r, c);
            let red = scenes[i].data.at(1, r, c);
            let n = t.ndvi->0.at(r, c);
            &&& t.mask.at(r, c) <==> nir > 0 || red > 0
            &&& t.mask.at(r, c) ==> n.0 == nir - red && n.1 == nir + red
            &&& !t.mask.at(r, c) ==> n.0 == 0
        }),
{
    lemma_first_valid_value(scenes, i, r, c);
    assert(first_valid_value(scenes, 0, r, c) == scenes[i].data.at(0, r, c));
    assert(first_valid_value(scenes, 1, r, c) == scenes[i].data.at(1, r, c));
}

/// Counting the samples of a pixel that qualify is counting the scenes that are valid
/// there and whose sample qualifies.
proof fn lemma_count_samples(
    scenes: Seq<SceneTile>,
    b: int,
    r: int,
    c: int,
    p: spec_fn(u16) -> bool,
    q: spec_fn(SceneTile) -> bool,
)
    requires
        forall|s: SceneTile| #[trigger] q(s) == (s.mask.at(r, c) && p(s.data.at(b, r, c))),
    ensures
        valid_samples(scenes, b, r, c).filter(p).len() == scenes.filter(q).len(),
    decreases scenes.len(),
{
    reveal(Seq::filter);
    if scenes.len() > 0 {
        let init = scenes.drop_last();
        lemma_count_samples(init, b, r, c, p, q);
        let before = valid_samples(init, b, r, c);
        let after = valid_samples(scenes, b, r, c);
        assert(q(scenes.last()) == (scenes.last().mask.at(r, c) && p(
            scenes.last().data.at(b, r, c),
        )));
        if scenes.last().mask.at(r, c) {
            assert(after.drop_last() =~= before);
        }
    }
}

/// A scene that is valid at a pixel has this value there.
spec fn some_scene_has(scenes: Seq<SceneTile>, b: int, r: int, c: int, v: u16) -> bool {
    exists|i: int|
        0 <= i < scenes.len() && (#[trigger] scenes[i]).mask.at(r, c) && scenes[i].data.at(b, r, c)
            == v
}

/// The samples of a pixel are those of the scenes that are valid there.
proof fn lemma_samples_of_scenes(scenes: Seq<SceneTile>, b: int, r: int, c: int)
    ensures
        forall|k: int|
            0 <= k < valid_samples(scenes, b, r, c).len() ==> some_scene_has(
                scenes,
                b,
                r,
                c,
                #[trigger] valid_samples(scenes, b, r, c)[k],
            ),
        valid_samples(scenes, b, r, c).len() == scenes.filter(
            |s: SceneTile| s.mask.at(r, c),
        ).len(),
    decreases scenes.len(),
{
    reveal(Seq::filter);
    let all = valid_samples(scenes, b, r, c);
    if scenes.len() > 0 {
        let init = scenes.drop_last();
        lemma_samples_of_scenes(init, b, r, c);
        let before = valid_samples(init, b, r, c);
        assert forall|k: int| 0 <= k < all.len() implies some_scene_has(
            scenes,
            b,
            r,
            c,
            #[trigger] all[k],
        ) by {
            if k < before.len() {
                assert(some_scene_has(init, b, r, c, before[k]));
                let i = choose|i: int|
                    0 <= i < init.len() && (#[trigger] init[i]).mask.at(r, c) && init[i].data.at(
                        b,
                        r,
                        c,
                    ) == before[k];
                assert(scenes[i] == init[i]);
            } else {
                assert(scenes[scenes.len() - 1].mask.at(r, c));
            }
        }
    }
}

/// The value of a median composite at a valid pixel: of the scenes that are valid there,
/// at least half are at most as bright in that band and at least half are at least as
/// bright. Where an odd number is valid it is the value of one of them, else the mean,
/// rounded down, of those of two of them with less than half darker than the darker one
/// and less than half brighter than the brighter one.
pub proof fn median_splits_scenes(
    scenes: Seq<SceneTile>,
    n_bands: nat,
    t: SceneTile,
    b: int,
    r: int,
    c: int,
)
    requires
        composite_of(scenes, Composite::Median, n_bands, t),
        0 <= b < t.data.bands(),
        0 <= r < t.data.rows(),
        0 <= c < t.data.cols(),
        exists|i: int| 0 <= i < scenes.len() && (#[trigger] scenes[i]).mask.at(r, c),
    ensures
        t.mask.at(r, c),
        ({
            let m = t.data.at(b, r, c);
            let n = scenes.filter(|s: SceneTile| s.mask.at(r, c)).len();
            &&& 2 * scenes.filter(
                |s: SceneTile| s.mask.at(r, c) && s.data.at(b, r, c) <= m,
            ).len() >= n
            &&& 2 * scenes.filter(
                |s: SceneTile| s.mask.at(r, c) && s.data.at(b, r, c) >= m,
            ).len() >= n
            &&& n % 2 == 1 ==> exists|i: int|
                0 <= i < scenes.len() && (#[trigger] scenes[i]).mask.at(r, c) && scenes[i].data.at(
                    b,
                    r,
                    c,
                ) == m
            &&& n % 2 == 0 ==> exists|i: int, j: int|
                {
                    let lo = (#[trigger] scenes[i]).data.at(b, r, c);
                    let hi = (#[trigger] scenes[j]).data.at(b, r, c);
                    &&& 0 <= i < scenes.len()
                    &&& 0 <= j < scenes.len()
                    &&& scenes[i].mask.at(r, c)
                    &&& scenes[j].mask.at(r, c)
                    &&& lo <= hi
                    &&& m == (lo + hi) / 2
                    &&& 2 * scenes.filter(
                        |s: SceneTile| s.mask.at(r, c) && s.data.at(b, r, c) < lo,
                    ).len() < n
                    &&& 2 * scenes.filter(
                        |s: SceneTile| s.mask.at(r, c) && s.data.at(b, r, c) > hi,
                    ).len() < n
                }
        }),
{
    let vals = valid_samples(scenes, b, r, c);
    let m = t.data.at(b, r, c);
    let i0 = choose|i: int| 0 <= i < scenes.len() && (#[trigger] scenes[i]).mask.at(r, c);
    lemma_first_valid(scenes, r, c);
    lemma_valid_samples_nonempty(scenes, b, r, c);
    lemma_samples_of_scenes(scenes, b, r, c);
    median_splits_samples(vals);
    assert(m == median_of(vals));
    let n = scenes.filter(|s: SceneTile| s.mask.at(r, c)).len();
    lemma_count_samples(
        scenes,
        b,
        r,
        c,
        |v: u16| v <= median_of(vals),
        |s: SceneTile| s.mask.at(r, c) && s.data.at(b, r, c) <= m,
    );
    lemma_count_samples(
        scenes,
        b,
        r,
        c,
        |v: u16| v >= median_of(vals),
        |s: SceneTile| s.mask.at(r, c) && s.data.at(b, r, c) >= m,
    );
    if n % 2 == 1 {
        let k = choose|k: int| 0 <= k < vals.len() && #[trigger] vals[k] == median_of(vals);
        assert(some_scene_has(scenes, b, r, c, vals[k]));
    } else {
        let (k, l) = choose|k: int, l: int|
            {
                &&& 0 <= k < vals.len()
                &&& 0 <= l < vals.len()
                &&& #[trigger] vals[k] <= #[trigger] vals[l]
                &&& median_of(vals) == (vals[k] + vals[l]) / 2
                &&& 2 * vals.filter(|v: u16| v <= vals[k]).len() >= vals.len()
                &&& 2 * vals.filter(|v: u16| v < vals[k]).len() < vals.len()
                &&& 2 * vals.filter(|v: u16| v >= vals[l]).len() >= vals.len()
                &&& 2 * vals.filter(|v: u16| v > vals[l]).len() < vals.len()
            };
        assert(some_scene_has(scenes, b, r, c, vals[k]) && some_scene_has(
            scenes,
            b,
            r,
            c,
            vals[l],
        ));
        let i = choose|i: int|
            0 <= i < scenes.len() && (#[trigger] scenes[i]).mask.at(r, c) && scenes[i].data.at(
                b,
                r,
                c,
            ) == vals[k];
        let j = choose|i: int|
            0 <= i < scenes.len() && (#[trigger] scenes[i]).mask.at(r, c) && scenes[i].data.at(
                b,
                r,
                c,
            ) == vals[l];
        let lo = scenes[i].data.at(b, r, c);
        let hi = scenes[j].data.at(b, r, c);
        lemma_count_samples(
            scenes,
            b,
            r,
            c,
            |v: u16| v < vals[k],
            |s: SceneTile| s.mask.at(r, c) && s.data.at(b, r, c) < lo,
        );
        lemma_count_samples(
            scenes,
            b,
            r,
            c,
            |v: u16| v > vals[l],
            |s: SceneTile| s.mask.at(r, c) && s.data.at(b, r, c) > hi,
        );
        assert(lo <= hi && m == (lo + hi) / 2);
    }
}

/// What a scene adds to the samples of a pixel.
spec fn sample_of(scene: SceneTile, b: int, r: int, c: int) -> Multiset<u16> {
    if scene.mask.at(r, c) {
        Multiset::singleton(scene.data.at(b, r, c))
    } else {
        Multiset::empty()
    }
}

/// A scene adds its sample wherever it stands.
proof fn lemma_samples_without(scenes: Seq<SceneTile>, i: int, b: int, r: int, c: int)
    requires
        0 <= i < scenes.len(),
    ensures
        valid_samples(scenes, b, r, c).to_multiset() == valid_samples(
            scenes.remove(i),
            b,
            r,
            c,
        ).to_multiset().add(sample_of(scenes[i], b, r, c)),
    decreases scenes.len(),
{
    broadcast use group_to_multiset_ensures;

    let init = scenes.drop_last();
    if i == scenes.len() - 1 {
        assert(scenes.remove(i) =~= init);
        assert(valid_samples(scenes, b, r, c).to_multiset() =~= valid_samples(
            init,
            b,
            r,
            c,
        ).to_multiset().add(sample_of(scenes[i], b, r, c)));
    } else {
        let rest = scenes.remove(i);
        lemma_samples_without(init, i, b, r, c);
        assert(rest.drop_last() =~= init.remove(i));
        assert(rest.last() == scenes.last());
        assert(valid_samples(scenes, b, r, c).to_multiset() =~= valid_samples(
            rest,
            b,
            r,
            c,
        ).to_multiset().add(sample_of(scenes[i], b, r, c)));
    }
}

/// The same scenes in another order have the same samples.
proof fn lemma_samples_reordered(
    scenes: Seq<SceneTile>,
    others: Seq<SceneTile>,
    b: int,
    r: int,
    c: int,
)
    requires
        scenes.to_multiset() == others.to_multiset(),
    ensures
        valid_samples(scenes, b, r, c).to_multiset() == valid_samples(
            others,
            b,
            r,
            c,
        ).to_multiset(),
    decreases scenes.len(),
{
    broadcast use group_to_multiset_ensures;

    to_multiset_len(scenes);
    to_multiset_len(others);
    if scenes.len() > 0 {
        let n = scenes.len() - 1;
        let x = scenes[n];
        assert(scenes.to_multiset().contains(x));
        assert(others.contains(x));
        let j = choose|j: int| 0 <= j < others.len() && others[j] == x;
        lemma_samples_without(scenes, n, b, r, c);
        lemma_samples_without(others, j, b, r, c);
        assert(scenes.remove(n).to_multiset() =~= others.remove(j).to_multiset());
        lemma_samples_reordered(scenes.remove(n), others.remove(j), b, r, c);
    }
}

/// The median of a pixel does not depend on the order of the scenes.
proof fn lemma_median_reordered(
    scenes: Seq<SceneTile>,
    others: Seq<SceneTile>,
    b: int,
    r: int,
    c: int,
)
    requires
        scenes.to_multiset() == others.to_multiset(),
    ensures
        (first_valid(scenes, r, c) is Some) == (first_valid(others, r, c) is Some),
        median_value(scenes, b, r, c) == median_value(others, b, r, c),
{
    broadcast use group_to_multiset_ensures;

    lemma_samples_reordered(scenes, others, b, r, c);
    lemma_valid_samples_nonempty(scenes, b, r, c);
    lemma_valid_samples_nonempty(others, b, r, c);
    let (s, t) = (valid_samples(scenes, b, r, c), valid_samples(others, b, r, c));
    to_multiset_len(s);
    to_multiset_len(t);
    s.lemma_sort_by_ensures(ascending());
    t.lemma_sort_by_ensures(ascending());
    lemma_sorted_unique(s.sort_by(ascending()), t.sort_by(ascending()), ascending());
}

/// The median composite does not depend on the order of the scenes.
pub proof fn median_ignores_scene_order(
    scenes: Seq<SceneTile>,
    others: Seq<SceneTile>,
    n_bands: nat,
    t: SceneTile,
    u: SceneTile,
)
    requires
        scenes.to_multiset() == others.to_multiset(),
        scenes.len() > 0 ==> scenes[0].side() == others[0].side() && scenes[0].n_bands()
            == others[0].n_bands(),
        composite_of(scenes, Composite::Median, n_bands, t),
        composite_of(others, Composite::Median, n_bands, u),
    ensures
        t.side() == u.side(),
        t.n_bands() == u.n_bands(),
        forall|r: int, c: int|
            0 <= r < t.side() && 0 <= c < t.side() ==> #[trigger] t.mask.at(r, c) == u.mask.at(r, c),
        forall|b: int, r: int, c: int|
            0 <= b < t.n_bands() && 0 <= r < t.side() && 0 <= c < t.side()
                ==> #[trigger] t.data.at(b, r, c) == u.data.at(b, r, c),
{
    to_multiset_len(scenes);
    to_multiset_len(others);
    assert forall|r: int, c: int| 0 <= r < t.side() && 0 <= c < t.side() implies #[trigger] t.mask.at(
        r,
        c,
    ) == u.mask.at(r, c) by {
        lemma_median_reordered(scenes, others, 0, r, c);
    }
    assert forall|b: int, r: int, c: int|
        0 <= b < t.n_bands() && 0 <= r < t.side() && 0 <= c < t.side() implies #[trigger] t.data.at(
        b,
        r,
        c,
    ) == u.data.at(b, r, c) by {
        lemma_median_reordered(scenes, others, b, r, c);
    }
}

/// Composite the scenes of a tile with the configured strategy.
///
/// The scenes are in order of preference; the vegetation index is computed from the
/// first-valid composite.
pub fn composite(scenes: Vec<SceneTile>, strategy: &Composite, n_bands: usize) -> (t: SceneTile)
    requires
        scenes@.len() == 0 ==> raster::fits3(n_bands as nat, 256, 256, 2),
        scenes@.len() > 0 ==> {
            &&& forall|i: int|
                0 <= i < scenes@.len() ==> (#[trigger] scenes@[i]).covers(
                    scenes@[0].n_bands(),
                    scenes@[0].side(),
                )
            &&& *strategy is Ndvi ==> scenes@[0].n_bands() >= 2 && raster::fits2(
                scenes@[0].side(),
                scenes@[0].side(),
                8,
            )
        },
    ensures
        composite_of(scenes@, *strategy, n_bands as nat, t),
{
    if scenes.is_empty() {
        proof {
            lemma_plane_fits(n_bands as nat, 256, 256);
        }
        return SceneTile::empty(n_bands, EMPTY_TILE_SIZE);
    }
    match strategy {
        Composite::BestPixel | Composite::Latest => best_pixel(scenes),
        Composite::Median => median(scenes),
        Composite::Ndvi => compute_ndvi(best_pixel(scenes)),
    }
}

// ─── Gap filling ────────────────────────────────────────────────────────────

/// The valid pixels among the first `k` in row-major order.
pub open spec fn seed_list(mask: MaskGrid, side: nat, k: int) -> Seq<Pixel>
    decreases k,
{
    if k <= 0 {
        Seq::empty()
    } else {
        let p = flood::pixel_at(k - 1, side);
        let init = seed_list(mask, side, k - 1);
        if mask.at(p.0, p.1) {
            init.push(p)
        } else {
            init
        }
    }
}

/// The valid pixels of a mask.
pub open spec fn seed_set(mask: MaskGrid, side: nat) -> Set<Pixel> {
    Set::new(|p: Pixel| flood::in_grid(p, side) && mask.at(p.0, p.1))
}

/// Flooding from the valid pixels, before its first step.
pub open spec fn seeded(mask: MaskGrid, side: nat) -> Flood {
    Flood {
        queue: seed_list(mask, side, (side * side) as int),
        source: Map::new(|p: Pixel| flood::in_grid(p, side) && mask.at(p.0, p.1), |p: Pixel| p),
    }
}

/// For each pixel that gap filling leaves valid, the valid pixel its value comes from.
pub open spec fn fill_source(mask: MaskGrid, side: nat) -> Map<Pixel, Pixel> {
    flood::flood(seeded(mask, side), side).source
}

proof fn lemma_seed_list(mask: MaskGrid, side: nat, k: int)
    requires
        0 <= k <= side * side,
    ensures
        forall|i: int|
            0 <= i < seed_list(mask, side, k).len() ==> seed_set(mask, side).contains(
                #[trigger] seed_list(mask, side, k)[i],
            ),
        forall|p: Pixel|
            #![trigger seed_set(mask, side).contains(p)]
            seed_set(mask, side).contains(p) && flood::code(p, side) < k ==> seed_list(
                mask,
                side,
                k,
            ).contains(p),
    decreases k,
{
    if k > 0 {
        let init = seed_list(mask, side, k - 1);
        let list = seed_list(mask, side, k);
        lemma_seed_list(mask, side, k - 1);
        flood::lemma_pixel_at(k - 1, side);
        assert forall|p: Pixel|
            #![trigger seed_set(mask, side).contains(p)]
            seed_set(mask, side).contains(p) && flood::code(p, side) < k implies list.contains(p) by {
            flood::lemma_code(p, side);
            if flood::code(p, side) == k - 1 {
                assert(p == flood::pixel_at(k - 1, side));
                assert(list[list.len() - 1] == p);
            } else {
                let i = choose|i: int| 0 <= i < init.len() && init[i] == p;
                assert(list[i] == p);
            }
        }
    }
}

proof fn lemma_seeded(mask: MaskGrid, side: nat)
    ensures
        flood::starts_from(seeded(mask, side), seed_set(mask, side), side),
{
    assert(0 <= side * side) by (nonlinear_arith);
    lemma_seed_list(mask, side, (side * side) as int);
    assert forall|s: Pixel| #[trigger] seed_set(mask, side).contains(s) implies seeded(
        mask,
        side,
    ).queue.contains(s) by {
        flood::lemma_code(s, side);
    }
}

/// The tile while it is flooded: reached pixels hold the value of their source.
spec fn flooding(
    st: Flood,
    tile: SceneTile,
    queue: Seq<(usize, usize)>,
    orig: SceneTile,
) -> bool {
    let side = orig.side();
    &&& tile.wf()
    &&& tile.side() == side
    &&& tile.n_bands() == orig.n_bands()
    &&& tile.ndvi is Some == orig.ndvi is Some
    &&& queue.len() == st.queue.len()
    &&& forall|i: int|
        0 <= i < queue.len() ==> (#[trigger] st.queue[i]) == (queue[i].0 as int, queue[i].1 as int)
            && st.source.contains_key(st.queue[i])
    &&& forall|p: Pixel| #[trigger]
        st.source.contains_key(p) ==> flood::in_grid(p, side) && flood::in_grid(st.source[p], side)
    &&& forall|r: int, c: int|
        flood::in_grid((r, c), side) ==> #[trigger] tile.mask.at(r, c) == st.source.contains_key((r, c))
    &&& match (tile.ndvi, orig.ndvi) {
        (Some(n), Some(m)) => {
            &&& tile.data == orig.data
            &&& forall|r: int, c: int|
                flood::in_grid((r, c), side) ==> #[trigger] n.at(r, c) == (if st.source.contains_key(
                    (r, c),
                ) {
                    m.at(st.source[(r, c)].0, st.source[(r, c)].1)
                } else {
                    m.at(r, c)
                })
        },
        _ => forall|b: int, r: int, c: int|
            0 <= b < orig.n_bands() && flood::in_grid((r, c), side) ==> #[trigger] tile.data.at(b, r, c)
                == (if st.source.contains_key((r, c)) {
                orig.data.at(b, st.source[(r, c)].0, st.source[(r, c)].1)
            } else {
                orig.data.at(b, r, c)
            }),
    }
}

/// Copy the pixel at (`r`, `c`) to (`nr`, `nc`) and queue it, unless that lies outside
/// or is valid already.
fn offer_pixel(
    tile: &mut SceneTile,
    queue: &mut VecDeque<(usize, usize)>,
    r: usize,
    c: usize,
    nr: usize,
    nc: usize,
    Ghost(st): Ghost<Flood>,
    Ghost(n): Ghost<Pixel>,
    Ghost(orig): Ghost<SceneTile>,
)
    requires
        flooding(st, *old(tile), old(queue)@, orig),
        st.source.contains_key((r as int, c as int)),
        flood::in_grid(n, orig.side()) ==> nr == n.0 && nc == n.1,
        nr < orig.side() && nc < orig.side() ==> flood::in_grid(n, orig.side()),
    ensures
        flooding(
            flood::offer(st, n, st.source[(r as int, c as int)], orig.side()),
            *final(tile),
            final(queue)@,
            orig,
        ),
{
    let size: usize = tile.size();
    if nr < size && nc < size && !tile.mask.get(nr, nc) {
        let ghost before = *tile;
        let ghost q0 = queue@;
        let ghost st1 = flood::offer(st, n, st.source[(r as int, c as int)], orig.side());
        let bands: usize = tile.bands();
        if let Some(ndvi) = &mut tile.ndvi {
            let v = ndvi.get(r, c);
            ndvi.set(nr, nc, v);
        } else {
            for b in 0..bands
                invariant
                    r < size,
                    c < size,
                    nr < size,
                    nc < size,
                    (r, c) != (nr, nc),
                    size == before.side(),
                    bands == before.n_bands(),
                    before.wf(),
                    tile.data.bands() == bands,
                    tile.data.rows() == size,
                    tile.data.cols() == size,
                    tile.mask == before.mask,
                    tile.ndvi == before.ndvi,
                    forall|i: int, x: int, y: int|
                        #[trigger] tile.data.at(i, x, y) == if x == nr && y == nc && 0 <= i < b {
                            before.data.at(i, r as int, c as int)
                        } else {
                            before.data.at(i, x, y)
                        },
            {
                let v: u16 = tile.data.get(b, r, c);
                tile.data.set(b, nr, nc, v);
            }
        }
        tile.mask.set(nr, nc, true);
        queue.push_back((nr, nc));
        proof {
            assert(before.mask.at(r as int, c as int));
            assert(!st.source.contains_key(n));
            assert forall|i: int| 0 <= i < queue@.len() implies (#[trigger] st1.queue[i]) == (
                queue@[i].0 as int,
                queue@[i].1 as int,
            ) && st1.source.contains_key(st1.queue[i]) by {
                if i < q0.len() {
                    assert(st1.queue[i] == st.queue[i]);
                }
            }
        }
    }
}

/// The gaps of a tile are filled: a pixel that the fill reaches is valid and holds what
/// its source held, in the vegetation index or else in the bands.
pub open spec fn gaps_filled(before: SceneTile, after: SceneTile) -> bool {
    &&& after.wf()
    &&& after.n_bands() == before.n_bands()
    &&& after.side() == before.side()
    &&& after.ndvi is Some == before.ndvi is Some
    &&& forall|r: int, c: int|
        flood::in_grid((r, c), before.side()) ==> #[trigger] after.mask.at(r, c) == fill_source(
            before.mask,
            before.side(),
        ).contains_key((r, c))
    &&& match (after.ndvi, before.ndvi) {
        (Some(n), Some(m)) => after.data == before.data && forall|r: int, c: int|
            flood::in_grid((r, c), before.side()) ==> #[trigger] n.at(r, c) == ({
                let src = fill_source(before.mask, before.side());
                if src.contains_key((r, c)) {
                    m.at(src[(r, c)].0, src[(r, c)].1)
                } else {
                    m.at(r, c)
                }
            }),
        _ => forall|b: int, r: int, c: int|
            0 <= b < before.n_bands() && flood::in_grid((r, c), before.side())
                ==> #[trigger] after.data.at(b, r, c) == ({
                let src = fill_source(before.mask, before.side());
                if src.contains_key((r, c)) {
                    before.data.at(b, src[(r, c)].0, src[(r, c)].1)
                } else {
                    before.data.at(b, r, c)
                }
            }),
    }
}

/// Fill invalid pixels from the nearest valid ones.
///
/// Expands breadth-first from all valid pixels, so that each gap takes the value of a
/// nearest valid pixel, among equally near ones the one reached first. Works on
/// spectral and index tiles alike. Every pixel is valid afterwards where any was.
pub fn fill_gaps(tile: &mut SceneTile)
    requires
        old(tile).wf(),
    ensures
        gaps_filled(*old(tile), *final(tile)),
{
    let size: usize = tile.size();
    let ghost orig = *tile;
    let ghost side = orig.side();
    proof {
        lemma_seeded(orig.mask, side);
    }
    let mut queue: VecDeque<(usize, usize)> = VecDeque::new();
    let mut gap = false;
    let ghost mut k: int = 0;
    assert(0 * side == 0) by (nonlinear_arith);
    for r in 0..size
        invariant
            size == side,
            side == orig.side(),
            *tile == orig,
            orig.wf(),
            k == r * side,
            queue@.len() == seed_list(orig.mask, side, k).len(),
            forall|i: int|
                0 <= i < queue@.len() ==> (#[trigger] seed_list(orig.mask, side, k)[i]) == (
                    queue@[i].0 as int,
                    queue@[i].1 as int,
                ),
            !gap ==> forall|i: int, j: int|
                0 <= i < r && 0 <= j < side ==> #[trigger] orig.mask.at(i, j),
    {
        for c in 0..size
            invariant
                r < size,
                size == side,
                side == orig.side(),
                *tile == orig,
                orig.wf(),
                k == r * side + c,
                queue@.len() == seed_list(orig.mask, side, k).len(),
                forall|i: int|
                    0 <= i < queue@.len() ==> (#[trigger] seed_list(orig.mask, side, k)[i]) == (
                        queue@[i].0 as int,
                        queue@[i].1 as int,
                    ),
                !gap ==> forall|i: int, j: int|
                    0 <= i < side && 0 <= j < side && (i < r || (i == r && j < c))
                        ==> #[trigger] orig.mask.at(i, j),
        {
            proof {
                flood::lemma_code((r as int, c as int), side);
                assert(k + 1 > 0);
                assert(flood::pixel_at(k, side) == (r as int, c as int));
                assert(0 <= r * side) by (nonlinear_arith)
                    requires
                        0 <= r,
                        0 <= side,
                ;
            }
            let ghost list0 = seed_list(orig.mask, side, k);
            let ghost q0 = queue@;
            if tile.mask.get(r, c) {
                queue.push_back((r, c));
            } else {
                gap = true;
            }
            proof {
                k = k + 1;
                let list = seed_list(orig.mask, side, k);
                assert forall|i: int| 0 <= i < queue@.len() implies (#[trigger] list[i]) == (
                    queue@[i].0 as int,
                    queue@[i].1 as int,
                ) by {
                    if i < q0.len() {
                        assert(list[i] == list0[i]);
                    }
                }
            }
        }
        proof {
            assert((r + 1) * side == r * side + side) by (nonlinear_arith);
        }
    }
    let ghost mut st = seeded(orig.mask, side);
    proof {
        assert(side * side == k);
        assert forall|i: int| 0 <= i < queue@.len() implies (#[trigger] st.queue[i]) == (
            queue@[i].0 as int,
            queue@[i].1 as int,
        ) && st.source.contains_key(st.queue[i]) by {
            assert(seed_set(orig.mask, side).contains(st.queue[i]));
        }
        assert(flooding(st, *tile, queue@, orig));
    }
    if !gap {
        proof {
            assert forall|p: Pixel| flood::in_grid(p, side) implies #[trigger] st.source.contains_key(
                p,
            ) by {
                assert(orig.mask.at(p.0, p.1));
            }
            flood::lemma_flood_full(st, side);
        }
        return;
    }
    while queue.len() > 0
        invariant
            size == side,
            side == orig.side(),
            flooding(st, *tile, queue@, orig),
            flood::flood(st, side) == flood::flood(seeded(orig.mask, side), side),
        decreases flood::not_reached(st.source, side).len(), st.queue.len(),
    {
        proof {
            flood::lemma_step_measure(st, side);
        }
        let ghost q0 = queue@;
        let ghost st0 = st;
        let front = queue.pop_front();
        match front {
            None => {},
            Some((r, c)) => {
                let ghost p: Pixel = (r as int, c as int);
                let ghost seed = st.source[p];
                let ghost s0 = Flood { queue: st.queue.drop_first(), source: st.source };
                proof {
                    assert(st.queue[0] == p);
                    assert forall|i: int| 0 <= i < queue@.len() implies (#[trigger] s0.queue[i])
                        == (queue@[i].0 as int, queue@[i].1 as int) && s0.source.contains_key(
                        s0.queue[i],
                    ) by {
                        assert(s0.queue[i] == st.queue[i + 1]);
                        assert(queue@[i] == q0[i + 1]);
                    }
                    assert(flooding(s0, *tile, queue@, orig));
                }
                let up: usize = r.wrapping_sub(1);
                let left: usize = c.wrapping_sub(1);
                let ghost s1 = flood::offer(s0, (p.0 - 1, p.1), seed, side);
                let ghost s2 = flood::offer(s1, (p.0 + 1, p.1), seed, side);
                let ghost s3 = flood::offer(s2, (p.0, p.1 - 1), seed, side);
                offer_pixel(
                    tile,
                    &mut queue,
                    r,
                    c,
                    up,
                    c,
                    Ghost(s0),
                    Ghost((p.0 - 1, p.1)),
                    Ghost(orig),
                );
                offer_pixel(
                    tile,
                    &mut queue,
                    r,
                    c,
                    r + 1,
                    c,
                    Ghost(s1),
                    Ghost((p.0 + 1, p.1)),
                    Ghost(orig),
                );
                offer_pixel(
                    tile,
                    &mut queue,
                    r,
                    c,
                    r,
                    left,
                    Ghost(s2),
                    Ghost((p.0, p.1 - 1)),
                    Ghost(orig),
                );
                offer_pixel(
                    tile,
                    &mut queue,
                    r,
                    c,
                    r,
                    c + 1,
                    Ghost(s3),
                    Ghost((p.0, p.1 + 1)),
                    Ghost(orig),
                );
                proof {
                    st = flood::flood_step(st, side);
                }
            },
        }
    }
}

/// After gap filling every pixel is valid where any was before; each pixel holds the
/// value of a nearest pixel that was valid before, and those keep their own value.
pub proof fn fill_takes_nearest(mask: MaskGrid, side: nat)
    ensures
        forall|p: Pixel| #[trigger]
            fill_source(mask, side).contains_key(p) <==> flood::in_grid(p, side) && exists|s: Pixel|
                flood::in_grid(s, side) && mask.at(s.0, s.1),
        forall|p: Pixel| #[trigger]
            fill_source(mask, side).contains_key(p) ==> {
                let s = fill_source(mask, side)[p];
                &&& flood::in_grid(s, side)
                &&& mask.at(s.0, s.1)
                &&& forall|t: Pixel|
                    flood::in_grid(t, side) && #[trigger] mask.at(t.0, t.1) ==> flood::dist(p, s) <= flood::dist(p, t)
            },
        forall|p: Pixel|
            flood::in_grid(p, side) && #[trigger] mask.at(p.0, p.1) ==> fill_source(mask, side)[p] == p,
{
    lemma_seeded(mask, side);
    flood::flood_reaches_nearest(seeded(mask, side), seed_set(mask, side), side);
    let seeds = seed_set(mask, side);
    assert forall|p: Pixel| #[trigger] fill_source(mask, side).contains_key(p) <==> flood::in_grid(p, side)
        && exists|s: Pixel| flood::in_grid(s, side) && mask.at(s.0, s.1) by {
        if exists|s: Pixel| flood::in_grid(s, side) && mask.at(s.0, s.1) {
            let s = choose|s: Pixel| flood::in_grid(s, side) && mask.at(s.0, s.1);
            assert(seeds.contains(s));
        }
        if exists|s: Pixel| seeds.contains(s) {
            let s = choose|s: Pixel| seeds.contains(s);
            assert(flood::in_grid(s, side) && mask.at(s.0, s.1));
        }
    }
    assert forall|p: Pixel| #[trigger] fill_source(mask, side).contains_key(p) implies ({
        let s = fill_source(mask, side)[p];
        &&& flood::in_grid(s, side)
        &&& mask.at(s.0, s.1)
        &&& forall|t: Pixel|
            flood::in_grid(t, side) && #[trigger] mask.at(t.0, t.1) ==> flood::dist(p, s) <= flood::dist(p, t)
    }) by {
        let s = fill_source(mask, side)[p];
        assert(flood::nearest(p, s, seeds));
        assert forall|t: Pixel| flood::in_grid(t, side) && #[trigger] mask.at(t.0, t.1) implies flood::dist(p, s)
            <= flood::dist(p, t) by {
            assert(seeds.contains(t));
        }
    }
    assert forall|p: Pixel| flood::in_grid(p, side) && #[trigger] mask.at(p.0, p.1) implies fill_source(
        mask,
        side,
    )[p] == p by {
        assert(seeds.contains(p));
    }
}

/// The valid pixels are listed row by row.
proof fn lemma_seed_order(mask: MaskGrid, side: nat, k: int)
    requires
        0 <= k <= side * side,
    ensures
        forall|i: int|
            0 <= i < seed_list(mask, side, k).len() ==> flood::code(
                #[trigger] seed_list(mask, side, k)[i],
                side,
            ) < k && flood::in_grid(seed_list(mask, side, k)[i], side),
        forall|i: int, j: int|
            0 <= i < j < seed_list(mask, side, k).len() ==> flood::not_after(
                #[trigger] seed_list(mask, side, k)[i],
                #[trigger] seed_list(mask, side, k)[j],
            ),
    decreases k,
{
    if k > 0 {
        let init = seed_list(mask, side, k - 1);
        let list = seed_list(mask, side, k);
        lemma_seed_order(mask, side, k - 1);
        flood::lemma_pixel_at(k - 1, side);
        let p = flood::pixel_at(k - 1, side);
        assert forall|i: int| 0 <= i < list.len() implies flood::code(#[trigger] list[i], side) < k
            && flood::in_grid(list[i], side) by {
            if i < init.len() {
                assert(list[i] == init[i]);
            }
        }
        assert forall|i: int, j: int| 0 <= i < j < list.len() implies flood::not_after(
            #[trigger] list[i],
            #[trigger] list[j],
        ) by {
            assert(list[i] == init[i]);
            if j < init.len() {
                assert(list[j] == init[j]);
            } else {
                let q = list[i];
                assert(flood::code(q, side) < flood::code(p, side));
                assert(q.0 <= p.0) by (nonlinear_arith)
                    requires
                        q.0 * side + q.1 < p.0 * side + p.1,
                        0 <= q.1,
                        p.1 < side,
                ;
            }
        }
    }
}

/// Of the valid pixels that are nearest to a pixel, gap filling takes the first one, row by
/// row.
proof fn lemma_fill_first(mask: MaskGrid, side: nat, p: Pixel, t: Pixel)
    requires
        fill_source(mask, side).contains_key(p),
        flood::in_grid(t, side),
        mask.at(t.0, t.1),
        flood::dist(p, t) == flood::dist(p, fill_source(mask, side)[p]),
    ensures
        flood::not_after(fill_source(mask, side)[p], t),
{
    let st = seeded(mask, side);
    let seeds = seed_set(mask, side);
    assert(0 <= side * side) by (nonlinear_arith);
    lemma_seeded(mask, side);
    lemma_seed_order(mask, side, (side * side) as int);
    flood::flood_prefers_first(st, seeds, side);
    assert(seeds.contains(t));
}

/// Gap filling gives every pixel the values of one pixel that was valid before, in all
/// bands or in the vegetation index, of those one that is nearest in rows plus columns, and
/// of several such ones the first, row by row. A pixel that was valid keeps its values. A
/// tile without valid pixels stays as it is.
pub proof fn gaps_take_nearest_values(before: SceneTile, after: SceneTile, r: int, c: int)
    requires
        before.wf(),
        gaps_filled(before, after),
        0 <= r < before.data.rows(),
        0 <= c < before.data.rows(),
    ensures
        after.data.bands() == before.data.bands(),
        after.data.rows() == before.data.rows(),
        after.data.cols() == before.data.cols(),
        after.ndvi is Some <==> before.ndvi is Some,
        after.mask.at(r, c) <==> exists|x: int, y: int|
            0 <= x < before.data.rows() && 0 <= y < before.data.rows() && #[trigger] before.mask.at(
                x,
                y,
            ),
        after.mask.at(r, c) ==> exists|x: int, y: int|
            {
                &&& 0 <= x < before.data.rows()
                &&& 0 <= y < before.data.rows()
                &&& #[trigger] before.mask.at(x, y)
                &&& forall|u: int, v: int|
                    0 <= u < before.data.rows() && 0 <= v < before.data.rows()
                        && #[trigger] before.mask.at(u, v) ==> vstd::math::abs(r - x)
                        + vstd::math::abs(c - y) <= vstd::math::abs(r - u) + vstd::math::abs(c - v)
                &&& forall|u: int, v: int|
                    0 <= u < before.data.rows() && 0 <= v < before.data.rows()
                        && #[trigger] before.mask.at(u, v) && vstd::math::abs(r - x)
                        + vstd::math::abs(c - y) == vstd::math::abs(r - u) + vstd::math::abs(c - v)
                        ==> x < u || (x == u && y <= v)
                &&& before.ndvi is None ==> forall|b: int|
                    0 <= b < before.data.bands() ==> #[trigger] after.data.at(b, r, c)
                        == before.data.at(b, x, y)
                &&& before.ndvi is Some ==> after.ndvi->0.at(r, c) == before.ndvi->0.at(x, y)
            },
        before.mask.at(r, c) || !after.mask.at(r, c) ==> {
            &&& forall|b: int|
                0 <= b < before.data.bands() ==> #[trigger] after.data.at(b, r, c)
                    == before.data.at(b, r, c)
            &&& before.ndvi is Some ==> after.ndvi->0.at(r, c) == before.ndvi->0.at(r, c)
        },
{
    let side = before.side();
    let p: Pixel = (r, c);
    fill_takes_nearest(before.mask, side);
    let src = fill_source(before.mask, side);
    assert(flood::in_grid(p, side));
    assert(after.mask.at(r, c) == src.contains_key(p));
    if exists|x: int, y: int|
        0 <= x < before.data.rows() && 0 <= y < before.data.rows() && #[trigger] before.mask.at(
            x,
            y,
        ) {
        let (x, y) = choose|x: int, y: int|
            0 <= x < before.data.rows() && 0 <= y < before.data.rows() && #[trigger] before.mask.at(
                x,
                y,
            );
        let s: Pixel = (x, y);
        assert(flood::in_grid(s, side) && before.mask.at(s.0, s.1));
    }
    if after.mask.at(r, c) {
        let s = src[p];
        assert(0 <= s.0 < before.data.rows() && 0 <= s.1 < before.data.rows() && before.mask.at(
            s.0,
            s.1,
        ));
        assert forall|u: int, v: int|
            0 <= u < before.data.rows() && 0 <= v < before.data.rows() && #[trigger] before.mask.at(
                u,
                v,
            ) implies vstd::math::abs(r - s.0) + vstd::math::abs(c - s.1) <= vstd::math::abs(r - u)
            + vstd::math::abs(c - v) by {
            let t: Pixel = (u, v);
            assert(flood::in_grid(t, side) && before.mask.at(t.0, t.1));
            assert(flood::dist(p, s) <= flood::dist(p, t));
        }
        assert forall|u: int, v: int|
            0 <= u < before.data.rows() && 0 <= v < before.data.rows() && #[trigger] before.mask.at(
                u,
                v,
            ) && vstd::math::abs(r - s.0) + vstd::math::abs(c - s.1) == vstd::math::abs(r - u)
                + vstd::math::abs(c - v) implies s.0 < u || (s.0 == u && s.1 <= v) by {
            lemma_fill_first(before.mask, side, p, (u, v));
        }
    }
    if before.mask.at(r, c) {
        assert(before.mask.at(p.0, p.1));
        assert(src[p] == p);
    }
}

} // verus!
