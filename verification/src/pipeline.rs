//! Rendering a tile: which scenes, what to read of each, and the tile they make.
use crate::composite;
use crate::composite::{apply_scl_mask, fill_gaps, SceneTile};
use crate::config::{Composite, S2Config};
use crate::index;
use crate::index::{MosaicIndex, SceneRef};
use crate::number::Real;
use crate::raster;
use crate::raster::{BandGrid, BandStack, ClassGrid};
use vstd::prelude::*;

verus! {

/// Side of a tile in pixels.
pub const TILE_SIZE: u32 = 256;

// ─── Scenes of a tile ───────────────────────────────────────────────────────

/// The scenes to read for a tile: the best ones, at most as many as the settings say, at
/// every zoom level.
pub fn tile_scenes<'a>(
    index: &'a MosaicIndex,
    config: &S2Config,
    z: u8,
    x: u32,
    y: u32,
    tile_wgs84: [Real; 4],
) -> (r: Vec<&'a SceneRef>)
    requires
        index.wf(),
        index.tile_addressable(z, x, y),
    ensures
        index::best_scenes(
            *index,
            index.tile_candidates(z, x, y, tile_wgs84),
            config.max_scenes_per_tile as nat,
            r@,
        ),
        r@.len() <= config.max_scenes_per_tile,
{
    index.scenes_for_tile(z, x, y, config.max_scenes_per_tile, tile_wgs84)
}

// ─── Reading a scene ────────────────────────────────────────────────────────

/// Whether the class layer of a scene is read.
#[derive(Debug)]
pub enum ClassRead {
    /// Classes are not used.
    Unused,
    /// They are used, and the scene names none.
    Missing,
    /// They are read from a URL.
    From(String),
}

/// What is read of a scene: the URL of each band, where it has one, and the class layer.
#[derive(Debug)]
pub struct SceneReads {
    pub bands: Vec<Option<String>>,
    pub classes: ClassRead,
}

/// What is read of a scene. The class layer is left out where classes are not used.
pub fn scene_reads(scene: &SceneRef, bands: &Vec<String>, scl_masking: bool) -> (r: SceneReads)
    ensures
        r.bands@.len() == bands@.len(),
        forall|i: int|
            0 <= i < bands@.len() ==> match #[trigger] r.bands@[i] {
                Some(url) => scene.band_urls@.contains_key(bands@[i]@)
                    && scene.band_urls@[bands@[i]@] == url,
                None => !scene.band_urls@.contains_key(bands@[i]@),
            },
        !scl_masking ==> r.classes is Unused,
        scl_masking && scene.scl_url is None ==> r.classes is Missing,
        scl_masking && scene.scl_url is Some ==> r.classes == ClassRead::From(scene.scl_url->0),
{
    let mut urls: Vec<Option<String>> = Vec::new();
    for i in 0..bands.len()
        invariant
            urls@.len() == i,
            forall|j: int|
                0 <= j < i ==> match #[trigger] urls@[j] {
                    Some(url) => scene.band_urls@.contains_key(bands@[j]@)
                        && scene.band_urls@[bands@[j]@] == url,
                    None => !scene.band_urls@.contains_key(bands@[j]@),
                },
    {
        let url: Option<String> = match scene.band_urls.get(bands[i].as_str()) {
            Some(u) => Some(u.clone()),
            None => None,
        };
        urls.push(url);
    }
    let classes = if !scl_masking {
        ClassRead::Unused
    } else {
        match &scene.scl_url {
            Some(u) => ClassRead::From(u.clone()),
            None => ClassRead::Missing,
        }
    };
    SceneReads { bands: urls, classes }
}

/// The results of reads, if every one succeeded.
pub fn all_read<T>(results: Vec<Option<T>>) -> (r: Option<Vec<T>>)
    ensures
        match r {
            Some(all) => {
                &&& all@.len() == results@.len()
                &&& forall|i: int|
                    0 <= i < results@.len() ==> #[trigger] results@[i] == Some(all@[i])
            },
            None => exists|i: int| 0 <= i < results@.len() && (#[trigger] results@[i]) is None,
        },
{
    let ghost given = results@;
    let mut all: Vec<T> = Vec::new();
    for result in it: results
        invariant
            it.seq() == given,
            all@.len() == it.index(),
            forall|i: int| 0 <= i < it.index() ==> #[trigger] given[i] == Some(all@[i]),
            given == results@,
    {
        match result {
            Some(v) => all.push(v),
            None => {
                assert(given[it.index() as int] is None);
                return None;
            },
        }
    }
    Some(all)
}

/// What came of reading the class layer of a scene.
#[derive(Debug)]
pub enum ClassResult<C> {
    /// Classes are not used.
    Unused,
    /// They could not be read.
    Failed,
    Read(C),
}

/// What was read of a scene: every band, and the class layer where it is used. A scene of
/// which a band or the class layer could not be read is not used at all.
pub fn loaded_scene<B, C>(bands: Vec<Option<B>>, classes: ClassResult<C>) -> (r: Option<
    (Vec<B>, Option<C>),
>)
    ensures
        r is None <==> classes is Failed || exists|i: int|
            0 <= i < bands@.len() && (#[trigger] bands@[i]) is None,
        r matches Some((all, layer)) ==> {
            &&& all@.len() == bands@.len()
            &&& forall|i: int| 0 <= i < bands@.len() ==> #[trigger] bands@[i] == Some(all@[i])
            &&& layer == match classes {
                ClassResult::Read(c) => Some(c),
                _ => None,
            }
        },
{
    let layer: Option<C> = match classes {
        ClassResult::Failed => {
            return None;
        },
        ClassResult::Unused => None,
        ClassResult::Read(c) => Some(c),
    };
    match all_read(bands) {
        Some(all) => Some((all, layer)),
        None => None,
    }
}

// ─── Assembling a scene ─────────────────────────────────────────────────────

/// A raster is a square of a side.
pub open spec fn band_square(g: BandGrid, side: nat) -> bool {
    g.rows() == side && g.cols() == side
}

/// The stack holds these bands.
pub open spec fn stacked(bands: Seq<BandGrid>, side: nat, data: BandStack) -> bool {
    &&& data.bands() == bands.len()
    &&& data.rows() == side
    &&& data.cols() == side
    &&& forall|b: int, r: int, c: int|
        0 <= b < bands.len() && 0 <= r < side && 0 <= c < side ==> #[trigger] data.at(b, r, c)
            == bands[b].at(r, c)
}

/// Stack square bands of one side.
pub fn stack_bands(bands: &Vec<BandGrid>, side: usize) -> (data: BandStack)
    requires
        raster::fits3(bands@.len(), side as nat, side as nat, 2),
        forall|b: int| 0 <= b < bands@.len() ==> band_square(#[trigger] bands@[b], side as nat),
    ensures
        stacked(bands@, side as nat, data),
{
    let mut data = BandStack::filled(bands.len(), side, side, 0);
    for b in 0..bands.len()
        invariant
            data.bands() == bands@.len(),
            data.rows() == side,
            data.cols() == side,
            forall|i: int| 0 <= i < bands@.len() ==> band_square(#[trigger] bands@[i], side as nat),
            forall|i: int, r: int, c: int|
                0 <= i < b && 0 <= r < side && 0 <= c < side ==> #[trigger] data.at(i, r, c)
                    == bands@[i].at(r, c),
    {
        for row in 0..side
            invariant
                b < bands@.len(),
                data.bands() == bands@.len(),
                data.rows() == side,
                data.cols() == side,
                forall|i: int| 0 <= i < bands@.len() ==> band_square(#[trigger] bands@[i], side as nat),
                forall|i: int, r: int, c: int|
                    ((0 <= i < b && 0 <= r < side) || (i == b && 0 <= r < row)) && 0 <= c < side
                        ==> #[trigger] data.at(i, r, c) == bands@[i].at(r, c),
        {
            for col in 0..side
                invariant
                    b < bands@.len(),
                    row < side,
                    data.bands() == bands@.len(),
                    data.rows() == side,
                    data.cols() == side,
                    forall|i: int|
                        0 <= i < bands@.len() ==> band_square(#[trigger] bands@[i], side as nat),
                    forall|i: int, r: int, c: int|
                        (((0 <= i < b && 0 <= r < side) || (i == b && 0 <= r < row)) && 0 <= c < side)
                            || (i == b && r == row && 0 <= c < col) ==> #[trigger] data.at(i, r, c)
                            == bands@[i].at(r, c),
            {
                assert(band_square(bands@[b as int], side as nat));
                let v: u16 = bands[b].get(row, col);
                data.set(b, row, col, v);
            }
        }
    }
    data
}

/// A pixel of the tile is valid.
pub open spec fn any_valid(t: SceneTile) -> bool {
    exists|r: int, c: int|
        0 <= r < t.mask.rows() && 0 <= c < t.mask.cols() && #[trigger] t.mask.at(r, c)
}

/// A pixel of the tile is valid.
fn has_valid_pixel(t: &SceneTile) -> (r: bool)
    ensures
        r == any_valid(*t),
{
    let (h, w): (usize, usize) = t.mask.dim();
    for row in 0..h
        invariant
            h == t.mask.rows(),
            w == t.mask.cols(),
            forall|r: int, c: int| 0 <= r < row && 0 <= c < w ==> !(#[trigger] t.mask.at(r, c)),
    {
        for col in 0..w
            invariant
                row < h,
                h == t.mask.rows(),
                w == t.mask.cols(),
                forall|r: int, c: int|
                    (0 <= r < row && 0 <= c < w) || (r == row && 0 <= c < col)
                        ==> !(#[trigger] t.mask.at(r, c)),
        {
            if t.mask.get(row, col) {
                return true;
            }
        }
    }
    false
}

/// The scene tile that warped bands and classes make.
pub open spec fn scene_tile_of(
    bands: Seq<BandGrid>,
    classes: Option<ClassGrid>,
    haze_dn_max: u16,
    side: nat,
    t: SceneTile,
) -> bool {
    &&& stacked(bands, side, t.data)
    &&& t.ndvi is None
    &&& t.mask.rows() == side
    &&& t.mask.cols() == side
    &&& forall|r: int, c: int|
        0 <= r < side && 0 <= c < side ==> #[trigger] t.mask.at(r, c) == composite::pixel_valid(
            t.data,
            classes,
            haze_dn_max,
            r,
            c,
        )
}

/// The pixel of a scene would be valid, by its bands and classes.
pub open spec fn pixel_clear(
    bands: Seq<BandGrid>,
    classes: Option<ClassGrid>,
    haze_dn_max: u16,
    r: int,
    c: int,
) -> bool {
    &&& forall|b: int| 0 <= b < bands.len() ==> (#[trigger] bands[b]).at(r, c) != 0
    &&& match classes {
        Some(k) => composite::clear_class(k.at(r, c)) && !(haze_dn_max > 0 && forall|b: int|
            0 <= b < bands.len() ==> (#[trigger] bands[b]).at(r, c) > haze_dn_max),
        None => true,
    }
}

/// The tile of one scene from its warped bands and, where they are used, classes. There is
/// none without bands, or where no pixel is valid.
pub fn assemble_scene(
    bands: &Vec<BandGrid>,
    classes: Option<ClassGrid>,
    haze_dn_max: u16,
    side: usize,
) -> (r: Option<SceneTile>)
    requires
        raster::fits3(bands@.len(), side as nat, side as nat, 2),
        forall|b: int| 0 <= b < bands@.len() ==> band_square(#[trigger] bands@[b], side as nat),
        classes matches Some(k) ==> k.rows() == side && k.cols() == side,
    ensures
        match r {
            Some(t) => {
                &&& bands@.len() > 0
                &&& scene_tile_of(bands@, classes, haze_dn_max, side as nat, t)
                &&& any_valid(t)
            },
            None => bands@.len() == 0 || forall|r: int, c: int|
                0 <= r < side && 0 <= c < side ==> !(#[trigger] pixel_clear(
                    bands@,
                    classes,
                    haze_dn_max,
                    r,
                    c,
                )),
        },
{
    if bands.len() == 0 {
        return None;
    }
    let data = stack_bands(bands, side);
    let t = match &classes {
        Some(k) => apply_scl_mask(data, Some(k), haze_dn_max),
        None => apply_scl_mask(data, None, haze_dn_max),
    };
    assert(scene_tile_of(bands@, classes, haze_dn_max, side as nat, t));
    if has_valid_pixel(&t) {
        Some(t)
    } else {
        proof {
            assert forall|r: int, c: int| 0 <= r < side && 0 <= c < side implies !(
            #[trigger] pixel_clear(bands@, classes, haze_dn_max, r, c)) by {
                lemma_valid_is_clear(bands@, classes, haze_dn_max, side as nat, t, r, c);
                assert(!t.mask.at(r, c));
            }
        }
        None
    }
}

/// A pixel of a scene tile is valid exactly when bands and classes say so.
proof fn lemma_valid_is_clear(
    bands: Seq<BandGrid>,
    classes: Option<ClassGrid>,
    haze_dn_max: u16,
    side: nat,
    t: SceneTile,
    r: int,
    c: int,
)
    requires
        scene_tile_of(bands, classes, haze_dn_max, side, t),
        0 <= r < side,
        0 <= c < side,
    ensures
        t.mask.at(r, c) == pixel_clear(bands, classes, haze_dn_max, r, c),
{
    assert(composite::has_data(t.data, r, c) <==> forall|b: int|
        0 <= b < bands.len() ==> (#[trigger] bands[b]).at(r, c) != 0) by {
        if composite::has_data(t.data, r, c) {
            assert forall|b: int| 0 <= b < bands.len() implies (#[trigger] bands[b]).at(r, c) != 0 by {
                assert(t.data.at(b, r, c) == bands[b].at(r, c));
            }
        }
        if forall|b: int| 0 <= b < bands.len() ==> (#[trigger] bands[b]).at(r, c) != 0 {
            assert forall|b: int| 0 <= b < t.data.bands() implies #[trigger] t.data.at(b, r, c) != 0 by {
                assert(bands[b].at(r, c) != 0);
            }
        }
    }
    assert(composite::all_above(t.data, r, c, haze_dn_max) <==> forall|b: int|
        0 <= b < bands.len() ==> (#[trigger] bands[b]).at(r, c) > haze_dn_max) by {
        if composite::all_above(t.data, r, c, haze_dn_max) {
            assert forall|b: int| 0 <= b < bands.len() implies (#[trigger] bands[b]).at(r, c)
                > haze_dn_max by {
                assert(t.data.at(b, r, c) == bands[b].at(r, c));
            }
        }
        if forall|b: int| 0 <= b < bands.len() ==> (#[trigger] bands[b]).at(r, c) > haze_dn_max {
            assert forall|b: int| 0 <= b < t.data.bands() implies #[trigger] t.data.at(b, r, c)
                > haze_dn_max by {
                assert(bands[b].at(r, c) > haze_dn_max);
            }
        }
    }
}

/// What an assembled scene holds. Each band of the stack is the band given at its place. A
/// pixel is valid when no band is 0 there and, with classes, its class is one of the four
/// clear ones and, with a haze threshold, some band does not exceed it.
pub proof fn scene_pixels(
    bands: Seq<BandGrid>,
    classes: Option<ClassGrid>,
    haze_dn_max: u16,
    side: nat,
    t: SceneTile,
    r: int,
    c: int,
)
    requires
        scene_tile_of(bands, classes, haze_dn_max, side, t),
        0 <= r < side,
        0 <= c < side,
    ensures
        t.data.bands() == bands.len(),
        t.data.rows() == side,
        t.data.cols() == side,
        t.mask.rows() == side,
        t.mask.cols() == side,
        t.ndvi is None,
        forall|b: int|
            0 <= b < bands.len() ==> #[trigger] t.data.at(b, r, c) == bands[b].at(r, c),
        t.mask.at(r, c) == pixel_clear(bands, classes, haze_dn_max, r, c),
        t.mask.at(r, c) <==> {
            &&& forall|b: int| 0 <= b < bands.len() ==> (#[trigger] bands[b]).at(r, c) > 0
            &&& classes matches Some(k) ==> {
                &&& k.at(r, c) == 4 || k.at(r, c) == 5 || k.at(r, c) == 6 || k.at(r, c) == 7
                &&& haze_dn_max == 0 || exists|b: int|
                    0 <= b < bands.len() && (#[trigger] bands[b]).at(r, c) <= haze_dn_max
            }
        },
{
    lemma_valid_is_clear(bands, classes, haze_dn_max, side, t, r, c);
    let bright = forall|b: int|
        0 <= b < bands.len() ==> (#[trigger] bands[b]).at(r, c) > haze_dn_max;
    let some_dark = exists|b: int|
        0 <= b < bands.len() && (#[trigger] bands[b]).at(r, c) <= haze_dn_max;
    assert(bright <==> !some_dark);
    let full = forall|b: int| 0 <= b < bands.len() ==> (#[trigger] bands[b]).at(r, c) != 0;
    let data = forall|b: int| 0 <= b < bands.len() ==> (#[trigger] bands[b]).at(r, c) > 0;
    assert(full <==> data);
}

/// A tile has a valid pixel exactly when its mask is set somewhere.
pub proof fn valid_pixel_is_masked_in(t: SceneTile, r: int, c: int)
    requires
        0 <= r < t.mask.rows(),
        0 <= c < t.mask.cols(),
    ensures
        t.mask.at(r, c) ==> any_valid(t),
        any_valid(t) ==> exists|x: int, y: int|
            0 <= x < t.mask.rows() && 0 <= y < t.mask.cols() && #[trigger] t.mask.at(x, y),
{
}

// ─── Composing a tile ───────────────────────────────────────────────────────

/// The scene tiles that there are, in order.
pub open spec fn present(scenes: Seq<Option<SceneTile>>) -> Seq<SceneTile>
    decreases scenes.len(),
{
    if scenes.len() == 0 {
        Seq::empty()
    } else {
        let before = present(scenes.drop_last());
        match scenes.last() {
            Some(t) => before.push(t),
            None => before,
        }
    }
}

/// The scene tiles that a tile is composited from: the first of those that there are, at
/// most `max`.
pub open spec fn chosen(scenes: Seq<Option<SceneTile>>, max: nat) -> Seq<SceneTile> {
    let all = present(scenes);
    if all.len() <= max {
        all
    } else {
        all.take(max as int)
    }
}

/// A tile is composited from at most so many scenes; where there are no more, from all
/// that have a pixel for it.
pub proof fn composited_scenes_are_bounded(scenes: Seq<Option<SceneTile>>, max: nat)
    ensures
        chosen(scenes, max).len() <= max,
        chosen(scenes, max).len() <= scenes.len(),
        scenes.len() <= max ==> chosen(scenes, max) == present(scenes),
{
    lemma_present_len(scenes);
}

/// The scenes that a tile is composited from are taken from the front, in order: `at` gives
/// the place of each. A scene with a pixel for the tile is left out only where as many as
/// allowed come before it.
pub proof fn chosen_from_the_front(scenes: Seq<Option<SceneTile>>, max: nat) -> (at: Seq<int>)
    ensures
        at.len() == chosen(scenes, max).len(),
        at.len() <= max,
        forall|a: int, b: int| 0 <= a < b < at.len() ==> #[trigger] at[a] < #[trigger] at[b],
        forall|k: int|
            0 <= k < at.len() ==> 0 <= #[trigger] at[k] < scenes.len() && scenes[at[k]] == Some(
                chosen(scenes, max)[k],
            ),
        forall|i: int|
            0 <= i < scenes.len() && (#[trigger] scenes[i]) is Some && !at.contains(i) ==> {
                &&& at.len() == max
                &&& forall|k: int| 0 <= k < at.len() ==> #[trigger] at[k] < i
            },
{
    let all = lemma_present_places(scenes);
    if all.len() <= max {
        all
    } else {
        let at = all.take(max as int);
        assert forall|i: int|
            0 <= i < scenes.len() && (#[trigger] scenes[i]) is Some && !at.contains(i) implies {
            &&& at.len() == max
            &&& forall|k: int| 0 <= k < at.len() ==> #[trigger] at[k] < i
        } by {
            let j = choose|j: int| 0 <= j < all.len() && all[j] == i;
            if j < max {
                assert(at[j] == i);
            }
            assert forall|k: int| 0 <= k < at.len() implies #[trigger] at[k] < i by {
                assert(all[k] < all[j]);
            }
        }
        at
    }
}

/// Where the scenes stand that there are.
proof fn lemma_present_places(scenes: Seq<Option<SceneTile>>) -> (at: Seq<int>)
    ensures
        at.len() == present(scenes).len(),
        forall|a: int, b: int| 0 <= a < b < at.len() ==> #[trigger] at[a] < #[trigger] at[b],
        forall|k: int|
            0 <= k < at.len() ==> 0 <= #[trigger] at[k] < scenes.len() && scenes[at[k]] == Some(
                present(scenes)[k],
            ),
        forall|i: int| 0 <= i < scenes.len() && (#[trigger] scenes[i]) is Some ==> at.contains(i),
    decreases scenes.len(),
{
    if scenes.len() == 0 {
        Seq::empty()
    } else {
        let less = scenes.drop_last();
        let before = lemma_present_places(less);
        let last = scenes.len() - 1;
        assert(forall|k: int| 0 <= k < before.len() ==> scenes[#[trigger] before[k]] == less[before[k]]);
        if scenes[last] is Some {
            let at = before.push(last);
            assert forall|i: int| 0 <= i < scenes.len() && (
            #[trigger] scenes[i]) is Some implies at.contains(i) by {
                if i < last {
                    assert(less[i] is Some);
                    let k = choose|k: int| 0 <= k < before.len() && before[k] == i;
                    assert(at[k] == i);
                } else {
                    assert(at[before.len() as int] == i);
                }
            }
            at
        } else {
            assert forall|i: int| 0 <= i < scenes.len() && (
            #[trigger] scenes[i]) is Some implies before.contains(i) by {
                assert(less[i] is Some);
            }
            before
        }
    }
}

proof fn lemma_present_len(scenes: Seq<Option<SceneTile>>)
    ensures
        present(scenes).len() <= scenes.len(),
    decreases scenes.len(),
{
    if scenes.len() > 0 {
        lemma_present_len(scenes.drop_last());
    }
}

/// A scene tile has these bands and this side.
pub open spec fn tile_shape(t: SceneTile, bands: nat, side: nat) -> bool {
    t.wf() && t.n_bands() == bands && t.side() == side
}

/// The tile that its scenes make, in order of preference: the composite of the first
/// `max_scenes` that have a pixel for it, with the gaps filled. There is none without
/// such scenes.
pub fn compose_tile(
    scenes: Vec<Option<SceneTile>>,
    strategy: &Composite,
    n_bands: usize,
    side: usize,
    max_scenes: usize,
) -> (r: Option<SceneTile>)
    requires
        forall|i: int|
            0 <= i < scenes@.len() && (#[trigger] scenes@[i]) is Some ==> tile_shape(
                scenes@[i]->0,
                n_bands as nat,
                side as nat,
            ),
        *strategy is Ndvi ==> n_bands >= 2 && raster::fits2(side as nat, side as nat, 8),
    ensures
        r is None <==> chosen(scenes@, max_scenes as nat).len() == 0,
        r matches Some(t) ==> exists|merged: SceneTile|
            #[trigger] composite::composite_of(
                chosen(scenes@, max_scenes as nat),
                *strategy,
                n_bands as nat,
                merged,
            ) && composite::gaps_filled(merged, t),
{
    let ghost given = scenes@;
    let ghost max = max_scenes as nat;
    let mut list: Vec<SceneTile> = Vec::new();
    assert(given.take(0) =~= Seq::empty());
    for scene in it: scenes
        invariant
            it.seq() == given,
            max == max_scenes,
            list@ == chosen(given.take(it.index() as int), max),
            forall|i: int|
                0 <= i < given.len() && (#[trigger] given[i]) is Some ==> tile_shape(
                    given[i]->0,
                    n_bands as nat,
                    side as nat,
                ),
            forall|i: int|
                0 <= i < list@.len() ==> tile_shape(#[trigger] list@[i], n_bands as nat, side as nat),
    {
        let ghost i = it.index() as int;
        let ghost before = present(given.take(i));
        let ghost listed = list@;
        proof {
            assert(given.take(i + 1).drop_last() =~= given.take(i));
            assert(given.take(i + 1).last() == given[i]);
        }
        if let Some(t) = scene {
            let ghost next = t;
            if list.len() < max_scenes {
                list.push(t);
            }
            proof {
                assert(present(given.take(i + 1)) == before.push(next));
                if listed.len() < max {
                    assert(listed == before);
                } else {
                    assert(before.push(next).take(max as int) =~= before.take(max as int));
                    assert(before.take(before.len() as int) =~= before);
                }
            }
        }
    }
    assert(given.take(given.len() as int) =~= given);
    if list.len() == 0 {
        return None;
    }
    let mut tile = composite::composite(list, strategy, n_bands);
    let ghost merged = tile;
    fill_gaps(&mut tile);
    assert(composite::composite_of(chosen(given, max), *strategy, n_bands as nat, merged));
    Some(tile)
}

/// A composed tile has no gaps where a pixel of the composite was valid.
pub proof fn composed_tile_is_whole(merged: SceneTile, t: SceneTile, r: int, c: int)
    requires
        merged.wf(),
        composite::gaps_filled(merged, t),
        any_valid(merged),
        0 <= r < t.side(),
        0 <= c < t.side(),
    ensures
        t.mask.at(r, c),
{
    composite::fill_takes_nearest(merged.mask, merged.side());
    let (a, b) = choose|a: int, b: int|
        0 <= a < merged.mask.rows() && 0 <= b < merged.mask.cols() && #[trigger] merged.mask.at(a, b);
    let s: crate::flood::Pixel = (a, b);
    assert(crate::flood::in_grid(s, merged.side()) && merged.mask.at(s.0, s.1));
    assert(composite::fill_source(merged.mask, merged.side()).contains_key((r, c)));
}

/// The valid pixels of a tile have data in every band.
pub open spec fn valid_have_data(t: SceneTile) -> bool {
    forall|r: int, c: int|
        0 <= r < t.mask.rows() && 0 <= c < t.mask.cols() && #[trigger] t.mask.at(r, c)
            ==> composite::has_data(t.data, r, c)
}

/// The valid pixels of an assembled scene have data in every band.
pub proof fn assembled_pixels_have_data(
    bands: Seq<BandGrid>,
    classes: Option<ClassGrid>,
    haze_dn_max: u16,
    side: nat,
    t: SceneTile,
)
    requires
        scene_tile_of(bands, classes, haze_dn_max, side, t),
    ensures
        valid_have_data(t),
{
}

/// A tile that any scene has a valid pixel for has no gaps: one of spectral bands
/// whatever the scenes, one of the vegetation index where the valid pixels of the scenes
/// have data in NIR and Red, as those of assembled scenes do.
pub proof fn tile_of_usable_scenes_is_whole(
    scenes: Seq<SceneTile>,
    strategy: Composite,
    n_bands: nat,
    merged: SceneTile,
    t: SceneTile,
    i: int,
    r: int,
    c: int,
)
    requires
        composite::composite_of(scenes, strategy, n_bands, merged),
        composite::gaps_filled(merged, t),
        strategy is Ndvi ==> forall|j: int|
            0 <= j < scenes.len() ==> (#[trigger] scenes[j]).covers(2, scenes[0].side())
                && valid_have_data(scenes[j]),
        0 <= i < scenes.len(),
        scenes[i].mask.rows() == scenes[0].side(),
        scenes[i].mask.cols() == scenes[0].side(),
        any_valid(scenes[i]),
        0 <= r < t.side(),
        0 <= c < t.side(),
    ensures
        t.mask.at(r, c),
{
    let (a, b) = choose|a: int, b: int|
        0 <= a < scenes[i].mask.rows() && 0 <= b < scenes[i].mask.cols()
            && #[trigger] scenes[i].mask.at(a, b);
    composite::lemma_first_valid(scenes, a, b);
    if strategy is Ndvi {
        let k = composite::first_valid(scenes, a, b)->0;
        assert(scenes[k].mask.at(a, b));
        assert(composite::has_data(scenes[k].data, a, b));
        assert(scenes[k].data.at(0, a, b) != 0);
    }
    assert(merged.mask.at(a, b));
    composed_tile_is_whole(merged, t, r, c);
}

} // verus!
