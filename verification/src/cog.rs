//! Reading windows of tiled GeoTIFFs: overview choice, geo-transform, the tiles to
//! fetch, and the assembly of their pixels.
use crate::geo::Affine;
use crate::number::Real;
use crate::raster;
use crate::raster::{can_hold, BandGrid, ClassGrid};
use vstd::arithmetic::div_mod::*;
use vstd::prelude::*;

verus! {

// ─── Images ─────────────────────────────────────────────────────────────────

/// The tags of an image of a file, the full image or an overview, that reading uses.
#[derive(Debug)]
pub struct ImageTags {
    pub width: u32,
    pub height: u32,
    pub tile_width: Option<u32>,
    pub tile_height: Option<u32>,
    /// Tiles across and down.
    pub tile_count: Option<(usize, usize)>,
    /// Pixel width and height.
    pub pixel_scale: Option<[Real; 2]>,
    /// West and north edge of the image.
    pub origin: Option<[Real; 2]>,
}

/// What is missing in a file.
#[derive(Debug, Clone, Copy, PartialEq, Eq, Structural)]
pub enum CogError {
    NoImages,
    NoPixelScale,
    NoTiepoint,
    NoTileWidth,
    NoTileHeight,
    NoTileCount,
    InvalidUrl,
}

impl CogError {
    /// The message to report.
    pub open spec fn text(self) -> Seq<char> {
        match self {
            CogError::NoImages => "TIFF has no IFDs"@,
            CogError::NoPixelScale => "IFD missing ModelPixelScale"@,
            CogError::NoTiepoint => "IFD missing ModelTiepoint"@,
            CogError::NoTileWidth => "COG not tiled (missing TileWidth)"@,
            CogError::NoTileHeight => "COG not tiled (missing TileHeight)"@,
            CogError::NoTileCount => "COG missing tile count"@,
            CogError::InvalidUrl => "invalid COG URL"@,
        }
    }

    /// The message to report.
    pub fn message(&self) -> (m: &'static str)
        ensures
            m@ == self.text(),
    {
        match self {
            CogError::NoImages => "TIFF has no IFDs",
            CogError::NoPixelScale => "IFD missing ModelPixelScale",
            CogError::NoTiepoint => "IFD missing ModelTiepoint",
            CogError::NoTileWidth => "COG not tiled (missing TileWidth)",
            CogError::NoTileHeight => "COG not tiled (missing TileHeight)",
            CogError::NoTileCount => "COG missing tile count",
            CogError::InvalidUrl => "invalid COG URL",
        }
    }
}

/// Pixel width of an image.
pub fn ifd_pixel_size(tags: &ImageTags) -> (r: Result<Real, CogError>)
    ensures
        match tags.pixel_scale {
            Some(scale) => r is Ok && r->Ok_0.bits == scale[0].magnitude(),
            None => r == Err::<Real, CogError>(CogError::NoPixelScale),
        },
        tags.pixel_scale matches Some(scale) ==> r->Ok_0.bits == scale[0].bits
            % 0x8000_0000_0000_0000,
{
    match &tags.pixel_scale {
        Some(scale) => Ok(scale[0].abs()),
        None => Err(CogError::NoPixelScale),
    }
}

/// The geo-transform with an origin and the size of an image's own pixels.
pub open spec fn placed(origin: [Real; 2], scale: [Real; 2]) -> Affine {
    Affine {
        origin_x: origin[0],
        origin_y: origin[1],
        pixel_width: Real { bits: scale[0].magnitude() as u64 },
        pixel_height: Real { bits: scale[1].magnitude() as u64 },
    }
}

/// The geo-transform that an image gives itself.
pub open spec fn own_affine(tags: ImageTags) -> Affine {
    placed(tags.origin->0, tags.pixel_scale->0)
}

/// The geo-transform that an image gives itself.
pub fn ifd_to_affine(tags: &ImageTags) -> (r: Result<Affine, CogError>)
    ensures
        tags.pixel_scale is None ==> r == Err::<Affine, CogError>(CogError::NoPixelScale),
        tags.pixel_scale is Some && tags.origin is None ==> r == Err::<Affine, CogError>(
            CogError::NoTiepoint,
        ),
        tags.pixel_scale is Some && tags.origin is Some ==> r == Ok::<Affine, CogError>(
            own_affine(*tags),
        ),
{
    match (&tags.pixel_scale, &tags.origin) {
        (None, _) => Err(CogError::NoPixelScale),
        (_, None) => Err(CogError::NoTiepoint),
        (Some(scale), Some(origin)) => Ok(
            Affine {
                origin_x: origin[0],
                origin_y: origin[1],
                pixel_width: scale[0].abs(),
                pixel_height: scale[1].abs(),
            },
        ),
    }
}

/// How the geo-transform of an image is obtained.
#[derive(Debug, Clone, Copy, PartialEq, Eq, Structural)]
pub enum AffinePlan {
    /// As it stands.
    Own(Affine),
    /// With the full image's pixels, enlarged by `full_width / width`; not enlarged where
    /// `width` is 0.
    Scaled { full: Affine, full_width: u32, width: u32 },
}

/// How the geo-transform of an image is obtained: the origin from its own tags or else
/// from the full image, the first of all; the size of its pixels from its own tags or
/// else from the full image by the ratio of the widths.
pub open spec fn affine_plan(tags: ImageTags, all: Seq<ImageTags>) -> Result<AffinePlan, CogError> {
    match (tags.pixel_scale, tags.origin) {
        (Some(scale), Some(origin)) => Ok(AffinePlan::Own(placed(origin, scale))),
        (Some(scale), None) => if all.len() == 0 {
            Err(CogError::NoImages)
        } else {
            match all[0].origin {
                Some(origin) => Ok(AffinePlan::Own(placed(origin, scale))),
                None => Err(CogError::NoTiepoint),
            }
        },
        (None, own_origin) => if all.len() == 0 {
            Err(CogError::NoImages)
        } else {
            match (all[0].pixel_scale, own_origin, all[0].origin) {
                (None, _, _) => Err(CogError::NoPixelScale),
                (Some(_), None, None) => Err(CogError::NoTiepoint),
                (Some(scale), Some(origin), _) | (Some(scale), None, Some(origin)) => Ok(
                    AffinePlan::Scaled {
                        full: placed(origin, scale),
                        full_width: all[0].width,
                        width: tags.width,
                    },
                ),
            }
        },
    }
}

/// The geo-transform of a plan, before it is enlarged.
pub open spec fn planned(plan: AffinePlan) -> Affine {
    match plan {
        AffinePlan::Own(a) => a,
        AffinePlan::Scaled { full, .. } => full,
    }
}

/// Where a geo-transform comes from. There is one exactly when the image and the full image
/// between them give an origin and a pixel size. The origin is the image's own
/// where it gives one, and so is the pixel size, width from width and height from height,
/// without signs; a pixel size of the full image is to be enlarged by the ratio of the
/// widths.
pub proof fn affine_sources(tags: ImageTags, all: Seq<ImageTags>)
    requires
        all.len() > 0,
    ensures
        affine_plan(tags, all) is Ok <==> (tags.origin is Some || all[0].origin is Some) && (
        tags.pixel_scale is Some || all[0].pixel_scale is Some),
        affine_plan(tags, all) matches Ok(plan) ==> {
            let origin = if tags.origin is Some {
                tags.origin->0
            } else {
                all[0].origin->0
            };
            let scale = if tags.pixel_scale is Some {
                tags.pixel_scale->0
            } else {
                all[0].pixel_scale->0
            };
            &&& planned(plan).origin_x == origin[0]
            &&& planned(plan).origin_y == origin[1]
            &&& planned(plan).pixel_width.bits == scale[0].bits % 0x8000_0000_0000_0000
            &&& planned(plan).pixel_height.bits == scale[1].bits % 0x8000_0000_0000_0000
            &&& plan is Own <==> tags.pixel_scale is Some
            &&& plan matches AffinePlan::Scaled { full_width, width, .. } ==> full_width
                == all[0].width && width == tags.width
        },
        tags.pixel_scale is None && all[0].pixel_scale is None ==> affine_plan(tags, all) == Err::<
            AffinePlan,
            CogError,
        >(CogError::NoPixelScale),
        (tags.pixel_scale is Some || all[0].pixel_scale is Some) && tags.origin is None
            && all[0].origin is None ==> affine_plan(tags, all) == Err::<AffinePlan, CogError>(
            CogError::NoTiepoint,
        ),
        tags.origin is Some && tags.pixel_scale is Some ==> affine_plan(tags, all) == Ok::<
            AffinePlan,
            CogError,
        >(AffinePlan::Own(own_affine(tags))),
{
}

/// Without any image to fall back on, an image must give both origin and pixel size itself.
pub proof fn affine_without_images(tags: ImageTags)
    ensures
        tags.origin is Some && tags.pixel_scale is Some ==> affine_plan(tags, Seq::empty()) == Ok::<
            AffinePlan,
            CogError,
        >(AffinePlan::Own(own_affine(tags))),
        tags.origin is None || tags.pixel_scale is None ==> affine_plan(tags, Seq::empty()) == Err::<
            AffinePlan,
            CogError,
        >(CogError::NoImages),
{
}

/// The geo-transform that an image gives itself has its origin and the size of its pixels,
/// without signs.
pub proof fn own_affine_of_tags(tags: ImageTags)
    requires
        tags.origin is Some,
        tags.pixel_scale is Some,
    ensures
        own_affine(tags).origin_x == (tags.origin->0)[0],
        own_affine(tags).origin_y == (tags.origin->0)[1],
        own_affine(tags).pixel_width.bits == (tags.pixel_scale->0)[0].bits % 0x8000_0000_0000_0000,
        own_affine(tags).pixel_height.bits == (tags.pixel_scale->0)[1].bits % 0x8000_0000_0000_0000,
{
}

/// How the geo-transform of an image is obtained. An overview that gives no origin has
/// that of the full image; one that gives no pixel size has the full image's, enlarged
/// by the ratio of the widths.
pub fn ifd_to_affine_with_fallback(tags: &ImageTags, all: &Vec<ImageTags>) -> (r: Result<
    AffinePlan,
    CogError,
>)
    ensures
        r == affine_plan(*tags, all@),
{
    if tags.pixel_scale.is_some() && tags.origin.is_some() {
        return match ifd_to_affine(tags) {
            Ok(affine) => Ok(AffinePlan::Own(affine)),
            Err(e) => Err(e),
        };
    }
    if all.len() == 0 {
        return Err(CogError::NoImages);
    }
    let origin: Option<[Real; 2]> = match tags.origin {
        Some(o) => Some(o),
        None => all[0].origin,
    };
    match (tags.pixel_scale, all[0].pixel_scale, origin) {
        (None, None, _) => Err(CogError::NoPixelScale),
        (_, _, None) => Err(CogError::NoTiepoint),
        (Some(scale), _, Some(o)) => Ok(
            AffinePlan::Own(
                Affine {
                    origin_x: o[0],
                    origin_y: o[1],
                    pixel_width: scale[0].abs(),
                    pixel_height: scale[1].abs(),
                },
            ),
        ),
        (None, Some(scale), Some(o)) => Ok(
            AffinePlan::Scaled {
                full: Affine {
                    origin_x: o[0],
                    origin_y: o[1],
                    pixel_width: scale[0].abs(),
                    pixel_height: scale[1].abs(),
                },
                full_width: all[0].width,
                width: tags.width,
            },
        ),
    }
}

// ─── Overviews ──────────────────────────────────────────────────────────────

/// How the ground resolution of an overview is obtained.
#[derive(Debug, Clone, Copy, PartialEq, Eq, Structural)]
pub enum OverviewScale {
    /// It gives it.
    Given(Real),
    /// The full image's, enlarged by the ratio of the widths.
    Inferred,
    /// It has no pixels: neither it nor what follows is used.
    Empty,
}

/// How the ground resolution of an overview is obtained.
pub fn overview_scale(tags: &ImageTags) -> (r: OverviewScale)
    ensures
        r == match tags.pixel_scale {
            Some(scale) => OverviewScale::Given(Real { bits: scale[0].magnitude() as u64 }),
            None => if tags.width == 0 {
                OverviewScale::Empty
            } else {
                OverviewScale::Inferred
            },
        },
{
    match &tags.pixel_scale {
        Some(scale) => OverviewScale::Given(scale[0].abs()),
        None => {
            if tags.width == 0 {
                OverviewScale::Empty
            } else {
                OverviewScale::Inferred
            }
        },
    }
}

/// The overview at `i` may be used: its resolution is known and within the limit.
pub open spec fn usable(gsds: Seq<Option<Real>>, limit: Real, i: int) -> bool {
    gsds[i] is Some && gsds[i]->0.at_most(limit)
}

/// The image to read: the last of the overviews that follow the full image without a
/// break and may be used, or the full image itself, whose resolution must be known.
/// `gsds` gives the resolution of each image, the full one first and the coarsest last;
/// `limit` is twice the resolution that is wanted.
pub fn select_overview(gsds: &Vec<Option<Real>>, limit: Real) -> (r: Result<usize, CogError>)
    ensures
        gsds@.len() == 0 ==> r == Err::<usize, CogError>(CogError::NoImages),
        gsds@.len() > 0 && gsds@[0] is None ==> r == Err::<usize, CogError>(CogError::NoPixelScale),
        gsds@.len() > 0 && gsds@[0] is Some ==> {
            &&& r is Ok
            &&& r->Ok_0 < gsds@.len()
            &&& forall|i: int| 0 < i <= r->Ok_0 ==> #[trigger] usable(gsds@, limit, i)
            &&& r->Ok_0 + 1 < gsds@.len() ==> !usable(gsds@, limit, r->Ok_0 + 1)
            &&& forall|i: int|
                0 < i <= r->Ok_0 ==> (#[trigger] gsds@[i]) is Some && gsds@[i]->0.at_most(limit)
            &&& r->Ok_0 + 1 < gsds@.len() && gsds@[r->Ok_0 + 1] is Some ==> !gsds@[r->Ok_0
                + 1]->0.at_most(limit)
        },
{
    if gsds.len() == 0 {
        return Err(CogError::NoImages);
    }
    if gsds[0].is_none() {
        return Err(CogError::NoPixelScale);
    }
    let mut best: usize = 0;
    while best < gsds.len() - 1
        invariant
            best < gsds@.len(),
            gsds@[0] is Some,
            forall|i: int| 0 < i <= best ==> #[trigger] usable(gsds@, limit, i),
        decreases gsds@.len() - best,
    {
        let fits: bool = match &gsds[best + 1] {
            Some(g) => g.le(&limit),
            None => false,
        };
        if !fits {
            assert forall|i: int| 0 < i <= best implies (#[trigger] gsds@[i]) is Some
                && gsds@[i]->0.at_most(limit) by {
                assert(usable(gsds@, limit, i));
            }
            return Ok(best);
        }
        assert(usable(gsds@, limit, best + 1));
        best += 1;
    }
    assert forall|i: int| 0 < i <= best implies (#[trigger] gsds@[i]) is Some && gsds@[i]->0.at_most(
        limit,
    ) by {
        assert(usable(gsds@, limit, i));
    }
    Ok(best)
}

// ─── Windows ────────────────────────────────────────────────────────────────

/// A rectangle of pixels, upper bounds exclusive.
#[derive(Debug, Clone, Copy, PartialEq, Eq, Structural)]
pub struct Window {
    pub col_min: usize,
    pub row_min: usize,
    pub col_max: usize,
    pub row_max: usize,
}

impl Window {
    /// There are pixels in it.
    pub open spec fn has_pixels(self) -> bool {
        self.col_min < self.col_max && self.row_min < self.row_max
    }

    /// A raster of its pixels can be allocated.
    pub open spec fn holdable(self) -> bool {
        self.has_pixels() ==> raster::fits2(
            (self.row_max - self.row_min) as nat,
            (self.col_max - self.col_min) as nat,
            2,
        )
    }

    /// A raster of its pixels can be allocated.
    pub fn is_holdable(&self) -> (r: bool)
        ensures
            r == self.holdable(),
    {
        if self.col_min >= self.col_max || self.row_min >= self.row_max {
            true
        } else {
            can_hold(self.row_max - self.row_min, self.col_max - self.col_min, 2)
        }
    }

    /// Whether a pixel lies in it.
    pub open spec fn has(self, col: int, row: int) -> bool {
        self.col_min <= col < self.col_max && self.row_min <= row < self.row_max
    }
}

/// The tiling of an image.
#[derive(Debug, Clone, Copy, PartialEq, Eq, Structural)]
pub struct Tiling {
    pub tile_w: usize,
    pub tile_h: usize,
    /// Tiles across.
    pub n_tx: usize,
    /// Tiles down.
    pub n_ty: usize,
}

impl Tiling {
    /// Tiles have pixels, and there is at least one.
    pub open spec fn wf(self) -> bool {
        self.tile_w > 0 && self.tile_h > 0 && self.n_tx > 0 && self.n_ty > 0
    }

    /// The tiling that an image gives.
    pub fn of_image(tags: &ImageTags) -> (r: Result<Self, CogError>)
        ensures
            tags.tile_width is None ==> r == Err::<Tiling, CogError>(CogError::NoTileWidth),
            tags.tile_width is Some && tags.tile_height is None ==> r == Err::<Tiling, CogError>(
                CogError::NoTileHeight,
            ),
            tags.tile_width is Some && tags.tile_height is Some && tags.tile_count is None ==> r
                == Err::<Tiling, CogError>(CogError::NoTileCount),
            tags.tile_width is Some && tags.tile_height is Some && tags.tile_count is Some ==> {
                &&& r is Ok
                &&& r->Ok_0.tile_w == tags.tile_width->0
                &&& r->Ok_0.tile_h == tags.tile_height->0
                &&& (r->Ok_0.n_tx, r->Ok_0.n_ty) == tags.tile_count->0
            },
    {
        match (tags.tile_width, tags.tile_height, tags.tile_count) {
            (None, _, _) => Err(CogError::NoTileWidth),
            (_, None, _) => Err(CogError::NoTileHeight),
            (_, _, None) => Err(CogError::NoTileCount),
            (Some(w), Some(h), Some((n_tx, n_ty))) => Ok(
                Tiling { tile_w: w as usize, tile_h: h as usize, n_tx, n_ty },
            ),
        }
    }
}

/// The last tile of an axis to fetch: that of the last pixel, but no later than the
/// last one there is.
pub open spec fn last_tile(end: int, tile: int, count: int) -> int {
    if (end - 1) / tile < count - 1 {
        (end - 1) / tile
    } else {
        count - 1
    }
}

/// The tile is to be fetched for the window.
pub open spec fn wanted(w: Window, t: Tiling, tx: int, ty: int) -> bool {
    &&& w.col_min as int / t.tile_w as int <= tx <= last_tile(
        w.col_max as int,
        t.tile_w as int,
        t.n_tx as int,
    )
    &&& w.row_min as int / t.tile_h as int <= ty <= last_tile(
        w.row_max as int,
        t.tile_h as int,
        t.n_ty as int,
    )
}

/// The list holds the wanted tiles among the rows before `ty` and, in row `ty`, among the
/// columns before `tx`, row by row.
spec fn lists_tiles(
    list: Seq<(usize, usize)>,
    w: Window,
    t: Tiling,
    tx: int,
    ty: int,
) -> bool {
    &&& forall|i: int, j: int|
        0 <= i < j < list.len() ==> row_major(#[trigger] list[i], #[trigger] list[j])
    &&& forall|a: usize, b: usize|
        #[trigger] list.contains((a, b)) <==> wanted(w, t, a as int, b as int) && (b < ty || (b == ty
            && a < tx))
}

/// A tile comes before another one row by row.
pub open spec fn row_major(p: (usize, usize), q: (usize, usize)) -> bool {
    p.1 < q.1 || (p.1 == q.1 && p.0 < q.0)
}

/// The tiles to fetch for a window with pixels, row by row: (x, y) of each.
pub fn tiles_of_window(w: Window, t: Tiling) -> (list: Vec<(usize, usize)>)
    requires
        w.has_pixels(),
        t.wf(),
    ensures
        forall|a: usize, b: usize|
            #[trigger] list@.contains((a, b)) <==> wanted(w, t, a as int, b as int),
        forall|i: int, j: int|
            0 <= i < j < list@.len() ==> row_major(#[trigger] list@[i], #[trigger] list@[j]),
        forall|i: int, j: int|
            0 <= i < j < list@.len() ==> (#[trigger] list@[i]).1 < (#[trigger] list@[j]).1 || (
            list@[i].1 == list@[j].1 && list@[i].0 < list@[j].0),
{
    let tx_min: usize = w.col_min / t.tile_w;
    let ty_min: usize = w.row_min / t.tile_h;
    let tx_end: usize = (w.col_max - 1) / t.tile_w;
    let ty_end: usize = (w.row_max - 1) / t.tile_h;
    let tx_max: usize = if tx_end < t.n_tx - 1 {
        tx_end
    } else {
        t.n_tx - 1
    };
    let ty_max: usize = if ty_end < t.n_ty - 1 {
        ty_end
    } else {
        t.n_ty - 1
    };
    let mut list: Vec<(usize, usize)> = Vec::new();
    if tx_min > tx_max || ty_min > ty_max {
        return list;
    }
    let mut ty: usize = ty_min;
    loop
        invariant_except_break
            lists_tiles(list@, w, t, 0, ty as int),
        invariant
            tx_min <= tx_max < t.n_tx,
            ty_min <= ty <= ty_max < t.n_ty,
            tx_min == w.col_min as int / t.tile_w as int,
            ty_min == w.row_min as int / t.tile_h as int,
            tx_max == last_tile(w.col_max as int, t.tile_w as int, t.n_tx as int),
            ty_max == last_tile(w.row_max as int, t.tile_h as int, t.n_ty as int),
        ensures
            lists_tiles(list@, w, t, 0, ty_max + 1),
        decreases ty_max - ty,
    {
        let mut tx: usize = tx_min;
        loop
            invariant_except_break
                lists_tiles(list@, w, t, tx as int, ty as int),
            invariant
                tx_min <= tx <= tx_max < t.n_tx,
                ty_min <= ty <= ty_max < t.n_ty,
                tx_min == w.col_min as int / t.tile_w as int,
                ty_min == w.row_min as int / t.tile_h as int,
                tx_max == last_tile(w.col_max as int, t.tile_w as int, t.n_tx as int),
                ty_max == last_tile(w.row_max as int, t.tile_h as int, t.n_ty as int),
            ensures
                lists_tiles(list@, w, t, tx_max + 1, ty as int),
            decreases tx_max - tx,
        {
            let ghost before = list@;
            list.push((tx, ty));
            proof {
                lemma_list_step(before, w, t, tx, ty);
            }
            if tx == tx_max {
                break;
            }
            tx += 1;
        }
        if ty == ty_max {
            break;
        }
        ty += 1;
    }
    list
}

proof fn lemma_list_step(list: Seq<(usize, usize)>, w: Window, t: Tiling, tx: usize, ty: usize)
    requires
        lists_tiles(list, w, t, tx as int, ty as int),
        wanted(w, t, tx as int, ty as int),
    ensures
        lists_tiles(list.push((tx, ty)), w, t, tx + 1, ty as int),
{
    let longer = list.push((tx, ty));
    assert forall|i: int, j: int| 0 <= i < j < longer.len() implies row_major(
        #[trigger] longer[i],
        #[trigger] longer[j],
    ) by {
        assert(longer[i] == list[i]);
        if j < list.len() {
            assert(longer[j] == list[j]);
        } else {
            let p = list[i];
            assert(list.contains((p.0, p.1)));
        }
    }
    assert forall|a: usize, b: usize| #[trigger] longer.contains((a, b)) <==> wanted(
        w,
        t,
        a as int,
        b as int,
    ) && (b < ty || (b == ty && a < tx + 1)) by {
        if longer.contains((a, b)) {
            let i = choose|i: int| 0 <= i < longer.len() && longer[i] == (a, b);
            if i < list.len() {
                assert(list[i] == (a, b));
                assert(list.contains((a, b)));
            }
        }
        if wanted(w, t, a as int, b as int) && (b < ty || (b == ty && a < tx + 1)) {
            if (a, b) == (tx, ty) {
                assert(longer[list.len() as int] == (a, b));
            } else {
                assert(list.contains((a, b)));
                let i = choose|i: int| 0 <= i < list.len() && list[i] == (a, b);
                assert(longer[i] == (a, b));
            }
        }
    }
}

/// Every pixel of the window that lies in the tiling is on a wanted tile, and every
/// wanted tile has a pixel of the window.
pub proof fn wanted_tiles_cover(w: Window, t: Tiling)
    requires
        w.has_pixels(),
        t.wf(),
    ensures
        forall|col: int, row: int|
            #[trigger] w.has(col, row) && col / t.tile_w as int <= t.n_tx - 1 && row / t.tile_h as int
                <= t.n_ty - 1 ==> wanted(w, t, col / t.tile_w as int, row / t.tile_h as int),
        forall|tx: int, ty: int|
            #[trigger] wanted(w, t, tx, ty) ==> exists|col: int, row: int|
                #[trigger] w.has(col, row) && col / t.tile_w as int == tx && row / t.tile_h as int == ty,
{
    let tw = t.tile_w as int;
    let th = t.tile_h as int;
    assert forall|col: int, row: int|
        #[trigger] w.has(col, row) && col / tw <= t.n_tx - 1 && row / th <= t.n_ty - 1 implies wanted(
        w,
        t,
        col / tw,
        row / th,
    ) by {
        lemma_div_is_ordered(w.col_min as int, col, tw);
        lemma_div_is_ordered(col, w.col_max - 1, tw);
        lemma_div_is_ordered(w.row_min as int, row, th);
        lemma_div_is_ordered(row, w.row_max - 1, th);
    }
    assert forall|tx: int, ty: int| #[trigger] wanted(w, t, tx, ty) implies exists|
        col: int,
        row: int,
    |
        #[trigger] w.has(col, row) && col / tw == tx && row / th == ty by {
        let col = lemma_pixel_on_tile(w.col_min as int, w.col_max as int, tw, tx);
        let row = lemma_pixel_on_tile(w.row_min as int, w.row_max as int, th, ty);
        assert(w.has(col, row));
    }
}

/// A tile is fetched for a window exactly when it is one of the tiling and has a pixel of
/// the window on it.
pub proof fn wanted_by_pixels(w: Window, t: Tiling, tx: int, ty: int)
    requires
        w.col_min < w.col_max,
        w.row_min < w.row_max,
        t.tile_w > 0,
        t.tile_h > 0,
        t.n_tx > 0,
        t.n_ty > 0,
    ensures
        wanted(w, t, tx, ty) <==> {
            &&& 0 <= tx < t.n_tx
            &&& 0 <= ty < t.n_ty
            &&& w.col_min < (tx + 1) * t.tile_w && tx * t.tile_w < w.col_max
            &&& w.row_min < (ty + 1) * t.tile_h && ty * t.tile_h < w.row_max
        },
{
    lemma_on_axis(w.col_min as int, w.col_max as int, t.tile_w as int, t.n_tx as int, tx);
    lemma_on_axis(w.row_min as int, w.row_max as int, t.tile_h as int, t.n_ty as int, ty);
}

/// The places of an axis that share a pixel with a stretch of it.
proof fn lemma_on_axis(lo: int, hi: int, tile: int, count: int, at: int)
    requires
        0 <= lo < hi,
        tile > 0,
        count > 0,
    ensures
        lo / tile <= at <= last_tile(hi, tile, count) <==> {
            &&& 0 <= at < count
            &&& lo < (at + 1) * tile
            &&& at * tile < hi
        },
{
    lemma_fundamental_div_mod(lo, tile);
    lemma_fundamental_div_mod(hi - 1, tile);
    let (a, b) = (lo / tile, (hi - 1) / tile);
    assert(a >= 0) by (nonlinear_arith)
        requires
            lo == tile * a + lo % tile,
            0 <= lo,
            lo % tile < tile,
            tile > 0,
    ;
    assert(a <= at <==> lo < (at + 1) * tile) by (nonlinear_arith)
        requires
            lo == tile * a + lo % tile,
            0 <= lo % tile < tile,
            tile > 0,
    ;
    assert(at <= b <==> at * tile < hi) by (nonlinear_arith)
        requires
            hi - 1 == tile * b + (hi - 1) % tile,
            0 <= (hi - 1) % tile < tile,
            tile > 0,
    ;
}

proof fn lemma_pixel_on_tile(lo: int, hi: int, tile: int, at: int) -> (pixel: int)
    requires
        0 <= lo < hi,
        tile > 0,
        lo / tile <= at <= (hi - 1) / tile,
    ensures
        lo <= pixel < hi,
        pixel / tile == at,
{
    lemma_fundamental_div_mod(lo, tile);
    lemma_fundamental_div_mod(hi - 1, tile);
    if at == lo / tile {
        lo
    } else {
        assert(at * tile > lo) by (nonlinear_arith)
            requires
                at >= lo / tile + 1,
                lo == tile * (lo / tile) + lo % tile,
                lo % tile < tile,
                tile > 0,
        ;
        assert(at * tile <= hi - 1) by (nonlinear_arith)
            requires
                at <= (hi - 1) / tile,
                hi - 1 == tile * ((hi - 1) / tile) + (hi - 1) % tile,
                0 <= (hi - 1) % tile,
                tile > 0,
        ;
        lemma_fundamental_div_mod_converse(at * tile, tile, at, 0);
        at * tile
    }
}

// ─── Assembly ───────────────────────────────────────────────────────────────

/// A decoded tile: its place in the tiling and its bytes.
#[derive(Debug)]
pub struct DecodedTile {
    pub x: usize,
    pub y: usize,
    /// Rows, columns, bands where the bands come last, or bands, rows, columns.
    pub shape: (usize, usize, usize),
    pub pixel_bytes: usize,
    pub bytes: Vec<u8>,
}

impl DecodedTile {
    /// Rows; of the two layouts the one with the bands last is taken where the last
    /// length is not above the first.
    pub open spec fn rows(self) -> usize {
        if self.shape.2 <= self.shape.0 {
            self.shape.0
        } else {
            self.shape.1
        }
    }

    /// Columns.
    pub open spec fn cols(self) -> usize {
        if self.shape.2 <= self.shape.0 {
            self.shape.1
        } else {
            self.shape.2
        }
    }

    /// The pixel at a row and column of the tile: two bytes, low one first, or one byte
    /// where pixels or the data are no longer; 0 past the data.
    pub open spec fn pixel(self, row: int, col: int) -> u16 {
        let at = (row * self.cols() + col) * self.pixel_bytes;
        if self.pixel_bytes >= 2 && at + 1 < self.bytes@.len() {
            (self.bytes@[at] + 256 * self.bytes@[at + 1]) as u16
        } else if at < self.bytes@.len() {
            self.bytes@[at] as u16
        } else {
            0
        }
    }

    /// The tile holds the pixel of the image at this column and row.
    pub open spec fn covers(self, t: Tiling, col: int, row: int) -> bool {
        self.x * t.tile_w <= col < self.x * t.tile_w + self.cols() && self.y * t.tile_h <= row < self.y
            * t.tile_h + self.rows()
    }

    /// The tile's bounds and the offsets of its pixels can be counted.
    pub open spec fn placeable(self, t: Tiling) -> bool {
        &&& self.x * t.tile_w + self.cols() <= usize::MAX
        &&& self.y * t.tile_h + self.rows() <= usize::MAX
        &&& self.rows() * self.cols() <= usize::MAX
        &&& self.rows() * self.cols() * self.pixel_bytes < usize::MAX
    }

    /// The tile's bounds and the offsets of its pixels can be counted.
    pub fn is_placeable(&self, t: &Tiling) -> (r: bool)
        ensures
            r == self.placeable(*t),
            r <==> self.x * t.tile_w + self.cols() <= usize::MAX && self.y * t.tile_h + self.rows()
                <= usize::MAX && self.rows() * self.cols() <= usize::MAX && self.rows()
                * self.cols() * self.pixel_bytes < usize::MAX,
    {
        let (rows, cols): (usize, usize) = self.dim();
        let across: Option<usize> = match self.x.checked_mul(t.tile_w) {
            Some(at) => at.checked_add(cols),
            None => None,
        };
        let down: Option<usize> = match self.y.checked_mul(t.tile_h) {
            Some(at) => at.checked_add(rows),
            None => None,
        };
        let area: Option<usize> = rows.checked_mul(cols);
        let size: Option<usize> = match area {
            Some(n) => n.checked_mul(self.pixel_bytes),
            None => None,
        };
        match (across, down, size) {
            (Some(_), Some(_), Some(n)) => n < usize::MAX,
            _ => false,
        }
    }

    fn dim(&self) -> (d: (usize, usize))
        ensures
            d == (self.rows(), self.cols()),
    {
        if self.shape.2 <= self.shape.0 {
            (self.shape.0, self.shape.1)
        } else {
            (self.shape.1, self.shape.2)
        }
    }

    /// The pixel at a row and column of the tile.
    fn read(&self, t: &Tiling, row: usize, col: usize) -> (v: u16)
        requires
            self.placeable(*t),
            row < self.rows(),
            col < self.cols(),
        ensures
            v == self.pixel(row as int, col as int),
    {
        let (rows, cols): (usize, usize) = self.dim();
        let pb: usize = self.pixel_bytes;
        proof {
            let i = row * cols + col;
            assert(0 <= row * cols && i < rows * cols) by (nonlinear_arith)
                requires
                    0 <= row < rows,
                    0 <= col < cols,
                    i == row * cols + col,
            ;
            assert(0 <= i * pb <= rows * cols * pb) by (nonlinear_arith)
                requires
                    0 <= i < rows * cols,
                    0 <= pb,
            ;
        }
        let at: usize = (row * cols + col) * pb;
        if pb >= 2 && at + 1 < self.bytes.len() {
            self.bytes[at] as u16 + 256 * (self.bytes[at + 1] as u16)
        } else if at < self.bytes.len() {
            self.bytes[at] as u16
        } else {
            0
        }
    }
}

/// The shape of a tile gives rows, columns and bands where the last length is not above
/// the first, else bands, rows and columns.
pub proof fn tile_layout(tile: DecodedTile)
    ensures
        tile.shape.2 <= tile.shape.0 ==> tile.rows() == tile.shape.0 && tile.cols() == tile.shape.1,
        tile.shape.2 > tile.shape.0 ==> tile.rows() == tile.shape.1 && tile.cols() == tile.shape.2,
{
}

/// Pixels follow each other row by row. One of two or more bytes is its first byte plus 256
/// times its second, one of a single byte that byte; past the data there are zeros.
pub proof fn tile_pixels(tile: DecodedTile, row: int, col: int)
    requires
        0 <= row,
        0 <= col,
    ensures
        ({
            let at = (row * tile.cols() + col) * tile.pixel_bytes;
            let data = tile.bytes@;
            &&& tile.pixel_bytes >= 2 && at + 1 < data.len() ==> tile.pixel(row, col) == data[at]
                + 256 * data[at + 1]
            &&& tile.pixel_bytes < 2 && at < data.len() ==> tile.pixel(row, col) == data[at]
            &&& at + 1 == data.len() ==> tile.pixel(row, col) == data[at]
            &&& at >= data.len() ==> tile.pixel(row, col) == 0
        }),
{
    let at = (row * tile.cols() + col) * tile.pixel_bytes;
    assert(0 <= row * tile.cols()) by (nonlinear_arith)
        requires
            0 <= row,
            0 <= tile.cols(),
    ;
    assert(0 <= at) by (nonlinear_arith)
        requires
            at == (row * tile.cols() + col) * tile.pixel_bytes,
            0 <= row * tile.cols() + col,
            0 <= tile.pixel_bytes,
    ;
}

/// The pixel of the image at a column and row: that of the last of the first `n` tiles
/// that holds it, 0 where none does.
pub open spec fn image_pixel(
    tiles: Seq<DecodedTile>,
    n: int,
    t: Tiling,
    col: int,
    row: int,
) -> u16
    decreases n,
{
    if n <= 0 {
        0
    } else if tiles[n - 1].covers(t, col, row) {
        tiles[n - 1].pixel(row - tiles[n - 1].y * t.tile_h, col - tiles[n - 1].x * t.tile_w)
    } else {
        image_pixel(tiles, n - 1, t, col, row)
    }
}

/// A pixel of the image is that of the last tile whose place and size reach over it, at
/// the offset from the tile's corner, and 0 where none does.
pub proof fn last_tile_counts(
    tiles: Seq<DecodedTile>,
    n: int,
    t: Tiling,
    j: int,
    col: int,
    row: int,
)
    requires
        0 <= j < n <= tiles.len(),
        tiles[j].x * t.tile_w <= col < tiles[j].x * t.tile_w + tiles[j].cols(),
        tiles[j].y * t.tile_h <= row < tiles[j].y * t.tile_h + tiles[j].rows(),
        forall|k: int|
            j < k < n ==> {
                ||| col < (#[trigger] tiles[k]).x * t.tile_w
                ||| col >= tiles[k].x * t.tile_w + tiles[k].cols()
                ||| row < tiles[k].y * t.tile_h
                ||| row >= tiles[k].y * t.tile_h + tiles[k].rows()
            },
    ensures
        image_pixel(tiles, n, t, col, row) == tiles[j].pixel(
            row - tiles[j].y * t.tile_h,
            col - tiles[j].x * t.tile_w,
        ),
    decreases n,
{
    if j < n - 1 {
        assert(!tiles[n - 1].covers(t, col, row));
        last_tile_counts(tiles, n - 1, t, j, col, row);
    }
}

/// A pixel that no tile reaches over is 0.
pub proof fn bare_pixels_are_zero(
    tiles: Seq<DecodedTile>,
    n: int,
    t: Tiling,
    col: int,
    row: int,
)
    requires
        0 <= n <= tiles.len(),
        forall|k: int|
            0 <= k < n ==> {
                ||| col < (#[trigger] tiles[k]).x * t.tile_w
                ||| col >= tiles[k].x * t.tile_w + tiles[k].cols()
                ||| row < tiles[k].y * t.tile_h
                ||| row >= tiles[k].y * t.tile_h + tiles[k].rows()
            },
    ensures
        image_pixel(tiles, n, t, col, row) == 0,
    decreases n,
{
    if n > 0 {
        assert(!tiles[n - 1].covers(t, col, row));
        bare_pixels_are_zero(tiles, n - 1, t, col, row);
    }
}

/// Where every tile is at its own place and no larger than the tiling's, each pixel comes
/// from the tile that it lies on.
pub proof fn window_reads_its_tiles(
    tiles: Seq<DecodedTile>,
    t: Tiling,
    j: int,
    col: int,
    row: int,
)
    requires
        t.wf(),
        0 <= j < tiles.len(),
        0 <= col,
        0 <= row,
        forall|i: int|
            0 <= i < tiles.len() ==> (#[trigger] tiles[i]).cols() <= t.tile_w && tiles[i].rows()
                <= t.tile_h,
        forall|i: int, k: int|
            0 <= i < k < tiles.len() ==> ((#[trigger] tiles[i]).x, tiles[i].y) != ((
            #[trigger] tiles[k]).x, tiles[k].y),
        tiles[j].x == col / t.tile_w as int,
        tiles[j].y == row / t.tile_h as int,
        col % (t.tile_w as int) < tiles[j].cols(),
        row % (t.tile_h as int) < tiles[j].rows(),
    ensures
        image_pixel(tiles, tiles.len() as int, t, col, row) == tiles[j].pixel(
            row % t.tile_h as int,
            col % t.tile_w as int,
        ),
{
    lemma_pixel_of(tiles, tiles.len() as int, t, j, col, row);
}

/// As `window_reads_its_tiles`, among the first `n` tiles.
proof fn lemma_pixel_of(
    tiles: Seq<DecodedTile>,
    n: int,
    t: Tiling,
    j: int,
    col: int,
    row: int,
)
    requires
        t.wf(),
        0 <= j < n <= tiles.len(),
        0 <= col,
        0 <= row,
        forall|i: int|
            0 <= i < tiles.len() ==> (#[trigger] tiles[i]).cols() <= t.tile_w && tiles[i].rows()
                <= t.tile_h,
        forall|i: int, k: int|
            0 <= i < k < tiles.len() ==> ((#[trigger] tiles[i]).x, tiles[i].y) != ((
            #[trigger] tiles[k]).x, tiles[k].y),
        tiles[j].x == col / t.tile_w as int,
        tiles[j].y == row / t.tile_h as int,
        col % (t.tile_w as int) < tiles[j].cols(),
        row % (t.tile_h as int) < tiles[j].rows(),
    ensures
        image_pixel(tiles, n, t, col, row) == tiles[j].pixel(
            row % t.tile_h as int,
            col % t.tile_w as int,
        ),
    decreases n,
{
    let tw = t.tile_w as int;
    let th = t.tile_h as int;
    let last = tiles[n - 1];
    lemma_on_tile(last.x as int, tw, last.cols() as int, col);
    lemma_on_tile(last.y as int, th, last.rows() as int, row);
    if n - 1 == j {
        lemma_fundamental_div_mod(col, tw);
        lemma_fundamental_div_mod(row, th);
        assert(tw * (col / tw) == (col / tw) * tw) by (nonlinear_arith);
        assert(th * (row / th) == (row / th) * th) by (nonlinear_arith);
    } else {
        assert((tiles[j].x, tiles[j].y) != (last.x, last.y));
        lemma_pixel_of(tiles, n - 1, t, j, col, row);
    }
}

/// A tile no longer than its place holds only pixels of that place.
proof fn lemma_on_tile(at: int, tile: int, len: int, pixel: int)
    requires
        tile > 0,
        0 <= len <= tile,
    ensures
        at * tile <= pixel < at * tile + len ==> pixel / tile == at,
{
    if at * tile <= pixel < at * tile + len {
        lemma_fundamental_div_mod_converse(pixel, tile, at, pixel - at * tile);
    }
}

fn larger(a: usize, b: usize) -> (m: usize)
    ensures
        m == if a < b {
            b
        } else {
            a
        },
{
    if a < b {
        b
    } else {
        a
    }
}

fn smaller(a: usize, b: usize) -> (m: usize)
    ensures
        m == if b < a {
            b
        } else {
            a
        },
{
    if b < a {
        b
    } else {
        a
    }
}

/// Copy the pixels that a tile and a window share.
fn paste(out: &mut BandGrid, w: &Window, t: &Tiling, tile: &DecodedTile)
    requires
        w.has_pixels(),
        tile.placeable(*t),
        old(out).rows() == w.row_max - w.row_min,
        old(out).cols() == w.col_max - w.col_min,
    ensures
        final(out).rows() == old(out).rows(),
        final(out).cols() == old(out).cols(),
        forall|r: int, c: int|
            0 <= r < final(out).rows() && 0 <= c < final(out).cols() ==> #[trigger] final(out).at(r, c)
                == if tile.covers(*t, w.col_min + c, w.row_min + r) {
                tile.pixel(w.row_min + r - tile.y * t.tile_h, w.col_min + c - tile.x * t.tile_w)
            } else {
                old(out).at(r, c)
            },
{
    let (t_h, t_w): (usize, usize) = tile.dim();
    proof {
        assert(0 <= tile.x * t.tile_w) by (nonlinear_arith)
            requires
                0 <= tile.x,
                0 <= t.tile_w,
        ;
        assert(0 <= tile.y * t.tile_h) by (nonlinear_arith)
            requires
                0 <= tile.y,
                0 <= t.tile_h,
        ;
    }
    let tc_start: usize = tile.x * t.tile_w;
    let tr_start: usize = tile.y * t.tile_h;
    let c0: usize = larger(tc_start, w.col_min);
    let c1: usize = smaller(tc_start + t_w, w.col_max);
    let r0: usize = larger(tr_start, w.row_min);
    let r1: usize = smaller(tr_start + t_h, w.row_max);
    if c0 >= c1 || r0 >= r1 {
        return;
    }
    let ghost start = *out;
    let ghost row_min = w.row_min as int;
    let ghost col_min = w.col_min as int;
    for row in r0..r1
        invariant
            w.has_pixels(),
            tile.placeable(*t),
            row_min == w.row_min,
            col_min == w.col_min,
            tc_start == tile.x * t.tile_w,
            tr_start == tile.y * t.tile_h,
            t_h == tile.rows(),
            t_w == tile.cols(),
            tc_start <= c0,
            w.col_min <= c0 < c1 <= w.col_max,
            c1 <= tc_start + t_w,
            tr_start <= r0,
            w.row_min <= r0 < r1 <= w.row_max,
            r1 <= tr_start + t_h,
            out.rows() == start.rows() == w.row_max - w.row_min,
            out.cols() == start.cols() == w.col_max - w.col_min,
            forall|r: int, c: int|
                0 <= r < out.rows() && 0 <= c < out.cols() ==> #[trigger] out.at(r, c) == if r0
                    <= row_min + r < row && c0 <= col_min + c < c1 {
                    tile.pixel(row_min + r - tr_start, col_min + c - tc_start)
                } else {
                    start.at(r, c)
                },
    {
        for col in c0..c1
            invariant
                w.has_pixels(),
                tile.placeable(*t),
                r0 <= row < r1,
                row_min == w.row_min,
                col_min == w.col_min,
                t_h == tile.rows(),
                t_w == tile.cols(),
                tc_start <= c0,
                w.col_min <= c0 < c1 <= w.col_max,
                c1 <= tc_start + t_w,
                tr_start <= r0,
                w.row_min <= r0 < r1 <= w.row_max,
                r1 <= tr_start + t_h,
                out.rows() == start.rows() == w.row_max - w.row_min,
                out.cols() == start.cols() == w.col_max - w.col_min,
                forall|r: int, c: int|
                    0 <= r < out.rows() && 0 <= c < out.cols() ==> #[trigger] out.at(r, c) == if c0
                        <= col_min + c < c1 && ((r0 <= row_min + r < row) || (row_min + r == row
                        && col_min + c < col)) {
                        tile.pixel(row_min + r - tr_start, col_min + c - tc_start)
                    } else {
                        start.at(r, c)
                    },
        {
            let v: u16 = tile.read(t, row - tr_start, col - tc_start);
            out.set(row - w.row_min, col - w.col_min, v);
        }
    }
}

/// The pixels of a window, from the tiles fetched for it in order: where two hold the
/// same pixel the later one counts, and where none does the value is 0. A window
/// without pixels gives a single 0.
pub fn assemble_window(w: &Window, t: &Tiling, tiles: &Vec<DecodedTile>) -> (out: BandGrid)
    requires
        w.holdable(),
        forall|i: int| 0 <= i < tiles@.len() ==> (#[trigger] tiles@[i]).placeable(*t),
    ensures
        w.has_pixels() ==> {
            &&& out.rows() == w.row_max - w.row_min
            &&& out.cols() == w.col_max - w.col_min
            &&& forall|r: int, c: int|
                0 <= r < out.rows() && 0 <= c < out.cols() ==> #[trigger] out.at(r, c)
                    == image_pixel(
                    tiles@,
                    tiles@.len() as int,
                    *t,
                    w.col_min + c,
                    w.row_min + r,
                )
        },
        !w.has_pixels() ==> out.rows() == 1 && out.cols() == 1 && out.at(0, 0) == 0,
        w.col_min < w.col_max && w.row_min < w.row_max ==> out.rows() == w.row_max - w.row_min
            && out.cols() == w.col_max - w.col_min,
        w.col_min >= w.col_max || w.row_min >= w.row_max ==> out.rows() == 1 && out.cols() == 1
            && out.at(0, 0) == 0,
{
    if w.col_min >= w.col_max || w.row_min >= w.row_max {
        assert(1nat * 1nat == 1 && 1nat * 1nat * 2nat == 2) by (nonlinear_arith);
        return BandGrid::filled(1, 1, 0);
    }
    let mut out = BandGrid::filled(w.row_max - w.row_min, w.col_max - w.col_min, 0);
    for i in 0..tiles.len()
        invariant
            w.has_pixels(),
            forall|j: int| 0 <= j < tiles@.len() ==> (#[trigger] tiles@[j]).placeable(*t),
            out.rows() == w.row_max - w.row_min,
            out.cols() == w.col_max - w.col_min,
            forall|r: int, c: int|
                0 <= r < out.rows() && 0 <= c < out.cols() ==> #[trigger] out.at(r, c)
                    == image_pixel(tiles@, i as int, *t, w.col_min + c, w.row_min + r),
    {
        paste(&mut out, w, t, &tiles[i]);
    }
    out
}

/// A class raster from a band of classes: the low byte of each value.
pub fn narrow_to_classes(band: &BandGrid) -> (classes: ClassGrid)
    ensures
        classes.rows() == band.rows(),
        classes.cols() == band.cols(),
        forall|r: int, c: int|
            0 <= r < band.rows() && 0 <= c < band.cols() ==> #[trigger] classes.at(r, c) == band.at(
                r,
                c,
            ) % 256,
{
    let (h, w): (usize, usize) = band.dim();
    let mut classes = ClassGrid::filled(h, w, 0);
    for row in 0..h
        invariant
            h == band.rows() == classes.rows(),
            w == band.cols() == classes.cols(),
            forall|r: int, c: int|
                0 <= r < row && 0 <= c < w ==> #[trigger] classes.at(r, c) == band.at(r, c) % 256,
    {
        for col in 0..w
            invariant
                row < h,
                h == band.rows() == classes.rows(),
                w == band.cols() == classes.cols(),
                forall|r: int, c: int|
                    (0 <= r < row && 0 <= c < w) || (r == row && 0 <= c < col)
                        ==> #[trigger] classes.at(r, c) == band.at(r, c) % 256,
        {
            let v: u16 = band.get(row, col);
            classes.set(row, col, (v % 256) as u8);
        }
    }
    classes
}

} // verus!
