//! Filling the tile cache ahead of requests, chunk by chunk.
//!
//! Tiles are grouped into square chunks so that one read per scene and band serves
//! every tile of a chunk.
use crate::cache;
use crate::cache::TileKey;
use crate::composite::SceneTile;
use crate::config::S2Config;
use crate::geo::TileRange;
use crate::index;
use crate::index::{MosaicIndex, SceneRef};
use crate::render;
use crate::render::{encode_tile, Levels, OutputFormat};
use crate::text;
use crate::text::push_decimal;
use vstd::arithmetic::div_mod::*;
use vstd::prelude::*;
use vstd::string::*;

verus! {

/// Side of a chunk in tiles.
pub const CHUNK_TILES: u32 = 8;

// ─── Chunks ─────────────────────────────────────────────────────────────────

/// All tiles of a zoom level that the extent spans.
pub fn tiles_for_zoom(range: TileRange) -> (tiles: Vec<(u32, u32)>)
    ensures
        tiles@ == range.tile_list(),
{
    range.tiles()
}

/// Chunks that a number of tiles is cut into.
pub open spec fn chunk_count(tiles: nat) -> nat {
    (tiles + 7) / 8
}

/// Chunk number `i` of an axis from `lo` to `hi`: its first tile.
pub open spec fn chunk_start(lo: int, i: int) -> int {
    lo + 8 * i
}

/// Its last tile: the axis may end within the chunk.
pub open spec fn chunk_end(lo: int, hi: int, i: int) -> int {
    if lo + 8 * i + 7 <= hi {
        lo + 8 * i + 7
    } else {
        hi
    }
}

/// The chunk in column `a` and row `b` of a rectangle's chunks.
pub open spec fn chunk_at(range: TileRange, a: int, b: int) -> TileRange {
    TileRange {
        x_min: chunk_start(range.x_min as int, a) as u32,
        y_min: chunk_start(range.y_min as int, b) as u32,
        x_max: chunk_end(range.x_min as int, range.x_max as int, a) as u32,
        y_max: chunk_end(range.y_min as int, range.y_max as int, b) as u32,
    }
}

/// The chunks of a rectangle, column by column.
pub open spec fn chunk_list(range: TileRange) -> Seq<TileRange> {
    let h = chunk_count(range.height()) as int;
    Seq::new(
        chunk_count(range.width()) * chunk_count(range.height()),
        |i: int| chunk_at(range, i / h, i % h),
    )
}

/// Cut a rectangle of tiles into chunks.
pub fn chunks_for_zoom(range: TileRange) -> (chunks: Vec<TileRange>)
    requires
        range.x_max + CHUNK_TILES <= u32::MAX,
        range.y_max + CHUNK_TILES <= u32::MAX,
    ensures
        chunks@ == chunk_list(range),
{
    let ghost want = chunk_list(range);
    let ghost w = chunk_count(range.width()) as int;
    let ghost h = chunk_count(range.height()) as int;
    let mut chunks: Vec<TileRange> = Vec::new();
    if range.x_min > range.x_max || range.y_min > range.y_max {
        assert(chunk_count(range.width()) * chunk_count(range.height()) == 0) by (nonlinear_arith)
            requires
                chunk_count(range.width()) == 0 || chunk_count(range.height()) == 0,
        ;
        assert(chunks@ =~= want);
        return chunks;
    }
    let mut x: u32 = range.x_min;
    let ghost mut a: int = 0;
    assert(0 * h == 0) by (nonlinear_arith);
    while x <= range.x_max
        invariant
            range.x_max + CHUNK_TILES <= u32::MAX,
            range.y_max + CHUNK_TILES <= u32::MAX,
            range.x_min <= range.x_max,
            range.y_min <= range.y_max,
            want == chunk_list(range),
            w == chunk_count(range.width()),
            h == chunk_count(range.height()),
            want.len() == w * h,
            0 <= a <= w,
            a < w ==> x == range.x_min + 8 * a,
            a == w ==> x == range.x_max + 1,
            chunks@.len() == a * h,
            forall|i: int| 0 <= i < chunks@.len() ==> chunks@[i] == want[i],
        decreases w - a,
    {
        let x_end: u32 = if x + (CHUNK_TILES - 1) < range.x_max {
            x + (CHUNK_TILES - 1)
        } else {
            range.x_max
        };
        let mut y: u32 = range.y_min;
        let ghost mut b: int = 0;
        while y <= range.y_max
            invariant
                range.x_max + CHUNK_TILES <= u32::MAX,
                range.y_max + CHUNK_TILES <= u32::MAX,
                range.x_min <= x <= range.x_max,
                range.y_min <= range.y_max,
                want == chunk_list(range),
                w == chunk_count(range.width()),
                h == chunk_count(range.height()),
                want.len() == w * h,
                0 <= a < w,
                x == range.x_min + 8 * a,
                x_end == chunk_end(range.x_min as int, range.x_max as int, a),
                0 <= b <= h,
                b < h ==> y == range.y_min + 8 * b,
                b == h ==> y == range.y_max + 1,
                chunks@.len() == a * h + b,
                forall|i: int| 0 <= i < chunks@.len() ==> chunks@[i] == want[i],
            decreases h - b,
        {
            let y_end: u32 = if y + (CHUNK_TILES - 1) < range.y_max {
                y + (CHUNK_TILES - 1)
            } else {
                range.y_max
            };
            let chunk = TileRange { x_min: x, y_min: y, x_max: x_end, y_max: y_end };
            proof {
                let i = a * h + b;
                assert(0 <= i < w * h) by (nonlinear_arith)
                    requires
                        i == a * h + b,
                        0 <= a < w,
                        0 <= b < h,
                ;
                lemma_fundamental_div_mod_converse(i, h, a, b);
                assert(want[i] == chunk);
            }
            chunks.push(chunk);
            y = y_end + 1;
            proof {
                b = b + 1;
            }
        }
        proof {
            assert((a + 1) * h == a * h + h) by (nonlinear_arith);
        }
        x = x_end + 1;
        proof {
            a = a + 1;
        }
    }
    assert(chunks@ =~= want);
    chunks
}

/// The chunks of a rectangle cover exactly its tiles, each in one chunk only, and no
/// chunk is empty or larger than a chunk may be.
pub proof fn chunks_partition(range: TileRange)
    requires
        range.x_max + CHUNK_TILES <= u32::MAX,
        range.y_max + CHUNK_TILES <= u32::MAX,
    ensures
        forall|x: int, y: int|
            #[trigger] range.has(x, y) <==> exists|i: int|
                0 <= i < chunk_list(range).len() && #[trigger] chunk_list(range)[i].has(x, y),
        forall|i: int, j: int, x: int, y: int|
            0 <= i < chunk_list(range).len() && 0 <= j < chunk_list(range).len()
                && #[trigger] chunk_list(range)[i].has(x, y) && #[trigger] chunk_list(range)[j].has(
                x,
                y,
            ) ==> i == j,
        forall|i: int|
            0 <= i < chunk_list(range).len() ==> 1 <= (#[trigger] chunk_list(range)[i]).width()
                <= CHUNK_TILES && 1 <= chunk_list(range)[i].height() <= CHUNK_TILES,
{
    let list = chunk_list(range);
    let w = chunk_count(range.width()) as int;
    let h = chunk_count(range.height()) as int;
    assert forall|i: int|
        #![trigger list[i]]
        0 <= i < list.len() implies h > 0 && 0 <= i / h < w && 0 <= i % h < h && i == (i / h) * h + i
        % h && list[i] == chunk_at(range, i / h, i % h) by {
        lemma_cell(i, w, h);
    }
    assert forall|x: int, y: int| #[trigger] range.has(x, y) implies exists|i: int|
        0 <= i < list.len() && #[trigger] list[i].has(x, y) by {
        let a = (x - range.x_min) / 8;
        let b = (y - range.y_min) / 8;
        let i = a * h + b;
        assert(0 <= a < w && 0 <= b < h);
        assert(0 <= i < w * h) by (nonlinear_arith)
            requires
                i == a * h + b,
                0 <= a < w,
                0 <= b < h,
        ;
        lemma_fundamental_div_mod_converse(i, h, a, b);
        assert(list[i].has(x, y));
    }
    assert forall|x: int, y: int, i: int|
        0 <= i < list.len() && #[trigger] list[i].has(x, y) implies range.has(x, y) && i / h == (x
        - range.x_min) / 8 && i % h == (y - range.y_min) / 8 by {}
    assert forall|x: int, y: int|
        (exists|i: int| 0 <= i < list.len() && #[trigger] list[i].has(x, y)) implies #[trigger] range.has(
        x,
        y,
    ) by {
        let i = choose|i: int| 0 <= i < list.len() && #[trigger] list[i].has(x, y);
        assert(list[i].has(x, y));
    }
    assert forall|i: int, j: int, x: int, y: int|
        0 <= i < list.len() && 0 <= j < list.len() && #[trigger] list[i].has(x, y)
            && #[trigger] list[j].has(x, y) implies i == j by {
        assert(i == (i / h) * h + i % h);
        assert(j == (j / h) * h + j % h);
    }
}

/// The chunks of a rectangle by their bounds. A chunk starts a multiple of eight tiles from
/// the first column and the first row, and is eight tiles long on either axis unless the
/// rectangle ends before. Chunks come column by column, from the first row down.
pub proof fn chunks_by_bounds(range: TileRange, i: int, j: int)
    requires
        range.x_max + CHUNK_TILES <= u32::MAX,
        range.y_max + CHUNK_TILES <= u32::MAX,
        0 <= i <= j < chunk_list(range).len(),
    ensures
        CHUNK_TILES == 8,
        ({
            let c = chunk_list(range)[i];
            &&& range.x_min <= c.x_min <= c.x_max <= range.x_max
            &&& range.y_min <= c.y_min <= c.y_max <= range.y_max
            &&& (c.x_min - range.x_min) % 8 == 0
            &&& (c.y_min - range.y_min) % 8 == 0
            &&& c.x_max - c.x_min == 7 || (c.x_max == range.x_max && c.x_max - c.x_min < 7)
            &&& c.y_max - c.y_min == 7 || (c.y_max == range.y_max && c.y_max - c.y_min < 7)
        }),
        i < j ==> chunk_list(range)[i].x_min < chunk_list(range)[j].x_min || (chunk_list(
            range,
        )[i].x_min == chunk_list(range)[j].x_min && chunk_list(range)[i].y_min < chunk_list(
            range,
        )[j].y_min),
{
    let w = chunk_count(range.width()) as int;
    let h = chunk_count(range.height()) as int;
    lemma_cell(i, w, h);
    lemma_cell(j, w, h);
    lemma_div_is_ordered(i, j, h);
}

/// A tile of a rectangle is in exactly one of its chunks, and a chunk has no other tiles.
pub proof fn tile_is_in_one_chunk(range: TileRange, x: int, y: int)
    requires
        range.x_max + CHUNK_TILES <= u32::MAX,
        range.y_max + CHUNK_TILES <= u32::MAX,
    ensures
        range.x_min <= x <= range.x_max && range.y_min <= y <= range.y_max <==> exists|i: int|
            0 <= i < chunk_list(range).len() && (#[trigger] chunk_list(range)[i]).x_min <= x
                <= chunk_list(range)[i].x_max && chunk_list(range)[i].y_min <= y
                <= chunk_list(range)[i].y_max,
        forall|i: int, j: int|
            0 <= i < chunk_list(range).len() && 0 <= j < chunk_list(range).len() && (
            #[trigger] chunk_list(range)[i]).x_min <= x <= chunk_list(range)[i].x_max
                && chunk_list(range)[i].y_min <= y <= chunk_list(range)[i].y_max && (
            #[trigger] chunk_list(range)[j]).x_min <= x <= chunk_list(range)[j].x_max
                && chunk_list(range)[j].y_min <= y <= chunk_list(range)[j].y_max ==> i == j,
{
    let list = chunk_list(range);
    chunks_partition(range);
    assert(range.has(x, y) <==> range.x_min <= x <= range.x_max && range.y_min <= y <= range.y_max);
    if range.has(x, y) {
        let i = choose|i: int| 0 <= i < list.len() && #[trigger] list[i].has(x, y);
        assert(list[i].x_min <= x);
    }
    if exists|i: int|
        0 <= i < list.len() && (#[trigger] list[i]).x_min <= x <= list[i].x_max && list[i].y_min <= y
            <= list[i].y_max {
        let i = choose|i: int|
            0 <= i < list.len() && (#[trigger] list[i]).x_min <= x <= list[i].x_max && list[i].y_min
                <= y <= list[i].y_max;
        assert(list[i].has(x, y));
    }
    assert forall|i: int, j: int|
        0 <= i < list.len() && 0 <= j < list.len() && (#[trigger] list[i]).x_min <= x
            <= list[i].x_max && list[i].y_min <= y <= list[i].y_max && (#[trigger] list[j]).x_min
            <= x <= list[j].x_max && list[j].y_min <= y <= list[j].y_max implies i == j by {
        assert(list[i].has(x, y) && list[j].has(x, y));
    }
}

/// A position in a table of `w` columns of `h` entries.
proof fn lemma_cell(i: int, w: int, h: int)
    requires
        0 <= i < w * h,
        w >= 0,
        h >= 0,
    ensures
        h > 0,
        0 <= i / h < w,
        0 <= i % h < h,
        i == (i / h) * h + i % h,
{
    if h == 0 {
        assert(w * 0 == 0) by (nonlinear_arith);
    }
    lemma_fundamental_div_mod(i, h);
    assert(h * (i / h) == (i / h) * h) by (nonlinear_arith);
    let q = i / h;
    assert(0 <= q < w) by (nonlinear_arith)
        requires
            i == q * h + i % h,
            0 <= i % h < h,
            0 <= i < w * h,
            h > 0,
    ;
}

/// The chunks of several zoom levels, in the order of the levels.
pub open spec fn chunks_of_zooms(zooms: Seq<(u8, TileRange)>) -> Seq<(u8, TileRange)>
    decreases zooms.len(),
{
    if zooms.len() == 0 {
        Seq::empty()
    } else {
        chunks_of_zooms(zooms.drop_last()) + chunk_list(zooms.last().1).map_values(
            |c: TileRange| (zooms.last().0, c),
        )
    }
}

/// A zoom level adds its own chunks after those of the levels before it, each with the
/// number of the level.
pub proof fn levels_follow_each_other(zooms: Seq<(u8, TileRange)>, z: u8, range: TileRange)
    ensures
        chunks_of_zooms(Seq::empty()).len() == 0,
        ({
            let before = chunks_of_zooms(zooms);
            let all = chunks_of_zooms(zooms.push((z, range)));
            &&& all.len() == before.len() + chunk_list(range).len()
            &&& forall|i: int| 0 <= i < before.len() ==> #[trigger] all[i] == before[i]
            &&& forall|i: int|
                before.len() <= i < all.len() ==> (#[trigger] all[i]).0 == z && all[i].1
                    == chunk_list(range)[i - before.len()]
        }),
{
    assert(zooms.push((z, range)).drop_last() =~= zooms);
}

/// All chunks to fill, given the tiles of each zoom level, coarsest level first.
pub fn all_chunks(zooms: &Vec<(u8, TileRange)>) -> (list: Vec<(u8, TileRange)>)
    requires
        forall|i: int|
            0 <= i < zooms@.len() ==> (#[trigger] zooms@[i]).1.x_max + CHUNK_TILES <= u32::MAX
                && zooms@[i].1.y_max + CHUNK_TILES <= u32::MAX,
    ensures
        list@ == chunks_of_zooms(zooms@),
{
    let mut list: Vec<(u8, TileRange)> = Vec::new();
    assert(zooms@.take(0) =~= Seq::empty());
    for i in 0..zooms.len()
        invariant
            forall|j: int|
                0 <= j < zooms@.len() ==> (#[trigger] zooms@[j]).1.x_max + CHUNK_TILES <= u32::MAX
                    && zooms@[j].1.y_max + CHUNK_TILES <= u32::MAX,
            list@ == chunks_of_zooms(zooms@.take(i as int)),
    {
        let (z, range): (u8, TileRange) = zooms[i];
        let chunks = chunks_for_zoom(range);
        let ghost start = list@;
        let ghost pairs = chunk_list(range).map_values(|c: TileRange| (z, c));
        assert(pairs.take(0) =~= Seq::empty());
        for k in 0..chunks.len()
            invariant
                chunks@ == chunk_list(range),
                pairs == chunk_list(range).map_values(|c: TileRange| (z, c)),
                list@ == start + pairs.take(k as int),
        {
            list.push((z, chunks[k]));
            assert(list@ =~= start + pairs.take(k + 1));
        }
        proof {
            let more = zooms@.take(i + 1);
            assert(more.drop_last() =~= zooms@.take(i as int));
            assert(more.last() == (z, range));
            assert(pairs.take(pairs.len() as int) =~= pairs);
            assert(chunks_of_zooms(more) =~= start + pairs);
        }
    }
    assert(zooms@.take(zooms@.len() as int) =~= zooms@);
    list
}

/// Tiles of several zoom levels together.
pub open spec fn tile_sum(zooms: Seq<(u8, TileRange)>) -> nat
    decreases zooms.len(),
{
    if zooms.len() == 0 {
        0
    } else {
        tile_sum(zooms.drop_last()) + zooms.last().1.area()
    }
}

/// The tiles of one level are its columns times its rows, and those of several levels are
/// added up.
pub proof fn tiles_are_added_up(
    zooms: Seq<(u8, TileRange)>,
    more: Seq<(u8, TileRange)>,
    z: u8,
    range: TileRange,
)
    ensures
        tile_sum(Seq::empty()) == 0,
        tile_sum(zooms + more) == tile_sum(zooms) + tile_sum(more),
        range.x_min <= range.x_max && range.y_min <= range.y_max ==> tile_sum(seq![(z, range)]) == (
        range.x_max - range.x_min + 1) * (range.y_max - range.y_min + 1),
        range.x_min > range.x_max || range.y_min > range.y_max ==> tile_sum(seq![(z, range)]) == 0,
    decreases more.len(),
{
    let one = seq![(z, range)];
    assert(one.drop_last() =~= Seq::empty());
    assert(tile_sum(one) == range.area()) by {
        reveal_with_fuel(tile_sum, 2);
    }
    if range.x_min > range.x_max || range.y_min > range.y_max {
        assert(range.width() * range.height() == 0) by (nonlinear_arith)
            requires
                range.width() == 0 || range.height() == 0,
        ;
    }
    if more.len() == 0 {
        assert(zooms + more =~= zooms);
    } else {
        tiles_are_added_up(zooms, more.drop_last(), z, range);
        assert((zooms + more).drop_last() =~= zooms + more.drop_last());
    }
}

proof fn lemma_sum_grows(zooms: Seq<(u8, TileRange)>, i: int)
    requires
        0 <= i <= zooms.len(),
    ensures
        tile_sum(zooms.take(i)) <= tile_sum(zooms),
    decreases zooms.len() - i,
{
    if i < zooms.len() {
        lemma_sum_grows(zooms, i + 1);
        assert(zooms.take(i + 1).drop_last() =~= zooms.take(i));
    } else {
        assert(zooms.take(i) =~= zooms);
    }
}

/// Number of tiles of a rectangle.
fn area(range: &TileRange) -> (n: u128)
    ensures
        n == range.area(),
{
    if range.x_min > range.x_max || range.y_min > range.y_max {
        assert(range.width() * range.height() == 0) by (nonlinear_arith)
            requires
                range.width() == 0 || range.height() == 0,
        ;
        return 0;
    }
    let w: u128 = range.x_max as u128 - range.x_min as u128 + 1;
    let h: u128 = range.y_max as u128 - range.y_min as u128 + 1;
    assert(w * h <= 0x1_0000_0000 * 0x1_0000_0000) by (nonlinear_arith)
        requires
            0 <= w <= 0x1_0000_0000,
            0 <= h <= 0x1_0000_0000,
    ;
    w * h
}

/// Number of tiles to fill; `None` where there are more than can be counted.
pub fn total_tiles(zooms: &Vec<(u8, TileRange)>) -> (n: Option<usize>)
    ensures
        match n {
            Some(n) => n == tile_sum(zooms@),
            None => tile_sum(zooms@) > usize::MAX,
        },
{
    let mut n: usize = 0;
    assert(zooms@.take(0) =~= Seq::empty());
    for i in 0..zooms.len()
        invariant
            n == tile_sum(zooms@.take(i as int)),
    {
        let more: u128 = area(&zooms[i].1);
        proof {
            lemma_sum_grows(zooms@, i + 1);
            assert(zooms@.take(i + 1).drop_last() =~= zooms@.take(i as int));
        }
        if more > (usize::MAX - n) as u128 {
            return None;
        }
        n = n + more as usize;
    }
    assert(zooms@.take(zooms@.len() as int) =~= zooms@);
    Some(n)
}

// ─── Tiles and scenes of a chunk ────────────────────────────────────────────

/// The tiles to fill, in order: those that the cache does not hold, or all of them where
/// cached tiles are not to be skipped.
pub open spec fn missing_tiles(
    tiles: Seq<(u32, u32)>,
    cached: Seq<bool>,
    skip_cached: bool,
) -> Seq<(u32, u32)>
    decreases tiles.len(),
{
    if tiles.len() == 0 {
        Seq::empty()
    } else {
        let before = missing_tiles(tiles.drop_last(), cached.drop_last(), skip_cached);
        if skip_cached && cached.last() {
            before
        } else {
            before.push(tiles.last())
        }
    }
}

/// The tiles to fill, given for each whether the cache holds it.
pub fn tiles_to_fill(tiles: Vec<(u32, u32)>, cached: &Vec<bool>, skip_cached: bool) -> (r: Vec<
    (u32, u32),
>)
    requires
        cached@.len() == tiles@.len(),
    ensures
        r@ == missing_tiles(tiles@, cached@, skip_cached),
{
    let mut r: Vec<(u32, u32)> = Vec::new();
    assert(tiles@.take(0) =~= Seq::empty());
    for i in 0..tiles.len()
        invariant
            cached@.len() == tiles@.len(),
            r@ == missing_tiles(tiles@.take(i as int), cached@.take(i as int), skip_cached),
    {
        assert(tiles@.take(i + 1).drop_last() =~= tiles@.take(i as int));
        assert(cached@.take(i + 1).drop_last() =~= cached@.take(i as int));
        if !(skip_cached && cached[i]) {
            r.push(tiles[i]);
        }
    }
    assert(tiles@.take(tiles@.len() as int) =~= tiles@);
    assert(cached@.take(cached@.len() as int) =~= cached@);
    r
}

/// Where cached tiles are skipped, the tiles to fill are exactly those that the cache
/// does not hold; else they are all tiles.
pub proof fn cached_tiles_are_skipped(tiles: Seq<(u32, u32)>, cached: Seq<bool>)
    requires
        cached.len() == tiles.len(),
        tiles.no_duplicates(),
    ensures
        forall|i: int|
            0 <= i < tiles.len() ==> (missing_tiles(tiles, cached, true).contains(
                #[trigger] tiles[i],
            ) <==> !cached[i]),
        forall|t: (u32, u32)| #[trigger]
            missing_tiles(tiles, cached, true).contains(t) ==> tiles.contains(t),
        missing_tiles(tiles, cached, false) == tiles,
        missing_tiles(tiles, cached, true).len() <= tiles.len(),
    decreases tiles.len(),
{
    if tiles.len() > 0 {
        let less = tiles.drop_last();
        let n = tiles.len() - 1;
        let flags = cached.drop_last();
        let before = missing_tiles(less, flags, true);
        let after = missing_tiles(tiles, cached, true);
        assert(less.no_duplicates()) by {
            assert forall|i: int, j: int| 0 <= i < less.len() && 0 <= j < less.len() && i != j implies less[i]
                != less[j] by {
                assert(tiles[i] != tiles[j]);
            }
        }
        cached_tiles_are_skipped(less, flags);
        assert(less.push(tiles.last()) =~= tiles);
        assert forall|t: (u32, u32)| #[trigger] after.contains(t) <==> before.contains(t) || (t
            == tiles[n] && !cached[n]) by {
            if before.contains(t) {
                let k = choose|k: int| 0 <= k < before.len() && before[k] == t;
                assert(after[k] == t);
            }
            if !cached[n] {
                assert(after[before.len() as int] == tiles[n]);
            }
            if after.contains(t) {
                let k = choose|k: int| 0 <= k < after.len() && after[k] == t;
                if k < before.len() {
                    assert(before[k] == t);
                }
            }
        }
        assert(!less.contains(tiles[n])) by {
            if less.contains(tiles[n]) {
                let k = choose|k: int| 0 <= k < less.len() && less[k] == tiles[n];
                assert(tiles[k] != tiles[n]);
            }
        }
        assert(!before.contains(tiles[n]));
        assert forall|i: int| 0 <= i < tiles.len() implies (after.contains(#[trigger] tiles[i])
            <==> !cached[i]) by {
            if i < n {
                assert(less[i] == tiles[i] && flags[i] == cached[i]);
                assert(tiles[i] != tiles[n]);
            }
        }
        assert forall|t: (u32, u32)| #[trigger] after.contains(t) implies tiles.contains(t) by {
            if before.contains(t) {
                let k = choose|k: int| 0 <= k < less.len() && less[k] == t;
                assert(tiles[k] == t);
            } else {
                assert(tiles[n] == t);
            }
        }
    }
}

/// The tiles to fill keep their order: `at` gives the place of each. With cached tiles
/// skipped these are the places of the tiles that the cache does not hold, else all.
pub proof fn missing_tiles_in_order(
    tiles: Seq<(u32, u32)>,
    cached: Seq<bool>,
    skip_cached: bool,
) -> (at: Seq<int>)
    requires
        cached.len() == tiles.len(),
    ensures
        at.len() == missing_tiles(tiles, cached, skip_cached).len(),
        forall|a: int, b: int| 0 <= a < b < at.len() ==> #[trigger] at[a] < #[trigger] at[b],
        forall|k: int|
            0 <= k < at.len() ==> 0 <= #[trigger] at[k] < tiles.len() && missing_tiles(
                tiles,
                cached,
                skip_cached,
            )[k] == tiles[at[k]],
        forall|i: int|
            0 <= i < tiles.len() ==> (#[trigger] at.contains(i) <==> !(skip_cached && cached[i])),
    decreases tiles.len(),
{
    if tiles.len() == 0 {
        Seq::empty()
    } else {
        let n = tiles.len() - 1;
        let before = missing_tiles_in_order(tiles.drop_last(), cached.drop_last(), skip_cached);
        let at = if skip_cached && cached[n] {
            before
        } else {
            before.push(n)
        };
        assert forall|i: int| 0 <= i < tiles.len() implies (#[trigger] at.contains(i) <==> !(
        skip_cached && cached[i])) by {
            if i < n {
                assert(before.contains(i) <==> !(skip_cached && cached.drop_last()[i]));
                if before.contains(i) {
                    let k = choose|k: int| 0 <= k < before.len() && before[k] == i;
                    assert(at[k] == i);
                }
                if at.contains(i) {
                    let k = choose|k: int| 0 <= k < at.len() && at[k] == i;
                    assert(before[k] == i);
                }
            } else {
                if !(skip_cached && cached[n]) {
                    assert(at[before.len() as int] == n);
                } else if at.contains(n) {
                    let k = choose|k: int| 0 <= k < at.len() && at[k] == n;
                    assert(before[k] < n);
                }
            }
        }
        at
    }
}

/// How many times the scenes of a tile are read for a chunk: chunks of the coarser levels
/// spread over more orbital tracks, so it is doubled for each level that is filled besides
/// the finest, up to fourfold.
pub open spec fn chunk_growth(minzoom: u8, maxzoom: u8) -> nat {
    if minzoom >= maxzoom {
        1
    } else if maxzoom - minzoom == 1 {
        2
    } else {
        4
    }
}

/// With one level a chunk reads as many scenes as a tile; each further level doubles that
/// until it is fourfold.
pub proof fn growth_doubles(minzoom: u8, maxzoom: u8)
    ensures
        minzoom >= maxzoom ==> chunk_growth(minzoom, maxzoom) == 1,
        minzoom <= maxzoom && maxzoom < 255 ==> chunk_growth(minzoom, (maxzoom + 1) as u8) == if 2
            * chunk_growth(minzoom, maxzoom) <= 4 {
            2 * chunk_growth(minzoom, maxzoom)
        } else {
            4
        },
{
}

/// The scenes to read for a chunk: the best ones in its cells, more than a single tile is
/// composited from.
pub fn chunk_scenes<'a>(index: &'a MosaicIndex, config: &S2Config, cells: TileRange) -> (r: Vec<
    &'a SceneRef,
>)
    requires
        index.wf(),
        config.max_scenes_per_tile * 4 <= usize::MAX,
    ensures
        index::best_scenes(
            *index,
            index.range_candidates(cells),
            config.max_scenes_per_tile as nat * chunk_growth(config.minzoom, config.maxzoom),
            r@,
        ),
{
    let growth: usize = if config.minzoom >= config.maxzoom {
        1
    } else if config.maxzoom - config.minzoom == 1 {
        2
    } else {
        4
    };
    index.scenes_for_bbox(cells, config.max_scenes_per_tile * growth)
}

// ─── Progress ───────────────────────────────────────────────────────────────

/// What became of tiles.
#[derive(Debug, Clone, Copy, PartialEq, Eq, Structural)]
pub struct Tally {
    /// Rendered and kept.
    pub rendered: usize,
    /// Left out: already kept, or without data.
    pub skipped: usize,
    pub errors: usize,
}

/// What to do about a chunk.
#[derive(Debug, Clone, Copy, PartialEq, Eq, Structural)]
pub enum ChunkStep {
    /// It is done, with this outcome.
    Done(Tally),
    /// Read its scenes.
    Read,
    /// Render its tiles.
    Render,
}

/// The outcome of a chunk whose tiles are all left out.
pub open spec fn passed_over(tiles: usize) -> Tally {
    Tally { rendered: 0, skipped: tiles, errors: 0 }
}

/// The outcome of a chunk some of whose tiles were rendered; the others are left out.
pub open spec fn partly_rendered(tiles: usize, written: usize) -> Tally {
    Tally { rendered: written, skipped: (tiles - written) as usize, errors: 0 }
}

/// The outcome of a chunk whose work broke off: one error.
pub open spec fn broken_off() -> Tally {
    Tally { rendered: 0, skipped: 0, errors: 1 }
}

/// Number of tiles of a chunk.
pub fn chunk_tiles(chunk: TileRange) -> (n: usize)
    requires
        chunk.x_min <= chunk.x_max,
        chunk.y_min <= chunk.y_max,
        chunk.area() <= u32::MAX,
    ensures
        n == chunk.area(),
        n == (chunk.x_max - chunk.x_min + 1) * (chunk.y_max - chunk.y_min + 1),
{
    let w: u64 = chunk.x_max as u64 - chunk.x_min as u64 + 1;
    let h: u64 = chunk.y_max as u64 - chunk.y_min as u64 + 1;
    assert(w * h == chunk.area());
    (w * h) as usize
}

/// The first step, given the number of tiles of a chunk, of those to fill, and of
/// scenes: a chunk is passed over where it has nothing to fill or no scenes.
pub fn start_chunk(tiles: usize, to_fill: usize, scenes: usize) -> (s: ChunkStep)
    ensures
        s == if to_fill == 0 || scenes == 0 {
            ChunkStep::Done(passed_over(tiles))
        } else {
            ChunkStep::Read
        },
        s is Read <==> to_fill > 0 && scenes > 0,
        s matches ChunkStep::Done(t) ==> t.rendered == 0 && t.skipped == tiles && t.errors == 0,
{
    if to_fill == 0 || scenes == 0 {
        ChunkStep::Done(Tally { rendered: 0, skipped: tiles, errors: 0 })
    } else {
        ChunkStep::Read
    }
}

/// The step after reading: without a scene that could be read the chunk is done.
pub fn after_read(tiles: usize, loaded: usize) -> (s: ChunkStep)
    ensures
        s == if loaded == 0 {
            ChunkStep::Done(passed_over(tiles))
        } else {
            ChunkStep::Render
        },
        s is Render <==> loaded > 0,
        s matches ChunkStep::Done(t) ==> t.rendered == 0 && t.skipped == tiles && t.errors == 0,
{
    if loaded == 0 {
        ChunkStep::Done(Tally { rendered: 0, skipped: tiles, errors: 0 })
    } else {
        ChunkStep::Render
    }
}

/// The outcome of a rendered chunk: tiles that gave no image count as left out.
pub fn after_render(tiles: usize, written: usize) -> (t: Tally)
    requires
        written <= tiles,
    ensures
        t == partly_rendered(tiles, written),
        t.rendered == written,
        t.rendered + t.skipped == tiles,
        t.errors == 0,
{
    Tally { rendered: written, skipped: tiles - written, errors: 0 }
}

/// The outcome of a chunk whose work broke off.
pub fn broken_chunk() -> (t: Tally)
    ensures
        t == broken_off(),
        t.rendered == 0 && t.skipped == 0 && t.errors == 1,
{
    Tally { rendered: 0, skipped: 0, errors: 1 }
}

impl Tally {
    /// Tiles dealt with.
    pub open spec fn done(self) -> int {
        self.rendered + self.skipped + self.errors
    }

    /// Nothing done yet.
    pub fn zero() -> (t: Self)
        ensures
            t == (Tally { rendered: 0, skipped: 0, errors: 0 }),
    {
        Tally { rendered: 0, skipped: 0, errors: 0 }
    }

    /// Both outcomes together.
    pub fn plus(&self, other: &Tally) -> (t: Self)
        requires
            self.done() + other.done() <= usize::MAX,
        ensures
            t.rendered == self.rendered + other.rendered,
            t.skipped == self.skipped + other.skipped,
            t.errors == self.errors + other.errors,
    {
        Tally {
            rendered: self.rendered + other.rendered,
            skipped: self.skipped + other.skipped,
            errors: self.errors + other.errors,
        }
    }

    /// Position of the progress bar: tiles dealt with, at most the total.
    pub fn position(&self, total: usize) -> (p: u64)
        requires
            self.done() <= usize::MAX,
        ensures
            p == if self.done() < total {
                self.done()
            } else {
                total as int
            },
            p <= total,
            self.rendered + self.skipped + self.errors <= total ==> p == self.rendered
                + self.skipped + self.errors,
            self.rendered + self.skipped + self.errors > total ==> p == total,
    {
        let done: usize = self.rendered + self.skipped + self.errors;
        if done < total {
            done as u64
        } else {
            total as u64
        }
    }

    /// The counts in words.
    pub open spec fn counts(self) -> Seq<char> {
        text::decimal(self.rendered as nat) + " cached, "@ + text::decimal(self.skipped as nat)
            + " empty, "@ + text::decimal(self.errors as nat) + " errors"@
    }

    fn push_counts(&self, out: &mut String)
        ensures
            final(out)@ == old(out)@ + self.counts(),
    {
        let ghost start = out@;
        push_decimal(out, self.rendered as u64);
        out.append(" cached, ");
        push_decimal(out, self.skipped as u64);
        out.append(" empty, ");
        push_decimal(out, self.errors as u64);
        out.append(" errors");
        assert(out@ =~= start + self.counts());
    }

    /// The message while tiles are being filled.
    pub fn running_message(&self, name: &str) -> (m: String)
        ensures
            m@ == "["@ + name@ + "] seeding — "@ + self.counts(),
    {
        let mut m = "[".to_owned();
        m.append(name);
        m.append("] seeding — ");
        self.push_counts(&mut m);
        m
    }

    /// The message at the end.
    pub fn final_message(&self, name: &str) -> (m: String)
        ensures
            m@ == "["@ + name@ + "] done — "@ + self.counts(),
    {
        let mut m = "[".to_owned();
        m.append(name);
        m.append("] done — ");
        self.push_counts(&mut m);
        m
    }
}

/// The counts name the tiles that were rendered, then those left out, then the errors.
pub proof fn counts_in_words(t: Tally)
    ensures
        t.done() == t.rendered + t.skipped + t.errors,
        t.counts() == text::decimal(t.rendered as nat) + " cached, "@ + text::decimal(
            t.skipped as nat,
        ) + " empty, "@ + text::decimal(t.errors as nat) + " errors"@,
{
}

/// The message at the start.
pub fn start_message(name: &str, minzoom: u8, maxzoom: u8, concurrency: usize) -> (m: String)
    ensures
        m@ == "["@ + name@ + "] seeding z"@ + text::decimal(minzoom as nat) + "–z"@ + text::decimal(
            maxzoom as nat,
        ) + ", concurrency="@ + text::decimal(concurrency as nat) + " chunks"@,
{
    let mut m = "[".to_owned();
    m.append(name);
    m.append("] seeding z");
    push_decimal(&mut m, minzoom as u64);
    m.append("–z");
    push_decimal(&mut m, maxzoom as u64);
    m.append(", concurrency=");
    push_decimal(&mut m, concurrency as u64);
    m.append(" chunks");
    m
}

/// Every outcome of a chunk that did not break off accounts for all its tiles.
pub proof fn chunk_outcomes_add_up(tiles: usize, written: usize)
    requires
        written <= tiles,
    ensures
        passed_over(tiles).done() == tiles,
        partly_rendered(tiles, written).done() == tiles,
{
}

/// Tiles of a list of chunks together.
pub open spec fn chunk_sum(chunks: Seq<(u8, TileRange)>) -> nat
    decreases chunks.len(),
{
    if chunks.len() == 0 {
        0
    } else {
        chunk_sum(chunks.drop_last()) + chunks.last().1.area()
    }
}

/// Tiles dealt with in a list of outcomes together.
pub open spec fn done_sum(outcomes: Seq<Tally>) -> int
    decreases outcomes.len(),
{
    if outcomes.len() == 0 {
        0
    } else {
        done_sum(outcomes.drop_last()) + outcomes.last().done()
    }
}

/// The first `n` tiles of an axis, as far as it goes.
spec fn first_tiles(n: int, length: int) -> int {
    if n <= length {
        n
    } else {
        length
    }
}

/// The tiles of `a` whole columns of chunks and of `b` chunks of the next one.
spec fn prefix_tiles(across: int, down: int, a: int, b: int) -> int {
    first_tiles(8 * a, across) * down + (first_tiles(8 * a + 8, across) - first_tiles(
        8 * a,
        across,
    )) * first_tiles(8 * b, down)
}

/// The tiles of the first chunks of a rectangle.
proof fn lemma_prefix_sum(z: u8, range: TileRange, n: int)
    requires
        range.x_max + CHUNK_TILES <= u32::MAX,
        range.y_max + CHUNK_TILES <= u32::MAX,
        chunk_count(range.height()) > 0,
        0 <= n <= chunk_list(range).len(),
    ensures
        chunk_sum(chunk_list(range).map_values(|c: TileRange| (z, c)).take(n)) == prefix_tiles(
            range.width() as int,
            range.height() as int,
            n / (chunk_count(range.height()) as int),
            n % (chunk_count(range.height()) as int),
        ),
    decreases n,
{
    let pairs = chunk_list(range).map_values(|c: TileRange| (z, c));
    let w = chunk_count(range.width()) as int;
    let h = chunk_count(range.height()) as int;
    let across = range.width() as int;
    let down = range.height() as int;
    if n == 0 {
        assert(pairs.take(0) =~= Seq::empty());
        lemma_fundamental_div_mod_converse(0, h, 0, 0);
        assert(0 * down == 0 && first_tiles(8, across) * 0 == 0) by (nonlinear_arith);
    } else {
        let i = n - 1;
        lemma_prefix_sum(z, range, i);
        lemma_cell(i, w, h);
        let a = i / h;
        let b = i % h;
        assert(pairs.take(n).drop_last() =~= pairs.take(i));
        let chunk = chunk_at(range, a, b);
        assert(pairs.take(n).last() == (z, chunk));
        let before = first_tiles(8 * a, across);
        let column = first_tiles(8 * a + 8, across) - before;
        let top = first_tiles(8 * b, down);
        let row = first_tiles(8 * b + 8, down) - top;
        assert(chunk.width() == column && chunk.height() == row);
        assert(column * top + column * row == column * (top + row)) by (nonlinear_arith);
        assert(chunk_sum(pairs.take(n)) == before * down + column * (top + row));
        if b + 1 < h {
            lemma_fundamental_div_mod_converse(n, h, a, b + 1);
            assert(8 * (b + 1) == 8 * b + 8);
        } else {
            assert((a + 1) * h == a * h + h) by (nonlinear_arith);
            lemma_fundamental_div_mod_converse(n, h, a + 1, 0);
            assert(top + row == down);
            assert(before * down + column * down == (before + column) * down) by (nonlinear_arith);
            let next = first_tiles(8 * (a + 1) + 8, across) - first_tiles(8 * (a + 1), across);
            assert(next * 0 == 0) by (nonlinear_arith);
            assert(8 * (a + 1) == 8 * a + 8);
        }
    }
}

/// The chunks of a rectangle have as many tiles together as it has.
proof fn lemma_chunk_sum(z: u8, range: TileRange)
    requires
        range.x_max + CHUNK_TILES <= u32::MAX,
        range.y_max + CHUNK_TILES <= u32::MAX,
    ensures
        chunk_sum(chunk_list(range).map_values(|c: TileRange| (z, c))) == range.area(),
{
    let pairs = chunk_list(range).map_values(|c: TileRange| (z, c));
    let w = chunk_count(range.width()) as int;
    let h = chunk_count(range.height()) as int;
    if h == 0 {
        assert(w * 0 == 0) by (nonlinear_arith);
        assert(range.width() * 0 == 0) by (nonlinear_arith);
    } else {
        lemma_prefix_sum(z, range, w * h);
        assert(pairs.take(w * h) =~= pairs);
        lemma_fundamental_div_mod_converse(w * h, h, w, 0);
        let across = range.width() as int;
        let column = first_tiles(8 * w + 8, across) - first_tiles(8 * w, across);
        assert(column * 0 == 0) by (nonlinear_arith);
    }
}

proof fn lemma_chunk_sum_concat(a: Seq<(u8, TileRange)>, b: Seq<(u8, TileRange)>)
    ensures
        chunk_sum(a + b) == chunk_sum(a) + chunk_sum(b),
    decreases b.len(),
{
    if b.len() == 0 {
        assert(a + b =~= a);
    } else {
        lemma_chunk_sum_concat(a, b.drop_last());
        assert((a + b).drop_last() =~= a + b.drop_last());
    }
}

/// The chunks of all zoom levels have as many tiles together as the levels have.
pub proof fn chunks_hold_all_tiles(zooms: Seq<(u8, TileRange)>)
    requires
        forall|i: int|
            0 <= i < zooms.len() ==> (#[trigger] zooms[i]).1.x_max + CHUNK_TILES <= u32::MAX
                && zooms[i].1.y_max + CHUNK_TILES <= u32::MAX,
    ensures
        chunk_sum(chunks_of_zooms(zooms)) == tile_sum(zooms),
    decreases zooms.len(),
{
    if zooms.len() > 0 {
        let (z, range) = zooms.last();
        chunks_hold_all_tiles(zooms.drop_last());
        lemma_chunk_sum(z, range);
        let pairs = chunk_list(range).map_values(|c: TileRange| (z, c));
        assert(pairs =~= chunk_list(zooms.last().1).map_values(
            |c: TileRange| (zooms.last().0, c),
        ));
        lemma_chunk_sum_concat(chunks_of_zooms(zooms.drop_last()), pairs);
    }
}

/// An outcome of a chunk, which has a tile: it accounts for all tiles, or the work broke
/// off.
pub open spec fn settles(chunk: TileRange, outcome: Tally) -> bool {
    &&& chunk.area() >= 1
    &&& outcome.done() == chunk.area() || outcome == broken_off()
}

/// The outcomes of chunks account for no more tiles than the chunks have, and for all of
/// them where no chunk broke off.
pub proof fn outcomes_stay_within_the_total(chunks: Seq<(u8, TileRange)>, outcomes: Seq<Tally>)
    requires
        outcomes.len() == chunks.len(),
        forall|i: int| 0 <= i < chunks.len() ==> settles(chunks[i].1, #[trigger] outcomes[i]),
    ensures
        0 <= done_sum(outcomes) <= chunk_sum(chunks),
        (forall|i: int| 0 <= i < outcomes.len() ==> #[trigger] outcomes[i] != broken_off())
            ==> done_sum(outcomes) == chunk_sum(chunks),
    decreases chunks.len(),
{
    if chunks.len() > 0 {
        assert forall|i: int| 0 <= i < chunks.drop_last().len() implies settles(
            chunks.drop_last()[i].1,
            #[trigger] outcomes.drop_last()[i],
        ) by {
            assert(settles(chunks[i].1, outcomes[i]));
        }
        outcomes_stay_within_the_total(chunks.drop_last(), outcomes.drop_last());
        assert(outcomes.last() == outcomes[outcomes.len() - 1]);
        if forall|i: int| 0 <= i < outcomes.len() ==> #[trigger] outcomes[i] != broken_off() {
            assert forall|i: int| 0 <= i < outcomes.drop_last().len() implies
                #[trigger] outcomes.drop_last()[i] != broken_off() by {
                assert(outcomes[i] != broken_off());
            }
        }
    }
}

// ─── Tiles of a chunk ───────────────────────────────────────────────────────

/// The cache entry of a rendered tile; `None` where the format does not allow its size.
pub fn tile_entry(
    tile: &SceneTile,
    levels: &Levels,
    format: OutputFormat,
    name: &str,
    z: u8,
    x: u32,
    y: u32,
) -> (r: Option<(TileKey, Vec<u8>)>)
    requires
        tile.wf(),
        levels.suit(*tile),
        tile.side() <= u32::MAX,
    ensures
        match r {
            Some((key, file)) => {
                &&& key@ == (cache::KeyView { tileset: name@, z, x, y, format: format.extension() })
                &&& render::encoded(
                    render::rgba_of(*tile, *levels),
                    tile.side() as u32,
                    tile.side() as u32,
                    format,
                ) == Some(file@)
            },
            None => render::encoded(
                render::rgba_of(*tile, *levels),
                tile.side() as u32,
                tile.side() as u32,
                format,
            ) is None,
        },
        r is Some <==> render::encodable(tile.side() as u32, tile.side() as u32, format),
{
    match encode_tile(tile, levels, format) {
        Some(file) => Some((TileKey::new(name, z, x, y, format.as_ext()), file)),
        None => None,
    }
}

} // verus!
