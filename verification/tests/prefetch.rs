use s2_tiler::composite::SceneTile;
use s2_tiler::geo::TileRange;
use s2_tiler::prefetch::{
    after_read, after_render, all_chunks, broken_chunk, chunk_tiles, chunks_for_zoom, start_chunk,
    start_message, tile_entry, tiles_for_zoom, tiles_to_fill, total_tiles, ChunkStep, Tally,
};
use s2_tiler::raster::{BandStack, MaskGrid};
use s2_tiler::render::{Levels, OutputFormat};

fn range(x_min: u32, y_min: u32, x_max: u32, y_max: u32) -> TileRange {
    TileRange { x_min, y_min, x_max, y_max }
}

#[test]
fn chunks_cover_each_tile_once() {
    let r = range(5, 100, 21, 109);
    let chunks = chunks_for_zoom(r);
    assert_eq!(chunks.len(), 6);
    assert_eq!(chunks[0], range(5, 100, 12, 107));
    assert_eq!(chunks[1], range(5, 108, 12, 109));
    assert_eq!(chunks[5], range(21, 108, 21, 109));
    let mut tiles: Vec<(u32, u32)> = chunks.iter().flat_map(|c| c.tiles()).collect();
    tiles.sort();
    let mut all = tiles_for_zoom(r);
    all.sort();
    assert_eq!(tiles, all);
}

#[test]
fn exact_multiples_leave_no_rest() {
    assert_eq!(chunks_for_zoom(range(0, 0, 7, 15)), vec![range(0, 0, 7, 7), range(0, 8, 7, 15)]);
    assert_eq!(chunks_for_zoom(range(3, 3, 3, 3)), vec![range(3, 3, 3, 3)]);
    assert!(chunks_for_zoom(range(4, 0, 3, 9)).is_empty());
}

#[test]
fn zoom_levels_are_taken_in_order() {
    let zooms = vec![(10, range(0, 0, 8, 0)), (11, range(0, 0, 0, 0))];
    assert_eq!(
        all_chunks(&zooms),
        vec![(10, range(0, 0, 7, 0)), (10, range(8, 0, 8, 0)), (11, range(0, 0, 0, 0))]
    );
    assert_eq!(total_tiles(&zooms), Some(10));
    assert_eq!(total_tiles(&Vec::new()), Some(0));
    let world = range(0, 0, u32::MAX, u32::MAX);
    assert_eq!(total_tiles(&vec![(0, world)]), None);
}

#[test]
fn chunk_steps_follow_what_there_is() {
    let skipped = ChunkStep::Done(Tally { rendered: 0, skipped: 64, errors: 0 });
    assert_eq!(chunk_tiles(range(0, 0, 7, 7)), 64);
    assert_eq!(start_chunk(64, 0, 3), skipped);
    assert_eq!(start_chunk(64, 1, 3), ChunkStep::Read);
    assert_eq!(start_chunk(64, 64, 3), ChunkStep::Read);
    assert_eq!(start_chunk(64, 64, 0), skipped);
    assert_eq!(after_read(64, 0), skipped);
    assert_eq!(after_read(64, 2), ChunkStep::Render);
    assert_eq!(after_render(64, 60), Tally { rendered: 60, skipped: 4, errors: 0 });
    assert_eq!(broken_chunk(), Tally { rendered: 0, skipped: 0, errors: 1 });
}

#[test]
fn only_missing_tiles_are_filled() {
    let tiles = vec![(3, 4), (3, 5), (4, 4), (4, 5)];
    let cached = vec![true, false, true, false];
    assert_eq!(tiles_to_fill(tiles.clone(), &cached, true), vec![(3, 5), (4, 5)]);
    assert_eq!(tiles_to_fill(tiles.clone(), &cached, false), tiles);
    assert!(tiles_to_fill(tiles.clone(), &vec![true; 4], true).is_empty());
    assert_eq!(tiles_to_fill(tiles.clone(), &vec![false; 4], true), tiles);
    assert!(tiles_to_fill(Vec::new(), &Vec::new(), true).is_empty());
}

#[test]
fn tallies_add_up() {
    let t = Tally::zero().plus(&after_render(64, 60)).plus(&broken_chunk());
    assert_eq!(t, Tally { rendered: 60, skipped: 4, errors: 1 });
    assert_eq!(t.position(100), 65);
    assert_eq!(t.position(64), 64);
    assert_eq!(t.running_message("ma"), "[ma] seeding — 60 cached, 4 empty, 1 errors");
    assert_eq!(t.final_message("ma"), "[ma] done — 60 cached, 4 empty, 1 errors");
    assert_eq!(start_message("ma", 10, 15, 8), "[ma] seeding z10–z15, concurrency=8 chunks");
}

#[test]
fn outcomes_of_all_chunks_reach_the_total() {
    let zooms = vec![(10, range(3, 5, 19, 21)), (11, range(7, 11, 39, 43)), (12, range(9, 0, 8, 4))];
    let total = total_tiles(&zooms).unwrap();
    assert_eq!(total, 17 * 17 + 33 * 33);
    let chunks = all_chunks(&zooms);
    let mut whole = Tally::zero();
    let mut broken = Tally::zero();
    for (i, (_, chunk)) in chunks.iter().enumerate() {
        let tiles = chunk_tiles(*chunk);
        assert!((1..=64).contains(&tiles));
        let outcome = after_render(tiles, tiles / 2);
        whole = whole.plus(&outcome);
        broken = broken.plus(&if i == 1 { broken_chunk() } else { outcome });
    }
    assert_eq!(whole.rendered + whole.skipped, total);
    assert_eq!(whole.position(total), total as u64);
    assert!(broken.position(total) < total as u64);
}

#[test]
fn entries_carry_key_and_file() {
    let t = SceneTile {
        data: BandStack::filled(1, 2, 2, 5),
        mask: MaskGrid::filled(2, 2, true),
        ndvi: None,
    };
    let levels = Levels { samples: vec![9; 65536], index: Vec::new() };
    let (key, file) = tile_entry(&t, &levels, OutputFormat::Jpeg, "ma", 12, 3, 4).unwrap();
    assert_eq!(key.to_path(), "ma/12/3/4.jpg");
    assert_eq!(file[..2], [0xff, 0xd8]);
}
