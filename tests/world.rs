use islands::geometry::{ChunkIndex, Rect, WorldPos};
use islands::island::Island;
use islands::random::Dice;
use islands::world::{find_free_offset, hull_of, register_covered, Chunk, World};

fn block_island(center: WorldPos, nx: usize, ny: usize) -> Island {
    let grid: Vec<Vec<i64>> = (0..nx).map(|x| (0..ny).map(|y| (x * 10 + y) as i64).collect()).collect();
    Island::from_heights(center, &grid, ny)
}

#[test]
fn chunk_new_is_a_marker() {
    let _c: Chunk = Chunk::new();
}

#[test]
fn only_origin_chunk_gives_one_chunk_rect() {
    let mut w = World::default();
    w.place_island(ChunkIndex::new(0, 0), None);
    // [0, 128) x [0, 128) world units, in half-unit steps
    assert_eq!(w.clipping_rect, Rect::new(0, 0, 256, 256));
    assert!(w.contains(ChunkIndex::new(0, 0)));
    assert_eq!(w.chunks.len(), 1);
}

#[test]
fn rect_spans_all_chunks() {
    let mut w = World::default();
    w.place_island(ChunkIndex::new(-1, 2), None);
    w.place_island(ChunkIndex::new(3, -4), None);
    assert_eq!(w.clipping_rect, Rect::new(-256, -1024, 1024, 768));
}

#[test]
fn rect_never_shrinks_and_stays_when_covered() {
    let mut w = World::default();
    w.place_island(ChunkIndex::new(0, 0), None);
    w.place_island(ChunkIndex::new(2, 2), None);
    let before = w.clipping_rect;
    w.place_island(ChunkIndex::new(1, 1), None);
    assert_eq!(w.clipping_rect, before);
    w.place_island(ChunkIndex::new(5, 0), None);
    assert_eq!(w.clipping_rect, Rect::new(0, 0, 6 * 256, 3 * 256));
}

#[test]
fn registering_twice_changes_nothing() {
    let mut w = World::default();
    w.place_island(ChunkIndex::new(4, 4), None);
    let rect = w.clipping_rect;
    w.place_island(ChunkIndex::new(4, 4), None);
    assert_eq!(w.clipping_rect, rect);
    assert_eq!(w.chunks.len(), 1);
    assert_eq!(w.islands.len(), 0);
}

#[test]
fn gen_chunk_twice_keeps_index_registered() {
    let mut dice = Dice::seeded(11);
    let mut w = World::default();
    let ind = ChunkIndex::new(0, 0);
    w.gen_chunk(ind, &mut dice);
    let islands = w.islands.len();
    let count = w.chunks.len();
    let rect = w.clipping_rect;
    w.gen_chunk(ind, &mut dice);
    assert!(w.contains(ind));
    assert!(w.islands.len() <= islands + 1);
    let listed = w.chunks.iter().filter(|c| **c == ind).count();
    assert_eq!(listed, 1);
    if w.islands.len() == islands {
        assert_eq!(w.chunks.len(), count);
        assert_eq!(w.clipping_rect, rect);
    }
}

#[test]
fn free_island_is_kept_where_it_stands() {
    let mut w = World::default();
    w.place_island(ChunkIndex::new(5, 5), None);
    let isl = block_island(WorldPos { x: 128, y: 128 }, 4, 6);
    w.place_island(ChunkIndex::new(0, 0), Some(isl));
    assert_eq!(w.islands.len(), 1);
    assert_eq!(w.islands[0].clipping_rect, Rect::new(124, 122, 132, 134));
    assert!(w.contains(ChunkIndex::new(0, 0)));
    assert_eq!(w.chunks.len(), 2);
}

#[test]
fn conflict_moves_island_to_first_free_offset() {
    let mut w = World::default();
    w.place_island(ChunkIndex::new(0, 0), None);
    w.place_island(ChunkIndex::new(1, 0), None);
    let isl = block_island(WorldPos { x: 128, y: 128 }, 4, 4);
    w.place_island(ChunkIndex::new(0, 0), Some(isl));
    assert_eq!(w.islands.len(), 1);
    // the first raster-order offset is (-128, -128) world units, already free
    assert_eq!(w.islands[0].clipping_rect, Rect::new(124 - 256, 124 - 256, 132 - 256, 132 - 256));
    assert_eq!(w.islands[0].tiles[0][0].pos, WorldPos { x: 124 - 256, y: 124 - 256 });
    assert_eq!(w.islands[0].tiles[3][2].height, 32);
    assert!(w.contains(ChunkIndex::new(-1, -1)));
    assert_eq!(w.chunks.len(), 3);
}

#[test]
fn search_finds_first_raster_offset() {
    // chunks cover x in [-2, 0] fully in y within reach: the island must leave them
    let mut chunks = Vec::new();
    for x in -2..=0 {
        for y in -2..=2 {
            chunks.push(ChunkIndex::new(x, y));
        }
    }
    // a rectangle of 4 x 4 world units at [124, 132) in both axes (half units)
    let r = Rect::new(124, 124, 132, 132);
    let found = find_free_offset(&chunks, &r);
    // moved by dx world units the rectangle is [124 + 2dx, 132 + 2dx); it must start at 256 or more
    assert_eq!(found, Some((66, -128)));
}

#[test]
fn surrounded_island_is_dropped() {
    let mut w = World::default();
    for x in -2..=2 {
        for y in -2..=2 {
            w.place_island(ChunkIndex::new(x, y), None);
        }
    }
    let before = w.chunks.len();
    let rect = w.clipping_rect;
    let isl = block_island(WorldPos { x: 128, y: 128 }, 4, 4);
    w.place_island(ChunkIndex::new(0, 0), Some(isl));
    assert_eq!(w.islands.len(), 0);
    assert_eq!(w.chunks.len(), before);
    assert_eq!(w.clipping_rect, rect);
}

#[test]
fn covered_chunks_are_registered() {
    let mut chunks = Vec::new();
    register_covered(&mut chunks, &Rect::new(-10, 250, 300, 260));
    let mut got: Vec<(i64, i64)> = chunks.iter().map(|c| (c.x, c.y)).collect();
    got.sort();
    assert_eq!(got, vec![(-1, 0), (-1, 1), (0, 0), (0, 1), (1, 0), (1, 1)]);
}

#[test]
fn hull_of_chunks() {
    let chunks = vec![ChunkIndex::new(2, -3), ChunkIndex::new(-1, 0)];
    assert_eq!(hull_of(&chunks), Rect::new(-256, -768, 768, 256));
}

#[test]
fn accepted_islands_avoid_earlier_chunks_and_hold_their_tiles() {
    let mut dice = Dice::seeded(3);
    let mut w = World::default();
    for x in -2..3 {
        for y in -2..3 {
            let before: Vec<ChunkIndex> = w.chunks.clone();
            let n = w.islands.len();
            if !w.contains(ChunkIndex::new(x, y)) {
                w.gen_chunk(ChunkIndex::new(x, y), &mut dice);
            }
            if w.islands.len() > n {
                let r = w.islands[n].clipping_rect;
                for c in &before {
                    assert!(!r.intersects(&c.footprint_rect()));
                }
            }
        }
    }
    for isl in &w.islands {
        let r = isl.clipping_rect;
        for col in &isl.tiles {
            for t in col {
                assert!(r.min_x <= t.pos.x && t.pos.x <= r.max_x);
                assert!(r.min_y <= t.pos.y && t.pos.y <= r.max_y);
            }
        }
    }
}

#[test]
fn gen_area_registers_every_chunk_of_the_area() {
    let mut dice = Dice::seeded(5);
    let mut w = World::new(WorldPos { x: 0, y: 0 });
    w.gen_area(ChunkIndex::new(-1, -1), ChunkIndex::new(2, 1), &mut dice);
    for x in -1..2 {
        for y in -1..1 {
            assert!(w.contains(ChunkIndex::new(x, y)));
        }
    }
    let mut xs: Vec<i64> = w.chunks.iter().map(|c| c.x * 256).collect();
    xs.sort();
    assert_eq!(w.clipping_rect.min_x, xs[0]);
}
