use islands::geometry::{ChunkIndex, Rect};
use islands::island::{Island, Tile};
use islands::geometry::WorldPos;
use islands::types::{Direction, KeyState};

#[test]
fn rects_touching_at_an_edge_do_not_intersect() {
    let a = Rect::new(0, 0, 10, 10);
    assert!(!a.intersects(&Rect::new(10, 0, 20, 10)));
    assert!(a.intersects(&Rect::new(9, 9, 20, 20)));
    assert!(!a.intersects(&Rect::new(5, 5, 5, 8)));
}

#[test]
fn translate_moves_all_sides() {
    assert_eq!(Rect::new(1, 2, 3, 4).translate(-5, 6), Rect::new(-4, 8, -2, 10));
}

#[test]
fn chunk_footprint() {
    assert_eq!(ChunkIndex::new(-1, 2).footprint_rect(), Rect::new(-256, 512, 0, 768));
}

#[test]
fn tile_new_has_zero_height() {
    let t = Tile::new(WorldPos { x: 3, y: 4 });
    assert_eq!(t.height, 0);
    assert_eq!(t.pos, WorldPos { x: 3, y: 4 });
}

#[test]
fn shift_moves_rect_and_tiles() {
    let grid = vec![vec![1, 2], vec![3, 4], vec![5, 6]];
    let mut isl = Island::from_heights(WorldPos { x: 0, y: 0 }, &grid, 2);
    assert_eq!(isl.clipping_rect, Rect::new(-3, -2, 3, 2));
    isl.shift(10, -4);
    assert_eq!(isl.clipping_rect, Rect::new(7, -6, 13, -2));
    assert_eq!(isl.tiles[2][1].pos, WorldPos { x: 11, y: -4 });
    assert_eq!(isl.tiles[2][1].height, 6);
}

#[test]
fn plain_enums_compare() {
    assert!(Direction::North != Direction::South);
    assert!(KeyState::Pressed == KeyState::Pressed);
}
