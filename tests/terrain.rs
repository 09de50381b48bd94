use islands::grid::{cut_map, land_bounds, CellBox};
use islands::island::Island;
use islands::geometry::WorldPos;
use islands::random::Dice;
use islands::terrain::{div_floor, gauss_smooth, interpolate, synthesize, BORDER_HEIGHT};

#[test]
fn crop_keeps_least_box_and_values() {
    let g: Vec<Vec<i64>> = vec![
        vec![0, -1, 0, 0],
        vec![0, 0, 5, 0],
        vec![-3, 7, 0, 0],
        vec![0, 0, 0, -2],
    ];
    assert_eq!(land_bounds(&g, 4), Some(CellBox { min_x: 1, max_x: 2, min_y: 1, max_y: 2 }));
    assert_eq!(cut_map(&g, 4), Some(vec![vec![0, 5], vec![7, 0]]));
}

#[test]
fn crop_without_land_is_none() {
    let g: Vec<Vec<i64>> = vec![vec![0, -1], vec![-5, 0]];
    assert_eq!(cut_map(&g, 2), None);
}

#[test]
fn crop_single_land_cell() {
    let g: Vec<Vec<i64>> = vec![vec![0, 0, 0], vec![0, 0, 9]];
    assert_eq!(cut_map(&g, 3), Some(vec![vec![9]]));
}

#[test]
fn interpolation_blends_and_divides_by_four() {
    let g: Vec<Vec<i64>> = vec![vec![4_000_000, 8_000_000], vec![12_000_000, 16_000_000]];
    let r = interpolate(&g, 2);
    assert_eq!(r, vec![vec![1_000_000, 1_500_000], vec![2_000_000, 2_500_000]]);
}

#[test]
fn interpolation_rounds_down() {
    let g: Vec<Vec<i64>> = vec![vec![-1, 0], vec![0, 0]];
    let r = interpolate(&g, 1);
    assert_eq!(r, vec![vec![-1]]);
}

#[test]
fn smoothing_drops_weight_outside_grid() {
    let g: Vec<Vec<i64>> = vec![vec![1_000_000]];
    let r = gauss_smooth(&g, 1, 1);
    // 1e6 * 0.22508352, rounded down
    assert_eq!(r, vec![vec![225_083]]);
}

#[test]
fn smoothing_sums_neighbours() {
    let g: Vec<Vec<i64>> = vec![vec![1_000_000, 1_000_000]];
    let r = gauss_smooth(&g, 1, 2);
    // 1e6 * (0.22508352 + 0.11098164), rounded down
    assert_eq!(r, vec![vec![336_065, 336_065]]);
}

#[test]
fn floor_division() {
    assert_eq!(div_floor(7, 2), 3);
    assert_eq!(div_floor(-7, 2), -4);
    assert_eq!(div_floor(-8, 2), -4);
    assert_eq!(div_floor(0, 5), 0);
}

#[test]
fn synthesized_grid_has_water_border_and_filled_interior() {
    let mut dice = Dice::seeded(7);
    let g = synthesize(3, &mut dice);
    assert_eq!(g.len(), 11);
    for x in 0..11 {
        assert_eq!(g[x].len(), 11);
        for y in 0..11 {
            if x == 0 || y == 0 || x == 10 || y == 10 {
                assert_eq!(g[x][y], BORDER_HEIGHT);
            } else if (x == 1 || x == 9) && (y == 1 || y == 9) {
                assert_eq!(g[x][y], 0);
            } else {
                assert_ne!(g[x][y], 0);
            }
        }
    }
}

#[test]
fn synthesis_is_repeatable_with_the_same_seed() {
    let mut d1 = Dice::seeded(42);
    let mut d2 = Dice::seeded(42);
    assert_eq!(synthesize(4, &mut d1), synthesize(4, &mut d2));
    let a = Island::new(WorldPos { x: 0, y: 0 }, &mut d1);
    let b = Island::new(WorldPos { x: 0, y: 0 }, &mut d2);
    match (a, b) {
        (Some(a), Some(b)) => {
            assert_eq!(a.clipping_rect, b.clipping_rect);
            assert_eq!(a.tiles, b.tiles);
        }
        (None, None) => {}
        _ => panic!("runs differ"),
    }
}

#[test]
fn dice_range_stays_in_bounds() {
    let mut d = Dice::seeded(1);
    let mut seen = [false; 3];
    for _ in 0..200 {
        let v = d.range(-1, 2);
        assert!((-1..2).contains(&v));
        seen[(v + 1) as usize] = true;
    }
    assert_eq!(seen, [true, true, true]);
}

#[test]
fn factory_islands_are_centered_and_placed() {
    let mut d = Dice::seeded(9);
    let mut made = 0;
    for _ in 0..6 {
        if let Some(isl) = Island::new(WorldPos { x: 100, y: -50 }, &mut d) {
            made += 1;
            let r = isl.clipping_rect;
            assert_eq!(r.min_x + r.max_x, 200);
            assert_eq!(r.min_y + r.max_y, -100);
            assert_eq!((r.max_x - r.min_x) as usize, 2 * isl.tiles.len());
            assert!(isl.tiles.iter().flatten().any(|t| t.height > 0));
        }
    }
    assert!(made > 0);
}

#[test]
fn synthesis_from_fixed_draws_is_exact() {
    let raw = vec![1_000_000i64; 125];
    let g = islands::terrain::synthesize_from(1, &raw);
    let b = BORDER_HEIGHT;
    let expected: Vec<Vec<i64>> = vec![
        vec![b, b, b, b, b],
        vec![b, 0, 150_000, 0, b],
        vec![b, 150_000, 100_000, 150_000, b],
        vec![b, 0, 150_000, 0, b],
        vec![b, b, b, b, b],
    ];
    assert_eq!(g, expected);
    assert_eq!(islands::terrain::synthesize_from(1, &raw), g);
}

#[test]
fn displacement_offsets_shrink_with_depth() {
    let mut g: Vec<Vec<i64>> = vec![vec![0; 5]; 5];
    let raw = vec![-1_000_000i64; 5];
    let next = islands::terrain::diamond_square(&mut g, 5, 0, 0, 2, 2, 1, &raw, 0);
    assert_eq!(next, 5);
    // depth 1: amplitude 93_303
    assert_eq!(g[1][1], -93_303);
    assert_eq!(g[0][1], (2 * -93_303i64).div_euclid(4) - 93_303);
}

#[test]
fn smoothing_keeps_flat_interior() {
    let g: Vec<Vec<i64>> = vec![vec![1_000_000; 7]; 7];
    let r = gauss_smooth(&g, 7, 7);
    // the kernel's weights sum to 1.00000004
    assert_eq!(r[3][3], 1_000_000);
    assert!(r[0][0] < r[3][3]);
}

#[test]
fn chance_extremes_are_certain() {
    let mut d = Dice::seeded(2);
    for _ in 0..20 {
        assert!(!d.chance(0, 3));
        assert!(d.chance(3, 3));
    }
}

#[test]
fn factory_islands_have_land_on_every_edge_and_bounded_size() {
    let mut d = Dice::seeded(21);
    for _ in 0..6 {
        if let Some(isl) = Island::new(WorldPos { x: 0, y: 0 }, &mut d) {
            let w = isl.tiles.len();
            let h = isl.tiles[0].len();
            assert!(w <= 198 && h <= 198);
            assert!(isl.tiles[0].iter().any(|t| t.height > 0));
            assert!(isl.tiles[w - 1].iter().any(|t| t.height > 0));
            assert!(isl.tiles.iter().any(|c| c[0].height > 0));
            assert!(isl.tiles.iter().any(|c| c[h - 1].height > 0));
        }
    }
}
