use vstd::prelude::*;
use crate::geometry::{Rect, WorldPos, POS_SCALE, POS_LIMIT};
use crate::grid::{HeightMap, is_grid, cell, cut_map, has_land, is_land, is_land_box, CellBox};
use crate::random::Dice;
use crate::terrain::{synthesize, interpolate, gauss_smooth, pow2, capped, MAX_SCALE, blend_value, smooth_value,
    draws_bounded, is_synthesized};

verus! {

/// Largest number of tiles along one side of an island.
pub const MAX_ISLAND_SIDE: usize = 1024;

/// Island exponents are drawn from `[MIN_RANDMAP_EXP, MAX_RANDMAP_EXP)`.
pub const MIN_RANDMAP_EXP: i64 = 3;
pub const MAX_RANDMAP_EXP: i64 = 5;

/// Upscale factors are drawn from `[MIN_INTERPOLATION_SCALE, MAX_INTERPOLATION_SCALE)`.
pub const MIN_INTERPOLATION_SCALE: i64 = 8;
pub const MAX_INTERPOLATION_SCALE: i64 = 12;

/// Largest magnitude of the center of an island the factory builds.
pub const CENTER_LIMIT: i64 = 140_737_488_000_000;

/// One cell of an island: a world position and a fixed-point height. Heights of
/// zero or less are water.
#[derive(Clone, Copy, PartialEq, Eq, Structural, Debug)]
pub struct Tile {
    pub pos: WorldPos,
    pub height: i64,
}

impl Tile {
    pub fn new(pos: WorldPos) -> (r: Tile)
        ensures
            r.pos == pos,
            r.height == 0,
    {
        Tile { pos, height: 0 }
    }
}

/// One landmass: its clipping rectangle and its tiles, indexed `[x][y]`, one
/// tile per world unit.
#[derive(Debug)]
pub struct Island {
    pub clipping_rect: Rect,
    pub tiles: Vec<Vec<Tile>>,
}

/// `hm` is the `m` by `m` upscaling of `g` by the factor `s`, `m = (g.len() - 1) * s`.
pub open spec fn is_upscaled(g: Seq<Vec<i64>>, s: int, hm: Seq<Vec<i64>>) -> bool {
    let m = (g.len() - 1) * s;
    &&& is_grid(hm, m, m)
    &&& forall|x: int, y: int| 0 <= x < m && 0 <= y < m ==> #[trigger] cell(hm, x, y) == blend_value(g, s, x, y)
}

/// `sm` is the smoothing of the `m` by `m` grid `hm`.
pub open spec fn is_smoothed(hm: Seq<Vec<i64>>, m: int, sm: Seq<Vec<i64>>) -> bool {
    &&& is_grid(sm, m, m)
    &&& forall|x: int, y: int| 0 <= x < m && 0 <= y < m ==> #[trigger] cell(sm, x, y) == smooth_value(hm, m, m, x, y)
}

/// `r` is the island grown from the square grid `g`, upscaled by `scale`: there
/// are an upscaled grid `hm` and its smoothing `sm`; `r` is `None` exactly when
/// `sm` holds no land, and otherwise a well-formed island centered on `center`
/// whose tiles carry the cells of the least box around the land of `sm`.
pub open spec fn grown_from(g: Seq<Vec<i64>>, scale: int, center: WorldPos, r: Option<Island>) -> bool {
    let m = (g.len() - 1) * scale;
    &&& r.is_some() ==> {
        &&& r.unwrap().wf()
        &&& r.unwrap().centered_at(center)
        &&& r.unwrap().width() <= m
        &&& r.unwrap().depth() <= m
        &&& r.unwrap().land_on_edges()
    }
    &&& exists|hm: Seq<Vec<i64>>, sm: Seq<Vec<i64>>|
        #[trigger] is_upscaled(g, scale, hm) && #[trigger] is_smoothed(hm, m, sm) && (r.is_none()
            <==> !has_land(sm, m, m)) && (r.is_some() ==> exists|b: CellBox|
            #[trigger] is_land_box(sm, m, m, b) && r.unwrap().cut_from(sm, b))
}

/// The tiles form an `nx` by `ny` grid.
pub open spec fn tile_grid(t: Seq<Vec<Tile>>, nx: int, ny: int) -> bool {
    t.len() == nx && forall|i: int| 0 <= i < nx ==> (#[trigger] t[i])@.len() == ny
}

/// Tile `(i, j)` stands `i` world units right of and `j` below the rectangle's
/// origin.
pub open spec fn tiles_placed(t: Seq<Vec<Tile>>, r: Rect) -> bool {
    forall|i: int, j: int|
        0 <= i < t.len() && 0 <= j < t[i]@.len() ==> (#[trigger] t[i]@[j]).pos == (WorldPos {
            x: (r.min_x + POS_SCALE * i) as i64,
            y: (r.min_y + POS_SCALE * j) as i64,
        })
}

/// `t2` is `t1` with every tile moved by `(dx, dy)` and its height kept.
pub open spec fn tiles_moved(t1: Seq<Vec<Tile>>, t2: Seq<Vec<Tile>>, dx: int, dy: int) -> bool {
    &&& t2.len() == t1.len()
    &&& forall|i: int| 0 <= i < t1.len() ==> (#[trigger] t2[i])@.len() == t1[i]@.len()
    &&& forall|i: int, j: int|
        0 <= i < t1.len() && 0 <= j < t1[i]@.len() ==> (#[trigger] t2[i]@[j]).height
            == t1[i]@[j].height && t2[i]@[j].pos == (WorldPos {
            x: (t1[i]@[j].pos.x + dx) as i64,
            y: (t1[i]@[j].pos.y + dy) as i64,
        })
}

impl Island {
    pub open spec fn width(&self) -> int {
        self.tiles@.len() as int
    }

    pub open spec fn depth(&self) -> int {
        if self.tiles@.len() > 0 {
            self.tiles@[0]@.len() as int
        } else {
            0
        }
    }

    /// The island's well-formedness: a non-empty rectangular tile grid of bounded
    /// size, laid out one tile per world unit from the rectangle's origin, the
    /// rectangle exactly as large as the grid.
    pub open spec fn wf(&self) -> bool {
        &&& 1 <= self.width() <= MAX_ISLAND_SIDE
        &&& 1 <= self.depth() <= MAX_ISLAND_SIDE
        &&& tile_grid(self.tiles@, self.width(), self.depth())
        &&& self.clipping_rect.max_x == self.clipping_rect.min_x + POS_SCALE * self.width()
        &&& self.clipping_rect.max_y == self.clipping_rect.min_y + POS_SCALE * self.depth()
        &&& self.clipping_rect.in_limits()
        &&& tiles_placed(self.tiles@, self.clipping_rect)
    }

    /// The heights of the tiles are the cells of `c`.
    pub open spec fn heights_are(&self, c: Seq<Vec<i64>>) -> bool {
        forall|i: int, j: int|
            0 <= i < self.width() && 0 <= j < self.depth() ==> (#[trigger] self.tiles@[i]@[j]).height
                == cell(c, i, j)
    }

    /// The tiles carry the heights of the cells of `g` in box `b`.
    pub open spec fn cut_from(&self, g: Seq<Vec<i64>>, b: CellBox) -> bool {
        &&& self.width() == b.max_x - b.min_x + 1
        &&& self.depth() == b.max_y - b.min_y + 1
        &&& forall|i: int, j: int|
            0 <= i < self.width() && 0 <= j < self.depth() ==> (#[trigger] self.tiles@[i]@[j]).height
                == cell(g, b.min_x + i, b.min_y + j)
    }

    /// The first and last column and the first and last row of tiles each hold
    /// a tile of land.
    pub open spec fn land_on_edges(&self) -> bool {
        &&& exists|y: int| 0 <= y < self.depth() && (#[trigger] self.tiles@[0]@[y]).height > 0
        &&& exists|y: int|
            0 <= y < self.depth() && (#[trigger] self.tiles@[self.width() - 1]@[y]).height > 0
        &&& exists|x: int| 0 <= x < self.width() && (#[trigger] self.tiles@[x]@[0]).height > 0
        &&& exists|x: int|
            0 <= x < self.width() && (#[trigger] self.tiles@[x]@[self.depth() - 1]).height > 0
    }

    /// The rectangle's center is `center`.
    pub open spec fn centered_at(&self, center: WorldPos) -> bool {
        &&& self.clipping_rect.min_x + self.clipping_rect.max_x == 2 * center.x
        &&& self.clipping_rect.min_y + self.clipping_rect.max_y == 2 * center.y
    }

    /// An island whose tiles carry the heights of the `nx` by `ny` grid `c`,
    /// centered on `center`.
    pub fn from_heights(center: WorldPos, c: &HeightMap, ny: usize) -> (r: Island)
        requires
            1 <= c@.len() <= MAX_ISLAND_SIDE,
            1 <= ny <= MAX_ISLAND_SIDE,
            is_grid(c@, c@.len() as int, ny as int),
            -CENTER_LIMIT <= center.x <= CENTER_LIMIT,
            -CENTER_LIMIT <= center.y <= CENTER_LIMIT,
        ensures
            r.wf(),
            r.width() == c@.len(),
            r.depth() == ny,
            r.centered_at(center),
            r.heights_are(c@),
    {
        let nx = c.len();
        let rect = Rect {
            min_x: center.x - nx as i64,
            min_y: center.y - ny as i64,
            max_x: center.x + nx as i64,
            max_y: center.y + ny as i64,
        };
        let mut tiles: Vec<Vec<Tile>> = Vec::new();
        let mut x: usize = 0;
        while x < nx
            invariant
                nx == c@.len(),
                1 <= nx <= MAX_ISLAND_SIDE,
                1 <= ny <= MAX_ISLAND_SIDE,
                is_grid(c@, nx as int, ny as int),
                rect.min_x == center.x - nx,
                rect.min_y == center.y - ny,
                -CENTER_LIMIT <= center.x <= CENTER_LIMIT,
                -CENTER_LIMIT <= center.y <= CENTER_LIMIT,
                x <= nx,
                tiles@.len() == x,
                forall|i: int| 0 <= i < x ==> (#[trigger] tiles@[i])@.len() == ny,
                tiles_placed(tiles@, rect),
                forall|i: int, j: int|
                    0 <= i < x && 0 <= j < ny ==> (#[trigger] tiles@[i]@[j]).height == cell(
                        c@,
                        i,
                        j,
                    ),
            decreases nx - x,
        {
            let src = &c[x];
            assert(src@.len() == ny);
            let mut col: Vec<Tile> = Vec::new();
            let mut y: usize = 0;
            while y < ny
                invariant
                    src@ == c@[x as int]@,
                    src@.len() == ny,
                    1 <= nx <= MAX_ISLAND_SIDE,
                    1 <= ny <= MAX_ISLAND_SIDE,
                    rect.min_x == center.x - nx,
                    rect.min_y == center.y - ny,
                    -CENTER_LIMIT <= center.x <= CENTER_LIMIT,
                    -CENTER_LIMIT <= center.y <= CENTER_LIMIT,
                    x < nx,
                    y <= ny,
                    col@.len() == y,
                    forall|j: int|
                        0 <= j < y ==> (#[trigger] col@[j]).pos == (WorldPos {
                            x: (rect.min_x + POS_SCALE * x) as i64,
                            y: (rect.min_y + POS_SCALE * j) as i64,
                        }) && col@[j].height == src@[j],
                decreases ny - y,
            {
                let mut tile = Tile::new(
                    WorldPos { x: rect.min_x + 2 * (x as i64), y: rect.min_y + 2 * (y as i64) },
                );
                tile.height = src[y];
                col.push(tile);
                y = y + 1;
            }
            let ghost prev = tiles@;
            tiles.push(col);
            proof {
                assert forall|i: int, j: int|
                    0 <= i < tiles@.len() && 0 <= j < tiles@[i]@.len() implies (#[trigger] tiles@[i]@[j]).pos
                    == (WorldPos {
                    x: (rect.min_x + POS_SCALE * i) as i64,
                    y: (rect.min_y + POS_SCALE * j) as i64,
                }) by {
                    if i < x {
                        assert(tiles@[i] == prev[i]);
                    } else {
                        assert(tiles@[i]@ == col@);
                    }
                }
                assert forall|i: int, j: int|
                    0 <= i < x + 1 && 0 <= j < ny implies (#[trigger] tiles@[i]@[j]).height == cell(
                    c@,
                    i,
                    j,
                ) by {
                    if i < x {
                        assert(tiles@[i] == prev[i]);
                    } else {
                        assert(tiles@[i]@ == col@);
                    }
                }
            }
            x = x + 1;
        }
        let r = Island { clipping_rect: rect, tiles };
        assert(r.depth() == ny) by {
            assert(tiles@[0]@.len() == ny);
        }
        r
    }

    /// Moves the island by `(dx, dy)` position steps: its rectangle and every tile.
    pub fn shift(&mut self, dx: i64, dy: i64)
        requires
            old(self).wf(),
            -POS_LIMIT <= dx <= POS_LIMIT,
            -POS_LIMIT <= dy <= POS_LIMIT,
            old(self).clipping_rect.translated(dx as int, dy as int).in_limits(),
        ensures
            final(self).wf(),
            final(self).width() == old(self).width(),
            final(self).depth() == old(self).depth(),
            final(self).clipping_rect == old(self).clipping_rect.translated(dx as int, dy as int),
            tiles_moved(old(self).tiles@, final(self).tiles@, dx as int, dy as int),
    {
        let nx = self.tiles.len();
        let ghost ny = self.depth();
        let ghost r0 = self.clipping_rect;
        let ghost t0 = self.tiles@;
        let mut moved: Vec<Vec<Tile>> = Vec::new();
        let mut x: usize = 0;
        while x < nx
            invariant
                nx == t0.len(),
                *self == *old(self),
                t0 == self.tiles@,
                r0 == self.clipping_rect,
                self.wf(),
                ny == self.depth(),
                r0.translated(dx as int, dy as int).in_limits(),
                -POS_LIMIT <= dx <= POS_LIMIT,
                -POS_LIMIT <= dy <= POS_LIMIT,
                x <= nx,
                moved@.len() == x,
                forall|i: int| 0 <= i < x ==> (#[trigger] moved@[i])@.len() == ny,
                forall|i: int, j: int|
                    0 <= i < x && 0 <= j < ny ==> (#[trigger] moved@[i]@[j]).height
                        == t0[i]@[j].height && moved@[i]@[j].pos == (WorldPos {
                        x: (t0[i]@[j].pos.x + dx) as i64,
                        y: (t0[i]@[j].pos.y + dy) as i64,
                    }),
            decreases nx - x,
        {
            let src = &self.tiles[x];
            assert(src@.len() == ny);
            let mut col: Vec<Tile> = Vec::new();
            let mut y: usize = 0;
            while y < src.len()
                invariant
                    src@ == t0[x as int]@,
                    src@.len() == ny,
                    x < nx,
                    nx == t0.len(),
                    self.wf(),
                    t0 == self.tiles@,
                    r0 == self.clipping_rect,
                    r0.translated(dx as int, dy as int).in_limits(),
                    -POS_LIMIT <= dx <= POS_LIMIT,
                    -POS_LIMIT <= dy <= POS_LIMIT,
                    y <= ny,
                    col@.len() == y,
                    forall|j: int|
                        0 <= j < y ==> (#[trigger] col@[j]).height == src@[j].height
                            && col@[j].pos == (WorldPos {
                            x: (src@[j].pos.x + dx) as i64,
                            y: (src@[j].pos.y + dy) as i64,
                        }),
                decreases ny - y,
            {
                let t = src[y];
                assert(t == t0[x as int]@[y as int]);
                assert(t.pos.x == r0.min_x + POS_SCALE * x);
                assert(t.pos.y == r0.min_y + POS_SCALE * y);
                col.push(Tile { pos: WorldPos { x: t.pos.x + dx, y: t.pos.y + dy }, height: t.height });
                y = y + 1;
            }
            let ghost prev = moved@;
            moved.push(col);
            proof {
                assert forall|i: int, j: int|
                    0 <= i < x + 1 && 0 <= j < ny implies (#[trigger] moved@[i]@[j]).height
                    == t0[i]@[j].height && moved@[i]@[j].pos == (WorldPos {
                    x: (t0[i]@[j].pos.x + dx) as i64,
                    y: (t0[i]@[j].pos.y + dy) as i64,
                }) by {
                    if i < x {
                        assert(moved@[i] == prev[i]);
                    } else {
                        assert(moved@[i]@ == col@);
                    }
                }
            }
            x = x + 1;
        }
        let rect = Rect {
            min_x: self.clipping_rect.min_x + dx,
            min_y: self.clipping_rect.min_y + dy,
            max_x: self.clipping_rect.max_x + dx,
            max_y: self.clipping_rect.max_y + dy,
        };
        self.clipping_rect = rect;
        self.tiles = moved;
        proof {
            assert(self.depth() == ny) by {
                assert(self.tiles@[0]@.len() == ny);
            }
            assert forall|i: int, j: int|
                0 <= i < self.tiles@.len() && 0 <= j < self.tiles@[i]@.len() implies (#[trigger] self.tiles@[i]@[j]).pos
                == (WorldPos {
                x: (self.clipping_rect.min_x + POS_SCALE * i) as i64,
                y: (self.clipping_rect.min_y + POS_SCALE * j) as i64,
            }) by {
                assert(t0[i]@[j].pos.x == r0.min_x + POS_SCALE * i);
                assert(t0[i]@[j].pos.y == r0.min_y + POS_SCALE * j);
            }
        }
    }

    /// The island grown from the fractal grid `g`: upscaled by `scale`, smoothed,
    /// and trimmed to its land, centered on `center`; `None` when no land is left.
    pub fn from_grid(center: WorldPos, g: &HeightMap, scale: usize) -> (r: Option<Island>)
        requires
            g@.len() >= 2,
            is_grid(g@, g@.len() as int, g@.len() as int),
            capped(g@),
            1 <= scale <= MAX_SCALE,
            (g@.len() - 1) * scale <= MAX_ISLAND_SIDE,
            -CENTER_LIMIT <= center.x <= CENTER_LIMIT,
            -CENTER_LIMIT <= center.y <= CENTER_LIMIT,
        ensures
            grown_from(g@, scale as int, center, r),
    {
        let hm = interpolate(g, scale);
        let side = hm.len();
        let sm = gauss_smooth(&hm, side, side);
        assert(is_upscaled(g@, scale as int, hm@));
        assert(is_smoothed(hm@, side as int, sm@));
        match cut_map(&sm, side) {
            None => None,
            Some(c) => {
                let ny = c[0].len();
                let isl = Island::from_heights(center, &c, ny);
                proof {
                    let b = choose|b: CellBox|
                        #[trigger] is_land_box(sm@, side as int, side as int, b) && crate::grid::is_cut(
                            sm@,
                            b,
                            c@,
                        );
                    assert(isl.cut_from(sm@, b));
                    lemma_land_on_edges(&isl, sm@, side as int, b);
                }
                Some(isl)
            },
        }
    }

    /// Creates an island centered on `center` from random choices, or `None` when
    /// the generated terrain holds no land.
    pub fn new(center: WorldPos, dice: &mut Dice) -> (r: Option<Island>)
        requires
            -CENTER_LIMIT <= center.x <= CENTER_LIMIT,
            -CENTER_LIMIT <= center.y <= CENTER_LIMIT,
        ensures
            r.is_some() ==> {
                &&& r.unwrap().wf()
                &&& r.unwrap().centered_at(center)
                &&& r.unwrap().width() <= 198
                &&& r.unwrap().depth() <= 198
                &&& r.unwrap().land_on_edges()
            },
            exists|exp: nat, scale: int, raw: Seq<i64>, g: Seq<Vec<i64>>|
                MIN_RANDMAP_EXP <= exp < MAX_RANDMAP_EXP && MIN_INTERPOLATION_SCALE <= scale
                    < MAX_INTERPOLATION_SCALE && draws_bounded(raw) && #[trigger] is_synthesized(
                    g,
                    exp,
                    raw,
                ) && #[trigger] grown_from(g, scale, center, r),
    {
        let exp = dice.range(MIN_RANDMAP_EXP, MAX_RANDMAP_EXP);
        let g = synthesize(exp as u32, dice);
        let scale = dice.range(MIN_INTERPOLATION_SCALE, MAX_INTERPOLATION_SCALE);
        proof {
            reveal_with_fuel(pow2, 5);
            assert(g@.len() <= 19);
            assert((g@.len() - 1) * scale <= 18 * 11) by (nonlinear_arith)
                requires
                    g@.len() <= 19,
                    g@.len() >= 2,
                    1 <= scale <= 11,
            ;
        }
        let r = Island::from_grid(center, &g, scale as usize);
        proof {
            let raw = choose|raw: Seq<i64>| draws_bounded(raw) && #[trigger] is_synthesized(
                g@,
                exp as nat,
                raw,
            );
            assert(is_synthesized(g@, exp as nat, raw));
            assert(grown_from(g@, scale as int, center, r));
        }
        r
    }
}

/// An island cut from the least box around the land of a grid has land on each
/// of its four edges.
proof fn lemma_land_on_edges(isl: &Island, sm: Seq<Vec<i64>>, m: int, b: CellBox)
    requires
        isl.wf(),
        isl.cut_from(sm, b),
        is_land_box(sm, m, m, b),
    ensures
        isl.land_on_edges(),
{
    let y1 = choose|y: int| 0 <= y < m && #[trigger] is_land(sm, b.min_x as int, y);
    let y2 = choose|y: int| 0 <= y < m && #[trigger] is_land(sm, b.max_x as int, y);
    let x1 = choose|x: int| 0 <= x < m && #[trigger] is_land(sm, x, b.min_y as int);
    let x2 = choose|x: int| 0 <= x < m && #[trigger] is_land(sm, x, b.max_y as int);
    assert(b.holds(b.min_x as int, y1) && b.holds(b.max_x as int, y2));
    assert(b.holds(x1, b.min_y as int) && b.holds(x2, b.max_y as int));
    assert(isl.tiles@[0]@[y1 - b.min_y].height > 0);
    assert(isl.tiles@[isl.width() - 1]@[y2 - b.min_y].height > 0);
    assert(isl.tiles@[x1 - b.min_x]@[0].height > 0);
    assert(isl.tiles@[x2 - b.min_x]@[isl.depth() - 1].height > 0);
}

} // verus!
