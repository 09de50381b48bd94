use vstd::prelude::*;

verus! {

/// A grid of fixed-point heights, indexed `[x][y]`.
pub type HeightMap = Vec<Vec<i64>>;

/// Every column of `g` holds `h` cells.
pub open spec fn columns_of(g: Seq<Vec<i64>>, h: int) -> bool {
    forall|i: int| 0 <= i < g.len() ==> (#[trigger] g[i])@.len() == h
}

/// The grid has `w` columns of `h` cells.
pub open spec fn is_grid(g: Seq<Vec<i64>>, w: int, h: int) -> bool {
    g.len() == w && columns_of(g, h)
}

/// Height of cell `(x, y)`.
pub open spec fn cell(g: Seq<Vec<i64>>, x: int, y: int) -> i64 {
    g[x]@[y]
}

/// A cell is land when its height is above zero.
pub open spec fn is_land(g: Seq<Vec<i64>>, x: int, y: int) -> bool {
    cell(g, x, y) > 0
}

/// Some cell of a `w` by `h` grid is land.
pub open spec fn has_land(g: Seq<Vec<i64>>, w: int, h: int) -> bool {
    exists|x: int, y: int| 0 <= x < w && 0 <= y < h && #[trigger] is_land(g, x, y)
}

/// An inclusive range of cells `[min_x, max_x] x [min_y, max_y]` of a grid.
#[derive(Clone, Copy, PartialEq, Eq, Structural, Debug)]
pub struct CellBox {
    pub min_x: usize,
    pub max_x: usize,
    pub min_y: usize,
    pub max_y: usize,
}

impl CellBox {
    pub open spec fn holds(self, x: int, y: int) -> bool {
        self.min_x <= x <= self.max_x && self.min_y <= y <= self.max_y
    }
}

/// `b` is the least box of a `w` by `h` grid that holds every land cell: it holds
/// them all, and each of its four sides touches one of them.
pub open spec fn is_land_box(g: Seq<Vec<i64>>, w: int, h: int, b: CellBox) -> bool {
    &&& b.min_x <= b.max_x < w
    &&& b.min_y <= b.max_y < h
    &&& forall|x: int, y: int|
        0 <= x < w && 0 <= y < h && #[trigger] is_land(g, x, y) ==> b.holds(x, y)
    &&& exists|y: int| 0 <= y < h && #[trigger] is_land(g, b.min_x as int, y)
    &&& exists|y: int| 0 <= y < h && #[trigger] is_land(g, b.max_x as int, y)
    &&& exists|x: int| 0 <= x < w && #[trigger] is_land(g, x, b.min_y as int)
    &&& exists|x: int| 0 <= x < w && #[trigger] is_land(g, x, b.max_y as int)
}

/// `c` is the part of `g` that box `b` covers, with its values unchanged.
pub open spec fn is_cut(g: Seq<Vec<i64>>, b: CellBox, c: Seq<Vec<i64>>) -> bool {
    &&& is_grid(c, b.max_x - b.min_x + 1, b.max_y - b.min_y + 1)
    &&& forall|i: int, j: int|
        0 <= i < c.len() && 0 <= j < c[i]@.len() ==> #[trigger] cell(c, i, j) == cell(
            g,
            b.min_x + i,
            b.min_y + j,
        )
}

/// Finds the least box that holds every land cell of a `w` by `h` grid, if it has any.
pub fn land_bounds(g: &HeightMap, h: usize) -> (r: Option<CellBox>)
    requires
        columns_of(g@, h as int),
    ensures
        r.is_none() <==> !has_land(g@, g@.len() as int, h as int),
        r.is_some() ==> is_land_box(g@, g@.len() as int, h as int, r.unwrap()),
{
    let w = g.len();
    let mut found = false;
    let mut b = CellBox { min_x: 0, max_x: 0, min_y: 0, max_y: 0 };
    let ghost mut ya: int = 0;
    let ghost mut yb: int = 0;
    let ghost mut xa: int = 0;
    let ghost mut xb: int = 0;
    let mut x: usize = 0;
    while x < w
        invariant
            w == g@.len(),
            columns_of(g@, h as int),
            x <= w,
            !found ==> forall|i: int, j: int|
                0 <= i < x && 0 <= j < h ==> !#[trigger] is_land(g@, i, j),
            found ==> {
                &&& b.min_x <= b.max_x < x
                &&& b.min_y <= b.max_y < h
                &&& forall|i: int, j: int|
                    0 <= i < x && 0 <= j < h && #[trigger] is_land(g@, i, j) ==> b.holds(i, j)
                &&& 0 <= ya < h && is_land(g@, b.min_x as int, ya)
                &&& 0 <= yb < h && is_land(g@, b.max_x as int, yb)
                &&& 0 <= xa < w && is_land(g@, xa, b.min_y as int)
                &&& 0 <= xb < w && is_land(g@, xb, b.max_y as int)
            },
        decreases w - x,
    {
        let col = &g[x];
        assert(col@.len() == h);
        let mut y: usize = 0;
        while y < h
            invariant
                w == g@.len(),
                columns_of(g@, h as int),
                x < w,
                y <= h,
                col@ == g@[x as int]@,
                col@.len() == h,
                !found ==> forall|i: int, j: int|
                    ((0 <= i < x && 0 <= j < h) || (i == x && 0 <= j < y)) ==> !#[trigger] is_land(
                        g@,
                        i,
                        j,
                    ),
                found ==> {
                    &&& b.min_x <= b.max_x <= x
                    &&& b.min_y <= b.max_y < h
                    &&& forall|i: int, j: int|
                        ((0 <= i < x && 0 <= j < h) || (i == x && 0 <= j < y)) && #[trigger] is_land(
                            g@,
                            i,
                            j,
                        ) ==> b.holds(i, j)
                    &&& 0 <= ya < h && is_land(g@, b.min_x as int, ya)
                    &&& 0 <= yb < h && is_land(g@, b.max_x as int, yb)
                    &&& 0 <= xa < w && is_land(g@, xa, b.min_y as int)
                    &&& 0 <= xb < w && is_land(g@, xb, b.max_y as int)
                },
            decreases h - y,
        {
            if col[y] > 0 {
                assert(is_land(g@, x as int, y as int));
                if !found {
                    found = true;
                    b = CellBox { min_x: x, max_x: x, min_y: y, max_y: y };
                    proof {
                        ya = y as int;
                        yb = y as int;
                        xa = x as int;
                        xb = x as int;
                    }
                } else {
                    if x > b.max_x {
                        b.max_x = x;
                        proof {
                            yb = y as int;
                        }
                    }
                    if y < b.min_y {
                        b.min_y = y;
                        proof {
                            xa = x as int;
                        }
                    }
                    if y > b.max_y {
                        b.max_y = y;
                        proof {
                            xb = x as int;
                        }
                    }
                }
            }
            y = y + 1;
        }
        x = x + 1;
    }
    if found {
        Some(b)
    } else {
        None
    }
}

/// The part of `g` that box `b` covers, values unchanged.
pub fn cut(g: &HeightMap, h: usize, b: CellBox) -> (c: HeightMap)
    requires
        columns_of(g@, h as int),
        b.min_x <= b.max_x < g@.len(),
        b.min_y <= b.max_y < h,
    ensures
        is_cut(g@, b, c@),
{
    let mut c: HeightMap = Vec::new();
    let w = g.len();
    let mut x: usize = b.min_x;
    while x <= b.max_x
        invariant
            w == g@.len(),
            columns_of(g@, h as int),
            b.min_x <= b.max_x < g@.len(),
            b.min_y <= b.max_y < h,
            b.min_x <= x <= b.max_x + 1,
            c@.len() == x - b.min_x,
            columns_of(c@, b.max_y - b.min_y + 1),
            forall|i: int, j: int|
                0 <= i < c@.len() && 0 <= j < c@[i]@.len() ==> #[trigger] cell(c@, i, j) == cell(
                    g@,
                    b.min_x + i,
                    b.min_y + j,
                ),
        decreases b.max_x + 1 - x,
    {
        let src = &g[x];
        assert(src@.len() == h);
        let mut col: Vec<i64> = Vec::new();
        let mut y: usize = b.min_y;
        while y <= b.max_y
            invariant
                b.min_y <= b.max_y < h,
                src@.len() == h,
                b.min_y <= y <= b.max_y + 1,
                col@.len() == y - b.min_y,
                forall|j: int| 0 <= j < col@.len() ==> col@[j] == src@[b.min_y + j],
            decreases b.max_y + 1 - y,
        {
            col.push(src[y]);
            y = y + 1;
        }
        let ghost prev = c@;
        c.push(col);
        proof {
            assert forall|i: int, j: int|
                0 <= i < c@.len() && 0 <= j < c@[i]@.len() implies #[trigger] cell(c@, i, j)
                == cell(g@, b.min_x + i, b.min_y + j) by {
                if i == c@.len() - 1 {
                    assert(c@[i]@ == col@);
                } else {
                    assert(c@[i] == prev[i]);
                    assert(cell(prev, i, j) == cell(g@, b.min_x + i, b.min_y + j));
                }
            }
        }
        x = x + 1;
    }
    c
}

/// Trims a `g.len()` by `h` grid to the least box that holds all its land cells;
/// `None` when it has none.
pub fn cut_map(g: &HeightMap, h: usize) -> (r: Option<HeightMap>)
    requires
        columns_of(g@, h as int),
    ensures
        r.is_none() <==> !has_land(g@, g@.len() as int, h as int),
        r.is_some() ==> exists|b: CellBox|
            #[trigger] is_land_box(g@, g@.len() as int, h as int, b) && is_cut(
                g@,
                b,
                r.unwrap()@,
            ),
{
    match land_bounds(g, h) {
        None => None,
        Some(b) => {
            let c = cut(g, h, b);
            assert(is_land_box(g@, g@.len() as int, h as int, b) && is_cut(g@, b, c@));
            Some(c)
        },
    }
}

} // verus!
