use vstd::prelude::*;
use crate::grid::{HeightMap, is_grid, columns_of, cell};
use crate::random::Dice;

verus! {

/// Fixed-point heights: `HEIGHT_ONE` stands for a height of 1.
pub const HEIGHT_ONE: i64 = 1_000_000;

/// Heights of a generated grid stay within `[-HEIGHT_CAP, HEIGHT_CAP]`.
pub const HEIGHT_CAP: i64 = 1_000_000_000;

/// Largest upscale factor the resampler takes.
pub const MAX_SCALE: usize = 16;

/// Every cell of `g` lies within `[-HEIGHT_CAP, HEIGHT_CAP]`.
pub open spec fn capped(g: Seq<Vec<i64>>) -> bool {
    forall|x: int, y: int|
        0 <= x < g.len() && 0 <= y < g[x]@.len() ==> -HEIGHT_CAP <= #[trigger] cell(g, x, y)
            <= HEIGHT_CAP
}

/// Division rounding towards negative infinity.
pub fn div_floor(a: i64, b: i64) -> (q: i64)
    requires
        b > 0,
    ensures
        q == a as int / b as int,
{
    if a >= 0 {
        a / b
    } else {
        let n: i64 = -(a + 1);
        let q0: i64 = n / b;
        proof {
            let qi = n as int / b as int;
            let ri = n as int % b as int;
            vstd::arithmetic::div_mod::lemma_fundamental_div_mod(n as int, b as int);
            vstd::arithmetic::div_mod::lemma_mod_bound(n as int, b as int);
            assert(a == b * (-qi - 1) + (b - 1 - ri)) by (nonlinear_arith)
                requires
                    n == b * qi + ri,
                    n == -(a + 1),
            ;
            vstd::arithmetic::div_mod::lemma_fundamental_div_mod_converse(
                a as int,
                b as int,
                -qi - 1,
                b - 1 - ri,
            );
        }
        -q0 - 1
    }
}

/// The bilinear blend of the four input cells around output cell `(x, y)`, scaled
/// down by four, before rounding: the weights are the distances to the opposite
/// corner, counted in output cells.
pub open spec fn blend_sum(g: Seq<Vec<i64>>, s: int, x: int, y: int) -> int {
    let x1 = x / s;
    let y1 = y / s;
    let a = x % s;
    let b = y % s;
    cell(g, x1, y1) * (s - a) * (s - b) + cell(g, x1 + 1, y1) * a * (s - b) + cell(g, x1, y1 + 1)
        * (s - a) * b + cell(g, x1 + 1, y1 + 1) * a * b
}

/// Output cell `(x, y)` of the resampler: the bilinear blend divided by four,
/// rounded down.
pub open spec fn blend_value(g: Seq<Vec<i64>>, s: int, x: int, y: int) -> int {
    blend_sum(g, s, x, y) / (4 * s * s)
}

proof fn lemma_blend_bound(v1: int, v2: int, v3: int, v4: int, s: int, a: int, b: int)
    requires
        -HEIGHT_CAP <= v1 <= HEIGHT_CAP,
        -HEIGHT_CAP <= v2 <= HEIGHT_CAP,
        -HEIGHT_CAP <= v3 <= HEIGHT_CAP,
        -HEIGHT_CAP <= v4 <= HEIGHT_CAP,
        0 <= a < s,
        0 <= b < s,
        s <= MAX_SCALE,
    ensures
        -HEIGHT_CAP * s * s <= v1 * (s - a) * (s - b) + v2 * a * (s - b) + v3 * (s - a) * b + v4 * a
            * b <= HEIGHT_CAP * s * s,
{
    let w1 = (s - a) * (s - b);
    let w2 = a * (s - b);
    let w3 = (s - a) * b;
    let w4 = a * b;
    assert(w1 >= 0 && w2 >= 0 && w3 >= 0 && w4 >= 0) by (nonlinear_arith)
        requires
            w1 == (s - a) * (s - b),
            w2 == a * (s - b),
            w3 == (s - a) * b,
            w4 == a * b,
            0 <= a < s,
            0 <= b < s,
    ;
    assert(w1 + w2 + w3 + w4 == s * s) by (nonlinear_arith)
        requires
            w1 == (s - a) * (s - b),
            w2 == a * (s - b),
            w3 == (s - a) * b,
            w4 == a * b,
    ;
    assert(-HEIGHT_CAP * w1 <= v1 * w1 <= HEIGHT_CAP * w1) by (nonlinear_arith)
        requires
            -HEIGHT_CAP <= v1 <= HEIGHT_CAP,
            w1 >= 0,
    ;
    assert(-HEIGHT_CAP * w2 <= v2 * w2 <= HEIGHT_CAP * w2) by (nonlinear_arith)
        requires
            -HEIGHT_CAP <= v2 <= HEIGHT_CAP,
            w2 >= 0,
    ;
    assert(-HEIGHT_CAP * w3 <= v3 * w3 <= HEIGHT_CAP * w3) by (nonlinear_arith)
        requires
            -HEIGHT_CAP <= v3 <= HEIGHT_CAP,
            w3 >= 0,
    ;
    assert(-HEIGHT_CAP * w4 <= v4 * w4 <= HEIGHT_CAP * w4) by (nonlinear_arith)
        requires
            -HEIGHT_CAP <= v4 <= HEIGHT_CAP,
            w4 >= 0,
    ;
    assert(v1 * (s - a) * (s - b) == v1 * w1) by (nonlinear_arith)
        requires
            w1 == (s - a) * (s - b),
    ;
    assert(v2 * a * (s - b) == v2 * w2) by (nonlinear_arith)
        requires
            w2 == a * (s - b),
    ;
    assert(v3 * (s - a) * b == v3 * w3) by (nonlinear_arith)
        requires
            w3 == (s - a) * b,
    ;
    assert(v4 * a * b == v4 * w4) by (nonlinear_arith)
        requires
            w4 == a * b,
    ;
    assert(HEIGHT_CAP * w1 + HEIGHT_CAP * w2 + HEIGHT_CAP * w3 + HEIGHT_CAP * w4 == HEIGHT_CAP * (
    s * s)) by (nonlinear_arith)
        requires
            w1 + w2 + w3 + w4 == s * s,
    ;
    assert(HEIGHT_CAP * (s * s) == HEIGHT_CAP * s * s) by (nonlinear_arith);
    let t = v1 * (s - a) * (s - b) + v2 * a * (s - b) + v3 * (s - a) * b + v4 * a * b;
    let c = HEIGHT_CAP as int;
    assert(t == v1 * w1 + v2 * w2 + v3 * w3 + v4 * w4);
    assert(-1_000_000_000 * (s * s) <= t <= 1_000_000_000 * (s * s));
    assert(c * (s * s) == c * s * s) by (nonlinear_arith);
    assert(-c * (s * s) == -c * s * s) by (nonlinear_arith);
}

/// Upscales a square grid of side `n` by the factor `s` with bilinear blending,
/// giving a square grid of side `(n - 1) * s`; each output cell is its blend
/// divided by four.
pub fn interpolate(g: &HeightMap, s: usize) -> (r: HeightMap)
    requires
        g@.len() >= 2,
        is_grid(g@, g@.len() as int, g@.len() as int),
        capped(g@),
        1 <= s <= MAX_SCALE,
        (g@.len() - 1) * s <= usize::MAX,
    ensures
        is_grid(r@, (g@.len() - 1) * s, (g@.len() - 1) * s),
        capped(r@),
        forall|x: int, y: int|
            0 <= x < r@.len() && 0 <= y < r@.len() ==> #[trigger] cell(r@, x, y) == blend_value(
                g@,
                s as int,
                x,
                y,
            ),
{
    let n = g.len();
    let side: usize = (n - 1) * s;
    let si: i64 = s as i64;
    let mut r: HeightMap = Vec::new();
    let mut x: usize = 0;
    while x < side
        invariant
            n == g@.len(),
            n >= 2,
            is_grid(g@, n as int, n as int),
            capped(g@),
            1 <= s <= MAX_SCALE,
            si == s,
            side == (n - 1) * s,
            x <= side,
            r@.len() == x,
            columns_of(r@, side as int),
            capped(r@),
            forall|i: int, j: int|
                0 <= i < x && 0 <= j < side ==> #[trigger] cell(r@, i, j) == blend_value(
                    g@,
                    s as int,
                    i,
                    j,
                ),
        decreases side - x,
    {
        let x1: usize = x / s;
        let a: usize = x % s;
        proof {
            assert(x1 < n - 1) by (nonlinear_arith)
                requires
                    x < (n - 1) * s,
                    x1 == x / s,
                    s >= 1,
            ;
        }
        let c1 = &g[x1];
        let c2 = &g[x1 + 1];
        let mut col: Vec<i64> = Vec::new();
        let mut y: usize = 0;
        while y < side
            invariant
                n == g@.len(),
                is_grid(g@, n as int, n as int),
                capped(g@),
                1 <= s <= MAX_SCALE,
                si == s,
                side == (n - 1) * s,
                x < side,
                x1 == x as int / s as int,
                a == x as int % s as int,
                x1 < n - 1,
                c1@ == g@[x1 as int]@,
                c2@ == g@[x1 + 1]@,
                y <= side,
                col@.len() == y,
                forall|j: int|
                    0 <= j < y ==> -HEIGHT_CAP <= #[trigger] col@[j] <= HEIGHT_CAP && col@[j]
                        == blend_value(g@, s as int, x as int, j),
            decreases side - y,
        {
            let y1: usize = y / s;
            let b: usize = y % s;
            proof {
                assert(y1 < n - 1) by (nonlinear_arith)
                    requires
                        y < (n - 1) * s,
                        y1 == y / s,
                        s >= 1,
                ;
                assert(c1@.len() == n && c2@.len() == n);
                assert(-HEIGHT_CAP <= cell(g@, x1 as int, y1 as int) <= HEIGHT_CAP);
                assert(-HEIGHT_CAP <= cell(g@, x1 + 1, y1 as int) <= HEIGHT_CAP);
                assert(-HEIGHT_CAP <= cell(g@, x1 as int, y1 + 1) <= HEIGHT_CAP);
                assert(-HEIGHT_CAP <= cell(g@, x1 + 1, y1 + 1) <= HEIGHT_CAP);
                lemma_blend_bound(
                    cell(g@, x1 as int, y1 as int) as int,
                    cell(g@, x1 + 1, y1 as int) as int,
                    cell(g@, x1 as int, y1 + 1) as int,
                    cell(g@, x1 + 1, y1 + 1) as int,
                    s as int,
                    a as int,
                    b as int,
                );
            }
            let ai = a as i64;
            let bi = b as i64;
            let v11 = c1[y1];
            let v21 = c2[y1];
            let v12 = c1[y1 + 1];
            let v22 = c2[y1 + 1];
            proof {
                assert(0 <= (si - ai) * (si - bi) <= 256) by (nonlinear_arith)
                    requires
                        0 <= ai < si <= 16,
                        0 <= bi < si,
                ;
                assert(0 <= ai * (si - bi) <= 256) by (nonlinear_arith)
                    requires
                        0 <= ai < si <= 16,
                        0 <= bi < si,
                ;
                assert(0 <= (si - ai) * bi <= 256) by (nonlinear_arith)
                    requires
                        0 <= ai < si <= 16,
                        0 <= bi < si,
                ;
                assert(0 <= ai * bi <= 256) by (nonlinear_arith)
                    requires
                        0 <= ai < si <= 16,
                        0 <= bi < si,
                ;
                assert(-HEIGHT_CAP * 256 <= v11 * ((si - ai) * (si - bi)) <= HEIGHT_CAP * 256)
                    by (nonlinear_arith)
                    requires
                        -HEIGHT_CAP <= v11 <= HEIGHT_CAP,
                        0 <= (si - ai) * (si - bi) <= 256,
                ;
                assert(-HEIGHT_CAP * 256 <= v21 * (ai * (si - bi)) <= HEIGHT_CAP * 256)
                    by (nonlinear_arith)
                    requires
                        -HEIGHT_CAP <= v21 <= HEIGHT_CAP,
                        0 <= ai * (si - bi) <= 256,
                ;
                assert(-HEIGHT_CAP * 256 <= v12 * ((si - ai) * bi) <= HEIGHT_CAP * 256)
                    by (nonlinear_arith)
                    requires
                        -HEIGHT_CAP <= v12 <= HEIGHT_CAP,
                        0 <= (si - ai) * bi <= 256,
                ;
                assert(-HEIGHT_CAP * 256 <= v22 * (ai * bi) <= HEIGHT_CAP * 256)
                    by (nonlinear_arith)
                    requires
                        -HEIGHT_CAP <= v22 <= HEIGHT_CAP,
                        0 <= ai * bi <= 256,
                ;
                assert(v11 * ((si - ai) * (si - bi)) == v11 * (si - ai) * (si - bi))
                    by (nonlinear_arith);
                assert(v21 * (ai * (si - bi)) == v21 * ai * (si - bi)) by (nonlinear_arith);
                assert(v12 * ((si - ai) * bi) == v12 * (si - ai) * bi) by (nonlinear_arith);
                assert(v22 * (ai * bi) == v22 * ai * bi) by (nonlinear_arith);
            }
            let sum: i64 = v11 * ((si - ai) * (si - bi)) + v21 * (ai * (si - bi)) + v12 * ((si
                - ai) * bi) + v22 * (ai * bi);
            proof {
                assert(si * si <= 256) by (nonlinear_arith)
                    requires
                        1 <= si <= 16,
                ;
                assert(si * si >= 1) by (nonlinear_arith)
                    requires
                        1 <= si <= 16,
                ;
            }
            let div: i64 = 4 * (si * si);
            let v = div_floor(sum, div);
            proof {
                assert(sum == blend_sum(g@, s as int, x as int, y as int));
                assert(s * s > 0) by (nonlinear_arith)
                    requires
                        s >= 1,
                ;
                let ss = s as int * s as int;
                assert(-HEIGHT_CAP * s * s == -HEIGHT_CAP * ss) by (nonlinear_arith)
                    requires
                        ss == s as int * s as int,
                ;
                assert(HEIGHT_CAP * s * s == HEIGHT_CAP * ss) by (nonlinear_arith)
                    requires
                        ss == s as int * s as int,
                ;
                assert(div == 4 * ss) by (nonlinear_arith)
                    requires
                        div == 4 * (si * si),
                        si == s,
                        ss == s as int * s as int,
                ;
                assert(4 * s * s == 4 * ss) by (nonlinear_arith)
                    requires
                        ss == s as int * s as int,
                ;
                assert(-HEIGHT_CAP <= sum as int / div as int <= HEIGHT_CAP) by (nonlinear_arith)
                    requires
                        -HEIGHT_CAP * ss <= sum <= HEIGHT_CAP * ss,
                        div == 4 * ss,
                        ss > 0,
                ;
            }
            col.push(v);
            y = y + 1;
        }
        let ghost prev = r@;
        r.push(col);
        proof {
            assert forall|i: int, j: int|
                0 <= i < r@.len() && 0 <= j < r@[i]@.len() implies -HEIGHT_CAP <= #[trigger] cell(
                r@,
                i,
                j,
            ) <= HEIGHT_CAP by {
                if i < x {
                    assert(r@[i] == prev[i]);
                    assert(-HEIGHT_CAP <= cell(prev, i, j) <= HEIGHT_CAP);
                } else {
                    assert(r@[i]@ == col@);
                    assert(-HEIGHT_CAP <= col@[j] <= HEIGHT_CAP);
                }
            }
            assert forall|i: int, j: int|
                0 <= i < x + 1 && 0 <= j < side implies #[trigger] cell(r@, i, j) == blend_value(
                g@,
                s as int,
                i,
                j,
            ) by {
                if i < x {
                    assert(r@[i] == prev[i]);
                    assert(cell(prev, i, j) == blend_value(g@, s as int, i, j));
                } else {
                    assert(r@[i]@ == col@);
                    assert(col@[j] == blend_value(g@, s as int, x as int, j));
                }
            }
        }
        x = x + 1;
    }
    r
}

/// Side of the smoothing window.
pub const WINDOW: usize = 7;

/// Divisor that turns a smoothing sum back into a height: the kernel counts in
/// units of `1e-8`.
pub const SMOOTH_DIVISOR: i64 = 100_000_000;

/// The largest kernel weight.
pub const KERNEL_MAX: i64 = 22_508_352;

pub open spec fn center_dist(i: int) -> int {
    if i >= 3 {
        i - 3
    } else {
        3 - i
    }
}

/// Weight of the normalised 7 by 7 Gaussian kernel for the distances `p <= q`
/// from its center, in units of `1e-8`.
pub open spec fn kernel_profile(p: int, q: int) -> int {
    if p == 0 {
        if q == 0 {
            22_508_352
        } else if q == 1 {
            11_098_164
        } else if q == 2 {
            1_330_373
        } else {
            38_771
        }
    } else if p == 1 {
        if q == 1 {
            5_472_157
        } else if q == 2 {
            655_965
        } else {
            19_117
        }
    } else if p == 2 {
        if q == 2 {
            78_633
        } else {
            2_292
        }
    } else {
        67
    }
}

/// Kernel weight at window position `(i, j)`, `0 <= i, j < 7`.
pub open spec fn kernel_weight(i: int, j: int) -> int {
    let a = center_dist(i);
    let b = center_dist(j);
    if a <= b {
        kernel_profile(a, b)
    } else {
        kernel_profile(b, a)
    }
}

fn kernel_at(i: usize, j: usize) -> (r: i64)
    requires
        i < WINDOW,
        j < WINDOW,
    ensures
        r == kernel_weight(i as int, j as int),
        0 < r <= KERNEL_MAX,
{
    let a: usize = if i >= 3 { i - 3 } else { 3 - i };
    let b: usize = if j >= 3 { j - 3 } else { 3 - j };
    let p: usize = if a <= b { a } else { b };
    let q: usize = if a <= b { b } else { a };
    if p == 0 {
        if q == 0 {
            22_508_352
        } else if q == 1 {
            11_098_164
        } else if q == 2 {
            1_330_373
        } else {
            38_771
        }
    } else if p == 1 {
        if q == 1 {
            5_472_157
        } else if q == 2 {
            655_965
        } else {
            19_117
        }
    } else if p == 2 {
        if q == 2 {
            78_633
        } else {
            2_292
        }
    } else {
        67
    }
}

/// Contribution of window position `k` (row-major over the 7 by 7 window) to the
/// smoothing sum of cell `(x, y)`: the weighted height of the cell under it, or
/// nothing where that cell lies outside the grid.
pub open spec fn window_term(g: Seq<Vec<i64>>, w: int, h: int, x: int, y: int, k: int) -> int {
    let i = k / 7;
    let j = k % 7;
    let xx = x + i - 3;
    let yy = y + j - 3;
    if 0 <= xx < w && 0 <= yy < h {
        cell(g, xx, yy) * kernel_weight(i, j)
    } else {
        0
    }
}

/// Sum of the first `k` window terms of cell `(x, y)`.
pub open spec fn window_sum(g: Seq<Vec<i64>>, w: int, h: int, x: int, y: int, k: int) -> int
    decreases k,
{
    if k <= 0 {
        0
    } else {
        window_sum(g, w, h, x, y, k - 1) + window_term(g, w, h, x, y, k - 1)
    }
}

/// Cell `(x, y)` of the smoothed grid, rounded down.
pub open spec fn smooth_value(g: Seq<Vec<i64>>, w: int, h: int, x: int, y: int) -> int {
    window_sum(g, w, h, x, y, 49) / SMOOTH_DIVISOR as int
}

/// Largest side of a grid the smoother takes.
pub const MAX_SIDE: usize = 1_000_000;

fn smooth_cell(g: &HeightMap, w: usize, h: usize, x: usize, y: usize) -> (r: i64)
    requires
        is_grid(g@, w as int, h as int),
        capped(g@),
        w <= MAX_SIDE,
        h <= MAX_SIDE,
        x < w,
        y < h,
    ensures
        r == smooth_value(g@, w as int, h as int, x as int, y as int),
{
    let bound: i64 = HEIGHT_CAP * KERNEL_MAX;
    let mut acc: i64 = 0;
    let mut k: usize = 0;
    while k < 49
        invariant
            is_grid(g@, w as int, h as int),
            capped(g@),
            w <= MAX_SIDE,
            h <= MAX_SIDE,
            x < w,
            y < h,
            bound == HEIGHT_CAP * KERNEL_MAX,
            k <= 49,
            acc == window_sum(g@, w as int, h as int, x as int, y as int, k as int),
            -(k as int) * bound <= acc <= k * bound,
        decreases 49 - k,
    {
        let i: usize = k / 7;
        let j: usize = k % 7;
        let xx: i64 = x as i64 + i as i64 - 3;
        let yy: i64 = y as i64 + j as i64 - 3;
        let mut term: i64 = 0;
        if 0 <= xx && xx < w as i64 && 0 <= yy && yy < h as i64 {
            let v = g[xx as usize][yy as usize];
            let kw = kernel_at(i, j);
            proof {
                assert(-HEIGHT_CAP <= cell(g@, xx as int, yy as int) <= HEIGHT_CAP);
                assert(-bound <= v * kw <= bound) by (nonlinear_arith)
                    requires
                        -HEIGHT_CAP <= v <= HEIGHT_CAP,
                        0 < kw <= KERNEL_MAX,
                        bound == HEIGHT_CAP * KERNEL_MAX,
                ;
            }
            term = v * kw;
        }
        proof {
            assert(term == window_term(g@, w as int, h as int, x as int, y as int, k as int));
            assert(-(k as int + 1) * bound == -(k as int) * bound - bound) by (nonlinear_arith);
            assert((k as int + 1) * bound == (k as int) * bound + bound) by (nonlinear_arith);
            assert(-bound <= term <= bound);
            assert(bound == 22_508_352_000_000_000);
            assert(-(k as int + 1) * bound <= acc + term <= (k as int + 1) * bound);
            assert((k as int + 1) * bound <= 49 * bound) by (nonlinear_arith)
                requires
                    k < 49,
                    bound > 0,
            ;
        }
        acc = acc + term;
        k = k + 1;
    }
    div_floor(acc, SMOOTH_DIVISOR)
}

/// Smooths a `w` by `h` grid with the 7 by 7 Gaussian kernel. Window cells outside
/// the grid are left out, their weight dropped rather than spread over the rest.
pub fn gauss_smooth(g: &HeightMap, w: usize, h: usize) -> (r: HeightMap)
    requires
        is_grid(g@, w as int, h as int),
        capped(g@),
        w <= MAX_SIDE,
        h <= MAX_SIDE,
    ensures
        is_grid(r@, w as int, h as int),
        forall|x: int, y: int|
            0 <= x < w && 0 <= y < h ==> #[trigger] cell(r@, x, y) == smooth_value(
                g@,
                w as int,
                h as int,
                x,
                y,
            ),
{
    let mut r: HeightMap = Vec::new();
    let mut x: usize = 0;
    while x < w
        invariant
            is_grid(g@, w as int, h as int),
            capped(g@),
            w <= MAX_SIDE,
            h <= MAX_SIDE,
            x <= w,
            r@.len() == x,
            columns_of(r@, h as int),
            forall|i: int, j: int|
                0 <= i < x && 0 <= j < h ==> #[trigger] cell(r@, i, j) == smooth_value(
                    g@,
                    w as int,
                    h as int,
                    i,
                    j,
                ),
        decreases w - x,
    {
        let mut col: Vec<i64> = Vec::new();
        let mut y: usize = 0;
        while y < h
            invariant
                is_grid(g@, w as int, h as int),
                capped(g@),
                w <= MAX_SIDE,
                h <= MAX_SIDE,
                x < w,
                y <= h,
                col@.len() == y,
                forall|j: int|
                    0 <= j < y ==> #[trigger] col@[j] == smooth_value(
                        g@,
                        w as int,
                        h as int,
                        x as int,
                        j,
                    ),
            decreases h - y,
        {
            let v = smooth_cell(g, w, h, x, y);
            col.push(v);
            y = y + 1;
        }
        let ghost prev = r@;
        r.push(col);
        proof {
            assert forall|i: int, j: int|
                0 <= i < x + 1 && 0 <= j < h implies #[trigger] cell(r@, i, j) == smooth_value(
                g@,
                w as int,
                h as int,
                i,
                j,
            ) by {
                if i < x {
                    assert(r@[i] == prev[i]);
                    assert(cell(prev, i, j) == smooth_value(g@, w as int, h as int, i, j));
                } else {
                    assert(r@[i]@ == col@);
                    assert(col@[j] == smooth_value(g@, w as int, h as int, x as int, j));
                }
            }
        }
        x = x + 1;
    }
    r
}

/// Height given to the reserved border ring of a synthesized grid: water.
pub const BORDER_HEIGHT: i64 = -100_000;

/// `v` brought into `[-HEIGHT_CAP, HEIGHT_CAP]`.
pub open spec fn clamp_height(v: int) -> int {
    if v < -HEIGHT_CAP {
        -HEIGHT_CAP as int
    } else if v > HEIGHT_CAP {
        HEIGHT_CAP as int
    } else {
        v
    }
}

/// Amplitude of the random offsets at recursion depth `d`: one tenth of a unit
/// height times `2^(-d / 10)`, in fixed point.
pub open spec fn amplitude(d: nat) -> int
    decreases d,
{
    if d >= 10 {
        amplitude((d - 10) as nat) / 2
    } else {
        seq![100_000int, 93_303, 87_055, 81_225, 75_786, 70_711, 65_975, 61_557, 57_435, 53_589][d as int]
    }
}

fn offset_amplitude(d: usize) -> (r: i64)
    ensures
        r == amplitude(d as nat),
        0 <= r <= 100_000,
    decreases d,
{
    if d >= 10 {
        offset_amplitude(d - 10) / 2
    } else {
        let table: [i64; 10] = [
            100_000,
            93_303,
            87_055,
            81_225,
            75_786,
            70_711,
            65_975,
            61_557,
            57_435,
            53_589,
        ];
        proof {
            assert(table@ =~= seq![100_000i64, 93_303, 87_055, 81_225, 75_786, 70_711, 65_975, 61_557, 57_435, 53_589]);
        }
        table[d]
    }
}

/// Random draws handed to midpoint displacement lie in `[-OFFSET_UNIT, OFFSET_UNIT)`,
/// standing for `[-1, 1)`.
pub const OFFSET_UNIT: i64 = 1_000_000;

/// Every draw lies in `[-OFFSET_UNIT, OFFSET_UNIT]`.
pub open spec fn draws_bounded(raw: Seq<i64>) -> bool {
    forall|i: int| 0 <= i < raw.len() ==> -OFFSET_UNIT <= #[trigger] raw[i] <= OFFSET_UNIT
}

/// The grid's columns as sequences.
pub open spec fn grid_view(g: Seq<Vec<i64>>) -> Seq<Seq<i64>> {
    g.map_values(|c: Vec<i64>| c@)
}

/// `m` with `v` added to cell `(x, y)`, the sum kept within the cap.
pub open spec fn accumulate(m: Seq<Seq<i64>>, x: int, y: int, v: int) -> Seq<Seq<i64>> {
    m.update(x, m[x].update(y, clamp_height(m[x][y] + v) as i64))
}

/// The offset that draw `r` gives at depth `d`: `r / OFFSET_UNIT` of the depth's
/// amplitude, rounded down.
pub open spec fn scaled_offset(r: int, d: nat) -> int {
    r * amplitude(d) / (OFFSET_UNIT as int)
}

/// Number of areas midpoint displacement works on (those at least two cells
/// wide and high) for an area `w` by `h`, itself included.
pub open spec fn calls(w: nat, h: nat) -> nat
    decreases w + h,
{
    if w < 2 || h < 2 {
        0
    } else {
        1 + calls(w / 2, h / 2) + calls(w / 2, (h - h / 2) as nat) + calls((w - w / 2) as nat, h / 2)
            + calls((w - w / 2) as nat, (h - h / 2) as nat)
    }
}

/// One level of midpoint displacement over the area `[x0, x0 + w] x [y0, y0 + h]`
/// of `m`: the center and the four edge midpoints, with the draws `raw[k..k + 5]`.
pub open spec fn displacement_step(
    m: Seq<Seq<i64>>,
    x0: int,
    y0: int,
    w: nat,
    h: nat,
    d: nat,
    raw: Seq<i64>,
    k: int,
) -> Seq<Seq<i64>> {
    let x1 = x0 + w;
    let y1 = y0 + h;
    let cx = x0 + w / 2;
    let cy = y0 + h / 2;
    let ul = m[x0][y0] as int;
    let ll = m[x0][y1] as int;
    let ur = m[x1][y0] as int;
    let lr = m[x1][y1] as int;
    let center = (ul + ur + ll + lr) / 4 + scaled_offset(raw[k] as int, d);
    let west = (ul + ll + 2 * center) / 4 + scaled_offset(raw[k + 1] as int, d);
    let north = (ul + ur + 2 * center) / 4 + scaled_offset(raw[k + 2] as int, d);
    let east = (ur + lr + 2 * center) / 4 + scaled_offset(raw[k + 3] as int, d);
    let south = (lr + ll + 2 * center) / 4 + scaled_offset(raw[k + 4] as int, d);
    accumulate(
        accumulate(
            accumulate(accumulate(accumulate(m, cx, cy, center), x0, cy, west), cx, y0, north),
            x1,
            cy,
            east,
        ),
        cx,
        y1,
        south,
    )
}

/// Midpoint displacement over the area `[x0, x0 + w] x [y0, y0 + h]` of `m` at
/// depth `d`, taking its offsets from `raw` starting at index `k`, five per area.
/// Areas narrower than two cells are left alone. Otherwise the center receives
/// the corners' average plus an offset; each edge midpoint (west, north, east,
/// south) receives the average of its two corners and twice the center plus its
/// own offset, all added to what the cells held; then the four quarters follow
/// one level deeper.
#[verifier::opaque]
pub open spec fn displacement(
    m: Seq<Seq<i64>>,
    x0: int,
    y0: int,
    w: nat,
    h: nat,
    d: nat,
    raw: Seq<i64>,
    k: int,
) -> Seq<Seq<i64>>
    decreases w + h,
{
    if w < 2 || h < 2 {
        m
    } else {
        let cx = x0 + w / 2;
        let cy = y0 + h / 2;
        let m1 = displacement_step(m, x0, y0, w, h, d, raw, k);
        let wa = w / 2;
        let wb = (w - w / 2) as nat;
        let ha = h / 2;
        let hb = (h - h / 2) as nat;
        let k1 = k + 5;
        let k2 = k1 + 5 * calls(wa, ha);
        let k3 = k2 + 5 * calls(wa, hb);
        let k4 = k3 + 5 * calls(wb, ha);
        let m2 = displacement(m1, x0, y0, wa, ha, d + 1, raw, k1);
        let m3 = displacement(m2, x0, cy, wa, hb, d + 1, raw, k2);
        let m4 = displacement(m3, cx, y0, wb, ha, d + 1, raw, k3);
        displacement(m4, cx, cy, wb, hb, d + 1, raw, k4)
    }
}

proof fn lemma_calls_bound(w: nat, h: nat)
    requires
        w >= 1,
        h >= 1,
    ensures
        calls(w, h) + 1 <= w * h,
    decreases w + h,
{
    if w >= 2 && h >= 2 {
        let wa = w / 2;
        let wb = (w - w / 2) as nat;
        let ha = h / 2;
        let hb = (h - h / 2) as nat;
        lemma_calls_bound(wa, ha);
        lemma_calls_bound(wa, hb);
        lemma_calls_bound(wb, ha);
        lemma_calls_bound(wb, hb);
        assert(wa * ha + wa * hb + wb * ha + wb * hb == w * h) by (nonlinear_arith)
            requires
                wa + wb == w,
                ha + hb == h,
        ;
    } else {
        assert(w * h >= 1) by (nonlinear_arith)
            requires
                w >= 1,
                h >= 1,
        ;
    }
}

/// The offset that draw `r` gives at depth `d`.
fn offset_at(r: i64, d: usize) -> (o: i64)
    requires
        -OFFSET_UNIT <= r <= OFFSET_UNIT,
    ensures
        o == scaled_offset(r as int, d as nat),
        -100_000 <= o <= 100_000,
{
    let a = offset_amplitude(d);
    proof {
        assert(-100_000_000_000 <= r * a <= 100_000_000_000) by (nonlinear_arith)
            requires
                -OFFSET_UNIT <= r <= OFFSET_UNIT,
                0 <= a <= 100_000,
        ;
    }
    let o = div_floor(r * a, OFFSET_UNIT);
    proof {
        assert(-100_000 <= o <= 100_000) by (nonlinear_arith)
            requires
                o == (r * a) / (OFFSET_UNIT as int),
                -OFFSET_UNIT <= r <= OFFSET_UNIT,
                0 <= a <= 100_000,
        ;
    }
    o
}

/// Adds `v` to cell `(x, y)` of a square grid, keeping the result within the cap.
fn add_to_cell(g: &mut HeightMap, n: usize, x: usize, y: usize, v: i64)
    requires
        is_grid(old(g)@, n as int, n as int),
        capped(old(g)@),
        x < n,
        y < n,
        -2 * HEIGHT_CAP <= v <= 2 * HEIGHT_CAP,
    ensures
        is_grid(final(g)@, n as int, n as int),
        capped(final(g)@),
        grid_view(final(g)@) == accumulate(grid_view(old(g)@), x as int, y as int, v as int),
{
    let mut col = g[x].clone();
    assert(col@ == old(g)@[x as int]@);
    assert(-HEIGHT_CAP <= cell(old(g)@, x as int, y as int) <= HEIGHT_CAP);
    let sum = col[y] + v;
    let nv = if sum < -HEIGHT_CAP {
        -HEIGHT_CAP
    } else if sum > HEIGHT_CAP {
        HEIGHT_CAP
    } else {
        sum
    };
    col.set(y, nv);
    g.set(x, col);
    proof {
        assert forall|i: int, j: int|
            0 <= i < g@.len() && 0 <= j < g@[i]@.len() implies -HEIGHT_CAP <= #[trigger] cell(
            g@,
            i,
            j,
        ) <= HEIGHT_CAP by {
            if i != x {
                assert(cell(g@, i, j) == cell(old(g)@, i, j));
            } else if j != y {
                assert(cell(g@, i, j) == cell(old(g)@, i, j));
            }
        }
        let m = grid_view(old(g)@);
        assert(m[x as int] == old(g)@[x as int]@);
        assert(grid_view(g@) =~~= accumulate(m, x as int, y as int, v as int));
    }
}

/// Average of two corners and twice the center, rounded down.
fn edge_value(a: i64, b: i64, center: i64) -> (r: i64)
    requires
        -HEIGHT_CAP <= a <= HEIGHT_CAP,
        -HEIGHT_CAP <= b <= HEIGHT_CAP,
        -HEIGHT_CAP - 100_000 <= center <= HEIGHT_CAP + 100_000,
    ensures
        r == (a + b + 2 * center) / 4,
        -HEIGHT_CAP - 50_000 <= r <= HEIGHT_CAP + 50_000,
{
    div_floor(a + b + 2 * center, 4)
}

/// One level of midpoint displacement, as `displacement_step` states.
fn displace_step(
    g: &mut HeightMap,
    n: usize,
    x0: usize,
    y0: usize,
    w: usize,
    h: usize,
    depth: usize,
    raw: &Vec<i64>,
    k: usize,
)
    requires
        is_grid(old(g)@, n as int, n as int),
        capped(old(g)@),
        x0 + w < n,
        y0 + h < n,
        w >= 2,
        h >= 2,
        k + 5 <= raw@.len(),
        draws_bounded(raw@),
    ensures
        is_grid(final(g)@, n as int, n as int),
        capped(final(g)@),
        grid_view(final(g)@) == displacement_step(
            grid_view(old(g)@),
            x0 as int,
            y0 as int,
            w as nat,
            h as nat,
            depth as nat,
            raw@,
            k as int,
        ),
{
    let len = raw.len();
    let ghost m = grid_view(g@);
    let x1 = x0 + w;
    let y1 = y0 + h;
    let cx = x0 + w / 2;
    let cy = y0 + h / 2;
    assert(g@[x0 as int]@.len() == n && g@[x1 as int]@.len() == n);
    assert(-HEIGHT_CAP <= cell(g@, x0 as int, y0 as int) <= HEIGHT_CAP);
    assert(-HEIGHT_CAP <= cell(g@, x0 as int, y1 as int) <= HEIGHT_CAP);
    assert(-HEIGHT_CAP <= cell(g@, x1 as int, y0 as int) <= HEIGHT_CAP);
    assert(-HEIGHT_CAP <= cell(g@, x1 as int, y1 as int) <= HEIGHT_CAP);
    assert(m[x0 as int] == g@[x0 as int]@ && m[x1 as int] == g@[x1 as int]@);
    let upper_left = g[x0][y0];
    let lower_left = g[x0][y1];
    let upper_right = g[x1][y0];
    let lower_right = g[x1][y1];
    let avg = div_floor(upper_left + upper_right + lower_left + lower_right, 4);
    assert(-HEIGHT_CAP <= avg <= HEIGHT_CAP);
    let center = avg + offset_at(raw[k], depth);
    let west = edge_value(upper_left, lower_left, center) + offset_at(raw[k + 1], depth);
    let north = edge_value(upper_left, upper_right, center) + offset_at(raw[k + 2], depth);
    let east = edge_value(upper_right, lower_right, center) + offset_at(raw[k + 3], depth);
    let south = edge_value(lower_right, lower_left, center) + offset_at(raw[k + 4], depth);
    add_to_cell(g, n, cx, cy, center);
    add_to_cell(g, n, x0, cy, west);
    add_to_cell(g, n, cx, y0, north);
    add_to_cell(g, n, x1, cy, east);
    add_to_cell(g, n, cx, y1, south);
}

/// Midpoint displacement over the area `[x0, x0 + w] x [y0, y0 + h]` of a square
/// grid of side `n` at depth `depth`, with offsets from `raw` starting at index
/// `k`, as `displacement` states. Returns the index of the first draw not used.
#[verifier::rlimit(100)]
pub fn diamond_square(
    g: &mut HeightMap,
    n: usize,
    x0: usize,
    y0: usize,
    w: usize,
    h: usize,
    depth: usize,
    raw: &Vec<i64>,
    k: usize,
) -> (next: usize)
    requires
        is_grid(old(g)@, n as int, n as int),
        capped(old(g)@),
        x0 + w < n,
        y0 + h < n,
        depth + w + h < usize::MAX,
        k + 5 * calls(w as nat, h as nat) <= raw@.len(),
        draws_bounded(raw@),
    ensures
        is_grid(final(g)@, n as int, n as int),
        capped(final(g)@),
        grid_view(final(g)@) == displacement(
            grid_view(old(g)@),
            x0 as int,
            y0 as int,
            w as nat,
            h as nat,
            depth as nat,
            raw@,
            k as int,
        ),
        next == k + 5 * calls(w as nat, h as nat),
    decreases w + h,
{
    if w < 2 || h < 2 {
        proof {
            reveal(displacement);
        }
        return k;
    }
    let len = raw.len();
    let ghost m = grid_view(g@);
    let ghost wa = w as nat / 2;
    let ghost wb = (w - w / 2) as nat;
    let ghost ha = h as nat / 2;
    let ghost hb = (h - h / 2) as nat;
    assert(calls(w as nat, h as nat) == 1 + calls(wa, ha) + calls(wa, hb) + calls(wb, ha) + calls(wb, hb));
    assert(k + 5 <= len);
    displace_step(g, n, x0, y0, w, h, depth, raw, k);
    let ghost m1 = grid_view(g@);
    let x1 = x0 + w;
    let y1 = y0 + h;
    let cx = x0 + w / 2;
    let cy = y0 + h / 2;
    let k1 = diamond_square(g, n, x0, y0, cx - x0, cy - y0, depth + 1, raw, k + 5);
    let ghost m2 = grid_view(g@);
    let k2 = diamond_square(g, n, x0, cy, cx - x0, y1 - cy, depth + 1, raw, k1);
    let ghost m3 = grid_view(g@);
    let k3 = diamond_square(g, n, cx, y0, x1 - cx, cy - y0, depth + 1, raw, k2);
    let ghost m4 = grid_view(g@);
    proof {
        assert(m1 == displacement_step(m, x0 as int, y0 as int, w as nat, h as nat, depth as nat, raw@, k as int));
        assert(m2 == displacement(m1, x0 as int, y0 as int, wa, ha, depth as nat + 1, raw@, k + 5));
        assert(m3 == displacement(m2, x0 as int, cy as int, wa, hb, depth as nat + 1, raw@, k1 as int));
        assert(m4 == displacement(m3, cx as int, y0 as int, wb, ha, depth as nat + 1, raw@, k2 as int));
        assert(displacement(m, x0 as int, y0 as int, w as nat, h as nat, depth as nat, raw@, k as int)
            == displacement(m4, cx as int, cy as int, wb, hb, depth as nat + 1, raw@, k3 as int)) by {
            reveal(displacement);
        }
    }
    diamond_square(g, n, cx, cy, x1 - cx, y1 - cy, depth + 1, raw, k3)
}

pub open spec fn pow2(e: nat) -> nat
    decreases e,
{
    if e == 0 {
        1
    } else {
        2 * pow2((e - 1) as nat)
    }
}

/// Cell `(x, y)` lies on the outer ring of a square grid of side `n`.
pub open spec fn on_border(n: int, x: int, y: int) -> bool {
    x == 0 || y == 0 || x == n - 1 || y == n - 1
}

/// Sets cell `(x, y)` of a square grid.
fn set_cell(g: &mut HeightMap, n: usize, x: usize, y: usize, v: i64)
    requires
        is_grid(old(g)@, n as int, n as int),
        x < n,
        y < n,
    ensures
        is_grid(final(g)@, n as int, n as int),
        cell(final(g)@, x as int, y as int) == v,
        forall|i: int, j: int|
            0 <= i < n && 0 <= j < n && (i != x || j != y) ==> #[trigger] cell(final(g)@, i, j)
                == cell(old(g)@, i, j),
{
    let mut col = g[x].clone();
    assert(col@ == old(g)@[x as int]@);
    col.set(y, v);
    g.set(x, col);
    proof {
        assert forall|i: int, j: int|
            0 <= i < n && 0 <= j < n && (i != x || j != y) implies #[trigger] cell(g@, i, j)
            == cell(old(g)@, i, j) by {
            if i == x {
                assert(g@[i]@ == col@);
            }
        }
    }
}

/// The square grid of side `n` with every cell zero.
pub open spec fn zero_grid(n: int) -> Seq<Seq<i64>> {
    Seq::new(n as nat, |x: int| Seq::new(n as nat, |y: int| 0i64))
}

/// `g` is the fractal grid of side `n = 2^exp + 3` grown from the draws `raw`:
/// midpoint displacement over the interior `[1, n - 2]`, whose four corners keep
/// their seed height of zero, and the outer ring set to water.
pub open spec fn is_synthesized(g: Seq<Vec<i64>>, exp: nat, raw: Seq<i64>) -> bool {
    let n = pow2(exp) + 3int;
    let m = displacement(zero_grid(n), 1, 1, (n - 3) as nat, (n - 3) as nat, 0, raw, 0);
    &&& is_grid(g, n, n)
    &&& forall|x: int, y: int|
        0 <= x < n && 0 <= y < n ==> #[trigger] cell(g, x, y) == if on_border(n, x, y) {
            BORDER_HEIGHT
        } else {
            m[x][y]
        }
}

/// Two grids grown from the same exponent and the same draws are identical.
pub proof fn lemma_synthesis_deterministic(a: Seq<Vec<i64>>, b: Seq<Vec<i64>>, exp: nat, raw: Seq<i64>)
    requires
        is_synthesized(a, exp, raw),
        is_synthesized(b, exp, raw),
    ensures
        grid_view(a) == grid_view(b),
{
    let n = pow2(exp) + 3int;
    assert forall|x: int| 0 <= x < n implies grid_view(a)[x] =~= grid_view(b)[x] by {
        assert forall|y: int| 0 <= y < n implies grid_view(a)[x][y] == grid_view(b)[x][y] by {
            assert(cell(a, x, y) == cell(b, x, y));
        }
    }
    assert(grid_view(a) =~= grid_view(b));
}

fn side_of(exp: u32) -> (n: usize)
    requires
        1 <= exp <= 10,
    ensures
        n == pow2(exp as nat) + 3,
        5 <= n <= 1027,
{
    proof {
        reveal_with_fuel(pow2, 11);
        lemma_pow2_mono(1, exp as nat);
        lemma_pow2_mono(exp as nat, 10);
    }
    let mut p: usize = 1;
    let mut e: u32 = 0;
    while e < exp
        invariant
            e <= exp <= 16,
            p == pow2(e as nat),
            p <= 65536,
        decreases exp - e,
    {
        proof {
            assert(pow2(e as nat) <= 32768) by {
                reveal_with_fuel(pow2, 16);
                lemma_pow2_mono(e as nat, 15);
            }
        }
        p = p * 2;
        e = e + 1;
    }
    p + 3
}

/// The fractal grid of side `2^exp + 3` grown from the draws `raw`.
pub fn synthesize_from(exp: u32, raw: &Vec<i64>) -> (g: HeightMap)
    requires
        1 <= exp <= 10,
        raw@.len() >= 5 * (pow2(exp as nat) + 3) * (pow2(exp as nat) + 3),
        draws_bounded(raw@),
    ensures
        is_synthesized(g@, exp as nat, raw@),
        capped(g@),
{
    let n = side_of(exp);
    let mut g: HeightMap = Vec::new();
    let mut x: usize = 0;
    while x < n
        invariant
            x <= n,
            g@.len() == x,
            columns_of(g@, n as int),
            forall|i: int, j: int| 0 <= i < x && 0 <= j < n ==> #[trigger] cell(g@, i, j) == 0,
        decreases n - x,
    {
        let mut col: Vec<i64> = Vec::new();
        let mut y: usize = 0;
        while y < n
            invariant
                y <= n,
                col@.len() == y,
                forall|j: int| 0 <= j < y ==> col@[j] == 0,
            decreases n - y,
        {
            col.push(0);
            y = y + 1;
        }
        let ghost prev = g@;
        g.push(col);
        proof {
            assert forall|i: int, j: int| 0 <= i < x + 1 && 0 <= j < n implies #[trigger] cell(
                g@,
                i,
                j,
            ) == 0 by {
                if i < x {
                    assert(g@[i] == prev[i]);
                    assert(cell(prev, i, j) == 0);
                } else {
                    assert(g@[i]@ == col@);
                }
            }
        }
        x = x + 1;
    }
    proof {
        assert forall|i: int| 0 <= i < n implies grid_view(g@)[i] =~= zero_grid(n as int)[i] by {
            assert forall|j: int| 0 <= j < n implies grid_view(g@)[i][j] == zero_grid(n as int)[i][j] by {
                assert(cell(g@, i, j) == 0);
            }
        }
        assert(grid_view(g@) =~= zero_grid(n as int));
        lemma_calls_bound((n - 3) as nat, (n - 3) as nat);
        assert(5 * calls((n - 3) as nat, (n - 3) as nat) <= 5 * n * n) by (nonlinear_arith)
            requires
                n >= 5,
                calls((n - 3) as nat, (n - 3) as nat) + 1 <= (n - 3) * (n - 3),
        ;
    }
    diamond_square(&mut g, n, 1, 1, n - 3, n - 3, 0, raw, 0);
    let ghost m = grid_view(g@);
    let mut x: usize = 0;
    while x < n
        invariant
            x <= n,
            is_grid(g@, n as int, n as int),
            capped(g@),
            forall|i: int, j: int|
                0 <= i < n && 0 <= j < n ==> #[trigger] cell(g@, i, j) == if 0 <= i < x && on_border(
                    n as int,
                    i,
                    j,
                ) {
                    BORDER_HEIGHT
                } else {
                    m[i][j]
                },
        decreases n - x,
    {
        let mut y: usize = 0;
        while y < n
            invariant
                x < n,
                y <= n,
                is_grid(g@, n as int, n as int),
                capped(g@),
                forall|i: int, j: int|
                    0 <= i < n && 0 <= j < n ==> #[trigger] cell(g@, i, j) == if ((0 <= i < x) || (i
                        == x && 0 <= j < y)) && on_border(n as int, i, j) {
                        BORDER_HEIGHT
                    } else {
                        m[i][j]
                    },
            decreases n - y,
        {
            if x == 0 || y == 0 || x == n - 1 || y == n - 1 {
                let ghost before = g@;
                set_cell(&mut g, n, x, y, BORDER_HEIGHT);
                proof {
                    assert forall|i: int, j: int|
                        0 <= i < g@.len() && 0 <= j < g@[i]@.len() implies -HEIGHT_CAP
                        <= #[trigger] cell(g@, i, j) <= HEIGHT_CAP by {
                        if i != x || j != y {
                            assert(cell(g@, i, j) == cell(before, i, j));
                        }
                    }
                    assert forall|i: int, j: int|
                        0 <= i < n && 0 <= j < n implies #[trigger] cell(g@, i, j) == if ((0 <= i
                        < x) || (i == x && 0 <= j < y + 1)) && on_border(n as int, i, j) {
                        BORDER_HEIGHT
                    } else {
                        m[i][j]
                    } by {
                        if i != x || j != y {
                            assert(cell(g@, i, j) == cell(before, i, j));
                        }
                    }
                }
            }
            y = y + 1;
        }
        x = x + 1;
    }
    g
}

/// A fractal grid of side `2^exp + 3` grown from random draws.
pub fn synthesize(exp: u32, dice: &mut Dice) -> (g: HeightMap)
    requires
        1 <= exp <= 10,
    ensures
        exists|raw: Seq<i64>| draws_bounded(raw) && #[trigger] is_synthesized(g@, exp as nat, raw),
        capped(g@),
{
    let n = side_of(exp);
    assert(5 * n * n <= 5 * 1027 * 1027) by (nonlinear_arith)
        requires
            n <= 1027,
    ;
    let count: usize = 5 * n * n;
    let mut raw: Vec<i64> = Vec::new();
    while raw.len() < count
        invariant
            draws_bounded(raw@),
            raw@.len() <= count,
        decreases count - raw@.len(),
    {
        let r = dice.range(-OFFSET_UNIT, OFFSET_UNIT);
        raw.push(r);
    }
    let g = synthesize_from(exp, &raw);
    g
}

proof fn lemma_pow2_mono(a: nat, b: nat)
    requires
        a <= b,
    ensures
        pow2(a) <= pow2(b),
    decreases b,
{
    if a < b {
        lemma_pow2_mono(a, (b - 1) as nat);
    }
}

} // verus!
