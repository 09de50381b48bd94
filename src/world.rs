use vstd::prelude::*;
use crate::geometry::{ChunkIndex, Rect, WorldPos, CHUNK_SPAN, CHUNK_SIZE, POS_SCALE, CHUNK_LIMIT, POS_LIMIT};
use crate::island::{Island, tiles_moved};
use crate::random::Dice;
use crate::terrain::div_floor;

verus! {

/// Largest magnitude of a chunk coordinate that a world generates.
pub const REQUEST_LIMIT: i64 = 274_877_906_944;

/// Largest magnitude of a rectangle coordinate of an island offered for placement.
pub const PLACE_LIMIT: i64 = 70_368_745_226_240;

/// Marks a chunk of the world as considered for generation.
pub struct Chunk {}

impl Chunk {
    pub fn new() -> (r: Chunk) {
        Chunk {  }
    }
}

/// The area `[min_x + dx, max_x + dx) x [min_y + dy, max_y + dy)` shares some area
/// with the footprint of chunk `c`.
pub open spec fn touches(r: Rect, dx: int, dy: int, c: ChunkIndex) -> bool {
    &&& r.min_x + dx < c.x * CHUNK_SPAN + CHUNK_SPAN
    &&& c.x * CHUNK_SPAN < r.max_x + dx
    &&& r.min_y + dy < c.y * CHUNK_SPAN + CHUNK_SPAN
    &&& c.y * CHUNK_SPAN < r.max_y + dy
}

/// Moved by `(dx, dy)` world units, the rectangle overlaps a chunk of `s`.
pub open spec fn blocked(s: Set<ChunkIndex>, r: Rect, dx: int, dy: int) -> bool {
    exists|c: ChunkIndex| #[trigger] s.contains(c) && touches(r, POS_SCALE * dx, POS_SCALE * dy, c)
}

/// The offsets the placement search tries, in world units.
pub open spec fn in_search(dx: int, dy: int) -> bool {
    -CHUNK_SIZE <= dx <= CHUNK_SIZE && -CHUNK_SIZE <= dy <= CHUNK_SIZE
}

/// `(a, b)` comes before `(dx, dy)` in raster order: by `x` first, then by `y`.
pub open spec fn raster_before(a: int, b: int, dx: int, dy: int) -> bool {
    a < dx || (a == dx && b < dy)
}

/// `(dx, dy)` is the first offset of the search window, in raster order, at which
/// the rectangle overlaps no chunk of `s`.
pub open spec fn first_free(s: Set<ChunkIndex>, r: Rect, dx: int, dy: int) -> bool {
    &&& in_search(dx, dy)
    &&& !blocked(s, r, dx, dy)
    &&& forall|a: int, b: int|
        in_search(a, b) && raster_before(a, b, dx, dy) ==> #[trigger] blocked(s, r, a, b)
}

/// The offset at which an island with rectangle `r` is placed among the chunks
/// `s`: where it stands when it overlaps none of them, else the first free
/// offset of the search.
pub open spec fn chosen_offset(s: Set<ChunkIndex>, r: Rect, dx: int, dy: int) -> bool {
    if !blocked(s, r, 0, 0) {
        dx == 0 && dy == 0
    } else {
        first_free(s, r, dx, dy)
    }
}

/// No offset of the search window frees the rectangle.
pub open spec fn no_room(s: Set<ChunkIndex>, r: Rect) -> bool {
    &&& blocked(s, r, 0, 0)
    &&& forall|a: int, b: int| in_search(a, b) ==> #[trigger] blocked(s, r, a, b)
}

/// The chunks whose footprint shares area with rectangle `r`.
pub open spec fn covered(r: Rect) -> Set<ChunkIndex> {
    Set::new(|c: ChunkIndex| touches(r, 0, 0, c))
}

/// `r` is the least rectangle that holds the footprint of every chunk of `s`.
pub open spec fn is_hull(r: Rect, s: Set<ChunkIndex>) -> bool {
    &&& forall|c: ChunkIndex|
        #[trigger] s.contains(c) ==> r.min_x <= c.x * CHUNK_SPAN && c.x * CHUNK_SPAN + CHUNK_SPAN
            <= r.max_x && r.min_y <= c.y * CHUNK_SPAN && c.y * CHUNK_SPAN + CHUNK_SPAN <= r.max_y
    &&& exists|c: ChunkIndex| #[trigger] s.contains(c) && r.min_x == c.x * CHUNK_SPAN
    &&& exists|c: ChunkIndex| #[trigger] s.contains(c) && r.max_x == c.x * CHUNK_SPAN + CHUNK_SPAN
    &&& exists|c: ChunkIndex| #[trigger] s.contains(c) && r.min_y == c.y * CHUNK_SPAN
    &&& exists|c: ChunkIndex| #[trigger] s.contains(c) && r.max_y == c.y * CHUNK_SPAN + CHUNK_SPAN
}

/// Every chunk of `s` lies within the limits a world holds.
pub open spec fn chunks_in_limits(s: Seq<ChunkIndex>) -> bool {
    forall|i: int| 0 <= i < s.len() ==> (#[trigger] s[i]).in_limits()
}

/// The rectangle's coordinates lie within `[-PLACE_LIMIT, PLACE_LIMIT]`.
pub open spec fn placeable(r: Rect) -> bool {
    &&& -PLACE_LIMIT <= r.min_x <= PLACE_LIMIT
    &&& -PLACE_LIMIT <= r.max_x <= PLACE_LIMIT
    &&& -PLACE_LIMIT <= r.min_y <= PLACE_LIMIT
    &&& -PLACE_LIMIT <= r.max_y <= PLACE_LIMIT
}

/// Whether chunk `c` is in `chunks`.
pub fn chunk_listed(chunks: &Vec<ChunkIndex>, c: ChunkIndex) -> (r: bool)
    ensures
        r == chunks@.contains(c),
{
    let mut i: usize = 0;
    while i < chunks.len()
        invariant
            i <= chunks@.len(),
            forall|k: int| 0 <= k < i ==> chunks@[k] != c,
        decreases chunks@.len() - i,
    {
        if chunks[i] == c {
            return true;
        }
        i = i + 1;
    }
    false
}

/// Adds chunk `c` to `chunks` unless it is there already.
pub fn register_chunk(chunks: &mut Vec<ChunkIndex>, c: ChunkIndex)
    requires
        old(chunks)@.no_duplicates(),
        chunks_in_limits(old(chunks)@),
        c.in_limits(),
    ensures
        final(chunks)@.no_duplicates(),
        chunks_in_limits(final(chunks)@),
        final(chunks)@.to_set() == old(chunks)@.to_set().insert(c),
        old(chunks)@.contains(c) ==> final(chunks)@ == old(chunks)@,
{
    if !chunk_listed(chunks, c) {
        chunks.push(c);
        proof {
            assert(chunks@ == old(chunks)@.push(c));
            assert forall|i: int, j: int|
                0 <= i < chunks@.len() && 0 <= j < chunks@.len() && i != j implies chunks@[i]
                != chunks@[j] by {
                if i < old(chunks)@.len() && j < old(chunks)@.len() {
                    assert(old(chunks)@[i] != old(chunks)@[j]);
                } else if i < old(chunks)@.len() {
                    assert(old(chunks)@.contains(old(chunks)@[i]));
                } else if j < old(chunks)@.len() {
                    assert(old(chunks)@.contains(old(chunks)@[j]));
                }
            }
            assert(chunks@.to_set() =~= old(chunks)@.to_set().insert(c)) by {
                assert forall|x: ChunkIndex| chunks@.contains(x) <==> old(chunks)@.contains(x) || x
                    == c by {
                    if chunks@.contains(x) {
                        let k = chunks@.index_of(x);
                        if k < old(chunks)@.len() {
                            assert(old(chunks)@[k] == x);
                        }
                    }
                    if old(chunks)@.contains(x) {
                        let k = old(chunks)@.index_of(x);
                        assert(chunks@[k] == x);
                    }
                    if x == c {
                        assert(chunks@[chunks@.len() - 1] == c);
                    }
                }
            }
        }
    } else {
        assert(chunks@.to_set() =~= old(chunks)@.to_set().insert(c));
    }
}

/// Whether rectangle `r`, moved by `(dx, dy)` world units, overlaps a chunk of `chunks`.
pub fn rect_blocked(chunks: &Vec<ChunkIndex>, r: &Rect, dx: i64, dy: i64) -> (b: bool)
    requires
        chunks_in_limits(chunks@),
        placeable(*r),
        in_search(dx as int, dy as int),
    ensures
        b == blocked(chunks@.to_set(), *r, dx as int, dy as int),
{
    let min_x = r.min_x + POS_SCALE * dx;
    let max_x = r.max_x + POS_SCALE * dx;
    let min_y = r.min_y + POS_SCALE * dy;
    let max_y = r.max_y + POS_SCALE * dy;
    let mut i: usize = 0;
    while i < chunks.len()
        invariant
            chunks_in_limits(chunks@),
            placeable(*r),
            in_search(dx as int, dy as int),
            min_x == r.min_x + POS_SCALE * dx,
            max_x == r.max_x + POS_SCALE * dx,
            min_y == r.min_y + POS_SCALE * dy,
            max_y == r.max_y + POS_SCALE * dy,
            i <= chunks@.len(),
            forall|k: int|
                0 <= k < i ==> !touches(*r, POS_SCALE * dx, POS_SCALE * dy, #[trigger] chunks@[k]),
        decreases chunks@.len() - i,
    {
        let c = chunks[i];
        assert(c.in_limits());
        let fx = c.x * CHUNK_SPAN;
        let fy = c.y * CHUNK_SPAN;
        if min_x < fx + CHUNK_SPAN && fx < max_x && min_y < fy + CHUNK_SPAN && fy < max_y {
            assert(chunks@.to_set().contains(c));
            return true;
        }
        i = i + 1;
    }
    proof {
        assert forall|c: ChunkIndex| #[trigger] chunks@.to_set().contains(c) implies !touches(
            *r,
            POS_SCALE * dx,
            POS_SCALE * dy,
            c,
        ) by {
            let k = chunks@.index_of(c);
            assert(chunks@[k] == c);
        }
    }
    false
}

/// The first offset of the search window, in raster order, at which rectangle
/// `r` overlaps no chunk of `chunks`; `None` when there is none.
pub fn find_free_offset(chunks: &Vec<ChunkIndex>, r: &Rect) -> (res: Option<(i64, i64)>)
    requires
        chunks_in_limits(chunks@),
        placeable(*r),
    ensures
        res.is_some() ==> first_free(chunks@.to_set(), *r, res.unwrap().0 as int, res.unwrap().1 as int),
        res.is_none() ==> forall|a: int, b: int|
            in_search(a, b) ==> #[trigger] blocked(chunks@.to_set(), *r, a, b),
{
    let ghost s = chunks@.to_set();
    let mut dx: i64 = -CHUNK_SIZE;
    while dx <= CHUNK_SIZE
        invariant
            chunks_in_limits(chunks@),
            placeable(*r),
            s == chunks@.to_set(),
            -CHUNK_SIZE <= dx <= CHUNK_SIZE + 1,
            forall|a: int, b: int|
                in_search(a, b) && a < dx ==> #[trigger] blocked(s, *r, a, b),
        decreases CHUNK_SIZE + 1 - dx,
    {
        let mut dy: i64 = -CHUNK_SIZE;
        while dy <= CHUNK_SIZE
            invariant
                chunks_in_limits(chunks@),
                placeable(*r),
                s == chunks@.to_set(),
                -CHUNK_SIZE <= dx <= CHUNK_SIZE,
                -CHUNK_SIZE <= dy <= CHUNK_SIZE + 1,
                forall|a: int, b: int|
                    in_search(a, b) && raster_before(a, b, dx as int, dy as int) ==> #[trigger] blocked(
                        s,
                        *r,
                        a,
                        b,
                    ),
            decreases CHUNK_SIZE + 1 - dy,
        {
            if !rect_blocked(chunks, r, dx, dy) {
                return Some((dx, dy));
            }
            dy = dy + 1;
        }
        dx = dx + 1;
    }
    None
}

/// The least rectangle that holds the footprint of every chunk of `chunks`.
pub fn hull_of(chunks: &Vec<ChunkIndex>) -> (r: Rect)
    requires
        chunks@.len() > 0,
        chunks_in_limits(chunks@),
    ensures
        is_hull(r, chunks@.to_set()),
{
    let ghost s = chunks@.to_set();
    let c0 = chunks[0];
    assert(c0.in_limits());
    let mut r = Rect {
        min_x: c0.x * CHUNK_SPAN,
        min_y: c0.y * CHUNK_SPAN,
        max_x: c0.x * CHUNK_SPAN + CHUNK_SPAN,
        max_y: c0.y * CHUNK_SPAN + CHUNK_SPAN,
    };
    let ghost mut w1 = c0;
    let ghost mut w2 = c0;
    let ghost mut w3 = c0;
    let ghost mut w4 = c0;
    assert(s.contains(c0));
    let mut i: usize = 1;
    while i < chunks.len()
        invariant
            chunks_in_limits(chunks@),
            s == chunks@.to_set(),
            1 <= i <= chunks@.len(),
            forall|k: int|
                0 <= k < i ==> r.min_x <= (#[trigger] chunks@[k]).x * CHUNK_SPAN && chunks@[k].x
                    * CHUNK_SPAN + CHUNK_SPAN <= r.max_x && r.min_y <= chunks@[k].y * CHUNK_SPAN
                    && chunks@[k].y * CHUNK_SPAN + CHUNK_SPAN <= r.max_y,
            s.contains(w1) && r.min_x == w1.x * CHUNK_SPAN,
            s.contains(w2) && r.max_x == w2.x * CHUNK_SPAN + CHUNK_SPAN,
            s.contains(w3) && r.min_y == w3.y * CHUNK_SPAN,
            s.contains(w4) && r.max_y == w4.y * CHUNK_SPAN + CHUNK_SPAN,
        decreases chunks@.len() - i,
    {
        let c = chunks[i];
        assert(c.in_limits());
        assert(s.contains(c));
        let fx = c.x * CHUNK_SPAN;
        let fy = c.y * CHUNK_SPAN;
        if fx < r.min_x {
            r.min_x = fx;
            proof {
                w1 = c;
            }
        }
        if fy < r.min_y {
            r.min_y = fy;
            proof {
                w3 = c;
            }
        }
        if fx + CHUNK_SPAN > r.max_x {
            r.max_x = fx + CHUNK_SPAN;
            proof {
                w2 = c;
            }
        }
        if fy + CHUNK_SPAN > r.max_y {
            r.max_y = fy + CHUNK_SPAN;
            proof {
                w4 = c;
            }
        }
        i = i + 1;
    }
    proof {
        assert forall|c: ChunkIndex| #[trigger] s.contains(c) implies r.min_x <= c.x * CHUNK_SPAN
            && c.x * CHUNK_SPAN + CHUNK_SPAN <= r.max_x && r.min_y <= c.y * CHUNK_SPAN && c.y
            * CHUNK_SPAN + CHUNK_SPAN <= r.max_y by {
            let k = chunks@.index_of(c);
            assert(chunks@[k] == c);
        }
    }
    r
}

proof fn lemma_floor_div(a: int, k: int)
    ensures
        (a < k * CHUNK_SPAN + CHUNK_SPAN) <==> (a / (CHUNK_SPAN as int) <= k),
        (k * CHUNK_SPAN < a) <==> (k <= (a - 1) / (CHUNK_SPAN as int)),
{
    let b = CHUNK_SPAN as int;
    vstd::arithmetic::div_mod::lemma_fundamental_div_mod(a, b);
    vstd::arithmetic::div_mod::lemma_mod_bound(a, b);
    vstd::arithmetic::div_mod::lemma_fundamental_div_mod(a - 1, b);
    vstd::arithmetic::div_mod::lemma_mod_bound(a - 1, b);
    let q = a / b;
    let r = a % b;
    let q1 = (a - 1) / b;
    let r1 = (a - 1) % b;
    assert((a < k * b + b) <==> (q <= k)) by (nonlinear_arith)
        requires
            a == b * q + r,
            0 <= r < b,
            b > 0,
    ;
    assert((k * b < a) <==> (k <= q1)) by (nonlinear_arith)
        requires
            a - 1 == b * q1 + r1,
            0 <= r1 < b,
            b > 0,
    ;
}

/// Registers in `chunks` every chunk whose footprint shares area with `r`.
pub fn register_covered(chunks: &mut Vec<ChunkIndex>, r: &Rect)
    requires
        old(chunks)@.no_duplicates(),
        chunks_in_limits(old(chunks)@),
        r.in_limits(),
        r.min_x < r.max_x,
        r.min_y < r.max_y,
    ensures
        final(chunks)@.no_duplicates(),
        chunks_in_limits(final(chunks)@),
        final(chunks)@.to_set() == old(chunks)@.to_set().union(covered(*r)),
{
    let x_lo = div_floor(r.min_x, CHUNK_SPAN);
    let x_hi = div_floor(r.max_x - 1, CHUNK_SPAN);
    let y_lo = div_floor(r.min_y, CHUNK_SPAN);
    let y_hi = div_floor(r.max_y - 1, CHUNK_SPAN);
    proof {
        assert forall|c: ChunkIndex| touches(*r, 0, 0, c) <==> (x_lo <= c.x <= x_hi && y_lo <= c.y
            <= y_hi) by {
            lemma_floor_div(r.min_x as int, c.x as int);
            lemma_floor_div(r.max_x as int, c.x as int);
            lemma_floor_div(r.min_y as int, c.y as int);
            lemma_floor_div(r.max_y as int, c.y as int);
        }
        assert(x_lo <= x_hi && y_lo <= y_hi) by {
            vstd::arithmetic::div_mod::lemma_div_is_ordered(r.min_x as int, r.max_x - 1, CHUNK_SPAN as int);
            vstd::arithmetic::div_mod::lemma_div_is_ordered(r.min_y as int, r.max_y - 1, CHUNK_SPAN as int);
        }
        assert(-CHUNK_LIMIT <= x_lo && x_hi <= CHUNK_LIMIT && -CHUNK_LIMIT <= y_lo && y_hi <= CHUNK_LIMIT);
    }
    let ghost base = chunks@.to_set();
    let mut x: i64 = x_lo;
    while x <= x_hi
        invariant
            chunks@.no_duplicates(),
            chunks_in_limits(chunks@),
            x_lo <= x <= x_hi + 1,
            x_lo <= x_hi,
            y_lo <= y_hi,
            -CHUNK_LIMIT <= x_lo && x_hi <= CHUNK_LIMIT && -CHUNK_LIMIT <= y_lo && y_hi <= CHUNK_LIMIT,
            forall|c: ChunkIndex| touches(*r, 0, 0, c) <==> (x_lo <= c.x <= x_hi && y_lo <= c.y <= y_hi),
            chunks@.to_set() == base.union(
                Set::new(|c: ChunkIndex| touches(*r, 0, 0, c) && c.x < x),
            ),
        decreases x_hi + 1 - x,
    {
        let mut y: i64 = y_lo;
        while y <= y_hi
            invariant
                chunks@.no_duplicates(),
                chunks_in_limits(chunks@),
                x_lo <= x <= x_hi,
                y_lo <= y <= y_hi + 1,
                -CHUNK_LIMIT <= x_lo && x_hi <= CHUNK_LIMIT && -CHUNK_LIMIT <= y_lo && y_hi <= CHUNK_LIMIT,
                forall|c: ChunkIndex| touches(*r, 0, 0, c) <==> (x_lo <= c.x <= x_hi && y_lo <= c.y <= y_hi),
                chunks@.to_set() == base.union(
                    Set::new(|c: ChunkIndex| touches(*r, 0, 0, c) && (c.x < x || (c.x == x && c.y < y))),
                ),
            decreases y_hi + 1 - y,
        {
            let c = ChunkIndex { x, y };
            let ghost before = chunks@.to_set();
            register_chunk(chunks, c);
            proof {
                assert(chunks@.to_set() =~= base.union(
                    Set::new(|c: ChunkIndex| touches(*r, 0, 0, c) && (c.x < x || (c.x == x && c.y < y + 1))),
                ));
            }
            y = y + 1;
        }
        proof {
            assert(chunks@.to_set() =~= base.union(
                Set::new(|c: ChunkIndex| touches(*r, 0, 0, c) && c.x < x + 1),
            ));
        }
        x = x + 1;
    }
    assert(chunks@.to_set() =~= base.union(covered(*r)));
}

/// The world: its islands, in the order they were generated, the chunks that
/// were considered for generation, the least rectangle that holds every such
/// chunk, and the position the viewer looks at.
pub struct World {
    pub islands: Vec<Island>,
    pub clipping_rect: Rect,
    pub chunks: Vec<ChunkIndex>,
    pub screen_pos: WorldPos,
}

/// `n` is `o` with `isl` appended after being moved by `(dx, dy)` world units.
pub open spec fn appended_moved(o: Seq<Island>, n: Seq<Island>, isl: Island, dx: int, dy: int) -> bool {
    &&& n.len() == o.len() + 1
    &&& n.drop_last() == o
    &&& n.last().clipping_rect == isl.clipping_rect.translated(POS_SCALE * dx, POS_SCALE * dy)
    &&& tiles_moved(isl.tiles@, n.last().tiles@, POS_SCALE * dx, POS_SCALE * dy)
}

impl World {
    /// The chunks considered for generation.
    pub open spec fn chunk_set(&self) -> Set<ChunkIndex> {
        self.chunks@.to_set()
    }

    /// The world's invariant: each chunk is listed once and lies within the
    /// limits; the rectangle is the least one that holds every chunk (or empty
    /// at the origin when there is none); every island is well formed and lies
    /// on registered chunks only.
    pub open spec fn wf(&self) -> bool {
        &&& self.chunks@.no_duplicates()
        &&& chunks_in_limits(self.chunks@)
        &&& self.chunks@.len() > 0 ==> is_hull(self.clipping_rect, self.chunk_set())
        &&& self.chunks@.len() == 0 ==> self.clipping_rect == (Rect { min_x: 0, min_y: 0, max_x: 0, max_y: 0 })
        &&& forall|i: int| 0 <= i < self.islands@.len() ==> (#[trigger] self.islands@[i]).wf()
        &&& forall|i: int, c: ChunkIndex|
            0 <= i < self.islands@.len() && #[trigger] touches(self.islands@[i].clipping_rect, 0, 0, c)
                ==> self.chunk_set().contains(c)
    }

    /// An empty world looking at `screen_pos`.
    pub fn new(screen_pos: WorldPos) -> (w: World)
        ensures
            w.wf(),
            w.islands@.len() == 0,
            w.chunk_set().is_empty(),
            w.screen_pos == screen_pos,
    {
        let w = World {
            islands: Vec::new(),
            clipping_rect: Rect { min_x: 0, min_y: 0, max_x: 0, max_y: 0 },
            chunks: Vec::new(),
            screen_pos,
        };
        assert(w.chunk_set() =~= Set::empty());
        w
    }

    /// Whether chunk `c` was considered for generation.
    pub fn contains(&self, c: ChunkIndex) -> (r: bool)
        ensures
            r == self.chunk_set().contains(c),
    {
        chunk_listed(&self.chunks, c)
    }

    /// Settles the outcome of generating chunk `ind`. An island, if there is one,
    /// is placed where it stands when it overlaps no registered chunk, else at the
    /// first free offset of the search window in raster order, else dropped; a
    /// placed island registers every chunk it covers and joins the world. Then
    /// `ind` is registered and the rectangle recomputed.
    pub fn place_island(&mut self, ind: ChunkIndex, island: Option<Island>)
        requires
            old(self).wf(),
            ind.in_limits(),
            island.is_some() ==> island.unwrap().wf() && placeable(island.unwrap().clipping_rect),
        ensures
            final(self).wf(),
            final(self).screen_pos == old(self).screen_pos,
            island.is_none() || no_room(old(self).chunk_set(), island.unwrap().clipping_rect) ==> {
                &&& final(self).islands@ == old(self).islands@
                &&& final(self).chunk_set() == old(self).chunk_set().insert(ind)
            },
            island.is_some() && !no_room(old(self).chunk_set(), island.unwrap().clipping_rect)
                ==> exists|dx: int, dy: int|
                {
                    &&& #[trigger] chosen_offset(old(self).chunk_set(), island.unwrap().clipping_rect, dx, dy)
                    &&& appended_moved(old(self).islands@, final(self).islands@, island.unwrap(), dx, dy)
                    &&& final(self).chunk_set() == old(self).chunk_set().union(
                        covered(final(self).islands@.last().clipping_rect),
                    ).insert(ind)
                },
            final(self).islands@.len() > old(self).islands@.len() ==> forall|c: ChunkIndex|
                #[trigger] old(self).chunk_set().contains(c) ==> !touches(
                    final(self).islands@.last().clipping_rect,
                    0,
                    0,
                    c,
                ),
    {
        let ghost old_set = self.chunk_set();
        let ghost old_islands = self.islands@;
        match island {
            Some(mut isl) => {
                let ghost isl0 = isl;
                let offset = if !rect_blocked(&self.chunks, &isl.clipping_rect, 0, 0) {
                    Some((0i64, 0i64))
                } else {
                    find_free_offset(&self.chunks, &isl.clipping_rect)
                };
                match offset {
                    Some((dx, dy)) => {
                        assert(in_search(dx as int, dy as int));
                        assert(!blocked(old_set, isl0.clipping_rect, dx as int, dy as int));
                        assert(chosen_offset(old_set, isl0.clipping_rect, dx as int, dy as int));
                        isl.shift(POS_SCALE * dx, POS_SCALE * dy);
                        let ghost moved_rect = isl.clipping_rect;
                        proof {
                            assert forall|c: ChunkIndex| #[trigger] old_set.contains(c) implies !touches(
                                moved_rect,
                                0,
                                0,
                                c,
                            ) by {
                                if touches(moved_rect, 0, 0, c) {
                                    assert(touches(isl0.clipping_rect, POS_SCALE * dx, POS_SCALE * dy, c));
                                }
                            }
                        }
                        register_covered(&mut self.chunks, &isl.clipping_rect);
                        self.islands.push(isl);
                        proof {
                            assert(self.islands@.drop_last() =~= old_islands);
                            assert(appended_moved(old_islands, self.islands@, isl0, dx as int, dy as int));
                        }
                    },
                    None => {
                        assert(no_room(old_set, isl0.clipping_rect));
                    },
                }
            },
            None => {},
        }
        let ghost mid_set = self.chunk_set();
        register_chunk(&mut self.chunks, ind);
        assert(self.chunk_set().contains(ind));
        assert(self.chunks@.contains(ind));
        self.clipping_rect = hull_of(&self.chunks);
        proof {
            assert forall|i: int, c: ChunkIndex|
                0 <= i < self.islands@.len() && #[trigger] touches(self.islands@[i].clipping_rect, 0, 0, c)
                    implies self.chunk_set().contains(c) by {
                if i < old_islands.len() {
                    assert(self.islands@[i] == old_islands[i]);
                    assert(old_set.contains(c));
                    assert(mid_set.contains(c));
                } else {
                    assert(covered(self.islands@[i].clipping_rect).contains(c));
                    assert(mid_set.contains(c));
                }
            }
        }
    }

    /// Generates chunk `ind`: on a fair coin flip an island is grown around the
    /// chunk's middle and placed as `place_island` says; `ind` is registered in
    /// any case.
    pub fn gen_chunk(&mut self, ind: ChunkIndex, dice: &mut Dice)
        requires
            old(self).wf(),
            -REQUEST_LIMIT <= ind.x <= REQUEST_LIMIT,
            -REQUEST_LIMIT <= ind.y <= REQUEST_LIMIT,
        ensures
            final(self).wf(),
            final(self).screen_pos == old(self).screen_pos,
            final(self).chunk_set().contains(ind),
            old(self).chunk_set().subset_of(final(self).chunk_set()),
            final(self).islands@.len() == old(self).islands@.len() ==> {
                &&& final(self).islands@ == old(self).islands@
                &&& final(self).chunk_set() == old(self).chunk_set().insert(ind)
            },
            final(self).islands@.len() == old(self).islands@.len() && old(self).chunk_set().contains(ind)
                ==> final(self).clipping_rect == old(self).clipping_rect,
            old(self).islands@.len() <= final(self).islands@.len() <= old(self).islands@.len() + 1,
            old(self).chunks@.len() > 0 ==> {
                &&& final(self).clipping_rect.min_x <= old(self).clipping_rect.min_x
                &&& final(self).clipping_rect.min_y <= old(self).clipping_rect.min_y
                &&& old(self).clipping_rect.max_x <= final(self).clipping_rect.max_x
                &&& old(self).clipping_rect.max_y <= final(self).clipping_rect.max_y
            },
            final(self).islands@.len() > old(self).islands@.len() ==> {
                &&& final(self).islands@.drop_last() == old(self).islands@
                &&& final(self).chunk_set() == old(self).chunk_set().union(
                    covered(final(self).islands@.last().clipping_rect),
                ).insert(ind)
                &&& forall|c: ChunkIndex| #[trigger] old(self).chunk_set().contains(c) ==> !touches(
                    final(self).islands@.last().clipping_rect,
                    0,
                    0,
                    c,
                )
            },
    {
        let mut island: Option<Island> = None;
        if dice.coin() {
            let center = WorldPos {
                x: ind.x * CHUNK_SPAN + CHUNK_SPAN / 2,
                y: ind.y * CHUNK_SPAN + CHUNK_SPAN / 2,
            };
            island = Island::new(center, dice);
        }
        self.place_island(ind, island);
        proof {
            assert(old(self).chunk_set().subset_of(self.chunk_set()));
            if old(self).chunks@.len() > 0 {
                assert(self.chunk_set().contains(ind));
                assert(self.chunks@.contains(ind));
                lemma_hull_monotone(old(self).clipping_rect, old(self).chunk_set(), self.clipping_rect, self.chunk_set());
            }
            if self.islands@.len() == old(self).islands@.len() && old(self).chunk_set().contains(ind) {
                assert(self.chunk_set() =~= old(self).chunk_set());
                assert(old(self).chunks@.len() > 0) by {
                    assert(old(self).chunks@.contains(ind));
                }
                lemma_hull_unique(self.clipping_rect, old(self).clipping_rect, self.chunk_set());
            }
        }
    }

    /// Generates every chunk of `[lo.x, hi.x) x [lo.y, hi.y)` that was not
    /// considered yet, in raster order.
    pub fn gen_area(&mut self, lo: ChunkIndex, hi: ChunkIndex, dice: &mut Dice)
        requires
            old(self).wf(),
            -REQUEST_LIMIT <= lo.x && hi.x <= REQUEST_LIMIT,
            -REQUEST_LIMIT <= lo.y && hi.y <= REQUEST_LIMIT,
        ensures
            final(self).wf(),
            final(self).screen_pos == old(self).screen_pos,
            old(self).chunk_set().subset_of(final(self).chunk_set()),
            forall|c: ChunkIndex|
                lo.x <= c.x < hi.x && lo.y <= c.y < hi.y ==> #[trigger] final(self).chunk_set().contains(c),
    {
        let mut x: i64 = lo.x;
        while x < hi.x
            invariant
                self.wf(),
                self.screen_pos == old(self).screen_pos,
                old(self).chunk_set().subset_of(self.chunk_set()),
                -REQUEST_LIMIT <= lo.x && hi.x <= REQUEST_LIMIT,
                -REQUEST_LIMIT <= lo.y && hi.y <= REQUEST_LIMIT,
                lo.x <= x,
                x <= hi.x || x == lo.x,
                forall|c: ChunkIndex|
                    lo.x <= c.x < x && lo.y <= c.y < hi.y ==> #[trigger] self.chunk_set().contains(c),
            decreases hi.x - x,
        {
            let mut y: i64 = lo.y;
            while y < hi.y
                invariant
                    self.wf(),
                    self.screen_pos == old(self).screen_pos,
                    old(self).chunk_set().subset_of(self.chunk_set()),
                    -REQUEST_LIMIT <= lo.x && hi.x <= REQUEST_LIMIT,
                    -REQUEST_LIMIT <= lo.y && hi.y <= REQUEST_LIMIT,
                    lo.x <= x < hi.x,
                    lo.y <= y,
                    y <= hi.y || y == lo.y,
                    forall|c: ChunkIndex|
                        ((lo.x <= c.x < x && lo.y <= c.y < hi.y) || (c.x == x && lo.y <= c.y < y))
                            ==> #[trigger] self.chunk_set().contains(c),
                decreases hi.y - y,
            {
                let c = ChunkIndex { x, y };
                if !self.contains(c) {
                    self.gen_chunk(c, dice);
                }
                y = y + 1;
            }
            x = x + 1;
        }
    }
}

impl Default for World {
    fn default() -> (w: World)
        ensures
            w.wf(),
            w.islands@.len() == 0,
            w.chunk_set().is_empty(),
            w.screen_pos == (WorldPos { x: 0, y: 0 }),
    {
        World::new(WorldPos { x: 0, y: 0 })
    }
}

/// A set of chunks has one least rectangle that holds all their footprints.
pub proof fn lemma_hull_unique(r1: Rect, r2: Rect, s: Set<ChunkIndex>)
    requires
        is_hull(r1, s),
        is_hull(r2, s),
    ensures
        r1 == r2,
{
    let a1 = choose|c: ChunkIndex| #[trigger] s.contains(c) && r1.min_x == c.x * CHUNK_SPAN;
    let a2 = choose|c: ChunkIndex| #[trigger] s.contains(c) && r2.min_x == c.x * CHUNK_SPAN;
    let b1 = choose|c: ChunkIndex| #[trigger] s.contains(c) && r1.max_x == c.x * CHUNK_SPAN + CHUNK_SPAN;
    let b2 = choose|c: ChunkIndex| #[trigger] s.contains(c) && r2.max_x == c.x * CHUNK_SPAN + CHUNK_SPAN;
    let c1 = choose|c: ChunkIndex| #[trigger] s.contains(c) && r1.min_y == c.y * CHUNK_SPAN;
    let c2 = choose|c: ChunkIndex| #[trigger] s.contains(c) && r2.min_y == c.y * CHUNK_SPAN;
    let d1 = choose|c: ChunkIndex| #[trigger] s.contains(c) && r1.max_y == c.y * CHUNK_SPAN + CHUNK_SPAN;
    let d2 = choose|c: ChunkIndex| #[trigger] s.contains(c) && r2.max_y == c.y * CHUNK_SPAN + CHUNK_SPAN;
    assert(s.contains(a1) && s.contains(a2) && s.contains(b1) && s.contains(b2));
    assert(s.contains(c1) && s.contains(c2) && s.contains(d1) && s.contains(d2));
}

/// The rectangle of a larger set of chunks holds that of a smaller one.
pub proof fn lemma_hull_monotone(r1: Rect, s1: Set<ChunkIndex>, r2: Rect, s2: Set<ChunkIndex>)
    requires
        is_hull(r1, s1),
        is_hull(r2, s2),
        s1.subset_of(s2),
    ensures
        r2.min_x <= r1.min_x,
        r2.min_y <= r1.min_y,
        r1.max_x <= r2.max_x,
        r1.max_y <= r2.max_y,
{
    let a1 = choose|d: ChunkIndex| #[trigger] s1.contains(d) && r1.min_x == d.x * CHUNK_SPAN;
    let b1 = choose|d: ChunkIndex| #[trigger] s1.contains(d) && r1.max_x == d.x * CHUNK_SPAN + CHUNK_SPAN;
    let c1 = choose|d: ChunkIndex| #[trigger] s1.contains(d) && r1.min_y == d.y * CHUNK_SPAN;
    let d1 = choose|d: ChunkIndex| #[trigger] s1.contains(d) && r1.max_y == d.y * CHUNK_SPAN + CHUNK_SPAN;
    assert(s2.contains(a1) && s2.contains(b1) && s2.contains(c1) && s2.contains(d1));
}

/// Registering one more chunk never shrinks the world's rectangle, and leaves it
/// as it was when the chunk's footprint lies inside it already.
pub proof fn lemma_hull_grows(r1: Rect, s: Set<ChunkIndex>, c: ChunkIndex, r2: Rect)
    requires
        is_hull(r1, s),
        is_hull(r2, s.insert(c)),
    ensures
        r2.min_x <= r1.min_x,
        r2.min_y <= r1.min_y,
        r1.max_x <= r2.max_x,
        r1.max_y <= r2.max_y,
        r1.min_x <= c.x * CHUNK_SPAN && c.x * CHUNK_SPAN + CHUNK_SPAN <= r1.max_x && r1.min_y <= c.y
            * CHUNK_SPAN && c.y * CHUNK_SPAN + CHUNK_SPAN <= r1.max_y ==> r2 == r1,
{
    let t = s.insert(c);
    let a1 = choose|d: ChunkIndex| #[trigger] s.contains(d) && r1.min_x == d.x * CHUNK_SPAN;
    let b1 = choose|d: ChunkIndex| #[trigger] s.contains(d) && r1.max_x == d.x * CHUNK_SPAN + CHUNK_SPAN;
    let c1 = choose|d: ChunkIndex| #[trigger] s.contains(d) && r1.min_y == d.y * CHUNK_SPAN;
    let d1 = choose|d: ChunkIndex| #[trigger] s.contains(d) && r1.max_y == d.y * CHUNK_SPAN + CHUNK_SPAN;
    assert(t.contains(a1) && t.contains(b1) && t.contains(c1) && t.contains(d1));
    if r1.min_x <= c.x * CHUNK_SPAN && c.x * CHUNK_SPAN + CHUNK_SPAN <= r1.max_x && r1.min_y <= c.y
        * CHUNK_SPAN && c.y * CHUNK_SPAN + CHUNK_SPAN <= r1.max_y {
        assert forall|d: ChunkIndex| #[trigger] t.contains(d) implies r1.min_x <= d.x * CHUNK_SPAN
            && d.x * CHUNK_SPAN + CHUNK_SPAN <= r1.max_x && r1.min_y <= d.y * CHUNK_SPAN && d.y
            * CHUNK_SPAN + CHUNK_SPAN <= r1.max_y by {
            if d != c {
                assert(s.contains(d));
            }
        }
        assert(is_hull(r1, t));
        lemma_hull_unique(r1, r2, t);
    }
}

/// Every tile of every island of a world lies inside that island's rectangle.
pub proof fn lemma_world_tiles_inside(w: &World)
    requires
        w.wf(),
    ensures
        forall|k: int, i: int, j: int|
            0 <= k < w.islands@.len() && 0 <= i < w.islands@[k].tiles@.len() && 0 <= j
                < w.islands@[k].tiles@[i]@.len() ==> w.islands@[k].clipping_rect.holds_point(
                #[trigger] w.islands@[k].tiles@[i]@[j].pos,
            ),
{
    assert forall|k: int, i: int, j: int|
        0 <= k < w.islands@.len() && 0 <= i < w.islands@[k].tiles@.len() && 0 <= j
            < w.islands@[k].tiles@[i]@.len() implies w.islands@[k].clipping_rect.holds_point(
        #[trigger] w.islands@[k].tiles@[i]@[j].pos,
    ) by {
        assert(w.islands@[k].wf());
        lemma_tiles_inside(&w.islands@[k]);
    }
}

/// Every tile of a well-formed island lies inside its clipping rectangle, before
/// and after any shift, since shifting keeps an island well formed.
pub proof fn lemma_tiles_inside(isl: &Island)
    requires
        isl.wf(),
    ensures
        forall|i: int, j: int|
            0 <= i < isl.tiles@.len() && 0 <= j < isl.tiles@[i]@.len() ==> isl.clipping_rect.holds_point(
                #[trigger] isl.tiles@[i]@[j].pos,
            ),
{
    assert forall|i: int, j: int|
        0 <= i < isl.tiles@.len() && 0 <= j < isl.tiles@[i]@.len() implies isl.clipping_rect.holds_point(
        #[trigger] isl.tiles@[i]@[j].pos,
    ) by {
        assert(isl.tiles@[i]@.len() == isl.depth());
    }
}

} // verus!
