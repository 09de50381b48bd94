use vstd::prelude::*;

verus! {

/// Edge length of a chunk, in world units.
pub const CHUNK_SIZE: i64 = 128;

/// World positions are counted in steps of `1 / POS_SCALE` world units.
pub const POS_SCALE: i64 = 2;

/// Edge length of a chunk, in position steps.
pub const CHUNK_SPAN: i64 = 256;

/// Largest magnitude of a chunk coordinate held by a world.
pub const CHUNK_LIMIT: i64 = 1_099_511_627_776;

/// Largest magnitude of a position coordinate of a placed island.
pub const POS_LIMIT: i64 = 140_737_488_355_328;

/// Index of one chunk of the world's partition grid.
#[derive(Clone, Copy, PartialEq, Eq, Structural, Debug, Hash)]
pub struct ChunkIndex {
    pub x: i64,
    pub y: i64,
}

/// A half-open axis-aligned rectangle `[min_x, max_x) x [min_y, max_y)` in position steps.
#[derive(Clone, Copy, PartialEq, Eq, Structural, Debug)]
pub struct Rect {
    pub min_x: i64,
    pub min_y: i64,
    pub max_x: i64,
    pub max_y: i64,
}

/// A point of the world, in position steps.
#[derive(Clone, Copy, PartialEq, Eq, Structural, Debug)]
pub struct WorldPos {
    pub x: i64,
    pub y: i64,
}

impl ChunkIndex {
    pub fn new(x: i64, y: i64) -> (r: ChunkIndex)
        ensures
            r.x == x,
            r.y == y,
    {
        ChunkIndex { x, y }
    }

    pub open spec fn in_limits(self) -> bool {
        -CHUNK_LIMIT <= self.x <= CHUNK_LIMIT && -CHUNK_LIMIT <= self.y <= CHUNK_LIMIT
    }

    /// The world area that the chunk covers.
    pub open spec fn footprint(self) -> Rect {
        Rect {
            min_x: (self.x * CHUNK_SPAN) as i64,
            min_y: (self.y * CHUNK_SPAN) as i64,
            max_x: (self.x * CHUNK_SPAN + CHUNK_SPAN) as i64,
            max_y: (self.y * CHUNK_SPAN + CHUNK_SPAN) as i64,
        }
    }

    /// The world area that the chunk covers.
    pub fn footprint_rect(&self) -> (r: Rect)
        requires
            self.in_limits(),
        ensures
            r == self.footprint(),
    {
        Rect {
            min_x: self.x * CHUNK_SPAN,
            min_y: self.y * CHUNK_SPAN,
            max_x: self.x * CHUNK_SPAN + CHUNK_SPAN,
            max_y: self.y * CHUNK_SPAN + CHUNK_SPAN,
        }
    }
}

impl Rect {
    pub fn new(min_x: i64, min_y: i64, max_x: i64, max_y: i64) -> (r: Rect)
        ensures
            r == (Rect { min_x, min_y, max_x, max_y }),
    {
        Rect { min_x, min_y, max_x, max_y }
    }

    pub open spec fn is_empty(self) -> bool {
        self.max_x <= self.min_x || self.max_y <= self.min_y
    }

    /// Two rectangles share some area.
    pub open spec fn overlaps(self, o: Rect) -> bool {
        &&& !self.is_empty()
        &&& !o.is_empty()
        &&& self.min_x < o.max_x
        &&& o.min_x < self.max_x
        &&& self.min_y < o.max_y
        &&& o.min_y < self.max_y
    }

    /// A point lies in the rectangle or on its boundary.
    pub open spec fn holds_point(self, p: WorldPos) -> bool {
        self.min_x <= p.x <= self.max_x && self.min_y <= p.y <= self.max_y
    }

    pub open spec fn in_limits(self) -> bool {
        -POS_LIMIT <= self.min_x <= POS_LIMIT && -POS_LIMIT <= self.max_x <= POS_LIMIT
            && -POS_LIMIT <= self.min_y <= POS_LIMIT && -POS_LIMIT <= self.max_y <= POS_LIMIT
    }

    pub open spec fn translated(self, dx: int, dy: int) -> Rect {
        Rect {
            min_x: (self.min_x + dx) as i64,
            min_y: (self.min_y + dy) as i64,
            max_x: (self.max_x + dx) as i64,
            max_y: (self.max_y + dy) as i64,
        }
    }

    /// Whether the two rectangles share some area.
    pub fn intersects(&self, o: &Rect) -> (r: bool)
        ensures
            r == self.overlaps(*o),
    {
        if self.max_x <= self.min_x || self.max_y <= self.min_y || o.max_x <= o.min_x
            || o.max_y <= o.min_y {
            return false;
        }
        self.min_x < o.max_x && o.min_x < self.max_x && self.min_y < o.max_y && o.min_y
            < self.max_y
    }

    /// The rectangle moved by `(dx, dy)`.
    pub fn translate(&self, dx: i64, dy: i64) -> (r: Rect)
        requires
            self.in_limits(),
            -POS_LIMIT <= dx <= POS_LIMIT,
            -POS_LIMIT <= dy <= POS_LIMIT,
        ensures
            r == self.translated(dx as int, dy as int),
    {
        Rect {
            min_x: self.min_x + dx,
            min_y: self.min_y + dy,
            max_x: self.max_x + dx,
            max_y: self.max_y + dy,
        }
    }
}

} // verus!
