use vstd::prelude::*;

verus! {

/// A coordinate in a 2D grid.
#[derive(Default, Debug, PartialEq, Eq, Structural, Hash, Copy, Clone, PartialOrd, Ord)]
pub struct Coord {
    pub x: i32,
    pub y: i32,
}

/// The x offset of the `k`-th of the eight neighbors, in enumeration order:
/// the row above (left to right), the two sides, then the row below.
pub open spec fn offset8_x(k: int) -> i32 {
    if k == 0 || k == 3 || k == 5 {
        -1i32
    } else if k == 1 || k == 6 {
        0i32
    } else {
        1i32
    }
}

/// The y offset of the `k`-th of the eight neighbors.
pub open spec fn offset8_y(k: int) -> i32 {
    if k <= 2 {
        -1i32
    } else if k <= 4 {
        0i32
    } else {
        1i32
    }
}

/// The x offset of the `k`-th of the four neighbors (N, W, E, S).
pub open spec fn offset4_x(k: int) -> i32 {
    if k == 1 {
        -1i32
    } else if k == 2 {
        1i32
    } else {
        0i32
    }
}

/// The y offset of the `k`-th of the four neighbors (N, W, E, S).
pub open spec fn offset4_y(k: int) -> i32 {
    if k == 0 {
        -1i32
    } else if k == 3 {
        1i32
    } else {
        0i32
    }
}

/// The `k`-th of the eight neighbors of `c`, with wrapping arithmetic.
pub open spec fn spec_neighbor8(c: Coord, k: int) -> Coord {
    Coord { x: c.x.wrapping_add(offset8_x(k)), y: c.y.wrapping_add(offset8_y(k)) }
}

/// The `k`-th of the four neighbors of `c`, with wrapping arithmetic.
pub open spec fn spec_neighbor4(c: Coord, k: int) -> Coord {
    Coord { x: c.x.wrapping_add(offset4_x(k)), y: c.y.wrapping_add(offset4_y(k)) }
}

/// The Manhattan distance between two coordinates.
pub open spec fn manhattan(a: Coord, b: Coord) -> int {
    let dx = a.x - b.x;
    let dy = a.y - b.y;
    (if dx < 0 { -dx } else { dx }) + (if dy < 0 { -dy } else { dy })
}

/// Whether `c` lies in the rectangle `[0, width) x [0, height)`.
pub open spec fn in_rect(c: Coord, width: int, height: int) -> bool {
    0 <= c.x < width && 0 <= c.y < height
}

/// The eight neighbors of `c` in enumeration order.
pub open spec fn spec_neighbors8(c: Coord) -> Seq<Coord> {
    Seq::new(8, |k: int| spec_neighbor8(c, k))
}

/// The four neighbors of `c` in enumeration order.
pub open spec fn spec_neighbors4(c: Coord) -> Seq<Coord> {
    Seq::new(4, |k: int| spec_neighbor4(c, k))
}

/// The neighbors of `all` that lie in the rectangle, order kept.
pub open spec fn spec_in_rect(all: Seq<Coord>, width: int, height: int) -> Seq<Coord> {
    all.filter(|n: Coord| in_rect(n, width, height))
}

impl Coord {
    /// Creates a new coord.
    pub fn new(x: i32, y: i32) -> (r: Self)
        ensures
            r.x == x,
            r.y == y,
    {
        Self { x, y }
    }

    /// Returns the 4-directional neighbors of a coordinate: N, W, E, S.
    pub fn neighbors(self) -> (r: Vec<Coord>)
        ensures
            r@ == spec_neighbors4(self),
    {
        let r = vec![
            self.add(Coord { x: 0, y: -1 }),
            self.add(Coord { x: -1, y: 0 }),
            self.add(Coord { x: 1, y: 0 }),
            self.add(Coord { x: 0, y: 1 }),
        ];
        assert(r@ =~= spec_neighbors4(self));
        r
    }

    /// Returns the 8-directional neighbors of a coordinate, row by row.
    pub fn neighbors8(self) -> (r: Vec<Coord>)
        ensures
            r@ == spec_neighbors8(self),
    {
        let r = vec![
            self.add(Coord { x: -1, y: -1 }),
            self.add(Coord { x: 0, y: -1 }),
            self.add(Coord { x: 1, y: -1 }),
            self.add(Coord { x: -1, y: 0 }),
            self.add(Coord { x: 1, y: 0 }),
            self.add(Coord { x: -1, y: 1 }),
            self.add(Coord { x: 0, y: 1 }),
            self.add(Coord { x: 1, y: 1 }),
        ];
        assert(r@ =~= spec_neighbors8(self));
        r
    }

    /// Returns the Manhattan distance between two coordinates, truncated
    /// to 16 bits.
    pub fn distance(&self, other: Coord) -> (r: u16)
        ensures
            r == manhattan(*self, other) as u16,
    {
        let dx: i64 = self.x as i64 - other.x as i64;
        let dy: i64 = self.y as i64 - other.y as i64;
        let ax: i64 = if dx < 0 { -dx } else { dx };
        let ay: i64 = if dy < 0 { -dy } else { dy };
        (ax + ay) as u16
    }

    /// Component-wise sum; overflow wraps.
    pub fn add(self, rhs: Coord) -> (r: Coord)
        ensures
            r.x == self.x.wrapping_add(rhs.x),
            r.y == self.y.wrapping_add(rhs.y),
    {
        Coord { x: self.x.wrapping_add(rhs.x), y: self.y.wrapping_add(rhs.y) }
    }

    /// Component-wise difference; overflow wraps.
    pub fn sub(self, rhs: Coord) -> (r: Coord)
        ensures
            r.x == self.x.wrapping_sub(rhs.x),
            r.y == self.y.wrapping_sub(rhs.y),
    {
        Coord { x: self.x.wrapping_sub(rhs.x), y: self.y.wrapping_sub(rhs.y) }
    }

    /// Scales both components; overflow wraps.
    pub fn mul(self, rhs: i32) -> (r: Coord)
        ensures
            r.x == self.x.wrapping_mul(rhs),
            r.y == self.y.wrapping_mul(rhs),
    {
        Coord { x: self.x.wrapping_mul(rhs), y: self.y.wrapping_mul(rhs) }
    }
}

impl From<(i32, i32)> for Coord {
    fn from(tuple: (i32, i32)) -> (r: Coord) {
        Coord { x: tuple.0, y: tuple.1 }
    }
}

impl vstd::std_specs::convert::FromSpecImpl<(i32, i32)> for Coord {
    open spec fn obeys_from_spec() -> bool {
        true
    }

    open spec fn from_spec(tuple: (i32, i32)) -> Coord {
        Coord { x: tuple.0, y: tuple.1 }
    }
}

impl From<(usize, usize)> for Coord {
    fn from(tuple: (usize, usize)) -> (r: Coord) {
        Coord { x: tuple.0 as i32, y: tuple.1 as i32 }
    }
}

impl vstd::std_specs::convert::FromSpecImpl<(usize, usize)> for Coord {
    open spec fn obeys_from_spec() -> bool {
        true
    }

    /// Each component is cast to `i32`, wrapping where it does not fit.
    open spec fn from_spec(tuple: (usize, usize)) -> Coord {
        Coord { x: tuple.0 as i32, y: tuple.1 as i32 }
    }
}

/// Keeps the coordinates of `all` that lie in `[0, width) x [0, height)`.
fn keep_in_rect(all: Vec<Coord>, width: usize, height: usize) -> (r: Vec<Coord>)
    ensures
        r@ == spec_in_rect(all@, width as int, height as int),
{
    let mut r: Vec<Coord> = Vec::new();
    let mut i: usize = 0;
    while i < all.len()
        invariant
            i <= all@.len(),
            r@ == spec_in_rect(all@.take(i as int), width as int, height as int),
        decreases all@.len() - i,
    {
        let c = all[i];
        proof {
            assert(all@.take(i + 1) =~= all@.take(i as int).push(c));
            all@.take(i as int).lemma_filter_push(c, |n: Coord| in_rect(n, width as int, height as int));
        }
        if c.x >= 0 && c.y >= 0 && (c.x as usize) < width && (c.y as usize) < height {
            r.push(c);
        }
        i = i + 1;
    }
    assert(all@.take(all@.len() as int) =~= all@);
    r
}

/// Returns the 4-directional neighbors of a coordinate within bounds of given width and height.
pub fn neighbors(coord: &Coord, width: usize, height: usize) -> (r: Vec<Coord>)
    ensures
        r@ == spec_in_rect(spec_neighbors4(*coord), width as int, height as int),
{
    keep_in_rect(coord.neighbors(), width, height)
}

/// Returns the 8-directional neighbors of a coordinate within bounds of given width and height.
pub fn neighbors8(coord: &Coord, width: usize, height: usize) -> (r: Vec<Coord>)
    ensures
        r@ == spec_in_rect(spec_neighbors8(*coord), width as int, height as int),
{
    keep_in_rect(coord.neighbors8(), width, height)
}

} // verus!
