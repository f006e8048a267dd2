use vstd::prelude::*;

use crate::coord::{in_rect, spec_in_rect, spec_neighbors4, spec_neighbors8, Coord};

verus! {

/// A value that a field cell takes when it is cleared or newly allocated.
pub trait FieldValue: Sized {
    /// The empty value.
    spec fn spec_empty() -> Self;

    /// Returns the empty value.
    fn empty() -> (r: Self)
        ensures
            r == Self::spec_empty(),
    ;
}

impl<V> FieldValue for Option<V> {
    open spec fn spec_empty() -> Self {
        None
    }

    fn empty() -> (r: Self) {
        None
    }
}

/// The dimensions of a field.
#[derive(Default, Clone, Copy, Debug)]
pub struct FieldSize {
    pub width: usize,
    pub height: usize,
}

/// A 2D field of values, stored row by row.
#[derive(Debug)]
pub struct Field<T> {
    pub data: Vec<T>,
    pub size: FieldSize,
}

/// The linear index of `c` in a field of the given width.
pub open spec fn spec_to_1d(c: Coord, width: int) -> int {
    c.y * width + c.x
}

/// The coordinate of linear index `i` in a field of the given width.
pub open spec fn spec_to_coord(i: int, width: int) -> Coord {
    Coord { x: (i % width) as i32, y: (i / width) as i32 }
}

/// Whether every coordinate of a `width` x `height` field fits in an `i32`.
pub open spec fn coords_fit(width: int, height: int) -> bool {
    width <= i32::MAX && height <= i32::MAX
}

/// Proves that the linear index of an in-bounds coordinate is in range.
pub proof fn lemma_index_in_range(c: Coord, width: int, height: int)
    requires
        in_rect(c, width, height),
    ensures
        0 <= spec_to_1d(c, width) < width * height,
{
    assert(c.y * width + c.x < width * height) by (nonlinear_arith)
        requires
            0 <= c.x < width,
            0 <= c.y < height,
    ;
    assert(0 <= c.y * width) by (nonlinear_arith)
        requires
            0 <= c.y,
            0 <= width,
    ;
}

/// Proves that distinct in-bounds coordinates have distinct linear indices,
/// and that the index maps back to the coordinate.
pub proof fn lemma_index_inverse(c: Coord, width: int, height: int)
    requires
        in_rect(c, width, height),
    ensures
        spec_to_coord(spec_to_1d(c, width), width) == c,
{
    let i = c.y * width + c.x;
    assert(i % width == c.x as int && i / width == c.y as int) by (nonlinear_arith)
        requires
            i == c.y * width + c.x,
            0 <= c.x < width,
            0 <= c.y,
    {
        vstd::arithmetic::div_mod::lemma_fundamental_div_mod_converse(i, width, c.y as int, c.x as int);
    }
}

/// Proves that the coordinate of an index in range lies in the field.
pub proof fn lemma_coord_in_range(i: int, width: int, height: int)
    requires
        0 <= i < width * height,
        0 <= width,
        0 <= height,
        coords_fit(width, height),
    ensures
        width > 0,
        0 <= i % width < width,
        0 <= i / width < height,
        in_rect(spec_to_coord(i, width), width, height),
        spec_to_1d(spec_to_coord(i, width), width) == i,
{
    if width == 0 {
        assert(width * height == 0);
    }
    vstd::arithmetic::div_mod::lemma_fundamental_div_mod(i, width);
    vstd::arithmetic::div_mod::lemma_div_pos_is_pos(i, width);
    vstd::arithmetic::div_mod::lemma_mod_pos_bound(i, width);
    if i / width >= height {
        vstd::arithmetic::mul::lemma_mul_inequality(height, i / width, width);
        assert(height * width == width * height) by (nonlinear_arith);
    }
    assert((i / width) * width == width * (i / width)) by (nonlinear_arith);
    let c = spec_to_coord(i, width);
    assert(c.x == i % width && c.y == i / width);
}

impl<T> Field<T> {
    /// Whether the storage holds exactly one value per cell.
    pub open spec fn wf(&self) -> bool {
        self.data@.len() == self.size.width * self.size.height
            && self.size.width * self.size.height <= usize::MAX
    }

    /// Whether `c` lies in the field.
    pub open spec fn in_bounds(&self, c: Coord) -> bool {
        in_rect(c, self.size.width as int, self.size.height as int)
    }

    /// The value at `c`.
    pub open spec fn at(&self, c: Coord) -> T {
        self.data@[spec_to_1d(c, self.size.width as int)]
    }

    /// Creates a new field of the given dimensions over `data`, row by row.
    pub fn new(width: usize, height: usize, data: Vec<T>) -> (r: Self)
        requires
            data@.len() == width * height,
        ensures
            r.wf(),
            r.data@ == data@,
            r.size.width == width,
            r.size.height == height,
    {
        let _n = data.len();
        Self { data, size: FieldSize { width, height } }
    }

    /// Returns the 1-dimensional index of a coordinate.
    pub fn to_1d(&self, coord: &Coord) -> (r: usize)
        requires
            self.in_bounds(*coord),
            self.wf(),
        ensures
            r == spec_to_1d(*coord, self.size.width as int),
            r < self.data@.len(),
    {
        proof {
            lemma_index_in_range(*coord, self.size.width as int, self.size.height as int);
        }
        to_1d(coord, self.size.width)
    }

    /// Returns the 2-dimensional coordinate of a 1-dimensional index.
    pub fn to_coord(&self, index: usize) -> (r: Coord)
        requires
            index < self.size.width * self.size.height,
            coords_fit(self.size.width as int, self.size.height as int),
        ensures
            r == spec_to_coord(index as int, self.size.width as int),
            self.in_bounds(r),
    {
        proof {
            lemma_coord_in_range(index as int, self.size.width as int, self.size.height as int);
        }
        to_coord(index, self.size.width)
    }

    /// Returns true if the given coordinate is within the field dimensions.
    pub fn within_bounds(&self, coord: &Coord) -> (r: bool)
        ensures
            r == self.in_bounds(*coord),
    {
        coord.x >= 0 && coord.y >= 0 && (coord.x as usize) < self.size.width && (coord.y
            as usize) < self.size.height
    }

    /// Returns the 4-directional neighbors of a coordinate that lie in the field.
    pub fn neighbors(&self, coord: &Coord) -> (r: Vec<Coord>)
        ensures
            r@ == spec_in_rect(
                spec_neighbors4(*coord),
                self.size.width as int,
                self.size.height as int,
            ),
    {
        crate::coord::neighbors(coord, self.size.width, self.size.height)
    }

    /// Returns the 8-directional neighbors of a coordinate that lie in the field.
    pub fn neighbors8(&self, coord: &Coord) -> (r: Vec<Coord>)
        ensures
            r@ == spec_in_rect(
                spec_neighbors8(*coord),
                self.size.width as int,
                self.size.height as int,
            ),
    {
        crate::coord::neighbors8(coord, self.size.width, self.size.height)
    }

    /// The values of the field, row by row.
    pub fn iter(&self) -> (r: &[T])
        ensures
            r@ == self.data@,
    {
        self.data.as_slice()
    }

    /// The values of the field, row by row, for update in place.
    pub fn iter_mut(&mut self) -> (r: &mut [T])
        ensures
            r@ == old(self).data@,
            final(self).data@ == final(r)@,
            final(self).size == old(self).size,
    {
        self.data.as_mut_slice()
    }

    /// The coordinates of the field, row by row.
    pub fn iter_coords(&self) -> (r: Vec<Coord>)
        requires
            self.size.width * self.size.height <= usize::MAX,
            coords_fit(self.size.width as int, self.size.height as int),
        ensures
            r@.len() == self.size.width * self.size.height,
            forall|i: int|
                0 <= i < r@.len() ==> #[trigger] r@[i] == spec_to_coord(i, self.size.width as int),
    {
        iter_coords(self.size.width, self.size.height)
    }

    /// Returns the value at `coord`.
    pub fn get(&self, coord: &Coord) -> (r: &T)
        requires
            self.wf(),
            self.in_bounds(*coord),
        ensures
            *r == self.at(*coord),
    {
        let i = self.to_1d(coord);
        &self.data[i]
    }

    /// Replaces the value at `coord`.
    pub fn set(&mut self, coord: &Coord, value: T)
        requires
            old(self).wf(),
            old(self).in_bounds(*coord),
        ensures
            final(self).wf(),
            final(self).size == old(self).size,
            final(self).data@ == old(self).data@.update(
                spec_to_1d(*coord, old(self).size.width as int),
                value,
            ),
    {
        let i = self.to_1d(coord);
        self.data.set(i, value);
    }
}

impl<T: FieldValue> Field<T> {
    /// Resizes the field. The storage is reallocated and every cell,
    /// old or new, is empty afterwards.
    pub fn resize(&mut self, width: usize, height: usize)
        requires
            width * height <= usize::MAX,
        ensures
            final(self).wf(),
            final(self).size.width == width,
            final(self).size.height == height,
            forall|i: int|
                0 <= i < final(self).data@.len() ==> #[trigger] final(self).data@[i]
                    == T::spec_empty(),
    {
        let n: usize = width * height;
        let mut data: Vec<T> = Vec::new();
        while data.len() < n
            invariant
                data@.len() <= n,
                n == width * height,
                forall|i: int| 0 <= i < data@.len() ==> #[trigger] data@[i] == T::spec_empty(),
            decreases n - data@.len(),
        {
            data.push(T::empty());
        }
        self.data = data;
        self.size.width = width;
        self.size.height = height;
    }

    /// Clears the field: every cell becomes empty.
    pub fn clear(&mut self)
        ensures
            final(self).size == old(self).size,
            final(self).data@.len() == old(self).data@.len(),
            forall|i: int|
                0 <= i < final(self).data@.len() ==> #[trigger] final(self).data@[i]
                    == T::spec_empty(),
    {
        let n = self.data.len();
        let mut i: usize = 0;
        while i < n
            invariant
                self.data@.len() == n,
                self.size == old(self).size,
                n == old(self).data@.len(),
                i <= n,
                forall|j: int| 0 <= j < i ==> #[trigger] self.data@[j] == T::spec_empty(),
            decreases n - i,
        {
            self.data.set(i, T::empty());
            i = i + 1;
        }
    }
}

/// Returns the 1-dimensional index of a coordinate.
pub fn to_1d(coord: &Coord, width: usize) -> (r: usize)
    requires
        0 <= coord.x < width,
        0 <= coord.y,
        coord.y * width + coord.x <= usize::MAX,
    ensures
        r == spec_to_1d(*coord, width as int),
{
    assert(0 <= coord.y * width) by (nonlinear_arith)
        requires
            0 <= coord.y,
    ;
    coord.y as usize * width + coord.x as usize
}

/// Returns the 2-dimensional coordinate of a 1-dimensional index.
pub fn to_coord(i: usize, width: usize) -> (r: Coord)
    requires
        width > 0,
        width <= i32::MAX,
        i / width <= i32::MAX,
    ensures
        r == spec_to_coord(i as int, width as int),
{
    let x = i % width;
    let y = i / width;
    Coord::new(x as i32, y as i32)
}

/// Returns the coordinates of a field with the given width and height, row by row.
pub fn iter_coords(width: usize, height: usize) -> (r: Vec<Coord>)
    requires
        width * height <= usize::MAX,
        coords_fit(width as int, height as int),
    ensures
        r@.len() == width * height,
        forall|i: int| 0 <= i < r@.len() ==> #[trigger] r@[i] == spec_to_coord(i, width as int),
{
    let n: usize = width * height;
    let mut r: Vec<Coord> = Vec::new();
    let mut i: usize = 0;
    while i < n
        invariant
            n == width * height,
            i <= n,
            r@.len() == i,
            coords_fit(width as int, height as int),
            forall|j: int| 0 <= j < i ==> #[trigger] r@[j] == spec_to_coord(j, width as int),
        decreases n - i,
    {
        proof {
            lemma_coord_in_range(i as int, width as int, height as int);
        }
        r.push(to_coord(i, width));
        i = i + 1;
    }
    r
}

} // verus!
