use std::collections::HashMap;

use vstd::prelude::*;

use crate::coord::{in_rect, Coord};
use crate::field::{
    coords_fit, iter_coords, lemma_index_in_range, lemma_index_inverse, spec_to_1d, spec_to_coord, Field,
};

verus! {

broadcast use vstd::std_specs::hash::group_hash_axioms;

/// Whether the occupancy cells (row by row, `width` wide) and the map from
/// occupant to coordinate describe each other: every recorded occupant sits
/// in its recorded cell, and every occupied cell holds an occupant whose
/// record names that cell, so that no occupant holds two cells.
pub open spec fn consistent(
    cells: Seq<Option<u64>>,
    backward: Map<u64, Coord>,
    width: int,
    height: int,
) -> bool {
    &&& forall|id: u64|
        #[trigger] backward.contains_key(id) ==> in_rect(backward[id], width, height)
            && cells[spec_to_1d(backward[id], width)] == Some(id)
    &&& forall|i: int|
        0 <= i < cells.len() && #[trigger] cells[i] is Some ==> backward.contains_key(
            cells[i]->0,
        ) && spec_to_1d(backward[cells[i]->0], width) == i
}

/// Whether `id` may take cell `c`: it lies in the grid and is free or
/// already held by `id`.
pub open spec fn can_claim(cells: Seq<Option<u64>>, width: int, height: int, id: u64, c: Coord) -> bool {
    in_rect(c, width, height) && (cells[spec_to_1d(c, width)] is None
        || cells[spec_to_1d(c, width)] == Some(id))
}

/// The cells after `id` moves to `c`: its former cell, if any, is vacated
/// and `c` is claimed.
pub open spec fn moved_cells(
    cells: Seq<Option<u64>>,
    backward: Map<u64, Coord>,
    width: int,
    id: u64,
    c: Coord,
) -> Seq<Option<u64>> {
    let vacated = if backward.contains_key(id) {
        cells.update(spec_to_1d(backward[id], width), None)
    } else {
        cells
    };
    vacated.update(spec_to_1d(c, width), Some(id))
}

/// Why an occupant could not be placed.
#[derive(Debug, Clone, Copy, PartialEq, Eq, Structural)]
pub enum OccupancyError {
    /// The destination lies outside the grid.
    OutOfBounds,
    /// The destination is held by the given other occupant.
    Occupied(u64),
}

/// A rectangular grid in which each cell holds at most one occupant, with
/// the reverse index from occupant to cell.
#[derive(Debug)]
pub struct Grid {
    pub storage: Field<Option<u64>>,
    pub backward: HashMap<u64, Coord>,
}

impl Grid {
    /// Whether the grid's storage is well formed and its two indices agree.
    pub open spec fn wf(&self) -> bool {
        &&& self.storage.wf()
        &&& coords_fit(self.storage.size.width as int, self.storage.size.height as int)
        &&& consistent(
            self.storage.data@,
            self.backward@,
            self.storage.size.width as int,
            self.storage.size.height as int,
        )
    }

    pub open spec fn width(&self) -> int {
        self.storage.size.width as int
    }

    pub open spec fn height(&self) -> int {
        self.storage.size.height as int
    }

    /// Creates a new grid with the given dimensions and no occupants.
    pub fn new(width: usize, height: usize) -> (r: Self)
        requires
            width * height <= usize::MAX,
            coords_fit(width as int, height as int),
        ensures
            r.wf(),
            r.width() == width,
            r.height() == height,
            r.backward@.is_empty(),
            forall|i: int| 0 <= i < r.storage.data@.len() ==> #[trigger] r.storage.data@[i] is None,
    {
        let n: usize = width * height;
        let data: Vec<Option<u64>> = vec![None; n];
        let r = Self { storage: Field::new(width, height, data), backward: HashMap::new() };
        assert(r.backward@ =~= Map::empty());
        r
    }

    /// Returns true if the given coordinate is within the grid dimensions.
    pub fn within_bounds(&self, coord: &Coord) -> (r: bool)
        ensures
            r == in_rect(*coord, self.width(), self.height()),
    {
        self.storage.within_bounds(coord)
    }

    /// Returns the occupant at the given coordinate.
    pub fn get(&self, coord: &Coord) -> (r: Option<u64>)
        requires
            self.wf(),
            in_rect(*coord, self.width(), self.height()),
        ensures
            r == self.storage.at(*coord),
    {
        *self.storage.get(coord)
    }

    /// Records that `entity` now stands at `coord`. A prior cell of the
    /// entity is vacated. The grid is left unchanged, and an error returned,
    /// when `coord` is outside the grid or held by another occupant.
    pub fn maintain_entity(&mut self, entity: u64, coord: Coord) -> (r: Result<(), OccupancyError>)
        requires
            old(self).wf(),
        ensures
            final(self).wf(),
            final(self).storage.size == old(self).storage.size,
            !in_rect(coord, old(self).width(), old(self).height()) <==> r == Err::<
                (),
                OccupancyError,
            >(OccupancyError::OutOfBounds),
            r is Ok <==> can_claim(
                old(self).storage.data@,
                old(self).width(),
                old(self).height(),
                entity,
                coord,
            ),
            r matches Err(OccupancyError::Occupied(other)) ==> other != entity
                && old(self).storage.at(coord) == Some(other),
            r is Ok ==> final(self).backward@ == old(self).backward@.insert(entity, coord)
                && final(self).storage.data@ == moved_cells(
                old(self).storage.data@,
                old(self).backward@,
                old(self).width(),
                entity,
                coord,
            ),
            r is Err ==> final(self).backward@ == old(self).backward@ && final(self).storage.data@
                == old(self).storage.data@,
    {
        if !self.storage.within_bounds(&coord) {
            return Err(OccupancyError::OutOfBounds);
        }
        let here = *self.storage.get(&coord);
        if let Some(other) = here {
            if other != entity {
                return Err(OccupancyError::Occupied(other));
            }
        }
        let ghost cells = self.storage.data@;
        let ghost backward = self.backward@;
        let ghost w = self.width();
        let ghost h = self.height();
        proof {
            lemma_index_in_range(coord, w, h);
            lemma_index_inverse(coord, w, h);
        }
        match self.backward.get(&entity) {
            Some(old_coord) => {
                let old_coord = *old_coord;
                if old_coord != coord {
                    proof {
                        lemma_index_in_range(old_coord, w, h);
                        lemma_index_inverse(old_coord, w, h);
                    }
                    self.storage.set(&old_coord, None);
                    self.storage.set(&coord, Some(entity));
                    self.backward.insert(entity, coord);
                } else {
                    assert(self.backward@.insert(entity, coord) =~= self.backward@);
                    assert(moved_cells(cells, backward, w, entity, coord) =~= cells);
                }
            },
            None => {
                self.storage.set(&coord, Some(entity));
                self.backward.insert(entity, coord);
            },
        }
        proof {
            lemma_moved_consistent(cells, backward, w, h, entity, coord);
        }
        Ok(())
    }
}

/// Proves that moving an occupant to a cell it may claim keeps the two
/// indices consistent.
pub proof fn lemma_moved_consistent(
    cells: Seq<Option<u64>>,
    backward: Map<u64, Coord>,
    width: int,
    height: int,
    id: u64,
    c: Coord,
)
    requires
        consistent(cells, backward, width, height),
        cells.len() == width * height,
        coords_fit(width, height),
        can_claim(cells, width, height, id, c),
    ensures
        consistent(moved_cells(cells, backward, width, id, c), backward.insert(id, c), width, height),
        moved_cells(cells, backward, width, id, c).len() == cells.len(),
{
    let cells2 = moved_cells(cells, backward, width, id, c);
    let b2 = backward.insert(id, c);
    let ic = spec_to_1d(c, width);
    lemma_index_in_range(c, width, height);
    if backward.contains_key(id) {
        lemma_index_in_range(backward[id], width, height);
    }
    assert forall|k: u64| #[trigger] b2.contains_key(k) implies in_rect(b2[k], width, height)
        && cells2[spec_to_1d(b2[k], width)] == Some(k) by {
        if k != id {
            let ik = spec_to_1d(backward[k], width);
            lemma_index_in_range(backward[k], width, height);
            if ik == ic {
                assert(cells[ic] == Some(k));
            }
            if backward.contains_key(id) && ik == spec_to_1d(backward[id], width) {
                assert(cells[ik] == Some(id));
            }
        }
    }
    assert forall|i: int| 0 <= i < cells2.len() && #[trigger] cells2[i] is Some implies b2.contains_key(
        cells2[i]->0,
    ) && spec_to_1d(b2[cells2[i]->0], width) == i by {
        if i != ic {
            let k = cells2[i]->0;
            assert(cells[i] == Some(k));
            if k == id {
                assert(backward.contains_key(id));
                assert(spec_to_1d(backward[id], width) == i);
            }
        }
    }
}

/// Placing an occupant twice at the same coordinate leaves it recorded at
/// that coordinate and present in exactly that one cell: the second
/// placement changes nothing.
pub proof fn lemma_maintain_twice(
    cells: Seq<Option<u64>>,
    backward: Map<u64, Coord>,
    width: int,
    height: int,
    id: u64,
    c: Coord,
)
    requires
        consistent(cells, backward, width, height),
        cells.len() == width * height,
        coords_fit(width, height),
        can_claim(cells, width, height, id, c),
    ensures
        ({
            let cells1 = moved_cells(cells, backward, width, id, c);
            let b1 = backward.insert(id, c);
            let cells2 = moved_cells(cells1, b1, width, id, c);
            let b2 = b1.insert(id, c);
            &&& can_claim(cells1, width, height, id, c)
            &&& cells2 == cells1
            &&& b2 == b1
            &&& b2.contains_key(id) && b2[id] == c
            &&& forall|i: int|
                0 <= i < cells2.len() ==> (#[trigger] cells2[i] == Some(id) <==> i == spec_to_1d(
                    c,
                    width,
                ))
        }),
{
    let cells1 = moved_cells(cells, backward, width, id, c);
    let b1 = backward.insert(id, c);
    lemma_moved_consistent(cells, backward, width, height, id, c);
    lemma_index_in_range(c, width, height);
    let ic = spec_to_1d(c, width);
    assert(cells1[ic] == Some(id));
    let cells2 = moved_cells(cells1, b1, width, id, c);
    assert(cells2 =~= cells1);
    assert(b1.insert(id, c) =~= b1);
    assert forall|i: int| 0 <= i < cells2.len() implies (#[trigger] cells2[i] == Some(id) <==> i
        == ic) by {
        if cells2[i] == Some(id) {
            assert(cells1[i] is Some);
        }
    }
}

/// The data of one cell of a grid: its coordinate.
#[derive(Debug, Default, Clone, Copy, PartialEq, Eq, Structural)]
pub struct CellBundle {
    pub coord: Coord,
}

impl CellBundle {
    /// Creates the data of the cell at `coord`.
    pub fn new(coord: Coord) -> (r: Self)
        ensures
            r.coord == coord,
    {
        Self { coord }
    }
}

/// Returns the data of every cell of a `width` x `height` grid, row by row.
pub fn cell_bundles(width: usize, height: usize) -> (r: Vec<CellBundle>)
    requires
        width * height <= usize::MAX,
        coords_fit(width as int, height as int),
    ensures
        r@.len() == width * height,
        forall|i: int|
            0 <= i < r@.len() ==> (#[trigger] r@[i]).coord == spec_to_coord(i, width as int),
{
    let coords = iter_coords(width, height);
    let mut r: Vec<CellBundle> = Vec::new();
    let mut i: usize = 0;
    while i < coords.len()
        invariant
            coords@.len() == width * height,
            forall|j: int| 0 <= j < coords@.len() ==> #[trigger] coords@[j] == spec_to_coord(j, width as int),
            i <= coords@.len(),
            r@.len() == i,
            forall|j: int| 0 <= j < i ==> (#[trigger] r@[j]).coord == spec_to_coord(j, width as int),
        decreases coords@.len() - i,
    {
        r.push(CellBundle::new(coords[i]));
        i = i + 1;
    }
    r
}

} // verus!
