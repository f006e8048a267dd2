use std::collections::HashMap;

use vstd::prelude::*;

use crate::field::Field;
use crate::grid::Grid;

verus! {

broadcast use vstd::std_specs::hash::group_hash_axioms;

/// The largest cost; a cell with this cost cannot be entered.
pub const IMPASSABLE: u8 = 255;

/// The cost of a tile when calculating a flow field.
#[derive(Debug, PartialEq, Eq, Structural, Clone, Copy)]
pub struct Cost(pub u8);

impl Cost {
    /// The cost of an impassable tile.
    pub fn impassable() -> (r: Cost)
        ensures
            r == Cost(IMPASSABLE),
    {
        Cost(IMPASSABLE)
    }

    /// The cost of open terrain.
    pub fn free() -> (r: Cost)
        ensures
            r == Cost(0),
    {
        Cost(0)
    }

    /// Whether a tile of this cost cannot be entered.
    pub fn is_impassable(&self) -> (r: bool)
        ensures
            r == (self.0 == IMPASSABLE),
    {
        self.0 == IMPASSABLE
    }
}

impl Default for Cost {
    fn default() -> (r: Self)
        ensures
            r == Cost(0),
    {
        Cost(0)
    }
}

/// The cost of the cell that holds `cell`: the cost recorded for its
/// occupant, if it has one.
pub open spec fn cell_cost(cell: Option<u64>, costs: Map<u64, Cost>) -> Option<Cost> {
    match cell {
        Some(id) => if costs.contains_key(id) {
            Some(costs[id])
        } else {
            None
        },
        None => None,
    }
}

/// The cost overlay of a grid's cells.
pub open spec fn cost_overlay(cells: Seq<Option<u64>>, costs: Map<u64, Cost>) -> Seq<Option<Cost>> {
    Seq::new(cells.len(), |i: int| cell_cost(cells[i], costs))
}

/// Returns the cost overlay of the grid: for each cell, the cost recorded
/// for its occupant, or none where the cell is empty or has no record.
pub fn cell_costs(grid: &Grid, costs: &HashMap<u64, Cost>) -> (r: Field<Option<Cost>>)
    requires
        grid.wf(),
    ensures
        r.wf(),
        r.size == grid.storage.size,
        r.data@ == cost_overlay(grid.storage.data@, costs@),
{
    let n = grid.storage.data.len();
    let mut data: Vec<Option<Cost>> = Vec::new();
    let mut i: usize = 0;
    while i < n
        invariant
            n == grid.storage.data@.len(),
            i <= n,
            data@ == cost_overlay(grid.storage.data@, costs@).take(i as int),
        decreases n - i,
    {
        let cost = match grid.storage.data[i] {
            Some(id) => match costs.get(&id) {
                Some(k) => Some(*k),
                None => None,
            },
            None => None,
        };
        data.push(cost);
        assert(data@ =~= cost_overlay(grid.storage.data@, costs@).take(i + 1));
        i = i + 1;
    }
    assert(data@ =~= cost_overlay(grid.storage.data@, costs@));
    Field::new(grid.storage.size.width, grid.storage.size.height, data)
}

} // verus!
