use vstd::prelude::*;

use crate::coord::Coord;
use crate::cost::{Cost, IMPASSABLE};
use crate::flowfield::ComputeFlowField;

verus! {

/// The state of the cost painting tool: whether a stroke is under way, and
/// whether it blocks cells or opens them.
#[derive(Debug, Default, Clone, Copy, PartialEq, Eq, Structural)]
pub struct PaintData {
    pub block: bool,
    pub is_painting: bool,
}

/// The mouse buttons in one tick.
#[derive(Debug, Default, Clone, Copy, PartialEq, Eq, Structural)]
pub struct PointerButtons {
    pub left_just_pressed: bool,
    pub right_just_pressed: bool,
    pub right_pressed: bool,
    pub right_just_released: bool,
}

/// What one tick of the tool asks for: a flow field recompute, and a cost
/// to write to the hovered cell.
#[derive(Debug, Clone, Copy, PartialEq, Eq, Structural)]
pub struct PaintStep {
    pub compute: Option<ComputeFlowField>,
    pub paint: Option<Cost>,
}

/// The tool's state after a tick over an in-bounds cell whose cost is
/// `cell_cost`: a right press starts a stroke that blocks unless the cell
/// is blocked already, and a right release ends it.
pub open spec fn next_paint(state: PaintData, buttons: PointerButtons, cell_cost: Option<Cost>) -> PaintData {
    let started = if buttons.right_just_pressed {
        PaintData {
            block: match cell_cost {
                Some(k) => k.0 != IMPASSABLE,
                None => state.block,
            },
            is_painting: true,
        }
    } else {
        state
    };
    if buttons.right_just_released {
        PaintData { is_painting: false, ..started }
    } else {
        started
    }
}

impl PaintData {
    /// Runs one tick of the tool with the pointer over `coord`. Over a cell
    /// outside the grid nothing happens. A left press asks for the flow
    /// field of `grid_entity` to be recomputed toward `coord`; while a
    /// stroke is under way and the right button held, the cell (if it has
    /// a cost record) is painted impassable or free.
    pub fn update(
        &mut self,
        buttons: PointerButtons,
        grid_entity: u64,
        coord: Coord,
        in_bounds: bool,
        cell_cost: Option<Cost>,
    ) -> (r: PaintStep)
        ensures
            !in_bounds ==> *final(self) == *old(self) && r.compute is None && r.paint is None,
            in_bounds ==> {
                let mid = next_paint(
                    *old(self),
                    PointerButtons { right_just_released: false, ..buttons },
                    cell_cost,
                );
                &&& *final(self) == next_paint(*old(self), buttons, cell_cost)
                &&& r.compute == if buttons.left_just_pressed {
                    Some(ComputeFlowField { goal: coord, grid_entity })
                } else {
                    None
                }
                &&& r.paint == if buttons.right_pressed && mid.is_painting && cell_cost is Some {
                    Some(
                        if mid.block {
                            Cost(IMPASSABLE)
                        } else {
                            Cost(0)
                        },
                    )
                } else {
                    None
                }
            },
    {
        if !in_bounds {
            return PaintStep { compute: None, paint: None };
        }
        let compute = if buttons.left_just_pressed {
            Some(ComputeFlowField { goal: coord, grid_entity })
        } else {
            None
        };
        if buttons.right_just_pressed {
            self.is_painting = true;
            if let Some(cost) = cell_cost {
                self.block = !cost.is_impassable();
            }
        }
        let mut paint: Option<Cost> = None;
        if buttons.right_pressed && self.is_painting {
            if cell_cost.is_some() {
                paint = Some(
                    if self.block {
                        Cost::impassable()
                    } else {
                        Cost::free()
                    },
                );
            }
        }
        if buttons.right_just_released {
            self.is_painting = false;
        }
        PaintStep { compute, paint }
    }
}

} // verus!
