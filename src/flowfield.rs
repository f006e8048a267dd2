use std::collections::HashMap;

use vstd::prelude::*;

use crate::coord::{in_rect, spec_neighbor8, Coord};
use crate::cost::{cell_costs, cost_overlay, Cost, IMPASSABLE};
use crate::field::{coords_fit, lemma_coord_in_range, spec_to_1d, spec_to_coord, Field};
use crate::flow::{
    derive_flow, first_lowest, flow_ok, is_flow, offset8, reached_neighbor, zero_dir,
};
use crate::grid::Grid;
use crate::integration::{
    fits_i32, integrate, integration_of, is_integration, lemma_integration_le, lemma_weight_bound,
    passable, reached_via, val, weight_bound,
};

verus! {

/// Why a flow field was not computed.
#[derive(Debug, Clone, Copy, PartialEq, Eq, Structural)]
pub enum FlowFieldError {
    /// The goal lies outside the field.
    GoalOutOfBounds,
    /// The cost overlay and the field differ in size.
    SizeMismatch,
    /// The field is too large for its values to fit in an `i32`.
    TooLarge,
}

/// A flow field: toward its goal, the integration field (the least total
/// weight of a path from the goal to each cell) and the direction to move
/// in from each cell, with the goal and the time of the last computation.
#[derive(Debug)]
pub struct FlowField {
    pub goal: Option<Coord>,
    pub flow: Field<Option<Coord>>,
    pub integration: Field<Option<i32>>,
    pub updated_at: Option<u64>,
}

impl FlowField {
    /// Whether both overlays are well formed and of one size.
    pub open spec fn wf(&self) -> bool {
        &&& self.flow.wf()
        &&& self.integration.wf()
        &&& self.flow.size == self.integration.size
        &&& coords_fit(self.flow.size.width as int, self.flow.size.height as int)
    }

    pub open spec fn width(&self) -> int {
        self.flow.size.width as int
    }

    pub open spec fn height(&self) -> int {
        self.flow.size.height as int
    }

    /// Whether both overlays hold nothing.
    pub open spec fn is_blank(&self) -> bool {
        &&& forall|i: int| 0 <= i < self.flow.data@.len() ==> #[trigger] self.flow.data@[i] is None
        &&& forall|i: int|
            0 <= i < self.integration.data@.len() ==> #[trigger] self.integration.data@[i] is None
    }

    /// Creates a flow field of the given dimensions with no goal and no data.
    pub fn new(width: usize, height: usize) -> (r: Self)
        requires
            width * height <= usize::MAX,
            coords_fit(width as int, height as int),
        ensures
            r.wf(),
            r.width() == width,
            r.height() == height,
            r.goal is None,
            r.updated_at is None,
            r.is_blank(),
    {
        let n: usize = width * height;
        Self {
            goal: None,
            flow: Field::new(width, height, vec![None; n]),
            integration: Field::new(width, height, vec![None; n]),
            updated_at: None,
        }
    }

    /// Returns the direction at `coord`: none where it is unreached or
    /// outside the field.
    pub fn get(&self, coord: &Coord) -> (r: Option<Coord>)
        requires
            self.wf(),
        ensures
            r == if in_rect(*coord, self.width(), self.height()) {
                val(self.flow.data@, self.width(), *coord)
            } else {
                None
            },
    {
        if self.flow.within_bounds(coord) {
            *self.flow.get(coord)
        } else {
            None
        }
    }

    /// Sets the direction at `coord`; a coordinate outside the field is
    /// ignored.
    pub fn set(&mut self, coord: &Coord, value: Option<Coord>)
        requires
            old(self).wf(),
        ensures
            final(self).wf(),
            final(self).goal == old(self).goal,
            final(self).updated_at == old(self).updated_at,
            final(self).integration == old(self).integration,
            final(self).flow.size == old(self).flow.size,
            final(self).flow.data@ == if in_rect(*coord, old(self).width(), old(self).height()) {
                old(self).flow.data@.update(spec_to_1d(*coord, old(self).width()), value)
            } else {
                old(self).flow.data@
            },
    {
        if self.flow.within_bounds(coord) {
            self.flow.set(coord, value);
        }
    }

    /// Clears both overlays; the goal is kept.
    pub fn clear(&mut self)
        requires
            old(self).wf(),
        ensures
            final(self).wf(),
            final(self).goal == old(self).goal,
            final(self).updated_at == old(self).updated_at,
            final(self).flow.size == old(self).flow.size,
            final(self).integration.size == old(self).integration.size,
            final(self).is_blank(),
    {
        self.flow.clear();
        self.integration.clear();
    }

    /// Recomputes the field for `goal` over the cost overlay `costs`, at
    /// time `now`. The overlays are cleared and rebuilt in full. The field
    /// is left unchanged, and an error returned, when the goal is outside
    /// the field, the overlay differs in size, or the field is too large
    /// for its values to fit in an `i32`, in that order.
    ///
    /// Entering a cell weighs its cost plus its Manhattan distance to the
    /// goal, which draws paths toward the goal at the expense of least
    /// cost. The goal's own cost is not consulted: a goal on an impassable
    /// cell is accepted, and only the goal is reached when no neighbor can
    /// be entered.
    pub fn compute(&mut self, costs: &Field<Option<Cost>>, goal: Coord, now: u64) -> (r: Result<
        (),
        FlowFieldError,
    >)
        requires
            old(self).wf(),
            costs.wf(),
        ensures
            !in_rect(goal, old(self).width(), old(self).height()) <==> r == Err::<(), FlowFieldError>(
                FlowFieldError::GoalOutOfBounds,
            ),
            in_rect(goal, old(self).width(), old(self).height()) && costs.size != old(self).flow.size
                <==> r == Err::<(), FlowFieldError>(FlowFieldError::SizeMismatch),
            in_rect(goal, old(self).width(), old(self).height()) && costs.size == old(self).flow.size
                && !fits_i32(old(self).width(), old(self).height()) <==> r == Err::<
                (),
                FlowFieldError,
            >(FlowFieldError::TooLarge),
            r is Err ==> *final(self) == *old(self),
            r is Ok ==> {
                &&& final(self).wf()
                &&& final(self).flow.size == old(self).flow.size
                &&& final(self).goal == Some(goal)
                &&& final(self).updated_at == Some(now)
                &&& is_integration(
                    final(self).integration.data@,
                    costs.data@,
                    final(self).width(),
                    final(self).height(),
                    goal,
                )
                &&& is_flow(
                    final(self).flow.data@,
                    final(self).integration.data@,
                    final(self).width(),
                    final(self).height(),
                    goal,
                )
                &&& descends(
                    final(self).flow.data@,
                    final(self).integration.data@,
                    costs.data@,
                    final(self).width(),
                    final(self).height(),
                    goal,
                )
            },
    {
        if !self.flow.within_bounds(&goal) {
            return Err(FlowFieldError::GoalOutOfBounds);
        }
        if costs.size.width != self.flow.size.width || costs.size.height != self.flow.size.height {
            return Err(FlowFieldError::SizeMismatch);
        }
        let width = self.flow.size.width;
        let height = self.flow.size.height;
        let cells: usize = width * height;
        if cells >= 2147483647 {
            proof {
                let b = weight_bound(width as int, height as int);
                assert(cells * b >= cells) by (nonlinear_arith)
                    requires
                        b >= 1,
                ;
            }
            return Err(FlowFieldError::TooLarge);
        }
        proof {
            assert(width <= cells && height <= cells) by (nonlinear_arith)
                requires
                    cells == width * height,
                    width >= 1,
                    height >= 1,
            ;
            assert((cells as int) * (width + height + 255) <= 2147483647 * 4294967551int) by (nonlinear_arith)
                requires
                    cells < 2147483647,
                    width + height + 255 <= 4294967551int,
            ;
        }
        let bound: u64 = width as u64 + height as u64 + IMPASSABLE as u64;
        if (cells as u64) * bound >= 2147483647 {
            return Err(FlowFieldError::TooLarge);
        }
        self.goal = Some(goal);
        self.clear();
        integrate(costs, goal, &mut self.integration);
        derive_flow(&self.integration, goal, &mut self.flow);
        self.updated_at = Some(now);
        proof {
            lemma_descent(
                self.flow.data@,
                self.integration.data@,
                costs.data@,
                width as int,
                height as int,
                goal,
            );
        }
        Ok(())
    }

    /// Recomputes the field for `goal` over the costs recorded for the
    /// occupants of `grid`'s cells, at time `now`; a cell that is empty or
    /// whose occupant has no cost record cannot be entered.
    pub fn recompute(&mut self, grid: &Grid, costs: &HashMap<u64, Cost>, goal: Coord, now: u64) -> (r:
        Result<(), FlowFieldError>)
        requires
            old(self).wf(),
            grid.wf(),
        ensures
            !in_rect(goal, old(self).width(), old(self).height()) <==> r == Err::<(), FlowFieldError>(
                FlowFieldError::GoalOutOfBounds,
            ),
            in_rect(goal, old(self).width(), old(self).height()) && grid.storage.size != old(
                self,
            ).flow.size <==> r == Err::<(), FlowFieldError>(FlowFieldError::SizeMismatch),
            in_rect(goal, old(self).width(), old(self).height()) && grid.storage.size == old(
                self,
            ).flow.size && !fits_i32(old(self).width(), old(self).height()) <==> r == Err::<
                (),
                FlowFieldError,
            >(FlowFieldError::TooLarge),
            r is Err ==> *final(self) == *old(self),
            r is Ok ==> {
                &&& final(self).wf()
                &&& final(self).flow.size == old(self).flow.size
                &&& final(self).goal == Some(goal)
                &&& final(self).updated_at == Some(now)
                &&& is_integration(
                    final(self).integration.data@,
                    cost_overlay(grid.storage.data@, costs@),
                    final(self).width(),
                    final(self).height(),
                    goal,
                )
                &&& is_flow(
                    final(self).flow.data@,
                    final(self).integration.data@,
                    final(self).width(),
                    final(self).height(),
                    goal,
                )
                &&& descends(
                    final(self).flow.data@,
                    final(self).integration.data@,
                    cost_overlay(grid.storage.data@, costs@),
                    final(self).width(),
                    final(self).height(),
                    goal,
                )
            },
    {
        let overlay = cell_costs(grid, costs);
        self.compute(&overlay, goal, now)
    }
}

/// The cell that direction `d` leads to from `c`.
pub open spec fn step(c: Coord, d: Coord) -> Coord {
    Coord { x: (c.x + d.x) as i32, y: (c.y + d.y) as i32 }
}

/// Whether the goal has value 0 and direction zero, and every other
/// reached cell is passable and has a non-zero direction that leads to a
/// reached neighbor of strictly lower value, passable or the goal.
pub open spec fn descends(
    flow: Seq<Option<Coord>>,
    integ: Seq<Option<i32>>,
    costs: Seq<Option<Cost>>,
    width: int,
    height: int,
    goal: Coord,
) -> bool {
    &&& val(integ, width, goal) == Some(0i32)
    &&& val(flow, width, goal) == Some(zero_dir())
    &&& forall|c: Coord|
        in_rect(c, width, height) && c != goal && (#[trigger] val(integ, width, c)) is Some
            ==> passable(costs, width, c) && (val(flow, width, c) matches Some(d) && d
            != zero_dir() && in_rect(step(c, d), width, height) && val(integ, width, step(c, d))
            is Some && val(integ, width, step(c, d))->0 < val(integ, width, c)->0 && (passable(
            costs,
            width,
            step(c, d),
        ) || step(c, d) == goal))
}

/// The goal of a computed field has value 0 and direction zero. From every
/// other reached cell the direction is not zero, and leads to a reached
/// neighbor of strictly lower value that is passable or is the goal; and
/// every reached cell other than the goal is passable, so that no cell
/// without a cost below the impassable cost gets a value.
pub proof fn lemma_descent(
    flow: Seq<Option<Coord>>,
    integ: Seq<Option<i32>>,
    costs: Seq<Option<Cost>>,
    width: int,
    height: int,
    goal: Coord,
)
    requires
        is_integration(integ, costs, width, height, goal),
        is_flow(flow, integ, width, height, goal),
        in_rect(goal, width, height),
        coords_fit(width, height),
    ensures
        val(integ, width, goal) == Some(0i32),
        val(flow, width, goal) == Some(zero_dir()),
        forall|c: Coord|
            in_rect(c, width, height) && c != goal && (#[trigger] val(integ, width, c)) is Some
                ==> passable(costs, width, c),
        forall|c: Coord|
            in_rect(c, width, height) && c != goal && (#[trigger] val(integ, width, c)) is Some
                ==> (val(flow, width, c) matches Some(d) && d != zero_dir() && in_rect(
                step(c, d),
                width,
                height,
            ) && val(integ, width, step(c, d)) is Some && val(integ, width, step(c, d))->0 < val(
                integ,
                width,
                c,
            )->0 && (passable(costs, width, step(c, d)) || step(c, d) == goal)),
{
    assert(flow_ok(flow, integ, width, height, goal, goal));
    assert forall|c: Coord|
        in_rect(c, width, height) && c != goal && (#[trigger] val(integ, width, c)) is Some implies (val(
        flow,
        width,
        c,
    ) matches Some(d) && d != zero_dir() && in_rect(step(c, d), width, height) && val(
        integ,
        width,
        step(c, d),
    ) is Some && val(integ, width, step(c, d))->0 < val(integ, width, c)->0 && (passable(
        costs,
        width,
        step(c, d),
    ) || step(c, d) == goal)) by {
        let k = choose|k: int| reached_via(integ, costs, width, height, goal, c, k);
        lemma_weight_bound(costs, width, height, goal, c);
        assert(flow_ok(flow, integ, width, height, goal, c));
        assert(reached_neighbor(integ, width, height, c, k));
        let d = val(flow, width, c)->0;
        let kk = choose|kk: int| first_lowest(integ, width, height, c, kk) && d == offset8(kk);
        assert(reached_neighbor(integ, width, height, c, kk));
        let n = spec_neighbor8(c, kk);
        assert(step(c, d) == n);
        assert(val(integ, width, n)->0 <= val(integ, width, spec_neighbor8(c, k))->0);
    }
}

/// Proves that one cost overlay and goal admit one integration field, and
/// one flow field over it: a computation repeated on the same costs and
/// goal gives the same overlays.
pub proof fn lemma_integration_unique(
    a: Seq<Option<i32>>,
    b: Seq<Option<i32>>,
    fa: Seq<Option<Coord>>,
    fb: Seq<Option<Coord>>,
    costs: Seq<Option<Cost>>,
    width: int,
    height: int,
    goal: Coord,
)
    requires
        is_integration(a, costs, width, height, goal),
        is_integration(b, costs, width, height, goal),
        is_flow(fa, a, width, height, goal),
        is_flow(fb, b, width, height, goal),
        coords_fit(width, height),
        in_rect(goal, width, height),
    ensures
        a == b,
        fa == fb,
{
    reveal(integration_of);
    assert forall|c: Coord| in_rect(c, width, height) implies #[trigger] val(a, width, c) == val(
        b,
        width,
        c,
    ) by {
        if val(a, width, c) is Some {
            lemma_integration_le(a, b, costs, width, height, goal, c);
        }
        if val(b, width, c) is Some {
            lemma_integration_le(b, a, costs, width, height, goal, c);
        }
    }
    assert forall|i: int| 0 <= i < a.len() implies a[i] == b[i] by {
        lemma_coord_in_range(i, width, height);
        assert(val(a, width, spec_to_coord(i, width)) == val(b, width, spec_to_coord(i, width)));
    }
    assert(a =~= b);
    assert forall|c: Coord| in_rect(c, width, height) implies #[trigger] val(fa, width, c) == val(
        fb,
        width,
        c,
    ) by {
        assert(flow_ok(fa, a, width, height, goal, c));
        assert(flow_ok(fb, a, width, height, goal, c));
        if val(a, width, c) is Some && c != goal {
            let da = val(fa, width, c)->0;
            let db = val(fb, width, c)->0;
            if exists|k: int| first_lowest(a, width, height, c, k) && da == offset8(k) {
                let ka = choose|k: int| first_lowest(a, width, height, c, k) && da == offset8(k);
                assert(reached_neighbor(a, width, height, c, ka));
                if exists|k: int| first_lowest(a, width, height, c, k) && db == offset8(k) {
                    let kb = choose|k: int| first_lowest(a, width, height, c, k) && db == offset8(k);
                    assert(reached_neighbor(a, width, height, c, kb));
                    assert(ka == kb);
                }
            } else if exists|k: int| first_lowest(a, width, height, c, k) && db == offset8(k) {
                let kb = choose|k: int| first_lowest(a, width, height, c, k) && db == offset8(k);
                assert(reached_neighbor(a, width, height, c, kb));
            }
        }
    }
    assert forall|i: int| 0 <= i < fa.len() implies fa[i] == fb[i] by {
        lemma_coord_in_range(i, width, height);
        assert(val(fa, width, spec_to_coord(i, width)) == val(fb, width, spec_to_coord(i, width)));
    }
    assert(fa =~= fb);
}

/// An event asking for the flow field of the grid `grid_entity` to be
/// recomputed for `goal`.
#[derive(Debug, Clone, Copy, PartialEq, Eq, Structural)]
pub struct ComputeFlowField {
    pub goal: Coord,
    pub grid_entity: u64,
}

} // verus!
