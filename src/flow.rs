use vstd::prelude::*;

use crate::coord::{in_rect, offset8_x, offset8_y, spec_neighbor8, spec_neighbors8, Coord};
use crate::field::{coords_fit, lemma_coord_in_range, lemma_index_in_range, spec_to_1d, Field};
use crate::integration::{lemma_index_injective, lemma_update_val, val};

verus! {

/// The `k`-th of the eight neighbor offsets, as a direction.
pub open spec fn offset8(k: int) -> Coord {
    Coord { x: offset8_x(k), y: offset8_y(k) }
}

/// The zero direction.
pub open spec fn zero_dir() -> Coord {
    Coord { x: 0i32, y: 0i32 }
}

/// Whether the `k`-th neighbor of `c` lies in the field and is reached.
pub open spec fn reached_neighbor(integ: Seq<Option<i32>>, width: int, height: int, c: Coord, k: int) -> bool {
    0 <= k < 8 && in_rect(spec_neighbor8(c, k), width, height) && val(
        integ,
        width,
        spec_neighbor8(c, k),
    ) is Some
}

/// Whether the `k`-th neighbor of `c` is the first, in enumeration order,
/// of the reached neighbors with the least value.
pub open spec fn first_lowest(integ: Seq<Option<i32>>, width: int, height: int, c: Coord, k: int) -> bool {
    &&& reached_neighbor(integ, width, height, c, k)
    &&& forall|j: int|
        #[trigger] reached_neighbor(integ, width, height, c, j) ==> (j < k ==> val(
            integ,
            width,
            spec_neighbor8(c, j),
        )->0 > val(integ, width, spec_neighbor8(c, k))->0) && (j > k ==> val(
            integ,
            width,
            spec_neighbor8(c, j),
        )->0 >= val(integ, width, spec_neighbor8(c, k))->0)
}

/// Whether the flow at `c` is what the integration field gives: none where
/// `c` is unreached; zero at the goal; elsewhere the offset of the first
/// lowest reached neighbor, or zero where no neighbor is reached.
pub open spec fn flow_ok(
    flow: Seq<Option<Coord>>,
    integ: Seq<Option<i32>>,
    width: int,
    height: int,
    goal: Coord,
    c: Coord,
) -> bool {
    if val(integ, width, c) is None {
        val(flow, width, c) is None
    } else if c == goal {
        val(flow, width, c) == Some(zero_dir())
    } else {
        val(flow, width, c) matches Some(d) && ((exists|k: int|
            first_lowest(integ, width, height, c, k) && d == offset8(k)) || ((forall|j: int|
            !#[trigger] reached_neighbor(integ, width, height, c, j)) && d == zero_dir()))
    }
}

/// Whether `flow` is the flow field of `integ` toward `goal`.
pub open spec fn is_flow(
    flow: Seq<Option<Coord>>,
    integ: Seq<Option<i32>>,
    width: int,
    height: int,
    goal: Coord,
) -> bool {
    &&& flow.len() == width * height
    &&& forall|c: Coord|
        in_rect(c, width, height) ==> #[trigger] flow_ok(flow, integ, width, height, goal, c)
}

/// Returns the offset toward the first, in enumeration order, of the
/// reached neighbors of `c` with the least value; zero where none is
/// reached.
fn lowest_neighbor(integ: &Field<Option<i32>>, c: Coord) -> (r: Coord)
    requires
        integ.wf(),
        coords_fit(integ.size.width as int, integ.size.height as int),
        in_rect(c, integ.size.width as int, integ.size.height as int),
        forall|x: Coord|
            in_rect(x, integ.size.width as int, integ.size.height as int) && (#[trigger] val(
                integ.data@,
                integ.size.width as int,
                x,
            )) is Some ==> val(integ.data@, integ.size.width as int, x)->0 < i32::MAX,
    ensures
        (exists|k: int|
            first_lowest(integ.data@, integ.size.width as int, integ.size.height as int, c, k) && r
                == offset8(k)) || ((forall|j: int|
            !#[trigger] reached_neighbor(
                integ.data@,
                integ.size.width as int,
                integ.size.height as int,
                c,
                j,
            )) && r == zero_dir()),
{
    let ghost w = integ.size.width as int;
    let ghost h = integ.size.height as int;
    let nbs = c.neighbors8();
    let mut min_cost: i32 = i32::MAX;
    let mut min_dir = Coord { x: 0, y: 0 };
    let ghost mut best: int = -1;
    let mut k: usize = 0;
    while k < 8
        invariant
            integ.wf(),
            w == integ.size.width,
            h == integ.size.height,
            coords_fit(w, h),
            in_rect(c, w, h),
            nbs@ == spec_neighbors8(c),
            forall|x: Coord|
                in_rect(x, w, h) && (#[trigger] val(integ.data@, w, x)) is Some ==> val(
                    integ.data@,
                    w,
                    x,
                )->0 < i32::MAX,
            k <= 8,
            best == -1 ==> min_cost == i32::MAX && min_dir == zero_dir() && forall|j: int|
                0 <= j < k ==> !#[trigger] reached_neighbor(integ.data@, w, h, c, j),
            best != -1 ==> 0 <= best < k && reached_neighbor(integ.data@, w, h, c, best) && val(
                integ.data@,
                w,
                spec_neighbor8(c, best),
            ) == Some(min_cost) && min_dir == offset8(best) && forall|j: int|
                0 <= j < k && #[trigger] reached_neighbor(integ.data@, w, h, c, j) ==> (j < best
                    ==> val(integ.data@, w, spec_neighbor8(c, j))->0 > min_cost) && (j > best
                    ==> val(integ.data@, w, spec_neighbor8(c, j))->0 >= min_cost),
        decreases 8 - k,
    {
        let nb = nbs[k];
        assert(nb == spec_neighbor8(c, k as int));
        if integ.within_bounds(&nb) {
            if let Some(v) = *integ.get(&nb) {
                if v < min_cost {
                    min_cost = v;
                    min_dir = nb.sub(c);
                    proof {
                        best = k as int;
                    }
                }
            }
        }
        k = k + 1;
    }
    proof {
        if best != -1 {
            assert(first_lowest(integ.data@, w, h, c, best));
        }
    }
    min_dir
}

/// Fills `flow`, which holds no direction yet, with the flow field of
/// `integ` toward `goal`.
pub(crate) fn derive_flow(integ: &Field<Option<i32>>, goal: Coord, flow: &mut Field<Option<Coord>>)
    requires
        integ.wf(),
        old(flow).wf(),
        old(flow).size == integ.size,
        coords_fit(integ.size.width as int, integ.size.height as int),
        forall|i: int| 0 <= i < old(flow).data@.len() ==> #[trigger] old(flow).data@[i] is None,
        forall|x: Coord|
            in_rect(x, integ.size.width as int, integ.size.height as int) && (#[trigger] val(
                integ.data@,
                integ.size.width as int,
                x,
            )) is Some ==> val(integ.data@, integ.size.width as int, x)->0 < i32::MAX,
    ensures
        final(flow).wf(),
        final(flow).size == old(flow).size,
        is_flow(
            final(flow).data@,
            integ.data@,
            integ.size.width as int,
            integ.size.height as int,
            goal,
        ),
{
    let ghost w = integ.size.width as int;
    let ghost h = integ.size.height as int;
    let n: usize = integ.size.width * integ.size.height;
    let mut i: usize = 0;
    proof {
        assert forall|x: Coord| in_rect(x, w, h) implies (#[trigger] val(flow.data@, w, x)) is None by {
            lemma_index_in_range(x, w, h);
        }
    }
    while i < n
        invariant
            integ.wf(),
            flow.wf(),
            flow.size == integ.size,
            w == integ.size.width,
            h == integ.size.height,
            n == w * h,
            i <= n,
            coords_fit(w, h),
            forall|x: Coord|
                in_rect(x, w, h) && (#[trigger] val(integ.data@, w, x)) is Some ==> val(
                    integ.data@,
                    w,
                    x,
                )->0 < i32::MAX,
            forall|x: Coord|
                in_rect(x, w, h) && spec_to_1d(x, w) < i ==> #[trigger] flow_ok(
                    flow.data@,
                    integ.data@,
                    w,
                    h,
                    goal,
                    x,
                ),
            forall|x: Coord|
                in_rect(x, w, h) && spec_to_1d(x, w) >= i ==> (#[trigger] val(
                    flow.data@,
                    w,
                    x,
                )) is None,
        decreases n - i,
    {
        proof {
            lemma_coord_in_range(i as int, w, h);
        }
        let c = integ.to_coord(i);
        let ghost before = flow.data@;
        let here = integ.data[i];
        if here.is_some() {
            let dir = if c.x == goal.x && c.y == goal.y {
                Coord { x: 0, y: 0 }
            } else {
                lowest_neighbor(integ, c)
            };
            flow.set(&c, Some(dir));
            proof {
                lemma_update_val(before, w, h, c, Some(dir));
            }
        }
        proof {
            assert forall|x: Coord| in_rect(x, w, h) implies (spec_to_1d(x, w) < i + 1
                ==> #[trigger] flow_ok(flow.data@, integ.data@, w, h, goal, x)) && (spec_to_1d(x, w)
                >= i + 1 ==> val(flow.data@, w, x) is None) by {
                lemma_index_in_range(x, w, h);
                assert(flow_ok(before, integ.data@, w, h, goal, x) == flow_ok(
                    before,
                    integ.data@,
                    w,
                    h,
                    goal,
                    x,
                ));
                if spec_to_1d(x, w) == i {
                    lemma_index_injective(x, c, w, h);
                    assert(x == c);
                    assert(val(integ.data@, w, c) == here);
                    if here.is_none() {
                        assert(val(flow.data@, w, c) == val(before, w, c));
                    }
                    assert(flow_ok(flow.data@, integ.data@, w, h, goal, x));
                } else {
                    assert(x != c);
                    assert(val(flow.data@, w, x) == val(before, w, x));
                    if spec_to_1d(x, w) < i {
                        assert(flow_ok(before, integ.data@, w, h, goal, x));
                        assert(flow_ok(flow.data@, integ.data@, w, h, goal, x));
                    } else {
                        assert(spec_to_1d(x, w) > i);
                        assert(val(before, w, x) is None);
                    }
                }
            }
            assert forall|x: Coord| in_rect(x, w, h) && spec_to_1d(x, w) >= i + 1 implies (#[trigger] val(
                flow.data@,
                w,
                x,
            )) is None by {
                assert(spec_to_1d(x, w) < i + 1 || val(flow.data@, w, x) is None);
            }
        }
        i = i + 1;
    }
    proof {
        assert forall|x: Coord| in_rect(x, w, h) implies #[trigger] flow_ok(
            flow.data@,
            integ.data@,
            w,
            h,
            goal,
            x,
        ) by {
            lemma_index_in_range(x, w, h);
        }
    }
}

} // verus!
