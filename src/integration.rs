use vstd::prelude::*;
use vstd::set_lib::{lemma_int_range, lemma_len_subset, set_int_range};

use crate::coord::{in_rect, manhattan, offset8_x, offset8_y, spec_neighbor8, spec_neighbors8, Coord};
use crate::cost::{Cost, IMPASSABLE};
use crate::field::{coords_fit, lemma_coord_in_range, lemma_index_in_range, lemma_index_inverse, spec_to_1d, Field};

verus! {

/// The value of the field `s` (of the given width) at `c`.
pub open spec fn val<T>(s: Seq<T>, width: int, c: Coord) -> T {
    s[spec_to_1d(c, width)]
}

/// Whether cell `c` has a cost record below the impassable cost.
pub open spec fn passable(costs: Seq<Option<Cost>>, width: int, c: Coord) -> bool {
    val(costs, width, c) matches Some(k) && k.0 < IMPASSABLE
}

/// The weight of entering cell `c` on the way out from `goal`: its cost
/// plus its Manhattan distance to the goal.
pub open spec fn weight(costs: Seq<Option<Cost>>, width: int, goal: Coord, c: Coord) -> int {
    let k = match val(costs, width, c) {
        Some(k) => k.0 as int,
        None => 0,
    };
    k + manhattan(c, goal)
}

/// Whether the `k`-th neighbor of `c` is a predecessor of `c`: it lies in
/// the field, is reached, and `c`'s value is its value plus the weight of `c`.
pub open spec fn reached_via(
    integ: Seq<Option<i32>>,
    costs: Seq<Option<Cost>>,
    width: int,
    height: int,
    goal: Coord,
    c: Coord,
    k: int,
) -> bool {
    let p = spec_neighbor8(c, k);
    &&& 0 <= k < 8
    &&& in_rect(p, width, height)
    &&& val(integ, width, p) is Some
    &&& val(integ, width, c)->0 == val(integ, width, p)->0 + weight(costs, width, goal, c)
}

/// Whether the `k`-th neighbor `n` of `c`, if it lies in the field and is
/// passable, has a value at most `c`'s value plus the weight of `n`.
pub open spec fn relax_ok(
    integ: Seq<Option<i32>>,
    costs: Seq<Option<Cost>>,
    width: int,
    height: int,
    goal: Coord,
    c: Coord,
    k: int,
) -> bool {
    let n = spec_neighbor8(c, k);
    in_rect(n, width, height) && passable(costs, width, n) ==> val(integ, width, n) is Some && val(
        integ,
        width,
        n,
    )->0 <= val(integ, width, c)->0 + weight(costs, width, goal, n)
}

/// Whether every passable neighbor `n` of `c` has a value at most `c`'s
/// value plus the weight of `n`.
pub open spec fn relaxed(
    integ: Seq<Option<i32>>,
    costs: Seq<Option<Cost>>,
    width: int,
    height: int,
    goal: Coord,
    c: Coord,
) -> bool {
    forall|k: int| 0 <= k < 8 ==> #[trigger] relax_ok(integ, costs, width, height, goal, c, k)
}

/// Whether `integ` is the integration field of `goal` over `costs`: the
/// goal has value 0; every other reached cell is passable and has a
/// reached neighbor of which it is the successor; and no reached cell
/// offers a passable neighbor a value above its own plus that neighbor's
/// weight. Each value is thus the total weight of an 8-connected path of
/// passable cells from the goal, no other such path is lighter, and cells
/// that no such path reaches have no value; one field at most meets this
/// (`lemma_integration_unique`).
pub open spec fn is_integration(
    integ: Seq<Option<i32>>,
    costs: Seq<Option<Cost>>,
    width: int,
    height: int,
    goal: Coord,
) -> bool {
    &&& integ.len() == width * height
    &&& val(integ, width, goal) == Some(0i32)
    &&& forall|c: Coord|
        in_rect(c, width, height) && c != goal && (#[trigger] val(integ, width, c)) is Some
            ==> passable(costs, width, c) && exists|k: int|
            reached_via(integ, costs, width, height, goal, c, k)
    &&& forall|c: Coord|
        in_rect(c, width, height) && (#[trigger] val(integ, width, c)) is Some ==> relaxed(
            integ,
            costs,
            width,
            height,
            goal,
            c,
        )
}

/// A bound on the weight of entering any cell.
pub open spec fn weight_bound(width: int, height: int) -> int {
    width + height + IMPASSABLE
}

/// Whether every value of the integration field of a `width` x `height`
/// grid fits in an `i32`.
pub open spec fn fits_i32(width: int, height: int) -> bool {
    width * height * weight_bound(width, height) < i32::MAX
}

/// Whether entry `a` of the search queue comes no later than `b`: by cost,
/// then by coordinate.
pub open spec fn entry_le(a: (i32, Coord), b: (i32, Coord)) -> bool {
    a.0 < b.0 || (a.0 == b.0 && (a.1.x < b.1.x || (a.1.x == b.1.x && a.1.y <= b.1.y)))
}

/// Returns the index of the first entry of the queue in order of cost, then
/// coordinate.
fn min_entry(queue: &Vec<(i32, Coord)>) -> (m: usize)
    requires
        queue@.len() > 0,
    ensures
        m < queue@.len(),
        forall|j: int| 0 <= j < queue@.len() ==> entry_le(queue@[m as int], #[trigger] queue@[j]),
{
    let mut m: usize = 0;
    let mut j: usize = 1;
    while j < queue.len()
        invariant
            0 <= m < j <= queue@.len(),
            forall|i: int| 0 <= i < j ==> entry_le(queue@[m as int], #[trigger] queue@[i]),
        decreases queue@.len() - j,
    {
        let a = queue[m];
        let b = queue[j];
        if b.0 < a.0 || (b.0 == a.0 && (b.1.x < a.1.x || (b.1.x == a.1.x && b.1.y < a.1.y))) {
            m = j;
        }
        j = j + 1;
    }
    m
}

/// Whether the `k`-th neighbor of `c` is a predecessor of `c` that the
/// search has settled.
pub open spec fn settled_via(
    integ: Seq<Option<i32>>,
    costs: Seq<Option<Cost>>,
    vis: Seq<bool>,
    width: int,
    height: int,
    goal: Coord,
    c: Coord,
    k: int,
) -> bool {
    reached_via(integ, costs, width, height, goal, c, k) && val(vis, width, spec_neighbor8(c, k))
}

/// Every reached cell but the goal is passable and has a settled predecessor.
#[verifier::opaque]
pub open spec fn inv_supported(
    integ: Seq<Option<i32>>,
    costs: Seq<Option<Cost>>,
    vis: Seq<bool>,
    width: int,
    height: int,
    goal: Coord,
) -> bool {
    forall|c: Coord|
        in_rect(c, width, height) && c != goal && (#[trigger] val(integ, width, c)) is Some
            ==> passable(costs, width, c) && exists|k: int|
            settled_via(integ, costs, vis, width, height, goal, c, k)
}

/// Every queue entry names a reached cell, is no less than the cell's
/// value, and is at least `floor`.
#[verifier::opaque]
pub open spec fn inv_queue(
    integ: Seq<Option<i32>>,
    queue: Seq<(i32, Coord)>,
    width: int,
    height: int,
    floor: int,
) -> bool {
    forall|j: int|
        0 <= j < queue.len() ==> in_rect((#[trigger] queue[j]).1, width, height) && val(
            integ,
            width,
            queue[j].1,
        ) is Some && val(integ, width, queue[j].1)->0 <= queue[j].0 && queue[j].0 >= floor
}

/// Every reached cell not yet settled has an entry of its value queued.
#[verifier::opaque]
pub open spec fn inv_pending(
    integ: Seq<Option<i32>>,
    vis: Seq<bool>,
    queue: Seq<(i32, Coord)>,
    width: int,
    height: int,
) -> bool {
    forall|c: Coord|
        in_rect(c, width, height) && (#[trigger] val(integ, width, c)) is Some && !val(
            vis,
            width,
            c,
        ) ==> queue.contains((val(integ, width, c)->0, c))
}

/// Every settled cell is reached, with a value at most `floor`.
#[verifier::opaque]
pub open spec fn inv_settled(
    integ: Seq<Option<i32>>,
    vis: Seq<bool>,
    width: int,
    height: int,
    floor: int,
) -> bool {
    forall|c: Coord|
        in_rect(c, width, height) && #[trigger] val(vis, width, c) ==> val(integ, width, c) is Some
            && val(integ, width, c)->0 <= floor
}

/// Every value lies in `[0, bound]`.
#[verifier::opaque]
pub open spec fn inv_bounded(integ: Seq<Option<i32>>, width: int, height: int, bound: int) -> bool {
    forall|c: Coord|
        in_rect(c, width, height) && (#[trigger] val(integ, width, c)) is Some ==> 0 <= val(
            integ,
            width,
            c,
        )->0 <= bound
}

/// The state of the search: values found so far, settled cells, and the
/// queue of pending entries, all entries at least `floor`, and every value
/// at most `nvis` times the weight bound.
pub open spec fn search_inv(
    integ: Seq<Option<i32>>,
    costs: Seq<Option<Cost>>,
    vis: Seq<bool>,
    queue: Seq<(i32, Coord)>,
    width: int,
    height: int,
    goal: Coord,
    floor: int,
    nvis: int,
) -> bool {
    &&& integ.len() == width * height
    &&& vis.len() == width * height
    &&& costs.len() == width * height
    &&& in_rect(goal, width, height)
    &&& coords_fit(width, height)
    &&& 0 <= floor
    &&& val(integ, width, goal) == Some(0i32)
    &&& inv_supported(integ, costs, vis, width, height, goal)
    &&& inv_queue(integ, queue, width, height, floor)
    &&& inv_pending(integ, vis, queue, width, height)
    &&& inv_settled(integ, vis, width, height, floor)
    &&& inv_bounded(integ, width, height, nvis * weight_bound(width, height))
}

/// Whether every settled cell other than `cur` is relaxed.
#[verifier::opaque]
pub open spec fn settled_relaxed(
    integ: Seq<Option<i32>>,
    costs: Seq<Option<Cost>>,
    vis: Seq<bool>,
    width: int,
    height: int,
    goal: Coord,
    cur: Option<Coord>,
) -> bool {
    forall|c: Coord|
        in_rect(c, width, height) && #[trigger] val(vis, width, c) && cur != Some(c) ==> relaxed(
            integ,
            costs,
            width,
            height,
            goal,
            c,
        )
}

/// Proves that two in-bounds coordinates with the same index are equal.
pub(crate) proof fn lemma_index_injective(a: Coord, b: Coord, width: int, height: int)
    requires
        in_rect(a, width, height),
        in_rect(b, width, height),
        spec_to_1d(a, width) == spec_to_1d(b, width),
    ensures
        a == b,
{
    lemma_index_inverse(a, width, height);
    lemma_index_inverse(b, width, height);
}

/// Proves that the opposite offset leads back: the `(7 - k)`-th neighbor of
/// the `k`-th neighbor of `c` is `c`.
pub(crate) proof fn lemma_neighbor_back(c: Coord, k: int, width: int, height: int)
    requires
        0 <= k < 8,
        in_rect(c, width, height),
        coords_fit(width, height),
    ensures
        spec_neighbor8(spec_neighbor8(c, k), 7 - k) == c,
        offset8_x(7 - k) == -offset8_x(k),
        offset8_y(7 - k) == -offset8_y(k),
{
}

/// Proves that entering a cell in the field weighs at most the bound.
pub(crate) proof fn lemma_weight_bound(costs: Seq<Option<Cost>>, width: int, height: int, goal: Coord, c: Coord)
    requires
        in_rect(c, width, height),
        in_rect(goal, width, height),
        passable(costs, width, c),
    ensures
        1 <= weight_bound(width, height),
        0 <= weight(costs, width, goal, c) <= weight_bound(width, height),
        c != goal ==> weight(costs, width, goal, c) >= 1,
{
}

/// Proves what an update at the index of `n` does to the value at each
/// in-bounds coordinate.
pub(crate) proof fn lemma_update_val<T>(s: Seq<T>, width: int, height: int, n: Coord, v: T)
    requires
        in_rect(n, width, height),
        s.len() == width * height,
    ensures
        s.update(spec_to_1d(n, width), v).len() == s.len(),
        forall|x: Coord|
            in_rect(x, width, height) ==> #[trigger] val(s.update(spec_to_1d(n, width), v), width, x)
                == if x == n {
                v
            } else {
                val(s, width, x)
            },
{
    lemma_index_in_range(n, width, height);
    assert forall|x: Coord| in_rect(x, width, height) implies #[trigger] val(
        s.update(spec_to_1d(n, width), v),
        width,
        x,
    ) == if x == n {
        v
    } else {
        val(s, width, x)
    } by {
        lemma_index_in_range(x, width, height);
        if spec_to_1d(x, width) == spec_to_1d(n, width) {
            lemma_index_injective(x, n, width, height);
        }
    }
}

/// Whether every value of `a` is present in `b` and no smaller there.
pub open spec fn no_larger(a: Seq<Option<i32>>, b: Seq<Option<i32>>, width: int, height: int) -> bool {
    forall|x: Coord|
        in_rect(x, width, height) && (#[trigger] val(a, width, x)) is Some ==> val(b, width, x) is Some
            && val(b, width, x)->0 <= val(a, width, x)->0
}

/// Proves that lowering the values of other cells keeps a cell relaxed.
proof fn lemma_relaxed_kept(
    a: Seq<Option<i32>>,
    b: Seq<Option<i32>>,
    costs: Seq<Option<Cost>>,
    width: int,
    height: int,
    goal: Coord,
    c: Coord,
)
    requires
        no_larger(a, b, width, height),
        val(a, width, c) == val(b, width, c),
        relaxed(a, costs, width, height, goal, c),
    ensures
        relaxed(b, costs, width, height, goal, c),
{
    assert forall|k: int| 0 <= k < 8 implies #[trigger] relax_ok(b, costs, width, height, goal, c, k) by {
        assert(relax_ok(a, costs, width, height, goal, c, k));
        let n = spec_neighbor8(c, k);
        if in_rect(n, width, height) && passable(costs, width, n) {
            assert(val(a, width, n) is Some);
        }
    }
}

/// Proves that removing an entry other than `e` keeps `e` in the sequence.
proof fn lemma_remove_keeps<A>(s: Seq<A>, m: int, e: A)
    requires
        0 <= m < s.len(),
        s.contains(e),
        s[m] != e,
    ensures
        s.remove(m).contains(e),
{
    let i = choose|i: int| 0 <= i < s.len() && s[i] == e;
    if i < m {
        assert(s.remove(m)[i] == e);
    } else {
        assert(s.remove(m)[i - 1] == e);
    }
}

/// The situation in which the search lowers the value of the `k`-th
/// neighbor `n` of the settled cell `c` to `cand`.
pub open spec fn relax_pre(
    integ: Seq<Option<i32>>,
    costs: Seq<Option<Cost>>,
    vis: Seq<bool>,
    queue: Seq<(i32, Coord)>,
    width: int,
    height: int,
    goal: Coord,
    q: int,
    nvis: int,
    c: Coord,
    k: int,
    cand: int,
) -> bool {
    let n = spec_neighbor8(c, k);
    &&& search_inv(integ, costs, vis, queue, width, height, goal, q, nvis)
    &&& fits_i32(width, height)
    &&& 0 <= nvis <= width * height
    &&& in_rect(c, width, height)
    &&& val(vis, width, c)
    &&& val(integ, width, c) == Some(q as i32)
    &&& q + weight_bound(width, height) <= nvis * weight_bound(width, height)
    &&& 0 <= k < 8
    &&& in_rect(n, width, height)
    &&& passable(costs, width, n)
    &&& cand == q + weight(costs, width, goal, n)
    &&& (val(integ, width, n) is None || cand < val(integ, width, n)->0)
}

/// Proves the simple facts about a relaxation: the neighbor is unsettled,
/// neither `c` nor the goal, and the new value fits.
proof fn lemma_relax_facts(
    integ: Seq<Option<i32>>,
    costs: Seq<Option<Cost>>,
    vis: Seq<bool>,
    queue: Seq<(i32, Coord)>,
    width: int,
    height: int,
    goal: Coord,
    q: int,
    nvis: int,
    c: Coord,
    k: int,
    cand: int,
)
    requires
        relax_pre(integ, costs, vis, queue, width, height, goal, q, nvis, c, k, cand),
    ensures
        !val(vis, width, spec_neighbor8(c, k)),
        spec_neighbor8(c, k) != c,
        spec_neighbor8(c, k) != goal,
        q <= cand <= nvis * weight_bound(width, height),
        cand < i32::MAX,
        spec_neighbor8(spec_neighbor8(c, k), 7 - k) == c,
        no_larger(
            integ,
            integ.update(spec_to_1d(spec_neighbor8(c, k), width), Some(cand as i32)),
            width,
            height,
        ),
        forall|x: Coord|
            in_rect(x, width, height) ==> #[trigger] val(
                integ.update(spec_to_1d(spec_neighbor8(c, k), width), Some(cand as i32)),
                width,
                x,
            ) == if x == spec_neighbor8(c, k) {
                Some(cand as i32)
            } else {
                val(integ, width, x)
            },
{
    let n = spec_neighbor8(c, k);
    let b = weight_bound(width, height);
    reveal(inv_settled);
    reveal(inv_bounded);
    lemma_weight_bound(costs, width, height, goal, n);
    assert(nvis * b <= width * height * b) by (nonlinear_arith)
        requires
            nvis <= width * height,
            0 <= b,
    ;
    lemma_update_val(integ, width, height, n, Some(cand as i32));
    lemma_neighbor_back(c, k, width, height);
}

/// Proves that a relaxation keeps every reached cell supported.
proof fn lemma_relax_supported(
    integ: Seq<Option<i32>>,
    costs: Seq<Option<Cost>>,
    vis: Seq<bool>,
    queue: Seq<(i32, Coord)>,
    width: int,
    height: int,
    goal: Coord,
    q: int,
    nvis: int,
    c: Coord,
    k: int,
    cand: int,
)
    requires
        relax_pre(integ, costs, vis, queue, width, height, goal, q, nvis, c, k, cand),
    ensures
        inv_supported(
            integ.update(spec_to_1d(spec_neighbor8(c, k), width), Some(cand as i32)),
            costs,
            vis,
            width,
            height,
            goal,
        ),
{
    let n = spec_neighbor8(c, k);
    let integ2 = integ.update(spec_to_1d(n, width), Some(cand as i32));
    lemma_relax_facts(integ, costs, vis, queue, width, height, goal, q, nvis, c, k, cand);
    reveal(inv_supported);
    assert forall|x: Coord|
        in_rect(x, width, height) && x != goal && (#[trigger] val(integ2, width, x)) is Some implies passable(
        costs,
        width,
        x,
    ) && exists|j: int| settled_via(integ2, costs, vis, width, height, goal, x, j) by {
        if x == n {
            assert(settled_via(integ2, costs, vis, width, height, goal, x, 7 - k));
        } else {
            assert(val(integ, width, x) is Some);
            let j = choose|j: int| settled_via(integ, costs, vis, width, height, goal, x, j);
            let p = spec_neighbor8(x, j);
            assert(p != n);
            assert(settled_via(integ2, costs, vis, width, height, goal, x, j));
        }
    }
}

/// Proves that a relaxation keeps the queue and pending invariants, with
/// the new entry pushed.
proof fn lemma_relax_queue(
    integ: Seq<Option<i32>>,
    costs: Seq<Option<Cost>>,
    vis: Seq<bool>,
    queue: Seq<(i32, Coord)>,
    width: int,
    height: int,
    goal: Coord,
    q: int,
    nvis: int,
    c: Coord,
    k: int,
    cand: int,
)
    requires
        relax_pre(integ, costs, vis, queue, width, height, goal, q, nvis, c, k, cand),
    ensures
        inv_queue(
            integ.update(spec_to_1d(spec_neighbor8(c, k), width), Some(cand as i32)),
            queue.push((cand as i32, spec_neighbor8(c, k))),
            width,
            height,
            q,
        ),
        inv_pending(
            integ.update(spec_to_1d(spec_neighbor8(c, k), width), Some(cand as i32)),
            vis,
            queue.push((cand as i32, spec_neighbor8(c, k))),
            width,
            height,
        ),
{
    let n = spec_neighbor8(c, k);
    let integ2 = integ.update(spec_to_1d(n, width), Some(cand as i32));
    let queue2 = queue.push((cand as i32, n));
    lemma_relax_facts(integ, costs, vis, queue, width, height, goal, q, nvis, c, k, cand);
    reveal(inv_queue);
    reveal(inv_pending);
    assert forall|j: int| 0 <= j < queue2.len() implies in_rect((#[trigger] queue2[j]).1, width, height)
        && val(integ2, width, queue2[j].1) is Some && val(integ2, width, queue2[j].1)->0
        <= queue2[j].0 && queue2[j].0 >= q by {
        if j < queue.len() {
            assert(queue2[j] == queue[j]);
        }
    }
    assert forall|x: Coord|
        in_rect(x, width, height) && (#[trigger] val(integ2, width, x)) is Some && !val(
            vis,
            width,
            x,
        ) implies queue2.contains((val(integ2, width, x)->0, x)) by {
        if x == n {
            assert(queue2[queue.len() as int] == (cand as i32, n));
        } else {
            assert(queue.contains((val(integ, width, x)->0, x)));
            let i = choose|i: int| 0 <= i < queue.len() && queue[i] == (val(integ, width, x)->0, x);
            assert(queue2[i] == queue[i]);
        }
    }
}

/// Proves that a relaxation keeps settled cells settled, values bounded,
/// and settled cells relaxed.
proof fn lemma_relax_settled(
    integ: Seq<Option<i32>>,
    costs: Seq<Option<Cost>>,
    vis: Seq<bool>,
    queue: Seq<(i32, Coord)>,
    width: int,
    height: int,
    goal: Coord,
    q: int,
    nvis: int,
    c: Coord,
    k: int,
    cand: int,
)
    requires
        relax_pre(integ, costs, vis, queue, width, height, goal, q, nvis, c, k, cand),
        settled_relaxed(integ, costs, vis, width, height, goal, Some(c)),
    ensures
        inv_settled(
            integ.update(spec_to_1d(spec_neighbor8(c, k), width), Some(cand as i32)),
            vis,
            width,
            height,
            q,
        ),
        inv_bounded(
            integ.update(spec_to_1d(spec_neighbor8(c, k), width), Some(cand as i32)),
            width,
            height,
            nvis * weight_bound(width, height),
        ),
        settled_relaxed(
            integ.update(spec_to_1d(spec_neighbor8(c, k), width), Some(cand as i32)),
            costs,
            vis,
            width,
            height,
            goal,
            Some(c),
        ),
{
    let n = spec_neighbor8(c, k);
    let integ2 = integ.update(spec_to_1d(n, width), Some(cand as i32));
    lemma_relax_facts(integ, costs, vis, queue, width, height, goal, q, nvis, c, k, cand);
    reveal(inv_settled);
    reveal(inv_bounded);
    reveal(settled_relaxed);
    assert forall|x: Coord| in_rect(x, width, height) && #[trigger] val(vis, width, x) implies val(
        integ2,
        width,
        x,
    ) is Some && val(integ2, width, x)->0 <= q by {
        assert(x != n);
    }
    assert forall|x: Coord| in_rect(x, width, height) && (#[trigger] val(integ2, width, x)) is Some implies 0
        <= val(integ2, width, x)->0 <= nvis * weight_bound(width, height) by {
        if x != n {
            assert(val(integ, width, x) is Some);
        }
    }
    assert forall|x: Coord|
        in_rect(x, width, height) && #[trigger] val(vis, width, x) && Some(c) != Some(x) implies relaxed(
        integ2,
        costs,
        width,
        height,
        goal,
        x,
    ) by {
        assert(x != n);
        lemma_relaxed_kept(integ, integ2, costs, width, height, goal, x);
    }
}

/// Proves that lowering the value of an unsettled neighbor `n` of the
/// settled cell `c` to `c`'s value plus the weight of `n`, and queueing it,
/// keeps the search state, and relaxes `n` from `c`.
proof fn lemma_relax(
    integ: Seq<Option<i32>>,
    costs: Seq<Option<Cost>>,
    vis: Seq<bool>,
    queue: Seq<(i32, Coord)>,
    width: int,
    height: int,
    goal: Coord,
    q: int,
    nvis: int,
    c: Coord,
    k: int,
    cand: int,
)
    requires
        relax_pre(integ, costs, vis, queue, width, height, goal, q, nvis, c, k, cand),
        settled_relaxed(integ, costs, vis, width, height, goal, Some(c)),
    ensures
        cand < i32::MAX,
        ({
            let n = spec_neighbor8(c, k);
            let integ2 = integ.update(spec_to_1d(n, width), Some(cand as i32));
            let queue2 = queue.push((cand as i32, n));
            &&& search_inv(integ2, costs, vis, queue2, width, height, goal, q, nvis)
            &&& settled_relaxed(integ2, costs, vis, width, height, goal, Some(c))
            &&& val(integ2, width, c) == Some(q as i32)
            &&& relax_ok(integ2, costs, width, height, goal, c, k)
            &&& forall|j: int|
                relax_ok(integ, costs, width, height, goal, c, j) ==> #[trigger] relax_ok(
                    integ2,
                    costs,
                    width,
                    height,
                    goal,
                    c,
                    j,
                )
        }),
{
    let n = spec_neighbor8(c, k);
    let integ2 = integ.update(spec_to_1d(n, width), Some(cand as i32));
    lemma_relax_facts(integ, costs, vis, queue, width, height, goal, q, nvis, c, k, cand);
    lemma_relax_supported(integ, costs, vis, queue, width, height, goal, q, nvis, c, k, cand);
    lemma_relax_queue(integ, costs, vis, queue, width, height, goal, q, nvis, c, k, cand);
    lemma_relax_settled(integ, costs, vis, queue, width, height, goal, q, nvis, c, k, cand);
    lemma_update_val(integ, width, height, n, Some(cand as i32));
    assert(integ2.len() == integ.len());
    assert(val(integ2, width, goal) == Some(0i32));
    assert(val(integ2, width, c) == Some(q as i32));
    assert(val(integ2, width, n) == Some(cand as i32));
    assert(relax_ok(integ2, costs, width, height, goal, c, k));
    assert forall|j: int| relax_ok(integ, costs, width, height, goal, c, j) implies #[trigger] relax_ok(
        integ2,
        costs,
        width,
        height,
        goal,
        c,
        j,
    ) by {
        let m = spec_neighbor8(c, j);
        if in_rect(m, width, height) && passable(costs, width, m) {
            assert(val(integ, width, m) is Some);
        }
    }
}

/// Proves that dropping a stale queue entry keeps the search state.
proof fn lemma_pop_stale(
    integ: Seq<Option<i32>>,
    costs: Seq<Option<Cost>>,
    vis: Seq<bool>,
    queue: Seq<(i32, Coord)>,
    width: int,
    height: int,
    goal: Coord,
    floor: int,
    nvis: int,
    m: int,
)
    requires
        search_inv(integ, costs, vis, queue, width, height, goal, floor, nvis),
        0 <= m < queue.len(),
        !(!val(vis, width, queue[m].1) && val(integ, width, queue[m].1) == Some(queue[m].0)),
    ensures
        search_inv(integ, costs, vis, queue.remove(m), width, height, goal, floor, nvis),
{
    let queue2 = queue.remove(m);
    reveal(inv_queue);
    reveal(inv_pending);
    assert forall|j: int| 0 <= j < queue2.len() implies in_rect((#[trigger] queue2[j]).1, width, height)
        && val(integ, width, queue2[j].1) is Some && val(integ, width, queue2[j].1)->0
        <= queue2[j].0 && queue2[j].0 >= floor by {
        if j < m {
            assert(queue2[j] == queue[j]);
        } else {
            assert(queue2[j] == queue[j + 1]);
        }
    }
    assert forall|x: Coord|
        in_rect(x, width, height) && (#[trigger] val(integ, width, x)) is Some && !val(
            vis,
            width,
            x,
        ) implies queue2.contains((val(integ, width, x)->0, x)) by {
        lemma_remove_keeps(queue, m, (val(integ, width, x)->0, x));
    }
}

/// Proves that settling the cell of the least queue entry keeps the search
/// state, with that entry's cost as the new floor.
proof fn lemma_pop_fresh(
    integ: Seq<Option<i32>>,
    costs: Seq<Option<Cost>>,
    vis: Seq<bool>,
    queue: Seq<(i32, Coord)>,
    width: int,
    height: int,
    goal: Coord,
    floor: int,
    nvis: int,
    m: int,
)
    requires
        search_inv(integ, costs, vis, queue, width, height, goal, floor, nvis),
        settled_relaxed(integ, costs, vis, width, height, goal, None),
        0 <= nvis,
        0 <= m < queue.len(),
        forall|j: int| 0 <= j < queue.len() ==> entry_le(queue[m], #[trigger] queue[j]),
        !val(vis, width, queue[m].1),
        val(integ, width, queue[m].1) == Some(queue[m].0),
    ensures
        in_rect(queue[m].1, width, height),
        floor <= queue[m].0,
        queue[m].0 + weight_bound(width, height) <= (nvis + 1) * weight_bound(width, height),
        ({
            let c = queue[m].1;
            let vis2 = vis.update(spec_to_1d(c, width), true);
            &&& search_inv(integ, costs, vis2, queue.remove(m), width, height, goal, queue[m].0 as int, nvis + 1)
            &&& settled_relaxed(integ, costs, vis2, width, height, goal, Some(c))
            &&& val(vis2, width, c)
        }),
{
    let q = queue[m].0 as int;
    let c = queue[m].1;
    let b = weight_bound(width, height);
    let vis2 = vis.update(spec_to_1d(c, width), true);
    let queue2 = queue.remove(m);
    reveal(inv_supported);
    reveal(inv_queue);
    reveal(inv_pending);
    reveal(inv_settled);
    reveal(inv_bounded);
    reveal(settled_relaxed);
    assert(queue[m] == queue[m]);
    assert(in_rect(c, width, height));
    lemma_update_val(vis, width, height, c, true);
    assert(b >= 1);
    assert(q <= nvis * b);
    assert(q + b <= (nvis + 1) * b) by (nonlinear_arith)
        requires
            q <= nvis * b,
    ;
    assert(nvis * b <= (nvis + 1) * b) by (nonlinear_arith)
        requires
            0 <= b,
    ;
    assert forall|x: Coord|
        in_rect(x, width, height) && x != goal && (#[trigger] val(integ, width, x)) is Some implies passable(
        costs,
        width,
        x,
    ) && exists|j: int| settled_via(integ, costs, vis2, width, height, goal, x, j) by {
        let j = choose|j: int| settled_via(integ, costs, vis, width, height, goal, x, j);
        assert(settled_via(integ, costs, vis2, width, height, goal, x, j));
    }
    assert forall|j: int| 0 <= j < queue2.len() implies in_rect((#[trigger] queue2[j]).1, width, height)
        && val(integ, width, queue2[j].1) is Some && val(integ, width, queue2[j].1)->0
        <= queue2[j].0 && queue2[j].0 >= q by {
        if j < m {
            assert(queue2[j] == queue[j]);
            assert(entry_le(queue[m], queue[j]));
        } else {
            assert(queue2[j] == queue[j + 1]);
            assert(entry_le(queue[m], queue[j + 1]));
        }
    }
    assert forall|x: Coord|
        in_rect(x, width, height) && (#[trigger] val(integ, width, x)) is Some && !val(
            vis2,
            width,
            x,
        ) implies queue2.contains((val(integ, width, x)->0, x)) by {
        lemma_remove_keeps(queue, m, (val(integ, width, x)->0, x));
    }
    assert forall|x: Coord| in_rect(x, width, height) && #[trigger] val(vis2, width, x) implies val(
        integ,
        width,
        x,
    ) is Some && val(integ, width, x)->0 <= q by {
        if x != c {
            assert(val(vis, width, x));
        }
    }
    assert forall|x: Coord|
        in_rect(x, width, height) && #[trigger] val(vis2, width, x) && Some(c) != Some(x) implies relaxed(
        integ,
        costs,
        width,
        height,
        goal,
        x,
    ) by {
        assert(val(vis, width, x));
    }
    assert(inv_bounded(integ, width, height, (nvis + 1) * b));
}

/// Proves that the search state holds at the start: only the goal is
/// reached, with value 0, and queued.
proof fn lemma_search_start(
    integ: Seq<Option<i32>>,
    costs: Seq<Option<Cost>>,
    vis: Seq<bool>,
    width: int,
    height: int,
    goal: Coord,
)
    requires
        integ.len() == width * height,
        vis.len() == width * height,
        costs.len() == width * height,
        in_rect(goal, width, height),
        coords_fit(width, height),
        forall|i: int| 0 <= i < integ.len() ==> #[trigger] integ[i] is None,
        forall|i: int| 0 <= i < vis.len() ==> !#[trigger] vis[i],
    ensures
        ({
            let integ2 = integ.update(spec_to_1d(goal, width), Some(0i32));
            &&& search_inv(integ2, costs, vis, seq![(0i32, goal)], width, height, goal, 0, 0)
            &&& settled_relaxed(integ2, costs, vis, width, height, goal, None)
        }),
{
    let integ2 = integ.update(spec_to_1d(goal, width), Some(0i32));
    let queue = seq![(0i32, goal)];
    lemma_update_val(integ, width, height, goal, Some(0i32));
    reveal(inv_supported);
    reveal(inv_queue);
    reveal(inv_pending);
    reveal(inv_settled);
    reveal(inv_bounded);
    reveal(settled_relaxed);
    assert forall|x: Coord| in_rect(x, width, height) && x != goal implies (#[trigger] val(
        integ2,
        width,
        x,
    )) is None by {
        lemma_index_in_range(x, width, height);
    }
    assert forall|x: Coord| in_rect(x, width, height) implies !#[trigger] val(vis, width, x) by {
        lemma_index_in_range(x, width, height);
    }
    assert(queue[0] == (0i32, goal));
}

/// Proves that a settled cell whose every neighbor is relaxed joins the
/// other settled cells.
proof fn lemma_settle_done(
    integ: Seq<Option<i32>>,
    costs: Seq<Option<Cost>>,
    vis: Seq<bool>,
    width: int,
    height: int,
    goal: Coord,
    c: Coord,
)
    requires
        settled_relaxed(integ, costs, vis, width, height, goal, Some(c)),
        forall|k: int| 0 <= k < 8 ==> #[trigger] relax_ok(integ, costs, width, height, goal, c, k),
    ensures
        settled_relaxed(integ, costs, vis, width, height, goal, None),
{
    reveal(settled_relaxed);
}

/// Proves that a search whose queue has run empty has found the
/// integration field.
proof fn lemma_search_done(
    integ: Seq<Option<i32>>,
    costs: Seq<Option<Cost>>,
    vis: Seq<bool>,
    queue: Seq<(i32, Coord)>,
    width: int,
    height: int,
    goal: Coord,
    floor: int,
    nvis: int,
)
    requires
        search_inv(integ, costs, vis, queue, width, height, goal, floor, nvis),
        settled_relaxed(integ, costs, vis, width, height, goal, None),
        queue.len() == 0,
    ensures
        is_integration(integ, costs, width, height, goal),
{
    reveal(inv_supported);
    reveal(inv_pending);
    reveal(settled_relaxed);
    assert forall|c: Coord|
        in_rect(c, width, height) && c != goal && (#[trigger] val(integ, width, c)) is Some implies passable(
        costs,
        width,
        c,
    ) && exists|k: int| reached_via(integ, costs, width, height, goal, c, k) by {
        let k = choose|k: int| settled_via(integ, costs, vis, width, height, goal, c, k);
        assert(reached_via(integ, costs, width, height, goal, c, k));
    }
    assert forall|c: Coord| in_rect(c, width, height) && (#[trigger] val(integ, width, c)) is Some implies relaxed(
        integ,
        costs,
        width,
        height,
        goal,
        c,
    ) by {
        if !val(vis, width, c) {
            assert(queue.contains((val(integ, width, c)->0, c)));
        }
    }
}

/// Proves that the width and height of a grid whose values fit in an `i32`
/// are small enough for distances to fit in 16 bits.
proof fn lemma_dims_small(width: int, height: int)
    requires
        1 <= width,
        1 <= height,
        fits_i32(width, height),
    ensures
        width + height <= 65535,
{
    let s = width + height;
    assert(width * height >= s - 1) by (nonlinear_arith)
        requires
            1 <= width,
            1 <= height,
            s == width + height,
    ;
    assert((s - 1) * (s + 255) <= width * height * (s + 255)) by (nonlinear_arith)
        requires
            width * height >= s - 1,
            s >= 2,
    ;
    if s > 65535 {
        assert((s - 1) * (s + 255) >= 65535 * 65791) by (nonlinear_arith)
            requires
                s > 65535,
        ;
    }
}

/// Fills `integ`, which holds no value yet, with the integration field of
/// `goal` over the costs: a uniform-cost search outward from the goal over
/// the 8 neighbors, where entering a passable cell weighs its cost plus its
/// Manhattan distance to the goal. Entries whose cell has been settled, or
/// whose cost is above the cell's value, are dropped when they come up.
pub(crate) fn integrate(costs: &Field<Option<Cost>>, goal: Coord, integ: &mut Field<Option<i32>>)
    requires
        costs.wf(),
        old(integ).wf(),
        old(integ).size == costs.size,
        coords_fit(costs.size.width as int, costs.size.height as int),
        fits_i32(costs.size.width as int, costs.size.height as int),
        in_rect(goal, costs.size.width as int, costs.size.height as int),
        forall|i: int| 0 <= i < old(integ).data@.len() ==> #[trigger] old(integ).data@[i] is None,
    ensures
        final(integ).wf(),
        final(integ).size == old(integ).size,
        is_integration(
            final(integ).data@,
            costs.data@,
            costs.size.width as int,
            costs.size.height as int,
            goal,
        ),
        forall|x: Coord|
            in_rect(x, costs.size.width as int, costs.size.height as int) && (#[trigger] val(
                final(integ).data@,
                costs.size.width as int,
                x,
            )) is Some ==> val(final(integ).data@, costs.size.width as int, x)->0 < i32::MAX,
{
    let width = costs.size.width;
    let height = costs.size.height;
    let ghost w = width as int;
    let ghost h = height as int;
    let ghost b = weight_bound(w, h);
    let n: usize = width * height;
    let mut visited: Vec<bool> = vec![false; n];
    let mut queue: Vec<(i32, Coord)> = Vec::new();
    proof {
        lemma_search_start(integ.data@, costs.data@, visited@, w, h, goal);
        lemma_dims_small(w, h);
        lemma_int_range(0, n as int);
        lemma_index_in_range(goal, w, h);
    }
    integ.set(&goal, Some(0i32));
    queue.push((0i32, goal));
    assert(queue@ =~= seq![(0i32, goal)]);
    let ghost mut floor: int = 0;
    let ghost mut nvis: int = 0;
    let ghost mut vset: Set<int> = Set::empty();
    assert(vset =~= Set::new(|i: int| 0 <= i < n && visited@[i]));
    while queue.len() > 0
        invariant
            integ.wf(),
            integ.size == costs.size,
            costs.wf(),
            width == costs.size.width,
            height == costs.size.height,
            w == width,
            h == height,
            b == weight_bound(w, h),
            n == w * h,
            fits_i32(w, h),
            w + h <= 65535,
            set_int_range(0, n as int).finite(),
            set_int_range(0, n as int).len() == n,
            search_inv(integ.data@, costs.data@, visited@, queue@, w, h, goal, floor, nvis),
            settled_relaxed(integ.data@, costs.data@, visited@, w, h, goal, None),
            vset.finite(),
            vset.len() == nvis,
            0 <= nvis <= n,
            vset == Set::new(|i: int| 0 <= i < n && visited@[i]),
        decreases (n - nvis) * 9 + queue@.len(),
    {
        let m = min_entry(&queue);
        let ghost q0 = queue@;
        let (q, c) = queue.remove(m);
        proof {
            reveal(inv_queue);
            assert(q0[m as int] == (q, c));
            lemma_index_in_range(c, w, h);
        }
        let i = integ.to_1d(&c);
        let fresh = !visited[i] && match integ.data[i] {
            Some(d) => d == q,
            None => false,
        };
        if !fresh {
            proof {
                lemma_pop_stale(integ.data@, costs.data@, visited@, q0, w, h, goal, floor, nvis, m as int);
            }
        } else {
            proof {
                lemma_pop_fresh(integ.data@, costs.data@, visited@, q0, w, h, goal, floor, nvis, m as int);
            }
            visited.set(i, true);
            proof {
                floor = q as int;
                assert(!vset.contains(i as int));
                let vset2 = vset.insert(i as int);
                assert(vset2 =~= Set::new(|j: int| 0 <= j < n && visited@[j]));
                assert(vset2.subset_of(set_int_range(0, n as int)));
                lemma_len_subset(vset2, set_int_range(0, n as int));
                vset = vset2;
                nvis = nvis + 1;
                assert(nvis * b <= n * b) by (nonlinear_arith)
                    requires
                        nvis <= n,
                        0 <= b,
                ;
            }
            let nbs = c.neighbors8();
            let qlen = queue.len();
            let mut k: usize = 0;
            while k < 8
                invariant
                    integ.wf(),
                    integ.size == costs.size,
                    costs.wf(),
                    width == costs.size.width,
                    height == costs.size.height,
                    w == width,
                    h == height,
                    b == weight_bound(w, h),
                    n == w * h,
                    fits_i32(w, h),
                    w + h <= 65535,
                    search_inv(integ.data@, costs.data@, visited@, queue@, w, h, goal, floor, nvis),
                    settled_relaxed(integ.data@, costs.data@, visited@, w, h, goal, Some(c)),
                    0 <= nvis <= n,
                    nvis * b <= n * b,
                    in_rect(c, w, h),
                    val(visited@, w, c),
                    val(integ.data@, w, c) == Some(q),
                    floor == q,
                    q + b <= nvis * b,
                    nbs@ == spec_neighbors8(c),
                    forall|j: int|
                        0 <= j < k ==> #[trigger] relax_ok(integ.data@, costs.data@, w, h, goal, c, j),
                    queue@.len() <= qlen + k,
                    k <= 8,
                decreases 8 - k,
            {
                let nb = nbs[k];
                if costs.within_bounds(&nb) {
                    let cost_here = *costs.get(&nb);
                    if let Some(cost) = cost_here {
                        if cost.0 < IMPASSABLE {
                            proof {
                                lemma_weight_bound(costs.data@, w, h, goal, nb);
                                assert(manhattan(nb, goal) <= w + h);
                            }
                            let d = nb.distance(goal);
                            let cand: i32 = q + cost.0 as i32 + d as i32;
                            let current = *integ.get(&nb);
                            let better = match current {
                                Some(v) => cand < v,
                                None => true,
                            };
                            if better {
                                proof {
                                    lemma_relax(
                                        integ.data@,
                                        costs.data@,
                                        visited@,
                                        queue@,
                                        w,
                                        h,
                                        goal,
                                        q as int,
                                        nvis,
                                        c,
                                        k as int,
                                        cand as int,
                                    );
                                    lemma_index_in_range(nb, w, h);
                                }
                                integ.set(&nb, Some(cand));
                                queue.push((cand, nb));
                            }
                        }
                    }
                }
                k = k + 1;
            }
            proof {
                lemma_settle_done(integ.data@, costs.data@, visited@, w, h, goal, c);
            }
        }
    }
    proof {
        lemma_search_done(integ.data@, costs.data@, visited@, queue@, w, h, goal, floor, nvis);
        reveal(inv_bounded);
        assert(nvis * b <= n * b) by (nonlinear_arith)
            requires
                nvis <= n,
                0 <= b,
        ;
    }
}

/// `is_integration`, hidden from the solver except where revealed.
#[verifier::opaque]
pub(crate) open spec fn integration_of(
    integ: Seq<Option<i32>>,
    costs: Seq<Option<Cost>>,
    width: int,
    height: int,
    goal: Coord,
) -> bool {
    is_integration(integ, costs, width, height, goal)
}

/// Returns the predecessor offset of a reached cell other than the goal.
proof fn lemma_pred_of(
    a: Seq<Option<i32>>,
    costs: Seq<Option<Cost>>,
    width: int,
    height: int,
    goal: Coord,
    c: Coord,
) -> (k: int)
    requires
        integration_of(a, costs, width, height, goal),
        in_rect(c, width, height),
        c != goal,
        val(a, width, c) is Some,
    ensures
        reached_via(a, costs, width, height, goal, c, k),
        passable(costs, width, c),
{
    reveal(integration_of);
    choose|k: int| reached_via(a, costs, width, height, goal, c, k)
}

/// Proves that a reached cell is relaxed, and the goal has value 0.
proof fn lemma_relaxed_of(
    b: Seq<Option<i32>>,
    costs: Seq<Option<Cost>>,
    width: int,
    height: int,
    goal: Coord,
    p: Coord,
)
    requires
        integration_of(b, costs, width, height, goal),
        in_rect(p, width, height),
        val(b, width, p) is Some,
    ensures
        relaxed(b, costs, width, height, goal, p),
        val(b, width, goal) == Some(0i32),
{
    reveal(integration_of);
}

/// Proves that every value of one integration field is matched, by a
/// value no larger, in any other integration field for the same costs
/// and goal.
pub(crate) proof fn lemma_integration_le(
    a: Seq<Option<i32>>,
    b: Seq<Option<i32>>,
    costs: Seq<Option<Cost>>,
    width: int,
    height: int,
    goal: Coord,
    c: Coord,
)
    requires
        integration_of(a, costs, width, height, goal),
        integration_of(b, costs, width, height, goal),
        in_rect(goal, width, height),
        coords_fit(width, height),
        in_rect(c, width, height),
        val(a, width, c) is Some,
    ensures
        val(b, width, c) is Some,
        val(b, width, c)->0 <= val(a, width, c)->0,
    decreases val(a, width, c)->0 - i32::MIN,
{
    if c == goal {
        reveal(integration_of);
    } else {
        let k = lemma_pred_of(a, costs, width, height, goal, c);
        let p = spec_neighbor8(c, k);
        lemma_weight_bound(costs, width, height, goal, c);
        lemma_integration_le(a, b, costs, width, height, goal, p);
        lemma_neighbor_back(c, k, width, height);
        lemma_relaxed_of(b, costs, width, height, goal, p);
        assert(relax_ok(b, costs, width, height, goal, p, 7 - k));
    }
}

} // verus!
