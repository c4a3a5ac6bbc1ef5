//! Path finding over the cells of a volume.
//!
//! A walker moves within the plane of its height, one cell at a time along
//! `x` or `z`, and only into cells of the volume that are empty.
//!
//! The search goes breadth first. The cells it finds are kept in the order
//! in which they were found, each with the place of the cell it was found
//! from, and a cell of the grid is marked once it was found; the places
//! whose neighbours are still to be looked at wait in a queue.

use std::collections::VecDeque;

use glam::{IVec3, UVec3};
use vstd::prelude::*;

use crate::addressing::{
    cell_at, checked_linear, checked_volume, in_bounds, lemma_cell_at_linear,
    lemma_linear_in_range, linear, volume,
};
use crate::scene::MaterialId;
use crate::tensor::SparseTensorChunk;

verus! {

/// Whether `b` lies one cell beside `a` along `x` or `z`.
pub open spec fn step(a: UVec3, b: UVec3) -> bool {
    a.y == b.y && ((a.z == b.z && (b.x == a.x + 1 || a.x == b.x + 1)) || (a.x == b.x && (b.z
        == a.z + 1 || a.z == b.z + 1)))
}

/// Whether `c` is an empty cell of the grid.
pub open spec fn free(cells: Seq<Option<MaterialId>>, dim: UVec3, c: UVec3) -> bool {
    in_bounds(c, dim) && cells[linear(c, dim)] is None
}

/// Whether `path` leads from `from` to `to` step by step, entering empty
/// cells only. The cell it starts from may be any.
pub open spec fn is_walk(
    path: Seq<UVec3>,
    cells: Seq<Option<MaterialId>>,
    dim: UVec3,
    from: UVec3,
    to: UVec3,
) -> bool {
    &&& path.len() >= 1
    &&& path[0] == from
    &&& path.last() == to
    &&& forall|i: int|
        0 <= i < path.len() - 1 ==> step(#[trigger] path[i], path[i + 1]) && free(
            cells,
            dim,
            path[i + 1],
        )
}

/// Whether some walk leads from `from` to `to`.
pub open spec fn reachable(
    cells: Seq<Option<MaterialId>>,
    dim: UVec3,
    from: UVec3,
    to: UVec3,
) -> bool {
    exists|path: Seq<UVec3>| is_walk(path, cells, dim, from, to)
}

/// Whether `path` is a walk from `from` to `to` than which none is shorter.
pub open spec fn is_shortest_walk(
    path: Seq<UVec3>,
    cells: Seq<Option<MaterialId>>,
    dim: UVec3,
    from: UVec3,
    to: UVec3,
) -> bool {
    &&& is_walk(path, cells, dim, from, to)
    &&& forall|other: Seq<UVec3>| #[trigger]
        is_walk(other, cells, dim, from, to) ==> path.len() <= other.len()
}

/// Number of steps from the start of a search to the cell found at `i`,
/// going from each cell to the one that it was found from.
pub open spec fn depth(parent: Seq<usize>, i: int) -> nat
    decreases i,
{
    if 0 < i < parent.len() && parent[i] < i {
        depth(parent, parent[i] as int) + 1
    } else {
        0
    }
}

/// Whether the cells of a search were found in the order of their depth,
/// none deeper than one step beyond the cell at `head`.
pub open spec fn leveled(parent: Seq<usize>, head: int) -> bool {
    &&& forall|i: int, j: int|
        0 <= i <= j < parent.len() ==> #[trigger] depth(parent, i) <= #[trigger] depth(parent, j)
    &&& head < parent.len() ==> forall|i: int|
        0 <= i < parent.len() ==> #[trigger] depth(parent, i) <= depth(parent, head) + 1
}

/// Whether the search has found `c` at a depth of `bound` at most.
pub open spec fn found_within(q: Seq<UVec3>, parent: Seq<usize>, c: UVec3, bound: nat) -> bool {
    exists|j: int| 0 <= j < q.len() && q[j] == c && depth(parent, j) <= bound
}

/// Whether every empty cell beside one of the first `done` cells of `q` was
/// found, at most one step deeper than that cell.
pub open spec fn explored(
    q: Seq<UVec3>,
    parent: Seq<usize>,
    done: int,
    cells: Seq<Option<MaterialId>>,
    dim: UVec3,
) -> bool {
    forall|i: int, c: UVec3|
        0 <= i < done && #[trigger] step(q[i], c) && free(cells, dim, c) ==> found_within(
            q,
            parent,
            c,
            depth(parent, i) + 1,
        )
}

/// The state of a search from `start`: the cells found so far in the order
/// in which they were found, for each the place of the cell that it was
/// found from, and a mark on every cell of the grid that was found.
pub open spec fn searching(
    q: Seq<UVec3>,
    parent: Seq<usize>,
    marks: Seq<bool>,
    cells: Seq<Option<MaterialId>>,
    dim: UVec3,
    start: UVec3,
) -> bool {
    &&& q.len() == parent.len()
    &&& q.len() >= 1
    &&& q[0] == start
    &&& marks.len() == volume(dim)
    &&& forall|i: int|
        #![trigger parent[i]]
        1 <= i < q.len() ==> parent[i] < i && step(q[parent[i] as int], q[i]) && free(
            cells,
            dim,
            q[i],
        )
    &&& forall|i: int|
        0 <= i < q.len() && in_bounds(#[trigger] q[i], dim) ==> marks[linear(q[i], dim)]
    &&& forall|a: int| 0 <= a < marks.len() && #[trigger] marks[a] ==> q.contains(cell_at(a, dim))
}

/// Whether `next_up` names the places from `head` up to `len`, in order:
/// the cells that were found and whose neighbours were not looked at yet.
pub open spec fn waiting(next_up: Seq<usize>, head: int, len: int) -> bool {
    &&& next_up.len() == len - head
    &&& forall|k: int| 0 <= k < next_up.len() ==> #[trigger] next_up[k] == head + k
}

/// Number of cells without a mark.
pub open spec fn unmarked(marks: Seq<bool>) -> nat
    decreases marks.len(),
{
    if marks.len() == 0 {
        0
    } else {
        unmarked(marks.drop_last()) + if marks.last() {
            0nat
        } else {
            1nat
        }
    }
}

proof fn lemma_mark(marks: Seq<bool>, a: int)
    requires
        0 <= a < marks.len(),
        !marks[a],
    ensures
        unmarked(marks.update(a, true)) + 1 == unmarked(marks),
    decreases marks.len(),
{
    let after = marks.update(a, true);
    if a == marks.len() - 1 {
        assert(after.drop_last() =~= marks.drop_last());
    } else {
        assert(after.drop_last() =~= marks.drop_last().update(a, true));
        lemma_mark(marks.drop_last(), a);
    }
}

/// A walk from a cell of an explored set never leaves the set.
proof fn lemma_walk_stays(
    q: Seq<UVec3>,
    parent: Seq<usize>,
    path: Seq<UVec3>,
    cells: Seq<Option<MaterialId>>,
    dim: UVec3,
    from: UVec3,
    to: UVec3,
    k: int,
)
    requires
        is_walk(path, cells, dim, from, to),
        q.contains(from),
        explored(q, parent, q.len() as int, cells, dim),
        0 <= k < path.len(),
    ensures
        q.contains(path[k]),
    decreases k,
{
    if k > 0 {
        lemma_walk_stays(q, parent, path, cells, dim, from, to, k - 1);
        let i = choose|i: int| 0 <= i < q.len() && q[i] == path[k - 1];
        assert(step(path[k - 1], path[k]) && free(cells, dim, path[k]));
        assert(step(q[i], path[k]));
        assert(found_within(q, parent, path[k], depth(parent, i) + 1));
    }
}

/// The depth of a cell stays when the search goes on.
proof fn lemma_depth_stays(parent: Seq<usize>, more: Seq<usize>, i: int)
    requires
        parent.len() <= more.len(),
        forall|k: int| 0 <= k < parent.len() ==> more[k] == parent[k],
        0 <= i < parent.len(),
    ensures
        depth(more, i) == depth(parent, i),
    decreases i,
{
    if 0 < i && parent[i] < i {
        lemma_depth_stays(parent, more, parent[i] as int);
    }
}

/// A walk with fewer steps than the depth of the cell at `h` ends in a cell
/// that the search found before that cell, at a depth of no more than the
/// steps of the walk.
proof fn lemma_found_early(
    q: Seq<UVec3>,
    parent: Seq<usize>,
    cells: Seq<Option<MaterialId>>,
    dim: UVec3,
    start: UVec3,
    h: int,
    path: Seq<UVec3>,
    to: UVec3,
    k: int,
)
    requires
        q.len() == parent.len(),
        q.len() >= 1,
        q[0] == start,
        leveled(parent, h),
        0 <= h < q.len(),
        explored(q, parent, h, cells, dim),
        is_walk(path, cells, dim, start, to),
        0 <= k < path.len(),
        k < depth(parent, h),
    ensures
        exists|j: int| 0 <= j < h && q[j] == path[k] && depth(parent, j) <= k,
    decreases k,
{
    if k == 0 {
        assert(q[0] == path[0] && depth(parent, 0) == 0);
    } else {
        lemma_found_early(q, parent, cells, dim, start, h, path, to, k - 1);
        let i = choose|i: int| 0 <= i < h && q[i] == path[k - 1] && depth(parent, i) <= k - 1;
        assert(step(path[k - 1], path[k]) && free(cells, dim, path[k]));
        assert(step(q[i], path[k]));
        assert(found_within(q, parent, path[k], depth(parent, i) + 1));
        let j = choose|j: int|
            0 <= j < q.len() && q[j] == path[k] && depth(parent, j) <= depth(parent, i) + 1;
        if j >= h {
            assert(depth(parent, h) <= depth(parent, j));
        }
    }
}

/// A walk that starts at a height outside the grid stays where it starts.
proof fn lemma_walk_above(
    path: Seq<UVec3>,
    cells: Seq<Option<MaterialId>>,
    dim: UVec3,
    from: UVec3,
    to: UVec3,
)
    requires
        is_walk(path, cells, dim, from, to),
        from.y >= dim.y,
    ensures
        to == from,
{
    if path.len() > 1 {
        assert(step(path[0], path[1]) && free(cells, dim, path[1]));
    }
}

/// What a search has explored stays explored when the search goes on.
proof fn lemma_explored_grows(
    q: Seq<UVec3>,
    parent: Seq<usize>,
    more: Seq<UVec3>,
    more_parent: Seq<usize>,
    done: int,
    cells: Seq<Option<MaterialId>>,
    dim: UVec3,
)
    requires
        explored(q, parent, done, cells, dim),
        q.len() == parent.len(),
        more.len() == more_parent.len(),
        done <= q.len() <= more.len(),
        forall|i: int| 0 <= i < q.len() ==> more[i] == q[i] && more_parent[i] == parent[i],
    ensures
        explored(more, more_parent, done, cells, dim),
        forall|c: UVec3, bound: nat|
            #[trigger] found_within(q, parent, c, bound) ==> found_within(
                more,
                more_parent,
                c,
                bound,
            ),
{
    assert forall|c: UVec3, bound: nat| #[trigger]
        found_within(q, parent, c, bound) implies found_within(more, more_parent, c, bound) by {
        let j = choose|j: int| 0 <= j < q.len() && q[j] == c && depth(parent, j) <= bound;
        lemma_depth_stays(parent, more_parent, j);
        assert(more[j] == c);
    }
    assert forall|i: int, c: UVec3|
        0 <= i < done && #[trigger] step(more[i], c) && free(cells, dim, c) implies found_within(
        more,
        more_parent,
        c,
        depth(more_parent, i) + 1,
    ) by {
        assert(step(q[i], c));
        lemma_depth_stays(parent, more_parent, i);
        assert(found_within(q, parent, c, depth(parent, i) + 1));
    }
}

/// So many cells without a mark.
fn no_marks(n: usize) -> (marks: Vec<bool>)
    ensures
        marks@.len() == n,
        forall|a: int| 0 <= a < n ==> !marks@[a],
{
    let mut marks: Vec<bool> = Vec::new();
    let mut k: usize = 0;
    while k < n
        invariant
            k <= n,
            marks@.len() == k,
            forall|a: int| 0 <= a < k ==> !marks@[a],
        decreases n - k,
    {
        marks.push(false);
        k = k + 1;
    }
    marks
}

/// Whether two cells are the same.
fn same(a: UVec3, b: UVec3) -> (r: bool)
    ensures
        r == (a == b),
{
    a.x == b.x && a.y == b.y && a.z == b.z
}

/// Takes the cell `c`, which lies beside the cell at `from`, into the
/// search if it is an empty cell of the grid that was not found before.
fn visit(
    scene: &SparseTensorChunk,
    c: UVec3,
    from: usize,
    start: UVec3,
    queue: &mut Vec<UVec3>,
    parent: &mut Vec<usize>,
    marks: &mut Vec<bool>,
    next_up: &mut VecDeque<usize>,
)
    requires
        scene.wf(),
        searching(old(queue)@, old(parent)@, old(marks)@, scene@, scene.dim(), start),
        leveled(old(parent)@, from as int),
        from < old(queue)@.len(),
        step(old(queue)@[from as int], c),
        waiting(old(next_up)@, from + 1, old(queue)@.len() as int),
    ensures
        searching(final(queue)@, final(parent)@, final(marks)@, scene@, scene.dim(), start),
        leveled(final(parent)@, from as int),
        waiting(final(next_up)@, from + 1, final(queue)@.len() as int),
        old(queue)@.len() <= final(queue)@.len(),
        forall|i: int|
            0 <= i < old(queue)@.len() ==> final(queue)@[i] == old(queue)@[i] && final(parent)@[i]
                == old(parent)@[i],
        free(scene@, scene.dim(), c) ==> found_within(
            final(queue)@,
            final(parent)@,
            c,
            depth(final(parent)@, from as int) + 1,
        ),
        unmarked(final(marks)@) + final(queue)@.len() == unmarked(old(marks)@) + old(queue)@.len(),
{
    let ghost q = queue@;
    let ghost par = parent@;
    let ghost dim = scene.dim();
    let a = match checked_linear(c, scene.dim()) {
        Some(a) => a as usize,
        None => { return ; },
    };
    proof {
        lemma_linear_in_range(c, dim);
        lemma_cell_at_linear(c, dim);
    }
    if marks[a] {
        proof {
            let j = choose|j: int| 0 <= j < q.len() && q[j] == c;
            assert(depth(par, j) <= depth(par, from as int) + 1);
        }
        return ;
    }
    match scene.voxel(c) {
        Ok(None) => {},
        _ => { return ; },
    }
    proof {
        lemma_mark(marks@, a as int);
    }
    marks.set(a, true);
    next_up.push_back(queue.len());
    queue.push(c);
    parent.push(from);
    proof {
        let more = queue@;
        let n = q.len() as int;
        assert(more[n] == c);
        assert(more.contains(c));
        assert forall|i: int| 0 <= i < n implies depth(parent@, i) == depth(par, i) by {
            lemma_depth_stays(par, parent@, i);
        }
        assert(parent@[n] == from);
        assert(depth(parent@, n) == depth(parent@, from as int) + 1);
        assert forall|i: int, j: int| 0 <= i <= j < parent@.len() implies #[trigger] depth(
            parent@,
            i,
        ) <= #[trigger] depth(parent@, j) by {
            if j < n {
                assert(depth(par, i) <= depth(par, j));
            } else if i < n {
                assert(depth(par, i) <= depth(par, from as int) + 1);
            }
        }
        assert forall|i: int| 0 <= i < parent@.len() implies #[trigger] depth(parent@, i) <= depth(
            parent@,
            from as int,
        ) + 1 by {
            if i < n {
                assert(depth(par, i) <= depth(par, from as int) + 1);
            }
        }
        assert(found_within(more, parent@, c, depth(parent@, from as int) + 1));
        assert(cell_at(a as int, dim) == c);
        assert(more[0] == q[0]);
        assert(more.len() == parent@.len());
        assert(marks@.len() == volume(dim));
        assert forall|i: int| 0 <= i < q.len() implies more[i] == q[i] by {}
        assert forall|x: UVec3| q.contains(x) implies more.contains(x) by {
            let j = choose|j: int| 0 <= j < q.len() && q[j] == x;
            assert(more[j] == x);
        }
        assert forall|b: int| 0 <= b < marks@.len() && #[trigger] marks@[b] implies more.contains(
            cell_at(b, dim),
        ) by {
            if b != a {
                assert(old(marks)@[b]);
                assert(q.contains(cell_at(b, dim)));
            }
        }
        assert forall|i: int|
            #![trigger parent@[i]]
            1 <= i < more.len() implies parent@[i] < i && step(more[parent@[i] as int], more[i])
            && free(scene@, dim, more[i]) by {
            if i < q.len() {
                assert(more[i] == q[i]);
                assert(parent@[i] == old(parent)@[i]);
                assert(old(parent)@[i] < i);
                assert(more[old(parent)@[i] as int] == q[old(parent)@[i] as int]);
            } else {
                assert(parent@[i] == from);
                assert(more[i] == c);
                assert(more[from as int] == q[from as int]);
            }
        }
        assert forall|i: int| 0 <= i < more.len() && in_bounds(#[trigger] more[i], dim) implies marks@[linear(
            more[i],
            dim,
        )] by {
            if i < q.len() {
                assert(more[i] == q[i]);
                lemma_linear_in_range(q[i], dim);
                assert(old(marks)@[linear(q[i], dim)]);
            }
        }
    }
}

/// Takes the cells beside the cell at `at` into the search: the one
/// further along `x` first, then the one back along `x`, then likewise
/// along `z`.
fn expand(
    scene: &SparseTensorChunk,
    at: usize,
    start: UVec3,
    queue: &mut Vec<UVec3>,
    parent: &mut Vec<usize>,
    marks: &mut Vec<bool>,
    next_up: &mut VecDeque<usize>,
)
    requires
        scene.wf(),
        searching(old(queue)@, old(parent)@, old(marks)@, scene@, scene.dim(), start),
        leveled(old(parent)@, at as int),
        at < old(queue)@.len(),
        explored(old(queue)@, old(parent)@, at as int, scene@, scene.dim()),
        waiting(old(next_up)@, at + 1, old(queue)@.len() as int),
    ensures
        searching(final(queue)@, final(parent)@, final(marks)@, scene@, scene.dim(), start),
        leveled(final(parent)@, at as int),
        waiting(final(next_up)@, at + 1, final(queue)@.len() as int),
        old(queue)@.len() <= final(queue)@.len(),
        forall|i: int| 0 <= i < old(queue)@.len() ==> final(queue)@[i] == old(queue)@[i],
        explored(final(queue)@, final(parent)@, at + 1, scene@, scene.dim()),
        unmarked(final(marks)@) + final(queue)@.len() == unmarked(old(marks)@) + old(queue)@.len(),
{
    let ghost cells = scene@;
    let ghost dim = scene.dim();
    let p = queue[at];
    let ghost q0 = queue@;
    let ghost p0 = parent@;
    if p.x < u32::MAX {
        visit(scene, UVec3 { x: p.x + 1, y: p.y, z: p.z }, at, start, queue, parent, marks, next_up);
    }
    let ghost q1 = queue@;
    let ghost p1 = parent@;
    if p.x > 0 {
        visit(scene, UVec3 { x: p.x - 1, y: p.y, z: p.z }, at, start, queue, parent, marks, next_up);
    }
    let ghost q2 = queue@;
    let ghost p2 = parent@;
    if p.z < u32::MAX {
        visit(scene, UVec3 { x: p.x, y: p.y, z: p.z + 1 }, at, start, queue, parent, marks, next_up);
    }
    let ghost q3 = queue@;
    let ghost p3 = parent@;
    if p.z > 0 {
        visit(scene, UVec3 { x: p.x, y: p.y, z: p.z - 1 }, at, start, queue, parent, marks, next_up);
    }
    proof {
        let q4 = queue@;
        let p4 = parent@;
        lemma_explored_grows(q0, p0, q1, p1, at as int, cells, dim);
        lemma_explored_grows(q1, p1, q2, p2, at as int, cells, dim);
        lemma_explored_grows(q2, p2, q3, p3, at as int, cells, dim);
        lemma_explored_grows(q3, p3, q4, p4, at as int, cells, dim);
        lemma_depth_stays(p1, p4, at as int);
        lemma_depth_stays(p2, p4, at as int);
        lemma_depth_stays(p3, p4, at as int);
        let bound = depth(p4, at as int) + 1;
        assert forall|i: int, c: UVec3|
            0 <= i < at + 1 && #[trigger] step(q4[i], c) && free(cells, dim, c) implies found_within(
            q4,
            p4,
            c,
            depth(p4, i) + 1,
        ) by {
            if i == at {
                assert(q4[i] == p);
                lemma_beside(p, c);
                if p.x < u32::MAX && c == (UVec3 { x: (p.x + 1) as u32, y: p.y, z: p.z }) {
                    assert(found_within(q1, p1, c, bound));
                } else if p.x > 0 && c == (UVec3 { x: (p.x - 1) as u32, y: p.y, z: p.z }) {
                    assert(found_within(q2, p2, c, bound));
                } else if p.z < u32::MAX && c == (UVec3 { x: p.x, y: p.y, z: (p.z + 1) as u32 }) {
                    assert(found_within(q3, p3, c, bound));
                } else {
                    assert(p.z > 0 && c == UVec3 { x: p.x, y: p.y, z: (p.z - 1) as u32 });
                    assert(found_within(q4, p4, c, bound));
                }
            }
        }
    }
}

/// The cells beside a cell are four at most.
proof fn lemma_beside(p: UVec3, c: UVec3)
    requires
        step(p, c),
    ensures
        (p.x < u32::MAX && c == UVec3 { x: (p.x + 1) as u32, y: p.y, z: p.z }) || (p.x > 0 && c
            == UVec3 { x: (p.x - 1) as u32, y: p.y, z: p.z }) || (p.z < u32::MAX && c == UVec3 {
            x: p.x,
            y: p.y,
            z: (p.z + 1) as u32,
        }) || (p.z > 0 && c == UVec3 { x: p.x, y: p.y, z: (p.z - 1) as u32 }),
{
}

/// The walk from the start of a search to the cell that was found at `at`.
fn trace(
    queue: &Vec<UVec3>,
    parent: &Vec<usize>,
    at: usize,
    Ghost(marks): Ghost<Seq<bool>>,
    Ghost(cells): Ghost<Seq<Option<MaterialId>>>,
    Ghost(dim): Ghost<UVec3>,
    Ghost(start): Ghost<UVec3>,
) -> (walk: Vec<UVec3>)
    requires
        searching(queue@, parent@, marks, cells, dim, start),
        at < queue@.len(),
    ensures
        is_walk(walk@, cells, dim, start, queue@[at as int]),
        walk@.len() == depth(parent@, at as int) + 1,
{
    let mut back: Vec<UVec3> = Vec::new();
    back.push(queue[at]);
    let mut i = at;
    while i > 0
        invariant
            searching(queue@, parent@, marks, cells, dim, start),
            i < queue@.len(),
            back@.len() >= 1,
            back@[0] == queue@[at as int],
            back@.last() == queue@[i as int],
            back@.len() + depth(parent@, i as int) == depth(parent@, at as int) + 1,
            forall|t: int|
                0 <= t < back@.len() - 1 ==> step(back@[t + 1], #[trigger] back@[t]) && free(
                    cells,
                    dim,
                    back@[t],
                ),
        decreases i,
    {
        let ghost before = back@;
        let up = parent[i];
        proof {
            let here = queue@[i as int];
            assert(parent@[i as int] < i && step(queue@[parent@[i as int] as int], here) && free(
                cells,
                dim,
                here,
            ));
        }
        back.push(queue[up]);
        proof {
            assert forall|t: int| 0 <= t < back@.len() - 1 implies step(
                back@[t + 1],
                #[trigger] back@[t],
            ) && free(cells, dim, back@[t]) by {
                if t < before.len() - 1 {
                    assert(back@[t] == before[t]);
                    assert(back@[t + 1] == before[t + 1]);
                }
            }
        }
        i = up;
    }
    let mut walk: Vec<UVec3> = Vec::new();
    let mut t = back.len();
    assert(depth(parent@, 0) == 0);
    while t > 0
        invariant
            t <= back@.len(),
            walk@.len() == back@.len() - t,
            forall|j: int| 0 <= j < walk@.len() ==> walk@[j] == back@[back@.len() - 1 - j],
        decreases t,
    {
        t = t - 1;
        walk.push(back[t]);
    }
    proof {
        let n = back@.len() as int;
        assert forall|j: int| 0 <= j < walk@.len() - 1 implies step(
            #[trigger] walk@[j],
            walk@[j + 1],
        ) && free(cells, dim, walk@[j + 1]) by {
            let u = n - 2 - j;
            assert(walk@[j] == back@[u + 1]);
            assert(walk@[j + 1] == back@[u]);
            assert(step(back@[u + 1], back@[u]) && free(cells, dim, back@[u]));
        }
    }
    walk
}

/// A walker: where it stands, and the way it still has to go.
pub struct Brain {
    pub position: UVec3,
    route: Vec<UVec3>,
}

/// Whether the coordinates of a cell can stand in a signed move.
pub open spec fn signed(c: UVec3) -> bool {
    c.x <= i32::MAX && c.y <= i32::MAX && c.z <= i32::MAX
}

impl Brain {
    /// The cells of the way, the one to be gone to last first.
    pub closed spec fn route(&self) -> Seq<UVec3> {
        self.route@
    }

    /// The cell that the walker stands on: the field `position`.
    pub closed spec fn place(&self) -> UVec3 {
        self.position
    }

    /// A walker at `position` with no way to go.
    pub fn new(position: UVec3) -> (r: Self)
        ensures
            r.place() == position,
            r.route() == Seq::<UVec3>::empty(),
    {
        Brain { position, route: Vec::new() }
    }

    /// Finds a shortest way from the walker's cell to `dest` and puts it
    /// behind the way that the walker has: the cell it stands on first,
    /// `dest` last. Some walk has to lead to `dest`; where that is not known,
    /// `try_append_destination` finds it out.
    pub fn append_destination(&mut self, dest: UVec3, scene: &SparseTensorChunk)
        requires
            scene.wf(),
            reachable(scene@, scene.dim(), old(self).place(), dest),
        ensures
            final(self).place() == old(self).place(),
            exists|path: Seq<UVec3>|
                is_shortest_walk(path, scene@, scene.dim(), old(self).place(), dest)
                    && final(self).route() == old(self).route() + path,
    {
        let found = self.try_append_destination(dest, scene);
        assert(found);
    }

    /// Searches breadth first for a way from the walker's cell to `dest`
    /// and, where there is one, puts a shortest one behind the way that the
    /// walker has: the cell it stands on first, `dest` last.
    ///
    /// Gives `false`, and leaves the way as it is, exactly when no walk
    /// leads to `dest`.
    pub fn try_append_destination(&mut self, dest: UVec3, scene: &SparseTensorChunk) -> (found:
        bool)
        requires
            scene.wf(),
        ensures
            final(self).place() == old(self).place(),
            found == reachable(scene@, scene.dim(), old(self).place(), dest),
            found ==> exists|path: Seq<UVec3>|
                is_shortest_walk(path, scene@, scene.dim(), old(self).place(), dest)
                    && final(self).route() == old(self).route() + path,
            !found ==> final(self).route() == old(self).route(),
    {
        let start = self.position;
        let dim = scene.dim();
        let ghost cells = scene@;
        if same(start, dest) {
            self.route.push(dest);
            proof {
                let path = seq![start];
                assert(self.route@ =~= old(self).route@ + path);
                assert(is_shortest_walk(path, cells, dim, start, dest) && self.route() == old(
                    self,
                ).route() + path);
            }
            return true;
        }
        if start.y >= dim.y {
            proof {
                assert forall|path: Seq<UVec3>| !is_walk(path, cells, dim, start, dest) by {
                    if is_walk(path, cells, dim, start, dest) {
                        lemma_walk_above(path, cells, dim, start, dest);
                    }
                }
            }
            return false;
        }
        let total = checked_volume(dim).unwrap() as usize;
        let mut marks = no_marks(total);
        let mut queue: Vec<UVec3> = Vec::new();
        let mut parent: Vec<usize> = Vec::new();
        queue.push(start);
        parent.push(0);
        if let Some(a) = checked_linear(start, dim) {
            proof {
                lemma_linear_in_range(start, dim);
            }
            marks.set(a as usize, true);
        }
        proof {
            if in_bounds(start, dim) {
                lemma_cell_at_linear(start, dim);
            }
            assert(queue@[0] == start);
            assert(queue@.contains(start));
            assert forall|a: int| 0 <= a < marks@.len() && #[trigger] marks@[a] implies queue@.contains(
                cell_at(a, dim),
            ) by {
                assert(a == linear(start, dim));
            }
        }
        let mut next_up: VecDeque<usize> = VecDeque::new();
        next_up.push_back(0);
        loop
            invariant
                *self == *old(self),
                start == self.position,
                start != dest,
                scene.wf(),
                cells == scene@,
                dim == scene.dim(),
                searching(queue@, parent@, marks@, cells, dim, start),
                next_up@.len() <= queue@.len(),
                waiting(next_up@, queue@.len() - next_up@.len(), queue@.len() as int),
                leveled(parent@, queue@.len() - next_up@.len()),
                explored(queue@, parent@, queue@.len() - next_up@.len(), cells, dim),
                forall|i: int| 0 <= i < queue@.len() - next_up@.len() ==> queue@[i] != dest,
            decreases unmarked(marks@) + next_up@.len(),
        {
            let ghost before = next_up@;
            let head = match next_up.pop_front() {
                Some(head) => head,
                None => {
                proof {
                    let q = queue@;
                    assert forall|path: Seq<UVec3>| !is_walk(path, cells, dim, start, dest) by {
                        if is_walk(path, cells, dim, start, dest) {
                            assert(q[0] == start);
                            lemma_walk_stays(q, parent@, path, cells, dim, start, dest, path.len() - 1);
                            let i = choose|i: int| 0 <= i < q.len() && q[i] == dest;
                            assert(q[i] != dest);
                        }
                    }
                }
                    return false;
                },
            };
            assert(head == before[0]);
            assert(head == queue@.len() - before.len());
            assert(waiting(next_up@, head + 1, queue@.len() as int)) by {
                assert forall|k: int| 0 <= k < next_up@.len() implies #[trigger] next_up@[k]
                    == head + 1 + k by {
                    assert(next_up@[k] == before[k + 1]);
                }
            }
            let p = queue[head];
            if same(p, dest) {
                let mut walk = trace(
                    &queue,
                    &parent,
                    head,
                    Ghost(marks@),
                    Ghost(cells),
                    Ghost(dim),
                    Ghost(start),
                );
                let ghost path = walk@;
                self.route.append(&mut walk);
                proof {
                    assert forall|other: Seq<UVec3>| #[trigger]
                        is_walk(other, cells, dim, start, dest) implies path.len()
                        <= other.len() by {
                        let k = other.len() - 1;
                        if k < depth(parent@, head as int) {
                            lemma_found_early(
                                queue@,
                                parent@,
                                cells,
                                dim,
                                start,
                                head as int,
                                other,
                                dest,
                                k,
                            );
                            let j = choose|j: int|
                                0 <= j < head && queue@[j] == other[k] && depth(parent@, j) <= k;
                            assert(queue@[j] != dest);
                        }
                    }
                    assert(is_shortest_walk(path, cells, dim, start, dest) && self.route() == old(
                        self,
                    ).route() + path);
                }
                return true;
            }
            expand(scene, head, start, &mut queue, &mut parent, &mut marks, &mut next_up);
        }
    }

    /// A route of absolute points. If the first point is 1,0,0, it means the
    /// object should move to that point, not that it should move one in the x
    /// direction.
    pub fn absolute_route(&self) -> (r: &Vec<UVec3>)
        ensures
            r@ == self.route(),
    {
        &self.route
    }

    /// Takes the last cell off the way and gives the move that leads from it
    /// to the walker's cell; nothing where the way is empty.
    pub fn pop_move(&mut self) -> (r: Option<IVec3>)
        requires
            signed(old(self).place()),
            old(self).route().len() > 0 ==> signed(old(self).route().last()),
        ensures
            final(self).place() == old(self).place(),
            old(self).route().len() == 0 ==> r is None && final(self).route() == old(
                self,
            ).route(),
            old(self).route().len() > 0 ==> final(self).route() == old(self).route().drop_last()
                && r == Some(
                IVec3 {
                    x: (old(self).place().x - old(self).route().last().x) as i32,
                    y: (old(self).place().y - old(self).route().last().y) as i32,
                    z: (old(self).place().z - old(self).route().last().z) as i32,
                },
            ),
    {
        match self.route.pop() {
            None => None,
            Some(next) => {
                let here = self.position;
                Some(
                    IVec3 {
                        x: here.x as i32 - next.x as i32,
                        y: here.y as i32 - next.y as i32,
                        z: here.z as i32 - next.z as i32,
                    },
                )
            },
        }
    }
}

} // verus!
