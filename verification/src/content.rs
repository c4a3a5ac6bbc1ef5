//! What a volume holds, read off its cells: the list of its voxels, their
//! number, and the effect of a series of writes.

use glam::UVec3;
use vstd::prelude::*;

use crate::addressing::{cell_at, in_bounds, lemma_cell_at_linear, lemma_linear_in_range, linear, volume};
use crate::scene::MaterialId;
use crate::segments::{
    cells, inserted, lemma_covers, lemma_inserted, lemma_inserted_single_cells,
    lemma_start_monotone, lemma_start_step, single_cells, slots, start, well_formed,
};
use crate::tensor::SparseNode;

verus! {

/// The cells of an empty grid with `n` cells.
pub open spec fn empty_cells(n: nat) -> Seq<Option<MaterialId>> {
    Seq::new(n, |a: int| None::<MaterialId>)
}

/// Number of occupied cells.
pub open spec fn occupancy(cells: Seq<Option<MaterialId>>) -> nat
    decreases cells.len(),
{
    if cells.len() == 0 {
        0
    } else {
        occupancy(cells.drop_last()) + if cells.last() is Some {
            1nat
        } else {
            0nat
        }
    }
}

/// The occupied cells of a grid with extent `dim` in ascending address
/// order, each with its coordinate and its material.
pub open spec fn listing(cells: Seq<Option<MaterialId>>, dim: UVec3) -> Seq<(UVec3, MaterialId)>
    decreases cells.len(),
{
    if cells.len() == 0 {
        Seq::empty()
    } else {
        let rest = listing(cells.drop_last(), dim);
        match cells.last() {
            Some(m) => rest.push((cell_at(cells.len() - 1, dim), m)),
            None => rest,
        }
    }
}

/// The cells after each of `ops` was written in turn, a later write to a
/// cell replacing an earlier one.
pub open spec fn painted(
    cells: Seq<Option<MaterialId>>,
    dim: UVec3,
    ops: Seq<(UVec3, MaterialId)>,
) -> Seq<Option<MaterialId>>
    decreases ops.len(),
{
    if ops.len() == 0 {
        cells
    } else {
        painted(cells, dim, ops.drop_last()).update(
            linear(ops.last().0, dim),
            Some(ops.last().1),
        )
    }
}

/// The segments after each of `ops` was written in turn.
pub open spec fn filled(s: Seq<SparseNode>, dim: UVec3, ops: Seq<(UVec3, MaterialId)>) -> Seq<
    SparseNode,
>
    decreases ops.len(),
{
    if ops.len() == 0 {
        s
    } else {
        inserted(filled(s, dim, ops.drop_last()), dim, ops.last().0, Some(ops.last().1))
    }
}

/// Whether every write of `ops` goes to a cell of the grid.
pub open spec fn all_in_bounds(ops: Seq<(UVec3, MaterialId)>, dim: UVec3) -> bool {
    forall|k: int| 0 <= k < ops.len() ==> in_bounds(#[trigger] ops[k].0, dim)
}

/// The list of voxels has one entry for each occupied cell.
pub proof fn lemma_listing_len(cells: Seq<Option<MaterialId>>, dim: UVec3)
    ensures
        listing(cells, dim).len() == occupancy(cells),
    decreases cells.len(),
{
    if cells.len() > 0 {
        lemma_listing_len(cells.drop_last(), dim);
    }
}

/// Empty cells behind a grid add nothing to the list of its voxels.
pub proof fn lemma_listing_nones(cells: Seq<Option<MaterialId>>, k: nat, dim: UVec3)
    ensures
        listing(cells + empty_cells(k), dim) == listing(cells, dim),
    decreases k,
{
    let all = cells + empty_cells(k);
    if k == 0 {
        assert(all =~= cells);
    } else {
        assert(all.drop_last() =~= cells + empty_cells((k - 1) as nat));
        lemma_listing_nones(cells, (k - 1) as nat, dim);
    }
}

/// One more segment adds its voxel to the list, if it is one.
pub proof fn lemma_listing_step(s: Seq<SparseNode>, dim: UVec3, n: int)
    requires
        well_formed(s, dim),
        0 <= n < s.len(),
    ensures
        listing(cells(s.take(n + 1)), dim) == match s[n] {
            SparseNode::Voxel(v) => listing(cells(s.take(n)), dim).push(v),
            SparseNode::Nothing(_) => listing(cells(s.take(n)), dim),
        },
{
    let before = cells(s.take(n));
    let after = cells(s.take(n + 1));
    lemma_start_step(s, n);
    lemma_start_monotone(s, n + 1, s.len() as int);
    match s[n] {
        SparseNode::Voxel(v) => {
            assert(after =~= before.push(Some(v.1)));
            assert(after.drop_last() =~= before);
            let a = start(s, n) as int;
            lemma_covers(s, n, a);
            assert(slots(s)[a] == Some(v));
            lemma_cell_at_linear(v.0, dim);
        },
        SparseNode::Nothing(k) => {
            assert(after =~= before + empty_cells(k as nat));
            lemma_listing_nones(before, k as nat, dim);
        },
    }
}

/// The writes of a series without its last one go to cells of the grid if
/// all of the series do.
pub proof fn lemma_all_in_bounds_drop_last(ops: Seq<(UVec3, MaterialId)>, dim: UVec3)
    requires
        all_in_bounds(ops, dim),
        ops.len() > 0,
    ensures
        all_in_bounds(ops.drop_last(), dim),
        in_bounds(ops.last().0, dim),
        0 <= linear(ops.last().0, dim) < volume(dim),
{
    let r = ops.drop_last();
    assert forall|k: int| 0 <= k < r.len() implies in_bounds(#[trigger] r[k].0, dim) by {
        assert(r[k] == ops[k]);
    }
    assert(in_bounds(ops[ops.len() - 1].0, dim));
    lemma_linear_in_range(ops.last().0, dim);
}

/// A series of writes to cells of the grid keeps the number of cells.
pub proof fn lemma_painted_len(
    cells: Seq<Option<MaterialId>>,
    dim: UVec3,
    ops: Seq<(UVec3, MaterialId)>,
)
    requires
        cells.len() == volume(dim),
        all_in_bounds(ops, dim),
    ensures
        painted(cells, dim, ops).len() == cells.len(),
    decreases ops.len(),
{
    if ops.len() > 0 {
        lemma_all_in_bounds_drop_last(ops, dim);
        lemma_painted_len(cells, dim, ops.drop_last());
    }
}

/// A cell that no write of the series names keeps what it held.
pub proof fn lemma_painted_untouched(
    cells: Seq<Option<MaterialId>>,
    dim: UVec3,
    ops: Seq<(UVec3, MaterialId)>,
    a: int,
)
    requires
        cells.len() == volume(dim),
        all_in_bounds(ops, dim),
        0 <= a < cells.len(),
        forall|k: int| 0 <= k < ops.len() ==> linear(#[trigger] ops[k].0, dim) != a,
    ensures
        painted(cells, dim, ops)[a] == cells[a],
    decreases ops.len(),
{
    if ops.len() > 0 {
        let r = ops.drop_last();
        assert forall|k: int| 0 <= k < r.len() implies in_bounds(#[trigger] r[k].0, dim) && linear(
            r[k].0,
            dim,
        ) != a by {
            assert(r[k] == ops[k]);
        }
        lemma_painted_untouched(cells, dim, r, a);
        lemma_painted_len(cells, dim, r);
        let last = ops[ops.len() - 1];
        assert(in_bounds(last.0, dim) && linear(last.0, dim) != a);
        lemma_linear_in_range(last.0, dim);
    }
}

/// Writing a series of voxels to a well-formed volume leaves it well
/// formed, and its cells are the painted ones.
pub proof fn lemma_filled(s: Seq<SparseNode>, dim: UVec3, ops: Seq<(UVec3, MaterialId)>)
    requires
        well_formed(s, dim),
        all_in_bounds(ops, dim),
    ensures
        well_formed(filled(s, dim, ops), dim),
        cells(filled(s, dim, ops)) == painted(cells(s), dim, ops),
    decreases ops.len(),
{
    if ops.len() > 0 {
        let r = ops.drop_last();
        assert forall|k: int| 0 <= k < r.len() implies in_bounds(#[trigger] r[k].0, dim) by {
            assert(r[k] == ops[k]);
        }
        lemma_filled(s, dim, r);
        assert(in_bounds(ops[ops.len() - 1].0, dim));
        lemma_inserted(filled(s, dim, r), dim, ops.last().0, Some(ops.last().1));
    }
}

/// Voxels written to a volume of which every segment stands for one cell
/// leave it so: there are as many segments as before.
pub proof fn lemma_filled_single_cells(s: Seq<SparseNode>, dim: UVec3, ops: Seq<(UVec3, MaterialId)>)
    requires
        well_formed(s, dim),
        all_in_bounds(ops, dim),
        single_cells(s),
    ensures
        filled(s, dim, ops).len() == s.len(),
        single_cells(filled(s, dim, ops)),
    decreases ops.len(),
{
    if ops.len() > 0 {
        lemma_all_in_bounds_drop_last(ops, dim);
        lemma_filled(s, dim, ops.drop_last());
        lemma_filled_single_cells(s, dim, ops.drop_last());
        lemma_inserted_single_cells(
            filled(s, dim, ops.drop_last()),
            dim,
            ops.last().0,
            ops.last().1,
        );
    }
}

/// Occupying a cell adds one to the number of occupied cells if the cell
/// was empty, and nothing if it was occupied.
pub proof fn lemma_occupancy_update(cells: Seq<Option<MaterialId>>, a: int, m: MaterialId)
    requires
        0 <= a < cells.len(),
    ensures
        occupancy(cells.update(a, Some(m))) == occupancy(cells) + if cells[a] is None {
            1nat
        } else {
            0nat
        },
    decreases cells.len(),
{
    let after = cells.update(a, Some(m));
    if a == cells.len() - 1 {
        assert(after.drop_last() =~= cells.drop_last());
    } else {
        assert(after.drop_last() =~= cells.drop_last().update(a, Some(m)));
        lemma_occupancy_update(cells.drop_last(), a, m);
    }
}

/// An empty grid has no occupied cell.
pub proof fn lemma_occupancy_empty(n: nat)
    ensures
        occupancy(empty_cells(n)) == 0,
    decreases n,
{
    if n > 0 {
        assert(empty_cells(n).drop_last() =~= empty_cells((n - 1) as nat));
        lemma_occupancy_empty((n - 1) as nat);
    }
}

} // verus!
