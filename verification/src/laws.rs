//! Laws that relate the operations of a volume to one another.
//!
//! Each is stated over the readings that the operations' own contracts use:
//! `inserted`, `removed` and `merged` for the segments after `insert`,
//! `remove` and `compress`, `cells` for the view, and `listing` for what
//! `voxels` returns.

use glam::UVec3;
use vstd::prelude::*;

use crate::addressing::{
    cell_at, in_bounds, lemma_cell_at_linear, lemma_linear_cell_at, lemma_linear_in_range,
    lemma_linear_injective, linear, volume,
};
use crate::content::{
    all_in_bounds, filled, lemma_all_in_bounds_drop_last, lemma_filled,
    lemma_listing_len, lemma_occupancy_empty, lemma_occupancy_update, lemma_painted_len,
    lemma_painted_untouched, listing, occupancy, painted,
};
use crate::scene::MaterialId;
use crate::segments::{
    canonical, cells, empty_segments, inserted, lemma_covered, lemma_covers,
    lemma_empty_segments, lemma_inserted, lemma_merged, lemma_merged_canonical, lemma_removed,
    lemma_start_monotone, lemma_start_step, locate, merged, node_len, removed,
    well_formed,
};
use crate::tensor::SparseNode;

verus! {

/// Addressing: a cell of the grid and its address determine each other.
pub proof fn law_addressing(c: UVec3, a: int, dim: UVec3)
    requires
        in_bounds(c, dim),
        0 <= a < volume(dim),
    ensures
        0 <= linear(c, dim) < volume(dim),
        cell_at(linear(c, dim), dim) == c,
        in_bounds(cell_at(a, dim), dim),
        linear(cell_at(a, dim), dim) == a,
{
    lemma_linear_in_range(c, dim);
    lemma_cell_at_linear(c, dim);
    lemma_linear_cell_at(a, dim);
}

/// Listing: every occupied cell is listed once, at the place that the number
/// of occupied cells before it gives, with the coordinate that its address
/// stands for; so the list runs in ascending address order.
pub proof fn law_listing(cells: Seq<Option<MaterialId>>, dim: UVec3, a: int)
    requires
        0 <= a < cells.len(),
        cells[a] is Some,
    ensures
        occupancy(cells.take(a)) < listing(cells, dim).len(),
        listing(cells, dim)[occupancy(cells.take(a)) as int] == (cell_at(a, dim), cells[a]->0),
    decreases cells.len(),
{
    let rest = cells.drop_last();
    lemma_listing_len(rest, dim);
    lemma_listing_len(cells, dim);
    if a == cells.len() - 1 {
        assert(cells.take(a) =~= rest);
    } else {
        assert(rest.take(a) =~= cells.take(a));
        law_listing(rest, dim, a);
    }
}

/// Last write wins: of the writes of a series that go to one cell, the last
/// decides what the cell holds.
pub proof fn law_last_write_wins(
    cells: Seq<Option<MaterialId>>,
    dim: UVec3,
    ops: Seq<(UVec3, MaterialId)>,
    k: int,
)
    requires
        cells.len() == volume(dim),
        all_in_bounds(ops, dim),
        0 <= k < ops.len(),
        forall|j: int| k < j < ops.len() ==> #[trigger] ops[j].0 != ops[k].0,
    ensures
        painted(cells, dim, ops)[linear(ops[k].0, dim)] == Some(ops[k].1),
    decreases ops.len(),
{
    let r = ops.drop_last();
    lemma_all_in_bounds_drop_last(ops, dim);
    lemma_painted_len(cells, dim, r);
    let last = ops[ops.len() - 1];
    assert(in_bounds(last.0, dim) && in_bounds(ops[k].0, dim));
    lemma_linear_in_range(last.0, dim);
    lemma_linear_in_range(ops[k].0, dim);
    if k < ops.len() - 1 {
        assert(r[k] == ops[k]);
        assert forall|j: int| 0 <= j < r.len() implies in_bounds(#[trigger] r[j].0, dim) by {
            assert(r[j] == ops[j]);
        }
        assert forall|j: int| k < j < r.len() implies #[trigger] r[j].0 != r[k].0 by {
            assert(r[j] == ops[j]);
        }
        law_last_write_wins(cells, dim, r, k);
        assert(last.0 != ops[k].0);
        if linear(last.0, dim) == linear(ops[k].0, dim) {
            crate::addressing::lemma_linear_injective(last.0, ops[k].0, dim);
        }
    }
}

/// Round trip: a cell holds the material that was last written to it, and
/// holds nothing once it was emptied.
pub proof fn law_round_trip(s: Seq<SparseNode>, dim: UVec3, c: UVec3, m: MaterialId)
    requires
        well_formed(s, dim),
        in_bounds(c, dim),
    ensures
        cells(inserted(s, dim, c, Some(m)))[linear(c, dim)] == Some(m),
        cells(removed(inserted(s, dim, c, Some(m)), dim, c))[linear(c, dim)] is None,
{
    lemma_linear_in_range(c, dim);
    lemma_inserted(s, dim, c, Some(m));
    lemma_removed(inserted(s, dim, c, Some(m)), dim, c);
}

/// Emptying a cell takes one from the number of occupied cells if the cell
/// was occupied, and nothing if it was empty.
proof fn lemma_occupancy_clear(cells: Seq<Option<MaterialId>>, a: int)
    requires
        0 <= a < cells.len(),
    ensures
        occupancy(cells.update(a, None)) + if cells[a] is Some {
            1nat
        } else {
            0nat
        } == occupancy(cells),
    decreases cells.len(),
{
    let after = cells.update(a, None);
    if a == cells.len() - 1 {
        assert(after.drop_last() =~= cells.drop_last());
    } else {
        assert(after.drop_last() =~= cells.drop_last().update(a, None));
        lemma_occupancy_clear(cells.drop_last(), a);
    }
}

/// Counting: a voxel written to an empty cell adds one to the voxels that
/// the volume lists, a voxel written to an occupied cell adds none, and
/// emptying an occupied cell takes one away.
pub proof fn law_counting(s: Seq<SparseNode>, dim: UVec3, c: UVec3, m: MaterialId)
    requires
        well_formed(s, dim),
        in_bounds(c, dim),
    ensures
        listing(cells(inserted(s, dim, c, Some(m))), dim).len() == listing(cells(s), dim).len()
            + if cells(s)[linear(c, dim)] is None {
            1nat
        } else {
            0nat
        },
        listing(cells(removed(s, dim, c)), dim).len() + if cells(s)[linear(c, dim)] is Some {
            1nat
        } else {
            0nat
        } == listing(cells(s), dim).len(),
{
    lemma_linear_in_range(c, dim);
    lemma_inserted(s, dim, c, Some(m));
    lemma_removed(s, dim, c);
    lemma_listing_len(cells(s), dim);
    lemma_listing_len(cells(inserted(s, dim, c, Some(m))), dim);
    lemma_listing_len(cells(removed(s, dim, c)), dim);
    lemma_occupancy_update(cells(s), linear(c, dim), m);
    lemma_occupancy_clear(cells(s), linear(c, dim));
}

/// A write to one cell leaves every other cell as it was.
pub proof fn law_insert_elsewhere(
    s: Seq<SparseNode>,
    dim: UVec3,
    c: UVec3,
    vox: Option<MaterialId>,
    other: UVec3,
)
    requires
        well_formed(s, dim),
        in_bounds(c, dim),
        in_bounds(other, dim),
        other != c,
    ensures
        cells(inserted(s, dim, c, vox))[linear(other, dim)] == cells(s)[linear(other, dim)],
        cells(removed(s, dim, c))[linear(other, dim)] == cells(s)[linear(other, dim)],
{
    lemma_linear_in_range(c, dim);
    lemma_linear_in_range(other, dim);
    if linear(other, dim) == linear(c, dim) {
        lemma_linear_injective(other, c, dim);
    }
    lemma_inserted(s, dim, c, vox);
    lemma_removed(s, dim, c);
}

/// Compression is idempotent and changes no cell: compressing twice gives
/// the segments that compressing once gives, and the cells and the list of
/// voxels are those from before.
pub proof fn law_compress_idempotent(s: Seq<SparseNode>, dim: UVec3)
    requires
        well_formed(s, dim),
    ensures
        merged(merged(s)) == merged(s),
        canonical(merged(s)),
        cells(merged(s)) == cells(s),
        listing(cells(merged(s)), dim) == listing(cells(s), dim),
{
    lemma_merged(s);
    lemma_merged_canonical(merged(s));
}

/// Whether no two writes of the series go to the same coordinate.
pub open spec fn distinct_coordinates(ops: Seq<(UVec3, MaterialId)>) -> bool {
    forall|j: int, k: int| 0 <= j < k < ops.len() ==> (#[trigger] ops[j]).0 != (#[trigger] ops[k]).0
}

/// Whether every write of the series goes to a cell that `cells` has empty.
pub open spec fn all_vacant(
    cells: Seq<Option<MaterialId>>,
    dim: UVec3,
    ops: Seq<(UVec3, MaterialId)>,
) -> bool {
    forall|k: int| 0 <= k < ops.len() ==> cells[linear(#[trigger] ops[k].0, dim)] is None
}

/// Conservation: writing voxels to distinct empty cells adds exactly their
/// number to the voxels that the volume lists.
pub proof fn law_conservation(s: Seq<SparseNode>, dim: UVec3, ops: Seq<(UVec3, MaterialId)>)
    requires
        well_formed(s, dim),
        all_in_bounds(ops, dim),
        distinct_coordinates(ops),
        all_vacant(cells(s), dim, ops),
    ensures
        listing(cells(filled(s, dim, ops)), dim).len() == listing(cells(s), dim).len()
            + ops.len(),
    decreases ops.len(),
{
    lemma_filled(s, dim, ops);
    lemma_listing_len(cells(filled(s, dim, ops)), dim);
    lemma_listing_len(cells(s), dim);
    if ops.len() > 0 {
        let r = ops.drop_last();
        let last = ops.last();
        lemma_all_in_bounds_drop_last(ops, dim);
        assert forall|j: int, k: int| 0 <= j < k < r.len() implies (#[trigger] r[j]).0 != (
        #[trigger] r[k]).0 by {
            assert(r[j] == ops[j] && r[k] == ops[k]);
        }
        assert forall|k: int| 0 <= k < r.len() implies cells(s)[linear(
            #[trigger] r[k].0,
            dim,
        )] is None by {
            assert(r[k] == ops[k]);
        }
        law_conservation(s, dim, r);
        lemma_filled(s, dim, r);
        lemma_listing_len(cells(filled(s, dim, r)), dim);
        let a = linear(last.0, dim);
        assert forall|k: int| 0 <= k < r.len() implies linear(#[trigger] r[k].0, dim) != a by {
            assert(r[k] == ops[k]);
            assert(ops[k].0 != ops[ops.len() - 1].0);
            assert(in_bounds(ops[k].0, dim));
            if linear(r[k].0, dim) == a {
                lemma_linear_injective(r[k].0, last.0, dim);
            }
        }
        lemma_painted_untouched(cells(s), dim, r, a);
        lemma_painted_len(cells(s), dim, r);
        assert(cells(s)[linear(ops[ops.len() - 1].0, dim)] is None);
        lemma_occupancy_update(painted(cells(s), dim, r), a, last.1);
    }
}

/// Conservation from an empty volume: after voxels were written to
/// distinct cells of it, the volume lists as many voxels as were written.
pub proof fn law_conservation_from_empty(dim: UVec3, ops: Seq<(UVec3, MaterialId)>)
    requires
        volume(dim) <= u32::MAX,
        all_in_bounds(ops, dim),
        distinct_coordinates(ops),
    ensures
        listing(cells(filled(empty_segments(dim), dim, ops)), dim).len() == ops.len(),
{
    let s = empty_segments(dim);
    lemma_empty_segments(dim);
    assert forall|k: int| 0 <= k < ops.len() implies cells(s)[linear(
        #[trigger] ops[k].0,
        dim,
    )] is None by {
        lemma_linear_in_range(ops[k].0, dim);
    }
    law_conservation(s, dim, ops);
    lemma_listing_len(cells(s), dim);
    lemma_occupancy_empty(volume(dim));
}

/// Merge on removal: when an occupied cell is emptied and the segment
/// behind it is a run, that run grows by exactly one cell and the cell's own
/// segment goes; else, when the segment before it is a run, the same holds
/// of that run; else the segment becomes a run of one. No other segment
/// changes.
pub proof fn law_merge_on_removal(s: Seq<SparseNode>, dim: UVec3, c: UVec3)
    requires
        well_formed(s, dim),
        in_bounds(c, dim),
        cells(s)[linear(c, dim)] is Some,
    ensures
        ({
            let n = locate(s, linear(c, dim));
            let t = removed(s, dim, c);
            &&& 0 <= n < s.len()
            &&& s[n] is Voxel
            &&& if n + 1 < s.len() && s[n + 1] is Nothing {
                &&& t.len() == s.len() - 1
                &&& t[n] is Nothing
                &&& node_len(t[n]) == node_len(s[n + 1]) + 1
                &&& forall|i: int| 0 <= i < n ==> t[i] == s[i]
                &&& forall|i: int| n < i < t.len() ==> t[i] == s[i + 1]
            } else if n > 0 && s[n - 1] is Nothing {
                &&& t.len() == s.len() - 1
                &&& t[n - 1] is Nothing
                &&& node_len(t[n - 1]) == node_len(s[n - 1]) + 1
                &&& forall|i: int| 0 <= i < n - 1 ==> t[i] == s[i]
                &&& forall|i: int| n <= i < t.len() ==> t[i] == s[i + 1]
            } else {
                &&& t.len() == s.len()
                &&& t[n] == SparseNode::Nothing(1)
                &&& forall|i: int| 0 <= i < s.len() && i != n ==> t[i] == s[i]
            }
        }),
{
    let a = linear(c, dim);
    lemma_linear_in_range(c, dim);
    lemma_covered(s, a);
    let n = locate(s, a);
    lemma_covers(s, n, a);
    lemma_start_monotone(s, 0, s.len() as int);
    if n + 1 < s.len() {
        lemma_start_step(s, n);
        lemma_start_step(s, n + 1);
        lemma_start_monotone(s, n + 2, s.len() as int);
    }
    if n > 0 {
        lemma_start_step(s, n - 1);
        lemma_start_step(s, n);
        lemma_start_monotone(s, n + 1, s.len() as int);
    }
}

} // verus!
