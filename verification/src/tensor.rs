//! The sparse volume and its operations.
//!
//! A volume stores its cells in address order as runs of empty cells and
//! single occupied cells. Two choices shape the operations:
//!
//! * An empty volume has a run of one for each of its cells. Runs grow
//!   where cells are emptied and where the volume is compressed, and a voxel
//!   written into a run of several cells splits the run. A write to a cell
//!   of the grid therefore always succeeds, whatever the layout of the
//!   segments is.
//! * Runs that come to stand side by side are not merged at once. `remove`
//!   hands the emptied cell to a neighbouring run where there is one;
//!   `compress` merges all runs; nothing else changes the layout beyond the
//!   cell that is written.
//!
//! Every operation is stated twice: by the cells that the volume holds
//! afterwards, which is its view, and by the segments that it is stored in.

use glam::{Mat4, UVec3};
use vstd::prelude::*;

use crate::addressing::{checked_linear, checked_volume, in_bounds, linear, volume};
use crate::composition::{
    all_representable, assembled, bounding, grid_ops, lemma_bounding_contains,
    placed_voxels, representable, PlacedVoxel,
};
use crate::content::{
    all_in_bounds, empty_cells, filled, lemma_filled, lemma_filled_single_cells,
    lemma_listing_step, listing, painted,
};
use crate::placement::{compose, composed, identity, place, unplaced};
use crate::scene::{MaterialId, Model};
use crate::segments::{
    canonical, cells, covers, empty_segments, inserted, lemma_covers, lemma_empty_segments,
    lemma_inserted, lemma_last_len, lemma_merged, lemma_merged_well_formed, lemma_removed,
    lemma_start_monotone, lemma_start_step, locate, merged, node_len, push_merged, removed,
    rewritten, slots, span, start, well_formed,
};

verus! {

/// One entry of the run-length encoding of a volume.
#[derive(Clone, Copy, Debug)]
pub enum SparseNode {
    /// So many empty cells in a row, in address order.
    Nothing(u32),
    /// One occupied cell: its coordinate and its material.
    Voxel((UVec3, MaterialId)),
}

impl SparseNode {
    /// The voxel of an occupied segment.
    pub fn voxel(&self) -> (v: &(UVec3, MaterialId))
        requires
            self is Voxel,
        ensures
            *self == SparseNode::Voxel(*v),
    {
        match self {
            SparseNode::Voxel(v) => v,
            SparseNode::Nothing(_) => vstd::pervasive::unreached(),
        }
    }

    /// The voxel of an occupied segment, for writing.
    pub fn voxel_mut(&mut self) -> (v: &mut (UVec3, MaterialId))
        requires
            *old(self) is Voxel,
        ensures
            *old(self) == SparseNode::Voxel(*v),
            *final(self) == SparseNode::Voxel(*final(v)),
    {
        match self {
            SparseNode::Voxel(v) => v,
            SparseNode::Nothing(_) => vstd::pervasive::unreached(),
        }
    }

    /// Adds `i` empty cells to a run.
    pub fn add_nils(&mut self, i: u32)
        requires
            *old(self) is Nothing,
            old(self)->Nothing_0 + i <= u32::MAX,
        ensures
            *final(self) == SparseNode::Nothing((old(self)->Nothing_0 + i) as u32),
    {
        match self {
            SparseNode::Nothing(n) => {
                *n = *n + i;
            },
            SparseNode::Voxel(_) => {},
        }
    }

    /// Number of empty cells that the segment stands for.
    pub fn nils(&self) -> (n: u32)
        ensures
            n == match *self {
                SparseNode::Nothing(k) => k,
                SparseNode::Voxel(_) => 0,
            },
    {
        match self {
            SparseNode::Nothing(n) => *n,
            SparseNode::Voxel(_) => 0,
        }
    }

    /// Number of cells that the segment stands for.
    pub fn cell_count(&self) -> (n: u32)
        ensures
            n == node_len(*self),
    {
        match self {
            SparseNode::Nothing(n) => *n,
            SparseNode::Voxel(_) => 1,
        }
    }
}

/// Why an operation on a volume was refused.
#[derive(Debug, Clone, Copy, PartialEq, Eq, Structural)]
pub enum TensorError {
    /// A coordinate lies outside the volume's extent.
    OutOfBounds,
    /// An extent has more cells than a run length can count.
    TooLarge,
    /// A placed coordinate is not finite, is negative, or is too large for
    /// a grid index.
    Unrepresentable,
}

/// A cuboid grid of cells, each empty or holding a material, stored as runs
/// of empty cells and single occupied cells in address order, together with
/// the placement of the grid in a shared frame.
#[derive(Debug, Clone)]
pub struct SparseTensorChunk {
    nodes: Vec<SparseNode>,
    dim: UVec3,
    pub transform: Mat4,
}

impl View for SparseTensorChunk {
    type V = Seq<Option<MaterialId>>;

    /// The material of each cell, in address order.
    open spec fn view(&self) -> Seq<Option<MaterialId>> {
        cells(self.segments())
    }
}

impl SparseTensorChunk {
    /// The run segments, in address order.
    pub closed spec fn segments(&self) -> Seq<SparseNode> {
        self.nodes@
    }

    /// The extent of the grid.
    pub closed spec fn spec_dim(&self) -> UVec3 {
        self.dim
    }

    /// The placement of the grid in the shared frame: the field `transform`.
    pub closed spec fn placement(&self) -> Mat4 {
        self.transform
    }

    /// The encoding invariant: see `well_formed`.
    pub open spec fn wf(&self) -> bool {
        well_formed(self.segments(), self.dim())
    }

    /// The extent of the grid. It is fixed when the volume is made.
    #[verifier::when_used_as_spec(spec_dim)]
    pub fn dim(&self) -> (d: UVec3)
        ensures
            d == self.dim(),
    {
        self.dim
    }

    /// The run segments, in address order.
    pub fn nodes(&self) -> (r: &Vec<SparseNode>)
        ensures
            r@ == self.segments(),
    {
        &self.nodes
    }

    /// Number of run segments that the volume is stored in.
    pub fn segment_count(&self) -> (n: usize)
        ensures
            n == self.segments().len(),
    {
        self.nodes.len()
    }

    /// Whether the volume is well formed, found out by walking its
    /// segments.
    pub fn is_well_formed(&self) -> (ok: bool)
        ensures
            ok == self.wf(),
    {
        let total = match checked_volume(self.dim) {
            Some(total) => total,
            None => { return false; },
        };
        let ghost s = self.nodes@;
        let ghost dim = self.dim;
        let mut at: u32 = 0;
        let mut n: usize = 0;
        proof {
            lemma_start_monotone(s, 0, s.len() as int);
        }
        while n < self.nodes.len()
            invariant
                s == self.nodes@,
                dim == self.dim(),
                total == volume(dim),
                n <= s.len(),
                at == start(s, n as int),
                at <= total,
                forall|i: int| 0 <= i < n ==> node_len(#[trigger] s[i]) >= 1,
                forall|a: int|
                    0 <= a < at ==> (#[trigger] slots(s.take(n as int))[a] matches Some(v)
                        ==> in_bounds(v.0, dim) && linear(v.0, dim) == a),
            decreases s.len() - n,
        {
            let ghost before = slots(s.take(n as int));
            proof {
                lemma_start_step(s, n as int);
                lemma_start_monotone(s, n as int + 1, s.len() as int);
            }
            match self.nodes[n] {
                SparseNode::Nothing(k) => {
                    if k == 0 || k > total - at {
                        return false;
                    }
                    at = at + k;
                },
                SparseNode::Voxel((c, _)) => {
                    if at == total {
                        return false;
                    }
                    proof {
                        lemma_covers(s, n as int, at as int);
                    }
                    match checked_linear(c, self.dim) {
                        Some(a) => {
                            if a != at {
                                return false;
                            }
                        },
                        None => { return false; },
                    }
                    at = at + 1;
                },
            }
            proof {
                let after = slots(s.take(n as int + 1));
                assert forall|a: int| 0 <= a < at implies (#[trigger] after[a] matches Some(v)
                    ==> in_bounds(v.0, dim) && linear(v.0, dim) == a) by {
                    if a < before.len() {
                        assert(after[a] == before[a]);
                    }
                }
            }
            n = n + 1;
        }
        proof {
            assert(s.take(s.len() as int) =~= s);
        }
        at == total
    }

    /// An empty volume of extent `dim` with the identity placement: for each
    /// cell a run of one.
    pub fn nothing(dim: UVec3) -> (r: Self)
        requires
            volume(dim) <= u32::MAX,
        ensures
            r.wf(),
            r.dim() == dim,
            r.placement() == unplaced(),
            r.segments() == empty_segments(dim),
            r.segments().len() == volume(dim),
            r@ == Seq::new(volume(dim), |a: int| None::<MaterialId>),
    {
        let n = checked_volume(dim).unwrap();
        let mut nodes: Vec<SparseNode> = Vec::new();
        let mut k: u32 = 0;
        while k < n
            invariant
                k <= n,
                nodes@ == Seq::new(k as nat, |j: int| SparseNode::Nothing(1)),
            decreases n - k,
        {
            nodes.push(SparseNode::Nothing(1));
            k = k + 1;
            assert(nodes@ =~= Seq::new(k as nat, |j: int| SparseNode::Nothing(1)));
        }
        proof {
            lemma_empty_segments(dim);
        }
        SparseTensorChunk { nodes, dim, transform: identity() }
    }

    /// Index of the segment that holds cell `i_`.
    ///
    /// Fails with `OutOfBounds` exactly when `i_` is no cell of the grid.
    pub fn near_idx(&self, i_: UVec3) -> (r: Result<usize, TensorError>)
        requires
            self.wf(),
        ensures
            r is Ok <==> in_bounds(i_, self.dim()),
            r matches Ok(n) ==> covers(self.segments(), n as int, linear(i_, self.dim())) && n
                == locate(self.segments(), linear(i_, self.dim())),
            r matches Err(e) ==> e == TensorError::OutOfBounds,
    {
        match self.find(i_) {
            Some((n, _)) => Ok(n),
            None => Err(TensorError::OutOfBounds),
        }
    }

    /// The segment that holds cell `c` and the place of the cell within that
    /// segment, or `None` where `c` is no cell of the grid.
    fn find(&self, c: UVec3) -> (r: Option<(usize, u32)>)
        requires
            self.wf(),
        ensures
            r is Some <==> in_bounds(c, self.dim()),
            r matches Some((n, k)) ==> covers(self.segments(), n as int, linear(c, self.dim()))
                && n == locate(self.segments(), linear(c, self.dim())) && k == linear(
                c,
                self.dim(),
            ) - start(self.segments(), n as int),
    {
        let a = match checked_linear(c, self.dim) {
            Some(a) => a,
            None => { return None; },
        };
        let ghost s = self.nodes@;
        proof {
            crate::addressing::lemma_linear_in_range(c, self.dim);
            lemma_start_monotone(s, 0, s.len() as int);
        }
        let mut n: usize = 0;
        let mut j: u32 = 0;
        loop
            invariant
                s == self.nodes@,
                in_bounds(c, self.dim()),
                a == linear(c, self.dim()),
                0 <= n < s.len(),
                j == start(s, n as int),
                j <= a < span(s),
                span(s) <= u32::MAX,
            decreases s.len() - n,
        {
            assert(n < self.nodes.len());
            let len = self.nodes[n].cell_count();
            proof {
                lemma_start_step(s, n as int);
                lemma_start_monotone(s, n as int + 1, s.len() as int);
            }
            if a - j < len {
                proof {
                    lemma_covers(s, n as int, a as int);
                }
                return Some((n, a - j));
            }
            j = j + len;
            n = n + 1;
        }
    }

    /// Index of the segment of the occupied cell `i`, or `None` where the
    /// cell is empty.
    ///
    /// Fails with `OutOfBounds` exactly when `i` is no cell of the grid.
    pub fn idx(&self, i: UVec3) -> (r: Result<Option<usize>, TensorError>)
        requires
            self.wf(),
        ensures
            r is Ok <==> in_bounds(i, self.dim()),
            r matches Err(e) ==> e == TensorError::OutOfBounds,
            r matches Ok(o) ==> (o is Some <==> self@[linear(i, self.dim())] is Some),
            r matches Ok(Some(n)) ==> n == locate(self.segments(), linear(i, self.dim()))
                && self.segments()[n as int] is Voxel,
    {
        match self.find(i) {
            None => Err(TensorError::OutOfBounds),
            Some((n, _)) => {
                proof {
                    lemma_covers(self.nodes@, n as int, linear(i, self.dim));
                }
                match self.nodes[n] {
                    SparseNode::Nothing(_) => Ok(None),
                    SparseNode::Voxel(_) => Ok(Some(n)),
                }
            },
        }
    }

    /// What cell `i` holds: the voxel with its coordinate, or `None` where
    /// the cell is empty.
    ///
    /// Fails with `OutOfBounds` exactly when `i` is no cell of the grid.
    pub fn voxel(&self, i: UVec3) -> (r: Result<Option<&(UVec3, MaterialId)>, TensorError>)
        requires
            self.wf(),
        ensures
            r is Ok <==> in_bounds(i, self.dim()),
            r matches Err(e) ==> e == TensorError::OutOfBounds,
            r matches Ok(Some(v)) ==> v.0 == i && self@[linear(i, self.dim())] == Some(v.1),
            r matches Ok(None) ==> self@[linear(i, self.dim())] is None,
    {
        match self.find(i) {
            None => Err(TensorError::OutOfBounds),
            Some((n, _)) => {
                proof {
                    let a = linear(i, self.dim);
                    lemma_covers(self.nodes@, n as int, a);
                    if let Some(v) = slots(self.nodes@)[a] {
                        crate::addressing::lemma_linear_injective(v.0, i, self.dim);
                    }
                }
                match self.nodes[n] {
                    SparseNode::Nothing(_) => Ok(None),
                    SparseNode::Voxel(_) => Ok(Some(self.nodes[n].voxel())),
                }
            },
        }
    }

    /// The material of cell `i` for writing, or `None` where the cell is
    /// empty. The coordinate of a voxel is not handed out: it is fixed by
    /// the cell.
    ///
    /// Fails with `OutOfBounds` exactly when `i` is no cell of the grid.
    pub fn voxel_mut(&mut self, i: UVec3) -> (r: Result<Option<&mut MaterialId>, TensorError>)
        requires
            old(self).wf(),
        ensures
            r is Ok <==> in_bounds(i, old(self).dim()),
            r matches Err(e) ==> e == TensorError::OutOfBounds,
            r matches Ok(Some(m)) ==> old(self)@[linear(i, old(self).dim())] == Some(*m),
            r matches Ok(None) ==> old(self)@[linear(i, old(self).dim())] is None,
            final(self).segments() == match r {
                Ok(Some(m)) => rewritten(old(self).segments(), old(self).dim(), i, *final(m)),
                _ => old(self).segments(),
            },
            final(self).wf(),
            final(self).dim() == old(self).dim(),
            final(self).placement() == old(self).placement(),
            final(self)@ == match r {
                Ok(Some(m)) => old(self)@.update(linear(i, old(self).dim()), Some(*final(m))),
                _ => old(self)@,
            },
    {
        let n = match self.find(i) {
            Some((n, _)) => n,
            None => { return Err(TensorError::OutOfBounds); },
        };
        let ghost s = self.nodes@;
        let ghost dim = self.dim;
        proof {
            lemma_covers(s, n as int, linear(i, dim));
            if let Some(v) = slots(s)[linear(i, dim)] {
                crate::addressing::lemma_linear_injective(v.0, i, dim);
            }
        }
        if let SparseNode::Nothing(_) = self.nodes[n] {
            return Ok(None);
        }
        proof {
            assert forall|m: MaterialId|
                ({
                    let t = #[trigger] s.update(n as int, SparseNode::Voxel((i, m)));
                    &&& t == rewritten(s, dim, i, m)
                    &&& well_formed(t, dim)
                    &&& cells(t) == cells(s).update(linear(i, dim), Some(m))
                }) by {
                lemma_inserted(s, dim, i, Some(m));
            }
        }
        let pair = self.nodes[n].voxel_mut();
        Ok(Some(&mut pair.1))
    }

    /// Writes `vox` to cell `i`: a material occupies the cell, `None`
    /// empties it in place. A run that receives a voxel is split, so a write
    /// to a cell of the grid always succeeds.
    ///
    /// Fails with `OutOfBounds` exactly when `i` is no cell of the grid; the
    /// volume is then unchanged.
    pub fn insert(&mut self, i: UVec3, vox: Option<MaterialId>) -> (r: Result<(), TensorError>)
        requires
            old(self).wf(),
        ensures
            r is Ok <==> in_bounds(i, old(self).dim()),
            r matches Err(e) ==> e == TensorError::OutOfBounds && *final(self) == *old(self),
            final(self).wf(),
            final(self).dim() == old(self).dim(),
            final(self).placement() == old(self).placement(),
            r is Ok ==> final(self)@ == old(self)@.update(linear(i, old(self).dim()), vox),
            r is Ok ==> final(self).segments() == inserted(
                old(self).segments(),
                old(self).dim(),
                i,
                vox,
            ),
    {
        let (n, k) = match self.find(i) {
            Some(found) => found,
            None => { return Err(TensorError::OutOfBounds); },
        };
        let ghost s = self.nodes@;
        proof {
            lemma_inserted(s, self.dim, i, vox);
            lemma_covers(s, n as int, linear(i, self.dim));
        }
        assert(n < self.nodes.len());
        match (self.nodes[n], vox) {
            (SparseNode::Voxel(_), Some(m)) => {
                self.nodes.set(n, SparseNode::Voxel((i, m)));
            },
            (SparseNode::Voxel(_), None) => {
                self.nodes.set(n, SparseNode::Nothing(1));
            },
            (SparseNode::Nothing(len), Some(m)) => {
                let behind: u32 = len - k - 1;
                self.nodes.set(n, SparseNode::Voxel((i, m)));
                if behind > 0 {
                    self.nodes.insert(n + 1, SparseNode::Nothing(behind));
                }
                if k > 0 {
                    self.nodes.insert(n, SparseNode::Nothing(k));
                }
                assert(self.nodes@ =~= inserted(s, self.dim, i, vox));
            },
            (SparseNode::Nothing(_), None) => {},
        }
        Ok(())
    }

    /// Brings the volume into canonical form: in one pass from the first
    /// segment to the last, every run that follows a run is added to it.
    /// No cell changes.
    pub fn compress(&mut self)
        requires
            old(self).wf(),
        ensures
            final(self).wf(),
            final(self).dim() == old(self).dim(),
            final(self).placement() == old(self).placement(),
            final(self)@ == old(self)@,
            final(self).segments() == merged(old(self).segments()),
            canonical(final(self).segments()),
    {
        let ghost s = self.nodes@;
        let mut out: Vec<SparseNode> = Vec::new();
        let mut n: usize = 0;
        proof {
            assert(s.take(0) =~= Seq::<SparseNode>::empty());
        }
        while n < self.nodes.len()
            invariant
                s == self.nodes@,
                n <= s.len(),
                out@ == merged(s.take(n as int)),
                span(s) <= u32::MAX,
            decreases s.len() - n,
        {
            let node = self.nodes[n];
            let ghost t = out@;
            proof {
                assert(s.take(n as int + 1).drop_last() =~= s.take(n as int));
                assert(s.take(n as int + 1).last() == s[n as int]);
                lemma_start_step(s, n as int);
                lemma_start_monotone(s, n as int + 1, s.len() as int);
                lemma_merged(s.take(n as int));
                if t.len() > 0 {
                    lemma_last_len(t);
                }
            }
            let last = out.len();
            match node {
                SparseNode::Nothing(k) if last > 0 => {
                    match out[last - 1] {
                        SparseNode::Nothing(_) => {
                            out[last - 1].add_nils(k);
                            assert(out@ =~= push_merged(t, node));
                        },
                        SparseNode::Voxel(_) => {
                            out.push(node);
                        },
                    }
                },
                _ => {
                    out.push(node);
                },
            }
            n = n + 1;
        }
        proof {
            assert(s.take(s.len() as int) =~= s);
            lemma_merged_well_formed(s, self.dim);
            lemma_merged(s);
        }
        self.nodes = out;
    }

    /// Empties cell `i`. Where a neighbouring segment is a run, that run
    /// takes the cell over and the cell's own segment goes: the successor is
    /// tried first, then the predecessor. Else the segment becomes a run of
    /// one.
    ///
    /// Fails with `OutOfBounds` exactly when `i` is no cell of the grid; the
    /// volume is then unchanged.
    pub fn remove(&mut self, i: UVec3) -> (r: Result<(), TensorError>)
        requires
            old(self).wf(),
        ensures
            r is Ok <==> in_bounds(i, old(self).dim()),
            r matches Err(e) ==> e == TensorError::OutOfBounds && *final(self) == *old(self),
            final(self).wf(),
            final(self).dim() == old(self).dim(),
            final(self).placement() == old(self).placement(),
            r is Ok ==> final(self)@ == old(self)@.update(linear(i, old(self).dim()), None),
            r is Ok ==> final(self).segments() == removed(
                old(self).segments(),
                old(self).dim(),
                i,
            ),
    {
        let n = match self.find(i) {
            Some((n, _)) => n,
            None => { return Err(TensorError::OutOfBounds); },
        };
        let ghost s = self.nodes@;
        proof {
            lemma_removed(s, self.dim, i);
            lemma_start_monotone(s, 0, s.len() as int);
            if s[n as int] is Voxel && n + 1 < s.len() {
                lemma_start_step(s, n as int);
                lemma_start_step(s, n as int + 1);
                lemma_start_monotone(s, n as int + 2, s.len() as int);
            }
            if s[n as int] is Voxel && n > 0 {
                lemma_start_step(s, n as int - 1);
                lemma_start_step(s, n as int);
                lemma_start_monotone(s, n as int + 1, s.len() as int);
            }
        }
        assert(n < self.nodes.len());
        if let SparseNode::Voxel(_) = self.nodes[n] {
            let next = if n + 1 < self.nodes.len() {
                self.nodes[n + 1].nils()
            } else {
                0
            };
            let prev = if n > 0 {
                self.nodes[n - 1].nils()
            } else {
                0
            };
            if next > 0 {
                self.nodes.set(n + 1, SparseNode::Nothing(next + 1));
                self.nodes.remove(n);
            } else if prev > 0 {
                self.nodes.set(n - 1, SparseNode::Nothing(prev + 1));
                self.nodes.remove(n);
            } else {
                self.nodes.set(n, SparseNode::Nothing(1));
            }
        }
        Ok(())
    }

    /// The occupied cells in ascending address order, each with its
    /// coordinate and its material.
    pub fn voxels(&self) -> (r: Vec<(UVec3, MaterialId)>)
        requires
            self.wf(),
        ensures
            r@ == listing(self@, self.dim()),
    {
        let ghost s = self.nodes@;
        let mut out: Vec<(UVec3, MaterialId)> = Vec::new();
        let mut n: usize = 0;
        proof {
            assert(s.take(0) =~= Seq::<SparseNode>::empty());
            assert(cells(s.take(0)) =~= Seq::<Option<MaterialId>>::empty());
        }
        while n < self.nodes.len()
            invariant
                s == self.nodes@,
                well_formed(s, self.dim()),
                n <= s.len(),
                out@ == listing(cells(s.take(n as int)), self.dim()),
            decreases s.len() - n,
        {
            proof {
                lemma_listing_step(s, self.dim, n as int);
            }
            if let SparseNode::Voxel(v) = self.nodes[n] {
                out.push(v);
            }
            n = n + 1;
        }
        proof {
            assert(s.take(s.len() as int) =~= s);
        }
        out
    }

    /// The volume of a model: an empty volume of the model's extent into
    /// which every listed voxel was written in list order, brought into
    /// canonical form, and placed by the model's transform.
    ///
    /// Fails with `TooLarge` exactly when the extent has more cells than a
    /// run length can count, and else with `OutOfBounds` exactly when some
    /// listed voxel is no cell of the extent.
    pub fn from_model(value: Model) -> (r: Result<Self, TensorError>)
        ensures
            r is Ok <==> volume(value.size) <= u32::MAX && all_in_bounds(
                value.positions@,
                value.size,
            ),
            r matches Err(e) ==> e == if volume(value.size) > u32::MAX {
                TensorError::TooLarge
            } else {
                TensorError::OutOfBounds
            },
            r matches Ok(c) ==> {
                &&& c.wf()
                &&& c.dim() == value.size
                &&& c@ == painted(
                    empty_cells(volume(value.size)),
                    value.size,
                    value.positions@,
                )
                &&& c.segments() == merged(
                    filled(empty_segments(value.size), value.size, value.positions@),
                )
                &&& canonical(c.segments())
                &&& c.placement() == composed(unplaced(), value.transform)
            },
    {
        let dim = value.size;
        if checked_volume(dim).is_none() {
            return Err(TensorError::TooLarge);
        }
        let mut temp = Self::nothing(dim);
        temp.transform = compose(&temp.transform, &value.transform);
        let ghost ops = value.positions@;
        let ghost init = empty_segments(dim);
        let mut k: usize = 0;
        while k < value.positions.len()
            invariant
                ops == value.positions@,
                dim == value.size,
                volume(dim) <= u32::MAX,
                init == empty_segments(dim),
                k <= ops.len(),
                temp.wf(),
                temp.dim() == dim,
                all_in_bounds(ops.take(k as int), dim),
                temp.segments() == filled(init, dim, ops.take(k as int)),
                temp.placement() == composed(unplaced(), value.transform),
            decreases ops.len() - k,
        {
            let (c, m) = value.positions[k];
            proof {
                assert(ops.take(k as int + 1).drop_last() =~= ops.take(k as int));
                assert(ops.take(k as int + 1).last() == ops[k as int]);
            }
            match temp.insert(c, Some(m)) {
                Ok(()) => {},
                Err(_) => {
                    assert(!in_bounds(ops[k as int].0, dim));
                    return Err(TensorError::OutOfBounds);
                },
            }
            proof {
                let next = ops.take(k as int + 1);
                assert forall|j: int| 0 <= j < next.len() implies in_bounds(
                    #[trigger] next[j].0,
                    dim,
                ) by {
                    if j < k {
                        assert(next[j] == ops.take(k as int)[j]);
                    }
                }
            }
            k = k + 1;
        }
        proof {
            assert(ops.take(ops.len() as int) =~= ops);
            lemma_filled(init, dim, ops);
            lemma_empty_segments(dim);
        }
        temp.compress();
        Ok(temp)
    }
}

/// The voxels of a volume carried into the shared frame by its placement.
pub fn place_voxels(m: &Mat4, voxels: &Vec<(UVec3, MaterialId)>) -> (r: Vec<PlacedVoxel>)
    ensures
        r@ == placed_voxels(*m, voxels@),
{
    let mut out: Vec<PlacedVoxel> = Vec::new();
    let mut k: usize = 0;
    while k < voxels.len()
        invariant
            k <= voxels.len(),
            out@ == placed_voxels(*m, voxels@.take(k as int)),
        decreases voxels.len() - k,
    {
        let (c, material) = voxels[k];
        out.push((place(m, c.x, c.y, c.z, 1), material));
        assert(out@ =~= placed_voxels(*m, voxels@.take(k as int + 1)));
        k = k + 1;
    }
    assert(voxels@.take(voxels.len() as int) =~= voxels@);
    out
}

/// One volume that holds the given voxels: its extent is the smallest that
/// holds them all, its placement is the identity, and the voxels are
/// written in order, so that of two in one cell the later one stays. The
/// runs are not merged afterwards.
///
/// Fails with `Unrepresentable` exactly when some point is not finite, is
/// negative, or leaves no room for an extent behind it, and else with
/// `TooLarge` exactly when the extent has more cells than a run length can
/// count.
pub fn assemble(points: &Vec<PlacedVoxel>) -> (r: Result<SparseTensorChunk, TensorError>)
    ensures
        assembled(points@, r),
{
    let limit: i64 = 0xffff_ffff;
    let mut dim = UVec3 { x: 0, y: 0, z: 0 };
    let mut k: usize = 0;
    while k < points.len()
        invariant
            limit == u32::MAX,
            k <= points.len(),
            all_representable(points@.take(k as int)),
            dim == bounding(points@.take(k as int)),
        decreases points.len() - k,
    {
        let p = points[k].0;
        proof {
            assert(points@.take(k as int + 1).drop_last() =~= points@.take(k as int));
            assert(points@.take(k as int + 1).last() == points@[k as int]);
        }
        if !(p.finite && 0 <= p.x && p.x < limit && 0 <= p.y && p.y < limit && 0 <= p.z && p.z
            < limit) {
            assert(!representable(points@[k as int].0));
            return Err(TensorError::Unrepresentable);
        }
        let (x, y, z) = (p.x as u32 + 1, p.y as u32 + 1, p.z as u32 + 1);
        if x > dim.x {
            dim.x = x;
        }
        if y > dim.y {
            dim.y = y;
        }
        if z > dim.z {
            dim.z = z;
        }
        proof {
            let next = points@.take(k as int + 1);
            assert forall|j: int| 0 <= j < next.len() implies representable(
                #[trigger] next[j].0,
            ) by {
                if j < k {
                    assert(next[j] == points@.take(k as int)[j]);
                }
            }
        }
        k = k + 1;
    }
    proof {
        assert(points@.take(points.len() as int) =~= points@);
    }
    if checked_volume(dim).is_none() {
        return Err(TensorError::TooLarge);
    }
    let mut c = SparseTensorChunk::nothing(dim);
    let ghost ops = grid_ops(points@);
    let ghost init = empty_segments(dim);
    let mut k: usize = 0;
    while k < points.len()
        invariant
            ops == grid_ops(points@),
            init == empty_segments(dim),
            all_representable(points@),
            dim == bounding(points@),
            k <= points.len(),
            c.wf(),
            c.dim() == dim,
            c.placement() == unplaced(),
            c.segments() == filled(init, dim, ops.take(k as int)),
        decreases points.len() - k,
    {
        let (p, material) = points[k];
        let at = UVec3 { x: p.x as u32, y: p.y as u32, z: p.z as u32 };
        proof {
            lemma_bounding_contains(points@, k as int);
            assert(representable(points@[k as int].0));
            assert(ops.take(k as int + 1).drop_last() =~= ops.take(k as int));
            assert(ops.take(k as int + 1).last() == ops[k as int]);
        }
        let written = c.insert(at, Some(material));
        assert(written is Ok);
        k = k + 1;
    }
    proof {
        assert(ops.take(ops.len() as int) =~= ops);
        lemma_empty_segments(dim);
        assert forall|j: int| 0 <= j < ops.len() implies in_bounds(#[trigger] ops[j].0, dim) by {
            lemma_bounding_contains(points@, j);
        }
        lemma_filled(init, dim, ops);
        lemma_filled_single_cells(init, dim, ops);
    }
    Ok(c)
}

/// Merges two placed volumes into one volume in the shared frame.
///
/// Each voxel of `a`, then each voxel of `b`, in ascending address order,
/// is carried into the shared frame by the placement of its volume and cut
/// off towards zero; the voxels are then assembled as `assemble` does. Where
/// two voxels come to lie in one cell, the one of `b` stays. The result is
/// not brought into canonical form.
pub fn combine(a: SparseTensorChunk, b: SparseTensorChunk) -> (r: Result<
    SparseTensorChunk,
    TensorError,
>)
    requires
        a.wf(),
        b.wf(),
    ensures
        assembled(
            placed_voxels(a.placement(), listing(a@, a.dim())) + placed_voxels(
                b.placement(),
                listing(b@, b.dim()),
            ),
            r,
        ),
{
    let mut points = place_voxels(&a.transform, &a.voxels());
    let mut more = place_voxels(&b.transform, &b.voxels());
    points.append(&mut more);
    assemble(&points)
}

} // verus!
