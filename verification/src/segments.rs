//! What a sequence of run segments stands for.
//!
//! A sequence of segments is read as a sequence of slots, one per cell in
//! address order. Everything the volume's operations promise is stated over
//! that reading.

use glam::UVec3;
use vstd::prelude::*;

use crate::addressing::{in_bounds, linear, volume};
use crate::scene::MaterialId;
use crate::tensor::SparseNode;

verus! {

/// What one cell holds: nothing, or a voxel with its coordinate.
pub type Slot = Option<(UVec3, MaterialId)>;

/// Number of cells that a segment stands for.
pub open spec fn node_len(n: SparseNode) -> nat {
    match n {
        SparseNode::Nothing(k) => k as nat,
        SparseNode::Voxel(_) => 1,
    }
}

/// The cells that a segment stands for.
pub open spec fn node_slots(n: SparseNode) -> Seq<Slot> {
    match n {
        SparseNode::Nothing(k) => Seq::new(k as nat, |i: int| None::<(UVec3, MaterialId)>),
        SparseNode::Voxel(v) => seq![Some(v)],
    }
}

/// The cells that a sequence of segments stands for, in address order.
pub open spec fn slots(s: Seq<SparseNode>) -> Seq<Slot>
    decreases s.len(),
{
    if s.len() == 0 {
        Seq::empty()
    } else {
        slots(s.drop_last()) + node_slots(s.last())
    }
}

/// Number of cells that a sequence of segments stands for.
pub open spec fn span(s: Seq<SparseNode>) -> nat {
    slots(s).len()
}

/// The material of a slot, if it holds a voxel.
pub open spec fn material(slot: Slot) -> Option<MaterialId> {
    match slot {
        Some(v) => Some(v.1),
        None => None,
    }
}

/// The material of each cell, in address order.
pub open spec fn cells(s: Seq<SparseNode>) -> Seq<Option<MaterialId>> {
    Seq::new(span(s), |a: int| material(slots(s)[a]))
}

/// Address of the first cell of segment `n`.
pub open spec fn start(s: Seq<SparseNode>, n: int) -> nat {
    span(s.take(n))
}

/// Whether segment `n` of `s` holds the cell with address `a`.
pub open spec fn covers(s: Seq<SparseNode>, n: int, a: int) -> bool {
    0 <= n < s.len() && start(s, n) <= a < start(s, n) + node_len(s[n])
}

/// Index of the segment that holds the cell with address `a`.
pub open spec fn locate(s: Seq<SparseNode>, a: int) -> int {
    choose|n: int| covers(s, n, a)
}

/// The encoding invariant of a volume with extent `dim`: the segments stand
/// for exactly the grid's cells, no run is empty, and every voxel sits at the
/// address of the coordinate it carries.
pub open spec fn well_formed(s: Seq<SparseNode>, dim: UVec3) -> bool {
    &&& volume(dim) <= u32::MAX
    &&& span(s) == volume(dim)
    &&& forall|i: int| 0 <= i < s.len() ==> node_len(#[trigger] s[i]) >= 1
    &&& forall|a: int|
        0 <= a < span(s) ==> (#[trigger] slots(s)[a] matches Some(v) ==> in_bounds(v.0, dim)
            && linear(v.0, dim) == a)
}

/// The segments of an empty volume of extent `dim`: for each cell a run of
/// one.
pub open spec fn empty_segments(dim: UVec3) -> Seq<SparseNode> {
    Seq::new(volume(dim), |k: int| SparseNode::Nothing(1))
}

/// So many runs of one stand for so many empty cells.
pub proof fn lemma_single_runs(n: nat)
    ensures
        slots(Seq::new(n, |k: int| SparseNode::Nothing(1))) == Seq::new(
            n,
            |a: int| None::<(UVec3, MaterialId)>,
        ),
    decreases n,
{
    let runs = Seq::new(n, |k: int| SparseNode::Nothing(1));
    if n == 0 {
        assert(slots(runs) =~= Seq::new(n, |a: int| None::<(UVec3, MaterialId)>));
    } else {
        lemma_single_runs((n - 1) as nat);
        assert(runs.drop_last() =~= Seq::new((n - 1) as nat, |k: int| SparseNode::Nothing(1)));
        assert(runs.last() == SparseNode::Nothing(1));
        assert(slots(runs) =~= Seq::new(n, |a: int| None::<(UVec3, MaterialId)>));
    }
}

/// An empty volume is well formed and every cell of it is empty.
pub proof fn lemma_empty_segments(dim: UVec3)
    requires
        volume(dim) <= u32::MAX,
    ensures
        well_formed(empty_segments(dim), dim),
        cells(empty_segments(dim)) == Seq::new(volume(dim), |a: int| None::<MaterialId>),
{
    let s = empty_segments(dim);
    lemma_single_runs(volume(dim));
    assert(cells(s) =~= Seq::new(volume(dim), |a: int| None::<MaterialId>));
}

/// Reading a concatenation is concatenating the readings.
pub proof fn lemma_slots_concat(a: Seq<SparseNode>, b: Seq<SparseNode>)
    ensures
        slots(a + b) == slots(a) + slots(b),
        span(a + b) == span(a) + span(b),
    decreases b.len(),
{
    if b.len() == 0 {
        assert(a + b =~= a);
        assert(slots(a) + slots(b) =~= slots(a));
    } else {
        lemma_slots_concat(a, b.drop_last());
        assert((a + b).drop_last() =~= a + b.drop_last());
        assert((a + b).last() == b.last());
        assert(slots(a + b) =~= slots(a) + slots(b));
    }
}

pub proof fn lemma_slots_single(n: SparseNode)
    ensures
        slots(seq![n]) == node_slots(n),
{
    let s = seq![n];
    assert(s.drop_last() =~= Seq::<SparseNode>::empty());
    assert(slots(s.drop_last()) =~= Seq::<Slot>::empty());
    assert(slots(s) =~= node_slots(n));
}

/// Replacing the segments from `i` up to `j` by `mid` changes exactly the
/// slots that those segments stood for.
pub proof fn lemma_slots_splice(s: Seq<SparseNode>, i: int, j: int, mid: Seq<SparseNode>)
    requires
        0 <= i <= j <= s.len(),
    ensures
        slots(s) == slots(s.take(i)) + slots(s.subrange(i, j)) + slots(s.skip(j)),
        slots(s.take(i) + mid + s.skip(j)) == slots(s.take(i)) + slots(mid) + slots(s.skip(j)),
{
    assert(s =~= s.take(i) + s.subrange(i, j) + s.skip(j));
    lemma_slots_concat(s.take(i), s.subrange(i, j));
    lemma_slots_concat(s.take(i) + s.subrange(i, j), s.skip(j));
    lemma_slots_concat(s.take(i), mid);
    lemma_slots_concat(s.take(i) + mid, s.skip(j));
}

/// The start of the next segment is the start of this one plus its length.
pub proof fn lemma_start_step(s: Seq<SparseNode>, n: int)
    requires
        0 <= n < s.len(),
    ensures
        slots(s.take(n + 1)) == slots(s.take(n)) + node_slots(s[n]),
        start(s, n + 1) == start(s, n) + node_len(s[n]),
{
    assert(s.take(n + 1).drop_last() =~= s.take(n));
    assert(s.take(n + 1).last() == s[n]);
}

/// Segments start in ascending order, and the last one ends where the
/// sequence ends.
pub proof fn lemma_start_monotone(s: Seq<SparseNode>, i: int, j: int)
    requires
        0 <= i <= j <= s.len(),
    ensures
        start(s, i) <= start(s, j),
        start(s, s.len() as int) == span(s),
        start(s, 0) == 0,
    decreases j - i,
{
    assert(s.take(s.len() as int) =~= s);
    assert(s.take(0) =~= Seq::<SparseNode>::empty());
    if i < j {
        lemma_start_step(s, j - 1);
        lemma_start_monotone(s, i, j - 1);
    }
}

/// At most one segment holds a given address.
pub proof fn lemma_covers_unique(s: Seq<SparseNode>, n: int, m: int, a: int)
    requires
        covers(s, n, a),
        covers(s, m, a),
    ensures
        n == m,
{
    if n < m {
        lemma_start_step(s, n);
        lemma_start_monotone(s, n + 1, m);
    } else if m < n {
        lemma_start_step(s, m);
        lemma_start_monotone(s, m + 1, n);
    }
}

/// The segment that holds an address is the one `locate` names, and the slot
/// at that address is the segment's own.
pub proof fn lemma_covers(s: Seq<SparseNode>, n: int, a: int)
    requires
        covers(s, n, a),
    ensures
        locate(s, a) == n,
        0 <= a < span(s),
        slots(s)[a] == node_slots(s[n])[a - start(s, n)],
{
    let m = locate(s, a);
    lemma_covers_unique(s, n, m, a);
    lemma_slots_splice(s, n, n + 1, seq![s[n]]);
    assert(s.subrange(n, n + 1) =~= seq![s[n]]);
    lemma_slots_single(s[n]);
}

/// Every address of the sequence lies in some segment.
pub proof fn lemma_covered(s: Seq<SparseNode>, a: int)
    requires
        0 <= a < span(s),
    ensures
        covers(s, locate(s, a), a),
    decreases s.len(),
{
    if s.len() == 0 {
    } else {
        let k = s.len() - 1;
        lemma_start_step(s, k);
        lemma_start_monotone(s, 0, s.len() as int);
        if a >= start(s, k) {
            assert(covers(s, k, a));
        } else {
            let t = s.drop_last();
            assert(t =~= s.take(k));
            lemma_covered(t, a);
            let n = locate(t, a);
            assert(t.take(n) =~= s.take(n));
            assert(covers(s, n, a));
        }
    }
}

/// A run of `k` empty cells as a sequence of segments: one segment, or
/// none where `k` is zero.
pub open spec fn run(k: int) -> Seq<SparseNode> {
    if k > 0 {
        seq![SparseNode::Nothing(k as u32)]
    } else {
        Seq::empty()
    }
}

/// The slot that a cell holds once `vox` was written to coordinate `c`.
pub open spec fn slot_of(c: UVec3, vox: Option<MaterialId>) -> Slot {
    match vox {
        Some(m) => Some((c, m)),
        None => None,
    }
}

/// The segments after `vox` was written to cell `c`.
///
/// An occupied cell is overwritten in place. An empty cell that is to stay
/// empty changes nothing. A run that receives a voxel is split into what
/// lies before the cell, the voxel, and what lies behind it; a run of one
/// cell is thereby replaced by the voxel.
pub open spec fn inserted(
    s: Seq<SparseNode>,
    dim: UVec3,
    c: UVec3,
    vox: Option<MaterialId>,
) -> Seq<SparseNode> {
    let a = linear(c, dim);
    let n = locate(s, a);
    let k = a - start(s, n);
    match (s[n], vox) {
        (SparseNode::Voxel(_), Some(m)) => s.update(n, SparseNode::Voxel((c, m))),
        (SparseNode::Voxel(_), None) => s.update(n, SparseNode::Nothing(1)),
        (SparseNode::Nothing(len), Some(m)) => s.take(n) + run(k) + seq![
            SparseNode::Voxel((c, m)),
        ] + run(len - k - 1) + s.skip(n + 1),
        (SparseNode::Nothing(_), None) => s,
    }
}

/// The segments after the voxel in cell `c` was given the material `m`:
/// its segment holds `m`, and nothing else changes.
pub open spec fn rewritten(s: Seq<SparseNode>, dim: UVec3, c: UVec3, m: MaterialId) -> Seq<
    SparseNode,
> {
    s.update(locate(s, linear(c, dim)), SparseNode::Voxel((c, m)))
}

/// The segments after cell `c` was emptied.
///
/// An empty cell changes nothing. An occupied cell whose successor is a run
/// is dropped and that run grows by one; else, if its predecessor is a run,
/// it is dropped and that run grows by one; else it becomes a run of one.
pub open spec fn removed(s: Seq<SparseNode>, dim: UVec3, c: UVec3) -> Seq<SparseNode> {
    let n = locate(s, linear(c, dim));
    match s[n] {
        SparseNode::Nothing(_) => s,
        SparseNode::Voxel(_) => if n + 1 < s.len() && s[n + 1] is Nothing {
            s.update(n + 1, SparseNode::Nothing((s[n + 1]->Nothing_0 + 1) as u32)).remove(n)
        } else if n > 0 && s[n - 1] is Nothing {
            s.update(n - 1, SparseNode::Nothing((s[n - 1]->Nothing_0 + 1) as u32)).remove(n)
        } else {
            s.update(n, SparseNode::Nothing(1))
        },
    }
}

/// A run stands for so many empty cells.
pub proof fn lemma_run_slots(k: int)
    requires
        0 <= k <= u32::MAX,
    ensures
        slots(run(k)) == Seq::new(k as nat, |i: int| None::<(UVec3, MaterialId)>),
{
    if k > 0 {
        lemma_slots_single(SparseNode::Nothing(k as u32));
    } else {
        assert(slots(run(k)) =~= Seq::new(k as nat, |i: int| None::<(UVec3, MaterialId)>));
    }
}

/// Changing one slot changes the material of that cell and of no other.
pub proof fn lemma_cells_update(s: Seq<SparseNode>, t: Seq<SparseNode>, a: int, slot: Slot)
    requires
        0 <= a < span(s),
        slots(t) == slots(s).update(a, slot),
    ensures
        cells(t) == cells(s).update(a, material(slot)),
{
    assert(cells(t) =~= cells(s).update(a, material(slot)));
}

/// A run may be cut in three: what lies before one of its cells, a voxel
/// in that cell, and what lies behind.
proof fn lemma_split(s: Seq<SparseNode>, n: int, k: int, v: (UVec3, MaterialId))
    requires
        0 <= n < s.len(),
        s[n] is Nothing,
        0 <= k < s[n]->Nothing_0,
    ensures
        slots(
            s.take(n) + run(k) + seq![SparseNode::Voxel(v)] + run(s[n]->Nothing_0 - k - 1)
                + s.skip(n + 1),
        ) == slots(s).update(start(s, n) + k, Some(v)),
        start(s, n) + k < span(s),
{
    let len = s[n]->Nothing_0;
    let node = SparseNode::Voxel(v);
    let mid = run(k) + seq![node] + run(len - k - 1);
    let t = s.take(n) + run(k) + seq![node] + run(len - k - 1) + s.skip(n + 1);
    lemma_start_step(s, n);
    lemma_start_monotone(s, n + 1, s.len() as int);
    assert(t =~= s.take(n) + mid + s.skip(n + 1));
    lemma_slots_splice(s, n, n + 1, mid);
    assert(s.subrange(n, n + 1) =~= seq![s[n]]);
    lemma_slots_single(s[n]);
    lemma_slots_concat(run(k), seq![node]);
    lemma_slots_concat(run(k) + seq![node], run(len - k - 1));
    lemma_slots_single(node);
    lemma_run_slots(k);
    lemma_run_slots(len - k - 1);
    assert(slots(mid) =~= node_slots(s[n]).update(k, Some(v)));
    assert(slots(t) =~= slots(s).update(start(s, n) + k, Some(v)));
}

/// Writing to a cell of a well-formed volume leaves it well formed and
/// changes that cell alone.
pub proof fn lemma_inserted(s: Seq<SparseNode>, dim: UVec3, c: UVec3, vox: Option<MaterialId>)
    requires
        well_formed(s, dim),
        in_bounds(c, dim),
    ensures
        well_formed(inserted(s, dim, c, vox), dim),
        slots(inserted(s, dim, c, vox)) == slots(s).update(linear(c, dim), slot_of(c, vox)),
        cells(inserted(s, dim, c, vox)) == cells(s).update(linear(c, dim), vox),
{
    let a = linear(c, dim);
    crate::addressing::lemma_linear_in_range(c, dim);
    lemma_covered(s, a);
    let n = locate(s, a);
    let k = a - start(s, n);
    let t = inserted(s, dim, c, vox);
    lemma_covers(s, n, a);
    match (s[n], vox) {
        (SparseNode::Voxel(_), Some(m)) => {
            lemma_replaced(s, n, SparseNode::Voxel((c, m)));
            assert forall|i: int| 0 <= i < t.len() implies node_len(#[trigger] t[i]) >= 1 by {
                if i != n {
                    assert(t[i] == s[i]);
                }
            }
        },
        (SparseNode::Voxel(_), None) => {
            lemma_replaced(s, n, SparseNode::Nothing(1));
            assert forall|i: int| 0 <= i < t.len() implies node_len(#[trigger] t[i]) >= 1 by {
                if i != n {
                    assert(t[i] == s[i]);
                }
            }
        },
        (SparseNode::Nothing(len), Some(m)) => {
            lemma_split(s, n, k, (c, m));
            let mid = run(k) + seq![SparseNode::Voxel((c, m))] + run(len - k - 1);
            assert(t =~= s.take(n) + mid + s.skip(n + 1));
            assert forall|i: int| 0 <= i < t.len() implies node_len(#[trigger] t[i]) >= 1 by {
                if i < n {
                    assert(t[i] == s[i]);
                } else if i < n + mid.len() {
                    assert(t[i] == mid[i - n]);
                } else {
                    assert(t[i] == s[i - mid.len() + 1]);
                }
            }
        },
        (SparseNode::Nothing(_), None) => {
            assert(slots(t) =~= slots(s).update(a, slot_of(c, vox)));
        },
    }
    lemma_slots_still_fit(s, t, dim, c, vox);
}

/// Whether every segment stands for one cell.
pub open spec fn single_cells(s: Seq<SparseNode>) -> bool {
    forall|i: int| 0 <= i < s.len() ==> node_len(#[trigger] s[i]) == 1
}

/// A voxel written to a volume of which every segment stands for one cell
/// takes the place of a segment: there are as many segments as before, and
/// each stands for one cell.
pub proof fn lemma_inserted_single_cells(s: Seq<SparseNode>, dim: UVec3, c: UVec3, m: MaterialId)
    requires
        well_formed(s, dim),
        in_bounds(c, dim),
        single_cells(s),
    ensures
        inserted(s, dim, c, Some(m)).len() == s.len(),
        single_cells(inserted(s, dim, c, Some(m))),
{
    let a = linear(c, dim);
    crate::addressing::lemma_linear_in_range(c, dim);
    lemma_covered(s, a);
    let n = locate(s, a);
    let t = inserted(s, dim, c, Some(m));
    assert(node_len(s[n]) == 1);
    assert(t =~= s.update(n, SparseNode::Voxel((c, m)))) by {
        if let SparseNode::Nothing(len) = s[n] {
            assert(run(0) =~= Seq::<SparseNode>::empty());
            assert(s.take(n) + run(0) + seq![SparseNode::Voxel((c, m))] + run(0) + s.skip(n + 1)
                =~= s.update(n, SparseNode::Voxel((c, m))));
        }
    }
    assert forall|i: int| 0 <= i < t.len() implies node_len(#[trigger] t[i]) == 1 by {
        if i != n {
            assert(t[i] == s[i]);
        }
    }
}

/// A voxel whose successor is a run may hand its cell to that run.
proof fn lemma_removed_into_next(s: Seq<SparseNode>, n: int)
    requires
        0 <= n && n + 1 < s.len(),
        s[n] is Voxel,
        s[n + 1] is Nothing,
        span(s) <= u32::MAX,
    ensures
        s[n + 1]->Nothing_0 + 1 <= u32::MAX,
        slots(s.update(n + 1, SparseNode::Nothing((s[n + 1]->Nothing_0 + 1) as u32)).remove(n))
            == slots(s).update(start(s, n) as int, None),
        start(s, n) < span(s),
{
    let len = s[n + 1]->Nothing_0;
    lemma_start_step(s, n);
    lemma_start_step(s, n + 1);
    lemma_start_monotone(s, n + 2, s.len() as int);
    let node = SparseNode::Nothing((len + 1) as u32);
    let t = s.update(n + 1, node).remove(n);
    assert(t =~= s.take(n) + seq![node] + s.skip(n + 2));
    lemma_slots_splice(s, n, n + 2, seq![node]);
    lemma_slots_single(node);
    assert(s.subrange(n, n + 2) =~= seq![s[n]] + seq![s[n + 1]]);
    lemma_slots_concat(seq![s[n]], seq![s[n + 1]]);
    lemma_slots_single(s[n]);
    lemma_slots_single(s[n + 1]);
    assert(slots(seq![node]) =~= slots(s.subrange(n, n + 2)).update(0, None));
    assert(slots(t) =~= slots(s).update(start(s, n) as int, None));
}

/// A voxel whose predecessor is a run may hand its cell to that run.
proof fn lemma_removed_into_prev(s: Seq<SparseNode>, n: int)
    requires
        0 < n < s.len(),
        s[n] is Voxel,
        s[n - 1] is Nothing,
        span(s) <= u32::MAX,
    ensures
        s[n - 1]->Nothing_0 + 1 <= u32::MAX,
        slots(s.update(n - 1, SparseNode::Nothing((s[n - 1]->Nothing_0 + 1) as u32)).remove(n))
            == slots(s).update(start(s, n) as int, None),
        start(s, n) < span(s),
{
    let len = s[n - 1]->Nothing_0;
    lemma_start_step(s, n - 1);
    lemma_start_step(s, n);
    lemma_start_monotone(s, n + 1, s.len() as int);
    let node = SparseNode::Nothing((len + 1) as u32);
    let t = s.update(n - 1, node).remove(n);
    assert(t =~= s.take(n - 1) + seq![node] + s.skip(n + 1));
    lemma_slots_splice(s, n - 1, n + 1, seq![node]);
    lemma_slots_single(node);
    assert(s.subrange(n - 1, n + 1) =~= seq![s[n - 1]] + seq![s[n]]);
    lemma_slots_concat(seq![s[n - 1]], seq![s[n]]);
    lemma_slots_single(s[n - 1]);
    lemma_slots_single(s[n]);
    assert(slots(seq![node]) =~= slots(s.subrange(n - 1, n + 1)).update(len as int, None));
    assert(slots(t) =~= slots(s).update(start(s, n) as int, None));
}

/// A segment may give way to another that stands for one cell.
proof fn lemma_replaced(s: Seq<SparseNode>, n: int, node: SparseNode)
    requires
        0 <= n < s.len(),
        node_len(s[n]) == 1,
        node_len(node) == 1,
    ensures
        slots(s.update(n, node)) == slots(s).update(start(s, n) as int, node_slots(node)[0]),
        start(s, n) < span(s),
{
    lemma_start_step(s, n);
    lemma_start_monotone(s, n + 1, s.len() as int);
    let t = s.update(n, node);
    assert(t =~= s.take(n) + seq![node] + s.skip(n + 1));
    lemma_slots_splice(s, n, n + 1, seq![node]);
    assert(s.subrange(n, n + 1) =~= seq![s[n]]);
    lemma_slots_single(s[n]);
    lemma_slots_single(node);
    assert(slots(t) =~= slots(s).update(start(s, n) as int, node_slots(node)[0]));
}

/// Changing one slot of a well-formed volume to a slot that fits its
/// address keeps the slots in order.
proof fn lemma_slots_still_fit(
    s: Seq<SparseNode>,
    t: Seq<SparseNode>,
    dim: UVec3,
    c: UVec3,
    vox: Option<MaterialId>,
)
    requires
        well_formed(s, dim),
        in_bounds(c, dim),
        slots(t) == slots(s).update(linear(c, dim), slot_of(c, vox)),
        forall|i: int| 0 <= i < t.len() ==> node_len(#[trigger] t[i]) >= 1,
    ensures
        well_formed(t, dim),
        cells(t) == cells(s).update(linear(c, dim), vox),
{
    crate::addressing::lemma_linear_in_range(c, dim);
    lemma_cells_update(s, t, linear(c, dim), slot_of(c, vox));
}

/// Emptying a cell of a well-formed volume leaves it well formed and
/// changes that cell alone.
pub proof fn lemma_removed(s: Seq<SparseNode>, dim: UVec3, c: UVec3)
    requires
        well_formed(s, dim),
        in_bounds(c, dim),
    ensures
        well_formed(removed(s, dim, c), dim),
        slots(removed(s, dim, c)) == slots(s).update(linear(c, dim), None),
        cells(removed(s, dim, c)) == cells(s).update(linear(c, dim), None),
{
    let a = linear(c, dim);
    crate::addressing::lemma_linear_in_range(c, dim);
    lemma_covered(s, a);
    let n = locate(s, a);
    let t = removed(s, dim, c);
    lemma_covers(s, n, a);
    match s[n] {
        SparseNode::Nothing(_) => {
            assert(slots(t) =~= slots(s).update(a, None));
        },
        SparseNode::Voxel(_) => {
            assert(a == start(s, n));
            if n + 1 < s.len() && s[n + 1] is Nothing {
                lemma_removed_into_next(s, n);
                assert forall|i: int| 0 <= i < t.len() implies node_len(#[trigger] t[i]) >= 1 by {
                    if i < n {
                        assert(t[i] == s[i]);
                    } else if i > n {
                        assert(t[i] == s[i + 1]);
                    }
                }
            } else if n > 0 && s[n - 1] is Nothing {
                lemma_removed_into_prev(s, n);
                assert forall|i: int| 0 <= i < t.len() implies node_len(#[trigger] t[i]) >= 1 by {
                    if i < n - 1 {
                        assert(t[i] == s[i]);
                    } else if i > n - 1 {
                        assert(t[i] == s[i + 1]);
                    }
                }
            } else {
                lemma_replaced(s, n, SparseNode::Nothing(1));
                assert forall|i: int| 0 <= i < t.len() implies node_len(#[trigger] t[i]) >= 1 by {
                    if i != n {
                        assert(t[i] == s[i]);
                    }
                }
            }
        },
    }
    lemma_slots_still_fit(s, t, dim, c, None);
}

/// Canonical form: no two runs stand side by side.
pub open spec fn canonical(s: Seq<SparseNode>) -> bool {
    forall|i: int| 0 <= i && i + 1 < s.len() ==> !(#[trigger] s[i] is Nothing && s[i + 1] is Nothing)
}

/// `acc` with `node` behind it, where a run that follows a run is added to
/// it.
pub open spec fn push_merged(acc: Seq<SparseNode>, node: SparseNode) -> Seq<SparseNode> {
    if acc.len() > 0 && acc.last() is Nothing && node is Nothing {
        acc.drop_last().push(
            SparseNode::Nothing((acc.last()->Nothing_0 + node->Nothing_0) as u32),
        )
    } else {
        acc.push(node)
    }
}

/// The segments with every group of neighbouring runs made one run.
pub open spec fn merged(s: Seq<SparseNode>) -> Seq<SparseNode>
    decreases s.len(),
{
    if s.len() == 0 {
        s
    } else {
        push_merged(merged(s.drop_last()), s.last())
    }
}

/// The last segment stands for no more cells than the whole sequence.
pub proof fn lemma_last_len(s: Seq<SparseNode>)
    requires
        s.len() > 0,
    ensures
        node_len(s.last()) <= span(s),
        span(s) == span(s.drop_last()) + node_len(s.last()),
{
}

/// Merging runs keeps every slot, leaves no two runs side by side, and
/// keeps runs non-empty.
pub proof fn lemma_merged(s: Seq<SparseNode>)
    requires
        span(s) <= u32::MAX,
    ensures
        slots(merged(s)) == slots(s),
        cells(merged(s)) == cells(s),
        canonical(merged(s)),
        merged(s).len() <= s.len(),
        (forall|i: int| 0 <= i < s.len() ==> node_len(#[trigger] s[i]) >= 1) ==> (forall|i: int|
            0 <= i < merged(s).len() ==> node_len(#[trigger] merged(s)[i]) >= 1),
    decreases s.len(),
{
    if s.len() == 0 {
    } else {
        let r = s.drop_last();
        let node = s.last();
        lemma_last_len(s);
        lemma_merged(r);
        let t = merged(r);
        let u = push_merged(t, node);
        if t.len() > 0 && t.last() is Nothing && node is Nothing {
            lemma_last_len(t);
            let sum = SparseNode::Nothing((t.last()->Nothing_0 + node->Nothing_0) as u32);
            assert(u.drop_last() =~= t.drop_last());
            assert(u.last() == sum);
            assert(node_slots(sum) =~= node_slots(t.last()) + node_slots(node));
            assert(slots(u) =~= slots(s));
            assert forall|i: int| 0 <= i && i + 1 < u.len() implies !(#[trigger] u[i] is Nothing
                && u[i + 1] is Nothing) by {
                assert(u[i] == t[i]);
                if i + 1 < u.len() - 1 {
                    assert(u[i + 1] == t[i + 1]);
                }
            }
        } else {
            assert(u.drop_last() =~= t);
            assert(slots(u) =~= slots(s));
            assert forall|i: int| 0 <= i && i + 1 < u.len() implies !(#[trigger] u[i] is Nothing
                && u[i + 1] is Nothing) by {
                assert(u[i] == t[i]);
                if i + 1 < u.len() - 1 {
                    assert(u[i + 1] == t[i + 1]);
                }
            }
        }
        assert(cells(u) =~= cells(s));
        if forall|i: int| 0 <= i < s.len() ==> node_len(#[trigger] s[i]) >= 1 {
            assert forall|i: int| 0 <= i < r.len() implies node_len(#[trigger] r[i]) >= 1 by {
                assert(r[i] == s[i]);
            }
            assert(node_len(s[s.len() - 1]) >= 1);
            assert forall|i: int| 0 <= i < u.len() implies node_len(#[trigger] u[i]) >= 1 by {
                if i < u.len() - 1 {
                    assert(u[i] == t[i]);
                }
            }
        }
    }
}

/// Segments in canonical form are their own merge.
pub proof fn lemma_merged_canonical(s: Seq<SparseNode>)
    requires
        canonical(s),
    ensures
        merged(s) == s,
    decreases s.len(),
{
    if s.len() > 0 {
        let r = s.drop_last();
        assert forall|i: int| 0 <= i && i + 1 < r.len() implies !(#[trigger] r[i] is Nothing
            && r[i + 1] is Nothing) by {
            assert(r[i] == s[i]);
            assert(r[i + 1] == s[i + 1]);
        }
        lemma_merged_canonical(r);
        if r.len() > 0 {
            assert(r.last() == s[s.len() - 2]);
            assert(!(s[s.len() - 2] is Nothing && s[s.len() - 2 + 1] is Nothing));
        }
        assert(r.push(s.last()) =~= s);
    }
}

/// Merging the runs of a well-formed volume leaves it well formed.
pub proof fn lemma_merged_well_formed(s: Seq<SparseNode>, dim: UVec3)
    requires
        well_formed(s, dim),
    ensures
        well_formed(merged(s), dim),
{
    lemma_merged(s);
}

} // verus!
