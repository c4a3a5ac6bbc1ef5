//! The voxel model file format, decoded from bytes.
//!
//! A file is a signature and a version followed by one chunk, `MAIN`. A
//! chunk is a four-byte tag, the sizes of its content and of its children as
//! little-endian numbers, its content, and its children, which are chunks
//! again. The children of `MAIN` hold the models, as pairs of a `SIZE` and an
//! `XYZI` chunk, the palette `RGBA`, and the materials `MATL`.

use byteorder::{ByteOrder, LittleEndian};
use glam::{Mat4, UVec3};
use vstd::prelude::*;
use vstd::slice::{slice_subrange, slice_to_vec};

use crate::placement::{identity, unplaced};
use crate::scene::MaterialId;

verus! {

/// The number that four bytes of `b` from `at` on stand for, lowest byte
/// first.
pub open spec fn le_u32(b: Seq<u8>, at: int) -> int {
    b[at] + b[at + 1] * 0x100 + b[at + 2] * 0x1_0000 + b[at + 3] * 0x100_0000
}

/// byteorder's `LittleEndian::read_u32` on the four bytes of `b` from `at`
/// on: the number that they stand for, lowest byte first.
#[verifier::external_body]
fn read_u32(b: &[u8], at: usize) -> (v: u32)
    requires
        at + 4 <= b@.len(),
    ensures
        v == le_u32(b@, at as int),
{
    LittleEndian::read_u32(&b[at..at + 4])
}

/// A chunk without its children: its tag and its content.
pub struct ChunkView {
    pub id: Seq<u8>,
    pub content: Seq<u8>,
}

/// Whether `b` is a row of chunks, each with well-framed children, with
/// fewer than four bytes left over at the end.
#[verifier::opaque]
pub open spec fn framed(b: Seq<u8>) -> bool
    decreases b.len(),
{
    if b.len() < 4 {
        true
    } else if b.len() < 12 {
        false
    } else {
        let n = le_u32(b, 4);
        let m = le_u32(b, 8);
        12 + n + m <= b.len() && framed(b.subrange(12 + n, 12 + n + m)) && framed(
            b.skip(12 + n + m),
        )
    }
}

/// The chunks that `b` is a row of, in order, without their children.
#[verifier::opaque]
pub open spec fn listed(b: Seq<u8>) -> Seq<ChunkView>
    decreases b.len(),
{
    if b.len() < 12 {
        Seq::empty()
    } else {
        let n = le_u32(b, 4);
        let m = le_u32(b, 8);
        if 12 + n + m <= b.len() {
            seq![ChunkView { id: b.subrange(0, 4), content: b.subrange(12, 12 + n) }] + listed(
                b.skip(12 + n + m),
            )
        } else {
            Seq::empty()
        }
    }
}

/// A chunk as it was read: its tag and its content.
#[derive(Debug)]
pub struct VoxChunk {
    pub id: [u8; 4],
    pub content: Vec<u8>,
}

impl View for VoxChunk {
    type V = ChunkView;

    open spec fn view(&self) -> ChunkView {
        ChunkView { id: self.id@, content: self.content@ }
    }
}

/// The chunks of a row as they were read.
pub open spec fn views(v: Seq<VoxChunk>) -> Seq<ChunkView> {
    v.map_values(|c: VoxChunk| c@)
}

proof fn lemma_le_u32_skip(b: Seq<u8>, at: int, k: int)
    requires
        0 <= at,
        0 <= k,
        at + k + 4 <= b.len(),
    ensures
        le_u32(b.skip(at), k) == le_u32(b, at + k),
        0 <= le_u32(b, at + k) <= u32::MAX,
{
}

/// A row that starts with a whole chunk is well framed if the children of
/// that chunk and the rest of the row are, and it lists that chunk first.
proof fn lemma_row_step(rest: Seq<u8>, n: int, m: int)
    requires
        rest.len() >= 12,
        n == le_u32(rest, 4),
        m == le_u32(rest, 8),
        12 + n + m <= rest.len(),
    ensures
        framed(rest) == (framed(rest.subrange(12 + n, 12 + n + m)) && framed(
            rest.skip(12 + n + m),
        )),
        listed(rest) == seq![
            ChunkView { id: rest.subrange(0, 4), content: rest.subrange(12, 12 + n) },
        ] + listed(rest.skip(12 + n + m)),
{    reveal(framed);
    reveal(listed);
}

/// A row that is cut off within a chunk is not well framed.
proof fn lemma_row_cut(rest: Seq<u8>)
    requires
        rest.len() >= 4,
        rest.len() < 12 || 12 + le_u32(rest, 4) + le_u32(rest, 8) > rest.len(),
    ensures
        !framed(rest),
{    reveal(framed);
    reveal(listed);
}

/// A row of fewer than four bytes is well framed and lists nothing.
proof fn lemma_row_end(rest: Seq<u8>)
    requires
        rest.len() < 4,
    ensures
        framed(rest),
        listed(rest) == Seq::<ChunkView>::empty(),
{    reveal(framed);
    reveal(listed);
}

/// Reads the chunks that `b` is a row of, or nothing where `b` is not well
/// framed.
pub fn parse_chunks(b: &[u8]) -> (r: Option<Vec<VoxChunk>>)
    ensures
        r is Some <==> framed(b@),
        r matches Some(v) ==> views(v@) == listed(b@),
    decreases b@.len(),
{
    let mut out: Vec<VoxChunk> = Vec::new();
    let mut at: usize = 0;
    proof {
        assert(b@.skip(0) =~= b@);
        assert(views(out@) =~= Seq::<ChunkView>::empty());
        assert(Seq::<ChunkView>::empty() + listed(b@) =~= listed(b@));
    }
    while b.len() - at >= 4
        invariant
            at <= b@.len(),
            framed(b@) <==> framed(b@.skip(at as int)),
            framed(b@) ==> listed(b@) == views(out@) + listed(b@.skip(at as int)),
        decreases b@.len() - at,
    {
        let ghost rest = b@.skip(at as int);
        let left = b.len() - at;
        if left < 12 {
            proof {
                lemma_row_cut(rest);
            }
            return None;
        }
        proof {
            lemma_le_u32_skip(b@, at as int, 4);
            lemma_le_u32_skip(b@, at as int, 8);
        }
        let n = read_u32(b, at + 4) as usize;
        let m = read_u32(b, at + 8) as usize;
        if n > left - 12 || m > left - 12 - n {
            proof {
                lemma_row_cut(rest);
            }
            return None;
        }
        let content = slice_to_vec(slice_subrange(b, at + 12, at + 12 + n));
        let children = slice_subrange(b, at + 12 + n, at + 12 + n + m);
        let id = [b[at], b[at + 1], b[at + 2], b[at + 3]];
        let ghost head = ChunkView { id: rest.subrange(0, 4), content: rest.subrange(12, 12 + n) };
        let ghost tail = rest.skip(12 + n + m);
        proof {
            lemma_row_step(rest, n as int, m as int);
            assert(rest.subrange(12 + n, 12 + n + m) =~= children@);
            assert(rest.subrange(12, 12 + n) =~= content@);
            assert(id@ =~= rest.subrange(0, 4));
            assert(tail =~= b@.skip(at + 12 + n + m));
        }
        if parse_chunks(children).is_none() {
            return None;
        }
        let ghost before = views(out@);
        out.push(VoxChunk { id, content });
        proof {
            assert(views(out@) =~= before + seq![head]);
            assert(before + (seq![head] + listed(tail)) =~= (before + seq![head]) + listed(tail));
        }
        at = at + 12 + n + m;
    }
    proof {
        lemma_row_end(b@.skip(at as int));
        assert(views(out@) + Seq::<ChunkView>::empty() =~= views(out@));
    }
    Some(out)
}

/// The tag of the chunk that holds a model's extent.
pub const SIZE: [u8; 4] = [0x53, 0x49, 0x5a, 0x45];

/// The tag of the chunk that holds a model's voxels.
pub const XYZI: [u8; 4] = [0x58, 0x59, 0x5a, 0x49];

/// The tag of the chunk that holds the number of models.
pub const PACK: [u8; 4] = [0x50, 0x41, 0x43, 0x4b];

/// The tag of the chunk that holds the palette.
pub const RGBA: [u8; 4] = [0x52, 0x47, 0x42, 0x41];

/// The tag of a chunk that holds a material.
pub const MATL: [u8; 4] = [0x4d, 0x41, 0x54, 0x4c];

/// The tag of the chunk that holds all others.
pub const MAIN: [u8; 4] = [0x4d, 0x41, 0x49, 0x4e];

/// The signature that a file starts with.
pub const SIGNATURE: [u8; 4] = [0x56, 0x4f, 0x58, 0x20];

/// The version of the format that is read.
pub const VERSION: u32 = 150;

/// Whether the four bytes of `b` from `at` on are the tag `t`.
fn tag_at(b: &[u8], at: usize, t: &[u8; 4]) -> (same: bool)
    requires
        at + 4 <= b@.len(),
    ensures
        same == (b@.subrange(at as int, at + 4) == t@),
{
    let same = b[at] == t[0] && b[at + 1] == t[1] && b[at + 2] == t[2] && b[at + 3] == t[3];
    proof {
        let part = b@.subrange(at as int, at + 4);
        if same {
            assert(part =~= t@);
        } else {
            assert(part[0] == b@[at as int] && part[1] == b@[at + 1] && part[2] == b@[at + 2]
                && part[3] == b@[at + 3]);
        }
    }
    same
}

impl VoxChunk {
    /// Whether the chunk has the tag `t`.
    pub fn has_tag(&self, t: &[u8; 4]) -> (same: bool)
        ensures
            same == (self@.id == t@),
    {
        let same = self.id[0] == t[0] && self.id[1] == t[1] && self.id[2] == t[2] && self.id[3]
            == t[3];
        proof {
            if same {
                assert(self.id@ =~= t@);
            }
        }
        same
    }
}

/// The first chunk of the row that has the tag `t`.
pub open spec fn first_tagged(chunks: Seq<ChunkView>, t: Seq<u8>) -> Option<ChunkView>
    decreases chunks.len(),
{
    if chunks.len() == 0 {
        None
    } else if chunks.first().id == t {
        Some(chunks.first())
    } else {
        first_tagged(chunks.drop_first(), t)
    }
}

/// The chunks of the row that `keep` holds of, in order.
pub open spec fn kept(chunks: Seq<ChunkView>, keep: spec_fn(ChunkView) -> bool) -> Seq<ChunkView>
    decreases chunks.len(),
{
    if chunks.len() == 0 {
        chunks
    } else {
        let rest = kept(chunks.drop_last(), keep);
        if keep(chunks.last()) {
            rest.push(chunks.last())
        } else {
            rest
        }
    }
}

/// The chunks at the given places of the row.
pub open spec fn picked(chunks: Seq<VoxChunk>, places: Seq<usize>) -> Seq<ChunkView> {
    Seq::new(places.len(), |k: int| chunks[places[k] as int]@)
}

proof fn lemma_first_tagged_skip(chunks: Seq<ChunkView>, t: Seq<u8>, i: int)
    requires
        0 <= i <= chunks.len(),
        forall|j: int| 0 <= j < i ==> (#[trigger] chunks[j]).id != t,
    ensures
        first_tagged(chunks, t) == first_tagged(chunks.skip(i), t),
    decreases i,
{
    if i == 0 {
        assert(chunks.skip(0) =~= chunks);
    } else {
        assert(chunks[0].id != t);
        let rest = chunks.drop_first();
        assert forall|j: int| 0 <= j < i - 1 implies (#[trigger] rest[j]).id != t by {
            assert(rest[j] == chunks[j + 1]);
        }
        lemma_first_tagged_skip(rest, t, i - 1);
        assert(rest.skip(i - 1) =~= chunks.skip(i));
    }
}

/// The place of the first chunk of the row that has the tag `t`.
fn find_tagged(chunks: &Vec<VoxChunk>, t: &[u8; 4]) -> (r: Option<usize>)
    ensures
        r is Some <==> first_tagged(views(chunks@), t@) is Some,
        r matches Some(i) ==> i < chunks.len() && first_tagged(views(chunks@), t@) == Some(
            chunks[i as int]@,
        ),
{
    let ghost all = views(chunks@);
    let mut i: usize = 0;
    while i < chunks.len()
        invariant
            all == views(chunks@),
            i <= chunks.len(),
            forall|j: int| 0 <= j < i ==> (#[trigger] all[j]).id != t@,
        decreases chunks.len() - i,
    {
        if chunks[i].has_tag(t) {
            proof {
                lemma_first_tagged_skip(all, t@, i as int);
                assert(all.skip(i as int).first() == all[i as int]);
            }
            return Some(i);
        }
        i = i + 1;
    }
    proof {
        lemma_first_tagged_skip(all, t@, i as int);
        assert(all.skip(i as int) =~= Seq::<ChunkView>::empty());
    }
    None
}

/// The places of the chunks of the row that have one of two tags.
fn find_all(chunks: &Vec<VoxChunk>, t: &[u8; 4], u: &[u8; 4]) -> (places: Vec<usize>)
    ensures
        picked(chunks@, places@) == kept(
            views(chunks@),
            |c: ChunkView| c.id == t@ || c.id == u@,
        ),
        forall|k: int| 0 <= k < places.len() ==> (#[trigger] places[k]) < chunks.len(),
{
    let ghost all = views(chunks@);
    let ghost keep = |c: ChunkView| c.id == t@ || c.id == u@;
    let mut places: Vec<usize> = Vec::new();
    let mut i: usize = 0;
    proof {
        assert(all.take(0) =~= Seq::<ChunkView>::empty());
        assert(picked(chunks@, places@) =~= kept(all.take(0), keep));
    }
    while i < chunks.len()
        invariant
            all == views(chunks@),
            keep == (|c: ChunkView| c.id == t@ || c.id == u@),
            i <= chunks.len(),
            picked(chunks@, places@) == kept(all.take(i as int), keep),
            forall|k: int| 0 <= k < places.len() ==> (#[trigger] places[k]) < chunks.len(),
        decreases chunks.len() - i,
    {
        let ghost before = places@;
        proof {
            assert(all.take(i as int + 1).drop_last() =~= all.take(i as int));
            assert(all.take(i as int + 1).last() == chunks[i as int]@);
        }
        if chunks[i].has_tag(t) || chunks[i].has_tag(u) {
            places.push(i);
            proof {
                assert(picked(chunks@, places@) =~= picked(chunks@, before).push(
                    chunks[i as int]@,
                ));
            }
        }
        i = i + 1;
    }
    proof {
        assert(all.take(all.len() as int) =~= all);
    }
    places
}

/// Index of a palette entry as a file names it: the first entry is one.
#[derive(Debug, Clone, Copy, PartialEq, Eq, Structural)]
pub struct VoxMaterialId(pub usize);

impl VoxMaterialId {
    /// The material that the index names, counting from zero; nothing for
    /// the index zero, which names no entry.
    pub fn material(self) -> (m: Option<MaterialId>)
        ensures
            m == if self.0 >= 1 {
                Some(MaterialId((self.0 - 1) as usize))
            } else {
                None
            },
    {
        if self.0 >= 1 {
            Some(MaterialId(self.0 - 1))
        } else {
            None
        }
    }
}

/// A model as a file holds it: its extent and its voxels in file order.
#[derive(Debug)]
pub struct VoxModel {
    pub transform: Mat4,
    pub size: (usize, usize, usize),
    pub positions: Vec<(UVec3, VoxMaterialId)>,
}

impl Clone for VoxModel {
    fn clone(&self) -> (copy: Self)
        ensures
            copy.transform == self.transform,
            copy@ == self@,
    {
        let mut positions: Vec<(UVec3, VoxMaterialId)> = Vec::new();
        let mut k: usize = 0;
        while k < self.positions.len()
            invariant
                k <= self.positions.len(),
                positions@ == self.positions@.take(k as int),
            decreases self.positions.len() - k,
        {
            positions.push(self.positions[k]);
            proof {
                assert(positions@ =~= self.positions@.take(k as int + 1));
            }
            k = k + 1;
        }
        proof {
            assert(self.positions@.take(self.positions.len() as int) =~= self.positions@);
        }
        VoxModel { transform: self.transform, size: self.size, positions }
    }
}

/// What a model holds, but for its placement.
pub struct VoxModelView {
    pub size: (usize, usize, usize),
    pub positions: Seq<(UVec3, VoxMaterialId)>,
}

impl View for VoxModel {
    type V = VoxModelView;

    open spec fn view(&self) -> VoxModelView {
        VoxModelView { size: self.size, positions: self.positions@ }
    }
}

/// The `k`-th voxel of the content of an `XYZI` chunk: three coordinates and
/// a palette index, one byte each, behind the count.
pub open spec fn voxel_at(c: Seq<u8>, k: int) -> (UVec3, VoxMaterialId) {
    (
        UVec3 { x: c[4 + 4 * k] as u32, y: c[5 + 4 * k] as u32, z: c[6 + 4 * k] as u32 },
        VoxMaterialId(c[7 + 4 * k] as usize),
    )
}

/// The model that a pair of chunks holds: the first has to be `SIZE` with
/// three numbers, the second `XYZI` with a count and so many voxels.
pub open spec fn model_of(size: ChunkView, xyzi: ChunkView) -> Option<VoxModelView> {
    if size.id == SIZE@ && xyzi.id == XYZI@ && size.content.len() >= 12 && xyzi.content.len() >= 4
        && 4 + 4 * le_u32(xyzi.content, 0) <= xyzi.content.len() {
        Some(
            VoxModelView {
                size: (
                    le_u32(size.content, 0) as usize,
                    le_u32(size.content, 4) as usize,
                    le_u32(size.content, 8) as usize,
                ),
                positions: Seq::new(
                    le_u32(xyzi.content, 0) as nat,
                    |k: int| voxel_at(xyzi.content, k),
                ),
            },
        )
    } else {
        None
    }
}

/// Reads the model that a pair of chunks holds.
pub fn parse_model(size: &VoxChunk, positions: &VoxChunk) -> (r: Option<VoxModel>)
    ensures
        r is Some <==> model_of(size@, positions@) is Some,
        r matches Some(model) ==> Some(model@) == model_of(size@, positions@) && model.transform
            == unplaced(),
{
    if !size.has_tag(&SIZE) || !positions.has_tag(&XYZI) {
        return None;
    }
    if size.content.len() < 12 || positions.content.len() < 4 {
        return None;
    }
    let extent = (
        read_u32(size.content.as_slice(), 0) as usize,
        read_u32(size.content.as_slice(), 4) as usize,
        read_u32(size.content.as_slice(), 8) as usize,
    );
    let c = positions.content.as_slice();
    let n = read_u32(c, 0) as usize;
    if n > (c.len() - 4) / 4 {
        return None;
    }
    let mut voxels: Vec<(UVec3, VoxMaterialId)> = Vec::new();
    let mut k: usize = 0;
    while k < n
        invariant
            c@ == positions@.content,
            n == le_u32(c@, 0),
            4 + 4 * n <= c@.len(),
            k <= n,
            voxels@ == Seq::new(k as nat, |j: int| voxel_at(c@, j)),
        decreases n - k,
    {
        assert(4 + 4 * k + 4 <= c.len());
        let at = 4 + 4 * k;
        voxels.push(
            (
                UVec3 { x: c[at] as u32, y: c[at + 1] as u32, z: c[at + 2] as u32 },
                VoxMaterialId(c[at + 3] as usize),
            ),
        );
        proof {
            assert(voxels@ =~= Seq::new((k + 1) as nat, |j: int| voxel_at(c@, j)));
        }
        k = k + 1;
    }
    Some(VoxModel { transform: identity(), size: extent, positions: voxels })
}

/// The chunks of the row that take part in models, in order.
pub open spec fn model_chunks(chunks: Seq<ChunkView>) -> Seq<ChunkView> {
    kept(chunks, |c: ChunkView| c.id == SIZE@ || c.id == XYZI@)
}

/// The model that the `k`-th pair of model chunks holds.
pub open spec fn model_at(chunks: Seq<ChunkView>, k: int) -> Option<VoxModelView> {
    model_of(model_chunks(chunks)[2 * k], model_chunks(chunks)[2 * k + 1])
}

/// Why a file was refused.
#[derive(Debug, Clone, Copy, PartialEq, Eq, Structural)]
pub enum VoxError {
    /// The file does not start with the signature and the version.
    BadHeader,
    /// A chunk ends behind the bytes that hold it.
    Truncated,
    /// The chunk behind the header is not `MAIN`.
    NotMain,
    /// The chunk `PACK` is too short for the number it holds.
    BadPack,
    /// A pair of model chunks is not a `SIZE` and an `XYZI` chunk that hold
    /// what they announce.
    BadModel,
    /// There is no palette, or it has fewer than 256 entries.
    NoPalette,
    /// A material names no palette entry, is cut short, or is one of more
    /// than 256.
    BadMaterial,
}

/// The models that a row of chunks holds.
///
/// A `PACK` chunk has to hold a number. The chunks that take part in
/// models are taken two by two, and each pair has to hold a model; a last
/// one without a partner is left out.
pub open spec fn models_of(chunks: Seq<ChunkView>) -> Result<Seq<VoxModelView>, VoxError> {
    let count = model_chunks(chunks).len() / 2;
    if first_tagged(chunks, PACK@) matches Some(pack) && pack.content.len() < 4 {
        Err(VoxError::BadPack)
    } else if exists|k: int| 0 <= k < count && model_at(chunks, k) is None {
        Err(VoxError::BadModel)
    } else {
        Ok(Seq::new(count, |k: int| model_at(chunks, k)->0))
    }
}

/// Whether every model of the row is placed where it is.
pub open spec fn all_unplaced(models: Seq<VoxModel>) -> bool {
    forall|k: int| 0 <= k < models.len() ==> (#[trigger] models[k]).transform == unplaced()
}

/// The views of a row of models.
pub open spec fn model_views(models: Seq<VoxModel>) -> Seq<VoxModelView> {
    models.map_values(|m: VoxModel| m@)
}

/// Reads the models that a row of chunks holds.
pub fn parse_models(chunks: &Vec<VoxChunk>) -> (r: Result<Vec<VoxModel>, VoxError>)
    ensures
        match r {
            Ok(models) => models_of(views(chunks@)) == Ok::<Seq<VoxModelView>, VoxError>(
                model_views(models@),
            ) && all_unplaced(models@),
            Err(e) => models_of(views(chunks@)) == Err::<Seq<VoxModelView>, VoxError>(e),
        },
{
    let ghost all = views(chunks@);
    if let Some(p) = find_tagged(chunks, &PACK) {
        if chunks[p].content.len() < 4 {
            return Err(VoxError::BadPack);
        }
    }
    let ghost pack_fits = !(first_tagged(all, PACK@) matches Some(pack) && pack.content.len() < 4);
    assert(pack_fits);
    let places = find_all(chunks, &SIZE, &XYZI);
    let ghost sel = model_chunks(all);
    assert(sel == picked(chunks@, places@));
    assert(sel.len() == places.len());
    let count = places.len() / 2;
    let mut models: Vec<VoxModel> = Vec::new();
    let mut k: usize = 0;
    while k < count
        invariant
            all == views(chunks@),
            pack_fits == !(first_tagged(all, PACK@) matches Some(pack) && pack.content.len() < 4),
            pack_fits,
            sel == model_chunks(all),
            sel == picked(chunks@, places@),
            sel.len() == places.len(),
            forall|j: int| 0 <= j < places.len() ==> (#[trigger] places[j]) < chunks.len(),
            count == places.len() / 2,
            k <= count,
            models.len() == k,
            all_unplaced(models@),
            forall|j: int| 0 <= j < k ==> model_at(all, j) == Some(#[trigger] models[j]@),
        decreases count - k,
    {
        let first = places[2 * k];
        let second = places[2 * k + 1];
        proof {
            assert(sel[2 * k] == chunks[first as int]@);
            assert(sel[2 * k + 1] == chunks[second as int]@);
        }
        match parse_model(&chunks[first], &chunks[second]) {
            Some(model) => {
                models.push(model);
            },
            None => {
                assert(model_at(all, k as int) is None);
                return Err(VoxError::BadModel);
            },
        }
        k = k + 1;
    }
    proof {
        assert forall|j: int| 0 <= j < count implies model_at(all, j) is Some by {
            assert(model_at(all, j) == Some(models[j]@));
        }
        assert(model_views(models@) =~= Seq::new(count as nat, |j: int| model_at(all, j)->0));
    }
    Ok(models)
}

/// A property of a material: a key and a value, as the bytes of their text.
pub type Property = (Seq<u8>, Seq<u8>);

/// A material as a file holds it: the colour of its palette entry, and its
/// properties as the file spells them.
#[derive(Debug)]
pub struct VoxMaterial {
    pub albedo: [u8; 4],
    pub properties: Vec<(Vec<u8>, Vec<u8>)>,
}

/// What a material holds.
pub struct VoxMaterialView {
    pub albedo: Seq<u8>,
    pub properties: Seq<Property>,
}

/// The properties of a row as sequences of bytes.
pub open spec fn property_views(v: Seq<(Vec<u8>, Vec<u8>)>) -> Seq<Property> {
    v.map_values(|p: (Vec<u8>, Vec<u8>)| (p.0@, p.1@))
}

impl View for VoxMaterial {
    type V = VoxMaterialView;

    open spec fn view(&self) -> VoxMaterialView {
        VoxMaterialView { albedo: self.albedo@, properties: property_views(self.properties@) }
    }
}

/// The text that starts at `at`, and the place behind it: a length as a
/// number, then so many bytes.
pub open spec fn string_at(c: Seq<u8>, at: int) -> Option<(Seq<u8>, int)> {
    if 0 <= at && at + 4 <= c.len() && at + 4 + le_u32(c, at) <= c.len() {
        Some((c.subrange(at + 4, at + 4 + le_u32(c, at)), at + 4 + le_u32(c, at)))
    } else {
        None
    }
}

/// `count` properties in a row from `at` on, each a key and a value.
pub open spec fn properties_at(c: Seq<u8>, at: int, count: nat) -> Option<Seq<Property>>
    decreases count,
{
    if count == 0 {
        Some(Seq::empty())
    } else {
        match string_at(c, at) {
            None => None,
            Some((key, behind_key)) => match string_at(c, behind_key) {
                None => None,
                Some((value, behind)) => match properties_at(c, behind, (count - 1) as nat) {
                    None => None,
                    Some(rest) => Some(seq![(key, value)] + rest),
                },
            },
        }
    }
}

/// The dictionary that starts at `at`: the number of its properties, then
/// the properties.
pub open spec fn dict_at(c: Seq<u8>, at: int) -> Option<Seq<Property>> {
    if 0 <= at && at + 4 <= c.len() {
        properties_at(c, at + 4, le_u32(c, at) as nat)
    } else {
        None
    }
}

/// `head` before what `tail` holds, if it holds anything.
pub open spec fn prepend(head: Seq<Property>, tail: Option<Seq<Property>>) -> Option<
    Seq<Property>,
> {
    match tail {
        Some(t) => Some(head + t),
        None => None,
    }
}

/// Reads the text that starts at `at`.
fn parse_string(c: &[u8], at: usize) -> (r: Option<(Vec<u8>, usize)>)
    requires
        at <= c@.len(),
    ensures
        match r {
            Some((text, behind)) => string_at(c@, at as int) == Some((text@, behind as int))
                && behind <= c@.len(),
            None => string_at(c@, at as int) is None,
        },
{
    if c.len() - at < 4 {
        return None;
    }
    let len = read_u32(c, at) as usize;
    if len > c.len() - at - 4 {
        return None;
    }
    let text = slice_to_vec(slice_subrange(c, at + 4, at + 4 + len));
    Some((text, at + 4 + len))
}

/// Reads the dictionary that starts at `at`.
fn parse_dict(c: &[u8], at: usize) -> (r: Option<Vec<(Vec<u8>, Vec<u8>)>>)
    requires
        at <= c@.len(),
    ensures
        match r {
            Some(dict) => dict_at(c@, at as int) == Some(property_views(dict@)),
            None => dict_at(c@, at as int) is None,
        },
{
    if c.len() - at < 4 {
        return None;
    }
    let n = read_u32(c, at);
    let mut dict: Vec<(Vec<u8>, Vec<u8>)> = Vec::new();
    let mut pos: usize = at + 4;
    let mut i: u32 = 0;
    proof {
        assert(property_views(dict@) =~= Seq::<Property>::empty());
        let all = properties_at(c@, pos as int, n as nat);
        assert(prepend(property_views(dict@), all) == all) by {
            if let Some(t) = all {
                assert(Seq::<Property>::empty() + t =~= t);
            }
        }
    }
    while i < n
        invariant
            i <= n,
            pos <= c@.len(),
            dict_at(c@, at as int) == prepend(
                property_views(dict@),
                properties_at(c@, pos as int, (n - i) as nat),
            ),
        decreases n - i,
    {
        let ghost before = property_views(dict@);
        let (key, behind_key) = match parse_string(c, pos) {
            Some(found) => found,
            None => { return None; },
        };
        let (value, behind) = match parse_string(c, behind_key) {
            Some(found) => found,
            None => { return None; },
        };
        proof {
            let rest = properties_at(c@, behind as int, (n - i - 1) as nat);
            if let Some(t) = rest {
                assert(before + (seq![(key@, value@)] + t) =~= before.push((key@, value@)) + t);
            }
        }
        dict.push((key, value));
        proof {
            assert(property_views(dict@) =~= before.push((key@, value@)));
        }
        pos = behind;
        i = i + 1;
    }
    proof {
        assert(property_views(dict@) + Seq::<Property>::empty() =~= property_views(dict@));
    }
    Some(dict)
}

/// The material that the content of a `MATL` chunk holds: the number of a
/// palette entry, from 1 to 256, and a dictionary of properties.
pub open spec fn material_of(palette: Seq<u8>, c: Seq<u8>) -> Option<VoxMaterialView> {
    if c.len() >= 4 && dict_at(c, 4) is Some && 1 <= le_u32(c, 0) <= 256 {
        Some(
            VoxMaterialView {
                albedo: palette.subrange(4 * (le_u32(c, 0) - 1), 4 * le_u32(c, 0)),
                properties: dict_at(c, 4)->0,
            },
        )
    } else {
        None
    }
}

/// Reads the material that the content of a `MATL` chunk holds.
fn parse_material(palette: &[u8], c: &[u8]) -> (r: Option<VoxMaterial>)
    requires
        palette@.len() >= 1024,
    ensures
        match r {
            Some(material) => material_of(palette@, c@) == Some(material@),
            None => material_of(palette@, c@) is None,
        },
{
    if c.len() < 4 {
        return None;
    }
    let id = read_u32(c, 0);
    let properties = match parse_dict(c, 4) {
        Some(dict) => dict,
        None => { return None; },
    };
    if id < 1 || id > 256 {
        return None;
    }
    let at = 4 * (id as usize - 1);
    let albedo = [palette[at], palette[at + 1], palette[at + 2], palette[at + 3]];
    proof {
        assert(albedo@ =~= palette@.subrange(4 * (id - 1), 4 * id));
    }
    Some(VoxMaterial { albedo, properties })
}

/// The chunks of the row that hold materials, in order.
pub open spec fn material_chunks(chunks: Seq<ChunkView>) -> Seq<ChunkView> {
    kept(chunks, |c: ChunkView| c.id == MATL@ || c.id == MATL@)
}

/// The materials that a row of chunks holds.
///
/// There has to be a palette of 256 colours, and every `MATL` chunk, of
/// which there are at most 256, has to hold a material.
pub open spec fn materials_of(chunks: Seq<ChunkView>) -> Result<Seq<VoxMaterialView>, VoxError> {
    let found = material_chunks(chunks);
    match first_tagged(chunks, RGBA@) {
        None => Err(VoxError::NoPalette),
        Some(palette) => if palette.content.len() < 1024 {
            Err(VoxError::NoPalette)
        } else if found.len() > 256 || exists|k: int|
            0 <= k < found.len() && material_of(palette.content, #[trigger] found[k].content)
                is None {
            Err(VoxError::BadMaterial)
        } else {
            Ok(
                Seq::new(
                    found.len(),
                    |k: int| material_of(palette.content, found[k].content)->0,
                ),
            )
        },
    }
}

/// The views of a row of materials.
pub open spec fn material_views(materials: Seq<VoxMaterial>) -> Seq<VoxMaterialView> {
    materials.map_values(|m: VoxMaterial| m@)
}

/// Reads the materials that a row of chunks holds.
pub fn parse_materials(chunks: &Vec<VoxChunk>) -> (r: Result<Vec<VoxMaterial>, VoxError>)
    ensures
        match r {
            Ok(materials) => materials_of(views(chunks@)) == Ok::<
                Seq<VoxMaterialView>,
                VoxError,
            >(material_views(materials@)),
            Err(e) => materials_of(views(chunks@)) == Err::<Seq<VoxMaterialView>, VoxError>(e),
        },
{
    let ghost all = views(chunks@);
    let p = match find_tagged(chunks, &RGBA) {
        Some(p) => p,
        None => { return Err(VoxError::NoPalette); },
    };
    let palette = chunks[p].content.as_slice();
    if palette.len() < 1024 {
        return Err(VoxError::NoPalette);
    }
    let places = find_all(chunks, &MATL, &MATL);
    let ghost found = material_chunks(all);
    assert(found == picked(chunks@, places@));
    assert(found.len() == places.len());
    if places.len() > 256 {
        return Err(VoxError::BadMaterial);
    }
    let mut materials: Vec<VoxMaterial> = Vec::new();
    let mut k: usize = 0;
    while k < places.len()
        invariant
            all == views(chunks@),
            first_tagged(all, RGBA@) == Some(chunks[p as int]@),
            p < chunks.len(),
            palette@ == chunks[p as int]@.content,
            palette@.len() >= 1024,
            found == material_chunks(all),
            found == picked(chunks@, places@),
            found.len() == places.len(),
            found.len() <= 256,
            forall|j: int| 0 <= j < places.len() ==> (#[trigger] places[j]) < chunks.len(),
            k <= places.len(),
            materials.len() == k,
            forall|j: int|
                0 <= j < k ==> material_of(palette@, found[j].content) == Some(
                    #[trigger] materials[j]@,
                ),
        decreases places.len() - k,
    {
        let at = places[k];
        proof {
            assert(found[k as int] == chunks[at as int]@);
        }
        match parse_material(palette, chunks[at].content.as_slice()) {
            Some(material) => {
                materials.push(material);
            },
            None => {
                assert(material_of(palette@, found[k as int].content) is None);
                return Err(VoxError::BadMaterial);
            },
        }
        k = k + 1;
    }
    proof {
        assert forall|j: int| 0 <= j < found.len() implies material_of(
            palette@,
            #[trigger] found[j].content,
        ) is Some by {
            assert(material_of(palette@, found[j].content) == Some(materials[j]@));
        }
        assert(material_views(materials@) =~= Seq::new(
            found.len(),
            |j: int| material_of(palette@, found[j].content)->0,
        ));
    }
    Ok(materials)
}

/// What a file holds: its models and its materials, in file order.
pub struct VoxFileView {
    pub models: Seq<VoxModelView>,
    pub materials: Seq<VoxMaterialView>,
}

/// What the bytes of a file stand for.
///
/// The file has to start with the signature and the version. Behind them
/// stands one chunk, which has to lie within the file together with its
/// children, all of them well framed, and which has to be `MAIN`; what
/// follows it is not read. Its children hold the models and the materials.
/// The first of these demands that fails decides the error.
pub open spec fn decoded(b: Seq<u8>) -> Result<VoxFileView, VoxError> {
    if !(b.len() >= 8 && b.subrange(0, 4) == SIGNATURE@ && le_u32(b, 4) == VERSION) {
        Err(VoxError::BadHeader)
    } else {
        let rest = b.skip(8);
        let n = le_u32(rest, 4);
        let m = le_u32(rest, 8);
        let children = rest.subrange(12 + n, 12 + n + m);
        if !(rest.len() >= 12 && 12 + n + m <= rest.len() && framed(children)) {
            Err(VoxError::Truncated)
        } else if rest.subrange(0, 4) != MAIN@ {
            Err(VoxError::NotMain)
        } else {
            match models_of(listed(children)) {
                Err(e) => Err(e),
                Ok(models) => match materials_of(listed(children)) {
                    Err(e) => Err(e),
                    Ok(materials) => Ok(VoxFileView { models, materials }),
                },
            }
        }
    }
}

/// Reads the models and the materials of a file from its bytes.
pub fn parse(input: &[u8]) -> (r: Result<(Vec<VoxModel>, Vec<VoxMaterial>), VoxError>)
    ensures
        match r {
            Ok((models, materials)) => decoded(input@) == Ok::<VoxFileView, VoxError>(
                VoxFileView {
                    models: model_views(models@),
                    materials: material_views(materials@),
                },
            ) && all_unplaced(models@),
            Err(e) => decoded(input@) == Err::<VoxFileView, VoxError>(e),
        },
{
    if input.len() < 8 || !tag_at(input, 0, &SIGNATURE) || read_u32(input, 4) != VERSION {
        return Err(VoxError::BadHeader);
    }
    let ghost rest = input@.skip(8);
    let left = input.len() - 8;
    if left < 12 {
        return Err(VoxError::Truncated);
    }
    proof {
        lemma_le_u32_skip(input@, 8, 4);
        lemma_le_u32_skip(input@, 8, 8);
    }
    let n = read_u32(input, 12) as usize;
    let m = read_u32(input, 16) as usize;
    if n > left - 12 || m > left - 12 - n {
        return Err(VoxError::Truncated);
    }
    let children = slice_subrange(input, 20 + n, 20 + n + m);
    proof {
        assert(rest.subrange(12 + n, 12 + n + m) =~= children@);
        assert(rest.subrange(0, 4) =~= input@.subrange(8, 12));
    }
    let chunks = match parse_chunks(children) {
        Some(chunks) => chunks,
        None => { return Err(VoxError::Truncated); },
    };
    if !tag_at(input, 8, &MAIN) {
        return Err(VoxError::NotMain);
    }
    let models = match parse_models(&chunks) {
        Ok(models) => models,
        Err(e) => { return Err(e); },
    };
    let materials = match parse_materials(&chunks) {
        Ok(materials) => materials,
        Err(e) => { return Err(e); },
    };
    Ok((models, materials))
}

} // verus!
