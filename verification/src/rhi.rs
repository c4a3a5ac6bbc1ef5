//! Layout of the elements of buffers that are handed to the graphics device.
//!
//! An element is a row of attributes, each of a format, with padding behind
//! each. From the formats and the padding follow the stride of the buffer
//! and the offset of each attribute.

use vstd::prelude::*;

verus! {

/// What a texel of a texture or an attribute of a buffer is made of.
#[derive(Debug, Clone, Copy, PartialEq, Eq, Structural)]
pub enum Format {
    R8G8B8A8,
    R32G32B32A32Float,
    R32Uint,
    R32G32Float,
    D24,
    F32,
    Vec2,
    UVec2,
    IVec2,
    Vec3,
    Vec4,
    Mat3,
    Mat4,
    U32,
    U16,
}

impl Format {
    /// Number of bytes that an attribute of the format takes in a buffer;
    /// nothing for the formats of textures, which cannot stand in buffers.
    pub open spec fn spec_size(self) -> Option<nat> {
        match self {
            Format::F32 => Some(4),
            Format::U32 => Some(4),
            Format::U16 => Some(2),
            Format::Vec2 => Some(8),
            Format::UVec2 => Some(8),
            Format::IVec2 => Some(8),
            Format::Vec3 => Some(12),
            Format::Vec4 => Some(16),
            Format::Mat3 => Some(32),
            Format::Mat4 => Some(48),
            Format::R8G8B8A8 => None,
            Format::R32G32B32A32Float => None,
            Format::R32G32Float => None,
            Format::D24 => None,
            Format::R32Uint => None,
        }
    }

    /// Number of bytes that an attribute of the format takes in a buffer.
    pub fn size(self) -> (n: Option<usize>)
        ensures
            n is Some <==> self.spec_size() is Some,
            n matches Some(k) ==> self.spec_size() == Some(k as nat),
    {
        match self {
            Format::F32 => Some(4),
            Format::U32 => Some(4),
            Format::U16 => Some(2),
            Format::Vec2 => Some(8),
            Format::UVec2 => Some(8),
            Format::IVec2 => Some(8),
            Format::Vec3 => Some(12),
            Format::Vec4 => Some(16),
            Format::Mat3 => Some(32),
            Format::Mat4 => Some(48),
            Format::R8G8B8A8 => None,
            Format::R32G32B32A32Float => None,
            Format::R32G32Float => None,
            Format::D24 => None,
            Format::R32Uint => None,
        }
    }

    /// Whether a texture that holds colour can have the format.
    pub fn texture_compatible(self) -> (yes: bool)
        ensures
            yes == (self == Format::R8G8B8A8 || self == Format::R32G32B32A32Float || self
                == Format::R32G32Float || self == Format::R32Uint),
    {
        match self {
            Format::R8G8B8A8 => true,
            Format::R32G32B32A32Float => true,
            Format::R32G32Float => true,
            Format::R32Uint => true,
            _ => false,
        }
    }

    /// Whether a texture that holds depth can have the format.
    pub fn depth_compatible(self) -> (yes: bool)
        ensures
            yes == (self == Format::D24),
    {
        match self {
            Format::D24 => true,
            _ => false,
        }
    }
}

/// Whether every format of the row can stand in a buffer.
pub open spec fn sized(layout: Seq<Format>) -> bool {
    forall|i: int| 0 <= i < layout.len() ==> (#[trigger] layout[i]).spec_size() is Some
}

/// Number of bytes that the attributes of the row take together.
pub open spec fn layout_size(layout: Seq<Format>) -> nat
    decreases layout.len(),
{
    if layout.len() == 0 {
        0
    } else {
        layout_size(layout.drop_last()) + layout.last().spec_size()->0
    }
}

/// The sum of the numbers of the row.
pub open spec fn total(row: Seq<usize>) -> nat
    decreases row.len(),
{
    if row.len() == 0 {
        0
    } else {
        total(row.drop_last()) + row.last() as nat
    }
}

/// The sizes of the first attributes of a row add up to no more than the
/// sizes of all.
pub proof fn lemma_layout_size_grows(layout: Seq<Format>, k: int)
    requires
        0 <= k <= layout.len(),
    ensures
        layout_size(layout.take(k)) <= layout_size(layout),
    decreases layout.len() - k,
{
    if k == layout.len() {
        assert(layout.take(k) =~= layout);
    } else {
        assert(layout.drop_last().take(k) =~= layout.take(k));
        lemma_layout_size_grows(layout.drop_last(), k);
    }
}

/// The first numbers of a row add up to no more than all.
pub proof fn lemma_total_grows(row: Seq<usize>, k: int)
    requires
        0 <= k <= row.len(),
    ensures
        total(row.take(k)) <= total(row),
    decreases row.len() - k,
{
    if k == row.len() {
        assert(row.take(k) =~= row);
    } else {
        assert(row.drop_last().take(k) =~= row.take(k));
        lemma_total_grows(row.drop_last(), k);
    }
}

/// The bytes that the attributes of the row take together.
fn sizes(layout: &[Format]) -> (n: usize)
    requires
        sized(layout@),
        layout_size(layout@) <= usize::MAX,
    ensures
        n == layout_size(layout@),
{
    let mut n: usize = 0;
    let mut i: usize = 0;
    proof {
        assert(layout@.take(0) =~= Seq::<Format>::empty());
    }
    while i < layout.len()
        invariant
            i <= layout@.len(),
            sized(layout@),
            layout_size(layout@) <= usize::MAX,
            n == layout_size(layout@.take(i as int)),
        decreases layout@.len() - i,
    {
        proof {
            assert(layout@.take(i as int + 1).drop_last() =~= layout@.take(i as int));
            assert(layout@.take(i as int + 1).last() == layout@[i as int]);
            lemma_layout_size_grows(layout@, i as int + 1);
        }
        let size = match layout[i].size() {
            Some(size) => size,
            None => vstd::pervasive::unreached(),
        };
        n = n + size;
        i = i + 1;
    }
    proof {
        assert(layout@.take(layout@.len() as int) =~= layout@);
    }
    n
}

/// The padding of an element: the sum of the paddings behind its
/// attributes.
pub fn padding(paddings: &[usize]) -> (n: usize)
    requires
        total(paddings@) <= usize::MAX,
    ensures
        n == total(paddings@),
{
    let mut n: usize = 0;
    let mut i: usize = 0;
    proof {
        assert(paddings@.take(0) =~= Seq::<usize>::empty());
    }
    while i < paddings.len()
        invariant
            i <= paddings@.len(),
            total(paddings@) <= usize::MAX,
            n == total(paddings@.take(i as int)),
        decreases paddings@.len() - i,
    {
        proof {
            assert(paddings@.take(i as int + 1).drop_last() =~= paddings@.take(i as int));
            assert(paddings@.take(i as int + 1).last() == paddings@[i as int]);
            lemma_total_grows(paddings@, i as int + 1);
        }
        n = n + paddings[i];
        i = i + 1;
    }
    proof {
        assert(paddings@.take(paddings@.len() as int) =~= paddings@);
    }
    n
}

/// Computes the amount of bytes (stride) of each element in the buffer.
///
/// Includes the size of the padding.
pub fn stride(layout: &[Format], paddings: &[usize]) -> (n: usize)
    requires
        sized(layout@),
        layout_size(layout@) + total(paddings@) <= usize::MAX,
    ensures
        n == layout_size(layout@) + total(paddings@),
{
    sizes(layout) + padding(paddings)
}

/// Computes the offset from the start of an element to the attribute
/// located at `index`: the sizes of the attributes before it and the
/// paddings behind them.
pub fn offset(layout: &[Format], paddings: &[usize], index: usize) -> (n: usize)
    requires
        index > 0 ==> index <= layout@.len() && index <= paddings@.len(),
        index > 0 ==> sized(layout@.take(index as int)),
        index > 0 ==> layout_size(layout@.take(index as int)) + total(
            paddings@.take(index as int),
        ) <= usize::MAX,
    ensures
        n == if index == 0 {
            0
        } else {
            layout_size(layout@.take(index as int)) + total(paddings@.take(index as int))
        },
{
    if index == 0 {
        return 0;
    }
    let before = vstd::slice::slice_subrange(layout, 0, index);
    let behind = vstd::slice::slice_subrange(paddings, 0, index);
    proof {
        assert(before@ =~= layout@.take(index as int));
        assert(behind@ =~= paddings@.take(index as int));
    }
    sizes(before) + padding(behind)
}

} // verus!
