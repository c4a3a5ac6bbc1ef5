//! Row-major addressing of the cells of a cuboid grid.

use glam::UVec3;
use vstd::arithmetic::div_mod::lemma_fundamental_div_mod_converse;
use vstd::prelude::*;

verus! {

/// Number of cells of a grid with extent `dim`.
pub open spec fn volume(dim: UVec3) -> nat {
    (dim.x * dim.y * dim.z) as nat
}

/// Whether `c` names a cell of a grid with extent `dim`.
pub open spec fn in_bounds(c: UVec3, dim: UVec3) -> bool {
    c.x < dim.x && c.y < dim.y && c.z < dim.z
}

/// Address of cell `c` in a grid with extent `dim`: `x` runs fastest, then
/// `y`, then `z`.
pub open spec fn linear(c: UVec3, dim: UVec3) -> int {
    c.x + c.y * dim.x + c.z * dim.x * dim.y
}

/// The cell that has address `a` in a grid with extent `dim`.
pub open spec fn cell_at(a: int, dim: UVec3) -> UVec3 {
    UVec3 {
        x: (a % (dim.x as int)) as u32,
        y: ((a / (dim.x as int)) % (dim.y as int)) as u32,
        z: (a / (dim.x as int) / (dim.y as int)) as u32,
    }
}

/// Every cell of the grid has an address below the grid's volume.
pub proof fn lemma_linear_in_range(c: UVec3, dim: UVec3)
    requires
        in_bounds(c, dim),
    ensures
        0 <= linear(c, dim) < volume(dim),
        c.y * dim.x < volume(dim),
        dim.x * dim.y <= volume(dim),
        c.z * dim.x * dim.y < volume(dim),
{
    let (x, y, z) = (c.x as int, c.y as int, c.z as int);
    let (w, h, d) = (dim.x as int, dim.y as int, dim.z as int);
    assert(y * w <= (h - 1) * w) by (nonlinear_arith)
        requires
            0 <= y <= h - 1,
            0 <= w,
    ;
    assert((h - 1) * w == w * h - w) by (nonlinear_arith);
    assert(z * w * h <= (d - 1) * (w * h) && 0 <= z * w * h) by (nonlinear_arith)
        requires
            0 <= z <= d - 1,
            0 <= w,
            0 <= h,
    ;
    assert((d - 1) * (w * h) == w * h * d - w * h) by (nonlinear_arith);
    assert(w * h >= w) by (nonlinear_arith)
        requires
            w >= 0,
            h >= 1,
    ;
    assert(w * h * d >= w * h) by (nonlinear_arith)
        requires
            w >= 0,
            h >= 0,
            d >= 1,
    ;
    assert(0 <= y * w) by (nonlinear_arith)
        requires
            0 <= y,
            0 <= w,
    ;
}

/// An address determines its cell: `cell_at` undoes `linear`.
pub proof fn lemma_cell_at_linear(c: UVec3, dim: UVec3)
    requires
        in_bounds(c, dim),
    ensures
        cell_at(linear(c, dim), dim) == c,
{
    let (x, y, z) = (c.x as int, c.y as int, c.z as int);
    let (w, h) = (dim.x as int, dim.y as int);
    let a = linear(c, dim);
    let q = y + z * h;
    assert(a == q * w + x) by (nonlinear_arith)
        requires
            a == x + y * w + z * w * h,
            q == y + z * h,
    ;
    lemma_fundamental_div_mod_converse(a, w, q, x);
    lemma_fundamental_div_mod_converse(q, h, z, y);
}

/// Two cells of one grid that share an address are the same cell.
pub proof fn lemma_linear_injective(a: UVec3, b: UVec3, dim: UVec3)
    requires
        in_bounds(a, dim),
        in_bounds(b, dim),
        linear(a, dim) == linear(b, dim),
    ensures
        a == b,
{
    lemma_cell_at_linear(a, dim);
    lemma_cell_at_linear(b, dim);
}

/// Every address below the volume belongs to exactly the cell `cell_at`.
pub proof fn lemma_linear_cell_at(a: int, dim: UVec3)
    requires
        0 <= a < volume(dim),
    ensures
        in_bounds(cell_at(a, dim), dim),
        linear(cell_at(a, dim), dim) == a,
{
    let (w, h, d) = (dim.x as int, dim.y as int, dim.z as int);
    assert(w > 0 && h > 0 && d > 0) by (nonlinear_arith)
        requires
            0 < w * h * d,
            w >= 0,
            h >= 0,
            d >= 0,
    ;
    let q = a / w;
    let x = a % w;
    let y = q % h;
    let z = q / h;
    vstd::arithmetic::div_mod::lemma_fundamental_div_mod(a, w);
    vstd::arithmetic::div_mod::lemma_fundamental_div_mod(q, h);
    vstd::arithmetic::div_mod::lemma_mod_bound(a, w);
    vstd::arithmetic::div_mod::lemma_mod_bound(q, h);
    assert(0 <= q) by (nonlinear_arith)
        requires
            a == w * q + x,
            0 <= a,
            0 <= x < w,
    ;
    assert(0 <= z) by (nonlinear_arith)
        requires
            q == h * z + y,
            0 <= q,
            0 <= y < h,
    ;
    assert(z < d) by (nonlinear_arith)
        requires
            a == w * q + x,
            q == h * z + y,
            a < w * h * d,
            0 <= x,
            0 <= y,
            w > 0,
            h > 0,
    ;
    assert(x + y * w + z * w * h == a) by (nonlinear_arith)
        requires
            a == w * q + x,
            q == h * z + y,
    ;
}

/// The number of cells of a grid, where a `u32` can hold it.
pub fn checked_volume(dim: UVec3) -> (v: Option<u32>)
    ensures
        v matches Some(n) ==> n == volume(dim),
        v is Some <==> volume(dim) <= u32::MAX,
{
    let (x, y, z) = (dim.x as u128, dim.y as u128, dim.z as u128);
    assert(x * y <= 0xffff_ffff * 0xffff_ffff) by (nonlinear_arith)
        requires
            0 <= x <= 0xffff_ffff,
            0 <= y <= 0xffff_ffff,
    ;
    let xy: u128 = x * y;
    assert(xy * z <= 0xffff_ffff * 0xffff_ffff * 0xffff_ffff) by (nonlinear_arith)
        requires
            0 <= xy <= 0xffff_ffff * 0xffff_ffff,
            0 <= z <= 0xffff_ffff,
    ;
    let n: u128 = xy * z;
    if n <= u32::MAX as u128 {
        Some(n as u32)
    } else {
        None
    }
}

/// The address of `c`, where `c` is a cell of the grid.
pub fn checked_linear(c: UVec3, dim: UVec3) -> (a: Option<u32>)
    requires
        volume(dim) <= u32::MAX,
    ensures
        a matches Some(n) ==> n == linear(c, dim),
        a is Some <==> in_bounds(c, dim),
{
    if c.x < dim.x && c.y < dim.y && c.z < dim.z {
        proof {
            lemma_linear_in_range(c, dim);
        }
        let row: u32 = c.y * dim.x;
        let plane: u32 = dim.x * dim.y;
        assert(c.z * plane == c.z * dim.x * dim.y) by (nonlinear_arith)
            requires
                plane == dim.x * dim.y,
        ;
        let slab: u32 = c.z * plane;
        Some(c.x + row + slab)
    } else {
        None
    }
}

} // verus!
