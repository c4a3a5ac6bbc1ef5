//! Placement transforms: how a volume's grid sits in a shared frame.
//!
//! The arithmetic on transforms is glam's; this module declares its types
//! and states what the rest of the library relies on.

use glam::{Mat4, UVec3, UVec4, Vec3};
use vstd::prelude::*;

verus! {

/// glam's `UVec3`: three public `u32` fields, `x`, `y` and `z`.
#[verifier::external_type_specification]
pub struct ExUVec3(glam::UVec3);

/// glam's `IVec3`: three public `i32` fields, `x`, `y` and `z`.
#[verifier::external_type_specification]
pub struct ExIVec3(glam::IVec3);

/// glam's `UVec2`: two public `u32` fields, `x` and `y`.
#[verifier::external_type_specification]
pub struct ExUVec2(glam::UVec2);

/// glam's `IVec2`: two public `i32` fields, `x` and `y`.
#[verifier::external_type_specification]
pub struct ExIVec2(glam::IVec2);

/// glam's `Mat4`, a 4x4 matrix of floats. Nothing in it is read here.
#[verifier::external_type_specification]
#[verifier::external_body]
pub struct ExMat4(glam::Mat4);

/// glam's `Vec3`, three floats. Nothing in it is read here.
#[verifier::external_type_specification]
#[verifier::external_body]
pub struct ExVec3(glam::Vec3);

/// `Vec3::clone`, derived on a `Copy` type: the result equals the argument.
pub assume_specification[ <glam::Vec3 as Clone>::clone ](v: &glam::Vec3) -> (r: glam::Vec3)
    ensures
        r == *v,
;

/// `UVec3::clone`, derived on a `Copy` type: the result equals the argument.
pub assume_specification[ <glam::UVec3 as Clone>::clone ](c: &glam::UVec3) -> (r: glam::UVec3)
    ensures
        r == *c,
;

/// `Mat4::clone`, derived on a `Copy` type: the result equals the argument.
pub assume_specification[ <glam::Mat4 as Clone>::clone ](m: &glam::Mat4) -> (r: glam::Mat4)
    ensures
        r == *m,
;

/// A grid point after a placement was applied to it: whether all three
/// coordinates came out finite, and each coordinate cut off towards zero.
#[derive(Debug, Clone, Copy, PartialEq, Eq, Structural)]
pub struct PlacedPoint {
    pub finite: bool,
    pub x: i64,
    pub y: i64,
    pub z: i64,
}

/// What `Mat4::mul_vec4` makes of the vector `(x, y, z, w)` under `m`, read
/// as a `PlacedPoint`: see `place`.
pub uninterp spec fn placed(m: Mat4, x: u32, y: u32, z: u32, w: u32) -> PlacedPoint;

/// Where the grid point `c` comes to lie under `m`: a point is the vector
/// whose fourth coordinate is one.
pub open spec fn placed_point(m: Mat4, c: UVec3) -> PlacedPoint {
    placed(m, c.x, c.y, c.z, 1)
}

/// The placement that moves every point by `v`, as `Mat4::from_translation`
/// builds it.
pub uninterp spec fn translated(v: Vec3) -> Mat4;

/// The point `c` with each coordinate as a float, as `UVec3::as_vec3` gives
/// it.
pub uninterp spec fn floated(c: UVec3) -> Vec3;

/// The placement that leaves every point where it is: the translation by
/// nothing.
pub open spec fn unplaced() -> Mat4 {
    translated(floated(UVec3 { x: 0, y: 0, z: 0 }))
}

/// The product `a * b` of two placements, as `Mat4::mul_mat4` computes it.
pub uninterp spec fn composed(a: Mat4, b: Mat4) -> Mat4;

/// Applies `m` to the vector `(x, y, z, w)`: glam's `Mat4::mul_vec4` on the
/// vector, which `UVec4::as_vec4` turns to floats. Of the product,
/// `Vec4::truncate` keeps the first three coordinates, `Vec3::is_finite`
/// says whether all of them are finite, and `Vec3::as_i64vec3` cuts each off
/// towards zero. The result is a function of the arguments alone; the
/// contract gives it its name and claims nothing else of it.
#[verifier::external_body]
pub(crate) fn place(m: &Mat4, x: u32, y: u32, z: u32, w: u32) -> (p: PlacedPoint)
    ensures
        p == placed(*m, x, y, z, w),
{
    let v = m.mul_vec4(UVec4::new(x, y, z, w).as_vec4()).truncate();
    let t = v.as_i64vec3();
    PlacedPoint { finite: v.is_finite(), x: t.x, y: t.y, z: t.z }
}

/// glam's `Mat4::mul_mat4`, the product of two matrices: the placement that
/// applies `b` first and `a` second. The contract only names the product.
#[verifier::external_body]
pub(crate) fn compose(a: &Mat4, b: &Mat4) -> (m: Mat4)
    ensures
        m == composed(*a, *b),
{
    a.mul_mat4(b)
}

/// glam's `Mat4::from_translation`: the placement that moves every point by
/// `v`. The contract only names it.
#[verifier::external_body]
pub(crate) fn translation(v: &Vec3) -> (m: Mat4)
    ensures
        m == translated(*v),
{
    Mat4::from_translation(*v)
}

/// glam's `UVec3::as_vec3`: the point with each coordinate as a float. The
/// contract only names it.
#[verifier::external_body]
pub(crate) fn as_vec3(c: UVec3) -> (v: Vec3)
    ensures
        v == floated(c),
{
    c.as_vec3()
}

/// The placement that leaves every point where it is: the translation by
/// nothing.
pub(crate) fn identity() -> (m: Mat4)
    ensures
        m == unplaced(),
{
    translation(&as_vec3(UVec3 { x: 0, y: 0, z: 0 }))
}

} // verus!
