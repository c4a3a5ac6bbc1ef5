use glam::{Mat4, UVec3, Vec3};
use voxel_tensor::placement::PlacedPoint;
use voxel_tensor::scene::MaterialId;
use voxel_tensor::tensor::{assemble, combine, place_voxels, SparseTensorChunk, TensorError};

fn at(x: u32, y: u32, z: u32) -> UVec3 {
    UVec3 { x, y, z }
}

fn point(x: i64, y: i64, z: i64) -> PlacedPoint {
    PlacedPoint { finite: true, x, y, z }
}

fn single(dim: UVec3, c: UVec3, m: usize, placement: Mat4) -> SparseTensorChunk {
    let mut chunk = SparseTensorChunk::nothing(dim);
    chunk.insert(c, Some(MaterialId(m))).unwrap();
    chunk.transform = placement;
    chunk
}

#[test]
fn combine_is_the_union_of_the_placed_volumes() {
    let a = single(at(2, 1, 1), at(0, 0, 0), 0, Mat4::IDENTITY);
    let b = single(
        at(2, 1, 1),
        at(0, 0, 0),
        1,
        Mat4::from_translation(Vec3::new(1.0, 0.0, 0.0)),
    );
    let c = combine(a, b).unwrap();
    assert_eq!(c.dim(), at(2, 1, 1));
    assert_eq!(c.transform, Mat4::IDENTITY);
    assert_eq!(c.voxel(at(0, 0, 0)), Ok(Some(&(at(0, 0, 0), MaterialId(0)))));
    assert_eq!(c.voxel(at(1, 0, 0)), Ok(Some(&(at(1, 0, 0), MaterialId(1)))));
}

#[test]
fn combine_lets_the_second_volume_win() {
    let a = single(at(3, 1, 1), at(2, 0, 0), 7, Mat4::IDENTITY);
    let b = single(
        at(1, 1, 1),
        at(0, 0, 0),
        9,
        Mat4::from_translation(Vec3::new(2.0, 0.0, 0.0)),
    );
    let c = combine(a, b).unwrap();
    assert_eq!(c.dim(), at(3, 1, 1));
    assert_eq!(c.voxel(at(2, 0, 0)), Ok(Some(&(at(2, 0, 0), MaterialId(9)))));
    assert_eq!(c.voxels(), vec![(at(2, 0, 0), MaterialId(9))]);
}

#[test]
fn combine_sizes_the_result_by_the_largest_coordinates() {
    let a = single(at(8, 8, 8), at(1, 5, 0), 1, Mat4::IDENTITY);
    let b = single(
        at(8, 8, 8),
        at(0, 0, 0),
        2,
        Mat4::from_translation(Vec3::new(3.0, 0.0, 2.0)),
    );
    let c = combine(a, b).unwrap();
    assert_eq!(c.dim(), at(4, 6, 3));
    assert_eq!(
        c.voxels(),
        vec![(at(1, 5, 0), MaterialId(1)), (at(3, 0, 2), MaterialId(2))]
    );
}

#[test]
fn combine_does_not_compress() {
    let mut a = SparseTensorChunk::nothing(at(6, 1, 1));
    a.insert(at(0, 0, 0), Some(MaterialId(1))).unwrap();
    a.insert(at(5, 0, 0), Some(MaterialId(1))).unwrap();
    a.compress();
    assert_eq!(a.segment_count(), 3);
    let b = single(at(4, 1, 1), at(1, 0, 0), 2, Mat4::IDENTITY);
    let mut c = combine(a, b).unwrap();
    assert_eq!(c.dim(), at(6, 1, 1));
    assert_eq!(c.segment_count(), 6);
    c.compress();
    assert_eq!(c.segment_count(), 4);
    assert_eq!(c.voxels().len(), 3);
}

#[test]
fn combine_of_empty_volumes_is_empty() {
    let a = SparseTensorChunk::nothing(at(0, 0, 0));
    let b = SparseTensorChunk::nothing(at(5, 5, 5));
    let c = combine(a, b).unwrap();
    assert_eq!(c.dim(), at(0, 0, 0));
    assert_eq!(c.segment_count(), 0);
}

#[test]
fn combine_cuts_off_towards_zero() {
    let a = single(
        at(1, 1, 1),
        at(0, 0, 0),
        1,
        Mat4::from_translation(Vec3::new(1.75, 0.5, 2.25)),
    );
    let b = single(
        at(1, 1, 1),
        at(0, 0, 0),
        2,
        Mat4::from_translation(Vec3::new(-0.5, 0.0, 0.0)),
    );
    let c = combine(a, b).unwrap();
    assert_eq!(c.dim(), at(2, 1, 3));
    assert_eq!(
        c.voxels(),
        vec![(at(0, 0, 0), MaterialId(2)), (at(1, 0, 2), MaterialId(1))]
    );
}

#[test]
fn combine_applies_scale_and_rotation() {
    let a = single(
        at(4, 4, 4),
        at(1, 2, 3),
        1,
        Mat4::from_scale(Vec3::new(2.0, 1.0, 3.0)),
    );
    let quarter_turn = Mat4::from_cols_array(&[
        0.0, 1.0, 0.0, 0.0, //
        1.0, 0.0, 0.0, 0.0, //
        0.0, 0.0, 1.0, 0.0, //
        0.0, 0.0, 0.0, 1.0,
    ]);
    let b = single(at(4, 4, 4), at(3, 0, 0), 2, quarter_turn);
    let c = combine(a, b).unwrap();
    assert_eq!(c.dim(), at(3, 4, 10));
    assert_eq!(c.voxel(at(2, 2, 9)), Ok(Some(&(at(2, 2, 9), MaterialId(1)))));
    assert_eq!(c.voxel(at(0, 3, 0)), Ok(Some(&(at(0, 3, 0), MaterialId(2)))));
}

#[test]
fn combine_refuses_negative_coordinates() {
    let a = single(at(2, 1, 1), at(0, 0, 0), 0, Mat4::IDENTITY);
    let b = single(
        at(2, 1, 1),
        at(0, 0, 0),
        1,
        Mat4::from_translation(Vec3::new(-1.0, 0.0, 0.0)),
    );
    assert!(matches!(combine(a, b), Err(TensorError::Unrepresentable)));
}

#[test]
fn combine_refuses_points_that_are_not_finite() {
    let a = single(
        at(2, 1, 1),
        at(1, 0, 0),
        0,
        Mat4::from_scale(Vec3::new(f32::INFINITY, 1.0, 1.0)),
    );
    let b = SparseTensorChunk::nothing(at(1, 1, 1));
    assert!(matches!(combine(a, b), Err(TensorError::Unrepresentable)));
    let a = single(
        at(2, 1, 1),
        at(1, 0, 0),
        0,
        Mat4::from_translation(Vec3::new(f32::NAN, 0.0, 0.0)),
    );
    let b = SparseTensorChunk::nothing(at(1, 1, 1));
    assert!(matches!(combine(a, b), Err(TensorError::Unrepresentable)));
}

#[test]
fn combine_refuses_an_extent_with_too_many_cells() {
    let a = single(
        at(1, 1, 1),
        at(0, 0, 0),
        0,
        Mat4::from_translation(Vec3::new(4096.0, 4096.0, 4096.0)),
    );
    let b = SparseTensorChunk::nothing(at(1, 1, 1));
    assert!(matches!(combine(a, b), Err(TensorError::TooLarge)));
}

#[test]
fn placing_applies_the_transform_to_each_voxel() {
    let voxels = vec![(at(1, 2, 3), MaterialId(4)), (at(0, 0, 0), MaterialId(5))];
    let placed = place_voxels(&Mat4::from_translation(Vec3::new(10.0, -20.0, 0.5)), &voxels);
    assert_eq!(placed, vec![(point(11, -18, 3), MaterialId(4)), (point(10, -20, 0), MaterialId(5))]);
    let same = place_voxels(&Mat4::IDENTITY, &voxels);
    assert_eq!(same, vec![(point(1, 2, 3), MaterialId(4)), (point(0, 0, 0), MaterialId(5))]);
}

#[test]
fn assembling_placed_voxels() {
    let points = vec![
        (point(2, 0, 0), MaterialId(7)),
        (point(0, 1, 0), MaterialId(8)),
        (point(2, 0, 0), MaterialId(9)),
    ];
    let c = assemble(&points).unwrap();
    assert_eq!(c.dim(), at(3, 2, 1));
    assert_eq!(c.segment_count(), 6);
    assert_eq!(c.transform, Mat4::IDENTITY);
    assert_eq!(
        c.voxels(),
        vec![(at(2, 0, 0), MaterialId(9)), (at(0, 1, 0), MaterialId(8))]
    );
}

#[test]
fn assembling_nothing_gives_a_volume_without_cells() {
    let c = assemble(&Vec::new()).unwrap();
    assert_eq!(c.dim(), at(0, 0, 0));
    assert_eq!(c.segment_count(), 0);
}

#[test]
fn assembling_refuses_what_is_no_grid_point() {
    let m = MaterialId(0);
    assert!(matches!(assemble(&vec![(point(-1, 0, 0), m)]), Err(TensorError::Unrepresentable)));
    assert!(matches!(assemble(&vec![(point(0, -1, 0), m)]), Err(TensorError::Unrepresentable)));
    assert!(matches!(assemble(&vec![(point(0, 0, -1), m)]), Err(TensorError::Unrepresentable)));
    let far = point(u32::MAX as i64, 0, 0);
    assert!(matches!(assemble(&vec![(far, m)]), Err(TensorError::Unrepresentable)));
    let lost = PlacedPoint { finite: false, x: 0, y: 0, z: 0 };
    assert!(matches!(assemble(&vec![(point(0, 0, 0), m), (lost, m)]), Err(TensorError::Unrepresentable)));
    let wide = point(u32::MAX as i64 - 1, 1, 0);
    assert!(matches!(assemble(&vec![(wide, m)]), Err(TensorError::TooLarge)));
    let near = point(999, 0, 0);
    let c = assemble(&vec![(near, m)]).unwrap();
    assert_eq!(c.dim(), at(1000, 1, 1));
    assert_eq!(c.segment_count(), 1000);
}
