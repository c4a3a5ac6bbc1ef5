use glam::{Mat4, UVec3, Vec3};
use voxel_tensor::addressing::{checked_linear, checked_volume};
use voxel_tensor::scene::{MaterialId, Model};
use voxel_tensor::tensor::{SparseNode, SparseTensorChunk, TensorError};

fn at(x: u32, y: u32, z: u32) -> UVec3 {
    UVec3 { x, y, z }
}

fn material_at(chunk: &SparseTensorChunk, c: UVec3) -> Option<MaterialId> {
    chunk.voxel(c).unwrap().map(|v| v.1)
}

fn is_run(node: &SparseNode, len: u32) -> bool {
    matches!(node, SparseNode::Nothing(n) if *n == len)
}

fn is_voxel(node: &SparseNode, c: UVec3, m: usize) -> bool {
    matches!(node, SparseNode::Voxel((p, MaterialId(k))) if *p == c && *k == m)
}

#[test]
fn empty_volume_has_a_run_for_each_cell() {
    let chunk = SparseTensorChunk::nothing(at(4, 4, 4));
    assert_eq!(chunk.dim(), at(4, 4, 4));
    assert_eq!(chunk.segment_count(), 64);
    assert!(chunk.nodes().iter().all(|node| is_run(node, 1)));
    assert_eq!(SparseTensorChunk::nothing(at(2, 1, 1)).segment_count(), 2);
    assert_eq!(SparseTensorChunk::nothing(at(1, 1, 1)).segment_count(), 1);
    assert_eq!(chunk.transform, Mat4::IDENTITY);
    assert!(chunk.voxels().is_empty());
}

#[test]
fn empty_volume_without_cells_has_no_segment() {
    let chunk = SparseTensorChunk::nothing(at(0, 0, 0));
    assert_eq!(chunk.segment_count(), 0);
    let flat = SparseTensorChunk::nothing(at(3, 0, 5));
    assert_eq!(flat.segment_count(), 0);
    assert_eq!(flat.voxel(at(0, 0, 0)), Err(TensorError::OutOfBounds));
}

#[test]
fn scenario_insert_lookup_remove() {
    let mut chunk = SparseTensorChunk::nothing(at(4, 4, 4));
    assert_eq!(chunk.insert(at(1, 0, 0), Some(MaterialId(0))), Ok(()));
    assert_eq!(chunk.voxel(at(1, 0, 0)), Ok(Some(&(at(1, 0, 0), MaterialId(0)))));
    assert_eq!(chunk.voxel(at(2, 0, 0)), Ok(None));
    assert_eq!(chunk.remove(at(1, 0, 0)), Ok(()));
    assert_eq!(chunk.voxel(at(1, 0, 0)), Ok(None));
}

#[test]
fn round_trip_on_every_cell() {
    let dim = at(3, 2, 2);
    for z in 0..2 {
        for y in 0..2 {
            for x in 0..3 {
                let mut chunk = SparseTensorChunk::nothing(dim);
                let c = at(x, y, z);
                let m = MaterialId((x + 3 * y + 6 * z) as usize);
                assert_eq!(chunk.insert(c, Some(m)), Ok(()));
                assert_eq!(material_at(&chunk, c), Some(m));
                assert_eq!(chunk.voxels(), vec![(c, m)]);
                assert_eq!(chunk.remove(c), Ok(()));
                assert_eq!(material_at(&chunk, c), None);
                assert!(chunk.voxels().is_empty());
            }
        }
    }
}

#[test]
fn insert_splits_a_run() {
    let mut chunk = SparseTensorChunk::nothing(at(4, 4, 4));
    chunk.compress();
    assert_eq!(chunk.segment_count(), 1);
    assert!(is_run(&chunk.nodes()[0], 64));
    chunk.insert(at(1, 0, 0), Some(MaterialId(7))).unwrap();
    let nodes = chunk.nodes();
    assert_eq!(nodes.len(), 3);
    assert!(is_run(&nodes[0], 1));
    assert!(is_voxel(&nodes[1], at(1, 0, 0), 7));
    assert!(is_run(&nodes[2], 62));
}

#[test]
fn insert_at_the_ends_of_a_run() {
    let mut chunk = SparseTensorChunk::nothing(at(2, 2, 1));
    chunk.compress();
    chunk.insert(at(0, 0, 0), Some(MaterialId(1))).unwrap();
    assert_eq!(chunk.segment_count(), 2);
    assert!(is_voxel(&chunk.nodes()[0], at(0, 0, 0), 1));
    assert!(is_run(&chunk.nodes()[1], 3));
    chunk.insert(at(1, 1, 0), Some(MaterialId(2))).unwrap();
    assert_eq!(chunk.segment_count(), 3);
    assert!(is_run(&chunk.nodes()[1], 2));
    assert!(is_voxel(&chunk.nodes()[2], at(1, 1, 0), 2));
}

#[test]
fn insert_overwrites_in_place() {
    let mut chunk = SparseTensorChunk::nothing(at(2, 2, 2));
    chunk.insert(at(1, 1, 1), Some(MaterialId(3))).unwrap();
    let before = chunk.segment_count();
    chunk.insert(at(1, 1, 1), Some(MaterialId(4))).unwrap();
    assert_eq!(chunk.segment_count(), before);
    assert_eq!(material_at(&chunk, at(1, 1, 1)), Some(MaterialId(4)));
    assert_eq!(chunk.voxels(), vec![(at(1, 1, 1), MaterialId(4))]);
}

#[test]
fn insert_of_nothing_empties_in_place() {
    let mut chunk = SparseTensorChunk::nothing(at(3, 1, 1));
    chunk.insert(at(1, 0, 0), Some(MaterialId(3))).unwrap();
    chunk.insert(at(1, 0, 0), None).unwrap();
    assert_eq!(chunk.segment_count(), 3);
    assert!(is_run(&chunk.nodes()[1], 1));
    assert_eq!(material_at(&chunk, at(1, 0, 0)), None);
    chunk.insert(at(2, 0, 0), None).unwrap();
    assert_eq!(chunk.segment_count(), 3);
}

#[test]
fn addresses_run_x_then_y_then_z() {
    let dim = at(2, 3, 2);
    assert_eq!(checked_linear(at(0, 0, 0), dim), Some(0));
    assert_eq!(checked_linear(at(1, 0, 0), dim), Some(1));
    assert_eq!(checked_linear(at(0, 1, 0), dim), Some(2));
    assert_eq!(checked_linear(at(1, 2, 0), dim), Some(5));
    assert_eq!(checked_linear(at(0, 0, 1), dim), Some(6));
    assert_eq!(checked_linear(at(1, 2, 1), dim), Some(11));
    assert_eq!(checked_linear(at(2, 0, 0), dim), None);
    assert_eq!(checked_linear(at(0, 3, 0), dim), None);
    assert_eq!(checked_linear(at(0, 0, 2), dim), None);
}

#[test]
fn volume_of_an_extent() {
    assert_eq!(checked_volume(at(4, 4, 4)), Some(64));
    assert_eq!(checked_volume(at(0, 9, 9)), Some(0));
    assert_eq!(checked_volume(at(65535, 65537, 1)), Some(u32::MAX));
    assert_eq!(checked_volume(at(65536, 65536, 1)), None);
    assert_eq!(checked_volume(at(u32::MAX, u32::MAX, u32::MAX)), None);
    assert_eq!(checked_volume(at(u32::MAX, u32::MAX, 0)), Some(0));
}

#[test]
fn voxels_come_in_address_order() {
    let mut chunk = SparseTensorChunk::nothing(at(2, 2, 2));
    chunk.insert(at(1, 1, 1), Some(MaterialId(8))).unwrap();
    chunk.insert(at(0, 0, 1), Some(MaterialId(5))).unwrap();
    chunk.insert(at(0, 1, 0), Some(MaterialId(3))).unwrap();
    chunk.insert(at(1, 0, 0), Some(MaterialId(2))).unwrap();
    assert_eq!(
        chunk.voxels(),
        vec![
            (at(1, 0, 0), MaterialId(2)),
            (at(0, 1, 0), MaterialId(3)),
            (at(0, 0, 1), MaterialId(5)),
            (at(1, 1, 1), MaterialId(8)),
        ]
    );
}

#[test]
fn locating_segments() {
    let mut chunk = SparseTensorChunk::nothing(at(4, 1, 1));
    chunk.insert(at(2, 0, 0), Some(MaterialId(1))).unwrap();
    assert_eq!(chunk.near_idx(at(1, 0, 0)), Ok(1));
    assert_eq!(chunk.near_idx(at(3, 0, 0)), Ok(3));
    assert_eq!(chunk.idx(at(2, 0, 0)), Ok(Some(2)));
    chunk.compress();
    assert_eq!(chunk.near_idx(at(0, 0, 0)), Ok(0));
    assert_eq!(chunk.near_idx(at(1, 0, 0)), Ok(0));
    assert_eq!(chunk.near_idx(at(2, 0, 0)), Ok(1));
    assert_eq!(chunk.near_idx(at(3, 0, 0)), Ok(2));
    assert_eq!(chunk.idx(at(1, 0, 0)), Ok(None));
    assert_eq!(chunk.idx(at(2, 0, 0)), Ok(Some(1)));
    assert_eq!(chunk.idx(at(3, 0, 0)), Ok(None));
}

#[test]
fn bounds_are_enforced_on_every_axis() {
    let mut chunk = SparseTensorChunk::nothing(at(2, 3, 4));
    chunk.insert(at(1, 2, 3), Some(MaterialId(1))).unwrap();
    let before = chunk.nodes().len();
    for c in [at(2, 0, 0), at(0, 3, 0), at(0, 0, 4), at(2, 3, 4), at(u32::MAX, 0, 0)] {
        assert_eq!(chunk.voxel(c), Err(TensorError::OutOfBounds));
        assert_eq!(chunk.idx(c), Err(TensorError::OutOfBounds));
        assert_eq!(chunk.near_idx(c), Err(TensorError::OutOfBounds));
        assert_eq!(chunk.insert(c, Some(MaterialId(9))), Err(TensorError::OutOfBounds));
        assert_eq!(chunk.insert(c, None), Err(TensorError::OutOfBounds));
        assert_eq!(chunk.remove(c), Err(TensorError::OutOfBounds));
        assert!(matches!(chunk.voxel_mut(c), Err(TensorError::OutOfBounds)));
    }
    assert_eq!(chunk.nodes().len(), before);
    assert_eq!(chunk.voxels(), vec![(at(1, 2, 3), MaterialId(1))]);
}

#[test]
fn removal_merges_into_the_run_behind() {
    let mut chunk = SparseTensorChunk::nothing(at(4, 1, 1));
    chunk.insert(at(1, 0, 0), Some(MaterialId(1))).unwrap();
    assert_eq!(chunk.segment_count(), 4);
    chunk.remove(at(1, 0, 0)).unwrap();
    let nodes = chunk.nodes();
    assert_eq!(nodes.len(), 3);
    assert!(is_run(&nodes[0], 1));
    assert!(is_run(&nodes[1], 2));
    assert!(is_run(&nodes[2], 1));
}

#[test]
fn removal_merges_into_the_run_before() {
    let mut chunk = SparseTensorChunk::nothing(at(4, 1, 1));
    chunk.insert(at(2, 0, 0), Some(MaterialId(1))).unwrap();
    chunk.insert(at(3, 0, 0), Some(MaterialId(2))).unwrap();
    assert_eq!(chunk.segment_count(), 4);
    chunk.remove(at(2, 0, 0)).unwrap();
    let nodes = chunk.nodes();
    assert_eq!(nodes.len(), 3);
    assert!(is_run(&nodes[0], 1));
    assert!(is_run(&nodes[1], 2));
    assert!(is_voxel(&nodes[2], at(3, 0, 0), 2));
}

#[test]
fn removal_between_voxels_leaves_a_run_of_one() {
    let mut chunk = SparseTensorChunk::nothing(at(3, 1, 1));
    for x in 0..3 {
        chunk.insert(at(x, 0, 0), Some(MaterialId(x as usize))).unwrap();
    }
    assert_eq!(chunk.segment_count(), 3);
    chunk.remove(at(1, 0, 0)).unwrap();
    let nodes = chunk.nodes();
    assert_eq!(nodes.len(), 3);
    assert!(is_voxel(&nodes[0], at(0, 0, 0), 0));
    assert!(is_run(&nodes[1], 1));
    assert!(is_voxel(&nodes[2], at(2, 0, 0), 2));
}

#[test]
fn removal_of_an_empty_cell_changes_nothing() {
    let mut chunk = SparseTensorChunk::nothing(at(3, 1, 1));
    chunk.insert(at(1, 0, 0), Some(MaterialId(4))).unwrap();
    chunk.remove(at(2, 0, 0)).unwrap();
    assert_eq!(chunk.segment_count(), 3);
    assert_eq!(chunk.voxels(), vec![(at(1, 0, 0), MaterialId(4))]);
}

#[test]
fn compression_merges_runs_and_is_idempotent() {
    let mut chunk = SparseTensorChunk::nothing(at(6, 1, 1));
    chunk.insert(at(0, 0, 0), Some(MaterialId(1))).unwrap();
    chunk.insert(at(2, 0, 0), Some(MaterialId(2))).unwrap();
    chunk.insert(at(4, 0, 0), Some(MaterialId(3))).unwrap();
    chunk.insert(at(2, 0, 0), None).unwrap();
    chunk.insert(at(4, 0, 0), None).unwrap();
    assert_eq!(chunk.segment_count(), 6);
    let before = chunk.voxels();
    chunk.compress();
    assert_eq!(chunk.segment_count(), 2);
    assert!(is_voxel(&chunk.nodes()[0], at(0, 0, 0), 1));
    assert!(is_run(&chunk.nodes()[1], 5));
    assert_eq!(chunk.voxels(), before);
    chunk.compress();
    assert_eq!(chunk.segment_count(), 2);
    assert!(is_run(&chunk.nodes()[1], 5));
    assert_eq!(chunk.voxels(), before);
}

#[test]
fn conservation_of_distinct_inserts() {
    let dim = at(3, 3, 3);
    let mut chunk = SparseTensorChunk::nothing(dim);
    let mut count = 0;
    for z in 0..3 {
        for y in 0..3 {
            for x in 0..3 {
                if (x + y + z) % 2 == 0 {
                    chunk.insert(at(x, y, z), Some(MaterialId(count))).unwrap();
                    count += 1;
                }
            }
        }
    }
    assert_eq!(count, 14);
    assert_eq!(chunk.voxels().len(), 14);
    chunk.compress();
    assert_eq!(chunk.voxels().len(), 14);
}

#[test]
fn material_can_be_rewritten_in_place() {
    let mut chunk = SparseTensorChunk::nothing(at(2, 2, 1));
    chunk.insert(at(1, 1, 0), Some(MaterialId(1))).unwrap();
    assert!(matches!(chunk.voxel_mut(at(0, 0, 0)), Ok(None)));
    match chunk.voxel_mut(at(1, 1, 0)) {
        Ok(Some(m)) => {
            assert_eq!(*m, MaterialId(1));
            *m = MaterialId(200);
        }
        _ => panic!("the cell is occupied"),
    }
    assert_eq!(chunk.voxel(at(1, 1, 0)), Ok(Some(&(at(1, 1, 0), MaterialId(200)))));
    assert_eq!(chunk.segment_count(), 4);
}

#[test]
fn segment_helpers() {
    let mut run = SparseNode::Nothing(3);
    assert_eq!(run.nils(), 3);
    assert_eq!(run.cell_count(), 3);
    run.add_nils(4);
    assert_eq!(run.nils(), 7);
    let mut voxel = SparseNode::Voxel((at(1, 2, 3), MaterialId(5)));
    assert_eq!(voxel.nils(), 0);
    assert_eq!(voxel.cell_count(), 1);
    assert_eq!(voxel.voxel(), &(at(1, 2, 3), MaterialId(5)));
    voxel.voxel_mut().1 = MaterialId(6);
    assert_eq!(voxel.voxel().1, MaterialId(6));
}

#[test]
fn model_becomes_a_canonical_volume() {
    let placement = Mat4::from_translation(Vec3::new(3.0, 4.0, 5.0));
    let model = Model {
        transform: placement,
        positions: vec![
            (at(3, 0, 0), MaterialId(1)),
            (at(0, 0, 0), MaterialId(2)),
            (at(3, 0, 0), MaterialId(3)),
        ],
        size: at(4, 1, 1),
    };
    let chunk = SparseTensorChunk::from_model(model).unwrap();
    assert_eq!(chunk.dim(), at(4, 1, 1));
    assert_eq!(chunk.transform, Mat4::IDENTITY * placement);
    assert_eq!(chunk.transform, placement);
    assert_eq!(chunk.voxels(), vec![(at(0, 0, 0), MaterialId(2)), (at(3, 0, 0), MaterialId(3))]);
    let nodes = chunk.nodes();
    assert_eq!(nodes.len(), 3);
    assert!(is_run(&nodes[1], 2));
}

#[test]
fn model_with_a_voxel_outside_is_refused() {
    let model = Model {
        transform: Mat4::IDENTITY,
        positions: vec![(at(0, 0, 0), MaterialId(1)), (at(0, 2, 0), MaterialId(1))],
        size: at(2, 2, 2),
    };
    assert!(matches!(SparseTensorChunk::from_model(model), Err(TensorError::OutOfBounds)));
}

#[test]
fn model_that_is_too_large_is_refused() {
    let model = Model {
        transform: Mat4::IDENTITY,
        positions: vec![(at(5, 5, 5), MaterialId(1))],
        size: at(2048, 2048, 2048),
    };
    assert!(matches!(SparseTensorChunk::from_model(model), Err(TensorError::TooLarge)));
}

#[test]
fn copies_are_equal_and_independent() {
    let mut chunk = SparseTensorChunk::nothing(at(2, 1, 1));
    chunk.insert(at(0, 0, 0), Some(MaterialId(1))).unwrap();
    chunk.transform = Mat4::from_translation(Vec3::new(1.0, 2.0, 3.0));
    let copy = chunk.clone();
    chunk.insert(at(1, 0, 0), Some(MaterialId(2))).unwrap();
    assert_eq!(copy.dim(), at(2, 1, 1));
    assert_eq!(copy.transform, chunk.transform);
    assert_eq!(copy.voxels(), vec![(at(0, 0, 0), MaterialId(1))]);
    assert_eq!(chunk.voxels().len(), 2);
}

#[test]
fn volumes_made_here_are_well_formed() {
    let mut chunk = SparseTensorChunk::nothing(at(3, 3, 3));
    assert!(chunk.is_well_formed());
    chunk.insert(at(1, 1, 1), Some(MaterialId(1))).unwrap();
    chunk.insert(at(2, 2, 2), Some(MaterialId(2))).unwrap();
    chunk.remove(at(1, 1, 1)).unwrap();
    assert!(chunk.is_well_formed());
    chunk.compress();
    assert!(chunk.is_well_formed());
    assert!(SparseTensorChunk::nothing(at(0, 7, 7)).is_well_formed());
}
