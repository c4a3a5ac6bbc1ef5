use glam::{IVec3, UVec3};
use voxel_tensor::ai::Brain;
use voxel_tensor::scene::MaterialId;
use voxel_tensor::tensor::SparseTensorChunk;

fn at(x: u32, y: u32, z: u32) -> UVec3 {
    UVec3 { x, y, z }
}

fn wall(env: &mut SparseTensorChunk, cells: &[UVec3]) {
    for c in cells {
        env.insert(*c, Some(MaterialId(0))).unwrap();
    }
}

fn beside(a: UVec3, b: UVec3) -> bool {
    a.y == b.y && (a.x.abs_diff(b.x) + a.z.abs_diff(b.z)) == 1
}

#[test]
fn straight() {
    let mut thing = Brain::new(UVec3 { x: 0, y: 0, z: 0 });

    let env = SparseTensorChunk::nothing(UVec3 { x: 4, y: 4, z: 4 });

    thing.append_destination(UVec3 { x: 3, y: 0, z: 0 }, &env);

    assert_eq!(
        thing.absolute_route(),
        &vec![
            UVec3 { x: 0, y: 0, z: 0 },
            UVec3 { x: 1, y: 0, z: 0 },
            UVec3 { x: 2, y: 0, z: 0 },
            UVec3 { x: 3, y: 0, z: 0 },
        ]
    )
}

#[test]
fn a_way_around_a_wall_is_a_shortest_one() {
    let mut env = SparseTensorChunk::nothing(at(5, 1, 5));
    wall(&mut env, &[at(2, 0, 0), at(2, 0, 1), at(2, 0, 2), at(2, 0, 3)]);
    let mut thing = Brain::new(at(0, 0, 0));
    assert!(thing.try_append_destination(at(4, 0, 0), &env));
    let route = thing.absolute_route();
    assert_eq!(route.len(), 13);
    assert_eq!(route[0], at(0, 0, 0));
    assert_eq!(route[12], at(4, 0, 0));
    for pair in route.windows(2) {
        assert!(beside(pair[0], pair[1]));
        assert_eq!(env.voxel(pair[1]), Ok(None));
    }
}

#[test]
fn no_way_leaves_the_route_alone() {
    let mut env = SparseTensorChunk::nothing(at(3, 2, 3));
    wall(&mut env, &[at(1, 0, 0), at(1, 0, 1), at(1, 0, 2)]);
    let mut thing = Brain::new(at(0, 0, 1));
    assert!(thing.try_append_destination(at(0, 0, 2), &env));
    assert!(!thing.try_append_destination(at(2, 0, 1), &env));
    assert!(!thing.try_append_destination(at(1, 0, 1), &env));
    assert!(!thing.try_append_destination(at(0, 1, 1), &env));
    assert!(!thing.try_append_destination(at(3, 0, 1), &env));
    assert_eq!(thing.absolute_route(), &vec![at(0, 0, 1), at(0, 0, 2)]);
}

#[test]
fn the_way_to_where_one_stands_is_that_cell() {
    let env = SparseTensorChunk::nothing(at(2, 2, 2));
    let mut thing = Brain::new(at(7, 7, 7));
    assert!(thing.try_append_destination(at(7, 7, 7), &env));
    assert_eq!(thing.absolute_route(), &vec![at(7, 7, 7)]);
    let mut thing = Brain::new(at(1, 1, 1));
    assert!(thing.try_append_destination(at(1, 1, 1), &env));
    assert!(thing.try_append_destination(at(0, 1, 0), &env));
    assert_eq!(thing.absolute_route().len(), 4);
}

#[test]
fn a_walker_outside_can_step_in() {
    let env = SparseTensorChunk::nothing(at(2, 1, 2));
    let mut thing = Brain::new(at(2, 0, 1));
    assert!(thing.try_append_destination(at(0, 0, 1), &env));
    assert_eq!(thing.absolute_route(), &vec![at(2, 0, 1), at(1, 0, 1), at(0, 0, 1)]);
    let mut above = Brain::new(at(0, 1, 0));
    assert!(!above.try_append_destination(at(1, 1, 0), &env));
    let mut far = Brain::new(at(u32::MAX, 0, u32::MAX));
    assert!(!far.try_append_destination(at(0, 0, 0), &env));
    let empty = SparseTensorChunk::nothing(at(0, 0, 0));
    let mut nowhere = Brain::new(at(0, 0, 0));
    assert!(!nowhere.try_append_destination(at(1, 0, 0), &empty));
}

#[test]
fn a_walker_may_stand_in_a_wall() {
    let mut env = SparseTensorChunk::nothing(at(3, 1, 1));
    wall(&mut env, &[at(0, 0, 0)]);
    let mut thing = Brain::new(at(0, 0, 0));
    assert!(thing.try_append_destination(at(2, 0, 0), &env));
    assert_eq!(thing.absolute_route().len(), 3);
}

#[test]
fn moves_are_taken_off_the_end() {
    let env = SparseTensorChunk::nothing(at(4, 1, 4));
    let mut thing = Brain::new(at(1, 0, 1));
    assert_eq!(thing.pop_move(), None);
    assert!(thing.try_append_destination(at(1, 0, 3), &env));
    assert_eq!(thing.pop_move(), Some(IVec3 { x: 0, y: 0, z: -2 }));
    assert_eq!(thing.pop_move(), Some(IVec3 { x: 0, y: 0, z: -1 }));
    assert_eq!(thing.pop_move(), Some(IVec3 { x: 0, y: 0, z: 0 }));
    assert_eq!(thing.pop_move(), None);
    thing.position = at(3, 0, 0);
    assert!(thing.try_append_destination(at(0, 0, 0), &env));
    assert_eq!(thing.pop_move(), Some(IVec3 { x: 3, y: 0, z: 0 }));
    assert_eq!(thing.absolute_route().len(), 3);
}

#[test]
fn a_way_that_is_known_to_be_there() {
    let mut env = SparseTensorChunk::nothing(at(3, 1, 3));
    wall(&mut env, &[at(1, 0, 0), at(1, 0, 1)]);
    let mut thing = Brain::new(at(0, 0, 0));
    thing.append_destination(at(2, 0, 0), &env);
    assert_eq!(
        thing.absolute_route(),
        &vec![
            at(0, 0, 0),
            at(0, 0, 1),
            at(0, 0, 2),
            at(1, 0, 2),
            at(2, 0, 2),
            at(2, 0, 1),
            at(2, 0, 0),
        ]
    );
}
