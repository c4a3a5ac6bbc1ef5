use glam::{Mat4, UVec3, Vec3};
use voxel_tensor::format::vox::{
    parse, parse_chunks, VoxError, VoxMaterialId, VoxModel, MAIN, MATL, PACK, RGBA, SIZE, XYZI,
};
use voxel_tensor::scene::{MaterialId, Model};
use voxel_tensor::tensor::SparseTensorChunk;

fn number(n: u32) -> Vec<u8> {
    vec![n as u8, (n >> 8) as u8, (n >> 16) as u8, (n >> 24) as u8]
}

fn chunk(id: &[u8; 4], content: &[u8], children: &[u8]) -> Vec<u8> {
    let mut bytes = id.to_vec();
    bytes.extend(number(content.len() as u32));
    bytes.extend(number(children.len() as u32));
    bytes.extend_from_slice(content);
    bytes.extend_from_slice(children);
    bytes
}

fn file(children: &[u8]) -> Vec<u8> {
    let mut bytes = b"VOX ".to_vec();
    bytes.extend(number(150));
    bytes.extend(chunk(&MAIN, &[], children));
    bytes
}

fn size(x: u32, y: u32, z: u32) -> Vec<u8> {
    let mut content = number(x);
    content.extend(number(y));
    content.extend(number(z));
    chunk(&SIZE, &content, &[])
}

fn xyzi(voxels: &[[u8; 4]]) -> Vec<u8> {
    let mut content = number(voxels.len() as u32);
    for v in voxels {
        content.extend_from_slice(v);
    }
    chunk(&XYZI, &content, &[])
}

fn palette() -> Vec<u8> {
    let mut content = Vec::new();
    for k in 0..256u32 {
        content.extend_from_slice(&[k as u8, (255 - k) as u8, 7, 255]);
    }
    chunk(&RGBA, &content, &[])
}

fn text(s: &str) -> Vec<u8> {
    let mut bytes = number(s.len() as u32);
    bytes.extend_from_slice(s.as_bytes());
    bytes
}

fn material(id: u32, properties: &[(&str, &str)]) -> Vec<u8> {
    let mut content = number(id);
    content.extend(number(properties.len() as u32));
    for (key, value) in properties {
        content.extend(text(key));
        content.extend(text(value));
    }
    chunk(&MATL, &content, &[])
}

fn join(parts: &[Vec<u8>]) -> Vec<u8> {
    parts.concat()
}

#[test]
fn numbers_are_read_lowest_byte_first() {
    let bytes = file(&join(&[size(0x0102_0304, 0xffff_ffff, 1), xyzi(&[]), palette()]));
    let (models, _) = parse(&bytes).unwrap();
    assert_eq!(models[0].size, (0x0102_0304, 0xffff_ffff, 1));
}

#[test]
fn a_file_with_a_model_and_materials() {
    let bytes = file(&join(&[
        size(4, 5, 6),
        xyzi(&[[1, 2, 3, 9], [0, 0, 0, 1], [3, 4, 5, 255]]),
        palette(),
        material(2, &[("_rough", "0.5"), ("_type", "_diffuse")]),
        material(256, &[]),
    ]));
    let (models, materials) = parse(&bytes).unwrap();
    assert_eq!(models.len(), 1);
    assert_eq!(models[0].size, (4, 5, 6));
    assert_eq!(models[0].transform, Mat4::IDENTITY);
    assert_eq!(
        models[0].positions,
        vec![
            (UVec3::new(1, 2, 3), VoxMaterialId(9)),
            (UVec3::new(0, 0, 0), VoxMaterialId(1)),
            (UVec3::new(3, 4, 5), VoxMaterialId(255)),
        ]
    );
    assert_eq!(materials.len(), 2);
    assert_eq!(materials[0].albedo, [1, 254, 7, 255]);
    assert_eq!(
        materials[0].properties,
        vec![
            (b"_rough".to_vec(), b"0.5".to_vec()),
            (b"_type".to_vec(), b"_diffuse".to_vec()),
        ]
    );
    assert_eq!(materials[1].albedo, [255, 0, 7, 255]);
    assert!(materials[1].properties.is_empty());
}

#[test]
fn models_are_paired_in_order() {
    let bytes = file(&join(&[
        chunk(&PACK, &number(2), &[]),
        size(1, 1, 1),
        xyzi(&[[0, 0, 0, 1]]),
        chunk(b"nTRN", &[1, 2, 3], &[]),
        size(2, 2, 2),
        palette(),
        xyzi(&[[1, 1, 1, 2], [0, 1, 0, 3]]),
        size(9, 9, 9),
    ]));
    let (models, materials) = parse(&bytes).unwrap();
    assert!(materials.is_empty());
    assert_eq!(models.len(), 2);
    assert_eq!(models[0].size, (1, 1, 1));
    assert_eq!(models[1].size, (2, 2, 2));
    assert_eq!(models[1].positions.len(), 2);
}

#[test]
fn what_follows_the_chunks_is_not_read() {
    let mut children = join(&[size(1, 1, 1), xyzi(&[]), palette()]);
    children.extend_from_slice(&[1, 2, 3]);
    let mut bytes = file(&children);
    bytes.extend_from_slice(b"anything at all");
    let (models, _) = parse(&bytes).unwrap();
    assert_eq!(models.len(), 1);
}

#[test]
fn children_of_children_are_checked() {
    let good = chunk(b"nGRP", &[7], &chunk(b"nSHP", &[1, 2], &[]));
    let bytes = file(&join(&[good, palette()]));
    assert!(parse(&bytes).is_ok());
    let bad = chunk(b"nGRP", &[7], &[b'n', b'S', b'H', b'P', 9, 0, 0, 0, 0, 0, 0, 0]);
    let bytes = file(&join(&[bad, palette()]));
    assert!(matches!(parse(&bytes), Err(VoxError::Truncated)));
}

#[test]
fn rows_of_chunks() {
    let row = join(&[chunk(b"abcd", &[1, 2], &[]), chunk(b"efgh", &[], &chunk(b"ijkl", &[3], &[]))]);
    let chunks = parse_chunks(&row).unwrap();
    assert_eq!(chunks.len(), 2);
    assert_eq!(chunks[0].id, *b"abcd");
    assert_eq!(chunks[0].content, vec![1, 2]);
    assert_eq!(chunks[1].id, *b"efgh");
    assert!(chunks[1].content.is_empty());
    assert!(chunks[1].has_tag(b"efgh"));
    assert!(!chunks[1].has_tag(b"efgi"));
    assert!(parse_chunks(&[]).unwrap().is_empty());
    assert!(parse_chunks(&[1, 2, 3]).unwrap().is_empty());
    assert!(parse_chunks(&[1, 2, 3, 4]).is_none());
    assert!(parse_chunks(&row[..row.len() - 1]).is_none());
}

#[test]
fn header_is_checked() {
    assert!(matches!(parse(&[]), Err(VoxError::BadHeader)));
    assert!(matches!(parse(b"VOX "), Err(VoxError::BadHeader)));
    assert!(matches!(parse(b"VOX \x96\x00\x00"), Err(VoxError::BadHeader)));
    let mut bytes = file(&palette());
    bytes[3] = b'!';
    assert!(matches!(parse(&bytes), Err(VoxError::BadHeader)));
    let mut bytes = file(&palette());
    bytes[4] = 151;
    assert!(matches!(parse(&bytes), Err(VoxError::BadHeader)));
    let mut bytes = file(&palette());
    bytes[7] = 1;
    assert!(matches!(parse(&bytes), Err(VoxError::BadHeader)));
}

#[test]
fn cut_files_are_refused() {
    let whole = file(&join(&[size(1, 1, 1), xyzi(&[]), palette()]));
    assert!(parse(&whole).is_ok());
    assert!(matches!(parse(&whole[..8]), Err(VoxError::Truncated)));
    assert!(matches!(parse(&whole[..19]), Err(VoxError::Truncated)));
    assert!(matches!(parse(&whole[..whole.len() - 1]), Err(VoxError::Truncated)));
    let mut liar = whole.clone();
    liar[12] = 1;
    assert!(matches!(parse(&liar), Err(VoxError::Truncated)));
}

#[test]
fn the_first_chunk_has_to_be_main() {
    let mut bytes = file(&palette());
    bytes[8] = b'm';
    assert!(matches!(parse(&bytes), Err(VoxError::NotMain)));
}

#[test]
fn a_short_pack_is_refused() {
    let bytes = file(&join(&[chunk(&PACK, &[1, 0, 0], &[]), palette()]));
    assert!(matches!(parse(&bytes), Err(VoxError::BadPack)));
    let bytes = file(&join(&[chunk(&PACK, &[1, 0, 0, 0], &[]), chunk(&PACK, &[], &[]), palette()]));
    assert!(parse(&bytes).is_ok());
}

#[test]
fn model_chunks_have_to_fit() {
    let swapped = file(&join(&[xyzi(&[]), size(1, 1, 1), palette()]));
    assert!(matches!(parse(&swapped), Err(VoxError::BadModel)));
    let short_size = file(&join(&[chunk(&SIZE, &[0; 11], &[]), xyzi(&[]), palette()]));
    assert!(matches!(parse(&short_size), Err(VoxError::BadModel)));
    let no_count = file(&join(&[size(1, 1, 1), chunk(&XYZI, &[0; 3], &[]), palette()]));
    assert!(matches!(parse(&no_count), Err(VoxError::BadModel)));
    let mut content = number(2);
    content.extend_from_slice(&[0, 0, 0, 1, 0, 0, 0]);
    let too_few = file(&join(&[size(1, 1, 1), chunk(&XYZI, &content, &[]), palette()]));
    assert!(matches!(parse(&too_few), Err(VoxError::BadModel)));
    let huge = file(&join(&[size(1, 1, 1), chunk(&XYZI, &number(u32::MAX), &[]), palette()]));
    assert!(matches!(parse(&huge), Err(VoxError::BadModel)));
    let two_sizes = file(&join(&[size(1, 1, 1), size(1, 1, 1), palette()]));
    assert!(matches!(parse(&two_sizes), Err(VoxError::BadModel)));
}

#[test]
fn a_palette_is_needed() {
    let none = file(&join(&[size(1, 1, 1), xyzi(&[])]));
    assert!(matches!(parse(&none), Err(VoxError::NoPalette)));
    let short = file(&chunk(&RGBA, &[0; 1023], &[]));
    assert!(matches!(parse(&short), Err(VoxError::NoPalette)));
    let second = file(&join(&[chunk(&RGBA, &[0; 8], &[]), palette()]));
    assert!(matches!(parse(&second), Err(VoxError::NoPalette)));
}

#[test]
fn materials_have_to_fit() {
    let zero = file(&join(&[palette(), material(0, &[])]));
    assert!(matches!(parse(&zero), Err(VoxError::BadMaterial)));
    let beyond = file(&join(&[palette(), material(257, &[])]));
    assert!(matches!(parse(&beyond), Err(VoxError::BadMaterial)));
    let no_id = file(&join(&[palette(), chunk(&MATL, &[1, 0, 0], &[])]));
    assert!(matches!(parse(&no_id), Err(VoxError::BadMaterial)));
    let no_dict = file(&join(&[palette(), chunk(&MATL, &number(1), &[])]));
    assert!(matches!(parse(&no_dict), Err(VoxError::BadMaterial)));
    let mut content = number(1);
    content.extend(number(1));
    content.extend(text("_rough"));
    let no_value = file(&join(&[palette(), chunk(&MATL, &content, &[])]));
    assert!(matches!(parse(&no_value), Err(VoxError::BadMaterial)));
    content.extend(number(4));
    content.extend_from_slice(b"0.5");
    let cut_value = file(&join(&[palette(), chunk(&MATL, &content, &[])]));
    assert!(matches!(parse(&cut_value), Err(VoxError::BadMaterial)));
    let mut many = vec![palette()];
    for _ in 0..256 {
        many.push(material(1, &[]));
    }
    assert_eq!(parse(&file(&join(&many))).unwrap().1.len(), 256);
    many.push(material(1, &[]));
    assert!(matches!(parse(&file(&join(&many))), Err(VoxError::BadMaterial)));
}

#[test]
fn models_come_before_materials() {
    let both = file(&join(&[xyzi(&[]), size(1, 1, 1)]));
    assert!(matches!(parse(&both), Err(VoxError::BadModel)));
    let pack = file(&join(&[chunk(&PACK, &[], &[]), xyzi(&[]), size(1, 1, 1)]));
    assert!(matches!(parse(&pack), Err(VoxError::BadPack)));
}

#[test]
fn palette_indices_count_from_one() {
    assert_eq!(VoxMaterialId(1).material(), Some(MaterialId(0)));
    assert_eq!(VoxMaterialId(256).material(), Some(MaterialId(255)));
    assert_eq!(VoxMaterialId(0).material(), None);
}

#[test]
fn a_model_of_a_file_becomes_a_model() {
    let placement = Mat4::from_translation(Vec3::new(1.0, 2.0, 3.0));
    let value = VoxModel {
        transform: Mat4::IDENTITY,
        size: (2, 3, 4),
        positions: vec![
            (UVec3::new(1, 2, 3), VoxMaterialId(9)),
            (UVec3::new(0, 0, 0), VoxMaterialId(1)),
        ],
    };
    let copy = value.clone();
    assert_eq!(copy.size, value.size);
    assert_eq!(copy.positions, value.positions);
    assert_eq!(copy.transform, value.transform);
    let model = Model::from_vox(value, placement).unwrap();
    assert_eq!(model.transform, placement);
    assert_eq!(model.size, UVec3::new(2, 3, 4));
    assert_eq!(
        model.positions,
        vec![(UVec3::new(1, 2, 3), MaterialId(8)), (UVec3::new(0, 0, 0), MaterialId(0))]
    );
    let chunk = SparseTensorChunk::from_model(model).unwrap();
    assert_eq!(
        chunk.voxels(),
        vec![(UVec3::new(0, 0, 0), MaterialId(0)), (UVec3::new(1, 2, 3), MaterialId(8))]
    );
}

#[test]
fn a_model_with_the_index_zero_is_refused() {
    let value = VoxModel {
        transform: Mat4::IDENTITY,
        size: (2, 2, 2),
        positions: vec![(UVec3::new(1, 1, 1), VoxMaterialId(3)), (UVec3::new(0, 0, 0), VoxMaterialId(0))],
    };
    assert!(Model::from_vox(value, Mat4::IDENTITY).is_none());
}

#[test]
fn from_bytes_to_a_volume() {
    let bytes = file(&join(&[size(2, 2, 1), xyzi(&[[1, 1, 0, 2], [0, 0, 0, 1]]), palette()]));
    let (models, _) = parse(&bytes).unwrap();
    let model = Model::from_vox(models[0].clone(), models[0].transform).unwrap();
    let chunk = SparseTensorChunk::from_model(model).unwrap();
    assert_eq!(chunk.dim(), UVec3::new(2, 2, 1));
    assert_eq!(chunk.segment_count(), 3);
    assert_eq!(
        chunk.voxels(),
        vec![(UVec3::new(0, 0, 0), MaterialId(0)), (UVec3::new(1, 1, 0), MaterialId(1))]
    );
}
