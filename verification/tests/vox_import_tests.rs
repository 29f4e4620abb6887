use voxel_engine::voxel::material::MaterialType;
use voxel_engine::voxel::vox_import::{import_vox_document, load_vox, VoxDocument, VoxImportError, VoxModel};

fn chunk(id: &[u8; 4], content: &[u8], children: &[u8]) -> Vec<u8> {
    let mut out = Vec::new();
    out.extend_from_slice(id);
    out.extend_from_slice(&(content.len() as u32).to_le_bytes());
    out.extend_from_slice(&(children.len() as u32).to_le_bytes());
    out.extend_from_slice(content);
    out.extend_from_slice(children);
    out
}

/// A MagicaVoxel file holding one model of the given size and voxels.
fn vox_file(size: (u32, u32, u32), voxels: &[(u8, u8, u8, u8)]) -> Vec<u8> {
    let mut size_content = Vec::new();
    size_content.extend_from_slice(&size.0.to_le_bytes());
    size_content.extend_from_slice(&size.1.to_le_bytes());
    size_content.extend_from_slice(&size.2.to_le_bytes());
    let mut xyzi = Vec::new();
    xyzi.extend_from_slice(&(voxels.len() as u32).to_le_bytes());
    for &(x, y, z, i) in voxels {
        xyzi.extend_from_slice(&[x, y, z, i]);
    }
    let mut children = chunk(b"SIZE", &size_content, &[]);
    children.extend(chunk(b"XYZI", &xyzi, &[]));
    let mut out = Vec::new();
    out.extend_from_slice(b"VOX ");
    out.extend_from_slice(&150u32.to_le_bytes());
    out.extend(chunk(b"MAIN", &[], &children));
    out
}

fn no_mapping() -> Option<&'static fn(u8, u8, u8) -> MaterialType> {
    None
}

#[test]
fn garbage_is_a_parse_error() {
    let r = load_vox(b"not a vox file", no_mapping());
    assert!(matches!(r, Err(VoxImportError::Parse)));
}

#[test]
fn file_without_models_is_rejected() {
    let mut out = Vec::new();
    out.extend_from_slice(b"VOX ");
    out.extend_from_slice(&150u32.to_le_bytes());
    out.extend(chunk(b"MAIN", &[], &[]));
    let r = load_vox(&out, no_mapping());
    assert!(matches!(r, Err(VoxImportError::NoModels)));
}

#[test]
fn model_axes_are_swapped_to_y_up() {
    let bytes = vox_file((3, 4, 2), &[(2, 3, 1, 7), (0, 0, 0, 2)]);
    let res = load_vox(&bytes, no_mapping()).ok().expect("import");
    // Z-up size (3, 4, 2) becomes a 3 wide, 2 high, 4 deep grid; the file's
    // 1-based colour indices are read back 0-based
    assert_eq!(res.grid.dimensions(), (3, 2, 4));
    assert_eq!(res.grid.get(2, 1, 3), Some(6));
    assert_eq!(res.grid.get(0, 0, 0), Some(1));
    assert_eq!(res.grid.count_nonempty(), 2);
    // the default palette is used when the file has none
    assert_eq!(res.palette.get(0).material_type, MaterialType::Air);
    assert_eq!(res.palette.get(1).material_type, MaterialType::Concrete);
}

#[test]
fn document_import_builds_palette() {
    let doc = VoxDocument {
        models: vec![VoxModel { size: (2, 2, 2), voxels: vec![(1, 0, 0, 3), (1, 0, 0, 4)] }],
        palette: vec![(9, 9, 9, 255), (10, 20, 30, 255), (200, 0, 0, 255)],
    };
    let to_metal = |r: u8, _g: u8, _b: u8| if r > 100 { MaterialType::Metal } else { MaterialType::Wood };
    let res = import_vox_document(&doc, Some(&to_metal)).ok().expect("import");
    // the later voxel at the same cell wins
    assert_eq!(res.grid.get(1, 0, 0), Some(4));
    let e0 = res.palette.get(0);
    assert_eq!(e0.material_type, MaterialType::Air);
    let e1 = res.palette.get(1);
    assert_eq!((e1.r, e1.g, e1.b, e1.roughness, e1.emissive), (10, 20, 30, 128, 0));
    assert_eq!(e1.material_type, MaterialType::Wood);
    assert_eq!(res.palette.get(2).material_type, MaterialType::Metal);
    assert_eq!(res.palette.get(3).material_type, MaterialType::Air);

    let plain = import_vox_document(&doc, no_mapping()).ok().expect("import");
    assert_eq!(plain.palette.get(2).material_type, MaterialType::Concrete);
}

#[test]
fn document_without_models_is_rejected() {
    let doc = VoxDocument { models: vec![], palette: vec![] };
    assert!(matches!(import_vox_document(&doc, no_mapping()), Err(VoxImportError::NoModels)));
}

#[test]
fn oversized_model_is_rejected() {
    // 70000 x 70000 cells in one layer of the Y-up grid cannot be indexed
    let bytes = vox_file((70000, 1, 70000), &[]);
    assert!(matches!(load_vox(&bytes, no_mapping()), Err(VoxImportError::TooLarge)));
}
