use voxel_engine::render::config::RendererConfig;
use voxel_engine::scene::handle::EntityHandle;
use voxel_engine::voxel::material::{MaterialPalette, MaterialType, PaletteEntry};

#[test]
fn renderer_config_defaults() {
    let c = RendererConfig::default();
    assert_eq!((c.width, c.height, c.vsync, c.shadow_resolution), (1280, 720, true, 2048));
    assert!(c.debug_mode.is_none());
}

#[test]
fn entity_handle_accessors() {
    let h = EntityHandle { index: 7, generation: 3 };
    assert_eq!(h.slot_index(), 7);
    assert_eq!(h.generation(), 3);
}

#[test]
fn palette_entry_zero_stays_air() {
    let mut p = MaterialPalette::new();
    let red = PaletteEntry { r: 255, g: 0, b: 0, roughness: 10, emissive: 0, material_type: MaterialType::Brick };
    p.set(0, red);
    p.set(5, red);
    assert_eq!(p.get(0).material_type, MaterialType::Air);
    assert_eq!(p.get(5).material_type, MaterialType::Brick);
    let rgba = p.to_rgba();
    assert_eq!(rgba[0], [0, 0, 0, 0]);
    assert_eq!(rgba[5], [255, 0, 0, 255]);
    assert_eq!(rgba[6], [0, 0, 0, 255]);
}

#[test]
fn palette_set_leaves_other_entries_alone() {
    let mut p = MaterialPalette::new();
    let blue = PaletteEntry { r: 0, g: 0, b: 200, roughness: 3, emissive: 1, material_type: MaterialType::Ice };
    let green = PaletteEntry { r: 0, g: 180, b: 0, roughness: 7, emissive: 0, material_type: MaterialType::Dirt };
    p.set(4, blue);
    p.set(9, green);
    assert_eq!(p.get(4).material_type, MaterialType::Ice);
    assert_eq!(p.get(4).b, 200);
    assert_eq!(p.get(9).g, 180);
    assert_eq!(p.get(8).material_type, MaterialType::Air);
    assert_eq!(p.get(255).material_type, MaterialType::Air);
}
