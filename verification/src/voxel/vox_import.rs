use vstd::prelude::*;
use crate::voxel::grid::{VoxelGrid, lemma_linear_index_injective, lemma_linear_index};
use crate::voxel::material::{MaterialPalette, MaterialType, PaletteEntry, air_entry};

verus! {

/// One model of a MagicaVoxel file: its size `(x, y, z)` (Z up) and its
/// voxels `(x, y, z, palette index)`.
pub struct VoxModel {
    pub size: (u32, u32, u32),
    pub voxels: Vec<(u8, u8, u8, u8)>,
}

/// The parts of a MagicaVoxel file that an import reads: the models and the
/// palette colours `(r, g, b, a)`.
pub struct VoxDocument {
    pub models: Vec<VoxModel>,
    pub palette: Vec<(u8, u8, u8, u8)>,
}

impl View for VoxModel {
    type V = ((u32, u32, u32), Seq<(u8, u8, u8, u8)>);

    open spec fn view(&self) -> ((u32, u32, u32), Seq<(u8, u8, u8, u8)>) {
        (self.size, self.voxels@)
    }
}

impl View for VoxDocument {
    type V = (Seq<((u32, u32, u32), Seq<(u8, u8, u8, u8)>)>, Seq<(u8, u8, u8, u8)>);

    open spec fn view(&self) -> (Seq<((u32, u32, u32), Seq<(u8, u8, u8, u8)>)>, Seq<(u8, u8, u8, u8)>) {
        (self.models@.map_values(|m: VoxModel| m@), self.palette@)
    }
}

/// The document `dot_vox::load_bytes` reads from `data`, or `None` where it
/// rejects the bytes.
pub uninterp spec fn vox_parse(data: Seq<u8>) -> Option<(Seq<((u32, u32, u32), Seq<(u8, u8, u8, u8)>)>, Seq<(u8, u8, u8, u8)>)>;

/// Parses MagicaVoxel bytes with `dot_vox::load_bytes` and copies out each
/// model's size and voxels and the palette colours, field for field. The
/// contract names the outcome: it depends on the bytes alone. A rejection
/// carries dot_vox's one fixed message, which is not kept.
#[verifier::external_body]
fn parse_vox(data: &[u8]) -> (r: Option<VoxDocument>)
    ensures
        match r {
            Some(d) => vox_parse(data@) == Some(d@),
            None => vox_parse(data@) is None,
        },
{
    match dot_vox::load_bytes(data) {
        Ok(v) => Some(VoxDocument {
            models: v.models.iter().map(|m| VoxModel {
                size: (m.size.x, m.size.y, m.size.z),
                voxels: m.voxels.iter().map(|p| (p.x, p.y, p.z, p.i)).collect(),
            }).collect(),
            palette: v.palette.iter().map(|c| (c.r, c.g, c.b, c.a)).collect(),
        }),
        Err(_) => None,
    }
}

/// Why a .vox import failed.
#[derive(Debug, Clone, Copy, PartialEq, Eq, Structural)]
pub enum VoxImportError {
    /// The bytes are not a MagicaVoxel file.
    Parse,
    /// The file holds no model.
    NoModels,
    /// The first model has more cells than a grid can index.
    TooLarge,
}

/// Result of loading a .vox file.
pub struct VoxImportResult {
    pub grid: VoxelGrid,
    pub palette: MaterialPalette,
}

/// A model of size `s` (Z up) fits a Y-up grid of `s.x × s.z × s.y` cells.
pub open spec fn grid_fits(s: (u32, u32, u32)) -> bool {
    s.0 * s.2 <= u32::MAX && s.0 * s.2 * s.1 <= u32::MAX
}

/// The value grid cell `(x, y, z)` (Y up) takes from `voxels` (Z up): the
/// index of the last voxel placed there, or air.
pub open spec fn vox_cell(voxels: Seq<(u8, u8, u8, u8)>, x: int, y: int, z: int) -> u8
    decreases voxels.len(),
{
    if voxels.len() == 0 {
        0
    } else {
        let v = voxels.last();
        if v.0 == x && v.2 == y && v.1 == z {
            v.3
        } else {
            vox_cell(voxels.drop_last(), x, y, z)
        }
    }
}

/// `grid` holds the first model of `doc`, axes swapped from Z up to Y up.
pub open spec fn imports_grid(
    doc: (Seq<((u32, u32, u32), Seq<(u8, u8, u8, u8)>)>, Seq<(u8, u8, u8, u8)>),
    grid: VoxelGrid,
) -> bool {
    let (size, voxels) = doc.0[0];
    &&& grid.wf()
    &&& grid.spec_width() == size.0
    &&& grid.spec_height() == size.2
    &&& grid.spec_depth() == size.1
    &&& forall|x: int, y: int, z: int| #[trigger] grid.in_bounds(x, y, z) ==> grid.cell(x, y, z) == vox_cell(voxels, x, y, z)
}

/// `palette` holds colours `1 .. min(len, 256)` of `doc` with rough 128,
/// not emissive, and a material that `material_ok` accepts; every other
/// entry is air.
pub open spec fn imports_palette(
    colors: Seq<(u8, u8, u8, u8)>,
    palette: MaterialPalette,
    material_ok: spec_fn((u8, u8, u8, u8), MaterialType) -> bool,
) -> bool {
    &&& palette.spec_entries().len() == 256
    &&& palette.spec_entries()[0] == air_entry()
    &&& forall|i: int| 1 <= i < 256 && i < colors.len() ==> {
        let e = #[trigger] palette.spec_entries()[i];
        &&& e.r == colors[i].0
        &&& e.g == colors[i].1
        &&& e.b == colors[i].2
        &&& e.roughness == 128
        &&& e.emissive == 0
        &&& material_ok(colors[i], e.material_type)
    }
    &&& forall|i: int| colors.len() <= i < 256 ==> #[trigger] palette.spec_entries()[i] == air_entry()
}

/// What material the import gives colour `c`: `f`'s answer where a mapping
/// is given, else concrete.
pub open spec fn material_for<F: Fn(u8, u8, u8) -> MaterialType>(f: Option<&F>, c: (u8, u8, u8, u8), m: MaterialType) -> bool {
    match f {
        Some(f) => f.ensures((c.0, c.1, c.2), m),
        None => m == MaterialType::Concrete,
    }
}

/// Builds the import of a parsed document: the first model becomes the
/// grid, with MagicaVoxel's Z-up axes swapped to Y up, and palette colours
/// `1 ..= 255` become palette entries whose material `color_to_material`
/// picks (concrete when none is given).
pub fn import_vox_document<F: Fn(u8, u8, u8) -> MaterialType>(
    doc: &VoxDocument,
    color_to_material: Option<&F>,
) -> (r: Result<VoxImportResult, VoxImportError>)
    requires
        doc.models@.len() > 0 ==> grid_fits(doc.models@[0].size),
        color_to_material matches Some(f) ==> forall|r: u8, g: u8, b: u8| f.requires((r, g, b)),
    ensures
        doc.models@.len() == 0 <==> r == Err::<VoxImportResult, VoxImportError>(VoxImportError::NoModels),
        r matches Ok(res) ==> imports_grid(doc@, res.grid) && imports_palette(
            doc.palette@,
            res.palette,
            |c: (u8, u8, u8, u8), m: MaterialType| material_for(color_to_material, c, m),
        ),
        r is Err ==> r == Err::<VoxImportResult, VoxImportError>(VoxImportError::NoModels),
{
    if doc.models.len() == 0 {
        return Err(VoxImportError::NoModels);
    }
    let model = &doc.models[0];
    let size = model.size;
    let mut grid = VoxelGrid::new(size.0, size.2, size.1);
    let ghost voxels = model.voxels@;
    proof {
        assert forall|x: int, y: int, z: int| #[trigger] grid.in_bounds(x, y, z) implies grid.cell(x, y, z) == vox_cell(
            voxels.take(0),
            x,
            y,
            z,
        ) by {
            lemma_linear_index(size.0 as int, size.2 as int, size.1 as int, x, y, z);
        }
    }
    let mut k: usize = 0;
    while k < model.voxels.len()
        invariant
            voxels == model.voxels@,
            grid.wf(),
            grid.spec_width() == size.0,
            grid.spec_height() == size.2,
            grid.spec_depth() == size.1,
            k <= voxels.len(),
            forall|x: int, y: int, z: int| #[trigger] grid.in_bounds(x, y, z) ==> grid.cell(x, y, z) == vox_cell(
                voxels.take(k as int),
                x,
                y,
                z,
            ),
        decreases voxels.len() - k,
    {
        let v = model.voxels[k];
        let ghost before = grid;
        grid.set(v.0 as u32, v.2 as u32, v.1 as u32, v.3);
        proof {
            let pre = voxels.take(k as int);
            let pre1 = voxels.take(k + 1);
            assert(pre1.drop_last() =~= pre);
            assert(pre1.last() == v);
            let (w, h, d) = (size.0 as int, size.2 as int, size.1 as int);
            let (vx, vy, vz) = (v.0 as int, v.2 as int, v.1 as int);
            assert forall|x: int, y: int, z: int| #[trigger] grid.in_bounds(x, y, z) implies grid.cell(x, y, z) == vox_cell(pre1, x, y, z) by {
                lemma_linear_index(w, h, d, x, y, z);
                assert(before.in_bounds(x, y, z));
                if before.in_bounds(vx, vy, vz) {
                    let iv = before.index_of(vx, vy, vz);
                    assert(grid.cells() == before.cells().update(iv, v.3));
                    if vx == x && vy == y && vz == z {
                        assert(before.index_of(x, y, z) == iv);
                        assert(grid.cell(x, y, z) == v.3);
                    } else {
                        lemma_linear_index(w, h, d, vx, vy, vz);
                        if before.index_of(x, y, z) == iv {
                            lemma_linear_index_injective(w, h, d, x, y, z, vx, vy, vz);
                        }
                        assert(grid.cell(x, y, z) == before.cell(x, y, z));
                    }
                } else {
                    assert(grid.cells() == before.cells());
                    assert(!(vx == x && vy == y && vz == z));
                    assert(grid.cell(x, y, z) == before.cell(x, y, z));
                }
            }
        }
        k = k + 1;
    }
    proof {
        assert(voxels.take(k as int) =~= voxels);
    }
    let mut palette = MaterialPalette::new();
    let mut i: usize = 1;
    while i < doc.palette.len() && i < 256
        invariant
            1 <= i <= 256,
            color_to_material matches Some(f) ==> forall|r: u8, g: u8, b: u8| f.requires((r, g, b)),
            palette.spec_entries().len() == 256,
            palette.spec_entries()[0] == air_entry(),
            forall|j: int| 1 <= j < i && j < doc.palette@.len() ==> {
                let e = #[trigger] palette.spec_entries()[j];
                &&& e.r == doc.palette@[j].0
                &&& e.g == doc.palette@[j].1
                &&& e.b == doc.palette@[j].2
                &&& e.roughness == 128
                &&& e.emissive == 0
                &&& material_for(color_to_material, doc.palette@[j], e.material_type)
            },
            forall|j: int| (i <= j < 256 || doc.palette@.len() <= j < 256) && j != 0 ==> #[trigger] palette.spec_entries()[j] == air_entry(),
        decreases 256 - i,
    {
        let c = doc.palette[i];
        let m = match color_to_material {
            Some(f) => f(c.0, c.1, c.2),
            None => MaterialType::Concrete,
        };
        palette.set(i as u8, PaletteEntry { r: c.0, g: c.1, b: c.2, roughness: 128, emissive: 0, material_type: m });
        i = i + 1;
    }
    Ok(VoxImportResult { grid, palette })
}

/// Load a MagicaVoxel .vox file from bytes: the bytes are parsed, then the
/// first model becomes the grid (Z up swapped to Y up) and the palette
/// colours become palette entries whose material `color_to_material` picks
/// (concrete when none is given).
pub fn load_vox<F: Fn(u8, u8, u8) -> MaterialType>(
    data: &[u8],
    color_to_material: Option<&F>,
) -> (r: Result<VoxImportResult, VoxImportError>)
    requires
        color_to_material matches Some(f) ==> forall|r: u8, g: u8, b: u8| f.requires((r, g, b)),
    ensures
        match vox_parse(data@) {
            None => r == Err::<VoxImportResult, VoxImportError>(VoxImportError::Parse),
            Some(doc) => if doc.0.len() == 0 {
                r == Err::<VoxImportResult, VoxImportError>(VoxImportError::NoModels)
            } else if !grid_fits(doc.0[0].0) {
                r == Err::<VoxImportResult, VoxImportError>(VoxImportError::TooLarge)
            } else {
                r matches Ok(res) && imports_grid(doc, res.grid) && imports_palette(
                    doc.1,
                    res.palette,
                    |c: (u8, u8, u8, u8), m: MaterialType| material_for(color_to_material, c, m),
                )
            },
        },
{
    match parse_vox(data) {
        None => Err(VoxImportError::Parse),
        Some(doc) => {
            if doc.models.len() == 0 {
                return Err(VoxImportError::NoModels);
            }
            let size = doc.models[0].size;
            proof {
                assert(size.0 * size.2 <= 0xffff_ffff * 0xffff_ffff) by (nonlinear_arith)
                    requires size.0 <= 0xffff_ffff, size.2 <= 0xffff_ffff;
            }
            let wh: u64 = (size.0 as u64) * (size.2 as u64);
            if wh > u32::MAX as u64 {
                return Err(VoxImportError::TooLarge);
            }
            proof {
                assert(wh * size.1 <= 0xffff_ffff * 0xffff_ffff) by (nonlinear_arith)
                    requires wh <= 0xffff_ffff, size.1 <= 0xffff_ffff;
            }
            if wh * (size.1 as u64) > u32::MAX as u64 {
                return Err(VoxImportError::TooLarge);
            }
            import_vox_document(&doc, color_to_material)
        },
    }
}

} // verus!
