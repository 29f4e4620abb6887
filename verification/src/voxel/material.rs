use vstd::prelude::*;

verus! {

/// Material of a voxel palette entry.
#[derive(Debug, Clone, Copy, PartialEq, Eq, Structural)]
pub enum MaterialType {
    Air,
    Wood,
    Metal,
    Glass,
    Concrete,
    Brick,
    Stone,
    Plite,
    Dirt,
    Sand,
    Plastic,
    Foliage,
    Rubber,
    Ice,
}

/// Appearance and material of one palette index.
#[derive(Debug, Clone, Copy)]
pub struct PaletteEntry {
    pub r: u8,
    pub g: u8,
    pub b: u8,
    pub roughness: u8,
    pub emissive: u8,
    pub material_type: MaterialType,
}

/// The air entry: black, rough 0, not emissive.
pub open spec fn air_entry() -> PaletteEntry {
    PaletteEntry { r: 0, g: 0, b: 0, roughness: 0, emissive: 0, material_type: MaterialType::Air }
}

impl Default for PaletteEntry {
    fn default() -> (e: Self)
        ensures
            e == air_entry(),
    {
        PaletteEntry { r: 0, g: 0, b: 0, roughness: 0, emissive: 0, material_type: MaterialType::Air }
    }
}

/// The 256 entries of a voxel palette; entry 0 is always air.
#[derive(Clone)]
pub struct MaterialPalette {
    entries: [PaletteEntry; 256],
}

impl MaterialPalette {
    pub closed spec fn spec_entries(&self) -> Seq<PaletteEntry> {
        self.entries@
    }

    /// A palette whose every entry is air.
    pub fn new() -> (p: Self)
        ensures
            p.spec_entries().len() == 256,
            forall|i: int| 0 <= i < 256 ==> #[trigger] p.spec_entries()[i] == air_entry(),
    {
        let e = PaletteEntry::default();
        MaterialPalette { entries: [e; 256] }
    }

    /// Every palette has 256 entries.
    pub proof fn lemma_len(&self)
        ensures
            self.spec_entries().len() == 256,
    {
    }

    pub fn get(&self, index: u8) -> (e: &PaletteEntry)
        ensures
            self.spec_entries().len() == 256,
            *e == self.spec_entries()[index as int],
    {
        &self.entries[index as usize]
    }

    /// Replaces entry `index`; entry 0 stays air and is never replaced.
    pub fn set(&mut self, index: u8, entry: PaletteEntry)
        ensures
            final(self).spec_entries().len() == 256,
            final(self).spec_entries() == (if index == 0 {
                old(self).spec_entries()
            } else {
                old(self).spec_entries().update(index as int, entry)
            }),
    {
        if index == 0 {
            return;
        }
        self.entries[index as usize] = entry;
    }

    /// RGBA colours for upload: entry `i` becomes `[r, g, b, 255]` for
    /// `i >= 1`; slot 0 is transparent black.
    pub fn to_rgba(&self) -> (rgba: [[u8; 4]; 256])
        ensures
            rgba@[0]@ == seq![0u8, 0u8, 0u8, 0u8],
            forall|i: int|
                1 <= i < 256 ==> #[trigger] rgba@[i]@ == seq![
                    self.spec_entries()[i].r,
                    self.spec_entries()[i].g,
                    self.spec_entries()[i].b,
                    255u8,
                ],
    {
        let mut rgba = [[0u8; 4]; 256];
        let mut i: usize = 1;
        while i < 256
            invariant
                1 <= i <= 256,
                self.entries@.len() == 256,
                rgba@.len() == 256,
                rgba@[0]@ == seq![0u8, 0u8, 0u8, 0u8],
                forall|j: int|
                    1 <= j < i ==> #[trigger] rgba@[j]@ == seq![
                        self.entries@[j].r,
                        self.entries@[j].g,
                        self.entries@[j].b,
                        255u8,
                    ],
            decreases 256 - i,
        {
            let e = &self.entries[i];
            let px: [u8; 4] = [e.r, e.g, e.b, 255];
            proof {
                assert(px@ == seq![e.r, e.g, e.b, 255u8]);
            }
            rgba[i] = px;
            i = i + 1;
        }
        rgba
    }
}

/// Entry 0 is always air: a palette made by `new` starts with air there,
/// and `set`, whatever it is given, leaves entry 0 as it was.
pub proof fn lemma_entry_zero_stays_air(before: MaterialPalette, after: MaterialPalette, index: u8, entry: PaletteEntry)
    requires
        before.spec_entries()[0] == air_entry(),
        after.spec_entries() == (if index == 0 {
            before.spec_entries()
        } else {
            before.spec_entries().update(index as int, entry)
        }),
    ensures
        after.spec_entries().len() == 256,
        after.spec_entries()[0] == air_entry(),
{
    before.lemma_len();
}

/// Setting entry `index` changes what `get` gives for that index alone, to
/// the entry given, and for no index at all when `index` is 0.
pub proof fn lemma_set_changes_one_entry(before: MaterialPalette, after: MaterialPalette, index: u8, entry: PaletteEntry)
    requires
        after.spec_entries() == (if index == 0 {
            before.spec_entries()
        } else {
            before.spec_entries().update(index as int, entry)
        }),
    ensures
        forall|i: u8| i != index || index == 0 ==> #[trigger] after.spec_entries()[i as int] == before.spec_entries()[i as int],
        index != 0 ==> after.spec_entries()[index as int] == entry,
{
    before.lemma_len();
}

} // verus!
