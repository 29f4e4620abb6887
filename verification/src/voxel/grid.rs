use vstd::prelude::*;

verus! {

/// Linear position of cell `(x, y, z)` in a `w × h` layered layout
/// (x fastest, then y, then z).
pub open spec fn linear_index(w: int, h: int, x: int, y: int, z: int) -> int {
    (z * h + y) * w + x
}

/// The linear index of an in-range cell lies inside the volume, and the
/// cell's coordinates can be read back from it.
pub proof fn lemma_linear_index(w: int, h: int, d: int, x: int, y: int, z: int)
    requires
        0 <= x < w,
        0 <= y < h,
        0 <= z < d,
    ensures
        0 <= linear_index(w, h, x, y, z) < w * h * d,
        linear_index(w, h, x, y, z) % w == x,
        (linear_index(w, h, x, y, z) / w) % h == y,
        (linear_index(w, h, x, y, z) / w) / h == z,
        linear_index(w, h, x, y, z) == z * h * w + y * w + x,
{
    let i = linear_index(w, h, x, y, z);
    assert(0 <= z * h + y) by (nonlinear_arith)
        requires 0 <= y, 0 <= z, 0 < h;
    assert(z * h + y < h * d) by (nonlinear_arith)
        requires 0 <= y < h, 0 <= z < d;
    assert(0 <= (z * h + y) * w) by (nonlinear_arith)
        requires 0 <= z * h + y, 0 < w;
    assert((z * h + y) * w + x < w * h * d) by (nonlinear_arith)
        requires z * h + y < h * d, 0 <= x < w;
    assert(i == (z * h + y) * w + x);
    vstd::arithmetic::div_mod::lemma_fundamental_div_mod_converse(i, w, z * h + y, x);
    vstd::arithmetic::div_mod::lemma_fundamental_div_mod_converse(z * h + y, h, z, y);
    assert((z * h + y) * w + x == z * h * w + y * w + x) by (nonlinear_arith);
}

/// Distinct in-range cells have distinct linear indices.
pub proof fn lemma_linear_index_injective(
    w: int, h: int, d: int,
    x1: int, y1: int, z1: int,
    x2: int, y2: int, z2: int,
)
    requires
        0 <= x1 < w, 0 <= y1 < h, 0 <= z1 < d,
        0 <= x2 < w, 0 <= y2 < h, 0 <= z2 < d,
        linear_index(w, h, x1, y1, z1) == linear_index(w, h, x2, y2, z2),
    ensures
        x1 == x2 && y1 == y2 && z1 == z2,
{
    lemma_linear_index(w, h, d, x1, y1, z1);
    lemma_linear_index(w, h, d, x2, y2, z2);
}

/// Dense voxel grid stored as a flat byte vector. Value 0 is air (empty).
pub struct VoxelGrid {
    data: Vec<u8>,
    width: u32,
    height: u32,
    depth: u32,
}

impl VoxelGrid {
    pub closed spec fn spec_width(&self) -> u32 {
        self.width
    }

    pub closed spec fn spec_height(&self) -> u32 {
        self.height
    }

    pub closed spec fn spec_depth(&self) -> u32 {
        self.depth
    }

    /// All cells in layout order.
    pub closed spec fn cells(&self) -> Seq<u8> {
        self.data@
    }

    pub open spec fn volume(&self) -> int {
        self.spec_width() * self.spec_height() * self.spec_depth()
    }

    /// Well-formedness: one byte per cell, and the cell count fits in `u32`.
    pub open spec fn wf(&self) -> bool {
        &&& self.cells().len() == self.volume()
        &&& self.spec_width() * self.spec_height() <= u32::MAX
        &&& self.volume() <= u32::MAX
    }

    pub open spec fn in_bounds(&self, x: int, y: int, z: int) -> bool {
        &&& 0 <= x < self.spec_width()
        &&& 0 <= y < self.spec_height()
        &&& 0 <= z < self.spec_depth()
    }

    pub open spec fn index_of(&self, x: int, y: int, z: int) -> int {
        linear_index(self.spec_width() as int, self.spec_height() as int, x, y, z)
    }

    /// The value stored at an in-range cell.
    pub open spec fn cell(&self, x: int, y: int, z: int) -> u8 {
        self.cells()[self.index_of(x, y, z)]
    }

    /// What `get` returns: the cell value in range, nothing outside.
    pub open spec fn spec_get(&self, x: int, y: int, z: int) -> Option<u8> {
        if self.in_bounds(x, y, z) {
            Some(self.cell(x, y, z))
        } else {
            None
        }
    }

    /// An in-range, non-air cell.
    pub open spec fn filled(&self, x: int, y: int, z: int) -> bool {
        self.in_bounds(x, y, z) && self.cell(x, y, z) != 0
    }

    /// The test `get(x, y, z) != Some(0)`: true for non-air cells and for
    /// every position outside the grid.
    pub open spec fn not_air(&self, x: int, y: int, z: int) -> bool {
        self.spec_get(x, y, z) != Some(0u8)
    }

    /// A grid of the given dimensions whose every cell is air.
    pub fn new(width: u32, height: u32, depth: u32) -> (g: Self)
        requires
            width * height <= u32::MAX,
            width * height * depth <= u32::MAX,
        ensures
            g.wf(),
            g.spec_width() == width,
            g.spec_height() == height,
            g.spec_depth() == depth,
            forall|i: int| 0 <= i < g.volume() ==> #[trigger] g.cells()[i] == 0u8,
    {
        let n: u32 = width * height * depth;
        let data: Vec<u8> = vec![0u8; n as usize];
        VoxelGrid { data, width, height, depth }
    }

    pub fn dimensions(&self) -> (r: (u32, u32, u32))
        ensures
            r == (self.spec_width(), self.spec_height(), self.spec_depth()),
    {
        (self.width, self.height, self.depth)
    }

    fn index(&self, x: u32, y: u32, z: u32) -> (r: Option<usize>)
        requires
            self.wf(),
        ensures
            match r {
                Some(i) => self.in_bounds(x as int, y as int, z as int) && i == self.index_of(
                    x as int,
                    y as int,
                    z as int,
                ) && i < self.cells().len(),
                None => !self.in_bounds(x as int, y as int, z as int),
            },
    {
        if x < self.width && y < self.height && z < self.depth {
            proof {
                lemma_linear_index(
                    self.width as int,
                    self.height as int,
                    self.depth as int,
                    x as int,
                    y as int,
                    z as int,
                );
                assert(self.width * self.height * self.depth == self.depth * self.height
                    * self.width) by (nonlinear_arith);
                assert(z * self.height <= self.depth * self.height) by (nonlinear_arith)
                    requires z < self.depth;
                assert(z * self.height * self.width <= self.depth * self.height * self.width)
                    by (nonlinear_arith)
                    requires z * self.height <= self.depth * self.height;
                assert(y * self.width <= self.height * self.width) by (nonlinear_arith)
                    requires y < self.height;
                assert(z * self.height <= z * self.height * self.width) by (nonlinear_arith)
                    requires self.width >= 1;
                assert(z * self.height * self.width + y * self.width + x < u32::MAX);
                assert(z * self.height * self.width + y * self.width < u32::MAX);
            }
            Some((z * self.height * self.width + y * self.width + x) as usize)
        } else {
            None
        }
    }

    /// Position of the in-range cell `(x, y, z)` in `data()`.
    pub fn cell_index(&self, x: u32, y: u32, z: u32) -> (r: usize)
        requires
            self.wf(),
            self.in_bounds(x as int, y as int, z as int),
        ensures
            r == self.index_of(x as int, y as int, z as int),
            r < self.cells().len(),
    {
        self.index(x, y, z).unwrap()
    }

    /// The value at `(x, y, z)`, or `None` outside the grid.
    pub fn get(&self, x: u32, y: u32, z: u32) -> (r: Option<u8>)
        requires
            self.wf(),
        ensures
            r == self.spec_get(x as int, y as int, z as int),
    {
        match self.index(x, y, z) {
            Some(i) => Some(self.data[i]),
            None => None,
        }
    }

    /// Writes `value` at `(x, y, z)`; positions outside the grid are ignored.
    pub fn set(&mut self, x: u32, y: u32, z: u32, value: u8)
        requires
            old(self).wf(),
        ensures
            final(self).wf(),
            final(self).spec_width() == old(self).spec_width(),
            final(self).spec_height() == old(self).spec_height(),
            final(self).spec_depth() == old(self).spec_depth(),
            final(self).cells() == (if old(self).in_bounds(x as int, y as int, z as int) {
                old(self).cells().update(old(self).index_of(x as int, y as int, z as int), value)
            } else {
                old(self).cells()
            }),
    {
        match self.index(x, y, z) {
            Some(i) => {
                self.data.set(i, value);
            },
            None => {},
        }
    }

    /// Number of non-air cells.
    pub fn count_nonempty(&self) -> (r: usize)
        requires
            self.wf(),
        ensures
            r == count_nonzero(self.cells()),
    {
        let mut count: usize = 0;
        let mut i: usize = 0;
        while i < self.data.len()
            invariant
                i <= self.data.len(),
                self.data.len() <= u32::MAX,
                count == count_nonzero(self.data@.take(i as int)),
                count <= i,
            decreases self.data.len() - i,
        {
            proof {
                assert(self.data@.take(i as int + 1).drop_last() == self.data@.take(i as int));
            }
            if self.data[i] != 0 {
                count = count + 1;
            }
            i = i + 1;
        }
        proof {
            assert(self.data@.take(i as int) == self.data@);
        }
        count
    }

    /// Some cell of the grid is non-air.
    pub open spec fn any_filled(&self) -> bool {
        exists|x: int, y: int, z: int| self.filled(x, y, z)
    }

    /// `(mn, mx)` is the tightest box around the non-air cells: every non-air
    /// cell lies in it, and each of its six faces touches a non-air cell.
    pub open spec fn is_filled_bbox(&self, mn: (u32, u32, u32), mx: (u32, u32, u32)) -> bool {
        &&& forall|x: int, y: int, z: int|
            #![trigger self.filled(x, y, z)]
            self.filled(x, y, z) ==> mn.0 <= x <= mx.0 && mn.1 <= y <= mx.1 && mn.2 <= z <= mx.2
        &&& exists|y: int, z: int| self.filled(mn.0 as int, y, z)
        &&& exists|y: int, z: int| self.filled(mx.0 as int, y, z)
        &&& exists|x: int, z: int| self.filled(x, mn.1 as int, z)
        &&& exists|x: int, z: int| self.filled(x, mx.1 as int, z)
        &&& exists|x: int, y: int| self.filled(x, y, mn.2 as int)
        &&& exists|x: int, y: int| self.filled(x, y, mx.2 as int)
    }

    /// The cell `(x, y, z)` is non-air and precedes `(cx, cy, cz)` in scan
    /// order (z outermost, x innermost).
    spec fn seen_filled(&self, x: int, y: int, z: int, cx: int, cy: int, cz: int) -> bool {
        self.filled(x, y, z) && (z < cz || (z == cz && (y < cy || (y == cy && x < cx))))
    }

    /// Scan state of `bounding_box_of_nonempty` before visiting `(cx, cy, cz)`;
    /// `w` holds a witness cell for each of the six faces.
    spec fn bbox_scan(
        &self,
        found: bool,
        mn: (u32, u32, u32),
        mx: (u32, u32, u32),
        w: Seq<(int, int, int)>,
        cx: int,
        cy: int,
        cz: int,
    ) -> bool {
        &&& w.len() == 6
        &&& found ==> {
            &&& self.seen_filled(w[0].0, w[0].1, w[0].2, cx, cy, cz) && w[0].0 == mn.0
            &&& self.seen_filled(w[1].0, w[1].1, w[1].2, cx, cy, cz) && w[1].0 == mx.0
            &&& self.seen_filled(w[2].0, w[2].1, w[2].2, cx, cy, cz) && w[2].1 == mn.1
            &&& self.seen_filled(w[3].0, w[3].1, w[3].2, cx, cy, cz) && w[3].1 == mx.1
            &&& self.seen_filled(w[4].0, w[4].1, w[4].2, cx, cy, cz) && w[4].2 == mn.2
            &&& self.seen_filled(w[5].0, w[5].1, w[5].2, cx, cy, cz) && w[5].2 == mx.2
            &&& forall|x: int, y: int, z: int|
                #![trigger self.filled(x, y, z)]
                self.seen_filled(x, y, z, cx, cy, cz) ==> mn.0 <= x <= mx.0 && mn.1 <= y <= mx.1
                    && mn.2 <= z <= mx.2
        }
        &&& !found ==> forall|x: int, y: int, z: int|
            #![trigger self.filled(x, y, z)]
            !self.seen_filled(x, y, z, cx, cy, cz)
    }

    /// The smallest box `(min, max)` (inclusive corners) holding every non-air
    /// cell, or `None` when the grid is all air.
    pub fn bounding_box_of_nonempty(&self) -> (r: Option<((u32, u32, u32), (u32, u32, u32))>)
        requires
            self.wf(),
        ensures
            match r {
                Some((mn, mx)) => self.is_filled_bbox(mn, mx),
                None => !self.any_filled(),
            },
    {
        let mut min: (u32, u32, u32) = (self.width, self.height, self.depth);
        let mut max: (u32, u32, u32) = (0u32, 0u32, 0u32);
        let mut found = false;
        let ghost mut wit: Seq<(int, int, int)> = seq![(0, 0, 0), (0, 0, 0), (0, 0, 0), (0, 0, 0), (0, 0, 0), (0, 0, 0)];

        let mut z: u32 = 0;
        while z < self.depth
            invariant
                self.wf(),
                z <= self.depth,
                self.bbox_scan(found, min, max, wit, 0, 0, z as int),
            decreases self.depth - z,
        {
            let mut y: u32 = 0;
            while y < self.height
                invariant
                    self.wf(),
                    z < self.depth,
                    y <= self.height,
                    self.bbox_scan(found, min, max, wit, 0, y as int, z as int),
                decreases self.height - y,
            {
                let mut x: u32 = 0;
                while x < self.width
                    invariant
                        self.wf(),
                        z < self.depth,
                        y < self.height,
                        x <= self.width,
                        self.bbox_scan(found, min, max, wit, x as int, y as int, z as int),
                    decreases self.width - x,
                {
                    if self.get(x, y, z) != Some(0u8) {
                        let ghost p = (x as int, y as int, z as int);
                        if !found {
                            proof {
                                wit = seq![p, p, p, p, p, p];
                            }
                            min = (x, y, z);
                            max = (x, y, z);
                        } else {
                            if x < min.0 {
                                min.0 = x;
                                proof { wit = wit.update(0, p); }
                            }
                            if y < min.1 {
                                min.1 = y;
                                proof { wit = wit.update(2, p); }
                            }
                            if z < min.2 {
                                min.2 = z;
                                proof { wit = wit.update(4, p); }
                            }
                            if x > max.0 {
                                max.0 = x;
                                proof { wit = wit.update(1, p); }
                            }
                            if y > max.1 {
                                max.1 = y;
                                proof { wit = wit.update(3, p); }
                            }
                            if z > max.2 {
                                max.2 = z;
                                proof { wit = wit.update(5, p); }
                            }
                        }
                        found = true;
                    }
                    x = x + 1;
                }
                y = y + 1;
            }
            z = z + 1;
        }
        if found {
            proof {
                assert forall|x: int, y: int, z: int|
                    #![trigger self.filled(x, y, z)]
                    self.filled(x, y, z) implies min.0 <= x <= max.0 && min.1 <= y <= max.1
                        && min.2 <= z <= max.2 by {
                    assert(self.seen_filled(x, y, z, 0, 0, self.depth as int));
                }
            }
            Some((min, max))
        } else {
            None
        }
    }

    /// The bytes of the grid in layout order.
    pub fn data(&self) -> (r: &[u8])
        ensures
            r@ == self.cells(),
    {
        self.data.as_slice()
    }
}

/// What a read gives back after a write: once `set(x, y, z, value)` has
/// turned `before` into `after` (the cells as `set` leaves them), `get`
/// at the written in-range cell gives `value`, and at every other position
/// what it gave before.
pub proof fn lemma_get_after_set(
    before: VoxelGrid,
    after: VoxelGrid,
    x: u32,
    y: u32,
    z: u32,
    value: u8,
    a: int,
    b: int,
    c: int,
)
    requires
        before.wf(),
        after.spec_width() == before.spec_width(),
        after.spec_height() == before.spec_height(),
        after.spec_depth() == before.spec_depth(),
        after.cells() == (if before.in_bounds(x as int, y as int, z as int) {
            before.cells().update(before.index_of(x as int, y as int, z as int), value)
        } else {
            before.cells()
        }),
    ensures
        after.spec_get(a, b, c) == (if before.in_bounds(x as int, y as int, z as int) && a == x && b == y && c == z {
            Some(value)
        } else {
            before.spec_get(a, b, c)
        }),
{
    let w = before.spec_width() as int;
    let h = before.spec_height() as int;
    let d = before.spec_depth() as int;
    if before.in_bounds(a, b, c) {
        lemma_linear_index(w, h, d, a, b, c);
        if before.in_bounds(x as int, y as int, z as int) {
            lemma_linear_index(w, h, d, x as int, y as int, z as int);
            if !(a == x && b == y && c == z) {
                if before.index_of(a, b, c) == before.index_of(x as int, y as int, z as int) {
                    lemma_linear_index_injective(w, h, d, a, b, c, x as int, y as int, z as int);
                }
            }
        }
    }
}

/// Number of non-zero entries of a byte sequence.
pub open spec fn count_nonzero(s: Seq<u8>) -> nat
    decreases s.len(),
{
    if s.len() == 0 {
        0
    } else {
        count_nonzero(s.drop_last()) + (if s.last() != 0 { 1nat } else { 0nat })
    }
}

/// Clearing a non-zero entry lowers the count by one.
pub proof fn lemma_count_nonzero_clear(s: Seq<u8>, i: int)
    requires
        0 <= i < s.len(),
        s[i] != 0,
    ensures
        count_nonzero(s.update(i, 0u8)) + 1 == count_nonzero(s),
    decreases s.len(),
{
    if i < s.len() - 1 {
        assert(s.update(i, 0u8).drop_last() == s.drop_last().update(i, 0u8));
        lemma_count_nonzero_clear(s.drop_last(), i);
    } else {
        assert(s.update(i, 0u8).drop_last() == s.drop_last());
    }
}

pub proof fn lemma_count_nonzero_le(s: Seq<u8>)
    ensures
        count_nonzero(s) <= s.len(),
    decreases s.len(),
{
    if s.len() > 0 {
        lemma_count_nonzero_le(s.drop_last());
    }
}

} // verus!
