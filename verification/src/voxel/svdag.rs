use vstd::prelude::*;
use crate::voxel::grid::VoxelGrid;

verus! {

/// A node of the sparse voxel DAG: a leaf holds the 2×2×2 occupancy bitmask
/// (bit `z * 4 + y * 2 + x`), an internal node the indices of its 8 children
/// (child `x + y * 2 + z * 4` for the upper/lower half along each axis).
pub enum SvdagNode {
    Leaf(u8),
    Internal([u32; 8]),
}

/// Sparse voxel directed acyclic graph: an octree whose equal subtrees are
/// stored once.
pub struct Svdag {
    nodes: Vec<SvdagNode>,
    root: u32,
    grid_size: u32,
}

/// Bit `b` of `mask` is set.
pub open spec fn mask_bit(mask: u8, b: u32) -> bool {
    (mask >> b) & 1u8 != 0u8
}

pub open spec fn is_pow2(n: int) -> bool
    decreases n,
{
    if n <= 0 {
        false
    } else if n == 1 {
        true
    } else {
        n % 2 == 0 && is_pow2(n / 2)
    }
}

/// Which child of a node of side `size` holds local position `(x, y, z)`.
pub open spec fn child_slot(x: int, y: int, z: int, half: int) -> int {
    (if x >= half { 1int } else { 0int }) + (if y >= half { 2int } else { 0int }) + (if z >= half { 4int } else { 0int })
}

/// Node `idx` describes a cube of side `size`: leaves sit at side 2, internal
/// nodes above it with well-formed children of half the side.
pub open spec fn wf_node(nodes: Seq<SvdagNode>, idx: int, size: int) -> bool
    decreases size,
{
    if !(0 <= idx < nodes.len()) || size < 2 {
        false
    } else {
        match nodes[idx] {
            SvdagNode::Leaf(_) => size == 2,
            SvdagNode::Internal(ch) => size > 2 && size % 2 == 0 && forall|i: int|
                #![trigger ch@[i]]
                0 <= i < 8 ==> wf_node(nodes, ch@[i] as int, size / 2),
        }
    }
}

/// Whether the local position `(x, y, z)` of the cube of node `idx` (side
/// `size`) is solid, read the way a query descends.
pub open spec fn occupied(nodes: Seq<SvdagNode>, idx: int, size: int, x: int, y: int, z: int) -> bool
    decreases size,
{
    if !(0 <= idx < nodes.len()) || size < 2 {
        false
    } else {
        match nodes[idx] {
            SvdagNode::Leaf(mask) => mask_bit(mask, ((z % 2) * 4 + (y % 2) * 2 + (x % 2)) as u32),
            SvdagNode::Internal(ch) => {
                let half = size / 2;
                let c = child_slot(x, y, z, half);
                occupied(
                    nodes,
                    ch@[c] as int,
                    half,
                    x - (if x >= half { half } else { 0 }),
                    y - (if y >= half { half } else { 0 }),
                    z - (if z >= half { half } else { 0 }),
                )
            },
        }
    }
}

/// Upper bound on the nodes a build of side `size` can add.
pub open spec fn build_calls(size: int) -> int
    decreases size,
{
    if size <= 2 {
        1
    } else {
        1 + 8 * build_calls(size / 2)
    }
}

proof fn lemma_build_calls_cube(size: int)
    requires
        size >= 2,
        is_pow2(size),
    ensures
        7 * build_calls(size) + 1 == size * size * size,
    decreases size,
{
    if size > 2 {
        let h = size / 2;
        assert(is_pow2(h));
        assert(h >= 2) by {
            if h < 2 {
                assert(h == 1);
                assert(size == 2);
            }
        }
        lemma_build_calls_cube(h);
        assert(size == 2 * h);
        assert(size * size * size == 8 * (h * h * h)) by (nonlinear_arith)
            requires size == 2 * h;
    }
}

proof fn lemma_build_calls(size: int)
    requires
        2 <= size <= 2048,
        is_pow2(size),
    ensures
        1 <= build_calls(size) <= 1227133513,
{
    lemma_build_calls_cube(size);
    assert(size * size * size <= 2048 * 2048 * 2048) by (nonlinear_arith)
        requires 0 <= size <= 2048;
    assert(size * size * size >= 8) by (nonlinear_arith)
        requires size >= 2;
}

/// Extending the node list keeps what the existing nodes describe.
proof fn lemma_extend(nodes: Seq<SvdagNode>, more: Seq<SvdagNode>, idx: int, size: int)
    requires
        wf_node(nodes, idx, size),
        nodes.len() <= more.len(),
        forall|i: int| 0 <= i < nodes.len() ==> more[i] == #[trigger] nodes[i],
    ensures
        wf_node(more, idx, size),
        forall|x: int, y: int, z: int| #[trigger] occupied(more, idx, size, x, y, z) == occupied(nodes, idx, size, x, y, z),
    decreases size,
{
    assert(more[idx] == nodes[idx]);
    match nodes[idx] {
        SvdagNode::Leaf(_) => {},
        SvdagNode::Internal(ch) => {
            assert forall|i: int| 0 <= i < 8 implies wf_node(more, #[trigger] ch@[i] as int, size / 2) by {
                lemma_extend(nodes, more, ch@[i] as int, size / 2);
            }
            assert forall|x: int, y: int, z: int| #[trigger] occupied(more, idx, size, x, y, z) == occupied(nodes, idx, size, x, y, z) by {
                let half = size / 2;
                let c = child_slot(x, y, z, half);
                assert(0 <= c < 8);
                lemma_extend(nodes, more, ch@[c] as int, half);
                let lx = x - (if x >= half { half } else { 0 });
                let ly = y - (if y >= half { half } else { 0 });
                let lz = z - (if z >= half { half } else { 0 });
                assert(occupied(more, ch@[c] as int, half, lx, ly, lz) == occupied(nodes, ch@[c] as int, half, lx, ly, lz));
            }
        },
    }
}

fn same_children(c1: &[u32; 8], c2: &[u32; 8]) -> (r: bool)
    ensures
        r == (*c1 == *c2),
{
    let mut i: usize = 0;
    while i < 8
        invariant
            i <= 8,
            c1@.len() == 8,
            c2@.len() == 8,
            forall|j: int| 0 <= j < i ==> c1@[j] == c2@[j],
        decreases 8 - i,
    {
        if c1[i] != c2[i] {
            proof {
                if *c1 == *c2 {
                    assert(c1@[i as int] == c2@[i as int]);
                }
            }
            return false;
        }
        i = i + 1;
    }
    proof {
        assert(c1@ =~= c2@);
        assert(*c1 =~= *c2);
    }
    true
}

fn same_node(a: &SvdagNode, b: &SvdagNode) -> (r: bool)
    ensures
        r == (*a == *b),
{
    match a {
        SvdagNode::Leaf(m1) => match b {
            SvdagNode::Leaf(m2) => *m1 == *m2,
            SvdagNode::Internal(_) => false,
        },
        SvdagNode::Internal(c1) => match b {
            SvdagNode::Leaf(_) => false,
            SvdagNode::Internal(c2) => same_children(c1, c2),
        },
    }
}

/// Node `b` is one of the children of node `a`.
pub open spec fn child_of(nodes: Seq<SvdagNode>, a: int, b: int) -> bool {
    &&& 0 <= a < nodes.len()
    &&& 0 <= b < nodes.len()
    &&& nodes[a] matches SvdagNode::Internal(ch) && ch@.contains(b as u32)
}

/// `p` follows child links from its first node to its last.
pub open spec fn child_chain(nodes: Seq<SvdagNode>, p: Seq<int>) -> bool {
    &&& p.len() >= 1
    &&& 0 <= p[0] < nodes.len()
    &&& forall|i: int| 0 <= i < p.len() - 1 ==> #[trigger] child_of(nodes, p[i], p[i + 1])
}

/// Node `b` is node `a` or lies below it.
pub open spec fn below(nodes: Seq<SvdagNode>, a: int, b: int) -> bool {
    exists|p: Seq<int>| #[trigger] child_chain(nodes, p) && p[0] == a && p.last() == b
}

/// Node `k` lies below one of the first `n` of `ch`.
pub open spec fn below_one_of(nodes: Seq<SvdagNode>, ch: Seq<u32>, n: int, k: int) -> bool {
    exists|j: int| 0 <= j < n && #[trigger] below(nodes, ch[j] as int, k)
}

proof fn lemma_below_refl(nodes: Seq<SvdagNode>, a: int)
    requires
        0 <= a < nodes.len(),
    ensures
        below(nodes, a, a),
{
    assert(child_chain(nodes, seq![a]));
}

proof fn lemma_below_extend(nodes: Seq<SvdagNode>, more: Seq<SvdagNode>, a: int, b: int)
    requires
        below(nodes, a, b),
        nodes.len() <= more.len(),
        forall|i: int| 0 <= i < nodes.len() ==> more[i] == #[trigger] nodes[i],
    ensures
        below(more, a, b),
{
    let p = choose|p: Seq<int>| #[trigger] child_chain(nodes, p) && p[0] == a && p.last() == b;
    assert forall|i: int| 0 <= i < p.len() - 1 implies #[trigger] child_of(more, p[i], p[i + 1]) by {
        assert(child_of(nodes, p[i], p[i + 1]));
        assert(more[p[i]] == nodes[p[i]]);
    }
    assert(child_chain(more, p));
}

proof fn lemma_below_prepend(nodes: Seq<SvdagNode>, r: int, c: int, b: int)
    requires
        child_of(nodes, r, c),
        below(nodes, c, b),
    ensures
        below(nodes, r, b),
{
    let p = choose|p: Seq<int>| #[trigger] child_chain(nodes, p) && p[0] == c && p.last() == b;
    let q = seq![r] + p;
    assert forall|i: int| 0 <= i < q.len() - 1 implies #[trigger] child_of(nodes, q[i], q[i + 1]) by {
        if i > 0 {
            assert(q[i] == p[i - 1] && q[i + 1] == p[(i - 1) + 1]);
            assert(child_of(nodes, p[i - 1], p[(i - 1) + 1]));
        }
    }
    assert(child_chain(nodes, q));
    assert(q.last() == p.last());
}

/// Index of the node equal to `node`, appending it when there is none.
fn intern(nodes: &mut Vec<SvdagNode>, node: SvdagNode) -> (r: u32)
    requires
        old(nodes)@.no_duplicates(),
        old(nodes)@.len() < u32::MAX,
    ensures
        final(nodes)@.no_duplicates(),
        r < final(nodes)@.len(),
        final(nodes)@[r as int] == node,
        final(nodes)@.len() <= old(nodes)@.len() + 1,
        old(nodes)@.len() <= final(nodes)@.len(),
        final(nodes)@.len() > old(nodes)@.len() ==> r == old(nodes)@.len(),
        forall|i: int| 0 <= i < old(nodes)@.len() ==> final(nodes)@[i] == #[trigger] old(nodes)@[i],
{
    let mut i: usize = 0;
    while i < nodes.len()
        invariant
            i <= nodes.len(),
            nodes@.len() < u32::MAX,
            nodes@.no_duplicates(),
            nodes@ == old(nodes)@,
            forall|j: int| 0 <= j < i ==> nodes@[j] != node,
        decreases nodes.len() - i,
    {
        if same_node(&nodes[i], &node) {
            return i as u32;
        }
        i = i + 1;
    }
    let idx = nodes.len() as u32;
    nodes.push(node);
    proof {
        assert(nodes@.no_duplicates());
    }
    idx
}

/// `p` is the least power of two that is at least `n`.
pub open spec fn is_next_pow2(n: int, p: int) -> bool {
    is_pow2(p) && n <= p && (p == 1 || p / 2 < n)
}

/// The least power of two at least `n` (`u32::next_power_of_two` on the
/// values this library uses).
pub fn next_pow2(n: u32) -> (r: u32)
    requires
        n <= 0x8000_0000,
    ensures
        is_next_pow2(n as int, r as int),
{
    proof {
        reveal_with_fuel(is_pow2, 33);
        assert(is_pow2(0x8000_0000));
    }
    let mut p: u32 = 1;
    while p < n
        invariant
            n <= 0x8000_0000,
            is_pow2(p as int),
            1 <= p,
            p == 1 || p / 2 < n,
            p <= 0x8000_0000,
            is_pow2(0x8000_0000),
        decreases 0x8000_0000 - p,
    {
        proof {
            lemma_pow2_double_le(p as int, 0x8000_0000);
            assert((2 * p) as int / 2 == p as int);
            assert(is_pow2(2 * p as int));
        }
        p = p * 2;
    }
    p
}

/// A power of two below another is at most half of it.
proof fn lemma_pow2_double_le(p: int, m: int)
    requires
        is_pow2(p),
        is_pow2(m),
        p < m,
    ensures
        2 * p <= m,
    decreases p,
{
    if p > 1 {
        lemma_pow2_double_le(p / 2, m / 2);
    }
}

proof fn lemma_pow2_half(n: int)
    requires
        is_pow2(n),
        n > 2,
    ensures
        n % 2 == 0,
        is_pow2(n / 2),
        n / 2 >= 2,
        n / 2 < n,
{
}

proof fn lemma_mask_set(m: u8, b: u32, c: u32)
    requires
        b < 8,
        c < 8,
    ensures
        mask_bit(m | (1u8 << b), c) == (c == b || mask_bit(m, c)),
{
    assert((((m | (1u8 << b)) >> c) & 1u8 != 0u8) == (c == b || ((m >> c) & 1u8 != 0u8))) by (bit_vector)
        requires b < 8, c < 8;
}

proof fn lemma_mask_zero(c: u32)
    requires
        c < 8,
    ensures
        !mask_bit(0u8, c),
{
    assert(((0u8 >> c) & 1u8) == 0u8) by (bit_vector);
}

/// The 2×2×2 cell block at `(ox, oy, oz)`, as a leaf bitmask.
fn leaf_mask(grid: &VoxelGrid, ox: u32, oy: u32, oz: u32) -> (mask: u8)
    requires
        grid.wf(),
        ox + 2 <= u32::MAX,
        oy + 2 <= u32::MAX,
        oz + 2 <= u32::MAX,
    ensures
        forall|c: u32| c < 8 ==> #[trigger] mask_bit(mask, c) == grid.filled(
            ox + c % 2,
            oy + (c / 2) % 2,
            oz + c / 4,
        ),
{
    let mut mask: u8 = 0;
    let mut bit: u32 = 0;
    proof {
        assert forall|c: u32| c < 8 implies !#[trigger] mask_bit(mask, c) by {
            lemma_mask_zero(c);
        }
    }
    while bit < 8
        invariant
            grid.wf(),
            ox + 2 <= u32::MAX,
            oy + 2 <= u32::MAX,
            oz + 2 <= u32::MAX,
            bit <= 8,
            forall|c: u32| c < bit ==> #[trigger] mask_bit(mask, c) == grid.filled(
                ox + c % 2,
                oy + (c / 2) % 2,
                oz + c / 4,
            ),
            forall|c: u32| bit <= c < 8 ==> !#[trigger] mask_bit(mask, c),
        decreases 8 - bit,
    {
        let dx = bit % 2;
        let dy = (bit / 2) % 2;
        let dz = bit / 4;
        let v = grid.get(ox + dx, oy + dy, oz + dz);
        let solid = match v {
            Some(val) => val != 0,
            None => false,
        };
        let old_mask = mask;
        if solid {
            mask = mask | (1u8 << bit);
        }
        proof {
            assert forall|c: u32| c < 8 implies #[trigger] mask_bit(mask, c) == (
                (c == bit && solid) || mask_bit(old_mask, c)) by {
                if solid {
                    lemma_mask_set(old_mask, bit, c);
                }
            }
        }
        bit = bit + 1;
    }
    mask
}

/// Node `idx` is a well-formed cube of side `size` whose solid positions are
/// exactly the filled cells of `grid` at offset `(ox, oy, oz)`.
pub open spec fn describes(nodes: Seq<SvdagNode>, idx: int, size: int, grid: VoxelGrid, ox: int, oy: int, oz: int) -> bool {
    &&& 0 <= idx < nodes.len()
    &&& wf_node(nodes, idx, size)
    &&& forall|x: int, y: int, z: int|
        0 <= x < size && 0 <= y < size && 0 <= z < size ==> #[trigger] occupied(nodes, idx, size, x, y, z)
            == grid.filled(ox + x, oy + y, oz + z)
}

proof fn lemma_describes_extend(
    nodes: Seq<SvdagNode>,
    more: Seq<SvdagNode>,
    idx: int,
    size: int,
    grid: VoxelGrid,
    ox: int,
    oy: int,
    oz: int,
)
    requires
        describes(nodes, idx, size, grid, ox, oy, oz),
        nodes.len() <= more.len(),
        forall|i: int| 0 <= i < nodes.len() ==> more[i] == #[trigger] nodes[i],
    ensures
        describes(more, idx, size, grid, ox, oy, oz),
{
    lemma_extend(nodes, more, idx, size);
    assert forall|x: int, y: int, z: int|
        0 <= x < size && 0 <= y < size && 0 <= z < size implies #[trigger] occupied(more, idx, size, x, y, z)
            == grid.filled(ox + x, oy + y, oz + z) by {
        assert(occupied(more, idx, size, x, y, z) == occupied(nodes, idx, size, x, y, z));
    }
}

/// Offset of child `i` along the axis whose bit in `i` is `bit`.
pub open spec fn child_offset(i: int, bit: int, half: int) -> int {
    if (i / bit) % 2 == 1 { half } else { 0 }
}

/// Builds the subtree of the cube of side `size` at `(ox, oy, oz)`, storing
/// each distinct node once, and returns the index of its root.
fn build_recursive(grid: &VoxelGrid, nodes: &mut Vec<SvdagNode>, ox: u32, oy: u32, oz: u32, size: u32) -> (r: u32)
    requires
        grid.wf(),
        old(nodes)@.no_duplicates(),
        size >= 2,
        is_pow2(size as int),
        ox + size <= u32::MAX,
        oy + size <= u32::MAX,
        oz + size <= u32::MAX,
        old(nodes)@.len() + build_calls(size as int) < u32::MAX,
    ensures
        final(nodes)@.no_duplicates(),
        old(nodes)@.len() <= final(nodes)@.len() <= old(nodes)@.len() + build_calls(size as int),
        forall|i: int| 0 <= i < old(nodes)@.len() ==> final(nodes)@[i] == #[trigger] old(nodes)@[i],
        describes(final(nodes)@, r as int, size as int, *grid, ox as int, oy as int, oz as int),
        forall|i: int| old(nodes)@.len() <= i < final(nodes)@.len() ==> #[trigger] below(final(nodes)@, r as int, i),
    decreases size,
{
    if size == 2 {
        let mask = leaf_mask(grid, ox, oy, oz);
        let r = intern(nodes, SvdagNode::Leaf(mask));
        proof {
            assert forall|x: int, y: int, z: int|
                0 <= x < 2 && 0 <= y < 2 && 0 <= z < 2 implies #[trigger] occupied(nodes@, r as int, 2, x, y, z)
                    == grid.filled(ox + x, oy + y, oz + z) by {
                let c = (z * 4 + y * 2 + x) as u32;
                assert(c < 8);
                assert(c % 2 == x && (c / 2) % 2 == y && c / 4 == z);
                assert(x % 2 == x && y % 2 == y && z % 2 == z);
                assert(mask_bit(mask, c) == grid.filled(ox + c % 2, oy + (c / 2) % 2, oz + c / 4));
            }
            assert forall|i: int| old(nodes)@.len() <= i < nodes@.len() implies #[trigger] below(nodes@, r as int, i) by {
                lemma_below_refl(nodes@, r as int);
            }
        }
        return r;
    }
    let half = size / 2;
    let ghost bc = build_calls(half as int);
    proof {
        lemma_pow2_half(size as int);
        assert(build_calls(size as int) == 1 + 8 * bc);
        assert(bc >= 1) by {
            if half > 2 {
                assert(build_calls(half as int) == 1 + 8 * build_calls(half as int / 2));
                lemma_build_calls_nonneg(half as int / 2);
            }
        }
    }
    let mut children: [u32; 8] = [0u32; 8];
    let mut i: usize = 0;
    while i < 8
        invariant
            grid.wf(),
            nodes@.no_duplicates(),
            2 <= half,
            half * 2 == size,
            is_pow2(half as int),
            bc == build_calls(half as int),
            bc >= 1,
            ox + size <= u32::MAX,
            oy + size <= u32::MAX,
            oz + size <= u32::MAX,
            old(nodes)@.len() + 1 + 8 * bc < u32::MAX,
            i <= 8,
            old(nodes)@.len() <= nodes@.len() <= old(nodes)@.len() + i * bc,
            forall|k: int| 0 <= k < old(nodes)@.len() ==> nodes@[k] == #[trigger] old(nodes)@[k],
            forall|j: int| 0 <= j < i ==> #[trigger] describes(
                nodes@,
                children@[j] as int,
                half as int,
                *grid,
                ox + child_offset(j, 1, half as int),
                oy + child_offset(j, 2, half as int),
                oz + child_offset(j, 4, half as int),
            ),
            forall|k: int| old(nodes)@.len() <= k < nodes@.len() ==> #[trigger] below_one_of(nodes@, children@, i as int, k),
        decreases 8 - i,
    {
        let dx: u32 = if i % 2 == 1 { half } else { 0 };
        let dy: u32 = if (i / 2) % 2 == 1 { half } else { 0 };
        let dz: u32 = if (i / 4) % 2 == 1 { half } else { 0 };
        let ghost before = nodes@;
        proof {
            assert(i * bc + bc <= 8 * bc) by (nonlinear_arith)
                requires i < 8, bc >= 0;
        }
        let c = build_recursive(grid, nodes, ox + dx, oy + dy, oz + dz, half);
        proof {
            assert(i * bc + bc == (i + 1) * bc) by (nonlinear_arith);
            assert forall|j: int| 0 <= j < i implies #[trigger] describes(
                nodes@,
                children@[j] as int,
                half as int,
                *grid,
                ox + child_offset(j, 1, half as int),
                oy + child_offset(j, 2, half as int),
                oz + child_offset(j, 4, half as int),
            ) by {
                lemma_describes_extend(
                    before,
                    nodes@,
                    children@[j] as int,
                    half as int,
                    *grid,
                    ox + child_offset(j, 1, half as int),
                    oy + child_offset(j, 2, half as int),
                    oz + child_offset(j, 4, half as int),
                );
            }
        }
        let ghost ch0 = children@;
        children[i] = c;
        proof {
            assert forall|k: int| old(nodes)@.len() <= k < nodes@.len() implies #[trigger] below_one_of(nodes@, children@, i + 1, k) by {
                if k < before.len() {
                    assert(below_one_of(before, ch0, i as int, k));
                    let j = choose|j: int| 0 <= j < i && #[trigger] below(before, ch0[j] as int, k);
                    lemma_below_extend(before, nodes@, ch0[j] as int, k);
                    assert(children@[j] == ch0[j]);
                } else {
                    assert(below(nodes@, c as int, k));
                    assert(children@[i as int] == c);
                }
            }
        }
        i = i + 1;
    }
    let ghost before = nodes@;
    let r = intern(nodes, SvdagNode::Internal(children));
    proof {
        assert forall|j: int| 0 <= j < 8 implies #[trigger] describes(
            nodes@,
            children@[j] as int,
            half as int,
            *grid,
            ox + child_offset(j, 1, half as int),
            oy + child_offset(j, 2, half as int),
            oz + child_offset(j, 4, half as int),
        ) by {
            lemma_describes_extend(
                before,
                nodes@,
                children@[j] as int,
                half as int,
                *grid,
                ox + child_offset(j, 1, half as int),
                oy + child_offset(j, 2, half as int),
                oz + child_offset(j, 4, half as int),
            );
        }
        assert forall|j: int| 0 <= j < 8 implies wf_node(nodes@, #[trigger] children@[j] as int, size as int / 2) by {
            assert(describes(
                nodes@,
                children@[j] as int,
                half as int,
                *grid,
                ox + child_offset(j, 1, half as int),
                oy + child_offset(j, 2, half as int),
                oz + child_offset(j, 4, half as int),
            ));
        }
        assert(wf_node(nodes@, r as int, size as int));
        assert forall|k: int| old(nodes)@.len() <= k < nodes@.len() implies #[trigger] below(nodes@, r as int, k) by {
            if k < before.len() {
                assert(below_one_of(before, children@, 8, k));
                let j = choose|j: int| 0 <= j < 8 && #[trigger] below(before, children@[j] as int, k);
                lemma_below_extend(before, nodes@, children@[j] as int, k);
                assert(children@[j] as int == children@[j] as int);
                assert(children@.contains(children@[j]));
                assert(0 <= children@[j] < nodes@.len()) by {
                    assert(wf_node(nodes@, children@[j] as int, size as int / 2));
                }
                assert(child_of(nodes@, r as int, children@[j] as int));
                lemma_below_prepend(nodes@, r as int, children@[j] as int, k);
            } else {
                lemma_below_refl(nodes@, r as int);
            }
        }
        assert forall|x: int, y: int, z: int|
            0 <= x < size && 0 <= y < size && 0 <= z < size implies #[trigger] occupied(nodes@, r as int, size as int, x, y, z)
                == grid.filled(ox + x, oy + y, oz + z) by {
            let h = half as int;
            let c = child_slot(x, y, z, h);
            assert(0 <= c < 8);
            let lx = x - (if x >= h { h } else { 0 });
            let ly = y - (if y >= h { h } else { 0 });
            let lz = z - (if z >= h { h } else { 0 });
            assert(describes(
                nodes@,
                children@[c] as int,
                h,
                *grid,
                ox + child_offset(c, 1, h),
                oy + child_offset(c, 2, h),
                oz + child_offset(c, 4, h),
            ));
            assert(child_offset(c, 1, h) == (if x >= h { h } else { 0 }));
            assert(child_offset(c, 2, h) == (if y >= h { h } else { 0 }));
            assert(child_offset(c, 4, h) == (if z >= h { h } else { 0 }));
            assert(occupied(nodes@, children@[c] as int, h, lx, ly, lz) == grid.filled(
                ox + child_offset(c, 1, h) + lx,
                oy + child_offset(c, 2, h) + ly,
                oz + child_offset(c, 4, h) + lz,
            ));
        }
    }
    r
}

proof fn lemma_build_calls_nonneg(size: int)
    ensures
        build_calls(size) >= 1,
    decreases size,
{
    if size > 2 {
        lemma_build_calls_nonneg(size / 2);
    }
}

/// Whether local position `(x, y, z)` of the cube of node `idx` is solid.
fn query_recursive(nodes: &Vec<SvdagNode>, idx: u32, x: u32, y: u32, z: u32, size: u32) -> (r: bool)
    requires
        wf_node(nodes@, idx as int, size as int),
        x < size,
        y < size,
        z < size,
    ensures
        r == occupied(nodes@, idx as int, size as int, x as int, y as int, z as int),
    decreases size,
{
    match &nodes[idx as usize] {
        SvdagNode::Leaf(mask) => {
            let lx = x & 1;
            let ly = y & 1;
            let lz = z & 1;
            proof {
                assert(x & 1 == x % 2) by (bit_vector);
                assert(y & 1 == y % 2) by (bit_vector);
                assert(z & 1 == z % 2) by (bit_vector);
            }
            let bit = lz * 4 + ly * 2 + lx;
            (*mask >> bit) & 1 != 0
        },
        SvdagNode::Internal(children) => {
            let half = size / 2;
            let cx: usize = if x >= half { 1 } else { 0 };
            let cy: usize = if y >= half { 1 } else { 0 };
            let cz: usize = if z >= half { 1 } else { 0 };
            let child_idx = cx + cy * 2 + cz * 4;
            let local_x = if x >= half { x - half } else { x };
            let local_y = if y >= half { y - half } else { y };
            let local_z = if z >= half { z - half } else { z };
            proof {
                assert(child_idx as int == child_slot(x as int, y as int, z as int, half as int));
                assert(wf_node(nodes@, children@[child_idx as int] as int, half as int));
            }
            query_recursive(nodes, children[child_idx], local_x, local_y, local_z, half)
        },
    }
}

impl Svdag {
    pub closed spec fn spec_nodes(&self) -> Seq<SvdagNode> {
        self.nodes@
    }

    pub closed spec fn spec_root(&self) -> int {
        self.root as int
    }

    /// Side of the cube the DAG covers.
    pub closed spec fn spec_grid_size(&self) -> int {
        self.grid_size as int
    }

    /// Well-formedness: the root describes a power-of-two cube of side at
    /// least 2, and no node is stored twice.
    pub open spec fn wf(&self) -> bool {
        &&& self.spec_grid_size() >= 2
        &&& is_pow2(self.spec_grid_size())
        &&& self.spec_grid_size() <= u32::MAX
        &&& wf_node(self.spec_nodes(), self.spec_root(), self.spec_grid_size())
        &&& self.spec_nodes().no_duplicates()
    }

    /// Position `(x, y, z)` lies inside the covered cube and is solid there.
    pub open spec fn solid(&self, x: int, y: int, z: int) -> bool {
        &&& 0 <= x < self.spec_grid_size()
        &&& 0 <= y < self.spec_grid_size()
        &&& 0 <= z < self.spec_grid_size()
        &&& occupied(self.spec_nodes(), self.spec_root(), self.spec_grid_size(), x, y, z)
    }

    /// Builds the DAG of `grid`. It covers the cube whose side is the least
    /// power of two at least the grid's largest dimension; a query answers
    /// exactly what the grid holds, and every node stored lies below the
    /// root. A grid whose largest side is below 2 has
    /// no leaf level, so the build would never end there. Node indices are
    /// `u32`; the count of nodes bounded here is that of the full octree of
    /// the cube (`build_calls`), which stays below 2³² up to a side of 2048.
    pub fn from_grid(grid: &VoxelGrid) -> (s: Self)
        requires
            grid.wf(),
            2 <= max3(grid.spec_width() as int, grid.spec_height() as int, grid.spec_depth() as int) <= 2048,
        ensures
            s.wf(),
            is_next_pow2(
                max3(grid.spec_width() as int, grid.spec_height() as int, grid.spec_depth() as int),
                s.spec_grid_size(),
            ),
            s.spec_nodes().len() <= build_calls(s.spec_grid_size()),
            forall|i: int| 0 <= i < s.spec_nodes().len() ==> #[trigger] below(s.spec_nodes(), s.spec_root(), i),
            forall|x: int, y: int, z: int| #[trigger] s.solid(x, y, z) == grid.filled(x, y, z),
    {
        let (w, h, d) = grid.dimensions();
        let mut m = w;
        if h > m {
            m = h;
        }
        if d > m {
            m = d;
        }
        let size = next_pow2(m);
        proof {
            if size > 2 {
                reveal_with_fuel(is_pow2, 12);
                assert(is_pow2(2048));
                lemma_pow2_half(size as int);
                lemma_pow2_double_le(size as int / 2, 2048);
            }
            lemma_build_calls(size as int);
        }
        let mut nodes: Vec<SvdagNode> = Vec::new();
        let root = build_recursive(grid, &mut nodes, 0, 0, 0, size);
        let s = Svdag { nodes, root, grid_size: size };
        proof {
            assert forall|x: int, y: int, z: int| #[trigger] s.solid(x, y, z) == grid.filled(x, y, z) by {
                if 0 <= x < size && 0 <= y < size && 0 <= z < size {
                    assert(occupied(nodes@, root as int, size as int, x, y, z) == grid.filled(0 + x, 0 + y, 0 + z));
                }
            }
        }
        s
    }

    /// Number of distinct nodes stored.
    pub fn node_count(&self) -> (r: usize)
        ensures
            r == self.spec_nodes().len(),
    {
        self.nodes.len()
    }

    /// Whether the voxel at `(x, y, z)` is solid; positions outside the
    /// covered cube are empty.
    pub fn query(&self, x: u32, y: u32, z: u32) -> (r: bool)
        requires
            self.wf(),
        ensures
            r == self.solid(x as int, y as int, z as int),
    {
        if x >= self.grid_size || y >= self.grid_size || z >= self.grid_size {
            return false;
        }
        query_recursive(&self.nodes, self.root, x, y, z, self.grid_size)
    }
}

pub open spec fn max3(a: int, b: int, c: int) -> int {
    if a >= b && a >= c {
        a
    } else if b >= c {
        b
    } else {
        c
    }
}

} // verus!
