use vstd::prelude::*;
use crate::voxel::grid::VoxelGrid;
use crate::voxel::coarse_narrow::{clusters_touch, lemma_graph_edges_touch, lemma_recomputed_edge_touches};

verus! {

/// Identifier of a cluster: its coordinates in the grid of cubic clusters.
pub type ClusterId = (u32, u32, u32);

/// Lexicographic order on cluster ids (the order of tuples).
pub open spec fn cluster_lt(a: ClusterId, b: ClusterId) -> bool {
    a.0 < b.0 || (a.0 == b.0 && (a.1 < b.1 || (a.1 == b.1 && a.2 < b.2)))
}

/// Number of clusters of size `cs` along an axis of length `n` (rounded up).
pub open spec fn cluster_count(n: int, cs: int) -> int {
    (n + cs - 1) / cs
}

/// The cluster `c` holds a non-air voxel.
pub open spec fn spec_cluster_has_voxels(g: VoxelGrid, cs: int, c: ClusterId) -> bool {
    exists|x: int, y: int, z: int|
        #![trigger g.filled(x, y, z)]
        g.filled(x, y, z) && c.0 * cs <= x < c.0 * cs + cs && c.1 * cs <= y < c.1 * cs + cs && c.2
            * cs <= z < c.2 * cs + cs
}

/// The cluster one step from `c` in direction `dir` (+x, -x, +y, -y, +z, -z).
pub open spec fn cluster_step(c: ClusterId, dir: int) -> (int, int, int) {
    let (x, y, z) = (c.0 as int, c.1 as int, c.2 as int);
    if dir == 0 {
        (x + 1, y, z)
    } else if dir == 1 {
        (x - 1, y, z)
    } else if dir == 2 {
        (x, y + 1, z)
    } else if dir == 3 {
        (x, y - 1, z)
    } else if dir == 4 {
        (x, y, z + 1)
    } else {
        (x, y, z - 1)
    }
}

pub open spec fn cpos(c: ClusterId) -> (int, int, int) {
    (c.0 as int, c.1 as int, c.2 as int)
}

pub open spec fn min_int(a: int, b: int) -> int {
    if a <= b { a } else { b }
}

/// One probe of the boundary test between clusters `from` and `to` along
/// `dir`: the voxel pair at face offsets `(a, b)` (the two face axes other
/// than `dir`'s, slower axis first) lies inside the grid on the two face
/// planes and both voxels test non-air. The face planes are clamped to the
/// grid as in the boundary test.
pub open spec fn face_pair_ok(
    g: VoxelGrid,
    cs: int,
    from: ClusterId,
    to: ClusterId,
    dir: int,
    a: int,
    b: int,
) -> bool {
    let w = g.spec_width() as int;
    let h = g.spec_height() as int;
    let d = g.spec_depth() as int;
    let (f0, f1, f2) = (from.0 * cs, from.1 * cs, from.2 * cs);
    let (t0, t1, t2) = (to.0 * cs, to.1 * cs, to.2 * cs);
    if dir == 0 || dir == 1 {
        let fx = if dir == 0 { min_int(f0 + cs - 1, w - 1) } else { f0 };
        let tx = if dir == 0 { min_int(t0, w - 1) } else { min_int(t0 + cs - 1, w - 1) };
        let (fy, fz, ty, tz) = (f1 + b, f2 + a, t1 + b, t2 + a);
        fy < h && fz < d && ty < h && tz < d && g.not_air(fx, fy, fz) && g.not_air(tx, ty, tz)
    } else if dir == 2 || dir == 3 {
        let fy = if dir == 2 { min_int(f1 + cs - 1, h - 1) } else { f1 };
        let ty = if dir == 2 { min_int(t1, h - 1) } else { min_int(t1 + cs - 1, h - 1) };
        let (fx, fz, tx, tz) = (f0 + b, f2 + a, t0 + b, t2 + a);
        fx < w && fz < d && tx < w && tz < d && g.not_air(fx, fy, fz) && g.not_air(tx, ty, tz)
    } else {
        let fz = if dir == 4 { min_int(f2 + cs - 1, d - 1) } else { f2 };
        let tz = if dir == 4 { min_int(t2, d - 1) } else { min_int(t2 + cs - 1, d - 1) };
        let (fx, fy, tx, ty) = (f0 + b, f1 + a, t0 + b, t1 + a);
        fx < w && fy < h && tx < w && ty < h && g.not_air(fx, fy, fz) && g.not_air(tx, ty, tz)
    }
}

/// Some probe of the boundary between `from` and `to` along `dir` succeeds:
/// the two clusters touch through a pair of face-adjacent non-air voxels.
pub open spec fn spec_share_boundary(g: VoxelGrid, cs: int, from: ClusterId, to: ClusterId, dir: int) -> bool {
    exists|a: int, b: int| 0 <= a < cs && 0 <= b < cs && #[trigger] face_pair_ok(g, cs, from, to, dir, a, b)
}

/// Coarse connectivity graph over the cubic clusters of a voxel grid.
pub struct ClusterGraph {
    /// Non-empty clusters, each once.
    nodes: Vec<ClusterId>,
    /// Undirected edges `(a, b)` with `a < b`, each once.
    edges: Vec<(ClusterId, ClusterId)>,
    /// Cluster size in voxels per axis.
    cluster_size: u32,
}

/// Probe of `spec_share_boundary` for offsets `(a, b)`.
fn face_pair_check(g: &VoxelGrid, cs: u32, from: ClusterId, to: ClusterId, dir: usize, a: u32, b: u32) -> (r: bool)
    requires
        g.wf(),
        cs > 0,
        dir < 6,
        a < cs,
        b < cs,
        g.spec_width() > 0 && g.spec_height() > 0 && g.spec_depth() > 0,
        from.0 * cs + cs <= u32::MAX,
        from.1 * cs + cs <= u32::MAX,
        from.2 * cs + cs <= u32::MAX,
        to.0 * cs + cs <= u32::MAX || (dir == 0 && to.0 * cs <= u32::MAX),
        to.1 * cs + cs <= u32::MAX || (dir == 2 && to.1 * cs <= u32::MAX),
        to.2 * cs + cs <= u32::MAX || (dir == 4 && to.2 * cs <= u32::MAX),
    ensures
        r == face_pair_ok(*g, cs as int, from, to, dir as int, a as int, b as int),
{
    let (w, h, d) = g.dimensions();
    let f0 = from.0 * cs;
    let f1 = from.1 * cs;
    let f2 = from.2 * cs;
    if dir == 0 || dir == 1 {
        let t1 = to.1 * cs;
        let t2 = to.2 * cs;
        let fx = if dir == 0 { if f0 + cs - 1 <= w - 1 { f0 + cs - 1 } else { w - 1 } } else { f0 };
        let tx = if dir == 0 {
            let t0 = to.0 * cs;
            if t0 <= w - 1 { t0 } else { w - 1 }
        } else {
            let t0 = to.0 * cs;
            if t0 + cs - 1 <= w - 1 { t0 + cs - 1 } else { w - 1 }
        };
        let fy = f1 + b;
        let fz = f2 + a;
        let ty = t1 + b;
        let tz = t2 + a;
        fy < h && fz < d && ty < h && tz < d && g.get(fx, fy, fz) != Some(0u8) && g.get(tx, ty, tz) != Some(0u8)
    } else if dir == 2 || dir == 3 {
        let t0 = to.0 * cs;
        let t2 = to.2 * cs;
        let fy = if dir == 2 { if f1 + cs - 1 <= h - 1 { f1 + cs - 1 } else { h - 1 } } else { f1 };
        let ty = if dir == 2 {
            let t1 = to.1 * cs;
            if t1 <= h - 1 { t1 } else { h - 1 }
        } else {
            let t1 = to.1 * cs;
            if t1 + cs - 1 <= h - 1 { t1 + cs - 1 } else { h - 1 }
        };
        let fx = f0 + b;
        let fz = f2 + a;
        let tx = t0 + b;
        let tz = t2 + a;
        fx < w && fz < d && tx < w && tz < d && g.get(fx, fy, fz) != Some(0u8) && g.get(tx, ty, tz) != Some(0u8)
    } else {
        let t0 = to.0 * cs;
        let t1 = to.1 * cs;
        let fz = if dir == 4 { if f2 + cs - 1 <= d - 1 { f2 + cs - 1 } else { d - 1 } } else { f2 };
        let tz = if dir == 4 {
            let t2 = to.2 * cs;
            if t2 <= d - 1 { t2 } else { d - 1 }
        } else {
            let t2 = to.2 * cs;
            if t2 + cs - 1 <= d - 1 { t2 + cs - 1 } else { d - 1 }
        };
        let fx = f0 + b;
        let fy = f1 + a;
        let tx = t0 + b;
        let ty = t1 + a;
        fx < w && fy < h && tx < w && ty < h && g.get(fx, fy, fz) != Some(0u8) && g.get(tx, ty, tz) != Some(0u8)
    }
}

/// Whether the clusters `from` and `to = from + dir` touch through a pair of
/// face-adjacent non-air voxels on their common face.
fn clusters_share_boundary_voxels(g: &VoxelGrid, cs: u32, from: ClusterId, to: ClusterId, dir: usize) -> (r: bool)
    requires
        g.wf(),
        cs > 0,
        dir < 6,
        g.spec_width() > 0 && g.spec_height() > 0 && g.spec_depth() > 0,
        from.0 * cs + cs <= u32::MAX,
        from.1 * cs + cs <= u32::MAX,
        from.2 * cs + cs <= u32::MAX,
        to.0 * cs + cs <= u32::MAX || (dir == 0 && to.0 * cs <= u32::MAX),
        to.1 * cs + cs <= u32::MAX || (dir == 2 && to.1 * cs <= u32::MAX),
        to.2 * cs + cs <= u32::MAX || (dir == 4 && to.2 * cs <= u32::MAX),
    ensures
        r == spec_share_boundary(*g, cs as int, from, to, dir as int),
{
    let mut a: u32 = 0;
    while a < cs
        invariant
            g.wf(),
            cs > 0,
            dir < 6,
            g.spec_width() > 0 && g.spec_height() > 0 && g.spec_depth() > 0,
            from.0 * cs + cs <= u32::MAX,
            from.1 * cs + cs <= u32::MAX,
            from.2 * cs + cs <= u32::MAX,
            to.0 * cs + cs <= u32::MAX || (dir == 0 && to.0 * cs <= u32::MAX),
            to.1 * cs + cs <= u32::MAX || (dir == 2 && to.1 * cs <= u32::MAX),
            to.2 * cs + cs <= u32::MAX || (dir == 4 && to.2 * cs <= u32::MAX),
            a <= cs,
            forall|aa: int, bb: int|
                #![trigger face_pair_ok(*g, cs as int, from, to, dir as int, aa, bb)]
                0 <= aa < a && 0 <= bb < cs ==> !face_pair_ok(*g, cs as int, from, to, dir as int, aa, bb),
        decreases cs - a,
    {
        let mut b: u32 = 0;
        while b < cs
            invariant
                g.wf(),
                cs > 0,
                dir < 6,
                g.spec_width() > 0 && g.spec_height() > 0 && g.spec_depth() > 0,
                from.0 * cs + cs <= u32::MAX,
                from.1 * cs + cs <= u32::MAX,
                from.2 * cs + cs <= u32::MAX,
                to.0 * cs + cs <= u32::MAX || (dir == 0 && to.0 * cs <= u32::MAX),
                to.1 * cs + cs <= u32::MAX || (dir == 2 && to.1 * cs <= u32::MAX),
                to.2 * cs + cs <= u32::MAX || (dir == 4 && to.2 * cs <= u32::MAX),
                a < cs,
                b <= cs,
                forall|aa: int, bb: int|
                    #![trigger face_pair_ok(*g, cs as int, from, to, dir as int, aa, bb)]
                    (0 <= aa < a && 0 <= bb < cs) || (aa == a && 0 <= bb < b) ==> !face_pair_ok(
                        *g,
                        cs as int,
                        from,
                        to,
                        dir as int,
                        aa,
                        bb,
                    ),
            decreases cs - b,
        {
            if face_pair_check(g, cs, from, to, dir, a, b) {
                return true;
            }
            b = b + 1;
        }
        a = a + 1;
    }
    false
}

/// Whether the cluster `(cx, cy, cz)` holds a non-air voxel.
fn cluster_has_voxels(g: &VoxelGrid, cs: u32, cx: u32, cy: u32, cz: u32) -> (r: bool)
    requires
        g.wf(),
        cx * cs + cs <= u32::MAX,
        cy * cs + cs <= u32::MAX,
        cz * cs + cs <= u32::MAX,
    ensures
        r == spec_cluster_has_voxels(*g, cs as int, (cx, cy, cz)),
{
    let (w, h, d) = g.dimensions();
    let x0 = cx * cs;
    let y0 = cy * cs;
    let z0 = cz * cs;
    let xe = if x0 + cs <= w { x0 + cs } else { w };
    let ye = if y0 + cs <= h { y0 + cs } else { h };
    let ze = if z0 + cs <= d { z0 + cs } else { d };
    let ghost c = (cx, cy, cz);
    let mut z = z0;
    while z < ze
        invariant
            g.wf(),
            (w, h, d) == (g.spec_width(), g.spec_height(), g.spec_depth()),
            x0 == cx * cs, y0 == cy * cs, z0 == cz * cs,
            xe == min_int(x0 + cs, w as int), ye == min_int(y0 + cs, h as int), ze == min_int(z0 + cs, d as int),
            z0 <= z,
            z <= ze || ze < z0,
            forall|x: int, y: int, zz: int|
                #![trigger g.filled(x, y, zz)]
                g.filled(x, y, zz) && x0 <= x < x0 + cs && y0 <= y < y0 + cs && z0 <= zz < z ==> false,
        decreases ze - z,
    {
        let mut y = y0;
        while y < ye
            invariant
                g.wf(),
                (w, h, d) == (g.spec_width(), g.spec_height(), g.spec_depth()),
                x0 == cx * cs, y0 == cy * cs, z0 == cz * cs,
                xe == min_int(x0 + cs, w as int), ye == min_int(y0 + cs, h as int), ze == min_int(z0 + cs, d as int),
                z0 <= z < ze,
                y0 <= y,
                y <= ye || ye < y0,
                forall|x: int, yy: int, zz: int|
                    #![trigger g.filled(x, yy, zz)]
                    g.filled(x, yy, zz) && x0 <= x < x0 + cs && y0 <= yy < y0 + cs && z0 <= zz <= z
                        && (zz < z || yy < y) ==> false,
            decreases ye - y,
        {
            let mut x = x0;
            while x < xe
                invariant
                    g.wf(),
                    (w, h, d) == (g.spec_width(), g.spec_height(), g.spec_depth()),
                    x0 == cx * cs, y0 == cy * cs, z0 == cz * cs,
                    xe == min_int(x0 + cs, w as int), ye == min_int(y0 + cs, h as int), ze == min_int(z0 + cs, d as int),
                    z0 <= z < ze,
                    y0 <= y < ye,
                    x0 <= x,
                    x <= xe || xe < x0,
                    forall|xx: int, yy: int, zz: int|
                        #![trigger g.filled(xx, yy, zz)]
                        g.filled(xx, yy, zz) && x0 <= xx < x0 + cs && y0 <= yy < y0 + cs && z0 <= zz <= z
                            && (zz < z || yy < y || (yy == y && xx < x)) ==> false,
                decreases xe - x,
            {
                if g.get(x, y, z) != Some(0u8) {
                    proof {
                        assert(g.filled(x as int, y as int, z as int));
                    }
                    return true;
                }
                x = x + 1;
            }
            y = y + 1;
        }
        z = z + 1;
    }
    false
}

pub(crate) fn same_cluster(a: ClusterId, b: ClusterId) -> (r: bool)
    ensures
        r == (a == b),
{
    a.0 == b.0 && a.1 == b.1 && a.2 == b.2
}

/// `(min(a, b), max(a, b))` in lexicographic order.
fn ordered_pair(a: ClusterId, b: ClusterId) -> (r: (ClusterId, ClusterId))
    ensures
        r == spec_ordered_pair(a, b),
{
    if a.0 < b.0 || (a.0 == b.0 && (a.1 < b.1 || (a.1 == b.1 && a.2 < b.2))) {
        (a, b)
    } else {
        (b, a)
    }
}

pub open spec fn spec_ordered_pair(a: ClusterId, b: ClusterId) -> (ClusterId, ClusterId) {
    if cluster_lt(a, b) { (a, b) } else { (b, a) }
}

pub(crate) fn contains_cluster(v: &Vec<ClusterId>, c: ClusterId) -> (r: bool)
    ensures
        r == v@.contains(c),
{
    let mut i: usize = 0;
    while i < v.len()
        invariant
            i <= v.len(),
            forall|j: int| 0 <= j < i ==> v@[j] != c,
        decreases v.len() - i,
    {
        if same_cluster(v[i], c) {
            return true;
        }
        i = i + 1;
    }
    false
}

fn contains_edge(v: &Vec<(ClusterId, ClusterId)>, e: (ClusterId, ClusterId)) -> (r: bool)
    ensures
        r == v@.contains(e),
{
    let mut i: usize = 0;
    while i < v.len()
        invariant
            i <= v.len(),
            forall|j: int| 0 <= j < i ==> v@[j] != e,
        decreases v.len() - i,
    {
        if same_cluster(v[i].0, e.0) && same_cluster(v[i].1, e.1) {
            return true;
        }
        i = i + 1;
    }
    false
}

/// Adds `e` unless it is already present.
fn insert_edge(v: &mut Vec<(ClusterId, ClusterId)>, e: (ClusterId, ClusterId))
    requires
        old(v)@.no_duplicates(),
    ensures
        final(v)@.no_duplicates(),
        forall|f: (ClusterId, ClusterId)| #![trigger final(v)@.contains(f)] final(v)@.contains(f) <==> (old(v)@.contains(f) || f == e),
{
    if !contains_edge(v, e) {
        let ghost pre = v@;
        v.push(e);
        proof {
            assert forall|f: (ClusterId, ClusterId)| #![trigger v@.contains(f)] v@.contains(f) <==> (pre.contains(f) || f == e) by {
                if pre.contains(f) {
                    let i = pre.index_of(f);
                    assert(v@[i] == f);
                }
                if f == e {
                    assert(v@[pre.len() as int] == f);
                }
                if v@.contains(f) && f != e {
                    let i = v@.index_of(f);
                    assert(pre[i] == f);
                }
            }
        }
    }
}

/// The edges of `v` that do not touch `id`, in order.
fn edges_without(v: &Vec<(ClusterId, ClusterId)>, id: ClusterId) -> (r: Vec<(ClusterId, ClusterId)>)
    requires
        v@.no_duplicates(),
    ensures
        r@.no_duplicates(),
        forall|f: (ClusterId, ClusterId)| #![trigger r@.contains(f)] r@.contains(f) <==> (v@.contains(f) && f.0 != id && f.1 != id),
{
    let mut r: Vec<(ClusterId, ClusterId)> = Vec::new();
    let mut i: usize = 0;
    while i < v.len()
        invariant
            i <= v.len(),
            v@.no_duplicates(),
            r@.no_duplicates(),
            forall|f: (ClusterId, ClusterId)| #![trigger r@.contains(f)] r@.contains(f) <==> (exists|j: int| 0 <= j < i && v@[j] == f && f.0 != id && f.1 != id),
        decreases v.len() - i,
    {
        let e = v[i];
        let ghost pre = r@;
        if !same_cluster(e.0, id) && !same_cluster(e.1, id) {
            r.push(e);
            proof {
                assert forall|k: int| 0 <= k < pre.len() implies pre[k] != e by {
                    if pre[k] == e {
                        assert(pre.contains(e));
                        let j = choose|j: int| 0 <= j < i && v@[j] == e && e.0 != id && e.1 != id;
                        assert(v@[j] == v@[i as int]);
                    }
                }
            }
        }
        proof {
            assert forall|f: (ClusterId, ClusterId)| #![trigger r@.contains(f)] r@.contains(f) <==> (exists|j: int| 0 <= j < i + 1 && v@[j] == f && f.0 != id && f.1 != id) by {
                if r@.contains(f) {
                    let k = r@.index_of(f);
                    if k < pre.len() {
                        assert(pre[k] == f);
                        assert(pre.contains(f));
                    } else {
                        assert(v@[i as int] == f);
                    }
                }
                if exists|j: int| 0 <= j < i + 1 && v@[j] == f && f.0 != id && f.1 != id {
                    let j = choose|j: int| 0 <= j < i + 1 && v@[j] == f && f.0 != id && f.1 != id;
                    if j < i {
                        assert(pre.contains(f));
                        let k = pre.index_of(f);
                        assert(r@[k] == f);
                    } else {
                        assert(r@[pre.len() as int] == f);
                    }
                }
            }
        }
        i = i + 1;
    }
    proof {
        assert forall|f: (ClusterId, ClusterId)| #![trigger r@.contains(f)] r@.contains(f) <==> (v@.contains(f) && f.0 != id && f.1 != id) by {
            if v@.contains(f) && f.0 != id && f.1 != id {
                let j = v@.index_of(f);
                assert(v@[j] == f);
            }
        }
    }
    r
}

/// The clusters of `v` other than `id`, in order.
fn copy_vec<T: Copy>(v: &Vec<T>) -> (r: Vec<T>)
    ensures
        r@ == v@,
{
    let mut r: Vec<T> = Vec::new();
    let mut i: usize = 0;
    while i < v.len()
        invariant
            i <= v@.len(),
            r@ == v@.take(i as int),
        decreases v@.len() - i,
    {
        r.push(v[i]);
        proof {
            assert(v@.take(i + 1) =~= v@.take(i as int).push(v@[i as int]));
        }
        i = i + 1;
    }
    proof {
        assert(v@.take(i as int) =~= v@);
    }
    r
}

fn clusters_without(v: &Vec<ClusterId>, id: ClusterId) -> (r: Vec<ClusterId>)
    requires
        v@.no_duplicates(),
    ensures
        r@.no_duplicates(),
        forall|c: ClusterId| #![trigger r@.contains(c)] r@.contains(c) <==> (v@.contains(c) && c != id),
{
    let mut r: Vec<ClusterId> = Vec::new();
    let mut i: usize = 0;
    while i < v.len()
        invariant
            i <= v.len(),
            v@.no_duplicates(),
            r@.no_duplicates(),
            forall|c: ClusterId| #![trigger r@.contains(c)] r@.contains(c) <==> (exists|j: int| 0 <= j < i && v@[j] == c && c != id),
        decreases v.len() - i,
    {
        let e = v[i];
        let ghost pre = r@;
        if !same_cluster(e, id) {
            r.push(e);
            proof {
                assert forall|k: int| 0 <= k < pre.len() implies pre[k] != e by {
                    if pre[k] == e {
                        assert(pre.contains(e));
                        let j = choose|j: int| 0 <= j < i && v@[j] == e && e != id;
                        assert(v@[j] == v@[i as int]);
                    }
                }
            }
        }
        proof {
            assert forall|c: ClusterId| #![trigger r@.contains(c)] r@.contains(c) <==> (exists|j: int| 0 <= j < i + 1 && v@[j] == c && c != id) by {
                if r@.contains(c) {
                    let k = r@.index_of(c);
                    if k < pre.len() {
                        assert(pre[k] == c);
                        assert(pre.contains(c));
                    } else {
                        assert(v@[i as int] == c);
                    }
                }
                if exists|j: int| 0 <= j < i + 1 && v@[j] == c && c != id {
                    let j = choose|j: int| 0 <= j < i + 1 && v@[j] == c && c != id;
                    if j < i {
                        assert(pre.contains(c));
                        let k = pre.index_of(c);
                        assert(r@[k] == c);
                    } else {
                        assert(r@[pre.len() as int] == c);
                    }
                }
            }
        }
        i = i + 1;
    }
    proof {
        assert forall|c: ClusterId| #![trigger r@.contains(c)] r@.contains(c) <==> (v@.contains(c) && c != id) by {
            if v@.contains(c) && c != id {
                let j = v@.index_of(c);
                assert(v@[j] == c);
            }
        }
    }
    r
}

/// For `k < ceil(n / cs)` exactly when `k * cs < n`.
pub proof fn lemma_cluster_count(n: int, cs: int, k: int)
    requires
        n >= 0,
        cs > 0,
        k >= 0,
    ensures
        (k < cluster_count(n, cs)) == (k * cs < n),
        cluster_count(n, cs) >= 0,
{
    let m = n + cs - 1;
    let q = m / cs;
    let r = m % cs;
    vstd::arithmetic::div_mod::lemma_fundamental_div_mod(m, cs);
    assert(m == cs * q + r);
    assert(0 <= r < cs) by {
        vstd::arithmetic::div_mod::lemma_mod_bound(m, cs);
    }
    assert(q >= 0) by {
        vstd::arithmetic::div_mod::lemma_div_pos_is_pos(m, cs);
    }
    if k < q {
        assert(k * cs <= (q - 1) * cs) by (nonlinear_arith)
            requires k <= q - 1, cs > 0;
        assert((q - 1) * cs == cs * q - cs) by (nonlinear_arith);
    } else {
        assert(k * cs >= q * cs) by (nonlinear_arith)
            requires k >= q, cs > 0;
        assert(q * cs == cs * q) by (nonlinear_arith);
    }
}

/// A forward edge of the coarse graph: `e.1` is the +x, +y or +z neighbour
/// of `e.0` and the two clusters touch across their common face.
pub open spec fn forward_edge(g: VoxelGrid, cs: int, e: (ClusterId, ClusterId)) -> bool {
    ||| cpos(e.1) == cluster_step(e.0, 0) && spec_share_boundary(g, cs, e.0, e.1, 0)
    ||| cpos(e.1) == cluster_step(e.0, 2) && spec_share_boundary(g, cs, e.0, e.1, 2)
    ||| cpos(e.1) == cluster_step(e.0, 4) && spec_share_boundary(g, cs, e.0, e.1, 4)
}

/// An edge that recomputing cluster `id` produces: `id` touches its
/// neighbour `n` (a node) in direction `dir`, stored smaller end first.
pub open spec fn recomputed_edge(
    g: VoxelGrid,
    cs: int,
    nodes: Seq<ClusterId>,
    id: ClusterId,
    e: (ClusterId, ClusterId),
) -> bool {
    exists|dir: int, n: ClusterId|
        #![trigger cluster_step(id, dir), nodes.contains(n)]
        0 <= dir < 6 && cluster_step(id, dir) == cpos(n) && nodes.contains(n)
            && spec_share_boundary(g, cs, id, n, dir) && e == spec_ordered_pair(id, n)
}

/// The clusters joined to `id` by the edges of `edges`, in edge order:
/// the other end of each edge that has `id` at one end.
pub open spec fn neighbor_seq(edges: Seq<(ClusterId, ClusterId)>, id: ClusterId) -> Seq<ClusterId>
    decreases edges.len(),
{
    if edges.len() == 0 {
        Seq::empty()
    } else {
        let rest = neighbor_seq(edges.drop_last(), id);
        let e = edges.last();
        if e.0 == id {
            rest.push(e.1)
        } else if e.1 == id {
            rest.push(e.0)
        } else {
            rest
        }
    }
}

impl ClusterGraph {
    pub closed spec fn node_seq(&self) -> Seq<ClusterId> {
        self.nodes@
    }

    pub closed spec fn edge_seq(&self) -> Seq<(ClusterId, ClusterId)> {
        self.edges@
    }

    pub closed spec fn spec_cluster_size(&self) -> u32 {
        self.cluster_size
    }

    /// Nodes and edges appear once each, every edge is stored smaller end
    /// first and joins two nodes, and the cluster size is positive.
    pub open spec fn wf(&self) -> bool {
        &&& self.node_seq().no_duplicates()
        &&& self.edge_seq().no_duplicates()
        &&& forall|e: (ClusterId, ClusterId)| #![trigger self.edge_seq().contains(e)] self.edge_seq().contains(e) ==> cluster_lt(e.0, e.1)
        &&& forall|e: (ClusterId, ClusterId)| #![trigger self.edge_seq().contains(e)] self.edge_seq().contains(e)
            ==> self.node_seq().contains(e.0) && self.node_seq().contains(e.1)
        &&& self.spec_cluster_size() > 0
    }

    /// Adds the edge from node `c` to its neighbour in direction `dir`
    /// (0, 2 or 4) when that neighbour is a node and the two touch.
    fn add_forward_edge(
        edges: &mut Vec<(ClusterId, ClusterId)>,
        g: &VoxelGrid,
        cs: u32,
        nodes: &Vec<ClusterId>,
        c: ClusterId,
        dir: usize,
    )
        requires
            g.wf(),
            cs > 0,
            dir == 0 || dir == 2 || dir == 4,
            g.spec_width() + cs <= u32::MAX,
            g.spec_height() + cs <= u32::MAX,
            g.spec_depth() + cs <= u32::MAX,
            spec_cluster_has_voxels(*g, cs as int, c),
            forall|n: ClusterId| #![trigger nodes@.contains(n)] nodes@.contains(n) ==> spec_cluster_has_voxels(*g, cs as int, n),
            old(edges)@.no_duplicates(),
        ensures
            final(edges)@.no_duplicates(),
            forall|f: (ClusterId, ClusterId)|
                #![trigger final(edges)@.contains(f)]
                final(edges)@.contains(f) <==> (old(edges)@.contains(f) || (f.0 == c && nodes@.contains(f.1)
                    && cpos(f.1) == cluster_step(c, dir as int) && spec_share_boundary(*g, cs as int, c, f.1, dir as int))),
    {
        proof {
            lemma_has_voxels_bounds(*g, cs as int, c);
        }
        let n: ClusterId = if dir == 0 {
            (c.0 + 1, c.1, c.2)
        } else if dir == 2 {
            (c.0, c.1 + 1, c.2)
        } else {
            (c.0, c.1, c.2 + 1)
        };
        if contains_cluster(nodes, n) {
            proof {
                lemma_has_voxels_bounds(*g, cs as int, n);
            }
            if clusters_share_boundary_voxels(g, cs, c, n, dir) {
                insert_edge(edges, (c, n));
            }
        }
    }

    /// Builds the coarse graph of `grid` with cubic clusters of `cluster_size`
    /// voxels per axis: the non-empty clusters, and an edge between two
    /// face-adjacent clusters whenever non-air voxels touch across their
    /// common face.
    pub fn build(grid: &VoxelGrid, cluster_size: u32) -> (r: Self)
        requires
            grid.wf(),
            cluster_size > 0,
            grid.spec_width() + cluster_size <= u32::MAX,
            grid.spec_height() + cluster_size <= u32::MAX,
            grid.spec_depth() + cluster_size <= u32::MAX,
        ensures
            r.wf(),
            r.spec_cluster_size() == cluster_size,
            forall|c: ClusterId|
                #![trigger r.node_seq().contains(c)]
                r.node_seq().contains(c) <==> spec_cluster_has_voxels(*grid, cluster_size as int, c),
            forall|e: (ClusterId, ClusterId)|
                #![trigger r.edge_seq().contains(e)]
                r.edge_seq().contains(e) <==> (r.node_seq().contains(e.0) && r.node_seq().contains(e.1)
                    && forward_edge(*grid, cluster_size as int, e)),
            forall|e: (ClusterId, ClusterId)|
                #![trigger r.edge_seq().contains(e)]
                r.edge_seq().contains(e) ==> clusters_touch(*grid, cluster_size as int, e.0, e.1),
    {
        let cs = cluster_size;
        let (w, h, d) = grid.dimensions();
        let cx_count = (w + cs - 1) / cs;
        let cy_count = (h + cs - 1) / cs;
        let cz_count = (d + cs - 1) / cs;

        let mut nodes: Vec<ClusterId> = Vec::new();
        let mut cz: u32 = 0;
        while cz < cz_count
            invariant
                grid.wf(),
                cs > 0,
                (w, h, d) == (grid.spec_width(), grid.spec_height(), grid.spec_depth()),
                w + cs <= u32::MAX, h + cs <= u32::MAX, d + cs <= u32::MAX,
                cx_count == cluster_count(w as int, cs as int),
                cy_count == cluster_count(h as int, cs as int),
                cz_count == cluster_count(d as int, cs as int),
                cz <= cz_count,
                nodes@.no_duplicates(),
                forall|c: ClusterId| #![trigger nodes@.contains(c)] nodes@.contains(c) <==> (spec_cluster_has_voxels(*grid, cs as int, c) && c.2 < cz),
            decreases cz_count - cz,
        {
            let mut cy: u32 = 0;
            while cy < cy_count
                invariant
                    grid.wf(),
                    cs > 0,
                    (w, h, d) == (grid.spec_width(), grid.spec_height(), grid.spec_depth()),
                    w + cs <= u32::MAX, h + cs <= u32::MAX, d + cs <= u32::MAX,
                    cx_count == cluster_count(w as int, cs as int),
                    cy_count == cluster_count(h as int, cs as int),
                    cz_count == cluster_count(d as int, cs as int),
                    cz < cz_count,
                    cy <= cy_count,
                    nodes@.no_duplicates(),
                    forall|c: ClusterId| #![trigger nodes@.contains(c)] nodes@.contains(c) <==> (spec_cluster_has_voxels(*grid, cs as int, c) && (c.2 < cz || (c.2 == cz && c.1 < cy))),
                decreases cy_count - cy,
            {
                let mut cx: u32 = 0;
                while cx < cx_count
                    invariant
                        grid.wf(),
                        cs > 0,
                        (w, h, d) == (grid.spec_width(), grid.spec_height(), grid.spec_depth()),
                        w + cs <= u32::MAX, h + cs <= u32::MAX, d + cs <= u32::MAX,
                        cx_count == cluster_count(w as int, cs as int),
                        cy_count == cluster_count(h as int, cs as int),
                        cz_count == cluster_count(d as int, cs as int),
                        cz < cz_count,
                        cy < cy_count,
                        cx <= cx_count,
                        nodes@.no_duplicates(),
                        forall|c: ClusterId| #![trigger nodes@.contains(c)] nodes@.contains(c) <==> (spec_cluster_has_voxels(*grid, cs as int, c) && (c.2 < cz || (c.2 == cz && (c.1 < cy || (c.1 == cy && c.0 < cx))))),
                    decreases cx_count - cx,
                {
                    proof {
                        lemma_cluster_count(w as int, cs as int, cx as int);
                        lemma_cluster_count(h as int, cs as int, cy as int);
                        lemma_cluster_count(d as int, cs as int, cz as int);
                    }
                    let ghost pre = nodes@;
                    if cluster_has_voxels(grid, cs, cx, cy, cz) {
                        nodes.push((cx, cy, cz));
                        proof {
                            assert forall|k: int| 0 <= k < pre.len() implies pre[k] != (cx, cy, cz) by {
                                assert(pre.contains(pre[k]));
                            }
                        }
                    }
                    proof {
                        assert forall|c: ClusterId| #![trigger nodes@.contains(c)] nodes@.contains(c) <==> (spec_cluster_has_voxels(*grid, cs as int, c) && (c.2 < cz || (c.2 == cz && (c.1 < cy || (c.1 == cy && c.0 < cx + 1))))) by {
                            if nodes@.contains(c) && c != (cx, cy, cz) {
                                let k = nodes@.index_of(c);
                                assert(pre[k] == c);
                            }
                            if pre.contains(c) {
                                let k = pre.index_of(c);
                                assert(nodes@[k] == c);
                            }
                            if c == (cx, cy, cz) && spec_cluster_has_voxels(*grid, cs as int, c) {
                                assert(nodes@[nodes@.len() - 1] == c);
                            }
                        }
                    }
                    cx = cx + 1;
                }
                proof {
                    assert forall|c: ClusterId| #![trigger nodes@.contains(c)] nodes@.contains(c) <==> (spec_cluster_has_voxels(*grid, cs as int, c) && (c.2 < cz || (c.2 == cz && c.1 < cy + 1))) by {
                        if spec_cluster_has_voxels(*grid, cs as int, c) {
                            lemma_has_voxels_bounds(*grid, cs as int, c);
                        }
                    }
                }
                cy = cy + 1;
            }
            proof {
                assert forall|c: ClusterId| #![trigger nodes@.contains(c)] nodes@.contains(c) <==> (spec_cluster_has_voxels(*grid, cs as int, c) && c.2 < cz + 1) by {
                    if spec_cluster_has_voxels(*grid, cs as int, c) {
                        lemma_has_voxels_bounds(*grid, cs as int, c);
                    }
                }
            }
            cz = cz + 1;
        }
        proof {
            assert forall|c: ClusterId| #![trigger nodes@.contains(c)] nodes@.contains(c) <==> spec_cluster_has_voxels(*grid, cs as int, c) by {
                if spec_cluster_has_voxels(*grid, cs as int, c) {
                    lemma_has_voxels_bounds(*grid, cs as int, c);
                }
            }
        }

        let mut edges: Vec<(ClusterId, ClusterId)> = Vec::new();
        let mut i: usize = 0;
        while i < nodes.len()
            invariant
                grid.wf(),
                cs > 0,
                (w, h, d) == (grid.spec_width(), grid.spec_height(), grid.spec_depth()),
                w + cs <= u32::MAX, h + cs <= u32::MAX, d + cs <= u32::MAX,
                i <= nodes.len(),
                nodes@.no_duplicates(),
                forall|c: ClusterId| #![trigger nodes@.contains(c)] nodes@.contains(c) <==> spec_cluster_has_voxels(*grid, cs as int, c),
                edges@.no_duplicates(),
                forall|e: (ClusterId, ClusterId)|
                    #![trigger edges@.contains(e)]
                    edges@.contains(e) <==> (nodes@.contains(e.1) && forward_edge(*grid, cs as int, e)
                        && exists|j: int| 0 <= j < i && nodes@[j] == e.0),
            decreases nodes.len() - i,
        {
            let c = nodes[i];
            proof {
                assert(nodes@.contains(c));
            }
            let ghost e0 = edges@;
            Self::add_forward_edge(&mut edges, grid, cs, &nodes, c, 0);
            Self::add_forward_edge(&mut edges, grid, cs, &nodes, c, 2);
            Self::add_forward_edge(&mut edges, grid, cs, &nodes, c, 4);
            proof {
                assert forall|e: (ClusterId, ClusterId)|
                    #![trigger edges@.contains(e)]
                    edges@.contains(e) <==> (nodes@.contains(e.1) && forward_edge(*grid, cs as int, e)
                        && exists|j: int| 0 <= j < i + 1 && nodes@[j] == e.0) by {
                    if nodes@.contains(e.1) && forward_edge(*grid, cs as int, e) && exists|j: int| 0 <= j < i + 1 && nodes@[j] == e.0 {
                        let j = choose|j: int| 0 <= j < i + 1 && nodes@[j] == e.0;
                        if j < i {
                            assert(e0.contains(e));
                        }
                    }
                    if edges@.contains(e) && !e0.contains(e) {
                        assert(nodes@[i as int] == e.0);
                    }
                }
            }
            i = i + 1;
        }
        proof {
            assert forall|e: (ClusterId, ClusterId)| #![trigger edges@.contains(e)] edges@.contains(e) implies cluster_lt(e.0, e.1) by {
            }
            assert forall|e: (ClusterId, ClusterId)|
                #![trigger edges@.contains(e)]
                edges@.contains(e) <==> (nodes@.contains(e.0) && nodes@.contains(e.1)
                    && forward_edge(*grid, cs as int, e)) by {
                if nodes@.contains(e.0) {
                    let j = nodes@.index_of(e.0);
                    assert(nodes@[j] == e.0);
                }
                if edges@.contains(e) {
                    let j = choose|j: int| 0 <= j < nodes.len() && nodes@[j] == e.0;
                    assert(nodes@.contains(nodes@[j]));
                }
            }
        }
        let r = ClusterGraph { nodes, edges, cluster_size };
        proof {
            lemma_graph_edges_touch(r, *grid, cs as int);
        }
        r
    }

    pub fn node_count(&self) -> (r: usize)
        ensures
            r == self.node_seq().len(),
    {
        self.nodes.len()
    }

    pub fn edge_count(&self) -> (r: usize)
        ensures
            r == self.edge_seq().len(),
    {
        self.edges.len()
    }

    pub fn nodes(&self) -> (r: &Vec<ClusterId>)
        ensures
            r@ == self.node_seq(),
    {
        &self.nodes
    }

    pub fn edges(&self) -> (r: &Vec<(ClusterId, ClusterId)>)
        ensures
            r@ == self.edge_seq(),
    {
        &self.edges
    }

    pub fn cluster_size(&self) -> (r: u32)
        ensures
            r == self.spec_cluster_size(),
    {
        self.cluster_size
    }

    /// The clusters joined to `id` by an edge, each once, in the order of
    /// the edge list.
    pub fn neighbors(&self, id: ClusterId) -> (r: Vec<ClusterId>)
        requires
            self.wf(),
        ensures
            r@ == neighbor_seq(self.edge_seq(), id),
            r@.no_duplicates(),
            forall|c: ClusterId|
                #![trigger r@.contains(c)]
                r@.contains(c) <==> (self.edge_seq().contains((id, c)) || self.edge_seq().contains((c, id))),
    {
        let mut r: Vec<ClusterId> = Vec::new();
        let mut i: usize = 0;
        while i < self.edges.len()
            invariant
                self.wf(),
                i <= self.edges.len(),
                r@.no_duplicates(),
                r@ == neighbor_seq(self.edges@.take(i as int), id),
                forall|c: ClusterId|
                    #![trigger r@.contains(c)]
                    r@.contains(c) <==> exists|j: int| 0 <= j < i && (self.edges@[j] == (id, c) || self.edges@[j] == (c, id)),
            decreases self.edges.len() - i,
        {
            let (a, b) = self.edges[i];
            let ghost pre = r@;
            proof {
                assert(self.edge_seq().contains(self.edges@[i as int]));
                assert(self.edges@.take(i + 1).drop_last() =~= self.edges@.take(i as int));
                assert(self.edges@.take(i + 1).last() == self.edges@[i as int]);
            }
            let found: Option<ClusterId> = if same_cluster(a, id) {
                Some(b)
            } else if same_cluster(b, id) {
                Some(a)
            } else {
                None
            };
            match found {
                Some(c) => {
                    proof {
                        assert forall|k: int| 0 <= k < pre.len() implies pre[k] != c by {
                            if pre[k] == c {
                                assert(pre.contains(c));
                                let j = choose|j: int| 0 <= j < i && (self.edges@[j] == (id, c) || self.edges@[j] == (c, id));
                                assert(self.edge_seq().contains(self.edges@[j]));
                                if self.edges@[j] != self.edges@[i as int] {
                                    assert(cluster_lt(id, c) || cluster_lt(c, id));
                                }
                            }
                        }
                    }
                    r.push(c);
                },
                None => {},
            }
            proof {
                assert forall|c: ClusterId|
                    #![trigger r@.contains(c)]
                    r@.contains(c) <==> exists|j: int| 0 <= j < i + 1 && (self.edges@[j] == (id, c) || self.edges@[j] == (c, id)) by {
                    if r@.contains(c) {
                        let k = r@.index_of(c);
                        if k < pre.len() {
                            assert(pre[k] == c);
                            assert(pre.contains(c));
                        }
                    }
                    if exists|j: int| 0 <= j < i + 1 && (self.edges@[j] == (id, c) || self.edges@[j] == (c, id)) {
                        let j = choose|j: int| 0 <= j < i + 1 && (self.edges@[j] == (id, c) || self.edges@[j] == (c, id));
                        if j < i {
                            assert(pre.contains(c));
                            let k = pre.index_of(c);
                            assert(r@[k] == c);
                        } else {
                            assert(r@[r@.len() - 1] == c);
                        }
                    }
                }
            }
            i = i + 1;
        }
        proof {
            assert(self.edges@.take(i as int) =~= self.edges@);
            assert forall|c: ClusterId|
                #![trigger r@.contains(c)]
                r@.contains(c) <==> (self.edge_seq().contains((id, c)) || self.edge_seq().contains((c, id))) by {
                if self.edge_seq().contains((id, c)) {
                    let j = self.edges@.index_of((id, c));
                    assert(self.edges@[j] == (id, c));
                }
                if self.edge_seq().contains((c, id)) {
                    let j = self.edges@.index_of((c, id));
                    assert(self.edges@[j] == (c, id));
                }
            }
        }
        r
    }

    /// The graph with the clusters of `removed`, and every edge touching
    /// one of them, taken out.
    pub fn without(&self, removed: &[ClusterId]) -> (r: ClusterGraph)
        requires
            self.wf(),
        ensures
            r.wf(),
            r.spec_cluster_size() == self.spec_cluster_size(),
            forall|c: ClusterId|
                #![trigger r.node_seq().contains(c)]
                r.node_seq().contains(c) <==> (self.node_seq().contains(c) && !removed@.contains(c)),
            forall|e: (ClusterId, ClusterId)|
                #![trigger r.edge_seq().contains(e)]
                r.edge_seq().contains(e) <==> (self.edge_seq().contains(e) && !removed@.contains(e.0) && !removed@.contains(
                    e.1,
                )),
    {
        let mut g = ClusterGraph { nodes: copy_vec(&self.nodes), edges: copy_vec(&self.edges), cluster_size: self.cluster_size };
        let mut i: usize = 0;
        while i < removed.len()
            invariant
                g.wf(),
                i <= removed@.len(),
                g.spec_cluster_size() == self.spec_cluster_size(),
                forall|c: ClusterId|
                    #![trigger g.node_seq().contains(c)]
                    g.node_seq().contains(c) <==> (self.node_seq().contains(c) && !removed@.take(i as int).contains(c)),
                forall|e: (ClusterId, ClusterId)|
                    #![trigger g.edge_seq().contains(e)]
                    g.edge_seq().contains(e) <==> (self.edge_seq().contains(e) && !removed@.take(i as int).contains(e.0)
                        && !removed@.take(i as int).contains(e.1)),
            decreases removed@.len() - i,
        {
            let id = removed[i];
            g.remove_node(id);
            proof {
                let pre = removed@.take(i as int);
                let pre1 = removed@.take(i + 1);
                assert(pre1 =~= pre.push(id));
                assert forall|c: ClusterId| pre1.contains(c) <==> (pre.contains(c) || c == id) by {
                    if pre1.contains(c) {
                        let k = choose|k: int| 0 <= k < pre1.len() && pre1[k] == c;
                        if k < pre.len() {
                            assert(pre[k] == c);
                        }
                    }
                    if pre.contains(c) {
                        let k = choose|k: int| 0 <= k < pre.len() && pre[k] == c;
                        assert(pre1[k] == c);
                    }
                    if c == id {
                        assert(pre1[i as int] == c);
                    }
                }
            }
            i = i + 1;
        }
        proof {
            assert(removed@.take(i as int) =~= removed@);
        }
        g
    }

    /// Removes the node `id` and every edge that touches it.
    pub fn remove_node(&mut self, id: ClusterId)
        requires
            old(self).wf(),
        ensures
            final(self).wf(),
            final(self).spec_cluster_size() == old(self).spec_cluster_size(),
            forall|c: ClusterId|
                #![trigger final(self).node_seq().contains(c)]
                final(self).node_seq().contains(c) <==> (old(self).node_seq().contains(c) && c != id),
            forall|e: (ClusterId, ClusterId)|
                #![trigger final(self).edge_seq().contains(e)]
                final(self).edge_seq().contains(e) <==> (old(self).edge_seq().contains(e) && e.0 != id && e.1 != id),
    {
        self.nodes = clusters_without(&self.nodes, id);
        self.edges = edges_without(&self.edges, id);
    }

    /// Re-derives the presence of cluster `id` in `grid` and its edges to the
    /// neighbouring nodes in all six directions.
    pub fn recompute_cluster(&mut self, grid: &VoxelGrid, cluster_id: ClusterId)
        requires
            old(self).wf(),
            grid.wf(),
            cluster_id.0 * old(self).spec_cluster_size() + old(self).spec_cluster_size() <= u32::MAX,
            cluster_id.1 * old(self).spec_cluster_size() + old(self).spec_cluster_size() <= u32::MAX,
            cluster_id.2 * old(self).spec_cluster_size() + old(self).spec_cluster_size() <= u32::MAX,
        ensures
            final(self).wf(),
            final(self).spec_cluster_size() == old(self).spec_cluster_size(),
            ({
                let cs = old(self).spec_cluster_size() as int;
                let present = spec_cluster_has_voxels(*grid, cs, cluster_id);
                &&& forall|c: ClusterId|
                    #![trigger final(self).node_seq().contains(c)]
                    final(self).node_seq().contains(c) <==> (if c == cluster_id { present } else { old(self).node_seq().contains(c) })
                &&& forall|e: (ClusterId, ClusterId)|
                    #![trigger final(self).edge_seq().contains(e)]
                    final(self).edge_seq().contains(e) <==> ((old(self).edge_seq().contains(e) && e.0 != cluster_id && e.1 != cluster_id)
                        || (present && recomputed_edge(*grid, cs, final(self).node_seq(), cluster_id, e)))
            }),
            forall|e: (ClusterId, ClusterId)|
                #![trigger final(self).edge_seq().contains(e)]
                final(self).edge_seq().contains(e) && (e.0 == cluster_id || e.1 == cluster_id)
                    && spec_cluster_has_voxels(*grid, old(self).spec_cluster_size() as int, e.0)
                    && spec_cluster_has_voxels(*grid, old(self).spec_cluster_size() as int, e.1)
                    ==> clusters_touch(*grid, old(self).spec_cluster_size() as int, e.0, e.1),
    {
        self.recompute_cluster_inner(grid, cluster_id);
        proof {
            let cs = old(self).spec_cluster_size() as int;
            assert forall|e: (ClusterId, ClusterId)|
                #![trigger self.edge_seq().contains(e)]
                self.edge_seq().contains(e) && (e.0 == cluster_id || e.1 == cluster_id)
                    && spec_cluster_has_voxels(*grid, cs, e.0) && spec_cluster_has_voxels(*grid, cs, e.1)
                implies clusters_touch(*grid, cs, e.0, e.1) by {
                lemma_recomputed_edge_touches(*grid, cs, self.node_seq(), cluster_id, e);
            }
        }
    }

    fn recompute_cluster_inner(&mut self, grid: &VoxelGrid, cluster_id: ClusterId)
        requires
            old(self).wf(),
            grid.wf(),
            cluster_id.0 * old(self).spec_cluster_size() + old(self).spec_cluster_size() <= u32::MAX,
            cluster_id.1 * old(self).spec_cluster_size() + old(self).spec_cluster_size() <= u32::MAX,
            cluster_id.2 * old(self).spec_cluster_size() + old(self).spec_cluster_size() <= u32::MAX,
        ensures
            final(self).wf(),
            final(self).spec_cluster_size() == old(self).spec_cluster_size(),
            ({
                let cs = old(self).spec_cluster_size() as int;
                let present = spec_cluster_has_voxels(*grid, cs, cluster_id);
                &&& forall|c: ClusterId|
                    #![trigger final(self).node_seq().contains(c)]
                    final(self).node_seq().contains(c) <==> (if c == cluster_id { present } else { old(self).node_seq().contains(c) })
                &&& forall|e: (ClusterId, ClusterId)|
                    #![trigger final(self).edge_seq().contains(e)]
                    final(self).edge_seq().contains(e) <==> ((old(self).edge_seq().contains(e) && e.0 != cluster_id && e.1 != cluster_id)
                        || (present && recomputed_edge(*grid, cs, final(self).node_seq(), cluster_id, e)))
            }),
    {
        let cs = self.cluster_size;
        self.edges = edges_without(&self.edges, cluster_id);
        if cluster_has_voxels(grid, cs, cluster_id.0, cluster_id.1, cluster_id.2) {
            let ghost pre_nodes = self.nodes@;
            if !contains_cluster(&self.nodes, cluster_id) {
                self.nodes.push(cluster_id);
                proof {
                    assert forall|k: int| 0 <= k < pre_nodes.len() implies pre_nodes[k] != cluster_id by {
                        assert(pre_nodes.contains(pre_nodes[k]));
                    }
                }
            }
            proof {
                assert forall|c: ClusterId| #![trigger self.nodes@.contains(c)] self.nodes@.contains(c) <==> (c == cluster_id || pre_nodes.contains(c)) by {
                    if pre_nodes.contains(c) {
                        let k = pre_nodes.index_of(c);
                        assert(self.nodes@[k] == c);
                    }
                    if self.nodes@.contains(c) && c != cluster_id {
                        let k = self.nodes@.index_of(c);
                        assert(pre_nodes[k] == c);
                    }
                    if c == cluster_id && !pre_nodes.contains(c) {
                        assert(self.nodes@[self.nodes@.len() - 1] == c);
                    }
                }
            }
            let ghost base = self.edges@;
            let mut dir: usize = 0;
            while dir < 6
                invariant
                    grid.wf(),
                    cs == self.cluster_size,
                    cs > 0,
                    spec_cluster_has_voxels(*grid, cs as int, cluster_id),
                    cluster_id.0 * cs + cs <= u32::MAX,
                    cluster_id.1 * cs + cs <= u32::MAX,
                    cluster_id.2 * cs + cs <= u32::MAX,
                    dir <= 6,
                    self.nodes@.no_duplicates(),
                    self.nodes@.contains(cluster_id),
                    pre_nodes == old(self).node_seq(),
                    forall|c: ClusterId| #![trigger self.nodes@.contains(c)] self.nodes@.contains(c) <==> (c == cluster_id || pre_nodes.contains(c)),
                    self.edges@.no_duplicates(),
                    forall|e: (ClusterId, ClusterId)|
                        #![trigger self.edges@.contains(e)]
                        self.edges@.contains(e) <==> (base.contains(e) || exists|dd: int, n: ClusterId|
                            #![trigger cluster_step(cluster_id, dd), self.nodes@.contains(n)]
                            0 <= dd < dir && cluster_step(cluster_id, dd) == cpos(n) && self.nodes@.contains(n)
                                && spec_share_boundary(*grid, cs as int, cluster_id, n, dd) && e == spec_ordered_pair(cluster_id, n)),
                    forall|e: (ClusterId, ClusterId)| #![trigger base.contains(e)] base.contains(e) ==> cluster_lt(e.0, e.1),
                decreases 6 - dir,
            {
                proof {
                    lemma_has_voxels_bounds(*grid, cs as int, cluster_id);
                }
                let (x, y, z) = cluster_id;
                let nb: Option<ClusterId> = if dir == 0 {
                    Some((x + 1, y, z))
                } else if dir == 1 {
                    if x > 0 { Some((x - 1, y, z)) } else { None }
                } else if dir == 2 {
                    Some((x, y + 1, z))
                } else if dir == 3 {
                    if y > 0 { Some((x, y - 1, z)) } else { None }
                } else if dir == 4 {
                    Some((x, y, z + 1))
                } else {
                    if z > 0 { Some((x, y, z - 1)) } else { None }
                };
                let ghost pre = self.edges@;
                match nb {
                    Some(n) => {
                        if contains_cluster(&self.nodes, n) {
                            proof {
                                assert((x + 1) * cs == x * cs + cs) by (nonlinear_arith);
                                assert((y + 1) * cs == y * cs + cs) by (nonlinear_arith);
                                assert((z + 1) * cs == z * cs + cs) by (nonlinear_arith);
                                if x > 0 {
                                    assert((x - 1) * cs + cs == x * cs) by (nonlinear_arith);
                                }
                                if y > 0 {
                                    assert((y - 1) * cs + cs == y * cs) by (nonlinear_arith);
                                }
                                if z > 0 {
                                    assert((z - 1) * cs + cs == z * cs) by (nonlinear_arith);
                                }
                            }
                            if clusters_share_boundary_voxels(grid, cs, cluster_id, n, dir) {
                                let e = ordered_pair(cluster_id, n);
                                insert_edge(&mut self.edges, e);
                            }
                        }
                    },
                    None => {},
                }
                proof {
                    assert forall|e: (ClusterId, ClusterId)|
                        #![trigger self.edges@.contains(e)]
                        self.edges@.contains(e) <==> (base.contains(e) || exists|dd: int, n: ClusterId|
                            0 <= dd < dir + 1 && cluster_step(cluster_id, dd) == cpos(n) && self.nodes@.contains(n)
                                && spec_share_boundary(*grid, cs as int, cluster_id, n, dd) && e == spec_ordered_pair(cluster_id, n)) by {
                        if exists|dd: int, n: ClusterId|
                            0 <= dd < dir + 1 && cluster_step(cluster_id, dd) == cpos(n) && self.nodes@.contains(n)
                                && spec_share_boundary(*grid, cs as int, cluster_id, n, dd) && e == spec_ordered_pair(cluster_id, n) {
                            let (dd, n) = choose|dd: int, n: ClusterId|
                                0 <= dd < dir + 1 && cluster_step(cluster_id, dd) == cpos(n) && self.nodes@.contains(n)
                                    && spec_share_boundary(*grid, cs as int, cluster_id, n, dd) && e == spec_ordered_pair(cluster_id, n);
                            if dd == dir {
                                assert(nb == Some(n));
                            } else {
                                assert(pre.contains(e));
                            }
                        }
                        if self.edges@.contains(e) && !pre.contains(e) {
                            let n = nb.unwrap();
                            assert(cluster_step(cluster_id, dir as int) == cpos(n));
                        }
                    }
                }
                dir = dir + 1;
            }
            proof {
                assert forall|e: (ClusterId, ClusterId)| #![trigger self.edges@.contains(e)] self.edges@.contains(e) implies cluster_lt(e.0, e.1) by {
                    if !base.contains(e) {
                        let (dd, n) = choose|dd: int, n: ClusterId|
                            0 <= dd < 6 && cluster_step(cluster_id, dd) == cpos(n) && self.nodes@.contains(n)
                                && spec_share_boundary(*grid, cs as int, cluster_id, n, dd) && e == spec_ordered_pair(cluster_id, n);
                        assert(n != cluster_id);
                    }
                }
                assert forall|e: (ClusterId, ClusterId)|
                    #![trigger self.edges@.contains(e)]
                    self.edges@.contains(e) <==> (base.contains(e)
                        || recomputed_edge(*grid, cs as int, self.nodes@, cluster_id, e)) by {
                    if recomputed_edge(*grid, cs as int, self.nodes@, cluster_id, e) {
                        let (dd, n) = choose|dd: int, n: ClusterId|
                            #![trigger cluster_step(cluster_id, dd), self.nodes@.contains(n)]
                            0 <= dd < 6 && cluster_step(cluster_id, dd) == cpos(n) && self.nodes@.contains(n)
                                && spec_share_boundary(*grid, cs as int, cluster_id, n, dd) && e == spec_ordered_pair(cluster_id, n);
                        assert(self.edges@.contains(e));
                    }
                }
            }
        } else {
            self.nodes = clusters_without(&self.nodes, cluster_id);
        }
    }
}

/// A cluster with a non-air voxel lies within the grid's cluster range.
proof fn lemma_has_voxels_bounds(g: VoxelGrid, cs: int, c: ClusterId)
    requires
        cs > 0,
        spec_cluster_has_voxels(g, cs, c),
    ensures
        c.0 * cs < g.spec_width(),
        c.1 * cs < g.spec_height(),
        c.2 * cs < g.spec_depth(),
        c.0 < g.spec_width(),
        c.1 < g.spec_height(),
        c.2 < g.spec_depth(),
        c.0 < cluster_count(g.spec_width() as int, cs),
        c.1 < cluster_count(g.spec_height() as int, cs),
        c.2 < cluster_count(g.spec_depth() as int, cs),
{
    let (x, y, z) = choose|x: int, y: int, z: int|
        #![trigger g.filled(x, y, z)]
        g.filled(x, y, z) && c.0 * cs <= x < c.0 * cs + cs && c.1 * cs <= y < c.1 * cs + cs && c.2
            * cs <= z < c.2 * cs + cs;
    assert(c.0 <= c.0 * cs) by (nonlinear_arith) requires cs > 0;
    assert(c.1 <= c.1 * cs) by (nonlinear_arith) requires cs > 0;
    assert(c.2 <= c.2 * cs) by (nonlinear_arith) requires cs > 0;
    lemma_cluster_count(g.spec_width() as int, cs, c.0 as int);
    lemma_cluster_count(g.spec_height() as int, cs, c.1 as int);
    lemma_cluster_count(g.spec_depth() as int, cs, c.2 as int);
}

} // verus!
