use vstd::prelude::*;
use crate::voxel::grid::{VoxelGrid, lemma_linear_index_injective, lemma_linear_index};

verus! {

/// Integer grid coordinates of a voxel.
pub type Voxel = (u32, u32, u32);

pub open spec fn vpos(v: Voxel) -> (int, int, int) {
    (v.0 as int, v.1 as int, v.2 as int)
}

/// The cell one step from `v` along face direction `dir`:
/// +x, -x, +y, -y, +z, -z for `dir` 0 to 5.
pub open spec fn step(v: Voxel, dir: int) -> (int, int, int) {
    let (x, y, z) = vpos(v);
    if dir == 0 {
        (x + 1, y, z)
    } else if dir == 1 {
        (x - 1, y, z)
    } else if dir == 2 {
        (x, y + 1, z)
    } else if dir == 3 {
        (x, y - 1, z)
    } else if dir == 4 {
        (x, y, z + 1)
    } else {
        (x, y, z - 1)
    }
}

/// `a` and `b` share a face (6-connectivity).
pub open spec fn face_adjacent(a: Voxel, b: Voxel) -> bool {
    ||| step(a, 0) == vpos(b)
    ||| step(a, 1) == vpos(b)
    ||| step(a, 2) == vpos(b)
    ||| step(a, 3) == vpos(b)
    ||| step(a, 4) == vpos(b)
    ||| step(a, 5) == vpos(b)
}

pub proof fn lemma_face_adjacent_symmetric(a: Voxel, b: Voxel)
    ensures
        face_adjacent(a, b) == face_adjacent(b, a),
{
}

/// A non-air voxel inside the grid.
pub open spec fn is_filled(g: VoxelGrid, v: Voxel) -> bool {
    g.filled(v.0 as int, v.1 as int, v.2 as int)
}

pub open spec fn in_grid(g: VoxelGrid, v: Voxel) -> bool {
    g.in_bounds(v.0 as int, v.1 as int, v.2 as int)
}

/// Position of `v` in scan order (x fastest, then y, then z).
pub open spec fn scan_index(g: VoxelGrid, v: Voxel) -> int {
    g.index_of(v.0 as int, v.1 as int, v.2 as int)
}

pub proof fn lemma_scan_index(g: VoxelGrid, v: Voxel)
    requires
        in_grid(g, v),
    ensures
        0 <= scan_index(g, v) < g.volume(),
{
    lemma_linear_index(
        g.spec_width() as int,
        g.spec_height() as int,
        g.spec_depth() as int,
        v.0 as int,
        v.1 as int,
        v.2 as int,
    );
    assert(g.spec_width() * g.spec_height() * g.spec_depth() == g.volume());
}

pub proof fn lemma_scan_index_injective(g: VoxelGrid, a: Voxel, b: Voxel)
    requires
        in_grid(g, a),
        in_grid(g, b),
        scan_index(g, a) == scan_index(g, b),
    ensures
        a == b,
{
    lemma_linear_index_injective(
        g.spec_width() as int,
        g.spec_height() as int,
        g.spec_depth() as int,
        a.0 as int,
        a.1 as int,
        a.2 as int,
        b.0 as int,
        b.1 as int,
        b.2 as int,
    );
}

/// Every element after the first `from` touches a face of an earlier one,
/// so the whole sequence is connected to its first `from` elements.
pub open spec fn linked_after(s: Seq<Voxel>, from: int) -> bool {
    forall|i: int|
        #![trigger s[i]]
        from <= i < s.len() ==> exists|j: int| 0 <= j < i && face_adjacent(s[j], s[i])
}

/// Every non-air face neighbour of an element of `s` is itself in `s`.
pub open spec fn closed_in(g: VoxelGrid, s: Seq<Voxel>) -> bool {
    forall|i: int, u: Voxel|
        #![trigger s[i], is_filled(g, u)]
        0 <= i < s.len() && is_filled(g, u) && face_adjacent(s[i], u) ==> s.contains(u)
}

pub open spec fn all_filled(g: VoxelGrid, s: Seq<Voxel>) -> bool {
    forall|i: int| #![trigger s[i]] 0 <= i < s.len() ==> is_filled(g, s[i])
}

/// One 6-connected component of the non-air voxels, listed from its first
/// voxel in scan order.
pub open spec fn is_component(g: VoxelGrid, s: Seq<Voxel>) -> bool {
    &&& s.len() > 0
    &&& s.no_duplicates()
    &&& all_filled(g, s)
    &&& linked_after(s, 1)
    &&& closed_in(g, s)
    &&& forall|i: int| #![trigger s[i]] 0 <= i < s.len() ==> scan_index(g, s[0]) <= scan_index(g, s[i])
}

/// The sequences in `comps` share no voxel.
pub open spec fn pairwise_disjoint(comps: Seq<Seq<Voxel>>) -> bool {
    forall|k1: int, k2: int, v: Voxel|
        #![trigger comps[k1].contains(v), comps[k2].contains(v)]
        0 <= k1 < comps.len() && 0 <= k2 < comps.len() && comps[k1].contains(v)
            && comps[k2].contains(v) ==> k1 == k2
}

pub open spec fn covered(comps: Seq<Seq<Voxel>>, v: Voxel) -> bool {
    exists|k: int| 0 <= k < comps.len() && #[trigger] comps[k].contains(v)
}

/// `comps` lists, in any order, exactly the 6-connected components of the
/// non-air voxels that are not in `excluded`.
pub open spec fn component_partition(g: VoxelGrid, comps: Seq<Seq<Voxel>>, excluded: Seq<Voxel>) -> bool {
    &&& forall|k: int| #![trigger comps[k]] 0 <= k < comps.len() ==> is_component(g, comps[k])
    &&& pairwise_disjoint(comps)
    &&& forall|k: int, v: Voxel|
        #![trigger comps[k].contains(v), excluded.contains(v)]
        0 <= k < comps.len() && comps[k].contains(v) ==> !excluded.contains(v)
    &&& forall|v: Voxel|
        #![trigger is_filled(g, v)]
        is_filled(g, v) && !excluded.contains(v) ==> covered(comps, v)
}

/// `comps` lists, in scan order of their first voxels, exactly the 6-connected
/// components of the non-air voxels that are not in `excluded`.
pub open spec fn components_outside(g: VoxelGrid, comps: Seq<Seq<Voxel>>, excluded: Seq<Voxel>) -> bool {
    &&& component_partition(g, comps, excluded)
    &&& forall|k1: int, k2: int|
        #![trigger comps[k1], comps[k2]]
        0 <= k1 < k2 < comps.len() ==> scan_index(g, comps[k1][0]) < scan_index(g, comps[k2][0])
}

/// An injective map from `0..n` into `0..m` needs `n <= m`.
pub proof fn lemma_injective_bound(f: spec_fn(int) -> int, n: int, m: int)
    requires
        0 <= n,
        0 <= m,
        forall|i: int| 0 <= i < n ==> 0 <= #[trigger] f(i) < m,
        forall|i: int, j: int| 0 <= i < n && 0 <= j < n && #[trigger] f(i) == #[trigger] f(j) ==> i == j,
    ensures
        n <= m,
    decreases n,
{
    if n > 0 {
        let t = f(n - 1);
        assert(0 <= f(n - 1) < m);
        let g = |i: int| if f(i) == m - 1 { t } else { f(i) };
        assert forall|i: int| 0 <= i < n - 1 implies 0 <= #[trigger] g(i) < m - 1 by {
            if f(i) == m - 1 {
                assert(f(i) != f(n - 1));
            } else {
                assert(f(i) != f(n - 1));
            }
        }
        assert forall|i: int, j: int| 0 <= i < n - 1 && 0 <= j < n - 1 && #[trigger] g(i) == #[trigger] g(j) implies i == j by {
            if f(i) == m - 1 && f(j) != m - 1 {
                assert(f(j) == t);
            } else if f(j) == m - 1 && f(i) != m - 1 {
                assert(f(i) == t);
            }
        }
        lemma_injective_bound(g, n - 1, m - 1);
    }
}

/// The voxels of a sequence linked from its first element all lie in any
/// closed set of non-air voxels that holds that first element.
pub proof fn lemma_linked_within_closed(g: VoxelGrid, s: Seq<Voxel>, t: Seq<Voxel>, i: int)
    requires
        s.len() > 0,
        all_filled(g, s),
        linked_after(s, 1),
        closed_in(g, t),
        t.contains(s[0]),
        0 <= i < s.len(),
    ensures
        t.contains(s[i]),
    decreases i,
{
    if i > 0 {
        assert(0 <= i < s.len());
        let j = choose|j: int| 0 <= j < i && face_adjacent(s[j], #[trigger] s[i]);
        lemma_linked_within_closed(g, s, t, j);
        let k = t.index_of(s[j]);
        assert(t[k] == s[j]);
        assert(is_filled(g, s[i]));
    }
}

/// Two component partitions of the same voxels have the same number of
/// components.
pub proof fn lemma_partition_count_unique(g: VoxelGrid, p: Seq<Seq<Voxel>>, q: Seq<Seq<Voxel>>, excluded: Seq<Voxel>)
    requires
        component_partition(g, p, excluded),
        component_partition(g, q, excluded),
    ensures
        p.len() == q.len(),
{
    lemma_partition_count_le(g, p, q, excluded);
    lemma_partition_count_le(g, q, p, excluded);
}

proof fn lemma_partition_count_le(g: VoxelGrid, p: Seq<Seq<Voxel>>, q: Seq<Seq<Voxel>>, excluded: Seq<Voxel>)
    requires
        component_partition(g, p, excluded),
        component_partition(g, q, excluded),
    ensures
        p.len() <= q.len(),
{
    // send each component of `p` to the component of `q` holding its first voxel
    let f = |k: int| choose|m: int| 0 <= m < q.len() && #[trigger] q[m].contains(p[k][0]);
    assert forall|k: int| 0 <= k < p.len() implies 0 <= #[trigger] f(k) < q.len() && q[f(k)].contains(p[k][0]) by {
        assert(is_component(g, p[k]));
        assert(p[k].contains(p[k][0]));
        assert(!excluded.contains(p[k][0]));
        assert(is_filled(g, p[k][0]));
        assert(covered(q, p[k][0]));
    }
    assert forall|k1: int, k2: int| 0 <= k1 < p.len() && 0 <= k2 < p.len() && #[trigger] f(k1) == #[trigger] f(k2) implies k1 == k2 by {
        let m = f(k1);
        let c = q[m];
        assert(is_component(g, c));
        // all of `c` lies in the `p` component of its first voxel
        assert(c.contains(c[0]));
        assert(!excluded.contains(c[0]));
        assert(is_filled(g, c[0]));
        assert(covered(p, c[0]));
        let kc = choose|kk: int| 0 <= kk < p.len() && #[trigger] p[kk].contains(c[0]);
        assert(is_component(g, p[kc]));
        let i1 = c.index_of(p[k1][0]);
        let i2 = c.index_of(p[k2][0]);
        lemma_linked_within_closed(g, c, p[kc], i1);
        lemma_linked_within_closed(g, c, p[kc], i2);
        assert(p[k1].contains(p[k1][0]));
        assert(p[k2].contains(p[k2][0]));
    }
    lemma_injective_bound(f, p.len() as int, q.len() as int);
}

/// `a` and `b` hold the same voxels.
pub open spec fn same_voxels(a: Seq<Voxel>, b: Seq<Voxel>) -> bool {
    a.to_set() == b.to_set()
}

/// Some component of `q` holds the same voxels as `c`.
pub open spec fn has_same_class(c: Seq<Voxel>, q: Seq<Seq<Voxel>>) -> bool {
    exists|m: int| 0 <= m < q.len() && #[trigger] same_voxels(c, q[m])
}

/// The component of `q` that holds the first voxel of a component of `p`
/// lies within it.
proof fn lemma_class_within(g: VoxelGrid, p: Seq<Seq<Voxel>>, q: Seq<Seq<Voxel>>, excluded: Seq<Voxel>, k: int, m: int)
    requires
        component_partition(g, p, excluded),
        component_partition(g, q, excluded),
        0 <= k < p.len(),
        0 <= m < q.len(),
        q[m].contains(p[k][0]),
    ensures
        forall|v: Voxel| q[m].contains(v) ==> #[trigger] p[k].contains(v),
{
    let c = q[m];
    assert(is_component(g, c));
    assert(is_component(g, p[k]));
    assert(c.contains(c[0]));
    assert(!excluded.contains(c[0]));
    assert(is_filled(g, c[0]));
    assert(covered(p, c[0]));
    let kc = choose|kk: int| 0 <= kk < p.len() && #[trigger] p[kk].contains(c[0]);
    assert(is_component(g, p[kc]));
    let i1 = c.index_of(p[k][0]);
    lemma_linked_within_closed(g, c, p[kc], i1);
    assert(p[k].contains(p[k][0]));
    assert(kc == k);
    assert forall|v: Voxel| q[m].contains(v) implies #[trigger] p[k].contains(v) by {
        let i = c.index_of(v);
        lemma_linked_within_closed(g, c, p[kc], i);
    }
}

/// Two component partitions of the same voxels hold the same components:
/// as many of them, and each component of one has the same voxels as some
/// component of the other.
pub proof fn lemma_partitions_hold_same_sets(g: VoxelGrid, p: Seq<Seq<Voxel>>, q: Seq<Seq<Voxel>>, excluded: Seq<Voxel>)
    requires
        component_partition(g, p, excluded),
        component_partition(g, q, excluded),
    ensures
        p.len() == q.len(),
        forall|k: int| 0 <= k < p.len() ==> #[trigger] has_same_class(p[k], q),
        forall|m: int| 0 <= m < q.len() ==> #[trigger] has_same_class(q[m], p),
{
    lemma_partition_count_unique(g, p, q, excluded);
    assert forall|k: int| 0 <= k < p.len() implies #[trigger] has_same_class(p[k], q) by {
        let m = lemma_matching_class(g, p, q, excluded, k);
        assert(same_voxels(p[k], q[m]));
    }
    assert forall|m: int| 0 <= m < q.len() implies #[trigger] has_same_class(q[m], p) by {
        let k = lemma_matching_class(g, q, p, excluded, m);
        assert(same_voxels(q[m], p[k]));
    }
}

proof fn lemma_matching_class(g: VoxelGrid, p: Seq<Seq<Voxel>>, q: Seq<Seq<Voxel>>, excluded: Seq<Voxel>, k: int) -> (m: int)
    requires
        component_partition(g, p, excluded),
        component_partition(g, q, excluded),
        0 <= k < p.len(),
    ensures
        0 <= m < q.len(),
        p[k].to_set() == q[m].to_set(),
{
    assert(is_component(g, p[k]));
    assert(p[k].contains(p[k][0]));
    assert(!excluded.contains(p[k][0]));
    assert(is_filled(g, p[k][0]));
    assert(covered(q, p[k][0]));
    let m = choose|m: int| 0 <= m < q.len() && #[trigger] q[m].contains(p[k][0]);
    lemma_class_within(g, p, q, excluded, k, m);
    assert(is_component(g, q[m]));
    assert(q[m].contains(q[m][0]));
    assert(p[k].contains(q[m][0]));
    lemma_class_within(g, q, p, excluded, m, k);
    assert(p[k].to_set() =~= q[m].to_set());
    m
}

pub open spec fn deep(v: Seq<Vec<Voxel>>) -> Seq<Seq<Voxel>> {
    v.map_values(|c: Vec<Voxel>| c@)
}

} // verus!
