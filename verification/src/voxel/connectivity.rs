use vstd::prelude::*;
use crate::voxel::grid::VoxelGrid;
use crate::voxel::topology::{Voxel, vpos, step, face_adjacent, is_filled, in_grid, scan_index, lemma_scan_index, lemma_scan_index_injective, lemma_face_adjacent_symmetric, linked_after, closed_in, all_filled, is_component, pairwise_disjoint, covered, components_outside, deep, has_same_class, lemma_partitions_hold_same_sets};

verus! {

/// The face neighbour of `v` in direction `dir`, if it lies inside the grid.
fn face_neighbor(g: &VoxelGrid, v: Voxel, dir: usize) -> (r: Option<Voxel>)
    requires
        g.wf(),
        in_grid(*g, v),
        dir < 6,
    ensures
        match r {
            Some(n) => vpos(n) == step(v, dir as int) && in_grid(*g, n),
            None => !g.in_bounds(step(v, dir as int).0, step(v, dir as int).1, step(v, dir as int).2),
        },
{
    let (w, h, d) = g.dimensions();
    let (x, y, z) = v;
    if dir == 0 {
        if x + 1 < w { Some((x + 1, y, z)) } else { None }
    } else if dir == 1 {
        if x > 0 { Some((x - 1, y, z)) } else { None }
    } else if dir == 2 {
        if y + 1 < h { Some((x, y + 1, z)) } else { None }
    } else if dir == 3 {
        if y > 0 { Some((x, y - 1, z)) } else { None }
    } else if dir == 4 {
        if z + 1 < d { Some((x, y, z + 1)) } else { None }
    } else {
        if z > 0 { Some((x, y, z - 1)) } else { None }
    }
}

/// Number of `false` entries.
pub open spec fn count_false(s: Seq<bool>) -> nat
    decreases s.len(),
{
    if s.len() == 0 {
        0
    } else {
        count_false(s.drop_last()) + (if s.last() { 0nat } else { 1nat })
    }
}

proof fn lemma_count_false_set(s: Seq<bool>, j: int)
    requires
        0 <= j < s.len(),
        !s[j],
    ensures
        count_false(s.update(j, true)) + 1 == count_false(s),
    decreases s.len(),
{
    if j < s.len() - 1 {
        assert(s.update(j, true).drop_last() == s.drop_last().update(j, true));
        lemma_count_false_set(s.drop_last(), j);
    } else {
        assert(s.update(j, true).drop_last() == s.drop_last());
    }
}

/// Bookkeeping of a flood fill started from `out[..sl]` with marks `ov`:
/// `vis` marks exactly the old marks plus the voxels found so far, and every
/// voxel found after the seeds touches an earlier one.
spec fn flood_inv(g: VoxelGrid, ov: Seq<bool>, vis: Seq<bool>, out: Seq<Voxel>, sl: int) -> bool {
    &&& vis.len() == g.volume()
    &&& ov.len() == g.volume()
    &&& 0 <= sl <= out.len()
    &&& out.no_duplicates()
    &&& all_filled(g, out)
    &&& linked_after(out, sl)
    &&& forall|i: int| #![trigger out[i]] 0 <= i < sl ==> ov[scan_index(g, out[i])]
    &&& forall|i: int| #![trigger out[i]] sl <= i < out.len() ==> !ov[scan_index(g, out[i])]
    &&& forall|i: int| #![trigger out[i]] 0 <= i < out.len() ==> vis[scan_index(g, out[i])]
    &&& forall|j: int|
        #![trigger vis[j]]
        0 <= j < g.volume() && vis[j] ==> ov[j] || exists|i: int|
            sl <= i < out.len() && scan_index(g, #[trigger] out[i]) == j
    &&& forall|j: int| #![trigger vis[j]] 0 <= j < g.volume() && ov[j] ==> vis[j]
}

/// The first `head` voxels of `out` have all their non-air face neighbours marked.
spec fn expanded(g: VoxelGrid, vis: Seq<bool>, out: Seq<Voxel>, head: int) -> bool {
    forall|i: int, dir: int|
        #![trigger out[i], step(out[i], dir)]
        0 <= i < head && 0 <= dir < 6 && g.in_bounds(step(out[i], dir).0, step(out[i], dir).1, step(out[i], dir).2)
            && g.cell(step(out[i], dir).0, step(out[i], dir).1, step(out[i], dir).2) != 0
            ==> vis[g.index_of(step(out[i], dir).0, step(out[i], dir).1, step(out[i], dir).2)]
}

proof fn lemma_step_index(g: VoxelGrid, p: (int, int, int))
    requires
        g.wf(),
        g.in_bounds(p.0, p.1, p.2),
    ensures
        0 <= g.index_of(p.0, p.1, p.2) < g.volume(),
{
    crate::voxel::grid::lemma_linear_index(
        g.spec_width() as int,
        g.spec_height() as int,
        g.spec_depth() as int,
        p.0,
        p.1,
        p.2,
    );
    assert(g.spec_width() * g.spec_height() * g.spec_depth() == g.volume());
}

proof fn lemma_expanded_mono(g: VoxelGrid, v1: Seq<bool>, v2: Seq<bool>, o1: Seq<Voxel>, o2: Seq<Voxel>, head: int)
    requires
        g.wf(),
        expanded(g, v1, o1, head),
        0 <= head <= o1.len() <= o2.len(),
        forall|i: int| 0 <= i < o1.len() ==> o2[i] == o1[i],
        v1.len() == g.volume(),
        v2.len() == g.volume(),
        forall|j: int| #![trigger v2[j]] 0 <= j < g.volume() && v1[j] ==> v2[j],
    ensures
        expanded(g, v2, o2, head),
{
    assert forall|i: int, dir: int|
        #![trigger o2[i], step(o2[i], dir)]
        0 <= i < head && 0 <= dir < 6 && g.in_bounds(step(o2[i], dir).0, step(o2[i], dir).1, step(o2[i], dir).2)
            && g.cell(step(o2[i], dir).0, step(o2[i], dir).1, step(o2[i], dir).2) != 0
            implies v2[g.index_of(step(o2[i], dir).0, step(o2[i], dir).1, step(o2[i], dir).2)] by {
        assert(o2[i] == o1[i]);
        lemma_step_index(g, step(o2[i], dir));
        assert(v1[g.index_of(step(o1[i], dir).0, step(o1[i], dir).1, step(o1[i], dir).2)]);
    }
}

/// Marks and appends the neighbour of `out[cur]` in direction `dir` when it
/// is an unmarked non-air voxel.
fn visit_dir(
    g: &VoxelGrid,
    visited: &mut Vec<bool>,
    out: &mut Vec<Voxel>,
    cur: usize,
    dir: usize,
    Ghost(ov): Ghost<Seq<bool>>,
    Ghost(sl): Ghost<int>,
)
    requires
        g.wf(),
        flood_inv(*g, ov, old(visited)@, old(out)@, sl),
        cur < old(out).len(),
        dir < 6,
    ensures
        flood_inv(*g, ov, final(visited)@, final(out)@, sl),
        final(out)@.take(old(out).len() as int) == old(out)@,
        final(out).len() >= old(out).len(),
        count_false(final(visited)@) + final(out).len() == count_false(old(visited)@) + old(out).len(),
        forall|j: int| #![trigger final(visited)@[j]] 0 <= j < g.volume() && old(visited)@[j] ==> final(visited)@[j],
        ({
            let p = step(old(out)@[cur as int], dir as int);
            g.in_bounds(p.0, p.1, p.2) && g.cell(p.0, p.1, p.2) != 0 ==> final(visited)@[g.index_of(p.0, p.1, p.2)]
        }),
{
    let c = out[cur];
    proof {
        assert(is_filled(*g, out@[cur as int]));
    }
    match face_neighbor(g, c, dir) {
        Some(n) => {
            let ni = g.cell_index(n.0, n.1, n.2);
            proof {
                lemma_scan_index(*g, n);
            }
            if !visited[ni] && g.get(n.0, n.1, n.2) != Some(0u8) {
                let ghost pre = out@;
                let ghost pv = visited@;
                proof {
                    assert forall|i: int| 0 <= i < pre.len() implies pre[i] != n by {
                        if pre[i] == n {
                            assert(pv[scan_index(*g, pre[i])]);
                        }
                    }
                    lemma_count_false_set(pv, ni as int);
                }
                visited.set(ni, true);
                out.push(n);
                proof {
                    let post = out@;
                    assert(post.take(pre.len() as int) == pre);
                    assert forall|i: int| #![trigger post[i]] sl <= i < post.len()
                        implies exists|j: int| 0 <= j < i && face_adjacent(post[j], post[i]) by {
                        if i < pre.len() {
                            assert(pre[i] == post[i]);
                            let j = choose|j: int| 0 <= j < i && face_adjacent(pre[j], pre[i]);
                            assert(post[j] == pre[j]);
                        } else {
                            assert(post[cur as int] == c);
                            assert(face_adjacent(post[cur as int], post[i]));
                        }
                    }
                    assert forall|j: int|
                        #![trigger visited@[j]]
                        0 <= j < g.volume() && visited@[j] implies ov[j] || exists|i: int|
                            sl <= i < post.len() && scan_index(*g, #[trigger] post[i]) == j by {
                        if j == ni as int {
                            assert(post[pre.len() as int] == n);
                            if !ov[j] {
                                assert(sl <= pre.len());
                            }
                        } else {
                            assert(pv[j]);
                            if !ov[j] {
                                let i = choose|i: int| sl <= i < pre.len() && scan_index(*g, #[trigger] pre[i]) == j;
                                assert(post[i] == pre[i]);
                            }
                        }
                    }
                    assert(post.no_duplicates());
                    assert(!ov[ni as int]);
                    assert forall|i: int| #![trigger post[i]] 0 <= i < post.len()
                        implies visited@[scan_index(*g, post[i])] by {
                        if i < pre.len() {
                            assert(post[i] == pre[i]);
                            assert(pv[scan_index(*g, pre[i])]);
                            lemma_scan_index(*g, pre[i]);
                        }
                    }
                }
            }
        },
        None => {},
    }
}

/// Breadth-first flood fill over non-air voxels. `seeds` must already be
/// marked in `visited`; every voxel reached is marked and appended after the
/// seeds, in visiting order.
fn flood(g: &VoxelGrid, visited: &mut Vec<bool>, seeds: Vec<Voxel>) -> (out: Vec<Voxel>)
    requires
        g.wf(),
        old(visited).len() == g.volume(),
        seeds@.no_duplicates(),
        all_filled(*g, seeds@),
        forall|i: int| #![trigger seeds@[i]] 0 <= i < seeds.len() ==> old(visited)@[scan_index(*g, seeds@[i])],
    ensures
        flood_inv(*g, old(visited)@, final(visited)@, out@, seeds.len() as int),
        out@.take(seeds.len() as int) == seeds@,
        expanded(*g, final(visited)@, out@, out.len() as int),
{
    let ghost sl = seeds.len() as int;
    let ghost ov = visited@;
    let mut out = seeds;
    let mut head: usize = 0;
    proof {
        assert(out@.take(sl) == out@);
    }
    while head < out.len()
        invariant
            g.wf(),
            flood_inv(*g, ov, visited@, out@, sl),
            out@.take(sl) == seeds@,
            head <= out.len(),
            expanded(*g, visited@, out@, head as int),
        decreases count_false(visited@), out.len() - head,
    {
        let ghost cf0 = count_false(visited@);
        let ghost len0 = out.len();
        let mut dir: usize = 0;
        while dir < 6
            invariant
                g.wf(),
                flood_inv(*g, ov, visited@, out@, sl),
                out@.take(sl) == seeds@,
                head < out.len(),
                len0 <= out.len(),
                count_false(visited@) + out.len() == cf0 + len0,
                dir <= 6,
                expanded(*g, visited@, out@, head as int),
                forall|dd: int|
                    #![trigger step(out@[head as int], dd)]
                    0 <= dd < dir && g.in_bounds(step(out@[head as int], dd).0, step(out@[head as int], dd).1, step(out@[head as int], dd).2)
                        && g.cell(step(out@[head as int], dd).0, step(out@[head as int], dd).1, step(out@[head as int], dd).2) != 0
                        ==> visited@[g.index_of(step(out@[head as int], dd).0, step(out@[head as int], dd).1, step(out@[head as int], dd).2)],
            decreases 6 - dir,
        {
            let ghost pre = out@;
            let ghost pv = visited@;
            visit_dir(g, visited, &mut out, head, dir, Ghost(ov), Ghost(sl));
            proof {
                assert forall|i: int| 0 <= i < pre.len() implies out@[i] == pre[i] by {
                    assert(out@.take(pre.len() as int)[i] == pre[i]);
                }
                assert(out@.take(sl) == pre.take(sl));
                lemma_expanded_mono(*g, pv, visited@, pre, out@, head as int);
                assert forall|dd: int|
                    #![trigger step(out@[head as int], dd)]
                    0 <= dd < dir + 1 && g.in_bounds(step(out@[head as int], dd).0, step(out@[head as int], dd).1, step(out@[head as int], dd).2)
                        && g.cell(step(out@[head as int], dd).0, step(out@[head as int], dd).1, step(out@[head as int], dd).2) != 0
                        implies visited@[g.index_of(step(out@[head as int], dd).0, step(out@[head as int], dd).1, step(out@[head as int], dd).2)] by {
                    assert(out@[head as int] == pre[head as int]);
                    lemma_step_index(*g, step(out@[head as int], dd));
                    if dd < dir {
                        assert(pv[g.index_of(step(pre[head as int], dd).0, step(pre[head as int], dd).1, step(pre[head as int], dd).2)]);
                    }
                }
            }
            dir = dir + 1;
        }
        proof {
            assert forall|i: int, dd: int|
                #![trigger out@[i], step(out@[i], dd)]
                0 <= i < head + 1 && 0 <= dd < 6 && g.in_bounds(step(out@[i], dd).0, step(out@[i], dd).1, step(out@[i], dd).2)
                    && g.cell(step(out@[i], dd).0, step(out@[i], dd).1, step(out@[i], dd).2) != 0
                    implies visited@[g.index_of(step(out@[i], dd).0, step(out@[i], dd).1, step(out@[i], dd).2)] by {
                if i == head {
                    assert(step(out@[head as int], dd) == step(out@[i], dd));
                }
            }
        }
        head = head + 1;
    }
    out
}

/// Scan-loop state of `collect_components` before the cell with scan index `p`.
spec fn scan_state(g: VoxelGrid, vis: Seq<bool>, comps: Seq<Seq<Voxel>>, excluded: Seq<Voxel>, p: int) -> bool {
    &&& vis.len() == g.volume()
    &&& forall|k: int| #![trigger comps[k]] 0 <= k < comps.len() ==> is_component(g, comps[k])
    &&& pairwise_disjoint(comps)
    &&& forall|k: int, v: Voxel|
        #![trigger comps[k].contains(v), excluded.contains(v)]
        0 <= k < comps.len() && comps[k].contains(v) ==> !excluded.contains(v)
    &&& forall|v: Voxel|
        #![trigger vis[scan_index(g, v)]]
        in_grid(g, v) ==> (vis[scan_index(g, v)] == (covered(comps, v) || excluded.contains(v)))
    &&& forall|v: Voxel|
        #![trigger is_filled(g, v)]
        is_filled(g, v) && scan_index(g, v) < p && !excluded.contains(v) ==> covered(comps, v)
    &&& forall|k: int| #![trigger comps[k]] 0 <= k < comps.len() ==> scan_index(g, comps[k][0]) < p
    &&& forall|k1: int, k2: int|
        #![trigger comps[k1], comps[k2]]
        0 <= k1 < k2 < comps.len() ==> scan_index(g, comps[k1][0]) < scan_index(g, comps[k2][0])
}

/// Handles the scan cell `c` (scan index `p`): when it is non-air and not yet
/// marked, floods its component and appends it.
fn scan_cell(
    g: &VoxelGrid,
    visited: &mut Vec<bool>,
    comps: &mut Vec<Vec<Voxel>>,
    c: Voxel,
    Ghost(excluded): Ghost<Seq<Voxel>>,
)
    requires
        g.wf(),
        in_grid(*g, c),
        closed_in(*g, excluded),
        all_filled(*g, excluded),
        scan_state(*g, old(visited)@, deep(old(comps)@), excluded, scan_index(*g, c)),
    ensures
        scan_state(*g, final(visited)@, deep(final(comps)@), excluded, scan_index(*g, c) + 1),
{
    let ghost p = scan_index(*g, c);
    let ghost old_comps = deep(comps@);
    let ghost v0 = visited@;
    let i = g.cell_index(c.0, c.1, c.2);
    proof {
        lemma_scan_index(*g, c);
    }
    if visited[i] || g.get(c.0, c.1, c.2) == Some(0u8) {
        proof {
            assert forall|v: Voxel|
                #![trigger is_filled(*g, v)]
                is_filled(*g, v) && scan_index(*g, v) < p + 1 && !excluded.contains(v)
                    implies covered(old_comps, v) by {
                if scan_index(*g, v) == p {
                    lemma_scan_index_injective(*g, v, c);
                    assert(v0[scan_index(*g, v)]);
                }
            }
        }
        return;
    }
    proof {
        assert(!covered(old_comps, c));
        assert(!excluded.contains(c));
    }
    visited.set(i, true);
    let ghost ov = visited@;
    let seeds: Vec<Voxel> = vec![c];
    proof {
        assert(seeds@ == seq![c]);
        assert(seeds@.no_duplicates());
        assert(ov[scan_index(*g, seeds@[0])]);
    }
    let comp = flood(g, visited, seeds);
    let ghost out = comp@;
    proof {
        assert(out[0] == c) by {
            assert(out.take(1)[0] == seeds@[0]);
        }
        // voxels newly marked by the flood were unmarked before it
        assert forall|i: int| 0 <= i < out.len() implies !v0[#[trigger] scan_index(*g, out[i])] by {
            if i == 0 {
            } else {
                assert(!ov[scan_index(*g, out[i])]);
                lemma_scan_index(*g, out[i]);
                lemma_scan_index(*g, c);
                if scan_index(*g, out[i]) == scan_index(*g, c) {
                    lemma_scan_index_injective(*g, out[i], c);
                    assert(out[0] == out[i]);
                }
            }
        }
        assert forall|i: int| 0 <= i < out.len() implies !covered(old_comps, #[trigger] out[i])
            && !excluded.contains(out[i]) by {
            assert(!v0[scan_index(*g, out[i])]);
        }
        // the flood result is closed
        assert forall|i: int, u: Voxel|
            #![trigger out[i], is_filled(*g, u)]
            0 <= i < out.len() && is_filled(*g, u) && face_adjacent(out[i], u)
                implies out.contains(u) by {
            lemma_step_adjacent(*g, out[i], u);
            let vis = visited@;
            assert(vis[scan_index(*g, u)]);
            lemma_scan_index(*g, u);
            if !ov[scan_index(*g, u)] {
                let k = choose|k: int| 1 <= k < out.len() && scan_index(*g, #[trigger] out[k]) == scan_index(*g, u);
                lemma_scan_index_injective(*g, out[k], u);
            } else if scan_index(*g, u) == scan_index(*g, c) {
                lemma_scan_index_injective(*g, u, c);
            } else {
                assert(v0[scan_index(*g, u)]);
                lemma_face_adjacent_symmetric(out[i], u);
                if excluded.contains(u) {
                    let e = excluded.index_of(u);
                    assert(excluded[e] == u);
                    assert(excluded.contains(out[i]));
                } else {
                    let k = choose|k: int| 0 <= k < old_comps.len() && #[trigger] old_comps[k].contains(u);
                    let e = old_comps[k].index_of(u);
                    assert(old_comps[k][e] == u);
                    assert(is_component(*g, old_comps[k]));
                    assert(old_comps[k].contains(out[i]));
                }
            }
        }
        // every voxel of the flood result comes at or after the seed in scan order
        assert forall|i: int| 0 <= i < out.len() implies scan_index(*g, out[0]) <= scan_index(*g, #[trigger] out[i]) by {
            if scan_index(*g, out[i]) < p {
                assert(is_filled(*g, out[i]));
            }
        }
        assert(is_component(*g, out));
    }
    comps.push(comp);
    proof {
        let nc = deep(comps@);
        assert(nc.len() == old_comps.len() + 1);
        assert forall|k: int| 0 <= k < old_comps.len() implies #[trigger] nc[k] == old_comps[k] by {
        }
        assert(nc[old_comps.len() as int] == out);
        assert forall|k: int| #![trigger nc[k]] 0 <= k < nc.len() implies is_component(*g, nc[k]) by {
            if k < old_comps.len() {
                assert(nc[k] == old_comps[k]);
            }
        }
        assert forall|k1: int, k2: int, v: Voxel|
            #![trigger nc[k1].contains(v), nc[k2].contains(v)]
            0 <= k1 < nc.len() && 0 <= k2 < nc.len() && nc[k1].contains(v) && nc[k2].contains(v)
                implies k1 == k2 by {
            if k1 == old_comps.len() && k2 < old_comps.len() {
                let e = out.index_of(v);
                assert(!covered(old_comps, out[e]));
                assert(old_comps[k2].contains(v));
            } else if k2 == old_comps.len() && k1 < old_comps.len() {
                let e = out.index_of(v);
                assert(!covered(old_comps, out[e]));
                assert(old_comps[k1].contains(v));
            }
        }
        assert forall|k: int, v: Voxel|
            #![trigger nc[k].contains(v), excluded.contains(v)]
            0 <= k < nc.len() && nc[k].contains(v) implies !excluded.contains(v) by {
            if k == old_comps.len() {
                let e = out.index_of(v);
                assert(!excluded.contains(out[e]));
            }
        }
        let vis = visited@;
        assert forall|v: Voxel|
            #![trigger vis[scan_index(*g, v)]]
            in_grid(*g, v) implies (vis[scan_index(*g, v)] == (covered(nc, v) || excluded.contains(v))) by {
            lemma_scan_index(*g, v);
            if covered(old_comps, v) {
                let k = choose|k: int| 0 <= k < old_comps.len() && #[trigger] old_comps[k].contains(v);
                assert(nc[k].contains(v));
            }
            if covered(nc, v) && !covered(old_comps, v) {
                let k = choose|k: int| 0 <= k < nc.len() && #[trigger] nc[k].contains(v);
                if k < old_comps.len() {
                    assert(old_comps[k].contains(v));
                }
                assert(out.contains(v));
                let e = out.index_of(v);
                assert(vis[scan_index(*g, out[e])]);
            }
            if vis[scan_index(*g, v)] && !v0[scan_index(*g, v)] {
                if ov[scan_index(*g, v)] {
                    lemma_scan_index(*g, c);
                    if scan_index(*g, v) != scan_index(*g, c) {
                        assert(v0[scan_index(*g, v)]);
                    }
                    lemma_scan_index_injective(*g, v, c);
                    assert(nc[old_comps.len() as int].contains(out[0]));
                } else {
                    let k = choose|k: int| 1 <= k < out.len() && scan_index(*g, #[trigger] out[k]) == scan_index(*g, v);
                    lemma_scan_index_injective(*g, out[k], v);
                    assert(nc[old_comps.len() as int].contains(out[k]));
                }
            }
        }
        assert forall|v: Voxel|
            #![trigger is_filled(*g, v)]
            is_filled(*g, v) && scan_index(*g, v) < p + 1 && !excluded.contains(v) implies covered(nc, v) by {
            if scan_index(*g, v) == p {
                lemma_scan_index_injective(*g, v, c);
                assert(nc[old_comps.len() as int].contains(out[0]));
            } else {
                let k = choose|k: int| 0 <= k < old_comps.len() && #[trigger] old_comps[k].contains(v);
                assert(nc[k].contains(v));
            }
        }
    }
}

/// The `step` relation and `face_adjacent` agree on which cells touch.
proof fn lemma_step_adjacent(g: VoxelGrid, a: Voxel, u: Voxel)
    requires
        face_adjacent(a, u),
    ensures
        exists|dir: int| 0 <= dir < 6 && #[trigger] step(a, dir) == vpos(u),
{
    if step(a, 0) == vpos(u) {
        assert(step(a, 0) == vpos(u));
    } else if step(a, 1) == vpos(u) {
        assert(step(a, 1) == vpos(u));
    } else if step(a, 2) == vpos(u) {
        assert(step(a, 2) == vpos(u));
    } else if step(a, 3) == vpos(u) {
        assert(step(a, 3) == vpos(u));
    } else if step(a, 4) == vpos(u) {
        assert(step(a, 4) == vpos(u));
    } else {
        assert(step(a, 5) == vpos(u));
    }
}

proof fn lemma_row_end(w: int, h: int, y: int, z: int)
    ensures
        crate::voxel::grid::linear_index(w, h, w, y, z) == crate::voxel::grid::linear_index(w, h, 0, y + 1, z),
        crate::voxel::grid::linear_index(w, h, 0, h, z) == crate::voxel::grid::linear_index(w, h, 0, 0, z + 1),
{
    assert((z * h + y) * w + w == (z * h + (y + 1)) * w + 0) by (nonlinear_arith);
    assert((z * h + h) * w + 0 == ((z + 1) * h + 0) * w + 0) by (nonlinear_arith);
}

/// Scans the grid and floods every non-air voxel that is neither marked nor
/// in `excluded` (whose voxels are exactly the marked ones).
fn collect_components(g: &VoxelGrid, visited: &mut Vec<bool>, Ghost(excluded): Ghost<Seq<Voxel>>) -> (comps: Vec<Vec<Voxel>>)
    requires
        g.wf(),
        old(visited).len() == g.volume(),
        closed_in(*g, excluded),
        all_filled(*g, excluded),
        forall|v: Voxel|
            #![trigger old(visited)@[scan_index(*g, v)]]
            in_grid(*g, v) ==> old(visited)@[scan_index(*g, v)] == excluded.contains(v),
    ensures
        components_outside(*g, deep(comps@), excluded),
{
    let (w, h, d) = g.dimensions();
    let mut components: Vec<Vec<Voxel>> = Vec::new();
    let ghost wi = w as int;
    let ghost hi = h as int;
    proof {
        assert(deep(components@) == Seq::<Seq<Voxel>>::empty());
        assert forall|v: Voxel|
            #![trigger visited@[scan_index(*g, v)]]
            in_grid(*g, v) implies (visited@[scan_index(*g, v)] == (covered(deep(components@), v) || excluded.contains(v))) by {
        }
        assert((0 * hi + 0) * wi + 0 == 0) by (nonlinear_arith);
    }
    let mut z: u32 = 0;
    while z < d
        invariant
            g.wf(),
            (w, h, d) == (g.spec_width(), g.spec_height(), g.spec_depth()),
            wi == w, hi == h,
            closed_in(*g, excluded),
            all_filled(*g, excluded),
            z <= d,
            scan_state(*g, visited@, deep(components@), excluded, crate::voxel::grid::linear_index(wi, hi, 0, 0, z as int)),
        decreases d - z,
    {
        let mut y: u32 = 0;
        while y < h
            invariant
                g.wf(),
                (w, h, d) == (g.spec_width(), g.spec_height(), g.spec_depth()),
                wi == w, hi == h,
                closed_in(*g, excluded),
                all_filled(*g, excluded),
                z < d,
                y <= h,
                scan_state(*g, visited@, deep(components@), excluded, crate::voxel::grid::linear_index(wi, hi, 0, y as int, z as int)),
            decreases h - y,
        {
            let mut x: u32 = 0;
            while x < w
                invariant
                    g.wf(),
                    (w, h, d) == (g.spec_width(), g.spec_height(), g.spec_depth()),
                    wi == w, hi == h,
                    closed_in(*g, excluded),
                    all_filled(*g, excluded),
                    z < d,
                    y < h,
                    x <= w,
                    scan_state(*g, visited@, deep(components@), excluded, crate::voxel::grid::linear_index(wi, hi, x as int, y as int, z as int)),
                decreases w - x,
            {
                scan_cell(g, visited, &mut components, (x, y, z), Ghost(excluded));
                x = x + 1;
            }
            proof {
                lemma_row_end(wi, hi, y as int, z as int);
            }
            y = y + 1;
        }
        proof {
            lemma_row_end(wi, hi, hi, z as int);
        }
        z = z + 1;
    }
    proof {
        let comps = deep(components@);
        assert(crate::voxel::grid::linear_index(wi, hi, 0, 0, d as int) == g.volume()) by {
            assert((d * hi + 0) * wi + 0 == wi * hi * d) by (nonlinear_arith);
        }
        assert forall|v: Voxel|
            #![trigger is_filled(*g, v)]
            is_filled(*g, v) && !excluded.contains(v) implies covered(comps, v) by {
            lemma_scan_index(*g, v);
        }
    }
    components
}

/// All 6-connected components of the non-air voxels, in scan order of their
/// first voxel; each component lists its voxels from that first voxel on.
pub fn find_connected_components(grid: &VoxelGrid) -> (comps: Vec<Vec<Voxel>>)
    requires
        grid.wf(),
    ensures
        components_outside(*grid, deep(comps@), Seq::empty()),
{
    let (w, h, d) = grid.dimensions();
    let mut visited: Vec<bool> = vec![false; (w * h * d) as usize];
    proof {
        assert forall|v: Voxel|
            #![trigger visited@[scan_index(*grid, v)]]
            in_grid(*grid, v) implies visited@[scan_index(*grid, v)] == Seq::<Voxel>::empty().contains(v) by {
            lemma_scan_index(*grid, v);
        }
    }
    collect_components(grid, &mut visited, Ghost(Seq::empty()))
}

/// `s` is the set of non-air voxels reachable from the non-air voxels of
/// `anchors` through face-adjacent non-air voxels.
pub open spec fn is_reach_set(g: VoxelGrid, anchors: Seq<Voxel>, s: Seq<Voxel>) -> bool {
    &&& s.no_duplicates()
    &&& all_filled(g, s)
    &&& closed_in(g, s)
    &&& forall|a: Voxel| #![trigger anchors.contains(a)] anchors.contains(a) && is_filled(g, a) ==> s.contains(a)
    &&& forall|i: int|
        #![trigger s[i]]
        0 <= i < s.len() ==> anchors.contains(s[i]) || exists|j: int| 0 <= j < i && face_adjacent(s[j], s[i])
}

/// Splits the non-air voxels into those connected to an anchor (returned
/// first) and the unsupported components (each as in
/// `find_connected_components`).
pub fn find_anchored_and_fragments(grid: &VoxelGrid, anchors: &[Voxel]) -> (r: (Vec<Voxel>, Vec<Vec<Voxel>>))
    requires
        grid.wf(),
        forall|i: int| 0 <= i < anchors@.len() ==> in_grid(*grid, #[trigger] anchors@[i]),
    ensures
        is_reach_set(*grid, anchors@, r.0@),
        components_outside(*grid, deep(r.1@), r.0@),
{
    let (w, h, d) = grid.dimensions();
    let mut visited: Vec<bool> = vec![false; (w * h * d) as usize];
    let mut seeds: Vec<Voxel> = Vec::new();
    let mut k: usize = 0;
    proof {
        assert forall|v: Voxel|
            #![trigger visited@[scan_index(*grid, v)]]
            in_grid(*grid, v) implies visited@[scan_index(*grid, v)] == seeds@.contains(v) by {
            lemma_scan_index(*grid, v);
        }
    }
    while k < anchors.len()
        invariant
            grid.wf(),
            (w, h, d) == (grid.spec_width(), grid.spec_height(), grid.spec_depth()),
            k <= anchors.len(),
            forall|i: int| 0 <= i < anchors@.len() ==> in_grid(*grid, #[trigger] anchors@[i]),
            visited.len() == grid.volume(),
            seeds@.no_duplicates(),
            all_filled(*grid, seeds@),
            forall|i: int| #![trigger seeds@[i]] 0 <= i < seeds.len() ==> anchors@.contains(seeds@[i]),
            forall|v: Voxel|
                #![trigger visited@[scan_index(*grid, v)]]
                in_grid(*grid, v) ==> visited@[scan_index(*grid, v)] == seeds@.contains(v),
            forall|i: int|
                #![trigger anchors@[i]]
                0 <= i < k && is_filled(*grid, anchors@[i]) ==> seeds@.contains(anchors@[i]),
        decreases anchors.len() - k,
    {
        let (x, y, z) = anchors[k];
        proof {
            assert(in_grid(*grid, anchors@[k as int]));
        }
        if grid.get(x, y, z) != Some(0u8) {
            let i = grid.cell_index(x, y, z);
            proof {
                lemma_scan_index(*grid, (x, y, z));
            }
            if !visited[i] {
                let ghost pre = seeds@;
                let ghost pv = visited@;
                visited.set(i, true);
                seeds.push((x, y, z));
                proof {
                    assert(anchors@.contains(anchors@[k as int]));
                    assert forall|v: Voxel|
                        #![trigger visited@[scan_index(*grid, v)]]
                        in_grid(*grid, v) implies visited@[scan_index(*grid, v)] == seeds@.contains(v) by {
                        lemma_scan_index(*grid, v);
                        if scan_index(*grid, v) == i as int {
                            lemma_scan_index_injective(*grid, v, (x, y, z));
                            assert(seeds@[pre.len() as int] == v);
                        } else {
                            if seeds@.contains(v) && v != (x, y, z) {
                                let e = seeds@.index_of(v);
                                assert(pre[e] == v);
                            }
                            if pre.contains(v) {
                                let e = pre.index_of(v);
                                assert(seeds@[e] == v);
                            }
                        }
                    }
                    assert forall|i: int| #![trigger anchors@[i]] 0 <= i < k + 1 && is_filled(*grid, anchors@[i])
                        implies seeds@.contains(anchors@[i]) by {
                        if i < k {
                            let e = pre.index_of(anchors@[i]);
                            assert(seeds@[e] == anchors@[i]);
                        } else {
                            assert(seeds@[pre.len() as int] == anchors@[i]);
                        }
                    }
                    assert(seeds@.no_duplicates());
                }
            } else {
                proof {
                    assert(seeds@.contains((x, y, z)));
                }
            }
        }
        k = k + 1;
    }
    proof {
        assert forall|i: int| #![trigger seeds@[i]] 0 <= i < seeds.len() implies visited@[scan_index(*grid, seeds@[i])] by {
            assert(seeds@.contains(seeds@[i]));
        }
    }
    let ghost ov = visited@;
    let ghost sd = seeds@;
    let supported = flood(grid, &mut visited, seeds);
    let ghost s = supported@;
    proof {
        assert forall|i: int| 0 <= i < sd.len() implies s[i] == #[trigger] sd[i] by {
            assert(s.take(sd.len() as int)[i] == sd[i]);
        }
        assert forall|v: Voxel|
            #![trigger visited@[scan_index(*grid, v)]]
            in_grid(*grid, v) implies visited@[scan_index(*grid, v)] == s.contains(v) by {
            lemma_scan_index(*grid, v);
            if s.contains(v) {
                let e = s.index_of(v);
                assert(visited@[scan_index(*grid, s[e])]);
            }
            if visited@[scan_index(*grid, v)] {
                if ov[scan_index(*grid, v)] {
                    let e = sd.index_of(v);
                    assert(s[e] == v);
                } else {
                    let e = choose|e: int| sd.len() <= e < s.len() && scan_index(*grid, #[trigger] s[e]) == scan_index(*grid, v);
                    lemma_scan_index_injective(*grid, s[e], v);
                }
            }
        }
        assert forall|i: int, u: Voxel|
            #![trigger s[i], is_filled(*grid, u)]
            0 <= i < s.len() && is_filled(*grid, u) && face_adjacent(s[i], u) implies s.contains(u) by {
            lemma_step_adjacent(*grid, s[i], u);
            assert(visited@[scan_index(*grid, u)]);
        }
        assert forall|a: Voxel| #![trigger anchors@.contains(a)] anchors@.contains(a) && is_filled(*grid, a)
            implies s.contains(a) by {
            let e = anchors@.index_of(a);
            assert(anchors@[e] == a);
            let f = sd.index_of(a);
            assert(s[f] == a);
        }
        assert forall|i: int| #![trigger s[i]] 0 <= i < s.len()
            implies anchors@.contains(s[i]) || exists|j: int| 0 <= j < i && face_adjacent(s[j], s[i]) by {
            if i < sd.len() {
                assert(s[i] == sd[i]);
            }
        }
    }
    let fragments = collect_components(grid, &mut visited, Ghost(s));
    (supported, fragments)
}

/// The voxels `(x, 0, z)` of the bottom layer that test non-air (every
/// position tests non-air when the grid has no layers), in scan order.
pub fn ground_anchors(grid: &VoxelGrid) -> (r: Vec<Voxel>)
    requires
        grid.wf(),
    ensures
        forall|i: int|
            #![trigger r@[i]]
            0 <= i < r@.len() ==> r@[i].1 == 0 && grid.filled(r@[i].0 as int, 0, r@[i].2 as int),
        forall|x: u32, z: u32|
            #![trigger grid.filled(x as int, 0, z as int)]
            grid.filled(x as int, 0, z as int) ==> r@.contains((x, 0u32, z)),
        forall|i: int, j: int|
            #![trigger r@[i], r@[j]]
            0 <= i < j < r@.len() ==> r@[i].2 < r@[j].2 || (r@[i].2 == r@[j].2 && r@[i].0 < r@[j].0),
{
    let (w, h, d) = grid.dimensions();
    let mut anchors: Vec<Voxel> = Vec::new();
    if h == 0 {
        return anchors;
    }
    let mut z: u32 = 0;
    while z < d
        invariant
            grid.wf(),
            w == grid.spec_width(),
            h == grid.spec_height(),
            h > 0,
            d == grid.spec_depth(),
            z <= d,
            forall|i: int|
                #![trigger anchors@[i]]
                0 <= i < anchors@.len() ==> anchors@[i].1 == 0 && anchors@[i].0 < w && anchors@[i].2 < z
                    && grid.not_air(anchors@[i].0 as int, 0, anchors@[i].2 as int),
            forall|x: u32, zz: u32|
                #![trigger grid.not_air(x as int, 0, zz as int)]
                x < w && zz < z && grid.not_air(x as int, 0, zz as int) ==> anchors@.contains((x, 0u32, zz)),
            forall|i: int, j: int|
                #![trigger anchors@[i], anchors@[j]]
                0 <= i < j < anchors@.len() ==> anchors@[i].2 < anchors@[j].2 || (anchors@[i].2 == anchors@[j].2
                    && anchors@[i].0 < anchors@[j].0),
        decreases d - z,
    {
        let mut x: u32 = 0;
        let ghost base = anchors@;
        while x < w
            invariant
                grid.wf(),
                w == grid.spec_width(),
                d == grid.spec_depth(),
                z < d,
                x <= w,
                base.len() <= anchors@.len(),
                forall|i: int| 0 <= i < base.len() ==> anchors@[i] == #[trigger] base[i],
                forall|i: int|
                    #![trigger anchors@[i]]
                    base.len() <= i < anchors@.len() ==> anchors@[i].2 == z && anchors@[i].0 < x,
                forall|i: int|
                    #![trigger anchors@[i]]
                    0 <= i < anchors@.len() ==> anchors@[i].1 == 0 && anchors@[i].0 < w && anchors@[i].2 <= z
                        && grid.not_air(anchors@[i].0 as int, 0, anchors@[i].2 as int),
                forall|i: int| #![trigger base[i]] 0 <= i < base.len() ==> base[i].2 < z,
                forall|xx: u32, zz: u32|
                    #![trigger grid.not_air(xx as int, 0, zz as int)]
                    xx < w && zz < z && grid.not_air(xx as int, 0, zz as int) ==> base.contains((xx, 0u32, zz)),
                forall|xx: u32|
                    #![trigger grid.not_air(xx as int, 0, z as int)]
                    xx < x && grid.not_air(xx as int, 0, z as int) ==> anchors@.contains((xx, 0u32, z)),
                forall|i: int, j: int|
                    #![trigger anchors@[i], anchors@[j]]
                    0 <= i < j < anchors@.len() ==> anchors@[i].2 < anchors@[j].2 || (anchors@[i].2
                        == anchors@[j].2 && anchors@[i].0 < anchors@[j].0),
            decreases w - x,
        {
            let ghost pre = anchors@;
            if grid.get(x, 0, z) != Some(0u8) {
                anchors.push((x, 0, z));
                proof {
                    assert forall|xx: u32| #![trigger grid.not_air(xx as int, 0, z as int)]
                        xx < x + 1 && grid.not_air(xx as int, 0, z as int) implies anchors@.contains((xx, 0u32, z)) by {
                        if xx < x {
                            let e = pre.index_of((xx, 0u32, z));
                            assert(anchors@[e] == (xx, 0u32, z));
                        } else {
                            assert(anchors@[pre.len() as int] == (xx, 0u32, z));
                        }
                    }
                    assert forall|i: int| 0 <= i < base.len() implies anchors@[i] == #[trigger] base[i] by {
                        assert(pre[i] == base[i]);
                    }
                    assert forall|i: int, j: int|
                        #![trigger anchors@[i], anchors@[j]]
                        0 <= i < j < anchors@.len() implies anchors@[i].2 < anchors@[j].2 || (anchors@[i].2
                            == anchors@[j].2 && anchors@[i].0 < anchors@[j].0) by {
                        if j == pre.len() {
                            assert(anchors@[i] == pre[i]);
                            if i < base.len() {
                                assert(base[i].2 < z);
                            } else {
                                assert(pre[i].2 == z && pre[i].0 < x);
                            }
                        } else {
                            assert(anchors@[i] == pre[i] && anchors@[j] == pre[j]);
                        }
                    }
                }
            }
            x = x + 1;
        }
        proof {
            assert forall|xx: u32, zz: u32|
                #![trigger grid.not_air(xx as int, 0, zz as int)]
                xx < w && zz < z + 1 && grid.not_air(xx as int, 0, zz as int) implies anchors@.contains((xx, 0u32, zz)) by {
                if zz < z {
                    let e = base.index_of((xx, 0u32, zz));
                    assert(anchors@[e] == (xx, 0u32, zz));
                }
            }
        }
        z = z + 1;
    }
    proof {
        assert forall|i: int| #![trigger anchors@[i]] 0 <= i < anchors@.len() implies anchors@[i].1 == 0 && grid.filled(
            anchors@[i].0 as int,
            0,
            anchors@[i].2 as int,
        ) by {
            assert(grid.not_air(anchors@[i].0 as int, 0, anchors@[i].2 as int));
        }
        assert forall|x: u32, zz: u32| #![trigger grid.filled(x as int, 0, zz as int)] grid.filled(x as int, 0, zz as int)
            implies anchors@.contains((x, 0u32, zz)) by {
            assert(grid.not_air(x as int, 0, zz as int));
        }
    }
    anchors
}

/// With no non-air anchor nothing is supported, and the unsupported
/// fragments are the connected components: as many of them, each with the
/// same voxels as one of the other (given what `find_anchored_and_fragments`
/// and `find_connected_components` promise of their results).
pub proof fn lemma_no_anchor_fragments_are_components(
    g: VoxelGrid,
    anchors: Seq<Voxel>,
    sup: Seq<Voxel>,
    frs: Seq<Seq<Voxel>>,
    comps: Seq<Seq<Voxel>>,
)
    requires
        forall|a: Voxel| #[trigger] anchors.contains(a) ==> !is_filled(g, a),
        is_reach_set(g, anchors, sup),
        components_outside(g, frs, sup),
        components_outside(g, comps, Seq::empty()),
    ensures
        sup.len() == 0,
        frs.len() == comps.len(),
        forall|k: int| 0 <= k < frs.len() ==> #[trigger] has_same_class(frs[k], comps),
        forall|m: int| 0 <= m < comps.len() ==> #[trigger] has_same_class(comps[m], frs),
{
    if sup.len() > 0 {
        assert(anchors.contains(sup[0]));
        assert(is_filled(g, sup[0]));
    }
    assert(sup =~= Seq::<Voxel>::empty());
    lemma_partitions_hold_same_sets(g, frs, comps, Seq::empty());
}

} // verus!
