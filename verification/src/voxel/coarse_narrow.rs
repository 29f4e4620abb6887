use vstd::prelude::*;
use crate::voxel::grid::VoxelGrid;
use crate::voxel::cluster_graph::{ClusterGraph, ClusterId, contains_cluster, spec_cluster_has_voxels, forward_edge, face_pair_ok, cluster_step, cpos, min_int, spec_share_boundary, recomputed_edge, spec_ordered_pair, cluster_lt};
use crate::voxel::topology::{Voxel, step, vpos, face_adjacent, covered, is_component, pairwise_disjoint, lemma_injective_bound, is_filled, in_grid, scan_index, lemma_scan_index, lemma_scan_index_injective, components_outside, component_partition, deep};
use crate::voxel::connectivity::find_connected_components;

verus! {

/// Outcome of the coarse-then-narrow component count.
pub struct CoarseNarrowResult {
    pub component_count: usize,
    /// True if the coarse graph alone was sufficient (no per-voxel flood fill needed).
    pub used_coarse_shortcut: bool,
}

/// `a` and `b` are joined by an edge of `graph`.
pub open spec fn linked(graph: ClusterGraph, a: ClusterId, b: ClusterId) -> bool {
    graph.edge_seq().contains((a, b)) || graph.edge_seq().contains((b, a))
}

/// `p` is a non-empty walk along edges of `graph`.
pub open spec fn coarse_walk(graph: ClusterGraph, p: Seq<ClusterId>) -> bool {
    &&& p.len() > 0
    &&& forall|i: int| 0 <= i < p.len() - 1 ==> #[trigger] linked(graph, p[i], p[i + 1])
}

/// Some walk along edges of `graph` leads from `a` to `b`.
pub open spec fn coarse_connected(graph: ClusterGraph, a: ClusterId, b: ClusterId) -> bool {
    exists|p: Seq<ClusterId>| #[trigger] coarse_walk(graph, p) && p[0] == a && p.last() == b
}

pub proof fn lemma_connected_refl(graph: ClusterGraph, a: ClusterId)
    ensures
        coarse_connected(graph, a, a),
{
    let p = seq![a];
    assert(coarse_walk(graph, p));
}

pub proof fn lemma_connected_step(graph: ClusterGraph, a: ClusterId, b: ClusterId, c: ClusterId)
    requires
        coarse_connected(graph, a, b),
        linked(graph, b, c),
    ensures
        coarse_connected(graph, a, c),
{
    let p = choose|p: Seq<ClusterId>| #[trigger] coarse_walk(graph, p) && p[0] == a && p.last() == b;
    let q = p.push(c);
    assert forall|i: int| 0 <= i < q.len() - 1 implies #[trigger] linked(graph, q[i], q[i + 1]) by {
        if i < p.len() - 1 {
            assert(q[i] == p[i] && q[i + 1] == p[i + 1]);
            assert(linked(graph, p[i], p[i + 1]));
        } else {
            assert(q[i] == b);
        }
    }
    assert(coarse_walk(graph, q));
}

/// `comps` partitions the nodes of `graph` into classes closed under its
/// edges, each reached by walks from its first element: the connected
/// components of `graph`.
pub open spec fn coarse_partition(graph: ClusterGraph, comps: Seq<Seq<ClusterId>>) -> bool {
    &&& forall|k: int| #![trigger comps[k]] 0 <= k < comps.len() ==> comps[k].len() > 0
    &&& forall|k: int, c: ClusterId|
        #![trigger comps[k].contains(c)]
        0 <= k < comps.len() && comps[k].contains(c) ==> graph.node_seq().contains(c)
    &&& forall|k1: int, k2: int, c: ClusterId|
        #![trigger comps[k1].contains(c), comps[k2].contains(c)]
        0 <= k1 < comps.len() && 0 <= k2 < comps.len() && comps[k1].contains(c) && comps[k2].contains(c) ==> k1 == k2
    &&& forall|c: ClusterId|
        #![trigger graph.node_seq().contains(c)]
        graph.node_seq().contains(c) ==> exists|k: int| 0 <= k < comps.len() && #[trigger] comps[k].contains(c)
    &&& forall|k: int, a: ClusterId, b: ClusterId|
        #![trigger comps[k].contains(a), linked(graph, a, b)]
        0 <= k < comps.len() && comps[k].contains(a) && linked(graph, a, b) ==> comps[k].contains(b)
    &&& forall|k: int, c: ClusterId|
        #![trigger comps[k].contains(c)]
        0 <= k < comps.len() && comps[k].contains(c) ==> coarse_connected(graph, comps[k][0], c)
}

/// A class closed under the edges of `graph` that holds the first element
/// of a walk holds its `j`-th.
pub proof fn lemma_walk_forward(graph: ClusterGraph, comp: Seq<ClusterId>, w: Seq<ClusterId>, j: int)
    requires
        coarse_walk(graph, w),
        0 <= j < w.len(),
        comp.contains(w[0]),
        forall|a: ClusterId, b: ClusterId| #![trigger comp.contains(a), linked(graph, a, b)] comp.contains(a) && linked(graph, a, b) ==> comp.contains(b),
    ensures
        comp.contains(w[j]),
    decreases j,
{
    if j > 0 {
        let i = j - 1;
        lemma_walk_forward(graph, comp, w, i);
        assert(linked(graph, w[i], w[i + 1]));
    }
}

/// A class closed under the edges of `graph` that holds the last element
/// of a walk holds its `j`-th.
pub proof fn lemma_walk_backward(graph: ClusterGraph, comp: Seq<ClusterId>, w: Seq<ClusterId>, j: int)
    requires
        coarse_walk(graph, w),
        0 <= j < w.len(),
        comp.contains(w.last()),
        forall|a: ClusterId, b: ClusterId| #![trigger comp.contains(a), linked(graph, a, b)] comp.contains(a) && linked(graph, a, b) ==> comp.contains(b),
    ensures
        comp.contains(w[j]),
    decreases w.len() - j,
{
    if j < w.len() - 1 {
        lemma_walk_backward(graph, comp, w, j + 1);
        assert(linked(graph, w[j], w[j + 1]));
        assert(linked(graph, w[j + 1], w[j]));
    }
}

/// Two partitions of `p`'s kind map into each other one to one.
proof fn lemma_coarse_partition_le(graph: ClusterGraph, p: Seq<Seq<ClusterId>>, q: Seq<Seq<ClusterId>>)
    requires
        coarse_partition(graph, p),
        coarse_partition(graph, q),
    ensures
        p.len() <= q.len(),
{
    let f = |k: int| choose|m: int| 0 <= m < q.len() && #[trigger] q[m].contains(p[k][0]);
    assert forall|k: int| 0 <= k < p.len() implies 0 <= #[trigger] f(k) < q.len() && q[f(k)].contains(p[k][0]) by {
        assert(p[k].len() > 0);
        assert(p[k].contains(p[k][0]));
        assert(graph.node_seq().contains(p[k][0]));
    }
    assert forall|k1: int, k2: int| 0 <= k1 < p.len() && 0 <= k2 < p.len() && #[trigger] f(k1) == #[trigger] f(k2) implies k1 == k2 by {
        let m = f(k1);
        let r1 = p[k1][0];
        let r2 = p[k2][0];
        assert(q[m].contains(r1) && q[m].contains(r2));
        let root = q[m][0];
        assert(coarse_connected(graph, root, r1));
        assert(coarse_connected(graph, root, r2));
        let w1 = choose|w: Seq<ClusterId>| #[trigger] coarse_walk(graph, w) && w[0] == root && w.last() == r1;
        let w2 = choose|w: Seq<ClusterId>| #[trigger] coarse_walk(graph, w) && w[0] == root && w.last() == r2;
        assert(p[k1].len() > 0);
        assert(p[k1].contains(r1));
        assert forall|a: ClusterId, b: ClusterId| #![trigger p[k1].contains(a), linked(graph, a, b)] p[k1].contains(a) && linked(graph, a, b) implies p[k1].contains(b) by {}
        lemma_walk_backward(graph, p[k1], w1, 0);
        lemma_walk_forward(graph, p[k1], w2, w2.len() - 1);
        assert(p[k2].len() > 0);
        assert(p[k2].contains(r2));
    }
    crate::voxel::topology::lemma_injective_bound(f, p.len() as int, q.len() as int);
}

/// The connected components of a cluster graph are determined by the graph:
/// any two partitions into components have the same number of classes.
pub proof fn lemma_coarse_component_count_unique(graph: ClusterGraph, p: Seq<Seq<ClusterId>>, q: Seq<Seq<ClusterId>>)
    requires
        coarse_partition(graph, p),
        coarse_partition(graph, q),
    ensures
        p.len() == q.len(),
{
    lemma_coarse_partition_le(graph, p, q);
    lemma_coarse_partition_le(graph, q, p);
}

pub open spec fn deep_clusters(v: Seq<Vec<ClusterId>>) -> Seq<Seq<ClusterId>> {
    v.map_values(|c: Vec<ClusterId>| c@)
}

/// A duplicate-free sequence of nodes is no longer than the node list.
pub proof fn lemma_node_subset_len(graph: ClusterGraph, s: Seq<ClusterId>)
    requires
        graph.wf(),
        s.no_duplicates(),
        forall|c: ClusterId| #![trigger s.contains(c)] s.contains(c) ==> graph.node_seq().contains(c),
    ensures
        s.len() <= graph.node_seq().len(),
{
    let nodes = graph.node_seq();
    let f = |i: int| nodes.index_of(s[i]);
    assert forall|i: int| 0 <= i < s.len() implies 0 <= #[trigger] f(i) < nodes.len() && nodes[f(i)] == s[i] by {
        assert(s.contains(s[i]));
    }
    assert forall|i: int, j: int| 0 <= i < s.len() && 0 <= j < s.len() && #[trigger] f(i) == #[trigger] f(j) implies i == j by {
        assert(nodes[f(i)] == s[i]);
        assert(nodes[f(j)] == s[j]);
    }
    lemma_injective_bound(f, s.len() as int, nodes.len() as int);
}

/// Breadth-first search for the connected components of the coarse graph.
pub fn coarse_connected_components(graph: &ClusterGraph) -> (comps: Vec<Vec<ClusterId>>)
    requires
        graph.wf(),
    ensures
        coarse_partition(*graph, deep_clusters(comps@)),
{
    let nodes = graph.nodes();
    let mut visited: Vec<ClusterId> = Vec::new();
    let mut components: Vec<Vec<ClusterId>> = Vec::new();
    let mut i: usize = 0;
    while i < nodes.len()
        invariant
            graph.wf(),
            nodes@ == graph.node_seq(),
            i <= nodes.len(),
            visited@.no_duplicates(),
            forall|c: ClusterId| #![trigger visited@.contains(c)] visited@.contains(c) ==> graph.node_seq().contains(c),
            forall|c: ClusterId|
                #![trigger visited@.contains(c)]
                visited@.contains(c) <==> exists|k: int| 0 <= k < components@.len() && #[trigger] components@[k]@.contains(c),
            forall|j: int| #![trigger nodes@[j]] 0 <= j < i ==> visited@.contains(nodes@[j]),
            forall|k: int| #![trigger components@[k]] 0 <= k < components@.len() ==> components@[k]@.len() > 0,
            forall|k1: int, k2: int, c: ClusterId|
                #![trigger components@[k1]@.contains(c), components@[k2]@.contains(c)]
                0 <= k1 < components@.len() && 0 <= k2 < components@.len() && components@[k1]@.contains(c)
                    && components@[k2]@.contains(c) ==> k1 == k2,
            forall|k: int, a: ClusterId, b: ClusterId|
                #![trigger components@[k]@.contains(a), linked(*graph, a, b)]
                0 <= k < components@.len() && components@[k]@.contains(a) && linked(*graph, a, b)
                    ==> components@[k]@.contains(b),
            forall|k: int, c: ClusterId|
                #![trigger components@[k]@.contains(c)]
                0 <= k < components@.len() && components@[k]@.contains(c) ==> coarse_connected(*graph, components@[k]@[0], c),
        decreases nodes.len() - i,
    {
        let node = nodes[i];
        proof {
            assert(graph.node_seq().contains(node));
        }
        if !contains_cluster(&visited, node) {
            let ghost old_visited = visited@;
            let ghost old_comps = components@;
            let mut comp: Vec<ClusterId> = Vec::new();
            comp.push(node);
            visited.push(node);
            proof {
                lemma_connected_refl(*graph, node);
                assert forall|c: ClusterId| #![trigger comp@.contains(c)] comp@.contains(c) implies coarse_connected(*graph, node, c) by {
                    assert(comp@[0] == c);
                }
                assert forall|c: ClusterId| #![trigger visited@.contains(c)] visited@.contains(c) <==> (old_visited.contains(c) || comp@.contains(c)) by {
                    if visited@.contains(c) && c != node {
                        let e = visited@.index_of(c);
                        assert(old_visited[e] == c);
                    }
                    if old_visited.contains(c) {
                        let e = old_visited.index_of(c);
                        assert(visited@[e] == c);
                    }
                    if c == node {
                        assert(visited@[visited@.len() - 1] == c);
                        assert(comp@[0] == c);
                    }
                    if comp@.contains(c) {
                        assert(comp@[0] == node);
                    }
                }
            }
            let mut head: usize = 0;
            while head < comp.len()
                invariant
                    graph.wf(),
                    nodes@ == graph.node_seq(),
                    i < nodes.len(),
                    head <= comp.len(),
                    comp@.len() > 0,
                    comp@[0] == node,
                    visited@.no_duplicates(),
                    visited@.len() == old_visited.len() + comp@.len(),
                    forall|c: ClusterId| #![trigger visited@.contains(c)] visited@.contains(c) ==> graph.node_seq().contains(c),
                    forall|c: ClusterId| #![trigger visited@.contains(c)] visited@.contains(c) <==> (old_visited.contains(c) || comp@.contains(c)),
                    forall|c: ClusterId| #![trigger comp@.contains(c)] comp@.contains(c) ==> !old_visited.contains(c),
                    comp@.no_duplicates(),
                    forall|c: ClusterId| #![trigger comp@.contains(c)] comp@.contains(c) ==> coarse_connected(*graph, node, c),
                    forall|j: int, b: ClusterId|
                        #![trigger comp@[j], linked(*graph, comp@[j], b)]
                        0 <= j < head && linked(*graph, comp@[j], b) ==> visited@.contains(b),
                decreases graph.node_seq().len() - visited@.len(), comp.len() - head,
            {
                proof {
                    lemma_node_subset_len(*graph, visited@);
                }
                let cur = comp[head];
                proof {
                    assert(comp@.contains(cur));
                }
                let nbrs = graph.neighbors(cur);
                let ghost vlen0 = visited@.len();
                let ghost comp0 = comp@;
                let mut t: usize = 0;
                while t < nbrs.len()
                    invariant
                        graph.wf(),
                        nodes@ == graph.node_seq(),
                        head < comp.len(),
                        cur == comp@[head as int],
                        comp@.len() > 0,
                        comp@[0] == node,
                        comp0.len() <= comp@.len(),
                        forall|j: int| 0 <= j < comp0.len() ==> comp@[j] == #[trigger] comp0[j],
                        t <= nbrs.len(),
                        nbrs@.no_duplicates(),
                        forall|c: ClusterId| #![trigger nbrs@.contains(c)] nbrs@.contains(c) <==> linked(*graph, cur, c),
                        visited@.len() >= vlen0,
                        visited@.no_duplicates(),
                        visited@.len() == old_visited.len() + comp@.len(),
                        forall|c: ClusterId| #![trigger visited@.contains(c)] visited@.contains(c) ==> graph.node_seq().contains(c),
                        forall|c: ClusterId| #![trigger visited@.contains(c)] visited@.contains(c) <==> (old_visited.contains(c) || comp@.contains(c)),
                        forall|c: ClusterId| #![trigger comp@.contains(c)] comp@.contains(c) ==> !old_visited.contains(c),
                        comp@.no_duplicates(),
                        forall|c: ClusterId| #![trigger comp@.contains(c)] comp@.contains(c) ==> coarse_connected(*graph, node, c),
                    forall|c: ClusterId| #![trigger comp@.contains(c)] comp@.contains(c) ==> coarse_connected(*graph, node, c),
                        forall|j: int, b: ClusterId|
                            #![trigger comp@[j], linked(*graph, comp@[j], b)]
                            0 <= j < head && linked(*graph, comp@[j], b) ==> visited@.contains(b),
                        forall|j: int| #![trigger nbrs@[j]] 0 <= j < t ==> visited@.contains(nbrs@[j]),
                    decreases nbrs.len() - t,
                {
                    let nb = nbrs[t];
                    proof {
                        assert(nbrs@.contains(nb));
                        assert(linked(*graph, cur, nb));
                        if graph.edge_seq().contains((cur, nb)) {
                            assert(graph.node_seq().contains(nb));
                        } else {
                            assert(graph.edge_seq().contains((nb, cur)));
                            assert(graph.node_seq().contains(nb));
                        }
                    }
                    if !contains_cluster(&visited, nb) {
                        let ghost pv = visited@;
                        let ghost pc = comp@;
                        visited.push(nb);
                        comp.push(nb);
                        proof {
                            assert forall|c: ClusterId| #![trigger visited@.contains(c)] visited@.contains(c) <==> (old_visited.contains(c) || comp@.contains(c)) by {
                                if visited@.contains(c) && c != nb {
                                    let e = visited@.index_of(c);
                                    assert(pv[e] == c);
                                }
                                if pv.contains(c) {
                                    let e = pv.index_of(c);
                                    assert(visited@[e] == c);
                                }
                                if comp@.contains(c) && c != nb {
                                    let e = comp@.index_of(c);
                                    assert(pc[e] == c);
                                }
                                if pc.contains(c) {
                                    let e = pc.index_of(c);
                                    assert(comp@[e] == c);
                                }
                                if c == nb {
                                    assert(visited@[visited@.len() - 1] == c);
                                    assert(comp@[comp@.len() - 1] == c);
                                }
                            }
                            assert(pc.contains(cur));
                            lemma_connected_step(*graph, node, cur, nb);
                            assert forall|c: ClusterId| #![trigger comp@.contains(c)] comp@.contains(c) implies coarse_connected(*graph, node, c) by {
                                if c != nb {
                                    let e = comp@.index_of(c);
                                    assert(pc[e] == c);
                                    assert(pc.contains(c));
                                }
                            }
                            assert forall|c: ClusterId| #![trigger comp@.contains(c)] comp@.contains(c) implies !old_visited.contains(c) by {
                                if c != nb {
                                    let e = comp@.index_of(c);
                                    assert(pc[e] == c);
                                    assert(pc.contains(c));
                                }
                            }
                            assert forall|k: int| 0 <= k < pc.len() implies pc[k] != nb by {
                                assert(pc.contains(pc[k]));
                            }
                            assert forall|k: int| 0 <= k < pv.len() implies pv[k] != nb by {
                                assert(pv.contains(pv[k]));
                            }
                            assert forall|c: ClusterId| #![trigger visited@.contains(c)] visited@.contains(c) implies graph.node_seq().contains(c) by {
                                if c != nb {
                                    let e = visited@.index_of(c);
                                    assert(pv[e] == c);
                                    assert(pv.contains(c));
                                }
                            }
                            assert forall|j: int| 0 <= j < comp0.len() implies comp@[j] == #[trigger] comp0[j] by {
                                assert(pc[j] == comp0[j]);
                            }
                            assert forall|j: int| #![trigger nbrs@[j]] 0 <= j < t implies visited@.contains(nbrs@[j]) by {
                                let e = pv.index_of(nbrs@[j]);
                                assert(visited@[e] == nbrs@[j]);
                            }
                            assert(visited@[visited@.len() - 1] == nb);
                            assert forall|j: int, b: ClusterId|
                                #![trigger comp@[j], linked(*graph, comp@[j], b)]
                                0 <= j < head && linked(*graph, comp@[j], b) implies visited@.contains(b) by {
                                assert(pc[j] == comp@[j]);
                                let e = pv.index_of(b);
                                assert(visited@[e] == b);
                            }
                        }
                    }
                    proof {
                        assert(visited@.contains(nb));
                    }
                    t = t + 1;
                }
                proof {
                    lemma_node_subset_len(*graph, visited@);
                    if visited@.len() == vlen0 {
                        assert(comp@.len() == comp0.len());
                    }
                    assert forall|j: int, b: ClusterId|
                        #![trigger comp@[j], linked(*graph, comp@[j], b)]
                        0 <= j < head + 1 && linked(*graph, comp@[j], b) implies visited@.contains(b) by {
                        if j == head {
                            assert(nbrs@.contains(b));
                            let e = nbrs@.index_of(b);
                            assert(nbrs@[e] == b);
                        }
                    }
                }
                head = head + 1;
            }
            let ghost cs_ = comp@;
            components.push(comp);
            proof {
                let nc = components@;
                assert(nc[nc.len() - 1]@ == cs_);
                assert forall|k: int| 0 <= k < old_comps.len() implies #[trigger] nc[k] == old_comps[k] by {}
                assert forall|c: ClusterId|
                    #![trigger visited@.contains(c)]
                    visited@.contains(c) <==> exists|k: int| 0 <= k < nc.len() && #[trigger] nc[k]@.contains(c) by {
                    if old_visited.contains(c) {
                        let k = choose|k: int| 0 <= k < old_comps.len() && #[trigger] old_comps[k]@.contains(c);
                        assert(nc[k]@.contains(c));
                    }
                    if cs_.contains(c) {
                        assert(nc[nc.len() - 1]@.contains(c));
                    }
                    if exists|k: int| 0 <= k < nc.len() && #[trigger] nc[k]@.contains(c) {
                        let k = choose|k: int| 0 <= k < nc.len() && #[trigger] nc[k]@.contains(c);
                        if k < old_comps.len() {
                            assert(old_comps[k]@.contains(c));
                        }
                    }
                }
                assert forall|k1: int, k2: int, c: ClusterId|
                    #![trigger nc[k1]@.contains(c), nc[k2]@.contains(c)]
                    0 <= k1 < nc.len() && 0 <= k2 < nc.len() && nc[k1]@.contains(c) && nc[k2]@.contains(c) implies k1 == k2 by {
                    if k1 < old_comps.len() && k2 == old_comps.len() {
                        assert(old_comps[k1]@.contains(c));
                        assert(old_visited.contains(c));
                    } else if k2 < old_comps.len() && k1 == old_comps.len() {
                        assert(old_comps[k2]@.contains(c));
                        assert(old_visited.contains(c));
                    }
                }
                assert forall|k: int, a: ClusterId, b: ClusterId|
                    #![trigger nc[k]@.contains(a), linked(*graph, a, b)]
                    0 <= k < nc.len() && nc[k]@.contains(a) && linked(*graph, a, b) implies nc[k]@.contains(b) by {
                    if k == old_comps.len() {
                        let j = cs_.index_of(a);
                        assert(cs_[j] == a);
                        assert(visited@.contains(b));
                        if !cs_.contains(b) {
                            assert(old_visited.contains(b));
                            let kk = choose|kk: int| 0 <= kk < old_comps.len() && #[trigger] old_comps[kk]@.contains(b);
                            assert(linked(*graph, b, a));
                            assert(old_comps[kk]@.contains(a));
                            assert(old_visited.contains(a));
                        }
                    } else {
                        assert(old_comps[k]@.contains(a));
                    }
                }
                assert forall|k: int, c: ClusterId|
                    #![trigger nc[k]@.contains(c)]
                    0 <= k < nc.len() && nc[k]@.contains(c) implies coarse_connected(*graph, nc[k]@[0], c) by {
                    if k < old_comps.len() {
                        assert(old_comps[k]@.contains(c));
                    } else {
                        assert(cs_.contains(c));
                        assert(cs_[0] == node);
                    }
                }
                assert forall|j: int| #![trigger nodes@[j]] 0 <= j < i + 1 implies visited@.contains(nodes@[j]) by {
                    if j < i {
                        assert(old_visited.contains(nodes@[j]));
                    } else {
                        assert(cs_.contains(node));
                    }
                }
            }
        }
        i = i + 1;
    }
    proof {
        let d = deep_clusters(components@);
        assert forall|k: int| 0 <= k < components@.len() implies #[trigger] d[k] == components@[k]@ by {}
        assert forall|k: int, c: ClusterId|
            #![trigger d[k].contains(c)]
            0 <= k < d.len() && d[k].contains(c) implies graph.node_seq().contains(c) by {
            assert(components@[k]@.contains(c));
            assert(visited@.contains(c));
        }
        assert forall|k: int| #![trigger d[k]] 0 <= k < d.len() implies d[k].len() > 0 by {
            assert(components@[k]@.len() > 0);
        }
        assert forall|k1: int, k2: int, c: ClusterId|
            #![trigger d[k1].contains(c), d[k2].contains(c)]
            0 <= k1 < d.len() && 0 <= k2 < d.len() && d[k1].contains(c) && d[k2].contains(c) implies k1 == k2 by {
            assert(components@[k1]@.contains(c));
            assert(components@[k2]@.contains(c));
        }
        assert forall|k: int, a: ClusterId, b: ClusterId|
            #![trigger d[k].contains(a), linked(*graph, a, b)]
            0 <= k < d.len() && d[k].contains(a) && linked(*graph, a, b) implies d[k].contains(b) by {
            assert(components@[k]@.contains(a));
        }
        assert forall|k: int, c: ClusterId|
            #![trigger d[k].contains(c)]
            0 <= k < d.len() && d[k].contains(c) implies coarse_connected(*graph, d[k][0], c) by {
            assert(components@[k]@.contains(c));
        }
        assert forall|c: ClusterId|
            #![trigger graph.node_seq().contains(c)]
            graph.node_seq().contains(c) implies exists|k: int| 0 <= k < d.len() && #[trigger] d[k].contains(c) by {
            let j = nodes@.index_of(c);
            assert(visited@.contains(nodes@[j]));
            let k = choose|k: int| 0 <= k < components@.len() && #[trigger] components@[k]@.contains(c);
            assert(d[k].contains(c));
        }
    }
    components
}

/// The cluster holding voxel `v`.
pub open spec fn cluster_of(v: Voxel, cs: int) -> ClusterId {
    ((v.0 as int / cs) as u32, (v.1 as int / cs) as u32, (v.2 as int / cs) as u32)
}

/// A copy of `g` that keeps only the non-air voxels of the listed clusters.
pub open spec fn is_cluster_mask(g: VoxelGrid, m: VoxelGrid, cs: int, clusters: Seq<ClusterId>) -> bool {
    &&& m.wf()
    &&& m.spec_width() == g.spec_width()
    &&& m.spec_height() == g.spec_height()
    &&& m.spec_depth() == g.spec_depth()
    &&& forall|v: Voxel|
        #![trigger is_filled(m, v)]
        is_filled(m, v) <==> (is_filled(g, v) && clusters.contains(cluster_of(v, cs)))
}

/// The 6-connected components of the non-air voxels lying in the given
/// clusters, connectivity taken within those voxels only (found by flood
/// fill on a masked copy of the grid, which is returned as a ghost).
fn narrow_within_clusters(grid: &VoxelGrid, cluster_size: u32, clusters: &Vec<ClusterId>) -> (r: (Vec<Vec<Voxel>>, Ghost<VoxelGrid>))
    requires
        grid.wf(),
        cluster_size > 0,
    ensures
        is_cluster_mask(*grid, r.1@, cluster_size as int, clusters@),
        components_outside(r.1@, deep(r.0@), Seq::empty()),
{
    let cs = cluster_size;
    let (w, h, d) = grid.dimensions();
    let mut mask = VoxelGrid::new(w, h, d);
    let ghost wi = w as int;
    let ghost hi = h as int;
    proof {
        assert((0 * hi + 0) * wi + 0 == 0) by (nonlinear_arith);
        assert forall|v: Voxel| #![trigger mask.cell(v.0 as int, v.1 as int, v.2 as int)] in_grid(*grid, v)
            implies mask.cell(v.0 as int, v.1 as int, v.2 as int) == 0u8 by {
            lemma_scan_index(*grid, v);
        }
    }
    let mut z: u32 = 0;
    while z < d
        invariant
            grid.wf(), mask.wf(), cs > 0,
            (w, h, d) == (grid.spec_width(), grid.spec_height(), grid.spec_depth()),
            (w, h, d) == (mask.spec_width(), mask.spec_height(), mask.spec_depth()),
            wi == w, hi == h,
            z <= d,
            forall|v: Voxel|
                #![trigger mask.cell(v.0 as int, v.1 as int, v.2 as int)]
                in_grid(*grid, v) ==> mask.cell(v.0 as int, v.1 as int, v.2 as int) == (if scan_index(*grid, v) < crate::voxel::grid::linear_index(wi, hi, 0, 0, z as int)
                    && is_filled(*grid, v) && clusters@.contains(cluster_of(v, cs as int)) { 1u8 } else { 0u8 }),
        decreases d - z,
    {
        let mut y: u32 = 0;
        while y < h
            invariant
                grid.wf(), mask.wf(), cs > 0,
                (w, h, d) == (grid.spec_width(), grid.spec_height(), grid.spec_depth()),
                (w, h, d) == (mask.spec_width(), mask.spec_height(), mask.spec_depth()),
                wi == w, hi == h,
                z < d,
                y <= h,
                forall|v: Voxel|
                    #![trigger mask.cell(v.0 as int, v.1 as int, v.2 as int)]
                    in_grid(*grid, v) ==> mask.cell(v.0 as int, v.1 as int, v.2 as int) == (if scan_index(*grid, v) < crate::voxel::grid::linear_index(wi, hi, 0, y as int, z as int)
                        && is_filled(*grid, v) && clusters@.contains(cluster_of(v, cs as int)) { 1u8 } else { 0u8 }),
            decreases h - y,
        {
            let mut x: u32 = 0;
            while x < w
                invariant
                    grid.wf(), mask.wf(), cs > 0,
                    (w, h, d) == (grid.spec_width(), grid.spec_height(), grid.spec_depth()),
                    (w, h, d) == (mask.spec_width(), mask.spec_height(), mask.spec_depth()),
                    wi == w, hi == h,
                    z < d,
                    y < h,
                    x <= w,
                    forall|v: Voxel|
                        #![trigger mask.cell(v.0 as int, v.1 as int, v.2 as int)]
                        in_grid(*grid, v) ==> mask.cell(v.0 as int, v.1 as int, v.2 as int) == (if scan_index(*grid, v) < crate::voxel::grid::linear_index(wi, hi, x as int, y as int, z as int)
                            && is_filled(*grid, v) && clusters@.contains(cluster_of(v, cs as int)) { 1u8 } else { 0u8 }),
                decreases w - x,
            {
                let ghost pm = mask;
                let ghost cur: Voxel = (x, y, z);
                proof {
                    lemma_scan_index(*grid, cur);
                }
                if grid.get(x, y, z) != Some(0u8) && contains_cluster(clusters, (x / cs, y / cs, z / cs)) {
                    mask.set(x, y, z, 1);
                }
                proof {
                    assert forall|v: Voxel|
                        #![trigger mask.cell(v.0 as int, v.1 as int, v.2 as int)]
                        in_grid(*grid, v) implies mask.cell(v.0 as int, v.1 as int, v.2 as int) == (if scan_index(*grid, v) < crate::voxel::grid::linear_index(wi, hi, x as int + 1, y as int, z as int)
                            && is_filled(*grid, v) && clusters@.contains(cluster_of(v, cs as int)) { 1u8 } else { 0u8 }) by {
                        lemma_scan_index(*grid, v);
                        if scan_index(*grid, v) == scan_index(*grid, cur) {
                            lemma_scan_index_injective(*grid, v, cur);
                        } else {
                            assert(pm.cell(v.0 as int, v.1 as int, v.2 as int) == mask.cell(v.0 as int, v.1 as int, v.2 as int));
                        }
                    }
                }
                x = x + 1;
            }
            proof {
                assert((z * hi + y) * wi + wi == (z * hi + (y + 1)) * wi + 0) by (nonlinear_arith);
            }
            y = y + 1;
        }
        proof {
            assert((z * hi + hi) * wi + 0 == ((z + 1) * hi + 0) * wi + 0) by (nonlinear_arith);
        }
        z = z + 1;
    }
    proof {
        assert((d * hi + 0) * wi + 0 == wi * hi * d) by (nonlinear_arith);
        assert forall|v: Voxel|
            #![trigger is_filled(mask, v)]
            is_filled(mask, v) <==> (is_filled(*grid, v) && clusters@.contains(cluster_of(v, cs as int))) by {
            if in_grid(*grid, v) {
                lemma_scan_index(*grid, v);
            }
        }
    }
    let comps = find_connected_components(&mask);
    (comps, Ghost(mask))
}

/// When `x` and `x + 1` fall in different blocks of size `cs`, `x` ends its
/// block and `x + 1` starts the next one.
proof fn lemma_block_boundary(x: int, cs: int)
    requires
        x >= 0,
        cs > 0,
        (x + 1) / cs != x / cs,
    ensures
        x == (x / cs) * cs + cs - 1,
        (x + 1) / cs == x / cs + 1,
        x + 1 == ((x + 1) / cs) * cs,
{
    let q = x / cs;
    let r = x % cs;
    vstd::arithmetic::div_mod::lemma_fundamental_div_mod(x, cs);
    vstd::arithmetic::div_mod::lemma_mod_bound(x, cs);
    assert(x == cs * q + r);
    if r < cs - 1 {
        vstd::arithmetic::div_mod::lemma_fundamental_div_mod_converse(x + 1, cs, q, r + 1);
        assert(false);
    }
    assert(x + 1 == (q + 1) * cs + 0) by (nonlinear_arith)
        requires x == cs * q + r, r == cs - 1;
    vstd::arithmetic::div_mod::lemma_fundamental_div_mod_converse(x + 1, cs, q + 1, 0);
    assert(cs * q == q * cs) by (nonlinear_arith);
}

/// The block of `x` starts at `(x / cs) * cs`, at most `cs - 1` before `x`.
proof fn lemma_block_start(x: int, cs: int)
    requires
        x >= 0,
        cs > 0,
    ensures
        (x / cs) * cs <= x < (x / cs) * cs + cs,
        0 <= x / cs <= x,
{
    vstd::arithmetic::div_mod::lemma_fundamental_div_mod(x, cs);
    vstd::arithmetic::div_mod::lemma_mod_bound(x, cs);
    vstd::arithmetic::div_mod::lemma_div_pos_is_pos(x, cs);
    vstd::arithmetic::div_mod::lemma_div_is_ordered_by_denominator(x, 1, cs);
    assert(cs * (x / cs) == (x / cs) * cs) by (nonlinear_arith);
}

/// The cluster of a voxel is a cluster holding that voxel.
proof fn lemma_cluster_of(g: VoxelGrid, v: Voxel, cs: int)
    requires
        cs > 0,
    ensures
        cluster_of(v, cs).0 == v.0 as int / cs,
        cluster_of(v, cs).1 == v.1 as int / cs,
        cluster_of(v, cs).2 == v.2 as int / cs,
        is_filled(g, v) ==> spec_cluster_has_voxels(g, cs, cluster_of(v, cs)),
{
    lemma_block_start(v.0 as int, cs);
    lemma_block_start(v.1 as int, cs);
    lemma_block_start(v.2 as int, cs);
    if is_filled(g, v) {
        assert(g.filled(v.0 as int, v.1 as int, v.2 as int));
    }
}

/// Two face-adjacent non-air voxels `v` and `u = v + e_axis` in different
/// clusters make the forward edge between their clusters.
proof fn lemma_crossing_edge(g: VoxelGrid, cs: int, v: Voxel, u: Voxel, axis: int)
    requires
        g.wf(),
        cs > 0,
        is_filled(g, v),
        is_filled(g, u),
        0 <= axis < 3,
        vpos(u) == step(v, 2 * axis),
        cluster_of(v, cs) != cluster_of(u, cs),
    ensures
        spec_cluster_has_voxels(g, cs, cluster_of(v, cs)),
        spec_cluster_has_voxels(g, cs, cluster_of(u, cs)),
        forward_edge(g, cs, (cluster_of(v, cs), cluster_of(u, cs))),
{
    let a_ = cluster_of(v, cs);
    let b_ = cluster_of(u, cs);
    lemma_cluster_of(g, v, cs);
    lemma_cluster_of(g, u, cs);
    lemma_block_start(v.0 as int, cs);
    lemma_block_start(v.1 as int, cs);
    lemma_block_start(v.2 as int, cs);
    if axis == 0 {
        lemma_block_boundary(v.0 as int, cs);
        let a = v.2 - a_.2 * cs;
        let b = v.1 - a_.1 * cs;
        assert(face_pair_ok(g, cs, a_, b_, 0, a, b));
        assert(spec_share_boundary(g, cs, a_, b_, 0));
        assert(cpos(b_) == cluster_step(a_, 0));
    } else if axis == 1 {
        lemma_block_boundary(v.1 as int, cs);
        let a = v.2 - a_.2 * cs;
        let b = v.0 - a_.0 * cs;
        assert(face_pair_ok(g, cs, a_, b_, 2, a, b));
        assert(spec_share_boundary(g, cs, a_, b_, 2));
        assert(cpos(b_) == cluster_step(a_, 2));
    } else {
        lemma_block_boundary(v.2 as int, cs);
        let a = v.1 - a_.1 * cs;
        let b = v.0 - a_.0 * cs;
        assert(face_pair_ok(g, cs, a_, b_, 4, a, b));
        assert(spec_share_boundary(g, cs, a_, b_, 4));
        assert(cpos(b_) == cluster_step(a_, 4));
    }
}

/// `graph` is the coarse graph of `g` built with cluster size `cs`.
pub open spec fn is_coarse_graph_of(graph: ClusterGraph, g: VoxelGrid, cs: int) -> bool {
    &&& graph.wf()
    &&& forall|c: ClusterId|
        #![trigger graph.node_seq().contains(c)]
        graph.node_seq().contains(c) <==> spec_cluster_has_voxels(g, cs, c)
    &&& forall|e: (ClusterId, ClusterId)|
        #![trigger graph.edge_seq().contains(e)]
        graph.edge_seq().contains(e) <==> (graph.node_seq().contains(e.0) && graph.node_seq().contains(e.1)
            && forward_edge(g, cs, e))
}

/// `(x, y, z)` lies in cluster `c` of size `cs`.
pub open spec fn in_cluster(cs: int, c: ClusterId, x: int, y: int, z: int) -> bool {
    &&& c.0 * cs <= x < c.0 * cs + cs
    &&& c.1 * cs <= y < c.1 * cs + cs
    &&& c.2 * cs <= z < c.2 * cs + cs
}

/// `g` has the dimensions of `og` and the same cells outside cluster `id`.
pub open spec fn same_outside_cluster(og: VoxelGrid, g: VoxelGrid, cs: int, id: ClusterId) -> bool {
    &&& og.spec_width() == g.spec_width()
    &&& og.spec_height() == g.spec_height()
    &&& og.spec_depth() == g.spec_depth()
    &&& forall|x: int, y: int, z: int|
        #![trigger g.cell(x, y, z)]
        g.in_bounds(x, y, z) && !in_cluster(cs, id, x, y, z) ==> g.cell(x, y, z) == og.cell(x, y, z)
}

/// Distinct clusters share no voxel.
proof fn lemma_clusters_disjoint(cs: int, c: ClusterId, id: ClusterId, x: int, y: int, z: int)
    requires
        cs > 0,
        c != id,
        in_cluster(cs, c, x, y, z),
    ensures
        !in_cluster(cs, id, x, y, z),
{
    if c.0 < id.0 {
        assert(c.0 * cs + cs <= id.0 * cs) by (nonlinear_arith)
            requires c.0 < id.0, cs > 0;
    } else if c.0 > id.0 {
        assert(id.0 * cs + cs <= c.0 * cs) by (nonlinear_arith)
            requires id.0 < c.0, cs > 0;
    } else if c.1 < id.1 {
        assert(c.1 * cs + cs <= id.1 * cs) by (nonlinear_arith)
            requires c.1 < id.1, cs > 0;
    } else if c.1 > id.1 {
        assert(id.1 * cs + cs <= c.1 * cs) by (nonlinear_arith)
            requires id.1 < c.1, cs > 0;
    } else if c.2 < id.2 {
        assert(c.2 * cs + cs <= id.2 * cs) by (nonlinear_arith)
            requires c.2 < id.2, cs > 0;
    } else {
        assert(id.2 * cs + cs <= c.2 * cs) by (nonlinear_arith)
            requires id.2 < c.2, cs > 0;
    }
}

/// Away from cluster `id` both grids test a voxel alike.
proof fn lemma_not_air_same(og: VoxelGrid, g: VoxelGrid, cs: int, id: ClusterId, c: ClusterId, x: int, y: int, z: int)
    requires
        cs > 0,
        same_outside_cluster(og, g, cs, id),
        c != id,
        in_cluster(cs, c, x, y, z),
    ensures
        og.not_air(x, y, z) == g.not_air(x, y, z),
        og.filled(x, y, z) == g.filled(x, y, z),
{
    lemma_clusters_disjoint(cs, c, id, x, y, z);
    if g.in_bounds(x, y, z) {
        assert(g.cell(x, y, z) == og.cell(x, y, z));
    }
}

/// A cluster other than `id` holds a non-air voxel in `g` exactly when it
/// does in `og`.
proof fn lemma_has_voxels_same(og: VoxelGrid, g: VoxelGrid, cs: int, id: ClusterId, c: ClusterId)
    requires
        cs > 0,
        same_outside_cluster(og, g, cs, id),
        c != id,
    ensures
        spec_cluster_has_voxels(og, cs, c) == spec_cluster_has_voxels(g, cs, c),
{
    if spec_cluster_has_voxels(og, cs, c) {
        let (x, y, z) = choose|x: int, y: int, z: int| #![trigger og.filled(x, y, z)]
            og.filled(x, y, z) && c.0 * cs <= x < c.0 * cs + cs && c.1 * cs <= y < c.1 * cs + cs && c.2 * cs <= z < c.2 * cs + cs;
        lemma_not_air_same(og, g, cs, id, c, x, y, z);
        assert(g.filled(x, y, z));
    }
    if spec_cluster_has_voxels(g, cs, c) {
        let (x, y, z) = choose|x: int, y: int, z: int| #![trigger g.filled(x, y, z)]
            g.filled(x, y, z) && c.0 * cs <= x < c.0 * cs + cs && c.1 * cs <= y < c.1 * cs + cs && c.2 * cs <= z < c.2 * cs + cs;
        lemma_not_air_same(og, g, cs, id, c, x, y, z);
        assert(og.filled(x, y, z));
    }
}

/// A cluster holding a voxel starts inside the grid along each axis.
proof fn lemma_cluster_starts_inside(g: VoxelGrid, cs: int, c: ClusterId)
    requires
        spec_cluster_has_voxels(g, cs, c),
    ensures
        c.0 * cs < g.spec_width(),
        c.1 * cs < g.spec_height(),
        c.2 * cs < g.spec_depth(),
{
    let (x, y, z) = choose|x: int, y: int, z: int| #![trigger g.filled(x, y, z)]
        g.filled(x, y, z) && c.0 * cs <= x < c.0 * cs + cs && c.1 * cs <= y < c.1 * cs + cs && c.2 * cs <= z < c.2 * cs + cs;
}

/// The boundary probe between two clusters other than `id` reads the same
/// in both grids.
proof fn lemma_face_pair_same(og: VoxelGrid, g: VoxelGrid, cs: int, id: ClusterId, from: ClusterId, to: ClusterId, dir: int, a: int, b: int)
    requires
        cs > 0,
        same_outside_cluster(og, g, cs, id),
        from != id,
        to != id,
        spec_cluster_has_voxels(g, cs, from),
        spec_cluster_has_voxels(g, cs, to),
        0 <= dir < 6,
        0 <= a < cs,
        0 <= b < cs,
    ensures
        face_pair_ok(og, cs, from, to, dir, a, b) == face_pair_ok(g, cs, from, to, dir, a, b),
{
    lemma_cluster_starts_inside(g, cs, from);
    lemma_cluster_starts_inside(g, cs, to);
    let w = g.spec_width() as int;
    let h = g.spec_height() as int;
    let d = g.spec_depth() as int;
    let (f0, f1, f2) = (from.0 * cs, from.1 * cs, from.2 * cs);
    let (t0, t1, t2) = (to.0 * cs, to.1 * cs, to.2 * cs);
    if dir == 0 || dir == 1 {
        let fx = if dir == 0 { min_int(f0 + cs - 1, w - 1) } else { f0 };
        let tx = if dir == 0 { min_int(t0, w - 1) } else { min_int(t0 + cs - 1, w - 1) };
        lemma_not_air_same(og, g, cs, id, from, fx, f1 + b, f2 + a);
        lemma_not_air_same(og, g, cs, id, to, tx, t1 + b, t2 + a);
    } else if dir == 2 || dir == 3 {
        let fy = if dir == 2 { min_int(f1 + cs - 1, h - 1) } else { f1 };
        let ty = if dir == 2 { min_int(t1, h - 1) } else { min_int(t1 + cs - 1, h - 1) };
        lemma_not_air_same(og, g, cs, id, from, f0 + b, fy, f2 + a);
        lemma_not_air_same(og, g, cs, id, to, t0 + b, ty, t2 + a);
    } else {
        let fz = if dir == 4 { min_int(f2 + cs - 1, d - 1) } else { f2 };
        let tz = if dir == 4 { min_int(t2, d - 1) } else { min_int(t2 + cs - 1, d - 1) };
        lemma_not_air_same(og, g, cs, id, from, f0 + b, f1 + a, fz);
        lemma_not_air_same(og, g, cs, id, to, t0 + b, t1 + a, tz);
    }
}

proof fn lemma_share_boundary_same(og: VoxelGrid, g: VoxelGrid, cs: int, id: ClusterId, from: ClusterId, to: ClusterId, dir: int)
    requires
        cs > 0,
        same_outside_cluster(og, g, cs, id),
        from != id,
        to != id,
        spec_cluster_has_voxels(g, cs, from),
        spec_cluster_has_voxels(g, cs, to),
        0 <= dir < 6,
    ensures
        spec_share_boundary(og, cs, from, to, dir) == spec_share_boundary(g, cs, from, to, dir),
{
    if spec_share_boundary(og, cs, from, to, dir) {
        let (a, b) = choose|a: int, b: int| 0 <= a < cs && 0 <= b < cs && #[trigger] face_pair_ok(og, cs, from, to, dir, a, b);
        lemma_face_pair_same(og, g, cs, id, from, to, dir, a, b);
    }
    if spec_share_boundary(g, cs, from, to, dir) {
        let (a, b) = choose|a: int, b: int| 0 <= a < cs && 0 <= b < cs && #[trigger] face_pair_ok(g, cs, from, to, dir, a, b);
        lemma_face_pair_same(og, g, cs, id, from, to, dir, a, b);
    }
}

/// Probing the boundary from the upper cluster down gives what probing it
/// from the lower cluster up gives.
proof fn lemma_share_boundary_flip(g: VoxelGrid, cs: int, lo: ClusterId, hi: ClusterId, dir: int)
    requires
        cs > 0,
        dir == 0 || dir == 2 || dir == 4,
        spec_cluster_has_voxels(g, cs, hi),
    ensures
        spec_share_boundary(g, cs, hi, lo, dir + 1) == spec_share_boundary(g, cs, lo, hi, dir),
{
    lemma_cluster_starts_inside(g, cs, hi);
    assert forall|a: int, b: int| 0 <= a < cs && 0 <= b < cs implies
        #[trigger] face_pair_ok(g, cs, hi, lo, dir + 1, a, b) == face_pair_ok(g, cs, lo, hi, dir, a, b) by {
    }
    if spec_share_boundary(g, cs, hi, lo, dir + 1) {
        let (a, b) = choose|a: int, b: int| 0 <= a < cs && 0 <= b < cs && #[trigger] face_pair_ok(g, cs, hi, lo, dir + 1, a, b);
        assert(face_pair_ok(g, cs, lo, hi, dir, a, b));
    }
    if spec_share_boundary(g, cs, lo, hi, dir) {
        let (a, b) = choose|a: int, b: int| 0 <= a < cs && 0 <= b < cs && #[trigger] face_pair_ok(g, cs, lo, hi, dir, a, b);
        assert(face_pair_ok(g, cs, hi, lo, dir + 1, a, b));
    }
}

/// Cells `(x1, y1, z1)` and `(x2, y2, z2)` share a face.
pub open spec fn cells_adjacent(x1: int, y1: int, z1: int, x2: int, y2: int, z2: int) -> bool {
    ||| (x2 == x1 + 1 || x1 == x2 + 1) && y1 == y2 && z1 == z2
    ||| x1 == x2 && (y2 == y1 + 1 || y1 == y2 + 1) && z1 == z2
    ||| x1 == x2 && y1 == y2 && (z2 == z1 + 1 || z1 == z2 + 1)
}

/// Some non-air voxel of cluster `a` shares a face with some non-air voxel
/// of cluster `b`.
pub open spec fn clusters_touch(g: VoxelGrid, cs: int, a: ClusterId, b: ClusterId) -> bool {
    exists|x1: int, y1: int, z1: int, x2: int, y2: int, z2: int|
        #![trigger g.filled(x1, y1, z1), g.filled(x2, y2, z2)]
        g.filled(x1, y1, z1) && g.filled(x2, y2, z2) && in_cluster(cs, a, x1, y1, z1) && in_cluster(cs, b, x2, y2, z2)
            && cells_adjacent(x1, y1, z1, x2, y2, z2)
}

/// A successful probe of the face between a cluster and its upper
/// neighbour finds two face-adjacent non-air voxels, one in each.
proof fn lemma_face_pair_touch(g: VoxelGrid, cs: int, from: ClusterId, to: ClusterId, dir: int, a: int, b: int)
    requires
        cs > 0,
        dir == 0 || dir == 2 || dir == 4,
        cpos(to) == cluster_step(from, dir),
        spec_cluster_has_voxels(g, cs, from),
        spec_cluster_has_voxels(g, cs, to),
        0 <= a < cs,
        0 <= b < cs,
        face_pair_ok(g, cs, from, to, dir, a, b),
    ensures
        clusters_touch(g, cs, from, to),
{
    lemma_cluster_starts_inside(g, cs, to);
    let w = g.spec_width() as int;
    let h = g.spec_height() as int;
    let d = g.spec_depth() as int;
    let (f0, f1, f2) = (from.0 * cs, from.1 * cs, from.2 * cs);
    let (t0, t1, t2) = (to.0 * cs, to.1 * cs, to.2 * cs);
    assert(f0 >= 0 && f1 >= 0 && f2 >= 0) by (nonlinear_arith)
        requires from.0 >= 0, from.1 >= 0, from.2 >= 0, cs > 0, f0 == from.0 * cs, f1 == from.1 * cs, f2 == from.2 * cs;
    if dir == 0 {
        assert(t0 == f0 + cs) by (nonlinear_arith)
            requires to.0 == from.0 + 1, t0 == to.0 * cs, f0 == from.0 * cs;
        assert(t1 == f1 && t2 == f2);
        let (x1, y1, z1) = (f0 + cs - 1, f1 + b, f2 + a);
        let (x2, y2, z2) = (t0, t1 + b, t2 + a);
        assert(g.filled(x1, y1, z1) && g.filled(x2, y2, z2));
        assert(cells_adjacent(x1, y1, z1, x2, y2, z2));
    } else if dir == 2 {
        assert(t1 == f1 + cs) by (nonlinear_arith)
            requires to.1 == from.1 + 1, t1 == to.1 * cs, f1 == from.1 * cs;
        assert(t0 == f0 && t2 == f2);
        let (x1, y1, z1) = (f0 + b, f1 + cs - 1, f2 + a);
        let (x2, y2, z2) = (t0 + b, t1, t2 + a);
        assert(g.filled(x1, y1, z1) && g.filled(x2, y2, z2));
        assert(cells_adjacent(x1, y1, z1, x2, y2, z2));
    } else {
        assert(t2 == f2 + cs) by (nonlinear_arith)
            requires to.2 == from.2 + 1, t2 == to.2 * cs, f2 == from.2 * cs;
        assert(t0 == f0 && t1 == f1);
        let (x1, y1, z1) = (f0 + b, f1 + a, f2 + cs - 1);
        let (x2, y2, z2) = (t0 + b, t1 + a, t2);
        assert(g.filled(x1, y1, z1) && g.filled(x2, y2, z2));
        assert(cells_adjacent(x1, y1, z1, x2, y2, z2));
    }
}

/// Edge soundness: a forward edge between two clusters holding voxels joins
/// clusters whose non-air voxels touch across their shared face.
pub proof fn lemma_forward_edge_touches(g: VoxelGrid, cs: int, e: (ClusterId, ClusterId))
    requires
        cs > 0,
        spec_cluster_has_voxels(g, cs, e.0),
        spec_cluster_has_voxels(g, cs, e.1),
        forward_edge(g, cs, e),
    ensures
        clusters_touch(g, cs, e.0, e.1),
{
    let d = if cpos(e.1) == cluster_step(e.0, 0) && spec_share_boundary(g, cs, e.0, e.1, 0) {
        0int
    } else if cpos(e.1) == cluster_step(e.0, 2) && spec_share_boundary(g, cs, e.0, e.1, 2) {
        2int
    } else {
        4int
    };
    let (a, b) = choose|a: int, b: int| 0 <= a < cs && 0 <= b < cs && #[trigger] face_pair_ok(g, cs, e.0, e.1, d, a, b);
    lemma_face_pair_touch(g, cs, e.0, e.1, d, a, b);
}

/// Every edge of the coarse graph of `g` (as `ClusterGraph::build` makes
/// it) joins two clusters with face-adjacent non-air voxels.
pub proof fn lemma_graph_edges_touch(graph: ClusterGraph, g: VoxelGrid, cs: int)
    requires
        cs > 0,
        is_coarse_graph_of(graph, g, cs),
    ensures
        forall|e: (ClusterId, ClusterId)| #[trigger] graph.edge_seq().contains(e) ==> clusters_touch(g, cs, e.0, e.1),
{
    assert forall|e: (ClusterId, ClusterId)| #[trigger] graph.edge_seq().contains(e) implies clusters_touch(g, cs, e.0, e.1) by {
        assert(graph.node_seq().contains(e.0) && graph.node_seq().contains(e.1));
        lemma_forward_edge_touches(g, cs, e);
    }
}

/// Every edge that recomputing cluster `id` adds between two clusters that
/// hold voxels joins clusters with face-adjacent non-air voxels.
pub proof fn lemma_recomputed_edge_touches(g: VoxelGrid, cs: int, nodes: Seq<ClusterId>, id: ClusterId, e: (ClusterId, ClusterId))
    requires
        cs > 0,
        spec_cluster_has_voxels(g, cs, e.0),
        spec_cluster_has_voxels(g, cs, e.1),
        recomputed_edge(g, cs, nodes, id, e),
    ensures
        clusters_touch(g, cs, e.0, e.1),
{
    let (dir, n) = choose|dir: int, n: ClusterId|
        #![trigger cluster_step(id, dir), nodes.contains(n)]
        0 <= dir < 6 && cluster_step(id, dir) == cpos(n) && nodes.contains(n)
            && spec_share_boundary(g, cs, id, n, dir) && e == spec_ordered_pair(id, n);
    if dir == 0 || dir == 2 || dir == 4 {
        assert(cluster_lt(id, n));
        assert(e == (id, n));
        let (a, b) = choose|a: int, b: int| 0 <= a < cs && 0 <= b < cs && #[trigger] face_pair_ok(g, cs, id, n, dir, a, b);
        lemma_face_pair_touch(g, cs, id, n, dir, a, b);
    } else {
        assert(cluster_lt(n, id));
        assert(!cluster_lt(id, n));
        assert(e == (n, id));
        lemma_share_boundary_flip(g, cs, n, id, dir - 1);
        assert(cpos(id) == cluster_step(n, dir - 1));
        let (a, b) = choose|a: int, b: int| 0 <= a < cs && 0 <= b < cs && #[trigger] face_pair_ok(g, cs, n, id, dir - 1, a, b);
        lemma_face_pair_touch(g, cs, n, id, dir - 1, a, b);
    }
}

/// An edge the recomputation finds for cluster `id` is an edge of the
/// graph built anew, and the other way round.
proof fn lemma_recomputed_edge_is_forward(g: VoxelGrid, cs: int, nodes: Seq<ClusterId>, id: ClusterId, e: (ClusterId, ClusterId))
    requires
        cs > 0,
        spec_cluster_has_voxels(g, cs, id),
        nodes.contains(id),
        forall|c: ClusterId| #[trigger] nodes.contains(c) ==> spec_cluster_has_voxels(g, cs, c),
        e.0 == id || e.1 == id,
    ensures
        recomputed_edge(g, cs, nodes, id, e) <==> (nodes.contains(e.0) && nodes.contains(e.1) && forward_edge(g, cs, e)),
{
    if recomputed_edge(g, cs, nodes, id, e) {
        let (dir, n) = choose|dir: int, n: ClusterId|
            #![trigger cluster_step(id, dir), nodes.contains(n)]
            0 <= dir < 6 && cluster_step(id, dir) == cpos(n) && nodes.contains(n)
                && spec_share_boundary(g, cs, id, n, dir) && e == spec_ordered_pair(id, n);
        if dir == 0 || dir == 2 || dir == 4 {
            assert(cluster_lt(id, n));
            assert(e == (id, n));
        } else {
            assert(cluster_lt(n, id));
            assert(!cluster_lt(id, n));
            assert(e == (n, id));
            lemma_share_boundary_flip(g, cs, n, id, dir - 1);
            assert(cpos(id) == cluster_step(n, dir - 1));
        }
    }
    if nodes.contains(e.0) && nodes.contains(e.1) && forward_edge(g, cs, e) {
        let d = if cpos(e.1) == cluster_step(e.0, 0) && spec_share_boundary(g, cs, e.0, e.1, 0) {
            0int
        } else if cpos(e.1) == cluster_step(e.0, 2) && spec_share_boundary(g, cs, e.0, e.1, 2) {
            2int
        } else {
            4int
        };
        assert(cpos(e.1) == cluster_step(e.0, d) && spec_share_boundary(g, cs, e.0, e.1, d));
        if e.0 == id {
            assert(cluster_lt(id, e.1));
            assert(e == spec_ordered_pair(id, e.1));
            assert(cluster_step(id, d) == cpos(e.1) && nodes.contains(e.1));
        } else {
            assert(e.1 == id);
            assert(cluster_lt(e.0, id));
            assert(!cluster_lt(id, e.0));
            assert(e == spec_ordered_pair(id, e.0));
            lemma_share_boundary_flip(g, cs, e.0, id, d);
            assert(cluster_step(id, d + 1) == cpos(e.0) && nodes.contains(e.0));
        }
    }
}

/// Recomputing the one cluster in which the grid changed gives the graph
/// that building it anew would: the same nodes and the same edges (given
/// what `recompute_cluster` promises of the graph it leaves, and with
/// `before` the graph of the grid as it was).
pub proof fn lemma_recompute_matches_build(
    og: VoxelGrid,
    g: VoxelGrid,
    cs: int,
    id: ClusterId,
    before: ClusterGraph,
    after: ClusterGraph,
)
    requires
        cs > 0,
        is_coarse_graph_of(before, og, cs),
        same_outside_cluster(og, g, cs, id),
        after.wf(),
        // `after` is `before` with cluster `id` recomputed from `g`
        forall|c: ClusterId|
            #![trigger after.node_seq().contains(c)]
            after.node_seq().contains(c) <==> (if c == id { spec_cluster_has_voxels(g, cs, id) } else { before.node_seq().contains(c) }),
        forall|e: (ClusterId, ClusterId)|
            #![trigger after.edge_seq().contains(e)]
            after.edge_seq().contains(e) <==> ((before.edge_seq().contains(e) && e.0 != id && e.1 != id)
                || (spec_cluster_has_voxels(g, cs, id) && recomputed_edge(g, cs, after.node_seq(), id, e))),
    ensures
        is_coarse_graph_of(after, g, cs),
{
    let nodes = after.node_seq();
    assert forall|c: ClusterId| #![trigger nodes.contains(c)] nodes.contains(c) <==> spec_cluster_has_voxels(g, cs, c) by {
        if c != id {
            assert(before.node_seq().contains(c) <==> spec_cluster_has_voxels(og, cs, c));
            lemma_has_voxels_same(og, g, cs, id, c);
        }
    }
    assert forall|e: (ClusterId, ClusterId)|
        #![trigger after.edge_seq().contains(e)]
        after.edge_seq().contains(e) <==> (nodes.contains(e.0) && nodes.contains(e.1) && forward_edge(g, cs, e)) by {
        if e.0 != id && e.1 != id {
            assert(before.edge_seq().contains(e) <==> (before.node_seq().contains(e.0) && before.node_seq().contains(e.1)
                && forward_edge(og, cs, e)));
            assert(nodes.contains(e.0) == before.node_seq().contains(e.0));
            assert(nodes.contains(e.1) == before.node_seq().contains(e.1));
            if nodes.contains(e.0) && nodes.contains(e.1) {
                lemma_share_boundary_same(og, g, cs, id, e.0, e.1, 0);
                lemma_share_boundary_same(og, g, cs, id, e.0, e.1, 2);
                lemma_share_boundary_same(og, g, cs, id, e.0, e.1, 4);
            }
            if recomputed_edge(g, cs, nodes, id, e) {
                let (dir, n) = choose|dir: int, n: ClusterId|
                    #![trigger cluster_step(id, dir), nodes.contains(n)]
                    0 <= dir < 6 && cluster_step(id, dir) == cpos(n) && nodes.contains(n)
                        && spec_share_boundary(g, cs, id, n, dir) && e == spec_ordered_pair(id, n);
            }
        } else {
            if spec_cluster_has_voxels(g, cs, id) {
                lemma_recomputed_edge_is_forward(g, cs, nodes, id, e);
            }
        }
    }
}

/// Face-adjacent non-air voxels in different clusters put an edge between
/// those clusters.
proof fn lemma_adjacent_clusters_linked(graph: ClusterGraph, g: VoxelGrid, cs: int, v: Voxel, u: Voxel)
    requires
        g.wf(),
        cs > 0,
        is_coarse_graph_of(graph, g, cs),
        is_filled(g, v),
        is_filled(g, u),
        face_adjacent(v, u),
        cluster_of(v, cs) != cluster_of(u, cs),
    ensures
        linked(graph, cluster_of(v, cs), cluster_of(u, cs)),
{
    let a = cluster_of(v, cs);
    let b = cluster_of(u, cs);
    if step(v, 0) == vpos(u) {
        lemma_crossing_edge(g, cs, v, u, 0);
        assert(graph.edge_seq().contains((a, b)));
    } else if step(v, 2) == vpos(u) {
        lemma_crossing_edge(g, cs, v, u, 1);
        assert(graph.edge_seq().contains((a, b)));
    } else if step(v, 4) == vpos(u) {
        lemma_crossing_edge(g, cs, v, u, 2);
        assert(graph.edge_seq().contains((a, b)));
    } else if step(v, 1) == vpos(u) {
        assert(vpos(v) == step(u, 0));
        lemma_crossing_edge(g, cs, u, v, 0);
        assert(graph.edge_seq().contains((b, a)));
    } else if step(v, 3) == vpos(u) {
        assert(vpos(v) == step(u, 2));
        lemma_crossing_edge(g, cs, u, v, 1);
        assert(graph.edge_seq().contains((b, a)));
    } else {
        assert(vpos(v) == step(u, 4));
        lemma_crossing_edge(g, cs, u, v, 2);
        assert(graph.edge_seq().contains((b, a)));
    }
}

/// A component of the voxels of an edge-closed set of clusters is a
/// component of the whole grid.
proof fn lemma_lift_component(
    graph: ClusterGraph,
    g: VoxelGrid,
    m: VoxelGrid,
    cs: int,
    group: Seq<ClusterId>,
    c: Seq<Voxel>,
)
    requires
        g.wf(),
        cs > 0,
        is_coarse_graph_of(graph, g, cs),
        is_cluster_mask(g, m, cs, group),
        forall|a: ClusterId, b: ClusterId|
            #![trigger group.contains(a), linked(graph, a, b)]
            group.contains(a) && linked(graph, a, b) ==> group.contains(b),
        is_component(m, c),
    ensures
        is_component(g, c),
        forall|i: int| 0 <= i < c.len() ==> group.contains(cluster_of(#[trigger] c[i], cs)),
{
    assert forall|i: int| 0 <= i < c.len() implies is_filled(g, #[trigger] c[i]) && group.contains(cluster_of(c[i], cs)) by {
        assert(is_filled(m, c[i]));
    }
    assert forall|i: int, u: Voxel|
        #![trigger c[i], is_filled(g, u)]
        0 <= i < c.len() && is_filled(g, u) && face_adjacent(c[i], u) implies c.contains(u) by {
        assert(is_filled(m, c[i]));
        if group.contains(cluster_of(u, cs)) {
            assert(is_filled(m, u));
        } else {
            lemma_adjacent_clusters_linked(graph, g, cs, c[i], u);
            assert(group.contains(cluster_of(c[i], cs)));
        }
    }
}

/// Disjoint components of in-grid voxels number at most the cells of the grid.
proof fn lemma_components_len_bound(g: VoxelGrid, comps: Seq<Seq<Voxel>>)
    requires
        g.wf(),
        forall|k: int| #![trigger comps[k]] 0 <= k < comps.len() ==> is_component(g, comps[k]),
        pairwise_disjoint(comps),
    ensures
        comps.len() <= g.volume(),
{
    let f = |k: int| scan_index(g, comps[k][0]);
    assert forall|k: int| 0 <= k < comps.len() implies 0 <= #[trigger] f(k) < g.volume() by {
        assert(is_component(g, comps[k]));
        assert(is_filled(g, comps[k][0]));
        lemma_scan_index(g, comps[k][0]);
    }
    assert forall|k1: int, k2: int| 0 <= k1 < comps.len() && 0 <= k2 < comps.len() && #[trigger] f(k1) == #[trigger] f(k2) implies k1 == k2 by {
        assert(is_component(g, comps[k1]));
        assert(is_component(g, comps[k2]));
        assert(is_filled(g, comps[k1][0]));
        assert(is_filled(g, comps[k2][0]));
        lemma_scan_index_injective(g, comps[k1][0], comps[k2][0]);
        assert(comps[k1].contains(comps[k1][0]));
        assert(comps[k2].contains(comps[k2][0]));
    }
    lemma_injective_bound(f, comps.len() as int, g.volume());
}

/// `n` is the number of 6-connected components of the non-air voxels of `g`.
pub open spec fn is_component_count(g: VoxelGrid, n: int) -> bool {
    exists|comps: Seq<Seq<Voxel>>| component_partition(g, comps, Seq::empty()) && comps.len() == n
}

/// At most one cluster of size `cs` holds a non-air voxel.
pub open spec fn at_most_one_cluster(g: VoxelGrid, cs: int) -> bool {
    forall|c1: ClusterId, c2: ClusterId|
        #![trigger spec_cluster_has_voxels(g, cs, c1), spec_cluster_has_voxels(g, cs, c2)]
        spec_cluster_has_voxels(g, cs, c1) && spec_cluster_has_voxels(g, cs, c2) ==> c1 == c2
}

/// The component count of a grid is unique.
pub proof fn lemma_component_count_unique(g: VoxelGrid, n1: int, n2: int)
    requires
        is_component_count(g, n1),
        is_component_count(g, n2),
    ensures
        n1 == n2,
{
    let p = choose|comps: Seq<Seq<Voxel>>| component_partition(g, comps, Seq::empty()) && comps.len() == n1;
    let q = choose|comps: Seq<Seq<Voxel>>| component_partition(g, comps, Seq::empty()) && comps.len() == n2;
    crate::voxel::topology::lemma_partition_count_unique(g, p, q, Seq::empty());
}

/// The coarse shortcut is taken exactly when the cluster graph of the grid
/// (one node per cluster holding a non-air voxel) has at most one node.
pub proof fn lemma_shortcut_iff_one_node(g: VoxelGrid, cs: int, graph: ClusterGraph)
    requires
        graph.wf(),
        forall|c: ClusterId| #![trigger graph.node_seq().contains(c)]
            graph.node_seq().contains(c) <==> spec_cluster_has_voxels(g, cs, c),
    ensures
        at_most_one_cluster(g, cs) <==> graph.node_seq().len() <= 1,
{
    let nodes = graph.node_seq();
    if nodes.len() >= 2 {
        assert(nodes.contains(nodes[0]) && nodes.contains(nodes[1]));
        assert(nodes[0] != nodes[1]);
        assert(!at_most_one_cluster(g, cs));
    } else {
        assert forall|c1: ClusterId, c2: ClusterId|
            #![trigger spec_cluster_has_voxels(g, cs, c1), spec_cluster_has_voxels(g, cs, c2)]
            spec_cluster_has_voxels(g, cs, c1) && spec_cluster_has_voxels(g, cs, c2) implies c1 == c2 by {
            assert(nodes.contains(c1) && nodes.contains(c2));
            let i1 = nodes.index_of(c1);
            let i2 = nodes.index_of(c2);
            assert(nodes[i1] == c1 && nodes[i2] == c2);
        }
    }
}

/// Unless it takes its shortcut, the coarse-then-narrow count equals the
/// number of components the per-voxel flood fill lists.
pub proof fn lemma_coarse_narrow_matches_flood_fill(g: VoxelGrid, comps: Seq<Seq<Voxel>>, count: int)
    requires
        components_outside(g, comps, Seq::empty()),
        is_component_count(g, count),
    ensures
        count == comps.len(),
{
    assert(is_component_count(g, comps.len() as int));
    lemma_component_count_unique(g, count, comps.len() as int);
}

/// Counts the 6-connected components of the non-air voxels using the coarse
/// cluster graph first. With at most one non-empty cluster it answers from
/// the coarse graph alone (1 when anything is non-air, else 0, without
/// looking inside the cluster); otherwise the count is exact.
pub fn coarse_then_narrow_components(grid: &VoxelGrid, cluster_size: u32) -> (r: CoarseNarrowResult)
    requires
        grid.wf(),
        cluster_size > 0,
        grid.spec_width() + cluster_size <= u32::MAX,
        grid.spec_height() + cluster_size <= u32::MAX,
        grid.spec_depth() + cluster_size <= u32::MAX,
    ensures
        r.used_coarse_shortcut == at_most_one_cluster(*grid, cluster_size as int),
        r.used_coarse_shortcut ==> r.component_count == (if grid.any_filled() { 1usize } else { 0usize }),
        !r.used_coarse_shortcut ==> is_component_count(*grid, r.component_count as int),
{
    let ghost cs = cluster_size as int;
    let graph = ClusterGraph::build(grid, cluster_size);
    let coarse = coarse_connected_components(&graph);
    let ghost cp = deep_clusters(coarse@);
    proof {
        assert(is_coarse_graph_of(graph, *grid, cs));
        // the coarse components are disjoint non-empty sets of nodes
        let nodes = graph.node_seq();
        let f = |k: int| nodes.index_of(cp[k][0]);
        assert forall|k: int| 0 <= k < cp.len() implies 0 <= #[trigger] f(k) < nodes.len() && nodes[f(k)] == cp[k][0] by {
            assert(cp[k].len() > 0);
            assert(cp[k].contains(cp[k][0]));
            assert(nodes.contains(cp[k][0]));
        }
        assert forall|k1: int, k2: int| 0 <= k1 < cp.len() && 0 <= k2 < cp.len() && #[trigger] f(k1) == #[trigger] f(k2) implies k1 == k2 by {
            assert(cp[k1].len() > 0 && cp[k2].len() > 0);
            assert(nodes[f(k1)] == cp[k1][0]);
            assert(nodes[f(k2)] == cp[k2][0]);
            assert(cp[k1].contains(cp[k1][0]));
            assert(cp[k2].contains(cp[k2][0]));
        }
        lemma_injective_bound(f, cp.len() as int, nodes.len() as int);
        assert(cp.len() == coarse@.len());
        // at most one node exactly when at most one cluster holds voxels
        if nodes.len() >= 2 {
            assert(nodes[0] != nodes[1]);
            assert(nodes.contains(nodes[0]) && nodes.contains(nodes[1]));
            assert(!at_most_one_cluster(*grid, cs));
        } else {
            assert forall|c1: ClusterId, c2: ClusterId|
                #![trigger spec_cluster_has_voxels(*grid, cs, c1), spec_cluster_has_voxels(*grid, cs, c2)]
                spec_cluster_has_voxels(*grid, cs, c1) && spec_cluster_has_voxels(*grid, cs, c2) implies c1 == c2 by {
                assert(nodes.contains(c1) && nodes.contains(c2));
                let i1 = nodes.index_of(c1);
                let i2 = nodes.index_of(c2);
            }
        }
        // a non-air voxel makes its cluster a node
        assert forall|v: Voxel| #![trigger is_filled(*grid, v)] is_filled(*grid, v) implies nodes.contains(cluster_of(v, cs)) by {
            lemma_cluster_of(*grid, v, cs);
        }
    }
    if coarse.len() <= 1 && graph.node_count() <= 1 {
        if graph.node_count() == 0 {
            proof {
                if grid.any_filled() {
                    let (x, y, z) = choose|x: int, y: int, z: int| grid.filled(x, y, z);
                    let v: Voxel = (x as u32, y as u32, z as u32);
                    assert(is_filled(*grid, v));
                    assert(graph.node_seq().contains(cluster_of(v, cs)));
                }
            }
            return CoarseNarrowResult { component_count: 0, used_coarse_shortcut: true };
        }
        proof {
            let c = graph.node_seq()[0];
            assert(graph.node_seq().contains(c));
            assert(spec_cluster_has_voxels(*grid, cs, c));
            let (x, y, z) = choose|x: int, y: int, z: int|
                #![trigger grid.filled(x, y, z)]
                grid.filled(x, y, z) && c.0 * cs <= x < c.0 * cs + cs && c.1 * cs <= y < c.1 * cs + cs
                    && c.2 * cs <= z < c.2 * cs + cs;
            assert(grid.any_filled());
        }
        return CoarseNarrowResult { component_count: 1, used_coarse_shortcut: true };
    }
    if coarse.len() > 1 {
        let mut total: usize = 0;
        let ghost mut all: Seq<Seq<Voxel>> = seq![];
        let mut k: usize = 0;
        while k < coarse.len()
            invariant
                grid.wf(),
                cs == cluster_size,
                cs > 0,
                is_coarse_graph_of(graph, *grid, cs),
                coarse_partition(graph, cp),
                cp == deep_clusters(coarse@),
                k <= coarse.len(),
                total == all.len(),
                all.len() <= grid.volume(),
                forall|j: int| #![trigger all[j]] 0 <= j < all.len() ==> is_component(*grid, all[j]),
                pairwise_disjoint(all),
                forall|j: int, v: Voxel|
                    #![trigger all[j].contains(v)]
                    0 <= j < all.len() && all[j].contains(v) ==> exists|kk: int| 0 <= kk < k && #[trigger] cp[kk].contains(cluster_of(v, cs)),
                forall|v: Voxel, kk: int|
                    #![trigger is_filled(*grid, v), cp[kk].contains(cluster_of(v, cs))]
                    is_filled(*grid, v) && 0 <= kk < k && cp[kk].contains(cluster_of(v, cs)) ==> covered(all, v),
            decreases coarse.len() - k,
        {
            let (sub, Ghost(m)) = narrow_within_clusters(grid, cluster_size, &coarse[k]);
            let ghost group = coarse@[k as int]@;
            let ghost sd = deep(sub@);
            let ghost next = all + sd;
            proof {
                assert(group == cp[k as int]);
                assert forall|a: ClusterId, b: ClusterId|
                    #![trigger group.contains(a), linked(graph, a, b)]
                    group.contains(a) && linked(graph, a, b) implies group.contains(b) by {
                    assert(cp[k as int].contains(a));
                }
                assert forall|j: int| #![trigger next[j]] 0 <= j < next.len() implies is_component(*grid, next[j]) by {
                    if j >= all.len() {
                        assert(next[j] == sd[j - all.len()]);
                        assert(is_component(m, sd[j - all.len()]));
                        lemma_lift_component(graph, *grid, m, cs, group, sd[j - all.len()]);
                    } else {
                        assert(next[j] == all[j]);
                    }
                }
                assert forall|j: int, v: Voxel|
                    #![trigger next[j].contains(v)]
                    0 <= j < next.len() && next[j].contains(v) implies exists|kk: int| 0 <= kk < k + 1 && #[trigger] cp[kk].contains(cluster_of(v, cs)) by {
                    if j >= all.len() {
                        let c = sd[j - all.len()];
                        assert(next[j] == c);
                        assert(is_component(m, c));
                        lemma_lift_component(graph, *grid, m, cs, group, c);
                        let i = c.index_of(v);
                        assert(c[i] == v);
                        assert(cp[k as int].contains(cluster_of(v, cs)));
                    } else {
                        assert(next[j] == all[j]);
                    }
                }
                assert forall|j1: int, j2: int, v: Voxel|
                    #![trigger next[j1].contains(v), next[j2].contains(v)]
                    0 <= j1 < next.len() && 0 <= j2 < next.len() && next[j1].contains(v) && next[j2].contains(v)
                        implies j1 == j2 by {
                    if j1 < all.len() && j2 < all.len() {
                        assert(next[j1] == all[j1] && next[j2] == all[j2]);
                    } else if j1 >= all.len() && j2 >= all.len() {
                        assert(next[j1] == sd[j1 - all.len()] && next[j2] == sd[j2 - all.len()]);
                    } else {
                        let (jo, jn) = if j1 < all.len() { (j1, j2) } else { (j2, j1) };
                        let c = sd[jn - all.len()];
                        assert(next[jn] == c);
                        assert(next[jo] == all[jo]);
                        assert(all[jo].contains(v));
                        let kk = choose|kk: int| 0 <= kk < k && #[trigger] cp[kk].contains(cluster_of(v, cs));
                        assert(is_component(m, c));
                        lemma_lift_component(graph, *grid, m, cs, group, c);
                        let i = c.index_of(v);
                        assert(c[i] == v);
                        assert(cp[k as int].contains(cluster_of(v, cs)));
                    }
                }
                assert forall|v: Voxel, kk: int|
                    #![trigger is_filled(*grid, v), cp[kk].contains(cluster_of(v, cs))]
                    is_filled(*grid, v) && 0 <= kk < k + 1 && cp[kk].contains(cluster_of(v, cs)) implies covered(next, v) by {
                    if kk < k {
                        let j = choose|j: int| 0 <= j < all.len() && #[trigger] all[j].contains(v);
                        assert(next[j] == all[j]);
                    } else {
                        assert(is_filled(m, v));
                        let j = choose|j: int| 0 <= j < sd.len() && #[trigger] sd[j].contains(v);
                        assert(next[all.len() + j] == sd[j]);
                    }
                }
                lemma_components_len_bound(*grid, next);
                assert(sd.len() == sub@.len());
            }
            total = total + sub.len();
            proof {
                all = next;
            }
            k = k + 1;
        }
        proof {
            assert forall|v: Voxel| #![trigger is_filled(*grid, v)] is_filled(*grid, v) && !Seq::<Voxel>::empty().contains(v) implies covered(all, v) by {
                assert(graph.node_seq().contains(cluster_of(v, cs)));
                let kk = choose|kk: int| 0 <= kk < cp.len() && #[trigger] cp[kk].contains(cluster_of(v, cs));
            }
            assert(component_partition(*grid, all, Seq::empty()));
            assert(!at_most_one_cluster(*grid, cs));
        }
        return CoarseNarrowResult { component_count: total, used_coarse_shortcut: false };
    }
    let full = find_connected_components(grid);
    proof {
        assert(component_partition(*grid, deep(full@), Seq::empty()));
        assert(deep(full@).len() == full@.len());
    }
    CoarseNarrowResult { component_count: full.len(), used_coarse_shortcut: false }
}

} // verus!
