use vstd::prelude::*;
use crate::voxel::cluster_graph::{ClusterGraph, ClusterId, contains_cluster};
use crate::voxel::grid::VoxelGrid;
use crate::voxel::coarse_narrow::{
    linked, coarse_connected, coarse_walk, lemma_connected_refl, lemma_connected_step, lemma_walk_forward,
    lemma_node_subset_len, in_cluster,
};

verus! {

/// `c` is reached by a walk along edges of `graph` from one of `sources`.
pub open spec fn reached_from(graph: ClusterGraph, sources: Seq<ClusterId>, c: ClusterId) -> bool {
    exists|a: ClusterId| #![trigger sources.contains(a), coarse_connected(graph, a, c)]
        sources.contains(a) && coarse_connected(graph, a, c)
}

/// `par[k]` is the first position before `k` linked to the non-source
/// `order[k]`, none of them past `bound`, and they never decrease along
/// `order`.
#[verifier::opaque]
spec fn first_links(graph: ClusterGraph, sources: Seq<ClusterId>, order: Seq<ClusterId>, par: Seq<int>, bound: int) -> bool {
    &&& par.len() == order.len()
    &&& forall|k: int| #![trigger par[k]] 0 <= k < order.len() && !sources.contains(order[k]) ==> {
        &&& 0 <= par[k] < k
        &&& par[k] <= bound
        &&& linked(graph, order[par[k]], order[k])
        &&& forall|i: int| 0 <= i < par[k] ==> !linked(graph, #[trigger] order[i], order[k])
    }
    &&& forall|k1: int, k2: int| #![trigger par[k1], par[k2]]
        0 <= k1 < k2 < order.len() && !sources.contains(order[k1]) && !sources.contains(order[k2]) ==> par[k1] <= par[k2]
}

proof fn lemma_first_links_sources(graph: ClusterGraph, sources: Seq<ClusterId>, order: Seq<ClusterId>)
    requires
        forall|k: int| 0 <= k < order.len() ==> sources.contains(#[trigger] order[k]),
    ensures
        first_links(graph, sources, order, Seq::new(order.len(), |i: int| 0int), 0),
{
    reveal(first_links);
}

proof fn lemma_first_links_raise(graph: ClusterGraph, sources: Seq<ClusterId>, order: Seq<ClusterId>, par: Seq<int>, bound: int)
    requires
        first_links(graph, sources, order, par, bound),
    ensures
        first_links(graph, sources, order, par, bound + 1),
{
    reveal(first_links);
}

proof fn lemma_first_links_push(
    graph: ClusterGraph,
    sources: Seq<ClusterId>,
    order: Seq<ClusterId>,
    par: Seq<int>,
    head: int,
    nb: ClusterId,
)
    requires
        first_links(graph, sources, order, par, head),
        0 <= head < order.len(),
        linked(graph, order[head], nb),
        forall|i: int| 0 <= i < head ==> !linked(graph, #[trigger] order[i], nb),
    ensures
        first_links(graph, sources, order.push(nb), par.push(head), head),
{
    reveal(first_links);
    let o2 = order.push(nb);
    let p2 = par.push(head);
    assert forall|k: int| #![trigger p2[k]] 0 <= k < o2.len() && !sources.contains(o2[k]) implies {
        &&& 0 <= p2[k] < k
        &&& p2[k] <= head
        &&& linked(graph, o2[p2[k]], o2[k])
        &&& forall|i: int| 0 <= i < p2[k] ==> !linked(graph, #[trigger] o2[i], o2[k])
    } by {
        if k < order.len() {
            assert(p2[k] == par[k] && o2[k] == order[k]);
            assert(o2[par[k]] == order[par[k]]);
            assert forall|i: int| 0 <= i < p2[k] implies !linked(graph, #[trigger] o2[i], o2[k]) by {
                assert(o2[i] == order[i]);
            }
        } else {
            assert(o2[head] == order[head]);
            assert forall|i: int| 0 <= i < p2[k] implies !linked(graph, #[trigger] o2[i], o2[k]) by {
                assert(o2[i] == order[i]);
            }
        }
    }
    assert forall|k1: int, k2: int| #![trigger p2[k1], p2[k2]]
        0 <= k1 < k2 < o2.len() && !sources.contains(o2[k1]) && !sources.contains(o2[k2]) implies p2[k1] <= p2[k2] by {
        assert(o2[k1] == order[k1]);
        assert(p2[k1] == par[k1]);
        if k2 < order.len() {
            assert(o2[k2] == order[k2]);
        }
    }
}

/// What the first positions give: a non-source that comes before another
/// is linked from a position no later than any linked to the other.
proof fn lemma_first_links_order(graph: ClusterGraph, sources: Seq<ClusterId>, order: Seq<ClusterId>, par: Seq<int>, bound: int)
    requires
        first_links(graph, sources, order, par, bound),
        forall|j: int, k: int|
            #![trigger order[j], order[k]]
            0 <= j < k < order.len() && sources.contains(order[k]) ==> sources.contains(order[j]),
    ensures
        forall|k1: int, k2: int, j2: int|
            #![trigger order[k1], linked(graph, order[j2], order[k2])]
            0 <= k1 < k2 < order.len() && !sources.contains(order[k1]) && 0 <= j2 < k2
                && linked(graph, order[j2], order[k2])
                ==> exists|j1: int| 0 <= j1 <= j2 && #[trigger] linked(graph, order[j1], order[k1]),
{
    reveal(first_links);
    assert forall|k1: int, k2: int, j2: int|
        #![trigger order[k1], linked(graph, order[j2], order[k2])]
        0 <= k1 < k2 < order.len() && !sources.contains(order[k1]) && 0 <= j2 < k2
            && linked(graph, order[j2], order[k2])
        implies exists|j1: int| 0 <= j1 <= j2 && #[trigger] linked(graph, order[j1], order[k1]) by {
        assert(!sources.contains(order[k2]));
        assert(par[k1] <= par[k2]);
        if j2 < par[k2] {
            assert(!linked(graph, order[j2], order[k2]));
        }
        assert(linked(graph, order[par[k1]], order[k1]));
    }
}

/// `c` is reached from one of `sources` by a walk of at most `n` steps.
pub open spec fn within_steps(graph: ClusterGraph, sources: Seq<ClusterId>, c: ClusterId, n: int) -> bool {
    exists|w: Seq<ClusterId>| #[trigger] coarse_walk(graph, w) && sources.contains(w[0]) && w.last() == c && w.len() <= n + 1
}

/// The layer of `order[k]`: 0 for a source, else one more than that of the
/// first earlier cluster it is linked to.
spec fn layer(sources: Seq<ClusterId>, order: Seq<ClusterId>, par: Seq<int>, k: int) -> int
    decreases k,
{
    if 0 <= k < order.len() && !sources.contains(order[k]) && 0 <= par[k] < k {
        layer(sources, order, par, par[k]) + 1
    } else {
        0
    }
}

proof fn lemma_layer_mono(graph: ClusterGraph, sources: Seq<ClusterId>, order: Seq<ClusterId>, par: Seq<int>, bound: int, k2: int)
    requires
        first_links(graph, sources, order, par, bound),
        forall|j: int, k: int|
            #![trigger order[j], order[k]]
            0 <= j < k < order.len() && sources.contains(order[k]) ==> sources.contains(order[j]),
        0 <= k2 < order.len(),
    ensures
        forall|k1: int| 0 <= k1 <= k2 ==> #[trigger] layer(sources, order, par, k1) <= layer(sources, order, par, k2),
        layer(sources, order, par, k2) >= 0,
    decreases k2,
{
    reveal(first_links);
    if !sources.contains(order[k2]) {
        let p2 = par[k2];
        assert(0 <= p2 < k2);
        lemma_layer_mono(graph, sources, order, par, bound, p2);
        assert forall|k1: int| 0 <= k1 <= k2 implies #[trigger] layer(sources, order, par, k1) <= layer(sources, order, par, k2) by {
            if k1 < k2 && !sources.contains(order[k1]) {
                assert(par[k1] <= par[k2]);
                assert(0 <= par[k1] < k1);
                assert(layer(sources, order, par, par[k1]) <= layer(sources, order, par, p2));
            }
        }
    } else {
        assert forall|k1: int| 0 <= k1 <= k2 implies #[trigger] layer(sources, order, par, k1) <= layer(sources, order, par, k2) by {
            if k1 < k2 {
                assert(sources.contains(order[k1]));
            }
        }
    }
}

proof fn lemma_layer_walk(graph: ClusterGraph, sources: Seq<ClusterId>, order: Seq<ClusterId>, par: Seq<int>, bound: int, k: int)
    requires
        first_links(graph, sources, order, par, bound),
        0 <= k < order.len(),
    ensures
        within_steps(graph, sources, order[k], layer(sources, order, par, k)),
    decreases k,
{
    reveal(first_links);
    if sources.contains(order[k]) {
        let w = seq![order[k]];
        assert(coarse_walk(graph, w));
    } else {
        let p = par[k];
        lemma_layer_walk(graph, sources, order, par, bound, p);
        let w = choose|w: Seq<ClusterId>| #[trigger] coarse_walk(graph, w) && sources.contains(w[0]) && w.last() == order[p]
            && w.len() <= layer(sources, order, par, p) + 1;
        let q = w.push(order[k]);
        assert forall|i: int| 0 <= i < q.len() - 1 implies #[trigger] linked(graph, q[i], q[i + 1]) by {
            if i < w.len() - 1 {
                assert(q[i] == w[i] && q[i + 1] == w[i + 1]);
                assert(linked(graph, w[i], w[i + 1]));
            }
        }
        assert(coarse_walk(graph, q));
        assert(q[0] == w[0]);
    }
}

/// Each cluster on a walk from a source lies in a layer no deeper than its
/// position on the walk.
proof fn lemma_layer_bound(graph: ClusterGraph, sources: Seq<ClusterId>, order: Seq<ClusterId>, par: Seq<int>, bound: int, w: Seq<ClusterId>, i: int)
    requires
        first_links(graph, sources, order, par, bound),
        forall|j: int, k: int|
            #![trigger order[j], order[k]]
            0 <= j < k < order.len() && sources.contains(order[k]) ==> sources.contains(order[j]),
        order.no_duplicates(),
        forall|a: ClusterId| #[trigger] sources.contains(a) ==> order.contains(a),
        forall|a: ClusterId, b: ClusterId| #![trigger order.contains(a), linked(graph, a, b)]
            order.contains(a) && linked(graph, a, b) ==> order.contains(b),
        coarse_walk(graph, w),
        sources.contains(w[0]),
        0 <= i < w.len(),
    ensures
        order.contains(w[i]),
        layer(sources, order, par, order.index_of(w[i])) <= i,
    decreases i,
{
    reveal(first_links);
    if i == 0 {
        let k = order.index_of(w[0]);
        assert(order[k] == w[0]);
    } else {
        lemma_layer_bound(graph, sources, order, par, bound, w, i - 1);
        let ki = order.index_of(w[i - 1]);
        assert(order[ki] == w[i - 1]);
        assert(linked(graph, w[i - 1], w[(i - 1) + 1]));
        assert(order.contains(w[i]));
        let k = order.index_of(w[i]);
        assert(order[k] == w[i]);
        if !sources.contains(order[k]) && k != ki {
            let p = par[k];
            assert(0 <= p < k);
            if ki < k {
                if ki < p {
                    assert(!linked(graph, order[ki], order[k]));
                }
                lemma_layer_mono(graph, sources, order, par, bound, ki);
                assert(layer(sources, order, par, p) <= layer(sources, order, par, ki));
            } else {
                lemma_layer_mono(graph, sources, order, par, bound, ki);
                assert(layer(sources, order, par, p) <= layer(sources, order, par, ki));
            }
        }
    }
}

/// The breadth-first law: a cluster that comes earlier is reached from the
/// sources in no more steps than one that comes later.
proof fn lemma_layers_by_distance(graph: ClusterGraph, sources: Seq<ClusterId>, order: Seq<ClusterId>, par: Seq<int>, bound: int)
    requires
        first_links(graph, sources, order, par, bound),
        forall|j: int, k: int|
            #![trigger order[j], order[k]]
            0 <= j < k < order.len() && sources.contains(order[k]) ==> sources.contains(order[j]),
        order.no_duplicates(),
        forall|a: ClusterId| #[trigger] sources.contains(a) ==> order.contains(a),
        forall|a: ClusterId, b: ClusterId| #![trigger order.contains(a), linked(graph, a, b)]
            order.contains(a) && linked(graph, a, b) ==> order.contains(b),
    ensures
        forall|j: int, k: int, n: int|
            #![trigger order[j], within_steps(graph, sources, order[k], n)]
            0 <= j < k < order.len() && within_steps(graph, sources, order[k], n) ==> within_steps(graph, sources, order[j], n),
{
    assert forall|j: int, k: int, n: int|
        #![trigger order[j], within_steps(graph, sources, order[k], n)]
        0 <= j < k < order.len() && within_steps(graph, sources, order[k], n) implies within_steps(graph, sources, order[j], n) by {
        let w = choose|w: Seq<ClusterId>| #[trigger] coarse_walk(graph, w) && sources.contains(w[0]) && w.last() == order[k] && w.len() <= n + 1;
        lemma_layer_bound(graph, sources, order, par, bound, w, w.len() - 1);
        assert(order.index_of(w.last()) == k) by {
            let e = order.index_of(w.last());
            assert(order[e] == order[k]);
        }
        lemma_layer_mono(graph, sources, order, par, bound, k);
        assert(layer(sources, order, par, j) <= layer(sources, order, par, k));
        lemma_layer_walk(graph, sources, order, par, bound, j);
        let v = choose|v: Seq<ClusterId>| #[trigger] coarse_walk(graph, v) && sources.contains(v[0]) && v.last() == order[j]
            && v.len() <= layer(sources, order, par, j) + 1;
        assert(v.len() <= n + 1);
    }
}

/// Breadth-first order of the clusters reached from `sources`: the sources
/// first, in their order and each once, then every cluster reached, each
/// once and after a neighbour that comes before it. Clusters come in the
/// order of the first earlier cluster they are linked to: of two that are
/// not sources, the one that comes first is linked to a cluster no later
/// than any linked to the other. So clusters come in order of their
/// distance from the sources: one that comes earlier is reached in no more
/// steps than one that comes later.
#[verifier::rlimit(60)]
pub fn support_order(graph: &ClusterGraph, sources: &[ClusterId]) -> (order: Vec<ClusterId>)
    requires
        graph.wf(),
        forall|a: ClusterId| #[trigger] sources@.contains(a) ==> graph.node_seq().contains(a),
    ensures
        order@.no_duplicates(),
        forall|c: ClusterId| #[trigger] order@.contains(c) <==> reached_from(*graph, sources@, c),
        forall|j: int, k: int|
            #![trigger order@[j], order@[k]]
            0 <= j < k < order@.len() && sources@.contains(order@[k]) ==> sources@.contains(order@[j]),
        forall|k: int|
            #![trigger order@[k]]
            0 <= k < order@.len() ==> sources@.contains(order@[k]) || exists|j: int|
                0 <= j < k && #[trigger] linked(*graph, order@[j], order@[k]),
        forall|k1: int, k2: int, j2: int|
            #![trigger order@[k1], linked(*graph, order@[j2], order@[k2])]
            0 <= k1 < k2 < order@.len() && !sources@.contains(order@[k1]) && 0 <= j2 < k2
                && linked(*graph, order@[j2], order@[k2])
                ==> exists|j1: int| 0 <= j1 <= j2 && #[trigger] linked(*graph, order@[j1], order@[k1]),
        forall|j: int, k: int, n: int|
            #![trigger order@[j], within_steps(*graph, sources@, order@[k], n)]
            0 <= j < k < order@.len() && within_steps(*graph, sources@, order@[k], n) ==> within_steps(*graph, sources@, order@[j], n),
{
    let mut order: Vec<ClusterId> = Vec::new();
    let mut i: usize = 0;
    while i < sources.len()
        invariant
            graph.wf(),
            forall|a: ClusterId| #[trigger] sources@.contains(a) ==> graph.node_seq().contains(a),
            i <= sources.len(),
            order@.no_duplicates(),
            forall|c: ClusterId| #[trigger] order@.contains(c) <==> sources@.take(i as int).contains(c),
        decreases sources.len() - i,
    {
        let s = sources[i];
        let ghost pre = order@;
        proof {
            assert(sources@.take(i + 1) =~= sources@.take(i as int).push(s));
        }
        if !contains_cluster(&order, s) {
            order.push(s);
            proof {
                assert forall|c: ClusterId| #[trigger] order@.contains(c) <==> sources@.take(i + 1).contains(c) by {
                    let t0 = sources@.take(i as int);
                    let t1 = sources@.take(i + 1);
                    if order@.contains(c) {
                        if c == s {
                            assert(t1[i as int] == c);
                        } else {
                            let e = order@.index_of(c);
                            assert(pre[e] == c);
                            assert(pre.contains(c));
                            let f = t0.index_of(c);
                            assert(t1[f] == c);
                        }
                    }
                    if t1.contains(c) {
                        let e = t1.index_of(c);
                        if e < i {
                            assert(t0[e] == c);
                            assert(t0.contains(c));
                            assert(pre.contains(c));
                            let f = pre.index_of(c);
                            assert(order@[f] == c);
                        } else {
                            assert(order@[order@.len() - 1] == c);
                        }
                    }
                }
            }
        } else {
            proof {
                assert forall|c: ClusterId| #[trigger] order@.contains(c) <==> sources@.take(i + 1).contains(c) by {
                    let t0 = sources@.take(i as int);
                    let t1 = sources@.take(i + 1);
                    if order@.contains(c) {
                        let f = t0.index_of(c);
                        assert(t1[f] == c);
                    }
                    if t1.contains(c) {
                        let e = t1.index_of(c);
                        if e < i {
                            assert(t0[e] == c);
                        }
                    }
                }
            }
        }
        i = i + 1;
    }
    proof {
        assert(sources@.take(i as int) =~= sources@);
        assert forall|c: ClusterId| #[trigger] order@.contains(c) implies reached_from(*graph, sources@, c) by {
            lemma_connected_refl(*graph, c);
        }
        assert forall|c: ClusterId| #[trigger] order@.contains(c) implies graph.node_seq().contains(c) by {}
        lemma_node_subset_len(*graph, order@);
        assert forall|k: int| #![trigger order@[k]] 0 <= k < order@.len() implies sources@.contains(order@[k]) by {
            assert(order@.contains(order@[k]));
        }
        lemma_first_links_sources(*graph, sources@, order@);
    }
    let ghost mut par: Seq<int> = Seq::new(order@.len(), |i: int| 0int);
    let mut head: usize = 0;
    while head < order.len()
        invariant
            graph.wf(),
            forall|a: ClusterId| #[trigger] sources@.contains(a) ==> graph.node_seq().contains(a),
            head <= order@.len(),
            order@.len() <= graph.node_seq().len(),
            order@.no_duplicates(),
            forall|c: ClusterId| #[trigger] order@.contains(c) ==> graph.node_seq().contains(c),
            forall|c: ClusterId| #[trigger] order@.contains(c) ==> reached_from(*graph, sources@, c),
            forall|a: ClusterId| #[trigger] sources@.contains(a) ==> order@.contains(a),
            forall|j: int, b: ClusterId|
                #![trigger order@[j], linked(*graph, order@[j], b)]
                0 <= j < head && linked(*graph, order@[j], b) ==> order@.contains(b),
            forall|j: int, k: int|
                #![trigger order@[j], order@[k]]
                0 <= j < k < order@.len() && sources@.contains(order@[k]) ==> sources@.contains(order@[j]),
            forall|k: int|
                #![trigger order@[k]]
                0 <= k < order@.len() ==> sources@.contains(order@[k]) || exists|j: int|
                    0 <= j < k && #[trigger] linked(*graph, order@[j], order@[k]),
            first_links(*graph, sources@, order@, par, head as int),
        decreases graph.node_seq().len() - head,
    {
        let cur = order[head];
        let nbrs = graph.neighbors(cur);
        let ghost len0 = order@.len();
        let ghost ord0 = order@;
        let mut t: usize = 0;
        while t < nbrs.len()
            invariant
                graph.wf(),
                forall|a: ClusterId| #[trigger] sources@.contains(a) ==> graph.node_seq().contains(a),
                head < len0,
                len0 <= order@.len(),
                ord0.len() == len0,
                cur == order@[head as int],
                forall|j: int| 0 <= j < len0 ==> order@[j] == #[trigger] ord0[j],
                t <= nbrs.len(),
                nbrs@.no_duplicates(),
                forall|c: ClusterId| #![trigger nbrs@.contains(c)] nbrs@.contains(c) <==> linked(*graph, cur, c),
                order@.no_duplicates(),
                forall|c: ClusterId| #[trigger] order@.contains(c) ==> graph.node_seq().contains(c),
                forall|c: ClusterId| #[trigger] order@.contains(c) ==> reached_from(*graph, sources@, c),
                forall|a: ClusterId| #[trigger] sources@.contains(a) ==> order@.contains(a),
                forall|j: int, b: ClusterId|
                    #![trigger order@[j], linked(*graph, order@[j], b)]
                    0 <= j < head && linked(*graph, order@[j], b) ==> order@.contains(b),
                forall|j: int| #![trigger nbrs@[j]] 0 <= j < t ==> order@.contains(nbrs@[j]),
                forall|j: int, k: int|
                    #![trigger order@[j], order@[k]]
                    0 <= j < k < order@.len() && sources@.contains(order@[k]) ==> sources@.contains(order@[j]),
                forall|k: int|
                    #![trigger order@[k]]
                    0 <= k < order@.len() ==> sources@.contains(order@[k]) || exists|j: int|
                        0 <= j < k && #[trigger] linked(*graph, order@[j], order@[k]),
                first_links(*graph, sources@, order@, par, head as int),
            decreases nbrs.len() - t,
        {
            let nb = nbrs[t];
            proof {
                assert(nbrs@.contains(nb));
                assert(linked(*graph, cur, nb));
                if graph.edge_seq().contains((cur, nb)) {
                    assert(graph.node_seq().contains(nb));
                } else {
                    assert(graph.node_seq().contains(nb));
                }
            }
            if !contains_cluster(&order, nb) {
                let ghost pre = order@;
                proof {
                    assert forall|i: int| 0 <= i < head implies !linked(*graph, #[trigger] pre[i], nb) by {
                        if linked(*graph, order@[i], nb) {
                            assert(order@.contains(nb));
                        }
                    }
                    assert(order@[head as int] == cur);
                    lemma_first_links_push(*graph, sources@, pre, par, head as int, nb);
                    par = par.push(head as int);
                }
                order.push(nb);
                proof {
                    assert(pre.contains(cur)) by {
                        assert(pre[head as int] == cur);
                    }
                    let a = choose|a: ClusterId| #![trigger sources@.contains(a), coarse_connected(*graph, a, cur)]
                        sources@.contains(a) && coarse_connected(*graph, a, cur);
                    lemma_connected_step(*graph, a, cur, nb);
                    assert forall|c: ClusterId| #[trigger] order@.contains(c) <==> (pre.contains(c) || c == nb) by {
                        if order@.contains(c) && c != nb {
                            let e = order@.index_of(c);
                            assert(pre[e] == c);
                        }
                        if pre.contains(c) {
                            let e = pre.index_of(c);
                            assert(order@[e] == c);
                        }
                        if c == nb {
                            assert(order@[order@.len() - 1] == c);
                        }
                    }
                    assert forall|j: int| 0 <= j < pre.len() implies pre[j] != nb by {
                        assert(pre.contains(pre[j]));
                    }
                    assert(!sources@.contains(nb));
                    assert forall|j: int| 0 <= j < len0 implies order@[j] == #[trigger] ord0[j] by {
                        assert(pre[j] == ord0[j]);
                    }
                    assert forall|j: int, b: ClusterId|
                        #![trigger order@[j], linked(*graph, order@[j], b)]
                        0 <= j < head && linked(*graph, order@[j], b) implies order@.contains(b) by {
                        assert(pre[j] == order@[j]);
                    }
                    assert forall|j: int| #![trigger nbrs@[j]] 0 <= j < t implies order@.contains(nbrs@[j]) by {
                        assert(pre.contains(nbrs@[j]));
                    }
                    assert forall|j: int, k: int|
                        #![trigger order@[j], order@[k]]
                        0 <= j < k < order@.len() && sources@.contains(order@[k]) implies sources@.contains(order@[j]) by {
                        if k < pre.len() {
                            assert(pre[j] == order@[j] && pre[k] == order@[k]);
                        }
                    }
                    assert forall|k: int|
                        #![trigger order@[k]]
                        0 <= k < order@.len() implies sources@.contains(order@[k]) || exists|j: int|
                            0 <= j < k && #[trigger] linked(*graph, order@[j], order@[k]) by {
                        if k < pre.len() {
                            assert(pre[k] == order@[k]);
                            if !sources@.contains(pre[k]) {
                                let j = choose|j: int| 0 <= j < k && #[trigger] linked(*graph, pre[j], pre[k]);
                                assert(pre[j] == order@[j]);
                                assert(linked(*graph, order@[j], order@[k]));
                            }
                        } else {
                            assert(order@[head as int] == cur);
                            assert(linked(*graph, order@[head as int], order@[k]));
                        }
                    }
                    lemma_node_subset_len(*graph, order@);
                }
            }
            t = t + 1;
        }
        proof {
            assert forall|j: int, b: ClusterId|
                #![trigger order@[j], linked(*graph, order@[j], b)]
                0 <= j < head + 1 && linked(*graph, order@[j], b) implies order@.contains(b) by {
                if j == head {
                    assert(nbrs@.contains(b));
                    let e = nbrs@.index_of(b);
                    assert(nbrs@[e] == b);
                }
            }
            lemma_node_subset_len(*graph, order@);
            lemma_first_links_raise(*graph, sources@, order@, par, head as int);
        }
        head = head + 1;
    }
    proof {
        assert forall|a: ClusterId, b: ClusterId|
            #![trigger order@.contains(a), linked(*graph, a, b)]
            order@.contains(a) && linked(*graph, a, b) implies order@.contains(b) by {
            let j = order@.index_of(a);
            assert(order@[j] == a);
        }
        assert forall|c: ClusterId| reached_from(*graph, sources@, c) implies #[trigger] order@.contains(c) by {
            let a = choose|a: ClusterId| #![trigger sources@.contains(a), coarse_connected(*graph, a, c)]
                sources@.contains(a) && coarse_connected(*graph, a, c);
            let w = choose|w: Seq<ClusterId>| #[trigger] coarse_walk(*graph, w) && w[0] == a && w.last() == c;
            lemma_walk_forward(*graph, order@, w, w.len() - 1);
        }
        lemma_first_links_order(*graph, sources@, order@, par, head as int);
        lemma_layers_by_distance(*graph, sources@, order@, par, head as int);
    }
    order
}

/// The non-air values of row `(y, z)` for `x` in `[x0, x)`, in order.
pub open spec fn row_values(g: VoxelGrid, x0: int, x: int, y: int, z: int) -> Seq<u8>
    decreases x - x0,
{
    if x <= x0 {
        Seq::empty()
    } else {
        let rest = row_values(g, x0, x - 1, y, z);
        if g.cell(x - 1, y, z) != 0 {
            rest.push(g.cell(x - 1, y, z))
        } else {
            rest
        }
    }
}

/// The non-air values of the rows `y` in `[y0, y)` of plane `z`, row by row.
pub open spec fn plane_values(g: VoxelGrid, x0: int, x1: int, y0: int, y: int, z: int) -> Seq<u8>
    decreases y - y0,
{
    if y <= y0 {
        Seq::empty()
    } else {
        plane_values(g, x0, x1, y0, y - 1, z) + row_values(g, x0, x1, y - 1, z)
    }
}

/// The non-air values of the planes `z` in `[z0, z)` of a box, plane by plane.
pub open spec fn box_values(g: VoxelGrid, x0: int, x1: int, y0: int, y1: int, z0: int, z: int) -> Seq<u8>
    decreases z - z0,
{
    if z <= z0 {
        Seq::empty()
    } else {
        box_values(g, x0, x1, y0, y1, z0, z - 1) + plane_values(g, x0, x1, y0, y1, z - 1)
    }
}

/// The end of the span of cluster coordinate `c` along an axis of `n` cells.
pub open spec fn span_end(c: int, cs: int, n: int) -> int {
    if c * cs + cs < n { c * cs + cs } else { n }
}

/// The non-air values of cluster `id`, in the order x fastest, then y,
/// then z.
pub open spec fn cluster_values(g: VoxelGrid, cs: int, id: ClusterId) -> Seq<u8> {
    box_values(
        g,
        id.0 * cs,
        span_end(id.0 as int, cs, g.spec_width() as int),
        id.1 * cs,
        span_end(id.1 as int, cs, g.spec_height() as int),
        id.2 * cs,
        span_end(id.2 as int, cs, g.spec_depth() as int),
    )
}

/// The non-air cells of cluster `id` (a cube of `cs` cells per axis).
pub open spec fn cluster_cells(g: VoxelGrid, cs: int, id: ClusterId) -> Set<(int, int, int)> {
    Set::new(|p: (int, int, int)| in_cluster(cs, id, p.0, p.1, p.2) && g.filled(p.0, p.1, p.2))
}

/// The non-air cells `(x, y, z)` with `x` in `[x0, x1)`, `y` in `[y0, y1)`
/// and `z` in `[z0, z1)`.
pub open spec fn box_cells(g: VoxelGrid, x0: int, x1: int, y0: int, y1: int, z0: int, z1: int) -> Set<(int, int, int)> {
    Set::new(|p: (int, int, int)| x0 <= p.0 < x1 && y0 <= p.1 < y1 && z0 <= p.2 < z1 && g.filled(p.0, p.1, p.2))
}

proof fn lemma_row_count(g: VoxelGrid, x0: int, x: int, y: int, z: int)
    requires
        0 <= x0,
        x <= g.spec_width(),
        0 <= y < g.spec_height(),
        0 <= z < g.spec_depth(),
    ensures
        box_cells(g, x0, x, y, y + 1, z, z + 1).finite(),
        row_values(g, x0, x, y, z).len() == box_cells(g, x0, x, y, y + 1, z, z + 1).len(),
        forall|k: int| 0 <= k < row_values(g, x0, x, y, z).len() ==> #[trigger] row_values(g, x0, x, y, z)[k] != 0,
    decreases x - x0,
{
    let cur = box_cells(g, x0, x, y, y + 1, z, z + 1);
    if x <= x0 {
        assert(cur =~= Set::empty());
    } else {
        lemma_row_count(g, x0, x - 1, y, z);
        let prev = box_cells(g, x0, x - 1, y, y + 1, z, z + 1);
        let r = row_values(g, x0, x - 1, y, z);
        if g.cell(x - 1, y, z) != 0 {
            assert(g.filled(x - 1, y, z));
            assert(cur =~= prev.insert((x - 1, y, z)));
            assert(!prev.contains((x - 1, y, z)));
            assert forall|k: int| 0 <= k < r.push(g.cell(x - 1, y, z)).len() implies #[trigger] r.push(g.cell(x - 1, y, z))[k] != 0 by {
                if k < r.len() {
                    assert(r.push(g.cell(x - 1, y, z))[k] == r[k]);
                }
            }
        } else {
            assert(!g.filled(x - 1, y, z));
            assert(cur =~= prev);
        }
    }
}

proof fn lemma_plane_count(g: VoxelGrid, x0: int, x1: int, y0: int, y: int, z: int)
    requires
        0 <= x0,
        x1 <= g.spec_width(),
        0 <= y0,
        y <= g.spec_height(),
        0 <= z < g.spec_depth(),
    ensures
        box_cells(g, x0, x1, y0, y, z, z + 1).finite(),
        plane_values(g, x0, x1, y0, y, z).len() == box_cells(g, x0, x1, y0, y, z, z + 1).len(),
        forall|k: int| 0 <= k < plane_values(g, x0, x1, y0, y, z).len() ==> #[trigger] plane_values(g, x0, x1, y0, y, z)[k] != 0,
    decreases y - y0,
{
    let cur = box_cells(g, x0, x1, y0, y, z, z + 1);
    if y <= y0 {
        assert(cur =~= Set::empty());
    } else {
        lemma_plane_count(g, x0, x1, y0, y - 1, z);
        lemma_row_count(g, x0, x1, y - 1, z);
        let prev = box_cells(g, x0, x1, y0, y - 1, z, z + 1);
        let row = box_cells(g, x0, x1, y - 1, y, z, z + 1);
        assert(cur =~= prev + row);
        assert(prev.disjoint(row));
        vstd::set_lib::lemma_set_disjoint_lens(prev, row);
        let a = plane_values(g, x0, x1, y0, y - 1, z);
        let b = row_values(g, x0, x1, y - 1, z);
        assert forall|k: int| 0 <= k < (a + b).len() implies #[trigger] (a + b)[k] != 0 by {
            if k < a.len() {
                assert((a + b)[k] == a[k]);
            } else {
                assert((a + b)[k] == b[k - a.len()]);
            }
        }
    }
}

proof fn lemma_box_count(g: VoxelGrid, x0: int, x1: int, y0: int, y1: int, z0: int, z: int)
    requires
        0 <= x0,
        x1 <= g.spec_width(),
        0 <= y0,
        y1 <= g.spec_height(),
        0 <= z0,
        z <= g.spec_depth(),
    ensures
        box_cells(g, x0, x1, y0, y1, z0, z).finite(),
        box_values(g, x0, x1, y0, y1, z0, z).len() == box_cells(g, x0, x1, y0, y1, z0, z).len(),
        forall|k: int| 0 <= k < box_values(g, x0, x1, y0, y1, z0, z).len() ==> #[trigger] box_values(g, x0, x1, y0, y1, z0, z)[k] != 0,
    decreases z - z0,
{
    let cur = box_cells(g, x0, x1, y0, y1, z0, z);
    if z <= z0 {
        assert(cur =~= Set::empty());
    } else {
        lemma_box_count(g, x0, x1, y0, y1, z0, z - 1);
        lemma_plane_count(g, x0, x1, y0, y1, z - 1);
        let prev = box_cells(g, x0, x1, y0, y1, z0, z - 1);
        let plane = box_cells(g, x0, x1, y0, y1, z - 1, z);
        assert(cur =~= prev + plane);
        assert(prev.disjoint(plane));
        vstd::set_lib::lemma_set_disjoint_lens(prev, plane);
        let a = box_values(g, x0, x1, y0, y1, z0, z - 1);
        let b = plane_values(g, x0, x1, y0, y1, z - 1);
        assert forall|k: int| 0 <= k < (a + b).len() implies #[trigger] (a + b)[k] != 0 by {
            if k < a.len() {
                assert((a + b)[k] == a[k]);
            } else {
                assert((a + b)[k] == b[k - a.len()]);
            }
        }
    }
}

/// Counting law of a cluster's voxels: the values listed for cluster `id`
/// are as many as the non-air cells of its cube (cut at the grid's edges),
/// one per cell, and none of them is air.
pub proof fn lemma_cluster_values_count(g: VoxelGrid, cs: int, id: ClusterId)
    requires
        cs >= 0,
    ensures
        cluster_cells(g, cs, id).finite(),
        cluster_values(g, cs, id).len() == cluster_cells(g, cs, id).len(),
        forall|k: int| 0 <= k < cluster_values(g, cs, id).len() ==> #[trigger] cluster_values(g, cs, id)[k] != 0,
{
    let (w, h, d) = (g.spec_width() as int, g.spec_height() as int, g.spec_depth() as int);
    let (x0, y0, z0) = (id.0 * cs, id.1 * cs, id.2 * cs);
    assert(x0 >= 0 && y0 >= 0 && z0 >= 0) by (nonlinear_arith)
        requires cs >= 0, id.0 >= 0, id.1 >= 0, id.2 >= 0, x0 == id.0 * cs, y0 == id.1 * cs, z0 == id.2 * cs;
    let (x1, y1, z1) = (span_end(id.0 as int, cs, w), span_end(id.1 as int, cs, h), span_end(id.2 as int, cs, d));
    lemma_box_count(g, x0, x1, y0, y1, z0, z1);
    assert(cluster_cells(g, cs, id) =~= box_cells(g, x0, x1, y0, y1, z0, z1));
}

/// The non-air cells of row `(y, z)` for `x` in `[x0, x)`, in order.
spec fn row_cells(g: VoxelGrid, x0: int, x: int, y: int, z: int) -> Seq<(int, int, int)>
    decreases x - x0,
{
    if x <= x0 {
        Seq::empty()
    } else if g.cell(x - 1, y, z) != 0 {
        row_cells(g, x0, x - 1, y, z).push((x - 1, y, z))
    } else {
        row_cells(g, x0, x - 1, y, z)
    }
}

spec fn plane_cells(g: VoxelGrid, x0: int, x1: int, y0: int, y: int, z: int) -> Seq<(int, int, int)>
    decreases y - y0,
{
    if y <= y0 {
        Seq::empty()
    } else {
        plane_cells(g, x0, x1, y0, y - 1, z) + row_cells(g, x0, x1, y - 1, z)
    }
}

spec fn box_cell_seq(g: VoxelGrid, x0: int, x1: int, y0: int, y1: int, z0: int, z: int) -> Seq<(int, int, int)>
    decreases z - z0,
{
    if z <= z0 {
        Seq::empty()
    } else {
        box_cell_seq(g, x0, x1, y0, y1, z0, z - 1) + plane_cells(g, x0, x1, y0, y1, z - 1)
    }
}

/// `cells` lists the cells of `set` once each, and `vals[k]` is the value
/// of cell `cells[k]`.
pub open spec fn lists_cells(g: VoxelGrid, vals: Seq<u8>, cells: Seq<(int, int, int)>, set: Set<(int, int, int)>) -> bool {
    &&& cells.no_duplicates()
    &&& cells.to_set() == set
    &&& cells.len() == vals.len()
    &&& forall|k: int| 0 <= k < vals.len() ==> #[trigger] vals[k] == g.cell(cells[k].0, cells[k].1, cells[k].2)
}

proof fn lemma_concat_lists(
    g: VoxelGrid,
    va: Seq<u8>,
    ca: Seq<(int, int, int)>,
    sa: Set<(int, int, int)>,
    vb: Seq<u8>,
    cb: Seq<(int, int, int)>,
    sb: Set<(int, int, int)>,
)
    requires
        lists_cells(g, va, ca, sa),
        lists_cells(g, vb, cb, sb),
        sa.disjoint(sb),
    ensures
        lists_cells(g, va + vb, ca + cb, sa + sb),
{
    let c = ca + cb;
    let v = va + vb;
    assert forall|i: int, j: int| 0 <= i < c.len() && 0 <= j < c.len() && i != j implies c[i] != c[j] by {
        if i < ca.len() && j < ca.len() {
        } else if i >= ca.len() && j >= ca.len() {
            assert(c[i] == cb[i - ca.len()] && c[j] == cb[j - ca.len()]);
        } else if i < ca.len() {
            assert(sa.contains(ca[i]));
            assert(sb.contains(cb[j - ca.len()]));
        } else {
            assert(sb.contains(cb[i - ca.len()]));
            assert(sa.contains(ca[j]));
        }
    }
    assert(c.to_set() =~= sa + sb) by {
        assert forall|p: (int, int, int)| c.to_set().contains(p) implies (sa + sb).contains(p) by {
            let i = c.index_of(p);
            if i < ca.len() {
                assert(ca.to_set().contains(ca[i]));
            } else {
                assert(cb[i - ca.len()] == p);
                assert(cb.to_set().contains(cb[i - ca.len()]));
            }
        }
        assert forall|p: (int, int, int)| (sa + sb).contains(p) implies c.to_set().contains(p) by {
            if sa.contains(p) {
                assert(ca.to_set().contains(p));
                let i = ca.index_of(p);
                assert(c[i] == p);
            } else {
                assert(cb.to_set().contains(p));
                let i = cb.index_of(p);
                assert(c[ca.len() + i] == p);
            }
        }
    }
    assert forall|k: int| 0 <= k < v.len() implies #[trigger] v[k] == g.cell(c[k].0, c[k].1, c[k].2) by {
        if k < va.len() {
            assert(v[k] == va[k] && c[k] == ca[k]);
        } else {
            assert(v[k] == vb[k - va.len()] && c[k] == cb[k - ca.len()]);
        }
    }
}

proof fn lemma_row_lists(g: VoxelGrid, x0: int, x: int, y: int, z: int)
    requires
        0 <= x0,
        x <= g.spec_width(),
        0 <= y < g.spec_height(),
        0 <= z < g.spec_depth(),
    ensures
        lists_cells(g, row_values(g, x0, x, y, z), row_cells(g, x0, x, y, z), box_cells(g, x0, x, y, y + 1, z, z + 1)),
    decreases x - x0,
{
    let cur = box_cells(g, x0, x, y, y + 1, z, z + 1);
    if x <= x0 {
        assert(cur =~= Set::empty());
        assert(row_cells(g, x0, x, y, z).to_set() =~= Set::empty());
    } else {
        lemma_row_lists(g, x0, x - 1, y, z);
        let prev = box_cells(g, x0, x - 1, y, y + 1, z, z + 1);
        let v = row_values(g, x0, x - 1, y, z);
        let c = row_cells(g, x0, x - 1, y, z);
        if g.cell(x - 1, y, z) != 0 {
            let p = (x - 1, y, z);
            assert(cur =~= prev.insert(p));
            assert(!c.to_set().contains(p));
            let v2 = v.push(g.cell(x - 1, y, z));
            let c2 = c.push(p);
            assert forall|i: int, j: int| 0 <= i < c2.len() && 0 <= j < c2.len() && i != j implies c2[i] != c2[j] by {
                if i < c.len() && j < c.len() {
                } else if i < c.len() {
                    assert(c.to_set().contains(c[i]));
                } else if j < c.len() {
                    assert(c.to_set().contains(c[j]));
                }
            }
            assert(c2.to_set() =~= c.to_set().insert(p)) by {
                assert forall|q: (int, int, int)| c2.to_set().contains(q) implies c.to_set().insert(p).contains(q) by {
                    let i = c2.index_of(q);
                    if i < c.len() {
                        assert(c[i] == q);
                        assert(c.to_set().contains(c[i]));
                    }
                }
                assert forall|q: (int, int, int)| c.to_set().insert(p).contains(q) implies c2.to_set().contains(q) by {
                    if q == p {
                        assert(c2[c.len() as int] == p);
                    } else {
                        let i = c.index_of(q);
                        assert(c2[i] == q);
                    }
                }
            }
            assert forall|k: int| 0 <= k < v2.len() implies #[trigger] v2[k] == g.cell(c2[k].0, c2[k].1, c2[k].2) by {
                if k < v.len() {
                    assert(v2[k] == v[k] && c2[k] == c[k]);
                }
            }
        } else {
            assert(cur =~= prev);
        }
    }
}

proof fn lemma_plane_lists(g: VoxelGrid, x0: int, x1: int, y0: int, y: int, z: int)
    requires
        0 <= x0,
        x1 <= g.spec_width(),
        0 <= y0,
        y <= g.spec_height(),
        0 <= z < g.spec_depth(),
    ensures
        lists_cells(g, plane_values(g, x0, x1, y0, y, z), plane_cells(g, x0, x1, y0, y, z), box_cells(g, x0, x1, y0, y, z, z + 1)),
    decreases y - y0,
{
    let cur = box_cells(g, x0, x1, y0, y, z, z + 1);
    if y <= y0 {
        assert(cur =~= Set::empty());
        assert(plane_cells(g, x0, x1, y0, y, z).to_set() =~= Set::empty());
    } else {
        lemma_plane_lists(g, x0, x1, y0, y - 1, z);
        lemma_row_lists(g, x0, x1, y - 1, z);
        let prev = box_cells(g, x0, x1, y0, y - 1, z, z + 1);
        let row = box_cells(g, x0, x1, y - 1, y, z, z + 1);
        assert(cur =~= prev + row);
        lemma_concat_lists(
            g,
            plane_values(g, x0, x1, y0, y - 1, z),
            plane_cells(g, x0, x1, y0, y - 1, z),
            prev,
            row_values(g, x0, x1, y - 1, z),
            row_cells(g, x0, x1, y - 1, z),
            row,
        );
    }
}

proof fn lemma_box_lists(g: VoxelGrid, x0: int, x1: int, y0: int, y1: int, z0: int, z: int)
    requires
        0 <= x0,
        x1 <= g.spec_width(),
        0 <= y0,
        y1 <= g.spec_height(),
        0 <= z0,
        z <= g.spec_depth(),
    ensures
        lists_cells(g, box_values(g, x0, x1, y0, y1, z0, z), box_cell_seq(g, x0, x1, y0, y1, z0, z), box_cells(g, x0, x1, y0, y1, z0, z)),
    decreases z - z0,
{
    let cur = box_cells(g, x0, x1, y0, y1, z0, z);
    if z <= z0 {
        assert(cur =~= Set::empty());
        assert(box_cell_seq(g, x0, x1, y0, y1, z0, z).to_set() =~= Set::empty());
    } else {
        lemma_box_lists(g, x0, x1, y0, y1, z0, z - 1);
        lemma_plane_lists(g, x0, x1, y0, y1, z - 1);
        let prev = box_cells(g, x0, x1, y0, y1, z0, z - 1);
        let plane = box_cells(g, x0, x1, y0, y1, z - 1, z);
        assert(cur =~= prev + plane);
        lemma_concat_lists(
            g,
            box_values(g, x0, x1, y0, y1, z0, z - 1),
            box_cell_seq(g, x0, x1, y0, y1, z0, z - 1),
            prev,
            plane_values(g, x0, x1, y0, y1, z - 1),
            plane_cells(g, x0, x1, y0, y1, z - 1),
            plane,
        );
    }
}

/// The values listed for cluster `id` are those of its non-air cells, each
/// cell once: some listing of those cells, without repeats, gives value `k`
/// at position `k`.
pub proof fn lemma_cluster_values_are_its_cells(g: VoxelGrid, cs: int, id: ClusterId)
    requires
        cs >= 0,
    ensures
        exists|cells: Seq<(int, int, int)>| #[trigger] lists_cells(g, cluster_values(g, cs, id), cells, cluster_cells(g, cs, id)),
{
    let (w, h, d) = (g.spec_width() as int, g.spec_height() as int, g.spec_depth() as int);
    let (x0, y0, z0) = (id.0 * cs, id.1 * cs, id.2 * cs);
    assert(x0 >= 0 && y0 >= 0 && z0 >= 0) by (nonlinear_arith)
        requires cs >= 0, id.0 >= 0, id.1 >= 0, id.2 >= 0, x0 == id.0 * cs, y0 == id.1 * cs, z0 == id.2 * cs;
    let (x1, y1, z1) = (span_end(id.0 as int, cs, w), span_end(id.1 as int, cs, h), span_end(id.2 as int, cs, d));
    lemma_box_lists(g, x0, x1, y0, y1, z0, z1);
    assert(cluster_cells(g, cs, id) =~= box_cells(g, x0, x1, y0, y1, z0, z1));
    assert(lists_cells(g, cluster_values(g, cs, id), box_cell_seq(g, x0, x1, y0, y1, z0, z1), cluster_cells(g, cs, id)));
}

/// The non-air values inside cluster `id` (a cube of `cluster_size` cells
/// per axis, cut at the grid's edges), scanning x fastest, then y, then z.
pub fn cluster_voxels(grid: &VoxelGrid, cluster_size: u32, id: ClusterId) -> (vals: Vec<u8>)
    requires
        grid.wf(),
        id.0 * cluster_size + cluster_size <= u32::MAX,
        id.1 * cluster_size + cluster_size <= u32::MAX,
        id.2 * cluster_size + cluster_size <= u32::MAX,
    ensures
        vals@ == cluster_values(*grid, cluster_size as int, id),
        vals@.len() == cluster_cells(*grid, cluster_size as int, id).len(),
        forall|k: int| 0 <= k < vals@.len() ==> #[trigger] vals@[k] != 0,
        exists|cells: Seq<(int, int, int)>| #[trigger] lists_cells(*grid, vals@, cells, cluster_cells(*grid, cluster_size as int, id)),
{
    proof {
        lemma_cluster_values_count(*grid, cluster_size as int, id);
        lemma_cluster_values_are_its_cells(*grid, cluster_size as int, id);
    }
    let (w, h, d) = grid.dimensions();
    proof {
        assert(id.0 * cluster_size <= id.0 * cluster_size + cluster_size);
    }
    let x0: u32 = id.0 * cluster_size;
    let y0: u32 = id.1 * cluster_size;
    let z0: u32 = id.2 * cluster_size;
    let x1: u32 = if x0 + cluster_size < w { x0 + cluster_size } else { w };
    let y1: u32 = if y0 + cluster_size < h { y0 + cluster_size } else { h };
    let z1: u32 = if z0 + cluster_size < d { z0 + cluster_size } else { d };
    let mut vals: Vec<u8> = Vec::new();
    let mut z: u32 = z0;
    while z < z1
        invariant
            grid.wf(),
            (w, h, d) == (grid.spec_width(), grid.spec_height(), grid.spec_depth()),
            x1 <= w,
            y1 <= h,
            z1 <= d,
            z0 <= z,
            z == z0 || z <= z1,
            vals@ == box_values(*grid, x0 as int, x1 as int, y0 as int, y1 as int, z0 as int, z as int),
        decreases z1 - z,
    {
        let mut y: u32 = y0;
        while y < y1
            invariant
                grid.wf(),
                (w, h, d) == (grid.spec_width(), grid.spec_height(), grid.spec_depth()),
                x1 <= w,
                y1 <= h,
                z < z1 <= d,
                y0 <= y,
                y == y0 || y <= y1,
                vals@ == box_values(*grid, x0 as int, x1 as int, y0 as int, y1 as int, z0 as int, z as int)
                    + plane_values(*grid, x0 as int, x1 as int, y0 as int, y as int, z as int),
            decreases y1 - y,
        {
            let mut x: u32 = x0;
            while x < x1
                invariant
                    grid.wf(),
                    (w, h, d) == (grid.spec_width(), grid.spec_height(), grid.spec_depth()),
                    x1 <= w,
                    y < y1 <= h,
                    z < z1 <= d,
                    x0 <= x,
                    x == x0 || x <= x1,
                    vals@ == box_values(*grid, x0 as int, x1 as int, y0 as int, y1 as int, z0 as int, z as int)
                        + plane_values(*grid, x0 as int, x1 as int, y0 as int, y as int, z as int)
                        + row_values(*grid, x0 as int, x as int, y as int, z as int),
                decreases x1 - x,
            {
                let v = grid.get(x, y, z).unwrap();
                if v != 0 {
                    vals.push(v);
                }
                proof {
                    let b = box_values(*grid, x0 as int, x1 as int, y0 as int, y1 as int, z0 as int, z as int);
                    let p = plane_values(*grid, x0 as int, x1 as int, y0 as int, y as int, z as int);
                    let r = row_values(*grid, x0 as int, x as int, y as int, z as int);
                    assert(row_values(*grid, x0 as int, x + 1, y as int, z as int) == (if v != 0 { r.push(v) } else { r }));
                    if v != 0 {
                        assert(b + p + r.push(v) =~= (b + p + r).push(v));
                    }
                }
                x = x + 1;
            }
            proof {
                let b = box_values(*grid, x0 as int, x1 as int, y0 as int, y1 as int, z0 as int, z as int);
                let p = plane_values(*grid, x0 as int, x1 as int, y0 as int, y as int, z as int);
                let r = row_values(*grid, x0 as int, x1 as int, y as int, z as int);
                if x0 >= x1 {
                    assert(row_values(*grid, x0 as int, x as int, y as int, z as int) == Seq::<u8>::empty());
                    assert(r == Seq::<u8>::empty());
                }
                assert(plane_values(*grid, x0 as int, x1 as int, y0 as int, y + 1, z as int) == p + r);
                assert(b + p + r =~= b + (p + r));
            }
            y = y + 1;
        }
        proof {
            let b = box_values(*grid, x0 as int, x1 as int, y0 as int, y1 as int, z0 as int, z as int);
            let p = plane_values(*grid, x0 as int, x1 as int, y0 as int, y1 as int, z as int);
            if y0 >= y1 {
                assert(plane_values(*grid, x0 as int, x1 as int, y0 as int, y as int, z as int) == Seq::<u8>::empty());
                assert(p == Seq::<u8>::empty());
            }
            assert(box_values(*grid, x0 as int, x1 as int, y0 as int, y1 as int, z0 as int, z + 1) == b + p);
        }
        z = z + 1;
    }
    proof {
        if z0 >= z1 {
            assert(vals@ == box_values(*grid, x0 as int, x1 as int, y0 as int, y1 as int, z0 as int, z1 as int));
        }
    }
    vals
}

} // verus!
