use vstd::prelude::*;
use std::collections::HashMap;
use crate::voxel::cluster_graph::{ClusterGraph, ClusterId, neighbor_seq};
use crate::voxel::coarse_narrow::linked;

verus! {

broadcast use vstd::std_specs::hash::group_hash_axioms;

/// `adj` is `graph` with each cluster numbered by its place in the node
/// list: the keys are the numbers of the nodes, and the list of a node
/// holds, once each, the numbers of the nodes joined to it by an edge.
pub open spec fn is_adjacency_of(graph: ClusterGraph, adj: Map<u32, Vec<u32>>) -> bool {
    let nodes = graph.node_seq();
    &&& forall|i: u32| #[trigger] adj.dom().contains(i) <==> i < nodes.len()
    &&& forall|i: u32| #[trigger] adj.dom().contains(i) ==> adj[i]@ == numbered(nodes, neighbor_seq(graph.edge_seq(), nodes[i as int]))
    &&& forall|i: u32| #[trigger] adj.dom().contains(i) ==> adj[i]@.no_duplicates()
    &&& forall|i: u32, j: u32|
        #![trigger adj[i]@.contains(j)]
        adj.dom().contains(i) ==> (adj[i]@.contains(j) <==> (j < nodes.len() && linked(
            graph,
            nodes[i as int],
            nodes[j as int],
        )))
}

/// Each cluster of `cs` replaced by its place in `nodes`.
pub open spec fn numbered(nodes: Seq<ClusterId>, cs: Seq<ClusterId>) -> Seq<u32> {
    cs.map_values(|c: ClusterId| nodes.index_of(c) as u32)
}

/// The place of `c` in `nodes`, if it is there.
fn index_of_cluster(nodes: &Vec<ClusterId>, c: ClusterId) -> (r: Option<usize>)
    ensures
        match r {
            Some(i) => i < nodes.len() && nodes@[i as int] == c,
            None => !nodes@.contains(c),
        },
{
    let mut i: usize = 0;
    while i < nodes.len()
        invariant
            i <= nodes.len(),
            forall|j: int| 0 <= j < i ==> nodes@[j] != c,
        decreases nodes.len() - i,
    {
        let n = nodes[i];
        if n.0 == c.0 && n.1 == c.1 && n.2 == c.2 {
            return Some(i);
        }
        i = i + 1;
    }
    None
}

/// The numbers of the neighbours of node `i`.
fn neighbor_indices(graph: &ClusterGraph, i: usize) -> (list: Vec<u32>)
    requires
        graph.wf(),
        i < graph.node_seq().len(),
        graph.node_seq().len() <= u32::MAX,
    ensures
        list@ == numbered(graph.node_seq(), neighbor_seq(graph.edge_seq(), graph.node_seq()[i as int])),
        list@.no_duplicates(),
        forall|j: u32|
            #![trigger list@.contains(j)]
            list@.contains(j) <==> (j < graph.node_seq().len() && linked(
                *graph,
                graph.node_seq()[i as int],
                graph.node_seq()[j as int],
            )),
{
    let nodes = graph.nodes();
    let id = nodes[i];
    let nbrs = graph.neighbors(id);
    proof {
        assert forall|c: ClusterId| #![trigger nbrs@.contains(c)] nbrs@.contains(c) implies nodes@.contains(c) by {
            if graph.edge_seq().contains((id, c)) {
            } else {
                assert(graph.edge_seq().contains((c, id)));
            }
        }
    }
    let mut list: Vec<u32> = Vec::new();
    let mut t: usize = 0;
    while t < nbrs.len()
        invariant
            graph.wf(),
            nodes@ == graph.node_seq(),
            nodes@.len() <= u32::MAX,
            t <= nbrs.len(),
            nbrs@.no_duplicates(),
            list@.no_duplicates(),
            list@ == numbered(nodes@, nbrs@.take(t as int)),
            forall|c: ClusterId| #![trigger nbrs@.contains(c)] nbrs@.contains(c) ==> nodes@.contains(c),
            forall|j: u32|
                #![trigger list@.contains(j)]
                list@.contains(j) <==> (j < nodes@.len() && nbrs@.take(t as int).contains(nodes@[j as int])),
        decreases nbrs.len() - t,
    {
        let nb = nbrs[t];
        let ghost pre = list@;
        proof {
            assert(nbrs@.take(t + 1) =~= nbrs@.take(t as int).push(nb));
            assert forall|e: int| 0 <= e < t implies nbrs@.take(t as int)[e] != nb by {
                assert(nbrs@[e] != nbrs@[t as int]);
            }
        }
        match index_of_cluster(nodes, nb) {
            Some(j) => {
                proof {
                    assert(!pre.contains(j as u32));
                }
                list.push(j as u32);
                proof {
                    assert(nodes@.index_of(nb) == j as int) by {
                        let k = nodes@.index_of(nb);
                        assert(nodes@.contains(nb));
                        assert(nodes@[k] == nb);
                        if k != j as int {
                            assert(nodes@[k] != nodes@[j as int]);
                        }
                    }
                    assert(numbered(nodes@, nbrs@.take(t + 1)) =~= numbered(nodes@, nbrs@.take(t as int)).push(j as u32));
                    assert forall|k: u32| #![trigger list@.contains(k)] list@.contains(k) <==> (k < nodes@.len()
                        && nbrs@.take(t + 1).contains(nodes@[k as int])) by {
                        let s0 = nbrs@.take(t as int);
                        let s1 = nbrs@.take(t + 1);
                        if list@.contains(k) {
                            if k == j as u32 {
                                assert(s1[t as int] == nodes@[k as int]);
                            } else {
                                let e = list@.index_of(k);
                                assert(pre[e] == k);
                                assert(pre.contains(k));
                                let f = s0.index_of(nodes@[k as int]);
                                assert(s1[f] == nodes@[k as int]);
                            }
                        }
                        if k < nodes@.len() && s1.contains(nodes@[k as int]) {
                            let e = s1.index_of(nodes@[k as int]);
                            if e < t {
                                assert(s0[e] == nodes@[k as int]);
                                assert(pre.contains(k));
                                let f = pre.index_of(k);
                                assert(list@[f] == k);
                            } else {
                                if k != j as u32 {
                                    assert(nodes@[k as int] != nodes@[j as int]);
                                }
                                assert(list@[list@.len() - 1] == k);
                            }
                        }
                    }
                }
            },
            None => {
                proof {
                    // every neighbour is a node, so it has a place
                    assert(nbrs@.contains(nb));
                }
            },
        }
        t = t + 1;
    }
    proof {
        assert(nbrs@.take(t as int) =~= nbrs@);
        assert(list@ == numbered(nodes@, nbrs@));
        assert forall|j: u32|
            #![trigger list@.contains(j)]
            list@.contains(j) <==> (j < nodes@.len() && linked(*graph, nodes@[i as int], nodes@[j as int])) by {
            if j < nodes@.len() {
                assert(nbrs@.contains(nodes@[j as int]) <==> linked(*graph, id, nodes@[j as int]));
            }
        }
    }
    list
}

/// The cluster graph as numbered neighbour lists: node `i` of the node list
/// becomes key `i`, with the numbers of its neighbours.
pub fn graph_to_adj(graph: &ClusterGraph) -> (adj: HashMap<u32, Vec<u32>>)
    requires
        graph.wf(),
        graph.node_seq().len() <= u32::MAX,
    ensures
        is_adjacency_of(*graph, adj@),
{
    let n = graph.node_count();
    let mut adj: HashMap<u32, Vec<u32>> = HashMap::new();
    let mut i: usize = 0;
    while i < n
        invariant
            graph.wf(),
            n == graph.node_seq().len(),
            n <= u32::MAX,
            i <= n,
            forall|k: u32| #[trigger] adj@.dom().contains(k) <==> k < i,
            forall|k: u32| #[trigger] adj@.dom().contains(k) ==> adj@[k]@.no_duplicates(),
            forall|k: u32| #[trigger] adj@.dom().contains(k) ==> adj@[k]@ == numbered(
                graph.node_seq(),
                neighbor_seq(graph.edge_seq(), graph.node_seq()[k as int]),
            ),
            forall|k: u32, j: u32|
                #![trigger adj@[k]@.contains(j)]
                adj@.dom().contains(k) ==> (adj@[k]@.contains(j) <==> (j < n && linked(
                    *graph,
                    graph.node_seq()[k as int],
                    graph.node_seq()[j as int],
                ))),
        decreases n - i,
    {
        let list = neighbor_indices(graph, i);
        adj.insert(i as u32, list);
        i = i + 1;
    }
    adj
}

} // verus!
