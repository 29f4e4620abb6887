use vstd::prelude::*;
use std::collections::{HashMap, HashSet};
use vstd::std_specs::hash::spec_keys_iter;
use vstd::std_specs::iter::IteratorSpec;

verus! {

broadcast use vstd::std_specs::hash::group_hash_axioms;

/// An articulation point of the graph and how many more pieces removing
/// it would leave.
#[derive(Clone, Copy, Debug)]
pub struct ArticulationPoint {
    pub node: u32,
    pub disconnect_count: u32,
}

/// A finite set of `u32` has at most 2³² elements.
proof fn lemma_u32_set_len(s: Set<u32>)
    requires
        s.finite(),
    ensures
        s.len() <= 0x1_0000_0000,
{
    let f = |x: u32| x as int;
    assert(vstd::relations::injective_on(f, s));
    vstd::set_lib::lemma_map_size(s, s.map(f), f);
    vstd::set_lib::lemma_int_range(0, 0x1_0000_0000);
    assert(s.map(f).subset_of(vstd::set_lib::set_int_range(0, 0x1_0000_0000)));
    vstd::set_lib::lemma_len_subset(s.map(f), vstd::set_lib::set_int_range(0, 0x1_0000_0000));
}

/// The keys of `adj`, each once.
fn keys_of(adj: &HashMap<u32, Vec<u32>>) -> (ks: Vec<u32>)
    ensures
        ks@.no_duplicates(),
        ks@.to_set() == adj@.dom(),
{
    let ghost all = spec_keys_iter(adj).remaining();
    let mut out: Vec<u32> = Vec::new();
    for k in it: adj.keys()
        invariant
            all == spec_keys_iter(adj).remaining(),
            it.seq() == all,
            out@.len() == it.index(),
            forall|j: int| 0 <= j < it.index() ==> out@[j] == *all[j],
    {
        out.push(*k);
    }
    proof {
        assert(out@ =~= all.unref());
    }
    out
}

/// `adj` lists `b` among the neighbours of `a`.
pub open spec fn has_edge(adj: Map<u32, Vec<u32>>, a: u32, b: u32) -> bool {
    adj.contains_key(a) && adj[a]@.contains(b)
}

/// `p` follows neighbour lists and never enters `avoid`.
pub open spec fn is_path(adj: Map<u32, Vec<u32>>, p: Seq<u32>, avoid: Set<u32>) -> bool {
    &&& p.len() >= 1
    &&& forall|i: int| 0 <= i < p.len() ==> !avoid.contains(#[trigger] p[i])
    &&& forall|i: int| 0 <= i < p.len() - 1 ==> has_edge(adj, #[trigger] p[i], p[i + 1])
}

/// `b` can be reached from `a` along neighbour lists without entering `avoid`.
pub open spec fn reaches(adj: Map<u32, Vec<u32>>, avoid: Set<u32>, a: u32, b: u32) -> bool {
    exists|p: Seq<u32>| #[trigger] is_path(adj, p, avoid) && p[0] == a && p[p.len() - 1] == b
}

/// What the searches started from `ks[0 .. i]` have reached, beginning with
/// `init` already marked: a search from a key not yet reached adds all that
/// key reaches without entering what was reached before.
pub open spec fn searched_from(adj: Map<u32, Vec<u32>>, init: Set<u32>, ks: Seq<u32>, i: int) -> Set<u32>
    decreases i,
{
    if i <= 0 {
        init
    } else {
        let v = searched_from(adj, init, ks, i - 1);
        let s = ks[i - 1];
        if v.contains(s) {
            v
        } else {
            v.union(Set::new(|x: u32| reaches(adj, v, s, x)))
        }
    }
}

/// How many of the keys `ks[0 .. i]` start a new search, beginning with
/// `init` already marked.
pub open spec fn starts_from(adj: Map<u32, Vec<u32>>, init: Set<u32>, ks: Seq<u32>, i: int) -> nat
    decreases i,
{
    if i <= 0 {
        0
    } else {
        starts_from(adj, init, ks, i - 1) + (if searched_from(adj, init, ks, i - 1).contains(ks[i - 1]) { 0nat } else { 1nat })
    }
}

/// The nodes marked before any search: `blocked`, where there is one.
pub open spec fn blocked_set(blocked: Option<u32>) -> Set<u32> {
    match blocked {
        Some(b) => set![b],
        None => Set::empty(),
    }
}

/// `ks` lists every key of `adj` once.
pub open spec fn key_order(adj: Map<u32, Vec<u32>>, ks: Seq<u32>) -> bool {
    ks.no_duplicates() && ks.to_set() == adj.dom()
}

/// The number of pieces of the graph: the searches needed to reach every key.
pub open spec fn component_count(adj: Map<u32, Vec<u32>>, ks: Seq<u32>) -> nat {
    starts_from(adj, Set::empty(), ks, ks.len() as int)
}

/// The number of pieces left once `node` is removed.
pub open spec fn count_without(adj: Map<u32, Vec<u32>>, node: u32, ks: Seq<u32>) -> nat {
    starts_from(adj, set![node], ks, ks.len() as int)
}

/// How many more pieces the graph falls into when `node` is removed
/// (0 where it falls into no more).
pub open spec fn disconnect_count_spec(adj: Map<u32, Vec<u32>>, node: u32, ks: Seq<u32>) -> int {
    if count_without(adj, node, ks) > component_count(adj, ks) {
        count_without(adj, node, ks) - component_count(adj, ks)
    } else {
        0
    }
}

/// `r` reports each key of `adj` whose removal leaves more pieces, once,
/// with how many more, and nothing else.
pub open spec fn reports_exactly(adj: Map<u32, Vec<u32>>, ks: Seq<u32>, r: Seq<ArticulationPoint>) -> bool {
    &&& forall|i: int, j: int| 0 <= i < j < r.len() ==> (#[trigger] r[i]).node != (#[trigger] r[j]).node
    &&& forall|i: int| 0 <= i < r.len() ==> adj.contains_key(#[trigger] r[i].node)
        && r[i].disconnect_count == disconnect_count_spec(adj, r[i].node, ks)
        && r[i].disconnect_count > 0
    &&& forall|u: u32| adj.contains_key(u) && #[trigger] disconnect_count_spec(adj, u, ks) > 0
        ==> exists|i: int| 0 <= i < r.len() && r[i].node == u
}

proof fn lemma_path_extend(adj: Map<u32, Vec<u32>>, avoid: Set<u32>, a: u32, x: u32, y: u32)
    requires
        reaches(adj, avoid, a, x),
        has_edge(adj, x, y),
        !avoid.contains(y),
    ensures
        reaches(adj, avoid, a, y),
{
    let p = choose|p: Seq<u32>| #[trigger] is_path(adj, p, avoid) && p[0] == a && p[p.len() - 1] == x;
    let q = p.push(y);
    assert forall|i: int| 0 <= i < q.len() - 1 implies has_edge(adj, #[trigger] q[i], q[i + 1]) by {
        if i < p.len() - 1 {
            assert(has_edge(adj, p[i], p[i + 1]));
        }
    }
    assert forall|i: int| 0 <= i < q.len() implies !avoid.contains(#[trigger] q[i]) by {
        if i < p.len() {
            assert(!avoid.contains(p[i]));
        }
    }
    assert(is_path(adj, q, avoid));
}

/// A set that holds `a` and is closed under steps outside `avoid` holds all
/// that `a` reaches.
proof fn lemma_closed_holds_reach(adj: Map<u32, Vec<u32>>, avoid: Set<u32>, vis: Set<u32>, a: u32, p: Seq<u32>, i: int)
    requires
        is_path(adj, p, avoid),
        p[0] == a,
        vis.contains(a),
        forall|x: u32, y: u32| #[trigger] vis.contains(x) && !avoid.contains(x) && #[trigger] has_edge(adj, x, y) ==> vis.contains(y),
        0 <= i < p.len(),
    ensures
        vis.contains(p[i]),
    decreases i,
{
    if i > 0 {
        lemma_closed_holds_reach(adj, avoid, vis, a, p, i - 1);
        assert(has_edge(adj, p[i - 1], p[(i - 1) + 1]));
        assert(!avoid.contains(p[i - 1]));
    }
}

/// Depth-first searches over the neighbour lists, `blocked` (where given)
/// marked beforehand and never entered: a search is started from every key
/// of `keys`, in order, that no earlier search has reached. Returns how many
/// were started.
fn count_searches(adj: &HashMap<u32, Vec<u32>>, keys: &Vec<u32>, blocked: Option<u32>) -> (n: u64)
    requires
        key_order(adj@, keys@),
    ensures
        n == starts_from(adj@, blocked_set(blocked), keys@, keys@.len() as int),
        n + blocked_set(blocked).intersect(adj@.dom()).len() <= adj@.dom().len(),
{
    let ghost ks = keys@;
    let ghost init = blocked_set(blocked);
    let mut visited: HashSet<u32> = HashSet::new();
    match blocked {
        Some(b) => {
            visited.insert(b);
        },
        None => {},
    }
    proof {
        assert(visited@ =~= init);
        assert(adj@.dom().finite());
    }
    let mut components: u64 = 0;
    let mut k: usize = 0;
    while k < keys.len()
        invariant
            ks == keys@,
            key_order(adj@, ks),
            adj@.dom().finite(),
            init == blocked_set(blocked),
            k <= ks.len(),
            visited@ == searched_from(adj@, init, ks, k as int),
            components == starts_from(adj@, init, ks, k as int),
            visited@.finite(),
            components as int + init.intersect(adj@.dom()).len() <= visited@.intersect(adj@.dom()).len(),
        decreases ks.len() - k,
    {
        let start = keys[k];
        let ghost v0 = visited@;
        if !visited.contains(&start) {
            proof {
                assert(ks.contains(start));
                vstd::set_lib::lemma_len_subset(v0.intersect(adj@.dom()).insert(start), adj@.dom());
                assert(v0.intersect(adj@.dom()).insert(start).len() == v0.intersect(adj@.dom()).len() + 1);
                lemma_u32_set_len(adj@.dom());
            }
            components = components + 1;
            let mut stack: Vec<u32> = Vec::new();
            stack.push(start);
            proof {
                assert(is_path(adj@, seq![start], v0));
                assert(reaches(adj@, v0, start, start));
                assert(stack@[0] == start);
            }
            while stack.len() > 0
                invariant
                    visited@.finite(),
                    v0.subset_of(visited@),
                    !v0.contains(start),
                    forall|x: u32| #[trigger] visited@.contains(x) ==> v0.contains(x) || reaches(adj@, v0, start, x),
                    forall|i: int| 0 <= i < stack@.len() ==> !v0.contains(#[trigger] stack@[i]) && reaches(adj@, v0, start, stack@[i]),
                    forall|x: u32, y: u32|
                        #[trigger] visited@.contains(x) && !v0.contains(x) && #[trigger] has_edge(adj@, x, y) ==> visited@.contains(y)
                            || stack@.contains(y),
                    visited@.contains(start) || stack@.contains(start),
                decreases 0x1_0000_0000 - visited@.len(), stack@.len(),
            {
                let ghost stack0 = stack@;
                let n = stack.pop().unwrap();
                proof {
                    lemma_u32_set_len(visited@.insert(n));
                    assert(stack0 =~= stack@.push(n));
                    assert forall|y: u32| stack0.contains(y) && y != n implies stack@.contains(y) by {
                        let i = choose|i: int| 0 <= i < stack0.len() && stack0[i] == y;
                        assert(stack@[i] == y);
                    }
                    assert(reaches(adj@, v0, start, n));
                    assert(!v0.contains(n));
                }
                let ghost vis0 = visited@;
                if !visited.insert(n) {
                    proof {
                        assert(visited@ =~= vis0);
                    }
                    continue;
                }
                let ghost stack1 = stack@;
                match adj.get(&n) {
                    Some(nbs) => {
                        let mut j: usize = 0;
                        while j < nbs.len()
                            invariant
                                j <= nbs@.len(),
                                adj@.contains_key(n),
                                nbs@ == adj@[n]@,
                                visited@.contains(n),
                                reaches(adj@, v0, start, n),
                                v0.subset_of(visited@),
                                stack@.len() >= stack1.len(),
                                forall|i: int| 0 <= i < stack1.len() ==> stack@[i] == stack1[i],
                                forall|i: int| 0 <= i < stack@.len() ==> !v0.contains(#[trigger] stack@[i]) && reaches(adj@, v0, start, stack@[i]),
                                forall|jj: int| 0 <= jj < j ==> visited@.contains(#[trigger] nbs@[jj]) || stack@.contains(nbs@[jj]),
                            decreases nbs@.len() - j,
                        {
                            let nb = nbs[j];
                            let ghost stack2 = stack@;
                            if !visited.contains(&nb) {
                                proof {
                                    assert(adj@[n]@.contains(nb)) by {
                                        assert(nbs@[j as int] == nb);
                                    }
                                    lemma_path_extend(adj@, v0, start, n, nb);
                                }
                                stack.push(nb);
                                proof {
                                    assert(stack@[stack@.len() - 1] == nb);
                                }
                            }
                            proof {
                                assert forall|jj: int| 0 <= jj < j + 1 implies visited@.contains(#[trigger] nbs@[jj]) || stack@.contains(nbs@[jj]) by {
                                    if jj < j && !visited@.contains(nbs@[jj]) {
                                        let i = choose|i: int| 0 <= i < stack2.len() && stack2[i] == nbs@[jj];
                                        assert(stack@[i] == nbs@[jj]);
                                    }
                                    if jj == j && !visited@.contains(nbs@[jj]) {
                                        assert(stack@[stack@.len() - 1] == nbs@[jj]);
                                    }
                                }
                            }
                            j = j + 1;
                        }
                        proof {
                            assert forall|y: u32| has_edge(adj@, n, y) implies visited@.contains(y) || stack@.contains(y) by {
                                let jj = choose|jj: int| 0 <= jj < nbs@.len() && nbs@[jj] == y;
                                assert(visited@.contains(nbs@[jj]) || stack@.contains(nbs@[jj]));
                            }
                        }
                    },
                    None => {},
                }
                proof {
                    assert forall|y: u32| stack1.contains(y) implies stack@.contains(y) by {
                        let i = choose|i: int| 0 <= i < stack1.len() && stack1[i] == y;
                        assert(stack@[i] == y);
                    }
                    assert forall|x: u32, y: u32|
                        #[trigger] visited@.contains(x) && !v0.contains(x) && #[trigger] has_edge(adj@, x, y) implies visited@.contains(y)
                            || stack@.contains(y) by {
                        if x != n {
                            assert(vis0.contains(x));
                            assert(vis0.contains(y) || stack0.contains(y));
                        }
                    }
                }
            }
            proof {
                let reach = Set::new(|x: u32| reaches(adj@, v0, start, x));
                assert forall|x: u32| reach.contains(x) implies visited@.contains(x) by {
                    let p = choose|p: Seq<u32>| #[trigger] is_path(adj@, p, v0) && p[0] == start && p[p.len() - 1] == x;
                    lemma_closed_holds_reach(adj@, v0, visited@, start, p, p.len() - 1);
                }
                assert(visited@ =~= v0.union(reach));
                vstd::set_lib::lemma_len_subset(v0.intersect(adj@.dom()).insert(start), visited@.intersect(adj@.dom()));
            }
        }
        proof {
            assert(visited@ == searched_from(adj@, init, ks, k + 1));
        }
        k = k + 1;
    }
    proof {
        vstd::set_lib::lemma_len_subset(visited@.intersect(adj@.dom()), adj@.dom());
    }
    components
}

/// The articulation points of an undirected graph given by neighbour lists:
/// every key whose removal leaves the graph in more pieces, each reported
/// once with how many more pieces there are. The pieces are counted by
/// depth-first searches started from every key not yet reached, once over
/// the whole graph and once with each key removed.
pub fn find_articulation_points(adj: &HashMap<u32, Vec<u32>>) -> (r: Vec<ArticulationPoint>)
    ensures
        exists|ks: Seq<u32>| #[trigger] key_order(adj@, ks) && reports_exactly(adj@, ks, r@),
{
    let keys = keys_of(adj);
    let ghost ks = keys@;
    let mut out: Vec<ArticulationPoint> = Vec::new();
    if keys.len() == 0 {
        proof {
            assert(key_order(adj@, ks));
            assert(adj@.dom() =~= ks.to_set());
            assert(ks.to_set() =~= Set::<u32>::empty());
            assert(reports_exactly(adj@, ks, out@));
        }
        return out;
    }
    let total = count_searches(adj, &keys, None);
    let mut k: usize = 0;
    while k < keys.len()
        invariant
            ks == keys@,
            key_order(adj@, ks),
            total == component_count(adj@, ks),
            k <= ks.len(),
            forall|i: int, j: int| 0 <= i < j < out@.len() ==> (#[trigger] out@[i]).node != (#[trigger] out@[j]).node,
            forall|i: int| 0 <= i < out@.len() ==> exists|a: int| 0 <= a < k && ks[a] == (#[trigger] out@[i]).node,
            forall|i: int| 0 <= i < out@.len() ==> adj@.contains_key(#[trigger] out@[i].node)
                && out@[i].disconnect_count == disconnect_count_spec(adj@, out@[i].node, ks)
                && out@[i].disconnect_count > 0,
            forall|a: int| 0 <= a < k && #[trigger] disconnect_count_spec(adj@, ks[a], ks) > 0
                ==> exists|i: int| 0 <= i < out@.len() && out@[i].node == ks[a],
        decreases ks.len() - k,
    {
        let u = keys[k];
        proof {
            assert(ks.to_set().contains(u)) by {
                assert(ks[k as int] == u);
            }
            lemma_u32_set_len(adj@.dom());
            assert(blocked_set(Some(u)).intersect(adj@.dom()) =~= set![u]);
        }
        let without = count_searches(adj, &keys, Some(u));
        let ghost out0 = out@;
        if without > total {
            let dc = (without - total) as u32;
            out.push(ArticulationPoint { node: u, disconnect_count: dc });
            proof {
                assert forall|i: int, j: int| 0 <= i < j < out@.len() implies (#[trigger] out@[i]).node != (#[trigger] out@[j]).node by {
                    if j == out0.len() {
                        let a = choose|a: int| 0 <= a < k && ks[a] == out0[i].node;
                        assert(ks[a] != ks[k as int]);
                    } else {
                        assert(out0[i].node != out0[j].node);
                    }
                }
                assert forall|i: int| 0 <= i < out@.len() implies exists|a: int| 0 <= a < k + 1 && ks[a] == (#[trigger] out@[i]).node by {
                    if i < out0.len() {
                        assert(out@[i] == out0[i]);
                        let a = choose|a: int| 0 <= a < k && ks[a] == out0[i].node;
                        assert(ks[a] == out@[i].node);
                    } else {
                        assert(ks[k as int] == out@[i].node);
                    }
                }
            }
        }
        proof {
            assert forall|i: int| 0 <= i < out@.len() implies adj@.contains_key(#[trigger] out@[i].node)
                && out@[i].disconnect_count == disconnect_count_spec(adj@, out@[i].node, ks)
                && out@[i].disconnect_count > 0 by {
                if i < out0.len() {
                    assert(out@[i] == out0[i]);
                }
            }
            assert forall|a: int| 0 <= a < k + 1 && #[trigger] disconnect_count_spec(adj@, ks[a], ks) > 0
                implies exists|i: int| 0 <= i < out@.len() && out@[i].node == ks[a] by {
                if a < k {
                    let i = choose|i: int| 0 <= i < out0.len() && out0[i].node == ks[a];
                    assert(out@[i] == out0[i]);
                } else {
                    assert(out@[out0.len() as int].node == ks[a]);
                }
            }
        }
        k = k + 1;
    }
    proof {
        assert forall|u: u32| adj@.contains_key(u) && #[trigger] disconnect_count_spec(adj@, u, ks) > 0
            implies exists|i: int| 0 <= i < out@.len() && out@[i].node == u by {
            assert(ks.to_set().contains(u));
            let a = ks.index_of(u);
            assert(ks[a] == u);
        }
        assert(reports_exactly(adj@, ks, out@));
        assert(key_order(adj@, ks));
    }
    out
}

} // verus!
