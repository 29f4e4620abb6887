use vstd::prelude::*;
use std::collections::HashMap;
use vstd::std_specs::hash::spec_keys_iter;
use vstd::std_specs::iter::IteratorSpec;

verus! {

broadcast use vstd::std_specs::hash::group_hash_axioms;

/// Number of neighbours listed for `n`.
pub open spec fn degree(adj: Map<u32, Vec<u32>>, n: u32) -> int {
    adj[n]@.len() as int
}

/// `order` lists every node of `adj` once, by non-increasing degree.
pub open spec fn is_degree_order(adj: Map<u32, Vec<u32>>, order: Seq<u32>) -> bool {
    &&& order.no_duplicates()
    &&& forall|x: u32| #[trigger] order.contains(x) <==> adj.dom().contains(x)
    &&& forall|a: int, b: int| 0 <= a < b < order.len() ==> degree(adj, #[trigger] order[a]) >= degree(adj, #[trigger] order[b])
}

proof fn lemma_insert_contains<A>(s: Seq<A>, p: int, e: A)
    requires
        0 <= p <= s.len(),
    ensures
        forall|x: A| #[trigger] s.insert(p, e).contains(x) <==> (s.contains(x) || x == e),
        s.no_duplicates() && !s.contains(e) ==> s.insert(p, e).no_duplicates(),
{
    s.insert_ensures(p, e);
    let t = s.insert(p, e);
    assert forall|x: A| #[trigger] t.contains(x) <==> (s.contains(x) || x == e) by {
        if t.contains(x) {
            let k = choose|k: int| 0 <= k < t.len() && t[k] == x;
            if k < p {
                assert(s[k] == x);
            } else if k > p {
                assert(s[k - 1] == x);
            }
        }
        if s.contains(x) {
            let k = choose|k: int| 0 <= k < s.len() && s[k] == x;
            if k < p {
                assert(t[k] == x);
            } else {
                assert(t[k + 1] == x);
            }
        }
        if x == e {
            assert(t[p] == x);
        }
    }
    if s.no_duplicates() && !s.contains(e) {
        assert forall|a: int, b: int| 0 <= a < t.len() && 0 <= b < t.len() && a != b implies t[a] != t[b] by {
            let sa = if a < p { a } else { a - 1 };
            let sb = if b < p { b } else { b - 1 };
            if a == p {
                assert(s[sb] == t[b]);
            } else if b == p {
                assert(s[sa] == t[a]);
            } else {
                assert(s[sa] == t[a] && s[sb] == t[b]);
            }
        }
    }
}

/// The nodes of `adj` by non-increasing degree; nodes of equal degree keep
/// the order in which the map yields them.
fn degree_order(adj: &HashMap<u32, Vec<u32>>) -> (order: Vec<u32>)
    ensures
        is_degree_order(adj@, order@),
{
    let ghost all = spec_keys_iter(adj).remaining();
    let mut keys: Vec<u32> = Vec::new();
    for k in it: adj.keys()
        invariant
            all == spec_keys_iter(adj).remaining(),
            it.seq() == all,
            keys@.len() == it.index(),
            forall|j: int| 0 <= j < it.index() ==> keys@[j] == *all[j],
    {
        keys.push(*k);
    }
    proof {
        assert(keys@.len() == all.len());
        assert(keys@ =~= all.unref());
        assert(keys@.to_set() =~= adj@.dom());
        assert(keys@.no_duplicates());
    }
    let mut order: Vec<u32> = Vec::new();
    let mut degs: Vec<usize> = Vec::new();
    let mut i: usize = 0;
    while i < keys.len()
        invariant
            i <= keys@.len(),
            keys@.no_duplicates(),
            forall|x: u32| keys@.contains(x) <==> adj@.dom().contains(x),
            order@.len() == i,
            degs@.len() == i,
            order@.no_duplicates(),
            forall|x: u32| #[trigger] order@.contains(x) <==> keys@.take(i as int).contains(x),
            forall|t: int| 0 <= t < i ==> degs@[t] == degree(adj@, #[trigger] order@[t]),
            forall|a: int, b: int| 0 <= a < b < i ==> #[trigger] degs@[a] >= #[trigger] degs@[b],
        decreases keys@.len() - i,
    {
        let k = keys[i];
        let d: usize = match adj.get(&k) {
            Some(v) => v.len(),
            None => 0,
        };
        proof {
            assert(keys@.contains(k));
            assert(d == degree(adj@, k));
        }
        let mut p: usize = 0;
        while p < order.len() && degs[p] >= d
            invariant
                p <= order@.len(),
                degs@.len() == order@.len(),
                forall|t: int| 0 <= t < p ==> degs@[t] >= d,
            decreases order@.len() - p,
        {
            p = p + 1;
        }
        let ghost old_order = order@;
        let ghost old_degs = degs@;
        proof {
            assert(!old_order.contains(k)) by {
                if old_order.contains(k) {
                    let pre0 = keys@.take(i as int);
                    let j = choose|j: int| 0 <= j < pre0.len() && pre0[j] == k;
                    assert(keys@[j] == keys@[i as int]);
                }
            }
            lemma_insert_contains(old_order, p as int, k);
            old_order.insert_ensures(p as int, k);
            old_degs.insert_ensures(p as int, d);
        }
        order.insert(p, k);
        degs.insert(p, d);
        proof {
            let pre0 = keys@.take(i as int);
            let pre1 = keys@.take(i + 1);
            assert forall|x: u32| #[trigger] order@.contains(x) <==> pre1.contains(x) by {
                if pre1.contains(x) {
                    let j = choose|j: int| 0 <= j < pre1.len() && pre1[j] == x;
                    if j < i {
                        assert(pre0[j] == x);
                    }
                }
                if pre0.contains(x) {
                    let j = choose|j: int| 0 <= j < pre0.len() && pre0[j] == x;
                    assert(pre1[j] == x);
                }
                if x == k {
                    assert(pre1[i as int] == x);
                }
            }
            assert forall|t: int| 0 <= t < i + 1 implies degs@[t] == degree(adj@, #[trigger] order@[t]) by {
                if t > p {
                    assert(order@[t] == old_order[t - 1]);
                    assert(degs@[t] == old_degs[t - 1]);
                }
            }
            assert forall|a: int, b: int| 0 <= a < b < i + 1 implies #[trigger] degs@[a] >= #[trigger] degs@[b] by {
                if a < p && b < p {
                } else if a < p && b == p {
                } else if a < p {
                    assert(degs@[b] == old_degs[b - 1]);
                } else if a == p {
                    assert(degs@[b] == old_degs[b - 1]);
                    if p < old_degs.len() {
                        assert(old_degs[p as int] < d);
                        assert(old_degs[p as int] >= old_degs[b - 1]);
                    }
                } else {
                    assert(degs@[a] == old_degs[a - 1]);
                    assert(degs@[b] == old_degs[b - 1]);
                }
            }
        }
        i = i + 1;
    }
    proof {
        assert(keys@.take(i as int) =~= keys@);
        assert forall|a: int, b: int| 0 <= a < b < order@.len() implies degree(adj@, #[trigger] order@[a]) >= degree(adj@, #[trigger] order@[b]) by {
            assert(degs@[a] >= degs@[b]);
        }
    }
    order
}

/// The colour of `order[i]` is the least colour that none of its neighbours
/// coloured earlier in `order` has.
pub open spec fn greedy_at(adj: Map<u32, Vec<u32>>, order: Seq<u32>, colors: Map<u32, u32>, i: int) -> bool {
    let n = order[i];
    &&& forall|j: int|
        0 <= j < i && adj[n]@.contains(#[trigger] order[j]) ==> colors[order[j]] != colors[n]
    &&& forall|c: u32| c < colors[n] ==> #[trigger] taken_before(adj, order, colors, i, c)
}

/// Some neighbour of `order[i]` coloured before it has colour `c`.
pub open spec fn taken_before(adj: Map<u32, Vec<u32>>, order: Seq<u32>, colors: Map<u32, u32>, i: int, c: u32) -> bool {
    exists|j: int| 0 <= j < i && adj[order[i]]@.contains(#[trigger] order[j]) && colors[order[j]] == c
}

/// `colors` is the greedy colouring of `adj` along `order`: each node, in
/// order of non-increasing degree, takes the smallest colour not taken by a
/// neighbour coloured before it.
pub open spec fn is_greedy_coloring(adj: Map<u32, Vec<u32>>, order: Seq<u32>, colors: Map<u32, u32>) -> bool {
    &&& is_degree_order(adj, order)
    &&& colors.dom() == adj.dom()
    &&& forall|i: int| 0 <= i < order.len() ==> #[trigger] greedy_at(adj, order, colors, i)
}

/// `n` is one more than the largest colour in `colors`, or 0 when there is none.
pub open spec fn is_color_count(colors: Map<u32, u32>, n: u32) -> bool {
    &&& forall|k: u32| colors.dom().contains(k) ==> #[trigger] colors[k] < n
    &&& (n == 0 || exists|k: u32| colors.dom().contains(k) && #[trigger] colors[k] + 1 == n)
}

/// Result of greedy graph colouring.
pub struct ColoringResult {
    colors: HashMap<u32, u32>,
    num_colors: u32,
    order: Ghost<Seq<u32>>,
}

impl ColoringResult {
    pub closed spec fn spec_colors(&self) -> Map<u32, u32> {
        self.colors@
    }

    pub closed spec fn spec_num_colors(&self) -> u32 {
        self.num_colors
    }

    /// The order in which the nodes were coloured.
    pub closed spec fn spec_order(&self) -> Seq<u32> {
        self.order@
    }

    pub fn num_colors(&self) -> (r: u32)
        ensures
            r == self.spec_num_colors(),
    {
        self.num_colors
    }

    pub fn assignments(&self) -> (r: &HashMap<u32, u32>)
        ensures
            r@ == self.spec_colors(),
    {
        &self.colors
    }

    /// The colour of `node`, or `None` for a node that is not in the graph.
    pub fn color_of(&self, node: u32) -> (r: Option<u32>)
        ensures
            r == (if self.spec_colors().dom().contains(node) {
                Some(self.spec_colors()[node])
            } else {
                None
            }),
    {
        match self.colors.get(&node) {
            Some(c) => Some(*c),
            None => None,
        }
    }
}

fn contains_color(v: &Vec<u32>, x: u32) -> (r: bool)
    ensures
        r == v@.contains(x),
{
    let mut i: usize = 0;
    while i < v.len()
        invariant
            i <= v@.len(),
            forall|j: int| 0 <= j < i ==> v@[j] != x,
        decreases v@.len() - i,
    {
        if v[i] == x {
            return true;
        }
        i = i + 1;
    }
    false
}

/// Greedy graph colouring: nodes are taken by non-increasing degree, and
/// each gets the smallest colour that no already-coloured neighbour has, so
/// no two adjacent nodes share a colour (see `lemma_adjacent_colors_differ`).
/// Nodes of equal degree are taken in the order the map yields them.
pub fn greedy_color(adj: &HashMap<u32, Vec<u32>>) -> (r: ColoringResult)
    requires
        adj@.dom().len() <= u32::MAX,
    ensures
        is_greedy_coloring(adj@, r.spec_order(), r.spec_colors()),
        is_color_count(r.spec_colors(), r.spec_num_colors()),
{
    let order = degree_order(adj);
    proof {
        order@.unique_seq_to_set();
        assert(order@.to_set() =~= adj@.dom());
    }
    let mut colors: HashMap<u32, u32> = HashMap::new();
    let mut max_color: u32 = 0;
    let mut i: usize = 0;
    while i < order.len()
        invariant
            is_degree_order(adj@, order@),
            order@.len() <= u32::MAX,
            i <= order@.len(),
            forall|x: u32| #[trigger] colors@.dom().contains(x) <==> order@.take(i as int).contains(x),
            forall|j: int| 0 <= j < i ==> #[trigger] greedy_at(adj@, order@, colors@, j),
            max_color <= i,
            is_color_count(colors@, max_color),
        decreases order@.len() - i,
    {
        let n = order[i];
        let ghost pre = order@.take(i as int);
        proof {
            assert(order@.contains(n));
            assert(!pre.contains(n)) by {
                if pre.contains(n) {
                    let j = choose|j: int| 0 <= j < pre.len() && pre[j] == n;
                    assert(order@[j] == order@[i as int]);
                }
            }
        }
        let nbrs = adj.get(&n).unwrap();
        let mut used: Vec<u32> = Vec::new();
        let ghost mut src: Seq<int> = Seq::empty();
        let mut q: usize = 0;
        while q < nbrs.len()
            invariant
                q <= nbrs@.len(),
                src.len() == used@.len(),
                is_color_count(colors@, max_color),
                forall|t: int| 0 <= t < used@.len() ==> {
                    &&& 0 <= #[trigger] src[t] < q
                    &&& colors@.dom().contains(nbrs@[src[t]])
                    &&& colors@[nbrs@[src[t]]] == used@[t]
                },
                forall|qq: int| 0 <= qq < q && colors@.dom().contains(#[trigger] nbrs@[qq]) ==> used@.contains(colors@[nbrs@[qq]]),
            decreases nbrs@.len() - q,
        {
            let x = nbrs[q];
            match colors.get(&x) {
                Some(cx) => {
                    let ghost used_before = used@;
                    used.push(*cx);
                    proof {
                        src = src.push(q as int);
                        assert(used@[used@.len() - 1] == colors@[x]);
                        assert forall|qq: int| 0 <= qq < q + 1 && colors@.dom().contains(#[trigger] nbrs@[qq]) implies used@.contains(colors@[nbrs@[qq]]) by {
                            if qq < q {
                                let t = choose|t: int| 0 <= t < used_before.len() && used_before[t] == colors@[nbrs@[qq]];
                                assert(used@[t] == colors@[nbrs@[qq]]);
                            } else {
                                assert(used@[used@.len() - 1] == colors@[nbrs@[qq]]);
                            }
                        }
                    }
                },
                None => {},
            }
            q = q + 1;
        }
        proof {
            assert forall|t: int| 0 <= t < used@.len() implies #[trigger] used@[t] < max_color by {
                assert(colors@.dom().contains(nbrs@[src[t]]));
                assert(colors@[nbrs@[src[t]]] < max_color);
            }
        }
        let mut c: u32 = 0;
        while contains_color(&used, c)
            invariant
                c <= max_color,
                forall|c2: u32| c2 < c ==> used@.contains(c2),
                forall|t: int| 0 <= t < used@.len() ==> #[trigger] used@[t] < max_color,
            decreases max_color - c,
        {
            proof {
                let t = choose|t: int| 0 <= t < used@.len() && used@[t] == c;
                assert(used@[t] < max_color);
            }
            c = c + 1;
        }
        let ghost old_colors = colors@;
        colors.insert(n, c);
        proof {
            let pre1 = order@.take(i + 1);
            assert forall|x: u32| #[trigger] colors@.dom().contains(x) <==> pre1.contains(x) by {
                if pre1.contains(x) {
                    let j = choose|j: int| 0 <= j < pre1.len() && pre1[j] == x;
                    if j < i {
                        assert(pre[j] == x);
                    }
                }
                if pre.contains(x) {
                    let j = choose|j: int| 0 <= j < pre.len() && pre[j] == x;
                    assert(pre1[j] == x);
                }
                if x == n {
                    assert(pre1[i as int] == x);
                }
            }
            assert forall|j: int| 0 <= j < i implies #[trigger] order@.take(i as int).contains(order@[j]) by {
                assert(pre[j] == order@[j]);
            }
            assert forall|j: int| 0 <= j < i + 1 implies #[trigger] greedy_at(adj@, order@, colors@, j) by {
                let nj = order@[j];
                if j < i {
                    assert(greedy_at(adj@, order@, old_colors, j));
                    assert(old_colors.dom().contains(nj));
                    assert forall|j2: int| 0 <= j2 < j && adj@[nj]@.contains(#[trigger] order@[j2]) implies colors@[order@[j2]] != colors@[nj] by {
                        assert(old_colors.dom().contains(order@[j2]));
                    }
                    assert forall|c2: u32| c2 < colors@[nj] implies #[trigger] taken_before(adj@, order@, colors@, j, c2) by {
                        assert(c2 < old_colors[nj]);
                        assert(taken_before(adj@, order@, old_colors, j, c2));
                        let j2 = choose|j2: int| 0 <= j2 < j && adj@[nj]@.contains(#[trigger] order@[j2]) && old_colors[order@[j2]] == c2;
                        assert(old_colors.dom().contains(order@[j2]));
                        assert(colors@[order@[j2]] == c2);
                    }
                } else {
                    assert(nj == n);
                    assert(colors@[n] == c);
                    assert forall|j2: int| 0 <= j2 < j && adj@[nj]@.contains(#[trigger] order@[j2]) implies colors@[order@[j2]] != colors@[nj] by {
                        let y = order@[j2];
                        assert(old_colors.dom().contains(y));
                        let qq = choose|qq: int| 0 <= qq < nbrs@.len() && nbrs@[qq] == y;
                        assert(used@.contains(old_colors[nbrs@[qq]]));
                        assert(colors@[y] == old_colors[y]);
                    }
                    assert forall|c2: u32| c2 < colors@[nj] implies #[trigger] taken_before(adj@, order@, colors@, j, c2) by {
                        assert(used@.contains(c2));
                        let t = choose|t: int| 0 <= t < used@.len() && used@[t] == c2;
                        let y = nbrs@[src[t]];
                        assert(old_colors.dom().contains(y));
                        assert(pre.contains(y));
                        let j2 = choose|j2: int| 0 <= j2 < pre.len() && pre[j2] == y;
                        assert(order@[j2] == y);
                        assert(adj@[nj]@.contains(y)) by {
                            assert(nbrs@[src[t]] == y);
                        }
                        assert(colors@[order@[j2]] == c2);
                    }
                }
            }
        }
        if c + 1 > max_color {
            max_color = c + 1;
        }
        proof {
            assert forall|k: u32| colors@.dom().contains(k) implies #[trigger] colors@[k] < max_color by {
                if k != n {
                    assert(old_colors.dom().contains(k));
                }
            }
            if max_color != 0 {
                if max_color == c + 1 {
                    assert(colors@.dom().contains(n) && colors@[n] + 1 == max_color);
                } else {
                    let k = choose|k: u32| old_colors.dom().contains(k) && #[trigger] old_colors[k] + 1 == max_color;
                    assert(colors@.dom().contains(k) && colors@[k] + 1 == max_color);
                }
            }
        }
        i = i + 1;
    }
    proof {
        assert(order@.take(i as int) =~= order@);
        assert(colors@.dom() =~= adj@.dom());
    }
    ColoringResult { colors, num_colors: max_color, order: Ghost(order@) }
}

/// Two nodes that list each other as neighbours never share a colour in a
/// greedy colouring.
pub proof fn lemma_adjacent_colors_differ(adj: Map<u32, Vec<u32>>, order: Seq<u32>, colors: Map<u32, u32>, u: u32, v: u32)
    requires
        is_greedy_coloring(adj, order, colors),
        adj.dom().contains(u),
        adj.dom().contains(v),
        u != v,
        adj[u]@.contains(v),
        adj[v]@.contains(u),
    ensures
        colors[u] != colors[v],
{
    assert(order.contains(u));
    assert(order.contains(v));
    let pu = choose|k: int| 0 <= k < order.len() && order[k] == u;
    let pv = choose|k: int| 0 <= k < order.len() && order[k] == v;
    if pu < pv {
        assert(greedy_at(adj, order, colors, pv));
    } else {
        assert(greedy_at(adj, order, colors, pu));
    }
}

} // verus!
