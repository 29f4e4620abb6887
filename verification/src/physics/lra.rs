use vstd::prelude::*;
use vstd::arithmetic::div_mod::{lemma_fundamental_div_mod, lemma_fundamental_div_mod_converse};

verus! {

/// Column of vertex `i` in a grid `w` vertices wide.
pub open spec fn gx(i: int, w: int) -> int {
    i % w
}

/// Row of vertex `i` in a grid `w` vertices wide.
pub open spec fn gy(i: int, w: int) -> int {
    i / w
}

pub open spec fn absd(a: int, b: int) -> int {
    if a >= b {
        a - b
    } else {
        b - a
    }
}

/// Number of row and column steps between vertices `a` and `b`.
pub open spec fn grid_dist(a: int, b: int, w: int) -> int {
    absd(gx(a, w), gx(b, w)) + absd(gy(a, w), gy(b, w))
}

/// Some vertex is pinned.
pub open spec fn any_pinned(pinned: Seq<bool>) -> bool {
    exists|p: int| 0 <= p < pinned.len() && #[trigger] pinned[p]
}

/// `p` is a pinned vertex nearest to `i`, `d` steps away.
pub open spec fn nearest_pin_at(pinned: Seq<bool>, w: int, i: int, p: int, d: int) -> bool {
    &&& 0 <= p < pinned.len()
    &&& pinned[p]
    &&& grid_dist(i, p, w) == d
    &&& forall|q: int| 0 <= q < pinned.len() && #[trigger] pinned[q] ==> d <= grid_dist(i, q, w)
}

proof fn lemma_coords(i: int, w: int, h: int)
    requires
        w > 0,
        0 <= i < w * h,
    ensures
        i == gy(i, w) * w + gx(i, w),
        0 <= gx(i, w) < w,
        0 <= gy(i, w) < h,
{
    lemma_fundamental_div_mod(i, w);
    let q = i / w;
    let r = i % w;
    assert(w * q == q * w) by (nonlinear_arith);
    assert(0 <= r < w);
    assert(0 <= q < h) by (nonlinear_arith)
        requires
            i == q * w + r,
            0 <= r < w,
            0 <= i < w * h,
            w > 0,
    ;
}

proof fn lemma_from_coords(x: int, y: int, w: int, h: int)
    requires
        w > 0,
        0 <= x < w,
        0 <= y < h,
    ensures
        gx(y * w + x, w) == x,
        gy(y * w + x, w) == y,
        0 <= y * w + x < w * h,
{
    lemma_fundamental_div_mod_converse(y * w + x, w, y, x);
    assert(0 <= y * w + x < w * h) by (nonlinear_arith)
        requires
            w > 0,
            0 <= x < w,
            0 <= y < h,
    ;
}

/// A vertex one step from `cur` is one of its four neighbours by index.
proof fn lemma_adjacent_cases(cur: int, b: int, w: int, h: int)
    requires
        w > 0,
        0 <= cur < w * h,
        0 <= b < w * h,
        grid_dist(cur, b, w) == 1,
    ensures
        (gx(cur, w) > 0 && b == cur - 1) || (gx(cur, w) + 1 < w && b == cur + 1) || (gy(cur, w) > 0 && b == cur
            - w) || (gy(cur, w) + 1 < h && b == cur + w),
{
    lemma_coords(cur, w, h);
    lemma_coords(b, w, h);
    let cy = gy(cur, w);
    assert((cy - 1) * w == cy * w - w) by (nonlinear_arith);
    assert((cy + 1) * w == cy * w + w) by (nonlinear_arith);
}

/// The step from `cur` to `cur - 1`, `cur + 1`, `cur - w` or `cur + w`.
proof fn lemma_neighbor(cur: int, w: int, h: int, dir: int) -> (nb: int)
    requires
        w > 0,
        0 <= cur < w * h,
        dir == 0 ==> gx(cur, w) > 0,
        dir == 1 ==> gx(cur, w) + 1 < w,
        dir == 2 ==> gy(cur, w) > 0,
        dir == 3 ==> gy(cur, w) + 1 < h,
        0 <= dir < 4,
    ensures
        nb == (if dir == 0 {
            cur - 1
        } else if dir == 1 {
            cur + 1
        } else if dir == 2 {
            cur - w
        } else {
            cur + w
        }),
        0 <= nb < w * h,
        grid_dist(cur, nb, w) == 1,
{
    lemma_coords(cur, w, h);
    let cx = gx(cur, w);
    let cy = gy(cur, w);
    if dir == 0 {
        lemma_from_coords(cx - 1, cy, w, h);
        cur - 1
    } else if dir == 1 {
        lemma_from_coords(cx + 1, cy, w, h);
        cur + 1
    } else if dir == 2 {
        assert((cy - 1) * w == cy * w - w) by (nonlinear_arith);
        lemma_from_coords(cx, cy - 1, w, h);
        cur - w
    } else {
        assert((cy + 1) * w == cy * w + w) by (nonlinear_arith);
        lemma_from_coords(cx, cy + 1, w, h);
        cur + w
    }
}

/// The search state: `dist` and `nearest` give, for each vertex reached, a
/// step count and the pinned vertex it was reached from; `queue` holds the
/// vertices reached, in order of non-decreasing step count, each once; the
/// first `head` of them have been expanded.
#[verifier::opaque]
spec fn bfs_state(
    pinned: Seq<bool>,
    w: int,
    h: int,
    dist: Seq<usize>,
    nearest: Seq<usize>,
    queue: Seq<usize>,
    head: int,
) -> bool {
    let n = pinned.len();
    &&& w >= 1
    &&& n == w * h
    &&& n < usize::MAX
    &&& dist.len() == n
    &&& nearest.len() == n
    &&& 0 <= head <= queue.len()
    &&& queue.no_duplicates()
    &&& forall|q: int| 0 <= q < queue.len() ==> #[trigger] queue[q] < n
    &&& forall|i: int| 0 <= i < n ==> (#[trigger] dist[i] != usize::MAX <==> queue.contains(i as usize))
    &&& forall|q: int| 0 <= q < queue.len() ==> #[trigger] dist[queue[q] as int] <= q
    &&& forall|p: int, q: int|
        0 <= p <= q < queue.len() ==> #[trigger] dist[queue[p] as int] <= #[trigger] dist[queue[q] as int]
    &&& head < queue.len() ==> dist[queue[queue.len() - 1] as int] <= dist[queue[head] as int] + 1
    &&& forall|i: int|
        0 <= i < n && #[trigger] dist[i] != usize::MAX ==> nearest[i] < n && pinned[nearest[i] as int]
            && grid_dist(i, nearest[i] as int, w) <= dist[i]
    &&& forall|i: int| 0 <= i < n && #[trigger] dist[i] == usize::MAX ==> nearest[i] == usize::MAX
    &&& forall|i: int| 0 <= i < n && #[trigger] pinned[i] ==> dist[i] == 0
    &&& forall|p: int, b: int|
        0 <= p < head && 0 <= b < n && #[trigger] grid_dist(queue[p] as int, b, w) == 1 ==> dist[b] != usize::MAX
            && dist[b] <= dist[queue[p] as int] + 1
}

proof fn lemma_queue_len(queue: Seq<usize>, n: int)
    requires
        queue.no_duplicates(),
        forall|q: int| 0 <= q < queue.len() ==> #[trigger] queue[q] < n,
        n >= 0,
    ensures
        queue.len() <= n,
{
    let f = |q: int| queue[q] as int;
    assert forall|a: int, b: int| 0 <= a < queue.len() && 0 <= b < queue.len() && #[trigger] f(a) == #[trigger] f(b) implies a == b by {}
    crate::voxel::topology::lemma_injective_bound(f, queue.len() as int, n);
}

/// Facts about the vertex being expanded and a neighbour of it.
proof fn lemma_relax_facts(
    pinned: Seq<bool>,
    w: int,
    h: int,
    dist: Seq<usize>,
    nearest: Seq<usize>,
    queue: Seq<usize>,
    head: int,
    nb: int,
)
    requires
        bfs_state(pinned, w, h, dist, nearest, queue, head),
        head < queue.len(),
        0 <= nb < pinned.len(),
    ensures
        queue[head] < pinned.len(),
        dist.len() == pinned.len(),
        nearest.len() == pinned.len(),
        dist[queue[head] as int] <= head < pinned.len() < usize::MAX,
        dist[nb] != usize::MAX ==> dist[nb] <= dist[queue[head] as int] + 1,
{
    reveal(bfs_state);
    lemma_queue_len(queue, pinned.len() as int);
    if dist[nb] != usize::MAX {
        assert(queue.contains(nb as usize));
        let q = queue.index_of(nb as usize);
        assert(queue[q] == nb);
        assert(dist[queue[q] as int] <= dist[queue[queue.len() - 1] as int]);
    }
}

/// Reaching an unreached neighbour `nb` of `queue[head]` one step further,
/// from the same pinned vertex, and queueing it keeps the search state.
proof fn lemma_push(
    pinned: Seq<bool>,
    w: int,
    h: int,
    d0: Seq<usize>,
    m0: Seq<usize>,
    q0: Seq<usize>,
    head: int,
    nb: int,
)
    requires
        bfs_state(pinned, w, h, d0, m0, q0, head),
        head < q0.len(),
        0 <= nb < pinned.len(),
        grid_dist(q0[head] as int, nb, w) == 1,
        d0[nb] == usize::MAX,
        d0[q0[head] as int] + 1 < usize::MAX,
    ensures
        bfs_state(
            pinned,
            w,
            h,
            d0.update(nb, (d0[q0[head] as int] + 1) as usize),
            m0.update(nb, m0[q0[head] as int]),
            q0.push(nb as usize),
            head,
        ),
{
    reveal(bfs_state);
    let n = pinned.len() as int;
    let cur = q0[head];
    let d1 = d0.update(nb, (d0[cur as int] + 1) as usize);
    let m1 = m0.update(nb, m0[cur as int]);
    let q1 = q0.push(nb as usize);
    assert(q0.contains(cur));
    assert(!q0.contains(nb as usize));
    assert forall|i: int| 0 <= i < n implies (#[trigger] d1[i] != usize::MAX <==> q1.contains(i as usize)) by {
        if i == nb {
            assert(q1[q1.len() - 1] == nb);
        } else {
            assert(d1[i] == d0[i]);
            if q1.contains(i as usize) {
                let e = q1.index_of(i as usize);
                assert(q0[e] == i);
            }
            if q0.contains(i as usize) {
                let e = q0.index_of(i as usize);
                assert(q1[e] == i);
            }
        }
    }
    assert forall|k: int| 0 <= k < q0.len() implies q0[k] != nb by {
        assert(q0.contains(q0[k]));
    }
    assert(q1.no_duplicates());
    assert forall|q: int| 0 <= q < q1.len() implies #[trigger] d1[q1[q] as int] <= q by {
        if q < q0.len() {
            assert(q1[q] == q0[q]);
            assert(q0.contains(q0[q]));
            assert(d1[q0[q] as int] == d0[q0[q] as int]);
        }
    }
    assert forall|p: int, q: int| 0 <= p <= q < q1.len() implies #[trigger] d1[q1[p] as int] <= #[trigger] d1[q1[q]
        as int] by {
        if p < q0.len() {
            assert(q1[p] == q0[p]);
            assert(q0.contains(q0[p]));
            assert(d1[q0[p] as int] == d0[q0[p] as int]);
            assert(d0[q0[p] as int] <= d0[q0[q0.len() - 1] as int]);
        }
        if q < q0.len() {
            assert(q1[q] == q0[q]);
            assert(q0.contains(q0[q]));
            assert(d1[q0[q] as int] == d0[q0[q] as int]);
            assert(d0[q0[p] as int] <= d0[q0[q] as int]);
        }
    }
    assert(q1[head] == cur);
    assert(d1[cur as int] == d0[cur as int]);
    assert forall|i: int| 0 <= i < n && #[trigger] d1[i] != usize::MAX implies m1[i] < n && pinned[m1[i] as int]
        && grid_dist(i, m1[i] as int, w) <= d1[i] by {
        if i != nb {
            assert(d0[i] == d1[i]);
            assert(m0[i] == m1[i]);
        } else {
            assert(d0[cur as int] != usize::MAX);
        }
    }
    assert forall|i: int| 0 <= i < n && #[trigger] d1[i] == usize::MAX implies m1[i] == usize::MAX by {
        assert(d0[i] == d1[i]);
    }
    assert forall|i: int| 0 <= i < n && #[trigger] pinned[i] implies d1[i] == 0 by {
        if i == nb {
            assert(d0[i] == 0);
        }
    }
    assert forall|p: int, b: int|
        0 <= p < head && 0 <= b < n && #[trigger] grid_dist(q1[p] as int, b, w) == 1 implies d1[b] != usize::MAX
        && d1[b] <= d1[q1[p] as int] + 1 by {
        assert(q1[p] == q0[p]);
        assert(grid_dist(q0[p] as int, b, w) == 1);
        assert(d0[b] != usize::MAX);
        assert(d1[b] == d0[b]);
        assert(q0.contains(q0[p]));
    }
    assert forall|q: int| 0 <= q < q1.len() implies #[trigger] q1[q] < n by {}
}

/// Reaches `nb`, a neighbour of the vertex being expanded, from it: when
/// `nb` is not reached yet it gets one step more than `cur`, the pinned
/// vertex `cur` came from, and a place at the end of the queue.
fn relax(
    dist: &mut Vec<usize>,
    nearest: &mut Vec<usize>,
    queue: &mut Vec<usize>,
    pinned: &[bool],
    w: usize,
    h: usize,
    head: usize,
    nb: usize,
)
    requires
        bfs_state(pinned@, w as int, h as int, old(dist)@, old(nearest)@, old(queue)@, head as int),
        head < old(queue)@.len(),
        nb < pinned@.len(),
        grid_dist(old(queue)@[head as int] as int, nb as int, w as int) == 1,
    ensures
        bfs_state(pinned@, w as int, h as int, final(dist)@, final(nearest)@, final(queue)@, head as int),
        final(queue)@.len() >= old(queue)@.len(),
        forall|q: int| 0 <= q < old(queue)@.len() ==> #[trigger] final(queue)@[q] == old(queue)@[q],
        forall|i: int| 0 <= i < pinned@.len() && #[trigger] old(dist)@[i] != usize::MAX ==> final(dist)@[i] == old(dist)@[i],
        final(dist)@[nb as int] != usize::MAX,
        final(dist)@[nb as int] <= final(dist)@[old(queue)@[head as int] as int] + 1,
{
    proof {
        lemma_relax_facts(pinned@, w as int, h as int, dist@, nearest@, queue@, head as int, nb as int);
    }
    let cur = queue[head];
    let new_dist = dist[cur] + 1;
    if new_dist < dist[nb] {
        let ghost d0 = dist@;
        let ghost m0 = nearest@;
        let ghost q0 = queue@;
        let pin = nearest[cur];
        dist.set(nb, new_dist);
        nearest.set(nb, pin);
        queue.push(nb);
        proof {
            lemma_push(pinned@, w as int, h as int, d0, m0, q0, head as int, nb as int);
            assert(dist@ == d0.update(nb as int, (d0[cur as int] + 1) as usize));
            assert(nearest@ == m0.update(nb as int, m0[cur as int]));
        }
    }
}

/// For every vertex that is not pinned, a pinned vertex nearest to it by
/// row and column steps, and that number of steps: `(vertex, pin, steps)`
/// in increasing vertex order, found by a breadth-first search from all
/// pinned vertices at once over the `width × height` grid (vertex
/// `y * width + x`). Empty when nothing is pinned.
pub fn lra_attachments(width: usize, height: usize, pinned: &[bool]) -> (r: Vec<(usize, usize, usize)>)
    requires
        pinned@.len() == width * height,
        pinned@.len() < usize::MAX,
    ensures
        forall|k: int|
            0 <= k < r@.len() ==> (#[trigger] r@[k]).0 < pinned@.len() && !pinned@[r@[k].0 as int] && nearest_pin_at(
                pinned@,
                width as int,
                r@[k].0 as int,
                r@[k].1 as int,
                r@[k].2 as int,
            ),
        forall|k1: int, k2: int| 0 <= k1 < k2 < r@.len() ==> (#[trigger] r@[k1]).0 < (#[trigger] r@[k2]).0,
        any_pinned(pinned@) ==> forall|i: int|
            0 <= i < pinned@.len() && !(#[trigger] pinned@[i]) ==> exists|k: int| 0 <= k < r@.len() && r@[k].0 == i,
        !any_pinned(pinned@) ==> r@.len() == 0,
{
    let n = pinned.len();
    let mut r: Vec<(usize, usize, usize)> = Vec::new();
    if n == 0 {
        return r;
    }
    proof {
        assert(width > 0) by (nonlinear_arith)
            requires
                n == width * height,
                n > 0,
        ;
    }
    let mut dist: Vec<usize> = Vec::new();
    let mut nearest: Vec<usize> = Vec::new();
    let mut queue: Vec<usize> = Vec::new();
    let mut i: usize = 0;
    while i < n
        invariant
            n == pinned@.len(),
            i <= n,
            dist@.len() == i,
            nearest@.len() == i,
            queue@.len() <= i,
            queue@.no_duplicates(),
            forall|q: int| 0 <= q < queue@.len() ==> #[trigger] queue@[q] < i,
            forall|j: int| 0 <= j < i ==> (#[trigger] dist@[j] != usize::MAX <==> queue@.contains(j as usize)),
            forall|j: int| 0 <= j < i ==> (#[trigger] dist@[j] == 0 <==> pinned@[j]),
            forall|j: int| 0 <= j < i ==> (#[trigger] dist@[j] == 0 || dist@[j] == usize::MAX),
            forall|j: int| 0 <= j < i && #[trigger] pinned@[j] ==> nearest@[j] == j,
            forall|j: int| 0 <= j < i && !(#[trigger] pinned@[j]) ==> nearest@[j] == usize::MAX,
            forall|q: int| 0 <= q < queue@.len() ==> #[trigger] pinned@[queue@[q] as int],
        decreases n - i,
    {
        let ghost q0 = queue@;
        if pinned[i] {
            dist.push(0);
            nearest.push(i);
            queue.push(i);
            proof {
                assert forall|j: int| 0 <= j < i + 1 implies (#[trigger] dist@[j] != usize::MAX <==> queue@.contains(j as usize)) by {
                    if j == i {
                        assert(queue@[queue@.len() - 1] == i);
                    } else {
                        if queue@.contains(j as usize) {
                            let e = queue@.index_of(j as usize);
                            if e < q0.len() {
                                assert(q0[e] == j);
                            }
                        }
                        if q0.contains(j as usize) {
                            let e = q0.index_of(j as usize);
                            assert(queue@[e] == j);
                        }
                    }
                }
                assert forall|k: int| 0 <= k < q0.len() implies q0[k] != i by {
                    assert(q0[k] < i);
                }
            }
        } else {
            dist.push(usize::MAX);
            nearest.push(usize::MAX);
            proof {
                assert forall|j: int| 0 <= j < i + 1 implies (#[trigger] dist@[j] != usize::MAX <==> queue@.contains(j as usize)) by {
                    if j == i {
                        if queue@.contains(j as usize) {
                            let e = queue@.index_of(j as usize);
                            assert(queue@[e] < i);
                        }
                    }
                }
            }
        }
        i = i + 1;
    }
    assert(bfs_state(pinned@, width as int, height as int, dist@, nearest@, queue@, 0)) by {
        reveal(bfs_state);
        assert forall|p: int, q: int| 0 <= p <= q < queue@.len() implies #[trigger] dist@[queue@[p] as int]
            <= #[trigger] dist@[queue@[q] as int] by {
            assert(pinned@[queue@[p] as int]);
            assert(pinned@[queue@[q] as int]);
        }
        assert forall|q: int| 0 <= q < queue@.len() implies #[trigger] dist@[queue@[q] as int] <= q by {
            assert(pinned@[queue@[q] as int]);
        }
        if 0 < queue@.len() {
            assert(pinned@[queue@[queue@.len() - 1] as int]);
            assert(pinned@[queue@[0] as int]);
        }
        assert forall|j: int| 0 <= j < n && #[trigger] dist@[j] != usize::MAX implies nearest@[j] < n && pinned@[nearest@[j]
            as int] && grid_dist(j, nearest@[j] as int, width as int) <= dist@[j] by {
            if !pinned@[j] {
                assert(dist@[j] != 0);
            }
        }
        assert forall|j: int| 0 <= j < n && #[trigger] dist@[j] == usize::MAX implies nearest@[j] == usize::MAX by {
            if pinned@[j] {
                assert(dist@[j] == 0);
            }
        }
    }
    let mut head: usize = 0;
    while head < queue.len()
        invariant
            bfs_state(pinned@, width as int, height as int, dist@, nearest@, queue@, head as int),
            n == pinned@.len(),
        decreases n - head,
    {
        proof {
            lemma_state_facts(pinned@, width as int, height as int, dist@, nearest@, queue@, head as int);
        }
        let cur = queue[head];
        let ghost d0 = dist@;
        let ghost q0 = queue@;
        let cx = cur % width;
        let cy = cur / width;
        proof {
            lemma_coords(cur as int, width as int, height as int);
        }
        if cx > 0 {
            proof {
                lemma_neighbor(cur as int, width as int, height as int, 0);
            }
            relax(&mut dist, &mut nearest, &mut queue, pinned, width, height, head, cur - 1);
        }
        let ghost d_a = dist@;
        let ghost q_a = queue@;
        if cx + 1 < width {
            proof {
                lemma_neighbor(cur as int, width as int, height as int, 1);
                assert(q_a[head as int] == q0[head as int]);
            }
            relax(&mut dist, &mut nearest, &mut queue, pinned, width, height, head, cur + 1);
        }
        let ghost d_b = dist@;
        let ghost q_b = queue@;
        if cy > 0 {
            proof {
                lemma_neighbor(cur as int, width as int, height as int, 2);
                assert(q_a[head as int] == q0[head as int]);
                assert(q_b[head as int] == q_a[head as int]);
            }
            relax(&mut dist, &mut nearest, &mut queue, pinned, width, height, head, cur - width);
        }
        let ghost d_c = dist@;
        let ghost q_c = queue@;
        if cy + 1 < height {
            proof {
                lemma_neighbor(cur as int, width as int, height as int, 3);
                assert(q_a[head as int] == q0[head as int]);
                assert(q_b[head as int] == q_a[head as int]);
                assert(q_c[head as int] == q_b[head as int]);
            }
            relax(&mut dist, &mut nearest, &mut queue, pinned, width, height, head, cur + width);
        }
        proof {
            let d = dist@;
            let q = queue@;
            assert(q_a[head as int] == q0[head as int]);
            assert(q_b[head as int] == q_a[head as int]);
            assert(q_c[head as int] == q_b[head as int]);
            assert(q[head as int] == q_c[head as int]);
            assert(d_a[cur as int] == d0[cur as int]);
            assert(d_b[cur as int] == d_a[cur as int]);
            assert(d_c[cur as int] == d_b[cur as int]);
            assert(d[cur as int] == d_c[cur as int]);
            assert forall|b: int| 0 <= b < n && #[trigger] grid_dist(q[head as int] as int, b, width as int) == 1 implies d[b]
                != usize::MAX && d[b] <= d[q[head as int] as int] + 1 by {
                lemma_adjacent_cases(cur as int, b, width as int, height as int);
                if cx > 0 && b == cur - 1 {
                    assert(d_a[b] != usize::MAX);
                    assert(d_b[b] == d_a[b]);
                    assert(d_c[b] == d_b[b]);
                    assert(d[b] == d_c[b]);
                } else if cx + 1 < width && b == cur + 1 {
                    assert(d_b[b] != usize::MAX);
                    assert(d_c[b] == d_b[b]);
                    assert(d[b] == d_c[b]);
                } else if cy > 0 && b == cur - width {
                    assert(d_c[b] != usize::MAX);
                    assert(d[b] == d_c[b]);
                } else {
                    assert(d[b] != usize::MAX);
                }
            }
            lemma_advance(pinned@, width as int, height as int, dist@, nearest@, queue@, head as int);
        }
        head = head + 1;
    }
    proof {
        lemma_state_facts(pinned@, width as int, height as int, dist@, nearest@, queue@, head as int);
        assert(head == queue@.len());
        lemma_state_summary(pinned@, width as int, height as int, dist@, nearest@, queue@);
    }
    let mut j: usize = 0;
    while j < n
        invariant
            n == pinned@.len(),
            dist@.len() == n,
            nearest@.len() == n,
            j <= n,
            forall|i: int|
                0 <= i < n && #[trigger] dist@[i] != usize::MAX ==> nearest@[i] < n && pinned@[nearest@[i] as int]
                    && grid_dist(i, nearest@[i] as int, width as int) <= dist@[i],
            forall|i: int| 0 <= i < n && #[trigger] dist@[i] == usize::MAX ==> nearest@[i] == usize::MAX,
            forall|p: int, i: int|
                #![trigger pinned@[p], dist@[i]]
                0 <= p < n && 0 <= i < n && pinned@[p] ==> dist@[i] != usize::MAX && dist@[i] <= grid_dist(i, p, width as int),
            forall|k: int|
                0 <= k < r@.len() ==> (#[trigger] r@[k]).0 < j && !pinned@[r@[k].0 as int] && nearest_pin_at(
                    pinned@,
                    width as int,
                    r@[k].0 as int,
                    r@[k].1 as int,
                    r@[k].2 as int,
                ),
            forall|k1: int, k2: int| 0 <= k1 < k2 < r@.len() ==> (#[trigger] r@[k1]).0 < (#[trigger] r@[k2]).0,
            any_pinned(pinned@) ==> forall|i: int|
                0 <= i < j && !(#[trigger] pinned@[i]) ==> exists|k: int| 0 <= k < r@.len() && r@[k].0 == i,
            !any_pinned(pinned@) ==> r@.len() == 0,
        decreases n - j,
    {
        let ghost r0 = r@;
        if !pinned[j] && nearest[j] != usize::MAX {
            r.push((j, nearest[j], dist[j]));
            proof {
                let jj = j as int;
                assert(dist@[jj] != usize::MAX);
                let p = nearest@[jj] as int;
                assert(pinned@[p]);
                assert(dist@[jj] <= grid_dist(jj, p, width as int));
                assert forall|q: int| 0 <= q < n && #[trigger] pinned@[q] implies dist@[jj] <= grid_dist(jj, q, width as int) by {}
                assert(nearest_pin_at(pinned@, width as int, jj, p, dist@[jj] as int));
                assert(r@[r@.len() - 1] == (j, nearest@[jj], dist@[jj]));
                assert forall|k: int|
                    0 <= k < r@.len() implies (#[trigger] r@[k]).0 < j + 1 && !pinned@[r@[k].0 as int] && nearest_pin_at(
                        pinned@,
                        width as int,
                        r@[k].0 as int,
                        r@[k].1 as int,
                        r@[k].2 as int,
                    ) by {
                    if k < r0.len() {
                        assert(r@[k] == r0[k]);
                    }
                }
                assert forall|k1: int, k2: int| 0 <= k1 < k2 < r@.len() implies (#[trigger] r@[k1]).0 < (#[trigger] r@[k2]).0 by {
                    assert(r@[k1] == r0[k1]);
                    if k2 < r0.len() {
                        assert(r@[k2] == r0[k2]);
                    } else {
                        assert(r0[k1].0 < j);
                    }
                }
                assert(any_pinned(pinned@));
                assert forall|i: int| 0 <= i < j + 1 && !(#[trigger] pinned@[i]) implies exists|k: int| 0 <= k < r@.len() && r@[k].0 == i by {
                    if i < j {
                        let k = choose|k: int| 0 <= k < r0.len() && r0[k].0 == i;
                        assert(r@[k] == r0[k]);
                    } else {
                        assert(r@[r@.len() - 1].0 == i);
                    }
                }
            }
        } else {
            proof {
                if any_pinned(pinned@) && !pinned@[j as int] {
                    let p = choose|p: int| 0 <= p < pinned@.len() && #[trigger] pinned@[p];
                    assert(dist@[j as int] != usize::MAX);
                }
            }
        }
        j = j + 1;
    }
    r
}

/// What the search state says of the vertex being expanded.
proof fn lemma_state_facts(
    pinned: Seq<bool>,
    w: int,
    h: int,
    dist: Seq<usize>,
    nearest: Seq<usize>,
    queue: Seq<usize>,
    head: int,
)
    requires
        bfs_state(pinned, w, h, dist, nearest, queue, head),
    ensures
        w >= 1,
        pinned.len() == w * h,
        dist.len() == pinned.len(),
        nearest.len() == pinned.len(),
        0 <= head <= queue.len() <= pinned.len(),
        head < queue.len() ==> queue[head] < pinned.len() && dist[queue[head] as int] != usize::MAX,
{
    reveal(bfs_state);
    lemma_queue_len(queue, pinned.len() as int);
    if head < queue.len() {
        assert(queue.contains(queue[head]));
    }
}

/// Expanding `queue[head]` is done once all its neighbours are reached at
/// most one step further.
proof fn lemma_advance(
    pinned: Seq<bool>,
    w: int,
    h: int,
    dist: Seq<usize>,
    nearest: Seq<usize>,
    queue: Seq<usize>,
    head: int,
)
    requires
        bfs_state(pinned, w, h, dist, nearest, queue, head),
        head < queue.len(),
        forall|b: int|
            0 <= b < pinned.len() && #[trigger] grid_dist(queue[head] as int, b, w) == 1 ==> dist[b] != usize::MAX
                && dist[b] <= dist[queue[head] as int] + 1,
    ensures
        bfs_state(pinned, w, h, dist, nearest, queue, head + 1),
{
    reveal(bfs_state);
    if head + 1 < queue.len() {
        assert(dist[queue[head] as int] <= dist[queue[head + 1] as int]);
    }
    assert forall|p: int, b: int|
        0 <= p < head + 1 && 0 <= b < pinned.len() && #[trigger] grid_dist(queue[p] as int, b, w) == 1 implies dist[b]
        != usize::MAX && dist[b] <= dist[queue[p] as int] + 1 by {
        if p == head {
            assert(grid_dist(queue[head] as int, b, w) == 1);
        }
    }
}

/// The search state after the last expansion, in plain terms.
proof fn lemma_state_summary(
    pinned: Seq<bool>,
    w: int,
    h: int,
    dist: Seq<usize>,
    nearest: Seq<usize>,
    queue: Seq<usize>,
)
    requires
        bfs_state(pinned, w, h, dist, nearest, queue, queue.len() as int),
    ensures
        dist.len() == pinned.len(),
        nearest.len() == pinned.len(),
        forall|i: int|
            0 <= i < pinned.len() && #[trigger] dist[i] != usize::MAX ==> nearest[i] < pinned.len() && pinned[nearest[i] as int]
                && grid_dist(i, nearest[i] as int, w) <= dist[i],
        forall|i: int| 0 <= i < pinned.len() && #[trigger] dist[i] == usize::MAX ==> nearest[i] == usize::MAX,
        forall|p: int, i: int|
            #![trigger pinned[p], dist[i]]
            0 <= p < pinned.len() && 0 <= i < pinned.len() && pinned[p] ==> dist[i] != usize::MAX && dist[i] <= grid_dist(i, p, w),
{
    assert forall|p: int, i: int|
        #![trigger pinned[p], dist[i]]
        0 <= p < pinned.len() && 0 <= i < pinned.len() && pinned[p] implies dist[i] != usize::MAX && dist[i] <= grid_dist(i, p, w) by {
        lemma_reach_bound(pinned, w, h, dist, nearest, queue, p, i);
    }
    reveal(bfs_state);
}

/// Once every reached vertex has been expanded, each vertex is reached in
/// at most as many steps as it is from any pinned vertex.
proof fn lemma_reach_bound(
    pinned: Seq<bool>,
    w: int,
    h: int,
    dist: Seq<usize>,
    nearest: Seq<usize>,
    queue: Seq<usize>,
    p: int,
    i: int,
)
    requires
        bfs_state(pinned, w, h, dist, nearest, queue, queue.len() as int),
        0 <= p < pinned.len(),
        pinned[p],
        0 <= i < pinned.len(),
    ensures
        dist[i] != usize::MAX,
        dist[i] <= grid_dist(i, p, w),
    decreases grid_dist(i, p, w),
{
    reveal(bfs_state);
    let n = pinned.len() as int;
    lemma_coords(i, w, h);
    lemma_coords(p, w, h);
    if i == p {
        assert(dist[p] == 0);
    } else {
        let ix = gx(i, w);
        let iy = gy(i, w);
        let px = gx(p, w);
        let py = gy(p, w);
        let (jx, jy) = if ix < px {
            (ix + 1, iy)
        } else if ix > px {
            (ix - 1, iy)
        } else if iy < py {
            (ix, iy + 1)
        } else {
            (ix, iy - 1)
        };
        lemma_from_coords(jx, jy, w, h);
        let j = jy * w + jx;
        assert(grid_dist(j, p, w) == grid_dist(i, p, w) - 1);
        lemma_reach_bound(pinned, w, h, dist, nearest, queue, p, j);
        assert(queue.contains(j as usize));
        let q = queue.index_of(j as usize);
        assert(queue[q] == j);
        assert(grid_dist(queue[q] as int, i, w) == 1);
    }
}

} // verus!
