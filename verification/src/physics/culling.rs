use vstd::prelude::*;
use std::collections::HashSet;

verus! {

broadcast use vstd::std_specs::hash::group_hash_axioms;

/// A body as the culling rules see it: its id, whether it has fallen below
/// the world bounds, and its voxel count.
#[derive(Clone, Copy, Debug)]
pub struct CullCandidate {
    pub id: u64,
    pub below_bounds: bool,
    pub voxel_count: u32,
}

/// The count rules of body culling: bodies under `min_voxels` voxels go,
/// and at most `max_bodies` bodies may remain.
#[derive(Clone, Copy, Debug)]
pub struct CullLimits {
    pub min_voxels: u32,
    pub max_bodies: usize,
}

/// Ids the first two rules remove: bodies below the world bounds and bodies
/// with too few voxels.
pub open spec fn rule_removed(bodies: Seq<CullCandidate>, min_voxels: u32) -> Set<u64> {
    Set::new(|id: u64| exists|i: int| 0 <= i < bodies.len() && #[trigger] bodies[i].id == id && (bodies[i].below_bounds
        || bodies[i].voxel_count < min_voxels))
}

/// The bodies, in order, whose id the first two rules left alone.
pub open spec fn survivors(bodies: Seq<CullCandidate>, removed: Set<u64>) -> Seq<CullCandidate>
    decreases bodies.len(),
{
    if bodies.len() == 0 {
        Seq::empty()
    } else {
        let rest = survivors(bodies.drop_last(), removed);
        if removed.contains(bodies.last().id) {
            rest
        } else {
            rest.push(bodies.last())
        }
    }
}

/// `s[j]` comes before `s[i]` when sorted by voxel count, ties kept in order.
pub open spec fn sorts_before(s: Seq<CullCandidate>, j: int, i: int) -> bool {
    s[j].voxel_count < s[i].voxel_count || (s[j].voxel_count == s[i].voxel_count && j < i)
}

/// How many of `s[0 .. n]` sort before `s[i]`.
pub open spec fn rank_below(s: Seq<CullCandidate>, i: int, n: int) -> nat
    decreases n,
{
    if n <= 0 {
        0
    } else {
        rank_below(s, i, n - 1) + (if sorts_before(s, n - 1, i) { 1nat } else { 0nat })
    }
}

/// Ids the cap removes: the `excess` smallest survivors, by voxel count,
/// earlier bodies first among equals.
pub open spec fn cap_removed(s: Seq<CullCandidate>, max_bodies: usize) -> Set<u64> {
    if s.len() > max_bodies {
        Set::new(|id: u64| exists|i: int| 0 <= i < s.len() && #[trigger] s[i].id == id && rank_below(s, i, s.len() as int)
            < s.len() - max_bodies)
    } else {
        Set::empty()
    }
}

/// Everything the culling rules remove.
pub open spec fn cull_set(bodies: Seq<CullCandidate>, limits: CullLimits) -> Set<u64> {
    let removed = rule_removed(bodies, limits.min_voxels);
    removed.union(cap_removed(survivors(bodies, removed), limits.max_bodies))
}

proof fn lemma_survivors_prefix(bodies: Seq<CullCandidate>, removed: Set<u64>, k: int)
    requires
        0 <= k < bodies.len(),
    ensures
        survivors(bodies.take(k + 1), removed) == (if removed.contains(bodies[k].id) {
            survivors(bodies.take(k), removed)
        } else {
            survivors(bodies.take(k), removed).push(bodies[k])
        }),
{
    assert(bodies.take(k + 1).drop_last() =~= bodies.take(k));
}

/// The ids in `s` are pairwise distinct.
pub open spec fn distinct_ids(s: Seq<CullCandidate>) -> bool {
    forall|i: int, j: int| 0 <= i < s.len() && 0 <= j < s.len() && i != j ==> #[trigger] s[i].id != #[trigger] s[j].id
}

/// The positions of `s` whose id is in `ids`.
pub open spec fn positions_in(s: Seq<CullCandidate>, ids: Set<u64>) -> Set<int> {
    Set::new(|i: int| 0 <= i < s.len() && ids.contains(s[i].id))
}

proof fn lemma_survivors_shape(bodies: Seq<CullCandidate>, removed: Set<u64>)
    ensures
        survivors(bodies, removed).len() <= bodies.len(),
        forall|k: int| 0 <= k < survivors(bodies, removed).len() ==> !removed.contains(#[trigger] survivors(bodies, removed)[k].id)
            && bodies.contains(survivors(bodies, removed)[k]),
    decreases bodies.len(),
{
    if bodies.len() > 0 {
        let t = bodies.drop_last();
        lemma_survivors_shape(t, removed);
        let r = survivors(t, removed);
        assert forall|k: int| 0 <= k < survivors(bodies, removed).len() implies !removed.contains(#[trigger] survivors(bodies, removed)[k].id)
            && bodies.contains(survivors(bodies, removed)[k]) by {
            if k < r.len() {
                assert(survivors(bodies, removed)[k] == r[k]);
                assert(!removed.contains(r[k].id));
                assert(t.contains(r[k]));
                let m = t.index_of(r[k]);
                assert(t[m] == r[k]);
                assert(bodies[m] == t[m]);
            } else {
                assert(bodies[bodies.len() - 1] == bodies.last());
            }
        }
    }
}

proof fn lemma_sorts_before_trans(s: Seq<CullCandidate>, a: int, b: int, c: int)
    requires
        sorts_before(s, a, b),
        sorts_before(s, b, c),
    ensures
        sorts_before(s, a, c),
{
}

/// What sorts before `s[j]` sorts before `s[i]` when `s[j]` does, and
/// `s[j]` itself is counted for `s[i]` once it is in range.
proof fn lemma_rank_mono(s: Seq<CullCandidate>, j: int, i: int, n: int)
    requires
        sorts_before(s, j, i),
        0 <= j,
    ensures
        rank_below(s, j, n) + (if n > j { 1int } else { 0int }) <= rank_below(s, i, n),
    decreases n,
{
    if n > 0 {
        lemma_rank_mono(s, j, i, n - 1);
        if sorts_before(s, n - 1, j) {
            lemma_sorts_before_trans(s, n - 1, j, i);
        }
    }
}

proof fn lemma_rank_bound(s: Seq<CullCandidate>, i: int, n: int)
    requires
        0 <= i < n,
    ensures
        rank_below(s, i, n) < n,
    decreases n,
{
    if n - 1 > i {
        lemma_rank_bound(s, i, n - 1);
    } else {
        assert(!sorts_before(s, i, i));
        lemma_rank_le(s, i, n - 1);
    }
}

proof fn lemma_rank_le(s: Seq<CullCandidate>, i: int, n: int)
    ensures
        rank_below(s, i, n) <= if n > 0 { n } else { 0 },
    decreases n,
{
    if n > 0 {
        lemma_rank_le(s, i, n - 1);
    }
}

/// Ranks of distinct positions differ.
proof fn lemma_rank_injective(s: Seq<CullCandidate>, i: int, j: int)
    requires
        0 <= i < s.len(),
        0 <= j < s.len(),
        i != j,
    ensures
        rank_below(s, i, s.len() as int) != rank_below(s, j, s.len() as int),
{
    if sorts_before(s, j, i) {
        lemma_rank_mono(s, j, i, s.len() as int);
    } else {
        assert(sorts_before(s, i, j));
        lemma_rank_mono(s, i, j, s.len() as int);
    }
}

/// Exactly `e` positions of `s` rank below `e`, for `e <= s.len()`.
proof fn lemma_rank_count(s: Seq<CullCandidate>, e: int)
    requires
        0 <= e <= s.len(),
    ensures
        Set::new(|i: int| 0 <= i < s.len() && rank_below(s, i, s.len() as int) < e).len() == e,
        Set::new(|i: int| 0 <= i < s.len() && rank_below(s, i, s.len() as int) < e).finite(),
{
    let n = s.len() as int;
    let f = |i: int| rank_below(s, i, n) as int;
    let all = vstd::set_lib::set_int_range(0, n);
    let low = Set::new(|i: int| 0 <= i < n && rank_below(s, i, n) < e);
    vstd::set_lib::lemma_int_range(0, n);
    vstd::set_lib::lemma_int_range(0, e);
    assert(low.subset_of(all));
    vstd::set_lib::lemma_len_subset(low, all);
    assert(vstd::relations::injective_on(f, all)) by {
        assert forall|a: int, b: int| all.contains(a) && all.contains(b) && #[trigger] f(a) == #[trigger] f(b) implies a == b by {
            if a != b {
                lemma_rank_injective(s, a, b);
            }
        }
    }
    vstd::set_lib::lemma_map_size(all, all.map(f), f);
    assert(all.map(f).subset_of(all)) by {
        assert forall|r: int| all.map(f).contains(r) implies all.contains(r) by {
            let i = choose|i: int| all.contains(i) && f(i) == r;
            lemma_rank_bound(s, i, n);
        }
    }
    vstd::set_lib::lemma_subset_equality(all.map(f), all);
    assert(vstd::relations::injective_on(f, low));
    vstd::set_lib::lemma_map_size(low, low.map(f), f);
    let er = vstd::set_lib::set_int_range(0, e);
    assert(low.map(f) =~= er) by {
        assert forall|r: int| low.map(f).contains(r) implies er.contains(r) by {
            let i = choose|i: int| low.contains(i) && f(i) == r;
        }
        assert forall|r: int| er.contains(r) implies low.map(f).contains(r) by {
            assert(all.contains(r));
            assert(all.map(f).contains(r));
            let i = choose|i: int| all.contains(i) && f(i) == r;
            assert(low.contains(i));
        }
    }
}

/// What culling removes, read off the rules: everything the first two rules
/// remove; past that, only bodies those rules left; nothing more while at
/// most `max_bodies` bodies are left; and, when more are left (ids being
/// distinct), exactly the excess of them, none larger than a body kept.
pub proof fn lemma_cull_rules(bodies: Seq<CullCandidate>, limits: CullLimits)
    ensures
        ({
            let removed = rule_removed(bodies, limits.min_voxels);
            let s = survivors(bodies, removed);
            let r = cull_set(bodies, limits);
            &&& removed.subset_of(r)
            &&& forall|id: u64| #[trigger] r.contains(id) && !removed.contains(id) ==> exists|k: int| 0 <= k < s.len() && s[k].id == id
            &&& s.len() <= limits.max_bodies ==> r == removed
            &&& distinct_ids(s) && s.len() > limits.max_bodies ==> positions_in(s, r).finite()
                && positions_in(s, r).len() == s.len() - limits.max_bodies
            &&& distinct_ids(s) ==> forall|i: int, j: int|
                0 <= i < s.len() && 0 <= j < s.len() && r.contains(#[trigger] s[i].id) && !r.contains(#[trigger] s[j].id)
                    ==> s[i].voxel_count <= s[j].voxel_count
        }),
{
    let removed = rule_removed(bodies, limits.min_voxels);
    let s = survivors(bodies, removed);
    let r = cull_set(bodies, limits);
    let n = s.len() as int;
    lemma_survivors_shape(bodies, removed);
    if s.len() <= limits.max_bodies {
        assert(r =~= removed);
    }
    if distinct_ids(s) && s.len() > limits.max_bodies {
        let e = n - limits.max_bodies;
        lemma_rank_count(s, e);
        let low = Set::new(|i: int| 0 <= i < n && rank_below(s, i, n) < e);
        assert(positions_in(s, r) =~= low) by {
            assert forall|i: int| positions_in(s, r).contains(i) implies low.contains(i) by {
                assert(!removed.contains(s[i].id));
                let k = choose|k: int| 0 <= k < s.len() && #[trigger] s[k].id == s[i].id && rank_below(s, k, n) < e;
                if k != i {
                    assert(s[k].id != s[i].id);
                }
            }
            assert forall|i: int| low.contains(i) implies positions_in(s, r).contains(i) by {
                assert(s[i].id == s[i].id);
            }
        }
    }
    if distinct_ids(s) {
        assert forall|i: int, j: int|
            0 <= i < s.len() && 0 <= j < s.len() && r.contains(#[trigger] s[i].id) && !r.contains(#[trigger] s[j].id)
            implies s[i].voxel_count <= s[j].voxel_count by {
            assert(!removed.contains(s[i].id));
            assert(s.len() > limits.max_bodies);
            let e = n - limits.max_bodies;
            let k = choose|k: int| 0 <= k < s.len() && #[trigger] s[k].id == s[i].id && rank_below(s, k, n) < e;
            if k != i {
                assert(s[k].id != s[i].id);
            }
            assert(!(rank_below(s, j, n) < e));
            if s[j].voxel_count < s[i].voxel_count {
                lemma_rank_mono(s, j, i, n);
            }
        }
    }
}

impl CullLimits {
    /// Ids of the bodies to cull: those below the world bounds, those with
    /// fewer than `min_voxels` voxels, and, while more than `max_bodies` remain,
    /// the smallest of the rest (by voxel count, earlier first among equals).
    pub fn find_bodies_to_cull(&self, bodies: &[CullCandidate]) -> (r: HashSet<u64>)
        ensures
            r@ == cull_set(bodies@, *self),
            ({
                let removed = rule_removed(bodies@, self.min_voxels);
                let s = survivors(bodies@, removed);
                &&& removed.subset_of(r@)
                &&& forall|id: u64| #[trigger] r@.contains(id) && !removed.contains(id) ==> exists|k: int| 0 <= k < s.len() && s[k].id == id
                &&& s.len() <= self.max_bodies ==> r@ == removed
                &&& distinct_ids(s) && s.len() > self.max_bodies ==> positions_in(s, r@).finite()
                    && positions_in(s, r@).len() == s.len() - self.max_bodies
                &&& distinct_ids(s) ==> forall|i: int, j: int|
                    0 <= i < s.len() && 0 <= j < s.len() && r@.contains(#[trigger] s[i].id) && !r@.contains(#[trigger] s[j].id)
                        ==> s[i].voxel_count <= s[j].voxel_count
            }),
    {
        proof {
            lemma_cull_rules(bodies@, *self);
        }
        let limits = self;
        let mut to_remove: HashSet<u64> = HashSet::new();
        let ghost rule_set = rule_removed(bodies@, limits.min_voxels);
        let mut i: usize = 0;
        while i < bodies.len()
            invariant
                i <= bodies@.len(),
                forall|id: u64| #[trigger] to_remove@.contains(id) <==> exists|j: int| 0 <= j < i && #[trigger] bodies@[j].id == id
                    && bodies@[j].below_bounds,
            decreases bodies@.len() - i,
        {
            let b = bodies[i];
            if b.below_bounds {
                to_remove.insert(b.id);
            }
            proof {
                assert forall|id: u64| #[trigger] to_remove@.contains(id) <==> exists|j: int| 0 <= j < i + 1 && #[trigger] bodies@[j].id == id
                    && bodies@[j].below_bounds by {
                    if to_remove@.contains(id) && !(b.below_bounds && b.id == id) {
                        let j = choose|j: int| 0 <= j < i && #[trigger] bodies@[j].id == id && bodies@[j].below_bounds;
                    }
                }
            }
            i = i + 1;
        }
        let mut i: usize = 0;
        while i < bodies.len()
            invariant
                i <= bodies@.len(),
                forall|id: u64| #[trigger] to_remove@.contains(id) <==> ((exists|j: int| 0 <= j < bodies@.len() && #[trigger] bodies@[j].id
                    == id && bodies@[j].below_bounds) || exists|j: int| 0 <= j < i && #[trigger] bodies@[j].id == id && bodies@[j].voxel_count
                    < limits.min_voxels),
            decreases bodies@.len() - i,
        {
            let b = bodies[i];
            if b.voxel_count < limits.min_voxels {
                to_remove.insert(b.id);
            }
            proof {
                assert forall|id: u64| #[trigger] to_remove@.contains(id) <==> ((exists|j: int| 0 <= j < bodies@.len() && #[trigger] bodies@[j].id
                    == id && bodies@[j].below_bounds) || exists|j: int| 0 <= j < i + 1 && #[trigger] bodies@[j].id == id
                    && bodies@[j].voxel_count < limits.min_voxels) by {
                    if exists|j: int| 0 <= j < i && #[trigger] bodies@[j].id == id && bodies@[j].voxel_count < limits.min_voxels {
                        let j = choose|j: int| 0 <= j < i && #[trigger] bodies@[j].id == id && bodies@[j].voxel_count < limits.min_voxels;
                    }
                }
            }
            i = i + 1;
        }
        proof {
            assert(to_remove@ =~= rule_set);
        }
        let mut surviving: Vec<CullCandidate> = Vec::new();
        let mut k: usize = 0;
        while k < bodies.len()
            invariant
                k <= bodies@.len(),
                to_remove@ == rule_set,
                surviving@ == survivors(bodies@.take(k as int), rule_set),
            decreases bodies@.len() - k,
        {
            proof {
                lemma_survivors_prefix(bodies@, rule_set, k as int);
            }
            let b = bodies[k];
            if !to_remove.contains(&b.id) {
                surviving.push(b);
            }
            k = k + 1;
        }
        proof {
            assert(bodies@.take(bodies@.len() as int) =~= bodies@);
        }
        let ghost s = surviving@;
        if surviving.len() > limits.max_bodies {
            let excess = surviving.len() - limits.max_bodies;
            let mut a: usize = 0;
            while a < surviving.len()
                invariant
                    s == surviving@,
                    surviving@.len() > limits.max_bodies,
                    excess == surviving@.len() - limits.max_bodies,
                    a <= s.len(),
                    forall|id: u64| #[trigger] to_remove@.contains(id) <==> (rule_set.contains(id) || exists|i: int| 0 <= i < a
                        && #[trigger] s[i].id == id && rank_below(s, i, s.len() as int) < excess),
                decreases s.len() - a,
            {
                let mut rank: usize = 0;
                let mut j: usize = 0;
                while j < surviving.len()
                    invariant
                        s == surviving@,
                        a < s.len(),
                        j <= s.len(),
                        rank == rank_below(s, a as int, j as int),
                        rank <= j,
                    decreases s.len() - j,
                {
                    let sj = surviving[j];
                    let sa = surviving[a];
                    if sj.voxel_count < sa.voxel_count || (sj.voxel_count == sa.voxel_count && j < a) {
                        rank = rank + 1;
                    }
                    j = j + 1;
                }
                let sa = surviving[a];
                if rank < excess {
                    to_remove.insert(sa.id);
                }
                proof {
                    assert forall|id: u64| #[trigger] to_remove@.contains(id) <==> (rule_set.contains(id) || exists|i: int| 0 <= i < a + 1
                        && #[trigger] s[i].id == id && rank_below(s, i, s.len() as int) < excess) by {
                        if exists|i: int| 0 <= i < a && #[trigger] s[i].id == id && rank_below(s, i, s.len() as int) < excess {
                            let i = choose|i: int| 0 <= i < a && #[trigger] s[i].id == id && rank_below(s, i, s.len() as int) < excess;
                        }
                    }
                }
                a = a + 1;
            }
            proof {
                assert(to_remove@ =~= cull_set(bodies@, *limits));
            }
        } else {
            proof {
                assert(to_remove@ =~= cull_set(bodies@, *limits));
            }
        }
        to_remove
    }
}

} // verus!
