use vstd::prelude::*;
use std::collections::HashMap;
use vstd::std_specs::hash::spec_keys_iter;
use vstd::std_specs::iter::IteratorSpec;

verus! {

broadcast use vstd::std_specs::hash::group_hash_axioms;

/// Sleep bookkeeping of rigid bodies: per body, how many consecutive frames
/// it has been at low energy and whether it sleeps. A body falls asleep
/// after `threshold_frames` low-energy frames and stays asleep until woken.
pub struct SleepTracker {
    entries: HashMap<u64, (u32, bool)>,
    threshold_frames: u32,
}

/// An awake body has counted fewer low-energy frames than the threshold
/// (or none at all).
pub open spec fn entry_ok(e: (u32, bool), threshold: u32) -> bool {
    !e.1 ==> (e.0 < threshold || e.0 == 0)
}

/// The ids of `m` whose body sleeps.
pub open spec fn sleeping_ids(m: Map<u64, (u32, bool)>) -> Set<u64> {
    m.dom().filter(|id: u64| m[id].1)
}

/// The ids of `m` whose body is awake.
pub open spec fn awake_ids(m: Map<u64, (u32, bool)>) -> Set<u64> {
    m.dom().filter(|id: u64| !m[id].1)
}

proof fn lemma_count_matching(ks: Seq<u64>, m: Map<u64, (u32, bool)>, want: bool)
    requires
        ks.no_duplicates(),
    ensures
        count_matching(ks, m, want) == ks.to_set().filter(|id: u64| m[id].1 == want).len(),
    decreases ks.len(),
{
    let p = |id: u64| m[id].1 == want;
    if ks.len() == 0 {
        assert(ks.to_set().filter(p) =~= Set::empty());
    } else {
        let rest = ks.drop_last();
        let x = ks.last();
        assert(rest.no_duplicates());
        lemma_count_matching(rest, m, want);
        assert(ks =~= rest.push(x));
        rest.lemma_push_to_set_commute(x);
        assert(!rest.contains(x)) by {
            if rest.contains(x) {
                let k = choose|k: int| 0 <= k < rest.len() && rest[k] == x;
                assert(ks[k] == ks[ks.len() - 1]);
            }
        }
        assert(!rest.to_set().contains(x));
        vstd::seq_lib::seq_to_set_is_finite(rest);
        if p(x) {
            assert(ks.to_set().filter(p) =~= rest.to_set().filter(p).insert(x));
        } else {
            assert(ks.to_set().filter(p) =~= rest.to_set().filter(p));
        }
    }
}

/// Number of keys of `ks` whose entry's sleep flag is `want`.
pub open spec fn count_matching(ks: Seq<u64>, m: Map<u64, (u32, bool)>, want: bool) -> nat
    decreases ks.len(),
{
    if ks.len() == 0 {
        0
    } else {
        count_matching(ks.drop_last(), m, want) + (if m[ks.last()].1 == want { 1nat } else { 0nat })
    }
}

impl SleepTracker {
    /// Each tracked body as `(low-energy frames, sleeping)`.
    pub closed spec fn spec_entries(&self) -> Map<u64, (u32, bool)> {
        self.entries@
    }

    pub closed spec fn spec_threshold(&self) -> u32 {
        self.threshold_frames
    }

    pub open spec fn wf(&self) -> bool {
        forall|id: u64| #[trigger] self.spec_entries().contains_key(id) ==> entry_ok(self.spec_entries()[id], self.spec_threshold())
    }

    pub fn new(threshold_frames: u32) -> (s: Self)
        ensures
            s.wf(),
            s.spec_entries() == Map::<u64, (u32, bool)>::empty(),
            s.spec_threshold() == threshold_frames,
    {
        SleepTracker { entries: HashMap::new(), threshold_frames }
    }

    /// Records one frame of body `id` (tracked from now on if it was not):
    /// a sleeping body is left as is; otherwise a low-energy frame adds to
    /// its count, and the body falls asleep once the count reaches the
    /// threshold; any other frame resets the count.
    pub fn update(&mut self, id: u64, low_energy: bool)
        requires
            old(self).wf(),
        ensures
            final(self).wf(),
            final(self).spec_threshold() == old(self).spec_threshold(),
            final(self).spec_entries() == old(self).spec_entries().insert(id, next_entry(
                if old(self).spec_entries().contains_key(id) { old(self).spec_entries()[id] } else { (0u32, false) },
                low_energy,
                old(self).spec_threshold(),
            )),
    {
        let current = match self.entries.get(&id) {
            Some(e) => *e,
            None => (0u32, false),
        };
        proof {
            if self.spec_entries().contains_key(id) {
                assert(entry_ok(self.spec_entries()[id], self.spec_threshold()));
            }
        }
        let (frames, sleeping) = current;
        let next = if sleeping {
            current
        } else if low_energy {
            let f = frames + 1;
            (f, f >= self.threshold_frames)
        } else {
            (0u32, false)
        };
        self.entries.insert(id, next);
        proof {
            assert forall|k: u64| #[trigger] self.spec_entries().contains_key(k) implies entry_ok(self.spec_entries()[k], self.spec_threshold()) by {
                if k != id {
                    assert(old(self).spec_entries().contains_key(k));
                }
            }
        }
    }

    pub fn is_sleeping(&self, id: u64) -> (r: bool)
        ensures
            r == (self.spec_entries().contains_key(id) && self.spec_entries()[id].1),
    {
        match self.entries.get(&id) {
            Some(e) => e.1,
            None => false,
        }
    }

    /// Wakes body `id`, clearing its count; untracked ids are ignored.
    pub fn wake(&mut self, id: u64)
        requires
            old(self).wf(),
        ensures
            final(self).wf(),
            final(self).spec_threshold() == old(self).spec_threshold(),
            final(self).spec_entries() == (if old(self).spec_entries().contains_key(id) {
                old(self).spec_entries().insert(id, (0u32, false))
            } else {
                old(self).spec_entries()
            }),
    {
        if self.entries.contains_key(&id) {
            self.entries.insert(id, (0, false));
        }
        proof {
            assert forall|k: u64| #[trigger] self.spec_entries().contains_key(k) implies entry_ok(self.spec_entries()[k], self.spec_threshold()) by {
                if k != id {
                    assert(old(self).spec_entries().contains_key(k));
                }
            }
        }
    }

    pub fn is_tracked(&self, id: u64) -> (r: bool)
        ensures
            r == self.spec_entries().contains_key(id),
    {
        self.entries.contains_key(&id)
    }

    /// The tracked ids, each once.
    pub fn ids(&self) -> (r: Vec<u64>)
        ensures
            r@.no_duplicates(),
            r@.to_set() == self.spec_entries().dom(),
    {
        let ghost all = spec_keys_iter(&self.entries).remaining();
        let mut out: Vec<u64> = Vec::new();
        for k in it: self.entries.keys()
            invariant
                all == spec_keys_iter(&self.entries).remaining(),
                it.seq() == all,
                out@.len() == it.index(),
                forall|j: int| 0 <= j < it.index() ==> out@[j] == *all[j],
        {
            out.push(*k);
        }
        proof {
            assert(out@ =~= all.unref());
        }
        out
    }

    fn count_with(&self, want: bool) -> (r: usize)
        ensures
            r == self.spec_entries().dom().filter(|id: u64| self.spec_entries()[id].1 == want).len(),
    {
        let ids = self.ids();
        let mut n: usize = 0;
        let mut i: usize = 0;
        while i < ids.len()
            invariant
                i <= ids@.len(),
                n == count_matching(ids@.take(i as int), self.spec_entries(), want),
                n <= i,
                forall|j: int| 0 <= j < ids@.len() ==> self.spec_entries().contains_key(#[trigger] ids@[j]),
            decreases ids@.len() - i,
        {
            proof {
                assert(ids@.take(i + 1).drop_last() =~= ids@.take(i as int));
            }
            let e = *self.entries.get(&ids[i]).unwrap();
            if e.1 == want {
                n = n + 1;
            }
            i = i + 1;
        }
        proof {
            assert(ids@.take(i as int) =~= ids@);
            lemma_count_matching(ids@, self.spec_entries(), want);
        }
        n
    }

    /// Number of sleeping bodies.
    pub fn sleeping_count(&self) -> (r: usize)
        ensures
            r == sleeping_ids(self.spec_entries()).len(),
    {
        let r = self.count_with(true);
        proof {
            assert(self.spec_entries().dom().filter(|id: u64| self.spec_entries()[id].1 == true) =~= sleeping_ids(self.spec_entries()));
        }
        r
    }

    /// Number of awake bodies.
    pub fn awake_count(&self) -> (r: usize)
        ensures
            r == awake_ids(self.spec_entries()).len(),
    {
        let r = self.count_with(false);
        proof {
            assert(self.spec_entries().dom().filter(|id: u64| self.spec_entries()[id].1 == false) =~= awake_ids(self.spec_entries()));
        }
        r
    }
}

/// The entry after one frame.
pub open spec fn next_entry(e: (u32, bool), low_energy: bool, threshold: u32) -> (u32, bool) {
    if e.1 {
        e
    } else if low_energy {
        ((e.0 + 1) as u32, e.0 + 1 >= threshold)
    } else {
        (0u32, false)
    }
}

/// The entry of a body that was awake with no low-energy frames counted
/// (new or just woken) after `k` low-energy frames in a row.
pub open spec fn after_low_frames(k: nat, threshold: u32) -> (u32, bool)
    decreases k,
{
    if k == 0 {
        (0u32, false)
    } else {
        next_entry(after_low_frames((k - 1) as nat, threshold), true, threshold)
    }
}

/// A body falls asleep after `threshold` low-energy frames in a row: a run
/// of `k >= 1` such frames, starting awake with nothing counted, leaves it
/// asleep exactly when `k` reaches the threshold, and otherwise awake with
/// `k` frames counted.
pub proof fn lemma_sleeps_after_threshold(k: nat, threshold: u32)
    requires
        k >= 1,
    ensures
        after_low_frames(k, threshold).1 <==> k >= threshold,
        !after_low_frames(k, threshold).1 ==> after_low_frames(k, threshold).0 == k,
    decreases k,
{
    let prev = after_low_frames((k - 1) as nat, threshold);
    assert(after_low_frames(k, threshold) == next_entry(prev, true, threshold));
    if k > 1 {
        lemma_sleeps_after_threshold((k - 1) as nat, threshold);
    }
    if !prev.1 {
        assert(prev.0 == k - 1);
        if k > 1 {
            assert(k - 1 < threshold);
        }
        assert(prev.0 + 1 <= u32::MAX);
        assert(((prev.0 + 1) as u32) == k);
    }
}

/// A sleeping body stays asleep, whatever its frames, until woken; an
/// energetic frame of an awake body clears its count.
pub proof fn lemma_sleep_is_kept(e: (u32, bool), low_energy: bool, threshold: u32)
    ensures
        e.1 ==> next_entry(e, low_energy, threshold) == e,
        !e.1 && !low_energy ==> next_entry(e, low_energy, threshold) == (0u32, false),
{
}

} // verus!
