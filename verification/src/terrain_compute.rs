use vstd::prelude::*;

verus! {

/// Key used to identify a chunk in the pool: voxel chunk coordinates.
pub type ChunkKey = [i32; 3];

/// Lifecycle state of a single chunk texture pool slot.
#[derive(PartialEq, Eq, Clone, Copy, Debug)]
pub enum SlotState {
    /// Ready to be assigned a new dispatch.
    Free,
    /// Dispatch submitted; waiting for its fence. Carries the request id.
    InFlight(u64),
    /// Image holds valid chunk data, ready for render sampling.
    Loaded(ChunkKey),
}

/// GPU header describing region plan dimensions (16 bytes, vec4-aligned).
#[derive(Clone, Copy, Debug)]
pub struct RegionPlanHeader {
    pub cols: u32,
    pub rows: u32,
    pub cell_size: u32,
    pub _pad: u32,
}

/// GPU header describing a river's range in the flat points buffer
/// (16 bytes, uvec4-aligned).
#[derive(Clone, Copy, Debug)]
pub struct RiverHeaderGpu {
    pub start_idx: u32,
    pub length: u32,
    pub _pad0: u32,
    pub _pad1: u32,
}

/// Why a region plan is refused.
#[derive(Clone, Copy, Debug, PartialEq, Eq)]
pub enum RegionPlanError {
    /// The number of cells (taken as a `u32`) is not `cols * rows`.
    CellCountMismatch { cells: usize, expected: u32 },
}

/// The header uploaded with a region plan of `cols × rows` cells of side
/// `cell_size`, checked against the `cells_len` cells given: the plan is
/// refused unless that count, taken as a `u32`, is `cols * rows`.
pub fn region_plan_header(cells_len: usize, cols: u32, rows: u32, cell_size: u32) -> (r: Result<RegionPlanHeader, RegionPlanError>)
    requires
        cols * rows <= u32::MAX,
    ensures
        r is Ok <==> cells_len as u32 == cols * rows,
        r matches Ok(h) ==> h == (RegionPlanHeader { cols, rows, cell_size, _pad: 0 }),
        r matches Err(e) ==> e == (RegionPlanError::CellCountMismatch { cells: cells_len, expected: (cols * rows) as u32 }),
{
    let expected = cols * rows;
    if cells_len as u32 != expected {
        return Err(RegionPlanError::CellCountMismatch { cells: cells_len, expected });
    }
    Ok(RegionPlanHeader { cols, rows, cell_size, _pad: 0 })
}

/// The header that stands in for an empty river set: a river of length 0,
/// over which the shader's loop does nothing.
pub open spec fn empty_river_header() -> RiverHeaderGpu {
    RiverHeaderGpu { start_idx: 0, length: 0, _pad0: 0, _pad1: 0 }
}

/// Whether a river upload of `points_len` points and `headers_len` headers
/// sends a single empty entry of each in their place (the buffers may not
/// be empty).
pub fn rivers_need_placeholder(points_len: usize, headers_len: usize) -> (r: bool)
    ensures
        r == (points_len == 0 || headers_len == 0),
{
    points_len == 0 || headers_len == 0
}

/// The river headers to upload: those given, or the single empty header
/// when there are no points or no headers.
pub fn river_headers_for_upload(headers: &[RiverHeaderGpu], points_len: usize) -> (r: Vec<RiverHeaderGpu>)
    ensures
        (points_len == 0 || headers@.len() == 0) ==> r@ == seq![empty_river_header()],
        !(points_len == 0 || headers@.len() == 0) ==> r@ == headers@,
{
    let mut out: Vec<RiverHeaderGpu> = Vec::new();
    if rivers_need_placeholder(points_len, headers.len()) {
        out.push(RiverHeaderGpu { start_idx: 0, length: 0, _pad0: 0, _pad1: 0 });
        proof {
            assert(out@ =~= seq![empty_river_header()]);
        }
        return out;
    }
    let mut i: usize = 0;
    while i < headers.len()
        invariant
            i <= headers@.len(),
            out@ =~= headers@.take(i as int),
        decreases headers@.len() - i,
    {
        out.push(headers[i]);
        i = i + 1;
    }
    proof {
        assert(headers@.take(headers@.len() as int) =~= headers@);
    }
    out
}

/// The bookkeeping of one pool slot; its GPU resources live with the
/// caller, under the same index.
#[derive(Clone, Copy, Debug)]
pub struct SlotMeta {
    pub state: SlotState,
    /// Frame at which the slot was last referenced (LRU eviction).
    pub last_touched_frame: u64,
    /// No dispatch has used the slot yet.
    pub first_use: bool,
    /// Chunk the slot represents; meaningful whenever `state` is not `Free`.
    pub chunk_pos: ChunkKey,
}

/// State machine of the chunk texture pool: which slot holds which chunk,
/// in which lifecycle state, and how recently it was used. Slots go
/// `Free → InFlight → Loaded → InFlight (on eviction) / Free (on reset)`.
pub struct SlotPool {
    slots: Vec<SlotMeta>,
    next_request_id: u64,
    pool_generation: u64,
    free_count: usize,
    in_flight_count: usize,
    loaded_count: usize,
    bulk_touched_frame: u64,
}

/// 0 for `Free`, 1 for `InFlight`, 2 for `Loaded`.
pub open spec fn state_kind(s: SlotState) -> int {
    match s {
        SlotState::Free => 0,
        SlotState::InFlight(_) => 1,
        SlotState::Loaded(_) => 2,
    }
}

/// Number of slots of `slots` whose state is of kind `kind`.
pub open spec fn count_kind(slots: Seq<SlotMeta>, kind: int) -> nat
    decreases slots.len(),
{
    if slots.len() == 0 {
        0
    } else {
        count_kind(slots.drop_last(), kind) + (if state_kind(slots.last().state) == kind { 1nat } else { 0nat })
    }
}

proof fn lemma_count_update(slots: Seq<SlotMeta>, i: int, m: SlotMeta, kind: int)
    requires
        0 <= i < slots.len(),
    ensures
        count_kind(slots.update(i, m), kind) + (if state_kind(slots[i].state) == kind { 1int } else { 0int })
            == count_kind(slots, kind) + (if state_kind(m.state) == kind { 1int } else { 0int }),
    decreases slots.len(),
{
    let t = slots.update(i, m);
    if i == slots.len() - 1 {
        assert(t.drop_last() =~= slots.drop_last());
    } else {
        assert(t.drop_last() =~= slots.drop_last().update(i, m));
        lemma_count_update(slots.drop_last(), i, m, kind);
    }
}

proof fn lemma_count_total(slots: Seq<SlotMeta>)
    ensures
        count_kind(slots, 0) + count_kind(slots, 1) + count_kind(slots, 2) == slots.len(),
    decreases slots.len(),
{
    if slots.len() > 0 {
        lemma_count_total(slots.drop_last());
    }
}

proof fn lemma_count_all(slots: Seq<SlotMeta>, kind: int)
    requires
        forall|i: int| 0 <= i < slots.len() ==> state_kind(#[trigger] slots[i].state) == kind,
    ensures
        count_kind(slots, kind) == slots.len(),
    decreases slots.len(),
{
    if slots.len() > 0 {
        lemma_count_all(slots.drop_last(), kind);
    }
}

proof fn lemma_count_none(slots: Seq<SlotMeta>, kind: int)
    requires
        forall|i: int| 0 <= i < slots.len() ==> state_kind(#[trigger] slots[i].state) != kind,
    ensures
        count_kind(slots, kind) == 0,
    decreases slots.len(),
{
    if slots.len() > 0 {
        lemma_count_none(slots.drop_last(), kind);
    }
}

/// The age by which a loaded slot is evicted: its own last touch, or the
/// pool-wide bulk touch if that is later.
pub open spec fn effective_age(m: SlotMeta, bulk: u64) -> u64 {
    if m.last_touched_frame >= bulk { m.last_touched_frame } else { bulk }
}

/// No two non-free slots hold the same chunk.
pub open spec fn distinct_chunks(s: Seq<SlotMeta>) -> bool {
    forall|i: int, j: int|
        #![trigger s[i], s[j]]
        0 <= i < s.len() && 0 <= j < s.len() && i != j && s[i].state != SlotState::Free && s[j].state
            != SlotState::Free ==> s[i].chunk_pos != s[j].chunk_pos
}

pub open spec fn occupies(m: SlotMeta, pos: ChunkKey) -> bool {
    m.state != SlotState::Free && m.chunk_pos == pos
}

/// `q` is a pool that an operation on `p` leaves: well-formed, with as
/// many slots, and a generation no lower.
pub open spec fn keeps_pool(p: SlotPool, q: SlotPool) -> bool {
    &&& q.wf()
    &&& q.spec_slots().len() == p.spec_slots().len()
    &&& p.spec_generation() <= q.spec_generation()
}

impl SlotPool {
    pub closed spec fn spec_slots(&self) -> Seq<SlotMeta> {
        self.slots@
    }

    pub closed spec fn spec_next_request_id(&self) -> u64 {
        self.next_request_id
    }

    pub closed spec fn spec_generation(&self) -> u64 {
        self.pool_generation
    }

    pub closed spec fn spec_bulk_touched(&self) -> u64 {
        self.bulk_touched_frame
    }

    pub closed spec fn spec_counts(&self) -> (usize, usize, usize) {
        (self.free_count, self.in_flight_count, self.loaded_count)
    }

    /// The cached counters match the slots; a loaded slot's chunk is the one
    /// it carries; no chunk occupies two slots; in-flight request ids are
    /// distinct and below the next id.
    pub open spec fn wf(&self) -> bool {
        let s = self.spec_slots();
        &&& self.spec_counts().0 == count_kind(s, 0)
        &&& self.spec_counts().1 == count_kind(s, 1)
        &&& self.spec_counts().2 == count_kind(s, 2)
        &&& forall|i: int| 0 <= i < s.len() ==> (#[trigger] s[i].state matches SlotState::Loaded(p) ==> p == s[i].chunk_pos)
        &&& distinct_chunks(s)
        &&& forall|i: int| 0 <= i < s.len() ==> (#[trigger] s[i].state matches SlotState::InFlight(id) ==> id < self.spec_next_request_id())
        &&& forall|i: int, j: int|
            0 <= i < s.len() && 0 <= j < s.len() && i != j && #[trigger] s[i].state is InFlight && #[trigger] s[j].state is InFlight
                ==> s[i].state != s[j].state
    }

    /// A pool of `num_slots` free slots.
    pub fn new(num_slots: usize) -> (p: Self)
        ensures
            p.wf(),
            p.spec_slots().len() == num_slots,
            forall|i: int| 0 <= i < num_slots ==> #[trigger] p.spec_slots()[i] == (SlotMeta {
                state: SlotState::Free,
                last_touched_frame: 0,
                first_use: true,
                chunk_pos: [0i32, 0i32, 0i32],
            }),
            p.spec_next_request_id() == 1,
            p.spec_generation() == 0,
            p.spec_bulk_touched() == 0,
            p.spec_counts() == (num_slots, 0usize, 0usize),
    {
        let mut slots: Vec<SlotMeta> = Vec::new();
        let mut i: usize = 0;
        while i < num_slots
            invariant
                i <= num_slots,
                slots@.len() == i,
                forall|k: int| 0 <= k < i ==> #[trigger] slots@[k] == (SlotMeta {
                    state: SlotState::Free,
                    last_touched_frame: 0,
                    first_use: true,
                    chunk_pos: [0i32, 0i32, 0i32],
                }),
            decreases num_slots - i,
        {
            slots.push(SlotMeta { state: SlotState::Free, last_touched_frame: 0, first_use: true, chunk_pos: [0, 0, 0] });
            i = i + 1;
        }
        proof {
            lemma_count_all(slots@, 0);
            lemma_count_none(slots@, 1);
            lemma_count_none(slots@, 2);
        }
        SlotPool {
            slots,
            next_request_id: 1,
            pool_generation: 0,
            free_count: num_slots,
            in_flight_count: 0,
            loaded_count: 0,
            bulk_touched_frame: 0,
        }
    }
}

fn same_key(a: &ChunkKey, b: &ChunkKey) -> (r: bool)
    ensures
        r == (*a == *b),
{
    let r = a[0] == b[0] && a[1] == b[1] && a[2] == b[2];
    proof {
        if r {
            assert(a@ =~= b@);
            assert(*a =~= *b);
        }
    }
    r
}

/// Eviction of the least recently used slot is refused when that slot was
/// touched this frame or the previous one (`u64::MAX` means "no frame").
pub open spec fn refuses_eviction(age: u64, current_frame: u64) -> bool {
    current_frame != u64::MAX && age + 1 >= current_frame
}

impl SlotPool {
    /// Some non-free slot holds `pos`.
    pub open spec fn known(&self, pos: ChunkKey) -> bool {
        exists|i: int| 0 <= i < self.spec_slots().len() && #[trigger] occupies(self.spec_slots()[i], pos)
    }

    pub open spec fn any_free(&self) -> bool {
        exists|i: int| 0 <= i < self.spec_slots().len() && #[trigger] self.spec_slots()[i].state is Free
    }

    pub open spec fn any_loaded(&self) -> bool {
        exists|i: int| 0 <= i < self.spec_slots().len() && #[trigger] self.spec_slots()[i].state is Loaded
    }

    /// Slot `i` is the first free slot.
    pub open spec fn first_free(&self, i: int) -> bool {
        &&& 0 <= i < self.spec_slots().len()
        &&& self.spec_slots()[i].state is Free
        &&& forall|j: int| 0 <= j < i ==> !(#[trigger] self.spec_slots()[j].state is Free)
    }

    /// Slot `i` is the first loaded slot of least effective age.
    pub open spec fn lru_choice(&self, i: int) -> bool {
        let s = self.spec_slots();
        let b = self.spec_bulk_touched();
        &&& 0 <= i < s.len()
        &&& s[i].state is Loaded
        &&& forall|j: int| 0 <= j < s.len() && #[trigger] s[j].state is Loaded ==> effective_age(s[i], b) <= effective_age(s[j], b)
        &&& forall|j: int| 0 <= j < i && #[trigger] s[j].state is Loaded ==> effective_age(s[i], b) < effective_age(s[j], b)
    }

    /// Chooses the slot for a new dispatch of `chunk_pos`: nothing if the
    /// chunk is already in the pool; else the first free slot; else the
    /// least recently used loaded slot, unless it is still in use this
    /// frame or the last one, or no slot is loaded.
    pub fn plan_submit(&self, chunk_pos: ChunkKey, current_frame: u64) -> (r: Option<usize>)
        requires
            self.wf(),
        ensures
            match r {
                Some(i) => i < self.spec_slots().len() && !self.known(chunk_pos) && (self.first_free(i as int) || (
                    !self.any_free() && self.lru_choice(i as int) && !refuses_eviction(
                        effective_age(self.spec_slots()[i as int], self.spec_bulk_touched()),
                        current_frame,
                    ))),
                None => self.known(chunk_pos) || (!self.any_free() && (!self.any_loaded() || exists|i: int|
                    #[trigger] self.lru_choice(i) && refuses_eviction(
                        effective_age(self.spec_slots()[i], self.spec_bulk_touched()),
                        current_frame,
                    ))),
            },
    {
        let n = self.slots.len();
        let mut i: usize = 0;
        while i < n
            invariant
                n == self.spec_slots().len(),
                i <= n,
                forall|j: int| 0 <= j < i ==> !#[trigger] occupies(self.spec_slots()[j], chunk_pos),
            decreases n - i,
        {
            let m = self.slots[i];
            let busy = match m.state {
                SlotState::Free => false,
                _ => true,
            };
            if busy && same_key(&m.chunk_pos, &chunk_pos) {
                proof {
                    assert(occupies(self.spec_slots()[i as int], chunk_pos));
                }
                return None;
            }
            i = i + 1;
        }
        let mut f: usize = 0;
        while f < n
            invariant
                n == self.spec_slots().len(),
                forall|j: int| 0 <= j < n ==> !#[trigger] occupies(self.spec_slots()[j], chunk_pos),
                f <= n,
                forall|j: int| 0 <= j < f ==> !(#[trigger] self.spec_slots()[j].state is Free),
            decreases n - f,
        {
            match self.slots[f].state {
                SlotState::Free => {
                    return Some(f);
                },
                _ => {},
            }
            f = f + 1;
        }
        let bulk = self.bulk_touched_frame;
        let mut best: Option<usize> = None;
        let mut best_age: u64 = 0;
        let mut k: usize = 0;
        while k < n
            invariant
                n == self.spec_slots().len(),
                forall|j: int| 0 <= j < n ==> !#[trigger] occupies(self.spec_slots()[j], chunk_pos),
                forall|j: int| 0 <= j < n ==> !(#[trigger] self.spec_slots()[j].state is Free),
                bulk == self.spec_bulk_touched(),
                k <= n,
                match best {
                    Some(b) => {
                        &&& b < k
                        &&& self.spec_slots()[b as int].state is Loaded
                        &&& best_age == effective_age(self.spec_slots()[b as int], bulk)
                        &&& forall|j: int| 0 <= j < k && #[trigger] self.spec_slots()[j].state is Loaded ==> best_age
                            <= effective_age(self.spec_slots()[j], bulk)
                        &&& forall|j: int| 0 <= j < b && #[trigger] self.spec_slots()[j].state is Loaded ==> best_age
                            < effective_age(self.spec_slots()[j], bulk)
                    },
                    None => forall|j: int| 0 <= j < k ==> !(#[trigger] self.spec_slots()[j].state is Loaded),
                },
            decreases n - k,
        {
            let m = self.slots[k];
            match m.state {
                SlotState::Loaded(_) => {
                    let age = if m.last_touched_frame >= bulk { m.last_touched_frame } else { bulk };
                    let take = match best {
                        Some(_) => age < best_age,
                        None => true,
                    };
                    if take {
                        best = Some(k);
                        best_age = age;
                    }
                },
                _ => {},
            }
            k = k + 1;
        }
        match best {
            Some(b) => {
                proof {
                    assert(self.lru_choice(b as int));
                }
                if current_frame != u64::MAX && (current_frame == 0 || best_age >= current_frame - 1) {
                    None
                } else {
                    Some(b)
                }
            },
            None => None,
        }
    }
}

/// The loaded slots of `s`, in slot order, as `(slot index, chunk)`.
pub open spec fn loaded_list(s: Seq<SlotMeta>) -> Seq<(u32, ChunkKey)>
    decreases s.len(),
{
    if s.len() == 0 {
        Seq::empty()
    } else {
        let rest = loaded_list(s.drop_last());
        match s.last().state {
            SlotState::Loaded(p) => rest.push(((s.len() - 1) as u32, p)),
            _ => rest,
        }
    }
}

impl SlotPool {
    /// Hands out the next request id.
    pub fn take_request_id(&mut self) -> (id: u64)
        requires
            old(self).wf(),
            old(self).spec_next_request_id() < u64::MAX,
        ensures
            keeps_pool(*old(self), *final(self)),
            final(self).wf(),
            id == old(self).spec_next_request_id(),
            final(self).spec_next_request_id() == id + 1,
            final(self).spec_slots() == old(self).spec_slots(),
            final(self).spec_generation() == old(self).spec_generation(),
            final(self).spec_bulk_touched() == old(self).spec_bulk_touched(),
            final(self).spec_counts() == old(self).spec_counts(),
    {
        let id = self.next_request_id;
        self.next_request_id = id + 1;
        id
    }

    /// Records that slot `slot_idx` was dispatched for `chunk_pos` under
    /// `request_id`: the slot goes in flight (evicting what it held) and the
    /// generation moves on.
    pub fn commit_submit(&mut self, slot_idx: usize, chunk_pos: ChunkKey, request_id: u64)
        requires
            old(self).wf(),
            slot_idx < old(self).spec_slots().len(),
            !(old(self).spec_slots()[slot_idx as int].state is InFlight),
            !old(self).known(chunk_pos),
            request_id < old(self).spec_next_request_id(),
            forall|j: int| 0 <= j < old(self).spec_slots().len() ==> #[trigger] old(self).spec_slots()[j].state != SlotState::InFlight(request_id),
            old(self).spec_generation() < u64::MAX,
        ensures
            keeps_pool(*old(self), *final(self)),
            final(self).wf(),
            final(self).spec_slots() == old(self).spec_slots().update(slot_idx as int, SlotMeta {
                state: SlotState::InFlight(request_id),
                last_touched_frame: old(self).spec_slots()[slot_idx as int].last_touched_frame,
                first_use: false,
                chunk_pos: chunk_pos,
            }),
            final(self).spec_generation() == old(self).spec_generation() + 1,
            final(self).spec_next_request_id() == old(self).spec_next_request_id(),
            final(self).spec_bulk_touched() == old(self).spec_bulk_touched(),
    {
        let ghost before = self.slots@;
        let old_meta = self.slots[slot_idx];
        let m = SlotMeta {
            state: SlotState::InFlight(request_id),
            last_touched_frame: old_meta.last_touched_frame,
            first_use: false,
            chunk_pos,
        };
        proof {
            lemma_count_update(before, slot_idx as int, m, 0);
            lemma_count_update(before, slot_idx as int, m, 1);
            lemma_count_update(before, slot_idx as int, m, 2);
            lemma_count_total(before);
        }
        match old_meta.state {
            SlotState::Free => {
                self.free_count = self.free_count - 1;
            },
            _ => {
                self.loaded_count = self.loaded_count - 1;
            },
        }
        self.slots.set(slot_idx, m);
        proof {
            lemma_count_total(self.slots@);
            assert(self.slots@.len() == self.slots.len());
        }
        self.in_flight_count = self.in_flight_count + 1;
        self.pool_generation = self.pool_generation + 1;
        proof {
            let s = self.slots@;
            assert forall|i: int, j: int|
                #![trigger s[i], s[j]]
                0 <= i < s.len() && 0 <= j < s.len() && i != j && s[i].state != SlotState::Free && s[j].state
                    != SlotState::Free implies s[i].chunk_pos != s[j].chunk_pos by {
                if i == slot_idx {
                    assert(!occupies(before[j], chunk_pos));
                } else if j == slot_idx {
                    assert(!occupies(before[i], chunk_pos));
                } else {
                    assert(before[i].state != SlotState::Free && before[j].state != SlotState::Free);
                }
            }
            assert forall|i: int, j: int|
                0 <= i < s.len() && 0 <= j < s.len() && i != j && #[trigger] s[i].state is InFlight && #[trigger] s[j].state is InFlight
                    implies s[i].state != s[j].state by {
                if i == slot_idx {
                    assert(before[j].state != SlotState::InFlight(request_id));
                } else if j == slot_idx {
                    assert(before[i].state != SlotState::InFlight(request_id));
                }
            }
        }
    }

    /// A finished dispatch: slot `slot_idx`, if in flight, becomes loaded,
    /// stamped with `current_frame`; its request id and chunk are returned.
    pub fn complete_slot(&mut self, slot_idx: usize, current_frame: u64) -> (r: Option<(u64, ChunkKey)>)
        requires
            old(self).wf(),
            slot_idx < old(self).spec_slots().len(),
            old(self).spec_generation() < u64::MAX,
        ensures
            keeps_pool(*old(self), *final(self)),
            final(self).wf(),
            final(self).spec_next_request_id() == old(self).spec_next_request_id(),
            final(self).spec_bulk_touched() == old(self).spec_bulk_touched(),
            match old(self).spec_slots()[slot_idx as int].state {
                SlotState::InFlight(id) => {
                    let m = old(self).spec_slots()[slot_idx as int];
                    &&& r == Some((id, m.chunk_pos))
                    &&& final(self).spec_slots() == old(self).spec_slots().update(slot_idx as int, SlotMeta {
                        state: SlotState::Loaded(m.chunk_pos),
                        last_touched_frame: current_frame,
                        first_use: m.first_use,
                        chunk_pos: m.chunk_pos,
                    })
                    &&& final(self).spec_generation() == old(self).spec_generation() + 1
                },
                _ => {
                    &&& r is None
                    &&& final(self).spec_slots() == old(self).spec_slots()
                    &&& final(self).spec_generation() == old(self).spec_generation()
                },
            },
    {
        let ghost before = self.slots@;
        let old_meta = self.slots[slot_idx];
        match old_meta.state {
            SlotState::InFlight(id) => {
                let m = SlotMeta {
                    state: SlotState::Loaded(old_meta.chunk_pos),
                    last_touched_frame: current_frame,
                    first_use: old_meta.first_use,
                    chunk_pos: old_meta.chunk_pos,
                };
                proof {
                    lemma_count_update(before, slot_idx as int, m, 0);
                    lemma_count_update(before, slot_idx as int, m, 1);
                    lemma_count_update(before, slot_idx as int, m, 2);
                    lemma_count_total(before);
                }
                self.slots.set(slot_idx, m);
                proof {
                    lemma_count_total(self.slots@);
                    assert(self.slots@.len() == self.slots.len());
                }
                self.in_flight_count = self.in_flight_count - 1;
                self.loaded_count = self.loaded_count + 1;
                self.pool_generation = self.pool_generation + 1;
                proof {
                    let s = self.slots@;
                    assert forall|i: int, j: int|
                        #![trigger s[i], s[j]]
                        0 <= i < s.len() && 0 <= j < s.len() && i != j && s[i].state != SlotState::Free && s[j].state
                            != SlotState::Free implies s[i].chunk_pos != s[j].chunk_pos by {
                        assert(before[i].state != SlotState::Free && before[j].state != SlotState::Free);
                    }
                    assert forall|i: int, j: int|
                        0 <= i < s.len() && 0 <= j < s.len() && i != j && #[trigger] s[i].state is InFlight && #[trigger] s[j].state is InFlight
                            implies s[i].state != s[j].state by {
                        assert(before[i].state is InFlight && before[j].state is InFlight);
                    }
                }
                Some((id, old_meta.chunk_pos))
            },
            _ => None,
        }
    }

    /// Every slot becomes free (all in-flight work has drained); the
    /// generation moves on.
    pub fn reset_all(&mut self)
        requires
            old(self).wf(),
            old(self).spec_generation() < u64::MAX,
        ensures
            keeps_pool(*old(self), *final(self)),
            final(self).wf(),
            final(self).spec_slots().len() == old(self).spec_slots().len(),
            forall|i: int| 0 <= i < old(self).spec_slots().len() ==> #[trigger] final(self).spec_slots()[i] == (SlotMeta {
                state: SlotState::Free,
                ..old(self).spec_slots()[i]
            }),
            final(self).spec_generation() == old(self).spec_generation() + 1,
            final(self).spec_counts() == (old(self).spec_slots().len() as usize, 0usize, 0usize),
            final(self).spec_next_request_id() == old(self).spec_next_request_id(),
            final(self).spec_bulk_touched() == old(self).spec_bulk_touched(),
    {
        let n = self.slots.len();
        let mut i: usize = 0;
        while i < n
            invariant
                n == self.slots@.len(),
                n == old(self).spec_slots().len(),
                i <= n,
                forall|k: int| 0 <= k < i ==> #[trigger] self.slots@[k] == (SlotMeta { state: SlotState::Free, ..old(self).spec_slots()[k] }),
                forall|k: int| i <= k < n ==> #[trigger] self.slots@[k] == old(self).spec_slots()[k],
                self.next_request_id == old(self).spec_next_request_id(),
                self.bulk_touched_frame == old(self).spec_bulk_touched(),
                self.pool_generation == old(self).spec_generation(),
                self.pool_generation < u64::MAX,
            decreases n - i,
        {
            let m = self.slots[i];
            self.slots.set(i, SlotMeta { state: SlotState::Free, ..m });
            i = i + 1;
        }
        self.pool_generation = self.pool_generation + 1;
        self.free_count = n;
        self.in_flight_count = 0;
        self.loaded_count = 0;
        proof {
            lemma_count_all(self.slots@, 0);
            lemma_count_none(self.slots@, 1);
            lemma_count_none(self.slots@, 2);
        }
    }

    /// Stamps slot `slot_idx` with `current_frame` if it holds a loaded chunk.
    pub fn mark_touched_slot(&mut self, slot_idx: u32, current_frame: u64)
        requires
            old(self).wf(),
        ensures
            keeps_pool(*old(self), *final(self)),
            final(self).wf(),
            final(self).spec_slots() == (if slot_idx < old(self).spec_slots().len() && old(self).spec_slots()[slot_idx as int].state is Loaded {
                old(self).spec_slots().update(slot_idx as int, SlotMeta {
                    last_touched_frame: current_frame,
                    ..old(self).spec_slots()[slot_idx as int]
                })
            } else {
                old(self).spec_slots()
            }),
            final(self).spec_generation() == old(self).spec_generation(),
            final(self).spec_counts() == old(self).spec_counts(),
            final(self).spec_next_request_id() == old(self).spec_next_request_id(),
            final(self).spec_bulk_touched() == old(self).spec_bulk_touched(),
    {
        let idx = slot_idx as usize;
        if idx < self.slots.len() {
            let m = self.slots[idx];
            match m.state {
                SlotState::Loaded(_) => {
                    self.touch(idx, current_frame);
                },
                _ => {},
            }
        }
    }

    /// Stamps the slot holding `chunk_pos` as loaded, if any, with
    /// `current_frame`.
    pub fn mark_touched(&mut self, chunk_pos: ChunkKey, current_frame: u64)
        requires
            old(self).wf(),
        ensures
            keeps_pool(*old(self), *final(self)),
            final(self).wf(),
            match old(self).find_loaded_spec(chunk_pos) {
                Some(i) => final(self).spec_slots() == old(self).spec_slots().update(i, SlotMeta {
                    last_touched_frame: current_frame,
                    ..old(self).spec_slots()[i]
                }),
                None => final(self).spec_slots() == old(self).spec_slots(),
            },
            final(self).spec_generation() == old(self).spec_generation(),
            final(self).spec_counts() == old(self).spec_counts(),
            final(self).spec_next_request_id() == old(self).spec_next_request_id(),
            final(self).spec_bulk_touched() == old(self).spec_bulk_touched(),
    {
        match self.find_loaded(chunk_pos) {
            Some(i) => {
                proof {
                    let s = self.spec_slots();
                    let c = choose|c: int| 0 <= c < s.len() && #[trigger] s[c].state == SlotState::Loaded(chunk_pos);
                    assert(self.slots@.len() == self.slots.len());
                    assert(c == i as int);
                    assert(s[i as int].state is Loaded);
                }
                self.touch(i, current_frame);
            },
            None => {},
        }
    }

    fn touch(&mut self, idx: usize, current_frame: u64)
        requires
            old(self).wf(),
            idx < old(self).spec_slots().len(),
            old(self).spec_slots()[idx as int].state is Loaded,
        ensures
            final(self).wf(),
            final(self).spec_slots() == old(self).spec_slots().update(idx as int, SlotMeta {
                last_touched_frame: current_frame,
                ..old(self).spec_slots()[idx as int]
            }),
            final(self).spec_generation() == old(self).spec_generation(),
            final(self).spec_counts() == old(self).spec_counts(),
            final(self).spec_next_request_id() == old(self).spec_next_request_id(),
            final(self).spec_bulk_touched() == old(self).spec_bulk_touched(),
    {
        let ghost before = self.slots@;
        let m = self.slots[idx];
        let m2 = SlotMeta { last_touched_frame: current_frame, ..m };
        self.slots.set(idx, m2);
        proof {
            lemma_count_update(before, idx as int, m2, 0);
            lemma_count_update(before, idx as int, m2, 1);
            lemma_count_update(before, idx as int, m2, 2);
            let s = self.slots@;
            assert forall|i: int, j: int|
                #![trigger s[i], s[j]]
                0 <= i < s.len() && 0 <= j < s.len() && i != j && s[i].state != SlotState::Free && s[j].state
                    != SlotState::Free implies s[i].chunk_pos != s[j].chunk_pos by {
                assert(before[i].state != SlotState::Free && before[j].state != SlotState::Free);
            }
            assert forall|i: int, j: int|
                0 <= i < s.len() && 0 <= j < s.len() && i != j && #[trigger] s[i].state is InFlight && #[trigger] s[j].state is InFlight
                    implies s[i].state != s[j].state by {
                assert(before[i].state is InFlight && before[j].state is InFlight);
            }
        }
    }

    /// Index of the first slot holding `chunk_pos` as loaded.
    pub open spec fn find_loaded_spec(&self, chunk_pos: ChunkKey) -> Option<int> {
        if exists|i: int| 0 <= i < self.spec_slots().len() && #[trigger] self.spec_slots()[i].state == SlotState::Loaded(chunk_pos) {
            Some(choose|i: int| 0 <= i < self.spec_slots().len() && #[trigger] self.spec_slots()[i].state == SlotState::Loaded(chunk_pos))
        } else {
            None
        }
    }

    /// The slot holding `chunk_pos` as loaded, if any.
    pub fn find_loaded(&self, chunk_pos: ChunkKey) -> (r: Option<usize>)
        requires
            self.wf(),
        ensures
            r == (match self.find_loaded_spec(chunk_pos) {
                Some(i) => Some(i as usize),
                None => None::<usize>,
            }),
    {
        let n = self.slots.len();
        let mut i: usize = 0;
        while i < n
            invariant
                self.wf(),
                n == self.spec_slots().len(),
                i <= n,
                forall|j: int| 0 <= j < i ==> #[trigger] self.spec_slots()[j].state != SlotState::Loaded(chunk_pos),
            decreases n - i,
        {
            let m = self.slots[i];
            match m.state {
                SlotState::Loaded(p) => {
                    if same_key(&p, &chunk_pos) {
                        proof {
                            let s = self.spec_slots();
                            assert(s[i as int].state == SlotState::Loaded(chunk_pos));
                            let c = choose|c: int| 0 <= c < s.len() && #[trigger] s[c].state == SlotState::Loaded(chunk_pos);
                            assert(s[c].chunk_pos == chunk_pos);
                            assert(s[i as int].chunk_pos == chunk_pos);
                        }
                        return Some(i);
                    }
                },
                _ => {},
            }
            i = i + 1;
        }
        None
    }

    /// Protects every loaded slot at once as if touched at `current_frame`;
    /// the bulk stamp never moves backwards.
    pub fn bulk_touch_all_loaded(&mut self, current_frame: u64)
        requires
            old(self).wf(),
        ensures
            keeps_pool(*old(self), *final(self)),
            final(self).wf(),
            final(self).spec_bulk_touched() == (if current_frame > old(self).spec_bulk_touched() {
                current_frame
            } else {
                old(self).spec_bulk_touched()
            }),
            final(self).spec_slots() == old(self).spec_slots(),
            final(self).spec_generation() == old(self).spec_generation(),
            final(self).spec_counts() == old(self).spec_counts(),
            final(self).spec_next_request_id() == old(self).spec_next_request_id(),
    {
        if current_frame > self.bulk_touched_frame {
            self.bulk_touched_frame = current_frame;
        }
    }

    /// `(free, in_flight, loaded)` slot counts.
    pub fn pool_stats(&self) -> (r: (usize, usize, usize))
        ensures
            r == self.spec_counts(),
    {
        (self.free_count, self.in_flight_count, self.loaded_count)
    }

    /// Counter that moves whenever the set of loaded slots changes.
    pub fn pool_generation(&self) -> (r: u64)
        ensures
            r == self.spec_generation(),
    {
        self.pool_generation
    }

    pub fn next_request_id(&self) -> (r: u64)
        ensures
            r == self.spec_next_request_id(),
    {
        self.next_request_id
    }

    pub fn num_slots(&self) -> (r: usize)
        ensures
            r == self.spec_slots().len(),
    {
        self.slots.len()
    }

    /// The bookkeeping of slot `i`.
    pub fn slot(&self, i: usize) -> (r: SlotMeta)
        requires
            i < self.spec_slots().len(),
        ensures
            r == self.spec_slots()[i as int],
    {
        self.slots[i]
    }

    /// The loaded slots in slot order, as `(slot index, chunk)`.
    pub fn loaded_chunks(&self) -> (r: Vec<(u32, ChunkKey)>)
        requires
            self.spec_slots().len() <= u32::MAX + 1,
        ensures
            r@ == loaded_list(self.spec_slots()),
            forall|k: int| 0 <= k < r@.len() ==> (#[trigger] r@[k]).0 < self.spec_slots().len()
                && self.spec_slots()[r@[k].0 as int].state == SlotState::Loaded(r@[k].1),
            forall|k1: int, k2: int| 0 <= k1 < k2 < r@.len() ==> (#[trigger] r@[k1]).0 < (#[trigger] r@[k2]).0,
            forall|i: int| 0 <= i < self.spec_slots().len() && (#[trigger] self.spec_slots()[i].state) is Loaded
                ==> exists|k: int| 0 <= k < r@.len() && r@[k].0 == i,
    {
        proof {
            lemma_loaded_list_is_loaded_slots(self.spec_slots());
        }
        let n = self.slots.len();
        let mut out: Vec<(u32, ChunkKey)> = Vec::new();
        let mut i: usize = 0;
        while i < n
            invariant
                n == self.spec_slots().len(),
                n <= u32::MAX + 1,
                i <= n,
                out@ == loaded_list(self.spec_slots().take(i as int)),
            decreases n - i,
        {
            let m = self.slots[i];
            proof {
                assert(self.spec_slots().take(i + 1).drop_last() =~= self.spec_slots().take(i as int));
            }
            match m.state {
                SlotState::Loaded(p) => {
                    out.push((i as u32, p));
                },
                _ => {},
            }
            i = i + 1;
        }
        proof {
            assert(self.spec_slots().take(n as int) =~= self.spec_slots());
        }
        out
    }
}

/// What `loaded_chunks` lists, read off the slots themselves: each entry
/// `(i, p)` names a slot `i` whose state is `Loaded(p)`, the entries go in
/// increasing slot order, and every loaded slot has an entry. In-flight and
/// free slots are never listed.
pub proof fn lemma_loaded_list_is_loaded_slots(s: Seq<SlotMeta>)
    requires
        s.len() <= u32::MAX + 1,
    ensures
        forall|k: int| 0 <= k < loaded_list(s).len() ==> (#[trigger] loaded_list(s)[k]).0 < s.len()
            && s[loaded_list(s)[k].0 as int].state == SlotState::Loaded(loaded_list(s)[k].1),
        forall|k1: int, k2: int| 0 <= k1 < k2 < loaded_list(s).len() ==> (#[trigger] loaded_list(s)[k1]).0 < (#[trigger] loaded_list(s)[k2]).0,
        forall|i: int| 0 <= i < s.len() && (#[trigger] s[i].state) is Loaded ==> exists|k: int| 0 <= k < loaded_list(s).len()
            && loaded_list(s)[k].0 == i,
    decreases s.len(),
{
    if s.len() > 0 {
        let t = s.drop_last();
        lemma_loaded_list_is_loaded_slots(t);
        let rest = loaded_list(t);
        let l = loaded_list(s);
        let n = s.len() - 1;
        assert forall|k: int| 0 <= k < l.len() implies (#[trigger] l[k]).0 < s.len() && s[l[k].0 as int].state == SlotState::Loaded(l[k].1) by {
            if k < rest.len() {
                assert(l[k] == rest[k]);
                assert(t[rest[k].0 as int] == s[rest[k].0 as int]);
            }
        }
        assert forall|k1: int, k2: int| 0 <= k1 < k2 < l.len() implies (#[trigger] l[k1]).0 < (#[trigger] l[k2]).0 by {
            assert(l[k1] == rest[k1]);
            if k2 < rest.len() {
                assert(l[k2] == rest[k2]);
            }
        }
        assert forall|i: int| 0 <= i < s.len() && (#[trigger] s[i].state) is Loaded implies exists|k: int| 0 <= k < l.len() && l[k].0 == i by {
            if i < n {
                assert(t[i] == s[i]);
                let k = choose|k: int| 0 <= k < rest.len() && rest[k].0 == i;
                assert(l[k] == rest[k]);
            } else {
                assert(l[l.len() - 1].0 == i);
            }
        }
    }
}

/// The cached counters always add up to the number of slots.
pub proof fn lemma_pool_stats_total(pool: SlotPool)
    requires
        pool.wf(),
    ensures
        pool.spec_counts().0 + pool.spec_counts().1 + pool.spec_counts().2 == pool.spec_slots().len(),
{
    lemma_count_total(pool.spec_slots());
}

/// No chunk occupies two slots of a well-formed pool.
pub proof fn lemma_chunk_in_one_slot(pool: SlotPool, i: int, j: int)
    requires
        pool.wf(),
        0 <= i < pool.spec_slots().len(),
        0 <= j < pool.spec_slots().len(),
        i != j,
        pool.spec_slots()[i].state != SlotState::Free,
        pool.spec_slots()[j].state != SlotState::Free,
    ensures
        pool.spec_slots()[i].chunk_pos != pool.spec_slots()[j].chunk_pos,
{
    let s = pool.spec_slots();
    assert(s[i] == s[i] && s[j] == s[j]);
}

/// Over any run of operations on a pool, each leaving what `keeps_pool`
/// says, the free, in-flight and loaded counts always add up to the number
/// of slots the pool was made with, and the generation never goes down.
pub proof fn lemma_pool_run(run: Seq<SlotPool>)
    requires
        run.len() >= 1,
        run[0].wf(),
        forall|i: int| 0 <= i < run.len() - 1 ==> #[trigger] keeps_pool(run[i], run[i + 1]),
    ensures
        forall|i: int, j: int| 0 <= i <= j < run.len() ==> (#[trigger] run[i]).spec_generation() <= (#[trigger] run[j]).spec_generation(),
        forall|i: int| 0 <= i < run.len() ==> (#[trigger] run[i]).spec_counts().0 + run[i].spec_counts().1 + run[i].spec_counts().2
            == run[0].spec_slots().len(),
    decreases run.len(),
{
    lemma_pool_run_shape(run);
    assert forall|i: int| 0 <= i < run.len() implies (#[trigger] run[i]).spec_counts().0 + run[i].spec_counts().1 + run[i].spec_counts().2
        == run[0].spec_slots().len() by {
        lemma_pool_stats_total(run[i]);
    }
}

proof fn lemma_pool_run_shape(run: Seq<SlotPool>)
    requires
        run.len() >= 1,
        run[0].wf(),
        forall|i: int| 0 <= i < run.len() - 1 ==> #[trigger] keeps_pool(run[i], run[i + 1]),
    ensures
        forall|i: int, j: int| 0 <= i <= j < run.len() ==> (#[trigger] run[i]).spec_generation() <= (#[trigger] run[j]).spec_generation(),
        forall|i: int| 0 <= i < run.len() ==> (#[trigger] run[i]).wf() && run[i].spec_slots().len() == run[0].spec_slots().len(),
    decreases run.len(),
{
    if run.len() > 1 {
        let r = run.drop_last();
        assert forall|i: int| 0 <= i < r.len() - 1 implies #[trigger] keeps_pool(r[i], r[i + 1]) by {
            assert(r[i] == run[i] && r[i + 1] == run[i + 1]);
            assert(keeps_pool(run[i], run[i + 1]));
        }
        lemma_pool_run_shape(r);
        let n = run.len() - 1;
        let k = n - 1;
        assert(keeps_pool(run[k], run[k + 1]));
        assert(k + 1 == n);
        assert(r[k] == run[k] && r[0] == run[0]);
        assert forall|i: int, j: int| 0 <= i <= j < run.len() implies (#[trigger] run[i]).spec_generation() <= (#[trigger] run[j]).spec_generation() by {
            if j < n {
                assert(r[i] == run[i] && r[j] == run[j]);
            } else if i < n {
                assert(r[i] == run[i]);
            }
        }
        assert forall|i: int| 0 <= i < run.len() implies (#[trigger] run[i]).wf() && run[i].spec_slots().len() == run[0].spec_slots().len() by {
            if i < n {
                assert(r[i] == run[i]);
            }
        }
    }
}

} // verus!
