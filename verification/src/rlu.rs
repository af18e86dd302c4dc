use vstd::prelude::*;

verus! {

// Read-log-update: readers run without locks and see either the committed
// object or, while a writer holds it, the writer's copy; a writer works on
// copies kept in its write set and writes them back after a grace period.
//
// Memory is an arena: an object is named by its index in `Rlu::heap`, and a
// copy by its place in a thread's write set. A thread is named by the index
// of its data block in `Rlu::pool`; `Rlu::threads` maps a registered
// thread's id to that index.
pub const RLU_MAX_THREADS: usize = 32;

pub const RLU_MAX_FREE_NODES: usize = 100;

/// Number of write sets in a thread's ring; `WS_INDEX` maps a write-set
/// counter to its slot.
pub const RLU_MAX_WRITE_SETS: usize = 200;

/// Capacity of the writer-lock id list of one write set.
pub const RLU_MAX_WS_WRITER_LOCKS: usize = 20;

pub const RLU_MAX_WRITER_LOCKS: usize = 20000;

/// The largest write-set limit `RLU_INIT` takes: a thread keeps at most
/// one more written-back write set than the limit and fewer committed ones
/// than it, and with one more being built they must fit in the ring.
pub const RLU_MAX_WRITE_SETS_LIMIT: usize = (RLU_MAX_WRITE_SETS - 2) / 2;

pub const RLU_MAX_WRITE_SET_BUFFER_SIZE: usize = 100000;

/// Bytes of a write-set entry header (actual object, size, run counter,
/// thread id).
pub const WS_OBJ_HEADER_SIZE: usize = 32;

/// Bytes of an object header (the copy pointer).
pub const OBJ_HEADER_SIZE: usize = 8;

/// Value of `writer_version` while a thread is not writing back.
pub const RLU_MAX_VERSION: u32 = 2147483646;

/// A pointer into RLU memory.
#[derive(Clone, Copy, Debug, PartialEq, Eq, Structural)]
pub enum Ptr {
    Null,
    /// The object at this index of the heap.
    Actual(usize),
    /// The copy kept as entry `.2` of write set `.1` of thread data `.0`.
    InWriteSet(usize, usize, usize),
    /// The value a copy's own header holds: it marks the copy as a copy.
    CopyMark,
}

/// An object with its header.
#[derive(Clone, Copy)]
pub struct HeapObj<D> {
    /// `Null` while unlocked, else the copy that the locking writer edits.
    pub p_obj_copy: Ptr,
    pub obj_size: usize,
    pub data: D,
    /// Cleared when the object is freed.
    pub live: bool,
}

/// A write-set entry: the header of a copy and the copy itself.
#[derive(Clone, Copy)]
pub struct WsEntry<D> {
    /// Heap index of the object this is a copy of.
    pub p_obj_actual: usize,
    pub obj_size: usize,
    pub run_counter: usize,
    pub thread_id: usize,
    pub copy: D,
}

/// One write set.
pub struct obj_list_t<D> {
    /// Ids of the writer locks taken in this write set.
    pub writer_locks: Vec<usize>,
    pub num_of_objs: u32,
    pub entries: Vec<WsEntry<D>>,
    /// Bytes of the write-set buffer in use.
    pub used: usize,
}

#[derive(Clone, Copy)]
pub struct wait_entry_t {
    pub is_wait: u8,
    pub run_counter: usize,
}

/// Global statistics.
#[derive(Clone, Copy)]
pub struct rlu_data {
    pub n_starts: u32,
    pub n_finish: u32,
    pub n_writers: u32,
    pub n_writer_writeback: u32,
    pub n_writeback_q_iters: u32,
    pub n_pure_readers: u32,
    pub n_steals: u32,
    pub n_aborts: u32,
    pub n_sync_requests: u32,
    pub n_sync_and_writeback: u32,
}

/// The data of one thread.
pub struct rlu_thread_data_t<D> {
    pub uniq_id: usize,
    pub is_check_locks: u8,
    pub is_write_detected: u8,
    pub is_steal: u8,
    pub type_: u32,
    pub max_write_set: usize,
    pub run_counter: usize,
    pub local_version: u32,
    pub local_commit_version: u32,
    pub is_no_quiescence: u32,
    pub is_sync: u32,
    pub writer_version: u32,
    pub q_threads: Vec<wait_entry_t>,
    pub ws_head_counter: usize,
    pub ws_wb_counter: usize,
    pub ws_tail_counter: usize,
    pub ws_cur_id: usize,
    pub obj_write_set: Vec<obj_list_t<D>>,
    pub free_nodes: Vec<Ptr>,
    pub n_starts: u32,
    pub n_finish: u32,
    pub n_writers: u32,
    pub n_writer_writeback: u32,
    pub n_pure_readers: u32,
    pub n_aborts: u32,
    pub n_steals: u32,
    pub n_writer_sync_waits: u32,
    pub n_writeback_q_iters: u32,
    pub n_sync_requests: u32,
    pub n_sync_and_writeback: u32,
}

/// The whole RLU state: what the globals, the thread data blocks and the
/// objects hold.
pub struct Rlu<D> {
    pub stats: rlu_data,
    pub max_write_sets: usize,
    pub cur_threads: usize,
    /// Registered threads: id to thread data.
    pub threads: Vec<Option<usize>>,
    pub writer_locks: Vec<usize>,
    pub writer_version: usize,
    pub commit_version: usize,
    pub pool: Vec<rlu_thread_data_t<D>>,
    pub heap: Vec<HeapObj<D>>,
}

/// `x + 1` modulo 2^32.
pub open spec fn inc32(x: u32) -> u32 {
    if x == u32::MAX {
        0
    } else {
        (x + 1) as u32
    }
}

/// `x + 1` modulo 2^64 (the width of `usize` aside).
pub open spec fn inc_usize(x: usize) -> usize {
    if x == usize::MAX {
        0
    } else {
        (x + 1) as usize
    }
}

/// `WS_INDEX` on mathematical counters.
pub open spec fn slot(c: int) -> int {
    c % (RLU_MAX_WRITE_SETS as int)
}

/// A write set that holds nothing.
pub open spec fn ws_clean<D>(ws: obj_list_t<D>) -> bool {
    &&& ws.writer_locks@.len() == 0
    &&& ws.num_of_objs == 0
    &&& ws.entries@.len() == 0
    &&& ws.used == 0
}

/// The shape limits that one write set keeps.
pub open spec fn ws_wf<D>(ws: obj_list_t<D>) -> bool {
    &&& ws.writer_locks@.len() <= RLU_MAX_WS_WRITER_LOCKS
    &&& forall|i: int| 0 <= i < ws.writer_locks@.len() ==> #[trigger] ws.writer_locks@[i] < RLU_MAX_WRITER_LOCKS
    &&& ws.entries@.len() == ws.num_of_objs
    &&& ws.used < RLU_MAX_WRITE_SET_BUFFER_SIZE
    &&& ws.entries@.len() * WS_OBJ_HEADER_SIZE <= ws.used
}

impl<D> rlu_thread_data_t<D> {
    /// How far slot `s` lies from the slot of the head counter, going round
    /// the ring.
    pub open spec fn offset(self, s: int) -> int {
        (s - slot(self.ws_head_counter as int) + RLU_MAX_WRITE_SETS) % (RLU_MAX_WRITE_SETS as int)
    }

    /// Slot `s` holds a write set that is committed and not yet written
    /// back, or the one being built.
    pub open spec fn holds_locks(self, s: int) -> bool {
        self.ws_wb_counter - self.ws_head_counter <= self.offset(s) <= self.ws_tail_counter
            - self.ws_head_counter
    }

    /// Slot `s` lies in the window from head to tail.
    pub open spec fn in_window(self, s: int) -> bool {
        self.offset(s) <= self.ws_tail_counter - self.ws_head_counter
    }

    pub open spec fn wf(self) -> bool {
        &&& self.q_threads@.len() == RLU_MAX_THREADS
        &&& self.obj_write_set@.len() == RLU_MAX_WRITE_SETS
        &&& self.ws_head_counter <= self.ws_wb_counter <= self.ws_tail_counter
        &&& self.ws_tail_counter - self.ws_head_counter < RLU_MAX_WRITE_SETS
        &&& self.max_write_set <= RLU_MAX_WRITE_SETS_LIMIT
        &&& self.ws_tail_counter - self.ws_wb_counter <= self.max_write_set + 1
        &&& self.ws_wb_counter - self.ws_head_counter <= self.max_write_set + 1
        &&& self.ws_cur_id == slot(self.ws_tail_counter as int)
        &&& self.free_nodes@.len() < RLU_MAX_FREE_NODES
        &&& forall|s: int| 0 <= s < RLU_MAX_WRITE_SETS ==> ws_wf(#[trigger] self.obj_write_set@[s])
        &&& forall|s: int|
            0 <= s < RLU_MAX_WRITE_SETS && !self.in_window(s) ==> ws_clean(#[trigger] self.obj_write_set@[s])
    }
}

impl<D> rlu_thread_data_t<D> {
    /// Outside a commit: fewer committed write sets wait for write-back than
    /// the limit that makes the thread synchronize.
    pub open spec fn settled(self) -> bool {
        self.ws_tail_counter - self.ws_wb_counter < self.max_write_set || self.ws_tail_counter
            == self.ws_wb_counter
    }
}

impl<D> Rlu<D> {
    /// Every thread but `h` is outside a commit.
    pub open spec fn settled_except(self, h: int) -> bool {
        forall|t: int| 0 <= t < self.pool@.len() && t != h ==> (#[trigger] self.pool@[t]).settled()
    }

    /// Every thread is outside a commit.
    pub open spec fn all_settled(self) -> bool {
        forall|t: int| 0 <= t < self.pool@.len() ==> (#[trigger] self.pool@[t]).settled()
    }

    /// Data block `h` is registered under its id.
    pub open spec fn registered(self, h: int) -> bool {
        &&& 0 <= h < self.pool@.len()
        &&& self.pool@[h].uniq_id < self.cur_threads
        &&& self.threads@[self.pool@[h].uniq_id as int] == Some(h as usize)
    }

    /// The entry a copy pointer names exists.
    pub open spec fn entry_exists(self, t: int, s: int, k: int) -> bool {
        &&& 0 <= t < self.pool@.len()
        &&& 0 <= s < RLU_MAX_WRITE_SETS
        &&& s < self.pool@[t].obj_write_set@.len()
        &&& 0 <= k < self.pool@[t].obj_write_set@[s].entries@.len()
    }

    pub open spec fn entry(self, t: int, s: int, k: int) -> WsEntry<D> {
        self.pool@[t].obj_write_set@[s].entries@[k]
    }

    /// A pointer that can be read through.
    pub open spec fn valid_ptr(self, p: Ptr) -> bool {
        match p {
            Ptr::Actual(i) => i < self.heap@.len(),
            Ptr::InWriteSet(t, s, k) => self.entry_exists(t as int, s as int, k as int),
            _ => false,
        }
    }

    /// The objects thread `h` has queued for freeing exist.
    pub open spec fn free_valid(self, h: int) -> bool {
        forall|x: int|
            0 <= x < self.pool@[h].free_nodes@.len() ==> (#[trigger] self.pool@[h].free_nodes@[x] matches Ptr::Actual(i)
                && i < self.heap@.len())
    }

    /// The data a valid pointer reads.
    pub open spec fn read(self, p: Ptr) -> D {
        match p {
            Ptr::Actual(i) => self.heap@[i as int].data,
            Ptr::InWriteSet(t, s, k) => self.entry(t as int, s as int, k as int).copy,
            _ => arbitrary(),
        }
    }

    /// The header of what a valid pointer points to: an object's copy
    /// pointer, or the copy mark of a copy.
    pub open spec fn header(self, p: Ptr) -> Ptr {
        match p {
            Ptr::Actual(i) => self.heap@[i as int].p_obj_copy,
            _ => Ptr::CopyMark,
        }
    }

    /// Well-formedness of the global registry and of every thread.
    pub open spec fn wf_threads(self) -> bool {
        &&& self.threads@.len() == RLU_MAX_THREADS
        &&& self.writer_locks@.len() == RLU_MAX_WRITER_LOCKS
        &&& self.cur_threads <= RLU_MAX_THREADS
        &&& self.max_write_sets <= RLU_MAX_WRITE_SETS_LIMIT
        &&& forall|j: int|
            0 <= j < self.cur_threads ==> (#[trigger] self.threads@[j] matches Some(h) && h
                < self.pool@.len() && self.pool@[h as int].uniq_id == j)
        &&& forall|h: int| 0 <= h < self.pool@.len() ==> (#[trigger] self.pool@[h]).wf()
        &&& forall|h: int, x: int|
            0 <= h < self.pool@.len() && 0 <= x < self.pool@[h].free_nodes@.len() ==> (
            #[trigger] self.pool@[h].free_nodes@[x] matches Ptr::Actual(i) && i < self.heap@.len())
    }

    /// Entry `k` of write set `s` of thread `t` holds its object's lock.
    /// Write sets from the one of counter `lo` up to the tail hold locks in
    /// thread `h`, bar the first `kk` entries of slot `ps`; in every other
    /// thread those from the write-back counter up to the tail do.
    pub open spec fn holding(self, t: int, s: int, k: int, h: int, lo: int, ps: int, kk: int) -> bool {
        let th = self.pool@[t];
        if t == h {
            &&& lo - th.ws_head_counter <= th.offset(s) <= th.ws_tail_counter - th.ws_head_counter
            &&& !(s == ps && k < kk)
        } else {
            th.holds_locks(s)
        }
    }

    /// Object headers and write-set entries agree: an object is locked by
    /// exactly the entry its header names, and every entry that holds a lock
    /// (see `holding`) locks its object.
    pub open spec fn wf_locks_except(self, h: int, lo: int, ps: int, kk: int) -> bool {
        &&& forall|i: int|
            0 <= i < self.heap@.len() ==> match #[trigger] self.heap@[i].p_obj_copy {
                Ptr::Null => true,
                Ptr::InWriteSet(t, s, k) => {
                    &&& self.entry_exists(t as int, s as int, k as int)
                    &&& self.entry(t as int, s as int, k as int).p_obj_actual == i
                    &&& self.holding(t as int, s as int, k as int, h, lo, ps, kk)
                },
                _ => false,
            }
        &&& forall|t: int, s: int, k: int|
            #![trigger self.pool@[t].obj_write_set@[s].entries@[k]]
            self.entry_exists(t, s, k) ==> {
                &&& self.entry(t, s, k).p_obj_actual < self.heap@.len()
                &&& self.entry(t, s, k).thread_id == self.pool@[t].uniq_id
                &&& self.registered(t)
                &&& (self.holding(t, s, k, h, lo, ps, kk) ==> self.heap@[self.entry(
                    t,
                    s,
                    k,
                ).p_obj_actual as int].p_obj_copy == Ptr::InWriteSet(
                    t as usize,
                    s as usize,
                    k as usize,
                ))
            }
    }

    pub open spec fn wf_locks(self) -> bool {
        self.wf_locks_except(-1, 0, 0, 0)
    }

    /// The registry, thread data and locks are consistent.
    pub open spec fn wf_core(self) -> bool {
        &&& self.wf_threads()
        &&& self.wf_locks()
    }

    /// What every operation keeps once `RLU_INIT` has run.
    pub open spec fn wf(self) -> bool {
        &&& self.wf_core()
        &&& self.writer_version == self.commit_version
        &&& self.all_settled()
    }
}

/// `obj_size` rounded up to a multiple of 8.
pub open spec fn align8(obj_size: int) -> int {
    if obj_size % 8 != 0 {
        obj_size + (8 - obj_size % 8)
    } else {
        obj_size
    }
}

/// The write-set slot of a write-set counter.
pub fn WS_INDEX(ws_counter: usize) -> (r: usize)
    ensures
        r == slot(ws_counter as int),
{
    ws_counter % 200
}

/// The value a thread writes into a writer lock it holds.
pub fn LOCK_ID(th_id: usize) -> (r: usize)
    requires
        th_id < usize::MAX,
    ensures
        r == th_id + 1,
{
    th_id + 1
}

/// Rounds an object size up to a multiple of 8.
pub fn ALIGN_OBJ_SIZE(obj_size: usize) -> (r: usize)
    requires
        obj_size <= usize::MAX - 7,
    ensures
        r == align8(obj_size as int),
{
    let align_number: usize = 8;
    let align_mask: usize = align_number - 1;
    assert(obj_size & 7 == obj_size % 8) by (bit_vector);
    if obj_size & align_mask != 0 {
        obj_size + (align_number - (obj_size & align_mask))
    } else {
        obj_size
    }
}

/// A header value that names a copy means the object is locked.
pub fn PTR_IS_LOCKED(p_obj_copy: Ptr) -> (r: bool)
    ensures
        r == !(p_obj_copy is Null),
{
    match p_obj_copy {
        Ptr::Null => false,
        _ => true,
    }
}

pub fn PTR_IS_UNLOCKED(p_obj_copy: Ptr) -> (r: bool)
    ensures
        r == (p_obj_copy is Null),
{
    !PTR_IS_LOCKED(p_obj_copy)
}

/// The header value of a copy.
pub fn PTR_IS_COPY(p_obj_copy: Ptr) -> (r: bool)
    ensures
        r == (p_obj_copy is CopyMark),
{
    match p_obj_copy {
        Ptr::CopyMark => true,
        _ => false,
    }
}

pub fn is_ptr_copy(ptr: Ptr) -> (r: bool)
    ensures
        r == (ptr is CopyMark),
{
    PTR_IS_COPY(ptr)
}

/// `b` is `a` with at most the data block of thread `h` changed.
pub open spec fn only_thread_changed<D>(a: Rlu<D>, b: Rlu<D>, h: int) -> bool {
    &&& b == Rlu { pool: b.pool, ..a }
    &&& b.pool@.len() == a.pool@.len()
    &&& forall|t: int| 0 <= t < a.pool@.len() && t != h ==> #[trigger] b.pool@[t] == a.pool@[t]
}

/// `y` is `x` with at most write set `s` changed.
pub open spec fn only_ws_changed<D>(x: rlu_thread_data_t<D>, y: rlu_thread_data_t<D>, s: int) -> bool {
    &&& y == rlu_thread_data_t { obj_write_set: y.obj_write_set, ..x }
    &&& y.obj_write_set@.len() == x.obj_write_set@.len()
    &&& forall|u: int|
        0 <= u < x.obj_write_set@.len() && u != s ==> #[trigger] y.obj_write_set@[u]
            == x.obj_write_set@[u]
}

/// A data block as `rlu_new_thread_data` makes it: all zero, every write
/// set empty.
pub open spec fn fresh_thread<D>(th: rlu_thread_data_t<D>) -> bool {
    &&& th.uniq_id == 0 && th.is_check_locks == 0 && th.is_write_detected == 0 && th.is_steal == 0
    &&& th.type_ == 0 && th.max_write_set == 0 && th.run_counter == 0
    &&& th.local_version == 0 && th.local_commit_version == 0
    &&& th.is_no_quiescence == 0 && th.is_sync == 0 && th.writer_version == 0
    &&& th.q_threads@.len() == RLU_MAX_THREADS
    &&& forall|j: int| 0 <= j < RLU_MAX_THREADS ==> #[trigger] th.q_threads@[j] == (wait_entry_t { is_wait: 0, run_counter: 0 })
    &&& th.ws_head_counter == 0 && th.ws_wb_counter == 0 && th.ws_tail_counter == 0
    &&& th.ws_cur_id == 0
    &&& th.obj_write_set@.len() == RLU_MAX_WRITE_SETS
    &&& forall|s: int| 0 <= s < RLU_MAX_WRITE_SETS ==> ws_clean(#[trigger] th.obj_write_set@[s])
    &&& th.free_nodes@.len() == 0
    &&& th.n_starts == 0 && th.n_finish == 0 && th.n_writers == 0 && th.n_writer_writeback == 0
    &&& th.n_pure_readers == 0 && th.n_aborts == 0 && th.n_steals == 0
    &&& th.n_writer_sync_waits == 0 && th.n_writeback_q_iters == 0
    &&& th.n_sync_requests == 0 && th.n_sync_and_writeback == 0
}

pub open spec fn zero_stats() -> rlu_data {
    rlu_data {
        n_starts: 0,
        n_finish: 0,
        n_writers: 0,
        n_writer_writeback: 0,
        n_writeback_q_iters: 0,
        n_pure_readers: 0,
        n_steals: 0,
        n_aborts: 0,
        n_sync_requests: 0,
        n_sync_and_writeback: 0,
    }
}

fn new_write_set<D>() -> (ws: obj_list_t<D>)
    ensures
        ws_clean(ws),
{
    obj_list_t { writer_locks: Vec::new(), num_of_objs: 0, entries: Vec::new(), used: 0 }
}

impl<D: Copy> Rlu<D> {
    /// The state before `RLU_INIT`: no thread, no object, all locks free,
    /// the writer version at 0 and the commit version at 9.
    pub fn new() -> (rlu: Self)
        ensures
            rlu.wf_threads(),
            rlu.wf_locks(),
            rlu.stats == zero_stats(),
            rlu.max_write_sets == 0,
            rlu.cur_threads == 0,
            forall|j: int| 0 <= j < RLU_MAX_THREADS ==> #[trigger] rlu.threads@[j] is None,
            forall|j: int| 0 <= j < RLU_MAX_WRITER_LOCKS ==> #[trigger] rlu.writer_locks@[j] == 0,
            rlu.writer_version == 0,
            rlu.commit_version == 9,
            rlu.pool@.len() == 0,
            rlu.heap@.len() == 0,
    {
        let mut threads: Vec<Option<usize>> = Vec::new();
        for j in 0..RLU_MAX_THREADS
            invariant
                threads@.len() == j,
                forall|k: int| 0 <= k < j ==> #[trigger] threads@[k] is None,
        {
            threads.push(None);
        }
        let mut writer_locks: Vec<usize> = Vec::new();
        for j in 0..RLU_MAX_WRITER_LOCKS
            invariant
                writer_locks@.len() == j,
                forall|k: int| 0 <= k < j ==> #[trigger] writer_locks@[k] == 0,
        {
            writer_locks.push(0);
        }
        Rlu {
            stats: rlu_data {
                n_starts: 0,
                n_finish: 0,
                n_writers: 0,
                n_writer_writeback: 0,
                n_writeback_q_iters: 0,
                n_pure_readers: 0,
                n_steals: 0,
                n_aborts: 0,
                n_sync_requests: 0,
                n_sync_and_writeback: 0,
            },
            max_write_sets: 0,
            cur_threads: 0,
            threads,
            writer_locks,
            writer_version: 0,
            commit_version: 9,
            pool: Vec::new(),
            heap: Vec::new(),
        }
    }
}

/// Allocates a data block for a new thread, all zero, and returns its index.
pub fn rlu_new_thread_data<D: Copy>(rlu: &mut Rlu<D>) -> (h: usize)
    requires
        old(rlu).wf_threads(),
        old(rlu).wf_locks(),
    ensures
        h == old(rlu).pool@.len(),
        final(rlu).pool@.len() == old(rlu).pool@.len() + 1,
        forall|t: int| 0 <= t < h ==> #[trigger] final(rlu).pool@[t] == old(rlu).pool@[t],
        fresh_thread(final(rlu).pool@[h as int]),
        *final(rlu) == (Rlu { pool: final(rlu).pool, ..*old(rlu) }),
        final(rlu).wf_threads(),
        final(rlu).wf_locks(),
{
    let mut q_threads: Vec<wait_entry_t> = Vec::new();
    for j in 0..RLU_MAX_THREADS
        invariant
            q_threads@.len() == j,
            forall|k: int| 0 <= k < j ==> #[trigger] q_threads@[k] == (wait_entry_t { is_wait: 0, run_counter: 0 }),
    {
        q_threads.push(wait_entry_t { is_wait: 0, run_counter: 0 });
    }
    let mut obj_write_set: Vec<obj_list_t<D>> = Vec::new();
    for j in 0..RLU_MAX_WRITE_SETS
        invariant
            obj_write_set@.len() == j,
            forall|k: int| 0 <= k < j ==> ws_clean(#[trigger] obj_write_set@[k]),
    {
        obj_write_set.push(new_write_set());
    }
    let th = rlu_thread_data_t {
        uniq_id: 0,
        is_check_locks: 0,
        is_write_detected: 0,
        is_steal: 0,
        type_: 0,
        max_write_set: 0,
        run_counter: 0,
        local_version: 0,
        local_commit_version: 0,
        is_no_quiescence: 0,
        is_sync: 0,
        writer_version: 0,
        q_threads,
        ws_head_counter: 0,
        ws_wb_counter: 0,
        ws_tail_counter: 0,
        ws_cur_id: 0,
        obj_write_set,
        free_nodes: Vec::new(),
        n_starts: 0,
        n_finish: 0,
        n_writers: 0,
        n_writer_writeback: 0,
        n_pure_readers: 0,
        n_aborts: 0,
        n_steals: 0,
        n_writer_sync_waits: 0,
        n_writeback_q_iters: 0,
        n_sync_requests: 0,
        n_sync_and_writeback: 0,
    };
    let h = rlu.pool.len();
    rlu.pool.push(th);
    proof {
        assert(final(rlu).pool@[h as int].wf());
        assert forall|t: int, s: int, k: int|
            #![trigger final(rlu).pool@[t].obj_write_set@[s].entries@[k]]
            final(rlu).entry_exists(t, s, k) implies old(rlu).entry_exists(t, s, k) by {
            if t == h {
                assert(ws_clean(final(rlu).pool@[t].obj_write_set@[s]));
            }
        }
    }
    h
}

/// Sets the global versions to 0 and the write-set limit of threads
/// initialised afterwards.
pub fn rlu_init<D: Copy>(rlu: &mut Rlu<D>, type_: u32, max_write_sets: usize)
    requires
        old(rlu).wf_threads(),
        old(rlu).wf_locks(),
        max_write_sets <= RLU_MAX_WRITE_SETS_LIMIT,
        old(rlu).all_settled(),
    ensures
        final(rlu).wf(),
        *final(rlu) == (Rlu {
            writer_version: 0,
            commit_version: 0,
            max_write_sets: max_write_sets,
            ..*old(rlu)
        }),
{
    rlu.writer_version = 0;
    rlu.commit_version = 0;
    rlu.max_write_sets = max_write_sets;
    proof {
        lemma_same_locking_wf(*old(rlu), *rlu);
    }
}

pub fn rlu_finish() {
}

/// The data block registered under `uniq_id`, if any.
pub fn rlu_get_thread_data<D: Copy>(rlu: &Rlu<D>, uniq_id: usize) -> (r: Option<usize>)
    requires
        uniq_id < RLU_MAX_THREADS,
        rlu.threads@.len() == RLU_MAX_THREADS,
    ensures
        r == rlu.threads@[uniq_id as int],
{
    rlu.threads[uniq_id]
}

/// Empties write set `slot(ws_counter)` of thread `h`.
fn rlu_reset_write_set<D: Copy>(rlu: &mut Rlu<D>, h: usize, ws_counter: usize)
    requires
        h < old(rlu).pool@.len(),
        old(rlu).pool@[h as int].obj_write_set@.len() == RLU_MAX_WRITE_SETS,
    ensures
        only_thread_changed(*old(rlu), *final(rlu), h as int),
        only_ws_changed(
            old(rlu).pool@[h as int],
            final(rlu).pool@[h as int],
            slot(ws_counter as int),
        ),
        ws_clean(final(rlu).pool@[h as int].obj_write_set@[slot(ws_counter as int)]),
{
    let ws_id = WS_INDEX(ws_counter);
    rlu.pool[h].obj_write_set[ws_id].num_of_objs = 0;
    rlu.pool[h].obj_write_set[ws_id].entries.clear();
    rlu.pool[h].obj_write_set[ws_id].used = 0;
    rlu_reset_writer_locks(rlu, h, ws_id);
}

/// Forgets the writer locks recorded in write set `ws_id` of thread `h`.
fn rlu_reset_writer_locks<D: Copy>(rlu: &mut Rlu<D>, h: usize, ws_id: usize)
    requires
        h < old(rlu).pool@.len(),
        ws_id < old(rlu).pool@[h as int].obj_write_set@.len(),
    ensures
        only_thread_changed(*old(rlu), *final(rlu), h as int),
        only_ws_changed(old(rlu).pool@[h as int], final(rlu).pool@[h as int], ws_id as int),
        final(rlu).pool@[h as int].obj_write_set@[ws_id as int] == (obj_list_t {
            writer_locks: final(rlu).pool@[h as int].obj_write_set@[ws_id as int].writer_locks,
            ..old(rlu).pool@[h as int].obj_write_set@[ws_id as int]
        }),
        final(rlu).pool@[h as int].obj_write_set@[ws_id as int].writer_locks@.len() == 0,
{
    rlu.pool[h].obj_write_set[ws_id].writer_locks.clear();
}

/// Registers data block `h` under the next thread id, which it returns.
pub fn rlu_thread_init<D: Copy>(rlu: &mut Rlu<D>, h: usize) -> (id: usize)
    requires
        old(rlu).wf_threads(),
        old(rlu).wf_locks(),
        h < old(rlu).pool@.len(),
        old(rlu).cur_threads < RLU_MAX_THREADS,
        old(rlu).pool@[h as int].ws_tail_counter == old(rlu).pool@[h as int].ws_wb_counter,
        old(rlu).pool@[h as int].ws_wb_counter == old(rlu).pool@[h as int].ws_head_counter,
        forall|j: int| 0 <= j < old(rlu).cur_threads ==> #[trigger] old(rlu).threads@[j] != Some(h),
        forall|s: int|
            0 <= s < RLU_MAX_WRITE_SETS ==> ws_clean(#[trigger] old(rlu).pool@[h as int].obj_write_set@[s]),
    ensures
        id == old(rlu).cur_threads,
        *final(rlu) == (Rlu {
            cur_threads: (old(rlu).cur_threads + 1) as usize,
            threads: final(rlu).threads,
            pool: final(rlu).pool,
            ..*old(rlu)
        }),
        final(rlu).threads@ == old(rlu).threads@.update(id as int, Some(h)),
        final(rlu).pool@.len() == old(rlu).pool@.len(),
        forall|t: int|
            0 <= t < old(rlu).pool@.len() && t != h ==> #[trigger] final(rlu).pool@[t] == old(
                rlu,
            ).pool@[t],
        final(rlu).pool@[h as int] == (rlu_thread_data_t {
            max_write_set: old(rlu).max_write_sets,
            uniq_id: id,
            local_version: 0,
            writer_version: u32::MAX,
            obj_write_set: final(rlu).pool@[h as int].obj_write_set,
            ..old(rlu).pool@[h as int]
        }),
        final(rlu).pool@[h as int].obj_write_set@.len() == RLU_MAX_WRITE_SETS,
        forall|s: int|
            0 <= s < RLU_MAX_WRITE_SETS ==> ws_clean(#[trigger] final(rlu).pool@[h as int].obj_write_set@[s]),
        final(rlu).registered(h as int),
        final(rlu).wf_threads(),
        final(rlu).wf_locks(),
{
    let ghost old_rlu = *rlu;
    rlu.pool[h].max_write_set = rlu.max_write_sets;
    let id = rlu.cur_threads;
    rlu.cur_threads = rlu.cur_threads + 1;
    rlu.pool[h].uniq_id = id;
    rlu.pool[h].local_version = 0;
    rlu.pool[h].writer_version = u32::MAX;
    let ghost mid = rlu.pool@[h as int];
    for ws_counter in 0..RLU_MAX_WRITE_SETS
        invariant
            h < rlu.pool@.len(),
            rlu.pool@.len() == old_rlu.pool@.len(),
            *rlu == (Rlu {
                cur_threads: (old_rlu.cur_threads + 1) as usize,
                pool: rlu.pool,
                ..old_rlu
            }),
            forall|t: int|
                0 <= t < old_rlu.pool@.len() && t != h ==> #[trigger] rlu.pool@[t]
                    == old_rlu.pool@[t],
            rlu.pool@[h as int] == (rlu_thread_data_t {
                obj_write_set: rlu.pool@[h as int].obj_write_set,
                ..mid
            }),
            rlu.pool@[h as int].obj_write_set@.len() == RLU_MAX_WRITE_SETS,
            forall|s: int|
                0 <= s < RLU_MAX_WRITE_SETS ==> ws_clean(#[trigger] rlu.pool@[h as int].obj_write_set@[s]),
    {
        rlu_reset_write_set(rlu, h, ws_counter);
        proof {
            assert forall|s: int| 0 <= s < RLU_MAX_WRITE_SETS implies ws_clean(
                #[trigger] rlu.pool@[h as int].obj_write_set@[s],
            ) by {
                if s != slot(ws_counter as int) {
                }
            }
        }
    }
    rlu.threads.set(id, Some(h));
    proof {
        let r = *rlu;
        assert(r.pool@[h as int].wf());
        assert forall|h2: int| 0 <= h2 < r.pool@.len() implies (#[trigger] r.pool@[h2]).wf() by {
            if h2 != h {
                assert(old_rlu.pool@[h2].wf());
            }
        }
        assert forall|j: int| 0 <= j < r.cur_threads implies (#[trigger] r.threads@[j] matches Some(
            h3,
        ) && h3 < r.pool@.len()) by {
            if j != id {
                assert(old_rlu.threads@[j] matches Some(h3) && h3 < old_rlu.pool@.len());
            }
        }
        assert forall|t: int, s: int, k: int|
            #![trigger r.pool@[t].obj_write_set@[s].entries@[k]]
            r.entry_exists(t, s, k) implies {
                &&& r.entry(t, s, k).p_obj_actual < r.heap@.len()
                &&& r.entry(t, s, k).thread_id == r.pool@[t].uniq_id
                &&& r.registered(t)
                &&& (r.pool@[t].holds_locks(s) ==> r.heap@[r.entry(
                    t,
                    s,
                    k,
                ).p_obj_actual as int].p_obj_copy == Ptr::InWriteSet(
                    t as usize,
                    s as usize,
                    k as usize,
                ))
            } by {
            if t == h {
                assert(ws_clean(r.pool@[t].obj_write_set@[s]));
            } else {
                assert(old_rlu.entry_exists(t, s, k));
                assert(old_rlu.pool@[t].obj_write_set@[s].entries@[k] == r.pool@[t].obj_write_set@[s].entries@[k]);
                assert(old_rlu.registered(t));
                assert(old_rlu.pool@[t].uniq_id != id);
            }
        }
        assert forall|i: int| 0 <= i < r.heap@.len() implies match #[trigger] r.heap@[i].p_obj_copy {
            Ptr::Null => true,
            Ptr::InWriteSet(t, s, k) => {
                &&& r.entry_exists(t as int, s as int, k as int)
                &&& r.entry(t as int, s as int, k as int).p_obj_actual == i
                &&& r.pool@[t as int].holds_locks(s as int)
            },
            _ => false,
        } by {
            match r.heap@[i].p_obj_copy {
                Ptr::InWriteSet(t, s, k) => {
                    assert(old_rlu.entry_exists(t as int, s as int, k as int));
                    if t == h {
                        assert(ws_clean(old_rlu.pool@[t as int].obj_write_set@[s as int]));
                    }
                },
                _ => {},
            }
        }
    }
    id
}

impl<D> Rlu<D> {
    /// The object a copy was made of; any other pointer stands for itself.
    pub open spec fn actual_of(self, p: Ptr) -> Ptr {
        match p {
            Ptr::InWriteSet(t, s, k) => Ptr::Actual(self.entry(t as int, s as int, k as int).p_obj_actual),
            _ => p,
        }
    }
}

/// Allocates an object of `obj_size` bytes holding `init`, unlocked.
pub fn rlu_alloc<D: Copy>(rlu: &mut Rlu<D>, obj_size: usize, init: D) -> (p: Ptr)
    requires
        obj_size <= usize::MAX - OBJ_HEADER_SIZE,
        old(rlu).wf_threads(),
        old(rlu).wf_locks(),
    ensures
        p == Ptr::Actual(old(rlu).heap@.len() as usize),
        final(rlu).heap@ == old(rlu).heap@.push(
            HeapObj { p_obj_copy: Ptr::Null, obj_size: obj_size, data: init, live: true },
        ),
        *final(rlu) == (Rlu { heap: final(rlu).heap, ..*old(rlu) }),
        final(rlu).wf_threads(),
        final(rlu).wf_locks(),
{
    let i = rlu.heap.len();
    rlu.heap.push(HeapObj { p_obj_copy: Ptr::Null, obj_size: obj_size, data: init, live: true });
    proof {
        let r = *rlu;
        assert forall|i2: int| 0 <= i2 < r.heap@.len() implies match #[trigger] r.heap@[i2].p_obj_copy {
            Ptr::Null => true,
            Ptr::InWriteSet(t, s, k) => {
                &&& r.entry_exists(t as int, s as int, k as int)
                &&& r.entry(t as int, s as int, k as int).p_obj_actual == i2
                &&& r.pool@[t as int].holds_locks(s as int)
            },
            _ => false,
        } by {
            if i2 < i {
                assert(old(rlu).heap@[i2] == r.heap@[i2]);
            }
        }
        assert forall|t: int, s: int, k: int|
            #![trigger r.pool@[t].obj_write_set@[s].entries@[k]]
            r.entry_exists(t, s, k) implies {
                &&& r.entry(t, s, k).p_obj_actual < r.heap@.len()
                &&& r.entry(t, s, k).thread_id == r.pool@[t].uniq_id
                &&& r.registered(t)
                &&& (r.pool@[t].holds_locks(s) ==> r.heap@[r.entry(
                    t,
                    s,
                    k,
                ).p_obj_actual as int].p_obj_copy == Ptr::InWriteSet(
                    t as usize,
                    s as usize,
                    k as usize,
                ))
            } by {
            assert(old(rlu).entry_exists(t, s, k));
            assert(old(rlu).heap@[old(rlu).entry(t, s, k).p_obj_actual as int] == r.heap@[r.entry(t, s, k).p_obj_actual as int]);
        }
    }
    Ptr::Actual(i)
}

/// Reads the data a pointer points to.
pub fn rlu_read<D: Copy>(rlu: &Rlu<D>, p: Ptr) -> (d: D)
    requires
        rlu.valid_ptr(p),
    ensures
        d == rlu.read(p),
{
    match p {
        Ptr::Actual(i) => rlu.heap[i].data,
        Ptr::InWriteSet(t, s, k) => rlu.pool[t].obj_write_set[s].entries[k].copy,
        _ => {
            assert(false);
            rlu.heap[0].data
        },
    }
}

/// Writes the data a pointer points to.
pub fn rlu_write<D: Copy>(rlu: &mut Rlu<D>, p: Ptr, d: D)
    requires
        old(rlu).valid_ptr(p),
        old(rlu).wf(),
    ensures
        final(rlu).wf(),
        final(rlu).read(p) == d,
        match p {
            Ptr::Actual(i) => {
                &&& final(rlu).heap@ == old(rlu).heap@.update(i as int, HeapObj { data: d, ..old(rlu).heap@[i as int] })
                &&& *final(rlu) == (Rlu { heap: final(rlu).heap, ..*old(rlu) })
            },
            Ptr::InWriteSet(t, s, k) => {
                &&& only_thread_changed(*old(rlu), *final(rlu), t as int)
                &&& only_ws_changed(old(rlu).pool@[t as int], final(rlu).pool@[t as int], s as int)
                &&& final(rlu).pool@[t as int].obj_write_set@[s as int] == (obj_list_t {
                    entries: final(rlu).pool@[t as int].obj_write_set@[s as int].entries,
                    ..old(rlu).pool@[t as int].obj_write_set@[s as int]
                })
                &&& final(rlu).pool@[t as int].obj_write_set@[s as int].entries@ == old(rlu).pool@[t as int].obj_write_set@[s as int].entries@.update(
                    k as int,
                    WsEntry { copy: d, ..old(rlu).entry(t as int, s as int, k as int) },
                )
            },
            _ => false,
        },
{
    match p {
        Ptr::Actual(i) => {
            rlu.heap[i].data = d;
            proof {
                let r = *rlu;
                assert forall|i2: int| 0 <= i2 < r.heap@.len() implies match #[trigger] r.heap@[i2].p_obj_copy {
                    Ptr::Null => true,
                    Ptr::InWriteSet(t, s, k) => {
                        &&& r.entry_exists(t as int, s as int, k as int)
                        &&& r.entry(t as int, s as int, k as int).p_obj_actual == i2
                        &&& r.pool@[t as int].holds_locks(s as int)
                    },
                    _ => false,
                } by {
                    assert(old(rlu).heap@[i2].p_obj_copy == r.heap@[i2].p_obj_copy);
                }
                assert forall|t: int, s: int, k: int|
                    #![trigger r.pool@[t].obj_write_set@[s].entries@[k]]
                    r.entry_exists(t, s, k) implies {
                        &&& r.entry(t, s, k).p_obj_actual < r.heap@.len()
                        &&& r.entry(t, s, k).thread_id == r.pool@[t].uniq_id
                        &&& r.registered(t)
                        &&& (r.pool@[t].holds_locks(s) ==> r.heap@[r.entry(
                            t,
                            s,
                            k,
                        ).p_obj_actual as int].p_obj_copy == Ptr::InWriteSet(
                            t as usize,
                            s as usize,
                            k as usize,
                        ))
                    } by {
                    assert(old(rlu).entry_exists(t, s, k));
                    assert(old(rlu).heap@[old(rlu).entry(t, s, k).p_obj_actual as int].p_obj_copy == r.heap@[r.entry(t, s, k).p_obj_actual as int].p_obj_copy);
                }
            }
        },
        Ptr::InWriteSet(t, s, k) => {
            rlu.pool[t].obj_write_set[s].entries[k].copy = d;
            proof {
                let r = *rlu;
                assert(r.pool@[t as int].wf()) by {
                    assert(old(rlu).pool@[t as int].wf());
                    assert forall|u: int| 0 <= u < RLU_MAX_WRITE_SETS implies ws_wf(#[trigger] r.pool@[t as int].obj_write_set@[u]) by {
                        assert(ws_wf(old(rlu).pool@[t as int].obj_write_set@[u]));
                    }
                    assert forall|u: int| 0 <= u < RLU_MAX_WRITE_SETS && !r.pool@[t as int].in_window(u) implies ws_clean(#[trigger] r.pool@[t as int].obj_write_set@[u]) by {
                        assert(ws_clean(old(rlu).pool@[t as int].obj_write_set@[u]));
                    }
                }
                assert forall|h2: int| 0 <= h2 < r.pool@.len() implies (#[trigger] r.pool@[h2]).wf() by {
                    assert(old(rlu).pool@[h2].wf());
                }
                assert forall|i2: int| 0 <= i2 < r.heap@.len() implies match #[trigger] r.heap@[i2].p_obj_copy {
                    Ptr::Null => true,
                    Ptr::InWriteSet(t2, s2, k2) => {
                        &&& r.entry_exists(t2 as int, s2 as int, k2 as int)
                        &&& r.entry(t2 as int, s2 as int, k2 as int).p_obj_actual == i2
                        &&& r.pool@[t2 as int].holds_locks(s2 as int)
                    },
                    _ => false,
                } by {
                    match r.heap@[i2].p_obj_copy {
                        Ptr::InWriteSet(t2, s2, k2) => {
                            assert(old(rlu).entry_exists(t2 as int, s2 as int, k2 as int));
                        },
                        _ => {},
                    }
                }
                assert forall|t2: int, s2: int, k2: int|
                    #![trigger r.pool@[t2].obj_write_set@[s2].entries@[k2]]
                    r.entry_exists(t2, s2, k2) implies {
                        &&& r.entry(t2, s2, k2).p_obj_actual < r.heap@.len()
                        &&& r.entry(t2, s2, k2).thread_id == r.pool@[t2].uniq_id
                        &&& r.registered(t2)
                        &&& (r.pool@[t2].holds_locks(s2) ==> r.heap@[r.entry(
                            t2,
                            s2,
                            k2,
                        ).p_obj_actual as int].p_obj_copy == Ptr::InWriteSet(
                            t2 as usize,
                            s2 as usize,
                            k2 as usize,
                        ))
                    } by {
                    assert(old(rlu).entry_exists(t2, s2, k2));
                    assert(old(rlu).pool@[t2].obj_write_set@[s2].entries@[k2].p_obj_actual == r.pool@[t2].obj_write_set@[s2].entries@[k2].p_obj_actual);
                }
            }
        },
        _ => {},
    }
}

/// `b` agrees with `a` on everything the lock bookkeeping depends on:
/// registry, write-set counters, entry targets and owners, object headers.
pub open spec fn same_locking<D>(a: Rlu<D>, b: Rlu<D>) -> bool {
    &&& b.threads == a.threads
    &&& b.cur_threads == a.cur_threads
    &&& b.max_write_sets <= RLU_MAX_WRITE_SETS_LIMIT
    &&& b.writer_locks@.len() == a.writer_locks@.len()
    &&& b.pool@.len() == a.pool@.len()
    &&& b.heap@.len() == a.heap@.len()
    &&& forall|i: int| 0 <= i < a.heap@.len() ==> (#[trigger] b.heap@[i]).p_obj_copy == a.heap@[i].p_obj_copy
    &&& forall|t: int|
        0 <= t < a.pool@.len() ==> {
            &&& (#[trigger] b.pool@[t]).uniq_id == a.pool@[t].uniq_id
            &&& forall|s: int| #[trigger] b.pool@[t].holds_locks(s) == a.pool@[t].holds_locks(s)
            &&& b.pool@[t].obj_write_set@.len() == a.pool@[t].obj_write_set@.len()
            &&& (b.pool@[t].free_nodes == a.pool@[t].free_nodes || b.free_valid(t))
            &&& b.pool@[t].wf()
            &&& (a.pool@[t].settled() ==> b.pool@[t].settled())
        }
    &&& forall|t: int, s: int|
        0 <= t < a.pool@.len() && 0 <= s < a.pool@[t].obj_write_set@.len() ==> (
        #[trigger] b.pool@[t].obj_write_set@[s]).entries@.len()
            == a.pool@[t].obj_write_set@[s].entries@.len()
    &&& forall|t: int, s: int, k: int|
        #![trigger b.pool@[t].obj_write_set@[s].entries@[k]]
        a.entry_exists(t, s, k) ==> {
            &&& b.entry(t, s, k).p_obj_actual == a.entry(t, s, k).p_obj_actual
            &&& b.entry(t, s, k).thread_id == a.entry(t, s, k).thread_id
        }
}

pub proof fn lemma_same_locking_wf<D>(a: Rlu<D>, b: Rlu<D>)
    requires
        a.wf_threads(),
        a.wf_locks(),
        same_locking(a, b),
    ensures
        b.wf_threads(),
        b.wf_locks(),
        a.all_settled() ==> b.all_settled(),
{
    if a.all_settled() {
        assert forall|t: int| 0 <= t < b.pool@.len() implies (#[trigger] b.pool@[t]).settled() by {
            assert(a.pool@[t].settled());
        }
    }
    assert forall|j: int| 0 <= j < b.cur_threads implies (#[trigger] b.threads@[j] matches Some(h)
        && h < b.pool@.len()) by {
        assert(a.threads@[j] matches Some(h) && h < a.pool@.len());
    }
    assert forall|h: int, x: int|
        0 <= h < b.pool@.len() && 0 <= x < b.pool@[h].free_nodes@.len() implies (
        #[trigger] b.pool@[h].free_nodes@[x] matches Ptr::Actual(i) && i < b.heap@.len()) by {
        if b.pool@[h].free_nodes == a.pool@[h].free_nodes {
            assert(a.pool@[h].free_nodes@[x] matches Ptr::Actual(i) && i < a.heap@.len());
        } else {
            assert(b.free_valid(h));
        }
    }
    assert forall|t: int, s: int, k: int| b.entry_exists(t, s, k) == a.entry_exists(t, s, k) by {
        if 0 <= t < a.pool@.len() && 0 <= s < a.pool@[t].obj_write_set@.len() {
            assert(b.pool@[t].obj_write_set@[s].entries@.len() == a.pool@[t].obj_write_set@[s].entries@.len());
        }
    }
    assert forall|t: int| 0 <= t < a.pool@.len() implies b.registered(t) == a.registered(t) by {
        assert(b.pool@[t].uniq_id == a.pool@[t].uniq_id);
    }
    assert forall|t: int, s: int| 0 <= t < a.pool@.len() implies b.pool@[t].holds_locks(s) == a.pool@[t].holds_locks(s) by {
        assert(b.pool@[t].uniq_id == a.pool@[t].uniq_id);
    }
    assert forall|i: int| 0 <= i < b.heap@.len() implies match #[trigger] b.heap@[i].p_obj_copy {
        Ptr::Null => true,
        Ptr::InWriteSet(t, s, k) => {
            &&& b.entry_exists(t as int, s as int, k as int)
            &&& b.entry(t as int, s as int, k as int).p_obj_actual == i
            &&& b.pool@[t as int].holds_locks(s as int)
        },
        _ => false,
    } by {
        assert(b.heap@[i].p_obj_copy == a.heap@[i].p_obj_copy);
        match a.heap@[i].p_obj_copy {
            Ptr::InWriteSet(t, s, k) => {
                assert(a.entry_exists(t as int, s as int, k as int));
                assert(b.pool@[t as int].obj_write_set@[s as int].entries@[k as int].p_obj_actual == a.entry(t as int, s as int, k as int).p_obj_actual);
            },
            _ => {},
        }
    }
    assert forall|t: int, s: int, k: int|
        #![trigger b.pool@[t].obj_write_set@[s].entries@[k]]
        b.entry_exists(t, s, k) implies {
            &&& b.entry(t, s, k).p_obj_actual < b.heap@.len()
            &&& b.entry(t, s, k).thread_id == b.pool@[t].uniq_id
            &&& b.registered(t)
            &&& (b.pool@[t].holds_locks(s) ==> b.heap@[b.entry(
                t,
                s,
                k,
            ).p_obj_actual as int].p_obj_copy == Ptr::InWriteSet(
                t as usize,
                s as usize,
                k as usize,
            ))
        } by {
        assert(a.entry_exists(t, s, k));
        assert(a.pool@[t].obj_write_set@[s].entries@[k].p_obj_actual == b.pool@[t].obj_write_set@[s].entries@[k].p_obj_actual);
        assert(b.heap@[b.entry(t, s, k).p_obj_actual as int].p_obj_copy == a.heap@[a.entry(t, s, k).p_obj_actual as int].p_obj_copy);
    }
}

/// `b` is `a` with only the data block of thread `h` replaced by `th`.
pub open spec fn thread_set<D>(a: Rlu<D>, b: Rlu<D>, h: int, th: rlu_thread_data_t<D>) -> bool {
    &&& b.pool@ == a.pool@.update(h, th)
    &&& b == Rlu { pool: b.pool, ..a }
}

/// Clears the write-detected flag and sets the steal and check-locks flags.
fn rlu_reset<D: Copy>(rlu: &mut Rlu<D>, h: usize)
    requires
        old(rlu).wf(),
        h < old(rlu).pool@.len(),
    ensures
        final(rlu).wf(),
        thread_set(*old(rlu), *final(rlu), h as int, rlu_thread_data_t {
            is_write_detected: 0,
            is_steal: 1,
            is_check_locks: 1,
            ..old(rlu).pool@[h as int]
        }),
{
    rlu.pool[h].is_write_detected = 0;
    rlu.pool[h].is_steal = 1;
    rlu.pool[h].is_check_locks = 1;
    proof {
        assert(rlu.pool@ =~= old(rlu).pool@.update(h as int, rlu.pool@[h as int]));
        lemma_same_locking_wf(*old(rlu), *rlu);
    }
}

/// Enters a section: bumps the run counter (odd while inside) and takes the
/// global versions.
fn rlu_register_thread<D: Copy>(rlu: &mut Rlu<D>, h: usize)
    requires
        old(rlu).wf(),
        h < old(rlu).pool@.len(),
    ensures
        final(rlu).wf(),
        thread_set(*old(rlu), *final(rlu), h as int, rlu_thread_data_t {
            run_counter: inc_usize(old(rlu).pool@[h as int].run_counter),
            local_version: old(rlu).writer_version as u32,
            local_commit_version: old(rlu).commit_version as u32,
            ..old(rlu).pool@[h as int]
        }),
{
    rlu.pool[h].run_counter = rlu.pool[h].run_counter.wrapping_add(1);
    rlu.pool[h].local_version = #[verifier::truncate] (rlu.writer_version as u32);
    rlu.pool[h].local_commit_version = #[verifier::truncate] (rlu.commit_version as u32);
    proof {
        assert(rlu.pool@ =~= old(rlu).pool@.update(h as int, rlu.pool@[h as int]));
        lemma_same_locking_wf(*old(rlu), *rlu);
    }
}

/// Leaves a section: bumps the run counter (even while outside).
fn rlu_unregister_thread<D: Copy>(rlu: &mut Rlu<D>, h: usize)
    requires
        old(rlu).wf(),
        h < old(rlu).pool@.len(),
    ensures
        final(rlu).wf(),
        thread_set(*old(rlu), *final(rlu), h as int, rlu_thread_data_t {
            run_counter: inc_usize(old(rlu).pool@[h as int].run_counter),
            ..old(rlu).pool@[h as int]
        }),
{
    rlu.pool[h].run_counter = rlu.pool[h].run_counter.wrapping_add(1);
    proof {
        lemma_same_locking_wf(*old(rlu), *rlu);
    }
}

/// Asks the thread with id `th_id` to synchronize.
fn rlu_send_sync_request<D: Copy>(rlu: &mut Rlu<D>, th_id: usize)
    requires
        old(rlu).wf(),
        th_id < old(rlu).cur_threads,
    ensures
        final(rlu).wf(),
        old(rlu).threads@[th_id as int] matches Some(h) && thread_set(*old(rlu), *final(rlu), h as int, rlu_thread_data_t {
            is_sync: inc32(old(rlu).pool@[h as int].is_sync),
            ..old(rlu).pool@[h as int]
        }),
{
    let h = rlu.threads[th_id].unwrap();
    rlu.pool[h].is_sync = rlu.pool[h].is_sync.wrapping_add(1);
    proof {
        lemma_same_locking_wf(*old(rlu), *rlu);
    }
}

/// Frees writer lock `writer_lock_id`.
fn rlu_release_writer_lock<D: Copy>(rlu: &mut Rlu<D>, writer_lock_id: usize)
    requires
        writer_lock_id < old(rlu).writer_locks@.len(),
    ensures
        final(rlu).writer_locks@ == old(rlu).writer_locks@.update(writer_lock_id as int, 0),
        *final(rlu) == (Rlu { writer_locks: final(rlu).writer_locks, ..*old(rlu) }),
{
    rlu.writer_locks.set(writer_lock_id, 0);
}

/// Frees every writer lock recorded in write set `ws_id` of thread `h`.
fn rlu_release_writer_locks<D: Copy>(rlu: &mut Rlu<D>, h: usize, ws_id: usize)
    requires
        h < old(rlu).pool@.len(),
        old(rlu).pool@[h as int].wf(),
        old(rlu).writer_locks@.len() == RLU_MAX_WRITER_LOCKS,
        ws_id < RLU_MAX_WRITE_SETS,
    ensures
        released(*old(rlu), *final(rlu), h as int, ws_id as int),
{
    let ghost ids = rlu.pool@[h as int].obj_write_set@[ws_id as int].writer_locks@;
    proof {
        assert(ws_wf(rlu.pool@[h as int].obj_write_set@[ws_id as int]));
    }
    let n = rlu.pool[h].obj_write_set[ws_id].writer_locks.len();
    for i in 0..n
        invariant
            h < rlu.pool@.len(),
            ws_id < RLU_MAX_WRITE_SETS,
            rlu.pool@[h as int].wf(),
            *rlu == (Rlu { writer_locks: rlu.writer_locks, ..*old(rlu) }),
            ids == rlu.pool@[h as int].obj_write_set@[ws_id as int].writer_locks@,
            n == ids.len(),
            rlu.writer_locks@.len() == old(rlu).writer_locks@.len(),
            rlu.writer_locks@.len() == RLU_MAX_WRITER_LOCKS,
            forall|j: int|
                0 <= j < old(rlu).writer_locks@.len() ==> #[trigger] rlu.writer_locks@[j] == if listed_before(ids, i as int, j) {
                    0
                } else {
                    old(rlu).writer_locks@[j]
                },
    {
        proof {
            assert(ws_wf(rlu.pool@[h as int].obj_write_set@[ws_id as int]));
            assert(ids[i as int] < RLU_MAX_WRITER_LOCKS);
        }
        let id = rlu.pool[h].obj_write_set[ws_id].writer_locks[i];
        rlu_release_writer_lock(rlu, id);
        proof {
            assert forall|j: int| 0 <= j < old(rlu).writer_locks@.len() implies #[trigger] rlu.writer_locks@[j] == if listed_before(ids, i + 1, j) {
                0
            } else {
                old(rlu).writer_locks@[j]
            } by {
                if j == id {
                    assert(ids[i as int] == id);
                }
                if listed_before(ids, i + 1, j) && j != id {
                    let x = choose|x: int| 0 <= x < i + 1 && #[trigger] ids[x] == j;
                    assert(x < i);
                }
            }
        }
    }
    proof {
        assert forall|j: int| 0 <= j < old(rlu).writer_locks@.len() implies listed_before(ids, n as int, j) == ids.contains(j as usize) by {
            if ids.contains(j as usize) {
                let x = choose|x: int| 0 <= x < ids.len() && ids[x] == j as usize;
                assert(ids[x] == j);
            }
        }
    }
}

/// Some of the first `i` ids of `ids` is `j`.
pub open spec fn listed_before(ids: Seq<usize>, i: int, j: int) -> bool {
    exists|x: int| 0 <= x < i && #[trigger] ids[x] == j
}

/// Records writer lock `writer_lock_id` in the current write set of `h`.
fn rlu_add_writer_lock<D: Copy>(rlu: &mut Rlu<D>, h: usize, writer_lock_id: usize)
    requires
        old(rlu).wf(),
        h < old(rlu).pool@.len(),
        writer_lock_id < RLU_MAX_WRITER_LOCKS,
        old(rlu).pool@[h as int].obj_write_set@[old(rlu).pool@[h as int].ws_cur_id as int].writer_locks@.len()
            < RLU_MAX_WS_WRITER_LOCKS,
    ensures
        final(rlu).wf(),
        only_thread_changed(*old(rlu), *final(rlu), h as int),
        only_ws_changed(old(rlu).pool@[h as int], final(rlu).pool@[h as int], old(rlu).pool@[h as int].ws_cur_id as int),
        final(rlu).pool@[h as int].obj_write_set@[old(rlu).pool@[h as int].ws_cur_id as int] == (obj_list_t {
            writer_locks: final(rlu).pool@[h as int].obj_write_set@[old(rlu).pool@[h as int].ws_cur_id as int].writer_locks,
            ..old(rlu).pool@[h as int].obj_write_set@[old(rlu).pool@[h as int].ws_cur_id as int]
        }),
        final(rlu).pool@[h as int].obj_write_set@[old(rlu).pool@[h as int].ws_cur_id as int].writer_locks@
            == old(rlu).pool@[h as int].obj_write_set@[old(rlu).pool@[h as int].ws_cur_id as int].writer_locks@.push(writer_lock_id),
{
    let cur = rlu.pool[h].ws_cur_id;
    proof {
        assert(rlu.pool@[h as int].wf());
    }
    rlu.pool[h].obj_write_set[cur].writer_locks.push(writer_lock_id);
    proof {
        let r = *rlu;
        assert(r.pool@[h as int].obj_write_set@ =~= old(rlu).pool@[h as int].obj_write_set@.update(cur as int, r.pool@[h as int].obj_write_set@[cur as int]));
        assert(r.pool@ =~= old(rlu).pool@.update(h as int, r.pool@[h as int]));
        let th = r.pool@[h as int];
        let oth = old(rlu).pool@[h as int];
        assert(oth.wf());
        assert forall|u: int| 0 <= u < RLU_MAX_WRITE_SETS implies ws_wf(#[trigger] th.obj_write_set@[u]) by {
            assert(ws_wf(oth.obj_write_set@[u]));
            if u == cur {
                assert forall|i: int| 0 <= i < th.obj_write_set@[u].writer_locks@.len() implies #[trigger] th.obj_write_set@[u].writer_locks@[i] < RLU_MAX_WRITER_LOCKS by {
                    if i < oth.obj_write_set@[u].writer_locks@.len() {
                        assert(oth.obj_write_set@[u].writer_locks@[i] < RLU_MAX_WRITER_LOCKS);
                    }
                }
            }
        }
        assert forall|u: int| 0 <= u < RLU_MAX_WRITE_SETS && !th.in_window(u) implies ws_clean(#[trigger] th.obj_write_set@[u]) by {
            assert(ws_clean(oth.obj_write_set@[u]));
            if u == cur {
                assert(th.in_window(u)) by {
                    assert(th.offset(u) == th.ws_tail_counter - th.ws_head_counter) by {
                        lemma_offset_of_counter(th, th.ws_tail_counter as int);
                    }
                }
            }
        }
        assert(th.wf());
        lemma_same_locking_wf(*old(rlu), r);
    }
}

/// The offset of the slot of a counter in the window is its distance from
/// the head counter.
pub proof fn lemma_offset_of_counter<D>(th: rlu_thread_data_t<D>, c: int)
    requires
        th.ws_head_counter <= c < th.ws_head_counter + RLU_MAX_WRITE_SETS,
    ensures
        th.offset(slot(c)) == c - th.ws_head_counter,
{
    let hd = th.ws_head_counter as int;
    let d = c - hd;
    assert(0 <= d < 200);
    assert((c % 200 - hd % 200 + 200) % 200 == d) by (nonlinear_arith)
        requires
            c == hd + d,
            0 <= d < 200,
            hd >= 0,
    {
        vstd::arithmetic::div_mod::lemma_fundamental_div_mod(hd, 200);
        vstd::arithmetic::div_mod::lemma_fundamental_div_mod(c, 200);
    }
}

/// Takes writer lock `writer_lock_id` if it is free.
fn rlu_try_acquire_writer_lock<D: Copy>(rlu: &mut Rlu<D>, h: usize, writer_lock_id: usize) -> (r: Option<u32>)
    requires
        old(rlu).wf(),
        h < old(rlu).pool@.len(),
        writer_lock_id < RLU_MAX_WRITER_LOCKS,
        old(rlu).pool@[h as int].uniq_id < usize::MAX,
    ensures
        final(rlu).wf(),
        if old(rlu).writer_locks@[writer_lock_id as int] == 0 {
            &&& r == Some(1u32)
            &&& final(rlu).writer_locks@ == old(rlu).writer_locks@.update(writer_lock_id as int, (old(rlu).pool@[h as int].uniq_id + 1) as usize)
            &&& *final(rlu) == (Rlu { writer_locks: final(rlu).writer_locks, ..*old(rlu) })
        } else {
            &&& r is None
            &&& *final(rlu) == *old(rlu)
        },
{
    let cur_lock = rlu.writer_locks[writer_lock_id];
    let lock_id = LOCK_ID(rlu.pool[h].uniq_id);
    if cur_lock == 0 {
        rlu.writer_locks.set(writer_lock_id, lock_id);
        proof {
            lemma_same_locking_wf(*old(rlu), *rlu);
        }
        Some(1)
    } else {
        None
    }
}

/// Takes writer lock `writer_lock_id` if it is free and records it in the
/// current write set: 1 on success, 0 if the lock is held.
pub fn rlu_try_writer_lock<D: Copy>(rlu: &mut Rlu<D>, h: usize, writer_lock_id: usize) -> (r: u32)
    requires
        old(rlu).wf(),
        h < old(rlu).pool@.len(),
        writer_lock_id < RLU_MAX_WRITER_LOCKS,
        old(rlu).pool@[h as int].uniq_id < usize::MAX,
        old(rlu).writer_locks@[writer_lock_id as int] == 0 ==> old(rlu).pool@[h as int].obj_write_set@[old(rlu).pool@[h as int].ws_cur_id as int].writer_locks@.len()
            < RLU_MAX_WS_WRITER_LOCKS,
    ensures
        final(rlu).wf(),
        if old(rlu).writer_locks@[writer_lock_id as int] == 0 {
            let cur = old(rlu).pool@[h as int].ws_cur_id as int;
            &&& r == 1
            &&& final(rlu).writer_locks@ == old(rlu).writer_locks@.update(writer_lock_id as int, (old(rlu).pool@[h as int].uniq_id + 1) as usize)
            &&& final(rlu).pool@.len() == old(rlu).pool@.len()
            &&& forall|t: int| 0 <= t < old(rlu).pool@.len() && t != h ==> #[trigger] final(rlu).pool@[t] == old(rlu).pool@[t]
            &&& only_ws_changed(old(rlu).pool@[h as int], final(rlu).pool@[h as int], cur)
            &&& final(rlu).pool@[h as int].obj_write_set@[cur].writer_locks@ == old(rlu).pool@[h as int].obj_write_set@[cur].writer_locks@.push(writer_lock_id)
            &&& final(rlu).pool@[h as int].obj_write_set@[cur] == (obj_list_t {
                writer_locks: final(rlu).pool@[h as int].obj_write_set@[cur].writer_locks,
                ..old(rlu).pool@[h as int].obj_write_set@[cur]
            })
            &&& *final(rlu) == (Rlu { writer_locks: final(rlu).writer_locks, pool: final(rlu).pool, ..*old(rlu) })
        } else {
            &&& r == 0
            &&& *final(rlu) == *old(rlu)
        },
{
    match rlu_try_acquire_writer_lock(rlu, h, writer_lock_id) {
        Some(_) => {
            rlu_add_writer_lock(rlu, h, writer_lock_id);
            1
        },
        None => 0,
    }
}

/// The header of what `p_obj` points to: the copy pointer of an object,
/// the copy mark of a copy.
fn GET_COPY<D: Copy>(rlu: &Rlu<D>, p_obj: Ptr) -> (r: Ptr)
    requires
        rlu.valid_ptr(p_obj),
    ensures
        r == rlu.header(p_obj),
{
    match p_obj {
        Ptr::Actual(i) => rlu.heap[i].p_obj_copy,
        _ => Ptr::CopyMark,
    }
}

/// The object a copy was made of.
fn GET_ACTUAL<D: Copy>(rlu: &Rlu<D>, p_obj_copy: Ptr) -> (r: Ptr)
    requires
        rlu.valid_ptr(p_obj_copy),
        p_obj_copy is InWriteSet,
    ensures
        r == rlu.actual_of(p_obj_copy),
{
    match p_obj_copy {
        Ptr::InWriteSet(t, s, k) => Ptr::Actual(rlu.pool[t].obj_write_set[s].entries[k].p_obj_actual),
        _ => p_obj_copy,
    }
}

/// The id of the thread whose write set holds a copy.
fn WS_GET_THREAD_ID<D: Copy>(rlu: &Rlu<D>, p_obj_copy: Ptr) -> (r: usize)
    requires
        rlu.valid_ptr(p_obj_copy),
        p_obj_copy is InWriteSet,
    ensures
        p_obj_copy matches Ptr::InWriteSet(t, s, k) && r == rlu.entry(t as int, s as int, k as int).thread_id,
{
    match p_obj_copy {
        Ptr::InWriteSet(t, s, k) => rlu.pool[t].obj_write_set[s].entries[k].thread_id,
        _ => 0,
    }
}

/// The run counter of the section that made a copy.
fn WS_GET_RUN_COUNTER<D: Copy>(rlu: &Rlu<D>, p_obj_copy: Ptr) -> (r: usize)
    requires
        rlu.valid_ptr(p_obj_copy),
        p_obj_copy is InWriteSet,
    ensures
        p_obj_copy matches Ptr::InWriteSet(t, s, k) && r == rlu.entry(t as int, s as int, k as int).run_counter,
{
    match p_obj_copy {
        Ptr::InWriteSet(t, s, k) => rlu.pool[t].obj_write_set[s].entries[k].run_counter,
        _ => 0,
    }
}

/// Whether `p_obj` points to a copy.
fn IS_COPY<D: Copy>(rlu: &Rlu<D>, p_obj: Ptr) -> (r: bool)
    requires
        rlu.valid_ptr(p_obj),
        !(rlu.header(p_obj) is CopyMark) || p_obj is InWriteSet,
    ensures
        r == (p_obj is InWriteSet),
{
    PTR_IS_COPY(GET_COPY(rlu, p_obj))
}

/// The object `p_obj` stands for: the object itself, or the one a copy was
/// made of.
pub fn FORCE_ACTUAL<D: Copy>(rlu: &Rlu<D>, p_obj: Ptr) -> (r: Ptr)
    requires
        rlu.valid_ptr(p_obj),
        rlu.wf(),
    ensures
        r == rlu.actual_of(p_obj),
{
    proof {
        if let Ptr::Actual(i) = p_obj {
            assert(rlu.heap@[i as int].p_obj_copy == rlu.header(p_obj));
        }
    }
    if IS_COPY(rlu, p_obj) {
        GET_ACTUAL(rlu, p_obj)
    } else {
        p_obj
    }
}

/// Clears the copy pointer of object `i`.
fn UNLOCK<D: Copy>(rlu: &mut Rlu<D>, i: usize)
    requires
        i < old(rlu).heap@.len(),
    ensures
        final(rlu).heap@ == old(rlu).heap@.update(i as int, HeapObj { p_obj_copy: Ptr::Null, ..old(rlu).heap@[i as int] }),
        *final(rlu) == (Rlu { heap: final(rlu).heap, ..*old(rlu) }),
{
    rlu.heap[i].p_obj_copy = Ptr::Null;
}

/// Installs `new_ptr_obj_copy` as the copy pointer of object `p_obj` if it
/// has none; tells whether it did.
fn TRY_CAS_PTR_OBJ_COPY<D: Copy>(rlu: &mut Rlu<D>, p_obj: Ptr, new_ptr_obj_copy: Ptr) -> (r: bool)
    requires
        p_obj matches Ptr::Actual(i) && i < old(rlu).heap@.len(),
    ensures
        p_obj matches Ptr::Actual(i) && if old(rlu).heap@[i as int].p_obj_copy is Null {
            &&& r
            &&& final(rlu).heap@ == old(rlu).heap@.update(i as int, HeapObj { p_obj_copy: new_ptr_obj_copy, ..old(rlu).heap@[i as int] })
            &&& *final(rlu) == (Rlu { heap: final(rlu).heap, ..*old(rlu) })
        } else {
            &&& !r
            &&& *final(rlu) == *old(rlu)
        },
{
    match p_obj {
        Ptr::Actual(i) => {
            let val = rlu.heap[i].p_obj_copy;
            match val {
                Ptr::Null => {
                    rlu.heap[i].p_obj_copy = new_ptr_obj_copy;
                    true
                },
                _ => false,
            }
        },
        _ => false,
    }
}

/// Appends to the current write set of `h` the header of a copy of object
/// `p_obj`, and returns where the copy goes.
fn rlu_add_ws_obj_header_to_write_set<D: Copy>(rlu: &mut Rlu<D>, h: usize, p_obj: Ptr, obj_size: usize) -> (r: Ptr)
    requires
        h < old(rlu).pool@.len(),
        old(rlu).pool@[h as int].wf(),
        p_obj matches Ptr::Actual(i) && i < old(rlu).heap@.len(),
    ensures
        ({
            let cur = old(rlu).pool@[h as int].ws_cur_id as int;
            let ws = old(rlu).pool@[h as int].obj_write_set@[cur];
            &&& r == Ptr::InWriteSet(h, cur as usize, ws.entries@.len() as usize)
            &&& only_thread_changed(*old(rlu), *final(rlu), h as int)
            &&& only_ws_changed(old(rlu).pool@[h as int], final(rlu).pool@[h as int], cur)
            &&& final(rlu).pool@[h as int].obj_write_set@[cur] == (obj_list_t {
                entries: final(rlu).pool@[h as int].obj_write_set@[cur].entries,
                used: (ws.used + WS_OBJ_HEADER_SIZE + OBJ_HEADER_SIZE) as usize,
                ..ws
            })
            &&& p_obj matches Ptr::Actual(i) && final(rlu).pool@[h as int].obj_write_set@[cur].entries@ == ws.entries@.push(WsEntry {
                p_obj_actual: i,
                obj_size: obj_size,
                run_counter: old(rlu).pool@[h as int].run_counter,
                thread_id: old(rlu).pool@[h as int].uniq_id,
                copy: old(rlu).heap@[i as int].data,
            })
        }),
{
    let cur = rlu.pool[h].ws_cur_id;
    let i = match p_obj {
        Ptr::Actual(i) => i,
        _ => 0,
    };
    let k = rlu.pool[h].obj_write_set[cur].entries.len();
    let e = WsEntry {
        p_obj_actual: i,
        obj_size: obj_size,
        run_counter: rlu.pool[h].run_counter,
        thread_id: rlu.pool[h].uniq_id,
        copy: rlu.heap[i].data,
    };
    proof {
        assert(ws_wf(rlu.pool@[h as int].obj_write_set@[cur as int]));
    }
    rlu.pool[h].obj_write_set[cur].entries.push(e);
    rlu.pool[h].obj_write_set[cur].used = rlu.pool[h].obj_write_set[cur].used + WS_OBJ_HEADER_SIZE + OBJ_HEADER_SIZE;
    proof {
        assert(rlu.pool@[h as int].obj_write_set@ =~= old(rlu).pool@[h as int].obj_write_set@.update(cur as int, rlu.pool@[h as int].obj_write_set@[cur as int]));
        assert(rlu.pool@ =~= old(rlu).pool@.update(h as int, rlu.pool@[h as int]));
    }
    Ptr::InWriteSet(h, cur, k)
}

/// Copies object `p_obj` into the entry just appended to the current write
/// set of `h`, and counts the entry.
fn rlu_add_obj_copy_to_write_set<D: Copy>(rlu: &mut Rlu<D>, h: usize, p_obj: Ptr, obj_size: usize)
    requires
        h < old(rlu).pool@.len(),
        old(rlu).pool@[h as int].ws_cur_id < old(rlu).pool@[h as int].obj_write_set@.len(),
        p_obj matches Ptr::Actual(i) && i < old(rlu).heap@.len(),
        obj_size <= usize::MAX - 7,
        ({
            let ws = old(rlu).pool@[h as int].obj_write_set@[old(rlu).pool@[h as int].ws_cur_id as int];
            &&& ws.entries@.len() == ws.num_of_objs + 1
            &&& ws.num_of_objs < RLU_MAX_WRITE_SET_BUFFER_SIZE
            &&& ws.used + align8(obj_size as int) < RLU_MAX_WRITE_SET_BUFFER_SIZE
        }),
    ensures
        ({
            let cur = old(rlu).pool@[h as int].ws_cur_id as int;
            let ws = old(rlu).pool@[h as int].obj_write_set@[cur];
            let k = ws.num_of_objs as int;
            &&& only_thread_changed(*old(rlu), *final(rlu), h as int)
            &&& only_ws_changed(old(rlu).pool@[h as int], final(rlu).pool@[h as int], cur)
            &&& final(rlu).pool@[h as int].obj_write_set@[cur] == (obj_list_t {
                entries: final(rlu).pool@[h as int].obj_write_set@[cur].entries,
                used: (ws.used + align8(obj_size as int)) as usize,
                num_of_objs: (ws.num_of_objs + 1) as u32,
                ..ws
            })
            &&& p_obj matches Ptr::Actual(i) && final(rlu).pool@[h as int].obj_write_set@[cur].entries@ == ws.entries@.update(
                k,
                WsEntry { copy: old(rlu).heap@[i as int].data, ..ws.entries@[k] },
            )
        }),
{
    let cur = rlu.pool[h].ws_cur_id;
    let i = match p_obj {
        Ptr::Actual(i) => i,
        _ => 0,
    };
    let k = rlu.pool[h].obj_write_set[cur].num_of_objs as usize;
    rlu.pool[h].obj_write_set[cur].entries[k].copy = rlu.heap[i].data;
    let aligned = ALIGN_OBJ_SIZE(obj_size);
    rlu.pool[h].obj_write_set[cur].used = rlu.pool[h].obj_write_set[cur].used + aligned;
    rlu.pool[h].obj_write_set[cur].num_of_objs = rlu.pool[h].obj_write_set[cur].num_of_objs + 1;
    proof {
        assert(rlu.pool@[h as int].obj_write_set@ =~= old(rlu).pool@[h as int].obj_write_set@.update(cur as int, rlu.pool@[h as int].obj_write_set@[cur as int]));
        assert(rlu.pool@ =~= old(rlu).pool@.update(h as int, rlu.pool@[h as int]));
    }
}

impl<D> Rlu<D> {
    /// Heap index of the object a valid pointer stands for.
    pub open spec fn target(self, p: Ptr) -> int {
        match self.actual_of(p) {
            Ptr::Actual(i) => i as int,
            _ => -1,
        }
    }

    /// Taking `p` for thread `h` would copy the object into the current
    /// write set, and the copy fits in its buffer.
    pub open spec fn lock_fits(self, h: int, p: Ptr, obj_size: int) -> bool {
        let ws = self.pool@[h].obj_write_set@[self.pool@[h].ws_cur_id as int];
        self.heap@[self.target(p)].p_obj_copy is Null ==> ws.used + WS_OBJ_HEADER_SIZE + OBJ_HEADER_SIZE
            + align8(obj_size) < RLU_MAX_WRITE_SET_BUFFER_SIZE
    }
}

/// `b` is `a` with thread `h` holding object `i`: a copy of it appended to
/// its current write set, the object's header naming that copy, and the
/// write flags set.
pub open spec fn locked_by<D>(a: Rlu<D>, b: Rlu<D>, h: int, i: int, obj_size: int) -> bool {
    let th = a.pool@[h];
    let cur = th.ws_cur_id as int;
    let ws = th.obj_write_set@[cur];
    let c = Ptr::InWriteSet(h as usize, cur as usize, ws.entries@.len() as usize);
    &&& b == Rlu { heap: b.heap, pool: b.pool, ..a }
    &&& b.heap@ == a.heap@.update(i, HeapObj { p_obj_copy: c, ..a.heap@[i] })
    &&& b.pool@.len() == a.pool@.len()
    &&& forall|t: int| 0 <= t < a.pool@.len() && t != h ==> #[trigger] b.pool@[t] == a.pool@[t]
    &&& b.pool@[h] == rlu_thread_data_t {
        is_write_detected: if th.is_write_detected == 0 { 1 } else { th.is_write_detected },
        is_check_locks: if th.is_write_detected == 0 { 1 } else { th.is_check_locks },
        obj_write_set: b.pool@[h].obj_write_set,
        ..th
    }
    &&& b.pool@[h].obj_write_set@.len() == th.obj_write_set@.len()
    &&& forall|u: int| 0 <= u < th.obj_write_set@.len() && u != cur ==> #[trigger] b.pool@[h].obj_write_set@[u] == th.obj_write_set@[u]
    &&& b.pool@[h].obj_write_set@[cur] == (obj_list_t {
        entries: b.pool@[h].obj_write_set@[cur].entries,
        used: (ws.used + WS_OBJ_HEADER_SIZE + OBJ_HEADER_SIZE + align8(obj_size)) as usize,
        num_of_objs: (ws.num_of_objs + 1) as u32,
        ..ws
    })
    &&& b.pool@[h].obj_write_set@[cur].entries@ == ws.entries@.push(WsEntry {
        p_obj_actual: i as usize,
        obj_size: obj_size as usize,
        run_counter: th.run_counter,
        thread_id: th.uniq_id,
        copy: a.heap@[i].data,
    })
}

/// The outcome `r` of thread `h` trying to lock what `p` stands for, from
/// state `a` to state `b`, `p` becoming `q`: the copy when this very
/// section holds the object already; a request to synchronize (to the
/// holder, and to itself) and 0 when another section holds it; else a fresh
/// copy in the current write set, installed in the object's header.
pub open spec fn try_locked<D>(a: Rlu<D>, b: Rlu<D>, h: int, p: Ptr, q: Ptr, obj_size: int, r: u32) -> bool {
    ({
            let i = a.target(p);
            let th = a.pool@[h as int];
            match a.heap@[i].p_obj_copy {
                Ptr::InWriteSet(t, s, k) => {
                    let e = a.entry(t as int, s as int, k as int);
                    if e.thread_id == th.uniq_id && th.run_counter == e.run_counter {
                        &&& r == 1
                        &&& q == Ptr::InWriteSet(t, s, k)
                        &&& b == a
                    } else if e.thread_id == th.uniq_id {
                        &&& r == 0
                        &&& q == p
                        &&& thread_set(a, b, h as int, rlu_thread_data_t { is_sync: inc32(th.is_sync), ..th })
                    } else {
                        let o = a.threads@[e.thread_id as int]->0 as int;
                        &&& r == 0
                        &&& q == p
                        &&& o != h
                        &&& b.pool@ == a.pool@.update(
                            o,
                            rlu_thread_data_t { is_sync: inc32(a.pool@[o].is_sync), ..a.pool@[o] },
                        ).update(h as int, rlu_thread_data_t { is_sync: inc32(th.is_sync), ..th })
                        &&& b == (Rlu { pool: b.pool, ..a })
                    }
                },
                _ => {
                    let cur = th.ws_cur_id;
                    &&& r == 1
                    &&& q == Ptr::InWriteSet(h as usize, cur, th.obj_write_set@[cur as int].entries@.len() as usize)
                    &&& locked_by(a, b, h as int, i, obj_size as int)
                },
            }
        })
}

/// Thread `h` tries to lock the object `*p_p_obj` stands for. On success
/// (1) `*p_p_obj` points to the thread's copy; it fails (0) when another
/// section holds the object, and then asks for a synchronization.
fn rlu_try_lock<D: Copy>(rlu: &mut Rlu<D>, h: usize, p_p_obj: &mut Ptr, obj_size: usize) -> (r: u32)
    requires
        old(rlu).wf(),
        old(rlu).registered(h as int),
        old(rlu).valid_ptr(*old(p_p_obj)),
        obj_size <= usize::MAX - 7,
        old(rlu).lock_fits(h as int, *old(p_p_obj), obj_size as int),
    ensures
        final(rlu).wf(),
        try_locked(*old(rlu), *final(rlu), h as int, *old(p_p_obj), *final(p_p_obj), obj_size as int, r),
{
    let ghost i = rlu.target(*p_p_obj);
    proof {
        match *p_p_obj {
            Ptr::Actual(j) => {
                assert(rlu.heap@[j as int].p_obj_copy == rlu.header(*p_p_obj));
            },
            Ptr::InWriteSet(t, s, k) => {
                assert(rlu.entry_exists(t as int, s as int, k as int));
            },
            _ => {},
        }
    }
    let mut p_obj = *p_p_obj;
    let mut p_obj_copy = GET_COPY(rlu, p_obj);
    if PTR_IS_COPY(p_obj_copy) {
        p_obj = GET_ACTUAL(rlu, p_obj);
        p_obj_copy = GET_COPY(rlu, p_obj);
    }
    assert(p_obj == Ptr::Actual(i as usize));
    assert(p_obj_copy == rlu.heap@[i].p_obj_copy);
    if PTR_IS_LOCKED(GET_COPY(rlu, p_obj)) {
        proof {
            assert(rlu.heap@[i].p_obj_copy is InWriteSet);
        }
        let th_id = WS_GET_THREAD_ID(rlu, p_obj_copy);
        if th_id == rlu.pool[h].uniq_id {
            if rlu.pool[h].run_counter == WS_GET_RUN_COUNTER(rlu, p_obj_copy) {
                *p_p_obj = p_obj_copy;
                return 1;
            }
            rlu.pool[h].is_sync = rlu.pool[h].is_sync.wrapping_add(1);
            proof {
                assert(rlu.pool@ =~= old(rlu).pool@.update(h as int, rlu.pool@[h as int]));
                lemma_same_locking_wf(*old(rlu), *rlu);
            }
            return 0;
        }
        rlu_send_sync_request(rlu, th_id);
        let ghost mid = *rlu;
        rlu.pool[h].is_sync = rlu.pool[h].is_sync.wrapping_add(1);
        proof {
            assert(rlu.pool@ =~= mid.pool@.update(h as int, rlu.pool@[h as int]));
            lemma_same_locking_wf(mid, *rlu);
        }
        return 0;
    }
    if rlu.pool[h].is_write_detected == 0 {
        rlu.pool[h].is_write_detected = 1;
        rlu.pool[h].is_check_locks = 1;
    }
    let ghost flagged = *rlu;
    proof {
        assert(rlu.pool@ =~= old(rlu).pool@.update(h as int, rlu.pool@[h as int]));
        lemma_same_locking_wf(*old(rlu), *rlu);
        assert(rlu.pool@[h as int].wf());
    }
    p_obj_copy = rlu_add_ws_obj_header_to_write_set(rlu, h, p_obj, obj_size);
    if !TRY_CAS_PTR_OBJ_COPY(rlu, p_obj, p_obj_copy) {
        assert(false);
        return 0;
    }
    proof {
        let th = flagged.pool@[h as int];
        assert(th.wf());
        assert(ws_wf(th.obj_write_set@[th.ws_cur_id as int]));
    }
    rlu_add_obj_copy_to_write_set(rlu, h, p_obj, obj_size);
    proof {
        let a = *old(rlu);
        let b = *rlu;
        let th = a.pool@[h as int];
        let cur = th.ws_cur_id as int;
        let ws = th.obj_write_set@[cur];
        assert(b.pool@[h as int].obj_write_set@[cur].entries@ =~= ws.entries@.push(WsEntry {
            p_obj_actual: i as usize,
            obj_size: obj_size,
            run_counter: th.run_counter,
            thread_id: th.uniq_id,
            copy: a.heap@[i].data,
        }));
        assert(b.pool@[h as int].obj_write_set@ =~= th.obj_write_set@.update(cur, b.pool@[h as int].obj_write_set@[cur]));
        assert(b.pool@ =~= a.pool@.update(h as int, b.pool@[h as int]));
        let c = Ptr::InWriteSet(h as usize, cur as usize, ws.entries@.len() as usize);
        assert(b == Rlu { heap: b.heap, pool: b.pool, ..a });
        assert(b.heap@ == a.heap@.update(i, HeapObj { p_obj_copy: c, ..a.heap@[i] }));
        assert(b.pool@[h as int] == rlu_thread_data_t {
            is_write_detected: if th.is_write_detected == 0 { 1 } else { th.is_write_detected },
            is_check_locks: if th.is_write_detected == 0 { 1 } else { th.is_check_locks },
            obj_write_set: b.pool@[h as int].obj_write_set,
            ..th
        });
        assert(b.pool@[h as int].obj_write_set@[cur] == (obj_list_t {
            entries: b.pool@[h as int].obj_write_set@[cur].entries,
            used: (ws.used + WS_OBJ_HEADER_SIZE + OBJ_HEADER_SIZE + align8(obj_size as int)) as usize,
            num_of_objs: (ws.num_of_objs + 1) as u32,
            ..ws
        }));
        assert(locked_by(a, b, h as int, i, obj_size as int));
        lemma_lock_keeps_wf(a, b, h as int, i, obj_size as int);
    }
    *p_p_obj = p_obj_copy;
    1
}

/// Locking a free object keeps the locking thread's data well formed.
proof fn lemma_lock_keeps_thread_wf<D>(a: Rlu<D>, b: Rlu<D>, h: int, i: int, obj_size: int)
    requires
        a.wf(),
        0 <= i < a.heap@.len(),
        0 <= h < a.pool@.len(),
        obj_size >= 0,
        locked_by(a, b, h, i, obj_size),
        a.pool@[h].obj_write_set@[a.pool@[h].ws_cur_id as int].used + WS_OBJ_HEADER_SIZE + OBJ_HEADER_SIZE
            + align8(obj_size) < RLU_MAX_WRITE_SET_BUFFER_SIZE,
    ensures
        b.pool@[h].wf(),
        forall|t: int| 0 <= t < b.pool@.len() ==> (#[trigger] b.pool@[t]).wf(),
        b.wf_threads(),
{
    let th = a.pool@[h];
    let nth = b.pool@[h];
    let cur = th.ws_cur_id as int;
    let ws = th.obj_write_set@[cur];
    assert(th.wf());
    assert(ws_wf(ws));
    assert(th.offset(cur) == th.ws_tail_counter - th.ws_head_counter) by {
        lemma_offset_of_counter(th, th.ws_tail_counter as int);
    }
    assert(align8(obj_size) >= 0);
    assert forall|u: int| 0 <= u < RLU_MAX_WRITE_SETS implies ws_wf(#[trigger] nth.obj_write_set@[u]) by {
        assert(ws_wf(th.obj_write_set@[u]));
        if u == cur {
            let nws = nth.obj_write_set@[u];
            assert forall|x: int| 0 <= x < nws.writer_locks@.len() implies #[trigger] nws.writer_locks@[x] < RLU_MAX_WRITER_LOCKS by {
                assert(ws.writer_locks@[x] < RLU_MAX_WRITER_LOCKS);
            }
        }
    }
    assert forall|u: int| 0 <= u < RLU_MAX_WRITE_SETS && !nth.in_window(u) implies ws_clean(#[trigger] nth.obj_write_set@[u]) by {
        assert(ws_clean(th.obj_write_set@[u]));
    }
    assert(nth.wf());
    assert forall|t: int| 0 <= t < b.pool@.len() implies (#[trigger] b.pool@[t]).wf() by {
        if t != h {
            assert(a.pool@[t].wf());
        }
    }
    assert forall|j: int| 0 <= j < b.cur_threads implies (#[trigger] b.threads@[j] matches Some(h2) && h2 < b.pool@.len()) by {
        assert(a.threads@[j] matches Some(h2) && h2 < a.pool@.len());
    }
    assert forall|t: int, x: int|
        0 <= t < b.pool@.len() && 0 <= x < b.pool@[t].free_nodes@.len() implies (
        #[trigger] b.pool@[t].free_nodes@[x] matches Ptr::Actual(j) && j < b.heap@.len()) by {
        assert(b.heap@.len() == a.heap@.len());
        if t == h {
            assert(nth.free_nodes == th.free_nodes);
        } else {
            assert(b.pool@[t] == a.pool@[t]);
        }
        assert(b.pool@[t].free_nodes == a.pool@[t].free_nodes);
        assert(a.pool@[t].free_nodes@[x] matches Ptr::Actual(j) && j < a.heap@.len());
    }
}

/// Locking a free object keeps the state well formed.
#[verifier::rlimit(40)]
proof fn lemma_lock_keeps_wf<D>(a: Rlu<D>, b: Rlu<D>, h: int, i: int, obj_size: int)
    requires
        a.wf(),
        a.registered(h),
        0 <= i < a.heap@.len(),
        a.heap@[i].p_obj_copy is Null,
        obj_size >= 0,
        locked_by(a, b, h, i, obj_size),
        a.pool@[h].obj_write_set@[a.pool@[h].ws_cur_id as int].used + WS_OBJ_HEADER_SIZE + OBJ_HEADER_SIZE
            + align8(obj_size) < RLU_MAX_WRITE_SET_BUFFER_SIZE,
    ensures
        b.wf(),
{
    lemma_lock_keeps_thread_wf(a, b, h, i, obj_size);
    let th = a.pool@[h];
    let cur = th.ws_cur_id as int;
    let ws = th.obj_write_set@[cur];
    let k = ws.entries@.len() as int;
    assert(th.wf());
    assert(th.offset(cur) == th.ws_tail_counter - th.ws_head_counter) by {
        lemma_offset_of_counter(th, th.ws_tail_counter as int);
    }
    assert(i < a.heap.len());
    assert(b.entry(h, cur, k).p_obj_actual == i);
    assert forall|t: int, s: int, kk: int| a.entry_exists(t, s, kk) implies b.entry_exists(t, s, kk) && #[trigger] b.entry(t, s, kk) == a.entry(t, s, kk) by {
        if t == h && s == cur {
            assert(b.pool@[t].obj_write_set@[s].entries@[kk] == ws.entries@[kk]);
        }
    }
    assert forall|ii: int| 0 <= ii < b.heap@.len() implies match #[trigger] b.heap@[ii].p_obj_copy {
        Ptr::Null => true,
        Ptr::InWriteSet(t, s, kk) => {
            &&& b.entry_exists(t as int, s as int, kk as int)
            &&& b.entry(t as int, s as int, kk as int).p_obj_actual == ii
            &&& b.holding(t as int, s as int, kk as int, -1, 0, 0, 0)
        },
        _ => false,
    } by {
        if ii != i {
            assert(b.heap@[ii] == a.heap@[ii]);
            match a.heap@[ii].p_obj_copy {
                Ptr::InWriteSet(t, s, kk) => {
                    assert(a.entry_exists(t as int, s as int, kk as int));
                    assert(a.pool@[t as int].holds_locks(s as int));
                    if t as int == h {
                        assert(b.pool@[h].offset(s as int) == a.pool@[h].offset(s as int));
                    }
                    assert(b.pool@[t as int].holds_locks(s as int));
                    assert(b.entry_exists(t as int, s as int, kk as int));
                    assert(b.entry(t as int, s as int, kk as int) == a.entry(t as int, s as int, kk as int));
                },
                _ => {},
            }
        } else {
            assert(h < a.pool.len());
            assert(k == ws.entries.len());
            assert(b.heap@[i].p_obj_copy == Ptr::InWriteSet(h as usize, cur as usize, k as usize));
            assert(b.entry_exists(h, cur, k));
            assert(b.pool@[h].offset(cur) == a.pool@[h].offset(cur));
            assert(b.pool@[h].holds_locks(cur));
            assert(b.holding(h, cur, k, -1, 0, 0, 0));
        }
    }
    assert forall|t: int, s: int, kk: int|
        #![trigger b.pool@[t].obj_write_set@[s].entries@[kk]]
        b.entry_exists(t, s, kk) implies {
            &&& b.entry(t, s, kk).p_obj_actual < b.heap@.len()
            &&& b.entry(t, s, kk).thread_id == b.pool@[t].uniq_id
            &&& b.registered(t)
            &&& (b.holding(t, s, kk, -1, 0, 0, 0) ==> b.heap@[b.entry(
                t,
                s,
                kk,
            ).p_obj_actual as int].p_obj_copy == Ptr::InWriteSet(
                t as usize,
                s as usize,
                kk as usize,
            ))
        } by {
        if t == h && s == cur && kk == k {
        } else {
            assert(a.entry_exists(t, s, kk));
            assert(a.pool@[t].obj_write_set@[s].entries@[kk] == b.pool@[t].obj_write_set@[s].entries@[kk]);
            let e = a.entry(t, s, kk);
            assert(a.registered(t));
            if a.pool@[t].holds_locks(s) {
                assert(a.heap@[e.p_obj_actual as int].p_obj_copy == Ptr::InWriteSet(t as usize, s as usize, kk as usize));
                assert(e.p_obj_actual != i);
            }
        }
    }
}

impl<D> Rlu<D> {
    /// Whether the slow path of a dereference by thread `h` takes the copy
    /// that another writer is making of `p`'s object (a steal).
    pub open spec fn steals(self, h: int, p: Ptr) -> bool {
        let th = self.pool@[h];
        match self.header(p) {
            Ptr::InWriteSet(t, s, k) => {
                let e = self.entry(t as int, s as int, k as int);
                &&& e.thread_id != th.uniq_id
                &&& th.is_steal != 0
                &&& self.pool@[self.threads@[e.thread_id as int]->0 as int].writer_version <= th.local_version
            },
            _ => false,
        }
    }

    /// What `rlu_deref_slow_path` returns for thread `h`: `p` itself unless
    /// its object is locked, the copy if this thread holds the lock or
    /// steals it.
    pub open spec fn deref_slow(self, h: int, p: Ptr) -> Ptr {
        let th = self.pool@[h];
        if p is Null {
            p
        } else {
            match self.header(p) {
                Ptr::InWriteSet(t, s, k) => {
                    let e = self.entry(t as int, s as int, k as int);
                    if e.thread_id == th.uniq_id || self.steals(h, p) {
                        self.header(p)
                    } else {
                        p
                    }
                },
                _ => p,
            }
        }
    }

    /// What `RLU_DEREF` returns for thread `h`: `p` when the thread need
    /// not check locks, else the slow path.
    pub open spec fn deref(self, h: int, p: Ptr) -> Ptr {
        if self.pool@[h].is_check_locks == 0 {
            p
        } else {
            self.deref_slow(h, p)
        }
    }

    /// Whether `RLU_DEREF` steals.
    pub open spec fn deref_steals(self, h: int, p: Ptr) -> bool {
        self.pool@[h].is_check_locks != 0 && !(p is Null) && self.steals(h, p)
    }
}

/// Which version of `p_obj` thread `h` reads once it must check locks.
fn rlu_deref_slow_path<D: Copy>(rlu: &mut Rlu<D>, h: usize, p_obj: Ptr) -> (r: Ptr)
    requires
        old(rlu).wf(),
        old(rlu).registered(h as int),
        p_obj is Null || old(rlu).valid_ptr(p_obj),
    ensures
        final(rlu).wf(),
        r == old(rlu).deref_slow(h as int, p_obj),
        if !(p_obj is Null) && old(rlu).steals(h as int, p_obj) {
            thread_set(*old(rlu), *final(rlu), h as int, rlu_thread_data_t {
                n_steals: inc32(old(rlu).pool@[h as int].n_steals),
                ..old(rlu).pool@[h as int]
            })
        } else {
            *final(rlu) == *old(rlu)
        },
{
    match p_obj {
        Ptr::Null => {
            return p_obj;
        },
        _ => {},
    }
    proof {
        if let Ptr::Actual(i) = p_obj {
            assert(rlu.heap@[i as int].p_obj_copy == rlu.header(p_obj));
        }
    }
    let p_obj_copy = GET_COPY(rlu, p_obj);
    if !PTR_IS_LOCKED(p_obj_copy) {
        return p_obj;
    }
    if PTR_IS_COPY(p_obj_copy) {
        return p_obj;
    }
    proof {
        if let Ptr::InWriteSet(t, s, k) = p_obj_copy {
            assert(rlu.entry_exists(t as int, s as int, k as int));
            assert(rlu.registered(t as int));
        }
    }
    let th_id = WS_GET_THREAD_ID(rlu, p_obj_copy);
    if th_id == rlu.pool[h].uniq_id {
        return p_obj_copy;
    }
    let other = rlu.threads[th_id].unwrap();
    if rlu.pool[h].is_steal != 0 && rlu.pool[other].writer_version <= rlu.pool[h].local_version {
        rlu.pool[h].n_steals = rlu.pool[h].n_steals.wrapping_add(1);
        proof {
            assert(rlu.pool@ =~= old(rlu).pool@.update(h as int, rlu.pool@[h as int]));
            lemma_same_locking_wf(*old(rlu), *rlu);
        }
        return p_obj_copy;
    }
    p_obj
}

/// Which version of `p_obj` thread `h` reads: the object, or the copy that
/// this thread holds or steals.
pub fn RLU_DEREF_INTERNAL<D: Copy>(rlu: &mut Rlu<D>, h: usize, p_obj: Ptr) -> (r: Ptr)
    requires
        old(rlu).wf(),
        old(rlu).registered(h as int),
        p_obj is Null || old(rlu).valid_ptr(p_obj),
    ensures
        final(rlu).wf(),
        r == old(rlu).deref(h as int, p_obj),
        if old(rlu).deref_steals(h as int, p_obj) {
            thread_set(*old(rlu), *final(rlu), h as int, rlu_thread_data_t {
                n_steals: inc32(old(rlu).pool@[h as int].n_steals),
                ..old(rlu).pool@[h as int]
            })
        } else {
            *final(rlu) == *old(rlu)
        },
{
    if rlu.pool[h].is_check_locks == 0 {
        p_obj
    } else {
        let is_null = match p_obj {
            Ptr::Null => true,
            _ => false,
        };
        if is_null && PTR_IS_UNLOCKED(p_obj) {
            p_obj
        } else {
            rlu_deref_slow_path(rlu, h, p_obj)
        }
    }
}

pub fn RLU_DEREF<D: Copy>(rlu: &mut Rlu<D>, h: usize, p_obj: Ptr) -> (r: Ptr)
    requires
        old(rlu).wf(),
        old(rlu).registered(h as int),
        p_obj is Null || old(rlu).valid_ptr(p_obj),
    ensures
        final(rlu).wf(),
        r == old(rlu).deref(h as int, p_obj),
        if old(rlu).deref_steals(h as int, p_obj) {
            thread_set(*old(rlu), *final(rlu), h as int, rlu_thread_data_t {
                n_steals: inc32(old(rlu).pool@[h as int].n_steals),
                ..old(rlu).pool@[h as int]
            })
        } else {
            *final(rlu) == *old(rlu)
        },
{
    RLU_DEREF_INTERNAL(rlu, h, p_obj)
}

/// Stores into `*p_ptr` the object `p_obj` stands for (never a copy).
pub fn rlu_assign_pointer<D: Copy>(rlu: &Rlu<D>, p_ptr: &mut Ptr, p_obj: Ptr)
    requires
        rlu.wf(),
        p_obj is Null || rlu.valid_ptr(p_obj),
    ensures
        *final(p_ptr) == rlu.actual_of(p_obj),
{
    let mut ptr = p_obj;
    match p_obj {
        Ptr::Null => {},
        _ => {
            ptr = FORCE_ACTUAL(rlu, p_obj);
        },
    }
    *p_ptr = ptr;
}

pub fn RLU_ASSIGN_POINTER<D: Copy>(rlu: &Rlu<D>, p_ptr: &mut Ptr, p_obj: Ptr)
    requires
        rlu.wf(),
        p_obj is Null || rlu.valid_ptr(p_obj),
    ensures
        *final(p_ptr) == rlu.actual_of(p_obj),
{
    rlu_assign_pointer(rlu, p_ptr, p_obj)
}

/// Whether two pointers stand for the same object. Only when the first is
/// not null are both taken to their objects.
fn rlu_cmp_ptrs<D: Copy>(rlu: &Rlu<D>, p_obj_1: Ptr, p_obj_2: Ptr) -> (r: bool)
    requires
        rlu.wf(),
        !(p_obj_1 is Null) ==> rlu.valid_ptr(p_obj_1) && rlu.valid_ptr(p_obj_2),
    ensures
        r == if p_obj_1 is Null {
            p_obj_2 is Null
        } else {
            rlu.actual_of(p_obj_1) == rlu.actual_of(p_obj_2)
        },
{
    let mut ptr_obj_1 = p_obj_1;
    let mut ptr_obj_2 = p_obj_2;
    let first_null = match p_obj_1 {
        Ptr::Null => true,
        _ => false,
    };
    if !first_null {
        ptr_obj_1 = FORCE_ACTUAL(rlu, p_obj_1);
    }
    if !first_null {
        ptr_obj_2 = FORCE_ACTUAL(rlu, p_obj_2);
    }
    ptr_obj_1 == ptr_obj_2
}

pub fn RLU_IS_SAME_PTRS<D: Copy>(rlu: &Rlu<D>, p_obj_1: Ptr, p_obj_2: Ptr) -> (r: bool)
    requires
        rlu.wf(),
        !(p_obj_1 is Null) ==> rlu.valid_ptr(p_obj_1) && rlu.valid_ptr(p_obj_2),
    ensures
        r == if p_obj_1 is Null {
            p_obj_2 is Null
        } else {
            rlu.actual_of(p_obj_1) == rlu.actual_of(p_obj_2)
        },
{
    rlu_cmp_ptrs(rlu, p_obj_1, p_obj_2)
}

/// Frees `p_obj`: at once when there is no thread, else at the thread's
/// next synchronization (the object it stands for is queued).
pub fn rlu_free<D: Copy>(rlu: &mut Rlu<D>, self_: Option<usize>, p_obj: Ptr)
    requires
        old(rlu).wf(),
        !(p_obj is Null) ==> old(rlu).valid_ptr(p_obj),
        self_ is None && !(p_obj is Null) ==> p_obj is Actual,
        self_ matches Some(h) ==> h < old(rlu).pool@.len() && (!(p_obj is Null) ==> old(rlu).pool@[h as int].free_nodes@.len() + 1 < RLU_MAX_FREE_NODES),
    ensures
        final(rlu).wf(),
        match (self_, p_obj) {
            (_, Ptr::Null) => *final(rlu) == *old(rlu),
            (None, Ptr::Actual(i)) => {
                &&& final(rlu).heap@ == old(rlu).heap@.update(i as int, HeapObj { live: false, ..old(rlu).heap@[i as int] })
                &&& *final(rlu) == (Rlu { heap: final(rlu).heap, ..*old(rlu) })
            },
            (Some(h), _) => {
                &&& final(rlu).pool@[h as int].free_nodes@ == old(rlu).pool@[h as int].free_nodes@.push(old(rlu).actual_of(p_obj))
                &&& only_thread_changed(*old(rlu), *final(rlu), h as int)
                &&& final(rlu).pool@[h as int] == (rlu_thread_data_t { free_nodes: final(rlu).pool@[h as int].free_nodes, ..old(rlu).pool@[h as int] })
            },
            _ => false,
        },
{
    match p_obj {
        Ptr::Null => {
            return;
        },
        _ => {},
    }
    match self_ {
        None => {
            if let Ptr::Actual(i) = p_obj {
                rlu.heap[i].live = false;
                proof {
                    assert(rlu.heap@ =~= old(rlu).heap@.update(i as int, HeapObj { live: false, ..old(rlu).heap@[i as int] }));
                    lemma_same_locking_wf(*old(rlu), *rlu);
                }
            }
        },
        Some(h) => {
            let p = FORCE_ACTUAL(rlu, p_obj);
            rlu.pool[h].free_nodes.push(p);
            proof {
                let a = *old(rlu);
                let b = *rlu;
                assert(b.pool@ =~= a.pool@.update(h as int, b.pool@[h as int]));
                if let Ptr::InWriteSet(t, s, k) = p_obj {
                    assert(a.entry_exists(t as int, s as int, k as int));
                }
                assert(b.pool@[h as int].wf()) by {
                    assert(a.pool@[h as int].wf());
                }
                assert forall|t: int| 0 <= t < b.pool@.len() implies (#[trigger] b.pool@[t]).wf() by {
                    assert(a.pool@[t].wf());
                }
                assert forall|t: int, x: int|
                    0 <= t < b.pool@.len() && 0 <= x < b.pool@[t].free_nodes@.len() implies (
                    #[trigger] b.pool@[t].free_nodes@[x] matches Ptr::Actual(j) && j < b.heap@.len()) by {
                    if t != h || x < a.pool@[t].free_nodes@.len() {
                        assert(a.pool@[t].free_nodes@[x] matches Ptr::Actual(j) && j < a.heap@.len());
                    }
                }
                assert forall|j: int| 0 <= j < b.cur_threads implies (#[trigger] b.threads@[j] matches Some(h2) && h2 < b.pool@.len()) by {
                    assert(a.threads@[j] matches Some(h2) && h2 < a.pool@.len());
                }
                assert(b.free_valid(h as int)) by {
                    assert forall|x: int| 0 <= x < b.pool@[h as int].free_nodes@.len() implies (#[trigger] b.pool@[h as int].free_nodes@[x] matches Ptr::Actual(j)
                        && j < b.heap@.len()) by {
                        if x < a.pool@[h as int].free_nodes@.len() {
                            assert(a.pool@[h as int].free_nodes@[x] matches Ptr::Actual(j) && j < a.heap@.len());
                        }
                    }
                }
                assert(same_locking(a, b)) by {
                    assert forall|t: int| 0 <= t < a.pool@.len() implies {
                        &&& (#[trigger] b.pool@[t]).uniq_id == a.pool@[t].uniq_id
                        &&& forall|s: int| #[trigger] b.pool@[t].holds_locks(s) == a.pool@[t].holds_locks(s)
                        &&& b.pool@[t].obj_write_set@.len() == a.pool@[t].obj_write_set@.len()
                        &&& (b.pool@[t].free_nodes == a.pool@[t].free_nodes || b.free_valid(t))
                        &&& b.pool@[t].wf()
                        &&& (a.pool@[t].settled() ==> b.pool@[t].settled())
                    } by {}
                }
                lemma_same_locking_wf(a, b);
            }
        },
    }
}

/// Object `i` is queued for freeing by thread `h`.
pub open spec fn queued<D>(th: rlu_thread_data_t<D>, i: int) -> bool {
    exists|x: int| 0 <= x < th.free_nodes@.len() && #[trigger] th.free_nodes@[x] == Ptr::Actual(i as usize)
}

/// Frees the objects thread `h` has queued.
fn rlu_process_free<D: Copy>(rlu: &mut Rlu<D>, h: usize)
    requires
        old(rlu).wf_core(),
        h < old(rlu).pool@.len(),
    ensures
        final(rlu).wf_core(),
        final(rlu).heap@.len() == old(rlu).heap@.len(),
        forall|i: int|
            0 <= i < old(rlu).heap@.len() ==> #[trigger] final(rlu).heap@[i] == if queued(old(rlu).pool@[h as int], i) {
                HeapObj { live: false, ..old(rlu).heap@[i] }
            } else {
                old(rlu).heap@[i]
            },
        final(rlu).pool@[h as int].free_nodes@.len() == 0,
        final(rlu).pool@[h as int] == (rlu_thread_data_t { free_nodes: final(rlu).pool@[h as int].free_nodes, ..old(rlu).pool@[h as int] }),
        *final(rlu) == (Rlu { heap: final(rlu).heap, pool: final(rlu).pool, ..*old(rlu) }),
        final(rlu).pool@.len() == old(rlu).pool@.len(),
        forall|t: int| 0 <= t < old(rlu).pool@.len() && t != h ==> #[trigger] final(rlu).pool@[t] == old(rlu).pool@[t],
{
    let ghost th = rlu.pool@[h as int];
    let n = rlu.pool[h].free_nodes.len();
    for x in 0..n
        invariant
            rlu.wf_core(),
            h < rlu.pool@.len(),
            rlu.pool == old(rlu).pool,
            *rlu == (Rlu { heap: rlu.heap, ..*old(rlu) }),
            th == old(rlu).pool@[h as int],
            n == th.free_nodes@.len(),
            rlu.heap@.len() == old(rlu).heap@.len(),
            forall|i: int|
                0 <= i < old(rlu).heap@.len() ==> #[trigger] rlu.heap@[i] == if exists|y: int| 0 <= y < x && #[trigger] th.free_nodes@[y] == Ptr::Actual(i as usize) {
                    HeapObj { live: false, ..old(rlu).heap@[i] }
                } else {
                    old(rlu).heap@[i]
                },
    {
        proof {
            assert(rlu.free_valid(h as int));
            assert(th.free_nodes@[x as int] matches Ptr::Actual(j) && j < rlu.heap@.len());
        }
        let p = rlu.pool[h].free_nodes[x];
        if let Ptr::Actual(i) = p {
            let ghost before = *rlu;
            rlu.heap[i].live = false;
            proof {
                lemma_same_locking_wf(before, *rlu);
                assert forall|i2: int| 0 <= i2 < old(rlu).heap@.len() implies #[trigger] rlu.heap@[i2] == if exists|y: int| 0 <= y < x + 1 && #[trigger] th.free_nodes@[y] == Ptr::Actual(i2 as usize) {
                    HeapObj { live: false, ..old(rlu).heap@[i2] }
                } else {
                    old(rlu).heap@[i2]
                } by {
                    if i2 == i {
                        assert(th.free_nodes@[x as int] == Ptr::Actual(i2 as usize));
                    } else {
                        if exists|y: int| 0 <= y < x + 1 && #[trigger] th.free_nodes@[y] == Ptr::Actual(i2 as usize) {
                            let y = choose|y: int| 0 <= y < x + 1 && #[trigger] th.free_nodes@[y] == Ptr::Actual(i2 as usize);
                            assert(i2 < old(rlu).heap.len());
                            assert(p == th.free_nodes@[x as int]);
                            assert(y != x);
                        }
                    }
                }
            }
        }
    }
    let ghost mid = *rlu;
    rlu.pool[h].free_nodes.clear();
    proof {
        let b = *rlu;
        assert(b.pool@ =~= mid.pool@.update(h as int, b.pool@[h as int]));
        assert(b.free_valid(h as int));
        assert(same_locking(mid, b)) by {
            assert forall|t: int| 0 <= t < mid.pool@.len() implies {
                &&& (#[trigger] b.pool@[t]).uniq_id == mid.pool@[t].uniq_id
                &&& forall|s: int| #[trigger] b.pool@[t].holds_locks(s) == mid.pool@[t].holds_locks(s)
                &&& b.pool@[t].obj_write_set@.len() == mid.pool@[t].obj_write_set@.len()
                &&& (b.pool@[t].free_nodes == mid.pool@[t].free_nodes || b.free_valid(t))
                &&& b.pool@[t].wf()
                &&& (mid.pool@[t].settled() ==> b.pool@[t].settled())
            } by {
                assert(mid.pool@[t].wf());
            }
        }
        lemma_same_locking_wf(mid, b);
        assert forall|i: int| 0 <= i < old(rlu).heap@.len() implies (exists|y: int| 0 <= y < n && #[trigger] th.free_nodes@[y] == Ptr::Actual(i as usize)) == queued(th, i) by {}
    }
}

/// Thread `h` may wait for the others: none of them is inside a section.
pub open spec fn no_other_readers<D>(rlu: Rlu<D>, h: int) -> bool {
    forall|j: int|
        0 <= j < rlu.cur_threads && j != rlu.pool@[h].uniq_id ==> (#[trigger] rlu.threads@[j] matches Some(t)
            && rlu.pool@[t as int].run_counter % 2 == 0)
}

/// What `rlu_init_quiescence` leaves in entry `j` of the wait table of
/// thread `h`.
pub open spec fn quiescence_entry<D>(rlu: Rlu<D>, h: int, j: int) -> wait_entry_t {
    let q = rlu.pool@[h].q_threads@[j];
    if j >= rlu.cur_threads {
        q
    } else if j == rlu.pool@[h].uniq_id || rlu.threads@[j] is None {
        wait_entry_t { is_wait: 0, ..q }
    } else {
        let rc = rlu.pool@[rlu.threads@[j]->0 as int].run_counter;
        wait_entry_t { is_wait: if rc % 2 == 1 { 1 } else { 0 }, run_counter: rc }
    }
}

/// Notes, for each other thread, its run counter and whether it is inside a
/// section (then it has to be waited for).
fn rlu_init_quiescence<D: Copy>(rlu: &mut Rlu<D>, h: usize)
    requires
        old(rlu).wf_core(),
        h < old(rlu).pool@.len(),
    ensures
        final(rlu).wf_core(),
        only_thread_changed(*old(rlu), *final(rlu), h as int),
        final(rlu).pool@[h as int] == (rlu_thread_data_t { q_threads: final(rlu).pool@[h as int].q_threads, ..old(rlu).pool@[h as int] }),
        final(rlu).pool@[h as int].q_threads@.len() == RLU_MAX_THREADS,
        forall|j: int| 0 <= j < RLU_MAX_THREADS ==> #[trigger] final(rlu).pool@[h as int].q_threads@[j] == quiescence_entry(*old(rlu), h as int, j),
{
    proof {
        assert(rlu.pool@[h as int].wf());
    }
    let cur_rlu_thread = rlu.cur_threads;
    for th_id in 0..cur_rlu_thread
        invariant
            rlu.wf_core(),
            h < rlu.pool@.len(),
            cur_rlu_thread == old(rlu).cur_threads,
            only_thread_changed(*old(rlu), *rlu, h as int),
            rlu.pool@[h as int] == (rlu_thread_data_t { q_threads: rlu.pool@[h as int].q_threads, ..old(rlu).pool@[h as int] }),
            rlu.pool@[h as int].q_threads@.len() == RLU_MAX_THREADS,
            forall|j: int| 0 <= j < th_id ==> #[trigger] rlu.pool@[h as int].q_threads@[j] == quiescence_entry(*old(rlu), h as int, j),
            forall|j: int| th_id <= j < RLU_MAX_THREADS ==> #[trigger] rlu.pool@[h as int].q_threads@[j] == old(rlu).pool@[h as int].q_threads@[j],
    {
        let ghost before = *rlu;
        rlu.pool[h].q_threads[th_id].is_wait = 0;
        if th_id == rlu.pool[h].uniq_id {
        } else {
            match rlu.threads[th_id] {
                None => {},
                Some(other) => {
                    proof {
                        assert(old(rlu).threads@[th_id as int] matches Some(o) && o < old(rlu).pool@.len());
                    }
                    let rc = rlu.pool[other].run_counter;
                    rlu.pool[h].q_threads[th_id].run_counter = rc;
                    assert(rc & 1 == rc % 2) by (bit_vector);
                    if rc & 1 == 1 {
                        rlu.pool[h].q_threads[th_id].is_wait = 1;
                    }
                    proof {
                        if other == h {
                            assert(rc == old(rlu).pool@[h as int].run_counter);
                        } else {
                            assert(rc == old(rlu).pool@[other as int].run_counter);
                        }
                    }
                },
            }
        }
        proof {
            let b = *rlu;
            assert(b.pool@[h as int].q_threads@ =~= before.pool@[h as int].q_threads@.update(th_id as int, b.pool@[h as int].q_threads@[th_id as int]));
            assert(b.pool@ =~= before.pool@.update(h as int, b.pool@[h as int]));
            lemma_same_locking_wf(before, b);
            assert(b.pool@[h as int].q_threads@[th_id as int] == quiescence_entry(*old(rlu), h as int, th_id as int));
        }
    }
}

/// How many of the first `n` entries of a wait table are waiting.
pub open spec fn waiting_count(q: Seq<wait_entry_t>, n: int) -> nat
    decreases n,
{
    if n <= 0 {
        0
    } else {
        waiting_count(q, n - 1) + if q[n - 1].is_wait == 1 { 1nat } else { 0nat }
    }
}

proof fn lemma_waiting_count_bound(q: Seq<wait_entry_t>, n: int)
    requires
        n >= 0,
    ensures
        waiting_count(q, n) <= n,
    decreases n,
{
    if n > 0 {
        lemma_waiting_count_bound(q, n - 1);
    }
}

/// A thread that thread `h` waits for lets it go: it has left the section
/// noted, or it started after version `version_limit`.
pub open spec fn wait_ends<D>(rlu: Rlu<D>, h: int, version_limit: u32) -> bool {
    forall|j: int|
        0 <= j < rlu.cur_threads && #[trigger] rlu.pool@[h].q_threads@[j].is_wait == 1 ==> {
            let o = rlu.pool@[rlu.threads@[j]->0 as int];
            ||| rlu.pool@[h].q_threads@[j].run_counter != o.run_counter
            ||| (version_limit != 0 && o.local_version >= version_limit)
        }
}

/// Waits until every thread noted as inside a section has left it or has
/// started after `version_limit`; returns the number of checks made.
fn rlu_wait_for_quiescence<D: Copy>(rlu: &mut Rlu<D>, h: usize, version_limit: u32) -> (iters: u32)
    requires
        old(rlu).wf_core(),
        h < old(rlu).pool@.len(),
        wait_ends(*old(rlu), h as int, version_limit),
    ensures
        final(rlu).wf_core(),
        iters == waiting_count(old(rlu).pool@[h as int].q_threads@, old(rlu).cur_threads as int),
        only_thread_changed(*old(rlu), *final(rlu), h as int),
        final(rlu).pool@[h as int] == (rlu_thread_data_t { q_threads: final(rlu).pool@[h as int].q_threads, ..old(rlu).pool@[h as int] }),
        final(rlu).pool@[h as int].q_threads@.len() == RLU_MAX_THREADS,
        forall|j: int| 0 <= j < RLU_MAX_THREADS ==> #[trigger] final(rlu).pool@[h as int].q_threads@[j] == if j < old(rlu).cur_threads && old(rlu).pool@[h as int].q_threads@[j].is_wait == 1 {
            wait_entry_t { is_wait: 0, ..old(rlu).pool@[h as int].q_threads@[j] }
        } else {
            old(rlu).pool@[h as int].q_threads@[j]
        },
{
    proof {
        assert(rlu.pool@[h as int].wf());
    }
    let ghost q0 = rlu.pool@[h as int].q_threads@;
    let mut iters: u32 = 0;
    let cur_threads = rlu.cur_threads;
    for th_id in 0..cur_threads
        invariant
            rlu.wf_core(),
            h < rlu.pool@.len(),
            cur_threads == old(rlu).cur_threads,
            q0 == old(rlu).pool@[h as int].q_threads@,
            only_thread_changed(*old(rlu), *rlu, h as int),
            rlu.pool@[h as int] == (rlu_thread_data_t { q_threads: rlu.pool@[h as int].q_threads, ..old(rlu).pool@[h as int] }),
            rlu.pool@[h as int].q_threads@.len() == RLU_MAX_THREADS,
            wait_ends(*old(rlu), h as int, version_limit),
            iters == waiting_count(q0, th_id as int),
            forall|j: int| 0 <= j < th_id ==> #[trigger] rlu.pool@[h as int].q_threads@[j] == if q0[j].is_wait == 1 {
                wait_entry_t { is_wait: 0, ..q0[j] }
            } else {
                q0[j]
            },
            forall|j: int| th_id <= j < RLU_MAX_THREADS ==> #[trigger] rlu.pool@[h as int].q_threads@[j] == q0[j],
    {
        proof {
            lemma_waiting_count_bound(q0, th_id as int);
            assert(old(rlu).threads@[th_id as int] matches Some(o) && o < old(rlu).pool@.len());
        }
        let other = rlu.threads[th_id].unwrap();
        let ghost before = *rlu;
        let ghost entered = rlu.pool@[h as int].q_threads@[th_id as int].is_wait == 1;
        while rlu.pool[h].q_threads[th_id].is_wait == 1
            invariant
                rlu.wf_core(),
                h < rlu.pool@.len(),
                other < rlu.pool@.len(),
                th_id < cur_threads,
                cur_threads <= RLU_MAX_THREADS,
                rlu.pool@[h as int].q_threads@.len() == RLU_MAX_THREADS,
                before.pool@[h as int].q_threads@[th_id as int] == q0[th_id as int],
                entered == (q0[th_id as int].is_wait == 1),
                rlu.pool@[h as int].q_threads@[th_id as int].is_wait == 1 ==> *rlu == before && iters == waiting_count(q0, th_id as int),
                rlu.pool@[h as int].q_threads@[th_id as int].is_wait != 1 ==> {
                    &&& iters == waiting_count(q0, th_id as int + 1)
                    &&& only_thread_changed(before, *rlu, h as int)
                    &&& rlu.pool@[h as int] == (rlu_thread_data_t { q_threads: rlu.pool@[h as int].q_threads, ..before.pool@[h as int] })
                    &&& rlu.pool@[h as int].q_threads@ == before.pool@[h as int].q_threads@.update(th_id as int, if entered {
                        wait_entry_t { is_wait: 0, ..q0[th_id as int] }
                    } else {
                        q0[th_id as int]
                    })
                },
                waiting_count(q0, th_id as int) <= th_id,
                before.threads@[th_id as int] == Some(other),
                before.threads == old(rlu).threads,
                q0 == old(rlu).pool@[h as int].q_threads@,
                old(rlu).cur_threads == cur_threads,
                wait_ends(*old(rlu), h as int, version_limit),
                before.pool@[other as int].run_counter == old(rlu).pool@[other as int].run_counter,
                before.pool@[other as int].local_version == old(rlu).pool@[other as int].local_version,
            ensures
                rlu.pool@[h as int].q_threads@[th_id as int].is_wait != 1,
            decreases (if rlu.pool@[h as int].q_threads@[th_id as int].is_wait == 1 { 1int } else { 0int }),
        {
            iters = iters + 1;
            if rlu.pool[h].q_threads[th_id].run_counter != rlu.pool[other].run_counter {
                rlu.pool[h].q_threads[th_id].is_wait = 0;
                proof {
                    assert(rlu.pool@[h as int].q_threads@ =~= before.pool@[h as int].q_threads@.update(th_id as int, wait_entry_t { is_wait: 0, ..q0[th_id as int] }));
                    assert(rlu.pool@ =~= before.pool@.update(h as int, rlu.pool@[h as int]));
                    lemma_same_locking_wf(before, *rlu);
                }
                break;
            }
            if version_limit != 0 {
                if rlu.pool[other].local_version >= version_limit {
                    rlu.pool[h].q_threads[th_id].is_wait = 0;
                    proof {
                        assert(rlu.pool@[h as int].q_threads@ =~= before.pool@[h as int].q_threads@.update(th_id as int, wait_entry_t { is_wait: 0, ..q0[th_id as int] }));
                        assert(rlu.pool@ =~= before.pool@.update(h as int, rlu.pool@[h as int]));
                        lemma_same_locking_wf(before, *rlu);
                    }
                    break;
                }
            }
            proof {
                if other == h {
                    assert(rlu.pool@[h as int].run_counter == old(rlu).pool@[h as int].run_counter);
                }
                assert(*rlu == before);
                assert(q0[th_id as int].is_wait == 1);
                assert(old(rlu).pool@[h as int].q_threads@[th_id as int].is_wait == 1);
                assert(old(rlu).threads@[th_id as int]->0 == other);
                assert(false);
            }
        }
        proof {
            assert(rlu.pool@[h as int].q_threads@[th_id as int].is_wait != 1);
            assert forall|j: int| 0 <= j < th_id + 1 implies #[trigger] rlu.pool@[h as int].q_threads@[j] == if q0[j].is_wait == 1 {
                wait_entry_t { is_wait: 0, ..q0[j] }
            } else {
                q0[j]
            } by {
                if j < th_id {
                    assert(before.pool@[h as int].q_threads@[j] == rlu.pool@[h as int].q_threads@[j]);
                }
            }
            assert forall|j: int| th_id + 1 <= j < RLU_MAX_THREADS implies #[trigger] rlu.pool@[h as int].q_threads@[j] == q0[j] by {
                assert(before.pool@[h as int].q_threads@[j] == rlu.pool@[h as int].q_threads@[j]);
            }
        }
    }
    iters
}

proof fn lemma_waiting_count_zero(q: Seq<wait_entry_t>, n: int)
    requires
        forall|j: int| 0 <= j < n ==> #[trigger] q[j].is_wait != 1,
    ensures
        waiting_count(q, n) == 0,
    decreases n,
{
    if n > 0 {
        lemma_waiting_count_zero(q, n - 1);
    }
}

/// Waits for a grace period: until every other thread inside a section has
/// left it or has started after this thread's writer version.
fn rlu_synchronize<D: Copy>(rlu: &mut Rlu<D>, h: usize)
    requires
        old(rlu).wf_core(),
        h < old(rlu).pool@.len(),
        no_other_readers(*old(rlu), h as int),
    ensures
        final(rlu).wf_core(),
        if old(rlu).pool@[h as int].is_no_quiescence == 1 {
            *final(rlu) == *old(rlu)
        } else {
            &&& only_thread_changed(*old(rlu), *final(rlu), h as int)
            &&& final(rlu).pool@[h as int] == (rlu_thread_data_t { q_threads: final(rlu).pool@[h as int].q_threads, ..old(rlu).pool@[h as int] })
            &&& final(rlu).pool@[h as int].q_threads@.len() == RLU_MAX_THREADS
            &&& forall|j: int| 0 <= j < RLU_MAX_THREADS ==> #[trigger] final(rlu).pool@[h as int].q_threads@[j] == quiescence_entry(*old(rlu), h as int, j)
        },
{
    if rlu.pool[h].is_no_quiescence == 1 {
        return;
    }
    rlu_init_quiescence(rlu, h);
    let ghost mid = *rlu;
    proof {
        assert forall|j: int| 0 <= j < mid.cur_threads implies #[trigger] mid.pool@[h as int].q_threads@[j].is_wait != 1 by {
            assert(mid.pool@[h as int].q_threads@[j] == quiescence_entry(*old(rlu), h as int, j));
            if j != old(rlu).pool@[h as int].uniq_id {
                assert(old(rlu).threads@[j] matches Some(t) && old(rlu).pool@[t as int].run_counter % 2 == 0);
            }
        }
        lemma_waiting_count_zero(mid.pool@[h as int].q_threads@, mid.cur_threads as int);
    }
    let limit = rlu.pool[h].writer_version;
    let q_iters = rlu_wait_for_quiescence(rlu, h, limit);
    rlu.pool[h].n_writeback_q_iters = rlu.pool[h].n_writeback_q_iters.wrapping_add(q_iters);
    proof {
        let b = *rlu;
        assert(q_iters == 0);
        assert(b.pool@[h as int].q_threads@ =~= mid.pool@[h as int].q_threads@);
        assert(b.pool@ =~= old(rlu).pool@.update(h as int, b.pool@[h as int]));
        lemma_same_locking_wf(*old(rlu), b);
    }
}

/// `wf_locks_except` depends on which entries hold locks only.
proof fn lemma_locks_equiv<D>(
    r: Rlu<D>,
    h1: int,
    lo1: int,
    ps1: int,
    kk1: int,
    h2: int,
    lo2: int,
    ps2: int,
    kk2: int,
)
    requires
        r.wf_locks_except(h1, lo1, ps1, kk1),
        forall|t: int, s: int, k: int|
            r.entry_exists(t, s, k) ==> r.holding(t, s, k, h1, lo1, ps1, kk1) == r.holding(
                t,
                s,
                k,
                h2,
                lo2,
                ps2,
                kk2,
            ),
    ensures
        r.wf_locks_except(h2, lo2, ps2, kk2),
{
    assert forall|i: int| 0 <= i < r.heap@.len() implies match #[trigger] r.heap@[i].p_obj_copy {
        Ptr::Null => true,
        Ptr::InWriteSet(t, s, k) => {
            &&& r.entry_exists(t as int, s as int, k as int)
            &&& r.entry(t as int, s as int, k as int).p_obj_actual == i
            &&& r.holding(t as int, s as int, k as int, h2, lo2, ps2, kk2)
        },
        _ => false,
    } by {
        match r.heap@[i].p_obj_copy {
            Ptr::InWriteSet(t, s, k) => {
                assert(r.entry_exists(t as int, s as int, k as int));
            },
            _ => {},
        }
    }
    assert forall|t: int, s: int, k: int|
        #![trigger r.pool@[t].obj_write_set@[s].entries@[k]]
        r.entry_exists(t, s, k) implies {
            &&& r.entry(t, s, k).p_obj_actual < r.heap@.len()
            &&& r.entry(t, s, k).thread_id == r.pool@[t].uniq_id
            &&& r.registered(t)
            &&& (r.holding(t, s, k, h2, lo2, ps2, kk2) ==> r.heap@[r.entry(
                t,
                s,
                k,
            ).p_obj_actual as int].p_obj_copy == Ptr::InWriteSet(
                t as usize,
                s as usize,
                k as usize,
            ))
        } by {
        assert(r.holding(t, s, k, h1, lo1, ps1, kk1) == r.holding(t, s, k, h2, lo2, ps2, kk2));
    }
}

/// Offsets of ring slots seen from two heads `d` counters apart.
proof fn lemma_offset_shift(oh: int, nh: int, u: int)
    requires
        0 <= oh <= nh < oh + RLU_MAX_WRITE_SETS,
        0 <= u < RLU_MAX_WRITE_SETS,
    ensures
        ({
            let old_off = (u - slot(oh) + RLU_MAX_WRITE_SETS) % (RLU_MAX_WRITE_SETS as int);
            let new_off = (u - slot(nh) + RLU_MAX_WRITE_SETS) % (RLU_MAX_WRITE_SETS as int);
            &&& 0 <= old_off < RLU_MAX_WRITE_SETS
            &&& 0 <= new_off < RLU_MAX_WRITE_SETS
            &&& old_off >= nh - oh ==> new_off == old_off - (nh - oh)
            &&& old_off < nh - oh ==> new_off == old_off - (nh - oh) + RLU_MAX_WRITE_SETS
        }),
{
    let d = nh - oh;
    assert(((u - nh % 200 + 200) % 200 == (u - oh % 200 + 200) % 200 - d || (u - nh % 200 + 200) % 200
        == (u - oh % 200 + 200) % 200 - d + 200) && ((u - oh % 200 + 200) % 200 >= d ==> (u - nh % 200 + 200)
        % 200 == (u - oh % 200 + 200) % 200 - d) && ((u - oh % 200 + 200) % 200 < d ==> (u - nh % 200 + 200)
        % 200 == (u - oh % 200 + 200) % 200 - d + 200)) by (nonlinear_arith)
        requires
            nh == oh + d,
            0 <= d < 200,
            oh >= 0,
            0 <= u < 200,
    {
        vstd::arithmetic::div_mod::lemma_fundamental_div_mod(oh, 200);
        vstd::arithmetic::div_mod::lemma_fundamental_div_mod(nh, 200);
        vstd::arithmetic::div_mod::lemma_fundamental_div_mod(u - oh % 200 + 200, 200);
        vstd::arithmetic::div_mod::lemma_fundamental_div_mod(u - nh % 200 + 200, 200);
    }
}

/// Object `i` after thread `h` wrote back the write sets at offsets
/// `lo..hi` from its head slot: an object locked by one of their entries
/// holds the entry's copy and is unlocked.
pub open spec fn written_back<D>(a: Rlu<D>, h: int, lo: int, hi: int, i: int) -> HeapObj<D> {
    match a.heap@[i].p_obj_copy {
        Ptr::InWriteSet(t, s, k) => if t == h && lo <= a.pool@[h].offset(s as int) < hi {
            HeapObj { p_obj_copy: Ptr::Null, data: a.entry(t as int, s as int, k as int).copy, ..a.heap@[i] }
        } else {
            a.heap@[i]
        },
        _ => a.heap@[i],
    }
}

/// `b` is `a` with only heap data and headers changed.
proof fn lemma_heap_only_threads<D>(a: Rlu<D>, b: Rlu<D>)
    requires
        a.wf_threads(),
        b == (Rlu { heap: b.heap, ..a }),
        b.heap@.len() == a.heap@.len(),
    ensures
        b.wf_threads(),
{
    assert forall|t: int, x: int|
        0 <= t < b.pool@.len() && 0 <= x < b.pool@[t].free_nodes@.len() implies (
        #[trigger] b.pool@[t].free_nodes@[x] matches Ptr::Actual(j) && j < b.heap@.len()) by {
        assert(a.pool@[t].free_nodes@[x] matches Ptr::Actual(j) && j < a.heap@.len());
    }
}

/// Writing back and unlocking entry `k` of the write set of counter `c`.
proof fn lemma_unlock_entry<D>(a: Rlu<D>, b: Rlu<D>, h: int, c: int, k: int)
    requires
        a.wf_threads(),
        a.wf_locks_except(h, c, slot(c), k),
        0 <= h < a.pool@.len(),
        a.pool@[h].ws_head_counter <= c <= a.pool@[h].ws_tail_counter,
        a.entry_exists(h, slot(c), k),
        ({
            let e = a.entry(h, slot(c), k);
            &&& b == Rlu { heap: b.heap, ..a }
            &&& b.heap@ == a.heap@.update(e.p_obj_actual as int, HeapObj { p_obj_copy: Ptr::Null, data: e.copy, ..a.heap@[e.p_obj_actual as int] })
        }),
    ensures
        b.wf_threads(),
        b.wf_locks_except(h, c, slot(c), k + 1),
        a.heap@[a.entry(h, slot(c), k).p_obj_actual as int].p_obj_copy == Ptr::InWriteSet(h as usize, slot(c) as usize, k as usize),
{
    let th = a.pool@[h];
    let e = a.entry(h, slot(c), k);
    let j = e.p_obj_actual as int;
    assert(th.wf());
    assert(th.offset(slot(c)) == c - th.ws_head_counter) by {
        lemma_offset_of_counter(th, c);
    }
    assert(a.holding(h, slot(c), k, h, c, slot(c), k));
    assert(a.heap@[j].p_obj_copy == Ptr::InWriteSet(h as usize, slot(c) as usize, k as usize));
    lemma_heap_only_threads(a, b);
    assert forall|i: int| 0 <= i < b.heap@.len() implies match #[trigger] b.heap@[i].p_obj_copy {
        Ptr::Null => true,
        Ptr::InWriteSet(t, s, kk) => {
            &&& b.entry_exists(t as int, s as int, kk as int)
            &&& b.entry(t as int, s as int, kk as int).p_obj_actual == i
            &&& b.holding(t as int, s as int, kk as int, h, c, slot(c), k + 1)
        },
        _ => false,
    } by {
        if i != j {
            assert(b.heap@[i] == a.heap@[i]);
            match a.heap@[i].p_obj_copy {
                Ptr::InWriteSet(t, s, kk) => {
                    assert(a.entry_exists(t as int, s as int, kk as int));
                    assert(!(t as int == h && s as int == slot(c) && kk as int == k));
                },
                _ => {},
            }
        }
    }
    assert forall|t: int, s: int, kk: int|
        #![trigger b.pool@[t].obj_write_set@[s].entries@[kk]]
        b.entry_exists(t, s, kk) implies {
            &&& b.entry(t, s, kk).p_obj_actual < b.heap@.len()
            &&& b.entry(t, s, kk).thread_id == b.pool@[t].uniq_id
            &&& b.registered(t)
            &&& (b.holding(t, s, kk, h, c, slot(c), k + 1) ==> b.heap@[b.entry(
                t,
                s,
                kk,
            ).p_obj_actual as int].p_obj_copy == Ptr::InWriteSet(
                t as usize,
                s as usize,
                kk as usize,
            ))
        } by {
        assert(a.entry_exists(t, s, kk));
        assert(a.pool@[t].obj_write_set@[s].entries@[kk] == b.pool@[t].obj_write_set@[s].entries@[kk]);
        if b.holding(t, s, kk, h, c, slot(c), k + 1) {
            assert(a.holding(t, s, kk, h, c, slot(c), k));
            assert(a.heap@[a.entry(t, s, kk).p_obj_actual as int].p_obj_copy == Ptr::InWriteSet(t as usize, s as usize, kk as usize));
            if a.entry(t, s, kk).p_obj_actual as int == j {
                assert(t < a.pool.len() && h < a.pool.len());
                assert(kk < a.pool@[t].obj_write_set@[s].entries.len());
                assert(k < a.pool@[h].obj_write_set@[slot(c)].entries.len());
                assert(t == h && s == slot(c) && kk == k);
            }
        }
    }
}

/// Copies the copies of write set `slot(ws_counter)` of thread `h` back to
/// their objects and unlocks them.
fn rlu_writeback_write_set<D: Copy>(rlu: &mut Rlu<D>, h: usize, ws_counter: usize)
    requires
        old(rlu).wf_threads(),
        old(rlu).wf_locks_except(h as int, ws_counter as int, slot(ws_counter as int), 0),
        h < old(rlu).pool@.len(),
        old(rlu).pool@[h as int].ws_head_counter <= ws_counter <= old(rlu).pool@[h as int].ws_tail_counter,
    ensures
        final(rlu).wf_threads(),
        final(rlu).wf_locks_except(h as int, ws_counter + 1, slot(ws_counter as int), 0),
        *final(rlu) == (Rlu { heap: final(rlu).heap, ..*old(rlu) }),
        final(rlu).heap@.len() == old(rlu).heap@.len(),
        forall|i: int| 0 <= i < old(rlu).heap@.len() ==> #[trigger] final(rlu).heap@[i] == written_back(
            *old(rlu),
            h as int,
            ws_counter - old(rlu).pool@[h as int].ws_head_counter,
            ws_counter - old(rlu).pool@[h as int].ws_head_counter + 1,
            i,
        ),
{
    let ghost a = *rlu;
    let ghost th = a.pool@[h as int];
    let ghost c = ws_counter as int;
    proof {
        assert(th.wf());
        assert(th.offset(slot(c)) == c - th.ws_head_counter) by {
            lemma_offset_of_counter(th, c);
        }
        assert(ws_wf(th.obj_write_set@[slot(c)]));
    }
    let ws_id = WS_INDEX(ws_counter);
    let n = rlu.pool[h].obj_write_set[ws_id].num_of_objs;
    for x in 0..n
        invariant
            rlu.wf_threads(),
            rlu.wf_locks_except(h as int, c, slot(c), x as int),
            *rlu == (Rlu { heap: rlu.heap, ..a }),
            a == *old(rlu),
            th == a.pool@[h as int],
            h < a.pool@.len(),
            ws_id == slot(c),
            c == ws_counter,
            th.ws_head_counter <= c <= th.ws_tail_counter,
            n == th.obj_write_set@[ws_id as int].entries@.len(),
            th.offset(slot(c)) == c - th.ws_head_counter,
            rlu.heap@.len() == a.heap@.len(),
            forall|i: int| 0 <= i < a.heap@.len() ==> #[trigger] rlu.heap@[i] == match a.heap@[i].p_obj_copy {
                Ptr::InWriteSet(t, s, k) => if t == h && s == ws_id && k < x {
                    HeapObj { p_obj_copy: Ptr::Null, data: a.entry(t as int, s as int, k as int).copy, ..a.heap@[i] }
                } else {
                    a.heap@[i]
                },
                _ => a.heap@[i],
            },
    {
        let ghost before = *rlu;
        let e = rlu.pool[h].obj_write_set[ws_id].entries[x as usize];
        proof {
            assert(before.entry_exists(h as int, slot(c), x as int));
            assert(e == before.entry(h as int, slot(c), x as int));
        }
        rlu.heap[e.p_obj_actual].data = e.copy;
        UNLOCK(rlu, e.p_obj_actual);
        proof {
            let b = *rlu;
            let j = e.p_obj_actual as int;
            assert(b.heap@ =~= before.heap@.update(j, HeapObj { p_obj_copy: Ptr::Null, data: e.copy, ..before.heap@[j] }));
            lemma_unlock_entry(before, b, h as int, c, x as int);
            assert(a.heap@[j] == before.heap@[j]) by {
                match a.heap@[j].p_obj_copy {
                    Ptr::InWriteSet(t, s, k) => {
                        if t == h && s == ws_id && k < x {
                            assert(before.heap@[j].p_obj_copy is Null);
                        }
                    },
                    _ => {},
                }
            }
            assert forall|i: int| 0 <= i < a.heap@.len() implies #[trigger] b.heap@[i] == match a.heap@[i].p_obj_copy {
                Ptr::InWriteSet(t, s, k) => if t == h && s == ws_id && k < x + 1 {
                    HeapObj { p_obj_copy: Ptr::Null, data: a.entry(t as int, s as int, k as int).copy, ..a.heap@[i] }
                } else {
                    a.heap@[i]
                },
                _ => a.heap@[i],
            } by {
                if i != j {
                    assert(b.heap@[i] == before.heap@[i]);
                    if let Ptr::InWriteSet(t, s, k) = a.heap@[i].p_obj_copy {
                        if t == h && s == ws_id && k == x {
                            assert(a.entry(h as int, slot(c), x as int).p_obj_actual == i);
                        }
                    }
                }
            }
        }
    }
    proof {
        let b = *rlu;
        assert forall|t: int, s: int, k: int| b.entry_exists(t, s, k) implies b.holding(t, s, k, h as int, c, slot(c), n as int) == b.holding(t, s, k, h as int, c + 1, slot(c), 0) by {
            if t == h {
                assert(b.pool@[t] == th);
                if s == slot(c) {
                } else {
                    assert(th.offset(s) != c - th.ws_head_counter) by {
                        lemma_offset_injective(th, s, slot(c));
                    }
                }
            }
        }
        lemma_locks_equiv(b, h as int, c, slot(c), n as int, h as int, c + 1, slot(c), 0);
        assert forall|i: int| 0 <= i < a.heap@.len() implies #[trigger] b.heap@[i] == written_back(a, h as int, c - th.ws_head_counter, c - th.ws_head_counter + 1, i) by {
            if let Ptr::InWriteSet(t, s, k) = a.heap@[i].p_obj_copy {
                if t == h {
                    assert(a.entry_exists(t as int, s as int, k as int));
                    if s as int != slot(c) {
                        assert(th.offset(s as int) != c - th.ws_head_counter) by {
                            lemma_offset_injective(th, s as int, slot(c));
                        }
                    }
                }
            }
        }
    }
}

/// Distinct ring slots sit at distinct offsets.
proof fn lemma_offset_injective<D>(th: rlu_thread_data_t<D>, s1: int, s2: int)
    requires
        0 <= s1 < RLU_MAX_WRITE_SETS,
        0 <= s2 < RLU_MAX_WRITE_SETS,
        s1 != s2,
    ensures
        th.offset(s1) != th.offset(s2),
{
    let hs = slot(th.ws_head_counter as int);
    assert(0 <= hs < 200);
    assert((s1 - hs + 200) % 200 != (s2 - hs + 200) % 200) by (nonlinear_arith)
        requires
            0 <= s1 < 200,
            0 <= s2 < 200,
            0 <= hs < 200,
            s1 != s2,
    {
        vstd::arithmetic::div_mod::lemma_fundamental_div_mod(s1 - hs + 200, 200);
        vstd::arithmetic::div_mod::lemma_fundamental_div_mod(s2 - hs + 200, 200);
    }
}

/// Emptying a write set of thread `h` that holds no locks keeps the state
/// well formed.
proof fn lemma_reset_free_slot<D>(a: Rlu<D>, b: Rlu<D>, h: int, u: int)
    requires
        a.wf_core(),
        0 <= h < a.pool@.len(),
        0 <= u < RLU_MAX_WRITE_SETS,
        a.pool@[h].offset(u) < a.pool@[h].ws_wb_counter - a.pool@[h].ws_head_counter,
        only_thread_changed(a, b, h),
        only_ws_changed(a.pool@[h], b.pool@[h], u),
        ws_clean(b.pool@[h].obj_write_set@[u]),
    ensures
        b.wf_core(),
{
    let th = a.pool@[h];
    let nth = b.pool@[h];
    assert(th.wf());
    assert(nth.wf()) by {
        assert forall|v: int| 0 <= v < RLU_MAX_WRITE_SETS implies ws_wf(#[trigger] nth.obj_write_set@[v]) by {
            assert(ws_wf(th.obj_write_set@[v]));
        }
        assert forall|v: int| 0 <= v < RLU_MAX_WRITE_SETS && !nth.in_window(v) implies ws_clean(#[trigger] nth.obj_write_set@[v]) by {
            assert(ws_clean(th.obj_write_set@[v]));
        }
    }
    assert forall|t: int| 0 <= t < b.pool@.len() implies (#[trigger] b.pool@[t]).wf() by {
        assert(a.pool@[t].wf());
    }
    assert forall|j: int| 0 <= j < b.cur_threads implies (#[trigger] b.threads@[j] matches Some(h2) && h2 < b.pool@.len()) by {
        assert(a.threads@[j] matches Some(h2) && h2 < a.pool@.len());
    }
    assert forall|t: int, x: int|
        0 <= t < b.pool@.len() && 0 <= x < b.pool@[t].free_nodes@.len() implies (
        #[trigger] b.pool@[t].free_nodes@[x] matches Ptr::Actual(j) && j < b.heap@.len()) by {
        assert(b.pool@[t].free_nodes == a.pool@[t].free_nodes);
        assert(a.pool@[t].free_nodes@[x] matches Ptr::Actual(j) && j < a.heap@.len());
    }
    assert forall|t: int, s: int, k: int| b.entry_exists(t, s, k) implies a.entry_exists(t, s, k) && #[trigger] b.entry(t, s, k) == a.entry(t, s, k) by {
        if t == h && s == u {
            assert(ws_clean(nth.obj_write_set@[s]));
        }
    }
    assert forall|t: int| 0 <= t < b.pool@.len() implies b.registered(t) == a.registered(t) && (forall|s: int| b.pool@[t].holds_locks(s) == a.pool@[t].holds_locks(s)) by {}
    assert forall|i: int| 0 <= i < b.heap@.len() implies match #[trigger] b.heap@[i].p_obj_copy {
        Ptr::Null => true,
        Ptr::InWriteSet(t, s, k) => {
            &&& b.entry_exists(t as int, s as int, k as int)
            &&& b.entry(t as int, s as int, k as int).p_obj_actual == i
            &&& b.holding(t as int, s as int, k as int, -1, 0, 0, 0)
        },
        _ => false,
    } by {
        match a.heap@[i].p_obj_copy {
            Ptr::InWriteSet(t, s, k) => {
                assert(a.entry_exists(t as int, s as int, k as int));
                assert(a.pool@[t as int].holds_locks(s as int));
                assert(!(t as int == h && s as int == u));
                assert(b.pool@[t as int].obj_write_set@[s as int] == a.pool@[t as int].obj_write_set@[s as int]);
                assert(b.entry(t as int, s as int, k as int) == a.entry(t as int, s as int, k as int));
            },
            _ => {},
        }
    }
    assert forall|t: int, s: int, k: int|
        #![trigger b.pool@[t].obj_write_set@[s].entries@[k]]
        b.entry_exists(t, s, k) implies {
            &&& b.entry(t, s, k).p_obj_actual < b.heap@.len()
            &&& b.entry(t, s, k).thread_id == b.pool@[t].uniq_id
            &&& b.registered(t)
            &&& (b.holding(t, s, k, -1, 0, 0, 0) ==> b.heap@[b.entry(
                t,
                s,
                k,
            ).p_obj_actual as int].p_obj_copy == Ptr::InWriteSet(
                t as usize,
                s as usize,
                k as usize,
            ))
        } by {
        assert(a.entry_exists(t, s, k));
        assert(a.pool@[t].obj_write_set@[s].entries@[k] == b.pool@[t].obj_write_set@[s].entries@[k]);
    }
}

/// Moving the head counter of thread `h` up to its write-back counter,
/// once the write sets in between are empty, keeps the state well formed
/// and the same write sets holding locks.
#[verifier::spinoff_prover]
#[verifier::rlimit(40)]
proof fn lemma_advance_head<D>(a: Rlu<D>, b: Rlu<D>, h: int)
    requires
        a.wf_core(),
        0 <= h < a.pool@.len(),
        forall|u: int|
            0 <= u < RLU_MAX_WRITE_SETS && a.pool@[h].offset(u) < a.pool@[h].ws_wb_counter - a.pool@[h].ws_head_counter
                ==> ws_clean(#[trigger] a.pool@[h].obj_write_set@[u]),
        thread_set(a, b, h, rlu_thread_data_t { ws_head_counter: a.pool@[h].ws_wb_counter, ..a.pool@[h] }),
    ensures
        b.wf_core(),
        forall|u: int|
            0 <= u < RLU_MAX_WRITE_SETS ==> (#[trigger] b.pool@[h].holds_locks(u)) == a.pool@[h].holds_locks(u),
        forall|u: int|
            0 <= u < RLU_MAX_WRITE_SETS && a.pool@[h].offset(u) >= a.pool@[h].ws_wb_counter - a.pool@[h].ws_head_counter
                ==> #[trigger] b.pool@[h].offset(u) == a.pool@[h].offset(u) - (a.pool@[h].ws_wb_counter - a.pool@[h].ws_head_counter),
{
    let th = a.pool@[h];
    let nth = b.pool@[h];
    assert(th.wf());
    assert forall|u: int| 0 <= u < RLU_MAX_WRITE_SETS implies {
        &&& (th.offset(u) >= th.ws_wb_counter - th.ws_head_counter ==> nth.offset(u) == th.offset(u) - (th.ws_wb_counter - th.ws_head_counter))
        &&& (th.offset(u) < th.ws_wb_counter - th.ws_head_counter ==> nth.offset(u) == th.offset(u) - (th.ws_wb_counter - th.ws_head_counter) + RLU_MAX_WRITE_SETS)
    } by {
        lemma_offset_shift(th.ws_head_counter as int, th.ws_wb_counter as int, u);
    }
    assert forall|u: int| 0 <= u < RLU_MAX_WRITE_SETS implies (#[trigger] nth.holds_locks(u)) == th.holds_locks(u) by {}
    assert(nth.wf()) by {
        assert forall|v: int| 0 <= v < RLU_MAX_WRITE_SETS implies ws_wf(#[trigger] nth.obj_write_set@[v]) by {
            assert(ws_wf(th.obj_write_set@[v]));
        }
        assert forall|v: int| 0 <= v < RLU_MAX_WRITE_SETS && !nth.in_window(v) implies ws_clean(#[trigger] nth.obj_write_set@[v]) by {
            if th.in_window(v) {
                assert(th.offset(v) < th.ws_wb_counter - th.ws_head_counter);
            } else {
                assert(ws_clean(th.obj_write_set@[v]));
            }
        }
    }
    assert(same_locking(a, b)) by {
        assert forall|t: int| 0 <= t < a.pool@.len() implies {
            &&& (#[trigger] b.pool@[t]).uniq_id == a.pool@[t].uniq_id
            &&& forall|s: int| #[trigger] b.pool@[t].holds_locks(s) == a.pool@[t].holds_locks(s)
            &&& b.pool@[t].obj_write_set@.len() == a.pool@[t].obj_write_set@.len()
            &&& (b.pool@[t].free_nodes == a.pool@[t].free_nodes || b.free_valid(t))
            &&& b.pool@[t].wf()
            &&& (a.pool@[t].settled() ==> b.pool@[t].settled())
        } by {
            assert(a.pool@[t].wf());
        }
    }
}

/// Empties the write sets already written back, then writes back and
/// unlocks the committed ones; returns how many it wrote back.
fn rlu_writeback_write_sets_and_unlock<D: Copy>(rlu: &mut Rlu<D>, h: usize) -> (ws_wb_num: u32)
    requires
        old(rlu).wf_core(),
        h < old(rlu).pool@.len(),
    ensures
        final(rlu).wf_core(),
        ({
            let th = old(rlu).pool@[h as int];
            &&& ws_wb_num == th.ws_tail_counter - th.ws_wb_counter
            &&& *final(rlu) == (Rlu { heap: final(rlu).heap, pool: final(rlu).pool, ..*old(rlu) })
            &&& final(rlu).heap@.len() == old(rlu).heap@.len()
            &&& forall|i: int| 0 <= i < old(rlu).heap@.len() ==> #[trigger] final(rlu).heap@[i] == written_back(
                *old(rlu),
                h as int,
                th.ws_wb_counter - th.ws_head_counter,
                th.ws_tail_counter - th.ws_head_counter,
                i,
            )
            &&& final(rlu).pool@.len() == old(rlu).pool@.len()
            &&& forall|t: int| 0 <= t < old(rlu).pool@.len() && t != h ==> #[trigger] final(rlu).pool@[t] == old(rlu).pool@[t]
            &&& final(rlu).pool@[h as int] == (rlu_thread_data_t {
                ws_head_counter: th.ws_wb_counter,
                ws_wb_counter: th.ws_tail_counter,
                obj_write_set: final(rlu).pool@[h as int].obj_write_set,
                ..th
            })
            &&& final(rlu).pool@[h as int].obj_write_set@.len() == RLU_MAX_WRITE_SETS
            &&& forall|u: int| 0 <= u < RLU_MAX_WRITE_SETS ==> if th.offset(u) < th.ws_wb_counter - th.ws_head_counter {
                ws_clean(#[trigger] final(rlu).pool@[h as int].obj_write_set@[u])
            } else {
                final(rlu).pool@[h as int].obj_write_set@[u] == th.obj_write_set@[u]
            }
        }),
{
    let ghost a = *rlu;
    let ghost th = a.pool@[h as int];
    proof {
        assert(th.wf());
    }
    let head = rlu.pool[h].ws_head_counter;
    let wb = rlu.pool[h].ws_wb_counter;
    for ws_counter in head..wb
        invariant
            rlu.wf_core(),
            a == *old(rlu),
            th == a.pool@[h as int],
            h < a.pool@.len(),
            th.wf(),
            head == th.ws_head_counter,
            wb == th.ws_wb_counter,
            only_thread_changed(a, *rlu, h as int),
            rlu.pool@[h as int] == (rlu_thread_data_t { obj_write_set: rlu.pool@[h as int].obj_write_set, ..th }),
            rlu.pool@[h as int].obj_write_set@.len() == RLU_MAX_WRITE_SETS,
            forall|u: int| 0 <= u < RLU_MAX_WRITE_SETS ==> if th.offset(u) < ws_counter - head {
                ws_clean(#[trigger] rlu.pool@[h as int].obj_write_set@[u])
            } else {
                rlu.pool@[h as int].obj_write_set@[u] == th.obj_write_set@[u]
            },
    {
        let ghost before = *rlu;
        proof {
            assert(th.offset(slot(ws_counter as int)) == ws_counter - head) by {
                lemma_offset_of_counter(th, ws_counter as int);
            }
            assert(before.pool@[h as int].offset(slot(ws_counter as int)) == th.offset(slot(ws_counter as int)));
        }
        rlu_reset_write_set(rlu, h, ws_counter);
        proof {
            lemma_reset_free_slot(before, *rlu, h as int, slot(ws_counter as int));
            assert forall|u: int| 0 <= u < RLU_MAX_WRITE_SETS implies if th.offset(u) < ws_counter + 1 - head {
                ws_clean(#[trigger] rlu.pool@[h as int].obj_write_set@[u])
            } else {
                rlu.pool@[h as int].obj_write_set@[u] == th.obj_write_set@[u]
            } by {
                if u != slot(ws_counter as int) {
                    assert(th.offset(u) != ws_counter - head) by {
                        lemma_offset_injective(th, u, slot(ws_counter as int));
                    }
                }
            }
        }
    }
    let ghost reset = *rlu;
    rlu.pool[h].ws_head_counter = rlu.pool[h].ws_wb_counter;
    let ghost m = *rlu;
    proof {
        assert(m.pool@ =~= reset.pool@.update(h as int, m.pool@[h as int]));
        lemma_advance_head(reset, m, h as int);
        lemma_locks_equiv(m, -1, 0, 0, 0, h as int, wb as int, slot(wb as int), 0);
    }
    let mut ws_wb_num: u32 = 0;
    let tail = rlu.pool[h].ws_tail_counter;
    for ws_counter in wb..tail
        invariant
            rlu.wf_threads(),
            rlu.wf_locks_except(h as int, ws_counter as int, slot(ws_counter as int), 0),
            m.wf_core(),
            a == *old(rlu),
            th == a.pool@[h as int],
            th.wf(),
            h < a.pool@.len(),
            wb == th.ws_wb_counter,
            tail == th.ws_tail_counter,
            m.pool@[h as int] == (rlu_thread_data_t { ws_head_counter: wb, obj_write_set: m.pool@[h as int].obj_write_set, ..th }),
            m == (Rlu { pool: m.pool, ..a }),
            m.pool@.len() == a.pool@.len(),
            forall|t: int| 0 <= t < a.pool@.len() && t != h ==> #[trigger] m.pool@[t] == a.pool@[t],
            m.pool@[h as int].obj_write_set@.len() == RLU_MAX_WRITE_SETS,
            forall|u: int| 0 <= u < RLU_MAX_WRITE_SETS ==> if th.offset(u) < th.ws_wb_counter - th.ws_head_counter {
                ws_clean(#[trigger] m.pool@[h as int].obj_write_set@[u])
            } else {
                m.pool@[h as int].obj_write_set@[u] == th.obj_write_set@[u]
            },
            forall|u: int|
                0 <= u < RLU_MAX_WRITE_SETS && th.offset(u) >= th.ws_wb_counter - th.ws_head_counter
                    ==> #[trigger] m.pool@[h as int].offset(u) == th.offset(u) - (th.ws_wb_counter - th.ws_head_counter),
            *rlu == (Rlu { heap: rlu.heap, ..m }),
            ws_wb_num == ws_counter - wb,
            rlu.heap@.len() == a.heap@.len(),
            forall|i: int| 0 <= i < a.heap@.len() ==> #[trigger] rlu.heap@[i] == written_back(m, h as int, 0, ws_counter - wb, i),
    {
        let ghost before = *rlu;
        rlu_writeback_write_set(rlu, h, ws_counter);
        ws_wb_num = ws_wb_num + 1;
        proof {
            let b = *rlu;
            assert forall|t: int, s: int, k: int| b.entry_exists(t, s, k) implies b.holding(t, s, k, h as int, ws_counter + 1, slot(ws_counter as int), 0) == b.holding(t, s, k, h as int, ws_counter + 1, slot(ws_counter + 1), 0) by {}
            lemma_locks_equiv(b, h as int, ws_counter + 1, slot(ws_counter as int), 0, h as int, ws_counter + 1, slot(ws_counter + 1), 0);
            assert forall|i: int| 0 <= i < a.heap@.len() implies #[trigger] b.heap@[i] == written_back(m, h as int, 0, ws_counter + 1 - wb, i) by {
                assert(b.heap@[i] == written_back(before, h as int, ws_counter - wb, ws_counter - wb + 1, i));
                assert(before.heap@[i] == written_back(m, h as int, 0, ws_counter - wb, i));
                if let Ptr::InWriteSet(t, s, k) = m.heap@[i].p_obj_copy {
                    if t == h {
                        assert(m.pool@[h as int].offset(s as int) == before.pool@[h as int].offset(s as int));
                    }
                }
            }
        }
    }
    let ghost fin = *rlu;
    rlu.pool[h].ws_wb_counter = rlu.pool[h].ws_tail_counter;
    proof {
        let b = *rlu;
        assert(b.pool@ =~= fin.pool@.update(h as int, b.pool@[h as int]));
        let nth = b.pool@[h as int];
        assert(nth.wf()) by {
            assert(m.pool@[h as int].wf());
            assert forall|v: int| 0 <= v < RLU_MAX_WRITE_SETS implies ws_wf(#[trigger] nth.obj_write_set@[v]) by {
                assert(ws_wf(m.pool@[h as int].obj_write_set@[v]));
            }
            assert forall|v: int| 0 <= v < RLU_MAX_WRITE_SETS && !nth.in_window(v) implies ws_clean(#[trigger] nth.obj_write_set@[v]) by {
                assert(ws_clean(m.pool@[h as int].obj_write_set@[v]));
            }
        }
        assert(b.wf_threads()) by {
            assert forall|t: int| 0 <= t < b.pool@.len() implies (#[trigger] b.pool@[t]).wf() by {
                assert(fin.pool@[t].wf());
            }
            assert forall|t: int, x: int|
                0 <= t < b.pool@.len() && 0 <= x < b.pool@[t].free_nodes@.len() implies (
                #[trigger] b.pool@[t].free_nodes@[x] matches Ptr::Actual(j) && j < b.heap@.len()) by {
                assert(fin.pool@[t].free_nodes == b.pool@[t].free_nodes);
                assert(fin.pool@[t].free_nodes@[x] matches Ptr::Actual(j) && j < fin.heap@.len());
            }
            assert forall|j: int| 0 <= j < b.cur_threads implies (#[trigger] b.threads@[j] matches Some(h2) && h2 < b.pool@.len()) by {
                assert(fin.threads@[j] matches Some(h2) && h2 < fin.pool@.len());
            }
        }
        assert forall|t: int, s: int, k: int| fin.entry_exists(t, s, k) implies fin.holding(t, s, k, h as int, tail as int, slot(tail as int), 0) == b.holding(t, s, k, -1, 0, 0, 0) by {}
        assert(b.wf_locks_except(h as int, tail as int, slot(tail as int), 0)) by {
            assert forall|t: int, s: int, k: int| b.entry_exists(t, s, k) == fin.entry_exists(t, s, k) by {}
        }
        lemma_locks_equiv(b, h as int, tail as int, slot(tail as int), 0, -1, 0, 0, 0);
        assert forall|i: int| 0 <= i < a.heap@.len() implies #[trigger] b.heap@[i] == written_back(a, h as int, th.ws_wb_counter - th.ws_head_counter, th.ws_tail_counter - th.ws_head_counter, i) by {
            assert(b.heap@[i] == written_back(m, h as int, 0, tail - wb, i));
            assert(m.heap@[i] == a.heap@[i]);
            if let Ptr::InWriteSet(t, s, k) = a.heap@[i].p_obj_copy {
                assert(a.entry_exists(t as int, s as int, k as int));
                if t == h {
                    assert(th.holds_locks(s as int));
                    assert(m.pool@[h as int].offset(s as int) == th.offset(s as int) - (wb - th.ws_head_counter));
                    assert(m.pool@[h as int].obj_write_set@[s as int] == th.obj_write_set@[s as int]);
                }
                assert(m.entry(t as int, s as int, k as int) == a.entry(t as int, s as int, k as int));
            }
        }
    }
    ws_wb_num
}

/// Object `i` after it was written back and, if thread `th` queued it,
/// freed.
pub open spec fn synced_obj<D>(a: Rlu<D>, h: int, i: int) -> HeapObj<D> {
    let th = a.pool@[h];
    let w = written_back(a, h, th.ws_wb_counter - th.ws_head_counter, th.ws_tail_counter - th.ws_head_counter, i);
    if queued(th, i) {
        HeapObj { live: false, ..w }
    } else {
        w
    }
}

/// `b` is `a` after thread `h` synchronized and wrote back: nothing happens
/// when it has no write set; else the global versions move on, the thread
/// waits for a grace period, empties its written-back write sets, writes
/// back and unlocks its committed ones and frees what it queued.
pub open spec fn synced<D>(a: Rlu<D>, b: Rlu<D>, h: int) -> bool {
    let th = a.pool@[h];
    if th.ws_tail_counter == th.ws_head_counter {
        b == a
    } else {
        &&& b == Rlu {
            heap: b.heap,
            pool: b.pool,
            writer_version: inc_usize(a.writer_version),
            commit_version: inc_usize(a.commit_version),
            ..a
        }
        &&& b.heap@.len() == a.heap@.len()
        &&& forall|i: int| 0 <= i < a.heap@.len() ==> #[trigger] b.heap@[i] == synced_obj(a, h, i)
        &&& b.pool@.len() == a.pool@.len()
        &&& forall|t: int| 0 <= t < a.pool@.len() && t != h ==> #[trigger] b.pool@[t] == a.pool@[t]
        &&& b.pool@[h] == rlu_thread_data_t {
            n_sync_and_writeback: inc32(th.n_sync_and_writeback),
            writer_version: RLU_MAX_VERSION,
            is_sync: if th.is_sync == 1 { 0 } else { th.is_sync },
            ws_head_counter: th.ws_wb_counter,
            ws_wb_counter: th.ws_tail_counter,
            q_threads: if th.is_no_quiescence == 1 { th.q_threads } else { b.pool@[h].q_threads },
            obj_write_set: b.pool@[h].obj_write_set,
            free_nodes: b.pool@[h].free_nodes,
            ..th
        }
        &&& b.pool@[h].free_nodes@.len() == 0
        &&& th.is_no_quiescence != 1 ==> {
            &&& b.pool@[h].q_threads@.len() == RLU_MAX_THREADS
            &&& forall|j: int| 0 <= j < RLU_MAX_THREADS ==> #[trigger] b.pool@[h].q_threads@[j] == quiescence_entry(a, h, j)
        }
        &&& b.pool@[h].obj_write_set@.len() == RLU_MAX_WRITE_SETS
        &&& forall|u: int| 0 <= u < RLU_MAX_WRITE_SETS ==> if th.offset(u) < th.ws_wb_counter - th.ws_head_counter {
            ws_clean(#[trigger] b.pool@[h].obj_write_set@[u])
        } else {
            b.pool@[h].obj_write_set@[u] == th.obj_write_set@[u]
        }
    }
}

/// When thread `h` has write sets: waits for a grace period, writes back
/// and unlocks its committed write sets, and frees what it queued.
fn rlu_sync_and_writeback<D: Copy>(rlu: &mut Rlu<D>, h: usize)
    requires
        old(rlu).wf_core(),
        old(rlu).writer_version == old(rlu).commit_version,
        old(rlu).settled_except(h as int),
        h < old(rlu).pool@.len(),
        no_other_readers(*old(rlu), h as int),
    ensures
        final(rlu).wf(),
        synced(*old(rlu), *final(rlu), h as int),
{
    if rlu.pool[h].ws_tail_counter == rlu.pool[h].ws_head_counter {
        return;
    }
    let ghost a = *rlu;
    let ghost th = a.pool@[h as int];
    proof {
        assert(th.wf());
    }
    rlu.pool[h].n_sync_and_writeback = rlu.pool[h].n_sync_and_writeback.wrapping_add(1);
    let _ws_num = rlu.pool[h].ws_tail_counter - rlu.pool[h].ws_wb_counter;
    let gw = #[verifier::truncate] (rlu.writer_version as u32);
    rlu.pool[h].writer_version = gw.wrapping_add(1);
    rlu.writer_version = rlu.writer_version.wrapping_add(1);
    let ghost s1 = *rlu;
    proof {
        assert(s1.pool@ =~= a.pool@.update(h as int, s1.pool@[h as int]));
        lemma_same_locking_wf(a, s1);
        assert forall|j: int| 0 <= j < RLU_MAX_THREADS implies quiescence_entry(s1, h as int, j) == quiescence_entry(a, h as int, j) by {
            if j < a.cur_threads && j != th.uniq_id && a.threads@[j] is Some {
                let o = a.threads@[j]->0 as int;
                assert(a.threads@[j] matches Some(oo) && oo < a.pool@.len());
                if o == h {
                } else {
                    assert(s1.pool@[o] == a.pool@[o]);
                }
            }
        }
    }
    rlu_synchronize(rlu, h);
    let ghost s2 = *rlu;
    let _ws_wb_num = rlu_writeback_write_sets_and_unlock(rlu, h);
    let ghost s3 = *rlu;
    rlu.pool[h].writer_version = RLU_MAX_VERSION;
    rlu.commit_version = rlu.commit_version.wrapping_add(1);
    if rlu.pool[h].is_sync == 1 {
        rlu.pool[h].is_sync = 0;
    }
    let ghost s4 = *rlu;
    proof {
        assert(s4.pool@ =~= s3.pool@.update(h as int, s4.pool@[h as int]));
        lemma_same_locking_wf(s3, s4);
        assert forall|i: int| 0 <= i < a.heap@.len() implies #[trigger] s3.heap@[i] == written_back(a, h as int, th.ws_wb_counter - th.ws_head_counter, th.ws_tail_counter - th.ws_head_counter, i) by {
            assert(s3.heap@[i] == written_back(s2, h as int, th.ws_wb_counter - th.ws_head_counter, th.ws_tail_counter - th.ws_head_counter, i));
            assert(s2.heap@[i] == a.heap@[i]);
            if let Ptr::InWriteSet(t, s, k) = a.heap@[i].p_obj_copy {
                assert(a.entry_exists(t as int, s as int, k as int));
                if t as int == h {
                    assert(s2.pool@[h as int].obj_write_set == th.obj_write_set);
                    assert(s2.pool@[h as int].offset(s as int) == th.offset(s as int));
                } else {
                    assert(s2.pool@[t as int] == a.pool@[t as int]);
                }
                assert(s2.entry(t as int, s as int, k as int) == a.entry(t as int, s as int, k as int));
            }
        }
    }
    rlu_process_free(rlu, h);
    proof {
        let b = *rlu;
        assert(s4.pool@[h as int].free_nodes == th.free_nodes);
        assert forall|i: int| 0 <= i < a.heap@.len() implies #[trigger] b.heap@[i] == synced_obj(a, h as int, i) by {
            assert(s4.heap@[i] == s3.heap@[i]);
        }
        assert(b.pool@[h as int] == rlu_thread_data_t {
            n_sync_and_writeback: inc32(th.n_sync_and_writeback),
            writer_version: RLU_MAX_VERSION,
            is_sync: if th.is_sync == 1 { 0 } else { th.is_sync },
            ws_head_counter: th.ws_wb_counter,
            ws_wb_counter: th.ws_tail_counter,
            q_threads: if th.is_no_quiescence == 1 { th.q_threads } else { b.pool@[h as int].q_threads },
            obj_write_set: b.pool@[h as int].obj_write_set,
            free_nodes: b.pool@[h as int].free_nodes,
            ..th
        });
    }
}

/// Thread data of `th` once its current write set is committed.
pub open spec fn committed_thread<D>(th: rlu_thread_data_t<D>) -> rlu_thread_data_t<D> {
    rlu_thread_data_t {
        n_writers: inc32(th.n_writers),
        n_writer_writeback: inc32(th.n_writer_writeback),
        ws_tail_counter: (th.ws_tail_counter + 1) as usize,
        ws_cur_id: slot(th.ws_tail_counter + 1) as usize,
        ..th
    }
}

/// After a commit, thread `th` must write back: its ring is full or it
/// holds as many committed write sets as it may.
pub open spec fn commit_syncs<D>(th: rlu_thread_data_t<D>) -> bool {
    let n = committed_thread(th);
    slot(n.ws_tail_counter as int) == slot(n.ws_head_counter as int) || n.ws_tail_counter
        - n.ws_wb_counter >= n.max_write_set
}

/// `b` is `a` after thread `h` committed its current write set: the tail
/// counter moves on, and the thread writes back when it must.
pub open spec fn committed<D>(a: Rlu<D>, b: Rlu<D>, h: int) -> bool {
    let th = a.pool@[h];
    if commit_syncs(th) {
        exists|m: Rlu<D>| thread_set(a, m, h, committed_thread(th)) && #[trigger] synced(m, b, h)
    } else {
        thread_set(a, b, h, committed_thread(th))
    }
}

/// Moving the tail counter of a settled thread keeps the state well formed
/// (the thread itself may be unsettled).
proof fn lemma_commit_step<D>(a: Rlu<D>, m: Rlu<D>, h: int)
    requires
        a.wf(),
        0 <= h < a.pool@.len(),
        a.pool@[h].ws_tail_counter < usize::MAX,
        thread_set(a, m, h, committed_thread(a.pool@[h])),
    ensures
        m.wf_core(),
        m.writer_version == m.commit_version,
        m.settled_except(h),
        !commit_syncs(a.pool@[h]) ==> m.wf(),
{
    let th = a.pool@[h];
    let nth = m.pool@[h];
    assert(th.wf());
    assert(th.settled());
    assert(nth.offset(slot(th.ws_tail_counter + 1)) == th.ws_tail_counter + 1 - th.ws_head_counter) by {
        lemma_offset_of_counter(nth, th.ws_tail_counter + 1);
    }
    assert forall|u: int| 0 <= u < RLU_MAX_WRITE_SETS implies nth.offset(u) == th.offset(u) by {}
    assert(nth.wf()) by {
        assert forall|v: int| 0 <= v < RLU_MAX_WRITE_SETS implies ws_wf(#[trigger] nth.obj_write_set@[v]) by {
            assert(ws_wf(th.obj_write_set@[v]));
        }
        assert forall|v: int| 0 <= v < RLU_MAX_WRITE_SETS && !nth.in_window(v) implies ws_clean(#[trigger] nth.obj_write_set@[v]) by {
            assert(ws_clean(th.obj_write_set@[v]));
        }
    }
    assert forall|u: int| 0 <= u < RLU_MAX_WRITE_SETS && nth.holds_locks(u) != th.holds_locks(u) implies ws_clean(#[trigger] th.obj_write_set@[u]) by {
        assert(u == slot(th.ws_tail_counter + 1)) by {
            if u != slot(th.ws_tail_counter + 1) {
                lemma_offset_injective(nth, u, slot(th.ws_tail_counter + 1));
            }
        }
        assert(!th.in_window(u));
    }
    assert(m.wf_threads()) by {
        assert forall|t: int| 0 <= t < m.pool@.len() implies (#[trigger] m.pool@[t]).wf() by {
            assert(a.pool@[t].wf());
        }
        assert forall|t: int, x: int|
            0 <= t < m.pool@.len() && 0 <= x < m.pool@[t].free_nodes@.len() implies (
            #[trigger] m.pool@[t].free_nodes@[x] matches Ptr::Actual(j) && j < m.heap@.len()) by {
            assert(a.pool@[t].free_nodes == m.pool@[t].free_nodes);
            assert(a.pool@[t].free_nodes@[x] matches Ptr::Actual(j) && j < a.heap@.len());
        }
        assert forall|j: int| 0 <= j < m.cur_threads implies (#[trigger] m.threads@[j] matches Some(h2) && h2 < m.pool@.len()) by {
            assert(a.threads@[j] matches Some(h2) && h2 < a.pool@.len());
        }
    }
    assert forall|t: int, s: int, k: int| m.entry_exists(t, s, k) == a.entry_exists(t, s, k) by {}
    assert forall|t: int, s: int, k: int| m.entry_exists(t, s, k) implies m.holding(t, s, k, -1, 0, 0, 0) == a.holding(t, s, k, -1, 0, 0, 0) by {
        if t == h && nth.holds_locks(s) != th.holds_locks(s) {
            assert(ws_clean(th.obj_write_set@[s]));
        }
    }
    assert(m.wf_locks()) by {
        assert forall|i: int| 0 <= i < m.heap@.len() implies match #[trigger] m.heap@[i].p_obj_copy {
            Ptr::Null => true,
            Ptr::InWriteSet(t, s, k) => {
                &&& m.entry_exists(t as int, s as int, k as int)
                &&& m.entry(t as int, s as int, k as int).p_obj_actual == i
                &&& m.holding(t as int, s as int, k as int, -1, 0, 0, 0)
            },
            _ => false,
        } by {
            match a.heap@[i].p_obj_copy {
                Ptr::InWriteSet(t, s, k) => {
                    assert(a.entry_exists(t as int, s as int, k as int));
                },
                _ => {},
            }
        }
        assert forall|t: int, s: int, k: int|
            #![trigger m.pool@[t].obj_write_set@[s].entries@[k]]
            m.entry_exists(t, s, k) implies {
                &&& m.entry(t, s, k).p_obj_actual < m.heap@.len()
                &&& m.entry(t, s, k).thread_id == m.pool@[t].uniq_id
                &&& m.registered(t)
                &&& (m.holding(t, s, k, -1, 0, 0, 0) ==> m.heap@[m.entry(
                    t,
                    s,
                    k,
                ).p_obj_actual as int].p_obj_copy == Ptr::InWriteSet(
                    t as usize,
                    s as usize,
                    k as usize,
                ))
            } by {
            assert(a.entry_exists(t, s, k));
            assert(a.pool@[t].obj_write_set@[s].entries@[k] == m.pool@[t].obj_write_set@[s].entries@[k]);
        }
    }
    assert forall|t: int| 0 <= t < m.pool@.len() && t != h implies (#[trigger] m.pool@[t]).settled() by {
        assert(a.pool@[t].settled());
    }
}

/// Commits the current write set of thread `h` and writes back when the
/// thread must.
fn rlu_commit_write_set<D: Copy>(rlu: &mut Rlu<D>, h: usize)
    requires
        old(rlu).wf(),
        h < old(rlu).pool@.len(),
        old(rlu).pool@[h as int].ws_tail_counter < usize::MAX,
        commit_syncs(old(rlu).pool@[h as int]) ==> no_other_readers(*old(rlu), h as int),
    ensures
        final(rlu).wf(),
        committed(*old(rlu), *final(rlu), h as int),
{
    rlu.pool[h].n_writers = rlu.pool[h].n_writers.wrapping_add(1);
    rlu.pool[h].n_writer_writeback = rlu.pool[h].n_writer_writeback.wrapping_add(1);
    rlu.pool[h].ws_tail_counter = rlu.pool[h].ws_tail_counter + 1;
    rlu.pool[h].ws_cur_id = WS_INDEX(rlu.pool[h].ws_tail_counter);
    let cond1 = WS_INDEX(rlu.pool[h].ws_tail_counter) == WS_INDEX(rlu.pool[h].ws_head_counter);
    proof {
        assert(old(rlu).pool@[h as int].wf());
    }
    let cond2 = (rlu.pool[h].ws_tail_counter - rlu.pool[h].ws_wb_counter) >= rlu.pool[h].max_write_set;
    let ghost m = *rlu;
    proof {
        assert(m.pool@ =~= old(rlu).pool@.update(h as int, m.pool@[h as int]));
        assert(m.pool@[h as int] == committed_thread(old(rlu).pool@[h as int]));
        lemma_commit_step(*old(rlu), m, h as int);
    }
    if cond1 || cond2 {
        rlu_sync_and_writeback(rlu, h);
        proof {
            assert(thread_set(*old(rlu), m, h as int, committed_thread(old(rlu).pool@[h as int])));
            assert(synced(m, *rlu, h as int));
        }
    }
}

/// `b` is `a` after thread `h` honoured a synchronization request, if it
/// had one.
pub open spec fn checkpointed<D>(a: Rlu<D>, b: Rlu<D>, h: int) -> bool {
    let th = a.pool@[h];
    if th.is_sync == 0 {
        b == a
    } else {
        exists|m: Rlu<D>|
            thread_set(a, m, h, rlu_thread_data_t { n_sync_requests: inc32(th.n_sync_requests), ..th })
                && #[trigger] synced(m, b, h)
    }
}

/// Synchronizes and writes back if another thread asked for it.
fn rlu_sync_checkpoint<D: Copy>(rlu: &mut Rlu<D>, h: usize)
    requires
        old(rlu).wf(),
        h < old(rlu).pool@.len(),
        old(rlu).pool@[h as int].is_sync != 0 ==> no_other_readers(*old(rlu), h as int),
    ensures
        final(rlu).wf(),
        checkpointed(*old(rlu), *final(rlu), h as int),
{
    if rlu.pool[h].is_sync == 0 {
        return;
    }
    rlu.pool[h].n_sync_requests = rlu.pool[h].n_sync_requests.wrapping_add(1);
    let ghost m = *rlu;
    proof {
        assert(m.pool@ =~= old(rlu).pool@.update(h as int, m.pool@[h as int]));
        lemma_same_locking_wf(*old(rlu), m);
    }
    rlu_sync_and_writeback(rlu, h);
    proof {
        assert(synced(m, *rlu, h as int));
    }
}

/// The data of thread `th` once it has entered a section, the global
/// versions being `wv` and `cv`.
pub open spec fn entered_thread<D>(th: rlu_thread_data_t<D>, wv: usize, cv: usize) -> rlu_thread_data_t<D> {
    let lv = wv as u32;
    let lcv = cv as u32;
    let pure = lv == lcv && th.ws_tail_counter == th.ws_wb_counter;
    rlu_thread_data_t {
        is_write_detected: 0,
        is_steal: if lv == lcv { 0 } else { 1 },
        is_check_locks: if pure { 0 } else { 1 },
        run_counter: inc_usize(th.run_counter),
        local_version: lv,
        local_commit_version: lcv,
        n_pure_readers: if pure { inc32(th.n_pure_readers) } else { th.n_pure_readers },
        ..th
    }
}

/// `b` is `a` after thread `h` entered a section: it counts the start,
/// honours a synchronization request, then takes the global versions; it
/// need not check locks when nothing is committed and unwritten.
pub open spec fn reader_locked<D>(a: Rlu<D>, b: Rlu<D>, h: int) -> bool {
    let th = a.pool@[h];
    exists|m0: Rlu<D>, m1: Rlu<D>| {
        &&& thread_set(a, m0, h, rlu_thread_data_t { n_starts: inc32(th.n_starts), ..th })
        &&& #[trigger] checkpointed(m0, m1, h)
        &&& thread_set(m1, b, h, entered_thread(m1.pool@[h], m1.writer_version, m1.commit_version))
    }
}

/// Enters a section for thread `h`.
fn rlu_reader_lock<D: Copy>(rlu: &mut Rlu<D>, h: usize)
    requires
        old(rlu).wf(),
        h < old(rlu).pool@.len(),
        old(rlu).pool@[h as int].is_sync != 0 ==> no_other_readers(*old(rlu), h as int),
    ensures
        final(rlu).wf(),
        reader_locked(*old(rlu), *final(rlu), h as int),
{
    rlu.pool[h].n_starts = rlu.pool[h].n_starts.wrapping_add(1);
    let ghost m0 = *rlu;
    proof {
        assert(m0.pool@ =~= old(rlu).pool@.update(h as int, m0.pool@[h as int]));
        lemma_same_locking_wf(*old(rlu), m0);
    }
    rlu_sync_checkpoint(rlu, h);
    let ghost m1 = *rlu;
    rlu_reset(rlu, h);
    rlu_register_thread(rlu, h);
    rlu.pool[h].is_steal = 1;
    proof {
        assert(rlu.pool@[h as int].local_version == rlu.pool@[h as int].local_commit_version);
        assert(rlu.pool@[h as int].wf());
    }
    if (rlu.pool[h].local_version - rlu.pool[h].local_commit_version) == 0 {
        rlu.pool[h].is_steal = 0;
    }
    rlu.pool[h].is_check_locks = 1;
    if ((rlu.pool[h].local_version - rlu.pool[h].local_commit_version) == 0) && ((rlu.pool[h].ws_tail_counter - rlu.pool[h].ws_wb_counter) == 0) {
        rlu.pool[h].is_check_locks = 0;
        rlu.pool[h].n_pure_readers = rlu.pool[h].n_pure_readers.wrapping_add(1);
    }
    proof {
        let b = *rlu;
        assert(b.pool@ =~= m1.pool@.update(h as int, b.pool@[h as int]));
        assert(b.pool@[h as int] == entered_thread(m1.pool@[h as int], m1.writer_version, m1.commit_version));
        lemma_same_locking_wf(m1, b);
        assert(checkpointed(m0, m1, h as int));
    }
}

/// `b` is `a` with the writer locks recorded in write set `ws_id` of thread
/// `h` freed.
pub open spec fn released<D>(a: Rlu<D>, b: Rlu<D>, h: int, ws_id: int) -> bool {
    &&& b == Rlu { writer_locks: b.writer_locks, ..a }
    &&& b.writer_locks@.len() == a.writer_locks@.len()
    &&& forall|j: int|
        0 <= j < a.writer_locks@.len() ==> #[trigger] b.writer_locks@[j] == if a.pool@[h].obj_write_set@[ws_id].writer_locks@.contains(j as usize) {
            0
        } else {
            a.writer_locks@[j]
        }
}

/// `b` is `a` after thread `h` left its section: it counts the finish; if
/// it wrote, it commits and frees the writer locks of the committed write
/// set, else it frees those of its current one and empties their list;
/// then it honours a synchronization request.
pub open spec fn reader_unlocked<D>(a: Rlu<D>, b: Rlu<D>, h: int) -> bool {
    let th = a.pool@[h];
    let th0 = rlu_thread_data_t { n_finish: inc32(th.n_finish), run_counter: inc_usize(th.run_counter), ..th };
    if th.is_write_detected != 0 {
        exists|m0: Rlu<D>, m1: Rlu<D>, m2: Rlu<D>| {
            &&& thread_set(a, m0, h, rlu_thread_data_t { is_write_detected: 0, ..th0 })
            &&& #[trigger] committed(m0, m1, h)
            &&& #[trigger] released(m1, m2, h, slot(m1.pool@[h].ws_tail_counter - 1))
            &&& #[trigger] checkpointed(m2, b, h)
        }
    } else {
        exists|m0: Rlu<D>, m2: Rlu<D>, m3: Rlu<D>| {
            &&& thread_set(a, m0, h, th0)
            &&& #[trigger] released(m0, m2, h, th.ws_cur_id as int)
            &&& #[trigger] locks_forgotten(m2, m3, h, th.ws_cur_id as int)
            &&& #[trigger] checkpointed(m3, b, h)
        }
    }
}

/// Leaves the section of thread `h`.
fn rlu_reader_unlock<D: Copy>(rlu: &mut Rlu<D>, h: usize)
    requires
        old(rlu).wf(),
        h < old(rlu).pool@.len(),
        old(rlu).pool@[h as int].is_write_detected != 0 ==> old(rlu).pool@[h as int].ws_tail_counter < usize::MAX,
        old(rlu).pool@[h as int].is_sync != 0 || (old(rlu).pool@[h as int].is_write_detected != 0 && commit_syncs(
            old(rlu).pool@[h as int],
        )) ==> no_other_readers(*old(rlu), h as int),
    ensures
        final(rlu).wf(),
        reader_unlocked(*old(rlu), *final(rlu), h as int),
{
    rlu.pool[h].n_finish = rlu.pool[h].n_finish.wrapping_add(1);
    let ghost a0 = *rlu;
    proof {
        assert(a0.pool@ =~= old(rlu).pool@.update(h as int, a0.pool@[h as int]));
        lemma_same_locking_wf(*old(rlu), a0);
    }
    rlu_unregister_thread(rlu, h);
    if rlu.pool[h].is_write_detected != 0 {
        rlu.pool[h].is_write_detected = 0;
        let ghost m0 = *rlu;
        proof {
            assert(m0.pool@ =~= old(rlu).pool@.update(h as int, m0.pool@[h as int]));
            if no_other_readers(*old(rlu), h as int) {
                lemma_no_other_readers_frame(*old(rlu), m0, h as int);
            }
            lemma_same_locking_wf(*old(rlu), m0);
        }
        rlu_commit_write_set(rlu, h);
        let ghost m1 = *rlu;
        proof {
            assert(m1.pool@[h as int].wf());
            assert(committed(m0, m1, h as int));
            if commit_syncs(m0.pool@[h as int]) {
                let m = choose|m: Rlu<D>| thread_set(m0, m, h as int, committed_thread(m0.pool@[h as int])) && #[trigger] synced(m, m1, h as int);
                assert(m1.pool@[h as int].ws_tail_counter == m0.pool@[h as int].ws_tail_counter + 1);
            }
            assert(m1.pool@[h as int].ws_tail_counter >= 1);
        }
        let last = WS_INDEX(rlu.pool[h].ws_tail_counter - 1);
        rlu_release_writer_locks(rlu, h, last);
        let ghost m2 = *rlu;
        proof {
            lemma_same_locking_wf(m1, m2);
        }
        rlu_sync_checkpoint(rlu, h);
        proof {
            let a = *old(rlu);
            let th = a.pool@[h as int];
            let th0 = rlu_thread_data_t { n_finish: inc32(th.n_finish), run_counter: inc_usize(th.run_counter), ..th };
            assert(m0.pool@[h as int] == rlu_thread_data_t { is_write_detected: 0, ..th0 });
            assert(thread_set(a, m0, h as int, rlu_thread_data_t { is_write_detected: 0, ..th0 }));
            assert(released(m1, m2, h as int, slot(m1.pool@[h as int].ws_tail_counter - 1)));
            assert(checkpointed(m2, *rlu, h as int));
        }
    } else {
        let ghost m0 = *rlu;
        let cur = rlu.pool[h].ws_cur_id;
        proof {
            assert(rlu.pool@[h as int].wf());
        }
        rlu_release_writer_locks(rlu, h, cur);
        let ghost m2 = *rlu;
        proof {
            lemma_same_locking_wf(m0, m2);
            assert(m2.pool@[h as int].wf());
        }
        rlu_reset_writer_locks(rlu, h, cur);
        let ghost m3 = *rlu;
        proof {
            let th3 = m3.pool@[h as int];
            let th2 = m2.pool@[h as int];
            assert(th3.wf()) by {
                assert forall|v: int| 0 <= v < RLU_MAX_WRITE_SETS implies ws_wf(#[trigger] th3.obj_write_set@[v]) by {
                    assert(ws_wf(th2.obj_write_set@[v]));
                }
                assert forall|v: int| 0 <= v < RLU_MAX_WRITE_SETS && !th3.in_window(v) implies ws_clean(#[trigger] th3.obj_write_set@[v]) by {
                    assert(ws_clean(th2.obj_write_set@[v]));
                }
            }
            assert(same_locking(m2, m3)) by {
                assert forall|t: int| 0 <= t < m2.pool@.len() implies {
                    &&& (#[trigger] m3.pool@[t]).uniq_id == m2.pool@[t].uniq_id
                    &&& forall|s: int| #[trigger] m3.pool@[t].holds_locks(s) == m2.pool@[t].holds_locks(s)
                    &&& m3.pool@[t].obj_write_set@.len() == m2.pool@[t].obj_write_set@.len()
                    &&& (m3.pool@[t].free_nodes == m2.pool@[t].free_nodes || m3.free_valid(t))
                    &&& m3.pool@[t].wf()
                    &&& (m2.pool@[t].settled() ==> m3.pool@[t].settled())
                } by {
                    assert(m2.pool@[t].wf());
                }
                assert forall|t: int, s: int|
                    0 <= t < m2.pool@.len() && 0 <= s < m2.pool@[t].obj_write_set@.len() implies (
                    #[trigger] m3.pool@[t].obj_write_set@[s]).entries@.len()
                        == m2.pool@[t].obj_write_set@[s].entries@.len() by {}
                assert forall|t: int, s: int, k: int|
                    #![trigger m3.pool@[t].obj_write_set@[s].entries@[k]]
                    m2.entry_exists(t, s, k) implies {
                        &&& m3.entry(t, s, k).p_obj_actual == m2.entry(t, s, k).p_obj_actual
                        &&& m3.entry(t, s, k).thread_id == m2.entry(t, s, k).thread_id
                    } by {}
            }
            lemma_same_locking_wf(m2, m3);
            if no_other_readers(*old(rlu), h as int) {
                lemma_no_other_readers_frame(*old(rlu), m3, h as int);
            }
        }
        rlu_sync_checkpoint(rlu, h);
        proof {
            let a = *old(rlu);
            let th = a.pool@[h as int];
            let th0 = rlu_thread_data_t { n_finish: inc32(th.n_finish), run_counter: inc_usize(th.run_counter), ..th };
            assert(m0.pool@ =~= a.pool@.update(h as int, m0.pool@[h as int]));
            assert(m0.pool@[h as int] == th0);
            assert(thread_set(a, m0, h as int, th0));
            assert(released(m0, m2, h as int, cur as int));
            assert(locks_forgotten(m2, m3, h as int, cur as int));
            assert(checkpointed(m3, *rlu, h as int));
        }
    }
}

/// What thread `h` changes alone leaves the others out of their sections.
proof fn lemma_no_other_readers_frame<D>(a: Rlu<D>, b: Rlu<D>, h: int)
    requires
        a.wf_threads(),
        no_other_readers(a, h),
        0 <= h < a.pool@.len(),
        b.threads == a.threads,
        b.cur_threads == a.cur_threads,
        b.pool@.len() == a.pool@.len(),
        b.pool@[h].uniq_id == a.pool@[h].uniq_id,
        forall|t: int| 0 <= t < a.pool@.len() && t != h ==> #[trigger] b.pool@[t] == a.pool@[t],
    ensures
        no_other_readers(b, h),
{
    assert forall|j: int| 0 <= j < b.cur_threads && j != b.pool@[h].uniq_id implies (#[trigger] b.threads@[j] matches Some(t)
        && b.pool@[t as int].run_counter % 2 == 0) by {
        assert(a.threads@[j] matches Some(t) && t < a.pool@.len() && a.pool@[t as int].uniq_id == j);
        assert(a.threads@[j] matches Some(t) && a.pool@[t as int].run_counter % 2 == 0);
    }
}

/// Unlocking the object of entry `k` of slot `ps` of thread `h`, which
/// holds its lock, leaves the entry not holding it.
proof fn lemma_unlock_own_entry<D>(a: Rlu<D>, b: Rlu<D>, h: int, lo: int, ps: int, k: int)
    requires
        a.wf_threads(),
        a.wf_locks_except(h, lo, ps, k),
        0 <= h < a.pool@.len(),
        a.entry_exists(h, ps, k),
        a.holding(h, ps, k, h, lo, ps, k),
        ({
            let j = a.entry(h, ps, k).p_obj_actual as int;
            &&& b == Rlu { heap: b.heap, ..a }
            &&& b.heap@ == a.heap@.update(j, HeapObj { p_obj_copy: Ptr::Null, ..a.heap@[j] })
        }),
    ensures
        b.wf_threads(),
        b.wf_locks_except(h, lo, ps, k + 1),
        a.heap@[a.entry(h, ps, k).p_obj_actual as int].p_obj_copy == Ptr::InWriteSet(h as usize, ps as usize, k as usize),
{
    let e = a.entry(h, ps, k);
    let j = e.p_obj_actual as int;
    assert(a.heap@[j].p_obj_copy == Ptr::InWriteSet(h as usize, ps as usize, k as usize));
    lemma_heap_only_threads(a, b);
    assert forall|i: int| 0 <= i < b.heap@.len() implies match #[trigger] b.heap@[i].p_obj_copy {
        Ptr::Null => true,
        Ptr::InWriteSet(t, s, kk) => {
            &&& b.entry_exists(t as int, s as int, kk as int)
            &&& b.entry(t as int, s as int, kk as int).p_obj_actual == i
            &&& b.holding(t as int, s as int, kk as int, h, lo, ps, k + 1)
        },
        _ => false,
    } by {
        if i != j {
            assert(b.heap@[i] == a.heap@[i]);
            match a.heap@[i].p_obj_copy {
                Ptr::InWriteSet(t, s, kk) => {
                    assert(a.entry_exists(t as int, s as int, kk as int));
                    assert(!(t as int == h && s as int == ps && kk as int == k));
                },
                _ => {},
            }
        }
    }
    assert forall|t: int, s: int, kk: int|
        #![trigger b.pool@[t].obj_write_set@[s].entries@[kk]]
        b.entry_exists(t, s, kk) implies {
            &&& b.entry(t, s, kk).p_obj_actual < b.heap@.len()
            &&& b.entry(t, s, kk).thread_id == b.pool@[t].uniq_id
            &&& b.registered(t)
            &&& (b.holding(t, s, kk, h, lo, ps, k + 1) ==> b.heap@[b.entry(
                t,
                s,
                kk,
            ).p_obj_actual as int].p_obj_copy == Ptr::InWriteSet(
                t as usize,
                s as usize,
                kk as usize,
            ))
        } by {
        assert(a.entry_exists(t, s, kk));
        assert(a.pool@[t].obj_write_set@[s].entries@[kk] == b.pool@[t].obj_write_set@[s].entries@[kk]);
        if b.holding(t, s, kk, h, lo, ps, k + 1) {
            assert(a.holding(t, s, kk, h, lo, ps, k));
            assert(a.heap@[a.entry(t, s, kk).p_obj_actual as int].p_obj_copy == Ptr::InWriteSet(t as usize, s as usize, kk as usize));
            if a.entry(t, s, kk).p_obj_actual as int == j {
                assert(t < a.pool.len() && h < a.pool.len());
                assert(kk < a.pool@[t].obj_write_set@[s].entries.len());
                assert(k < a.pool@[h].obj_write_set@[ps].entries.len());
                assert(t == h && s == ps && kk == k);
            }
        }
    }
}

/// `b` is `a` with the objects that thread `h` locked in its current write
/// set unlocked (their data untouched).
pub open spec fn objs_unlocked<D>(a: Rlu<D>, b: Rlu<D>, h: int) -> bool {
    let cur = slot(a.pool@[h].ws_tail_counter as int);
    &&& b == Rlu { heap: b.heap, ..a }
    &&& b.heap@.len() == a.heap@.len()
    &&& forall|i: int| 0 <= i < a.heap@.len() ==> #[trigger] b.heap@[i] == match a.heap@[i].p_obj_copy {
        Ptr::InWriteSet(t, s, k) => if t == h && s == cur {
            HeapObj { p_obj_copy: Ptr::Null, ..a.heap@[i] }
        } else {
            a.heap@[i]
        },
        _ => a.heap@[i],
    }
}

/// Unlocks the objects locked in write set `slot(ws_counter)` (the current
/// one) of thread `h`, without writing their copies back.
fn rlu_unlock_objs<D: Copy>(rlu: &mut Rlu<D>, h: usize, ws_counter: usize)
    requires
        old(rlu).wf(),
        h < old(rlu).pool@.len(),
        ws_counter == old(rlu).pool@[h as int].ws_tail_counter,
    ensures
        final(rlu).wf_threads(),
        ({
            let th = old(rlu).pool@[h as int];
            final(rlu).wf_locks_except(h as int, th.ws_wb_counter as int, slot(ws_counter as int), th.obj_write_set@[slot(ws_counter as int)].entries@.len() as int)
        }),
        objs_unlocked(*old(rlu), *final(rlu), h as int),
{
    let ghost a = *rlu;
    let ghost th = a.pool@[h as int];
    let ghost c = ws_counter as int;
    let ghost wb = th.ws_wb_counter as int;
    proof {
        assert(th.wf());
        assert(th.offset(slot(c)) == c - th.ws_head_counter) by {
            lemma_offset_of_counter(th, c);
        }
        assert(ws_wf(th.obj_write_set@[slot(c)]));
        assert forall|t: int, s: int, k: int| a.entry_exists(t, s, k) implies a.holding(t, s, k, -1, 0, 0, 0) == a.holding(t, s, k, h as int, wb, slot(c), 0) by {}
        lemma_locks_equiv(a, -1, 0, 0, 0, h as int, wb, slot(c), 0);
    }
    let ws_id = WS_INDEX(ws_counter);
    let n = rlu.pool[h].obj_write_set[ws_id].num_of_objs;
    for x in 0..n
        invariant
            rlu.wf_threads(),
            rlu.wf_locks_except(h as int, wb, slot(c), x as int),
            *rlu == (Rlu { heap: rlu.heap, ..a }),
            a == *old(rlu),
            th == a.pool@[h as int],
            th.wf(),
            h < a.pool@.len(),
            ws_id == slot(c),
            c == ws_counter,
            c == th.ws_tail_counter,
            wb == th.ws_wb_counter,
            n == th.obj_write_set@[ws_id as int].entries@.len(),
            th.offset(slot(c)) == c - th.ws_head_counter,
            rlu.heap@.len() == a.heap@.len(),
            forall|i: int| 0 <= i < a.heap@.len() ==> #[trigger] rlu.heap@[i] == match a.heap@[i].p_obj_copy {
                Ptr::InWriteSet(t, s, k) => if t == h && s == ws_id && k < x {
                    HeapObj { p_obj_copy: Ptr::Null, ..a.heap@[i] }
                } else {
                    a.heap@[i]
                },
                _ => a.heap@[i],
            },
    {
        let ghost before = *rlu;
        let p_obj_actual = rlu.pool[h].obj_write_set[ws_id].entries[x as usize].p_obj_actual;
        proof {
            assert(before.entry_exists(h as int, slot(c), x as int));
            assert(before.holding(h as int, slot(c), x as int, h as int, wb, slot(c), x as int));
            assert(before.heap@[p_obj_actual as int].p_obj_copy == Ptr::InWriteSet(h, ws_id, x as usize));
        }
        UNLOCK(rlu, p_obj_actual);
        proof {
            let b = *rlu;
            let j = p_obj_actual as int;
            lemma_unlock_own_entry(before, b, h as int, wb, slot(c), x as int);
            assert(a.heap@[j] == before.heap@[j]) by {
                match a.heap@[j].p_obj_copy {
                    Ptr::InWriteSet(t, s, k) => {
                        if t == h && s == ws_id && k < x {
                            assert(before.heap@[j].p_obj_copy is Null);
                        }
                    },
                    _ => {},
                }
            }
            assert forall|i: int| 0 <= i < a.heap@.len() implies #[trigger] b.heap@[i] == match a.heap@[i].p_obj_copy {
                Ptr::InWriteSet(t, s, k) => if t == h && s == ws_id && k < x + 1 {
                    HeapObj { p_obj_copy: Ptr::Null, ..a.heap@[i] }
                } else {
                    a.heap@[i]
                },
                _ => a.heap@[i],
            } by {
                if i != j {
                    assert(b.heap@[i] == before.heap@[i]);
                    if let Ptr::InWriteSet(t, s, k) = a.heap@[i].p_obj_copy {
                        if t == h && s == ws_id && k == x {
                            assert(a.entry(h as int, slot(c), x as int).p_obj_actual == i);
                        }
                    }
                }
            }
        }
    }
    proof {
        let b = *rlu;
        assert forall|i: int| 0 <= i < a.heap@.len() implies #[trigger] b.heap@[i] == match a.heap@[i].p_obj_copy {
            Ptr::InWriteSet(t, s, k) => if t == h && s == ws_id {
                HeapObj { p_obj_copy: Ptr::Null, ..a.heap@[i] }
            } else {
                a.heap@[i]
            },
            _ => a.heap@[i],
        } by {
            if let Ptr::InWriteSet(t, s, k) = a.heap@[i].p_obj_copy {
                assert(a.entry_exists(t as int, s as int, k as int));
            }
        }
    }
}

/// Emptying the current write set of thread `h` once its objects are
/// unlocked restores a well-formed state.
proof fn lemma_reset_unlocked_slot<D>(a: Rlu<D>, b: Rlu<D>, h: int)
    requires
        a.wf_threads(),
        a.all_settled(),
        0 <= h < a.pool@.len(),
        ({
            let th = a.pool@[h];
            let u = slot(th.ws_tail_counter as int);
            &&& a.wf_locks_except(h, th.ws_wb_counter as int, u, th.obj_write_set@[u].entries@.len() as int)
            &&& only_thread_changed(a, b, h)
            &&& only_ws_changed(th, b.pool@[h], u)
            &&& ws_clean(b.pool@[h].obj_write_set@[u])
        }),
    ensures
        b.wf_core(),
        b.all_settled(),
{
    let th = a.pool@[h];
    let nth = b.pool@[h];
    let u = slot(th.ws_tail_counter as int);
    let n = th.obj_write_set@[u].entries@.len() as int;
    let wb = th.ws_wb_counter as int;
    assert(th.wf());
    assert(nth.wf()) by {
        assert forall|v: int| 0 <= v < RLU_MAX_WRITE_SETS implies ws_wf(#[trigger] nth.obj_write_set@[v]) by {
            assert(ws_wf(th.obj_write_set@[v]));
        }
        assert forall|v: int| 0 <= v < RLU_MAX_WRITE_SETS && !nth.in_window(v) implies ws_clean(#[trigger] nth.obj_write_set@[v]) by {
            assert(ws_clean(th.obj_write_set@[v]));
        }
    }
    assert(b.wf_threads()) by {
        assert forall|t: int| 0 <= t < b.pool@.len() implies (#[trigger] b.pool@[t]).wf() by {
            assert(a.pool@[t].wf());
        }
        assert forall|t: int, x: int|
            0 <= t < b.pool@.len() && 0 <= x < b.pool@[t].free_nodes@.len() implies (
            #[trigger] b.pool@[t].free_nodes@[x] matches Ptr::Actual(j) && j < b.heap@.len()) by {
            assert(a.pool@[t].free_nodes == b.pool@[t].free_nodes);
            assert(a.pool@[t].free_nodes@[x] matches Ptr::Actual(j) && j < a.heap@.len());
        }
        assert forall|j: int| 0 <= j < b.cur_threads implies (#[trigger] b.threads@[j] matches Some(h2) && h2 < b.pool@.len() && b.pool@[h2 as int].uniq_id == j) by {
            assert(a.threads@[j] matches Some(h2) && h2 < a.pool@.len() && a.pool@[h2 as int].uniq_id == j);
        }
    }
    assert forall|t: int, s: int, k: int| b.entry_exists(t, s, k) implies a.entry_exists(t, s, k) && #[trigger] b.entry(t, s, k) == a.entry(t, s, k) && !(t == h && s == u) by {
        if t == h && s == u {
            assert(ws_clean(nth.obj_write_set@[s]));
        }
    }
    assert(b.wf_locks()) by {
        assert forall|i: int| 0 <= i < b.heap@.len() implies match #[trigger] b.heap@[i].p_obj_copy {
            Ptr::Null => true,
            Ptr::InWriteSet(t, s, k) => {
                &&& b.entry_exists(t as int, s as int, k as int)
                &&& b.entry(t as int, s as int, k as int).p_obj_actual == i
                &&& b.holding(t as int, s as int, k as int, -1, 0, 0, 0)
            },
            _ => false,
        } by {
            match a.heap@[i].p_obj_copy {
                Ptr::InWriteSet(t, s, k) => {
                    assert(a.entry_exists(t as int, s as int, k as int));
                    assert(a.holding(t as int, s as int, k as int, h, wb, u, n));
                    assert(!(t as int == h && s as int == u));
                    assert(b.pool@[t as int].obj_write_set@[s as int] == a.pool@[t as int].obj_write_set@[s as int]);
                },
                _ => {},
            }
        }
        assert forall|t: int, s: int, k: int|
            #![trigger b.pool@[t].obj_write_set@[s].entries@[k]]
            b.entry_exists(t, s, k) implies {
                &&& b.entry(t, s, k).p_obj_actual < b.heap@.len()
                &&& b.entry(t, s, k).thread_id == b.pool@[t].uniq_id
                &&& b.registered(t)
                &&& (b.holding(t, s, k, -1, 0, 0, 0) ==> b.heap@[b.entry(
                    t,
                    s,
                    k,
                ).p_obj_actual as int].p_obj_copy == Ptr::InWriteSet(
                    t as usize,
                    s as usize,
                    k as usize,
                ))
            } by {
            assert(a.entry_exists(t, s, k));
            assert(a.pool@[t].obj_write_set@[s].entries@[k] == b.pool@[t].obj_write_set@[s].entries@[k]);
            assert(a.holding(t, s, k, h, wb, u, n) == b.holding(t, s, k, -1, 0, 0, 0));
        }
    }
    assert forall|t: int| 0 <= t < b.pool@.len() implies (#[trigger] b.pool@[t]).settled() by {
        assert(a.pool@[t].settled());
    }
}

/// `b` is `a` with write set `u` of thread `h` emptied.
pub open spec fn ws_reset<D>(a: Rlu<D>, b: Rlu<D>, h: int, u: int) -> bool {
    &&& only_thread_changed(a, b, h)
    &&& only_ws_changed(a.pool@[h], b.pool@[h], u)
    &&& ws_clean(b.pool@[h].obj_write_set@[u])
}

/// `b` is `a` with the writer-lock list of write set `u` of thread `h`
/// emptied.
pub open spec fn locks_forgotten<D>(a: Rlu<D>, b: Rlu<D>, h: int, u: int) -> bool {
    &&& only_thread_changed(a, b, h)
    &&& only_ws_changed(a.pool@[h], b.pool@[h], u)
    &&& b.pool@[h].obj_write_set@[u] == (obj_list_t {
        writer_locks: b.pool@[h].obj_write_set@[u].writer_locks,
        ..a.pool@[h].obj_write_set@[u]
    })
    &&& b.pool@[h].obj_write_set@[u].writer_locks@.len() == 0
}

/// `b` is `a` after thread `h` aborted its section: it counts the abort and
/// leaves; if it wrote, its objects are unlocked (their copies dropped), its
/// writer locks freed and its current write set emptied, else its writer
/// locks are freed and forgotten; then it honours a synchronization request.
pub open spec fn aborted<D>(a: Rlu<D>, b: Rlu<D>, h: int) -> bool {
    let th = a.pool@[h];
    let th0 = rlu_thread_data_t { n_aborts: inc32(th.n_aborts), run_counter: inc_usize(th.run_counter), ..th };
    let cur = th.ws_cur_id as int;
    if th.is_write_detected != 0 {
        exists|m0: Rlu<D>, m1: Rlu<D>, m2: Rlu<D>, m3: Rlu<D>| {
            &&& thread_set(a, m0, h, rlu_thread_data_t { is_write_detected: 0, ..th0 })
            &&& #[trigger] objs_unlocked(m0, m1, h)
            &&& #[trigger] released(m1, m2, h, cur)
            &&& #[trigger] ws_reset(m2, m3, h, slot(th.ws_tail_counter as int))
            &&& #[trigger] checkpointed(m3, b, h)
        }
    } else {
        exists|m0: Rlu<D>, m2: Rlu<D>, m3: Rlu<D>| {
            &&& thread_set(a, m0, h, th0)
            &&& #[trigger] released(m0, m2, h, cur)
            &&& #[trigger] locks_forgotten(m2, m3, h, cur)
            &&& #[trigger] checkpointed(m3, b, h)
        }
    }
}

/// Object `i` once thread `h` has committed and written back its current
/// write set: an object the thread holds takes the copy and is unlocked,
/// one it queued for freeing is dead, any other is unchanged.
pub open spec fn committed_obj<D>(a: Rlu<D>, h: int, i: int) -> HeapObj<D> {
    let o = a.heap@[i];
    let w = match o.p_obj_copy {
        Ptr::InWriteSet(t, s, k) => if t == h {
            HeapObj { p_obj_copy: Ptr::Null, data: a.entry(t as int, s as int, k as int).copy, ..o }
        } else {
            o
        },
        _ => o,
    };
    if queued(a.pool@[h], i) {
        HeapObj { live: false, ..w }
    } else {
        w
    }
}

/// Commit writes back: when a thread that keeps at most one committed
/// write set, and has none waiting, leaves a section in which it wrote,
/// with no synchronization asked of it, every object it locked holds the
/// copy it wrote and is unlocked, every object it queued is freed, and
/// nothing else changes in memory.
pub proof fn law_commit_writes_back<D>(a: Rlu<D>, b: Rlu<D>, h: int)
    requires
        a.wf(),
        0 <= h < a.pool@.len(),
        a.pool@[h].ws_tail_counter == a.pool@[h].ws_wb_counter,
        a.pool@[h].ws_tail_counter < usize::MAX,
        a.pool@[h].max_write_set <= 1,
        a.pool@[h].is_sync == 0,
        a.pool@[h].is_write_detected != 0,
        reader_unlocked(a, b, h),
    ensures
        b.heap@.len() == a.heap@.len(),
        forall|i: int| 0 <= i < a.heap@.len() ==> #[trigger] b.heap@[i] == committed_obj(a, h, i),
        b.pool@[h].ws_tail_counter == a.pool@[h].ws_tail_counter + 1,
        b.pool@[h].ws_wb_counter == b.pool@[h].ws_tail_counter,
{
    let th = a.pool@[h];
    let th0 = rlu_thread_data_t { n_finish: inc32(th.n_finish), run_counter: inc_usize(th.run_counter), ..th };
    let (m0, m1, m2) = choose|m0: Rlu<D>, m1: Rlu<D>, m2: Rlu<D>| {
        &&& thread_set(a, m0, h, rlu_thread_data_t { is_write_detected: 0, ..th0 })
        &&& #[trigger] committed(m0, m1, h)
        &&& #[trigger] released(m1, m2, h, slot(m1.pool@[h].ws_tail_counter - 1))
        &&& #[trigger] checkpointed(m2, b, h)
    };
    let t0 = m0.pool@[h];
    assert(th.wf());
    assert(commit_syncs(t0));
    let m = choose|m: Rlu<D>| thread_set(m0, m, h, committed_thread(t0)) && #[trigger] synced(m, m1, h);
    let tm = m.pool@[h];
    let c = th.ws_tail_counter as int;
    assert(tm.ws_head_counter == th.ws_head_counter);
    assert(tm.obj_write_set == th.obj_write_set);
    assert(tm.free_nodes == th.free_nodes);
    assert(m1.pool@[h].is_sync == 0);
    assert(b == m2);
    assert forall|i: int| 0 <= i < a.heap@.len() implies #[trigger] b.heap@[i] == committed_obj(a, h, i) by {
        assert(m1.heap@[i] == synced_obj(m, h, i));
        assert(m.heap@[i] == a.heap@[i]);
        match a.heap@[i].p_obj_copy {
            Ptr::InWriteSet(t, s, k) => {
                assert(m.entry(t as int, s as int, k as int) == a.entry(t as int, s as int, k as int));
                if t == h {
                    assert(a.holding(t as int, s as int, k as int, -1, 0, 0, 0));
                    assert(th.offset(s as int) == tm.offset(s as int));
                }
            },
            _ => {},
        }
    }
}

/// Readers leave memory alone: a section entered and left at once, with
/// no synchronization asked of the thread, changes no object.
pub proof fn law_read_section_keeps_heap<D>(a: Rlu<D>, m: Rlu<D>, b: Rlu<D>, h: int)
    requires
        0 <= h < a.pool@.len(),
        a.pool@[h].is_sync == 0,
        reader_locked(a, m, h),
        reader_unlocked(m, b, h),
    ensures
        b.heap == a.heap,
{
    let th = a.pool@[h];
    let (m0, m1) = choose|m0: Rlu<D>, m1: Rlu<D>| {
        &&& thread_set(a, m0, h, rlu_thread_data_t { n_starts: inc32(th.n_starts), ..th })
        &&& #[trigger] checkpointed(m0, m1, h)
        &&& thread_set(m1, m, h, entered_thread(m1.pool@[h], m1.writer_version, m1.commit_version))
    };
    assert(m1 == m0);
    let tm = m.pool@[h];
    assert(tm.is_write_detected == 0);
    assert(tm.is_sync == 0);
    let th0 = rlu_thread_data_t { n_finish: inc32(tm.n_finish), run_counter: inc_usize(tm.run_counter), ..tm };
    let (n0, n2, n3) = choose|n0: Rlu<D>, n2: Rlu<D>, n3: Rlu<D>| {
        &&& thread_set(m, n0, h, th0)
        &&& #[trigger] released(n0, n2, h, tm.ws_cur_id as int)
        &&& #[trigger] locks_forgotten(n2, n3, h, tm.ws_cur_id as int)
        &&& #[trigger] checkpointed(n3, b, h)
    };
    assert(n3.pool@[h].is_sync == 0);
    assert(b == n3);
}

/// Abort discards: when a thread with no synchronization asked of it
/// aborts its section, every object keeps its data, size and liveness.
pub proof fn law_abort_keeps_data<D>(a: Rlu<D>, b: Rlu<D>, h: int)
    requires
        0 <= h < a.pool@.len(),
        a.pool@[h].is_sync == 0,
        aborted(a, b, h),
    ensures
        b.heap@.len() == a.heap@.len(),
        forall|i: int|
            0 <= i < a.heap@.len() ==> (#[trigger] b.heap@[i]).data == a.heap@[i].data && b.heap@[i].obj_size
                == a.heap@[i].obj_size && b.heap@[i].live == a.heap@[i].live,
{
    let th = a.pool@[h];
    let th0 = rlu_thread_data_t { n_aborts: inc32(th.n_aborts), run_counter: inc_usize(th.run_counter), ..th };
    let cur = th.ws_cur_id as int;
    if th.is_write_detected != 0 {
        let (m0, m1, m2, m3) = choose|m0: Rlu<D>, m1: Rlu<D>, m2: Rlu<D>, m3: Rlu<D>| {
            &&& thread_set(a, m0, h, rlu_thread_data_t { is_write_detected: 0, ..th0 })
            &&& #[trigger] objs_unlocked(m0, m1, h)
            &&& #[trigger] released(m1, m2, h, cur)
            &&& #[trigger] ws_reset(m2, m3, h, slot(th.ws_tail_counter as int))
            &&& #[trigger] checkpointed(m3, b, h)
        };
        assert(m3.pool@[h].is_sync == 0);
        assert(b == m3);
        assert forall|i: int| 0 <= i < a.heap@.len() implies (#[trigger] b.heap@[i]).data == a.heap@[i].data
            && b.heap@[i].obj_size == a.heap@[i].obj_size && b.heap@[i].live == a.heap@[i].live by {
            assert(m1.heap@[i] == b.heap@[i]);
        }
    } else {
        let (m0, m2, m3) = choose|m0: Rlu<D>, m2: Rlu<D>, m3: Rlu<D>| {
            &&& thread_set(a, m0, h, th0)
            &&& #[trigger] released(m0, m2, h, cur)
            &&& #[trigger] locks_forgotten(m2, m3, h, cur)
            &&& #[trigger] checkpointed(m3, b, h)
        };
        assert(m3.pool@[h].is_sync == 0);
        assert(b == m3);
    }
}

/// Aborts the section of thread `h`.
pub fn rlu_abort<D: Copy>(rlu: &mut Rlu<D>, h: usize)
    requires
        old(rlu).wf(),
        h < old(rlu).pool@.len(),
        old(rlu).pool@[h as int].is_sync != 0 ==> no_other_readers(*old(rlu), h as int),
    ensures
        final(rlu).wf(),
        aborted(*old(rlu), *final(rlu), h as int),
{
    let ghost a = *rlu;
    rlu.pool[h].n_aborts = rlu.pool[h].n_aborts.wrapping_add(1);
    let ghost a0 = *rlu;
    proof {
        assert(a0.pool@ =~= a.pool@.update(h as int, a0.pool@[h as int]));
        lemma_same_locking_wf(a, a0);
    }
    rlu_unregister_thread(rlu, h);
    if rlu.pool[h].is_write_detected != 0 {
        rlu.pool[h].is_write_detected = 0;
        let ghost m0 = *rlu;
        proof {
            assert(m0.pool@ =~= a.pool@.update(h as int, m0.pool@[h as int]));
            lemma_same_locking_wf(a, m0);
            if no_other_readers(a, h as int) {
                lemma_no_other_readers_frame(a, m0, h as int);
            }
        }
        let tail = rlu.pool[h].ws_tail_counter;
        rlu_unlock_objs(rlu, h, tail);
        let ghost m1 = *rlu;
        let cur = rlu.pool[h].ws_cur_id;
        proof {
            assert(m1.pool@[h as int].wf());
        }
        rlu_release_writer_locks(rlu, h, cur);
        let ghost m2 = *rlu;
        rlu_reset_write_set(rlu, h, tail);
        let ghost m3 = *rlu;
        proof {
            assert(m2.wf_locks_except(h as int, m0.pool@[h as int].ws_wb_counter as int, slot(tail as int), m0.pool@[h as int].obj_write_set@[slot(tail as int)].entries@.len() as int));
            assert(m2.wf_threads()) by {
                assert forall|j: int| 0 <= j < m2.cur_threads implies (#[trigger] m2.threads@[j] matches Some(h2) && h2 < m2.pool@.len() && m2.pool@[h2 as int].uniq_id == j) by {
                    assert(m1.threads@[j] matches Some(h2) && h2 < m1.pool@.len() && m1.pool@[h2 as int].uniq_id == j);
                }
                assert forall|t: int, x: int|
                    0 <= t < m2.pool@.len() && 0 <= x < m2.pool@[t].free_nodes@.len() implies (
                    #[trigger] m2.pool@[t].free_nodes@[x] matches Ptr::Actual(j) && j < m2.heap@.len()) by {
                    assert(m1.pool@[t].free_nodes@[x] matches Ptr::Actual(j) && j < m1.heap@.len());
                }
            }
            assert(m2.all_settled()) by {
                assert forall|t: int| 0 <= t < m2.pool@.len() implies (#[trigger] m2.pool@[t]).settled() by {
                    assert(m0.pool@[t].settled());
                }
            }
            lemma_reset_unlocked_slot(m2, m3, h as int);
            assert(m3.wf());
            if no_other_readers(a, h as int) {
                lemma_no_other_readers_frame(a, m3, h as int);
            }
        }
        rlu_sync_checkpoint(rlu, h);
        proof {
            let th = a.pool@[h as int];
            let th0 = rlu_thread_data_t { n_aborts: inc32(th.n_aborts), run_counter: inc_usize(th.run_counter), ..th };
            assert(m0.pool@[h as int] == rlu_thread_data_t { is_write_detected: 0, ..th0 });
            assert(thread_set(a, m0, h as int, rlu_thread_data_t { is_write_detected: 0, ..th0 }));
            assert(objs_unlocked(m0, m1, h as int));
            assert(released(m1, m2, h as int, th.ws_cur_id as int));
            assert(ws_reset(m2, m3, h as int, slot(th.ws_tail_counter as int)));
            assert(checkpointed(m3, *rlu, h as int));
        }
    } else {
        let ghost m0 = *rlu;
        let cur = rlu.pool[h].ws_cur_id;
        proof {
            assert(rlu.pool@[h as int].wf());
        }
        rlu_release_writer_locks(rlu, h, cur);
        let ghost m2 = *rlu;
        proof {
            lemma_same_locking_wf(m0, m2);
            assert(m2.pool@[h as int].wf());
        }
        rlu_reset_writer_locks(rlu, h, cur);
        let ghost m3 = *rlu;
        proof {
            let th3 = m3.pool@[h as int];
            let th2 = m2.pool@[h as int];
            assert(th3.wf()) by {
                assert forall|v: int| 0 <= v < RLU_MAX_WRITE_SETS implies ws_wf(#[trigger] th3.obj_write_set@[v]) by {
                    assert(ws_wf(th2.obj_write_set@[v]));
                }
                assert forall|v: int| 0 <= v < RLU_MAX_WRITE_SETS && !th3.in_window(v) implies ws_clean(#[trigger] th3.obj_write_set@[v]) by {
                    assert(ws_clean(th2.obj_write_set@[v]));
                }
            }
            assert(same_locking(m2, m3)) by {
                assert forall|t: int| 0 <= t < m2.pool@.len() implies {
                    &&& (#[trigger] m3.pool@[t]).uniq_id == m2.pool@[t].uniq_id
                    &&& forall|s: int| #[trigger] m3.pool@[t].holds_locks(s) == m2.pool@[t].holds_locks(s)
                    &&& m3.pool@[t].obj_write_set@.len() == m2.pool@[t].obj_write_set@.len()
                    &&& (m3.pool@[t].free_nodes == m2.pool@[t].free_nodes || m3.free_valid(t))
                    &&& m3.pool@[t].wf()
                    &&& (m2.pool@[t].settled() ==> m3.pool@[t].settled())
                } by {
                    assert(m2.pool@[t].wf());
                }
                assert forall|t: int, s: int|
                    0 <= t < m2.pool@.len() && 0 <= s < m2.pool@[t].obj_write_set@.len() implies (
                    #[trigger] m3.pool@[t].obj_write_set@[s]).entries@.len()
                        == m2.pool@[t].obj_write_set@[s].entries@.len() by {}
                assert forall|t: int, s: int, k: int|
                    #![trigger m3.pool@[t].obj_write_set@[s].entries@[k]]
                    m2.entry_exists(t, s, k) implies {
                        &&& m3.entry(t, s, k).p_obj_actual == m2.entry(t, s, k).p_obj_actual
                        &&& m3.entry(t, s, k).thread_id == m2.entry(t, s, k).thread_id
                    } by {}
            }
            lemma_same_locking_wf(m2, m3);
            if no_other_readers(a, h as int) {
                lemma_no_other_readers_frame(a, m3, h as int);
            }
        }
        rlu_sync_checkpoint(rlu, h);
        proof {
            let th = a.pool@[h as int];
            let th0 = rlu_thread_data_t { n_aborts: inc32(th.n_aborts), run_counter: inc_usize(th.run_counter), ..th };
            assert(m0.pool@ =~= a.pool@.update(h as int, m0.pool@[h as int]));
            assert(m0.pool@[h as int] == th0);
            assert(thread_set(a, m0, h as int, th0));
            assert(released(m0, m2, h as int, cur as int));
            assert(locks_forgotten(m2, m3, h as int, cur as int));
            assert(checkpointed(m3, *rlu, h as int));
        }
    }
}

/// Global statistics once thread `th` has added its own.
pub open spec fn stats_added<D>(g: rlu_data, th: rlu_thread_data_t<D>) -> rlu_data {
    rlu_data {
        n_starts: vstd::wrapping::u32_specs::wrapping_add(g.n_starts, th.n_starts),
        n_finish: vstd::wrapping::u32_specs::wrapping_add(g.n_finish, th.n_finish),
        n_writers: vstd::wrapping::u32_specs::wrapping_add(g.n_writers, th.n_writers),
        n_writer_writeback: vstd::wrapping::u32_specs::wrapping_add(g.n_writer_writeback, th.n_writer_writeback),
        n_writeback_q_iters: vstd::wrapping::u32_specs::wrapping_add(g.n_writeback_q_iters, th.n_writeback_q_iters),
        n_pure_readers: vstd::wrapping::u32_specs::wrapping_add(g.n_pure_readers, th.n_pure_readers),
        n_steals: vstd::wrapping::u32_specs::wrapping_add(g.n_steals, th.n_steals),
        n_aborts: vstd::wrapping::u32_specs::wrapping_add(g.n_aborts, th.n_aborts),
        n_sync_requests: vstd::wrapping::u32_specs::wrapping_add(g.n_sync_requests, th.n_sync_requests),
        n_sync_and_writeback: vstd::wrapping::u32_specs::wrapping_add(g.n_sync_and_writeback, th.n_sync_and_writeback),
    }
}

/// `b` is `a` after thread `h` finished: it wrote back twice, then added
/// its statistics to the global ones.
pub open spec fn thread_finished<D>(a: Rlu<D>, b: Rlu<D>, h: int) -> bool {
    exists|m1: Rlu<D>, m2: Rlu<D>| {
        &&& #[trigger] synced(a, m1, h)
        &&& #[trigger] synced(m1, m2, h)
        &&& b == Rlu { stats: stats_added(m2.stats, m2.pool@[h]), ..m2 }
    }
}

/// Writes back what thread `h` still holds and adds its statistics to the
/// global ones.
fn rlu_thread_finish<D: Copy>(rlu: &mut Rlu<D>, h: usize)
    requires
        old(rlu).wf(),
        h < old(rlu).pool@.len(),
        no_other_readers(*old(rlu), h as int),
    ensures
        final(rlu).wf(),
        thread_finished(*old(rlu), *final(rlu), h as int),
{
    rlu_sync_and_writeback(rlu, h);
    let ghost m1 = *rlu;
    proof {
        lemma_no_other_readers_frame(*old(rlu), m1, h as int);
    }
    rlu_sync_and_writeback(rlu, h);
    let ghost m2 = *rlu;
    let th_n_starts = rlu.pool[h].n_starts;
    let th_n_finish = rlu.pool[h].n_finish;
    let th_n_writers = rlu.pool[h].n_writers;
    let th_n_writer_writeback = rlu.pool[h].n_writer_writeback;
    let th_n_writeback_q_iters = rlu.pool[h].n_writeback_q_iters;
    let th_n_pure_readers = rlu.pool[h].n_pure_readers;
    let th_n_steals = rlu.pool[h].n_steals;
    let th_n_aborts = rlu.pool[h].n_aborts;
    let th_n_sync_requests = rlu.pool[h].n_sync_requests;
    let th_n_sync_and_writeback = rlu.pool[h].n_sync_and_writeback;
    rlu.stats.n_starts = rlu.stats.n_starts.wrapping_add(th_n_starts);
    rlu.stats.n_finish = rlu.stats.n_finish.wrapping_add(th_n_finish);
    rlu.stats.n_writers = rlu.stats.n_writers.wrapping_add(th_n_writers);
    rlu.stats.n_writer_writeback = rlu.stats.n_writer_writeback.wrapping_add(th_n_writer_writeback);
    rlu.stats.n_writeback_q_iters = rlu.stats.n_writeback_q_iters.wrapping_add(th_n_writeback_q_iters);
    rlu.stats.n_pure_readers = rlu.stats.n_pure_readers.wrapping_add(th_n_pure_readers);
    rlu.stats.n_steals = rlu.stats.n_steals.wrapping_add(th_n_steals);
    rlu.stats.n_aborts = rlu.stats.n_aborts.wrapping_add(th_n_aborts);
    rlu.stats.n_sync_requests = rlu.stats.n_sync_requests.wrapping_add(th_n_sync_requests);
    rlu.stats.n_sync_and_writeback = rlu.stats.n_sync_and_writeback.wrapping_add(th_n_sync_and_writeback);
    proof {
        lemma_same_locking_wf(m2, *rlu);
        assert(synced(*old(rlu), m1, h as int));
        assert(synced(m1, m2, h as int));
    }
}

/// The average number of waiting checks per write-back, as the statistics
/// report prints it (0 when nothing was written back).
pub fn rlu_avg_writeback_q_iters(stats: &rlu_data) -> (r: u32)
    ensures
        r == if stats.n_writer_writeback > 0 {
            stats.n_writeback_q_iters / stats.n_writer_writeback
        } else {
            0
        },
{
    if stats.n_writer_writeback > 0 {
        stats.n_writeback_q_iters / stats.n_writer_writeback
    } else {
        0
    }
}

/// Takes `*p_p_obj` for thread `h` if it can; the outcome is not reported.
fn rlu_lock<D: Copy>(rlu: &mut Rlu<D>, h: usize, p_p_obj: &mut Ptr, obj_size: usize)
    requires
        old(rlu).wf(),
        old(rlu).registered(h as int),
        old(rlu).valid_ptr(*old(p_p_obj)),
        obj_size <= usize::MAX - 7,
        old(rlu).lock_fits(h as int, *old(p_p_obj), obj_size as int),
    ensures
        final(rlu).wf(),
        exists|r: u32| try_locked(*old(rlu), *final(rlu), h as int, *old(p_p_obj), *final(p_p_obj), obj_size as int, r),
{
    let r = rlu_try_lock(rlu, h, p_p_obj, obj_size);
    assert(try_locked(*old(rlu), *rlu, h as int, *old(p_p_obj), *p_p_obj, obj_size as int, r));
}

/// The data block registered under `uniq_id`, if any.
pub fn RLU_GET_THREAD_DATA<D: Copy>(rlu: &Rlu<D>, uniq_id: usize) -> (r: Option<usize>)
    requires
        uniq_id < RLU_MAX_THREADS,
        rlu.threads@.len() == RLU_MAX_THREADS,
    ensures
        r == rlu.threads@[uniq_id as int],
{
    rlu_get_thread_data(rlu, uniq_id)
}

/// Registers data block `h` under the next thread id, which it returns.
pub fn RLU_THREAD_INIT<D: Copy>(rlu: &mut Rlu<D>, h: usize) -> (id: usize)
    requires
        old(rlu).wf_threads(),
        old(rlu).wf_locks(),
        h < old(rlu).pool@.len(),
        old(rlu).cur_threads < RLU_MAX_THREADS,
        old(rlu).pool@[h as int].ws_tail_counter == old(rlu).pool@[h as int].ws_wb_counter,
        old(rlu).pool@[h as int].ws_wb_counter == old(rlu).pool@[h as int].ws_head_counter,
        forall|j: int| 0 <= j < old(rlu).cur_threads ==> #[trigger] old(rlu).threads@[j] != Some(h),
        forall|s: int|
            0 <= s < RLU_MAX_WRITE_SETS ==> ws_clean(#[trigger] old(rlu).pool@[h as int].obj_write_set@[s]),
    ensures
        id == old(rlu).cur_threads,
        *final(rlu) == (Rlu {
            cur_threads: (old(rlu).cur_threads + 1) as usize,
            threads: final(rlu).threads,
            pool: final(rlu).pool,
            ..*old(rlu)
        }),
        final(rlu).threads@ == old(rlu).threads@.update(id as int, Some(h)),
        final(rlu).pool@.len() == old(rlu).pool@.len(),
        forall|t: int|
            0 <= t < old(rlu).pool@.len() && t != h ==> #[trigger] final(rlu).pool@[t] == old(
                rlu,
            ).pool@[t],
        final(rlu).pool@[h as int] == (rlu_thread_data_t {
            max_write_set: old(rlu).max_write_sets,
            uniq_id: id,
            local_version: 0,
            writer_version: u32::MAX,
            obj_write_set: final(rlu).pool@[h as int].obj_write_set,
            ..old(rlu).pool@[h as int]
        }),
        final(rlu).pool@[h as int].obj_write_set@.len() == RLU_MAX_WRITE_SETS,
        forall|s: int|
            0 <= s < RLU_MAX_WRITE_SETS ==> ws_clean(#[trigger] final(rlu).pool@[h as int].obj_write_set@[s]),
        final(rlu).registered(h as int),
        final(rlu).wf_threads(),
        final(rlu).wf_locks(),
{
    rlu_thread_init(rlu, h)
}

/// Writes back what thread `h` still holds and adds its statistics to the
/// global ones.
pub fn RLU_THREAD_FINISH<D: Copy>(rlu: &mut Rlu<D>, h: usize)
    requires
        old(rlu).wf(),
        h < old(rlu).pool@.len(),
        no_other_readers(*old(rlu), h as int),
    ensures
        final(rlu).wf(),
        thread_finished(*old(rlu), *final(rlu), h as int),
{
    rlu_thread_finish(rlu, h)
}

/// Allocates an object of `obj_size` bytes holding `init`, unlocked.
pub fn RLU_ALLOC<D: Copy>(rlu: &mut Rlu<D>, obj_size: usize, init: D) -> (p: Ptr)
    requires
        obj_size <= usize::MAX - OBJ_HEADER_SIZE,
        old(rlu).wf_threads(),
        old(rlu).wf_locks(),
    ensures
        p == Ptr::Actual(old(rlu).heap@.len() as usize),
        final(rlu).heap@ == old(rlu).heap@.push(
            HeapObj { p_obj_copy: Ptr::Null, obj_size: obj_size, data: init, live: true },
        ),
        *final(rlu) == (Rlu { heap: final(rlu).heap, ..*old(rlu) }),
        final(rlu).wf_threads(),
        final(rlu).wf_locks(),
{
    rlu_alloc(rlu, obj_size, init)
}

/// Sets the global versions to 0 and the write-set limit of threads
/// initialised afterwards.
pub fn RLU_INIT<D: Copy>(rlu: &mut Rlu<D>, type_: u32, max_write_sets: usize)
    requires
        old(rlu).wf_threads(),
        old(rlu).wf_locks(),
        max_write_sets <= RLU_MAX_WRITE_SETS_LIMIT,
        old(rlu).all_settled(),
    ensures
        final(rlu).wf(),
        *final(rlu) == (Rlu {
            writer_version: 0,
            commit_version: 0,
            max_write_sets: max_write_sets,
            ..*old(rlu)
        }),
{
    rlu_init(rlu, type_, max_write_sets)
}

pub fn RLU_FINISH() {
    rlu_finish();
}

/// Enters a section for thread `h`.
pub fn RLU_READER_LOCK<D: Copy>(rlu: &mut Rlu<D>, h: usize)
    requires
        old(rlu).wf(),
        h < old(rlu).pool@.len(),
        old(rlu).pool@[h as int].is_sync != 0 ==> no_other_readers(*old(rlu), h as int),
    ensures
        final(rlu).wf(),
        reader_locked(*old(rlu), *final(rlu), h as int),
{
    rlu_reader_lock(rlu, h)
}

/// Leaves the section of thread `h`, committing what it wrote.
pub fn RLU_READER_UNLOCK<D: Copy>(rlu: &mut Rlu<D>, h: usize)
    requires
        old(rlu).wf(),
        h < old(rlu).pool@.len(),
        old(rlu).pool@[h as int].is_write_detected != 0 ==> old(rlu).pool@[h as int].ws_tail_counter < usize::MAX,
        old(rlu).pool@[h as int].is_sync != 0 || (old(rlu).pool@[h as int].is_write_detected != 0 && commit_syncs(
            old(rlu).pool@[h as int],
        )) ==> no_other_readers(*old(rlu), h as int),
    ensures
        final(rlu).wf(),
        reader_unlocked(*old(rlu), *final(rlu), h as int),
{
    rlu_reader_unlock(rlu, h)
}

/// Frees `p_obj`: at once when there is no thread, else at the thread's
/// next synchronization.
pub fn RLU_FREE<D: Copy>(rlu: &mut Rlu<D>, self_: Option<usize>, p_obj: Ptr)
    requires
        old(rlu).wf(),
        !(p_obj is Null) ==> old(rlu).valid_ptr(p_obj),
        self_ is None && !(p_obj is Null) ==> p_obj is Actual,
        self_ matches Some(h) ==> h < old(rlu).pool@.len() && (!(p_obj is Null) ==> old(rlu).pool@[h as int].free_nodes@.len() + 1 < RLU_MAX_FREE_NODES),
    ensures
        final(rlu).wf(),
        match (self_, p_obj) {
            (_, Ptr::Null) => *final(rlu) == *old(rlu),
            (None, Ptr::Actual(i)) => {
                &&& final(rlu).heap@ == old(rlu).heap@.update(i as int, HeapObj { live: false, ..old(rlu).heap@[i as int] })
                &&& *final(rlu) == (Rlu { heap: final(rlu).heap, ..*old(rlu) })
            },
            (Some(h), _) => {
                &&& final(rlu).pool@[h as int].free_nodes@ == old(rlu).pool@[h as int].free_nodes@.push(old(rlu).actual_of(p_obj))
                &&& only_thread_changed(*old(rlu), *final(rlu), h as int)
                &&& final(rlu).pool@[h as int] == (rlu_thread_data_t { free_nodes: final(rlu).pool@[h as int].free_nodes, ..old(rlu).pool@[h as int] })
            },
            _ => false,
        },
{
    rlu_free(rlu, self_, p_obj)
}

/// Takes writer lock `writer_lock_id` for thread `h` if it is free: 1 on
/// success, 0 if it is held.
pub fn RLU_TRY_WRITER_LOCK<D: Copy>(rlu: &mut Rlu<D>, h: usize, writer_lock_id: usize) -> (r: u32)
    requires
        old(rlu).wf(),
        h < old(rlu).pool@.len(),
        writer_lock_id < RLU_MAX_WRITER_LOCKS,
        old(rlu).pool@[h as int].uniq_id < usize::MAX,
        old(rlu).writer_locks@[writer_lock_id as int] == 0 ==> old(rlu).pool@[h as int].obj_write_set@[old(rlu).pool@[h as int].ws_cur_id as int].writer_locks@.len()
            < RLU_MAX_WS_WRITER_LOCKS,
    ensures
        final(rlu).wf(),
        if old(rlu).writer_locks@[writer_lock_id as int] == 0 {
            let cur = old(rlu).pool@[h as int].ws_cur_id as int;
            &&& r == 1
            &&& final(rlu).writer_locks@ == old(rlu).writer_locks@.update(writer_lock_id as int, (old(rlu).pool@[h as int].uniq_id + 1) as usize)
            &&& final(rlu).pool@.len() == old(rlu).pool@.len()
            &&& forall|t: int| 0 <= t < old(rlu).pool@.len() && t != h ==> #[trigger] final(rlu).pool@[t] == old(rlu).pool@[t]
            &&& only_ws_changed(old(rlu).pool@[h as int], final(rlu).pool@[h as int], cur)
            &&& final(rlu).pool@[h as int].obj_write_set@[cur].writer_locks@ == old(rlu).pool@[h as int].obj_write_set@[cur].writer_locks@.push(writer_lock_id)
            &&& final(rlu).pool@[h as int].obj_write_set@[cur] == (obj_list_t {
                writer_locks: final(rlu).pool@[h as int].obj_write_set@[cur].writer_locks,
                ..old(rlu).pool@[h as int].obj_write_set@[cur]
            })
            &&& *final(rlu) == (Rlu { writer_locks: final(rlu).writer_locks, pool: final(rlu).pool, ..*old(rlu) })
        } else {
            &&& r == 0
            &&& *final(rlu) == *old(rlu)
        },
{
    rlu_try_writer_lock(rlu, h, writer_lock_id)
}

/// The size an object was allocated with, for the object `p_obj` stands for.
fn target_size<D: Copy>(rlu: &Rlu<D>, p_obj: Ptr) -> (n: usize)
    requires
        rlu.wf(),
        rlu.valid_ptr(p_obj),
    ensures
        n == rlu.heap@[rlu.target(p_obj)].obj_size,
        0 <= rlu.target(p_obj) < rlu.heap@.len(),
{
    proof {
        if let Ptr::InWriteSet(t, s, k) = p_obj {
            assert(rlu.entry_exists(t as int, s as int, k as int));
        }
    }
    match FORCE_ACTUAL(rlu, p_obj) {
        Ptr::Actual(i) => rlu.heap[i].obj_size,
        _ => 0,
    }
}

/// Thread `h` tries to lock the object `*p_p_obj` stands for, copying as
/// many bytes as it was allocated with; see `try_locked`.
pub fn RLU_TRY_LOCK<D: Copy>(rlu: &mut Rlu<D>, h: usize, p_p_obj: &mut Ptr) -> (r: u32)
    requires
        old(rlu).wf(),
        old(rlu).registered(h as int),
        old(rlu).valid_ptr(*old(p_p_obj)),
        old(rlu).heap@[old(rlu).target(*old(p_p_obj))].obj_size <= usize::MAX - 7,
        old(rlu).lock_fits(h as int, *old(p_p_obj), old(rlu).heap@[old(rlu).target(*old(p_p_obj))].obj_size as int),
    ensures
        final(rlu).wf(),
        try_locked(*old(rlu), *final(rlu), h as int, *old(p_p_obj), *final(p_p_obj), old(rlu).heap@[old(rlu).target(*old(p_p_obj))].obj_size as int, r),
{
    let obj_size = target_size(rlu, *p_p_obj);
    rlu_try_lock(rlu, h, p_p_obj, obj_size)
}

/// Thread `h` takes the object `*p_p_obj` stands for if it can, the outcome
/// not reported.
pub fn RLU_LOCK<D: Copy>(rlu: &mut Rlu<D>, h: usize, p_p_obj: &mut Ptr)
    requires
        old(rlu).wf(),
        old(rlu).registered(h as int),
        old(rlu).valid_ptr(*old(p_p_obj)),
        old(rlu).heap@[old(rlu).target(*old(p_p_obj))].obj_size <= usize::MAX - 7,
        old(rlu).lock_fits(h as int, *old(p_p_obj), old(rlu).heap@[old(rlu).target(*old(p_p_obj))].obj_size as int),
    ensures
        final(rlu).wf(),
        exists|r: u32| try_locked(*old(rlu), *final(rlu), h as int, *old(p_p_obj), *final(p_p_obj), old(rlu).heap@[old(rlu).target(*old(p_p_obj))].obj_size as int, r),
{
    let obj_size = target_size(rlu, *p_p_obj);
    rlu_lock(rlu, h, p_p_obj, obj_size)
}

/// Aborts the section of thread `h`.
pub fn RLU_ABORT<D: Copy>(rlu: &mut Rlu<D>, h: usize)
    requires
        old(rlu).wf(),
        h < old(rlu).pool@.len(),
        old(rlu).pool@[h as int].is_sync != 0 ==> no_other_readers(*old(rlu), h as int),
    ensures
        final(rlu).wf(),
        aborted(*old(rlu), *final(rlu), h as int),
{
    rlu_abort(rlu, h)
}

} // verus!
