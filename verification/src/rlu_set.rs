use vstd::prelude::*;
use crate::rlu::{
    rlu_abort, rlu_new_thread_data, rlu_read, rlu_thread_data_t, rlu_write, HeapObj, Ptr, Rlu, RLU_ALLOC,
    RLU_ASSIGN_POINTER, RLU_DEREF, RLU_FREE, RLU_GET_THREAD_DATA, RLU_INIT, RLU_READER_LOCK,
    RLU_READER_UNLOCK, RLU_THREAD_INIT, RLU_TRY_LOCK,
};

verus! {

/// What an RLU object of the set holds: the head cell, which points to the
/// first node, or a node with its value and the next node.
#[derive(Clone, Copy)]
pub enum SetCell<T> {
    Head(Ptr),
    Node(T, Ptr),
}

/// Bytes of the head cell (one pointer).
pub const SET_HEAD_SIZE: usize = 8;

/// Bytes of a node (a value and a pointer).
pub const SET_NODE_SIZE: usize = 16;

/// A set kept as a linked list in RLU memory, used by one registered thread.
/// `nodes` names the heap objects of the list, first to last.
pub struct RluSet<T> {
    rlu: Rlu<SetCell<T>>,
    head: Ptr,
    tid: usize,
    nodes: Ghost<Seq<usize>>,
}

/// The pointer to node `k` of `ns`, null past the end.
pub open spec fn link(ns: Seq<usize>, k: int) -> Ptr {
    if 0 <= k < ns.len() {
        Ptr::Actual(ns[k])
    } else {
        Ptr::Null
    }
}

/// The value of a node cell.
pub open spec fn cell_value<T>(c: SetCell<T>) -> T {
    match c {
        SetCell::Node(v, _) => v,
        SetCell::Head(_) => arbitrary(),
    }
}

/// The next pointer of a node cell, the first pointer of the head cell.
pub open spec fn cell_next<T>(c: SetCell<T>) -> Ptr {
    match c {
        SetCell::Node(_, n) => n,
        SetCell::Head(n) => n,
    }
}

/// The values after `insert(x)`: `x` in front unless it is there already.
pub open spec fn set_inserted<T>(v: Seq<T>, x: T) -> Seq<T> {
    if v.contains(x) {
        v
    } else {
        seq![x] + v
    }
}

/// The values after `delete(x)`: `x` taken out where it is.
pub open spec fn set_deleted<T>(v: Seq<T>, x: T) -> Seq<T> {
    if v.contains(x) {
        v.remove(v.index_of(x))
    } else {
        v
    }
}

/// After an insert the value is in the set and no other value came or
/// went; the set grew by one exactly when the value was not there, and it
/// still holds no value twice.
pub proof fn law_insert_adds<T>(v: Seq<T>, x: T)
    ensures
        set_inserted(v, x).contains(x),
        forall|y: T| y != x ==> (#[trigger] set_inserted(v, x).contains(y) <==> v.contains(y)),
        set_inserted(v, x).len() == v.len() + (if v.contains(x) {
            0int
        } else {
            1int
        }),
        v.no_duplicates() ==> set_inserted(v, x).no_duplicates(),
{
    let w = seq![x] + v;
    if !v.contains(x) {
        assert(w[0] == x);
        assert forall|y: T| y != x implies (#[trigger] w.contains(y) <==> v.contains(y)) by {
            if w.contains(y) {
                let k = choose|k: int| 0 <= k < w.len() && w[k] == y;
                assert(v[k - 1] == y);
            }
            if v.contains(y) {
                let k = choose|k: int| 0 <= k < v.len() && v[k] == y;
                assert(w[k + 1] == y);
            }
        }
        if v.no_duplicates() {
            assert forall|i: int, j: int| 0 <= i < w.len() && 0 <= j < w.len() && i != j implies w[i] != w[j] by {
                if i == 0 {
                    assert(w[j] == v[j - 1]);
                } else if j == 0 {
                    assert(w[i] == v[i - 1]);
                } else {
                    assert(w[i] == v[i - 1]);
                    assert(w[j] == v[j - 1]);
                }
            }
        }
    }
}

/// After a delete the value is not in the set and no other value came or
/// went; the set shrank by one exactly when the value was there.
pub proof fn law_delete_removes<T>(v: Seq<T>, x: T)
    requires
        v.no_duplicates(),
    ensures
        !set_deleted(v, x).contains(x),
        forall|y: T| y != x ==> (#[trigger] set_deleted(v, x).contains(y) <==> v.contains(y)),
        set_deleted(v, x).len() == v.len() - (if v.contains(x) {
            1int
        } else {
            0int
        }),
        set_deleted(v, x).no_duplicates(),
{
    if v.contains(x) {
        let i = v.index_of(x);
        let w = v.remove(i);
        assert(0 <= i < v.len() && v[i] == x);
        assert forall|k: int| 0 <= k < w.len() implies #[trigger] w[k] == (if k < i { v[k] } else { v[k + 1] }) by {}
        assert(!w.contains(x)) by {
            if w.contains(x) {
                let k = choose|k: int| 0 <= k < w.len() && w[k] == x;
                if k < i {
                    assert(v[k] == x);
                } else {
                    assert(v[k + 1] == x);
                }
            }
        }
        assert forall|y: T| y != x implies (#[trigger] w.contains(y) <==> v.contains(y)) by {
            if w.contains(y) {
                let k = choose|k: int| 0 <= k < w.len() && w[k] == y;
                if k < i {
                    assert(v[k] == y);
                } else {
                    assert(v[k + 1] == y);
                }
            }
            if v.contains(y) {
                let k = choose|k: int| 0 <= k < v.len() && v[k] == y;
                if k < i {
                    assert(w[k] == y);
                } else {
                    assert(k != i);
                    assert(w[k - 1] == y);
                }
            }
        }
        assert forall|a: int, b: int| 0 <= a < w.len() && 0 <= b < w.len() && a != b implies w[a] != w[b] by {
            let a1 = if a < i { a } else { a + 1 };
            let b1 = if b < i { b } else { b + 1 };
            assert(w[a] == v[a1]);
            assert(w[b] == v[b1]);
        }
    }
}

/// Deleting a value that was just inserted gives back the set as it was.
pub proof fn law_insert_then_delete<T>(v: Seq<T>, x: T)
    requires
        v.no_duplicates(),
        !v.contains(x),
    ensures
        set_deleted(set_inserted(v, x), x) == v,
{
    let w = seq![x] + v;
    law_insert_adds(v, x);
    assert(w[0] == x);
    assert(w.contains(x));
    let i = w.index_of(x);
    assert(w[i] == x);
    if i != 0 {
        assert(v[i - 1] == x);
    }
    assert(w.remove(0) =~= v);
}

/// The head cell at index `hi` of `heap` and the nodes `ns` link up as a
/// null-terminated list of distinct nodes.
spec fn list_ok<T>(heap: Seq<HeapObj<SetCell<T>>>, hi: int, ns: Seq<usize>) -> bool {
    &&& 0 <= hi < heap.len()
    &&& heap[hi].data is Head
    &&& heap[hi].obj_size == SET_HEAD_SIZE
    &&& cell_next(heap[hi].data) == link(ns, 0)
    &&& ns.no_duplicates()
    &&& ns.len() <= heap.len()
    &&& forall|k: int| 0 <= k < ns.len() ==> {
        &&& #[trigger] ns[k] < heap.len()
        &&& ns[k] != hi
        &&& heap[ns[k] as int].data is Node
        &&& heap[ns[k] as int].obj_size == SET_NODE_SIZE
    }
    &&& forall|k: int| 0 <= k < ns.len() ==> #[trigger] cell_next(heap[ns[k] as int].data) == link(ns, k + 1)
}

/// The values the nodes `ns` of `heap` hold, in order.
spec fn values<T>(heap: Seq<HeapObj<SetCell<T>>>, ns: Seq<usize>) -> Seq<T> {
    ns.map_values(|i: usize| cell_value(heap[i as int].data))
}

/// `b` holds the same cells as `a` at every index of `a`.
spec fn same_cells<T>(a: Seq<HeapObj<SetCell<T>>>, b: Seq<HeapObj<SetCell<T>>>) -> bool {
    &&& a.len() <= b.len()
    &&& forall|j: int| 0 <= j < a.len() ==> (#[trigger] b[j]).data == a[j].data && b[j].obj_size == a[j].obj_size
}

/// A list survives a heap that keeps its cells.
proof fn lemma_list_frame<T>(a: Seq<HeapObj<SetCell<T>>>, b: Seq<HeapObj<SetCell<T>>>, hi: int, ns: Seq<usize>)
    requires
        list_ok(a, hi, ns),
        same_cells(a, b),
    ensures
        list_ok(b, hi, ns),
        values(b, ns) == values(a, ns),
{
    assert(b[hi].data == a[hi].data);
    assert forall|k: int| 0 <= k < ns.len() implies #[trigger] cell_next(b[ns[k] as int].data) == link(ns, k + 1) by {
        assert(ns[k] < a.len());
        assert(b[ns[k] as int].data == a[ns[k] as int].data);
        assert(cell_next(a[ns[k] as int].data) == link(ns, k + 1));
    }
    assert forall|k: int| 0 <= k < ns.len() implies #[trigger] values(b, ns)[k] == values(a, ns)[k] by {
        assert(ns[k] < a.len());
        assert(b[ns[k] as int].data == a[ns[k] as int].data);
    }
    assert(values(b, ns) =~= values(a, ns));
}

/// Pointing the head cell at a new node `n` holding `v` and the old first
/// node puts `v` in front.
proof fn lemma_list_push_front<T>(
    a: Seq<HeapObj<SetCell<T>>>,
    b: Seq<HeapObj<SetCell<T>>>,
    hi: int,
    ns: Seq<usize>,
    n: usize,
    v: T,
)
    requires
        list_ok(a, hi, ns),
        n < a.len(),
        ns.len() <= n,
        n != hi,
        !ns.contains(n),
        a[n as int].obj_size == SET_NODE_SIZE,
        b.len() == a.len(),
        b[hi].data == SetCell::<T>::Head(Ptr::Actual(n)),
        b[hi].obj_size == a[hi].obj_size,
        b[n as int].data == SetCell::Node(v, link(ns, 0)),
        b[n as int].obj_size == a[n as int].obj_size,
        forall|j: int| 0 <= j < a.len() && j != hi && j != n ==> (#[trigger] b[j]).data == a[j].data && b[j].obj_size == a[j].obj_size,
    ensures
        list_ok(b, hi, seq![n] + ns),
        values(b, seq![n] + ns) == seq![v] + values(a, ns),
{
    let ns2 = seq![n] + ns;
    assert forall|k: int| 0 <= k < ns.len() implies #[trigger] ns2[k + 1] == ns[k] by {}
    assert(ns2.no_duplicates()) by {
        assert forall|i: int, j: int| 0 <= i < ns2.len() && 0 <= j < ns2.len() && i != j implies ns2[i] != ns2[j] by {
            if i > 0 && j > 0 {
                assert(ns2[i] == ns[i - 1]);
                assert(ns2[j] == ns[j - 1]);
            } else if i == 0 {
                assert(ns2[j] == ns[j - 1]);
            } else {
                assert(ns2[i] == ns[i - 1]);
            }
        }
    }
    assert forall|k: int| 0 <= k < ns2.len() implies {
        &&& #[trigger] ns2[k] < b.len()
        &&& ns2[k] != hi
        &&& b[ns2[k] as int].data is Node
        &&& b[ns2[k] as int].obj_size == SET_NODE_SIZE
    } by {
        if k > 0 {
            assert(ns2[k] == ns[k - 1]);
            assert(ns[k - 1] < a.len());
        }
    }
    assert forall|k: int| 0 <= k < ns2.len() implies #[trigger] cell_next(b[ns2[k] as int].data) == link(ns2, k + 1) by {
        if k > 0 {
            assert(ns2[k] == ns[k - 1]);
            assert(ns[k - 1] < a.len());
            assert(cell_next(a[ns[k - 1] as int].data) == link(ns, k));
            if k < ns.len() {
                assert(ns2[k + 1] == ns[k]);
            }
        } else {
            if 0 < ns.len() {
                assert(ns2[1] == ns[0]);
            }
        }
    }
    assert forall|k: int| 0 <= k < ns2.len() implies #[trigger] values(b, ns2)[k] == (seq![v] + values(a, ns))[k] by {
        if k > 0 {
            assert(ns2[k] == ns[k - 1]);
            assert(ns[k - 1] < a.len());
        }
    }
    assert(values(b, ns2) =~= seq![v] + values(a, ns));
}

/// Pointing the cell before node `j` (the head cell when `j` is 0) past it
/// takes node `j` out of the list.
proof fn lemma_list_remove<T>(
    a: Seq<HeapObj<SetCell<T>>>,
    b: Seq<HeapObj<SetCell<T>>>,
    hi: int,
    ns: Seq<usize>,
    j: int,
)
    requires
        list_ok(a, hi, ns),
        0 <= j < ns.len(),
        b.len() == a.len(),
        j == 0 ==> b[hi].data == SetCell::<T>::Head(link(ns, j + 1)),
        j > 0 ==> b[ns[j - 1] as int].data == SetCell::Node(cell_value(a[ns[j - 1] as int].data), link(ns, j + 1)),
        forall|i: int|
            0 <= i < a.len() && !(j == 0 && i == hi) && !(j > 0 && i == ns[j - 1]) ==> (#[trigger] b[i]).data
                == a[i].data,
        forall|i: int| 0 <= i < a.len() ==> (#[trigger] b[i]).obj_size == a[i].obj_size,
    ensures
        list_ok(b, hi, ns.remove(j)),
        values(b, ns.remove(j)) == values(a, ns).remove(j),
{
    let ns2 = ns.remove(j);
    assert forall|k: int| 0 <= k < ns2.len() implies #[trigger] ns2[k] == (if k < j { ns[k] } else { ns[k + 1] }) by {}
    assert(ns2.no_duplicates()) by {
        assert forall|x: int, y: int| 0 <= x < ns2.len() && 0 <= y < ns2.len() && x != y implies ns2[x] != ns2[y] by {
            let x1 = if x < j { x } else { x + 1 };
            let y1 = if y < j { y } else { y + 1 };
            assert(ns2[x] == ns[x1]);
            assert(ns2[y] == ns[y1]);
        }
    }
    assert(ns[j] < a.len());
    if j > 0 {
        assert(ns[j - 1] < a.len());
        assert(ns[j - 1] != ns[j]);
        assert(cell_next(a[ns[j - 1] as int].data) == link(ns, j));
    }
    assert(b[hi].data is Head);
    assert(cell_next(b[hi].data) == link(ns2, 0)) by {
        if j > 0 {
            assert(ns2[0] == ns[0]);
        } else if ns2.len() > 0 {
            assert(ns2[0] == ns[1]);
        }
    }
    assert forall|k: int| 0 <= k < ns2.len() implies {
        &&& #[trigger] ns2[k] < b.len()
        &&& ns2[k] != hi
        &&& b[ns2[k] as int].data is Node
        &&& b[ns2[k] as int].obj_size == SET_NODE_SIZE
    } by {
        let k1 = if k < j { k } else { k + 1 };
        assert(ns2[k] == ns[k1]);
        assert(ns[k1] < a.len());
    }
    assert forall|k: int| 0 <= k < ns2.len() implies #[trigger] cell_next(b[ns2[k] as int].data) == link(ns2, k + 1) by {
        let k1 = if k < j { k } else { k + 1 };
        assert(ns2[k] == ns[k1]);
        assert(ns[k1] < a.len());
        if k + 1 < ns2.len() {
            let k2 = if k + 1 < j { k + 1 } else { k + 2 };
            assert(ns2[k + 1] == ns[k2]);
        }
        if k1 != j - 1 {
            assert(cell_next(a[ns[k1] as int].data) == link(ns, k1 + 1));
            assert(b[ns[k1] as int].data == a[ns[k1] as int].data) by {
                if j > 0 {
                    assert(ns[k1] != ns[j - 1]);
                }
            }
        }
    }
    assert forall|k: int| 0 <= k < ns2.len() implies #[trigger] values(b, ns2)[k] == values(a, ns).remove(j)[k] by {
        let k1 = if k < j { k } else { k + 1 };
        assert(ns2[k] == ns[k1]);
        assert(ns[k1] < a.len());
        if j > 0 && k1 == j - 1 {
        } else {
            assert(b[ns[k1] as int].data == a[ns[k1] as int].data) by {
                if j > 0 {
                    assert(ns[k1] != ns[j - 1]);
                }
            }
        }
    }
    assert(values(b, ns2) =~= values(a, ns).remove(j));
}

/// The thread fields that entering and leaving a section without writing
/// leave alone.
spec fn same_rest_fields<D>(x: rlu_thread_data_t<D>, y: rlu_thread_data_t<D>) -> bool {
    &&& y.uniq_id == x.uniq_id
    &&& y.ws_head_counter == x.ws_head_counter
    &&& y.ws_wb_counter == x.ws_wb_counter
    &&& y.ws_tail_counter == x.ws_tail_counter
    &&& y.is_sync == x.is_sync
    &&& y.max_write_set == x.max_write_set
    &&& y.free_nodes == x.free_nodes
}

/// Thread 0, registered under id 0, is the only thread; it is outside any
/// section with nothing committed left to write back and no request to
/// synchronize, and no object is locked.
spec fn at_rest<D>(r: Rlu<D>) -> bool {
    let th = r.pool@[0];
    &&& r.wf()
    &&& r.cur_threads == 1
    &&& r.pool@.len() == 1
    &&& r.threads@[0] == Some(0usize)
    &&& th.ws_tail_counter == th.ws_wb_counter
    &&& th.is_sync == 0
    &&& th.is_write_detected == 0
    &&& th.max_write_set == 1
    &&& th.free_nodes@.len() == 0
    &&& crate::rlu::ws_clean(th.obj_write_set@[crate::rlu::slot(th.ws_tail_counter as int)])
    &&& forall|i: int| 0 <= i < r.heap@.len() ==> (#[trigger] r.heap@[i]).p_obj_copy is Null
}

/// Thread 0 is inside a section entered from rest: as at rest, but it
/// need not check locks.
spec fn in_section<D>(r: Rlu<D>) -> bool {
    let th = r.pool@[0];
    &&& r.wf()
    &&& r.cur_threads == 1
    &&& r.pool@.len() == 1
    &&& r.threads@[0] == Some(0usize)
    &&& th.ws_tail_counter == th.ws_wb_counter
    &&& th.is_sync == 0
    &&& th.is_write_detected == 0
    &&& th.is_check_locks == 0
    &&& th.max_write_set == 1
    &&& th.free_nodes@.len() == 0
    &&& crate::rlu::ws_clean(th.obj_write_set@[crate::rlu::slot(th.ws_tail_counter as int)])
    &&& forall|i: int| 0 <= i < r.heap@.len() ==> (#[trigger] r.heap@[i]).p_obj_copy is Null
}

/// At rest the write set after the current one is empty and in another
/// slot.
proof fn lemma_next_slot_clean<D>(th: rlu_thread_data_t<D>)
    requires
        th.wf(),
        th.max_write_set == 1,
        th.ws_tail_counter == th.ws_wb_counter,
    ensures
        crate::rlu::ws_clean(th.obj_write_set@[crate::rlu::slot(th.ws_tail_counter + 1)]),
        crate::rlu::slot(th.ws_tail_counter + 1) != crate::rlu::slot(th.ws_tail_counter as int),
{
    let c = th.ws_tail_counter as int;
    crate::rlu::lemma_offset_of_counter(th, c + 1);
    crate::rlu::lemma_offset_of_counter(th, c);
    assert(0 <= crate::rlu::slot(c + 1) < crate::rlu::RLU_MAX_WRITE_SETS);
    assert(!th.in_window(crate::rlu::slot(c + 1)));
}

/// Entering a section from rest changes only the thread's section fields.
proof fn lemma_enter<D>(a: Rlu<D>, b: Rlu<D>)
    requires
        at_rest(a),
        b.wf(),
        crate::rlu::reader_locked(a, b, 0),
    ensures
        in_section(b),
        b.heap == a.heap,
        b.threads == a.threads,
        b.cur_threads == a.cur_threads,
        b.max_write_sets == a.max_write_sets,
        same_rest_fields(a.pool@[0], b.pool@[0]),
        b.pool@[0].run_counter == crate::rlu::inc_usize(a.pool@[0].run_counter),
{
    let th = a.pool@[0];
    let (m0, m1) = choose|m0: Rlu<D>, m1: Rlu<D>| {
        &&& crate::rlu::thread_set(a, m0, 0, rlu_thread_data_t { n_starts: crate::rlu::inc32(th.n_starts), ..th })
        &&& #[trigger] crate::rlu::checkpointed(m0, m1, 0)
        &&& crate::rlu::thread_set(m1, b, 0, crate::rlu::entered_thread(m1.pool@[0], m1.writer_version, m1.commit_version))
    };
    assert(m1 == m0);
    assert(b.pool@[0] == crate::rlu::entered_thread(m0.pool@[0], a.writer_version, a.commit_version));
}

/// Leaving a section that wrote nothing brings the thread back to rest.
proof fn lemma_leave_quiet<D>(a: Rlu<D>, b: Rlu<D>)
    requires
        in_section(a),
        b.wf(),
        crate::rlu::reader_unlocked(a, b, 0),
    ensures
        at_rest(b),
        b.heap == a.heap,
        b.threads == a.threads,
        b.cur_threads == a.cur_threads,
        b.max_write_sets == a.max_write_sets,
        same_rest_fields(a.pool@[0], b.pool@[0]),
        b.pool@[0].run_counter == crate::rlu::inc_usize(a.pool@[0].run_counter),
{
    let th = a.pool@[0];
    let th0 = rlu_thread_data_t {
        n_finish: crate::rlu::inc32(th.n_finish),
        run_counter: crate::rlu::inc_usize(th.run_counter),
        ..th
    };
    let (m0, m2, m3) = choose|m0: Rlu<D>, m2: Rlu<D>, m3: Rlu<D>| {
        &&& crate::rlu::thread_set(a, m0, 0, th0)
        &&& #[trigger] crate::rlu::released(m0, m2, 0, th.ws_cur_id as int)
        &&& #[trigger] crate::rlu::locks_forgotten(m2, m3, 0, th.ws_cur_id as int)
        &&& #[trigger] crate::rlu::checkpointed(m3, b, 0)
    };
    assert(b == m3);
    assert(crate::rlu::ws_clean(b.pool@[0].obj_write_set@[crate::rlu::slot(th.ws_tail_counter as int)]));
}

/// Thread 0, entered from rest, holds locks in its current write set, and
/// no other object is locked; it has written through its copies.
spec fn writing<D>(r: Rlu<D>) -> bool {
    let th = r.pool@[0];
    let c = th.ws_tail_counter as int;
    &&& r.wf()
    &&& r.cur_threads == 1
    &&& r.pool@.len() == 1
    &&& r.threads@[0] == Some(0usize)
    &&& th.ws_tail_counter == th.ws_wb_counter
    &&& th.ws_tail_counter < usize::MAX
    &&& th.is_sync == 0
    &&& th.is_write_detected != 0
    &&& th.max_write_set == 1
    &&& th.obj_write_set@[crate::rlu::slot(c)].writer_locks@.len() == 0
    &&& crate::rlu::ws_clean(th.obj_write_set@[crate::rlu::slot(c + 1)])
    &&& forall|i: int|
        0 <= i < r.heap@.len() ==> match (#[trigger] r.heap@[i]).p_obj_copy {
            Ptr::Null => true,
            Ptr::InWriteSet(t, s, _) => t == 0 && s == crate::rlu::slot(c),
            _ => false,
        }
}

/// Leaving a section that wrote commits at once (the write-set limit is
/// 1): the copies are written back, the objects unlocked, the queued ones
/// freed, and the thread is at rest again with one more write set counted.
proof fn lemma_leave_commit<D>(a: Rlu<D>, b: Rlu<D>)
    requires
        writing(a),
        b.wf(),
        crate::rlu::reader_unlocked(a, b, 0),
    ensures
        at_rest(b),
        b.heap@.len() == a.heap@.len(),
        forall|i: int| 0 <= i < a.heap@.len() ==> #[trigger] b.heap@[i] == crate::rlu::committed_obj(a, 0, i),
        b.threads == a.threads,
        b.pool@[0].ws_tail_counter == a.pool@[0].ws_tail_counter + 1,
{
    let th = a.pool@[0];
    let th0 = rlu_thread_data_t {
        n_finish: crate::rlu::inc32(th.n_finish),
        run_counter: crate::rlu::inc_usize(th.run_counter),
        ..th
    };
    let (m0, m1, m2) = choose|m0: Rlu<D>, m1: Rlu<D>, m2: Rlu<D>| {
        &&& crate::rlu::thread_set(a, m0, 0, rlu_thread_data_t { is_write_detected: 0, ..th0 })
        &&& #[trigger] crate::rlu::committed(m0, m1, 0)
        &&& #[trigger] crate::rlu::released(m1, m2, 0, crate::rlu::slot(m1.pool@[0].ws_tail_counter - 1))
        &&& #[trigger] crate::rlu::checkpointed(m2, b, 0)
    };
    let t0 = m0.pool@[0];
    assert(th.wf());
    assert(crate::rlu::commit_syncs(t0));
    let m = choose|m: Rlu<D>| crate::rlu::thread_set(m0, m, 0, crate::rlu::committed_thread(t0)) && #[trigger] crate::rlu::synced(m, m1, 0);
    let tm = m.pool@[0];
    let c = th.ws_tail_counter as int;
    assert(tm.ws_tail_counter == c + 1);
    assert(tm.ws_head_counter == th.ws_head_counter);
    assert(tm.ws_wb_counter == c);
    assert(tm.obj_write_set == th.obj_write_set);
    assert(tm.free_nodes == th.free_nodes);
    crate::rlu::lemma_offset_of_counter(tm, c);
    crate::rlu::lemma_offset_of_counter(tm, c + 1);
    assert(m2.pool == m1.pool);
    assert(m2.heap == m1.heap);
    assert(m1.pool@[0].is_sync == 0);
    assert(b == m2);
    crate::rlu::law_commit_writes_back(a, b, 0);
    assert(crate::rlu::ws_clean(b.pool@[0].obj_write_set@[crate::rlu::slot(c + 1)]));
}

impl<T> RluSet<T> {
    /// Heap index of the head cell.
    pub closed spec fn head_index(self) -> int {
        match self.head {
            Ptr::Actual(i) => i as int,
            _ => -1,
        }
    }

    /// The values of the list, first to last.
    pub closed spec fn view(self) -> Seq<T> {
        values(self.rlu.heap@, self.nodes@)
    }

    /// The head cell and the nodes link up as the list `ns` in `r`.
    spec fn linked(self, r: Rlu<SetCell<T>>, ns: Seq<usize>) -> bool {
        list_ok(r.heap@, self.head_index(), ns)
    }

    /// Between operations: the RLU state is at rest with this set's thread
    /// alone registered, the head cell starts the list of `nodes`, and no
    /// value occurs twice.
    pub closed spec fn inv(self) -> bool {
        &&& at_rest(self.rlu)
        &&& self.tid == 0
        &&& self.linked(self.rlu, self.nodes@)
        &&& self.view().no_duplicates()
    }

    /// The RLU state the set lives in.
    pub closed spec fn rlu_state(self) -> Rlu<SetCell<T>> {
        self.rlu
    }

    /// The id under which the set's thread is registered.
    pub closed spec fn thread_id(self) -> usize {
        self.tid
    }

    /// The heap objects of the list's nodes, first to last.
    pub closed spec fn node_indices(self) -> Seq<usize> {
        self.nodes@
    }

    /// How many write sections this set's thread has committed.
    pub closed spec fn writes(self) -> nat {
        self.rlu.pool@[0].ws_tail_counter as nat
    }

    /// A set holds no value twice.
    pub proof fn lemma_view_distinct(self)
        requires
            self.inv(),
        ensures
            self.view().no_duplicates(),
    {
    }
}

/// An operation that leaves the heap, the head, the nodes and the write
/// counter as they were, and the state at rest, keeps the invariant and
/// the set.
proof fn lemma_inv_frame<T>(a: RluSet<T>, b: RluSet<T>)
    requires
        a.inv(),
        at_rest(b.rlu),
        b.rlu.heap == a.rlu.heap,
        b.head == a.head,
        b.nodes == a.nodes,
        b.tid == a.tid,
        b.rlu.pool@[0].ws_tail_counter == a.rlu.pool@[0].ws_tail_counter,
    ensures
        b.inv(),
        b.view() == a.view(),
        b.writes() == a.writes(),
{
    assert(b.view() == a.view());
}

/// An object that was first in thread 0's free list before a commit is
/// no longer live after it.
proof fn lemma_freed<D>(a: Rlu<D>, b: Rlu<D>, i: int)
    requires
        0 <= i < a.heap@.len(),
        a.pool@[0].free_nodes@.len() > 0,
        a.pool@[0].free_nodes@[0] == Ptr::Actual(i as usize),
        b.heap@[i] == crate::rlu::committed_obj(a, 0, i),
    ensures
        !b.heap@[i].live,
{
    assert(crate::rlu::queued(a.pool@[0], i));
}

/// A freshly initialized state with one registered thread is well formed.
proof fn lemma_rest_after_init<D>(r: Rlu<D>)
    requires
        r.wf_threads(),
        r.wf_locks(),
        r.writer_version == r.commit_version,
        r.pool@.len() == 1,
        r.pool@[0].ws_tail_counter == r.pool@[0].ws_wb_counter,
    ensures
        r.wf(),
{
    assert(r.pool@[0].settled());
}

impl<T: Copy> RluSet<T> {
    /// Allocates a node holding `value` and null inside a section of the
    /// set's thread; the list is untouched.
    fn rlu_new_node(&mut self, value: T) -> (p: Ptr)
        requires
            old(self).inv(),
        ensures
            final(self).inv(),
            final(self).view() == old(self).view(),
            final(self).writes() == old(self).writes(),
            final(self).node_indices() == old(self).node_indices(),
            final(self).nodes == old(self).nodes,
            final(self).head == old(self).head,
            final(self).tid == old(self).tid,
            p == Ptr::Actual(old(self).rlu.heap@.len() as usize),
            final(self).rlu.heap@ == old(self).rlu.heap@.push(
                HeapObj { p_obj_copy: Ptr::Null, obj_size: SET_NODE_SIZE, data: SetCell::Node(value, Ptr::Null), live: true },
            ),
    {
        let th = RLU_GET_THREAD_DATA(&self.rlu, self.tid).unwrap();
        let ghost r0 = self.rlu;
        RLU_READER_LOCK(&mut self.rlu, th);
        proof {
            lemma_enter(r0, self.rlu);
        }
        let p = RLU_ALLOC(&mut self.rlu, SET_NODE_SIZE, SetCell::Node(value, Ptr::Null));
        let ghost r2 = self.rlu;
        proof {
            assert(in_section(r2));
        }
        RLU_READER_UNLOCK(&mut self.rlu, th);
        proof {
            lemma_leave_quiet(r2, self.rlu);
            lemma_list_frame(old(self).rlu.heap@, self.rlu.heap@, self.head_index(), self.nodes@);
        }
        p
    }

    /// An empty set: the RLU state is initialized with a write-set limit of
    /// 1, a thread registered, and the head cell allocated, holding null.
    pub fn new() -> (set: RluSet<T>)
        ensures
            set.inv(),
            set.view() == Seq::<T>::empty(),
            set.writes() == 0,
            set.thread_id() == 0,
            set.rlu_state().cur_threads == 1,
            set.rlu_state().threads@[0] == Some(0usize),
            set.rlu_state().max_write_sets == 1,
            set.rlu_state().pool@.len() == 1,
            set.rlu_state().pool@[0].max_write_set == 1,
            set.rlu_state().pool@[0].run_counter % 2 == 0,
    {
        let mut rlu: Rlu<SetCell<T>> = Rlu::new();
        RLU_INIT(&mut rlu, 0, 1);
        let h = rlu_new_thread_data(&mut rlu);
        let tid = RLU_THREAD_INIT(&mut rlu, h);
        proof {
            lemma_rest_after_init(rlu);
        }
        let th = RLU_GET_THREAD_DATA(&rlu, tid).unwrap();
        let ghost r0 = rlu;
        RLU_READER_LOCK(&mut rlu, th);
        proof {
            lemma_enter(r0, rlu);
        }
        let p = RLU_ALLOC(&mut rlu, SET_HEAD_SIZE, SetCell::Head(Ptr::Null));
        let mut first = Ptr::Actual(0);
        RLU_ASSIGN_POINTER(&rlu, &mut first, Ptr::Null);
        proof {
            assert(rlu.wf());
        }
        rlu_write(&mut rlu, p, SetCell::Head(first));
        let ghost r1 = rlu;
        proof {
            assert(in_section(r1));
        }
        RLU_READER_UNLOCK(&mut rlu, th);
        proof {
            lemma_leave_quiet(r1, rlu);
        }
        RluSet { rlu, head: p, tid, nodes: Ghost(Seq::empty()) }
    }
}

/// Whether `p` is null.
fn is_null(p: Ptr) -> (r: bool)
    ensures
        r == (p is Null),
{
    match p {
        Ptr::Null => true,
        _ => false,
    }
}

/// The next pointer of a cell.
fn next_of<T: Copy>(c: SetCell<T>) -> (p: Ptr)
    ensures
        p == cell_next(c),
{
    match c {
        SetCell::Node(_, n) => n,
        SetCell::Head(n) => n,
    }
}

/// The value of a node cell; `other` for the head cell.
fn value_or<T: Copy>(c: SetCell<T>, other: T) -> (v: T)
    ensures
        v == (if c is Node {
            cell_value(c)
        } else {
            other
        }),
{
    match c {
        SetCell::Node(v, _) => v,
        SetCell::Head(_) => other,
    }
}

/// Whether two values are equal, by `T`'s `==`.
fn same_value<T: PartialEq>(a: &T, b: &T) -> (r: bool)
    requires
        vstd::laws_eq::obeys_concrete_eq::<T>(),
    ensures
        r == (*a == *b),
{
    proof {
        reveal(vstd::laws_eq::obeys_concrete_eq);
    }
    *a == *b
}

impl<T: Copy + PartialEq> RluSet<T> {
    /// Whether `value` is in the set: the thread walks the list inside a
    /// section.
    pub fn contains(&mut self, value: T) -> (r: bool)
        requires
            old(self).inv(),
            vstd::laws_eq::obeys_concrete_eq::<T>(),
        ensures
            final(self).inv(),
            final(self).view() == old(self).view(),
            final(self).writes() == old(self).writes(),
            final(self).node_indices() == old(self).node_indices(),
            r == old(self).view().contains(value),
    {
        let temp = self.head;
        if is_null(temp) {
            return false;
        }
        let ghost ns = self.nodes@;
        let th = RLU_GET_THREAD_DATA(&self.rlu, self.tid).unwrap();
        let ghost r0 = self.rlu;
        RLU_READER_LOCK(&mut self.rlu, th);
        let ghost r1 = self.rlu;
        proof {
            lemma_enter(r0, r1);
        }
        let first = RLU_DEREF(&mut self.rlu, th, temp);
        let mut node = next_of(rlu_read(&self.rlu, first));
        let ghost mut k: int = 0;
        while !is_null(node)
            invariant
                self.rlu == r1,
                in_section(r1),
                r1.heap == old(self).rlu.heap,
                r1.pool@[0].ws_tail_counter == old(self).rlu.pool@[0].ws_tail_counter,
                self.nodes@ == ns,
                ns == old(self).nodes@,
                old(self).inv(),
                self.head == old(self).head,
                self.tid == 0,
                th == 0,
                self.linked(r1, ns),
                0 <= k <= ns.len(),
                node == link(ns, k),
                forall|j: int| 0 <= j < k ==> cell_value(r1.heap@[ns[j] as int].data) != value,
                vstd::laws_eq::obeys_concrete_eq::<T>(),
            decreases ns.len() - k,
        {
            let c = rlu_read(&self.rlu, node);
            match c {
                SetCell::Node(v, next) => {
                    proof {
                        assert(cell_next(r1.heap@[ns[k] as int].data) == link(ns, k + 1));
                    }
                    if same_value(&v, &value) {
                        let ghost r2 = self.rlu;
                        RLU_READER_UNLOCK(&mut self.rlu, th);
                        proof {
                            lemma_leave_quiet(r2, self.rlu);
                            lemma_inv_frame(*old(self), *self);
                            assert(old(self).view()[k] == cell_value(r1.heap@[ns[k] as int].data));
                        }
                        return true;
                    }
                    node = RLU_DEREF(&mut self.rlu, th, next);
                },
                SetCell::Head(_) => {
                    proof {
                        assert(false);
                    }
                },
            }
            proof {
                k = k + 1;
            }
        }
        let ghost r2 = self.rlu;
        RLU_READER_UNLOCK(&mut self.rlu, th);
        proof {
            lemma_leave_quiet(r2, self.rlu);
            lemma_inv_frame(*old(self), *self);
            assert(k == ns.len());
            assert forall|j: int| 0 <= j < old(self).view().len() implies old(self).view()[j] != value by {}
        }
        false
    }

    /// How many values the set holds: the thread counts the nodes inside a
    /// section.
    pub fn len(&mut self) -> (r: usize)
        requires
            old(self).inv(),
        ensures
            final(self).inv(),
            final(self).view() == old(self).view(),
            final(self).writes() == old(self).writes(),
            final(self).node_indices() == old(self).node_indices(),
            r == old(self).view().len(),
    {
        let mut len: usize = 0;
        let temp = self.head;
        if is_null(next_of(rlu_read(&self.rlu, temp))) {
            return 0;
        }
        let ghost ns = self.nodes@;
        let th = RLU_GET_THREAD_DATA(&self.rlu, self.tid).unwrap();
        let ghost r0 = self.rlu;
        RLU_READER_LOCK(&mut self.rlu, th);
        let ghost r1 = self.rlu;
        proof {
            lemma_enter(r0, r1);
        }
        let first = RLU_DEREF(&mut self.rlu, th, temp);
        let mut node = next_of(rlu_read(&self.rlu, first));
        while !is_null(node)
            invariant
                self.rlu == r1,
                in_section(r1),
                r1.heap == old(self).rlu.heap,
                r1.pool@[0].ws_tail_counter == old(self).rlu.pool@[0].ws_tail_counter,
                self.nodes@ == ns,
                ns == old(self).nodes@,
                old(self).inv(),
                self.head == old(self).head,
                self.tid == 0,
                th == 0,
                self.linked(r1, ns),
                0 <= len <= ns.len(),
                node == link(ns, len as int),
            decreases ns.len() - len,
        {
            proof {
                assert(ns[len as int] < r1.heap@.len());
                assert(len < r1.heap.len());
            }
            len = len + 1;
            let c = rlu_read(&self.rlu, node);
            proof {
                assert(cell_next(r1.heap@[ns[len - 1] as int].data) == link(ns, len as int));
            }
            node = RLU_DEREF(&mut self.rlu, th, next_of(c));
        }
        let ghost r2 = self.rlu;
        RLU_READER_UNLOCK(&mut self.rlu, th);
        proof {
            lemma_leave_quiet(r2, self.rlu);
            lemma_inv_frame(*old(self), *self);
        }
        len
    }

    /// The values of the set, first to last, read inside a section.
    pub fn elements(&mut self) -> (res: Vec<T>)
        requires
            old(self).inv(),
        ensures
            final(self).inv(),
            final(self).view() == old(self).view(),
            final(self).writes() == old(self).writes(),
            final(self).node_indices() == old(self).node_indices(),
            res@ == old(self).view(),
    {
        let mut res: Vec<T> = Vec::new();
        let temp = self.head;
        let ghost ns = self.nodes@;
        let th = RLU_GET_THREAD_DATA(&self.rlu, self.tid).unwrap();
        let ghost r0 = self.rlu;
        RLU_READER_LOCK(&mut self.rlu, th);
        let ghost r1 = self.rlu;
        proof {
            lemma_enter(r0, r1);
        }
        let first = RLU_DEREF(&mut self.rlu, th, temp);
        let mut node = next_of(rlu_read(&self.rlu, first));
        while !is_null(node)
            invariant
                self.rlu == r1,
                in_section(r1),
                r1.heap == old(self).rlu.heap,
                r1.pool@[0].ws_tail_counter == old(self).rlu.pool@[0].ws_tail_counter,
                self.nodes@ == ns,
                ns == old(self).nodes@,
                old(self).inv(),
                self.head == old(self).head,
                self.tid == 0,
                th == 0,
                self.linked(r1, ns),
                0 <= res@.len() <= ns.len(),
                node == link(ns, res@.len() as int),
                res@ == values(r1.heap@, ns.take(res@.len() as int)),
            decreases ns.len() - res@.len(),
        {
            let ghost k = res@.len() as int;
            proof {
                assert(ns[k] < r1.heap@.len());
                assert(cell_next(r1.heap@[ns[k] as int].data) == link(ns, k + 1));
            }
            let c = rlu_read(&self.rlu, node);
            match c {
                SetCell::Node(v, _) => {
                    res.push(v);
                },
                SetCell::Head(_) => {
                    proof {
                        assert(false);
                    }
                },
            }
            proof {
                assert(ns.take(k + 1) =~= ns.take(k).push(ns[k]));
                assert(values(r1.heap@, ns.take(k + 1)) =~= values(r1.heap@, ns.take(k)).push(cell_value(r1.heap@[ns[k] as int].data)));
            }
            node = RLU_DEREF(&mut self.rlu, th, next_of(c));
        }
        let ghost r2 = self.rlu;
        RLU_READER_UNLOCK(&mut self.rlu, th);
        proof {
            lemma_leave_quiet(r2, self.rlu);
            lemma_inv_frame(*old(self), *self);
            assert(ns.take(ns.len() as int) =~= ns);
        }
        res
    }

    /// Puts `value` in front of the list unless the set holds it already;
    /// true when it was added. The head cell is locked, pointed at the new
    /// node, and the section commits.
    pub fn insert(&mut self, value: T) -> (r: bool)
        requires
            old(self).inv(),
            old(self).writes() < usize::MAX,
            vstd::laws_eq::obeys_concrete_eq::<T>(),
        ensures
            final(self).inv(),
            r == !old(self).view().contains(value),
            final(self).view() == set_inserted(old(self).view(), value),
            final(self).view().contains(value),
            final(self).writes() == (if r {
                old(self).writes() + 1
            } else {
                old(self).writes()
            }),
    {
        proof {
            law_insert_adds(old(self).view(), value);
        }
        if !self.contains(value) {
            let mut temp = self.head;
            if is_null(temp) {
                return false;
            }
            // As in `delete`, a failed lock would abort and restart the
            // section; here the lock on the head cell always succeeds.
            let mut restart = true;
            let ghost n: usize = self.rlu.heap.len();
            let ghost sc = *self;
            let p_new_node = self.rlu_new_node(value);
            let th = RLU_GET_THREAD_DATA(&self.rlu, self.tid).unwrap();
            let ghost s0 = *self;
            let ghost ns = s0.nodes@;
            let ghost hi = s0.head_index();
            proof {
                assert(!ns.contains(n)) by {
                    if ns.contains(n) {
                        let k = choose|k: int| 0 <= k < ns.len() && ns[k] == n;
                        assert(ns[k] < sc.rlu.heap@.len());
                    }
                }
            }
            while restart
                invariant
                    restart,
                    *self == s0,
                    s0.inv(),
                    s0.view() == old(self).view(),
                    s0.writes() == old(self).writes(),
                    s0.writes() < usize::MAX,
                    !old(self).view().contains(value),
                    p_new_node == Ptr::Actual(n),
                    n + 1 == s0.rlu.heap@.len(),
                    ns == s0.nodes@,
                    hi == s0.head_index(),
                    ns.len() <= n,
                    !ns.contains(n),
                    n != hi,
                    s0.rlu.heap@[n as int].obj_size == SET_NODE_SIZE,
                    s0.rlu.heap@[n as int].p_obj_copy is Null,
                    temp == s0.head,
                    th == 0,
                decreases 1int,
            {
                let ghost r0 = self.rlu;
                RLU_READER_LOCK(&mut self.rlu, th);
                let ghost r1 = self.rlu;
                proof {
                    lemma_enter(r0, r1);
                    lemma_next_slot_clean(r1.pool@[0]);
                }
                let lr = RLU_TRY_LOCK(&mut self.rlu, th, &mut temp);
                if lr == 0 {
                    rlu_abort(&mut self.rlu, th);
                } else {
                    restart = false;
                    let ghost r1b = self.rlu;
                    let cur = RLU_DEREF(&mut self.rlu, th, temp);
                    let cur_first = next_of(rlu_read(&self.rlu, cur));
                    let mut next = Ptr::Null;
                    RLU_ASSIGN_POINTER(&self.rlu, &mut next, cur_first);
                    rlu_write(&mut self.rlu, p_new_node, SetCell::Node(value, next));
                    let mut first = Ptr::Null;
                    RLU_ASSIGN_POINTER(&self.rlu, &mut first, p_new_node);
                    rlu_write(&mut self.rlu, temp, SetCell::Head(first));
                    let ghost r2 = self.rlu;
                    proof {
                        assert(writing(r2));
                    }
                    RLU_READER_UNLOCK(&mut self.rlu, th);
                    proof {
                        lemma_leave_commit(r2, self.rlu);
                        lemma_list_push_front(s0.rlu.heap@, self.rlu.heap@, hi, ns, n, value);
                    }
                    self.nodes = Ghost(seq![n] + ns);
                    proof {
                        law_insert_adds(old(self).view(), value);
                        assert(self.view() == seq![value] + old(self).view());
                        assert(self.view().no_duplicates());
                    }
                    return true;
                }
            }
        }
        false
    }

    /// Takes `value` out of the set if it is there; true when it was. The
    /// cell before its node is locked and pointed past it, the node is
    /// locked and queued for freeing, and the section commits.
    #[verifier::rlimit(40)]
    pub fn delete(&mut self, value: T) -> (r: bool)
        requires
            old(self).inv(),
            old(self).writes() < usize::MAX,
            vstd::laws_eq::obeys_concrete_eq::<T>(),
        ensures
            final(self).inv(),
            r == old(self).view().contains(value),
            final(self).view() == set_deleted(old(self).view(), value),
            !final(self).view().contains(value),
            r ==> final(self).node_indices() == old(self).node_indices().remove(old(self).view().index_of(value)),
            r ==> !final(self).rlu_state().heap@[old(self).node_indices()[old(self).view().index_of(value)] as int].live,
            final(self).writes() == (if r {
                old(self).writes() + 1
            } else {
                old(self).writes()
            }),
    {
        proof {
            law_delete_removes(old(self).view(), value);
        }
        if !self.contains(value) {
            return false;
        }
        // A failed lock aborts the section and restarts it. With this set's
        // thread alone registered no object is ever held by another
        // section, so every lock succeeds and those branches are not taken.
        let mut restart = true;
        let mut do_loop = true;
        let th = RLU_GET_THREAD_DATA(&self.rlu, self.tid).unwrap();
        let ghost s0 = *self;
        let ghost ns = s0.nodes@;
        let ghost hi = s0.head_index();
        let ghost j = old(self).view().index_of(value);
        proof {
            assert(0 <= j < ns.len() && s0.view()[j] == value);
        }
        while restart
            invariant
                restart,
                do_loop,
                *self == s0,
                s0.inv(),
                s0.view() == old(self).view(),
                s0.writes() == old(self).writes(),
                s0.writes() < usize::MAX,
                ns == s0.nodes@,
                ns == old(self).nodes@,
                hi == s0.head_index(),
                0 <= j < ns.len(),
                s0.view()[j] == value,
                j == old(self).view().index_of(value),
                th == 0,
                vstd::laws_eq::obeys_concrete_eq::<T>(),
            ensures
                in_section(self.rlu),
                self.rlu.heap == s0.rlu.heap,
                self.rlu.pool@[0].ws_tail_counter == s0.rlu.pool@[0].ws_tail_counter,
                self.head == s0.head,
                self.nodes == s0.nodes,
                self.tid == s0.tid,
                forall|i: int| 0 <= i < ns.len() ==> s0.view()[i] != value,
            decreases 1int,
        {
            let ghost r0 = self.rlu;
            RLU_READER_LOCK(&mut self.rlu, th);
            let ghost r1 = self.rlu;
            proof {
                lemma_enter(r0, r1);
                lemma_next_slot_clean(r1.pool@[0]);
            }
            restart = false;
            let head_cell = RLU_DEREF(&mut self.rlu, th, self.head);
            let mut p_prev = next_of(rlu_read(&self.rlu, head_cell));
            if is_null(p_prev) {
                break;
            }
            proof {
                assert(ns[0] < r1.heap@.len());
                assert(cell_next(r1.heap@[ns[0] as int].data) == link(ns, 1));
            }
            let prev_next = next_of(rlu_read(&self.rlu, p_prev));
            let mut p_next = RLU_DEREF(&mut self.rlu, th, prev_next);
            if same_value(&value_or(rlu_read(&self.rlu, p_prev), value), &value) {
                proof {
                    assert(s0.view()[0] == value);
                }
                let mut head = self.head;
                let prev_next = next_of(rlu_read(&self.rlu, p_prev));
                let n = RLU_DEREF(&mut self.rlu, th, prev_next);
                if RLU_TRY_LOCK(&mut self.rlu, th, &mut head) == 0 {
                    rlu_abort(&mut self.rlu, th);
                    restart = true;
                    do_loop = false;
                } else if RLU_TRY_LOCK(&mut self.rlu, th, &mut p_prev) == 0 {
                    rlu_abort(&mut self.rlu, th);
                    restart = true;
                    do_loop = false;
                } else {
                    let mut nn = Ptr::Null;
                    RLU_ASSIGN_POINTER(&self.rlu, &mut nn, n);
                    rlu_write(&mut self.rlu, head, SetCell::Head(nn));
                    RLU_FREE(&mut self.rlu, Some(th), p_prev);
                    let ghost r2 = self.rlu;
                    proof {
                        assert(writing(r2));
                    }
                    RLU_READER_UNLOCK(&mut self.rlu, th);
                    proof {
                        lemma_leave_commit(r2, self.rlu);
                        lemma_list_remove(s0.rlu.heap@, self.rlu.heap@, hi, ns, 0);
                    }
                    self.nodes = Ghost(ns.remove(0));
                    proof {
                        assert(j == 0);
                        assert(self.view().no_duplicates());
                        lemma_freed(r2, self.rlu, ns[0] as int);
                    }
                    return true;
                }
            }
            let ghost mut k: int = 0;
            while do_loop
                invariant
                    do_loop,
                    !restart,
                    self.rlu == r1,
                    in_section(r1),
                    r1.heap == s0.rlu.heap,
                    r1.pool@[0].ws_tail_counter == s0.rlu.pool@[0].ws_tail_counter,
                    crate::rlu::ws_clean(r1.pool@[0].obj_write_set@[crate::rlu::slot(r1.pool@[0].ws_tail_counter + 1)]),
                    crate::rlu::slot(r1.pool@[0].ws_tail_counter + 1) != crate::rlu::slot(r1.pool@[0].ws_tail_counter as int),
                    self.head == s0.head,
                    self.nodes == s0.nodes,
                    self.tid == s0.tid,
                    s0.inv(),
                    s0.view() == old(self).view(),
                    s0.writes() == old(self).writes(),
                    s0.writes() < usize::MAX,
                    ns == s0.nodes@,
                    ns == old(self).nodes@,
                    hi == s0.head_index(),
                    0 <= j < ns.len(),
                    s0.view()[j] == value,
                    j == old(self).view().index_of(value),
                    th == 0,
                    vstd::laws_eq::obeys_concrete_eq::<T>(),
                    0 <= k < ns.len(),
                    k < j,
                    p_prev == Ptr::Actual(ns[k]),
                    p_next == link(ns, k + 1),
                ensures
                    self.rlu == r1,
                    forall|i: int| 0 <= i < ns.len() ==> s0.view()[i] != value,
                decreases ns.len() - k,
            {
                if is_null(p_next) {
                    break;
                }
                proof {
                    assert(ns[k + 1] < r1.heap@.len());
                    assert(cell_next(r1.heap@[ns[k + 1] as int].data) == link(ns, k + 2));
                }
                let v = value_or(rlu_read(&self.rlu, p_next), value);
                if same_value(&v, &value) {
                    proof {
                        assert(s0.view()[k + 1] == value);
                        assert(ns[k] < r1.heap@.len());
                        assert(ns[k] != ns[k + 1]);
                    }
                    let next_next = next_of(rlu_read(&self.rlu, p_next));
                    let n = RLU_DEREF(&mut self.rlu, th, next_next);
                    if RLU_TRY_LOCK(&mut self.rlu, th, &mut p_prev) == 0 {
                        rlu_abort(&mut self.rlu, th);
                        restart = true;
                        break;
                    }
                    if RLU_TRY_LOCK(&mut self.rlu, th, &mut p_next) == 0 {
                        rlu_abort(&mut self.rlu, th);
                        restart = true;
                        break;
                    }
                    let mut nn = Ptr::Null;
                    RLU_ASSIGN_POINTER(&self.rlu, &mut nn, n);
                    let pv = value_or(rlu_read(&self.rlu, p_prev), value);
                    rlu_write(&mut self.rlu, p_prev, SetCell::Node(pv, nn));
                    RLU_FREE(&mut self.rlu, Some(th), p_next);
                    let ghost r2 = self.rlu;
                    proof {
                        assert(writing(r2));
                    }
                    RLU_READER_UNLOCK(&mut self.rlu, th);
                    proof {
                        lemma_leave_commit(r2, self.rlu);
                        lemma_list_remove(s0.rlu.heap@, self.rlu.heap@, hi, ns, k + 1);
                    }
                    self.nodes = Ghost(ns.remove(k + 1));
                    proof {
                        assert(j == k + 1);
                        assert(self.view().no_duplicates());
                        lemma_freed(r2, self.rlu, ns[k + 1] as int);
                    }
                    return true;
                }
                proof {
                    assert(s0.view()[k + 1] != value);
                }
                p_prev = p_next;
                let prev_next = next_of(rlu_read(&self.rlu, p_prev));
                p_next = RLU_DEREF(&mut self.rlu, th, prev_next);
                proof {
                    k = k + 1;
                }
            }
        }
        proof {
            assert(s0.view()[j] != value);
        }
        let ghost r3 = self.rlu;
        RLU_READER_UNLOCK(&mut self.rlu, th);
        proof {
            lemma_leave_quiet(r3, self.rlu);
            lemma_inv_frame(s0, *self);
        }
        false
    }
}

} // verus!
