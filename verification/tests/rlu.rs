use rlu::rlu::{
    rlu_avg_writeback_q_iters, rlu_data, rlu_new_thread_data, rlu_read, rlu_write, Ptr, Rlu, ALIGN_OBJ_SIZE,
    LOCK_ID, PTR_IS_COPY, PTR_IS_LOCKED, PTR_IS_UNLOCKED, RLU_ABORT, RLU_ALLOC, RLU_ASSIGN_POINTER,
    RLU_DEREF, RLU_FREE, RLU_GET_THREAD_DATA, RLU_INIT, RLU_IS_SAME_PTRS, RLU_READER_LOCK,
    RLU_READER_UNLOCK, RLU_THREAD_FINISH, RLU_THREAD_INIT, RLU_TRY_LOCK, RLU_TRY_WRITER_LOCK, WS_INDEX,
};

fn one_thread(max_write_sets: usize) -> (Rlu<u64>, usize) {
    let mut rlu: Rlu<u64> = Rlu::new();
    RLU_INIT(&mut rlu, 0, max_write_sets);
    let h = rlu_new_thread_data(&mut rlu);
    let id = RLU_THREAD_INIT(&mut rlu, h);
    assert_eq!(id, 0);
    (rlu, h)
}

#[test]
fn align_obj_size_rounds_up_to_eight() {
    assert_eq!(ALIGN_OBJ_SIZE(0), 0);
    assert_eq!(ALIGN_OBJ_SIZE(1), 8);
    assert_eq!(ALIGN_OBJ_SIZE(8), 8);
    assert_eq!(ALIGN_OBJ_SIZE(9), 16);
    assert_eq!(ALIGN_OBJ_SIZE(23), 24);
}

#[test]
fn ws_index_and_lock_id() {
    assert_eq!(WS_INDEX(0), 0);
    assert_eq!(WS_INDEX(25), 25);
    assert_eq!(WS_INDEX(200), 0);
    assert_eq!(WS_INDEX(205), 5);
    assert_eq!(LOCK_ID(0), 1);
    assert_eq!(LOCK_ID(6), 7);
}

#[test]
fn pointer_predicates() {
    assert!(!PTR_IS_LOCKED(Ptr::Null));
    assert!(PTR_IS_UNLOCKED(Ptr::Null));
    assert!(PTR_IS_LOCKED(Ptr::InWriteSet(0, 0, 0)));
    assert!(PTR_IS_COPY(Ptr::CopyMark));
    assert!(!PTR_IS_COPY(Ptr::Actual(3)));
}

#[test]
fn average_writeback_iterations() {
    let mut stats = rlu_data {
        n_starts: 0,
        n_finish: 0,
        n_writers: 0,
        n_writer_writeback: 0,
        n_writeback_q_iters: 9,
        n_pure_readers: 0,
        n_steals: 0,
        n_aborts: 0,
        n_sync_requests: 0,
        n_sync_and_writeback: 0,
    };
    assert_eq!(rlu_avg_writeback_q_iters(&stats), 0);
    stats.n_writer_writeback = 4;
    assert_eq!(rlu_avg_writeback_q_iters(&stats), 2);
}

#[test]
fn thread_registration() {
    let (rlu, h) = one_thread(1);
    assert_eq!(RLU_GET_THREAD_DATA(&rlu, 0), Some(h));
    assert_eq!(RLU_GET_THREAD_DATA(&rlu, 1), None);
    assert_eq!(rlu.cur_threads, 1);
}

#[test]
fn committed_write_is_written_back() {
    let (mut rlu, h) = one_thread(1);
    RLU_READER_LOCK(&mut rlu, h);
    let p = RLU_ALLOC(&mut rlu, 8, 5u64);
    let mut q = p;
    assert_eq!(RLU_TRY_LOCK(&mut rlu, h, &mut q), 1);
    assert!(q != p);
    assert!(RLU_IS_SAME_PTRS(&rlu, q, p));
    rlu_write(&mut rlu, q, 7);
    assert_eq!(rlu_read(&rlu, p), 5);
    assert_eq!(rlu_read(&rlu, q), 7);
    assert_eq!(RLU_DEREF(&mut rlu, h, p), q);
    let mut stored = Ptr::Null;
    RLU_ASSIGN_POINTER(&rlu, &mut stored, q);
    assert_eq!(stored, p);
    RLU_READER_UNLOCK(&mut rlu, h);
    assert_eq!(rlu_read(&rlu, p), 7);
    assert_eq!(rlu.heap[0].p_obj_copy, Ptr::Null);
    assert_eq!(rlu.pool[h].ws_tail_counter, 1);
    assert_eq!(rlu.pool[h].ws_wb_counter, 1);
}

#[test]
fn aborted_write_is_dropped() {
    let (mut rlu, h) = one_thread(1);
    RLU_READER_LOCK(&mut rlu, h);
    let p = RLU_ALLOC(&mut rlu, 16, 5u64);
    let mut q = p;
    assert_eq!(RLU_TRY_LOCK(&mut rlu, h, &mut q), 1);
    rlu_write(&mut rlu, q, 9);
    RLU_ABORT(&mut rlu, h);
    assert_eq!(rlu_read(&rlu, p), 5);
    assert_eq!(rlu.heap[0].p_obj_copy, Ptr::Null);
    assert_eq!(rlu.pool[h].ws_tail_counter, 0);
    assert_eq!(rlu.pool[h].n_aborts, 1);
}

#[test]
fn locking_twice_in_a_section_returns_the_copy() {
    let (mut rlu, h) = one_thread(1);
    RLU_READER_LOCK(&mut rlu, h);
    let p = RLU_ALLOC(&mut rlu, 8, 1u64);
    let mut q1 = p;
    assert_eq!(RLU_TRY_LOCK(&mut rlu, h, &mut q1), 1);
    let mut q2 = p;
    assert_eq!(RLU_TRY_LOCK(&mut rlu, h, &mut q2), 1);
    assert_eq!(q1, q2);
    RLU_READER_UNLOCK(&mut rlu, h);
}

#[test]
fn free_marks_object_dead_after_commit() {
    let (mut rlu, h) = one_thread(1);
    RLU_READER_LOCK(&mut rlu, h);
    let p = RLU_ALLOC(&mut rlu, 8, 1u64);
    let mut q = p;
    assert_eq!(RLU_TRY_LOCK(&mut rlu, h, &mut q), 1);
    RLU_FREE(&mut rlu, Some(h), q);
    assert!(rlu.heap[0].live);
    RLU_READER_UNLOCK(&mut rlu, h);
    assert!(!rlu.heap[0].live);
}

#[test]
fn free_without_thread_is_immediate() {
    let (mut rlu, _h) = one_thread(1);
    let p = RLU_ALLOC(&mut rlu, 8, 1u64);
    RLU_FREE(&mut rlu, None, p);
    assert!(!rlu.heap[0].live);
}

#[test]
fn writer_lock_taken_once() {
    let (mut rlu, h) = one_thread(1);
    RLU_READER_LOCK(&mut rlu, h);
    assert_eq!(RLU_TRY_WRITER_LOCK(&mut rlu, h, 3), 1);
    assert_eq!(rlu.writer_locks[3], 1);
    assert_eq!(RLU_TRY_WRITER_LOCK(&mut rlu, h, 3), 0);
    RLU_READER_UNLOCK(&mut rlu, h);
    assert_eq!(rlu.writer_locks[3], 0);
}

#[test]
fn thread_finish_adds_statistics() {
    let (mut rlu, h) = one_thread(1);
    RLU_READER_LOCK(&mut rlu, h);
    RLU_READER_UNLOCK(&mut rlu, h);
    RLU_THREAD_FINISH(&mut rlu, h);
    assert_eq!(rlu.stats.n_starts, 1);
    assert_eq!(rlu.stats.n_finish, 1);
}

#[test]
fn read_only_section_changes_no_object() {
    let (mut rlu, h) = one_thread(1);
    let p = RLU_ALLOC(&mut rlu, 8, 42u64);
    RLU_READER_LOCK(&mut rlu, h);
    assert_eq!(RLU_DEREF(&mut rlu, h, p), p);
    assert_eq!(rlu_read(&rlu, p), 42);
    RLU_READER_UNLOCK(&mut rlu, h);
    assert_eq!(rlu_read(&rlu, p), 42);
    assert_eq!(rlu.heap[0].p_obj_copy, Ptr::Null);
    assert!(rlu.heap[0].live);
    assert_eq!(rlu.pool[h].ws_tail_counter, 0);
}

#[test]
fn reader_enters_while_another_thread_writes() {
    let mut rlu: Rlu<u64> = Rlu::new();
    RLU_INIT(&mut rlu, 0, 1);
    let a = rlu_new_thread_data(&mut rlu);
    assert_eq!(RLU_THREAD_INIT(&mut rlu, a), 0);
    let b = rlu_new_thread_data(&mut rlu);
    assert_eq!(RLU_THREAD_INIT(&mut rlu, b), 1);
    let p = RLU_ALLOC(&mut rlu, 8, 3u64);
    RLU_READER_LOCK(&mut rlu, a);
    let mut q = p;
    assert_eq!(RLU_TRY_LOCK(&mut rlu, a, &mut q), 1);
    rlu_write(&mut rlu, q, 4);
    RLU_READER_LOCK(&mut rlu, b);
    let seen = RLU_DEREF(&mut rlu, b, p);
    assert_eq!(rlu_read(&rlu, seen), 3);
    RLU_READER_UNLOCK(&mut rlu, b);
    RLU_ABORT(&mut rlu, a);
    assert_eq!(rlu_read(&rlu, p), 3);
    assert_eq!(rlu.heap[0].p_obj_copy, Ptr::Null);
}

#[test]
fn large_write_set_limit_defers_write_back() {
    let (mut rlu, h) = one_thread(50);
    let p = RLU_ALLOC(&mut rlu, 8, 0u64);
    let mut retries = 0;
    for v in 1..=120u64 {
        loop {
            RLU_READER_LOCK(&mut rlu, h);
            let mut q = p;
            if RLU_TRY_LOCK(&mut rlu, h, &mut q) == 1 {
                rlu_write(&mut rlu, q, v);
                RLU_READER_UNLOCK(&mut rlu, h);
                break;
            }
            // Still held by a committed write set: abort, and the next
            // section writes it back first.
            RLU_ABORT(&mut rlu, h);
            retries += 1;
        }
    }
    assert!(retries > 0);
    assert_eq!(rlu.pool[h].ws_tail_counter, 120);
    assert!(rlu.pool[h].ws_tail_counter - rlu.pool[h].ws_head_counter < 200);
    RLU_THREAD_FINISH(&mut rlu, h);
    assert_eq!(rlu_read(&rlu, p), 120);
}

#[test]
fn read_only_sections_forget_their_writer_locks() {
    let (mut rlu, h) = one_thread(1);
    for id in 0..30usize {
        RLU_READER_LOCK(&mut rlu, h);
        assert_eq!(RLU_TRY_WRITER_LOCK(&mut rlu, h, id), 1);
        RLU_READER_UNLOCK(&mut rlu, h);
        let cur = rlu.pool[h].ws_cur_id;
        assert!(rlu.pool[h].obj_write_set[cur].writer_locks.is_empty());
        assert_eq!(rlu.writer_locks[id], 0);
    }
}
