use axfutex::futex::{clear_wait, FutexError, FutexKey, FutexQ, FutexRobustList};
use axfutex::queues::{futex_hash, get_futex_key, FutexQueues, FUTEX_HASH_SIZE, PAGE_SIZE};
use axfutex::waitwake::{
    futex_requeue, futex_wait_enqueue, futex_wait_resume, futex_wake, futex_wake_bitset, WaitResume,
};

const ANY: u32 = u32::MAX;

fn store() -> FutexQueues {
    FutexQueues::new(FUTEX_HASH_SIZE)
}

/// Enqueue a waiter as a `futex_wait` round does when the live value still
/// matches the expected one.
fn enqueue(q: &mut FutexQueues, addr: usize, pid: u64, task_id: u64, bitset: u32) {
    let r = futex_wait_enqueue(q, addr, 0, pid, task_id, 7, 7, bitset);
    assert_eq!(r, Ok(()));
}

#[test]
fn key_new_packs_fields() {
    let k = FutexKey::new(3, 0x5000, 0x10);
    assert_eq!(k.pid, 3);
    assert_eq!(k.aligned, 0x5000);
    assert_eq!(k.offset, 0x10);
}

#[test]
fn futexq_new_and_match_key() {
    let k = FutexKey::new(1, 0x1000, 4);
    let w = FutexQ::new(k, 42, ANY);
    assert_eq!(w.task_id, 42);
    assert_eq!(w.bitset, ANY);
    assert!(w.match_key(&k));
    assert!(!w.match_key(&FutexKey::new(2, 0x1000, 4)));
}

#[test]
fn robust_list_record() {
    let r = FutexRobustList::new(0xbeef000, 24);
    assert_eq!(r.head, 0xbeef000);
    assert_eq!(r.len, 24);
    let d = FutexRobustList::default();
    assert_eq!(d.head, 0);
    assert_eq!(d.len, 0);
}

#[test]
fn key_equality_same_page_and_offset() {
    // Two calls on the same address, whatever the sharing flag, derive the
    // same key; a different pid derives a different key.
    let a: usize = 7 * PAGE_SIZE + 0x84;
    let k1 = get_futex_key(a, 0, 9);
    let k2 = get_futex_key(a, 1, 9);
    assert_eq!(k1, k2);
    assert_eq!(k1.aligned, 7 * PAGE_SIZE);
    assert_eq!(k1.offset, 0x84);
    assert_ne!(get_futex_key(a, 0, 10), k1);
}

#[test]
fn key_inequality_other_offset() {
    let a: usize = 7 * PAGE_SIZE + 0x84;
    assert_ne!(get_futex_key(a + 4, 0, 9), get_futex_key(a, 0, 9));
}

#[test]
fn hash_matches_jhash_and_stays_in_range() {
    let k = FutexKey::new(77, 3 * PAGE_SIZE, 0x44);
    let words: [u32; 3] = [77u32, (3 * PAGE_SIZE) as u32, 0x44];
    let expected = (jhash::jhash2(&words, 0x44) as usize) & (FUTEX_HASH_SIZE - 1);
    let h = futex_hash(&k);
    assert_eq!(h, expected);
    assert!(h < FUTEX_HASH_SIZE);
}

#[test]
fn hash_is_deterministic_and_reads_all_words() {
    let k1 = FutexKey::new(5, 0, 0);
    let k2 = FutexKey::new(5, 0, 0);
    assert_eq!(futex_hash(&k1), futex_hash(&k2));
    // Changing only the page must move the key to another bucket for these
    // values; a hash that ignored the words and echoed its seed could not.
    let k3 = FutexKey::new(5, PAGE_SIZE, 0);
    assert_ne!(futex_hash(&k1), futex_hash(&k3));
}

#[test]
fn wake_on_empty_key_returns_none() {
    let mut q = store();
    let woken = futex_wake(&mut q, 0x3000, 0, 1, 8);
    assert_eq!(woken, Vec::<u64>::new());
}

#[test]
fn fifo_fairness_wakes_prefix_in_order() {
    let mut q = store();
    let addr: usize = 0x8000;
    for tid in [11, 12, 13, 14] {
        enqueue(&mut q, addr, 1, tid, ANY);
    }
    let woken = futex_wake(&mut q, addr, 0, 1, 2);
    assert_eq!(woken, vec![11, 12]);
    let rest = futex_wake(&mut q, addr, 0, 1, 10);
    assert_eq!(rest, vec![13, 14]);
}

#[test]
fn wake_with_zero_budget_wakes_nobody() {
    let mut q = store();
    enqueue(&mut q, 0x8000, 1, 11, ANY);
    assert_eq!(futex_wake(&mut q, 0x8000, 0, 1, 0), Vec::<u64>::new());
    assert_eq!(futex_wake(&mut q, 0x8000, 0, 1, 1), vec![11]);
}

#[test]
fn wake_only_touches_its_own_key() {
    let mut q = store();
    enqueue(&mut q, 0x8000, 1, 11, ANY);
    enqueue(&mut q, 0x9000, 1, 22, ANY);
    assert_eq!(futex_wake(&mut q, 0x8000, 0, 1, 8), vec![11]);
    assert_eq!(futex_wake(&mut q, 0x9000, 0, 1, 8), vec![22]);
}

#[test]
fn bitset_selectivity_example() {
    // Three tasks wait with bitsets 0b01, 0b10, 0b11; a bitset wake with
    // budget 2 and mask 0b01 wakes the first and third, FIFO among
    // matches, and leaves the second queued.
    let mut q = store();
    let addr: usize = 0xa000;
    enqueue(&mut q, addr, 1, 1, 0b01);
    enqueue(&mut q, addr, 1, 2, 0b10);
    enqueue(&mut q, addr, 1, 3, 0b11);
    let woken = futex_wake_bitset(&mut q, addr, 0, 1, 2, 0b01).unwrap();
    assert_eq!(woken, vec![1, 3]);
    let rest = futex_wake(&mut q, addr, 0, 1, 8);
    assert_eq!(rest, vec![2]);
}

#[test]
fn bitset_miss_leaves_waiter_queued() {
    let mut q = store();
    enqueue(&mut q, 0xa000, 1, 5, 0b100);
    let woken = futex_wake_bitset(&mut q, 0xa000, 0, 1, 8, 0b011).unwrap();
    assert_eq!(woken, Vec::<u64>::new());
    assert_eq!(futex_wake(&mut q, 0xa000, 0, 1, 8), vec![5]);
}

#[test]
fn zero_bitset_is_rejected_before_touching_queues() {
    let mut q = store();
    enqueue(&mut q, 0xa000, 1, 5, ANY);
    let r = futex_wake_bitset(&mut q, 0xa000, 0, 1, 8, 0);
    assert_eq!(r, Err(FutexError::InvalidArgument));
    // The waiter is still there.
    assert_eq!(futex_wake(&mut q, 0xa000, 0, 1, 8), vec![5]);
}

#[test]
fn value_mismatch_fast_path_enqueues_nothing() {
    let mut q = store();
    let r = futex_wait_enqueue(&mut q, 0xb000, 0, 1, 9, 7, 8, ANY);
    assert_eq!(r, Err(FutexError::WouldBlock));
    assert_eq!(futex_wake(&mut q, 0xb000, 0, 1, 8), Vec::<u64>::new());
}

#[test]
fn no_lost_wakeup_round() {
    // Enqueue, then wake(1), then resume: the waiter must observe success.
    let mut q = store();
    enqueue(&mut q, 0xc000, 1, 33, ANY);
    assert_eq!(futex_wake(&mut q, 0xc000, 0, 1, 1), vec![33]);
    let r = futex_wait_resume(&mut q, 0xc000, 0, 1, 33, false, false);
    assert_eq!(r, WaitResume::Woken);
}

#[test]
fn woken_waiter_reports_success_even_with_signal_or_timeout() {
    let mut q = store();
    enqueue(&mut q, 0xc000, 1, 33, ANY);
    assert_eq!(futex_wake(&mut q, 0xc000, 0, 1, 1), vec![33]);
    let r = futex_wait_resume(&mut q, 0xc000, 0, 1, 33, true, true);
    assert_eq!(r, WaitResume::Woken);
}

#[test]
fn timeout_removes_entry_and_reports_timed_out() {
    let mut q = store();
    enqueue(&mut q, 0xc000, 1, 33, ANY);
    let r = futex_wait_resume(&mut q, 0xc000, 0, 1, 33, true, false);
    assert_eq!(r, WaitResume::TimedOut);
    assert_eq!(futex_wake(&mut q, 0xc000, 0, 1, 8), Vec::<u64>::new());
}

#[test]
fn signal_while_queued_reports_interrupted() {
    let mut q = store();
    enqueue(&mut q, 0xc000, 1, 33, ANY);
    let r = futex_wait_resume(&mut q, 0xc000, 0, 1, 33, false, true);
    assert_eq!(r, WaitResume::Interrupted);
}

#[test]
fn timeout_takes_precedence_over_signal_when_still_queued() {
    let mut q = store();
    enqueue(&mut q, 0xc000, 1, 33, ANY);
    let r = futex_wait_resume(&mut q, 0xc000, 0, 1, 33, true, true);
    assert_eq!(r, WaitResume::TimedOut);
}

#[test]
fn spurious_resume_dequeues_and_retries() {
    let mut q = store();
    enqueue(&mut q, 0xc000, 1, 33, ANY);
    let r = futex_wait_resume(&mut q, 0xc000, 0, 1, 33, false, false);
    assert_eq!(r, WaitResume::Retry);
    // The retry starts from scratch: nothing is left enqueued meanwhile.
    assert_eq!(futex_wake(&mut q, 0xc000, 0, 1, 8), Vec::<u64>::new());
}

#[test]
fn requeue_conservation() {
    // Five waiters on addr1: wake 2, requeue at most 2, leave 1 behind.
    let mut q = store();
    let addr1: usize = 0xd000;
    let addr2: usize = 0xe000;
    for tid in [1, 2, 3, 4, 5] {
        enqueue(&mut q, addr1, 1, tid, ANY);
    }
    let woken = futex_requeue(&mut q, addr1, 0, 1, 2, addr2, 2);
    assert_eq!(woken, vec![1, 2]);
    // The moved waiters answer to the destination key now, in order.
    assert_eq!(futex_wake(&mut q, addr2, 0, 1, 8), vec![3, 4]);
    // The one beyond the requeue budget stayed on the source key.
    assert_eq!(futex_wake(&mut q, addr1, 0, 1, 8), vec![5]);
}

#[test]
fn requeue_on_same_key_degenerates_to_wake() {
    let mut q = store();
    let addr: usize = 0xd000;
    for tid in [1, 2, 3] {
        enqueue(&mut q, addr, 1, tid, ANY);
    }
    let woken = futex_requeue(&mut q, addr, 0, 1, 1, addr, 5);
    assert_eq!(woken, vec![1]);
    assert_eq!(futex_wake(&mut q, addr, 0, 1, 8), vec![2, 3]);
}

#[test]
fn requeue_wakes_all_when_budget_covers_queue() {
    let mut q = store();
    enqueue(&mut q, 0xd000, 1, 1, ANY);
    let woken = futex_requeue(&mut q, 0xd000, 0, 1, 4, 0xe000, 4);
    assert_eq!(woken, vec![1]);
    assert_eq!(futex_wake(&mut q, 0xe000, 0, 1, 8), Vec::<u64>::new());
}

#[test]
fn clear_wait_leader_drops_every_waiter_of_the_pid() {
    let mut q = store();
    // Two threads of process 1 on different keys, one waiter of process 2.
    enqueue(&mut q, 0xf000, 1, 10, ANY);
    enqueue(&mut q, 0x10000, 1, 11, ANY);
    enqueue(&mut q, 0xf000, 2, 20, ANY);
    clear_wait(&mut q, 1, true);
    assert_eq!(futex_wake(&mut q, 0xf000, 0, 1, 8), Vec::<u64>::new());
    assert_eq!(futex_wake(&mut q, 0x10000, 0, 1, 8), Vec::<u64>::new());
    // The other process's waiter is untouched.
    assert_eq!(futex_wake(&mut q, 0xf000, 0, 2, 8), vec![20]);
}

#[test]
fn clear_wait_task_drops_only_that_task() {
    let mut q = store();
    enqueue(&mut q, 0xf000, 1, 10, ANY);
    enqueue(&mut q, 0xf000, 1, 11, ANY);
    clear_wait(&mut q, 10, false);
    assert_eq!(futex_wake(&mut q, 0xf000, 0, 1, 8), vec![11]);
}
