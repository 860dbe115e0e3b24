//! Futex keys, queued waiters, the robust-list record, and the error
//! taxonomy of the futex operations.

use vstd::prelude::*;

use crate::queues::FutexQueues;

verus! {

/// Futexes are matched on equal values of this key: two callers name the
/// same futex exactly when their keys agree in every field.
///
/// The pid stands in for an address-space identity; only process-private
/// and anonymous mappings are supported, so no inode-backed component
/// exists yet.
#[derive(Clone, Copy, Debug, Default, PartialEq, Eq, Structural, PartialOrd, Ord, Hash)]
pub struct FutexKey {
    /// Process id, distinguishing the address spaces of different processes.
    pub pid: u64,
    /// Page-aligned base virtual address of the page holding the futex word.
    pub aligned: usize,
    /// Byte offset of the futex word within that page.
    pub offset: u32,
}

impl FutexKey {
    /// Pack the three identity fields into a key.
    pub fn new(pid: u64, aligned: usize, offset: u32) -> (r: Self)
        ensures
            r == (FutexKey { pid, aligned, offset }),
    {
        Self { pid, aligned, offset }
    }
}

/// One blocked task waiting on a futex key: an entry of a wait queue.
#[derive(Clone, Copy, Debug, PartialEq, Eq, Structural)]
pub struct FutexQ {
    /// The key the task is queued under.
    pub key: FutexKey,
    /// Identity of the waiting task; the queue holds only this handle,
    /// never ownership of the task itself.
    pub task_id: u64,
    /// Wake mask given at wait time; an all-ones mask matches any
    /// bitset-aware wake.
    pub bitset: u32,
}

impl FutexQ {
    /// Create a new wait-queue entry.
    pub fn new(key: FutexKey, task_id: u64, bitset: u32) -> (r: Self)
        ensures
            r == (FutexQ { key, task_id, bitset }),
    {
        Self { key, task_id, bitset }
    }

    /// Does this entry wait on `key`?
    pub fn match_key(&self, key: &FutexKey) -> (r: bool)
        ensures
            r == (self.key == *key),
    {
        self.key == *key
    }
}

/// Passive per-task record of the userspace robust list; stored for later
/// use, never walked by this subsystem.
#[derive(Clone, Copy, Debug, Default, PartialEq, Eq, Structural)]
pub struct FutexRobustList {
    /// Userspace address of the head of the robust list.
    pub head: usize,
    /// Declared length of the robust list.
    pub len: usize,
}

impl FutexRobustList {
    /// Record a robust-list head and length.
    pub fn new(head: usize, len: usize) -> (r: Self)
        ensures
            r == (FutexRobustList { head, len }),
    {
        Self { head, len }
    }
}

/// Caller-visible outcomes of the futex operations that do not succeed.
#[derive(Clone, Copy, Debug, PartialEq, Eq, Structural)]
pub enum FutexError {
    /// The futex word no longer held the expected value at wait time.
    WouldBlock,
    /// The deadline elapsed before any wake reached the waiter.
    TimedOut,
    /// A pending signal was observed while the waiter was still queued.
    Interrupted,
    /// The futex word's address could not be resolved to readable memory.
    Fault,
    /// A malformed argument, such as an empty wake mask.
    InvalidArgument,
}

/// Entries that survive cleanup of the exiting process `id`: those whose
/// key belongs to another process.
pub open spec fn pid_survives(id: u64) -> spec_fn(FutexQ) -> bool {
    |w: FutexQ| w.key.pid != id
}

/// Entries that survive cleanup of the exiting task `id`: those queued by
/// another task.
pub open spec fn task_survives(id: u64) -> spec_fn(FutexQ) -> bool {
    |w: FutexQ| w.task_id != id
}

proof fn lemma_filter_push(s: Seq<FutexQ>, p: spec_fn(FutexQ) -> bool, x: FutexQ)
    ensures
        s.push(x).filter(p) == (if p(x) {
            s.filter(p).push(x)
        } else {
            s.filter(p)
        }),
{
    reveal(Seq::filter);
    assert(s.push(x).drop_last() =~= s);
    assert(s.push(x).last() == x);
}

/// Cleanup safety: a queue cleaned for the exiting process `id` holds no
/// waiter keyed to that pid, while every waiter of another process
/// survives the cleanup; queues of unrelated keys are left exactly as the
/// filter describes, so concurrent wakes on them see the same entries.
pub proof fn lemma_cleanup_safety(s: Seq<FutexQ>, id: u64)
    ensures
        forall|i: int|
            0 <= i < s.filter(pid_survives(id)).len() ==> (#[trigger] s.filter(
                pid_survives(id),
            )[i]).key.pid != id,
        forall|i: int|
            0 <= i < s.len() && s[i].key.pid != id ==> s.filter(pid_survives(id)).contains(
                #[trigger] s[i],
            ),
{
    assert forall|i: int| 0 <= i < s.filter(pid_survives(id)).len() implies (#[trigger] s.filter(
        pid_survives(id),
    )[i]).key.pid != id by {
        s.lemma_filter_pred(pid_survives(id), i);
    }
    assert forall|i: int| 0 <= i < s.len() && s[i].key.pid != id implies s.filter(
        pid_survives(id),
    ).contains(#[trigger] s[i]) by {
        s.lemma_filter_contains(pid_survives(id), i);
    }
}

/// Remove from every queue the waiters that belong to an exiting task or
/// process: with `leader` set, every waiter whose key carries the pid `id`
/// (all threads of the exiting process, whose address space is gone);
/// otherwise only the waiters queued by the task `id`. All other waiters
/// stay, in their original order.
pub fn clear_wait(queues: &mut FutexQueues, id: u64, leader: bool)
    requires
        old(queues).wf(),
    ensures
        final(queues).wf(),
        final(queues)@.len() == old(queues)@.len(),
        leader ==> forall|b: int|
            0 <= b < old(queues)@.len() ==> #[trigger] final(queues)@[b] == old(
                queues,
            )@[b].filter(pid_survives(id)),
        !leader ==> forall|b: int|
            0 <= b < old(queues)@.len() ==> #[trigger] final(queues)@[b] == old(
                queues,
            )@[b].filter(task_survives(id)),
{
    let n_buckets = queues.buckets.len();
    if leader {
        let mut b: usize = 0;
        while b < n_buckets
            invariant
                b <= n_buckets,
                queues.buckets@.len() == n_buckets,
                n_buckets == old(queues).buckets@.len(),
                forall|j: int| 0 <= j < b ==> #[trigger] queues@[j] == old(queues)@[j].filter(
                    pid_survives(id),
                ),
                forall|j: int| b <= j < n_buckets ==> #[trigger] queues@[j] == old(queues)@[j],
            decreases n_buckets - b,
        {
            let ghost orig_b = queues.buckets@[b as int]@;
            let mut kept: Vec<FutexQ> = Vec::new();
            let bucket_len = queues.buckets[b].len();
            let mut i: usize = 0;
            while i < bucket_len
                invariant
                    i <= bucket_len,
                    b < n_buckets,
                    queues.buckets@.len() == n_buckets,
                    n_buckets == old(queues).buckets@.len(),
                    forall|j: int| 0 <= j < b ==> #[trigger] queues@[j] == old(queues)@[j].filter(
                        pid_survives(id),
                    ),
                    forall|j: int| b <= j < n_buckets ==> #[trigger] queues@[j] == old(queues)@[j],
                    bucket_len == orig_b.len(),
                    orig_b == queues.buckets@[b as int]@,
                    kept@ == orig_b.take(i as int).filter(pid_survives(id)),
                decreases bucket_len - i,
            {
                let w = queues.buckets[b][i];
                proof {
                    assert(orig_b.take(i as int).push(w) =~= orig_b.take(i + 1 as int));
                    lemma_filter_push(orig_b.take(i as int), pid_survives(id), w);
                }
                if w.key.pid != id {
                    kept.push(w);
                }
                i += 1;
            }
            proof {
                assert(orig_b.take(bucket_len as int) =~= orig_b);
            }
            let ghost pre_view = queues@;
            queues.buckets[b] = kept;
            proof {
                assert(queues@ =~= pre_view.update(b as int, orig_b.filter(pid_survives(id))));
                assert(pre_view[b as int] == orig_b);
                assert forall|j: int| 0 <= j < b + 1 implies #[trigger] queues@[j] == old(
                    queues,
                )@[j].filter(pid_survives(id)) by {
                    if j == b as int {
                        assert(queues@[j] == orig_b.filter(pid_survives(id)));
                        assert(pre_view[j] == old(queues)@[j]);
                    } else {
                        assert(queues@[j] == pre_view[j]);
                    }
                }
            }
            b += 1;
        }
    } else {
        let mut b: usize = 0;
        while b < n_buckets
            invariant
                b <= n_buckets,
                queues.buckets@.len() == n_buckets,
                n_buckets == old(queues).buckets@.len(),
                forall|j: int| 0 <= j < b ==> #[trigger] queues@[j] == old(queues)@[j].filter(
                    task_survives(id),
                ),
                forall|j: int| b <= j < n_buckets ==> #[trigger] queues@[j] == old(queues)@[j],
            decreases n_buckets - b,
        {
            let ghost orig_b = queues.buckets@[b as int]@;
            let mut kept: Vec<FutexQ> = Vec::new();
            let bucket_len = queues.buckets[b].len();
            let mut i: usize = 0;
            while i < bucket_len
                invariant
                    i <= bucket_len,
                    b < n_buckets,
                    queues.buckets@.len() == n_buckets,
                    n_buckets == old(queues).buckets@.len(),
                    forall|j: int| 0 <= j < b ==> #[trigger] queues@[j] == old(queues)@[j].filter(
                        task_survives(id),
                    ),
                    forall|j: int| b <= j < n_buckets ==> #[trigger] queues@[j] == old(queues)@[j],
                    bucket_len == orig_b.len(),
                    orig_b == queues.buckets@[b as int]@,
                    kept@ == orig_b.take(i as int).filter(task_survives(id)),
                decreases bucket_len - i,
            {
                let w = queues.buckets[b][i];
                proof {
                    assert(orig_b.take(i as int).push(w) =~= orig_b.take(i + 1 as int));
                    lemma_filter_push(orig_b.take(i as int), task_survives(id), w);
                }
                if w.task_id != id {
                    kept.push(w);
                }
                i += 1;
            }
            proof {
                assert(orig_b.take(bucket_len as int) =~= orig_b);
            }
            let ghost pre_view = queues@;
            queues.buckets[b] = kept;
            proof {
                assert(queues@ =~= pre_view.update(b as int, orig_b.filter(task_survives(id))));
                assert(pre_view[b as int] == orig_b);
                assert forall|j: int| 0 <= j < b + 1 implies #[trigger] queues@[j] == old(
                    queues,
                )@[j].filter(task_survives(id)) by {
                    if j == b as int {
                        assert(queues@[j] == orig_b.filter(task_survives(id)));
                        assert(pre_view[j] == old(queues)@[j]);
                    } else {
                        assert(queues@[j] == pre_view[j]);
                    }
                }
            }
            b += 1;
        }
    }
}

} // verus!
