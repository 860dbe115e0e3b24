//! The wait/wake/requeue engine over the wait-queue store.

use vstd::prelude::*;

use crate::queues::{futex_hash, futex_hash_of, get_futex_key, key_of, FutexQueues};
use crate::futex::{FutexError, FutexKey, FutexQ};

verus! {

/// Does a plain wake on `key` select this waiter?
pub open spec fn wake_pred(key: FutexKey) -> spec_fn(FutexQ) -> bool {
    |w: FutexQ| w.key == key
}

/// Waiters selected by a wake on `key` carrying the mask `bitset`.
pub open spec fn bitset_pred(key: FutexKey, bitset: u32) -> spec_fn(FutexQ) -> bool {
    |w: FutexQ| w.key == key && w.bitset & bitset != 0
}

/// Walk a queue from the front, selecting up to `n` entries that satisfy
/// `pred` and leaving the others in place: `.0` is the selected entries in
/// queue order, `.1` the queue that remains, in its original order.
pub open spec fn split_woken(s: Seq<FutexQ>, pred: spec_fn(FutexQ) -> bool, n: nat) -> (Seq<
    FutexQ,
>, Seq<FutexQ>)
    decreases s.len(),
{
    if s.len() == 0 || n == 0 {
        (Seq::empty(), s)
    } else if pred(s[0]) {
        let rest = split_woken(s.drop_first(), pred, (n - 1) as nat);
        (seq![s[0]] + rest.0, rest.1)
    } else {
        let rest = split_woken(s.drop_first(), pred, n);
        (rest.0, seq![s[0]] + rest.1)
    }
}

/// A selection never exceeds its budget, and selected and remaining
/// entries together account for the whole queue.
pub proof fn lemma_split_woken_len(s: Seq<FutexQ>, pred: spec_fn(FutexQ) -> bool, n: nat)
    ensures
        split_woken(s, pred, n).0.len() <= n,
        split_woken(s, pred, n).0.len() + split_woken(s, pred, n).1.len() == s.len(),
    decreases s.len(),
{
    if s.len() == 0 || n == 0 {
    } else if pred(s[0]) {
        lemma_split_woken_len(s.drop_first(), pred, (n - 1) as nat);
    } else {
        lemma_split_woken_len(s.drop_first(), pred, n);
    }
}

/// How a selection extends when one entry is appended at the tail: the new
/// entry is selected exactly when the budget is not yet exhausted and the
/// predicate holds of it.
pub proof fn lemma_split_woken_push(
    s: Seq<FutexQ>,
    pred: spec_fn(FutexQ) -> bool,
    n: nat,
    x: FutexQ,
)
    ensures
        split_woken(s, pred, n).0.len() < n && pred(x) ==> {
            &&& split_woken(s.push(x), pred, n).0 == split_woken(s, pred, n).0.push(x)
            &&& split_woken(s.push(x), pred, n).1 == split_woken(s, pred, n).1
        },
        !(split_woken(s, pred, n).0.len() < n && pred(x)) ==> {
            &&& split_woken(s.push(x), pred, n).0 == split_woken(s, pred, n).0
            &&& split_woken(s.push(x), pred, n).1 == split_woken(s, pred, n).1.push(x)
        },
    decreases s.len(),
{
    reveal_with_fuel(split_woken, 3);
    lemma_split_woken_len(s, pred, n);
    if s.len() == 0 {
        if n == 0 {
            assert(split_woken(s.push(x), pred, n).1 =~= s.push(x));
            assert(split_woken(s, pred, n).1.push(x) =~= s.push(x));
        } else {
            assert(s.push(x)[0] == x);
            assert(s.push(x).drop_first() =~= Seq::<FutexQ>::empty());
            if pred(x) {
                assert(split_woken(s.push(x), pred, n).0 =~= seq![x]);
                assert(split_woken(s, pred, n).0.push(x) =~= seq![x]);
            } else {
                assert(split_woken(s.push(x), pred, n).1 =~= seq![x]);
                assert(split_woken(s, pred, n).1.push(x) =~= seq![x]);
            }
        }
    } else if n == 0 {
        assert(split_woken(s.push(x), pred, n).1 =~= s.push(x));
    } else {
        assert(s.push(x)[0] == s[0]);
        assert(s.push(x).drop_first() =~= s.drop_first().push(x));
        if pred(s[0]) {
            lemma_split_woken_push(s.drop_first(), pred, (n - 1) as nat, x);
            lemma_split_woken_len(s.drop_first(), pred, (n - 1) as nat);
            if split_woken(s.drop_first(), pred, (n - 1) as nat).0.len() < (n - 1) as nat
                && pred(x) {
                assert(split_woken(s.push(x), pred, n).0 =~= split_woken(s, pred, n).0.push(x));
            } else {
                assert(split_woken(s.push(x), pred, n).0 =~= split_woken(s, pred, n).0);
            }
        } else {
            lemma_split_woken_push(s.drop_first(), pred, n, x);
            if split_woken(s.drop_first(), pred, n).0.len() < n && pred(x) {
                assert(split_woken(s.push(x), pred, n).1 =~= split_woken(s, pred, n).1);
            } else {
                assert(split_woken(s.push(x), pred, n).1 =~= split_woken(s, pred, n).1.push(x));
            }
        }
    }
}

/// Task ids of the selected waiters, in wake order.
pub open spec fn task_ids_of(s: Seq<FutexQ>) -> Seq<u64> {
    s.map_values(|w: FutexQ| w.task_id)
}

/// The entries a predicate rejects.
pub open spec fn pred_complement(pred: spec_fn(FutexQ) -> bool) -> spec_fn(FutexQ) -> bool {
    |w: FutexQ| !pred(w)
}

/// Every selected entry satisfies the selecting predicate.
pub proof fn lemma_split_woken_sound(s: Seq<FutexQ>, pred: spec_fn(FutexQ) -> bool, n: nat)
    ensures
        forall|i: int|
            0 <= i < split_woken(s, pred, n).0.len() ==> pred(
                #[trigger] split_woken(s, pred, n).0[i],
            ),
    decreases s.len(),
{
    if s.len() == 0 || n == 0 {
    } else if pred(s[0]) {
        lemma_split_woken_sound(s.drop_first(), pred, (n - 1) as nat);
        let rest = split_woken(s.drop_first(), pred, (n - 1) as nat).0;
        let cur = split_woken(s, pred, n).0;
        assert forall|i: int| 0 <= i < cur.len() implies pred(cur[i]) by {
            if i == 0 {
                assert(cur[0] == s[0]);
            } else {
                assert(cur[i] == rest[i - 1]);
            }
        }
    } else {
        lemma_split_woken_sound(s.drop_first(), pred, n);
        let rest = split_woken(s.drop_first(), pred, n).0;
        let cur = split_woken(s, pred, n).0;
        assert forall|i: int| 0 <= i < cur.len() implies pred(cur[i]) by {
            assert(cur[i] == rest[i]);
        }
    }
}

/// With budget at least the number of matching entries, a selection takes
/// exactly the matching entries, in order, and leaves exactly the others,
/// in order.
pub proof fn lemma_split_woken_ample(s: Seq<FutexQ>, pred: spec_fn(FutexQ) -> bool, n: nat)
    requires
        n >= s.filter(pred).len(),
    ensures
        split_woken(s, pred, n).0 == s.filter(pred),
        split_woken(s, pred, n).1 == s.filter(pred_complement(pred)),
    decreases s.len(),
{
    reveal_with_fuel(Seq::filter, 3);
    if s.len() == 0 {
    } else {
        let head = seq![s[0]];
        let tail = s.drop_first();
        assert(s =~= head + tail);
        Seq::filter_distributes_over_add(head, tail, pred);
        Seq::filter_distributes_over_add(head, tail, pred_complement(pred));
        assert(head.drop_last() =~= Seq::<FutexQ>::empty());
        assert(head.filter(pred) == if pred(s[0]) {
            seq![s[0]]
        } else {
            Seq::<FutexQ>::empty()
        });
        assert(head.filter(pred_complement(pred)) == if pred(s[0]) {
            Seq::<FutexQ>::empty()
        } else {
            seq![s[0]]
        });
        if pred(s[0]) {
            lemma_split_woken_ample(tail, pred, (n - 1) as nat);
            assert(split_woken(s, pred, n).0 =~= s.filter(pred));
            assert(split_woken(s, pred, n).1 =~= s.filter(pred_complement(pred)));
        } else {
            lemma_split_woken_ample(tail, pred, n);
            assert(split_woken(s, pred, n).0 =~= s.filter(pred));
            assert(split_woken(s, pred, n).1 =~= s.filter(pred_complement(pred)));
        }
    }
}

/// FIFO fairness: when every entry of a queue waits on `key`, a wake with
/// budget `k` selects exactly the first `k` entries (the whole queue if it
/// is shorter), in their queue order, and leaves the rest in order.
pub proof fn lemma_fifo_fairness(s: Seq<FutexQ>, key: FutexKey, k: nat)
    requires
        forall|i: int| 0 <= i < s.len() ==> (#[trigger] s[i]).key == key,
    ensures
        k <= s.len() ==> split_woken(s, wake_pred(key), k).0 == s.take(k as int) && split_woken(
            s,
            wake_pred(key),
            k,
        ).1 == s.skip(k as int),
        k > s.len() ==> split_woken(s, wake_pred(key), k).0 == s && split_woken(
            s,
            wake_pred(key),
            k,
        ).1 == Seq::<FutexQ>::empty(),
    decreases s.len(),
{
    let pred = wake_pred(key);
    if s.len() == 0 {
        if k <= s.len() {
            assert(s.take(k as int) =~= Seq::<FutexQ>::empty());
            assert(s.skip(k as int) =~= s);
        }
    } else if k == 0 {
        assert(s.take(0) =~= Seq::<FutexQ>::empty());
        assert(s.skip(0) =~= s);
    } else {
        let tail = s.drop_first();
        assert(forall|i: int| 0 <= i < tail.len() ==> (#[trigger] tail[i]).key == key);
        lemma_fifo_fairness(tail, key, (k - 1) as nat);
        if k <= s.len() {
            assert(s.take(k as int) =~= seq![s[0]] + tail.take(k - 1));
            assert(s.skip(k as int) =~= tail.skip(k - 1));
            assert(split_woken(s, pred, k).0 =~= s.take(k as int));
            assert(split_woken(s, pred, k).1 =~= s.skip(k as int));
        } else {
            assert(split_woken(s, pred, k).0 =~= s);
        }
    }
}

/// Bitset selectivity: a bitset wake with mask `mask` only ever wakes
/// waiters whose bitset intersects `mask`; and when its budget covers all
/// intersecting waiters of the key, it wakes exactly those, in FIFO order,
/// while every waiter whose bitset misses `mask` stays queued, in order.
pub proof fn lemma_bitset_selectivity(s: Seq<FutexQ>, key: FutexKey, mask: u32, n: nat)
    requires
        forall|i: int| 0 <= i < s.len() ==> (#[trigger] s[i]).key == key,
    ensures
        forall|i: int|
            0 <= i < split_woken(s, bitset_pred(key, mask), n).0.len() ==> (#[trigger] split_woken(
                s,
                bitset_pred(key, mask),
                n,
            ).0[i]).bitset & mask != 0,
        n >= s.filter(bitset_pred(key, mask)).len() ==> {
            &&& split_woken(s, bitset_pred(key, mask), n).0 == s.filter(bitset_pred(key, mask))
            &&& split_woken(s, bitset_pred(key, mask), n).1 == s.filter(
                pred_complement(bitset_pred(key, mask)),
            )
        },
{
    lemma_split_woken_sound(s, bitset_pred(key, mask), n);
    if n >= s.filter(bitset_pred(key, mask)).len() {
        lemma_split_woken_ample(s, bitset_pred(key, mask), n);
    }
}

/// No lost wakeup: once a waiter is fully enqueued, a wake on its key with
/// budget to spare selects it, and the queue that remains holds no entry
/// of that task, so the resumed waiter finds itself absent and reports
/// success rather than looping or timing out.
pub proof fn lemma_no_lost_wakeup(
    s: Seq<FutexQ>,
    key: FutexKey,
    task_id: u64,
    bitset: u32,
    n: nat,
)
    requires
        !has_waiter(s, key, task_id),
        n > s.filter(wake_pred(key)).len(),
    ensures
        ({
            let w = FutexQ { key, task_id, bitset };
            let split = split_woken(s.push(w), wake_pred(key), n);
            &&& split.0.contains(w)
            &&& !has_waiter(split.1, key, task_id)
        }),
{
    let w = FutexQ { key, task_id, bitset };
    let pred = wake_pred(key);
    lemma_split_woken_ample(s, pred, n);
    lemma_split_woken_push(s, pred, n, w);
    let split = split_woken(s.push(w), pred, n);
    assert(split.0 == s.filter(pred).push(w));
    assert(split.0[split.0.len() - 1] == w);
    assert(split.0.contains(w));
    assert(split.1 == s.filter(pred_complement(pred)));
    assert forall|i: int| 0 <= i < split.1.len() implies !((#[trigger] split.1[i]).key == key
        && split.1[i].task_id == task_id) by {
        s.lemma_filter_pred(pred_complement(pred), i);
    }
}

/// Requeue conservation: run against a queue of `N` waiters all on one
/// key, a requeue with wake budget `w` and requeue budget `r` wakes the
/// first `min(w, N)` waiters, moves the next `min(r, N - min(w, N))` in
/// their original order, and leaves exactly the remaining
/// `N - woken - moved` behind, still in order.
pub proof fn lemma_requeue_conservation(s: Seq<FutexQ>, key: FutexKey, w: nat, r: nat)
    requires
        forall|i: int| 0 <= i < s.len() ==> (#[trigger] s[i]).key == key,
    ensures
        ({
            let wsplit = split_woken(s, wake_pred(key), w);
            let msplit = split_woken(wsplit.1, wake_pred(key), r);
            let nw = if w <= s.len() {
                w as int
            } else {
                s.len() as int
            };
            let nm = if r <= s.len() - nw {
                r as int
            } else {
                s.len() - nw
            };
            &&& wsplit.0 == s.take(nw)
            &&& wsplit.0.len() == nw
            &&& msplit.0 == s.skip(nw).take(nm)
            &&& msplit.0.len() == nm
            &&& msplit.1 == s.skip(nw + nm)
            &&& msplit.1.len() == s.len() - nw - nm
        }),
{
    let pred = wake_pred(key);
    let nw: int = if w <= s.len() {
        w as int
    } else {
        s.len() as int
    };
    let nm: int = if r <= s.len() - nw {
        r as int
    } else {
        s.len() - nw
    };
    lemma_fifo_fairness(s, key, w);
    if w > s.len() {
        assert(s.take(nw) =~= s);
    }
    let rem = s.skip(nw);
    assert(forall|i: int| 0 <= i < rem.len() ==> (#[trigger] rem[i]).key == key);
    assert(split_woken(s, pred, w).1 == rem);
    lemma_fifo_fairness(rem, key, r);
    if r > rem.len() {
        assert(rem.take(nm) =~= rem);
        assert(split_woken(rem, pred, r).1 =~= rem.skip(nm));
    }
    assert(rem.skip(nm) =~= s.skip(nw + nm));
}

/// Wake up to `nr_waken` waiters queued on the futex at `vaddr` in process
/// `pid`: the first matching waiters of its bucket leave the queue in FIFO
/// order, every other entry stays in place and in order, and the ids of
/// the tasks to notify are returned in wake order. A key with no waiters
/// yields an empty result; that is not an error.
pub fn futex_wake(
    queues: &mut FutexQueues,
    vaddr: usize,
    flags: i32,
    pid: u64,
    nr_waken: u32,
) -> (woken: Vec<u64>)
    requires
        old(queues).wf(),
    ensures
        final(queues).wf(),
        ({
            let key = key_of(vaddr, pid);
            let b = futex_hash_of(key);
            let split = split_woken(old(queues)@[b], wake_pred(key), nr_waken as nat);
            &&& woken@ == task_ids_of(split.0)
            &&& final(queues)@ == old(queues)@.update(b, split.1)
        }),
{
    let key = get_futex_key(vaddr, flags, pid);
    let b_idx = futex_hash(&key);
    let ghost pred = wake_pred(key);
    let ghost orig = queues.buckets@[b_idx as int]@;
    let mut woken: Vec<u64> = Vec::new();
    let mut remaining: Vec<FutexQ> = Vec::new();
    let bucket_len = queues.buckets[b_idx].len();
    let mut i: usize = 0;
    while i < bucket_len
        invariant
            i <= bucket_len,
            queues == old(queues),
            queues.wf(),
            b_idx < queues.buckets@.len(),
            bucket_len == orig.len(),
            orig == queues.buckets@[b_idx as int]@,
            pred == wake_pred(key),
            woken@ == task_ids_of(split_woken(orig.take(i as int), pred, nr_waken as nat).0),
            woken@.len() <= nr_waken,
            remaining@ == split_woken(orig.take(i as int), pred, nr_waken as nat).1,
        decreases bucket_len - i,
    {
        let w = queues.buckets[b_idx][i];
        proof {
            assert(orig.take(i as int).push(w) =~= orig.take(i + 1 as int));
            lemma_split_woken_push(orig.take(i as int), pred, nr_waken as nat, w);
        }
        if (woken.len() as u32) < nr_waken && w.match_key(&key) {
            woken.push(w.task_id);
        } else {
            remaining.push(w);
        }
        i += 1;
    }
    proof {
        assert(orig.take(bucket_len as int) =~= orig);
    }
    queues.buckets[b_idx] = remaining;
    proof {
        assert(queues@ =~= old(queues)@.update(
            b_idx as int,
            split_woken(orig, pred, nr_waken as nat).1,
        ));
    }
    woken
}

/// As [`futex_wake`], but a waiter qualifies only if its registered bitset
/// intersects `bitset`; non-matching waiters stay queued in place. An empty
/// mask is a caller error, rejected before any queue is touched.
pub fn futex_wake_bitset(
    queues: &mut FutexQueues,
    vaddr: usize,
    flags: i32,
    pid: u64,
    nr_waken: u32,
    bitset: u32,
) -> (r: Result<Vec<u64>, FutexError>)
    requires
        old(queues).wf(),
    ensures
        final(queues).wf(),
        bitset == 0 ==> r == Err::<Vec<u64>, FutexError>(FutexError::InvalidArgument)
            && final(queues)@ == old(queues)@,
        bitset != 0 ==> ({
            let key = key_of(vaddr, pid);
            let b = futex_hash_of(key);
            let split = split_woken(old(queues)@[b], bitset_pred(key, bitset), nr_waken as nat);
            &&& r is Ok
            &&& r->Ok_0@ == task_ids_of(split.0)
            &&& final(queues)@ == old(queues)@.update(b, split.1)
        }),
{
    if bitset == 0 {
        return Err(FutexError::InvalidArgument);
    }
    let key = get_futex_key(vaddr, flags, pid);
    let b_idx = futex_hash(&key);
    let ghost pred = bitset_pred(key, bitset);
    let ghost orig = queues.buckets@[b_idx as int]@;
    let mut woken: Vec<u64> = Vec::new();
    let mut remaining: Vec<FutexQ> = Vec::new();
    let bucket_len = queues.buckets[b_idx].len();
    let mut i: usize = 0;
    while i < bucket_len
        invariant
            i <= bucket_len,
            queues == old(queues),
            queues.wf(),
            b_idx < queues.buckets@.len(),
            bucket_len == orig.len(),
            orig == queues.buckets@[b_idx as int]@,
            pred == bitset_pred(key, bitset),
            woken@ == task_ids_of(split_woken(orig.take(i as int), pred, nr_waken as nat).0),
            woken@.len() <= nr_waken,
            remaining@ == split_woken(orig.take(i as int), pred, nr_waken as nat).1,
        decreases bucket_len - i,
    {
        let w = queues.buckets[b_idx][i];
        proof {
            assert(orig.take(i as int).push(w) =~= orig.take(i + 1 as int));
            lemma_split_woken_push(orig.take(i as int), pred, nr_waken as nat, w);
        }
        if (woken.len() as u32) < nr_waken && w.bitset & bitset != 0 && w.match_key(&key) {
            woken.push(w.task_id);
        } else {
            remaining.push(w);
        }
        i += 1;
    }
    proof {
        assert(orig.take(bucket_len as int) =~= orig);
    }
    queues.buckets[b_idx] = remaining;
    proof {
        assert(queues@ =~= old(queues)@.update(
            b_idx as int,
            split_woken(orig, pred, nr_waken as nat).1,
        ));
    }
    Ok(woken)
}

/// A requeued waiter, reentered under the destination key with its task
/// and bitset kept.
pub open spec fn rekeyed(key: FutexKey) -> spec_fn(FutexQ) -> FutexQ {
    |w: FutexQ| (FutexQ { key, task_id: w.task_id, bitset: w.bitset })
}

/// Wake up to `nr_waken` waiters of the futex at `vaddr` and move up to
/// `nr_requeue` of its remaining waiters to the queue of the futex at
/// `vaddr2`, appended at its tail in their original order and reentered
/// under the destination key. Waiters of other keys sharing either bucket
/// stay in place. Returns the ids of the tasks to notify, in wake order;
/// the count woken, not the count requeued, is the operation's result.
/// When both addresses name the same futex the operation degenerates to a
/// plain [`futex_wake`].
pub fn futex_requeue(
    queues: &mut FutexQueues,
    vaddr: usize,
    flags: i32,
    pid: u64,
    nr_waken: u32,
    vaddr2: usize,
    nr_requeue: u32,
) -> (woken: Vec<u64>)
    requires
        old(queues).wf(),
    ensures
        final(queues).wf(),
        ({
            let key = key_of(vaddr, pid);
            let req_key = key_of(vaddr2, pid);
            let b1 = futex_hash_of(key);
            let b2 = futex_hash_of(req_key);
            let wsplit = split_woken(old(queues)@[b1], wake_pred(key), nr_waken as nat);
            let msplit = split_woken(wsplit.1, wake_pred(key), nr_requeue as nat);
            let moved = msplit.0.map_values(rekeyed(req_key));
            &&& woken@ == task_ids_of(wsplit.0)
            &&& key == req_key ==> final(queues)@ == old(queues)@.update(b1, wsplit.1)
            &&& key != req_key && b1 != b2 ==> final(queues)@ == old(queues)@.update(
                b1,
                msplit.1,
            ).update(b2, old(queues)@[b2] + moved)
            &&& key != req_key && b1 == b2 ==> final(queues)@ == old(queues)@.update(
                b1,
                msplit.1 + moved,
            )
        }),
{
    let key = get_futex_key(vaddr, flags, pid);
    let req_key = get_futex_key(vaddr2, flags, pid);
    if key == req_key {
        return futex_wake(queues, vaddr, flags, pid, nr_waken);
    }
    let b1_idx = futex_hash(&key);
    let b2_idx = futex_hash(&req_key);
    let ghost pred = wake_pred(key);
    let ghost orig = queues.buckets@[b1_idx as int]@;
    let mut woken: Vec<u64> = Vec::new();
    let mut moved: Vec<FutexQ> = Vec::new();
    let mut stay: Vec<FutexQ> = Vec::new();
    let bucket_len = queues.buckets[b1_idx].len();
    let mut i: usize = 0;
    while i < bucket_len
        invariant
            i <= bucket_len,
            queues == old(queues),
            queues.wf(),
            b1_idx < queues.buckets@.len(),
            bucket_len == orig.len(),
            orig == queues.buckets@[b1_idx as int]@,
            pred == wake_pred(key),
            woken@ == task_ids_of(split_woken(orig.take(i as int), pred, nr_waken as nat).0),
            woken@.len() <= nr_waken,
            moved@ == split_woken(
                split_woken(orig.take(i as int), pred, nr_waken as nat).1,
                pred,
                nr_requeue as nat,
            ).0.map_values(rekeyed(req_key)),
            moved@.len() <= nr_requeue,
            stay@ == split_woken(
                split_woken(orig.take(i as int), pred, nr_waken as nat).1,
                pred,
                nr_requeue as nat,
            ).1,
        decreases bucket_len - i,
    {
        let w = queues.buckets[b1_idx][i];
        proof {
            assert(orig.take(i as int).push(w) =~= orig.take(i + 1 as int));
            let pre = orig.take(i as int);
            let rem = split_woken(pre, pred, nr_waken as nat).1;
            lemma_split_woken_push(pre, pred, nr_waken as nat, w);
            lemma_split_woken_push(rem, pred, nr_requeue as nat, w);
            assert(rem.push(w).map_values(rekeyed(req_key)) =~= rem.map_values(
                rekeyed(req_key),
            ).push(rekeyed(req_key)(w)));
            assert(split_woken(pre, pred, nr_waken as nat).0.push(w).map_values(rekeyed(req_key))
                =~= split_woken(pre, pred, nr_waken as nat).0.map_values(rekeyed(req_key)).push(
                rekeyed(req_key)(w),
            ));
            assert(split_woken(
                split_woken(pre, pred, nr_waken as nat).1,
                pred,
                nr_requeue as nat,
            ).0.push(w).map_values(rekeyed(req_key)) =~= split_woken(
                split_woken(pre, pred, nr_waken as nat).1,
                pred,
                nr_requeue as nat,
            ).0.map_values(rekeyed(req_key)).push(rekeyed(req_key)(w)));
        }
        if (woken.len() as u32) < nr_waken && w.match_key(&key) {
            woken.push(w.task_id);
        } else if (moved.len() as u32) < nr_requeue && w.match_key(&key) {
            moved.push(FutexQ::new(req_key, w.task_id, w.bitset));
        } else {
            stay.push(w);
        }
        i += 1;
    }
    proof {
        assert(orig.take(bucket_len as int) =~= orig);
    }
    queues.buckets[b1_idx] = stay;
    let ghost mid = queues@;
    queues.buckets[b2_idx].append(&mut moved);
    proof {
        let wsplit = split_woken(orig, pred, nr_waken as nat);
        let msplit = split_woken(wsplit.1, pred, nr_requeue as nat);
        let moved_spec = msplit.0.map_values(rekeyed(req_key));
        assert(mid =~= old(queues)@.update(b1_idx as int, msplit.1));
        if b1_idx == b2_idx {
            assert(queues@ =~= old(queues)@.update(b1_idx as int, msplit.1 + moved_spec));
        } else {
            assert(queues@ =~= old(queues)@.update(b1_idx as int, msplit.1).update(
                b2_idx as int,
                old(queues)@[b2_idx as int] + moved_spec,
            ));
        }
    }
    woken
}

/// Does some entry of `s` belong to the task `task_id` waiting on `key`?
pub open spec fn has_waiter(s: Seq<FutexQ>, key: FutexKey, task_id: u64) -> bool {
    exists|i: int| 0 <= i < s.len() && s[i].key == key && s[i].task_id == task_id
}

/// Position of the first entry of `s` belonging to `task_id` on `key`
/// (meaningful only when one exists).
pub open spec fn first_waiter_idx(s: Seq<FutexQ>, key: FutexKey, task_id: u64) -> int
    decreases s.len(),
{
    if s.len() == 0 {
        0
    } else if s[0].key == key && s[0].task_id == task_id {
        0
    } else {
        1 + first_waiter_idx(s.drop_first(), key, task_id)
    }
}

proof fn lemma_first_waiter_idx_at(s: Seq<FutexQ>, key: FutexKey, task_id: u64, i: int)
    requires
        0 <= i < s.len(),
        forall|j: int| 0 <= j < i ==> !(s[j].key == key && s[j].task_id == task_id),
        s[i].key == key && s[i].task_id == task_id,
    ensures
        first_waiter_idx(s, key, task_id) == i,
    decreases i,
{
    if i > 0 {
        lemma_first_waiter_idx_at(s.drop_first(), key, task_id, i - 1);
    }
}

/// The first step of one `futex_wait` round, run after the live value of
/// the futex word has been read: if the word no longer holds the expected
/// value the wait fails with `WouldBlock` and nothing changes; otherwise a
/// waiter for the calling task is appended at the tail of its key's queue,
/// and the caller must then suspend the task before looking again.
pub fn futex_wait_enqueue(
    queues: &mut FutexQueues,
    vaddr: usize,
    flags: i32,
    pid: u64,
    task_id: u64,
    expected_val: u32,
    real_futex_val: u32,
    bitset: u32,
) -> (r: Result<(), FutexError>)
    requires
        old(queues).wf(),
    ensures
        final(queues).wf(),
        real_futex_val != expected_val ==> r == Err::<(), FutexError>(FutexError::WouldBlock)
            && final(queues)@ == old(queues)@,
        real_futex_val == expected_val ==> ({
            let key = key_of(vaddr, pid);
            let b = futex_hash_of(key);
            &&& r == Ok::<(), FutexError>(())
            &&& final(queues)@ == old(queues)@.update(
                b,
                old(queues)@[b].push((FutexQ { key, task_id, bitset })),
            )
        }),
{
    let key = get_futex_key(vaddr, flags, pid);
    if expected_val != real_futex_val {
        return Err(FutexError::WouldBlock);
    }
    let b_idx = futex_hash(&key);
    let cur_futexq = FutexQ::new(key, task_id, bitset);
    queues.buckets[b_idx].push(cur_futexq);
    proof {
        assert(queues@ =~= old(queues)@.update(
            b_idx as int,
            old(queues)@[b_idx as int].push(cur_futexq),
        ));
    }
    Ok(())
}

/// What a resumed waiter finds, and what the wait loop does next.
#[derive(Clone, Copy, Debug, PartialEq, Eq, Structural)]
pub enum WaitResume {
    /// The waiter entry was gone: some waker removed and notified this
    /// task, so the wait succeeded, whatever else happened meanwhile.
    Woken,
    /// Still queued and the deadline had elapsed: the entry was removed
    /// and the wait fails with a timeout.
    TimedOut,
    /// Still queued with a pending signal: the entry was removed and the
    /// wait fails as interrupted.
    Interrupted,
    /// Still queued with no deadline expiry and no signal: a spurious
    /// resume. The entry was removed and the caller must start the wait
    /// round over, re-reading the futex word.
    Retry,
}

/// The second step of one `futex_wait` round, run after the task resumed
/// from suspension: if the task's waiter entry is gone, a waker already
/// claimed it and the wait succeeded; if it is still present, nobody woke
/// the task, so the entry is removed and the outcome is a timeout, an
/// interruption, or a retry of the whole round, in that order of
/// precedence.
pub fn futex_wait_resume(
    queues: &mut FutexQueues,
    vaddr: usize,
    flags: i32,
    pid: u64,
    task_id: u64,
    is_timeout: bool,
    have_signals: bool,
) -> (r: WaitResume)
    requires
        old(queues).wf(),
    ensures
        final(queues).wf(),
        ({
            let key = key_of(vaddr, pid);
            let b = futex_hash_of(key);
            let s = old(queues)@[b];
            &&& !has_waiter(s, key, task_id) ==> r == WaitResume::Woken && final(queues)@ == old(
                queues,
            )@
            &&& has_waiter(s, key, task_id) ==> {
                &&& final(queues)@ == old(queues)@.update(
                    b,
                    s.remove(first_waiter_idx(s, key, task_id)),
                )
                &&& r == (if is_timeout {
                    WaitResume::TimedOut
                } else if have_signals {
                    WaitResume::Interrupted
                } else {
                    WaitResume::Retry
                })
            }
        }),
{
    let key = get_futex_key(vaddr, flags, pid);
    let b_idx = futex_hash(&key);
    let ghost orig = queues.buckets@[b_idx as int]@;
    let bucket_len = queues.buckets[b_idx].len();
    let mut i: usize = 0;
    while i < bucket_len
        invariant
            i <= bucket_len,
            queues == old(queues),
            queues.wf(),
            b_idx < queues.buckets@.len(),
            key == key_of(vaddr, pid),
            b_idx as int == futex_hash_of(key),
            bucket_len == orig.len(),
            orig == queues.buckets@[b_idx as int]@,
            forall|j: int| 0 <= j < i ==> !(orig[j].key == key && orig[j].task_id == task_id),
        decreases bucket_len - i,
    {
        let w = queues.buckets[b_idx][i];
        if w.match_key(&key) && w.task_id == task_id {
            proof {
                assert(has_waiter(orig, key, task_id)) by {
                    assert(orig[i as int].key == key && orig[i as int].task_id == task_id);
                }
                lemma_first_waiter_idx_at(orig, key, task_id, i as int);
            }
            queues.buckets[b_idx].remove(i);
            proof {
                assert(queues@ =~= old(queues)@.update(b_idx as int, orig.remove(i as int)));
            }
            if is_timeout {
                return WaitResume::TimedOut;
            }
            if have_signals {
                return WaitResume::Interrupted;
            }
            return WaitResume::Retry;
        }
        i += 1;
    }
    WaitResume::Woken
}

} // verus!
