//! The wait-queue store (fixed hash buckets), bucket selection by a
//! Jenkins-style hash of the key, and key derivation from a raw address.

use vstd::prelude::*;

use crate::flags::FLAGS_SHARED;
use crate::futex::{FutexKey, FutexQ};

verus! {

/// Number of hash buckets; must be a power of two so that masking with
/// `FUTEX_HASH_SIZE - 1` replaces the modulo in bucket selection.
pub const FUTEX_HASH_SIZE: usize = 256;

/// Size in bytes of the pages that key derivation aligns to.
pub const PAGE_SIZE: usize = 4096;

/// What `jhash::jhash2` returns for a word slice and an initial value: a
/// pure function of the two arguments, fixed across calls and machines.
pub uninterp spec fn jhash2_of(words: Seq<u32>, initval: u32) -> u32;

/// Relies on `jhash::jhash2`: the Jenkins hash of a `u32` slice seeded with
/// `initval`, computed from those arguments alone.
#[verifier::external_body]
fn jhash2_words(words: &[u32], initval: u32) -> (r: u32)
    ensures
        r == jhash2_of(words@, initval),
{
    jhash::jhash2(words, initval)
}

/// The three key fields as the word sequence fed to the hash.
pub open spec fn key_words(key: FutexKey) -> Seq<u32> {
    seq![key.pid as u32, key.aligned as u32, key.offset]
}

/// Bucket index of a key: its Jenkins hash, seeded with the page offset,
/// reduced to the bucket range.
pub open spec fn futex_hash_of(key: FutexKey) -> int {
    (jhash2_of(key_words(key), key.offset) as int) % (FUTEX_HASH_SIZE as int)
}

/// Map a futex key to the index of the bucket whose queue holds its
/// waiters. Equal keys always land in the same bucket.
pub fn futex_hash(futex_key: &FutexKey) -> (index: usize)
    ensures
        index == futex_hash_of(*futex_key),
        index < FUTEX_HASH_SIZE,
{
    let key: [u32; 3] = [futex_key.pid as u32, futex_key.aligned as u32, futex_key.offset];
    let hash = jhash2_words(&key, key[2]);
    let index = (hash as usize) & (FUTEX_HASH_SIZE - 1);
    proof {
        assert(key@ =~= key_words(*futex_key));
        assert((hash as usize) & 255usize == (hash as usize) % 256usize) by (bit_vector);
    }
    index
}

/// The key under which an address is entered, for the process `pid`:
/// the page-aligned base and the in-page offset of the futex word.
pub open spec fn key_of(uaddr: usize, pid: u64) -> FutexKey {
    FutexKey {
        pid,
        aligned: (uaddr - (uaddr % PAGE_SIZE)) as usize,
        offset: (uaddr % PAGE_SIZE) as u32,
    }
}

/// Derive the canonical key of the futex word at `uaddr` for process `pid`.
///
/// The shared flag does not change the derivation yet: a cross-process
/// shared key would need a backing-object identity that is not available,
/// so process-private keying is used for both branches.
pub fn get_futex_key(uaddr: usize, flags: i32, pid: u64) -> (key: FutexKey)
    ensures
        key == key_of(uaddr, pid),
{
    if flags & FLAGS_SHARED != 0 {
        let aligned = uaddr - (uaddr % PAGE_SIZE);
        let offset = (uaddr % PAGE_SIZE) as u32;
        FutexKey::new(pid, aligned, offset)
    } else {
        let aligned = uaddr - (uaddr % PAGE_SIZE);
        let offset = (uaddr % PAGE_SIZE) as u32;
        FutexKey::new(pid, aligned, offset)
    }
}

/// Key equality: any two addresses that fall on the same page at the same
/// in-page offset, in the same process, derive the same futex key, so the
/// whole subsystem treats them as the same futex.
pub proof fn lemma_key_equality(a1: usize, a2: usize, pid: u64)
    requires
        a1 / PAGE_SIZE == a2 / PAGE_SIZE,
        a1 % PAGE_SIZE == a2 % PAGE_SIZE,
    ensures
        key_of(a1, pid) == key_of(a2, pid),
{
    vstd::arithmetic::div_mod::lemma_fundamental_div_mod(a1 as int, PAGE_SIZE as int);
    vstd::arithmetic::div_mod::lemma_fundamental_div_mod(a2 as int, PAGE_SIZE as int);
}

/// The wait-queue store: a fixed array of hash buckets, each an ordered
/// queue of waiters in FIFO order. A bucket may mix waiters of several
/// keys; every access filters by exact key equality.
pub struct FutexQueues {
    /// The buckets; index = hash of the waiter's key.
    pub buckets: Vec<Vec<FutexQ>>,
}

impl View for FutexQueues {
    type V = Seq<Seq<FutexQ>>;

    open spec fn view(&self) -> Seq<Seq<FutexQ>> {
        self.buckets@.map_values(|bucket: Vec<FutexQ>| bucket@)
    }
}

impl FutexQueues {
    /// The store is well formed when it holds exactly one bucket per hash
    /// value.
    pub open spec fn wf(&self) -> bool {
        self.buckets@.len() == FUTEX_HASH_SIZE
    }

    /// Create a store of `size` empty buckets; `size` must match the range
    /// of the bucket hash.
    pub fn new(size: usize) -> (r: Self)
        requires
            size == FUTEX_HASH_SIZE,
        ensures
            r.wf(),
            r@.len() == FUTEX_HASH_SIZE,
            forall|b: int| 0 <= b < FUTEX_HASH_SIZE ==> r@[b] == Seq::<FutexQ>::empty(),
    {
        let mut buckets: Vec<Vec<FutexQ>> = Vec::new();
        let mut i: usize = 0;
        while i < size
            invariant
                i <= size,
                buckets@.len() == i,
                forall|b: int| 0 <= b < i ==> buckets@[b]@ == Seq::<FutexQ>::empty(),
            decreases size - i,
        {
            buckets.push(Vec::new());
            i += 1;
        }
        FutexQueues { buckets }
    }
}

} // verus!
