//! A table from hashes of four-byte patterns to the position where the pattern was
//! last seen.

use vstd::prelude::*;
use crate::decompress::tag::{le_u32, le_value};

verus! {

/// How many buckets every table has.
pub const NUM_BUCKETS: usize = 16 * 1024;

/// Where each four-byte pattern was last seen, by bucket.
pub struct HashTable {
    buckets: Vec<u16>,
}

/// A bucket of a `HashTable`.
#[derive(Debug, Clone, Copy)]
pub struct Hash {
    bucket_index: usize,
}

/// The bucket of the pattern whose little-endian value is `pattern`: the pattern
/// multiplied by 0x1e35a7bd modulo 2^32, then reduced to the number of buckets.
pub open spec fn spec_bucket(pattern: nat) -> nat {
    ((pattern * 0x1e35_a7bd) % 0x1_0000_0000) % (NUM_BUCKETS as nat)
}

impl Hash {
    #[verifier::type_invariant]
    spec fn in_range(self) -> bool {
        self.bucket_index < NUM_BUCKETS
    }

    /// The index of the bucket.
    pub closed spec fn index(self) -> nat {
        self.bucket_index as nat
    }
}

impl HashTable {
    /// A table has `NUM_BUCKETS` buckets.
    pub open spec fn wf(&self) -> bool {
        self.view().len() == NUM_BUCKETS
    }

    /// The position stored in each bucket.
    pub closed spec fn view(&self) -> Seq<u16> {
        self.buckets@
    }

    /// A table whose buckets all hold position 0. The block size does not change the
    /// number of buckets.
    pub fn new(_block_size: usize) -> (t: Self)
        ensures
            t.wf(),
            t.view() == Seq::new(NUM_BUCKETS as nat, |i: int| 0u16),
    {
        let t = Self { buckets: vec![0; 16 * 1024] };
        assert(t.view() =~= Seq::new(NUM_BUCKETS as nat, |i: int| 0u16));
        t
    }

    /// The bucket of a four-byte pattern. This is a separate method, so that a
    /// `get` and an `insert` of the same pattern need hash it only once.
    pub fn hash(&self, pattern: &[u8]) -> (h: Hash)
        requires
            self.wf(),
            pattern.len() == 4,
        ensures
            h.index() == spec_bucket(le_value(pattern@)),
            h.index() < NUM_BUCKETS,
    {
        let pattern = le_u32(pattern);
        let hash: u32 = pattern.wrapping_mul(0x1e35_a7bd);
        Hash { bucket_index: hash as usize % self.buckets.len() }
    }

    /// The position last stored in the bucket. Different patterns may share a bucket,
    /// so the bytes at that position might not match: the caller checks.
    pub fn get(&self, hash: Hash) -> (last_seen: usize)
        requires
            self.wf(),
        ensures
            hash.index() < NUM_BUCKETS,
            last_seen == self.view()[hash.index() as int],
    {
        proof {
            use_type_invariant(hash);
        }
        let last_seen: u16 = self.buckets[hash.bucket_index];
        last_seen as usize
    }

    /// Stores `last_seen` in the bucket.
    pub fn insert(&mut self, hash: Hash, last_seen: usize)
        requires
            old(self).wf(),
            last_seen <= u16::MAX,
        ensures
            hash.index() < NUM_BUCKETS,
            final(self).wf(),
            final(self).view() == old(self).view().update(hash.index() as int, last_seen as u16),
    {
        proof {
            use_type_invariant(hash);
        }
        let last_seen = last_seen as u16;
        self.buckets.set(hash.bucket_index, last_seen);
    }
}

/// The buckets of a new table after `inserts`, stored in order.
pub open spec fn view_after(inserts: Seq<(Hash, u16)>) -> Seq<u16>
    decreases inserts.len(),
{
    if inserts.len() == 0 {
        Seq::new(NUM_BUCKETS as nat, |i: int| 0u16)
    } else {
        let (h, v) = inserts.last();
        view_after(inserts.drop_last()).update(h.index() as int, v)
    }
}

/// The value of the last of `inserts` made into bucket `b`, or 0 if none was.
pub open spec fn last_stored(inserts: Seq<(Hash, u16)>, b: nat) -> u16
    decreases inserts.len(),
{
    if inserts.len() == 0 {
        0
    } else if inserts.last().0.index() == b {
        inserts.last().1
    } else {
        last_stored(inserts.drop_last(), b)
    }
}

/// One more insert into a table is one more update of its buckets: a table made by
/// `new` and then `insert`s has the view `view_after` of those inserts.
pub proof fn lemma_view_after_push(inserts: Seq<(Hash, u16)>, h: Hash, v: u16)
    ensures
        view_after(inserts.push((h, v))) == view_after(inserts).update(h.index() as int, v),
{
    assert(inserts.push((h, v)).drop_last() =~= inserts);
}

/// After a new table has taken a sequence of inserts, each bucket holds the value of
/// the last insert into it, or 0 if there was none.
pub proof fn lemma_get_after_inserts(inserts: Seq<(Hash, u16)>, b: nat)
    requires
        b < NUM_BUCKETS,
        forall|k: int| 0 <= k < inserts.len() ==> (#[trigger] inserts[k]).0.index() < NUM_BUCKETS,
    ensures
        view_after(inserts).len() == NUM_BUCKETS,
        view_after(inserts)[b as int] == last_stored(inserts, b),
    decreases inserts.len(),
{
    if inserts.len() > 0 {
        let rest = inserts.drop_last();
        assert forall|k: int| 0 <= k < rest.len() implies (#[trigger] rest[k]).0.index()
            < NUM_BUCKETS by {
            assert(rest[k] == inserts[k]);
        }
        assert(inserts.last() == inserts[inserts.len() - 1]);
        lemma_get_after_inserts(rest, b);
    }
}

} // verus!
