//! The multiply-add hasher that turns a seed and a key's bytes into a bucket.
use vstd::prelude::*;

verus! {

/// One step of the hasher: `state * 31 + byte`, both wrapping at 2^64.
pub open spec fn mix(state: u64, b: u8) -> u64 {
    ((((state as nat) * 31) % 0x1_0000_0000_0000_0000 + b as nat)
        % 0x1_0000_0000_0000_0000) as u64
}

/// The state after feeding `bytes`, in order, to a hasher that holds `state`.
pub open spec fn hash_from(state: u64, bytes: Seq<u8>) -> u64
    decreases bytes.len(),
{
    if bytes.len() == 0 {
        state
    } else {
        mix(hash_from(state, bytes.drop_last()), bytes.last())
    }
}

/// The bucket that `bytes` fall in, for a table of `capacity` buckets and the given seed.
pub open spec fn slot_of(seed: u64, bytes: Seq<u8>, capacity: nat) -> int
    recommends
        capacity > 0,
{
    (hash_from(seed, bytes) as nat % capacity) as int
}

/// A seeded multiply-add hasher.
pub struct SimpleHasher {
    pub state: u64,
}

impl SimpleHasher {
    pub fn new(seed: u64) -> (r: SimpleHasher)
        ensures
            r.state == seed,
    {
        SimpleHasher { state: seed }
    }

    pub fn finish(&self) -> (r: u64)
        ensures
            r == self.state,
    {
        self.state
    }

    pub fn write(&mut self, bytes: &Vec<u8>)
        ensures
            final(self).state == hash_from(old(self).state, bytes@),
    {
        let ghost start = self.state;
        let mut i: usize = 0;
        while i < bytes.len()
            invariant
                i <= bytes@.len(),
                self.state == hash_from(start, bytes@.subrange(0, i as int)),
            decreases bytes@.len() - i,
        {
            let b: u8 = bytes[i];
            proof {
                let next = bytes@.subrange(0, i + 1);
                assert(next.drop_last() =~= bytes@.subrange(0, i as int));
                assert(next.last() == b);
            }
            self.state = self.state.wrapping_mul(31).wrapping_add(b as u64);
            i = i + 1;
        }
        assert(bytes@.subrange(0, i as int) =~= bytes@);
    }
}

/// The bucket of `bytes` among `capacity` buckets, for the given seed.
pub fn bucket_index(seed: u64, bytes: &Vec<u8>, capacity: usize) -> (r: usize)
    requires
        capacity > 0,
    ensures
        r as int == slot_of(seed, bytes@, capacity as nat),
        r < capacity,
{
    let mut hasher = SimpleHasher::new(seed);
    hasher.write(bytes);
    (hasher.finish() % (capacity as u64)) as usize
}

} // verus!
