//! The seeded byte hasher behind the hash map.

use core::hash::Hasher;
use vstd::prelude::*;

verus! {

/// The state after one more byte: rotate left by five bits, add the byte,
/// fold the high bits down, and multiply, all modulo 2^64.
pub open spec fn mix(state: u64, byte: u8) -> u64 {
    let rotated: u64 = (state << 5) | (state >> 59);
    let added: u64 = rotated.wrapping_add(byte as u64);
    let folded: u64 = added ^ (added >> 16);
    folded.wrapping_mul(0x45d9f3b)
}

/// The state after the bytes, first to last.
pub open spec fn absorb(state: u64, bytes: Seq<u8>) -> u64
    decreases bytes.len(),
{
    if bytes.len() == 0 {
        state
    } else {
        mix(absorb(state, bytes.drop_last()), bytes.last())
    }
}

/// The hash value that a state stands for.
pub open spec fn digest(state: u64) -> u64 {
    let a: u64 = state ^ (state >> 33);
    let b: u64 = a.wrapping_mul(0xff51afd7ed558ccd);
    let c: u64 = b ^ (b >> 33);
    let d: u64 = c.wrapping_mul(0xc4ceb9fe1a85ec53);
    d ^ (d >> 33)
}

/// A hasher that starts from a seed and takes its input byte by byte.
pub struct NewHasher {
    state: u64,
}

impl NewHasher {
    /// What the hasher has made of the seed and the bytes written so far.
    pub closed spec fn state(&self) -> u64 {
        self.state
    }

    /// A hasher that has seen no input.
    pub fn new(seed: u64) -> (hasher: Self)
        ensures
            hasher.state() == seed,
    {
        Self { state: seed }
    }
}

impl Hasher for NewHasher {
    /// Takes in `bytes`. Writing a slice at once or in pieces gives the same
    /// state.
    fn write(&mut self, bytes: &[u8])
        ensures
            final(self).state() == absorb(old(self).state(), bytes@),
    {
        let mut i: usize = 0;
        while i < bytes.len()
            invariant
                i <= bytes.len(),
                self.state == absorb(old(self).state, bytes@.take(i as int)),
            decreases bytes.len() - i,
        {
            proof {
                assert(bytes@.take(i + 1).drop_last() =~= bytes@.take(i as int));
            }
            let state: u64 = self.state;
            let rotated: u64 = (state << 5) | (state >> 59);
            let added: u64 = rotated.wrapping_add(bytes[i] as u64);
            let folded: u64 = added ^ (added >> 16);
            self.state = folded.wrapping_mul(0x45d9f3b);
            i += 1;
        }
        proof {
            assert(bytes@.take(bytes@.len() as int) =~= bytes@);
        }
    }

    /// The hash of what has been written. The hasher can go on taking input.
    fn finish(&self) -> (hash: u64)
        ensures
            hash == digest(self.state()),
    {
        let mut hash: u64 = self.state;
        hash ^= hash >> 33;
        hash = hash.wrapping_mul(0xff51afd7ed558ccd);
        hash ^= hash >> 33;
        hash = hash.wrapping_mul(0xc4ceb9fe1a85ec53);
        hash ^= hash >> 33;
        hash
    }
}

/// Writing two runs of bytes one after the other is writing their
/// concatenation.
pub proof fn lemma_absorb_concat(state: u64, first: Seq<u8>, second: Seq<u8>)
    ensures
        absorb(absorb(state, first), second) == absorb(state, first + second),
    decreases second.len(),
{
    if second.len() == 0 {
        assert(first + second =~= first);
    } else {
        lemma_absorb_concat(state, first, second.drop_last());
        assert((first + second).drop_last() =~= first + second.drop_last());
    }
}

} // verus!
