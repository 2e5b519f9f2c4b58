//! A second, non-incentivized randomness source: it folds a rolling
//! window of per-block entropy contributions.  No phases, no deposits, no
//! penalties — a cheaper beacon for callers that can live with weaker
//! guarantees, exposed through a call-dispatch wrapper with bounded input
//! and output.

use vstd::prelude::*;
use crate::hashing::{Hash256, blake2_of, blake2_words, bytes_of_hash, hash_to_bytes, mix,
    mix_spec, zero_hash};

verus! {

/// How many recent block hashes the beacon retains.
pub const MATERIAL_LEN: usize = 81;

/// The fold of the retained material into one hash value.
pub open spec fn mixed_material(s: Seq<Hash256>) -> Hash256
    decreases s.len(),
{
    if s.len() == 0 {
        zero_hash()
    } else {
        mix_spec(mixed_material(s.drop_last()), s.last())
    }
}

/// The bytes hashed for a random output: the caller's subject, then the
/// 32 bytes of the folded material.
pub open spec fn random_input(subject: Seq<u8>, material: Seq<Hash256>) -> Seq<u8> {
    subject + bytes_of_hash(mixed_material(material))
}

/// Appends every byte of `src` to `dst`.
fn append_bytes(dst: &mut Vec<u8>, src: &Vec<u8>)
    ensures
        final(dst)@ == old(dst)@ + src@,
{
    let mut i: usize = 0;
    while i < src.len()
        invariant
            i <= src@.len(),
            dst@ == old(dst)@ + src@.take(i as int),
        decreases src@.len() - i,
    {
        dst.push(src[i]);
        i = i + 1;
        proof {
            assert(dst@ =~= old(dst)@ + src@.take(i as int));
        }
    }
    proof {
        assert(old(dst)@ + src@.take(src@.len() as int) =~= old(dst)@ + src@);
    }
}

/// The collective-flip beacon: a bounded window of per-block entropy.
pub struct CollectiveFlip {
    /// The retained block hashes, oldest first; at most `MATERIAL_LEN`.
    pub material: Vec<Hash256>,
    /// The block at which the material last changed.
    pub last_change: u64,
}

impl CollectiveFlip {
    /// The window never outgrows its bound.
    pub open spec fn inv(&self) -> bool {
        self.material@.len() <= MATERIAL_LEN
    }

    /// An empty beacon.
    pub fn new() -> (r: CollectiveFlip)
        ensures
            r.inv(),
            r.material@ == Seq::<Hash256>::empty(),
            r.last_change == 0,
    {
        CollectiveFlip { material: Vec::new(), last_change: 0 }
    }

    /// Feeds one block's entropy contribution, dropping the oldest
    /// retained hash once the window is full.
    pub fn note_block(&mut self, block: u64, parent_hash: Hash256)
        requires
            old(self).inv(),
        ensures
            final(self).inv(),
            final(self).material@ == if old(self).material@.len() < MATERIAL_LEN {
                old(self).material@.push(parent_hash)
            } else {
                old(self).material@.skip(1).push(parent_hash)
            },
            final(self).last_change == block,
    {
        if self.material.len() == MATERIAL_LEN {
            self.material.remove(0);
            proof {
                assert(self.material@ =~= old(self).material@.skip(1));
            }
        }
        self.material.push(parent_hash);
        self.last_change = block;
    }

    /// A random value bound to the caller's subject, with the block at
    /// which the underlying material last changed.  Callers that saw the
    /// same material get the same value.
    pub fn random(&self, subject: &Vec<u8>) -> (r: (Hash256, u64))
        ensures
            r.0 == blake2_of(random_input(subject@, self.material@)),
            r.1 == self.last_change,
    {
        let mut seed = Hash256::zero();
        let mut i: usize = 0;
        while i < self.material.len()
            invariant
                i <= self.material@.len(),
                seed == mixed_material(self.material@.take(i as int)),
            decreases self.material@.len() - i,
        {
            seed = mix(&seed, &self.material[i]);
            i = i + 1;
            proof {
                assert(self.material@.take(i as int).drop_last()
                    =~= self.material@.take(i as int - 1));
            }
        }
        proof {
            assert(self.material@.take(self.material@.len() as int) =~= self.material@);
        }
        let mut data: Vec<u8> = Vec::new();
        append_bytes(&mut data, subject);
        let seed_bytes = hash_to_bytes(&seed);
        append_bytes(&mut data, &seed_bytes);
        proof {
            assert(data@ =~= random_input(subject@, self.material@));
        }
        (blake2_words(&data), self.last_change)
    }

    /// The retained material, oldest first.
    pub fn random_material(&self) -> (r: Vec<Hash256>)
        ensures
            r@ == self.material@,
    {
        let mut r: Vec<Hash256> = Vec::new();
        let mut i: usize = 0;
        while i < self.material.len()
            invariant
                i <= self.material@.len(),
                r@ == self.material@.take(i as int),
            decreases self.material@.len() - i,
        {
            r.push(self.material[i]);
            i = i + 1;
            proof {
                assert(r@ =~= self.material@.take(i as int));
            }
        }
        proof {
            assert(self.material@.take(self.material@.len() as int) =~= self.material@);
        }
        r
    }
}

/// The calls the wrapper dispatches for external callers.
#[derive(Clone, Copy, PartialEq, Eq, Structural, Debug)]
pub enum Action {
    /// A random value bound to a caller-supplied subject.
    CollectiveFlipRandom,
    /// The beacon's current seed material.
    CollectiveFlipSeed,
}

/// What a dispatched call returns.
pub enum RandomnessOutput {
    /// The random value and the block its material last changed at.
    Random(Hash256, u64),
    /// The retained seed material, oldest first.
    Material(Vec<Hash256>),
}

/// A wrapper exposing the beacon behind a simple call surface, for a
/// gas-metered bridging layer to invoke: bounded input, bounded output,
/// no re-entrancy.
pub struct RandomnessWrapper {
    pub flip: CollectiveFlip,
}

impl RandomnessWrapper {
    /// A wrapper over a fresh beacon.
    pub fn new() -> (r: RandomnessWrapper)
        ensures
            r.flip.inv(),
            r.flip.material@ == Seq::<Hash256>::empty(),
            r.flip.last_change == 0,
    {
        RandomnessWrapper { flip: CollectiveFlip::new() }
    }

    /// The beacon's random output for a subject.
    pub fn collective_flip_random(&self, input: &Vec<u8>) -> (r: (Hash256, u64))
        ensures
            r.0 == blake2_of(random_input(input@, self.flip.material@)),
            r.1 == self.flip.last_change,
    {
        self.flip.random(input)
    }

    /// The beacon's seed material.
    pub fn collective_flip_seed(&self) -> (r: Vec<Hash256>)
        ensures
            r@ == self.flip.material@,
    {
        self.flip.random_material()
    }

    /// Dispatches one call by its selector.
    pub fn execute(&self, action: Action, input: &Vec<u8>) -> (r: RandomnessOutput)
        ensures
            match r {
                RandomnessOutput::Random(h, b) => action == Action::CollectiveFlipRandom
                    && h == blake2_of(random_input(input@, self.flip.material@))
                    && b == self.flip.last_change,
                RandomnessOutput::Material(m) => action == Action::CollectiveFlipSeed
                    && m@ == self.flip.material@,
            },
    {
        match action {
            Action::CollectiveFlipRandom => {
                let (h, b) = self.collective_flip_random(input);
                RandomnessOutput::Random(h, b)
            },
            Action::CollectiveFlipSeed => {
                RandomnessOutput::Material(self.collective_flip_seed())
            },
        }
    }
}

} // verus!
