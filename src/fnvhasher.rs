//! 64-bit FNV-1a hashing of byte strings.
use vstd::prelude::*;

verus! {

pub const FNV_OFFSET: u64 = 0xcbf29ce484222325;
pub const FNV_PRIME: u64 = 0x100000001b3;

/// One FNV-1a step: xor in the byte, multiply by the prime modulo 2^64.
pub open spec fn fnv_step(h: u64, b: u8) -> u64 {
    (((h ^ (b as u64)) as int * FNV_PRIME as int) % 0x1_0000_0000_0000_0000int) as u64
}

/// Hash state `h` after absorbing `bytes` in order.
pub open spec fn fnv_fold(h: u64, bytes: Seq<u8>) -> u64
    decreases bytes.len(),
{
    if bytes.len() == 0 {
        h
    } else {
        fnv_step(fnv_fold(h, bytes.drop_last()), bytes.last())
    }
}

/// Hasher that starts every hash from the FNV offset basis.
#[derive(Clone, Copy, Debug, Default)]
pub struct FnvHasher;

/// Running FNV-1a state.
#[derive(Clone, Copy, Debug, PartialEq, Eq, Structural)]
pub struct FnvState(pub u64);

impl FnvState {
    pub fn new() -> (r: FnvState)
        ensures
            r.0 == FNV_OFFSET,
    {
        FnvState(FNV_OFFSET)
    }

    /// Absorb `bytes`.
    pub fn write(&mut self, bytes: &[u8])
        ensures
            final(self).0 == fnv_fold(old(self).0, bytes@),
    {
        let mut hash = self.0;
        let mut i: usize = 0;
        while i < bytes.len()
            invariant
                i <= bytes.len(),
                hash == fnv_fold(old(self).0, bytes@.subrange(0, i as int)),
            decreases bytes.len() - i,
        {
            assert(bytes@.subrange(0, i + 1).drop_last() =~= bytes@.subrange(0, i as int));
            let x = (hash ^ (bytes[i] as u64)) as u128;
            assert(x * (FNV_PRIME as u128) <= 0xffff_ffff_ffff_ffff * 0x100000001b3u128) by (nonlinear_arith)
                requires x <= 0xffff_ffff_ffff_ffff;
            hash = ((x * (FNV_PRIME as u128)) % 0x1_0000_0000_0000_0000u128) as u64;
            i += 1;
        }
        assert(bytes@.subrange(0, bytes.len() as int) =~= bytes@);
        *self = FnvState(hash);
    }

    pub fn finish(&self) -> (r: u64)
        ensures
            r == self.0,
    {
        self.0
    }
}

impl FnvHasher {
    /// FNV-1a hash of `bytes`.
    pub fn hash(&self, bytes: &[u8]) -> (r: u64)
        ensures
            r == fnv_fold(FNV_OFFSET, bytes@),
    {
        let mut state = FnvState::new();
        state.write(bytes);
        state.finish()
    }
}

} // verus!
