//! Label keys of the Dijkstra–Steiner search.
use vstd::prelude::*;
use crate::graph::types::NodeId;

verus! {

/// The key of the label `(mask, v)`: the mask in the high word, the vertex in
/// the low one.
pub open spec fn label_key(mask: u32, v: u32) -> int {
    mask * 0x1_0000_0000 + v
}

/// Packs a terminal-subset mask and a vertex into one label key.
pub fn pack(mask: u32, v: NodeId) -> (r: u64)
    ensures
        r == label_key(mask, v),
{
    let m = mask as u64;
    let w = v as u64;
    proof {
        assert((m << 32u64) | w == m * 0x1_0000_0000u64 + w) by (bit_vector)
            requires m <= u32::MAX, w <= u32::MAX;
    }
    (m << 32u64) | w
}

/// A key gives back its mask and its vertex: the high and the low word.
pub proof fn lemma_unpack(mask: u32, v: NodeId)
    ensures
        0 <= label_key(mask, v) <= u64::MAX,
        ((label_key(mask, v) as u64) >> 32u64) as u32 == mask,
        ((label_key(mask, v) as u64) & 0xFFFF_FFFFu64) as u32 == v,
{
    let m = mask as u64;
    let w = v as u64;
    assert(m * 0x1_0000_0000u64 + w <= u64::MAX) by (nonlinear_arith)
        requires m <= u32::MAX, w <= u32::MAX;
    let k = (m * 0x1_0000_0000u64 + w) as u64;
    assert((k >> 32u64) as u32 == m as u32 && (k & 0xFFFF_FFFFu64) as u32 == w as u32) by (bit_vector)
        requires m <= u32::MAX, w <= u32::MAX, k == m * 0x1_0000_0000u64 + w;
}

/// One byte: xor it into the state, then multiply by `0x100000001b3`, wrapping.
pub open spec fn fnv_step(h: u64, b: u8) -> u64 {
    ((((h ^ (b as u64)) as nat) * 0x0000_0100_0000_01b3nat) % 0x1_0000_0000_0000_0000nat) as u64
}

/// The state after feeding `bytes` one by one.
pub open spec fn fnv_fold(h: u64, bytes: Seq<u8>) -> u64
    decreases bytes.len(),
{
    if bytes.len() == 0 {
        h
    } else {
        fnv_step(fnv_fold(h, bytes.drop_last()), bytes.last())
    }
}

/// The state after `write_u64(value)`: a multiplicative mix of the value.
pub open spec fn mix64(value: u64) -> u64 {
    let x = (((value as nat) * 0x9E37_79B9_7F4A_7C15nat) % 0x1_0000_0000_0000_0000nat) as u64;
    x ^ (x >> 29u64)
}

/// A hasher for label keys, which are already dense integers.
pub struct LabelHasher(pub u64);

impl LabelHasher {
    /// Feed bytes, one multiply per byte.
    pub fn write(&mut self, bytes: &[u8])
        ensures
            final(self).0 == fnv_fold(old(self).0, bytes@),
    {
        let mut i: usize = 0;
        while i < bytes.len()
            invariant
                i <= bytes.len(),
                self.0 == fnv_fold(old(self).0, bytes@.subrange(0, i as int)),
            decreases bytes.len() - i,
        {
            proof {
                assert(bytes@.subrange(0, i + 1).drop_last() =~= bytes@.subrange(0, i as int));
            }
            self.0 = (self.0 ^ bytes[i] as u64).wrapping_mul(0x0000_0100_0000_01b3);
            i += 1;
        }
        proof {
            assert(bytes@.subrange(0, bytes@.len() as int) =~= bytes@);
        }
    }

    /// Replace the state by a mix of `value`.
    pub fn write_u64(&mut self, value: u64)
        ensures
            final(self).0 == mix64(value),
    {
        self.0 = value.wrapping_mul(0x9E37_79B9_7F4A_7C15);
        self.0 = self.0 ^ (self.0 >> 29u64);
    }

    /// As [`LabelHasher::write_u64`] on the widened value.
    pub fn write_u32(&mut self, value: u32)
        ensures
            final(self).0 == mix64(value as u64),
    {
        self.write_u64(value as u64);
    }

    /// The current state.
    pub fn finish(&self) -> (r: u64)
        ensures
            r == self.0,
    {
        self.0
    }
}

impl Default for LabelHasher {
    fn default() -> (r: Self)
        ensures
            r.0 == 0,
    {
        LabelHasher(0)
    }
}

} // verus!
