//! The hash contract that every key type supplies, and its two stock policies.

use vstd::prelude::*;
use vstd::string::StringSliceAdditionalSpecFns;

verus! {

/// The multiplier of Fibonacci hashing: the golden ratio scaled to 32 bits.
pub const GOLDEN_RATIO: u64 = 2654435769;

/// The seed of djb2.
pub const DJB2_SEED: usize = 5381;

/// What a key type supplies to be stored in the table.
///
/// A key stands for its view. The index value of a key is a function of the
/// view alone, so it is the same on every call and for every key that stands
/// for the same thing, and `==` on keys decides whether two keys stand for
/// the same thing.
pub trait HashIt: View + PartialEq + Sized {
    /// The index value of every key whose view is `id`.
    spec fn hash_of(id: Self::V) -> usize;

    /// Whatever `==` answers for two keys is whether their views are equal.
    proof fn eq_decides_view(a: &Self, b: &Self, r: bool)
        requires
            call_ensures(<Self as PartialEq>::eq, (a, b), r),
        ensures
            r == (a@ == b@),
    ;

    /// The index value of the key, before it is reduced modulo a capacity.
    fn hash(&self) -> (h: usize)
        ensures
            h == Self::hash_of(self@),
    ;
}

/// Fibonacci hashing: the high 32 bits of the 64-bit product of the key and
/// the golden-ratio constant.
pub open spec fn fibonacci_hash(key: usize) -> usize {
    (((key as int * GOLDEN_RATIO as int) % 0x1_0000_0000_0000_0000) / 0x1_0000_0000) as usize
}

/// One step of djb2: `hash * 33 + byte`, wrapped to the width of `usize`.
pub open spec fn djb2_step(hash: usize, byte: u8) -> usize {
    ((hash as int * 33 + byte as int) % (usize::MAX as int + 1)) as usize
}

/// djb2 over a sequence of bytes, first byte first.
pub open spec fn djb2(bytes: Seq<u8>) -> usize
    decreases bytes.len(),
{
    if bytes.len() == 0 {
        DJB2_SEED
    } else {
        djb2_step(djb2(bytes.drop_last()), bytes.last())
    }
}

/// Shifting left by five, adding the hash and adding the byte, each with
/// wraparound, is one step of djb2.
proof fn lemma_djb2_step_wraps(hash: usize, byte: u8)
    ensures
        (hash << 5).wrapping_add(hash).wrapping_add(byte as usize) == djb2_step(hash, byte),
{
    let range = usize::MAX as int + 1;
    let shifted = hash << 5;
    assert(usize::BITS == 64 ==> shifted == (hash as int * 32) % 0x1_0000_0000_0000_0000)
        by (bit_vector)
        requires
            shifted == hash << 5,
    ;
    assert(usize::BITS == 32 ==> shifted == (hash as int * 32) % 0x1_0000_0000) by (bit_vector)
        requires
            shifted == hash << 5,
    ;
    assert(shifted == (hash as int * 32) % range);
    let sum = shifted.wrapping_add(hash);
    assert(sum == (hash as int * 33) % range) by {
        vstd::arithmetic::div_mod::lemma_add_mod_noop(hash as int * 32, hash as int, range);
        vstd::arithmetic::div_mod::lemma_small_mod(hash as nat, range as nat);
        lemma_wrapped_sum(shifted as int, hash as int, range);
    }
    assert(sum.wrapping_add(byte as usize) == (hash as int * 33 + byte as int) % range) by {
        vstd::arithmetic::div_mod::lemma_add_mod_noop(hash as int * 33, byte as int, range);
        vstd::arithmetic::div_mod::lemma_small_mod(byte as nat, range as nat);
        lemma_wrapped_sum(sum as int, byte as int, range);
    }
}

/// A sum of two numbers below `range`, less `range` where it reaches it, is
/// the sum modulo `range`.
proof fn lemma_wrapped_sum(a: int, b: int, range: int)
    requires
        0 <= a < range,
        0 <= b < range,
    ensures
        (a + b) % range == if a + b >= range {
            a + b - range
        } else {
            a + b
        },
{
    if a + b >= range {
        vstd::arithmetic::div_mod::lemma_mod_sub_multiples_vanish(a + b, range);
        vstd::arithmetic::div_mod::lemma_small_mod((a + b - range) as nat, range as nat);
    } else {
        vstd::arithmetic::div_mod::lemma_small_mod((a + b) as nat, range as nat);
    }
}

impl HashIt for usize {
    open spec fn hash_of(id: usize) -> usize {
        fibonacci_hash(id)
    }

    proof fn eq_decides_view(a: &Self, b: &Self, r: bool) {
    }

    fn hash(&self) -> (h: usize) {
        let wide: u64 = *self as u64;
        let product: u64 = wide.wrapping_mul(GOLDEN_RATIO);
        let high: u64 = product >> 32;
        assert(high == product / 0x1_0000_0000 && high <= 0xffff_ffff) by (bit_vector)
            requires
                high == product >> 32,
        ;
        high as usize
    }
}

impl HashIt for String {
    open spec fn hash_of(id: Seq<char>) -> usize {
        djb2(vstd::utf8::encode_utf8(id))
    }

    proof fn eq_decides_view(a: &Self, b: &Self, r: bool) {
    }

    fn hash(&self) -> (h: usize) {
        let bytes: &[u8] = self.as_str().as_bytes();
        let mut hash: usize = DJB2_SEED;
        let mut i: usize = 0;
        while i < bytes.len()
            invariant
                i <= bytes.len(),
                hash == djb2(bytes@.take(i as int)),
            decreases bytes.len() - i,
        {
            let c: u8 = bytes[i];
            proof {
                assert(bytes@.take(i as int + 1).drop_last() =~= bytes@.take(i as int));
                lemma_djb2_step_wraps(hash, c);
            }
            hash = (hash << 5).wrapping_add(hash).wrapping_add(c as usize);
            i += 1;
        }
        proof {
            assert(bytes@.take(i as int) =~= bytes@);
        }
        hash
    }
}

} // verus!
