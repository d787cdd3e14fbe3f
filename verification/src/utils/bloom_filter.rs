//! A Bloom filter over text keys.
use vstd::prelude::*;

use crate::utils::bitmap::{BitMap, cleared_bits, with_bit};

verus! {

/// What `murmurhash3::murmurhash3_x86_32` returns for these bytes and this seed.
pub uninterp spec fn murmur3_x86_32_hash(bytes: Seq<u8>, seed: u32) -> u32;

/// Calls `murmurhash3::murmurhash3_x86_32`. Its contract claims only that the
/// result is determined by the bytes and the seed; the hash itself is not
/// stated. (The crate reads the input in 4-byte blocks in the target's native
/// byte order, so the value is fixed for a given target.)
#[verifier::external_body]
fn murmur3_x86_32(bytes: &[u8], seed: u32) -> (h: u32)
    ensures
        h == murmur3_x86_32_hash(bytes@, seed),
{
    murmurhash3::murmurhash3_x86_32(bytes, seed)
}

/// The seed of the filter's first hash.
pub const FIRST_SEED: u32 = 0x9747B28C;

/// The seed of the filter's second hash.
pub const SECOND_SEED: u32 = 0x0747B28D;

/// Number of bits in the filter: one for every `u32` hash value.
pub open spec fn filter_len() -> nat {
    0x1_0000_0000
}

/// The bytes a key is hashed as: the UTF-8 encoding of the text.
pub open spec fn key_bytes(key: Seq<char>) -> Seq<u8> {
    vstd::utf8::encode_utf8(key)
}

/// The two bit positions a key is mapped to.
pub open spec fn first_hash(key: Seq<u8>) -> int {
    murmur3_x86_32_hash(key, FIRST_SEED) as int
}

pub open spec fn second_hash(key: Seq<u8>) -> int {
    murmur3_x86_32_hash(key, SECOND_SEED) as int
}

/// Whether the filter reports the key as (possibly) present: both of its bits are on.
pub open spec fn filter_contains(bits: Seq<bool>, key: Seq<u8>) -> bool {
    bits[first_hash(key)] && bits[second_hash(key)]
}

/// The filter's bits after recording the key: both of its bits switched on.
pub open spec fn filter_insert(bits: Seq<bool>, key: Seq<u8>) -> Seq<bool> {
    with_bit(with_bit(bits, first_hash(key)), second_hash(key))
}

/// A Bloom filter over text keys with two MurmurHash3 hashes into 2^32 bits.
pub struct BloomFilter {
    bit_map: BitMap,
    sends: [u32; 2],
}

impl View for BloomFilter {
    type V = Seq<bool>;

    closed spec fn view(&self) -> Seq<bool> {
        self.bit_map@
    }
}

impl BloomFilter {
    /// The filter has one bit per `u32` value and uses the two fixed seeds.
    pub closed spec fn wf(&self) -> bool {
        &&& self.bit_map@.len() == filter_len()
        &&& self.sends[0] == FIRST_SEED
        &&& self.sends[1] == SECOND_SEED
    }

    /// A well-formed filter has one bit per `u32` value.
    pub proof fn lemma_len(&self)
        requires
            self.wf(),
        ensures
            self@.len() == filter_len(),
    {
    }

    /// An empty filter: no bit is on.
    pub fn new() -> (f: Self)
        ensures
            f.wf(),
            f@ == cleared_bits(filter_len()),
    {
        let f = BloomFilter { bit_map: BitMap::new(u32::MAX as usize), sends: [FIRST_SEED, SECOND_SEED] };
        assert(8 * (u32::MAX as usize / 8 + 1) == filter_len());
        f
    }

    /// Records `data`. Returns `true` when the key was not reported present before
    /// (and switches its two bits on), `false` when it was (and changes nothing).
    pub fn add(&mut self, data: &str) -> (fresh: bool)
        requires
            old(self).wf(),
        ensures
            final(self).wf(),
            fresh == !filter_contains(old(self)@, key_bytes(data@)),
            fresh == !(old(self)@[murmur3_x86_32_hash(vstd::utf8::encode_utf8(data@), FIRST_SEED) as int]
                && old(self)@[murmur3_x86_32_hash(vstd::utf8::encode_utf8(data@), SECOND_SEED) as int]),
            final(self)@ == if fresh { filter_insert(old(self)@, key_bytes(data@)) } else { old(self)@ },
            final(self)@ == old(self)@.update(murmur3_x86_32_hash(vstd::utf8::encode_utf8(data@), FIRST_SEED) as int, true)
                .update(murmur3_x86_32_hash(vstd::utf8::encode_utf8(data@), SECOND_SEED) as int, true),
    {
        let bytes = data.as_bytes();
        let hash1 = murmur3_x86_32(bytes, self.sends[0]);
        let hash2 = murmur3_x86_32(bytes, self.sends[1]);
        if self.bit_map.get(hash1 as usize) && self.bit_map.get(hash2 as usize) {
            return false;
        } else {
            self.bit_map.set(hash1 as usize);
            self.bit_map.set(hash2 as usize);
            return true;
        }
    }
}


/// Law (no false negatives): once a key has been recorded the filter reports it
/// present, so adding it again returns `false`.
pub proof fn law_added_key_is_present(bits: Seq<bool>, key: Seq<u8>)
    requires
        bits.len() == filter_len(),
    ensures
        filter_contains(filter_insert(bits, key), key),
        filter_insert(bits, key).len() == filter_len(),
{
}

/// Law: recording a key never makes a key that was reported present absent.
pub proof fn law_insert_keeps_present(bits: Seq<bool>, key: Seq<u8>, other: Seq<u8>)
    requires
        bits.len() == filter_len(),
        filter_contains(bits, other),
    ensures
        filter_contains(filter_insert(bits, key), other),
{
}

/// Law: recording a key that is already reported present changes no bit.
pub proof fn law_insert_present_is_noop(bits: Seq<bool>, key: Seq<u8>)
    requires
        bits.len() == filter_len(),
        filter_contains(bits, key),
    ensures
        filter_insert(bits, key) == bits,
{
    assert(filter_insert(bits, key) =~= bits);
}

/// Law: the empty filter reports no key present, so the first `add` of any key
/// on a new filter returns `true`.
pub proof fn law_empty_contains_nothing(key: Seq<u8>)
    ensures
        !filter_contains(cleared_bits(filter_len()), key),
{
}


/// Law: a text key is hashed as its whole UTF-8 encoding, and the two
/// positions of a key are the MurmurHash3 values, under the two seeds, of
/// all its bytes; so a key is present exactly when both
/// of those bits are on, and recording it switches exactly those bits on.
/// (Keys that differ anywhere, even after their first bytes, get the positions
/// of their own full hashes.)
pub proof fn law_filter_positions(bits: Seq<bool>, key: Seq<u8>, text: Seq<char>)
    requires
        bits.len() == filter_len(),
    ensures
        key_bytes(text) == vstd::utf8::encode_utf8(text),
        FIRST_SEED == 0x9747B28Cu32,
        SECOND_SEED == 0x0747B28Du32,
        first_hash(key) == murmur3_x86_32_hash(key, FIRST_SEED) as int,
        second_hash(key) == murmur3_x86_32_hash(key, SECOND_SEED) as int,
        filter_contains(bits, key) == (bits[murmur3_x86_32_hash(key, FIRST_SEED) as int]
            && bits[murmur3_x86_32_hash(key, SECOND_SEED) as int]),
        filter_insert(bits, key) == bits.update(murmur3_x86_32_hash(key, FIRST_SEED) as int, true)
            .update(murmur3_x86_32_hash(key, SECOND_SEED) as int, true),
{
}

} // verus!
