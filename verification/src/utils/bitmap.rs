//! A packed bit map.
use vstd::prelude::*;

verus! {

/// Whether bit `k` (0 = least significant) of the byte `b` is set.
pub open spec fn byte_bit(b: u8, k: int) -> bool {
    (b >> (k as u8)) & 1u8 == 1u8
}

/// The bits of a byte string, least significant bit of each byte first.
pub open spec fn bits_of_bytes(data: Seq<u8>) -> Seq<bool> {
    Seq::new(data.len() * 8, |i: int| byte_bit(data[i / 8], i % 8))
}

/// The bit sequence with bit `i` switched on.
pub open spec fn with_bit(bits: Seq<bool>, i: int) -> Seq<bool> {
    bits.update(i, true)
}

/// A sequence of `n` cleared bits.
pub open spec fn cleared_bits(n: nat) -> Seq<bool> {
    Seq::new(n, |i: int| false)
}

proof fn lemma_set_bit(b: u8, k: u8, j: u8)
    by (bit_vector)
    requires
        k < 8,
        j < 8,
    ensures
        ((b | (1u8 << k)) >> j) & 1u8 == 1u8 <==> (j == k || (b >> j) & 1u8 == 1u8),
{
}

proof fn lemma_test_bit(b: u8, k: u8)
    by (bit_vector)
    requires
        k < 8,
    ensures
        (b & (1u8 << k) != 0u8) <==> ((b >> k) & 1u8 == 1u8),
{
}

proof fn lemma_zero_byte(j: u8)
    by (bit_vector)
    requires
        j < 8,
    ensures
        (0u8 >> j) & 1u8 != 1u8,
{
}

/// A fixed-size set of bits, packed eight to a byte.
pub struct BitMap {
    data: Vec<u8>,
}

impl View for BitMap {
    type V = Seq<bool>;

    closed spec fn view(&self) -> Seq<bool> {
        bits_of_bytes(self.data@)
    }
}

impl BitMap {
    /// A bit map with room for at least `size + 1` bits (`size / 8 + 1` bytes), all cleared.
    pub fn new(size: usize) -> (m: Self)
        ensures
            m@ == cleared_bits((8 * (size / 8 + 1)) as nat),
    {
        let m = BitMap { data: vec![0u8; size / 8 + 1] };
        proof {
            assert forall|i: int| 0 <= i < m@.len() implies m@[i] == false by {
                assert(m.data@[i / 8] == 0u8);
                lemma_zero_byte((i % 8) as u8);
            }
            assert(m@ =~= cleared_bits((8 * (size / 8 + 1)) as nat));
        }
        m
    }

    /// Switches bit `index` on.
    pub fn set(&mut self, index: usize)
        requires
            index < old(self)@.len(),
        ensures
            final(self)@ == with_bit(old(self)@, index as int),
    {
        let data_index = index / 8;
        let bit_index = (index % 8) as u8;
        let byte = self.data[data_index];
        self.data.set(data_index, byte | (1u8 << bit_index));
        proof {
            let ghost old_bits = old(self)@;
            assert forall|i: int| 0 <= i < self@.len() implies self@[i] == with_bit(old_bits, index as int)[i] by {
                if i / 8 == data_index {
                    lemma_set_bit(byte, bit_index, (i % 8) as u8);
                }
            }
            assert(self@ =~= with_bit(old_bits, index as int));
        }
    }

    /// Whether bit `index` is on.
    pub fn get(&self, index: usize) -> (b: bool)
        requires
            index < self@.len(),
        ensures
            b == self@[index as int],
    {
        let data_index = index / 8;
        let bit_index = (index % 8) as u8;
        proof {
            lemma_test_bit(self.data@[data_index as int], bit_index);
        }
        self.data[data_index] & (1u8 << bit_index) != 0
    }
}

/// Law: after bit `i` is switched on it reads as on, every other bit reads as
/// before, and the length is unchanged (so `set` never clears a bit).
pub proof fn law_set_then_get(bits: Seq<bool>, i: int, j: int)
    requires
        0 <= i < bits.len(),
        0 <= j < bits.len(),
    ensures
        with_bit(bits, i).len() == bits.len(),
        with_bit(bits, i)[i],
        j != i ==> with_bit(bits, i)[j] == bits[j],
        bits[j] ==> with_bit(bits, i)[j],
{
}

/// Law: switching the same bit on twice is the same as switching it on once.
pub proof fn law_set_idempotent(bits: Seq<bool>, i: int)
    requires
        0 <= i < bits.len(),
    ensures
        with_bit(with_bit(bits, i), i) == with_bit(bits, i),
{
    assert(with_bit(with_bit(bits, i), i) =~= with_bit(bits, i));
}

/// Law: switching two bits on gives the same bits in either order.
pub proof fn law_set_commutes(bits: Seq<bool>, i: int, j: int)
    requires
        0 <= i < bits.len(),
        0 <= j < bits.len(),
    ensures
        with_bit(with_bit(bits, i), j) == with_bit(with_bit(bits, j), i),
{
    assert(with_bit(with_bit(bits, i), j) =~= with_bit(with_bit(bits, j), i));
}

/// Law: `n` cleared bits are `n` bits that are all off.
pub proof fn law_cleared_bits(n: nat)
    ensures
        cleared_bits(n).len() == n,
        forall|i: int| 0 <= i < n ==> !#[trigger] cleared_bits(n)[i],
{
}

} // verus!
