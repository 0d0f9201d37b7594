//! The reflected CRC-32 (polynomial 0xEDB88320) used by ZIP, computed with a
//! byte table whose agreement with the bitwise definition is proved.

use vstd::prelude::*;

verus! {

/// The reflected CRC-32 polynomial.
pub const CRC32_POLYNOMIAL: u32 = 0xedb8_8320;

/// One bitwise CRC step: shift right, folding the polynomial in when the low bit was set.
pub open spec fn crc_shift(value: u32) -> u32 {
    if value & 1 == 1 {
        (value >> 1u32) ^ 0xedb8_8320u32
    } else {
        value >> 1u32
    }
}

/// `count` bitwise CRC steps.
pub open spec fn crc_shift_times(value: u32, count: nat) -> u32
    decreases count,
{
    if count == 0 {
        value
    } else {
        crc_shift(crc_shift_times(value, (count - 1) as nat))
    }
}

/// The register after absorbing one byte bit by bit.
pub open spec fn crc_byte(state: u32, byte: u8) -> u32 {
    crc_shift_times(state ^ (byte as u32), 8)
}

/// The register after absorbing `bytes` in order, starting from `state`.
pub open spec fn crc_state(state: u32, bytes: Seq<u8>) -> u32
    decreases bytes.len(),
{
    if bytes.len() == 0 {
        state
    } else {
        crc_byte(crc_state(state, bytes.drop_last()), bytes.last())
    }
}

/// The standard CRC-32 of a byte sequence: all-ones start, final complement.
pub open spec fn crc32_of(bytes: Seq<u8>) -> u32 {
    !crc_state(0xffff_ffffu32, bytes)
}

/// A bitwise step distributes over exclusive or.
proof fn lemma_shift_xor(a: u32, b: u32)
    ensures
        crc_shift(a ^ b) == crc_shift(a) ^ crc_shift(b),
{
    assert(crc_shift(a ^ b) == crc_shift(a) ^ crc_shift(b)) by (bit_vector);
}

/// Repeated steps distribute over exclusive or.
proof fn lemma_shift_times_xor(a: u32, b: u32, count: nat)
    ensures
        crc_shift_times(a ^ b, count) == crc_shift_times(a, count) ^ crc_shift_times(b, count),
    decreases count,
{
    if count > 0 {
        lemma_shift_times_xor(a, b, (count - 1) as nat);
        lemma_shift_xor(crc_shift_times(a, (count - 1) as nat), crc_shift_times(b, (count - 1) as nat));
    }
}

/// A register whose low byte is clear is only shifted by the first eight steps.
proof fn lemma_shift_times_clear(high: u32, count: nat)
    requires
        high & 0xffu32 == 0,
        count <= 8,
    ensures
        crc_shift_times(high, count) == high >> (count as u32),
    decreases count,
{
    if count > 0 {
        let k = (count - 1) as u32;
        lemma_shift_times_clear(high, (count - 1) as nat);
        assert((high >> k) & 1u32 == 0 && (high >> k) >> 1u32 == high >> ((k + 1) as u32)) by (bit_vector)
            requires
                high & 0xffu32 == 0,
                k < 8,
        ;
        assert(crc_shift(high >> k) == (high >> k) >> 1u32);
        assert(count as u32 == k + 1);
    } else {
        assert(high >> 0u32 == high) by (bit_vector);
    }
}

/// Eight bitwise steps equal one table step: shift by a byte and fold in the entry
/// for the low byte.
pub proof fn lemma_byte_step(value: u32)
    ensures
        crc_shift_times(value, 8) == (value >> 8u32) ^ crc_shift_times(value & 0xffu32, 8),
{
    let high = value & 0xffff_ff00u32;
    let low = value & 0xffu32;
    assert(high ^ low == value && high & 0xffu32 == 0 && high >> 8u32 == value >> 8u32) by (bit_vector)
        requires
            high == value & 0xffff_ff00u32,
            low == value & 0xffu32,
    ;
    lemma_shift_times_xor(high, low, 8);
    lemma_shift_times_clear(high, 8);
}

/// The byte table: entry `i` is eight bitwise steps applied to `i`.
pub fn crc32_table() -> (table: Vec<u32>)
    ensures
        table@.len() == 256,
        forall|i: int| 0 <= i < 256 ==> #[trigger] table@[i] == crc_shift_times(i as u32, 8),
{
    let mut table: Vec<u32> = Vec::new();
    let mut index: u32 = 0;
    while index < 256
        invariant
            index <= 256,
            table@.len() == index,
            forall|i: int| 0 <= i < index ==> #[trigger] table@[i] == crc_shift_times(i as u32, 8),
        decreases 256 - index,
    {
        let mut value: u32 = index;
        let mut bit: u32 = 0;
        while bit < 8
            invariant
                bit <= 8,
                value == crc_shift_times(index, bit as nat),
            decreases 8 - bit,
        {
            value = if value & 1 == 1 {
                (value >> 1) ^ CRC32_POLYNOMIAL
            } else {
                value >> 1
            };
            bit = bit + 1;
        }
        table.push(value);
        index = index + 1;
    }
    table
}

/// A running CRC-32 register.
#[derive(Debug, Clone, Copy)]
pub struct Crc32 {
    register: u32,
}

impl Crc32 {
    /// The register value.
    pub closed spec fn spec_register(self) -> u32 {
        self.register
    }

    /// A register holding the all-ones start value.
    pub fn new() -> (crc: Self)
        ensures
            crc.spec_register() == 0xffff_ffffu32,
    {
        Self { register: 0xffff_ffff }
    }

    /// Absorbs `bytes` in order.
    pub fn update(&mut self, bytes: &[u8])
        ensures
            final(self).spec_register() == crc_state(old(self).spec_register(), bytes@),
    {
        let table = crc32_table();
        let start = self.register;
        let mut index: usize = 0;
        while index < bytes.len()
            invariant
                index <= bytes@.len(),
                table@.len() == 256,
                forall|i: int| 0 <= i < 256 ==> #[trigger] table@[i] == crc_shift_times(i as u32, 8),
                self.register == crc_state(start, bytes@.take(index as int)),
            decreases bytes@.len() - index,
        {
            let byte = bytes[index];
            let state = self.register;
            let mixed = state ^ (byte as u32);
            let slot = mixed & 0xff;
            assert(slot < 256 && mixed >> 8u32 == state >> 8u32) by (bit_vector)
                requires
                    slot == mixed & 0xffu32,
                    mixed == state ^ (byte as u32),
                    byte < 256,
            ;
            proof {
                lemma_byte_step(mixed);
                assert(bytes@.take(index as int + 1).drop_last() =~= bytes@.take(index as int));
            }
            self.register = (state >> 8) ^ table[slot as usize];
            index = index + 1;
        }
        proof {
            assert(bytes@.take(index as int) =~= bytes@);
        }
    }

    /// The finished checksum: the complemented register.
    pub fn finish(self) -> (checksum: u32)
        ensures
            checksum == !self.spec_register(),
    {
        !self.register
    }
}

/// The CRC-32 of a byte slice.
pub fn crc32(bytes: &[u8]) -> (checksum: u32)
    ensures
        checksum == crc32_of(bytes@),
{
    let mut crc = Crc32::new();
    crc.update(bytes);
    crc.finish()
}

} // verus!
