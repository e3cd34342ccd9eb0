//! CRC32C (Castagnoli) checksums for on-disk data.
//!
//! The checksum is specified as the bitwise shift register that defines it;
//! the executable code processes a byte at a time through a lookup table that
//! is proved to compute the same thing.

use vstd::prelude::*;

verus! {

/// Reflected CRC32C polynomial.
pub const POLY: u32 = 0x82F6_3B78;

/// One step of the shift register: shifts out the low bit and, if it was
/// set, adds the polynomial.
pub open spec fn crc_shift(crc: u32) -> u32 {
    if crc & 1 != 0 {
        (crc >> 1) ^ POLY
    } else {
        crc >> 1
    }
}

/// `n` steps of the shift register.
pub open spec fn crc_shift_n(crc: u32, n: nat) -> u32
    decreases n,
{
    if n == 0 {
        crc
    } else {
        crc_shift(crc_shift_n(crc, (n - 1) as nat))
    }
}

/// Feeds one byte into the register: adds it to the low end, then shifts it
/// out bit by bit.
pub open spec fn crc_byte(crc: u32, byte: u8) -> u32 {
    crc_shift_n(crc ^ (byte as u32), 8)
}

/// Feeds `bytes` into the register in order.
pub open spec fn crc_bytes(crc: u32, bytes: Seq<u8>) -> u32
    decreases bytes.len(),
{
    if bytes.len() == 0 {
        crc
    } else {
        crc_byte(crc_bytes(crc, bytes.drop_last()), bytes.last())
    }
}

/// The CRC32C of `bytes`: the register starts with every bit set and is
/// inverted at the end.
pub open spec fn crc32c_of(bytes: Seq<u8>) -> u32 {
    !crc_bytes(0xFFFF_FFFF, bytes)
}

proof fn lemma_shift_linear(a: u32, b: u32)
    ensures
        crc_shift(a ^ b) == crc_shift(a) ^ crc_shift(b),
{
    assert(crc_shift(a ^ b) == crc_shift(a) ^ crc_shift(b)) by (bit_vector);
}

proof fn lemma_shift_n_linear(a: u32, b: u32, n: nat)
    ensures
        crc_shift_n(a ^ b, n) == crc_shift_n(a, n) ^ crc_shift_n(b, n),
    decreases n,
{
    if n > 0 {
        lemma_shift_n_linear(a, b, (n - 1) as nat);
        lemma_shift_linear(crc_shift_n(a, (n - 1) as nat), crc_shift_n(b, (n - 1) as nat));
    }
}

proof fn lemma_shift_injective(a: u32, b: u32)
    requires
        crc_shift(a) == crc_shift(b),
    ensures
        a == b,
{
    assert(crc_shift(a) == crc_shift(b) ==> a == b) by (bit_vector);
}

proof fn lemma_shift_n_injective(a: u32, b: u32, n: nat)
    requires
        crc_shift_n(a, n) == crc_shift_n(b, n),
    ensures
        a == b,
    decreases n,
{
    if n > 0 {
        lemma_shift_injective(crc_shift_n(a, (n - 1) as nat), crc_shift_n(b, (n - 1) as nat));
        lemma_shift_n_injective(a, b, (n - 1) as nat);
    }
}

/// A byte is absorbed by one table lookup: the low byte of the register
/// selects the entry, the rest moves down unchanged.
proof fn lemma_byte_by_table(crc: u32, byte: u8)
    ensures
        (crc ^ (byte as u32)) & 0xFF < 256,
        crc_byte(crc, byte) == crc_shift_n((crc ^ (byte as u32)) & 0xFF, 8) ^ (crc >> 8),
{
    let b = byte as u32;
    let lo = (crc ^ b) & 0xFF;
    let hi = (crc ^ b) & 0xFFFF_FF00;
    assert((crc ^ b) & 0xFF < 256) by (bit_vector);
    assert(((crc ^ b) & 0xFF) ^ ((crc ^ b) & 0xFFFF_FF00) == crc ^ b) by (bit_vector);
    lemma_shift_n_linear(lo, hi, 8);
    assert(crc_shift_n(hi, 8) == crc >> 8) by {
        assert(b < 256 && hi == (crc ^ b) & 0xFFFF_FF00 ==> crc_shift(hi) == hi >> 1 && crc_shift(
            hi >> 1,
        ) == hi >> 2 && crc_shift(hi >> 2) == hi >> 3 && crc_shift(hi >> 3) == hi >> 4
            && crc_shift(hi >> 4) == hi >> 5 && crc_shift(hi >> 5) == hi >> 6 && crc_shift(hi >> 6)
            == hi >> 7 && crc_shift(hi >> 7) == hi >> 8 && hi >> 8 == crc >> 8) by (bit_vector);
        reveal_with_fuel(crc_shift_n, 9);
    }
}

/// Builds the lookup table: entry `i` is the register after shifting out
/// the byte `i`.
fn build_table() -> (table: [u32; 256])
    ensures
        forall|i: int|
            0 <= i < 256 ==> #[trigger] table@[i] == crc_shift_n(i as u32, 8),
{
    let mut table: [u32; 256] = [0u32;256];
    let mut i: usize = 0;
    while i < 256
        invariant
            0 <= i <= 256,
            forall|j: int| 0 <= j < i ==> #[trigger] table@[j] == crc_shift_n(j as u32, 8),
        decreases 256 - i,
    {
        let mut crc: u32 = i as u32;
        let mut bit: u32 = 0;
        while bit < 8
            invariant
                bit <= 8,
                crc == crc_shift_n(i as u32, bit as nat),
            decreases 8 - bit,
        {
            crc = if crc & 1 != 0 {
                (crc >> 1) ^ POLY
            } else {
                crc >> 1
            };
            bit += 1;
        }
        table[i] = crc;
        i += 1;
    }
    table
}

/// Incremental CRC32C hasher for data that arrives in pieces.
#[derive(Debug, Clone, Copy)]
pub struct Crc32c {
    state: u32,
}

impl Crc32c {
    /// The register after the bytes fed so far.
    pub closed spec fn register(self) -> u32 {
        self.state
    }

    /// Starts a new checksum.
    pub fn new() -> (hasher: Self)
        ensures
            hasher.register() == 0xFFFF_FFFF,
    {
        assert(!0u32 == 0xFFFF_FFFFu32) by (bit_vector);
        Crc32c { state: !0 }
    }

    /// Feeds more bytes into the checksum.
    pub fn update(&mut self, bytes: &[u8])
        ensures
            final(self).register() == crc_bytes(old(self).register(), bytes@),
    {
        let table: [u32; 256] = build_table();
        let mut crc: u32 = self.state;
        let mut i: usize = 0;
        assert(bytes@.take(0) =~= Seq::<u8>::empty());
        while i < bytes.len()
            invariant
                0 <= i <= bytes@.len(),
                crc == crc_bytes(self.state, bytes@.take(i as int)),
                forall|j: int|
                    0 <= j < 256 ==> #[trigger] table@[j] == crc_shift_n(j as u32, 8),
            decreases bytes@.len() - i,
        {
            let byte: u8 = bytes[i];
            proof {
                lemma_byte_by_table(crc, byte);
                assert(bytes@.take(i + 1).drop_last() =~= bytes@.take(i as int));
            }
            crc = table[((crc ^ byte as u32) & 0xFF) as usize] ^ (crc >> 8);
            i += 1;
        }
        assert(bytes@.take(i as int) =~= bytes@);
        self.state = crc;
    }

    /// Returns the checksum of all bytes fed so far.
    pub fn finalize(self) -> (checksum: u32)
        ensures
            checksum == !self.register(),
    {
        !self.state
    }
}

impl Default for Crc32c {
    fn default() -> (hasher: Self)
        ensures
            hasher.register() == 0xFFFF_FFFF,
    {
        Self::new()
    }
}

/// Computes the CRC32C of `bytes` in one call.
pub fn crc32c(bytes: &[u8]) -> (checksum: u32)
    ensures
        checksum == crc32c_of(bytes@),
{
    let mut hasher = Crc32c::new();
    hasher.update(bytes);
    hasher.finalize()
}

/// Feeding data in two pieces gives the same register as feeding it at once.
pub proof fn lemma_incremental(crc: u32, first: Seq<u8>, second: Seq<u8>)
    ensures
        crc_bytes(crc_bytes(crc, first), second) == crc_bytes(crc, first + second),
    decreases second.len(),
{
    if second.len() == 0 {
        assert(first + second =~= first);
    } else {
        lemma_incremental(crc, first, second.drop_last());
        assert((first + second).drop_last() =~= first + second.drop_last());
    }
}

proof fn lemma_bytes_injective(a: u32, b: u32, bytes: Seq<u8>)
    requires
        crc_bytes(a, bytes) == crc_bytes(b, bytes),
    ensures
        a == b,
    decreases bytes.len(),
{
    if bytes.len() > 0 {
        let x = crc_bytes(a, bytes.drop_last());
        let y = crc_bytes(b, bytes.drop_last());
        let c = bytes.last() as u32;
        lemma_shift_n_injective(x ^ c, y ^ c, 8);
        assert(x ^ c == y ^ c ==> x == y) by (bit_vector);
        lemma_bytes_injective(a, b, bytes.drop_last());
    }
}

/// Changing one byte of the data, by one or more of its bits, always changes
/// the checksum.
pub proof fn lemma_detects_byte_change(bytes: Seq<u8>, at: int, value: u8)
    requires
        0 <= at < bytes.len(),
        value != bytes[at],
    ensures
        crc32c_of(bytes.update(at, value)) != crc32c_of(bytes),
{
    let before = bytes.take(at);
    let after = bytes.skip(at + 1);
    let changed = bytes.update(at, value);
    let state = crc_bytes(0xFFFF_FFFF, before);
    let old_byte = bytes[at];
    assert(bytes =~= before.push(old_byte) + after);
    assert(changed =~= before.push(value) + after);
    lemma_incremental(0xFFFF_FFFF, before.push(old_byte), after);
    lemma_incremental(0xFFFF_FFFF, before.push(value), after);
    assert(before.push(old_byte).drop_last() =~= before);
    assert(before.push(value).drop_last() =~= before);
    let r = crc_bytes(0xFFFF_FFFF, bytes);
    let s = crc_bytes(0xFFFF_FFFF, changed);
    if !r == !s {
        assert(!r == !s ==> r == s) by (bit_vector);
        lemma_bytes_injective(crc_byte(state, old_byte), crc_byte(state, value), after);
        lemma_shift_n_injective(state ^ (old_byte as u32), state ^ (value as u32), 8);
        let p = old_byte as u32;
        let q = value as u32;
        assert(state ^ p == state ^ q ==> p == q) by (bit_vector);
    }
}

/// The bytes of two sequences of one length, added bit by bit.
pub open spec fn xor_bytes(a: Seq<u8>, b: Seq<u8>) -> Seq<u8> {
    Seq::new(a.len(), |i: int| a[i] ^ b[i])
}

/// The register is linear: the sum of two inputs, fed into the sum of two
/// registers, gives the sum of what each gives alone.
pub proof fn lemma_crc_linear(a: u32, b: u32, x: Seq<u8>, y: Seq<u8>)
    requires
        x.len() == y.len(),
    ensures
        crc_bytes(a ^ b, xor_bytes(x, y)) == crc_bytes(a, x) ^ crc_bytes(b, y),
    decreases x.len(),
{
    if x.len() > 0 {
        let p = crc_bytes(a, x.drop_last());
        let q = crc_bytes(b, y.drop_last());
        let m = x.last();
        let n = y.last();
        lemma_crc_linear(a, b, x.drop_last(), y.drop_last());
        assert(xor_bytes(x, y).drop_last() =~= xor_bytes(x.drop_last(), y.drop_last()));
        assert(xor_bytes(x, y).last() == m ^ n);
        assert((p ^ q) ^ ((m ^ n) as u32) == (p ^ (m as u32)) ^ (q ^ (n as u32))) by (bit_vector);
        lemma_shift_n_linear(p ^ (m as u32), q ^ (n as u32), 8);
    }
}

/// What one byte does to a register with a single bit set: a bit above the low
/// byte moves down by one byte, and a bit in the low byte gives the remainder
/// that the Castagnoli polynomial has for it. As the register is linear, this
/// says what one byte does to any register.
pub proof fn lemma_crc_single_bits()
    ensures
        crc_bytes(0x01, seq![0u8]) == 0xF26B_8303,
        crc_bytes(0x02, seq![0u8]) == 0xE13B_70F7,
        crc_bytes(0x04, seq![0u8]) == 0xC79A_971F,
        crc_bytes(0x08, seq![0u8]) == 0x8AD9_58CF,
        crc_bytes(0x10, seq![0u8]) == 0x105E_C76F,
        crc_bytes(0x20, seq![0u8]) == 0x20BD_8EDE,
        crc_bytes(0x40, seq![0u8]) == 0x417B_1DBC,
        crc_bytes(0x80, seq![0u8]) == 0x82F6_3B78,
        forall|high: u32|
            #![trigger crc_bytes(high, seq![0u8])]
            high & 0xFF == 0 ==> crc_bytes(high, seq![0u8]) == high >> 8,
        forall|crc: u32, byte: u8|
            #![trigger crc_bytes(crc, seq![byte])]
            crc_bytes(crc, seq![byte]) == crc_bytes(crc ^ (byte as u32), seq![0u8]),
{
    assert forall|crc: u32, byte: u8| #[trigger] crc_bytes(crc, seq![byte]) == crc_shift_n(
        crc ^ (byte as u32),
        8,
    ) by {
        assert(seq![byte].drop_last() =~= Seq::empty());
        assert(crc_bytes(crc, Seq::empty()) == crc);
    }
    assert forall|crc: u32| #[trigger] crc_bytes(crc, seq![0u8]) == crc_shift_n(crc, 8) by {
        assert(crc ^ (0u8 as u32) == crc) by (bit_vector);
    }
    reveal_with_fuel(crc_shift_n, 9);
    assert(crc_shift(0x80) == 0x40 && crc_shift(0x40) == 0x20 && crc_shift(0x20) == 0x10
        && crc_shift(0x10) == 0x08 && crc_shift(0x08) == 0x04 && crc_shift(0x04) == 0x02
        && crc_shift(0x02) == 0x01 && crc_shift(0x01) == 0x82F6_3B78 && crc_shift(0x82F6_3B78)
        == 0x417B_1DBC && crc_shift(0x417B_1DBC) == 0x20BD_8EDE && crc_shift(0x20BD_8EDE)
        == 0x105E_C76F && crc_shift(0x105E_C76F) == 0x8AD9_58CF && crc_shift(0x8AD9_58CF)
        == 0xC79A_971F && crc_shift(0xC79A_971F) == 0xE13B_70F7 && crc_shift(0xE13B_70F7)
        == 0xF26B_8303) by (bit_vector);
    assert forall|high: u32|
        #![trigger crc_bytes(high, seq![0u8])]
        high & 0xFF == 0 implies crc_bytes(high, seq![0u8]) == high >> 8 by {
        assert(high & 0xFF == 0 ==> crc_shift(high) == high >> 1 && crc_shift(high >> 1) == high
            >> 2 && crc_shift(high >> 2) == high >> 3 && crc_shift(high >> 3) == high >> 4
            && crc_shift(high >> 4) == high >> 5 && crc_shift(high >> 5) == high >> 6 && crc_shift(
            high >> 6,
        ) == high >> 7 && crc_shift(high >> 7) == high >> 8) by (bit_vector);
    }
}

/// The checksum is the register that started with every bit set, inverted. Of
/// no bytes it is zero.
pub proof fn lemma_crc_ends()
    ensures
        forall|bytes: Seq<u8>| #[trigger] crc32c_of(bytes) == !crc_bytes(0xFFFF_FFFF, bytes),
        crc32c_of(Seq::empty()) == 0,
{
    assert(!0xFFFF_FFFFu32 == 0) by (bit_vector);
}

} // verus!
