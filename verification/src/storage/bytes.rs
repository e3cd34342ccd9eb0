//! Little-endian integers in byte sequences.

use vstd::prelude::*;

verus! {

/// The `width` lowest base-256 digits of `value`, lowest first.
#[verifier::opaque]
pub open spec fn le_bytes(value: nat, width: nat) -> Seq<u8>
    decreases width,
{
    if width == 0 {
        Seq::empty()
    } else {
        seq![(value % 256) as u8] + le_bytes(value / 256, (width - 1) as nat)
    }
}

/// The number whose base-256 digits are `bytes`, lowest first.
#[verifier::opaque]
pub open spec fn le_value(bytes: Seq<u8>) -> nat
    decreases bytes.len(),
{
    if bytes.len() == 0 {
        0
    } else {
        bytes[0] as nat + 256 * le_value(bytes.skip(1))
    }
}

/// The little-endian number in bytes `from..to`.
pub open spec fn field(bytes: Seq<u8>, from: int, to: int) -> nat {
    le_value(bytes.subrange(from, to))
}

/// `bytes` with `patch` written over it, starting at `at`.
pub open spec fn splice(bytes: Seq<u8>, at: int, patch: Seq<u8>) -> Seq<u8> {
    Seq::new(
        bytes.len(),
        |i: int|
            if at <= i < at + patch.len() {
                patch[i - at]
            } else {
                bytes[i]
            },
    )
}

/// `256` to the power `width`.
pub open spec fn pow256(width: nat) -> nat
    decreases width,
{
    if width == 0 {
        1
    } else {
        256 * pow256((width - 1) as nat)
    }
}

pub proof fn lemma_pow256()
    ensures
        pow256(0) == 1,
        pow256(4) == 0x1_0000_0000,
        pow256(8) == 0x1_0000_0000_0000_0000,
{
    reveal_with_fuel(pow256, 9);
}

pub broadcast proof fn lemma_le_bytes_len(value: nat, width: nat)
    ensures
        #[trigger] le_bytes(value, width).len() == width,
    decreases width,
{
    reveal(le_bytes);
    if width > 0 {
        lemma_le_bytes_len(value / 256, (width - 1) as nat);
    }
}

pub proof fn lemma_le_value_bound(bytes: Seq<u8>)
    ensures
        le_value(bytes) < pow256(bytes.len()),
    decreases bytes.len(),
{
    reveal(le_value);
    if bytes.len() > 0 {
        lemma_le_value_bound(bytes.skip(1));
    }
}

/// Reading back a number that fits gives the number.
pub proof fn lemma_le_round_trip(value: nat, width: nat)
    requires
        value < pow256(width),
    ensures
        le_value(le_bytes(value, width)) == value,
    decreases width,
{
    reveal(le_bytes);
    reveal(le_value);
    if width > 0 {
        let rest = le_bytes(value / 256, (width - 1) as nat);
        lemma_le_round_trip(value / 256, (width - 1) as nat);
        assert(le_bytes(value, width).skip(1) =~= rest);
    }
}

/// Writing a number that was read gives the bytes it was read from.
pub proof fn lemma_le_value_bytes(bytes: Seq<u8>)
    ensures
        le_bytes(le_value(bytes), bytes.len()) == bytes,
    decreases bytes.len(),
{
    reveal(le_bytes);
    reveal(le_value);
    if bytes.len() > 0 {
        lemma_le_value_bytes(bytes.skip(1));
        let v = le_value(bytes);
        assert(v % 256 == bytes[0] as nat);
        assert(v / 256 == le_value(bytes.skip(1)));
        assert(le_bytes(v, bytes.len()) =~= bytes);
    } else {
        assert(bytes =~= Seq::empty());
    }
}

/// Two different byte sequences of one length are different numbers.
pub proof fn lemma_le_value_injective(a: Seq<u8>, b: Seq<u8>)
    requires
        a.len() == b.len(),
        le_value(a) == le_value(b),
    ensures
        a == b,
{
    lemma_le_value_bytes(a);
    lemma_le_value_bytes(b);
}

/// A 32-bit field round-trips.
pub proof fn lemma_le_u32(value: u32)
    ensures
        le_bytes(value as nat, 4).len() == 4,
        le_value(le_bytes(value as nat, 4)) == value,
{
    lemma_pow256();
    lemma_le_bytes_len(value as nat, 4);
    lemma_le_round_trip(value as nat, 4);
}

/// A 64-bit field round-trips.
pub proof fn lemma_le_u64(value: u64)
    ensures
        le_bytes(value as nat, 8).len() == 8,
        le_value(le_bytes(value as nat, 8)) == value,
{
    lemma_pow256();
    lemma_le_bytes_len(value as nat, 8);
    lemma_le_round_trip(value as nat, 8);
}

fn get_le(buf: &[u8], at: usize, width: usize) -> (value: u64)
    requires
        width <= 8,
        at + width <= buf@.len(),
    ensures
        value == field(buf@, at as int, at + width),
{
    proof {
        reveal(le_value);
    }
    let ghost bytes = buf@.subrange(at as int, at + width);
    let mut value: u64 = 0;
    let mut left: usize = width;
    proof {
        lemma_pow256();
        assert(bytes.skip(width as int) =~= Seq::empty());
    }
    while left > 0
        invariant
            left <= width <= 8,
            at + width <= buf.len(),
            bytes == buf@.subrange(at as int, at + width),
            value == le_value(bytes.skip(left as int)),
        decreases left,
    {
        proof {
            reveal(le_value);
            let rest = bytes.skip(left as int);
            let more = bytes.skip(left - 1);
            assert(more.skip(1) =~= rest);
            lemma_le_value_bound(more);
            lemma_pow256_monotone(more.len(), 8);
            lemma_pow256();
        }
        left -= 1;
        value = value * 256 + buf[at + left] as u64;
    }
    assert(bytes.skip(0) =~= bytes);
    value
}

proof fn lemma_pow256_monotone(a: nat, b: nat)
    requires
        a <= b,
    ensures
        pow256(a) <= pow256(b),
    decreases b,
{
    if a < b {
        lemma_pow256_monotone(a, (b - 1) as nat);
    }
}

/// Reads the 32-bit number at `at`.
pub fn get_u32(buf: &[u8], at: usize) -> (value: u32)
    requires
        at + 4 <= buf@.len(),
    ensures
        value == field(buf@, at as int, at + 4),
{
    proof {
        lemma_le_value_bound(buf@.subrange(at as int, at + 4));
        lemma_pow256();
    }
    get_le(buf, at, 4) as u32
}

/// Reads the 64-bit number at `at`.
pub fn get_u64(buf: &[u8], at: usize) -> (value: u64)
    requires
        at + 8 <= buf@.len(),
    ensures
        value == field(buf@, at as int, at + 8),
{
    get_le(buf, at, 8)
}

/// Whether the bytes of `buf` at `at` are `expected`.
pub fn matches_at(buf: &[u8], at: usize, expected: &[u8]) -> (same: bool)
    requires
        at + expected@.len() <= buf@.len(),
    ensures
        same == (buf@.subrange(at as int, at + expected@.len()) == expected@),
{
    let ghost found = buf@.subrange(at as int, at + expected@.len());
    let mut i: usize = 0;
    while i < expected.len()
        invariant
            i <= expected@.len(),
            at + expected@.len() <= buf.len(),
            found == buf@.subrange(at as int, at + expected@.len()),
            forall|j: int| 0 <= j < i ==> found[j] == expected@[j],
        decreases expected@.len() - i,
    {
        if buf[at + i] != expected[i] {
            assert(found[i as int] != expected@[i as int]);
            return false;
        }
        i += 1;
    }
    assert(found =~= expected@);
    true
}

/// Copies `src` into `buf` at `at`.
pub fn set_bytes(buf: &mut [u8], at: usize, src: &[u8])
    requires
        at + src@.len() <= old(buf)@.len(),
    ensures
        final(buf)@ == splice(old(buf)@, at as int, src@),
{
    let ghost before = buf@;
    let len: usize = buf.len();
    let mut i: usize = 0;
    assert(buf@ =~= splice(before, at as int, src@.take(0)));
    while i < src.len()
        invariant
            i <= src@.len(),
            at + src@.len() <= len == before.len(),
            buf@ == splice(before, at as int, src@.take(i as int)),
        decreases src@.len() - i,
    {
        buf[at + i] = src[i];
        i += 1;
        assert(buf@ =~= splice(before, at as int, src@.take(i as int)));
    }
    assert(src@.take(i as int) =~= src@);
}

/// Appends `src` to `out`.
pub fn push_bytes(out: &mut Vec<u8>, src: &[u8])
    ensures
        final(out)@ == old(out)@ + src@,
{
    out.extend_from_slice(src);
    assert(out@ =~= old(out)@ + src@);
}

fn push_le(out: &mut Vec<u8>, value: u64, width: usize)
    ensures
        final(out)@ == old(out)@ + le_bytes(value as nat, width as nat),
{
    proof {
        reveal(le_bytes);
    }
    let ghost before = out@;
    let mut rest: u64 = value;
    let mut left: usize = width;
    assert(out@ + le_bytes(rest as nat, left as nat) =~= before + le_bytes(
        value as nat,
        width as nat,
    ));
    while left > 0
        invariant
            left <= width,
            out@ + le_bytes(rest as nat, left as nat) == before + le_bytes(
                value as nat,
                width as nat,
            ),
        decreases left,
    {
        let ghost written = out@;
        out.push((rest % 256) as u8);
        proof {
            reveal(le_bytes);
        }
        assert(out@ + le_bytes((rest / 256) as nat, (left - 1) as nat) =~= written + le_bytes(
            rest as nat,
            left as nat,
        ));
        rest = rest / 256;
        left -= 1;
    }
    assert(out@ + le_bytes(rest as nat, 0) =~= out@);
}

/// Appends a 32-bit number to `out`.
pub fn push_u32(out: &mut Vec<u8>, value: u32)
    ensures
        final(out)@ == old(out)@ + le_bytes(value as nat, 4),
{
    push_le(out, value as u64, 4);
}

/// Appends a 64-bit number to `out`.
pub fn push_u64(out: &mut Vec<u8>, value: u64)
    ensures
        final(out)@ == old(out)@ + le_bytes(value as nat, 8),
{
    push_le(out, value, 8);
}

/// Writes a 32-bit number into `buf` at `at`.
pub fn set_u32(buf: &mut [u8], at: usize, value: u32)
    requires
        at + 4 <= old(buf)@.len(),
    ensures
        final(buf)@ == splice(old(buf)@, at as int, le_bytes(value as nat, 4)),
{
    let mut encoded: Vec<u8> = Vec::new();
    push_u32(&mut encoded, value);
    proof {
        lemma_le_bytes_len(value as nat, 4);
    }
    assert(encoded@ =~= le_bytes(value as nat, 4));
    set_bytes(buf, at, encoded.as_slice());
}

/// Writes a 64-bit number into `buf` at `at`.
pub fn set_u64(buf: &mut [u8], at: usize, value: u64)
    requires
        at + 8 <= old(buf)@.len(),
    ensures
        final(buf)@ == splice(old(buf)@, at as int, le_bytes(value as nat, 8)),
{
    let mut encoded: Vec<u8> = Vec::new();
    push_u64(&mut encoded, value);
    proof {
        lemma_le_bytes_len(value as nat, 8);
    }
    assert(encoded@ =~= le_bytes(value as nat, 8));
    set_bytes(buf, at, encoded.as_slice());
}

/// A 32-bit number is stored with its lowest byte first.
pub proof fn lemma_u32_layout(value: u32)
    ensures
        le_bytes(value as nat, 4) == seq![
            (value % 256) as u8,
            ((value / 0x100) % 256) as u8,
            ((value / 0x1_0000) % 256) as u8,
            (value / 0x100_0000) as u8,
        ],
{
    reveal_with_fuel(le_bytes, 5);
    assert(le_bytes(value as nat, 4) =~= seq![
        (value % 256) as u8,
        ((value / 0x100) % 256) as u8,
        ((value / 0x1_0000) % 256) as u8,
        (value / 0x100_0000) as u8,
    ]);
}

/// A 64-bit number is stored as its lower half and then its upper half.
pub proof fn lemma_u64_layout(value: u64)
    ensures
        le_bytes(value as nat, 8) == le_bytes((value % 0x1_0000_0000) as nat, 4) + le_bytes(
            (value / 0x1_0000_0000) as nat,
            4,
        ),
{
    reveal_with_fuel(le_bytes, 9);
    let low = (value % 0x1_0000_0000) as nat;
    let high = (value / 0x1_0000_0000) as nat;
    assert(value == high * 0x1_0000_0000 + low);
    assert(le_bytes(value as nat, 8) =~= le_bytes(low, 4) + le_bytes(high, 4));
}

/// What is read is the sum of the bytes, each of them worth 256 times the one
/// before it.
pub proof fn lemma_u32_value(bytes: Seq<u8>)
    requires
        bytes.len() == 4,
    ensures
        le_value(bytes) == bytes[0] + 0x100 * bytes[1] + 0x1_0000 * bytes[2] + 0x100_0000
            * bytes[3],
{
    reveal_with_fuel(le_value, 5);
    assert(bytes.skip(1)[0] == bytes[1]);
    assert(bytes.skip(1).skip(1)[0] == bytes[2]);
    assert(bytes.skip(1).skip(1).skip(1)[0] == bytes[3]);
}

/// Writing bytes over a part of others leaves the rest as it was.
pub proof fn lemma_splice(bytes: Seq<u8>, at: int, patch: Seq<u8>, i: int)
    requires
        0 <= at,
        at + patch.len() <= bytes.len(),
        0 <= i < bytes.len(),
    ensures
        splice(bytes, at, patch).len() == bytes.len(),
        splice(bytes, at, patch).subrange(at, at + patch.len()) == patch,
        i < at || at + patch.len() <= i ==> splice(bytes, at, patch)[i] == bytes[i],
{
    assert(splice(bytes, at, patch).subrange(at, at + patch.len()) =~= patch);
}

} // verus!
