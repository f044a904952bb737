//! Little-endian fields of byte images.

use vstd::prelude::*;

verus! {

/// The unsigned 16-bit little-endian number at `offset`.
pub open spec fn u16_at(bytes: Seq<u8>, offset: int) -> nat {
    (bytes[offset] + 256 * bytes[offset + 1]) as nat
}

/// The unsigned 32-bit little-endian number at `offset`.
pub open spec fn u32_at(bytes: Seq<u8>, offset: int) -> nat {
    u16_at(bytes, offset) + 0x1_0000 * u16_at(bytes, offset + 2)
}

/// The unsigned 64-bit little-endian number at `offset`.
pub open spec fn u64_at(bytes: Seq<u8>, offset: int) -> nat {
    u32_at(bytes, offset) + 0x1_0000_0000 * u32_at(bytes, offset + 4)
}

/// `after` differs from `before` at most in `[from, to)`.
pub open spec fn changed_only(before: Seq<u8>, after: Seq<u8>, from: int, to: int) -> bool {
    &&& after.len() == before.len()
    &&& forall|i: int| 0 <= i < before.len() && !(from <= i < to) ==> #[trigger] after[i] == before[i]
}

/// Every byte of `[from, to)` is zero.
pub open spec fn zero_range(bytes: Seq<u8>, from: int, to: int) -> bool {
    forall|i: int| from <= i < to ==> #[trigger] bytes[i] == 0
}

pub proof fn lemma_u16_at_injective(a: Seq<u8>, b: Seq<u8>, i: int)
    requires
        u16_at(a, i) == u16_at(b, i),
    ensures
        a[i] == b[i],
        a[i + 1] == b[i + 1],
{
}

pub proof fn lemma_u32_at_injective(a: Seq<u8>, b: Seq<u8>, i: int)
    requires
        u32_at(a, i) == u32_at(b, i),
    ensures
        a[i] == b[i],
        a[i + 1] == b[i + 1],
        a[i + 2] == b[i + 2],
        a[i + 3] == b[i + 3],
{
}

pub proof fn lemma_u64_at_injective(a: Seq<u8>, b: Seq<u8>, i: int)
    requires
        u64_at(a, i) == u64_at(b, i),
    ensures
        forall|k: int| i <= k < i + 8 ==> a[k] == b[k],
{
    lemma_u32_at_injective(a, b, i);
    lemma_u32_at_injective(a, b, i + 4);
}

/// Reads the 16-bit number at `offset`.
pub fn get_u16(bytes: &[u8], offset: usize) -> (value: u16)
    requires
        offset + 2 <= bytes@.len(),
    ensures
        value == u16_at(bytes@, offset as int),
{
    assert(bytes.len() == bytes@.len());
    bytes[offset] as u16 + 256 * (bytes[offset + 1] as u16)
}

/// Reads the 32-bit number at `offset`.
pub fn get_u32(bytes: &[u8], offset: usize) -> (value: u32)
    requires
        offset + 4 <= bytes@.len(),
    ensures
        value == u32_at(bytes@, offset as int),
{
    assert(bytes.len() == bytes@.len());
    get_u16(bytes, offset) as u32 + 0x1_0000 * (get_u16(bytes, offset + 2) as u32)
}

/// Reads the 64-bit number at `offset`.
pub fn get_u64(bytes: &[u8], offset: usize) -> (value: u64)
    requires
        offset + 8 <= bytes@.len(),
    ensures
        value == u64_at(bytes@, offset as int),
{
    assert(bytes.len() == bytes@.len());
    get_u32(bytes, offset) as u64 + 0x1_0000_0000 * (get_u32(bytes, offset + 4) as u64)
}

/// The unsigned 128-bit little-endian number at `offset`.
pub open spec fn u128_at(bytes: Seq<u8>, offset: int) -> nat {
    u64_at(bytes, offset) + 0x1_0000_0000_0000_0000 * u64_at(bytes, offset + 8)
}

/// Reads the 128-bit number at `offset`.
pub fn get_u128(bytes: &[u8], offset: usize) -> (value: u128)
    requires
        offset + 16 <= bytes@.len(),
    ensures
        value == u128_at(bytes@, offset as int),
{
    assert(bytes.len() == bytes@.len());
    get_u64(bytes, offset) as u128 + 0x1_0000_0000_0000_0000 * (get_u64(bytes, offset + 8) as u128)
}

/// Writes the 16-bit number at `offset`.
pub fn put_u16(bytes: &mut Vec<u8>, offset: usize, value: u16)
    requires
        offset + 2 <= old(bytes)@.len(),
    ensures
        u16_at(final(bytes)@, offset as int) == value,
        changed_only(old(bytes)@, final(bytes)@, offset as int, offset + 2),
{
    assert(bytes.len() == bytes@.len());
    bytes[offset] = (value % 256) as u8;
    bytes[offset + 1] = (value / 256) as u8;
}

/// Writes the 32-bit number at `offset`.
pub fn put_u32(bytes: &mut Vec<u8>, offset: usize, value: u32)
    requires
        offset + 4 <= old(bytes)@.len(),
    ensures
        u32_at(final(bytes)@, offset as int) == value,
        changed_only(old(bytes)@, final(bytes)@, offset as int, offset + 4),
{
    assert(bytes.len() == bytes@.len());
    put_u16(bytes, offset, (value % 0x1_0000) as u16);
    put_u16(bytes, offset + 2, (value / 0x1_0000) as u16);
}

/// Writes the 64-bit number at `offset`.
pub fn put_u64(bytes: &mut Vec<u8>, offset: usize, value: u64)
    requires
        offset + 8 <= old(bytes)@.len(),
    ensures
        u64_at(final(bytes)@, offset as int) == value,
        changed_only(old(bytes)@, final(bytes)@, offset as int, offset + 8),
{
    assert(bytes.len() == bytes@.len());
    put_u32(bytes, offset, (value % 0x1_0000_0000) as u32);
    put_u32(bytes, offset + 4, (value / 0x1_0000_0000) as u32);
}

/// A vector of `len` zero bytes.
pub fn zeroed(len: usize) -> (bytes: Vec<u8>)
    ensures
        bytes@.len() == len,
        zero_range(bytes@, 0, len as int),
{
    vec![0u8; len]
}

/// A copy of `source[from..to]`.
pub fn copy_range(source: &[u8], from: usize, to: usize) -> (bytes: Vec<u8>)
    requires
        from <= to <= source@.len(),
    ensures
        bytes@ == source@.subrange(from as int, to as int),
{
    let mut bytes: Vec<u8> = Vec::with_capacity(to - from);
    let mut i: usize = from;
    while i < to
        invariant
            from <= i <= to <= source@.len(),
            bytes@ == source@.subrange(from as int, i as int),
        decreases to - i,
    {
        bytes.push(source[i]);
        i = i + 1;
    }
    bytes
}

/// Overwrites `target[at..at + source.len()]` with `source`.
pub fn write_at(target: &mut Vec<u8>, at: usize, source: &[u8])
    requires
        at + source@.len() <= old(target)@.len(),
    ensures
        changed_only(old(target)@, final(target)@, at as int, at + source@.len()),
        final(target)@.subrange(at as int, at + source@.len()) == source@,
{
    assert(target.len() == target@.len());
    let ghost before = target@;
    let mut i: usize = 0;
    while i < source.len()
        invariant
            i <= source@.len(),
            at + source@.len() <= target@.len(),
            target@.len() == before.len() <= usize::MAX,
            changed_only(before, target@, at as int, at + i),
            forall|k: int| 0 <= k < i ==> target@[at + k] == #[trigger] source@[k],
        decreases source@.len() - i,
    {
        target[at + i] = source[i];
        i = i + 1;
    }
}

/// Whether two byte slices are equal.
pub fn same_bytes(a: &[u8], b: &[u8]) -> (same: bool)
    ensures
        same == (a@ == b@),
{
    if a.len() != b.len() {
        return false;
    }
    let mut i: usize = 0;
    while i < a.len()
        invariant
            i <= a@.len(),
            a@.len() == b@.len(),
            forall|k: int| 0 <= k < i ==> a@[k] == b@[k],
        decreases a@.len() - i,
    {
        if a[i] != b[i] {
            return false;
        }
        i = i + 1;
    }
    assert(a@ =~= b@);
    true
}

/// Whether `bytes[from..to]` is all zero.
pub fn is_zero_range(bytes: &[u8], from: usize, to: usize) -> (zero: bool)
    requires
        from <= to <= bytes@.len(),
    ensures
        zero == zero_range(bytes@, from as int, to as int),
{
    let mut i: usize = from;
    while i < to
        invariant
            from <= i <= to <= bytes@.len(),
            zero_range(bytes@, from as int, i as int),
        decreases to - i,
    {
        if bytes[i] != 0 {
            return false;
        }
        i = i + 1;
    }
    true
}

} // verus!
