//! Stored entries: a fixed header, the key and the value.

use vstd::prelude::*;

use crate::checksum::{blake3_hash, compute_blake3, compute_crc32_iso_hdlc, crc32_iso_hdlc};
use crate::model::{valid_key, EntryKey, MAX_KEY_SIZE};
use crate::wire::{
    changed_only, copy_range, get_u128, get_u16, get_u32, is_zero_range, put_u16, put_u32, same_bytes, u128_at,
    u16_at, u32_at, zero_range, zeroed,
};

verus! {

pub const PAGE_SIZE: usize = 4096;

pub const DEFAULT_SLOT_SIZE: usize = 65536;

const STORED_ENTRY_VERSION: u8 = 1;

pub const STORED_ENTRY_HEADER_SIZE: usize = 16;

/// `header` describes an entry of `key_len` key bytes and `value_len` value
/// bytes: the magic `SCBL`, the version, a zero byte, the key length in 16 bits,
/// the value length in 32 bits, and four zero bytes.
pub open spec fn is_header(header: Seq<u8>, key_len: nat, value_len: nat) -> bool {
    &&& header.len() == 16
    &&& header[0] == 0x53
    &&& header[1] == 0x43
    &&& header[2] == 0x42
    &&& header[3] == 0x4c
    &&& header[4] == 1
    &&& header[5] == 0
    &&& u16_at(header, 6) == key_len
    &&& u32_at(header, 8) == value_len
    &&& zero_range(header, 12, 16)
}

/// `stored` is the stored form of the entry: its header, its key, its value.
pub open spec fn is_stored_entry(stored: Seq<u8>, key: Seq<u8>, value: Seq<u8>) -> bool {
    &&& stored.len() == 16 + key.len() + value.len()
    &&& is_header(stored.subrange(0, 16), key.len(), value.len())
    &&& stored.subrange(16, 16int + key.len()) == key
    &&& stored.subrange(16int + key.len(), stored.len() as int) == value
}

/// The length of a stored entry, where each length fits its header field and the
/// total fits 32 bits.
pub open spec fn stored_len(key_len: nat, value_len: nat) -> Option<nat> {
    if key_len <= u16::MAX && value_len <= u32::MAX && 16 + key_len + value_len <= u32::MAX {
        Some(16 + key_len + value_len)
    } else {
        None
    }
}

/// The stored form of an entry is unique.
pub proof fn lemma_stored_entry_unique(a: Seq<u8>, b: Seq<u8>, key: Seq<u8>, value: Seq<u8>)
    requires
        is_stored_entry(a, key, value),
        is_stored_entry(b, key, value),
    ensures
        a == b,
{
    let x = a.subrange(0, 16);
    let y = b.subrange(0, 16);
    crate::wire::lemma_u16_at_injective(x, y, 6);
    crate::wire::lemma_u32_at_injective(x, y, 8);
    assert(zero_range(x, 12, 16) && zero_range(y, 12, 16));
    assert forall|i: int| 0 <= i < 16 implies x[i] == y[i] by {
        if i >= 12 {
            assert(x[i] == 0 && y[i] == 0);
        }
    }
    assert(x =~= y);
    assert(a =~= x + key + value);
    assert(b =~= y + key + value);
}

/// An entry whose lengths fit their fields has a stored form.
pub proof fn lemma_stored_entry_exists(key: Seq<u8>, value: Seq<u8>) -> (stored: Seq<u8>)
    requires
        stored_len(key.len(), value.len()) is Some,
    ensures
        is_stored_entry(stored, key, value),
{
    let k = key.len();
    let v = value.len();
    let header = seq![
        0x53u8,
        0x43u8,
        0x42u8,
        0x4cu8,
        1u8,
        0u8,
        (k % 256) as u8,
        (k / 256) as u8,
        (v % 256) as u8,
        (v / 256 % 256) as u8,
        (v / 65536 % 256) as u8,
        (v / 16777216) as u8,
        0u8,
        0u8,
        0u8,
        0u8,
    ];
    let stored = header + key + value;
    assert(stored.subrange(0, 16) =~= header);
    assert(stored.subrange(16, 16int + k) =~= key);
    assert(stored.subrange(16int + k, stored.len() as int) =~= value);
    assert(u16_at(header, 6) == k);
    assert(u32_at(header, 8) == v);
    stored
}

/// A stored form holds one key and one value.
pub proof fn law_stored_entry_is_unambiguous(
    stored: Seq<u8>,
    key: Seq<u8>,
    value: Seq<u8>,
    other_key: Seq<u8>,
    other_value: Seq<u8>,
)
    requires
        is_stored_entry(stored, key, value),
        is_stored_entry(stored, other_key, other_value),
    ensures
        key == other_key,
        value == other_value,
{
}

/// The CRC-32 of a value.
pub fn value_checksum(value: &[u8]) -> (checksum: u32)
    ensures
        checksum == crc32_iso_hdlc(value@),
{
    compute_crc32_iso_hdlc(value)
}

/// The length of the stored form of an entry, if its lengths fit their fields.
pub fn stored_entry_len(key: &EntryKey, value: &[u8]) -> (len: Option<usize>)
    ensures
        match len {
            Some(len) => stored_len(key@.len(), value@.len()) == Some(len as nat),
            None => stored_len(key@.len(), value@.len()) is None,
        },
{
    let key_len = key.len();
    let value_len = value.len();
    if key_len > 0xffff || value_len > 0xffff_ffff {
        return None;
    }
    let prefix = STORED_ENTRY_HEADER_SIZE + key_len;
    let len = match prefix.checked_add(value_len) {
        Some(len) => len,
        None => return None,
    };
    if len > 0xffff_ffff {
        return None;
    }
    Some(len)
}

/// The header of an entry.
fn stored_entry_header(key: &EntryKey, value: &[u8]) -> (header: Vec<u8>)
    requires
        stored_len(key@.len(), value@.len()) is Some,
    ensures
        is_header(header@, key@.len(), value@.len()),
{
    let mut header = zeroed(STORED_ENTRY_HEADER_SIZE);
    header[0] = 0x53;
    header[1] = 0x43;
    header[2] = 0x42;
    header[3] = 0x4c;
    header[4] = STORED_ENTRY_VERSION;
    put_u16(&mut header, 6, key.len() as u16);
    put_u32(&mut header, 8, value.len() as u32);
    header
}

/// The whole stored form of an entry.
pub fn stored_entry(key: &EntryKey, value: &[u8]) -> (stored: Vec<u8>)
    requires
        stored_len(key@.len(), value@.len()) is Some,
    ensures
        is_stored_entry(stored@, key@, value@),
{
    let mut stored = stored_entry_header(key, value);
    let ghost header = stored@;
    let mut key_bytes = copy_range(key.as_bytes(), 0, key.len());
    let mut value_bytes = copy_range(value, 0, value.len());
    stored.append(&mut key_bytes);
    stored.append(&mut value_bytes);
    assert(key@.subrange(0, key@.len() as int) =~= key@);
    assert(value@.subrange(0, value@.len() as int) =~= value@);
    assert(stored@ =~= header + key@ + value@);
    assert(stored@.subrange(0, 16) =~= header);
    assert(stored@.subrange(16, 16int + key@.len()) =~= key@);
    assert(stored@.subrange(16int + key@.len(), stored@.len() as int) =~= value@);
    stored
}

/// The CRC-32 of the stored form of an entry.
pub fn stored_entry_checksum(key: &EntryKey, value: &[u8]) -> (checksum: u32)
    requires
        stored_len(key@.len(), value@.len()) is Some,
    ensures
        forall|stored: Seq<u8>| #[trigger]
            is_stored_entry(stored, key@, value@) ==> checksum == crc32_iso_hdlc(stored),
{
    let stored = stored_entry(key, value);
    proof {
        assert forall|other: Seq<u8>| #[trigger] is_stored_entry(other, key@, value@) implies other == stored@ by {
            lemma_stored_entry_unique(other, stored@, key@, value@);
        }
    }
    compute_crc32_iso_hdlc(stored.as_slice())
}

/// Copies the bytes `start..start + len` of the stored form into
/// `output[at..at + len]`. Returns false, and leaves `output` as it is, where the
/// entry has no stored form or the range reaches past its end.
pub fn copy_stored_entry_range(
    key: &EntryKey,
    value: &[u8],
    start: usize,
    output: &mut Vec<u8>,
    at: usize,
    len: usize,
) -> (copied: bool)
    requires
        at + len <= old(output)@.len(),
    ensures
        copied == (stored_len(key@.len(), value@.len()) matches Some(total) && start + len <= total),
        !copied ==> final(output)@ == old(output)@,
        copied ==> changed_only(old(output)@, final(output)@, at as int, at + len),
        copied ==> forall|stored: Seq<u8>| #[trigger]
            is_stored_entry(stored, key@, value@) ==> final(output)@.subrange(at as int, at + len)
                == stored.subrange(start as int, start + len),
{
    let end = match start.checked_add(len) {
        Some(end) => end,
        None => return false,
    };
    let total = match stored_entry_len(key, value) {
        Some(total) => total,
        None => return false,
    };
    if end > total {
        return false;
    }
    assert(output.len() == output@.len());
    let header = stored_entry_header(key, value);
    let key_bytes = key.as_bytes();
    let key_end = STORED_ENTRY_HEADER_SIZE + key_bytes.len();
    let ghost before = output@;
    let ghost whole = header@ + key@ + value@;
    let mut i: usize = 0;
    while i < len
        invariant
            i <= len,
            end == start + len,
            end <= total,
            total == 16 + key@.len() + value@.len(),
            key_bytes@ == key@,
            key_end == 16 + key@.len(),
            header@.len() == 16,
            at + len <= output@.len() <= usize::MAX,
            whole == header@ + key@ + value@,
            changed_only(before, output@, at as int, at + i),
            forall|k: int| 0 <= k < i ==> output@[at + k] == #[trigger] whole[start + k],
        decreases len - i,
    {
        let position = start + i;
        let byte = if position < STORED_ENTRY_HEADER_SIZE {
            header[position]
        } else if position < key_end {
            key_bytes[position - STORED_ENTRY_HEADER_SIZE]
        } else {
            value[position - key_end]
        };
        assert(byte == whole[position as int]);
        output[at + i] = byte;
        i = i + 1;
    }
    proof {
        assert(whole.subrange(0, 16) =~= header@);
        assert(whole.subrange(16, 16int + key@.len()) =~= key@);
        assert(whole.subrange(16int + key@.len(), whole.len() as int) =~= value@);
        assert(is_stored_entry(whole, key@, value@));
        assert(output@.subrange(at as int, at + len) =~= whole.subrange(start as int, start + len)) by {
            assert forall|k: int| 0 <= k < len implies #[trigger] output@.subrange(at as int, at + len)[k]
                == whole.subrange(start as int, start + len)[k] by {
                assert(output@[at + k] == whole[start + k]);
            }
        }
        assert forall|stored: Seq<u8>| #[trigger] is_stored_entry(stored, key@, value@) implies stored == whole by {
            lemma_stored_entry_unique(stored, whole, key@, value@);
        }
    }
    true
}

/// `stored` begins with a header that its own length bears out: a key of at most
/// `MAX_KEY_SIZE` bytes and at least one value byte.
pub open spec fn stored_lengths(stored: Seq<u8>, key_len: nat, value_len: nat) -> bool {
    &&& stored.len() == 16 + key_len + value_len
    &&& is_header(stored.subrange(0, 16), key_len, value_len)
    &&& key_len <= MAX_KEY_SIZE
    &&& value_len > 0
}

/// Reads the two lengths out of a stored entry.
fn decode_stored_entry_header(stored: &[u8]) -> (lengths: Option<(usize, usize)>)
    ensures
        match lengths {
            Some((key_len, value_len)) => stored_lengths(stored@, key_len as nat, value_len as nat),
            None => forall|key_len: nat, value_len: nat| !stored_lengths(stored@, key_len, value_len),
        },
{
    let ghost header = stored@.subrange(0, 16);
    if stored.len() < STORED_ENTRY_HEADER_SIZE {
        return None;
    }
    assert(forall|i: int| 0 <= i < 16 ==> header[i] == stored@[i]);
    if stored[0] != 0x53 || stored[1] != 0x43 || stored[2] != 0x42 || stored[3] != 0x4c || stored[4]
        != STORED_ENTRY_VERSION || stored[5] != 0 {
        return None;
    }
    if !is_zero_range(stored, 12, 16) {
        proof {
            let i = choose|i: int| 12 <= i < 16 && stored@[i] != 0;
            assert(header[i] != 0);
        }
        return None;
    }
    let key_len = get_u16(stored, 6) as usize;
    let value_len = get_u32(stored, 8);
    assert(u16_at(header, 6) == u16_at(stored@, 6));
    assert(u32_at(header, 8) == u32_at(stored@, 8));
    if key_len > MAX_KEY_SIZE || value_len == 0 {
        return None;
    }
    if (stored.len() - STORED_ENTRY_HEADER_SIZE) as u64 != key_len as u64 + value_len as u64 {
        return None;
    }
    Some((key_len, value_len as usize))
}

/// The value of a stored entry whose key is `expected_key`.
pub fn decode_entry_value(stored: Vec<u8>, expected_key: &EntryKey) -> (value: Option<Vec<u8>>)
    ensures
        match value {
            Some(value) => is_stored_entry(stored@, expected_key@, value@) && value@.len() > 0
                && expected_key@.len() <= MAX_KEY_SIZE,
            None => forall|value: Seq<u8>| #[trigger]
                is_stored_entry(stored@, expected_key@, value) ==> value.len() == 0 || expected_key@.len()
                    > MAX_KEY_SIZE,
        },
{
    let (key_len, value_len) = match decode_stored_entry_header(stored.as_slice()) {
        Some(lengths) => lengths,
        None => {
            proof {
                assert forall|value: Seq<u8>| #[trigger]
                    is_stored_entry(stored@, expected_key@, value) implies value.len() == 0
                    || expected_key@.len() > MAX_KEY_SIZE by {
                    assert(!stored_lengths(stored@, expected_key@.len(), value.len()));
                }
            }
            return None;
        },
    };
    let value_offset = STORED_ENTRY_HEADER_SIZE + key_len;
    let key_bytes = copy_range(stored.as_slice(), STORED_ENTRY_HEADER_SIZE, value_offset);
    if !same_bytes(key_bytes.as_slice(), expected_key.as_bytes()) {
        return None;
    }
    Some(copy_range(stored.as_slice(), value_offset, stored.len()))
}

/// The key and value of a stored entry.
pub fn decode_stored_entry(stored: Vec<u8>) -> (entry: Option<(EntryKey, Vec<u8>)>)
    ensures
        match entry {
            Some((key, value)) => is_stored_entry(stored@, key@, value@) && valid_key(key@) && value@.len() > 0,
            None => forall|key: Seq<u8>, value: Seq<u8>| #[trigger]
                is_stored_entry(stored@, key, value) ==> !valid_key(key) || value.len() == 0,
        },
{
    let (key_len, value_len) = match decode_stored_entry_header(stored.as_slice()) {
        Some(lengths) => lengths,
        None => {
            proof {
                assert forall|key: Seq<u8>, value: Seq<u8>| #[trigger]
                    is_stored_entry(stored@, key, value) implies !valid_key(key) || value.len() == 0 by {
                    assert(!stored_lengths(stored@, key.len(), value.len()));
                }
            }
            return None;
        },
    };
    let value_offset = STORED_ENTRY_HEADER_SIZE + key_len;
    let key_bytes = copy_range(stored.as_slice(), STORED_ENTRY_HEADER_SIZE, value_offset);
    let key = match EntryKey::new(key_bytes.as_slice()) {
        Ok(key) => key,
        Err(_) => return None,
    };
    let value = copy_range(stored.as_slice(), value_offset, stored.len());
    Some((key, value))
}

/// A digest of a value, which tells apart values whose checksums collide.
#[derive(Debug, Clone, Copy, PartialEq, Eq, Hash, Structural)]
pub struct ContentDigest {
    pub word: u128,
}

/// The digest of a value: the first 16 bytes of its hash, as a number.
pub open spec fn content_digest(value: Seq<u8>) -> ContentDigest {
    ContentDigest { word: u128_at(blake3_hash(value), 0) as u128 }
}

/// The digest of a value.
pub fn value_digest(value: &[u8]) -> (digest: ContentDigest)
    ensures
        digest == content_digest(value@),
{
    let hash = compute_blake3(value);
    ContentDigest { word: get_u128(hash.as_slice(), 0) }
}

/// The value in a stored entry, whatever its key.
pub open spec fn stored_value(stored: Seq<u8>, value: Seq<u8>) -> bool {
    exists|key: Seq<u8>|
        #[trigger] is_stored_entry(stored, key, value) && key.len() <= MAX_KEY_SIZE && value.len() > 0
}

/// The digest of the value in a stored entry.
pub fn encoded_entry_value_digest(stored: &[u8]) -> (digest: Option<ContentDigest>)
    ensures
        match digest {
            Some(digest) => exists|value: Seq<u8>| #[trigger]
                stored_value(stored@, value) && digest == content_digest(value),
            None => forall|value: Seq<u8>| !(#[trigger] stored_value(stored@, value)),
        },
{
    let (key_len, value_len) = match decode_stored_entry_header(stored) {
        Some(lengths) => lengths,
        None => {
            proof {
                assert forall|value: Seq<u8>| !(#[trigger] stored_value(stored@, value)) by {
                    if stored_value(stored@, value) {
                        let key = choose|key: Seq<u8>|
                            #[trigger] is_stored_entry(stored@, key, value) && key.len() <= MAX_KEY_SIZE
                                && value.len() > 0;
                        assert(!stored_lengths(stored@, key.len(), value.len()));
                    }
                }
            }
            return None;
        },
    };
    let value_offset = STORED_ENTRY_HEADER_SIZE + key_len;
    let value = copy_range(stored, value_offset, stored.len());
    proof {
        let key = stored@.subrange(16, value_offset as int);
        assert(is_stored_entry(stored@, key, value@));
        assert(stored_value(stored@, value@));
    }
    Some(value_digest(value.as_slice()))
}

/// A stored entry holds one value, so that its digest is that of the value written.
pub proof fn law_stored_digest_is_the_digest_of_the_value(
    stored: Seq<u8>,
    key: Seq<u8>,
    value: Seq<u8>,
    other: Seq<u8>,
)
    requires
        is_stored_entry(stored, key, value),
        stored_value(stored, other),
    ensures
        other == value,
{
    let k = choose|k: Seq<u8>|
        #[trigger] is_stored_entry(stored, k, other) && k.len() <= MAX_KEY_SIZE && other.len() > 0;
    law_stored_entry_is_unambiguous(stored, key, value, k, other);
}

/// A stored entry takes sixteen bytes, its key and its value, where each length fits its
/// field and all of it fits 32 bits.
pub proof fn law_stored_entries_take_what_they_hold(key: Seq<u8>, value: Seq<u8>, stored: Seq<u8>)
    requires
        is_stored_entry(stored, key, value),
    ensures
        stored.len() == 16 + key.len() + value.len(),
        stored.subrange(16, 16 + key.len() as int) == key,
        stored.subrange(16 + key.len() as int, stored.len() as int) == value,
        stored_len(key.len(), value.len()) is Some <==> key.len() <= 0xffff && stored.len() <= 0xffff_ffff,
        stored_len(key.len(), value.len()) is Some ==> stored_len(key.len(), value.len()) == Some(stored.len()),
{
}

} // verus!
