//! Keys, key digests and priorities.

use vstd::prelude::*;

use crate::checksum::{blake3_hash, compute_blake3};
use crate::error::Error;
use crate::wire::copy_range;

verus! {

pub const MAX_KEY_SIZE: usize = 1024;

/// The key of an entry: at least one byte, at most `MAX_KEY_SIZE` bytes, except
/// for the empty default.
#[derive(Debug, PartialEq, Eq, Hash)]
pub struct EntryKey {
    bytes: Vec<u8>,
}

impl View for EntryKey {
    type V = Seq<u8>;

    closed spec fn view(&self) -> Seq<u8> {
        self.bytes@
    }
}

/// Whether `bytes` can be a key.
pub open spec fn valid_key(bytes: Seq<u8>) -> bool {
    0 < bytes.len() <= MAX_KEY_SIZE
}

/// The outcome of validating key bytes.
pub open spec fn key_validation(bytes: Seq<u8>, result: Result<(), Error>) -> bool {
    match result {
        Ok(_) => valid_key(bytes),
        Err(Error::EmptyKey) => bytes.len() == 0,
        Err(Error::KeyTooLarge { len, maximum }) => len == bytes.len() && len > MAX_KEY_SIZE && maximum
            == MAX_KEY_SIZE,
        Err(_) => false,
    }
}

impl Default for EntryKey {
    fn default() -> (key: EntryKey)
        ensures
            key@ == Seq::<u8>::empty(),
    {
        EntryKey { bytes: Vec::new() }
    }
}

impl EntryKey {
    /// Copies `bytes` into a key.
    pub fn new(bytes: &[u8]) -> (result: Result<EntryKey, Error>)
        ensures
            match result {
                Ok(key) => valid_key(bytes@) && key@ == bytes@,
                Err(error) => !valid_key(bytes@) && key_validation(bytes@, Err(error)),
            },
    {
        match Self::validate(bytes) {
            Ok(_) => Ok(EntryKey { bytes: copy_range(bytes, 0, bytes.len()) }),
            Err(error) => Err(error),
        }
    }

    /// Checks the length of a key.
    pub fn validate(bytes: &[u8]) -> (result: Result<(), Error>)
        ensures
            key_validation(bytes@, result),
    {
        if bytes.len() == 0 {
            return Err(Error::EmptyKey);
        }
        if bytes.len() > MAX_KEY_SIZE {
            return Err(Error::KeyTooLarge { len: bytes.len(), maximum: MAX_KEY_SIZE });
        }
        Ok(())
    }

    /// The key's bytes.
    pub fn as_bytes(&self) -> (bytes: &[u8])
        ensures
            bytes@ == self@,
    {
        self.bytes.as_slice()
    }

    /// The number of bytes.
    pub fn len(&self) -> (len: usize)
        ensures
            len == self@.len(),
    {
        self.bytes.len()
    }

}

impl Clone for EntryKey {
    fn clone(&self) -> (key: EntryKey)
        ensures
            key@ == self@,
    {
        EntryKey { bytes: copy_range(self.bytes.as_slice(), 0, self.bytes.len()) }
    }
}

/// The first 24 bytes of a key's hash, which stand for the key in the index.
#[derive(Debug, Clone, Copy, PartialEq, Eq, Hash)]
pub struct KeyDigest {
    pub bytes: [u8; 24],
}

impl View for KeyDigest {
    type V = Seq<u8>;

    open spec fn view(&self) -> Seq<u8> {
        self.bytes@
    }
}

/// The digest that stands for a key.
pub open spec fn digest_of(key: Seq<u8>) -> Seq<u8> {
    blake3_hash(key).subrange(0, 24)
}

impl Default for KeyDigest {
    fn default() -> (digest: KeyDigest)
        ensures
            digest@ == Seq::new(24, |i: int| 0u8),
    {
        let digest = KeyDigest { bytes: [0u8; 24] };
        assert(digest@ =~= Seq::new(24, |i: int| 0u8));
        digest
    }
}

impl KeyDigest {
    /// The digest of a key.
    pub fn for_key(key: &EntryKey) -> (digest: KeyDigest)
        ensures
            digest@ == digest_of(key@),
    {
        let hash = compute_blake3(key.as_bytes());
        Self::from_slice(hash.as_slice(), 0)
    }

    /// The digest held in `bytes[at..at + 24]`.
    pub(crate) fn from_slice(bytes: &[u8], at: usize) -> (digest: KeyDigest)
        requires
            at + 24 <= bytes@.len(),
        ensures
            digest@ == bytes@.subrange(at as int, at + 24),
    {
        assert(bytes.len() == bytes@.len());
        let mut digest = [0u8; 24];
        let mut i: usize = 0;
        while i < 24
            invariant
                i <= 24,
                at + 24 <= bytes@.len() <= usize::MAX,
                forall|k: int| 0 <= k < i ==> digest@[k] == bytes@[at + k],
            decreases 24 - i,
        {
            digest[i] = bytes[at + i];
            i = i + 1;
        }
        let digest = KeyDigest { bytes: digest };
        assert(digest@ =~= bytes@.subrange(at as int, at + 24));
        digest
    }

    /// A digest with the given bytes.
    pub fn new(bytes: [u8; 24]) -> (digest: KeyDigest)
        ensures
            digest@ == bytes@,
    {
        KeyDigest { bytes }
    }

    /// The digest's bytes.
    pub fn as_bytes(&self) -> (bytes: &[u8; 24])
        ensures
            bytes@ == self@,
    {
        &self.bytes
    }

    /// Whether two digests are equal.
    pub fn same(&self, other: &KeyDigest) -> (same: bool)
        ensures
            same == (self@ == other@),
    {
        let mut i: usize = 0;
        while i < 24
            invariant
                i <= 24,
                forall|k: int| 0 <= k < i ==> self@[k] == other@[k],
            decreases 24 - i,
        {
            if self.bytes[i] != other.bytes[i] {
                return false;
            }
            i = i + 1;
        }
        assert(self@ =~= other@);
        true
    }
}

/// How much an entry is worth keeping.
#[derive(Debug, Clone, Copy, PartialEq, Eq, PartialOrd, Ord, Structural)]
pub enum CachePriority {
    Low,
    Normal,
    High,
}

impl Default for CachePriority {
    fn default() -> (priority: CachePriority)
        ensures
            priority == CachePriority::Normal,
    {
        CachePriority::Normal
    }
}

/// The rank of a priority, from `Low` to `High`.
pub open spec fn rank(priority: CachePriority) -> int {
    match priority {
        CachePriority::Low => 0,
        CachePriority::Normal => 1,
        CachePriority::High => 2,
    }
}

/// The priority with the given rank.
pub open spec fn priority_of(byte: nat) -> Option<CachePriority> {
    if byte == 0 {
        Some(CachePriority::Low)
    } else if byte == 1 {
        Some(CachePriority::Normal)
    } else if byte == 2 {
        Some(CachePriority::High)
    } else {
        None
    }
}

impl CachePriority {
    /// The byte that stands for the priority.
    pub fn to_byte(self) -> (byte: u8)
        ensures
            byte == rank(self),
    {
        match self {
            CachePriority::Low => 0,
            CachePriority::Normal => 1,
            CachePriority::High => 2,
        }
    }

    /// The priority that a byte stands for.
    pub fn from_byte(value: u8) -> (priority: Option<CachePriority>)
        ensures
            priority == priority_of(value as nat),
    {
        match value {
            0 => Some(CachePriority::Low),
            1 => Some(CachePriority::Normal),
            2 => Some(CachePriority::High),
            _ => None,
        }
    }

    /// The priority's place in tables that hold one item per priority.
    pub fn index(self) -> (index: usize)
        ensures
            index == rank(self),
            index < 3,
    {
        match self {
            CachePriority::Low => 0,
            CachePriority::Normal => 1,
            CachePriority::High => 2,
        }
    }
}

/// A priority survives its byte, and only the bytes of priorities are accepted.
pub proof fn law_priority_byte_round_trip(priority: CachePriority, byte: u8)
    ensures
        priority_of(rank(priority) as nat) == Some(priority),
        priority_of(byte as nat) matches Some(found) ==> rank(found) == byte,
{
}

/// A key holds something, and no more than a kibibyte.
pub proof fn law_keys_hold_up_to_a_kibibyte(bytes: Seq<u8>)
    ensures
        valid_key(bytes) <==> 1 <= bytes.len() <= 1024,
{
}

/// The priorities are ranked from low to high, and their bytes are their ranks.
pub proof fn law_priorities_are_ranked(byte: nat)
    ensures
        rank(CachePriority::Low) == 0,
        rank(CachePriority::Normal) == 1,
        rank(CachePriority::High) == 2,
        priority_of(byte) is Some <==> byte <= 2,
        priority_of(byte) matches Some(priority) ==> rank(priority) == byte,
{
}

/// A key is accepted exactly where it holds one byte to a kibibyte; an empty one and one
/// that is too long are told apart, and the latter with both lengths.
pub proof fn law_keys_are_refused_by_their_length(bytes: Seq<u8>, result: Result<(), Error>)
    requires
        key_validation(bytes, result),
    ensures
        result is Ok <==> 1 <= bytes.len() <= 1024,
        result matches Err(error) ==> (error is EmptyKey <==> bytes.len() == 0),
        result matches Err(error) ==> (bytes.len() > 1024 ==> error is KeyTooLarge && error->KeyTooLarge_len
            == bytes.len() && error->KeyTooLarge_maximum == 1024),
{
}

} // verus!
