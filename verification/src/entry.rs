//! Cache entries, and the value half at the engine boundary.

use vstd::prelude::*;

use crate::error::Error;
use crate::model::{key_validation, priority_of, rank, valid_key, CachePriority, EntryKey};
use crate::shared::{bytes_as_slice, bytes_from_vec, bytes_shared, contents};
use crate::wire::{copy_range, get_u64, put_u64, u64_at, zeroed};

verus! {

pub const ENGINE_VALUE_HEADER_SIZE: usize = 9;

/// A complete logical object stored by the cache.
///
/// Cloning an entry clones its shared byte handles, not the key or value bytes.
#[derive(Debug, PartialEq, Eq)]
pub struct Entry {
    key: bytes::Bytes,
    value: bytes::Bytes,
    priority: CachePriority,
}

/// The outcome of making an entry from a key and a value.
pub open spec fn entry_validation(key: Seq<u8>, value: Seq<u8>, error: Error) -> bool {
    if !valid_key(key) {
        key_validation(key, Err(error))
    } else {
        value.len() == 0 && error is EmptyValue
    }
}

impl Entry {
    pub closed spec fn key_bytes(self) -> Seq<u8> {
        contents(self.key)
    }

    pub closed spec fn value_bytes(self) -> Seq<u8> {
        contents(self.value)
    }

    pub closed spec fn rank(self) -> CachePriority {
        self.priority
    }

    /// An entry, if its key has a valid length and its value is not empty.
    pub fn new(key: bytes::Bytes, value: bytes::Bytes, priority: CachePriority) -> (result: Result<Entry, Error>)
        ensures
            match result {
                Ok(entry) => {
                    &&& valid_key(contents(key))
                    &&& contents(value).len() > 0
                    &&& entry.key_bytes() == contents(key)
                    &&& entry.value_bytes() == contents(value)
                    &&& entry.rank() == priority
                },
                Err(error) => entry_validation(contents(key), contents(value), error),
            },
    {
        match EntryKey::validate(bytes_as_slice(&key)) {
            Ok(_) => {},
            Err(error) => return Err(error),
        }
        if bytes_as_slice(&value).len() == 0 {
            return Err(Error::EmptyValue);
        }
        Ok(Entry { key, value, priority })
    }

    /// The key.
    pub fn key(&self) -> (key: &bytes::Bytes)
        ensures
            contents(*key) == self.key_bytes(),
    {
        &self.key
    }

    /// The value.
    pub fn value(&self) -> (value: &bytes::Bytes)
        ensures
            contents(*value) == self.value_bytes(),
    {
        &self.value
    }

    /// The priority.
    pub fn priority(&self) -> (priority: CachePriority)
        ensures
            priority == self.rank(),
    {
        self.priority
    }

    /// The key, the value and the priority.
    pub fn into_parts(self) -> (parts: (bytes::Bytes, bytes::Bytes, CachePriority))
        ensures
            contents(parts.0) == self.key_bytes(),
            contents(parts.1) == self.value_bytes(),
            parts.2 == self.rank(),
    {
        (self.key, self.value, self.priority)
    }

    /// The entry of a key and its value half.
    pub fn from_engine(key: bytes::Bytes, value: EngineValue) -> (entry: Entry)
        ensures
            entry.key_bytes() == contents(key),
            entry.value_bytes() == value.value_bytes(),
            entry.rank() == value.rank(),
    {
        Entry { key, value: value.value, priority: value.priority }
    }

    /// The key and the value half of an entry.
    pub fn into_engine(self) -> (parts: (bytes::Bytes, EngineValue))
        ensures
            contents(parts.0) == self.key_bytes(),
            parts.1.value_bytes() == self.value_bytes(),
            parts.1.rank() == self.rank(),
    {
        (self.key, EngineValue { value: self.value, priority: self.priority })
    }
}

impl Clone for Entry {
    fn clone(&self) -> (copy: Entry)
        ensures
            copy.key_bytes() == self.key_bytes(),
            copy.value_bytes() == self.value_bytes(),
            copy.rank() == self.rank(),
    {
        Entry { key: bytes_shared(&self.key), value: bytes_shared(&self.value), priority: self.priority }
    }
}

/// The value half used at the engine boundary.
#[derive(Debug, PartialEq, Eq)]
pub struct EngineValue {
    value: bytes::Bytes,
    priority: CachePriority,
}

/// Why bytes are no encoded value.
#[derive(Debug, Clone, Copy, PartialEq, Eq, Structural)]
pub enum EngineValueError {
    /// The input ends within the header or the value.
    UnexpectedEnd,
    InvalidPriority,
    TooLarge,
    EmptyValue,
}

impl EngineValueError {
    /// The text shown for an error.
    pub open spec fn rendered(self) -> Seq<char> {
        match self {
            EngineValueError::UnexpectedEnd => "failed to fill whole buffer"@,
            EngineValueError::InvalidPriority => "invalid extent cache priority"@,
            EngineValueError::TooLarge => "extent value is too large"@,
            EngineValueError::EmptyValue => "extent cache value must not be empty"@,
        }
    }

    /// The error as text.
    pub fn message(self) -> (text: String)
        ensures
            text@ == self.rendered(),
    {
        match self {
            EngineValueError::UnexpectedEnd => "failed to fill whole buffer".to_owned(),
            EngineValueError::InvalidPriority => "invalid extent cache priority".to_owned(),
            EngineValueError::TooLarge => "extent value is too large".to_owned(),
            EngineValueError::EmptyValue => "extent cache value must not be empty".to_owned(),
        }
    }
}

/// `bytes` begins with the encoding of a value: the priority, the length in 64 bits and
/// the bytes themselves.
pub open spec fn encodes_value(bytes: Seq<u8>, value: Seq<u8>, priority: CachePriority) -> bool {
    &&& bytes.len() >= 9 + value.len()
    &&& bytes[0] == rank(priority)
    &&& u64_at(bytes, 1) == value.len()
    &&& bytes.subrange(9, 9int + value.len()) == value
}

/// What decoding makes of bytes: the first thing that is wrong with them.
pub open spec fn decode_fault(bytes: Seq<u8>) -> Option<EngineValueError> {
    if bytes.len() < 9 {
        Some(EngineValueError::UnexpectedEnd)
    } else if priority_of(bytes[0] as nat) is None {
        Some(EngineValueError::InvalidPriority)
    } else if u64_at(bytes, 1) > usize::MAX {
        Some(EngineValueError::TooLarge)
    } else if u64_at(bytes, 1) == 0 {
        Some(EngineValueError::EmptyValue)
    } else if bytes.len() < 9 + u64_at(bytes, 1) {
        Some(EngineValueError::UnexpectedEnd)
    } else {
        None
    }
}

impl EngineValue {
    pub closed spec fn value_bytes(self) -> Seq<u8> {
        contents(self.value)
    }

    pub closed spec fn rank(self) -> CachePriority {
        self.priority
    }

    /// A value half, if the value is not empty.
    pub fn new(value: bytes::Bytes, priority: CachePriority) -> (result: Result<EngineValue, Error>)
        ensures
            match result {
                Ok(found) => contents(value).len() > 0 && found.value_bytes() == contents(value) && found.rank()
                    == priority,
                Err(error) => contents(value).len() == 0 && error is EmptyValue,
            },
    {
        if bytes_as_slice(&value).len() == 0 {
            return Err(Error::EmptyValue);
        }
        Ok(EngineValue { value, priority })
    }

    /// The value.
    pub fn value(&self) -> (value: &bytes::Bytes)
        ensures
            contents(*value) == self.value_bytes(),
    {
        &self.value
    }

    /// The priority.
    pub fn priority(&self) -> (priority: CachePriority)
        ensures
            priority == self.rank(),
    {
        self.priority
    }

    /// The value alone.
    pub fn into_value(self) -> (value: bytes::Bytes)
        ensures
            contents(value) == self.value_bytes(),
    {
        self.value
    }

    /// The encoded value.
    pub fn encode(&self) -> (encoded: Vec<u8>)
        ensures
            encodes_value(encoded@, self.value_bytes(), self.rank()),
            encoded@.len() == 9 + self.value_bytes().len(),
    {
        let value = bytes_as_slice(&self.value);
        let mut encoded = zeroed(ENGINE_VALUE_HEADER_SIZE);
        encoded[0] = self.priority.to_byte();
        put_u64(&mut encoded, 1, value.len() as u64);
        let ghost header = encoded@;
        let mut copy = copy_range(value, 0, value.len());
        encoded.append(&mut copy);
        proof {
            assert(value@.subrange(0, value@.len() as int) =~= value@);
            assert(encoded@ =~= header + value@);
            assert(encoded@.subrange(9, 9int + value@.len()) =~= value@);
            assert(u64_at(encoded@, 1) == u64_at(header, 1));
        }
        encoded
    }

    /// Decodes a value from the start of `input`.
    pub fn decode(input: &[u8]) -> (result: Result<EngineValue, EngineValueError>)
        ensures
            match result {
                Ok(value) => decode_fault(input@) is None && encodes_value(
                    input@,
                    value.value_bytes(),
                    value.rank(),
                ) && value.value_bytes().len() > 0,
                Err(error) => decode_fault(input@) == Some(error),
            },
    {
        if input.len() < ENGINE_VALUE_HEADER_SIZE {
            return Err(EngineValueError::UnexpectedEnd);
        }
        let priority = match CachePriority::from_byte(input[0]) {
            Some(priority) => priority,
            None => return Err(EngineValueError::InvalidPriority),
        };
        let len = get_u64(input, 1);
        if len > usize::MAX as u64 {
            return Err(EngineValueError::TooLarge);
        }
        if len == 0 {
            return Err(EngineValueError::EmptyValue);
        }
        let rest = (input.len() - ENGINE_VALUE_HEADER_SIZE) as u64;
        if rest < len {
            return Err(EngineValueError::UnexpectedEnd);
        }
        let value = copy_range(input, ENGINE_VALUE_HEADER_SIZE, ENGINE_VALUE_HEADER_SIZE + len as usize);
        Ok(EngineValue { value: bytes_from_vec(value), priority })
    }

    /// The size of the encoded value, held at the largest `usize`.
    pub fn estimated_size(&self) -> (size: usize)
        ensures
            size == (if 9 + self.value_bytes().len() > usize::MAX {
                usize::MAX as nat
            } else {
                9 + self.value_bytes().len()
            }),
    {
        ENGINE_VALUE_HEADER_SIZE.saturating_add(bytes_as_slice(&self.value).len())
    }
}

impl Clone for EngineValue {
    fn clone(&self) -> (copy: EngineValue)
        ensures
            copy.value_bytes() == self.value_bytes(),
            copy.rank() == self.rank(),
    {
        EngineValue { value: bytes_shared(&self.value), priority: self.priority }
    }
}

/// Decoding what was encoded gives the value and the priority back, whatever follows it.
pub proof fn law_engine_value_round_trip(
    bytes: Seq<u8>,
    value: Seq<u8>,
    priority: CachePriority,
    decoded: Seq<u8>,
    decoded_priority: CachePriority,
)
    requires
        0 < value.len() <= usize::MAX,
        encodes_value(bytes, value, priority),
        encodes_value(bytes, decoded, decoded_priority),
    ensures
        decode_fault(bytes) is None,
        decoded == value,
        decoded_priority == priority,
{
}

/// An entry is refused only for its key or for an empty value, and for its key first.
pub proof fn law_entries_are_refused_for_what_is_wrong(key: Seq<u8>, value: Seq<u8>, error: Error)
    requires
        entry_validation(key, value, error),
    ensures
        key.len() == 0 <==> error is EmptyKey,
        key.len() > 1024 <==> error is KeyTooLarge,
        1 <= key.len() <= 1024 ==> value.len() == 0 && error is EmptyValue,
{
}

} // verus!
