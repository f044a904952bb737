//! Checksums and digests, computed by outside crates.

use vstd::prelude::*;

use crate::wire::{lemma_u32_at_injective, u32_at};

verus! {

/// What `crc_fast::checksum` returns for the CRC-32/ISO-HDLC algorithm.
pub uninterp spec fn crc32_iso_hdlc(bytes: Seq<u8>) -> u32;

/// What `crc_fast::checksum` returns for the CRC-32/ISCSI algorithm.
pub uninterp spec fn crc32_iscsi(bytes: Seq<u8>) -> u32;

/// The hash of `bytes` under `blake3::hash`.
pub uninterp spec fn blake3_hash(bytes: Seq<u8>) -> Seq<u8>;

/// `other` is `bytes` with exactly one byte changed.
pub open spec fn one_byte_apart(bytes: Seq<u8>, other: Seq<u8>) -> bool {
    exists|i: int| 0 <= i < bytes.len() && #[trigger] other[i] != bytes[i] && other == bytes.update(i, other[i])
}

/// Every change of one byte changes the CRC-32/ISCSI.
pub open spec fn every_byte_counts(bytes: Seq<u8>) -> bool {
    forall|other: Seq<u8>| one_byte_apart(bytes, other) ==> #[trigger] crc32_iscsi(other) != crc32_iscsi(bytes)
}

/// The last four bytes are the CRC-32/ISCSI of the rest.
pub open spec fn ends_with_checksum(image: Seq<u8>) -> bool {
    u32_at(image, image.len() - 4) == crc32_iscsi(image.subrange(0, image.len() - 4))
}

/// No change of one byte, be it of the contents or of the checksum, leaves an image whose
/// checksum matches.
pub proof fn lemma_changed_byte(image: Seq<u8>, other: Seq<u8>)
    requires
        image.len() >= 4,
        ends_with_checksum(image),
        every_byte_counts(image.subrange(0, image.len() - 4)),
        one_byte_apart(image, other),
    ensures
        other.len() == image.len(),
        !ends_with_checksum(other),
{
    let i = choose|i: int|
        0 <= i < image.len() && #[trigger] other[i] != image[i] && other == image.update(i, other[i]);
    let n = image.len() - 4;
    let contents = image.subrange(0, n);
    let changed = other.subrange(0, n);
    if i < n {
        assert(changed[i] != contents[i]);
        assert(changed =~= contents.update(i, changed[i]));
        assert(one_byte_apart(contents, changed));
        assert(crc32_iscsi(changed) != crc32_iscsi(contents));
    } else {
        assert(changed =~= contents);
        if ends_with_checksum(other) {
            lemma_u32_at_injective(image, other, n);
        }
    }
}

/// Calls `crc_fast::checksum` with `Crc32IsoHdlc`. The result is a function of
/// the bytes alone, named `crc32_iso_hdlc`; it is a 32-bit value that the crate
/// hands out widened to 64 bits.
#[verifier::external_body]
pub(crate) fn compute_crc32_iso_hdlc(bytes: &[u8]) -> (crc: u32)
    ensures
        crc == crc32_iso_hdlc(bytes@),
{
    crc_fast::checksum(crc_fast::CrcAlgorithm::Crc32IsoHdlc, bytes) as u32
}

/// Calls `crc_fast::checksum` with `Crc32Iscsi`. The result is a function of
/// the bytes alone, named `crc32_iscsi`; it is a 32-bit value that the crate
/// hands out widened to 64 bits. It is the cyclic redundancy check of width 32 over the
/// polynomial 0x1edc6f41, and no change of one byte leaves such a check as it was: the
/// polynomial has a constant term, so that it divides no power of x times a polynomial of
/// degree seven or less other than zero. In the crate's table-driven form: for a given byte the next
/// state determines the state before, and for a given state it determines the byte.
#[verifier::external_body]
pub(crate) fn compute_crc32_iscsi(bytes: &[u8]) -> (crc: u32)
    ensures
        crc == crc32_iscsi(bytes@),
        forall|other: Seq<u8>| one_byte_apart(bytes@, other) ==> #[trigger] crc32_iscsi(other) != crc,
{
    crc_fast::checksum(crc_fast::CrcAlgorithm::Crc32Iscsi, bytes) as u32
}

/// Calls `blake3::hash`. The hash is a function of the bytes alone, named
/// `blake3_hash`, and has 32 bytes.
#[verifier::external_body]
pub(crate) fn compute_blake3(bytes: &[u8]) -> (hash: Vec<u8>)
    ensures
        hash@ == blake3_hash(bytes@),
        hash@.len() == 32,
{
    blake3::hash(bytes).as_bytes().to_vec()
}

} // verus!
