use vstd::bytes::{
    lemma_auto_spec_u32_to_from_le_bytes, lemma_auto_spec_u64_to_from_le_bytes,
    spec_u32_from_le_bytes, spec_u32_to_le_bytes, spec_u64_from_le_bytes, u32_from_le_bytes,
    u32_to_le_bytes, u64_from_le_bytes, u64_to_le_bytes,
};
use vstd::prelude::*;

use crate::codec::le64;
use crate::error::FastarError;

verus! {

/// Bytes of the header before the padding: the magic value, then the
/// payload checksum.
pub const HEADER_LEN: usize = 12;

/// The CRC-32 checksum of a byte string.
pub uninterp spec fn crc32_of(b: Seq<u8>) -> u32;

/// Relies on `crc32fast::hash`, the CRC-32 (IEEE) checksum of the bytes.
#[verifier::external_body]
fn crc32(b: &[u8]) -> (r: u32)
    ensures
        r == crc32_of(b@),
{
    crc32fast::hash(b)
}

/// Relies on std's `TypeId::of` and `DefaultHasher`: a value fixed for each
/// type within one build of the program.
#[verifier::external_body]
pub fn type_specific_magic<T: 'static>() -> u64 {
    let mut hasher = std::collections::hash_map::DefaultHasher::new();
    std::hash::Hash::hash(&std::any::TypeId::of::<T>(), &mut hasher);
    std::hash::Hasher::finish(&hasher)
}

/// The bytes of an archive: the magic value and the payload's checksum
/// (little-endian), zeros up to the page boundary, then the payload.
pub open spec fn archive_image(payload: Seq<u8>, magic: u64, page: nat) -> Seq<u8> {
    le64(magic) + spec_u32_to_le_bytes(crc32_of(payload)) + Seq::new(
        (page - HEADER_LEN) as nat,
        |i: int| 0u8,
    ) + payload
}

pub open spec fn stored_magic(b: Seq<u8>) -> u64 {
    spec_u64_from_le_bytes(b.subrange(0, 8))
}

pub open spec fn stored_checksum(b: Seq<u8>) -> u32 {
    spec_u32_from_le_bytes(b.subrange(8, 12))
}

/// The payload region: everything from the page boundary on.
pub open spec fn payload_of(b: Seq<u8>, page: nat) -> Seq<u8> {
    b.subrange(page as int, b.len() as int)
}

/// The check made before an archive's payload is read: the buffer reaches
/// the page boundary, starts with the expected magic value, and holds the
/// checksum of its payload region.
pub open spec fn archive_check(b: Seq<u8>, magic: u64, page: nat) -> Result<(), FastarError> {
    if page < HEADER_LEN {
        Err(FastarError::InvalidConfiguration)
    } else if b.len() < page || stored_magic(b) != magic || stored_checksum(b) != crc32_of(
        payload_of(b, page),
    ) {
        Err(FastarError::Corrupted)
    } else {
        Ok(())
    }
}

/// Lays out an archive for `payload` with the page size `page`.
pub fn materialize(payload: &[u8], magic: u64, page: usize) -> (r: Result<Vec<u8>, FastarError>)
    ensures
        page < HEADER_LEN || page + payload@.len() > usize::MAX ==> r == Err::<
            Vec<u8>,
            FastarError,
        >(FastarError::InvalidConfiguration),
        page >= HEADER_LEN && page + payload@.len() <= usize::MAX ==> (r matches Ok(v) && v@
            == archive_image(payload@, magic, page as nat)),
{
    if page < HEADER_LEN || payload.len() > usize::MAX - page {
        return Err(FastarError::InvalidConfiguration);
    }
    proof {
        lemma_auto_spec_u64_to_from_le_bytes();
        lemma_auto_spec_u32_to_from_le_bytes();
    }
    let mut out = u64_to_le_bytes(magic);
    let checksum = crc32(payload);
    let mut c = u32_to_le_bytes(checksum);
    out.append(&mut c);
    let ghost head = out@;
    let mut i: usize = HEADER_LEN;
    while i < page
        invariant
            HEADER_LEN <= i <= page,
            head.len() == HEADER_LEN,
            out@ == head + Seq::new((i - HEADER_LEN) as nat, |j: int| 0u8),
        decreases page - i,
    {
        out.push(0);
        i = i + 1;
        assert(out@ =~= head + Seq::new((i - HEADER_LEN) as nat, |j: int| 0u8));
    }
    let ghost padded = out@;
    out.extend_from_slice(payload);
    assert(out@ =~= padded + payload@);
    Ok(out)
}

/// Checks an archive's header and checksum before its payload is read.
pub fn verify(bytes: &[u8], magic: u64, page: usize) -> (r: Result<(), FastarError>)
    ensures
        r == archive_check(bytes@, magic, page as nat),
{
    if page < HEADER_LEN {
        return Err(FastarError::InvalidConfiguration);
    }
    if bytes.len() < page {
        return Err(FastarError::Corrupted);
    }
    let found = u64_from_le_bytes(&bytes[0..8]);
    if found != magic {
        return Err(FastarError::Corrupted);
    }
    let stored = u32_from_le_bytes(&bytes[8..12]);
    let computed = crc32(&bytes[page..bytes.len()]);
    if stored != computed {
        return Err(FastarError::Corrupted);
    }
    Ok(())
}

/// The payload region of a buffer that passed [`verify`].
pub fn payload(bytes: &[u8], page: usize) -> (r: &[u8])
    requires
        page <= bytes@.len(),
    ensures
        r@ == payload_of(bytes@, page as nat),
{
    &bytes[page..bytes.len()]
}

pub proof fn lemma_image_fields(payload: Seq<u8>, magic: u64, page: nat)
    requires
        page >= HEADER_LEN,
    ensures
        archive_image(payload, magic, page).len() == page + payload.len(),
        stored_magic(archive_image(payload, magic, page)) == magic,
        stored_checksum(archive_image(payload, magic, page)) == crc32_of(payload),
        payload_of(archive_image(payload, magic, page), page) == payload,
{
    lemma_auto_spec_u64_to_from_le_bytes();
    lemma_auto_spec_u32_to_from_le_bytes();
    let b = archive_image(payload, magic, page);
    let m = le64(magic);
    let c = spec_u32_to_le_bytes(crc32_of(payload));
    assert(b.subrange(0, 8) =~= m);
    assert(b.subrange(8, 12) =~= c);
    assert(payload_of(b, page) =~= payload);
}

/// An archive laid out for one magic value is refused under any other,
/// before its payload is read.
pub proof fn lemma_magic_isolation(payload: Seq<u8>, written: u64, expected: u64, page: nat)
    requires
        page >= HEADER_LEN,
        written != expected,
    ensures
        archive_check(archive_image(payload, written, page), expected, page) == Err::<
            (),
            FastarError,
        >(FastarError::Corrupted),
{
    lemma_image_fields(payload, written, page);
}

/// An archive passes its own check.
pub proof fn lemma_image_checks(payload: Seq<u8>, magic: u64, page: nat)
    requires
        page >= HEADER_LEN,
    ensures
        archive_check(archive_image(payload, magic, page), magic, page) == Ok::<(), FastarError>(()),
{
    lemma_image_fields(payload, magic, page);
}

/// Changing a byte of a valid archive's payload region gets past the check
/// only if the checksum of the changed payload equals that of the unchanged one.
pub proof fn lemma_payload_change_needs_same_checksum(
    b: Seq<u8>,
    magic: u64,
    page: nat,
    i: int,
    x: u8,
)
    requires
        archive_check(b, magic, page) is Ok,
        page <= i < b.len(),
        archive_check(b.update(i, x), magic, page) is Ok,
    ensures
        crc32_of(payload_of(b.update(i, x), page)) == crc32_of(payload_of(b, page)),
{
    let c = b.update(i, x);
    assert(c.subrange(8, 12) =~= b.subrange(8, 12));
}

} // verus!
