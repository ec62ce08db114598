//! Trusted boundary to the pmd_sir0 crate, which parses and writes the
//! Sir0 relocation container wrapped around the message data.

use vstd::prelude::*;

use crate::wide::u32_le_bytes;

verus! {

#[verifier::external_type_specification]
#[verifier::external_body]
pub struct ExSir0Error(pmd_sir0::Sir0Error);

#[verifier::external_type_specification]
#[verifier::external_body]
pub struct ExSir0WriteFooterError(pmd_sir0::Sir0WriteFooterError);

/// The header blob that `pmd_sir0::Sir0::new` extracts from a container
/// when parsing succeeds: a deterministic function of the bytes alone.
pub uninterp spec fn sir0_parse_of(data: Seq<u8>) -> Option<Seq<u8>>;

/// The bytes that `pmd_sir0::write_sir0_footer` emits for an ascending
/// offset list: a deterministic function of the list alone.
pub uninterp spec fn sir0_footer_of(offsets: Seq<u32>) -> Seq<u8>;

/// Relies on pmd_sir0::Sir0::new: a deterministic parse of the container
/// bytes, handing back the container's header blob on success.
#[verifier::external_body]
pub(crate) fn sir0_get_header(data: &Vec<u8>) -> (r: Result<Vec<u8>, pmd_sir0::Sir0Error>)
    ensures
        (r is Ok) <==> (sir0_parse_of(data@) is Some),
        r is Ok ==> Some(r->Ok_0@) == sir0_parse_of(data@),
{
    match pmd_sir0::Sir0::new(std::io::Cursor::new(data)) {
        Ok(s) => Ok(s.get_header().clone()),
        Err(e) => Err(e),
    }
}

/// Relies on pmd_sir0::write_sir0_footer, writing into a `Vec` (an
/// infallible writer, per std's documentation): encodes the offset list,
/// and fails exactly when the list is not ascending.
#[verifier::external_body]
pub(crate) fn sir0_footer_bytes(offsets: &Vec<u32>) -> (r: Result<
    Vec<u8>,
    pmd_sir0::Sir0WriteFooterError,
>)
    ensures
        (r is Ok) <==> (forall|i: int|
            1 <= i < offsets@.len() ==> (#[trigger] offsets@[i - 1]) <= offsets@[i]),
        r is Ok ==> r->Ok_0@ == sir0_footer_of(offsets@),
        (r is Ok && offsets@.len() > 0 && offsets@[0] != 0) ==> r->Ok_0@.len() >= 1,
{
    let mut out: Vec<u8> = Vec::new();
    match pmd_sir0::write_sir0_footer(&mut out, offsets.as_slice()) {
        Ok(()) => Ok(out),
        Err(e) => Err(e),
    }
}

/// Relies on pmd_sir0::write_sir0_header, writing into a `Vec` (an
/// infallible writer, per std's documentation): emits the magic `SIR0`
/// followed by the two offsets as little-endian 32-bit values.
///
/// The last clause relies on pmd_sir0::Sir0::new reading such an image
/// back: it checks the magic, takes the header blob to be the bytes
/// between the two offsets (via io_partition::clone_into_vec, which reads
/// exactly that in-bounds range of the cursor), and then walks the
/// pointer bytes after `footer_offset`; for a footer that
/// write_sir0_footer produced from an ascending 32-bit offset list the
/// decoded positions stay below 2^32, so the walk cannot overflow, and a
/// truncated trailing group ends the walk without error.
#[verifier::external_body]
pub(crate) fn sir0_header_bytes(header_offset: u32, footer_offset: u32) -> (r: Option<Vec<u8>>)
    ensures
        r is Some,
        r->0@ == seq![0x53u8, 0x49u8, 0x52u8, 0x30u8] + u32_le_bytes(header_offset)
            + u32_le_bytes(footer_offset),
        forall|mid: Seq<u8>, offs: Seq<u32>|
            (12 <= header_offset && header_offset <= footer_offset && footer_offset == 12
                + mid.len() && sir0_footer_of(offs).len() >= 1 && (forall|i: int|
                1 <= i < offs.len() ==> (#[trigger] offs[i - 1]) <= offs[i]))
                ==> #[trigger] sir0_parse_of(r->0@ + mid + sir0_footer_of(offs)) == Some(
                (r->0@ + mid).subrange(header_offset as int, footer_offset as int),
            ),
{
    let mut out: Vec<u8> = Vec::new();
    match pmd_sir0::write_sir0_header(&mut out, header_offset, footer_offset) {
        Ok(()) => Some(out),
        Err(_) => None,
    }
}

} // verus!
