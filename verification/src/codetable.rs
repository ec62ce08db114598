//! Trusted boundary to the pmd_code_table crate: the optional capability
//! that converts between raw wide code units and human-readable text.

use vstd::prelude::*;

verus! {

#[verifier::external_type_specification]
#[verifier::external_body]
pub struct ExCodeToText<'a>(pmd_code_table::CodeToText<'a>);

#[verifier::external_type_specification]
#[verifier::external_body]
pub struct ExTextToCode<'a>(pmd_code_table::TextToCode<'a>);

#[verifier::external_type_specification]
#[verifier::external_body]
pub struct ExCodeToTextError(pmd_code_table::CodeToTextError);

#[verifier::external_type_specification]
#[verifier::external_body]
pub struct ExTextToCodeError(pmd_code_table::TextToCodeError);

/// Relies on pmd_code_table::CodeToText::decode: turns raw wide code units
/// into human-readable text, or reports why it cannot. What comes back
/// depends on the injected table, so callers treat every outcome as
/// possible. A crafted code-table file can make the call itself overflow
/// in debug builds (its shift grows with an entry's length field); the
/// capability is opaque, so no precondition can exclude such a table.
#[verifier::external_body]
pub(crate) fn code_decode(table: &pmd_code_table::CodeToText<'_>, units: &Vec<u16>) -> (r: Result<
    String,
    pmd_code_table::CodeToTextError,
>) {
    table.decode(units.as_slice())
}

/// Relies on pmd_code_table::TextToCode::encode: turns human-readable text
/// into raw wide code units, or reports why it cannot. What comes back
/// depends on the injected table, so callers treat every outcome as
/// possible. A crafted code-table file can make the call itself overflow
/// in debug builds (it adds a parsed value to an entry's 16-bit code); the
/// capability is opaque, so no precondition can exclude such a table.
#[verifier::external_body]
pub(crate) fn code_encode(table: &pmd_code_table::TextToCode<'_>, text: &str) -> (r: Result<
    Vec<u16>,
    pmd_code_table::TextToCodeError,
>) {
    table.encode(text)
}

} // verus!
