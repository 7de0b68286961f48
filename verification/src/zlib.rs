//! Zlib-framed DEFLATE compression for PDF content streams.

use vstd::prelude::*;

verus! {

/// The zlib-framed DEFLATE compression of a byte sequence, at the
/// default compression level. The result depends on the input alone.
pub uninterp spec fn zlib_deflate_of(input: Seq<u8>) -> Seq<u8>;

/// Relies on deflate::deflate_bytes_zlib: the result is a function of
/// the input bytes alone, and always begins with the fixed two-byte
/// zlib header, whose first byte is 0x78.
#[verifier::external_body]
pub fn encode(input: &[u8]) -> (r: Result<Vec<u8>, String>)
    ensures
        r is Ok,
        r matches Ok(v) ==> v@ == zlib_deflate_of(input@) && v@.len() >= 2 && v@[0] == 0x78,
{
    Ok(deflate::deflate_bytes_zlib(input))
}

} // verus!
