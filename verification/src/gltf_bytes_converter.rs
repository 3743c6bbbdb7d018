//! Conversion of a raw glTF byte buffer into a parsed scene document.
//!
//! The container format is sniffed from the buffer's four-byte magic marker:
//! a binary `.glb` container starts with `glTF`, anything else is treated as
//! a standard text `.gltf` document. The external parser itself runs outside
//! the library: on some malformed buffer and image descriptions it aborts
//! instead of returning an error, so the surroundings make the call (and may
//! catch an abort) and hand the outcome in as a plain value. The library
//! dispatches on the container format and wraps a parse failure in
//! [`ConvertError`], passing a parsed scene through unchanged.

use vstd::prelude::*;

verus! {

/// Declares `gltf::Document`, the parsed scene graph, as an opaque type the
/// conversion passes through to its callers.
#[verifier::external_type_specification]
#[verifier::external_body]
pub struct ExDocument(gltf::Document);

/// Declares `gltf::buffer::Data`, a buffer payload of the parsed scene, as
/// an opaque type the conversion passes through.
#[verifier::external_type_specification]
#[verifier::external_body]
pub struct ExBufferData(gltf::buffer::Data);

/// Declares `gltf::image::Data`, an image payload of the parsed scene, as an
/// opaque type the conversion passes through.
#[verifier::external_type_specification]
#[verifier::external_body]
pub struct ExImageData(gltf::image::Data);

/// Declares `gltf::Error`, the parser's diagnostic, as an opaque type; the
/// conversion wraps it as the cause inside [`ConvertError`].
#[verifier::external_type_specification]
#[verifier::external_body]
pub struct ExGltfError(gltf::Error);

/// The error taxonomy of the conversion: one kind, an underlying parse
/// failure, carrying the parser's own diagnostic as its cause.
#[derive(Debug)]
pub enum ConvertError {
    Boxed(gltf::Error),
}

/// The buffer begins with the four-byte magic marker `glTF` of a binary
/// container.
pub open spec fn is_glb(bytes: Seq<u8>) -> bool {
    bytes.len() >= 4 && bytes[0] == 0x67u8 && bytes[1] == 0x6cu8 && bytes[2] == 0x54u8 && bytes[3]
        == 0x46u8
}

/// Decides `is_glb` on a concrete buffer.
fn starts_with_glb_magic(bytes: &Vec<u8>) -> (r: bool)
    ensures
        r == is_glb(bytes@),
{
    bytes.len() >= 4 && bytes[0] == 0x67u8 && bytes[1] == 0x6cu8 && bytes[2] == 0x54u8 && bytes[3]
        == 0x46u8
}

/// Converts a byte buffer given the parser's outcome on it: sniffs the
/// container format from the magic marker, delegates to the matching path,
/// and returns the parsed scene unchanged on success or the parse failure
/// wrapped as [`ConvertError::Boxed`] otherwise.
pub fn convert_bytes(
    bytes: &Vec<u8>,
    parsed: Result<(gltf::Document, Vec<gltf::buffer::Data>, Vec<gltf::image::Data>), gltf::Error>,
) -> (r: Result<(gltf::Document, Vec<gltf::buffer::Data>, Vec<gltf::image::Data>), ConvertError>)
    ensures
        r is Ok <==> parsed is Ok,
        (parsed matches Ok(d) ==> (r matches Ok(rd) && rd == d)),
        (parsed matches Err(e) ==> (r matches Err(ConvertError::Boxed(ce)) && ce == e)),
{
    if starts_with_glb_magic(bytes) {
        convert_glb(parsed)
    } else {
        convert_standard(parsed)
    }
}

/// Conversion path for a standard text `.gltf` document.
fn convert_standard(
    parsed: Result<(gltf::Document, Vec<gltf::buffer::Data>, Vec<gltf::image::Data>), gltf::Error>,
) -> (r: Result<(gltf::Document, Vec<gltf::buffer::Data>, Vec<gltf::image::Data>), ConvertError>)
    ensures
        r is Ok <==> parsed is Ok,
        (parsed matches Ok(d) ==> (r matches Ok(rd) && rd == d)),
        (parsed matches Err(e) ==> (r matches Err(ConvertError::Boxed(ce)) && ce == e)),
{
    match parsed {
        Ok(result) => Ok(result),
        Err(err) => Err(ConvertError::Boxed(err)),
    }
}

/// Conversion path for a binary `.glb` container.
fn convert_glb(
    parsed: Result<(gltf::Document, Vec<gltf::buffer::Data>, Vec<gltf::image::Data>), gltf::Error>,
) -> (r: Result<(gltf::Document, Vec<gltf::buffer::Data>, Vec<gltf::image::Data>), ConvertError>)
    ensures
        r is Ok <==> parsed is Ok,
        (parsed matches Ok(d) ==> (r matches Ok(rd) && rd == d)),
        (parsed matches Err(e) ==> (r matches Err(ConvertError::Boxed(ce)) && ce == e)),
{
    match parsed {
        Ok(result) => Ok(result),
        Err(err) => Err(ConvertError::Boxed(err)),
    }
}

} // verus!
