use std::string::FromUtf8Error;
use vstd::prelude::*;
use vstd::string::StringSliceAdditionalSpecFns;
use vstd::utf8::{decode_utf8, valid_utf8};

verus! {

#[verifier::external_type_specification]
#[verifier::external_body]
pub struct ExDecodeError(data_encoding::DecodeError);

#[verifier::external_type_specification]
#[verifier::external_body]
pub struct ExFromUtf8Error(FromUtf8Error);

/// The unpadded URL-safe base64 text of `data`.
pub uninterp spec fn base64url_of(data: Seq<u8>) -> Seq<char>;

/// The bytes that the unpadded URL-safe base64 `text` stands for, if it is
/// well formed.
pub uninterp spec fn base64url_decoded(text: Seq<u8>) -> Option<Seq<u8>>;

/// Relies on `data_encoding::BASE64URL_NOPAD.encode`: the text depends on the
/// bytes alone, and has `ceil(8 * n / 6)` symbols for `n` bytes. The encoding
/// may panic above `usize::MAX / 512` bytes.
#[verifier::external_body]
fn encode_nopad(data: &[u8]) -> (r: String)
    requires
        data@.len() <= usize::MAX / 512,
    ensures
        r@ == base64url_of(data@),
        r@.len() == (4 * data@.len() + 2) / 3,
{
    data_encoding::BASE64URL_NOPAD.encode(data)
}

/// Relies on `data_encoding::BASE64URL_NOPAD.decode`: it fails exactly on
/// malformed text, and the bytes depend on the text alone. It may panic above
/// `usize::MAX / 8` symbols.
#[verifier::external_body]
fn decode_nopad(data: &[u8]) -> (r: Result<Vec<u8>, data_encoding::DecodeError>)
    requires
        data@.len() <= usize::MAX / 8,
    ensures
        r is Ok <==> base64url_decoded(data@) is Some,
        r matches Ok(v) ==> base64url_decoded(data@) == Some(v@),
{
    data_encoding::BASE64URL_NOPAD.decode(data)
}

/// Relies on `String::from_utf8`: it accepts exactly the valid UTF-8 byte
/// sequences and keeps their characters.
#[verifier::external_body]
fn string_from_utf8(bytes: Vec<u8>) -> (r: Result<String, FromUtf8Error>)
    ensures
        r is Ok <==> valid_utf8(bytes@),
        r matches Ok(s) ==> s@ == decode_utf8(bytes@),
{
    String::from_utf8(bytes)
}

/// Why base64 text could not be decoded.
pub enum EncodeError {
    /// The text is not well-formed unpadded URL-safe base64.
    EncodedIdDecodeError(data_encoding::DecodeError),
    /// The decoded bytes are not UTF-8.
    EncodedIdDecodeUtf8Error(FromUtf8Error),
}

/// Turns decoded bytes into text; fails when they are not UTF-8.
pub fn text_from_decoded(bytes: Vec<u8>) -> (r: Result<String, EncodeError>)
    ensures
        r is Ok <==> valid_utf8(bytes@),
        r matches Ok(s) ==> s@ == decode_utf8(bytes@),
        r is Err ==> r matches Err(EncodeError::EncodedIdDecodeUtf8Error(_)),
{
    match string_from_utf8(bytes) {
        Ok(s) => Ok(s),
        Err(e) => Err(EncodeError::EncodedIdDecodeUtf8Error(e)),
    }
}

/// URL-safe base64 without padding.
pub struct Base64UrlEncoder;

impl Base64UrlEncoder {
    pub fn encode(&self, data: &[u8]) -> (r: String)
        requires
            data@.len() <= usize::MAX / 512,
        ensures
            r@ == base64url_of(data@),
            r@.len() == (4 * data@.len() + 2) / 3,
    {
        encode_nopad(data)
    }

    /// Encodes the UTF-8 bytes of `data`.
    pub fn encode_str(&self, data: &str) -> (r: String)
        requires
            data.spec_bytes().len() <= usize::MAX / 512,
        ensures
            r@ == base64url_of(data.spec_bytes()),
            r@.len() == (4 * data.spec_bytes().len() + 2) / 3,
    {
        encode_nopad(data.as_bytes())
    }

    pub fn decode(&self, data: &[u8]) -> (r: Result<Vec<u8>, EncodeError>)
        requires
            data@.len() <= usize::MAX / 8,
        ensures
            r is Ok <==> base64url_decoded(data@) is Some,
            r matches Ok(v) ==> base64url_decoded(data@) == Some(v@),
            r is Err ==> r matches Err(EncodeError::EncodedIdDecodeError(_)),
    {
        match decode_nopad(data) {
            Ok(v) => Ok(v),
            Err(e) => Err(EncodeError::EncodedIdDecodeError(e)),
        }
    }

    /// Decodes `data` and reads the bytes as UTF-8 text.
    pub fn decode_str(&self, data: &[u8]) -> (r: Result<String, EncodeError>)
        requires
            data@.len() <= usize::MAX / 8,
        ensures
            r is Ok <==> (base64url_decoded(data@) matches Some(b) && valid_utf8(b)),
            r matches Ok(s) ==> s@ == decode_utf8(base64url_decoded(data@)->0),
            base64url_decoded(data@) is None ==> r matches Err(
                EncodeError::EncodedIdDecodeError(_),
            ),
            (base64url_decoded(data@) matches Some(b) && !valid_utf8(b)) ==> r matches Err(
                EncodeError::EncodedIdDecodeUtf8Error(_),
            ),
    {
        match decode_nopad(data) {
            Ok(v) => text_from_decoded(v),
            Err(e) => Err(EncodeError::EncodedIdDecodeError(e)),
        }
    }
}

} // verus!
