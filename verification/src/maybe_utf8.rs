//! Environment keys and values that may not be valid Unicode.
//!
//! The archive must hand back exactly the bytes the host passed to the
//! child, so a captured value is text when its bytes are valid UTF-8
//! and a raw byte string otherwise; either way the bytes survive the
//! round trip unchanged.

use vstd::prelude::*;

use vstd::utf8::{decode_utf8, decode_utf8_encode_utf8, encode_utf8, valid_utf8};

verus! {

/// A captured byte string: text when every byte is valid UTF-8, raw
/// bytes otherwise.
#[derive(Clone, Debug)]
pub enum MaybeUtf8 {
    Text(String),
    Bytes(Vec<u8>),
}

/// The bytes a captured value stands for.
pub open spec fn maybe_utf8_bytes(m: MaybeUtf8) -> Seq<u8> {
    match m {
        MaybeUtf8::Text(s) => encode_utf8(s@),
        MaybeUtf8::Bytes(b) => b@,
    }
}

/// Relies on `String::from_utf8`: succeeds exactly on valid UTF-8,
/// decoding to those scalar values, and hands the bytes back unchanged
/// on failure.
#[verifier::external_body]
fn string_from_utf8(v: Vec<u8>) -> (r: Result<String, Vec<u8>>)
    ensures
        r is Ok <==> valid_utf8(v@),
        r matches Ok(s) ==> s@ == decode_utf8(v@),
        r matches Err(b) ==> b@ == v@,
{
    match String::from_utf8(v) {
        Ok(s) => Ok(s),
        Err(e) => Err(e.into_bytes()),
    }
}

/// Relies on `String::into_bytes`: a string's bytes are the UTF-8
/// encoding of its characters.
#[verifier::external_body]
pub(crate) fn string_into_bytes(s: String) -> (r: Vec<u8>)
    ensures
        r@ == encode_utf8(s@),
{
    s.into_bytes()
}

impl MaybeUtf8 {
    /// Captures a byte string: text exactly when every byte is valid
    /// UTF-8, and in either case standing for exactly these bytes.
    pub fn from_bytes(v: Vec<u8>) -> (r: MaybeUtf8)
        ensures
            r is Text <==> valid_utf8(v@),
            maybe_utf8_bytes(r) == v@,
    {
        let ghost v0 = v@;
        match string_from_utf8(v) {
            Ok(s) => {
                proof {
                    decode_utf8_encode_utf8(v0);
                }
                MaybeUtf8::Text(s)
            },
            Err(b) => MaybeUtf8::Bytes(b),
        }
    }

    /// The captured bytes, exactly as the host passed them.
    pub fn into_bytes(self) -> (r: Vec<u8>)
        ensures
            r@ == maybe_utf8_bytes(self),
    {
        match self {
            MaybeUtf8::Text(s) => string_into_bytes(s),
            MaybeUtf8::Bytes(b) => b,
        }
    }
}

/// Losslessness: capturing bytes and reading them back returns them
/// unchanged, whichever side of the text selector they fall on.
pub proof fn lemma_maybe_utf8_lossless(m: MaybeUtf8, v: Seq<u8>)
    requires
        maybe_utf8_bytes(m) == v,
    ensures
        m is Bytes ==> maybe_utf8_bytes(m) == v,
        m matches MaybeUtf8::Text(s) ==> encode_utf8(s@) == v && valid_utf8(v),
{
    match m {
        MaybeUtf8::Text(s) => {
            vstd::utf8::encode_utf8_valid_utf8(s@);
        },
        MaybeUtf8::Bytes(_) => {},
    }
}

} // verus!
