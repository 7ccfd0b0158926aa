//! The value codec: a bucket stores any value that can be encoded to and
//! decoded from a byte sequence. The capability is a trait with a
//! specification-level byte image, so that a round trip through the store
//! can be reasoned about exactly.
//!
//! One implementation is provided, for `u64`, backed by the MessagePack
//! format of the `rmp_serde` crate.

use vstd::prelude::*;

verus! {

/// A value that a bucket can store: it has one byte image, `encoding`,
/// which `encode` produces and `decode` inverts; `decodable` names the
/// bytes that decode at all, so that a decode failure happens exactly on
/// malformed bytes.
pub trait Codec: Sized {
    /// The byte image of this value.
    spec fn encoding(&self) -> Seq<u8>;

    /// Whether the bytes decode as a value of this type; the image of
    /// every value does.
    spec fn decodable(b: Seq<u8>) -> bool;

    /// Encode the value; on success the bytes are exactly its image.
    fn encode(&self) -> (r: Result<Vec<u8>, crate::Error>)
        ensures
            r matches Ok(b) ==> b@ == self.encoding(),
            r matches Err(e) ==> e is Encode,
    ;

    /// Decode bytes: the image of any value decodes back to that value,
    /// decoding succeeds exactly on decodable bytes, and a failure is
    /// always a decode failure.
    fn decode(b: &[u8]) -> (r: Result<Self, crate::Error>)
        ensures
            forall|v: Self| b@ == v.encoding() ==> (r matches Ok(w) && w == v),
            r is Ok <==> Self::decodable(b@),
            r matches Err(e) ==> e is Decode,
    ;
}

/// The MessagePack byte image of an unsigned integer, as written by
/// `rmp_serde`.
pub uninterp spec fn msgpack_u64(x: u64) -> Seq<u8>;

/// The bytes `rmp_serde` accepts as an unsigned integer: the success set
/// of its slice decoder.
pub uninterp spec fn msgpack_u64_decodes(b: Seq<u8>) -> bool;

/// Relies on `rmp_serde::to_vec`: the MessagePack encoding of an integer
/// is a function of the value alone. A failure is carried over as its
/// display message.
#[verifier::external_body]
fn rmp_encode_u64(x: &u64) -> (r: Result<Vec<u8>, String>)
    ensures
        r matches Ok(b) ==> b@ == msgpack_u64(*x),
{
    match rmp_serde::to_vec(x) {
        Ok(b) => Ok(b),
        Err(e) => Err(e.to_string()),
    }
}

/// Relies on `rmp_serde::from_slice`: decoding the MessagePack encoding
/// of an integer returns that integer, and whether decoding succeeds is
/// a function of the bytes alone. A failure is carried over as its
/// display message.
#[verifier::external_body]
fn rmp_decode_u64(b: &[u8]) -> (r: Result<u64, String>)
    ensures
        r matches Ok(w) ==> forall|v: u64| b@ == msgpack_u64(v) ==> w == v,
        r is Ok <==> msgpack_u64_decodes(b@),
        r is Err ==> forall|v: u64| b@ != msgpack_u64(v),
{
    match rmp_serde::from_slice(b) {
        Ok(x) => Ok(x),
        Err(e) => Err(e.to_string()),
    }
}

impl Codec for u64 {
    open spec fn encoding(&self) -> Seq<u8> {
        msgpack_u64(*self)
    }

    open spec fn decodable(b: Seq<u8>) -> bool {
        msgpack_u64_decodes(b)
    }

    fn encode(&self) -> (r: Result<Vec<u8>, crate::Error>) {
        match rmp_encode_u64(self) {
            Ok(b) => Ok(b),
            Err(m) => Err(crate::Error::Encode(m)),
        }
    }

    fn decode(b: &[u8]) -> (r: Result<Self, crate::Error>) {
        match rmp_decode_u64(b) {
            Ok(x) => Ok(x),
            Err(m) => Err(crate::Error::Decode(m)),
        }
    }
}

} // verus!
