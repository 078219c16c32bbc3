//! How typed keys and values become the bytes a store holds, and back.
use vstd::prelude::*;

use crate::bytes::{lemma_u64_le_round_trip, u64_from_le, u64_le_bytes};

verus! {

/// A type whose values can be written to a store and read back.
pub trait StorageCodec: Sized {
    /// The bytes that encode `v`.
    spec fn encode_spec(v: Self) -> Seq<u8>;

    /// The value that bytes `b` decode to, if they are a valid encoding.
    spec fn decode_spec(b: Seq<u8>) -> Option<Self>;

    /// Decoding an encoding gives the value back.
    proof fn lemma_round_trip(v: Self)
        ensures
            Self::decode_spec(Self::encode_spec(v)) == Some(v),
    ;

    /// Encodes `self`; `None` when the encoder fails.
    fn encode(&self) -> (r: Option<Vec<u8>>)
        ensures
            r matches Some(b) ==> b@ == Self::encode_spec(*self),
    ;

    /// Decodes `b`.
    fn decode(b: &[u8]) -> (r: Option<Self>)
        ensures
            r == Self::decode_spec(b@),
    ;
}

/// Relies on `borsh::to_vec`: a `u64` is serialized as its eight
/// little-endian bytes (`to_le_bytes`).
#[verifier::external_body]
fn borsh_u64_to_vec(v: u64) -> (r: Option<Vec<u8>>)
    ensures
        r matches Some(b) ==> b@ == u64_le_bytes(v),
{
    borsh::to_vec(&v).ok()
}

/// Relies on `borsh::from_slice`: a `u64` is read from exactly eight
/// little-endian bytes; a shorter input fails, and so does a longer one
/// (not all bytes read).
#[verifier::external_body]
fn borsh_u64_from_slice(b: &[u8]) -> (r: Option<u64>)
    ensures
        r == (if b@.len() == 8 {
            Some(u64_from_le(b@))
        } else {
            None::<u64>
        }),
{
    borsh::from_slice::<u64>(b).ok()
}

impl StorageCodec for u64 {
    open spec fn encode_spec(v: u64) -> Seq<u8> {
        u64_le_bytes(v)
    }

    open spec fn decode_spec(b: Seq<u8>) -> Option<u64> {
        if b.len() == 8 {
            Some(u64_from_le(b))
        } else {
            None
        }
    }

    proof fn lemma_round_trip(v: u64) {
        lemma_u64_le_round_trip(v);
    }

    fn encode(&self) -> (r: Option<Vec<u8>>) {
        borsh_u64_to_vec(*self)
    }

    fn decode(b: &[u8]) -> (r: Option<u64>) {
        borsh_u64_from_slice(b)
    }
}

} // verus!
