use vstd::prelude::*;

verus! {

use crate::error::Error;
use crate::key::EncodedKey;

/// The key capability: converts a record's logical key (the subset of
/// its fields that identifies it) to and from an [`EncodedKey`].
///
/// The byte encoding is canonical and self-delimiting: equal logical
/// keys always produce identical bytes, and decoding is the exact left
/// inverse of encoding ([`KeyCodec::lemma_key_round_trip`]). The
/// encoding is not promised to be order-preserving: the lexicographic
/// order of encoded keys need not match any natural order of the
/// logical fields, because the length prefixes are little-endian.
pub trait KeyCodec: Sized {
    /// The logical key: the typed fields that identify a record.
    type KeyType: DeepView;

    /// The canonical byte encoding of a logical key.
    spec fn spec_encode_key(k: <Self::KeyType as DeepView>::V) -> Seq<u8>;

    /// The logical key read back from encoded bytes; nothing when the
    /// bytes are truncated, malformed, or carry trailing garbage.
    spec fn spec_decode_key(b: Seq<u8>) -> Option<<Self::KeyType as DeepView>::V>;

    /// True when every variable-length field of the key is short
    /// enough for its length to be carried in the encoding's framing.
    /// Every key held in memory satisfies this.
    spec fn key_representable(k: <Self::KeyType as DeepView>::V) -> bool;

    /// The logical key of a live record.
    spec fn spec_key(&self) -> <Self::KeyType as DeepView>::V;

    /// Round trip: decoding an encoded key yields the key itself.
    proof fn lemma_key_round_trip(k: <Self::KeyType as DeepView>::V)
        requires
            Self::key_representable(k),
        ensures
            Self::spec_decode_key(Self::spec_encode_key(k)) == Some(k),
    ;

    /// Encodes a logical key into its canonical bytes.
    fn encode_key(k: &Self::KeyType) -> (r: Result<EncodedKey<Self>, Error>)
        ensures
            match r {
                Ok(ek) => Self::key_representable(k.deep_view()) && ek@ == Self::spec_encode_key(
                    k.deep_view(),
                ),
                Err(e) => e == Error::EncodingError && !Self::key_representable(k.deep_view()),
            },
    ;

    /// Decodes a logical key from encoded bytes; fails exactly on the
    /// byte sequences that no logical key encodes to.
    fn decode_key(data: &EncodedKey<Self>) -> (r: Result<Self::KeyType, Error>)
        ensures
            match r {
                Ok(k) => Self::spec_decode_key(data@) == Some(k.deep_view()),
                Err(e) => e == Error::DecodingError && Self::spec_decode_key(data@) is None,
            },
    ;

    /// Derives the encoded key directly from a live record.
    fn key(&self) -> (r: Result<EncodedKey<Self>, Error>)
        ensures
            match r {
                Ok(ek) => Self::key_representable(self.spec_key()) && ek@ == Self::spec_encode_key(
                    self.spec_key(),
                ),
                Err(e) => e == Error::EncodingError && !Self::key_representable(self.spec_key()),
            },
    ;
}

/// The value capability: converts a whole record to and from the
/// opaque byte blob stored as the value.
///
/// The blob is fully self-describing: decoding needs no schema beyond
/// the static type itself, and decoding is the exact left inverse of
/// encoding ([`ValueCodec::lemma_value_round_trip`]). Bytes that do
/// not parse as a record of this shape are refused rather than coerced.
pub trait ValueCodec: KeyCodec + View {
    /// The canonical byte encoding of a whole record.
    spec fn spec_encode(v: Self::V) -> Seq<u8>;

    /// The record read back from value bytes; nothing when the bytes
    /// are truncated, malformed, or carry trailing garbage.
    spec fn spec_decode(b: Seq<u8>) -> Option<Self::V>;

    /// True when every variable-length field of the record is short
    /// enough for its length to be carried in the encoding's framing.
    /// Every record held in memory satisfies this.
    spec fn value_representable(v: Self::V) -> bool;

    /// Round trip: decoding an encoded record yields the record itself.
    proof fn lemma_value_round_trip(v: Self::V)
        requires
            Self::value_representable(v),
        ensures
            Self::spec_decode(Self::spec_encode(v)) == Some(v),
    ;

    /// Serializes the record to its stored byte blob.
    fn encode(&self) -> (r: Result<Vec<u8>, Error>)
        ensures
            match r {
                Ok(bytes) => Self::value_representable(self@) && bytes@ == Self::spec_encode(
                    self@,
                ),
                Err(e) => e == Error::EncodingError && !Self::value_representable(self@),
            },
    ;

    /// Deserializes a record from raw value bytes; fails exactly on
    /// the byte sequences that no record encodes to.
    fn decode(data: &[u8]) -> (r: Result<Self, Error>)
        ensures
            match r {
                Ok(rec) => Self::spec_decode(data@) == Some(rec@),
                Err(e) => e == Error::DecodingError && Self::spec_decode(data@) is None,
            },
    ;
}

} // verus!
