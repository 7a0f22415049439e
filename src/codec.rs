//! The two codec capabilities, the round-trip contract that ties them, and
//! whole-buffer entry points.
use vstd::prelude::*;

use crate::decoder::Decoder;
use crate::error::Error;

verus! {

/// A type with a wire encoding.
pub trait ByteEncode {
    /// The bytes that encode this value.
    spec fn spec_encode(&self) -> Seq<u8>;

    /// Appends the encoding of `self` to `bytes`; never fails.
    fn simple_encode(&self, bytes: &mut Vec<u8>) -> (r: Result<(), Error>)
        ensures
            r is Ok,
            final(bytes)@ == old(bytes)@ + self.spec_encode(),
    ;
}

/// A type that can be read back from its wire encoding.
///
/// The decoded value is described by its deep view, so that containers of
/// values can be described too.
pub trait ByteDecode: Sized + DeepView {
    /// What a decode reads from the front of `s`: the model of the value and the
    /// number of bytes consumed, or the reason it fails.
    spec fn spec_decode(s: Seq<u8>) -> Result<(Self::V, nat), Error>;

    /// The fewest bytes that any successful decode of this type consumes.
    spec fn spec_min_width() -> nat;

    /// A decode consumes no more than it is given, and a buffer shorter than the
    /// least width is truncated.
    proof fn lemma_decode_shape(s: Seq<u8>)
        ensures
            Self::spec_decode(s) is Ok ==> Self::spec_min_width() <= Self::spec_decode(s)->Ok_0.1
                <= s.len(),
            s.len() < Self::spec_min_width() ==> Self::spec_decode(s) == Err::<
                (Self::V, nat),
                Error,
            >(Error::Truncated),
    ;

    /// Decodes one value at the cursor, advancing it past the bytes read. The
    /// cursor stays within the buffer whatever the outcome.
    fn simple_decode(decoder: &mut Decoder) -> (r: Result<Self, Error>)
        ensures
            final(decoder).bytes@ == old(decoder).bytes@,
            old(decoder).index <= old(decoder).bytes@.len() ==> old(decoder).index
                <= final(decoder).index <= final(decoder).bytes@.len(),
            match Self::spec_decode(old(decoder).rest()) {
                Ok((m, n)) => r is Ok && r->Ok_0.deep_view() == m && final(decoder).advanced(
                    *old(decoder),
                    n,
                ),
                Err(e) => r == Err::<Self, Error>(e),
            },
    ;
}

/// A type whose decode reads back what its encode wrote.
pub trait ByteTransport: ByteEncode + ByteDecode {
    /// The values that survive a round trip (all of them, for most types).
    spec fn spec_transportable(&self) -> bool;

    /// Decoding the encoding of a transportable value, followed by any bytes,
    /// gives the value back and consumes exactly its encoding.
    proof fn lemma_round_trip(&self, rest: Seq<u8>)
        requires
            self.spec_transportable(),
        ensures
            Self::spec_decode(self.spec_encode() + rest) == Ok::<(Self::V, nat), Error>(
                (self.deep_view(), self.spec_encode().len()),
            ),
    ;

    /// Every strict prefix of the encoding of a transportable value fails to
    /// decode as truncated input.
    proof fn lemma_truncated_prefix(&self, k: nat)
        requires
            self.spec_transportable(),
            k < self.spec_encode().len(),
        ensures
            Self::spec_decode(self.spec_encode().take(k as int)) == Err::<(Self::V, nat), Error>(
                Error::Truncated,
            ),
    ;
}

/// The encoding of `value`, in a buffer of its own.
pub fn encode<T: ByteEncode>(value: &T) -> (r: Vec<u8>)
    ensures
        r@ == value.spec_encode(),
{
    let mut bytes: Vec<u8> = Vec::new();
    let _ = value.simple_encode(&mut bytes);
    assert(bytes@ =~= value.spec_encode());
    bytes
}

/// Decodes a value of type `T` from the front of `bytes`; bytes after it are
/// left unread.
pub fn decode<T: ByteDecode>(bytes: Vec<u8>) -> (r: Result<T, Error>)
    ensures
        match T::spec_decode(bytes@) {
            Ok((m, n)) => r is Ok && r->Ok_0.deep_view() == m,
            Err(e) => r == Err::<T, Error>(e),
        },
{
    let mut decoder = Decoder::new(bytes);
    T::simple_decode(&mut decoder)
}

/// Decoding the encoding of a transportable value gives the value back.
pub proof fn lemma_decode_of_encode<T: ByteTransport>(v: T)
    requires
        v.spec_transportable(),
    ensures
        T::spec_decode(v.spec_encode()) == Ok::<(T::V, nat), Error>(
            (v.deep_view(), v.spec_encode().len()),
        ),
{
    v.lemma_round_trip(Seq::empty());
    assert(v.spec_encode() + Seq::<u8>::empty() =~= v.spec_encode());
}

} // verus!
