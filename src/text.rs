//! Strings: a 64-bit byte length, then the UTF-8 bytes; decoding is lossy.
use vstd::bytes::*;
use vstd::prelude::*;
use vstd::utf8::*;

use crate::codec::{ByteDecode, ByteEncode, ByteTransport};
use crate::decoder::Decoder;
use crate::error::Error;

verus! {

/// What `String::from_utf8_lossy` makes of bytes that are not valid UTF-8.
pub uninterp spec fn utf8_lossy(b: Seq<u8>) -> Seq<char>;

/// The characters that a string decode yields for the bytes `b`: those they
/// encode when they are valid UTF-8, else the lossy recovery of them.
pub open spec fn lossy_chars(b: Seq<u8>) -> Seq<char> {
    if valid_utf8(b) {
        decode_utf8(b)
    } else {
        utf8_lossy(b)
    }
}

/// Relies on `String::from_utf8_lossy`: valid UTF-8 becomes the string it encodes;
/// other bytes become a string that depends on them alone, with each invalid
/// sequence replaced by U+FFFD.
#[verifier::external_body]
fn from_utf8_lossy(b: &[u8]) -> (r: String)
    ensures
        valid_utf8(b@) ==> r@ == decode_utf8(b@),
        !valid_utf8(b@) ==> r@ == utf8_lossy(b@),
{
    String::from_utf8_lossy(b).into_owned()
}

impl ByteEncode for String {
    open spec fn spec_encode(&self) -> Seq<u8> {
        spec_u64_to_le_bytes(encode_utf8(self@).len() as u64) + encode_utf8(self@)
    }

    fn simple_encode(&self, bytes: &mut Vec<u8>) -> (r: Result<(), Error>) {
        let raw = self.as_str().as_bytes();
        let n = raw.len();
        let _ = (n as u64).simple_encode(bytes);
        let ghost mid = bytes@;
        let mut i: usize = 0;
        while i < n
            invariant
                i <= n,
                n == raw@.len(),
                raw@ == encode_utf8(self@),
                mid == old(bytes)@ + spec_u64_to_le_bytes(encode_utf8(self@).len() as u64),
                bytes@ == mid + raw@.take(i as int),
            decreases n - i,
        {
            bytes.push(raw[i]);
            i = i + 1;
            assert(bytes@ =~= mid + raw@.take(i as int));
        }
        assert(raw@.take(n as int) =~= raw@);
        Ok(())
    }
}

impl ByteDecode for String {
    open spec fn spec_decode(s: Seq<u8>) -> Result<(Seq<char>, nat), Error> {
        if s.len() < 8 {
            Err(Error::Truncated)
        } else {
            let n = spec_u64_from_le_bytes(s.take(8)) as nat;
            if s.len() - 8 < n {
                Err(Error::Truncated)
            } else {
                Ok((lossy_chars(s.subrange(8, 8 + n as int)), 8 + n))
            }
        }
    }

    open spec fn spec_min_width() -> nat {
        8
    }

    proof fn lemma_decode_shape(s: Seq<u8>) {
    }

    fn simple_decode(decoder: &mut Decoder) -> (r: Result<String, Error>) {
        let ghost start = *decoder;
        let n = match u64::simple_decode(decoder) {
            Ok(n) => n,
            Err(e) => {
                return Err(e);
            },
        };
        proof {
            decoder.lemma_advanced_rest(start, 8);
        }
        let remaining: usize = decoder.bytes.len() - decoder.index;
        if n > remaining as u64 {
            return Err(Error::Truncated);
        }
        let ghost mid = *decoder;
        let raw = match decoder.read_fixed(n as usize) {
            Ok(raw) => raw,
            Err(e) => {
                return Err(e);
            },
        };
        assert(raw@ =~= start.rest().subrange(8, 8 + n as int));
        Ok(from_utf8_lossy(raw.as_slice()))
    }
}

impl ByteTransport for String {
    /// Strings whose UTF-8 length fits the 64-bit length field.
    open spec fn spec_transportable(&self) -> bool {
        encode_utf8(self@).len() <= u64::MAX
    }

    proof fn lemma_round_trip(&self, rest: Seq<u8>) {
        lemma_auto_spec_u64_to_from_le_bytes();
        let raw = encode_utf8(self@);
        let s = self.spec_encode() + rest;
        assert(s.take(8) =~= spec_u64_to_le_bytes(raw.len() as u64));
        assert(s.subrange(8, 8 + raw.len() as int) =~= raw);
        encode_utf8_valid_utf8(self@);
        encode_utf8_decode_utf8(self@);
    }

    proof fn lemma_truncated_prefix(&self, k: nat) {
        lemma_auto_spec_u64_to_from_le_bytes();
        let raw = encode_utf8(self@);
        let p = self.spec_encode().take(k as int);
        if k >= 8 {
            assert(p.take(8) =~= spec_u64_to_le_bytes(raw.len() as u64));
        }
    }
}

} // verus!
