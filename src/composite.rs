//! Optional values: a tag byte, then the value when present.
use vstd::bytes::*;
use vstd::prelude::*;

use crate::codec::{ByteDecode, ByteEncode, ByteTransport};
use crate::decoder::Decoder;
use crate::error::Error;

verus! {

/// Tag byte of a present optional value.
pub const SOME_FLAG: u8 = 1;

/// Tag byte of an absent optional value.
pub const NONE_FLAG: u8 = 0;

impl<T: ByteEncode> ByteEncode for Option<T> {
    open spec fn spec_encode(&self) -> Seq<u8> {
        match self {
            Some(v) => seq![SOME_FLAG] + v.spec_encode(),
            None => seq![NONE_FLAG],
        }
    }

    fn simple_encode(&self, bytes: &mut Vec<u8>) -> (r: Result<(), Error>) {
        match self {
            Some(v) => {
                bytes.push(SOME_FLAG);
                let r = v.simple_encode(bytes);
                assert(final(bytes)@ =~= old(bytes)@ + self.spec_encode());
                r
            },
            None => {
                bytes.push(NONE_FLAG);
                Ok(())
            },
        }
    }
}

impl<T: ByteDecode> ByteDecode for Option<T> {
    open spec fn spec_decode(s: Seq<u8>) -> Result<(Option<T::V>, nat), Error> {
        if s.len() < 1 {
            Err(Error::Truncated)
        } else if s[0] == SOME_FLAG {
            match T::spec_decode(s.skip(1)) {
                Ok((m, n)) => Ok((Some(m), n + 1)),
                Err(e) => Err(e),
            }
        } else if s[0] == NONE_FLAG {
            Ok((None, 1))
        } else {
            Err(Error::InvalidOptionFlag)
        }
    }

    open spec fn spec_min_width() -> nat {
        1
    }

    proof fn lemma_decode_shape(s: Seq<u8>) {
        if s.len() >= 1 {
            T::lemma_decode_shape(s.skip(1));
        }
    }

    fn simple_decode(decoder: &mut Decoder) -> (r: Result<Option<T>, Error>) {
        let ghost start = *decoder;
        match decoder.read_byte() {
            Ok(tag) => {
                if tag == SOME_FLAG {
                    proof {
                        decoder.lemma_advanced_rest(start, 1);
                    }
                    match T::simple_decode(decoder) {
                        Ok(v) => Ok(Some(v)),
                        Err(e) => Err(e),
                    }
                } else if tag == NONE_FLAG {
                    Ok(None)
                } else {
                    Err(Error::InvalidOptionFlag)
                }
            },
            Err(e) => Err(e),
        }
    }
}

impl<T: ByteTransport> ByteTransport for Option<T> {
    open spec fn spec_transportable(&self) -> bool {
        match self {
            Some(v) => v.spec_transportable(),
            None => true,
        }
    }

    proof fn lemma_round_trip(&self, rest: Seq<u8>) {
        match self {
            Some(v) => {
                v.lemma_round_trip(rest);
                assert((self.spec_encode() + rest).skip(1) =~= v.spec_encode() + rest);
            },
            None => {},
        }
    }

    proof fn lemma_truncated_prefix(&self, k: nat) {
        if let Some(v) = self {
            if k >= 1 {
                assert(self.spec_encode().take(k as int).skip(1) =~= v.spec_encode().take(
                    k - 1,
                ));
                v.lemma_truncated_prefix((k - 1) as nat);
            }
        }
    }
}

} // verus!
