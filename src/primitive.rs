//! Fixed-width little-endian integers and one-byte booleans.
use vstd::bytes::*;
use vstd::prelude::*;

use crate::codec::{ByteDecode, ByteEncode, ByteTransport};
use crate::decoder::Decoder;
use crate::error::Error;

verus! {

impl ByteEncode for u8 {
    open spec fn spec_encode(&self) -> Seq<u8> {
        seq![*self]
    }

    fn simple_encode(&self, bytes: &mut Vec<u8>) -> (r: Result<(), Error>) {
        bytes.push(*self);
        Ok(())
    }
}

impl ByteDecode for u8 {
    open spec fn spec_decode(s: Seq<u8>) -> Result<(u8, nat), Error> {
        if s.len() >= 1 {
            Ok((s[0], 1))
        } else {
            Err(Error::Truncated)
        }
    }

    open spec fn spec_min_width() -> nat {
        1
    }

    proof fn lemma_decode_shape(s: Seq<u8>) {
    }

    fn simple_decode(decoder: &mut Decoder) -> (r: Result<u8, Error>)
        ensures
            r is Err ==> final(decoder).index == old(decoder).index,
    {
        decoder.read_byte()
    }
}

impl ByteTransport for u8 {
    open spec fn spec_transportable(&self) -> bool {
        true
    }

    proof fn lemma_round_trip(&self, rest: Seq<u8>) {
    }

    proof fn lemma_truncated_prefix(&self, k: nat) {
    }
}

impl ByteEncode for u16 {
    open spec fn spec_encode(&self) -> Seq<u8> {
        spec_u16_to_le_bytes(*self)
    }

    fn simple_encode(&self, bytes: &mut Vec<u8>) -> (r: Result<(), Error>) {
        let mut b = u16_to_le_bytes(*self);
        bytes.append(&mut b);
        Ok(())
    }
}

impl ByteDecode for u16 {
    open spec fn spec_decode(s: Seq<u8>) -> Result<(u16, nat), Error> {
        if s.len() >= 2 {
            Ok((spec_u16_from_le_bytes(s.take(2)), 2))
        } else {
            Err(Error::Truncated)
        }
    }

    open spec fn spec_min_width() -> nat {
        2
    }

    proof fn lemma_decode_shape(s: Seq<u8>) {
    }

    fn simple_decode(decoder: &mut Decoder) -> (r: Result<u16, Error>)
        ensures
            r is Err ==> final(decoder).index == old(decoder).index,
    {
        match decoder.read_fixed(2) {
            Ok(b) => Ok(u16_from_le_bytes(b.as_slice())),
            Err(e) => Err(e),
        }
    }
}

impl ByteTransport for u16 {
    open spec fn spec_transportable(&self) -> bool {
        true
    }

    proof fn lemma_round_trip(&self, rest: Seq<u8>) {
        lemma_auto_spec_u16_to_from_le_bytes();
        assert((self.spec_encode() + rest).take(2) =~= self.spec_encode());
    }

    proof fn lemma_truncated_prefix(&self, k: nat) {
        lemma_auto_spec_u16_to_from_le_bytes();
    }
}

impl ByteEncode for i16 {
    open spec fn spec_encode(&self) -> Seq<u8> {
        spec_u16_to_le_bytes(*self as u16)
    }

    fn simple_encode(&self, bytes: &mut Vec<u8>) -> (r: Result<(), Error>) {
        let mut b = u16_to_le_bytes(*self as u16);
        bytes.append(&mut b);
        Ok(())
    }
}

impl ByteDecode for i16 {
    open spec fn spec_decode(s: Seq<u8>) -> Result<(i16, nat), Error> {
        if s.len() >= 2 {
            Ok((spec_u16_from_le_bytes(s.take(2)) as i16, 2))
        } else {
            Err(Error::Truncated)
        }
    }

    open spec fn spec_min_width() -> nat {
        2
    }

    proof fn lemma_decode_shape(s: Seq<u8>) {
    }

    fn simple_decode(decoder: &mut Decoder) -> (r: Result<i16, Error>)
        ensures
            r is Err ==> final(decoder).index == old(decoder).index,
    {
        match decoder.read_fixed(2) {
            Ok(b) => Ok(u16_from_le_bytes(b.as_slice()) as i16),
            Err(e) => Err(e),
        }
    }
}

impl ByteTransport for i16 {
    open spec fn spec_transportable(&self) -> bool {
        true
    }

    proof fn lemma_round_trip(&self, rest: Seq<u8>) {
        lemma_auto_spec_u16_to_from_le_bytes();
        assert((self.spec_encode() + rest).take(2) =~= self.spec_encode());
        let x = *self;
        assert(((x as u16) as i16) == x) by (bit_vector);
    }

    proof fn lemma_truncated_prefix(&self, k: nat) {
        lemma_auto_spec_u16_to_from_le_bytes();
    }
}

impl ByteEncode for i8 {
    open spec fn spec_encode(&self) -> Seq<u8> {
        seq![*self as u8]
    }

    fn simple_encode(&self, bytes: &mut Vec<u8>) -> (r: Result<(), Error>) {
        bytes.push(*self as u8);
        Ok(())
    }
}

impl ByteDecode for i8 {
    open spec fn spec_decode(s: Seq<u8>) -> Result<(i8, nat), Error> {
        if s.len() >= 1 {
            Ok((s[0] as i8, 1))
        } else {
            Err(Error::Truncated)
        }
    }

    open spec fn spec_min_width() -> nat {
        1
    }

    proof fn lemma_decode_shape(s: Seq<u8>) {
    }

    fn simple_decode(decoder: &mut Decoder) -> (r: Result<i8, Error>)
        ensures
            r is Err ==> final(decoder).index == old(decoder).index,
    {
        match decoder.read_byte() {
            Ok(b) => Ok(b as i8),
            Err(e) => Err(e),
        }
    }
}

impl ByteTransport for i8 {
    open spec fn spec_transportable(&self) -> bool {
        true
    }

    proof fn lemma_round_trip(&self, rest: Seq<u8>) {
        let x = *self;
        assert(((x as u8) as i8) == x) by (bit_vector);
    }

    proof fn lemma_truncated_prefix(&self, k: nat) {
    }
}

impl ByteEncode for u32 {
    open spec fn spec_encode(&self) -> Seq<u8> {
        spec_u32_to_le_bytes(*self)
    }

    fn simple_encode(&self, bytes: &mut Vec<u8>) -> (r: Result<(), Error>) {
        let mut b = u32_to_le_bytes(*self);
        bytes.append(&mut b);
        Ok(())
    }
}

impl ByteDecode for u32 {
    open spec fn spec_decode(s: Seq<u8>) -> Result<(u32, nat), Error> {
        if s.len() >= 4 {
            Ok((spec_u32_from_le_bytes(s.take(4)), 4))
        } else {
            Err(Error::Truncated)
        }
    }

    open spec fn spec_min_width() -> nat {
        4
    }

    proof fn lemma_decode_shape(s: Seq<u8>) {
    }

    fn simple_decode(decoder: &mut Decoder) -> (r: Result<u32, Error>)
        ensures
            r is Err ==> final(decoder).index == old(decoder).index,
    {
        match decoder.read_fixed(4) {
            Ok(b) => Ok(u32_from_le_bytes(b.as_slice())),
            Err(e) => Err(e),
        }
    }
}

impl ByteTransport for u32 {
    open spec fn spec_transportable(&self) -> bool {
        true
    }

    proof fn lemma_round_trip(&self, rest: Seq<u8>) {
        lemma_auto_spec_u32_to_from_le_bytes();
        assert((self.spec_encode() + rest).take(4) =~= self.spec_encode());
    }

    proof fn lemma_truncated_prefix(&self, k: nat) {
        lemma_auto_spec_u32_to_from_le_bytes();
    }
}

impl ByteEncode for i32 {
    open spec fn spec_encode(&self) -> Seq<u8> {
        spec_u32_to_le_bytes(*self as u32)
    }

    fn simple_encode(&self, bytes: &mut Vec<u8>) -> (r: Result<(), Error>) {
        let mut b = u32_to_le_bytes(*self as u32);
        bytes.append(&mut b);
        Ok(())
    }
}

impl ByteDecode for i32 {
    open spec fn spec_decode(s: Seq<u8>) -> Result<(i32, nat), Error> {
        if s.len() >= 4 {
            Ok((spec_u32_from_le_bytes(s.take(4)) as i32, 4))
        } else {
            Err(Error::Truncated)
        }
    }

    open spec fn spec_min_width() -> nat {
        4
    }

    proof fn lemma_decode_shape(s: Seq<u8>) {
    }

    fn simple_decode(decoder: &mut Decoder) -> (r: Result<i32, Error>)
        ensures
            r is Err ==> final(decoder).index == old(decoder).index,
    {
        match decoder.read_fixed(4) {
            Ok(b) => Ok(u32_from_le_bytes(b.as_slice()) as i32),
            Err(e) => Err(e),
        }
    }
}

impl ByteTransport for i32 {
    open spec fn spec_transportable(&self) -> bool {
        true
    }

    proof fn lemma_round_trip(&self, rest: Seq<u8>) {
        lemma_auto_spec_u32_to_from_le_bytes();
        assert((self.spec_encode() + rest).take(4) =~= self.spec_encode());
        let x = *self;
        assert(((x as u32) as i32) == x) by (bit_vector);
    }

    proof fn lemma_truncated_prefix(&self, k: nat) {
        lemma_auto_spec_u32_to_from_le_bytes();
    }
}

impl ByteEncode for u64 {
    open spec fn spec_encode(&self) -> Seq<u8> {
        spec_u64_to_le_bytes(*self)
    }

    fn simple_encode(&self, bytes: &mut Vec<u8>) -> (r: Result<(), Error>) {
        let mut b = u64_to_le_bytes(*self);
        bytes.append(&mut b);
        Ok(())
    }
}

impl ByteDecode for u64 {
    open spec fn spec_decode(s: Seq<u8>) -> Result<(u64, nat), Error> {
        if s.len() >= 8 {
            Ok((spec_u64_from_le_bytes(s.take(8)), 8))
        } else {
            Err(Error::Truncated)
        }
    }

    open spec fn spec_min_width() -> nat {
        8
    }

    proof fn lemma_decode_shape(s: Seq<u8>) {
    }

    fn simple_decode(decoder: &mut Decoder) -> (r: Result<u64, Error>)
        ensures
            r is Err ==> final(decoder).index == old(decoder).index,
    {
        match decoder.read_fixed(8) {
            Ok(b) => Ok(u64_from_le_bytes(b.as_slice())),
            Err(e) => Err(e),
        }
    }
}

impl ByteTransport for u64 {
    open spec fn spec_transportable(&self) -> bool {
        true
    }

    proof fn lemma_round_trip(&self, rest: Seq<u8>) {
        lemma_auto_spec_u64_to_from_le_bytes();
        assert((self.spec_encode() + rest).take(8) =~= self.spec_encode());
    }

    proof fn lemma_truncated_prefix(&self, k: nat) {
        lemma_auto_spec_u64_to_from_le_bytes();
    }
}

impl ByteEncode for i64 {
    open spec fn spec_encode(&self) -> Seq<u8> {
        spec_u64_to_le_bytes(*self as u64)
    }

    fn simple_encode(&self, bytes: &mut Vec<u8>) -> (r: Result<(), Error>) {
        let mut b = u64_to_le_bytes(*self as u64);
        bytes.append(&mut b);
        Ok(())
    }
}

impl ByteDecode for i64 {
    open spec fn spec_decode(s: Seq<u8>) -> Result<(i64, nat), Error> {
        if s.len() >= 8 {
            Ok((spec_u64_from_le_bytes(s.take(8)) as i64, 8))
        } else {
            Err(Error::Truncated)
        }
    }

    open spec fn spec_min_width() -> nat {
        8
    }

    proof fn lemma_decode_shape(s: Seq<u8>) {
    }

    fn simple_decode(decoder: &mut Decoder) -> (r: Result<i64, Error>)
        ensures
            r is Err ==> final(decoder).index == old(decoder).index,
    {
        match decoder.read_fixed(8) {
            Ok(b) => Ok(u64_from_le_bytes(b.as_slice()) as i64),
            Err(e) => Err(e),
        }
    }
}

impl ByteTransport for i64 {
    open spec fn spec_transportable(&self) -> bool {
        true
    }

    proof fn lemma_round_trip(&self, rest: Seq<u8>) {
        lemma_auto_spec_u64_to_from_le_bytes();
        assert((self.spec_encode() + rest).take(8) =~= self.spec_encode());
        let x = *self;
        assert(((x as u64) as i64) == x) by (bit_vector);
    }

    proof fn lemma_truncated_prefix(&self, k: nat) {
        lemma_auto_spec_u64_to_from_le_bytes();
    }
}

impl ByteEncode for u128 {
    open spec fn spec_encode(&self) -> Seq<u8> {
        spec_u128_to_le_bytes(*self)
    }

    fn simple_encode(&self, bytes: &mut Vec<u8>) -> (r: Result<(), Error>) {
        let mut b = u128_to_le_bytes(*self);
        bytes.append(&mut b);
        Ok(())
    }
}

impl ByteDecode for u128 {
    open spec fn spec_decode(s: Seq<u8>) -> Result<(u128, nat), Error> {
        if s.len() >= 16 {
            Ok((spec_u128_from_le_bytes(s.take(16)), 16))
        } else {
            Err(Error::Truncated)
        }
    }

    open spec fn spec_min_width() -> nat {
        16
    }

    proof fn lemma_decode_shape(s: Seq<u8>) {
    }

    fn simple_decode(decoder: &mut Decoder) -> (r: Result<u128, Error>)
        ensures
            r is Err ==> final(decoder).index == old(decoder).index,
    {
        match decoder.read_fixed(16) {
            Ok(b) => Ok(u128_from_le_bytes(b.as_slice())),
            Err(e) => Err(e),
        }
    }
}

impl ByteTransport for u128 {
    open spec fn spec_transportable(&self) -> bool {
        true
    }

    proof fn lemma_round_trip(&self, rest: Seq<u8>) {
        lemma_auto_spec_u128_to_from_le_bytes();
        assert((self.spec_encode() + rest).take(16) =~= self.spec_encode());
    }

    proof fn lemma_truncated_prefix(&self, k: nat) {
        lemma_auto_spec_u128_to_from_le_bytes();
    }
}

impl ByteEncode for i128 {
    open spec fn spec_encode(&self) -> Seq<u8> {
        spec_u128_to_le_bytes(*self as u128)
    }

    fn simple_encode(&self, bytes: &mut Vec<u8>) -> (r: Result<(), Error>) {
        let mut b = u128_to_le_bytes(*self as u128);
        bytes.append(&mut b);
        Ok(())
    }
}

impl ByteDecode for i128 {
    open spec fn spec_decode(s: Seq<u8>) -> Result<(i128, nat), Error> {
        if s.len() >= 16 {
            Ok((spec_u128_from_le_bytes(s.take(16)) as i128, 16))
        } else {
            Err(Error::Truncated)
        }
    }

    open spec fn spec_min_width() -> nat {
        16
    }

    proof fn lemma_decode_shape(s: Seq<u8>) {
    }

    fn simple_decode(decoder: &mut Decoder) -> (r: Result<i128, Error>)
        ensures
            r is Err ==> final(decoder).index == old(decoder).index,
    {
        match decoder.read_fixed(16) {
            Ok(b) => Ok(u128_from_le_bytes(b.as_slice()) as i128),
            Err(e) => Err(e),
        }
    }
}

impl ByteTransport for i128 {
    open spec fn spec_transportable(&self) -> bool {
        true
    }

    proof fn lemma_round_trip(&self, rest: Seq<u8>) {
        lemma_auto_spec_u128_to_from_le_bytes();
        assert((self.spec_encode() + rest).take(16) =~= self.spec_encode());
        let x = *self;
        assert(((x as u128) as i128) == x) by (bit_vector);
    }

    proof fn lemma_truncated_prefix(&self, k: nat) {
        lemma_auto_spec_u128_to_from_le_bytes();
    }
}

impl ByteEncode for bool {
    open spec fn spec_encode(&self) -> Seq<u8> {
        seq![if *self { 1u8 } else { 0u8 }]
    }

    fn simple_encode(&self, bytes: &mut Vec<u8>) -> (r: Result<(), Error>) {
        if *self {
            bytes.push(1u8);
        } else {
            bytes.push(0u8);
        }
        Ok(())
    }
}

impl ByteDecode for bool {
    open spec fn spec_decode(s: Seq<u8>) -> Result<(bool, nat), Error> {
        if s.len() < 1 {
            Err(Error::Truncated)
        } else if s[0] == 0 {
            Ok((false, 1))
        } else if s[0] == 1 {
            Ok((true, 1))
        } else {
            Err(Error::InvalidBool)
        }
    }

    open spec fn spec_min_width() -> nat {
        1
    }

    proof fn lemma_decode_shape(s: Seq<u8>) {
    }

    fn simple_decode(decoder: &mut Decoder) -> (r: Result<bool, Error>) {
        match decoder.read_byte() {
            Ok(0u8) => Ok(false),
            Ok(1u8) => Ok(true),
            Ok(_) => Err(Error::InvalidBool),
            Err(e) => Err(e),
        }
    }
}

impl ByteTransport for bool {
    open spec fn spec_transportable(&self) -> bool {
        true
    }

    proof fn lemma_round_trip(&self, rest: Seq<u8>) {
    }

    proof fn lemma_truncated_prefix(&self, k: nat) {
    }
}

} // verus!
