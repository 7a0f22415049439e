//! Sequences with a 16-bit element count, and fixed-size arrays with none.
use vstd::bytes::*;
use vstd::prelude::*;

use crate::codec::{ByteDecode, ByteEncode, ByteTransport};
use crate::decoder::Decoder;
use crate::error::Error;

verus! {

/// The element count that a sequence of `len` elements writes: 16 bits, so the
/// length modulo 65,536.
pub open spec fn wire_count(len: nat) -> u16 {
    (len % 65536) as u16
}

/// The encodings of the elements of `s`, concatenated in order.
pub open spec fn encode_all<T: ByteEncode>(s: Seq<T>) -> Seq<u8>
    decreases s.len(),
{
    if s.len() == 0 {
        Seq::empty()
    } else {
        s[0].spec_encode() + encode_all(s.skip(1))
    }
}

/// The deep view of each element of `s`.
pub open spec fn deep_seq<T: DeepView>(s: Seq<T>) -> Seq<T::V> {
    s.map_values(|x: T| x.deep_view())
}

/// Decodes `k` elements one after another from the front of `s`: their models
/// and the bytes consumed, or the first element's failure.
pub open spec fn decode_all<T: ByteDecode>(s: Seq<u8>, k: nat) -> Result<(Seq<T::V>, nat), Error>
    decreases k,
{
    if k == 0 {
        Ok((Seq::empty(), 0))
    } else {
        match T::spec_decode(s) {
            Err(e) => Err(e),
            Ok((m, n)) => match decode_all::<T>(s.skip(n as int), (k - 1) as nat) {
                Ok((ms, n2)) => Ok((seq![m] + ms, n + n2)),
                Err(e) => Err(e),
            },
        }
    }
}

/// `r` preceded by models `ms` that took `c` bytes.
pub open spec fn after<V>(ms: Seq<V>, c: nat, r: Result<(Seq<V>, nat), Error>) -> Result<
    (Seq<V>, nat),
    Error,
> {
    match r {
        Ok((ms2, n)) => Ok((ms + ms2, c + n)),
        Err(e) => Err(e),
    }
}

proof fn lemma_encode_all_push<T: ByteEncode>(s: Seq<T>, x: T)
    ensures
        encode_all(s.push(x)) == encode_all(s) + x.spec_encode(),
    decreases s.len(),
{
    if s.len() == 0 {
        assert(s.push(x).skip(1) =~= Seq::<T>::empty());
        assert(encode_all(Seq::<T>::empty()) == Seq::<u8>::empty());
        assert(s.push(x)[0] == x);
        assert(encode_all(s.push(x)) =~= x.spec_encode());
    } else {
        assert(s.push(x).skip(1) =~= s.skip(1).push(x));
        lemma_encode_all_push(s.skip(1), x);
        assert(encode_all(s.push(x)) =~= encode_all(s) + x.spec_encode());
    }
}

proof fn lemma_decode_all_shape<T: ByteDecode>(s: Seq<u8>, k: nat)
    ensures
        decode_all::<T>(s, k) is Ok ==> decode_all::<T>(s, k)->Ok_0.0.len() == k
            && decode_all::<T>(s, k)->Ok_0.1 <= s.len(),
    decreases k,
{
    if k > 0 {
        T::lemma_decode_shape(s);
        if let Ok((m, n)) = T::spec_decode(s) {
            lemma_decode_all_shape::<T>(s.skip(n as int), (k - 1) as nat);
        }
    }
}

/// Decodes `count` elements one after another.
fn decode_elements<T: ByteDecode>(decoder: &mut Decoder, count: usize) -> (r: Result<Vec<T>, Error>)
    ensures
        final(decoder).bytes@ == old(decoder).bytes@,
        old(decoder).index <= old(decoder).bytes@.len() ==> old(decoder).index
            <= final(decoder).index <= final(decoder).bytes@.len(),
        match decode_all::<T>(old(decoder).rest(), count as nat) {
            Ok((ms, n)) => r is Ok && r->Ok_0.deep_view() == ms && r->Ok_0@.len() == count
                && n <= old(decoder).rest().len() && final(decoder).advanced(*old(decoder), n),
            Err(e) => r == Err::<Vec<T>, Error>(e),
        },
{
    let ghost start = *decoder;
    let ghost s0 = decoder.rest();
    let ghost mut consumed: nat = 0;
    let mut out: Vec<T> = Vec::new();
    let mut i: usize = 0;
    assert(s0.skip(0) =~= s0);
    assert(out.deep_view() =~= Seq::<T::V>::empty());
    assert(out.deep_view() + Seq::<T::V>::empty() =~= out.deep_view());
    while i < count
        invariant
            i <= count,
            start == *old(decoder),
            s0 == start.rest(),
            out@.len() == i,
            consumed <= s0.len(),
            decoder.advanced(start, consumed),
            decoder.rest() == s0.skip(consumed as int),
            decode_all::<T>(s0, count as nat) == after(
                out.deep_view(),
                consumed,
                decode_all::<T>(s0.skip(consumed as int), (count - i) as nat),
            ),
        decreases count - i,
    {
        let ghost before = *decoder;
        match T::simple_decode(decoder) {
            Ok(v) => {
                proof {
                    T::lemma_decode_shape(before.rest());
                    let (m, n) = T::spec_decode(before.rest())->Ok_0;
                    decoder.lemma_advanced_rest(before, n);
                    assert(s0.skip(consumed as int).skip(n as int) =~= s0.skip(
                        (consumed + n) as int,
                    ));
                    let k = (count - i - 1) as nat;
                    match decode_all::<T>(s0.skip((consumed + n) as int), k) {
                        Ok((ms, n2)) => {
                            assert(out.deep_view() + (seq![m] + ms) =~= out.deep_view().push(m)
                                + ms);
                        },
                        Err(_) => {},
                    }
                }
                let ghost old_view = out.deep_view();
                out.push(v);
                assert(out.deep_view() =~= old_view.push(v.deep_view()));
                proof {
                    let n = T::spec_decode(before.rest())->Ok_0.1;
                    consumed = consumed + n;
                }
                i = i + 1;
            },
            Err(e) => {
                return Err(e);
            },
        }
    }
    assert(out.deep_view() + Seq::<T::V>::empty() =~= out.deep_view());
    Ok(out)
}

impl<T: ByteEncode> ByteEncode for Vec<T> {
    open spec fn spec_encode(&self) -> Seq<u8> {
        spec_u16_to_le_bytes(wire_count(self@.len())) + encode_all(self@)
    }

    fn simple_encode(&self, bytes: &mut Vec<u8>) -> (r: Result<(), Error>) {
        let count: u16 = (self.len() % 65536) as u16;
        let _ = count.simple_encode(bytes);
        let ghost mid = bytes@;
        let mut i: usize = 0;
        while i < self.len()
            invariant
                i <= self@.len(),
                mid == old(bytes)@ + spec_u16_to_le_bytes(wire_count(self@.len())),
                bytes@ == mid + encode_all(self@.take(i as int)),
            decreases self@.len() - i,
        {
            let _ = self[i].simple_encode(bytes);
            proof {
                lemma_encode_all_push(self@.take(i as int), self@[i as int]);
                assert(self@.take(i + 1) =~= self@.take(i as int).push(self@[i as int]));
            }
            i = i + 1;
        }
        assert(self@.take(i as int) =~= self@);
        Ok(())
    }
}

impl<T: ByteDecode> ByteDecode for Vec<T> {
    open spec fn spec_decode(s: Seq<u8>) -> Result<(Seq<T::V>, nat), Error> {
        if s.len() < 2 {
            Err(Error::Truncated)
        } else {
            match decode_all::<T>(s.skip(2), spec_u16_from_le_bytes(s.take(2)) as nat) {
                Ok((ms, n)) => Ok((ms, n + 2)),
                Err(e) => Err(e),
            }
        }
    }

    open spec fn spec_min_width() -> nat {
        2
    }

    proof fn lemma_decode_shape(s: Seq<u8>) {
        if s.len() >= 2 {
            lemma_decode_all_shape::<T>(s.skip(2), spec_u16_from_le_bytes(s.take(2)) as nat);
        }
    }

    fn simple_decode(decoder: &mut Decoder) -> (r: Result<Vec<T>, Error>) {
        let ghost start = *decoder;
        let count = match u16::simple_decode(decoder) {
            Ok(c) => c,
            Err(e) => {
                return Err(e);
            },
        };
        proof {
            decoder.lemma_advanced_rest(start, 2);
        }
        decode_elements(decoder, count as usize)
    }
}

proof fn lemma_decode_all_encode_all<T: ByteTransport>(s: Seq<T>, rest: Seq<u8>, k: nat)
    requires
        k <= s.len(),
        forall|i: int| 0 <= i < s.len() ==> #[trigger] s[i].spec_transportable(),
    ensures
        decode_all::<T>(encode_all(s) + rest, k) == Ok::<(Seq<T::V>, nat), Error>(
            (deep_seq(s.take(k as int)), encode_all(s.take(k as int)).len()),
        ),
    decreases k,
{
    if k == 0 {
        assert(s.take(0) =~= Seq::<T>::empty());
        assert(deep_seq(s.take(0)) =~= Seq::<T::V>::empty());
        assert(encode_all(Seq::<T>::empty()) == Seq::<u8>::empty());
    } else {
        let x = s[0];
        let tail = s.skip(1);
        assert(encode_all(s) + rest =~= x.spec_encode() + (encode_all(tail) + rest));
        x.lemma_round_trip(encode_all(tail) + rest);
        let n = x.spec_encode().len();
        assert((x.spec_encode() + (encode_all(tail) + rest)).skip(n as int) =~= encode_all(tail)
            + rest);
        assert forall|i: int| 0 <= i < tail.len() implies #[trigger] tail[i].spec_transportable() by {
            assert(tail[i] == s[i + 1]);
        }
        lemma_decode_all_encode_all(tail, rest, (k - 1) as nat);
        let taken = s.take(k as int);
        assert(taken.skip(1) =~= tail.take(k - 1));
        assert(taken[0] == x);
        assert(deep_seq(taken) =~= seq![x.deep_view()] + deep_seq(tail.take(k - 1)));
    }
}

proof fn lemma_decode_all_runs_out<T: ByteTransport>(s: Seq<T>, k: nat)
    requires
        s.len() < k,
        T::spec_min_width() > 0,
        forall|i: int| 0 <= i < s.len() ==> #[trigger] s[i].spec_transportable(),
    ensures
        decode_all::<T>(encode_all(s), k) == Err::<(Seq<T::V>, nat), Error>(Error::Truncated),
    decreases s.len(),
{
    if s.len() == 0 {
        assert(encode_all(s) == Seq::<u8>::empty());
        T::lemma_decode_shape(encode_all(s));
    } else {
        let x = s[0];
        let tail = s.skip(1);
        x.lemma_round_trip(encode_all(tail));
        let n = x.spec_encode().len();
        assert(encode_all(s).skip(n as int) =~= encode_all(tail));
        assert forall|i: int| 0 <= i < tail.len() implies #[trigger] tail[i].spec_transportable() by {
            assert(tail[i] == s[i + 1]);
        }
        lemma_decode_all_runs_out(tail, (k - 1) as nat);
    }
}

proof fn lemma_decode_all_prefix<T: ByteTransport>(s: Seq<T>, j: nat)
    requires
        j < encode_all(s).len(),
        forall|i: int| 0 <= i < s.len() ==> #[trigger] s[i].spec_transportable(),
    ensures
        decode_all::<T>(encode_all(s).take(j as int), s.len()) == Err::<(Seq<T::V>, nat), Error>(
            Error::Truncated,
        ),
    decreases s.len(),
{
    if s.len() == 0 {
        assert(encode_all(s) == Seq::<u8>::empty());
    } else {
        let x = s[0];
        let tail = s.skip(1);
        let e0 = x.spec_encode();
        assert forall|i: int| 0 <= i < tail.len() implies #[trigger] tail[i].spec_transportable() by {
            assert(tail[i] == s[i + 1]);
        }
        if j < e0.len() {
            assert(encode_all(s).take(j as int) =~= e0.take(j as int));
            x.lemma_truncated_prefix(j);
        } else {
            let j2 = (j - e0.len()) as nat;
            let p2 = encode_all(tail).take(j2 as int);
            assert(encode_all(s).take(j as int) =~= e0 + p2);
            x.lemma_round_trip(p2);
            assert((e0 + p2).skip(e0.len() as int) =~= p2);
            lemma_decode_all_prefix(tail, j2);
        }
    }
}

/// Decoding the encoding of a sequence of transportable elements, followed by any
/// bytes, gives back its first `len mod 65,536` elements: the count is 16 bits wide,
/// so a longer sequence loses all but that many.
pub proof fn lemma_sequence_round_trip<T: ByteTransport>(v: Vec<T>, rest: Seq<u8>)
    requires
        forall|i: int| 0 <= i < v@.len() ==> #[trigger] v@[i].spec_transportable(),
    ensures
        ({
            let k = wire_count(v@.len()) as int;
            Vec::<T>::spec_decode(v.spec_encode() + rest) == Ok::<(Seq<T::V>, nat), Error>(
                (v.deep_view().take(k), 2 + encode_all(v@.take(k)).len()),
            )
        }),
{
    let k = wire_count(v@.len()) as int;
    lemma_auto_spec_u16_to_from_le_bytes();
    let head = spec_u16_to_le_bytes(wire_count(v@.len()));
    let s = v.spec_encode() + rest;
    assert(s.take(2) =~= head);
    assert(s.skip(2) =~= encode_all(v@) + rest);
    lemma_decode_all_encode_all(v@, rest, k as nat);
    assert(deep_seq(v@.take(k)) =~= v.deep_view().take(k));
}

/// A sequence whose count promises more elements than the bytes hold fails as
/// truncated.
pub proof fn lemma_sequence_count_exceeds<T: ByteTransport>(count: u16, elems: Seq<T>)
    requires
        elems.len() < count,
        T::spec_min_width() > 0,
        forall|i: int| 0 <= i < elems.len() ==> #[trigger] elems[i].spec_transportable(),
    ensures
        Vec::<T>::spec_decode(spec_u16_to_le_bytes(count) + encode_all(elems)) == Err::<
            (Seq<T::V>, nat),
            Error,
        >(Error::Truncated),
{
    lemma_auto_spec_u16_to_from_le_bytes();
    let s = spec_u16_to_le_bytes(count) + encode_all(elems);
    assert(s.take(2) =~= spec_u16_to_le_bytes(count));
    assert(s.skip(2) =~= encode_all(elems));
    lemma_decode_all_runs_out(elems, count as nat);
}

impl<T: ByteTransport> ByteTransport for Vec<T> {
    /// Sequences up to 65,535 elements long, of transportable elements.
    open spec fn spec_transportable(&self) -> bool {
        &&& self@.len() <= 65535
        &&& forall|i: int| 0 <= i < self@.len() ==> #[trigger] self@[i].spec_transportable()
    }

    proof fn lemma_round_trip(&self, rest: Seq<u8>) {
        lemma_sequence_round_trip(*self, rest);
        lemma_auto_spec_u16_to_from_le_bytes();
        assert(wire_count(self@.len()) == self@.len());
        assert(self@.take(self@.len() as int) =~= self@);
        assert(self.deep_view().take(self@.len() as int) =~= self.deep_view());
    }

    proof fn lemma_truncated_prefix(&self, k: nat) {
        lemma_auto_spec_u16_to_from_le_bytes();
        assert(wire_count(self@.len()) == self@.len());
        if k >= 2 {
            let p = self.spec_encode().take(k as int);
            assert(p.take(2) =~= spec_u16_to_le_bytes(wire_count(self@.len())));
            assert(p.skip(2) =~= encode_all(self@).take(k - 2));
            lemma_decode_all_prefix(self@, (k - 2) as nat);
        }
    }
}

/// Relies on `<[T; N]>::try_from(Vec<T>)`: it succeeds exactly when the vector
/// holds `N` elements, and the array then holds them in order.
#[verifier::external_body]
fn array_from_vec<T, const N: usize>(v: Vec<T>) -> (r: Option<[T; N]>)
    ensures
        r is Some <==> v@.len() == N,
        r is Some ==> r->Some_0@ == v@,
{
    <[T; N]>::try_from(v).ok()
}

impl<T: ByteEncode, const N: usize> ByteEncode for [T; N] {
    /// The elements' encodings, with no count before them.
    open spec fn spec_encode(&self) -> Seq<u8> {
        encode_all(self@)
    }

    fn simple_encode(&self, bytes: &mut Vec<u8>) -> (r: Result<(), Error>) {
        let mut i: usize = 0;
        assert(self@.take(0) =~= Seq::<T>::empty());
        assert(encode_all(Seq::<T>::empty()) == Seq::<u8>::empty());
        assert(bytes@ =~= old(bytes)@ + encode_all(self@.take(0)));
        while i < N
            invariant
                i <= N,
                self@.len() == N,
                bytes@ == old(bytes)@ + encode_all(self@.take(i as int)),
            decreases N - i,
        {
            let _ = self[i].simple_encode(bytes);
            proof {
                lemma_encode_all_push(self@.take(i as int), self@[i as int]);
                assert(self@.take(i + 1) =~= self@.take(i as int).push(self@[i as int]));
            }
            i = i + 1;
        }
        assert(self@.take(i as int) =~= self@);
        Ok(())
    }
}

impl<T: ByteDecode, const N: usize> ByteDecode for [T; N] {
    open spec fn spec_decode(s: Seq<u8>) -> Result<(Seq<T::V>, nat), Error> {
        decode_all::<T>(s, N as nat)
    }

    open spec fn spec_min_width() -> nat {
        if N == 0 {
            0
        } else {
            T::spec_min_width()
        }
    }

    proof fn lemma_decode_shape(s: Seq<u8>) {
        lemma_decode_all_shape::<T>(s, N as nat);
        if N > 0 {
            T::lemma_decode_shape(s);
            if let Ok((m, n)) = T::spec_decode(s) {
                lemma_decode_all_shape::<T>(s.skip(n as int), (N - 1) as nat);
            }
        }
    }

    fn simple_decode(decoder: &mut Decoder) -> (r: Result<[T; N], Error>) {
        match decode_elements::<T>(decoder, N) {
            Ok(v) => match array_from_vec::<T, N>(v) {
                Some(a) => {
                    assert(a.deep_view() =~= v.deep_view());
                    Ok(a)
                },
                None => {
                    proof {
                        assert(false);
                    }
                    Err(Error::Truncated)
                },
            },
            Err(e) => Err(e),
        }
    }
}

impl<T: ByteTransport, const N: usize> ByteTransport for [T; N] {
    /// Arrays of transportable elements.
    open spec fn spec_transportable(&self) -> bool {
        forall|i: int| 0 <= i < N ==> #[trigger] self@[i].spec_transportable()
    }

    proof fn lemma_round_trip(&self, rest: Seq<u8>) {
        assert(self@.len() == N);
        lemma_decode_all_encode_all(self@, rest, N as nat);
        assert(self@.take(N as int) =~= self@);
        assert(deep_seq(self@) =~= self.deep_view());
    }

    proof fn lemma_truncated_prefix(&self, k: nat) {
        assert(self@.len() == N);
        lemma_decode_all_prefix(self@, k);
    }
}

} // verus!
