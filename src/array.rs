//! Arrays: a length, then the encoding of each element in order.
use vstd::prelude::*;

use crate::codec::{
    length_bytes, length_limit, lemma_length_round_trip, lemma_parse_int_range, parse_length, AvroCodec,
};
use crate::cursor::ByteCursor;

verus! {

/// Puts `vs` in front of the models of a decode and adds `m` to the bytes it consumed.
pub open spec fn prepend<V>(vs: Seq<V>, m: nat, o: Option<(Seq<V>, nat)>) -> Option<(Seq<V>, nat)> {
    match o {
        Some((ws, k)) => Some((vs + ws, m + k)),
        None => None,
    }
}

/// `k` values of `T` read one after another from the front of `s`.
pub open spec fn decode_items<T: AvroCodec>(s: Seq<u8>, k: nat) -> Option<(Seq<T::V>, nat)>
    decreases k,
{
    if k == 0 {
        Some((Seq::empty(), 0))
    } else {
        match T::spec_decode(s) {
            Some((v, n)) => prepend(seq![v], n, decode_items::<T>(s.skip(n as int), (k - 1) as nat)),
            None => None,
        }
    }
}

/// The encodings of the values `vs`, concatenated in order.
pub open spec fn encode_items<T: AvroCodec>(vs: Seq<T::V>) -> Seq<u8>
    decreases vs.len(),
{
    if vs.len() == 0 {
        Seq::empty()
    } else {
        T::spec_encode(vs[0]) + encode_items::<T>(vs.skip(1))
    }
}

/// An array read from the front of `s`: a length, then that many values of `T`.
pub open spec fn parse_array<T: AvroCodec>(s: Seq<u8>) -> Option<(Seq<T::V>, nat)> {
    match parse_length(s) {
        Some((count, n)) => prepend(Seq::empty(), n, decode_items::<T>(s.skip(n as int), count)),
        None => None,
    }
}

proof fn lemma_prepend_prepend<V>(a: Seq<V>, m: nat, b: Seq<V>, n: nat, o: Option<(Seq<V>, nat)>)
    ensures
        prepend(a, m, prepend(b, n, o)) == prepend(a + b, m + n, o),
{
    if let Some((ws, k)) = o {
        assert(a + (b + ws) =~= (a + b) + ws);
    }
}

proof fn lemma_encode_items_push<T: AvroCodec>(vs: Seq<T::V>, x: T::V)
    ensures
        encode_items::<T>(vs.push(x)) == encode_items::<T>(vs) + T::spec_encode(x),
    decreases vs.len(),
{
    if vs.len() == 0 {
        assert(vs.push(x).skip(1) =~= Seq::<T::V>::empty());
        assert(encode_items::<T>(vs.push(x).skip(1)) == Seq::<u8>::empty());
        assert(encode_items::<T>(vs) == Seq::<u8>::empty());
        assert(encode_items::<T>(vs.push(x)) =~= encode_items::<T>(vs) + T::spec_encode(x));
    } else {
        assert(vs.push(x).skip(1) =~= vs.skip(1).push(x));
        lemma_encode_items_push::<T>(vs.skip(1), x);
        assert(encode_items::<T>(vs.push(x)) =~= encode_items::<T>(vs) + T::spec_encode(x));
    }
}

/// Values that each round-trip are read back in order from their concatenated
/// encodings, whatever follows them.
pub proof fn lemma_items_round_trip<T: AvroCodec>(vs: Seq<T::V>, rest: Seq<u8>)
    requires
        forall|i: int| 0 <= i < vs.len() ==> T::spec_round_trips(#[trigger] vs[i]),
    ensures
        decode_items::<T>(encode_items::<T>(vs) + rest, vs.len()) == Some(
            (vs, encode_items::<T>(vs).len()),
        ),
    decreases vs.len(),
{
    if vs.len() > 0 {
        let tail = vs.skip(1);
        let s = encode_items::<T>(vs) + rest;
        assert forall|i: int| 0 <= i < tail.len() implies T::spec_round_trips(#[trigger] tail[i]) by {
            assert(tail[i] == vs[i + 1]);
        }
        lemma_items_round_trip::<T>(tail, rest);
        assert(s =~= T::spec_encode(vs[0]) + (encode_items::<T>(tail) + rest));
        T::lemma_round_trip(vs[0], encode_items::<T>(tail) + rest);
        assert(s.skip(T::spec_encode(vs[0]).len() as int) =~= encode_items::<T>(tail) + rest);
        assert(seq![vs[0]] + tail =~= vs);
    }
}

impl<T: AvroCodec> AvroCodec for Vec<T> {
    open spec fn spec_encodable(v: Seq<T::V>) -> bool {
        &&& v.len() < length_limit()
        &&& forall|i: int| 0 <= i < v.len() ==> T::spec_encodable(#[trigger] v[i])
    }

    open spec fn spec_encode(v: Seq<T::V>) -> Seq<u8> {
        length_bytes(v.len()) + encode_items::<T>(v)
    }

    open spec fn spec_decode(s: Seq<u8>) -> Option<(Seq<T::V>, nat)> {
        parse_array::<T>(s)
    }

    open spec fn spec_round_trips(v: Seq<T::V>) -> bool {
        &&& v.len() < length_limit()
        &&& forall|i: int| 0 <= i < v.len() ==> T::spec_round_trips(#[trigger] v[i])
    }

    proof fn lemma_round_trip(v: Seq<T::V>, rest: Seq<u8>) {
        let body = encode_items::<T>(v);
        let s = length_bytes(v.len()) + body + rest;
        lemma_length_round_trip(v.len(), body + rest);
        assert(s =~= length_bytes(v.len()) + (body + rest));
        assert(s.skip(length_bytes(v.len()).len() as int) =~= body + rest);
        lemma_items_round_trip::<T>(v, rest);
        assert(Seq::<T::V>::empty() + v =~= v);
    }

    fn encode(&self) -> (r: Vec<u8>) {
        let mut out = self.len().encode();
        let mut i: usize = 0;
        while i < self.len()
            invariant
                i <= self.len(),
                forall|j: int| 0 <= j < self.len() ==> T::spec_encodable(#[trigger] self.deep_view()[j]),
                out@ == length_bytes(self.len() as nat) + encode_items::<T>(self.deep_view().take(i as int)),
            decreases self.len() - i,
        {
            assert(T::spec_encodable(self.deep_view()[i as int]));
            let mut e = self[i].encode();
            proof {
                assert(self.deep_view().take(i + 1) =~= self.deep_view().take(i as int).push(self[i as int].deep_view()));
                lemma_encode_items_push::<T>(self.deep_view().take(i as int), self[i as int].deep_view());
            }
            out.append(&mut e);
            i = i + 1;
        }
        proof {
            assert(self.deep_view().take(i as int) =~= self.deep_view());
        }
        out
    }

    fn decode(bytes: &mut ByteCursor) -> (r: Option<Vec<T>>) {
        let count = match usize::decode(bytes) {
            Some(count) => count,
            None => return None,
        };
        let ghost start = bytes@;
        let ghost head: nat = (old(bytes)@.len() - start.len()) as nat;
        let ghost mut used: nat = 0;
        proof {
            let (c, n) = parse_length(old(bytes)@).unwrap();
            lemma_parse_int_range(old(bytes)@);
            assert(n == head);
            assert(c == count as nat);
            assert(start == old(bytes)@.skip(head as int));
        }
        let mut out: Vec<T> = Vec::new();
        let mut i: usize = 0;
        proof {
            assert(start.skip(0) =~= start);
            assert(Seq::<T::V>::empty() + out.deep_view() =~= out.deep_view());
        }
        while i < count
            invariant
                i <= count,
                head <= old(bytes)@.len(),
                start == old(bytes)@.skip(head as int),
                parse_array::<T>(old(bytes)@) == prepend(
                    Seq::<T::V>::empty(),
                    head,
                    decode_items::<T>(start, count as nat),
                ),
                used <= start.len(),
                bytes@ == start.skip(used as int),
                decode_items::<T>(start, count as nat) == prepend(
                    out.deep_view(),
                    used,
                    decode_items::<T>(bytes@, (count - i) as nat),
                ),
            decreases count - i,
        {
            let ghost before = bytes@;
            match T::decode(bytes) {
                Some(x) => {
                    proof {
                        let (v, n) = T::spec_decode(before).unwrap();
                        lemma_prepend_prepend(
                            out.deep_view(),
                            used,
                            seq![v],
                            n,
                            decode_items::<T>(bytes@, (count - i - 1) as nat),
                        );
                        assert(out.deep_view() + seq![v] =~= out.deep_view().push(x.deep_view()));
                        assert(bytes@ =~= start.skip((used + n) as int));
                        used = used + n;
                    }
                    let ghost prev = out.deep_view();
                    let ghost xv = x.deep_view();
                    out.push(x);
                    proof {
                        assert(out.deep_view() =~= prev.push(xv));
                    }
                    i = i + 1;
                },
                None => {
                    assert(decode_items::<T>(before, (count - i) as nat) is None);
                    return None;
                },
            }
        }
        proof {
            assert(out.deep_view() + Seq::<T::V>::empty() =~= out.deep_view());
            assert(Seq::<T::V>::empty() + out.deep_view() =~= out.deep_view());
            assert(bytes@ =~= old(bytes)@.skip((head + used) as int));
        }
        Some(out)
    }
}

} // verus!
