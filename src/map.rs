//! Maps from string keys to values of one type.
use vstd::prelude::*;
use vstd::utf8::{encode_utf8, encode_utf8_decode_utf8};

use crate::array::encode_items;
use crate::codec::{
    lemma_zero_encoding, length_bytes, length_limit, lemma_length_round_trip, lemma_parse_int_range, parse_length,
    parse_string, string_bytes, AvroCodec,
};
use crate::cursor::ByteCursor;

verus! {

/// A map from strings to values of `T`. Each key occurs once; entries stay in
/// the order in which their keys were first inserted.
pub struct StringMap<T> {
    entries: Vec<(String, T)>,
}

/// The model of a map: its entries, key and value, in order.
pub type Entries<V> = Seq<(Seq<char>, V)>;

/// No key occurs twice.
pub open spec fn keys_unique<V>(es: Entries<V>) -> bool {
    forall|i: int, j: int| 0 <= i < j < es.len() ==> es[i].0 != es[j].0
}

/// `k` is the key of some entry.
pub open spec fn has_key<V>(es: Entries<V>, k: Seq<char>) -> bool {
    exists|i: int| 0 <= i < es.len() && es[i].0 == k
}

/// Inserting `k` with `v`: the entry of `k`, if there is one, gets the new
/// value in place; otherwise the pair goes last.
pub open spec fn insert_entry<V>(es: Entries<V>, k: Seq<char>, v: V) -> Entries<V> {
    if has_key(es, k) {
        es.update(choose|i: int| 0 <= i < es.len() && es[i].0 == k, (k, v))
    } else {
        es.push((k, v))
    }
}

impl<T: DeepView> DeepView for StringMap<T> {
    type V = Entries<T::V>;

    closed spec fn deep_view(&self) -> Entries<T::V> {
        Seq::new(self.entries.len() as nat, |i: int| (self.entries[i].0@, self.entries[i].1.deep_view()))
    }
}

fn same_key(a: &String, b: &String) -> (r: bool)
    ensures
        r == (a@ == b@),
{
    let x = a.as_str().as_bytes();
    let y = b.as_str().as_bytes();
    proof {
        encode_utf8_decode_utf8(a@);
        encode_utf8_decode_utf8(b@);
        assert(x@ == encode_utf8(a@));
        assert(y@ == encode_utf8(b@));
    }
    if x.len() != y.len() {
        assert(x@.len() != y@.len());
        assert(x@ != y@);
        return false;
    }
    let mut i: usize = 0;
    while i < x.len()
        invariant
            i <= x@.len(),
            x@.len() == y@.len(),
            x@ == encode_utf8(a@),
            y@ == encode_utf8(b@),
            forall|j: int| 0 <= j < i ==> x@[j] == y@[j],
        decreases x@.len() - i,
    {
        if x[i] != y[i] {
            assert(x@ != y@);
            return false;
        }
        i = i + 1;
    }
    assert(x@ =~= y@);
    true
}

impl<T: DeepView> StringMap<T> {
    /// An empty map.
    pub fn new() -> (r: StringMap<T>)
        ensures
            r.deep_view() == Seq::<(Seq<char>, T::V)>::empty(),
    {
        let r = StringMap { entries: Vec::new() };
        assert(r.deep_view() =~= Seq::<(Seq<char>, T::V)>::empty());
        r
    }

    /// The number of entries.
    pub fn len(&self) -> (r: usize)
        ensures
            r == self.deep_view().len(),
    {
        self.entries.len()
    }

    /// Whether the map has no entry.
    pub fn is_empty(&self) -> (r: bool)
        ensures
            r == (self.deep_view().len() == 0),
    {
        self.entries.len() == 0
    }

    /// Inserts `v` under `k`, replacing the value of an existing entry of `k`.
    pub fn insert(&mut self, k: String, v: T)
        requires
            keys_unique(old(self).deep_view()),
        ensures
            final(self).deep_view() == insert_entry(old(self).deep_view(), k@, v.deep_view()),
            keys_unique(final(self).deep_view()),
    {
        let ghost es = self.deep_view();
        let ghost kv = (k@, v.deep_view());
        let mut i: usize = 0;
        while i < self.entries.len()
            invariant
                i <= self.entries.len(),
                es == self.deep_view(),
                es == old(self).deep_view(),
                kv == (k@, v.deep_view()),
                keys_unique(es),
                forall|j: int| 0 <= j < i ==> es[j].0 != k@,
            decreases self.entries.len() - i,
        {
            if same_key(&self.entries[i].0, &k) {
                proof {
                    assert(es[i as int].0 == k@);
                    let c = choose|j: int| 0 <= j < es.len() && es[j].0 == k@;
                    assert(c == i);
                }
                self.entries.set(i, (k, v));
                proof {
                    assert(self.deep_view() =~= es.update(i as int, kv));
                }
                return;
            }
            i = i + 1;
        }
        self.entries.push((k, v));
        proof {
            assert(self.deep_view() =~= es.push(kv));
        }
    }

    /// The value stored under `k`, if `k` has an entry.
    pub fn get(&self, k: &str) -> (r: Option<&T>)
        ensures
            r is Some <==> has_key(self.deep_view(), k@),
            r matches Some(x) ==> exists|i: int|
                0 <= i < self.deep_view().len() && self.deep_view()[i] == (k@, x.deep_view()),
    {
        let key = k.to_owned();
        let mut i: usize = 0;
        while i < self.entries.len()
            invariant
                i <= self.entries.len(),
                key@ == k@,
                forall|j: int| 0 <= j < i ==> self.deep_view()[j].0 != k@,
            decreases self.entries.len() - i,
        {
            if same_key(&self.entries[i].0, &key) {
                assert(self.deep_view()[i as int] == (k@, self.entries[i as int].1.deep_view()));
                return Some(&self.entries[i].1);
            }
            i = i + 1;
        }
        None
    }
}

/// Adds `m` to the bytes that a decode consumed.
pub open spec fn shift<V>(m: nat, o: Option<(V, nat)>) -> Option<(V, nat)> {
    match o {
        Some((x, k)) => Some((x, m + k)),
        None => None,
    }
}

/// `k` key-value pairs read one after another from the front of `s` and
/// inserted in turn into `acc`.
pub open spec fn decode_entries<T: AvroCodec>(s: Seq<u8>, k: nat, acc: Entries<T::V>) -> Option<
    (Entries<T::V>, nat),
>
    decreases k,
{
    if k == 0 {
        Some((acc, 0))
    } else {
        match parse_string(s) {
            Some((key, n1)) => match T::spec_decode(s.skip(n1 as int)) {
                Some((v, n2)) => shift(
                    n1 + n2,
                    decode_entries::<T>(
                        s.skip((n1 + n2) as int),
                        (k - 1) as nat,
                        insert_entry(acc, key, v),
                    ),
                ),
                None => None,
            },
            None => None,
        }
    }
}

/// A map read from the front of `s`: a count, then that many pairs of a
/// string key and a value. A byte that follows the pairs is not read.
pub open spec fn parse_map<T: AvroCodec>(s: Seq<u8>) -> Option<(Entries<T::V>, nat)> {
    match parse_length(s) {
        Some((count, n)) => shift(n, decode_entries::<T>(s.skip(n as int), count, Seq::empty())),
        None => None,
    }
}

/// The encodings of the entries `es`, key then value, in order.
pub open spec fn encode_entries<T: AvroCodec>(es: Entries<T::V>) -> Seq<u8>
    decreases es.len(),
{
    if es.len() == 0 {
        Seq::empty()
    } else {
        string_bytes(es[0].0) + T::spec_encode(es[0].1) + encode_entries::<T>(es.skip(1))
    }
}

/// The encoding of a map: a single zero byte when it is empty; otherwise the
/// count, the entries, and a trailing zero byte.
pub open spec fn map_bytes<T: AvroCodec>(es: Entries<T::V>) -> Seq<u8> {
    if es.len() == 0 {
        seq![0u8]
    } else {
        length_bytes(es.len()) + encode_entries::<T>(es) + seq![0u8]
    }
}

/// The maps whose encoding is read back as themselves: keys unique, a count
/// and keys that the length encoding carries, values that round-trip.
pub open spec fn map_round_trips<T: AvroCodec>(es: Entries<T::V>) -> bool {
    &&& keys_unique(es)
    &&& es.len() < length_limit()
    &&& forall|i: int| 0 <= i < es.len() ==> String::spec_round_trips(#[trigger] es[i].0)
        && T::spec_round_trips(es[i].1)
}

proof fn lemma_encode_entries_push<T: AvroCodec>(es: Entries<T::V>, e: (Seq<char>, T::V))
    ensures
        encode_entries::<T>(es.push(e)) == encode_entries::<T>(es) + string_bytes(e.0)
            + T::spec_encode(e.1),
    decreases es.len(),
{
    if es.len() == 0 {
        assert(es.push(e).skip(1) =~= Seq::<(Seq<char>, T::V)>::empty());
        assert(encode_entries::<T>(es.push(e).skip(1)) == Seq::<u8>::empty());
        assert(encode_entries::<T>(es) == Seq::<u8>::empty());
    } else {
        assert(es.push(e).skip(1) =~= es.skip(1).push(e));
        lemma_encode_entries_push::<T>(es.skip(1), e);
    }
    assert(encode_entries::<T>(es.push(e)) =~= encode_entries::<T>(es) + string_bytes(e.0)
        + T::spec_encode(e.1));
}

proof fn lemma_entries_round_trip<T: AvroCodec>(acc: Entries<T::V>, es: Entries<T::V>, rest: Seq<u8>)
    requires
        keys_unique(acc + es),
        forall|i: int| 0 <= i < es.len() ==> String::spec_round_trips(#[trigger] es[i].0)
            && T::spec_round_trips(es[i].1),
    ensures
        decode_entries::<T>(encode_entries::<T>(es) + rest, es.len(), acc) == Some(
            (acc + es, encode_entries::<T>(es).len()),
        ),
    decreases es.len(),
{
    if es.len() == 0 {
        assert(acc + es =~= acc);
    } else {
        let (k0, v0) = es[0];
        let tail = es.skip(1);
        let s = encode_entries::<T>(es) + rest;
        let after_value = encode_entries::<T>(tail) + rest;
        let after_key = T::spec_encode(v0) + after_value;
        assert(String::spec_round_trips(es[0].0) && T::spec_round_trips(es[0].1));
        assert(s =~= string_bytes(k0) + after_key);
        String::lemma_round_trip(k0, after_key);
        assert(s.skip(string_bytes(k0).len() as int) =~= after_key);
        T::lemma_round_trip(v0, after_value);
        assert(s.skip((string_bytes(k0).len() + T::spec_encode(v0).len()) as int) =~= after_value);
        assert(!has_key(acc, k0)) by {
            if has_key(acc, k0) {
                let i = choose|i: int| 0 <= i < acc.len() && acc[i].0 == k0;
                assert((acc + es)[i].0 == (acc + es)[acc.len() as int].0);
            }
        }
        let acc2 = acc.push((k0, v0));
        assert(acc2 + tail =~= acc + es);
        assert forall|i: int| 0 <= i < tail.len() implies String::spec_round_trips(
            #[trigger] tail[i].0,
        ) && T::spec_round_trips(tail[i].1) by {
            assert(tail[i] == es[i + 1]);
        }
        lemma_entries_round_trip::<T>(acc2, tail, rest);
    }
}

/// The encoding of a map whose keys are unique is read back as the same
/// entries, in the same order. The decoder consumes the count and the pairs,
/// and leaves the trailing zero byte of a non-empty map unread.
pub proof fn lemma_map_round_trip<T: AvroCodec>(es: Entries<T::V>, rest: Seq<u8>)
    requires
        map_round_trips::<T>(es),
    ensures
        parse_map::<T>(map_bytes::<T>(es) + rest) == Some(
            (es, if es.len() == 0 {
                1nat
            } else {
                (map_bytes::<T>(es).len() - 1) as nat
            }),
        ),
{
    let s = map_bytes::<T>(es) + rest;
    if es.len() == 0 {
        assert(length_bytes(0) =~= seq![0u8]);
        lemma_length_round_trip(0, rest);
        assert(s =~= length_bytes(0) + rest);
    } else {
        let lb = length_bytes(es.len());
        let body = encode_entries::<T>(es);
        let tail = seq![0u8] + rest;
        assert(s =~= lb + (body + tail));
        lemma_length_round_trip(es.len(), body + tail);
        assert(s.skip(lb.len() as int) =~= body + tail);
        assert(Seq::<(Seq<char>, T::V)>::empty() + es =~= es);
        lemma_entries_round_trip::<T>(Seq::empty(), es, tail);
    }
}

/// Inserting into entries whose keys are unique keeps them unique.
pub proof fn lemma_insert_keeps_keys_unique<V>(es: Entries<V>, k: Seq<char>, v: V)
    requires
        keys_unique(es),
    ensures
        keys_unique(insert_entry(es, k, v)),
{
    let r = insert_entry(es, k, v);
    if has_key(es, k) {
        let c = choose|i: int| 0 <= i < es.len() && es[i].0 == k;
        assert forall|i: int, j: int| 0 <= i < j < r.len() implies r[i].0 != r[j].0 by {
            assert(r[i].0 == es[i].0 && r[j].0 == es[j].0);
        }
    } else {
        assert forall|i: int, j: int| 0 <= i < j < r.len() implies r[i].0 != r[j].0 by {
            if j == es.len() {
                assert(r[i] == es[i]);
            }
        }
    }
}

proof fn lemma_decode_entries_keys_unique<T: AvroCodec>(s: Seq<u8>, k: nat, acc: Entries<T::V>)
    requires
        keys_unique(acc),
    ensures
        decode_entries::<T>(s, k, acc) matches Some((es, _)) ==> keys_unique(es),
    decreases k,
{
    if k > 0 {
        if let Some((key, n1)) = parse_string(s) {
            if let Some((v, n2)) = T::spec_decode(s.skip(n1 as int)) {
                lemma_insert_keeps_keys_unique(acc, key, v);
                lemma_decode_entries_keys_unique::<T>(
                    s.skip((n1 + n2) as int),
                    (k - 1) as nat,
                    insert_entry(acc, key, v),
                );
            }
        }
    }
}

/// Every map that decoding yields has unique keys: a repeated key in the
/// input leaves one entry, holding the value read last.
pub proof fn lemma_decoded_keys_unique<T: AvroCodec>(s: Seq<u8>)
    ensures
        parse_map::<T>(s) matches Some((es, _)) ==> keys_unique(es),
{
    if let Some((count, n)) = parse_length(s) {
        lemma_decode_entries_keys_unique::<T>(s.skip(n as int), count, Seq::empty());
    }
}

/// An empty array and an empty map both encode to the single byte `0x00`,
/// and that byte decodes, as either, to an empty container.
pub proof fn lemma_empty_containers<T: AvroCodec>()
    ensures
        <Vec<T> as AvroCodec>::spec_encode(Seq::empty()) == seq![0u8],
        <StringMap<T> as AvroCodec>::spec_encode(Seq::empty()) == seq![0u8],
        <Vec<T> as AvroCodec>::spec_decode(seq![0u8]) == Some((Seq::<T::V>::empty(), 1nat)),
        <StringMap<T> as AvroCodec>::spec_decode(seq![0u8]) == Some(
            (Seq::<(Seq<char>, T::V)>::empty(), 1nat),
        ),
{
    lemma_zero_encoding();
    assert(encode_items::<T>(Seq::empty()) == Seq::<u8>::empty());
    assert(<Vec<T> as AvroCodec>::spec_encode(Seq::empty()) =~= seq![0u8]);
    assert(Seq::<T::V>::empty() + Seq::<T::V>::empty() =~= Seq::<T::V>::empty());
}

impl<T: AvroCodec> AvroCodec for StringMap<T> {
    open spec fn spec_encodable(v: Entries<T::V>) -> bool {
        &&& v.len() < length_limit()
        &&& forall|i: int| 0 <= i < v.len() ==> String::spec_encodable(#[trigger] v[i].0)
            && T::spec_encodable(v[i].1)
    }

    open spec fn spec_encode(v: Entries<T::V>) -> Seq<u8> {
        map_bytes::<T>(v)
    }

    open spec fn spec_decode(s: Seq<u8>) -> Option<(Entries<T::V>, nat)> {
        parse_map::<T>(s)
    }

    /// Only the empty map is read back over exactly its encoding: the decoder
    /// of a non-empty map leaves its trailing zero byte unread.
    open spec fn spec_round_trips(v: Entries<T::V>) -> bool {
        v.len() == 0
    }

    proof fn lemma_round_trip(v: Entries<T::V>, rest: Seq<u8>) {
        lemma_map_round_trip::<T>(v, rest);
    }

    fn encode(&self) -> (r: Vec<u8>) {
        if self.entries.len() == 0 {
            return vec![0u8];
        }
        let ghost es = self.deep_view();
        let mut out = self.entries.len().encode();
        let mut i: usize = 0;
        while i < self.entries.len()
            invariant
                i <= self.entries.len(),
                es == self.deep_view(),
                forall|j: int| 0 <= j < es.len() ==> String::spec_encodable(#[trigger] es[j].0)
                    && T::spec_encodable(es[j].1),
                out@ == length_bytes(es.len()) + encode_entries::<T>(es.take(i as int)),
            decreases self.entries.len() - i,
        {
            assert(String::spec_encodable(es[i as int].0) && T::spec_encodable(es[i as int].1));
            let mut k = self.entries[i].0.encode();
            let mut v = self.entries[i].1.encode();
            proof {
                assert(es.take(i + 1) =~= es.take(i as int).push(es[i as int]));
                lemma_encode_entries_push::<T>(es.take(i as int), es[i as int]);
            }
            out.append(&mut k);
            out.append(&mut v);
            i = i + 1;
        }
        out.push(0u8);
        proof {
            assert(es.take(i as int) =~= es);
        }
        out
    }

    fn decode(bytes: &mut ByteCursor) -> (r: Option<StringMap<T>>) {
        let count = match usize::decode(bytes) {
            Some(count) => count,
            None => return None,
        };
        let ghost start = bytes@;
        let ghost head: nat = (old(bytes)@.len() - start.len()) as nat;
        let ghost mut used: nat = 0;
        let mut out: StringMap<T> = StringMap::new();
        let mut i: usize = 0;
        proof {
            let (c, n) = parse_length(old(bytes)@).unwrap();
            lemma_parse_int_range(old(bytes)@);
            assert(n == head);
            assert(c == count as nat);
            assert(start.skip(0) =~= start);
        }
        while i < count
            invariant
                i <= count,
                head <= old(bytes)@.len(),
                start == old(bytes)@.skip(head as int),
                parse_map::<T>(old(bytes)@) == shift(
                    head,
                    decode_entries::<T>(start, count as nat, Seq::empty()),
                ),
                used <= start.len(),
                bytes@ == start.skip(used as int),
                keys_unique(out.deep_view()),
                decode_entries::<T>(start, count as nat, Seq::empty()) == shift(
                    used,
                    decode_entries::<T>(bytes@, (count - i) as nat, out.deep_view()),
                ),
            decreases count - i,
        {
            let ghost before = bytes@;
            let key = match String::decode(bytes) {
                Some(key) => key,
                None => return None,
            };
            let ghost mid = bytes@;
            let value = match T::decode(bytes) {
                Some(value) => value,
                None => return None,
            };
            proof {
                let (_, n1) = parse_string(before).unwrap();
                let (_, n2) = T::spec_decode(mid).unwrap();
                assert(bytes@ =~= before.skip((n1 + n2) as int));
                assert(bytes@ =~= start.skip((used + n1 + n2) as int));
                used = used + n1 + n2;
            }
            out.insert(key, value);
            i = i + 1;
        }
        proof {
            assert(bytes@ =~= old(bytes)@.skip((head + used) as int));
        }
        Some(out)
    }
}

} // verus!
