//! Value types for Avro data that is not known until run time.
use vstd::prelude::*;

verus! {

/// A record value.
pub struct AvroRecord {}

/// A fixed-size byte array value: a declared size and, once set, exactly
/// that many bytes.
pub struct AvroFixed {
    size: usize,
    data: Vec<u8>,
}

/// An enum value.
pub struct AvroEnum {}

/// An array value.
pub struct AvroArray {}

/// A map value.
pub struct AvroMap {}

/// A union value.
pub struct AvroUnion {}

impl AvroFixed {
    /// The declared size.
    pub closed spec fn spec_size(&self) -> nat {
        self.size as nat
    }

    /// The bytes held.
    pub closed spec fn spec_data(&self) -> Seq<u8> {
        self.data@
    }

    /// A fixed value of `size` bytes that holds no data yet.
    pub fn new(size: usize) -> (r: AvroFixed)
        ensures
            r.spec_size() == size,
            r.spec_data() == Seq::<u8>::empty(),
    {
        AvroFixed { size, data: Vec::new() }
    }

    /// A fixed value of `size` bytes holding the first `size` of `data`;
    /// `None` when `data` is shorter than `size`.
    pub fn with_data(size: usize, data: Vec<u8>) -> (r: Option<AvroFixed>)
        ensures
            r is Some <==> size <= data@.len(),
            r matches Some(f) ==> f.spec_size() == size && f.spec_data() == data@.take(size as int),
    {
        let mut bytes = data;
        if bytes.len() < size {
            return None;
        }
        bytes.truncate(size);
        Some(AvroFixed { size, data: bytes })
    }

    /// This value with its bytes replaced by the first `spec_size()` of
    /// `data`; `None` when `data` is shorter than the size.
    pub fn set_data(self, data: Vec<u8>) -> (r: Option<AvroFixed>)
        ensures
            r is Some <==> self.spec_size() <= data@.len(),
            r matches Some(f) ==> f.spec_size() == self.spec_size() && f.spec_data() == data@.take(
                self.spec_size() as int,
            ),
    {
        AvroFixed::with_data(self.size, data)
    }

    /// The bytes held.
    pub fn data(&self) -> (r: &[u8])
        ensures
            r@ == self.spec_data(),
    {
        self.data.as_slice()
    }
}

} // verus!
