//! Self-describing tuples: a five-byte header (flags, key length, value length, all
//! little-endian) followed by the key bytes and the value bytes.
use crate::btree::key::Key;
use crate::utils::byte::{put_u16, read_u16, u16_at, u16_le_bytes, u32_at, write_u16};
use vstd::prelude::*;

verus! {

broadcast use crate::utils::byte::group_stored_int_range;

/// Size of the tuple header: flags (1) + key length (2) + value length (2).
pub const TUPLE_HEADER_SIZE: usize = 5;

/// The serialized form of a tuple: flags, key length and value length (each length
/// truncated to 16 bits, little-endian), then the key bytes and the value bytes.
pub open spec fn encode_tuple(flags: u8, key: Seq<u8>, value: Seq<u8>) -> Seq<u8> {
    seq![flags] + u16_le_bytes(key.len() as int) + u16_le_bytes(value.len() as int) + key + value
}

/// Flags byte of a serialized tuple.
pub open spec fn tuple_flags(s: Seq<u8>) -> u8 {
    s[0]
}

/// Key length recorded in a serialized tuple's header.
pub open spec fn tuple_key_len(s: Seq<u8>) -> int {
    u16_at(s, 1)
}

/// Value length recorded in a serialized tuple's header.
pub open spec fn tuple_value_len(s: Seq<u8>) -> int {
    u16_at(s, 3)
}

/// Key bytes of a serialized tuple.
pub open spec fn tuple_key(s: Seq<u8>) -> Seq<u8> {
    s.subrange(5, 5 + tuple_key_len(s))
}

/// Decoding an encoded tuple gives back its flags, lengths, key and value, provided the
/// lengths fit in 16 bits.
pub proof fn lemma_encode_decode(flags: u8, key: Seq<u8>, value: Seq<u8>)
    requires
        key.len() < 65536,
        value.len() < 65536,
    ensures
        encode_tuple(flags, key, value).len() == 5 + key.len() + value.len(),
        tuple_flags(encode_tuple(flags, key, value)) == flags,
        tuple_key_len(encode_tuple(flags, key, value)) == key.len(),
        tuple_value_len(encode_tuple(flags, key, value)) == value.len(),
        tuple_key(encode_tuple(flags, key, value)) == key,
        encode_tuple(flags, key, value).subrange(5 + key.len() as int, 5 + key.len() + value.len() as int)
            == value,
{
    reveal(u16_at);
    reveal(u32_at);
    let e = encode_tuple(flags, key, value);
    assert(e.subrange(5, 5 + key.len() as int) =~= key);
    assert(e.subrange(5 + key.len() as int, 5 + key.len() + value.len() as int) =~= value);
}

/// An owned tuple containing serialized data.
pub type OwningTuple = Tuple<Vec<u8>>;

/// Builder for owned tuples.
pub struct TupleBuilder {
    flags: u8,
    key: Option<Vec<u8>>,
    value: Option<Vec<u8>>,
}

impl TupleBuilder {
    /// The flags byte the built tuple will carry.
    pub closed spec fn flags_value(&self) -> u8 {
        self.flags
    }

    /// The key the built tuple will carry (empty when none was given).
    pub closed spec fn key_bytes(&self) -> Seq<u8> {
        match self.key {
            Some(k) => k@,
            None => Seq::empty(),
        }
    }

    /// The value the built tuple will carry (empty when none was given).
    pub closed spec fn value_bytes(&self) -> Seq<u8> {
        match self.value {
            Some(v) => v@,
            None => Seq::empty(),
        }
    }

    /// A builder with flags 0, no key and no value.
    pub fn new() -> (b: Self)
        ensures
            b.flags_value() == 0,
            b.key_bytes() == Seq::<u8>::empty(),
            b.value_bytes() == Seq::<u8>::empty(),
    {
        Self::default()
    }

    /// Sets the flags byte.
    pub fn flags(self, flags: u8) -> (b: Self)
        ensures
            b.flags_value() == flags,
            b.key_bytes() == self.key_bytes(),
            b.value_bytes() == self.value_bytes(),
    {
        let mut s = self;
        s.flags = flags;
        s
    }

    /// Sets the key.
    pub fn key(self, key: Vec<u8>) -> (b: Self)
        ensures
            b.flags_value() == self.flags_value(),
            b.key_bytes() == key@,
            b.value_bytes() == self.value_bytes(),
    {
        let mut s = self;
        s.key = Some(key);
        s
    }

    /// Sets the value.
    pub fn value(self, value: Vec<u8>) -> (b: Self)
        ensures
            b.flags_value() == self.flags_value(),
            b.key_bytes() == self.key_bytes(),
            b.value_bytes() == value@,
    {
        let mut s = self;
        s.value = Some(value);
        s
    }

    /// Serializes flags, key length, value length, key and value into an owned tuple.
    pub fn build(self) -> (t: OwningTuple)
        requires
            5 + self.key_bytes().len() + self.value_bytes().len() <= usize::MAX,
        ensures
            t.data@ == encode_tuple(self.flags_value(), self.key_bytes(), self.value_bytes()),
    {
        let mut key = match self.key {
            Some(k) => k,
            None => Vec::new(),
        };
        let mut value = match self.value {
            Some(v) => v,
            None => Vec::new(),
        };
        let klen = key.len();
        let vlen = value.len();
        let mut data: Vec<u8> = Vec::with_capacity(5 + klen + vlen);
        data.push(self.flags);
        let key_len = klen as u16;
        let value_len = vlen as u16;
        let k0 = (key_len & 0xFF) as u8;
        let k1 = (key_len >> 8) as u8;
        let v0 = (value_len & 0xFF) as u8;
        let v1 = (value_len >> 8) as u8;
        proof {
            assert(key_len == klen % 65536) by (bit_vector)
                requires
                    key_len == klen as u16,
            ;
            assert(value_len == vlen % 65536) by (bit_vector)
                requires
                    value_len == vlen as u16,
            ;
            assert(k0 == key_len % 256 && k1 == key_len / 256) by (bit_vector)
                requires
                    k0 == (key_len & 0xFF) as u8,
                    k1 == (key_len >> 8) as u8,
            ;
            assert(v0 == value_len % 256 && v1 == value_len / 256) by (bit_vector)
                requires
                    v0 == (value_len & 0xFF) as u8,
                    v1 == (value_len >> 8) as u8,
            ;
        }
        data.push(k0);
        data.push(k1);
        data.push(v0);
        data.push(v1);
        let ghost header = data@;
        assert(header =~= seq![self.flags_value()] + u16_le_bytes(klen as int) + u16_le_bytes(
            vlen as int,
        ));
        data.append(&mut key);
        data.append(&mut value);
        Tuple { data }
    }
}

impl Default for TupleBuilder {
    fn default() -> (b: Self)
        ensures
            b.flags_value() == 0,
            b.key_bytes() == Seq::<u8>::empty(),
            b.value_bytes() == Seq::<u8>::empty(),
    {
        TupleBuilder { flags: 0, key: None, value: None }
    }
}

/// A tuple view over a backing buffer.
pub struct Tuple<A> {
    /// The backing buffer containing the serialized tuple.
    pub data: A,
}

impl<A> Tuple<A> {
    /// Wraps a buffer as a tuple.
    pub fn from(data: A) -> (t: Self)
        ensures
            t.data == data,
    {
        Self { data }
    }
}

impl<'a> Tuple<&'a [u8]> {
    /// Total number of bytes in the buffer.
    pub fn len(&self) -> (r: usize)
        ensures
            r == self.data@.len(),
    {
        self.data.len()
    }

    /// Everything after the header (key bytes followed by value bytes).
    pub fn bytes(&self) -> (r: &[u8])
        requires
            5 <= self.data@.len(),
        ensures
            r@ == self.data@.subrange(5, self.data@.len() as int),
    {
        &self.data[5..self.data.len()]
    }

    /// A view of the five header bytes.
    pub fn header(&self) -> (h: TupleHeader<&[u8]>)
        requires
            5 <= self.data@.len(),
        ensures
            h.data@ == self.data@.subrange(0, 5),
    {
        TupleHeader::from(&self.data[0..5])
    }

    /// The key bytes, as a key.
    pub fn key(&self) -> (k: Key<&[u8]>)
        requires
            5 <= self.data@.len(),
            5 + tuple_key_len(self.data@) <= self.data@.len(),
        ensures
            k.data()@ == tuple_key(self.data@),
    {
        proof {
            reveal(u16_at);
            reveal(u32_at);
        }
        let key_len = self.header().key_len() as usize;
        Key::from(&self.data[5..5 + key_len])
    }
}

impl<'a> Tuple<&'a mut [u8]> {
    /// Total number of bytes in the buffer.
    pub fn len(&self) -> (r: usize)
        ensures
            r == old(self.data)@.len(),
    {
        self.data.len()
    }

    /// Everything after the header (key bytes followed by value bytes).
    pub fn bytes(&self) -> (r: &[u8])
        requires
            5 <= self.data@.len(),
        ensures
            r@ == old(self.data)@.subrange(5, old(self.data)@.len() as int),
    {
        &self.data[5..self.data.len()]
    }

    /// A view of the five header bytes.
    pub fn header(&self) -> (h: TupleHeader<&[u8]>)
        requires
            5 <= self.data@.len(),
        ensures
            h.data@ == old(self.data)@.subrange(0, 5),
    {
        TupleHeader::from(&self.data[0..5])
    }

    /// The key bytes, as a key.
    pub fn key(&self) -> (k: Key<&[u8]>)
        requires
            5 <= self.data@.len(),
            5 + tuple_key_len(self.data@) <= self.data@.len(),
        ensures
            k.data()@ == tuple_key(old(self.data)@),
    {
        proof {
            reveal(u16_at);
            reveal(u32_at);
        }
        let key_len = self.header().key_len() as usize;
        Key::from(&self.data[5..5 + key_len])
    }

    /// A mutable view of the five header bytes; writes through it land in this tuple's
    /// buffer.
    pub fn header_mut(&mut self) -> (h: TupleHeader<&mut [u8]>)
        requires
            5 <= old(self).data@.len(),
        ensures
            h.data@ == old(self).data@.subrange(0, 5),
            final(self).data@ == final(h.data)@ + old(self).data@.subrange(
                5,
                old(self).data@.len() as int,
            ),
    {
        let (h, _rest) = self.data.split_at_mut(5);
        TupleHeader::from(h)
    }
}

impl Tuple<Vec<u8>> {
    /// Total number of bytes in the buffer.
    pub fn len(&self) -> (r: usize)
        ensures
            r == self.data@.len(),
    {
        self.data.len()
    }

    /// Everything after the header (key bytes followed by value bytes).
    pub fn bytes(&self) -> (r: &[u8])
        requires
            5 <= self.data@.len(),
        ensures
            r@ == self.data@.subrange(5, self.data@.len() as int),
    {
        let s = self.data.as_slice();
        &s[5..s.len()]
    }

    /// A view of the five header bytes.
    pub fn header(&self) -> (h: TupleHeader<&[u8]>)
        requires
            5 <= self.data@.len(),
        ensures
            h.data@ == self.data@.subrange(0, 5),
    {
        let s = self.data.as_slice();
        TupleHeader::from(&s[0..5])
    }

    /// The key bytes, as a key.
    pub fn key(&self) -> (k: Key<&[u8]>)
        requires
            5 <= self.data@.len(),
            5 + tuple_key_len(self.data@) <= self.data@.len(),
        ensures
            k.data()@ == tuple_key(self.data@),
    {
        proof {
            reveal(u16_at);
            reveal(u32_at);
        }
        let s = self.data.as_slice();
        let key_len = read_u16(s, 1) as usize;
        Key::from(&s[5..5 + key_len])
    }

    /// A mutable view of the five header bytes; writes through it land in this tuple's
    /// buffer.
    pub fn header_mut(&mut self) -> (h: TupleHeader<&mut [u8]>)
        requires
            5 <= old(self).data@.len(),
        ensures
            h.data@ == old(self).data@.subrange(0, 5),
            final(self).data@ == final(h.data)@ + old(self).data@.subrange(
                5,
                old(self).data@.len() as int,
            ),
    {
        let s = self.data.as_mut_slice();
        let (h, _rest) = s.split_at_mut(5);
        TupleHeader::from(h)
    }

    /// A borrowed view of this tuple.
    pub fn to_ref(&self) -> (t: Tuple<&[u8]>)
        ensures
            t.data@ == self.data@,
    {
        Tuple::from(self.data.as_slice())
    }

    /// A mutable borrowed view of this tuple; writes through it land in this tuple.
    pub fn to_mut_ref(&mut self) -> (t: Tuple<&mut [u8]>)
        ensures
            t.data@ == old(self).data@,
            final(self).data@ == final(t.data)@,
    {
        Tuple::from(self.data.as_mut_slice())
    }

    /// Consumes the tuple and returns the underlying buffer.
    pub fn into_vec(self) -> (v: Vec<u8>)
        ensures
            v@ == self.data@,
    {
        self.data
    }

    /// The underlying serialized bytes.
    pub fn as_bytes(&self) -> (r: &[u8])
        ensures
            r@ == self.data@,
    {
        self.data.as_slice()
    }
}

/// A view of a tuple header over a backing buffer.
pub struct TupleHeader<A> {
    /// The backing buffer holding the header bytes.
    pub data: A,
}

impl<A> TupleHeader<A> {
    /// Wraps a buffer as a tuple header.
    pub fn from(data: A) -> (h: Self)
        ensures
            h.data == data,
    {
        Self { data }
    }
}

impl<'a> TupleHeader<&'a [u8]> {
    /// The little-endian key length at bytes 1..3.
    pub fn key_len(&self) -> (r: u16)
        requires
            3 <= self.data@.len(),
        ensures
            r == tuple_key_len(self.data@),
    {
        read_u16(self.data, 1)
    }

    /// The little-endian value length at bytes 3..5.
    pub fn value_len(&self) -> (r: u16)
        requires
            5 <= self.data@.len(),
        ensures
            r == tuple_value_len(self.data@),
    {
        read_u16(self.data, 3)
    }

    /// The flags byte at byte 0.
    pub fn flags(&self) -> (r: u8)
        requires
            1 <= self.data@.len(),
        ensures
            r == tuple_flags(self.data@),
    {
        self.data[0]
    }
}

impl<'a> TupleHeader<&'a mut [u8]> {
    /// The little-endian key length at bytes 1..3.
    pub fn key_len(&self) -> (r: u16)
        requires
            3 <= self.data@.len(),
        ensures
            r == tuple_key_len(old(self.data)@),
    {
        read_u16(self.data, 1)
    }

    /// The little-endian value length at bytes 3..5.
    pub fn value_len(&self) -> (r: u16)
        requires
            5 <= self.data@.len(),
        ensures
            r == tuple_value_len(old(self.data)@),
    {
        read_u16(self.data, 3)
    }

    /// The flags byte at byte 0.
    pub fn flags(&self) -> (r: u8)
        requires
            1 <= self.data@.len(),
        ensures
            r == tuple_flags(old(self.data)@),
    {
        self.data[0]
    }

    /// Stores `len` as the little-endian key length at bytes 1..3.
    pub fn set_key_len(&mut self, len: u16)
        requires
            3 <= old(self).data@.len(),
        ensures
            final(self).data@ == put_u16(old(self).data@, 1, len as int),
            final(final(self).data)@ == final(old(self).data)@,
    {
        write_u16(self.data, 1, len);
    }

    /// Stores `len` as the little-endian value length at bytes 3..5.
    pub fn set_value_len(&mut self, len: u16)
        requires
            5 <= old(self).data@.len(),
        ensures
            final(self).data@ == put_u16(old(self).data@, 3, len as int),
            final(final(self).data)@ == final(old(self).data)@,
    {
        write_u16(self.data, 3, len);
    }

    /// Stores `flags` at byte 0.
    pub fn set_flags(&mut self, flags: u8)
        requires
            1 <= old(self).data@.len(),
        ensures
            final(self).data@ == old(self).data@.update(0, flags),
            final(final(self).data)@ == final(old(self).data)@,
    {
        self.data[0] = flags;
    }
}

} // verus!
