//! The byte cursor all codecs work through: an owned byte sequence, a
//! read/write position, and a configured byte order, plus the fixed-width
//! integer codecs. Every read checks availability before indexing, so no
//! decoder built on the cursor can read out of bounds.

use vstd::prelude::*;
use crate::error::{Error, ErrorType};

verus! {

broadcast use vstd::array::group_array_axioms;

/// The order in which a multi-byte integer's bytes are laid out: most
/// significant byte first (big-endian, the BGP wire order) or least
/// significant byte first (little-endian).
#[derive(Clone, Copy, PartialEq, Eq, Structural, Debug, Hash)]
pub enum ByteOrder {
    BigEndian,
    LittleEndian,
}

impl ByteOrder {
    /// The byte order the running machine stores integers in.
    ///
    /// Relies on `u16::from_ne_bytes`: the machine's native byte order
    /// decides which value the probe bytes take. Nothing is promised of
    /// the result; it depends on the machine alone.
    #[verifier::external_body]
    pub fn system_order() -> ByteOrder {
        if u16::from_ne_bytes([1u8, 0u8]) == 1 {
            ByteOrder::LittleEndian
        } else {
            ByteOrder::BigEndian
        }
    }
}

/// The two-byte layout of `v` in byte order `bo`.
pub open spec fn bytes_u16(bo: ByteOrder, v: u16) -> Seq<u8> {
    match bo {
        ByteOrder::BigEndian => seq![(v / 0x100) as u8, (v % 0x100) as u8],
        ByteOrder::LittleEndian => seq![(v % 0x100) as u8, (v / 0x100) as u8],
    }
}

/// The value whose two-byte layout in order `bo` is `s`.
pub open spec fn val_u16(bo: ByteOrder, s: Seq<u8>) -> u16
    recommends
        s.len() == 2,
{
    match bo {
        ByteOrder::BigEndian => (s[0] * 0x100 + s[1]) as u16,
        ByteOrder::LittleEndian => (s[1] * 0x100 + s[0]) as u16,
    }
}

/// The four-byte layout of `v` in byte order `bo`.
pub open spec fn bytes_u32(bo: ByteOrder, v: u32) -> Seq<u8> {
    let b0 = (v / 0x1000000) as u8;
    let b1 = ((v / 0x10000) % 0x100) as u8;
    let b2 = ((v / 0x100) % 0x100) as u8;
    let b3 = (v % 0x100) as u8;
    match bo {
        ByteOrder::BigEndian => seq![b0, b1, b2, b3],
        ByteOrder::LittleEndian => seq![b3, b2, b1, b0],
    }
}

/// The value whose four-byte layout in order `bo` is `s`.
pub open spec fn val_u32(bo: ByteOrder, s: Seq<u8>) -> u32
    recommends
        s.len() == 4,
{
    match bo {
        ByteOrder::BigEndian => (s[0] * 0x1000000 + s[1] * 0x10000 + s[2] * 0x100
            + s[3]) as u32,
        ByteOrder::LittleEndian => (s[3] * 0x1000000 + s[2] * 0x10000 + s[1] * 0x100
            + s[0]) as u32,
    }
}

/// The eight-byte layout of `v` in byte order `bo`.
pub open spec fn bytes_u64(bo: ByteOrder, v: u64) -> Seq<u8> {
    let b0 = (v / 0x100000000000000) as u8;
    let b1 = ((v / 0x1000000000000) % 0x100) as u8;
    let b2 = ((v / 0x10000000000) % 0x100) as u8;
    let b3 = ((v / 0x100000000) % 0x100) as u8;
    let b4 = ((v / 0x1000000) % 0x100) as u8;
    let b5 = ((v / 0x10000) % 0x100) as u8;
    let b6 = ((v / 0x100) % 0x100) as u8;
    let b7 = (v % 0x100) as u8;
    match bo {
        ByteOrder::BigEndian => seq![b0, b1, b2, b3, b4, b5, b6, b7],
        ByteOrder::LittleEndian => seq![b7, b6, b5, b4, b3, b2, b1, b0],
    }
}

/// The value whose eight-byte layout in order `bo` is `s`.
pub open spec fn val_u64(bo: ByteOrder, s: Seq<u8>) -> u64
    recommends
        s.len() == 8,
{
    match bo {
        ByteOrder::BigEndian => (s[0] * 0x100000000000000 + s[1] * 0x1000000000000
            + s[2] * 0x10000000000 + s[3] * 0x100000000 + s[4] * 0x1000000
            + s[5] * 0x10000 + s[6] * 0x100 + s[7]) as u64,
        ByteOrder::LittleEndian => (s[7] * 0x100000000000000 + s[6] * 0x1000000000000
            + s[5] * 0x10000000000 + s[4] * 0x100000000 + s[3] * 0x1000000
            + s[2] * 0x10000 + s[1] * 0x100 + s[0]) as u64,
    }
}

/// The unsigned value with the same bit pattern as `v`.
pub open spec fn u8_bits_of_i8(v: i8) -> u8 {
    if v >= 0 { v as u8 } else { (v + 0x100) as u8 }
}

/// The signed value with the same bit pattern as `u`.
pub open spec fn i8_of_u8_bits(u: u8) -> i8 {
    if u < 0x80 { u as i8 } else { (u - 0x100) as i8 }
}

pub open spec fn u16_bits_of_i16(v: i16) -> u16 {
    if v >= 0 { v as u16 } else { (v + 0x10000) as u16 }
}

pub open spec fn i16_of_u16_bits(u: u16) -> i16 {
    if u < 0x8000 { u as i16 } else { (u - 0x10000) as i16 }
}

pub open spec fn u32_bits_of_i32(v: i32) -> u32 {
    if v >= 0 { v as u32 } else { (v + 0x100000000) as u32 }
}

pub open spec fn i32_of_u32_bits(u: u32) -> i32 {
    if u < 0x80000000 { u as i32 } else { (u - 0x100000000) as i32 }
}

pub open spec fn u64_bits_of_i64(v: i64) -> u64 {
    if v >= 0 { v as u64 } else { (v + 0x10000000000000000) as u64 }
}

pub open spec fn i64_of_u64_bits(u: u64) -> i64 {
    if u < 0x8000000000000000 { u as i64 } else { (u - 0x10000000000000000) as i64 }
}

/// Reading back the two-byte layout of a value gives the value.
pub proof fn lemma_u16_round_trip(bo: ByteOrder, v: u16)
    ensures
        bytes_u16(bo, v).len() == 2,
        val_u16(bo, bytes_u16(bo, v)) == v,
{
}

/// Reading back the four-byte layout of a value gives the value.
pub proof fn lemma_u32_round_trip(bo: ByteOrder, v: u32)
    ensures
        bytes_u32(bo, v).len() == 4,
        val_u32(bo, bytes_u32(bo, v)) == v,
{
}

/// Reading back the eight-byte layout of a value gives the value.
pub proof fn lemma_u64_round_trip(bo: ByteOrder, v: u64)
    ensures
        bytes_u64(bo, v).len() == 8,
        val_u64(bo, bytes_u64(bo, v)) == v,
{
    assert((v / 0x100000000000000) * 0x100000000000000 + ((v / 0x1000000000000) % 0x100)
        * 0x1000000000000 + ((v / 0x10000000000) % 0x100) * 0x10000000000 + ((v
        / 0x100000000) % 0x100) * 0x100000000 + ((v / 0x1000000) % 0x100) * 0x1000000 + ((
    v / 0x10000) % 0x100) * 0x10000 + ((v / 0x100) % 0x100) * 0x100 + v % 0x100
        == v) by (bit_vector);
}

/// The buffer used to write and read wire data: a byte vector, the current
/// position, and the byte order integers are coded in. The position never
/// exceeds the vector's length.
#[derive(Clone, PartialEq, Eq, Debug, Hash)]
pub struct Buffer {
    bytes: Vec<u8>,
    position: usize,
    order: ByteOrder,
}

impl Buffer {
    /// The stored bytes.
    pub closed spec fn data(self) -> Seq<u8> {
        self.bytes@
    }

    /// The current read/write position.
    pub closed spec fn pos(self) -> int {
        self.position as int
    }

    /// The configured byte order.
    pub closed spec fn ord(self) -> ByteOrder {
        self.order
    }

    /// The cursor's well-formedness: the position stays within the bytes.
    pub open spec fn wf(self) -> bool {
        0 <= self.pos() <= self.data().len()
    }

    /// The bytes from the current position to the end.
    pub open spec fn rem(self) -> Seq<u8>
        recommends
            self.wf(),
    {
        self.data().skip(self.pos())
    }
}

/// Holds when one write pass turned `pre` into `post` by splicing `d` in at
/// the old position and advancing the position past it.
pub open spec fn wrote(pre: Buffer, post: Buffer, d: Seq<u8>) -> bool {
    &&& pre.wf()
    &&& post.wf()
    &&& post.data() == pre.data().subrange(0, pre.pos()) + d + pre.data().skip(pre.pos())
    &&& post.pos() == pre.pos() + d.len()
    &&& post.ord() == pre.ord()
}

/// Two write passes in a row splice the concatenation of what they wrote.
pub proof fn lemma_wrote_trans(a: Buffer, b: Buffer, c: Buffer, d1: Seq<u8>, d2: Seq<u8>)
    requires
        wrote(a, b, d1),
        wrote(b, c, d2),
    ensures
        wrote(a, c, d1 + d2),
{
    assert(b.data().subrange(0, b.pos()) =~= a.data().subrange(0, a.pos()) + d1);
    assert(b.data().skip(b.pos()) =~= a.data().skip(a.pos()));
    assert(c.data() =~= a.data().subrange(0, a.pos()) + (d1 + d2) + a.data().skip(
        a.pos(),
    ));
}

/// A write pass that spliced `d` in at the end appended exactly `d`.
pub proof fn lemma_wrote_at_end(pre: Buffer, post: Buffer, d: Seq<u8>)
    requires
        wrote(pre, post, d),
        pre.pos() == pre.data().len(),
    ensures
        post.data() == pre.data() + d,
        post.pos() == post.data().len(),
{
    assert(pre.data().subrange(0, pre.pos()) =~= pre.data());
    assert(pre.data().skip(pre.pos()) =~= Seq::<u8>::empty());
    assert(post.data() =~= pre.data() + d);
}

impl Buffer {
    /// A buffer over the given bytes, positioned at the start.
    pub fn from_vec(bytes: Vec<u8>, order: ByteOrder) -> (r: Buffer)
        ensures
            r.data() == bytes@,
            r.pos() == 0,
            r.ord() == order,
            r.wf(),
    {
        Buffer { bytes, position: 0, order }
    }

    /// A buffer of `capacity` zero bytes, positioned at the start.
    pub fn capacity(capacity: usize, order: ByteOrder) -> (r: Buffer)
        ensures
            r.data().len() == capacity,
            forall|i: int| 0 <= i < capacity ==> r.data()[i] == 0u8,
            r.pos() == 0,
            r.ord() == order,
            r.wf(),
    {
        let mut bytes: Vec<u8> = Vec::new();
        while bytes.len() < capacity
            invariant
                bytes@.len() <= capacity,
                forall|i: int| 0 <= i < bytes@.len() ==> bytes@[i] == 0u8,
            decreases capacity - bytes@.len(),
        {
            bytes.push(0);
        }
        Buffer::from_vec(bytes, order)
    }

    /// An empty buffer with the given byte order.
    pub fn empty(order: ByteOrder) -> (r: Buffer)
        ensures
            r.data() == Seq::<u8>::empty(),
            r.pos() == 0,
            r.ord() == order,
            r.wf(),
    {
        let bytes: Vec<u8> = Vec::new();
        assert(bytes@ =~= Seq::<u8>::empty());
        Buffer { bytes, position: 0, order }
    }

    /// An empty buffer in the running machine's byte order.
    pub fn system_order() -> (r: Buffer)
        ensures
            r.data() == Seq::<u8>::empty(),
            r.pos() == 0,
            r.wf(),
    {
        Buffer::empty(ByteOrder::system_order())
    }

    /// The stored bytes, whole, ignoring the position.
    pub fn bytes(&self) -> (r: &Vec<u8>)
        ensures
            r@ == self.data(),
    {
        &self.bytes
    }

    /// The stored bytes, whole, giving up the cursor.
    pub fn into_bytes(self) -> (r: Vec<u8>)
        ensures
            r@ == self.data(),
    {
        self.bytes
    }

    /// The total number of stored bytes.
    pub fn len(&self) -> (r: usize)
        ensures
            r == self.data().len(),
    {
        self.bytes.len()
    }

    /// How many bytes remain between the position and the end.
    pub fn remaining(&self) -> (r: usize)
        requires
            self.wf(),
        ensures
            r == self.rem().len(),
    {
        self.bytes.len() - self.position
    }

    /// Whether no bytes remain to be read.
    pub fn is_empty(&self) -> (r: bool)
        requires
            self.wf(),
        ensures
            r == (self.rem().len() == 0),
    {
        self.remaining() == 0
    }

    /// The current position, for saving before a look-ahead read.
    pub fn position(&self) -> (r: usize)
        ensures
            r == self.pos(),
    {
        self.position
    }

    /// Moves the position to a previously saved spot.
    pub fn set_position(&mut self, position: usize)
        requires
            position <= old(self).data().len(),
        ensures
            final(self).data() == old(self).data(),
            final(self).ord() == old(self).ord(),
            final(self).pos() == position,
            final(self).wf(),
    {
        self.position = position;
    }

    /// Moves the position back to the start.
    pub fn reset_position(&mut self)
        ensures
            final(self).data() == old(self).data(),
            final(self).ord() == old(self).ord(),
            final(self).pos() == 0,
            final(self).wf(),
    {
        self.position = 0;
    }

    /// Advances the position by `bytes` without reading; fails when fewer
    /// bytes remain.
    pub fn skip(&mut self, bytes: usize) -> (r: Result<(), Error>)
        requires
            old(self).wf(),
        ensures
            final(self).wf(),
            final(self).data() == old(self).data(),
            final(self).ord() == old(self).ord(),
            old(self).rem().len() >= bytes ==> (r matches Ok(u) && final(self).pos()
                == old(self).pos() + bytes),
            old(self).rem().len() < bytes ==> (r matches Err(e) && e.kind()
                == ErrorType::OtherError && final(self).pos() == old(self).pos()),
    {
        if self.remaining() < bytes {
            return Err(ErrorType::OtherError.err(
                "unexpected end of buffer: too few bytes remain to skip",
            ));
        }
        let n = self.bytes.len();
        assert(self.position + bytes <= n);
        self.position = self.position + bytes;
        Ok(())
    }

    /// Writes one byte at the position and advances past it.
    pub fn write_u8(&mut self, value: u8)
        requires
            old(self).wf(),
        ensures
            wrote(*old(self), *final(self), seq![value]),
    {
        self.bytes.insert(self.position, value);
        let n = self.bytes.len();
        assert(self.position < n);
        self.position = self.position + 1;
        assert(self.bytes@ =~= old(self).data().subrange(0, old(self).pos())
            + seq![value] + old(self).data().skip(old(self).pos()));
    }

    /// Reads one byte and advances past it; fails when none remains.
    pub fn read_u8(&mut self) -> (r: Result<u8, Error>)
        requires
            old(self).wf(),
        ensures
            final(self).wf(),
            final(self).data() == old(self).data(),
            final(self).ord() == old(self).ord(),
            old(self).rem().len() >= 1 ==> (r matches Ok(b) && b == old(self).rem()[0]
                && final(self).pos() == old(self).pos() + 1),
            old(self).rem().len() == 0 ==> (r matches Err(e) && e.kind()
                == ErrorType::ReadError && final(self).pos() == old(self).pos()),
    {
        if self.position >= self.bytes.len() {
            return Err(ErrorType::ReadError.err(
                "unable to read one byte: no byte remains in the buffer",
            ));
        }
        let b = self.bytes[self.position];
        self.position = self.position + 1;
        Ok(b)
    }

    /// Writes every byte of `data` in order.
    pub fn write_bytes_slice(&mut self, data: &[u8])
        requires
            old(self).wf(),
        ensures
            wrote(*old(self), *final(self), data@),
    {
        proof {
            assert(old(self).data() =~= old(self).data().subrange(0, old(self).pos())
                + data@.take(0) + old(self).data().skip(old(self).pos()));
        }
        let mut i: usize = 0;
        while i < data.len()
            invariant
                i <= data@.len(),
                wrote(*old(self), *self, data@.take(i as int)),
            decreases data@.len() - i,
        {
            let ghost mid = *self;
            let b = data[i];
            self.write_u8(b);
            proof {
                lemma_wrote_trans(*old(self), mid, *self, data@.take(i as int), seq![b]);
                assert(data@.take(i as int) + seq![b] =~= data@.take(i as int + 1));
            }
            i = i + 1;
        }
        proof {
            assert(data@.take(data@.len() as int) =~= data@);
        }
    }

    /// Writes every byte of the array in order.
    pub fn write_bytes_array<const L: usize>(&mut self, data: [u8; L])
        requires
            old(self).wf(),
        ensures
            wrote(*old(self), *final(self), data@),
    {
        self.write_bytes_slice(data.as_slice());
    }

    /// Writes every byte of the vector in order.
    pub fn write_bytes_vector(&mut self, vector: &Vec<u8>)
        requires
            old(self).wf(),
        ensures
            wrote(*old(self), *final(self), vector@),
    {
        self.write_bytes_slice(vector.as_slice());
    }

    /// Reads the next `length` bytes into a vector and advances past them;
    /// fails, consuming nothing, when fewer bytes remain.
    pub fn read_bytes_vector(&mut self, length: usize) -> (r: Result<Vec<u8>, Error>)
        requires
            old(self).wf(),
        ensures
            final(self).wf(),
            final(self).data() == old(self).data(),
            final(self).ord() == old(self).ord(),
            old(self).rem().len() >= length ==> (r matches Ok(v) && v@ == old(
                self,
            ).rem().take(length as int) && final(self).pos() == old(self).pos()
                + length),
            old(self).rem().len() < length ==> (r matches Err(e) && e.kind()
                == ErrorType::ReadError && final(self).pos() == old(self).pos()),
    {
        if self.remaining() < length {
            return Err(ErrorType::ReadError.err(
                "unable to read the requested bytes: the buffer ends before them",
            ));
        }
        let mut out: Vec<u8> = Vec::new();
        let mut i: usize = 0;
        while i < length
            invariant
                i <= length,
                *self == *old(self),
                self.wf(),
                self.pos() + length <= self.data().len(),
                out@ =~= self.data().subrange(self.pos(), self.pos() + i),
            decreases length - i,
        {
            let n = self.bytes.len();
            assert(self.position + i < n);
            let b = self.bytes[self.position + i];
            out.push(b);
            i = i + 1;
        }
        let n = self.bytes.len();
        assert(self.position + length <= n);
        self.position = self.position + length;
        proof {
            assert(out@ =~= old(self).rem().take(length as int));
        }
        Ok(out)
    }

    /// Reads the next `L` bytes into a fixed array and advances past them;
    /// fails, consuming nothing, when fewer bytes remain.
    pub fn read_bytes_array<const L: usize>(&mut self) -> (r: Result<[u8; L], Error>)
        requires
            old(self).wf(),
        ensures
            final(self).wf(),
            final(self).data() == old(self).data(),
            final(self).ord() == old(self).ord(),
            old(self).rem().len() >= L ==> (r matches Ok(a) && a@ == old(
                self,
            ).rem().take(L as int) && final(self).pos() == old(self).pos() + L),
            old(self).rem().len() < L ==> (r matches Err(e) && e.kind()
                == ErrorType::ReadError && final(self).pos() == old(self).pos()),
    {
        if self.remaining() < L {
            return Err(ErrorType::ReadError.err(
                "unable to read the requested bytes: the buffer ends before them",
            ));
        }
        let mut out: [u8; L] = [0; L];
        let mut i: usize = 0;
        while i < L
            invariant
                i <= L,
                *self == *old(self),
                self.wf(),
                self.pos() + L <= self.data().len(),
                out@.len() == L,
                forall|j: int| 0 <= j < i ==> out@[j] == self.data()[self.pos() + j],
            decreases L - i,
        {
            let n = self.bytes.len();
            assert(self.position + i < n);
            let b = self.bytes[self.position + i];
            out[i] = b;
            i = i + 1;
        }
        let n = self.bytes.len();
        assert(self.position + L <= n);
        self.position = self.position + L;
        proof {
            assert(out@ =~= old(self).rem().take(L as int));
        }
        Ok(out)
    }

    /// Appends this buffer's whole contents to another buffer.
    pub fn write_buffer(&self, buffer: &mut Buffer) -> (r: Result<(), Error>)
        requires
            old(buffer).wf(),
        ensures
            r matches Ok(u),
            wrote(*old(buffer), *final(buffer), self.data()),
    {
        buffer.write_bytes_vector(&self.bytes);
        Ok(())
    }

    /// Consumes `length` bytes from `buffer` and returns an independent
    /// cursor over a copy of them, positioned at the start, in the same
    /// byte order. This scopes nested TLV bodies: over- or under-reading
    /// inside the copy can never move the parent's position.
    pub fn read_buffer(buffer: &mut Buffer, length: usize) -> (r: Result<Buffer, Error>)
        requires
            old(buffer).wf(),
        ensures
            final(buffer).wf(),
            final(buffer).data() == old(buffer).data(),
            final(buffer).ord() == old(buffer).ord(),
            old(buffer).rem().len() >= length ==> (r matches Ok(b) && b.data() == old(
                buffer,
            ).rem().take(length as int) && b.pos() == 0 && b.ord() == old(buffer).ord()
                && final(buffer).pos() == old(buffer).pos() + length),
            old(buffer).rem().len() < length ==> (r matches Err(e) && e.kind()
                == ErrorType::ReadError && final(buffer).pos() == old(buffer).pos()),
    {
        let order = buffer.order;
        match buffer.read_bytes_vector(length) {
            Ok(v) => Ok(Buffer::from_vec(v, order)),
            Err(e) => Err(e),
        }
    }

    /// Writes the two bytes of `value` in this buffer's byte order.
    pub fn write_u16(&mut self, value: u16)
        requires
            old(self).wf(),
        ensures
            wrote(*old(self), *final(self), bytes_u16(old(self).ord(), value)),
    {
        let hi: u8 = (value / 0x100) as u8;
        let lo: u8 = (value % 0x100) as u8;
        let ghost start = *self;
        if self.order == ByteOrder::BigEndian {
            self.write_u8(hi);
            let ghost mid = *self;
            self.write_u8(lo);
            proof {
                lemma_wrote_trans(start, mid, *self, seq![hi], seq![lo]);
                assert(seq![hi] + seq![lo] =~= bytes_u16(start.ord(), value));
            }
        } else {
            self.write_u8(lo);
            let ghost mid = *self;
            self.write_u8(hi);
            proof {
                lemma_wrote_trans(start, mid, *self, seq![lo], seq![hi]);
                assert(seq![lo] + seq![hi] =~= bytes_u16(start.ord(), value));
            }
        }
    }

    /// Reads two bytes as an integer in this buffer's byte order; fails,
    /// consuming nothing, when fewer bytes remain.
    pub fn read_u16(&mut self) -> (r: Result<u16, Error>)
        requires
            old(self).wf(),
        ensures
            final(self).wf(),
            final(self).data() == old(self).data(),
            final(self).ord() == old(self).ord(),
            old(self).rem().len() >= 2 ==> (r matches Ok(v) && v == val_u16(
                old(self).ord(),
                old(self).rem().take(2),
            ) && final(self).pos() == old(self).pos() + 2),
            old(self).rem().len() < 2 ==> (r matches Err(e) && e.kind()
                == ErrorType::ReadError && final(self).pos() == old(self).pos()),
    {
        if self.remaining() < 2 {
            return Err(ErrorType::ReadError.err(
                "unable to read the requested bytes: the buffer ends before them",
            ));
        }
        let n = self.bytes.len();
        assert(self.position + 2 <= n);
        let b0 = self.bytes[self.position];
        let b1 = self.bytes[self.position + 1];
        self.position = self.position + 2;
        let v: u16 = if self.order == ByteOrder::BigEndian {
            (b0 as u16) * 0x100 + (b1 as u16)
        } else {
            (b1 as u16) * 0x100 + (b0 as u16)
        };
        Ok(v)
    }

    /// Writes the four bytes of `value` in this buffer's byte order.
    pub fn write_u32(&mut self, value: u32)
        requires
            old(self).wf(),
        ensures
            wrote(*old(self), *final(self), bytes_u32(old(self).ord(), value)),
    {
        let b0: u8 = (value / 0x1000000) as u8;
        let b1: u8 = ((value / 0x10000) % 0x100) as u8;
        let b2: u8 = ((value / 0x100) % 0x100) as u8;
        let b3: u8 = (value % 0x100) as u8;
        let arr: [u8; 4] = if self.order == ByteOrder::BigEndian {
            [b0, b1, b2, b3]
        } else {
            [b3, b2, b1, b0]
        };
        self.write_bytes_slice(arr.as_slice());
        proof {
            assert(arr@ =~= bytes_u32(old(self).ord(), value));
        }
    }

    /// Reads four bytes as an integer in this buffer's byte order; fails,
    /// consuming nothing, when fewer bytes remain.
    pub fn read_u32(&mut self) -> (r: Result<u32, Error>)
        requires
            old(self).wf(),
        ensures
            final(self).wf(),
            final(self).data() == old(self).data(),
            final(self).ord() == old(self).ord(),
            old(self).rem().len() >= 4 ==> (r matches Ok(v) && v == val_u32(
                old(self).ord(),
                old(self).rem().take(4),
            ) && final(self).pos() == old(self).pos() + 4),
            old(self).rem().len() < 4 ==> (r matches Err(e) && e.kind()
                == ErrorType::ReadError && final(self).pos() == old(self).pos()),
    {
        if self.remaining() < 4 {
            return Err(ErrorType::ReadError.err(
                "unable to read the requested bytes: the buffer ends before them",
            ));
        }
        let n = self.bytes.len();
        assert(self.position + 4 <= n);
        let b0 = self.bytes[self.position];
        let b1 = self.bytes[self.position + 1];
        let b2 = self.bytes[self.position + 2];
        let b3 = self.bytes[self.position + 3];
        self.position = self.position + 4;
        let v: u32 = if self.order == ByteOrder::BigEndian {
            (b0 as u32) * 0x1000000 + (b1 as u32) * 0x10000 + (b2 as u32) * 0x100
                + (b3 as u32)
        } else {
            (b3 as u32) * 0x1000000 + (b2 as u32) * 0x10000 + (b1 as u32) * 0x100
                + (b0 as u32)
        };
        Ok(v)
    }

    /// Writes the eight bytes of `value` in this buffer's byte order.
    pub fn write_u64(&mut self, value: u64)
        requires
            old(self).wf(),
        ensures
            wrote(*old(self), *final(self), bytes_u64(old(self).ord(), value)),
    {
        let b0: u8 = (value / 0x100000000000000) as u8;
        let b1: u8 = ((value / 0x1000000000000) % 0x100) as u8;
        let b2: u8 = ((value / 0x10000000000) % 0x100) as u8;
        let b3: u8 = ((value / 0x100000000) % 0x100) as u8;
        let b4: u8 = ((value / 0x1000000) % 0x100) as u8;
        let b5: u8 = ((value / 0x10000) % 0x100) as u8;
        let b6: u8 = ((value / 0x100) % 0x100) as u8;
        let b7: u8 = (value % 0x100) as u8;
        let arr: [u8; 8] = if self.order == ByteOrder::BigEndian {
            [b0, b1, b2, b3, b4, b5, b6, b7]
        } else {
            [b7, b6, b5, b4, b3, b2, b1, b0]
        };
        self.write_bytes_slice(arr.as_slice());
        proof {
            assert(arr@ =~= bytes_u64(old(self).ord(), value));
        }
    }

    /// Reads eight bytes as an integer in this buffer's byte order; fails,
    /// consuming nothing, when fewer bytes remain.
    pub fn read_u64(&mut self) -> (r: Result<u64, Error>)
        requires
            old(self).wf(),
        ensures
            final(self).wf(),
            final(self).data() == old(self).data(),
            final(self).ord() == old(self).ord(),
            old(self).rem().len() >= 8 ==> (r matches Ok(v) && v == val_u64(
                old(self).ord(),
                old(self).rem().take(8),
            ) && final(self).pos() == old(self).pos() + 8),
            old(self).rem().len() < 8 ==> (r matches Err(e) && e.kind()
                == ErrorType::ReadError && final(self).pos() == old(self).pos()),
    {
        if self.remaining() < 8 {
            return Err(ErrorType::ReadError.err(
                "unable to read the requested bytes: the buffer ends before them",
            ));
        }
        let n = self.bytes.len();
        assert(self.position + 8 <= n);
        let b0 = self.bytes[self.position];
        let b1 = self.bytes[self.position + 1];
        let b2 = self.bytes[self.position + 2];
        let b3 = self.bytes[self.position + 3];
        let b4 = self.bytes[self.position + 4];
        let b5 = self.bytes[self.position + 5];
        let b6 = self.bytes[self.position + 6];
        let b7 = self.bytes[self.position + 7];
        self.position = self.position + 8;
        let v: u64 = if self.order == ByteOrder::BigEndian {
            (b0 as u64) * 0x100000000000000 + (b1 as u64) * 0x1000000000000
                + (b2 as u64) * 0x10000000000 + (b3 as u64) * 0x100000000
                + (b4 as u64) * 0x1000000 + (b5 as u64) * 0x10000
                + (b6 as u64) * 0x100 + (b7 as u64)
        } else {
            (b7 as u64) * 0x100000000000000 + (b6 as u64) * 0x1000000000000
                + (b5 as u64) * 0x10000000000 + (b4 as u64) * 0x100000000
                + (b3 as u64) * 0x1000000 + (b2 as u64) * 0x10000
                + (b1 as u64) * 0x100 + (b0 as u64)
        };
        Ok(v)
    }

    /// Writes a signed byte as its unsigned bit pattern.
    pub fn write_i8(&mut self, value: i8)
        requires
            old(self).wf(),
        ensures
            wrote(*old(self), *final(self), seq![u8_bits_of_i8(value)]),
    {
        let u: u8 = if value >= 0 {
            value as u8
        } else {
            ((value as i16) + 0x100) as u8
        };
        self.write_u8(u);
    }

    /// Reads one byte as a signed integer; fails when none remains.
    pub fn read_i8(&mut self) -> (r: Result<i8, Error>)
        requires
            old(self).wf(),
        ensures
            final(self).wf(),
            final(self).data() == old(self).data(),
            final(self).ord() == old(self).ord(),
            old(self).rem().len() >= 1 ==> (r matches Ok(v) && v == i8_of_u8_bits(
                old(self).rem()[0],
            ) && final(self).pos() == old(self).pos() + 1),
            old(self).rem().len() == 0 ==> (r matches Err(e) && e.kind()
                == ErrorType::ReadError && final(self).pos() == old(self).pos()),
    {
        match self.read_u8() {
            Ok(u) => Ok(
                if u < 0x80 {
                    u as i8
                } else {
                    ((u as i16) - 0x100) as i8
                },
            ),
            Err(e) => Err(e),
        }
    }

    /// Writes a signed two-byte integer as its unsigned bit pattern.
    pub fn write_i16(&mut self, value: i16)
        requires
            old(self).wf(),
        ensures
            wrote(
                *old(self),
                *final(self),
                bytes_u16(old(self).ord(), u16_bits_of_i16(value)),
            ),
    {
        let u: u16 = if value >= 0 {
            value as u16
        } else {
            ((value as i32) + 0x10000) as u16
        };
        self.write_u16(u);
    }

    /// Reads two bytes as a signed integer in this buffer's byte order.
    pub fn read_i16(&mut self) -> (r: Result<i16, Error>)
        requires
            old(self).wf(),
        ensures
            final(self).wf(),
            final(self).data() == old(self).data(),
            final(self).ord() == old(self).ord(),
            old(self).rem().len() >= 2 ==> (r matches Ok(v) && v == i16_of_u16_bits(
                val_u16(old(self).ord(), old(self).rem().take(2)),
            ) && final(self).pos() == old(self).pos() + 2),
            old(self).rem().len() < 2 ==> (r matches Err(e) && e.kind()
                == ErrorType::ReadError && final(self).pos() == old(self).pos()),
    {
        match self.read_u16() {
            Ok(u) => Ok(
                if u < 0x8000 {
                    u as i16
                } else {
                    ((u as i32) - 0x10000) as i16
                },
            ),
            Err(e) => Err(e),
        }
    }

    /// Writes a signed four-byte integer as its unsigned bit pattern.
    pub fn write_i32(&mut self, value: i32)
        requires
            old(self).wf(),
        ensures
            wrote(
                *old(self),
                *final(self),
                bytes_u32(old(self).ord(), u32_bits_of_i32(value)),
            ),
    {
        let u: u32 = if value >= 0 {
            value as u32
        } else {
            ((value as i64) + 0x100000000) as u32
        };
        self.write_u32(u);
    }

    /// Reads four bytes as a signed integer in this buffer's byte order.
    pub fn read_i32(&mut self) -> (r: Result<i32, Error>)
        requires
            old(self).wf(),
        ensures
            final(self).wf(),
            final(self).data() == old(self).data(),
            final(self).ord() == old(self).ord(),
            old(self).rem().len() >= 4 ==> (r matches Ok(v) && v == i32_of_u32_bits(
                val_u32(old(self).ord(), old(self).rem().take(4)),
            ) && final(self).pos() == old(self).pos() + 4),
            old(self).rem().len() < 4 ==> (r matches Err(e) && e.kind()
                == ErrorType::ReadError && final(self).pos() == old(self).pos()),
    {
        match self.read_u32() {
            Ok(u) => Ok(
                if u < 0x80000000 {
                    u as i32
                } else {
                    ((u as i64) - 0x100000000) as i32
                },
            ),
            Err(e) => Err(e),
        }
    }

    /// Writes a signed eight-byte integer as its unsigned bit pattern.
    pub fn write_i64(&mut self, value: i64)
        requires
            old(self).wf(),
        ensures
            wrote(
                *old(self),
                *final(self),
                bytes_u64(old(self).ord(), u64_bits_of_i64(value)),
            ),
    {
        let u: u64 = if value >= 0 {
            value as u64
        } else {
            ((value as i128) + 0x10000000000000000) as u64
        };
        self.write_u64(u);
    }

    /// Reads eight bytes as a signed integer in this buffer's byte order.
    pub fn read_i64(&mut self) -> (r: Result<i64, Error>)
        requires
            old(self).wf(),
        ensures
            final(self).wf(),
            final(self).data() == old(self).data(),
            final(self).ord() == old(self).ord(),
            old(self).rem().len() >= 8 ==> (r matches Ok(v) && v == i64_of_u64_bits(
                val_u64(old(self).ord(), old(self).rem().take(8)),
            ) && final(self).pos() == old(self).pos() + 8),
            old(self).rem().len() < 8 ==> (r matches Err(e) && e.kind()
                == ErrorType::ReadError && final(self).pos() == old(self).pos()),
    {
        match self.read_u64() {
            Ok(u) => Ok(
                if u < 0x8000000000000000 {
                    u as i64
                } else {
                    ((u as i128) - 0x10000000000000000) as i64
                },
            ),
            Err(e) => Err(e),
        }
    }
}

} // verus!
