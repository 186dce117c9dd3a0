//! The fixed 19-byte message header: a 16-byte marker, the total message
//! length, and the message type, together with the RFC 4271 section 6.1
//! validation checks that every incoming header must pass before any body
//! byte is read.

use vstd::prelude::*;
use crate::bgp_error::{BGPError, ErrorCode, HeaderError};
use crate::error::{Error, ErrorType};
use crate::io::{bytes_u16, val_u16, wrote, Buffer, ByteOrder};
use crate::io::lemma_wrote_trans;

verus! {

broadcast use vstd::array::group_array_axioms;

/// The type of a message, as coded in the header's type byte
/// (1 = Open, 2 = Update, 3 = Notification, 4 = KeepAlive,
/// 5 = RouteRefresh). A byte outside the assigned range decodes to
/// `Unexpected`, which header validation then rejects.
#[derive(Clone, Copy, PartialEq, Eq, Structural, Debug, Hash)]
pub enum PacketType {
    Open,
    Update,
    Notification,
    KeepAlive,
    RouteRefresh,
    Unexpected,
}

impl PacketType {
    /// The wire value of this type.
    pub open spec fn spec_to_u8(self) -> u8 {
        match self {
            PacketType::Open => 1,
            PacketType::Update => 2,
            PacketType::Notification => 3,
            PacketType::KeepAlive => 4,
            PacketType::RouteRefresh => 5,
            PacketType::Unexpected => 255,
        }
    }

    /// The type a wire value stands for: a range-checked mapping, never a
    /// reinterpretation of raw bits.
    pub open spec fn spec_from_u8(value: u8) -> PacketType {
        match value {
            1u8 => PacketType::Open,
            2u8 => PacketType::Update,
            3u8 => PacketType::Notification,
            4u8 => PacketType::KeepAlive,
            5u8 => PacketType::RouteRefresh,
            _ => PacketType::Unexpected,
        }
    }

    #[verifier::when_used_as_spec(spec_to_u8)]
    pub fn to_u8(self) -> (r: u8)
        ensures
            r == self.spec_to_u8(),
    {
        match self {
            PacketType::Open => 1,
            PacketType::Update => 2,
            PacketType::Notification => 3,
            PacketType::KeepAlive => 4,
            PacketType::RouteRefresh => 5,
            PacketType::Unexpected => 255,
        }
    }

    #[verifier::when_used_as_spec(spec_from_u8)]
    pub fn from_u8(value: u8) -> (r: PacketType)
        ensures
            r == PacketType::spec_from_u8(value),
    {
        match value {
            1 => PacketType::Open,
            2 => PacketType::Update,
            3 => PacketType::Notification,
            4 => PacketType::KeepAlive,
            5 => PacketType::RouteRefresh,
            _ => PacketType::Unexpected,
        }
    }
}

/// The mathematical shape of a header: the marker bytes, the declared
/// total length, and the message type.
#[verifier::ext_equal]
pub struct HeaderV {
    pub marker: Seq<u8>,
    pub length: u16,
    pub ty: PacketType,
}

/// The 19-byte message header. A valid header's `length` covers header and
/// body together and lies between 19 and 4096; its marker is sixteen `0xFF`
/// bytes. Arbitrary values can be constructed (and encoded), but decoding
/// enforces the checks of RFC 4271 section 6.1.
#[derive(Clone, Copy, PartialEq, Eq, Debug, Hash)]
pub struct BGPHeader {
    /// The 16-byte compatibility marker; all `0xFF` on a synchronized
    /// connection.
    pub marker: [u8; 16],
    /// The length of the whole message, header included, in bytes.
    pub length: u16,
    /// The message type the body should be parsed as.
    pub ty: PacketType,
}

impl DeepView for BGPHeader {
    type V = HeaderV;

    open spec fn deep_view(&self) -> HeaderV {
        HeaderV { marker: self.marker@, length: self.length, ty: self.ty }
    }
}

/// Whether `m` is the synchronization marker: sixteen `0xFF` bytes.
pub open spec fn marker_ok(m: Seq<u8>) -> bool {
    m.len() == 16 && (forall|i: int| 0 <= i < 16 ==> m[i] == 0xFFu8)
}

/// The wire layout of a header: marker, length in the buffer's byte order,
/// type byte.
pub open spec fn enc_header(bo: ByteOrder, h: HeaderV) -> Seq<u8> {
    h.marker + bytes_u16(bo, h.length) + seq![h.ty.spec_to_u8()]
}

/// The error kind for a failed header validation check.
pub open spec fn hdr_err(sub: HeaderError) -> ErrorType {
    ErrorType::BGPError(BGPError::spec_new(ErrorCode::MessageHeader, sub.spec_to_u8()))
}

/// Reads a header from the front of `s` (with integers in byte order `bo`)
/// and applies the RFC 4271 section 6.1 checks in order; the first failing
/// check decides the error. `s` is everything the cursor still holds, so
/// the sixth check — the declared length exceeds the bytes actually
/// delivered — catches transport-level truncation before any body read.
pub open spec fn parse_header(bo: ByteOrder, s: Seq<u8>) -> Result<(HeaderV, int), ErrorType> {
    if s.len() < 19 {
        Err(ErrorType::ReadError)
    } else {
        let marker = s.take(16);
        let length = val_u16(bo, s.subrange(16, 18));
        let ty = PacketType::spec_from_u8(s[18]);
        if length < 19 || length > 4096 {
            Err(hdr_err(HeaderError::BadMessageLength))
        } else if ty == PacketType::KeepAlive && length != 19 {
            Err(hdr_err(HeaderError::BadMessageLength))
        } else if ty == PacketType::Open && length < 29 {
            Err(hdr_err(HeaderError::BadMessageLength))
        } else if ty == PacketType::Update && length < 23 {
            Err(hdr_err(HeaderError::BadMessageLength))
        } else if ty == PacketType::Notification && length < 21 {
            Err(hdr_err(HeaderError::BadMessageLength))
        } else if length > s.len() {
            Err(hdr_err(HeaderError::BadMessageLength))
        } else if ty == PacketType::Unexpected {
            Err(hdr_err(HeaderError::BadMessageType))
        } else if !marker_ok(marker) {
            Err(hdr_err(HeaderError::ConnectionNotSynchronized))
        } else {
            Ok((HeaderV { marker, length, ty }, 19))
        }
    }
}

/// How many bytes a failed header read has consumed: each fixed-width read
/// checks availability before consuming anything.
pub open spec fn header_err_consumed(s: Seq<u8>) -> int {
    if s.len() < 16 {
        0
    } else if s.len() < 18 {
        16
    } else if s.len() < 19 {
        18
    } else {
        19
    }
}

impl BGPHeader {
    /// A header for a message of the given type and total length, with the
    /// marker all `0xFF`.
    pub fn by_type(ty: PacketType, length: u16) -> (r: BGPHeader)
        ensures
            r.ty == ty,
            r.length == length,
            marker_ok(r.marker@),
    {
        let marker: [u8; 16] = [0xFF; 16];
        BGPHeader { marker, length, ty }
    }

    /// A header with every field chosen by the caller, the marker included.
    pub fn new(ty: PacketType, length: u16, marker: [u8; 16]) -> (r: BGPHeader)
        ensures
            r.ty == ty,
            r.length == length,
            r.marker == marker,
    {
        BGPHeader { ty, length, marker }
    }

    /// Writes the 19 header bytes: marker, length (in the buffer's byte
    /// order), type.
    pub fn write(&self, buffer: &mut Buffer) -> (r: Result<(), Error>)
        requires
            old(buffer).wf(),
        ensures
            r matches Ok(u),
            wrote(*old(buffer), *final(buffer), enc_header(old(buffer).ord(), self.deep_view())),
    {
        let ghost start = *buffer;
        buffer.write_bytes_array(self.marker);
        let ghost mid1 = *buffer;
        buffer.write_u16(self.length);
        let ghost mid2 = *buffer;
        buffer.write_u8(self.ty.to_u8());
        proof {
            lemma_wrote_trans(start, mid1, mid2, self.marker@, bytes_u16(start.ord(), self.length));
            lemma_wrote_trans(
                start,
                mid2,
                *buffer,
                self.marker@ + bytes_u16(start.ord(), self.length),
                seq![self.ty.spec_to_u8()],
            );
            assert(self.marker@ + bytes_u16(start.ord(), self.length) + seq![self.ty.spec_to_u8()]
                =~= enc_header(start.ord(), self.deep_view()));
        }
        Ok(())
    }

    /// Reads and validates a header. On success the cursor stands just past
    /// the 19 header bytes; on failure the error is the one RFC 4271
    /// section 6.1 prescribes for the first failing check.
    pub fn read(buffer: &mut Buffer) -> (r: Result<BGPHeader, Error>)
        requires
            old(buffer).wf(),
        ensures
            final(buffer).wf(),
            final(buffer).data() == old(buffer).data(),
            final(buffer).ord() == old(buffer).ord(),
            parse_header(old(buffer).ord(), old(buffer).rem()) matches Ok(hn) ==> (r matches Ok(h)
                && h.deep_view() == hn.0 && final(buffer).pos() == old(buffer).pos() + 19),
            parse_header(old(buffer).ord(), old(buffer).rem()) matches Err(k) ==> (r matches Err(e)
                && e.kind() == k && final(buffer).pos() == old(buffer).pos()
                + header_err_consumed(old(buffer).rem())),
    {
        let marker: [u8; 16] = match buffer.read_bytes_array() {
            Ok(a) => a,
            Err(e) => { return Err(e); },
        };
        let length = match buffer.read_u16() {
            Ok(v) => v,
            Err(e) => { return Err(e); },
        };
        let ty_byte = match buffer.read_u8() {
            Ok(v) => v,
            Err(e) => { return Err(e); },
        };
        let ty = PacketType::from_u8(ty_byte);

        if length < 19 || length > 4096 {
            return Err(ErrorType::BGPError(BGPError::header_error(HeaderError::BadMessageLength))
                .err("unexpected length: a message is at least 19 and at most 4096 bytes long"));
        }
        if ty == PacketType::KeepAlive && length != 19 {
            return Err(ErrorType::BGPError(BGPError::header_error(HeaderError::BadMessageLength))
                .err("unexpected length: a KeepAlive message is exactly 19 bytes long"));
        }
        if ty == PacketType::Open && length < 29 {
            return Err(ErrorType::BGPError(BGPError::header_error(HeaderError::BadMessageLength))
                .err("unexpected length: an Open message is at least 29 bytes long"));
        }
        if ty == PacketType::Update && length < 23 {
            return Err(ErrorType::BGPError(BGPError::header_error(HeaderError::BadMessageLength))
                .err("unexpected length: an Update message is at least 23 bytes long"));
        }
        if ty == PacketType::Notification && length < 21 {
            return Err(ErrorType::BGPError(BGPError::header_error(HeaderError::BadMessageLength))
                .err("unexpected length: a Notification message is at least 21 bytes long"));
        }
        if (length as usize) - 19 > buffer.remaining() {
            return Err(ErrorType::BGPError(BGPError::header_error(HeaderError::BadMessageLength))
                .err("unexpected length: the header declares more bytes than were delivered"));
        }
        if ty == PacketType::Unexpected {
            return Err(ErrorType::BGPError(BGPError::header_error(HeaderError::BadMessageType))
                .err("unexpected type: only the assigned message types are supported"));
        }
        let mut i: usize = 0;
        let mut all_ff = true;
        while i < 16
            invariant
                i <= 16,
                all_ff == (forall|j: int| 0 <= j < i ==> marker@[j] == 0xFFu8),
                marker@.len() == 16,
            decreases 16 - i,
        {
            if marker[i] != 0xFF {
                all_ff = false;
            }
            i = i + 1;
        }
        if !all_ff {
            return Err(ErrorType::BGPError(BGPError::header_error(
                HeaderError::ConnectionNotSynchronized,
            )).err("unexpected marker: the connection does not look synchronized"));
        }
        Ok(BGPHeader { marker, length, ty })
    }

    /// Decodes a header starting at the current position, then puts the
    /// position back exactly where it was: the look-ahead used to frame a
    /// message before committing to read its body.
    pub fn peek(buffer: &mut Buffer) -> (r: Result<BGPHeader, Error>)
        requires
            old(buffer).wf(),
        ensures
            final(buffer).wf(),
            final(buffer).data() == old(buffer).data(),
            final(buffer).ord() == old(buffer).ord(),
            final(buffer).pos() == old(buffer).pos(),
            parse_header(old(buffer).ord(), old(buffer).rem()) matches Ok(hn) ==> (r matches Ok(h)
                && h.deep_view() == hn.0),
            parse_header(old(buffer).ord(), old(buffer).rem()) matches Err(k) ==> (r matches Err(e)
                && e.kind() == k),
    {
        let saved = buffer.position();
        let r = BGPHeader::read(buffer);
        buffer.set_position(saved);
        r
    }
}

impl Default for BGPHeader {
    /// The header of a KeepAlive message: type KeepAlive, length 19, the
    /// marker all `0xFF`.
    fn default() -> (r: BGPHeader)
        ensures
            r.ty == PacketType::KeepAlive,
            r.length == 19,
            marker_ok(r.marker@),
    {
        BGPHeader::by_type(PacketType::KeepAlive, 19)
    }
}

} // verus!
