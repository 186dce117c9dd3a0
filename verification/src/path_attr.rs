//! The Update message's path attributes: flag byte, type byte, one-byte
//! value length, then a value whose layout the type alone decides. The
//! type registry is a checked mapping; a byte outside it is rejected,
//! never reinterpreted.

use vstd::prelude::*;
use crate::error::{Error, ErrorType};
use crate::io::{bytes_u16, bytes_u32, bytes_u64, val_u16, val_u32, val_u64, wrote, Buffer,
    ByteOrder};
use crate::io::{lemma_u16_round_trip, lemma_u32_round_trip, lemma_u64_round_trip,
    lemma_wrote_at_end, lemma_wrote_trans};
use crate::opt_params::{AFI, SAFI};

verus! {

/// The attribute flag bits: optional, transitive, partial and
/// extended-length, packed in the high nibble of the flag byte. Values
/// with a low-nibble bit set cannot be built and are rejected on decode.
#[derive(Clone, Copy, PartialEq, Eq, Structural, Debug, Hash)]
pub struct AttributeFlags {
    bits: u8,
}

impl AttributeFlags {
    /// The raw flag byte.
    pub closed spec fn spec_bits(&self) -> u8 {
        self.bits
    }

    #[verifier::when_used_as_spec(spec_bits)]
    pub fn bits(&self) -> (r: u8)
        ensures
            r == self.spec_bits(),
    {
        self.bits
    }

    /// The flags a raw byte stands for; `None` when a bit outside the four
    /// defined flags is set.
    pub fn from_bits(bits: u8) -> (r: Option<AttributeFlags>)
        ensures
            bits & 0x0F == 0 ==> (r matches Some(f) && f.spec_bits() == bits),
            bits & 0x0F != 0 ==> r is None,
    {
        if bits & 0x0F != 0 {
            None
        } else {
            Some(AttributeFlags { bits })
        }
    }

    /// No flag set.
    pub fn none() -> (r: AttributeFlags)
        ensures
            r.spec_bits() == 0x00u8,
    {
        AttributeFlags { bits: 0x00 }
    }

    /// The attribute is optional (not required of every Update).
    pub fn optional() -> (r: AttributeFlags)
        ensures
            r.spec_bits() == 0x80u8,
    {
        AttributeFlags { bits: 0x80 }
    }

    /// The attribute is passed on to other peers.
    pub fn transitive() -> (r: AttributeFlags)
        ensures
            r.spec_bits() == 0x40u8,
    {
        AttributeFlags { bits: 0x40 }
    }

    /// The attribute crossed a router that did not recognize it.
    pub fn partial() -> (r: AttributeFlags)
        ensures
            r.spec_bits() == 0x20u8,
    {
        AttributeFlags { bits: 0x20 }
    }

    /// The attribute's length field is two bytes wide.
    pub fn extended_length() -> (r: AttributeFlags)
        ensures
            r.spec_bits() == 0x10u8,
    {
        AttributeFlags { bits: 0x10 }
    }

    /// The flags of both operands together.
    pub fn union(self, other: AttributeFlags) -> (r: AttributeFlags)
        ensures
            r.spec_bits() == self.spec_bits() | other.spec_bits(),
    {
        AttributeFlags { bits: self.bits | other.bits }
    }
}

/// The origin of the path information carried by an Update message.
#[derive(Clone, Copy, PartialEq, Eq, Structural, Debug, Hash)]
pub enum Origin {
    IGP,
    EGP,
    Incomplete,
}

impl Origin {
    /// The wire value of this origin.
    pub open spec fn spec_to_u8(self) -> u8 {
        match self {
            Origin::IGP => 0,
            Origin::EGP => 1,
            Origin::Incomplete => 2,
        }
    }

    /// The origin a wire value stands for; a value past `Incomplete` is an
    /// invariant violation.
    pub open spec fn spec_from_u8(value: u8) -> Result<Origin, ErrorType> {
        match value {
            0u8 => Ok(Origin::IGP),
            1u8 => Ok(Origin::EGP),
            2u8 => Ok(Origin::Incomplete),
            _ => Err(ErrorType::OtherError),
        }
    }

    #[verifier::when_used_as_spec(spec_to_u8)]
    pub fn to_u8(self) -> (r: u8)
        ensures
            r == self.spec_to_u8(),
    {
        match self {
            Origin::IGP => 0,
            Origin::EGP => 1,
            Origin::Incomplete => 2,
        }
    }

    /// The checked mapping from a wire value, rejecting the unassigned
    /// range explicitly.
    pub fn from(value: u8) -> (r: Result<Origin, Error>)
        ensures
            Origin::spec_from_u8(value) matches Ok(o) ==> (r matches Ok(o2) && o2 == o),
            Origin::spec_from_u8(value) matches Err(k) ==> (r matches Err(e) && e.kind() == k),
    {
        match value {
            0 => Ok(Origin::IGP),
            1 => Ok(Origin::EGP),
            2 => Ok(Origin::Incomplete),
            _ => Err(ErrorType::OtherError.err(
                "unexpected origin: only IGP, EGP and Incomplete are assigned",
            )),
        }
    }
}

/// The path-attribute type registry. Decoding uses a checked mapping from
/// the wire value: a byte no variant is assigned to is rejected.
#[derive(Clone, Copy, PartialEq, Eq, Structural, Debug, Hash)]
pub enum AttributeType {
    Reserved,
    Origin,
    ASPath,
    NextHop,
    MultiExitDisc,
    LocalPref,
    AtomicAggregate,
    Aggregator,
    Community,
    OriginatorId,
    ClusterList,
    MPReachableNLRI,
    MPUnreachableNLRI,
    ExtendedCommunities,
    AS4Path,
    AS4Aggregator,
    PMSITunnel,
    TunnelEncapsulation,
    TrafficEngineering,
    Ipv6AddressSpecifiedExtendedCommunity,
    AIGP,
    PEDistinguisherLabels,
    BGPLSAttribute,
    LargeCommunity,
    BGPSecPath,
    OnlyToCustomer,
    BGPDomainPath,
    SFPAttribute,
    BFDDiscriminator,
    BGPRouterCapabilities,
    BGPPrefixSID,
    AttributeSet,
    ReservedForDevelopment,
}

impl AttributeType {
    /// The wire value of this attribute type.
    pub open spec fn spec_to_u8(self) -> u8 {
        match self {
            AttributeType::Reserved => 0,
            AttributeType::Origin => 1,
            AttributeType::ASPath => 2,
            AttributeType::NextHop => 3,
            AttributeType::MultiExitDisc => 4,
            AttributeType::LocalPref => 5,
            AttributeType::AtomicAggregate => 6,
            AttributeType::Aggregator => 7,
            AttributeType::Community => 8,
            AttributeType::OriginatorId => 9,
            AttributeType::ClusterList => 10,
            AttributeType::MPReachableNLRI => 14,
            AttributeType::MPUnreachableNLRI => 15,
            AttributeType::ExtendedCommunities => 16,
            AttributeType::AS4Path => 17,
            AttributeType::AS4Aggregator => 18,
            AttributeType::PMSITunnel => 22,
            AttributeType::TunnelEncapsulation => 23,
            AttributeType::TrafficEngineering => 24,
            AttributeType::Ipv6AddressSpecifiedExtendedCommunity => 25,
            AttributeType::AIGP => 26,
            AttributeType::PEDistinguisherLabels => 27,
            AttributeType::BGPLSAttribute => 29,
            AttributeType::LargeCommunity => 32,
            AttributeType::BGPSecPath => 33,
            AttributeType::OnlyToCustomer => 35,
            AttributeType::BGPDomainPath => 36,
            AttributeType::SFPAttribute => 37,
            AttributeType::BFDDiscriminator => 38,
            AttributeType::BGPRouterCapabilities => 39,
            AttributeType::BGPPrefixSID => 40,
            AttributeType::AttributeSet => 128,
            AttributeType::ReservedForDevelopment => 255,
        }
    }

    /// The attribute type a wire value stands for; a byte no type is
    /// assigned to is a read error.
    pub open spec fn spec_from_u8(value: u8) -> Result<AttributeType, ErrorType> {
        match value {
            0u8 => Ok(AttributeType::Reserved),
            1u8 => Ok(AttributeType::Origin),
            2u8 => Ok(AttributeType::ASPath),
            3u8 => Ok(AttributeType::NextHop),
            4u8 => Ok(AttributeType::MultiExitDisc),
            5u8 => Ok(AttributeType::LocalPref),
            6u8 => Ok(AttributeType::AtomicAggregate),
            7u8 => Ok(AttributeType::Aggregator),
            8u8 => Ok(AttributeType::Community),
            9u8 => Ok(AttributeType::OriginatorId),
            10u8 => Ok(AttributeType::ClusterList),
            14u8 => Ok(AttributeType::MPReachableNLRI),
            15u8 => Ok(AttributeType::MPUnreachableNLRI),
            16u8 => Ok(AttributeType::ExtendedCommunities),
            17u8 => Ok(AttributeType::AS4Path),
            18u8 => Ok(AttributeType::AS4Aggregator),
            22u8 => Ok(AttributeType::PMSITunnel),
            23u8 => Ok(AttributeType::TunnelEncapsulation),
            24u8 => Ok(AttributeType::TrafficEngineering),
            25u8 => Ok(AttributeType::Ipv6AddressSpecifiedExtendedCommunity),
            26u8 => Ok(AttributeType::AIGP),
            27u8 => Ok(AttributeType::PEDistinguisherLabels),
            29u8 => Ok(AttributeType::BGPLSAttribute),
            32u8 => Ok(AttributeType::LargeCommunity),
            33u8 => Ok(AttributeType::BGPSecPath),
            35u8 => Ok(AttributeType::OnlyToCustomer),
            36u8 => Ok(AttributeType::BGPDomainPath),
            37u8 => Ok(AttributeType::SFPAttribute),
            38u8 => Ok(AttributeType::BFDDiscriminator),
            39u8 => Ok(AttributeType::BGPRouterCapabilities),
            40u8 => Ok(AttributeType::BGPPrefixSID),
            128u8 => Ok(AttributeType::AttributeSet),
            255u8 => Ok(AttributeType::ReservedForDevelopment),
            _ => Err(ErrorType::ReadError),
        }
    }

    #[verifier::when_used_as_spec(spec_to_u8)]
    pub fn to_u8(self) -> (r: u8)
        ensures
            r == self.spec_to_u8(),
    {
        match self {
            AttributeType::Reserved => 0,
            AttributeType::Origin => 1,
            AttributeType::ASPath => 2,
            AttributeType::NextHop => 3,
            AttributeType::MultiExitDisc => 4,
            AttributeType::LocalPref => 5,
            AttributeType::AtomicAggregate => 6,
            AttributeType::Aggregator => 7,
            AttributeType::Community => 8,
            AttributeType::OriginatorId => 9,
            AttributeType::ClusterList => 10,
            AttributeType::MPReachableNLRI => 14,
            AttributeType::MPUnreachableNLRI => 15,
            AttributeType::ExtendedCommunities => 16,
            AttributeType::AS4Path => 17,
            AttributeType::AS4Aggregator => 18,
            AttributeType::PMSITunnel => 22,
            AttributeType::TunnelEncapsulation => 23,
            AttributeType::TrafficEngineering => 24,
            AttributeType::Ipv6AddressSpecifiedExtendedCommunity => 25,
            AttributeType::AIGP => 26,
            AttributeType::PEDistinguisherLabels => 27,
            AttributeType::BGPLSAttribute => 29,
            AttributeType::LargeCommunity => 32,
            AttributeType::BGPSecPath => 33,
            AttributeType::OnlyToCustomer => 35,
            AttributeType::BGPDomainPath => 36,
            AttributeType::SFPAttribute => 37,
            AttributeType::BFDDiscriminator => 38,
            AttributeType::BGPRouterCapabilities => 39,
            AttributeType::BGPPrefixSID => 40,
            AttributeType::AttributeSet => 128,
            AttributeType::ReservedForDevelopment => 255,
        }
    }

    /// The checked mapping from a wire value, rejecting unassigned bytes
    /// explicitly.
    pub fn from(value: u8) -> (r: Result<AttributeType, Error>)
        ensures
            AttributeType::spec_from_u8(value) matches Ok(t) ==> (r matches Ok(t2) && t2 == t),
            AttributeType::spec_from_u8(value) matches Err(k) ==> (r matches Err(e) && e.kind()
                == k),
    {
        match value {
            0 => Ok(AttributeType::Reserved),
            1 => Ok(AttributeType::Origin),
            2 => Ok(AttributeType::ASPath),
            3 => Ok(AttributeType::NextHop),
            4 => Ok(AttributeType::MultiExitDisc),
            5 => Ok(AttributeType::LocalPref),
            6 => Ok(AttributeType::AtomicAggregate),
            7 => Ok(AttributeType::Aggregator),
            8 => Ok(AttributeType::Community),
            9 => Ok(AttributeType::OriginatorId),
            10 => Ok(AttributeType::ClusterList),
            14 => Ok(AttributeType::MPReachableNLRI),
            15 => Ok(AttributeType::MPUnreachableNLRI),
            16 => Ok(AttributeType::ExtendedCommunities),
            17 => Ok(AttributeType::AS4Path),
            18 => Ok(AttributeType::AS4Aggregator),
            22 => Ok(AttributeType::PMSITunnel),
            23 => Ok(AttributeType::TunnelEncapsulation),
            24 => Ok(AttributeType::TrafficEngineering),
            25 => Ok(AttributeType::Ipv6AddressSpecifiedExtendedCommunity),
            26 => Ok(AttributeType::AIGP),
            27 => Ok(AttributeType::PEDistinguisherLabels),
            29 => Ok(AttributeType::BGPLSAttribute),
            32 => Ok(AttributeType::LargeCommunity),
            33 => Ok(AttributeType::BGPSecPath),
            35 => Ok(AttributeType::OnlyToCustomer),
            36 => Ok(AttributeType::BGPDomainPath),
            37 => Ok(AttributeType::SFPAttribute),
            38 => Ok(AttributeType::BFDDiscriminator),
            39 => Ok(AttributeType::BGPRouterCapabilities),
            40 => Ok(AttributeType::BGPPrefixSID),
            128 => Ok(AttributeType::AttributeSet),
            255 => Ok(AttributeType::ReservedForDevelopment),
            _ => Err(ErrorType::ReadError.err(
                "unexpected attribute type: the wire value is not assigned",
            )),
        }
    }
}

/// A classic community: the autonomous system that defined it and its
/// local value, six bytes on the wire.
#[derive(Clone, Copy, PartialEq, Eq, Structural, Debug, Hash)]
pub struct Community {
    community_as: u32,
    community_value: u16,
}

impl Community {
    pub closed spec fn spec_new(community_as: u32, value: u16) -> Community {
        Community { community_as, community_value: value }
    }

    pub closed spec fn spec_as(self) -> u32 {
        self.community_as
    }

    pub closed spec fn spec_value(self) -> u16 {
        self.community_value
    }

    pub broadcast proof fn lemma_new_fields(community_as: u32, value: u16)
        ensures
            (#[trigger] Community::spec_new(community_as, value)).spec_as() == community_as,
            Community::spec_new(community_as, value).spec_value() == value,
    {
    }

    #[verifier::when_used_as_spec(spec_new)]
    pub fn new(community_as: u32, value: u16) -> (r: Community)
        ensures
            r == Community::spec_new(community_as, value),
    {
        Community { community_as, community_value: value }
    }

    /// Writes the community: its autonomous system, then its value, in
    /// the buffer's byte order.
    pub fn write(&self, buffer: &mut Buffer) -> (r: Result<(), Error>)
        requires
            old(buffer).wf(),
        ensures
            r matches Ok(u),
            wrote(*old(buffer), *final(buffer), enc_community_ord(old(buffer).ord(), *self)),
    {
        let ghost start = *buffer;
        buffer.write_u32(self.community_as);
        let ghost mid = *buffer;
        buffer.write_u16(self.community_value);
        proof {
            lemma_wrote_trans(
                start,
                mid,
                *buffer,
                bytes_u32(start.ord(), self.community_as),
                bytes_u16(start.ord(), self.community_value),
            );
        }
        Ok(())
    }

    /// Reads a community's six bytes in the buffer's byte order.
    pub fn read(buffer: &mut Buffer) -> (r: Result<Community, Error>)
        requires
            old(buffer).wf(),
        ensures
            final(buffer).wf(),
            final(buffer).data() == old(buffer).data(),
            final(buffer).ord() == old(buffer).ord(),
            parse_community(old(buffer).ord(), old(buffer).rem()) matches Ok(cn) ==> (r matches Ok(
                c,
            ) && c == cn.0 && final(buffer).pos() == old(buffer).pos() + cn.1),
            parse_community(old(buffer).ord(), old(buffer).rem()) matches Err(k) ==> (r matches Err(
                e,
            ) && e.kind() == k),
    {
        let community_as = match buffer.read_u32() {
            Ok(v) => v,
            Err(e) => { return Err(e); },
        };
        let community_value = match buffer.read_u16() {
            Ok(v) => v,
            Err(e) => { return Err(e); },
        };
        proof {
            if old(buffer).rem().len() >= 6 {
                assert(old(buffer).rem().skip(4).take(2) =~= old(buffer).rem().subrange(4, 6));
            }
        }
        Ok(Community { community_as, community_value })
    }
}

/// The six-byte layout of a community in byte order `bo`.
pub open spec fn enc_community_ord(bo: ByteOrder, c: Community) -> Seq<u8> {
    bytes_u32(bo, c.spec_as()) + bytes_u16(bo, c.spec_value())
}

/// Reads one community from the front of `s`.
pub open spec fn parse_community(bo: ByteOrder, s: Seq<u8>) -> Result<(Community, int), ErrorType> {
    if s.len() < 4 {
        Err(ErrorType::ReadError)
    } else if s.len() < 6 {
        Err(ErrorType::ReadError)
    } else {
        Ok(
            (
                Community::spec_new(val_u32(bo, s.take(4)), val_u16(bo, s.subrange(4, 6))),
                6,
            ),
        )
    }
}

/// A large community: a global administrator and two local data parts,
/// twenty-four bytes on the wire.
#[derive(Clone, Copy, PartialEq, Eq, Structural, Debug, Hash)]
pub struct LargeCommunity {
    global_administrator: u64,
    local_data_part_1: u64,
    local_data_part_2: u64,
}

impl LargeCommunity {
    pub closed spec fn spec_new(
        global_administrator: u64,
        local_data_part_1: u64,
        local_data_part_2: u64,
    ) -> LargeCommunity {
        LargeCommunity { global_administrator, local_data_part_1, local_data_part_2 }
    }

    pub closed spec fn spec_global(self) -> u64 {
        self.global_administrator
    }

    pub closed spec fn spec_local_1(self) -> u64 {
        self.local_data_part_1
    }

    pub closed spec fn spec_local_2(self) -> u64 {
        self.local_data_part_2
    }

    pub broadcast proof fn lemma_new_fields(g: u64, l1: u64, l2: u64)
        ensures
            (#[trigger] LargeCommunity::spec_new(g, l1, l2)).spec_global() == g,
            LargeCommunity::spec_new(g, l1, l2).spec_local_1() == l1,
            LargeCommunity::spec_new(g, l1, l2).spec_local_2() == l2,
    {
    }

    #[verifier::when_used_as_spec(spec_new)]
    pub fn new(global_administrator: u64, local_data_part_1: u64, local_data_part_2: u64) -> (r:
        LargeCommunity)
        ensures
            r == LargeCommunity::spec_new(
                global_administrator,
                local_data_part_1,
                local_data_part_2,
            ),
    {
        LargeCommunity { global_administrator, local_data_part_1, local_data_part_2 }
    }

    /// Writes the three eight-byte parts in the buffer's byte order.
    pub fn write(&self, buffer: &mut Buffer) -> (r: Result<(), Error>)
        requires
            old(buffer).wf(),
        ensures
            r matches Ok(u),
            wrote(*old(buffer), *final(buffer), enc_large_community_ord(old(buffer).ord(), *self)),
    {
        let ghost start = *buffer;
        buffer.write_u64(self.global_administrator);
        let ghost mid1 = *buffer;
        buffer.write_u64(self.local_data_part_1);
        let ghost mid2 = *buffer;
        buffer.write_u64(self.local_data_part_2);
        proof {
            lemma_wrote_trans(
                start,
                mid1,
                mid2,
                bytes_u64(start.ord(), self.global_administrator),
                bytes_u64(start.ord(), self.local_data_part_1),
            );
            lemma_wrote_trans(
                start,
                mid2,
                *buffer,
                bytes_u64(start.ord(), self.global_administrator) + bytes_u64(
                    start.ord(),
                    self.local_data_part_1,
                ),
                bytes_u64(start.ord(), self.local_data_part_2),
            );
        }
        Ok(())
    }

    /// Reads a large community's twenty-four bytes in the buffer's byte
    /// order.
    pub fn read(buffer: &mut Buffer) -> (r: Result<LargeCommunity, Error>)
        requires
            old(buffer).wf(),
        ensures
            final(buffer).wf(),
            final(buffer).data() == old(buffer).data(),
            final(buffer).ord() == old(buffer).ord(),
            parse_large_community(old(buffer).ord(), old(buffer).rem()) matches Ok(cn) ==> (r
                matches Ok(c) && c == cn.0 && final(buffer).pos() == old(buffer).pos() + cn.1),
            parse_large_community(old(buffer).ord(), old(buffer).rem()) matches Err(k) ==> (r
                matches Err(e) && e.kind() == k),
    {
        let global_administrator = match buffer.read_u64() {
            Ok(v) => v,
            Err(e) => { return Err(e); },
        };
        let local_data_part_1 = match buffer.read_u64() {
            Ok(v) => v,
            Err(e) => { return Err(e); },
        };
        let local_data_part_2 = match buffer.read_u64() {
            Ok(v) => v,
            Err(e) => { return Err(e); },
        };
        proof {
            if old(buffer).rem().len() >= 24 {
                assert(old(buffer).rem().skip(8).take(8) =~= old(buffer).rem().subrange(8, 16));
                assert(old(buffer).rem().skip(16).take(8) =~= old(buffer).rem().subrange(16, 24));
            }
        }
        Ok(LargeCommunity { global_administrator, local_data_part_1, local_data_part_2 })
    }
}

/// The twenty-four-byte layout of a large community in byte order `bo`.
pub open spec fn enc_large_community_ord(bo: ByteOrder, c: LargeCommunity) -> Seq<u8> {
    bytes_u64(bo, c.spec_global()) + bytes_u64(bo, c.spec_local_1()) + bytes_u64(
        bo,
        c.spec_local_2(),
    )
}

/// Reads one large community from the front of `s`.
pub open spec fn parse_large_community(bo: ByteOrder, s: Seq<u8>) -> Result<
    (LargeCommunity, int),
    ErrorType,
> {
    if s.len() < 24 {
        Err(ErrorType::ReadError)
    } else {
        Ok(
            (
                LargeCommunity::spec_new(
                    val_u64(bo, s.take(8)),
                    val_u64(bo, s.subrange(8, 16)),
                    val_u64(bo, s.subrange(16, 24)),
                ),
                24,
            ),
        )
    }
}

/// One segment of an AS path: the ordered run of autonomous systems a
/// route has crossed. Only the `ASSequence` segment type (2) is
/// implemented; another type byte decodes to an `Unknown` placeholder
/// that cannot be re-encoded.
#[derive(Clone, PartialEq, Eq, Debug, Hash)]
pub enum ASPathSegment {
    ASSequence(Vec<u32>),
    Unknown(u8),
}

/// The mathematical shape of an AS-path segment.
#[verifier::ext_equal]
pub enum ASPathSegmentV {
    ASSequence(Seq<u32>),
    Unknown(u8),
}

impl DeepView for ASPathSegment {
    type V = ASPathSegmentV;

    open spec fn deep_view(&self) -> ASPathSegmentV {
        match self {
            ASPathSegment::ASSequence(values) => ASPathSegmentV::ASSequence(values@),
            ASPathSegment::Unknown(ty) => ASPathSegmentV::Unknown(*ty),
        }
    }
}

/// The four-byte layouts of a run of autonomous system numbers, in
/// order, in byte order `bo`.
pub open spec fn enc_u32_run(bo: ByteOrder, vals: Seq<u32>) -> Seq<u8>
    decreases vals.len(),
{
    if vals.len() == 0 {
        seq![]
    } else {
        bytes_u32(bo, vals[0]) + enc_u32_run(bo, vals.skip(1))
    }
}

/// A run of numbers encodes to four bytes per number.
pub proof fn lemma_u32_run_len(bo: ByteOrder, vals: Seq<u32>)
    ensures
        enc_u32_run(bo, vals).len() == 4 * vals.len(),
    decreases vals.len(),
{
    if vals.len() > 0 {
        lemma_u32_run_len(bo, vals.skip(1));
    }
}

/// Each number of a run owns its own four-byte window of the encoding.
pub proof fn lemma_u32_run_window(bo: ByteOrder, vals: Seq<u32>, i: int)
    requires
        0 <= i < vals.len(),
    ensures
        enc_u32_run(bo, vals).subrange(4 * i, 4 * i + 4) == bytes_u32(bo, vals[i]),
    decreases i,
{
    lemma_u32_run_len(bo, vals);
    lemma_u32_run_len(bo, vals.skip(1));
    let head = bytes_u32(bo, vals[0]);
    if i == 0 {
        assert(enc_u32_run(bo, vals).subrange(0, 4) =~= head);
    } else {
        lemma_u32_run_window(bo, vals.skip(1), i - 1);
        assert(enc_u32_run(bo, vals).subrange(4 * i, 4 * i + 4) =~= enc_u32_run(
            bo,
            vals.skip(1),
        ).subrange(4 * (i - 1), 4 * (i - 1) + 4));
        assert(vals.skip(1)[i - 1] == vals[i]);
    }
}

/// Encoding a run of numbers one longer appends the last number's bytes.
pub proof fn lemma_u32_run_snoc(bo: ByteOrder, vals: Seq<u32>, v: u32)
    ensures
        enc_u32_run(bo, vals.push(v)) == enc_u32_run(bo, vals) + bytes_u32(bo, v),
    decreases vals.len(),
{
    let tail = vals.push(v).skip(1);
    if vals.len() == 0 {
        assert(vals.push(v)[0] == v);
        assert(tail =~= Seq::<u32>::empty());
        assert(tail.len() == 0);
        assert(enc_u32_run(bo, tail) == Seq::<u8>::empty());
        assert(enc_u32_run(bo, vals) == Seq::<u8>::empty());
        assert(enc_u32_run(bo, vals.push(v)) == bytes_u32(bo, v) + enc_u32_run(bo, tail));
        assert(bytes_u32(bo, v) + Seq::<u8>::empty() =~= Seq::<u8>::empty() + bytes_u32(bo, v));
    } else {
        assert(vals.push(v)[0] == vals[0]);
        assert(tail =~= vals.skip(1).push(v));
        lemma_u32_run_snoc(bo, vals.skip(1), v);
        assert(enc_u32_run(bo, vals.push(v)) == bytes_u32(bo, vals[0]) + enc_u32_run(bo, tail));
        assert(bytes_u32(bo, vals[0]) + (enc_u32_run(bo, vals.skip(1)) + bytes_u32(bo, v))
            =~= (bytes_u32(bo, vals[0]) + enc_u32_run(bo, vals.skip(1))) + bytes_u32(bo, v));
    }
}

/// The wire layout of an AS-path segment: segment type 2, the count of
/// numbers, then each number. An `Unknown` segment, and a run too long
/// for the one-byte count, cannot be written.
pub open spec fn enc_as_path_segment(bo: ByteOrder, seg: ASPathSegmentV) -> Result<
    Seq<u8>,
    ErrorType,
> {
    match seg {
        ASPathSegmentV::ASSequence(vals) => if vals.len() > 255 {
            Err(ErrorType::WriteError)
        } else {
            Ok(seq![2u8, vals.len() as u8] + enc_u32_run(bo, vals))
        },
        ASPathSegmentV::Unknown(ty) => Err(ErrorType::WriteError),
    }
}

/// Reads one AS-path segment from the front of `s`: a type byte, and for
/// the implemented sequence type a count and that many numbers; any other
/// type byte becomes an `Unknown` placeholder, consuming only itself.
pub open spec fn parse_as_path_segment(bo: ByteOrder, s: Seq<u8>) -> Result<
    (ASPathSegmentV, int),
    ErrorType,
> {
    if s.len() < 1 {
        Err(ErrorType::ReadError)
    } else if s[0] == 2 {
        if s.len() < 2 {
            Err(ErrorType::ReadError)
        } else {
            let count = s[1];
            if s.len() < 2 + 4 * count {
                Err(ErrorType::ReadError)
            } else {
                Ok(
                    (
                        ASPathSegmentV::ASSequence(
                            Seq::new(
                                count as nat,
                                |i: int| val_u32(bo, s.subrange(2 + 4 * i, 6 + 4 * i)),
                            ),
                        ),
                        2 + 4 * count,
                    ),
                )
            }
        }
    } else {
        Ok((ASPathSegmentV::Unknown(s[0]), 1))
    }
}

/// An encodable segment decodes from its own encoding unchanged and
/// consumes exactly its bytes, whatever follows it.
pub proof fn lemma_as_path_segment_round_trip(bo: ByteOrder, seg: ASPathSegmentV, rest: Seq<u8>)
    requires
        enc_as_path_segment(bo, seg) matches Ok(b),
    ensures
        enc_as_path_segment(bo, seg) matches Ok(b) ==> parse_as_path_segment(bo, b + rest)
            == Ok::<_, ErrorType>((seg, b.len() as int)),
{
    let b = enc_as_path_segment(bo, seg)->Ok_0;
    let s = b + rest;
    match seg {
        ASPathSegmentV::ASSequence(vals) => {
            lemma_u32_run_len(bo, vals);
            assert(s[0] == 2);
            assert(s[1] == vals.len() as u8);
            let parsed = Seq::new(
                vals.len() as nat,
                |i: int| val_u32(bo, s.subrange(2 + 4 * i, 6 + 4 * i)),
            );
            assert forall|i: int| 0 <= i < vals.len() implies parsed[i] == vals[i] by {
                lemma_u32_run_window(bo, vals, i);
                assert(s.subrange(2 + 4 * i, 6 + 4 * i) =~= enc_u32_run(bo, vals).subrange(
                    4 * i,
                    4 * i + 4,
                ));
                lemma_u32_round_trip(bo, vals[i]);
            }
            assert(parsed =~= vals);
        },
        ASPathSegmentV::Unknown(ty) => {},
    }
}

impl ASPathSegment {
    /// Writes the segment: type 2, the count, then each number. An
    /// `Unknown` segment has no wire form; writing one fails after its
    /// type byte, as does a run too long for the one-byte count.
    pub fn write(&self, buffer: &mut Buffer) -> (r: Result<(), Error>)
        requires
            old(buffer).wf(),
        ensures
            enc_as_path_segment(old(buffer).ord(), self.deep_view()) matches Ok(b) ==> (r matches
                Ok(u) && wrote(*old(buffer), *final(buffer), b)),
            enc_as_path_segment(old(buffer).ord(), self.deep_view()) matches Err(k) ==> (r matches
                Err(e) && e.kind() == k && final(buffer).wf() && final(buffer).ord() == old(
                buffer,
            ).ord()),
    {
        let ghost start = *buffer;
        match self {
            ASPathSegment::ASSequence(values) => {
                buffer.write_u8(2);
                if values.len() > 255 {
                    return Err(ErrorType::WriteError.err(
                        "unexpected path segment: more numbers than the one-byte count allows",
                    ));
                }
                let count = values.len() as u8;
                let ghost mid1 = *buffer;
                buffer.write_u8(count);
                proof {
                    lemma_wrote_trans(start, mid1, *buffer, seq![2u8], seq![count]);
                    assert(values@.take(0) =~= Seq::<u32>::empty());
                    assert(seq![2u8] + seq![count] + enc_u32_run(start.ord(), values@.take(0))
                        =~= seq![2u8, count]);
                }
                let mut i: usize = 0;
                while i < values.len()
                    invariant
                        i <= values@.len(),
                        values@.len() <= 255,
                        start == *old(buffer),
                        start.wf(),
                        wrote(
                            start,
                            *buffer,
                            seq![2u8, count] + enc_u32_run(start.ord(), values@.take(i as int)),
                        ),
                        count == values@.len() as u8,
                    decreases values@.len() - i,
                {
                    let ghost mid = *buffer;
                    let v = values[i];
                    buffer.write_u32(v);
                    proof {
                        lemma_wrote_trans(
                            start,
                            mid,
                            *buffer,
                            seq![2u8, count] + enc_u32_run(start.ord(), values@.take(i as int)),
                            bytes_u32(start.ord(), v),
                        );
                        assert(values@.take(i as int).push(v) =~= values@.take(i as int + 1));
                        lemma_u32_run_snoc(start.ord(), values@.take(i as int), v);
                        assert(seq![2u8, count] + enc_u32_run(start.ord(), values@.take(i as int))
                            + bytes_u32(start.ord(), v) =~= seq![2u8, count] + enc_u32_run(
                            start.ord(),
                            values@.take(i as int + 1),
                        ));
                    }
                    i = i + 1;
                }
                proof {
                    assert(values@.take(values@.len() as int) =~= values@);
                }
                Ok(())
            },
            ASPathSegment::Unknown(ty) => {
                buffer.write_u8(*ty);
                Err(ErrorType::WriteError.err(
                    "unexpected path segment type: it cannot be re-encoded",
                ))
            },
        }
    }

    /// Reads one AS-path segment; a type byte other than the sequence
    /// type becomes an `Unknown` placeholder.
    pub fn read(buffer: &mut Buffer) -> (r: Result<ASPathSegment, Error>)
        requires
            old(buffer).wf(),
        ensures
            final(buffer).wf(),
            final(buffer).data() == old(buffer).data(),
            final(buffer).ord() == old(buffer).ord(),
            parse_as_path_segment(old(buffer).ord(), old(buffer).rem()) matches Ok(sn) ==> (r
                matches Ok(seg) && seg.deep_view() == sn.0 && final(buffer).pos() == old(
                buffer,
            ).pos() + sn.1),
            parse_as_path_segment(old(buffer).ord(), old(buffer).rem()) matches Err(k) ==> (r
                matches Err(e) && e.kind() == k),
    {
        let ghost bo = old(buffer).ord();
        let ghost s = old(buffer).rem();
        let id = match buffer.read_u8() {
            Ok(v) => v,
            Err(e) => { return Err(e); },
        };
        if id != 2 {
            return Ok(ASPathSegment::Unknown(id));
        }
        let length = match buffer.read_u8() {
            Ok(v) => v,
            Err(e) => { return Err(e); },
        };
        let ghost target = Seq::new(
            length as nat,
            |i: int| val_u32(bo, s.subrange(2 + 4 * i, 6 + 4 * i)),
        );
        if buffer.remaining() < 4 * (length as usize) {
            return Err(ErrorType::ReadError.err(
                "unable to read the requested bytes: the buffer ends before them",
            ));
        }
        let mut values: Vec<u32> = Vec::new();
        let mut i: usize = 0;
        while i < length as usize
            invariant
                i <= length,
                old(buffer).wf(),
                buffer.wf(),
                buffer.data() == old(buffer).data(),
                buffer.ord() == bo,
                bo == old(buffer).ord(),
                s == old(buffer).rem(),
                s.len() >= 2 + 4 * length,
                s[0] == 2,
                s[1] == length,
                buffer.pos() == old(buffer).pos() + 2 + 4 * i,
                target == Seq::new(
                    length as nat,
                    |j: int| val_u32(bo, s.subrange(2 + 4 * j, 6 + 4 * j)),
                ),
                values@ =~= target.take(i as int),
            decreases length - i,
        {
            let ghost pre = *buffer;
            let v = match buffer.read_u32() {
                Ok(v) => v,
                Err(e) => { return Err(e); },
            };
            values.push(v);
            proof {
                assert(pre.rem() =~= s.skip(2 + 4 * i));
                assert(pre.rem().take(4) =~= s.subrange(2 + 4 * i, 6 + 4 * i));
                assert(values@ =~= target.take(i as int).push(v));
                assert(target.take(i as int).push(target[i as int]) =~= target.take(i as int + 1));
            }
            i = i + 1;
        }
        proof {
            assert(target.take(length as int) =~= target);
        }
        Ok(ASPathSegment::ASSequence(values))
    }
}

/// The six-byte layouts of a run of communities, in order, in byte order
/// `bo`.
pub open spec fn enc_community_run(bo: ByteOrder, cs: Seq<Community>) -> Seq<u8>
    decreases cs.len(),
{
    if cs.len() == 0 {
        seq![]
    } else {
        enc_community_ord(bo, cs[0]) + enc_community_run(bo, cs.skip(1))
    }
}

/// Reads communities from `s` until it is exhausted; a length that is not
/// a multiple of six fails on its last, short record.
pub open spec fn parse_community_run(bo: ByteOrder, s: Seq<u8>) -> Result<
    Seq<Community>,
    ErrorType,
>
    decreases s.len(),
{
    if s.len() == 0 {
        Ok(seq![])
    } else {
        match parse_community(bo, s) {
            Err(e) => Err(e),
            Ok((c, n)) => match parse_community_run(bo, s.skip(n)) {
                Err(e) => Err(e),
                Ok(rest) => Ok(seq![c] + rest),
            },
        }
    }
}

/// Encoding a run of communities one longer appends the last one's bytes.
pub proof fn lemma_community_run_snoc(bo: ByteOrder, cs: Seq<Community>, c: Community)
    ensures
        enc_community_run(bo, cs.push(c)) == enc_community_run(bo, cs) + enc_community_ord(bo, c),
    decreases cs.len(),
{
    let tail = cs.push(c).skip(1);
    if cs.len() == 0 {
        assert(cs.push(c)[0] == c);
        assert(tail =~= Seq::<Community>::empty());
        assert(tail.len() == 0);
        assert(enc_community_run(bo, tail) == Seq::<u8>::empty());
        assert(enc_community_run(bo, cs) == Seq::<u8>::empty());
        assert(enc_community_run(bo, cs.push(c)) == enc_community_ord(bo, c)
            + enc_community_run(bo, tail));
        assert(enc_community_ord(bo, c) + Seq::<u8>::empty() =~= Seq::<u8>::empty()
            + enc_community_ord(bo, c));
    } else {
        assert(cs.push(c)[0] == cs[0]);
        assert(tail =~= cs.skip(1).push(c));
        lemma_community_run_snoc(bo, cs.skip(1), c);
        assert(enc_community_ord(bo, cs[0]) + (enc_community_run(bo, cs.skip(1))
            + enc_community_ord(bo, c)) =~= (enc_community_ord(bo, cs[0]) + enc_community_run(
            bo,
            cs.skip(1),
        )) + enc_community_ord(bo, c));
    }
}

/// A community decodes from its own encoding unchanged, whatever follows.
pub proof fn lemma_community_round_trip(bo: ByteOrder, c: Community, rest: Seq<u8>)
    ensures
        enc_community_ord(bo, c).len() == 6,
        parse_community(bo, enc_community_ord(bo, c) + rest) == Ok::<_, ErrorType>((c, 6int)),
{
    let s = enc_community_ord(bo, c) + rest;
    lemma_u32_round_trip(bo, c.spec_as());
    lemma_u16_round_trip(bo, c.spec_value());
    assert(s.take(4) =~= bytes_u32(bo, c.spec_as()));
    assert(s.subrange(4, 6) =~= bytes_u16(bo, c.spec_value()));
}

/// A run of communities decodes from its own encoding to the same run.
pub proof fn lemma_community_run_round_trip(bo: ByteOrder, cs: Seq<Community>)
    ensures
        parse_community_run(bo, enc_community_run(bo, cs)) == Ok::<_, ErrorType>(cs),
    decreases cs.len(),
{
    let b = enc_community_run(bo, cs);
    if cs.len() == 0 {
        assert(cs =~= Seq::<Community>::empty());
    } else {
        let head = enc_community_ord(bo, cs[0]);
        let tail = enc_community_run(bo, cs.skip(1));
        lemma_community_round_trip(bo, cs[0], tail);
        assert(b == head + tail);
        assert(b.len() > 0);
        assert(b.skip(6) =~= tail);
        lemma_community_run_round_trip(bo, cs.skip(1));
        assert(seq![cs[0]] + cs.skip(1) =~= cs);
    }
}

/// The twenty-four-byte layouts of a run of large communities, in order.
pub open spec fn enc_large_community_run(bo: ByteOrder, cs: Seq<LargeCommunity>) -> Seq<u8>
    decreases cs.len(),
{
    if cs.len() == 0 {
        seq![]
    } else {
        enc_large_community_ord(bo, cs[0]) + enc_large_community_run(bo, cs.skip(1))
    }
}

/// Reads large communities from `s` until it is exhausted.
pub open spec fn parse_large_community_run(bo: ByteOrder, s: Seq<u8>) -> Result<
    Seq<LargeCommunity>,
    ErrorType,
>
    decreases s.len(),
{
    if s.len() == 0 {
        Ok(seq![])
    } else {
        match parse_large_community(bo, s) {
            Err(e) => Err(e),
            Ok((c, n)) => match parse_large_community_run(bo, s.skip(n)) {
                Err(e) => Err(e),
                Ok(rest) => Ok(seq![c] + rest),
            },
        }
    }
}

/// Encoding a run of large communities one longer appends the last one's
/// bytes.
#[verifier::rlimit(60)]
pub proof fn lemma_large_community_run_snoc(bo: ByteOrder, cs: Seq<LargeCommunity>, c: LargeCommunity)
    ensures
        enc_large_community_run(bo, cs.push(c)) == enc_large_community_run(bo, cs)
            + enc_large_community_ord(bo, c),
    decreases cs.len(),
{
    let tail = cs.push(c).skip(1);
    if cs.len() == 0 {
        assert(cs.push(c)[0] == c);
        assert(tail =~= Seq::<LargeCommunity>::empty());
        assert(tail.len() == 0);
        assert(enc_large_community_run(bo, tail) == Seq::<u8>::empty());
        assert(enc_large_community_run(bo, cs) == Seq::<u8>::empty());
        assert(enc_large_community_run(bo, cs.push(c)) == enc_large_community_ord(bo, c)
            + enc_large_community_run(bo, tail));
        assert(enc_large_community_ord(bo, c) + Seq::<u8>::empty() =~= Seq::<u8>::empty()
            + enc_large_community_ord(bo, c));
    } else {
        assert(cs.push(c)[0] == cs[0]);
        assert(tail =~= cs.skip(1).push(c));
        lemma_large_community_run_snoc(bo, cs.skip(1), c);
        assert(enc_large_community_ord(bo, cs[0]) + (enc_large_community_run(bo, cs.skip(1))
            + enc_large_community_ord(bo, c)) =~= (enc_large_community_ord(bo, cs[0])
            + enc_large_community_run(bo, cs.skip(1))) + enc_large_community_ord(bo, c));
    }
}

/// A large community decodes from its own encoding unchanged, whatever
/// follows.
pub proof fn lemma_large_community_round_trip(bo: ByteOrder, c: LargeCommunity, rest: Seq<u8>)
    ensures
        enc_large_community_ord(bo, c).len() == 24,
        parse_large_community(bo, enc_large_community_ord(bo, c) + rest) == Ok::<_, ErrorType>(
            (c, 24int),
        ),
{
    let s = enc_large_community_ord(bo, c) + rest;
    lemma_u64_round_trip(bo, c.spec_global());
    lemma_u64_round_trip(bo, c.spec_local_1());
    lemma_u64_round_trip(bo, c.spec_local_2());
    assert(s.take(8) =~= bytes_u64(bo, c.spec_global()));
    assert(s.subrange(8, 16) =~= bytes_u64(bo, c.spec_local_1()));
    assert(s.subrange(16, 24) =~= bytes_u64(bo, c.spec_local_2()));
}

/// A run of large communities decodes from its own encoding to the same
/// run.
#[verifier::rlimit(100)]
#[verifier::spinoff_prover]
pub proof fn lemma_large_community_run_round_trip(bo: ByteOrder, cs: Seq<LargeCommunity>)
    ensures
        parse_large_community_run(bo, enc_large_community_run(bo, cs)) == Ok::<_, ErrorType>(cs),
    decreases cs.len(),
{
    let b = enc_large_community_run(bo, cs);
    if cs.len() == 0 {
        assert(cs =~= Seq::<LargeCommunity>::empty());
    } else {
        let head = enc_large_community_ord(bo, cs[0]);
        let tail = enc_large_community_run(bo, cs.skip(1));
        lemma_large_community_round_trip(bo, cs[0], tail);
        assert(b == head + tail);
        assert(head.len() == 24);
        assert(b.len() > 0);
        assert(parse_large_community_run(bo, b) == (match parse_large_community_run(
            bo,
            b.skip(24),
        ) {
            Err(e) => Err::<Seq<LargeCommunity>, ErrorType>(e),
            Ok(rest) => Ok(seq![cs[0]] + rest),
        }));
        assert(b.skip(24) =~= tail);
        lemma_large_community_run_round_trip(bo, cs.skip(1));
        assert(seq![cs[0]] + cs.skip(1) =~= cs);
    }
}

/// The value a path attribute carries; which variant is on the wire is
/// decided by the attribute's type byte alone.
#[derive(Clone, PartialEq, Eq, Debug, Hash)]
pub enum AttributeValue {
    Origin(Origin),
    ASPath(ASPathSegment),
    NextHop(Vec<u8>),
    Communities(Vec<Community>),
    LargeCommunities(Vec<LargeCommunity>),
    MPReachableNLRI(AFI, SAFI, Vec<u8>, Vec<u8>),
    MPUnreachableNLRI(AFI, SAFI, Vec<u8>),
}

/// The mathematical shape of an attribute value.
#[verifier::ext_equal]
pub enum AttributeValueV {
    Origin(Origin),
    ASPath(ASPathSegmentV),
    NextHop(Seq<u8>),
    Communities(Seq<Community>),
    LargeCommunities(Seq<LargeCommunity>),
    MPReachableNLRI(AFI, SAFI, Seq<u8>, Seq<u8>),
    MPUnreachableNLRI(AFI, SAFI, Seq<u8>),
}

impl DeepView for AttributeValue {
    type V = AttributeValueV;

    open spec fn deep_view(&self) -> AttributeValueV {
        match self {
            AttributeValue::Origin(origin) => AttributeValueV::Origin(*origin),
            AttributeValue::ASPath(segment) => AttributeValueV::ASPath(segment.deep_view()),
            AttributeValue::NextHop(next_hop) => AttributeValueV::NextHop(next_hop@),
            AttributeValue::Communities(communities) => AttributeValueV::Communities(communities@),
            AttributeValue::LargeCommunities(communities) => AttributeValueV::LargeCommunities(
                communities@,
            ),
            AttributeValue::MPReachableNLRI(afi, safi, next_hop, nlri) => AttributeValueV::MPReachableNLRI(
                *afi,
                *safi,
                next_hop@,
                nlri@,
            ),
            AttributeValue::MPUnreachableNLRI(afi, safi, withdrawn) => AttributeValueV::MPUnreachableNLRI(
                *afi,
                *safi,
                withdrawn@,
            ),
        }
    }
}

/// The attribute type a value's variant belongs under; an attribute whose
/// type byte disagrees with its value's shape cannot survive a round
/// trip, since the decoder derives the shape from the type alone.
pub open spec fn value_type(v: AttributeValueV) -> AttributeType {
    match v {
        AttributeValueV::Origin(o) => AttributeType::Origin,
        AttributeValueV::ASPath(seg) => AttributeType::ASPath,
        AttributeValueV::NextHop(data) => AttributeType::NextHop,
        AttributeValueV::Communities(cs) => AttributeType::Community,
        AttributeValueV::LargeCommunities(cs) => AttributeType::LargeCommunity,
        AttributeValueV::MPReachableNLRI(afi, safi, nh, nlri) => AttributeType::MPReachableNLRI,
        AttributeValueV::MPUnreachableNLRI(afi, safi, w) => AttributeType::MPUnreachableNLRI,
    }
}

/// A path attribute: flags, type, and the value the type calls for.
/// Agreement between `ty` and `value` is a construction invariant; the
/// decoder derives the value's shape from the type byte alone.
#[derive(Clone, PartialEq, Eq, Debug, Hash)]
pub struct Attribute {
    ty: AttributeType,
    flags: AttributeFlags,
    value: AttributeValue,
}

/// The mathematical shape of a path attribute.
#[verifier::ext_equal]
pub struct AttributeV {
    pub flags: u8,
    pub ty: AttributeType,
    pub value: AttributeValueV,
}

impl DeepView for Attribute {
    type V = AttributeV;

    closed spec fn deep_view(&self) -> AttributeV {
        AttributeV { flags: self.flags.spec_bits(), ty: self.ty, value: self.value.deep_view() }
    }
}

/// Whether an attribute can survive a round trip as it stands: its flag
/// byte keeps to the defined bits and its type agrees with its value.
pub open spec fn wf_attribute(a: AttributeV) -> bool {
    a.flags & 0x0F == 0 && a.ty == value_type(a.value)
}

/// The wire layout of an attribute's value. The multiprotocol layouts
/// fail for an `Unexpected` address family and for a next hop too long
/// for its one-byte length; the AS-path layout fails as
/// [`enc_as_path_segment`] does.
pub open spec fn enc_attr_value(v: AttributeValueV) -> Result<Seq<u8>, ErrorType> {
    let bo = ByteOrder::BigEndian;
    match v {
        AttributeValueV::Origin(o) => Ok(seq![o.spec_to_u8()]),
        AttributeValueV::ASPath(seg) => enc_as_path_segment(bo, seg),
        AttributeValueV::NextHop(data) => Ok(data),
        AttributeValueV::Communities(cs) => Ok(enc_community_run(bo, cs)),
        AttributeValueV::LargeCommunities(cs) => Ok(enc_large_community_run(bo, cs)),
        AttributeValueV::MPReachableNLRI(afi, safi, next_hop, nlri) => match afi.spec_to_u16() {
            Err(raw) => Err(ErrorType::ReadError),
            Ok(a) => match safi.spec_to_u8() {
                Err(raw) => Err(ErrorType::ReadError),
                Ok(sv) => if next_hop.len() > 255 {
                    Err(ErrorType::WriteError)
                } else {
                    Ok(
                        bytes_u16(bo, a) + seq![sv] + seq![next_hop.len() as u8] + next_hop
                            + seq![0u8] + nlri,
                    )
                },
            },
        },
        AttributeValueV::MPUnreachableNLRI(afi, safi, withdrawn) => match afi.spec_to_u16() {
            Err(raw) => Err(ErrorType::ReadError),
            Ok(a) => match safi.spec_to_u8() {
                Err(raw) => Err(ErrorType::ReadError),
                Ok(sv) => Ok(bytes_u16(bo, a) + seq![sv] + withdrawn),
            },
        },
    }
}

/// The wire layout of a whole attribute: flag byte, type byte, one-byte
/// value length, value. Fails as the value does, or when the value
/// outgrows the one-byte length.
pub open spec fn enc_attribute(a: AttributeV) -> Result<Seq<u8>, ErrorType> {
    match enc_attr_value(a.value) {
        Err(e) => Err(e),
        Ok(vb) => if vb.len() > 255 {
            Err(ErrorType::WriteError)
        } else {
            Ok(seq![a.flags, a.ty.spec_to_u8(), vb.len() as u8] + vb)
        },
    }
}

/// Reads an attribute value of type `ty` from the whole of `body`
/// (integers in byte order `bo`). A type outside the implemented set is
/// a read error; leftover bytes after a value of fixed layout pass
/// through unread.
pub open spec fn parse_attr_value(bo: ByteOrder, ty: AttributeType, body: Seq<u8>) -> Result<
    AttributeValueV,
    ErrorType,
> {
    match ty {
        AttributeType::Origin => if body.len() < 1 {
            Err(ErrorType::ReadError)
        } else {
            match Origin::spec_from_u8(body[0]) {
                Err(k) => Err(k),
                Ok(o) => Ok(AttributeValueV::Origin(o)),
            }
        },
        AttributeType::ASPath => match parse_as_path_segment(bo, body) {
            Err(e) => Err(e),
            Ok((seg, n)) => Ok(AttributeValueV::ASPath(seg)),
        },
        AttributeType::NextHop => Ok(AttributeValueV::NextHop(body)),
        AttributeType::Community => match parse_community_run(bo, body) {
            Err(e) => Err(e),
            Ok(cs) => Ok(AttributeValueV::Communities(cs)),
        },
        AttributeType::LargeCommunity => match parse_large_community_run(bo, body) {
            Err(e) => Err(e),
            Ok(cs) => Ok(AttributeValueV::LargeCommunities(cs)),
        },
        AttributeType::MPReachableNLRI => if body.len() < 4 {
            Err(ErrorType::ReadError)
        } else {
            let afi = AFI::spec_from_u16(val_u16(bo, body.take(2)));
            let safi = SAFI::spec_from_u8(body[2]);
            let nhl = body[3];
            if body.len() < 4 + nhl {
                Err(ErrorType::ReadError)
            } else if body.len() < 5 + nhl {
                Err(ErrorType::ReadError)
            } else {
                Ok(
                    AttributeValueV::MPReachableNLRI(
                        afi,
                        safi,
                        body.subrange(4, 4 + nhl),
                        body.skip(5 + nhl),
                    ),
                )
            }
        },
        AttributeType::MPUnreachableNLRI => if body.len() < 3 {
            Err(ErrorType::ReadError)
        } else {
            Ok(
                AttributeValueV::MPUnreachableNLRI(
                    AFI::spec_from_u16(val_u16(bo, body.take(2))),
                    SAFI::spec_from_u8(body[2]),
                    body.skip(3),
                ),
            )
        },
        _ => Err(ErrorType::ReadError),
    }
}

/// Reads one whole attribute TLV from the front of `s`: flag byte (its
/// low nibble must be clear), type byte (a checked mapping), one-byte
/// value length, then the value parsed per the type.
pub open spec fn parse_attribute(bo: ByteOrder, s: Seq<u8>) -> Result<(AttributeV, int), ErrorType> {
    if s.len() < 1 {
        Err(ErrorType::ReadError)
    } else {
        let flags = s[0];
        if flags & 0x0F != 0 {
            Err(ErrorType::ReadError)
        } else if s.len() < 2 {
            Err(ErrorType::ReadError)
        } else {
            match AttributeType::spec_from_u8(s[1]) {
                Err(k) => Err(k),
                Ok(ty) => if s.len() < 3 {
                    Err(ErrorType::ReadError)
                } else {
                    let alen = s[2];
                    if s.len() < 3 + alen {
                        Err(ErrorType::ReadError)
                    } else {
                        match parse_attr_value(bo, ty, s.subrange(3, 3 + alen)) {
                            Err(e) => Err(e),
                            Ok(v) => Ok((AttributeV { flags, ty, value: v }, 3 + alen as int)),
                        }
                    }
                },
            }
        }
    }
}

/// Reads attributes from `s` until it is exhausted.
pub open spec fn parse_attribute_list(bo: ByteOrder, s: Seq<u8>) -> Result<Seq<AttributeV>, ErrorType>
    decreases s.len(),
{
    if s.len() == 0 {
        Ok(seq![])
    } else {
        match parse_attribute(bo, s) {
            Err(e) => Err(e),
            Ok((a, n)) => match parse_attribute_list(bo, s.skip(n)) {
                Err(e) => Err(e),
                Ok(rest) => Ok(seq![a] + rest),
            },
        }
    }
}

/// The wire layout of a run of attributes, stopping at the first that
/// cannot be encoded.
pub open spec fn enc_attribute_list(attrs: Seq<AttributeV>) -> Result<Seq<u8>, ErrorType>
    decreases attrs.len(),
{
    if attrs.len() == 0 {
        Ok(seq![])
    } else {
        match enc_attribute(attrs[0]) {
            Err(e) => Err(e),
            Ok(head) => match enc_attribute_list(attrs.skip(1)) {
                Err(e) => Err(e),
                Ok(tail) => Ok(head + tail),
            },
        }
    }
}

/// A well-formed, encodable attribute decodes from its own encoding
/// unchanged and consumes exactly its bytes, whatever follows it.
pub proof fn lemma_attribute_round_trip(a: AttributeV, rest: Seq<u8>)
    requires
        wf_attribute(a),
        enc_attribute(a) matches Ok(b),
    ensures
        enc_attribute(a) matches Ok(b) ==> parse_attribute(ByteOrder::BigEndian, b + rest)
            == Ok::<_, ErrorType>((a, b.len() as int)),
{
    let bo = ByteOrder::BigEndian;
    let b = enc_attribute(a)->Ok_0;
    let vb = enc_attr_value(a.value)->Ok_0;
    let s = b + rest;
    assert(s[0] == a.flags);
    assert(s[1] == a.ty.spec_to_u8());
    assert(s[2] == vb.len() as u8);
    assert(AttributeType::spec_from_u8(a.ty.spec_to_u8()) == Ok::<_, ErrorType>(a.ty));
    let body = s.subrange(3, 3 + vb.len() as u8);
    assert(body =~= vb);
    match a.value {
        AttributeValueV::Origin(o) => {
            assert(Origin::spec_from_u8(o.spec_to_u8()) == Ok::<_, ErrorType>(o));
        },
        AttributeValueV::ASPath(seg) => {
            lemma_as_path_segment_round_trip(bo, seg, Seq::<u8>::empty());
            assert(enc_as_path_segment(bo, seg)->Ok_0 + Seq::<u8>::empty() =~= vb);
        },
        AttributeValueV::NextHop(data) => {},
        AttributeValueV::Communities(cs) => {
            lemma_community_run_round_trip(bo, cs);
        },
        AttributeValueV::LargeCommunities(cs) => {
            lemma_large_community_run_round_trip(bo, cs);
        },
        AttributeValueV::MPReachableNLRI(afi, safi, next_hop, nlri) => {
            let av = afi.spec_to_u16()->Ok_0;
            let sv = safi.spec_to_u8()->Ok_0;
            lemma_u16_round_trip(bo, av);
            assert(vb.take(2) =~= bytes_u16(bo, av));
            assert(AFI::spec_from_u16(av) == afi);
            assert(vb[2] == sv);
            assert(SAFI::spec_from_u8(sv) == safi);
            assert(vb[3] == next_hop.len() as u8);
            assert(vb.subrange(4, 4 + next_hop.len() as int) =~= next_hop);
            assert(vb[4 + next_hop.len() as int] == 0u8);
            assert(vb.skip(5 + next_hop.len() as int) =~= nlri);
        },
        AttributeValueV::MPUnreachableNLRI(afi, safi, withdrawn) => {
            let av = afi.spec_to_u16()->Ok_0;
            let sv = safi.spec_to_u8()->Ok_0;
            lemma_u16_round_trip(bo, av);
            assert(vb.take(2) =~= bytes_u16(bo, av));
            assert(AFI::spec_from_u16(av) == afi);
            assert(vb[2] == sv);
            assert(SAFI::spec_from_u8(sv) == safi);
            assert(vb.skip(3) =~= withdrawn);
        },
    }
}

/// A run of well-formed, encodable attributes decodes from its own
/// encoding to the same run.
pub proof fn lemma_attribute_list_round_trip(attrs: Seq<AttributeV>)
    requires
        forall|i: int| 0 <= i < attrs.len() ==> wf_attribute(#[trigger] attrs[i]),
        enc_attribute_list(attrs) matches Ok(b),
    ensures
        enc_attribute_list(attrs) matches Ok(b) ==> parse_attribute_list(ByteOrder::BigEndian, b)
            == Ok::<_, ErrorType>(attrs),
    decreases attrs.len(),
{
    let bo = ByteOrder::BigEndian;
    let b = enc_attribute_list(attrs)->Ok_0;
    if attrs.len() == 0 {
        assert(attrs =~= Seq::<AttributeV>::empty());
    } else {
        let head = enc_attribute(attrs[0])->Ok_0;
        let tail = enc_attribute_list(attrs.skip(1))->Ok_0;
        lemma_attribute_round_trip(attrs[0], tail);
        assert(b == head + tail);
        assert(head.len() >= 3);
        assert(b.len() > 0);
        assert(parse_attribute(bo, b) == Ok::<_, ErrorType>((attrs[0], head.len() as int)));
        assert(b.skip(head.len() as int) =~= tail);
        lemma_attribute_list_round_trip(attrs.skip(1));
        assert(seq![attrs[0]] + attrs.skip(1) =~= attrs);
    }
}

impl Attribute {
    /// An attribute from its parts. Keeping `ty` in agreement with the
    /// value's variant is the constructor caller's concern: the decoder
    /// derives the shape from the type byte alone, so a mismatched pair
    /// encodes under the wrong type and cannot survive a round trip.
    pub fn new(ty: AttributeType, flags: AttributeFlags, value: AttributeValue) -> (r: Attribute)
        ensures
            r.deep_view() == (AttributeV {
                flags: flags.spec_bits(),
                ty,
                value: value.deep_view(),
            }),
    {
        Attribute { ty, flags, value }
    }

    /// Writes the attribute TLV: flag byte, type byte, value length,
    /// value. Fails, leaving the buffer well-formed but possibly holding
    /// a partial TLV, when the value has no wire form (see
    /// [`enc_attribute`]).
    pub fn write(&self, buffer: &mut Buffer) -> (r: Result<(), Error>)
        requires
            old(buffer).wf(),
        ensures
            enc_attribute(self.deep_view()) matches Ok(b) ==> (r matches Ok(u) && wrote(
                *old(buffer),
                *final(buffer),
                b,
            )),
            enc_attribute(self.deep_view()) matches Err(k) ==> (r matches Err(e) && e.kind() == k
                && final(buffer).wf() && final(buffer).ord() == old(buffer).ord()),
    {
        let ghost start = *buffer;
        let ghost header2 = seq![self.flags.spec_bits()] + seq![self.ty.spec_to_u8()];
        buffer.write_u8(self.flags.bits());
        let ghost mid1 = *buffer;
        buffer.write_u8(self.ty.to_u8());
        proof {
            lemma_wrote_trans(
                start,
                mid1,
                *buffer,
                seq![self.flags.spec_bits()],
                seq![self.ty.spec_to_u8()],
            );
        }
        let mut temp = Buffer::empty(ByteOrder::BigEndian);
        let ghost temp0 = temp;
        match &self.value {
            AttributeValue::Origin(origin) => {
                temp.write_u8(origin.to_u8());
                proof {
                    lemma_wrote_at_end(temp0, temp, seq![origin.spec_to_u8()]);
                }
            },
            AttributeValue::ASPath(path) => {
                match path.write(&mut temp) {
                    Ok(u) => {},
                    Err(e) => {
                        return Err(e);
                    },
                }
                proof {
                    lemma_wrote_at_end(
                        temp0,
                        temp,
                        enc_as_path_segment(ByteOrder::BigEndian, path.deep_view())->Ok_0,
                    );
                }
            },
            AttributeValue::NextHop(next_hop) => {
                temp.write_bytes_vector(next_hop);
                proof {
                    lemma_wrote_at_end(temp0, temp, next_hop@);
                }
            },
            AttributeValue::Communities(communities) => {
                let mut i: usize = 0;
                while i < communities.len()
                    invariant
                        i <= communities@.len(),
                        start == *old(buffer),
                        start.wf(),
                        wrote(start, *buffer, header2),
                        header2 == seq![self.flags.spec_bits()] + seq![self.ty.spec_to_u8()],
                        self.value matches AttributeValue::Communities(cv) && cv@ == communities@,
                        temp.wf(),
                        temp.ord() == ByteOrder::BigEndian,
                        temp.pos() == temp.data().len(),
                        temp.data() == enc_community_run(
                            ByteOrder::BigEndian,
                            communities@.take(i as int),
                        ),
                    decreases communities@.len() - i,
                {
                    let ghost temp_pre = temp;
                    match communities[i].write(&mut temp) {
                        Ok(u) => {},
                        Err(e) => {
                            return Err(e);
                        },
                    }
                    proof {
                        lemma_wrote_at_end(
                            temp_pre,
                            temp,
                            enc_community_ord(ByteOrder::BigEndian, communities@[i as int]),
                        );
                        lemma_community_run_snoc(
                            ByteOrder::BigEndian,
                            communities@.take(i as int),
                            communities@[i as int],
                        );
                        assert(communities@.take(i as int).push(communities@[i as int])
                            =~= communities@.take(i as int + 1));
                    }
                    i = i + 1;
                }
                proof {
                    assert(communities@.take(communities@.len() as int) =~= communities@);
                }
            },
            AttributeValue::LargeCommunities(communities) => {
                let mut i: usize = 0;
                while i < communities.len()
                    invariant
                        i <= communities@.len(),
                        start == *old(buffer),
                        start.wf(),
                        wrote(start, *buffer, header2),
                        header2 == seq![self.flags.spec_bits()] + seq![self.ty.spec_to_u8()],
                        self.value matches AttributeValue::LargeCommunities(cv) && cv@
                            == communities@,
                        temp.wf(),
                        temp.ord() == ByteOrder::BigEndian,
                        temp.pos() == temp.data().len(),
                        temp.data() == enc_large_community_run(
                            ByteOrder::BigEndian,
                            communities@.take(i as int),
                        ),
                    decreases communities@.len() - i,
                {
                    let ghost temp_pre = temp;
                    match communities[i].write(&mut temp) {
                        Ok(u) => {},
                        Err(e) => {
                            return Err(e);
                        },
                    }
                    proof {
                        lemma_wrote_at_end(
                            temp_pre,
                            temp,
                            enc_large_community_ord(ByteOrder::BigEndian, communities@[i as int]),
                        );
                        lemma_large_community_run_snoc(
                            ByteOrder::BigEndian,
                            communities@.take(i as int),
                            communities@[i as int],
                        );
                        assert(communities@.take(i as int).push(communities@[i as int])
                            =~= communities@.take(i as int + 1));
                    }
                    i = i + 1;
                }
                proof {
                    assert(communities@.take(communities@.len() as int) =~= communities@);
                }
            },
            AttributeValue::MPReachableNLRI(afi, safi, next_hop, nlri) => {
                let afi_code = match afi.to_u16() {
                    Ok(v) => v,
                    Err(raw) => {
                        return Err(ErrorType::ReadError.err(
                            "unexpected address family: it has no wire value to emit",
                        ));
                    },
                };
                let safi_code = match safi.to_u8() {
                    Ok(v) => v,
                    Err(raw) => {
                        return Err(ErrorType::ReadError.err(
                            "unexpected subsequent address family: it has no wire value to emit",
                        ));
                    },
                };
                if next_hop.len() > 255 {
                    return Err(ErrorType::WriteError.err(
                        "unexpected next hop: longer than the one-byte length allows",
                    ));
                }
                let nh_len = next_hop.len() as u8;
                temp.write_u16(afi_code);
                let ghost t1 = temp;
                temp.write_u8(safi_code);
                let ghost t2 = temp;
                temp.write_u8(nh_len);
                let ghost t3 = temp;
                temp.write_bytes_vector(next_hop);
                let ghost t4 = temp;
                temp.write_u8(0);
                let ghost t5 = temp;
                temp.write_bytes_vector(nlri);
                proof {
                    let be = ByteOrder::BigEndian;
                    lemma_wrote_trans(temp0, t1, t2, bytes_u16(be, afi_code), seq![safi_code]);
                    lemma_wrote_trans(
                        temp0,
                        t2,
                        t3,
                        bytes_u16(be, afi_code) + seq![safi_code],
                        seq![nh_len],
                    );
                    lemma_wrote_trans(
                        temp0,
                        t3,
                        t4,
                        bytes_u16(be, afi_code) + seq![safi_code] + seq![nh_len],
                        next_hop@,
                    );
                    lemma_wrote_trans(
                        temp0,
                        t4,
                        t5,
                        bytes_u16(be, afi_code) + seq![safi_code] + seq![nh_len] + next_hop@,
                        seq![0u8],
                    );
                    lemma_wrote_trans(
                        temp0,
                        t5,
                        temp,
                        bytes_u16(be, afi_code) + seq![safi_code] + seq![nh_len] + next_hop@
                            + seq![0u8],
                        nlri@,
                    );
                    lemma_wrote_at_end(
                        temp0,
                        temp,
                        bytes_u16(be, afi_code) + seq![safi_code] + seq![nh_len] + next_hop@
                            + seq![0u8] + nlri@,
                    );
                    assert(temp.data() =~= enc_attr_value(self.value.deep_view())->Ok_0);
                }
            },
            AttributeValue::MPUnreachableNLRI(afi, safi, withdrawn) => {
                let afi_code = match afi.to_u16() {
                    Ok(v) => v,
                    Err(raw) => {
                        return Err(ErrorType::ReadError.err(
                            "unexpected address family: it has no wire value to emit",
                        ));
                    },
                };
                let safi_code = match safi.to_u8() {
                    Ok(v) => v,
                    Err(raw) => {
                        return Err(ErrorType::ReadError.err(
                            "unexpected subsequent address family: it has no wire value to emit",
                        ));
                    },
                };
                temp.write_u16(afi_code);
                let ghost t1 = temp;
                temp.write_u8(safi_code);
                let ghost t2 = temp;
                temp.write_bytes_vector(withdrawn);
                proof {
                    let be = ByteOrder::BigEndian;
                    lemma_wrote_trans(temp0, t1, t2, bytes_u16(be, afi_code), seq![safi_code]);
                    lemma_wrote_trans(
                        temp0,
                        t2,
                        temp,
                        bytes_u16(be, afi_code) + seq![safi_code],
                        withdrawn@,
                    );
                    lemma_wrote_at_end(
                        temp0,
                        temp,
                        bytes_u16(be, afi_code) + seq![safi_code] + withdrawn@,
                    );
                }
            },
        }
        if temp.len() > 255 {
            return Err(ErrorType::WriteError.err(
                "unexpected attribute value: longer than the one-byte length allows",
            ));
        }
        let value_len = temp.len() as u8;
        let ghost mid2 = *buffer;
        buffer.write_u8(value_len);
        let ghost mid3 = *buffer;
        let result = temp.write_buffer(buffer);
        proof {
            lemma_wrote_trans(start, mid2, mid3, header2, seq![value_len]);
            lemma_wrote_trans(start, mid3, *buffer, header2 + seq![value_len], temp.data());
            assert(header2 + seq![value_len] + temp.data() =~= seq![
                self.flags.spec_bits(),
                self.ty.spec_to_u8(),
                value_len,
            ] + temp.data());
        }
        result
    }

    /// Reads one whole attribute TLV, deriving the value's shape from the
    /// type byte.
    #[verifier::rlimit(100)]
    #[verifier::spinoff_prover]
    pub fn read(buffer: &mut Buffer) -> (r: Result<Attribute, Error>)
        requires
            old(buffer).wf(),
        ensures
            final(buffer).wf(),
            final(buffer).data() == old(buffer).data(),
            final(buffer).ord() == old(buffer).ord(),
            parse_attribute(old(buffer).ord(), old(buffer).rem()) matches Ok(an) ==> (r matches Ok(
                a,
            ) && a.deep_view() == an.0 && final(buffer).pos() == old(buffer).pos() + an.1),
            parse_attribute(old(buffer).ord(), old(buffer).rem()) matches Err(k) ==> (r matches Err(
                e,
            ) && e.kind() == k),
    {
        let ghost bo = old(buffer).ord();
        let ghost s = old(buffer).rem();
        let flags_byte = match buffer.read_u8() {
            Ok(v) => v,
            Err(e) => { return Err(e); },
        };
        let flags = match AttributeFlags::from_bits(flags_byte) {
            Some(f) => f,
            None => {
                return Err(ErrorType::ReadError.err(
                    "unexpected attribute flags: a bit outside the defined four is set",
                ));
            },
        };
        let ty_byte = match buffer.read_u8() {
            Ok(v) => v,
            Err(e) => { return Err(e); },
        };
        let ty = match AttributeType::from(ty_byte) {
            Ok(t) => t,
            Err(e) => { return Err(e); },
        };
        let length = match buffer.read_u8() {
            Ok(v) => v,
            Err(e) => { return Err(e); },
        };
        let mut body = match Buffer::read_buffer(buffer, length as usize) {
            Ok(b) => b,
            Err(e) => { return Err(e); },
        };
        let ghost full = body.data();
        proof {
            assert(s.skip(3).take(length as int) =~= s.subrange(3, 3 + length as int));
            assert(full =~= s.subrange(3, 3 + length as int));
        }
        let value = match ty {
            AttributeType::Origin => {
                let b = match body.read_u8() {
                    Ok(v) => v,
                    Err(e) => { return Err(e); },
                };
                match Origin::from(b) {
                    Ok(o) => AttributeValue::Origin(o),
                    Err(e) => { return Err(e); },
                }
            },
            AttributeType::ASPath => {
                match ASPathSegment::read(&mut body) {
                    Ok(seg) => AttributeValue::ASPath(seg),
                    Err(e) => { return Err(e); },
                }
            },
            AttributeType::NextHop => AttributeValue::NextHop(body.into_bytes()),
            AttributeType::Community => {
                let mut communities: Vec<Community> = Vec::new();
                proof {
                    assert(body.rem() =~= full);
                    match parse_community_run(bo, full) {
                        Ok(rest) => { assert(communities@ + rest =~= rest); },
                        Err(e) => {},
                    }
                }
                while body.remaining() > 0
                    invariant
                        old(buffer).wf(),
                        body.wf(),
                        body.ord() == bo,
                        bo == old(buffer).ord(),
                        buffer.wf(),
                        buffer.data() == old(buffer).data(),
                        buffer.ord() == bo,
                        buffer.pos() == old(buffer).pos() + 3 + length as int,
                        s == old(buffer).rem(),
                        s.len() >= 3 + length as int,
                        s[0] == flags_byte,
                        flags_byte & 0x0F == 0,
                        flags.spec_bits() == flags_byte,
                        s[1] == ty_byte,
                        AttributeType::spec_from_u8(ty_byte) == Ok::<_, ErrorType>(ty),
                        ty == AttributeType::Community,
                        s[2] == length,
                        full == s.subrange(3, 3 + length as int),
                        parse_community_run(bo, full) == (match parse_community_run(
                            bo,
                            body.rem(),
                        ) {
                            Err(e) => Err::<Seq<Community>, ErrorType>(e),
                            Ok(rest) => Ok(communities@ + rest),
                        }),
                    decreases body.rem().len(),
                {
                    let ghost pre_rem = body.rem();
                    let ghost pre = communities@;
                    let c = match Community::read(&mut body) {
                        Ok(c) => c,
                        Err(e) => { return Err(e); },
                    };
                    communities.push(c);
                    proof {
                        let n = parse_community(bo, pre_rem)->Ok_0.1;
                        assert(body.rem() =~= pre_rem.skip(n));
                        match parse_community_run(bo, pre_rem.skip(n)) {
                            Ok(rest2) => {
                                assert(pre + (seq![c] + rest2) =~= pre.push(c) + rest2);
                            },
                            Err(e2) => {},
                        }
                    }
                }
                proof {
                    assert(body.rem().len() == 0);
                    assert(communities@ + Seq::<Community>::empty() =~= communities@);
                }
                AttributeValue::Communities(communities)
            },
            AttributeType::LargeCommunity => {
                let mut communities: Vec<LargeCommunity> = Vec::new();
                proof {
                    assert(body.rem() =~= full);
                    match parse_large_community_run(bo, full) {
                        Ok(rest) => { assert(communities@ + rest =~= rest); },
                        Err(e) => {},
                    }
                }
                while body.remaining() > 0
                    invariant
                        old(buffer).wf(),
                        body.wf(),
                        body.ord() == bo,
                        bo == old(buffer).ord(),
                        buffer.wf(),
                        buffer.data() == old(buffer).data(),
                        buffer.ord() == bo,
                        buffer.pos() == old(buffer).pos() + 3 + length as int,
                        s == old(buffer).rem(),
                        s.len() >= 3 + length as int,
                        s[0] == flags_byte,
                        flags_byte & 0x0F == 0,
                        flags.spec_bits() == flags_byte,
                        s[1] == ty_byte,
                        AttributeType::spec_from_u8(ty_byte) == Ok::<_, ErrorType>(ty),
                        ty == AttributeType::LargeCommunity,
                        s[2] == length,
                        full == s.subrange(3, 3 + length as int),
                        parse_large_community_run(bo, full) == (match parse_large_community_run(
                            bo,
                            body.rem(),
                        ) {
                            Err(e) => Err::<Seq<LargeCommunity>, ErrorType>(e),
                            Ok(rest) => Ok(communities@ + rest),
                        }),
                    decreases body.rem().len(),
                {
                    let ghost pre_rem = body.rem();
                    let ghost pre = communities@;
                    let c = match LargeCommunity::read(&mut body) {
                        Ok(c) => c,
                        Err(e) => { return Err(e); },
                    };
                    communities.push(c);
                    proof {
                        let n = parse_large_community(bo, pre_rem)->Ok_0.1;
                        assert(body.rem() =~= pre_rem.skip(n));
                        match parse_large_community_run(bo, pre_rem.skip(n)) {
                            Ok(rest2) => {
                                assert(pre + (seq![c] + rest2) =~= pre.push(c) + rest2);
                            },
                            Err(e2) => {},
                        }
                    }
                }
                proof {
                    assert(body.rem().len() == 0);
                    assert(communities@ + Seq::<LargeCommunity>::empty() =~= communities@);
                }
                AttributeValue::LargeCommunities(communities)
            },
            AttributeType::MPReachableNLRI => {
                let afi_raw = match body.read_u16() {
                    Ok(v) => v,
                    Err(e) => { return Err(e); },
                };
                let safi_raw = match body.read_u8() {
                    Ok(v) => v,
                    Err(e) => { return Err(e); },
                };
                let nh_len = match body.read_u8() {
                    Ok(v) => v,
                    Err(e) => { return Err(e); },
                };
                let next_hop = match body.read_bytes_vector(nh_len as usize) {
                    Ok(v) => v,
                    Err(e) => { return Err(e); },
                };
                let _reserved = match body.read_u8() {
                    Ok(v) => v,
                    Err(e) => { return Err(e); },
                };
                proof {
                    assert(full.skip(2)[0] == full[2]);
                    assert(full.skip(3)[0] == full[3]);
                    assert(full.skip(4).take(nh_len as int) =~= full.subrange(4, 4 + nh_len as int));
                    assert(body.rem() =~= full.skip(5 + nh_len as int));
                }
                let trailer = body.remaining();
                let nlri = match body.read_bytes_vector(trailer) {
                    Ok(v) => v,
                    Err(e) => { return Err(e); },
                };
                proof {
                    assert(full.skip(5 + nh_len as int).take(
                        full.len() - (5 + nh_len as int),
                    ) =~= full.skip(5 + nh_len as int));
                }
                AttributeValue::MPReachableNLRI(
                    AFI::from_u16(afi_raw),
                    SAFI::from_u8(safi_raw),
                    next_hop,
                    nlri,
                )
            },
            AttributeType::MPUnreachableNLRI => {
                let afi_raw = match body.read_u16() {
                    Ok(v) => v,
                    Err(e) => { return Err(e); },
                };
                let safi_raw = match body.read_u8() {
                    Ok(v) => v,
                    Err(e) => { return Err(e); },
                };
                proof {
                    assert(full.skip(2)[0] == full[2]);
                    assert(body.rem() =~= full.skip(3));
                }
                let trailer = body.remaining();
                let withdrawn = match body.read_bytes_vector(trailer) {
                    Ok(v) => v,
                    Err(e) => { return Err(e); },
                };
                proof {
                    assert(full.skip(3).take(full.len() - 3) =~= full.skip(3));
                }
                AttributeValue::MPUnreachableNLRI(
                    AFI::from_u16(afi_raw),
                    SAFI::from_u8(safi_raw),
                    withdrawn,
                )
            },
            _ => {
                return Err(ErrorType::ReadError.err(
                    "unexpected attribute type: not in the implemented set",
                ));
            },
        };
        Ok(Attribute { flags, ty, value })
    }
}

} // verus!
