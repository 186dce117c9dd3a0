//! The Open message's optional parameters: the capability-negotiation TLVs
//! a router announces its abilities with. An unrecognized capability keeps
//! its raw payload so it can be re-encoded byte for byte.

use vstd::prelude::*;
use crate::bgp_error::{BGPError, ErrorCode, OpenMessageError};
use crate::error::{Error, ErrorType};
use crate::io::{bytes_u16, bytes_u64, val_u16, val_u64, wrote, Buffer, ByteOrder};
use crate::io::{lemma_wrote_at_end, lemma_wrote_trans};

verus! {

/// The Address Family Indicator of the multiprotocol extensions: which
/// network-layer protocol a route belongs to. An unassigned wire value is
/// kept in `Unexpected` so it can at least be inspected.
#[derive(Clone, Copy, PartialEq, Eq, Structural, Debug, Hash)]
pub enum AFI {
    IPv4,
    IPv6,
    Unexpected(u16),
}

impl AFI {
    /// The address family a wire value stands for.
    pub open spec fn spec_from_u16(value: u16) -> AFI {
        match value {
            1u16 => AFI::IPv4,
            2u16 => AFI::IPv6,
            _ => AFI::Unexpected(value),
        }
    }

    /// The wire value of this address family, or the raw value of an
    /// `Unexpected` one, which has no wire value of its own.
    pub open spec fn spec_to_u16(self) -> Result<u16, u16> {
        match self {
            AFI::IPv4 => Ok(1),
            AFI::IPv6 => Ok(2),
            AFI::Unexpected(value) => Err(value),
        }
    }

    #[verifier::when_used_as_spec(spec_from_u16)]
    pub fn from_u16(value: u16) -> (r: AFI)
        ensures
            r == AFI::spec_from_u16(value),
    {
        match value {
            1 => AFI::IPv4,
            2 => AFI::IPv6,
            _ => AFI::Unexpected(value),
        }
    }

    #[verifier::when_used_as_spec(spec_to_u16)]
    pub fn to_u16(self) -> (r: Result<u16, u16>)
        ensures
            r == self.spec_to_u16(),
    {
        match self {
            AFI::IPv4 => Ok(1),
            AFI::IPv6 => Ok(2),
            AFI::Unexpected(value) => Err(value),
        }
    }
}

/// The Subsequent Address Family Indicator of the multiprotocol
/// extensions: the sub-category of routes within an address family.
#[derive(Clone, Copy, PartialEq, Eq, Structural, Debug, Hash)]
pub enum SAFI {
    Unicast,
    Multicast,
    LabeledUnicast,
    NgMvpn,
    Mdt,
    Vpn,
    VpnMulticast,
    RouteTargetConstrain,
    FlowSpec,
    Unexpected(u8),
}

impl SAFI {
    /// The sub-family a wire value stands for.
    pub open spec fn spec_from_u8(value: u8) -> SAFI {
        match value {
            1u8 => SAFI::Unicast,
            2u8 => SAFI::Multicast,
            4u8 => SAFI::LabeledUnicast,
            5u8 => SAFI::NgMvpn,
            66u8 => SAFI::Mdt,
            128u8 => SAFI::Vpn,
            129u8 => SAFI::VpnMulticast,
            132u8 => SAFI::RouteTargetConstrain,
            133u8 => SAFI::FlowSpec,
            _ => SAFI::Unexpected(value),
        }
    }

    /// The wire value of this sub-family, or the raw value of an
    /// `Unexpected` one.
    pub open spec fn spec_to_u8(self) -> Result<u8, u8> {
        match self {
            SAFI::Unicast => Ok(1),
            SAFI::Multicast => Ok(2),
            SAFI::LabeledUnicast => Ok(4),
            SAFI::NgMvpn => Ok(5),
            SAFI::Mdt => Ok(66),
            SAFI::Vpn => Ok(128),
            SAFI::VpnMulticast => Ok(129),
            SAFI::RouteTargetConstrain => Ok(132),
            SAFI::FlowSpec => Ok(133),
            SAFI::Unexpected(value) => Err(value),
        }
    }

    #[verifier::when_used_as_spec(spec_from_u8)]
    pub fn from_u8(value: u8) -> (r: SAFI)
        ensures
            r == SAFI::spec_from_u8(value),
    {
        match value {
            1 => SAFI::Unicast,
            2 => SAFI::Multicast,
            4 => SAFI::LabeledUnicast,
            5 => SAFI::NgMvpn,
            66 => SAFI::Mdt,
            128 => SAFI::Vpn,
            129 => SAFI::VpnMulticast,
            132 => SAFI::RouteTargetConstrain,
            133 => SAFI::FlowSpec,
            _ => SAFI::Unexpected(value),
        }
    }

    #[verifier::when_used_as_spec(spec_to_u8)]
    pub fn to_u8(self) -> (r: Result<u8, u8>)
        ensures
            r == self.spec_to_u8(),
    {
        match self {
            SAFI::Unicast => Ok(1),
            SAFI::Multicast => Ok(2),
            SAFI::LabeledUnicast => Ok(4),
            SAFI::NgMvpn => Ok(5),
            SAFI::Mdt => Ok(66),
            SAFI::Vpn => Ok(128),
            SAFI::VpnMulticast => Ok(129),
            SAFI::RouteTargetConstrain => Ok(132),
            SAFI::FlowSpec => Ok(133),
            SAFI::Unexpected(value) => Err(value),
        }
    }
}

/// A capability announced in an Open message's optional parameters.
/// Recognized ids decode to their own variants; any other id decodes to
/// `Unknown` with its payload kept verbatim.
#[derive(Clone, PartialEq, Eq, Debug, Hash)]
pub enum Capability {
    RouteRefresh,
    FourOctetASNumberSupport(u64),
    EnhancedRouteRefresh,
    LongLivedGracefulRestart,
    MultiProtocolExtensions(AFI, SAFI),
    Unknown(u8, Vec<u8>),
}

/// The mathematical shape of a capability.
#[verifier::ext_equal]
pub enum CapabilityV {
    RouteRefresh,
    FourOctetASNumberSupport(u64),
    EnhancedRouteRefresh,
    LongLivedGracefulRestart,
    MultiProtocolExtensions(AFI, SAFI),
    Unknown(u8, Seq<u8>),
}

impl DeepView for Capability {
    type V = CapabilityV;

    open spec fn deep_view(&self) -> CapabilityV {
        match self {
            Capability::RouteRefresh => CapabilityV::RouteRefresh,
            Capability::FourOctetASNumberSupport(asn) => CapabilityV::FourOctetASNumberSupport(
                *asn,
            ),
            Capability::EnhancedRouteRefresh => CapabilityV::EnhancedRouteRefresh,
            Capability::LongLivedGracefulRestart => CapabilityV::LongLivedGracefulRestart,
            Capability::MultiProtocolExtensions(afi, safi) => CapabilityV::MultiProtocolExtensions(
                *afi,
                *safi,
            ),
            Capability::Unknown(id, data) => CapabilityV::Unknown(*id, data@),
        }
    }
}

/// Whether a wire id belongs to a recognized capability: an `Unknown` that
/// shadows one of these could not be told apart from it after a round trip.
pub open spec fn known_cap_id(id: u8) -> bool {
    id == 1 || id == 2 || id == 65 || id == 70 || id == 71
}

/// The recognized wire id of a capability, `None` for an `Unknown`.
pub open spec fn cap_known_id(c: CapabilityV) -> Option<u8> {
    match c {
        CapabilityV::MultiProtocolExtensions(afi, safi) => Some(1),
        CapabilityV::RouteRefresh => Some(2),
        CapabilityV::FourOctetASNumberSupport(asn) => Some(65),
        CapabilityV::EnhancedRouteRefresh => Some(70),
        CapabilityV::LongLivedGracefulRestart => Some(71),
        CapabilityV::Unknown(id, data) => None,
    }
}

/// The error kind for a capability that cannot be re-encoded.
pub open spec fn unsupported_param_err() -> ErrorType {
    ErrorType::BGPError(
        BGPError::spec_new(
            ErrorCode::OpenMessage,
            OpenMessageError::UnsupportedOptionalParameter.spec_to_u8(),
        ),
    )
}

/// The wire layout of a capability: id, value length, value. Fails for an
/// `Unknown` whose id shadows a recognized capability, for a payload too
/// long for the one-byte length, and for an `Unexpected` address family,
/// which has no wire value to emit.
pub open spec fn enc_capability(c: CapabilityV) -> Result<Seq<u8>, ErrorType> {
    match c {
        CapabilityV::RouteRefresh => Ok(seq![2u8, 0u8]),
        CapabilityV::EnhancedRouteRefresh => Ok(seq![70u8, 0u8]),
        CapabilityV::LongLivedGracefulRestart => Ok(seq![71u8, 0u8]),
        CapabilityV::FourOctetASNumberSupport(asn) => Ok(
            seq![65u8, 8u8] + bytes_u64(ByteOrder::BigEndian, asn),
        ),
        CapabilityV::MultiProtocolExtensions(afi, safi) => match afi.spec_to_u16() {
            Err(v) => Err(ErrorType::ReadError),
            Ok(a) => match safi.spec_to_u8() {
                Err(v) => Err(ErrorType::ReadError),
                Ok(sv) => Ok(
                    seq![1u8, 4u8] + bytes_u16(ByteOrder::BigEndian, a) + seq![0u8, sv],
                ),
            },
        },
        CapabilityV::Unknown(id, data) => if known_cap_id(id) {
            Err(unsupported_param_err())
        } else if data.len() > 255 {
            Err(ErrorType::WriteError)
        } else {
            Ok(seq![id, data.len() as u8] + data)
        },
    }
}

/// Reads one capability TLV from the front of `s` (integers in byte order
/// `bo`): id, value length, then the value parsed per the id's registry
/// entry; an unrecognized id keeps its whole value verbatim.
pub open spec fn parse_capability(bo: ByteOrder, s: Seq<u8>) -> Result<
    (CapabilityV, int),
    ErrorType,
> {
    if s.len() < 2 {
        Err(ErrorType::ReadError)
    } else {
        let id = s[0];
        let clen = s[1];
        if s.len() < 2 + clen {
            Err(ErrorType::ReadError)
        } else {
            let body = s.subrange(2, 2 + clen);
            let n = 2 + clen as int;
            if id == 1 {
                if body.len() < 4 {
                    Err(ErrorType::ReadError)
                } else {
                    Ok(
                        (
                            CapabilityV::MultiProtocolExtensions(
                                AFI::spec_from_u16(val_u16(bo, body.take(2))),
                                SAFI::spec_from_u8(body[3]),
                            ),
                            n,
                        ),
                    )
                }
            } else if id == 2 {
                Ok((CapabilityV::RouteRefresh, n))
            } else if id == 65 {
                if body.len() < 8 {
                    Err(ErrorType::ReadError)
                } else {
                    Ok(
                        (
                            CapabilityV::FourOctetASNumberSupport(val_u64(bo, body.take(8))),
                            n,
                        ),
                    )
                }
            } else if id == 70 {
                Ok((CapabilityV::EnhancedRouteRefresh, n))
            } else if id == 71 {
                Ok((CapabilityV::LongLivedGracefulRestart, n))
            } else {
                Ok((CapabilityV::Unknown(id, body), n))
            }
        }
    }
}

/// Reads capabilities from `s` until it is exhausted.
pub open spec fn parse_capability_list(bo: ByteOrder, s: Seq<u8>) -> Result<
    Seq<CapabilityV>,
    ErrorType,
>
    decreases s.len(),
{
    if s.len() == 0 {
        Ok(seq![])
    } else {
        match parse_capability(bo, s) {
            Err(e) => Err(e),
            Ok((c, n)) => match parse_capability_list(bo, s.skip(n)) {
                Err(e) => Err(e),
                Ok(rest) => Ok(seq![c] + rest),
            },
        }
    }
}

/// The wire layout of a run of capabilities: each in order, stopping at
/// the first that cannot be encoded.
pub open spec fn enc_capability_list(cs: Seq<CapabilityV>) -> Result<Seq<u8>, ErrorType>
    decreases cs.len(),
{
    if cs.len() == 0 {
        Ok(seq![])
    } else {
        match enc_capability(cs[0]) {
            Err(e) => Err(e),
            Ok(head) => match enc_capability_list(cs.skip(1)) {
                Err(e) => Err(e),
                Ok(tail) => Ok(head + tail),
            },
        }
    }
}

/// An encodable capability decodes from its own encoding unchanged and
/// consumes exactly its bytes, whatever follows it.
pub proof fn lemma_capability_round_trip(c: CapabilityV, rest: Seq<u8>)
    requires
        enc_capability(c) matches Ok(b),
    ensures
        enc_capability(c) matches Ok(b) ==> parse_capability(ByteOrder::BigEndian, b + rest)
            == Ok::<_, ErrorType>((c, b.len() as int)),
{
    let b = enc_capability(c)->Ok_0;
    let s = b + rest;
    let bo = ByteOrder::BigEndian;
    match c {
        CapabilityV::RouteRefresh => {
            assert(s.subrange(2, 2) =~= Seq::<u8>::empty());
        },
        CapabilityV::EnhancedRouteRefresh => {
            assert(s.subrange(2, 2) =~= Seq::<u8>::empty());
        },
        CapabilityV::LongLivedGracefulRestart => {
            assert(s.subrange(2, 2) =~= Seq::<u8>::empty());
        },
        CapabilityV::FourOctetASNumberSupport(asn) => {
            let body = s.subrange(2, 10);
            assert(body.take(8) =~= bytes_u64(bo, asn));
            crate::io::lemma_u64_round_trip(bo, asn);
        },
        CapabilityV::MultiProtocolExtensions(afi, safi) => {
            let a = afi.spec_to_u16()->Ok_0;
            let sv = safi.spec_to_u8()->Ok_0;
            let body = s.subrange(2, 6);
            assert(body.take(2) =~= bytes_u16(bo, a));
            crate::io::lemma_u16_round_trip(bo, a);
            assert(AFI::spec_from_u16(a) == afi);
            assert(body[3] == sv);
            assert(SAFI::spec_from_u8(sv) == safi);
        },
        CapabilityV::Unknown(id, data) => {
            assert(s[0] == id);
            assert(s[1] == data.len() as u8);
            assert(s.subrange(2, 2 + data.len() as u8) =~= data);
        },
    }
}

/// A capability with an unrecognized id and any payload that fits the
/// one-byte length round-trips byte for byte: it encodes to exactly
/// `id, length, payload`, and those bytes parse back to the same
/// capability, in either byte order.
pub proof fn lemma_unknown_capability_passthrough(bo: ByteOrder, id: u8, payload: Seq<u8>)
    requires
        !known_cap_id(id),
        payload.len() <= 255,
    ensures
        enc_capability(CapabilityV::Unknown(id, payload)) == Ok::<_, ErrorType>(
            seq![id, payload.len() as u8] + payload,
        ),
        parse_capability(bo, seq![id, payload.len() as u8] + payload) == Ok::<_, ErrorType>(
            (CapabilityV::Unknown(id, payload), 2 + payload.len() as int),
        ),
{
    let s = seq![id, payload.len() as u8] + payload;
    assert(s[0] == id);
    assert(s[1] == payload.len() as u8);
    assert(s.subrange(2, 2 + payload.len() as u8) =~= payload);
}

/// An encodable run of capabilities decodes from its own encoding to the
/// same capabilities.
pub proof fn lemma_capability_list_round_trip(cs: Seq<CapabilityV>)
    requires
        enc_capability_list(cs) matches Ok(b),
    ensures
        enc_capability_list(cs) matches Ok(b) ==> parse_capability_list(ByteOrder::BigEndian, b)
            == Ok::<_, ErrorType>(cs),
    decreases cs.len(),
{
    let bo = ByteOrder::BigEndian;
    let b = enc_capability_list(cs)->Ok_0;
    if cs.len() == 0 {
        assert(cs =~= Seq::<CapabilityV>::empty());
    } else {
        let head = enc_capability(cs[0])->Ok_0;
        let tail = enc_capability_list(cs.skip(1))->Ok_0;
        lemma_capability_round_trip(cs[0], tail);
        assert(b == head + tail);
        assert(head.len() >= 2) by {
            match cs[0] {
                CapabilityV::RouteRefresh => {},
                CapabilityV::EnhancedRouteRefresh => {},
                CapabilityV::LongLivedGracefulRestart => {},
                CapabilityV::FourOctetASNumberSupport(asn) => {},
                CapabilityV::MultiProtocolExtensions(afi, safi) => {},
                CapabilityV::Unknown(id, data) => {},
            }
        }
        assert(b.len() > 0);
        assert(parse_capability(bo, b) == Ok::<_, ErrorType>((cs[0], head.len() as int)));
        assert(b.skip(head.len() as int) =~= tail);
        lemma_capability_list_round_trip(cs.skip(1));
        assert(seq![cs[0]] + cs.skip(1) =~= cs);
    }
}

impl Capability {
    /// The recognized wire id of this capability, `None` for an `Unknown`.
    pub fn id(&self) -> (r: Option<u8>)
        ensures
            r == cap_known_id(self.deep_view()),
    {
        match self {
            Capability::MultiProtocolExtensions(afi, safi) => Some(1),
            Capability::RouteRefresh => Some(2),
            Capability::FourOctetASNumberSupport(asn) => Some(65),
            Capability::EnhancedRouteRefresh => Some(70),
            Capability::LongLivedGracefulRestart => Some(71),
            Capability::Unknown(id, data) => None,
        }
    }

    /// Writes the capability TLV: id, value length, value. Fails, leaving
    /// the buffer well-formed but possibly holding a partial TLV, when the
    /// capability has no wire form (see [`enc_capability`]).
    pub fn write(&self, buffer: &mut Buffer) -> (r: Result<(), Error>)
        requires
            old(buffer).wf(),
        ensures
            enc_capability(self.deep_view()) matches Ok(b) ==> (r matches Ok(u) && wrote(
                *old(buffer),
                *final(buffer),
                b,
            )),
            enc_capability(self.deep_view()) matches Err(k) ==> (r matches Err(e) && e.kind() == k
                && final(buffer).wf() && final(buffer).ord() == old(buffer).ord()),
    {
        let ghost start = *buffer;
        match self {
            Capability::RouteRefresh => {
                buffer.write_u8(2);
                let ghost mid = *buffer;
                buffer.write_u8(0);
                proof {
                    lemma_wrote_trans(start, mid, *buffer, seq![2u8], seq![0u8]);
                    assert(seq![2u8] + seq![0u8] =~= seq![2u8, 0u8]);
                }
                Ok(())
            },
            Capability::EnhancedRouteRefresh => {
                buffer.write_u8(70);
                let ghost mid = *buffer;
                buffer.write_u8(0);
                proof {
                    lemma_wrote_trans(start, mid, *buffer, seq![70u8], seq![0u8]);
                    assert(seq![70u8] + seq![0u8] =~= seq![70u8, 0u8]);
                }
                Ok(())
            },
            Capability::LongLivedGracefulRestart => {
                buffer.write_u8(71);
                let ghost mid = *buffer;
                buffer.write_u8(0);
                proof {
                    lemma_wrote_trans(start, mid, *buffer, seq![71u8], seq![0u8]);
                    assert(seq![71u8] + seq![0u8] =~= seq![71u8, 0u8]);
                }
                Ok(())
            },
            Capability::FourOctetASNumberSupport(asn) => {
                let mut temp = Buffer::empty(ByteOrder::BigEndian);
                let ghost temp0 = temp;
                temp.write_u64(*asn);
                proof {
                    lemma_wrote_at_end(temp0, temp, bytes_u64(ByteOrder::BigEndian, *asn));
                }
                buffer.write_u8(65);
                let ghost mid1 = *buffer;
                let value_len = temp.len() as u8;
                buffer.write_u8(value_len);
                let ghost mid2 = *buffer;
                let result = temp.write_buffer(buffer);
                proof {
                    lemma_wrote_trans(start, mid1, mid2, seq![65u8], seq![8u8]);
                    lemma_wrote_trans(start, mid2, *buffer, seq![65u8] + seq![8u8], temp.data());
                    assert(seq![65u8] + seq![8u8] + temp.data() =~= seq![65u8, 8u8] + bytes_u64(
                        ByteOrder::BigEndian,
                        *asn,
                    ));
                }
                result
            },
            Capability::MultiProtocolExtensions(afi, safi) => {
                buffer.write_u8(1);
                let afi_code = match afi.to_u16() {
                    Ok(v) => v,
                    Err(raw) => {
                        return Err(ErrorType::ReadError.err(
                            "unexpected address family: it has no wire value to emit",
                        ));
                    },
                };
                let safi_code = match safi.to_u8() {
                    Ok(v) => v,
                    Err(raw) => {
                        return Err(ErrorType::ReadError.err(
                            "unexpected subsequent address family: it has no wire value to emit",
                        ));
                    },
                };
                let mut temp = Buffer::empty(ByteOrder::BigEndian);
                let ghost temp0 = temp;
                temp.write_u16(afi_code);
                let ghost temp1 = temp;
                temp.write_u8(0);
                let ghost temp2 = temp;
                temp.write_u8(safi_code);
                proof {
                    lemma_wrote_trans(
                        temp0,
                        temp1,
                        temp2,
                        bytes_u16(ByteOrder::BigEndian, afi_code),
                        seq![0u8],
                    );
                    lemma_wrote_trans(
                        temp0,
                        temp2,
                        temp,
                        bytes_u16(ByteOrder::BigEndian, afi_code) + seq![0u8],
                        seq![safi_code],
                    );
                    lemma_wrote_at_end(
                        temp0,
                        temp,
                        bytes_u16(ByteOrder::BigEndian, afi_code) + seq![0u8] + seq![safi_code],
                    );
                }
                let ghost mid1 = *buffer;
                let value_len = temp.len() as u8;
                buffer.write_u8(value_len);
                let ghost mid2 = *buffer;
                let result = temp.write_buffer(buffer);
                proof {
                    lemma_wrote_trans(start, mid1, mid2, seq![1u8], seq![4u8]);
                    lemma_wrote_trans(start, mid2, *buffer, seq![1u8] + seq![4u8], temp.data());
                    assert(seq![1u8] + seq![4u8] + temp.data() =~= seq![1u8, 4u8] + bytes_u16(
                        ByteOrder::BigEndian,
                        afi_code,
                    ) + seq![0u8, safi_code]);
                }
                result
            },
            Capability::Unknown(id, data) => {
                if *id == 1 || *id == 2 || *id == 65 || *id == 70 || *id == 71 {
                    return Err(ErrorType::BGPError(
                        BGPError::open(OpenMessageError::UnsupportedOptionalParameter),
                    ).err("unexpected capability: its id shadows a recognized capability"));
                }
                if data.len() > 255 {
                    return Err(ErrorType::WriteError.err(
                        "unexpected capability payload: longer than the one-byte length allows",
                    ));
                }
                buffer.write_u8(*id);
                let ghost mid1 = *buffer;
                let value_len = data.len() as u8;
                buffer.write_u8(value_len);
                let ghost mid2 = *buffer;
                buffer.write_bytes_vector(data);
                proof {
                    lemma_wrote_trans(start, mid1, mid2, seq![*id], seq![value_len]);
                    lemma_wrote_trans(start, mid2, *buffer, seq![*id] + seq![value_len], data@);
                    assert(seq![*id] + seq![value_len] + data@ =~= seq![*id, value_len] + data@);
                }
                Ok(())
            },
        }
    }

    /// Reads one capability TLV; an unrecognized id keeps its payload
    /// verbatim in an `Unknown`.
    pub fn read(buffer: &mut Buffer) -> (r: Result<Capability, Error>)
        requires
            old(buffer).wf(),
        ensures
            final(buffer).wf(),
            final(buffer).data() == old(buffer).data(),
            final(buffer).ord() == old(buffer).ord(),
            parse_capability(old(buffer).ord(), old(buffer).rem()) matches Ok(cn) ==> (r matches Ok(
                c,
            ) && c.deep_view() == cn.0 && final(buffer).pos() == old(buffer).pos() + cn.1),
            parse_capability(old(buffer).ord(), old(buffer).rem()) matches Err(k) ==> (r matches Err(
                e,
            ) && e.kind() == k),
    {
        let id = match buffer.read_u8() {
            Ok(v) => v,
            Err(e) => { return Err(e); },
        };
        let length = match buffer.read_u8() {
            Ok(v) => v,
            Err(e) => { return Err(e); },
        };
        let mut body = match Buffer::read_buffer(buffer, length as usize) {
            Ok(b) => b,
            Err(e) => { return Err(e); },
        };
        match id {
            1 => {
                let afi_raw = match body.read_u16() {
                    Ok(v) => v,
                    Err(e) => { return Err(e); },
                };
                let _reserved = match body.read_u8() {
                    Ok(v) => v,
                    Err(e) => { return Err(e); },
                };
                let safi_raw = match body.read_u8() {
                    Ok(v) => v,
                    Err(e) => { return Err(e); },
                };
                Ok(
                    Capability::MultiProtocolExtensions(
                        AFI::from_u16(afi_raw),
                        SAFI::from_u8(safi_raw),
                    ),
                )
            },
            2 => Ok(Capability::RouteRefresh),
            65 => {
                let asn = match body.read_u64() {
                    Ok(v) => v,
                    Err(e) => { return Err(e); },
                };
                Ok(Capability::FourOctetASNumberSupport(asn))
            },
            70 => Ok(Capability::EnhancedRouteRefresh),
            71 => Ok(Capability::LongLivedGracefulRestart),
            _ => Ok(Capability::Unknown(id, body.into_bytes())),
        }
    }
}

/// An optional parameter of an Open message, keyed by a one-byte id. Only
/// id 2, a run of capabilities, is recognized.
#[derive(Clone, PartialEq, Eq, Debug, Hash)]
pub enum OptionalParameter {
    Capabilities(Vec<Capability>),
}

/// The mathematical shape of an optional parameter.
#[verifier::ext_equal]
pub enum OptionalParameterV {
    Capabilities(Seq<CapabilityV>),
}

impl DeepView for OptionalParameter {
    type V = OptionalParameterV;

    open spec fn deep_view(&self) -> OptionalParameterV {
        match self {
            OptionalParameter::Capabilities(capabilities) => OptionalParameterV::Capabilities(
                capabilities.deep_view(),
            ),
        }
    }
}

/// The wire layout of an optional parameter: id, value length, value.
/// Fails when a capability cannot be encoded or the capabilities outgrow
/// the one-byte length.
pub open spec fn enc_opt_param(p: OptionalParameterV) -> Result<Seq<u8>, ErrorType> {
    match p {
        OptionalParameterV::Capabilities(cs) => match enc_capability_list(cs) {
            Err(e) => Err(e),
            Ok(b) => if b.len() > 255 {
                Err(ErrorType::WriteError)
            } else {
                Ok(seq![2u8, b.len() as u8] + b)
            },
        },
    }
}

/// Reads one optional parameter TLV from the front of `s`: id, value
/// length, value; only id 2 (capabilities) is recognized.
pub open spec fn parse_opt_param(bo: ByteOrder, s: Seq<u8>) -> Result<
    (OptionalParameterV, int),
    ErrorType,
> {
    if s.len() < 2 {
        Err(ErrorType::ReadError)
    } else {
        let id = s[0];
        let plen = s[1];
        if s.len() < 2 + plen {
            Err(ErrorType::ReadError)
        } else if id == 2 {
            match parse_capability_list(bo, s.subrange(2, 2 + plen)) {
                Err(e) => Err(e),
                Ok(cs) => Ok((OptionalParameterV::Capabilities(cs), 2 + plen as int)),
            }
        } else {
            Err(ErrorType::ReadError)
        }
    }
}

/// Reads optional parameters from `s` until it is exhausted.
pub open spec fn parse_opt_param_list(bo: ByteOrder, s: Seq<u8>) -> Result<
    Seq<OptionalParameterV>,
    ErrorType,
>
    decreases s.len(),
{
    if s.len() == 0 {
        Ok(seq![])
    } else {
        match parse_opt_param(bo, s) {
            Err(e) => Err(e),
            Ok((p, n)) => match parse_opt_param_list(bo, s.skip(n)) {
                Err(e) => Err(e),
                Ok(rest) => Ok(seq![p] + rest),
            },
        }
    }
}

/// The wire layout of a run of optional parameters, stopping at the first
/// that cannot be encoded.
pub open spec fn enc_opt_param_list(ps: Seq<OptionalParameterV>) -> Result<Seq<u8>, ErrorType>
    decreases ps.len(),
{
    if ps.len() == 0 {
        Ok(seq![])
    } else {
        match enc_opt_param(ps[0]) {
            Err(e) => Err(e),
            Ok(head) => match enc_opt_param_list(ps.skip(1)) {
                Err(e) => Err(e),
                Ok(tail) => Ok(head + tail),
            },
        }
    }
}

/// An encodable optional parameter decodes from its own encoding
/// unchanged and consumes exactly its bytes, whatever follows it.
pub proof fn lemma_opt_param_round_trip(p: OptionalParameterV, rest: Seq<u8>)
    requires
        enc_opt_param(p) matches Ok(b),
    ensures
        enc_opt_param(p) matches Ok(b) ==> parse_opt_param(ByteOrder::BigEndian, b + rest)
            == Ok::<_, ErrorType>((p, b.len() as int)),
{
    let b = enc_opt_param(p)->Ok_0;
    let s = b + rest;
    match p {
        OptionalParameterV::Capabilities(cs) => {
            let body = enc_capability_list(cs)->Ok_0;
            assert(s[0] == 2);
            assert(s[1] == body.len() as u8);
            assert(s.subrange(2, 2 + body.len() as u8) =~= body);
            lemma_capability_list_round_trip(cs);
        },
    }
}

/// An encodable run of optional parameters decodes from its own encoding
/// to the same parameters.
pub proof fn lemma_opt_param_list_round_trip(ps: Seq<OptionalParameterV>)
    requires
        enc_opt_param_list(ps) matches Ok(b),
    ensures
        enc_opt_param_list(ps) matches Ok(b) ==> parse_opt_param_list(ByteOrder::BigEndian, b)
            == Ok::<_, ErrorType>(ps),
    decreases ps.len(),
{
    let bo = ByteOrder::BigEndian;
    let b = enc_opt_param_list(ps)->Ok_0;
    if ps.len() == 0 {
        assert(ps =~= Seq::<OptionalParameterV>::empty());
    } else {
        let head = enc_opt_param(ps[0])->Ok_0;
        let tail = enc_opt_param_list(ps.skip(1))->Ok_0;
        lemma_opt_param_round_trip(ps[0], tail);
        assert(b == head + tail);
        assert(head.len() >= 2) by {
            match ps[0] {
                OptionalParameterV::Capabilities(cs) => {},
            }
        }
        assert(b.len() > 0);
        assert(parse_opt_param(bo, b) == Ok::<_, ErrorType>((ps[0], head.len() as int)));
        assert(b.skip(head.len() as int) =~= tail);
        lemma_opt_param_list_round_trip(ps.skip(1));
        assert(seq![ps[0]] + ps.skip(1) =~= ps);
    }
}

impl OptionalParameter {
    /// The wire id of this optional parameter.
    pub fn id(&self) -> (r: u8)
        ensures
            r == 2,
    {
        match self {
            OptionalParameter::Capabilities(capabilities) => 2,
        }
    }

    /// Writes the parameter TLV: id, value length, then each capability.
    /// Fails, leaving the buffer well-formed but possibly holding a
    /// partial TLV, when a capability cannot be encoded or the
    /// capabilities outgrow the one-byte length.
    pub fn write(&self, buffer: &mut Buffer) -> (r: Result<(), Error>)
        requires
            old(buffer).wf(),
        ensures
            enc_opt_param(self.deep_view()) matches Ok(b) ==> (r matches Ok(u) && wrote(
                *old(buffer),
                *final(buffer),
                b,
            )),
            enc_opt_param(self.deep_view()) matches Err(k) ==> (r matches Err(e) && e.kind() == k
                && final(buffer).wf() && final(buffer).ord() == old(buffer).ord()),
    {
        let ghost start = *buffer;
        buffer.write_u8(self.id());
        match self {
            OptionalParameter::Capabilities(capabilities) => {
                let ghost caps_v = capabilities.deep_view();
                let mut temp = Buffer::empty(ByteOrder::BigEndian);
                let mut i: usize = 0;
                proof {
                    assert(caps_v.skip(0) =~= caps_v);
                    match enc_capability_list(caps_v) {
                        Ok(t) => { assert(temp.data() + t =~= t); },
                        Err(e) => {},
                    }
                }
                while i < capabilities.len()
                    invariant
                        i <= capabilities@.len(),
                        caps_v == capabilities.deep_view(),
                        caps_v.len() == capabilities@.len(),
                        start == *old(buffer),
                        start.wf(),
                        wrote(start, *buffer, seq![2u8]),
                        enc_opt_param(OptionalParameterV::Capabilities(caps_v)) == enc_opt_param(
                            self.deep_view(),
                        ),
                        temp.wf(),
                        temp.ord() == ByteOrder::BigEndian,
                        temp.pos() == temp.data().len(),
                        enc_capability_list(caps_v) == (match enc_capability_list(
                            caps_v.skip(i as int),
                        ) {
                            Err(e) => Err::<Seq<u8>, ErrorType>(e),
                            Ok(t) => Ok(temp.data() + t),
                        }),
                    decreases capabilities@.len() - i,
                {
                    proof {
                        assert(caps_v.skip(i as int)[0] == caps_v[i as int]);
                    }
                    let ghost temp_pre = temp;
                    match capabilities[i].write(&mut temp) {
                        Ok(u) => {},
                        Err(e) => {
                            return Err(e);
                        },
                    }
                    proof {
                        let b = enc_capability(caps_v[i as int])->Ok_0;
                        lemma_wrote_at_end(temp_pre, temp, b);
                        assert(caps_v.skip(i as int).skip(1) =~= caps_v.skip(i as int + 1));
                        match enc_capability_list(caps_v.skip(i as int + 1)) {
                            Ok(t2) => {
                                assert(temp_pre.data() + (b + t2) =~= (temp_pre.data() + b) + t2);
                            },
                            Err(e2) => {},
                        }
                    }
                    i = i + 1;
                }
                proof {
                    assert(caps_v.skip(caps_v.len() as int) =~= Seq::<CapabilityV>::empty());
                    match enc_capability_list(caps_v) {
                        Ok(t) => { assert(temp.data() + Seq::<u8>::empty() =~= temp.data()); },
                        Err(e) => {},
                    }
                }
                if temp.len() > 255 {
                    return Err(ErrorType::WriteError.err(
                        "unexpected capabilities: together longer than the one-byte length allows",
                    ));
                }
                let value_len = temp.len() as u8;
                let ghost mid1 = *buffer;
                buffer.write_u8(value_len);
                let ghost mid2 = *buffer;
                let result = temp.write_buffer(buffer);
                proof {
                    lemma_wrote_trans(start, mid1, mid2, seq![2u8], seq![value_len]);
                    lemma_wrote_trans(start, mid2, *buffer, seq![2u8] + seq![value_len], temp.data());
                    assert(seq![2u8] + seq![value_len] + temp.data() =~= seq![2u8, value_len]
                        + temp.data());
                }
                result
            },
        }
    }

    /// Reads one optional parameter TLV; fails with a read error on any id
    /// other than capabilities.
    pub fn read(buffer: &mut Buffer) -> (r: Result<OptionalParameter, Error>)
        requires
            old(buffer).wf(),
        ensures
            final(buffer).wf(),
            final(buffer).data() == old(buffer).data(),
            final(buffer).ord() == old(buffer).ord(),
            parse_opt_param(old(buffer).ord(), old(buffer).rem()) matches Ok(pn) ==> (r matches Ok(
                p,
            ) && p.deep_view() == pn.0 && final(buffer).pos() == old(buffer).pos() + pn.1),
            parse_opt_param(old(buffer).ord(), old(buffer).rem()) matches Err(k) ==> (r matches Err(
                e,
            ) && e.kind() == k),
    {
        let ghost bo = old(buffer).ord();
        let id = match buffer.read_u8() {
            Ok(v) => v,
            Err(e) => { return Err(e); },
        };
        let length = match buffer.read_u8() {
            Ok(v) => v,
            Err(e) => { return Err(e); },
        };
        let mut body = match Buffer::read_buffer(buffer, length as usize) {
            Ok(b) => b,
            Err(e) => { return Err(e); },
        };
        match id {
            2 => {
                let ghost s = old(buffer).rem();
                let ghost full = body.data();
                let ghost base = *buffer;
                proof {
                    assert(s.skip(2).take(length as int) =~= s.subrange(2, 2 + length as int));
                    assert(full =~= s.subrange(2, 2 + length as int));
                }
                let mut capabilities: Vec<Capability> = Vec::new();
                proof {
                    assert(body.rem() =~= full);
                    match parse_capability_list(bo, full) {
                        Ok(rest) => { assert(capabilities.deep_view() + rest =~= rest); },
                        Err(e) => {},
                    }
                }
                while body.remaining() > 0
                    invariant
                        body.wf(),
                        body.ord() == bo,
                        base == *buffer,
                        base.wf(),
                        base.data() == old(buffer).data(),
                        base.ord() == old(buffer).ord(),
                        base.pos() == old(buffer).pos() + 2 + length as int,
                        bo == old(buffer).ord(),
                        s == old(buffer).rem(),
                        s.len() >= 2 + length as int,
                        s[0] == 2,
                        s[1] == length,
                        full == s.subrange(2, 2 + length as int),
                        parse_capability_list(bo, full) == (match parse_capability_list(
                            bo,
                            body.rem(),
                        ) {
                            Err(e) => Err::<Seq<CapabilityV>, ErrorType>(e),
                            Ok(rest) => Ok(capabilities.deep_view() + rest),
                        }),
                    decreases body.rem().len(),
                {
                    let ghost pre_rem = body.rem();
                    let ghost caps_pre = capabilities.deep_view();
                    let cap = match Capability::read(&mut body) {
                        Ok(c) => c,
                        Err(e) => {
                            return Err(e);
                        },
                    };
                    capabilities.push(cap);
                    proof {
                        let n = parse_capability(bo, pre_rem)->Ok_0.1;
                        assert(body.rem() =~= pre_rem.skip(n));
                        assert(capabilities.deep_view() =~= caps_pre.push(cap.deep_view()));
                        match parse_capability_list(bo, pre_rem.skip(n)) {
                            Ok(rest2) => {
                                assert(caps_pre + (seq![cap.deep_view()] + rest2) =~= caps_pre.push(
                                    cap.deep_view(),
                                ) + rest2);
                            },
                            Err(e2) => {},
                        }
                    }
                }
                proof {
                    assert(body.rem().len() == 0);
                    assert(capabilities.deep_view() + Seq::<CapabilityV>::empty()
                        =~= capabilities.deep_view());
                }
                Ok(OptionalParameter::Capabilities(capabilities))
            },
            _ => Err(ErrorType::ReadError.err(
                "unexpected optional parameter id: only capabilities are recognized",
            )),
        }
    }
}

} // verus!
