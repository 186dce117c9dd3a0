//! The top-level messages: Open, Update, Notification, KeepAlive and
//! RouteRefresh. Encoding serializes the body into a scratch buffer
//! first, measures it, then writes the header and splices the body in;
//! decoding validates the header before a single body byte is read, and
//! parses every nested section through a bounded sub-cursor.

use vstd::prelude::*;
use crate::bgp_error::{BGPError, ErrorCode, OpenMessageError};
use crate::error::{Error, ErrorType};
use crate::header::{enc_header, marker_ok, parse_header, BGPHeader, HeaderV, PacketType};
use crate::io::{bytes_u16, bytes_u32, val_u16, val_u32, wrote, Buffer, ByteOrder};
use crate::io::{lemma_u16_round_trip, lemma_u32_round_trip, lemma_wrote_at_end, lemma_wrote_trans};
use crate::opt_params::{enc_opt_param_list, lemma_opt_param_list_round_trip, parse_opt_param_list,
    OptionalParameter, OptionalParameterV};
use crate::path_attr::{enc_attribute_list, lemma_attribute_list_round_trip, parse_attribute_list,
    wf_attribute, Attribute, AttributeV};
use crate::prefix::{enc_prefix_list, lemma_prefix_list_round_trip, parse_prefix_list, wf_prefix,
    RoutePrefix, RoutePrefixV};

verus! {

/// A protocol message.
///
/// - `Open(version, local_as, hold_time, identifier, optional_parameters)`
///   starts a session; a decoded `hold_time` must be 0 or at least 3.
/// - `Update(withdrawn, nlri, attributes)` carries routing changes.
/// - `Notification(error_code, sub_code, data)` reports an error before
///   the session closes.
/// - `KeepAlive` and `RouteRefresh` have no body.
#[derive(Clone, PartialEq, Eq, Debug, Hash)]
pub enum Packet {
    Open(u8, u16, u16, u32, Vec<OptionalParameter>),
    Update(Vec<RoutePrefix>, Vec<RoutePrefix>, Vec<Attribute>),
    Notification(ErrorCode, u8, Vec<u8>),
    KeepAlive,
    RouteRefresh,
}

/// The mathematical shape of a message.
#[verifier::ext_equal]
pub enum PacketV {
    Open(u8, u16, u16, u32, Seq<OptionalParameterV>),
    Update(Seq<RoutePrefixV>, Seq<RoutePrefixV>, Seq<AttributeV>),
    Notification(ErrorCode, u8, Seq<u8>),
    KeepAlive,
    RouteRefresh,
}

impl DeepView for Packet {
    type V = PacketV;

    open spec fn deep_view(&self) -> PacketV {
        match self {
            Packet::Open(version, local_as, hold_time, identifier, params) => PacketV::Open(
                *version,
                *local_as,
                *hold_time,
                *identifier,
                params.deep_view(),
            ),
            Packet::Update(withdrawn, nlri, attributes) => PacketV::Update(
                withdrawn.deep_view(),
                nlri.deep_view(),
                attributes.deep_view(),
            ),
            Packet::Notification(error_code, sub_code, data) => PacketV::Notification(
                *error_code,
                *sub_code,
                data@,
            ),
            Packet::KeepAlive => PacketV::KeepAlive,
            Packet::RouteRefresh => PacketV::RouteRefresh,
        }
    }
}

/// The header type byte a message goes out under.
pub open spec fn packet_type_of(p: PacketV) -> PacketType {
    match p {
        PacketV::Open(version, local_as, hold_time, identifier, params) => PacketType::Open,
        PacketV::Update(withdrawn, nlri, attributes) => PacketType::Update,
        PacketV::Notification(error_code, sub_code, data) => PacketType::Notification,
        PacketV::KeepAlive => PacketType::KeepAlive,
        PacketV::RouteRefresh => PacketType::RouteRefresh,
    }
}

/// The synchronization marker every encoded message carries.
pub open spec fn marker_ff() -> Seq<u8> {
    Seq::new(16, |i: int| 0xFFu8)
}

/// The wire layout of a message body, without its header. Body integers
/// are always big-endian, the wire order. Fails where a nested structure
/// cannot be encoded or outgrows its length field.
pub open spec fn enc_packet_body(p: PacketV) -> Result<Seq<u8>, ErrorType> {
    let bo = ByteOrder::BigEndian;
    match p {
        PacketV::Open(version, local_as, hold_time, identifier, params) => match enc_opt_param_list(
            params,
        ) {
            Err(e) => Err(e),
            Ok(pb) => if pb.len() > 255 {
                Err(ErrorType::WriteError)
            } else {
                Ok(
                    seq![version] + bytes_u16(bo, local_as) + bytes_u16(bo, hold_time)
                        + bytes_u32(bo, identifier) + seq![pb.len() as u8] + pb,
                )
            },
        },
        PacketV::Update(withdrawn, nlri, attributes) => {
            let wb = enc_prefix_list(withdrawn);
            if wb.len() > 65535 {
                Err(ErrorType::WriteError)
            } else {
                match enc_attribute_list(attributes) {
                    Err(e) => Err(e),
                    Ok(ab) => if ab.len() > 65535 {
                        Err(ErrorType::WriteError)
                    } else {
                        let nb = enc_prefix_list(nlri);
                        if nb.len() > 65535 {
                            Err(ErrorType::WriteError)
                        } else {
                            Ok(
                                bytes_u16(bo, wb.len() as u16) + wb + bytes_u16(
                                    bo,
                                    ab.len() as u16,
                                ) + ab + bytes_u16(bo, nb.len() as u16) + nb,
                            )
                        }
                    },
                }
            }
        },
        PacketV::Notification(error_code, sub_code, data) => Ok(
            seq![error_code.spec_to_u8(), sub_code] + data,
        ),
        PacketV::KeepAlive => Ok(seq![]),
        PacketV::RouteRefresh => Ok(seq![]),
    }
}

/// The wire layout of a whole message: the header — its length field in
/// the buffer's byte order `bo`, its value covering header and body —
/// then the body. Fails as the body does, or when the total outgrows the
/// two-byte length field.
pub open spec fn enc_packet(bo: ByteOrder, p: PacketV) -> Result<Seq<u8>, ErrorType> {
    match enc_packet_body(p) {
        Err(e) => Err(e),
        Ok(body) => if body.len() + 19 > 65535 {
            Err(ErrorType::WriteError)
        } else {
            Ok(
                enc_header(
                    bo,
                    HeaderV {
                        marker: marker_ff(),
                        length: (19 + body.len()) as u16,
                        ty: packet_type_of(p),
                    },
                ) + body,
            )
        },
    }
}


/// Reads an Open body (everything after the header) from the whole of
/// `body`: the five fixed fields, then optional parameters until the
/// body is exhausted; the nominal parameter-length byte is redundant
/// with the header's framing and is ignored. The hold-timer rule is
/// applied after the parameters are read.
pub open spec fn parse_open_body(bo: ByteOrder, body: Seq<u8>) -> Result<PacketV, ErrorType>
    recommends
        body.len() >= 10,
{
    let version = body[0];
    let local_as = val_u16(bo, body.subrange(1, 3));
    let hold_time = val_u16(bo, body.subrange(3, 5));
    let identifier = val_u32(bo, body.subrange(5, 9));
    match parse_opt_param_list(bo, body.skip(10)) {
        Err(e) => Err(e),
        Ok(params) => if hold_time != 0 && hold_time < 3 {
            Err(
                ErrorType::BGPError(
                    BGPError::spec_new(
                        ErrorCode::OpenMessage,
                        OpenMessageError::UnacceptableHoldTime.spec_to_u8(),
                    ),
                ),
            )
        } else {
            Ok(PacketV::Open(version, local_as, hold_time, identifier, params))
        },
    }
}

/// Reads an Update body from the whole of `body`: three length-prefixed
/// sections — withdrawn routes, attributes, reachability information —
/// each parsed to exhaustion through its own bounded slice.
pub open spec fn parse_update_body(bo: ByteOrder, body: Seq<u8>) -> Result<PacketV, ErrorType>
    recommends
        body.len() >= 4,
{
    let wlen = val_u16(bo, body.take(2));
    if body.len() < 2 + wlen {
        Err(ErrorType::ReadError)
    } else {
        match parse_prefix_list(body.subrange(2, 2 + wlen)) {
            Err(e) => Err(e),
            Ok(withdrawn) => {
                let rest1 = body.skip(2 + wlen);
                if rest1.len() < 2 {
                    Err(ErrorType::ReadError)
                } else {
                    let alen = val_u16(bo, rest1.take(2));
                    if rest1.len() < 2 + alen {
                        Err(ErrorType::ReadError)
                    } else {
                        match parse_attribute_list(bo, rest1.subrange(2, 2 + alen)) {
                            Err(e) => Err(e),
                            Ok(attributes) => {
                                let rest2 = rest1.skip(2 + alen);
                                if rest2.len() < 2 {
                                    Err(ErrorType::ReadError)
                                } else {
                                    let nlen = val_u16(bo, rest2.take(2));
                                    if rest2.len() < 2 + nlen {
                                        Err(ErrorType::ReadError)
                                    } else {
                                        match parse_prefix_list(rest2.subrange(2, 2 + nlen)) {
                                            Err(e) => Err(e),
                                            Ok(nlri) => Ok(
                                                PacketV::Update(withdrawn, nlri, attributes),
                                            ),
                                        }
                                    }
                                }
                            },
                        }
                    }
                }
            },
        }
    }
}

/// Reads a Notification body from the whole of `body`: error code,
/// sub-code, then the remainder verbatim as opaque data.
pub open spec fn parse_notification_body(body: Seq<u8>) -> PacketV
    recommends
        body.len() >= 2,
{
    PacketV::Notification(ErrorCode::spec_from_u8(body[0]), body[1], body.skip(2))
}

/// Reads one whole message from the front of `s` (integers in byte order
/// `bo`): a validated header, then the body parsed per the header's type.
/// Exactly the header's declared length is consumed; stray bytes inside a
/// section's declared length fail the nested parse instead of
/// desynchronizing what follows. Opaque so that chunk-level reasoning
/// can treat one message parse as a single step; proofs that need the
/// layout reveal it.
#[verifier::opaque]
pub open spec fn parse_packet(bo: ByteOrder, s: Seq<u8>) -> Result<(PacketV, int), ErrorType> {
    match parse_header(bo, s) {
        Err(e) => Err(e),
        Ok((h, hn)) => {
            let body = s.subrange(19, h.length as int);
            match h.ty {
                PacketType::Open => match parse_open_body(bo, body) {
                    Err(e) => Err(e),
                    Ok(p) => Ok((p, h.length as int)),
                },
                PacketType::Update => match parse_update_body(bo, body) {
                    Err(e) => Err(e),
                    Ok(p) => Ok((p, h.length as int)),
                },
                PacketType::Notification => Ok((parse_notification_body(body), h.length as int)),
                PacketType::KeepAlive => Ok((PacketV::KeepAlive, h.length as int)),
                PacketType::RouteRefresh => Ok((PacketV::RouteRefresh, h.length as int)),
                PacketType::Unexpected => Err(ErrorType::ReadError),
            }
        },
    }
}

/// Whether a message can survive a round trip as it stands: its nested
/// structures are well-formed and its fields pass the checks the decoder
/// applies (the hold-timer rule, a canonical Notification error code).
pub open spec fn wf_packet(p: PacketV) -> bool {
    match p {
        PacketV::Open(version, local_as, hold_time, identifier, params) => hold_time == 0
            || hold_time >= 3,
        PacketV::Update(withdrawn, nlri, attributes) => (forall|i: int|
            0 <= i < withdrawn.len() ==> wf_prefix(#[trigger] withdrawn[i])) && (forall|i: int|
            0 <= i < nlri.len() ==> wf_prefix(#[trigger] nlri[i])) && (forall|i: int|
            0 <= i < attributes.len() ==> wf_attribute(#[trigger] attributes[i])),
        PacketV::Notification(error_code, sub_code, data) => error_code.canonical(),
        PacketV::KeepAlive => true,
        PacketV::RouteRefresh => true,
    }
}

/// An encodable Open body decodes back to the same Open message when
/// its hold time passes the rule the decoder applies.
pub proof fn lemma_open_body_round_trip(
    version: u8,
    local_as: u16,
    hold_time: u16,
    identifier: u32,
    params: Seq<OptionalParameterV>,
)
    requires
        hold_time == 0 || hold_time >= 3,
        enc_packet_body(PacketV::Open(version, local_as, hold_time, identifier, params)) matches
            Ok(body),
    ensures
        enc_packet_body(PacketV::Open(version, local_as, hold_time, identifier, params)) matches
            Ok(body) ==> parse_open_body(ByteOrder::BigEndian, body) == Ok::<_, ErrorType>(
            PacketV::Open(version, local_as, hold_time, identifier, params),
        ),
{
    let bo = ByteOrder::BigEndian;
    let p = PacketV::Open(version, local_as, hold_time, identifier, params);
    let body = enc_packet_body(p)->Ok_0;
    let pb = enc_opt_param_list(params)->Ok_0;
    assert(body[0] == version);
    assert(body.subrange(1, 3) =~= bytes_u16(bo, local_as));
    assert(body.subrange(3, 5) =~= bytes_u16(bo, hold_time));
    assert(body.subrange(5, 9) =~= bytes_u32(bo, identifier));
    lemma_u16_round_trip(bo, local_as);
    lemma_u16_round_trip(bo, hold_time);
    lemma_u32_round_trip(bo, identifier);
    assert(body.skip(10) =~= pb);
    lemma_opt_param_list_round_trip(params);
}

/// An encodable Update body of well-formed prefixes and attributes
/// decodes back to the same Update message.
#[verifier::rlimit(100)]
#[verifier::spinoff_prover]
pub proof fn lemma_update_body_round_trip(
    withdrawn: Seq<RoutePrefixV>,
    nlri: Seq<RoutePrefixV>,
    attributes: Seq<AttributeV>,
)
    requires
        forall|i: int| 0 <= i < withdrawn.len() ==> wf_prefix(#[trigger] withdrawn[i]),
        forall|i: int| 0 <= i < nlri.len() ==> wf_prefix(#[trigger] nlri[i]),
        forall|i: int| 0 <= i < attributes.len() ==> wf_attribute(#[trigger] attributes[i]),
        enc_packet_body(PacketV::Update(withdrawn, nlri, attributes)) matches Ok(body),
    ensures
        enc_packet_body(PacketV::Update(withdrawn, nlri, attributes)) matches Ok(body)
            ==> parse_update_body(ByteOrder::BigEndian, body) == Ok::<_, ErrorType>(
            PacketV::Update(withdrawn, nlri, attributes),
        ),
{
    let bo = ByteOrder::BigEndian;
    let p = PacketV::Update(withdrawn, nlri, attributes);
    let body = enc_packet_body(p)->Ok_0;
    let wb = enc_prefix_list(withdrawn);
    let ab = enc_attribute_list(attributes)->Ok_0;
    let nb = enc_prefix_list(nlri);
    assert(body.len() == 6 + wb.len() + ab.len() + nb.len());
    assert(body.take(2) =~= bytes_u16(bo, wb.len() as u16));
    lemma_u16_round_trip(bo, wb.len() as u16);
    assert(val_u16(bo, body.take(2)) == wb.len());
    assert(body.subrange(2, 2 + wb.len() as int) =~= wb);
    lemma_prefix_list_round_trip(withdrawn);
    assert(parse_prefix_list(body.subrange(2, 2 + wb.len() as int)) == Ok::<_, ErrorType>(
        withdrawn,
    ));
    let rest1 = body.skip(2 + wb.len() as int);
    assert(rest1.len() == 4 + ab.len() + nb.len());
    assert(rest1.take(2) =~= bytes_u16(bo, ab.len() as u16));
    lemma_u16_round_trip(bo, ab.len() as u16);
    assert(val_u16(bo, rest1.take(2)) == ab.len());
    assert(rest1.subrange(2, 2 + ab.len() as int) =~= ab);
    lemma_attribute_list_round_trip(attributes);
    assert(parse_attribute_list(bo, rest1.subrange(2, 2 + ab.len() as int)) == Ok::<
        _,
        ErrorType,
    >(attributes));
    let rest2 = rest1.skip(2 + ab.len() as int);
    assert(rest2.len() == 2 + nb.len());
    assert(rest2.take(2) =~= bytes_u16(bo, nb.len() as u16));
    lemma_u16_round_trip(bo, nb.len() as u16);
    assert(val_u16(bo, rest2.take(2)) == nb.len());
    assert(rest2.subrange(2, 2 + nb.len() as int) =~= nb);
    lemma_prefix_list_round_trip(nlri);
    assert(parse_prefix_list(rest2.subrange(2, 2 + nb.len() as int)) == Ok::<_, ErrorType>(nlri));
}

/// Round trip: a well-formed, encodable message no longer than the
/// protocol's 4096-byte ceiling decodes from its own encoding to exactly
/// itself, consuming exactly its bytes. This covers every variant: Open
/// with any encodable parameters and capabilities, Update with any
/// well-formed prefixes and attributes, Notification, KeepAlive and
/// RouteRefresh.
#[verifier::rlimit(50)]
#[verifier::spinoff_prover]
pub proof fn lemma_packet_round_trip(p: PacketV)
    requires
        wf_packet(p),
        enc_packet(ByteOrder::BigEndian, p) matches Ok(b) && b.len() <= 4096,
    ensures
        enc_packet(ByteOrder::BigEndian, p) matches Ok(b) ==> parse_packet(ByteOrder::BigEndian, b)
            == Ok::<_, ErrorType>((p, b.len() as int)),
{
    reveal(parse_packet);
    let bo = ByteOrder::BigEndian;
    let b = enc_packet(bo, p)->Ok_0;
    let body = enc_packet_body(p)->Ok_0;
    let length = (19 + body.len()) as u16;
    let ty = packet_type_of(p);
    let hv = HeaderV { marker: marker_ff(), length, ty };
    assert(b == enc_header(bo, hv) + body);
    assert(b.len() == 19 + body.len());
    // the encoded header passes every validation check
    assert(b.take(16) =~= marker_ff());
    assert(marker_ok(b.take(16)));
    lemma_u16_round_trip(bo, length);
    assert(b.subrange(16, 18) =~= bytes_u16(bo, length));
    assert(b[18] == ty.spec_to_u8());
    assert(PacketType::spec_from_u8(ty.spec_to_u8()) == ty);
    assert(parse_header(bo, b) == Ok::<_, ErrorType>((HeaderV {
        marker: b.take(16),
        length,
        ty,
    }, 19int)));
    let body2 = b.subrange(19, length as int);
    assert(body2 =~= body);
    match p {
        PacketV::Open(version, local_as, hold_time, identifier, params) => {
            lemma_open_body_round_trip(version, local_as, hold_time, identifier, params);
        },
        PacketV::Update(withdrawn, nlri, attributes) => {
            lemma_update_body_round_trip(withdrawn, nlri, attributes);
        },
        PacketV::Notification(error_code, sub_code, data) => {
            assert(body[0] == error_code.spec_to_u8());
            assert(body[1] == sub_code);
            assert(ErrorCode::spec_from_u8(error_code.spec_to_u8()) == error_code);
            assert(body.skip(2) =~= data);
        },
        PacketV::KeepAlive => {},
        PacketV::RouteRefresh => {},
    }
}

impl Packet {
    /// The header type byte this message goes out under.
    pub fn packet_type(&self) -> (r: PacketType)
        ensures
            r == packet_type_of(self.deep_view()),
    {
        match self {
            Packet::Open(version, local_as, hold_time, identifier, params) => PacketType::Open,
            Packet::Update(withdrawn, nlri, attributes) => PacketType::Update,
            Packet::Notification(error_code, sub_code, data) => PacketType::Notification,
            Packet::KeepAlive => PacketType::KeepAlive,
            Packet::RouteRefresh => PacketType::RouteRefresh,
        }
    }

    /// Serializes this message's body, without its header, into a fresh
    /// big-endian scratch buffer, so the exact body length can be
    /// measured before the header is written.
    #[verifier::rlimit(50)]
    #[verifier::spinoff_prover]
    fn body_buffer(&self) -> (r: Result<Buffer, Error>)
        ensures
            enc_packet_body(self.deep_view()) matches Ok(b) ==> (r matches Ok(t) && t.data() == b
                && t.wf() && t.pos() == t.data().len()),
            enc_packet_body(self.deep_view()) matches Err(k) ==> (r matches Err(e) && e.kind()
                == k),
    {
        let be = ByteOrder::BigEndian;
        let mut temp = Buffer::empty(be);
        let ghost temp0 = temp;
        match self {
            Packet::Open(version, local_as, hold_time, identifier, params) => {
                temp.write_u8(*version);
                let ghost t1 = temp;
                temp.write_u16(*local_as);
                let ghost t2 = temp;
                temp.write_u16(*hold_time);
                let ghost t3 = temp;
                temp.write_u32(*identifier);
                let ghost fixed9 = seq![*version] + bytes_u16(be, *local_as) + bytes_u16(
                    be,
                    *hold_time,
                ) + bytes_u32(be, *identifier);
                proof {
                    lemma_wrote_trans(temp0, t1, t2, seq![*version], bytes_u16(be, *local_as));
                    lemma_wrote_trans(
                        temp0,
                        t2,
                        t3,
                        seq![*version] + bytes_u16(be, *local_as),
                        bytes_u16(be, *hold_time),
                    );
                    lemma_wrote_trans(
                        temp0,
                        t3,
                        temp,
                        seq![*version] + bytes_u16(be, *local_as) + bytes_u16(be, *hold_time),
                        bytes_u32(be, *identifier),
                    );
                    lemma_wrote_at_end(temp0, temp, fixed9);
                }
                let ghost params_v = params.deep_view();
                let mut temp_params = Buffer::empty(be);
                let mut i: usize = 0;
                proof {
                    assert(params_v.skip(0) =~= params_v);
                    match enc_opt_param_list(params_v) {
                        Ok(t) => { assert(temp_params.data() + t =~= t); },
                        Err(e) => {},
                    }
                }
                while i < params.len()
                    invariant
                        i <= params@.len(),
                        params_v == params.deep_view(),
                        params_v.len() == params@.len(),
                        self.deep_view() == PacketV::Open(
                            *version,
                            *local_as,
                            *hold_time,
                            *identifier,
                            params_v,
                        ),
                        temp.wf(),
                        temp.ord() == ByteOrder::BigEndian,
                        temp.pos() == temp.data().len(),
                        temp.data() == fixed9,
                        fixed9 == seq![*version] + bytes_u16(ByteOrder::BigEndian, *local_as)
                            + bytes_u16(ByteOrder::BigEndian, *hold_time) + bytes_u32(
                            ByteOrder::BigEndian,
                            *identifier,
                        ),
                        temp_params.wf(),
                        temp_params.ord() == ByteOrder::BigEndian,
                        temp_params.pos() == temp_params.data().len(),
                        enc_opt_param_list(params_v) == (match enc_opt_param_list(
                            params_v.skip(i as int),
                        ) {
                            Err(e) => Err::<Seq<u8>, ErrorType>(e),
                            Ok(t) => Ok(temp_params.data() + t),
                        }),
                    decreases params@.len() - i,
                {
                    proof {
                        assert(params_v.skip(i as int)[0] == params_v[i as int]);
                    }
                    let ghost pre = temp_params;
                    match params[i].write(&mut temp_params) {
                        Ok(u) => {},
                        Err(e) => {
                            return Err(e);
                        },
                    }
                    proof {
                        let b = crate::opt_params::enc_opt_param(params_v[i as int])->Ok_0;
                        lemma_wrote_at_end(pre, temp_params, b);
                        assert(params_v.skip(i as int).skip(1) =~= params_v.skip(i as int + 1));
                        match enc_opt_param_list(params_v.skip(i as int + 1)) {
                            Ok(t2) => {
                                assert(pre.data() + (b + t2) =~= (pre.data() + b) + t2);
                            },
                            Err(e2) => {},
                        }
                    }
                    i = i + 1;
                }
                proof {
                    assert(params_v.skip(params_v.len() as int) =~= Seq::<OptionalParameterV>::empty());
                    match enc_opt_param_list(params_v) {
                        Ok(t) => { assert(temp_params.data() + Seq::<u8>::empty() =~= temp_params.data()); },
                        Err(e) => {},
                    }
                }
                if temp_params.len() > 255 {
                    return Err(ErrorType::WriteError.err(
                        "unexpected optional parameters: together longer than the one-byte length allows",
                    ));
                }
                let params_len = temp_params.len() as u8;
                let ghost t4 = temp;
                temp.write_u8(params_len);
                let ghost t5 = temp;
                match temp_params.write_buffer(&mut temp) {
                    Ok(u) => {},
                    Err(e) => {
                        return Err(e);
                    },
                }
                proof {
                    lemma_wrote_trans(temp0, t4, t5, fixed9, seq![params_len]);
                    lemma_wrote_trans(temp0, t5, temp, fixed9 + seq![params_len], temp_params.data());
                    lemma_wrote_at_end(temp0, temp, fixed9 + seq![params_len] + temp_params.data());
                    assert(temp.data() =~= enc_packet_body(self.deep_view())->Ok_0);
                }
            },
            Packet::Update(withdrawn, nlri, attributes) => {
                let ghost w_v = withdrawn.deep_view();
                let ghost n_v = nlri.deep_view();
                let ghost a_v = attributes.deep_view();
                let mut wbuf = Buffer::empty(be);
                let mut i: usize = 0;
                proof {
                    assert(w_v.skip(0) =~= w_v);
                    assert(wbuf.data() + enc_prefix_list(w_v) =~= enc_prefix_list(w_v));
                }
                while i < withdrawn.len()
                    invariant
                        i <= withdrawn@.len(),
                        w_v == withdrawn.deep_view(),
                        w_v.len() == withdrawn@.len(),
                        wbuf.wf(),
                        wbuf.pos() == wbuf.data().len(),
                        enc_prefix_list(w_v) == wbuf.data() + enc_prefix_list(w_v.skip(i as int)),
                    decreases withdrawn@.len() - i,
                {
                    proof {
                        assert(w_v.skip(i as int)[0] == w_v[i as int]);
                    }
                    let ghost pre = wbuf;
                    match withdrawn[i].write(&mut wbuf) {
                        Ok(u) => {},
                        Err(e) => {
                            return Err(e);
                        },
                    }
                    proof {
                        let b = crate::prefix::enc_prefix(w_v[i as int]);
                        lemma_wrote_at_end(pre, wbuf, b);
                        assert(w_v.skip(i as int).skip(1) =~= w_v.skip(i as int + 1));
                        assert(pre.data() + (b + enc_prefix_list(w_v.skip(i as int + 1))) =~= (
                        pre.data() + b) + enc_prefix_list(w_v.skip(i as int + 1)));
                    }
                    i = i + 1;
                }
                proof {
                    assert(w_v.skip(w_v.len() as int) =~= Seq::<RoutePrefixV>::empty());
                    assert(wbuf.data() + Seq::<u8>::empty() =~= wbuf.data());
                    assert(wbuf.data() == enc_prefix_list(w_v));
                }
                if wbuf.len() > 65535 {
                    return Err(ErrorType::WriteError.err(
                        "unexpected withdrawn routes: together longer than the two-byte length allows",
                    ));
                }
                let wlen = wbuf.len() as u16;
                temp.write_u16(wlen);
                let ghost t1 = temp;
                match wbuf.write_buffer(&mut temp) {
                    Ok(u) => {},
                    Err(e) => {
                        return Err(e);
                    },
                }
                proof {
                    lemma_wrote_trans(temp0, t1, temp, bytes_u16(be, wlen), wbuf.data());
                    lemma_wrote_at_end(temp0, temp, bytes_u16(be, wlen) + wbuf.data());
                }
                let ghost sec1 = bytes_u16(be, wlen) + wbuf.data();
                let mut abuf = Buffer::empty(be);
                let mut j: usize = 0;
                proof {
                    assert(a_v.skip(0) =~= a_v);
                    match enc_attribute_list(a_v) {
                        Ok(t) => { assert(abuf.data() + t =~= t); },
                        Err(e) => {},
                    }
                }
                while j < attributes.len()
                    invariant
                        j <= attributes@.len(),
                        a_v == attributes.deep_view(),
                        a_v.len() == attributes@.len(),
                        self.deep_view() == PacketV::Update(w_v, n_v, a_v),
                        enc_prefix_list(w_v).len() <= 65535,
                        wlen == enc_prefix_list(w_v).len() as u16,
                        sec1 == bytes_u16(ByteOrder::BigEndian, wlen) + enc_prefix_list(w_v),
                        temp0.wf(),
                        temp0.data().len() == 0,
                        temp0.pos() == 0,
                        temp0.ord() == ByteOrder::BigEndian,
                        temp.wf(),
                        temp.ord() == ByteOrder::BigEndian,
                        temp.pos() == temp.data().len(),
                        temp.data() == sec1,
                        abuf.wf(),
                        abuf.ord() == ByteOrder::BigEndian,
                        abuf.pos() == abuf.data().len(),
                        enc_attribute_list(a_v) == (match enc_attribute_list(a_v.skip(j as int)) {
                            Err(e) => Err::<Seq<u8>, ErrorType>(e),
                            Ok(t) => Ok(abuf.data() + t),
                        }),
                    decreases attributes@.len() - j,
                {
                    proof {
                        assert(a_v.skip(j as int)[0] == a_v[j as int]);
                    }
                    let ghost pre = abuf;
                    match attributes[j].write(&mut abuf) {
                        Ok(u) => {},
                        Err(e) => {
                            return Err(e);
                        },
                    }
                    proof {
                        let b = crate::path_attr::enc_attribute(a_v[j as int])->Ok_0;
                        lemma_wrote_at_end(pre, abuf, b);
                        assert(a_v.skip(j as int).skip(1) =~= a_v.skip(j as int + 1));
                        match enc_attribute_list(a_v.skip(j as int + 1)) {
                            Ok(t2) => {
                                assert(pre.data() + (b + t2) =~= (pre.data() + b) + t2);
                            },
                            Err(e2) => {},
                        }
                    }
                    j = j + 1;
                }
                proof {
                    assert(a_v.skip(a_v.len() as int) =~= Seq::<AttributeV>::empty());
                    match enc_attribute_list(a_v) {
                        Ok(t) => { assert(abuf.data() + Seq::<u8>::empty() =~= abuf.data()); },
                        Err(e) => {},
                    }
                }
                if abuf.len() > 65535 {
                    return Err(ErrorType::WriteError.err(
                        "unexpected attributes: together longer than the two-byte length allows",
                    ));
                }
                let alen = abuf.len() as u16;
                let ghost t2a = temp;
                temp.write_u16(alen);
                let ghost t2 = temp;
                match abuf.write_buffer(&mut temp) {
                    Ok(u) => {},
                    Err(e) => {
                        return Err(e);
                    },
                }
                proof {
                    assert(wrote(temp0, t2a, sec1)) by {
                        assert(temp0.data() =~= Seq::<u8>::empty());
                        assert(temp0.data().subrange(0, 0) + sec1 + temp0.data().skip(0)
                            =~= sec1);
                    }
                    lemma_wrote_trans(temp0, t2a, t2, sec1, bytes_u16(be, alen));
                    lemma_wrote_trans(temp0, t2, temp, sec1 + bytes_u16(be, alen), abuf.data());
                    lemma_wrote_at_end(temp0, temp, sec1 + bytes_u16(be, alen) + abuf.data());
                }
                let ghost sec2 = sec1 + bytes_u16(be, alen) + abuf.data();
                let mut nbuf = Buffer::empty(be);
                let mut k: usize = 0;
                proof {
                    assert(n_v.skip(0) =~= n_v);
                    assert(nbuf.data() + enc_prefix_list(n_v) =~= enc_prefix_list(n_v));
                }
                while k < nlri.len()
                    invariant
                        k <= nlri@.len(),
                        n_v == nlri.deep_view(),
                        n_v.len() == nlri@.len(),
                        self.deep_view() == PacketV::Update(w_v, n_v, a_v),
                        enc_prefix_list(w_v).len() <= 65535,
                        wlen == enc_prefix_list(w_v).len() as u16,
                        sec1 == bytes_u16(ByteOrder::BigEndian, wlen) + enc_prefix_list(w_v),
                        enc_attribute_list(a_v) matches Ok(ab2) && ab2.len() <= 65535 && alen
                            == ab2.len() as u16,
                        sec2 == sec1 + bytes_u16(ByteOrder::BigEndian, alen) + enc_attribute_list(
                            a_v,
                        )->Ok_0,
                        temp0.wf(),
                        temp0.data().len() == 0,
                        temp0.pos() == 0,
                        temp0.ord() == ByteOrder::BigEndian,
                        temp.wf(),
                        temp.ord() == ByteOrder::BigEndian,
                        temp.pos() == temp.data().len(),
                        temp.data() == sec2,
                        nbuf.wf(),
                        nbuf.pos() == nbuf.data().len(),
                        enc_prefix_list(n_v) == nbuf.data() + enc_prefix_list(n_v.skip(k as int)),
                    decreases nlri@.len() - k,
                {
                    proof {
                        assert(n_v.skip(k as int)[0] == n_v[k as int]);
                    }
                    let ghost pre = nbuf;
                    match nlri[k].write(&mut nbuf) {
                        Ok(u) => {},
                        Err(e) => {
                            return Err(e);
                        },
                    }
                    proof {
                        let b = crate::prefix::enc_prefix(n_v[k as int]);
                        lemma_wrote_at_end(pre, nbuf, b);
                        assert(n_v.skip(k as int).skip(1) =~= n_v.skip(k as int + 1));
                        assert(pre.data() + (b + enc_prefix_list(n_v.skip(k as int + 1))) =~= (
                        pre.data() + b) + enc_prefix_list(n_v.skip(k as int + 1)));
                    }
                    k = k + 1;
                }
                proof {
                    assert(n_v.skip(n_v.len() as int) =~= Seq::<RoutePrefixV>::empty());
                    assert(nbuf.data() + Seq::<u8>::empty() =~= nbuf.data());
                    assert(nbuf.data() == enc_prefix_list(n_v));
                }
                if nbuf.len() > 65535 {
                    return Err(ErrorType::WriteError.err(
                        "unexpected reachability information: together longer than the two-byte length allows",
                    ));
                }
                let nlen = nbuf.len() as u16;
                let ghost t3a = temp;
                temp.write_u16(nlen);
                let ghost t3 = temp;
                match nbuf.write_buffer(&mut temp) {
                    Ok(u) => {},
                    Err(e) => {
                        return Err(e);
                    },
                }
                proof {
                    assert(wrote(temp0, t3a, sec2)) by {
                        assert(temp0.data() =~= Seq::<u8>::empty());
                        assert(temp0.data().subrange(0, 0) + sec2 + temp0.data().skip(0)
                            =~= sec2);
                    }
                    lemma_wrote_trans(temp0, t3a, t3, sec2, bytes_u16(be, nlen));
                    lemma_wrote_trans(temp0, t3, temp, sec2 + bytes_u16(be, nlen), nbuf.data());
                    lemma_wrote_at_end(temp0, temp, sec2 + bytes_u16(be, nlen) + nbuf.data());
                    assert(temp.data() =~= enc_packet_body(self.deep_view())->Ok_0);
                }
            },
            Packet::Notification(error_code, sub_code, data) => {
                temp.write_u8(error_code.to_u8());
                let ghost t1 = temp;
                temp.write_u8(*sub_code);
                let ghost t2 = temp;
                temp.write_bytes_vector(data);
                proof {
                    lemma_wrote_trans(temp0, t1, t2, seq![error_code.spec_to_u8()], seq![*sub_code]);
                    lemma_wrote_trans(
                        temp0,
                        t2,
                        temp,
                        seq![error_code.spec_to_u8()] + seq![*sub_code],
                        data@,
                    );
                    lemma_wrote_at_end(
                        temp0,
                        temp,
                        seq![error_code.spec_to_u8()] + seq![*sub_code] + data@,
                    );
                    assert(temp.data() =~= enc_packet_body(self.deep_view())->Ok_0);
                }
            },
            Packet::KeepAlive => {
                proof {
                    assert(temp.data() =~= enc_packet_body(self.deep_view())->Ok_0);
                }
            },
            Packet::RouteRefresh => {
                proof {
                    assert(temp.data() =~= enc_packet_body(self.deep_view())->Ok_0);
                }
            },
        }
        Ok(temp)
    }

    /// Writes the whole message: the body is serialized into a scratch
    /// buffer first so its exact length is known, then the header goes
    /// out with `length = 19 + body length`, then the body. On failure
    /// the destination buffer is left exactly as it was.
    pub fn write(&self, buffer: &mut Buffer) -> (r: Result<(), Error>)
        requires
            old(buffer).wf(),
        ensures
            enc_packet(old(buffer).ord(), self.deep_view()) matches Ok(b) ==> (r matches Ok(u)
                && wrote(*old(buffer), *final(buffer), b)),
            enc_packet(old(buffer).ord(), self.deep_view()) matches Err(k) ==> (r matches Err(e)
                && e.kind() == k && final(buffer).data() == old(buffer).data()
                && final(buffer).pos() == old(buffer).pos()
                && final(buffer).ord() == old(buffer).ord()),
    {
        let temp = match self.body_buffer() {
            Ok(t) => t,
            Err(e) => {
                return Err(e);
            },
        };
        if temp.len() > 65516 {
            return Err(ErrorType::WriteError.err(
                "unexpected message body: together with the header it outgrows the length field",
            ));
        }
        let header = BGPHeader::by_type(self.packet_type(), (temp.len() as u16) + 19);
        let ghost start = *buffer;
        match header.write(buffer) {
            Ok(u) => {},
            Err(e) => {
                return Err(e);
            },
        }
        let ghost mid = *buffer;
        let result = temp.write_buffer(buffer);
        proof {
            lemma_wrote_trans(
                start,
                mid,
                *buffer,
                enc_header(start.ord(), header.deep_view()),
                temp.data(),
            );
            assert(header.marker@ =~= marker_ff());
            assert(header.deep_view() =~= (HeaderV {
                marker: marker_ff(),
                length: (19 + temp.data().len()) as u16,
                ty: packet_type_of(self.deep_view()),
            }));
            assert(enc_header(start.ord(), header.deep_view()) + temp.data() == enc_packet(
                start.ord(),
                self.deep_view(),
            )->Ok_0);
        }
        result
    }

    /// The exact number of bytes this message encodes to, header
    /// included; fails exactly where encoding does.
    pub fn len(&self) -> (r: Result<usize, Error>)
        ensures
            enc_packet(ByteOrder::BigEndian, self.deep_view()) matches Ok(b) ==> (r matches Ok(n)
                && n == b.len()),
            enc_packet(ByteOrder::BigEndian, self.deep_view()) matches Err(k) ==> (r matches Err(e)
                && e.kind() == k),
    {
        let mut buffer = Buffer::empty(ByteOrder::BigEndian);
        match self.write(&mut buffer) {
            Ok(u) => Ok(buffer.len()),
            Err(e) => Err(e),
        }
    }

    /// Reads an Open body from a cursor holding exactly the body.
    fn read_open_body(body: &mut Buffer) -> (r: Result<Packet, Error>)
        requires
            old(body).wf(),
            old(body).pos() == 0,
            old(body).data().len() >= 10,
        ensures
            parse_open_body(old(body).ord(), old(body).data()) matches Ok(p) ==> (r matches Ok(pk)
                && pk.deep_view() == p),
            parse_open_body(old(body).ord(), old(body).data()) matches Err(k) ==> (r matches Err(e)
                && e.kind() == k),
    {
        let ghost bo = old(body).ord();
        let ghost full = old(body).data();
        proof {
            assert(body.rem() =~= full);
        }
        let version = match body.read_u8() {
            Ok(v) => v,
            Err(e) => { return Err(e); },
        };
        let local_as = match body.read_u16() {
            Ok(v) => v,
            Err(e) => { return Err(e); },
        };
        let hold_time = match body.read_u16() {
            Ok(v) => v,
            Err(e) => { return Err(e); },
        };
        let identifier = match body.read_u32() {
            Ok(v) => v,
            Err(e) => { return Err(e); },
        };
        let _nominal_params_len = match body.read_u8() {
            Ok(v) => v,
            Err(e) => { return Err(e); },
        };
        proof {
            assert(full.skip(1).take(2) =~= full.subrange(1, 3));
            assert(full.skip(3).take(2) =~= full.subrange(3, 5));
            assert(full.skip(5).take(4) =~= full.subrange(5, 9));
        }
        let mut opt_params: Vec<OptionalParameter> = Vec::new();
        proof {
            assert(body.rem() =~= full.skip(10));
            match parse_opt_param_list(bo, full.skip(10)) {
                Ok(rest) => { assert(opt_params.deep_view() + rest =~= rest); },
                Err(e) => {},
            }
        }
        while body.remaining() > 0
            invariant
                old(body).wf(),
                body.wf(),
                body.ord() == bo,
                bo == old(body).ord(),
                full == old(body).data(),
                full.len() >= 10,
                version == full[0],
                local_as == val_u16(bo, full.subrange(1, 3)),
                hold_time == val_u16(bo, full.subrange(3, 5)),
                identifier == val_u32(bo, full.subrange(5, 9)),
                parse_opt_param_list(bo, full.skip(10)) == (match parse_opt_param_list(
                    bo,
                    body.rem(),
                ) {
                    Err(e) => Err::<Seq<OptionalParameterV>, ErrorType>(e),
                    Ok(rest) => Ok(opt_params.deep_view() + rest),
                }),
            decreases body.rem().len(),
        {
            let ghost pre_rem = body.rem();
            let ghost pre = opt_params.deep_view();
            let param = match OptionalParameter::read(body) {
                Ok(p) => p,
                Err(e) => { return Err(e); },
            };
            opt_params.push(param);
            proof {
                let n = crate::opt_params::parse_opt_param(bo, pre_rem)->Ok_0.1;
                assert(body.rem() =~= pre_rem.skip(n));
                assert(opt_params.deep_view() =~= pre.push(param.deep_view()));
                match parse_opt_param_list(bo, pre_rem.skip(n)) {
                    Ok(rest2) => {
                        assert(pre + (seq![param.deep_view()] + rest2) =~= pre.push(
                            param.deep_view(),
                        ) + rest2);
                    },
                    Err(e2) => {},
                }
            }
        }
        proof {
            assert(body.rem().len() == 0);
            assert(opt_params.deep_view() + Seq::<OptionalParameterV>::empty()
                =~= opt_params.deep_view());
        }
        if hold_time != 0 && hold_time < 3 {
            return Err(ErrorType::BGPError(BGPError::open(OpenMessageError::UnacceptableHoldTime))
                .err("unacceptable hold time: it must be zero or at least three seconds"));
        }
        Ok(Packet::Open(version, local_as, hold_time, identifier, opt_params))
    }

    /// Reads an Update body from a cursor holding exactly the body.
    #[verifier::rlimit(50)]
    #[verifier::spinoff_prover]
    fn read_update_body(body: &mut Buffer) -> (r: Result<Packet, Error>)
        requires
            old(body).wf(),
            old(body).pos() == 0,
        ensures
            parse_update_body(old(body).ord(), old(body).data()) matches Ok(p) ==> (r matches Ok(
                pk,
            ) && pk.deep_view() == p),
            parse_update_body(old(body).ord(), old(body).data()) matches Err(k) ==> (r matches Err(
                e,
            ) && e.kind() == k),
    {
        let ghost bo = old(body).ord();
        let ghost full = old(body).data();
        proof {
            assert(body.rem() =~= full);
        }
        let wlen = match body.read_u16() {
            Ok(v) => v,
            Err(e) => { return Err(e); },
        };
        let mut wbuf = match Buffer::read_buffer(body, wlen as usize) {
            Ok(b) => b,
            Err(e) => { return Err(e); },
        };
        let ghost wfull = wbuf.data();
        proof {
            assert(full.skip(2).take(wlen as int) =~= full.subrange(2, 2 + wlen as int));
            assert(wfull =~= full.subrange(2, 2 + wlen as int));
        }
        let mut withdrawn: Vec<RoutePrefix> = Vec::new();
        proof {
            assert(wbuf.rem() =~= wfull);
            match parse_prefix_list(wfull) {
                Ok(rest) => { assert(withdrawn.deep_view() + rest =~= rest); },
                Err(e) => {},
            }
        }
        while wbuf.remaining() > 0
            invariant
                old(body).wf(),
                body.wf(),
                body.ord() == bo,
                bo == old(body).ord(),
                full == old(body).data(),
                body.pos() == 2 + wlen as int,
                full.len() >= 2 + wlen as int,
                wlen == val_u16(bo, full.take(2)),
                wfull == full.subrange(2, 2 + wlen as int),
                wbuf.wf(),
                wbuf.data() == wfull,
                parse_prefix_list(wfull) == (match parse_prefix_list(wbuf.rem()) {
                    Err(e) => Err::<Seq<RoutePrefixV>, ErrorType>(e),
                    Ok(rest) => Ok(withdrawn.deep_view() + rest),
                }),
            decreases wbuf.rem().len(),
        {
            let ghost pre_rem = wbuf.rem();
            let ghost pre = withdrawn.deep_view();
            let p = match RoutePrefix::read(&mut wbuf) {
                Ok(p) => p,
                Err(e) => { return Err(e); },
            };
            withdrawn.push(p);
            proof {
                let n = crate::prefix::parse_prefix(pre_rem)->Ok_0.1;
                assert(wbuf.rem() =~= pre_rem.skip(n));
                assert(withdrawn.deep_view() =~= pre.push(p.deep_view()));
                match parse_prefix_list(pre_rem.skip(n)) {
                    Ok(rest2) => {
                        assert(pre + (seq![p.deep_view()] + rest2) =~= pre.push(p.deep_view())
                            + rest2);
                    },
                    Err(e2) => {},
                }
            }
        }
        proof {
            assert(wbuf.rem().len() == 0);
            assert(withdrawn.deep_view() + Seq::<RoutePrefixV>::empty() =~= withdrawn.deep_view());
        }
        let ghost rest1 = full.skip(2 + wlen as int);
        proof {
            assert(body.rem() =~= rest1);
        }
        let alen = match body.read_u16() {
            Ok(v) => v,
            Err(e) => { return Err(e); },
        };
        let mut abuf = match Buffer::read_buffer(body, alen as usize) {
            Ok(b) => b,
            Err(e) => { return Err(e); },
        };
        let ghost afull = abuf.data();
        proof {
            assert(rest1.skip(2).take(alen as int) =~= rest1.subrange(2, 2 + alen as int));
            assert(afull =~= rest1.subrange(2, 2 + alen as int));
        }
        let mut attributes: Vec<Attribute> = Vec::new();
        proof {
            assert(abuf.rem() =~= afull);
            match parse_attribute_list(bo, afull) {
                Ok(rest) => { assert(attributes.deep_view() + rest =~= rest); },
                Err(e) => {},
            }
        }
        while abuf.remaining() > 0
            invariant
                old(body).wf(),
                body.wf(),
                body.ord() == bo,
                bo == old(body).ord(),
                full == old(body).data(),
                body.pos() == 4 + wlen as int + alen as int,
                full.len() >= 2 + wlen as int,
                wlen == val_u16(bo, full.take(2)),
                parse_prefix_list(full.subrange(2, 2 + wlen as int)) == Ok::<
                    Seq<RoutePrefixV>,
                    ErrorType,
                >(withdrawn.deep_view()),
                rest1 == full.skip(2 + wlen as int),
                rest1.len() >= 2 + alen as int,
                alen == val_u16(bo, rest1.take(2)),
                afull == rest1.subrange(2, 2 + alen as int),
                abuf.wf(),
                abuf.ord() == bo,
                abuf.data() == afull,
                parse_attribute_list(bo, afull) == (match parse_attribute_list(bo, abuf.rem()) {
                    Err(e) => Err::<Seq<AttributeV>, ErrorType>(e),
                    Ok(rest) => Ok(attributes.deep_view() + rest),
                }),
            decreases abuf.rem().len(),
        {
            let ghost pre_rem = abuf.rem();
            let ghost pre = attributes.deep_view();
            let a = match Attribute::read(&mut abuf) {
                Ok(a) => a,
                Err(e) => { return Err(e); },
            };
            attributes.push(a);
            proof {
                let n = crate::path_attr::parse_attribute(bo, pre_rem)->Ok_0.1;
                assert(abuf.rem() =~= pre_rem.skip(n));
                assert(attributes.deep_view() =~= pre.push(a.deep_view()));
                match parse_attribute_list(bo, pre_rem.skip(n)) {
                    Ok(rest2) => {
                        assert(pre + (seq![a.deep_view()] + rest2) =~= pre.push(a.deep_view())
                            + rest2);
                    },
                    Err(e2) => {},
                }
            }
        }
        proof {
            assert(abuf.rem().len() == 0);
            assert(attributes.deep_view() + Seq::<AttributeV>::empty() =~= attributes.deep_view());
        }
        let ghost rest2 = rest1.skip(2 + alen as int);
        proof {
            assert(body.rem() =~= rest2);
        }
        let nlen = match body.read_u16() {
            Ok(v) => v,
            Err(e) => { return Err(e); },
        };
        let mut nbuf = match Buffer::read_buffer(body, nlen as usize) {
            Ok(b) => b,
            Err(e) => { return Err(e); },
        };
        let ghost nfull = nbuf.data();
        proof {
            assert(rest2.skip(2).take(nlen as int) =~= rest2.subrange(2, 2 + nlen as int));
            assert(nfull =~= rest2.subrange(2, 2 + nlen as int));
        }
        let mut nlri: Vec<RoutePrefix> = Vec::new();
        proof {
            assert(nbuf.rem() =~= nfull);
            match parse_prefix_list(nfull) {
                Ok(rest) => { assert(nlri.deep_view() + rest =~= rest); },
                Err(e) => {},
            }
        }
        while nbuf.remaining() > 0
            invariant
                old(body).wf(),
                bo == old(body).ord(),
                full == old(body).data(),
                full.len() >= 2 + wlen as int,
                wlen == val_u16(bo, full.take(2)),
                parse_prefix_list(full.subrange(2, 2 + wlen as int)) == Ok::<
                    Seq<RoutePrefixV>,
                    ErrorType,
                >(withdrawn.deep_view()),
                rest1 == full.skip(2 + wlen as int),
                rest1.len() >= 2 + alen as int,
                alen == val_u16(bo, rest1.take(2)),
                parse_attribute_list(bo, rest1.subrange(2, 2 + alen as int)) == Ok::<
                    Seq<AttributeV>,
                    ErrorType,
                >(attributes.deep_view()),
                rest2 == rest1.skip(2 + alen as int),
                rest2.len() >= 2 + nlen as int,
                nlen == val_u16(bo, rest2.take(2)),
                nfull == rest2.subrange(2, 2 + nlen as int),
                nbuf.wf(),
                nbuf.data() == nfull,
                parse_prefix_list(nfull) == (match parse_prefix_list(nbuf.rem()) {
                    Err(e) => Err::<Seq<RoutePrefixV>, ErrorType>(e),
                    Ok(rest) => Ok(nlri.deep_view() + rest),
                }),
            decreases nbuf.rem().len(),
        {
            let ghost pre_rem = nbuf.rem();
            let ghost pre = nlri.deep_view();
            let p = match RoutePrefix::read(&mut nbuf) {
                Ok(p) => p,
                Err(e) => { return Err(e); },
            };
            nlri.push(p);
            proof {
                let n = crate::prefix::parse_prefix(pre_rem)->Ok_0.1;
                assert(nbuf.rem() =~= pre_rem.skip(n));
                assert(nlri.deep_view() =~= pre.push(p.deep_view()));
                match parse_prefix_list(pre_rem.skip(n)) {
                    Ok(rest3) => {
                        assert(pre + (seq![p.deep_view()] + rest3) =~= pre.push(p.deep_view())
                            + rest3);
                    },
                    Err(e2) => {},
                }
            }
        }
        proof {
            assert(nbuf.rem().len() == 0);
            assert(nlri.deep_view() + Seq::<RoutePrefixV>::empty() =~= nlri.deep_view());
        }
        Ok(Packet::Update(withdrawn, nlri, attributes))
    }

    /// Reads a Notification body from a cursor holding exactly the body.
    fn read_notification_body(body: &mut Buffer) -> (r: Result<Packet, Error>)
        requires
            old(body).wf(),
            old(body).pos() == 0,
            old(body).data().len() >= 2,
        ensures
            r matches Ok(pk) && pk.deep_view() == parse_notification_body(old(body).data()),
    {
        let ghost full = old(body).data();
        proof {
            assert(body.rem() =~= full);
        }
        let code = match body.read_u8() {
            Ok(v) => v,
            Err(e) => { return Err(e); },
        };
        let sub_code = match body.read_u8() {
            Ok(v) => v,
            Err(e) => { return Err(e); },
        };
        let trailer = body.remaining();
        let data = match body.read_bytes_vector(trailer) {
            Ok(v) => v,
            Err(e) => { return Err(e); },
        };
        proof {
            assert(full.skip(1)[0] == full[1]);
            assert(full.skip(2).take(full.len() - 2) =~= full.skip(2));
        }
        Ok(Packet::Notification(ErrorCode::from_u8(code), sub_code, data))
    }

    /// Reads one whole message: a validated header, then the body parsed
    /// per the header's type out of a bounded sub-cursor, so a
    /// misbehaving body parse can never consume more than the header
    /// declared.
    pub fn read(buffer: &mut Buffer) -> (r: Result<Packet, Error>)
        requires
            old(buffer).wf(),
        ensures
            final(buffer).wf(),
            final(buffer).data() == old(buffer).data(),
            final(buffer).ord() == old(buffer).ord(),
            parse_packet(old(buffer).ord(), old(buffer).rem()) matches Ok(pn) ==> (r matches Ok(p)
                && p.deep_view() == pn.0 && final(buffer).pos() == old(buffer).pos() + pn.1),
            parse_packet(old(buffer).ord(), old(buffer).rem()) matches Err(k) ==> (r matches Err(e)
                && e.kind() == k),
    {
        proof {
            reveal(parse_packet);
        }
        let ghost bo = old(buffer).ord();
        let ghost s = old(buffer).rem();
        let header = match BGPHeader::read(buffer) {
            Ok(h) => h,
            Err(e) => { return Err(e); },
        };
        proof {
            assert(header.length >= 19);
            assert(header.length as int <= s.len());
        }
        let mut body = match Buffer::read_buffer(buffer, (header.length as usize) - 19) {
            Ok(b) => b,
            Err(e) => { return Err(e); },
        };
        let ghost full = body.data();
        proof {
            assert(s.skip(19).take(header.length as int - 19) =~= s.subrange(
                19,
                header.length as int,
            ));
            assert(full =~= s.subrange(19, header.length as int));
        }
        match header.ty {
            PacketType::Open => {
                proof {
                    assert(header.length >= 29);
                }
                match Packet::read_open_body(&mut body) {
                    Ok(p) => Ok(p),
                    Err(e) => Err(e),
                }
            },
            PacketType::Update => {
                proof {
                    assert(header.length >= 23);
                }
                match Packet::read_update_body(&mut body) {
                    Ok(p) => Ok(p),
                    Err(e) => Err(e),
                }
            },
            PacketType::Notification => {
                proof {
                    assert(header.length >= 21);
                }
                match Packet::read_notification_body(&mut body) {
                    Ok(p) => Ok(p),
                    Err(e) => Err(e),
                }
            },
            PacketType::KeepAlive => Ok(Packet::KeepAlive),
            PacketType::RouteRefresh => Ok(Packet::RouteRefresh),
            PacketType::Unexpected => Err(ErrorType::ReadError.err(
                "unexpected message type: it cannot be parsed",
            )),
        }
    }
}


/// A successful message parse consumes the header's declared length: at
/// least the 19 header bytes, and never more than the cursor held.
pub proof fn lemma_parse_packet_consumes(bo: ByteOrder, s: Seq<u8>)
    requires
        parse_packet(bo, s) matches Ok(pn),
    ensures
        parse_packet(bo, s) matches Ok(pn) ==> 19 <= pn.1 <= s.len(),
{
    reveal(parse_packet);
}

/// Reads whole messages from a chunk until it is exhausted: at least 19
/// bytes must remain to start another message, and a leftover shorter
/// than that is an error, never silently dropped.
pub open spec fn parse_chunk(bo: ByteOrder, s: Seq<u8>) -> Result<Seq<PacketV>, ErrorType>
    decreases s.len(),
    via parse_chunk_decreases
{
    if s.len() == 0 {
        Ok(seq![])
    } else if s.len() < 19 {
        Err(ErrorType::ReadError)
    } else {
        match parse_packet(bo, s) {
            Err(e) => Err(e),
            Ok((p, n)) => match parse_chunk(bo, s.skip(n)) {
                Err(e) => Err(e),
                Ok(rest) => Ok(seq![p] + rest),
            },
        }
    }
}

#[via_fn]
proof fn parse_chunk_decreases(bo: ByteOrder, s: Seq<u8>) {
    reveal(parse_packet);
    if s.len() >= 19 {
        match parse_packet(bo, s) {
            Ok(pn) => {
                lemma_parse_packet_consumes(bo, s);
            },
            Err(e) => {},
        }
    }
}

/// The wire layout of a run of messages, back to back, stopping at the
/// first that cannot be encoded.
pub open spec fn enc_packet_seq(bo: ByteOrder, ps: Seq<PacketV>) -> Result<Seq<u8>, ErrorType>
    decreases ps.len(),
{
    if ps.len() == 0 {
        Ok(seq![])
    } else {
        match enc_packet(bo, ps[0]) {
            Err(e) => Err(e),
            Ok(head) => match enc_packet_seq(bo, ps.skip(1)) {
                Err(e) => Err(e),
                Ok(tail) => Ok(head + tail),
            },
        }
    }
}

impl Packet {
    /// Decodes every complete message in one received chunk, in
    /// big-endian wire order. Fails if any message fails to decode or if
    /// bytes too few for another message remain at the end: the caller
    /// must hand in whole messages, not fragments.
    #[verifier::rlimit(100)]
    #[verifier::spinoff_prover]
    pub fn receive(bytes: Vec<u8>) -> (r: Result<Vec<Packet>, Error>)
        ensures
            parse_chunk(ByteOrder::BigEndian, bytes@) matches Ok(ps) ==> (r matches Ok(v)
                && v.deep_view() == ps),
            parse_chunk(ByteOrder::BigEndian, bytes@) matches Err(k) ==> (r matches Err(e)
                && e.kind() == k),
    {
        let ghost bo = ByteOrder::BigEndian;
        let ghost full = bytes@;
        let mut buffer = Buffer::from_vec(bytes, ByteOrder::BigEndian);
        let mut packets: Vec<Packet> = Vec::new();
        proof {
            assert(buffer.rem() =~= full);
            match parse_chunk(bo, full) {
                Ok(rest) => { assert(packets.deep_view() + rest =~= rest); },
                Err(e) => {},
            }
        }
        while buffer.remaining() >= 19
            invariant
                buffer.wf(),
                buffer.ord() == ByteOrder::BigEndian,
                bo == ByteOrder::BigEndian,
                full == bytes@,
                parse_chunk(bo, full) == (match parse_chunk(bo, buffer.rem()) {
                    Err(e) => Err::<Seq<PacketV>, ErrorType>(e),
                    Ok(rest) => Ok(packets.deep_view() + rest),
                }),
            decreases buffer.rem().len(),
        {
            let ghost pre_rem = buffer.rem();
            let ghost pre = packets.deep_view();
            let p = match Packet::read(&mut buffer) {
                Ok(p) => p,
                Err(e) => {
                    proof {
                        assert(pre_rem.len() >= 19);
                        match parse_packet(bo, pre_rem) {
                            Err(k) => {
                                assert(parse_chunk(bo, pre_rem) == Err::<Seq<PacketV>, ErrorType>(
                                    k,
                                ));
                            },
                            Ok(pn) => {},
                        }
                    }
                    return Err(e);
                },
            };
            packets.push(p);
            proof {
                let n = parse_packet(bo, pre_rem)->Ok_0.1;
                lemma_parse_packet_consumes(bo, pre_rem);
                assert(buffer.rem() =~= pre_rem.skip(n));
                assert(packets.deep_view() =~= pre.push(p.deep_view()));
                match parse_chunk(bo, pre_rem.skip(n)) {
                    Ok(rest2) => {
                        assert(pre + (seq![p.deep_view()] + rest2) =~= pre.push(p.deep_view())
                            + rest2);
                    },
                    Err(e2) => {},
                }
            }
        }
        if buffer.remaining() > 0 {
            return Err(ErrorType::ReadError.err(
                "bytes remain after the last complete message of the chunk",
            ));
        }
        proof {
            assert(packets.deep_view() + Seq::<PacketV>::empty() =~= packets.deep_view());
        }
        Ok(packets)
    }

    /// Encodes a run of messages into the exact bytes to transmit, back
    /// to back, in big-endian wire order. Any encoding failure is
    /// reported as a write error.
    pub fn send(packets: &Vec<Packet>) -> (r: Result<Vec<u8>, Error>)
        ensures
            enc_packet_seq(ByteOrder::BigEndian, packets.deep_view()) matches Ok(b) ==> (r matches
                Ok(v) && v@ == b),
            enc_packet_seq(ByteOrder::BigEndian, packets.deep_view()) is Err ==> (r matches Err(e)
                && e.kind() == ErrorType::WriteError),
    {
        let ghost bo = ByteOrder::BigEndian;
        let ghost ps = packets.deep_view();
        let mut buffer = Buffer::empty(ByteOrder::BigEndian);
        let mut i: usize = 0;
        proof {
            assert(ps.skip(0) =~= ps);
            match enc_packet_seq(bo, ps) {
                Ok(t) => { assert(buffer.data() + t =~= t); },
                Err(e) => {},
            }
        }
        while i < packets.len()
            invariant
                i <= packets@.len(),
                ps == packets.deep_view(),
                ps.len() == packets@.len(),
                bo == ByteOrder::BigEndian,
                buffer.wf(),
                buffer.ord() == ByteOrder::BigEndian,
                buffer.pos() == buffer.data().len(),
                enc_packet_seq(bo, ps) == (match enc_packet_seq(bo, ps.skip(i as int)) {
                    Err(e) => Err::<Seq<u8>, ErrorType>(e),
                    Ok(t) => Ok(buffer.data() + t),
                }),
            decreases packets@.len() - i,
        {
            proof {
                assert(ps.skip(i as int)[0] == ps[i as int]);
            }
            let ghost pre = buffer;
            match packets[i].write(&mut buffer) {
                Ok(u) => {},
                Err(e) => {
                    return Err(ErrorType::WriteError.err(
                        "a message could not be encoded for sending",
                    ));
                },
            }
            proof {
                let b = enc_packet(bo, ps[i as int])->Ok_0;
                lemma_wrote_at_end(pre, buffer, b);
                assert(ps.skip(i as int).skip(1) =~= ps.skip(i as int + 1));
                match enc_packet_seq(bo, ps.skip(i as int + 1)) {
                    Ok(t2) => {
                        assert(pre.data() + (b + t2) =~= (pre.data() + b) + t2);
                    },
                    Err(e2) => {},
                }
            }
            i = i + 1;
        }
        proof {
            assert(ps.skip(ps.len() as int) =~= Seq::<PacketV>::empty());
            match enc_packet_seq(bo, ps) {
                Ok(t) => { assert(buffer.data() + Seq::<u8>::empty() =~= buffer.data()); },
                Err(e) => {},
            }
        }
        Ok(buffer.into_bytes())
    }
}

} // verus!
