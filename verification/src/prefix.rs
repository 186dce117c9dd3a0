//! The CIDR-style IPv4 route prefix: a length in bits followed by just the
//! significant bytes, `ceil(bits / 8)` of them. The unused low-order bits
//! of the final byte pass through the codec unchanged.

use vstd::prelude::*;
use crate::error::{Error, ErrorType};
use crate::io::{wrote, Buffer};
use crate::io::lemma_wrote_trans;

verus! {

/// A route prefix as carried in the withdrawn-routes and NLRI sections of
/// an Update message.
#[derive(Clone, PartialEq, Eq, Debug, Hash)]
pub enum RoutePrefix {
    /// Length in bits, then the significant bytes. A well-formed prefix
    /// carries exactly `ceil(bits / 8)` bytes.
    IPv4(u8, Vec<u8>),
}

/// The mathematical shape of a route prefix.
#[verifier::ext_equal]
pub enum RoutePrefixV {
    IPv4(u8, Seq<u8>),
}

impl DeepView for RoutePrefix {
    type V = RoutePrefixV;

    open spec fn deep_view(&self) -> RoutePrefixV {
        match self {
            RoutePrefix::IPv4(bits, data) => RoutePrefixV::IPv4(*bits, data@),
        }
    }
}

/// How many significant bytes a prefix of `bits` bits occupies.
pub open spec fn prefix_byte_len(bits: u8) -> int {
    (bits + 7) / 8
}

/// Whether a prefix carries exactly the bytes its bit length calls for;
/// only such a prefix survives a decode of its own encoding unchanged.
pub open spec fn wf_prefix(p: RoutePrefixV) -> bool {
    match p {
        RoutePrefixV::IPv4(bits, data) => data.len() == prefix_byte_len(bits),
    }
}

/// The wire layout of a prefix: the bit length, then the significant bytes
/// as they are.
pub open spec fn enc_prefix(p: RoutePrefixV) -> Seq<u8> {
    match p {
        RoutePrefixV::IPv4(bits, data) => seq![bits] + data,
    }
}

/// Reads one prefix from the front of `s`: the bit-length byte, then
/// exactly `ceil(bits / 8)` bytes.
pub open spec fn parse_prefix(s: Seq<u8>) -> Result<(RoutePrefixV, int), ErrorType> {
    if s.len() < 1 {
        Err(ErrorType::ReadError)
    } else {
        let bits = s[0];
        let nb = prefix_byte_len(bits);
        if s.len() < 1 + nb {
            Err(ErrorType::ReadError)
        } else {
            Ok((RoutePrefixV::IPv4(bits, s.subrange(1, 1 + nb)), 1 + nb))
        }
    }
}

/// Reads prefixes from `s` until it is exhausted, as the decoder of a
/// length-prefixed section does.
pub open spec fn parse_prefix_list(s: Seq<u8>) -> Result<Seq<RoutePrefixV>, ErrorType>
    decreases s.len(),
{
    if s.len() == 0 {
        Ok(seq![])
    } else {
        match parse_prefix(s) {
            Err(e) => Err(e),
            Ok((p, n)) => match parse_prefix_list(s.skip(n)) {
                Err(e) => Err(e),
                Ok(rest) => Ok(seq![p] + rest),
            },
        }
    }
}

/// The wire layout of a whole prefix section: each prefix in order.
pub open spec fn enc_prefix_list(ps: Seq<RoutePrefixV>) -> Seq<u8>
    decreases ps.len(),
{
    if ps.len() == 0 {
        seq![]
    } else {
        enc_prefix(ps[0]) + enc_prefix_list(ps.skip(1))
    }
}

/// Decoding an encoded well-formed prefix gives the prefix back and
/// consumes exactly its bytes, whatever follows it.
pub proof fn lemma_prefix_round_trip(p: RoutePrefixV, rest: Seq<u8>)
    requires
        wf_prefix(p),
    ensures
        parse_prefix(enc_prefix(p) + rest) == Ok::<_, ErrorType>(
            (p, enc_prefix(p).len() as int),
        ),
{
    let s = enc_prefix(p) + rest;
    match p {
        RoutePrefixV::IPv4(bits, data) => {
            assert(s[0] == bits);
            assert(s.subrange(1, 1 + prefix_byte_len(bits)) =~= data);
        },
    }
}

/// Decoding an encoded section of well-formed prefixes gives the same
/// prefixes back.
pub proof fn lemma_prefix_list_round_trip(ps: Seq<RoutePrefixV>)
    requires
        forall|i: int| 0 <= i < ps.len() ==> wf_prefix(#[trigger] ps[i]),
    ensures
        parse_prefix_list(enc_prefix_list(ps)) == Ok::<_, ErrorType>(ps),
    decreases ps.len(),
{
    if ps.len() == 0 {
        assert(parse_prefix_list(enc_prefix_list(ps)) == Ok::<_, ErrorType>(Seq::<
            RoutePrefixV,
        >::empty()));
        assert(ps =~= Seq::<RoutePrefixV>::empty());
    } else {
        let s = enc_prefix_list(ps);
        let head = enc_prefix(ps[0]);
        let tail = enc_prefix_list(ps.skip(1));
        lemma_prefix_round_trip(ps[0], tail);
        assert(s == head + tail);
        assert(s.len() > 0) by {
            assert(head.len() >= 1) by {
                match ps[0] {
                    RoutePrefixV::IPv4(bits, data) => {},
                }
            }
        }
        assert(parse_prefix(s) == Ok::<_, ErrorType>((ps[0], head.len() as int)));
        assert(s.skip(head.len() as int) =~= tail);
        lemma_prefix_list_round_trip(ps.skip(1));
        assert(seq![ps[0]] + ps.skip(1) =~= ps);
    }
}

impl RoutePrefix {
    /// Writes the bit length, then the significant bytes as they are.
    pub fn write(&self, buffer: &mut Buffer) -> (r: Result<(), Error>)
        requires
            old(buffer).wf(),
        ensures
            r matches Ok(u),
            wrote(*old(buffer), *final(buffer), enc_prefix(self.deep_view())),
    {
        match self {
            RoutePrefix::IPv4(prefix_length, prefix) => {
                let ghost start = *buffer;
                buffer.write_u8(*prefix_length);
                let ghost mid = *buffer;
                buffer.write_bytes_vector(prefix);
                proof {
                    lemma_wrote_trans(start, mid, *buffer, seq![*prefix_length], prefix@);
                    assert(seq![*prefix_length] + prefix@ =~= enc_prefix(self.deep_view()));
                }
            },
        }
        Ok(())
    }

    /// Reads the bit length, then exactly `ceil(bits / 8)` bytes.
    pub fn read(buffer: &mut Buffer) -> (r: Result<RoutePrefix, Error>)
        requires
            old(buffer).wf(),
        ensures
            final(buffer).wf(),
            final(buffer).data() == old(buffer).data(),
            final(buffer).ord() == old(buffer).ord(),
            parse_prefix(old(buffer).rem()) matches Ok(pn) ==> (r matches Ok(p)
                && p.deep_view() == pn.0 && final(buffer).pos() == old(buffer).pos() + pn.1),
            parse_prefix(old(buffer).rem()) matches Err(k) ==> (r matches Err(e) && e.kind() == k),
    {
        let prefix_length = match buffer.read_u8() {
            Ok(v) => v,
            Err(e) => { return Err(e); },
        };
        let byte_count = (prefix_length as usize + 7) / 8;
        let data = match buffer.read_bytes_vector(byte_count) {
            Ok(v) => v,
            Err(e) => { return Err(e); },
        };
        Ok(RoutePrefix::IPv4(prefix_length, data))
    }
}

} // verus!
