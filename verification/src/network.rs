//! The BACnet network layer (NPDU). Only what local, single-segment
//! peers need is implemented: version 1, a control octet carrying the
//! priority and the expecting-reply flag, and the payload. Routed
//! messages, foreign sources and destinations, and network-layer
//! messages are refused as unsupported.

use vstd::prelude::*;

verus! {

/// A request handed down to the network layer for encoding.
#[derive(Debug, PartialEq)]
pub struct NetworkRequest {
    pub data: Vec<u8>,
    pub network_priority: u8,
    pub data_expecting_reply: bool,
}

/// The result of decoding an NPDU: the payload handed up to the
/// application layer together with the network control information.
#[derive(Debug, PartialEq)]
pub struct NetworkIndication {
    pub data: Vec<u8>,
    pub network_priority: u8,
    pub data_expecting_reply: bool,
}

/// Why an NPDU was refused.
#[derive(Debug, PartialEq, Eq, Structural, Clone, Copy)]
pub enum NetworkError {
    /// Syntactically plausible, but outside the local-network profile:
    /// wrong version, a network-layer message, or foreign addressing.
    Unsupported,
    /// The buffer ended before the two header octets were read.
    InputEndedBeforeParsingCompleted,
}

impl NetworkRequest {
    /// Construct a network request for the given data expecting no reply.
    pub fn noreply(data: Vec<u8>) -> (req: NetworkRequest)
        ensures
            req.data == data,
            req.network_priority == 0,
            !req.data_expecting_reply,
    {
        NetworkRequest { data, network_priority: 0, data_expecting_reply: false }
    }

    /// Construct a network request for the given data expecting a reply.
    pub fn expect_reply(data: Vec<u8>) -> (req: NetworkRequest)
        ensures
            req.data == data,
            req.network_priority == 0,
            req.data_expecting_reply,
    {
        NetworkRequest { data, network_priority: 0, data_expecting_reply: true }
    }
}

/// The control octet of a local NPDU: bit 2 is the expecting-reply flag
/// and bits 0 and 1 are the network priority. All other bits are zero
/// for this profile.
pub open spec fn npdu_control(priority: u8, expecting_reply: bool) -> u8
    recommends
        priority <= 3,
{
    (priority + if expecting_reply {
        4u8
    } else {
        0u8
    }) as u8
}

/// The octets of an encoded NPDU: the version octet `0x01`, the control
/// octet, then the payload.
pub open spec fn enc_npdu(priority: u8, expecting_reply: bool, data: Seq<u8>) -> Seq<u8> {
    seq![1u8, npdu_control(priority, expecting_reply)] + data
}

/// What decoding an NPDU yields: payload, priority and reply flag, or
/// the error.
pub open spec fn sp_npdu_decode(s: Seq<u8>) -> Result<(Seq<u8>, u8, bool), NetworkError> {
    if s.len() < 2 {
        Err(NetworkError::InputEndedBeforeParsingCompleted)
    } else if s[0] != 1 {
        Err(NetworkError::Unsupported)
    } else if s[1] & 0x80 != 0 {
        Err(NetworkError::Unsupported)
    } else if s[1] & 0x20 != 0 {
        Err(NetworkError::Unsupported)
    } else if s[1] & 0x08 != 0 {
        Err(NetworkError::Unsupported)
    } else {
        Ok((s.skip(2), s[1] & 0x03, s[1] & 0x04 != 0))
    }
}

/// Encode a network request for transmission on a local network.
///
/// The caller must keep the priority within its two-bit field; handing
/// in a larger one is a programming error.
pub fn encode(request: NetworkRequest, into: &mut Vec<u8>)
    requires
        request.network_priority <= 3,
    ensures
        final(into)@ == old(into)@ + enc_npdu(
            request.network_priority,
            request.data_expecting_reply,
            request.data@,
        ),
{
    into.push(0x01);
    let reply_flag: u8 = if request.data_expecting_reply {
        4
    } else {
        0
    };
    into.push(request.network_priority + reply_flag);
    let mut data = request.data;
    into.append(&mut data);
    proof {
        assert(final(into)@ =~= old(into)@ + enc_npdu(
            request.network_priority,
            request.data_expecting_reply,
            request.data@,
        ));
    }
}

/// Decode an NPDU into a network indication.
pub fn decode(data: &[u8]) -> (res: Result<NetworkIndication, NetworkError>)
    ensures
        match res {
            Ok(ind) => sp_npdu_decode(data@) == Ok::<_, NetworkError>(
                (ind.data@, ind.network_priority, ind.data_expecting_reply),
            ),
            Err(e) => sp_npdu_decode(data@) == Err::<(Seq<u8>, u8, bool), _>(e),
        },
{
    if data.len() < 2 {
        return Err(NetworkError::InputEndedBeforeParsingCompleted);
    }
    let version = *vstd::slice::slice_index_get(data, 0);
    let control = *vstd::slice::slice_index_get(data, 1);
    if version != 1 {
        return Err(NetworkError::Unsupported);
    }
    if control & 0x80 != 0 {
        return Err(NetworkError::Unsupported);
    }
    if control & 0x20 != 0 {
        return Err(NetworkError::Unsupported);
    }
    if control & 0x08 != 0 {
        return Err(NetworkError::Unsupported);
    }
    let payload = vstd::slice::slice_subrange(data, 2, data.len());
    Ok(
        NetworkIndication {
            data: vstd::slice::slice_to_vec(payload),
            network_priority: control & 0x03,
            data_expecting_reply: control & 0x04 != 0,
        },
    )
}

/// In the control octet of an encoded local NPDU, bits 3 through 7 are
/// all zero: no network-layer message, no addressing specifiers, no
/// hop count.
pub proof fn lemma_npdu_control_bits(priority: u8, expecting_reply: bool)
    requires
        priority <= 3,
    ensures
        npdu_control(priority, expecting_reply) & 0x80 == 0,
        npdu_control(priority, expecting_reply) & 0x40 == 0,
        npdu_control(priority, expecting_reply) & 0x20 == 0,
        npdu_control(priority, expecting_reply) & 0x10 == 0,
        npdu_control(priority, expecting_reply) & 0x08 == 0,
{
    let c = npdu_control(priority, expecting_reply);
    assert(c == priority || c == (priority + 4) as u8);
    assert(priority <= 3 ==> priority & 0x80 == 0 && priority & 0x40 == 0 && priority & 0x20 == 0
        && priority & 0x10 == 0 && priority & 0x08 == 0) by (bit_vector);
    assert(priority <= 3 ==> (priority + 4) as u8 & 0x80 == 0 && (priority + 4) as u8 & 0x40 == 0
        && (priority + 4) as u8 & 0x20 == 0 && (priority + 4) as u8 & 0x10 == 0 && (priority
        + 4) as u8 & 0x08 == 0) by (bit_vector);
}

/// Decoding an encoded local NPDU yields back the payload, priority and
/// reply flag it was built from.
pub proof fn lemma_npdu_round_trip(priority: u8, expecting_reply: bool, data: Seq<u8>)
    requires
        priority <= 3,
    ensures
        sp_npdu_decode(enc_npdu(priority, expecting_reply, data)) == Ok::<_, NetworkError>(
            (data, priority, expecting_reply),
        ),
{
    let s = enc_npdu(priority, expecting_reply, data);
    let c = npdu_control(priority, expecting_reply);
    lemma_npdu_control_bits(priority, expecting_reply);
    assert(priority <= 3 ==> priority & 0x03 == priority && priority & 0x04 == 0) by (bit_vector);
    assert(priority <= 3 ==> (priority + 4) as u8 & 0x03 == priority && (priority + 4) as u8 & 0x04
        != 0) by (bit_vector);
    assert(s.skip(2) =~= data);
}

} // verus!
