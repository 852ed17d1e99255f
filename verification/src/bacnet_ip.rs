//! BACnet/IP: the virtual link layer that carries BACnet over UDP.
//! A frame is a four-octet header — the magic octet `0x81`, a function
//! code, and a 16-bit big-endian length covering the whole frame —
//! followed by the payload. Only function `0x0A` (Original-Unicast-NPDU)
//! is supported, which is all a single-segment BACnet/IP network needs.

use vstd::prelude::*;

verus! {

/// The frame length field is 16 bits and counts the four header octets,
/// so a payload may be at most this long.
pub const MAX_VLL_PAYLOAD: usize = 0xFFFB;

/// Virtual link layer messages.
#[derive(Debug, PartialEq)]
pub enum VLLFrame {
    /// An NPDU addressed to a single peer.
    OriginalUnicastNPDU(Vec<u8>),
}

/// Why a received datagram was refused by the virtual link layer.
#[derive(Debug, PartialEq, Eq, Structural, Clone, Copy)]
pub enum VllError {
    /// The octets are inconsistent with the framing: too short, wrong
    /// magic octet, or a length field that contradicts the buffer.
    InvalidData,
    /// A well-formed frame with a function this profile does not carry.
    Unsupported,
}

/// The codec for BACnet/IP datagrams.
pub struct BipCodec;

/// The payload carried by a frame.
pub open spec fn vll_payload(frame: VLLFrame) -> Seq<u8> {
    match frame {
        VLLFrame::OriginalUnicastNPDU(data) => data@,
    }
}

/// The octets of an encoded Original-Unicast-NPDU frame: magic, function
/// `0x0A`, the 16-bit big-endian total length, then the payload.
pub open spec fn enc_vll(payload: Seq<u8>) -> Seq<u8>
    recommends
        payload.len() + 4 <= 0xFFFF,
{
    seq![
        0x81u8,
        0x0Au8,
        (((payload.len() + 4) as int / 256) as u8),
        (((payload.len() + 4) as int % 256) as u8),
    ] + payload
}

/// What decoding a datagram yields: the payload of an
/// Original-Unicast-NPDU, or the error.
pub open spec fn sp_vll_decode(s: Seq<u8>) -> Result<Seq<u8>, VllError> {
    if s.len() < 4 {
        Err(VllError::InvalidData)
    } else if s[0] != 0x81 {
        Err(VllError::InvalidData)
    } else if s[2] * 256 + s[3] != s.len() {
        Err(VllError::InvalidData)
    } else if s[1] != 0x0A {
        Err(VllError::Unsupported)
    } else {
        Ok(s.skip(4))
    }
}

impl BipCodec {
    /// Decode one UDP datagram as a virtual link layer frame.
    pub fn decode(&self, buf: &[u8]) -> (res: Result<VLLFrame, VllError>)
        ensures
            match res {
                Ok(frame) => sp_vll_decode(buf@) == Ok::<_, VllError>(vll_payload(frame)),
                Err(e) => sp_vll_decode(buf@) == Err::<Seq<u8>, _>(e),
            },
    {
        if buf.len() < 4 {
            return Err(VllError::InvalidData);
        }
        if *vstd::slice::slice_index_get(buf, 0) != 0x81 {
            return Err(VllError::InvalidData);
        }
        let length_field: usize = (*vstd::slice::slice_index_get(buf, 2) as usize) * 256 + (
        *vstd::slice::slice_index_get(buf, 3) as usize);
        if length_field != buf.len() {
            return Err(VllError::InvalidData);
        }
        if *vstd::slice::slice_index_get(buf, 1) != 0x0A {
            return Err(VllError::Unsupported);
        }
        let payload = vstd::slice::slice_subrange(buf, 4, buf.len());
        Ok(VLLFrame::OriginalUnicastNPDU(vstd::slice::slice_to_vec(payload)))
    }

    /// Encode a frame into the buffer. The payload must fit the 16-bit
    /// length field.
    pub fn encode(&self, frame: VLLFrame, into: &mut Vec<u8>)
        requires
            vll_payload(frame).len() <= MAX_VLL_PAYLOAD,
        ensures
            final(into)@ == old(into)@ + enc_vll(vll_payload(frame)),
    {
        into.push(0x81);
        let VLLFrame::OriginalUnicastNPDU(body) = frame;
        into.push(0x0A);
        let length: usize = 4 + body.len();
        into.push((length / 256) as u8);
        into.push((length % 256) as u8);
        let mut body = body;
        into.append(&mut body);
        proof {
            assert(final(into)@ =~= old(into)@ + enc_vll(vll_payload(frame)));
        }
    }
}

/// In every encoded frame, the third and fourth octets, read as a
/// big-endian 16-bit number, equal the total frame length.
pub proof fn lemma_vll_length_field(payload: Seq<u8>)
    requires
        payload.len() + 4 <= 0xFFFF,
    ensures
        enc_vll(payload)[2] * 256 + enc_vll(payload)[3] == enc_vll(payload).len(),
{
}

/// Decoding an encoded frame yields back the payload it was built from.
pub proof fn lemma_vll_round_trip(payload: Seq<u8>)
    requires
        payload.len() + 4 <= 0xFFFF,
    ensures
        sp_vll_decode(enc_vll(payload)) == Ok::<_, VllError>(payload),
{
    lemma_vll_length_field(payload);
    assert(enc_vll(payload).skip(4) =~= payload);
}

} // verus!
