//! The abstract syntax of BACnet APDUs: the header variants and the tree
//! of tagged values that forms a message body.
//!
//! Each executable type has a spec-level model (`...V`) built from `Seq`
//! instead of `Vec`, so that contracts can state value equality; the
//! `*_view` functions relate the two.

use vstd::prelude::*;

use crate::object::ObjectId;

verus! {

broadcast use vstd::std_specs::vec::group_vec_axioms;

/// The header of a BACnet APDU. Each of the seven PDU kinds carries
/// exactly its own fields.
#[derive(Debug, PartialEq, Eq, Clone, Copy)]
pub enum ApduHeader {
    /// BACnet Confirmed Request: a request that expects an acknowledgement
    /// and may be segmented.
    ConfirmedReq {
        segmented: Option<SegmentInfo>,
        segmented_response_accepted: bool,
        max_segments: u8,
        max_apdu: u8,
        invoke_id: u8,
        service: ServiceChoice,
    },
    /// BACnet Unconfirmed Request: a request with no acknowledgement.
    UnconfirmedReq { service: ServiceChoice },
    /// BACnet Simple ACK: a content-free acknowledgement of a confirmed request.
    SimpleAck { invoke_id: u8, service: ServiceChoice },
    /// BACnet Complex ACK: an acknowledgement with content, possibly segmented.
    ComplexAck { segmented: Option<SegmentInfo>, invoke_id: u8, service: ServiceChoice },
    /// BACnet Segment ACK: acknowledges receipt of a segment.
    SegmentAck {
        negative_ack: bool,
        server: bool,
        invoke_id: u8,
        sequence_number: u8,
        actual_window_size: u8,
    },
    /// BACnet Error PDU: an error result for a confirmed request.
    ErrorPdu { invoke_id: u8, error_choice: u8 },
    /// BACnet Reject PDU: rejection of an invalid confirmed request.
    RejectPdu { invoke_id: u8, reject_reason: u8 },
    /// BACnet Abort PDU: aborts a transaction between two peers.
    AbortPdu { server: bool, invoke_id: u8, abort_reason: u8 },
}

/// The code selecting which service an APDU addresses.
pub type ServiceChoice = u8;

/// The fields present only on message segments.
#[derive(Debug, PartialEq, Eq, Clone, Copy)]
pub struct SegmentInfo {
    pub more_follows: bool,
    pub sequence_number: u8,
    pub proposed_window_size: u8,
}

/// A sequence of BACnet values: the body of a message.
pub type ValueSequence = Vec<SequenceableValue>;

/// A context number: its meaning is specific to the production it occurs in.
pub type Context = u8;

/// The BACnet types which can be elements of a value sequence.
#[derive(Debug, PartialEq)]
pub enum SequenceableValue {
    /// A primitive value under an application tag, which names its own type.
    ApplicationValue(PrimitiveValue),
    /// A primitive value under a context tag; its type is given by the
    /// enclosing production.
    ContextValue(Context, PrimitiveValue),
    /// A constructed value: a list of values delimited by an open and a
    /// close tag carrying the same context number.
    ContextValueSequence(Context, ValueSequence),
}

/// BACnet primitive application values.
///
/// `Real` and `Double` carry the raw IEEE-754 bit patterns of the wire
/// words; `CharacterString` carries the character-set code and the text
/// octets exactly as they stand on the wire.
/// OctetString, BitString, Date and Time are reserved: decoding them
/// fails with `NotImplemented`.
#[derive(Debug, PartialEq)]
pub enum PrimitiveValue {
    Null,
    Boolean(bool),
    Unsigned(u32),
    Signed(i32),
    Real(u32),
    Double(u64),
    CharacterString(u8, Vec<u8>),
    Enumerated(u32),
    ObjectId(ObjectId),
}

/// Spec-level model of a primitive value.
#[verifier::ext_equal]
pub enum PrimitiveValueV {
    Null,
    Boolean(bool),
    Unsigned(u32),
    Signed(i32),
    Real(u32),
    Double(u64),
    CharacterString(u8, Seq<u8>),
    Enumerated(u32),
    ObjectId(u16, u32),
}

/// Spec-level model of a sequenceable value.
#[verifier::ext_equal]
pub enum SequenceableValueV {
    ApplicationValue(PrimitiveValueV),
    ContextValue(u8, PrimitiveValueV),
    ContextValueSequence(u8, Seq<SequenceableValueV>),
}

/// The model of a primitive value.
pub open spec fn pv_view(p: PrimitiveValue) -> PrimitiveValueV {
    match p {
        PrimitiveValue::Null => PrimitiveValueV::Null,
        PrimitiveValue::Boolean(b) => PrimitiveValueV::Boolean(b),
        PrimitiveValue::Unsigned(u) => PrimitiveValueV::Unsigned(u),
        PrimitiveValue::Signed(i) => PrimitiveValueV::Signed(i),
        PrimitiveValue::Real(bits) => PrimitiveValueV::Real(bits),
        PrimitiveValue::Double(bits) => PrimitiveValueV::Double(bits),
        PrimitiveValue::CharacterString(enc, text) => PrimitiveValueV::CharacterString(enc, text@),
        PrimitiveValue::Enumerated(u) => PrimitiveValueV::Enumerated(u),
        PrimitiveValue::ObjectId(ObjectId(ot, inst)) => PrimitiveValueV::ObjectId(ot, inst),
    }
}

/// The model of a sequenceable value.
pub open spec fn sv_view(v: SequenceableValue) -> SequenceableValueV
    decreases v,
{
    match v {
        SequenceableValue::ApplicationValue(p) => SequenceableValueV::ApplicationValue(pv_view(p)),
        SequenceableValue::ContextValue(c, p) => SequenceableValueV::ContextValue(c, pv_view(p)),
        SequenceableValue::ContextValueSequence(c, list) => SequenceableValueV::ContextValueSequence(
            c,
            svs_view(list@),
        ),
    }
}

/// The model of a value sequence.
pub open spec fn svs_view(s: Seq<SequenceableValue>) -> Seq<SequenceableValueV>
    decreases s,
{
    if s.len() == 0 {
        Seq::empty()
    } else {
        seq![sv_view(s[0])] + svs_view(s.drop_first())
    }
}

/// The model of a value sequence is the sequence of the models of its
/// elements.
pub proof fn lemma_svs_view(s: Seq<SequenceableValue>)
    ensures
        svs_view(s).len() == s.len(),
        forall|i: int| 0 <= i < s.len() ==> svs_view(s)[i] == sv_view(s[i]),
    decreases s.len(),
{
    if s.len() > 0 {
        lemma_svs_view(s.drop_first());
    }
}

impl View for PrimitiveValue {
    type V = PrimitiveValueV;

    open spec fn view(&self) -> PrimitiveValueV {
        pv_view(*self)
    }
}

impl View for SequenceableValue {
    type V = SequenceableValueV;

    open spec fn view(&self) -> SequenceableValueV {
        sv_view(*self)
    }
}

/// The first context value with the given context number, if any.
pub open spec fn sp_get_context_value(s: Seq<SequenceableValueV>, c: u8) -> Option<PrimitiveValueV>
    decreases s.len(),
{
    if s.len() == 0 {
        None
    } else {
        match s[0] {
            SequenceableValueV::ContextValue(n, p) => if n == c {
                Some(p)
            } else {
                sp_get_context_value(s.drop_first(), c)
            },
            _ => sp_get_context_value(s.drop_first(), c),
        }
    }
}

/// Extracts the first value from the sequence carrying the provided
/// context number.
pub fn get_context_value<'a>(sequence: &'a ValueSequence, context_number: Context) -> (res: Option<
    &'a PrimitiveValue,
>)
    ensures
        match res {
            Some(p) => sp_get_context_value(svs_view(sequence@), context_number) == Some(pv_view(*p)),
            None => sp_get_context_value(svs_view(sequence@), context_number) is None,
        },
{
    let ghost model = svs_view(sequence@);
    proof {
        lemma_svs_view(sequence@);
        assert(model.skip(0) =~= model);
    }
    let mut i: usize = 0;
    while i < sequence.len()
        invariant
            0 <= i <= sequence@.len(),
            model == svs_view(sequence@),
            sp_get_context_value(model, context_number) == sp_get_context_value(
                model.skip(i as int),
                context_number,
            ),
        decreases sequence@.len() - i,
    {
        proof {
            lemma_svs_view(sequence@);
            assert(model.skip(i as int).drop_first() =~= model.skip(i as int + 1));
            assert(model.skip(i as int)[0] == sv_view(sequence@[i as int]));
        }
        match &sequence[i] {
            SequenceableValue::ContextValue(number, value) => {
                if *number == context_number {
                    return Some(value);
                }
            },
            _ => {},
        }
        i = i + 1;
    }
    proof {
        assert(model.skip(i as int) =~= Seq::<SequenceableValueV>::empty());
    }
    None
}

} // verus!
