//! The Who-Is service: a device answers with an I-Am message when its
//! instance number lies in the requested range, or always when the
//! request names no range. A malformed request is silently ignored, as
//! the wire norm asks.

use vstd::prelude::*;

use crate::ast::PrimitiveValue;
use crate::ast::PrimitiveValueV;
use crate::ast::SequenceableValue;
use crate::ast::SequenceableValueV;
use crate::ast::ValueSequence;
use crate::ast::get_context_value;
use crate::ast::lemma_svs_view;
use crate::ast::sp_get_context_value;
use crate::ast::svs_view;
use crate::object::BacnetDB;
use crate::object::DeviceObject;
use crate::service::UnmarshallError;
use crate::service::iam;

verus! {

/// A Who-Is message: the range of device instances asked to identify
/// themselves, or no range to ask every device.
#[derive(Debug, PartialEq, Eq, Clone, Copy)]
pub struct Message {
    pub range: Option<(u32, u32)>,
}

/// What reading a Who-Is message out of a body yields: both context
/// values present and unsigned give a range; both absent ask for every
/// device; anything else is a malformed request.
pub open spec fn sp_unmarshall(body: Seq<SequenceableValueV>) -> Result<Message, UnmarshallError> {
    match (sp_get_context_value(body, 0), sp_get_context_value(body, 1)) {
        (Some(PrimitiveValueV::Unsigned(low)), Some(PrimitiveValueV::Unsigned(high))) => Ok(
            Message { range: Some((low, high)) },
        ),
        (None, None) => Ok(Message { range: None }),
        _ => Err(UnmarshallError::RequiredValueNotProvided),
    }
}

/// The body of a Who-Is message: the range bounds as context values 0
/// and 1, or nothing at all.
pub open spec fn sp_marshall(m: Message) -> Seq<SequenceableValueV> {
    match m.range {
        Some((low, high)) => seq![
            SequenceableValueV::ContextValue(0, PrimitiveValueV::Unsigned(low)),
            SequenceableValueV::ContextValue(1, PrimitiveValueV::Unsigned(high)),
        ],
        None => Seq::empty(),
    }
}

/// Whether the device answers the request: always when no range was
/// given, else exactly when its instance lies within the range.
pub open spec fn sp_m_handler(whois: Message, device: DeviceObject) -> Option<iam::Message> {
    match whois.range {
        Some((low, high)) => if low <= device.instance && device.instance <= high {
            Some(iam::sp_about(device))
        } else {
            None
        },
        None => Some(iam::sp_about(device)),
    }
}

/// What the Who-Is service answers to a received body: the marshalled
/// I-Am of the local device when the request is well-formed and the
/// device matches; nothing when it does not match or the request is
/// malformed.
pub open spec fn sp_handler(body: Seq<SequenceableValueV>, device: DeviceObject) -> Option<
    Seq<SequenceableValueV>,
> {
    match sp_unmarshall(body) {
        Err(_) => None,
        Ok(m) => match sp_m_handler(m, device) {
            None => None,
            Some(answer) => Some(iam::sp_marshall(answer)),
        },
    }
}

impl Message {
    pub fn new(device_instance_low: u32, device_instance_high: u32) -> (m: Message)
        ensures
            m.range == Some((device_instance_low, device_instance_high)),
    {
        Message { range: Some((device_instance_low, device_instance_high)) }
    }

    /// The service choice selecting this service.
    pub fn choice() -> (c: u8)
        ensures
            c == crate::service::WHO_IS,
    {
        8
    }

    /// Lay the message out as its value sequence.
    pub fn marshall(&self) -> (res: ValueSequence)
        ensures
            svs_view(res@) == sp_marshall(*self),
    {
        let mut out: ValueSequence = Vec::new();
        match self.range {
            Some((low, high)) => {
                out.push(SequenceableValue::ContextValue(0, PrimitiveValue::Unsigned(low)));
                out.push(SequenceableValue::ContextValue(1, PrimitiveValue::Unsigned(high)));
            },
            None => {},
        }
        proof {
            lemma_svs_view(out@);
            assert(svs_view(out@) =~= sp_marshall(*self));
        }
        out
    }

    /// Read a message out of a received body.
    pub fn unmarshall(body: &ValueSequence) -> (res: Result<Message, UnmarshallError>)
        ensures
            res == sp_unmarshall(svs_view(body@)),
    {
        match (get_context_value(body, 0), get_context_value(body, 1)) {
            (Some(PrimitiveValue::Unsigned(low)), Some(PrimitiveValue::Unsigned(high))) => Ok(
                Message { range: Some((*low, *high)) },
            ),
            (None, None) => Ok(Message { range: None }),
            _ => Err(UnmarshallError::RequiredValueNotProvided),
        }
    }
}

/// Answer a Who-Is body against the object database. A body this
/// service cannot read is ignored without a response.
pub fn handler(body: &ValueSequence, db: &BacnetDB) -> (res: Option<ValueSequence>)
    ensures
        match res {
            Some(out) => sp_handler(svs_view(body@), db.spec_device()) == Some(svs_view(out@)),
            None => sp_handler(svs_view(body@), db.spec_device()) is None,
        },
{
    match Message::unmarshall(body) {
        Err(_) => None,
        Ok(m) => match m_handler(m, db) {
            None => None,
            Some(answer) => Some(answer.marshall()),
        },
    }
}

/// Decide whether the local device answers the given request, and with
/// which message.
pub fn m_handler(whois: Message, db: &BacnetDB) -> (res: Option<iam::Message>)
    ensures
        res == sp_m_handler(whois, db.spec_device()),
{
    let device = db.device();
    match whois.range {
        Some((low, high)) => {
            if low <= device.instance && device.instance <= high {
                Some(iam::Message::about(device))
            } else {
                None
            }
        },
        None => Some(iam::Message::about(device)),
    }
}

} // verus!
