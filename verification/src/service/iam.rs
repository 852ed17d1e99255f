//! The I-Am service message: an unconfirmed announcement of a device's
//! identity and transport limits, sent in reply to a matching Who-Is.

use vstd::prelude::*;

use crate::ast::PrimitiveValue;
use crate::ast::PrimitiveValueV;
use crate::ast::SequenceableValue;
use crate::ast::SequenceableValueV;
use crate::ast::ValueSequence;
use crate::ast::lemma_svs_view;
use crate::ast::svs_view;
use crate::object::DEVICE;
use crate::object::DeviceObject;
use crate::object::ObjectId;
use crate::service::UnmarshallError;

verus! {

/// An I-Am message: the identity a device announces about itself.
#[derive(Debug, PartialEq, Eq, Structural, Clone, Copy)]
pub struct Message {
    pub device_instance: u32,
    pub max_apdu: u32,
    pub segmentation_support: u8,
    pub vendor_id: u32,
}

/// The message announcing a device record.
pub open spec fn sp_about(device: DeviceObject) -> Message {
    Message {
        device_instance: device.instance,
        max_apdu: device.max_apdu_length_supported,
        segmentation_support: device.segmentation_supported,
        vendor_id: device.vendor_identifier,
    }
}

/// The body of an I-Am message: exactly four application values, in
/// order the device object identifier, the largest APDU accepted, the
/// segmentation support code, and the vendor identifier.
pub open spec fn sp_marshall(m: Message) -> Seq<SequenceableValueV> {
    seq![
        SequenceableValueV::ApplicationValue(PrimitiveValueV::ObjectId(DEVICE, m.device_instance)),
        SequenceableValueV::ApplicationValue(PrimitiveValueV::Unsigned(m.max_apdu)),
        SequenceableValueV::ApplicationValue(
            PrimitiveValueV::Enumerated(m.segmentation_support as u32),
        ),
        SequenceableValueV::ApplicationValue(PrimitiveValueV::Unsigned(m.vendor_id)),
    ]
}

/// What reading an I-Am message out of a body yields: the message, when
/// the body starts with the four fields in order and the object
/// identifier names a device; the error otherwise.
pub open spec fn sp_unmarshall(body: Seq<SequenceableValueV>) -> Result<Message, UnmarshallError> {
    if body.len() < 4 {
        Err(UnmarshallError::RequiredValueNotProvided)
    } else {
        match (body[0], body[1], body[2], body[3]) {
            (
                SequenceableValueV::ApplicationValue(PrimitiveValueV::ObjectId(ot, inst)),
                SequenceableValueV::ApplicationValue(PrimitiveValueV::Unsigned(max_apdu)),
                SequenceableValueV::ApplicationValue(PrimitiveValueV::Enumerated(seg)),
                SequenceableValueV::ApplicationValue(PrimitiveValueV::Unsigned(vendor)),
            ) => if ot == DEVICE {
                Ok(
                    Message {
                        device_instance: inst,
                        max_apdu: max_apdu,
                        segmentation_support: (seg % 256) as u8,
                        vendor_id: vendor,
                    },
                )
            } else {
                Err(UnmarshallError::RequiredValueNotProvided)
            },
            _ => Err(UnmarshallError::RequiredValueNotProvided),
        }
    }
}

impl Message {
    /// The message announcing the given device.
    pub fn about(device: &DeviceObject) -> (m: Message)
        ensures
            m == sp_about(*device),
    {
        Message {
            device_instance: device.instance,
            max_apdu: device.max_apdu_length_supported,
            segmentation_support: device.segmentation_supported,
            vendor_id: device.vendor_identifier,
        }
    }

    /// The service choice under which this message is sent.
    pub fn choice() -> (c: u8)
        ensures
            c == crate::service::I_AM,
    {
        0
    }

    /// Lay the message out as its value sequence.
    pub fn marshall(&self) -> (res: ValueSequence)
        ensures
            svs_view(res@) == sp_marshall(*self),
    {
        let mut out: ValueSequence = Vec::new();
        out.push(
            SequenceableValue::ApplicationValue(
                PrimitiveValue::ObjectId(ObjectId(DEVICE, self.device_instance)),
            ),
        );
        out.push(SequenceableValue::ApplicationValue(PrimitiveValue::Unsigned(self.max_apdu)));
        out.push(
            SequenceableValue::ApplicationValue(
                PrimitiveValue::Enumerated(self.segmentation_support as u32),
            ),
        );
        out.push(SequenceableValue::ApplicationValue(PrimitiveValue::Unsigned(self.vendor_id)));
        proof {
            lemma_svs_view(out@);
            assert(svs_view(out@) =~= sp_marshall(*self));
        }
        out
    }

    /// Read a message out of a received body.
    pub fn unmarshall(body: &ValueSequence) -> (res: Result<Message, UnmarshallError>)
        ensures
            res == sp_unmarshall(svs_view(body@)),
    {
        proof {
            lemma_svs_view(body@);
        }
        if body.len() < 4 {
            return Err(UnmarshallError::RequiredValueNotProvided);
        }
        match (&body[0], &body[1], &body[2], &body[3]) {
            (
                SequenceableValue::ApplicationValue(PrimitiveValue::ObjectId(ObjectId(ot, inst))),
                SequenceableValue::ApplicationValue(PrimitiveValue::Unsigned(max_apdu)),
                SequenceableValue::ApplicationValue(PrimitiveValue::Enumerated(seg)),
                SequenceableValue::ApplicationValue(PrimitiveValue::Unsigned(vendor)),
            ) => {
                if *ot == DEVICE {
                    Ok(
                        Message {
                            device_instance: *inst,
                            max_apdu: *max_apdu,
                            segmentation_support: (*seg % 256) as u8,
                            vendor_id: *vendor,
                        },
                    )
                } else {
                    Err(UnmarshallError::RequiredValueNotProvided)
                }
            },
            _ => Err(UnmarshallError::RequiredValueNotProvided),
        }
    }
}

} // verus!
