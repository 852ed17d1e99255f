//! BACnet services: dispatch of received APDUs to the service the
//! message addresses. Only the unconfirmed Who-Is service is handled;
//! an unknown unconfirmed service choice is ignored without a response,
//! and every other PDU type is refused as unsupported rather than
//! silently dropped.

use vstd::prelude::*;

use crate::ast::ApduHeader;
use crate::ast::SequenceableValueV;
use crate::ast::ValueSequence;
use crate::ast::svs_view;
use crate::object::BacnetDB;
use crate::object::DeviceObject;

pub mod iam;
pub mod whois;

verus! {

/// Why an APDU was not dispatched.
#[derive(Debug, PartialEq, Eq, Structural, Clone, Copy)]
pub enum ServiceError {
    /// A PDU type this core does not serve.
    Unsupported,
}

/// Why a service could not read its message out of a value sequence.
#[derive(Debug, PartialEq, Eq, Structural, Clone, Copy)]
pub enum UnmarshallError {
    /// A mandatory field of the service's message was missing or had the
    /// wrong type.
    RequiredValueNotProvided,
}

/// The service choice selecting Who-Is within unconfirmed requests.
pub const WHO_IS: u8 = 8;

/// The service choice under which I-Am messages are sent.
pub const I_AM: u8 = 0;

/// What dispatching an APDU yields: the body of the response to send
/// back (under an unconfirmed I-Am header), no response, or refusal.
pub open spec fn sp_handle_apdu(
    header: ApduHeader,
    body: Seq<SequenceableValueV>,
    device: DeviceObject,
) -> Result<Option<Seq<SequenceableValueV>>, ServiceError> {
    match header {
        ApduHeader::UnconfirmedReq { service } => if service == WHO_IS {
            Ok(whois::sp_handler(body, device))
        } else {
            Ok(None)
        },
        _ => Err(ServiceError::Unsupported),
    }
}

/// Dispatch one received APDU against the object database.
pub fn handle_apdu(header: ApduHeader, body: &ValueSequence, db: &BacnetDB) -> (res: Result<
    Option<ValueSequence>,
    ServiceError,
>)
    ensures
        match res {
            Ok(Some(out)) => sp_handle_apdu(header, svs_view(body@), db.spec_device()) == Ok::<
                _,
                ServiceError,
            >(Some(svs_view(out@))),
            Ok(None) => sp_handle_apdu(header, svs_view(body@), db.spec_device()) == Ok::<
                _,
                ServiceError,
            >(None::<Seq<SequenceableValueV>>),
            Err(e) => sp_handle_apdu(header, svs_view(body@), db.spec_device()) == Err::<
                Option<Seq<SequenceableValueV>>,
                _,
            >(e),
        },
{
    match header {
        ApduHeader::UnconfirmedReq { service } => {
            if service == WHO_IS {
                Ok(whois::handler(body, db))
            } else {
                Ok(None)
            }
        },
        _ => Err(ServiceError::Unsupported),
    }
}

} // verus!
