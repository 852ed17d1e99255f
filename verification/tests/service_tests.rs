use bacnet::ast::ApduHeader;
use bacnet::ast::PrimitiveValue::Enumerated;
use bacnet::ast::PrimitiveValue::ObjectId;
use bacnet::ast::PrimitiveValue::Unsigned;
use bacnet::ast::SequenceableValue::ApplicationValue;
use bacnet::ast::SequenceableValue::ContextValue;
use bacnet::object;
use bacnet::object::BacnetDB;
use bacnet::object::DeviceObject;
use bacnet::service::ServiceError;
use bacnet::service::UnmarshallError;
use bacnet::service::handle_apdu;
use bacnet::service::iam;
use bacnet::service::whois;
use bacnet::service::whois::m_handler;

fn test_device() -> DeviceObject {
    DeviceObject {
        instance: 45,
        max_apdu_length_supported: 1000,
        vendor_identifier: 23,
        segmentation_supported: 3,
    }
}

fn test_db() -> BacnetDB {
    BacnetDB::new(test_device())
}

fn whois_range(low: u32, high: u32) -> Option<iam::Message> {
    m_handler(whois::Message::new(low, high), &test_db())
}

#[test]
fn range_checks() {
    assert_eq!(None, whois_range(46, 100));
    assert_eq!(None, whois_range(0, 43));
    assert_eq!(Some(iam::Message::about(&test_device())), whois_range(45, 100));
    assert_eq!(Some(iam::Message::about(&test_device())), whois_range(1, 45));
}

#[test]
fn test_unmarshall_correct() {
    assert_eq!(
        Ok(whois::Message::new(1, 50000)),
        whois::Message::unmarshall(&vec![
            ContextValue(0, Unsigned(1)),
            ContextValue(1, Unsigned(50000))
        ])
    );
}

#[test]
fn test_marshall_correct() {
    assert_eq!(
        vec![ContextValue(0, Unsigned(1)), ContextValue(1, Unsigned(50000))],
        whois::Message::new(1, 50000).marshall()
    );
}

#[test]
fn test_marshall_cycle() {
    let message = whois::Message::new(1, 50000);
    assert_eq!(message, whois::Message::unmarshall(&message.marshall()).unwrap());
}

#[allow(non_snake_case)]
#[test]
fn iam_test_unmarshall_correct() {
    assert_eq!(
        Ok(iam::Message { device_instance: 10, max_apdu: 1476, segmentation_support: 3, vendor_id: 1 }),
        iam::Message::unmarshall(&vec![
            ApplicationValue(ObjectId(object::ObjectId(object::DEVICE, 10))),
            ApplicationValue(Unsigned(1476)),
            ApplicationValue(Enumerated(3)),
            ApplicationValue(Unsigned(1))
        ])
    );
}

#[allow(non_snake_case)]
#[test]
fn iam_test_marshall_correct() {
    assert_eq!(
        vec![
            ApplicationValue(ObjectId(object::ObjectId(object::DEVICE, 10))),
            ApplicationValue(Unsigned(1476)),
            ApplicationValue(Enumerated(3)),
            ApplicationValue(Unsigned(1))
        ],
        iam::Message { device_instance: 10, max_apdu: 1476, segmentation_support: 3, vendor_id: 1 }
            .marshall()
    );
}

#[allow(non_snake_case)]
#[test]
fn iam_test_marshall_cycle() {
    let message =
        iam::Message { device_instance: 10, max_apdu: 1476, segmentation_support: 3, vendor_id: 1 };
    assert_eq!(message, iam::Message::unmarshall(&message.marshall()).unwrap());
}

#[test]
fn whois_absent_range_always_answers() {
    let msg = whois::Message::unmarshall(&vec![]).unwrap();
    assert_eq!(msg.range, None);
    assert_eq!(Some(iam::Message::about(&test_device())), m_handler(msg, &test_db()));
}

#[test]
fn whois_mixed_presence_is_rejected() {
    assert_eq!(
        Err(UnmarshallError::RequiredValueNotProvided),
        whois::Message::unmarshall(&vec![ContextValue(0, Unsigned(1))])
    );
    assert_eq!(
        Err(UnmarshallError::RequiredValueNotProvided),
        whois::Message::unmarshall(&vec![
            ContextValue(0, Unsigned(1)),
            ContextValue(1, Enumerated(5))
        ])
    );
}

#[test]
fn dispatch_whois_in_range() {
    let body = vec![ContextValue(0, Unsigned(1)), ContextValue(1, Unsigned(50000))];
    let response = handle_apdu(ApduHeader::UnconfirmedReq { service: 8 }, &body, &test_db());
    let expected = iam::Message::about(&test_device()).marshall();
    assert_eq!(Ok(Some(expected)), response);
}

#[test]
fn dispatch_whois_out_of_range() {
    let body = vec![ContextValue(0, Unsigned(1)), ContextValue(1, Unsigned(10))];
    let response = handle_apdu(ApduHeader::UnconfirmedReq { service: 8 }, &body, &test_db());
    assert_eq!(Ok(None), response);
}

#[test]
fn dispatch_unknown_service_is_ignored() {
    let response = handle_apdu(ApduHeader::UnconfirmedReq { service: 77 }, &vec![], &test_db());
    assert_eq!(Ok(None), response);
}

#[test]
fn dispatch_confirmed_is_unsupported() {
    let response =
        handle_apdu(ApduHeader::SimpleAck { invoke_id: 1, service: 8 }, &vec![], &test_db());
    assert_eq!(Err(ServiceError::Unsupported), response);
}

#[test]
fn dispatch_malformed_whois_is_ignored() {
    let body = vec![ContextValue(0, Unsigned(1))];
    let response = handle_apdu(ApduHeader::UnconfirmedReq { service: 8 }, &body, &test_db());
    assert_eq!(Ok(None), response);
}
