use bacnet::ast::ApduHeader;
use bacnet::ast::PrimitiveValue;
use bacnet::ast::SegmentInfo;
use bacnet::ast::SequenceableValue;
use bacnet::ast::SequenceableValue::ApplicationValue;
use bacnet::ast::SequenceableValue::ContextValue;
use bacnet::ast::SequenceableValue::ContextValueSequence;
use bacnet::ast::ValueSequence;
use bacnet::serialise::write_apdu_header;
use bacnet::serialise::write_sequenceable_value;
use bacnet::serialise::write_tag;
use bacnet::serialise::write_value_sequence;
use bacnet::wire::Tag;

fn assert_header_eq(header: ApduHeader, data: &[u8]) {
    let mut buf = vec![];
    write_apdu_header(&mut buf, header);
    assert_eq!(buf, data.to_vec());
}

#[test]
fn write_confirmed() {
    assert_header_eq(
        ApduHeader::ConfirmedReq {
            segmented: None,
            segmented_response_accepted: false,
            max_segments: 0x0,
            max_apdu: 5,
            invoke_id: 1,
            service: 15,
        },
        &[0u8, 5, 1, 15],
    );
}

#[test]
fn write_confirmed_max() {
    assert_header_eq(
        ApduHeader::ConfirmedReq {
            segmented: Some(SegmentInfo {
                more_follows: true,
                sequence_number: 255,
                proposed_window_size: 127,
            }),
            segmented_response_accepted: true,
            max_segments: 0x7,
            max_apdu: 0xF,
            invoke_id: 253,
            service: 254,
        },
        &[0x0Eu8, 0x7F, 253, 255, 127, 254],
    );
}

#[test]
fn write_unconfirmed() {
    assert_header_eq(ApduHeader::UnconfirmedReq { service: 8 }, &[0x10u8, 8]);
}

#[test]
fn write_simple_ack() {
    assert_header_eq(ApduHeader::SimpleAck { invoke_id: 1, service: 15 }, &[0x20u8, 1, 15]);
}

#[test]
fn write_complexack_basic() {
    assert_header_eq(
        ApduHeader::ComplexAck { segmented: None, invoke_id: 1, service: 15 },
        &[0x30u8, 1, 15],
    );
}

#[test]
fn write_complexack_segmented() {
    assert_header_eq(
        ApduHeader::ComplexAck {
            segmented: Some(SegmentInfo {
                more_follows: true,
                sequence_number: 255,
                proposed_window_size: 127,
            }),
            invoke_id: 253,
            service: 254,
        },
        &[0x3Cu8, 253, 255, 127, 254],
    );
}

#[test]
fn write_segment_ack() {
    assert_header_eq(
        ApduHeader::SegmentAck {
            negative_ack: true,
            server: true,
            invoke_id: 1,
            sequence_number: 45,
            actual_window_size: 57,
        },
        &[0x43u8, 1, 45, 57],
    );
}

#[test]
fn write_error_pdu() {
    assert_header_eq(ApduHeader::ErrorPdu { invoke_id: 1, error_choice: 127 }, &[0x50u8, 1, 127]);
}

#[test]
fn write_reject_pdu() {
    assert_header_eq(ApduHeader::RejectPdu { invoke_id: 1, reject_reason: 127 }, &[0x60u8, 1, 127]);
}

#[test]
fn write_abort_pdu() {
    assert_header_eq(
        ApduHeader::AbortPdu { invoke_id: 1, abort_reason: 127, server: true },
        &[0x71u8, 1, 127],
    );
}

fn written_value_sequence_eq(data: &[u8], value: ValueSequence) {
    let mut buf = vec![];
    write_value_sequence(&mut buf, value);
    assert_eq!(data.to_vec(), buf);
}

#[test]
fn write_empty_value_sequence() {
    written_value_sequence_eq(&[], vec![]);
}

#[test]
fn write_basic_value_sequence() {
    written_value_sequence_eq(
        &[0x22u8, 0x99, 0x88, 0x28],
        vec![
            ApplicationValue(PrimitiveValue::Unsigned(0x9988)),
            ContextValue(2, PrimitiveValue::Boolean(false)),
        ],
    );
}

fn write_array(sequenceable_value: SequenceableValue) -> Vec<u8> {
    let mut writer = Vec::new();
    write_sequenceable_value(&mut writer, sequenceable_value);
    writer
}

fn written_context_value_eq(data: &[u8], value: SequenceableValue) {
    assert_eq!(data.to_vec(), write_array(value));
}

#[test]
fn write_context_wrapped_application_value() {
    written_context_value_eq(
        &[0x3eu8, 0x21, 0x01, 0x3f],
        ContextValueSequence(3, vec![ApplicationValue(PrimitiveValue::Unsigned(1))]),
    );
}

#[test]
fn write_context_sequence_of_application_values() {
    written_context_value_eq(
        &[0x5eu8, 0x21, 0x01, 0x21, 0x02, 0x21, 0x03, 0x5f],
        ContextValueSequence(
            5,
            vec![
                ApplicationValue(PrimitiveValue::Unsigned(1)),
                ApplicationValue(PrimitiveValue::Unsigned(2)),
                ApplicationValue(PrimitiveValue::Unsigned(3)),
            ],
        ),
    );
}

#[test]
fn write_context_null() {
    written_context_value_eq(&[0x18u8], ContextValue(1, PrimitiveValue::Null));
}

#[test]
fn write_context_boolean() {
    written_context_value_eq(&[0x28u8], ContextValue(2, PrimitiveValue::Boolean(false)));
    written_context_value_eq(&[0x29u8], ContextValue(2, PrimitiveValue::Boolean(true)));
}

#[test]
fn write_context_unsigned() {
    written_context_value_eq(&[0x39u8, 200], ContextValue(3, PrimitiveValue::Unsigned(200)));
    written_context_value_eq(&[0x3Au8, 0x99, 0x88], ContextValue(3, PrimitiveValue::Unsigned(0x9988)));
    written_context_value_eq(&[0x3Bu8, 0x99, 0x88, 0x77], ContextValue(3, PrimitiveValue::Unsigned(0x998877)));
    written_context_value_eq(
        &[0x3Cu8, 0x99, 0x88, 0x77, 0x66],
        ContextValue(3, PrimitiveValue::Unsigned(0x99887766)),
    );
}

fn written_application_value_eq(data: &[u8], value: PrimitiveValue) {
    assert_eq!(data.to_vec(), write_array(ApplicationValue(value)));
}

#[test]
fn write_null() {
    written_application_value_eq(&[0x00u8], PrimitiveValue::Null);
}

#[test]
fn write_boolean() {
    written_application_value_eq(&[0x10u8], PrimitiveValue::Boolean(false));
    written_application_value_eq(&[0x11u8], PrimitiveValue::Boolean(true));
}

#[test]
fn write_unsigned() {
    written_application_value_eq(&[0x21u8, 200], PrimitiveValue::Unsigned(200));
    written_application_value_eq(&[0x22u8, 0x99, 0x88], PrimitiveValue::Unsigned(0x9988));
    written_application_value_eq(&[0x23u8, 0x99, 0x88, 0x77], PrimitiveValue::Unsigned(0x998877));
    written_application_value_eq(&[0x24u8, 0x99, 0x88, 0x77, 0x66], PrimitiveValue::Unsigned(0x99887766));
}

fn assert_tag_write(expected: &[u8], tag: Tag) {
    let mut data = Vec::new();
    write_tag(&mut data, tag);
    assert_eq!(expected.to_vec(), data);
}

#[test]
fn serialise_open() {
    assert_tag_write(&[0x2eu8], Tag::Open(2));
}

#[test]
fn serialise_close() {
    assert_tag_write(&[0x2fu8], Tag::Close(2));
}

#[test]
fn serialise_application0() {
    assert_tag_write(&[0x24u8], Tag::Application(2, 4));
}

/// Extended tag number context tag.
#[test]
fn serialise_context1() {
    assert_tag_write(&[0xF9u8, 0x59], Tag::Context(0x59, 1));
}

/// Extended value (8-bit) application tag.
#[test]
fn serialise_application1() {
    assert_tag_write(&[0x05u8, 200], Tag::Application(0, 200));
}

/// Extended value (16-bit) application tag.
#[test]
fn serialise_application2() {
    assert_tag_write(&[0x05u8, 0xFE, 0x59, 0x59], Tag::Application(0, 0x5959));
}

/// Extended value (32-bit) application tag.
#[test]
fn serialise_application32() {
    assert_tag_write(&[0x05u8, 0xFF, 0x59, 0x59, 0x59, 0x59], Tag::Application(0, 0x59595959));
}
