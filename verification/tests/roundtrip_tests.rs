use bacnet::ast::ApduHeader;
use bacnet::ast::PrimitiveValue;
use bacnet::ast::SegmentInfo;
use bacnet::ast::SequenceableValue;
use bacnet::ast::SequenceableValue::ApplicationValue;
use bacnet::ast::SequenceableValue::ContextValue;
use bacnet::object::ObjectId;
use bacnet::parse::ContextMap;
use bacnet::parse::ParseError;
use bacnet::parse::Reader;
use bacnet::parse::parse_apdu_header;
use bacnet::parse::parse_sequenceable_value;
use bacnet::parse::parse_value_sequence_to_end;
use bacnet::serialise::write_apdu_header;
use bacnet::serialise::write_sequenceable_value;
use bacnet::serialise::write_tag;
use bacnet::service::whois;
use bacnet::wire::Tag;

/// The header of the concrete maximal confirmed request decodes back to
/// the value it was written from.
#[test]
fn parse_confirmed_max() {
    let data = [0x0Eu8, 0x7F, 253, 255, 127, 254];
    let mut reader = Reader::new(&data);
    assert_eq!(
        Ok(ApduHeader::ConfirmedReq {
            segmented: Some(SegmentInfo {
                more_follows: true,
                sequence_number: 255,
                proposed_window_size: 127,
            }),
            segmented_response_accepted: true,
            max_segments: 0x7,
            max_apdu: 0xF,
            invoke_id: 253,
            service: 254,
        }),
        parse_apdu_header(&mut reader)
    );
}

fn header_cycles(header: ApduHeader) {
    let mut buf = vec![];
    write_apdu_header(&mut buf, header);
    let mut reader = Reader::new(&buf);
    assert_eq!(Ok(header), parse_apdu_header(&mut reader));
}

#[test]
fn apdu_header_round_trips() {
    header_cycles(ApduHeader::ComplexAck {
        segmented: Some(SegmentInfo {
            more_follows: false,
            sequence_number: 4,
            proposed_window_size: 9,
        }),
        invoke_id: 77,
        service: 12,
    });
    header_cycles(ApduHeader::SegmentAck {
        negative_ack: false,
        server: true,
        invoke_id: 3,
        sequence_number: 17,
        actual_window_size: 4,
    });
    header_cycles(ApduHeader::ErrorPdu { invoke_id: 9, error_choice: 31 });
    header_cycles(ApduHeader::RejectPdu { invoke_id: 2, reject_reason: 1 });
    header_cycles(ApduHeader::AbortPdu { server: false, invoke_id: 250, abort_reason: 2 });
}

#[test]
fn apdu_reserved_type_is_invalid() {
    let data = [0x80u8, 1, 2];
    let mut reader = Reader::new(&data);
    assert_eq!(Err(ParseError::InvalidData), parse_apdu_header(&mut reader));
}

#[test]
fn apdu_truncated_is_input_ended() {
    let data = [0x0Eu8, 0x7F, 253];
    let mut reader = Reader::new(&data);
    assert_eq!(Err(ParseError::InputEndedBeforeParsingCompleted), parse_apdu_header(&mut reader));
}

fn value_cycles(table: Vec<u8>, value: SequenceableValue, expected: &SequenceableValue) {
    let mut buf = vec![];
    write_sequenceable_value(&mut buf, value);
    let mut reader = Reader::new(&buf);
    let decoded = parse_sequenceable_value(&mut reader, &ContextMap::new(table)).unwrap().unwrap();
    assert_eq!(*expected, decoded);
}

#[test]
fn primitive_values_round_trip() {
    let no_table: Vec<u8> = vec![];
    value_cycles(no_table.clone(), ApplicationValue(PrimitiveValue::Null), &ApplicationValue(PrimitiveValue::Null));
    value_cycles(
        no_table.clone(),
        ApplicationValue(PrimitiveValue::Unsigned(0)),
        &ApplicationValue(PrimitiveValue::Unsigned(0)),
    );
    value_cycles(
        no_table.clone(),
        ApplicationValue(PrimitiveValue::Signed(-1)),
        &ApplicationValue(PrimitiveValue::Signed(-1)),
    );
    value_cycles(
        no_table.clone(),
        ApplicationValue(PrimitiveValue::Signed(-129)),
        &ApplicationValue(PrimitiveValue::Signed(-129)),
    );
    value_cycles(
        no_table.clone(),
        ApplicationValue(PrimitiveValue::Signed(32767)),
        &ApplicationValue(PrimitiveValue::Signed(32767)),
    );
    value_cycles(
        no_table.clone(),
        ApplicationValue(PrimitiveValue::Signed(-2147483648)),
        &ApplicationValue(PrimitiveValue::Signed(-2147483648)),
    );
    // the bit pattern of 1.0f32
    let real_bits = 1.0f32.to_bits();
    value_cycles(
        no_table.clone(),
        ApplicationValue(PrimitiveValue::Real(real_bits)),
        &ApplicationValue(PrimitiveValue::Real(real_bits)),
    );
    let double_bits = (-2.5f64).to_bits();
    value_cycles(
        no_table.clone(),
        ApplicationValue(PrimitiveValue::Double(double_bits)),
        &ApplicationValue(PrimitiveValue::Double(double_bits)),
    );
    value_cycles(
        no_table.clone(),
        ApplicationValue(PrimitiveValue::CharacterString(0, b"BACnet".to_vec())),
        &ApplicationValue(PrimitiveValue::CharacterString(0, b"BACnet".to_vec())),
    );
    value_cycles(
        no_table.clone(),
        ApplicationValue(PrimitiveValue::Enumerated(300)),
        &ApplicationValue(PrimitiveValue::Enumerated(300)),
    );
    value_cycles(
        no_table.clone(),
        ApplicationValue(PrimitiveValue::ObjectId(ObjectId(8, 45))),
        &ApplicationValue(PrimitiveValue::ObjectId(ObjectId(8, 45))),
    );
}

#[test]
fn primitive_values_round_trip_object_id() {
    let no_table: Vec<u8> = vec![];
    value_cycles(
        no_table,
        ApplicationValue(PrimitiveValue::ObjectId(ObjectId(1023, 0x3FFFFF))),
        &ApplicationValue(PrimitiveValue::ObjectId(ObjectId(1023, 0x3FFFFF))),
    );
}

#[test]
fn real_word_is_big_endian() {
    let mut buf = vec![];
    write_sequenceable_value(&mut buf, ApplicationValue(PrimitiveValue::Real(0x3F800000)));
    assert_eq!(buf, vec![0x44u8, 0x3F, 0x80, 0x00, 0x00]);
}

#[test]
fn character_string_layout() {
    let mut buf = vec![];
    write_sequenceable_value(
        &mut buf,
        ApplicationValue(PrimitiveValue::CharacterString(0, b"Hi".to_vec())),
    );
    assert_eq!(buf, vec![0x73u8, 0x00, 0x48, 0x69]);
}

#[test]
fn mismatched_close_tag_is_invalid() {
    // open tag 3, one unsigned child, close tag 4
    let data = [0x3Eu8, 0x21, 0x01, 0x4F];
    let mut reader = Reader::new(&data);
    assert_eq!(
        Err(ParseError::InvalidData),
        parse_sequenceable_value(&mut reader, &ContextMap::new(vec![]))
    );
}

#[test]
fn unterminated_sequence_is_input_ended() {
    let data = [0x3Eu8, 0x21, 0x01];
    let mut reader = Reader::new(&data);
    assert_eq!(
        Err(ParseError::InputEndedBeforeParsingCompleted),
        parse_sequenceable_value(&mut reader, &ContextMap::new(vec![]))
    );
}

#[test]
fn reserved_application_type_is_not_implemented() {
    // application tag 6 (octet string) is reserved
    let data = [0x61u8, 0x00];
    let mut reader = Reader::new(&data);
    assert_eq!(
        Err(ParseError::NotImplemented),
        parse_sequenceable_value(&mut reader, &ContextMap::new(vec![]))
    );
}

/// The length boundaries of the tag encoding: 0-4 in the tag octet,
/// 5-253 in one extra octet, 254-65535 behind the sentinel 254,
/// 65536 and up behind the sentinel 255; tag numbers above 14 take the
/// extension octet.
#[test]
fn tag_extension_boundaries() {
    let cases: Vec<(Tag, Vec<u8>)> = vec![
        (Tag::Application(14, 4), vec![0xE4]),
        (Tag::Application(15, 4), vec![0xF4, 15]),
        (Tag::Application(254, 4), vec![0xF4, 254]),
        (Tag::Application(0, 5), vec![0x05, 5]),
        (Tag::Application(0, 253), vec![0x05, 253]),
        (Tag::Application(0, 254), vec![0x05, 0xFE, 0x00, 0xFE]),
        (Tag::Application(0, 65535), vec![0x05, 0xFE, 0xFF, 0xFF]),
        (Tag::Application(0, 65536), vec![0x05, 0xFF, 0x00, 0x01, 0x00, 0x00]),
        (Tag::Application(0, 0xFFFFFFFF), vec![0x05, 0xFF, 0xFF, 0xFF, 0xFF, 0xFF]),
    ];
    for (tag, expected) in cases {
        let mut buf = vec![];
        write_tag(&mut buf, tag);
        assert_eq!(buf, expected);
    }
}

/// The Who-Is body of the discovery scenario: a range of 1 to 50000
/// decodes under a table mapping contexts 0 and 1 to Unsigned, and
/// matches a device of instance 45.
#[test]
fn whois_body_decode() {
    let data = [0x09u8, 0x01, 0x1A, 0xC3, 0x50];
    let mut reader = Reader::new(&data);
    let body = parse_value_sequence_to_end(&mut reader, &ContextMap::new(vec![2, 2])).unwrap();
    assert_eq!(
        body,
        vec![
            ContextValue(0, PrimitiveValue::Unsigned(1)),
            ContextValue(1, PrimitiveValue::Unsigned(50000))
        ]
    );
    let message = whois::Message::unmarshall(&body).unwrap();
    assert_eq!(message.range, Some((1, 50000)));
    let db = bacnet::object::BacnetDB::new(bacnet::object::DeviceObject {
        instance: 45,
        max_apdu_length_supported: 1476,
        segmentation_supported: 3,
        vendor_identifier: 1,
    });
    assert!(whois::m_handler(message, &db).is_some());
}
