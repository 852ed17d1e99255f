use bacnet::ast::ApduHeader;
use bacnet::ast::PrimitiveValue;
use bacnet::ast::SequenceableValue;
use bacnet::ast::SequenceableValue::ApplicationValue;
use bacnet::ast::SequenceableValue::ContextValue;
use bacnet::ast::SequenceableValue::ContextValueSequence;
use bacnet::ast::ValueSequence;
use bacnet::parse::ContextMap;
use bacnet::parse::ParseError;
use bacnet::parse::Reader;
use bacnet::parse::parse_apdu_header;
use bacnet::parse::parse_sequenceable_value;
use bacnet::parse::parse_tag;
use bacnet::parse::parse_value_sequence_to_end;
use bacnet::parse::read_unsigned;
use bacnet::wire::Tag;

/// The context table the original value tests assume: context number
/// `c` names application type `c - 1`.
fn test_context() -> ContextMap {
    ContextMap::new(vec![0xFF, 0, 1, 2, 3, 4])
}

fn parse_header_array(data: &[u8]) -> Result<ApduHeader, ParseError> {
    let mut reader = Reader::new(data);
    parse_apdu_header(&mut reader)
}

#[test]
fn parse_unconfirmed() {
    assert_eq!(
        Ok(ApduHeader::ConfirmedReq {
            segmented: None,
            segmented_response_accepted: false,
            max_segments: 0x0,
            max_apdu: 5,
            invoke_id: 1,
            service: 15,
        }),
        parse_header_array(&[0u8, 5, 1, 15])
    );
}

#[test]
fn parse_confirmed() {
    assert_eq!(Ok(ApduHeader::UnconfirmedReq { service: 8 }), parse_header_array(&[0x10u8, 8]));
}

#[test]
fn parse_simple_ack() {
    assert_eq!(
        Ok(ApduHeader::SimpleAck { invoke_id: 1, service: 15 }),
        parse_header_array(&[0x20u8, 1, 15])
    );
}

fn parse_sequence_array(data: &[u8]) -> Result<ValueSequence, ParseError> {
    let mut reader = Reader::new(data);
    parse_value_sequence_to_end(&mut reader, &test_context())
}

#[test]
fn parse_empty_value_sequence() {
    assert_eq!(Ok(vec![]), parse_sequence_array(&[]));
}

#[test]
fn parse_basic_value_sequence() {
    assert_eq!(
        Ok(vec![
            ApplicationValue(PrimitiveValue::Unsigned(0x9988)),
            ContextValue(2, PrimitiveValue::Boolean(false))
        ]),
        parse_sequence_array(&[0x22u8, 0x99, 0x88, 0x28])
    );
}

fn parse_value_array(data: &[u8]) -> Result<Option<SequenceableValue>, ParseError> {
    let mut reader = Reader::new(data);
    parse_sequenceable_value(&mut reader, &test_context())
}

fn parsed_context_value_eq(data: &[u8], value: SequenceableValue) {
    assert_eq!(value, parse_value_array(data).unwrap().unwrap());
}

#[test]
fn parse_empty_reader() {
    assert_eq!(Ok(None), parse_value_array(&[]));
}

#[test]
fn parse_context_wrapped_application_value() {
    parsed_context_value_eq(
        &[0x3eu8, 0x21, 0x01, 0x3f],
        ContextValueSequence(3, vec![ApplicationValue(PrimitiveValue::Unsigned(1))]),
    );
}

#[test]
fn parse_context_sequence_of_application_values() {
    parsed_context_value_eq(
        &[0x5eu8, 0x21, 0x01, 0x21, 0x02, 0x21, 0x03, 0x5f],
        ContextValueSequence(
            5,
            vec![
                ApplicationValue(PrimitiveValue::Unsigned(1)),
                ApplicationValue(PrimitiveValue::Unsigned(2)),
                ApplicationValue(PrimitiveValue::Unsigned(3)),
            ],
        ),
    );
}

#[test]
fn parse_context_null() {
    parsed_context_value_eq(&[0x18u8], ContextValue(1, PrimitiveValue::Null));
}

#[test]
fn parse_context_boolean() {
    parsed_context_value_eq(&[0x28u8], ContextValue(2, PrimitiveValue::Boolean(false)));
    parsed_context_value_eq(&[0x29u8], ContextValue(2, PrimitiveValue::Boolean(true)));
}

#[test]
fn parse_context_unsigned() {
    parsed_context_value_eq(&[0x39u8, 200], ContextValue(3, PrimitiveValue::Unsigned(200)));
    parsed_context_value_eq(&[0x3Au8, 0x99, 0x88], ContextValue(3, PrimitiveValue::Unsigned(0x9988)));
    parsed_context_value_eq(&[0x3Bu8, 0x99, 0x88, 0x77], ContextValue(3, PrimitiveValue::Unsigned(0x998877)));
    parsed_context_value_eq(
        &[0x3Cu8, 0x99, 0x88, 0x77, 0x66],
        ContextValue(3, PrimitiveValue::Unsigned(0x99887766)),
    );
    // length > 4 not supported
    assert_eq!(ParseError::ValueSizeNotSupported, parse_value_array(&[0x3du8, 5]).unwrap_err());
}

fn parsed_application_value_eq(data: &[u8], value: PrimitiveValue) {
    assert_eq!(ApplicationValue(value), parse_value_array(data).unwrap().unwrap());
}

#[test]
fn parse_null() {
    parsed_application_value_eq(&[0x00u8], PrimitiveValue::Null);
}

#[test]
fn parse_boolean() {
    parsed_application_value_eq(&[0x10u8], PrimitiveValue::Boolean(false));
    parsed_application_value_eq(&[0x11u8], PrimitiveValue::Boolean(true));
}

#[test]
fn parse_unsigned() {
    parsed_application_value_eq(&[0x21u8, 200], PrimitiveValue::Unsigned(200));
    parsed_application_value_eq(&[0x22u8, 0x99, 0x88], PrimitiveValue::Unsigned(0x9988));
    parsed_application_value_eq(&[0x23u8, 0x99, 0x88, 0x77], PrimitiveValue::Unsigned(0x998877));
    parsed_application_value_eq(&[0x24u8, 0x99, 0x88, 0x77, 0x66], PrimitiveValue::Unsigned(0x99887766));
    // length > 4 not supported
    assert_eq!(ParseError::ValueSizeNotSupported, parse_value_array(&[0x25u8, 5]).unwrap_err());
}

fn parsed_tag_eq(data: &[u8], tag: Tag) {
    let mut reader = Reader::new(data);
    assert_eq!(tag, parse_tag(&mut reader).unwrap());
}

#[test]
fn parse_open() {
    parsed_tag_eq(&[0x2eu8], Tag::Open(2));
}

#[test]
fn parse_close() {
    parsed_tag_eq(&[0x2fu8], Tag::Close(2));
}

#[test]
fn parse_application0() {
    parsed_tag_eq(&[0x24u8], Tag::Application(2, 4));
}

/// Extended tag number context tag.
#[test]
fn parse_context1() {
    parsed_tag_eq(&[0xF9u8, 0x59], Tag::Context(0x59, 1));
}

/// Extended value (8-bit) application tag.
#[test]
fn parse_application1() {
    parsed_tag_eq(&[0x05u8, 200], Tag::Application(0, 200));
}

/// Extended value (16-bit) application tag.
#[test]
fn parse_application2() {
    parsed_tag_eq(&[0x05u8, 0xFE, 0x59, 0x59], Tag::Application(0, 0x5959));
}

/// Extended value (32-bit) application tag.
#[test]
fn parse_application32() {
    parsed_tag_eq(&[0x05u8, 0xFF, 0x59, 0x59, 0x59, 0x59], Tag::Application(0, 0x59595959));
}

#[test]
fn test_read_unsigned_16() {
    let data: &[u8] = &[0x99u8, 0x11];
    let mut reader = Reader::new(data);
    assert_eq!(read_unsigned(&mut reader, 2).unwrap(), 0x9911);
}

#[test]
fn test_read_unsigned_32() {
    let data: &[u8] = &[0x22u8, 0x33, 0x44, 0x55];
    let mut reader = Reader::new(data);
    assert_eq!(read_unsigned(&mut reader, 4).unwrap(), 0x22334455);
}
