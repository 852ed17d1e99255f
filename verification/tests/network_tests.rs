use bacnet::network::NetworkError;
use bacnet::network::NetworkIndication;
use bacnet::network::NetworkRequest;
use bacnet::network::decode;
use bacnet::network::encode;

#[test]
fn encode_local_0() {
    let data = vec![0x01u8, 0x02, 0x03];
    let mut buf = Vec::new();
    encode(
        NetworkRequest { data: data.clone(), network_priority: 0, data_expecting_reply: false },
        &mut buf,
    );
    let mut expecting = vec![0x01, 0x00];
    expecting.extend(data);
    assert_eq!(buf, expecting);
}

#[test]
fn encode_local_3() {
    let data = vec![0x01u8, 0x02, 0x03];
    let mut buf = Vec::new();
    encode(
        NetworkRequest { data: data.clone(), network_priority: 3, data_expecting_reply: true },
        &mut buf,
    );
    let mut expecting = vec![0x01, 0x07];
    expecting.extend(data);
    assert_eq!(buf, expecting);
}

#[test]
fn decode_local() {
    assert_eq!(
        NetworkIndication { data: vec![1, 2], network_priority: 0, data_expecting_reply: false },
        decode(&[0x1u8, 0b00000000, 1, 2]).unwrap()
    );
    assert_eq!(
        NetworkIndication { data: vec![1, 2], network_priority: 1, data_expecting_reply: true },
        decode(&[0x1u8, 0b00000101, 1, 2]).unwrap()
    );
    assert_eq!(
        NetworkIndication { data: vec![1, 2], network_priority: 3, data_expecting_reply: true },
        decode(&[0x1u8, 0b00000111, 1, 2]).unwrap()
    );
}

#[test]
fn decode_unsupported() {
    assert_eq!(NetworkError::Unsupported, decode(&[0x2u8, 0b00000000, 1, 2]).unwrap_err());
    assert_eq!(NetworkError::Unsupported, decode(&[0x1u8, 0b10000000, 1, 2]).unwrap_err());
    assert_eq!(NetworkError::Unsupported, decode(&[0x1u8, 0b00100000, 1, 2]).unwrap_err());
    assert_eq!(NetworkError::Unsupported, decode(&[0x1u8, 0b00001000, 1, 2]).unwrap_err());
}

#[test]
fn decode_short_buffer() {
    assert_eq!(NetworkError::InputEndedBeforeParsingCompleted, decode(&[0x1u8]).unwrap_err());
    assert_eq!(NetworkError::InputEndedBeforeParsingCompleted, decode(&[]).unwrap_err());
}

#[test]
fn npdu_constructors_fix_priority() {
    let req = NetworkRequest::noreply(vec![9, 8]);
    assert_eq!(req.network_priority, 0);
    assert!(!req.data_expecting_reply);
    let req = NetworkRequest::expect_reply(vec![9, 8]);
    assert_eq!(req.network_priority, 0);
    assert!(req.data_expecting_reply);
}

#[test]
fn npdu_round_trip() {
    let mut buf = Vec::new();
    encode(
        NetworkRequest { data: vec![4, 5, 6], network_priority: 2, data_expecting_reply: true },
        &mut buf,
    );
    let ind = decode(&buf).unwrap();
    assert_eq!(ind.data, vec![4, 5, 6]);
    assert_eq!(ind.network_priority, 2);
    assert!(ind.data_expecting_reply);
}
