use bacnet::bacnet_ip::BipCodec;
use bacnet::bacnet_ip::VLLFrame;
use bacnet::bacnet_ip::VllError;

#[allow(non_snake_case)]
#[test]
fn decodeErr() {
    assert_eq!(BipCodec.decode(&[0x45, 0, 0, 4]).unwrap_err(), VllError::InvalidData);
    assert_eq!(BipCodec.decode(&[0x81, 0, 0, 4]).unwrap_err(), VllError::Unsupported);
    assert_eq!(BipCodec.decode(&[0x81, 10, 1, 4]).unwrap_err(), VllError::InvalidData);
    assert_eq!(BipCodec.decode(&[0x81, 10, 0, 5]).unwrap_err(), VllError::InvalidData);
    assert_eq!(BipCodec.decode(&[]).unwrap_err(), VllError::InvalidData);
}

#[allow(non_snake_case)]
#[test]
fn decodeNPDU() {
    let mut data = vec![0x81u8, 0x0a, 0, 9];
    data.extend("Hello".as_bytes());
    assert_eq!(
        BipCodec.decode(&data).unwrap(),
        VLLFrame::OriginalUnicastNPDU("Hello".as_bytes().to_vec())
    );
}

#[allow(non_snake_case)]
#[test]
fn encodeNPDU() {
    let mut buf = Vec::new();
    let npdu = "Hello".as_bytes().to_vec();
    let frame = VLLFrame::OriginalUnicastNPDU(npdu.clone());
    BipCodec.encode(frame, &mut buf);
    let mut expected = vec![0x81u8, 0x0a, 0, 9];
    expected.extend(npdu);
    assert_eq!(expected, buf);
}

#[test]
fn vll_length_field_counts_header() {
    let mut buf = Vec::new();
    BipCodec.encode(VLLFrame::OriginalUnicastNPDU(vec![0; 300]), &mut buf);
    assert_eq!(buf.len(), 304);
    assert_eq!((buf[2] as usize) * 256 + buf[3] as usize, 304);
    let decoded = BipCodec.decode(&buf).unwrap();
    assert_eq!(decoded, VLLFrame::OriginalUnicastNPDU(vec![0; 300]));
}
