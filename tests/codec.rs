use chartered_git::pktline::{decode_frame, CodecError, Encoder, Frame, GitCodec, PktLine};

#[test]
fn decode() {
    let mut codec = GitCodec;

    let mut bytes: Vec<u8> = Vec::new();

    bytes.extend_from_slice("0015agent=git/2.32.0".as_bytes());
    let res = codec.decode(&mut bytes).unwrap();
    assert_eq!(res, None);

    bytes.push(b'\n');
    bytes.extend_from_slice("0002".as_bytes());
    bytes.extend_from_slice("0004".as_bytes());
    bytes.extend_from_slice("0005a".as_bytes());

    let res = codec.decode(&mut bytes).unwrap();
    assert_eq!(res.as_deref(), Some("agent=git/2.32.0".as_bytes()));

    let res = codec.decode(&mut bytes).unwrap();
    assert_eq!(res.as_deref(), Some("".as_bytes()));

    let res = codec.decode(&mut bytes).unwrap();
    assert_eq!(res.as_deref(), Some("a".as_bytes()));

    let res = codec.decode(&mut bytes).unwrap();
    assert_eq!(res.as_deref(), None);
}

fn encode(item: PktLine) -> Result<Vec<u8>, CodecError> {
    let mut out = Vec::new();
    Encoder {}.encode(item, &mut out).map(|()| out)
}

#[test]
fn data_round_trip() {
    let payload = b"command=ls-refs".to_vec();
    let mut wire = encode(PktLine::Data(payload.clone())).unwrap();
    assert_eq!(wire, b"0013command=ls-refs".to_vec());
    wire.extend_from_slice(b"00");
    let got = GitCodec.decode(&mut wire).unwrap();
    assert_eq!(got, Some(payload));
    assert_eq!(wire, b"00".to_vec());
}

#[test]
fn control_frames_round_trip() {
    assert_eq!(encode(PktLine::Flush).unwrap(), b"0000".to_vec());
    assert_eq!(encode(PktLine::Delimiter).unwrap(), b"0001".to_vec());
    assert_eq!(encode(PktLine::ResponseEnd).unwrap(), b"0002".to_vec());
    let mut wire = b"000000010002".to_vec();
    assert!(matches!(decode_frame(&mut wire), Ok(Some(Frame::Flush))));
    assert!(matches!(decode_frame(&mut wire), Ok(Some(Frame::Delimiter))));
    assert!(matches!(decode_frame(&mut wire), Ok(Some(Frame::ResponseEnd))));
    assert!(matches!(decode_frame(&mut wire), Ok(None)));
}

#[test]
fn length_four_is_empty_payload_not_flush() {
    let mut wire = b"0004".to_vec();
    match decode_frame(&mut wire) {
        Ok(Some(Frame::Data(p))) => assert!(p.is_empty()),
        _ => panic!("expected an empty data frame"),
    }
    assert!(wire.is_empty());
}

#[test]
fn largest_payload_and_one_more() {
    let wire = encode(PktLine::Data(vec![b'x'; 65516])).unwrap();
    assert_eq!(wire.len(), 65520);
    assert_eq!(&wire[..4], b"fff0");
    let mut out = b"keep".to_vec();
    let r = Encoder {}.encode(PktLine::Data(vec![b'x'; 65517]), &mut out);
    assert_eq!(r, Err(CodecError::PayloadTooLarge));
    assert_eq!(out, b"keep".to_vec());
    let mut back = wire.clone();
    let got = GitCodec.decode(&mut back).unwrap().unwrap();
    assert_eq!(got.len(), 65516);
}

#[test]
fn bad_length_fields() {
    let mut wire = b"zz12abcd".to_vec();
    assert_eq!(GitCodec.decode(&mut wire), Err(CodecError::ProtocolAbuse));
    assert_eq!(wire, b"zz12abcd".to_vec());
    let mut wire = b"0003".to_vec();
    assert_eq!(GitCodec.decode(&mut wire), Err(CodecError::ProtocolAbuse));
    let mut wire = b"fff1".to_vec();
    assert_eq!(GitCodec.decode(&mut wire), Err(CodecError::ProtocolAbuse));
    let mut wire = b"+00a".to_vec();
    assert_eq!(GitCodec.decode(&mut wire), Err(CodecError::ProtocolAbuse));
}

#[test]
fn partial_frame_is_not_consumed() {
    let mut wire = b"0009don".to_vec();
    assert_eq!(GitCodec.decode(&mut wire), Ok(None));
    assert_eq!(wire, b"0009don".to_vec());
    wire.extend_from_slice(b"e\n");
    assert_eq!(GitCodec.decode(&mut wire), Ok(Some(b"done".to_vec())));
}

#[test]
fn sideband_message_and_chunked_data() {
    assert_eq!(encode(PktLine::SidebandMsg(b"hi".to_vec())).unwrap(), b"0007\x02hi".to_vec());
    let data: Vec<u8> = (0..(65515 * 2 + 1)).map(|i| (i % 251) as u8).collect();
    let wire = encode(PktLine::SidebandData(data.clone())).unwrap();
    assert_eq!(wire.len(), 2 * 65520 + 6);
    assert_eq!(&wire[..5], b"fff0\x01");
    assert_eq!(&wire[65520..65525], b"fff0\x01");
    assert_eq!(&wire[2 * 65520..2 * 65520 + 5], b"0006\x01");
    let mut joined = Vec::new();
    joined.extend_from_slice(&wire[5..65520]);
    joined.extend_from_slice(&wire[65525..2 * 65520]);
    joined.extend_from_slice(&wire[2 * 65520 + 5..]);
    assert_eq!(joined, data);
    assert_eq!(encode(PktLine::SidebandData(Vec::new())).unwrap(), Vec::<u8>::new());
}
