use tcpserver::framing::{LPFrame, LengthPrefixed, Protocol};

#[test]
fn length_prefixed_round_trip() {
    let frame = LPFrame("héllo".to_string());
    let bytes = LengthPrefixed::encode(&frame);
    assert_eq!(bytes, vec![0, 0, 0, 6, b'h', 0xc3, 0xa9, b'l', b'l', b'o']);
    let back = LengthPrefixed::parse(&bytes).unwrap();
    assert_eq!(back.0, "héllo");
}

#[test]
fn length_prefixed_needs_whole_frame() {
    let bytes = LengthPrefixed::encode(&LPFrame("abc".to_string()));
    assert!(LengthPrefixed::parse(&bytes[..2]).is_none());
    assert!(LengthPrefixed::parse(&bytes[..6]).is_none());
    let mut more = bytes.clone();
    more.extend_from_slice(b"rest");
    assert_eq!(LengthPrefixed::parse(&more).unwrap().0, "abc");
}

#[test]
fn length_prefixed_many() {
    let frames = vec![LPFrame("a".to_string()), LPFrame(String::new()), LPFrame("bc".to_string())];
    let bytes = LengthPrefixed::encode_many(&frames);
    assert_eq!(
        bytes,
        vec![0, 0, 0, 1, b'a', 0, 0, 0, 0, 0, 0, 0, 2, b'b', b'c']
    );
    assert!(LengthPrefixed::encode_many(&[]).is_empty());
}
