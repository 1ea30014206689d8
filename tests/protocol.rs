use tcpserver::dict::Dict;
use tcpserver::protocol::{
    encode_request, handle_and_encode_request, parse_request, parse_response, serialize, ParseError, MAX_ARGS,
    RES_ERR, RES_NX, RES_OK,
};

fn strings(v: &[&str]) -> Vec<String> {
    v.iter().map(|s| s.to_string()).collect()
}

#[test]
fn request_round_trip() {
    let args = strings(&["set", "key", "välue ✓", ""]);
    let bytes = encode_request(&args);
    let (parsed, end) = parse_request(&bytes).unwrap();
    assert_eq!(parsed, args);
    assert_eq!(end, bytes.len());

    let mut more = bytes.clone();
    more.extend_from_slice(&[0, 0, 0]);
    let (parsed, end) = parse_request(&more).unwrap();
    assert_eq!(parsed, args);
    assert_eq!(end, bytes.len());
}

#[test]
fn request_bytes_layout() {
    let bytes = encode_request(&strings(&["get", "a"]));
    assert_eq!(
        bytes,
        vec![0, 0, 0, 2, 0, 0, 0, 3, b'g', b'e', b't', 0, 0, 0, 1, b'a']
    );
    let empty = encode_request(&Vec::new());
    assert_eq!(empty, vec![0, 0, 0, 0]);
    assert_eq!(parse_request(&empty).unwrap(), (Vec::new(), 4));
}

#[test]
fn short_buffer_needs_more() {
    let bytes = encode_request(&strings(&["get", "abc"]));
    assert_eq!(bytes.len(), 18);
    assert_eq!(
        parse_request(&bytes[..2]).unwrap_err(),
        ParseError::NotEnoughBytes { want: 4, got: 2 }
    );
    assert_eq!(
        parse_request(&bytes[..6]).unwrap_err(),
        ParseError::NotEnoughBytes { want: 8, got: 6 }
    );
    assert_eq!(
        parse_request(&bytes[..9]).unwrap_err(),
        ParseError::NotEnoughBytes { want: 11, got: 9 }
    );
    assert_eq!(
        parse_request(&bytes[..17]).unwrap_err(),
        ParseError::NotEnoughBytes { want: 18, got: 17 }
    );
    for m in 0..bytes.len() {
        match parse_request(&bytes[..m]) {
            Err(ParseError::NotEnoughBytes { want, got }) => {
                assert_eq!(got, m);
                assert!(m < want && want <= bytes.len());
            }
            other => panic!("unexpected {other:?}"),
        }
    }
}

#[test]
fn oversized_count_or_length_is_a_protocol_error() {
    let too_many = ((MAX_ARGS + 1) as u32).to_be_bytes();
    assert_eq!(parse_request(&too_many).unwrap_err(), ParseError::ProtocolError);

    let mut long = vec![0, 0, 0, 1];
    long.extend_from_slice(&((MAX_ARGS + 1) as u32).to_be_bytes());
    assert_eq!(parse_request(&long).unwrap_err(), ParseError::ProtocolError);

    let mut at_limit = vec![0, 0, 0, 1];
    at_limit.extend_from_slice(&(MAX_ARGS as u32).to_be_bytes());
    assert_eq!(
        parse_request(&at_limit).unwrap_err(),
        ParseError::NotEnoughBytes { want: 8 + MAX_ARGS, got: 8 }
    );
}

#[test]
fn invalid_utf8_is_a_protocol_error() {
    let bytes = vec![0, 0, 0, 1, 0, 0, 0, 2, 0xc3, 0x28];
    assert_eq!(parse_request(&bytes).unwrap_err(), ParseError::ProtocolError);
}

#[test]
fn serialize_frames_status_and_payload() {
    let mut buf = Vec::new();
    serialize(RES_OK, b"hi", &mut buf);
    assert_eq!(buf, vec![0, 0, 0, 6, 0, 0, 0, 0, b'h', b'i']);
    serialize(RES_NX, &[], &mut buf);
    assert_eq!(&buf[10..], &[0, 0, 0, 4, 0, 0, 0, 1]);
    serialize(RES_ERR, &[], &mut buf);
    assert_eq!(&buf[18..], &[0, 0, 0, 4, 0xff, 0xff, 0xff, 0xff]);
}

#[test]
fn commands_against_the_store() {
    let mut store = Dict::default();
    let mut buf = Vec::new();

    handle_and_encode_request(strings(&["set", "a", "b"]), &mut store, &mut buf);
    assert_eq!(buf, vec![0, 0, 0, 5, 0, 0, 0, 0, b'b']);
    buf.clear();

    handle_and_encode_request(strings(&["get", "a"]), &mut store, &mut buf);
    assert_eq!(buf, vec![0, 0, 0, 5, 0, 0, 0, 0, b'b']);
    buf.clear();

    handle_and_encode_request(strings(&["del", "missing"]), &mut store, &mut buf);
    assert_eq!(buf, vec![0, 0, 0, 4, 0, 0, 0, 1]);
    buf.clear();

    handle_and_encode_request(strings(&["get", "missing"]), &mut store, &mut buf);
    assert_eq!(buf, vec![0, 0, 0, 4, 0, 0, 0, 1]);
    buf.clear();

    handle_and_encode_request(strings(&["del", "a"]), &mut store, &mut buf);
    assert_eq!(buf, vec![0, 0, 0, 5, 0, 0, 0, 0, b'b']);
    assert_eq!(store.size(), 0);
    buf.clear();

    handle_and_encode_request(strings(&["ping"]), &mut store, &mut buf);
    assert_eq!(buf, vec![0, 0, 0, 4, 0, 0, 0, 0]);
    buf.clear();

    handle_and_encode_request(strings(&["get", "a", "b"]), &mut store, &mut buf);
    assert_eq!(buf, vec![0, 0, 0, 4, 0, 0, 0, 0]);
    assert_eq!(store.size(), 0);
}

#[test]
fn response_round_trip() {
    let mut buf = Vec::new();
    serialize(RES_OK, b"value", &mut buf);
    serialize(RES_ERR, &[], &mut buf);
    let (status, payload, end) = parse_response(&buf).unwrap();
    assert_eq!(status, RES_OK);
    assert_eq!(payload, b"value".to_vec());
    assert_eq!(end, 13);
    let (status, payload, end) = parse_response(&buf[end..]).unwrap();
    assert_eq!(status, RES_ERR);
    assert!(payload.is_empty());
    assert_eq!(end, 8);
    assert_eq!(
        parse_response(&buf[..10]).unwrap_err(),
        ParseError::NotEnoughBytes { want: 13, got: 10 }
    );
    assert_eq!(
        parse_response(&buf[..3]).unwrap_err(),
        ParseError::NotEnoughBytes { want: 8, got: 3 }
    );
    assert_eq!(
        parse_response(&[0, 0, 0, 3, 0, 0, 0, 0]).unwrap_err(),
        ParseError::ProtocolError
    );
}
