use tcpserver::connection::{Connection, ConnectionState, ReadEnd, TokenGen, WriteOutcome, SERVER_TOKEN};
use tcpserver::dict::Dict;
use tcpserver::protocol::{encode_request, MAX_ARGS};

fn strings(v: &[&str]) -> Vec<String> {
    v.iter().map(|s| s.to_string()).collect()
}

#[test]
fn set_then_get_over_one_connection() {
    let mut store = Dict::default();
    let mut conn = Connection::new();
    let mut bytes = encode_request(&strings(&["set", "a", "b"]));
    bytes.extend_from_slice(&encode_request(&strings(&["get", "a"])));

    conn.on_read(&bytes, ReadEnd::WouldBlock, &mut store);
    assert_eq!(conn.state(), ConnectionState::WantWrite);
    assert!(conn.want_write());
    let ok_b: Vec<u8> = vec![0, 0, 0, 5, 0, 0, 0, 0, b'b'];
    let mut want = ok_b.clone();
    want.extend_from_slice(&ok_b);
    assert_eq!(conn.outgoing(), &want[..]);
    assert!(conn.incoming().is_empty());

    conn.on_write(WriteOutcome::Wrote(10));
    assert_eq!(conn.state(), ConnectionState::WantWrite);
    assert_eq!(conn.outgoing(), &want[10..]);
    conn.on_write(WriteOutcome::WouldBlock);
    assert_eq!(conn.state(), ConnectionState::WantWrite);
    conn.on_write(WriteOutcome::Wrote(8));
    assert_eq!(conn.state(), ConnectionState::WantRead);
    assert!(conn.want_read());
    assert!(conn.outgoing().is_empty());
}

#[test]
fn del_missing_is_not_found() {
    let mut store = Dict::default();
    let mut conn = Connection::new();
    let bytes = encode_request(&strings(&["del", "missing"]));
    conn.on_read(&bytes, ReadEnd::WouldBlock, &mut store);
    assert_eq!(conn.outgoing(), &[0, 0, 0, 4, 0, 0, 0, 1][..]);
}

#[test]
fn oversized_length_closes_without_response() {
    let mut store = Dict::default();
    let mut conn = Connection::new();
    let mut bytes = vec![0, 0, 0, 1];
    bytes.extend_from_slice(&((MAX_ARGS + 1) as u32).to_be_bytes());
    conn.on_read(&bytes, ReadEnd::WouldBlock, &mut store);
    assert!(conn.want_close());
    assert!(conn.outgoing().is_empty());
}

#[test]
fn partial_frame_waits_for_more() {
    let mut store = Dict::default();
    let mut conn = Connection::new();
    let bytes = encode_request(&strings(&["set", "k", "v"]));
    conn.on_read(&bytes[..7], ReadEnd::WouldBlock, &mut store);
    assert_eq!(conn.state(), ConnectionState::WantRead);
    assert_eq!(conn.incoming(), &bytes[..7]);
    assert_eq!(store.size(), 0);
    conn.on_read(&bytes[7..], ReadEnd::WouldBlock, &mut store);
    assert_eq!(conn.state(), ConnectionState::WantWrite);
    assert_eq!(store.size(), 1);
    assert!(conn.incoming().is_empty());
}

#[test]
fn end_of_input_and_failures_close() {
    let mut store = Dict::default();
    let mut conn = Connection::new();
    conn.on_read(&[], ReadEnd::Eof, &mut store);
    assert!(conn.want_close());

    let mut conn = Connection::new();
    let bytes = encode_request(&strings(&["get", "a"]));
    conn.on_read(&bytes, ReadEnd::Failed, &mut store);
    assert!(conn.want_close());
    assert!(conn.outgoing().is_empty());

    let mut conn = Connection::new();
    conn.on_read(&bytes, ReadEnd::WouldBlock, &mut store);
    conn.on_write(WriteOutcome::Wrote(0));
    assert!(conn.want_close());

    let mut conn = Connection::new();
    conn.on_read(&bytes, ReadEnd::WouldBlock, &mut store);
    conn.on_write(WriteOutcome::Failed);
    assert!(conn.want_close());

    let mut conn = Connection::new();
    conn.close();
    assert!(conn.want_close());
}

#[test]
fn tokens_count_up_from_past_the_listener() {
    let mut gen = TokenGen::new();
    assert_eq!(gen.next(), Some(SERVER_TOKEN + 1));
    assert_eq!(gen.next(), Some(SERVER_TOKEN + 2));
    assert_eq!(gen.next(), Some(3));
}
