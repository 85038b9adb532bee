use kvserver::connection::{Connection, ConnectionState, BUF_CAP};
use kvserver::store::KvStore;
use kvserver::wire::encode_request;

fn frame(args: &[&str]) -> Vec<u8> {
    let v: Vec<String> = args.iter().map(|s| s.to_string()).collect();
    encode_request(&v).unwrap()
}

fn response(code: u8, text: &str) -> Vec<u8> {
    let mut r = vec![(4 + text.len()) as u8, 0, 0, 0, code, 0, 0, 0];
    r.extend_from_slice(text.as_bytes());
    r
}

/// Sends everything pending, as a socket that takes all bytes at once would.
fn flush(conn: &mut Connection) -> Vec<u8> {
    let out = conn.pending_output().to_vec();
    conn.on_sent(out.len());
    out
}

/// Feeds bytes, then answers every complete request, collecting responses.
fn exchange(conn: &mut Connection, kv: &mut KvStore, bytes: &[u8]) -> Vec<Vec<u8>> {
    conn.receive(bytes);
    let mut answers = Vec::new();
    while conn.try_one_request(kv) {
        answers.push(flush(conn));
    }
    answers
}

#[test]
fn new_connection_is_reading_and_empty() {
    let conn = Connection::new();
    assert_eq!(conn.state(), ConnectionState::Reading);
    assert_eq!(conn.read_buf_size(), 0);
    assert_eq!(conn.read_capacity(), BUF_CAP);
    assert!(conn.pending_output().is_empty());
}

#[test]
fn end_to_end_scenario() {
    let mut conn = Connection::new();
    let mut kv = KvStore::new();
    assert_eq!(exchange(&mut conn, &mut kv, &frame(&["set", "a", "1"])), vec![response(0, "")]);
    assert_eq!(exchange(&mut conn, &mut kv, &frame(&["get", "a"])), vec![response(0, "1")]);
    assert_eq!(exchange(&mut conn, &mut kv, &frame(&["get", "b"])), vec![response(2, "")]);
    assert_eq!(exchange(&mut conn, &mut kv, &frame(&["del", "a"])), vec![response(0, "")]);
    assert_eq!(exchange(&mut conn, &mut kv, &frame(&["get", "a"])), vec![response(2, "")]);
    assert_eq!(conn.state(), ConnectionState::Reading);
}

#[test]
fn pipelined_frames_answered_in_order() {
    let mut conn = Connection::new();
    let mut kv = KvStore::new();
    let mut bytes = frame(&["set", "k", "v"]);
    bytes.extend(frame(&["get", "k"]));
    let answers = exchange(&mut conn, &mut kv, &bytes);
    assert_eq!(answers, vec![response(0, ""), response(0, "v")]);
    assert_eq!(conn.read_buf_size(), 0);
}

#[test]
fn pipelined_second_frame_waits_for_flush() {
    let mut conn = Connection::new();
    let mut kv = KvStore::new();
    let mut bytes = frame(&["get", "x"]);
    bytes.extend(frame(&["get", "y"]));
    conn.receive(&bytes);
    assert!(conn.try_one_request(&mut kv));
    assert_eq!(conn.state(), ConnectionState::Responding);
    // The second request stays buffered until the first answer is sent.
    assert!(!conn.try_one_request(&mut kv));
    assert_eq!(conn.read_buf_size(), frame(&["get", "y"]).len());
    assert_eq!(flush(&mut conn), response(2, ""));
    assert!(conn.try_one_request(&mut kv));
    assert_eq!(flush(&mut conn), response(2, ""));
}

#[test]
fn fragmented_frame_decoded_once() {
    let mut conn = Connection::new();
    let mut kv = KvStore::new();
    let bytes = frame(&["set", "key", "value"]);
    let mut answers = Vec::new();
    for b in bytes.iter() {
        answers.extend(exchange(&mut conn, &mut kv, &[*b]));
    }
    assert_eq!(answers, vec![response(0, "")]);
    assert_eq!(exchange(&mut conn, &mut kv, &frame(&["get", "key"])), vec![response(0, "value")]);
}

#[test]
fn fragmented_in_uneven_pieces() {
    let mut conn = Connection::new();
    let mut kv = KvStore::new();
    let mut bytes = frame(&["set", "a", "1"]);
    bytes.extend(frame(&["get", "a"]));
    let mut answers = Vec::new();
    for piece in bytes.chunks(3) {
        answers.extend(exchange(&mut conn, &mut kv, piece));
    }
    assert_eq!(answers, vec![response(0, ""), response(0, "1")]);
}

#[test]
fn partial_send_keeps_responding() {
    let mut conn = Connection::new();
    let mut kv = KvStore::new();
    conn.receive(&frame(&["get", "a"]));
    assert!(conn.try_one_request(&mut kv));
    let all = conn.pending_output().to_vec();
    conn.on_sent(3);
    assert_eq!(conn.state(), ConnectionState::Responding);
    assert_eq!(conn.pending_output(), &all[3..]);
    conn.on_sent(all.len() - 3);
    assert_eq!(conn.state(), ConnectionState::Reading);
    assert!(conn.pending_output().is_empty());
}

#[test]
fn malformed_frame_answered_with_error() {
    let mut conn = Connection::new();
    let mut kv = KvStore::new();
    // Payload: one argument declared 100 bytes long, in 8 bytes.
    let bytes = vec![8, 0, 0, 0, 1, 0, 0, 0, 100, 0, 0, 0];
    let answers = exchange(&mut conn, &mut kv, &bytes);
    assert_eq!(answers, vec![response(1, "Cannot parse command!")]);
    assert_eq!(conn.state(), ConnectionState::Reading);
    assert_eq!(exchange(&mut conn, &mut kv, &frame(&["get", "a"])), vec![response(2, "")]);
}

#[test]
fn unknown_command_answered_with_error() {
    let mut conn = Connection::new();
    let mut kv = KvStore::new();
    let answers = exchange(&mut conn, &mut kv, &frame(&["put", "a", "b"]));
    assert_eq!(answers, vec![response(1, "Cannot parse command!")]);
}

#[test]
fn oversized_header_ends_connection() {
    let mut conn = Connection::new();
    let mut kv = KvStore::new();
    conn.receive(&[1, 16, 0, 0, 0, 0]);
    assert!(!conn.try_one_request(&mut kv));
    assert_eq!(conn.state(), ConnectionState::End);
    assert!(conn.pending_output().is_empty());
}

#[test]
fn largest_payload_accepted() {
    let mut conn = Connection::new();
    let mut kv = KvStore::new();
    // set k <v>: 4 + 7 + 5 + 4 + len(v) = 4096.
    let value = "v".repeat(4076);
    let bytes = frame(&["set", "k", &value]);
    assert_eq!(bytes.len(), BUF_CAP);
    assert_eq!(exchange(&mut conn, &mut kv, &bytes), vec![response(0, "")]);
    let answers = exchange(&mut conn, &mut kv, &frame(&["get", "k"]));
    let mut expected = vec![0xf0, 0x0f, 0, 0, 0, 0, 0, 0];
    expected.extend_from_slice(value.as_bytes());
    assert_eq!(answers, vec![expected]);
}

#[test]
fn empty_read_ends_connection() {
    let mut conn = Connection::new();
    conn.receive(&[]);
    assert_eq!(conn.state(), ConnectionState::End);
    let mut conn = Connection::new();
    conn.receive(&[3, 0]);
    conn.receive(&[]);
    assert_eq!(conn.state(), ConnectionState::End);
    assert_eq!(conn.read_buf_size(), 2);
}

#[test]
fn close_ends_connection() {
    let mut conn = Connection::new();
    conn.close();
    assert_eq!(conn.state(), ConnectionState::End);
    let mut kv = KvStore::new();
    conn.close();
    assert!(!conn.try_one_request(&mut kv));
}
