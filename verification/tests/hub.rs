use plumb::http::{b64url_encode, encode_request_line, open_request};
use plumb::hub::History;
use plumb::json::{
    json_escape, log_delivered, log_parse_error, log_unknown_id, response_json,
};
use plumb::pending::PendingTable;

#[test]
fn broadcast_replay() {
    // history depth three; the producer writes four lines
    let mut history = History::new(3);
    for line in ["a", "b", "c", "d"] {
        history.push(&line.as_bytes().to_vec());
    }
    // a subscriber connecting now is replayed the last three, in order
    let replay = history.replay();
    assert_eq!(
        replay,
        vec![b"b".to_vec(), b"c".to_vec(), b"d".to_vec()]
    );
}

#[test]
fn history_shorter_than_depth_is_replayed_whole() {
    let mut history = History::new(3);
    assert_eq!(history.len(), 0);
    history.push(&b"a".to_vec());
    history.push(&b"b".to_vec());
    assert_eq!(history.replay(), vec![b"a".to_vec(), b"b".to_vec()]);
    assert_eq!(history.len(), 2);
}

#[test]
fn history_push_reports_trimming() {
    let mut history = History::new(2);
    assert!(!history.push(&b"a".to_vec()));
    assert!(!history.push(&b"b".to_vec()));
    assert!(history.push(&b"c".to_vec()));
    assert_eq!(history.replay(), vec![b"b".to_vec(), b"c".to_vec()]);
}

#[test]
fn pending_take_delivers_each_response_once() {
    let mut table = PendingTable::new();
    table.register("alpha".to_string(), 7);
    table.register("beta".to_string(), 9);
    assert_eq!(table.len(), 2);

    assert!(table.is_pending(&"alpha".to_string()));
    assert_eq!(table.take(&"alpha".to_string()), Some(7));
    // consumed: the same id claims nothing the second time
    assert_eq!(table.take(&"alpha".to_string()), None);
    // the other request is untouched
    assert_eq!(table.take(&"beta".to_string()), Some(9));
    assert_eq!(table.take(&"unknown".to_string()), None);
    assert_eq!(table.len(), 0);
}

#[test]
fn open_request_registers_a_fresh_id() {
    let mut table = PendingTable::new();
    let id = open_request(&mut table, 41);
    assert_eq!(id.len(), 36);
    assert!(table.is_pending(&id));
    assert_eq!(table.take(&id), Some(41));
    assert_eq!(table.take(&id), None);

    // two requests get distinct ids
    let a = open_request(&mut table, 1);
    let b = open_request(&mut table, 2);
    assert_ne!(a, b);
    assert_eq!(table.take(&a), Some(1));
    assert_eq!(table.take(&b), Some(2));

    // hyphenated lowercase hex, five groups
    for (i, c) in a.chars().enumerate() {
        if i == 8 || i == 13 || i == 18 || i == 23 {
            assert_eq!(c, '-');
        } else {
            assert!(c.is_ascii_hexdigit() && !c.is_ascii_uppercase());
        }
    }
}

#[test]
fn body_is_base64_url_safe_with_padding() {
    assert_eq!(b64url_encode(&b"hi".to_vec()), b"aGk=".to_vec());
    assert_eq!(b64url_encode(&Vec::new()), Vec::<u8>::new());
    assert_eq!(b64url_encode(&b"abc".to_vec()), b"YWJj".to_vec());
    assert_eq!(b64url_encode(&b"abcd".to_vec()), b"YWJjZA==".to_vec());
    // bytes that hit the URL-safe digits where standard base64 uses + /
    assert_eq!(b64url_encode(&vec![0xfb, 0xef]), b"--8=".to_vec());
    assert_eq!(b64url_encode(&vec![0xff, 0xff, 0xff]), b"____".to_vec());
}

#[test]
fn request_frame_carries_the_encoded_body_and_id() {
    let frame = encode_request_line(
        &b"POST".to_vec(),
        &vec![(b"Content-Length".to_vec(), b"2".to_vec())],
        &b"127.0.0.1:9999".to_vec(),
        &b"/".to_vec(),
        &b"hi".to_vec(),
        &b"11111111-2222-3333-4444-555555555555".to_vec(),
    );
    let v: serde_json::Value = serde_json::from_slice(&frame).unwrap();
    assert_eq!(v["topic"], "http.request");
    assert_eq!(v["content"]["method"], "POST");
    assert_eq!(v["content"]["url"], "/");
    assert_eq!(v["content"]["remote_addr"], "127.0.0.1:9999");
    assert_eq!(v["content"]["body"], "aGk=");
    assert_eq!(
        v["content"]["request_id"],
        "11111111-2222-3333-4444-555555555555"
    );
    assert_eq!(v["content"]["headers"][0][0], "Content-Length");
    assert_eq!(v["content"]["headers"][0][1], "2");
}

#[test]
fn json_escaping_survives_a_parser_round_trip() {
    let nasty = "a\"b\\c\nd\te\u{1}f";
    let escaped = json_escape(&nasty.as_bytes().to_vec());
    let quoted = format!("\"{}\"", String::from_utf8(escaped).unwrap());
    let back: serde_json::Value = serde_json::from_str(&quoted).unwrap();
    assert_eq!(back, serde_json::Value::String(nasty.to_string()));
}

#[test]
fn log_lines_are_json_with_the_right_severity() {
    let content = response_json(
        &b"id-1".to_vec(),
        &b"ok".to_vec(),
        &Some(vec![(b"X-Extra".to_vec(), b"1".to_vec())]),
    );
    let delivered: serde_json::Value =
        serde_json::from_slice(&log_delivered(&content)).unwrap();
    assert_eq!(delivered["topic"], "http.response.log");
    assert_eq!(delivered["severity"], "INFO");
    assert_eq!(delivered["content"]["request_id"], "id-1");
    assert_eq!(delivered["content"]["body"], "ok");
    assert_eq!(delivered["content"]["headers"][0][0], "X-Extra");

    let unknown: serde_json::Value =
        serde_json::from_slice(&log_unknown_id(&content)).unwrap();
    assert_eq!(unknown["severity"], "ERROR");
    assert_eq!(unknown["error"], "unknown request_id");

    let bad: serde_json::Value =
        serde_json::from_slice(&log_parse_error(&b"not json {".to_vec())).unwrap();
    assert_eq!(bad["severity"], "ERROR");
    assert_eq!(bad["error"], "unable to parse response");
    assert_eq!(bad["content"], "not json {");
}

#[test]
fn response_without_headers_serializes_them_as_null() {
    let content = response_json(&b"id-2".to_vec(), &b"ok".to_vec(), &None);
    let v: serde_json::Value = serde_json::from_slice(&content).unwrap();
    assert_eq!(v["request_id"], "id-2");
    assert_eq!(v["body"], "ok");
    assert!(v["headers"].is_null());
}
