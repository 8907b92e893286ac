use voicecall::call_req::{parse_call_req, try_parse_call_req, write_call_req};

#[test]
fn test_req() {
    let bytes = write_call_req(69, 420);
    assert_eq!(bytes, "type:69 port:420");
    let (typ, port) = parse_call_req(bytes);
    assert_eq!((typ, port), (69, 420));
}

#[test]
fn write_call_req_extremes() {
    assert_eq!(write_call_req(0, 0), "type:0 port:0");
    assert_eq!(write_call_req(255, 65535), "type:255 port:65535");
    assert_eq!(write_call_req(1, 1001), "type:1 port:1001");
}

#[test]
fn call_req_roundtrip_many() {
    for t in [0u8, 1, 9, 10, 99, 100, 255] {
        for p in [0u16, 7, 10, 1001, 9999, 10000, 65535] {
            assert_eq!(try_parse_call_req(&write_call_req(t, p)), Some((t, p)));
        }
    }
}

#[test]
fn parse_accepts_plus_and_leading_zeros() {
    assert_eq!(try_parse_call_req(&"type:+3 port:007".to_string()), Some((3, 7)));
    assert_eq!(try_parse_call_req(&"x:12 y:5".to_string()), Some((12, 5)));
    // the port is everything after the first colon that follows the space
    assert_eq!(try_parse_call_req(&"x:12 y:z:5".to_string()), None);
}

#[test]
fn parse_rejects_malformed() {
    assert_eq!(try_parse_call_req(&"type 1 port 2".to_string()), None);
    assert_eq!(try_parse_call_req(&"type:1".to_string()), None);
    assert_eq!(try_parse_call_req(&"port 5 type:1".to_string()), None);
    assert_eq!(try_parse_call_req(&"type:1 port".to_string()), None);
    assert_eq!(try_parse_call_req(&"type: port:1".to_string()), None);
    assert_eq!(try_parse_call_req(&"type:+ port:1".to_string()), None);
    assert_eq!(try_parse_call_req(&"type:-1 port:1".to_string()), None);
    assert_eq!(try_parse_call_req(&"type:256 port:1".to_string()), None);
    assert_eq!(try_parse_call_req(&"type:1 port:65536".to_string()), None);
    assert_eq!(try_parse_call_req(&"type:1 port:12a".to_string()), None);
    assert_eq!(try_parse_call_req(&"type:1 port:".to_string()), None);
}

#[test]
fn parse_rejects_received_buffer_padding() {
    // a request read into a zero-filled buffer keeps the trailing NUL characters
    let mut s = write_call_req(0, 1001);
    s.push('\0');
    assert_eq!(try_parse_call_req(&s), None);
}
