use streamduck_core::devices::{encode_event, DeviceList, GlobalEvent};
use streamduck_core::socket::{
    encode_frame, encode_packet, event_packet, new_request, socket_api_version_response, ClientAction, ClientState,
    Connection, FrameReader, SocketManager, SocketPacket, EOT,
};

fn packet(ty: &str, requester: Option<&str>, data: Option<&str>) -> SocketPacket {
    SocketPacket { ty: ty.to_string(), requester: requester.map(|s| s.to_string()), data: data.map(|s| s.to_string()) }
}

#[test]
fn version_request_framing() {
    let mut reader = FrameReader::new();
    reader.push_bytes(&b"{\"ty\":\"socket_api_version\",\"requester\":\"abc\"}\x04".to_vec());
    let frame = reader.next_frame().unwrap();
    assert_eq!(frame, b"{\"ty\":\"socket_api_version\",\"requester\":\"abc\"}".to_vec());
    assert!(reader.buffer.is_empty());
    let request = packet("socket_api_version", Some("abc"), None);
    let response = socket_api_version_response(&request);
    let mut conn = Connection::new();
    let bytes = conn.respond(&request, response.data);
    assert_eq!(
        String::from_utf8(bytes).unwrap(),
        "{\"ty\":\"socket_api_version\",\"requester\":\"abc\",\"data\":{\"version\":\"0.2\"}}\u{4}"
    );
}

#[test]
fn frames_split_on_eot() {
    let mut reader = FrameReader::new();
    reader.push_bytes(&vec![b'a', EOT, b'b', b'c']);
    assert_eq!(reader.next_frame().unwrap(), b"a".to_vec());
    assert!(reader.next_frame().is_none());
    assert_eq!(reader.buffer, b"bc".to_vec());
    reader.push_bytes(&vec![EOT, EOT]);
    assert_eq!(reader.next_frame().unwrap(), b"bc".to_vec());
    assert_eq!(reader.next_frame().unwrap(), Vec::<u8>::new());
    assert!(reader.next_frame().is_none());
}

#[test]
fn strings_are_escaped() {
    let p = packet("t\"y\\", None, None);
    assert_eq!(String::from_utf8(encode_packet(&p)).unwrap(), "{\"ty\":\"t\\\"y\\\\\"}");
    let p = packet("a\nb\u{1f}é", None, Some("[1,2]"));
    assert_eq!(String::from_utf8(encode_packet(&p)).unwrap(), "{\"ty\":\"a\\u000ab\\u001fé\",\"data\":[1,2]}");
    let f = encode_frame(&p);
    assert_eq!(*f.last().unwrap(), EOT);
}

#[test]
fn event_frames() {
    let mut conn = Connection::new();
    let bytes = conn.push_event("{\"DeviceConnected\":{\"serial_number\":\"X\"}}".to_string());
    assert_eq!(
        String::from_utf8(bytes).unwrap(),
        "{\"ty\":\"event\",\"data\":{\"DeviceConnected\":{\"serial_number\":\"X\"}}}\u{4}"
    );
    let e = event_packet("1".to_string());
    assert_eq!(e.ty, "event");
    assert!(e.requester.is_none());
}

#[test]
fn client_buffers_events_while_waiting() {
    let mut client = ClientState::new();
    let id = "req1".to_string();
    let ev = packet("event", None, Some("{\"DeviceConnected\":{\"serial_number\":\"X\"}}"));
    assert!(matches!(client.on_frame(ev, &id), ClientAction::Continue));
    let other = packet("list_devices", Some("someone-else"), Some("[]"));
    assert!(matches!(client.on_frame(other, &id), ClientAction::Continue));
    let resp = packet("add_device", Some("req1"), Some("\"Added\""));
    match client.on_frame(resp, &id) {
        ClientAction::Response(p) => assert_eq!(p.data.unwrap(), "\"Added\""),
        ClientAction::Continue => panic!("expected the response"),
    }
    assert_eq!(client.get_event().unwrap(), "{\"DeviceConnected\":{\"serial_number\":\"X\"}}");
    assert!(client.get_event().is_none());
}

#[test]
fn events_come_out_in_order() {
    let mut client = ClientState::new();
    let id = "r".to_string();
    client.on_frame(packet("event", None, Some("1")), &id);
    client.on_frame(packet("event", None, Some("2")), &id);
    assert_eq!(client.get_event().unwrap(), "1");
    assert_eq!(client.get_event().unwrap(), "2");
}

#[test]
fn one_response_per_request() {
    let mut conn = Connection::new();
    let r1 = packet("get_device", Some("R"), None);
    conn.push_event("1".to_string());
    conn.respond(&r1, Some("{}".to_string()));
    conn.push_event("2".to_string());
    conn.push_event("3".to_string());
    let r2 = packet("list_devices", Some("S"), None);
    conn.respond(&r2, None);
    let with_r = conn.written.iter().filter(|p| p.requester.as_deref() == Some("R")).count();
    assert_eq!(with_r, 1);
    assert_eq!(conn.written.len(), 5);
    assert_eq!(conn.written[1].ty, "get_device");
}

#[test]
fn requests_get_random_ids() {
    let a = new_request("list_devices".to_string(), None);
    let b = new_request("list_devices".to_string(), None);
    let ida = a.requester.unwrap();
    assert_eq!(ida.len(), 20);
    assert!(ida.chars().all(|c| c.is_ascii_alphanumeric()));
    assert_ne!(ida, b.requester.unwrap());
}

#[test]
fn subscribed_client_sees_device_event() {
    let mut sockets = SocketManager::new(8);
    let subscriber = sockets.open_connection();
    let other = sockets.open_connection();
    let mut devices = DeviceList::new();
    assert!(devices.add_device(&mut sockets, "X".to_string()));
    let event = "{\"DeviceConnected\":{\"serial_number\":\"X\"}}".to_string();
    assert_eq!(sockets.take_event(other).unwrap(), event);
    let pending = sockets.take_event(subscriber).unwrap();
    let mut conn = Connection::new();
    let bytes = conn.push_event(pending);
    let mut reader = FrameReader::new();
    reader.push_bytes(&bytes);
    let frame = String::from_utf8(reader.next_frame().unwrap()).unwrap();
    assert!(frame.starts_with("{\"ty\":\"event\""));
    assert!(frame.contains("DeviceConnected"));
    assert!(frame.contains("\"X\""));
    assert!(sockets.take_event(subscriber).is_none());
}

#[test]
fn full_queue_drops_oldest() {
    let mut sockets = SocketManager::new(2);
    let c = sockets.open_connection();
    for e in ["1", "2", "3"] {
        sockets.send_event(&e.to_string());
    }
    assert_eq!(sockets.take_event(c).unwrap(), "2");
    assert_eq!(sockets.take_event(c).unwrap(), "3");
    assert!(sockets.take_event(c).is_none());
}

#[test]
fn await_response_buffers_events_before_the_answer() {
    let mut client = ClientState::new();
    let frames = vec![
        packet("event", None, Some("1")),
        packet("list_devices", Some("other"), Some("[]")),
        packet("event", None, Some("2")),
        packet("get_device", Some("me"), Some("{}")),
        packet("event", None, Some("3")),
    ];
    let r = client.await_response(frames, &"me".to_string()).unwrap();
    assert_eq!(r.ty, "get_device");
    assert_eq!(client.event_buffer, vec!["1".to_string(), "2".to_string()]);
    let none = client.await_response(vec![packet("event", None, Some("4"))], &"me".to_string());
    assert!(none.is_none());
    assert_eq!(client.event_buffer.len(), 3);
}

#[test]
fn device_lifecycle_events() {
    let mut sockets = SocketManager::new(8);
    let c = sockets.open_connection();
    let mut devices = DeviceList::new();
    assert!(devices.add_device(&mut sockets, "A\"1\\\n".to_string()));
    assert!(!devices.add_device(&mut sockets, "A\"1\\\n".to_string()));
    assert_eq!(
        sockets.take_event(c).unwrap(),
        "{\"DeviceConnected\":{\"serial_number\":\"A\\\"1\\\\\\u000a\"}}"
    );
    assert!(sockets.take_event(c).is_none());
    assert!(devices.remove_device(&mut sockets, &"A\"1\\\n".to_string()));
    assert!(!devices.remove_device(&mut sockets, &"A\"1\\\n".to_string()));
    assert!(devices.serials.is_empty());
    assert!(sockets.take_event(c).unwrap().starts_with("{\"DeviceDisconnected\""));
    let parsed: serde_json::Value =
        serde_json::from_str(&encode_event(&GlobalEvent::DeviceConnected { serial_number: "q\"\u{1}".to_string() })).unwrap();
    assert_eq!(parsed["DeviceConnected"]["serial_number"], "q\"\u{1}");
}
