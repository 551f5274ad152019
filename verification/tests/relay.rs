use chaincord::relay::{
    choose_for_create, connack_accepted, drain_mqtt_publishes, effective, hub_broadcast,
    hub_reply, mqtt_buf_has_type, mqtt_connack, mqtt_connect, mqtt_fixed_header_len, mqtt_kind,
    mqtt_pingresp, mqtt_publish, mqtt_publish_id, mqtt_publish_payload, mqtt_puback,
    mqtt_subscribe, mqtt_subscribe_id, mqtt_suback, next_backoff, next_mqtt_id,
    outgoing_publish, packet, parse_one, relay_disabled, relay_off, remaining_len, take_packet,
    topic, HubReply,
};

#[test]
fn mqtt_publish_roundtrip_qos1() {
    let body = br#"{"type":"hello"}"#;
    let packet = mqtt_publish("cc/v1/abc", body, 7);
    assert_eq!(packet[0] & 0xF0, 0x30);
    assert_eq!((packet[0] & 0x06) >> 1, 1);
    assert_eq!(mqtt_publish_id(&packet), Some(7));
    assert_eq!(mqtt_publish_payload(&packet).unwrap(), body);
    assert_eq!(mqtt_puback(7)[0], 0x40);
    assert_eq!(next_mqtt_id(u16::MAX), 1);
    assert_eq!(next_mqtt_id(7), 8);
    let sub = mqtt_subscribe("cc/v1/abc", 9);
    assert_eq!(mqtt_subscribe_id(&sub), Some(9));
    assert_eq!(mqtt_connack(), vec![0x20, 0x02, 0x00, 0x00]);
}

#[test]
fn take_packet_waits_for_complete_frame() {
    let packet = mqtt_publish("cc/v1/abc", b"ping", 1);
    let mut buf = packet[..4].to_vec();
    assert!(take_packet(&mut buf).is_none());
    buf.extend_from_slice(&packet[4..]);
    let taken = take_packet(&mut buf).expect("full packet");
    assert_eq!(taken, packet);
    assert!(buf.is_empty());
}

#[test]
fn mqtt_connect_is_clean_session_without_will() {
    let packet = mqtt_connect("ccabc");
    assert_eq!(packet[0], 0x10);
    let mut idx = 1usize;
    loop {
        let byte = packet[idx];
        idx += 1;
        if byte & 0x80 == 0 {
            break;
        }
    }
    let proto_len = u16::from_be_bytes([packet[idx], packet[idx + 1]]) as usize;
    idx += 2 + proto_len;
    idx += 1;
    let flags = packet[idx];
    assert_eq!(flags, 0x02);
    idx += 1 + 2;
    let id_len = u16::from_be_bytes([packet[idx], packet[idx + 1]]) as usize;
    idx += 2 + id_len;
    assert_eq!(idx, packet.len());
}

#[test]
fn parse_one_accepts_websocket_urls() {
    assert_eq!(
        parse_one("  wss://broker.example/mqtt ").unwrap(),
        "wss://broker.example/mqtt"
    );
    assert!(parse_one("http://broker.example/mqtt").is_err());
    assert!(parse_one("wss://").is_err());
    assert!(parse_one("").is_err());
}

#[test]
fn empty_stored_relays_mean_no_broker() {
    assert!(effective(&[]).is_empty());
    assert_eq!(
        effective(&["wss://mine.example/mqtt".into()]),
        vec!["wss://mine.example/mqtt".to_string()]
    );
}

#[test]
fn choose_for_create_keeps_custom_relay() {
    assert_eq!(
        choose_for_create(Some("wss://mine.example/mqtt"), None).unwrap(),
        vec!["wss://mine.example/mqtt".to_string()]
    );
    assert!(choose_for_create(Some("ftp://x"), None).is_err());
}

#[test]
fn parse_one_reports_each_error() {
    assert_eq!(parse_one("   ").unwrap_err(), "informe um relé ws:// ou wss://");
    let long = format!("wss://{}", "a".repeat(250));
    assert_eq!(parse_one(&long).unwrap_err(), "relé muito longo");
    assert_eq!(parse_one("wss://a b").unwrap_err(), "relé invalido");
    assert_eq!(parse_one("wss:///path").unwrap_err(), "relé invalido");
    assert_eq!(parse_one("ftp://x").unwrap_err(), "relé deve ser ws:// ou wss://");
    assert_eq!(parse_one("WS://Host:1883").unwrap(), "WS://Host:1883");
}

#[test]
fn choose_for_create_reads_the_environment_value() {
    assert!(choose_for_create(None, None).unwrap().is_empty());
    assert!(choose_for_create(Some("   "), Some(" off ")).unwrap().is_empty());
    assert!(choose_for_create(None, Some("false")).unwrap().is_empty());
    assert!(choose_for_create(None, Some("  ")).unwrap().is_empty());
    assert_eq!(
        choose_for_create(None, Some(" wss://env.example/mqtt")).unwrap(),
        vec!["wss://env.example/mqtt".to_string()]
    );
    assert!(choose_for_create(None, Some("http://x")).is_err());
    assert_eq!(
        choose_for_create(Some("wss://mine.example"), Some("off")).unwrap(),
        vec!["wss://mine.example".to_string()]
    );
}

#[test]
fn relay_switches() {
    assert!(relay_off("  off "));
    assert!(relay_off("0"));
    assert!(relay_off("false"));
    assert!(!relay_off("on"));
    assert!(relay_disabled(Some("off")));
    assert!(!relay_disabled(Some(" off")));
    assert!(!relay_disabled(None));
}

#[test]
fn effective_trims_and_drops_blank_entries() {
    let stored = vec![" wss://a ".to_string(), "   ".to_string(), "ws://b".to_string()];
    assert_eq!(effective(&stored), vec!["wss://a".to_string(), "ws://b".to_string()]);
}

#[test]
fn remaining_length_encoding() {
    assert_eq!(remaining_len(0), vec![0]);
    assert_eq!(remaining_len(127), vec![0x7f]);
    assert_eq!(remaining_len(128), vec![0x80, 0x01]);
    assert_eq!(remaining_len(16383), vec![0xff, 0x7f]);
    assert_eq!(remaining_len(321), vec![0xc1, 0x02]);
    assert_eq!(packet(0x40, &[0, 7]), vec![0x40, 2, 0, 7]);
}

#[test]
fn fixed_header_and_kind() {
    assert_eq!(mqtt_kind(&[]), 0);
    assert_eq!(mqtt_kind(&[0x32, 0]), 0x30);
    assert_eq!(mqtt_fixed_header_len(&[0x30, 0x80, 0x01, 9]), Some(3));
    assert_eq!(mqtt_fixed_header_len(&[0x30, 0x80]), None);
    assert_eq!(mqtt_fixed_header_len(&[]), None);
}

#[test]
fn take_packet_clears_malformed_length() {
    let mut buf = vec![0x30, 0x80, 0x80, 0x80, 0x80, 0x80, 0x01];
    assert!(take_packet(&mut buf).is_none());
    assert!(buf.is_empty());
    let mut buf = vec![0x30, 0x80, 0x80, 0x80, 0x80];
    assert!(take_packet(&mut buf).is_none());
    assert_eq!(buf.len(), 5);
}

#[test]
fn take_packet_leaves_the_next_frame() {
    let a = mqtt_puback(3);
    let b = mqtt_pingresp();
    let mut buf = a.clone();
    buf.extend_from_slice(&b);
    assert_eq!(take_packet(&mut buf), Some(a));
    assert_eq!(buf, b);
}

#[test]
fn buffer_type_search_and_drain() {
    let mut buf = mqtt_puback(1);
    buf.extend(mqtt_suback(2));
    assert!(mqtt_buf_has_type(&buf, 0x90));
    assert!(!mqtt_buf_has_type(&buf, 0x30));
    let mut buf = mqtt_publish("t", b"one", 5);
    buf.extend(mqtt_pingresp());
    buf.extend(mqtt_publish("t", b"two", 6));
    buf.extend_from_slice(&[0x30, 0x05, 0x00]);
    let (acks, bodies) = drain_mqtt_publishes(&mut buf);
    assert_eq!(acks, vec![5, 6]);
    assert_eq!(bodies, vec![b"one".to_vec(), b"two".to_vec()]);
    assert_eq!(buf, vec![0x30, 0x05, 0x00]);
}

#[test]
fn hub_replies_by_packet_type() {
    match hub_reply(&mqtt_connect("x")) {
        HubReply::Send { bytes, required } => {
            assert_eq!(bytes, mqtt_connack());
            assert!(required);
        }
        _ => panic!("connect must be answered"),
    }
    match hub_reply(&mqtt_subscribe("t", 4)) {
        HubReply::Send { bytes, required } => {
            assert_eq!(bytes, vec![0x90, 3, 0, 4, 1]);
            assert!(required);
        }
        _ => panic!("subscribe must be answered"),
    }
    match hub_reply(&mqtt_publish("t", b"hi", 9)) {
        HubReply::Deliver { ack, body } => {
            assert_eq!(ack, Some(mqtt_puback(9)));
            assert_eq!(body, Some(b"hi".to_vec()));
        }
        _ => panic!("publish must be delivered"),
    }
    match hub_reply(&[0xC0, 0x00]) {
        HubReply::Send { bytes, required } => {
            assert_eq!(bytes, vec![0xD0, 0x00]);
            assert!(!required);
        }
        _ => panic!("ping must be answered"),
    }
    assert!(matches!(hub_reply(&[0xE0, 0x00]), HubReply::Close));
    assert!(matches!(hub_reply(&[0xA0, 0x00]), HubReply::Ignore));
}

#[test]
fn outgoing_publish_skips_oversized_messages() {
    let (id, bytes) = outgoing_publish("cc/v1/x", "{}", 7).unwrap();
    assert_eq!(id, 8);
    assert_eq!(bytes, mqtt_publish("cc/v1/x", b"{}", 8));
    let big = "a".repeat(48001);
    assert!(outgoing_publish("cc/v1/x", &big, 7).is_none());
    let edge = "a".repeat(48000);
    assert_eq!(outgoing_publish("cc/v1/x", &edge, u16::MAX).unwrap().0, 1);
}

#[test]
fn small_session_rules() {
    assert!(connack_accepted(&[0x20, 0x02, 0x00, 0x00]));
    assert!(!connack_accepted(&[0x20, 0x02, 0x00, 0x05]));
    assert!(!connack_accepted(&[0x20, 0x02]));
    assert_eq!(next_backoff(2), 4);
    assert_eq!(next_backoff(8), 15);
    assert_eq!(next_backoff(15), 15);
    assert_eq!(hub_broadcast(2, &[1, 2, 3, 2]), vec![1, 3]);
    assert_eq!(topic("abc"), "cc/v1/abc");
}

#[test]
fn pingreq_bytes() {
    assert_eq!(chaincord::relay::mqtt_pingreq(), vec![0xC0u8, 0x00]);
}
