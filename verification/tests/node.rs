//! Address snapshots, message limits and acknowledgements.
use dc_core::base64::{b64, unb64, Base64Fault};
use dc_core::identity::Identity;
use dc_core::node::{
    ack_frame, ack_id, check_payload, naddr_string, node_id_of_naddr, parse_naddr, prepare_send, read_ack,
    receive_step, relay_choice, send_result, ReceiveAction, ReceiveEvent, SendEvent,
    sockaddr_bytes, sockaddr_from_bytes, NodeAddr, SockAddr, TransportAddr, MAX_MSG_LEN,
};

fn v4(octets: [u8; 4], port: u16) -> SockAddr {
    SockAddr::V4 { octets, port }
}

fn v6(octets6: [u8; 16], port: u16) -> SockAddr {
    SockAddr::V6 { octets6, port }
}

fn localhost6() -> [u8; 16] {
    let mut o = [0u8; 16];
    o[15] = 1;
    o
}

fn documentation6() -> [u8; 16] {
    let mut o = [0u8; 16];
    o[..4].copy_from_slice(&[0x20, 0x01, 0x0d, 0xb8]);
    o[15] = 5;
    o
}

fn node_id(n: u8) -> [u8; 32] {
    Identity::from_seed([n; 32]).node_id()
}

fn hex(bytes: &[u8]) -> String {
    bytes.iter().map(|b| format!("{b:02x}")).collect()
}

#[test]
fn sockaddr_roundtrip() {
    for a in [
        v4([192, 168, 1, 7], 43210),
        v4([10, 0, 0, 2], 65535),
        v6(localhost6(), 8080),
        v6(documentation6(), 443),
    ] {
        assert_eq!(a, sockaddr_from_bytes(&sockaddr_bytes(&a)).unwrap());
    }
    assert!(sockaddr_from_bytes(&[0u8; 5]).is_err());
}

#[test]
fn base64_roundtrip() {
    for sample in [
        &b""[..],
        b"f",
        b"fo",
        b"foo",
        b"foob",
        b"fooba",
        b"foobar",
        &sockaddr_bytes(&v4([192, 168, 1, 7], 43210)),
    ] {
        assert_eq!(sample.to_vec(), unb64(&b64(sample)).unwrap());
    }
    assert!(unb64(b"A").is_err());
    assert!(unb64(b"AB#C").is_err());
}

#[test]
fn naddr_parse_rejects_garbage() {
    assert!(parse_naddr("").is_err());
    assert!(parse_naddr("https://x").is_err());
    assert!(parse_naddr("dc://node?v=1").is_err());
    assert!(parse_naddr("dc://node?v=2&id=00").is_err());
    assert!(parse_naddr(&format!("dc://node?v=1&id={}", "ab".repeat(31))).is_err());
}

#[test]
fn base64_digits_are_those_of_the_url_alphabet() {
    assert_eq!(b64(b"foobar"), b"Zm9vYmFy");
    assert_eq!(b64(b"f"), b"Zg");
    assert_eq!(b64(b"fo"), b"Zm8");
    assert_eq!(b64(&[0xfb, 0xff, 0xfe]), b"-__-");
    assert_eq!(unb64(b"A"), Err(Base64Fault::Length));
    assert_eq!(unb64(b"AB#C"), Err(Base64Fault::Digit));
    assert_eq!(unb64(b"-__-").unwrap(), vec![0xfb, 0xff, 0xfe]);
}

#[test]
fn an_address_is_octets_then_port() {
    assert_eq!(sockaddr_bytes(&v4([192, 168, 1, 7], 43210)), vec![192, 168, 1, 7, 0xa8, 0xca]);
    assert_eq!(sockaddr_bytes(&v6(localhost6(), 8080)).len(), 18);
}

#[test]
fn snapshot_tells_id_addresses_and_relay() {
    let addr = NodeAddr {
        id: node_id(7),
        addrs: vec![
            TransportAddr::Ip(v4([192, 168, 1, 7], 43210)),
            TransportAddr::Ip(v6(documentation6(), 443)),
            TransportAddr::Relay("https://relay.example./".to_owned()),
        ],
    };
    let text = naddr_string(&addr, false);
    assert!(text.starts_with("dc://node?v=1&id="));
    assert_eq!(parse_naddr(&text).unwrap(), addr);
    assert_eq!(node_id_of_naddr(&text).unwrap(), hex(&node_id(7)));
}

#[test]
fn snapshot_has_the_exact_form() {
    let addr = NodeAddr {
        id: node_id(1),
        addrs: vec![TransportAddr::Ip(v4([192, 168, 1, 7], 43210))],
    };
    assert_eq!(
        naddr_string(&addr, false),
        format!("dc://node?v=1&id={}&a=wKgBB6jK", hex(&node_id(1)))
    );
    let alone = NodeAddr { id: node_id(1), addrs: vec![] };
    assert_eq!(naddr_string(&alone, false), format!("dc://node?v=1&id={}", hex(&node_id(1))));
}

#[test]
fn snapshot_leaves_out_what_others_cannot_reach() {
    let addr = NodeAddr {
        id: node_id(2),
        addrs: vec![
            TransportAddr::Ip(v4([0, 0, 0, 0], 80)),
            TransportAddr::Ip(v4([127, 0, 0, 1], 81)),
            TransportAddr::Ip(v6([0; 16], 82)),
            TransportAddr::Ip(v6(localhost6(), 83)),
            TransportAddr::Ip(v4([10, 0, 0, 2], 84)),
        ],
    };
    let shown = parse_naddr(&naddr_string(&addr, false)).unwrap();
    assert_eq!(shown.addrs, vec![TransportAddr::Ip(v4([10, 0, 0, 2], 84))]);
    let all = parse_naddr(&naddr_string(&addr, true)).unwrap();
    assert_eq!(
        all.addrs,
        vec![
            TransportAddr::Ip(v4([127, 0, 0, 1], 81)),
            TransportAddr::Ip(v6(localhost6(), 83)),
            TransportAddr::Ip(v4([10, 0, 0, 2], 84)),
        ]
    );
}

#[test]
fn each_fault_of_a_snapshot_is_told() {
    let id = hex(&node_id(3));
    let fault = |s: &str| parse_naddr(s).unwrap_err().message();
    assert!(fault("https://x").contains("not a dc://node snapshot"));
    assert!(fault("dc://node?").contains("bad snapshot pair"));
    assert!(fault("dc://node?v=1&id").contains("bad snapshot pair"));
    assert!(fault("dc://node?v=2&id=00").contains("unsupported snapshot version"));
    assert!(fault("dc://node?v=1&id=0g").contains("bad node id"));
    assert!(fault("dc://node?v=1&id=00").contains("node id must be 32 bytes"));
    let no_point = (0..=255u8)
        .map(|b| [b; 32])
        .find(|k| dc_core::identity::VerifyingKey::from_bytes(k).is_err())
        .unwrap();
    assert!(fault(&format!("dc://node?v=1&id={}", hex(&no_point))).contains("node id: "));
    assert!(fault(&format!("dc://node?id={id}&a=A")).contains("bad base64 length"));
    assert!(fault(&format!("dc://node?id={id}&a=AB*C")).contains("bad base64 char"));
    assert!(fault(&format!("dc://node?id={id}&a=AAAA")).contains("bad sockaddr bytes"));
    assert!(fault(&format!("dc://node?id={id}&r=__8")).contains("bad relay url"));
    assert!(fault(&format!("dc://node?id={id}&r=Zm9v")).contains("relay url: "));
    assert!(fault("dc://node?v=1").contains("snapshot missing id"));
    // A field that is not known is passed over.
    assert!(parse_naddr(&format!("dc://node?v=1&id={id}&future=1")).is_ok());
}

#[test]
fn relay_addresses_come_out_in_their_normal_form() {
    let id = hex(&node_id(4));
    let text = String::from_utf8(b64(b"https://relay.example.")).unwrap();
    let addr = parse_naddr(&format!("dc://node?v=1&id={id}&r={text}")).unwrap();
    assert_eq!(addr.addrs, vec![TransportAddr::Relay("https://relay.example./".to_owned())]);
}

#[test]
fn payloads_have_limits() {
    assert!(check_payload(1).is_ok());
    assert!(check_payload(MAX_MSG_LEN).is_ok());
    assert!(check_payload(0).unwrap_err().message().contains("empty payload"));
    assert!(check_payload(MAX_MSG_LEN + 1)
        .unwrap_err()
        .message()
        .contains("payload 262145 exceeds 262144"));
}

#[test]
fn only_a_whole_positive_frame_is_a_delivery() {
    let id = [1, 2, 3, 4, 5, 6, 7, 8];
    assert_eq!(ack_frame(true, &id), vec![1, 1, 2, 3, 4, 5, 6, 7, 8]);
    assert_eq!(ack_frame(false, &id)[0], 0);
    assert!(read_ack(&ack_frame(true, &id)).is_ok());
    let refused = read_ack(&ack_frame(false, &id)).unwrap_err();
    assert!(refused.message().contains("nak"));
    let cut = read_ack(&ack_frame(true, &id)[..8]).unwrap_err();
    assert!(cut.message().contains("ack missing"));
}

#[test]
fn no_answer_in_time_is_a_refusal() {
    let id = [9u8; 8];
    let says = |event: ReceiveEvent| match receive_step(&id, event) {
        ReceiveAction::Reply(frame) => Some(read_ack(&frame).is_ok()),
        ReceiveAction::Wait => None,
    };
    assert_eq!(says(ReceiveEvent::Judged(Some(true))), Some(true));
    assert_eq!(says(ReceiveEvent::Judged(Some(false))), Some(false));
    assert_eq!(says(ReceiveEvent::Judged(None)), None);
    assert_eq!(says(ReceiveEvent::Answered(true)), Some(true));
    assert_eq!(says(ReceiveEvent::Answered(false)), Some(false));
    assert_eq!(says(ReceiveEvent::TimedOut), Some(false));
    assert_eq!(receive_step(&id, ReceiveEvent::Judged(None)), ReceiveAction::Wait);
}

#[test]
fn each_end_of_the_way_is_told() {
    let why = |event: SendEvent| send_result(event).unwrap_err().message();
    assert_eq!(why(SendEvent::ConnectTimedOut), "IO 错误: connect timeout");
    assert_eq!(why(SendEvent::ConnectFailed("x".into())), "IO 错误: connect: x");
    assert_eq!(why(SendEvent::OpenFailed("x".into())), "IO 错误: open_bi: x");
    assert_eq!(why(SendEvent::WriteFailed("x".into())), "IO 错误: write: x");
    assert_eq!(why(SendEvent::FinishFailed("x".into())), "IO 错误: finish: x");
    assert_eq!(why(SendEvent::AckTimedOut), "IO 错误: ack timeout");
    assert_eq!(why(SendEvent::AckFailed("x".into())), "IO 错误: ack read: x");
    assert_eq!(why(SendEvent::Acked(vec![1; 8])), "IO 错误: ack missing");
    let refused = SendEvent::Acked(ack_frame(false, &[7; 8]));
    assert_eq!(why(refused), "IO 错误: receiver rejected payload (nak)");
    assert!(send_result(SendEvent::Acked(ack_frame(true, &[7; 8]))).is_ok());
}

#[test]
fn handles_are_sixteen_digits() {
    assert_eq!(ack_id("0102030405060708"), Some([1, 2, 3, 4, 5, 6, 7, 8]));
    assert_eq!(ack_id("00"), None);
    assert_eq!(ack_id(&"zz".repeat(8)), None);
}

#[test]
fn an_empty_relay_address_means_no_relay() {
    assert_eq!(relay_choice("").unwrap(), None);
    assert_eq!(relay_choice(" \t\u{3000}\n").unwrap(), None);
    let relay = relay_choice("  https://relay.example.org\n").unwrap();
    assert_eq!(relay.as_deref(), Some("https://relay.example.org/"));
    let err = relay_choice("no relay").unwrap_err();
    assert!(err.message().starts_with("配置错误: relay url: "));
}

#[test]
fn the_receiver_is_checked_before_the_message() {
    let id = Identity::from_seed([5; 32]).node_id();
    let addr = NodeAddr { id, addrs: vec![TransportAddr::Ip(v4([10, 0, 0, 1], 7))] };
    let text = naddr_string(&addr, false);
    let why = |naddr: &str, payload: &[u8]| prepare_send(naddr, payload).unwrap_err().message();
    assert_eq!(prepare_send(&text, &[1]).unwrap().id, id);
    assert_eq!(why("nowhere", &[]), "配置错误: not a dc://node snapshot");
    assert_eq!(why(&text, &[]), "配置错误: empty payload");
    let long = vec![0u8; MAX_MSG_LEN + 1];
    assert_eq!(why(&text, &long), "配置错误: payload 262145 exceeds 262144");
    assert!(prepare_send(&text, &long[1..]).is_ok());
}
