use soar_agent::event::{comm_text, event_record, trim_nuls, ConnectEvent, EventOut, History};
use soar_agent::net::ipv4_to_text;
use soar_agent::kernel::{connect_verdict, lookup_key, SK_DROP, SK_PASS};

fn raw(ip: [u8; 4], port: u16, blocked: u8, comm: &[u8]) -> ConnectEvent {
    let mut name = [0u8; 16];
    name[..comm.len()].copy_from_slice(comm);
    ConnectEvent { pid: 42, uid: 1000, dst_ip4: u32::from_be_bytes(ip), dst_port: port, blocked, _pad: 0, comm: name }
}

fn out(n: u64) -> EventOut {
    EventOut { ts_ms: n, pid: 1, uid: 2, comm: "c".into(), ip: "1.2.3.4".into(), port: 3, action: "allow".into() }
}

#[test]
fn dotted_text() {
    assert_eq!(ipv4_to_text(0), "0.0.0.0");
    assert_eq!(ipv4_to_text(u32::from_be_bytes([203, 0, 113, 10])), "203.0.113.10");
    assert_eq!(ipv4_to_text(u32::MAX), "255.255.255.255");
}

#[test]
fn comm_drops_padding() {
    let mut c = [0u8; 16];
    c[..4].copy_from_slice(b"curl");
    assert_eq!(comm_text(&c), "curl");
    assert_eq!(comm_text(&[b'x'; 16]), "xxxxxxxxxxxxxxxx");
    assert_eq!(comm_text(&[0u8; 16]), "");
    let mut bad = [0u8; 16];
    bad[0] = 0xff;
    bad[1] = b'a';
    assert_eq!(comm_text(&bad), "\u{fffd}a");
}

#[test]
fn record_of_a_blocked_event() {
    let r = event_record(&raw([198, 51, 100, 7], 443, 1, b"curl"), Some(8787), 1234).unwrap();
    assert_eq!(r.ts_ms, 1234);
    assert_eq!(r.pid, 42);
    assert_eq!(r.uid, 1000);
    assert_eq!(r.comm, "curl");
    assert_eq!(r.ip, "198.51.100.7");
    assert_eq!(r.port, 443);
    assert_eq!(r.action, "block");
}

#[test]
fn panel_traffic_is_not_recorded() {
    assert!(event_record(&raw([127, 0, 0, 1], 8787, 0, b"x"), Some(8787), 0).is_none());
    assert!(event_record(&raw([127, 3, 0, 1], 8787, 0, b"x"), Some(8787), 0).is_none());
    let other_port = event_record(&raw([127, 0, 0, 1], 22, 0, b"x"), Some(8787), 0).unwrap();
    assert_eq!(other_port.action, "allow");
    assert!(event_record(&raw([10, 0, 0, 1], 8787, 0, b"x"), Some(8787), 0).is_some());
    assert!(event_record(&raw([127, 0, 0, 1], 8787, 0, b"x"), None, 0).is_some());
}

#[test]
fn history_keeps_the_newest() {
    let mut h = History::new(3);
    for n in 0..5 {
        h.record(out(n));
    }
    assert_eq!(h.len(), 3);
    assert_eq!(h.get(0).ts_ms, 2);
    assert_eq!(h.get(2).ts_ms, 4);
    let mut z = History::new(0);
    z.record(out(9));
    assert_eq!(z.len(), 0);
}

#[test]
fn event_bytes_round_trip() {
    let mut b = Vec::new();
    b.extend_from_slice(&7u32.to_ne_bytes());
    b.extend_from_slice(&1000u32.to_ne_bytes());
    b.extend_from_slice(&0x0102_0304u32.to_ne_bytes());
    b.extend_from_slice(&8080u16.to_ne_bytes());
    b.push(1);
    b.push(0);
    b.extend_from_slice(b"bash\0\0\0\0\0\0\0\0\0\0\0\0");
    let e = ConnectEvent::from_bytes(&b).unwrap();
    assert_eq!((e.pid, e.uid, e.dst_ip4, e.dst_port, e.blocked), (7, 1000, 0x0102_0304, 8080, 1));
    assert!(e.was_blocked());
    assert_eq!(&e.comm[..4], b"bash");
    b.push(99);
    assert!(ConnectEvent::from_bytes(&b).is_some());
    assert!(ConnectEvent::from_bytes(&b[..31]).is_none());
}

#[test]
fn hook_event_in_host_order() {
    let e = ConnectEvent::observed((77u64 << 32) | 5, (3u64 << 32) | 1000, u32::from_ne_bytes([10, 0, 0, 1]), u32::from(443u16.to_be()), true, None);
    assert_eq!(e.pid, 77);
    assert_eq!(e.uid, 1000);
    assert_eq!(e.dst_ip4, u32::from_be_bytes([10, 0, 0, 1]));
    assert_eq!(e.dst_port, 443);
    assert_eq!(e.blocked, 1);
    assert_eq!(e.comm, [0u8; 16]);
    let named = ConnectEvent::observed(0, 0, 0, 0, false, Some(*b"ssh\0\0\0\0\0\0\0\0\0\0\0\0\0"));
    assert_eq!(named.blocked, 0);
    assert_eq!(&named.comm[..3], b"ssh");
}

#[test]
fn verdicts() {
    assert_eq!(connect_verdict(true, Some(1)).action, SK_DROP);
    assert!(connect_verdict(true, Some(1)).blocked);
    assert_eq!(connect_verdict(true, None).action, SK_DROP);
    assert_eq!(connect_verdict(true, Some(0)).action, SK_PASS);
    assert!(!connect_verdict(true, Some(0)).blocked);
    assert_eq!(connect_verdict(false, Some(1)).action, SK_PASS);
    assert_eq!(lookup_key(0xdead_beef), (0xdead_beef, 32));
}

#[test]
fn trailing_nuls_are_dropped() {
    assert_eq!(trim_nuls("ab\0\0"), "ab");
    assert_eq!(trim_nuls("a\0b\0"), "a\0b");
    assert_eq!(trim_nuls("\0\0"), "");
    assert_eq!(trim_nuls(""), "");
}
