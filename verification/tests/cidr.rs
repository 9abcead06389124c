use soar_agent::net::{block_meets_loopback, ipv4_to_text, is_loopback_spec, netmask_of, parse_cidr, parse_cidr_block, CidrError};

fn key(a: u8, b: u8, c: u8, d: u8) -> u32 {
    u32::from_be_bytes([a, b, c, d]).to_be()
}

#[test]
fn single_address_takes_full_prefix() {
    let (k, p) = parse_cidr("203.0.113.10").unwrap();
    assert_eq!(p, 32);
    assert_eq!(k, key(203, 0, 113, 10));
}

#[test]
fn block_clears_host_bits() {
    let (k, p) = parse_cidr("198.51.100.77/24").unwrap();
    assert_eq!(p, 24);
    assert_eq!(k, key(198, 51, 100, 0));
    assert_eq!(parse_cidr("10.1.2.3/8").unwrap(), (key(10, 0, 0, 0), 8));
    assert_eq!(parse_cidr("10.1.2.3/0").unwrap(), (0, 0));
}

#[test]
fn key_holds_network_bytes_in_memory() {
    let (k, _) = parse_cidr("1.2.3.4").unwrap();
    assert_eq!(k.to_ne_bytes(), [1, 2, 3, 4]);
}

#[test]
fn parts_are_trimmed() {
    assert_eq!(parse_cidr("  10.0.0.1 / 16 ").unwrap(), (key(10, 0, 0, 0), 16));
    assert_eq!(parse_cidr("\t192.168.1.1\n").unwrap(), (key(192, 168, 1, 1), 32));
}

#[test]
fn prefix_accepts_plus_and_leading_zeros() {
    assert_eq!(parse_cidr("10.0.0.0/+8").unwrap(), (key(10, 0, 0, 0), 8));
    assert_eq!(parse_cidr("10.0.0.0/008").unwrap(), (key(10, 0, 0, 0), 8));
}

#[test]
fn bad_address_is_refused() {
    for text in ["", "1.2.3", "1.2.3.4.5", "256.1.1.1", "01.2.3.4", "1..2.3", "a.b.c.d", "1.2.3.4 5", "+1.2.3.4"] {
        match parse_cidr(text) {
            Err(CidrError::InvalidIp(s)) => assert_eq!(s, text),
            other => panic!("{text:?} gave {other:?}"),
        }
    }
}

#[test]
fn address_error_holds_untrimmed_text() {
    match parse_cidr(" 1.2.3/8") {
        Err(CidrError::InvalidIp(s)) => assert_eq!(s, " 1.2.3"),
        other => panic!("{other:?}"),
    }
}

#[test]
fn bad_prefix_is_refused() {
    for (text, part) in [("10.0.0.0/", ""), ("10.0.0.0/x", "x"), ("10.0.0.0/-1", "-1"), ("10.0.0.0/+", "+"), ("10.0.0.0/4294967296", "4294967296"), ("10.0.0.0/8/8", "8/8")] {
        match parse_cidr(text) {
            Err(CidrError::InvalidPrefix(s)) => assert_eq!(s, part),
            other => panic!("{text:?} gave {other:?}"),
        }
    }
}

#[test]
fn long_prefix_is_refused() {
    assert!(matches!(parse_cidr("10.0.0.0/33"), Err(CidrError::PrefixOutOfRange(33))));
    assert!(matches!(parse_cidr("10.0.0.0/4294967295"), Err(CidrError::PrefixOutOfRange(4294967295))));
}

#[test]
fn error_messages() {
    assert_eq!(parse_cidr("x/8").unwrap_err().message(), "IP invalida: x");
    assert_eq!(parse_cidr("1.2.3.4/y").unwrap_err().message(), "prefijo invalido: y");
    assert_eq!(parse_cidr("1.2.3.4/40").unwrap_err().message(), "prefijo fuera de rango (0-32): 40");
}

#[test]
fn loopback_texts() {
    assert!(is_loopback_spec("127.0.0.1"));
    assert!(is_loopback_spec(" 127.1.2.3/8"));
    assert!(is_loopback_spec("127.0.0.1/40"));
    assert!(!is_loopback_spec("128.0.0.1"));
    assert!(!is_loopback_spec("0.0.0.0/0"));
    assert!(!is_loopback_spec("localhost"));
    assert!(!is_loopback_spec("127.0.0"));
}

#[test]
fn host_order_block() {
    assert_eq!(parse_cidr_block("198.51.100.77/24").unwrap(), (0xC633_6400, 24));
    assert_eq!(parse_cidr_block("1.2.3.4").unwrap(), (0x0102_0304, 32));
    assert!(matches!(parse_cidr_block("1.2.3.4/33"), Err(CidrError::PrefixOutOfRange(33))));
    assert_eq!(netmask_of(0), 0);
    assert_eq!(netmask_of(8), 0xff00_0000);
    assert_eq!(netmask_of(32), 0xffff_ffff);
}

#[test]
fn blocks_meeting_loopback() {
    assert!(block_meets_loopback(0, 0));
    assert!(block_meets_loopback(0x4000_0000, 2));
    assert!(block_meets_loopback(0x7f00_0000, 8));
    assert!(block_meets_loopback(0x7f01_0203, 32));
    assert!(!block_meets_loopback(0x8000_0000, 1));
    assert!(!block_meets_loopback(0x0000_0000, 2));
    assert!(!block_meets_loopback(0x7e00_0000, 8));
}

#[test]
fn canonical_text_reads_back() {
    for text in ["10.1.2.3/8", "0.0.0.0/0", "203.0.113.10", " 198.51.100.77 / 24", "255.255.255.255/31", "1.2.3.4/+017"] {
        let (k, p) = parse_cidr(text).unwrap();
        let o = u32::from_be(k).to_be_bytes();
        let canon = format!("{}.{}.{}.{}/{}", o[0], o[1], o[2], o[3], p);
        assert_eq!(parse_cidr(&canon).unwrap(), (k, p), "{text}");
        let mine = format!("{}/{}", ipv4_to_text(u32::from_be(k)), p);
        assert_eq!(mine, canon);
    }
}
