use lector::addr::PeerAddr;

#[test]
fn address_text_is_dotted_quad_and_port() {
    assert_eq!(PeerAddr::v4(192, 168, 1, 5, 50052).to_string(), "192.168.1.5:50052");
    assert_eq!(PeerAddr::v4(0, 0, 0, 0, 0).to_string(), "0.0.0.0:0");
    assert_eq!(PeerAddr::v4(255, 255, 255, 255, 65535).to_string(), "255.255.255.255:65535");
    assert_eq!(PeerAddr::v4(10, 0, 100, 9, 80).to_string(), "10.0.100.9:80");
}

#[test]
fn parse_accepts_well_formed_addresses() {
    assert_eq!(PeerAddr::parse("192.168.1.5:50052"), Some(PeerAddr::v4(192, 168, 1, 5, 50052)));
    assert_eq!(PeerAddr::parse("0.0.0.0:0"), Some(PeerAddr::v4(0, 0, 0, 0, 0)));
    assert_eq!(PeerAddr::parse("255.255.255.255:65535"), Some(PeerAddr::v4(255, 255, 255, 255, 65535)));
    assert_eq!(PeerAddr::parse("1.2.3.4:0065535"), Some(PeerAddr::v4(1, 2, 3, 4, 65535)));
    assert_eq!(PeerAddr::parse("1.2.3.4:000"), Some(PeerAddr::v4(1, 2, 3, 4, 0)));
}

#[test]
fn parse_rejects_malformed_addresses() {
    for bad in [
        "", "1.2.3.4", "1.2.3.4:", "1.2.3:80", "1.2.3.4.5:80", "256.0.0.1:80", "01.2.3.4:80", "1.2.3.004:80",
        "1.2.3.4:65536", "1.2.3.4:99999999999999999999", "1.2.3.4:80x", " 1.2.3.4:80", "1.2.3.4 :80",
        "[::1]", "::1:80", "a.b.c.d:80", "1..3.4:80", "1.2.3.4:+80", "1.2.3.4:-1", "1000.2.3.4:80",
    ] {
        assert_eq!(PeerAddr::parse(bad), None, "{:?} should not parse", bad);
    }
}

#[test]
fn text_reads_back_as_the_same_address() {
    let samples = [
        PeerAddr::v4(127, 0, 0, 1, 9000),
        PeerAddr::v4(0, 0, 0, 0, 50052),
        PeerAddr::v4(255, 1, 10, 100, 7),
        PeerAddr::v4(192, 168, 1, 100, 65535),
    ];
    for a in samples {
        assert_eq!(PeerAddr::parse(&a.to_string()), Some(a));
    }
}

#[test]
fn with_port_keeps_the_ip() {
    let a = PeerAddr::v4(192, 168, 1, 7, 50051);
    assert_eq!(a.with_port(50052), PeerAddr::v4(192, 168, 1, 7, 50052));
}

#[test]
fn addresses_order_by_ip_then_port() {
    let a = PeerAddr::v4(10, 0, 0, 1, 9000);
    let b = PeerAddr::v4(10, 0, 0, 2, 1);
    let c = PeerAddr::v4(10, 0, 0, 2, 2);
    assert!(a.less_than(&b));
    assert!(b.less_than(&c));
    assert!(!c.less_than(&b));
    assert!(!a.less_than(&a));
    assert!(PeerAddr::v4(9, 255, 255, 255, 65535).less_than(&PeerAddr::v4(10, 0, 0, 0, 0)));
}

#[test]
fn parse_accepts_bracketed_ipv6_addresses() {
    assert_eq!(PeerAddr::parse("[::1]:50052"), Some(PeerAddr::v6([0, 0, 0, 0, 0, 0, 0, 1], 50052, 0)));
    assert_eq!(PeerAddr::parse("[2001:db8::1%3]:80"), Some(PeerAddr::v6([0x2001, 0xdb8, 0, 0, 0, 0, 0, 1], 80, 3)));
    assert_eq!(PeerAddr::parse("[::]:0"), Some(PeerAddr::v6([0; 8], 0, 0)));
    assert_eq!(PeerAddr::parse("[1:2:3:4:5:6:7:8]:9"), Some(PeerAddr::v6([1, 2, 3, 4, 5, 6, 7, 8], 9, 0)));
    assert_eq!(PeerAddr::parse("[1:2:3:4:5:6:7::]:9"), Some(PeerAddr::v6([1, 2, 3, 4, 5, 6, 7, 0], 9, 0)));
    assert_eq!(PeerAddr::parse("[ABCD::eF]:1"), Some(PeerAddr::v6([0xabcd, 0, 0, 0, 0, 0, 0, 0xef], 1, 0)));
    assert_eq!(
        PeerAddr::parse("[::ffff:1.2.3.4]:1"),
        Some(PeerAddr::v6([0, 0, 0, 0, 0, 0xffff, 0x0102, 0x0304], 1, 0))
    );
    assert_eq!(PeerAddr::parse("[::1.2.3.4]:5"), Some(PeerAddr::v6([0, 0, 0, 0, 0, 0, 0x0102, 0x0304], 5, 0)));
    assert_eq!(
        PeerAddr::parse("[1:2:3:4:5:6:1.2.3.4]:5"),
        Some(PeerAddr::v6([1, 2, 3, 4, 5, 6, 0x0102, 0x0304], 5, 0))
    );
    assert_eq!(PeerAddr::parse("[::1]:080"), Some(PeerAddr::v6([0, 0, 0, 0, 0, 0, 0, 1], 80, 0)));
    assert_eq!(
        PeerAddr::parse("[fe80::1%4294967295]:7"),
        Some(PeerAddr::v6([0xfe80, 0, 0, 0, 0, 0, 0, 1], 7, 4294967295))
    );
}

#[test]
fn parse_rejects_malformed_ipv6_addresses() {
    for bad in [
        "[::1]", "[::1]:", "[::1]:65536", "[1::2::3]:80", "[12345::]:80", "[1:2:3:4:5:6:7:8:9]:80",
        "[1:2:3:4:5:6:7:8::]:80", "[::1%]:80", "[::1%4294967296]:80", "[fe80::1%eth0]:80", "[1.2.3.4::]:80",
        "[::g]:80", "[:1]:80", "[1:2:3:4:5:6:7]:80", "[::1] :80", "[::1]:80 ", "[::1.2.3]:80", "[::1.2.3.4.5]:80",
        "[::1]x:80",
    ] {
        assert_eq!(PeerAddr::parse(bad), None, "{:?} should not parse", bad);
    }
}

#[test]
fn ipv6_text_compresses_the_first_longest_zero_run() {
    assert_eq!(PeerAddr::v6([0, 0, 0, 0, 0, 0, 0, 1], 50052, 0).to_string(), "[::1]:50052");
    assert_eq!(PeerAddr::v6([0x2001, 0xdb8, 0, 0, 0, 0, 0, 1], 80, 3).to_string(), "[2001:db8::1%3]:80");
    assert_eq!(PeerAddr::v6([0; 8], 0, 0).to_string(), "[::]:0");
    assert_eq!(PeerAddr::v6([0, 0, 0, 0, 0, 0xffff, 0x0102, 0x0304], 1, 0).to_string(), "[::ffff:1.2.3.4]:1");
    assert_eq!(PeerAddr::v6([1, 0, 0, 2, 0, 0, 0, 3], 1, 0).to_string(), "[1:0:0:2::3]:1");
    assert_eq!(PeerAddr::v6([1, 0, 0, 2, 0, 0, 3, 4], 1, 0).to_string(), "[1::2:0:0:3:4]:1");
    assert_eq!(PeerAddr::v6([1, 0, 2, 3, 4, 5, 6, 7], 1, 0).to_string(), "[1:0:2:3:4:5:6:7]:1");
    assert_eq!(PeerAddr::v6([0xABCD, 0xEF, 1, 2, 3, 4, 5, 0], 1, 0).to_string(), "[abcd:ef:1:2:3:4:5:0]:1");
    assert_eq!(PeerAddr::v6([0, 0, 0, 0, 0, 0, 1, 2], 1, 0).to_string(), "[::1:2]:1");
    assert_eq!(PeerAddr::v6([1, 2, 3, 4, 5, 6, 7, 0], 1, 0).to_string(), "[1:2:3:4:5:6:7:0]:1");
    assert_eq!(PeerAddr::v6([1, 2, 3, 4, 5, 6, 0, 0], 1, 0).to_string(), "[1:2:3:4:5:6::]:1");
}

#[test]
fn ipv6_text_reads_back_as_the_same_address() {
    let samples = [
        PeerAddr::v6([0, 0, 0, 0, 0, 0, 0, 1], 50052, 0),
        PeerAddr::v6([0x2001, 0xdb8, 0, 0, 0, 0, 0, 1], 80, 3),
        PeerAddr::v6([0; 8], 0, 0),
        PeerAddr::v6([0, 0, 0, 0, 0, 0xffff, 0x0102, 0x0304], 1, 0),
        PeerAddr::v6([1, 0, 0, 2, 0, 0, 3, 4], 65535, 4294967295),
        PeerAddr::v6([0xffff; 8], 7, 0),
    ];
    for a in samples {
        assert_eq!(PeerAddr::parse(&a.to_string()), Some(a));
    }
}

#[test]
fn with_port_drops_the_scope_of_an_ipv6_address() {
    let a = PeerAddr::v6([0xfe80, 0, 0, 0, 0, 0, 0, 2], 50051, 4);
    assert_eq!(a.with_port(50052), PeerAddr::v6([0xfe80, 0, 0, 0, 0, 0, 0, 2], 50052, 0));
    assert_eq!(a.port(), 50051);
}

#[test]
fn ipv4_addresses_come_before_ipv6_addresses() {
    let v4 = PeerAddr::v4(255, 255, 255, 255, 65535);
    let low = PeerAddr::v6([0, 0, 0, 0, 0, 0, 0, 1], 9, 0);
    let high = PeerAddr::v6([0, 0, 0, 0, 0, 0, 0, 2], 1, 0);
    assert!(v4.less_than(&low));
    assert!(!low.less_than(&v4));
    assert!(low.less_than(&high));
    assert!(!high.less_than(&low));
    assert!(low.less_than(&PeerAddr::v6([0, 0, 0, 0, 0, 0, 0, 1], 10, 0)));
    assert!(!low.less_than(&PeerAddr::v6([0, 0, 0, 0, 0, 0, 0, 1], 9, 5)));
}
