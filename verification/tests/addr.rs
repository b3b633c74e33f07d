use fstdns::addr::{parse_addr, parse_ip, try_parse_addr, IpAddr, Ipv4, Ipv6, SockAddr};

#[test]
fn ipv4_forms() {
    assert_eq!(parse_ip(b"1.2.3.4"), Some(IpAddr::V4(Ipv4(1, 2, 3, 4))));
    assert_eq!(parse_ip(b"255.255.255.255"), Some(IpAddr::V4(Ipv4(255, 255, 255, 255))));
    assert_eq!(parse_ip(b"0.0.0.0"), Some(IpAddr::V4(Ipv4(0, 0, 0, 0))));
    assert_eq!(parse_ip(b"256.1.1.1"), None);
    assert_eq!(parse_ip(b"01.1.1.1"), None);
    assert_eq!(parse_ip(b"1.2.3"), None);
    assert_eq!(parse_ip(b"1.2.3.4.5"), None);
    assert_eq!(parse_ip(b"1234.1.1.1"), None);
}

#[test]
fn ipv6_forms() {
    assert_eq!(parse_ip(b"::"), Some(IpAddr::V6(Ipv6(0, 0, 0, 0, 0, 0, 0, 0))));
    assert_eq!(parse_ip(b"::1"), Some(IpAddr::V6(Ipv6(0, 0, 0, 0, 0, 0, 0, 1))));
    assert_eq!(parse_ip(b"fe80::1:2"), Some(IpAddr::V6(Ipv6(0xfe80, 0, 0, 0, 0, 0, 1, 2))));
    assert_eq!(
        parse_ip(b"2001:DB8:0:0:0:0:0:FFFF"),
        Some(IpAddr::V6(Ipv6(0x2001, 0xdb8, 0, 0, 0, 0, 0, 0xffff)))
    );
    assert_eq!(parse_ip(b"::ffff:1.2.3.4"), Some(IpAddr::V6(Ipv6(0, 0, 0, 0, 0, 0xffff, 0x102, 0x304))));
    assert_eq!(parse_ip(b"1::2::3"), None);
    assert_eq!(parse_ip(b"12345::"), None);
    assert_eq!(parse_ip(b"1:2:3:4:5:6:7:8:9"), None);
    assert_eq!(parse_ip(b"1:2:3:4:5:6:7::"), Some(IpAddr::V6(Ipv6(1, 2, 3, 4, 5, 6, 7, 0))));
}

fn v6(g: [u16; 8], port: u16, scope: u32) -> Option<SockAddr> {
    Some(SockAddr::V6(Ipv6(g[0], g[1], g[2], g[3], g[4], g[5], g[6], g[7]), port, scope))
}

#[test]
fn grammar_corners() {
    assert_eq!(try_parse_addr(b"1:2:3:4:5:6:1.2.3.4"), v6([1, 2, 3, 4, 5, 6, 0x102, 0x304], 53, 0));
    assert_eq!(try_parse_addr(b"1::1.2.3.4"), v6([1, 0, 0, 0, 0, 0, 0x102, 0x304], 53, 0));
    assert_eq!(try_parse_addr(b"::1.2.3.4"), v6([0, 0, 0, 0, 0, 0, 0x102, 0x304], 53, 0));
    assert_eq!(try_parse_addr(b"1:2:3:4:5:6:7:1.2.3.4"), None);
    assert_eq!(try_parse_addr(b"1.2.3.04"), None);
    assert_eq!(try_parse_addr(b"a:b::c:d"), v6([0xa, 0xb, 0, 0, 0, 0, 0xc, 0xd], 53, 0));
    assert_eq!(try_parse_addr(b"::ffff:0:0"), v6([0, 0, 0, 0, 0, 0xffff, 0, 0], 53, 0));
    assert_eq!(try_parse_addr(b"::2:3:4:5:6:7:8"), v6([0, 2, 3, 4, 5, 6, 7, 8], 53, 0));
    assert_eq!(try_parse_addr(b"1:::2"), None);
    assert_eq!(try_parse_addr(b":1::"), None);
    assert_eq!(try_parse_addr(b"[::1%3]:53"), v6([0, 0, 0, 0, 0, 0, 0, 1], 53, 3));
    assert_eq!(try_parse_addr(b"[fe80::1%4294967295]:65535"), v6([0xfe80, 0, 0, 0, 0, 0, 0, 1], 65535, 4294967295));
    assert_eq!(try_parse_addr(b"[fe80::1%4294967296]:53"), None);
    assert_eq!(try_parse_addr(b"1.2.3.4:65536"), None);
    assert_eq!(try_parse_addr(b"1.2.3.4:0053"), Some(SockAddr::V4(Ipv4(1, 2, 3, 4), 53)));
    assert_eq!(try_parse_addr(b"[1.2.3.4]:5"), None);
    assert_eq!(try_parse_addr(b"00000::"), None);
    assert_eq!(try_parse_addr(b"0000::"), v6([0; 8], 53, 0));
    assert_eq!(try_parse_addr(b"1.2.3.4 "), None);
    assert_eq!(try_parse_addr(b""), None);
}

#[test]
fn socket_addresses() {
    assert_eq!(try_parse_addr(b"127.0.0.1:1053"), Some(SockAddr::V4(Ipv4(127, 0, 0, 1), 1053)));
    assert_eq!(try_parse_addr(b"2.2.2.2"), Some(SockAddr::V4(Ipv4(2, 2, 2, 2), 53)));
    assert_eq!(try_parse_addr(b"[::1]:5353"), Some(SockAddr::V6(Ipv6(0, 0, 0, 0, 0, 0, 0, 1), 5353, 0)));
    assert_eq!(try_parse_addr(b"::1"), Some(SockAddr::V6(Ipv6(0, 0, 0, 0, 0, 0, 0, 1), 53, 0)));
    assert_eq!(try_parse_addr(b"1.2.3.4:"), None);
    assert_eq!(try_parse_addr(b"localhost"), None);
}

#[test]
fn upstream_address_forms() {
    assert_eq!(parse_addr(b"1.2.3.4"), SockAddr::V4(Ipv4(1, 2, 3, 4), 53));
    assert_eq!(parse_addr(b"1.2.3.4:5353"), SockAddr::V4(Ipv4(1, 2, 3, 4), 5353));
    assert_eq!(parse_addr(b"::1"), SockAddr::V6(Ipv6(0, 0, 0, 0, 0, 0, 0, 1), 53, 0));
    assert_eq!(parse_addr(b"[::1]:5353"), SockAddr::V6(Ipv6(0, 0, 0, 0, 0, 0, 0, 1), 5353, 0));
    assert_eq!(try_parse_addr(b"dns.google"), None);
}
