use fstdns::addr::{Ipv4, Ipv6};
use fstdns::hosts::{parse_hosts, NameMap};

const HOSTS: &[u8] = b"# static table lookup for hostnames\n\
127.0.0.1\tlocalhost\n\
::1 localhost ip6-localhost ip6-loopback\n\
ff02::1 ip6-allnodes\n\
ff02::2 ip6-allrouters\n\
192.168.0.2 nas nas.lan\n\
192.168.0.3  printer   \n\
not-an-address foo\n\
192.168.0.4 nas\n\
fd00::2 nas\n";

#[test]
fn test_parse() {
    let mut h4: NameMap<Ipv4> = NameMap::new();
    let mut h6: NameMap<Ipv6> = NameMap::new();
    assert_eq!(parse_hosts(&mut h4, &mut h6, HOSTS), Ok(()));
    assert_eq!(h4.get(b"nas"), Some(&vec![Ipv4(192, 168, 0, 2), Ipv4(192, 168, 0, 4)]));
    assert_eq!(h4.get(b"nas.lan"), Some(&vec![Ipv4(192, 168, 0, 2)]));
    assert_eq!(h4.get(b"printer"), Some(&vec![Ipv4(192, 168, 0, 3)]));
    assert_eq!(h6.get(b"nas"), Some(&vec![Ipv6(0xfd00, 0, 0, 0, 0, 0, 0, 2)]));
    assert_eq!(h4.get(b"foo"), None);
}

#[test]
fn black_listed_names_are_left_out() {
    let mut h4: NameMap<Ipv4> = NameMap::new();
    let mut h6: NameMap<Ipv6> = NameMap::new();
    assert_eq!(parse_hosts(&mut h4, &mut h6, HOSTS), Ok(()));
    assert_eq!(h4.get(b"localhost"), None);
    assert_eq!(h6.get(b"localhost"), None);
    assert_eq!(h6.get(b"ip6-localhost"), None);
    assert_eq!(h6.get(b"ip6-loopback"), None);
    assert_eq!(h6.get(b"ip6-allnodes"), None);
    assert_eq!(h6.get(b"ip6-allrouters"), None);
}

#[test]
fn adds_to_what_is_there() {
    let mut h4: NameMap<Ipv4> = NameMap::new();
    let mut h6: NameMap<Ipv6> = NameMap::new();
    h4.push(b"nas", Ipv4(10, 0, 0, 1));
    assert_eq!(parse_hosts(&mut h4, &mut h6, b"10.0.0.2 nas"), Ok(()));
    assert_eq!(h4.get(b"nas"), Some(&vec![Ipv4(10, 0, 0, 1), Ipv4(10, 0, 0, 2)]));
}

#[test]
fn reading_stops_at_a_line_that_is_not_utf8() {
    let mut h4: NameMap<Ipv4> = NameMap::new();
    let mut h6: NameMap<Ipv6> = NameMap::new();
    let file = b"10.0.0.1 first\n10.0.0.2 bad\xff\n10.0.0.3 after\n";
    assert_eq!(parse_hosts(&mut h4, &mut h6, file), Err(()));
    assert_eq!(h4.get(b"first"), Some(&vec![Ipv4(10, 0, 0, 1)]));
    assert_eq!(h4.get(b"bad\xff"), None);
    assert_eq!(h4.get(b"after"), None);
    let mut u4: NameMap<Ipv4> = NameMap::new();
    assert_eq!(parse_hosts(&mut u4, &mut h6, "10.0.0.9 caf\u{e9}\n".as_bytes()), Ok(()));
    assert_eq!(u4.get("caf\u{e9}".as_bytes()), Some(&vec![Ipv4(10, 0, 0, 9)]));
}
