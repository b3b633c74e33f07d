use fstdns::action::ActionId;
use fstdns::addr::{IpAddr, Ipv4, SockAddr};
use fstdns::conf::{Conf, ConfError, ConfStep};
use fstdns::dmap::DMapBuilder;
use fstdns::rr::{QType, RCode};

/// Reads a line as a program does: a refused line is reported, else read.
fn read_line(c: &mut Conf, b: &mut DMapBuilder, l: &str) -> Result<ConfStep, ConfError> {
    match c.line_refusal(l) {
        Some(e) => Err(e),
        None => Ok(c.conf_line(b, l)),
    }
}


fn v4(a: u8, b: u8, c: u8, d: u8, port: u16) -> SockAddr {
    SockAddr::V4(Ipv4(a, b, c, d), port)
}

#[test]
fn default_conf() {
    let c = Conf::default();
    assert_eq!(c.listen, v4(0, 0, 0, 0, 53));
    assert!(c.default.is_empty());
    assert!(c.alts.is_empty());
}

#[test]
fn listen_and_default() {
    let mut c = Conf::default();
    let mut b = DMapBuilder::default();
    assert!(matches!(read_line(&mut c, &mut b, "listen 127.0.0.1:1053"), Ok(ConfStep::Done)));
    assert_eq!(c.listen, v4(127, 0, 0, 1, 1053));
    assert!(matches!(read_line(&mut c, &mut b, "  default 2.2.2.2 3.3.3.3:5353 \n"), Ok(ConfStep::Done)));
    assert_eq!(c.default, vec![v4(2, 2, 2, 2, 53), v4(3, 3, 3, 3, 5353)]);
    assert!(matches!(read_line(&mut c, &mut b, "DEFAULT 4.4.4.4"), Ok(ConfStep::Done)));
    assert_eq!(c.default, vec![v4(4, 4, 4, 4, 53)]);
}

#[test]
fn blank_and_comment_lines() {
    let mut c = Conf::default();
    let mut b = DMapBuilder::default();
    assert!(matches!(read_line(&mut c, &mut b, ""), Ok(ConfStep::Done)));
    assert!(matches!(read_line(&mut c, &mut b, "   \t"), Ok(ConfStep::Done)));
    assert!(matches!(read_line(&mut c, &mut b, "# listen 1.1.1.1"), Ok(ConfStep::Done)));
    assert_eq!(c.listen, v4(0, 0, 0, 0, 53));
}

#[test]
fn refused_lines() {
    let mut c = Conf::default();
    let mut b = DMapBuilder::default();
    assert_eq!(read_line(&mut c, &mut b, "listen").err(), Some(ConfError::MissingArgument));
    assert_eq!(read_line(&mut c, &mut b, "listen nowhere").err(), Some(ConfError::BadAddress));
    assert_eq!(read_line(&mut c, &mut b, "unqualified nxdomain").err(), Some(ConfError::UnrecognizedLine));
    assert_eq!(read_line(&mut c, &mut b, "domain lan").err(), Some(ConfError::InvalidDomainRule));
    assert_eq!(read_line(&mut c, &mut b, "domain lan block").err(), Some(ConfError::InvalidAction));
    assert_eq!(read_line(&mut c, &mut b, "domain lan drop 1.1.1.1").err(), Some(ConfError::UnknownAction));
    assert_eq!(read_line(&mut c, &mut b, "qtype bogus notimp").err(), Some(ConfError::InvalidQType));
    assert_eq!(read_line(&mut c, &mut b, "resolv-conf").err(), Some(ConfError::InvalidResolvConf));
    assert_eq!(read_line(&mut c, &mut b, "addr 1.2.3 nxdomain").err(), Some(ConfError::BadAddress));
    assert_eq!(read_line(&mut c, &mut b, "domain lan alt 1.2.3.x").err(), Some(ConfError::BadAddress));
    assert!(c.alts.is_empty());
}

#[test]
fn domain_rules_go_to_the_builder() {
    let mut c = Conf::default();
    let mut b = DMapBuilder::default();
    assert!(read_line(&mut c, &mut b, "domain lan nxdomain").is_ok());
    assert!(read_line(&mut c, &mut b, "domain corp.example alt 192.168.0.1").is_ok());
    assert!(read_line(&mut c, &mut b, "domain ads.example default").is_ok());
    let m = b.build().unwrap();
    assert_eq!(m.get(b"printer.lan"), Some(u64::from(ActionId::RCode(RCode(3)))));
    assert_eq!(m.get(b"corp.example"), Some(u64::from(ActionId::Alt(0))));
    assert_eq!(m.get(b"ads.example"), Some(0));
    assert_eq!(c.alts, vec![vec![v4(192, 168, 0, 1, 53)]]);
}

#[test]
fn same_alt_upstream_is_shared() {
    let mut c = Conf::default();
    let mut b = DMapBuilder::default();
    assert!(read_line(&mut c, &mut b, "domain a.example alt 3.3.3.3 1.1.1.1").is_ok());
    assert!(read_line(&mut c, &mut b, "domain b.example ALT 1.1.1.1 3.3.3.3").is_ok());
    assert!(read_line(&mut c, &mut b, "domain c.example alt 2.2.2.2").is_ok());
    assert_eq!(c.alts.len(), 2);
    assert_eq!(c.alts[0], vec![v4(1, 1, 1, 1, 53), v4(3, 3, 3, 3, 53)]);
    let m = b.build().unwrap();
    assert_eq!(m.get(b"a.example"), Some(0x10));
    assert_eq!(m.get(b"b.example"), Some(0x10));
    assert_eq!(m.get(b"c.example"), Some(0x11));
}

#[test]
fn too_many_alts() {
    let mut c = Conf::default();
    let mut b = DMapBuilder::default();
    for i in 0..16 {
        let line = format!("domain d{}.example alt 10.0.0.{}", i, i);
        assert!(read_line(&mut c, &mut b, &line).is_ok());
    }
    assert_eq!(read_line(&mut c, &mut b, "domain x.example alt 10.0.1.1").err(), Some(ConfError::TooManyAlts));
    assert_eq!(c.alts.len(), 16);
    assert!(read_line(&mut c, &mut b, "domain y.example alt 10.0.0.3").is_ok());
}

#[test]
fn domain_list_lines_hand_back_the_file() {
    let mut c = Conf::default();
    let mut b = DMapBuilder::default();
    match read_line(&mut c, &mut b, "domain-list /etc/oisd^*. nxdomain") {
        Ok(ConfStep::LoadDomainList { path, prefix, value }) => {
            assert_eq!(path, b"/etc/oisd".to_vec());
            assert_eq!(prefix, b"*.".to_vec());
            assert_eq!(value, 3);
        }
        _ => panic!("expected a domain list"),
    }
    match read_line(&mut c, &mut b, "domain-list /etc/list alt 3.3.3.3") {
        Ok(ConfStep::LoadDomainList { path, prefix, value }) => {
            assert_eq!(path, b"/etc/list".to_vec());
            assert!(prefix.is_empty());
            assert_eq!(value, 0x10);
        }
        _ => panic!("expected a domain list"),
    }
    match read_line(&mut c, &mut b, "resolv-conf /etc/resolv.conf") {
        Ok(ConfStep::ReadResolvConf { path }) => assert_eq!(path, b"/etc/resolv.conf".to_vec()),
        _ => panic!("expected a resolver configuration"),
    }
}

#[test]
fn qtype_and_addr_rules() {
    let mut c = Conf::default();
    let mut b = DMapBuilder::default();
    assert!(read_line(&mut c, &mut b, "qtype https notimp").is_ok());
    assert!(read_line(&mut c, &mut b, "qtype 1 refused").is_ok());
    assert!(read_line(&mut c, &mut b, "addr 1.2.3.4 alt 1.1.1.1").is_ok());
    assert_eq!(c.qtype_rules, vec![(QType(65), ActionId::RCode(RCode(4))), (QType(1), ActionId::RCode(RCode(5)))]);
    assert_eq!(c.addr_rules, vec![(IpAddr::V4(Ipv4(1, 2, 3, 4)), ActionId::Alt(0))]);
    c.finalize();
    assert_eq!(c.qtype_rules, vec![(QType(1), ActionId::RCode(RCode(5))), (QType(65), ActionId::RCode(RCode(4)))]);
}

#[test]
fn resolv_conf_lines() {
    let mut c = Conf::default();
    let lines: Vec<String> = vec![
        "# generated".to_string(),
        "nameserver 9.9.9.9".to_string(),
        "search lan".to_string(),
        "".to_string(),
        "nameserver   ::1  ".to_string(),
        "nameserverx 8.8.8.8".to_string(),
    ];
    assert_eq!(Conf::resolv_conf_refusal(&lines), None);
    c.resolv_conf_lines(&lines);
    assert_eq!(
        c.default,
        vec![v4(9, 9, 9, 9, 53), SockAddr::V6(fstdns::addr::Ipv6(0, 0, 0, 0, 0, 0, 0, 1), 53, 0)]
    );
    let bad: Vec<String> = vec!["nameserver bogus".to_string()];
    assert_eq!(Conf::resolv_conf_refusal(&bad), Some(ConfError::BadAddress));
    assert_eq!(c.default.len(), 2);
}

#[test]
fn alt_addresses_in_any_order_name_the_same_upstream() {
    let mut c = Conf::default();
    let mut b = DMapBuilder::default();
    assert!(matches!(read_line(&mut c, &mut b, "qtype AAAA alt 8.8.8.8 1.1.1.1"), Ok(ConfStep::Done)));
    assert!(matches!(read_line(&mut c, &mut b, "qtype A alt 1.1.1.1 8.8.8.8"), Ok(ConfStep::Done)));
    assert_eq!(c.alts, vec![vec![v4(1, 1, 1, 1, 53), v4(8, 8, 8, 8, 53)]]);
    assert_eq!(c.qtype_rules.len(), 2);
    assert_eq!(c.qtype_rules[0].1, ActionId::Alt(0));
    assert_eq!(c.qtype_rules[1].1, ActionId::Alt(0));
}
