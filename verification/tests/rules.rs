use fstdns::action::ActionId;
use fstdns::addr::{IpAddr, Ipv4};
use fstdns::conf::{Conf, ConfError, ConfStep};
use fstdns::dmap::DMapBuilder;
use fstdns::rr::{QType, RCode};
use fstdns::rules::{answer_addr_action, on_addr_hit, AddrStep, chaos_lists_rules, decide, unqualified, RuntimeRules, Verdict, QCLASS_CH, QCLASS_IN};

/// Reads a line as a program does: a refused line is reported, else read.
fn read_rule_line(c: &mut Conf, b: &mut DMapBuilder, l: &str) -> Result<ConfStep, ConfError> {
    match c.line_refusal(l) {
        Some(e) => Err(e),
        None => Ok(c.conf_line(b, l)),
    }
}


fn setup() -> (Conf, fstdns::dmap::DMap) {
    let mut c = Conf::default();
    let mut b = DMapBuilder::default();
    for l in [
        "default 2.2.2.2",
        "domain lan nxdomain",
        "domain ads.example refused",
        "qtype https notimp",
        "qtype aaaa servfail",
        "domain 0.168.192.in-addr.arpa alt 192.168.0.1",
    ] {
        assert!(read_rule_line(&mut c, &mut b, l).is_ok(), "{}", l);
    }
    c.finalize();
    (c, b.build().unwrap())
}

#[test]
fn priority_of_rules() {
    let (mut c, m) = setup();
    let mut rt = RuntimeRules::new();
    let a = QType(1);
    assert_eq!(decide(&c, &m, &rt, QCLASS_CH, b"runtime.rules", QType(16)), Verdict::Chaos);
    assert_eq!(decide(&c, &m, &rt, 4, b"example.com", a), Verdict::Action(ActionId::RCode(RCode(4))));
    assert_eq!(decide(&c, &m, &rt, QCLASS_IN, b"example.com", a), Verdict::Action(ActionId::Default));
    // query type rules come before domain rules
    assert_eq!(decide(&c, &m, &rt, QCLASS_IN, b"x.lan", QType(65)), Verdict::Action(ActionId::RCode(RCode(4))));
    assert_eq!(decide(&c, &m, &rt, QCLASS_IN, b"x.lan", a), Verdict::Action(ActionId::RCode(RCode(3))));
    assert_eq!(
        decide(&c, &m, &rt, QCLASS_IN, b"4.0.168.192.in-addr.arpa", QType(12)),
        Verdict::Action(ActionId::Alt(0))
    );
    // domain rules come before runtime rules
    rt.insert(b"x.lan".to_vec(), ActionId::Alt(0));
    assert_eq!(decide(&c, &m, &rt, QCLASS_IN, b"x.lan", a), Verdict::Action(ActionId::RCode(RCode(3))));
    rt.insert(b"poisoned.example.org".to_vec(), ActionId::Alt(0));
    assert_eq!(decide(&c, &m, &rt, QCLASS_IN, b"poisoned.example.org", a), Verdict::Action(ActionId::Alt(0)));
    // the unqualified rule comes before query type rules
    c.unqualified_rule = Some(ActionId::RCode(RCode(3)));
    assert_eq!(decide(&c, &m, &rt, QCLASS_IN, b"printer", QType(65)), Verdict::Action(ActionId::RCode(RCode(3))));
    assert_eq!(decide(&c, &m, &rt, QCLASS_IN, b"printer.x", a), Verdict::Action(ActionId::Default));
    // exact rules come first
    c.exact_rules.push((b"printer".to_vec(), QType(65), ActionId::Rewrite(0)));
    assert_eq!(decide(&c, &m, &rt, QCLASS_IN, b"printer", QType(65)), Verdict::Action(ActionId::Rewrite(0)));
}

#[test]
fn stored_value_that_is_no_action_gives_servfail() {
    let c = Conf::default();
    let mut b = DMapBuilder::default();
    b.add_list(&[b"odd.example".as_slice()], 0x99);
    let m = b.build().unwrap();
    let rt = RuntimeRules::new();
    assert_eq!(
        decide(&c, &m, &rt, QCLASS_IN, b"odd.example", QType(1)),
        Verdict::Action(ActionId::RCode(RCode(2)))
    );
}

#[test]
fn runtime_rules_replace() {
    let mut rt = RuntimeRules::new();
    assert_eq!(rt.get(b"a.example"), None);
    rt.insert(b"a.example".to_vec(), ActionId::Alt(1));
    rt.insert(b"b.example".to_vec(), ActionId::Alt(2));
    rt.insert(b"a.example".to_vec(), ActionId::Alt(3));
    assert_eq!(rt.get(b"a.example"), Some(ActionId::Alt(3)));
    assert_eq!(rt.get(b"b.example"), Some(ActionId::Alt(2)));
    let e = rt.entries();
    assert_eq!(e.len(), 2);
    assert!(e.contains(&(b"a.example".to_vec(), ActionId::Alt(3))));
}

#[test]
fn answer_addresses() {
    let mut c = Conf::default();
    let mut b = DMapBuilder::default();
    assert!(read_rule_line(&mut c, &mut b, "addr 1.2.3.4 alt 1.1.1.1").is_ok());
    assert!(read_rule_line(&mut c, &mut b, "addr 5.6.7.8 nxdomain").is_ok());
    assert!(read_rule_line(&mut c, &mut b, "addr 1.2.3.4 alt 9.9.9.9").is_ok());
    let hit = vec![IpAddr::V4(Ipv4(8, 8, 8, 8)), IpAddr::V4(Ipv4(1, 2, 3, 4)), IpAddr::V4(Ipv4(5, 6, 7, 8))];
    assert_eq!(answer_addr_action(&c, &hit), Some(ActionId::Alt(1)));
    let miss = vec![IpAddr::V4(Ipv4(8, 8, 8, 8))];
    assert_eq!(answer_addr_action(&c, &miss), None);
}

#[test]
fn chaos_and_unqualified() {
    assert!(chaos_lists_rules(b"runtime.rules", QType(16)));
    assert!(!chaos_lists_rules(b"runtime.rules", QType(1)));
    assert!(!chaos_lists_rules(b"version.bind", QType(16)));
    assert!(unqualified(b"printer"));
    assert!(!unqualified(b"printer.lan"));
}

#[test]
fn an_address_hit_teaches_a_runtime_rule() {
    let mut c = Conf::default();
    let mut b = DMapBuilder::default();
    assert!(read_rule_line(&mut c, &mut b, "addr 1.2.3.4 alt 1.1.1.1").is_ok());
    assert!(read_rule_line(&mut c, &mut b, "addr 5.6.7.8 nxdomain").is_ok());
    let mut rt = RuntimeRules::new();
    let miss = vec![IpAddr::V4(Ipv4(8, 8, 8, 8))];
    assert_eq!(on_addr_hit(&c, &mut rt, b"a.example", &miss), AddrStep::Keep);
    assert_eq!(rt.get(b"a.example"), None);
    let hit = vec![IpAddr::V4(Ipv4(8, 8, 8, 8)), IpAddr::V4(Ipv4(1, 2, 3, 4))];
    assert_eq!(on_addr_hit(&c, &mut rt, b"a.example", &hit), AddrStep::ReAsk(Some(0)));
    assert_eq!(rt.get(b"a.example"), Some(ActionId::Alt(0)));
    let local = vec![IpAddr::V4(Ipv4(5, 6, 7, 8))];
    assert_eq!(
        on_addr_hit(&c, &mut rt, b"b.example", &local),
        AddrStep::Unsupported(ActionId::RCode(RCode(3)))
    );
    assert_eq!(rt.get(b"b.example"), None);
}
