use fstdns::action::ActionId;
use fstdns::rr::{QType, RCode};
use std::str::FromStr;

#[test]
fn alt_and_rewrite_ids() {
    assert_eq!(ActionId::from_alt_id(0), Some(ActionId::Alt(0)));
    assert_eq!(ActionId::from_alt_id(15), Some(ActionId::Alt(15)));
    assert_eq!(ActionId::from_alt_id(16), None);
    assert_eq!(ActionId::from_rewrite_id(3), Some(ActionId::Rewrite(3)));
    assert_eq!(ActionId::from_rewrite_id(16), None);
}

#[test]
fn encoding_values() {
    assert_eq!(u64::from(ActionId::Default), 0);
    assert_eq!(u64::from(ActionId::RCode(RCode(3))), 3);
    assert_eq!(u64::from(ActionId::Alt(2)), 0x12);
    assert_eq!(u64::from(ActionId::Rewrite(5)), 0x25);
}

#[test]
fn decoding_values() {
    assert_eq!(ActionId::try_from(0u64), Ok(ActionId::Default));
    assert_eq!(ActionId::try_from(4u64), Ok(ActionId::RCode(RCode(4))));
    assert_eq!(ActionId::try_from(0x1fu64), Ok(ActionId::Alt(15)));
    assert_eq!(ActionId::try_from(0x20u64), Ok(ActionId::Rewrite(0)));
    assert_eq!(ActionId::try_from(0x30u64), Err(()));
    assert_eq!(ActionId::try_from(u64::MAX), Err(()));
}

#[test]
fn encoding_round_trip() {
    let all = [
        ActionId::Default,
        ActionId::RCode(RCode(1)),
        ActionId::RCode(RCode(5)),
        ActionId::RCode(RCode(15)),
        ActionId::Alt(0),
        ActionId::Alt(15),
        ActionId::Rewrite(0),
        ActionId::Rewrite(15),
    ];
    for a in all {
        assert_eq!(ActionId::try_from(u64::from(a)), Ok(a));
    }
    // a response code of 0 is stored like the default action
    assert_eq!(ActionId::try_from(u64::from(ActionId::RCode(RCode(0)))), Ok(ActionId::Default));
}

#[test]
fn parse_actions() {
    assert_eq!(ActionId::from_str("default"), Ok(ActionId::Default));
    assert_eq!(ActionId::from_str("nxdomain"), Ok(ActionId::RCode(RCode(3))));
    assert_eq!(ActionId::from_str("NOTIMP"), Ok(ActionId::RCode(RCode(4))));
    assert_eq!(ActionId::from_str("refused"), Ok(ActionId::RCode(RCode(5))));
    assert_eq!(ActionId::from_str("servfail"), Ok(ActionId::RCode(RCode(2))));
    assert_eq!(ActionId::from_str("Default"), Err(()));
    assert_eq!(ActionId::from_str("block"), Err(()));
}

#[test]
fn action_text() {
    assert_eq!(ActionId::Default.to_text(), "default");
    assert_eq!(ActionId::RCode(RCode(3)).to_text(), "NXDOMAIN");
    assert_eq!(ActionId::RCode(RCode(9)).to_text(), "RCODE9");
    assert_eq!(ActionId::Alt(12).to_text(), "alt:12");
    assert_eq!(ActionId::Rewrite(255).to_text(), "rewrite:255");
    assert_eq!(RCode(0).to_text(), "NOERROR");
}

#[test]
fn upstream_ids() {
    assert_eq!(ActionId::Default.to_upstream_id(), Some(None));
    assert_eq!(ActionId::Alt(3).to_upstream_id(), Some(Some(3)));
    assert_eq!(ActionId::RCode(RCode(3)).to_upstream_id(), None);
    assert_eq!(ActionId::Rewrite(1).to_upstream_id(), None);
}

#[test]
fn qtypes() {
    assert_eq!(QType::parse(b"AAAA"), Ok(QType(28)));
    assert_eq!(QType::parse(b"https"), Ok(QType(65)));
    assert_eq!(QType::parse(b"SvCb"), Ok(QType(64)));
    assert_eq!(QType::parse(b"a"), Ok(QType(1)));
    assert_eq!(QType::parse(b"65535"), Ok(QType(65535)));
    assert_eq!(QType::parse(b"65536"), Err(()));
    assert_eq!(QType::parse(b"12a"), Err(()));
    assert_eq!(QType::parse(b""), Err(()));
}
