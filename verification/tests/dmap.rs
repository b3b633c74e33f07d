use fstdns::dmap::{DMapBuilder, MAX_FQDN_LEN};

#[test]
fn test_match() {
    let mut b = DMapBuilder::default();
    b.add_list(&[b"com".as_slice()], 0);
    b.add_list(&[b"example.com".as_slice()], 1);
    let m = b.build().unwrap();

    assert_eq!(m.get(b"com"), Some(0));
    assert_eq!(m.get(b"net"), None);
    assert_eq!(m.get(b"a.com"), Some(0));
    assert_eq!(m.get(b"acom"), None);
    assert_eq!(m.get(b"example.com"), Some(1));
    assert_eq!(m.get(b"sub.example.com"), Some(1));
    assert_eq!(m.get(b"notsubexample.com"), Some(0));
}

#[test]
fn empty_map_matches_nothing() {
    let m = DMapBuilder::default().build().unwrap();
    assert_eq!(m.get(b"com"), None);
    assert_eq!(m.get(b""), None);
}

#[test]
fn label_boundary_only() {
    let mut b = DMapBuilder::default();
    b.add_list(&[b"foo.bar".as_slice()], 7);
    let m = b.build().unwrap();
    assert_eq!(m.get(b"foo.bar"), Some(7));
    assert_eq!(m.get(b"sub.foo.bar"), Some(7));
    assert_eq!(m.get(b"a.b.sub.foo.bar"), Some(7));
    assert_eq!(m.get(b"subfoo.bar"), None);
    assert_eq!(m.get(b"bar"), None);
    assert_eq!(m.get(b"foo.bar.baz"), None);
}

#[test]
fn later_domain_replaces_earlier() {
    let mut b = DMapBuilder::default();
    b.add_list(&[b"example.com".as_slice()], 1);
    b.add_list(&[b"example.com".as_slice()], 2);
    let m = b.build().unwrap();
    assert_eq!(m.get(b"example.com"), Some(2));
}

#[test]
fn later_addition_wins_between_files_and_lists() {
    let mut b = DMapBuilder::default();
    b.add_list(&[b"com".as_slice()], 0);
    b.add_file(b"com\nother.org\n".to_vec(), b"", 1);
    b.add_list(&[b"other.org".as_slice()], 2);
    let m = b.build().unwrap();
    assert_eq!(m.get(b"com"), Some(1));
    assert_eq!(m.get(b"example.com"), Some(1));
    assert_eq!(m.get(b"www.other.org"), Some(2));
}

#[test]
fn file_lines_are_trimmed_and_comments_skipped() {
    let mut b = DMapBuilder::default();
    b.add_file(b"# a comment\n\n  ads.example  \r\n\ttracker.net\n#skip.me\nlast.org".to_vec(), b"", 3);
    let m = b.build().unwrap();
    assert_eq!(m.get(b"ads.example"), Some(3));
    assert_eq!(m.get(b"x.tracker.net"), Some(3));
    assert_eq!(m.get(b"last.org"), Some(3));
    assert_eq!(m.get(b"skip.me"), None);
    assert_eq!(m.get(b"# a comment"), None);
}

#[test]
fn file_prefix_is_taken_off() {
    let mut b = DMapBuilder::default();
    b.add_file(b"*.ads.example\nno-prefix.org\n*.tracker.net\n".to_vec(), b"*.", 4);
    let m = b.build().unwrap();
    assert_eq!(m.get(b"ads.example"), Some(4));
    assert_eq!(m.get(b"a.tracker.net"), Some(4));
    assert_eq!(m.get(b"no-prefix.org"), None);
    assert_eq!(m.get(b"*.ads.example"), Some(4));
}

#[test]
fn overlong_file_lines_are_skipped() {
    let long = vec![b'a'; MAX_FQDN_LEN + 1];
    let ok = vec![b'b'; MAX_FQDN_LEN];
    let mut file = long.clone();
    file.push(b'\n');
    file.extend_from_slice(&ok);
    let mut b = DMapBuilder::default();
    b.add_file(file, b"", 9);
    let m = b.build().unwrap();
    assert_eq!(m.get(&long), None);
    assert_eq!(m.get(&ok), Some(9));
}

#[test]
fn many_domains_sorted_into_the_map() {
    let mut b = DMapBuilder::default();
    let names: Vec<Vec<u8>> = (0..300u32).map(|i| format!("d{}.example{}.com", i * 7919 % 300, i % 7).into_bytes()).collect();
    for (i, n) in names.iter().enumerate() {
        b.add_list(&[n.as_slice()], i as u64);
    }
    let m = b.build().unwrap();
    for (i, n) in names.iter().enumerate() {
        let last = names.iter().rposition(|x| x == n).unwrap();
        assert_eq!(m.get(n), Some(last as u64), "{}", i);
    }
    assert_eq!(m.get(b"nothing.here"), None);
}

#[test]
fn large_values_survive() {
    let mut b = DMapBuilder::default();
    b.add_list(&[b"a.b".as_slice(), b"c.b".as_slice()], u64::MAX);
    b.add_list(&[b"b".as_slice()], 0);
    let m = b.build().unwrap();
    assert_eq!(m.get(b"x.a.b"), Some(u64::MAX));
    assert_eq!(m.get(b"c.b"), Some(u64::MAX));
    assert_eq!(m.get(b"z.b"), Some(0));
}
