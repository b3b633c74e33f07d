use fstdns::svec::SVec;

#[test]
fn svec_size() {}

#[test]
fn short_vectors_stay_inline() {
    let v: SVec<u8, 8> = SVec::from(&b"abc"[..]);
    assert!(matches!(v, SVec::Int(_)));
    assert_eq!(v.as_ref(), b"abc");
    let d: SVec<u8, 8> = SVec::default();
    assert_eq!(d.as_ref(), b"");
}

#[test]
fn long_vectors_go_to_the_heap() {
    let v: SVec<u8, 4> = SVec::from(b"abcd".to_vec());
    assert!(matches!(v, SVec::Ext(_)));
    assert_eq!(v.as_ref(), b"abcd");
    let w = v.clone();
    assert_eq!(w.as_ref(), b"abcd");
}

#[test]
fn inline_length_is_kept_in_a_byte() {
    let data = vec![7u16; 300];
    let v: SVec<u16, 400> = SVec::from(&data[..]);
    assert_eq!(v.as_ref().len(), 300 % 256);
}

#[test]
fn test() {
    println!("size of Ipv4: {}", std::mem::size_of::<fstdns::addr::Ipv4>());
    println!("size of Ipv6: {}", std::mem::size_of::<fstdns::addr::Ipv6>());
}

#[test]
fn inline_padding_is_the_default_value() {
    let v: SVec<u8, 4> = SVec::from(&[1u8, 2, 3][..]);
    match v {
        SVec::Int((a, n)) => {
            assert_eq!(a, [1, 2, 3, 0]);
            assert_eq!(n, 3);
        }
        SVec::Ext(_) => panic!("expected an inline vector"),
    }
    let w: SVec<u8, 4> = SVec::from(&[1u8, 2, 3, 4][..]);
    match w {
        SVec::Ext(x) => assert_eq!(x, vec![1, 2, 3, 4]),
        SVec::Int(_) => panic!("expected a heap vector"),
    }
}
