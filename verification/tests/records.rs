use dnsl::models::qd::QD;
use dnsl::models::rr::RR;

fn record() -> RR {
    RR { name: "a.b".to_string(), rrtype: 1, rrclass: 1, ttl: -1, rdata: vec![1, 2, 3, 4] }
}

#[test]
fn rr_buf_appends_wire_format() {
    let mut buf = vec![0xaa];
    let len = record().buf(&mut buf);
    assert_eq!(len, 19);
    assert_eq!(
        buf,
        vec![
            0xaa, 1, b'a', 1, b'b', 0, 0, 1, 0, 1, 0xff, 0xff, 0xff, 0xff, 0, 4, 1, 2, 3, 4
        ]
    );
}

#[test]
fn rr_buf_big_endian_fields() {
    let rr = RR { name: "x".to_string(), rrtype: 0x1234, rrclass: 0xabcd, ttl: 0x01020304, rdata: vec![] };
    let mut buf = Vec::new();
    assert_eq!(rr.buf(&mut buf), 13);
    assert_eq!(buf, vec![1, b'x', 0, 0x12, 0x34, 0xab, 0xcd, 1, 2, 3, 4, 0, 0]);
}

#[test]
fn rr_clone_is_equal() {
    assert_eq!(record().clone(), record());
}

#[test]
fn qd_same_compares_all_fields() {
    let a = QD { qname: "x".to_string(), qtype: 1, qclass: 1 };
    let b = QD { qname: "x".to_string(), qtype: 1, qclass: 1 };
    let c = QD { qname: "x".to_string(), qtype: 28, qclass: 1 };
    assert!(a.same(&b));
    assert!(!a.same(&c));
    assert_eq!(a.clone(), b);
}
