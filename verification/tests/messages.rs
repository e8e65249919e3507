use dnsl::error::Error;
use dnsl::models::msg::MsgView;
use dnsl::models::qd::QD;
use dnsl::models::rr::RR;

/// A query for `example.com`, type A, class IN, with ID 0x1234.
fn query() -> Vec<u8> {
    let mut m = vec![0x12, 0x34, 0x01, 0x20, 0, 1, 0, 0, 0, 0, 0, 0];
    m.extend_from_slice(&[7, b'e', b'x', b'a', b'm', b'p', b'l', b'e', 3, b'c', b'o', b'm', 0]);
    m.extend_from_slice(&[0, 1, 0, 1]);
    m
}

fn answer() -> RR {
    RR { name: "example.com".to_string(), rrtype: 1, rrclass: 1, ttl: 60, rdata: vec![10, 0, 0, 1] }
}

#[test]
fn id_reads_first_two_bytes() {
    let q = query();
    assert_eq!(MsgView::new(&q).id(), 0x1234);
}

#[test]
fn qds_reads_questions() {
    let q = query();
    let (qds, qlen) = MsgView::new(&q).qds().unwrap();
    assert_eq!(qds, vec![QD { qname: "example.com".to_string(), qtype: 1, qclass: 1 }]);
    assert_eq!(qlen, 17);
}

#[test]
fn qds_two_questions() {
    let mut q = query();
    q[5] = 2;
    q.extend_from_slice(&[1, b'a', 0, 0, 28, 0, 1]);
    let (qds, qlen) = MsgView::new(&q).qds().unwrap();
    assert_eq!(qds.len(), 2);
    assert_eq!(qlen, 17 + 7);
    assert_eq!(qds[1], QD { qname: "a".to_string(), qtype: 28, qclass: 1 });
}

#[test]
fn qds_length_excludes_trailing_bytes() {
    let mut q = query();
    q.resize(100, 0);
    let (qds, qlen) = MsgView::new(&q).qds().unwrap();
    assert_eq!(qds.len(), 1);
    assert_eq!(qlen, 17);
}

#[test]
fn qds_none() {
    let mut q = query();
    q[5] = 0;
    assert_eq!(MsgView::new(&q).qds().unwrap(), (vec![], 0));
}

#[test]
fn qds_truncated_type_is_eof() {
    let q = query();
    let short = &q[..q.len() - 2];
    assert_eq!(MsgView::new(short).qds(), Err(Error::UnexpectedEof));
}

#[test]
fn qds_more_questions_than_present_is_eof() {
    let mut q = query();
    q[5] = 2;
    assert_eq!(MsgView::new(&q).qds(), Err(Error::UnexpectedEof));
}

#[test]
fn qds_invalid_utf8_name() {
    let mut q = vec![0, 1, 0, 0, 0, 1, 0, 0, 0, 0, 0, 0];
    q.extend_from_slice(&[1, 0xfe, 0, 0, 1, 0, 1]);
    assert_eq!(MsgView::new(&q).qds(), Err(Error::Utf8));
}

#[test]
fn reply_on_padded_query() {
    let mut q = query();
    q.resize(64, 0);
    let r = MsgView::new(&q).reply(&answer(), false);
    let mut expected = vec![0x12, 0x34, 0x81, 0x20 & 0x70, 0, 1, 0, 1, 0, 0, 0, 0];
    expected.extend_from_slice(&[7, b'e', b'x', b'a', b'm', b'p', b'l', b'e', 3, b'c', b'o', b'm', 0]);
    let mut wire = Vec::new();
    answer().buf(&mut wire);
    expected.extend_from_slice(&wire);
    assert_eq!(r, expected);
}

#[test]
fn reply_sets_tc_when_asked() {
    let mut q = query();
    q.resize(64, 0);
    let r = MsgView::new(&q).reply(&answer(), true);
    assert_eq!(r[2], 0x81 | 0x02);
    q[2] = 0x03;
    let r = MsgView::new(&q).reply(&answer(), false);
    assert_eq!(r[2], 0x81);
}

#[test]
fn reply_clears_ra_and_rcode() {
    let mut q = query();
    q[3] = 0xff;
    q.resize(64, 0);
    let r = MsgView::new(&q).reply(&answer(), false);
    assert_eq!(r[3], 0x70);
}

#[test]
fn answer_copies_question_section_whole() {
    let q = query();
    let r = MsgView::new(&q).answer(&answer(), 17, false);
    let mut expected = vec![0x12, 0x34, 0x81, 0x20, 0, 1, 0, 1, 0, 0, 0, 0];
    expected.extend_from_slice(&q[12..29]);
    answer().buf(&mut expected);
    assert_eq!(r, expected);
    let (qds, qlen) = MsgView::new(&r).qds().unwrap();
    assert_eq!(qds, MsgView::new(&q).qds().unwrap().0);
    assert_eq!(qlen, 17);
}

#[test]
fn answer_keeps_rest_of_query() {
    let mut q = query();
    q.extend_from_slice(&[0xde, 0xad]);
    let r = MsgView::new(&q).answer(&answer(), 17, true);
    assert_eq!(r[2], 0x83);
    assert_eq!(r[r.len() - 2..], [0xde, 0xad]);
}
