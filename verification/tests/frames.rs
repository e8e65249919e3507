use dnsl::error::Error;
use dnsl::handle::{decide, HandleAction};
use dnsl::msg::MsgView;

/// A captured frame: 42 bytes of link, IP and UDP headers, then a DNS query
/// with ID 0xbeef and one question.
fn frame() -> Vec<u8> {
    let mut f = vec![0u8; 42];
    f.extend_from_slice(&[0xbe, 0xef, 1, 0, 0, 1, 0, 0, 0, 0, 0, 0]);
    f.extend_from_slice(&[9, 0, 28, 0, 1]);
    f
}

#[test]
fn frame_id() {
    let f = frame();
    assert_eq!(MsgView::new(&f).id(), 0xbeef);
}

#[test]
fn frame_qds_take_one_name_byte() {
    let f = frame();
    let qds = MsgView::new(&f).qds().unwrap();
    assert_eq!(qds.len(), 1);
    assert!(qds[0].qname.is_empty());
    assert_eq!(qds[0].qtype, 28);
    assert_eq!(qds[0].qclass, 1);
}

#[test]
fn frame_qds_short_is_eof() {
    let f = frame();
    assert!(matches!(MsgView::new(&f[..57]).qds(), Err(Error::UnexpectedEof)));
}

#[test]
fn frame_qds_two_questions() {
    let mut f = frame();
    f[47] = 2;
    f.extend_from_slice(&[7, 0, 1, 0, 3]);
    let qds = MsgView::new(&f).qds().unwrap();
    assert_eq!(qds.len(), 2);
    assert_eq!(qds[1].qtype, 1);
    assert_eq!(qds[1].qclass, 3);
}

#[test]
fn handler_sends_back_readable_query() {
    assert_eq!(decide(&frame()), Ok(HandleAction::SendBack));
}

#[test]
fn handler_fails_on_short_frame() {
    let f = frame();
    assert_eq!(decide(&f[..56]), Err(Error::UnexpectedEof));
}
