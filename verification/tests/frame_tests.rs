use bytes::BytesMut;
use hyparview::frame::{encode_frame, take_frame};

#[test]
fn frame_is_taken_once_one_more_byte_follows() {
    let framed = encode_frame(b"hello");
    assert_eq!(framed, vec![6u8, b'h', b'e', b'l', b'l', b'o']);
    let mut buf = BytesMut::from(&framed[..]);
    assert_eq!(take_frame(&mut buf), None);
    assert_eq!(buf.len(), 6);
    buf.extend_from_slice(&[9]);
    assert_eq!(take_frame(&mut buf), Some(b"hello".to_vec()));
    assert_eq!(&buf[..], &[9u8][..]);
}

#[test]
fn empty_buffer_has_no_frame() {
    let mut buf = BytesMut::new();
    assert_eq!(take_frame(&mut buf), None);
}

#[test]
fn empty_payload_frame() {
    let framed = encode_frame(b"");
    assert_eq!(framed, vec![1u8]);
    let mut buf = BytesMut::from(&[1u8, 1, 7][..]);
    assert_eq!(take_frame(&mut buf), Some(vec![]));
    assert_eq!(&buf[..], &[1u8, 7][..]);
}
