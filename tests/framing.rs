use rdir::framing::{FramedStream, MAX_FRAME_SIZE};

#[test]
fn framed_stream_writes() {
    let buf = FramedStream::<()>::frame(&(0..10).collect::<Vec<u8>>());
    let mut buf2 = vec![0, 10];
    buf2.extend(0..10);
    assert_eq!(buf, buf2);
}

#[test]
fn framed_stream_reads() {
    let mut buf: Vec<u8> = vec![0, 10];
    buf.extend(0..10);
    let (read_buf, used) = FramedStream::<()>::unframe(buf.as_slice()).unwrap();
    assert_eq!(read_buf, (0..10).collect::<Vec<u8>>());
    assert_eq!(used, 12);
}

#[test]
fn frame_round_trip_with_trailing_bytes() {
    for len in [0usize, 1, 255, 256, 1000, MAX_FRAME_SIZE] {
        let payload: Vec<u8> = (0..len).map(|i| (i * 7) as u8).collect();
        let mut bytes = FramedStream::<()>::frame(&payload);
        assert_eq!(bytes.len(), len + 2);
        assert_eq!(FramedStream::<()>::frame_len([bytes[0], bytes[1]]), len);
        bytes.extend([9, 9, 9]);
        let (back, used) = FramedStream::<()>::unframe(&bytes).unwrap();
        assert_eq!(back, payload);
        assert_eq!(used, len + 2);
    }
}

#[test]
fn incomplete_frame_is_not_read() {
    assert!(FramedStream::<()>::unframe(&[]).is_none());
    assert!(FramedStream::<()>::unframe(&[0]).is_none());
    assert!(FramedStream::<()>::unframe(&[0, 3, 1, 2]).is_none());
    assert_eq!(FramedStream::<()>::frame_len([1, 0]), 256);
}

#[test]
fn framed_stream_holds_its_inner_value() {
    let s = FramedStream::new(5u8);
    assert_eq!(s.into_inner(), 5);
}
