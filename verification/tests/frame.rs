use high_perf_trading::frame::{frame_payload, try_read_frame};
use high_perf_trading::types::ProtoError;

#[test]
fn frames_roundtrip_through_the_buffer() {
    let mut buf = frame_payload(b"hello");
    buf.extend(frame_payload(b"x"));
    buf.extend_from_slice(&[9, 0]);
    assert_eq!(try_read_frame(&mut buf, 64), Ok(Some(b"hello".to_vec())));
    assert_eq!(try_read_frame(&mut buf, 64), Ok(Some(b"x".to_vec())));
    assert_eq!(try_read_frame(&mut buf, 64), Ok(None));
    assert_eq!(buf, vec![9, 0]);
}

#[test]
fn incomplete_and_oversized_frames() {
    let mut buf = vec![3, 0, 0, 0, 1, 2];
    assert_eq!(try_read_frame(&mut buf, 64), Ok(None));
    assert_eq!(buf.len(), 6);
    let mut big = vec![65, 0, 0, 0];
    assert_eq!(try_read_frame(&mut big, 64), Err(ProtoError::FrameTooLarge(65)));
    assert_eq!(big.len(), 4);
    assert_eq!(frame_payload(b""), vec![0, 0, 0, 0]);
}
