use rbuild::transport::{
    read_body, read_frame, read_length, read_u32, write_frame, Frame, FrameError, FrameKind,
    MAX_FRAME_LEN,
};

#[test]
fn frames_have_the_documented_layout() {
    let frame = Frame::data(0x01020304, b"hi".to_vec());
    assert_eq!(
        write_frame(&frame).unwrap(),
        vec![0, 0, 0, 7, 2, 1, 2, 3, 4, b'h', b'i']
    );
    assert_eq!(write_frame(&Frame::close(1)).unwrap(), vec![0, 0, 0, 5, 3, 0, 0, 0, 1]);
    assert_eq!(
        write_frame(&Frame::control(0, b"{}".to_vec())).unwrap(),
        vec![0, 0, 0, 7, 1, 0, 0, 0, 0, b'{', b'}']
    );
}

#[test]
fn frames_arrive_in_order() {
    let mut wire = Vec::new();
    for frame in [
        Frame::control(0, b"{}".to_vec()),
        Frame::data(7, vec![9; 300]),
        Frame::close(u32::MAX),
    ] {
        wire.extend(write_frame(&frame).unwrap());
    }
    let (a, n) = read_frame(&wire).unwrap().unwrap();
    assert_eq!((a.stream, a.kind, a.payload), (0, FrameKind::Control, b"{}".to_vec()));
    let (b, k) = read_frame(&wire[n..]).unwrap().unwrap();
    assert_eq!((b.stream, b.kind, b.payload), (7, FrameKind::Data, vec![9; 300]));
    let (c, l) = read_frame(&wire[n + k..]).unwrap().unwrap();
    assert_eq!((c.stream, c.kind, c.payload.len()), (u32::MAX, FrameKind::Close, 0));
    assert_eq!(n + k + l, wire.len());
    assert!(read_frame(&wire[n + k + l..]).unwrap().is_none());
}

#[test]
fn end_of_input_is_clean_only_at_a_boundary() {
    assert!(read_frame(&[]).unwrap().is_none());
    let wire = write_frame(&Frame::data(1, b"abc".to_vec())).unwrap();
    for n in 1..wire.len() {
        assert!(matches!(read_frame(&wire[..n]), Err(FrameError::UnexpectedEof)));
    }
}

#[test]
fn bad_frames_are_refused() {
    assert!(matches!(read_frame(&[0, 0, 0, 4, 1, 0, 0, 0]), Err(FrameError::InvalidLength(4))));
    let long = (MAX_FRAME_LEN + 1).to_be_bytes();
    assert!(matches!(read_frame(&long), Err(FrameError::InvalidLength(n)) if n == MAX_FRAME_LEN + 1));
    assert!(matches!(
        read_frame(&[0, 0, 0, 5, 9, 0, 0, 0, 0]),
        Err(FrameError::UnknownKind(9))
    ));
    // The kind is looked at before the rest has arrived.
    assert!(matches!(read_frame(&[0, 0, 0, 5, 0]), Err(FrameError::UnknownKind(0))));
    let too_large = Frame::data(0, vec![0; MAX_FRAME_LEN as usize - 4]);
    assert!(matches!(write_frame(&too_large), Err(FrameError::TooLarge)));
    let largest = Frame::data(0, vec![0; MAX_FRAME_LEN as usize - 5]);
    assert_eq!(write_frame(&largest).unwrap().len(), MAX_FRAME_LEN as usize + 4);
}

#[test]
fn frame_errors_have_words() {
    assert_eq!(FrameError::TooLarge.message(), "frame exceeds MAX_FRAME_LEN");
    assert_eq!(FrameError::InvalidLength(4).message(), "invalid frame length 4");
    assert_eq!(FrameError::UnknownKind(9).message(), "unknown frame kind 9");
    assert_eq!(FrameError::UnexpectedEof.message(), "input ended inside a frame");
}

#[test]
fn pieces_of_a_frame_are_read() {
    assert_eq!(read_u32(&[1, 2, 3, 4]), 0x01020304);
    assert_eq!(read_length(&[0, 0, 0, 5]), Ok(5));
    assert_eq!(read_length(&[0, 0, 0, 0]), Err(FrameError::InvalidLength(0)));
    for kind in [FrameKind::Control, FrameKind::Data, FrameKind::Close] {
        assert_eq!(FrameKind::from_byte(kind.to_byte()), Ok(kind));
    }
    let frame = read_body(FrameKind::Data, &[0, 0, 1, 0, 5, 6]);
    assert_eq!((frame.stream, frame.payload.clone()), (256, vec![5, 6]));
    assert_eq!(frame.clone().payload, vec![5, 6]);
}
