use pprz::protocol::{Decoder, EncodeError, Frame, FrameError};

#[test]
fn retains_message_data() {
    let frame = Frame::new(0, 7, vec![1, 2, 3]);
    assert_eq!(frame.message_id, 7);
    assert_eq!(frame.payload, [1, 2, 3]);
}

#[test]
fn encodes_reference_frame() {
    let bytes = Frame::new(0x2a, 7, vec![1, 2]).encode().expect("small frame encodes");
    assert_eq!(bytes, vec![0x99, 0x08, 0x2a, 0x07, 0x01, 0x02, 0xd5, 0x7f]);
}

#[test]
fn encodes_empty_payload() {
    let bytes = Frame::new(4, 5, vec![]).encode().expect("empty frame encodes");
    assert_eq!(bytes, vec![0x99, 6, 4, 5, 0xa8, 0x83]);
}

#[test]
fn rejects_oversized_payload() {
    assert_eq!(Frame::new(1, 1, vec![0; 250]).encode(), Err(EncodeError::PayloadTooLong(250)));
    let longest = Frame::new(1, 1, vec![0; 249]).encode().expect("longest frame encodes");
    assert_eq!(longest.len(), 255);
    assert_eq!(longest[1], 255);
}

fn feed(decoder: &mut Decoder, bytes: &[u8]) -> Vec<Result<Option<Frame>, FrameError>> {
    bytes.iter().map(|&b| decoder.push(b)).collect()
}

#[test]
fn decodes_reference_frame() {
    let mut decoder = Decoder::new();
    let outcomes = feed(&mut decoder, &[0x99, 0x08, 0x2a, 0x07, 0x01, 0x02, 0xd5, 0x7f]);
    for outcome in &outcomes[..7] {
        assert_eq!(outcome, &Ok(None));
    }
    assert_eq!(outcomes[7], Ok(Some(Frame::new(0x2a, 7, vec![1, 2]))));
}

#[test]
fn roundtrips_frames() {
    for payload_len in [0usize, 1, 17, 249] {
        let frame = Frame::new(200, 9, (0..payload_len).map(|i| (i * 7) as u8).collect());
        let bytes = frame.encode().expect("frame encodes");
        let mut decoder = Decoder::new();
        let outcomes = feed(&mut decoder, &bytes);
        assert_eq!(outcomes.last().cloned(), Some(Ok(Some(frame))));
        assert!(outcomes[..outcomes.len() - 1].iter().all(|o| *o == Ok(None)));
    }
}

#[test]
fn rejects_bad_checksum_and_recovers() {
    let mut decoder = Decoder::new();
    let outcomes = feed(&mut decoder, &[0x99, 6, 4, 5, 0xaa, 0]);
    assert_eq!(outcomes[5], Err(FrameError::ChecksumMismatch));
    let outcomes = feed(&mut decoder, &[0x99, 0x08, 0x2a, 0x07, 0x01, 0x02, 0xd5, 0x7f]);
    assert_eq!(outcomes[7], Ok(Some(Frame::new(0x2a, 7, vec![1, 2]))));
}

#[test]
fn rejects_short_length() {
    let mut decoder = Decoder::new();
    let outcomes = feed(&mut decoder, &[0x13, 0x99, 5]);
    assert_eq!(outcomes, vec![Ok(None), Ok(None), Err(FrameError::InvalidLength(5))]);
}
