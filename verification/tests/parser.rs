//! The protocol decoder, unit by unit: well-formed units come back as
//! canonical frames, malformed units are skipped with resynchronization, and
//! a payload cut short by the end of the stream is fatal.

use mjpeg_relay::frame::DeadStream;
use mjpeg_relay::frame::TryBool;
use mjpeg_relay::reader::{BoundaryCheck, FrameProgress, FrameReader};

/// One well-formed multipart unit carrying `payload`, as the upstream
/// transcoder emits it.
fn unit(payload: &[u8]) -> Vec<u8> {
    let mut v = Vec::new();
    v.extend_from_slice(
        format!(
            "Content-type: image/jpeg\r\nContent-length: {}\r\n\r\n",
            payload.len()
        )
        .as_bytes(),
    );
    v.extend_from_slice(payload);
    v.extend_from_slice(b"\r\n--ffmpeg\r\n");
    v
}

/// The canonical wire shape the reader re-serializes a payload to.
fn canonical(payload: &[u8]) -> Vec<u8> {
    // same shape as a well-formed unit with exact headers
    unit(payload)
}

fn expect_frame(r: Result<FrameProgress, DeadStream>) -> mjpeg_relay::frame::Frame {
    match r {
        Ok(FrameProgress::Frame(f)) => f,
        other => panic!("expected a frame, got {:?}", other),
    }
}

#[test]
fn well_formed_unit_emits_canonical_frame() {
    let payload = b"0123456789";
    let mut r = FrameReader::new();
    r.push_bytes(&unit(payload));
    let f = expect_frame(r.read_frame());
    assert_eq!(f.as_bytes(), canonical(payload).as_slice());
    assert_eq!(f.len(), canonical(payload).len());
    // nothing more buffered and the stream is still open
    assert!(matches!(r.read_frame(), Ok(FrameProgress::NeedBytes)));
    // a clean end of stream at a unit boundary
    r.finish();
    assert!(matches!(r.read_frame(), Ok(FrameProgress::EndOfStream)));
}

#[test]
fn empty_payload_frame() {
    let mut r = FrameReader::new();
    r.push_bytes(&unit(b""));
    let f = expect_frame(r.read_frame());
    assert_eq!(f.as_bytes(), canonical(b"").as_slice());
}

#[test]
fn multi_digit_length_is_reserialized_exactly() {
    let payload = vec![0xABu8; 12345];
    let mut r = FrameReader::new();
    r.push_bytes(&unit(&payload));
    let f = expect_frame(r.read_frame());
    let expect = canonical(&payload);
    assert_eq!(f.as_bytes(), expect.as_slice());
    let text = String::from_utf8_lossy(&f.as_bytes()[..60]).to_string();
    assert!(text.contains("Content-length: 12345"));
}

#[test]
fn headers_are_normalized_not_echoed() {
    // upstream sends a sloppy content-type and extra spacing; the reader
    // re-serializes fixed headers
    let payload = b"abc";
    let mut input = Vec::new();
    input.extend_from_slice(b"Content-type: video/weird\r\nContent-length:   3 \r\n\r\n");
    input.extend_from_slice(payload);
    input.extend_from_slice(b"\r\n--ffmpeg extra\r\n");
    let mut r = FrameReader::new();
    r.push_bytes(&input);
    let f = expect_frame(r.read_frame());
    assert_eq!(f.as_bytes(), canonical(payload).as_slice());
}

#[test]
fn truncated_payload_is_fatal_not_corrupt() {
    // declares 12 but only 11 payload bytes exist before the stream ends
    let mut input = Vec::new();
    input.extend_from_slice(b"Content-type: image/jpeg\r\nContent-length: 12\r\n\r\n");
    input.extend_from_slice(b"0123456789a");
    let mut r = FrameReader::new();
    r.push_bytes(&input);
    // stream still open: the reader just waits
    assert!(matches!(r.read_frame(), Ok(FrameProgress::NeedBytes)));
    // stream ended: the byte stream itself is broken
    r.finish();
    assert!(matches!(r.read_frame(), Err(DeadStream)));
}

#[test]
fn nonnumeric_length_is_corrupt_then_resyncs() {
    let payload = b"good frame";
    let mut input = Vec::new();
    input.extend_from_slice(b"Content-type: image/jpeg\r\nContent-length: abc\r\n");
    input.extend_from_slice(&unit(payload));
    let mut r = FrameReader::new();
    r.push_bytes(&input);
    assert!(matches!(r.read_frame(), Ok(FrameProgress::Corrupt)));
    // the next well-formed unit afterward is still parsed
    let f = expect_frame(r.read_frame());
    assert_eq!(f.as_bytes(), canonical(payload).as_slice());
}

#[test]
fn missing_length_header_is_corrupt() {
    let payload = b"ok";
    let mut input = Vec::new();
    input.extend_from_slice(b"Content-type: image/jpeg\r\nX-unexpected: 3\r\n");
    input.extend_from_slice(&unit(payload));
    let mut r = FrameReader::new();
    r.push_bytes(&input);
    assert!(matches!(r.read_frame(), Ok(FrameProgress::Corrupt)));
    let f = expect_frame(r.read_frame());
    assert_eq!(f.as_bytes(), canonical(payload).as_slice());
}

#[test]
fn empty_length_value_is_corrupt() {
    // the only token on the line is the header name itself
    let mut input = Vec::new();
    input.extend_from_slice(b"Content-type: image/jpeg\r\nContent-length: \r\n");
    input.extend_from_slice(&unit(b"x"));
    let mut r = FrameReader::new();
    r.push_bytes(&input);
    assert!(matches!(r.read_frame(), Ok(FrameProgress::Corrupt)));
    let f = expect_frame(r.read_frame());
    assert_eq!(f.as_bytes(), canonical(b"x").as_slice());
}

#[test]
fn overflowing_length_is_corrupt() {
    let mut input = Vec::new();
    input.extend_from_slice(b"Content-type: image/jpeg\r\nContent-length: 99999999999999999999999\r\n");
    input.extend_from_slice(&unit(b"y"));
    let mut r = FrameReader::new();
    r.push_bytes(&input);
    assert!(matches!(r.read_frame(), Ok(FrameProgress::Corrupt)));
    let f = expect_frame(r.read_frame());
    assert_eq!(f.as_bytes(), canonical(b"y").as_slice());
}

#[test]
fn plus_prefixed_length_parses() {
    let mut input = Vec::new();
    input.extend_from_slice(b"Content-type: image/jpeg\r\nContent-length: +3\r\n\r\nabc\r\n--ffmpeg\r\n");
    let mut r = FrameReader::new();
    r.push_bytes(&input);
    let f = expect_frame(r.read_frame());
    // reconstructed header declares the plain length
    assert_eq!(f.as_bytes(), canonical(b"abc").as_slice());
}

#[test]
fn bad_content_type_line_is_corrupt() {
    let payload = b"fine";
    let mut input = Vec::new();
    input.extend_from_slice(b"Bogus header\r\n");
    input.extend_from_slice(&unit(payload));
    let mut r = FrameReader::new();
    r.push_bytes(&input);
    assert!(matches!(r.read_frame(), Ok(FrameProgress::Corrupt)));
    let f = expect_frame(r.read_frame());
    assert_eq!(f.as_bytes(), canonical(payload).as_slice());
}

#[test]
fn nonblank_separator_is_corrupt() {
    let mut input = Vec::new();
    input.extend_from_slice(b"Content-type: image/jpeg\r\nContent-length: 2\r\nnot blank\r\n");
    input.extend_from_slice(&unit(b"zz"));
    let mut r = FrameReader::new();
    r.push_bytes(&input);
    assert!(matches!(r.read_frame(), Ok(FrameProgress::Corrupt)));
    let f = expect_frame(r.read_frame());
    assert_eq!(f.as_bytes(), canonical(b"zz").as_slice());
}

#[test]
fn nonblank_trailer_is_corrupt() {
    let mut input = Vec::new();
    input.extend_from_slice(b"Content-type: image/jpeg\r\nContent-length: 2\r\n\r\nzzjunk\r\n");
    input.extend_from_slice(&unit(b"ok")); // resync target
    let mut r = FrameReader::new();
    r.push_bytes(&input);
    assert!(matches!(r.read_frame(), Ok(FrameProgress::Corrupt)));
    let f = expect_frame(r.read_frame());
    assert_eq!(f.as_bytes(), canonical(b"ok").as_slice());
}

#[test]
fn missing_boundary_is_corrupt() {
    let mut input = Vec::new();
    input.extend_from_slice(b"Content-type: image/jpeg\r\nContent-length: 2\r\n\r\nzz\r\nnot-a-boundary\r\n");
    input.extend_from_slice(&unit(b"ok"));
    let mut r = FrameReader::new();
    r.push_bytes(&input);
    assert!(matches!(r.read_frame(), Ok(FrameProgress::Corrupt)));
    let f = expect_frame(r.read_frame());
    assert_eq!(f.as_bytes(), canonical(b"ok").as_slice());
}

#[test]
fn incremental_chunks_wait_for_completion() {
    let payload = b"streaming";
    let whole = unit(payload);
    let mut r = FrameReader::new();
    // feed byte by byte: the reader never consumes a partial unit
    for (i, b) in whole.iter().enumerate() {
        if i + 1 < whole.len() {
            r.push_bytes(&[*b]);
            if i % 7 == 0 {
                assert!(matches!(r.read_frame(), Ok(FrameProgress::NeedBytes)));
            }
        } else {
            r.push_bytes(&[*b]);
        }
    }
    let f = expect_frame(r.read_frame());
    assert_eq!(f.as_bytes(), canonical(payload).as_slice());
}

#[test]
fn discard_boundary_states() {
    let mut r = FrameReader::new();
    assert_eq!(r.discard_mime_boundary(), BoundaryCheck::NeedBytes);
    r.push_bytes(b"--ffmpeg\r\n");
    assert_eq!(r.discard_mime_boundary(), BoundaryCheck::Matched);
    r.push_bytes(b"something else\r\n");
    assert_eq!(r.discard_mime_boundary(), BoundaryCheck::NotBoundary);
}

#[test]
fn eof_mid_headers_is_corrupt_then_end() {
    let mut r = FrameReader::new();
    r.push_bytes(b"Content-type: image/jpeg\r\n");
    r.finish();
    // the length line is missing entirely; the truncated unit is corrupt
    assert!(matches!(r.read_frame(), Ok(FrameProgress::Corrupt)));
    assert!(matches!(r.read_frame(), Ok(FrameProgress::EndOfStream)));
}

#[test]
fn compact_keeps_unconsumed_bytes() {
    let p1 = b"first";
    let p2 = b"second";
    let mut r = FrameReader::new();
    let mut input = unit(p1);
    let tail = unit(p2);
    input.extend_from_slice(&tail[..5]);
    r.push_bytes(&input);
    let f1 = expect_frame(r.read_frame());
    assert_eq!(f1.as_bytes(), canonical(p1).as_slice());
    r.compact();
    assert!(matches!(r.read_frame(), Ok(FrameProgress::NeedBytes)));
    r.push_bytes(&tail[5..]);
    let f2 = expect_frame(r.read_frame());
    assert_eq!(f2.as_bytes(), canonical(p2).as_slice());
}

#[test]
fn frame_clone_and_into_bytes_share_content() {
    let payload = b"shared";
    let mut r = FrameReader::new();
    r.push_bytes(&unit(payload));
    let f = expect_frame(r.read_frame());
    let copy = f.clone();
    assert_eq!(copy.as_bytes(), f.as_bytes());
    let b: bytes::Bytes = f.into_bytes();
    assert_eq!(b.as_ref(), canonical(payload).as_slice());
}

#[test]
fn try_bool_reads_as_result() {
    assert_eq!(true.ok(), Ok(()));
    assert_eq!(false.ok(), Err(()));
}

#[test]
fn dead_stream_from_io_error() {
    let e = std::io::Error::new(std::io::ErrorKind::BrokenPipe, "gone");
    let d = DeadStream::from(e);
    assert_eq!(d, DeadStream);
}
