//! The whole relay core driven end to end: bytes in, frames out through a
//! subscription, plus the deterministic subprocess invocation.

use mjpeg_relay::hub::{PollOutcome, StreamEnd};
use mjpeg_relay::reader::BoundaryCheck;
use mjpeg_relay::server::ServerError;
use mjpeg_relay::source::{
    ring_capacity, transcode_args, transcoder_program, ProcessError, PumpStatus, Source,
};

fn unit(payload: &[u8]) -> Vec<u8> {
    let mut v = Vec::new();
    v.extend_from_slice(
        format!(
            "Content-type: image/jpeg\r\nContent-length: {}\r\n\r\n",
            payload.len()
        )
        .as_bytes(),
    );
    v.extend_from_slice(payload);
    v.extend_from_slice(b"\r\n--ffmpeg\r\n");
    v
}

#[test]
fn three_units_reach_one_subscription_in_order() {
    let p1 = vec![b'a'; 10];
    let p2 = vec![b'b'; 12];
    let p3 = vec![b'c'; 10];
    let mut input = Vec::new();
    input.extend_from_slice(b"--ffmpeg\r\n"); // opening boundary
    input.extend_from_slice(&unit(&p1));
    input.extend_from_slice(&unit(&p2));
    input.extend_from_slice(&unit(&p3));

    let mut src = Source::new(ring_capacity(10, 5));
    let mut sub = src.subscribe(); // attached before publishing begins
    src.feed(&input);
    src.end_input();
    assert_eq!(src.discard_leading_boundary(), BoundaryCheck::Matched);
    let mut published = 0;
    loop {
        match src.pump() {
            PumpStatus::Published => published += 1,
            PumpStatus::Skipped => panic!("no unit here is corrupt"),
            PumpStatus::NeedBytes => panic!("the whole input was fed"),
            PumpStatus::Stopped => break,
        }
    }
    assert_eq!(published, 3);

    let mut lens = Vec::new();
    loop {
        match sub.next(src.hub()) {
            PollOutcome::Ready(f) => {
                // the payload length, as the canonical frame declares it
                let text = String::from_utf8_lossy(f.as_bytes()).to_string();
                let after = text.split("Content-length: ").nth(1).unwrap();
                lens.push(after.split('\r').next().unwrap().parse::<usize>().unwrap());
            }
            PollOutcome::Ended(StreamEnd::Eof) => break,
            other => panic!("unexpected outcome {:?}", other),
        }
    }
    assert_eq!(lens, vec![10, 12, 10]);
}

#[test]
fn truncated_second_unit_yields_one_frame_then_error() {
    let p1 = vec![b'x'; 10];
    let mut input = Vec::new();
    input.extend_from_slice(b"--ffmpeg\r\n");
    input.extend_from_slice(&unit(&p1));
    // second unit declares 12 but only 11 payload bytes follow, then EOF
    input.extend_from_slice(b"Content-type: image/jpeg\r\nContent-length: 12\r\n\r\n");
    input.extend_from_slice(&vec![b'y'; 11]);

    let mut src = Source::new(8);
    let mut sub = src.subscribe();
    src.feed(&input);
    src.end_input();
    assert_eq!(src.discard_leading_boundary(), BoundaryCheck::Matched);
    assert_eq!(src.pump(), PumpStatus::Published);
    assert_eq!(src.pump(), PumpStatus::Stopped);
    // once stopped, pumping stays stopped
    assert_eq!(src.pump(), PumpStatus::Stopped);

    // exactly one frame, then the terminal condition
    assert!(matches!(sub.next(src.hub()), PollOutcome::Ready(_)));
    assert!(matches!(
        sub.next(src.hub()),
        PollOutcome::Ended(StreamEnd::Dead)
    ));
}

#[test]
fn pump_asks_for_bytes_on_live_incomplete_input() {
    let mut src = Source::new(4);
    assert_eq!(src.discard_leading_boundary(), BoundaryCheck::NeedBytes);
    src.feed(b"--ffmpeg\r\n");
    assert_eq!(src.discard_leading_boundary(), BoundaryCheck::Matched);
    assert_eq!(src.pump(), PumpStatus::NeedBytes);
    src.feed(b"Content-type: image/jpeg\r\nContent-len");
    assert_eq!(src.pump(), PumpStatus::NeedBytes);
    src.feed(b"gth: 2\r\n\r\nhi\r\n--ffmpeg\r\n");
    assert_eq!(src.pump(), PumpStatus::Published);
    // reclaiming consumed input changes nothing observable
    src.reclaim();
    assert_eq!(src.pump(), PumpStatus::NeedBytes);
}

#[test]
fn corrupt_units_are_skipped_by_the_pump() {
    let good = vec![b'k'; 4];
    let mut input = Vec::new();
    input.extend_from_slice(b"--ffmpeg\r\n");
    input.extend_from_slice(b"Content-type: image/jpeg\r\nContent-length: oops\r\n");
    input.extend_from_slice(&unit(&good));
    let mut src = Source::new(4);
    let mut sub = src.subscribe();
    src.feed(&input);
    src.end_input();
    assert_eq!(src.discard_leading_boundary(), BoundaryCheck::Matched);
    assert_eq!(src.pump(), PumpStatus::Skipped);
    assert_eq!(src.pump(), PumpStatus::Published);
    assert_eq!(src.pump(), PumpStatus::Stopped);
    assert!(matches!(sub.next(src.hub()), PollOutcome::Ready(_)));
    assert!(matches!(
        sub.next(src.hub()),
        PollOutcome::Ended(StreamEnd::Eof)
    ));
}

#[test]
fn pump_until_blocked_drains_the_buffer() {
    let p1 = vec![b'm'; 5];
    let p2 = vec![b'n'; 6];
    let p3 = vec![b'o'; 7];
    let mut input = Vec::new();
    input.extend_from_slice(b"--ffmpeg\r\n");
    input.extend_from_slice(&unit(&p1));
    input.extend_from_slice(&unit(&p2));
    let tail = unit(&p3);
    input.extend_from_slice(&tail[..8]); // third unit arrives later

    let mut src = Source::new(8);
    let mut sub = src.subscribe();
    src.feed(&input);
    assert_eq!(src.discard_leading_boundary(), BoundaryCheck::Matched);
    // everything complete in the buffer is published in one call
    assert_eq!(src.pump_until_blocked(), PumpStatus::NeedBytes);
    assert!(matches!(sub.next(src.hub()), PollOutcome::Ready(_)));
    assert!(matches!(sub.next(src.hub()), PollOutcome::Ready(_)));
    assert!(matches!(sub.next(src.hub()), PollOutcome::Pending));
    // the rest of the third unit completes the stream
    src.feed(&tail[8..]);
    src.end_input();
    assert_eq!(src.pump_until_blocked(), PumpStatus::Stopped);
    assert!(matches!(sub.next(src.hub()), PollOutcome::Ready(_)));
    assert!(matches!(
        sub.next(src.hub()),
        PollOutcome::Ended(StreamEnd::Eof)
    ));
}

#[test]
fn ring_capacity_is_the_product() {
    assert_eq!(ring_capacity(10, 5), 50);
    assert_eq!(ring_capacity(1, 1), 1);
}

#[test]
fn transcoder_invocation_is_deterministic() {
    assert_eq!(transcoder_program(), "ffmpeg");
    let args = transcode_args("rtsp://cam.example/stream", 10);
    let expect: Vec<&str> = vec![
        "-rtsp_transport",
        "tcp",
        "-i",
        "rtsp://cam.example/stream",
        "-c:v",
        "mjpeg",
        "-q:v",
        "1",
        "-f",
        "mpjpeg",
        "-filter_complex",
        "[0:v] fps=10",
        "-fps_mode",
        "drop",
        "-an",
        "-",
    ];
    let got: Vec<&str> = args.iter().map(|s| s.as_str()).collect();
    assert_eq!(got, expect);
    let args3 = transcode_args("file.mp4", 3);
    assert_eq!(args3[11].as_str(), "[0:v] fps=3");
    let args144 = transcode_args("file.mp4", 144);
    assert_eq!(args144[11].as_str(), "[0:v] fps=144");
}

#[test]
fn process_error_conversions() {
    let io = std::io::Error::new(std::io::ErrorKind::NotFound, "missing");
    assert!(matches!(ProcessError::from(io), ProcessError::Io(_)));
    assert!(matches!(ServerError::from(()), ServerError::InvalidAddr));
    let io2 = std::io::Error::new(std::io::ErrorKind::AddrInUse, "busy");
    assert!(matches!(ServerError::from(io2), ServerError::Io(_)));
}
