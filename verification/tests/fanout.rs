//! The hub and its subscriptions: bounded staleness, strict forward progress
//! without duplication or reordering, and the independence of readers.

use mjpeg_relay::frame::Frame;
use mjpeg_relay::hub::{Hub, PollOutcome, StreamEnd, Subscription};
use mjpeg_relay::reader::{FrameProgress, FrameReader};

/// Mint frames through the reader (the only place frames are created),
/// one per payload.
fn mint(payloads: &[&[u8]]) -> Vec<Frame> {
    let mut r = FrameReader::new();
    for p in payloads {
        let mut v = Vec::new();
        v.extend_from_slice(
            format!(
                "Content-type: image/jpeg\r\nContent-length: {}\r\n\r\n",
                p.len()
            )
            .as_bytes(),
        );
        v.extend_from_slice(p);
        v.extend_from_slice(b"\r\n--ffmpeg\r\n");
        r.push_bytes(&v);
    }
    let mut out = Vec::new();
    for _ in 0..payloads.len() {
        match r.read_frame() {
            Ok(FrameProgress::Frame(f)) => out.push(f),
            other => panic!("expected a frame, got {:?}", other),
        }
    }
    out
}

fn expect_ready(o: PollOutcome) -> Frame {
    match o {
        PollOutcome::Ready(f) => f,
        other => panic!("expected a ready frame, got {:?}", other),
    }
}

/// Which of the numbered payloads this frame carries; the payloads used in
/// these tests are pairwise distinct byte strings.
fn payload_index(f: &Frame, payloads: &[&[u8]]) -> usize {
    for (i, p) in payloads.iter().enumerate() {
        if f.as_bytes().windows(p.len()).any(|w| w == *p) {
            return i;
        }
    }
    panic!("frame matches no payload");
}

#[test]
fn subscription_sees_only_frames_after_attach() {
    let payloads: [&[u8]; 2] = [b"frame-A0", b"frame-B1"];
    let frames = mint(&payloads);
    let mut hub = Hub::new(4);
    let mut it = frames.into_iter();
    hub.publish(it.next().unwrap());
    // attach after the first publish: no replay of history
    let mut sub: Subscription = hub.subscribe();
    hub.publish(it.next().unwrap());
    let f = expect_ready(sub.next(&hub));
    assert_eq!(payload_index(&f, &payloads), 1);
    assert!(matches!(sub.next(&hub), PollOutcome::Pending));
}

#[test]
fn bounded_staleness_after_burst() {
    // capacity 3, 5 frames published before the first read: the first
    // delivered frame is the one 3 from the end, i.e. index 2
    let payloads: [&[u8]; 5] = [b"pay-000", b"pay-111", b"pay-222", b"pay-333", b"pay-444"];
    let mut hub = Hub::new(3);
    let mut sub = hub.subscribe();
    for f in mint(&payloads) {
        hub.publish(f);
    }
    let first = expect_ready(sub.next(&hub));
    assert_eq!(payload_index(&first, &payloads), 2);
    let second = expect_ready(sub.next(&hub));
    assert_eq!(payload_index(&second, &payloads), 3);
    let third = expect_ready(sub.next(&hub));
    assert_eq!(payload_index(&third, &payloads), 4);
    assert!(matches!(sub.next(&hub), PollOutcome::Pending));
}

#[test]
fn observations_never_duplicate_or_reorder() {
    let payloads: [&[u8]; 6] = [
        b"seq-alpha",
        b"seq-bravo",
        b"seq-charlie",
        b"seq-delta",
        b"seq-echo",
        b"seq-foxtrot",
    ];
    let frames = mint(&payloads);
    let mut hub = Hub::new(2);
    let mut sub = hub.subscribe();
    let mut observed = Vec::new();
    let mut it = frames.into_iter();
    // publish in bursts so the reader lags and skips
    hub.publish(it.next().unwrap());
    hub.publish(it.next().unwrap());
    hub.publish(it.next().unwrap());
    observed.push(payload_index(&expect_ready(sub.next(&hub)), &payloads));
    hub.publish(it.next().unwrap());
    hub.publish(it.next().unwrap());
    observed.push(payload_index(&expect_ready(sub.next(&hub)), &payloads));
    hub.publish(it.next().unwrap());
    observed.push(payload_index(&expect_ready(sub.next(&hub)), &payloads));
    observed.push(payload_index(&expect_ready(sub.next(&hub)), &payloads));
    assert!(matches!(sub.next(&hub), PollOutcome::Pending));
    // strictly increasing positions of the publish sequence
    for w in observed.windows(2) {
        assert!(w[0] < w[1], "observed {:?} is not strictly increasing", observed);
    }
}

#[test]
fn lagged_reader_jumps_to_oldest_retained() {
    let payloads: [&[u8]; 3] = [b"old-stuff", b"mid-stuff", b"new-stuff"];
    let mut hub = Hub::new(1);
    let mut sub = hub.subscribe();
    for f in mint(&payloads) {
        hub.publish(f);
    }
    // only the newest survives in a ring of one
    let f = expect_ready(sub.next(&hub));
    assert_eq!(payload_index(&f, &payloads), 2);
}

#[test]
fn independent_subscriptions_terminate_independently() {
    let payloads: [&[u8]; 4] = [b"ind-one", b"ind-two", b"ind-three", b"ind-four"];
    let frames = mint(&payloads);
    let mut hub = Hub::new(4);
    let mut fast = hub.subscribe();
    let mut slow = hub.subscribe();
    let mut fast_seen = Vec::new();
    for f in frames {
        hub.publish(f);
        fast_seen.push(payload_index(&expect_ready(fast.next(&hub)), &payloads));
    }
    assert_eq!(fast_seen, vec![0, 1, 2, 3]);
    // the slow reader has consumed nothing; closing the hub ends neither
    // reader before it drains what is buffered
    hub.close(StreamEnd::Eof);
    assert!(matches!(fast.next(&hub), PollOutcome::Ended(StreamEnd::Eof)));
    let mut slow_seen = Vec::new();
    loop {
        match slow.next(&hub) {
            PollOutcome::Ready(f) => slow_seen.push(payload_index(&f, &payloads)),
            PollOutcome::Ended(e) => {
                assert_eq!(e, StreamEnd::Eof);
                break;
            }
            PollOutcome::Pending => panic!("closed hub must not report pending"),
        }
    }
    // the slow reader still observed every retained frame, in order
    assert_eq!(slow_seen, vec![0, 1, 2, 3]);
}

#[test]
fn closed_hub_drains_then_reports_cause() {
    let payloads: [&[u8]; 2] = [b"drain-a", b"drain-b"];
    let mut hub = Hub::new(4);
    let mut sub = hub.subscribe();
    for f in mint(&payloads) {
        hub.publish(f);
    }
    hub.close(StreamEnd::Dead);
    assert!(!hub.is_open());
    assert_eq!(hub.end_reason(), Some(StreamEnd::Dead));
    assert_eq!(payload_index(&expect_ready(sub.next(&hub)), &payloads), 0);
    assert_eq!(payload_index(&expect_ready(sub.next(&hub)), &payloads), 1);
    assert!(matches!(sub.next(&hub), PollOutcome::Ended(StreamEnd::Dead)));
}
