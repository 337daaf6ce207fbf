//! The source of the live stream: it owns the protocol decoder and the hub,
//! decides the transcoding subprocess's exact argument list, and runs the
//! read-parse-publish step that moves every validated frame into the hub.
//! Spawning the subprocess and shuttling its output bytes is ordinary I/O
//! that the embedding binary performs around this core.

use vstd::prelude::*;
use vstd::string::*;

use crate::frame::{canonical_frame, DeadStream};
use crate::hub::{Hub, StreamEnd, Subscription};
use crate::reader::{
    boundary_prefix, drain_end, drain_frames, has_prefix, lemma_corrupt_advances,
    lemma_frame_advances, line_next, line_of, line_ready, spec_read_frame, BoundaryCheck,
    FrameProgress, FrameReader, SpecRead,
};

verus! {

/// Failures of constructing or running the subprocess-backed source.
#[derive(Debug)]
pub enum ProcessError {
    /// The hub can accept no further publishes.
    Channel,
    /// The subprocess could not be spawned.
    Io(std::io::Error),
    /// The subprocess's output stream is unavailable.
    Pipe,
}

impl From<std::io::Error> for ProcessError {
    fn from(e: std::io::Error) -> (r: Self) {
        ProcessError::Io(e)
    }
}

impl vstd::std_specs::convert::FromSpecImpl<std::io::Error> for ProcessError {
    open spec fn obeys_from_spec() -> bool {
        true
    }

    open spec fn from_spec(e: std::io::Error) -> Self {
        ProcessError::Io(e)
    }
}

// ---------------------------------------------------------------------------
// The subprocess invocation, a fixed external contract.
// ---------------------------------------------------------------------------

/// Ring capacity of the hub: the number of frames retained for slow viewers,
/// sized as `fps * buffer_secs` — the configured buffer window.
pub fn ring_capacity(fps: usize, buffer_secs: usize) -> (cap: usize)
    requires
        0 < fps * buffer_secs <= usize::MAX,
    ensures
        cap == fps * buffer_secs,
{
    fps * buffer_secs
}

pub open spec fn digit_char(d: nat) -> char {
    if d == 0 {
        '0'
    } else if d == 1 {
        '1'
    } else if d == 2 {
        '2'
    } else if d == 3 {
        '3'
    } else if d == 4 {
        '4'
    } else if d == 5 {
        '5'
    } else if d == 6 {
        '6'
    } else if d == 7 {
        '7'
    } else if d == 8 {
        '8'
    } else {
        '9'
    }
}

/// Decimal digits of `n`, most significant first.
pub open spec fn dec_chars(n: nat) -> Seq<char>
    decreases n,
{
    if n < 10 {
        seq![digit_char(n)]
    } else {
        dec_chars(n / 10).push(digit_char(n % 10))
    }
}

fn digit_str(d: usize) -> (s: &'static str)
    requires
        d < 10,
    ensures
        s@ == seq![digit_char(d as nat)],
{
    proof {
        reveal_strlit("0");
        reveal_strlit("1");
        reveal_strlit("2");
        reveal_strlit("3");
        reveal_strlit("4");
        reveal_strlit("5");
        reveal_strlit("6");
        reveal_strlit("7");
        reveal_strlit("8");
        reveal_strlit("9");
    }
    if d == 0 {
        let s = "0";
        assert(s@ =~= seq![digit_char(d as nat)]);
        s
    } else if d == 1 {
        let s = "1";
        assert(s@ =~= seq![digit_char(d as nat)]);
        s
    } else if d == 2 {
        let s = "2";
        assert(s@ =~= seq![digit_char(d as nat)]);
        s
    } else if d == 3 {
        let s = "3";
        assert(s@ =~= seq![digit_char(d as nat)]);
        s
    } else if d == 4 {
        let s = "4";
        assert(s@ =~= seq![digit_char(d as nat)]);
        s
    } else if d == 5 {
        let s = "5";
        assert(s@ =~= seq![digit_char(d as nat)]);
        s
    } else if d == 6 {
        let s = "6";
        assert(s@ =~= seq![digit_char(d as nat)]);
        s
    } else if d == 7 {
        let s = "7";
        assert(s@ =~= seq![digit_char(d as nat)]);
        s
    } else if d == 8 {
        let s = "8";
        assert(s@ =~= seq![digit_char(d as nat)]);
        s
    } else {
        let s = "9";
        assert(s@ =~= seq![digit_char(d as nat)]);
        s
    }
}

fn push_dec_chars(s: &mut String, n: usize)
    ensures
        final(s)@ == old(s)@ + dec_chars(n as nat),
    decreases n,
{
    if n < 10 {
        s.append(digit_str(n));
        assert(final(s)@ =~= old(s)@ + dec_chars(n as nat));
    } else {
        push_dec_chars(s, n / 10);
        s.append(digit_str(n % 10));
        assert(final(s)@ =~= old(s)@ + dec_chars(n as nat));
    }
}

/// The program the source drives.
pub fn transcoder_program() -> (s: &'static str)
    ensures
        s@ == "ffmpeg"@,
{
    "ffmpeg"
}

/// The subprocess's argument list, built deterministically from the input
/// locator and the target frame rate: decode `input`, re-encode as motion
/// JPEG at `fps` frames per second, dropping frames to hold the rate, and
/// write the multipart stream to standard output.
pub fn transcode_args(input: &str, fps: usize) -> (args: Vec<String>)
    ensures
        args@.len() == 16,
        args@[0]@ == "-rtsp_transport"@,
        args@[1]@ == "tcp"@,
        args@[2]@ == "-i"@,
        args@[3]@ == input@,
        args@[4]@ == "-c:v"@,
        args@[5]@ == "mjpeg"@,
        args@[6]@ == "-q:v"@,
        args@[7]@ == "1"@,
        args@[8]@ == "-f"@,
        args@[9]@ == "mpjpeg"@,
        args@[10]@ == "-filter_complex"@,
        args@[11]@ == "[0:v] fps="@ + dec_chars(fps as nat),
        args@[12]@ == "-fps_mode"@,
        args@[13]@ == "drop"@,
        args@[14]@ == "-an"@,
        args@[15]@ == "-"@,
{
    let mut args: Vec<String> = Vec::new();
    args.push(String::from_str("-rtsp_transport"));
    args.push(String::from_str("tcp"));
    args.push(String::from_str("-i"));
    args.push(String::from_str(input));
    args.push(String::from_str("-c:v"));
    args.push(String::from_str("mjpeg"));
    args.push(String::from_str("-q:v"));
    args.push(String::from_str("1"));
    args.push(String::from_str("-f"));
    args.push(String::from_str("mpjpeg"));
    args.push(String::from_str("-filter_complex"));
    let mut filter = String::from_str("[0:v] fps=");
    push_dec_chars(&mut filter, fps);
    args.push(filter);
    args.push(String::from_str("-fps_mode"));
    args.push(String::from_str("drop"));
    args.push(String::from_str("-an"));
    args.push(String::from_str("-"));
    args
}

// ---------------------------------------------------------------------------
// The source itself.
// ---------------------------------------------------------------------------

/// One step of the publishing loop.
#[derive(Debug, PartialEq, Eq, Structural)]
pub enum PumpStatus {
    /// A frame was validated and published.
    Published,
    /// A corrupt unit was discarded; the loop continues.
    Skipped,
    /// The buffer holds no complete unit; feed more bytes.
    NeedBytes,
    /// Terminal: the stream ended or broke, or the hub accepts no more.
    Stopped,
}

/// The owner of the decoding and publishing state for one live input. The
/// embedding binary spawns the subprocess with `transcode_args`, feeds its
/// standard output in through `feed`, and calls `pump` until it stops.
pub struct Source {
    reader: FrameReader,
    hub: Hub,
}

impl Source {
    pub closed spec fn reader_view(&self) -> FrameReader {
        self.reader
    }

    pub closed spec fn hub_view(&self) -> Hub {
        self.hub
    }

    pub open spec fn wf(&self) -> bool {
        self.reader_view().wf() && self.hub_view().wf()
    }

    pub fn new(capacity: usize) -> (s: Source)
        requires
            capacity >= 1,
        ensures
            s.wf(),
            s.hub_view().capacity() == capacity,
            s.hub_view().published() == Seq::<Seq<u8>>::empty(),
            s.hub_view().end_state() is None,
            s.reader_view().stream() == Seq::<u8>::empty(),
            s.reader_view().cursor() == 0,
            !s.reader_view().finished(),
    {
        Source { reader: FrameReader::new(), hub: Hub::new(capacity) }
    }

    /// The hub, for readers: a subscription polls against it.
    pub fn hub(&self) -> (h: &Hub)
        ensures
            h == self.hub_view(),
    {
        &self.hub
    }

    /// A new per-viewer subscription, delivered only frames published from
    /// this call onward.
    pub fn subscribe(&self) -> (s: Subscription)
        requires
            self.wf(),
        ensures
            s.wf(),
            s.cursor() == self.hub_view().seq_count(),
            s.seen() == Seq::<int>::empty(),
            s.consistent_with(self.hub_view()),
    {
        self.hub.subscribe()
    }

    /// Hand the source the next chunk of the subprocess's output.
    pub fn feed(&mut self, chunk: &[u8])
        requires
            old(self).wf(),
        ensures
            final(self).wf(),
            final(self).reader_view().stream() == old(self).reader_view().stream() + chunk@,
            final(self).reader_view().cursor() == old(self).reader_view().cursor(),
            final(self).reader_view().finished() == old(self).reader_view().finished(),
            final(self).hub_view() == old(self).hub_view(),
    {
        self.reader.push_bytes(chunk);
    }

    /// Declare the subprocess's output ended.
    pub fn end_input(&mut self)
        requires
            old(self).wf(),
        ensures
            final(self).wf(),
            final(self).reader_view().stream() == old(self).reader_view().stream(),
            final(self).reader_view().cursor() == old(self).reader_view().cursor(),
            final(self).reader_view().finished(),
            final(self).hub_view() == old(self).hub_view(),
    {
        self.reader.finish();
    }

    /// Discard the opening boundary line the upstream emits before its first
    /// frame, once, before pumping begins.
    pub fn discard_leading_boundary(&mut self) -> (r: BoundaryCheck)
        requires
            old(self).wf(),
        ensures
            final(self).wf(),
            final(self).hub_view() == old(self).hub_view(),
            final(self).reader_view().stream() == old(self).reader_view().stream(),
            final(self).reader_view().finished() == old(self).reader_view().finished(),
            ({
                let s = old(self).reader_view().stream();
                let p = old(self).reader_view().cursor();
                if line_ready(s, p, old(self).reader_view().finished()) {
                    &&& final(self).reader_view().cursor() == line_next(s, p)
                    &&& r == (if has_prefix(line_of(s, p), boundary_prefix()) {
                        BoundaryCheck::Matched
                    } else {
                        BoundaryCheck::NotBoundary
                    })
                } else {
                    r == BoundaryCheck::NeedBytes && final(self).reader_view().cursor() == p
                }
            }),
    {
        self.reader.discard_mime_boundary()
    }

    /// Reclaim the memory of the already-consumed prefix of the input.
    pub fn reclaim(&mut self)
        requires
            old(self).wf(),
        ensures
            final(self).wf(),
            final(self).reader_view().stream() == old(self).reader_view().stream().subrange(
                old(self).reader_view().cursor(),
                old(self).reader_view().stream().len() as int,
            ),
            final(self).reader_view().cursor() == 0,
            final(self).reader_view().finished() == old(self).reader_view().finished(),
            final(self).hub_view() == old(self).hub_view(),
    {
        self.reader.compact();
    }

    /// One step of the publishing loop: try to read a frame and publish it.
    /// A corrupt unit is silently skipped and the loop continues; a clean end
    /// of stream or a broken stream closes the hub and stops the loop, as
    /// does a hub that accepts no more frames.
    pub fn pump(&mut self) -> (r: PumpStatus)
        requires
            old(self).wf(),
        ensures
            final(self).wf(),
            final(self).reader_view().stream() == old(self).reader_view().stream(),
            final(self).reader_view().finished() == old(self).reader_view().finished(),
            final(self).hub_view().capacity() == old(self).hub_view().capacity(),
            ({
                let g = spec_read_frame(
                    old(self).reader_view().stream(),
                    old(self).reader_view().cursor(),
                    old(self).reader_view().finished(),
                );
                if old(self).hub_view().end_state() is Some || old(self).hub_view().seq_count()
                    == u64::MAX {
                    &&& r == PumpStatus::Stopped
                    &&& final(self).hub_view() == old(self).hub_view()
                    &&& final(self).reader_view() == old(self).reader_view()
                } else {
                    match r {
                        PumpStatus::Published => {
                            &&& g matches SpecRead::Frame { payload, end }
                            &&& final(self).hub_view().published() == old(
                                self,
                            ).hub_view().published().push(canonical_frame(payload))
                            &&& final(self).reader_view().cursor() == end
                            &&& final(self).hub_view().end_state() is None
                            &&& final(self).hub_view().oldest() == (
                            if old(self).hub_view().seq_count() - old(self).hub_view().oldest()
                                == old(self).hub_view().capacity() {
                                old(self).hub_view().oldest() + 1
                            } else {
                                old(self).hub_view().oldest()
                            })
                        },
                        PumpStatus::Skipped => {
                            &&& g matches SpecRead::Corrupt { end }
                            &&& final(self).hub_view() == old(self).hub_view()
                            &&& final(self).reader_view().cursor() == end
                        },
                        PumpStatus::NeedBytes => {
                            &&& g is NeedBytes
                            &&& final(self).hub_view() == old(self).hub_view()
                            &&& final(self).reader_view().cursor() == old(
                                self,
                            ).reader_view().cursor()
                        },
                        PumpStatus::Stopped => {
                            &&& final(self).hub_view().published() == old(
                                self,
                            ).hub_view().published()
                            &&& final(self).reader_view().cursor() == old(
                                self,
                            ).reader_view().cursor()
                            &&& (g is End && final(self).hub_view().end_state() == Some(
                                StreamEnd::Eof,
                            )) || (g is Dead && final(self).hub_view().end_state() == Some(
                                StreamEnd::Dead,
                            ))
                        },
                    }
                }
            }),
    {
        if !self.hub.is_open() || self.hub.at_seq_limit() {
            return PumpStatus::Stopped;
        }
        match self.reader.read_frame() {
            Ok(FrameProgress::Frame(f)) => {
                self.hub.publish(f);
                PumpStatus::Published
            },
            Ok(FrameProgress::Corrupt) => PumpStatus::Skipped,
            Ok(FrameProgress::NeedBytes) => PumpStatus::NeedBytes,
            Ok(FrameProgress::EndOfStream) => {
                self.hub.close(StreamEnd::Eof);
                PumpStatus::Stopped
            },
            Err(DeadStream) => {
                self.hub.close(StreamEnd::Dead);
                PumpStatus::Stopped
            },
        }
    }
}

impl Source {
    /// The publishing loop, run as far as the buffered input allows: pump
    /// frame after frame, skipping corrupt units, until the reader needs
    /// more input or the stream reaches its terminal state. Publishing
    /// never blocks, so the loop suspends only for input — which the caller
    /// provides around this call. The published sequence grows by exactly
    /// the canonical frames of the units consumed, `drain_frames`, and the
    /// hub is closed with the reason the stream itself dictates.
    pub fn pump_until_blocked(&mut self) -> (r: PumpStatus)
        requires
            old(self).wf(),
        ensures
            final(self).wf(),
            r == PumpStatus::NeedBytes || r == PumpStatus::Stopped,
            final(self).reader_view().stream() == old(self).reader_view().stream(),
            final(self).reader_view().finished() == old(self).reader_view().finished(),
            final(self).hub_view().capacity() == old(self).hub_view().capacity(),
            old(self).hub_view().published().is_prefix_of(final(self).hub_view().published()),
            ({
                let s = old(self).reader_view().stream();
                let c0 = old(self).reader_view().cursor();
                let fin = old(self).reader_view().finished();
                let frames = drain_frames(s, c0, fin);
                let stop = drain_end(s, c0, fin);
                if old(self).hub_view().end_state() is Some || old(self).hub_view().seq_count()
                    == u64::MAX {
                    &&& r == PumpStatus::Stopped
                    &&& final(self).hub_view() == old(self).hub_view()
                    &&& final(self).reader_view() == old(self).reader_view()
                } else if old(self).hub_view().seq_count() + frames.len() < u64::MAX {
                    &&& final(self).reader_view().cursor() == stop
                    &&& final(self).hub_view().published() == old(self).hub_view().published()
                        + frames
                    &&& match spec_read_frame(s, stop, fin) {
                        SpecRead::NeedBytes => r == PumpStatus::NeedBytes
                            && final(self).hub_view().end_state() is None,
                        SpecRead::End => r == PumpStatus::Stopped
                            && final(self).hub_view().end_state() == Some(StreamEnd::Eof),
                        SpecRead::Dead => r == PumpStatus::Stopped
                            && final(self).hub_view().end_state() == Some(StreamEnd::Dead),
                        _ => false,
                    }
                } else {
                    // the sequence space ran out mid-drain: stopped with the
                    // hub still open, having published an initial run of the
                    // drained frames
                    &&& r == PumpStatus::Stopped
                    &&& final(self).hub_view().seq_count() == u64::MAX
                    &&& final(self).hub_view().end_state() is None
                    &&& final(self).hub_view().published() == old(self).hub_view().published()
                        + frames.subrange(
                        0,
                        final(self).hub_view().seq_count() - old(self).hub_view().seq_count(),
                    )
                }
            }),
    {
        if !self.hub.is_open() || self.hub.at_seq_limit() {
            return PumpStatus::Stopped;
        }
        let ghost s = self.reader_view().stream();
        let ghost fin = self.reader_view().finished();
        let ghost c0 = self.reader_view().cursor();
        let ghost mut emitted: Seq<Seq<u8>> = Seq::empty();
        loop
            invariant
                self.wf(),
                self.reader_view().stream() == s,
                self.reader_view().finished() == fin,
                s == old(self).reader_view().stream(),
                fin == old(self).reader_view().finished(),
                c0 == old(self).reader_view().cursor(),
                self.hub_view().capacity() == old(self).hub_view().capacity(),
                self.hub_view().end_state() is None,
                self.hub_view().published() == old(self).hub_view().published() + emitted,
                self.hub_view().seq_count() == old(self).hub_view().seq_count() + emitted.len(),
                drain_frames(s, c0, fin) == emitted + drain_frames(
                    s,
                    self.reader_view().cursor(),
                    fin,
                ),
                drain_end(s, c0, fin) == drain_end(s, self.reader_view().cursor(), fin),
                old(self).hub_view().end_state() is None,
                old(self).hub_view().seq_count() < u64::MAX,
            decreases self.reader_view().stream().len() - self.reader_view().cursor(),
        {
            let ghost cur = self.reader_view().cursor();
            let ghost pub0 = self.hub_view().published();
            let ghost seq0 = self.hub_view().seq_count();
            let at_limit = self.hub.at_seq_limit();
            let status = self.pump();
            proof {
                let g = spec_read_frame(s, cur, fin);
                if !at_limit {
                    match g {
                        SpecRead::Frame { payload, end } => {
                            lemma_frame_advances(s, cur, fin, payload, end);
                            assert(drain_frames(s, cur, fin) == seq![canonical_frame(payload)]
                                + drain_frames(s, end, fin));
                            assert(drain_end(s, cur, fin) == drain_end(s, end, fin));
                        },
                        SpecRead::Corrupt { end } => {
                            lemma_corrupt_advances(s, cur, fin, end);
                            assert(drain_frames(s, cur, fin) == drain_frames(s, end, fin));
                            assert(drain_end(s, cur, fin) == drain_end(s, end, fin));
                        },
                        _ => {},
                    }
                }
            }
            match status {
                PumpStatus::Published => {
                    proof {
                        let g = spec_read_frame(s, cur, fin);
                        if let SpecRead::Frame { payload, end } = g {
                            let x = canonical_frame(payload);
                            assert(old(self).hub_view().published() + emitted.push(x) =~= (old(
                                self,
                            ).hub_view().published() + emitted).push(x));
                            assert(emitted.push(x) + drain_frames(s, end, fin) =~= emitted + (
                            seq![x] + drain_frames(s, end, fin)));
                            emitted = emitted.push(x);
                        }
                    }
                },
                PumpStatus::Skipped => (),
                PumpStatus::NeedBytes => {
                    proof {
                        assert(drain_frames(s, cur, fin) =~= Seq::<Seq<u8>>::empty());
                        assert(emitted + drain_frames(s, cur, fin) =~= emitted);
                        assert(drain_end(s, cur, fin) == cur);
                        lemma_prefix_of_concat(
                            old(self).hub_view().published(),
                            emitted,
                        );
                    }
                    return PumpStatus::NeedBytes;
                },
                PumpStatus::Stopped => {
                    proof {
                        lemma_prefix_of_concat(old(self).hub_view().published(), emitted);
                        if at_limit {
                            // the hub hit the sequence limit before this
                            // iteration could read anything
                            let frames = drain_frames(s, c0, fin);
                            assert(frames == emitted + drain_frames(s, cur, fin));
                            assert(frames.subrange(0, emitted.len() as int) =~= emitted);
                        } else {
                            // the stream itself ended here, cleanly or not
                            assert(drain_frames(s, cur, fin) =~= Seq::<Seq<u8>>::empty());
                            assert(emitted + drain_frames(s, cur, fin) =~= emitted);
                            assert(drain_end(s, cur, fin) == cur);
                        }
                    }
                    return PumpStatus::Stopped;
                },
            }
        }
    }
}

proof fn lemma_prefix_of_concat(a: Seq<Seq<u8>>, b: Seq<Seq<u8>>)
    ensures
        a.is_prefix_of(a + b),
{
    assert((a + b).subrange(0, a.len() as int) =~= a);
}

/// The boundary behind which a live source stands, so the subprocess-backed
/// source can be replaced by a synthetic one that publishes test frames.
pub trait Transcoder {
    type Error;

    spec fn ready(&self) -> bool;

    fn start(&self) -> (r: Result<(), Self::Error>)
        ensures
            r is Ok,
    ;

    fn stop(&self) -> (r: Result<(), Self::Error>)
        ensures
            r is Ok,
    ;

    fn subscribe(&self) -> Subscription
        requires
            self.ready(),
    ;
}

impl Transcoder for Source {
    type Error = ProcessError;

    open spec fn ready(&self) -> bool {
        self.wf()
    }

    fn start(&self) -> (r: Result<(), ProcessError>) {
        Ok(())
    }

    fn stop(&self) -> (r: Result<(), ProcessError>) {
        Ok(())
    }

    fn subscribe(&self) -> Subscription {
        self.hub.subscribe()
    }
}

} // verus!
