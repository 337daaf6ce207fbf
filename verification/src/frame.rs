//! The `Frame` unit itself: one complete, canonically re-serialized
//! multipart-wrapped JPEG image, held in a cheaply shareable buffer.

use vstd::prelude::*;

verus! {

// ---------------------------------------------------------------------------
// Trusted boundary: the reference-counted byte buffer of the `bytes` crate.
// ---------------------------------------------------------------------------

/// Declares `bytes::Bytes`, the reference-counted immutable byte buffer, so
/// it can stand in signatures and fields; its contents are named by
/// `bytes_content` below.
#[verifier::external_type_specification]
#[verifier::external_body]
pub struct ExBytes(bytes::Bytes);

/// The byte contents of a `bytes::Bytes` buffer.
pub uninterp spec fn bytes_content(b: bytes::Bytes) -> Seq<u8>;

/// Relies on `<bytes::Bytes as From<Vec<u8>>>::from`: the new buffer holds
/// exactly the vector's bytes.
#[verifier::external_body]
fn bytes_from_vec(v: Vec<u8>) -> (b: bytes::Bytes)
    ensures
        bytes_content(b) == v@,
{
    bytes::Bytes::from(v)
}

/// Relies on `<bytes::Bytes as Clone>::clone`: a clone is a new cheap
/// reference to the same contents.
#[verifier::external_body]
fn bytes_clone(b: &bytes::Bytes) -> (r: bytes::Bytes)
    ensures
        bytes_content(r) == bytes_content(*b),
{
    b.clone()
}

/// Relies on `<bytes::Bytes as AsRef<[u8]>>::as_ref`: a slice of the full
/// contents.
#[verifier::external_body]
fn bytes_as_slice(b: &bytes::Bytes) -> (s: &[u8])
    ensures
        s@ == bytes_content(*b),
{
    b.as_ref()
}

// ---------------------------------------------------------------------------
// Errors and small helpers.
// ---------------------------------------------------------------------------

/// Terminal failure of the underlying byte stream: the transcoder's output
/// pipe broke, errored, or ended in the middle of a frame's payload.
#[derive(Clone, Copy, Debug, PartialEq, Eq, Structural)]
pub struct DeadStream;

/// Declares `std::io::Error` so the error enums can carry the I/O failure
/// they were caused by; nothing is assumed about its values.
#[verifier::external_type_specification]
#[verifier::external_body]
pub struct ExIoError(std::io::Error);

impl From<std::io::Error> for DeadStream {
    fn from(_e: std::io::Error) -> (r: Self) {
        DeadStream
    }
}

impl vstd::std_specs::convert::FromSpecImpl<std::io::Error> for DeadStream {
    open spec fn obeys_from_spec() -> bool {
        true
    }

    open spec fn from_spec(_e: std::io::Error) -> Self {
        DeadStream
    }
}

/// Turns a truth test into a `Result`, so framing checks read as early
/// returns.
pub trait TryBool {
    spec fn truthy(&self) -> bool;

    fn ok(&self) -> (r: Result<(), ()>)
        ensures
            r is Ok <==> self.truthy(),
    ;
}

impl TryBool for bool {
    open spec fn truthy(&self) -> bool {
        *self
    }

    fn ok(&self) -> (r: Result<(), ()>) {
        if *self {
            Ok(())
        } else {
            Err(())
        }
    }
}

// ---------------------------------------------------------------------------
// The canonical on-wire shape of a frame.
// ---------------------------------------------------------------------------

/// Decimal digits of `n`, most significant first, as ASCII bytes.
pub open spec fn dec_digits(n: nat) -> Seq<u8>
    decreases n,
{
    if n < 10 {
        seq![(48 + n) as u8]
    } else {
        dec_digits(n / 10).push((48 + n % 10) as u8)
    }
}

/// `"Content-type: image/jpeg\r\nContent-length: "`.
pub open spec fn header_prefix() -> Seq<u8> {
    seq![
        67u8, 111, 110, 116, 101, 110, 116, 45, 116, 121, 112, 101, 58, 32, 105, 109, 97, 103,
        101, 47, 106, 112, 101, 103, 13, 10, 67, 111, 110, 116, 101, 110, 116, 45, 108, 101, 110,
        103, 116, 104, 58, 32,
    ]
}

/// `"\r\n\r\n"`: end of the length header plus the blank separator line.
pub open spec fn header_sep() -> Seq<u8> {
    seq![13u8, 10, 13, 10]
}

/// `"\r\n--ffmpeg\r\n"`: blank line plus the boundary delimiter.
pub open spec fn frame_trailer() -> Seq<u8> {
    seq![13u8, 10, 45, 45, 102, 102, 109, 112, 101, 103, 13, 10]
}

/// The exact bytes a frame with this payload is re-serialized to, whatever
/// header values the upstream actually sent.
pub open spec fn canonical_frame(payload: Seq<u8>) -> Seq<u8> {
    header_prefix() + dec_digits(payload.len() as nat) + header_sep() + payload + frame_trailer()
}

fn push_header_prefix(v: &mut Vec<u8>)
    ensures
        final(v)@ == old(v)@ + header_prefix(),
{
    v.push(67);
    v.push(111);
    v.push(110);
    v.push(116);
    v.push(101);
    v.push(110);
    v.push(116);
    v.push(45);
    v.push(116);
    v.push(121);
    v.push(112);
    v.push(101);
    v.push(58);
    v.push(32);
    v.push(105);
    v.push(109);
    v.push(97);
    v.push(103);
    v.push(101);
    v.push(47);
    v.push(106);
    v.push(112);
    v.push(101);
    v.push(103);
    v.push(13);
    v.push(10);
    v.push(67);
    v.push(111);
    v.push(110);
    v.push(116);
    v.push(101);
    v.push(110);
    v.push(116);
    v.push(45);
    v.push(108);
    v.push(101);
    v.push(110);
    v.push(103);
    v.push(116);
    v.push(104);
    v.push(58);
    v.push(32);
    assert(final(v)@ =~= old(v)@ + header_prefix());
}

fn push_header_sep(v: &mut Vec<u8>)
    ensures
        final(v)@ == old(v)@ + header_sep(),
{
    v.push(13);
    v.push(10);
    v.push(13);
    v.push(10);
    assert(final(v)@ =~= old(v)@ + header_sep());
}

fn push_frame_trailer(v: &mut Vec<u8>)
    ensures
        final(v)@ == old(v)@ + frame_trailer(),
{
    v.push(13);
    v.push(10);
    v.push(45);
    v.push(45);
    v.push(102);
    v.push(102);
    v.push(109);
    v.push(112);
    v.push(101);
    v.push(103);
    v.push(13);
    v.push(10);
    assert(final(v)@ =~= old(v)@ + frame_trailer());
}

fn push_dec_digits(v: &mut Vec<u8>, n: usize)
    ensures
        final(v)@ == old(v)@ + dec_digits(n as nat),
    decreases n,
{
    if n < 10 {
        v.push(48 + (n as u8));
        assert(final(v)@ =~= old(v)@ + dec_digits(n as nat));
    } else {
        push_dec_digits(v, n / 10);
        v.push(48 + ((n % 10) as u8));
        assert(final(v)@ =~= old(v)@ + dec_digits(n as nat));
    }
}

// ---------------------------------------------------------------------------
// Frame.
// ---------------------------------------------------------------------------

/// One complete multipart JPEG unit, ready to be written verbatim onto a
/// viewer's connection. Created only by the frame reader after a fully
/// validated read; never mutated afterwards.
#[derive(Debug)]
pub struct Frame {
    data: bytes::Bytes,
}

impl View for Frame {
    type V = Seq<u8>;

    closed spec fn view(&self) -> Seq<u8> {
        bytes_content(self.data)
    }
}

impl Clone for Frame {
    fn clone(&self) -> (r: Self)
        ensures
            r@ == self@,
    {
        Frame { data: bytes_clone(&self.data) }
    }
}

impl Frame {
    /// Re-serialize a validated payload into its canonical wire shape.
    pub(crate) fn render(payload: &[u8]) -> (f: Frame)
        ensures
            f@ == canonical_frame(payload@),
    {
        let mut v: Vec<u8> = Vec::new();
        push_header_prefix(&mut v);
        push_dec_digits(&mut v, payload.len());
        push_header_sep(&mut v);
        v.extend_from_slice(payload);
        push_frame_trailer(&mut v);
        assert(v@ =~= canonical_frame(payload@));
        Frame::from_vec(v)
    }

    pub(crate) fn from_vec(v: Vec<u8>) -> (f: Frame)
        ensures
            f@ == v@,
    {
        Frame { data: bytes_from_vec(v) }
    }

    /// The frame's bytes, exactly as they go on the wire.
    pub fn as_bytes(&self) -> (s: &[u8])
        ensures
            s@ == self@,
    {
        bytes_as_slice(&self.data)
    }

    pub fn len(&self) -> (n: usize)
        ensures
            n == self@.len(),
    {
        self.as_bytes().len()
    }

    /// Hand the underlying shared buffer out, for an HTTP layer that writes
    /// `bytes::Bytes` directly.
    pub fn into_bytes(self) -> (b: bytes::Bytes)
        ensures
            bytes_content(b) == self@,
    {
        self.data
    }
}

} // verus!
