//! The frame-reconstruction protocol parser: a stateful decoder that turns an
//! ordered, fallible byte stream into a sequence of canonical `Frame`s,
//! silently skipping individual malformed units and failing fatally only when
//! the stream itself breaks.

use vstd::prelude::*;

use crate::frame::{canonical_frame, DeadStream, Frame};

verus! {

// ---------------------------------------------------------------------------
// Line structure of the incoming stream.
// ---------------------------------------------------------------------------

/// Index of the first line feed at or after `pos`, or `s.len()` if none.
pub open spec fn find_lf(s: Seq<u8>, pos: int) -> int
    decreases s.len() - pos,
{
    if pos < 0 {
        0
    } else if pos >= s.len() {
        s.len() as int
    } else if s[pos] == 10 {
        pos
    } else {
        find_lf(s, pos + 1)
    }
}

proof fn lemma_find_lf(s: Seq<u8>, pos: int)
    requires
        0 <= pos <= s.len(),
    ensures
        pos <= find_lf(s, pos) <= s.len(),
        forall|i: int| pos <= i < find_lf(s, pos) ==> s[i] != 10,
        find_lf(s, pos) < s.len() ==> s[find_lf(s, pos)] == 10,
    decreases s.len() - pos,
{
    if pos < s.len() && s[pos] != 10 {
        lemma_find_lf(s, pos + 1);
    }
}

/// The first line feed at or after `pos` is exactly `k`.
proof fn lemma_find_lf_at(s: Seq<u8>, pos: int, k: int)
    requires
        0 <= pos <= k < s.len(),
        s[k] == 10,
        forall|i: int| pos <= i < k ==> s[i] != 10,
    ensures
        find_lf(s, pos) == k,
    decreases k - pos,
{
    if pos < k {
        lemma_find_lf_at(s, pos + 1, k);
    }
}

/// No line feed at or after `pos` at all.
proof fn lemma_find_lf_none(s: Seq<u8>, pos: int)
    requires
        0 <= pos <= s.len(),
        forall|i: int| pos <= i < s.len() ==> s[i] != 10,
    ensures
        find_lf(s, pos) == s.len(),
    decreases s.len() - pos,
{
    if pos < s.len() {
        lemma_find_lf_none(s, pos + 1);
    }
}

/// A full line is available: either a line feed is in the buffer, or the
/// stream has ended and the remainder is the final (unterminated) line.
pub open spec fn line_ready(s: Seq<u8>, pos: int, fin: bool) -> bool {
    find_lf(s, pos) < s.len() || fin
}

/// The content of the line starting at `pos`, line feed excluded.
pub open spec fn line_of(s: Seq<u8>, pos: int) -> Seq<u8> {
    s.subrange(pos, find_lf(s, pos))
}

/// The position just past the line starting at `pos`.
pub open spec fn line_next(s: Seq<u8>, pos: int) -> int {
    if find_lf(s, pos) < s.len() {
        find_lf(s, pos) + 1
    } else {
        s.len() as int
    }
}

// ---------------------------------------------------------------------------
// Header-line predicates.
// ---------------------------------------------------------------------------

pub open spec fn has_prefix(line: Seq<u8>, pfx: Seq<u8>) -> bool {
    pfx.len() <= line.len() && line.subrange(0, pfx.len() as int) == pfx
}

/// ASCII whitespace: space, tab, line feed, form feed, carriage return.
pub open spec fn is_ascii_ws(b: u8) -> bool {
    b == 32 || b == 9 || b == 10 || b == 12 || b == 13
}

/// Empty after trimming whitespace.
pub open spec fn is_blank(line: Seq<u8>) -> bool {
    forall|i: int| 0 <= i < line.len() ==> is_ascii_ws(line[i])
}

/// `"Content-type:"`.
pub open spec fn ct_prefix() -> Seq<u8> {
    seq![67u8, 111, 110, 116, 101, 110, 116, 45, 116, 121, 112, 101, 58]
}

/// `"Content-length:"`.
pub open spec fn cl_prefix() -> Seq<u8> {
    seq![67u8, 111, 110, 116, 101, 110, 116, 45, 108, 101, 110, 103, 116, 104, 58]
}

/// `"--ffmpeg"`.
pub open spec fn boundary_prefix() -> Seq<u8> {
    seq![45u8, 45, 102, 102, 109, 112, 101, 103]
}

// ---------------------------------------------------------------------------
// The trailing whitespace-delimited token of a header line, and its numeric
// value.
// ---------------------------------------------------------------------------

/// End of the last token: the line's length with trailing whitespace removed.
pub open spec fn strip_ws_end(line: Seq<u8>) -> int
    decreases line.len(),
{
    if line.len() == 0 {
        0
    } else if is_ascii_ws(line[line.len() - 1]) {
        strip_ws_end(line.drop_last())
    } else {
        line.len() as int
    }
}

/// Start of the run of non-whitespace bytes that ends at `e`.
pub open spec fn token_start(line: Seq<u8>, e: int) -> int
    decreases e,
{
    if e <= 0 {
        0
    } else if is_ascii_ws(line[e - 1]) {
        e
    } else {
        token_start(line, e - 1)
    }
}

/// The last whitespace-delimited token of the line; empty if the line holds
/// only whitespace (i.e. there is no token at all).
pub open spec fn last_token(line: Seq<u8>) -> Seq<u8> {
    line.subrange(token_start(line, strip_ws_end(line)), strip_ws_end(line))
}

pub open spec fn is_digit(b: u8) -> bool {
    48 <= b <= 57
}

pub open spec fn all_digits(t: Seq<u8>) -> bool {
    forall|i: int| 0 <= i < t.len() ==> is_digit(t[i])
}

/// Value of a digit string, most significant digit first.
pub open spec fn digits_val(t: Seq<u8>) -> int
    decreases t.len(),
{
    if t.len() == 0 {
        0
    } else {
        digits_val(t.drop_last()) * 10 + (t.last() - 48)
    }
}

/// The non-negative integer a token denotes, as `usize::from_str` reads it:
/// an optional leading `+`, then at least one decimal digit.
pub open spec fn token_value(t: Seq<u8>) -> Option<int> {
    if t.len() >= 2 && t[0] == 43 && all_digits(t.subrange(1, t.len() as int)) {
        Some(digits_val(t.subrange(1, t.len() as int)))
    } else if t.len() >= 1 && all_digits(t) {
        Some(digits_val(t))
    } else {
        None
    }
}

// ---------------------------------------------------------------------------
// Specification of one pass of the protocol state machine.
// ---------------------------------------------------------------------------

/// What one attempt to read a frame at `pos` yields.
pub enum SpecRead {
    /// A fully validated unit: its payload, and the position just past it.
    Frame { payload: Seq<u8>, end: int },
    /// A malformed unit: discarded, scanning resumes at `end`.
    Corrupt { end: int },
    /// The buffer holds no complete unit yet and the stream is still open.
    NeedBytes,
    /// The stream ended inside a declared payload: the byte stream itself is
    /// broken, not just one frame.
    Dead,
    /// The stream ended cleanly at a unit boundary.
    End,
}

/// The protocol state machine, run once from `pos` over the received bytes
/// `s`; `fin` says whether the stream has ended. States, in order: the
/// `Content-type` header, the `Content-length` header, a blank line, the
/// payload of exactly the declared length, a blank line, the boundary line.
/// Any malformed line marks the unit corrupt; only a payload cut short by
/// the end of the stream is fatal.
pub open spec fn spec_read_frame(s: Seq<u8>, pos: int, fin: bool) -> SpecRead {
    if pos == s.len() && fin {
        SpecRead::End
    } else if !line_ready(s, pos, fin) {
        SpecRead::NeedBytes
    } else {
        let l1 = line_of(s, pos);
        let p1 = line_next(s, pos);
        if !has_prefix(l1, ct_prefix()) {
            SpecRead::Corrupt { end: p1 }
        } else if !line_ready(s, p1, fin) {
            SpecRead::NeedBytes
        } else {
            let l2 = line_of(s, p1);
            let p2 = line_next(s, p1);
            if !has_prefix(l2, cl_prefix()) {
                SpecRead::Corrupt { end: p2 }
            } else {
                match token_value(last_token(l2)) {
                    Option::None => SpecRead::Corrupt { end: p2 },
                    Option::Some(declared) => {
                        if declared > usize::MAX {
                            SpecRead::Corrupt { end: p2 }
                        } else if !line_ready(s, p2, fin) {
                            SpecRead::NeedBytes
                        } else {
                            let l3 = line_of(s, p2);
                            let p3 = line_next(s, p2);
                            if !is_blank(l3) {
                                SpecRead::Corrupt { end: p3 }
                            } else if s.len() - p3 < declared {
                                if fin {
                                    SpecRead::Dead
                                } else {
                                    SpecRead::NeedBytes
                                }
                            } else {
                                let payload = s.subrange(p3, p3 + declared);
                                let p4 = p3 + declared;
                                if !line_ready(s, p4, fin) {
                                    SpecRead::NeedBytes
                                } else {
                                    let l5 = line_of(s, p4);
                                    let p5 = line_next(s, p4);
                                    if !is_blank(l5) {
                                        SpecRead::Corrupt { end: p5 }
                                    } else if !line_ready(s, p5, fin) {
                                        SpecRead::NeedBytes
                                    } else {
                                        let l6 = line_of(s, p5);
                                        let p6 = line_next(s, p5);
                                        if !has_prefix(l6, boundary_prefix()) {
                                            SpecRead::Corrupt { end: p6 }
                                        } else {
                                            SpecRead::Frame { payload, end: p6 }
                                        }
                                    }
                                }
                            }
                        }
                    },
                }
            }
        }
    }
}

// ---------------------------------------------------------------------------
// Executable helpers over byte slices.
// ---------------------------------------------------------------------------

fn is_ws_byte(b: u8) -> (r: bool)
    ensures
        r == is_ascii_ws(b),
{
    b == 32 || b == 9 || b == 10 || b == 12 || b == 13
}

fn slice_has_prefix(s: &[u8], pfx: &[u8]) -> (r: bool)
    ensures
        r == has_prefix(s@, pfx@),
{
    if pfx.len() > s.len() {
        assert(!has_prefix(s@, pfx@));
        return false;
    }
    let mut i: usize = 0;
    while i < pfx.len()
        invariant
            i <= pfx.len(),
            forall|j: int| 0 <= j < i ==> s@[j] == pfx@[j],
        decreases pfx.len() - i,
    {
        if s[i] != pfx[i] {
            assert(s@.subrange(0, pfx@.len() as int)[i as int] != pfx@[i as int]);
            return false;
        }
        i += 1;
    }
    assert(s@.subrange(0, pfx@.len() as int) =~= pfx@);
    true
}

fn slice_is_blank(s: &[u8]) -> (r: bool)
    ensures
        r == is_blank(s@),
{
    let mut i: usize = 0;
    while i < s.len()
        invariant
            i <= s.len(),
            forall|j: int| 0 <= j < i ==> is_ascii_ws(s@[j]),
        decreases s.len() - i,
    {
        let b = s[i];
        if !(b == 32 || b == 9 || b == 10 || b == 12 || b == 13) {
            assert(!is_ascii_ws(s@[i as int]));
            return false;
        }
        i += 1;
    }
    true
}

/// Bounds `(start, end)` of the last whitespace-delimited token of `line`;
/// `start == end` means the line holds no token.
fn last_token_bounds(line: &[u8]) -> (r: (usize, usize))
    ensures
        r.1 == strip_ws_end(line@),
        r.0 == token_start(line@, strip_ws_end(line@)),
        r.0 <= r.1 <= line@.len(),
{
    let mut e: usize = line.len();
    proof {
        assert(line@.subrange(0, line@.len() as int) =~= line@);
    }
    while e > 0 && is_ws_byte(line[e - 1])
        invariant
            e <= line.len(),
            strip_ws_end(line@) == strip_ws_end(line@.subrange(0, e as int)),
        decreases e,
    {
        proof {
            let cur = line@.subrange(0, e as int);
            assert(cur.drop_last() =~= line@.subrange(0, e as int - 1));
        }
        e -= 1;
    }
    proof {
        let cur = line@.subrange(0, e as int);
        if e > 0 {
            assert(cur.len() > 0 && !is_ascii_ws(cur[cur.len() - 1]));
        }
        lemma_strip_ws_end_le(line@);
        lemma_token_start_range(line@, e as int);
    }
    let mut b: usize = e;
    while b > 0 && !is_ws_byte(line[b - 1])
        invariant
            b <= e,
            token_start(line@, e as int) == token_start(line@, b as int),
        decreases b,
    {
        b -= 1;
    }
    (b, e)
}

proof fn lemma_strip_ws_end_le(line: Seq<u8>)
    ensures
        0 <= strip_ws_end(line) <= line.len(),
    decreases line.len(),
{
    if line.len() > 0 && is_ascii_ws(line[line.len() - 1]) {
        lemma_strip_ws_end_le(line.drop_last());
    }
}

proof fn lemma_token_start_range(line: Seq<u8>, e: int)
    ensures
        0 <= token_start(line, e),
        token_start(line, e) <= e || e < 0,
    decreases e,
{
    if e > 0 && !is_ascii_ws(line[e - 1]) {
        lemma_token_start_range(line, e - 1);
    }
}

/// Parse a token as `usize::from_str` would: optional `+`, then decimal
/// digits; overflow or any other shape is rejected.
fn parse_usize_token(tok: &[u8]) -> (r: Option<usize>)
    ensures
        r matches Option::Some(u) ==> token_value(tok@) == Option::Some(u as int),
        r is None ==> (token_value(tok@) is None || token_value(tok@)->Some_0 > usize::MAX),
{
    let start: usize = if tok.len() >= 1 && tok[0] == 43 {
        1
    } else {
        0
    };
    if tok.len() == start {
        assert(token_value(tok@) is None);
        return None;
    }
    let ghost t = tok@.subrange(start as int, tok@.len() as int);
    let mut val: usize = 0;
    let mut i: usize = start;
    while i < tok.len()
        invariant
            start <= i <= tok.len(),
            val == digits_val(t.subrange(0, i - start)),
            forall|j: int| 0 <= j < i - start ==> is_digit(t[j]),
        decreases tok.len() - i,
    {
        let b = tok[i];
        if b < 48 || b > 57 {
            proof {
                assert(!is_digit(t[i - start]));
                assert(!all_digits(t));
                if start == 0 {
                    assert(t =~= tok@);
                } else {
                    if all_digits(tok@) {
                        assert(is_digit(tok@[0]) && tok@[0] == 43);
                        assert(false);
                    }
                }
                assert(token_value(tok@) is None);
            }
            return None;
        }
        let d: usize = (b - 48) as usize;
        let next = match val.checked_mul(10) {
            Some(m) => m.checked_add(d),
            None => None,
        };
        match next {
            Some(nv) => {
                proof {
                    let pre = t.subrange(0, i + 1 - start);
                    assert(pre.drop_last() =~= t.subrange(0, i - start));
                    assert(pre.last() == b);
                }
                val = nv;
                i += 1;
            },
            None => {
                proof {
                    let pre = t.subrange(0, i + 1 - start);
                    assert(pre.drop_last() =~= t.subrange(0, i - start));
                    assert(pre.last() == b);
                    assert(digits_val(pre) > usize::MAX);
                    if token_value(tok@) is Some {
                        if start == 0 {
                            assert(t =~= tok@);
                            assert(all_digits(t));
                        } else {
                            if !all_digits(t) {
                                // the token then had to be all digits, but it
                                // starts with the plus sign
                                assert(all_digits(tok@));
                                assert(is_digit(tok@[0]) && tok@[0] == 43);
                                assert(false);
                            }
                        }
                        lemma_digits_val_mono(t, i + 1 - start);
                        assert(token_value(tok@) == Option::Some(digits_val(t)));
                        assert(digits_val(t) > usize::MAX);
                    }
                }
                return None;
            },
        }
    }
    proof {
        assert(t =~= t.subrange(0, i - start));
        assert(all_digits(t));
        if start == 0 {
            assert(t =~= tok@);
            assert(tok@[0] != 43);
        }
        assert(token_value(tok@) == Option::Some(digits_val(t)));
        assert(digits_val(t) == val as int);
    }
    Some(val)
}

// ---------------------------------------------------------------------------
// The reader.
// ---------------------------------------------------------------------------

fn ct_prefix_bytes() -> (v: Vec<u8>)
    ensures
        v@ == ct_prefix(),
{
    let mut v: Vec<u8> = Vec::new();
    v.push(67);
    v.push(111);
    v.push(110);
    v.push(116);
    v.push(101);
    v.push(110);
    v.push(116);
    v.push(45);
    v.push(116);
    v.push(121);
    v.push(112);
    v.push(101);
    v.push(58);
    assert(v@ =~= ct_prefix());
    v
}

fn cl_prefix_bytes() -> (v: Vec<u8>)
    ensures
        v@ == cl_prefix(),
{
    let mut v: Vec<u8> = Vec::new();
    v.push(67);
    v.push(111);
    v.push(110);
    v.push(116);
    v.push(101);
    v.push(110);
    v.push(116);
    v.push(45);
    v.push(108);
    v.push(101);
    v.push(110);
    v.push(103);
    v.push(116);
    v.push(104);
    v.push(58);
    assert(v@ =~= cl_prefix());
    v
}

fn boundary_prefix_bytes() -> (v: Vec<u8>)
    ensures
        v@ == boundary_prefix(),
{
    let mut v: Vec<u8> = Vec::new();
    v.push(45);
    v.push(45);
    v.push(102);
    v.push(102);
    v.push(109);
    v.push(112);
    v.push(101);
    v.push(103);
    assert(v@ =~= boundary_prefix());
    v
}

/// Progress of one attempt to read a frame.
#[derive(Debug)]
pub enum FrameProgress {
    /// A fully validated unit, re-serialized to its canonical shape.
    Frame(Frame),
    /// A malformed unit was discarded; the reader has resynchronized.
    Corrupt,
    /// The buffer holds no complete unit yet; feed more input.
    NeedBytes,
    /// The stream ended cleanly at a unit boundary.
    EndOfStream,
}

/// Outcome of discarding one expected boundary line.
#[derive(Debug, PartialEq, Eq, Structural)]
pub enum BoundaryCheck {
    /// The line started with the boundary token and was discarded.
    Matched,
    /// A line was discarded, but it was not a boundary.
    NotBoundary,
    /// No full line is buffered yet; feed more input.
    NeedBytes,
}

/// A stateful decoder over the transcoder's output bytes. Input arrives in
/// chunks through `push_bytes`; `read_frame` consumes complete protocol
/// units from the front. The consumed prefix can be reclaimed with
/// `compact`.
pub struct FrameReader {
    buf: Vec<u8>,
    pos: usize,
    done: bool,
}

impl FrameReader {
    /// All bytes received so far (consumed or not).
    pub closed spec fn stream(&self) -> Seq<u8> {
        self.buf@
    }

    /// How far the reader has consumed `stream()`.
    pub closed spec fn cursor(&self) -> int {
        self.pos as int
    }

    /// Whether the input was declared finished.
    pub closed spec fn finished(&self) -> bool {
        self.done
    }

    pub open spec fn wf(&self) -> bool {
        0 <= self.cursor() <= self.stream().len()
    }

    pub fn new() -> (r: FrameReader)
        ensures
            r.wf(),
            r.stream() == Seq::<u8>::empty(),
            r.cursor() == 0,
            !r.finished(),
    {
        FrameReader { buf: Vec::new(), pos: 0, done: false }
    }

    /// Hand the reader the next chunk of the byte stream.
    pub fn push_bytes(&mut self, chunk: &[u8])
        requires
            old(self).wf(),
        ensures
            final(self).wf(),
            final(self).stream() == old(self).stream() + chunk@,
            final(self).cursor() == old(self).cursor(),
            final(self).finished() == old(self).finished(),
    {
        let mut i: usize = 0;
        while i < chunk.len()
            invariant
                i <= chunk.len(),
                self.buf@ == old(self).buf@ + chunk@.subrange(0, i as int),
                self.pos == old(self).pos,
                self.done == old(self).done,
            decreases chunk.len() - i,
        {
            self.buf.push(chunk[i]);
            proof {
                assert(old(self).buf@ + chunk@.subrange(0, i as int + 1) =~= (old(self).buf@
                    + chunk@.subrange(0, i as int)).push(chunk@[i as int]));
            }
            i += 1;
        }
        proof {
            assert(chunk@.subrange(0, chunk@.len() as int) =~= chunk@);
        }
    }

    /// Declare the byte stream ended: no more input will ever arrive.
    pub fn finish(&mut self)
        requires
            old(self).wf(),
        ensures
            final(self).wf(),
            final(self).stream() == old(self).stream(),
            final(self).cursor() == old(self).cursor(),
            final(self).finished(),
    {
        self.done = true;
    }

    /// Drop the consumed prefix of the buffer, so memory stays bounded by
    /// the unconsumed remainder.
    pub fn compact(&mut self)
        requires
            old(self).wf(),
        ensures
            final(self).wf(),
            final(self).stream() == old(self).stream().subrange(
                old(self).cursor(),
                old(self).stream().len() as int,
            ),
            final(self).cursor() == 0,
            final(self).finished() == old(self).finished(),
    {
        let mut rest: Vec<u8> = Vec::new();
        let mut i: usize = self.pos;
        while i < self.buf.len()
            invariant
                self.pos <= i <= self.buf.len(),
                self == old(self),
                rest@ == self.buf@.subrange(self.pos as int, i as int),
            decreases self.buf.len() - i,
        {
            rest.push(self.buf[i]);
            proof {
                assert(self.buf@.subrange(self.pos as int, i as int + 1) =~= self.buf@.subrange(
                    self.pos as int,
                    i as int,
                ).push(self.buf@[i as int]));
            }
            i += 1;
        }
        self.buf = rest;
        self.pos = 0;
    }

    /// Index of the end of the current line: the next line feed, or the end
    /// of the buffer if none is present.
    fn find_line_end(&self) -> (r: usize)
        requires
            self.wf(),
        ensures
            r == find_lf(self.stream(), self.cursor()),
            self.cursor() <= r <= self.stream().len(),
            r < self.stream().len() ==> self.stream()[r as int] == 10,
            forall|i: int| self.cursor() <= i < r ==> self.stream()[i] != 10,
    {
        let mut i: usize = self.pos;
        while i < self.buf.len() && self.buf[i] != 10
            invariant
                self.pos <= i <= self.buf.len(),
                forall|j: int| self.pos <= j < i ==> self.buf@[j] != 10,
            decreases self.buf.len() - i,
        {
            i += 1;
        }
        proof {
            if i < self.buf.len() {
                lemma_find_lf_at(self.buf@, self.pos as int, i as int);
            } else {
                lemma_find_lf_none(self.buf@, self.pos as int);
            }
        }
        i
    }

    /// Take one line off the stream, if one is available: its content with
    /// the line feed excluded, the cursor moved just past it.
    fn take_line(&mut self) -> (r: Option<Vec<u8>>)
        requires
            old(self).wf(),
        ensures
            final(self).wf(),
            final(self).stream() == old(self).stream(),
            final(self).finished() == old(self).finished(),
            ({
                let s = old(self).stream();
                let p = old(self).cursor();
                if line_ready(s, p, old(self).finished()) {
                    &&& r matches Option::Some(l) && l@ == line_of(s, p)
                    &&& final(self).cursor() == line_next(s, p)
                } else {
                    r is None && final(self).cursor() == p
                }
            }),
    {
        let e = self.find_line_end();
        if e < self.buf.len() {
            let mut l: Vec<u8> = Vec::new();
            l.extend_from_slice(&self.buf.as_slice()[self.pos..e]);
            self.pos = e + 1;
            Some(l)
        } else if self.done {
            let mut l: Vec<u8> = Vec::new();
            l.extend_from_slice(&self.buf.as_slice()[self.pos..e]);
            self.pos = e;
            Some(l)
        } else {
            None
        }
    }

    /// Take exactly `count` bytes off the stream, if that many are buffered.
    fn take_bytes(&mut self, count: usize) -> (r: Option<Vec<u8>>)
        requires
            old(self).wf(),
        ensures
            final(self).wf(),
            final(self).stream() == old(self).stream(),
            final(self).finished() == old(self).finished(),
            ({
                let s = old(self).stream();
                let p = old(self).cursor();
                if p + count <= s.len() {
                    &&& r matches Option::Some(b) && b@ == s.subrange(p, p + count)
                    &&& final(self).cursor() == p + count
                } else {
                    r is None && final(self).cursor() == p
                }
            }),
    {
        if count <= self.buf.len() - self.pos {
            let mut b: Vec<u8> = Vec::new();
            let end = self.pos + count;
            b.extend_from_slice(&self.buf.as_slice()[self.pos..end]);
            self.pos = end;
            Some(b)
        } else {
            None
        }
    }

    /// Discard one line that is expected to be a boundary delimiter. The
    /// upstream format precedes the first unit with an opening boundary,
    /// which must be discarded once before frames are read.
    pub fn discard_mime_boundary(&mut self) -> (r: BoundaryCheck)
        requires
            old(self).wf(),
        ensures
            final(self).wf(),
            final(self).stream() == old(self).stream(),
            final(self).finished() == old(self).finished(),
            ({
                let s = old(self).stream();
                let p = old(self).cursor();
                if line_ready(s, p, old(self).finished()) {
                    &&& final(self).cursor() == line_next(s, p)
                    &&& r == (if has_prefix(line_of(s, p), boundary_prefix()) {
                        BoundaryCheck::Matched
                    } else {
                        BoundaryCheck::NotBoundary
                    })
                } else {
                    r == BoundaryCheck::NeedBytes && final(self).cursor() == p
                }
            }),
    {
        match self.take_line() {
            None => BoundaryCheck::NeedBytes,
            Some(l) => {
                let pfx = boundary_prefix_bytes();
                if slice_has_prefix(l.as_slice(), pfx.as_slice()) {
                    BoundaryCheck::Matched
                } else {
                    BoundaryCheck::NotBoundary
                }
            },
        }
    }

    /// Attempt to read one frame, as `spec_read_frame` describes: a valid
    /// unit comes back re-serialized in canonical shape, a malformed unit is
    /// discarded, a payload cut short by the end of the stream is fatal, and
    /// an incomplete unit waits for more input without consuming anything.
    pub fn read_frame(&mut self) -> (r: Result<FrameProgress, DeadStream>)
        requires
            old(self).wf(),
        ensures
            final(self).wf(),
            final(self).stream() == old(self).stream(),
            final(self).finished() == old(self).finished(),
            ({
                let g = spec_read_frame(old(self).stream(), old(self).cursor(), old(self).finished());
                match r {
                    Result::Ok(FrameProgress::Frame(f)) => {
                        &&& g matches SpecRead::Frame { payload, end } && f@ == canonical_frame(
                            payload,
                        ) && final(self).cursor() == end
                    },
                    Result::Ok(FrameProgress::Corrupt) => {
                        &&& g matches SpecRead::Corrupt { end } && final(self).cursor() == end
                    },
                    Result::Ok(FrameProgress::NeedBytes) => g is NeedBytes && final(self).cursor()
                        == old(self).cursor(),
                    Result::Ok(FrameProgress::EndOfStream) => g is End && final(self).cursor()
                        == old(self).cursor(),
                    Result::Err(_) => g is Dead && final(self).cursor() == old(self).cursor(),
                }
            }),
    {
        let start = self.pos;

        if self.pos == self.buf.len() && self.done {
            return Ok(FrameProgress::EndOfStream);
        }

        // the Content-type header, which the upstream emits first
        let l1 = match self.take_line() {
            None => return Ok(FrameProgress::NeedBytes),
            Some(l) => l,
        };
        let ct = ct_prefix_bytes();
        if !slice_has_prefix(l1.as_slice(), ct.as_slice()) {
            return Ok(FrameProgress::Corrupt);
        }

        // the Content-length header
        let l2 = match self.take_line() {
            None => {
                self.pos = start;
                return Ok(FrameProgress::NeedBytes);
            },
            Some(l) => l,
        };
        let cl = cl_prefix_bytes();
        if !slice_has_prefix(l2.as_slice(), cl.as_slice()) {
            return Ok(FrameProgress::Corrupt);
        }

        // its trailing token must be a non-negative integer
        let (tb, te) = last_token_bounds(l2.as_slice());
        let declared = match parse_usize_token(&l2.as_slice()[tb..te]) {
            None => return Ok(FrameProgress::Corrupt),
            Some(d) => d,
        };

        // the blank separator line
        let l3 = match self.take_line() {
            None => {
                self.pos = start;
                return Ok(FrameProgress::NeedBytes);
            },
            Some(l) => l,
        };
        if !slice_is_blank(l3.as_slice()) {
            return Ok(FrameProgress::Corrupt);
        }

        // the payload of exactly the declared length
        let payload = match self.take_bytes(declared) {
            None => {
                self.pos = start;
                if self.done {
                    // short read before stream end: the stream itself broke
                    return Err(DeadStream);
                }
                return Ok(FrameProgress::NeedBytes);
            },
            Some(b) => b,
        };

        // the trailing blank line
        let l5 = match self.take_line() {
            None => {
                self.pos = start;
                return Ok(FrameProgress::NeedBytes);
            },
            Some(l) => l,
        };
        if !slice_is_blank(l5.as_slice()) {
            return Ok(FrameProgress::Corrupt);
        }

        // the closing boundary delimiter
        let l6 = match self.take_line() {
            None => {
                self.pos = start;
                return Ok(FrameProgress::NeedBytes);
            },
            Some(l) => l,
        };
        let bd = boundary_prefix_bytes();
        if !slice_has_prefix(l6.as_slice(), bd.as_slice()) {
            return Ok(FrameProgress::Corrupt);
        }

        // repack the frame into its canonical wire shape
        let f = Frame::render(payload.as_slice());
        Ok(FrameProgress::Frame(f))
    }
}

// ---------------------------------------------------------------------------
// Laws of the parser.
// ---------------------------------------------------------------------------

/// A line's content holds no line feed.
pub open spec fn lf_free(l: Seq<u8>) -> bool {
    forall|i: int| 0 <= i < l.len() ==> l[i] != 10
}

/// The bytes of one protocol unit built from its five lines and its payload,
/// each line terminated by a line feed.
pub open spec fn unit_bytes(
    l1: Seq<u8>,
    l2: Seq<u8>,
    l3: Seq<u8>,
    payload: Seq<u8>,
    l5: Seq<u8>,
    l6: Seq<u8>,
) -> Seq<u8> {
    l1 + seq![10u8] + l2 + seq![10u8] + l3 + seq![10u8] + payload + l5 + seq![10u8] + l6
        + seq![10u8]
}

/// The unit is well-formed: correctly prefixed headers, a declared length
/// that equals the payload's actual length, blank separator lines, and a
/// closing boundary.
pub open spec fn wf_unit_lines(
    l1: Seq<u8>,
    l2: Seq<u8>,
    l3: Seq<u8>,
    payload: Seq<u8>,
    l5: Seq<u8>,
    l6: Seq<u8>,
) -> bool {
    &&& lf_free(l1) && has_prefix(l1, ct_prefix())
    &&& lf_free(l2) && has_prefix(l2, cl_prefix())
    &&& token_value(last_token(l2)) == Option::Some(payload.len() as int)
    &&& payload.len() <= usize::MAX
    &&& lf_free(l3) && is_blank(l3)
    &&& lf_free(l5) && is_blank(l5)
    &&& lf_free(l6) && has_prefix(l6, boundary_prefix())
}

proof fn lemma_line_next_bounds(s: Seq<u8>, p: int)
    requires
        0 <= p <= s.len(),
    ensures
        p <= line_next(s, p) <= s.len(),
        p < s.len() ==> p < line_next(s, p),
        line_of(s, p).len() == find_lf(s, p) - p,
{
    lemma_find_lf(s, p);
}

/// A segment of a concatenation laid down inside `s` at `pos` is found at its
/// offset.
proof fn lemma_segment_at(
    s: Seq<u8>,
    pos: int,
    pre: Seq<u8>,
    seg: Seq<u8>,
    rest: Seq<u8>,
    whole: Seq<u8>,
)
    requires
        whole =~= pre + seg + rest,
        0 <= pos,
        pos + whole.len() <= s.len(),
        s.subrange(pos, pos + whole.len()) == whole,
    ensures
        forall|j: int| 0 <= j < seg.len() ==> s[pos + pre.len() + j] == seg[j],
{
    assert forall|j: int| 0 <= j < seg.len() implies s[pos + pre.len() + j] == seg[j] by {
        let k = pre.len() + j;
        assert(s.subrange(pos, pos + whole.len())[k] == s[pos + k]);
        assert(whole[k] == (pre + seg)[k]);
        assert((pre + seg)[k] == seg[j]);
    }
}

/// The line feed that terminates a segment is found at its offset.
proof fn lemma_lf_at(s: Seq<u8>, pos: int, pre: Seq<u8>, rest: Seq<u8>, whole: Seq<u8>)
    requires
        whole =~= pre + seq![10u8] + rest,
        0 <= pos,
        pos + whole.len() <= s.len(),
        s.subrange(pos, pos + whole.len()) == whole,
    ensures
        s[pos + pre.len()] == 10,
{
    lemma_segment_at(s, pos, pre, seq![10u8], rest, whole);
    assert(s[pos + pre.len() + 0] == seq![10u8][0]);
}

/// A line that sits fully inside `s` at `p`, line feed terminated, is exactly
/// what the reader takes there.
proof fn lemma_line_at(s: Seq<u8>, p: int, l: Seq<u8>)
    requires
        0 <= p,
        lf_free(l),
        p + l.len() < s.len(),
        forall|j: int| 0 <= j < l.len() ==> s[p + j] == l[j],
        s[p + l.len()] == 10,
    ensures
        find_lf(s, p) == p + l.len(),
        line_of(s, p) == l,
        line_next(s, p) == p + l.len() + 1,
        line_ready(s, p, false),
        line_ready(s, p, true),
{
    assert(forall|i: int| p <= i < p + l.len() ==> s[i] == l[i - p] && s[i] != 10);
    lemma_find_lf_at(s, p, p + l.len());
    assert(line_of(s, p) =~= l);
}

/// A whole well-formed unit at `pos` is read as exactly one frame carrying
/// its payload, the cursor landing exactly past the unit: one frame per
/// input frame, in order, never more and never fewer.
#[verifier::rlimit(100)]
#[verifier::spinoff_prover]
pub proof fn lemma_wf_unit_reads_one_frame(
    s: Seq<u8>,
    pos: int,
    fin: bool,
    l1: Seq<u8>,
    l2: Seq<u8>,
    l3: Seq<u8>,
    payload: Seq<u8>,
    l5: Seq<u8>,
    l6: Seq<u8>,
)
    requires
        0 <= pos,
        wf_unit_lines(l1, l2, l3, payload, l5, l6),
        pos + unit_bytes(l1, l2, l3, payload, l5, l6).len() <= s.len(),
        s.subrange(pos, pos + unit_bytes(l1, l2, l3, payload, l5, l6).len()) == unit_bytes(
            l1,
            l2,
            l3,
            payload,
            l5,
            l6,
        ),
    ensures
        spec_read_frame(s, pos, fin) == (SpecRead::Frame {
            payload,
            end: pos + unit_bytes(l1, l2, l3, payload, l5, l6).len(),
        }),
{
    let u = unit_bytes(l1, l2, l3, payload, l5, l6);
    let lf = seq![10u8];
    let e1 = pos + l1.len();
    let q1 = e1 + 1;
    let e2 = q1 + l2.len();
    let q2 = e2 + 1;
    let e3 = q2 + l3.len();
    let q3 = e3 + 1;
    let q4 = q3 + payload.len();
    let e5 = q4 + l5.len();
    let q5 = e5 + 1;
    let e6 = q5 + l6.len();
    let q6 = e6 + 1;
    assert(q6 == pos + u.len());

    lemma_segment_at(s, pos, Seq::<u8>::empty(), l1, lf + l2 + lf + l3 + lf + payload + l5 + lf
        + l6 + lf, u);
    lemma_lf_at(s, pos, l1, l2 + lf + l3 + lf + payload + l5 + lf + l6 + lf, u);
    lemma_segment_at(s, pos, l1 + lf, l2, lf + l3 + lf + payload + l5 + lf + l6 + lf, u);
    lemma_lf_at(s, pos, l1 + lf + l2, l3 + lf + payload + l5 + lf + l6 + lf, u);
    lemma_segment_at(s, pos, l1 + lf + l2 + lf, l3, lf + payload + l5 + lf + l6 + lf, u);
    lemma_lf_at(s, pos, l1 + lf + l2 + lf + l3, payload + l5 + lf + l6 + lf, u);
    lemma_segment_at(s, pos, l1 + lf + l2 + lf + l3 + lf, payload, l5 + lf + l6 + lf, u);
    lemma_segment_at(s, pos, l1 + lf + l2 + lf + l3 + lf + payload, l5, lf + l6 + lf, u);
    lemma_lf_at(s, pos, l1 + lf + l2 + lf + l3 + lf + payload + l5, l6 + lf, u);
    lemma_segment_at(s, pos, l1 + lf + l2 + lf + l3 + lf + payload + l5 + lf, l6, lf, u);
    lemma_lf_at(s, pos, l1 + lf + l2 + lf + l3 + lf + payload + l5 + lf + l6, Seq::<u8>::empty(),
        u);

    assert(s[e1] == 10);
    assert(s[e2] == 10);
    assert(s[e3] == 10);
    assert(s[e5] == 10);
    assert(s[e6] == 10);
    lemma_line_at(s, pos, l1);
    lemma_line_at(s, q1, l2);
    lemma_line_at(s, q2, l3);
    assert(s.subrange(q3, q4) =~= payload);
    lemma_line_at(s, q4, l5);
    lemma_line_at(s, q5, l6);
    assert(pos != s.len());
    assert(spec_read_frame(s, pos, fin) == (SpecRead::Frame { payload, end: q6 }));
}

/// Exactly one well-formed unit carrying `payload` spans `pos..end` of the
/// stream.
pub open spec fn wf_unit_at(s: Seq<u8>, pos: int, end: int, payload: Seq<u8>) -> bool {
    exists|l1: Seq<u8>, l2: Seq<u8>, l3: Seq<u8>, l5: Seq<u8>, l6: Seq<u8>|
        {
            &&& #[trigger] wf_unit_lines(l1, l2, l3, payload, l5, l6)
            &&& end == pos + unit_bytes(l1, l2, l3, payload, l5, l6).len()
            &&& end <= s.len()
            &&& s.subrange(pos, end) == unit_bytes(l1, l2, l3, payload, l5, l6)
        }
}

/// Wherever a well-formed unit spans `pos..end`, the reader emits exactly
/// one frame carrying its payload and stops exactly at `end`.
pub proof fn lemma_unit_at_reads_one_frame(
    s: Seq<u8>,
    pos: int,
    fin: bool,
    end: int,
    payload: Seq<u8>,
)
    requires
        0 <= pos,
        wf_unit_at(s, pos, end, payload),
    ensures
        spec_read_frame(s, pos, fin) == (SpecRead::Frame { payload, end }),
{
    let (l1, l2, l3, l5, l6) = choose|l1: Seq<u8>, l2: Seq<u8>, l3: Seq<u8>, l5: Seq<u8>, l6:
        Seq<u8>|
        {
            &&& #[trigger] wf_unit_lines(l1, l2, l3, payload, l5, l6)
            &&& end == pos + unit_bytes(l1, l2, l3, payload, l5, l6).len()
            &&& end <= s.len()
            &&& s.subrange(pos, end) == unit_bytes(l1, l2, l3, payload, l5, l6)
        };
    lemma_wf_unit_reads_one_frame(s, pos, fin, l1, l2, l3, payload, l5, l6);
}

/// One frame per input unit, in order: a stream that lays well-formed units
/// back to back between the cut positions is read as exactly those payloads,
/// each read starting where the previous one ended.
pub proof fn lemma_units_read_in_order(s: Seq<u8>, fin: bool, cuts: Seq<int>, payloads: Seq<
    Seq<u8>,
>)
    requires
        cuts.len() == payloads.len() + 1,
        forall|i: int|
            0 <= i < payloads.len() ==> 0 <= #[trigger] cuts[i] && wf_unit_at(
                s,
                cuts[i],
                cuts[i + 1],
                payloads[i],
            ),
    ensures
        forall|i: int|
            0 <= i < payloads.len() ==> spec_read_frame(s, #[trigger] cuts[i], fin)
                == (SpecRead::Frame { payload: payloads[i], end: cuts[i + 1] }),
{
    assert forall|i: int| 0 <= i < payloads.len() implies spec_read_frame(s, #[trigger] cuts[i], fin)
        == (SpecRead::Frame { payload: payloads[i], end: cuts[i + 1] }) by {
        lemma_unit_at_reads_one_frame(s, cuts[i], fin, cuts[i + 1], payloads[i]);
    }
}

/// A payload cut short by the end of the stream is a fatal error, never a
/// corrupt-and-continue: the byte stream itself is broken.
pub proof fn lemma_truncated_payload_is_fatal(
    s: Seq<u8>,
    pos: int,
    l1: Seq<u8>,
    l2: Seq<u8>,
    l3: Seq<u8>,
    declared: int,
)
    requires
        0 <= pos,
        lf_free(l1) && has_prefix(l1, ct_prefix()),
        lf_free(l2) && has_prefix(l2, cl_prefix()),
        token_value(last_token(l2)) == Option::Some(declared),
        0 <= declared <= usize::MAX,
        lf_free(l3) && is_blank(l3),
        pos + l1.len() + l2.len() + l3.len() + 3 <= s.len(),
        s.subrange(pos, pos + l1.len() + l2.len() + l3.len() + 3) == l1 + seq![10u8] + l2
            + seq![10u8] + l3 + seq![10u8],
        s.len() - (pos + l1.len() + l2.len() + l3.len() + 3) < declared,
    ensures
        spec_read_frame(s, pos, true) == SpecRead::Dead,
{
    let lf = seq![10u8];
    let h = l1 + seq![10u8] + l2 + seq![10u8] + l3 + seq![10u8];
    let e1 = pos + l1.len();
    let q1 = e1 + 1;
    let e2 = q1 + l2.len();
    let q2 = e2 + 1;
    let e3 = q2 + l3.len();
    let q3 = e3 + 1;
    lemma_segment_at(s, pos, Seq::<u8>::empty(), l1, lf + l2 + lf + l3 + lf, h);
    lemma_lf_at(s, pos, l1, l2 + lf + l3 + lf, h);
    lemma_segment_at(s, pos, l1 + lf, l2, lf + l3 + lf, h);
    lemma_lf_at(s, pos, l1 + lf + l2, l3 + lf, h);
    lemma_segment_at(s, pos, l1 + lf + l2 + lf, l3, lf, h);
    lemma_lf_at(s, pos, l1 + lf + l2 + lf + l3, Seq::<u8>::empty(), h);
    assert(s[e1] == 10 && s[e2] == 10 && s[e3] == 10);
    lemma_line_at(s, pos, l1);
    lemma_line_at(s, q1, l2);
    lemma_line_at(s, q2, l3);
    assert(pos != s.len());
    assert(s.len() - q3 < declared);
    assert(spec_read_frame(s, pos, true) == SpecRead::Dead);
}

/// A unit whose length header is missing or non-numeric is corrupt: the
/// reader consumes exactly the two header lines and resumes scanning there.
pub proof fn lemma_bad_length_is_corrupt(s: Seq<u8>, pos: int, fin: bool, l1: Seq<u8>, l2: Seq<u8>)
    requires
        0 <= pos,
        lf_free(l1) && has_prefix(l1, ct_prefix()),
        lf_free(l2),
        has_prefix(l2, cl_prefix()) ==> token_value(last_token(l2)) is None,
        pos + l1.len() + l2.len() + 2 <= s.len(),
        s.subrange(pos, pos + l1.len() + l2.len() + 2) == l1 + seq![10u8] + l2 + seq![10u8],
    ensures
        spec_read_frame(s, pos, fin) == (SpecRead::Corrupt {
            end: pos + l1.len() + l2.len() + 2,
        }),
{
    let lf = seq![10u8];
    let h = l1 + seq![10u8] + l2 + seq![10u8];
    let e1 = pos + l1.len();
    let q1 = e1 + 1;
    let e2 = q1 + l2.len();
    lemma_segment_at(s, pos, Seq::<u8>::empty(), l1, lf + l2 + lf, h);
    lemma_lf_at(s, pos, l1, l2 + lf, h);
    lemma_segment_at(s, pos, l1 + lf, l2, lf, h);
    lemma_lf_at(s, pos, l1 + lf + l2, Seq::<u8>::empty(), h);
    assert(s[e1] == 10 && s[e2] == 10);
    lemma_line_at(s, pos, l1);
    lemma_line_at(s, q1, l2);
    assert(pos != s.len());
}

/// Resynchronization: after any corrupt unit, the reader resumes at `end`,
/// and a well-formed unit sitting there is parsed intact.
pub proof fn lemma_resync_after_corrupt(
    s: Seq<u8>,
    pos: int,
    fin: bool,
    end: int,
    l1: Seq<u8>,
    l2: Seq<u8>,
    l3: Seq<u8>,
    payload: Seq<u8>,
    l5: Seq<u8>,
    l6: Seq<u8>,
)
    requires
        spec_read_frame(s, pos, fin) == (SpecRead::Corrupt { end }),
        0 <= end,
        wf_unit_lines(l1, l2, l3, payload, l5, l6),
        end + unit_bytes(l1, l2, l3, payload, l5, l6).len() <= s.len(),
        s.subrange(end, end + unit_bytes(l1, l2, l3, payload, l5, l6).len()) == unit_bytes(
            l1,
            l2,
            l3,
            payload,
            l5,
            l6,
        ),
    ensures
        spec_read_frame(s, end, fin) == (SpecRead::Frame {
            payload,
            end: end + unit_bytes(l1, l2, l3, payload, l5, l6).len(),
        }),
{
    lemma_wf_unit_reads_one_frame(s, end, fin, l1, l2, l3, payload, l5, l6);
}

/// The value a token denotes is never negative.
proof fn lemma_token_value_nonneg(t: Seq<u8>)
    ensures
        token_value(t) matches Option::Some(v) ==> v >= 0,
{
    if t.len() >= 2 && t[0] == 43 && all_digits(t.subrange(1, t.len() as int)) {
        lemma_digits_val_nonneg(t.subrange(1, t.len() as int));
    } else if t.len() >= 1 && all_digits(t) {
        lemma_digits_val_nonneg(t);
    }
}

/// The canonical frames the reader emits scanning from `pos` until it
/// blocks: every complete unit is consumed, valid ones re-serialized in
/// order, corrupt ones discarded.
pub open spec fn drain_frames(s: Seq<u8>, pos: int, fin: bool) -> Seq<Seq<u8>>
    decreases s.len() - pos,
{
    match spec_read_frame(s, pos, fin) {
        SpecRead::Frame { payload, end } => if pos < end <= s.len() {
            seq![canonical_frame(payload)] + drain_frames(s, end, fin)
        } else {
            Seq::empty()
        },
        SpecRead::Corrupt { end } => if pos < end <= s.len() {
            drain_frames(s, end, fin)
        } else {
            Seq::empty()
        },
        _ => Seq::empty(),
    }
}

/// Where that scan stops: the first position whose outcome is not a frame
/// and not a corrupt unit (more input needed, clean end, or fatal break).
pub open spec fn drain_end(s: Seq<u8>, pos: int, fin: bool) -> int
    decreases s.len() - pos,
{
    match spec_read_frame(s, pos, fin) {
        SpecRead::Frame { payload, end } => if pos < end <= s.len() {
            drain_end(s, end, fin)
        } else {
            pos
        },
        SpecRead::Corrupt { end } => if pos < end <= s.len() {
            drain_end(s, end, fin)
        } else {
            pos
        },
        _ => pos,
    }
}

/// Discarding a corrupt unit always consumes at least one byte: the reader
/// always makes progress toward later well-formed data and cannot stall.
pub proof fn lemma_corrupt_advances(s: Seq<u8>, pos: int, fin: bool, end: int)
    requires
        0 <= pos <= s.len(),
        spec_read_frame(s, pos, fin) == (SpecRead::Corrupt { end }),
    ensures
        pos < end <= s.len(),
{
    lemma_positions_advance(s, pos, fin);
}

/// Emitting a frame consumes its whole unit, at least one byte.
pub proof fn lemma_frame_advances(s: Seq<u8>, pos: int, fin: bool, payload: Seq<u8>, end: int)
    requires
        0 <= pos <= s.len(),
        spec_read_frame(s, pos, fin) == (SpecRead::Frame { payload, end }),
    ensures
        pos < end <= s.len(),
{
    lemma_positions_advance(s, pos, fin);
}

/// The positions the state machine walks through are monotone and stay
/// inside the stream, strictly past `pos` once any line was consumed.
proof fn lemma_positions_advance(s: Seq<u8>, pos: int, fin: bool)
    requires
        0 <= pos <= s.len(),
    ensures
        ({
            match spec_read_frame(s, pos, fin) {
                SpecRead::Corrupt { end } => pos < end <= s.len(),
                SpecRead::Frame { payload, end } => pos < end <= s.len(),
                _ => true,
            }
        }),
{
    if pos == s.len() && fin {
        return ;
    }
    let p1 = line_next(s, pos);
    lemma_line_next_bounds(s, pos);
    let p2 = line_next(s, p1);
    lemma_line_next_bounds(s, p1);
    let p3 = line_next(s, p2);
    lemma_line_next_bounds(s, p2);
    let l2 = line_of(s, p1);
    match token_value(last_token(l2)) {
        Option::Some(declared) => {
            lemma_token_value_nonneg(last_token(l2));
            if 0 <= declared <= usize::MAX && s.len() - p3 >= declared {
                let p4 = p3 + declared;
                lemma_line_next_bounds(s, p4);
                let p5 = line_next(s, p4);
                lemma_line_next_bounds(s, p5);
            }
        },
        Option::None => {},
    }
}

/// With every byte a digit, the value of a prefix never exceeds the value of
/// the whole string.
proof fn lemma_digits_val_mono(t: Seq<u8>, j: int)
    requires
        0 <= j <= t.len(),
        forall|i: int| 0 <= i < j ==> is_digit(t[i]),
        all_digits(t),
    ensures
        0 <= digits_val(t.subrange(0, j)) <= digits_val(t),
    decreases t.len() - j,
{
    lemma_digits_val_nonneg(t.subrange(0, j));
    if j < t.len() {
        lemma_digits_val_mono(t, j + 1);
        let a = t.subrange(0, j);
        let b = t.subrange(0, j + 1);
        assert(b.drop_last() =~= a);
        assert(is_digit(b.last()));
        lemma_digits_val_nonneg(a);
        assert(digits_val(b) == digits_val(a) * 10 + (b.last() - 48));
        assert(digits_val(a) <= digits_val(b));
    } else {
        assert(t.subrange(0, j) =~= t);
    }
}

proof fn lemma_digits_val_nonneg(t: Seq<u8>)
    requires
        all_digits(t),
    ensures
        digits_val(t) >= 0,
    decreases t.len(),
{
    if t.len() > 0 {
        assert(forall|i: int| 0 <= i < t.drop_last().len() ==> t.drop_last()[i] == t[i]);
        lemma_digits_val_nonneg(t.drop_last());
    }
}

} // verus!
