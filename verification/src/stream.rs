//! Streams of frames: rebuilding a stream from transformed frames, in memory and in chunks.
//!
//! A `FrameWalker` takes the bytes of a stream piece by piece and hands out the frames and the bytes
//! between them. When it asks for more it holds less than one frame, so only one piece and one frame
//! are ever held.

use crate::bits;
use crate::eac3;
use crate::eac3::{find_sync, parse_frames, read_frame_header, FrameInfo, MAX_FRAME_BYTES, SYNC0, SYNC1};
use crate::inject;
use crate::inject::inject_aux;
use vstd::prelude::*;
use vstd::slice::slice_to_vec;

verus! {

/// Bytes that the streaming functions read at a time.
pub const READ_BYTES: usize = 4194304;

// ------------------------------------------------------------------ rebuilding a stream

/// Where the `n`-th of `frames` ends, or the stream begins.
pub open spec fn cursor(frames: Seq<FrameInfo>, n: nat) -> int {
    if n == 0 {
        0
    } else {
        frames[n - 1].offset + frames[n - 1].size
    }
}

/// The bytes of frame `f`.
pub open spec fn frame_bytes_of(data: Seq<u8>, f: FrameInfo) -> Seq<u8> {
    data.subrange(f.offset as int, f.offset + f.size)
}

/// The stream up to the end of its first `n` frames, with each frame replaced and the gaps kept.
pub open spec fn rebuilt_upto(
    data: Seq<u8>,
    frames: Seq<FrameInfo>,
    outs: Seq<Seq<u8>>,
    n: nat,
) -> Seq<u8>
    decreases n,
{
    if n == 0 {
        Seq::empty()
    } else {
        let m = (n - 1) as nat;
        rebuilt_upto(data, frames, outs, m) + data.subrange(
            cursor(frames, m),
            frames[m as int].offset as int,
        ) + outs[m as int]
    }
}

/// The stream with each frame replaced, and gaps and trailing bytes kept.
pub open spec fn rebuilt(data: Seq<u8>, frames: Seq<FrameInfo>, outs: Seq<Seq<u8>>) -> Seq<u8> {
    rebuilt_upto(data, frames, outs, frames.len()) + data.skip(cursor(frames, frames.len()))
}

/// The frames lie in the stream one behind the other.
pub open spec fn in_order(frames: Seq<FrameInfo>, len: int) -> bool {
    &&& forall|i: int|
        0 <= i < frames.len() ==> cursor(frames, i as nat) <= #[trigger] frames[i].offset
            && frames[i].offset + frames[i].size <= len
}

/// Frames that end within the first `len` bytes.
pub open spec fn fit(frames: Seq<FrameInfo>, len: int) -> bool {
    forall|i: int| 0 <= i < frames.len() ==> (#[trigger] frames[i]).offset + frames[i].size <= len
}

/// A stream whose frames are all complete.
pub open spec fn all_complete(data: Seq<u8>) -> bool {
    fit(eac3::frames_of(data), data.len() as int)
}

/// Replacing each frame by itself gives the stream back.
pub proof fn law_identity(data: Seq<u8>, frames: Seq<FrameInfo>, outs: Seq<Seq<u8>>)
    requires
        in_order(frames, data.len() as int),
        outs.len() == frames.len(),
        forall|i: int| 0 <= i < frames.len() ==> #[trigger] outs[i] == frame_bytes_of(data, frames[i]),
    ensures
        rebuilt(data, frames, outs) == data,
{
    lemma_identity_upto(data, frames, outs, frames.len());
    let n = cursor(frames, frames.len());
    if frames.len() > 0 {
        assert(frames[frames.len() - 1].offset + frames[frames.len() - 1].size <= data.len());
    }
    assert(data.take(n) + data.skip(n) =~= data);
}

proof fn lemma_identity_upto(data: Seq<u8>, frames: Seq<FrameInfo>, outs: Seq<Seq<u8>>, n: nat)
    requires
        n <= frames.len(),
        in_order(frames, data.len() as int),
        outs.len() == frames.len(),
        forall|i: int| 0 <= i < frames.len() ==> #[trigger] outs[i] == frame_bytes_of(data, frames[i]),
    ensures
        0 <= cursor(frames, n) <= data.len(),
        rebuilt_upto(data, frames, outs, n) == data.take(cursor(frames, n)),
    decreases n,
{
    if n > 0 {
        let m = (n - 1) as nat;
        lemma_identity_upto(data, frames, outs, m);
        let f = frames[m as int];
        assert(outs[m as int] == frame_bytes_of(data, f));
        assert(rebuilt_upto(data, frames, outs, n) =~= data.take(cursor(frames, n)));
    } else {
        assert(data.take(0) =~= Seq::<u8>::empty());
    }
}

/// Frames that start at `off` or later, one behind the other.
pub open spec fn ordered_from(frames: Seq<FrameInfo>, off: int, len: int) -> bool {
    forall|i: int|
        0 <= i < frames.len() ==> {
            &&& (#[trigger] frames[i]).offset >= (if i == 0 {
                off
            } else {
                cursor(frames, i as nat)
            })
            &&& frames[i].offset + 6 <= len
            &&& 2 <= frames[i].size <= MAX_FRAME_BYTES
        }
}

proof fn lemma_ordered_cons(f: FrameInfo, rest: Seq<FrameInfo>, off: int, len: int)
    requires
        f.offset == off,
        off + 6 <= len,
        2 <= f.size <= MAX_FRAME_BYTES,
        ordered_from(rest, off + f.size, len),
    ensures
        ordered_from(seq![f] + rest, off, len),
{
    let all = seq![f] + rest;
    assert forall|i: int| 0 <= i < all.len() implies {
        &&& (#[trigger] all[i]).offset >= (if i == 0 {
            off
        } else {
            cursor(all, i as nat)
        })
        &&& all[i].offset + 6 <= len
        &&& 2 <= all[i].size <= MAX_FRAME_BYTES
    } by {
        if i > 0 {
            assert(all[i] == rest[i - 1]);
            if i > 1 {
                assert(all[i - 1] == rest[i - 2]);
            }
        }
    }
}

/// What becomes of a frame: the frame with the payload in its auxiliary data, or the frame itself.
pub open spec fn injected(frame: Seq<u8>, outcome: Option<(Vec<u8>, usize)>) -> Seq<u8> {
    match outcome {
        Some((payload, n)) => if n > 0 {
            bits::pack(
                inject::sealed(
                    inject::aux_frame(
                        bits::bits_of(frame),
                        bits::bits_of(payload@).take(n as int),
                    ),
                ),
            )
        } else {
            frame
        },
        None => frame,
    }
}

/// A payload that fits into frame `f`.
pub open spec fn outcome_ok(f: FrameInfo, outcome: Option<(Vec<u8>, usize)>) -> bool {
    outcome matches Some((payload, n)) ==> n == 0 || {
        &&& f.size >= 6
        &&& n <= 8 * payload@.len()
        &&& inject::frame_bytes(inject::aux_need(8 * f.size as int, n as int)) <= MAX_FRAME_BYTES
    }
}

/// What the calls of `payload_for` returned, one for each complete frame of the stream.
pub open spec fn payloads_from<F: FnMut(&FrameInfo, usize) -> Option<(Vec<u8>, usize)>>(
    payload_for: F,
    data: Seq<u8>,
    outcomes: Seq<Option<(Vec<u8>, usize)>>,
) -> bool {
    &&& outcomes.len() == complete_frames(data).len()
    &&& forall|i: int|
        0 <= i < outcomes.len() ==> call_ensures(
            payload_for,
            (&complete_frames(data)[i], i as usize),
            #[trigger] outcomes[i],
        )
}

/// The stream with each complete frame's outcome worked in.
pub open spec fn injected_stream(
    data: Seq<u8>,
    outcomes: Seq<Option<(Vec<u8>, usize)>>,
) -> Seq<u8> {
    rebuilt(
        data,
        complete_frames(data),
        Seq::new(
            outcomes.len(),
            |i: int| injected(frame_bytes_of(data, complete_frames(data)[i]), outcomes[i]),
        ),
    )
}

/// Appends a copy of `data[from..to]`.
fn append_range(out: &mut Vec<u8>, data: &[u8], from: usize, to: usize)
    requires
        from <= to <= data@.len(),
    ensures
        final(out)@ == old(out)@ + data@.subrange(from as int, to as int),
{
    out.extend_from_slice(&data[from..to]);
}

/// The complete frames of a stream: those that `parse_frames` finds, without a last one that is cut
/// off.
fn parse_complete(data: &[u8]) -> (frames: Vec<FrameInfo>)
    ensures
        frames@ == complete_frames(data@),
{
    let mut frames = parse_frames(data);
    let n = frames.len();
    proof {
        assert(data.len() == data@.len());
        law_streamed_frames(data@);
    }
    if n > 0 {
        let last = frames[n - 1];
        if last.size > data.len() || last.offset > data.len() - last.size {
            frames.pop();
        }
    }
    frames
}

/// Walk every syncframe and inject a per-frame aux payload. `payload_for` is called with each frame's
/// `FrameInfo` and index; it returns `None` (or 0 bits) to leave a frame unchanged. Inter-frame bytes
/// (if any) are copied verbatim, and so is a last frame that the end of the stream cuts off.
pub fn inject_stream<F>(data: &[u8], payload_for: F) -> (out: Vec<u8>)
    where F: FnMut(&FrameInfo, usize) -> Option<(Vec<u8>, usize)>
    requires
        forall|i: int|
            0 <= i < complete_frames(data@).len() ==> call_requires(
                payload_for,
                (&#[trigger] complete_frames(data@)[i], i as usize),
            ),
        forall|i: int, r: Option<(Vec<u8>, usize)>|
            0 <= i < complete_frames(data@).len() && #[trigger] call_ensures(
                payload_for,
                (&complete_frames(data@)[i], i as usize),
                r,
            ) ==> outcome_ok(complete_frames(data@)[i], r),
    ensures
        exists|outcomes: Seq<Option<(Vec<u8>, usize)>>|
            payloads_from(payload_for, data@, outcomes) && #[trigger] injected_stream(
                data@,
                outcomes,
            ) == out@,
{
    let frames = parse_complete(data);
    let ghost fs = complete_frames(data@);
    let ghost g = payload_for;
    let mut payload_for = payload_for;
    let mut out: Vec<u8> = Vec::new();
    let mut cur: usize = 0;
    let mut i: usize = 0;
    let ghost mut outcomes: Seq<Option<(Vec<u8>, usize)>> = seq![];
    let ghost mut outs: Seq<Seq<u8>> = seq![];
    proof {
        assert(data.len() == data@.len());
        lemma_complete_order(data@, 0);
        assert(out@ =~= rebuilt_upto(data@, fs, outs, 0));
    }
    while i < frames.len()
        invariant
            i <= frames@.len(),
            frames@ == fs,
            fs == complete_frames(data@),
            payload_for == g,
            fit(fs, data@.len() as int),
            ordered_from(fs, 0, data@.len() as int),
            forall|k: int|
                0 <= k < fs.len() ==> call_requires(g, (&#[trigger] fs[k], k as usize)),
            forall|k: int, r: Option<(Vec<u8>, usize)>|
                0 <= k < fs.len() && #[trigger] call_ensures(g, (&fs[k], k as usize), r)
                    ==> outcome_ok(fs[k], r),
            cur == cursor(fs, i as nat),
            cur <= data@.len(),
            outcomes.len() == i,
            outs.len() == i,
            forall|k: int|
                0 <= k < i ==> call_ensures(g, (&fs[k], k as usize), #[trigger] outcomes[k]),
            forall|k: int|
                0 <= k < i ==> #[trigger] outs[k] == injected(
                    frame_bytes_of(data@, fs[k]),
                    outcomes[k],
                ),
            out@ == rebuilt_upto(data@, fs, outs, i as nat),
        decreases frames.len() - i,
    {
        let f = frames[i];
        assert(f == fs[i as int]);
        assert(data.len() == data@.len());
        assert(f.offset + f.size <= data@.len());
        append_range(&mut out, data, cur, f.offset);  // resync gap, verbatim
        let frame = &data[f.offset..f.offset + f.size];
        let outcome = payload_for(&f, i);
        let ghost piece = injected(frame_bytes_of(data@, f), outcome);
        let ghost before = out@;
        match &outcome {
            Some((payload, n)) => {
                if *n > 0 {
                    let grown = inject_aux(frame, payload, *n);
                    assert(grown@ == piece) by {
                        bits::lemma_pack_of_bits(grown@);
                    }
                    let len = grown.len();
                    append_range(&mut out, &grown, 0, len);
                    assert(grown@.subrange(0, len as int) =~= grown@);
                } else {
                    append_range(&mut out, data, f.offset, f.offset + f.size);
                }
            },
            None => {
                append_range(&mut out, data, f.offset, f.offset + f.size);
            },
        }
        assert(out@ == before + piece);
        let ghost outs0 = outs;
        proof {
            outcomes = outcomes.push(outcome);
            outs = outs.push(piece);
            lemma_rebuilt_ext(data@, fs, outs0, outs, i as nat);
        }
        cur = f.offset + f.size;
        i = i + 1;
        assert(out@ =~= rebuilt_upto(data@, fs, outs, i as nat));
    }
    append_range(&mut out, data, cur, data.len());
    proof {
        let made = Seq::new(
            outcomes.len(),
            |i: int| injected(frame_bytes_of(data@, complete_frames(data@)[i]), outcomes[i]),
        );
        assert(outs =~= made);
        assert(data@.subrange(cur as int, data@.len() as int) =~= data@.skip(cur as int));
        assert(payloads_from(g, data@, outcomes));
        assert(injected_stream(data@, outcomes) == out@);
    }
    out
}

/// What is rebuilt from the first `n` frames depends on their replacements alone.
proof fn lemma_rebuilt_ext(
    data: Seq<u8>,
    frames: Seq<FrameInfo>,
    a: Seq<Seq<u8>>,
    b: Seq<Seq<u8>>,
    n: nat,
)
    requires
        n <= a.len(),
        n <= b.len(),
        forall|i: int| 0 <= i < n ==> #[trigger] a[i] == b[i],
    ensures
        rebuilt_upto(data, frames, a, n) == rebuilt_upto(data, frames, b, n),
    decreases n,
{
    if n > 0 {
        lemma_rebuilt_ext(data, frames, a, b, (n - 1) as nat);
        assert(a[n - 1] == b[n - 1]);
    }
}

/// Where every frame is left as it is, the stream is left as it is.
pub proof fn law_passthrough(data: Seq<u8>, outcomes: Seq<Option<(Vec<u8>, usize)>>)
    requires
        data.len() <= usize::MAX,
        outcomes.len() == complete_frames(data).len(),
        forall|i: int|
            0 <= i < outcomes.len() ==> (#[trigger] outcomes[i] matches Some((_, n)) ==> n == 0),
    ensures
        injected_stream(data, outcomes) == data,
{
    let fs = complete_frames(data);
    let outs = Seq::new(
        outcomes.len(),
        |i: int| injected(frame_bytes_of(data, fs[i]), outcomes[i]),
    );
    lemma_complete_order(data, 0);
    assert forall|i: int| 0 <= i < fs.len() implies #[trigger] outs[i] == frame_bytes_of(data, fs[i]) by {
        assert(outcomes[i] matches Some((_, n)) ==> n == 0);
    }
    assert(in_order(fs, data.len() as int));
    law_identity(data, fs, outs);
}

// ------------------------------------------------------------------ walking a stream in pieces

/// The complete frames of `data` from byte `at` on. A frame that the end cuts off is not a frame.
pub open spec fn complete_from(data: Seq<u8>, at: int) -> Seq<FrameInfo>
    decreases
        (if at < data.len() {
            data.len() - at
        } else {
            0
        }),
        (if eac3::sync_at(data, at) {
            0int
        } else {
            1
        }),
{
    match found_at(data, at) {
        Found::Nothing => Seq::empty(),
        Found::Gap(p) => {
            proof {
                eac3::lemma_next_sync(data, at);
            }
            complete_from(data, p)
        },
        Found::Frame(f) => {
            proof {
                eac3::lemma_header_size(bits::bits_of(data.subrange(at, at + 6)), at);
            }
            seq![f] + complete_from(data, at + f.size)
        },
    }
}

/// Every complete frame of a stream.
pub open spec fn complete_frames(data: Seq<u8>) -> Seq<FrameInfo> {
    complete_from(data, 0)
}

/// What stands at a byte of a stream, as far as it is known.
pub enum Found {
    /// Nothing that could be told yet.
    Nothing,
    /// No frame, up to the syncword at this byte.
    Gap(int),
    /// A complete frame.
    Frame(FrameInfo),
}

/// What stands at byte `at` of `data`.
pub open spec fn found_at(data: Seq<u8>, at: int) -> Found {
    if at < 0 || at + 2 > data.len() {
        Found::Nothing
    } else if !eac3::sync_at(data, at) {
        match eac3::next_sync(data, at) {
            Some(p) => Found::Gap(p),
            None => Found::Nothing,
        }
    } else if at + 6 > data.len() || at + eac3::header_at(data, at).size > data.len() {
        Found::Nothing
    } else {
        Found::Frame(eac3::header_at(data, at))
    }
}

/// No syncword starts at byte `at` of `data` or behind it, but perhaps at the last byte.
pub open spec fn silent(data: Seq<u8>, at: int) -> bool {
    0 <= at && at + 2 <= data.len() && !eac3::sync_at(data, at) && eac3::next_sync(data, at) is None
}

/// What a walker hands out.
pub enum Event {
    /// More bytes are needed.
    More,
    /// Bytes between frames.
    Gap(Vec<u8>),
    /// A complete frame, its place counted from the start of the stream, and its bytes.
    Frame(FrameInfo, Vec<u8>),
    /// What is left behind the last complete frame, at the end of the stream.
    Rest(Vec<u8>),
    /// The stream is used up.
    Done,
}

/// Walks a stream that comes in pieces.
pub struct FrameWalker {
    buf: Vec<u8>,
    pos: usize,
    base: usize,
    eof: bool,
    fed: Ghost<Seq<u8>>,
}

impl FrameWalker {
    /// All bytes that were fed.
    pub closed spec fn fed(&self) -> Seq<u8> {
        self.fed@
    }

    /// How far the stream was handed out.
    pub closed spec fn at(&self) -> int {
        self.base + self.pos
    }

    /// How many bytes the window holds.
    pub closed spec fn held(&self) -> nat {
        self.buf@.len()
    }

    /// Whether the end of the stream was announced.
    pub closed spec fn ended(&self) -> bool {
        self.eof
    }

    /// The window holds the end of what was fed.
    pub closed spec fn wf(&self) -> bool {
        &&& self.fed@.len() <= usize::MAX
        &&& self.base + self.buf@.len() == self.fed@.len()
        &&& self.buf@ == self.fed@.skip(self.base as int)
        &&& self.pos <= self.buf@.len()
    }

    pub fn new() -> (w: Self)
        ensures
            w.wf(),
            w.fed() == Seq::<u8>::empty(),
            w.at() == 0,
            w.held() == 0,
            !w.ended(),
    {
        let w = FrameWalker { buf: Vec::new(), pos: 0, base: 0, eof: false, fed: Ghost(Seq::empty()) };
        assert(w.buf@ =~= w.fed@.skip(0));
        w
    }

    /// How many bytes the window holds.
    pub fn window(&self) -> (n: usize)
        ensures
            n == self.held(),
    {
        self.buf.len()
    }

    /// Appends bytes to the window, and drops what was handed out.
    pub fn feed(&mut self, bytes: &[u8])
        requires
            old(self).wf(),
            old(self).fed().len() + bytes@.len() <= usize::MAX,
        ensures
            final(self).wf(),
            final(self).fed() == old(self).fed() + bytes@,
            final(self).at() == old(self).at(),
            final(self).held() == final(self).fed().len() - final(self).at(),
            final(self).ended() == old(self).ended(),
    {
        let pos = self.pos;
        let mut window = self.buf.split_off(pos);
        window.extend_from_slice(bytes);
        self.base = self.base + pos;
        self.pos = 0;
        self.buf = window;
        proof {
            self.fed@ = self.fed@ + bytes@;
        }
        assert(self.buf@ =~= self.fed@.skip(self.base as int));
    }

    /// Announces the end of the stream.
    pub fn end(&mut self)
        requires
            old(self).wf(),
        ensures
            final(self).wf(),
            final(self).fed() == old(self).fed(),
            final(self).at() == old(self).at(),
            final(self).held() == old(self).held(),
            final(self).ended(),
    {
        self.eof = true;
    }

    /// The next thing that can be told from the bytes fed so far. Bytes in which no frame can start are
    /// handed out as they come, so that less than a frame is held when more bytes are needed.
    pub fn step(&mut self) -> (e: Event)
        requires
            old(self).wf(),
        ensures
            final(self).wf(),
            final(self).fed() == old(self).fed(),
            final(self).ended() == old(self).ended(),
            final(self).held() <= old(self).held(),
            match found_at(old(self).fed(), old(self).at()) {
                Found::Nothing => if silent(old(self).fed(), old(self).at()) {
                    &&& e matches Event::Gap(b) && b@ == old(self).fed().subrange(
                        old(self).at(),
                        old(self).fed().len() - 1,
                    )
                    &&& final(self).at() == old(self).fed().len() - 1
                } else if !old(self).ended() {
                    &&& e is More && final(self).at() == old(self).at()
                    &&& final(self).held() == final(self).fed().len() - final(self).at()
                    &&& final(self).held() < MAX_FRAME_BYTES
                } else if old(self).at() < old(self).fed().len() {
                    &&& e matches Event::Rest(b) && b@ == old(self).fed().skip(old(self).at())
                    &&& final(self).at() == old(self).fed().len()
                } else {
                    e is Done && final(self).at() == old(self).at()
                },
                Found::Gap(p) => {
                    &&& e matches Event::Gap(b) && b@ == old(self).fed().subrange(
                        old(self).at(),
                        p,
                    )
                    &&& final(self).at() == p
                },
                Found::Frame(f) => {
                    &&& e matches Event::Frame(g, b) && g == f && b@ == frame_bytes_of(
                        old(self).fed(),
                        f,
                    )
                    &&& final(self).at() == old(self).at() + f.size
                },
            },
    {
        let ghost fed = self.fed@;
        let ghost at = self.base + self.pos;
        let ghost base = self.base as int;
        let pos = self.pos;
        let len = self.buf.len();
        proof {
            lemma_window(fed, base, pos as int);
            assert(self.buf@ == fed.skip(base));
        }
        if len - pos < 2 {
            return self.stop();
        }
        if !(self.buf[pos] == SYNC0 && self.buf[pos + 1] == SYNC1) {
            let p: usize = match find_sync(&self.buf, pos) {
                Some(p) => p,
                None => len - 1,
            };
            let gap = slice_to_vec(&self.buf.as_slice()[pos..p]);
            self.pos = p;
            assert(gap@ =~= fed.subrange(at, base + p));
            return Event::Gap(gap);
        }
        if len - pos < 6 {
            return self.stop();
        }
        let mut info = read_frame_header(&self.buf, pos);
        info.offset = self.base + pos;
        assert(info == eac3::header_at(fed, at));
        proof {
            eac3::lemma_header_size(bits::bits_of(fed.subrange(at, at + 6)), at);
        }
        if info.size > len - pos {
            return self.stop();
        }
        let end = pos + info.size;
        let frame = slice_to_vec(&self.buf.as_slice()[pos..end]);
        self.pos = end;
        assert(frame@ =~= frame_bytes_of(fed, info));
        Event::Frame(info, frame)
    }

    /// Nothing more can be told: asks for more bytes, or hands out what is left.
    fn stop(&mut self) -> (e: Event)
        requires
            old(self).wf(),
            old(self).fed().len() - old(self).at() < MAX_FRAME_BYTES,
        ensures
            final(self).wf(),
            final(self).fed() == old(self).fed(),
            final(self).ended() == old(self).ended(),
            final(self).held() <= old(self).held(),
            if !old(self).ended() {
                &&& e is More && final(self).at() == old(self).at()
                &&& final(self).held() == final(self).fed().len() - final(self).at()
            } else if old(self).at() < old(self).fed().len() {
                &&& e matches Event::Rest(b) && b@ == old(self).fed().skip(old(self).at())
                &&& final(self).at() == old(self).fed().len()
            } else {
                e is Done && final(self).at() == old(self).at()
            },
    {
        let pos = self.pos;
        if !self.eof {
            let window = self.buf.split_off(pos);
            self.base = self.base + pos;
            self.pos = 0;
            self.buf = window;
            assert(self.buf@ =~= self.fed@.skip(self.base as int));
            return Event::More;
        }
        let len = self.buf.len();
        if pos < len {
            let rest = slice_to_vec(&self.buf.as_slice()[pos..len]);
            self.pos = len;
            assert(rest@ =~= self.fed@.skip(self.base + pos));
            Event::Rest(rest)
        } else {
            Event::Done
        }
    }
}

/// A walker that asked for more and was fed at most `chunk` bytes holds less than these and one frame,
/// however many steps follow.
pub proof fn law_window_bound(asked: FrameWalker, fed: FrameWalker, later: FrameWalker, chunk: nat)
    requires
        asked.held() == asked.fed().len() - asked.at(),
        asked.held() < MAX_FRAME_BYTES,
        fed.fed().len() <= asked.fed().len() + chunk,
        fed.at() == asked.at(),
        fed.held() == fed.fed().len() - fed.at(),
        later.held() <= fed.held(),
    ensures
        later.held() < chunk + MAX_FRAME_BYTES,
{
}

/// What stands in the window stands in the stream.
proof fn lemma_window(fed: Seq<u8>, base: int, pos: int)
    requires
        0 <= base <= fed.len(),
        0 <= pos <= fed.len() - base,
        fed.len() <= usize::MAX,
    ensures
        eac3::sync_at(fed, base + pos) == eac3::sync_at(fed.skip(base), pos),
        eac3::next_sync(fed.skip(base), pos) matches Some(p) ==> eac3::next_sync(fed, base + pos) == Some(base + p),
        eac3::next_sync(fed.skip(base), pos) is None ==> eac3::next_sync(fed, base + pos) is None,
        base + pos + 6 <= fed.len() ==> eac3::header_at(fed, base + pos) == (FrameInfo {
            offset: (base + pos) as usize,
            ..eac3::header_at(fed.skip(base), pos)
        }),
    decreases fed.len() - base - pos,
{
    if pos < fed.len() - base {
        lemma_window(fed, base, pos + 1);
    }
    if base + pos + 6 <= fed.len() {
        assert(fed.subrange(base + pos, base + pos + 6) =~= fed.skip(base).subrange(pos, pos + 6));
    }
}

/// What can be told from the first bytes of a stream holds of the stream.
proof fn lemma_prefix(data: Seq<u8>, n: int, at: int)
    requires
        0 <= n <= data.len(),
        0 <= at,
    ensures
        found_at(data.take(n), at) matches Found::Gap(p) ==> found_at(data, at) == Found::Gap(p) && at
            < p <= n,
        found_at(data.take(n), at) matches Found::Frame(f) ==> found_at(data, at) == Found::Frame(f)
            && f.offset == at as usize && 2 <= f.size && at + f.size <= n && frame_bytes_of(
            data.take(n),
            f,
        ) == data.take(n).subrange(at as usize as int, at as usize + f.size),
{
    let t = data.take(n);
    eac3::lemma_next_sync(t, at);
    eac3::lemma_next_sync(data, at);
    eac3::lemma_header_size(bits::bits_of(t.subrange(at, at + 6)), at);
    if at + 6 <= n {
        assert(t.subrange(at, at + 6) =~= data.subrange(at, at + 6));
    }
    if at + 2 <= n {
        assert(eac3::sync_at(t, at) == eac3::sync_at(data, at));
    }
    if let Some(p) = eac3::next_sync(t, at) {
        assert(eac3::sync_at(data, p));
        match eac3::next_sync(data, at) {
            Some(q) => {
                assert(eac3::sync_at(data, q));
                if q < p {
                    assert(eac3::sync_at(t, q));
                }
            },
            None => {},
        }
    }
}

/// Behind bytes that were handed out between frames stand the frames that stood behind their start.
proof fn lemma_gap(data: Seq<u8>, n: int, at: int, p: int)
    requires
        0 <= n <= data.len(),
        0 <= at,
        found_at(data.take(n), at) == Found::Gap(p) || (silent(data.take(n), at) && p == n - 1),
    ensures
        at < p <= n,
        complete_from(data, at) == complete_from(data, p),
{
    lemma_prefix(data, n, at);
    if silent(data.take(n), at) {
        let t = data.take(n);
        assert(eac3::sync_at(t, at) == eac3::sync_at(data, at));
        lemma_silent(data, n, at);
        eac3::lemma_next_sync(data, at);
        eac3::lemma_next_sync(data, p);
        match eac3::next_sync(data, p) {
            Some(q) => {
                if q > p {
                    assert(!eac3::sync_at(data, p)) by {
                        if eac3::sync_at(data, p) {
                            assert(eac3::next_sync(data, p) == Some(p));
                        }
                    }
                    assert(found_at(data, p) == Found::Gap(q));
                }
            },
            None => {},
        }
    }
}

/// The next syncword behind silent bytes is the next one from their start on.
proof fn lemma_silent(data: Seq<u8>, n: int, at: int)
    requires
        0 <= at < n <= data.len(),
        eac3::next_sync(data.take(n), at) is None,
    ensures
        eac3::next_sync(data, at) == eac3::next_sync(data, n - 1),
    decreases n - at,
{
    if at < n - 1 {
        let t = data.take(n);
        assert(eac3::sync_at(t, at) == eac3::sync_at(data, at));
        lemma_silent(data, n, at + 1);
    }
}

/// A frame's header as a transform sees it: its place in the stream left out.
pub open spec fn unplaced(f: FrameInfo) -> FrameInfo {
    FrameInfo { offset: 0, ..f }
}

/// `out` is what a call of `process` on frame `i` with these bytes returned.
pub open spec fn made_by<F: FnMut(&FrameInfo, usize, &[u8]) -> Vec<u8>>(
    process: F,
    f: FrameInfo,
    i: int,
    bytes: Seq<u8>,
    out: Vec<u8>,
) -> bool {
    exists|s: &[u8]|
        s@ == bytes && #[trigger] call_ensures(process, (&unplaced(f), i as usize, s), out)
}

/// `process` can be called on frame `i` with these bytes.
pub open spec fn takes<F: FnMut(&FrameInfo, usize, &[u8]) -> Vec<u8>>(
    process: F,
    f: FrameInfo,
    i: int,
    bytes: Seq<u8>,
) -> bool {
    forall|s: &[u8]| s@ == bytes ==> #[trigger] call_requires(process, (&unplaced(f), i as usize, s))
}

/// What the calls of `process` returned, one for each complete frame of the stream.
pub open spec fn frames_made_by<F: FnMut(&FrameInfo, usize, &[u8]) -> Vec<u8>>(
    process: F,
    data: Seq<u8>,
    made: Seq<Vec<u8>>,
) -> bool {
    &&& made.len() == complete_frames(data).len()
    &&& forall|i: int|
        0 <= i < made.len() ==> made_by(
            process,
            complete_frames(data)[i],
            i,
            frame_bytes_of(data, complete_frames(data)[i]),
            #[trigger] made[i],
        )
}

/// The stream with its complete frames replaced.
pub open spec fn transformed(data: Seq<u8>, made: Seq<Vec<u8>>) -> Seq<u8> {
    rebuilt(data, complete_frames(data), Seq::new(made.len(), |i: int| made[i]@))
}

/// Feeds the next piece of at most `chunk` bytes; a shorter one is the last.
fn feed_next(w: &mut FrameWalker, data: &[u8], read: usize, chunk: usize) -> (next: usize)
    requires
        old(w).wf(),
        !old(w).ended(),
        read <= data@.len(),
        old(w).fed() == data@.take(read as int),
        old(w).held() == old(w).fed().len() - old(w).at(),
        chunk > 0,
    ensures
        final(w).wf(),
        final(w).held() <= old(w).held() + chunk,
        read <= next <= data@.len(),
        final(w).fed() == data@.take(next as int),
        final(w).at() == old(w).at(),
        final(w).ended() ==> next == data@.len(),
        final(w).ended() || next > read,
{
    assert(data.len() == data@.len());
    let left = data.len() - read;
    let n: usize = if chunk <= left {
        chunk
    } else {
        left
    };
    w.feed(&data[read..read + n]);
    assert(data@.take(read as int) + data@.subrange(read as int, read + n) =~= data@.take(read + n));
    if n < chunk {
        w.end();
    }
    read + n
}

/// A frame that is found next is the next of the frames.
proof fn lemma_next_frame(d: Seq<u8>, fs: Seq<FrameInfo>, idx: int, at: int, f: FrameInfo)
    requires
        0 <= idx <= fs.len(),
        fs.skip(idx) == complete_from(d, at),
        found_at(d, at) == Found::Frame(f),
    ensures
        idx < fs.len(),
        fs[idx] == f,
        fs.skip(idx + 1) == complete_from(d, at + f.size),
{
    let rest = complete_from(d, at + f.size);
    assert(complete_from(d, at) == seq![f] + rest);
    assert(fs.skip(idx)[0] == f);
    assert(fs.skip(idx + 1) =~= fs.skip(idx).skip(1));
    assert((seq![f] + rest).skip(1) =~= rest);
}

/// What is written grows by a piece of the stream.
proof fn lemma_grown_by_gap(written: Seq<u8>, d: Seq<u8>, c: int, at: int, p: int)
    requires
        0 <= c <= at <= p <= d.len(),
    ensures
        written + d.subrange(c, at) + d.subrange(at, p) == written + d.subrange(c, p),
{
    assert(written + d.subrange(c, at) + d.subrange(at, p) =~= written + d.subrange(c, p));
}

/// What is written grows by a frame's replacement.
proof fn lemma_grown_by_frame(
    d: Seq<u8>,
    fs: Seq<FrameInfo>,
    outs: Seq<Seq<u8>>,
    piece: Seq<u8>,
    idx: int,
    at: int,
)
    requires
        outs.len() == idx,
        0 <= idx < fs.len(),
        fs[idx].offset == at,
        0 <= cursor(fs, idx as nat) <= at,
        at + fs[idx].size <= d.len(),
    ensures
        ({
            let after = at + fs[idx].size;
            &&& cursor(fs, (idx + 1) as nat) == after
            &&& rebuilt_upto(d, fs, outs, idx as nat) + d.subrange(cursor(fs, idx as nat), at) + piece
                == rebuilt_upto(d, fs, outs.push(piece), (idx + 1) as nat) + d.subrange(after, after)
        }),
{
    let after = at + fs[idx].size;
    lemma_rebuilt_ext(d, fs, outs, outs.push(piece), idx as nat);
    assert(rebuilt_upto(d, fs, outs, idx as nat) + d.subrange(cursor(fs, idx as nat), at) + piece
        =~= rebuilt_upto(d, fs, outs.push(piece), (idx + 1) as nat) + d.subrange(after, after));
}

/// Streaming counterpart of [`inject_stream`], generalised to arbitrary per-frame transforms, on a
/// stream that comes in pieces of `chunk` bytes (at least 8).
///
/// Each whole syncframe goes through `process` (`process(frame_info, global_frame_index,
/// frame_bytes)`), which returns its replacement. Resync gaps between frames and any trailing partial
/// bytes are copied verbatim. Of the stream less than `chunk` bytes and one frame are held at any time.
/// Returns the new stream and the number of frames processed; neither depends on `chunk`.
#[verifier::spinoff_prover]
pub fn transform_frames_io_chunked<F>(data: &[u8], chunk: usize, process: F) -> (r: (Vec<u8>, usize))
    where F: FnMut(&FrameInfo, usize, &[u8]) -> Vec<u8>
    requires
        forall|i: int|
            0 <= i < complete_frames(data@).len() ==> takes(
                process,
                #[trigger] complete_frames(data@)[i],
                i,
                frame_bytes_of(data@, complete_frames(data@)[i]),
            ),
    ensures
        r.1 == complete_frames(data@).len(),
        exists|made: Seq<Vec<u8>>|
            frames_made_by(process, data@, made) && #[trigger] transformed(data@, made) == r.0@,
{
    let chunk: usize = if chunk < 8 {
        8
    } else {
        chunk
    };
    let ghost d = data@;
    let ghost fs = complete_frames(data@);
    let ghost g = process;
    let mut process = process;
    let mut w = FrameWalker::new();
    let mut read: usize = 0;
    let mut out: Vec<u8> = Vec::new();
    let mut idx: usize = 0;
    let ghost mut made: Seq<Vec<u8>> = seq![];
    let ghost mut outs: Seq<Seq<u8>> = seq![];
    proof {
        assert(data.len() == data@.len());
        assert(w.fed() =~= d.take(0));
        assert(fs.skip(0) =~= fs);
        assert(out@ =~= rebuilt_upto(d, fs, outs, 0) + d.subrange(0, 0));
    }
    loop
        invariant_except_break
            w.at() <= w.fed().len(),
            fs.skip(idx as int) == complete_from(d, w.at()),
            cursor(fs, idx as nat) <= w.at(),
            out@ == rebuilt_upto(d, fs, outs, idx as nat) + d.subrange(
                cursor(fs, idx as nat),
                w.at(),
            ),
        invariant
            d == data@,
            d.len() <= usize::MAX,
            fs == complete_frames(d),
            process == g,
            chunk >= 8,
            forall|k: int|
                0 <= k < fs.len() ==> takes(
                    g,
                    #[trigger] fs[k],
                    k,
                    frame_bytes_of(d, fs[k]),
                ),
            w.wf(),
            w.held() < chunk + MAX_FRAME_BYTES,
            read <= d.len(),
            w.fed() == d.take(read as int),
            w.ended() ==> read == d.len(),
            0 <= w.at(),
            idx <= fs.len(),
            idx <= d.len(),
            2 * idx <= w.at(),
            0 <= cursor(fs, idx as nat),
            made.len() == idx,
            outs.len() == idx,
            forall|k: int|
                0 <= k < idx ==> made_by(g, fs[k], k, frame_bytes_of(d, fs[k]), #[trigger] made[k]),
            forall|k: int| 0 <= k < idx ==> #[trigger] outs[k] == made[k]@,
        ensures
            idx == fs.len(),
            out@ == rebuilt(d, fs, outs),
        decreases
            (if w.ended() {
                0int
            } else {
                1
            }),
            d.len() - read,
            d.len() - w.at(),
    {
        let ghost at = w.at();
        proof {
            lemma_prefix(d, read as int, at);
            if w.ended() {
                assert(d.take(d.len() as int) =~= d);
            }
        }
        match w.step() {
            Event::More => {
                read = feed_next(&mut w, data, read, chunk);
            },
            Event::Gap(gap) => {
                let ghost p = w.at();
                let mut gap = gap;
                proof {
                    lemma_gap(d, read as int, at, p);
                    assert(gap@ =~= d.subrange(at, p));
                    lemma_grown_by_gap(
                        rebuilt_upto(d, fs, outs, idx as nat),
                        d,
                        cursor(fs, idx as nat),
                        at,
                        p,
                    );
                }
                out.append(&mut gap);
            },
            Event::Frame(info, frame) => {
                let mut info = info;
                let ghost f = info;
                proof {
                    lemma_next_frame(d, fs, idx as int, at, f);
                    assert(frame@ =~= frame_bytes_of(d, f));
                    assert(takes(g, f, idx as int, frame_bytes_of(d, f)));
                }
                info.offset = 0;
                assert(info == unplaced(f));
                let mut made_now = process(&info, idx, &frame);
                let ghost m = made_now;
                proof {
                    assert(made_by(g, f, idx as int, frame_bytes_of(d, f), m));
                    lemma_grown_by_frame(d, fs, outs, m@, idx as int, at);
                    made = made.push(m);
                    outs = outs.push(m@);
                }
                out.append(&mut made_now);
                idx = idx + 1;
            },
            Event::Rest(rest) => {
                let mut rest = rest;
                proof {
                    assert(rest@ =~= d.subrange(at, d.len() as int));
                    lemma_grown_by_gap(
                        rebuilt_upto(d, fs, outs, idx as nat),
                        d,
                        cursor(fs, idx as nat),
                        at,
                        d.len() as int,
                    );
                }
                out.append(&mut rest);
            },
            Event::Done => {
                proof {
                    assert(fs.skip(idx as int).len() == 0);
                    assert(d.subrange(cursor(fs, idx as nat), at) =~= d.skip(
                        cursor(fs, idx as nat),
                    ));
                }
                break ;
            },
        }
    }
    proof {
        assert(outs =~= Seq::new(made.len(), |i: int| made[i]@));
        assert(frames_made_by(g, d, made));
        assert(transformed(d, made) == out@);
    }
    (out, idx)
}

/// As [`transform_frames_io_chunked`], with the usual read granularity.
pub fn transform_frames_io<F>(data: &[u8], process: F) -> (r: (Vec<u8>, usize))
    where F: FnMut(&FrameInfo, usize, &[u8]) -> Vec<u8>
    requires
        forall|i: int|
            0 <= i < complete_frames(data@).len() ==> takes(
                process,
                #[trigger] complete_frames(data@)[i],
                i,
                frame_bytes_of(data@, complete_frames(data@)[i]),
            ),
    ensures
        r.1 == complete_frames(data@).len(),
        exists|made: Seq<Vec<u8>>|
            frames_made_by(process, data@, made) && #[trigger] transformed(data@, made) == r.0@,
{
    transform_frames_io_chunked(data, READ_BYTES, process)
}

/// The [`FrameInfo`] of every complete syncframe of a stream that comes in pieces of `chunk` bytes (at
/// least 8), without retaining the frame bytes. The frame at index `i` here is exactly the frame that
/// [`transform_frames_io_chunked`] delivers at index `i`. Offsets are absolute stream positions.
pub fn parse_frames_io_chunked(data: &[u8], chunk: usize) -> (frames: Vec<FrameInfo>)
    ensures
        frames@ == complete_frames(data@),
{
    let chunk: usize = if chunk < 8 {
        8
    } else {
        chunk
    };
    let ghost d = data@;
    let mut w = FrameWalker::new();
    let mut read: usize = 0;
    let mut frames: Vec<FrameInfo> = Vec::new();
    proof {
        assert(data.len() == data@.len());
        assert(w.fed() =~= d.take(0));
        assert(frames@ + complete_from(d, 0) =~= complete_frames(d));
    }
    loop
        invariant
            d == data@,
            d.len() <= usize::MAX,
            chunk >= 8,
            w.wf(),
            w.held() < chunk + MAX_FRAME_BYTES,
            read <= d.len(),
            w.fed() == d.take(read as int),
            w.ended() ==> read == d.len(),
            0 <= w.at() <= w.fed().len(),
            frames@ + complete_from(d, w.at()) == complete_frames(d),
        ensures
            frames@ == complete_frames(d),
        decreases
            (if w.ended() {
                0int
            } else {
                1
            }),
            d.len() - read,
            d.len() - w.at(),
    {
        let ghost at = w.at();
        proof {
            lemma_prefix(d, read as int, at);
            if w.ended() {
                assert(d.take(d.len() as int) =~= d);
            }
        }
        match w.step() {
            Event::More => {
                read = feed_next(&mut w, data, read, chunk);
            },
            Event::Frame(info, _) => {
                let ghost before = frames@;
                frames.push(info);
                assert(before + (seq![info] + complete_from(d, at + info.size)) =~= frames@
                    + complete_from(d, at + info.size));
            },
            Event::Gap(_) => {
                proof {
                    lemma_gap(d, read as int, at, w.at());
                }
            },
            Event::Rest(_) => {},
            Event::Done => {
                assert(frames@ + Seq::<FrameInfo>::empty() =~= frames@);
                break ;
            },
        }
    }
    frames
}

/// As [`parse_frames_io_chunked`], with the usual read granularity.
pub fn parse_frames_io(data: &[u8]) -> (frames: Vec<FrameInfo>)
    ensures
        frames@ == complete_frames(data@),
{
    parse_frames_io_chunked(data, READ_BYTES)
}

/// Frames without a last one that ends behind the first `len` bytes.
pub open spec fn whole_frames(frames: Seq<FrameInfo>, len: int) -> Seq<FrameInfo> {
    if frames.len() > 0 && frames.last().offset + frames.last().size > len {
        frames.drop_last()
    } else {
        frames
    }
}

/// The streamed walk finds the frames that `parse_frames` finds, but for a last one that is cut off.
pub proof fn law_streamed_frames(data: Seq<u8>)
    requires
        data.len() <= usize::MAX,
    ensures
        complete_frames(data) == whole_frames(eac3::frames_of(data), data.len() as int),
        all_complete(data) ==> complete_frames(data) == eac3::frames_of(data),
{
    lemma_streamed_from(data, 0);
}

/// Transforming frames as they come gives what transforming each frame that `parse_frames` finds
/// gives, but for a last one that is cut off.
pub proof fn law_streamed_transform(data: Seq<u8>, made: Seq<Vec<u8>>)
    requires
        data.len() <= usize::MAX,
    ensures
        transformed(data, made) == rebuilt(
            data,
            whole_frames(eac3::frames_of(data), data.len() as int),
            Seq::new(made.len(), |i: int| made[i]@),
        ),
{
    law_streamed_frames(data);
}

proof fn lemma_streamed_from(data: Seq<u8>, off: int)
    requires
        0 <= off,
        data.len() <= usize::MAX,
    ensures
        complete_from(data, off) == whole_frames(eac3::frames_from(data, off), data.len() as int),
    decreases
        (if off < data.len() {
            data.len() - off
        } else {
            0
        }),
{
    if off + 2 <= data.len() {
        eac3::lemma_next_sync(data, off);
        eac3::lemma_next_sync(data, off + 1);
        if !eac3::sync_at(data, off) {
            assert(eac3::next_sync(data, off) == eac3::next_sync(data, off + 1));
            match eac3::next_sync(data, off) {
                Some(p) => {
                    if off + 6 <= data.len() {
                        lemma_streamed_from(data, p);
                    } else {
                        assert(found_at(data, p) == Found::Nothing);
                        assert(complete_from(data, p) == Seq::<FrameInfo>::empty());
                    }
                },
                None => {},
            }
        } else if off + 6 <= data.len() {
            eac3::lemma_header_size(bits::bits_of(data.subrange(off, off + 6)), off);
            let f = eac3::header_at(data, off);
            let all = eac3::frames_from(data, off);
            let rest = eac3::frames_from(data, off + f.size);
            assert(all == seq![f] + rest);
            if off + f.size <= data.len() {
                lemma_streamed_from(data, off + f.size);
                lemma_whole_cons(f, rest, data.len() as int);
            } else {
                assert(rest =~= Seq::empty());
                assert(all.last() == f);
                assert(all.drop_last() =~= Seq::empty());
            }
        }
    }
}

proof fn lemma_whole_cons(f: FrameInfo, rest: Seq<FrameInfo>, len: int)
    requires
        f.offset + f.size <= len,
    ensures
        whole_frames(seq![f] + rest, len) == seq![f] + whole_frames(rest, len),
{
    let all = seq![f] + rest;
    if rest.len() > 0 {
        assert(all.last() == rest.last());
        assert(all.drop_last() =~= seq![f] + rest.drop_last());
    } else {
        assert(all.last() == f);
        assert(all =~= seq![f] + whole_frames(rest, len));
    }
}

/// The frames of a streamed walk lie in the stream, one behind the other, so replacing each by itself
/// gives the stream back.
pub proof fn law_streamed_identity(data: Seq<u8>, made: Seq<Vec<u8>>)
    requires
        data.len() <= usize::MAX,
        made.len() == complete_frames(data).len(),
        forall|i: int|
            0 <= i < made.len() ==> (#[trigger] made[i])@ == frame_bytes_of(
                data,
                complete_frames(data)[i],
            ),
    ensures
        transformed(data, made) == data,
{
    let fs = complete_frames(data);
    lemma_complete_order(data, 0);
    assert(in_order(fs, data.len() as int));
    law_identity(data, fs, Seq::new(made.len(), |i: int| made[i]@));
}

proof fn lemma_complete_order(data: Seq<u8>, at: int)
    requires
        0 <= at,
        data.len() <= usize::MAX,
    ensures
        ordered_from(complete_from(data, at), at, data.len() as int),
        fit(complete_from(data, at), data.len() as int),
    decreases
        (if at < data.len() {
            data.len() - at
        } else {
            0
        }),
{
    match found_at(data, at) {
        Found::Nothing => {},
        Found::Gap(p) => {
            eac3::lemma_next_sync(data, at);
            lemma_complete_order(data, p);
        },
        Found::Frame(f) => {
            eac3::lemma_header_size(bits::bits_of(data.subrange(at, at + 6)), at);
            let all = complete_from(data, at);
            let rest = complete_from(data, at + f.size);
            lemma_complete_order(data, at + f.size);
            lemma_ordered_cons(f, rest, at, data.len() as int);
            assert forall|i: int| 0 <= i < all.len() implies (#[trigger] all[i]).offset
                + all[i].size <= data.len() by {
                if i > 0 {
                    assert(all[i] == rest[i - 1]);
                }
            }
        },
    }
}

// ------------------------------------------------------------------ frames of a rebuilt stream

/// Bytes that are one whole frame: they start with a syncword, and their header says their length.
pub open spec fn is_frame(b: Seq<u8>) -> bool {
    &&& b.len() >= 8
    &&& eac3::sync_at(b, 0)
    &&& eac3::header_at(b, 0).size == b.len()
}

/// The stream from byte `off` on, with its frames from the `k`-th on replaced.
pub open spec fn rebuilt_tail(
    data: Seq<u8>,
    frames: Seq<FrameInfo>,
    outs: Seq<Seq<u8>>,
    off: int,
    k: nat,
) -> Seq<u8>
    decreases frames.len() - k,
{
    if k >= frames.len() {
        data.skip(off)
    } else {
        data.subrange(off, frames[k as int].offset as int) + outs[k as int] + rebuilt_tail(
            data,
            frames,
            outs,
            frames[k as int].offset + frames[k as int].size,
            k + 1,
        )
    }
}

proof fn lemma_rebuilt_tail(data: Seq<u8>, frames: Seq<FrameInfo>, outs: Seq<Seq<u8>>, k: nat)
    requires
        k <= frames.len(),
    ensures
        rebuilt(data, frames, outs) == rebuilt_upto(data, frames, outs, k) + rebuilt_tail(
            data,
            frames,
            outs,
            cursor(frames, k),
            k,
        ),
    decreases frames.len() - k,
{
    if k < frames.len() {
        lemma_rebuilt_tail(data, frames, outs, k + 1);
        let off = cursor(frames, k);
        let f = frames[k as int];
        let gap = data.subrange(off, f.offset as int);
        let rest = rebuilt_tail(data, frames, outs, f.offset + f.size, k + 1);
        let upto = rebuilt_upto(data, frames, outs, k);
        assert(upto + gap + outs[k as int] + rest =~= upto + (gap + outs[k as int] + rest));
    }
}

/// Syncwords are a matter of the bytes from a place on.
proof fn lemma_shifted_sync(a: Seq<u8>, p: int, b: Seq<u8>, q: int)
    requires
        0 <= p <= a.len(),
        0 <= q <= b.len(),
        a.skip(p) == b.skip(q),
    ensures
        eac3::sync_at(a, p) == eac3::sync_at(b, q),
        a.len() - p == b.len() - q,
{
    assert(a.skip(p).len() == a.len() - p);
    assert(b.skip(q).len() == b.len() - q);
    if p + 2 <= a.len() {
        assert(a[p] == a.skip(p)[0] && a[p + 1] == a.skip(p)[1]);
        assert(b[q] == b.skip(q)[0] && b[q + 1] == b.skip(q)[1]);
    }
}

proof fn lemma_shifted_next(a: Seq<u8>, p: int, b: Seq<u8>, q: int)
    requires
        0 <= p <= a.len(),
        0 <= q <= b.len(),
        a.skip(p) == b.skip(q),
    ensures
        eac3::next_sync(a, p) is Some == eac3::next_sync(b, q) is Some,
        eac3::next_sync(a, p) matches Some(x) ==> eac3::next_sync(b, q) == Some(x - p + q),
    decreases a.len() - p,
{
    lemma_shifted_sync(a, p, b, q);
    if p + 2 <= a.len() {
        assert(a.skip(p + 1) =~= a.skip(p).skip(1));
        assert(b.skip(q + 1) =~= b.skip(q).skip(1));
        lemma_shifted_next(a, p + 1, b, q + 1);
    }
}

/// So are frames.
proof fn lemma_shifted(a: Seq<u8>, p: int, b: Seq<u8>, q: int)
    requires
        0 <= p <= a.len(),
        0 <= q <= b.len(),
        a.skip(p) == b.skip(q),
        a.len() <= usize::MAX,
        b.len() <= usize::MAX,
    ensures
        eac3::frames_from(a, p).len() == eac3::frames_from(b, q).len(),
        forall|i: int|
            0 <= i < eac3::frames_from(a, p).len() ==> (#[trigger] eac3::frames_from(a, p)[i]).offset
                + eac3::frames_from(a, p)[i].size - a.len() == eac3::frames_from(b, q)[i].offset
                + eac3::frames_from(b, q)[i].size - b.len(),
    decreases a.len() - p,
{
    lemma_shifted_sync(a, p, b, q);
    if p + 6 <= a.len() {
        if eac3::sync_at(a, p) {
            assert(a.subrange(p, p + 6) =~= a.skip(p).subrange(0, 6));
            assert(b.subrange(q, q + 6) =~= b.skip(q).subrange(0, 6));
            eac3::lemma_header_size(bits::bits_of(a.subrange(p, p + 6)), p);
            let n = eac3::header_at(a, p).size as int;
            assert(eac3::header_at(b, q).size == n);
            let x = eac3::header_at(a, p);
            let y = eac3::header_at(b, q);
            assert(x.offset == p && y.offset == q);
            assert(eac3::frames_from(a, p) == seq![x] + eac3::frames_from(a, p + n));
            assert(eac3::frames_from(b, q) == seq![y] + eac3::frames_from(b, q + n));
            if p + n <= a.len() {
                assert(a.skip(p + n) =~= a.skip(p).skip(n));
                assert(b.skip(q + n) =~= b.skip(q).skip(n));
                lemma_shifted(a, p + n, b, q + n);
                lemma_same_ends(
                    x,
                    eac3::frames_from(a, p + n),
                    a.len() as int,
                    y,
                    eac3::frames_from(b, q + n),
                    b.len() as int,
                );
            } else {
                assert(eac3::frames_from(a, p + n) =~= Seq::empty());
                assert(eac3::frames_from(b, q + n) =~= Seq::empty());
            }
        } else {
            assert(a.skip(p + 1) =~= a.skip(p).skip(1));
            assert(b.skip(q + 1) =~= b.skip(q).skip(1));
            lemma_shifted_next(a, p + 1, b, q + 1);
            eac3::lemma_next_sync(a, p + 1);
            if let Some(x) = eac3::next_sync(a, p + 1) {
                let y = x - p + q;
                assert(a.skip(x) =~= a.skip(p).skip(x - p));
                assert(b.skip(y) =~= b.skip(q).skip(x - p));
                lemma_shifted(a, x, b, y);
            }
        }
    }
}

proof fn lemma_same_ends(
    x: FrameInfo,
    xs: Seq<FrameInfo>,
    m: int,
    y: FrameInfo,
    ys: Seq<FrameInfo>,
    n: int,
)
    requires
        xs.len() == ys.len(),
        x.offset + x.size - m == y.offset + y.size - n,
        forall|i: int|
            0 <= i < xs.len() ==> (#[trigger] xs[i]).offset + xs[i].size - m == ys[i].offset + ys[i].size - n,
    ensures
        forall|i: int|
            0 <= i < (seq![x] + xs).len() ==> (#[trigger] (seq![x] + xs)[i]).offset + (seq![x] + xs)[i].size
                - m == (seq![y] + ys)[i].offset + (seq![y] + ys)[i].size - n,
{
    let a = seq![x] + xs;
    let b = seq![y] + ys;
    assert forall|i: int| 0 <= i < a.len() implies (#[trigger] a[i]).offset + a[i].size - m == b[i].offset
        + b[i].size - n by {
        if i > 0 {
            assert(a[i] == xs[i - 1] && b[i] == ys[i - 1]);
        }
    }
}

/// Up to the next syncword of `data` there is none in a stream that has the same bytes there, and a
/// frame behind them.
proof fn lemma_gap_sync(n: Seq<u8>, p: int, data: Seq<u8>, off: int, q: int, i: int)
    requires
        0 <= p,
        0 <= off <= i <= q,
        q + 2 <= data.len(),
        p + (q - off) + 2 <= n.len(),
        forall|k: int| off <= k < q ==> #[trigger] data[k] == n[p + (k - off)],
        eac3::sync_at(data, q),
        eac3::sync_at(n, p + (q - off)),
        forall|k: int| i <= k < q ==> !#[trigger] eac3::sync_at(data, k),
    ensures
        eac3::next_sync(n, p + (i - off)) == Some(p + (q - off)),
        i < q ==> !eac3::sync_at(n, p + (i - off)),
    decreases q - i,
{
    if i < q {
        lemma_gap_sync(n, p, data, off, q, i + 1);
        assert(!eac3::sync_at(data, i));
        assert(data[i] == n[p + (i - off)]);
        if i + 1 < q {
            assert(data[i + 1] == n[p + (i + 1 - off)]);
        } else {
            assert(p + (i + 1 - off) == p + (q - off));
        }
    }
}

/// Where the stream from `p` on is the rebuilt tail of `data` from `off` on, its frames there are the
/// replacements, and behind them `extra` frames that end where those of `data` do.
proof fn lemma_tail_frames(
    n: Seq<u8>,
    p: int,
    data: Seq<u8>,
    off: int,
    frames: Seq<FrameInfo>,
    extra: Seq<FrameInfo>,
    outs: Seq<Seq<u8>>,
    k: nat,
)
    requires
        0 <= p <= n.len() <= usize::MAX,
        0 <= off <= data.len() <= usize::MAX,
        k <= frames.len(),
        outs.len() == frames.len(),
        eac3::frames_from(data, off) == frames.skip(k as int) + extra,
        fit(frames, data.len() as int),
        forall|i: int| 0 <= i < outs.len() ==> is_frame(#[trigger] outs[i]),
        n.skip(p) == rebuilt_tail(data, frames, outs, off, k),
    ensures
        eac3::frames_from(n, p).len() == frames.len() - k + extra.len(),
        forall|i: int|
            0 <= i < frames.len() - k ==> {
                let f = #[trigger] eac3::frames_from(n, p)[i];
                &&& f.offset + f.size <= n.len()
                &&& frame_bytes_of(n, f) == outs[k + i]
            },
        forall|i: int|
            frames.len() - k <= i < eac3::frames_from(n, p).len() ==> {
                let f = #[trigger] eac3::frames_from(n, p)[i];
                let g = extra[i - (frames.len() - k)];
                f.offset + f.size - n.len() == g.offset + g.size - data.len()
            },
    decreases frames.len() - k,
{
    let all = eac3::frames_from(n, p);
    if k == frames.len() {
        lemma_shifted(n, p, data, off);
        assert(frames.skip(k as int) + extra =~= extra);
    } else {
        let f = frames[k as int];
        let out = outs[k as int];
        assert((frames.skip(k as int) + extra)[0] == f);
        lemma_first_frame(data, off);
        let q = f.offset as int;
        let end = q + f.size;
        let rest = rebuilt_tail(data, frames, outs, end, k + 1);
        let gap = data.subrange(off, q);
        let p2 = p + (q - off);
        let p3 = p2 + out.len();
        lemma_layout(n, p, gap, out, rest);
        assert(is_frame(out));
        lemma_placed_frame(n, p2, out);
        assert forall|j: int| off <= j < q implies #[trigger] data[j] == n[p + (j - off)] by {
            assert(gap[j - off] == data[j]);
        }
        lemma_behind_frame(data, off, frames, extra, k);
        assert(f.offset + f.size <= data.len());
        lemma_tail_frames(n, p3, data, end, frames, extra, outs, k + 1);
        if off < q {
            lemma_gap_sync(n, p, data, off, q, off);
            lemma_gap_sync(n, p, data, off, q, off + 1);
        }
        let g = eac3::header_at(n, p2);
        let later = eac3::frames_from(n, p3);
        assert(all == seq![g] + later);
        assert forall|i: int| 0 <= i < frames.len() - k implies {
            let x = #[trigger] all[i];
            &&& x.offset + x.size <= n.len()
            &&& frame_bytes_of(n, x) == outs[k + i]
        } by {
            if i > 0 {
                assert(all[i] == later[i - 1]);
            }
        }
        assert forall|i: int| frames.len() - k <= i < all.len() implies {
            let x = #[trigger] all[i];
            let y = extra[i - (frames.len() - k)];
            x.offset + x.size - n.len() == y.offset + y.size - data.len()
        } by {
            assert(all[i] == later[i - 1]);
        }
    }
}

/// Three pieces stand one behind the other.
proof fn lemma_layout(n: Seq<u8>, p: int, gap: Seq<u8>, out: Seq<u8>, rest: Seq<u8>)
    requires
        0 <= p <= n.len(),
        n.skip(p) == gap + out + rest,
    ensures
        ({
            let p2 = p + gap.len();
            let p3 = p2 + out.len();
            &&& p3 <= n.len()
            &&& forall|j: int| 0 <= j < gap.len() ==> #[trigger] gap[j] == n[p + j]
            &&& n.subrange(p2, p3) == out
            &&& n.skip(p3) == rest
        }),
{
    let p2 = p + gap.len();
    let p3 = p2 + out.len();
    let t = n.skip(p);
    assert(t.len() == n.len() - p);
    assert forall|j: int| 0 <= j < gap.len() implies #[trigger] gap[j] == n[p + j] by {
        assert(t[j] == n[p + j]);
    }
    assert(n.subrange(p2, p3) =~= t.subrange(gap.len() as int, (gap.len() + out.len()) as int));
    assert(t.subrange(gap.len() as int, (gap.len() + out.len()) as int) =~= out);
    assert(n.skip(p3) =~= t.skip((gap.len() + out.len()) as int));
    assert(t.skip((gap.len() + out.len()) as int) =~= rest);
}

/// A frame that stands in a stream is found there.
proof fn lemma_placed_frame(n: Seq<u8>, p: int, out: Seq<u8>)
    requires
        0 <= p,
        p + out.len() <= n.len() <= usize::MAX,
        is_frame(out),
        n.subrange(p, p + out.len()) == out,
    ensures
        eac3::sync_at(n, p),
        eac3::header_at(n, p).size == out.len(),
        eac3::header_at(n, p).offset == p,
        eac3::frames_from(n, p) == seq![eac3::header_at(n, p)] + eac3::frames_from(n, p + out.len()),
{
    let t = n.subrange(p, p + out.len());
    assert(n[p] == t[0] && n[p + 1] == t[1]);
    assert(n.subrange(p, p + 6) =~= t.subrange(0, 6));
}

/// Where the first frame from `off` on stands: at `off`, or at the next syncword.
proof fn lemma_first_frame(data: Seq<u8>, off: int)
    requires
        0 <= off <= data.len() <= usize::MAX,
        eac3::frames_from(data, off).len() > 0,
    ensures
        ({
            let f = eac3::frames_from(data, off)[0];
            let q = f.offset as int;
            &&& off <= q
            &&& q + 6 <= data.len()
            &&& eac3::sync_at(data, q)
            &&& f == eac3::header_at(data, q)
            &&& eac3::frames_from(data, off) == seq![f] + eac3::frames_from(data, q + f.size)
            &&& forall|k: int| off <= k < q ==> !#[trigger] eac3::sync_at(data, k)
        }),
    decreases data.len() - off,
{
    if !eac3::sync_at(data, off) {
        eac3::lemma_next_sync(data, off + 1);
        match eac3::next_sync(data, off + 1) {
            Some(p) => {
                lemma_first_frame(data, p);
                let q = eac3::frames_from(data, p)[0].offset as int;
                assert(q == p) by {
                    if q > p {
                        assert(!eac3::sync_at(data, p));
                    }
                }
            },
            None => {},
        }
    }
}

proof fn lemma_behind_frame(
    data: Seq<u8>,
    off: int,
    frames: Seq<FrameInfo>,
    extra: Seq<FrameInfo>,
    k: nat,
)
    requires
        0 <= off <= data.len() <= usize::MAX,
        k < frames.len(),
        eac3::frames_from(data, off) == frames.skip(k as int) + extra,
    ensures
        eac3::frames_from(data, frames[k as int].offset + frames[k as int].size) == frames.skip(k as int + 1)
            + extra,
{
    let f = frames[k as int];
    assert((frames.skip(k as int) + extra)[0] == f);
    lemma_first_frame(data, off);
    let rest = eac3::frames_from(data, f.offset + f.size);
    assert((seq![f] + rest).skip(1) =~= rest);
    assert((frames.skip(k as int) + extra).skip(1) =~= frames.skip(k as int + 1) + extra);
}

/// A stream whose complete frames are replaced by frames has as many frames as before, and the complete
/// ones are the replacements.
pub proof fn law_rebuilt_frames(data: Seq<u8>, outs: Seq<Seq<u8>>)
    requires
        data.len() <= usize::MAX,
        outs.len() == complete_frames(data).len(),
        forall|i: int| 0 <= i < outs.len() ==> is_frame(#[trigger] outs[i]),
        rebuilt(data, complete_frames(data), outs).len() <= usize::MAX,
    ensures
        ({
            let n = rebuilt(data, complete_frames(data), outs);
            &&& eac3::frames_of(n).len() == eac3::frames_of(data).len()
            &&& complete_frames(n).len() == complete_frames(data).len()
            &&& forall|i: int|
                0 <= i < outs.len() ==> frame_bytes_of(n, #[trigger] complete_frames(n)[i]) == outs[i]
        }),
{
    let fs = complete_frames(data);
    let n = rebuilt(data, fs, outs);
    let gs = eac3::frames_of(n);
    law_streamed_frames(n);
    lemma_rebuilt_all(data, outs);
    assert forall|i: int| 0 <= i < outs.len() implies frame_bytes_of(n, #[trigger] complete_frames(n)[i])
        == outs[i] by {
        assert(complete_frames(n)[i] == gs[i]);
    }
}

/// All frames of a rebuilt stream.
proof fn lemma_rebuilt_all(data: Seq<u8>, outs: Seq<Seq<u8>>)
    requires
        data.len() <= usize::MAX,
        outs.len() == complete_frames(data).len(),
        forall|i: int| 0 <= i < outs.len() ==> is_frame(#[trigger] outs[i]),
        rebuilt(data, complete_frames(data), outs).len() <= usize::MAX,
    ensures
        ({
            let n = rebuilt(data, complete_frames(data), outs);
            let gs = eac3::frames_of(n);
            &&& gs.len() == eac3::frames_of(data).len()
            &&& outs.len() <= gs.len()
            &&& whole_frames(gs, n.len() as int) == gs.take(outs.len() as int)
            &&& forall|i: int| 0 <= i < outs.len() ==> frame_bytes_of(n, #[trigger] gs[i]) == outs[i]
        }),
{
    let all = eac3::frames_of(data);
    let fs = complete_frames(data);
    let n = rebuilt(data, fs, outs);
    let gs = eac3::frames_of(n);
    law_streamed_frames(data);
    lemma_complete_order(data, 0);
    let extra = all.skip(fs.len() as int);
    assert(all =~= fs.skip(0) + extra);
    lemma_rebuilt_tail(data, fs, outs, 0);
    let tail = rebuilt_tail(data, fs, outs, 0, 0);
    assert(rebuilt_upto(data, fs, outs, 0) + tail =~= tail);
    assert(n.skip(0) =~= n);
    lemma_tail_frames(n, 0, data, 0, fs, extra, outs, 0);
    assert(gs == eac3::frames_from(n, 0));
    assert forall|i: int| 0 <= i < outs.len() implies (#[trigger] gs[i]).offset + gs[i].size <= n.len()
        && frame_bytes_of(n, gs[i]) == outs[i] by {
        assert(frame_bytes_of(n, eac3::frames_from(n, 0)[i]) == outs[0 + i]);
    }
    assert forall|i: int| fs.len() <= i < gs.len() implies (#[trigger] gs[i]).offset + gs[i].size - n.len()
        == all[i].offset + all[i].size - data.len() by {
        assert(extra[i - fs.len()] == all[i]);
    }
    lemma_whole_take(gs, n.len() as int, all, data.len() as int, fs.len());
}

/// Frames that end where others do are cut off where these are.
proof fn lemma_whole_take(gs: Seq<FrameInfo>, n: int, all: Seq<FrameInfo>, m: int, count: nat)
    requires
        gs.len() == all.len(),
        whole_frames(all, m).len() == count,
        forall|i: int| 0 <= i < count ==> (#[trigger] gs[i]).offset + gs[i].size <= n,
        forall|i: int|
            count <= i < gs.len() ==> (#[trigger] gs[i]).offset + gs[i].size - n == all[i].offset
                + all[i].size - m,
    ensures
        whole_frames(gs, n) == gs.take(count as int),
{
    if gs.len() > 0 {
        let k = gs.len() - 1;
        assert(gs.last() == gs[k] && all.last() == all[k]);
        assert(gs.drop_last() =~= gs.take(k));
    }
    assert(gs.take(gs.len() as int) =~= gs);
}

/// The bytes of a frame of at least eight bytes are a frame.
proof fn lemma_frame_is_frame(data: Seq<u8>, f: FrameInfo)
    requires
        f.size >= 8,
        f.offset + f.size <= data.len(),
        eac3::sync_at(data, f.offset as int),
        f == eac3::header_at(data, f.offset as int),
    ensures
        is_frame(frame_bytes_of(data, f)),
{
    let b = frame_bytes_of(data, f);
    let p = f.offset as int;
    assert(b[0] == data[p] && b[1] == data[p + 1]);
    assert(b.subrange(0, 6) =~= data.subrange(p, p + 6));
}

/// The header of the first six bytes is the header of the bytes.
pub proof fn lemma_head_bytes(b: Seq<u8>)
    requires
        b.len() >= 6,
    ensures
        eac3::header_at(b, 0) == eac3::header_bits(bits::bits_of(b), 0),
{
    let head = bits::bits_of(b.subrange(0, 6));
    let s = bits::bits_of(b);
    bits::lemma_bits_subrange(b, 0, 6);
    assert forall|i: int| 0 <= i < 48 implies #[trigger] bits::bit(s, i) == bits::bit(head, i) by {
        assert(head[i] == s.subrange(0, 48)[i]);
    }
    inject::lemma_same_header(s, head, 48, 0);
}

/// A frame with a payload in its auxiliary data is a frame.
proof fn lemma_injected_is_frame(frame: Seq<u8>, outcome: Option<(Vec<u8>, usize)>)
    requires
        is_frame(frame),
        frame.len() <= MAX_FRAME_BYTES,
        outcome matches Some((payload, n)) ==> n == 0 || (n <= 8 * payload@.len()
            && inject::frame_bytes(inject::aux_need(8 * frame.len() as int, n as int))
            <= MAX_FRAME_BYTES),
    ensures
        is_frame(injected(frame, outcome)),
{
    if let Some((payload, n)) = outcome {
        if n > 0 {
            let s = bits::bits_of(frame);
            let p = bits::bits_of(payload@).take(n as int);
            let out = inject::sealed(inject::aux_frame(s, p));
            let b = bits::pack(out);
            let size = inject::frame_bytes(inject::aux_need(s.len() as int, p.len() as int));
            inject::law_aux_keeps_audio(s, p, 0);
            bits::lemma_pack_bits(out);
            assert(out.len() == 8 * size);
            assert(bits::bits_of(b) =~= out);
            assert(b.len() == size);
            lemma_head_bytes(b);
            bits::lemma_bits_subrange(frame, 0, 2);
            bits::lemma_bits_subrange(b, 0, 2);
            assert(out.take(16) =~= out.subrange(0, 16));
            assert(s.take(16) =~= s.subrange(0, 16));
            bits::lemma_pack_of_bits(frame.subrange(0, 2));
            bits::lemma_pack_of_bits(b.subrange(0, 2));
            assert(b.subrange(0, 2) == frame.subrange(0, 2));
            assert(b[0] == b.subrange(0, 2)[0] && b[1] == b.subrange(0, 2)[1]);
            assert(frame[0] == frame.subrange(0, 2)[0] && frame[1] == frame.subrange(0, 2)[1]);
        }
    }
}

/// Injection keeps the number of frames, and each complete frame of the new stream carries its payload:
/// reading its auxiliary data gives it back.
pub proof fn law_injected_frames(data: Seq<u8>, outcomes: Seq<Option<(Vec<u8>, usize)>>)
    requires
        data.len() <= usize::MAX,
        outcomes.len() == complete_frames(data).len(),
        forall|i: int|
            0 <= i < complete_frames(data).len() ==> (#[trigger] complete_frames(data)[i]).size >= 8
                && outcome_ok(complete_frames(data)[i], outcomes[i]),
        injected_stream(data, outcomes).len() <= usize::MAX,
    ensures
        ({
            let n = injected_stream(data, outcomes);
            &&& eac3::frames_of(n).len() == eac3::frames_of(data).len()
            &&& complete_frames(n).len() == complete_frames(data).len()
            &&& forall|i: int|
                0 <= i < outcomes.len() ==> frame_bytes_of(n, #[trigger] complete_frames(n)[i])
                    == injected(frame_bytes_of(data, complete_frames(data)[i]), outcomes[i])
            &&& forall|i: int|
                0 <= i < outcomes.len() && (#[trigger] outcomes[i] matches Some((payload, bits)) && 0
                    < bits < 16384) ==> inject::aux_of(
                    bits::bits_of(frame_bytes_of(n, complete_frames(n)[i])),
                ) == Some(bits::bits_of((outcomes[i]->0).0@).take((outcomes[i]->0).1 as int))
        }),
{
    let fs = complete_frames(data);
    let outs = Seq::new(
        outcomes.len(),
        |i: int| injected(frame_bytes_of(data, fs[i]), outcomes[i]),
    );
    lemma_complete_order(data, 0);
    assert forall|i: int| 0 <= i < outs.len() implies is_frame(#[trigger] outs[i]) by {
        assert(fs[i].size >= 8 && outcome_ok(fs[i], outcomes[i]));
        lemma_nth_complete(data, i);
        lemma_frame_is_frame(data, fs[i]);
        lemma_injected_is_frame(frame_bytes_of(data, fs[i]), outcomes[i]);
    }
    law_rebuilt_frames(data, outs);
    let n = injected_stream(data, outcomes);
    assert forall|i: int| 0 <= i < outcomes.len() implies frame_bytes_of(
        n,
        #[trigger] complete_frames(n)[i],
    ) == injected(frame_bytes_of(data, complete_frames(data)[i]), outcomes[i]) by {
        assert(outs[i] == injected(frame_bytes_of(data, fs[i]), outcomes[i]));
    }
    assert forall|i: int|
        0 <= i < outcomes.len() && (#[trigger] outcomes[i] matches Some((payload, bits)) && 0 < bits
            < 16384) implies inject::aux_of(bits::bits_of(frame_bytes_of(n, complete_frames(n)[i]))) == Some(
        bits::bits_of((outcomes[i]->0).0@).take((outcomes[i]->0).1 as int),
    ) by {
        assert(fs[i].size >= 8 && outcome_ok(fs[i], outcomes[i]));
        assert(fs[i].offset + fs[i].size <= data.len());
        assert(frame_bytes_of(n, complete_frames(n)[i]) == injected(
            frame_bytes_of(data, complete_frames(data)[i]),
            outcomes[i],
        ));
        lemma_injected_aux(frame_bytes_of(data, fs[i]), outcomes[i]);
    }
}

/// Each complete frame starts with a syncword, and is what its header says.
proof fn lemma_nth_complete(data: Seq<u8>, i: int)
    requires
        data.len() <= usize::MAX,
        0 <= i < complete_frames(data).len(),
    ensures
        ({
            let f = complete_frames(data)[i];
            eac3::sync_at(data, f.offset as int) && f == eac3::header_at(data, f.offset as int)
        }),
{
    law_streamed_frames(data);
    lemma_complete_order(data, 0);
    let all = eac3::frames_of(data);
    assert(complete_frames(data)[i] == all[i]);
    assert forall|k: int| 0 <= k < i implies (#[trigger] all[k]).offset + all[k].size <= data.len() by {
        assert(complete_frames(data)[k] == all[k]);
    }
    lemma_nth_frame(data, 0, i);
}

/// Bits that fill their bytes are the bits of these bytes.
proof fn lemma_whole_bytes(out: Seq<bool>)
    requires
        out.len() % 8 == 0,
    ensures
        bits::bits_of(bits::pack(out)) == out,
{
    bits::lemma_pack_bits(out);
    assert(bits::bits_of(bits::pack(out)) =~= out);
}

/// The auxiliary data of a frame with a payload in it is the payload.
proof fn lemma_injected_aux(frame: Seq<u8>, outcome: Option<(Vec<u8>, usize)>)
    requires
        8 <= frame.len(),
        outcome matches Some((payload, n)) && 0 < n < 16384 && n <= 8 * payload@.len(),
    ensures
        inject::aux_of(bits::bits_of(injected(frame, outcome))) == Some(
            bits::bits_of((outcome->0).0@).take((outcome->0).1 as int),
        ),
{
    let s = bits::bits_of(frame);
    let p = bits::bits_of((outcome->0).0@).take((outcome->0).1 as int);
    inject::lemma_aux_size(s, p);
    lemma_whole_bytes(inject::sealed(inject::aux_frame(s, p)));
    inject::law_aux_roundtrip(s, p);
}

/// Each frame that is found starts with a syncword, and is what its header says.
proof fn lemma_nth_frame(data: Seq<u8>, off: int, i: int)
    requires
        0 <= off <= data.len() <= usize::MAX,
        0 <= i < eac3::frames_from(data, off).len(),
        forall|k: int|
            0 <= k < i ==> (#[trigger] eac3::frames_from(data, off)[k]).offset + eac3::frames_from(
                data,
                off,
            )[k].size <= data.len(),
    ensures
        ({
            let f = eac3::frames_from(data, off)[i];
            eac3::sync_at(data, f.offset as int) && f == eac3::header_at(data, f.offset as int)
        }),
    decreases i,
{
    lemma_first_frame(data, off);
    let all = eac3::frames_from(data, off);
    let f = all[0];
    if i > 0 {
        let rest = eac3::frames_from(data, f.offset + f.size);
        assert(all[i] == rest[i - 1]);
        assert(all[0] == f);
        assert forall|k: int| 0 <= k < i - 1 implies (#[trigger] rest[k]).offset + rest[k].size
            <= data.len() by {
            assert(all[k + 1] == rest[k]);
        }
        lemma_nth_frame(data, f.offset + f.size, i - 1);
    }
}

/// A frame of a stream is a frame by itself, with the same header.
pub proof fn lemma_frame_alone(data: Seq<u8>, i: int)
    requires
        data.len() <= usize::MAX,
        0 <= i < complete_frames(data).len(),
        complete_frames(data)[i].size >= 8,
    ensures
        ({
            let f = complete_frames(data)[i];
            let b = frame_bytes_of(data, f);
            &&& is_frame(b)
            &&& b.len() == f.size
            &&& f == (FrameInfo { offset: f.offset, ..eac3::header_at(b, 0) })
        }),
{
    let f = complete_frames(data)[i];
    let b = frame_bytes_of(data, f);
    lemma_complete_order(data, 0);
    assert(f.offset + f.size <= data.len());
    lemma_nth_complete(data, i);
    lemma_frame_is_frame(data, f);
    assert(b.subrange(0, 6) =~= data.subrange(f.offset as int, f.offset + 6));
}

} // verus!
