//! The integer side of rendering: samples, headers and timelines.

use crate::eac3::FrameInfo;
use vstd::prelude::*;

verus! {

// ------------------------------------------------------------------ samples and headers

/// The value of a 24-bit big-endian two's complement sample.
pub open spec fn sample24(b: Seq<u8>) -> int {
    let v = 65536 * b[0] + 256 * b[1] + b[2];
    if v < 0x80_0000 {
        v
    } else {
        v - 0x100_0000
    }
}

/// A 24-bit big-endian PCM sample; full scale is 2^23.
pub fn s24be(b: &[u8]) -> (v: i32)
    requires
        b@.len() >= 3,
    ensures
        v == sample24(b@),
        -0x80_0000 <= v < 0x80_0000,
{
    let v: i32 = b[0] as i32 * 65536 + b[1] as i32 * 256 + b[2] as i32;
    if v < 0x80_0000 {
        v
    } else {
        v - 0x100_0000
    }
}

/// The low `n` bytes of `v`, least significant first.
pub open spec fn le(v: nat, n: nat) -> Seq<u8>
    decreases n,
{
    if n == 0 {
        Seq::empty()
    } else {
        seq![(v % 256) as u8] + le(v / 256, (n - 1) as nat)
    }
}

/// Bits of a sample.
pub const WAV_BITS: u16 = 32;

/// Bytes of a frame of `channels` samples.
pub open spec fn block_align(channels: int) -> int {
    channels * WAV_BITS / 8
}

/// A WAVE_FORMAT_EXTENSIBLE / IEEE-float / 5.1 header for `size` bytes of data.
pub open spec fn wav_header(channels: u16, sample_rate: u32, size: nat) -> Seq<u8> {
    let align = block_align(channels as int) as nat;
    seq![0x52u8, 0x49, 0x46, 0x46] + le((60 + size) as nat, 4) + seq![
        0x57u8,
        0x41,
        0x56,
        0x45,
    ] + seq![0x66u8, 0x6D, 0x74, 0x20] + le(40, 4) + le(0xFFFE, 2) + le(channels as nat, 2) + le(
        sample_rate as nat,
        4,
    ) + le((sample_rate * align) as nat, 4) + le(align, 2) + le(WAV_BITS as nat, 2) + le(22, 2) + le(
        WAV_BITS as nat,
        2,
    ) + le(0x3F, 4) + seq![
        0x03u8,
        0x00,
        0x00,
        0x00,
        0x00,
        0x00,
        0x10,
        0x00,
        0x80,
        0x00,
        0x00,
        0xAA,
        0x00,
        0x38,
        0x9B,
        0x71,
    ] + seq![0x64u8, 0x61, 0x74, 0x61] + le(size, 4)
}

fn push_le16(w: &mut Vec<u8>, v: u16)
    ensures
        final(w)@ == old(w)@ + le(v as nat, 2),
{
    proof {
        reveal_with_fuel(le, 3);
    }
    w.push((v % 256) as u8);
    w.push((v / 256) as u8);
    assert(w@ =~= old(w)@ + le(v as nat, 2));
}

fn push_le32(w: &mut Vec<u8>, v: u32)
    ensures
        final(w)@ == old(w)@ + le(v as nat, 4),
{
    proof {
        reveal_with_fuel(le, 5);
    }
    w.push((v % 256) as u8);
    w.push((v / 256 % 256) as u8);
    w.push((v / 256 / 256 % 256) as u8);
    w.push((v / 256 / 256 / 256 % 256) as u8);
    assert(w@ =~= old(w)@ + le(v as nat, 4));
}

fn push4(w: &mut Vec<u8>, a: u8, b: u8, c: u8, d: u8)
    ensures
        final(w)@ == old(w)@ + seq![a, b, c, d],
{
    w.push(a);
    w.push(b);
    w.push(c);
    w.push(d);
    assert(w@ =~= old(w)@ + seq![a, b, c, d]);
}

/// Minimal WAVE_FORMAT_EXTENSIBLE / IEEE-float / 5.1 header (sizes known up front). None if the output
/// is too large for a WAV file.
pub fn write_wav_header(channels: u16, sample_rate: u32, frames: u64) -> (r: Option<Vec<u8>>)
    requires
        channels * WAV_BITS <= u16::MAX,
        sample_rate * block_align(channels as int) <= u32::MAX,
        frames * block_align(channels as int) <= u64::MAX - 60,
    ensures
        r is Some == (frames * block_align(channels as int) + 60 < u32::MAX),
        r matches Some(h) ==> h@ == wav_header(
            channels,
            sample_rate,
            (frames * block_align(channels as int)) as nat,
        ),
{
    let align: u16 = channels * WAV_BITS / 8;
    assert(align == block_align(channels as int));
    let byte_rate: u32 = sample_rate * align as u32;
    let size: u64 = frames * align as u64;
    if size + 60 >= u32::MAX as u64 {
        return None;
    }
    let mut w: Vec<u8> = Vec::new();
    push4(&mut w, 0x52, 0x49, 0x46, 0x46);  // RIFF
    push_le32(&mut w, (60 + size) as u32);
    push4(&mut w, 0x57, 0x41, 0x56, 0x45);  // WAVE
    push4(&mut w, 0x66, 0x6D, 0x74, 0x20);  // fmt
    push_le32(&mut w, 40);
    push_le16(&mut w, 0xFFFE);  // WAVE_FORMAT_EXTENSIBLE
    push_le16(&mut w, channels);
    push_le32(&mut w, sample_rate);
    push_le32(&mut w, byte_rate);
    push_le16(&mut w, align);
    push_le16(&mut w, WAV_BITS);
    push_le16(&mut w, 22);  // cbSize
    push_le16(&mut w, WAV_BITS);  // wValidBitsPerSample
    push_le32(&mut w, 0x3F);  // 5.1 channel mask: FL FR FC LFE BL BR
    // SubFormat GUID: KSDATAFORMAT_SUBTYPE_IEEE_FLOAT
    let ghost before = w@;
    push4(&mut w, 0x03, 0x00, 0x00, 0x00);
    push4(&mut w, 0x00, 0x00, 0x10, 0x00);
    push4(&mut w, 0x80, 0x00, 0x00, 0xAA);
    push4(&mut w, 0x00, 0x38, 0x9B, 0x71);
    assert(w@ =~= before + seq![
        0x03u8,
        0x00,
        0x00,
        0x00,
        0x00,
        0x00,
        0x10,
        0x00,
        0x80,
        0x00,
        0x00,
        0xAA,
        0x00,
        0x38,
        0x9B,
        0x71,
    ]);
    push4(&mut w, 0x64, 0x61, 0x74, 0x61);  // data
    push_le32(&mut w, size as u32);
    assert(w@ =~= wav_header(channels, sample_rate, size as nat));
    Some(w)
}

// ------------------------------------------------------------------ timelines

/// Where a sample lies among keyframes.
#[derive(Clone, Copy, PartialEq, Eq, Structural, Debug)]
pub enum Span {
    /// There are no keyframes.
    Empty,
    /// At this keyframe's value.
    At(usize),
    /// From this keyframe to the next one, after `num` of `den` samples.
    Between { from: usize, num: u64, den: u64 },
}

/// `idx` parts the keyframes: the one in front of it is not behind `t`, the one at it is.
pub open spec fn parts(keys: Seq<u64>, t: u64, idx: int) -> bool {
    &&& 0 <= idx <= keys.len()
    &&& idx > 0 ==> keys[idx - 1] <= t
    &&& idx < keys.len() ==> keys[idx] > t
}

/// Keyframes in order.
pub open spec fn in_order(keys: Seq<u64>) -> bool {
    forall|i: int, j: int| 0 <= i <= j < keys.len() ==> keys[i] <= keys[j]
}

/// The span that `idx`, the number of keyframes up to `t`, stands for: before the first keyframe its
/// value holds, behind the last one the last one's, between two of them the value is interpolated.
pub open spec fn span_of(keys: Seq<u64>, t: u64, idx: int) -> Span {
    if keys.len() == 0 {
        Span::Empty
    } else if idx == 0 {
        Span::At(0)
    } else if idx < keys.len() && keys[idx] > keys[idx - 1] {
        Span::Between {
            from: (idx - 1) as usize,
            num: (t - keys[idx - 1]) as u64,
            den: (keys[idx] - keys[idx - 1]) as u64,
        }
    } else {
        Span::At((idx - 1) as usize)
    }
}

/// The number of keyframes up to `t`, by bisection.
fn partition_point(keys: &Vec<u64>, t: u64) -> (idx: usize)
    ensures
        parts(keys@, t, idx as int),
{
    let mut lo: usize = 0;
    let mut hi: usize = keys.len();
    while lo < hi
        invariant
            lo <= hi <= keys@.len(),
            lo > 0 ==> keys@[lo - 1] <= t,
            hi < keys@.len() ==> keys@[hi as int] > t,
        decreases hi - lo,
    {
        let mid = lo + (hi - lo) / 2;
        if keys[mid] <= t {
            lo = mid + 1;
        } else {
            hi = mid;
        }
    }
    lo
}

/// Where sample `t` lies among the keyframes.
pub fn span_at(keys: &Vec<u64>, t: u64) -> (s: Span)
    ensures
        exists|idx: int| parts(keys@, t, idx) && #[trigger] span_of(keys@, t, idx) == s,
{
    let idx = partition_point(keys, t);
    assert(parts(keys@, t, idx as int));
    let s = if keys.len() == 0 {
        Span::Empty
    } else if idx == 0 {
        Span::At(0)
    } else if idx < keys.len() && keys[idx] > keys[idx - 1] {
        Span::Between { from: idx - 1, num: t - keys[idx - 1], den: keys[idx] - keys[idx - 1] }
    } else {
        Span::At(idx - 1)
    };
    assert(span_of(keys@, t, idx as int) == s);
    s
}

/// Among keyframes in order, a sample has one place.
pub proof fn law_one_place(keys: Seq<u64>, t: u64, i: int, j: int)
    requires
        in_order(keys),
        parts(keys, t, i),
        parts(keys, t, j),
    ensures
        i == j,
{
    if i < j {
        assert(keys[i] <= keys[j - 1]);
    } else if j < i {
        assert(keys[j] <= keys[i - 1]);
    }
}

/// An interpolated value lies between two neighbours, not beyond the second one.
pub proof fn law_span_in_range(keys: Seq<u64>, t: u64, idx: int)
    requires
        keys.len() <= usize::MAX,
        parts(keys, t, idx),
    ensures
        span_of(keys, t, idx) matches Span::Between { from, num, den } ==> from + 1 < keys.len() && num
            < den,
        span_of(keys, t, idx) matches Span::At(k) ==> k < keys.len(),
{
}

/// The first keyframe from `cursor` on whose successor is behind `t`.
pub open spec fn advanced(keys: Seq<u64>, cursor: int, t: u64) -> int
    decreases keys.len() - cursor,
{
    if cursor + 1 < keys.len() && keys[cursor + 1] <= t {
        advanced(keys, cursor + 1, t)
    } else {
        cursor
    }
}

/// Advances a cursor over the keyframes to sample `t`, and says where `t` lies from there. Samples come
/// in increasing order, so the cursor never goes back.
pub fn advance(keys: &Vec<u64>, cursor: usize, t: u64) -> (r: (usize, Span))
    requires
        cursor < keys@.len(),
        ({
            let c = advanced(keys@, cursor as int, t);
            c + 1 < keys@.len() && keys@[c + 1] > keys@[c] ==> keys@[c] <= t
        }),
    ensures
        r.0 == advanced(keys@, cursor as int, t),
        cursor <= r.0 < keys@.len(),
        r.1 == span_of(keys@, t, r.0 + 1),
{
    let mut c: usize = cursor;
    while c + 1 < keys.len() && keys[c + 1] <= t
        invariant
            cursor <= c < keys.len(),
            advanced(keys@, cursor as int, t) == advanced(keys@, c as int, t),
        decreases keys@.len() - c,
    {
        c = c + 1;
    }
    let s = if c + 1 < keys.len() && keys[c + 1] > keys[c] {
        Span::Between { from: c, num: t - keys[c], den: keys[c + 1] - keys[c] }
    } else {
        Span::At(c)
    };
    (c, s)
}

/// A cursor that is not ahead of a sample comes to a place that parts the keyframes there, as the search
/// does.
pub proof fn law_cursor_place(keys: Seq<u64>, cursor: int, t: u64)
    requires
        0 <= cursor < keys.len(),
        keys[cursor] <= t,
    ensures
        parts(keys, t, advanced(keys, cursor, t) + 1),
    decreases keys.len() - cursor,
{
    if cursor + 1 < keys.len() && keys[cursor + 1] <= t {
        law_cursor_place(keys, cursor + 1, t);
    }
}

// ------------------------------------------------------------------ the frame grid

/// Samples of the independent frames among the first `n`.
pub open spec fn samples_before(frames: Seq<FrameInfo>, n: nat) -> int
    decreases n,
{
    if n == 0 {
        0
    } else {
        samples_before(frames, (n - 1) as nat) + (if frames[n - 1].strmtyp == 0 {
            frames[n - 1].blocks * 256
        } else {
            0
        })
    }
}

proof fn lemma_samples_bound(frames: Seq<FrameInfo>, n: nat)
    ensures
        0 <= samples_before(frames, n) <= 0x1_0000 * n,
    decreases n,
{
    if n > 0 {
        lemma_samples_bound(frames, (n - 1) as nat);
    }
}

/// The start sample of each frame. Only independent frames take time.
pub fn start_samples(frames: &Vec<FrameInfo>) -> (starts: Vec<u64>)
    requires
        frames@.len() <= 0x1_0000_0000_0000,
    ensures
        starts@.len() == frames@.len(),
        forall|i: int|
            0 <= i < frames@.len() ==> #[trigger] starts@[i] == samples_before(frames@, i as nat),
        forall|i: int| 0 <= i < frames@.len() ==> #[trigger] starts@[i] <= 0x1_0000 * i,
{
    let mut starts: Vec<u64> = Vec::with_capacity(frames.len());
    let mut acc: u64 = 0;
    let mut i: usize = 0;
    while i < frames.len()
        invariant
            i <= frames@.len() <= 0x1_0000_0000_0000,
            acc == samples_before(frames@, i as nat),
            acc <= 0x1_0000 * i,
            starts@.len() == i,
            forall|k: int| 0 <= k < i ==> #[trigger] starts@[k] == samples_before(frames@, k as nat),
            forall|k: int| 0 <= k < i ==> #[trigger] starts@[k] <= 0x1_0000 * k,
        decreases frames@.len() - i,
    {
        proof {
            lemma_samples_bound(frames@, (i + 1) as nat);
        }
        starts.push(acc);
        if frames[i].strmtyp == 0 {
            acc = acc + frames[i].samples() as u64;
        }
        i = i + 1;
    }
    starts
}

/// The first frame from `fi` on whose successor starts behind sample `t`.
pub open spec fn frame_of(starts: Seq<u64>, fi: int, t: u64) -> int
    decreases starts.len() - fi,
{
    if fi + 1 < starts.len() && t >= starts[fi + 1] {
        frame_of(starts, fi + 1, t)
    } else {
        fi
    }
}

/// The frame that sample `t` falls into, from frame `fi` on. None behind the end of that frame.
pub fn bin_of(starts: &Vec<u64>, frames: &Vec<FrameInfo>, fi: usize, t: u64) -> (r: Option<usize>)
    requires
        fi < starts@.len(),
        starts@.len() == frames@.len(),
        forall|i: int| 0 <= i < starts@.len() ==> #[trigger] starts@[i] <= u64::MAX - 0x1_0000,
    ensures
        r == ({
            let k = frame_of(starts@, fi as int, t);
            if t >= starts@[k] + frames@[k].blocks * 256 {
                None
            } else {
                Some(k as usize)
            }
        }),
        r matches Some(k) ==> fi <= k < starts@.len(),
{
    let mut k: usize = fi;
    while k + 1 < starts.len() && t >= starts[k + 1]
        invariant
            fi <= k < starts.len(),
            starts@.len() == frames@.len(),
            frame_of(starts@, fi as int, t) == frame_of(starts@, k as int, t),
        decreases starts@.len() - k,
    {
        k = k + 1;
    }
    assert(starts@[k as int] <= u64::MAX - 0x1_0000);
    if t >= starts[k] + frames[k].samples() as u64 {
        None
    } else {
        Some(k)
    }
}

} // verus!
