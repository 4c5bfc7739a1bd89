//! What samples, headers, timelines and counts mean.

use crate::eac3::FrameInfo;
use crate::render;
use crate::render::Span;
use crate::tally;
use vstd::prelude::*;

verus! {

// ------------------------------------------------------------------ samples and headers

/// A sample of 24 bits reads back from its bytes in two's complement, most significant first.
pub proof fn law_sample(v: int)
    requires
        -8388608 <= v < 8388608,
    ensures
        ({
            let u = if v < 0 {
                v + 16777216
            } else {
                v
            };
            render::sample24(seq![(u / 65536) as u8, (u / 256 % 256) as u8, (u % 256) as u8]) == v
        }),
{
    let u = if v < 0 {
        v + 16777216
    } else {
        v
    };
    assert(65536 * (u / 65536) + 256 * (u / 256 % 256) + u % 256 == u);
}

/// The number that the `n` bytes of `h` from `at` on stand for, least significant first.
pub open spec fn number(h: Seq<u8>, at: int, n: nat) -> int
    decreases n,
{
    if n == 0 {
        0
    } else {
        h[at] + 256 * number(h, at + 1, (n - 1) as nat)
    }
}

proof fn lemma_number_ext(a: Seq<u8>, p: int, b: Seq<u8>, q: int, n: nat)
    requires
        forall|i: int| 0 <= i < n ==> a[#[trigger] (p + i)] == b[q + i],
    ensures
        number(a, p, n) == number(b, q, n),
    decreases n,
{
    if n > 0 {
        assert(a[p + 0] == b[q + 0]);
        assert forall|i: int| 0 <= i < n - 1 implies a[#[trigger] (p + 1 + i)] == b[q + 1 + i] by {
            assert(a[p + (i + 1)] == b[q + (i + 1)]);
        }
        lemma_number_ext(a, p + 1, b, q + 1, (n - 1) as nat);
    }
}

pub open spec fn range256(n: nat) -> nat
    decreases n,
{
    if n == 0 {
        1
    } else {
        256 * range256((n - 1) as nat)
    }
}

/// A number reads back from its bytes, least significant first.
pub proof fn law_le(v: nat, n: nat)
    requires
        v < range256(n),
    ensures
        render::le(v, n).len() == n,
        number(render::le(v, n), 0, n) == v,
    decreases n,
{
    if n > 0 {
        let m = (n - 1) as nat;
        law_le(v / 256, m);
        let all = render::le(v, n);
        let more = render::le(v / 256, m);
        assert forall|i: int| 0 <= i < m implies all[#[trigger] (1 + i)] == more[0 + i] by {}
        lemma_number_ext(all, 1, more, 0, m);
    }
}

proof fn lemma_le_at(h: Seq<u8>, at: int, v: nat, n: nat)
    requires
        v < range256(n),
        0 <= at,
        at + n <= h.len(),
        h.subrange(at, at + n) == render::le(v, n),
    ensures
        number(h, at, n) == v,
{
    law_le(v, n);
    let b = render::le(v, n);
    assert forall|i: int| 0 <= i < n implies h[#[trigger] (at + i)] == b[0 + i] by {
        assert(h.subrange(at, at + n)[i] == h[at + i]);
    }
    lemma_number_ext(h, at, b, 0, n);
}

/// The lengths of little-endian numbers.
proof fn lemma_le_len(v: nat, n: nat)
    ensures
        render::le(v, n).len() == n,
    decreases n,
{
    if n > 0 {
        lemma_le_len(v / 256, (n - 1) as nat);
    }
}

/// A header has 68 bytes; its first size is that of the file behind it, its last one that of the data; in
/// between stand the channels, the sample rate, the bytes of a second and of a frame, and the bits of a
/// sample, which is a float of 32 bits.
#[verifier::spinoff_prover]
#[verifier::rlimit(40)]
pub proof fn law_wav_header(channels: u16, rate: u32, size: nat)
    requires
        channels <= 2047,
        rate * (4 * channels) < 0x1_0000_0000,
        size + 60 < 0x1_0000_0000,
    ensures
        ({
            let h = render::wav_header(channels, rate, size);
            &&& h.len() == 68
            &&& h.subrange(0, 4) == seq![0x52u8, 0x49, 0x46, 0x46]
            &&& number(h, 4, 4) == h.len() + size - 8
            &&& h.subrange(8, 16) == seq![0x57u8, 0x41, 0x56, 0x45, 0x66, 0x6D, 0x74, 0x20]
            &&& number(h, 16, 4) == 60 - 20
            &&& number(h, 20, 2) == 0xFFFE
            &&& number(h, 22, 2) == channels
            &&& number(h, 24, 4) == rate
            &&& number(h, 28, 4) == rate * number(h, 32, 2)
            &&& number(h, 32, 2) == 4 * channels
            &&& number(h, 34, 2) == 32
            &&& number(h, 36, 2) == 22
            &&& number(h, 38, 2) == 32
            &&& number(h, 40, 4) == 63
            &&& h[44] == 3
            &&& h.subrange(60, 64) == seq![0x64u8, 0x61, 0x74, 0x61]
            &&& number(h, 64, 4) == size
        }),
{
    let h = render::wav_header(channels, rate, size);
    let align = (4 * channels) as nat;
    reveal_with_fuel(range256, 5);
    assert(render::block_align(channels as int) == align);
    assert(rate * align < 0x1_0000_0000);
    lemma_le_len(60 + size, 4);
    lemma_le_len(40, 4);
    lemma_le_len(0xFFFE, 2);
    lemma_le_len(channels as nat, 2);
    lemma_le_len(rate as nat, 4);
    lemma_le_len((rate * align) as nat, 4);
    lemma_le_len(align, 2);
    lemma_le_len(32, 2);
    lemma_le_len(22, 2);
    lemma_le_len(0x3F, 4);
    lemma_le_len(size, 4);
    assert(h.subrange(0, 4) =~= seq![0x52u8, 0x49, 0x46, 0x46]);
    assert(h.subrange(4, 8) =~= render::le(60 + size, 4));
    assert(h.subrange(8, 16) =~= seq![0x57u8, 0x41, 0x56, 0x45, 0x66, 0x6D, 0x74, 0x20]);
    assert(h.subrange(16, 20) =~= render::le(40, 4));
    assert(h.subrange(20, 22) =~= render::le(0xFFFE, 2));
    assert(h.subrange(22, 24) =~= render::le(channels as nat, 2));
    assert(h.subrange(24, 28) =~= render::le(rate as nat, 4));
    assert(h.subrange(28, 32) =~= render::le((rate * align) as nat, 4));
    assert(h.subrange(32, 34) =~= render::le(align, 2));
    assert(h.subrange(34, 36) =~= render::le(32, 2));
    assert(h.subrange(36, 38) =~= render::le(22, 2));
    assert(h.subrange(38, 40) =~= render::le(32, 2));
    assert(h.subrange(40, 44) =~= render::le(0x3F, 4));
    assert(h.subrange(60, 64) =~= seq![0x64u8, 0x61, 0x74, 0x61]);
    assert(h.subrange(64, 68) =~= render::le(size, 4));
    lemma_le_at(h, 4, 60 + size, 4);
    lemma_le_at(h, 16, 40, 4);
    lemma_le_at(h, 20, 0xFFFE, 2);
    lemma_le_at(h, 22, channels as nat, 2);
    lemma_le_at(h, 24, rate as nat, 4);
    lemma_le_at(h, 28, (rate * align) as nat, 4);
    lemma_le_at(h, 32, align, 2);
    lemma_le_at(h, 34, 32, 2);
    lemma_le_at(h, 36, 22, 2);
    lemma_le_at(h, 38, 32, 2);
    lemma_le_at(h, 40, 0x3F, 4);
    lemma_le_at(h, 64, size, 4);
}

// ------------------------------------------------------------------ timelines

/// A place between keyframes is a part of the way from one to the next: the part and the whole are the
/// samples from the first keyframe to the sample and to the second one. A place at a keyframe is behind
/// the last one, or in front of the first.
pub proof fn law_span(keys: Seq<u64>, t: u64, idx: int)
    requires
        keys.len() <= usize::MAX,
        render::parts(keys, t, idx),
    ensures
        render::span_of(keys, t, idx) is Empty <==> keys.len() == 0,
        render::span_of(keys, t, idx) matches Span::Between { from, num, den } ==> {
            &&& from + 1 < keys.len()
            &&& keys[from as int] + num == t
            &&& keys[from as int] + den == keys[from + 1]
            &&& keys[from as int] <= t < keys[from + 1]
        },
        render::span_of(keys, t, idx) matches Span::At(k) ==> (k == 0 && t < keys[0]) || (k + 1
            == keys.len() && keys[k as int] <= t),
{
}

/// A sample at a keyframe that another one follows is at the beginning of the way between them.
pub proof fn law_span_starts(keys: Seq<u64>, k: int)
    requires
        keys.len() <= usize::MAX,
        0 <= k,
        k + 1 < keys.len(),
        keys[k] < keys[k + 1],
    ensures
        render::parts(keys, keys[k], k + 1),
        render::span_of(keys, keys[k], k + 1) == (Span::Between {
            from: k as usize,
            num: 0,
            den: (keys[k + 1] - keys[k]) as u64,
        }),
{
}

/// A cursor goes past exactly the keyframes up to the sample: those it passed are not behind it, and the
/// next one is.
pub proof fn law_advanced(keys: Seq<u64>, cursor: int, t: u64, i: int)
    requires
        0 <= cursor < keys.len(),
    ensures
        cursor <= render::advanced(keys, cursor, t) < keys.len(),
        cursor < i <= render::advanced(keys, cursor, t) ==> keys[i] <= t,
        render::advanced(keys, cursor, t) + 1 < keys.len() ==> keys[render::advanced(keys, cursor, t)
            + 1] > t,
    decreases keys.len() - cursor,
{
    if cursor + 1 < keys.len() && keys[cursor + 1] <= t {
        law_advanced(keys, cursor + 1, t, i);
    }
}

/// A frame takes 256 samples for each of its blocks, where it is independent, and no time otherwise.
pub proof fn law_frame_time(frames: Seq<FrameInfo>, n: nat)
    requires
        n < frames.len(),
    ensures
        render::samples_before(frames, 0) == 0,
        render::samples_before(frames, n + 1) - render::samples_before(frames, n) == (
        if frames[n as int].strmtyp == 0 {
            256 * frames[n as int].blocks as int
        } else {
            0
        }),
{
}

/// The frame that a sample falls into starts at it or before it, and the next one behind it.
pub proof fn law_frame_of(starts: Seq<u64>, fi: int, t: u64)
    requires
        0 <= fi < starts.len(),
        starts[fi] <= t,
    ensures
        ({
            let k = render::frame_of(starts, fi, t);
            &&& fi <= k < starts.len()
            &&& starts[k] <= t
            &&& k + 1 < starts.len() ==> t < starts[k + 1]
        }),
    decreases starts.len() - fi,
{
    if fi + 1 < starts.len() && t >= starts[fi + 1] {
        law_frame_of(starts, fi + 1, t);
    }
}

// ------------------------------------------------------------------ counting

/// A key is counted as often as it occurs.
pub proof fn law_count(keys: Seq<u32>, k: u32)
    ensures
        tally::count_of(keys, k) == keys.to_multiset().count(k),
    decreases keys.len(),
{
    broadcast use vstd::seq_lib::group_to_multiset_ensures;

    if keys.len() > 0 {
        law_count(keys.drop_last(), k);
        assert(keys =~= keys.drop_last().push(keys.last()));
    }
}

/// The sum of some counts.
pub open spec fn sum(counts: Seq<(u32, usize)>) -> nat
    decreases counts.len(),
{
    if counts.len() == 0 {
        0
    } else {
        sum(counts.drop_last()) + counts.last().1 as nat
    }
}

/// How many keys are below `k`.
pub open spec fn below(keys: Seq<u32>, k: int) -> nat
    decreases keys.len(),
{
    if keys.len() == 0 {
        0
    } else {
        below(keys.drop_last(), k) + (if keys.last() < k {
            1nat
        } else {
            0
        })
    }
}

proof fn lemma_below_step(keys: Seq<u32>, k: u32)
    ensures
        below(keys, k + 1) == below(keys, k as int) + tally::count_of(keys, k),
    decreases keys.len(),
{
    if keys.len() > 0 {
        lemma_below_step(keys.drop_last(), k);
    }
}

/// Where no key lies from `a` up to `b`, as many are below `b` as are below `a`.
proof fn lemma_below_gap(keys: Seq<u32>, a: int, b: int)
    requires
        a <= b,
        forall|i: int| 0 <= i < keys.len() ==> !(a <= #[trigger] keys[i] < b),
    ensures
        below(keys, a) == below(keys, b),
    decreases keys.len(),
{
    if keys.len() > 0 {
        let t = keys.drop_last();
        assert forall|i: int| 0 <= i < t.len() implies !(a <= #[trigger] t[i] < b) by {
            assert(t[i] == keys[i]);
        }
        let last = keys[keys.len() - 1];
        assert(!(a <= last < b));
        lemma_below_gap(t, a, b);
    }
}

proof fn lemma_count_pos(keys: Seq<u32>, i: int)
    requires
        0 <= i < keys.len(),
    ensures
        tally::count_of(keys, keys[i]) > 0,
    decreases keys.len(),
{
    if i < keys.len() - 1 {
        lemma_count_pos(keys.drop_last(), i);
    }
}

proof fn lemma_below_all(keys: Seq<u32>)
    ensures
        below(keys, 0x1_0000_0000) == keys.len(),
        below(keys, 0) == 0,
    decreases keys.len(),
{
    if keys.len() > 0 {
        lemma_below_all(keys.drop_last());
    }
}

proof fn lemma_sum_below(counts: Seq<(u32, usize)>, keys: Seq<u32>, n: int)
    requires
        tally::counts_ok(counts, keys),
        0 <= n <= counts.len(),
    ensures
        sum(counts.take(n)) == below(
            keys,
            if n < counts.len() {
                counts[n].0 as int
            } else {
                0x1_0000_0000
            },
        ),
    decreases n,
{
    let to = if n < counts.len() {
        counts[n].0 as int
    } else {
        0x1_0000_0000
    };
    let from = if n == 0 {
        0
    } else {
        counts[n - 1].0 + 1
    };
    assert forall|i: int| 0 <= i < keys.len() implies !(from <= #[trigger] keys[i] < to) by {
        lemma_count_pos(keys, i);
        let j = choose|j: int| 0 <= j < counts.len() && (#[trigger] counts[j]).0 == keys[i];
        if j < n - 1 {
            assert(counts[j].0 < counts[n - 1].0);
        } else if j > n {
            assert(counts[n].0 < counts[j].0);
        }
    }
    if n > 0 && n < counts.len() {
        assert(counts[n - 1].0 < counts[n].0);
    }
    lemma_below_gap(keys, from, to);
    if n > 0 {
        lemma_sum_below(counts, keys, n - 1);
        assert(counts.take(n).drop_last() =~= counts.take(n - 1));
        assert(counts.take(n).last() == counts[n - 1]);
        lemma_below_step(keys, counts[n - 1].0);
    } else {
        lemma_below_all(keys);
    }
}

/// The counts of all keys add up to the number of keys: none is left out, and none counted twice.
pub proof fn law_counts_total(counts: Seq<(u32, usize)>, keys: Seq<u32>)
    requires
        tally::counts_ok(counts, keys),
    ensures
        sum(counts) == keys.len(),
{
    lemma_sum_below(counts, keys, counts.len() as int);
    lemma_below_all(keys);
    assert(counts.take(counts.len() as int) =~= counts);
}

} // verus!
