//! What the passes over a stream add up and collect.

use crate::atmos;
use crate::atmos::Carriage;
use crate::bits;
use crate::eac3::FrameInfo;
use crate::emdf;
use crate::joc;
use crate::joc::{JocError, JocTables};
use crate::oamd;
use crate::oamd::ObjectCode;
use crate::passes;
use crate::protect::EmdfProtector;
use vstd::prelude::*;

verus! {

// ------------------------------------------------------------------ counts

/// How many of the numbers below `n` have a property.
pub open spec fn how_many(p: spec_fn(int) -> bool, n: nat) -> nat
    decreases n,
{
    if n == 0 {
        0
    } else if p(n - 1) {
        how_many(p, (n - 1) as nat) + 1
    } else {
        how_many(p, (n - 1) as nat)
    }
}

/// It is the size of the set of those numbers.
pub proof fn law_how_many(p: spec_fn(int) -> bool, n: nat)
    ensures
        ({
            let s = Set::new(|i: int| 0 <= i < n && p(i));
            s.finite() && s.len() == how_many(p, n)
        }),
    decreases n,
{
    let s = Set::new(|i: int| 0 <= i < n && p(i));
    if n == 0 {
        assert(s =~= Set::empty());
    } else {
        law_how_many(p, (n - 1) as nat);
        let t = Set::new(|i: int| 0 <= i < n - 1 && p(i));
        if p(n - 1) {
            assert(s =~= t.insert(n - 1));
        } else {
            assert(s =~= t);
        }
    }
}

/// More numbers have no fewer with the property.
pub proof fn lemma_how_many_step(p: spec_fn(int) -> bool, i: nat, n: nat)
    requires
        i <= n,
    ensures
        how_many(p, i) <= how_many(p, n),
        i < n && p(i as int) ==> how_many(p, i) < how_many(p, n),
    decreases n,
{
    if i < n {
        lemma_how_many_step(p, i, (n - 1) as nat);
    }
}

/// The signals are counted frame by frame.
pub proof fn law_signal_counts(data: Seq<u8>, frames: Seq<FrameInfo>, n: nat)
    ensures
        ({
            let g = |i: int| atmos::signals_of(passes::frame_bits(data, frames, i), frames[i]);
            passes::signal_counts(data, frames, n) == (
                how_many(|i: int| g(i).flag, n),
                how_many(|i: int| g(i).aux, n),
                how_many(|i: int| g(i).oamd, n),
                how_many(|i: int| g(i).joc, n),
            )
        }),
    decreases n,
{
    if n > 0 {
        law_signal_counts(data, frames, (n - 1) as nat);
    }
}

/// The frames that have what they should are counted one by one.
pub proof fn law_check_counts(
    t: JocTables,
    data: Seq<u8>,
    frames: Seq<FrameInfo>,
    objects: int,
    dynamic: int,
    n: nat,
)
    ensures
        ({
            let s = |i: int| passes::frame_bits(data, frames, i);
            passes::check_counts(t, data, frames, objects, dynamic, n) == (
                how_many(|i: int| atmos::flag_ok(s(i), frames[i], objects), n),
                how_many(|i: int| atmos::oamd_ok(s(i), objects), n),
                how_many(|i: int| atmos::joc_ok(t, s(i), dynamic), n),
            )
        }),
    decreases n,
{
    if n > 0 {
        law_check_counts(t, data, frames, objects, dynamic, (n - 1) as nat);
    }
}

/// Frames with OAMD in their auxiliary data are counted, and those among them that have what they
/// should.
pub proof fn law_aux_counts(data: Seq<u8>, frames: Seq<FrameInfo>, objects: int, n: nat)
    ensures
        ({
            let k = |i: int| atmos::aux_oamd_ok(passes::frame_bits(data, frames, i), objects);
            passes::aux_counts(data, frames, objects, n) == (
                how_many(|i: int| k(i) is Some, n),
                how_many(|i: int| k(i) == Some(true), n),
            )
        }),
        passes::aux_counts(data, frames, objects, n).1 <= passes::aux_counts(data, frames, objects, n).0
            <= n,
    decreases n,
{
    if n > 0 {
        law_aux_counts(data, frames, objects, (n - 1) as nat);
    }
}

/// Every walk is counted once: those that end 18 bits in front of the frame's end, those that end
/// somewhere else, and those that cannot be made.
pub proof fn law_walk_counts(data: Seq<u8>, frames: Seq<FrameInfo>, n: nat)
    ensures
        ({
            let w = |i: int| atmos::frame_blocks(passes::frame_bits(data, frames, i), frames[i]);
            let c = passes::walk_counts(data, frames, n);
            &&& c.0 == how_many(|i: int| w(i) is Some && w(i)->0.pos + 18 == 8 * frames[i].size, n)
            &&& c.2 == how_many(|i: int| w(i) is None, n)
            &&& c.0 + c.1 + c.2 == n
        }),
    decreases n,
{
    if n > 0 {
        law_walk_counts(data, frames, (n - 1) as nat);
    }
}

/// The frames that get another EMDF are counted.
pub proof fn law_graft_count(
    core: Seq<u8>,
    frames: Seq<FrameInfo>,
    mine: Seq<u8>,
    my_frames: Seq<FrameInfo>,
    complexity: Option<u8>,
    n: nat,
)
    requires
        n <= frames.len(),
    ensures
        passes::graft_count(core, frames, mine, my_frames, complexity, n) == how_many(
            |i: int|
                i < my_frames.len() && atmos::grafted(
                    passes::frame_bits(core, frames, i),
                    frames[i],
                    passes::frame_bits(mine, my_frames, i),
                    complexity,
                ) is Some,
            n,
        ),
    decreases n,
{
    if n > 0 {
        law_graft_count(core, frames, mine, my_frames, complexity, (n - 1) as nat);
    }
}

/// The frames that carry their items in a skip field are counted.
pub proof fn law_skip_count(data: Seq<u8>, frames: Seq<FrameInfo>, items: Seq<(Vec<u8>, Vec<u8>)>, n: nat)
    ensures
        passes::skip_count(data, frames, items, n) == how_many(
            |i: int| passes::item_carriage(data, frames, items, i) == Carriage::SkipField,
            n,
        ),
    decreases n,
{
    if n > 0 {
        law_skip_count(data, frames, items, (n - 1) as nat);
    }
}

// ------------------------------------------------------------------ turns

/// Items and payloads are used in turn: the first ones as they come, and all again behind the last.
pub proof fn law_turns(items: Seq<(Vec<u8>, Vec<u8>)>, payloads: Seq<Vec<u8>>, i: int)
    requires
        0 <= i,
    ensures
        i < items.len() ==> passes::item_of(items, i) == (items[i].0@, items[i].1@),
        items.len() > 0 ==> passes::item_of(items, i + items.len()) == passes::item_of(items, i),
        i < payloads.len() ==> passes::payload_of(payloads, i) == payloads[i]@,
        payloads.len() > 0 ==> passes::payload_of(payloads, i + payloads.len()) == passes::payload_of(
            payloads,
            i,
        ),
{
    if items.len() > 0 {
        lemma_turn(i, items.len() as int);
    }
    if payloads.len() > 0 {
        lemma_turn(i, payloads.len() as int);
    }
}

proof fn lemma_turn(i: int, n: int)
    requires
        0 <= i,
        n > 0,
    ensures
        (i + n) % n == i % n,
        i < n ==> i % n == i,
{
    vstd::arithmetic::div_mod::lemma_mod_add_multiples_vanish(i, n);
    if i < n {
        vstd::arithmetic::div_mod::lemma_small_mod(i as nat, n as nat);
    }
}

/// A payload fits a frame of 6 bytes or more where, with 14 bits more, it leaves it within 4096 bytes; and
/// no payload fits every frame.
pub proof fn law_payload_fits(frames: Seq<FrameInfo>, payloads: Seq<Vec<u8>>, i: int)
    ensures
        passes::payload_fits(frames, payloads, i) <==> passes::payload_of(payloads, i).len() == 0 || (
        frames[i].size >= 6 && 8 * frames[i].size + 8 * passes::payload_of(payloads, i).len() + 14
            <= 32768),
{
}

// ------------------------------------------------------------------ collections

/// The references of a stream are those of its frames, in order: a frame that has one puts it behind
/// those of the frames before it, and there are no others.
pub proof fn law_references(data: Seq<u8>, frames: Seq<FrameInfo>, n: nat, i: int)
    requires
        0 <= i < n,
    ensures
        ({
            let r = |k: int| atmos::reference_of(passes::frame_bits(data, frames, k), frames[k]);
            let has = |k: int| r(k) is Some;
            let all = passes::references_upto(data, frames, n);
            &&& all.len() == how_many(has, n)
            &&& r(i) is Some ==> how_many(has, i as nat) < all.len() && all[how_many(has, i as nat) as int]
                == r(i)->0
        }),
    decreases n,
{
    let r = |k: int| atmos::reference_of(passes::frame_bits(data, frames, k), frames[k]);
    let has = |k: int| r(k) is Some;
    lemma_references_len(data, frames, n);
    lemma_references_len(data, frames, (n - 1) as nat);
    if i < n - 1 {
        law_references(data, frames, (n - 1) as nat, i);
        lemma_how_many_step(has, i as nat, (n - 1) as nat);
    }
}

proof fn lemma_references_len(data: Seq<u8>, frames: Seq<FrameInfo>, n: nat)
    ensures
        ({
            let r = |k: int| atmos::reference_of(passes::frame_bits(data, frames, k), frames[k]);
            passes::references_upto(data, frames, n).len() == how_many(|k: int| r(k) is Some, n)
        }),
    decreases n,
{
    if n > 0 {
        lemma_references_len(data, frames, (n - 1) as nat);
    }
}

/// The first containers of a stream are those of its first frames that have one: such a frame is listed
/// behind those before it, as long as there are not enough, and there are no others.
pub proof fn law_containers(data: Seq<u8>, frames: Seq<FrameInfo>, n: nat, k: nat, i: int)
    requires
        0 <= i < k <= usize::MAX,
    ensures
        ({
            let has = |j: int| atmos::emdf_in(passes::frame_bits(data, frames, j)) is Some;
            let all = passes::containers_upto(data, frames, n, k);
            &&& all.len() == if how_many(has, k) < n {
                how_many(has, k)
            } else {
                n
            }
            &&& has(i) && how_many(has, i as nat) < n ==> how_many(has, i as nat) < all.len() && all[how_many(
                has,
                i as nat,
            ) as int] == i
        }),
    decreases k,
{
    let has = |j: int| atmos::emdf_in(passes::frame_bits(data, frames, j)) is Some;
    lemma_containers_len(data, frames, n, k);
    lemma_containers_len(data, frames, n, (k - 1) as nat);
    if i < k - 1 {
        law_containers(data, frames, n, (k - 1) as nat, i);
        lemma_how_many_step(has, i as nat, (k - 1) as nat);
    }
}

proof fn lemma_containers_len(data: Seq<u8>, frames: Seq<FrameInfo>, n: nat, k: nat)
    ensures
        ({
            let has = |j: int| atmos::emdf_in(passes::frame_bits(data, frames, j)) is Some;
            passes::containers_upto(data, frames, n, k).len() == if how_many(has, k) < n {
                how_many(has, k)
            } else {
                n
            }
        }),
    decreases k,
{
    if k > 0 {
        lemma_containers_len(data, frames, n, (k - 1) as nat);
    }
}

/// What decoding the JOC of frame `i` comes to.
pub open spec fn decoded(t: JocTables, data: Seq<u8>, frames: Seq<FrameInfo>, i: int) -> Option<
    Option<Result<joc::FrameView, JocError>>,
> {
    passes::joc_of(t, passes::frame_bits(data, frames, i))
}

/// Frame `i` has a JOC that can be decoded.
pub open spec fn decodes(t: JocTables, data: Seq<u8>, frames: Seq<FrameInfo>, i: int) -> bool {
    decoded(t, data, frames, i) matches Some(Some(Ok(_)))
}

/// Frame `i` has a JOC that cannot.
pub open spec fn fails(t: JocTables, data: Seq<u8>, frames: Seq<FrameInfo>, i: int) -> bool {
    decoded(t, data, frames, i) matches Some(Some(Err(_)))
}

/// The JOC of a stream: the frames with a container are counted; each counter stands behind those of the
/// frames before it; and of the errors the first five are listed, each with its frame.
pub proof fn law_joc_sums(t: JocTables, data: Seq<u8>, frames: Seq<FrameInfo>, n: nat, i: int)
    requires
        0 <= i < n <= usize::MAX,
    ensures
        ({
            let good = |k: int| decodes(t, data, frames, k);
            let bad = |k: int| fails(t, data, frames, k);
            let c = passes::joc_sums(t, data, frames, n);
            &&& c.0 == how_many(|k: int| decoded(t, data, frames, k) is Some, n)
            &&& c.1.len() == how_many(good, n)
            &&& c.2.len() == if how_many(bad, n) < 5 {
                how_many(bad, n)
            } else {
                5
            }
            &&& decoded(t, data, frames, i) matches Some(Some(Ok(f))) ==> how_many(good, i as nat)
                < c.1.len() && c.1[how_many(good, i as nat) as int] == f.seq
            &&& decoded(t, data, frames, i) matches Some(Some(Err(e))) ==> how_many(bad, i as nat) < 5
                ==> how_many(bad, i as nat) < c.2.len() && c.2[how_many(bad, i as nat) as int] == (
                i as usize,
                e,
            )
        }),
    decreases n,
{
    let good = |k: int| decodes(t, data, frames, k);
    let bad = |k: int| fails(t, data, frames, k);
    lemma_joc_lens(t, data, frames, n);
    lemma_joc_lens(t, data, frames, (n - 1) as nat);
    if i < n - 1 {
        law_joc_sums(t, data, frames, (n - 1) as nat, i);
        lemma_how_many_step(good, i as nat, (n - 1) as nat);
        lemma_how_many_step(bad, i as nat, (n - 1) as nat);
    }
}

proof fn lemma_joc_lens(t: JocTables, data: Seq<u8>, frames: Seq<FrameInfo>, n: nat)
    ensures
        ({
            let good = |k: int| decodes(t, data, frames, k);
            let bad = |k: int| fails(t, data, frames, k);
            let c = passes::joc_sums(t, data, frames, n);
            &&& c.0 == how_many(|k: int| decoded(t, data, frames, k) is Some, n)
            &&& c.1.len() == how_many(good, n)
            &&& c.2.len() == if how_many(bad, n) < 5 {
                how_many(bad, n)
            } else {
                5
            }
        }),
    decreases n,
{
    if n > 0 {
        lemma_joc_lens(t, data, frames, (n - 1) as nat);
    }
}

// ------------------------------------------------------------------ counters

/// The JOC of the metadata of frame `i` counts it, modulo 1024: it decodes, with that counter and the
/// frame's objects.
pub proof fn law_item_counter<P: EmdfProtector>(
    items: Seq<(Vec<u8>, Vec<u8>)>,
    objects: Seq<Vec<ObjectCode>>,
    tables: JocTables,
    codes: Seq<Vec<[i32; 5]>>,
    prot: P,
    i: int,
)
    requires
        passes::items_of(items, objects, tables.fine_generic@, codes, prot),
        0 <= i < items.len(),
        oamd::all_ok(objects[i]@),
        oamd::element_len(objects[i]@.len() as int, true) <= 4368,
        1 <= codes[i]@.len() <= 64,
        joc::codes_ok(codes[i]@),
        joc::tree_ok(tables.fine_generic@, 0, joc::MAX_CODE_BITS as nat),
        joc::covers_fine(tables.fine_generic@),
        tables.num_bands[joc::ENC_BANDS_IDX as int] == joc::ENC_BANDS,
    ensures
        ({
            let j = atmos::joc_payload_in(items[i].0@);
            &&& j is Some
            &&& joc::frame_at(tables, bits::bits_of(j->0)) matches Ok(f) && f.seq == i % 1024
                && f.object_count == codes[i]@.len()
        }),
        atmos::oamd_objects_in(items[i].0@) == Some(objects[i]@.len() as int + 1),
{
    let seq = (i % 1024) as u16;
    let b = joc::joc_bits(tables.fine_generic@, codes[i]@, seq);
    let j = bits::pack(b);
    let o = bits::pack(oamd::oamd_bits(objects[i]@, true));
    let c = emdf::container_bits(atmos::atmos_payloads(o, j), prot);
    assert(bits::bits_of(items[i].0@) == c);
    assert(bits::has(c, 0, c));
    atmos::lemma_joc_size(tables.fine_generic@, codes[i]@, seq);
    atmos::law_frame_emdf(items[i].0@, objects[i]@, j, prot);
    joc::law_joc_roundtrip(tables, codes[i]@, seq);
}

} // verus!
