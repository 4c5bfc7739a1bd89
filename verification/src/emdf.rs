//! EMDF containers: a syncword, a length, payloads with their headers, and a protection field.
//!
//! The EMDF carries the object metadata (OAMD) and the joint object coding (JOC) payloads of a frame.
//! All bit I/O is MSB-first.

use crate::bits;
use crate::bits::{BitReader, BitWriter};
use crate::bsi;
use crate::bsi::skip_opt;
use crate::crc;
use crate::crc::{crc32_bits, crc8_bits};
use crate::oamd;
use crate::oamd::{decode_oamd, ObjectCode};
use crate::protect;
use crate::protect::write_protection_bits;
use vstd::prelude::*;

pub use crate::oamd::{dump_oamd_verbose, encode_oamd, DecodedObject, DecodedOamd};
pub use crate::protect::{set_protector, EmdfProtector, KeyedProtector, PublicCrcProtector, PROT_LEN};

verus! {

/// EMDF marker (byte-aligned syncword).
pub const EMDF_SYNC: u16 = 0x5838;

/// EMDF payload id for Object Audio Metadata.
pub const PAYLOAD_OAMD: u8 = 11;

/// EMDF payload id for Joint Object Coding.
pub const PAYLOAD_JOC: u8 = 14;

// ------------------------------------------------------------------ writing

/// The header of a payload of `size` bytes: its id, no sample offset, no duration, group 0, no codec
/// data, not discarded when unknown, frame-aligned, no duplicates, no priority; and its size.
pub open spec fn payload_header(id: u8, size: nat) -> Seq<bool> {
    bits::be(id as nat, 5) + seq![false] + seq![false] + seq![true] + bits::var_bits(0, 2) + seq![false] + seq![
        false,
    ] + seq![true] + bits::be(0, 2) + bits::be(0, 7) + bits::var_bits(size, 8)
}

/// The ids and contents of payloads.
pub open spec fn contents(payloads: Seq<(u8, Vec<u8>)>) -> Seq<(u8, Seq<u8>)> {
    payloads.map_values(|p: (u8, Vec<u8>)| (p.0, p.1@))
}

/// Payloads, each behind its header.
pub open spec fn payloads_bits(payloads: Seq<(u8, Seq<u8>)>) -> Seq<bool>
    decreases payloads.len(),
{
    if payloads.len() == 0 {
        Seq::empty()
    } else {
        let last = payloads.last();
        payloads_bits(payloads.drop_last()) + payload_header(last.0, last.1.len()) + bits::bits_of(
            last.1,
        )
    }
}

/// The body up to the protection values: version, key, payloads, the end mark, and the widths of the
/// protection values.
pub open spec fn covered_bits(payloads: Seq<(u8, Seq<u8>)>, key_id: u8, lengths: (u8, u8)) -> Seq<bool> {
    bits::be(0, 2) + bits::be(key_id as nat, 3) + payloads_bits(payloads) + bits::be(0, 5) + bits::be(lengths.0 as nat, 2)
        + bits::be(lengths.1 as nat, 2)
}

/// The body with its protection values. The primary one covers what stands in front of it, the
/// secondary one that and the primary value.
pub open spec fn body_bits<P: EmdfProtector>(payloads: Seq<(u8, Seq<u8>)>, prot: P) -> Seq<bool> {
    let lengths = prot.lengths();
    let c = covered_bits(payloads, prot.key(), lengths);
    let c2 = c + bits::be(prot.primary_of(bits::pack(c), c.len()) as nat, protect::prot_len(lengths.0 as int));
    c2 + bits::be(prot.secondary_of(bits::pack(c2), c2.len()) as nat, protect::prot_len(lengths.1 as int))
}

/// A container: the syncword, the body's bytes (modulo 2^16), and the body.
pub open spec fn container_bits<P: EmdfProtector>(payloads: Seq<(u8, Seq<u8>)>, prot: P) -> Seq<bool> {
    let body = body_bits(payloads, prot);
    bits::be(EMDF_SYNC as nat, 16) + bits::be((bits::pack(body).len() % 0x1_0000) as nat, 16) + bits::bits_of(bits::pack(body))
}

/// Payloads that are small enough to have their sizes written down.
pub open spec fn sizes_ok(payloads: Seq<(u8, Seq<u8>)>) -> bool {
    forall|i: int| 0 <= i < payloads.len() ==> bits::var_fits((#[trigger] payloads[i]).1.len(), 8)
}

fn write_payload(w: &mut BitWriter, id: u8, payload: &Vec<u8>)
    requires
        old(w).wf(),
        bits::var_fits(payload@.len(), 8),
    ensures
        final(w).wf(),
        final(w)@ == old(w)@ + payload_header(id, payload@.len()) + bits::bits_of(payload@),
{
    proof {
        lemma_size_limit(payload@.len());
        bits::lemma_two_values();
    }
    w.write(id as u32, 5);  // emdf_payload_id
    w.bit(0);  // smploffste = 0
    w.bit(0);  // duratione = 0
    w.bit(1);  // groupide = 1
    w.write_var(0, 2);  // groupid = 0
    w.bit(0);  // codecdatae = 0
    w.bit(0);  // discard_unknown_payload = 0
    w.bit(1);  // payload_frame_aligned = 1 (smploffste == 0)
    w.write(0, 2);  // create_duplicate = 0, remove_duplicate = 0
    w.write(0, 7);  // priority + proc_allowed = 0
    w.write_var(payload.len() as u32, 8);  // emdf_payload_size (bytes)
    assert(w@ =~= old(w)@ + payload_header(id, payload@.len()));
    w.copy_bits(payload, payload.len() * 8);
    assert(bits::bits_of(payload@).take(8 * payload@.len() as int) =~= bits::bits_of(payload@));
}

proof fn lemma_size_limit(n: nat)
    requires
        bits::var_fits(n, 8),
    ensures
        n <= 0x101_0100,
{
    bits::lemma_two_values();
}

/// Writes the payloads, each behind its header.
fn write_payloads(w: &mut BitWriter, payloads: &[(u8, Vec<u8>)])
    requires
        old(w).wf(),
        sizes_ok(contents(payloads@)),
    ensures
        final(w).wf(),
        final(w)@ == old(w)@ + payloads_bits(contents(payloads@)),
{
    let ghost c = contents(payloads@);
    let mut i: usize = 0;
    assert(c.take(0) =~= Seq::empty());
    assert(w@ =~= old(w)@ + payloads_bits(c.take(0)));
    while i < payloads.len()
        invariant
            i <= payloads@.len(),
            w.wf(),
            c == contents(payloads@),
            sizes_ok(c),
            w@ == old(w)@ + payloads_bits(c.take(i as int)),
        decreases payloads@.len() - i,
    {
        assert(c[i as int] == (payloads@[i as int].0, payloads@[i as int].1@));
        write_payload(w, payloads[i].0, &payloads[i].1);
        assert(c.take(i + 1).drop_last() =~= c.take(i as int));
        i = i + 1;
        assert(w@ =~= old(w)@ + payloads_bits(c.take(i as int)));
    }
    assert(c.take(i as int) =~= c);
}

/// Puts syncword and length in front of a body.
fn frame_body(body: &Vec<u8>) -> (out: Vec<u8>)
    requires
        8 * body@.len() <= usize::MAX,
    ensures
        out@ == bits::pack(bits::bits_of(out@)),
        bits::bits_of(out@) == bits::be(EMDF_SYNC as nat, 16) + bits::be((body@.len() % 0x1_0000) as nat, 16) + bits::bits_of(
            body@,
        ),
{
    let mut w = BitWriter::new();
    w.write(EMDF_SYNC as u32, 16);
    w.write((body.len() % 0x1_0000) as u32, 16);  // emdf length in bytes (after this field)
    w.copy_bits(body, body.len() * 8);
    proof {
        assert(bits::bits_of(body@).take(8 * body@.len() as int) =~= bits::bits_of(body@));
        assert(w@ =~= bits::be(EMDF_SYNC as nat, 16) + bits::be((body@.len() % 0x1_0000) as nat, 16) + bits::bits_of(
            body@,
        ));
        bits::lemma_be_len(EMDF_SYNC as nat, 16);
        bits::lemma_be_len((body@.len() % 0x1_0000) as nat, 16);
    }
    w.finish()
}

/// Wrap one or more (payload_id, payload_bytes) into an EMDF container, protected by `prot`. Returns
/// whole bytes starting 0x58 0x38.
pub fn wrap_emdf<P: EmdfProtector>(payloads: &[(u8, Vec<u8>)], prot: &P) -> (out: Vec<u8>)
    requires
        sizes_ok(contents(payloads@)),
        payloads_bits(contents(payloads@)).len() + 1000 <= usize::MAX,
    ensures
        out@ == bits::pack(container_bits(contents(payloads@), *prot)),
        bits::bits_of(out@) == container_bits(contents(payloads@), *prot),
{
    let ghost c = contents(payloads@);
    let mut b = BitWriter::new();
    b.write(0, 2);  // emdf_version = 0
    b.write(prot.key_id() as u32, 3);  // key_id (selects the authentication key)
    write_payloads(&mut b, payloads);
    b.write(0, 5);  // emdf_payload_id = 0: terminate
    let (pc, sc) = prot.length_codes();
    b.write(pc as u32, 2);  // protection_length_primary
    b.write(sc as u32, 2);  // protection_length_secondary
    let ghost covered = covered_bits(c, prot.key(), prot.lengths());
    proof {
        assert(b@ =~= covered);
        bits::lemma_be_len(0, 2);
        bits::lemma_be_len(prot.key() as nat, 3);
        bits::lemma_be_len(0, 5);
        bits::lemma_be_len(pc as nat, 2);
        bits::lemma_be_len(sc as nat, 2);
        bits::lemma_pack_bits(covered);
    }
    let (snap, nbits) = b.snapshot();
    let prim = prot.primary(&snap, nbits);
    write_protection_bits(&mut b, prim, PROT_LEN[pc as usize]);  // protection_bits_primary
    proof {
        bits::lemma_be_len(prim as nat, PROT_LEN[pc as int] as nat);
        bits::lemma_pack_bits(b@);
    }
    let (snap, nbits) = b.snapshot();
    let sec = prot.secondary(&snap, nbits);
    write_protection_bits(&mut b, sec, PROT_LEN[sc as usize]);  // protection_bits_secondary
    proof {
        assert(b@ == body_bits(c, *prot));
        bits::lemma_be_len(sec as nat, PROT_LEN[sc as int] as nat);
        bits::lemma_pack_bits(b@);
    }
    let body = b.into_bytes();
    frame_body(&body)
}

/// Build the full EMDF (OAMD only) for one frame.
pub fn encode_frame_emdf<P: EmdfProtector>(objects: &[ObjectCode], lfe: bool, prot: &P) -> (out: Vec<
    u8,
>)
    requires
        1 <= oamd::total_objects(objects@.len() as int, lfe) <= 159,
        oamd::element_len(objects@.len() as int, lfe) <= 4368,
    ensures
        bits::bits_of(out@) == container_bits(
            seq![(PAYLOAD_OAMD, bits::pack(oamd::oamd_bits(objects@, lfe)))],
            *prot,
        ),
{
    let oamd = encode_oamd(objects, lfe);
    let ghost c = seq![(PAYLOAD_OAMD, oamd@)];
    let mut payloads: Vec<(u8, Vec<u8>)> = Vec::new();
    payloads.push((PAYLOAD_OAMD, oamd));
    proof {
        lemma_oamd_size(objects@, lfe);
        bits::lemma_two_values();
        bits::lemma_two_add(8, 8);
        assert(contents(payloads@) =~= c);
        assert(c.drop_last() =~= Seq::empty());
        assert(payloads_bits(c.drop_last()) =~= Seq::<bool>::empty());
        lemma_payload_header_len(PAYLOAD_OAMD, oamd@.len());
        assert(c.last() == c[0]);
    }
    wrap_emdf(&payloads, prot)
}

pub proof fn lemma_payload_header_len(id: u8, size: nat)
    ensures
        payload_header(id, size).len() <= 60,
        payload_header(id, size).len() == 23 + bits::var_bits(size, 8).len(),
{
    bits::lemma_be_len(id as nat, 5);
    bits::lemma_be_len(0, 2);
    bits::lemma_be_len(0, 7);
    bits::lemma_two_values();
    bits::lemma_var_bits_len(0, 2);
    bits::lemma_var_bits_len(size, 8);
}

pub proof fn lemma_oamd_size(objects: Seq<ObjectCode>, lfe: bool)
    requires
        1 <= oamd::total_objects(objects.len() as int, lfe) <= 159,
        oamd::element_len(objects.len() as int, lfe) <= 4368,
    ensures
        bits::pack(oamd::oamd_bits(objects, lfe)).len() <= 600,
{
    let v = (oamd::element_len(objects.len() as int, lfe) - 1) as nat;
    let k = (oamd::total_objects(objects.len() as int, lfe) - 1) as nat;
    oamd::lemma_element_len(objects, lfe);
    bits::lemma_var_bits_len(v, 4);
    bits::lemma_be_len(0, 2);
    bits::lemma_be_len(1, 4);
    bits::lemma_be_len(k, 5);
    bits::lemma_be_len(31, 5);
    bits::lemma_be_len((k - 31) as nat, 7);
    bits::lemma_two_values();
    bits::lemma_pack_bits(oamd::oamd_bits(objects, lfe));
}

// ------------------------------------------------------------------ reading

/// The first byte from `i` on at which the EMDF syncword stands.
pub open spec fn emdf_sync(data: Seq<u8>, i: int) -> Option<int>
    decreases data.len() - i,
{
    if i + 1 >= data.len() {
        None
    } else if data[i] == 0x58 && data[i + 1] == 0x38 {
        Some(i)
    } else {
        emdf_sync(data, i + 1)
    }
}

/// The bits of a container that starts at the first syncword of `data`.
pub open spec fn container_in(data: Seq<u8>) -> Option<Seq<bool>> {
    match emdf_sync(data, 0) {
        Some(i) => Some(bits::bits_of(data.skip(i))),
        None => None,
    }
}

/// Where the payloads of a container begin: behind syncword, length, version and key.
pub const PAYLOADS_BIT: usize = 37;

/// Where the body of a container begins: behind syncword and length.
pub const BODY_BIT: usize = 32;

/// Where a variable-length field ends that a flag at `p` announces.
pub open spec fn after_opt_var(s: Seq<bool>, p: int, n: nat) -> int {
    if bits::bit(s, p) {
        bits::var_at(s, p + 1, n, 8).1
    } else {
        p + 1
    }
}

/// Where a payload's size stands, when its id ends at `p`.
pub open spec fn size_field(s: Seq<bool>, p: int) -> int {
    let offset = bits::bit(s, p);
    let p1 = bsi::after_opt(s, p, 12);  // smploffst
    let p2 = after_opt_var(s, p1, 11);  // duration
    let p3 = after_opt_var(s, p2, 2);  // groupid
    let p4 = bsi::after_opt(s, p3, 8);  // codecdata
    if bits::bit(s, p4) {
        p4 + 1  // discard_unknown_payload
    } else if offset {
        p4 + 1 + 7
    } else if bits::bit(s, p4 + 1) {
        p4 + 2 + 2 + 7  // payload_frame_aligned
    } else {
        p4 + 2
    }
}

/// A payload: its id, where its bytes start, and how many there are.
pub struct PayloadAt {
    pub id: u8,
    pub at: int,
    pub size: nat,
}

impl PayloadAt {
    /// Where the payload ends.
    pub open spec fn end(self) -> int {
        self.at + 8 * self.size
    }
}

/// The payload whose id stands at `p`.
pub open spec fn payload_at(s: Seq<bool>, p: int) -> PayloadAt {
    let (size, at) = bits::var_at(s, size_field(s, p + 5), 8, 8);
    PayloadAt { id: bits::field(s, p, 5) as u8, at, size }
}

proof fn lemma_var_end(s: Seq<bool>, p: int, n: nat, max: int, num: int, acc: nat)
    ensures
        p < bits::var_tail(s, p, n, max, num, acc).1,
    decreases 2 * (max - num),
{
    if num < max && bits::bit(s, p + n) {
        let v = (acc + bits::field(s, p, n)) % 0x1_0000_0000;
        lemma_var_end(s, p + n + 1, n, max, num + 1, (v * bits::two(n) + bits::two(n)) % 0x1_0000_0000);
    }
}

/// Where a payload's bytes start is behind its id.
pub proof fn lemma_payload_at(s: Seq<bool>, p: int)
    ensures
        p + 5 < payload_at(s, p).at,
{
    let q = p + 5;
    let p1 = bsi::after_opt(s, q, 12);
    let p2 = after_opt_var(s, p1, 11);
    let p3 = after_opt_var(s, p2, 2);
    lemma_var_at_end(s, p1 + 1, 11);
    lemma_var_at_end(s, p2 + 1, 2);
    lemma_var_at_end(s, size_field(s, q), 8);
}

proof fn lemma_var_at_end(s: Seq<bool>, p: int, n: nat)
    ensures
        p < bits::var_at(s, p, n, 8).1,
{
    if bits::bit(s, p + n) {
        lemma_var_end(
            s,
            p + n + 1,
            n,
            8,
            1,
            (bits::field(s, p, n) * bits::two(n) + bits::two(n)) % 0x1_0000_0000,
        );
    }
}

/// The ids and sizes of the payloads from `p` on. The last one may run over the end.
pub open spec fn listed(s: Seq<bool>, p: int) -> Seq<(u8, nat)>
    decreases
        (if p < s.len() {
            s.len() - p
        } else {
            0
        }),
{
    if p + 5 > s.len() || bits::field(s, p, 5) == 0 {
        Seq::empty()
    } else {
        proof {
            lemma_payload_at(s, p);
        }
        let e = payload_at(s, p);
        if e.end() > s.len() {
            seq![(e.id, e.size)]
        } else {
            seq![(e.id, e.size)] + listed(s, e.end())
        }
    }
}

/// The payloads from `p` on that are complete, with their bytes.
pub open spec fn extracted(s: Seq<bool>, p: int) -> Seq<(u8, Seq<u8>)>
    decreases
        (if p < s.len() {
            s.len() - p
        } else {
            0
        }),
{
    if p + 5 > s.len() || bits::field(s, p, 5) == 0 {
        Seq::empty()
    } else {
        proof {
            lemma_payload_at(s, p);
        }
        let e = payload_at(s, p);
        if e.end() > s.len() {
            Seq::empty()
        } else {
            seq![(e.id, bits::pack(s.subrange(e.at, e.end())))] + extracted(s, e.end())
        }
    }
}

/// Where the first OAMD payload from `p` on starts. Behind the end there are no payloads.
pub open spec fn oamd_start(s: Seq<bool>, p: int) -> Option<int>
    decreases
        (if p < s.len() {
            s.len() - p
        } else {
            0
        }),
{
    if p >= s.len() || bits::field(s, p, 5) == 0 {
        None
    } else {
        proof {
            lemma_payload_at(s, p);
        }
        let e = payload_at(s, p);
        if e.id == PAYLOAD_OAMD {
            Some(e.at)
        } else {
            oamd_start(s, e.end())
        }
    }
}

pub proof fn lemma_emdf_sync(data: Seq<u8>, i: int)
    requires
        0 <= i,
    ensures
        emdf_sync(data, i) matches Some(p) ==> i <= p && p + 2 <= data.len(),
    decreases data.len() - i,
{
    if i + 1 < data.len() && !(data[i] == 0x58 && data[i + 1] == 0x38) {
        lemma_emdf_sync(data, i + 1);
    }
}

/// The first byte-aligned EMDF syncword.
fn find_emdf_sync(data: &[u8]) -> (r: Option<usize>)
    ensures
        match r {
            Some(i) => emdf_sync(data@, 0) == Some(i as int) && i + 2 <= data@.len(),
            None => emdf_sync(data@, 0) is None,
        },
{
    let mut i: usize = 0;
    while i < data.len() && data.len() - i >= 2
        invariant
            i <= data@.len(),
            emdf_sync(data@, 0) == emdf_sync(data@, i as int),
        decreases data@.len() - i,
    {
        if data[i] == 0x58 && data[i + 1] == 0x38 {
            return Some(i);
        }
        i = i + 1;
    }
    None
}

/// Reads past a flag and the variable-length field that it announces.
fn skip_opt_var(r: &mut BitReader, n: u32)
    requires
        n <= 11,
        old(r).pos <= usize::MAX - 1000,
    ensures
        final(r).data@ == old(r).data@,
        final(r).pos == after_opt_var(old(r).bits(), old(r).pos as int, n as nat),
        old(r).pos < final(r).pos <= old(r).pos + 1 + 9 * (n + 1),
{
    if r.read_bit() {
        assert((n + 1) * 9 <= 108);
        r.read_var(n, 8);
    }
}

/// Reads the rest of a payload's header: its size.
fn read_payload_size(r: &mut BitReader) -> (size: u32)
    requires
        old(r).pos <= usize::MAX - 10000,
    ensures
        final(r).data@ == old(r).data@,
        (size as nat, final(r).pos as int) == bits::var_at(
            old(r).bits(),
            size_field(old(r).bits(), old(r).pos as int),
            8,
            8,
        ),
        old(r).pos < final(r).pos <= old(r).pos + 400,
{
    let smploffste = skip_opt(r, 12);
    skip_opt_var(r, 11);  // duratione
    skip_opt_var(r, 2);  // groupide
    skip_opt(r, 8);  // codecdatae
    if !r.read_bit() {
        // discard_unknown_payload == 0
        if smploffste {
            r.read(7);
        } else if r.read_bit() {
            // payload_frame_aligned
            r.read(2);
            r.read(7);
        }
    }
    r.read_var(8, 8)
}

/// Whether `size` bytes from bit `pos` on run over the end.
fn runs_over(pos: usize, size: usize, end: usize) -> (b: bool)
    ensures
        b == (pos + 8 * size > end),
{
    pos > end || size > (end - pos) / 8
}

/// Find the EMDF sync (byte-aligned 0x5838) in an aux byte buffer and decode the OAMD payload.
pub fn decode_emdf_oamd(aux: &[u8]) -> (d: Option<DecodedOamd>)
    requires
        oamd::addressable(aux@.len()),
    ensures
        d is Some == (container_in(aux@) matches Some(s) && oamd_start(s, PAYLOADS_BIT as int) is Some),
        d matches Some(o) ==> oamd::summary_of(
            o,
            container_in(aux@)->0,
            oamd_start(container_in(aux@)->0, PAYLOADS_BIT as int)->0,
        ),
{
    let start = match find_emdf_sync(aux) {
        Some(i) => i,
        None => {
            return None;
        },
    };
    let len = aux.len();
    let body = &aux[start..len];
    assert(body@ =~= aux@.skip(start as int));
    let ghost s = bits::bits_of(body@);
    let end = body.len() * 8;
    let mut r = BitReader::at(body, PAYLOADS_BIT);
    loop
        invariant
            end == s.len(),
            s == bits::bits_of(r.data@),
            oamd::addressable(aux@.len()),
            end <= 8 * aux@.len(),
            Some(s) == container_in(aux@),
            r.pos <= end || r.pos == PAYLOADS_BIT,
            oamd_start(s, PAYLOADS_BIT as int) == oamd_start(s, r.pos as int),
        decreases
            (if r.pos < end {
                end - r.pos
            } else {
                0
            }),
    {
        let ghost p = r.pos as int;
        if r.pos >= end {
            return None;
        }
        let id = r.read(5) as u8;
        if id == 0 {
            return None;  // no OAMD found
        }
        let size = read_payload_size(&mut r) as usize;
        if id == PAYLOAD_OAMD {
            return Some(decode_oamd(&mut r));
        }
        proof {
            lemma_payload_at(s, p);
        }
        if runs_over(r.pos, size, end) {
            assert(oamd_start(s, payload_at(s, p).end()) is None);
            return None;
        }
        let payload_end = r.pos + size * 8;
        r.seek(payload_end);
    }
}

/// List every EMDF payload in an aux byte buffer as (payload_id, size_bytes), with the length that
/// the container declares.
pub fn list_emdf_payloads(aux: &[u8]) -> (l: Option<(usize, Vec<(u8, usize)>)>)
    requires
        oamd::addressable(aux@.len()),
    ensures
        l is Some == container_in(aux@) is Some,
        l matches Some((n, list)) ==> {
            let s = container_in(aux@)->0;
            &&& n == bits::field(s, 16, 16)
            &&& list@.map_values(|e: (u8, usize)| (e.0, e.1 as nat)) == listed(
                s,
                PAYLOADS_BIT as int,
            )
        },
{
    let start = match find_emdf_sync(aux) {
        Some(i) => i,
        None => {
            return None;
        },
    };
    let len = aux.len();
    let body = &aux[start..len];
    assert(body@ =~= aux@.skip(start as int));
    let ghost s = bits::bits_of(body@);
    let end = body.len() * 8;
    let mut r = BitReader::at(body, 16);
    let emdf_len = r.read(16) as usize;
    r.seek(PAYLOADS_BIT);
    let mut out: Vec<(u8, usize)> = Vec::new();
    let ghost all = listed(s, PAYLOADS_BIT as int);
    assert(out@.map_values(|e: (u8, usize)| (e.0, e.1 as nat)) + all =~= all);
    loop
        invariant_except_break
            out@.map_values(|e: (u8, usize)| (e.0, e.1 as nat)) + listed(s, r.pos as int) == all,
            r.pos <= end || r.pos == PAYLOADS_BIT,
        invariant
            end == s.len(),
            s == bits::bits_of(r.data@),
            oamd::addressable(aux@.len()),
            end <= 8 * aux@.len(),
        ensures
            out@.map_values(|e: (u8, usize)| (e.0, e.1 as nat)) == all,
        decreases
            (if r.pos < end {
                end - r.pos
            } else {
                0
            }),
    {
        let ghost p = r.pos as int;
        let ghost before = out@.map_values(|e: (u8, usize)| (e.0, e.1 as nat));
        if r.pos + 5 > end {
            assert(before + Seq::<(u8, nat)>::empty() =~= before);
            break ;
        }
        let id = r.read(5) as u8;
        if id == 0 {
            assert(before + Seq::<(u8, nat)>::empty() =~= before);
            break ;
        }
        let size = read_payload_size(&mut r) as usize;
        out.push((id, size));
        let ghost next = r.pos + size * 8;
        proof {
            lemma_payload_at(s, p);
            let now = out@.map_values(|e: (u8, usize)| (e.0, e.1 as nat));
            assert(now =~= before + seq![(id, size as nat)]);
            assert(before + (seq![(id, size as nat)] + listed(s, next)) =~= now + listed(s, next));
        }
        if runs_over(r.pos, size, end) {
            break ;
        }
        let next = r.pos + size * 8;
        r.seek(next);
    }
    Some((emdf_len, out))
}

/// Like `list_emdf_payloads`, but returns each complete payload's bytes (re-aligned to byte 0). `buf`
/// must start at (or before) a byte-aligned EMDF sync.
pub fn extract_emdf_payloads(buf: &[u8]) -> (l: Option<Vec<(u8, Vec<u8>)>>)
    requires
        oamd::addressable(buf@.len()),
    ensures
        l is Some == container_in(buf@) is Some,
        l matches Some(list) ==> contents(list@) == extracted(
            container_in(buf@)->0,
            PAYLOADS_BIT as int,
        ),
{
    let start = match find_emdf_sync(buf) {
        Some(i) => i,
        None => {
            return None;
        },
    };
    let len = buf.len();
    let body = &buf[start..len];
    assert(body@ =~= buf@.skip(start as int));
    let ghost s = bits::bits_of(body@);
    let end = body.len() * 8;
    let mut r = BitReader::at(body, PAYLOADS_BIT);
    let mut out: Vec<(u8, Vec<u8>)> = Vec::new();
    let ghost all = extracted(s, PAYLOADS_BIT as int);
    assert(contents(out@) + all =~= all);
    loop
        invariant_except_break
            contents(out@) + extracted(s, r.pos as int) == all,
            r.pos <= end || r.pos == PAYLOADS_BIT,
        invariant
            end == s.len(),
            s == bits::bits_of(body@),
            r.data@ == body@,
            oamd::addressable(buf@.len()),
            end <= 8 * buf@.len(),
        ensures
            contents(out@) == all,
        decreases
            (if r.pos < end {
                end - r.pos
            } else {
                0
            }),
    {
        let ghost p = r.pos as int;
        let ghost before = contents(out@);
        if r.pos + 5 > end {
            assert(before + Seq::<(u8, Seq<u8>)>::empty() =~= before);
            break ;
        }
        let id = r.read(5) as u8;
        if id == 0 {
            assert(before + Seq::<(u8, Seq<u8>)>::empty() =~= before);
            break ;
        }
        let size = read_payload_size(&mut r) as usize;
        proof {
            lemma_payload_at(s, p);
        }
        if runs_over(r.pos, size, end) {
            assert(before + Seq::<(u8, Seq<u8>)>::empty() =~= before);
            break ;
        }
        let at = r.pos;
        let mut w = BitWriter::new();
        w.copy_bits_from(body, at, size * 8);
        assert(w@ =~= s.subrange(at as int, at + 8 * size));
        let bytes = w.into_bytes();
        let ghost piece = (id, bytes@);
        out.push((id, bytes));
        let next = at + size * 8;
        proof {
            assert(contents(out@) =~= before + seq![piece]);
            assert(before + (seq![piece] + extracted(s, next as int)) =~= contents(out@)
                + extracted(s, next as int));
        }
        r.seek(next);
    }
    Some(out)
}

// ------------------------------------------------------------------ protection

/// Where the walk over the payloads ends.
pub enum WalkEnd {
    /// At the end mark, behind which the protection field starts.
    Mark(int),
    /// At the end of the bits, before the end mark.
    RanOff,
    /// In a payload that runs over the end.
    Overran,
}

/// Where the walk over the payloads from `p` on ends.
pub open spec fn walk_end(s: Seq<bool>, p: int) -> WalkEnd
    decreases
        (if p < s.len() {
            s.len() - p
        } else {
            0
        }),
{
    if p + 5 > s.len() {
        WalkEnd::RanOff
    } else if bits::field(s, p, 5) == 0 {
        WalkEnd::Mark(p + 5)
    } else {
        proof {
            lemma_payload_at(s, p);
        }
        let e = payload_at(s, p);
        if e.end() > s.len() {
            WalkEnd::Overran
        } else {
            walk_end(s, e.end())
        }
    }
}

/// What was found of a container's protection.
pub enum FoundProtection {
    /// The buffer ends before the payload terminator.
    RanOff,
    /// A payload runs over the end of the buffer.
    Overran,
    /// The protection values start at this bit behind the syncword's start; widths in bits.
    At { start: usize, values: usize, prim_bits: u32, sec_bits: u32 },
}

/// What is found of the protection of the container in `data`.
pub open spec fn protection_in(data: Seq<u8>) -> Option<FoundProtection> {
    match emdf_sync(data, 0) {
        None => None,
        Some(i) => {
            let s = bits::bits_of(data.skip(i));
            match walk_end(s, PAYLOADS_BIT as int) {
                WalkEnd::RanOff => Some(FoundProtection::RanOff),
                WalkEnd::Overran => Some(FoundProtection::Overran),
                WalkEnd::Mark(q) => Some(
                    FoundProtection::At {
                        start: i as usize,
                        values: (q + 4) as usize,
                        prim_bits: protect::prot_len(bits::field(s, q, 2) as int) as u32,
                        sec_bits: protect::prot_len(bits::field(s, q + 2, 2) as int) as u32,
                    },
                ),
            }
        },
    }
}

/// Locates the protection field of the first EMDF container in `buf`. None if there is no container.
pub fn find_protection(buf: &[u8]) -> (f: Option<FoundProtection>)
    requires
        oamd::addressable(buf@.len()),
    ensures
        f == protection_in(buf@),
{
    let start = match find_emdf_sync(buf) {
        Some(i) => i,
        None => {
            return None;
        },
    };
    let len = buf.len();
    let body = &buf[start..len];
    assert(body@ =~= buf@.skip(start as int));
    let ghost s = bits::bits_of(body@);
    let end = body.len() * 8;
    let mut r = BitReader::at(body, PAYLOADS_BIT);
    loop
        invariant
            end == s.len(),
            s == bits::bits_of(r.data@),
            oamd::addressable(buf@.len()),
            end <= 8 * buf@.len(),
            emdf_sync(buf@, 0) == Some(start as int),
            s == bits::bits_of(buf@.skip(start as int)),
            r.pos <= end || r.pos == PAYLOADS_BIT,
            walk_end(s, PAYLOADS_BIT as int) == walk_end(s, r.pos as int),
        decreases
            (if r.pos < end {
                end - r.pos
            } else {
                0
            }),
    {
        let ghost p = r.pos as int;
        if r.pos + 5 > end {
            return Some(FoundProtection::RanOff);
        }
        let id = r.read(5);
        if id == 0 {
            let prim = r.read(2) as usize;
            let sec = r.read(2) as usize;
            return Some(
                FoundProtection::At {
                    start,
                    values: r.pos,
                    prim_bits: PROT_LEN[prim],
                    sec_bits: PROT_LEN[sec],
                },
            );
        }
        let size = read_payload_size(&mut r) as usize;
        proof {
            lemma_payload_at(s, p);
        }
        if runs_over(r.pos, size, end) {
            return Some(FoundProtection::Overran);
        }
        let next = r.pos + size * 8;
        r.seek(next);
    }
}

/// The stored protection values of a container beside those of the public CRCs.
pub struct ProtectionReport {
    pub prim_bits: u32,
    pub sec_bits: u32,
    /// Bit offset of the protection values, from the syncword on.
    pub protection_start: usize,
    pub stored_prim: u32,
    pub our_prim: u32,
    pub stored_sec: u32,
    pub our_sec: u32,
    /// The container, from the syncword up to the end of the protection values.
    pub container: Vec<u8>,
}

/// What the check of a container's protection says.
pub enum Protection {
    RanOff,
    Overran,
    Checked(ProtectionReport),
}

pub open spec fn smaller(a: nat, b: nat) -> nat {
    if a <= b {
        a
    } else {
        b
    }
}

/// The report on the container with the bytes `data`, whose primary protection value stands at `v` and
/// whose secondary one stands behind it. Of a stored primary value the first 32 bits are read, of a
/// secondary one the first 8.
pub open spec fn report_on(
    r: ProtectionReport,
    data: Seq<u8>,
    v: int,
    prim_bits: u32,
    sec_bits: u32,
) -> bool {
    let s = bits::bits_of(data);
    let p = smaller(prim_bits as nat, 32);
    &&& r.prim_bits == prim_bits
    &&& r.sec_bits == sec_bits
    &&& r.protection_start == v
    &&& r.stored_prim == bits::field(s, v, p)
    &&& r.our_prim == crc::crc32_of(s.subrange(BODY_BIT as int, v))
    &&& r.stored_sec == bits::field(s, v + prim_bits, smaller(sec_bits as nat, 8))
    &&& r.our_sec == crc::crc8_of(s.subrange(BODY_BIT as int, v + prim_bits))
    &&& r.container@ == data.take(
        smaller(((v + prim_bits + sec_bits + 7) / 8) as nat, data.len()) as int,
    )
}

/// Check whether the public CRCs reproduce the protection bits embedded in an EMDF. `buf` must start
/// at (or before) a byte-aligned EMDF sync, and hold the container up to the end of the primary
/// protection value.
pub fn verify_emdf_protection(buf: &[u8]) -> (r: Option<Protection>)
    requires
        oamd::addressable(buf@.len()),
        protection_in(buf@) matches Some(FoundProtection::At { start, values, prim_bits, .. })
            ==> values + prim_bits <= 8 * (buf@.len() - start),
    ensures
        match protection_in(buf@) {
            None => r is None,
            Some(FoundProtection::RanOff) => r == Some(Protection::RanOff),
            Some(FoundProtection::Overran) => r == Some(Protection::Overran),
            Some(FoundProtection::At { start, values, prim_bits, sec_bits }) => {
                &&& r matches Some(Protection::Checked(report))
                &&& report_on(report, buf@.skip(start as int), values as int, prim_bits, sec_bits)
            },
        },
{
    match find_protection(buf) {
        None => None,
        Some(FoundProtection::RanOff) => Some(Protection::RanOff),
        Some(FoundProtection::Overran) => Some(Protection::Overran),
        Some(FoundProtection::At { start, values, prim_bits, sec_bits }) => {
            proof {
                lemma_emdf_sync(buf@, 0);
                lemma_found(buf@);
            }
            Some(Protection::Checked(check_values(buf, start, values, prim_bits, sec_bits)))
        },
    }
}

proof fn lemma_walk_end(s: Seq<bool>, p: int)
    requires
        0 <= p,
    ensures
        walk_end(s, p) matches WalkEnd::Mark(q) ==> p + 5 <= q <= s.len(),
    decreases
        (if p < s.len() {
            s.len() - p
        } else {
            0
        }),
{
    if p + 5 <= s.len() && bits::field(s, p, 5) != 0 {
        lemma_payload_at(s, p);
        let e = payload_at(s, p);
        if e.end() <= s.len() {
            lemma_walk_end(s, e.end());
        }
    }
}

proof fn lemma_found(data: Seq<u8>)
    requires
        oamd::addressable(data.len()),
    ensures
        protection_in(data) matches Some(FoundProtection::At { start, values, prim_bits, sec_bits })
            ==> start <= data.len() && BODY_BIT < values <= 8 * data.len() + 4 && prim_bits <= 128
            && sec_bits <= 128,
{
    lemma_emdf_sync(data, 0);
    if let Some(i) = emdf_sync(data, 0) {
        let s = bits::bits_of(data.skip(i));
        lemma_walk_end(s, PAYLOADS_BIT as int);
        if let WalkEnd::Mark(q) = walk_end(s, PAYLOADS_BIT as int) {
            bits::lemma_two_values();
            bits::lemma_field_bound(s, q, 2);
            bits::lemma_field_bound(s, q + 2, 2);
        }
    }
}

/// The bits of a container from its body's start up to bit `to`, packed.
fn covered_body(body: &[u8], to: usize) -> (r: Vec<u8>)
    requires
        8 * body@.len() <= usize::MAX,
        BODY_BIT <= to <= 8 * body@.len(),
    ensures
        to - BODY_BIT <= 8 * r@.len(),
        bits::bits_of(r@).take(to - BODY_BIT) == bits::bits_of(body@).subrange(
            BODY_BIT as int,
            to as int,
        ),
{
    let n = to - BODY_BIT;
    let mut w = BitWriter::new();
    w.copy_bits_from(body, BODY_BIT, n);
    let ghost c = bits::bits_of(body@).subrange(BODY_BIT as int, to as int);
    proof {
        assert(w@ =~= c);
        bits::lemma_pack_bits(c);
        assert(bits::bits_of(bits::pack(c)).take(n as int) =~= c);
        assert(bits::bits_of(bits::pack(c)).len() >= n);
    }
    w.into_bytes()
}

/// The first bits of a stored value of `width` bits, `most` at most.
fn stored_value(body: &[u8], at: usize, width: u32, most: u32) -> (v: u32)
    requires
        at <= usize::MAX - 32,
        most <= 32,
    ensures
        v == bits::field(bits::bits_of(body@), at as int, smaller(width as nat, most as nat)),
{
    let mut r = BitReader::at(body, at);
    if width <= most {
        r.read(width)
    } else {
        r.read(most)
    }
}

/// Reads the stored values, and computes the public ones.
fn check_values(buf: &[u8], start: usize, values: usize, prim_bits: u32, sec_bits: u32) -> (r:
    ProtectionReport)
    requires
        oamd::addressable(buf@.len()),
        start <= buf@.len(),
        BODY_BIT < values,
        values + prim_bits <= 8 * (buf@.len() - start),
        prim_bits <= 128,
        sec_bits <= 128,
    ensures
        report_on(r, buf@.skip(start as int), values as int, prim_bits, sec_bits),
{
    let len = buf.len();
    let body = &buf[start..len];
    let ghost d = buf@.skip(start as int);
    assert(body@ =~= d);
    let behind = values + prim_bits as usize;
    let our_prim = crc32_bits(&covered_body(body, values), values - BODY_BIT);
    let our_sec = crc8_bits(&covered_body(body, behind), behind - BODY_BIT) as u32;
    let stored_prim = stored_value(body, values, prim_bits, 32);
    let stored_sec = stored_value(body, behind, sec_bits, 8);
    let whole = (behind + sec_bits as usize + 7) / 8;
    let nbytes: usize = if whole <= body.len() {
        whole
    } else {
        body.len()
    };
    let container = vstd::slice::slice_to_vec(&body[0..nbytes]);
    assert(container@ =~= d.take(nbytes as int));
    ProtectionReport {
        prim_bits,
        sec_bits,
        protection_start: values,
        stored_prim,
        our_prim,
        stored_sec,
        our_sec,
        container,
    }
}

// ------------------------------------------------------------------ what is wrapped reads back

/// A payload's header reads back.
proof fn lemma_header_read(s: Seq<bool>, p: int, id: u8, size: nat)
    requires
        id < 32,
        bits::var_fits(size, 8),
        bits::has(s, p, payload_header(id, size)),
    ensures
        bits::field(s, p, 5) == id,
        payload_at(s, p) == (PayloadAt { id, at: p + payload_header(id, size).len(), size }),
{
    let a0 = bits::be(id as nat, 5);
    let a1 = a0 + seq![false];
    let a2 = a1 + seq![false];
    let a3 = a2 + seq![true];
    let a4 = a3 + bits::var_bits(0, 2);
    let a5 = a4 + seq![false];
    let a6 = a5 + seq![false];
    let a7 = a6 + seq![true];
    let a8 = a7 + bits::be(0, 2);
    let a9 = a8 + bits::be(0, 7);
    bits::lemma_two_values();
    bits::lemma_be_len(id as nat, 5);
    bits::lemma_be_len(0, 2);
    bits::lemma_be_len(0, 7);
    bits::lemma_var_bits_len(0, 2);
    bits::lemma_has_split(s, p, a9, bits::var_bits(size, 8));
    bits::law_var_roundtrip(s, p + a9.len(), size, 8, 8);
    bits::lemma_has_split(s, p, a8, bits::be(0, 7));
    bits::lemma_has_split(s, p, a7, bits::be(0, 2));
    oamd::lemma_then_bit(s, p, a6, true);
    oamd::lemma_then_bit(s, p, a5, false);
    oamd::lemma_then_bit(s, p, a4, false);
    bits::lemma_has_split(s, p, a3, bits::var_bits(0, 2));
    bits::law_var_roundtrip(s, p + a3.len(), 0, 2, 8);
    oamd::lemma_then_bit(s, p, a2, true);
    oamd::lemma_then_bit(s, p, a1, false);
    oamd::lemma_then_bit(s, p, a0, false);
    bits::lemma_field_small(s, p, id as nat, 5);
    assert(size_field(s, p + 5) == p + 23);
}

/// Payloads written from the front.
proof fn lemma_payloads_cons(first: (u8, Seq<u8>), rest: Seq<(u8, Seq<u8>)>)
    ensures
        payloads_bits(seq![first] + rest) == payload_header(first.0, first.1.len()) + bits::bits_of(first.1)
            + payloads_bits(rest),
    decreases rest.len(),
{
    let all = seq![first] + rest;
    if rest.len() == 0 {
        assert(all.drop_last() =~= Seq::empty());
        assert(payloads_bits(all.drop_last()) =~= Seq::<bool>::empty());
        assert(payloads_bits(all) =~= payload_header(first.0, first.1.len()) + bits::bits_of(first.1)
            + payloads_bits(rest));
    } else {
        let front = rest.drop_last();
        lemma_payloads_cons(first, front);
        assert(all.drop_last() =~= seq![first] + front);
        assert(all.last() == rest.last());
        assert(payloads_bits(all) =~= payload_header(first.0, first.1.len()) + bits::bits_of(first.1)
            + payloads_bits(rest));
    }
}

/// Ids that are no end mark and fit their field.
pub open spec fn ids_ok(payloads: Seq<(u8, Seq<u8>)>) -> bool {
    forall|i: int| 0 <= i < payloads.len() ==> 0 < (#[trigger] payloads[i]).0 < 32
}

/// Payloads that stand at `p`, with an end mark behind them, are found.
proof fn lemma_extracted(s: Seq<bool>, p: int, payloads: Seq<(u8, Seq<u8>)>)
    requires
        0 <= p,
        ids_ok(payloads),
        sizes_ok(payloads),
        bits::has(s, p, payloads_bits(payloads) + bits::be(0, 5)),
        p + payloads_bits(payloads).len() + 5 <= s.len(),
    ensures
        extracted(s, p) == payloads,
        listed(s, p) == payloads.map_values(|e: (u8, Seq<u8>)| (e.0, e.1.len())),
        walk_end(s, p) == WalkEnd::Mark(p + payloads_bits(payloads).len() + 5),
    decreases payloads.len(),
{
    bits::lemma_two_values();
    bits::lemma_be_len(0, 5);
    if payloads.len() == 0 {
        assert(payloads_bits(payloads) + bits::be(0, 5) =~= bits::be(0, 5));
        bits::lemma_field_small(s, p, 0, 5);
        assert(extracted(s, p) =~= payloads);
        assert(listed(s, p) =~= payloads.map_values(|e: (u8, Seq<u8>)| (e.0, e.1.len())));
    } else {
        let first = payloads[0];
        let rest = payloads.skip(1);
        let h = payload_header(first.0, first.1.len());
        let b = bits::bits_of(first.1);
        assert(payloads =~= seq![first] + rest);
        lemma_payloads_cons(first, rest);
        assert(payloads_bits(payloads) + bits::be(0, 5) =~= (h + b) + (payloads_bits(rest) + bits::be(0, 5)));
        bits::lemma_has_split(s, p, h + b, payloads_bits(rest) + bits::be(0, 5));
        bits::lemma_has_split(s, p, h, b);
        lemma_header_read(s, p, first.0, first.1.len());
        let at = p + h.len();
        let next = at + b.len();
        assert forall|i: int| 0 <= i < rest.len() implies 0 < (#[trigger] rest[i]).0 < 32 && bits::var_fits(
            rest[i].1.len(),
            8,
        ) by {
            assert(rest[i] == payloads[i + 1]);
        }
        lemma_extracted(s, next, rest);
        assert(s.subrange(at, next) =~= b) by {
            assert forall|i: int| 0 <= i < b.len() implies s.subrange(at, next)[i] == #[trigger] b[i] by {}
        }
        bits::lemma_pack_of_bits(first.1);
        assert(payloads.map_values(|e: (u8, Seq<u8>)| (e.0, e.1.len())) =~= seq![
            (first.0, first.1.len()),
        ] + rest.map_values(|e: (u8, Seq<u8>)| (e.0, e.1.len())));
    }
}

/// The parts of a container.
pub proof fn lemma_container<P: EmdfProtector>(payloads: Seq<(u8, Seq<u8>)>, prot: P)
    ensures
        ({
            let s = container_bits(payloads, prot);
            let body = body_bits(payloads, prot);
            let n = payloads_bits(payloads).len();
            &&& s.subrange(32, 32 + body.len() as int) == body
            &&& s.len() == 32 + 8 * bits::pack(body).len()
            &&& 32 + body.len() <= s.len()
            &&& bits::has(s, 37, payloads_bits(payloads) + bits::be(0, 5))
            &&& 37 + n + 9 <= s.len()
            &&& bits::field(s, 16, 16) == bits::pack(body).len() % 0x1_0000
        }),
{
    let s = container_bits(payloads, prot);
    let body = body_bits(payloads, prot);
    let packed = bits::bits_of(bits::pack(body));
    let lengths = prot.lengths();
    let c = covered_bits(payloads, prot.key(), lengths);
    let n = bits::pack(body).len();
    bits::lemma_pack_bits(body);
    bits::lemma_two_values();
    bits::lemma_be_len(EMDF_SYNC as nat, 16);
    bits::lemma_be_len((n % 0x1_0000) as nat, 16);
    bits::lemma_be_len(0, 2);
    bits::lemma_be_len(prot.key() as nat, 3);
    bits::lemma_be_len(0, 5);
    bits::lemma_be_len(lengths.0 as nat, 2);
    bits::lemma_be_len(lengths.1 as nat, 2);
    assert(s.subrange(32, 32 + body.len() as int) =~= body);
    let piece = payloads_bits(payloads) + bits::be(0, 5);
    assert(c.subrange(5, 5 + piece.len() as int) =~= piece);
    assert forall|i: int| 0 <= i < piece.len() implies #[trigger] piece[i] == s[37 + i] by {
        assert(c.subrange(5, 5 + piece.len() as int)[i] == c[5 + i]);
        assert(body[5 + i] == c[5 + i]);
        assert(s.subrange(32, 32 + body.len() as int)[5 + i] == s[37 + i]);
    }
    assert(bits::has(s, 16, bits::be((n % 0x1_0000) as nat, 16))) by {
        assert(s.subrange(16, 32) =~= bits::be((n % 0x1_0000) as nat, 16));
        assert forall|i: int| 0 <= i < 16 implies #[trigger] bits::be((n % 0x1_0000) as nat, 16)[i] == s[16
            + i] by {
            assert(s.subrange(16, 32)[i] == s[16 + i]);
        }
    }
    bits::lemma_field_small(s, 16, (n % 0x1_0000) as nat, 16);
}

/// A container starts with the syncword.
proof fn lemma_container_sync<P: EmdfProtector>(
    data: Seq<u8>,
    payloads: Seq<(u8, Seq<u8>)>,
    prot: P,
)
    requires
        bits::has(bits::bits_of(data), 0, container_bits(payloads, prot)),
    ensures
        emdf_sync(data, 0) == Some(0int),
        container_in(data) == Some(bits::bits_of(data)),
{
    let c = container_bits(payloads, prot);
    let s = bits::bits_of(data);
    let n = (bits::pack(body_bits(payloads, prot)).len() % 0x1_0000) as nat;
    bits::lemma_two_values();
    bits::lemma_be_len(EMDF_SYNC as nat, 16);
    bits::lemma_be_len(n, 16);
    assert(c.len() >= 32);
    assert(s.len() == 8 * data.len());
    bits::lemma_be_concat(0x58, 0x38, 8, 8);
    bits::lemma_be_len(0x58, 8);
    bits::lemma_be_len(0x38, 8);
    assert(c.subrange(0, 8) =~= bits::be(0x58, 8));
    assert(c.subrange(8, 16) =~= bits::be(0x38, 8));
    assert(s.subrange(0, 8) =~= c.subrange(0, 8));
    assert(s.subrange(8, 16) =~= c.subrange(8, 16));
    lemma_first_bytes(data, 0, 0x58);
    lemma_first_bytes(data, 1, 0x38);
    assert(data.skip(0) =~= data);
}

/// What stands in a container stands in data that starts with it.
proof fn lemma_has_within(s: Seq<bool>, c: Seq<bool>, p: int, piece: Seq<bool>)
    requires
        bits::has(s, 0, c),
        bits::has(c, p, piece),
    ensures
        bits::has(s, p, piece),
{
    assert forall|i: int| 0 <= i < piece.len() implies #[trigger] piece[i] == s[p + i] by {
        assert(c[p + i] == s[0 + (p + i)]);
    }
}

proof fn lemma_first_bytes(data: Seq<u8>, k: int, v: u8)
    requires
        0 <= k < data.len(),
        bits::bits_of(data).subrange(8 * k, 8 * k + 8) == bits::be(v as nat, 8),
    ensures
        data[k] == v,
{
    let s = bits::bits_of(data);
    bits::lemma_two_values();
    bits::lemma_be_len(v as nat, 8);
    assert(bits::has(s, 8 * k, bits::be(v as nat, 8))) by {
        assert forall|i: int| 0 <= i < 8 implies #[trigger] bits::be(v as nat, 8)[i] == s[8 * k + i] by {
            assert(s.subrange(8 * k, 8 * k + 8)[i] == s[8 * k + i]);
        }
    }
    bits::lemma_field_small(s, 8 * k, v as nat, 8);
    bits::lemma_pack_of_bits(data);
    assert(bits::pack(s)[k] == data[k]);
}

/// What `wrap_emdf` wraps, `extract_emdf_payloads` and `list_emdf_payloads` find again, whoever
/// protects it and whatever follows it.
pub proof fn law_emdf_roundtrip<P: EmdfProtector>(
    data: Seq<u8>,
    payloads: Seq<(u8, Seq<u8>)>,
    prot: P,
)
    requires
        ids_ok(payloads),
        sizes_ok(payloads),
        bits::has(bits::bits_of(data), 0, container_bits(payloads, prot)),
    ensures
        container_in(data) == Some(bits::bits_of(data)),
        extracted(bits::bits_of(data), PAYLOADS_BIT as int) == payloads,
        listed(bits::bits_of(data), PAYLOADS_BIT as int) == payloads.map_values(
            |e: (u8, Seq<u8>)| (e.0, e.1.len()),
        ),
        bits::field(bits::bits_of(data), 16, 16) == bits::pack(body_bits(payloads, prot)).len()
            % 0x1_0000,
{
    let s = bits::bits_of(data);
    let c = container_bits(payloads, prot);
    lemma_container(payloads, prot);
    lemma_container_sync(data, payloads, prot);
    lemma_has_within(s, c, 37, payloads_bits(payloads) + bits::be(0, 5));
    lemma_extracted(s, 37, payloads);
    assert forall|i: int| 0 <= i < 16 implies #[trigger] bits::bit(s, 16 + i) == bits::bit(c, 16 + i) by {
        assert(c[16 + i] == s[0 + (16 + i)]);
    }
    bits::lemma_field_ext(s, 16, c, 16, 16);
}

/// An OAMD payload that stands at `p` is the first one from there on.
proof fn lemma_oamd_at(s: Seq<bool>, p: int, oamd: Seq<bool>, tail: Seq<bool>)
    requires
        0 <= p < s.len(),
        bits::var_fits(bits::pack(oamd).len(), 8),
        bits::has(
            s,
            p,
            payload_header(PAYLOAD_OAMD, bits::pack(oamd).len()) + (bits::bits_of(bits::pack(oamd)) + tail),
        ),
    ensures
        oamd_start(s, p) matches Some(at) && bits::has(s, at, oamd),
{
    let bytes = bits::pack(oamd);
    let h = payload_header(PAYLOAD_OAMD, bytes.len());
    let b = bits::bits_of(bytes);
    let at: int = p + h.len() as int;
    bits::lemma_has_split(s, p, h, b + tail);
    lemma_header_read(s, p, PAYLOAD_OAMD, bytes.len());
    bits::lemma_has_split(s, at, b, tail);
    bits::lemma_pack_bits(oamd);
    bits::lemma_has_split(s, at, oamd, bits::zeros(bits::padding(oamd.len())));
    assert(oamd_start(s, p) == Some(at));
}

/// The OAMD payload of a frame's EMDF is found in it.
pub proof fn lemma_frame_oamd<P: EmdfProtector>(
    data: Seq<u8>,
    oamd: Seq<bool>,
    rest: Seq<(u8, Seq<u8>)>,
    prot: P,
)
    requires
        bits::var_fits(bits::pack(oamd).len(), 8),
        bits::has(
            bits::bits_of(data),
            0,
            container_bits(seq![(PAYLOAD_OAMD, bits::pack(oamd))] + rest, prot),
        ),
    ensures
        container_in(data) == Some(bits::bits_of(data)),
        oamd_start(bits::bits_of(data), PAYLOADS_BIT as int) matches Some(at) && bits::has(
            bits::bits_of(data),
            at,
            oamd,
        ),
{
    let bytes = bits::pack(oamd);
    let payloads = seq![(PAYLOAD_OAMD, bytes)] + rest;
    let s = bits::bits_of(data);
    let c = container_bits(payloads, prot);
    lemma_container(payloads, prot);
    lemma_container_sync(data, payloads, prot);
    lemma_has_within(s, c, 37, payloads_bits(payloads) + bits::be(0, 5));
    lemma_payloads_cons((PAYLOAD_OAMD, bytes), rest);
    let h = payload_header(PAYLOAD_OAMD, bytes.len());
    let tail = payloads_bits(rest) + bits::be(0, 5);
    assert(payloads_bits(payloads) + bits::be(0, 5) =~= h + (bits::bits_of(bytes) + tail));
    lemma_oamd_at(s, 37, oamd, tail);
}

/// The positions that `encode_frame_emdf` puts into a frame's EMDF, `decode_emdf_oamd` finds there,
/// whatever follows it.
pub proof fn law_frame_emdf_roundtrip<P: EmdfProtector>(
    data: Seq<u8>,
    objects: Seq<ObjectCode>,
    lfe: bool,
    prot: P,
    d: DecodedOamd,
)
    requires
        oamd::all_ok(objects),
        1 <= oamd::total_objects(objects.len() as int, lfe) <= 159,
        oamd::element_len(objects.len() as int, lfe) <= 4368,
        bits::has(
            bits::bits_of(data),
            0,
            container_bits(seq![(PAYLOAD_OAMD, bits::pack(oamd::oamd_bits(objects, lfe)))], prot),
        ),
        container_in(data) matches Some(s) && oamd_start(s, PAYLOADS_BIT as int) matches Some(at) ==> oamd::summary_of(
            d,
            s,
            at,
        ),
    ensures
        container_in(data) matches Some(s) && oamd_start(s, PAYLOADS_BIT as int) is Some,
        d.object_count == oamd::total_objects(objects.len() as int, lfe),
        d.bed_count == (if lfe {
            1int
        } else {
            0
        }),
        d.objects@ == oamd::expected(objects, lfe),
{
    let o = oamd::oamd_bits(objects, lfe);
    let none = Seq::<(u8, Seq<u8>)>::empty();
    lemma_oamd_size(objects, lfe);
    bits::lemma_two_values();
    bits::lemma_two_add(8, 8);
    assert(seq![(PAYLOAD_OAMD, bits::pack(o))] =~= seq![(PAYLOAD_OAMD, bits::pack(o))] + none);
    lemma_frame_oamd(data, o, none, prot);
    let s = bits::bits_of(data);
    oamd::law_oamd_roundtrip(s, oamd_start(s, PAYLOADS_BIT as int)->0, objects, lfe, d);
}

/// Widths of 32 and 8 bits and the values behind them read back.
proof fn lemma_values_read(s: Seq<bool>, c0: Seq<bool>, prim: nat, sec: nat, body: Seq<bool>)
    requires
        prim < bits::two(32),
        sec < bits::two(8),
        body == c0 + bits::be(2, 2) + bits::be(1, 2) + bits::be(prim, 32) + bits::be(sec, 8),
        32 + body.len() <= s.len(),
        s.subrange(32, 32 + body.len() as int) == body,
    ensures
        ({
            let q: int = 32 + c0.len() as int;
            &&& bits::field(s, q, 2) == 2
            &&& bits::field(s, q + 2, 2) == 1
            &&& bits::field(s, q + 4, 32) == prim
            &&& bits::field(s, q + 36, 8) == sec
            &&& s.subrange(32, q + 4) == c0 + bits::be(2, 2) + bits::be(1, 2)
            &&& s.subrange(32, q + 36) == c0 + bits::be(2, 2) + bits::be(1, 2) + bits::be(prim, 32)
            &&& body.len() == c0.len() + 44
        }),
{
    let n = c0.len() as int;
    bits::lemma_two_values();
    bits::lemma_be_len(2, 2);
    bits::lemma_be_len(1, 2);
    bits::lemma_be_len(prim, 32);
    bits::lemma_be_len(sec, 8);
    lemma_piece(s, 32, body, n, bits::be(2, 2));
    lemma_piece(s, 32, body, n + 2, bits::be(1, 2));
    lemma_piece(s, 32, body, n + 4, bits::be(prim, 32));
    lemma_piece(s, 32, body, n + 36, bits::be(sec, 8));
    bits::lemma_field_small(s, 32 + n, 2, 2);
    bits::lemma_field_small(s, 34 + n, 1, 2);
    bits::lemma_field_small(s, 36 + n, prim, 32);
    bits::lemma_field_small(s, 68 + n, sec, 8);
    let c = c0 + bits::be(2, 2) + bits::be(1, 2);
    let c2 = c + bits::be(prim, 32);
    assert(body.take(n + 4) =~= c);
    assert(body.take(n + 36) =~= c2);
    assert(s.subrange(32, 36 + n) =~= s.subrange(32, 32 + body.len() as int).take(n + 4));
    assert(s.subrange(32, 68 + n) =~= s.subrange(32, 32 + body.len() as int).take(n + 36));
}

/// A container that `PublicCrcProtector` protects is found to carry the public CRCs.
pub proof fn law_public_protection(
    data: Seq<u8>,
    payloads: Seq<(u8, Seq<u8>)>,
    r: ProtectionReport,
)
    requires
        ids_ok(payloads),
        sizes_ok(payloads),
        data.len() <= usize::MAX / 8 - 100,
        bits::bits_of(data) == container_bits(payloads, PublicCrcProtector),
        protection_in(data) matches Some(
            FoundProtection::At { start, values, prim_bits, sec_bits },
        ) ==> report_on(r, data.skip(start as int), values as int, prim_bits, sec_bits),
    ensures
        protection_in(data) matches Some(FoundProtection::At { start, values, prim_bits, sec_bits })
            && start == 0 && prim_bits == 32 && sec_bits == 8 && values + 40 <= 8 * data.len(),
        r.stored_prim == r.our_prim,
        r.stored_sec == r.our_sec,
{
    lemma_public_fields(data, payloads);
    lemma_public_report(data, payloads_bits(payloads).len() as int, r);
}

/// What the fields say, the report shows.
#[verifier::spinoff_prover]
proof fn lemma_public_report(data: Seq<u8>, n: int, r: ProtectionReport)
    requires
        0 <= n,
        data.len() <= usize::MAX / 8 - 100,
        emdf_sync(data, 0) == Some(0int),
        walk_end(bits::bits_of(data), 37) == WalkEnd::Mark(42 + n),
        bits::field(bits::bits_of(data), 42 + n, 2) == 2,
        bits::field(bits::bits_of(data), 44 + n, 2) == 1,
        bits::field(bits::bits_of(data), 46 + n, 32) == crc::crc32_of(bits::bits_of(data).subrange(32, 46 + n)),
        bits::field(bits::bits_of(data), 78 + n, 8) == crc::crc8_of(bits::bits_of(data).subrange(32, 78 + n)),
        86 + n <= bits::bits_of(data).len(),
        protection_in(data) matches Some(
            FoundProtection::At { start, values, prim_bits, sec_bits },
        ) ==> report_on(r, data.skip(start as int), values as int, prim_bits, sec_bits),
    ensures
        protection_in(data) matches Some(FoundProtection::At { start, values, prim_bits, sec_bits })
            && start == 0 && prim_bits == 32 && sec_bits == 8 && values + 40 <= 8 * data.len(),
        r.stored_prim == r.our_prim,
        r.stored_sec == r.our_sec,
{
    assert(data.skip(0) =~= data);
    assert(protect::prot_len(2) == 32 && protect::prot_len(1) == 8);
    assert(bits::bits_of(data).len() == 8 * data.len());
}

/// Where the fields of a container that `PublicCrcProtector` protects stand, and what they hold.
proof fn lemma_public_fields(data: Seq<u8>, payloads: Seq<(u8, Seq<u8>)>)
    requires
        ids_ok(payloads),
        sizes_ok(payloads),
        bits::bits_of(data) == container_bits(payloads, PublicCrcProtector),
    ensures
        ({
            let s = bits::bits_of(data);
            let n = payloads_bits(payloads).len() as int;
            &&& emdf_sync(data, 0) == Some(0int)
            &&& walk_end(s, 37) == WalkEnd::Mark(42 + n)
            &&& bits::field(s, 42 + n, 2) == 2
            &&& bits::field(s, 44 + n, 2) == 1
            &&& bits::field(s, 46 + n, 32) == crc::crc32_of(s.subrange(32, 46 + n))
            &&& bits::field(s, 78 + n, 8) == crc::crc8_of(s.subrange(32, 78 + n))
            &&& 86 + n <= s.len()
        }),
{
    let s = container_bits(payloads, PublicCrcProtector);
    let body = body_bits(payloads, PublicCrcProtector);
    let c0 = bits::be(0, 2) + bits::be(0, 3) + payloads_bits(payloads) + bits::be(0, 5);
    let c = c0 + bits::be(2, 2) + bits::be(1, 2);
    let prim = crc::crc32_of(c);
    let sec = crc::crc8_of(c + bits::be(prim as nat, 32));
    let n = payloads_bits(payloads).len() as int;
    lemma_container(payloads, PublicCrcProtector);
    lemma_container_sync(data, payloads, PublicCrcProtector);
    lemma_extracted(s, 37, payloads);
    lemma_public_body(payloads);
    assert(prim < bits::two(32) && sec < bits::two(8) && c0.len() == n + 10) by {
        bits::lemma_two_values();
        bits::lemma_be_len(0, 2);
        bits::lemma_be_len(0, 3);
        bits::lemma_be_len(0, 5);
    }
    lemma_values_read(s, c0, prim as nat, sec as nat, body);
}

/// The body that `PublicCrcProtector` protects.
proof fn lemma_public_body(payloads: Seq<(u8, Seq<u8>)>)
    ensures
        ({
            let c = bits::be(0, 2) + bits::be(0, 3) + payloads_bits(payloads) + bits::be(0, 5) + bits::be(2, 2) + bits::be(1, 2);
            let c2 = c + bits::be(crc::crc32_of(c) as nat, 32);
            body_bits(payloads, PublicCrcProtector) == c2 + bits::be(crc::crc8_of(c2) as nat, 8)
        }),
{
    let prot = PublicCrcProtector;
    let c = covered_bits(payloads, prot.key(), prot.lengths());
    assert(bits::bits_of(bits::pack(c)).take(c.len() as int) =~= c) by {
        bits::lemma_pack_bits(c);
    }
    let c2 = c + bits::be(crc::crc32_of(c) as nat, 32);
    assert(bits::bits_of(bits::pack(c2)).take(c2.len() as int) =~= c2) by {
        bits::lemma_pack_bits(c2);
    }
    assert(protect::prot_len(2) == 32 && protect::prot_len(1) == 8);
}

/// A piece of `body` stands in `s`, where `body` does.
proof fn lemma_piece(s: Seq<bool>, p: int, body: Seq<bool>, k: int, piece: Seq<bool>)
    requires
        0 <= p,
        p + body.len() <= s.len(),
        s.subrange(p, p + body.len()) == body,
        0 <= k,
        k + piece.len() <= body.len(),
        body.subrange(k, k + piece.len()) =~= piece,
    ensures
        bits::has(s, p + k, piece),
{
    assert forall|i: int| 0 <= i < piece.len() implies #[trigger] piece[i] == s[p + k + i] by {
        assert(body.subrange(k, k + piece.len())[i] == body[k + i]);
        assert(s.subrange(p, p + body.len())[k + i] == s[p + k + i]);
    }
}

} // verus!
