//! Gain codes as differences, and containers at any bit.

use crate::bits;
use crate::eac3;
use crate::emdf;
use crate::joc;
use crate::protect;
use crate::protect::EmdfProtector;
use vstd::prelude::*;

verus! {

// ------------------------------------------------------------------ gain codes

/// The sum of the first `n` symbols of a row.
pub open spec fn sum(row: Seq<i32>, n: nat) -> int
    decreases n,
{
    if n == 0 {
        0
    } else {
        sum(row, (n - 1) as nat) + row[n - 1]
    }
}

/// The differences of a row lead from the center, 96, to its gain code in each of its twelve bands,
/// modulo 192.
pub proof fn law_row(q: i32, band: nat)
    requires
        0 <= q < 192,
        band < 12,
    ensures
        joc::row_symbols(q).len() == 12,
        0 <= joc::row_symbols(q)[band as int] < 192,
        (96 + sum(joc::row_symbols(q), band + 1)) % 192 == q,
    decreases band,
{
    if band > 0 {
        law_row(q, (band - 1) as nat);
    } else {
        reveal_with_fuel(sum, 2);
    }
}

/// Different gain codes have different differences.
pub proof fn law_first_codes(p: i32, q: i32)
    requires
        0 <= p < 192,
        0 <= q < 192,
        joc::first_code(p) == joc::first_code(q),
    ensures
        p == q,
{
    law_row(p, 0);
    law_row(q, 0);
    reveal_with_fuel(sum, 2);
}

/// The rows of an object are those of its gain codes, channel by channel.
pub proof fn law_object_rows(m: [i32; 5], ch: int)
    requires
        0 <= ch < 5,
    ensures
        joc::object_rows(m).len() == 5,
        joc::object_rows(m)[ch] == joc::row_symbols(m[ch]),
{
}

// ------------------------------------------------------------------ trees

/// Every branch of a tree ends in a symbol or leads to a later node.
pub open spec fn descends(t: joc::Tree) -> bool {
    forall|k: int, b: bool|
        0 <= k < t.len() ==> #[trigger] joc::branch(t, k, b) < 0 || k < joc::branch(t, k, b) < t.len()
}

proof fn lemma_descends(t: joc::Tree, node: int, depth: nat)
    requires
        descends(t),
        0 <= node < t.len(),
        t.len() - node <= depth,
    ensures
        joc::tree_ok(t, node, depth),
    decreases depth,
{
    let zero = joc::branch(t, node, false);
    let one = joc::branch(t, node, true);
    if zero >= 0 {
        lemma_descends(t, zero as int, (depth - 1) as nat);
    }
    if one >= 0 {
        lemma_descends(t, one as int, (depth - 1) as nat);
    }
}

/// A tree of up to 32 nodes that leads nowhere twice is one to encode with, however deep it is.
pub proof fn law_small_tree(t: joc::Tree)
    requires
        1 <= t.len() <= 32,
        descends(t),
    ensures
        joc::tree_ok(t, 0, joc::MAX_CODE_BITS as nat),
{
    lemma_descends(t, 0, joc::MAX_CODE_BITS as nat);
}

/// No code of a tree to encode with has more than 32 bits, or none at all.
pub proof fn law_code_bits(t: joc::Tree, sym: int)
    requires
        joc::tree_ok(t, 0, joc::MAX_CODE_BITS as nat),
    ensures
        joc::tree_code(t, sym) matches Some(c) ==> 1 <= c.len() <= 32,
{
    joc::lemma_code_len(t, 0, joc::MAX_CODE_BITS as nat, sym);
}

/// A tree in which a branch of the root leads nowhere, or back to the root, is none.
pub proof fn law_broken_tree(t: joc::Tree, b: bool)
    requires
        t.len() == 0 || joc::branch(t, 0, b) >= t.len() || joc::branch(t, 0, b) == 0,
    ensures
        !joc::tree_ok(t, 0, joc::MAX_CODE_BITS as nat),
{
    reveal_with_fuel(joc::tree_ok, 2);
    if t.len() > 0 && joc::branch(t, 0, b) == 0 {
        lemma_endless(t, b, joc::MAX_CODE_BITS as nat);
    }
}

proof fn lemma_endless(t: joc::Tree, b: bool, depth: nat)
    requires
        joc::branch(t, 0, b) == 0,
    ensures
        !joc::tree_ok(t, 0, depth),
    decreases depth,
{
    if depth > 0 {
        lemma_endless(t, b, (depth - 1) as nat);
    }
}

// ------------------------------------------------------------------ containers

/// A place that is found looks like a container, and none in front of it does: a syncword, and behind it
/// a size in bytes that is not zero and that the bits have room for.
pub proof fn law_first_place(s: Seq<bool>, i: int)
    requires
        0 <= i,
    ensures
        joc::first_emdf(s, i) matches Some(k) ==> {
            &&& i <= k && k + 16 < s.len()
            &&& bits::field(s, k, 16) == 0x5838
            &&& 0 < bits::field(s, k + 16, 16)
            &&& k + 32 + 8 * bits::field(s, k + 16, 16) <= s.len()
            &&& forall|j: int| i <= j < k ==> !#[trigger] joc::emdf_at(s, j)
        },
        joc::first_emdf(s, i) is None ==> forall|j: int|
            i <= j && j + 16 < s.len() ==> !#[trigger] joc::emdf_at(s, j),
    decreases s.len() - i,
{
    if i + 16 < s.len() && !joc::emdf_at(s, i) {
        law_first_place(s, i + 1);
    }
}

proof fn lemma_first_at(s: Seq<bool>, i: int, at: int)
    requires
        0 <= i <= at,
        at + 16 < s.len(),
        joc::emdf_at(s, at),
        forall|j: int| i <= j < at ==> !#[trigger] joc::emdf_at(s, j),
    ensures
        joc::first_emdf(s, i) == Some(at),
    decreases at - i,
{
    if i < at {
        assert(!joc::emdf_at(s, i));
        lemma_first_at(s, i + 1, at);
    }
}

/// A container of less than 65536 bytes that stands anywhere in some bits is found there, where nothing in
/// front of it looks like one.
pub proof fn law_container_found<P: EmdfProtector>(
    s: Seq<bool>,
    at: int,
    payloads: Seq<(u8, Seq<u8>)>,
    prot: P,
)
    requires
        bits::has(s, at, emdf::container_bits(payloads, prot)),
        emdf::container_bits(payloads, prot).len() < 524288,
        forall|j: int| 0 <= j < at ==> !#[trigger] joc::emdf_at(s, j),
    ensures
        joc::first_emdf(s, 0) == Some(at),
{
    let c = emdf::container_bits(payloads, prot);
    let n = bits::pack(emdf::body_bits(payloads, prot)).len();
    emdf::lemma_container(payloads, prot);
    lemma_sync(payloads, prot);
    assert(c.len() == 32 + 8 * n);
    lemma_field_within(s, at, c, 0, 16);
    lemma_field_within(s, at, c, 16, 16);
    lemma_first_at(s, 0, at);
}

proof fn lemma_sync<P: EmdfProtector>(payloads: Seq<(u8, Seq<u8>)>, prot: P)
    ensures
        bits::field(emdf::container_bits(payloads, prot), 0, 16) == 0x5838,
{
    let c = emdf::container_bits(payloads, prot);
    let b = bits::be(emdf::EMDF_SYNC as nat, 16);
    bits::lemma_be_len(emdf::EMDF_SYNC as nat, 16);
    bits::lemma_two_values();
    assert(bits::has(c, 0, b)) by {
        assert forall|i: int| 0 <= i < b.len() implies #[trigger] b[i] == c[0 + i] by {}
    }
    bits::lemma_field_small(c, 0, emdf::EMDF_SYNC as nat, 16);
}

proof fn lemma_field_within(s: Seq<bool>, at: int, c: Seq<bool>, p: int, n: nat)
    requires
        bits::has(s, at, c),
        0 <= p,
        p + n <= c.len(),
    ensures
        bits::field(s, at + p, n) == bits::field(c, p, n),
{
    assert forall|i: int| 0 <= i < n implies bits::bit(s, #[trigger] (at + p + i)) == bits::bit(c, p + i) by {
        assert(c[p + i] == s[at + (p + i)]);
    }
    bits::lemma_field_ext(s, at + p, c, p, n);
}

// ------------------------------------------------------------------ protection

/// A length selector stands for no bits, one byte, four bytes or sixteen.
pub proof fn law_protection_bits(code: int)
    requires
        0 <= code < 4,
    ensures
        protect::prot_len(code) == (if code == 0 {
            0nat
        } else if code == 1 {
            8
        } else if code == 2 {
            32
        } else {
            128
        }),
{
}

/// The message of a keyed protection value is the key's id and the covered bytes, the last one among them
/// that is covered in part: it tells keys apart, and covered bytes.
pub proof fn law_mac_message(key_id: u8, covered: Seq<u8>, nbits: nat)
    requires
        nbits <= 8 * covered.len(),
    ensures
        ({
            let m = protect::mac_message(key_id, covered, nbits);
            &&& m[0] == key_id
            &&& 8 * (m.len() - 1) >= nbits
            &&& 8 * (m.len() - 1) < nbits + 8
            &&& forall|i: int| 0 <= i < m.len() - 1 ==> #[trigger] m[1 + i] == covered[i]
        }),
{
    let m = protect::mac_message(key_id, covered, nbits);
    assert forall|i: int| 0 <= i < m.len() - 1 implies #[trigger] m[1 + i] == covered[i] by {}
}

/// A shorter protection value is the top of a longer one.
pub proof fn law_mac_prefix(tag: Seq<u8>, n: nat, more: nat)
    requires
        n + more <= 128,
    ensures
        protect::mac_value(tag, n) == bits::field(bits::bits_of(tag), 0, n + more) / bits::two(more),
        protect::mac_value(tag, n) < bits::two(n),
{
    let s = bits::bits_of(tag);
    bits::lemma_field_bound(s, 0, n);
    bits::lemma_two_values();
    bits::lemma_two_mono(n, 128);
    lemma_two_128();
    lemma_field_top(s, 0, n, more);
}

proof fn lemma_two_128()
    ensures
        bits::two(128) == 0x1_0000_0000_0000_0000_0000_0000_0000_0000,
{
    bits::lemma_two_values();
    bits::lemma_two_add(32, 32);
    bits::lemma_two_add(64, 64);
    let a = bits::two(32);
    assert(a * a == 0x1_0000_0000_0000_0000) by (nonlinear_arith)
        requires
            a == 0x1_0000_0000,
    ;
    let b = bits::two(64);
    assert(b * b == 0x1_0000_0000_0000_0000_0000_0000_0000_0000) by (nonlinear_arith)
        requires
            b == 0x1_0000_0000_0000_0000,
    ;
}

proof fn lemma_field_top(s: Seq<bool>, p: int, n: nat, more: nat)
    ensures
        bits::field(s, p, n) == bits::field(s, p, n + more) / bits::two(more),
    decreases more,
{
    if more > 0 {
        let m = (more - 1) as nat;
        lemma_field_top(s, p, n, m);
        bits::lemma_two_pos(m);
        let f = bits::field(s, p, n + more);
        assert((n + more - 1) as nat == n + m);
        assert(f / 2 == bits::field(s, p, n + m));
        assert(bits::two(more) == 2 * bits::two(m));
        vstd::arithmetic::div_mod::lemma_div_denominator(f as int, 2, bits::two(m) as int);
    } else {
        assert(bits::two(0) == 1);
    }
}

// ------------------------------------------------------------------ headers

/// A channel mode has a center where it is odd, left and right from 2 on, one surround channel in modes 4
/// and 5 and two in modes 6 and 7; mode 0 is two programmes of one channel each.
pub proof fn law_channels(acmod: u8)
    requires
        1 <= acmod <= 7,
    ensures
        eac3::channels_of(0) == 2,
        eac3::channels_of(acmod) == (if acmod % 2 == 1 {
            1int
        } else {
            0
        }) + (if acmod >= 2 {
            2int
        } else {
            0
        }) + (if acmod >= 6 {
            2int
        } else if acmod >= 4 {
            1
        } else {
            0
        }),
{
}

} // verus!
