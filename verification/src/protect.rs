//! EMDF protection: the authentication field at the end of an EMDF container.
//!
//! `emdf_protection` is a keyed authentication code. `key_id` selects an authentication key, and how
//! the primary and secondary protection bits are calculated is left to the implementation. The
//! `EmdfProtector` trait is the one seam where a signer plugs in: `PublicCrcProtector` gives a
//! well-formed field that is not signed, `KeyedProtector` signs with a supplied key.

use crate::bits;
use crate::bits::BitWriter;
use crate::crc;
use crate::crc::{crc32_bits, crc8_bits};
use hmac::{Hmac, Mac};
use sha2::Sha256;
use vstd::prelude::*;

verus! {

/// Protection-length selector: field width in bits. Index 0 ("reserved" for primary) treated as 0.
pub const PROT_LEN: [u32; 4] = [0, 8, 32, 128];

/// Field width in bits for a protection-length selector.
pub open spec fn prot_len(code: int) -> nat {
    PROT_LEN[code] as nat
}

/// The seam where the `emdf_protection` computation lives.
pub trait EmdfProtector: Sized {
    /// The key that signs this stream.
    spec fn key(&self) -> u8;

    /// The primary and secondary length selectors.
    spec fn lengths(&self) -> (u8, u8);

    /// The primary protection value over `nbits` bits of `covered`.
    spec fn primary_of(&self, covered: Seq<u8>, nbits: nat) -> u128;

    /// The secondary protection value over `nbits` bits of `covered`.
    spec fn secondary_of(&self, covered: Seq<u8>, nbits: nat) -> u128;

    /// 3-bit `key_id` written into the EMDF header: which authentication key signs this stream.
    fn key_id(&self) -> (r: u8)
        ensures
            r == self.key(),
    ;

    /// (primary, secondary) 2-bit length selectors.
    fn length_codes(&self) -> (r: (u8, u8))
        ensures
            r == self.lengths(),
            r.0 < 4,
            r.1 < 4,
    ;

    /// Primary protection value over `covered` = first `nbits` body bits (emdf_version .. end of the
    /// 2+2 length-selector bits), MSB-first byte-padded.
    fn primary(&self, covered: &[u8], nbits: usize) -> (r: u128)
        requires
            nbits <= 8 * covered@.len(),
        ensures
            r == self.primary_of(covered@, nbits as nat),
    ;

    /// Secondary protection value over `covered` = the same region plus the primary bits.
    fn secondary(&self, covered: &[u8], nbits: usize) -> (r: u128)
        requires
            nbits <= 8 * covered@.len(),
        ensures
            r == self.secondary_of(covered@, nbits as nat),
    ;
}

/// Default protector: public, deterministic CRCs. The emitted field is well-formed, but it is
/// *unsigned*: a decoder that validates a signature rejects it.
pub struct PublicCrcProtector;

impl EmdfProtector for PublicCrcProtector {
    open spec fn key(&self) -> u8 {
        0
    }

    open spec fn lengths(&self) -> (u8, u8) {
        (2, 1)
    }

    open spec fn primary_of(&self, covered: Seq<u8>, nbits: nat) -> u128 {
        crc::crc32_of(bits::bits_of(covered).take(nbits as int)) as u128
    }

    open spec fn secondary_of(&self, covered: Seq<u8>, nbits: nat) -> u128 {
        crc::crc8_of(bits::bits_of(covered).take(nbits as int)) as u128
    }

    fn key_id(&self) -> (r: u8) {
        0
    }

    fn length_codes(&self) -> (r: (u8, u8)) {
        (2, 1)
    }

    fn primary(&self, covered: &[u8], nbits: usize) -> (r: u128) {
        crc32_bits(covered, nbits) as u128
    }

    fn secondary(&self, covered: &[u8], nbits: usize) -> (r: u128) {
        crc8_bits(covered, nbits) as u128
    }
}

/// The HMAC-SHA256 code of a message under a key.
pub uninterp spec fn hmac_sha256(key: Seq<u8>, message: Seq<u8>) -> Seq<u8>;

/// `Hmac::<Sha256>`: a code made with `new_from_slice`, one `update` and `finalize`. It takes a key of
/// any length. The contract claims that the code depends on key and message alone, and has 32 bytes.
#[verifier::external_body]
fn hmac_sha256_tag(key: &[u8], message: &[u8]) -> (tag: Vec<u8>)
    ensures
        tag@ == hmac_sha256(key@, message@),
        tag@.len() == 32,
{
    let mut mac = <Hmac<Sha256>>::new_from_slice(key).expect("HMAC accepts any key length");
    mac.update(message);
    mac.finalize().into_bytes().to_vec()
}

/// The message that is authenticated: the key id, and the bytes that hold the covered bits.
pub open spec fn mac_message(key_id: u8, covered: Seq<u8>, nbits: nat) -> Seq<u8> {
    let n = if (nbits + 7) / 8 <= covered.len() {
        (nbits + 7) / 8
    } else {
        covered.len()
    };
    seq![key_id] + covered.take(n as int)
}

/// The protection value: the top `out_bits` bits of a code.
pub open spec fn mac_value(tag: Seq<u8>, out_bits: nat) -> u128 {
    bits::field(bits::bits_of(tag), 0, out_bits) as u128
}

/// The top `out_bits` bits of a code, as a number.
pub fn truncate_tag(tag: &[u8], out_bits: u32) -> (v: u128)
    requires
        out_bits <= 128,
        out_bits <= 8 * tag@.len(),
    ensures
        v == mac_value(tag@, out_bits as nat),
        v == bits::field(bits::bits_of(tag@), 0, out_bits as nat),
        v < bits::two(out_bits as nat),
{
    let ghost s = bits::bits_of(tag@);
    let mut v: u128 = 0;
    let mut i: u32 = 0;
    proof {
        bits::lemma_two_add(64, 64);
        lemma_two_64();
    }
    while i < out_bits
        invariant
            i <= out_bits <= 128,
            out_bits <= 8 * tag@.len(),
            s == bits::bits_of(tag@),
            v == bits::field(s, 0, i as nat),
            v < bits::two(i as nat),
            bits::two(128) == 0x1_0000_0000_0000_0000_0000_0000_0000_0000int,
        decreases out_bits - i,
    {
        let b = (tag[(i / 8) as usize] >> ((7 - i % 8) as u8)) & 1;
        proof {
            let d = tag@[i as int / 8];
            let k = (7 - i % 8) as u8;
            assert((d >> k) & 1 == 0 || (d >> k) & 1 == 1) by (bit_vector);
            bits::lemma_two_mono((i + 1) as nat, 128);
        }
        v = 2 * v + b as u128;
        i = i + 1;
    }
    v
}

proof fn lemma_two_64()
    ensures
        bits::two(64) == 0x1_0000_0000_0000_0000,
{
    bits::lemma_two_values();
    bits::lemma_two_add(32, 32);
}

/// A keyed code over the covered bits: HMAC-SHA256 over `key_id || covered_bytes`, truncated to the
/// top `out_bits` bits.
fn dolby_keyed_mac(key: &[u8], key_id: u8, covered: &[u8], nbits: usize, out_bits: u32) -> (v: u128)
    requires
        out_bits <= 128,
    ensures
        v == mac_value(
            hmac_sha256(key@, mac_message(key_id, covered@, nbits as nat)),
            out_bits as nat,
        ),
{
    let mut message: Vec<u8> = Vec::new();
    message.push(key_id);
    let whole: usize = if nbits % 8 == 0 {
        nbits / 8
    } else {
        nbits / 8 + 1
    };
    let nbytes: usize = if whole <= covered.len() {
        whole
    } else {
        covered.len()
    };
    message.extend_from_slice(&covered[0..nbytes]);
    assert(message@ =~= mac_message(key_id, covered@, nbits as nat));
    let tag = hmac_sha256_tag(key, &message);
    truncate_tag(&tag, out_bits)
}

/// Keyed protector: signs the EMDF with a supplied key.
pub struct KeyedProtector {
    pub key: Vec<u8>,
    pub key_id: u8,
}

impl EmdfProtector for KeyedProtector {
    open spec fn key(&self) -> u8 {
        self.key_id
    }

    open spec fn lengths(&self) -> (u8, u8) {
        (2, 1)
    }

    open spec fn primary_of(&self, covered: Seq<u8>, nbits: nat) -> u128 {
        mac_value(hmac_sha256(self.key@, mac_message(self.key_id, covered, nbits)), 32)
    }

    open spec fn secondary_of(&self, covered: Seq<u8>, nbits: nat) -> u128 {
        mac_value(hmac_sha256(self.key@, mac_message(self.key_id, covered, nbits)), 8)
    }

    fn key_id(&self) -> (r: u8) {
        self.key_id
    }

    fn length_codes(&self) -> (r: (u8, u8)) {
        (2, 1)
    }

    fn primary(&self, covered: &[u8], nbits: usize) -> (r: u128) {
        dolby_keyed_mac(&self.key, self.key_id, covered, nbits, 32)
    }

    fn secondary(&self, covered: &[u8], nbits: usize) -> (r: u128) {
        dolby_keyed_mac(&self.key, self.key_id, covered, nbits, 8)
    }
}

/// The protector in use: one that was installed, or the public CRCs.
pub struct ActiveProtector<P: EmdfProtector> {
    pub installed: Option<P>,
}

impl<P: EmdfProtector> ActiveProtector<P> {
    /// Nothing is installed yet.
    pub fn new() -> (a: Self)
        ensures
            a.installed is None,
    {
        ActiveProtector { installed: None }
    }
}

/// Install the active EMDF protector. No-op if one is installed already.
pub fn set_protector<P: EmdfProtector>(active: &mut ActiveProtector<P>, p: P)
    ensures
        old(active).installed is None ==> final(active).installed == Some(p),
        old(active).installed is Some ==> final(active).installed == old(active).installed,
{
    if active.installed.is_none() {
        active.installed = Some(p);
    }
}

impl<P: EmdfProtector> EmdfProtector for ActiveProtector<P> {
    open spec fn key(&self) -> u8 {
        match self.installed {
            Some(p) => p.key(),
            None => PublicCrcProtector.key(),
        }
    }

    open spec fn lengths(&self) -> (u8, u8) {
        match self.installed {
            Some(p) => p.lengths(),
            None => PublicCrcProtector.lengths(),
        }
    }

    open spec fn primary_of(&self, covered: Seq<u8>, nbits: nat) -> u128 {
        match self.installed {
            Some(p) => p.primary_of(covered, nbits),
            None => PublicCrcProtector.primary_of(covered, nbits),
        }
    }

    open spec fn secondary_of(&self, covered: Seq<u8>, nbits: nat) -> u128 {
        match self.installed {
            Some(p) => p.secondary_of(covered, nbits),
            None => PublicCrcProtector.secondary_of(covered, nbits),
        }
    }

    fn key_id(&self) -> (r: u8) {
        match &self.installed {
            Some(p) => p.key_id(),
            None => PublicCrcProtector.key_id(),
        }
    }

    fn length_codes(&self) -> (r: (u8, u8)) {
        match &self.installed {
            Some(p) => p.length_codes(),
            None => PublicCrcProtector.length_codes(),
        }
    }

    fn primary(&self, covered: &[u8], nbits: usize) -> (r: u128) {
        match &self.installed {
            Some(p) => p.primary(covered, nbits),
            None => PublicCrcProtector.primary(covered, nbits),
        }
    }

    fn secondary(&self, covered: &[u8], nbits: usize) -> (r: u128) {
        match &self.installed {
            Some(p) => p.secondary(covered, nbits),
            None => PublicCrcProtector.secondary(covered, nbits),
        }
    }
}

/// Append a protection value of `n` bits (MSB-first) to the body writer.
pub(crate) fn write_protection_bits(b: &mut BitWriter, val: u128, n: u32)
    requires
        old(b).wf(),
        n <= 128,
    ensures
        final(b).wf(),
        final(b)@ == old(b)@ + bits::be(val as nat, n as nat),
{
    let mut i: u32 = n;
    if n == 128 {
        // The first shift would take all bits out.
        assert(val >> 127u128 == 0 || val >> 127u128 == 1) by (bit_vector);
        b.bit((val >> 127u128) as u32);
        i = 127;
        assert(b@ =~= old(b)@ + bits::be((val >> 127u128) as nat, 1)) by {
            reveal_with_fuel(bits::be, 2);
        }
    } else {
        assert(b@ =~= old(b)@ + bits::be((val >> (i as u128)) as nat, 0));
    }
    while i > 0
        invariant
            i <= n <= 128,
            i < 128,
            b.wf(),
            b@ == old(b)@ + bits::be((val >> (i as u128)) as nat, (n - i) as nat),
        decreases i,
    {
        let ghost j = i as u128;
        i = i - 1;
        let k = i as u128;
        proof {
            assert((val >> k) / 2 == (val >> j) && (val >> k) & 1 == (val >> k) % 2) by (bit_vector)
                requires
                    j < 128,
                    k + 1 == j,
            ;
        }
        b.bit(((val >> k) & 1) as u32);
        assert(b@ =~= old(b)@ + bits::be((val >> k) as nat, (n - i) as nat));
    }
    assert(val >> 0u128 == val) by (bit_vector);
}

} // verus!
