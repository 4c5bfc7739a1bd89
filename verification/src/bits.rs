//! MSB-first bit I/O over byte strings.
//!
//! A byte string is modelled by the sequence of its bits, most significant bit of the first byte
//! first. Numbers are read from and written to such sequences in big-endian order.

use vstd::prelude::*;

verus! {

/// Two to the power `n`.
pub open spec fn two(n: nat) -> nat
    decreases n,
{
    if n == 0 {
        1
    } else {
        2 * two((n - 1) as nat)
    }
}

/// Bit `i` of the byte string `data`, counting from the most significant bit of the first byte.
pub open spec fn bit_at(data: Seq<u8>, i: int) -> bool {
    (data[i / 8] >> ((7 - i % 8) as u8)) & 1 == 1
}

/// All the bits of the byte string `data`.
pub open spec fn bits_of(data: Seq<u8>) -> Seq<bool> {
    Seq::new(8 * data.len(), |i: int| bit_at(data, i))
}

/// The `n` low bits of `v`, most significant first.
pub open spec fn be(v: nat, n: nat) -> Seq<bool>
    decreases n,
{
    if n == 0 {
        Seq::empty()
    } else {
        be(v / 2, (n - 1) as nat).push(v % 2 == 1)
    }
}

/// Bit `i` of `s`; every bit outside `s` is zero.
pub open spec fn bit(s: Seq<bool>, i: int) -> bool {
    0 <= i < s.len() && s[i]
}

/// The number that the `n` bits of `s` from `pos` on spell out, most significant bit first.
pub open spec fn field(s: Seq<bool>, pos: int, n: nat) -> nat
    decreases n,
{
    if n == 0 {
        0
    } else {
        2 * field(s, pos, (n - 1) as nat) + (if bit(s, pos + n - 1) {
            1nat
        } else {
            0
        })
    }
}

/// `n` zero bits.
pub open spec fn zeros(n: nat) -> Seq<bool> {
    Seq::new(n, |i: int| false)
}

/// The bits `s` as whole bytes, the last one filled up with zeros.
pub open spec fn pack(s: Seq<bool>) -> Seq<u8> {
    Seq::new((s.len() + 7) / 8, |i: int| field(s, 8 * i, 8) as u8)
}

/// How many zero bits fill `n` bits up to whole bytes.
pub open spec fn padding(n: nat) -> nat {
    ((8 - n % 8) % 8) as nat
}

/// `piece` stands in `s` from `pos` on.
pub open spec fn has(s: Seq<bool>, pos: int, piece: Seq<bool>) -> bool {
    &&& 0 <= pos
    &&& pos + piece.len() <= s.len()
    &&& forall|i: int| 0 <= i < piece.len() ==> #[trigger] piece[i] == s[pos + i]
}

pub proof fn lemma_two_pos(n: nat)
    ensures
        two(n) > 0,
    decreases n,
{
    if n > 0 {
        lemma_two_pos((n - 1) as nat);
    }
}

pub proof fn lemma_two_add(a: nat, b: nat)
    ensures
        two(a + b) == two(a) * two(b),
    decreases a,
{
    if a > 0 {
        lemma_two_add((a - 1) as nat, b);
        assert(two(a + b) == 2 * two((a - 1 + b) as nat));
        let m = two((a - 1) as nat);
        assert(two(a) == 2 * m);
        assert(2 * (m * two(b)) == (2 * m) * two(b)) by (nonlinear_arith);
    } else {
        assert(two(a) == 1);
        assert(1 * two(b) == two(b));
    }
}

/// The powers of two that field widths need.
pub proof fn lemma_two_values()
    ensures
        two(0) == 1,
        two(1) == 2,
        two(2) == 4,
        two(3) == 8,
        two(4) == 16,
        two(5) == 32,
        two(6) == 64,
        two(7) == 128,
        two(8) == 256,
        two(9) == 512,
        two(10) == 1024,
        two(11) == 2048,
        two(14) == 16384,
        two(15) == 32768,
        two(16) == 65536,
        two(24) == 0x100_0000,
        two(32) == 0x1_0000_0000,
{
    reveal_with_fuel(two, 33);
}

pub proof fn lemma_two_mono(a: nat, b: nat)
    requires
        a <= b,
    ensures
        two(a) <= two(b),
    decreases b,
{
    if a < b {
        lemma_two_mono(a, (b - 1) as nat);
    }
}

pub proof fn lemma_be_len(v: nat, n: nat)
    ensures
        be(v, n).len() == n,
    decreases n,
{
    if n > 0 {
        lemma_be_len(v / 2, (n - 1) as nat);
    }
}

/// The digits of a number whose upper part is `h` and whose low `b` bits are `l`.
pub proof fn lemma_be_concat(h: nat, l: nat, a: nat, b: nat)
    requires
        l < two(b),
    ensures
        be(h * two(b) + l, a + b) == be(h, a) + be(l, b),
    decreases b,
{
    if b == 0 {
        assert(h * two(0) + l == h);
        assert(be(h, a) + be(l, 0) =~= be(h, a));
    } else {
        let t = two((b - 1) as nat);
        let v = h * two(b) + l;
        assert(h * two(b) == 2 * (h * t)) by (nonlinear_arith)
            requires
                two(b) == 2 * t,
        ;
        lemma_be_concat(h, l / 2, a, (b - 1) as nat);
        assert(v / 2 == h * t + l / 2);
        assert(be(h, a) + be(l, b) =~= (be(h, a) + be(l / 2, (b - 1) as nat)).push(l % 2 == 1));
    }
}

proof fn lemma_byte_bits(b: u8, k: int)
    requires
        0 <= k < 8,
    ensures
        be(b as nat, 8).len() == 8,
        be(b as nat, 8)[k] == ((b >> ((7 - k) as u8)) & 1 == 1),
{
    reveal_with_fuel(be, 9);
    assert((b >> 7u8) & 1 == (b / 128) % 2 && (b >> 6u8) & 1 == (b / 2 / 2 / 2 / 2 / 2 / 2) % 2
        && (b >> 5u8) & 1 == (b / 2 / 2 / 2 / 2 / 2) % 2 && (b >> 4u8) & 1 == (b / 2 / 2 / 2 / 2)
        % 2 && (b >> 3u8) & 1 == (b / 2 / 2 / 2) % 2 && (b >> 2u8) & 1 == (b / 2 / 2) % 2 && (b
        >> 1u8) & 1 == (b / 2) % 2 && (b >> 0u8) & 1 == b % 2 && b / 128 == b / 2 / 2 / 2 / 2 / 2
        / 2 / 2) by (bit_vector);
}

/// A byte string's bits are those of its bytes, one byte after the other.
pub proof fn lemma_bits_push(data: Seq<u8>, b: u8)
    ensures
        bits_of(data.push(b)) == bits_of(data) + be(b as nat, 8),
{
    lemma_be_len(b as nat, 8);
    let l = bits_of(data.push(b));
    let r = bits_of(data) + be(b as nat, 8);
    assert forall|i: int| 0 <= i < l.len() implies l[i] == r[i] by {
        if i < 8 * data.len() {
            assert(i / 8 < data.len());
        } else {
            assert(i / 8 == data.len());
            assert(i % 8 == i - 8 * data.len());
            lemma_byte_bits(b, i - 8 * data.len());
        }
    }
    assert(l =~= r);
}

/// The bits of a stretch of whole bytes.
pub proof fn lemma_bits_subrange(data: Seq<u8>, i: int, j: int)
    requires
        0 <= i <= j <= data.len(),
    ensures
        bits_of(data.subrange(i, j)) == bits_of(data).subrange(8 * i, 8 * j),
{
    let l = bits_of(data.subrange(i, j));
    let r = bits_of(data).subrange(8 * i, 8 * j);
    assert forall|k: int| 0 <= k < l.len() implies l[k] == r[k] by {
        assert((k + 8 * i) / 8 == k / 8 + i);
        assert((k + 8 * i) % 8 == k % 8);
    }
    assert(l =~= r);
}

/// A field depends on its own bits alone.
pub proof fn lemma_field_ext(s: Seq<bool>, p: int, t: Seq<bool>, q: int, n: nat)
    requires
        forall|i: int| 0 <= i < n ==> bit(s, #[trigger] (p + i)) == bit(t, q + i),
    ensures
        field(s, p, n) == field(t, q, n),
    decreases n,
{
    if n > 0 {
        assert forall|i: int| 0 <= i < n - 1 implies bit(s, #[trigger] (p + i)) == bit(t, q + i) by {}
        lemma_field_ext(s, p, t, q, (n - 1) as nat);
        assert(bit(s, p + (n - 1)) == bit(t, q + (n - 1)));
    }
}

pub proof fn lemma_field_bound(s: Seq<bool>, pos: int, n: nat)
    ensures
        field(s, pos, n) < two(n),
    decreases n,
{
    if n > 0 {
        lemma_field_bound(s, pos, (n - 1) as nat);
    }
}

/// What a field's number spells out in binary is the field.
pub proof fn lemma_be_field(s: Seq<bool>, pos: int, n: nat)
    ensures
        be(field(s, pos, n), n) == Seq::new(n, |k: int| bit(s, pos + k)),
    decreases n,
{
    if n > 0 {
        lemma_be_field(s, pos, (n - 1) as nat);
        lemma_be_len(field(s, pos, n), n);
        let v = field(s, pos, n);
        assert(v / 2 == field(s, pos, (n - 1) as nat));
        assert(be(v, n) =~= Seq::new(n, |k: int| bit(s, pos + k)));
    } else {
        assert(be(field(s, pos, n), n) =~= Seq::new(n, |k: int| bit(s, pos + k)));
    }
}

/// Where the binary expansion of `v` stands, the field reads `v` back.
pub proof fn lemma_field_be(s: Seq<bool>, pos: int, v: nat, n: nat)
    requires
        has(s, pos, be(v, n)),
    ensures
        field(s, pos, n) == v % two(n),
    decreases n,
{
    lemma_be_len(v, n);
    if n > 0 {
        let m = (n - 1) as nat;
        lemma_be_len(v / 2, m);
        assert forall|i: int| 0 <= i < be(v / 2, m).len() implies #[trigger] be(v / 2, m)[i]
            == s[pos + i] by {
            assert(be(v, n)[i] == be(v / 2, m)[i]);
        }
        lemma_field_be(s, pos, v / 2, m);
        assert(be(v, n)[n - 1] == (v % 2 == 1));
        lemma_two_pos(m);
        vstd::arithmetic::div_mod::lemma_mod_breakdown(v as int, 2, two(m) as int);
    }
}

/// As `lemma_field_be`, for a number that fits its field.
pub proof fn lemma_field_small(s: Seq<bool>, pos: int, v: nat, n: nat)
    requires
        has(s, pos, be(v, n)),
        v < two(n),
    ensures
        field(s, pos, n) == v,
{
    lemma_field_be(s, pos, v, n);
    vstd::arithmetic::div_mod::lemma_small_mod(v, two(n));
}

pub proof fn lemma_has_split(s: Seq<bool>, pos: int, a: Seq<bool>, b: Seq<bool>)
    requires
        has(s, pos, a + b),
    ensures
        has(s, pos, a),
        has(s, pos + a.len(), b),
{
    assert forall|i: int| 0 <= i < a.len() implies #[trigger] a[i] == s[pos + i] by {
        assert((a + b)[i] == a[i]);
    }
    assert forall|i: int| 0 <= i < b.len() implies #[trigger] b[i] == s[pos + a.len() + i] by {
        assert((a + b)[a.len() + i] == b[i]);
    }
}

pub proof fn lemma_has_bit(s: Seq<bool>, pos: int, b: bool)
    requires
        has(s, pos, seq![b]),
    ensures
        bit(s, pos) == b,
{
    assert(seq![b][0] == s[pos + 0]);
}

pub proof fn lemma_has_refl(s: Seq<bool>, rest: Seq<bool>)
    ensures
        has(s + rest, 0, s),
{
}

/// Packing and unpacking: the packed bytes hold the bits and then the filling.
pub proof fn lemma_pack_bits(s: Seq<bool>)
    ensures
        bits_of(pack(s)) == s + zeros(padding(s.len())),
{
    let l = bits_of(pack(s));
    let r = s + zeros(padding(s.len()));
    assert forall|i: int| 0 <= i < l.len() implies l[i] == r[i] by {
        let q = i / 8;
        let k = i % 8;
        let f = field(s, 8 * q, 8);
        lemma_field_bound(s, 8 * q, 8);
        lemma_two_values();
        lemma_be_field(s, 8 * q, 8);
        lemma_byte_bits(f as u8, k);
        assert(be(f, 8)[k] == bit(s, 8 * q + k));
        assert(8 * q + k == i);
    }
    assert(l =~= r);
}

pub proof fn lemma_pack_of_bits(data: Seq<u8>)
    ensures
        pack(bits_of(data)) == data,
{
    let s = bits_of(data);
    assert forall|i: int| 0 <= i < data.len() implies #[trigger] pack(s)[i] == data[i] by {
        let v = data[i] as nat;
        lemma_be_len(v, 8);
        assert forall|k: int| 0 <= k < be(v, 8).len() implies #[trigger] be(v, 8)[k] == s[8 * i
            + k] by {
            lemma_byte_bits(data[i], k);
            assert((8 * i + k) / 8 == i);
            assert((8 * i + k) % 8 == k);
        }
        lemma_two_values();
        lemma_field_small(s, 8 * i, v, 8);
    }
    assert(pack(s) =~= data);
}

/// The filling leaves the packed bytes as they are.
pub proof fn lemma_pack_padded(s: Seq<bool>)
    ensures
        pack(s + zeros(padding(s.len()))) == pack(s),
{
    lemma_pack_bits(s);
    lemma_pack_of_bits(pack(s));
}

/// Single bits of a binary expansion.
pub proof fn lemma_be_index(v: u32, n: u32, k: u32)
    requires
        k < n <= 32,
    ensures
        be(v as nat, n as nat).len() == n,
        be(v as nat, n as nat)[k as int] == ((v >> ((n - 1 - k) as u32)) & 1 == 1),
    decreases n,
{
    let m = (n - 1 - k) as u32;
    lemma_be_len(v as nat, n as nat);
    let h: u32 = v / 2;
    lemma_be_len(h as nat, (n - 1) as nat);
    assert(m == 0 ==> (v >> m) & 1 == v % 2) by (bit_vector);
    if m > 0 {
        let j = (m - 1) as u32;
        lemma_be_index(h, (n - 1) as u32, k);
        assert((h >> j) & 1 == (v >> m) & 1) by (bit_vector)
            requires
                h == v / 2,
                m == j + 1,
                m < 32,
        ;
    }
}

proof fn lemma_shift_one(n: u32)
    requires
        n < 32,
    ensures
        (1u32 << n) == two(n as nat),
    decreases n,
{
    if n == 0 {
        assert((1u32 << 0u32) == 1) by (bit_vector);
    } else {
        let m = (n - 1) as u32;
        lemma_shift_one(m);
        assert((1u32 << n) == 2 * (1u32 << m)) by (bit_vector)
            requires
                n < 32,
                n > 0,
                m == n - 1,
        ;
    }
}

/// MSB-first bit writer.
pub struct BitWriter {
    out: Vec<u8>,
    cur: u8,
    nbits: u8,
}

impl View for BitWriter {
    type V = Seq<bool>;

    /// The bits written so far.
    closed spec fn view(&self) -> Seq<bool> {
        bits_of(self.out@) + be(self.cur as nat, self.nbits as nat)
    }
}

impl BitWriter {
    /// The partial byte holds fewer than eight bits and nothing above them.
    pub closed spec fn wf(&self) -> bool {
        &&& self.nbits < 8
        &&& self.cur < two(self.nbits as nat)
    }

    pub fn new() -> (w: Self)
        ensures
            w.wf(),
            w@ == Seq::<bool>::empty(),
    {
        let w = Self { out: Vec::new(), cur: 0, nbits: 0 };
        assert(w@ =~= Seq::<bool>::empty());
        w
    }

    pub fn with_capacity(cap: usize) -> (w: Self)
        ensures
            w.wf(),
            w@ == Seq::<bool>::empty(),
    {
        let w = Self { out: Vec::with_capacity(cap), cur: 0, nbits: 0 };
        assert(w@ =~= Seq::<bool>::empty());
        w
    }

    /// Write the low bit of `b`.
    pub fn bit(&mut self, b: u32)
        requires
            old(self).wf(),
        ensures
            final(self).wf(),
            final(self)@ == old(self)@.push(b % 2 == 1),
    {
        proof {
            lemma_two_values();
            lemma_two_mono(self.nbits as nat, 7);
            lemma_be_len(self.cur as nat, self.nbits as nat);
        }
        let ghost prev = self@;
        let ghost out = self.out@;
        let ghost cur = self.cur as nat;
        let ghost n = self.nbits as nat;
        self.cur = 2 * self.cur + (b % 2) as u8;
        self.nbits = self.nbits + 1;
        assert(be(self.cur as nat, n + 1) == be(cur, n).push(b % 2 == 1));
        if self.nbits == 8 {
            proof {
                lemma_bits_push(out, self.cur);
                assert(prev.push(b % 2 == 1) =~= bits_of(out) + be(self.cur as nat, 8));
            }
            self.out.push(self.cur);
            self.cur = 0;
            self.nbits = 0;
            assert(self@ =~= bits_of(self.out@));
        } else {
            assert(prev.push(b % 2 == 1) =~= self@);
        }
    }

    /// Write the low `n` bits of `val`, MSB-first.
    pub fn write(&mut self, val: u32, n: u32)
        requires
            old(self).wf(),
            n <= 32,
        ensures
            final(self).wf(),
            final(self)@ == old(self)@ + be(val as nat, n as nat),
    {
        let mut i: u32 = n;
        assert(self@ =~= old(self)@ + be((val >> i) as nat, 0));
        while i > 0
            invariant
                i <= n <= 32,
                self.wf(),
                self@ == old(self)@ + be((val >> i) as nat, (n - i) as nat),
            decreases i,
        {
            let ghost j = i;
            i = i - 1;
            proof {
                assert((val >> i) / 2 == (val >> j) && (val >> i) & 1 == (val >> i) % 2)
                    by (bit_vector)
                    requires
                        j <= 32,
                        i + 1 == j,
                ;
            }
            let ghost prev = self@;
            self.bit((val >> i) & 1);
            assert(self@ =~= old(self)@ + be((val >> i) as nat, (n - i) as nat));
        }
        assert(val >> 0u32 == val) by (bit_vector);
    }

    /// Copy `nbits` MSB-first bits from `data` starting at absolute bit offset `start`.
    pub fn copy_bits_from(&mut self, data: &[u8], start: usize, nbits: usize)
        requires
            old(self).wf(),
            start + nbits <= 8 * data@.len(),
            start + nbits <= usize::MAX,
        ensures
            final(self).wf(),
            final(self)@ == old(self)@ + bits_of(data@).subrange(start as int, start + nbits),
    {
        let mut i: usize = start;
        assert(self@ =~= old(self)@ + bits_of(data@).subrange(start as int, i as int));
        while i < start + nbits
            invariant
                start <= i <= start + nbits,
                start + nbits <= 8 * data@.len(),
                start + nbits <= usize::MAX,
                self.wf(),
                self@ == old(self)@ + bits_of(data@).subrange(start as int, i as int),
            decreases start + nbits - i,
        {
            let b = (data[i / 8] >> ((7 - i % 8) as u8)) & 1;
            proof {
                let d = data@[i as int / 8];
                let k = (7 - i % 8) as u8;
                assert((d >> k) & 1 == 0 || (d >> k) & 1 == 1) by (bit_vector);
            }
            self.bit(b as u32);
            i = i + 1;
            assert(self@ =~= old(self)@ + bits_of(data@).subrange(start as int, i as int));
        }
    }

    /// Copy the first `nbits` MSB-first bits of `data`.
    pub fn copy_bits(&mut self, data: &[u8], nbits: usize)
        requires
            old(self).wf(),
            nbits <= 8 * data@.len(),
        ensures
            final(self).wf(),
            final(self)@ == old(self)@ + bits_of(data@).take(nbits as int),
    {
        self.copy_bits_from(data, 0, nbits);
        assert(bits_of(data@).subrange(0, nbits as int) =~= bits_of(data@).take(nbits as int));
    }

    /// Write `n` zero bits.
    pub fn zero_bits(&mut self, n: usize)
        requires
            old(self).wf(),
        ensures
            final(self).wf(),
            final(self)@ == old(self)@ + zeros(n as nat),
    {
        let mut i: usize = 0;
        assert(self@ =~= old(self)@ + zeros(0));
        while i < n
            invariant
                i <= n,
                self.wf(),
                self@ == old(self)@ + zeros(i as nat),
            decreases n - i,
        {
            self.bit(0);
            i = i + 1;
            assert(self@ =~= old(self)@ + zeros(i as nat));
        }
    }

    /// Number of bits written so far.
    pub fn bit_len(&self) -> (n: usize)
        requires
            self.wf(),
            self@.len() <= usize::MAX,
        ensures
            n == self@.len(),
    {
        proof {
            lemma_be_len(self.cur as nat, self.nbits as nat);
        }
        self.out.len() * 8 + self.nbits as usize
    }

    /// Number of bits written so far.
    pub fn bits_written(&self) -> (n: usize)
        requires
            self.wf(),
            self@.len() <= usize::MAX,
        ensures
            n == self@.len(),
    {
        self.bit_len()
    }

    /// Byte-padded snapshot of the bits written so far, plus the exact bit count.
    pub fn snapshot(&self) -> (r: (Vec<u8>, usize))
        requires
            self.wf(),
            self@.len() <= usize::MAX,
        ensures
            r.0@ == pack(self@),
            r.1 == self@.len(),
    {
        let nbits = self.bit_len();
        let copy = BitWriter { out: self.out.clone(), cur: self.cur, nbits: self.nbits };
        assert(copy.out@ =~= self.out@);
        (copy.into_bytes(), nbits)
    }

    /// Flush to bytes, zero-padding the final partial byte (MSB-aligned).
    pub fn into_bytes(self) -> (r: Vec<u8>)
        requires
            self.wf(),
        ensures
            r@ == pack(self@),
    {
        let mut w = self;
        let ghost s = self@;
        let ghost n = self.nbits as nat;
        let mut fill: u8 = 0;
        proof {
            lemma_be_len(self.cur as nat, n);
            assert(w@ =~= s + zeros(0));
        }
        while w.nbits != 0
            invariant
                w.wf(),
                w@ == s + zeros(fill as nat),
                s.len() % 8 == n,
                n < 8,
                n == 0 ==> fill == 0 && w.nbits == 0,
                n > 0 ==> (w.nbits == n + fill || w.nbits == 0 && n + fill == 8),
            decreases 8 - fill,
        {
            w.bit(0);
            fill = fill + 1;
            proof {
                lemma_be_len(w.cur as nat, w.nbits as nat);
                assert(w@ =~= s + zeros(fill as nat));
            }
        }
        proof {
            assert(fill as nat == padding(s.len()));
            lemma_pack_padded(s);
            assert(w@ =~= bits_of(w.out@));
            lemma_pack_of_bits(w.out@);
        }
        w.out
    }

    /// The bytes written, when they are whole bytes.
    pub fn finish(self) -> (r: Vec<u8>)
        requires
            self.wf(),
            self@.len() % 8 == 0,
        ensures
            bits_of(r@) == self@,
            r@ == pack(self@),
    {
        proof {
            lemma_pack_bits(self@);
            assert(self@ + zeros(0) =~= self@);
        }
        self.into_bytes()
    }
}

/// MSB-first bit reader over a byte string.
pub struct BitReader<'a> {
    pub data: &'a [u8],
    /// Current position, in bits from the start of `data`.
    pub pos: usize,
}

/// Shifting a bit in commutes with keeping the low 32 bits.
proof fn lemma_shift_mod(f: nat, b: nat)
    ensures
        (2 * f + b) % 0x1_0000_0000 == (2 * (f % 0x1_0000_0000) + b) % 0x1_0000_0000,
{
    let q = f / 0x1_0000_0000;
    let r = f % 0x1_0000_0000;
    vstd::arithmetic::div_mod::lemma_mod_multiples_vanish(
        2 * q as int,
        (2 * r + b) as int,
        0x1_0000_0000,
    );
    assert(2 * f + b == 0x1_0000_0000 * (2 * q) + (2 * r + b));
}

/// The value range of the field widths in use.
pub open spec fn in_width(v: u32, n: u32) -> bool {
    &&& n == 1 ==> v < 2
    &&& n == 2 ==> v < 4
    &&& n == 3 ==> v < 8
    &&& n == 4 ==> v < 16
    &&& n == 5 ==> v < 32
    &&& n == 6 ==> v < 64
    &&& n == 7 ==> v < 128
    &&& n == 8 ==> v < 256
    &&& n == 9 ==> v < 512
    &&& n == 10 ==> v < 1024
    &&& n == 11 ==> v < 2048
    &&& n == 14 ==> v < 16384
    &&& n == 16 ==> v < 65536
}

impl<'a> BitReader<'a> {
    /// The bits of the underlying byte string.
    pub open spec fn bits(&self) -> Seq<bool> {
        bits_of(self.data@)
    }

    pub fn new(data: &'a [u8]) -> (r: Self)
        ensures
            r.data@ == data@,
            r.pos == 0,
    {
        Self { data, pos: 0 }
    }

    /// A reader positioned at an absolute bit offset.
    pub fn at(data: &'a [u8], bit: usize) -> (r: Self)
        ensures
            r.data@ == data@,
            r.pos == bit,
    {
        Self { data, pos: bit }
    }

    /// Position the reader at an absolute bit offset.
    pub fn seek(&mut self, bit: usize)
        ensures
            final(self).data@ == old(self).data@,
            final(self).pos == bit,
    {
        self.pos = bit;
    }

    /// Read one bit. Past the end it is zero.
    pub fn read_bit(&mut self) -> (b: bool)
        requires
            old(self).pos < usize::MAX,
        ensures
            final(self).data@ == old(self).data@,
            final(self).pos == old(self).pos + 1,
            b == bit(old(self).bits(), old(self).pos as int),
    {
        let p = self.pos;
        self.pos = p + 1;
        if p / 8 < self.data.len() {
            (self.data[p / 8] >> ((7 - p % 8) as u8)) & 1 == 1
        } else {
            false
        }
    }

    /// Read `n` bits, MSB-first; the low 32 are kept. Reads past the end yield zero bits.
    pub fn read(&mut self, n: u32) -> (v: u32)
        requires
            old(self).pos + n <= usize::MAX,
        ensures
            final(self).data@ == old(self).data@,
            final(self).pos == old(self).pos + n,
            v == field(old(self).bits(), old(self).pos as int, n as nat) % 0x1_0000_0000,
            n <= 32 ==> v == field(old(self).bits(), old(self).pos as int, n as nat),
            in_width(v, n),
    {
        let mut v: u32 = 0;
        let mut i: u32 = 0;
        let ghost s = self.bits();
        let ghost p = self.pos as int;
        while i < n
            invariant
                i <= n,
                p + n <= usize::MAX,
                self.pos == p + i,
                self.data@ == old(self).data@,
                s == bits_of(self.data@),
                v == field(s, p, i as nat) % 0x1_0000_0000,
            decreases n - i,
        {
            let b: u32 = if self.read_bit() { 1 } else { 0 };
            let ghost f = field(s, p, i as nat);
            proof {
                assert((v << 1) | b == (if v >= 0x8000_0000 { 2 * (v - 0x8000_0000) } else { 2 * v })
                    + b) by (bit_vector)
                    requires
                        b <= 1,
                ;
                assert(field(s, p, (i + 1) as nat) == 2 * f + b);
                lemma_shift_mod(f, b as nat);
            }
            v = (v << 1) | b;
            i = i + 1;
        }
        proof {
            lemma_field_bound(s, p, n as nat);
            lemma_two_values();
            if n <= 32 {
                lemma_two_mono(n as nat, 32);
            }
        }
        v
    }
}

// ------------------------------------------------------------------ variable-length numbers

/// What a further group of a variable-length number contributes, when `acc` stands for the groups
/// before it and `num` of them count against the cap `max`: the value and the position after it.
pub open spec fn var_tail(s: Seq<bool>, pos: int, n: nat, max: int, num: int, acc: nat) -> (nat, int)
    decreases max - num,
{
    let v = (acc + field(s, pos, n)) % 0x1_0000_0000;
    if num >= max || !bit(s, pos + n) {
        (v, pos + n + 1)
    } else {
        var_tail(s, pos + n + 1, n, max, num + 1, (v * two(n) + two(n)) % 0x1_0000_0000)
    }
}

/// The variable-length number that stands in `s` at `pos`: groups of `n` bits, each followed by a
/// bit that says whether another group comes. Its value (modulo 2^32) and the position after it.
pub open spec fn var_at(s: Seq<bool>, pos: int, n: nat, max: int) -> (nat, int) {
    let v = field(s, pos, n);
    if max > 1 && bit(s, pos + n) {
        var_tail(s, pos + n + 1, n, max, 1, (v * two(n) + two(n)) % 0x1_0000_0000)
    } else {
        (v, pos + n + 1)
    }
}

/// What further groups of four bits can make of `acc`, when `left` more of them count.
spec fn nibbles_cap(acc: nat, left: nat) -> nat
    decreases left,
{
    if left == 0 {
        acc + 15
    } else {
        nibbles_cap((acc + 15) * 16 + 16, (left - 1) as nat)
    }
}

proof fn lemma_nibbles_mono(a: nat, b: nat, left: nat)
    requires
        a <= b,
    ensures
        nibbles_cap(a, left) <= nibbles_cap(b, left),
        b + 15 <= nibbles_cap(b, left),
    decreases left,
{
    if left > 0 {
        lemma_nibbles_mono((a + 15) * 16 + 16, (b + 15) * 16 + 16, (left - 1) as nat);
    }
}

proof fn lemma_nibbles(s: Seq<bool>, pos: int, max: int, num: int, acc: nat)
    requires
        num <= max,
        nibbles_cap(acc, (max - num) as nat) < 0x1_0000_0000,
    ensures
        var_tail(s, pos, 4, max, num, acc).0 <= nibbles_cap(acc, (max - num) as nat),
    decreases max - num,
{
    lemma_two_values();
    lemma_field_bound(s, pos, 4);
    let left = (max - num) as nat;
    lemma_nibbles_mono(acc, acc, left);
    let v = (acc + field(s, pos, 4)) % 0x1_0000_0000;
    assert(v == acc + field(s, pos, 4));
    if num < max && bit(s, pos + 4) {
        let next = v * two(4) + two(4);
        lemma_nibbles_mono(next, (acc + 15) * 16 + 16, (left - 1) as nat);
        lemma_nibbles(s, pos + 5, max, num + 1, next % 0x1_0000_0000);
    } else {
        lemma_nibbles_mono(v, acc + 15, 0);
    }
}

/// A variable-length number of four-bit groups that is capped at four is small.
pub proof fn lemma_var_nibbles(s: Seq<bool>, pos: int)
    ensures
        var_at(s, pos, 4, 4).0 < 0x12_0000,
{
    lemma_two_values();
    lemma_field_bound(s, pos, 4);
    let v = field(s, pos, 4);
    if bit(s, pos + 4) {
        reveal_with_fuel(nibbles_cap, 5);
        let acc = (v * two(4) + two(4)) % 0x1_0000_0000;
        assert(acc == v * 16 + 16);
        lemma_nibbles_mono(acc, 256, 3);
        lemma_nibbles(s, pos + 5, 4, 1, acc);
    }
}

/// The numbers that the writer can put down in groups of `n` bits: up to three groups.
pub open spec fn var_fits(v: nat, n: nat) -> bool {
    &&& n < 32
    &&& {
        ||| v < two(n)
        ||| n <= 15 && v < two(n) + two(2 * n)
        ||| n <= 10 && v < two(n) + two(2 * n) + two(3 * n)
    }
}

/// The variable-length form of `v` in groups of `n` bits.
pub open spec fn var_bits(v: nat, n: nat) -> Seq<bool> {
    let b = two(n);
    if v < b {
        be(v, n) + seq![false]
    } else if v < b + two(2 * n) {
        let u = (v - b) as nat;
        be(u / b, n) + seq![true] + be(u % b, n) + seq![false]
    } else {
        let u = (v - b - two(2 * n)) as nat;
        be(u / (b * b), n) + seq![true] + be((u / b) % b, n) + seq![true] + be(u % b, n) + seq![false]
    }
}

pub proof fn lemma_var_bits_len(v: nat, n: nat)
    ensures
        v < two(n) ==> var_bits(v, n).len() == n + 1,
        two(n) <= v < two(n) + two(2 * n) ==> var_bits(v, n).len() == 2 * n + 2,
        two(n) + two(2 * n) <= v ==> var_bits(v, n).len() == 3 * n + 3,
{
    let b = two(n);
    lemma_be_len(v, n);
    lemma_be_len(((v - b) as nat) / b, n);
    lemma_be_len(((v - b) as nat) % b, n);
    let u = (v - b - two(2 * n)) as nat;
    lemma_be_len(u / (b * b), n);
    lemma_be_len((u / b) % b, n);
    lemma_be_len(u % b, n);
}

proof fn lemma_var_two_groups(s: Seq<bool>, pos: int, x: nat, y: nat, n: nat, max: int)
    requires
        x < two(n),
        y < two(n),
        has(s, pos, be(x, n) + seq![true] + be(y, n) + seq![false]),
        x * two(n) + two(n) + y < 0x1_0000_0000,
        max >= 2,
    ensures
        var_at(s, pos, n, max) == (x * two(n) + two(n) + y, pos + 2 * n + 2),
{
    lemma_be_len(x, n);
    lemma_be_len(y, n);
    lemma_has_split(s, pos, be(x, n) + seq![true] + be(y, n), seq![false]);
    lemma_has_split(s, pos, be(x, n) + seq![true], be(y, n));
    lemma_has_split(s, pos, be(x, n), seq![true]);
    lemma_field_small(s, pos, x, n);
    lemma_has_bit(s, pos + n, true);
    lemma_field_small(s, pos + n + 1, y, n);
    lemma_has_bit(s, pos + n + 1 + n, false);
    let acc = x * two(n) + two(n);
    vstd::arithmetic::div_mod::lemma_small_mod(acc, 0x1_0000_0000);
}

proof fn lemma_var_three_groups(s: Seq<bool>, pos: int, x: nat, y: nat, z: nat, n: nat, max: int)
    requires
        x < two(n),
        y < two(n),
        z < two(n),
        has(
            s,
            pos,
            be(x, n) + seq![true] + be(y, n) + seq![true] + be(z, n) + seq![false],
        ),
        x * two(n) + two(n) + y < 0x1_0000_0000,
        (x * two(n) + two(n) + y) * two(n) + two(n) + z < 0x1_0000_0000,
        max >= 2,
    ensures
        var_at(s, pos, n, max) == (
            (x * two(n) + two(n) + y) * two(n) + two(n) + z,
            pos + 3 * n + 3,
        ),
{
    lemma_be_len(x, n);
    lemma_be_len(y, n);
    lemma_be_len(z, n);
    let h = be(x, n) + seq![true] + be(y, n) + seq![true];
    lemma_has_split(s, pos, h + be(z, n), seq![false]);
    lemma_has_split(s, pos, h, be(z, n));
    lemma_has_split(s, pos, be(x, n) + seq![true] + be(y, n), seq![true]);
    lemma_has_split(s, pos, be(x, n) + seq![true], be(y, n));
    lemma_has_split(s, pos, be(x, n), seq![true]);
    let p2 = pos + n + 1;
    let p3 = p2 + n + 1;
    lemma_field_small(s, pos, x, n);
    lemma_has_bit(s, pos + n, true);
    lemma_field_small(s, p2, y, n);
    lemma_has_bit(s, p2 + n, true);
    lemma_field_small(s, p3, z, n);
    lemma_has_bit(s, p3 + n, false);
    let acc = x * two(n) + two(n);
    let w = acc + y;
    let acc2 = w * two(n) + two(n);
    vstd::arithmetic::div_mod::lemma_small_mod(acc, 0x1_0000_0000);
    vstd::arithmetic::div_mod::lemma_small_mod(w, 0x1_0000_0000);
    vstd::arithmetic::div_mod::lemma_small_mod(acc2, 0x1_0000_0000);
    vstd::arithmetic::div_mod::lemma_small_mod(acc2 + z, 0x1_0000_0000);
    assert(var_tail(s, p3, n, max, 2, acc2) == (acc2 + z, p3 + n + 1));
    assert(var_tail(s, p2, n, max, 1, acc) == (acc2 + z, p3 + n + 1));
}

proof fn lemma_two_digits(u: nat, b: nat)
    requires
        b > 0,
        u < b * b,
    ensures
        u / b < b,
        u % b < b,
        (u / b) * b + u % b == u,
{
    vstd::arithmetic::div_mod::lemma_fundamental_div_mod(u as int, b as int);
    vstd::arithmetic::mul::lemma_mul_is_commutative((u / b) as int, b as int);
    vstd::arithmetic::div_mod::lemma_multiply_divide_lt(u as int, b as int, b as int);
}

proof fn lemma_three_digits(u: nat, b: nat)
    requires
        b > 0,
        u < (b * b) * b,
    ensures
        b * b > 0,
        u / (b * b) < b,
        (u / b) % b < b,
        u % b < b,
        ((u / (b * b)) * b + b + (u / b) % b) * b + b + u % b == u + b * b + b,
        (u / (b * b)) * b + b + (u / b) % b <= u + b * b + b,
{
    let q = u / b;
    vstd::arithmetic::div_mod::lemma_fundamental_div_mod(u as int, b as int);
    vstd::arithmetic::mul::lemma_mul_is_commutative(q as int, b as int);
    vstd::arithmetic::div_mod::lemma_div_denominator(u as int, b as int, b as int);
    vstd::arithmetic::mul::lemma_mul_is_associative(b as int, b as int, b as int);
    vstd::arithmetic::div_mod::lemma_multiply_divide_lt(u as int, b as int, (b * b) as int);
    lemma_two_digits(q, b);
    let w = q + b;
    vstd::arithmetic::mul::lemma_mul_is_distributive_add_other_way(b as int, q as int, b as int);
    assert(b * b > 0) by (nonlinear_arith)
        requires
            b > 0,
    ;
    assert(q <= q * b) by (nonlinear_arith)
        requires
            b > 0,
    ;
}

/// The two digits behind a number of the second range.
#[verifier::spinoff_prover]
proof fn lemma_second_digits(v: nat, n: nat)
    requires
        two(n) <= v < two(n) + two(2 * n),
    ensures
        ({
            let b = two(n);
            let x = ((v - b) as nat) / b;
            let y = ((v - b) as nat) % b;
            &&& x < b && y < b
            &&& x * b + b + y == v
        }),
{
    lemma_two_pos(n);
    lemma_two_add(n, n);
    lemma_two_digits((v - two(n)) as nat, two(n));
}

proof fn lemma_second_small(v: nat, n: nat)
    requires
        n <= 15,
        v < two(n) + two(2 * n),
    ensures
        v < 0x1_0000_0000,
{
    assert(two(30) == 0x4000_0000) by {
        reveal_with_fuel(two, 31);
    }
    lemma_two_mono(2 * n, 30);
    lemma_two_mono(n, 30);
}

#[verifier::spinoff_prover]
proof fn lemma_var_second(s: Seq<bool>, pos: int, v: nat, n: nat, max: int)
    requires
        n <= 15,
        two(n) <= v < two(n) + two(2 * n),
        has(s, pos, var_bits(v, n)),
        max >= 2,
    ensures
        var_at(s, pos, n, max) == (v, pos + 2 * n + 2),
{
    let b = two(n);
    let x = ((v - b) as nat) / b;
    let y = ((v - b) as nat) % b;
    lemma_second_digits(v, n);
    lemma_second_small(v, n);
    assert(var_bits(v, n) == be(x, n) + seq![true] + be(y, n) + seq![false]);
    lemma_var_two_groups(s, pos, x, y, n, max);
}

/// The three digits behind a number of the third range.
#[verifier::spinoff_prover]
proof fn lemma_third_digits(v: nat, n: nat)
    requires
        n <= 10,
        two(n) + two(2 * n) <= v < two(n) + two(2 * n) + two(3 * n),
    ensures
        ({
            let b = two(n);
            let u = (v - b - two(2 * n)) as nat;
            let x = u / (b * b);
            let y = (u / b) % b;
            let z = u % b;
            &&& x < b && y < b && z < b
            &&& (x * b + b + y) * b + b + z == v
            &&& x * b + b + y <= v
        }),
{
    let b = two(n);
    lemma_two_pos(n);
    lemma_two_add(n, n);
    lemma_two_add(2 * n, n);
    lemma_three_digits((v - b - two(2 * n)) as nat, b);
}

proof fn lemma_third_small(v: nat, n: nat)
    requires
        n <= 10,
        v < two(n) + two(2 * n) + two(3 * n),
    ensures
        v < 0x1_0000_0000,
{
    assert(4 * two(30) == 0x1_0000_0000) by {
        lemma_two_values();
        lemma_two_add(30, 2);
    }
    lemma_two_mono(3 * n, 30);
    lemma_two_mono(2 * n, 30);
    lemma_two_mono(n, 30);
}

#[verifier::spinoff_prover]
proof fn lemma_var_third(s: Seq<bool>, pos: int, v: nat, n: nat, max: int)
    requires
        n <= 10,
        two(n) + two(2 * n) <= v < two(n) + two(2 * n) + two(3 * n),
        has(s, pos, var_bits(v, n)),
        max >= 2,
    ensures
        var_at(s, pos, n, max) == (v, pos + 3 * n + 3),
{
    let b = two(n);
    let u = (v - b - two(2 * n)) as nat;
    let x = u / (b * b);
    let y = (u / b) % b;
    let z = u % b;
    lemma_third_digits(v, n);
    lemma_third_small(v, n);
    assert(var_bits(v, n) == be(x, n) + seq![true] + be(y, n) + seq![true] + be(z, n)
        + seq![false]);
    lemma_var_three_groups(s, pos, x, y, z, n, max);
}

/// A variable-length number reads back as it was written, and the reader stops right behind it.
pub proof fn law_var_roundtrip(s: Seq<bool>, pos: int, v: nat, n: nat, max: int)
    requires
        var_fits(v, n),
        has(s, pos, var_bits(v, n)),
        max >= 2,
    ensures
        var_at(s, pos, n, max) == (v, pos + var_bits(v, n).len()),
{
    lemma_var_bits_len(v, n);
    if v < two(n) {
        lemma_be_len(v, n);
        lemma_has_split(s, pos, be(v, n), seq![false]);
        lemma_field_small(s, pos, v, n);
        lemma_has_bit(s, pos + n, false);
    } else if v < two(n) + two(2 * n) {
        lemma_var_second(s, pos, v, n, max);
    } else {
        lemma_var_third(s, pos, v, n, max);
    }
}

impl BitWriter {
    /// `variable_bits` with up to three groups.
    pub fn write_var(&mut self, value: u32, n: u32)
        requires
            old(self).wf(),
            var_fits(value as nat, n as nat),
        ensures
            final(self).wf(),
            final(self)@ == old(self)@ + var_bits(value as nat, n as nat),
    {
        proof {
            lemma_shift_one(n);
            lemma_two_pos(n as nat);
            assert(two(2 * n as nat) == two(n as nat) * two(n as nat)) by {
                lemma_two_add(n as nat, n as nat);
            }
        }
        let base: u32 = 1u32 << n;
        if value < base {
            self.write(value, n);
            self.bit(0);
            assert(self@ =~= old(self)@ + var_bits(value as nat, n as nat));
            return ;
        }
        proof {
            assert(base <= 0x8000) by {
                lemma_two_values();
                lemma_two_mono(n as nat, 15);
            }
            assert(0 < base * base <= 0x8000 * 0x8000) by (nonlinear_arith)
                requires
                    0 < base <= 0x8000,
            ;
        }
        let square: u32 = base * base;
        if value - base < square {
            let v: u32 = value - base;
            self.write(v / base, n);
            self.bit(1);
            self.write(v % base, n);
            self.bit(0);
            assert(self@ =~= old(self)@ + var_bits(value as nat, n as nat));
            return ;
        }
        let v: u32 = value - base - square;
        self.write(v / square, n);
        self.bit(1);
        self.write((v / base) % base, n);
        self.bit(1);
        self.write(v % base, n);
        self.bit(0);
        assert(self@ =~= old(self)@ + var_bits(value as nat, n as nat));
    }
}

/// Makes room for one more group: `value * base + base`, modulo 2^32.
fn widen(value: u32, base: u32) -> (r: u32)
    ensures
        r == (value as nat * base as nat + base as nat) % 0x1_0000_0000,
{
    proof {
        let m = value as nat * base as nat;
        assert((m % 0x1_0000_0000 + base) % 0x1_0000_0000 == (m + base) % 0x1_0000_0000);
    }
    value.wrapping_mul(base).wrapping_add(base)
}

impl<'a> BitReader<'a> {
    /// `variable_bits_max(n, max_groups)`.
    pub fn read_var(&mut self, n: u32, max_groups: u32) -> (v: u32)
        requires
            n < 32,
            old(self).pos + (n + 1) * (max_groups + 1) <= usize::MAX,
        ensures
            final(self).data@ == old(self).data@,
            final(self).pos == var_at(old(self).bits(), old(self).pos as int, n as nat, max_groups as int).1,
            v == var_at(old(self).bits(), old(self).pos as int, n as nat, max_groups as int).0,
            old(self).pos + n + 1 <= final(self).pos <= old(self).pos + (n + 1) * (max_groups + 1),
    {
        let ghost s = self.bits();
        let ghost p0 = self.pos as int;
        let ghost step = n + 1;
        let ghost cap = (n + 1) * (max_groups + 1);
        proof {
            lemma_shift_one(n);
            assert(cap >= step) by (nonlinear_arith)
                requires
                    cap == (n + 1) * (max_groups + 1),
                    step == n + 1,
            ;
        }
        let base: u32 = 1u32 << n;
        let mut value: u32 = self.read(n);
        let mut more = self.read_bit();
        if max_groups <= 1 || !more {
            return value;
        }
        let mut num_group: u32 = 1;
        value = widen(value, base);
        let ghost goal = var_at(s, p0, n as nat, max_groups as int);
        let ghost mut used = step;
        while more
            invariant_except_break
                more ==> used == step * num_group && self.pos == p0 + used,
                more ==> goal == var_tail(s, self.pos as int, n as nat, max_groups as int, num_group as int, value as nat),
                !more ==> goal == (value as nat, self.pos as int),
            invariant
                1 <= num_group <= max_groups,
                n < 32,
                step == n + 1,
                cap == step * (max_groups + 1),
                base == two(n as nat),
                s == bits_of(self.data@),
                self.data@ == old(self).data@,
                p0 + cap <= usize::MAX,
                p0 + step <= self.pos <= p0 + cap,
            ensures
                goal == (value as nat, self.pos as int),
            decreases 2 * (max_groups - num_group) + (if more { 1int } else { 0 }),
        {
            proof {
                let next = step * (num_group + 1);
                assert(next == step * num_group + step && next <= cap) by (nonlinear_arith)
                    requires
                        next == step * (num_group + 1),
                        num_group <= max_groups,
                        cap == step * (max_groups + 1),
                        step > 0,
                ;
                used = next;
            }
            let group: u32 = self.read(n);
            let ghost acc = value as nat;
            value = value.wrapping_add(group);
            assert(value == (acc + group) % 0x1_0000_0000);
            more = self.read_bit();
            if num_group >= max_groups {
                break;
            }
            if more {
                value = widen(value, base);
                num_group = num_group + 1;
            }
        }
        value
    }
}

} // verus!
