//! Hexadecimal text and what it stands for.

use crate::hex;
use crate::hex::HexError;
use vstd::prelude::*;

verus! {

/// The digit of a value below 16, with letters from `a` or from `A` on.
pub open spec fn digit(v: int, capital: bool) -> char {
    if v < 10 {
        (48 + v) as char
    } else if capital {
        (55 + v) as char
    } else {
        (87 + v) as char
    }
}

/// A digit stands for its value, in either case.
pub proof fn law_digit(v: int, capital: bool)
    requires
        0 <= v < 16,
    ensures
        hex::digit_of(digit(v, capital)) == Some(v as u8),
        !hex::is_space(digit(v, capital)),
        hex::utf8_len(digit(v, capital)) == 1,
{
}

/// The text of some bytes: two digits for each, the higher one first.
pub open spec fn text(b: Seq<u8>, capital: bool) -> Seq<char> {
    Seq::new(
        2 * b.len(),
        |i: int|
            digit(
                if i % 2 == 0 {
                    b[i / 2] as int / 16
                } else {
                    b[i / 2] as int % 16
                },
                capital,
            ),
    )
}

proof fn lemma_plain(s: Seq<char>)
    requires
        forall|i: int| 0 <= i < s.len() ==> !hex::is_space(#[trigger] s[i]) && hex::utf8_len(s[i]) == 1,
    ensures
        hex::without_space(s) == s,
        hex::utf8_total(s) == s.len(),
    decreases s.len(),
{
    if s.len() > 0 {
        let t = s.drop_last();
        assert forall|i: int| 0 <= i < t.len() implies !hex::is_space(#[trigger] t[i]) && hex::utf8_len(
            t[i],
        ) == 1 by {
            assert(t[i] == s[i]);
        }
        lemma_plain(t);
        assert(!hex::is_space(s[s.len() - 1]) && hex::utf8_len(s[s.len() - 1]) == 1);
        assert(s =~= t.push(s.last()));
    }
}

proof fn lemma_text_bytes(b: Seq<u8>, capital: bool)
    ensures
        hex::all_bytes(text(b, capital)),
        hex::bytes_of(text(b, capital)) == b,
{
    let t = text(b, capital);
    assert forall|i: int| 0 <= i < t.len() / 2 implies (#[trigger] hex::byte_of(t[2 * i], t[2 * i + 1]))
        == Some(b[i]) by {
        law_digit(b[i] as int / 16, capital);
        law_digit(b[i] as int % 16, capital);
        assert((2 * i) / 2 == i && (2 * i + 1) / 2 == i);
    }
    assert(hex::bytes_of(t) =~= b);
}

/// The text of any bytes, in either case, stands for them.
pub proof fn law_hex(b: Seq<u8>, capital: bool)
    ensures
        hex::hex_of(text(b, capital)) == Ok::<Seq<u8>, HexError>(b),
{
    let t = text(b, capital);
    assert forall|i: int| 0 <= i < t.len() implies !hex::is_space(#[trigger] t[i]) && hex::utf8_len(t[i])
        == 1 by {
        law_digit(b[i / 2] as int / 16, capital);
        law_digit(b[i / 2] as int % 16, capital);
    }
    lemma_plain(t);
    lemma_text_bytes(b, capital);
}

/// White space between two parts of a text makes no difference.
pub proof fn law_spaces(a: Seq<char>, c: char, b: Seq<char>)
    requires
        hex::is_space(c),
    ensures
        hex::hex_of(a.push(c) + b) == hex::hex_of(a + b),
{
    lemma_space_out(a, c, b);
}

proof fn lemma_space_out(a: Seq<char>, c: char, b: Seq<char>)
    requires
        hex::is_space(c),
    ensures
        hex::without_space(a.push(c) + b) == hex::without_space(a + b),
    decreases b.len(),
{
    if b.len() == 0 {
        assert(a.push(c) + b =~= a.push(c));
        assert(a + b =~= a);
        assert(a.push(c).drop_last() =~= a);
    } else {
        assert((a.push(c) + b).drop_last() =~= a.push(c) + b.drop_last());
        assert((a + b).drop_last() =~= a + b.drop_last());
        lemma_space_out(a, c, b.drop_last());
    }
}

/// Blanks, tabs and the ends of lines are white space; digits are not.
pub proof fn law_space(c: char)
    ensures
        c == ' ' || c == '\t' || c == '\n' || c == '\r' ==> hex::is_space(c),
        hex::digit_of(c) is Some ==> !hex::is_space(c),
{
}

/// White space is what Unicode calls so: tab, line feed, vertical tab, form feed, carriage return, blank,
/// next line, no-break space, the Ogham space mark, the spaces from U+2000 to U+200A, the line and
/// paragraph separators, the narrow no-break space, the mathematical space and the ideographic space.
pub proof fn law_white_space(c: char)
    ensures
        hex::is_space(c) <==> {
            let n = c as int;
            n == 9 || n == 10 || n == 11 || n == 12 || n == 13 || n == 32 || n == 133 || n == 160 || n
                == 5760 || n == 8192 || n == 8193 || n == 8194 || n == 8195 || n == 8196 || n == 8197 || n
                == 8198 || n == 8199 || n == 8200 || n == 8201 || n == 8202 || n == 8232 || n == 8233
                || n == 8239 || n == 8287 || n == 12288
        },
{
}

/// A character takes one byte more at each of 2^7, 2^11 and 2^16.
pub proof fn law_utf8_len(c: char)
    ensures
        1 <= hex::utf8_len(c) <= 4,
        hex::utf8_len(c) <= 1 <==> (c as int) < 128,
        hex::utf8_len(c) <= 2 <==> (c as int) < 2048,
        hex::utf8_len(c) <= 3 <==> (c as int) < 65536,
{
}

/// Only decimal digits and the letters from a to f, in either case, are digits.
pub proof fn law_only_digits(c: char)
    ensures
        hex::digit_of(c) is Some <==> exists|v: int, capital: bool|
            0 <= v < 16 && #[trigger] digit(v, capital) == c,
{
    let n = c as int;
    if hex::digit_of(c) is Some {
        if n <= 57 {
            assert(digit(n - 48, true) == c);
        } else if n <= 70 {
            assert(digit(n - 55, true) == c);
        } else {
            assert(digit(n - 87, false) == c);
        }
    }
    if exists|v: int, capital: bool| 0 <= v < 16 && #[trigger] digit(v, capital) == c {
        let (v, capital) = choose|v: int, capital: bool|
            0 <= v < 16 && #[trigger] digit(v, capital) == c;
        law_digit(v, capital);
    }
}

/// A plus sign may stand in front of a single digit, in place of a zero.
pub proof fn law_plus(b: char)
    requires
        hex::digit_of(b) is Some,
    ensures
        hex::byte_of('+', b) == hex::byte_of('0', b),
        hex::byte_of('0', b) == Some(hex::digit_of(b)->0),
{
}

/// A text of an odd number of digits is no hexadecimal string, for its length.
pub proof fn law_odd(b: Seq<u8>, v: int, capital: bool)
    requires
        0 <= v < 16,
    ensures
        hex::hex_of(text(b, capital).push(digit(v, capital))) == Err::<Seq<u8>, HexError>(
            HexError::OddLength,
        ),
{
    let t = text(b, capital).push(digit(v, capital));
    assert forall|i: int| 0 <= i < t.len() implies !hex::is_space(#[trigger] t[i]) && hex::utf8_len(t[i])
        == 1 by {
        if i < 2 * b.len() {
            law_digit(b[i / 2] as int / 16, capital);
            law_digit(b[i / 2] as int % 16, capital);
        } else {
            law_digit(v, capital);
        }
    }
    lemma_plain(t);
}

/// A text with a character that is neither a digit, nor white space, nor a plus sign, is none either, if
/// its length is even.
pub proof fn law_invalid(s: Seq<char>, k: int)
    requires
        0 <= k < s.len(),
        s.len() % 2 == 0,
        forall|i: int| 0 <= i < s.len() ==> !hex::is_space(#[trigger] s[i]) && hex::utf8_len(s[i]) == 1,
        hex::digit_of(s[k]) is None,
        s[k] != '+',
    ensures
        hex::hex_of(s) == Err::<Seq<u8>, HexError>(HexError::InvalidDigit),
{
    lemma_plain(s);
    let i = k / 2;
    assert(hex::byte_of(s[2 * i], s[2 * i + 1]) is None);
}

// ------------------------------------------------------------------ keys

proof fn lemma_key_plain(s: Seq<char>, n: nat)
    requires
        n <= s.len(),
        forall|i: int| 0 <= i < s.len() ==> hex::digit_of(#[trigger] s[i]) is Some,
    ensures
        hex::key_digits(s, n) == s.take(n as int),
    decreases n,
{
    if n > 0 {
        lemma_key_plain(s, (n - 1) as nat);
        assert(hex::digit_of(s[n - 1]) is Some);
        if n < s.len() {
            let next = s[n as int];
            assert(hex::digit_of(next) is Some);
            assert(next != 'x');
        }
        assert(s.take(n as int) =~= s.take(n - 1).push(s[n - 1]));
    } else {
        assert(s.take(0) =~= Seq::empty());
    }
}

/// The text of a key stands for it.
pub proof fn law_key(b: Seq<u8>, capital: bool)
    requires
        b.len() > 0,
    ensures
        hex::key_of(text(b, capital)) == Ok::<Seq<u8>, HexError>(b),
{
    let t = text(b, capital);
    assert forall|i: int| 0 <= i < t.len() implies hex::digit_of(#[trigger] t[i]) is Some by {
        law_digit(b[i / 2] as int / 16, capital);
        law_digit(b[i / 2] as int % 16, capital);
    }
    lemma_key_plain(t, t.len());
    assert(t.take(t.len() as int) =~= t);
    lemma_text_bytes(b, capital);
}

/// A `0x` in front of a text makes no difference to the key.
pub proof fn law_key_prefix(s: Seq<char>)
    ensures
        hex::key_of(seq!['0', 'x'] + s) == hex::key_of(s),
{
    lemma_prefix_out(s, s.len());
}

proof fn lemma_prefix_out(s: Seq<char>, n: nat)
    requires
        n <= s.len(),
    ensures
        hex::key_digits(seq!['0', 'x'] + s, n + 2) == hex::key_digits(s, n),
    decreases n,
{
    let t = seq!['0', 'x'] + s;
    if n == 0 {
        reveal_with_fuel(hex::key_digits, 3);
        assert(t[0] == '0' && t[1] == 'x');
        assert(!hex::counts(t, 0));
        assert(!hex::counts(t, 1));
    } else {
        lemma_prefix_out(s, (n - 1) as nat);
        assert(t[n as int + 1] == s[n - 1]);
        if n < s.len() {
            assert(t[n as int + 2] == s[n as int]);
        }
        assert(hex::counts(t, n as int + 1) == hex::counts(s, n - 1));
    }
}

/// A character that is no digit makes no difference to the key, unless it is the `x` of a `0x` or parts
/// one.
pub proof fn law_key_ignores(a: Seq<char>, c: char, b: Seq<char>)
    requires
        hex::digit_of(c) is None,
        c != 'x',
        b.len() > 0 ==> b[0] != 'x',
    ensures
        hex::key_of(a.push(c) + b) == hex::key_of(a + b),
{
    lemma_key_front(a, c, b, a.len());
    lemma_key_back(a, c, b, b.len());
}

proof fn lemma_key_front(a: Seq<char>, c: char, b: Seq<char>, n: nat)
    requires
        hex::digit_of(c) is None,
        c != 'x',
        b.len() > 0 ==> b[0] != 'x',
        n <= a.len(),
    ensures
        hex::key_digits(a.push(c) + b, n) == hex::key_digits(a + b, n),
    decreases n,
{
    if n > 0 {
        lemma_key_front(a, c, b, (n - 1) as nat);
        let t = a.push(c) + b;
        let u = a + b;
        assert(t[n - 1] == a[n - 1] && u[n - 1] == a[n - 1]);
        if n < a.len() {
            assert(t[n as int] == a[n as int] && u[n as int] == a[n as int]);
        } else {
            assert(t[n as int] == c);
            if b.len() > 0 {
                assert(u[n as int] == b[0]);
            }
        }
        assert(hex::counts(t, n - 1) == hex::counts(u, n - 1));
    }
}

proof fn lemma_key_back(a: Seq<char>, c: char, b: Seq<char>, n: nat)
    requires
        hex::digit_of(c) is None,
        hex::key_digits(a.push(c) + b, a.len()) == hex::key_digits(a + b, a.len()),
        n <= b.len(),
    ensures
        hex::key_digits(a.push(c) + b, a.len() + 1 + n) == hex::key_digits(a + b, a.len() + n),
    decreases n,
{
    let t = a.push(c) + b;
    let u = a + b;
    let k = a.len();
    if n == 0 {
        assert(t[k as int] == c);
        assert(!hex::counts(t, k as int));
    } else {
        lemma_key_back(a, c, b, (n - 1) as nat);
        assert(t[k as int + n] == b[n - 1] && u[k + n - 1] == b[n - 1]);
        if n < b.len() {
            assert(t[k as int + n + 1] == b[n as int] && u[k as int + n] == b[n as int]);
        }
        assert(hex::counts(t, k as int + n) == hex::counts(u, k + n - 1));
        assert((k + 1 + n - 1) as nat == k + 1 + (n - 1) as nat);
        assert((k + n - 1) as nat == k + (n - 1) as nat);
    }
}

} // verus!
