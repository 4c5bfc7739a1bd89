//! Hexadecimal text.

use vstd::prelude::*;
use vstd::string::*;

verus! {

/// Why a text is no hexadecimal string.
#[derive(Clone, Copy, PartialEq, Eq, Structural, Debug)]
pub enum HexError {
    /// It does not have an even number of digits.
    OddLength,
    /// It has a character that is no digit.
    InvalidDigit,
    /// It has no digits.
    Empty,
}

/// Unicode white space.
pub open spec fn is_space(c: char) -> bool {
    let n = c as u32;
    ||| 9 <= n <= 13
    ||| n == 32
    ||| n == 0x85
    ||| n == 0xA0
    ||| n == 0x1680
    ||| 0x2000 <= n <= 0x200A
    ||| n == 0x2028
    ||| n == 0x2029
    ||| n == 0x202F
    ||| n == 0x205F
    ||| n == 0x3000
}

/// The value of a hexadecimal digit.
pub open spec fn digit_of(c: char) -> Option<u8> {
    let n = c as u32;
    if 48 <= n <= 57 {
        Some((n - 48) as u8)
    } else if 65 <= n <= 70 {
        Some((n - 55) as u8)
    } else if 97 <= n <= 102 {
        Some((n - 87) as u8)
    } else {
        None
    }
}

/// How many bytes a character takes in UTF-8.
pub open spec fn utf8_len(c: char) -> nat {
    let n = c as u32;
    if n < 0x80 {
        1
    } else if n < 0x800 {
        2
    } else if n < 0x1_0000 {
        3
    } else {
        4
    }
}

/// How many bytes a text takes in UTF-8.
pub open spec fn utf8_total(s: Seq<char>) -> nat
    decreases s.len(),
{
    if s.len() == 0 {
        0
    } else {
        utf8_total(s.drop_last()) + utf8_len(s.last())
    }
}

/// The text without its white space.
pub open spec fn without_space(s: Seq<char>) -> Seq<char>
    decreases s.len(),
{
    if s.len() == 0 {
        Seq::empty()
    } else if is_space(s.last()) {
        without_space(s.drop_last())
    } else {
        without_space(s.drop_last()).push(s.last())
    }
}

/// Character `i` of the text is a hexadecimal digit, and not the zero of a `0x`.
pub open spec fn counts(s: Seq<char>, i: int) -> bool {
    digit_of(s[i]) is Some && !(s[i] == '0' && i + 1 < s.len() && s[i + 1] == 'x')
}

/// The hexadecimal digits among the first `n` characters of the text, a `0x` aside.
pub open spec fn key_digits(s: Seq<char>, n: nat) -> Seq<char>
    decreases n,
{
    if n == 0 {
        Seq::empty()
    } else if counts(s, n - 1) {
        key_digits(s, (n - 1) as nat).push(s[n - 1])
    } else {
        key_digits(s, (n - 1) as nat)
    }
}

/// The byte that two characters spell out. A plus sign may stand in front of a single digit.
pub open spec fn byte_of(a: char, b: char) -> Option<u8> {
    match (digit_of(a), digit_of(b)) {
        (Some(x), Some(y)) => Some((16 * x + y) as u8),
        (None, Some(y)) => if a == '+' {
            Some(y)
        } else {
            None
        },
        _ => None,
    }
}

/// Every pair of characters spells out a byte.
pub open spec fn all_bytes(s: Seq<char>) -> bool {
    forall|i: int| 0 <= i < s.len() / 2 ==> (#[trigger] byte_of(s[2 * i], s[2 * i + 1])) is Some
}

/// The bytes that the pairs of characters spell out.
pub open spec fn bytes_of(s: Seq<char>) -> Seq<u8> {
    Seq::new(s.len() / 2, |i: int| byte_of(s[2 * i], s[2 * i + 1])->0)
}

/// What a hexadecimal text stands for, white space aside.
pub open spec fn hex_of(s: Seq<char>) -> Result<Seq<u8>, HexError> {
    let c = without_space(s);
    if utf8_total(c) % 2 == 1 {
        Err(HexError::OddLength)
    } else if c.len() % 2 == 1 || !all_bytes(c) {
        Err(HexError::InvalidDigit)
    } else {
        Ok(bytes_of(c))
    }
}

/// What a key text stands for: everything but hexadecimal digits is ignored, and so is `0x`.
pub open spec fn key_of(s: Seq<char>) -> Result<Seq<u8>, HexError> {
    let c = key_digits(s, s.len());
    if c.len() == 0 {
        Err(HexError::Empty)
    } else if c.len() % 2 == 1 {
        Err(HexError::OddLength)
    } else {
        Ok(bytes_of(c))
    }
}

fn check_space(c: char) -> (b: bool)
    ensures
        b == is_space(c),
{
    let n = c as u32;
    (9 <= n && n <= 13) || n == 32 || n == 0x85 || n == 0xA0 || n == 0x1680 || (0x2000 <= n && n
        <= 0x200A) || n == 0x2028 || n == 0x2029 || n == 0x202F || n == 0x205F || n == 0x3000
}

fn digit_value(c: char) -> (d: Option<u8>)
    ensures
        d == digit_of(c),
        d matches Some(x) ==> x < 16,
{
    let n = c as u32;
    if 48 <= n && n <= 57 {
        Some((n - 48) as u8)
    } else if 65 <= n && n <= 70 {
        Some((n - 55) as u8)
    } else if 97 <= n && n <= 102 {
        Some((n - 87) as u8)
    } else {
        None
    }
}

/// Whether a text takes an odd number of bytes in UTF-8.
fn odd_length(c: &Vec<char>) -> (b: bool)
    ensures
        b == (utf8_total(c@) % 2 == 1),
{
    let mut odd = false;
    let mut i: usize = 0;
    while i < c.len()
        invariant
            i <= c@.len(),
            odd == (utf8_total(c@.take(i as int)) % 2 == 1),
        decreases c@.len() - i,
    {
        let n = c[i] as u32;
        if n < 0x80 || (0x800 <= n && n < 0x1_0000) {
            odd = !odd;
        }
        assert(c@.take(i + 1).drop_last() =~= c@.take(i as int));
        i = i + 1;
    }
    assert(c@.take(i as int) =~= c@);
    odd
}

/// The bytes that pairs of characters spell out. None if a pair spells out none.
fn pairs_to_bytes(c: &Vec<char>) -> (r: Option<Vec<u8>>)
    requires
        c@.len() % 2 == 0,
    ensures
        r is Some == all_bytes(c@),
        r matches Some(b) ==> b@ == bytes_of(c@),
{
    let mut out: Vec<u8> = Vec::new();
    let n = c.len() / 2;
    let mut i: usize = 0;
    while i < n
        invariant
            i <= n,
            n == c@.len() / 2,
            out@.len() == i,
            forall|k: int|
                0 <= k < i ==> (#[trigger] byte_of(c@[2 * k], c@[2 * k + 1])) == Some(out@[k]),
        decreases n - i,
    {
        assert(c.len() == c@.len());
        let a = c[2 * i];
        let b = c[2 * i + 1];
        let byte: Option<u8> = match (digit_value(a), digit_value(b)) {
            (Some(x), Some(y)) => Some(16 * x + y),
            (None, Some(y)) => if a == '+' {
                Some(y)
            } else {
                None
            },
            _ => None,
        };
        assert(byte == byte_of(c@[2 * i as int], c@[2 * i + 1]));
        match byte {
            Some(v) => {
                out.push(v);
            },
            None => {
                return None;
            },
        }
        i = i + 1;
    }
    assert(out@ =~= bytes_of(c@));
    Some(out)
}

/// Parse a hex string (e.g. "DEADBEEF" or "de ad be ef") into bytes.
pub fn hex_bytes(s: &str) -> (r: Result<Vec<u8>, HexError>)
    ensures
        match hex_of(s@) {
            Ok(b) => r matches Ok(v) && v@ == b,
            Err(e) => r == Err::<Vec<u8>, HexError>(e),
        },
{
    let n = s.unicode_len();
    let mut clean: Vec<char> = Vec::new();
    let mut i: usize = 0;
    assert(s@.take(0) =~= Seq::empty());
    while i < n
        invariant
            i <= n,
            n == s@.len(),
            clean@ == without_space(s@.take(i as int)),
        decreases n - i,
    {
        let c = s.get_char(i);
        assert(s@.take(i + 1).drop_last() =~= s@.take(i as int));
        if !check_space(c) {
            clean.push(c);
        }
        i = i + 1;
    }
    assert(s@.take(i as int) =~= s@);
    if odd_length(&clean) {
        return Err(HexError::OddLength);
    }
    if clean.len() % 2 == 1 {
        return Err(HexError::InvalidDigit);
    }
    match pairs_to_bytes(&clean) {
        Some(b) => Ok(b),
        None => Err(HexError::InvalidDigit),
    }
}

/// Parse the text of a key: everything but hexadecimal digits is ignored, and so is `0x`.
pub fn parse_key_text(s: &str) -> (r: Result<Vec<u8>, HexError>)
    ensures
        match key_of(s@) {
            Ok(b) => r matches Ok(v) && v@ == b,
            Err(e) => r == Err::<Vec<u8>, HexError>(e),
        },
{
    let n = s.unicode_len();
    let mut clean: Vec<char> = Vec::new();
    let mut i: usize = 0;
    while i < n
        invariant
            i <= n,
            n == s@.len(),
            clean@ == key_digits(s@, i as nat),
            forall|k: int| 0 <= k < clean@.len() ==> digit_of(#[trigger] clean@[k]) is Some,
        decreases n - i,
    {
        let c = s.get_char(i);
        let prefix = c == '0' && i + 1 < n && s.get_char(i + 1) == 'x';
        if digit_value(c).is_some() && !prefix {
            clean.push(c);
        }
        i = i + 1;
    }
    if clean.len() == 0 {
        return Err(HexError::Empty);
    }
    if clean.len() % 2 == 1 {
        return Err(HexError::OddLength);
    }
    match pairs_to_bytes(&clean) {
        Some(b) => Ok(b),
        None => Err(HexError::InvalidDigit),
    }
}

} // verus!
