//! Text primitives: UTF-8 decoding and the decimal and hexadecimal spellings
//! of integers that names and messages are made of.
use vstd::prelude::*;
use vstd::utf8::{decode_utf8, encode_utf8, valid_utf8};

verus! {

/// The hexadecimal digit of `d`, which is the decimal one below ten.
pub open spec fn digit(d: int) -> char {
    if d == 0 { '0' }
    else if d == 1 { '1' }
    else if d == 2 { '2' }
    else if d == 3 { '3' }
    else if d == 4 { '4' }
    else if d == 5 { '5' }
    else if d == 6 { '6' }
    else if d == 7 { '7' }
    else if d == 8 { '8' }
    else if d == 9 { '9' }
    else if d == 10 { 'a' }
    else if d == 11 { 'b' }
    else if d == 12 { 'c' }
    else if d == 13 { 'd' }
    else if d == 14 { 'e' }
    else { 'f' }
}

/// The decimal spelling of `n`, without leading zeros.
pub open spec fn decimal(n: nat) -> Seq<char>
    decreases n,
{
    if n < 10 {
        seq![digit(n as int)]
    } else {
        decimal(n / 10).push(digit((n % 10) as int))
    }
}

/// The spelling of `n` with exactly `width` digits in `base`, the most
/// significant digits being dropped where they do not fit.
pub open spec fn padded(n: nat, base: nat, width: nat) -> Seq<char>
    decreases width,
{
    if width == 0 || base == 0 {
        Seq::empty()
    } else {
        padded(n / base, base, (width - 1) as nat).push(digit((n % base) as int))
    }
}

/// The lower-case hexadecimal spelling of `bytes`, two digits a byte.
pub open spec fn hex_text(bytes: Seq<u8>) -> Seq<char>
    decreases bytes.len(),
{
    if bytes.len() == 0 {
        Seq::empty()
    } else {
        hex_text(bytes.drop_last()) + padded(bytes.last() as nat, 16, 2)
    }
}

pub proof fn lemma_padded_len(n: nat, base: nat, width: nat)
    requires
        base > 0,
    ensures
        padded(n, base, width).len() == width,
    decreases width,
{
    if width > 0 {
        lemma_padded_len(n / base, base, (width - 1) as nat);
    }
}

/// `core::str::from_utf8`: accepts exactly the byte strings that are valid
/// UTF-8, and hands back the text that they encode.
#[verifier::external_body]
pub(crate) fn utf8_text(bytes: &[u8]) -> (r: Option<String>)
    ensures
        r is Some <==> valid_utf8(bytes@),
        r matches Some(s) ==> s@ == decode_utf8(bytes@),
{
    match core::str::from_utf8(bytes) {
        Ok(text) => Some(text.to_owned()),
        Err(_) => None,
    }
}

fn digit_str(d: u8) -> (s: &'static str)
    requires
        d < 16,
    ensures
        s@ == seq![digit(d as int)],
{
    proof {
        reveal_strlit("0");
        reveal_strlit("1");
        reveal_strlit("2");
        reveal_strlit("3");
        reveal_strlit("4");
        reveal_strlit("5");
        reveal_strlit("6");
        reveal_strlit("7");
        reveal_strlit("8");
        reveal_strlit("9");
        reveal_strlit("a");
        reveal_strlit("b");
        reveal_strlit("c");
        reveal_strlit("d");
        reveal_strlit("e");
        reveal_strlit("f");
    }
    let s: &'static str = match d {
        0 => "0",
        1 => "1",
        2 => "2",
        3 => "3",
        4 => "4",
        5 => "5",
        6 => "6",
        7 => "7",
        8 => "8",
        9 => "9",
        10 => "a",
        11 => "b",
        12 => "c",
        13 => "d",
        14 => "e",
        _ => "f",
    };
    assert(s@ =~= seq![digit(d as int)]);
    s
}

/// The decimal spelling of `n`.
pub fn decimal_string(n: u64) -> (s: String)
    ensures
        s@ == decimal(n as nat),
    decreases n,
{
    if n < 10 {
        digit_str(n as u8).to_owned()
    } else {
        let mut s = decimal_string(n / 10);
        s.append(digit_str((n % 10) as u8));
        assert(s@ =~= decimal(n as nat));
        s
    }
}

/// The spelling of `n` with exactly `width` digits in `base`.
pub fn padded_string(n: u64, base: u64, width: u32) -> (s: String)
    requires
        2 <= base <= 16,
    ensures
        s@ == padded(n as nat, base as nat, width as nat),
    decreases width,
{
    if width == 0 {
        let s = String::new();
        assert(s@ =~= padded(n as nat, base as nat, 0));
        s
    } else {
        let mut s = padded_string(n / base, base, width - 1);
        s.append(digit_str((n % base) as u8));
        assert(s@ =~= padded(n as nat, base as nat, width as nat));
        s
    }
}

/// The lower-case hexadecimal spelling of `bytes`.
pub fn hex_string(bytes: &[u8]) -> (s: String)
    ensures
        s@ == hex_text(bytes@),
{
    let mut s = String::new();
    let mut i: usize = 0;
    assert(bytes@.take(0) =~= Seq::<u8>::empty());
    assert(s@ =~= hex_text(bytes@.take(0)));
    while i < bytes.len()
        invariant
            i <= bytes@.len(),
            s@ == hex_text(bytes@.take(i as int)),
        decreases bytes@.len() - i,
    {
        let pair = padded_string(bytes[i] as u64, 16, 2);
        s.append(pair.as_str());
        proof {
            let next = bytes@.take(i + 1);
            assert(next.drop_last() =~= bytes@.take(i as int));
            assert(next.last() == bytes@[i as int]);
        }
        i = i + 1;
    }
    assert(bytes@.take(i as int) =~= bytes@);
    s
}

/// `a` followed by `b`.
pub fn join2(a: &str, b: &str) -> (s: String)
    ensures
        s@ == a@ + b@,
{
    let mut s = a.to_owned();
    s.append(b);
    s
}

/// `a`, `b` and `c`, one after the other.
pub fn join3(a: &str, b: &str, c: &str) -> (s: String)
    ensures
        s@ == a@ + b@ + c@,
{
    let mut s = join2(a, b);
    s.append(c);
    s
}

/// `a`, `b`, `c` and `d`, one after the other.
pub fn join4(a: &str, b: &str, c: &str, d: &str) -> (s: String)
    ensures
        s@ == a@ + b@ + c@ + d@,
{
    let mut s = join3(a, b, c);
    s.append(d);
    s
}

/// Two texts are the same exactly when their UTF-8 encodings are.
pub proof fn lemma_utf8_injective(a: Seq<char>, b: Seq<char>)
    ensures
        encode_utf8(a) == encode_utf8(b) <==> a == b,
{
    vstd::utf8::encode_utf8_decode_utf8(a);
    vstd::utf8::encode_utf8_decode_utf8(b);
}

/// What `utf8_text` gives back of the encoding of a text is that text.
pub proof fn lemma_utf8_round_trip(a: Seq<char>)
    ensures
        valid_utf8(encode_utf8(a)),
        decode_utf8(encode_utf8(a)) == a,
{
    vstd::utf8::encode_utf8_valid_utf8(a);
    vstd::utf8::encode_utf8_decode_utf8(a);
}

/// Whether two texts are the same.
pub fn same_text(a: &str, b: &str) -> (r: bool)
    ensures
        r == (a@ == b@),
{
    proof {
        lemma_utf8_injective(a@, b@);
    }
    crate::bytes::bytes_equal(a.as_bytes(), b.as_bytes())
}

/// The value of a decimal digit.
pub open spec fn digit_value(byte: u8) -> Option<int> {
    if 0x30 <= byte <= 0x39 {
        Some(byte - 0x30)
    } else {
        None
    }
}

/// The number that decimal digits spell, where all bytes are digits.
pub open spec fn digits_value(bytes: Seq<u8>) -> Option<int>
    decreases bytes.len(),
{
    if bytes.len() == 0 {
        Some(0)
    } else {
        match (digits_value(bytes.drop_last()), digit_value(bytes.last())) {
            (Some(n), Some(d)) => Some(10 * n + d),
            _ => None,
        }
    }
}

/// The `u64` that a text spells: decimal digits, a plus sign allowed before
/// them.
pub open spec fn parsed_u64(text: Seq<char>) -> Option<u64> {
    let bytes = encode_utf8(text);
    let digits = if bytes.len() > 0 && bytes[0] == 0x2b {
        bytes.skip(1)
    } else {
        bytes
    };
    if digits.len() == 0 {
        None
    } else {
        match digits_value(digits) {
            Some(n) => if n <= u64::MAX {
                Some(n as u64)
            } else {
                None
            },
            None => None,
        }
    }
}

proof fn lemma_digits_grow(bytes: Seq<u8>, n: int)
    requires
        0 <= n <= bytes.len(),
        digits_value(bytes) is Some,
    ensures
        digits_value(bytes.take(n)) is Some,
        0 <= digits_value(bytes.take(n))->0 <= digits_value(bytes)->0,
    decreases bytes.len(),
{
    if n == bytes.len() {
        assert(bytes.take(n) =~= bytes);
        if n > 0 {
            lemma_digits_grow(bytes.drop_last(), n - 1);
            assert(bytes.drop_last().take(n - 1) =~= bytes.drop_last());
        }
    } else {
        lemma_digits_grow(bytes.drop_last(), n);
        assert(bytes.drop_last().take(n) =~= bytes.take(n));
    }
}

/// The `u64` that a text spells.
pub fn parse_u64(text: &str) -> (r: Option<u64>)
    ensures
        r == parsed_u64(text@),
{
    let bytes = text.as_bytes();
    let from: usize = if bytes.len() > 0 && bytes[0] == 0x2b {
        1
    } else {
        0
    };
    if bytes.len() == from {
        return None;
    }
    let ghost digits = bytes@.skip(from as int);
    proof {
        assert(bytes@.skip(0) =~= bytes@);
        assert(digits.take(0) =~= Seq::empty());
    }
    let mut value: u64 = 0;
    let mut i: usize = from;
    while i < bytes.len()
        invariant
            from <= i <= bytes@.len(),
            from <= 1,
            bytes@ == encode_utf8(text@),
            digits == bytes@.skip(from as int),
            digits.len() > 0,
            parsed_u64(text@) == match digits_value(digits) {
                Some(n) => if n <= u64::MAX {
                    Some(n as u64)
                } else {
                    None
                },
                None => None,
            },
            digits_value(digits.take(i - from)) == Some(value as int),
        decreases bytes@.len() - i,
    {
        let byte: u8 = bytes[i];
        proof {
            let upto = digits.take(i + 1 - from);
            assert(upto.drop_last() =~= digits.take(i - from));
            assert(upto.last() == byte);
            if digits_value(digits) is Some {
                lemma_digits_grow(digits, i + 1 - from);
            }
        }
        if byte < 0x30 || byte > 0x39 {
            return None;
        }
        let d: u64 = (byte - 0x30) as u64;
        match value.checked_mul(10) {
            None => return None,
            Some(ten) => match ten.checked_add(d) {
                None => return None,
                Some(next) => {
                    value = next;
                },
            },
        }
        i = i + 1;
    }
    assert(digits.take(i - from) =~= digits);
    Some(value)
}

/// A text in quotes, as programs show it.
pub uninterp spec fn quoted(text: Seq<char>) -> Seq<char>;

/// `Debug` of `str`, by which a text is shown in quotes and with escapes. How
/// that looks depends on the text alone, and is named.
#[verifier::external_body]
pub(crate) fn quote(text: &str) -> (r: String)
    ensures
        r@ == quoted(text@),
{
    format!("{:?}", text)
}

/// The value of a hexadecimal digit of either case.
pub open spec fn hex_value(byte: u8) -> Option<u8> {
    if 0x30 <= byte <= 0x39 {
        Some((byte - 0x30) as u8)
    } else if 0x61 <= byte <= 0x66 {
        Some((byte - 0x57) as u8)
    } else if 0x41 <= byte <= 0x46 {
        Some((byte - 0x37) as u8)
    } else {
        None
    }
}

/// The byte that two characters spell in hexadecimal. A plus sign may stand for
/// the first digit, as before any number.
pub open spec fn pair_value(first: u8, second: u8) -> Option<u8> {
    match hex_value(second) {
        None => None,
        Some(low) => if first == 0x2b {
            Some(low)
        } else {
            match hex_value(first) {
                None => None,
                Some(high) => Some((16 * high + low) as u8),
            }
        },
    }
}

fn read_digit(byte: u8) -> (r: Option<u8>)
    ensures
        r == hex_value(byte),
        r matches Some(v) ==> v < 16,
{
    if byte >= 0x30 && byte <= 0x39 {
        Some(byte - 0x30)
    } else if byte >= 0x61 && byte <= 0x66 {
        Some(byte - 0x57)
    } else if byte >= 0x41 && byte <= 0x46 {
        Some(byte - 0x37)
    } else {
        None
    }
}

/// The byte that two characters spell in hexadecimal.
pub fn read_pair(first: u8, second: u8) -> (r: Option<u8>)
    ensures
        r == pair_value(first, second),
{
    match read_digit(second) {
        None => None,
        Some(low) => {
            if first == 0x2b {
                return Some(low);
            }
            match read_digit(first) {
                None => None,
                Some(high) => Some(16 * high + low),
            }
        },
    }
}

} // verus!
