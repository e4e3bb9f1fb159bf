//! Building text.

use vstd::prelude::*;
use vstd::string::StringSliceAdditionalSpecFns;
use vstd::utf8::{decode_utf8, encode_utf8_decode_utf8, valid_utf8};

verus! {

/// `String::push` appends the character to the string and changes nothing
/// else of it.
pub assume_specification[ String::push ](text: &mut String, ch: char)
    ensures
        final(text)@ == old(text)@.push(ch),
;

/// The decimal digit for a number below ten.
pub open spec fn digit(d: nat) -> char {
    if d == 0 {
        '0'
    } else if d == 1 {
        '1'
    } else if d == 2 {
        '2'
    } else if d == 3 {
        '3'
    } else if d == 4 {
        '4'
    } else if d == 5 {
        '5'
    } else if d == 6 {
        '6'
    } else if d == 7 {
        '7'
    } else if d == 8 {
        '8'
    } else {
        '9'
    }
}

/// The number in decimal digits, without leading zeros.
pub open spec fn decimal(n: nat) -> Seq<char>
    decreases n,
{
    if n < 10 {
        seq![digit(n)]
    } else {
        decimal(n / 10).push(digit(n % 10))
    }
}

/// The number in decimal digits, with a zero in front where it has one digit.
pub open spec fn two_digits(n: nat) -> Seq<char> {
    if n < 10 {
        seq!['0', digit(n)]
    } else {
        decimal(n)
    }
}

pub fn digit_of(d: u32) -> (r: char)
    requires
        d < 10,
    ensures
        r == digit(d as nat),
{
    if d == 0 {
        '0'
    } else if d == 1 {
        '1'
    } else if d == 2 {
        '2'
    } else if d == 3 {
        '3'
    } else if d == 4 {
        '4'
    } else if d == 5 {
        '5'
    } else if d == 6 {
        '6'
    } else if d == 7 {
        '7'
    } else if d == 8 {
        '8'
    } else {
        '9'
    }
}

/// Appends the number in decimal digits.
pub fn push_decimal(out: &mut String, n: u32)
    ensures
        final(out)@ == old(out)@ + decimal(n as nat),
    decreases n,
{
    if n >= 10 {
        push_decimal(out, n / 10);
    }
    out.push(digit_of(n % 10));
    assert(out@ =~= old(out)@ + decimal(n as nat));
}

/// Appends the number in at least two decimal digits.
pub fn push_two_digits(out: &mut String, n: u32)
    ensures
        final(out)@ == old(out)@ + two_digits(n as nat),
{
    if n < 10 {
        out.push('0');
        out.push(digit_of(n));
        assert(out@ =~= old(out)@ + two_digits(n as nat));
    } else {
        push_decimal(out, n);
    }
}

/// The text with every `from` turned into `to`.
pub open spec fn replaced(text: Seq<char>, from: char, to: char) -> Seq<char> {
    Seq::new(
        text.len(),
        |i: int|
            if text[i] == from {
                to
            } else {
                text[i]
            },
    )
}

/// Appends `text` with every `from` turned into `to`.
pub fn push_replaced(out: &mut String, text: &str, from: char, to: char)
    ensures
        final(out)@ == old(out)@ + replaced(text@, from, to),
{
    let n = text.unicode_len();
    let mut i: usize = 0;
    assert(out@ =~= old(out)@ + replaced(text@, from, to).take(0));
    while i < n
        invariant
            n == text@.len(),
            i <= n,
            out@ == old(out)@ + replaced(text@, from, to).take(i as int),
        decreases n - i,
    {
        let c = text.get_char(i);
        if c == from {
            out.push(to);
        } else {
            out.push(c);
        }
        assert(out@ =~= old(out)@ + replaced(text@, from, to).take(i + 1));
        i += 1;
    }
    assert(replaced(text@, from, to).take(n as int) =~= replaced(text@, from, to));
}

/// Appends `text` as it is.
pub fn push_text(out: &mut String, text: &str)
    ensures
        final(out)@ == old(out)@ + text@,
{
    let n = text.unicode_len();
    let mut i: usize = 0;
    assert(out@ =~= old(out)@ + text@.take(0));
    while i < n
        invariant
            n == text@.len(),
            i <= n,
            out@ == old(out)@ + text@.take(i as int),
        decreases n - i,
    {
        out.push(text.get_char(i));
        assert(out@ =~= old(out)@ + text@.take(i + 1));
        i += 1;
    }
    assert(text@.take(n as int) =~= text@);
}

/// Reads bytes as text with `std::str::from_utf8`, which gives the text
/// whose UTF-8 encoding the bytes are, and none where they are no such
/// encoding.
#[verifier::external_body]
pub(crate) fn text_of(bytes: &[u8]) -> (r: Option<&str>)
    ensures
        match r {
            Some(text) => valid_utf8(bytes@) && text.spec_bytes() == bytes@,
            None => !valid_utf8(bytes@),
        },
{
    match std::str::from_utf8(bytes) {
        Ok(text) => Some(text),
        Err(_) => None,
    }
}

/// The text that the bytes encode, if they encode one.
pub open spec fn as_text(bytes: Seq<u8>) -> Option<Seq<char>> {
    if valid_utf8(bytes) {
        Some(decode_utf8(bytes))
    } else {
        None
    }
}

/// The text that the bytes encode: see [`as_text`].
pub fn read_text(bytes: &[u8]) -> (r: Option<&str>)
    ensures
        match r {
            Some(text) => as_text(bytes@) == Some(text@),
            None => as_text(bytes@) is None,
        },
{
    let r = text_of(bytes);
    proof {
        if let Some(text) = r {
            encode_utf8_decode_utf8(text@);
        }
    }
    r
}

} // verus!
