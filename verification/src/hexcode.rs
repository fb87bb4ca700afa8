//! Hexadecimal text: digit values, upper-case encoding of bytes, decoding.

use crate::error::MerkleError;
use vstd::prelude::*;
use vstd::string::StringExecFns;

verus! {

/// Whether `code` is the ASCII code of a hexadecimal digit, in either case.
pub open spec fn is_hex_code(code: int) -> bool {
    ||| 48 <= code <= 57
    ||| 65 <= code <= 70
    ||| 97 <= code <= 102
}

/// The value, from 0 to 15, of the hexadecimal digit with ASCII code `code`.
pub open spec fn hex_code_value(code: int) -> int
    recommends
        is_hex_code(code),
{
    if code <= 57 {
        code - 48
    } else if code <= 70 {
        code - 55
    } else {
        code - 87
    }
}

/// The value of one hexadecimal digit given by its ASCII code.
pub fn to_hex_int(ch: u8) -> (digit: u8)
    requires
        is_hex_code(ch as int),
    ensures
        digit == hex_code_value(ch as int),
        digit < 16,
{
    let res: u8 = if ch <= 57 {
        ch - 48
    } else if ch <= 70 {
        ch - 55
    } else {
        ch - 87
    };
    res % 16
}

/// The upper-case hexadecimal digit that stands for `nibble`.
pub open spec fn upper_digit(nibble: int) -> char
    recommends
        0 <= nibble < 16,
{
    if nibble == 0 {
        '0'
    } else if nibble == 1 {
        '1'
    } else if nibble == 2 {
        '2'
    } else if nibble == 3 {
        '3'
    } else if nibble == 4 {
        '4'
    } else if nibble == 5 {
        '5'
    } else if nibble == 6 {
        '6'
    } else if nibble == 7 {
        '7'
    } else if nibble == 8 {
        '8'
    } else if nibble == 9 {
        '9'
    } else if nibble == 10 {
        'A'
    } else if nibble == 11 {
        'B'
    } else if nibble == 12 {
        'C'
    } else if nibble == 13 {
        'D'
    } else if nibble == 14 {
        'E'
    } else {
        'F'
    }
}

/// The upper-case hexadecimal text of `bytes`: two digits per byte, the high
/// nibble first.
pub open spec fn hex_upper(bytes: Seq<u8>) -> Seq<char> {
    Seq::new(
        2 * bytes.len(),
        |i: int|
            if i % 2 == 0 {
                upper_digit(bytes[i / 2] as int / 16)
            } else {
                upper_digit(bytes[i / 2] as int % 16)
            },
    )
}

/// The one-character text of the upper-case digit for `nibble`.
fn upper_digit_text(nibble: u8) -> (text: &'static str)
    requires
        nibble < 16,
    ensures
        text@ == seq![upper_digit(nibble as int)],
{
    proof {
        reveal_strlit("0");
        reveal_strlit("1");
        reveal_strlit("2");
        reveal_strlit("3");
        reveal_strlit("4");
        reveal_strlit("5");
        reveal_strlit("6");
        reveal_strlit("7");
        reveal_strlit("8");
        reveal_strlit("9");
        reveal_strlit("A");
        reveal_strlit("B");
        reveal_strlit("C");
        reveal_strlit("D");
        reveal_strlit("E");
        reveal_strlit("F");
    }
    let text = match nibble {
        0 => "0",
        1 => "1",
        2 => "2",
        3 => "3",
        4 => "4",
        5 => "5",
        6 => "6",
        7 => "7",
        8 => "8",
        9 => "9",
        10 => "A",
        11 => "B",
        12 => "C",
        13 => "D",
        14 => "E",
        _ => "F",
    };
    assert(text@ =~= seq![upper_digit(nibble as int)]);
    text
}

/// Writes `bytes` as upper-case hexadecimal text.
pub fn encode_upper(bytes: &Vec<u8>) -> (text: String)
    ensures
        text@ == hex_upper(bytes@),
{
    let mut text = String::new();
    let mut i: usize = 0;
    while i < bytes.len()
        invariant
            i <= bytes.len(),
            text@ == hex_upper(bytes@.take(i as int)),
        decreases bytes.len() - i,
    {
        let byte = bytes[i];
        text.append(upper_digit_text(byte / 16));
        text.append(upper_digit_text(byte % 16));
        i += 1;
        assert(text@ =~= hex_upper(bytes@.take(i as int)));
    }
    assert(bytes@.take(i as int) =~= bytes@);
    text
}

/// Whether `c` is a hexadecimal digit, in either case.
pub open spec fn is_hex_digit(c: char) -> bool {
    is_hex_code(c as u32 as int)
}

/// The value, from 0 to 15, of the hexadecimal digit `c`.
pub open spec fn hex_digit_value(c: char) -> int
    recommends
        is_hex_digit(c),
{
    hex_code_value(c as u32 as int)
}

/// Whether `text` is an even number of hexadecimal digits.
pub open spec fn is_hex_text(text: Seq<char>) -> bool {
    &&& text.len() % 2 == 0
    &&& forall|i: int| 0 <= i < text.len() ==> is_hex_digit(#[trigger] text[i])
}

/// The bytes that hexadecimal text stands for: one per pair of digits, the
/// first digit of a pair being the high nibble.
pub open spec fn hex_bytes(text: Seq<char>) -> Seq<u8>
    recommends
        is_hex_text(text),
{
    Seq::new(
        text.len() / 2,
        |i: int| (16 * hex_digit_value(text[2 * i]) + hex_digit_value(text[2 * i + 1])) as u8,
    )
}

/// Decoding the upper-case hexadecimal text of some bytes gives the bytes
/// back.
pub proof fn lemma_hex_round_trip(bytes: Seq<u8>)
    ensures
        is_hex_text(hex_upper(bytes)),
        hex_bytes(hex_upper(bytes)) == bytes,
{
    let text = hex_upper(bytes);
    assert forall|n: int| 0 <= n < 16 implies is_hex_digit(#[trigger] upper_digit(n))
        && hex_digit_value(upper_digit(n)) == n by {}
    assert forall|i: int| 0 <= i < text.len() implies is_hex_digit(#[trigger] text[i]) by {
        let byte = bytes[i / 2] as int;
        assert(0 <= byte / 16 < 16 && 0 <= byte % 16 < 16);
    }
    assert forall|i: int| 0 <= i < bytes.len() implies #[trigger] hex_bytes(text)[i]
        == bytes[i] by {
        let byte = bytes[i] as int;
        assert(0 <= byte / 16 < 16 && 0 <= byte % 16 < 16);
        assert(text[2 * i] == upper_digit(byte / 16));
        assert(text[2 * i + 1] == upper_digit(byte % 16));
    }
    assert(hex_bytes(text) =~= bytes);
}

#[verifier::external_type_specification]
#[verifier::external_body]
pub struct ExFromHexError(hex::FromHexError);

/// Calls `hex::decode`, which reads two hexadecimal digits per byte, the
/// high nibble first and in either case, and fails on a text of odd length
/// or with any other character in it.
#[verifier::external_body]
fn decode_digits(text: &String) -> (decoded: Result<Vec<u8>, hex::FromHexError>)
    ensures
        decoded is Ok <==> is_hex_text(text@),
        decoded matches Ok(bytes) ==> bytes@ == hex_bytes(text@),
{
    hex::decode(text)
}

/// Reads hexadecimal text back into bytes.
pub fn decode(text: &String) -> (decoded: Result<Vec<u8>, MerkleError>)
    ensures
        decoded is Ok <==> is_hex_text(text@),
        decoded matches Ok(bytes) ==> bytes@ == hex_bytes(text@),
        decoded matches Err(e) ==> e == MerkleError::MalformedHex,
{
    match decode_digits(text) {
        Ok(bytes) => Ok(bytes),
        Err(_) => Err(MerkleError::MalformedHex),
    }
}

} // verus!
