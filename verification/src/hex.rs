//! Lowercase hexadecimal rendering of bytes.

use vstd::prelude::*;
use vstd::string::*;

verus! {

/// The sixteen lowercase hexadecimal digits, in order of their value.
pub open spec fn hex_digits() -> Seq<char> {
    seq!['0', '1', '2', '3', '4', '5', '6', '7', '8', '9', 'a', 'b', 'c', 'd', 'e', 'f']
}

/// Whether `c` is one of the digits `0`-`9` or `a`-`f`.
pub open spec fn is_hex_digit(c: char) -> bool {
    ('0' <= c && c <= '9') || ('a' <= c && c <= 'f')
}

/// The lowercase hexadecimal rendering of a byte string: two digits per byte,
/// the high nibble first.
pub open spec fn hex_lower(bytes: Seq<u8>) -> Seq<char> {
    Seq::new(
        2 * bytes.len(),
        |i: int|
            if i % 2 == 0 {
                hex_digits()[bytes[i / 2] as int / 16]
            } else {
                hex_digits()[bytes[i / 2] as int % 16]
            },
    )
}

/// Every character of a hexadecimal rendering is a lowercase hexadecimal
/// digit, and there are exactly two of them for each byte.
pub proof fn lemma_hex_lower_shape(bytes: Seq<u8>)
    ensures
        hex_lower(bytes).len() == 2 * bytes.len(),
        forall|i: int|
            0 <= i < hex_lower(bytes).len() ==> is_hex_digit(#[trigger] hex_lower(bytes)[i]),
{
    assert forall|i: int| 0 <= i < hex_lower(bytes).len() implies is_hex_digit(
        #[trigger] hex_lower(bytes)[i],
    ) by {
        let b: int = bytes[i / 2] as int;
        assert(0 <= b / 16 < 16);
        assert(0 <= b % 16 < 16);
        lemma_hex_digits_are_hex(b / 16);
        lemma_hex_digits_are_hex(b % 16);
    }
}

/// Each entry of the digit table is a lowercase hexadecimal digit.
pub proof fn lemma_hex_digits_are_hex(n: int)
    requires
        0 <= n < 16,
    ensures
        is_hex_digit(hex_digits()[n]),
{
}

/// The one-character string that shows the value `n` as a hexadecimal digit.
pub fn hex_digit_str(n: u8) -> (s: &'static str)
    requires
        n < 16,
    ensures
        s@ == seq![hex_digits()[n as int]],
{
    proof {
        reveal_strlit("0");
        reveal_strlit("1");
        reveal_strlit("2");
        reveal_strlit("3");
        reveal_strlit("4");
        reveal_strlit("5");
        reveal_strlit("6");
        reveal_strlit("7");
        reveal_strlit("8");
        reveal_strlit("9");
        reveal_strlit("a");
        reveal_strlit("b");
        reveal_strlit("c");
        reveal_strlit("d");
        reveal_strlit("e");
        reveal_strlit("f");
    }
    let s: &'static str = match n {
        0 => "0",
        1 => "1",
        2 => "2",
        3 => "3",
        4 => "4",
        5 => "5",
        6 => "6",
        7 => "7",
        8 => "8",
        9 => "9",
        10 => "a",
        11 => "b",
        12 => "c",
        13 => "d",
        14 => "e",
        _ => "f",
    };
    assert(s@ =~= seq![hex_digits()[n as int]]);
    s
}

/// Renders `bytes` as lowercase hexadecimal text.
pub fn to_hex_lower(bytes: &[u8]) -> (text: String)
    ensures
        text@ == hex_lower(bytes@),
{
    let mut text: String = String::new();
    let mut i: usize = 0;
    while i < bytes.len()
        invariant
            i <= bytes@.len(),
            text@.len() == 2 * i,
            forall|j: int| 0 <= j < text@.len() ==> text@[j] == hex_lower(bytes@)[j],
        decreases bytes@.len() - i,
    {
        let b: u8 = bytes[i];
        let ghost before = text@;
        text.append(hex_digit_str(b / 16));
        text.append(hex_digit_str(b % 16));
        assert(text@ =~= before.push(hex_digits()[b as int / 16]).push(
            hex_digits()[b as int % 16],
        ));
        assert forall|j: int| 0 <= j < text@.len() implies text@[j] == hex_lower(bytes@)[j] by {
            if j == 2 * i {
                assert(j / 2 == i && j % 2 == 0);
            } else if j == 2 * i + 1 {
                assert(j / 2 == i && j % 2 == 1);
            } else {
                assert(text@[j] == before[j]);
            }
        }
        i += 1;
    }
    assert(text@ =~= hex_lower(bytes@));
    text
}

} // verus!
