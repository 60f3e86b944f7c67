//! The pieces of compact JSON that canonical bytes are made of: string
//! literals and decimal numbers.

use vstd::prelude::*;
use vstd::string::*;

verus! {

/// The ASCII code of the lowercase hexadecimal digit with value `n`.
pub open spec fn hex_code(n: int) -> u8 {
    if n < 10 {
        (0x30 + n) as u8
    } else {
        (0x57 + n) as u8
    }
}

/// What stands for the byte `b` between the quotes of a JSON string: the
/// quote and the backslash get a backslash in front, the control codes below
/// `0x20` their short escape where there is one and `\u00XX` otherwise, and
/// every other byte stands for itself.
pub open spec fn escape_byte(b: u8) -> Seq<u8> {
    if b == 0x22 {
        seq![0x5cu8, 0x22u8]
    } else if b == 0x5c {
        seq![0x5cu8, 0x5cu8]
    } else if b == 0x08 {
        seq![0x5cu8, 0x62u8]
    } else if b == 0x09 {
        seq![0x5cu8, 0x74u8]
    } else if b == 0x0a {
        seq![0x5cu8, 0x6eu8]
    } else if b == 0x0c {
        seq![0x5cu8, 0x66u8]
    } else if b == 0x0d {
        seq![0x5cu8, 0x72u8]
    } else if b < 0x20 {
        seq![0x5cu8, 0x75u8, 0x30u8, 0x30u8, hex_code(b as int / 16), hex_code(b as int % 16)]
    } else {
        seq![b]
    }
}

/// The escaped form of a byte string: the escaped forms of its bytes, in order.
pub open spec fn escape_bytes(s: Seq<u8>) -> Seq<u8>
    decreases s.len(),
{
    if s.len() == 0 {
        Seq::empty()
    } else {
        escape_bytes(s.drop_last()) + escape_byte(s.last())
    }
}

/// A JSON string literal holding the UTF-8 text `s`.
pub open spec fn json_string(s: Seq<u8>) -> Seq<u8> {
    seq![0x22u8] + escape_bytes(s) + seq![0x22u8]
}

/// The decimal digits of `n`, most significant first, without leading zeros.
pub open spec fn decimal(n: nat) -> Seq<u8>
    decreases n,
{
    if n < 10 {
        seq![(0x30 + n) as u8]
    } else {
        decimal(n / 10).push((0x30 + n % 10) as u8)
    }
}

/// The decimal form of an integer, with a minus sign in front of a negative one.
pub open spec fn signed_decimal(n: int) -> Seq<u8> {
    if n < 0 {
        seq![0x2du8] + decimal((-n) as nat)
    } else {
        decimal(n as nat)
    }
}

/// The text that a string of ASCII bytes stands for.
pub open spec fn ascii_text(bytes: Seq<u8>) -> Seq<char> {
    Seq::new(bytes.len(), |i: int| bytes[i] as char)
}

/// A number in decimal is at least one byte long and made of digits.
pub proof fn lemma_decimal_shape(n: nat)
    ensures
        decimal(n).len() > 0,
        forall|i: int| 0 <= i < decimal(n).len() ==> 0x30 <= #[trigger] decimal(n)[i] <= 0x39,
    decreases n,
{
    if n >= 10 {
        lemma_decimal_shape(n / 10);
    }
}

/// A signed number in decimal is made of digits, with at most a minus sign
/// in front.
pub proof fn lemma_signed_decimal_shape(n: int)
    ensures
        forall|i: int|
            0 <= i < signed_decimal(n).len() ==> {
                let b = #[trigger] signed_decimal(n)[i];
                b == 0x2d || 0x30 <= b <= 0x39
            },
{
    if n < 0 {
        lemma_decimal_shape((-n) as nat);
    } else {
        lemma_decimal_shape(n as nat);
    }
}

/// Escaping one more byte appends its escaped form.
pub proof fn lemma_escape_bytes_step(s: Seq<u8>, i: int)
    requires
        0 <= i < s.len(),
    ensures
        escape_bytes(s.take(i + 1)) == escape_bytes(s.take(i)) + escape_byte(s[i]),
{
    assert(s.take(i + 1).drop_last() =~= s.take(i));
}

/// Appends the UTF-8 bytes of `text` to `out`.
pub fn write_text(out: &mut Vec<u8>, text: &str)
    ensures
        final(out)@ == old(out)@ + text.spec_bytes(),
{
    let ghost before = out@;
    out.extend_from_slice(text.as_bytes());
    assert(out@ =~= before + text.spec_bytes());
}

/// Appends the escaped form of the byte `b` to `out`.
pub fn write_escaped_byte(out: &mut Vec<u8>, b: u8)
    ensures
        final(out)@ == old(out)@ + escape_byte(b),
{
    let ghost before = out@;
    if b == 0x22 || b == 0x5c {
        out.push(0x5c);
        out.push(b);
    } else if b == 0x08 {
        out.push(0x5c);
        out.push(0x62);
    } else if b == 0x09 {
        out.push(0x5c);
        out.push(0x74);
    } else if b == 0x0a {
        out.push(0x5c);
        out.push(0x6e);
    } else if b == 0x0c {
        out.push(0x5c);
        out.push(0x66);
    } else if b == 0x0d {
        out.push(0x5c);
        out.push(0x72);
    } else if b < 0x20 {
        let high: u8 = b / 16;
        let low: u8 = b % 16;
        out.push(0x5c);
        out.push(0x75);
        out.push(0x30);
        out.push(0x30);
        out.push(0x30 + high);
        out.push(if low < 10 { 0x30 + low } else { 0x57 + low });
    } else {
        out.push(b);
    }
    assert(out@ =~= before + escape_byte(b));
}

/// Appends the JSON string literal for the UTF-8 text `s` to `out`.
pub fn write_json_string(out: &mut Vec<u8>, s: &[u8])
    ensures
        final(out)@ == old(out)@ + json_string(s@),
{
    let ghost before = out@;
    out.push(0x22);
    let mut i: usize = 0;
    while i < s.len()
        invariant
            i <= s@.len(),
            out@ == before + seq![0x22u8] + escape_bytes(s@.take(i as int)),
        decreases s@.len() - i,
    {
        let ghost so_far = out@;
        write_escaped_byte(out, s[i]);
        proof {
            lemma_escape_bytes_step(s@, i as int);
            assert(out@ =~= before + seq![0x22u8] + escape_bytes(s@.take(i + 1)));
        }
        i += 1;
    }
    out.push(0x22);
    assert(s@.take(s@.len() as int) =~= s@);
    assert(out@ =~= before + json_string(s@));
}

/// What is left to print in front of the digits already taken from a number:
/// nothing once the number is used up.
spec fn leading_digits(rest: nat) -> Seq<u8> {
    if rest == 0 {
        Seq::empty()
    } else {
        decimal(rest)
    }
}

/// Appends the decimal digits of `n` to `out`.
pub fn write_decimal(out: &mut Vec<u8>, n: u128)
    ensures
        final(out)@ == old(out)@ + decimal(n as nat),
{
    let ghost before = out@;
    // The digits come out least significant first.
    let mut reversed: Vec<u8> = Vec::new();
    reversed.push(0x30 + (n % 10) as u8);
    let mut rest: u128 = n / 10;
    assert(decimal(n as nat) =~= leading_digits(rest as nat) + reversed@.reverse());
    while rest > 0
        invariant
            reversed@.len() > 0,
            decimal(n as nat) == leading_digits(rest as nat) + reversed@.reverse(),
        decreases rest,
    {
        let ghost taken = reversed@;
        let digit: u8 = 0x30 + (rest % 10) as u8;
        reversed.push(digit);
        proof {
            assert(reversed@.reverse() =~= seq![digit] + taken.reverse());
            assert(decimal(rest as nat) =~= leading_digits((rest / 10) as nat) + seq![digit]);
            assert(decimal(n as nat) =~= leading_digits((rest / 10) as nat) + reversed@.reverse());
        }
        rest = rest / 10;
    }
    let mut k: usize = reversed.len();
    while k > 0
        invariant
            k <= reversed@.len(),
            out@ == before + reversed@.reverse().take(reversed@.len() - k),
        decreases k,
    {
        k -= 1;
        out.push(reversed[k]);
        assert(out@ =~= before + reversed@.reverse().take(reversed@.len() - k));
    }
    assert(reversed@.reverse().take(reversed@.len() as int) =~= reversed@.reverse());
}

/// Appends the decimal form of the signed integer `n` to `out`.
pub fn write_signed_decimal(out: &mut Vec<u8>, n: i32)
    ensures
        final(out)@ == old(out)@ + signed_decimal(n as int),
{
    let ghost before = out@;
    if n < 0 {
        out.push(0x2d);
        let magnitude: i64 = -(n as i64);
        write_decimal(out, magnitude as u128);
        assert(out@ =~= before + signed_decimal(n as int));
    } else {
        write_decimal(out, n as u128);
    }
}

/// The one-character string for a byte of a number in decimal: a digit or
/// the minus sign.
pub fn decimal_symbol(b: u8) -> (symbol: &'static str)
    requires
        b == 0x2d || 0x30 <= b <= 0x39,
    ensures
        symbol@ == seq![b as char],
{
    proof {
        reveal_strlit("-");
        reveal_strlit("0");
        reveal_strlit("1");
        reveal_strlit("2");
        reveal_strlit("3");
        reveal_strlit("4");
        reveal_strlit("5");
        reveal_strlit("6");
        reveal_strlit("7");
        reveal_strlit("8");
        reveal_strlit("9");
    }
    let symbol: &'static str = match b {
        0x30 => "0",
        0x31 => "1",
        0x32 => "2",
        0x33 => "3",
        0x34 => "4",
        0x35 => "5",
        0x36 => "6",
        0x37 => "7",
        0x38 => "8",
        0x39 => "9",
        _ => "-",
    };
    assert(symbol@ =~= seq![b as char]);
    symbol
}

/// The decimal form of the signed integer `n`, as text.
pub fn signed_decimal_text(n: i32) -> (text: String)
    ensures
        text@ == ascii_text(signed_decimal(n as int)),
{
    let mut bytes: Vec<u8> = Vec::new();
    write_signed_decimal(&mut bytes, n);
    assert(bytes@ =~= signed_decimal(n as int));
    proof {
        lemma_signed_decimal_shape(n as int);
    }
    let mut text: String = String::new();
    let mut i: usize = 0;
    while i < bytes.len()
        invariant
            i <= bytes@.len(),
            bytes@ == signed_decimal(n as int),
            forall|j: int|
                0 <= j < bytes@.len() ==> {
                    let b = #[trigger] bytes@[j];
                    b == 0x2d || 0x30 <= b <= 0x39
                },
            text@ == ascii_text(bytes@.take(i as int)),
        decreases bytes@.len() - i,
    {
        let ghost before = text@;
        text.append(decimal_symbol(bytes[i]));
        assert(text@ =~= ascii_text(bytes@.take(i + 1)));
        i += 1;
    }
    assert(bytes@.take(bytes@.len() as int) =~= bytes@);
    text
}

} // verus!
