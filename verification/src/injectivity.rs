//! The canonical bytes of a block can be read back in one way only, so
//! that blocks which differ in a hashed field have different bytes, and can
//! share a hash only through a collision of SHA-256.

use crate::block::{content_hash, preimage, BlockView};
use crate::digest::sha256;
use crate::hex::{hex_digits, hex_lower};
use crate::json::{
    decimal, escape_byte, escape_bytes, hex_code, json_string, lemma_decimal_shape,
    signed_decimal,
};
use crate::timestamp::Timestamp;
use crate::transaction::{joined_encodings, list_encoding, TransactionView};
use vstd::prelude::*;
use vstd::string::*;
use vstd::utf8::*;

verus! {

/// Whether `rest` cannot be taken for the continuation of a number: it is
/// empty or starts with a byte that is no decimal digit.
pub open spec fn ends_number(rest: Seq<u8>) -> bool {
    rest.len() == 0 || !(0x30 <= rest[0] <= 0x39)
}

/// The number that a string of decimal digits stands for.
pub open spec fn digits_value(digits: Seq<u8>) -> nat
    decreases digits.len(),
{
    if digits.len() == 0 {
        0
    } else {
        (digits_value(digits.drop_last()) * 10 + (digits.last() - 0x30)) as nat
    }
}

/// What follows a common prefix is the same on both sides.
pub proof fn lemma_cancel_prefix(prefix: Seq<u8>, r1: Seq<u8>, r2: Seq<u8>)
    requires
        prefix + r1 == prefix + r2,
    ensures
        r1 == r2,
{
    let n = prefix.len() as int;
    assert(r1 =~= (prefix + r1).subrange(n, n + r1.len()));
    assert(r2 =~= (prefix + r2).subrange(n, n + r2.len()));
    assert((prefix + r1).len() == (prefix + r2).len());
}

/// The escaped form of a byte never starts with a quote, and it is not empty.
pub proof fn lemma_escape_byte_head(b: u8)
    ensures
        escape_byte(b).len() > 0,
        escape_byte(b)[0] != 0x22,
        escape_byte(b)[0] == 0x5c || escape_byte(b) == seq![b],
{
}

/// The escaped forms of single bytes can be told apart from the front: if
/// two of them, each followed by anything, give the same bytes, then the
/// two bytes are the same and so is what follows.
pub proof fn lemma_escape_byte_parses(b1: u8, r1: Seq<u8>, b2: u8, r2: Seq<u8>)
    requires
        escape_byte(b1) + r1 == escape_byte(b2) + r2,
    ensures
        b1 == b2,
        r1 == r2,
{
    let e1 = escape_byte(b1);
    let e2 = escape_byte(b2);
    let w = e1 + r1;
    assert(w[0] == e1[0] && w[0] == e2[0]);
    if e1[0] == 0x5c && e2[0] == 0x5c {
        assert(e1.len() >= 2 && e2.len() >= 2);
        assert(w[1] == e1[1] && w[1] == e2[1]);
        if e1[1] == 0x75 {
            assert(e1.len() == 6 && e2.len() == 6);
            assert(w[4] == e1[4] && w[4] == e2[4]);
            assert(w[5] == e1[5] && w[5] == e2[5]);
            assert(hex_code(b1 as int / 16) == hex_code(b2 as int / 16));
            assert(hex_code(b1 as int % 16) == hex_code(b2 as int % 16));
            assert(b1 as int / 16 == b2 as int / 16);
            assert(b1 as int % 16 == b2 as int % 16);
        }
    }
    assert(b1 == b2);
    lemma_cancel_prefix(e1, r1, r2);
}

/// The escaped form of a byte string, read from the front.
pub proof fn lemma_escape_bytes_front(s: Seq<u8>)
    requires
        s.len() > 0,
    ensures
        escape_bytes(s) == escape_byte(s[0]) + escape_bytes(s.drop_first()),
    decreases s.len(),
{
    if s.len() == 1 {
        assert(escape_bytes(s.drop_last()) =~= Seq::<u8>::empty());
        assert(escape_bytes(s.drop_first()) =~= Seq::<u8>::empty());
        assert(escape_bytes(s) =~= escape_byte(s[0]) + escape_bytes(s.drop_first()));
    } else {
        lemma_escape_bytes_front(s.drop_last());
        assert(s.drop_last().drop_first() =~= s.drop_first().drop_last());
        assert(s.drop_first().last() == s.last());
        assert(escape_bytes(s) =~= escape_byte(s[0]) + escape_bytes(s.drop_first()));
    }
}

/// Escaped text that is closed by a quote ends at that quote and nowhere
/// else: equal bytes come from equal texts, followed by the same bytes.
pub proof fn lemma_escaped_text_parses(s1: Seq<u8>, r1: Seq<u8>, s2: Seq<u8>, r2: Seq<u8>)
    requires
        escape_bytes(s1) + (seq![0x22u8] + r1) == escape_bytes(s2) + (seq![0x22u8] + r2),
    ensures
        s1 == s2,
        r1 == r2,
    decreases s1.len(),
{
    let q1 = seq![0x22u8] + r1;
    let q2 = seq![0x22u8] + r2;
    if s1.len() == 0 && s2.len() == 0 {
        assert(escape_bytes(s1) + q1 =~= q1);
        assert(escape_bytes(s2) + q2 =~= q2);
        lemma_cancel_prefix(seq![0x22u8], r1, r2);
        assert(s1 =~= s2);
    } else if s1.len() == 0 {
        lemma_escape_bytes_front(s2);
        lemma_escape_byte_head(s2[0]);
        assert((escape_bytes(s1) + q1)[0] == 0x22);
        assert((escape_bytes(s2) + q2)[0] == escape_byte(s2[0])[0]);
        assert(false);
    } else if s2.len() == 0 {
        lemma_escape_bytes_front(s1);
        lemma_escape_byte_head(s1[0]);
        assert((escape_bytes(s2) + q2)[0] == 0x22);
        assert((escape_bytes(s1) + q1)[0] == escape_byte(s1[0])[0]);
        assert(false);
    } else {
        lemma_escape_bytes_front(s1);
        lemma_escape_bytes_front(s2);
        let t1 = escape_bytes(s1.drop_first()) + q1;
        let t2 = escape_bytes(s2.drop_first()) + q2;
        assert(escape_bytes(s1) + q1 =~= escape_byte(s1[0]) + t1);
        assert(escape_bytes(s2) + q2 =~= escape_byte(s2[0]) + t2);
        lemma_escape_byte_parses(s1[0], t1, s2[0], t2);
        lemma_escaped_text_parses(s1.drop_first(), r1, s2.drop_first(), r2);
        assert(s1 =~= seq![s1[0]] + s1.drop_first());
        assert(s2 =~= seq![s2[0]] + s2.drop_first());
    }
}

/// A JSON string literal can be read back in one way only: if two of them,
/// each followed by anything, give the same bytes, then they hold the same
/// text and the same bytes follow.
pub proof fn lemma_json_string_parses(s1: Seq<u8>, r1: Seq<u8>, s2: Seq<u8>, r2: Seq<u8>)
    requires
        json_string(s1) + r1 == json_string(s2) + r2,
    ensures
        s1 == s2,
        r1 == r2,
{
    let t1 = escape_bytes(s1) + (seq![0x22u8] + r1);
    let t2 = escape_bytes(s2) + (seq![0x22u8] + r2);
    assert(json_string(s1) + r1 =~= seq![0x22u8] + t1);
    assert(json_string(s2) + r2 =~= seq![0x22u8] + t2);
    lemma_cancel_prefix(seq![0x22u8], t1, t2);
    lemma_escaped_text_parses(s1, r1, s2, r2);
}

/// The decimal form of a number stands for that number.
pub proof fn lemma_decimal_value(n: nat)
    ensures
        digits_value(decimal(n)) == n,
    decreases n,
{
    if n < 10 {
        assert(decimal(n).drop_last() =~= Seq::<u8>::empty());
        assert(digits_value(decimal(n).drop_last()) == 0);
    } else {
        lemma_decimal_value(n / 10);
        assert(decimal(n).drop_last() =~= decimal(n / 10));
    }
}

/// A number in decimal, followed by something that is no digit, can be read
/// back in one way only.
pub proof fn lemma_decimal_parses(n1: nat, r1: Seq<u8>, n2: nat, r2: Seq<u8>)
    requires
        decimal(n1) + r1 == decimal(n2) + r2,
        ends_number(r1),
        ends_number(r2),
    ensures
        n1 == n2,
        r1 == r2,
{
    let d1 = decimal(n1);
    let d2 = decimal(n2);
    let w = d1 + r1;
    lemma_decimal_shape(n1);
    lemma_decimal_shape(n2);
    assert(w.len() == d1.len() + r1.len());
    assert((d2 + r2).len() == d2.len() + r2.len());
    if d1.len() < d2.len() {
        let k = d1.len() as int;
        assert(r1.len() > 0);
        assert(w[k] == r1[0]);
        assert((d2 + r2)[k] == d2[k]);
        assert(false);
    }
    if d2.len() < d1.len() {
        let k = d2.len() as int;
        assert(r2.len() > 0);
        assert((d2 + r2)[k] == r2[0]);
        assert(w[k] == d1[k]);
        assert(false);
    }
    assert(d1 =~= d2) by {
        assert forall|i: int| 0 <= i < d1.len() implies d1[i] == d2[i] by {
            assert(w[i] == d1[i]);
            assert((d2 + r2)[i] == d2[i]);
        }
    }
    lemma_decimal_value(n1);
    lemma_decimal_value(n2);
    lemma_cancel_prefix(d1, r1, r2);
}

/// A signed number in decimal, followed by something that is no digit, can
/// be read back in one way only.
pub proof fn lemma_signed_decimal_parses(n1: int, r1: Seq<u8>, n2: int, r2: Seq<u8>)
    requires
        signed_decimal(n1) + r1 == signed_decimal(n2) + r2,
        ends_number(r1),
        ends_number(r2),
    ensures
        n1 == n2,
        r1 == r2,
{
    let w1 = signed_decimal(n1) + r1;
    let w2 = signed_decimal(n2) + r2;
    if n1 < 0 {
        lemma_decimal_shape((-n1) as nat);
    } else {
        lemma_decimal_shape(n1 as nat);
    }
    if n2 < 0 {
        lemma_decimal_shape((-n2) as nat);
    } else {
        lemma_decimal_shape(n2 as nat);
    }
    assert(w1[0] == signed_decimal(n1)[0]);
    assert(w2[0] == signed_decimal(n2)[0]);
    if n1 < 0 && n2 < 0 {
        let t1 = decimal((-n1) as nat) + r1;
        let t2 = decimal((-n2) as nat) + r2;
        assert(w1 =~= seq![0x2du8] + t1);
        assert(w2 =~= seq![0x2du8] + t2);
        lemma_cancel_prefix(seq![0x2du8], t1, t2);
        lemma_decimal_parses((-n1) as nat, r1, (-n2) as nat, r2);
    } else if n1 >= 0 && n2 >= 0 {
        lemma_decimal_parses(n1 as nat, r1, n2 as nat, r2);
    } else if n1 < 0 {
        assert(signed_decimal(n1)[0] == 0x2d);
        assert(signed_decimal(n2)[0] == decimal(n2 as nat)[0]);
        assert(false);
    } else {
        assert(signed_decimal(n2)[0] == 0x2d);
        assert(signed_decimal(n1)[0] == decimal(n1 as nat)[0]);
        assert(false);
    }
}

/// The first byte of a piece of ASCII text is its first character.
proof fn lemma_ascii_head(text: &str)
    requires
        text@.len() > 0,
        is_ascii_chars(text@),
    ensures
        text.spec_bytes().len() > 0,
        text.spec_bytes()[0] == text@[0] as u8,
{
    is_ascii_chars_encode_utf8(text@);
}

/// A closing brace ends a number.
proof fn lemma_brace_ends_number(rest: Seq<u8>)
    ensures
        ends_number("}".spec_bytes() + rest),
{
    reveal_strlit("}");
    lemma_ascii_head("}");
}

/// The key of the nanoseconds, which starts with a comma, ends a number.
proof fn lemma_nanos_key_ends_number(rest: Seq<u8>)
    ensures
        ends_number(",\"nanos_since_epoch\":".spec_bytes() + rest),
{
    reveal_strlit(",\"nanos_since_epoch\":");
    lemma_ascii_head(",\"nanos_since_epoch\":");
}

/// The key of the nonce, which starts with a comma, ends a number.
proof fn lemma_nonce_key_ends_number(rest: Seq<u8>)
    ensures
        ends_number(",\"nonce\":".spec_bytes() + rest),
{
    reveal_strlit(",\"nonce\":");
    lemma_ascii_head(",\"nonce\":");
}

/// A comma and a closing bracket start with different bytes, and both
/// differ from the opening brace that a transaction starts with.
proof fn lemma_list_punctuation()
    ensures
        ",".spec_bytes().len() > 0 && ",".spec_bytes()[0] == 0x2c,
        "]".spec_bytes().len() > 0 && "]".spec_bytes()[0] == 0x5d,
        "{\"from\":".spec_bytes().len() > 0 && "{\"from\":".spec_bytes()[0] == 0x7b,
{
    reveal_strlit(",");
    reveal_strlit("]");
    reveal_strlit("{\"from\":");
    lemma_ascii_head(",");
    lemma_ascii_head("]");
    lemma_ascii_head("{\"from\":");
}

/// Joining is associative.
proof fn lemma_regroup(a: Seq<u8>, b: Seq<u8>, c: Seq<u8>)
    ensures
        (a + b) + c == a + (b + c),
{
    assert((a + b) + c =~= a + (b + c));
}

/// Five parts and a rest, grouped from the right.
proof fn lemma_nest5(a: Seq<u8>, b: Seq<u8>, c: Seq<u8>, d: Seq<u8>, e: Seq<u8>, rest: Seq<u8>)
    ensures
        (a + b + c + d + e) + rest == a + (b + (c + (d + (e + rest)))),
{
    lemma_regroup(a + b + c + d, e, rest);
    lemma_regroup(a + b + c, d, e + rest);
    lemma_regroup(a + b, c, d + (e + rest));
    lemma_regroup(a, b, c + (d + (e + rest)));
}

/// Nine parts and a rest, grouped from the right.
proof fn lemma_nest9(
    a: Seq<u8>,
    b: Seq<u8>,
    c: Seq<u8>,
    d: Seq<u8>,
    e: Seq<u8>,
    f: Seq<u8>,
    g: Seq<u8>,
    h: Seq<u8>,
    i: Seq<u8>,
    rest: Seq<u8>,
)
    ensures
        (a + b + c + d + e + f + g + h + i) + rest == a + (b + (c + (d + (e + (f + (g + (h + (i
            + rest)))))))),
{
    lemma_nest5(a + b + c + d + e, f, g, h, i, rest);
    lemma_nest5(a, b, c, d, e, f + (g + (h + (i + rest))));
}

/// Eleven parts and a rest, grouped from the right.
proof fn lemma_nest11(
    a: Seq<u8>,
    b: Seq<u8>,
    c: Seq<u8>,
    d: Seq<u8>,
    e: Seq<u8>,
    f: Seq<u8>,
    g: Seq<u8>,
    h: Seq<u8>,
    i: Seq<u8>,
    j: Seq<u8>,
    k: Seq<u8>,
    rest: Seq<u8>,
)
    ensures
        (a + b + c + d + e + f + g + h + i + j + k) + rest == a + (b + (c + (d + (e + (f + (g + (h
            + (i + (j + (k + rest)))))))))),
{
    lemma_regroup(a + b + c + d + e + f + g + h + i + j, k, rest);
    lemma_regroup(a + b + c + d + e + f + g + h + i, j, k + rest);
    lemma_nest9(a, b, c, d, e, f, g, h, i, j + (k + rest));
}

/// Text is determined by its UTF-8 bytes.
pub proof fn lemma_utf8_injective(a: Seq<char>, b: Seq<char>)
    requires
        encode_utf8(a) == encode_utf8(b),
    ensures
        a == b,
{
    encode_utf8_decode_utf8(a);
    encode_utf8_decode_utf8(b);
}

/// The canonical bytes of a timestamp can be read back in one way only.
pub proof fn lemma_timestamp_parses(t1: Timestamp, r1: Seq<u8>, t2: Timestamp, r2: Seq<u8>)
    requires
        t1.encoding() + r1 == t2.encoding() + r2,
    ensures
        t1 == t2,
        r1 == r2,
{
    let open = "{\"secs_since_epoch\":".spec_bytes();
    let middle = ",\"nanos_since_epoch\":".spec_bytes();
    let close = "}".spec_bytes();
    let secs1 = decimal(t1.secs_since_epoch as nat);
    let secs2 = decimal(t2.secs_since_epoch as nat);
    let nanos1 = decimal(t1.nanos_since_epoch as nat);
    let nanos2 = decimal(t2.nanos_since_epoch as nat);
    let a1 = close + r1;
    let a2 = close + r2;
    let b1 = nanos1 + a1;
    let b2 = nanos2 + a2;
    let c1 = middle + b1;
    let c2 = middle + b2;
    let d1 = secs1 + c1;
    let d2 = secs2 + c2;
    assert(t1.encoding() + r1 == open + d1) by {
        lemma_nest5(open, secs1, middle, nanos1, close, r1);
    }
    assert(t2.encoding() + r2 == open + d2) by {
        lemma_nest5(open, secs2, middle, nanos2, close, r2);
    }
    lemma_cancel_prefix(open, d1, d2);
    lemma_nanos_key_ends_number(b1);
    lemma_nanos_key_ends_number(b2);
    lemma_decimal_parses(t1.secs_since_epoch as nat, c1, t2.secs_since_epoch as nat, c2);
    lemma_cancel_prefix(middle, b1, b2);
    lemma_brace_ends_number(r1);
    lemma_brace_ends_number(r2);
    lemma_decimal_parses(t1.nanos_since_epoch as nat, a1, t2.nanos_since_epoch as nat, a2);
    lemma_cancel_prefix(close, r1, r2);
}

/// The canonical bytes of a transaction can be read back in one way only.
pub proof fn lemma_transaction_parses(
    t1: TransactionView,
    r1: Seq<u8>,
    t2: TransactionView,
    r2: Seq<u8>,
)
    requires
        t1.encoding() + r1 == t2.encoding() + r2,
    ensures
        t1 == t2,
        r1 == r2,
{
    let k_from = "{\"from\":".spec_bytes();
    let k_to = ",\"to\":".spec_bytes();
    let k_time = ",\"time\":".spec_bytes();
    let k_amount = ",\"amount\":".spec_bytes();
    let close = "}".spec_bytes();
    let from1 = json_string(encode_utf8(t1.from));
    let from2 = json_string(encode_utf8(t2.from));
    let to1 = json_string(encode_utf8(t1.to));
    let to2 = json_string(encode_utf8(t2.to));
    let time1 = t1.time.encoding();
    let time2 = t2.time.encoding();
    let amount1 = signed_decimal(t1.amount as int);
    let amount2 = signed_decimal(t2.amount as int);
    let a1 = close + r1;
    let a2 = close + r2;
    let b1 = amount1 + a1;
    let b2 = amount2 + a2;
    let c1 = k_amount + b1;
    let c2 = k_amount + b2;
    let d1 = time1 + c1;
    let d2 = time2 + c2;
    let e1 = k_time + d1;
    let e2 = k_time + d2;
    let f1 = to1 + e1;
    let f2 = to2 + e2;
    let g1 = k_to + f1;
    let g2 = k_to + f2;
    let h1 = from1 + g1;
    let h2 = from2 + g2;
    assert(t1.encoding() + r1 == k_from + h1) by {
        lemma_nest9(k_from, from1, k_to, to1, k_time, time1, k_amount, amount1, close, r1);
    }
    assert(t2.encoding() + r2 == k_from + h2) by {
        lemma_nest9(k_from, from2, k_to, to2, k_time, time2, k_amount, amount2, close, r2);
    }
    lemma_cancel_prefix(k_from, h1, h2);
    lemma_json_string_parses(encode_utf8(t1.from), g1, encode_utf8(t2.from), g2);
    lemma_utf8_injective(t1.from, t2.from);
    lemma_cancel_prefix(k_to, f1, f2);
    lemma_json_string_parses(encode_utf8(t1.to), e1, encode_utf8(t2.to), e2);
    lemma_utf8_injective(t1.to, t2.to);
    lemma_cancel_prefix(k_time, d1, d2);
    lemma_timestamp_parses(t1.time, c1, t2.time, c2);
    lemma_cancel_prefix(k_amount, b1, b2);
    lemma_brace_ends_number(r1);
    lemma_brace_ends_number(r2);
    lemma_signed_decimal_parses(t1.amount as int, a1, t2.amount as int, a2);
    lemma_cancel_prefix(close, r1, r2);
}

/// The first byte of the canonical bytes of a transaction is an opening brace.
proof fn lemma_transaction_head(t: TransactionView, rest: Seq<u8>)
    ensures
        (t.encoding() + rest).len() > 0,
        (t.encoding() + rest)[0] == 0x7b,
{
    lemma_list_punctuation();
    let k_from = "{\"from\":".spec_bytes();
    let tail = json_string(encode_utf8(t.from)) + ",\"to\":".spec_bytes() + json_string(
        encode_utf8(t.to),
    ) + ",\"time\":".spec_bytes() + t.time.encoding() + ",\"amount\":".spec_bytes()
        + signed_decimal(t.amount as int) + "}".spec_bytes() + rest;
    assert(t.encoding() + rest =~= k_from + tail);
}

/// What stands behind the first transaction of a list: each further
/// transaction behind a comma, and then `tail`.
pub open spec fn following(txs: Seq<TransactionView>, tail: Seq<u8>) -> Seq<u8>
    decreases txs.len(),
{
    if txs.len() == 0 {
        tail
    } else {
        ",".spec_bytes() + (txs[0].encoding() + following(txs.drop_first(), tail))
    }
}

/// One more transaction at the end of a list stands in front of the tail.
proof fn lemma_following_push(txs: Seq<TransactionView>, last: TransactionView, tail: Seq<u8>)
    ensures
        following(txs, ",".spec_bytes() + (last.encoding() + tail)) == following(
            txs.push(last),
            tail,
        ),
    decreases txs.len(),
{
    let longer = txs.push(last);
    if txs.len() == 0 {
        assert(longer.drop_first() =~= Seq::<TransactionView>::empty());
        assert(following(longer.drop_first(), tail) == tail);
    } else {
        lemma_following_push(txs.drop_first(), last, tail);
        assert(longer.drop_first() =~= txs.drop_first().push(last));
    }
}

/// The joined bytes of a list that is not empty, read from the front.
proof fn lemma_joined_front(txs: Seq<TransactionView>, tail: Seq<u8>)
    requires
        txs.len() > 0,
    ensures
        joined_encodings(txs) + tail == txs[0].encoding() + following(txs.drop_first(), tail),
    decreases txs.len(),
{
    if txs.len() == 1 {
        assert(txs.drop_first().len() == 0);
    } else {
        let shorter = txs.drop_last();
        let comma = ",".spec_bytes();
        let last = txs.last().encoding();
        let longer_tail = comma + (last + tail);
        assert(joined_encodings(txs) + tail == joined_encodings(shorter) + longer_tail) by {
            assert(joined_encodings(txs) == joined_encodings(shorter) + comma + last);
            lemma_regroup(joined_encodings(shorter) + comma, last, tail);
            lemma_regroup(joined_encodings(shorter), comma, last + tail);
        }
        lemma_joined_front(shorter, longer_tail);
        lemma_following_push(shorter.drop_first(), txs.last(), tail);
        assert(shorter.drop_first().push(txs.last()) =~= txs.drop_first());
    }
}

/// The rest of a list, closed by a bracket, can be read back in one way only.
proof fn lemma_following_parses(
    txs1: Seq<TransactionView>,
    r1: Seq<u8>,
    txs2: Seq<TransactionView>,
    r2: Seq<u8>,
)
    requires
        following(txs1, "]".spec_bytes() + r1) == following(txs2, "]".spec_bytes() + r2),
    ensures
        txs1 == txs2,
        r1 == r2,
    decreases txs1.len(),
{
    let comma = ",".spec_bytes();
    let close = "]".spec_bytes();
    lemma_list_punctuation();
    if txs1.len() == 0 && txs2.len() == 0 {
        lemma_cancel_prefix(close, r1, r2);
        assert(txs1 =~= txs2);
    } else if txs1.len() == 0 {
        assert((close + r1)[0] == close[0]);
        assert(following(txs2, close + r2)[0] == comma[0]);
        assert(false);
    } else if txs2.len() == 0 {
        assert((close + r2)[0] == close[0]);
        assert(following(txs1, close + r1)[0] == comma[0]);
        assert(false);
    } else {
        let f1 = following(txs1.drop_first(), close + r1);
        let f2 = following(txs2.drop_first(), close + r2);
        lemma_cancel_prefix(comma, txs1[0].encoding() + f1, txs2[0].encoding() + f2);
        lemma_transaction_parses(txs1[0], f1, txs2[0], f2);
        lemma_following_parses(txs1.drop_first(), r1, txs2.drop_first(), r2);
        assert(txs1 =~= seq![txs1[0]] + txs1.drop_first());
        assert(txs2 =~= seq![txs2[0]] + txs2.drop_first());
    }
}

/// The canonical bytes of a list of transactions can be read back in one way
/// only.
pub proof fn lemma_list_parses(
    txs1: Seq<TransactionView>,
    r1: Seq<u8>,
    txs2: Seq<TransactionView>,
    r2: Seq<u8>,
)
    requires
        list_encoding(txs1) + r1 == list_encoding(txs2) + r2,
    ensures
        txs1 == txs2,
        r1 == r2,
{
    let open = "[".spec_bytes();
    let close = "]".spec_bytes();
    let a1 = close + r1;
    let a2 = close + r2;
    let b1 = joined_encodings(txs1) + a1;
    let b2 = joined_encodings(txs2) + a2;
    assert(list_encoding(txs1) + r1 == open + b1) by {
        lemma_regroup(open + joined_encodings(txs1), close, r1);
        lemma_regroup(open, joined_encodings(txs1), a1);
    }
    assert(list_encoding(txs2) + r2 == open + b2) by {
        lemma_regroup(open + joined_encodings(txs2), close, r2);
        lemma_regroup(open, joined_encodings(txs2), a2);
    }
    lemma_cancel_prefix(open, b1, b2);
    lemma_closed_items_parse(txs1, r1, txs2, r2);
}

/// A list that is closed at once and a list with a transaction in it start
/// with different bytes.
proof fn lemma_closed_list_differs(txs: Seq<TransactionView>, r1: Seq<u8>, r2: Seq<u8>)
    requires
        txs.len() > 0,
    ensures
        "]".spec_bytes() + r1 != joined_encodings(txs) + ("]".spec_bytes() + r2),
{
    let close = "]".spec_bytes();
    let a2 = close + r2;
    lemma_joined_front(txs, a2);
    lemma_transaction_head(txs[0], following(txs.drop_first(), a2));
    lemma_list_punctuation();
    assert((close + r1)[0] == close[0]);
}

/// The transactions of a list and the bracket that closes it can be read
/// back in one way only.
proof fn lemma_closed_items_parse(
    txs1: Seq<TransactionView>,
    r1: Seq<u8>,
    txs2: Seq<TransactionView>,
    r2: Seq<u8>,
)
    requires
        joined_encodings(txs1) + ("]".spec_bytes() + r1) == joined_encodings(txs2) + (
        "]".spec_bytes() + r2),
    ensures
        txs1 == txs2,
        r1 == r2,
{
    let close = "]".spec_bytes();
    let a1 = close + r1;
    let a2 = close + r2;
    if txs1.len() == 0 {
        assert(joined_encodings(txs1) + a1 =~= a1);
    }
    if txs2.len() == 0 {
        assert(joined_encodings(txs2) + a2 =~= a2);
    }
    if txs1.len() == 0 && txs2.len() == 0 {
        lemma_cancel_prefix(close, r1, r2);
        assert(txs1 =~= txs2);
    } else if txs1.len() == 0 {
        lemma_closed_list_differs(txs2, r1, r2);
    } else if txs2.len() == 0 {
        lemma_closed_list_differs(txs1, r2, r1);
    } else {
        lemma_joined_front(txs1, a1);
        lemma_joined_front(txs2, a2);
        let f1 = following(txs1.drop_first(), a1);
        let f2 = following(txs2.drop_first(), a2);
        lemma_transaction_parses(txs1[0], f1, txs2[0], f2);
        lemma_following_parses(txs1.drop_first(), r1, txs2.drop_first(), r2);
        assert(txs1 =~= seq![txs1[0]] + txs1.drop_first());
        assert(txs2 =~= seq![txs2[0]] + txs2.drop_first());
    }
}

/// The canonical bytes of a block determine its hashed fields: two blocks
/// with the same canonical bytes have the same predecessor, transactions,
/// time, index and nonce.
pub proof fn lemma_preimage_injective(a: BlockView, b: BlockView)
    requires
        preimage(a.prev_hash, a.transactions, a.time, a.index, a.nonce) == preimage(
            b.prev_hash,
            b.transactions,
            b.time,
            b.index,
            b.nonce,
        ),
    ensures
        a.prev_hash == b.prev_hash,
        a.transactions == b.transactions,
        a.time == b.time,
        a.index == b.index,
        a.nonce == b.nonce,
{
    let k_prev = "{\"prev_hash\":".spec_bytes();
    let k_txs = ",\"transactions\":".spec_bytes();
    let k_time = ",\"time\":".spec_bytes();
    let k_index = ",\"index\":".spec_bytes();
    let k_nonce = ",\"nonce\":".spec_bytes();
    let close = "}".spec_bytes();
    let none = Seq::<u8>::empty();
    let prev1 = json_string(encode_utf8(a.prev_hash));
    let prev2 = json_string(encode_utf8(b.prev_hash));
    let txs1 = list_encoding(a.transactions);
    let txs2 = list_encoding(b.transactions);
    let time1 = a.time.encoding();
    let time2 = b.time.encoding();
    let index1 = decimal(a.index as nat);
    let index2 = decimal(b.index as nat);
    let nonce1 = decimal(a.nonce as nat);
    let nonce2 = decimal(b.nonce as nat);
    let a1 = close + none;
    let b1 = nonce1 + a1;
    let b2 = nonce2 + a1;
    let c1 = k_nonce + b1;
    let c2 = k_nonce + b2;
    let d1 = index1 + c1;
    let d2 = index2 + c2;
    let e1 = k_index + d1;
    let e2 = k_index + d2;
    let f1 = time1 + e1;
    let f2 = time2 + e2;
    let g1 = k_time + f1;
    let g2 = k_time + f2;
    let h1 = txs1 + g1;
    let h2 = txs2 + g2;
    let i1 = k_txs + h1;
    let i2 = k_txs + h2;
    let j1 = prev1 + i1;
    let j2 = prev2 + i2;
    let pa = preimage(a.prev_hash, a.transactions, a.time, a.index, a.nonce);
    let pb = preimage(b.prev_hash, b.transactions, b.time, b.index, b.nonce);
    assert(pa == k_prev + j1) by {
        lemma_nest11(
            k_prev,
            prev1,
            k_txs,
            txs1,
            k_time,
            time1,
            k_index,
            index1,
            k_nonce,
            nonce1,
            close,
            none,
        );
        assert(pa + none =~= pa);
    }
    assert(pb == k_prev + j2) by {
        lemma_nest11(
            k_prev,
            prev2,
            k_txs,
            txs2,
            k_time,
            time2,
            k_index,
            index2,
            k_nonce,
            nonce2,
            close,
            none,
        );
        assert(pb + none =~= pb);
    }
    lemma_cancel_prefix(k_prev, j1, j2);
    lemma_json_string_parses(encode_utf8(a.prev_hash), i1, encode_utf8(b.prev_hash), i2);
    lemma_utf8_injective(a.prev_hash, b.prev_hash);
    lemma_cancel_prefix(k_txs, h1, h2);
    lemma_list_parses(a.transactions, g1, b.transactions, g2);
    lemma_cancel_prefix(k_time, f1, f2);
    lemma_timestamp_parses(a.time, e1, b.time, e2);
    lemma_cancel_prefix(k_index, d1, d2);
    lemma_nonce_key_ends_number(b1);
    lemma_nonce_key_ends_number(b2);
    lemma_decimal_parses(a.index as nat, c1, b.index as nat, c2);
    lemma_cancel_prefix(k_nonce, b1, b2);
    lemma_brace_ends_number(none);
    lemma_decimal_parses(a.nonce as nat, a1, b.nonce as nat, a1);
}

/// Bytes are determined by their hexadecimal rendering.
pub proof fn lemma_hex_lower_injective(a: Seq<u8>, b: Seq<u8>)
    requires
        hex_lower(a) == hex_lower(b),
    ensures
        a == b,
{
    assert(hex_lower(a).len() == 2 * a.len());
    assert(hex_lower(b).len() == 2 * b.len());
    assert forall|i: int| 0 <= i < a.len() implies a[i] == b[i] by {
        let x: int = a[i] as int;
        let y: int = b[i] as int;
        assert((2 * i) / 2 == i && (2 * i) % 2 == 0);
        assert((2 * i + 1) / 2 == i && (2 * i + 1) % 2 == 1);
        assert(hex_lower(a)[2 * i] == hex_digits()[x / 16]);
        assert(hex_lower(b)[2 * i] == hex_digits()[y / 16]);
        assert(hex_lower(a)[2 * i + 1] == hex_digits()[x % 16]);
        assert(hex_lower(b)[2 * i + 1] == hex_digits()[y % 16]);
        lemma_hex_digits_differ(x / 16, y / 16);
        lemma_hex_digits_differ(x % 16, y % 16);
    }
    assert(a =~= b);
}

/// No two of the sixteen hexadecimal digits are the same character.
proof fn lemma_hex_digits_differ(m: int, n: int)
    requires
        0 <= m < 16,
        0 <= n < 16,
        hex_digits()[m] == hex_digits()[n],
    ensures
        m == n,
{
}

/// Sealing is sensitive to every hashed field: two blocks that get the same
/// hash although they differ in predecessor, transactions, time, index or
/// nonce exhibit two different byte strings with the same SHA-256 digest.
pub proof fn lemma_equal_hashes_need_a_collision(a: BlockView, b: BlockView)
    requires
        a.digest() == b.digest(),
        a.prev_hash != b.prev_hash || a.transactions != b.transactions || a.time != b.time
            || a.index != b.index || a.nonce != b.nonce,
    ensures
        preimage(a.prev_hash, a.transactions, a.time, a.index, a.nonce) != preimage(
            b.prev_hash,
            b.transactions,
            b.time,
            b.index,
            b.nonce,
        ),
        sha256(preimage(a.prev_hash, a.transactions, a.time, a.index, a.nonce)) == sha256(
            preimage(b.prev_hash, b.transactions, b.time, b.index, b.nonce),
        ),
{
    let pa = preimage(a.prev_hash, a.transactions, a.time, a.index, a.nonce);
    let pb = preimage(b.prev_hash, b.transactions, b.time, b.index, b.nonce);
    reveal(content_hash);
    lemma_hex_lower_injective(sha256(pa)@, sha256(pb)@);
    assert(sha256(pa) =~= sha256(pb));
    if pa == pb {
        lemma_preimage_injective(a, b);
    }
}

} // verus!
