//! Hexadecimal text.

use vstd::prelude::*;
use vstd::string::*;

verus! {

/// The lowercase hex digit of a value below 16.
pub open spec fn hex_digit(v: u8) -> char {
    if v < 10 {
        ('0' as u8 + v) as char
    } else {
        ('a' as u8 + v - 10) as char
    }
}

/// Two lowercase digits per byte, the high one first.
pub open spec fn hex_text(bytes: Seq<u8>) -> Seq<char> {
    Seq::new(
        2 * bytes.len(),
        |i: int|
            if i % 2 == 0 {
                hex_digit(bytes[i / 2] / 16)
            } else {
                hex_digit(bytes[i / 2] % 16)
            },
    )
}

/// The value of a hex digit, of either case.
pub open spec fn digit_value(c: char) -> Option<u8> {
    if '0' <= c <= '9' {
        Some((c as u8 - '0' as u8) as u8)
    } else if 'a' <= c <= 'f' {
        Some((c as u8 - 'a' as u8 + 10) as u8)
    } else if 'A' <= c <= 'F' {
        Some((c as u8 - 'A' as u8 + 10) as u8)
    } else {
        None
    }
}

/// The bytes that hex digits, an even number of them, spell.
pub open spec fn hex_bytes(text: Seq<char>) -> Option<Seq<u8>> {
    if text.len() % 2 == 0 && forall|i: int| 0 <= i < text.len() ==> digit_value(#[trigger] text[i]) is Some {
        Some(
            Seq::new(
                text.len() / 2,
                |i: int| (16 * digit_value(text[2 * i])->0 + digit_value(text[2 * i + 1])->0) as u8,
            ),
        )
    } else {
        None
    }
}

/// The bytes in reverse order.
pub open spec fn reversed(bytes: Seq<u8>) -> Seq<u8> {
    Seq::new(bytes.len(), |i: int| bytes[bytes.len() - 1 - i])
}

/// Calls `hex::encode`. The contract claims that it spells every byte with two
/// lowercase digits.
#[verifier::external_body]
pub(crate) fn hex_encode(bytes: &[u8]) -> (r: String)
    ensures
        r@ == hex_text(bytes@),
{
    hex::encode(bytes)
}

/// Calls `hex::decode`. The contract claims that it accepts an even number of
/// hex digits of either case, and nothing else, and gives the bytes they spell.
#[verifier::external_body]
pub(crate) fn hex_decode(text: &str) -> (r: Option<Vec<u8>>)
    ensures
        match r {
            Some(v) => hex_bytes(text@) == Some(v@),
            None => hex_bytes(text@) is None,
        },
{
    hex::decode(text).ok()
}

/// Calls `zcash_protocol::TxId::as_hex`. The contract claims that it spells the
/// bytes in reverse order, as block explorers do.
#[verifier::external_body]
pub(crate) fn txid_hex(txid: [u8; 32]) -> (r: String)
    ensures
        r@ == hex_text(reversed(txid@)),
{
    zcash_protocol::TxId::from_bytes(txid).as_hex()
}

/// Spelling bytes and reading the spelling back gives the bytes.
pub proof fn law_hex_round_trips(bytes: Seq<u8>)
    ensures
        hex_bytes(hex_text(bytes)) == Some(bytes),
{
    let text = hex_text(bytes);
    assert forall|v: u8| v < 16 implies digit_value(#[trigger] hex_digit(v)) == Some(v) by {
        lemma_digit(v);
    }
    assert forall|i: int| 0 <= i < text.len() implies digit_value(#[trigger] text[i]) is Some by {
        lemma_digit(bytes[i / 2] / 16);
        lemma_digit(bytes[i / 2] % 16);
    }
    assert forall|i: int| 0 <= i < bytes.len() implies #[trigger] (hex_bytes(text)->0)[i] == bytes[i] by {
        let b = bytes[i];
        assert((2 * i) / 2 == i && (2 * i) % 2 == 0 && (2 * i + 1) / 2 == i && (2 * i + 1) % 2 == 1);
        assert(text[2 * i] == hex_digit(b / 16));
        assert(text[2 * i + 1] == hex_digit(b % 16));
        lemma_digit(b / 16);
        lemma_digit(b % 16);
    }
    assert(hex_bytes(text)->0 =~= bytes);
}

proof fn lemma_digit(v: u8)
    requires
        v < 16,
    ensures
        digit_value(hex_digit(v)) == Some(v),
{
}

} // verus!
