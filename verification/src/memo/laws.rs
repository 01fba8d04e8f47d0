//! The memo grammar as a whole: a memo reads as a statement exactly where it is
//! that statement's spelling, zero-padded.

use vstd::prelude::*;
use vstd::utf8::*;

use crate::encoding::{hex_digit, hex_text};
use crate::kernel::Action;
use crate::memo::{
    fields_of, hex32, is_name, lifecycle_memo, lifecycle_of, nibble, unpadded, LifecycleView,
};
use crate::text::{lemma_array32_of, lemma_as_array32};

verus! {

/// `n` zero bytes.
pub open spec fn zeros(n: nat) -> Seq<u8> {
    Seq::new(n, |i: int| 0u8)
}

/// The fields with a colon between each two.
pub open spec fn joined(fields: Seq<Seq<char>>) -> Seq<char>
    decreases fields.len(),
{
    if fields.len() == 0 {
        Seq::empty()
    } else if fields.len() == 1 {
        fields[0]
    } else {
        joined(fields.drop_last()).push(':') + fields.last()
    }
}

/// The word a memo names an action by.
pub open spec fn verb(action: Action) -> Seq<char> {
    match action {
        Action::Claim => "claim"@,
        Action::Update => "update"@,
        Action::Release => "release"@,
    }
}

/// The fields a statement is written in. A release has no address: it is left
/// out, or empty where a witness follows.
pub open spec fn statement_fields(m: LifecycleView) -> Seq<Seq<char>> {
    let head = seq!["ZNS"@, verb(m.action), m.name];
    match m.prev_rcm {
        Some(p) => head.push(m.ua).push(hex_text(p@)),
        None => if m.action == Action::Release {
            head
        } else {
            head.push(m.ua)
        },
    }
}

/// No character of `text` is a colon.
pub open spec fn is_field(text: Seq<char>) -> bool {
    forall|i: int| 0 <= i < text.len() ==> #[trigger] text[i] != ':'
}

/// A statement that a memo can spell: a DNS label, and an address on every
/// action but a release, which holds no colon and, where it ends the memo, does
/// not end in what would be taken for padding.
pub open spec fn is_statement(m: LifecycleView) -> bool {
    &&& is_name(m.name)
    &&& is_field(m.ua)
    &&& m.action == Action::Release <==> m.ua.len() == 0
    &&& m.action != Action::Release && m.prev_rcm is None ==> m.ua.last() != '\0'
}

/// A name is a DNS label: 1 to 63 lowercase letters, digits and hyphens, with no
/// hyphen at either end.
pub proof fn law_names_are_labels(name: Seq<char>)
    ensures
        is_name(name) <==> (1 <= name.len() <= 63 && name[0] != '-' && name[name.len() - 1] != '-' && (
        forall|i: int|
            0 <= i < name.len() ==> ('a' <= #[trigger] name[i] <= 'z') || ('0' <= name[i] <= '9') || name[i]
                == '-')),
{
}

/// Spelling a witness in hex and reading the spelling back gives the witness,
/// and no other text reads as it.
pub proof fn law_witness_round_trips(p: [u8; 32])
    ensures
        hex32(hex_text(p@)) == Some(p),
        forall|s: Seq<char>| #[trigger] hex32(s) == Some(p) ==> s == hex_text(p@),
{
    let text = hex_text(p@);
    assert forall|i: int| 0 <= i < 64 implies nibble(#[trigger] text[i]) is Some by {
        lemma_nibble(p@[i / 2] / 16);
        lemma_nibble(p@[i / 2] % 16);
    }
    let bytes = Seq::new(32, |i: int| (16 * nibble(text[2 * i])->0 + nibble(text[2 * i + 1])->0) as u8);
    assert forall|i: int| 0 <= i < 32 implies #[trigger] bytes[i] == p@[i] by {
        let b = p@[i];
        assert((2 * i) / 2 == i && (2 * i) % 2 == 0 && (2 * i + 1) / 2 == i && (2 * i + 1) % 2 == 1);
        assert(text[2 * i] == hex_digit(b / 16));
        assert(text[2 * i + 1] == hex_digit(b % 16));
        lemma_nibble(b / 16);
        lemma_nibble(b % 16);
    }
    assert(bytes =~= p@);
    lemma_as_array32(p);
    assert forall|s: Seq<char>| #[trigger] hex32(s) == Some(p) implies s == text by {
        let read = Seq::new(32, |i: int| (16 * nibble(s[2 * i])->0 + nibble(s[2 * i + 1])->0) as u8);
        lemma_array32_of(read);
        assert(read == p@);
        assert forall|j: int| 0 <= j < 64 implies #[trigger] s[j] == text[j] by {
            let i = j / 2;
            assert(nibble(s[2 * i]) is Some && nibble(s[2 * i + 1]) is Some);
            lemma_digit_of(s[2 * i]);
            lemma_digit_of(s[2 * i + 1]);
            assert(read[i] == p@[i]);
            assert(j == 2 * i || j == 2 * i + 1);
        }
        assert(s =~= text);
    }
}

proof fn lemma_nibble(v: u8)
    requires
        v < 16,
    ensures
        nibble(hex_digit(v)) == Some(v),
        hex_digit(v) != ':',
        hex_digit(v) != '\0',
{
}

proof fn lemma_digit_of(c: char)
    requires
        nibble(c) is Some,
    ensures
        nibble(c)->0 < 16,
        hex_digit(nibble(c)->0) == c,
{
}

/// A colon and a field behind a text add one field to it.
proof fn lemma_field(a: Seq<char>, f: Seq<char>)
    requires
        is_field(f),
    ensures
        fields_of(a.push(':') + f) == fields_of(a).push(f),
    decreases f.len(),
{
    let text = a.push(':') + f;
    if f.len() == 0 {
        assert(text =~= a.push(':'));
        assert(text.drop_last() =~= a);
        assert(f =~= Seq::empty());
    } else {
        lemma_field(a, f.drop_last());
        assert(text.drop_last() =~= a.push(':') + f.drop_last());
        assert(text.last() == f[f.len() - 1]);
        let before = fields_of(a).push(f.drop_last());
        assert(before.drop_last() =~= fields_of(a));
        assert(f.drop_last().push(f.last()) =~= f);
    }
}

proof fn lemma_single_field(f: Seq<char>)
    requires
        is_field(f),
    ensures
        fields_of(f) == seq![f],
    decreases f.len(),
{
    if f.len() > 0 {
        lemma_single_field(f.drop_last());
        assert(f.last() == f[f.len() - 1]);
        assert(seq![f.drop_last()].drop_last().push(f) =~= seq![f]);
        assert(f.drop_last().push(f.last()) =~= f);
    } else {
        assert(f =~= Seq::empty());
    }
}

proof fn lemma_joined_fields(fields: Seq<Seq<char>>)
    requires
        fields.len() > 0,
        forall|i: int| 0 <= i < fields.len() ==> is_field(#[trigger] fields[i]),
    ensures
        fields_of(joined(fields)) == fields,
    decreases fields.len(),
{
    if fields.len() == 1 {
        lemma_single_field(fields[0]);
        assert(fields =~= seq![fields[0]]);
    } else {
        lemma_joined_fields(fields.drop_last());
        lemma_field(joined(fields.drop_last()), fields.last());
        assert(fields.drop_last().push(fields.last()) =~= fields);
    }
}

/// Splitting at colons and joining gives the text back.
proof fn lemma_fields_join(text: Seq<char>)
    ensures
        fields_of(text).len() > 0,
        joined(fields_of(text)) == text,
        forall|i: int| 0 <= i < fields_of(text).len() ==> is_field(#[trigger] fields_of(text)[i]),
    decreases text.len(),
{
    let all = fields_of(text);
    if text.len() == 0 {
        assert(text =~= Seq::empty());
    } else {
        let init = text.drop_last();
        let before = fields_of(init);
        lemma_fields_join(init);
        assert(init.push(text.last()) =~= text);
        if text.last() == ':' {
            assert(all.drop_last() =~= before);
            assert(joined(all) =~= text);
        } else {
            let last = before.last().push(text.last());
            assert(all.drop_last() =~= before.drop_last());
            assert(all.last() == last);
            assert(is_field(before[before.len() - 1]));
            assert(is_field(last)) by {
                assert forall|i: int| 0 <= i < last.len() implies #[trigger] last[i] != ':' by {
                    if i < before.last().len() {
                        assert(before[before.len() - 1][i] != ':');
                    }
                }
            }
            if before.len() > 1 {
                assert(joined(all) =~= joined(before).push(text.last()));
            }
            assert(joined(all) =~= text);
        }
    }
}

proof fn lemma_scalar_ends(c: char)
    ensures
        encode_scalar(c as u32).len() > 0,
        encode_scalar(c as u32).last() == 0 <==> c == '\0',
{
    char_is_scalar(c);
    let s: u32 = c as u32;
    assert(0 < s <= 0x7f ==> (s & 0x7F) as u8 != 0) by (bit_vector);
    assert((0u32 & 0x7F) as u8 == 0) by (bit_vector);
    assert(0x80u8 | (s & 0x3F) as u8 != 0) by (bit_vector);
}

/// The last byte of a text's encoding is zero exactly where its last character
/// is.
proof fn lemma_encoding_ends(text: Seq<char>)
    requires
        text.len() > 0,
    ensures
        encode_utf8(text).len() > 0,
        encode_utf8(text).last() == 0 <==> text.last() == '\0',
    decreases text.len(),
{
    lemma_scalar_ends(text[0]);
    if text.len() > 1 {
        lemma_encoding_ends(text.drop_first());
    } else {
        assert(encode_utf8(text.drop_first()) =~= Seq::empty());
        assert(encode_utf8(text) =~= encode_scalar(text[0] as u32));
    }
}

proof fn lemma_padded(bytes: Seq<u8>, pad: nat)
    requires
        bytes.len() > 0 ==> bytes.last() != 0,
    ensures
        unpadded(bytes + zeros(pad)) == bytes,
    decreases pad,
{
    let raw = bytes + zeros(pad);
    if pad > 0 {
        assert(raw.last() == 0);
        assert(raw.drop_last() =~= bytes + zeros((pad - 1) as nat));
        lemma_padded(bytes, (pad - 1) as nat);
    } else {
        assert(raw =~= bytes);
    }
}

proof fn lemma_unpadded(raw: Seq<u8>)
    ensures
        unpadded(raw).len() <= raw.len(),
        raw == unpadded(raw) + zeros((raw.len() - unpadded(raw).len()) as nat),
        unpadded(raw).len() > 0 ==> unpadded(raw).last() != 0,
    decreases raw.len(),
{
    let bytes = unpadded(raw);
    if raw.len() > 0 && raw.last() == 0 {
        lemma_unpadded(raw.drop_last());
        let n = (raw.len() - 1 - bytes.len()) as nat;
        assert(raw =~= raw.drop_last().push(0));
        assert(bytes + zeros((n + 1) as nat) =~= (bytes + zeros(n)).push(0));
    } else {
        assert(raw =~= bytes + zeros(0));
    }
}

proof fn lemma_spellings()
    ensures
        "ZNS"@ == seq!['Z', 'N', 'S'],
        "claim"@ == seq!['c', 'l', 'a', 'i', 'm'],
        "update"@ == seq!['u', 'p', 'd', 'a', 't', 'e'],
        "release"@ == seq!['r', 'e', 'l', 'e', 'a', 's', 'e'],
{
    reveal_strlit("ZNS");
    reveal_strlit("claim");
    reveal_strlit("update");
    reveal_strlit("release");
    assert("ZNS"@ =~= seq!['Z', 'N', 'S']);
    assert("claim"@ =~= seq!['c', 'l', 'a', 'i', 'm']);
    assert("update"@ =~= seq!['u', 'p', 'd', 'a', 't', 'e']);
    assert("release"@ =~= seq!['r', 'e', 'l', 'e', 'a', 's', 'e']);
}

proof fn lemma_hex_is_a_field(p: [u8; 32])
    ensures
        is_field(hex_text(p@)),
        hex_text(p@).len() == 64,
        hex_text(p@).last() != '\0',
{
    let text = hex_text(p@);
    assert forall|i: int| 0 <= i < text.len() implies #[trigger] text[i] != ':' && text[i] != '\0' by {
        lemma_nibble(p@[i / 2] / 16);
        lemma_nibble(p@[i / 2] % 16);
    }
    assert(text[63] != '\0');
}

/// The fields of a statement read as that statement.
pub proof fn law_fields_state_what_they_spell(m: LifecycleView)
    requires
        is_statement(m),
    ensures
        lifecycle_of(statement_fields(m)) == Some(m),
{
    lemma_spellings();
    if let Some(p) = m.prev_rcm {
        law_witness_round_trips(p);
    }
    if m.action == Action::Release {
        assert(m.ua =~= Seq::empty());
    }
}

/// A statement written as its fields with colons between them, zero-padded to
/// any length, reads as that statement.
pub proof fn law_memo_reads_back(m: LifecycleView, pad: nat)
    requires
        is_statement(m),
    ensures
        lifecycle_memo(encode_utf8(joined(statement_fields(m))) + zeros(pad)) == Some(m),
{
    let fields = statement_fields(m);
    let text = joined(fields);
    lemma_spellings();
    if let Some(p) = m.prev_rcm {
        lemma_hex_is_a_field(p);
    }
    assert forall|i: int| 0 <= i < fields.len() implies is_field(#[trigger] fields[i]) by {
        if i == 2 {
            assert(fields[i] == m.name);
        }
    }
    lemma_joined_fields(fields);
    assert(fields.last().len() > 0);
    assert(text.last() == fields.last().last());
    assert(m.name.last() == m.name[m.name.len() - 1]);
    assert(text.last() != '\0');
    lemma_encoding_ends(text);
    lemma_padded(encode_utf8(text), pad);
    encode_utf8_valid_utf8(text);
    encode_utf8_decode_utf8(text);
    law_fields_state_what_they_spell(m);
}

/// A memo that reads as a statement is that statement's spelling and padding,
/// nothing more: two memos of one statement differ in padding alone.
pub proof fn law_memo_is_its_spelling(raw: Seq<u8>)
    ensures
        lifecycle_memo(raw) matches Some(m) ==> {
            let spelling = encode_utf8(joined(statement_fields(m)));
            &&& is_statement(m)
            &&& spelling.len() <= raw.len()
            &&& raw == spelling + zeros((raw.len() - spelling.len()) as nat)
        },
{
    if let Some(m) = lifecycle_memo(raw) {
        let bytes = unpadded(raw);
        let text = decode_utf8(bytes);
        let fields = fields_of(text);
        lemma_unpadded(raw);
        lemma_fields_join(text);
        lemma_spellings();
        decode_utf8_encode_utf8(bytes);
        if fields.len() == 5 {
            law_witness_round_trips(hex32(fields[4])->0);
        }
        if fields.len() >= 4 {
            assert(is_field(fields[3]));
            if fields[3].len() == 0 {
                assert(fields[3] =~= Seq::empty());
            }
        }
        assert(fields[1] == verb(m.action));
        assert(fields =~= statement_fields(m));
        if m.action != Action::Release && m.prev_rcm is None {
            assert(fields.len() == 4);
            assert(text.last() == fields.last().last());
            lemma_encoding_ends(text);
        }
    }
}

} // verus!
