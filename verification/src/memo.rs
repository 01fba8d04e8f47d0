//! The lifecycle memo grammar.
//!
//! ```text
//! ZNS:claim:<name>:<ua>[:<prev_rcm>]
//! ZNS:update:<name>:<ua>[:<prev_rcm>]
//! ZNS:release:<name>
//! ZNS:release:<name>::<prev_rcm>
//! ```
//!
//! `<prev_rcm>` is 64 lowercase hex digits, the witness for verifying a single
//! note. The grammar is strict: exact field counts, and names follow the
//! DNS-label rule. Memos are zero-padded; trailing zeros are stripped first.

use vstd::prelude::*;
use vstd::slice::slice_subrange;
use vstd::string::*;
use vstd::utf8::*;

use crate::kernel::{action_of, Action};
use crate::text::{as_array32, lemma_as_array32, text_eq};

pub mod laws;

verus! {

/// The longest name, in characters.
pub const MAX_NAME_LEN: usize = 63;

/// A parsed lifecycle memo.
pub struct LifecycleMemo {
    pub action: Action,
    pub name: String,
    /// Empty for a release.
    pub ua: String,
    /// The disclosed predecessor witness.
    pub prev_rcm: Option<[u8; 32]>,
}

#[verifier::ext_equal]
pub struct LifecycleView {
    pub action: Action,
    pub name: Seq<char>,
    pub ua: Seq<char>,
    pub prev_rcm: Option<[u8; 32]>,
}

impl View for LifecycleMemo {
    type V = LifecycleView;

    open spec fn view(&self) -> LifecycleView {
        LifecycleView {
            action: self.action,
            name: self.name@,
            ua: self.ua@,
            prev_rcm: self.prev_rcm,
        }
    }
}

/// A memo without its zero padding.
pub open spec fn unpadded(raw: Seq<u8>) -> Seq<u8>
    decreases raw.len(),
{
    if raw.len() > 0 && raw.last() == 0 {
        unpadded(raw.drop_last())
    } else {
        raw
    }
}

/// The text of a memo, where it is valid UTF-8.
pub open spec fn memo_text(raw: Seq<u8>) -> Option<Seq<char>> {
    if valid_utf8(unpadded(raw)) {
        Some(decode_utf8(unpadded(raw)))
    } else {
        None
    }
}

/// The fields of `text`, separated by colons.
pub open spec fn fields_of(text: Seq<char>) -> Seq<Seq<char>>
    decreases text.len(),
{
    if text.len() == 0 {
        seq![Seq::empty()]
    } else {
        let before = fields_of(text.drop_last());
        if text.last() == ':' {
            before.push(Seq::empty())
        } else {
            before.drop_last().push(before.last().push(text.last()))
        }
    }
}

pub open spec fn is_name_char(c: char) -> bool {
    'a' <= c <= 'z' || '0' <= c <= '9' || c == '-'
}

/// The DNS-label rule: 1 to 63 of `a-z`, `0-9` and `-`, no hyphen at either end.
pub open spec fn is_name(name: Seq<char>) -> bool {
    &&& 0 < name.len() <= MAX_NAME_LEN
    &&& forall|i: int| 0 <= i < name.len() ==> is_name_char(#[trigger] name[i])
    &&& name[0] != '-'
    &&& name.last() != '-'
}

/// The value of a lowercase hex digit.
pub open spec fn nibble(c: char) -> Option<u8> {
    if '0' <= c <= '9' {
        Some((c as u8 - '0' as u8) as u8)
    } else if 'a' <= c <= 'f' {
        Some((c as u8 - 'a' as u8 + 10) as u8)
    } else {
        None
    }
}

/// The 32 bytes that 64 lowercase hex digits spell.
pub open spec fn hex32(s: Seq<char>) -> Option<[u8; 32]> {
    if s.len() == 64 && forall|i: int| 0 <= i < 64 ==> nibble(#[trigger] s[i]) is Some {
        as_array32(Seq::new(32, |i: int| (16 * nibble(s[2 * i])->0 + nibble(s[2 * i + 1])->0) as u8))
    } else {
        None
    }
}

/// What a memo with these fields states.
pub open spec fn lifecycle_of(fields: Seq<Seq<char>>) -> Option<LifecycleView> {
    if !(3 <= fields.len() <= 5) || fields[0] != "ZNS"@ || !is_name(fields[2]) {
        None
    } else {
        let witness: Option<[u8; 32]> = if fields.len() == 5 {
            hex32(fields[4])
        } else {
            None
        };
        if fields.len() == 5 && witness is None {
            None
        } else {
            match action_of(fields[1]) {
                None => None,
                Some(Action::Release) => if fields.len() == 3 || (fields.len() == 5 && fields[3].len() == 0) {
                    Some(
                        LifecycleView {
                            action: Action::Release,
                            name: fields[2],
                            ua: Seq::empty(),
                            prev_rcm: witness,
                        },
                    )
                } else {
                    None
                },
                Some(action) => if fields.len() >= 4 && fields[3].len() > 0 {
                    Some(LifecycleView { action, name: fields[2], ua: fields[3], prev_rcm: witness })
                } else {
                    None
                },
            }
        }
    }
}

/// What a memo states, if it is a lifecycle memo.
pub open spec fn lifecycle_memo(raw: Seq<u8>) -> Option<LifecycleView> {
    match memo_text(raw) {
        Some(text) => lifecycle_of(fields_of(text)),
        None => None,
    }
}

/// Calls `std::str::from_utf8`. The contract claims that it accepts exactly the
/// valid UTF-8 byte strings, and gives the text they encode.
#[verifier::external_body]
fn utf8_text(bytes: &[u8]) -> (r: Option<&str>)
    ensures
        match r {
            Some(s) => valid_utf8(bytes@) && s@ == decode_utf8(bytes@),
            None => !valid_utf8(bytes@),
        },
{
    std::str::from_utf8(bytes).ok()
}

fn unpad(raw: &[u8]) -> (r: &[u8])
    ensures
        r@ == unpadded(raw@),
{
    let mut end: usize = raw.len();
    assert(raw@.take(end as int) =~= raw@);
    while end > 0 && raw[end - 1] == 0
        invariant
            end <= raw.len(),
            unpadded(raw@) == unpadded(raw@.take(end as int)),
        decreases end,
    {
        assert(raw@.take(end as int).drop_last() =~= raw@.take(end - 1));
        end -= 1;
    }
    assert(raw@.take(end as int) =~= raw@.subrange(0, end as int));
    slice_subrange(raw, 0, end)
}

/// The views of string slices.
spec fn texts(v: Seq<&str>) -> Seq<Seq<char>> {
    Seq::new(v.len(), |i: int| v[i]@)
}

fn split_fields<'a>(text: &'a str) -> (r: Vec<&'a str>)
    ensures
        texts(r@) == fields_of(text@),
{
    let n: usize = text.unicode_len();
    let mut out: Vec<&'a str> = Vec::new();
    let mut start: usize = 0;
    let mut i: usize = 0;
    proof {
        assert(text@.subrange(0, 0) =~= Seq::empty());
        assert(texts(out@).push(text@.subrange(0, 0)) =~= fields_of(text@.take(0)));
    }
    while i < n
        invariant
            n == text@.len(),
            start <= i <= n,
            texts(out@).push(text@.subrange(start as int, i as int)) == fields_of(text@.take(i as int)),
        decreases n - i,
    {
        let ghost done = texts(out@);
        let ghost open_field = text@.subrange(start as int, i as int);
        proof {
            assert(text@.take(i + 1).drop_last() =~= text@.take(i as int));
            assert(done.push(open_field).drop_last() =~= done);
        }
        if text.get_char(i) == ':' {
            let field = text.substring_char(start, i);
            out.push(field);
            start = i + 1;
            proof {
                assert(texts(out@) =~= done.push(open_field));
                assert(text@.subrange(i + 1, i + 1) =~= Seq::empty());
            }
        } else {
            assert(text@.subrange(start as int, i + 1) =~= open_field.push(text@[i as int]));
        }
        i += 1;
    }
    let ghost done = texts(out@);
    out.push(text.substring_char(start, n));
    proof {
        assert(texts(out@) =~= done.push(text@.subrange(start as int, n as int)));
        assert(text@.take(n as int) =~= text@);
    }
    out
}

pub fn is_valid_name(name: &str) -> (r: bool)
    ensures
        r == is_name(name@),
{
    let n: usize = name.unicode_len();
    if n == 0 || n > MAX_NAME_LEN {
        return false;
    }
    let mut i: usize = 0;
    while i < n
        invariant
            n == name@.len(),
            i <= n,
            forall|j: int| 0 <= j < i ==> is_name_char(#[trigger] name@[j]),
        decreases n - i,
    {
        let c: char = name.get_char(i);
        if !(('a' <= c && c <= 'z') || ('0' <= c && c <= '9') || c == '-') {
            assert(!is_name_char(name@[i as int]));
            return false;
        }
        i += 1;
    }
    name.get_char(0) != '-' && name.get_char(n - 1) != '-'
}

fn decode_nibble(c: char) -> (r: Option<u8>)
    ensures
        r == nibble(c),
        r matches Some(v) ==> v < 16,
{
    if '0' <= c && c <= '9' {
        Some(c as u8 - '0' as u8)
    } else if 'a' <= c && c <= 'f' {
        Some(c as u8 - 'a' as u8 + 10)
    } else {
        None
    }
}

fn decode_hex32(s: &str) -> (r: Option<[u8; 32]>)
    ensures
        r == hex32(s@),
{
    if s.unicode_len() != 64 {
        return None;
    }
    let mut out: [u8; 32] = [0u8; 32];
    let mut i: usize = 0;
    while i < 32
        invariant
            i <= 32,
            s@.len() == 64,
            forall|j: int| 0 <= j < 2 * i ==> nibble(#[trigger] s@[j]) is Some,
            forall|j: int|
                0 <= j < i ==> #[trigger] out@[j] == (16 * nibble(s@[2 * j])->0 + nibble(
                    s@[2 * j + 1],
                )->0) as u8,
        decreases 32 - i,
    {
        let high = decode_nibble(s.get_char(2 * i));
        let low = decode_nibble(s.get_char(2 * i + 1));
        match (high, low) {
            (Some(h), Some(l)) => {
                out[i] = 16 * h + l;
            },
            _ => {
                assert(nibble(s@[2 * i as int]) is None || nibble(s@[2 * i + 1]) is None);
                return None;
            },
        }
        i += 1;
    }
    proof {
        assert(out@ =~= Seq::new(
            32,
            |i: int| (16 * nibble(s@[2 * i])->0 + nibble(s@[2 * i + 1])->0) as u8,
        ));
        lemma_as_array32(out);
    }
    Some(out)
}

/// Reads a lifecycle memo out of its fields.
fn parse_fields(fields: &Vec<&str>) -> (r: Option<LifecycleMemo>)
    ensures
        match r {
            Some(m) => lifecycle_of(texts(fields@)) == Some(m@),
            None => lifecycle_of(texts(fields@)) is None,
        },
{
    let n: usize = fields.len();
    if n < 3 || n > 5 || !text_eq(fields[0], "ZNS") || !is_valid_name(fields[2]) {
        return None;
    }
    let witness: Option<[u8; 32]> = if n == 5 {
        decode_hex32(fields[4])
    } else {
        None
    };
    if n == 5 && witness.is_none() {
        return None;
    }
    match Action::from_text(fields[1]) {
        None => None,
        Some(Action::Release) => if n == 3 || (n == 5 && fields[3].unicode_len() == 0) {
            let ua = String::new();
            assert(ua@ =~= Seq::empty());
            Some(
                LifecycleMemo {
                    action: Action::Release,
                    name: fields[2].to_string(),
                    ua,
                    prev_rcm: witness,
                },
            )
        } else {
            None
        },
        Some(action) => if n >= 4 && fields[3].unicode_len() > 0 {
            Some(
                LifecycleMemo {
                    action,
                    name: fields[2].to_string(),
                    ua: fields[3].to_string(),
                    prev_rcm: witness,
                },
            )
        } else {
            None
        },
    }
}

/// Parses a memo; `None` where it is no lifecycle memo.
pub fn parse_memo(raw: &[u8]) -> (r: Option<LifecycleMemo>)
    ensures
        match r {
            Some(m) => lifecycle_memo(raw@) == Some(m@),
            None => lifecycle_memo(raw@) is None,
        },
{
    match utf8_text(unpad(raw)) {
        None => None,
        Some(text) => {
            let fields = split_fields(text);
            parse_fields(&fields)
        },
    }
}

/// Zero padding does not change what a memo states.
pub proof fn law_padding_is_ignored(raw: Seq<u8>)
    ensures
        lifecycle_memo(raw.push(0)) == lifecycle_memo(raw),
{
    assert(raw.push(0).drop_last() =~= raw);
}

/// A parsed memo names a valid name; a claim and an update carry an address, a
/// release none.
pub proof fn law_parsed_memo_is_well_formed(raw: Seq<u8>)
    ensures
        lifecycle_memo(raw) matches Some(m) ==> is_name(m.name) && (m.action == Action::Release
            <==> m.ua.len() == 0),
{
}

} // verus!
