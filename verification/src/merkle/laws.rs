//! The shape of the tree, and what a validator's answers spell.

use vstd::arithmetic::power2::{lemma_pow2_pos, lemma_pow2_unfold, pow2};
use vstd::prelude::*;

use super::{
    compact_size, header_of, is_white, listed_txid, listed_txids, node, padded, parents, raw_header,
    root_of, sha256_digest, trimmed, trimmed_end, ContextError,
};
use crate::encoding::{hex_bytes, hex_text, law_hex_round_trips, reversed};
use crate::kernel::le_value;
use crate::text::{lemma_array32_of, lemma_as_array32};

verus! {

/// Each node above is the double digest of the two below it, left then right; a
/// node with none to its right is paired with itself.
pub proof fn law_level_pairs_up(level: Seq<[u8; 32]>, i: int)
    requires
        0 <= 2 * i < level.len(),
    ensures
        parents(level).len() == (level.len() + 1) / 2,
        parents(level)[i] == sha256_digest(
            sha256_digest(
                level[2 * i]@ + (if 2 * i + 1 < level.len() {
                    level[2 * i + 1]
                } else {
                    level[2 * i]
                })@,
            )@,
        ),
{
}

/// One leaf is its own root; any more have the root of the level above them.
pub proof fn law_root_climbs(level: Seq<[u8; 32]>)
    requires
        level.len() > 0,
    ensures
        level.len() == 1 ==> root_of(level) == level[0],
        level.len() > 1 ==> root_of(level) == root_of(parents(level)),
        level.len() > 1 && level.len() % 2 == 1 ==> root_of(level) == root_of(level.push(level.last())),
{
    if level.len() > 1 && level.len() % 2 == 1 {
        let even = level.push(level.last());
        assert(padded(even) =~= padded(level));
        assert(parents(even) =~= parents(level));
    }
}

/// The root of two full trees of one size is the node above their roots.
pub proof fn law_root_of_two_halves(a: Seq<[u8; 32]>, b: Seq<[u8; 32]>, depth: nat)
    requires
        a.len() == pow2(depth),
        b.len() == pow2(depth),
    ensures
        root_of(a + b) == sha256_digest(sha256_digest(root_of(a)@ + root_of(b)@)@),
    decreases depth,
{
    lemma_pow2_pos(depth);
    let whole = a + b;
    if depth == 0 {
        vstd::arithmetic::power2::lemma2_to64();
        let up = parents(whole);
        assert(up.len() == 1 && up[0] == node(a[0], b[0]));
        assert(root_of(up) == up[0]);
    } else {
        lemma_pow2_unfold(depth);
        lemma_pow2_pos((depth - 1) as nat);
        assert(a.len() % 2 == 0 && b.len() % 2 == 0);
        assert(parents(whole) =~= parents(a) + parents(b)) by {
            let n = a.len() as int;
            assert(padded(whole) == whole && padded(a) == a && padded(b) == b);
            assert forall|i: int| 0 <= i < parents(whole).len() implies parents(whole)[i] == (parents(a)
                + parents(b))[i] by {
                if 2 * i < n {
                    assert(whole[2 * i] == a[2 * i] && whole[2 * i + 1] == a[2 * i + 1]);
                } else {
                    let j = i - n / 2;
                    assert(whole[2 * i] == b[2 * j] && whole[2 * i + 1] == b[2 * j + 1]);
                }
            }
        }
        law_root_of_two_halves(parents(a), parents(b), (depth - 1) as nat);
    }
}

// ── what is listed ──────────────────────────────────────────────────────────

/// A transaction's id, spelled in display order, is read back as it is.
pub proof fn law_displayed_txid_reads_back(txid: [u8; 32])
    ensures
        listed_txid(Some(hex_text(reversed(txid@)))) == Ok::<[u8; 32], ContextError>(txid),
{
    law_hex_round_trips(reversed(txid@));
    assert(reversed(reversed(txid@)) =~= txid@);
    lemma_as_array32(txid);
}

/// An entry of the list is read as 32 bytes, the last one spelled first; or it
/// fails: as no string, as no hexadecimal, or by its length.
pub proof fn law_listed_txid(entry: Option<Seq<char>>)
    ensures
        match listed_txid(entry) {
            Ok(txid) => entry is Some && (hex_bytes(entry->0) matches Some(b) && b.len() == 32 && forall|i: int|
                0 <= i < 32 ==> #[trigger] txid@[i] == b[31 - i]),
            Err(ContextError::NonStringTxid) => entry is None,
            Err(ContextError::TxidHex) => entry is Some && hex_bytes(entry->0) is None,
            Err(ContextError::TxidLength) => entry is Some && (hex_bytes(entry->0) matches Some(b) && b.len()
                != 32),
            Err(_) => false,
        },
{
    if let Some(text) = entry {
        if let Some(b) = hex_bytes(text) {
            lemma_array32_of(reversed(b));
        }
    }
}

/// A list is read entry by entry, in order, and fails as its first bad entry
/// does.
pub proof fn law_listed_txids(entries: Seq<Option<Seq<char>>>)
    ensures
        match listed_txids(entries) {
            Ok(v) => v.len() == entries.len() && forall|i: int|
                0 <= i < v.len() ==> listed_txid(entries[i]) == Ok::<[u8; 32], ContextError>(
                    #[trigger] v[i],
                ),
            Err(e) => exists|k: int|
                0 <= k < entries.len() && listed_txid(#[trigger] entries[k]) == Err::<
                    [u8; 32],
                    ContextError,
                >(e) && forall|i: int| 0 <= i < k ==> listed_txid(#[trigger] entries[i]) is Ok,
        },
    decreases entries.len(),
{
    if entries.len() > 0 {
        let init = entries.drop_last();
        let n = entries.len() - 1;
        law_listed_txids(init);
        assert forall|i: int| 0 <= i < n implies init[i] == #[trigger] entries[i] by {}
        match listed_txids(init) {
            Err(e) => {
                let k = choose|k: int|
                    0 <= k < init.len() && listed_txid(#[trigger] init[k]) == Err::<[u8; 32], ContextError>(e)
                        && forall|i: int| 0 <= i < k ==> listed_txid(#[trigger] init[i]) is Ok;
                assert(listed_txid(entries[k]) == Err::<[u8; 32], ContextError>(e));
                assert forall|i: int| 0 <= i < k implies listed_txid(#[trigger] entries[i]) is Ok by {
                    assert(listed_txid(init[i]) is Ok);
                }
            },
            Ok(v) => {
                assert forall|i: int| 0 <= i < n implies listed_txid(#[trigger] entries[i]) is Ok by {
                    assert(listed_txid(init[i]) == Ok::<[u8; 32], ContextError>(v[i]));
                }
                assert(entries[n] == entries.last());
                if listed_txid(entries.last()) is Ok {
                    let w = listed_txids(entries)->Ok_0;
                    assert forall|i: int| 0 <= i < w.len() implies listed_txid(entries[i]) == Ok::<
                        [u8; 32],
                        ContextError,
                    >(#[trigger] w[i]) by {
                        if i < n {
                            assert(w[i] == v[i]);
                            assert(listed_txid(init[i]) == Ok::<[u8; 32], ContextError>(v[i]));
                        }
                    }
                }
            },
        }
    }
}

// ── the raw block ───────────────────────────────────────────────────────────

/// Every character of `s` is white space.
pub open spec fn is_blank(s: Seq<char>) -> bool {
    forall|i: int| 0 <= i < s.len() ==> is_white(#[trigger] s[i])
}

proof fn lemma_trimmed_end(s: Seq<char>, after: Seq<char>)
    requires
        is_blank(after),
        s.len() > 0 ==> !is_white(s.last()),
    ensures
        trimmed_end(s + after) == s,
    decreases after.len(),
{
    let whole = s + after;
    if after.len() > 0 {
        assert(whole.last() == after[after.len() - 1]);
        assert(whole.drop_last() =~= s + after.drop_last());
        lemma_trimmed_end(s, after.drop_last());
    } else {
        assert(whole =~= s);
    }
}

/// White space around a text that has none at its ends is all that is trimmed.
pub proof fn law_trim_drops_white_space(before: Seq<char>, s: Seq<char>, after: Seq<char>)
    requires
        is_blank(before),
        is_blank(after),
        s.len() > 0 ==> !is_white(s[0]) && !is_white(s.last()),
    ensures
        trimmed(before + s + after) == s,
    decreases before.len(),
{
    let whole = before + s + after;
    if before.len() > 0 {
        assert(whole[0] == before[0]);
        assert(whole.skip(1) =~= before.skip(1) + s + after);
        law_trim_drops_white_space(before.skip(1), s, after);
    } else if s.len() > 0 {
        assert(whole =~= s + after);
        assert(whole[0] == s[0]);
        lemma_trimmed_end(s, after);
    } else {
        assert(s =~= Seq::empty());
        assert(whole =~= after);
        lemma_blank(after);
    }
}

proof fn lemma_blank(s: Seq<char>)
    requires
        is_blank(s),
    ensures
        trimmed(s) == Seq::<char>::empty(),
    decreases s.len(),
{
    if s.len() > 0 {
        assert(is_white(s[0]));
        assert forall|i: int| 0 <= i < s.skip(1).len() implies is_white(#[trigger] s.skip(1)[i]) by {
            assert(is_white(s[i + 1]));
        }
        lemma_blank(s.skip(1));
    } else {
        assert(s =~= Seq::empty());
        assert(trimmed_end(s) == s);
    }
}

/// The length prefix of a list of `n` bytes.
pub open spec fn size_bytes(n: nat) -> Seq<u8> {
    if n < 253 {
        seq![n as u8]
    } else if n < 0x1_0000 {
        seq![253u8, (n % 256) as u8, (n / 256) as u8]
    } else {
        seq![
            254u8,
            (n % 256) as u8,
            (n / 256 % 256) as u8,
            (n / 0x1_0000 % 256) as u8,
            (n / 0x100_0000) as u8,
        ]
    }
}

proof fn lemma_size(n: nat, rest: Seq<u8>)
    requires
        n <= 0x0200_0000,
    ensures
        compact_size(size_bytes(n) + rest) == Some((n, size_bytes(n).len())),
{
    let bytes = size_bytes(n) + rest;
    reveal_with_fuel(le_value, 5);
    if n < 253 {
        assert(bytes[0] == n);
    } else if n < 0x1_0000 {
        let v = bytes.subrange(1, 3);
        assert(v =~= seq![(n % 256) as u8, (n / 256) as u8]);
        assert(v.skip(1) =~= seq![(n / 256) as u8]);
        assert(v.skip(1).skip(1).len() == 0);
        assert(le_value(v) == n);
    } else {
        let v = bytes.subrange(1, 5);
        let b1 = (n / 256 % 256) as u8;
        let b2 = (n / 0x1_0000 % 256) as u8;
        let b3 = (n / 0x100_0000) as u8;
        assert(v =~= seq![(n % 256) as u8, b1, b2, b3]);
        assert(v.skip(1) =~= seq![b1, b2, b3]);
        assert(v.skip(1).skip(1) =~= seq![b2, b3]);
        assert(v.skip(1).skip(1).skip(1) =~= seq![b3]);
        assert(v.skip(1).skip(1).skip(1).skip(1).len() == 0);
        assert(le_value(v) == (n % 256) + 256 * ((n / 256 % 256) + 256 * ((n / 0x1_0000 % 256) + 256 * (n
            / 0x100_0000))));
        assert(le_value(v) == n);
    }
}

/// A block's header is its fixed fields, the length of the solution and the
/// solution, whatever follows; spelled in hex, white space around it, it is read
/// back.
pub proof fn law_header_reads_back(
    fields: Seq<u8>,
    solution: Seq<u8>,
    rest: Seq<u8>,
    before: Seq<char>,
    after: Seq<char>,
)
    requires
        fields.len() == 140,
        solution.len() <= 0x0200_0000,
        is_blank(before),
        is_blank(after),
    ensures
        ({
            let header = fields + size_bytes(solution.len()) + solution;
            &&& header_of(header + rest) == Some(header)
            &&& raw_header(before + hex_text(header + rest) + after) == Ok::<Seq<u8>, ContextError>(header)
        }),
{
    let n = solution.len();
    let size = size_bytes(n);
    let header = fields + size + solution;
    let raw = header + rest;
    lemma_size(n, solution + rest);
    assert(raw.skip(140) =~= size + (solution + rest));
    assert(raw.take((140 + size.len() + n) as int) =~= header);
    let text = hex_text(raw);
    law_hex_round_trips(raw);
    assert(!is_white(text[0]) && !is_white(text.last())) by {
        lemma_hex_is_not_white(raw[0] / 16);
        lemma_hex_is_not_white(raw[raw.len() - 1] % 16);
        let last = 2 * raw.len() - 1;
        assert(last % 2 == 1 && last / 2 == raw.len() - 1);
    }
    law_trim_drops_white_space(before, text, after);
}

proof fn lemma_hex_is_not_white(v: u8)
    requires
        v < 16,
    ensures
        !is_white(crate::encoding::hex_digit(v)),
{
}

/// A raw block that is not hexadecimal, white space aside, and one that does not
/// begin with a header, fail as such and not otherwise.
pub proof fn law_bad_raw_blocks_fail(text: Seq<char>)
    ensures
        match raw_header(text) {
            Ok(h) => hex_bytes(trimmed(text)) matches Some(raw) && header_of(raw) == Some(h),
            Err(ContextError::RawHex) => hex_bytes(trimmed(text)) is None,
            Err(ContextError::Header) => hex_bytes(trimmed(text)) matches Some(raw) && header_of(raw) is None,
            Err(_) => false,
        },
{
}

/// A block that ends within its fixed fields, or within the solution that its
/// length announces, has no header.
pub proof fn law_cut_headers_are_none(fields: Seq<u8>, n: nat, part: Seq<u8>)
    requires
        fields.len() == 140,
        part.len() < n <= 0x0200_0000,
    ensures
        header_of(fields + size_bytes(n) + part) is None,
        header_of(fields) is None,
        forall|k: int| 0 <= k < 140 ==> header_of(#[trigger] fields.take(k)) is None,
{
    let raw = fields + size_bytes(n) + part;
    lemma_size(n, part);
    assert(raw.skip(140) =~= size_bytes(n) + part);
    assert(fields.skip(140).len() == 0);
}

} // verus!
