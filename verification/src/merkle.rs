//! Proof material: Merkle branches and block contexts.
//!
//! The branch of a transaction is computed here and stored alongside the raw
//! transaction. The verifying fold climbs it back to the root.

use sha2::Digest;
use vstd::prelude::*;
use vstd::string::*;

use crate::encoding::{hex_bytes, hex_decode, reversed};
use crate::kernel::le_value;
use crate::text::{as_array32, copy_bytes, has_prefix, lemma_as_array32};

pub mod laws;

verus! {

/// One block's proof context: its raw header and every txid in Merkle-tree
/// (internal byte) order.
pub struct BlockContext {
    /// The raw serialized block header.
    pub header: Vec<u8>,
    /// All txids in the block, internal byte order, tree order.
    pub txids: Vec<[u8; 32]>,
}

// ── the Merkle tree ─────────────────────────────────────────────────────────

/// What `sha2::Sha256::digest` gives for `data`.
pub uninterp spec fn sha256_digest(data: Seq<u8>) -> [u8; 32];

/// Calls `sha2::Sha256::digest`. The contract claims that the digest is a
/// function of the data.
#[verifier::external_body]
fn sha256(data: &[u8]) -> (r: [u8; 32])
    ensures
        r == sha256_digest(data@),
{
    sha2::Sha256::digest(data).into()
}

/// A parent node: the double digest of its two children.
pub open spec fn node(left: [u8; 32], right: [u8; 32]) -> [u8; 32] {
    sha256_digest(sha256_digest(left@ + right@)@)
}

/// A level with an odd end duplicated.
pub open spec fn padded(level: Seq<[u8; 32]>) -> Seq<[u8; 32]> {
    if level.len() % 2 == 1 {
        level.push(level.last())
    } else {
        level
    }
}

/// The level above.
pub open spec fn parents(level: Seq<[u8; 32]>) -> Seq<[u8; 32]> {
    Seq::new(padded(level).len() / 2, |i: int| node(padded(level)[2 * i], padded(level)[2 * i + 1]))
}

/// The root of the tree over `level`.
pub open spec fn root_of(level: Seq<[u8; 32]>) -> [u8; 32]
    decreases level.len(),
{
    if level.len() <= 1 {
        level[0]
    } else {
        root_of(parents(level))
    }
}

/// The node beside position `index`.
pub open spec fn sibling(level: Seq<[u8; 32]>, index: int) -> [u8; 32] {
    if index % 2 == 1 {
        padded(level)[index - 1]
    } else {
        padded(level)[index + 1]
    }
}

/// The siblings on the way from the leaf at `index` to the root.
pub open spec fn branch_at(level: Seq<[u8; 32]>, index: int) -> Seq<[u8; 32]>
    decreases level.len(),
{
    if level.len() <= 1 {
        Seq::empty()
    } else {
        seq![sibling(level, index)] + branch_at(parents(level), index / 2)
    }
}

/// The node that a branch leads to from `leaf` at `index`.
pub open spec fn folded(leaf: [u8; 32], branch: Seq<[u8; 32]>, index: int) -> [u8; 32]
    decreases branch.len(),
{
    if branch.len() == 0 {
        leaf
    } else {
        let up = if index % 2 == 1 {
            node(branch[0], leaf)
        } else {
            node(leaf, branch[0])
        };
        folded(up, branch.skip(1), index / 2)
    }
}

/// Every leaf of every tree folds along its branch to the root.
pub proof fn law_branch_folds_to_root(level: Seq<[u8; 32]>, index: int)
    requires
        0 <= index < level.len(),
    ensures
        folded(level[index], branch_at(level, index), index) == root_of(level),
    decreases level.len(),
{
    if level.len() > 1 {
        let up = parents(level);
        let rest = branch_at(up, index / 2);
        let branch = branch_at(level, index);
        assert(branch.skip(1) =~= rest);
        assert(branch[0] == sibling(level, index));
        assert(up[index / 2] == (if index % 2 == 1 {
            node(branch[0], level[index])
        } else {
            node(level[index], branch[0])
        }));
        law_branch_folds_to_root(up, index / 2);
    }
}

fn sha256d(left: &[u8; 32], right: &[u8; 32]) -> (r: [u8; 32])
    ensures
        r == node(*left, *right),
{
    let mut joined: Vec<u8> = copy_bytes(left.as_slice());
    let mut i: usize = 0;
    assert(right@.take(0) =~= Seq::empty());
    while i < 32
        invariant
            i <= 32,
            joined@ == left@ + right@.take(i as int),
        decreases 32 - i,
    {
        joined.push(right[i]);
        i += 1;
        assert(joined@ =~= left@ + right@.take(i as int));
    }
    assert(right@.take(32) =~= right@);
    let first = sha256(joined.as_slice());
    sha256(first.as_slice())
}

fn copy_level(txids: &[[u8; 32]]) -> (r: Vec<[u8; 32]>)
    ensures
        r@ == txids@,
{
    let mut out: Vec<[u8; 32]> = Vec::new();
    let mut i: usize = 0;
    while i < txids.len()
        invariant
            i <= txids.len(),
            out@ == txids@.take(i as int),
        decreases txids.len() - i,
    {
        out.push(txids[i]);
        i += 1;
        assert(out@ =~= txids@.take(i as int));
    }
    assert(txids@.take(txids@.len() as int) =~= txids@);
    out
}

/// Duplicates an odd end.
fn pad_level(level: &mut Vec<[u8; 32]>)
    requires
        old(level).len() > 0,
    ensures
        final(level)@ == padded(old(level)@),
{
    if level.len() % 2 == 1 {
        let last = level[level.len() - 1];
        level.push(last);
    }
}

/// The level above a padded one.
fn pair_up(level: &Vec<[u8; 32]>, Ghost(below): Ghost<Seq<[u8; 32]>>) -> (r: Vec<[u8; 32]>)
    requires
        level@ == padded(below),
    ensures
        r@ == parents(below),
{
    let n: usize = level.len() / 2;
    let mut up: Vec<[u8; 32]> = Vec::new();
    let mut i: usize = 0;
    while i < n
        invariant
            i <= n,
            n == level.len() / 2,
            level@ == padded(below),
            up@ == parents(below).take(i as int),
        decreases n - i,
    {
        up.push(sha256d(&level[2 * i], &level[2 * i + 1]));
        i += 1;
        assert(up@ =~= parents(below).take(i as int));
    }
    assert(parents(below).take(n as int) =~= parents(below));
    up
}

/// Build the Merkle branch for the leaf at `index`: double-SHA256 pairs, odd
/// level-ends duplicated. Returns the siblings leaf to root; an empty branch
/// means a single-transaction block.
pub fn merkle_branch(txids: &[[u8; 32]], index: usize) -> (r: Vec<[u8; 32]>)
    requires
        index < txids.len(),
    ensures
        r@ == branch_at(txids@, index as int),
{
    let mut level: Vec<[u8; 32]> = copy_level(txids);
    let mut idx: usize = index;
    let mut branch: Vec<[u8; 32]> = Vec::new();
    assert(branch@ + branch_at(level@, idx as int) =~= branch_at(txids@, index as int));
    while level.len() > 1
        invariant
            idx < level.len(),
            branch@ + branch_at(level@, idx as int) == branch_at(txids@, index as int),
        decreases level.len(),
    {
        let ghost below = level@;
        let ghost before = branch@;
        pad_level(&mut level);
        let sibling = if idx % 2 == 1 {
            level[idx - 1]
        } else {
            level[idx + 1]
        };
        branch.push(sibling);
        level = pair_up(&level, Ghost(below));
        proof {
            assert(branch@ + branch_at(level@, idx as int / 2) =~= before + branch_at(
                below,
                idx as int,
            ));
        }
        idx = idx / 2;
    }
    assert(branch@ + branch_at(level@, idx as int) =~= branch@);
    branch
}

/// The Merkle root over a block's txids.
pub fn merkle_root(txids: &[[u8; 32]]) -> (r: [u8; 32])
    requires
        txids.len() > 0,
    ensures
        r == root_of(txids@),
{
    let mut level: Vec<[u8; 32]> = copy_level(txids);
    while level.len() > 1
        invariant
            level.len() > 0,
            root_of(level@) == root_of(txids@),
        decreases level.len(),
    {
        let ghost below = level@;
        pad_level(&mut level);
        level = pair_up(&level, Ghost(below));
    }
    level[0]
}

/// Climb `branch` from `leaf` at position `index`.
pub fn merkle_fold(leaf: [u8; 32], branch: &[[u8; 32]], index: u32) -> (r: [u8; 32])
    ensures
        r == folded(leaf, branch@, index as int),
{
    let mut at: [u8; 32] = leaf;
    let mut idx: u32 = index;
    let mut i: usize = 0;
    assert(branch@.skip(0) =~= branch@);
    while i < branch.len()
        invariant
            i <= branch.len(),
            folded(at, branch@.skip(i as int), idx as int) == folded(leaf, branch@, index as int),
        decreases branch.len() - i,
    {
        assert(branch@.skip(i as int).skip(1) =~= branch@.skip(i + 1));
        at = if idx % 2 == 1 {
            sha256d(&branch[i], &at)
        } else {
            sha256d(&at, &branch[i])
        };
        idx = idx / 2;
        i += 1;
    }
    at
}

// ── block contexts ──────────────────────────────────────────────────────────

/// Why a validator's answer is no block context.
#[derive(Clone, Copy, Debug, PartialEq, Eq, Structural)]
pub enum ContextError {
    /// The block has no transaction list.
    NoTxList,
    /// An entry of the list is not a string.
    NonStringTxid,
    /// An entry of the list is not hexadecimal.
    TxidHex,
    /// A txid does not have 32 bytes.
    TxidLength,
    /// The raw block is not hexadecimal.
    RawHex,
    /// The raw block does not begin with a header.
    Header,
}

/// A listed txid: hexadecimal in display order, reversed to internal order.
pub open spec fn listed_txid(entry: Option<Seq<char>>) -> Result<[u8; 32], ContextError> {
    match entry {
        None => Err(ContextError::NonStringTxid),
        Some(text) => match hex_bytes(text) {
            None => Err(ContextError::TxidHex),
            Some(bytes) => if bytes.len() != 32 {
                Err(ContextError::TxidLength)
            } else {
                Ok(as_array32(reversed(bytes))->0)
            },
        },
    }
}

/// The txids of a list, or its first failure.
pub open spec fn listed_txids(entries: Seq<Option<Seq<char>>>) -> Result<Seq<[u8; 32]>, ContextError>
    decreases entries.len(),
{
    if entries.len() == 0 {
        Ok(Seq::empty())
    } else {
        match listed_txids(entries.drop_last()) {
            Err(e) => Err(e),
            Ok(v) => match listed_txid(entries.last()) {
                Err(e) => Err(e),
                Ok(t) => Ok(v.push(t)),
            },
        }
    }
}

proof fn lemma_listed_fails(entries: Seq<Option<Seq<char>>>, k: int)
    requires
        0 <= k <= entries.len(),
        listed_txids(entries.take(k)) is Err,
    ensures
        listed_txids(entries) == listed_txids(entries.take(k)),
    decreases entries.len(),
{
    if k < entries.len() {
        assert(entries.drop_last().take(k) =~= entries.take(k));
        lemma_listed_fails(entries.drop_last(), k);
    } else {
        assert(entries.take(k) =~= entries);
    }
}

pub open spec fn text_view(s: Option<String>) -> Option<Seq<char>> {
    match s {
        Some(t) => Some(t@),
        None => None,
    }
}

/// A list of JSON entries by their text; an entry that is not a string has
/// none.
pub open spec fn entries_view(list: Seq<Option<String>>) -> Seq<Option<Seq<char>>> {
    Seq::new(list.len(), |i: int| text_view(list[i]))
}

fn parse_txid(entry: &Option<String>) -> (r: Result<[u8; 32], ContextError>)
    ensures
        r == listed_txid(text_view(*entry)),
{
    match entry {
        None => Err(ContextError::NonStringTxid),
        Some(text) => match hex_decode(text.as_str()) {
            None => Err(ContextError::TxidHex),
            Some(bytes) => {
                if bytes.len() != 32 {
                    return Err(ContextError::TxidLength);
                }
                let mut out: [u8; 32] = [0u8; 32];
                let mut i: usize = 0;
                while i < 32
                    invariant
                        i <= 32,
                        bytes.len() == 32,
                        forall|j: int| 0 <= j < i ==> out@[j] == bytes@[31 - j],
                    decreases 32 - i,
                {
                    out[i] = bytes[31 - i];
                    i += 1;
                }
                proof {
                    assert(out@ =~= reversed(bytes@));
                    lemma_as_array32(out);
                }
                Ok(out)
            },
        },
    }
}

/// The txids of a validator's transaction list.
pub fn parse_txids(list: &Option<Vec<Option<String>>>) -> (r: Result<Vec<[u8; 32]>, ContextError>)
    ensures
        match list {
            None => r == Err::<Vec<[u8; 32]>, ContextError>(ContextError::NoTxList),
            Some(entries) => match listed_txids(entries_view(entries@)) {
                Ok(v) => r matches Ok(out) && out@ == v,
                Err(e) => r == Err::<Vec<[u8; 32]>, ContextError>(e),
            },
        },
{
    match list {
        None => Err(ContextError::NoTxList),
        Some(entries) => {
            let ghost all = entries_view(entries@);
            let mut out: Vec<[u8; 32]> = Vec::new();
            let mut i: usize = 0;
            while i < entries.len()
                invariant
                    i <= entries.len(),
                    *list == Some(*entries),
                    all == entries_view(entries@),
                    listed_txids(all.take(i as int)) == Ok::<Seq<[u8; 32]>, ContextError>(out@),
                decreases entries.len() - i,
            {
                assert(all.take(i + 1).drop_last() =~= all.take(i as int));
                match parse_txid(&entries[i]) {
                    Ok(t) => {
                        out.push(t);
                    },
                    Err(e) => {
                        proof {
                            lemma_listed_fails(all, i + 1);
                        }
                        return Err(e);
                    },
                }
                i += 1;
            }
            assert(all.take(all.len() as int) =~= all);
            Ok(out)
        },
    }
}

/// The Unicode `White_Space` property.
pub open spec fn is_white(c: char) -> bool {
    let v = c as u32;
    ||| 0x9 <= v <= 0xd
    ||| v == 0x20
    ||| v == 0x85
    ||| v == 0xa0
    ||| v == 0x1680
    ||| 0x2000 <= v <= 0x200a
    ||| v == 0x2028
    ||| v == 0x2029
    ||| v == 0x202f
    ||| v == 0x205f
    ||| v == 0x3000
}

/// Without the white space at its end.
pub open spec fn trimmed_end(s: Seq<char>) -> Seq<char>
    decreases s.len(),
{
    if s.len() > 0 && is_white(s.last()) {
        trimmed_end(s.drop_last())
    } else {
        s
    }
}

/// Without the white space at either end.
pub open spec fn trimmed(s: Seq<char>) -> Seq<char>
    decreases s.len(),
{
    if s.len() > 0 && is_white(s[0]) {
        trimmed(s.skip(1))
    } else {
        trimmed_end(s)
    }
}

fn is_white_space(c: char) -> (r: bool)
    ensures
        r == is_white(c),
{
    let v: u32 = c as u32;
    (0x9 <= v && v <= 0xd) || v == 0x20 || v == 0x85 || v == 0xa0 || v == 0x1680 || (0x2000 <= v && v
        <= 0x200a) || v == 0x2028 || v == 0x2029 || v == 0x202f || v == 0x205f || v == 0x3000
}

pub fn trim(s: &str) -> (r: &str)
    ensures
        r@ == trimmed(s@),
{
    let n: usize = s.unicode_len();
    let mut lo: usize = 0;
    assert(s@.skip(0) =~= s@);
    while lo < n && is_white_space(s.get_char(lo))
        invariant
            n == s@.len(),
            lo <= n,
            trimmed(s@) == trimmed(s@.skip(lo as int)),
        decreases n - lo,
    {
        assert(s@.skip(lo as int).skip(1) =~= s@.skip(lo + 1));
        lo += 1;
    }
    let mut hi: usize = n;
    assert(s@.subrange(lo as int, n as int) =~= s@.skip(lo as int));
    while hi > lo && is_white_space(s.get_char(hi - 1))
        invariant
            n == s@.len(),
            lo <= hi <= n,
            trimmed(s@) == trimmed_end(s@.subrange(lo as int, hi as int)),
        decreases hi,
    {
        assert(s@.subrange(lo as int, hi as int).drop_last() =~= s@.subrange(lo as int, hi - 1));
        hi -= 1;
    }
    s.substring_char(lo, hi)
}

/// The longest list that a length prefix announces.
pub open spec fn max_compact_size() -> nat {
    0x0200_0000
}

/// The length prefix at the front of `bytes`, and how many bytes it takes: one
/// byte below 253, or a marker and 2 or 4 little-endian bytes. A longer form
/// than needed is none, nor is a length above the maximum.
pub open spec fn compact_size(bytes: Seq<u8>) -> Option<(nat, nat)> {
    if bytes.len() >= 1 && bytes[0] < 253 {
        Some((bytes[0] as nat, 1))
    } else if bytes.len() >= 3 && bytes[0] == 253 && le_value(bytes.subrange(1, 3)) >= 253 {
        Some((le_value(bytes.subrange(1, 3)), 3))
    } else if bytes.len() >= 5 && bytes[0] == 254 && 0x1_0000 <= le_value(bytes.subrange(1, 5))
        <= max_compact_size() {
        Some((le_value(bytes.subrange(1, 5)), 5))
    } else {
        None
    }
}

/// The header at the front of a raw block: 140 bytes of fixed fields, and the
/// solution with its length prefix.
pub open spec fn header_of(raw: Seq<u8>) -> Option<Seq<u8>> {
    if raw.len() < 140 {
        None
    } else {
        match compact_size(raw.skip(140)) {
            Some((n, k)) => if raw.len() >= 140 + k + n {
                Some(raw.take((140 + k + n) as int))
            } else {
                None
            },
            None => None,
        }
    }
}

/// Calls `zcash_primitives::block::BlockHeader::read` and `write`. The contract
/// claims that it reads 140 bytes of fixed fields, a length prefix in its
/// shortest form and that many bytes of solution, fails where they are not
/// there, and writes back the bytes it read.
#[verifier::external_body]
fn read_header(raw: &[u8]) -> (r: Option<Vec<u8>>)
    ensures
        match r {
            Some(h) => header_of(raw@) == Some(h@),
            None => header_of(raw@) is None,
        },
{
    let parsed = zcash_primitives::block::BlockHeader::read(raw).ok()?;
    let mut header = Vec::new();
    parsed.write(&mut header).ok()?;
    Some(header)
}

/// The header of a hex-encoded raw block.
pub open spec fn raw_header(raw_hex: Seq<char>) -> Result<Seq<u8>, ContextError> {
    match hex_bytes(trimmed(raw_hex)) {
        None => Err(ContextError::RawHex),
        Some(raw) => match header_of(raw) {
            None => Err(ContextError::Header),
            Some(h) => Ok(h),
        },
    }
}

/// The header of a hex-encoded raw block.
pub fn parse_header(raw_hex: &str) -> (r: Result<Vec<u8>, ContextError>)
    ensures
        match raw_header(raw_hex@) {
            Ok(h) => r matches Ok(v) && v@ == h,
            Err(e) => r == Err::<Vec<u8>, ContextError>(e),
        },
{
    match hex_decode(trim(raw_hex)) {
        None => Err(ContextError::RawHex),
        Some(raw) => match read_header(raw.as_slice()) {
            None => Err(ContextError::Header),
            Some(h) => Ok(h),
        },
    }
}

/// A header is the beginning of its block, and the header of itself: what comes
/// behind it does not matter.
pub proof fn law_header_is_a_prefix(raw: Seq<u8>)
    ensures
        header_of(raw) matches Some(h) ==> has_prefix(raw, h) && header_of(h) == Some(h),
{
    if let Some(h) = header_of(raw) {
        let a = raw.skip(140);
        let b = h.skip(140);
        let (n, k) = compact_size(a)->0;
        assert(forall|i: int| 0 <= i < b.len() ==> b[i] == a[i]);
        if k == 3 {
            assert(a.subrange(1, 3) =~= b.subrange(1, 3));
        }
        if k == 5 {
            assert(a.subrange(1, 5) =~= b.subrange(1, 5));
        }
        assert(h.take(h.len() as int) =~= h);
    }
}

impl BlockContext {
    /// The proof context in a validator's two answers about a block: its
    /// transaction list, and the raw block.
    pub fn from_answers(list: &Option<Vec<Option<String>>>, raw_hex: &str) -> (r: Result<
        BlockContext,
        ContextError,
    >)
        ensures
            match (list, raw_header(raw_hex@)) {
                (None, _) => r == Err::<BlockContext, ContextError>(ContextError::NoTxList),
                (Some(entries), header) => match listed_txids(entries_view(entries@)) {
                    Err(e) => r == Err::<BlockContext, ContextError>(e),
                    Ok(txids) => match header {
                        Err(e) => r == Err::<BlockContext, ContextError>(e),
                        Ok(h) => r matches Ok(c) && c.txids@ == txids && c.header@ == h,
                    },
                },
            },
    {
        let txids = match parse_txids(list) {
            Ok(t) => t,
            Err(e) => {
                return Err(e);
            },
        };
        match parse_header(raw_hex) {
            Ok(header) => Ok(BlockContext { header, txids }),
            Err(e) => Err(e),
        }
    }
}

} // verus!
