//! What a scan finds, and what is done with it.
//!
//! Per batch of blocks: trial-decrypt every action of the compact blocks (cheap,
//! no fetch) to find candidates; fetch each candidate's full transaction and
//! decrypt it, which authenticates the note and yields the memo; hand the notes
//! to the index. Fetching is the caller's; every decision between is here.

use orchard::keys::{FullViewingKey, Scope};
use vstd::prelude::*;
use vstd::string::*;
use zcash_keys::keys::{UnifiedFullViewingKey, UnifiedIncomingViewingKey};
use zcash_protocol::consensus::Network;
use zcash_protocol::local_consensus::LocalNetwork;

use crate::decrypt::{
    compact_recipient, received_note, try_compact, try_decrypt, CompactParts, Recovered,
};
use crate::index::{
    applied, forks_of, index_after_notes, with_material, ActionRow, Cursor, NameNote, NameNoteView,
    ProofRowView, Recorded, SqliteIndex,
};
use crate::log::views;
use crate::merkle::{
    branch_at, folded, law_branch_folds_to_root, merkle_branch, root_of, BlockContext,
};
use crate::net::Net;
use crate::order::{
    insert_by, is_order, is_sorted, lemma_insert_adds, lemma_insert_at, lemma_insert_sorted,
};
use crate::store::StoreError;
use crate::text::{as_array32, copy_bytes, eq32, to_array32};
use crate::verify::Fork;

pub mod laws;
pub mod recovery;

verus! {

// ── compact blocks ──────────────────────────────────────────────────────────

/// An action as a compact block carries it.
pub struct CompactAction {
    pub nullifier: Vec<u8>,
    pub cmx: Vec<u8>,
    pub ephemeral_key: Vec<u8>,
    pub ciphertext: Vec<u8>,
}

#[verifier::ext_equal]
pub struct CompactActionView {
    pub nullifier: Seq<u8>,
    pub cmx: Seq<u8>,
    pub ephemeral_key: Seq<u8>,
    pub ciphertext: Seq<u8>,
}

impl View for CompactAction {
    type V = CompactActionView;

    open spec fn view(&self) -> CompactActionView {
        CompactActionView {
            nullifier: self.nullifier@,
            cmx: self.cmx@,
            ephemeral_key: self.ephemeral_key@,
            ciphertext: self.ciphertext@,
        }
    }
}

/// A transaction as a compact block carries it.
pub struct CompactTx {
    pub txid: Vec<u8>,
    pub actions: Vec<CompactAction>,
}

#[verifier::ext_equal]
pub struct CompactTxView {
    pub txid: Seq<u8>,
    pub actions: Seq<CompactActionView>,
}

impl View for CompactTx {
    type V = CompactTxView;

    open spec fn view(&self) -> CompactTxView {
        CompactTxView { txid: self.txid@, actions: views(self.actions@) }
    }
}

/// A compact block.
pub struct CompactBlock {
    pub height: u64,
    pub hash: Vec<u8>,
    pub vtx: Vec<CompactTx>,
}

#[verifier::ext_equal]
pub struct CompactBlockView {
    pub height: u64,
    pub hash: Seq<u8>,
    pub vtx: Seq<CompactTxView>,
}

impl View for CompactBlock {
    type V = CompactBlockView;

    open spec fn view(&self) -> CompactBlockView {
        CompactBlockView { height: self.height, hash: self.hash@, vtx: views(self.vtx@) }
    }
}

/// The 52-byte array with the contents `b`.
pub open spec fn as_array52(b: Seq<u8>) -> Option<[u8; 52]> {
    if b.len() == 52 {
        Some(choose|a: [u8; 52]| #[trigger] a@ == b)
    } else {
        None
    }
}

/// A compact action whose fields have the right lengths.
pub open spec fn compact_parts(a: CompactActionView) -> Option<CompactParts> {
    match (
        as_array32(a.nullifier),
        as_array32(a.cmx),
        as_array32(a.ephemeral_key),
        as_array52(a.ciphertext),
    ) {
        (Some(nullifier), Some(cmx), Some(ephemeral_key), Some(ciphertext)) => Some(
            CompactParts { nullifier, cmx, ephemeral_key, ciphertext },
        ),
        _ => None,
    }
}

fn to_array52(b: &[u8]) -> (r: Option<[u8; 52]>)
    ensures
        r == as_array52(b@),
{
    if b.len() != 52 {
        return None;
    }
    let mut out: [u8; 52] = [0u8; 52];
    let mut i: usize = 0;
    while i < 52
        invariant
            i <= 52,
            b.len() == 52,
            forall|j: int| 0 <= j < i ==> out@[j] == b@[j],
        decreases 52 - i,
    {
        out[i] = b[i];
        i += 1;
    }
    proof {
        assert(out@ =~= b@);
        let c = choose|c: [u8; 52]| #[trigger] c@ == b@;
        assert(out@ == b@);
        assert(c =~= out);
    }
    Some(out)
}

/// Reads a compact action; `None` where a field has the wrong length.
pub fn parse_orchard(a: &CompactAction) -> (r: Option<CompactParts>)
    ensures
        r == compact_parts(a@),
{
    let nullifier = to_array32(a.nullifier.as_slice());
    let cmx = to_array32(a.cmx.as_slice());
    let ephemeral_key = to_array32(a.ephemeral_key.as_slice());
    let ciphertext = to_array52(a.ciphertext.as_slice());
    match (nullifier, cmx, ephemeral_key, ciphertext) {
        (Some(nullifier), Some(cmx), Some(ephemeral_key), Some(ciphertext)) => Some(
            CompactParts { nullifier, cmx, ephemeral_key, ciphertext },
        ),
        _ => None,
    }
}

/// A compact-block hit: which action in which transaction decrypted.
#[derive(Clone, Copy, Debug)]
pub struct Candidate {
    pub txid: [u8; 32],
    pub action_index: usize,
}

/// The hits among a transaction's first `n` actions, by the test `hits`.
pub open spec fn action_hits(
    txid: [u8; 32],
    actions: Seq<CompactActionView>,
    n: nat,
    hits: spec_fn(CompactParts) -> bool,
) -> Seq<Candidate>
    decreases n,
{
    if n == 0 {
        Seq::empty()
    } else {
        let before = action_hits(txid, actions, (n - 1) as nat, hits);
        match compact_parts(actions[n - 1]) {
            Some(parts) => if hits(parts) {
                before.push(Candidate { txid, action_index: (n - 1) as usize })
            } else {
                before
            },
            None => before,
        }
    }
}

/// The hits among a block's transactions; one whose txid is malformed has none.
pub open spec fn tx_hits(vtx: Seq<CompactTxView>, hits: spec_fn(CompactParts) -> bool) -> Seq<Candidate>
    decreases vtx.len(),
{
    if vtx.len() == 0 {
        Seq::empty()
    } else {
        let before = tx_hits(vtx.drop_last(), hits);
        let tx = vtx.last();
        match as_array32(tx.txid) {
            Some(txid) => before + action_hits(txid, tx.actions, tx.actions.len(), hits),
            None => before,
        }
    }
}

/// The hits among the blocks, in chain order: by height, transaction index and
/// action index.
pub open spec fn block_hits(blocks: Seq<CompactBlockView>, hits: spec_fn(CompactParts) -> bool) -> Seq<
    Candidate,
>
    decreases blocks.len(),
{
    if blocks.len() == 0 {
        Seq::empty()
    } else {
        block_hits(blocks.drop_last(), hits) + tx_hits(blocks.last().vtx, hits)
    }
}

/// Collects the hits of `test` among the blocks; `test` decides as `hits` says.
pub(crate) fn collect_hits<F: Fn(&CompactParts) -> bool>(
    blocks: &[CompactBlock],
    test: F,
    Ghost(hits): Ghost<spec_fn(CompactParts) -> bool>,
) -> (r: Vec<Candidate>)
    requires
        forall|p: &CompactParts| call_requires(test, (p,)),
        forall|p: &CompactParts, out: bool| #[trigger] call_ensures(test, (p,), out) ==> out == hits(*p),
    ensures
        r@ == block_hits(views(blocks@), hits),
{
    let ghost all = views(blocks@);
    let mut out: Vec<Candidate> = Vec::new();
    let mut b: usize = 0;
    while b < blocks.len()
        invariant
            b <= blocks.len(),
            all == views(blocks@),
            forall|p: &CompactParts| call_requires(test, (p,)),
            forall|p: &CompactParts, out: bool| #[trigger]
                call_ensures(test, (p,), out) ==> out == hits(*p),
            out@ == block_hits(all.take(b as int), hits),
        decreases blocks.len() - b,
    {
        let block = &blocks[b];
        let ghost done = out@;
        let ghost vtx = views(block.vtx@);
        let mut t: usize = 0;
        assert(done + tx_hits(vtx.take(0), hits) =~= done);
        while t < block.vtx.len()
            invariant
                t <= block.vtx.len(),
                vtx == views(block.vtx@),
                forall|p: &CompactParts| call_requires(test, (p,)),
                forall|p: &CompactParts, out: bool| #[trigger]
                    call_ensures(test, (p,), out) ==> out == hits(*p),
                out@ == done + tx_hits(vtx.take(t as int), hits),
            decreases block.vtx.len() - t,
        {
            let tx = &block.vtx[t];
            let ghost before = out@;
            let ghost actions = views(tx.actions@);
            proof {
                assert(vtx.take(t + 1).drop_last() =~= vtx.take(t as int));
                assert(vtx.take(t + 1).last() == tx@);
            }
            if let Some(txid) = to_array32(tx.txid.as_slice()) {
                let mut k: usize = 0;
                assert(before + action_hits(txid, actions, 0, hits) =~= before);
                while k < tx.actions.len()
                    invariant
                        k <= tx.actions.len(),
                        actions == views(tx.actions@),
                        forall|p: &CompactParts| call_requires(test, (p,)),
                        forall|p: &CompactParts, out: bool| #[trigger]
                            call_ensures(test, (p,), out) ==> out == hits(*p),
                        out@ == before + action_hits(txid, actions, k as nat, hits),
                    decreases tx.actions.len() - k,
                {
                    let ghost prior = action_hits(txid, actions, k as nat, hits);
                    if let Some(parts) = parse_orchard(&tx.actions[k]) {
                        if test(&parts) {
                            let c = Candidate { txid, action_index: k };
                            out.push(c);
                            assert(out@ =~= before + prior.push(c));
                        }
                    }
                    k += 1;
                }
                assert(out@ =~= done + tx_hits(vtx.take(t + 1), hits));
            }
            t += 1;
        }
        proof {
            assert(vtx.take(vtx.len() as int) =~= vtx);
            assert(all.take(b + 1).drop_last() =~= all.take(b as int));
            assert(all.take(b + 1).last() == block@);
        }
        b += 1;
    }
    assert(all.take(all.len() as int) =~= all);
    out
}

/// The incoming viewing key decrypts the action.
pub open spec fn ivk_hits(ivk: [u8; 64]) -> spec_fn(CompactParts) -> bool {
    |p: CompactParts| compact_recipient(ivk, p) is Some
}

/// Trial-decrypt every action in `blocks`, collecting those addressed to `ivk`.
/// The compact path carries no authentication tag, so these are candidates.
pub fn scan_name_notes(blocks: &[CompactBlock], ivk: &[u8; 64]) -> (r: Vec<Candidate>)
    ensures
        r@ == block_hits(views(blocks@), ivk_hits(*ivk)),
{
    let test = |p: &CompactParts| -> (out: bool)
        ensures
            out == ivk_hits(*ivk)(*p),
        { try_compact(ivk, p).is_some() };
    collect_hits(blocks, test, Ghost(ivk_hits(*ivk)))
}

/// The transactions the candidates are in, each once, by first occurrence.
pub open spec fn txids_of(candidates: Seq<Candidate>) -> Seq<[u8; 32]>
    decreases candidates.len(),
{
    if candidates.len() == 0 {
        Seq::empty()
    } else {
        let before = txids_of(candidates.drop_last());
        if before.contains(candidates.last().txid) {
            before
        } else {
            before.push(candidates.last().txid)
        }
    }
}

pub(crate) fn has_array(list: &[[u8; 32]], a: &[u8; 32]) -> (r: bool)
    ensures
        r == list@.contains(*a),
{
    let mut i: usize = 0;
    while i < list.len()
        invariant
            i <= list.len(),
            forall|j: int| 0 <= j < i ==> list@[j] != *a,
        decreases list.len() - i,
    {
        if eq32(&list[i], a) {
            return true;
        }
        i += 1;
    }
    false
}

/// What must be fetched for the candidates: each transaction once.
pub fn distinct_txids(candidates: &[Candidate]) -> (r: Vec<[u8; 32]>)
    ensures
        r@ == txids_of(candidates@),
{
    let mut out: Vec<[u8; 32]> = Vec::new();
    let mut i: usize = 0;
    while i < candidates.len()
        invariant
            i <= candidates.len(),
            out@ == txids_of(candidates@.take(i as int)),
        decreases candidates.len() - i,
    {
        assert(candidates@.take(i + 1).drop_last() =~= candidates@.take(i as int));
        if !has_array(out.as_slice(), &candidates[i].txid) {
            out.push(candidates[i].txid);
        }
        i += 1;
    }
    assert(candidates@.take(candidates@.len() as int) =~= candidates@);
    out
}

// ── recovering notes ────────────────────────────────────────────────────────

/// A fetched transaction.
pub struct FetchedTx {
    pub txid: [u8; 32],
    /// The height it was mined at.
    pub height: u32,
    pub data: Vec<u8>,
}

#[verifier::ext_equal]
pub struct FetchedView {
    pub txid: [u8; 32],
    pub height: u32,
    pub data: Seq<u8>,
}

impl View for FetchedTx {
    type V = FetchedView;

    open spec fn view(&self) -> FetchedView {
        FetchedView { txid: self.txid, height: self.height, data: self.data@ }
    }
}

/// The fetched transaction `txid`.
pub open spec fn fetched_tx(fetched: Seq<FetchedView>, txid: [u8; 32]) -> Option<FetchedView>
    decreases fetched.len(),
{
    if fetched.len() == 0 {
        None
    } else if fetched[0].txid == txid {
        Some(fetched[0])
    } else {
        fetched_tx(fetched.skip(1), txid)
    }
}

pub(crate) fn find_fetched<'a>(fetched: &'a [FetchedTx], txid: &[u8; 32]) -> (r: Option<&'a FetchedTx>)
    ensures
        match r {
            Some(tx) => fetched_tx(views(fetched@), *txid) == Some(tx@),
            None => fetched_tx(views(fetched@), *txid) is None,
        },
{
    let ghost all = views(fetched@);
    let mut i: usize = 0;
    assert(all.skip(0) =~= all);
    while i < fetched.len()
        invariant
            i <= fetched.len(),
            all == views(fetched@),
            fetched_tx(all, *txid) == fetched_tx(all.skip(i as int), *txid),
        decreases fetched.len() - i,
    {
        assert(all.skip(i as int).skip(1) =~= all.skip(i + 1));
        assert(all.skip(i as int)[0] == fetched@[i as int]@);
        if eq32(&fetched[i].txid, txid) {
            return Some(&fetched[i]);
        }
        i += 1;
    }
    None
}

/// The note of one candidate, where its transaction was fetched and its full
/// ciphertext decrypts.
pub open spec fn recovered_note(
    net: Net,
    ivk: [u8; 64],
    fetched: Seq<FetchedView>,
    c: Candidate,
) -> Option<NameNoteView> {
    match fetched_tx(fetched, c.txid) {
        None => None,
        Some(tx) => match received_note(ivk, tx.data, net.branch(tx.height), c.action_index) {
            None => None,
            Some(r) => Some(
                NameNoteView {
                    note: r.note,
                    cmx: r.cmx,
                    memo: r.memo@,
                    txid: c.txid,
                    height: tx.height,
                    action_index: c.action_index,
                    tx_bytes: tx.data,
                },
            ),
        },
    }
}

/// The notes of the candidates, in their order.
pub open spec fn recovered_notes(
    net: Net,
    ivk: [u8; 64],
    fetched: Seq<FetchedView>,
    candidates: Seq<Candidate>,
) -> Seq<NameNoteView>
    decreases candidates.len(),
{
    if candidates.len() == 0 {
        Seq::empty()
    } else {
        let before = recovered_notes(net, ivk, fetched, candidates.drop_last());
        match recovered_note(net, ivk, fetched, candidates.last()) {
            Some(n) => before.push(n),
            None => before,
        }
    }
}

/// Decrypt each candidate in its full transaction, recovering the authenticated
/// note and memo. Candidates whose full ciphertext fails are dropped. Notes come
/// back in the order of `candidates`, which is chain order: applying them in
/// another order would drop a same-batch update that follows its claim.
pub fn recover_notes(net: Net, ivk: &[u8; 64], fetched: &[FetchedTx], candidates: &[Candidate]) -> (r: Vec<
    NameNote,
>)
    ensures
        views(r@) == recovered_notes(net, *ivk, views(fetched@), candidates@),
{
    let ghost txs = views(fetched@);
    let mut out: Vec<NameNote> = Vec::new();
    let mut i: usize = 0;
    assert(views(out@) =~= Seq::empty());
    while i < candidates.len()
        invariant
            i <= candidates.len(),
            txs == views(fetched@),
            views(out@) == recovered_notes(net, *ivk, txs, candidates@.take(i as int)),
        decreases candidates.len() - i,
    {
        let c = candidates[i];
        assert(candidates@.take(i + 1).drop_last() =~= candidates@.take(i as int));
        if let Some(tx) = find_fetched(fetched, &c.txid) {
            if let Some(found) = try_decrypt(
                ivk,
                tx.data.as_slice(),
                net.branch_id(tx.height),
                c.action_index,
            ) {
                let n = NameNote {
                    note: found.note,
                    cmx: found.cmx,
                    memo: copy_bytes(found.memo.as_slice()),
                    txid: c.txid,
                    height: tx.height,
                    action_index: c.action_index,
                    tx_bytes: copy_bytes(tx.data.as_slice()),
                };
                let ghost before = views(out@);
                out.push(n);
                assert(views(out@) =~= before.push(n@));
            }
        }
        i += 1;
    }
    assert(candidates@.take(candidates@.len() as int) =~= candidates@);
    out
}

/// Recovered notes keep the order of their candidates: those of one batch
/// followed by another's are the notes of the one followed by the other's.
pub proof fn law_recovery_keeps_order(
    net: Net,
    ivk: [u8; 64],
    fetched: Seq<FetchedView>,
    first: Seq<Candidate>,
    second: Seq<Candidate>,
)
    ensures
        recovered_notes(net, ivk, fetched, first + second) == recovered_notes(net, ivk, fetched, first)
            + recovered_notes(net, ivk, fetched, second),
    decreases second.len(),
{
    if second.len() == 0 {
        assert(first + second =~= first);
        assert(recovered_notes(net, ivk, fetched, first) + Seq::<NameNoteView>::empty()
            =~= recovered_notes(net, ivk, fetched, first));
    } else {
        law_recovery_keeps_order(net, ivk, fetched, first, second.drop_last());
        assert((first + second).drop_last() =~= first + second.drop_last());
        assert((first + second).last() == second.last());
        let a = recovered_notes(net, ivk, fetched, first);
        let b = recovered_notes(net, ivk, fetched, second.drop_last());
        if let Some(n) = recovered_note(net, ivk, fetched, second.last()) {
            assert((a + b).push(n) =~= a + b.push(n));
        }
    }
}

// ── the registry's key ──────────────────────────────────────────────────────

/// The Orchard full viewing key in a unified full viewing key's encoding, as
/// `zcash_keys` decodes it for the network.
pub uninterp spec fn ufvk_fvk(net: Net, encoding: Seq<char>) -> Option<[u8; 96]>;

/// The external incoming viewing key that `orchard` derives from a full viewing
/// key; `None` where the bytes are no key.
pub uninterp spec fn fvk_ivk(fvk: [u8; 96]) -> Option<[u8; 64]>;

/// The Orchard incoming viewing key in a unified incoming viewing key's
/// encoding, as `zcash_keys` decodes it for the network.
pub uninterp spec fn uivk_ivk(net: Net, encoding: Seq<char>) -> Option<[u8; 64]>;

/// Calls `zcash_keys::keys::UnifiedFullViewingKey::decode`. The contract claims
/// that the key, or its absence, is a function of the network and the encoding.
#[verifier::external_body]
fn decode_ufvk(net: Net, encoding: &str) -> (r: Option<[u8; 96]>)
    ensures
        r == ufvk_fvk(net, encoding@),
{
    let key = match net {
        Net::Main => UnifiedFullViewingKey::decode(&Network::MainNetwork, encoding),
        Net::Test => UnifiedFullViewingKey::decode(&Network::TestNetwork, encoding),
        Net::Regtest => UnifiedFullViewingKey::decode(&LocalNetwork {
            overwinter: None, sapling: None, blossom: None, heartwood: None, canopy: None, nu5: None,
            nu6: None, nu6_1: None, nu6_2: None, nu6_3: None, nu7: None,
        }, encoding),
    };
    Some(key.ok()?.orchard()?.to_bytes())
}

/// Calls `orchard::keys::FullViewingKey::to_ivk` for the external scope. The
/// contract claims that the derived key is a function of the full viewing key's
/// bytes, and that bytes which are no key give none.
#[verifier::external_body]
fn external_ivk(fvk: &[u8; 96]) -> (r: Option<[u8; 64]>)
    ensures
        r == fvk_ivk(*fvk),
{
    Some(FullViewingKey::from_bytes(fvk)?.to_ivk(Scope::External).to_bytes())
}

/// Calls `zcash_keys::keys::UnifiedIncomingViewingKey::decode`. The contract
/// claims that the key, or its absence, is a function of the network and the
/// encoding.
#[verifier::external_body]
fn decode_uivk(net: Net, encoding: &str) -> (r: Option<[u8; 64]>)
    ensures
        r == uivk_ivk(net, encoding@),
{
    let key = match net {
        Net::Main => UnifiedIncomingViewingKey::decode(&Network::MainNetwork, encoding),
        Net::Test => UnifiedIncomingViewingKey::decode(&Network::TestNetwork, encoding),
        Net::Regtest => UnifiedIncomingViewingKey::decode(&LocalNetwork {
            overwinter: None, sapling: None, blossom: None, heartwood: None, canopy: None, nu5: None,
            nu6: None, nu6_1: None, nu6_2: None, nu6_3: None, nu7: None,
        }, encoding),
    };
    Some(key.ok()?.orchard().as_ref()?.to_bytes())
}

/// No Orchard incoming viewing key is in the provided key.
#[derive(Clone, Copy, Debug, PartialEq, Eq, Structural)]
pub struct NoOrchardKey;

/// The key to scan with: out of a full viewing key, or else out of an incoming
/// one.
pub open spec fn scan_key(full: Option<[u8; 64]>, incoming: Option<[u8; 64]>) -> Result<
    [u8; 64],
    NoOrchardKey,
> {
    match full {
        Some(k) => Ok(k),
        None => match incoming {
            Some(k) => Ok(k),
            None => Err(NoOrchardKey),
        },
    }
}

pub fn choose_key(full: Option<[u8; 64]>, incoming: Option<[u8; 64]>) -> (r: Result<[u8; 64], NoOrchardKey>)
    ensures
        r == scan_key(full, incoming),
{
    match full {
        Some(k) => Ok(k),
        None => match incoming {
            Some(k) => Ok(k),
            None => Err(NoOrchardKey),
        },
    }
}

/// The incoming viewing key in a unified full viewing key's encoding.
pub open spec fn ufvk_ivk(net: Net, encoding: Seq<char>) -> Option<[u8; 64]> {
    match ufvk_fvk(net, encoding) {
        Some(fvk) => fvk_ivk(fvk),
        None => None,
    }
}

/// Derive the external Orchard incoming viewing key from a unified viewing key
/// encoding. Name notes are encrypted to this key.
pub fn orchard_ivk(net: Net, encoding: &str) -> (r: Result<[u8; 64], NoOrchardKey>)
    ensures
        r == scan_key(ufvk_ivk(net, encoding@), uivk_ivk(net, encoding@)),
{
    let full = match decode_ufvk(net, encoding) {
        Some(fvk) => external_ivk(&fvk),
        None => None,
    };
    choose_key(full, decode_uivk(net, encoding))
}

/// The Orchard full viewing key in a unified full viewing key's encoding. An
/// incoming viewing key is not enough to prove a self-send.
pub fn orchard_fvk(net: Net, encoding: &str) -> (r: Result<[u8; 96], NoOrchardKey>)
    ensures
        r == (match ufvk_fvk(net, encoding@) {
            Some(fvk) => Ok::<[u8; 96], NoOrchardKey>(fvk),
            None => Err(NoOrchardKey),
        }),
{
    match decode_ufvk(net, encoding) {
        Some(fvk) => Ok(fvk),
        None => Err(NoOrchardKey),
    }
}

// ── proof material ──────────────────────────────────────────────────────────

pub open spec fn height_order() -> spec_fn(u32, u32) -> bool {
    |a: u32, b: u32| a <= b
}

/// The heights of the recorded actions, ascending, each once.
pub open spec fn heights_of(recorded: Seq<Recorded>) -> Seq<u32>
    decreases recorded.len(),
{
    if recorded.len() == 0 {
        Seq::empty()
    } else {
        let before = heights_of(recorded.drop_last());
        if before.contains(recorded.last().height) {
            before
        } else {
            insert_by(before, recorded.last().height, height_order())
        }
    }
}

/// Each block that has a recorded action is visited once, in chain order.
pub proof fn law_heights_ascend(recorded: Seq<Recorded>)
    ensures
        is_sorted(heights_of(recorded), height_order()),
        heights_of(recorded).no_duplicates(),
        forall|h: u32| #[trigger]
            heights_of(recorded).contains(h) <==> exists|i: int|
                0 <= i < recorded.len() && (#[trigger] recorded[i]).height == h,
    decreases recorded.len(),
{
    if recorded.len() > 0 {
        let init = recorded.drop_last();
        let before = heights_of(init);
        let x = recorded.last().height;
        let after = heights_of(recorded);
        law_heights_ascend(init);
        assert(recorded.last() == recorded[recorded.len() - 1]);
        assert(is_order(height_order()));
        if !before.contains(x) {
            lemma_insert_sorted(before, x, height_order());
            lemma_insert_adds(before, x, height_order());
            lemma_insert_members(before, x, height_order());
        }
        assert forall|h: u32| #[trigger] after.contains(h) <==> exists|i: int|
            0 <= i < recorded.len() && (#[trigger] recorded[i]).height == h by {
            assert(before.contains(h) <==> exists|i: int|
                0 <= i < init.len() && (#[trigger] init[i]).height == h);
            if before.contains(h) {
                let i = choose|i: int| 0 <= i < init.len() && (#[trigger] init[i]).height == h;
                assert(recorded[i].height == h);
            }
            if exists|i: int| 0 <= i < recorded.len() && (#[trigger] recorded[i]).height == h {
                let i = choose|i: int| 0 <= i < recorded.len() && (#[trigger] recorded[i]).height == h;
                if i < init.len() {
                    assert(init[i].height == h);
                }
            }
            if h == x {
                assert(recorded[recorded.len() - 1].height == h);
            }
        }
    }
}

proof fn lemma_insert_members(s: Seq<u32>, x: u32, le: spec_fn(u32, u32) -> bool)
    requires
        s.no_duplicates(),
        !s.contains(x),
    ensures
        insert_by(s, x, le).no_duplicates(),
        forall|h: u32| #[trigger] insert_by(s, x, le).contains(h) <==> s.contains(h) || h == x,
    decreases s.len(),
{
    let r = insert_by(s, x, le);
    if s.len() == 0 || le(s.last(), x) {
        assert forall|h: u32| #[trigger] r.contains(h) <==> s.contains(h) || h == x by {
            if s.contains(h) {
                let i = choose|i: int| 0 <= i < s.len() && s[i] == h;
                assert(r[i] == h);
            }
            assert(r[s.len() as int] == x);
        }
    } else {
        let t = s.drop_last();
        assert forall|h: u32| #[trigger] s.contains(h) <==> t.contains(h) || h == s.last() by {
            if s.contains(h) {
                let i = choose|i: int| 0 <= i < s.len() && s[i] == h;
                if i < t.len() {
                    assert(t[i] == h);
                }
            }
            if t.contains(h) {
                let i = choose|i: int| 0 <= i < t.len() && t[i] == h;
                assert(s[i] == h);
            }
            assert(s[s.len() - 1] == s.last());
        }
        assert(!t.contains(s.last())) by {
            if t.contains(s.last()) {
                let i = choose|i: int| 0 <= i < t.len() && t[i] == s.last();
                assert(s[i] == s[s.len() - 1]);
            }
        }
        lemma_insert_members(t, x, le);
        let q = insert_by(t, x, le);
        assert(!q.contains(s.last()));
        assert forall|h: u32| #[trigger] r.contains(h) <==> s.contains(h) || h == x by {
            if q.contains(h) {
                let i = choose|i: int| 0 <= i < q.len() && q[i] == h;
                assert(r[i] == h);
            }
            assert(r[q.len() as int] == s.last());
            if r.contains(h) {
                let i = choose|i: int| 0 <= i < r.len() && r[i] == h;
                if i < q.len() {
                    assert(q[i] == h);
                }
            }
        }
        assert forall|i: int, j: int| 0 <= i < r.len() && 0 <= j < r.len() && i != j implies r[i] != r[j] by {
            if i < q.len() && j < q.len() {
                assert(q[i] != q[j]);
            } else if i < q.len() {
                assert(q.contains(q[i]));
            } else {
                assert(q.contains(q[j]));
            }
        }
    }
}

/// The blocks whose context is needed: one visit per distinct height.
pub fn proof_heights(recorded: &[Recorded]) -> (r: Vec<u32>)
    ensures
        r@ == heights_of(recorded@),
{
    let mut out: Vec<u32> = Vec::new();
    let mut i: usize = 0;
    while i < recorded.len()
        invariant
            i <= recorded.len(),
            out@ == heights_of(recorded@.take(i as int)),
        decreases recorded.len() - i,
    {
        assert(recorded@.take(i + 1).drop_last() =~= recorded@.take(i as int));
        let h: u32 = recorded[i].height;
        let mut known = false;
        let mut k: usize = 0;
        while k < out.len()
            invariant
                k <= out.len(),
                known == (exists|j: int| 0 <= j < k && out@[j] == h),
            decreases out.len() - k,
        {
            if out[k] == h {
                known = true;
                assert(out@[k as int] == h);
            }
            k += 1;
        }
        assert(known == out@.contains(h));
        if !known {
            let mut p: usize = out.len();
            while p > 0 && !(out[p - 1] <= h)
                invariant
                    p <= out.len(),
                    forall|j: int| p <= j < out.len() ==> !height_order()(#[trigger] out@[j], h),
                decreases p,
            {
                p -= 1;
            }
            proof {
                lemma_insert_at(out@, h, height_order(), p as int);
            }
            out.insert(p, h);
        }
        i += 1;
    }
    assert(recorded@.take(recorded@.len() as int) =~= recorded@);
    out
}

/// Where a transaction stands in a block.
pub open spec fn position_of(txids: Seq<[u8; 32]>, txid: [u8; 32]) -> Option<int>
    decreases txids.len(),
{
    if txids.len() == 0 {
        None
    } else {
        match position_of(txids.drop_last(), txid) {
            Some(i) => Some(i),
            None => if txids.last() == txid {
                Some(txids.len() - 1)
            } else {
                None
            },
        }
    }
}

/// The raw transaction of the first note of `txid`.
pub open spec fn note_bytes(notes: Seq<NameNoteView>, txid: [u8; 32]) -> Option<Seq<u8>>
    decreases notes.len(),
{
    if notes.len() == 0 {
        None
    } else if notes[0].txid == txid {
        Some(notes[0].tx_bytes)
    } else {
        note_bytes(notes.skip(1), txid)
    }
}

/// A recorded action came from a note.
pub open spec fn has_note(notes: Seq<NameNoteView>, txid: [u8; 32]) -> bool {
    note_bytes(notes, txid) is Some
}

/// The proof material after a block's recorded actions, and the first
/// transaction that the block does not contain. What comes before it is stored.
pub open spec fn materialized(
    rows: Seq<ProofRowView>,
    notes: Seq<NameNoteView>,
    header: Seq<u8>,
    txids: Seq<[u8; 32]>,
    height: u32,
    recorded: Seq<Recorded>,
) -> (Seq<ProofRowView>, Option<[u8; 32]>)
    decreases recorded.len(),
{
    if recorded.len() == 0 {
        (rows, None)
    } else {
        let before = materialized(rows, notes, header, txids, height, recorded.drop_last());
        let r = recorded.last();
        if before.1 is Some || r.height != height {
            before
        } else {
            match position_of(txids, r.txid) {
                None => (before.0, Some(r.txid)),
                Some(pos) => (
                    with_material(
                        before.0,
                        r.txid,
                        height,
                        note_bytes(notes, r.txid)->0,
                        header,
                        branch_at(txids, pos),
                        pos as u32,
                    ),
                    None,
                ),
            }
        }
    }
}

proof fn lemma_materialized_fails(
    rows: Seq<ProofRowView>,
    notes: Seq<NameNoteView>,
    header: Seq<u8>,
    txids: Seq<[u8; 32]>,
    height: u32,
    recorded: Seq<Recorded>,
    k: int,
)
    requires
        0 <= k <= recorded.len(),
        materialized(rows, notes, header, txids, height, recorded.take(k)).1 is Some,
    ensures
        materialized(rows, notes, header, txids, height, recorded) == materialized(
            rows,
            notes,
            header,
            txids,
            height,
            recorded.take(k),
        ),
    decreases recorded.len(),
{
    if k < recorded.len() {
        assert(recorded.drop_last().take(k) =~= recorded.take(k));
        lemma_materialized_fails(rows, notes, header, txids, height, recorded.drop_last(), k);
    } else {
        assert(recorded.take(k) =~= recorded);
    }
}

pub fn find_position(txids: &[[u8; 32]], txid: &[u8; 32]) -> (r: Option<usize>)
    ensures
        match r {
            Some(i) => position_of(txids@, *txid) == Some(i as int) && i < txids.len(),
            None => position_of(txids@, *txid) is None,
        },
{
    let mut i: usize = 0;
    while i < txids.len()
        invariant
            i <= txids.len(),
            position_of(txids@.take(i as int), *txid) is None,
        decreases txids.len() - i,
    {
        assert(txids@.take(i + 1).drop_last() =~= txids@.take(i as int));
        if eq32(&txids[i], txid) {
            proof {
                lemma_position_stays(txids@, i + 1, *txid);
            }
            return Some(i);
        }
        i += 1;
    }
    assert(txids@.take(txids@.len() as int) =~= txids@);
    None
}

proof fn lemma_position_stays(txids: Seq<[u8; 32]>, k: int, txid: [u8; 32])
    requires
        0 <= k <= txids.len(),
        position_of(txids.take(k), txid) is Some,
    ensures
        position_of(txids, txid) == position_of(txids.take(k), txid),
    decreases txids.len(),
{
    if k < txids.len() {
        assert(txids.drop_last().take(k) =~= txids.take(k));
        lemma_position_stays(txids.drop_last(), k, txid);
    } else {
        assert(txids.take(k) =~= txids);
    }
}

fn find_note<'a>(notes: &'a [NameNote], txid: &[u8; 32]) -> (r: Option<&'a NameNote>)
    ensures
        match r {
            Some(n) => note_bytes(views(notes@), *txid) == Some(n.tx_bytes@),
            None => note_bytes(views(notes@), *txid) is None,
        },
{
    let ghost all = views(notes@);
    let mut i: usize = 0;
    assert(all.skip(0) =~= all);
    while i < notes.len()
        invariant
            i <= notes.len(),
            all == views(notes@),
            note_bytes(all, *txid) == note_bytes(all.skip(i as int), *txid),
        decreases notes.len() - i,
    {
        assert(all.skip(i as int).skip(1) =~= all.skip(i + 1));
        assert(all.skip(i as int)[0] == notes@[i as int]@);
        if eq32(&notes[i].txid, txid) {
            return Some(&notes[i]);
        }
        i += 1;
    }
    None
}

/// The validator's block does not contain the transaction of a recorded action.
#[derive(Clone, Copy, Debug)]
pub struct MissingTx {
    pub height: u32,
    pub txid: [u8; 32],
}

/// Store the proof context of every action recorded at `height`: the block's
/// header and each transaction's Merkle branch. What is stored already stays.
pub fn materialize_block(
    index: &mut SqliteIndex,
    notes: &[NameNote],
    context: &BlockContext,
    height: u32,
    recorded: &[Recorded],
) -> (r: Result<(), MissingTx>)
    requires
        forall|i: int| 0 <= i < recorded.len() ==> has_note(views(notes@), (#[trigger] recorded@[i]).txid),
    ensures
        final(index).actions == old(index).actions,
        final(index).sync_state == old(index).sync_state,
        ({
            let done = materialized(
                old(index)@.proof_material,
                views(notes@),
                context.header@,
                context.txids@,
                height,
                recorded@,
            );
            &&& final(index)@.proof_material == done.0
            &&& match done.1 {
                None => r is Ok,
                Some(txid) => r matches Err(e) && e.height == height && e.txid == txid,
            }
        }),
{
    let ghost rows = index@.proof_material;
    let ghost all = views(notes@);
    let mut i: usize = 0;
    while i < recorded.len()
        invariant
            i <= recorded.len(),
            all == views(notes@),
            rows == old(index)@.proof_material,
            forall|k: int| 0 <= k < recorded.len() ==> has_note(all, (#[trigger] recorded@[k]).txid),
            index.actions == old(index).actions,
            index.sync_state == old(index).sync_state,
            materialized(
                rows,
                all,
                context.header@,
                context.txids@,
                height,
                recorded@.take(i as int),
            ) == (index@.proof_material, None::<[u8; 32]>),
        decreases recorded.len() - i,
    {
        let r = recorded[i];
        assert(recorded@.take(i + 1).drop_last() =~= recorded@.take(i as int));
        assert(has_note(all, recorded@[i as int].txid));
        if r.height == height {
            match find_position(context.txids.as_slice(), &r.txid) {
                None => {
                    proof {
                        lemma_materialized_fails(
                            rows,
                            all,
                            context.header@,
                            context.txids@,
                            height,
                            recorded@,
                            i + 1,
                        );
                    }
                    return Err(MissingTx { height, txid: r.txid });
                },
                Some(pos) => {
                    let branch = merkle_branch(context.txids.as_slice(), pos);
                    if let Some(n) = find_note(notes, &r.txid) {
                        let stored = index.insert_proof_material(
                            &r.txid,
                            height,
                            n.tx_bytes.as_slice(),
                            context.header.as_slice(),
                            branch.as_slice(),
                            pos as u32,
                        );
                    }
                },
            }
        }
        i += 1;
    }
    assert(recorded@.take(recorded@.len() as int) =~= recorded@);
    Ok(())
}

proof fn lemma_position(txids: Seq<[u8; 32]>, txid: [u8; 32])
    ensures
        match position_of(txids, txid) {
            Some(i) => 0 <= i < txids.len() && txids[i] == txid && forall|j: int|
                0 <= j < i ==> txids[j] != txid,
            None => forall|j: int| 0 <= j < txids.len() ==> txids[j] != txid,
        },
    decreases txids.len(),
{
    if txids.len() > 0 {
        let init = txids.drop_last();
        lemma_position(init, txid);
        assert(forall|j: int| 0 <= j < init.len() ==> init[j] == txids[j]);
    }
}

/// The branch that is stored for a transaction of a block leads from the
/// transaction to the block's root, at the position stored with it; a
/// transaction has none if and only if the block does not contain it.
pub proof fn law_stored_branch_leads_to_root(txids: Seq<[u8; 32]>, txid: [u8; 32])
    ensures
        position_of(txids, txid) is Some <==> txids.contains(txid),
        position_of(txids, txid) matches Some(i) ==> folded(txid, branch_at(txids, i), i) == root_of(txids),
{
    lemma_position(txids, txid);
    if let Some(i) = position_of(txids, txid) {
        assert(txids[i] == txid);
        law_branch_folds_to_root(txids, i);
    }
}

proof fn lemma_has_note(notes: Seq<NameNoteView>, k: int)
    requires
        0 <= k < notes.len(),
    ensures
        has_note(notes, notes[k].txid),
    decreases notes.len(),
{
    if k > 0 {
        lemma_has_note(notes.skip(1), k - 1);
        assert(notes.skip(1)[k - 1] == notes[k]);
    }
}

/// Every action that a batch records came from one of the batch's notes, so its
/// raw transaction is at hand when its proof is stored.
pub proof fn law_recorded_actions_have_notes(log: Seq<ActionRow>, notes: Seq<NameNoteView>)
    ensures
        applied(log, notes) matches Ok(next) ==> forall|i: int|
            0 <= i < next.recorded.len() ==> has_note(notes, (#[trigger] next.recorded[i]).txid),
{
    if let Ok(next) = applied(log, notes) {
        lemma_recorded_source(log, notes);
        assert forall|i: int| 0 <= i < next.recorded.len() implies has_note(
            notes,
            (#[trigger] next.recorded[i]).txid,
        ) by {
            let k = choose|k: int| 0 <= k < notes.len() && notes[k].txid == next.recorded[i].txid;
            lemma_has_note(notes, k);
        }
    }
}

proof fn lemma_recorded_source(log: Seq<ActionRow>, notes: Seq<NameNoteView>)
    requires
        applied(log, notes) is Ok,
    ensures
        forall|i: int|
            0 <= i < applied(log, notes)->Ok_0.recorded.len() ==> exists|k: int|
                0 <= k < notes.len() && notes[k].txid == (
                #[trigger] applied(log, notes)->Ok_0.recorded[i]).txid,
    decreases notes.len(),
{
    if notes.len() > 0 {
        let init = notes.drop_last();
        let before = applied(log, init)->Ok_0;
        let next = applied(log, notes)->Ok_0;
        lemma_recorded_source(log, init);
        assert forall|i: int| 0 <= i < next.recorded.len() implies exists|k: int|
            0 <= k < notes.len() && notes[k].txid == (#[trigger] next.recorded[i]).txid by {
            if i < before.recorded.len() {
                assert(next.recorded[i] == before.recorded[i]);
                let k = choose|k: int| 0 <= k < init.len() && init[k].txid == before.recorded[i].txid;
                assert(notes[k] == init[k]);
            } else {
                assert(notes[notes.len() - 1].txid == next.recorded[i].txid);
            }
        }
    }
}

// ── the scan ────────────────────────────────────────────────────────────────

/// What a scan does next.
#[derive(Clone, Copy, Debug)]
pub enum ScanStep {
    /// The index is at the tip.
    Done,
    /// Stream the blocks from `start` to the tip; `seam` is the hash that the
    /// first one must build on, where it is known.
    Stream { start: u32, seam: Option<[u8; 32]> },
}

/// Scan from behind the checkpoint, or from the birthday if there is none.
pub open spec fn scan_from(checkpoint: Option<Cursor>, birthday: u32, tip: u32) -> ScanStep {
    let (start, seam) = match checkpoint {
        Some(c) => (c.height + 1, c.hash),
        None => (birthday as int, None),
    };
    if start > tip {
        ScanStep::Done
    } else {
        ScanStep::Stream { start: start as u32, seam }
    }
}

pub fn next_scan(checkpoint: Option<Cursor>, birthday: u32, tip: u32) -> (r: ScanStep)
    requires
        checkpoint matches Some(c) ==> c.height < u32::MAX,
    ensures
        r == scan_from(checkpoint, birthday, tip),
{
    let start: u32 = match &checkpoint {
        Some(c) => c.height + 1,
        None => birthday,
    };
    let seam = match checkpoint {
        Some(c) => c.hash,
        None => None,
    };
    if start > tip {
        ScanStep::Done
    } else {
        ScanStep::Stream { start, seam }
    }
}

/// The position a batch reaches: that of its last block. A malformed hash is
/// no hash, never a bogus value that would fake a reorg.
pub open spec fn batch_end(blocks: Seq<CompactBlockView>) -> Option<(u32, Option<[u8; 32]>)> {
    if blocks.len() == 0 {
        None
    } else {
        Some((blocks.last().height as u32, as_array32(blocks.last().hash)))
    }
}

pub fn batch_cursor(blocks: &[CompactBlock]) -> (r: Option<Cursor>)
    ensures
        match batch_end(views(blocks@)) {
            None => r is None,
            Some(at) => r matches Some(c) && c.height == at.0 && c.hash == at.1,
        },
{
    if blocks.len() == 0 {
        return None;
    }
    let last = &blocks[blocks.len() - 1];
    assert(views(blocks@).last() == last@);
    Some(Cursor { height: last.height as u32, hash: to_array32(last.hash.as_slice()) })
}

/// How far the next reorg rewinds: one block at first, twice as far for each
/// reorg in a row.
#[derive(Clone, Copy, Debug, PartialEq, Eq, Structural)]
pub struct Backoff {
    pub rewind_by: u32,
}

pub open spec fn doubled(n: u32) -> u32 {
    if 2 * n <= u32::MAX {
        (2 * n) as u32
    } else {
        u32::MAX
    }
}

pub open spec fn less(at: u32, by: u32) -> u32 {
    if at >= by {
        (at - by) as u32
    } else {
        0
    }
}

impl Backoff {
    pub fn new() -> (r: Self)
        ensures
            r.rewind_by == 1,
    {
        Backoff { rewind_by: 1 }
    }

    /// A batch was applied.
    pub fn applied(&mut self)
        ensures
            final(self).rewind_by == 1,
    {
        self.rewind_by = 1;
    }

    /// A reorg was reported at `at`: the height to rewind to.
    pub fn reorg(&mut self, at: u32) -> (r: u32)
        ensures
            r == less(at, old(self).rewind_by),
            final(self).rewind_by == doubled(old(self).rewind_by),
    {
        let to: u32 = at.saturating_sub(self.rewind_by);
        self.rewind_by = if self.rewind_by <= u32::MAX / 2 {
            2 * self.rewind_by
        } else {
            u32::MAX
        };
        to
    }
}

/// Scan, recover and apply one batch of blocks whose candidates' transactions
/// were fetched: the notes found and the actions recorded. The registry forks
/// that the notes are evidence of are added to `forks`, whether or not the batch
/// then fails. An empty batch changes nothing.
pub fn apply_blocks(
    index: &mut SqliteIndex,
    net: Net,
    ivk: &[u8; 64],
    blocks: &[CompactBlock],
    fetched: &[FetchedTx],
    forks: &mut Vec<Fork>,
) -> (r: Result<(Vec<NameNote>, Vec<Recorded>), StoreError>)
    ensures
        ({
            let notes = recovered_notes(
                net,
                *ivk,
                views(fetched@),
                block_hits(views(blocks@), ivk_hits(*ivk)),
            );
            match batch_end(views(blocks@)) {
                None => final(index)@ == old(index)@ && *final(forks) == *old(forks) && (r matches Ok(out) && out.0@.len() == 0
                    && out.1@.len() == 0),
                Some((height, hash)) => views(final(forks)@) == views(old(forks)@) + forks_of(
                    old(index)@.actions,
                    notes,
                ) && match index_after_notes(old(index)@, Cursor { height, hash }, notes) {
                    Err(e) => final(index)@ == old(index)@ && r == Err::<
                        (Vec<NameNote>, Vec<Recorded>),
                        StoreError,
                    >(e),
                    Ok(next) => final(index)@ == next.0 && (r matches Ok(out) && views(out.0@) == notes
                        && out.1@ == next.1 && forall|i: int|
                        0 <= i < out.1@.len() ==> has_note(views(out.0@), (#[trigger] out.1@[i]).txid)),
                },
            }
        }),
{
    match batch_cursor(blocks) {
        None => Ok((Vec::new(), Vec::new())),
        Some(at) => {
            let candidates = scan_name_notes(blocks, ivk);
            let notes = recover_notes(net, ivk, fetched, candidates.as_slice());
            proof {
                law_recorded_actions_have_notes(index@.actions, views(notes@));
            }
            match index.apply_notes_reporting(at, notes.as_slice(), forks) {
                Err(e) => Err(e),
                Ok(recorded) => Ok((notes, recorded)),
            }
        },
    }
}

/// What a scan is doing. Each phase asks its caller for one thing, and goes on
/// with the event that reports the outcome.
#[derive(Clone, Copy, Debug)]
pub enum ScanPhase {
    /// Read the index's checkpoint.
    Resuming,
    /// Open the stream of blocks from `start` to the tip.
    Opening { start: u32, seam: Option<[u8; 32]> },
    /// Take the next batch from the stream.
    Streaming,
    /// Apply a batch to the index, and store its proofs.
    Applying,
    /// Rewind the index.
    Rewinding { to: u32 },
    /// The index is at the tip.
    Finished,
    /// Something failed, and the scan is over.
    Failed,
}

/// What happened.
#[derive(Clone, Copy, Debug)]
pub enum ScanEvent {
    Checkpoint { last: Option<Cursor> },
    Opened,
    Ended,
    Batch { empty: bool },
    Applied,
    Reorg { at: u32 },
    Rewound,
    Failed,
}

/// A scan to a tip: what it is doing, and how far the next reorg rewinds.
#[derive(Clone, Copy, Debug)]
pub struct Scan {
    pub phase: ScanPhase,
    pub backoff: Backoff,
    pub birthday: u32,
    pub tip: u32,
}

/// What the scan does next. Any failure ends it; another event that the phase
/// did not ask for changes nothing.
pub open spec fn scan_phase(s: Scan, event: ScanEvent) -> ScanPhase {
    match (s.phase, event) {
        (ScanPhase::Finished, _) => ScanPhase::Finished,
        (_, ScanEvent::Failed) => ScanPhase::Failed,
        (ScanPhase::Resuming, ScanEvent::Checkpoint { last }) => match scan_from(last, s.birthday, s.tip) {
            ScanStep::Done => ScanPhase::Finished,
            ScanStep::Stream { start, seam } => ScanPhase::Opening { start, seam },
        },
        (ScanPhase::Opening { .. }, ScanEvent::Opened) => ScanPhase::Streaming,
        (ScanPhase::Streaming, ScanEvent::Ended) => ScanPhase::Finished,
        (ScanPhase::Streaming, ScanEvent::Batch { empty }) => if empty {
            ScanPhase::Streaming
        } else {
            ScanPhase::Applying
        },
        (ScanPhase::Streaming, ScanEvent::Reorg { at }) => ScanPhase::Rewinding {
            to: less(at, s.backoff.rewind_by),
        },
        (ScanPhase::Applying, ScanEvent::Applied) => ScanPhase::Streaming,
        (ScanPhase::Rewinding { .. }, ScanEvent::Rewound) => ScanPhase::Resuming,
        _ => s.phase,
    }
}

/// How far the reorg after this event rewinds.
pub open spec fn scan_rewind(s: Scan, event: ScanEvent) -> u32 {
    match (s.phase, event) {
        (ScanPhase::Streaming, ScanEvent::Reorg { .. }) => doubled(s.backoff.rewind_by),
        (ScanPhase::Applying, ScanEvent::Applied) => 1,
        _ => s.backoff.rewind_by,
    }
}

impl Scan {
    /// A scan to `tip`, from the birthday where the index is empty.
    pub fn new(birthday: u32, tip: u32) -> (r: Self)
        ensures
            r == (Scan {
                phase: ScanPhase::Resuming,
                backoff: Backoff { rewind_by: 1 },
                birthday,
                tip,
            }),
    {
        Scan { phase: ScanPhase::Resuming, backoff: Backoff::new(), birthday, tip }
    }

    /// Go on from what happened.
    pub fn advance(&mut self, event: ScanEvent)
        requires
            event matches ScanEvent::Checkpoint { last: Some(c) } ==> c.height < u32::MAX,
        ensures
            *final(self) == (Scan {
                phase: scan_phase(*old(self), event),
                backoff: Backoff { rewind_by: scan_rewind(*old(self), event) },
                ..*old(self)
            }),
    {
        self.phase = match (self.phase, event) {
            (ScanPhase::Finished, _) => ScanPhase::Finished,
            (_, ScanEvent::Failed) => ScanPhase::Failed,
            (ScanPhase::Resuming, ScanEvent::Checkpoint { last }) => match next_scan(
                last,
                self.birthday,
                self.tip,
            ) {
                ScanStep::Done => ScanPhase::Finished,
                ScanStep::Stream { start, seam } => ScanPhase::Opening { start, seam },
            },
            (ScanPhase::Opening { .. }, ScanEvent::Opened) => ScanPhase::Streaming,
            (ScanPhase::Streaming, ScanEvent::Ended) => ScanPhase::Finished,
            (ScanPhase::Streaming, ScanEvent::Batch { empty }) => if empty {
                ScanPhase::Streaming
            } else {
                ScanPhase::Applying
            },
            (ScanPhase::Streaming, ScanEvent::Reorg { at }) => {
                let to: u32 = self.backoff.reorg(at);
                ScanPhase::Rewinding { to }
            },
            (ScanPhase::Applying, ScanEvent::Applied) => {
                self.backoff.applied();
                ScanPhase::Streaming
            },
            (ScanPhase::Rewinding { .. }, ScanEvent::Rewound) => ScanPhase::Resuming,
            (phase, _) => phase,
        };
    }
}

/// A scan that finishes has nothing left to scan: its stream ended at the tip,
/// or the index was there already. A stream is opened only up to the tip, behind
/// the checkpoint, with the checkpoint's hash as its seam.
pub proof fn law_scan_reaches_the_tip(s: Scan, event: ScanEvent)
    ensures
        scan_phase(s, event) is Finished && !(s.phase is Finished) ==> (event is Ended
            && s.phase is Streaming) || (event matches ScanEvent::Checkpoint { last } && s.phase is Resuming
            && s.tip < (match last {
            Some(c) => c.height + 1,
            None => s.birthday as int,
        })),
        scan_phase(s, event) matches ScanPhase::Opening { start, seam } ==> (!(s.phase is Opening)
            ==> start <= s.tip && (event matches ScanEvent::Checkpoint { last } && (match last {
            Some(c) => start == c.height + 1 && seam == c.hash,
            None => start == s.birthday && seam is None,
        }))),
{
}

/// The distance of the `n`-th reorg in a row.
pub open spec fn nth_rewind(n: nat) -> u32
    decreases n,
{
    if n == 0 {
        1
    } else {
        doubled(nth_rewind((n - 1) as nat))
    }
}

/// Reorgs in a row rewind ever further, until a rewind reaches any fork: after
/// `n` of them the next goes back at least `n + 1` blocks, or as far as heights
/// go.
pub proof fn law_rewinds_reach_any_depth(n: nat)
    ensures
        nth_rewind(n) >= n + 1 || nth_rewind(n) == u32::MAX,
    decreases n,
{
    if n > 0 {
        law_rewinds_reach_any_depth((n - 1) as nat);
    }
}

} // verus!
