//! Trial decryption of name notes.
//!
//! Decryption itself belongs to `zns-verify` and `orchard`. A name note's
//! commitment does not follow from its seed, so the relaxed domain of
//! `zns-verify` is used, and what it recovers must still be verified.

use orchard::keys::{FullViewingKey, IncomingViewingKey, PreparedIncomingViewingKey};
use orchard::note::{ExtractedNoteCommitment, Nullifier};
use orchard::note_encryption::CompactAction;
use vstd::prelude::*;
use zcash_note_encryption::EphemeralKeyBytes;
use zcash_primitives::transaction::Transaction;
use zcash_protocol::consensus::BranchId;
use zns_verify::decrypt::ZnsIronwoodDomain;

use crate::kernel::Note;

verus! {

/// A compact action: what a compact block carries of it.
#[derive(Clone, Copy)]
pub struct CompactParts {
    pub nullifier: [u8; 32],
    pub cmx: [u8; 32],
    pub ephemeral_key: [u8; 32],
    pub ciphertext: [u8; 52],
}

/// A note recovered from a full action, with the commitment the action
/// published and the memo.
#[derive(Clone, Copy)]
pub struct Recovered {
    pub note: Note,
    pub cmx: [u8; 32],
    pub memo: [u8; 512],
}

/// The raw address that a compact action pays, where the incoming viewing key
/// decrypts it.
pub uninterp spec fn compact_recipient(ivk: [u8; 64], action: CompactParts) -> Option<[u8; 43]>;

/// The raw address that a compact action pays, where the full viewing key
/// decrypts it.
pub uninterp spec fn compact_recipient_fvk(fvk: [u8; 96], action: CompactParts) -> Option<[u8; 43]>;

/// What the incoming viewing key recovers from the action at `index` of a raw
/// transaction, read under a consensus branch.
pub uninterp spec fn received_note(ivk: [u8; 64], raw: Seq<u8>, branch: u32, index: usize) -> Option<
    Recovered,
>;

/// What the full viewing key recovers as received from the action at `index`
/// of a raw transaction, read under a consensus branch.
pub uninterp spec fn received_note_fvk(fvk: [u8; 96], raw: Seq<u8>, branch: u32, index: usize) -> Option<
    Recovered,
>;

/// The commitment of the action at `index` of a raw transaction, where the full
/// viewing key recovers its note as sent.
pub uninterp spec fn sent_note_fvk(fvk: [u8; 96], raw: Seq<u8>, branch: u32, index: usize) -> Option<
    [u8; 32],
>;

/// Calls `zns_verify::decrypt::ZnsIronwoodDomain::try_decrypt_compact`. The
/// contract claims that the recipient is a function of the key and the action;
/// keys and actions that do not decode give none.
#[verifier::external_body]
pub(crate) fn try_compact(ivk: &[u8; 64], action: &CompactParts) -> (r: Option<[u8; 43]>)
    ensures
        r == compact_recipient(*ivk, *action),
{
    let key = Option::<IncomingViewingKey>::from(IncomingViewingKey::from_bytes(ivk))?;
    let compact = CompactAction::from_parts(
        Option::from(Nullifier::from_bytes(&action.nullifier))?,
        Option::from(ExtractedNoteCommitment::from_bytes(&action.cmx))?,
        EphemeralKeyBytes(action.ephemeral_key),
        action.ciphertext,
    );
    let domain = ZnsIronwoodDomain::for_compact_action(&compact);
    let found = domain.try_decrypt_compact(&compact, &PreparedIncomingViewingKey::new(&key))?;
    Some(found.1.to_raw_address_bytes())
}

/// Calls `zns_verify::decrypt::try_compact_ironwood`. The contract claims that
/// the recipient is a function of the key and the action; keys and actions
/// that do not decode give none.
#[verifier::external_body]
pub(crate) fn try_compact_fvk(fvk: &[u8; 96], action: &CompactParts) -> (r: Option<[u8; 43]>)
    ensures
        r == compact_recipient_fvk(*fvk, *action),
{
    let key = FullViewingKey::from_bytes(fvk)?;
    let compact = CompactAction::from_parts(
        Option::from(Nullifier::from_bytes(&action.nullifier))?,
        Option::from(ExtractedNoteCommitment::from_bytes(&action.cmx))?,
        EphemeralKeyBytes(action.ephemeral_key),
        action.ciphertext,
    );
    let found = zns_verify::decrypt::try_compact_ironwood(&key, &compact)?;
    Some(found.1.to_raw_address_bytes())
}

/// Calls `zns_verify::decrypt::ZnsIronwoodDomain::try_decrypt` on an action of a
/// transaction that `zcash_primitives` reads. The contract claims that what is
/// recovered is a function of the key, the transaction bytes, the branch and
/// the index.
#[verifier::external_body]
pub(crate) fn try_decrypt(ivk: &[u8; 64], raw: &[u8], branch: u32, index: usize) -> (r: Option<Recovered>)
    ensures
        r == received_note(*ivk, raw@, branch, index),
{
    let key = Option::<IncomingViewingKey>::from(IncomingViewingKey::from_bytes(ivk))?;
    let tx = Transaction::read(raw, BranchId::try_from(branch).ok()?).ok()?;
    let action = tx.ironwood_bundle()?.actions().get(index)?;
    let domain = ZnsIronwoodDomain::for_action(action);
    let (found, to, memo) = domain.try_decrypt(action, &PreparedIncomingViewingKey::new(&key))?;
    let note = Note {
        recipient: to.to_raw_address_bytes(),
        value: found.note().value().inner(),
        rho: found.note().rho().to_bytes(),
    };
    Some(Recovered { note, cmx: found.cmx().to_bytes(), memo })
}

/// Calls `zns_verify::decrypt::try_decrypt_ironwood` on an action of a
/// transaction that `zcash_primitives` reads. The contract claims that what is
/// recovered is a function of the key, the transaction bytes, the branch and
/// the index.
#[verifier::external_body]
pub(crate) fn try_decrypt_fvk(fvk: &[u8; 96], raw: &[u8], branch: u32, index: usize) -> (r: Option<Recovered>)
    ensures
        r == received_note_fvk(*fvk, raw@, branch, index),
{
    let key = FullViewingKey::from_bytes(fvk)?;
    let tx = Transaction::read(raw, BranchId::try_from(branch).ok()?).ok()?;
    let action = tx.ironwood_bundle()?.actions().get(index)?;
    let (note, to, memo, cmx) = zns_verify::decrypt::try_decrypt_ironwood(action, &key)?;
    let note = Note {
        recipient: to.to_raw_address_bytes(),
        value: note.value().inner(),
        rho: note.rho().to_bytes(),
    };
    Some(Recovered { note, cmx: cmx.to_bytes(), memo: *memo.as_array() })
}

/// Calls `zns_verify::decrypt::try_decrypt_ironwood_sent` on an action of a
/// transaction that `zcash_primitives` reads. The contract claims that the
/// commitment, or its absence, is a function of the key, the transaction bytes,
/// the branch and the index.
#[verifier::external_body]
pub(crate) fn try_sent_fvk(fvk: &[u8; 96], raw: &[u8], branch: u32, index: usize) -> (r: Option<[u8; 32]>)
    ensures
        r == sent_note_fvk(*fvk, raw@, branch, index),
{
    let key = FullViewingKey::from_bytes(fvk)?;
    let tx = Transaction::read(raw, BranchId::try_from(branch).ok()?).ok()?;
    let action = tx.ironwood_bundle()?.actions().get(index)?;
    let found = zns_verify::decrypt::try_decrypt_ironwood_sent(action, &key)?;
    Some(found.3.to_bytes())
}

} // verus!
