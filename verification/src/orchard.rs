//! Registry note decryption and `cmx` binding verification.

use vstd::prelude::*;
use vstd::string::*;

use crate::kernel::{Action, Note};
use crate::log::views;
use crate::net::Net;
use crate::observe::{Candidate, FetchedTx};
use crate::sync::observe::{find_note, found_notes, FoundView};
use crate::text::copy_bytes;
use crate::verify::{open_plain, plain_opening};

verus! {

/// A registry note we decrypted: carries the note (for binding verification)
/// and memo (untrusted, parsed separately).
pub struct DecryptedNote {
    pub note: Note,
    /// On-chain note commitment from the action; must match our recomputation.
    pub cmx: [u8; 32],
    pub memo: Vec<u8>,
    pub txid: [u8; 32],
    pub height: u32,
    /// Index of this action within the transaction's action list.
    pub action_index: usize,
    pub raw_tx: Vec<u8>,
}

#[verifier::ext_equal]
pub struct DecryptedView {
    pub note: Note,
    pub cmx: [u8; 32],
    pub memo: Seq<u8>,
    pub txid: [u8; 32],
    pub height: u32,
    pub action_index: usize,
    pub raw_tx: Seq<u8>,
}

impl View for DecryptedNote {
    type V = DecryptedView;

    open spec fn view(&self) -> DecryptedView {
        DecryptedView {
            note: self.note,
            cmx: self.cmx,
            memo: self.memo@,
            txid: self.txid,
            height: self.height,
            action_index: self.action_index,
            raw_tx: self.raw_tx@,
        }
    }
}

/// Returns `(psi, rcm)` byte reprs if the note commitment matches on-chain cmx.
pub fn verify_binding(
    note: &Note,
    on_chain_cmx: [u8; 32],
    action: Action,
    name: &str,
    ua: &str,
    prev_rcm: &[u8; 32],
) -> (r: Option<([u8; 32], [u8; 32])>)
    ensures
        r == plain_opening(note.spec_parts(), on_chain_cmx, action, name@, ua@, *prev_rcm),
{
    open_plain(&note.parts(), &on_chain_cmx, action, name, ua, prev_rcm)
}

/// A found note as the name database takes it.
pub open spec fn decrypted_of(n: FoundView) -> DecryptedView {
    DecryptedView {
        note: n.found.note,
        cmx: n.found.cmx,
        memo: n.found.memo@,
        txid: n.candidate.txid,
        height: n.height,
        action_index: n.candidate.action_index,
        raw_tx: n.raw_tx,
    }
}

pub open spec fn all_decrypted(s: Seq<FoundView>) -> Seq<DecryptedView> {
    Seq::new(s.len(), |i: int| decrypted_of(s[i]))
}

/// Decrypt each candidate in its full transaction. A name note must be proved a
/// self-send by the account's full viewing key.
pub fn observe_batch(net: Net, fvk: &[u8; 96], fetched: &[FetchedTx], candidates: &[Candidate]) -> (r: Vec<
    DecryptedNote,
>)
    ensures
        views(r@) == all_decrypted(found_notes(net, *fvk, views(fetched@), candidates@)),
{
    let ghost txs = views(fetched@);
    let mut out: Vec<DecryptedNote> = Vec::new();
    let mut i: usize = 0;
    assert(views(out@) =~= all_decrypted(found_notes(net, *fvk, txs, candidates@.take(0))));
    while i < candidates.len()
        invariant
            i <= candidates.len(),
            txs == views(fetched@),
            views(out@) == all_decrypted(found_notes(net, *fvk, txs, candidates@.take(i as int))),
        decreases candidates.len() - i,
    {
        let c = candidates[i];
        let ghost prior = found_notes(net, *fvk, txs, candidates@.take(i as int));
        assert(candidates@.take(i + 1).drop_last() =~= candidates@.take(i as int));
        if let Some((found, tx)) = find_note(net, fvk, fetched, &c) {
            let n = DecryptedNote {
                note: found.note,
                cmx: found.cmx,
                memo: copy_bytes(found.memo.as_slice()),
                txid: c.txid,
                height: tx.height,
                action_index: c.action_index,
                raw_tx: copy_bytes(tx.data.as_slice()),
            };
            let ghost before = views(out@);
            let ghost item = FoundView { found, candidate: c, height: tx.height, raw_tx: tx.data@ };
            out.push(n);
            proof {
                assert(views(out@) =~= before.push(n@));
                assert(all_decrypted(prior.push(item)) =~= all_decrypted(prior).push(decrypted_of(item)));
            }
        }
        i += 1;
    }
    assert(candidates@.take(candidates@.len() as int) =~= candidates@);
    out
}

/// Each found note is handed on as it is: the note, its commitment and memo, and
/// the transaction, height and index it was found at.
pub proof fn law_found_notes_are_handed_on(found: Seq<FoundView>, i: int)
    requires
        0 <= i < found.len(),
    ensures
        all_decrypted(found).len() == found.len(),
        ({
            let n = all_decrypted(found)[i];
            &&& n.note == found[i].found.note
            &&& n.cmx == found[i].found.cmx
            &&& n.memo == found[i].found.memo@
            &&& n.txid == found[i].candidate.txid
            &&& n.height == found[i].height
            &&& n.action_index == found[i].candidate.action_index
            &&& n.raw_tx == found[i].raw_tx
        }),
{
}

} // verus!
