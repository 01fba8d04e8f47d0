//! Observes the registry account on chain.
//!
//! Turns batches of compact blocks into decrypted notes: trial decryption, the
//! full transaction, and the proof that a name note is a self-send. The key
//! must be a full viewing key: an incoming one does not show what was sent.

use vstd::prelude::*;

use crate::decrypt::{
    compact_recipient_fvk, received_note_fvk, sent_note_fvk, try_compact_fvk, try_decrypt_fvk,
    try_sent_fvk, CompactParts, Recovered,
};
use crate::kernel::NoteParts;
use crate::log::views;
use crate::net::Net;
use crate::observe::{
    block_hits, collect_hits, fetched_tx, find_fetched, Candidate, CompactBlock, FetchedTx,
    FetchedView,
};
use crate::text::{copy_bytes, has_prefix};

verus! {

/// A decrypted name note candidate, with the parts of the note that its binding
/// is verified from.
pub struct DecryptedNote {
    pub parts: NoteParts,
    /// On-chain note commitment.
    pub cmx: [u8; 32],
    pub memo: Vec<u8>,
    pub txid: [u8; 32],
    pub height: u32,
    /// Index of this action within the transaction's action list.
    pub action_index: usize,
    pub raw_tx: Vec<u8>,
}

#[verifier::ext_equal]
pub struct DecryptedView {
    pub parts: NoteParts,
    pub cmx: [u8; 32],
    pub memo: Seq<u8>,
    pub txid: [u8; 32],
    pub height: u32,
    pub action_index: usize,
    pub raw_tx: Seq<u8>,
}

impl View for DecryptedNote {
    type V = DecryptedView;

    open spec fn view(&self) -> DecryptedView {
        DecryptedView {
            parts: self.parts,
            cmx: self.cmx,
            memo: self.memo@,
            txid: self.txid,
            height: self.height,
            action_index: self.action_index,
            raw_tx: self.raw_tx@,
        }
    }
}

/// The bytes a lifecycle memo begins with.
pub open spec fn zns_prefix() -> Seq<u8> {
    seq![0x5au8, 0x4eu8, 0x53u8, 0x3au8]
}

/// The full viewing key decrypts the action.
pub open spec fn fvk_hits(fvk: [u8; 96]) -> spec_fn(CompactParts) -> bool {
    |p: CompactParts| compact_recipient_fvk(fvk, p) is Some
}

/// Trial-decrypt every action in `blocks` with the account's full viewing key.
pub fn scan_account(blocks: &[CompactBlock], fvk: &[u8; 96]) -> (r: Vec<Candidate>)
    ensures
        r@ == block_hits(views(blocks@), fvk_hits(*fvk)),
{
    let test = |p: &CompactParts| -> (out: bool)
        ensures
            out == fvk_hits(*fvk)(*p),
        { try_compact_fvk(fvk, p).is_some() };
    collect_hits(blocks, test, Ghost(fvk_hits(*fvk)))
}

/// Whether a received note is kept: a lifecycle memo must be proved a
/// self-send, any other note is kept as it is.
pub open spec fn is_kept(memo: Seq<u8>, sent: bool) -> bool {
    sent || !has_prefix(memo, zns_prefix())
}

pub fn keeps(memo: &[u8], sent: bool) -> (r: bool)
    ensures
        r == is_kept(memo@, sent),
{
    let zns = memo.len() >= 4 && memo[0] == 0x5a && memo[1] == 0x4e && memo[2] == 0x53 && memo[3] == 0x3a;
    proof {
        if memo@.len() >= 4 {
            let head = memo@.take(4);
            if zns {
                assert(head =~= zns_prefix());
            } else {
                assert(head[0] == memo@[0] && head[1] == memo@[1] && head[2] == memo@[2] && head[3]
                    == memo@[3]);
                assert(zns_prefix()[0] == 0x5a && zns_prefix()[1] == 0x4e && zns_prefix()[2] == 0x53
                    && zns_prefix()[3] == 0x3a);
                assert(head != zns_prefix());
            }
        }
    }
    sent || !zns
}

/// A recovered note in its place.
#[verifier::ext_equal]
pub struct FoundView {
    pub found: Recovered,
    pub candidate: Candidate,
    pub height: u32,
    pub raw_tx: Seq<u8>,
}

/// What one candidate's full transaction yields.
pub open spec fn found_note(
    net: Net,
    fvk: [u8; 96],
    fetched: Seq<FetchedView>,
    c: Candidate,
) -> Option<FoundView> {
    match fetched_tx(fetched, c.txid) {
        None => None,
        Some(tx) => {
            let branch = net.branch(tx.height);
            match received_note_fvk(fvk, tx.data, branch, c.action_index) {
                None => None,
                Some(found) => if is_kept(
                    found.memo@,
                    sent_note_fvk(fvk, tx.data, branch, c.action_index) is Some,
                ) {
                    Some(FoundView { found, candidate: c, height: tx.height, raw_tx: tx.data })
                } else {
                    None
                },
            }
        },
    }
}

/// What the candidates yield, in their order.
pub open spec fn found_notes(
    net: Net,
    fvk: [u8; 96],
    fetched: Seq<FetchedView>,
    candidates: Seq<Candidate>,
) -> Seq<FoundView>
    decreases candidates.len(),
{
    if candidates.len() == 0 {
        Seq::empty()
    } else {
        let before = found_notes(net, fvk, fetched, candidates.drop_last());
        match found_note(net, fvk, fetched, candidates.last()) {
            Some(n) => before.push(n),
            None => before,
        }
    }
}

/// A found note as the registry takes it.
pub open spec fn decrypted_of(n: FoundView) -> DecryptedView {
    DecryptedView {
        parts: n.found.note.spec_parts(),
        cmx: n.found.cmx,
        memo: n.found.memo@,
        txid: n.candidate.txid,
        height: n.height,
        action_index: n.candidate.action_index,
        raw_tx: n.raw_tx,
    }
}

pub open spec fn all_decrypted(s: Seq<FoundView>) -> Seq<DecryptedView> {
    Seq::new(s.len(), |i: int| decrypted_of(s[i]))
}

/// The recovered note of one candidate, and the transaction it is in.
pub(crate) fn find_note<'a>(net: Net, fvk: &[u8; 96], fetched: &'a [FetchedTx], c: &Candidate) -> (r: Option<
    (Recovered, &'a FetchedTx),
>)
    ensures
        match r {
            Some((found, tx)) => found_note(net, *fvk, views(fetched@), *c) == Some(
                FoundView { found, candidate: *c, height: tx.height, raw_tx: tx.data@ },
            ),
            None => found_note(net, *fvk, views(fetched@), *c) is None,
        },
{
    match find_fetched(fetched, &c.txid) {
        None => None,
        Some(tx) => {
            let branch = net.branch_id(tx.height);
            match try_decrypt_fvk(fvk, tx.data.as_slice(), branch, c.action_index) {
                None => None,
                Some(found) => {
                    let sent = try_sent_fvk(fvk, tx.data.as_slice(), branch, c.action_index).is_some();
                    if keeps(found.memo.as_slice(), sent) {
                        Some((found, tx))
                    } else {
                        None
                    }
                },
            }
        },
    }
}

/// Every name note that is found was sent by the account itself: a note whose
/// memo begins as a lifecycle memo is found only with the proof of a self-send.
/// The notes come in the candidates' order.
pub proof fn law_name_notes_are_self_sends(
    net: Net,
    fvk: [u8; 96],
    fetched: Seq<FetchedView>,
    candidates: Seq<Candidate>,
)
    ensures
        ({
            let found = found_notes(net, fvk, fetched, candidates);
            &&& found.len() <= candidates.len()
            &&& forall|i: int| #![trigger found[i]]
                0 <= i < found.len() ==> (has_prefix(found[i].found.memo@, zns_prefix())
                    ==> sent_note_fvk(
                    fvk,
                    found[i].raw_tx,
                    net.branch(found[i].height),
                    found[i].candidate.action_index,
                ) is Some)
            &&& exists|at: Seq<int>| #[trigger]
                is_selection(at, candidates.len() as int) && at.len() == found.len() && forall|i: int|
                    #![trigger found[i]]
                    0 <= i < found.len() ==> found[i].candidate == candidates[at[i]]
        }),
    decreases candidates.len(),
{
    let found = found_notes(net, fvk, fetched, candidates);
    if candidates.len() == 0 {
        assert(is_selection(Seq::empty(), 0));
    } else {
        let init = candidates.drop_last();
        law_name_notes_are_self_sends(net, fvk, fetched, init);
        let before = found_notes(net, fvk, fetched, init);
        let at = choose|at: Seq<int>| #[trigger]
            is_selection(at, init.len() as int) && at.len() == before.len() && forall|i: int|
                #![trigger before[i]]
                0 <= i < before.len() ==> before[i].candidate == init[at[i]];
        if let Some(n) = found_note(net, fvk, fetched, candidates.last()) {
            let next = at.push(candidates.len() - 1);
            assert(is_selection(next, candidates.len() as int));
            assert forall|i: int| #![trigger found[i]] 0 <= i < found.len() implies found[i].candidate
                == candidates[next[i]] by {
                if i < before.len() {
                    assert(found[i] == before[i]);
                }
            }
        } else {
            assert(is_selection(at, candidates.len() as int));
            assert(found == before);
        }
    }
}

/// Ascending positions below `n`.
pub open spec fn is_selection(at: Seq<int>, n: int) -> bool {
    &&& forall|i: int| 0 <= i < at.len() ==> 0 <= #[trigger] at[i] < n
    &&& forall|i: int, j: int| 0 <= i < j < at.len() ==> at[i] < at[j]
}

/// Decrypt each candidate in its full transaction; the parts of the note that
/// its binding needs are extracted once, here.
pub fn observe_batch(net: Net, fvk: &[u8; 96], fetched: &[FetchedTx], candidates: &[Candidate]) -> (r: Vec<
    DecryptedNote,
>)
    ensures
        views(r@) == all_decrypted(found_notes(net, *fvk, views(fetched@), candidates@)),
{
    let ghost txs = views(fetched@);
    let mut out: Vec<DecryptedNote> = Vec::new();
    let mut i: usize = 0;
    assert(views(out@) =~= all_decrypted(found_notes(net, *fvk, txs, candidates@.take(0))));
    while i < candidates.len()
        invariant
            i <= candidates.len(),
            txs == views(fetched@),
            views(out@) == all_decrypted(found_notes(net, *fvk, txs, candidates@.take(i as int))),
        decreases candidates.len() - i,
    {
        let c = candidates[i];
        let ghost prior = found_notes(net, *fvk, txs, candidates@.take(i as int));
        assert(candidates@.take(i + 1).drop_last() =~= candidates@.take(i as int));
        if let Some((found, tx)) = find_note(net, fvk, fetched, &c) {
            let n = DecryptedNote {
                parts: found.note.parts(),
                cmx: found.cmx,
                memo: copy_bytes(found.memo.as_slice()),
                txid: c.txid,
                height: tx.height,
                action_index: c.action_index,
                raw_tx: copy_bytes(tx.data.as_slice()),
            };
            let ghost before = views(out@);
            let ghost item = FoundView { found, candidate: c, height: tx.height, raw_tx: tx.data@ };
            out.push(n);
            proof {
                assert(views(out@) =~= before.push(n@));
                assert(all_decrypted(prior.push(item)) =~= all_decrypted(prior).push(decrypted_of(item)));
            }
        }
        i += 1;
    }
    assert(candidates@.take(candidates@.len() as int) =~= candidates@);
    out
}

} // verus!
