//! What becomes of the candidates: each transaction is fetched once, each note
//! comes from its own action, and each recorded action gets its proof.

use vstd::prelude::*;

use super::{
    batch_end, fetched_tx, height_order, heights_of, law_heights_ascend,
    law_stored_branch_leads_to_root, materialized, note_bytes, position_of,
    recovered_note, recovered_notes, scan_key, scan_phase, scan_rewind, txids_of, Candidate,
    CompactBlockView, FetchedView, NoOrchardKey, Scan, ScanEvent, ScanPhase,
};
use crate::decrypt::received_note;
use crate::index::laws::law_proof_material_round_trips;
use crate::index::served::law_material_is_stored_once;
use crate::index::{material_of, proof_row, with_material, NameNoteView, ProofRowView, Recorded};
use crate::merkle::{branch_at, folded, root_of};
use crate::net::Net;
use crate::text::{lemma_array32_of, lemma_as_array32};

verus! {

/// What is fetched is each transaction of a candidate, once, in the order in
/// which they first occur.
pub proof fn law_transactions_are_fetched_once(candidates: Seq<Candidate>)
    ensures
        txids_of(candidates).no_duplicates(),
        forall|txid: [u8; 32]| #[trigger]
            txids_of(candidates).contains(txid) <==> exists|i: int|
                0 <= i < candidates.len() && (#[trigger] candidates[i]).txid == txid,
        candidates.len() > 0 ==> txids_of(candidates).len() > 0 && txids_of(candidates)[0]
            == candidates[0].txid,
    decreases candidates.len(),
{
    if candidates.len() > 0 {
        let init = candidates.drop_last();
        let before = txids_of(init);
        let after = txids_of(candidates);
        let x = candidates.last().txid;
        law_transactions_are_fetched_once(init);
        assert(candidates[candidates.len() - 1].txid == x);
        assert forall|txid: [u8; 32]| #[trigger] after.contains(txid) <==> exists|i: int|
            0 <= i < candidates.len() && (#[trigger] candidates[i]).txid == txid by {
            assert(before.contains(txid) <==> exists|i: int|
                0 <= i < init.len() && (#[trigger] init[i]).txid == txid);
            if before.contains(txid) {
                let k = choose|k: int| 0 <= k < before.len() && before[k] == txid;
                assert(after[k] == txid);
                let i = choose|i: int| 0 <= i < init.len() && (#[trigger] init[i]).txid == txid;
                assert(candidates[i].txid == txid);
            }
            if !before.contains(x) {
                assert(after[before.len() as int] == x);
            }
            if after.contains(txid) && !before.contains(txid) {
                let k = choose|k: int| 0 <= k < after.len() && after[k] == txid;
                if k < before.len() {
                    assert(before[k] == txid);
                }
                assert(txid == x);
            }
            if exists|i: int| 0 <= i < candidates.len() && (#[trigger] candidates[i]).txid == txid {
                let i = choose|i: int| 0 <= i < candidates.len() && (#[trigger] candidates[i]).txid == txid;
                if i < init.len() {
                    assert(init[i].txid == txid);
                }
            }
        }
        if init.len() == 0 {
            assert(!before.contains(x));
        }
    }
}

/// The first transaction of an id is the one that is found.
pub proof fn lemma_fetched(fetched: Seq<FetchedView>, txid: [u8; 32], k: int)
    requires
        0 <= k < fetched.len(),
        fetched[k].txid == txid,
        forall|i: int| 0 <= i < k ==> (#[trigger] fetched[i]).txid != txid,
    ensures
        fetched_tx(fetched, txid) == Some(fetched[k]),
    decreases fetched.len(),
{
    if k > 0 {
        assert(fetched[0].txid != txid);
        assert forall|i: int| 0 <= i < k - 1 implies (#[trigger] fetched.skip(1)[i]).txid != txid by {
            assert(fetched[i + 1].txid != txid);
        }
        lemma_fetched(fetched.skip(1), txid, k - 1);
    }
}

pub proof fn lemma_not_fetched(fetched: Seq<FetchedView>, txid: [u8; 32])
    requires
        forall|i: int| 0 <= i < fetched.len() ==> (#[trigger] fetched[i]).txid != txid,
    ensures
        fetched_tx(fetched, txid) is None,
    decreases fetched.len(),
{
    if fetched.len() > 0 {
        assert(fetched[0].txid != txid);
        assert forall|i: int| 0 <= i < fetched.skip(1).len() implies (#[trigger] fetched.skip(1)[i]).txid
            != txid by {
            assert(fetched[i + 1].txid != txid);
        }
        lemma_not_fetched(fetched.skip(1), txid);
    }
}

/// A candidate whose transaction was fetched, at `k`, gives one note exactly
/// where the action at its own index decrypts, under the branch of the height
/// that the transaction was mined at. The note is that action's, and tells the
/// transaction, its height and its bytes.
pub proof fn law_note_is_recovered_from_its_action(
    net: Net,
    ivk: [u8; 64],
    fetched: Seq<FetchedView>,
    c: Candidate,
    k: int,
)
    requires
        0 <= k < fetched.len(),
        fetched[k].txid == c.txid,
        forall|i: int| 0 <= i < k ==> (#[trigger] fetched[i]).txid != c.txid,
    ensures
        match received_note(ivk, fetched[k].data, net.branch(fetched[k].height), c.action_index) {
            None => recovered_notes(net, ivk, fetched, seq![c]).len() == 0,
            Some(r) => recovered_notes(net, ivk, fetched, seq![c]).len() == 1 && ({
                let n = recovered_notes(net, ivk, fetched, seq![c])[0];
                &&& n.note == r.note && n.cmx == r.cmx && n.memo == r.memo@
                &&& n.txid == fetched[k].txid && n.height == fetched[k].height && n.tx_bytes
                    == fetched[k].data
                &&& n.action_index == c.action_index
            }),
        },
{
    lemma_fetched(fetched, c.txid, k);
    lemma_recovered_alone(net, ivk, fetched, c);
}

proof fn lemma_recovered_alone(net: Net, ivk: [u8; 64], fetched: Seq<FetchedView>, c: Candidate)
    ensures
        match recovered_note(net, ivk, fetched, c) {
            None => recovered_notes(net, ivk, fetched, seq![c]).len() == 0,
            Some(n) => recovered_notes(net, ivk, fetched, seq![c]) == seq![n],
        },
{
    let none = seq![c].drop_last();
    assert(none.len() == 0);
    assert(recovered_notes(net, ivk, fetched, none) =~= Seq::empty());
    if let Some(n) = recovered_note(net, ivk, fetched, c) {
        assert(Seq::<NameNoteView>::empty().push(n) =~= seq![n]);
    }
}

/// A candidate whose transaction was not fetched gives no note.
pub proof fn law_unfetched_candidates_are_dropped(
    net: Net,
    ivk: [u8; 64],
    fetched: Seq<FetchedView>,
    c: Candidate,
)
    requires
        forall|i: int| 0 <= i < fetched.len() ==> (#[trigger] fetched[i]).txid != c.txid,
    ensures
        recovered_notes(net, ivk, fetched, seq![c]).len() == 0,
{
    lemma_not_fetched(fetched, c.txid);
    lemma_recovered_alone(net, ivk, fetched, c);
}

/// A batch ends at its last block: at its height, and at its hash where that is
/// well-formed. An empty batch ends nowhere.
pub proof fn law_batch_ends_at_its_last_block(blocks: Seq<CompactBlockView>)
    ensures
        blocks.len() == 0 ==> batch_end(blocks) is None,
        blocks.len() > 0 ==> (batch_end(blocks) matches Some((height, hash)) && (blocks[blocks.len()
            - 1].height <= u32::MAX ==> height == blocks[blocks.len() - 1].height) && (hash is Some
            <==> blocks[blocks.len() - 1].hash.len() == 32) && (hash matches Some(h) ==> h@ == blocks[blocks.len()
            - 1].hash)),
{
    if blocks.len() > 0 {
        lemma_array32_of(blocks[blocks.len() - 1].hash);
    }
}

// ── proofs ──────────────────────────────────────────────────────────────────

/// The transaction bytes found for a recorded action are those of the first of
/// its notes.
pub proof fn law_note_bytes_are_the_transaction(notes: Seq<NameNoteView>, k: int)
    requires
        0 <= k < notes.len(),
        forall|i: int| 0 <= i < k ==> (#[trigger] notes[i]).txid != notes[k].txid,
    ensures
        note_bytes(notes, notes[k].txid) == Some(notes[k].tx_bytes),
    decreases notes.len(),
{
    if k > 0 {
        assert(notes[0].txid != notes[k].txid);
        let rest = notes.skip(1);
        assert(rest[k - 1] == notes[k]);
        assert forall|i: int| 0 <= i < k - 1 implies (#[trigger] rest[i]).txid != rest[k - 1].txid by {
            assert(notes[i + 1].txid != notes[k].txid);
        }
        law_note_bytes_are_the_transaction(rest, k - 1);
    }
}

/// The row proves that the transaction is in the block of these txids: its
/// branch leads from the transaction to the root, at the position it stores.
pub open spec fn proves_inclusion(
    row: ProofRowView,
    txid: [u8; 32],
    raw_tx: Seq<u8>,
    header: Seq<u8>,
    txids: Seq<[u8; 32]>,
    height: u32,
) -> bool {
    let m = material_of(row);
    &&& row.txid == txid@
    &&& row.height == height
    &&& m.raw_tx == raw_tx
    &&& m.header == header
    &&& folded(txid, m.merkle_branch, m.merkle_index as int) == root_of(txids)
    &&& m.merkle_index < txids.len() && txids[m.merkle_index as int] == txid
}

proof fn lemma_found_at(txids: Seq<[u8; 32]>, txid: [u8; 32])
    ensures
        position_of(txids, txid) matches Some(i) ==> 0 <= i < txids.len() && txids[i] == txid,
    decreases txids.len(),
{
    if txids.len() > 0 {
        lemma_found_at(txids.drop_last(), txid);
    }
}

proof fn lemma_stored_row_proves(
    rows: Seq<ProofRowView>,
    txid: [u8; 32],
    raw_tx: Seq<u8>,
    header: Seq<u8>,
    txids: Seq<[u8; 32]>,
    height: u32,
)
    requires
        proof_row(rows, txid@) is None,
        txids.len() <= u32::MAX,
        position_of(txids, txid) is Some,
    ensures
        ({
            let pos = position_of(txids, txid)->0;
            let stored = with_material(
                rows,
                txid,
                height,
                raw_tx,
                header,
                branch_at(txids, pos),
                pos as u32,
            );
            proof_row(stored, txid@) matches Some(row) && proves_inclusion(
                row,
                txid,
                raw_tx,
                header,
                txids,
                height,
            )
        }),
{
    let pos = position_of(txids, txid)->0;
    let branch = branch_at(txids, pos);
    lemma_found_at(txids, txid);
    law_stored_branch_leads_to_root(txids, txid);
    law_proof_material_round_trips(rows, txid, height, raw_tx, header, branch, pos as u32);
    law_material_is_stored_once(rows, txid, height, raw_tx, header, branch, pos as u32, txid@);
    let stored = with_material(rows, txid, height, raw_tx, header, branch, pos as u32);
    crate::index::served::law_material_is_of_its_transaction(stored, txid@);
    crate::index::served::law_material_is_of_its_transaction(rows, txid@);
    let row = proof_row(stored, txid@)->0;
    let k = choose|k: int| 0 <= k < stored.len() && stored[k] == row;
    if k < rows.len() {
        assert(rows[k] == stored.drop_last()[k]);
        assert(rows[k].txid != txid@);
    }
    assert(row == stored.last());
}

/// The recorded action at the height is in the block.
pub open spec fn is_listed(r: Recorded, txids: Seq<[u8; 32]>, height: u32) -> bool {
    r.height == height ==> txids.contains(r.txid)
}

/// Storing the proofs of a block's recorded actions fails exactly where the
/// block does not contain one of them, and names the first such. Otherwise each
/// has its proof afterwards: the one stored before, or else one of its
/// transaction's bytes, the header and a branch to the block's root.
#[verifier::rlimit(40)]
pub proof fn law_recorded_actions_are_provable(
    rows: Seq<ProofRowView>,
    notes: Seq<NameNoteView>,
    header: Seq<u8>,
    txids: Seq<[u8; 32]>,
    height: u32,
    recorded: Seq<Recorded>,
)
    requires
        txids.len() <= u32::MAX,
    ensures
        ({
            let done = materialized(rows, notes, header, txids, height, recorded);
            &&& match done.1 {
                Some(txid) => exists|k: int|
                    0 <= k < recorded.len() && #[trigger] recorded[k] == (Recorded { txid, height })
                        && !txids.contains(txid) && forall|i: int|
                        0 <= i < k ==> is_listed(#[trigger] recorded[i], txids, height),
                None => forall|k: int|
                    0 <= k < recorded.len() ==> is_listed(#[trigger] recorded[k], txids, height),
            }
            &&& done.1 is None ==> forall|k: int|
                0 <= k < recorded.len() && (#[trigger] recorded[k]).height == height ==> (proof_row(
                    done.0,
                    recorded[k].txid@,
                ) matches Some(row) && (proof_row(rows, recorded[k].txid@) == Some(row)
                    || proves_inclusion(
                    row,
                    recorded[k].txid,
                    note_bytes(notes, recorded[k].txid)->0,
                    header,
                    txids,
                    height,
                )))
            &&& forall|t: Seq<u8>| #[trigger] proof_row(rows, t) is Some ==> proof_row(done.0, t) == proof_row(rows, t)
            &&& forall|t: Seq<u8>| #[trigger]
                proof_row(done.0, t) is Some && proof_row(rows, t) is None ==> exists|k: int|
                    0 <= k < recorded.len() && (#[trigger] recorded[k]).height == height
                        && recorded[k].txid@ == t
        }),
    decreases recorded.len(),
{
    let done = materialized(rows, notes, header, txids, height, recorded);
    if recorded.len() > 0 {
        let init = recorded.drop_last();
        let before = materialized(rows, notes, header, txids, height, init);
        let r = recorded.last();
        let last = recorded.len() - 1;
        law_recorded_actions_are_provable(rows, notes, header, txids, height, init);
        law_stored_branch_leads_to_root(txids, r.txid);
        assert(recorded[last] == r);
        assert forall|k: int| 0 <= k < init.len() implies #[trigger] recorded[k] == init[k] by {}
        if let Some(txid) = before.1 {
            let k = choose|k: int|
                0 <= k < init.len() && #[trigger] init[k] == (Recorded { txid, height }) && !txids.contains(txid)
                    && forall|i: int| 0 <= i < k ==> is_listed(#[trigger] init[i], txids, height);
            assert(recorded[k] == init[k]);
            assert forall|i: int| 0 <= i < k implies is_listed(#[trigger] recorded[i], txids, height) by {
                assert(is_listed(init[i], txids, height));
            }
        } else {
            assert forall|i: int| 0 <= i < last implies is_listed(#[trigger] recorded[i], txids, height) by {
                assert(is_listed(init[i], txids, height));
            }
            if r.height == height && position_of(txids, r.txid) is Some {
                lemma_stored(rows, before.0, notes, header, txids, height, r);
            }
        }
        assert forall|t: Seq<u8>| #[trigger] proof_row(done.0, t) is Some && proof_row(rows, t) is None implies exists|
            k: int,
        |
            0 <= k < recorded.len() && (#[trigger] recorded[k]).height == height && recorded[k].txid@ == t by {
            if proof_row(before.0, t) is Some {
                let k = choose|k: int|
                    0 <= k < init.len() && (#[trigger] init[k]).height == height && init[k].txid@ == t;
                assert(recorded[k].height == height && recorded[k].txid@ == t);
            } else {
                assert(recorded[last].height == height && recorded[last].txid@ == t);
            }
        }
        assert forall|t: Seq<u8>| #[trigger] proof_row(rows, t) is Some implies proof_row(done.0, t) == proof_row(
            rows,
            t,
        ) by {
            assert(proof_row(before.0, t) == proof_row(rows, t));
        }
        if done.1 is None {
            assert forall|k: int| 0 <= k < recorded.len() && (#[trigger] recorded[k]).height == height implies (
            proof_row(done.0, recorded[k].txid@) matches Some(row) && (proof_row(rows, recorded[k].txid@)
                == Some(row) || proves_inclusion(
                row,
                recorded[k].txid,
                note_bytes(notes, recorded[k].txid)->0,
                header,
                txids,
                height,
            ))) by {
                if k < last {
                    assert(init[k].height == height);
                } else if proof_row(before.0, r.txid@) is Some && proof_row(rows, r.txid@) is None {
                    let j = choose|j: int|
                        0 <= j < init.len() && (#[trigger] init[j]).height == height && init[j].txid@
                            == r.txid@;
                    lemma_as_array32(init[j].txid);
                    lemma_as_array32(r.txid);
                    assert(init[j].txid == r.txid);
                }
            }
        }
    }
}

/// One stored proof: what was there stays, and the transaction has its own.
#[verifier::rlimit(40)]
proof fn lemma_stored(
    rows: Seq<ProofRowView>,
    before: Seq<ProofRowView>,
    notes: Seq<NameNoteView>,
    header: Seq<u8>,
    txids: Seq<[u8; 32]>,
    height: u32,
    r: Recorded,
)
    requires
        txids.len() <= u32::MAX,
        r.height == height,
        position_of(txids, r.txid) is Some,
    ensures
        ({
            let pos = position_of(txids, r.txid)->0;
            let raw = note_bytes(notes, r.txid)->0;
            let stored = with_material(
                before,
                r.txid,
                height,
                raw,
                header,
                branch_at(txids, pos),
                pos as u32,
            );
            &&& forall|t: Seq<u8>| #[trigger] proof_row(before, t) is Some ==> proof_row(stored, t)
                == proof_row(before, t)
            &&& forall|t: Seq<u8>| t != r.txid@ ==> #[trigger] proof_row(stored, t) == proof_row(before, t)
            &&& proof_row(before, r.txid@) is None ==> (proof_row(stored, r.txid@) matches Some(row)
                && proves_inclusion(row, r.txid, raw, header, txids, height))
        }),
{
    let pos = position_of(txids, r.txid)->0;
    let raw = note_bytes(notes, r.txid)->0;
    let branch = branch_at(txids, pos);
    let stored = with_material(before, r.txid, height, raw, header, branch, pos as u32);
    assert forall|t: Seq<u8>| t != r.txid@ implies #[trigger] proof_row(stored, t) == proof_row(before, t) by {
        law_material_is_stored_once(before, r.txid, height, raw, header, branch, pos as u32, t);
    }
    if proof_row(before, r.txid@) is None {
        lemma_stored_row_proves(before, r.txid, raw, header, txids, height);
    }
}

// ── the scan ────────────────────────────────────────────────────────────────

/// A reorg rewinds by the distance due, or to the start; the next one in a row
/// by twice that, as far as 32 bits go; an applied batch makes it one block
/// again. What was rewound is scanned anew from the checkpoint.
pub proof fn law_reorgs_rewind_ever_further(s: Scan, at: u32)
    ensures
        s.phase is Streaming ==> (scan_phase(s, ScanEvent::Reorg { at }) matches ScanPhase::Rewinding { to }
            && (if at < s.backoff.rewind_by {
            to == 0
        } else {
            to + s.backoff.rewind_by == at
        })),
        s.phase is Streaming ==> (if 2 * s.backoff.rewind_by <= u32::MAX {
            scan_rewind(s, ScanEvent::Reorg { at }) == 2 * s.backoff.rewind_by
        } else {
            scan_rewind(s, ScanEvent::Reorg { at }) == u32::MAX
        }),
        s.phase is Rewinding ==> scan_phase(s, ScanEvent::Rewound) is Resuming && scan_rewind(
            s,
            ScanEvent::Rewound,
        ) == s.backoff.rewind_by,
        s.phase is Applying ==> scan_phase(s, ScanEvent::Applied) is Streaming && scan_rewind(
            s,
            ScanEvent::Applied,
        ) == 1,
{
}

/// Every phase goes on: a checkpoint below the tip opens a stream, an open
/// stream is read, a batch that is not empty is applied, and a failure ends the
/// scan.
pub proof fn law_scan_goes_on(s: Scan)
    ensures
        s.phase is Opening ==> scan_phase(s, ScanEvent::Opened) is Streaming,
        s.phase is Streaming ==> scan_phase(s, ScanEvent::Batch { empty: false }) is Applying && scan_phase(
            s,
            ScanEvent::Batch { empty: true },
        ) is Streaming && scan_phase(s, ScanEvent::Ended) is Finished,
        !(s.phase is Finished) ==> scan_phase(s, ScanEvent::Failed) is Failed,
        s.phase is Resuming && s.birthday <= s.tip ==> scan_phase(s, ScanEvent::Checkpoint { last: None }) == (
        ScanPhase::Opening { start: s.birthday, seam: None }),
        forall|c: crate::index::Cursor|
            s.phase is Resuming && c.height < s.tip ==> #[trigger] scan_phase(
                s,
                ScanEvent::Checkpoint { last: Some(c) },
            ) == (ScanPhase::Opening { start: (c.height + 1) as u32, seam: c.hash }),
{
}

/// Blocks are visited from the lowest up, each once.
pub proof fn law_visited_heights_ascend(recorded: Seq<Recorded>, i: int, j: int)
    requires
        0 <= i < j < heights_of(recorded).len(),
    ensures
        heights_of(recorded)[i] < heights_of(recorded)[j],
{
    law_heights_ascend(recorded);
    assert(height_order()(heights_of(recorded)[i], heights_of(recorded)[j]));
    assert(heights_of(recorded)[i] != heights_of(recorded)[j]);
}

/// The full viewing key's incoming key is scanned with where there is one, and
/// otherwise the incoming viewing key.
pub proof fn law_full_key_comes_first(full: Option<[u8; 64]>, incoming: Option<[u8; 64]>)
    ensures
        full matches Some(k) ==> scan_key(full, incoming) == Ok::<[u8; 64], NoOrchardKey>(k),
        full is None ==> (incoming matches Some(k) ==> scan_key(full, incoming) == Ok::<
            [u8; 64],
            NoOrchardKey,
        >(k)),
        full is None && incoming is None ==> scan_key(full, incoming) is Err,
{
}

} // verus!
