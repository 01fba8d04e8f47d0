//! What the sync loop keeps of a batch, and how it goes on.

use vstd::prelude::*;
use vstd::utf8::*;

use super::batch::{taken, BatcherView, Step};
use super::engine::{next_phase, next_rewind, Event, Phase, ResumeInfo};
use super::observe::{
    all_decrypted, found_note, found_notes, fvk_hits, is_kept, zns_prefix, FoundView,
};
use crate::decrypt::{
    compact_recipient, compact_recipient_fvk, received_note_fvk, sent_note_fvk, CompactParts,
};
use crate::memo::laws::{joined, law_memo_is_its_spelling, statement_fields};
use crate::memo::lifecycle_memo;
use crate::names::Cursor;
use crate::net::Net;
use crate::observe::recovery::{lemma_fetched, lemma_not_fetched};
use crate::observe::{ivk_hits, Candidate, FetchedView};
use crate::text::has_prefix;

verus! {

/// The memo begins with the four bytes that every lifecycle memo begins with:
/// the letters `ZNS` and a colon.
pub open spec fn looks_like_a_name_note(memo: Seq<u8>) -> bool {
    memo.len() >= 4 && memo[0] == 90 && memo[1] == 78 && memo[2] == 83 && memo[3] == 58
}

proof fn lemma_prefix(memo: Seq<u8>)
    ensures
        has_prefix(memo, zns_prefix()) <==> looks_like_a_name_note(memo),
{
    if memo.len() >= 4 {
        let head = memo.take(4);
        let p = zns_prefix();
        assert(head[0] == memo[0] && head[1] == memo[1] && head[2] == memo[2] && head[3] == memo[3]);
        assert(p[0] == 90 && p[1] == 78 && p[2] == 83 && p[3] == 58);
        if looks_like_a_name_note(memo) {
            assert(head =~= p);
        }
    }
}

/// The bytes of a text that begins `ZNS:`.
proof fn lemma_encoded_prefix(text: Seq<char>)
    requires
        text.len() >= 4,
        text[0] == 'Z',
        text[1] == 'N',
        text[2] == 'S',
        text[3] == ':',
    ensures
        looks_like_a_name_note(encode_utf8(text)),
{
    assert((90u32 & 0x7F) as u8 == 90) by (bit_vector);
    assert((78u32 & 0x7F) as u8 == 78) by (bit_vector);
    assert((83u32 & 0x7F) as u8 == 83) by (bit_vector);
    assert((58u32 & 0x7F) as u8 == 58) by (bit_vector);
    let a = text.drop_first();
    let b = a.drop_first();
    let c = b.drop_first();
    assert(encode_scalar(text[0] as u32) =~= seq![90u8]);
    assert(encode_scalar(a[0] as u32) =~= seq![78u8]);
    assert(encode_scalar(b[0] as u32) =~= seq![83u8]);
    assert(encode_scalar(c[0] as u32) =~= seq![58u8]);
    assert(encode_utf8(text) == seq![90u8] + encode_utf8(a));
    assert(encode_utf8(a) == seq![78u8] + encode_utf8(b));
    assert(encode_utf8(b) == seq![83u8] + encode_utf8(c));
    assert(encode_utf8(c) == seq![58u8] + encode_utf8(c.drop_first()));
}

/// No lifecycle memo escapes the test for one: each begins with the bytes that
/// ask for the proof of a self-send.
pub proof fn law_lifecycle_memos_ask_for_a_self_send(memo: Seq<u8>)
    ensures
        lifecycle_memo(memo) is Some ==> looks_like_a_name_note(memo) && !is_kept(memo, false),
{
    if let Some(m) = lifecycle_memo(memo) {
        law_memo_is_its_spelling(memo);
        reveal_strlit("ZNS");
        let fields = statement_fields(m);
        let text = joined(fields);
        lemma_joined_begins(fields);
        assert(fields[0] == "ZNS"@);
        lemma_encoded_prefix(text);
        lemma_prefix(memo);
    }
}

/// Fields joined by colons begin with the first field and a colon.
proof fn lemma_joined_begins(fields: Seq<Seq<char>>)
    requires
        fields.len() >= 2,
    ensures
        ({
            let text = joined(fields);
            let n = fields[0].len() as int;
            &&& text.len() > n
            &&& text[n] == ':'
            &&& forall|i: int| 0 <= i < n ==> #[trigger] text[i] == fields[0][i]
        }),
    decreases fields.len(),
{
    let init = fields.drop_last();
    if fields.len() == 2 {
        assert(joined(init) == fields[0]);
    } else {
        lemma_joined_begins(init);
        assert(init[0] == fields[0]);
    }
}

/// A candidate whose transaction was fetched, at `k`, is found exactly where the
/// action at its own index decrypts, under the branch of the height that the
/// transaction was mined at, and is no name note, or one that the key proves it
/// sent itself. What is found tells that action, its transaction and its height.
pub proof fn law_found_notes_are_received(
    net: Net,
    fvk: [u8; 96],
    fetched: Seq<FetchedView>,
    c: Candidate,
    k: int,
)
    requires
        0 <= k < fetched.len(),
        fetched[k].txid == c.txid,
        forall|i: int| 0 <= i < k ==> (#[trigger] fetched[i]).txid != c.txid,
    ensures
        ({
            let tx = fetched[k];
            let branch = net.branch(tx.height);
            let sent = sent_note_fvk(fvk, tx.data, branch, c.action_index) is Some;
            let seen = all_decrypted(found_notes(net, fvk, fetched, seq![c]));
            match received_note_fvk(fvk, tx.data, branch, c.action_index) {
                None => seen.len() == 0,
                Some(r) => if looks_like_a_name_note(r.memo@) && !sent {
                    seen.len() == 0
                } else {
                    seen.len() == 1 && seen[0].parts == r.note.spec_parts() && seen[0].cmx == r.cmx
                        && seen[0].memo == r.memo@ && seen[0].txid == tx.txid && seen[0].height == tx.height
                        && seen[0].action_index == c.action_index && seen[0].raw_tx == tx.data
                },
            }
        }),
{
    lemma_fetched(fetched, c.txid, k);
    lemma_found_alone(net, fvk, fetched, c);
    let branch = net.branch(fetched[k].height);
    if let Some(r) = received_note_fvk(fvk, fetched[k].data, branch, c.action_index) {
        lemma_prefix(r.memo@);
    }
}

proof fn lemma_found_alone(net: Net, fvk: [u8; 96], fetched: Seq<FetchedView>, c: Candidate)
    ensures
        match found_note(net, fvk, fetched, c) {
            None => found_notes(net, fvk, fetched, seq![c]).len() == 0,
            Some(n) => found_notes(net, fvk, fetched, seq![c]) == seq![n],
        },
{
    let none = seq![c].drop_last();
    assert(none.len() == 0);
    assert(found_notes(net, fvk, fetched, none) =~= Seq::empty());
    if let Some(n) = found_note(net, fvk, fetched, c) {
        assert(Seq::<FoundView>::empty().push(n) =~= seq![n]);
    }
}

/// A candidate whose transaction was not fetched is not found.
pub proof fn law_unfetched_candidates_are_not_found(
    net: Net,
    fvk: [u8; 96],
    fetched: Seq<FetchedView>,
    c: Candidate,
)
    requires
        forall|i: int| 0 <= i < fetched.len() ==> (#[trigger] fetched[i]).txid != c.txid,
    ensures
        found_notes(net, fvk, fetched, seq![c]).len() == 0,
{
    lemma_not_fetched(fetched, c.txid);
    lemma_found_alone(net, fvk, fetched, c);
}

/// What is found keeps the candidates' order.
pub proof fn law_finding_keeps_order(
    net: Net,
    fvk: [u8; 96],
    fetched: Seq<FetchedView>,
    first: Seq<Candidate>,
    second: Seq<Candidate>,
)
    ensures
        found_notes(net, fvk, fetched, first + second) == found_notes(net, fvk, fetched, first)
            + found_notes(net, fvk, fetched, second),
    decreases second.len(),
{
    if second.len() == 0 {
        assert(first + second =~= first);
        assert(found_notes(net, fvk, fetched, first) + Seq::<FoundView>::empty() =~= found_notes(
            net,
            fvk,
            fetched,
            first,
        ));
    } else {
        law_finding_keeps_order(net, fvk, fetched, first, second.drop_last());
        assert((first + second).drop_last() =~= first + second.drop_last());
        assert((first + second).last() == second.last());
        let a = found_notes(net, fvk, fetched, first);
        let b = found_notes(net, fvk, fetched, second.drop_last());
        if let Some(n) = found_note(net, fvk, fetched, second.last()) {
            assert((a + b).push(n) =~= a + b.push(n));
        }
    }
}

// ── the loop ────────────────────────────────────────────────────────────────

/// A reorg rewinds by the distance due, or to the start, and the next in a row
/// goes twice as far; an applied batch makes it one block again. Every rewind
/// and every reconnection resumes from the checkpoint.
pub proof fn law_loop_gets_over_reorgs(at: u32, by: u32)
    ensures
        next_phase(Phase::Streaming, Event::Reorg { at }, by) matches Phase::Rewinding { to } && (if at < by {
            to == 0
        } else {
            to + by == at
        }),
        2 * by <= u32::MAX ==> next_rewind(Phase::Streaming, Event::Reorg { at }, by) == 2 * by,
        2 * by > u32::MAX ==> next_rewind(Phase::Streaming, Event::Reorg { at }, by) == u32::MAX,
        forall|to: u32| #[trigger]
            next_phase(Phase::Rewinding { to }, Event::Rewound, by) is Resuming && next_rewind(
                Phase::Rewinding { to },
                Event::Rewound,
                by,
            ) == by,
        next_phase(Phase::Reconnecting, Event::Reconnected, by) is Resuming,
        next_phase(Phase::Streaming, Event::StreamEnded, by) is Resuming,
        next_phase(Phase::Streaming, Event::StreamFailed, by) is Reconnecting,
        forall|scanned: Cursor, live: Cursor| #[trigger]
            next_rewind(Phase::Applying { scanned, live }, Event::Applied, by) == 1,
{
}

/// A resumed loop opens its stream as soon as the tip is known and not below
/// the start, from where it resumed to that tip; until then it sleeps and polls.
pub proof fn law_loop_opens_up_to_the_tip(resume: ResumeInfo, tip: Cursor, by: u32)
    ensures
        next_phase(Phase::Resuming, Event::Resumed { resume }, by) == (Phase::Waiting { resume }),
        tip.0 > 0 && resume.start_height <= tip.0 ==> next_phase(
            Phase::Waiting { resume },
            Event::Tip { tip },
            by,
        ) == (Phase::Opening { resume, tip: tip.0 }),
        tip.0 == 0 || resume.start_height > tip.0 ==> next_phase(
            Phase::Waiting { resume },
            Event::Tip { tip },
            by,
        ) == (Phase::Sleeping { resume }),
        next_phase(Phase::Sleeping { resume }, Event::Slept, by) == (Phase::Waiting { resume }),
        next_phase(Phase::Opening { resume, tip: tip.0 }, Event::Opened, by) is Streaming,
{
}

/// A batch is applied at the position it reached, against the tip polled for it:
/// polled, observed and applied in this order, and then the stream goes on.
pub proof fn law_batch_is_polled_observed_applied(scanned: Cursor, live: Cursor, by: u32)
    ensures
        next_phase(Phase::Streaming, Event::Batch { scanned: Some(scanned) }, by) == (Phase::Polling {
            scanned,
        }),
        next_phase(Phase::Streaming, Event::Batch { scanned: None }, by) is Streaming,
        next_phase(Phase::Polling { scanned }, Event::Tip { tip: live }, by) == (Phase::Observing {
            scanned,
            live,
        }),
        next_phase(Phase::Observing { scanned, live }, Event::Observed, by) == (Phase::Applying {
            scanned,
            live,
        }),
        next_phase(Phase::Applying { scanned, live }, Event::Applied, by) is Streaming,
        next_phase(Phase::Polling { scanned }, Event::TipFailed, by) is Reconnecting,
        next_phase(Phase::Observing { scanned, live }, Event::ObserveFailed, by) is Reconnecting,
        next_phase(Phase::Applying { scanned, live }, Event::ApplyFailed, by) is Stopped,
{
}

/// A block that is kept counts towards the batch, which is full from 100,000
/// outputs on; the next must build on its hash.
pub proof fn law_batches_fill_up(
    s: BatcherView,
    height: u32,
    hash: Seq<u8>,
    prev_hash: Seq<u8>,
    outputs: usize,
)
    requires
        s.seam is None || s.seam == Some(prev_hash),
        s.outputs + outputs <= usize::MAX,
    ensures
        ({
            let (after, step) = taken(s, height, hash, prev_hash, outputs);
            &&& after.seam == Some(hash)
            &&& after.outputs == s.outputs + outputs
            &&& !after.empty
            &&& after.reorg == s.reorg
            &&& step is Fill <==> s.outputs + outputs >= 100_000
            &&& step is Keep <==> s.outputs + outputs < 100_000
        }),
{
}

/// An action hits exactly where a key decrypts it: a scan with an incoming key by
/// that key, an account's by its full viewing key.
pub proof fn law_hits_are_decryptions(ivk: [u8; 64], fvk: [u8; 96], p: CompactParts)
    ensures
        ivk_hits(ivk)(p) <==> compact_recipient(ivk, p) is Some,
        fvk_hits(fvk)(p) <==> compact_recipient_fvk(fvk, p) is Some,
{
}

/// A block that breaks the chain leaves the batch as it is: its blocks, its
/// outputs and the hash to build on. A break with blocks in hand is kept to be
/// reported, at its height; one with none is reported at once.
pub proof fn law_a_break_leaves_the_batch(
    s: BatcherView,
    height: u32,
    hash: Seq<u8>,
    prev_hash: Seq<u8>,
    outputs: usize,
    seam: Seq<u8>,
)
    requires
        s.seam == Some(seam),
        seam != prev_hash,
    ensures
        ({
            let (after, step) = taken(s, height, hash, prev_hash, outputs);
            &&& after.seam == s.seam && after.outputs == s.outputs && after.empty == s.empty
            &&& s.empty ==> step == (Step::Reorg { at: height }) && after.reorg == s.reorg
            &&& !s.empty ==> step == Step::Hold && after.reorg == Some(height)
        }),
{
}

} // verus!
