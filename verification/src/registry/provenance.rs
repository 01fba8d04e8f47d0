//! Where the registry's events come from: nothing is recorded that no output of
//! a transaction carries.

use vstd::prelude::*;

use super::admission::{
    block_candidates, candidate_name, candidate_of, candidate_order, consider_all,
    consideration_order, current_binding, derive_block, derive_group, derive_groups, derived,
    empty_staging, goes_first, goes_later, output_candidates, tx_height, Binding, CandidateView,
    EventRow, NoteRecord, StagingView, TxView,
};
use super::laws::lemma_logged_rows;
use super::notes::{note_opening, RelaxedIronwoodOutput};
use super::state::{after_batch, Cursor, DbView};
use crate::order::{lemma_filter_keeps, lemma_run_len, lemma_sort_keeps, run_len, sort_by};
use crate::table::logged;

verus! {

/// The output carries the record: it is a self-send of its transaction, its
/// memo says what the record says, and its note commits to the record under
/// the commitment that the action published.
pub open spec fn carries(tx: TxView, o: RelaxedIronwoodOutput, r: NoteRecord) -> bool {
    &&& o.is_sent
    &&& r.txid == tx.txid@
    &&& r.height == tx.height
    &&& r.cmx == o.cmx@
    &&& r.action_index == o.index as i64
    &&& o.nullifier matches Some(nf) && r.extra.nullifier == nf@
    &&& match (o.memo, candidate_of(o, tx.txid)) {
        (Some(memo), Some(c)) => {
            &&& r.extra.memo == memo@
            &&& r.name == c.note.name
            &&& r.ua == c.note.ua
            &&& r.action == c.note.action.text()
            &&& r.extra.expires_at == c.note.expiry()
            &&& r.extra.prev_rcm == c.note.disclosed_prev()@
            &&& note_opening(c.note, o) matches Some(opening) && r.extra.psi == opening.0@ && r.rcm
                == opening.1@
        },
        _ => false,
    }
}

/// An output of one of the transactions carries the record.
pub open spec fn is_carried(txs: Seq<TxView>, r: NoteRecord) -> bool {
    exists|tx: TxView, o: RelaxedIronwoodOutput|
        txs.contains(tx) && tx.relaxed.contains(o) && #[trigger] carries(tx, o, r)
}

pub open spec fn all_carried(txs: Seq<TxView>, records: Seq<NoteRecord>) -> bool {
    forall|i: int| 0 <= i < records.len() ==> is_carried(txs, #[trigger] records[i])
}

/// The candidate is that of an output of one of the transactions at `height`.
pub open spec fn from(txs: Seq<TxView>, height: u32) -> spec_fn(CandidateView) -> bool {
    |c: CandidateView|
        exists|tx: TxView, o: RelaxedIronwoodOutput|
            txs.contains(tx) && tx.relaxed.contains(o) && tx.height == height && #[trigger] candidate_of(
                o,
                tx.txid,
            ) == Some(c)
}

proof fn lemma_outputs_from(txs: Seq<TxView>, tx: TxView, outputs: Seq<RelaxedIronwoodOutput>)
    requires
        txs.contains(tx),
        forall|k: int| 0 <= k < outputs.len() ==> tx.relaxed.contains(#[trigger] outputs[k]),
    ensures
        forall|i: int|
            0 <= i < output_candidates(outputs, tx.txid).len() ==> from(txs, tx.height)(
                #[trigger] output_candidates(outputs, tx.txid)[i],
            ),
    decreases outputs.len(),
{
    if outputs.len() > 0 {
        let init = outputs.drop_last();
        assert forall|k: int| 0 <= k < init.len() implies tx.relaxed.contains(#[trigger] init[k]) by {
            assert(init[k] == outputs[k]);
        }
        lemma_outputs_from(txs, tx, init);
        let before = output_candidates(init, tx.txid);
        let all = output_candidates(outputs, tx.txid);
        let last = outputs[outputs.len() - 1];
        assert(tx.relaxed.contains(last));
        assert forall|i: int| 0 <= i < all.len() implies from(txs, tx.height)(#[trigger] all[i]) by {
            if i < before.len() {
                assert(all[i] == before[i]);
            } else {
                assert(candidate_of(last, tx.txid) == Some(all[i]));
            }
        }
    }
}

pub proof fn lemma_block_from(txs: Seq<TxView>, block: Seq<TxView>, height: u32)
    requires
        forall|i: int| 0 <= i < block.len() ==> txs.contains(#[trigger] block[i]) && block[i].height == height,
    ensures
        forall|i: int|
            0 <= i < block_candidates(block).len() ==> from(txs, height)(
                #[trigger] block_candidates(block)[i],
            ),
    decreases block.len(),
{
    if block.len() > 0 {
        let init = block.drop_last();
        let tx = block[block.len() - 1];
        assert forall|i: int| 0 <= i < init.len() implies txs.contains(#[trigger] init[i]) && init[i].height
            == height by {
            assert(init[i] == block[i]);
        }
        lemma_block_from(txs, init, height);
        assert(txs.contains(tx) && tx.height == height);
        lemma_outputs_from(txs, tx, tx.relaxed);
        let a = block_candidates(init);
        let b = output_candidates(tx.relaxed, tx.txid);
        let all = block_candidates(block);
        assert forall|i: int| 0 <= i < all.len() implies from(txs, height)(#[trigger] all[i]) by {
            if i < a.len() {
                assert(all[i] == a[i]);
            } else {
                assert(all[i] == b[i - a.len()]);
            }
        }
    }
}

proof fn lemma_consider_all_carried(
    txs: Seq<TxView>,
    events: Seq<EventRow>,
    height: u32,
    group: Seq<CandidateView>,
    start: Option<Binding>,
    st: StagingView,
    order: Seq<CandidateView>,
)
    requires
        all_carried(txs, st.staged),
        forall|i: int| 0 <= i < order.len() ==> from(txs, height)(#[trigger] order[i]),
    ensures
        all_carried(txs, consider_all(events, height, group, start, st, order).0.staged),
    decreases order.len(),
{
    if order.len() > 0 {
        let init = order.drop_last();
        assert forall|i: int| 0 <= i < init.len() implies from(txs, height)(#[trigger] init[i]) by {
            assert(init[i] == order[i]);
        }
        lemma_consider_all_carried(txs, events, height, group, start, st, init);
        let c = order[order.len() - 1];
        assert(from(txs, height)(c));
        let before = consider_all(events, height, group, start, st, init).0.staged;
        let next = consider_all(events, height, group, start, st, order).0.staged;
        let (tx, o) = choose|tx: TxView, o: RelaxedIronwoodOutput|
            txs.contains(tx) && tx.relaxed.contains(o) && tx.height == height && #[trigger] candidate_of(
                o,
                tx.txid,
            ) == Some(c);
        assert forall|i: int| 0 <= i < next.len() implies is_carried(txs, #[trigger] next[i]) by {
            if i < before.len() {
                assert(next[i] == before[i]);
            } else {
                assert(carries(tx, o, next[i]));
            }
        }
    }
}

proof fn lemma_groups_carried(
    txs: Seq<TxView>,
    events: Seq<EventRow>,
    names: Seq<NoteRecord>,
    height: u32,
    st: StagingView,
    candidates: Seq<CandidateView>,
)
    requires
        all_carried(txs, st.staged),
        forall|i: int| 0 <= i < candidates.len() ==> from(txs, height)(#[trigger] candidates[i]),
        derive_groups(events, names, height, st, candidates) is Ok,
    ensures
        all_carried(txs, derive_groups(events, names, height, st, candidates)->Ok_0.staged),
    decreases candidates.len(),
{
    if candidates.len() > 0 {
        lemma_run_len(candidates, candidate_name());
        let n = run_len(candidates, candidate_name()) as int;
        let group = candidates.take(n);
        let start = current_binding(names, st.pending, group[0].note.name)->Ok_0;
        let p = from(txs, height);
        assert forall|i: int| 0 <= i < group.len() implies p(#[trigger] group[i]) by {
            assert(group[i] == candidates[i]);
        }
        lemma_filter_keeps(group, goes_first(start), p);
        lemma_filter_keeps(group, goes_later(start), p);
        let a = group.filter(goes_first(start));
        let b = group.filter(goes_later(start));
        let order = consideration_order(group, start);
        assert forall|i: int| 0 <= i < order.len() implies p(#[trigger] order[i]) by {
            if i < a.len() {
                assert(p(a[i]));
            } else {
                assert(p(b[i - a.len()]));
            }
        }
        lemma_consider_all_carried(txs, events, height, group, start, st, order);
        let rest = candidates.skip(n);
        assert forall|i: int| 0 <= i < rest.len() implies from(txs, height)(#[trigger] rest[i]) by {
            assert(rest[i] == candidates[n + i]);
        }
        lemma_groups_carried(
            txs,
            events,
            names,
            height,
            derive_group(events, names, height, st, group)->Ok_0,
            rest,
        );
    }
}

proof fn lemma_derived_carried(
    txs: Seq<TxView>,
    events: Seq<EventRow>,
    names: Seq<NoteRecord>,
    st: StagingView,
    part: Seq<TxView>,
)
    requires
        all_carried(txs, st.staged),
        forall|i: int| 0 <= i < part.len() ==> txs.contains(#[trigger] part[i]),
        derived(events, names, st, part) is Ok,
    ensures
        all_carried(txs, derived(events, names, st, part)->Ok_0.staged),
    decreases part.len(),
{
    if part.len() > 0 {
        lemma_run_len(part, tx_height());
        let n = run_len(part, tx_height()) as int;
        let block = part.take(n);
        let height = block[0].height;
        assert forall|i: int| 0 <= i < block.len() implies txs.contains(#[trigger] block[i])
            && block[i].height == height by {
            assert(block[i] == part[i]);
            assert(tx_height()(part[i]) == tx_height()(part[0]));
        }
        lemma_block_from(txs, block, height);
        lemma_sort_keeps(block_candidates(block), candidate_order(), from(txs, height));
        lemma_groups_carried(
            txs,
            events,
            names,
            height,
            st,
            sort_by(block_candidates(block), candidate_order()),
        );
        let rest = part.skip(n);
        assert forall|i: int| 0 <= i < rest.len() implies txs.contains(#[trigger] rest[i]) by {
            assert(rest[i] == part[n + i]);
        }
        lemma_derived_carried(txs, events, names, derive_block(events, names, st, block)->Ok_0, rest);
    }
}

/// Nothing is forged: every event that a batch adds is carried by an output of
/// one of its transactions, so it is a self-send that passed the check against
/// the commitment on chain. The events that were there stay as they are.
pub proof fn law_nothing_is_forged(db: DbView, scanned: Cursor, txs: Seq<TxView>)
    ensures
        after_batch(db, scanned, txs) matches Ok(next) ==> db.events.len() <= next.events.len()
            && next.events.take(db.events.len() as int) == db.events && forall|i: int|
            db.events.len() <= i < next.events.len() ==> is_carried(txs, (#[trigger] next.events[i]).record),
{
    if let Ok(next) = after_batch(db, scanned, txs) {
        let staged = derived(db.events, db.names, empty_staging(), txs)->Ok_0.staged;
        assert forall|i: int| 0 <= i < txs.len() implies txs.contains(#[trigger] txs[i]) by {}
        lemma_derived_carried(txs, db.events, db.names, empty_staging(), txs);
        lemma_logged_rows(db.events, staged);
        assert(next.events.take(db.events.len() as int) =~= db.events) by {
            assert forall|i: int| 0 <= i < db.events.len() implies next.events[i] == db.events[i] by {
                assert(logged(db.events, staged)[i] == db.events[i]);
            }
        }
        assert forall|i: int| db.events.len() <= i < next.events.len() implies is_carried(
            txs,
            (#[trigger] next.events[i]).record,
        ) by {
            let k = i - db.events.len();
            assert(logged(db.events, staged)[db.events.len() + k].record == staged[k]);
        }
    }
}

} // verus!
