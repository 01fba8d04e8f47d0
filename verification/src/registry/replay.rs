//! Rescanning: what is recorded already, or is refused, changes nothing.

use vstd::prelude::*;

use super::admission::{
    admission, block_candidates, candidate_name, candidate_of, candidate_order, consider_all,
    consideration_order, current_binding, derive_groups, derived, empty_staging, goes_first,
    goes_later, read_binding, tx_height, Binding, CandidateView, EventRow, NoteRecord, StagingView,
    TxView,
};
use super::laws::{chained, lemma_states_hold};
use super::notes::{note_opening, RelaxedIronwoodOutput};
use super::provenance::{from, lemma_block_from};
use super::state::{after_batch, Cursor, DbView};
use crate::kernel::{Action, Tip};
use crate::log::has_room;
use crate::order::{lemma_filter_keeps, lemma_run_len, lemma_sort_keeps, run_len, sort_by};
use crate::store::StoreError;

verus! {

/// A gate of admission refuses the candidate in the state `b` of its name,
/// whatever else is in its block.
pub open spec fn refuses(b: Option<Binding>, c: CandidateView) -> bool {
    admission(b, c.note, c.output, note_opening(c.note, c.output), true) is None
}

/// The record is that of the candidate, in a block at `height`.
pub open spec fn is_event_of(r: NoteRecord, height: u32, c: CandidateView) -> bool {
    &&& r.name == c.note.name
    &&& r.height == height as i64
    &&& r.txid == c.txid@
    &&& r.action_index == c.output.index as i64
}

/// The log holds the candidate's event.
pub open spec fn is_recorded(events: Seq<EventRow>, height: u32, c: CandidateView) -> bool {
    exists|i: int| 0 <= i < events.len() && is_event_of((#[trigger] events[i]).record, height, c)
}

/// The candidate is recorded already, or the state of its name refuses it.
pub open spec fn is_idle(events: Seq<EventRow>, names: Seq<NoteRecord>, height: u32) -> spec_fn(
    CandidateView,
) -> bool {
    |c: CandidateView|
        read_binding(names, c.note.name) matches Ok(b) && (is_recorded(events, height, c) || refuses(b, c))
}

/// Every name note of the transactions is idle.
pub open spec fn all_idle(events: Seq<EventRow>, names: Seq<NoteRecord>, txs: Seq<TxView>) -> bool {
    forall|tx: TxView, o: RelaxedIronwoodOutput|
        txs.contains(tx) && tx.relaxed.contains(o) ==> (#[trigger] candidate_of(o, tx.txid) matches Some(c)
            ==> is_idle(events, names, tx.height)(c))
}

proof fn lemma_order_idle(
    events: Seq<EventRow>,
    height: u32,
    group: Seq<CandidateView>,
    start: Option<Binding>,
    order: Seq<CandidateView>,
)
    requires
        forall|i: int|
            0 <= i < order.len() ==> is_recorded(events, height, #[trigger] order[i]) || refuses(
                start,
                order[i],
            ),
    ensures
        consider_all(events, height, group, start, empty_staging(), order) == (empty_staging(), start),
    decreases order.len(),
{
    if order.len() > 0 {
        let init = order.drop_last();
        assert forall|i: int| 0 <= i < init.len() implies is_recorded(events, height, #[trigger] init[i])
            || refuses(start, init[i]) by {
            assert(order[i] == init[i]);
        }
        lemma_order_idle(events, height, group, start, init);
        let c = order[order.len() - 1];
        if is_recorded(events, height, c) {
            let i = choose|i: int|
                0 <= i < events.len() && is_event_of((#[trigger] events[i]).record, height, c);
            assert(events[i].record.name == c.note.name);
        } else {
            assert(refuses(start, c));
        }
    }
}

proof fn lemma_groups_idle(
    events: Seq<EventRow>,
    names: Seq<NoteRecord>,
    height: u32,
    candidates: Seq<CandidateView>,
)
    requires
        forall|i: int| 0 <= i < candidates.len() ==> is_idle(events, names, height)(#[trigger] candidates[i]),
    ensures
        derive_groups(events, names, height, empty_staging(), candidates) == Ok::<
            StagingView,
            StoreError,
        >(empty_staging()),
    decreases candidates.len(),
{
    if candidates.len() > 0 {
        lemma_run_len(candidates, candidate_name());
        let n = run_len(candidates, candidate_name()) as int;
        let group = candidates.take(n);
        let name = group[0].note.name;
        assert(group[0] == candidates[0]);
        assert(is_idle(events, names, height)(candidates[0]));
        let start = current_binding(names, empty_staging().pending, name)->Ok_0;
        let order = consideration_order(group, start);
        let p = |c: CandidateView| is_recorded(events, height, c) || refuses(start, c);
        assert forall|i: int| 0 <= i < group.len() implies p(#[trigger] group[i]) by {
            assert(candidate_name()(candidates[i]) == candidate_name()(candidates[0]));
            assert(is_idle(events, names, height)(candidates[i]));
        }
        lemma_filter_keeps(group, goes_first(start), p);
        lemma_filter_keeps(group, goes_later(start), p);
        let a = group.filter(goes_first(start));
        let b = group.filter(goes_later(start));
        assert forall|i: int| 0 <= i < order.len() implies p(#[trigger] order[i]) by {
            if i < a.len() {
                assert(p(a[i]));
            } else {
                assert(p(b[i - a.len()]));
            }
        }
        lemma_order_idle(events, height, group, start, order);
        let rest = candidates.skip(n);
        assert forall|i: int| 0 <= i < rest.len() implies is_idle(events, names, height)(
            #[trigger] rest[i],
        ) by {
            assert(is_idle(events, names, height)(candidates[n + i]));
        }
        lemma_groups_idle(events, names, height, rest);
    }
}

proof fn lemma_derived_idle(
    txs: Seq<TxView>,
    events: Seq<EventRow>,
    names: Seq<NoteRecord>,
    part: Seq<TxView>,
)
    requires
        all_idle(events, names, txs),
        forall|i: int| 0 <= i < part.len() ==> txs.contains(#[trigger] part[i]),
    ensures
        derived(events, names, empty_staging(), part) == Ok::<StagingView, StoreError>(empty_staging()),
    decreases part.len(),
{
    if part.len() > 0 {
        lemma_run_len(part, tx_height());
        let n = run_len(part, tx_height()) as int;
        let block = part.take(n);
        let height = block[0].height;
        assert forall|i: int| 0 <= i < block.len() implies txs.contains(#[trigger] block[i])
            && block[i].height == height by {
            assert(block[i] == part[i]);
            assert(tx_height()(part[i]) == tx_height()(part[0]));
        }
        let cs = block_candidates(block);
        lemma_block_from(txs, block, height);
        lemma_sort_keeps(cs, candidate_order(), from(txs, height));
        let sorted = sort_by(cs, candidate_order());
        assert forall|i: int| 0 <= i < sorted.len() implies is_idle(events, names, height)(
            #[trigger] sorted[i],
        ) by {
            assert(from(txs, height)(sorted[i]));
        }
        lemma_groups_idle(events, names, height, sorted);
        let rest = part.skip(n);
        assert forall|i: int| 0 <= i < rest.len() implies txs.contains(#[trigger] rest[i]) by {
            assert(rest[i] == part[n + i]);
        }
        lemma_derived_idle(txs, events, names, rest);
    }
}

/// A batch each of whose name notes is recorded already, or refused in the state
/// of its name, succeeds and leaves the events and the names as they are.
pub proof fn law_idle_notes_change_nothing(db: DbView, scanned: Cursor, txs: Seq<TxView>)
    requires
        has_room(db.events, 0),
        all_idle(db.events, db.names, txs),
    ensures
        after_batch(db, scanned, txs) matches Ok(next) && next.events == db.events && next.names == db.names,
{
    assert forall|i: int| 0 <= i < txs.len() implies txs.contains(#[trigger] txs[i]) by {}
    lemma_derived_idle(txs, db.events, db.names, txs);
}

/// The registry replays idempotently: a rescan of blocks whose name notes are
/// all recorded succeeds, and leaves the events and the names as they are,
/// whether the names are live or released by now. So a lost sync position heals
/// by a rescan from the birthday.
pub proof fn law_recorded_notes_replay_to_nothing(db: DbView, scanned: Cursor, txs: Seq<TxView>)
    requires
        chained(db.events, db.names),
        has_room(db.events, 0),
        forall|tx: TxView, o: RelaxedIronwoodOutput|
            txs.contains(tx) && tx.relaxed.contains(o) ==> (#[trigger] candidate_of(o, tx.txid) matches Some(c)
                ==> is_recorded(db.events, tx.height, c)),
    ensures
        after_batch(db, scanned, txs) matches Ok(next) && next.events == db.events && next.names == db.names,
{
    lemma_states_hold(db.events, db.names);
    assert forall|tx: TxView, o: RelaxedIronwoodOutput|
        txs.contains(tx) && tx.relaxed.contains(o) implies (#[trigger] candidate_of(o, tx.txid) matches Some(c)
        ==> is_idle(db.events, db.names, tx.height)(c)) by {
        if let Some(c) = candidate_of(o, tx.txid) {
            assert(current_binding(db.names, Map::empty(), c.note.name) is Ok);
        }
    }
    law_idle_notes_change_nothing(db, scanned, txs);
}

/// Applying a batch twice is applying it once, where each of its name notes was
/// recorded, or is refused in the state that the batch leaves.
pub proof fn law_a_batch_applies_once(db: DbView, scanned: Cursor, again: Cursor, txs: Seq<TxView>)
    requires
        after_batch(db, scanned, txs) matches Ok(next) && has_room(next.events, 0) && all_idle(
            next.events,
            next.names,
            txs,
        ),
    ensures
        after_batch(db, scanned, txs) matches Ok(next) && after_batch(next, again, txs) matches Ok(twice)
            && twice.events == next.events && twice.names == next.names,
{
    law_idle_notes_change_nothing(after_batch(db, scanned, txs)->Ok_0, again, txs);
}

/// A batch none of whose name notes is admitted in the state of its name
/// records nothing: forged ones, claims of live names, notes on a predecessor
/// that is not the tip, changes that consume no note of the registry's.
pub proof fn law_stale_notes_change_nothing(db: DbView, scanned: Cursor, txs: Seq<TxView>)
    requires
        has_room(db.events, 0),
        forall|tx: TxView, o: RelaxedIronwoodOutput|
            txs.contains(tx) && tx.relaxed.contains(o) ==> (#[trigger] candidate_of(o, tx.txid) matches Some(c)
                ==> (read_binding(db.names, c.note.name) matches Ok(b) && refuses(b, c))),
    ensures
        after_batch(db, scanned, txs) matches Ok(next) && next.events == db.events && next.names == db.names,
{
    law_idle_notes_change_nothing(db, scanned, txs);
}

/// The note that a name's state came from is refused in that state. An update
/// must differ from its predecessor, in its `rcm` or in its nullifier.
pub proof fn law_newest_note_is_refused_again(binding: Option<Binding>, c: CandidateView, spends: bool)
    requires
        admission(binding, c.note, c.output, note_opening(c.note, c.output), spends) matches Some(a) && (
        c.note.action == Action::Update ==> a.rcm != a.prev_rcm || a.nullifier != c.output.consumed),
    ensures
        ({
            let a = admission(binding, c.note, c.output, note_opening(c.note, c.output), spends)->0;
            let next = Binding {
                tip: Tip { action: c.note.action, rcm: a.rcm },
                nullifier: a.nullifier,
            };
            &&& refuses(Some(next), c)
            &&& c.note.action == Action::Release ==> refuses(None, c)
        }),
{
}

/// Raw spends end no registration: a batch without name notes leaves the
/// events and the names alone, whatever it spends.
pub proof fn law_raw_spends_end_nothing(db: DbView, scanned: Cursor, txs: Seq<TxView>)
    requires
        has_room(db.events, 0),
        forall|t: int| 0 <= t < txs.len() ==> (#[trigger] txs[t]).relaxed.len() == 0,
    ensures
        after_batch(db, scanned, txs) matches Ok(next) && next.events == db.events && next.names == db.names,
{
    assert forall|tx: TxView, o: RelaxedIronwoodOutput|
        txs.contains(tx) && tx.relaxed.contains(o) implies (#[trigger] candidate_of(o, tx.txid) matches Some(c)
        ==> (read_binding(db.names, c.note.name) matches Ok(b) && refuses(b, c))) by {
        let t = choose|t: int| 0 <= t < txs.len() && txs[t] == tx;
        assert(txs[t].relaxed.len() == 0);
    }
    law_stale_notes_change_nothing(db, scanned, txs);
}

} // verus!
