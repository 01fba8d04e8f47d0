//! What the registry keeps: every recorded action extends its name's chain,
//! and the name table is the fold of the event log.

use vstd::prelude::*;
use vstd::utf8::*;

use super::admission::{
    admission, block_candidates, candidate_name, candidate_order, consider, consider_all,
    consideration_order, current_binding, derive_block, derive_group, derive_groups, derived,
    empty_staging, goes_first, goes_later, key_taken, output_candidates, record_of, same_event,
    tip_of, tx_height, Binding, CandidateView, EventRow, NoteRecord, StagingView, TxView,
};
use super::notes::{note_opening, parsed_note};
use super::state::{
    after_batch, after_rewind, after_rewind_to, distinct, lemma_distinct, mark_all, mark_spends,
    position, reached, read_nullifier, served_event, served_registration, stored_note,
    stored_nullifiers, surviving, unwatched, watch_all, watch_outputs, watch_set, Cursor, DbView,
    WatchedView,
};
use crate::kernel::{
    action_of, commits, derived_opening, is_committed, law_action_spelling_round_trips,
    required_prev, Action, Tip,
};
use crate::log::{
    all_through, appended, has_room, heights_rise, ids_ascend, latest, lemma_append_order,
    lemma_latest, lemma_latest_through, lemma_names_above, lemma_prefix_order, lemma_through_all,
    lemma_through_is_prefix, lemma_through_is_prefix_stable, lemma_through_twice, names_above,
    next_id, through,
};
use crate::order::{lemma_filter_keeps, lemma_run_len, lemma_sort_keeps, run_len, sort_by};
use crate::store::{lemma_read_all, read_all, StoreError};
use crate::table::{
    entry, is_fold, is_name_table, lemma_append_fold, lemma_restored, lemma_table_unique,
    lemma_upserted, lemma_without, live, logged, named, named_one, restored, upserted, without,
};
use crate::text::{as_array32, lemma_array32_of, lemma_as_array32};

verus! {

// ── the invariant ───────────────────────────────────────────────────────────

/// A recorded row decodes, and its memo says what its columns say.
pub open spec fn is_sound(r: NoteRecord) -> bool {
    &&& action_of(r.action) is Some
    &&& r.rcm.len() == 32
    &&& r.txid.len() == 32
    &&& r.extra.nullifier.len() == 32
    &&& stored_note(r.extra.memo, r.name, r.ua) matches Some(n) && n.action.text() == r.action && n.expiry()
        == r.extra.expires_at && n.disclosed_prev()@ == r.extra.prev_rcm
}

/// The tip a row leaves its name with.
pub open spec fn row_tip(row: Option<EventRow>) -> Option<Tip> {
    match row {
        Some(r) => match (action_of(r.record.action), as_array32(r.record.rcm)) {
            (Some(action), Some(rcm)) => Some(Tip { action, rcm }),
            _ => None,
        },
        None => None,
    }
}

/// The row extends the tip its name had before it: its predecessor is the one
/// that tip calls for, its opening is derived from the transition, and its `cmx`
/// is a note's commitment under the opening.
pub open spec fn is_link(before: Seq<EventRow>, r: NoteRecord) -> bool {
    match action_of(r.action) {
        None => false,
        Some(action) => match required_prev(row_tip(latest(before, r.name)), action) {
            None => false,
            Some(prev) => {
                let opening = derived_opening(
                    encode_utf8(r.action),
                    encode_utf8(r.name),
                    encode_utf8(r.ua),
                    encode_utf8(r.extra.expires_at),
                    prev,
                );
                r.extra.prev_rcm == prev@ && r.extra.psi == opening.0@ && r.rcm == opening.1@
                    && is_committed(opening, r.cmx)
            },
        },
    }
}

pub open spec fn all_linked(events: Seq<EventRow>) -> bool {
    forall|k: int| 0 <= k < events.len() ==> is_link(events.take(k), (#[trigger] events[k]).record)
}

pub open spec fn all_sound(events: Seq<EventRow>) -> bool {
    forall|k: int| 0 <= k < events.len() ==> is_sound((#[trigger] events[k]).record)
}

/// No two rows share a key.
pub open spec fn keys_differ(events: Seq<EventRow>) -> bool {
    forall|i: int, j: int|
        0 <= i < j < events.len() ==> !same_event(
            (#[trigger] events[i]).record,
            (#[trigger] events[j]).record,
        )
}

/// The registry's invariant over its event log and its name table.
pub open spec fn chained(events: Seq<EventRow>, names: Seq<NoteRecord>) -> bool {
    &&& ids_ascend(events)
    &&& heights_rise(events)
    &&& keys_differ(events)
    &&& all_sound(events)
    &&& all_linked(events)
    &&& is_name_table(names)
    &&& is_fold(events, names)
}

/// The transactions come in chain order, from `height` on.
pub open spec fn in_chain_order(txs: Seq<TxView>, height: int) -> bool {
    &&& forall|i: int| 0 <= i < txs.len() ==> height <= (#[trigger] txs[i]).height
    &&& forall|i: int, j: int|
        0 <= i < j < txs.len() ==> (#[trigger] txs[i]).height <= (#[trigger] txs[j]).height
}

// ── a batch keeps the invariant ─────────────────────────────────────────────

/// `b` is the state that the name's newest row leaves.
pub open spec fn holds_state(events: Seq<EventRow>, name: Seq<char>, b: Option<Binding>) -> bool {
    match latest(events, name) {
        None => b is None,
        Some(row) => {
            ||| b is None && row.record.action == Action::Release.text()
            ||| b matches Some(binding) && row_tip(Some(row)) == Some(binding.tip) && as_array32(
                row.record.extra.nullifier,
            ) == Some(binding.nullifier)
        },
    }
}

/// Every name is in the state that its newest row leaves.
pub open spec fn states_hold(
    events: Seq<EventRow>,
    names: Seq<NoteRecord>,
    pending: Map<Seq<char>, Binding>,
) -> bool {
    forall|name: Seq<char>|
        match #[trigger] current_binding(names, pending, name) {
            Ok(b) => holds_state(events, name, b),
            Err(_) => false,
        }
}

/// The invariant in the middle of a batch, up to `height`.
pub open spec fn holds_staged(
    events: Seq<EventRow>,
    names: Seq<NoteRecord>,
    st: StagingView,
    height: int,
) -> bool {
    has_room(events, st.staged.len()) ==> {
        let log = logged(events, st.staged);
        &&& chained(log, named(names, st.staged))
        &&& all_through(log, height)
        &&& states_hold(log, names, st.pending)
        &&& log.len() == events.len() + st.staged.len()
        &&& next_id(log) == next_id(events) + st.staged.len()
        &&& forall|i: int| 0 <= i < events.len() ==> log[i] == #[trigger] events[i]
        &&& forall|i: int|
            0 <= i < st.staged.len() ==> log[events.len() + i].record == #[trigger] st.staged[i]
    }
}

/// A candidate carries the note its memo states.
pub open spec fn is_candidate() -> spec_fn(CandidateView) -> bool {
    |c: CandidateView| c.output.memo is Some && parsed_note(c.output.memo->0@) == Some(c.note)
}

proof fn lemma_output_candidates(
    outputs: Seq<super::notes::RelaxedIronwoodOutput>,
    txid: [u8; 32],
)
    ensures
        forall|i: int|
            0 <= i < output_candidates(outputs, txid).len() ==> is_candidate()(
                #[trigger] output_candidates(outputs, txid)[i],
            ),
    decreases outputs.len(),
{
    if outputs.len() > 0 {
        let before = output_candidates(outputs.drop_last(), txid);
        lemma_output_candidates(outputs.drop_last(), txid);
        assert forall|i: int| 0 <= i < output_candidates(outputs, txid).len() implies is_candidate()(
            #[trigger] output_candidates(outputs, txid)[i],
        ) by {
            if i < before.len() {
                assert(output_candidates(outputs, txid)[i] == before[i]);
            }
        }
    }
}

pub proof fn lemma_block_candidates(block: Seq<TxView>)
    ensures
        forall|i: int|
            0 <= i < block_candidates(block).len() ==> is_candidate()(
                #[trigger] block_candidates(block)[i],
            ),
    decreases block.len(),
{
    if block.len() > 0 {
        lemma_block_candidates(block.drop_last());
        lemma_output_candidates(block.last().relaxed, block.last().txid);
        let a = block_candidates(block.drop_last());
        let b = output_candidates(block.last().relaxed, block.last().txid);
        assert forall|i: int| 0 <= i < block_candidates(block).len() implies is_candidate()(
            #[trigger] block_candidates(block)[i],
        ) by {
            if i < a.len() {
                assert(block_candidates(block)[i] == a[i]);
            } else {
                assert(block_candidates(block)[i] == b[i - a.len()]);
            }
        }
    }
}

/// What an appended row leaves of the log's keys and soundness.
proof fn lemma_append_rows(log: Seq<EventRow>, record: NoteRecord)
    requires
        keys_differ(log),
        all_sound(log),
        is_sound(record),
        forall|i: int| 0 <= i < log.len() ==> !same_event((#[trigger] log[i]).record, record),
    ensures
        keys_differ(appended(log, record)),
        all_sound(appended(log, record)),
{
    let next = appended(log, record);
    let n = log.len() as int;
    assert(next[n].record == record);
    assert forall|i: int, j: int| 0 <= i < j < next.len() implies !same_event(
        (#[trigger] next[i]).record,
        (#[trigger] next[j]).record,
    ) by {
        assert(next[i] == log[i]);
        if j < n {
            assert(!same_event(log[i].record, log[j].record));
        }
    }
    assert forall|k: int| 0 <= k < next.len() implies is_sound((#[trigger] next[k]).record) by {
        if k < n {
            assert(is_sound(log[k].record));
        }
    }
}

proof fn lemma_append_links(log: Seq<EventRow>, record: NoteRecord)
    requires
        all_linked(log),
        is_link(log, record),
    ensures
        all_linked(appended(log, record)),
{
    let next = appended(log, record);
    assert forall|k: int| 0 <= k < next.len() implies is_link(next.take(k), (#[trigger] next[k]).record) by {
        if k < log.len() {
            assert(next.take(k) =~= log.take(k));
            assert(is_link(log.take(k), log[k].record));
        } else {
            assert(next.take(k) =~= log);
        }
    }
}

/// One appended record that extends its name's chain keeps the invariant.
proof fn lemma_append_keeps(
    log: Seq<EventRow>,
    names: Seq<NoteRecord>,
    record: NoteRecord,
    height: int,
)
    requires
        chained(log, names),
        all_through(log, height),
        record.height == height,
        next_id(log) <= i64::MAX,
        is_sound(record),
        is_link(log, record),
        forall|i: int| 0 <= i < log.len() ==> !same_event((#[trigger] log[i]).record, record),
    ensures
        chained(appended(log, record), named_one(names, record)),
        all_through(appended(log, record), height),
        latest(appended(log, record), record.name) == Some(appended(log, record).last()),
        appended(log, record).last().record == record,
        forall|m: Seq<char>|
            m != record.name ==> #[trigger] latest(appended(log, record), m) == latest(log, m),
        next_id(appended(log, record)) == next_id(log) + 1,
{
    lemma_append_order(log, record, height);
    lemma_append_rows(log, record);
    lemma_append_links(log, record);
    lemma_append_fold(log, names, record);
}

proof fn lemma_release_and_none_agree(
    log: Seq<EventRow>,
    name: Seq<char>,
    b: Option<Binding>,
    action: Action,
)
    requires
        holds_state(log, name, b),
        all_sound(log),
    ensures
        required_prev(tip_of(b), action) == required_prev(row_tip(latest(log, name)), action),
{
    lemma_latest(log, name);
    law_action_spelling_round_trips(Action::Release);
    match latest(log, name) {
        Some(row) => {
            let k = choose|k: int| 0 <= k < log.len() && log[k] == row;
            assert(is_sound(log[k].record));
            assert(as_array32(row.record.rcm) is Some);
        },
        None => {},
    }
}

/// The record of an admitted candidate extends its name's chain.
proof fn lemma_admitted_is_link(
    log: Seq<EventRow>,
    height: u32,
    binding: Option<Binding>,
    c: CandidateView,
    spends: bool,
)
    requires
        all_sound(log),
        holds_state(log, c.note.name, binding),
        is_candidate()(c),
        admission(binding, c.note, c.output, note_opening(c.note, c.output), spends) is Some,
    ensures
        ({
            let a = admission(binding, c.note, c.output, note_opening(c.note, c.output), spends)->0;
            is_link(log, record_of(height, c, a)) && is_sound(record_of(height, c, a))
        }),
{
    let a = admission(binding, c.note, c.output, note_opening(c.note, c.output), spends)->0;
    let record = record_of(height, c, a);
    law_action_spelling_round_trips(c.note.action);
    lemma_release_and_none_agree(log, c.note.name, binding, c.note.action);
    assert(action_of(record.action) == Some(c.note.action));
    assert(required_prev(row_tip(latest(log, record.name)), c.note.action) == Some(a.prev_rcm));
    assert(a.prev_rcm == c.note.disclosed_prev());
    assert(commits(c.output.note.spec_parts(), (a.psi, a.rcm), record.cmx));
}

/// A staged record leaves every name in the state its newest row leaves.
proof fn lemma_states_follow(
    log: Seq<EventRow>,
    names: Seq<NoteRecord>,
    pending: Map<Seq<char>, Binding>,
    record: NoteRecord,
    b: Binding,
)
    requires
        states_hold(log, names, pending),
        latest(appended(log, record), record.name) == Some(appended(log, record).last()),
        appended(log, record).last().record == record,
        forall|m: Seq<char>|
            m != record.name ==> #[trigger] latest(appended(log, record), m) == latest(log, m),
        record.action == b.tip.action.text(),
        record.rcm == b.tip.rcm@,
        record.extra.nullifier == b.nullifier@,
    ensures
        states_hold(appended(log, record), names, pending.insert(record.name, b)),
        holds_state(appended(log, record), record.name, Some(b)),
{
    let next = appended(log, record);
    let pending2 = pending.insert(record.name, b);
    lemma_as_array32(b.tip.rcm);
    lemma_as_array32(b.nullifier);
    law_action_spelling_round_trips(b.tip.action);
    assert forall|m: Seq<char>|
        match #[trigger] current_binding(names, pending2, m) {
            Ok(x) => holds_state(next, m, x),
            Err(_) => false,
        } by {
        if m != record.name {
            assert(current_binding(names, pending2, m) == current_binding(names, pending, m));
            assert(latest(next, m) == latest(log, m));
        }
    }
}

/// Considering a candidate keeps the invariant and the name's state.
#[verifier::rlimit(40)]
pub proof fn lemma_consider_keeps(
    events: Seq<EventRow>,
    names: Seq<NoteRecord>,
    height: u32,
    group: Seq<CandidateView>,
    start: Option<Binding>,
    state: (StagingView, Option<Binding>),
    c: CandidateView,
)
    requires
        holds_staged(events, names, state.0, height as int),
        has_room(events, state.0.staged.len()) ==> holds_state(
            logged(events, state.0.staged),
            c.note.name,
            state.1,
        ),
        is_candidate()(c),
    ensures
        ({
            let next = consider(events, height, group, start, state, c);
            &&& holds_staged(events, names, next.0, height as int)
            &&& has_room(events, next.0.staged.len()) ==> holds_state(
                logged(events, next.0.staged),
                c.note.name,
                next.1,
            )
        }),
{
    let next = consider(events, height, group, start, state, c);
    let st = state.0;
    let spends = super::admission::spends_update(group, start, c.output.consumed);
    let admitted = admission(state.1, c.note, c.output, note_opening(c.note, c.output), spends);
    if admitted is Some && has_room(events, next.0.staged.len()) && !key_taken(
        events,
        st.staged,
        record_of(height, c, admitted->0),
    ) {
        let a = admitted->0;
        let record = record_of(height, c, a);
        let b = Binding { tip: Tip { action: c.note.action, rcm: a.rcm }, nullifier: a.nullifier };
        let log = logged(events, st.staged);
        let table = named(names, st.staged);
        assert(next.0.staged == st.staged.push(record));
        assert(next.0.staged.drop_last() =~= st.staged);
        assert(has_room(events, st.staged.len()));
        lemma_admitted_is_link(log, height, state.1, c, spends);
        assert forall|i: int| 0 <= i < log.len() implies !same_event((#[trigger] log[i]).record, record) by {
            if i < events.len() {
                assert(log[i] == events[i]);
            } else {
                assert(log[events.len() + (i - events.len())].record == st.staged[i - events.len()]);
            }
        }
        lemma_append_keeps(log, table, record, height as int);
        let log2 = logged(events, next.0.staged);
        assert(log2 == appended(log, record));
        assert(named(names, next.0.staged) == named_one(table, record));
        lemma_states_follow(log, names, st.pending, record, b);
        assert forall|i: int| 0 <= i < next.0.staged.len() implies log2[events.len() + i].record
            == #[trigger] next.0.staged[i] by {
            if i < st.staged.len() {
                assert(log[events.len() + i].record == st.staged[i]);
            }
        }
        assert forall|i: int| 0 <= i < events.len() implies log2[i] == #[trigger] events[i] by {
            assert(log[i] == events[i]);
        }
    }
}

#[verifier::rlimit(40)]
pub proof fn lemma_consider_all_keeps(
    events: Seq<EventRow>,
    names: Seq<NoteRecord>,
    height: u32,
    group: Seq<CandidateView>,
    start: Option<Binding>,
    st: StagingView,
    order: Seq<CandidateView>,
    name: Seq<char>,
)
    requires
        holds_staged(events, names, st, height as int),
        has_room(events, st.staged.len()) ==> holds_state(logged(events, st.staged), name, start),
        forall|i: int| 0 <= i < order.len() ==> is_candidate()(#[trigger] order[i]) && order[i].note.name == name,
    ensures
        ({
            let next = consider_all(events, height, group, start, st, order);
            &&& holds_staged(events, names, next.0, height as int)
            &&& has_room(events, next.0.staged.len()) ==> holds_state(
                logged(events, next.0.staged),
                name,
                next.1,
            )
        }),
    decreases order.len(),
{
    if order.len() > 0 {
        let init = order.drop_last();
        assert forall|i: int| 0 <= i < init.len() implies is_candidate()(#[trigger] init[i]) && init[i].note.name
            == name by {
            assert(order[i] == init[i]);
        }
        lemma_consider_all_keeps(events, names, height, group, start, st, init, name);
        let state = consider_all(events, height, group, start, st, init);
        assert(order.last() == order[order.len() - 1]);
        lemma_consider_keeps(events, names, height, group, start, state, order.last());
    }
}

#[verifier::rlimit(40)]
pub proof fn lemma_group_keeps(
    events: Seq<EventRow>,
    names: Seq<NoteRecord>,
    height: u32,
    st: StagingView,
    group: Seq<CandidateView>,
)
    requires
        group.len() > 0,
        holds_staged(events, names, st, height as int),
        forall|i: int|
            0 <= i < group.len() ==> is_candidate()(#[trigger] group[i]) && group[i].note.name
                == group[0].note.name,
        derive_group(events, names, height, st, group) is Ok,
    ensures
        holds_staged(
            events,
            names,
            derive_group(events, names, height, st, group)->Ok_0,
            height as int,
        ),
{
    let name = group[0].note.name;
    let start = current_binding(names, st.pending, name)->Ok_0;
    let order = consideration_order(group, start);
    let p = |c: CandidateView| is_candidate()(c) && c.note.name == name;
    lemma_filter_keeps(group, goes_first(start), p);
    lemma_filter_keeps(group, goes_later(start), p);
    let a = group.filter(goes_first(start));
    let b = group.filter(goes_later(start));
    assert forall|i: int| 0 <= i < order.len() implies is_candidate()(#[trigger] order[i]) && order[i].note.name
        == name by {
        if i < a.len() {
            assert(p(a[i]));
        } else {
            assert(p(b[i - a.len()]));
        }
    }
    lemma_consider_all_keeps(events, names, height, group, start, st, order, name);
}

#[verifier::rlimit(40)]
pub proof fn lemma_groups_keep(
    events: Seq<EventRow>,
    names: Seq<NoteRecord>,
    height: u32,
    st: StagingView,
    candidates: Seq<CandidateView>,
)
    requires
        holds_staged(events, names, st, height as int),
        forall|i: int| 0 <= i < candidates.len() ==> is_candidate()(#[trigger] candidates[i]),
        derive_groups(events, names, height, st, candidates) is Ok,
    ensures
        holds_staged(
            events,
            names,
            derive_groups(events, names, height, st, candidates)->Ok_0,
            height as int,
        ),
    decreases candidates.len(),
{
    if candidates.len() > 0 {
        lemma_run_len(candidates, candidate_name());
        let n = run_len(candidates, candidate_name()) as int;
        let group = candidates.take(n);
        assert forall|i: int| 0 <= i < group.len() implies is_candidate()(#[trigger] group[i]) && group[i].note.name
            == group[0].note.name by {
            assert(group[i] == candidates[i]);
            assert(candidate_name()(candidates[i]) == candidate_name()(candidates[0]));
        }
        lemma_group_keeps(events, names, height, st, group);
        let rest = candidates.skip(n);
        assert forall|i: int| 0 <= i < rest.len() implies is_candidate()(#[trigger] rest[i]) by {
            assert(rest[i] == candidates[n + i]);
        }
        lemma_groups_keep(
            events,
            names,
            height,
            derive_group(events, names, height, st, group)->Ok_0,
            rest,
        );
    }
}

#[verifier::rlimit(40)]
proof fn lemma_derived_keeps(
    events: Seq<EventRow>,
    names: Seq<NoteRecord>,
    st: StagingView,
    txs: Seq<TxView>,
    height: int,
)
    requires
        holds_staged(events, names, st, height),
        in_chain_order(txs, height),
        derived(events, names, st, txs) is Ok,
    ensures
        exists|h: int|
            holds_staged(events, names, derived(events, names, st, txs)->Ok_0, h),
    decreases txs.len(),
{
    if txs.len() > 0 {
        lemma_run_len(txs, tx_height());
        let n = run_len(txs, tx_height()) as int;
        let block = txs.take(n);
        let candidates = sort_by(block_candidates(block), candidate_order());
        lemma_block_candidates(block);
        lemma_sort_keeps(block_candidates(block), candidate_order(), is_candidate());
        let h = block[0].height;
        assert(block[0] == txs[0]);
        assert(holds_staged(events, names, st, h as int));
        lemma_groups_keep(events, names, h, st, candidates);
        let rest = txs.skip(n);
        assert(in_chain_order(rest, h as int)) by {
            assert forall|i: int| 0 <= i < rest.len() implies h as int <= (#[trigger] rest[i]).height by {
                assert(rest[i] == txs[n + i]);
                assert(txs[0].height <= txs[n + i].height);
            }
            assert forall|i: int, j: int| 0 <= i < j < rest.len() implies (#[trigger] rest[i]).height <= (
            #[trigger] rest[j]).height by {
                assert(txs[n + i].height <= txs[n + j].height);
            }
        }
        lemma_derived_keeps(
            events,
            names,
            derive_block(events, names, st, block)->Ok_0,
            rest,
            h as int,
        );
    } else {
        assert(holds_staged(events, names, derived(events, names, st, txs)->Ok_0, height));
    }
}

/// On a chained registry every name's state is read without a failure, and is
/// the state its newest event left.
pub proof fn lemma_states_hold(events: Seq<EventRow>, names: Seq<NoteRecord>)
    requires
        chained(events, names),
    ensures
        states_hold(events, names, Map::empty()),
{
    law_action_spelling_round_trips(Action::Release);
    assert forall|m: Seq<char>|
        match #[trigger] current_binding(names, Map::empty(), m) {
            Ok(b) => holds_state(events, m, b),
            Err(_) => false,
        } by {
        assert(entry(names, m) == live(latest(events, m)));
        lemma_latest(events, m);
        if latest(events, m) is Some {
            let row = latest(events, m)->0;
            let k = choose|k: int| 0 <= k < events.len() && events[k] == row;
            assert(is_sound(events[k].record));
        }
    }
}

/// The invariant at the start of a batch.
pub proof fn lemma_batch_starts(events: Seq<EventRow>, names: Seq<NoteRecord>, height: int)
    requires
        chained(events, names),
        all_through(events, height),
    ensures
        holds_staged(events, names, empty_staging(), height),
{
    lemma_states_hold(events, names);
}

/// A batch in chain order keeps the registry chained: every row still extends
/// its name's chain, and the name table is still the fold of the log.
pub proof fn law_batch_keeps_registry_chained(
    db: DbView,
    scanned: Cursor,
    txs: Seq<TxView>,
    height: int,
)
    requires
        chained(db.events, db.names),
        all_through(db.events, height),
        in_chain_order(txs, height),
        after_batch(db, scanned, txs) is Ok,
    ensures
        chained(
            after_batch(db, scanned, txs)->Ok_0.events,
            after_batch(db, scanned, txs)->Ok_0.names,
        ),
{
    lemma_batch_starts(db.events, db.names, height);
    lemma_derived_keeps(db.events, db.names, empty_staging(), txs, height);
}

// ── a rewind keeps it ───────────────────────────────────────────────────────

proof fn lemma_prefix_keeps(events: Seq<EventRow>, k: int)
    requires
        0 <= k <= events.len(),
        ids_ascend(events),
        heights_rise(events),
        keys_differ(events),
        all_sound(events),
        all_linked(events),
    ensures
        ids_ascend(events.take(k)),
        heights_rise(events.take(k)),
        keys_differ(events.take(k)),
        all_sound(events.take(k)),
        all_linked(events.take(k)),
{
    let t = events.take(k);
    lemma_prefix_order(events, k);
    assert(keys_differ(t)) by {
        assert forall|i: int, j: int| 0 <= i < j < t.len() implies !same_event(
            (#[trigger] t[i]).record,
            (#[trigger] t[j]).record,
        ) by {
            assert(!same_event(events[i].record, events[j].record));
        }
    }
    assert(all_sound(t)) by {
        assert forall|i: int| 0 <= i < t.len() implies is_sound((#[trigger] t[i]).record) by {
            assert(is_sound(events[i].record));
        }
    }
    assert(all_linked(t)) by {
        assert forall|i: int| 0 <= i < t.len() implies is_link(t.take(i), (#[trigger] t[i]).record) by {
            assert(is_link(events.take(i), events[i].record));
            assert(t.take(i) =~= events.take(i));
        }
    }
}

/// Of a sound log every name survives as the fold says.
proof fn lemma_surviving(events: Seq<EventRow>, name: Seq<char>)
    requires
        all_sound(events),
    ensures
        surviving(events)(name) == Ok::<Option<NoteRecord>, StoreError>(live(latest(events, name))),
        live(latest(events, name)) matches Some(r) ==> r.name == name,
{
    lemma_latest(events, name);
    law_action_spelling_round_trips(Action::Release);
    law_action_spelling_round_trips(Action::Claim);
    law_action_spelling_round_trips(Action::Update);
    if latest(events, name) is Some {
        let row = latest(events, name)->0;
        let k = choose|k: int| 0 <= k < events.len() && events[k] == row;
        assert(is_sound(events[k].record));
    }
}

proof fn lemma_read_surviving(events: Seq<EventRow>, affected: Seq<Seq<char>>)
    requires
        all_sound(events),
    ensures
        read_all(affected, surviving(events)) matches Ok(v) && v.len() == affected.len() && forall|i: int|
            0 <= i < affected.len() ==> #[trigger] v[i] == live(latest(events, affected[i])),
    decreases affected.len(),
{
    if affected.len() > 0 {
        lemma_read_surviving(events, affected.drop_last());
        lemma_surviving(events, affected.last());
    }
}

/// A rewind of a chained registry succeeds, keeps exactly the events at or
/// below the fork, and leaves a chained registry: each affected name is back
/// at its newest surviving event.
#[verifier::rlimit(40)]
pub proof fn law_rewind_keeps_registry_chained(db: DbView, fork: u32)
    requires
        chained(db.events, db.names),
    ensures
        after_rewind(db, fork) matches Ok(next) && next.events == through(db.events, fork as int)
            && chained(next.events, next.names) && all_through(next.events, fork as int),
{
    let events = through(db.events, fork as int);
    let affected = names_above(db.events, fork as int);
    lemma_through_is_prefix(db.events, fork as int);
    lemma_through_is_prefix_stable(db.events, fork as int);
    lemma_prefix_keeps(db.events, events.len() as int);
    lemma_read_surviving(events, affected);
    let records = read_all(affected, surviving(events))->Ok_0;
    lemma_restored(db.names, affected, records, events);
    let names = restored(db.names, affected, records);
    assert forall|m: Seq<char>| #[trigger] entry(names, m) == live(latest(events, m)) by {
        lemma_names_above(db.events, fork as int, m);
        if !affected.contains(m) {
            assert forall|i: int| 0 <= i < db.events.len() && #[trigger] db.events[i].record.name == m implies db.events[i].record.height
                <= fork by {
                if db.events[i].record.height > fork {
                    assert(affected.contains(m));
                }
            }
            lemma_latest_through(db.events, fork as int, m);
            assert(entry(db.names, m) == live(latest(db.events, m)));
        }
    }
}

// ── a rewind undoes a batch ─────────────────────────────────────────────────

/// The records a group, a block or a batch admits carry its heights.
pub open spec fn staged_above(staged: Seq<NoteRecord>, fork: int) -> bool {
    forall|i: int| 0 <= i < staged.len() ==> (#[trigger] staged[i]).height > fork
}

proof fn lemma_consider_all_height(
    events: Seq<EventRow>,
    height: u32,
    group: Seq<CandidateView>,
    start: Option<Binding>,
    st: StagingView,
    order: Seq<CandidateView>,
    fork: int,
)
    requires
        staged_above(st.staged, fork),
        height > fork,
    ensures
        staged_above(consider_all(events, height, group, start, st, order).0.staged, fork),
    decreases order.len(),
{
    if order.len() > 0 {
        lemma_consider_all_height(events, height, group, start, st, order.drop_last(), fork);
    }
}

proof fn lemma_groups_height(
    events: Seq<EventRow>,
    names: Seq<NoteRecord>,
    height: u32,
    st: StagingView,
    candidates: Seq<CandidateView>,
    fork: int,
)
    requires
        staged_above(st.staged, fork),
        height > fork,
        derive_groups(events, names, height, st, candidates) is Ok,
    ensures
        staged_above(derive_groups(events, names, height, st, candidates)->Ok_0.staged, fork),
    decreases candidates.len(),
{
    if candidates.len() > 0 {
        lemma_run_len(candidates, candidate_name());
        let n = run_len(candidates, candidate_name()) as int;
        let group = candidates.take(n);
        let start = current_binding(names, st.pending, group[0].note.name)->Ok_0;
        lemma_consider_all_height(
            events,
            height,
            group,
            start,
            st,
            consideration_order(group, start),
            fork,
        );
        lemma_groups_height(
            events,
            names,
            height,
            derive_group(events, names, height, st, group)->Ok_0,
            candidates.skip(n),
            fork,
        );
    }
}

proof fn lemma_derived_height(
    events: Seq<EventRow>,
    names: Seq<NoteRecord>,
    st: StagingView,
    txs: Seq<TxView>,
    fork: int,
)
    requires
        staged_above(st.staged, fork),
        forall|i: int| 0 <= i < txs.len() ==> (#[trigger] txs[i]).height > fork,
        derived(events, names, st, txs) is Ok,
    ensures
        staged_above(derived(events, names, st, txs)->Ok_0.staged, fork),
    decreases txs.len(),
{
    if txs.len() > 0 {
        lemma_run_len(txs, tx_height());
        let n = run_len(txs, tx_height()) as int;
        let block = txs.take(n);
        assert(block[0] == txs[0]);
        lemma_groups_height(
            events,
            names,
            block[0].height,
            st,
            sort_by(block_candidates(block), candidate_order()),
            fork,
        );
        let rest = txs.skip(n);
        assert forall|i: int| 0 <= i < rest.len() implies (#[trigger] rest[i]).height > fork by {
            assert(rest[i] == txs[n + i]);
        }
        lemma_derived_height(events, names, derive_block(events, names, st, block)->Ok_0, rest, fork);
    }
}

proof fn lemma_through_logged(events: Seq<EventRow>, staged: Seq<NoteRecord>, fork: int)
    requires
        all_through(events, fork),
        staged_above(staged, fork),
    ensures
        through(logged(events, staged), fork) == events,
    decreases staged.len(),
{
    reveal(Seq::filter);
    if staged.len() == 0 {
        lemma_through_all(events, fork);
    } else {
        let init = staged.drop_last();
        assert forall|i: int| 0 <= i < init.len() implies (#[trigger] init[i]).height > fork by {
            assert(staged[i].height > fork);
        }
        lemma_through_logged(events, init, fork);
        let log = logged(events, init);
        let next = logged(events, staged);
        assert(next.drop_last() =~= log);
        assert(staged[staged.len() - 1].height > fork);
    }
}

/// A watch set as a batch above `fork` may leave the set `w`: some unspent
/// notes spent above the fork, some notes received above it.
spec fn grown(w: Seq<WatchedView>, r: Seq<WatchedView>, fork: int) -> bool {
    &&& r.len() >= w.len()
    &&& forall|i: int|
        0 <= i < w.len() ==> {
            &&& (#[trigger] r[i]).nullifier == w[i].nullifier
            &&& r[i].txid == w[i].txid
            &&& r[i].height == w[i].height
            &&& r[i].spent_height == w[i].spent_height || (w[i].spent_height is None
                && r[i].spent_height is Some && r[i].spent_height->0 > fork)
        }
    &&& forall|i: int| w.len() <= i < r.len() ==> (#[trigger] r[i]).height > fork
}

proof fn lemma_watch_outputs_grow(
    w: Seq<WatchedView>,
    r: Seq<WatchedView>,
    outputs: Seq<super::admission::IronwoodOutput>,
    txid: [u8; 32],
    height: u32,
    fork: int,
)
    requires
        grown(w, r, fork),
        height > fork,
    ensures
        grown(w, watch_outputs(r, outputs, txid, height), fork),
    decreases outputs.len(),
{
    if outputs.len() > 0 {
        lemma_watch_outputs_grow(w, r, outputs.drop_last(), txid, height, fork);
    }
}

proof fn lemma_watch_all_grows(w: Seq<WatchedView>, txs: Seq<TxView>, fork: int)
    requires
        forall|i: int| 0 <= i < txs.len() ==> (#[trigger] txs[i]).height > fork,
    ensures
        grown(w, watch_all(w, txs), fork),
    decreases txs.len(),
{
    if txs.len() > 0 {
        let init = txs.drop_last();
        assert forall|i: int| 0 <= i < init.len() implies (#[trigger] init[i]).height > fork by {
            assert(txs[i].height > fork);
        }
        lemma_watch_all_grows(w, init, fork);
        assert(txs[txs.len() - 1].height > fork);
        let tx = txs.last();
        lemma_watch_outputs_grow(w, watch_all(w, init), tx.outputs, tx.txid, tx.height, fork);
    }
}

proof fn lemma_mark_spends_grow(
    w: Seq<WatchedView>,
    r: Seq<WatchedView>,
    spends: Seq<[u8; 32]>,
    height: u32,
    fork: int,
)
    requires
        grown(w, r, fork),
        height > fork,
    ensures
        grown(w, mark_spends(r, spends, height), fork),
    decreases spends.len(),
{
    if spends.len() > 0 {
        lemma_mark_spends_grow(w, r, spends.drop_last(), height, fork);
        let before = mark_spends(r, spends.drop_last(), height);
        let after = mark_spends(r, spends, height);
        assert forall|i: int| 0 <= i < after.len() implies (#[trigger] after[i]).height == before[i].height by {}
    }
}

proof fn lemma_mark_all_grows(w: Seq<WatchedView>, r: Seq<WatchedView>, txs: Seq<TxView>, fork: int)
    requires
        grown(w, r, fork),
        forall|i: int| 0 <= i < txs.len() ==> (#[trigger] txs[i]).height > fork,
    ensures
        grown(w, mark_all(r, txs), fork),
    decreases txs.len(),
{
    if txs.len() > 0 {
        let init = txs.drop_last();
        assert forall|i: int| 0 <= i < init.len() implies (#[trigger] init[i]).height > fork by {
            assert(txs[i].height > fork);
        }
        lemma_mark_all_grows(w, r, init, fork);
        assert(txs[txs.len() - 1].height > fork);
        lemma_mark_spends_grow(w, mark_all(r, init), txs.last().spends, txs.last().height, fork);
    }
}

/// Nothing in the watch set happened above the fork.
pub open spec fn watched_through(w: Seq<WatchedView>, fork: int) -> bool {
    forall|i: int|
        0 <= i < w.len() ==> (#[trigger] w[i]).height <= fork && (w[i].spent_height is Some
            ==> w[i].spent_height->0 <= fork)
}

proof fn lemma_filter_grown(w: Seq<WatchedView>, r: Seq<WatchedView>, fork: int)
    requires
        watched_through(w, fork),
        grown(w, r, fork),
    ensures
        r.filter(|x: WatchedView| x.height <= fork) == r.take(w.len() as int),
    decreases r.len(),
{
    reveal(Seq::filter);
    let p = |x: WatchedView| x.height <= fork;
    if r.len() > w.len() {
        let init = r.drop_last();
        assert(r[r.len() - 1].height > fork);
        assert forall|i: int| 0 <= i < w.len() implies #[trigger] init[i] == r[i] by {}
        lemma_filter_grown(w, init, fork);
        assert(init.take(w.len() as int) =~= r.take(w.len() as int));
    } else {
        lemma_filter_all(r, p, w, fork);
        assert(r.take(w.len() as int) =~= r);
    }
}

proof fn lemma_filter_all(
    r: Seq<WatchedView>,
    p: spec_fn(WatchedView) -> bool,
    w: Seq<WatchedView>,
    fork: int,
)
    requires
        p == (|x: WatchedView| x.height <= fork),
        r.len() <= w.len(),
        watched_through(w, fork),
        forall|i: int| 0 <= i < r.len() ==> (#[trigger] r[i]).height == w[i].height,
    ensures
        r.filter(p) == r,
    decreases r.len(),
{
    reveal(Seq::filter);
    if r.len() > 0 {
        let init = r.drop_last();
        assert forall|i: int| 0 <= i < init.len() implies (#[trigger] init[i]).height == w[i].height by {
            assert(r[i].height == w[i].height);
        }
        lemma_filter_all(init, p, w, fork);
        assert(w[r.len() - 1].height <= fork);
        assert(r[r.len() - 1].height == w[r.len() - 1].height);
        assert(init.push(r.last()) =~= r);
    }
}

proof fn lemma_unwatched_grown(w: Seq<WatchedView>, r: Seq<WatchedView>, fork: int)
    requires
        watched_through(w, fork),
        grown(w, r, fork),
    ensures
        unwatched(r, fork) == w,
{
    lemma_filter_grown(w, r, fork);
    let kept = r.take(w.len() as int);
    assert forall|i: int| 0 <= i < w.len() implies #[trigger] unwatched(r, fork)[i] == w[i] by {
        assert(kept[i] == r[i]);
        assert(w[i].height <= fork);
    }
    assert(unwatched(r, fork) =~= w);
}

/// Rewinding to `fork` undoes a batch of blocks above it: the events, the
/// names and the watch set are what they were.
#[verifier::rlimit(40)]
pub proof fn law_rewind_undoes_batch(db: DbView, scanned: Cursor, txs: Seq<TxView>, fork: u32)
    requires
        chained(db.events, db.names),
        all_through(db.events, fork as int),
        watched_through(db.watched, fork as int),
        in_chain_order(txs, fork + 1),
        after_batch(db, scanned, txs) is Ok,
    ensures
        after_rewind(after_batch(db, scanned, txs)->Ok_0, fork) matches Ok(back) && back.events
            == db.events && back.names == db.names && back.watched == db.watched,
{
    let next = after_batch(db, scanned, txs)->Ok_0;
    assert(in_chain_order(txs, fork as int));
    law_batch_keeps_registry_chained(db, scanned, txs, fork as int);
    law_rewind_keeps_registry_chained(next, fork);
    let back = after_rewind(next, fork)->Ok_0;
    let staged = derived(db.events, db.names, empty_staging(), txs)->Ok_0.staged;
    lemma_derived_height(db.events, db.names, empty_staging(), txs, fork as int);
    lemma_through_logged(db.events, staged, fork as int);
    assert forall|m: Seq<char>| #[trigger] entry(back.names, m) == entry(db.names, m) by {
        assert(entry(back.names, m) == live(latest(back.events, m)));
        assert(entry(db.names, m) == live(latest(db.events, m)));
    }
    lemma_table_unique(back.names, db.names);
    lemma_watch_all_grows(db.watched, txs, fork as int);
    lemma_mark_all_grows(db.watched, watch_all(db.watched, txs), txs, fork as int);
    lemma_unwatched_grown(db.watched, next.watched, fork as int);
}

/// Rewinding twice is rewinding to the lower of the two forks.
pub proof fn law_rewinds_compose(db: DbView, first: u32, second: u32)
    requires
        chained(db.events, db.names),
        second <= first,
    ensures
        after_rewind(db, first) matches Ok(a) && after_rewind(a, second) matches Ok(b) && after_rewind(
            db,
            second,
        ) matches Ok(c) && b.events == c.events && b.names == c.names,
{
    law_rewind_keeps_registry_chained(db, first);
    law_rewind_keeps_registry_chained(db, second);
    let a = after_rewind(db, first)->Ok_0;
    law_rewind_keeps_registry_chained(a, second);
    let b = after_rewind(a, second)->Ok_0;
    let c = after_rewind(db, second)->Ok_0;
    lemma_through_twice(db.events, first as int, second as int);
    assert forall|m: Seq<char>| #[trigger] entry(b.names, m) == entry(c.names, m) by {
        assert(entry(b.names, m) == live(latest(b.events, m)));
        assert(entry(c.names, m) == live(latest(c.events, m)));
    }
    lemma_table_unique(b.names, c.names);
}

// ── what ends a registration ────────────────────────────────────────────────

pub proof fn lemma_logged_rows(events: Seq<EventRow>, staged: Seq<NoteRecord>)
    ensures
        logged(events, staged).len() == events.len() + staged.len(),
        forall|i: int| 0 <= i < events.len() ==> logged(events, staged)[i] == #[trigger] events[i],
        forall|i: int|
            0 <= i < staged.len() ==> logged(events, staged)[events.len() + i].record
                == #[trigger] staged[i],
    decreases staged.len(),
{
    if staged.len() > 0 {
        let init = staged.drop_last();
        lemma_logged_rows(events, init);
        assert forall|i: int| 0 <= i < staged.len() implies logged(events, staged)[events.len()
            + i].record == #[trigger] staged[i] by {
            if i < init.len() {
                assert(logged(events, init)[events.len() + i].record == init[i]);
            }
        }
        assert forall|i: int| 0 <= i < events.len() implies logged(events, staged)[i] == #[trigger] events[i] by {
            assert(logged(events, init)[i] == events[i]);
        }
    }
}

proof fn lemma_named_ends(names: Seq<NoteRecord>, staged: Seq<NoteRecord>, name: Seq<char>)
    requires
        is_name_table(names),
    ensures
        is_name_table(named(names, staged)),
        entry(names, name) is Some && entry(named(names, staged), name) is None ==> exists|i: int|
            0 <= i < staged.len() && (#[trigger] staged[i]).name == name && staged[i].action
                == Action::Release.text(),
    decreases staged.len(),
{
    if staged.len() > 0 {
        let init = staged.drop_last();
        let last = staged.last();
        lemma_named_ends(names, init, name);
        let t = named(names, init);
        lemma_without(t, last.name);
        lemma_upserted(t, last);
        assert(entry(without(t, last.name), name) == (if name == last.name {
            None
        } else {
            entry(t, name)
        }));
        assert(entry(upserted(t, last), name) == (if name == last.name {
            Some(last)
        } else {
            entry(t, name)
        }));
        assert(last == staged[staged.len() - 1]);
        if entry(names, name) is Some && entry(named(names, staged), name) is None {
            if entry(t, name) is None {
                let i = choose|i: int|
                    0 <= i < init.len() && (#[trigger] init[i]).name == name && init[i].action
                        == Action::Release.text();
                assert(staged[i] == init[i]);
            } else {
                assert(staged[staged.len() - 1].name == name);
            }
        }
    }
}

/// A registration that a batch ends, it ends through a release it admitted.
pub proof fn law_registration_ends_by_release(
    db: DbView,
    scanned: Cursor,
    txs: Seq<TxView>,
    name: Seq<char>,
)
    requires
        is_name_table(db.names),
        after_batch(db, scanned, txs) is Ok,
        entry(db.names, name) is Some,
        entry(after_batch(db, scanned, txs)->Ok_0.names, name) is None,
    ensures
        ({
            let next = after_batch(db, scanned, txs)->Ok_0;
            exists|i: int|
                db.events.len() <= i < next.events.len() && (#[trigger] next.events[i]).record.name
                    == name && next.events[i].record.action == Action::Release.text()
        }),
{
    let staged = derived(db.events, db.names, empty_staging(), txs)->Ok_0.staged;
    let next = after_batch(db, scanned, txs)->Ok_0;
    lemma_named_ends(db.names, staged, name);
    lemma_logged_rows(db.events, staged);
    let i = choose|i: int|
        0 <= i < staged.len() && (#[trigger] staged[i]).name == name && staged[i].action
            == Action::Release.text();
    assert(next.events[db.events.len() + i].record == staged[i]);
}

// ── the order of consideration ──────────────────────────────────────────────

proof fn lemma_partition(s: Seq<CandidateView>, start: Option<Binding>)
    ensures
        (s.filter(goes_first(start)) + s.filter(goes_later(start))).to_multiset() == s.to_multiset(),
    decreases s.len(),
{
    broadcast use vstd::seq_lib::group_to_multiset_ensures;

    reveal(Seq::filter);
    let a = s.filter(goes_first(start));
    let b = s.filter(goes_later(start));
    vstd::seq_lib::lemma_multiset_commutative(a, b);
    if s.len() > 0 {
        let init = s.drop_last();
        let last = s.last();
        let a0 = init.filter(goes_first(start));
        let b0 = init.filter(goes_later(start));
        lemma_partition(init, start);
        vstd::seq_lib::lemma_multiset_commutative(a0, b0);
        assert(init.push(last) =~= s);
        if goes_first(start)(last) {
            assert(a == a0.push(last) && b == b0);
            assert(a0.push(last).to_multiset() =~= a0.to_multiset().insert(last));
        } else {
            assert(a == a0 && b == b0.push(last));
            assert(b0.push(last).to_multiset() =~= b0.to_multiset().insert(last));
        }
        assert(s.to_multiset() =~= init.to_multiset().insert(last));
        assert((a + b).to_multiset() =~= a.to_multiset().add(b.to_multiset()));
        assert((a0 + b0).to_multiset() =~= a0.to_multiset().add(b0.to_multiset()));
        assert((a + b).to_multiset() =~= (a0 + b0).to_multiset().insert(last));
    } else {
        assert(a + b =~= s);
    }
}

/// Every candidate of a name is considered once, and a release that discloses
/// the block-start `rcm` is considered before anything else.
pub proof fn law_release_considered_first(group: Seq<CandidateView>, start: Option<Binding>)
    ensures
        consideration_order(group, start).to_multiset() == group.to_multiset(),
        forall|i: int, j: int|
            0 <= i < j < consideration_order(group, start).len() && goes_first(start)(
                #[trigger] consideration_order(group, start)[j],
            ) ==> goes_first(start)(#[trigger] consideration_order(group, start)[i]),
{
    lemma_partition(group, start);
    let a = group.filter(goes_first(start));
    let b = group.filter(goes_later(start));
    let order = consideration_order(group, start);
    broadcast use vstd::seq_lib::group_filter_ensures;

    assert forall|i: int, j: int|
        0 <= i < j < order.len() && goes_first(start)(#[trigger] order[j]) implies goes_first(start)(
        #[trigger] order[i],
    ) by {
        if j >= a.len() {
            assert(order[j] == b[j - a.len()]);
            assert(goes_later(start)(b[j - a.len()]));
        }
        assert(order[i] == a[i]);
        assert(goes_first(start)(a[i]));
    }
}

// ── the sync position ───────────────────────────────────────────────────────

/// A batch leaves the position it scanned to. A rewind leaves the fork's height
/// and no position to resume from until the next batch; a rewind to a known
/// block leaves that block as the position. The height is never lost.
pub proof fn law_sync_position(db: DbView, scanned: Cursor, txs: Seq<TxView>, fork: u32, to: Cursor)
    requires
        db.account is Some,
    ensures
        after_batch(db, scanned, txs) matches Ok(next) ==> position(next.account) == Some(scanned)
            && reached(next.account) == Some(scanned.height),
        after_rewind(db, fork) matches Ok(next) ==> position(next.account) is None && reached(next.account)
            == Some(fork),
        after_rewind_to(db, to) matches Ok(next) ==> position(next.account) == Some(to) && reached(
            next.account,
        ) == Some(to.height),
{
    lemma_as_array32(scanned.hash);
    lemma_as_array32(to.hash);
    let (h, t) = (scanned.height, to.height);
    assert((h as i64) as u32 == h && (t as i64) as u32 == t && (fork as i64) as u32 == fork);
}

// ── resolution ──────────────────────────────────────────────────────────────

/// What is served of a name is its newest event, unless it is a release: the
/// binding that event's note committed to. No reading fails.
pub proof fn law_resolution_serves_the_newest_event(db: DbView, name: Seq<char>)
    requires
        chained(db.events, db.names),
    ensures
        match latest(db.events, name) {
            None => entry(db.names, name) is None,
            Some(row) => if row.record.action == Action::Release.text() {
                entry(db.names, name) is None
            } else {
                entry(db.names, name) == Some(row.record) && (served_registration()(row.record) matches Ok(
                    reg,
                ) && reg.name == name && reg.ua == row.record.ua && reg.expires_at
                    == row.record.extra.expires_at && reg.txid@ == row.record.txid && reg.last_action.text()
                    == row.record.action)
            },
        },
{
    lemma_latest(db.events, name);
    assert(entry(db.names, name) == live(latest(db.events, name)));
    if let Some(row) = latest(db.events, name) {
        let k = choose|k: int| 0 <= k < db.events.len() && db.events[k] == row;
        assert(is_sound(db.events[k].record));
        lemma_array32_of(row.record.txid);
        law_action_spelling_round_trips(stored_note(row.record.extra.memo, name, row.record.ua)->0.action);
    }
}

/// The event log is served whole: no reading of a row fails, and each row is
/// served as it was recorded.
pub proof fn law_events_are_served_as_recorded(db: DbView, k: int)
    requires
        chained(db.events, db.names),
        0 <= k < db.events.len(),
    ensures
        served_event()(db.events[k]) matches Ok(e) && e.id == db.events[k].id && e.name
            == db.events[k].record.name && e.ua == db.events[k].record.ua && e.expires_at
            == db.events[k].record.extra.expires_at && e.txid@ == db.events[k].record.txid
            && e.action.text() == db.events[k].record.action,
{
    let r = db.events[k].record;
    assert(is_sound(r));
    lemma_array32_of(r.txid);
    law_action_spelling_round_trips(stored_note(r.extra.memo, r.name, r.ua)->0.action);
}

// ── the watch set ───────────────────────────────────────────────────────────

/// The watch set misses nothing: it holds the nullifier of every unspent
/// watched note and of every live name, and holds none twice.
pub proof fn law_watch_set_is_complete(db: DbView)
    requires
        watch_set(db) is Ok,
    ensures
        watch_set(db)->Ok_0.no_duplicates(),
        forall|i: int|
            0 <= i < db.names.len() ==> exists|nf: [u8; 32]|
                watch_set(db)->Ok_0.contains(nf) && nf@ == (#[trigger] db.names[i]).extra.nullifier,
        forall|i: int|
            0 <= i < db.watched.len() && (#[trigger] db.watched[i]).spent_height is None ==> exists|
                nf: [u8; 32],
            | watch_set(db)->Ok_0.contains(nf) && nf@ == db.watched[i].nullifier,
{
    let stored = stored_nullifiers(db);
    let once = distinct(stored);
    let set = watch_set(db)->Ok_0;
    lemma_distinct(stored);
    lemma_read_all(once, read_nullifier());
    assert forall|i: int, j: int| 0 <= i < set.len() && 0 <= j < set.len() && i != j implies set[i] != set[j] by {
        assert(read_nullifier()(once[i]) == Ok::<[u8; 32], StoreError>(set[i]));
        assert(read_nullifier()(once[j]) == Ok::<[u8; 32], StoreError>(set[j]));
        lemma_array32_of(once[i]);
        lemma_array32_of(once[j]);
    }
    assert forall|x: Seq<u8>| #[trigger] stored.contains(x) implies exists|nf: [u8; 32]|
        set.contains(nf) && nf@ == x by {
        assert(once.contains(x));
        let k = choose|k: int| 0 <= k < once.len() && once[k] == x;
        assert(read_nullifier()(once[k]) == Ok::<[u8; 32], StoreError>(set[k]));
        lemma_array32_of(x);
        assert(set.contains(set[k]) && set[k]@ == x);
    }
    let unspent = db.watched.filter(|w: WatchedView| w.spent_height is None);
    assert forall|i: int| 0 <= i < db.names.len() implies exists|nf: [u8; 32]|
        set.contains(nf) && nf@ == (#[trigger] db.names[i]).extra.nullifier by {
        assert(stored[unspent.len() + i] == db.names[i].extra.nullifier);
        assert(stored.contains(db.names[i].extra.nullifier));
    }
    assert forall|i: int|
        0 <= i < db.watched.len() && (#[trigger] db.watched[i]).spent_height is None implies exists|
        nf: [u8; 32],
    | set.contains(nf) && nf@ == db.watched[i].nullifier by {
        broadcast use vstd::seq_lib::group_filter_ensures;

        assert(unspent.contains(db.watched[i]));
        let k = choose|k: int| 0 <= k < unspent.len() && unspent[k] == db.watched[i];
        assert(stored[k] == db.watched[i].nullifier);
        assert(stored.contains(db.watched[i].nullifier));
    }
}

} // verus!
