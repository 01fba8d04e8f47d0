//! By what right the registry's events are recorded: every update and every
//! release consumed a note of the registry's own.

use vstd::prelude::*;

use super::admission::{
    admission, block_candidates, candidate_name, candidate_of, candidate_order, consider_all,
    consideration_order, current_binding, derive_block, derive_group, derive_groups, derived,
    empty_staging, goes_first, goes_later, is_update_spent, key_taken, record_of, spends_update,
    tx_height, Binding, CandidateView, EventRow, NoteRecord, StagingView, TxView,
};
use super::laws::{
    chained, holds_staged, holds_state, in_chain_order, is_candidate, lemma_block_candidates,
    lemma_batch_starts, lemma_consider_all_keeps, lemma_group_keeps, lemma_groups_keep,
    lemma_logged_rows,
};
use super::notes::{note_opening, RelaxedIronwoodOutput};
use super::provenance::{carries, from, lemma_block_from};
use super::state::{after_batch, Cursor, DbView};
use crate::kernel::Action;
use crate::log::{all_through, has_room, latest, lemma_latest};
use crate::order::{lemma_filter_keeps, lemma_run_len, lemma_sort_keeps, run_len, sort_by};
use crate::table::logged;
use crate::text::lemma_array32_of;

verus! {

/// `consumed` is the nullifier of the note that holds the name.
pub open spec fn holder_consumed(before: Seq<EventRow>, name: Seq<char>, consumed: [u8; 32]) -> bool {
    latest(before, name) matches Some(row) && row.record.extra.nullifier == consumed@
}

/// A note of the name, recorded before, has this nullifier.
pub open spec fn was_held(before: Seq<EventRow>, name: Seq<char>, nullifier: [u8; 32]) -> bool {
    exists|j: int|
        0 <= j < before.len() && (#[trigger] before[j]).record.name == name
            && before[j].record.extra.nullifier == nullifier@
}

/// The output is a genuine update of the name, of a note that held it, and its
/// own note has the nullifier `consumed`.
pub open spec fn is_genuine_update(
    before: Seq<EventRow>,
    name: Seq<char>,
    tx: TxView,
    o: RelaxedIronwoodOutput,
    consumed: [u8; 32],
) -> bool {
    match candidate_of(o, tx.txid) {
        Some(c) => {
            &&& c.note.action == Action::Update
            &&& c.note.name == name
            &&& note_opening(c.note, o) is Some
            &&& o.nullifier == Some(consumed)
            &&& was_held(before, name, o.consumed)
        },
        None => false,
    }
}

/// `consumed` is the nullifier of a genuine update of the name in the same
/// block.
pub open spec fn sibling_consumed(
    txs: Seq<TxView>,
    before: Seq<EventRow>,
    height: u32,
    name: Seq<char>,
    consumed: [u8; 32],
) -> bool {
    exists|tx: TxView, o: RelaxedIronwoodOutput|
        txs.contains(tx) && tx.relaxed.contains(o) && tx.height == height && #[trigger] is_genuine_update(
            before,
            name,
            tx,
            o,
            consumed,
        )
}

/// The output carries the record and consumed what the record's action demands:
/// an update the note that holds the name, a release that note or the note of
/// an update in its own block.
pub open spec fn authorizes(
    txs: Seq<TxView>,
    before: Seq<EventRow>,
    tx: TxView,
    o: RelaxedIronwoodOutput,
    r: NoteRecord,
) -> bool {
    &&& carries(tx, o, r)
    &&& r.action == Action::Update.text() ==> holder_consumed(before, r.name, o.consumed)
    &&& r.action == Action::Release.text() ==> holder_consumed(before, r.name, o.consumed)
        || sibling_consumed(txs, before, tx.height, r.name, o.consumed)
}

pub open spec fn is_authorized(txs: Seq<TxView>, before: Seq<EventRow>, r: NoteRecord) -> bool {
    exists|tx: TxView, o: RelaxedIronwoodOutput|
        txs.contains(tx) && tx.relaxed.contains(o) && #[trigger] authorizes(txs, before, tx, o, r)
}

spec fn all_authorized(txs: Seq<TxView>, events: Seq<EventRow>, staged: Seq<NoteRecord>) -> bool {
    forall|k: int|
        0 <= k < staged.len() ==> is_authorized(txs, logged(events, staged.take(k)), #[trigger] staged[k])
}

spec fn named_from(txs: Seq<TxView>, height: u32, name: Seq<char>) -> spec_fn(CandidateView) -> bool {
    |c: CandidateView| from(txs, height)(c) && is_candidate()(c) && c.note.name == name
}

/// The texts of the actions differ.
proof fn lemma_action_texts()
    ensures
        Action::Claim.text() != Action::Update.text(),
        Action::Claim.text() != Action::Release.text(),
        Action::Update.text() != Action::Release.text(),
{
    crate::kernel::law_action_spelling_round_trips(Action::Claim);
    crate::kernel::law_action_spelling_round_trips(Action::Update);
    crate::kernel::law_action_spelling_round_trips(Action::Release);
}

/// A binding that holds is that of a row.
proof fn lemma_held(log: Seq<EventRow>, name: Seq<char>, b: Binding)
    requires
        holds_state(log, name, Some(b)),
    ensures
        holder_consumed(log, name, b.nullifier),
        was_held(log, name, b.nullifier),
{
    lemma_latest(log, name);
    let row = latest(log, name)->0;
    lemma_array32_of(row.record.extra.nullifier);
    let j = choose|j: int| 0 <= j < log.len() && log[j] == row;
    assert(log[j].record.name == name);
}

#[verifier::rlimit(40)]
proof fn lemma_consider_authorized(
    txs: Seq<TxView>,
    events: Seq<EventRow>,
    height: u32,
    group: Seq<CandidateView>,
    start: Option<Binding>,
    state: (StagingView, Option<Binding>),
    c: CandidateView,
)
    requires
        holds_state(logged(events, state.0.staged), c.note.name, state.1),
        named_from(txs, height, c.note.name)(c),
        forall|i: int| 0 <= i < group.len() ==> named_from(txs, height, c.note.name)(#[trigger] group[i]),
        start matches Some(b) ==> was_held(logged(events, state.0.staged), c.note.name, b.nullifier),
        admission(
            state.1,
            c.note,
            c.output,
            note_opening(c.note, c.output),
            spends_update(group, start, c.output.consumed),
        ) is Some,
    ensures
        is_authorized(
            txs,
            logged(events, state.0.staged),
            record_of(
                height,
                c,
                admission(
                    state.1,
                    c.note,
                    c.output,
                    note_opening(c.note, c.output),
                    spends_update(group, start, c.output.consumed),
                )->0,
            ),
        ),
{
    let before = logged(events, state.0.staged);
    let spends = spends_update(group, start, c.output.consumed);
    let a = admission(state.1, c.note, c.output, note_opening(c.note, c.output), spends)->0;
    let r = record_of(height, c, a);
    let name = c.note.name;
    lemma_action_texts();
    let (tx, o) = choose|tx: TxView, o: RelaxedIronwoodOutput|
        txs.contains(tx) && tx.relaxed.contains(o) && tx.height == height && #[trigger] candidate_of(
            o,
            tx.txid,
        ) == Some(c);
    assert(o == c.output);
    assert(carries(tx, o, r));
    if state.1 is Some {
        lemma_held(before, name, state.1->0);
    }
    if c.note.action == Action::Release && spends {
        let b = start->0;
        let i = choose|i: int|
            0 <= i < group.len() && is_update_spent(#[trigger] group[i], b, c.output.consumed);
        let d = group[i];
        assert(named_from(txs, height, name)(d));
        let (tx2, o2) = choose|tx: TxView, o: RelaxedIronwoodOutput|
            txs.contains(tx) && tx.relaxed.contains(o) && tx.height == height && #[trigger] candidate_of(
                o,
                tx.txid,
            ) == Some(d);
        assert(o2 == d.output);
        assert(is_genuine_update(before, name, tx2, o2, o.consumed));
        assert(sibling_consumed(txs, before, tx.height, name, o.consumed));
    }
    assert(authorizes(txs, before, tx, o, r));
}

/// What was held stays in the log.
proof fn lemma_was_held_stays(events: Seq<EventRow>, staged: Seq<NoteRecord>, more: NoteRecord, name: Seq<char>, nf: [u8; 32])
    requires
        was_held(logged(events, staged), name, nf),
    ensures
        was_held(logged(events, staged.push(more)), name, nf),
{
    assert(staged.push(more).drop_last() =~= staged);
    let log = logged(events, staged);
    let next = logged(events, staged.push(more));
    let j = choose|j: int|
        0 <= j < log.len() && (#[trigger] log[j]).record.name == name && log[j].record.extra.nullifier == nf@;
    assert(next[j] == log[j]);
}

#[verifier::rlimit(40)]
proof fn lemma_consider_all_authorized(
    txs: Seq<TxView>,
    events: Seq<EventRow>,
    names: Seq<NoteRecord>,
    height: u32,
    group: Seq<CandidateView>,
    start: Option<Binding>,
    st: StagingView,
    order: Seq<CandidateView>,
    name: Seq<char>,
)
    requires
        all_authorized(txs, events, st.staged),
        holds_staged(events, names, st, height as int),
        holds_state(logged(events, st.staged), name, start),
        forall|i: int| 0 <= i < group.len() ==> named_from(txs, height, name)(#[trigger] group[i]),
        forall|i: int| 0 <= i < order.len() ==> named_from(txs, height, name)(#[trigger] order[i]),
        has_room(events, consider_all(events, height, group, start, st, order).0.staged.len()),
    ensures
        all_authorized(txs, events, consider_all(events, height, group, start, st, order).0.staged),
        start matches Some(b) ==> was_held(
            logged(events, consider_all(events, height, group, start, st, order).0.staged),
            name,
            b.nullifier,
        ),
    decreases order.len(),
{
    if order.len() == 0 {
        if start is Some {
            lemma_held(logged(events, st.staged), name, start->0);
        }
    } else {
        let init = order.drop_last();
        let c = order[order.len() - 1];
        assert(order.last() == c);
        assert forall|i: int| 0 <= i < init.len() implies named_from(txs, height, name)(#[trigger] init[i]) by {
            assert(init[i] == order[i]);
        }
        let state = consider_all(events, height, group, start, st, init);
        let next = consider_all(events, height, group, start, st, order);
        assert(next.0.staged == state.0.staged || next.0.staged.len() == state.0.staged.len() + 1);
        assert(has_room(events, state.0.staged.len()));
        lemma_consider_all_authorized(txs, events, names, height, group, start, st, init, name);
        assert forall|i: int| 0 <= i < init.len() implies is_candidate()(#[trigger] init[i])
            && init[i].note.name == name by {
            assert(named_from(txs, height, name)(init[i]));
        }
        lemma_consider_all_keeps(events, names, height, group, start, st, init, name);
        assert(named_from(txs, height, name)(c));
        let spends = spends_update(group, start, c.output.consumed);
        let admitted = admission(state.1, c.note, c.output, note_opening(c.note, c.output), spends);
        if admitted is Some && !key_taken(
            events,
            state.0.staged,
            record_of(height, c, admitted->0),
        ) {
            let record = record_of(height, c, admitted->0);
            assert(next.0.staged == state.0.staged.push(record));
            lemma_consider_authorized(txs, events, height, group, start, state, c);
            let staged = next.0.staged;
            assert forall|k: int| 0 <= k < staged.len() implies is_authorized(
                txs,
                logged(events, staged.take(k)),
                #[trigger] staged[k],
            ) by {
                if k < state.0.staged.len() {
                    assert(staged.take(k) =~= state.0.staged.take(k));
                    assert(staged[k] == state.0.staged[k]);
                } else {
                    assert(staged.take(k) =~= state.0.staged);
                }
            }
            if start is Some {
                lemma_was_held_stays(events, state.0.staged, record, name, start->0.nullifier);
            }
        } else {
            assert(next == state);
        }
    }
}

#[verifier::rlimit(40)]
proof fn lemma_group_authorized(
    txs: Seq<TxView>,
    events: Seq<EventRow>,
    names: Seq<NoteRecord>,
    height: u32,
    st: StagingView,
    group: Seq<CandidateView>,
)
    requires
        group.len() > 0,
        all_authorized(txs, events, st.staged),
        holds_staged(events, names, st, height as int),
        has_room(events, st.staged.len()),
        forall|i: int|
            0 <= i < group.len() ==> named_from(txs, height, group[0].note.name)(#[trigger] group[i]),
        derive_group(events, names, height, st, group) is Ok,
        has_room(events, derive_group(events, names, height, st, group)->Ok_0.staged.len()),
    ensures
        all_authorized(txs, events, derive_group(events, names, height, st, group)->Ok_0.staged),
{
    let name = group[0].note.name;
    let start = current_binding(names, st.pending, name)->Ok_0;
    let order = consideration_order(group, start);
    let p = named_from(txs, height, name);
    lemma_filter_keeps(group, goes_first(start), p);
    lemma_filter_keeps(group, goes_later(start), p);
    let a = group.filter(goes_first(start));
    let b = group.filter(goes_later(start));
    assert forall|i: int| 0 <= i < order.len() implies p(#[trigger] order[i]) by {
        if i < a.len() {
            assert(p(a[i]));
        } else {
            assert(p(b[i - a.len()]));
        }
    }
    assert(holds_state(logged(events, st.staged), name, start));
    lemma_consider_all_authorized(txs, events, names, height, group, start, st, order, name);
}

/// Consideration only adds.
proof fn lemma_consider_all_grows(
    events: Seq<EventRow>,
    height: u32,
    group: Seq<CandidateView>,
    start: Option<Binding>,
    st: StagingView,
    order: Seq<CandidateView>,
)
    requires
    ensures
        consider_all(events, height, group, start, st, order).0.staged.len() >= st.staged.len(),
    decreases order.len(),
{
    if order.len() > 0 {
        lemma_consider_all_grows(events, height, group, start, st, order.drop_last());
    }
}

proof fn lemma_groups_grow(
    events: Seq<EventRow>,
    names: Seq<NoteRecord>,
    height: u32,
    st: StagingView,
    candidates: Seq<CandidateView>,
)
    requires
        derive_groups(events, names, height, st, candidates) is Ok,
    ensures
        derive_groups(events, names, height, st, candidates)->Ok_0.staged.len() >= st.staged.len(),
    decreases candidates.len(),
{
    if candidates.len() > 0 {
        lemma_run_len(candidates, candidate_name());
        let n = run_len(candidates, candidate_name()) as int;
        let group = candidates.take(n);
        let start = current_binding(names, st.pending, group[0].note.name)->Ok_0;
        lemma_consider_all_grows(events, height, group, start, st, consideration_order(group, start));
        lemma_groups_grow(
            events,
            names,
            height,
            derive_group(events, names, height, st, group)->Ok_0,
            candidates.skip(n),
        );
    }
}

proof fn lemma_derived_grows(
    events: Seq<EventRow>,
    names: Seq<NoteRecord>,
    st: StagingView,
    txs: Seq<TxView>,
)
    requires
        derived(events, names, st, txs) is Ok,
    ensures
        derived(events, names, st, txs)->Ok_0.staged.len() >= st.staged.len(),
    decreases txs.len(),
{
    if txs.len() > 0 {
        lemma_run_len(txs, tx_height());
        let n = run_len(txs, tx_height()) as int;
        let block = txs.take(n);
        lemma_groups_grow(
            events,
            names,
            block[0].height,
            st,
            sort_by(block_candidates(block), candidate_order()),
        );
        lemma_derived_grows(
            events,
            names,
            derive_block(events, names, st, block)->Ok_0,
            txs.skip(n),
        );
    }
}

#[verifier::rlimit(40)]
proof fn lemma_groups_authorized(
    txs: Seq<TxView>,
    events: Seq<EventRow>,
    names: Seq<NoteRecord>,
    height: u32,
    st: StagingView,
    candidates: Seq<CandidateView>,
)
    requires
        all_authorized(txs, events, st.staged),
        holds_staged(events, names, st, height as int),
        forall|i: int|
            0 <= i < candidates.len() ==> from(txs, height)(#[trigger] candidates[i]) && is_candidate()(
                candidates[i],
            ),
        derive_groups(events, names, height, st, candidates) is Ok,
        has_room(events, derive_groups(events, names, height, st, candidates)->Ok_0.staged.len()),
    ensures
        all_authorized(txs, events, derive_groups(events, names, height, st, candidates)->Ok_0.staged),
    decreases candidates.len(),
{
    lemma_groups_grow(events, names, height, st, candidates);
    if candidates.len() > 0 {
        lemma_run_len(candidates, candidate_name());
        let n = run_len(candidates, candidate_name()) as int;
        let group = candidates.take(n);
        let name = group[0].note.name;
        assert forall|i: int| 0 <= i < group.len() implies named_from(txs, height, name)(
            #[trigger] group[i],
        ) && is_candidate()(group[i]) && group[i].note.name == name by {
            assert(group[i] == candidates[i]);
            assert(candidate_name()(candidates[i]) == candidate_name()(candidates[0]));
        }
        let next = derive_group(events, names, height, st, group)->Ok_0;
        let rest = candidates.skip(n);
        lemma_groups_grow(events, names, height, next, rest);
        lemma_group_authorized(txs, events, names, height, st, group);
        lemma_group_keeps(events, names, height, st, group);
        assert forall|i: int| 0 <= i < rest.len() implies from(txs, height)(#[trigger] rest[i])
            && is_candidate()(rest[i]) by {
            assert(rest[i] == candidates[n + i]);
        }
        lemma_groups_authorized(txs, events, names, height, next, rest);
    }
}

/// What holds up to a height holds up to a greater one.
proof fn lemma_holds_higher(
    events: Seq<EventRow>,
    names: Seq<NoteRecord>,
    st: StagingView,
    height: int,
    higher: int,
)
    requires
        holds_staged(events, names, st, height),
        height <= higher,
    ensures
        holds_staged(events, names, st, higher),
{
}

/// Behind a block at `h` the transactions are still in chain order, and the
/// batch's.
proof fn lemma_rest_in_order(txs: Seq<TxView>, part: Seq<TxView>, n: int, height: int, h: u32)
    requires
        in_chain_order(part, height),
        0 < n <= part.len(),
        part[0].height == h,
        forall|i: int| 0 <= i < part.len() ==> txs.contains(#[trigger] part[i]),
    ensures
        in_chain_order(part.skip(n), h as int),
        forall|i: int| 0 <= i < part.skip(n).len() ==> txs.contains(#[trigger] part.skip(n)[i]),
{
    let rest = part.skip(n);
    assert forall|i: int| 0 <= i < rest.len() implies h as int <= (#[trigger] rest[i]).height
        && txs.contains(rest[i]) by {
        assert(rest[i] == part[n + i]);
        assert(part[0].height <= part[n + i].height);
    }
    assert forall|i: int, j: int| 0 <= i < j < rest.len() implies (#[trigger] rest[i]).height <= (
    #[trigger] rest[j]).height by {
        assert(part[n + i].height <= part[n + j].height);
    }
}

/// One block keeps the invariant and the authority of what it stages.
#[verifier::rlimit(40)]
proof fn lemma_block_authorized(
    txs: Seq<TxView>,
    events: Seq<EventRow>,
    names: Seq<NoteRecord>,
    st: StagingView,
    block: Seq<TxView>,
    h: u32,
)
    requires
        all_authorized(txs, events, st.staged),
        holds_staged(events, names, st, h as int),
        block.len() > 0,
        block[0].height == h,
        forall|i: int| 0 <= i < block.len() ==> txs.contains(#[trigger] block[i]) && block[i].height == h,
        derive_block(events, names, st, block) is Ok,
        has_room(events, derive_block(events, names, st, block)->Ok_0.staged.len()),
    ensures
        all_authorized(txs, events, derive_block(events, names, st, block)->Ok_0.staged),
        holds_staged(events, names, derive_block(events, names, st, block)->Ok_0, h as int),
{
    let candidates = sort_by(block_candidates(block), candidate_order());
    lemma_block_from(txs, block, h);
    lemma_block_candidates(block);
    lemma_sort_keeps(block_candidates(block), candidate_order(), from(txs, h));
    lemma_sort_keeps(block_candidates(block), candidate_order(), is_candidate());
    lemma_groups_authorized(txs, events, names, h, st, candidates);
    lemma_groups_keep(events, names, h, st, candidates);
}

#[verifier::rlimit(40)]
proof fn lemma_derived_authorized(
    txs: Seq<TxView>,
    events: Seq<EventRow>,
    names: Seq<NoteRecord>,
    st: StagingView,
    part: Seq<TxView>,
    height: int,
)
    requires
        all_authorized(txs, events, st.staged),
        holds_staged(events, names, st, height),
        in_chain_order(part, height),
        forall|i: int| 0 <= i < part.len() ==> txs.contains(#[trigger] part[i]),
        derived(events, names, st, part) is Ok,
        has_room(events, derived(events, names, st, part)->Ok_0.staged.len()),
    ensures
        all_authorized(txs, events, derived(events, names, st, part)->Ok_0.staged),
    decreases part.len(),
{
    if part.len() > 0 {
        lemma_run_len(part, tx_height());
        let n = run_len(part, tx_height()) as int;
        let block = part.take(n);
        let h = part[0].height;
        assert forall|i: int| 0 <= i < block.len() implies txs.contains(#[trigger] block[i])
            && block[i].height == h by {
            assert(block[i] == part[i]);
            assert(tx_height()(part[i]) == tx_height()(part[0]));
        }
        lemma_holds_higher(events, names, st, height, h as int);
        let next = derive_block(events, names, st, block)->Ok_0;
        let rest = part.skip(n);
        lemma_derived_grows(events, names, next, rest);
        lemma_block_authorized(txs, events, names, st, block, h);
        lemma_rest_in_order(txs, part, n, height, h);
        lemma_derived_authorized(txs, events, names, next, rest, h as int);
    }
}

proof fn lemma_logged_take(events: Seq<EventRow>, staged: Seq<NoteRecord>, k: int)
    requires
        0 <= k <= staged.len(),
    ensures
        logged(events, staged).take(events.len() + k) == logged(events, staged.take(k)),
    decreases staged.len(),
{
    lemma_logged_rows(events, staged);
    if k == staged.len() {
        assert(staged.take(k) =~= staged);
        assert(logged(events, staged).take(events.len() + k) =~= logged(events, staged));
    } else {
        let init = staged.drop_last();
        lemma_logged_rows(events, init);
        lemma_logged_take(events, init, k);
        assert(init.take(k) =~= staged.take(k));
        assert(logged(events, staged).take(events.len() + k) =~= logged(events, init).take(events.len() + k));
    }
}

/// Every update that a batch records consumed the note that held its name, and
/// every release that note or the note of a genuine update in its own block:
/// only the registry's key can reveal those nullifiers. Claims show no such
/// thing.
#[verifier::rlimit(40)]
pub proof fn law_changes_consume_the_registry_s_notes(
    db: DbView,
    scanned: Cursor,
    txs: Seq<TxView>,
    height: int,
)
    requires
        chained(db.events, db.names),
        all_through(db.events, height),
        in_chain_order(txs, height),
    ensures
        after_batch(db, scanned, txs) matches Ok(next) ==> forall|i: int|
            db.events.len() <= i < next.events.len() ==> is_authorized(
                txs,
                next.events.take(i),
                (#[trigger] next.events[i]).record,
            ),
{
    if let Ok(next) = after_batch(db, scanned, txs) {
        lemma_batch_starts(db.events, db.names, height);
        lemma_batch_authorized(db.events, db.names, txs, height);
    }
}

#[verifier::rlimit(40)]
proof fn lemma_batch_authorized(
    events: Seq<EventRow>,
    names: Seq<NoteRecord>,
    txs: Seq<TxView>,
    height: int,
)
    requires
        holds_staged(events, names, empty_staging(), height),
        in_chain_order(txs, height),
        derived(events, names, empty_staging(), txs) is Ok,
        has_room(events, derived(events, names, empty_staging(), txs)->Ok_0.staged.len()),
    ensures
        ({
            let log = logged(events, derived(events, names, empty_staging(), txs)->Ok_0.staged);
            forall|i: int|
                events.len() <= i < log.len() ==> is_authorized(txs, log.take(i), (#[trigger] log[i]).record)
        }),
{
    let staged = derived(events, names, empty_staging(), txs)->Ok_0.staged;
    let log = logged(events, staged);
    assert forall|i: int| 0 <= i < txs.len() implies txs.contains(#[trigger] txs[i]) by {}
    lemma_derived_authorized(txs, events, names, empty_staging(), txs, height);
    lemma_logged_rows(events, staged);
    assert forall|i: int| events.len() <= i < log.len() implies is_authorized(
        txs,
        log.take(i),
        (#[trigger] log[i]).record,
    ) by {
        let k = i - events.len();
        lemma_logged_take(events, staged, k);
        assert(log[events.len() + k].record == staged[k]);
    }
}

} // verus!
