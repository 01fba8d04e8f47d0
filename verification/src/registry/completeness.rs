//! Every genuine name note is recorded, and serves its name from then on.

use vstd::prelude::*;

use super::admission::{
    admission, block_candidates, candidate_of, consider, consider_all, consideration_order,
    current_binding, derive_block, derive_group, derive_groups, derived, empty_staging, goes_first,
    goes_later, key_taken, output_candidates, read_binding, record_of, same_event, spends_update,
    Admitted, Binding, CandidateView, EventRow, NoteRecord, StagingView, TxView,
};
use super::laws::{chained, law_release_considered_first, lemma_logged_rows, lemma_states_hold};
use super::locality::{
    all_read, block_outcome, lemma_batch_is_local, lemma_candidates_split, lemma_filter_every,
    lemma_filter_push, lemma_named_is_local, lemma_no_notes, name_notes, notes_for, records_for,
};
use super::notes::{memo_opening, parsed_note, NoteView, RelaxedIronwoodOutput};
use super::state::{after_batch, Cursor, DbView};
use crate::kernel::{
    action_of, bound_opening, law_action_spelling_round_trips, law_moves, Action, Tip,
};
use crate::log::{latest, lemma_latest, next_id};
use crate::store::StoreError;
use crate::table::{entry, live, logged};
use crate::text::{lemma_array32_of, lemma_as_array32};

verus! {

/// Admission asks for these things and nothing more: an opening, a nullifier of
/// its own, a predecessor that the note discloses, and a state of the name that
/// the action fits. A claim fits a name that is not live, from 32 zero bytes. A
/// change fits a live name, whatever action brought it there, from its `rcm`,
/// and consumes the note that holds it; a release may consume an update of its
/// own block instead.
pub proof fn law_admission_is_exact(
    binding: Option<Binding>,
    note: NoteView,
    output: RelaxedIronwoodOutput,
    opening: Option<([u8; 32], [u8; 32])>,
    spends_block_update: bool,
    a: Admitted,
)
    ensures
        admission(binding, note, output, opening, spends_block_update) == Some(a) <==> {
            &&& opening == Some((a.psi, a.rcm))
            &&& output.nullifier == Some(a.nullifier)
            &&& if note.prev_rcm is Some {
                note.prev_rcm == Some(a.prev_rcm)
            } else {
                forall|i: int| 0 <= i < 32 ==> #[trigger] a.prev_rcm@[i] == 0
            }
            &&& match note.action {
                Action::Claim => (binding matches Some(b) ==> b.tip.action == Action::Release) && forall|i: int|
                    0 <= i < 32 ==> #[trigger] a.prev_rcm@[i] == 0,
                Action::Update => binding matches Some(b) && b.tip.action != Action::Release && b.tip.rcm
                    == a.prev_rcm && b.nullifier == output.consumed,
                Action::Release => binding matches Some(b) && b.tip.action != Action::Release && b.tip.rcm
                    == a.prev_rcm && (b.nullifier == output.consumed || spends_block_update),
            }
        },
{
    let tip = super::admission::tip_of(binding);
    law_moves(tip, note.action, a.prev_rcm);
    law_moves(None, Action::Claim, a.prev_rcm);
    law_moves(tip, note.action, note.disclosed_prev());
    law_moves(None, Action::Claim, crate::kernel::ZERO_PREV_RCM);
    if let Some(x) = admission(binding, note, output, opening, spends_block_update) {
        law_moves(tip, note.action, x.prev_rcm);
    }
    let zero = crate::kernel::ZERO_PREV_RCM;
    if forall|i: int| 0 <= i < 32 ==> #[trigger] a.prev_rcm@[i] == 0 {
        assert(a.prev_rcm == zero);
    }
}

/// The note may extend `prev` on a name whose newest event is `tip`, with an
/// output that consumed the note of the nullifier `consumed`.
pub open spec fn may_extend(
    tip: Option<EventRow>,
    action: Action,
    prev: [u8; 32],
    consumed: [u8; 32],
) -> bool {
    if action == Action::Claim {
        &&& tip matches Some(row) ==> row.record.action == "release"@
        &&& forall|i: int| 0 <= i < 32 ==> #[trigger] prev@[i] == 0
    } else {
        tip matches Some(row) && row.record.action != "release"@ && row.record.rcm == prev@
            && row.record.extra.nullifier == consumed@
    }
}

/// The note discloses the predecessor `prev`; a claim need not.
pub open spec fn discloses(note: NoteView, prev: [u8; 32]) -> bool {
    note.prev_rcm == Some(prev) || (note.prev_rcm is None && forall|i: int|
        0 <= i < 32 ==> #[trigger] prev@[i] == 0)
}

/// The expiry a note is bound with: the word `none` where it carries none.
pub open spec fn bound_expiry(note: NoteView) -> Seq<char> {
    match note.expires_at {
        Some(e) => e,
        None => "none"@,
    }
}

/// The output is a self-send whose memo states the note.
pub open spec fn states(o: RelaxedIronwoodOutput, note: NoteView) -> bool {
    o.is_sent && o.memo is Some && parsed_note(o.memo->0@) == Some(note)
}

/// Some note for `name` is stated by the output.
pub open spec fn concerns(o: RelaxedIronwoodOutput, name: Seq<char>) -> bool {
    exists|note: NoteView| #[trigger] states(o, note) && note.name == name
}

/// The record says what the note says, where it was mined, and what it was
/// opened to.
pub open spec fn is_record(
    r: NoteRecord,
    tx: TxView,
    o: RelaxedIronwoodOutput,
    note: NoteView,
    prev: [u8; 32],
    opening: ([u8; 32], [u8; 32]),
) -> bool {
    &&& r.name == note.name
    &&& r.ua == note.ua
    &&& action_of(r.action) == Some(note.action)
    &&& r.extra.expires_at == bound_expiry(note)
    &&& r.extra.prev_rcm == prev@
    &&& r.extra.psi == opening.0@
    &&& r.rcm == opening.1@
    &&& o.nullifier matches Some(nf) && r.extra.nullifier == nf@
    &&& o.memo matches Some(memo) && r.extra.memo == memo@
    &&& r.cmx == o.cmx@
    &&& r.txid == tx.txid@
    &&& r.height == tx.height
    &&& o.index <= i64::MAX ==> r.action_index == o.index
}

/// No event is recorded for the name at this output of the transaction.
pub open spec fn is_fresh(
    events: Seq<EventRow>,
    name: Seq<char>,
    tx: TxView,
    o: RelaxedIronwoodOutput,
) -> bool {
    forall|i: int|
        0 <= i < events.len() ==> !((#[trigger] events[i]).record.name == name && events[i].record.height
            == tx.height && events[i].record.txid == tx.txid@ && events[i].record.action_index
            == o.index as i64)
}

/// The output carries a genuine note: one that it states, that its commitment
/// opens to, and that may extend the name's newest event.
pub open spec fn is_genuine(
    tip: Option<EventRow>,
    o: RelaxedIronwoodOutput,
    note: NoteView,
    prev: [u8; 32],
    opening: ([u8; 32], [u8; 32]),
) -> bool {
    &&& states(o, note)
    &&& o.nullifier is Some
    &&& discloses(note, prev)
    &&& may_extend(tip, note.action, prev, o.consumed)
    &&& bound_opening(
        o.note.spec_parts(),
        o.cmx,
        note.action,
        note.name,
        note.ua,
        bound_expiry(note),
        prev,
    ) == Some(opening)
}

// ── the state of a name ─────────────────────────────────────────────────────

/// `b` is what the event `tip` leaves of its name.
spec fn is_state(tip: Option<EventRow>, b: Option<Binding>) -> bool {
    match tip {
        None => b is None,
        Some(row) => if row.record.action == "release"@ {
            b matches Some(x) ==> x.tip.action == Action::Release
        } else {
            b matches Some(x) && x.tip.rcm@ == row.record.rcm && x.nullifier@
                == row.record.extra.nullifier && x.tip.action != Action::Release
        },
    }
}

/// The stored state of a name is what its newest event left.
proof fn lemma_start(events: Seq<EventRow>, names: Seq<NoteRecord>, name: Seq<char>)
    requires
        chained(events, names),
    ensures
        all_read(names),
        read_binding(names, name) matches Ok(b) && is_state(latest(events, name), b),
{
    lemma_states_hold(events, names);
    assert forall|m: Seq<char>| #[trigger] read_binding(names, m) is Ok by {
        assert(super::admission::current_binding(names, Map::empty(), m) == read_binding(names, m));
    }
    assert(super::admission::current_binding(names, Map::empty(), name) == read_binding(names, name));
    lemma_latest(events, name);
    assert(entry(names, name) == live(latest(events, name)));
    if let Some(row) = latest(events, name) {
        let k = choose|k: int| 0 <= k < events.len() && events[k] == row;
        assert(super::laws::is_sound(events[k].record));
        lemma_array32_of(row.record.rcm);
        lemma_array32_of(row.record.extra.nullifier);
        let a = action_of(row.record.action)->0;
        law_action_spelling_round_trips(a);
        law_action_spelling_round_trips(Action::Release);
        assert(a.text() == row.record.action);
    }
}

/// A genuine note is admitted in the state that its name's newest event left.
proof fn lemma_genuine_is_admitted(
    tip: Option<EventRow>,
    binding: Option<Binding>,
    o: RelaxedIronwoodOutput,
    note: NoteView,
    prev: [u8; 32],
    opening: ([u8; 32], [u8; 32]),
    spends: bool,
)
    requires
        is_genuine(tip, o, note, prev, opening),
        is_state(tip, binding),
    ensures
        admission(
            binding,
            note,
            o,
            super::notes::note_opening(note, o),
            spends,
        ) == Some(
            Admitted { prev_rcm: prev, psi: opening.0, rcm: opening.1, nullifier: o.nullifier->0 },
        ),
{
    let a = Admitted { prev_rcm: prev, psi: opening.0, rcm: opening.1, nullifier: o.nullifier->0 };
    let found = super::notes::note_opening(note, o);
    law_moves(None, Action::Claim, prev);
    assert(note.disclosed_prev() == prev);
    assert(note.expiry() == bound_expiry(note));
    assert(found == Some(opening));
    if let Some(x) = binding {
        lemma_as_array32(x.tip.rcm);
        lemma_as_array32(prev);
        lemma_as_array32(x.nullifier);
        lemma_as_array32(o.consumed);
    }
    law_admission_is_exact(binding, note, o, found, spends, a);
}

proof fn lemma_record(
    tx: TxView,
    o: RelaxedIronwoodOutput,
    note: NoteView,
    prev: [u8; 32],
    opening: ([u8; 32], [u8; 32]),
)
    requires
        states(o, note),
        o.nullifier is Some,
    ensures
        ({
            let c = CandidateView { note, output: o, txid: tx.txid };
            let a = Admitted {
                prev_rcm: prev,
                psi: opening.0,
                rcm: opening.1,
                nullifier: o.nullifier->0,
            };
            candidate_of(o, tx.txid) == Some(c) && is_record(
                record_of(tx.height, c, a),
                tx,
                o,
                note,
                prev,
                opening,
            )
        }),
{
    law_action_spelling_round_trips(note.action);
}

proof fn lemma_fresh_key(
    events: Seq<EventRow>,
    staged: Seq<NoteRecord>,
    record: NoteRecord,
    tx: TxView,
    o: RelaxedIronwoodOutput,
)
    requires
        is_fresh(events, record.name, tx, o),
        record.height == tx.height,
        record.txid == tx.txid@,
        record.action_index == o.index as i64,
        forall|i: int| 0 <= i < staged.len() ==> !same_event(#[trigger] staged[i], record),
    ensures
        !key_taken(events, staged, record),
{
    assert forall|i: int| 0 <= i < events.len() implies !same_event(#[trigger] events[i].record, record) by {
        assert(!(events[i].record.name == record.name && events[i].record.height == tx.height
            && events[i].record.txid == tx.txid@ && events[i].record.action_index == o.index as i64));
    }
}

// ── the notes of a name ─────────────────────────────────────────────────────

proof fn lemma_concerned(o: RelaxedIronwoodOutput, txid: [u8; 32], name: Seq<char>)
    ensures
        candidate_of(o, txid) matches Some(c) && c.note.name == name <==> concerns(o, name),
{
    if let Some(c) = candidate_of(o, txid) {
        assert(states(o, c.note));
    }
}

/// The outputs of which only the one at `k` concerns the name have its note; none
/// where `k` is no position.
proof fn lemma_output_notes(outputs: Seq<RelaxedIronwoodOutput>, txid: [u8; 32], name: Seq<char>, k: int)
    requires
        forall|i: int|
            0 <= i < outputs.len() && concerns(#[trigger] outputs[i], name) ==> i == k,
    ensures
        output_candidates(outputs, txid).filter(notes_for(name)) == if 0 <= k < outputs.len() && concerns(
            outputs[k],
            name,
        ) {
            seq![candidate_of(outputs[k], txid)->0]
        } else {
            Seq::empty()
        },
    decreases outputs.len(),
{
    let p = notes_for(name);
    if outputs.len() == 0 {
        reveal(Seq::filter);
        assert(output_candidates(outputs, txid).filter(p) =~= Seq::empty());
    } else {
        let init = outputs.drop_last();
        let last = outputs.last();
        assert(last == outputs[outputs.len() - 1]);
        assert forall|i: int| 0 <= i < init.len() && concerns(#[trigger] init[i], name) implies i == k by {
            assert(init[i] == outputs[i]);
        }
        lemma_output_notes(init, txid, name, k);
        lemma_concerned(last, txid, name);
        if 0 <= k < init.len() {
            assert(init[k] == outputs[k]);
        }
        if let Some(c) = candidate_of(last, txid) {
            lemma_filter_push(output_candidates(init, txid), c, p);
            assert(Seq::<CandidateView>::empty().push(c) =~= seq![c]);
        }
    }
}

/// The notes of one transaction.
proof fn lemma_tx_notes(tx: TxView, name: Seq<char>)
    ensures
        name_notes(seq![tx], name) == output_candidates(tx.relaxed, tx.txid).filter(notes_for(name)),
{
    let none = seq![tx].drop_last();
    assert(none.len() == 0);
    assert(block_candidates(none) =~= Seq::empty());
    assert(block_candidates(seq![tx]) =~= output_candidates(tx.relaxed, tx.txid));
}

/// No output of the transaction concerns the name.
pub open spec fn is_unconcerned(tx: TxView, name: Seq<char>) -> bool {
    forall|k: int| 0 <= k < tx.relaxed.len() ==> !concerns(#[trigger] tx.relaxed[k], name)
}

proof fn lemma_unconcerned(tx: TxView, name: Seq<char>)
    requires
        is_unconcerned(tx, name),
    ensures
        name_notes(seq![tx], name).len() == 0,
{
    lemma_tx_notes(tx, name);
    lemma_output_notes(tx.relaxed, tx.txid, name, -1);
}

proof fn lemma_notes_join(a: Seq<TxView>, b: Seq<TxView>, name: Seq<char>)
    ensures
        name_notes(a + b, name) == name_notes(a, name) + name_notes(b, name),
{
    lemma_candidates_split(a, b);
    Seq::filter_distributes_over_add(block_candidates(a), block_candidates(b), notes_for(name));
}

/// A batch in which one output alone concerns a name has that one note of it.
proof fn lemma_only_note(txs: Seq<TxView>, t: int, k: int, name: Seq<char>)
    requires
        0 <= t < txs.len(),
        0 <= k < txs[t].relaxed.len(),
        concerns(txs[t].relaxed[k], name),
        forall|i: int| 0 <= i < txs.len() && i != t ==> is_unconcerned(#[trigger] txs[i], name),
        forall|j: int|
            0 <= j < txs[t].relaxed.len() && concerns(#[trigger] txs[t].relaxed[j], name) ==> j == k,
    ensures
        name_notes(txs, name) == seq![candidate_of(txs[t].relaxed[k], txs[t].txid)->0],
        forall|i: int|
            0 <= i < txs.len() && (#[trigger] txs[i]).height != txs[t].height ==> name_notes(
                seq![txs[i]],
                name,
            ).len() == 0,
{
    let a = txs.take(t);
    let b = seq![txs[t]];
    let c = txs.skip(t + 1);
    assert(txs =~= (a + b) + c);
    lemma_notes_join(a, b, name);
    lemma_notes_join(a + b, c, name);
    assert forall|i: int| 0 <= i < txs.len() && i != t implies name_notes(seq![#[trigger] txs[i]], name).len()
        == 0 by {
        lemma_unconcerned(txs[i], name);
    }
    assert forall|i: int| 0 <= i < a.len() implies name_notes(seq![#[trigger] a[i]], name).len() == 0 by {
        assert(a[i] == txs[i]);
    }
    assert forall|i: int| 0 <= i < c.len() implies name_notes(seq![#[trigger] c[i]], name).len() == 0 by {
        assert(c[i] == txs[t + 1 + i]);
    }
    lemma_no_notes(a, name);
    lemma_no_notes(c, name);
    lemma_tx_notes(txs[t], name);
    lemma_output_notes(txs[t].relaxed, txs[t].txid, name, k);
    assert(name_notes(txs, name) =~= seq![candidate_of(txs[t].relaxed[k], txs[t].txid)->0]);
}

// ── a batch ─────────────────────────────────────────────────────────────────

proof fn lemma_empty_staging(name: Seq<char>)
    ensures
        empty_staging().staged.filter(records_for(name)) == Seq::<NoteRecord>::empty(),
        !empty_staging().pending.contains_key(name),
{
    reveal(Seq::filter);
    assert(empty_staging().staged.filter(records_for(name)) =~= Seq::empty());
}

/// The new events of a name are its staged records.
proof fn lemma_new_events(events: Seq<EventRow>, staged: Seq<NoteRecord>, name: Seq<char>)
    ensures
        ({
            let log = logged(events, staged);
            let own = staged.filter(records_for(name));
            &&& log.len() == events.len() + staged.len()
            &&& log.take(events.len() as int) == events
            &&& forall|i: int|
                events.len() <= i < log.len() && (#[trigger] log[i]).record.name == name ==> own.contains(
                    log[i].record,
                )
            &&& forall|r: NoteRecord| #[trigger]
                own.contains(r) ==> exists|i: int|
                    events.len() <= i < log.len() && (#[trigger] log[i]).record == r
        }),
{
    broadcast use vstd::seq_lib::group_filter_ensures;

    let log = logged(events, staged);
    let q = records_for(name);
    let own = staged.filter(q);
    let n = events.len() as int;
    lemma_logged_rows(events, staged);
    assert(log.take(n) =~= events);
    assert forall|i: int| n <= i < log.len() && (#[trigger] log[i]).record.name == name implies own.contains(
        log[i].record,
    ) by {
        assert(log[n + (i - n)].record == staged[i - n]);
        assert(q(staged[i - n]));
        staged.lemma_filter_contains(q, i - n);
    }
    assert forall|r: NoteRecord| #[trigger] own.contains(r) implies exists|i: int|
        n <= i < log.len() && (#[trigger] log[i]).record == r by {
        staged.lemma_filter_contains_rev(q, r);
        let j = choose|j: int| 0 <= j < staged.len() && staged[j] == r;
        assert(log[n + j].record == staged[j]);
    }
}

/// The notes of a group are considered in this order.
#[verifier::opaque]
spec fn goes_as(group: Seq<CandidateView>, start: Option<Binding>, order: Seq<CandidateView>) -> bool {
    consideration_order(group, start) == order
}

/// The state that an admitted note leaves its name in.
spec fn left_by(c: CandidateView, a: Admitted) -> Binding {
    Binding { tip: Tip { action: c.note.action, rcm: a.rcm }, nullifier: a.nullifier }
}

/// A note that is admitted under a free key is staged.
proof fn lemma_admitted_is_staged(
    events: Seq<EventRow>,
    height: u32,
    group: Seq<CandidateView>,
    start: Option<Binding>,
    state: (StagingView, Option<Binding>),
    c: CandidateView,
    a: Admitted,
)
    requires
        admission(
            state.1,
            c.note,
            c.output,
            super::notes::note_opening(c.note, c.output),
            spends_update(group, start, c.output.consumed),
        ) == Some(a),
        !key_taken(events, state.0.staged, record_of(height, c, a)),
    ensures
        ({
            let next = consider(events, height, group, start, state, c);
            next.0.staged == state.0.staged.push(record_of(height, c, a)) && next.1 == Some(left_by(c, a))
                && next.0.pending == state.0.pending.insert(c.note.name, left_by(c, a))
        }),
{
}

/// A note that is not admitted changes nothing.
proof fn lemma_refused_is_passed_over(
    events: Seq<EventRow>,
    height: u32,
    group: Seq<CandidateView>,
    start: Option<Binding>,
    state: (StagingView, Option<Binding>),
    c: CandidateView,
)
    requires
        admission(
            state.1,
            c.note,
            c.output,
            super::notes::note_opening(c.note, c.output),
            spends_update(group, start, c.output.consumed),
        ) is None,
    ensures
        consider(events, height, group, start, state, c) == state,
{
}

proof fn lemma_considered_in_turn(
    events: Seq<EventRow>,
    height: u32,
    group: Seq<CandidateView>,
    start: Option<Binding>,
    order: Seq<CandidateView>,
    c: CandidateView,
)
    ensures
        consider_all(events, height, group, start, empty_staging(), Seq::empty()) == (
            empty_staging(),
            start,
        ),
        consider_all(events, height, group, start, empty_staging(), order.push(c)) == consider(
            events,
            height,
            group,
            start,
            consider_all(events, height, group, start, empty_staging(), order),
            c,
        ),
{
    assert(order.push(c).drop_last() =~= order);
}

/// A name's one note in a block, where it is admitted under a free key.
#[verifier::rlimit(40)]
proof fn lemma_one_admitted(
    events: Seq<EventRow>,
    height: u32,
    group: Seq<CandidateView>,
    c: CandidateView,
    start: Option<Binding>,
    a: Admitted,
)
    requires
        goes_as(group, start, seq![c]),
        admission(
            start,
            c.note,
            c.output,
            super::notes::note_opening(c.note, c.output),
            spends_update(group, start, c.output.consumed),
        ) == Some(a),
        !key_taken(events, empty_staging().staged, record_of(height, c, a)),
    ensures
        block_outcome(events, height, group, start) == seq![record_of(height, c, a)],
{
    reveal(block_outcome);
    reveal(goes_as);
    let none = Seq::<CandidateView>::empty();
    let record = record_of(height, c, a);
    let done = consider_all(events, height, group, start, empty_staging(), seq![c]);
    let first = consider(events, height, group, start, (empty_staging(), start), c);
    assert(done == first) by {
        assert(none.push(c) =~= seq![c]);
        lemma_considered_in_turn(events, height, group, start, none, c);
    }
    assert(first.0.staged == empty_staging().staged.push(record)) by {
        lemma_admitted_is_staged(events, height, group, start, (empty_staging(), start), c, a);
    }
    assert(empty_staging().staged.push(record) =~= seq![record]);
}

/// A block's outcome for a name with one genuine note.
#[verifier::rlimit(40)]
proof fn lemma_outcome_of_one(
    events: Seq<EventRow>,
    names: Seq<NoteRecord>,
    tx: TxView,
    o: RelaxedIronwoodOutput,
    note: NoteView,
    prev: [u8; 32],
    opening: ([u8; 32], [u8; 32]),
)
    requires
        chained(events, names),
        is_genuine(latest(events, note.name), o, note, prev, opening),
        is_fresh(events, note.name, tx, o),
    ensures
        ({
            let c = candidate_of(o, tx.txid)->0;
            let own = block_outcome(
                events,
                tx.height,
                seq![c],
                read_binding(names, note.name)->Ok_0,
            );
            own.len() == 1 && is_record(own[0], tx, o, note, prev, opening)
        }),
{
    let c = CandidateView { note, output: o, txid: tx.txid };
    lemma_start(events, names, note.name);
    let start = read_binding(names, note.name)->Ok_0;
    let group = seq![c];
    let spends = spends_update(group, start, o.consumed);
    lemma_record(tx, o, note, prev, opening);
    lemma_genuine_is_admitted(latest(events, note.name), start, o, note, prev, opening, spends);
    let a = Admitted { prev_rcm: prev, psi: opening.0, rcm: opening.1, nullifier: o.nullifier->0 };
    let record = record_of(tx.height, c, a);
    lemma_fresh_key(events, empty_staging().staged, record, tx, o);
    assert(Seq::<CandidateView>::empty().push(c) =~= group);
    lemma_order_of_one(group, c, start);
    lemma_one_admitted(events, tx.height, group, c, start, a);
}

proof fn lemma_order_of_one(group: Seq<CandidateView>, c: CandidateView, start: Option<Binding>)
    requires
        group == Seq::<CandidateView>::empty().push(c),
    ensures
        goes_as(group, start, seq![c]),
{
    reveal(goes_as);
    let none = Seq::<CandidateView>::empty();
    lemma_filter_push(none, c, goes_first(start));
    lemma_filter_push(none, c, goes_later(start));
    assert(none.filter(goes_first(start)) =~= none && none.filter(goes_later(start)) =~= none) by {
        reveal(Seq::filter);
    }
    assert(consideration_order(group, start) =~= seq![c]);
}

/// Every genuine note is recorded. Where one output of a batch alone concerns a
/// name, and carries a note that may extend the name's newest event, whatever
/// action that was, the batch adds that note's event for the name and no other,
/// whatever else it holds. A claim or an update then holds the name, with the
/// note's address; a release ends it.
#[verifier::rlimit(40)]
pub proof fn law_genuine_note_is_recorded(
    db: DbView,
    scanned: Cursor,
    txs: Seq<TxView>,
    t: int,
    k: int,
    note: NoteView,
    prev: [u8; 32],
    opening: ([u8; 32], [u8; 32]),
)
    requires
        chained(db.events, db.names),
        forall|i: int, j: int|
            0 <= i < j < txs.len() ==> (#[trigger] txs[i]).height <= (#[trigger] txs[j]).height,
        0 <= t < txs.len(),
        0 <= k < txs[t].relaxed.len(),
        is_genuine(latest(db.events, note.name), txs[t].relaxed[k], note, prev, opening),
        is_fresh(db.events, note.name, txs[t], txs[t].relaxed[k]),
        forall|i: int| 0 <= i < txs.len() && i != t ==> is_unconcerned(#[trigger] txs[i], note.name),
        forall|j: int|
            0 <= j < txs[t].relaxed.len() && concerns(#[trigger] txs[t].relaxed[j], note.name) ==> j == k,
    ensures
        after_batch(db, scanned, txs) matches Ok(next) ==> next.events.len() > db.events.len()
            && next.events.take(db.events.len() as int) == db.events && (exists|i: int|
            db.events.len() <= i < next.events.len() && is_record(
                (#[trigger] next.events[i]).record,
                txs[t],
                txs[t].relaxed[k],
                note,
                prev,
                opening,
            )) && (forall|i: int|
            db.events.len() <= i < next.events.len() && (#[trigger] next.events[i]).record.name == note.name
                ==> is_record(
                next.events[i].record,
                txs[t],
                txs[t].relaxed[k],
                note,
                prev,
                opening,
            )) && (if note.action == Action::Release {
            entry(next.names, note.name) is None
        } else {
            entry(next.names, note.name) matches Some(r) && r.ua == note.ua && is_record(
                r,
                txs[t],
                txs[t].relaxed[k],
                note,
                prev,
                opening,
            )
        }),
{
    let name = note.name;
    let tx = txs[t];
    let o = tx.relaxed[k];
    let c = CandidateView { note, output: o, txid: tx.txid };
    assert(states(o, note));
    lemma_record(tx, o, note, prev, opening);
    lemma_start(db.events, db.names, name);
    lemma_only_note(txs, t, k, name);
    lemma_empty_staging(name);
    lemma_batch_is_local(db.events, db.names, empty_staging(), txs, name, tx.height);
    lemma_outcome_of_one(db.events, db.names, tx, o, note, prev, opening);
    let staged = derived(db.events, db.names, empty_staging(), txs)->Ok_0.staged;
    let own = staged.filter(records_for(name));
    assert(own.contains(own[0]));
    lemma_new_events(db.events, staged, name);
    lemma_named_is_local(db.names, staged, name);
    law_action_spelling_round_trips(note.action);
    law_action_spelling_round_trips(Action::Release);
    if let Ok(next) = after_batch(db, scanned, txs) {
        let i = choose|i: int|
            db.events.len() <= i < next.events.len() && (#[trigger] next.events[i]).record == own[0];
        assert(is_record(next.events[i].record, tx, o, note, prev, opening));
        assert(own[0].action == note.action.text()) by {
            lemma_spelling(own[0].action, note.action);
        }
    }
}

proof fn lemma_spelling(text: Seq<char>, a: Action)
    requires
        action_of(text) == Some(a),
    ensures
        text == a.text(),
{
}

/// A name that no output of a batch concerns is as it was: the batch adds no
/// event of it, and its record stays.
pub proof fn law_other_names_are_untouched(db: DbView, scanned: Cursor, txs: Seq<TxView>, name: Seq<char>)
    requires
        chained(db.events, db.names),
        forall|i: int, j: int|
            0 <= i < j < txs.len() ==> (#[trigger] txs[i]).height <= (#[trigger] txs[j]).height,
        forall|i: int| 0 <= i < txs.len() ==> is_unconcerned(#[trigger] txs[i], name),
    ensures
        after_batch(db, scanned, txs) matches Ok(next) ==> entry(next.names, name) == entry(db.names, name)
            && forall|i: int|
            db.events.len() <= i < next.events.len() ==> (#[trigger] next.events[i]).record.name != name,
{
    lemma_start(db.events, db.names, name);
    assert forall|i: int| 0 <= i < txs.len() implies name_notes(seq![#[trigger] txs[i]], name).len() == 0 by {
        lemma_unconcerned(txs[i], name);
    }
    lemma_no_notes(txs, name);
    lemma_empty_staging(name);
    lemma_batch_is_local(db.events, db.names, empty_staging(), txs, name, 0);
    let staged = derived(db.events, db.names, empty_staging(), txs)->Ok_0.staged;
    lemma_new_events(db.events, staged, name);
    lemma_named_is_local(db.names, staged, name);
}

// ── notes of one block ──────────────────────────────────────────────────────

/// Two notes are considered in scan order, unless the second is a release that
/// discloses the `rcm` the name had at the start of the block and the first is
/// not.
#[verifier::rlimit(40)]
proof fn lemma_order_of_two(
    group: Seq<CandidateView>,
    c: CandidateView,
    d: CandidateView,
    start: Option<Binding>,
)
    requires
        group == Seq::<CandidateView>::empty().push(c).push(d),
    ensures
        goes_first(start)(d) && !goes_first(start)(c) ==> goes_as(group, start, seq![d, c]),
        !goes_first(start)(d) || goes_first(start)(c) ==> goes_as(group, start, seq![c, d]),
{
    reveal(goes_as);
    let none = Seq::<CandidateView>::empty();
    let first = goes_first(start);
    let later = goes_later(start);
    lemma_filter_push(none, c, first);
    lemma_filter_push(none, c, later);
    lemma_filter_push(none.push(c), d, first);
    lemma_filter_push(none.push(c), d, later);
    assert(none.filter(first) =~= none && none.filter(later) =~= none) by {
        reveal(Seq::filter);
    }
    let order = consideration_order(group, start);
    if first(d) && !first(c) {
        assert(order =~= seq![d, c]);
    } else {
        assert(order =~= seq![c, d]);
    }
}

proof fn lemma_order_kept(
    tip: Option<EventRow>,
    start: Option<Binding>,
    c: CandidateView,
    d: CandidateView,
    prev: [u8; 32],
)
    requires
        is_state(tip, start),
        discloses(d.note, prev),
        d.note.action == Action::Release ==> (tip matches Some(row) ==> row.record.rcm != prev@),
    ensures
        goes_as(seq![c, d], start, seq![c, d]),
{
    assert(!goes_first(start)(d)) by {
        lemma_second_is_later(tip, start, d, prev);
    }
    let group = Seq::<CandidateView>::empty().push(c).push(d);
    assert(group =~= seq![c, d]);
    lemma_order_of_two(group, c, d, start);
}

/// A release on the block-start `rcm` moves up before an update.
proof fn lemma_order_moved(start: Option<Binding>, c: CandidateView, d: CandidateView)
    requires
        c.note.action == Action::Update,
        d.note.action == Action::Release,
        start is Some,
        start->0.tip.action != Action::Release,
        d.note.prev_rcm == Some(start->0.tip.rcm),
    ensures
        goes_as(seq![c, d], start, seq![d, c]),
{
    let group = Seq::<CandidateView>::empty().push(c).push(d);
    assert(group =~= seq![c, d]);
    lemma_order_of_two(group, c, d, start);
}

/// The notes of two transactions with one output each.
proof fn lemma_two_notes(
    t1: TxView,
    t2: TxView,
    o1: RelaxedIronwoodOutput,
    o2: RelaxedIronwoodOutput,
    n1: NoteView,
    n2: NoteView,
)
    requires
        t1.relaxed == seq![o1],
        t2.relaxed == seq![o2],
        states(o1, n1),
        states(o2, n2),
        n1.name == n2.name,
    ensures
        name_notes(seq![t1, t2], n1.name) == seq![
            CandidateView { note: n1, output: o1, txid: t1.txid },
            CandidateView { note: n2, output: o2, txid: t2.txid },
        ],
{
    let name = n1.name;
    assert(seq![t1, t2] =~= seq![t1] + seq![t2]);
    lemma_notes_join(seq![t1], seq![t2], name);
    lemma_tx_notes(t1, name);
    lemma_tx_notes(t2, name);
    assert(concerns(o1, name) && concerns(o2, name));
    lemma_output_notes(t1.relaxed, t1.txid, name, 0);
    lemma_output_notes(t2.relaxed, t2.txid, name, 0);
    assert(name_notes(seq![t1, t2], name) =~= seq![
        CandidateView { note: n1, output: o1, txid: t1.txid },
        CandidateView { note: n2, output: o2, txid: t2.txid },
    ]);
}

/// The two events are not the same output's.
pub open spec fn are_apart(
    t1: TxView,
    o1: RelaxedIronwoodOutput,
    t2: TxView,
    o2: RelaxedIronwoodOutput,
) -> bool {
    t1.txid != t2.txid || o1.index as i64 != o2.index as i64
}

proof fn lemma_two_in_turn(
    events: Seq<EventRow>,
    height: u32,
    group: Seq<CandidateView>,
    start: Option<Binding>,
    c: CandidateView,
    d: CandidateView,
)
    ensures
        consider_all(events, height, group, start, empty_staging(), seq![c, d]) == consider(
            events,
            height,
            group,
            start,
            consider(events, height, group, start, (empty_staging(), start), c),
            d,
        ),
{
    let none = Seq::<CandidateView>::empty();
    assert(none.push(c).push(d) =~= seq![c, d]);
    lemma_considered_in_turn(events, height, group, start, none, c);
    lemma_considered_in_turn(events, height, group, start, none.push(c), d);
}

/// What admission makes of a note in a group, in a state of its name.
#[verifier::opaque]
spec fn verdict(
    group: Seq<CandidateView>,
    start: Option<Binding>,
    binding: Option<Binding>,
    c: CandidateView,
) -> Option<Admitted> {
    admission(
        binding,
        c.note,
        c.output,
        super::notes::note_opening(c.note, c.output),
        spends_update(group, start, c.output.consumed),
    )
}

/// What the note of an output is admitted with.
spec fn opened(
    o: RelaxedIronwoodOutput,
    prev: [u8; 32],
    opening: ([u8; 32], [u8; 32]),
) -> Admitted {
    Admitted { prev_rcm: prev, psi: opening.0, rcm: opening.1, nullifier: o.nullifier->0 }
}

spec fn candidate(tx: TxView, o: RelaxedIronwoodOutput, note: NoteView) -> CandidateView {
    CandidateView { note, output: o, txid: tx.txid }
}

proof fn lemma_genuine_verdict(
    group: Seq<CandidateView>,
    start: Option<Binding>,
    tip: Option<EventRow>,
    binding: Option<Binding>,
    tx: TxView,
    o: RelaxedIronwoodOutput,
    note: NoteView,
    prev: [u8; 32],
    opening: ([u8; 32], [u8; 32]),
)
    requires
        is_state(tip, binding),
        is_genuine(tip, o, note, prev, opening),
    ensures
        verdict(group, start, binding, candidate(tx, o, note)) == Some(opened(o, prev, opening)),
{
    reveal(verdict);
    let spends = spends_update(group, start, o.consumed);
    lemma_genuine_is_admitted(tip, binding, o, note, prev, opening, spends);
}

/// The key of a record is free beside the record of another output.
proof fn lemma_keys_apart(
    events: Seq<EventRow>,
    height: u32,
    t1: TxView,
    o1: RelaxedIronwoodOutput,
    n1: NoteView,
    a: Admitted,
    t2: TxView,
    o2: RelaxedIronwoodOutput,
    n2: NoteView,
    b: Admitted,
)
    requires
        are_apart(t1, o1, t2, o2),
        is_fresh(events, n2.name, t2, o2),
        t2.height == height,
    ensures
        !key_taken(events, empty_staging().staged, record_of(height, candidate(t2, o2, n2), b)),
        !key_taken(
            events,
            seq![record_of(height, candidate(t1, o1, n1), a)],
            record_of(height, candidate(t2, o2, n2), b),
        ),
{
    lemma_as_array32(t1.txid);
    lemma_as_array32(t2.txid);
    let r1 = record_of(height, candidate(t1, o1, n1), a);
    let r2 = record_of(height, candidate(t2, o2, n2), b);
    lemma_fresh_key(events, empty_staging().staged, r2, t2, o2);
    assert(!same_event(r1, r2));
    lemma_fresh_key(events, seq![r1], r2, t2, o2);
}

/// Two notes considered one after the other, both of them admitted.
#[verifier::rlimit(40)]
proof fn lemma_two_admitted(
    events: Seq<EventRow>,
    height: u32,
    group: Seq<CandidateView>,
    start: Option<Binding>,
    c: CandidateView,
    a: Admitted,
    d: CandidateView,
    b: Admitted,
)
    requires
        goes_as(group, start, seq![c, d]),
        verdict(group, start, start, c) == Some(a),
        verdict(group, start, Some(left_by(c, a)), d) == Some(b),
        !key_taken(events, empty_staging().staged, record_of(height, c, a)),
        !key_taken(events, seq![record_of(height, c, a)], record_of(height, d, b)),
    ensures
        block_outcome(events, height, group, start) == seq![
            record_of(height, c, a),
            record_of(height, d, b),
        ],
{
    reveal(goes_as);
    reveal(verdict);
    reveal(block_outcome);
    let r1 = record_of(height, c, a);
    let r2 = record_of(height, d, b);
    let state0 = (empty_staging(), start);
    let state1 = consider(events, height, group, start, state0, c);
    let state2 = consider(events, height, group, start, state1, d);
    assert(state1.0.staged == empty_staging().staged.push(r1) && state1.1 == Some(left_by(c, a))) by {
        lemma_admitted_is_staged(events, height, group, start, state0, c, a);
    }
    assert(empty_staging().staged.push(r1) =~= seq![r1]);
    assert(state2.0.staged == state1.0.staged.push(r2)) by {
        lemma_admitted_is_staged(events, height, group, start, state1, d, b);
    }
    assert(seq![r1].push(r2) =~= seq![r1, r2]);
    assert(consider_all(events, height, group, start, empty_staging(), seq![c, d]) == state2) by {
        lemma_two_in_turn(events, height, group, start, c, d);
    }
}

/// Two notes considered one after the other, the second of them refused.
#[verifier::rlimit(40)]
proof fn lemma_second_refused(
    events: Seq<EventRow>,
    height: u32,
    group: Seq<CandidateView>,
    start: Option<Binding>,
    c: CandidateView,
    a: Admitted,
    d: CandidateView,
)
    requires
        goes_as(group, start, seq![c, d]),
        verdict(group, start, start, c) == Some(a),
        verdict(group, start, Some(left_by(c, a)), d) is None,
        !key_taken(events, empty_staging().staged, record_of(height, c, a)),
    ensures
        block_outcome(events, height, group, start) == seq![record_of(height, c, a)],
{
    reveal(goes_as);
    reveal(verdict);
    reveal(block_outcome);
    let r1 = record_of(height, c, a);
    let state0 = (empty_staging(), start);
    let state1 = consider(events, height, group, start, state0, c);
    let state2 = consider(events, height, group, start, state1, d);
    assert(state1.0.staged == empty_staging().staged.push(r1) && state1.1 == Some(left_by(c, a))) by {
        lemma_admitted_is_staged(events, height, group, start, state0, c, a);
    }
    assert(empty_staging().staged.push(r1) =~= seq![r1]);
    assert(state2 == state1) by {
        lemma_refused_is_passed_over(events, height, group, start, state1, d);
    }
    assert(consider_all(events, height, group, start, empty_staging(), seq![c, d]) == state2) by {
        lemma_two_in_turn(events, height, group, start, c, d);
    }
}

/// The outcome of two notes of one block, the second of which extends the first.
#[verifier::rlimit(40)]
proof fn lemma_outcome_of_two(
    events: Seq<EventRow>,
    tip: Option<EventRow>,
    start: Option<Binding>,
    t1: TxView,
    o1: RelaxedIronwoodOutput,
    n1: NoteView,
    prev1: [u8; 32],
    opening1: ([u8; 32], [u8; 32]),
    first: EventRow,
    t2: TxView,
    o2: RelaxedIronwoodOutput,
    n2: NoteView,
    prev2: [u8; 32],
    opening2: ([u8; 32], [u8; 32]),
)
    requires
        is_state(tip, start),
        n1.name == n2.name,
        t1.height == t2.height,
        are_apart(t1, o1, t2, o2),
        is_genuine(tip, o1, n1, prev1, opening1),
        is_fresh(events, n1.name, t1, o1),
        is_record(first.record, t1, o1, n1, prev1, opening1),
        is_genuine(Some(first), o2, n2, prev2, opening2),
        is_fresh(events, n2.name, t2, o2),
        goes_as(
            seq![candidate(t1, o1, n1), candidate(t2, o2, n2)],
            start,
            seq![candidate(t1, o1, n1), candidate(t2, o2, n2)],
        ),
    ensures
        ({
            let c = CandidateView { note: n1, output: o1, txid: t1.txid };
            let d = CandidateView { note: n2, output: o2, txid: t2.txid };
            let own = block_outcome(
                events,
                t1.height,
                seq![c, d],
                start,
            );
            own.len() == 2 && is_record(own[0], t1, o1, n1, prev1, opening1) && is_record(
                own[1],
                t2,
                o2,
                n2,
                prev2,
                opening2,
            )
        }),
{
    let c = candidate(t1, o1, n1);
    let d = candidate(t2, o2, n2);
    let a = opened(o1, prev1, opening1);
    let b = opened(o2, prev2, opening2);
    let group = seq![c, d];
    let r1 = record_of(t1.height, c, a);
    let r2 = record_of(t1.height, d, b);
    assert(verdict(group, start, start, c) == Some(a)) by {
        lemma_genuine_verdict(group, start, tip, start, t1, o1, n1, prev1, opening1);
    }
    assert(verdict(group, start, Some(left_by(c, a)), d) == Some(b)) by {
        lemma_first_left(t1, o1, n1, prev1, opening1, first);
        lemma_genuine_verdict(
            group,
            start,
            Some(first),
            Some(left_by(c, a)),
            t2,
            o2,
            n2,
            prev2,
            opening2,
        );
    }
    assert(!key_taken(events, empty_staging().staged, r1)) by {
        lemma_keys_apart(events, t1.height, t2, o2, n2, b, t1, o1, n1, a);
    }
    assert(!key_taken(events, seq![r1], r2)) by {
        lemma_keys_apart(events, t1.height, t1, o1, n1, a, t2, o2, n2, b);
    }
    let own = block_outcome(events, t1.height, group, start);
    assert(own == seq![r1, r2]) by {
        lemma_two_admitted(events, t1.height, group, start, c, a, d, b);
    }
    assert(is_record(r1, t1, o1, n1, prev1, opening1)) by {
        lemma_record(t1, o1, n1, prev1, opening1);
    }
    assert(is_record(r2, t2, o2, n2, prev2, opening2)) by {
        lemma_record(t2, o2, n2, prev2, opening2);
    }
}

/// What the first note of two leaves.
proof fn lemma_first_left(
    tx: TxView,
    o: RelaxedIronwoodOutput,
    note: NoteView,
    prev: [u8; 32],
    opening: ([u8; 32], [u8; 32]),
    row: EventRow,
)
    requires
        is_record(row.record, tx, o, note, prev, opening),
        o.nullifier is Some,
    ensures
        ({
            let c = CandidateView { note, output: o, txid: tx.txid };
            let a = Admitted { prev_rcm: prev, psi: opening.0, rcm: opening.1, nullifier: o.nullifier->0 };
            is_state(Some(row), Some(left_by(c, a)))
        }),
{
    law_action_spelling_round_trips(Action::Release);
    lemma_spelling(row.record.action, note.action);
}

/// A note that does not disclose the block-start `rcm` is not moved up.
proof fn lemma_second_is_later(
    tip: Option<EventRow>,
    start: Option<Binding>,
    d: CandidateView,
    prev: [u8; 32],
)
    requires
        is_state(tip, start),
        discloses(d.note, prev),
        d.note.action == Action::Release ==> (tip matches Some(row) ==> row.record.rcm != prev@),
    ensures
        !goes_first(start)(d),
{
}

/// Notes of one block build on each other: the second is recorded on top of the
/// first where it may extend the first's event, and the name is left as the
/// second says. The one exception is a release on the `rcm` that the name had at
/// the start of the block: it is considered first.
#[verifier::rlimit(40)]
pub proof fn law_notes_of_a_block_build_on_each_other(
    db: DbView,
    scanned: Cursor,
    t1: TxView,
    o1: RelaxedIronwoodOutput,
    n1: NoteView,
    prev1: [u8; 32],
    opening1: ([u8; 32], [u8; 32]),
    first: EventRow,
    t2: TxView,
    o2: RelaxedIronwoodOutput,
    n2: NoteView,
    prev2: [u8; 32],
    opening2: ([u8; 32], [u8; 32]),
)
    requires
        chained(db.events, db.names),
        n1.name == n2.name,
        t1.height == t2.height,
        t1.relaxed == seq![o1],
        t2.relaxed == seq![o2],
        are_apart(t1, o1, t2, o2),
        is_genuine(latest(db.events, n1.name), o1, n1, prev1, opening1),
        is_fresh(db.events, n1.name, t1, o1),
        is_record(first.record, t1, o1, n1, prev1, opening1),
        is_genuine(Some(first), o2, n2, prev2, opening2),
        is_fresh(db.events, n2.name, t2, o2),
        n2.action == Action::Release ==> (latest(db.events, n1.name) matches Some(row) ==> row.record.rcm
            != prev2@),
    ensures
        after_batch(db, scanned, seq![t1, t2]) matches Ok(next) ==> next.events.len() == db.events.len() + 2
            && is_record(
            next.events[db.events.len() as int].record,
            t1,
            o1,
            n1,
            prev1,
            opening1,
        ) && is_record(next.events[db.events.len() + 1int].record, t2, o2, n2, prev2, opening2) && (
        if n2.action == Action::Release {
            entry(next.names, n2.name) is None
        } else {
            entry(next.names, n2.name) matches Some(r) && is_record(r, t2, o2, n2, prev2, opening2)
        }),
{
    let name = n1.name;
    let txs = seq![t1, t2];
    lemma_start(db.events, db.names, name);
    lemma_two_notes(t1, t2, o1, o2, n1, n2);
    lemma_empty_staging(name);
    lemma_batch_is_local(db.events, db.names, empty_staging(), txs, name, t1.height);
    lemma_order_kept(
        latest(db.events, name),
        read_binding(db.names, name)->Ok_0,
        candidate(t1, o1, n1),
        candidate(t2, o2, n2),
        prev2,
    );
    lemma_outcome_of_two(
        db.events,
        latest(db.events, name),
        read_binding(db.names, name)->Ok_0,
        t1,
        o1,
        n1,
        prev1,
        opening1,
        first,
        t2,
        o2,
        n2,
        prev2,
        opening2,
    );
    lemma_concern_one(t1, t2, o1, o2, n1, n2, txs);
    lemma_names_alone(db.events, db.names, txs, name);
    let staged = derived(db.events, db.names, empty_staging(), txs)->Ok_0.staged;
    lemma_logged_rows(db.events, staged);
    lemma_named_is_local(db.names, staged, name);
    law_action_spelling_round_trips(Action::Release);
    lemma_spelling(staged[1].action, n2.action);
    assert(logged(db.events, staged)[db.events.len() + 0int].record == staged[0]);
    assert(logged(db.events, staged)[db.events.len() + 1int].record == staged[1]);
}

/// A batch that concerns one name alone stages that name's records alone.
proof fn lemma_names_alone(events: Seq<EventRow>, names: Seq<NoteRecord>, txs: Seq<TxView>, name: Seq<char>)
    requires
        all_read(names),
        forall|i: int, j: int|
            0 <= i < j < txs.len() ==> (#[trigger] txs[i]).height <= (#[trigger] txs[j]).height,
        forall|m: Seq<char>, i: int|
            m != name && 0 <= i < txs.len() ==> #[trigger] is_unconcerned(txs[i], m),
        derived(events, names, empty_staging(), txs) is Ok,
    ensures
        ({
            let staged = derived(events, names, empty_staging(), txs)->Ok_0.staged;
            staged.filter(records_for(name)) == staged
        }),
{
    let staged = derived(events, names, empty_staging(), txs)->Ok_0.staged;
    let q = records_for(name);
    assert forall|i: int| 0 <= i < staged.len() implies q(#[trigger] staged[i]) by {
        let m = staged[i].name;
        if m != name {
            assert forall|j: int| 0 <= j < txs.len() implies name_notes(seq![#[trigger] txs[j]], m).len()
                == 0 by {
                assert(is_unconcerned(txs[j], m));
                lemma_unconcerned(txs[j], m);
            }
            lemma_no_notes(txs, m);
            lemma_empty_staging(m);
            lemma_batch_is_local(events, names, empty_staging(), txs, m, 0);
            assert(records_for(m)(staged[i]));
            staged.lemma_filter_contains(records_for(m), i);
        }
    }
    lemma_filter_every(staged, q);
}

/// Two transactions with one output each, both of them stating notes of a name,
/// concern no other.
proof fn lemma_concern_one(
    t1: TxView,
    t2: TxView,
    o1: RelaxedIronwoodOutput,
    o2: RelaxedIronwoodOutput,
    n1: NoteView,
    n2: NoteView,
    txs: Seq<TxView>,
)
    requires
        txs == seq![t1, t2],
        t1.relaxed == seq![o1],
        t2.relaxed == seq![o2],
        states(o1, n1),
        states(o2, n2),
        n1.name == n2.name,
    ensures
        forall|m: Seq<char>, i: int|
            m != n1.name && 0 <= i < txs.len() ==> #[trigger] is_unconcerned(txs[i], m),
{
    assert forall|m: Seq<char>, i: int| m != n1.name && 0 <= i < txs.len() implies #[trigger] is_unconcerned(
        txs[i],
        m,
    ) by {
        if i == 0 {
            assert(txs[i] == t1);
        } else {
            assert(txs[i] == t2);
        }
    }
}

// ── notes of two blocks ─────────────────────────────────────────────────────

/// A block of one transaction with one name note considers that note, in the
/// state that the batch has left its name in.
#[verifier::rlimit(40)]
proof fn lemma_block_of_one(
    events: Seq<EventRow>,
    names: Seq<NoteRecord>,
    st: StagingView,
    tx: TxView,
    o: RelaxedIronwoodOutput,
    note: NoteView,
    start: Option<Binding>,
)
    requires
        tx.relaxed == seq![o],
        states(o, note),
        current_binding(names, st.pending, note.name) == Ok::<Option<Binding>, StoreError>(start),
    ensures
        derive_block(events, names, st, seq![tx]) == Ok::<StagingView, StoreError>(
            consider(
                events,
                tx.height,
                seq![candidate(tx, o, note)],
                start,
                (st, start),
                candidate(tx, o, note),
            ).0,
        ),
{
    let c = candidate(tx, o, note);
    let group = Seq::<CandidateView>::empty().push(c);
    assert(group =~= seq![c]);
    assert(block_candidates(seq![tx]) == group) by {
        lemma_one_candidate(tx, o, note);
    }
    let le = super::admission::candidate_order();
    let key = super::admission::candidate_name();
    assert(crate::order::sort_by(group, le) == group) by {
        crate::order::lemma_sort_of_sorted(group, le);
    }
    assert(crate::order::run_len(group, key) == 1) by {
        crate::order::lemma_run_len_is(group, key, 1);
    }
    assert(group.take(1) =~= group);
    assert(group.skip(1) =~= Seq::empty());
    let next = consider_all(events, tx.height, group, start, st, consideration_order(group, start)).0;
    assert(derive_group(events, names, tx.height, st, group) == Ok::<StagingView, StoreError>(next));
    assert(derive_groups(events, names, tx.height, next, Seq::empty()) == Ok::<StagingView, StoreError>(
        next,
    ));
    lemma_order_of_one(group, c, start);
    lemma_considered_alone(events, tx.height, group, c, start, st);
}

proof fn lemma_one_candidate(tx: TxView, o: RelaxedIronwoodOutput, note: NoteView)
    requires
        tx.relaxed == seq![o],
        states(o, note),
    ensures
        block_candidates(seq![tx]) == Seq::<CandidateView>::empty().push(candidate(tx, o, note)),
{
    let none = seq![tx].drop_last();
    assert(none.len() == 0);
    assert(block_candidates(none) =~= Seq::empty());
    let outputs = tx.relaxed;
    assert(outputs.drop_last().len() == 0);
    assert(output_candidates(outputs.drop_last(), tx.txid) =~= Seq::empty());
    assert(candidate_of(o, tx.txid) == Some(candidate(tx, o, note)));
    assert(output_candidates(outputs, tx.txid) =~= Seq::empty().push(candidate(tx, o, note)));
    assert(block_candidates(seq![tx]) =~= Seq::empty().push(candidate(tx, o, note)));
}

proof fn lemma_considered_alone(
    events: Seq<EventRow>,
    height: u32,
    group: Seq<CandidateView>,
    c: CandidateView,
    start: Option<Binding>,
    st: StagingView,
)
    requires
        goes_as(group, start, seq![c]),
    ensures
        consider_all(events, height, group, start, st, consideration_order(group, start)) == consider(
            events,
            height,
            group,
            start,
            (st, start),
            c,
        ),
{
    reveal(goes_as);
    let order = seq![c];
    let none = order.drop_last();
    assert(none.len() == 0);
    assert(consider_all(events, height, group, start, st, none) == (st, start));
}

/// Two transactions at different heights are two blocks.
proof fn lemma_two_blocks(
    events: Seq<EventRow>,
    names: Seq<NoteRecord>,
    t1: TxView,
    t2: TxView,
    st1: StagingView,
    st2: StagingView,
)
    requires
        t1.height != t2.height,
        derive_block(events, names, empty_staging(), seq![t1]) == Ok::<StagingView, StoreError>(st1),
        derive_block(events, names, st1, seq![t2]) == Ok::<StagingView, StoreError>(st2),
    ensures
        derived(events, names, empty_staging(), seq![t1, t2]) == Ok::<StagingView, StoreError>(st2),
{
    let key = super::admission::tx_height();
    let txs = seq![t1, t2];
    let rest = seq![t2];
    assert(crate::order::run_len(txs, key) == 1) by {
        crate::order::lemma_run_len_is(txs, key, 1);
    }
    assert(crate::order::run_len(rest, key) == 1) by {
        crate::order::lemma_run_len_is(rest, key, 1);
    }
    assert(txs.take(1) =~= seq![t1]);
    assert(txs.skip(1) =~= rest);
    assert(rest.take(1) =~= rest);
    assert(rest.skip(1) =~= Seq::empty());
    assert(derived(events, names, st2, Seq::empty()) == Ok::<StagingView, StoreError>(st2));
    assert(derived(events, names, st1, rest) == Ok::<StagingView, StoreError>(st2));
}

/// What two genuine notes in two blocks stage.
#[verifier::rlimit(40)]
proof fn lemma_two_blocks_stage(
    events: Seq<EventRow>,
    names: Seq<NoteRecord>,
    tip: Option<EventRow>,
    start: Option<Binding>,
    t1: TxView,
    o1: RelaxedIronwoodOutput,
    n1: NoteView,
    prev1: [u8; 32],
    opening1: ([u8; 32], [u8; 32]),
    first: EventRow,
    t2: TxView,
    o2: RelaxedIronwoodOutput,
    n2: NoteView,
    prev2: [u8; 32],
    opening2: ([u8; 32], [u8; 32]),
)
    requires
        read_binding(names, n1.name) == Ok::<Option<Binding>, StoreError>(start),
        is_state(tip, start),
        n1.name == n2.name,
        t1.height != t2.height,
        t1.relaxed == seq![o1],
        t2.relaxed == seq![o2],
        is_genuine(tip, o1, n1, prev1, opening1),
        is_fresh(events, n1.name, t1, o1),
        is_record(first.record, t1, o1, n1, prev1, opening1),
        is_genuine(Some(first), o2, n2, prev2, opening2),
        is_fresh(events, n2.name, t2, o2),
    ensures
        derived(events, names, empty_staging(), seq![t1, t2]) matches Ok(st) && st.staged.len() == 2
            && is_record(st.staged[0], t1, o1, n1, prev1, opening1) && is_record(
            st.staged[1],
            t2,
            o2,
            n2,
            prev2,
            opening2,
        ),
{
    let c = candidate(t1, o1, n1);
    let d = candidate(t2, o2, n2);
    let a = opened(o1, prev1, opening1);
    let b = opened(o2, prev2, opening2);
    let r1 = record_of(t1.height, c, a);
    let r2 = record_of(t2.height, d, b);
    let left = Some(left_by(c, a));
    let state1 = consider(events, t1.height, seq![c], start, (empty_staging(), start), c);
    let state2 = consider(events, t2.height, seq![d], left, (state1.0, left), d);
    assert(state1.0.staged == empty_staging().staged.push(r1) && state1.0.pending
        == empty_staging().pending.insert(n1.name, left_by(c, a))) by {
        reveal(verdict);
        lemma_genuine_verdict(seq![c], start, tip, start, t1, o1, n1, prev1, opening1);
        lemma_fresh_key(events, empty_staging().staged, r1, t1, o1);
        lemma_admitted_is_staged(events, t1.height, seq![c], start, (empty_staging(), start), c, a);
    }
    assert(empty_staging().staged.push(r1) =~= seq![r1]);
    assert(state2.0.staged == state1.0.staged.push(r2)) by {
        reveal(verdict);
        lemma_first_left(t1, o1, n1, prev1, opening1, first);
        lemma_genuine_verdict(seq![d], left, Some(first), left, t2, o2, n2, prev2, opening2);
        assert(!same_event(r1, r2));
        lemma_fresh_key(events, state1.0.staged, r2, t2, o2);
        lemma_admitted_is_staged(events, t2.height, seq![d], left, (state1.0, left), d, b);
    }
    assert(seq![r1].push(r2) =~= seq![r1, r2]);
    assert(current_binding(names, empty_staging().pending, n1.name) == read_binding(names, n1.name));
    lemma_block_of_one(events, names, empty_staging(), t1, o1, n1, start);
    lemma_block_of_one(events, names, state1.0, t2, o2, n2, left);
    lemma_two_blocks(events, names, t1, t2, state1.0, state2.0);
    lemma_record(t1, o1, n1, prev1, opening1);
    lemma_record(t2, o2, n2, prev2, opening2);
}

/// A later block of a batch builds on an earlier one: the second note is recorded
/// on top of the first where it may extend the first's event, and the name is
/// left as the second says.
#[verifier::rlimit(40)]
pub proof fn law_later_blocks_build_on_earlier_ones(
    db: DbView,
    scanned: Cursor,
    t1: TxView,
    o1: RelaxedIronwoodOutput,
    n1: NoteView,
    prev1: [u8; 32],
    opening1: ([u8; 32], [u8; 32]),
    first: EventRow,
    t2: TxView,
    o2: RelaxedIronwoodOutput,
    n2: NoteView,
    prev2: [u8; 32],
    opening2: ([u8; 32], [u8; 32]),
)
    requires
        chained(db.events, db.names),
        n1.name == n2.name,
        t1.height < t2.height,
        t1.relaxed == seq![o1],
        t2.relaxed == seq![o2],
        is_genuine(latest(db.events, n1.name), o1, n1, prev1, opening1),
        is_fresh(db.events, n1.name, t1, o1),
        is_record(first.record, t1, o1, n1, prev1, opening1),
        is_genuine(Some(first), o2, n2, prev2, opening2),
        is_fresh(db.events, n2.name, t2, o2),
    ensures
        after_batch(db, scanned, seq![t1, t2]) matches Ok(next) ==> next.events.len() == db.events.len() + 2
            && is_record(
            next.events[db.events.len() as int].record,
            t1,
            o1,
            n1,
            prev1,
            opening1,
        ) && is_record(next.events[db.events.len() + 1int].record, t2, o2, n2, prev2, opening2) && (
        if n2.action == Action::Release {
            entry(next.names, n2.name) is None
        } else {
            entry(next.names, n2.name) matches Some(r) && is_record(r, t2, o2, n2, prev2, opening2)
        }),
{
    let name = n1.name;
    lemma_start(db.events, db.names, name);
    lemma_two_blocks_stage(
        db.events,
        db.names,
        latest(db.events, name),
        read_binding(db.names, name)->Ok_0,
        t1,
        o1,
        n1,
        prev1,
        opening1,
        first,
        t2,
        o2,
        n2,
        prev2,
        opening2,
    );
    let staged = derived(db.events, db.names, empty_staging(), seq![t1, t2])->Ok_0.staged;
    assert forall|i: int| 0 <= i < staged.len() implies records_for(name)(#[trigger] staged[i]) by {
        assert(i == 0 || i == 1);
    }
    lemma_filter_every(staged, records_for(name));
    lemma_logged_rows(db.events, staged);
    lemma_named_is_local(db.names, staged, name);
    law_action_spelling_round_trips(Action::Release);
    lemma_spelling(staged[1].action, n2.action);
    assert(logged(db.events, staged)[db.events.len() + 0int].record == staged[0]);
    assert(logged(db.events, staged)[db.events.len() + 1int].record == staged[1]);
}

// ── a release goes first ────────────────────────────────────────────────────

/// A release and an update compete over the `rcm` that a live name had at the
/// start of a block: the release is recorded and the update is not, though the
/// update comes first in the block. The release consumed the note that held the
/// name, or the update's.
#[verifier::rlimit(40)]
pub proof fn law_release_beats_a_competing_update(
    db: DbView,
    scanned: Cursor,
    t1: TxView,
    o1: RelaxedIronwoodOutput,
    n1: NoteView,
    opening1: ([u8; 32], [u8; 32]),
    t2: TxView,
    o2: RelaxedIronwoodOutput,
    n2: NoteView,
    opening2: ([u8; 32], [u8; 32]),
    prev: [u8; 32],
)
    requires
        chained(db.events, db.names),
        n1.name == n2.name,
        n1.action == Action::Update,
        n2.action == Action::Release,
        n1.prev_rcm == Some(prev),
        n2.prev_rcm == Some(prev),
        t1.height == t2.height,
        t1.relaxed == seq![o1],
        t2.relaxed == seq![o2],
        is_genuine(latest(db.events, n1.name), o1, n1, prev, opening1),
        states(o2, n2),
        o2.nullifier is Some,
        o2.consumed == o1.consumed || o1.nullifier == Some(o2.consumed),
        bound_opening(
            o2.note.spec_parts(),
            o2.cmx,
            n2.action,
            n2.name,
            n2.ua,
            bound_expiry(n2),
            prev,
        ) == Some(opening2),
        is_fresh(db.events, n2.name, t2, o2),
    ensures
        after_batch(db, scanned, seq![t1, t2]) matches Ok(next) ==> next.events.len() == db.events.len() + 1
            && is_record(
            next.events[db.events.len() as int].record,
            t2,
            o2,
            n2,
            prev,
            opening2,
        ) && entry(next.names, n2.name) is None,
{
    let name = n1.name;
    let txs = seq![t1, t2];
    lemma_start(db.events, db.names, name);
    lemma_two_notes(t1, t2, o1, o2, n1, n2);
    lemma_concern_one(t1, t2, o1, o2, n1, n2, txs);
    lemma_empty_staging(name);
    lemma_batch_is_local(db.events, db.names, empty_staging(), txs, name, t1.height);
    lemma_names_alone(db.events, db.names, txs, name);
    lemma_release_outcome(
        db.events,
        latest(db.events, name),
        read_binding(db.names, name)->Ok_0,
        t1,
        o1,
        n1,
        opening1,
        t2,
        o2,
        n2,
        opening2,
        prev,
    );
    let staged = derived(db.events, db.names, empty_staging(), txs)->Ok_0.staged;
    lemma_logged_rows(db.events, staged);
    lemma_named_is_local(db.names, staged, name);
    lemma_spelling(staged[0].action, n2.action);
    assert(logged(db.events, staged)[db.events.len() + 0int].record == staged[0]);
}

#[verifier::rlimit(40)]
proof fn lemma_release_outcome(
    events: Seq<EventRow>,
    tip: Option<EventRow>,
    start: Option<Binding>,
    t1: TxView,
    o1: RelaxedIronwoodOutput,
    n1: NoteView,
    opening1: ([u8; 32], [u8; 32]),
    t2: TxView,
    o2: RelaxedIronwoodOutput,
    n2: NoteView,
    opening2: ([u8; 32], [u8; 32]),
    prev: [u8; 32],
)
    requires
        is_state(tip, start),
        n1.name == n2.name,
        n1.action == Action::Update,
        n2.action == Action::Release,
        n1.prev_rcm == Some(prev),
        n2.prev_rcm == Some(prev),
        t1.height == t2.height,
        is_genuine(tip, o1, n1, prev, opening1),
        states(o2, n2),
        o2.nullifier is Some,
        o2.consumed == o1.consumed || o1.nullifier == Some(o2.consumed),
        bound_opening(
            o2.note.spec_parts(),
            o2.cmx,
            n2.action,
            n2.name,
            n2.ua,
            bound_expiry(n2),
            prev,
        ) == Some(opening2),
        is_fresh(events, n2.name, t2, o2),
    ensures
        ({
            let c = CandidateView { note: n1, output: o1, txid: t1.txid };
            let d = CandidateView { note: n2, output: o2, txid: t2.txid };
            let own = block_outcome(
                events,
                t1.height,
                seq![c, d],
                start,
            );
            own.len() == 1 && is_record(own[0], t2, o2, n2, prev, opening2)
        }),
{
    let c = CandidateView { note: n1, output: o1, txid: t1.txid };
    let d = CandidateView { note: n2, output: o2, txid: t2.txid };
    let group = seq![c, d];
    let height = t1.height;
    let held = start->0;
    lemma_record(t2, o2, n2, prev, opening2);
    lemma_as_array32(held.tip.rcm);
    lemma_as_array32(prev);
    lemma_as_array32(held.nullifier);
    lemma_as_array32(o1.consumed);
    assert(held.tip.rcm == prev && held.nullifier == o1.consumed);
    let b = Admitted { prev_rcm: prev, psi: opening2.0, rcm: opening2.1, nullifier: o2.nullifier->0 };
    let r = record_of(height, d, b);
    assert(verdict(group, start, start, d) == Some(b)) by {
        reveal(verdict);
        let spends = spends_update(group, start, o2.consumed);
        let found = super::notes::note_opening(n2, o2);
        assert(found == Some(opening2));
        if o2.consumed != o1.consumed {
            assert(super::notes::note_opening(c.note, c.output) is Some);
            assert(super::admission::is_update_spent(group[0], held, o2.consumed));
        }
        law_admission_is_exact(start, n2, o2, found, spends, b);
    }
    assert(verdict(group, start, Some(left_by(d, b)), c) is None) by {
        reveal(verdict);
        let found = super::notes::note_opening(n1, o1);
        let spends = spends_update(group, start, o1.consumed);
        if let Some(x) = admission(Some(left_by(d, b)), n1, o1, found, spends) {
            law_admission_is_exact(Some(left_by(d, b)), n1, o1, found, spends, x);
        }
    }
    assert(!key_taken(events, empty_staging().staged, r)) by {
        lemma_fresh_key(events, empty_staging().staged, r, t2, o2);
    }
    lemma_order_moved(start, c, d);
    lemma_second_refused(events, height, group, start, d, b, c);
}

// ── room ────────────────────────────────────────────────────────────────────

/// The outputs of a batch that may carry name notes.
pub open spec fn output_count(txs: Seq<TxView>) -> nat
    decreases txs.len(),
{
    if txs.len() == 0 {
        0
    } else {
        output_count(txs.drop_last()) + txs.last().relaxed.len()
    }
}

proof fn lemma_outputs_bound(outputs: Seq<RelaxedIronwoodOutput>, txid: [u8; 32])
    ensures
        output_candidates(outputs, txid).len() <= outputs.len(),
    decreases outputs.len(),
{
    if outputs.len() > 0 {
        lemma_outputs_bound(outputs.drop_last(), txid);
    }
}

proof fn lemma_candidates_bound(txs: Seq<TxView>)
    ensures
        block_candidates(txs).len() <= output_count(txs),
    decreases txs.len(),
{
    if txs.len() > 0 {
        lemma_candidates_bound(txs.drop_last());
        lemma_outputs_bound(txs.last().relaxed, txs.last().txid);
    }
}

proof fn lemma_considered_bound(
    events: Seq<EventRow>,
    height: u32,
    group: Seq<CandidateView>,
    start: Option<Binding>,
    st: StagingView,
    order: Seq<CandidateView>,
)
    ensures
        consider_all(events, height, group, start, st, order).0.staged.len() <= st.staged.len() + order.len(),
    decreases order.len(),
{
    if order.len() > 0 {
        lemma_considered_bound(events, height, group, start, st, order.drop_last());
    }
}

proof fn lemma_groups_bound(
    events: Seq<EventRow>,
    names: Seq<NoteRecord>,
    height: u32,
    st: StagingView,
    candidates: Seq<CandidateView>,
)
    requires
        all_read(names),
    ensures
        derive_groups(events, names, height, st, candidates) matches Ok(next) && next.staged.len()
            <= st.staged.len() + candidates.len(),
    decreases candidates.len(),
{
    if candidates.len() > 0 {
        let n = crate::order::run_len(candidates, super::admission::candidate_name()) as int;
        crate::order::lemma_run_len(candidates, super::admission::candidate_name());
        let group = candidates.take(n);
        let m = group[0].note.name;
        assert(read_binding(names, m) is Ok);
        let start = super::admission::current_binding(names, st.pending, m)->Ok_0;
        let order = consideration_order(group, start);
        law_release_considered_first(group, start);
        group.to_multiset_ensures();
        order.to_multiset_ensures();
        lemma_considered_bound(events, height, group, start, st, order);
        let next = derive_group(events, names, height, st, group)->Ok_0;
        lemma_groups_bound(events, names, height, next, candidates.skip(n));
    }
}

proof fn lemma_derived_bound(
    events: Seq<EventRow>,
    names: Seq<NoteRecord>,
    st: StagingView,
    txs: Seq<TxView>,
)
    requires
        all_read(names),
    ensures
        derived(events, names, st, txs) matches Ok(next) && next.staged.len() <= st.staged.len()
            + block_candidates(txs).len(),
    decreases txs.len(),
{
    if txs.len() > 0 {
        let n = crate::order::run_len(txs, super::admission::tx_height()) as int;
        crate::order::lemma_run_len(txs, super::admission::tx_height());
        let block = txs.take(n);
        let rest = txs.skip(n);
        assert(txs =~= block + rest);
        lemma_candidates_split(block, rest);
        let sorted = crate::order::sort_by(block_candidates(block), super::admission::candidate_order());
        crate::order::lemma_sort_len(block_candidates(block), super::admission::candidate_order());
        lemma_groups_bound(events, names, block[0].height, st, sorted);
        let next = derive_groups(events, names, block[0].height, st, sorted)->Ok_0;
        lemma_derived_bound(events, names, next, rest);
    }
}

/// A batch succeeds on a chained registry: nothing but the end of the row ids
/// makes one fail.
pub proof fn law_batch_succeeds(db: DbView, scanned: Cursor, txs: Seq<TxView>)
    requires
        chained(db.events, db.names),
    ensures
        after_batch(db, scanned, txs) matches Err(e) ==> e == StoreError::Full,
        next_id(db.events) + output_count(txs) <= i64::MAX ==> after_batch(db, scanned, txs) is Ok,
{
    lemma_start(db.events, db.names, Seq::empty());
    lemma_candidates_bound(txs);
    lemma_derived_bound(db.events, db.names, empty_staging(), txs);
}

// ── openings ────────────────────────────────────────────────────────────────

/// An output has an opening exactly where its memo states a note, sent by the
/// account or not, and its commitment opens to that note under the predecessor
/// that the note discloses: the opening is that one.
pub proof fn law_openings_are_of_stated_notes(
    o: RelaxedIronwoodOutput,
    note: NoteView,
    prev: [u8; 32],
)
    requires
        o.memo is Some,
        parsed_note(o.memo->0@) == Some(note),
        discloses(note, prev),
    ensures
        memo_opening(o) == bound_opening(
            o.note.spec_parts(),
            o.cmx,
            note.action,
            note.name,
            note.ua,
            bound_expiry(note),
            prev,
        ),
{
    law_moves(None, Action::Claim, prev);
    assert(note.disclosed_prev() == prev);
    assert(note.expiry() == bound_expiry(note));
}

/// An output whose memo states no note has no opening.
pub proof fn law_other_outputs_have_no_opening(o: RelaxedIronwoodOutput)
    requires
        o.memo is None || parsed_note(o.memo->0@) is None,
    ensures
        memo_opening(o) is None,
{
}

} // verus!
