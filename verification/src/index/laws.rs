//! What the index keeps: every recorded action extends its name's chain, and a
//! rewind brings back the state below the fork.

use vstd::prelude::*;
use vstd::utf8::*;

use super::{
    applied, branch_of, current_bound, flat_branch, index_after_notes, index_after_rewind,
    is_current, is_tip, lemma_applied_grows, material_of, note_fork, note_record, proof_row,
    read_event, read_registration, tip_in, with_material, ActionRecord, ActionRow, Cursor,
    IndexView, NameNoteView, ProofRowView,
};
use crate::kernel::{
    action_of, commits, derived_opening, is_committed, law_action_spelling_round_trips,
    required_prev, Action,
};
use crate::log::{
    all_through, appended, has_room, heights_rise, ids_ascend, is_newer, latest, lemma_append_order,
    lemma_latest, lemma_latest_is, lemma_latest_through, lemma_prefix_order, lemma_through_all,
    lemma_through_is_prefix, lemma_through_is_prefix_stable, next_id, through,
};
use crate::memo::{is_name, lifecycle_memo};
use crate::order::lemma_filter_sorted;
use crate::store::StoreError;
use crate::text::{in_ua_namespace, lemma_array32_of, lemma_as_array32};
use crate::verify::plain_opening;

verus! {

/// A recorded row decodes, and its name is a valid one outside the address
/// namespace.
pub open spec fn is_sound(r: ActionRecord) -> bool {
    &&& action_of(r.action) is Some
    &&& r.rcm.len() == 32
    &&& r.txid.len() == 32
    &&& is_name(r.name)
    &&& !in_ua_namespace(r.name)
}

/// The row extends the tip its name had before it: its `rcm` is derived from
/// the transition and the predecessor that tip calls for, and its `cmx` is a
/// note's commitment under that opening.
pub open spec fn is_link(before: Seq<ActionRow>, r: ActionRecord) -> bool {
    match (action_of(r.action), tip_in(before, r.name)) {
        (Some(action), Ok(tip)) => match required_prev(tip, action) {
            None => false,
            Some(prev) => {
                let opening = derived_opening(
                    encode_utf8(r.action),
                    encode_utf8(r.name),
                    encode_utf8(r.ua),
                    encode_utf8("none"@),
                    prev,
                );
                r.rcm == opening.1@ && is_committed(opening, r.cmx)
            },
        },
        _ => false,
    }
}

/// The index's invariant over its log.
pub open spec fn chained(log: Seq<ActionRow>) -> bool {
    &&& ids_ascend(log)
    &&& heights_rise(log)
    &&& forall|k: int| 0 <= k < log.len() ==> is_sound((#[trigger] log[k]).record)
    &&& forall|k: int| 0 <= k < log.len() ==> is_link(log.take(k), (#[trigger] log[k]).record)
}

/// The notes come in chain order, from `height` on.
pub open spec fn in_chain_order(notes: Seq<NameNoteView>, height: int) -> bool {
    &&& forall|i: int| 0 <= i < notes.len() ==> height <= (#[trigger] notes[i]).height
    &&& forall|i: int, j: int|
        0 <= i < j < notes.len() ==> (#[trigger] notes[i]).height <= (#[trigger] notes[j]).height
}

/// On a chained log every tip reads.
proof fn lemma_tip_reads(log: Seq<ActionRow>, name: Seq<char>)
    requires
        chained(log),
    ensures
        tip_in(log, name) is Ok,
{
    lemma_latest(log, name);
    if latest(log, name) is Some {
        let row = latest(log, name)->0;
        let k = choose|k: int| 0 <= k < log.len() && log[k] == row;
        assert(is_sound(log[k].record));
    }
}

proof fn lemma_append_keeps(log: Seq<ActionRow>, record: ActionRecord, height: int)
    requires
        chained(log),
        all_through(log, height),
        record.height == height,
        next_id(log) <= i64::MAX,
        is_sound(record),
        is_link(log, record),
    ensures
        chained(appended(log, record)),
        all_through(appended(log, record), height),
{
    let next = appended(log, record);
    lemma_append_order(log, record, height);
    assert forall|k: int| 0 <= k < next.len() implies is_sound((#[trigger] next[k]).record) by {
        if k < log.len() {
            assert(is_sound(log[k].record));
        }
    }
    assert forall|k: int| 0 <= k < next.len() implies is_link(next.take(k), (#[trigger] next[k]).record) by {
        if k < log.len() {
            assert(next.take(k) =~= log.take(k));
            assert(is_link(log.take(k), log[k].record));
        } else {
            assert(next.take(k) =~= log);
        }
    }
}

/// Notes in chain order keep the index chained, and nothing but the end of the
/// row ids makes them fail.
pub proof fn law_notes_keep_index_chained(log: Seq<ActionRow>, notes: Seq<NameNoteView>, height: int)
    requires
        chained(log),
        all_through(log, height),
        in_chain_order(notes, height),
    ensures
        match applied(log, notes) {
            Ok(next) => chained(next.log) && all_through(
                next.log,
                if notes.len() > 0 {
                    notes.last().height as int
                } else {
                    height
                },
            ),
            Err(e) => e == StoreError::Full,
        },
    decreases notes.len(),
{
    if notes.len() > 0 {
        let init = notes.drop_last();
        let n = notes.last();
        assert(n == notes[notes.len() - 1]);
        assert(in_chain_order(init, height)) by {
            assert forall|i: int| 0 <= i < init.len() implies height <= (#[trigger] init[i]).height by {
                assert(height <= notes[i].height);
            }
            assert forall|i: int, j: int| 0 <= i < j < init.len() implies (#[trigger] init[i]).height <= (
            #[trigger] init[j]).height by {
                assert(notes[i].height <= notes[j].height);
            }
        }
        law_notes_keep_index_chained(log, init, height);
        if applied(log, init) is Ok {
            let state = applied(log, init)->Ok_0;
            let h = n.height as int;
            assert(all_through(state.log, h)) by {
                assert forall|i: int| 0 <= i < state.log.len() implies (#[trigger] state.log[i]).record.height
                    <= h by {
                    if init.len() > 0 {
                        assert(notes[init.len() - 1].height <= notes[notes.len() - 1].height);
                    }
                }
            }
            match lifecycle_memo(n.memo) {
                Some(m) => {
                    lemma_tip_reads(state.log, m.name);
                    law_action_spelling_round_trips(m.action);
                    if let Ok(Some(record)) = note_record(state.log, n) {
                        let opening = plain_opening(
                            n.note.spec_parts(),
                            n.cmx,
                            m.action,
                            m.name,
                            m.ua,
                            required_prev(tip_in(state.log, m.name)->Ok_0, m.action)->0,
                        )->0;
                        assert(commits(n.note.spec_parts(), opening, record.cmx));
                        assert(is_link(state.log, record));
                        if has_room(state.log, 0) {
                            lemma_append_keeps(state.log, record, h);
                        }
                    }
                },
                None => {},
            }
        }
    }
}

/// The note carries the record: the record is of the note's transaction and
/// on-chain commitment, says what the note's memo says, and the note commits to
/// it.
pub open spec fn carries(n: NameNoteView, r: ActionRecord) -> bool {
    &&& r.cmx == n.cmx@
    &&& r.txid == n.txid@
    &&& r.height == n.height
    &&& r.action_index == n.action_index as i64
    &&& lifecycle_memo(n.memo) matches Some(m) && m.name == r.name && m.ua == r.ua && m.action.text()
        == r.action && exists|prev: [u8; 32]|
        (#[trigger] plain_opening(n.note.spec_parts(), n.cmx, m.action, m.name, m.ua, prev)) matches Some(
            opening,
        ) && opening.1@ == r.rcm
}

/// Nothing is forged: every row that notes add to the log is carried by one of
/// them, so it passed the check against the commitment on chain. The rows that
/// were there stay as they are.
pub proof fn law_nothing_is_forged(log: Seq<ActionRow>, notes: Seq<NameNoteView>)
    ensures
        applied(log, notes) matches Ok(next) ==> log.len() <= next.log.len() && next.log.take(
            log.len() as int,
        ) == log && forall|i: int|
            log.len() <= i < next.log.len() ==> exists|k: int|
                0 <= k < notes.len() && carries(#[trigger] notes[k], (#[trigger] next.log[i]).record),
    decreases notes.len(),
{
    if applied(log, notes) is Ok {
        lemma_applied_grows(log, notes);
        if notes.len() > 0 {
            let init = notes.drop_last();
            let n = notes.last();
            law_nothing_is_forged(log, init);
            lemma_applied_grows(log, init);
            let before = applied(log, init)->Ok_0;
            let next = applied(log, notes)->Ok_0;
            assert(n == notes[notes.len() - 1]);
            assert forall|i: int| log.len() <= i < next.log.len() implies exists|k: int|
                0 <= k < notes.len() && carries(#[trigger] notes[k], (#[trigger] next.log[i]).record) by {
                if i < before.log.len() {
                    assert(next.log[i] == before.log[i]);
                    let k = choose|k: int|
                        0 <= k < init.len() && carries(#[trigger] init[k], before.log[i].record);
                    assert(notes[k] == init[k]);
                } else {
                    let record = note_record(before.log, n)->Ok_0->0;
                    assert(next.log[i].record == record);
                    assert(carries(n, record));
                    assert(carries(notes[notes.len() - 1], next.log[i].record));
                }
            }
        }
    }
}

/// Fork evidence is reported and never recorded: a note that is evidence of a
/// fork adds no row.
pub proof fn law_fork_evidence_is_not_recorded(log: Seq<ActionRow>, n: NameNoteView)
    ensures
        note_fork(log, n) is Some ==> note_record(log, n) == Ok::<Option<ActionRecord>, StoreError>(None),
{
}

/// Notes none of which fits its name's tip record nothing: forged ones, claims
/// of live names, notes off another predecessor.
pub proof fn law_unfit_notes_change_nothing(log: Seq<ActionRow>, notes: Seq<NameNoteView>)
    requires
        forall|i: int|
            0 <= i < notes.len() ==> note_record(log, #[trigger] notes[i]) == Ok::<
                Option<ActionRecord>,
                StoreError,
            >(None),
    ensures
        applied(log, notes) matches Ok(next) && next.log == log && next.recorded.len() == 0,
    decreases notes.len(),
{
    if notes.len() > 0 {
        let init = notes.drop_last();
        assert forall|i: int| 0 <= i < init.len() implies note_record(log, #[trigger] init[i]) == Ok::<
            Option<ActionRecord>,
            StoreError,
        >(None) by {
            assert(init[i] == notes[i]);
        }
        law_unfit_notes_change_nothing(log, init);
        assert(notes.last() == notes[notes.len() - 1]);
    }
}

/// A rewind keeps exactly the rows at or below the fork, and the index chained.
pub proof fn law_rewind_keeps_index_chained(index: IndexView, to: u32)
    requires
        chained(index.actions),
    ensures
        chained(index_after_rewind(index, to).actions),
        all_through(index_after_rewind(index, to).actions, to as int),
        forall|r: ActionRow| #[trigger]
            index_after_rewind(index, to).actions.contains(r) <==> index.actions.contains(r)
                && r.record.height <= to,
{
    let log = index.actions;
    let t = through(log, to as int);
    lemma_through_is_prefix(log, to as int);
    lemma_through_is_prefix_stable(log, to as int);
    lemma_prefix_order(log, t.len() as int);
    assert forall|k: int| 0 <= k < t.len() implies is_sound((#[trigger] t[k]).record) && is_link(
        t.take(k),
        t[k].record,
    ) by {
        assert(t[k] == log[k]);
        assert(is_sound(log[k].record));
        assert(is_link(log.take(k), log[k].record));
        assert(t.take(k) =~= log.take(k));
    }
}

proof fn lemma_applied_heights(log: Seq<ActionRow>, notes: Seq<NameNoteView>, fork: int)
    requires
        forall|i: int| 0 <= i < notes.len() ==> (#[trigger] notes[i]).height > fork,
        applied(log, notes) is Ok,
    ensures
        through(applied(log, notes)->Ok_0.log, fork) == through(log, fork),
    decreases notes.len(),
{
    reveal(Seq::filter);
    if notes.len() > 0 {
        let init = notes.drop_last();
        assert forall|i: int| 0 <= i < init.len() implies (#[trigger] init[i]).height > fork by {
            assert(notes[i].height > fork);
        }
        lemma_applied_heights(log, init, fork);
        let state = applied(log, init)->Ok_0;
        let next = applied(log, notes)->Ok_0;
        assert(notes[notes.len() - 1].height > fork);
        if next.log != state.log {
            assert(next.log.drop_last() =~= state.log);
        }
    }
}

/// Rewinding to a fork undoes every note above it: the log is what it was.
pub proof fn law_rewind_undoes_notes(index: IndexView, at: Cursor, notes: Seq<NameNoteView>, fork: u32)
    requires
        all_through(index.actions, fork as int),
        forall|i: int| 0 <= i < notes.len() ==> (#[trigger] notes[i]).height > fork,
        index_after_notes(index, at, notes) is Ok,
    ensures
        index_after_rewind((index_after_notes(index, at, notes)->Ok_0).0, fork).actions == index.actions,
{
    lemma_applied_heights(index.actions, notes, fork as int);
    lemma_through_all(index.actions, fork as int);
}

/// A name that nothing above the fork touched resolves as before the rewind.
pub proof fn law_rewind_spares_untouched_names(index: IndexView, to: u32, name: Seq<char>)
    requires
        forall|i: int|
            0 <= i < index.actions.len() && #[trigger] index.actions[i].record.name == name
                ==> index.actions[i].record.height <= to,
    ensures
        latest(index_after_rewind(index, to).actions, name) == latest(index.actions, name),
{
    lemma_latest_through(index.actions, to as int, name);
}

/// An address string is never a recorded name, so looking one up by name
/// always falls through to the reverse lookup.
pub proof fn law_no_name_shadows_an_address(log: Seq<ActionRow>, address: Seq<char>)
    requires
        chained(log),
        in_ua_namespace(address),
    ensures
        latest(log, address) is None,
{
    lemma_latest(log, address);
    if latest(log, address) is Some {
        let k = choose|k: int| 0 <= k < log.len() && log[k] == latest(log, address)->0;
        assert(is_sound(log[k].record));
    }
}

/// The resolution view holds one row per live name: the name's latest, unless
/// it is a release.
pub proof fn law_current_rows_are_tips(log: Seq<ActionRow>, k: int)
    requires
        ids_ascend(log),
        0 <= k < log.len(),
    ensures
        is_current(log)(log[k]) <==> latest(log, log[k].record.name) == Some(log[k])
            && log[k].record.action != Action::Release.text(),
{
    let name = log[k].record.name;
    lemma_latest(log, name);
    if is_tip(log, log[k]) {
        assert forall|i: int| 0 <= i < log.len() && i != k && #[trigger] log[i].record.name == name implies is_newer(
            log[k],
            log[i],
        ) by {
            assert(!is_newer(log[i], log[k]));
            if i < k {
                assert(log[i].id < log[k].id);
            } else {
                assert(log[k].id < log[i].id);
            }
        }
        lemma_latest_is(log, name, k);
    }
    if latest(log, name) == Some(log[k]) {
        assert forall|j: int| 0 <= j < log.len() && log[j].record.name == name implies !is_newer(
            #[trigger] log[j],
            log[k],
        ) by {
            assert(log[j].record.name == name);
        }
    }
}

/// The listing holds each name that resolves, once, at its newest row: it is in
/// the listing if and only if it resolves. The count is the listing's length.
pub proof fn law_listing_holds_what_resolves(log: Seq<ActionRow>, name: Seq<char>)
    requires
        ids_ascend(log),
    ensures
        ({
            let listed = log.filter(current_bound(log, None));
            &&& forall|i: int|
                0 <= i < listed.len() ==> latest(log, (#[trigger] listed[i]).record.name) == Some(listed[i])
            &&& forall|i: int, j: int|
                0 <= i < j < listed.len() ==> (#[trigger] listed[i]).record.name != (
                #[trigger] listed[j]).record.name
            &&& (exists|i: int| 0 <= i < listed.len() && (#[trigger] listed[i]).record.name == name) <==> (
            latest(log, name) matches Some(row) && row.record.action != Action::Release.text())
        }),
{
    broadcast use vstd::seq_lib::group_filter_ensures;

    let want = current_bound(log, None);
    let listed = log.filter(want);
    let by_id = |a: ActionRow, b: ActionRow| a.id < b.id;
    assert forall|i: int, j: int| 0 <= i < j < log.len() implies by_id(#[trigger] log[i], #[trigger] log[j]) by {
        assert(log[i].id < log[j].id);
    }
    lemma_filter_sorted(log, by_id, want);
    assert forall|i: int| 0 <= i < listed.len() implies latest(log, (#[trigger] listed[i]).record.name) == Some(
        listed[i],
    ) && listed[i].record.action != Action::Release.text() by {
        assert(want(listed[i]));
        assert(listed.contains(listed[i]));
        log.lemma_filter_contains_rev(want, listed[i]);
        let k = choose|k: int| 0 <= k < log.len() && log[k] == listed[i];
        law_current_rows_are_tips(log, k);
    }
    assert forall|i: int, j: int| 0 <= i < j < listed.len() implies (#[trigger] listed[i]).record.name != (
    #[trigger] listed[j]).record.name by {
        assert(by_id(listed[i], listed[j]));
    }
    lemma_latest(log, name);
    if let Some(row) = latest(log, name) {
        if row.record.action != Action::Release.text() {
            let k = choose|k: int| 0 <= k < log.len() && log[k] == row;
            law_current_rows_are_tips(log, k);
            assert(want(log[k]));
            log.lemma_filter_contains(want, k);
            let i = choose|i: int| 0 <= i < listed.len() && listed[i] == row;
            assert(listed[i].record.name == name);
        }
    }
}

/// What is served of a name is its newest row, unless it is a release, and no
/// reading fails.
pub proof fn law_resolution_serves_the_newest_row(log: Seq<ActionRow>, name: Seq<char>)
    requires
        chained(log),
    ensures
        latest(log, name) matches Some(row) ==> (read_registration()(row) matches Ok(reg) && reg.name == name
            && reg.ua == row.record.ua && reg.txid@ == row.record.txid && action_of(row.record.action)
            == Some(reg.last_action)),
        forall|k: int| 0 <= k < log.len() ==> read_event()(#[trigger] log[k]) is Ok,
{
    lemma_latest(log, name);
    if let Some(row) = latest(log, name) {
        let k = choose|k: int| 0 <= k < log.len() && log[k] == row;
        assert(is_sound(log[k].record));
        lemma_array32_of(row.record.txid);
    }
    assert forall|k: int| 0 <= k < log.len() implies read_event()(#[trigger] log[k]) is Ok by {
        assert(is_sound(log[k].record));
    }
}

/// A released name is not resolved, and its tip lets it be claimed anew.
pub proof fn law_released_name_is_free(log: Seq<ActionRow>, name: Seq<char>)
    requires
        chained(log),
        latest(log, name) is Some,
        latest(log, name)->0.record.action == Action::Release.text(),
    ensures
        tip_in(log, name) matches Ok(Some(tip)) && required_prev(Some(tip), Action::Claim) == Some(
            crate::kernel::ZERO_PREV_RCM,
        ) && required_prev(Some(tip), Action::Update) is None,
        forall|k: int| 0 <= k < log.len() && log[k].record.name == name ==> !is_current(log)(#[trigger] log[k]),
{
    law_action_spelling_round_trips(Action::Release);
    lemma_tip_reads(log, name);
    assert forall|k: int| 0 <= k < log.len() && log[k].record.name == name implies !is_current(log)(
        #[trigger] log[k],
    ) by {
        law_current_rows_are_tips(log, k);
    }
}

// ── proof material ──────────────────────────────────────────────────────────

proof fn lemma_flat_len(branch: Seq<[u8; 32]>)
    ensures
        flat_branch(branch).len() == 32 * branch.len(),
    decreases branch.len(),
{
    if branch.len() > 0 {
        lemma_flat_len(branch.drop_last());
    }
}

proof fn lemma_flat_at(branch: Seq<[u8; 32]>, i: int)
    requires
        0 <= i < branch.len(),
    ensures
        flat_branch(branch).subrange(32 * i, 32 * i + 32) == branch[i]@,
    decreases branch.len(),
{
    let init = branch.drop_last();
    lemma_flat_len(init);
    lemma_flat_len(branch);
    if i < init.len() {
        lemma_flat_at(init, i);
        assert(flat_branch(branch).subrange(32 * i, 32 * i + 32) =~= flat_branch(init).subrange(
            32 * i,
            32 * i + 32,
        ));
    } else {
        assert(flat_branch(branch).subrange(32 * i, 32 * i + 32) =~= branch.last()@);
    }
}

/// A stored branch reads back as it was.
pub proof fn law_branch_round_trips(branch: Seq<[u8; 32]>)
    ensures
        branch_of(flat_branch(branch)) == branch,
{
    lemma_flat_len(branch);
    assert forall|i: int| 0 <= i < branch.len() implies branch_of(flat_branch(branch))[i] == #[trigger] branch[i] by {
        lemma_flat_at(branch, i);
        lemma_as_array32(branch[i]);
    }
    assert(branch_of(flat_branch(branch)) =~= branch);
}

proof fn lemma_proof_row_pushed(rows: Seq<ProofRowView>, row: ProofRowView, txid: Seq<u8>)
    requires
        proof_row(rows, txid) is None,
        row.txid == txid,
    ensures
        proof_row(rows.push(row), txid) == Some(row),
    decreases rows.len(),
{
    if rows.len() > 0 {
        assert(rows.push(row).skip(1) =~= rows.skip(1).push(row));
        lemma_proof_row_pushed(rows.skip(1), row, txid);
    }
}

/// Proof material reads back as it was stored, and storing it again changes
/// nothing.
pub proof fn law_proof_material_round_trips(
    rows: Seq<ProofRowView>,
    txid: [u8; 32],
    height: u32,
    raw_tx: Seq<u8>,
    header: Seq<u8>,
    branch: Seq<[u8; 32]>,
    index: u32,
)
    requires
        proof_row(rows, txid@) is None,
    ensures
        ({
            let stored = with_material(rows, txid, height, raw_tx, header, branch, index);
            &&& proof_row(stored, txid@) matches Some(row) && material_of(row) == (super::MaterialView {
                raw_tx,
                header,
                merkle_branch: branch,
                merkle_index: index,
            })
            &&& with_material(stored, txid, height, raw_tx, header, branch, index) == stored
        }),
{
    let stored = with_material(rows, txid, height, raw_tx, header, branch, index);
    lemma_proof_row_pushed(rows, stored.last(), txid@);
    law_branch_round_trips(branch);
    assert((index as i64) as u32 == index);
}

/// A rewind purges the proof material of orphaned blocks and no other.
pub proof fn law_rewind_purges_orphaned_proofs(index: IndexView, to: u32, row: ProofRowView)
    ensures
        index_after_rewind(index, to).proof_material.contains(row) <==> index.proof_material.contains(row)
            && row.height <= to,
{
    broadcast use vstd::seq_lib::group_filter_ensures;

    let p = |p: ProofRowView| p.height <= to as int;
    let kept = index.proof_material.filter(p);
    if kept.contains(row) {
        let i = choose|i: int| 0 <= i < kept.len() && kept[i] == row;
        assert(p(kept[i]));
        index.proof_material.lemma_filter_contains_rev(p, row);
    }
    if index.proof_material.contains(row) && row.height <= to {
        let i = choose|i: int| 0 <= i < index.proof_material.len() && index.proof_material[i] == row;
        assert(p(index.proof_material[i]));
        index.proof_material.lemma_filter_contains(p, i);
    }
}

} // verus!
