//! What the index records and serves: every genuine note, and each row as it
//! was recorded.

use vstd::prelude::*;

use super::laws::{chained, is_sound, law_current_rows_are_tips};
use super::{
    applied, current_bound, cursor_of, forks_of, index_after_notes, index_after_rewind,
    note_record, proof_row, read_chain_row, read_entry, read_event, read_registration,
    row_name_order, tip_in, with_material, ActionRow, AppliedView, Cursor, IndexView, NameNoteView,
    ProofRowView, Recorded,
};
use crate::kernel::{action_of, law_action_spelling_round_trips, law_moves, Action};
use crate::log::{all_through, latest, lemma_append_order, lemma_latest, next_id};
use crate::log::laws::lemma_selection;
use crate::memo::{lifecycle_memo, LifecycleView};
use crate::order::{is_order, lemma_sort, sort_by};
use crate::store::StoreError;
use crate::text::{
    in_ua_namespace, lemma_array32_of, lemma_as_array32, lemma_text_le_total, lemma_text_le_transitive, text_le,
};
use crate::verify::{plain_opening, ForkView};

verus! {

/// An action may extend `prev` on a name whose newest row is `tip`.
pub open spec fn may_extend(tip: Option<ActionRow>, action: Action, prev: [u8; 32]) -> bool {
    if action == Action::Claim {
        &&& tip matches Some(row) ==> row.record.action == "release"@
        &&& forall|i: int| 0 <= i < 32 ==> #[trigger] prev@[i] == 0
    } else {
        tip matches Some(row) && row.record.action != "release"@ && row.record.rcm == prev@
    }
}

/// A log's rows are served as they were recorded: an event, a registration, a
/// link of a chain and an entry hold the row's own columns, and no reading
/// fails. Every height that notes are recorded at, and every action index, is
/// within the bounds here.
pub proof fn law_rows_are_served_as_recorded(log: Seq<ActionRow>, k: int)
    requires
        chained(log),
        0 <= k < log.len(),
    ensures
        ({
            let r = log[k].record;
            let is_height = 0 <= r.height <= u32::MAX;
            let is_index = 0 <= r.action_index <= usize::MAX;
            &&& read_event()(log[k]) matches Ok(e) && e.id == log[k].id && e.name == r.name && e.ua == r.ua
                && e.txid@ == r.txid && (is_height ==> e.height == r.height) && action_of(r.action) == Some(
                e.action,
            )
            &&& read_registration()(log[k]) matches Ok(g) && g.name == r.name && g.ua == r.ua && g.txid@
                == r.txid && (is_height ==> g.height == r.height) && action_of(r.action) == Some(
                g.last_action,
            )
            &&& read_chain_row()(log[k]) matches Ok(c) && c.ua == r.ua && c.txid@ == r.txid && (is_height
                ==> c.height == r.height) && (is_index ==> c.action_index == r.action_index) && action_of(
                r.action,
            ) == Some(c.action)
            &&& read_entry(log[k]) matches Ok(e) && e.name == r.name && e.ua == r.ua && e.rcm@ == r.rcm
                && action_of(r.action) == Some(e.last_action)
        }),
{
    let r = log[k].record;
    assert(is_sound(r));
    lemma_array32_of(r.txid);
    lemma_array32_of(r.rcm);
}

/// On a chained log the tip that the chain rule reads is the newest row's, and a
/// move fits it exactly where it may extend that row.
proof fn lemma_tip_fits(log: Seq<ActionRow>, name: Seq<char>, action: Action, prev: [u8; 32])
    requires
        chained(log),
    ensures
        tip_in(log, name) matches Ok(tip) && (crate::kernel::required_prev(tip, action) == Some(prev)
            <==> may_extend(latest(log, name), action, prev)),
{
    lemma_latest(log, name);
    law_action_spelling_round_trips(Action::Release);
    if let Some(row) = latest(log, name) {
        let k = choose|k: int| 0 <= k < log.len() && log[k] == row;
        assert(is_sound(log[k].record));
        lemma_array32_of(row.record.rcm);
        lemma_as_array32(prev);
        let a = action_of(row.record.action)->0;
        law_action_spelling_round_trips(a);
        assert(row.record.action == "release"@ <==> a == Action::Release);
    }
    law_moves(tip_in(log, name)->Ok_0, action, prev);
}

/// A batch of one note.
proof fn lemma_applied_alone(log: Seq<ActionRow>, n: NameNoteView)
    ensures
        applied(log, seq![n]) == super::applied_one(AppliedView { log, recorded: Seq::empty() }, n),
        forks_of(log, seq![n]) == (match super::note_fork(log, n) {
            Some(fork) => seq![fork],
            None => Seq::empty(),
        }),
{
    let none = seq![n].drop_last();
    assert(none =~= Seq::empty());
    assert(applied(log, none) == Ok::<AppliedView, StoreError>(
        AppliedView { log, recorded: Seq::empty() },
    ));
    assert(forks_of(log, none) =~= Seq::empty());
    if let Some(fork) = super::note_fork(log, n) {
        assert(Seq::<ForkView>::empty().push(fork) =~= seq![fork]);
    }
}

/// Every genuine note is recorded: one whose memo is a lifecycle memo for a name
/// outside the address namespace, whose action may extend the name's newest row,
/// whatever action that was, and whose commitment opens under that predecessor.
/// It becomes the name's newest row, and holds what the note says.
pub proof fn law_genuine_note_is_recorded(
    log: Seq<ActionRow>,
    n: NameNoteView,
    m: LifecycleView,
    prev: [u8; 32],
    opening: ([u8; 32], [u8; 32]),
)
    requires
        chained(log),
        all_through(log, n.height as int),
        next_id(log) <= i64::MAX,
        lifecycle_memo(n.memo) == Some(m),
        !in_ua_namespace(m.name),
        may_extend(latest(log, m.name), m.action, prev),
        plain_opening(n.note.spec_parts(), n.cmx, m.action, m.name, m.ua, prev) == Some(opening),
    ensures
        applied(log, seq![n]) matches Ok(next) && next.log.len() == log.len() + 1 && next.log.drop_last()
            == log && next.recorded == seq![Recorded { txid: n.txid, height: n.height }] && latest(
            next.log,
            m.name,
        ) == Some(next.log.last()) && ({
            let r = next.log.last().record;
            &&& r.name == m.name
            &&& r.ua == m.ua
            &&& action_of(r.action) == Some(m.action)
            &&& r.rcm == opening.1@
            &&& r.cmx == n.cmx@
            &&& r.txid == n.txid@
            &&& r.height == n.height
            &&& n.action_index <= i64::MAX ==> r.action_index == n.action_index
        }) && forall|other: Seq<char>|
            other != m.name ==> #[trigger] latest(next.log, other) == latest(log, other),
{
    lemma_tip_fits(log, m.name, m.action, prev);
    law_action_spelling_round_trips(m.action);
    let record = note_record(log, n)->Ok_0->0;
    lemma_append_order(log, record, n.height as int);
    lemma_applied_alone(log, n);
    let next = applied(log, seq![n])->Ok_0;
    assert(next.log.drop_last() =~= log);
    assert(next.recorded =~= seq![Recorded { txid: n.txid, height: n.height }]);
}

/// Only genuine notes are recorded: where one adds a row, its memo is a
/// lifecycle memo for a name outside the address namespace, and its commitment
/// opens under a predecessor that its action may extend.
pub proof fn law_recorded_note_is_genuine(log: Seq<ActionRow>, n: NameNoteView)
    requires
        chained(log),
        applied(log, seq![n]) is Ok,
        applied(log, seq![n])->Ok_0.log != log,
    ensures
        lifecycle_memo(n.memo) matches Some(m) && !in_ua_namespace(m.name) && exists|prev: [u8; 32]|
            may_extend(latest(log, m.name), m.action, prev) && #[trigger] plain_opening(
                n.note.spec_parts(),
                n.cmx,
                m.action,
                m.name,
                m.ua,
                prev,
            ) is Some,
{
    lemma_applied_alone(log, n);
    let m = lifecycle_memo(n.memo)->0;
    let prev = crate::kernel::required_prev(tip_in(log, m.name)->Ok_0, m.action)->0;
    lemma_tip_fits(log, m.name, m.action, prev);
    assert(plain_opening(n.note.spec_parts(), n.cmx, m.action, m.name, m.ua, prev) is Some);
}

/// A fork is reported exactly where a note of a fitting action does not open
/// under the predecessor that its name's newest row calls for, and opens under
/// the other one that it discloses; the report names both.
pub proof fn law_forks_are_reported(
    log: Seq<ActionRow>,
    n: NameNoteView,
    m: LifecycleView,
    expected: [u8; 32],
)
    requires
        chained(log),
        lifecycle_memo(n.memo) == Some(m),
        !in_ua_namespace(m.name),
        may_extend(latest(log, m.name), m.action, expected),
    ensures
        ({
            let parts = n.note.spec_parts();
            let forked = plain_opening(parts, n.cmx, m.action, m.name, m.ua, expected) is None && (
            m.prev_rcm matches Some(p) && plain_opening(parts, n.cmx, m.action, m.name, m.ua, p) is Some);
            &&& !forked ==> forks_of(log, seq![n]).len() == 0
            &&& forked ==> forks_of(log, seq![n]) == seq![
                ForkView { name: m.name, height: n.height, claimed: m.prev_rcm->0, expected },
            ]
        }),
{
    lemma_tip_fits(log, m.name, m.action, expected);
    lemma_applied_alone(log, n);
}

/// Applying one batch of notes and then another is applying both as one.
pub proof fn law_batches_compose(log: Seq<ActionRow>, first: Seq<NameNoteView>, second: Seq<NameNoteView>)
    ensures
        applied(log, first + second) == (match applied(log, first) {
            Err(e) => Err::<AppliedView, StoreError>(e),
            Ok(a) => match applied(a.log, second) {
                Err(e) => Err(e),
                Ok(b) => Ok(AppliedView { log: b.log, recorded: a.recorded + b.recorded }),
            },
        }),
    decreases second.len(),
{
    let whole = first + second;
    if second.len() == 0 {
        assert(whole =~= first);
        if let Ok(a) = applied(log, first) {
            assert(a.recorded + Seq::<Recorded>::empty() =~= a.recorded);
        }
    } else {
        law_batches_compose(log, first, second.drop_last());
        assert(whole.drop_last() =~= first + second.drop_last());
        assert(whole.last() == second.last());
        if let Ok(a) = applied(log, first) {
            if let Ok(b) = applied(a.log, second.drop_last()) {
                let r = Recorded { txid: second.last().txid, height: second.last().height };
                assert((a.recorded + b.recorded).push(r) =~= a.recorded + b.recorded.push(r));
            }
        }
    }
}

/// A batch leaves the index at its own position, and a rewind at the fork with
/// no hash; height zero is no position. A batch leaves the proof material alone.
pub proof fn law_index_stands_where_it_was_left(
    index: IndexView,
    at: Cursor,
    notes: Seq<NameNoteView>,
    to: u32,
)
    ensures
        index_after_notes(index, at, notes) matches Ok(next) ==> next.0.proof_material
            == index.proof_material && cursor_of(next.0.sync_state) == (if at.height == 0 {
            None
        } else {
            Some((at.height, at.hash))
        }),
        cursor_of(index_after_rewind(index, to).sync_state) == (if to == 0 {
            None
        } else {
            Some((to, None::<[u8; 32]>))
        }),
{
    if let Some(h) = at.hash {
        lemma_as_array32(h);
    }
}

/// Storing a transaction's proof material leaves every other one's alone, and
/// stores nothing where the transaction has some.
pub proof fn law_material_is_stored_once(
    rows: Seq<ProofRowView>,
    txid: [u8; 32],
    height: u32,
    raw_tx: Seq<u8>,
    header: Seq<u8>,
    branch: Seq<[u8; 32]>,
    index: u32,
    other: Seq<u8>,
)
    ensures
        ({
            let stored = with_material(rows, txid, height, raw_tx, header, branch, index);
            &&& other != txid@ ==> proof_row(stored, other) == proof_row(rows, other)
            &&& proof_row(rows, txid@) is Some ==> stored == rows
            &&& proof_row(rows, txid@) is None ==> stored.len() == rows.len() + 1 && stored.drop_last()
                == rows && stored.last().height == height && stored.last().txid == txid@
        }),
{
    let stored = with_material(rows, txid, height, raw_tx, header, branch, index);
    if proof_row(rows, txid@) is None {
        assert(stored.drop_last() =~= rows);
        if other != txid@ {
            lemma_other_row(rows, stored.last(), other);
        }
    }
}

proof fn lemma_other_row(rows: Seq<ProofRowView>, row: ProofRowView, other: Seq<u8>)
    requires
        row.txid != other,
    ensures
        proof_row(rows.push(row), other) == proof_row(rows, other),
    decreases rows.len(),
{
    if rows.len() > 0 {
        assert(rows.push(row).skip(1) =~= rows.skip(1).push(row));
        lemma_other_row(rows.skip(1), row, other);
    } else {
        let rest = rows.push(row).skip(1);
        assert(rest.len() == 0 && proof_row(rest, other) is None);
        assert(rows.push(row)[0] == row);
    }
}

/// The material found for a transaction is its own, and there is some wherever a
/// row of it is stored.
pub proof fn law_material_is_of_its_transaction(rows: Seq<ProofRowView>, txid: Seq<u8>)
    ensures
        proof_row(rows, txid) matches Some(row) ==> row.txid == txid && rows.contains(row),
        proof_row(rows, txid) is None ==> forall|i: int| 0 <= i < rows.len() ==> (#[trigger] rows[i]).txid != txid,
    decreases rows.len(),
{
    if rows.len() > 0 && rows[0].txid != txid {
        law_material_is_of_its_transaction(rows.skip(1), txid);
        if let Some(row) = proof_row(rows, txid) {
            let i = choose|i: int| 0 <= i < rows.skip(1).len() && rows.skip(1)[i] == row;
            assert(rows[i + 1] == row);
        } else {
            assert forall|i: int| 0 <= i < rows.len() implies (#[trigger] rows[i]).txid != txid by {
                if i > 0 {
                    assert(rows.skip(1)[i - 1] == rows[i]);
                }
            }
        }
    } else if rows.len() > 0 {
        assert(rows.contains(rows[0]));
    }
}

proof fn lemma_name_order()
    ensures
        is_order(row_name_order()),
{
    assert forall|a: ActionRow, b: ActionRow| #[trigger] row_name_order()(a, b) || row_name_order()(b, a) by {
        lemma_text_le_total(a.record.name, b.record.name);
    }
    assert forall|a: ActionRow, b: ActionRow, c: ActionRow| #[trigger]
        row_name_order()(a, b) && #[trigger] row_name_order()(b, c) implies row_name_order()(a, c) by {
        lemma_text_le_transitive(a.record.name, b.record.name, c.record.name);
    }
}

/// A listing, of every name or of those bound to an address, holds exactly the
/// newest rows of the live names it asks for, in dictionary order of the names.
pub proof fn law_listing_is_the_live_names(log: Seq<ActionRow>, ua: Option<Seq<char>>)
    requires
        chained(log),
    ensures
        ({
            let listed = sort_by(log.filter(current_bound(log, ua)), row_name_order());
            &&& listed.len() == log.filter(current_bound(log, ua)).len()
            &&& forall|r: ActionRow| #[trigger]
                listed.contains(r) <==> {
                    &&& latest(log, r.record.name) == Some(r)
                    &&& r.record.action != "release"@
                    &&& ua matches Some(u) ==> r.record.ua == u
                }
            &&& forall|i: int, j: int|
                0 <= i < j < listed.len() ==> text_le(
                    (#[trigger] listed[i]).record.name,
                    (#[trigger] listed[j]).record.name,
                )
        }),
{
    let want = current_bound(log, ua);
    let listed = sort_by(log.filter(want), row_name_order());
    lemma_name_order();
    lemma_sort(log.filter(want), row_name_order());
    assert forall|r: ActionRow| #[trigger] listed.contains(r) <==> latest(log, r.record.name) == Some(r)
        && r.record.action != "release"@ && (ua matches Some(u) ==> r.record.ua == u) by {
        lemma_selection(log, want, row_name_order(), r);
        lemma_latest(log, r.record.name);
        if log.contains(r) {
            let k = choose|k: int| 0 <= k < log.len() && log[k] == r;
            law_current_rows_are_tips(log, k);
        }
    }
    assert forall|i: int, j: int| 0 <= i < j < listed.len() implies text_le(
        (#[trigger] listed[i]).record.name,
        (#[trigger] listed[j]).record.name,
    ) by {
        assert(row_name_order()(listed[i], listed[j]));
    }
}

/// A row reads exactly where its action is spelled right and its transaction id,
/// or for an entry its `rcm`, has 32 bytes; the failure names the column of the
/// first of the two, in the order of the query, that is not so.
pub proof fn law_malformed_rows_fail(row: ActionRow)
    ensures
        ({
            let r = row.record;
            let spelled = action_of(r.action) is Some;
            let sized = r.txid.len() == 32;
            &&& read_event()(row) is Ok <==> spelled && sized
            &&& read_event()(row) matches Err(e) ==> e == StoreError::ColumnOutOfRange(
                if spelled {
                    4
                } else {
                    3
                },
            )
            &&& read_registration()(row) is Ok <==> spelled && sized
            &&& read_registration()(row) matches Err(e) ==> e == StoreError::ColumnOutOfRange(
                if sized {
                    3
                } else {
                    2
                },
            )
            &&& read_chain_row()(row) is Ok <==> spelled && sized
            &&& read_chain_row()(row) matches Err(e) ==> e == StoreError::ColumnOutOfRange(3)
            &&& read_entry(row) is Ok <==> spelled && r.rcm.len() == 32
            &&& read_entry(row) matches Err(e) ==> e == StoreError::ColumnOutOfRange(
                if r.rcm.len() == 32 {
                    3
                } else {
                    2
                },
            )
        }),
{
}

/// The forks that a batch is evidence of are those of its first part, and those
/// of the rest against the log that the first part left, in this order.
pub proof fn law_fork_reports_compose(
    log: Seq<ActionRow>,
    first: Seq<NameNoteView>,
    second: Seq<NameNoteView>,
)
    ensures
        forks_of(log, first + second) == (match applied(log, first) {
            Err(_) => forks_of(log, first),
            Ok(a) => forks_of(log, first) + forks_of(a.log, second),
        }),
    decreases second.len(),
{
    let whole = first + second;
    let a = forks_of(log, first);
    if second.len() == 0 {
        assert(whole =~= first);
        assert(a + Seq::<ForkView>::empty() =~= a);
    } else {
        let init = second.drop_last();
        law_fork_reports_compose(log, first, init);
        law_batches_compose(log, first, init);
        assert(whole.drop_last() =~= first + init);
        assert(whole.last() == second.last());
        if let Ok(s) = applied(log, first) {
            let b = forks_of(s.log, init);
            if let Ok(t) = applied(s.log, init) {
                if let Some(fork) = super::note_fork(t.log, second.last()) {
                    assert((a + b).push(fork) =~= a + b.push(fork));
                }
            }
        }
    }
}

} // verus!
