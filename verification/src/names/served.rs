//! What the name database indexes and serves: every genuine note, and each row
//! as it was recorded.

use vstd::prelude::*;

use super::laws::{chained, in_chain_order, is_sound, lemma_tip_follows, row_tip};
use super::{
    after_batch, after_rewind, forks_of, key_taken, note_fork, read_chain_row, read_checkpoint,
    read_event, read_registration, records_of, record_of, scan_row, staged_notes, table_tip,
    verified_note, Cursor, DbView, NameNoteView, NameRecord, NameRow,
};
use crate::index::ProofRowView;
use crate::kernel::{action_of, law_action_spelling_round_trips, law_moves, required_prev, Action, Tip};
use crate::log::{all_through, appended, latest, lemma_latest, next_id};
use crate::memo::{lifecycle_memo, LifecycleView};
use crate::orchard::DecryptedView;
use crate::store::StoreError;
use crate::table::{entry, lemma_upserted, lemma_without, live, logged, named, named_one};
use crate::text::{in_ua_namespace, lemma_array32_of, lemma_as_array32};
use crate::verify::{plain_opening, ForkView};

verus! {

/// The rows are served as they were recorded: an event, a registration and a
/// link of a chain hold the row's own columns, and no reading fails.
pub proof fn law_rows_are_served_as_recorded(db: DbView, k: int)
    requires
        chained(db.name_events, db.names),
        0 <= k < db.name_events.len(),
    ensures
        ({
            let row = db.name_events[k];
            let r = row.record;
            let is_height = 0 <= r.height <= u32::MAX;
            let is_index = 0 <= r.action_index <= usize::MAX;
            &&& read_event()(row) matches Ok(e) && e.id == row.id && e.name == r.name && e.ua == r.ua && e.txid@
                == r.txid && (is_height ==> e.height == r.height) && action_of(r.action) == Some(e.action)
            &&& read_registration()(r) matches Ok(g) && g.name == r.name && g.ua == r.ua && g.txid@ == r.txid
                && (is_height ==> g.height == r.height) && action_of(r.action) == Some(g.last_action)
            &&& read_chain_row()(row) matches Ok(c) && c.ua == r.ua && c.txid@ == r.txid && (is_height
                ==> c.height == r.height) && (is_index ==> c.action_index == r.action_index) && action_of(
                r.action,
            ) == Some(c.action)
        }),
{
    let r = db.name_events[k].record;
    assert(is_sound(r));
    lemma_array32_of(r.txid);
}

/// An action may extend `prev` on a name whose newest event is `tip`.
pub open spec fn may_extend(tip: Option<NameRow>, action: Action, prev: [u8; 32]) -> bool {
    if action == Action::Claim {
        &&& tip matches Some(row) ==> row.record.action == "release"@
        &&& forall|i: int| 0 <= i < 32 ==> #[trigger] prev@[i] == 0
    } else {
        tip matches Some(row) && row.record.action != "release"@ && row.record.rcm == prev@
    }
}

/// The table's tip of a live name is its record's, and other names have none.
pub proof fn law_table_tip_is_the_newest_event(db: DbView, name: Seq<char>)
    requires
        chained(db.name_events, db.names),
    ensures
        match latest(db.name_events, name) {
            Some(row) => if row.record.action == "release"@ {
                table_tip(db.names, name) == Ok::<Option<Tip>, StoreError>(None)
            } else {
                table_tip(db.names, name) matches Ok(Some(t)) && t.rcm@ == row.record.rcm && action_of(
                    row.record.action,
                ) == Some(t.action)
            },
            None => table_tip(db.names, name) == Ok::<Option<Tip>, StoreError>(None),
        },
{
    lemma_latest(db.name_events, name);
    assert(entry(db.names, name) == live(latest(db.name_events, name)));
    if let Some(row) = latest(db.name_events, name) {
        let k = choose|k: int| 0 <= k < db.name_events.len() && db.name_events[k] == row;
        assert(is_sound(db.name_events[k].record));
        lemma_array32_of(row.record.rcm);
    }
}

proof fn lemma_fits(log: Seq<NameRow>, names: Seq<NameRecord>, name: Seq<char>, action: Action, prev: [u8; 32])
    requires
        chained(log, names),
    ensures
        required_prev(row_tip(latest(log, name)), action) == Some(prev) <==> may_extend(
            latest(log, name),
            action,
            prev,
        ),
{
    lemma_latest(log, name);
    law_action_spelling_round_trips(Action::Release);
    law_moves(row_tip(latest(log, name)), action, prev);
    if let Some(row) = latest(log, name) {
        let k = choose|k: int| 0 <= k < log.len() && log[k] == row;
        assert(is_sound(log[k].record));
        lemma_array32_of(row.record.rcm);
        lemma_as_array32(prev);
        let a = action_of(row.record.action)->0;
        law_action_spelling_round_trips(a);
        assert(row.record.action == "release"@ <==> a == Action::Release);
    }
}

/// The record says what the note says, where it was mined, and what it was
/// opened to.
pub open spec fn is_record(
    r: NameRecord,
    n: DecryptedView,
    m: LifecycleView,
    prev: [u8; 32],
    opening: ([u8; 32], [u8; 32]),
) -> bool {
    &&& r.name == m.name
    &&& r.ua == m.ua
    &&& action_of(r.action) == Some(m.action)
    &&& r.extra.prev_rcm == prev@
    &&& r.extra.psi == opening.0@
    &&& r.rcm == opening.1@
    &&& r.cmx == n.cmx@
    &&& r.txid == n.txid@
    &&& r.height == n.height
    &&& r.extra.raw_tx == n.raw_tx
    &&& n.action_index <= i64::MAX ==> r.action_index == n.action_index
}

proof fn lemma_record(
    n: DecryptedView,
    m: LifecycleView,
    prev: [u8; 32],
    opening: ([u8; 32], [u8; 32]),
    x: NameNoteView,
)
    requires
        x == (NameNoteView {
            name: m.name,
            ua: m.ua,
            action: m.action,
            prev_rcm: prev,
            rcm: opening.1,
            psi: opening.0,
            cmx: n.cmx,
            txid: n.txid,
            height: n.height,
            action_index: n.action_index,
            raw_tx: n.raw_tx,
        }),
    ensures
        is_record(record_of(x), n, m, prev, opening),
        record_of(x).action == m.action.text(),
{
    law_action_spelling_round_trips(m.action);
}

/// Every genuine note is indexed, one after another: behind the notes of a batch
/// comes one whose memo is a lifecycle memo for a name outside the address
/// namespace, whose action may extend the name's newest event, whatever action
/// that was, and whose commitment opens under that predecessor. The batch with it
/// adds its event, unless the name has one at that height; a claim or an update
/// then holds the name, and a release ends it.
#[verifier::rlimit(40)]
pub proof fn law_genuine_note_is_indexed(
    db: DbView,
    scanned: Cursor,
    tip: Cursor,
    notes: Seq<DecryptedView>,
    height: int,
    n: DecryptedView,
    m: LifecycleView,
    prev: [u8; 32],
    opening: ([u8; 32], [u8; 32]),
)
    requires
        chained(db.name_events, db.names),
        all_through(db.name_events, height),
        in_chain_order(notes, height),
        after_batch(db, scanned, tip, notes) is Ok,
        next_id((after_batch(db, scanned, tip, notes)->Ok_0).0.name_events) < i64::MAX,
        lifecycle_memo(n.memo) == Some(m),
        !in_ua_namespace(m.name),
        may_extend(
            latest((after_batch(db, scanned, tip, notes)->Ok_0).0.name_events, m.name),
            m.action,
            prev,
        ),
        plain_opening(n.note.spec_parts(), n.cmx, m.action, m.name, m.ua, prev) == Some(opening),
        forall|i: int|
            0 <= i < (after_batch(db, scanned, tip, notes)->Ok_0).0.name_events.len() ==> !((
            #[trigger] (after_batch(db, scanned, tip, notes)->Ok_0).0.name_events[i]).record.name == m.name
                && (after_batch(db, scanned, tip, notes)->Ok_0).0.name_events[i].record.height == n.height),
    ensures
        ({
            let before = (after_batch(db, scanned, tip, notes)->Ok_0).0;
            after_batch(db, scanned, tip, notes.push(n)) matches Ok((next, staged))
                && next.name_events.len() == before.name_events.len() + 1 && next.name_events.drop_last()
                == before.name_events && is_record(next.name_events.last().record, n, m, prev, opening)
                && staged.len() > 0 && staged.last().name == m.name && staged.last().rcm == opening.1 && (
            if m.action == Action::Release {
                entry(next.names, m.name) is None
            } else {
                entry(next.names, m.name) == Some(next.name_events.last().record)
            }) && forall|other: Seq<char>|
                other != m.name ==> #[trigger] entry(next.names, other) == entry(before.names, other)
        }),
{
    let events = db.name_events;
    let names = db.names;
    let staged = staged_notes(events, names, notes)->Ok_0;
    let log = logged(events, records_of(staged));
    lemma_tip_follows(events, names, notes, height, m.name, m.action);
    lemma_fits(log, named(names, records_of(staged)), m.name, m.action, prev);
    let x = NameNoteView {
        name: m.name,
        ua: m.ua,
        action: m.action,
        prev_rcm: prev,
        rcm: opening.1,
        psi: opening.0,
        cmx: n.cmx,
        txid: n.txid,
        height: n.height,
        action_index: n.action_index,
        raw_tx: n.raw_tx,
    };
    assert(verified_note(names, staged, n) == Ok::<Option<NameNoteView>, StoreError>(Some(x)));
    lemma_key_is_free(events, staged, m.name, n.height);
    assert(notes.push(n).drop_last() =~= notes);
    let more = staged.push(x);
    assert(staged_notes(events, names, notes.push(n)) == Ok::<Seq<NameNoteView>, StoreError>(more));
    assert(records_of(more) =~= records_of(staged).push(record_of(x)));
    assert(records_of(more).drop_last() =~= records_of(staged));
    lemma_record(n, m, prev, opening, x);
    assert(logged(events, records_of(more)) == appended(log, record_of(x)));
    assert(appended(log, record_of(x)).drop_last() =~= log);
    let table = named(names, records_of(staged));
    assert(named(names, records_of(more)) == named_one(table, record_of(x)));
    lemma_upserted(table, record_of(x));
    lemma_without(table, m.name);
    law_action_spelling_round_trips(m.action);
    law_action_spelling_round_trips(Action::Release);
}

/// A key that no event of the log after the batch has is free.
proof fn lemma_key_is_free(events: Seq<NameRow>, staged: Seq<NameNoteView>, name: Seq<char>, height: u32)
    requires
        forall|i: int|
            0 <= i < logged(events, records_of(staged)).len() ==> !((#[trigger] logged(
                events,
                records_of(staged),
            )[i]).record.name == name && logged(events, records_of(staged))[i].record.height == height),
    ensures
        !key_taken(events, staged, name, height),
{
    let log = logged(events, records_of(staged));
    lemma_logged(events, records_of(staged));
    assert forall|i: int| 0 <= i < events.len() implies !((#[trigger] events[i]).record.name == name
        && events[i].record.height == height as i64) by {
        assert(log[i] == events[i]);
    }
    assert forall|i: int| 0 <= i < staged.len() implies !((#[trigger] staged[i]).name == name
        && staged[i].height == height) by {
        assert(log[events.len() + i].record == records_of(staged)[i]);
    }
}

proof fn lemma_logged(events: Seq<NameRow>, records: Seq<NameRecord>)
    ensures
        logged(events, records).len() == events.len() + records.len(),
        forall|i: int| 0 <= i < events.len() ==> #[trigger] logged(events, records)[i] == events[i],
        forall|i: int|
            0 <= i < records.len() ==> #[trigger] logged(events, records)[events.len() + i].record == records[i],
    decreases records.len(),
{
    if records.len() > 0 {
        let init = records.drop_last();
        lemma_logged(events, init);
        let before = logged(events, init);
        let log = logged(events, records);
        assert forall|i: int| 0 <= i < events.len() implies #[trigger] log[i] == events[i] by {
            assert(before[i] == events[i]);
        }
        assert forall|i: int| 0 <= i < records.len() implies #[trigger] log[events.len() + i].record
            == records[i] by {
            if i < init.len() {
                assert(before[events.len() + i].record == init[i]);
            }
        }
    }
}

/// A fork is reported exactly where a note of a fitting action does not open
/// under the predecessor that its name's newest event calls for, and opens under
/// the other one that it discloses.
pub proof fn law_forks_are_reported(db: DbView, n: DecryptedView, m: LifecycleView, expected: [u8; 32])
    requires
        chained(db.name_events, db.names),
        lifecycle_memo(n.memo) == Some(m),
        !in_ua_namespace(m.name),
        may_extend(latest(db.name_events, m.name), m.action, expected),
    ensures
        ({
            let parts = n.note.spec_parts();
            let forked = plain_opening(parts, n.cmx, m.action, m.name, m.ua, expected) is None && (
            m.prev_rcm matches Some(p) && plain_opening(parts, n.cmx, m.action, m.name, m.ua, p) is Some);
            let reported = forks_of(db.name_events, db.names, seq![n]);
            &&& !forked ==> reported.len() == 0
            &&& forked ==> reported == seq![
                ForkView { name: m.name, height: n.height, claimed: m.prev_rcm->0, expected },
            ]
        }),
{
    let none = Seq::<NameNoteView>::empty();
    law_table_tip_is_the_newest_event(db, m.name);
    lemma_fits(db.name_events, db.names, m.name, m.action, expected);
    let prior = seq![n].drop_last();
    assert(prior.len() == 0);
    assert(staged_notes(db.name_events, db.names, prior) == Ok::<Seq<NameNoteView>, StoreError>(none));
    assert(forks_of(db.name_events, db.names, prior) =~= Seq::empty());
    let tip = table_tip(db.names, m.name)->Ok_0;
    law_moves(tip, m.action, expected);
    if let Some(t) = tip {
        lemma_as_array32(t.rcm);
        lemma_as_array32(expected);
        let row = latest(db.name_events, m.name)->0;
        law_action_spelling_round_trips(t.action);
        law_action_spelling_round_trips(Action::Release);
    }
    assert(required_prev(tip, m.action) == Some(expected));
    if let Some(fork) = note_fork(db.names, none, n) {
        assert(Seq::<ForkView>::empty().push(fork) =~= seq![fork]);
    }
}

/// A checkpoint reads back as the batch left it.
pub proof fn law_checkpoint_reads_back(scanned: Cursor, tip: Cursor)
    ensures
        read_checkpoint(scan_row(scanned, Some(tip))) matches Ok(c) && c.scanned_height == scanned.0
            && c.scanned_hash == scanned.1 && c.chain_tip_height == Some(tip.0) && c.chain_tip_hash == tip.1,
        read_checkpoint(scan_row(scanned, None)) matches Ok(c) && c.scanned_height == scanned.0
            && c.scanned_hash == scanned.1 && c.chain_tip_height is None && c.chain_tip_hash is None,
{
    if let Some(h) = scanned.1 {
        lemma_as_array32(h);
    }
    if let Some(h) = tip.1 {
        lemma_as_array32(h);
    }
}

/// A batch leaves its checkpoint and no other trace beside its events: the key
/// and the proof material stay.
pub proof fn law_batch_leaves_its_checkpoint(
    db: DbView,
    scanned: Cursor,
    tip: Cursor,
    notes: Seq<DecryptedView>,
)
    ensures
        after_batch(db, scanned, tip, notes) matches Ok((next, _)) ==> next.scan_state == Some(
            scan_row(scanned, Some(tip)),
        ) && next.uivk == db.uivk && next.proof_material == db.proof_material,
{
}

/// A rewind of more than 30 blocks starts over: nothing is left but the key. A
/// shallower one leaves the fork as the position, with no hash and no chain tip,
/// and the proof material of the blocks that stay.
pub proof fn law_deep_rewinds_start_over(db: DbView, fork: u32, scanned: u32, row: ProofRowView)
    ensures
        ({
            let next = after_rewind(db, fork, scanned);
            &&& next.uivk == db.uivk
            &&& scanned - fork > 30 ==> next.scan_state is None && next.name_events.len() == 0
                && next.names.len() == 0 && next.proof_material.len() == 0
            &&& scanned - fork <= 30 ==> next.scan_state == Some(scan_row((fork, None), None)) && (
            next.proof_material.contains(row) <==> db.proof_material.contains(row) && row.height <= fork)
                && forall|r: NameRow| #[trigger]
                next.name_events.contains(r) <==> db.name_events.contains(r) && r.record.height <= fork
        }),
{
    broadcast use vstd::seq_lib::group_filter_ensures;

    let p = |p: ProofRowView| p.height <= fork as int;
    let kept = db.proof_material.filter(p);
    if kept.contains(row) {
        let i = choose|i: int| 0 <= i < kept.len() && kept[i] == row;
        assert(p(kept[i]));
        db.proof_material.lemma_filter_contains_rev(p, row);
    }
    if db.proof_material.contains(row) && row.height <= fork {
        let i = choose|i: int| 0 <= i < db.proof_material.len() && db.proof_material[i] == row;
        assert(p(db.proof_material[i]));
        db.proof_material.lemma_filter_contains(p, i);
    }
    let q = |r: NameRow| r.record.height <= fork as int;
    let events = db.name_events;
    let through = events.filter(q);
    assert forall|r: NameRow| #[trigger] through.contains(r) <==> events.contains(r) && r.record.height <= fork by {
        if through.contains(r) {
            let i = choose|i: int| 0 <= i < through.len() && through[i] == r;
            assert(q(through[i]));
            events.lemma_filter_contains_rev(q, r);
        }
        if events.contains(r) && r.record.height <= fork {
            let i = choose|i: int| 0 <= i < events.len() && events[i] == r;
            assert(q(events[i]));
            events.lemma_filter_contains(q, i);
        }
    }
}

/// A row reads exactly where its action is spelled right and its transaction id
/// has 32 bytes; the failure names the column.
pub proof fn law_malformed_rows_fail(row: NameRow)
    ensures
        ({
            let r = row.record;
            let spelled = action_of(r.action) is Some;
            let sized = r.txid.len() == 32;
            &&& read_event()(row) is Ok <==> spelled && sized
            &&& read_event()(row) matches Err(e) ==> e == StoreError::ColumnOutOfRange(
                if spelled {
                    4
                } else {
                    0
                },
            )
            &&& read_registration()(r) is Ok <==> spelled && sized
            &&& read_registration()(r) matches Err(e) ==> e == StoreError::ColumnOutOfRange(
                if sized {
                    0
                } else {
                    2
                },
            )
            &&& read_chain_row()(row) is Ok <==> spelled && sized
            &&& read_chain_row()(row) matches Err(e) ==> e == StoreError::ColumnOutOfRange(
                if spelled {
                    3
                } else {
                    0
                },
            )
        }),
{
}

/// A name that has an event at a height takes no other there: a genuine note that
/// would be one fails the batch.
pub proof fn law_one_event_per_height(
    events: Seq<NameRow>,
    names: Seq<NameRecord>,
    notes: Seq<DecryptedView>,
    n: DecryptedView,
    k: int,
)
    requires
        staged_notes(events, names, notes) is Ok,
        verified_note(names, staged_notes(events, names, notes)->Ok_0, n) matches Ok(Some(x)) && 0 <= k
            < events.len() && events[k].record.name == x.name && events[k].record.height == n.height
            && x.height == n.height,
    ensures
        staged_notes(events, names, notes.push(n)) == Err::<Seq<NameNoteView>, StoreError>(
            StoreError::KeyTaken,
        ),
{
    assert(notes.push(n).drop_last() =~= notes);
}

/// Forks are reported one after another: behind the notes of a batch comes one of
/// an action that fits the name's newest event. It adds a report exactly where it
/// does not open under the predecessor which that event calls for, and opens
/// under the other one that it discloses.
pub proof fn law_forks_are_reported_in_turn(
    db: DbView,
    scanned: Cursor,
    tip: Cursor,
    notes: Seq<DecryptedView>,
    height: int,
    n: DecryptedView,
    m: LifecycleView,
    expected: [u8; 32],
)
    requires
        chained(db.name_events, db.names),
        all_through(db.name_events, height),
        in_chain_order(notes, height),
        after_batch(db, scanned, tip, notes) is Ok,
        lifecycle_memo(n.memo) == Some(m),
        !in_ua_namespace(m.name),
        may_extend(
            latest((after_batch(db, scanned, tip, notes)->Ok_0).0.name_events, m.name),
            m.action,
            expected,
        ),
    ensures
        ({
            let parts = n.note.spec_parts();
            let forked = plain_opening(parts, n.cmx, m.action, m.name, m.ua, expected) is None && (
            m.prev_rcm matches Some(p) && plain_opening(parts, n.cmx, m.action, m.name, m.ua, p) is Some);
            let before = forks_of(db.name_events, db.names, notes);
            let reported = forks_of(db.name_events, db.names, notes.push(n));
            &&& !forked ==> reported == before
            &&& forked ==> reported == before.push(
                ForkView { name: m.name, height: n.height, claimed: m.prev_rcm->0, expected },
            )
        }),
{
    let events = db.name_events;
    let names = db.names;
    let staged = staged_notes(events, names, notes)->Ok_0;
    let log = logged(events, records_of(staged));
    lemma_tip_follows(events, names, notes, height, m.name, m.action);
    lemma_fits(log, named(names, records_of(staged)), m.name, m.action, expected);
    assert(notes.push(n).drop_last() =~= notes);
}

/// Any other note is ignored: one whose memo is no lifecycle memo, or names a
/// name in the address namespace, or whose commitment opens under no predecessor
/// that its action may extend. The batch with it is the batch without it.
pub proof fn law_other_notes_are_ignored(
    db: DbView,
    scanned: Cursor,
    tip: Cursor,
    notes: Seq<DecryptedView>,
    height: int,
    n: DecryptedView,
)
    requires
        chained(db.name_events, db.names),
        all_through(db.name_events, height),
        in_chain_order(notes, height),
        after_batch(db, scanned, tip, notes) is Ok,
        lifecycle_memo(n.memo) matches Some(m) ==> in_ua_namespace(m.name) || forall|prev: [u8; 32]|
            may_extend(
                latest((after_batch(db, scanned, tip, notes)->Ok_0).0.name_events, m.name),
                m.action,
                prev,
            ) ==> (#[trigger] plain_opening(n.note.spec_parts(), n.cmx, m.action, m.name, m.ua, prev)) is None,
    ensures
        after_batch(db, scanned, tip, notes.push(n)) == after_batch(db, scanned, tip, notes),
{
    let events = db.name_events;
    let names = db.names;
    let staged = staged_notes(events, names, notes)->Ok_0;
    let log = logged(events, records_of(staged));
    assert(notes.push(n).drop_last() =~= notes);
    if let Some(m) = lifecycle_memo(n.memo) {
        lemma_tip_follows(events, names, notes, height, m.name, m.action);
        let tip = super::current_tip(names, staged, m.name)->Ok_0;
        if let Some(prev) = required_prev(tip, m.action) {
            lemma_fits(log, named(names, records_of(staged)), m.name, m.action, prev);
        }
    }
}

} // verus!
