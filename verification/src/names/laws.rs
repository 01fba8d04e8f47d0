//! What the name database keeps: every recorded event extends its name's
//! chain, and the names are the fold of the event history.

use vstd::prelude::*;
use vstd::utf8::*;

use super::{
    after_batch, after_rewind, current_tip, note_fork, read_registration, record_of, records_of,
    staged_notes, survivors, verified_note, REORG_SHALLOW_MAX, Cursor, DbView, NameNoteView,
    NameRecord, NameRow,
};
use crate::kernel::{
    action_of, commits, derived_opening, is_committed, law_action_spelling_round_trips,
    required_prev, Action, Tip,
};
use crate::log::{
    all_through, appended, has_room, heights_rise, ids_ascend, latest, lemma_append_order,
    lemma_latest, lemma_latest_through, lemma_names_above, lemma_prefix_order, lemma_through_all,
    lemma_through_is_prefix, names_above, next_id, through,
};
use crate::memo::{is_name, lifecycle_memo};
use crate::orchard::DecryptedView;
use crate::store::StoreError;
use crate::table::{
    entry, is_fold, is_name_table, lemma_append_fold, lemma_restored, lemma_table_unique, live,
    logged, named, named_one,
};
use crate::text::{as_array32, in_ua_namespace, lemma_array32_of, lemma_as_array32};
use crate::verify::plain_opening;

verus! {

/// A recorded row decodes, and its name is a valid one outside the address
/// namespace.
pub open spec fn is_sound(r: NameRecord) -> bool {
    &&& action_of(r.action) is Some
    &&& r.rcm.len() == 32
    &&& r.txid.len() == 32
    &&& is_name(r.name)
    &&& !in_ua_namespace(r.name)
}

/// The tip a row leaves its name with.
pub open spec fn row_tip(row: Option<NameRow>) -> Option<Tip> {
    match row {
        Some(r) => match (action_of(r.record.action), as_array32(r.record.rcm)) {
            (Some(action), Some(rcm)) => Some(Tip { action, rcm }),
            _ => None,
        },
        None => None,
    }
}

/// The row extends the tip its name had before it, and its `cmx` is a note's
/// commitment under the opening.
pub open spec fn is_link(before: Seq<NameRow>, r: NameRecord) -> bool {
    match action_of(r.action) {
        None => false,
        Some(action) => match required_prev(row_tip(latest(before, r.name)), action) {
            None => false,
            Some(prev) => {
                let opening = derived_opening(
                    encode_utf8(r.action),
                    encode_utf8(r.name),
                    encode_utf8(r.ua),
                    encode_utf8("none"@),
                    prev,
                );
                r.extra.prev_rcm == prev@ && r.extra.psi == opening.0@ && r.rcm == opening.1@
                    && is_committed(opening, r.cmx)
            },
        },
    }
}

pub open spec fn all_sound(events: Seq<NameRow>) -> bool {
    forall|k: int| 0 <= k < events.len() ==> is_sound((#[trigger] events[k]).record)
}

pub open spec fn all_linked(events: Seq<NameRow>) -> bool {
    forall|k: int| 0 <= k < events.len() ==> is_link(events.take(k), (#[trigger] events[k]).record)
}

/// The database's invariant over its event history and its names.
pub open spec fn chained(events: Seq<NameRow>, names: Seq<NameRecord>) -> bool {
    &&& ids_ascend(events)
    &&& heights_rise(events)
    &&& all_sound(events)
    &&& all_linked(events)
    &&& is_name_table(names)
    &&& is_fold(events, names)
}

/// The notes come in chain order, from `height` on.
pub open spec fn in_chain_order(notes: Seq<DecryptedView>, height: int) -> bool {
    &&& forall|i: int| 0 <= i < notes.len() ==> height <= (#[trigger] notes[i]).height
    &&& forall|i: int, j: int|
        0 <= i < j < notes.len() ==> (#[trigger] notes[i]).height <= (#[trigger] notes[j]).height
}

/// The tip allows what the name's newest row allows.
spec fn agrees(tip: Option<Tip>, row: Option<NameRow>) -> bool {
    ||| tip == row_tip(row)
    ||| tip is None && row is Some && row->0.record.action == Action::Release.text()
}

proof fn lemma_agreeing_tips(tip: Option<Tip>, row: Option<NameRow>, action: Action)
    requires
        agrees(tip, row),
        row matches Some(r) ==> is_sound(r.record),
    ensures
        required_prev(tip, action) == required_prev(row_tip(row), action),
{
    law_action_spelling_round_trips(Action::Release);
}

spec fn tips_agree(events: Seq<NameRow>, names: Seq<NameRecord>, staged: Seq<NameNoteView>, log: Seq<
    NameRow,
>) -> bool {
    forall|m: Seq<char>|
        match #[trigger] current_tip(names, staged, m) {
            Ok(tip) => agrees(tip, latest(log, m)),
            Err(_) => false,
        }
}

/// The invariant in the middle of a batch, up to `height`.
spec fn holds_staged(
    events: Seq<NameRow>,
    names: Seq<NameRecord>,
    staged: Seq<NameNoteView>,
    height: int,
) -> bool {
    has_room(events, staged.len()) ==> {
        let log = logged(events, records_of(staged));
        &&& chained(log, named(names, records_of(staged)))
        &&& all_through(log, height)
        &&& tips_agree(events, names, staged, log)
        &&& next_id(log) == next_id(events) + staged.len()
    }
}

proof fn lemma_latest_sound(events: Seq<NameRow>, name: Seq<char>)
    requires
        all_sound(events),
    ensures
        latest(events, name) matches Some(r) ==> is_sound(r.record) && r.record.name == name,
{
    lemma_latest(events, name);
    if latest(events, name) is Some {
        let k = choose|k: int| 0 <= k < events.len() && events[k] == latest(events, name)->0;
        assert(is_sound(events[k].record));
    }
}

proof fn lemma_append_keeps(
    log: Seq<NameRow>,
    names: Seq<NameRecord>,
    record: NameRecord,
    height: int,
)
    requires
        chained(log, names),
        all_through(log, height),
        record.height == height,
        next_id(log) <= i64::MAX,
        is_sound(record),
        is_link(log, record),
    ensures
        chained(appended(log, record), named_one(names, record)),
{
    let next = appended(log, record);
    lemma_append_order(log, record, height);
    assert(all_sound(next)) by {
        assert forall|k: int| 0 <= k < next.len() implies is_sound((#[trigger] next[k]).record) by {
            if k < log.len() {
                assert(is_sound(log[k].record));
            }
        }
    }
    assert(all_linked(next)) by {
        assert forall|k: int| 0 <= k < next.len() implies is_link(
            next.take(k),
            (#[trigger] next[k]).record,
        ) by {
            if k < log.len() {
                assert(next.take(k) =~= log.take(k));
                assert(is_link(log.take(k), log[k].record));
            } else {
                assert(next.take(k) =~= log);
            }
        }
    }
    lemma_append_fold(log, names, record);
}

/// Staging a verified note keeps the invariant.
#[verifier::rlimit(40)]
proof fn lemma_stage_keeps(
    events: Seq<NameRow>,
    names: Seq<NameRecord>,
    staged: Seq<NameNoteView>,
    d: DecryptedView,
)
    requires
        holds_staged(events, names, staged, d.height as int),
        has_room(events, staged.len() + 1),
        verified_note(names, staged, d) matches Ok(Some(_)),
    ensures
        ({
            let n = verified_note(names, staged, d)->Ok_0->0;
            holds_staged(events, names, staged.push(n), d.height as int)
        }),
{
    let n = verified_note(names, staged, d)->Ok_0->0;
    let record = record_of(n);
    let log = logged(events, records_of(staged));
    let table = named(names, records_of(staged));
    let next = staged.push(n);
    assert(records_of(next) =~= records_of(staged).push(record));
    assert(records_of(next).drop_last() =~= records_of(staged));
    law_action_spelling_round_trips(n.action);
    let tip = current_tip(names, staged, n.name)->Ok_0;
    assert(current_tip(names, staged, n.name) is Ok);
    lemma_latest_sound(log, n.name);
    lemma_agreeing_tips(tip, latest(log, n.name), n.action);
    assert(commits(d.note.spec_parts(), (n.psi, n.rcm), record.cmx));
    assert(is_link(log, record));
    assert(is_sound(record));
    lemma_append_keeps(log, table, record, d.height as int);
    lemma_append_order(log, record, d.height as int);
    let log2 = appended(log, record);
    assert(logged(events, records_of(next)) == log2);
    assert(named(names, records_of(next)) == named_one(table, record));
    lemma_as_array32(n.rcm);
    assert forall|m: Seq<char>|
        match #[trigger] current_tip(names, next, m) {
            Ok(t) => agrees(t, latest(log2, m)),
            Err(_) => false,
        } by {
        assert(next.drop_last() =~= staged);
        if m != n.name {
            assert(current_tip(names, next, m) == current_tip(names, staged, m));
            assert(latest(log2, m) == latest(log, m));
        }
    }
}

#[verifier::rlimit(40)]
proof fn lemma_staged_keeps(
    events: Seq<NameRow>,
    names: Seq<NameRecord>,
    notes: Seq<DecryptedView>,
    height: int,
)
    requires
        chained(events, names),
        all_through(events, height),
        in_chain_order(notes, height),
        staged_notes(events, names, notes) is Ok,
    ensures
        holds_staged(
            events,
            names,
            staged_notes(events, names, notes)->Ok_0,
            if notes.len() > 0 {
                notes.last().height as int
            } else {
                height
            },
        ),
    decreases notes.len(),
{
    if notes.len() == 0 {
        let staged = Seq::<NameNoteView>::empty();
        assert(records_of(staged) =~= Seq::empty());
        law_action_spelling_round_trips(Action::Release);
        assert forall|m: Seq<char>|
            match #[trigger] current_tip(names, staged, m) {
                Ok(t) => agrees(t, latest(events, m)),
                Err(_) => false,
            } by {
            assert(entry(names, m) == live(latest(events, m)));
            lemma_latest_sound(events, m);
        }
    } else {
        let init = notes.drop_last();
        let d = notes.last();
        assert(d == notes[notes.len() - 1]);
        assert(in_chain_order(init, height)) by {
            assert forall|i: int| 0 <= i < init.len() implies height <= (#[trigger] init[i]).height by {
                assert(height <= notes[i].height);
            }
            assert forall|i: int, j: int| 0 <= i < j < init.len() implies (#[trigger] init[i]).height <= (
            #[trigger] init[j]).height by {
                assert(notes[i].height <= notes[j].height);
            }
        }
        lemma_staged_keeps(events, names, init, height);
        let staged = staged_notes(events, names, init)->Ok_0;
        let h = d.height as int;
        if init.len() > 0 {
            assert(notes[init.len() - 1].height <= notes[notes.len() - 1].height);
        }
        assert(holds_staged(events, names, staged, h));
        if verified_note(names, staged, d)->Ok_0 is Some && has_room(events, staged.len() + 1) {
            lemma_stage_keeps(events, names, staged, d);
        }
    }
}

/// In the middle of a batch every name has the tip that its newest event leaves.
pub proof fn lemma_tip_follows(
    events: Seq<NameRow>,
    names: Seq<NameRecord>,
    notes: Seq<DecryptedView>,
    height: int,
    name: Seq<char>,
    action: Action,
)
    requires
        chained(events, names),
        all_through(events, height),
        in_chain_order(notes, height),
        staged_notes(events, names, notes) is Ok,
        has_room(events, staged_notes(events, names, notes)->Ok_0.len()),
    ensures
        ({
            let staged = staged_notes(events, names, notes)->Ok_0;
            let log = logged(events, records_of(staged));
            &&& chained(log, named(names, records_of(staged)))
            &&& next_id(log) == next_id(events) + staged.len()
            &&& current_tip(names, staged, name) matches Ok(tip) && required_prev(tip, action)
                == required_prev(row_tip(latest(log, name)), action)
        }),
{
    lemma_staged_keeps(events, names, notes, height);
    let staged = staged_notes(events, names, notes)->Ok_0;
    let log = logged(events, records_of(staged));
    lemma_latest_sound(log, name);
    lemma_agreeing_tips(current_tip(names, staged, name)->Ok_0, latest(log, name), action);
}

/// A batch in chain order keeps the database chained.
pub proof fn law_batch_keeps_names_chained(
    db: DbView,
    scanned: Cursor,
    tip: Cursor,
    notes: Seq<DecryptedView>,
    height: int,
)
    requires
        chained(db.name_events, db.names),
        all_through(db.name_events, height),
        in_chain_order(notes, height),
        after_batch(db, scanned, tip, notes) is Ok,
    ensures
        ({
            let next = (after_batch(db, scanned, tip, notes)->Ok_0).0;
            chained(next.name_events, next.names)
        }),
{
    lemma_staged_keeps(db.name_events, db.names, notes, height);
}

/// Fork evidence is reported and never indexed.
pub proof fn law_fork_evidence_is_not_indexed(
    names: Seq<NameRecord>,
    staged: Seq<NameNoteView>,
    d: DecryptedView,
)
    ensures
        note_fork(names, staged, d) is Some ==> verified_note(names, staged, d) == Ok::<
            Option<NameNoteView>,
            StoreError,
        >(None),
{
}

/// What is served of a name is its newest event, unless it is a release, and no
/// reading fails.
pub proof fn law_resolution_serves_the_newest_event(db: DbView, name: Seq<char>)
    requires
        chained(db.name_events, db.names),
    ensures
        match latest(db.name_events, name) {
            None => entry(db.names, name) is None,
            Some(row) => if row.record.action == Action::Release.text() {
                entry(db.names, name) is None
            } else {
                entry(db.names, name) == Some(row.record) && (read_registration()(row.record) matches Ok(reg)
                    && reg.name == name && reg.ua == row.record.ua && reg.txid@ == row.record.txid
                    && action_of(row.record.action) == Some(reg.last_action))
            },
        },
{
    lemma_latest(db.name_events, name);
    assert(entry(db.names, name) == live(latest(db.name_events, name)));
    if let Some(row) = latest(db.name_events, name) {
        let k = choose|k: int| 0 <= k < db.name_events.len() && db.name_events[k] == row;
        assert(is_sound(db.name_events[k].record));
        lemma_array32_of(row.record.txid);
    }
}

/// The decrypted note carries the name note: it is of the same transaction and
/// on-chain commitment, its memo says the same, and it commits to it.
pub open spec fn carries(d: DecryptedView, n: NameNoteView) -> bool {
    &&& n.cmx == d.cmx
    &&& n.txid == d.txid
    &&& n.height == d.height
    &&& n.action_index == d.action_index
    &&& n.raw_tx == d.raw_tx
    &&& lifecycle_memo(d.memo) matches Some(m) && m.action == n.action && m.name == n.name && m.ua == n.ua
    &&& plain_opening(d.note.spec_parts(), d.cmx, n.action, n.name, n.ua, n.prev_rcm) == Some(
        (n.psi, n.rcm),
    )
}

/// Nothing is forged: every note that a batch indexes is carried by one of the
/// decrypted notes, so it passed the check against the commitment on chain; and
/// the batch adds no other event.
pub proof fn law_nothing_is_forged(db: DbView, scanned: Cursor, tip: Cursor, notes: Seq<DecryptedView>)
    ensures
        after_batch(db, scanned, tip, notes) matches Ok((next, staged)) ==> next.name_events == logged(
            db.name_events,
            records_of(staged),
        ) && forall|i: int|
            0 <= i < staged.len() ==> exists|k: int|
                0 <= k < notes.len() && carries(#[trigger] notes[k], #[trigger] staged[i]),
{
    if after_batch(db, scanned, tip, notes) is Ok {
        lemma_staged_carried(db.name_events, db.names, notes);
    }
}

proof fn lemma_staged_carried(events: Seq<NameRow>, names: Seq<NameRecord>, notes: Seq<DecryptedView>)
    requires
        staged_notes(events, names, notes) is Ok,
    ensures
        forall|i: int|
            0 <= i < staged_notes(events, names, notes)->Ok_0.len() ==> exists|k: int|
                0 <= k < notes.len() && carries(
                    #[trigger] notes[k],
                    #[trigger] staged_notes(events, names, notes)->Ok_0[i],
                ),
    decreases notes.len(),
{
    if notes.len() > 0 {
        let init = notes.drop_last();
        lemma_staged_carried(events, names, init);
        let before = staged_notes(events, names, init)->Ok_0;
        let all = staged_notes(events, names, notes)->Ok_0;
        assert(notes.last() == notes[notes.len() - 1]);
        assert forall|i: int| 0 <= i < all.len() implies exists|k: int|
            0 <= k < notes.len() && carries(#[trigger] notes[k], #[trigger] all[i]) by {
            if i < before.len() {
                assert(all[i] == before[i]);
                let k = choose|k: int| 0 <= k < init.len() && carries(#[trigger] init[k], before[i]);
                assert(notes[k] == init[k]);
            } else {
                assert(carries(notes[notes.len() - 1], all[i]));
            }
        }
    }
}

/// A rewind keeps the database chained: a deep one leaves it empty, a shallow
/// one leaves exactly the events at or below the fork and each affected name
/// at its newest surviving event.
pub proof fn law_rewind_keeps_names_chained(db: DbView, fork: u32, scanned: u32)
    requires
        chained(db.name_events, db.names),
    ensures
        ({
            let next = after_rewind(db, fork, scanned);
            &&& chained(next.name_events, next.names)
            &&& scanned - fork <= REORG_SHALLOW_MAX ==> next.name_events == through(
                db.name_events,
                fork as int,
            )
            &&& scanned - fork > REORG_SHALLOW_MAX ==> next.name_events.len() == 0
        }),
{
    let next = after_rewind(db, fork, scanned);
    if scanned - fork > REORG_SHALLOW_MAX {
    } else {
        let events = through(db.name_events, fork as int);
        let affected = names_above(db.name_events, fork as int);
        lemma_through_is_prefix(db.name_events, fork as int);
        lemma_prefix_order(db.name_events, events.len() as int);
        assert(all_sound(events)) by {
            assert forall|k: int| 0 <= k < events.len() implies is_sound((#[trigger] events[k]).record) by {
                assert(is_sound(db.name_events[k].record));
            }
        }
        assert(all_linked(events)) by {
            assert forall|k: int| 0 <= k < events.len() implies is_link(
                events.take(k),
                (#[trigger] events[k]).record,
            ) by {
                assert(is_link(db.name_events.take(k), db.name_events[k].record));
                assert(events.take(k) =~= db.name_events.take(k));
            }
        }
        lemma_restored(db.names, affected, survivors(events, affected), events);
        assert forall|m: Seq<char>| #[trigger] entry(next.names, m) == live(latest(events, m)) by {
            lemma_names_above(db.name_events, fork as int, m);
            if !affected.contains(m) {
                assert forall|i: int|
                    0 <= i < db.name_events.len() && #[trigger] db.name_events[i].record.name == m implies db.name_events[i].record.height
                    <= fork by {
                    if db.name_events[i].record.height > fork {
                        assert(affected.contains(m));
                    }
                }
                lemma_latest_through(db.name_events, fork as int, m);
                assert(entry(db.names, m) == live(latest(db.name_events, m)));
            }
        }
    }
}

proof fn lemma_staged_heights(
    events: Seq<NameRow>,
    names: Seq<NameRecord>,
    notes: Seq<DecryptedView>,
    fork: int,
)
    requires
        forall|i: int| 0 <= i < notes.len() ==> (#[trigger] notes[i]).height > fork,
        staged_notes(events, names, notes) is Ok,
    ensures
        forall|i: int|
            0 <= i < staged_notes(events, names, notes)->Ok_0.len() ==> (
            #[trigger] (staged_notes(events, names, notes)->Ok_0)[i]).height > fork,
    decreases notes.len(),
{
    if notes.len() > 0 {
        let init = notes.drop_last();
        assert forall|i: int| 0 <= i < init.len() implies (#[trigger] init[i]).height > fork by {
            assert(notes[i].height > fork);
        }
        lemma_staged_heights(events, names, init, fork);
        assert(notes[notes.len() - 1].height > fork);
    }
}

proof fn lemma_through_logged(events: Seq<NameRow>, records: Seq<NameRecord>, fork: int)
    requires
        all_through(events, fork),
        forall|i: int| 0 <= i < records.len() ==> (#[trigger] records[i]).height > fork,
    ensures
        through(logged(events, records), fork) == events,
    decreases records.len(),
{
    reveal(Seq::filter);
    if records.len() == 0 {
        lemma_through_all(events, fork);
    } else {
        let init = records.drop_last();
        assert forall|i: int| 0 <= i < init.len() implies (#[trigger] init[i]).height > fork by {
            assert(records[i].height > fork);
        }
        lemma_through_logged(events, init, fork);
        assert(logged(events, records).drop_last() =~= logged(events, init));
        assert(records[records.len() - 1].height > fork);
    }
}

/// A shallow rewind to a fork undoes a batch above it: the events and the
/// names are what they were.
pub proof fn law_shallow_rewind_undoes_batch(
    db: DbView,
    at: Cursor,
    tip: Cursor,
    notes: Seq<DecryptedView>,
    fork: u32,
)
    requires
        chained(db.name_events, db.names),
        all_through(db.name_events, fork as int),
        in_chain_order(notes, fork + 1),
        at.0 - fork <= REORG_SHALLOW_MAX,
        after_batch(db, at, tip, notes) is Ok,
    ensures
        ({
            let back = after_rewind((after_batch(db, at, tip, notes)->Ok_0).0, fork, at.0);
            back.name_events == db.name_events && back.names == db.names
        }),
{
    let next = (after_batch(db, at, tip, notes)->Ok_0).0;
    let staged = staged_notes(db.name_events, db.names, notes)->Ok_0;
    assert(in_chain_order(notes, fork as int));
    law_batch_keeps_names_chained(db, at, tip, notes, fork as int);
    law_rewind_keeps_names_chained(next, fork, at.0);
    let back = after_rewind(next, fork, at.0);
    lemma_staged_heights(db.name_events, db.names, notes, fork as int);
    assert forall|i: int| 0 <= i < records_of(staged).len() implies (#[trigger] records_of(staged)[i]).height
        > fork by {
        assert(staged[i].height > fork);
    }
    lemma_through_logged(db.name_events, records_of(staged), fork as int);
    assert forall|m: Seq<char>| #[trigger] entry(back.names, m) == entry(db.names, m) by {
        assert(entry(back.names, m) == live(latest(back.name_events, m)));
        assert(entry(db.names, m) == live(latest(db.name_events, m)));
    }
    lemma_table_unique(back.names, db.names);
}

} // verus!
