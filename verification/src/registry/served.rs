//! What the registry serves of its rows: the columns that were recorded.

use vstd::prelude::*;

use super::laws::{chained, is_sound};
use super::admission::EventRow;
use super::notes::parsed_note;
use super::state::{
    after_rewind, after_rewind_to, first_scan, fresh_account, position, reached, served_event,
    served_registration, surviving, Cursor, DbView,
};
use crate::kernel::action_of;
use crate::log::{latest, lemma_latest, names_above, through};
use crate::store::{lemma_read_all, read_all, StoreError};
use crate::table::{entry, live};
use crate::text::lemma_array32_of;

verus! {

/// Each event is served as it was recorded, at its own height and action index.
pub proof fn law_events_tell_their_rows(db: DbView, k: int)
    requires
        chained(db.events, db.names),
        0 <= k < db.events.len(),
    ensures
        ({
            let r = db.events[k].record;
            served_event()(db.events[k]) matches Ok(e) && e.id == db.events[k].id && e.name == r.name && e.ua
                == r.ua && e.expires_at == r.extra.expires_at && e.txid@ == r.txid && action_of(r.action)
                == Some(e.action) && (0 <= r.height <= u32::MAX ==> e.height == r.height) && (0
                <= r.action_index <= usize::MAX ==> e.action_index == r.action_index)
        }),
{
    assert(is_sound(db.events[k].record));
    lemma_array32_of(db.events[k].record.txid);
}

/// Each live name is served as its newest event recorded it, at that event's
/// height, and a name that is not live is not served.
pub proof fn law_registrations_tell_the_newest_event(db: DbView, name: Seq<char>)
    requires
        chained(db.events, db.names),
    ensures
        match latest(db.events, name) {
            None => entry(db.names, name) is None,
            Some(row) => if row.record.action == "release"@ {
                entry(db.names, name) is None
            } else {
                entry(db.names, name) matches Some(r) && r == row.record && (served_registration()(r) matches Ok(
                    g,
                ) && g.name == name && g.ua == r.ua && g.expires_at == r.extra.expires_at && g.txid@ == r.txid
                    && action_of(r.action) == Some(g.last_action) && (0 <= r.height <= u32::MAX
                    ==> g.height == r.height))
            },
        },
{
    lemma_latest(db.events, name);
    assert(entry(db.names, name) == live(latest(db.events, name)));
    if let Some(row) = latest(db.events, name) {
        let k = choose|k: int| 0 <= k < db.events.len() && db.events[k] == row;
        assert(is_sound(db.events[k].record));
        lemma_array32_of(row.record.txid);
    }
}

/// A record is served exactly where its memo parses and agrees with its name and
/// address, its action is spelled right and its transaction id has 32 bytes; any
/// other is corrupt, and so is an event.
pub proof fn law_disagreeing_records_are_corrupt(row: EventRow)
    ensures
        ({
            let r = row.record;
            let agrees = parsed_note(r.extra.memo) matches Some(n) && n.name == r.name && n.ua == r.ua;
            let reads = agrees && r.txid.len() == 32 && action_of(r.action) is Some;
            &&& served_registration()(r) is Ok <==> reads
            &&& served_registration()(r) matches Err(e) ==> e == StoreError::CorruptRecord
            &&& served_event()(row) is Ok <==> reads
            &&& served_event()(row) matches Err(e) ==> e == StoreError::CorruptRecord
        }),
{
}

/// A new account starts at its birthday, on its network, with no position.
pub proof fn law_new_account_starts_at_its_birthday(ufvk: Seq<char>, mainnet: bool, birthday: u32)
    ensures
        ({
            let account = fresh_account(ufvk, mainnet, birthday);
            &&& account.ufvk == ufvk
            &&& account.network == if mainnet {
                "main"@
            } else {
                "test"@
            }
            &&& first_scan(Some(account)) == Ok::<u32, StoreError>(birthday)
            &&& position(Some(account)) is None
            &&& reached(Some(account)) is None
        }),
{
    assert((birthday as i64) as u32 == birthday);
}

/// Rewinding to a block is rewinding to its height: only the position differs.
pub proof fn law_rewind_to_a_block_is_a_rewind(db: DbView, to: Cursor)
    ensures
        match (after_rewind(db, to.height), after_rewind_to(db, to)) {
            (Ok(a), Ok(b)) => a.events == b.events && a.names == b.names && a.watched == b.watched,
            (Err(a), Err(b)) => a == b,
            _ => false,
        },
{
}

/// A rewind fails where the newest event that survives of a name it affects is
/// corrupt, and so leaves no such name served.
pub proof fn law_rewind_fails_on_a_corrupt_event(db: DbView, fork: u32, name: Seq<char>)
    requires
        names_above(db.events, fork as int).contains(name),
        latest(through(db.events, fork as int), name) matches Some(row) && (action_of(row.record.action) is None
            || !(parsed_note(row.record.extra.memo) matches Some(n) && n.name == name && n.ua
            == row.record.ua)),
    ensures
        after_rewind(db, fork) == Err::<DbView, StoreError>(StoreError::CorruptRecord),
{
    let events = through(db.events, fork as int);
    let affected = names_above(db.events, fork as int);
    let f = surviving(events);
    lemma_read_all(affected, f);
    let i = choose|i: int| 0 <= i < affected.len() && affected[i] == name;
    assert(f(affected[i]) is Err);
    if let Ok(v) = read_all(affected, f) {
        assert(f(affected[i]) == Ok::<Option<super::admission::NoteRecord>, StoreError>(v[i]));
    }
}

} // verus!
