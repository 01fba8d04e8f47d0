//! What the API tells: the registry's rows, as they were recorded.

use vstd::prelude::*;

use super::handlers::{event_answer, progress, resolution, ResolvedView};
use super::records::{public_event, public_record, NameEventView, NameRecordView};
use super::service::{capped_limit, is_synced};
use crate::http::{page_limit, page_offset};
use crate::kernel::{action_of, Action};
use crate::log::{asked_for, latest, newest_first};
use crate::merkle::laws::law_displayed_txid_reads_back;
use crate::merkle::listed_txid;
use crate::order::{law_page_is_a_window, lemma_filter_keeps, lemma_sort_keeps, page, sort_by};
use crate::registry::admission::{EventRow, NoteRecord};
use crate::registry::laws::chained;
use crate::registry::served::{
    law_events_tell_their_rows, law_registrations_tell_the_newest_event,
};
use crate::registry::state::{served_event, served_registration, DbView};
use crate::store::lemma_read_all;
use crate::table::{bound_to, entry, is_name_table, lemma_entry, live};

verus! {

/// The text displays the transaction id `txid`: it is read back as it.
pub open spec fn displays(text: Seq<char>, txid: Seq<u8>) -> bool {
    &&& text.len() == 64
    &&& listed_txid(Some(text)) matches Ok(t) && t@ == txid
}

/// The entry tells the record of a live name.
pub open spec fn tells_record(e: NameRecordView, r: NoteRecord) -> bool {
    &&& e.name == r.name
    &&& e.address == r.ua
    &&& displays(e.txid, r.txid)
    &&& 0 <= r.height <= u32::MAX ==> e.height == r.height
    &&& e.last_action == r.action
    &&& e.expires_at == r.extra.expires_at
}

/// The entry tells the event, under its id.
pub open spec fn tells_event(e: NameEventView, row: EventRow) -> bool {
    &&& e.id == row.id
    &&& e.name == row.record.name
    &&& e.action == row.record.action
    &&& displays(e.txid, row.record.txid)
    &&& 0 <= row.record.height <= u32::MAX ==> e.height == row.record.height
    &&& 0 <= row.record.action_index <= usize::MAX ==> e.action_index == row.record.action_index
    &&& e.address == row.record.ua
    &&& e.expires_at == row.record.extra.expires_at
}

proof fn lemma_spelled(text: Seq<char>)
    ensures
        action_of(text) matches Some(a) ==> a.text() == text,
{
}

/// Every record of the table is served, and its entry tells it.
pub proof fn law_records_tell_their_rows(db: DbView, k: int)
    requires
        chained(db.events, db.names),
        0 <= k < db.names.len(),
    ensures
        served_registration()(db.names[k]) matches Ok(g) && tells_record(public_record()(g), db.names[k]),
{
    let r = db.names[k];
    lemma_entry_at(db.names, k);
    law_registrations_tell_the_newest_event(db, r.name);
    lemma_spelled(r.action);
    let g = served_registration()(r)->Ok_0;
    law_displayed_txid_reads_back(g.txid);
}

proof fn lemma_entry_at(names: Seq<NoteRecord>, k: int)
    requires
        is_name_table(names),
        0 <= k < names.len(),
    ensures
        entry(names, names[k].name) == Some(names[k]),
{
    lemma_entry(names, names[k].name);
    if let Some(r) = entry(names, names[k].name) {
        let i = choose|i: int| 0 <= i < names.len() && names[i] == r;
        if i < k {
            assert(names[i].name != names[k].name);
        }
        if k < i {
            assert(names[k].name != names[i].name);
        }
    } else {
        assert(names[k].name != names[k].name);
    }
}

/// Every event is served, and its entry tells it.
pub proof fn law_entries_tell_their_events(db: DbView, k: int)
    requires
        chained(db.events, db.names),
        0 <= k < db.events.len(),
    ensures
        served_event()(db.events[k]) matches Ok(e) && tells_event(public_event()(e), db.events[k]),
{
    law_events_tell_their_rows(db, k);
    lemma_spelled(db.events[k].record.action);
    let e = served_event()(db.events[k])->Ok_0;
    law_displayed_txid_reads_back(e.txid);
}

/// A live name resolves to the record of its newest event.
pub proof fn law_live_name_resolves(
    db: DbView,
    name: Seq<char>,
    limit: Option<u64>,
    offset: Option<u64>,
)
    requires
        chained(db.events, db.names),
        name.len() > 0,
        latest(db.events, name) is Some,
        latest(db.events, name)->0.record.action != "release"@,
    ensures
        resolution(db, name, limit, offset) matches Some(ResolvedView::Record(e)) && tells_record(
            e,
            latest(db.events, name)->0.record,
        ),
{
    law_registrations_tell_the_newest_event(db, name);
    lemma_entry(db.names, name);
    let r = entry(db.names, name)->0;
    let k = choose|k: int| 0 <= k < db.names.len() && db.names[k] == r;
    law_records_tell_their_rows(db, k);
}

/// The table of which a listing is a page: all of it for an empty query,
/// otherwise the records whose address is the query.
pub open spec fn listed(names: Seq<NoteRecord>, query: Seq<char>) -> Seq<NoteRecord> {
    if query.len() == 0 {
        names
    } else {
        names.filter(bound_to(query))
    }
}

/// The names listed by address are exactly those bound to it.
pub proof fn law_listing_by_address(names: Seq<NoteRecord>, address: Seq<char>, r: NoteRecord)
    ensures
        names.filter(bound_to(address)).contains(r) <==> names.contains(r) && r.ua == address,
{
    broadcast use vstd::seq_lib::group_filter_ensures;

    let p = bound_to(address);
    let kept = names.filter(p);
    if kept.contains(r) {
        let i = choose|i: int| 0 <= i < kept.len() && kept[i] == r;
        assert(p(kept[i]));
        names.lemma_filter_contains_rev(p, r);
    }
    if names.contains(r) && r.ua == address {
        let i = choose|i: int| 0 <= i < names.len() && names[i] == r;
        names.lemma_filter_contains(p, i);
    }
}

proof fn lemma_page_is_told(db: DbView, rows: Seq<NoteRecord>, limit: nat, offset: nat)
    requires
        chained(db.events, db.names),
        forall|i: int| 0 <= i < rows.len() ==> db.names.contains(#[trigger] rows[i]),
    ensures
        crate::store::read_all(page(rows, limit, offset), served_registration()) matches Ok(v) && v.len()
            == page(rows, limit, offset).len() && forall|i: int|
            0 <= i < v.len() ==> tells_record(
                public_record()(#[trigger] v[i]),
                page(rows, limit, offset)[i],
            ),
{
    let shown = page(rows, limit, offset);
    law_page_is_a_window(rows, limit, offset);
    lemma_read_all(shown, served_registration());
    assert forall|i: int| 0 <= i < shown.len() implies served_registration()(shown[i]) matches Ok(g)
        && tells_record(public_record()(g), #[trigger] shown[i]) by {
        assert(shown[i] == rows[offset + i]);
        assert(db.names.contains(rows[offset + i]));
        let k = choose|k: int| 0 <= k < db.names.len() && db.names[k] == shown[i];
        law_records_tell_their_rows(db, k);
    }
}

/// A query that is no live name is answered with the asked-for page of a
/// listing, an entry for each record.
pub proof fn law_other_queries_list(
    db: DbView,
    query: Seq<char>,
    limit: Option<u64>,
    offset: Option<u64>,
)
    requires
        chained(db.events, db.names),
        query.len() == 0 || (latest(db.events, query) matches Some(row) ==> row.record.action
            == "release"@),
    ensures
        ({
            let rows = page(
                listed(db.names, query),
                page_limit(limit) as nat,
                page_offset(offset) as nat,
            );
            resolution(db, query, limit, offset) matches Some(ResolvedView::List(v)) && v.len() == rows.len()
                && forall|i: int| 0 <= i < v.len() ==> tells_record(#[trigger] v[i], rows[i])
        }),
{
    let all = listed(db.names, query);
    law_registrations_tell_the_newest_event(db, query);
    let p = |r: NoteRecord| db.names.contains(r);
    assert forall|i: int| 0 <= i < db.names.len() implies p(#[trigger] db.names[i]) by {}
    lemma_filter_keeps(db.names, bound_to(query), p);
    assert forall|i: int| 0 <= i < all.len() implies db.names.contains(#[trigger] all[i]) by {
        assert(p(all[i]));
    }
    lemma_page_is_told(db, all, page_limit(limit) as nat, page_offset(offset) as nat);
}

/// A query for events is answered with the asked-for page of the events it
/// finds, from the newest down, an entry for each, and how many it finds.
pub proof fn law_event_answer_tells_the_page(
    db: DbView,
    name: Option<Seq<char>>,
    action: Option<Action>,
    since: Option<u32>,
    limit: u32,
    offset: u32,
)
    requires
        chained(db.events, db.names),
    ensures
        ({
            let found = sort_by(db.events.filter(asked_for(name, action, since)), newest_first());
            let rows = page(found, limit as nat, offset as nat);
            event_answer(db, name, action, since, limit, offset) matches Some((v, total)) && v.len()
                == rows.len() && (forall|i: int| 0 <= i < v.len() ==> tells_event(#[trigger] v[i], rows[i])) && (
            found.len() <= u64::MAX ==> total == found.len())
        }),
{
    let want = asked_for(name, action, since);
    let kept = db.events.filter(want);
    let found = sort_by(kept, newest_first());
    let rows = page(found, limit as nat, offset as nat);
    let p = |r: EventRow| db.events.contains(r);
    assert forall|i: int| 0 <= i < db.events.len() implies p(#[trigger] db.events[i]) by {}
    lemma_filter_keeps(db.events, want, p);
    lemma_sort_keeps(kept, newest_first(), p);
    crate::order::lemma_sort_len(kept, newest_first());
    law_page_is_a_window(found, limit as nat, offset as nat);
    lemma_read_all(rows, served_event());
    assert forall|i: int| 0 <= i < rows.len() implies served_event()(rows[i]) matches Ok(e) && tells_event(
        public_event()(e),
        #[trigger] rows[i],
    ) by {
        assert(rows[i] == found[offset + i]);
        assert(p(found[offset + i]));
        let k = choose|k: int| 0 <= k < db.events.len() && db.events[k] == rows[i];
        law_entries_tell_their_events(db, k);
    }
}

/// A resolver tells its own height and the head's; it is synced exactly where
/// both are known and it is not below the head, and otherwise it is behind by
/// what is missing.
pub proof fn law_progress_is_exact(at: u32, head: u32)
    ensures
        progress(Some(at), Some(head)).0 == at,
        progress(Some(at), Some(head)).1 == head,
        progress(Some(at), Some(head)).2 <==> at >= head,
        at < head ==> at + progress(Some(at), Some(head)).3 == head,
        at >= head ==> progress(Some(at), Some(head)).3 == 0,
        progress(Some(at), None) == (at as u64, 0u64, false, 0u64),
        progress(None, Some(head)) == (0u64, 0u64, false, 0u64),
        is_synced(Some(at), Some(head)) <==> at >= head,
        !is_synced(Some(at), None),
        !is_synced(None, Some(head)),
{
}

/// A limit below one is one, and one above 500 is 500.
pub proof fn law_limits_are_capped(limit: u64)
    ensures
        limit < 1 ==> capped_limit(Some(limit)) == 1,
        limit > 500 ==> capped_limit(Some(limit)) == 500,
        1 <= limit <= 500 ==> capped_limit(Some(limit)) == limit,
{
}

} // verus!
