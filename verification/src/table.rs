//! The name table: one record per live name, in name order.

use vstd::prelude::*;

use crate::kernel::Action;
use crate::log::{
    append, appended, has_room, latest, lemma_latest, next_id, views, LogRow, Record, RecordView,
    RowView,
};
use crate::order::{
    insert_by, is_order, is_sorted, lemma_filter_sorted, lemma_insert_at, lemma_insert_sorted, page,
};
use crate::store::Duplicate;
use crate::text::{lemma_text_le_total, lemma_text_le_transitive, text_before, text_eq, text_le};

verus! {

/// Dictionary order of the names.
pub open spec fn by_name<V>() -> spec_fn(RecordView<V>, RecordView<V>) -> bool {
    |a: RecordView<V>, b: RecordView<V>| text_le(a.name, b.name)
}

/// In name order, and no name occurs twice.
pub open spec fn is_name_table<V>(names: Seq<RecordView<V>>) -> bool {
    &&& is_sorted(names, by_name())
    &&& forall|i: int, j: int| 0 <= i < j < names.len() ==> #[trigger] names[i].name != #[trigger] names[j].name
}

/// The record of `name`.
pub open spec fn entry<V>(names: Seq<RecordView<V>>, name: Seq<char>) -> Option<RecordView<V>>
    decreases names.len(),
{
    if names.len() == 0 {
        None
    } else if names.last().name == name {
        Some(names.last())
    } else {
        entry(names.drop_last(), name)
    }
}

/// The records of every other name.
pub open spec fn without<V>(names: Seq<RecordView<V>>, name: Seq<char>) -> Seq<RecordView<V>> {
    names.filter(|r: RecordView<V>| r.name != name)
}

/// The table with `record` as the record of its name.
pub open spec fn upserted<V>(names: Seq<RecordView<V>>, record: RecordView<V>) -> Seq<RecordView<V>> {
    insert_by(without(names, record.name), record, by_name())
}

pub proof fn lemma_by_name_is_order<V>()
    ensures
        is_order(by_name::<V>()),
{
    let le = by_name::<V>();
    assert forall|a: RecordView<V>, b: RecordView<V>| #[trigger] le(a, b) || le(b, a) by {
        lemma_text_le_total(a.name, b.name);
    }
    assert forall|a: RecordView<V>, b: RecordView<V>, c: RecordView<V>| #[trigger]
        le(a, b) && #[trigger] le(b, c) implies le(a, c) by {
        lemma_text_le_transitive(a.name, b.name, c.name);
    }
}

/// A found record stands in the table; a name that is not found does not occur.
pub proof fn lemma_entry<V>(names: Seq<RecordView<V>>, name: Seq<char>)
    ensures
        match entry(names, name) {
            Some(r) => names.contains(r) && r.name == name,
            None => forall|i: int| 0 <= i < names.len() ==> #[trigger] names[i].name != name,
        },
    decreases names.len(),
{
    if names.len() > 0 {
        let init = names.drop_last();
        lemma_entry(init, name);
        assert(names.last() == names[names.len() - 1]);
        if names.last().name != name {
            match entry(init, name) {
                Some(r) => {
                    let i = choose|i: int| 0 <= i < init.len() && init[i] == r;
                    assert(names[i] == r);
                },
                None => {
                    assert forall|i: int| 0 <= i < names.len() implies #[trigger] names[i].name != name by {
                        if i < names.len() - 1 {
                            assert(init[i].name != name);
                        }
                    }
                },
            }
        }
    }
}

pub proof fn lemma_without<V>(names: Seq<RecordView<V>>, name: Seq<char>)
    requires
        is_name_table(names),
    ensures
        is_name_table(without(names, name)),
        forall|i: int| 0 <= i < without(names, name).len() ==> #[trigger] without(names, name)[i].name != name,
        forall|r: RecordView<V>| #[trigger] without(names, name).contains(r) ==> names.contains(r),
        forall|m: Seq<char>| #[trigger]
            entry(without(names, name), m) == (if m == name {
                None
            } else {
                entry(names, m)
            }),
    decreases names.len(),
{
    reveal(Seq::filter);
    if names.len() > 0 {
        let init = names.drop_last();
        let last = names.last();
        assert(last == names[names.len() - 1]);
        assert forall|i: int, j: int| 0 <= i < j < init.len() implies #[trigger] init[i].name
            != #[trigger] init[j].name by {
            assert(names[i].name != names[j].name);
        }
        assert(is_sorted(init, by_name())) by {
            assert forall|i: int, j: int| 0 <= i < j < init.len() implies by_name::<V>()(
                #[trigger] init[i],
                #[trigger] init[j],
            ) by {
                assert(by_name::<V>()(names[i], names[j]));
            }
        }
        lemma_without(init, name);
        let f = without(init, name);
        assert forall|i: int| 0 <= i < f.len() implies by_name::<V>()(#[trigger] f[i], last) && f[i].name
            != last.name by {
            assert(f.contains(f[i]));
            let k = choose|k: int| 0 <= k < init.len() && init[k] == f[i];
            assert(names[k] == f[i]);
            assert(by_name::<V>()(names[k], names[names.len() - 1]));
            assert(names[k].name != names[names.len() - 1].name);
        }
        assert forall|r: RecordView<V>| #[trigger] without(names, name).contains(r) implies names.contains(r) by {
            let w = without(names, name);
            let i = choose|i: int| 0 <= i < w.len() && w[i] == r;
            if i < f.len() {
                assert(f[i] == r);
                assert(f.contains(r));
                let k = choose|k: int| 0 <= k < init.len() && init[k] == r;
                assert(names[k] == r);
            }
        }
        if last.name != name {
            assert(without(names, name) == f.push(last));
            assert(f.push(last).drop_last() =~= f);
            assert forall|m: Seq<char>| #[trigger] entry(f.push(last), m) == (if m == name {
                None
            } else {
                entry(names, m)
            }) by {
                assert(entry(f, m) == (if m == name {
                    None
                } else {
                    entry(init, m)
                }));
            }
        } else {
            assert(without(names, name) == f);
            assert forall|m: Seq<char>| #[trigger] entry(f, m) == (if m == name {
                None
            } else {
                entry(names, m)
            }) by {
                assert(entry(f, m) == (if m == name {
                    None
                } else {
                    entry(init, m)
                }));
            }
        }
    }
}

proof fn lemma_entry_inserted<V>(t: Seq<RecordView<V>>, record: RecordView<V>, m: Seq<char>)
    requires
        forall|i: int| 0 <= i < t.len() ==> #[trigger] t[i].name != record.name,
    ensures
        entry(insert_by(t, record, by_name()), m) == (if m == record.name {
            Some(record)
        } else {
            entry(t, m)
        }),
    decreases t.len(),
{
    if t.len() == 0 || by_name::<V>()(t.last(), record) {
        assert(t.push(record).drop_last() =~= t);
    } else {
        let init = t.drop_last();
        assert forall|i: int| 0 <= i < init.len() implies #[trigger] init[i].name != record.name by {
            assert(t[i].name != record.name);
        }
        lemma_entry_inserted(init, record, m);
        let s = insert_by(init, record, by_name());
        assert(s.push(t.last()).drop_last() =~= s);
        assert(t.last() == t[t.len() - 1]);
    }
}

/// An upsert keeps the table a table, gives its name the record, and leaves
/// every other name alone.
pub proof fn lemma_upserted<V>(names: Seq<RecordView<V>>, record: RecordView<V>)
    requires
        is_name_table(names),
    ensures
        is_name_table(upserted(names, record)),
        forall|m: Seq<char>| #[trigger]
            entry(upserted(names, record), m) == (if m == record.name {
                Some(record)
            } else {
                entry(names, m)
            }),
{
    lemma_without(names, record.name);
    lemma_by_name_is_order::<V>();
    let t = without(names, record.name);
    let u = upserted(names, record);
    lemma_insert_sorted(t, record, by_name());
    lemma_inserted_names_differ(t, record);
    assert forall|m: Seq<char>| #[trigger] entry(u, m) == (if m == record.name {
        Some(record)
    } else {
        entry(names, m)
    }) by {
        lemma_entry_inserted(t, record, m);
        if m != record.name {
            assert(entry(without(names, record.name), m) == entry(names, m));
        }
    }
}

proof fn lemma_inserted_names_differ<V>(t: Seq<RecordView<V>>, record: RecordView<V>)
    requires
        forall|i: int| 0 <= i < t.len() ==> #[trigger] t[i].name != record.name,
        forall|i: int, j: int| 0 <= i < j < t.len() ==> #[trigger] t[i].name != #[trigger] t[j].name,
    ensures
        forall|i: int, j: int|
            0 <= i < j < insert_by(t, record, by_name()).len() ==> #[trigger] insert_by(
                t,
                record,
                by_name(),
            )[i].name != #[trigger] insert_by(t, record, by_name())[j].name,
        forall|i: int|
            0 <= i < insert_by(t, record, by_name()).len() ==> #[trigger] insert_by(
                t,
                record,
                by_name(),
            )[i] == record || t.contains(insert_by(t, record, by_name())[i]),
    decreases t.len(),
{
    let u = insert_by(t, record, by_name());
    if t.len() == 0 || by_name::<V>()(t.last(), record) {
        assert forall|i: int| 0 <= i < u.len() implies #[trigger] u[i] == record || t.contains(u[i]) by {
            if i < t.len() {
                assert(t[i] == u[i]);
            }
        }
    } else {
        let init = t.drop_last();
        assert forall|i: int| 0 <= i < init.len() implies #[trigger] init[i].name != record.name by {
            assert(t[i].name != record.name);
        }
        assert forall|i: int, j: int| 0 <= i < j < init.len() implies #[trigger] init[i].name
            != #[trigger] init[j].name by {
            assert(t[i].name != t[j].name);
        }
        lemma_inserted_names_differ(init, record);
        let s = insert_by(init, record, by_name());
        assert(t.last() == t[t.len() - 1]);
        assert forall|i: int| 0 <= i < s.len() implies #[trigger] s[i].name != t.last().name && (s[i]
            == record || t.contains(s[i])) by {
            if s[i] != record {
                let k = choose|k: int| 0 <= k < init.len() && init[k] == s[i];
                assert(t[k] == s[i]);
                assert(t[k].name != t[t.len() - 1].name);
            }
        }
        assert forall|i: int| 0 <= i < u.len() implies #[trigger] u[i] == record || t.contains(u[i]) by {
            if i < s.len() {
                assert(u[i] == s[i]);
            } else {
                assert(u[i] == t[t.len() - 1]);
            }
        }
        assert forall|i: int, j: int| 0 <= i < j < u.len() implies #[trigger] u[i].name != #[trigger] u[j].name by {
            assert(u[i] == s[i]);
            if j < s.len() {
                assert(u[j] == s[j]);
            }
        }
    }
}

/// The record of `name`.
pub fn find<'a, X: View>(names: &'a Vec<Record<X>>, name: &str) -> (r: Option<&'a Record<X>>)
    ensures
        match r {
            Some(record) => entry(views(names@), name@) == Some(record@),
            None => entry(views(names@), name@) is None,
        },
{
    let mut i: usize = names.len();
    let ghost all = views(names@);
    assert(all.take(i as int) =~= all);
    while i > 0
        invariant
            i <= names.len(),
            all == views(names@),
            entry(all.take(i as int), name@) == entry(all, name@),
        decreases i,
    {
        assert(all.take(i as int).drop_last() =~= all.take(i - 1));
        if text_eq(names[i - 1].name.as_str(), name) {
            return Some(&names[i - 1]);
        }
        i -= 1;
    }
    None
}

/// Deletes the record of `name`.
pub fn delete<X: View>(names: &mut Vec<Record<X>>, name: &str)
    ensures
        views(final(names)@) == without(views(old(names)@), name@),
{
    let ghost all = views(names@);
    let ghost p = |r: RecordView<X::V>| r.name != name@;
    let mut i: usize = 0;
    let ghost mut done: int = 0;
    assert(views(names@) =~= all.take(0).filter(p) + all.skip(0)) by {
        reveal(Seq::filter);
    }
    while i < names.len()
        invariant
            p == (|r: RecordView<X::V>| r.name != name@),
            0 <= done <= all.len(),
            i == all.take(done).filter(p).len(),
            i <= names.len(),
            names.len() - i == all.len() - done,
            views(names@) == all.take(done).filter(p) + all.skip(done),
        decreases names.len() - i,
    {
        proof {
            crate::log::lemma_filter_step(all, done, p);
            assert(views(names@)[i as int] == all[done]);
        }
        if text_eq(names[i].name.as_str(), name) {
            let ghost before = views(names@);
            names.remove(i);
            proof {
                assert(views(names@) =~= before.remove(i as int));
                assert(before.remove(i as int) =~= all.take(done).filter(p) + all.skip(done + 1));
                done = done + 1;
            }
        } else {
            i += 1;
            proof {
                assert(views(names@) =~= all.take(done).filter(p).push(all[done]) + all.skip(done + 1));
                done = done + 1;
            }
        }
    }
    proof {
        assert(all.take(done) =~= all);
        assert(all.skip(done) =~= Seq::empty());
        assert(views(names@) =~= all.filter(p));
    }
}

/// Sets the record of its name.
pub fn upsert<X: View>(names: &mut Vec<Record<X>>, record: Record<X>)
    ensures
        views(final(names)@) == upserted(views(old(names)@), record@),
{
    delete(names, record.name.as_str());
    let mut p: usize = names.len();
    while p > 0 && !text_before(names[p - 1].name.as_str(), record.name.as_str())
        invariant
            p <= names.len(),
            forall|j: int| p <= j < names.len() ==> !by_name::<X::V>()(
                #[trigger] views(names@)[j],
                record@,
            ),
        decreases p,
    {
        p -= 1;
        assert(views(names@)[p as int] == names@[p as int]@);
    }
    proof {
        let s = views(names@);
        if p > 0 {
            assert(s[p - 1] == names@[p - 1]@);
        }
        lemma_insert_at(s, record@, by_name(), p as int);
    }
    let ghost before = views(names@);
    names.insert(p, record);
    assert(views(names@) =~= before.insert(p as int, record@));
}

/// The records bound to an address.
pub open spec fn bound_to<V>(ua: Seq<char>) -> spec_fn(RecordView<V>) -> bool {
    |r: RecordView<V>| r.ua == ua
}

pub fn select_bound_to<'a, X: View>(names: &'a Vec<Record<X>>, ua: &str) -> (r: Vec<&'a Record<X>>)
    ensures
        views(r@) == views(names@).filter(bound_to(ua@)),
{
    let ghost all = views(names@);
    let ghost want: spec_fn(RecordView<X::V>) -> bool = bound_to(ua@);
    let mut out: Vec<&'a Record<X>> = Vec::new();
    let mut i: usize = 0;
    assert(views(out@) =~= all.take(0).filter(want)) by {
        reveal(Seq::filter);
    }
    while i < names.len()
        invariant
            i <= names.len(),
            all == views(names@),
            want == bound_to::<X::V>(ua@),
            views(out@) == all.take(i as int).filter(want),
        decreases names.len() - i,
    {
        proof {
            crate::log::lemma_filter_step(all, i as int, want);
        }
        let record = &names[i];
        if text_eq(record.ua.as_str(), ua) {
            let ghost before = views(out@);
            out.push(record);
            assert(views(out@) =~= before.push(record@));
        }
        i += 1;
    }
    assert(all.take(all.len() as int) =~= all);
    out
}

pub fn select_all<'a, X: View>(names: &'a Vec<Record<X>>) -> (r: Vec<&'a Record<X>>)
    ensures
        views(r@) == views(names@),
{
    let mut out: Vec<&'a Record<X>> = Vec::new();
    let mut i: usize = 0;
    while i < names.len()
        invariant
            i <= names.len(),
            views(out@) == views(names@).take(i as int),
        decreases names.len() - i,
    {
        let ghost before = views(out@);
        out.push(&names[i]);
        i += 1;
        assert(views(out@) =~= views(names@).take(i as int)) by {
            assert(views(out@) =~= before.push(names@[i - 1]@));
        }
    }
    assert(views(names@).take(names@.len() as int) =~= views(names@));
    out
}

proof fn lemma_table_drop_last<V>(names: Seq<RecordView<V>>)
    requires
        is_name_table(names),
        names.len() > 0,
    ensures
        is_name_table(names.drop_last()),
        forall|m: Seq<char>| #[trigger]
            entry(names.drop_last(), m) == (if m == names.last().name {
                None
            } else {
                entry(names, m)
            }),
{
    let init = names.drop_last();
    assert forall|i: int, j: int| 0 <= i < j < init.len() implies #[trigger] init[i].name
        != #[trigger] init[j].name && by_name::<V>()(init[i], init[j]) by {
        assert(names[i].name != names[j].name);
        assert(by_name::<V>()(names[i], names[j]));
    }
    assert forall|m: Seq<char>| #[trigger] entry(init, m) == (if m == names.last().name {
        None
    } else {
        entry(names, m)
    }) by {
        lemma_entry(init, m);
        if m == names.last().name && entry(init, m) is Some {
            let i = choose|i: int| 0 <= i < init.len() && init[i] == entry(init, m)->0;
            assert(names[i].name != names[names.len() - 1].name);
        }
    }
}

/// What each name finds determines the table.
pub proof fn lemma_table_unique<V>(a: Seq<RecordView<V>>, b: Seq<RecordView<V>>)
    requires
        is_name_table(a),
        is_name_table(b),
        forall|m: Seq<char>| #[trigger] entry(a, m) == entry(b, m),
    ensures
        a == b,
    decreases a.len(),
{
    if a.len() == 0 {
        if b.len() > 0 {
            assert(entry(a, b.last().name) == entry(b, b.last().name));
        }
        assert(a =~= b);
    } else {
        let x = a.last();
        assert(entry(a, x.name) == entry(b, x.name));
        lemma_entry(b, x.name);
        let i = choose|i: int| 0 <= i < b.len() && b[i] == x;
        let y = b.last();
        assert(entry(a, y.name) == entry(b, y.name));
        lemma_entry(a, y.name);
        let j = choose|j: int| 0 <= j < a.len() && a[j] == y;
        lemma_text_le_total(x.name, y.name);
        if i < b.len() - 1 {
            assert(by_name::<V>()(b[i], b[b.len() - 1]));
        }
        if j < a.len() - 1 {
            assert(by_name::<V>()(a[j], a[a.len() - 1]));
        }
        assert(x.name == y.name);
        assert(x == y);
        lemma_table_drop_last(a);
        lemma_table_drop_last(b);
        assert forall|m: Seq<char>| #[trigger] entry(a.drop_last(), m) == entry(b.drop_last(), m) by {
            assert(entry(a, m) == entry(b, m));
            assert(entry(b.drop_last(), m) == (if m == y.name {
                None
            } else {
                entry(b, m)
            }));
        }
        lemma_table_unique(a.drop_last(), b.drop_last());
        assert(a =~= a.drop_last().push(x));
        assert(b =~= b.drop_last().push(y));
    }
}

// ── the fold ────────────────────────────────────────────────────────────────

/// The log with the admitted records appended.
pub open spec fn logged<V>(log: Seq<RowView<V>>, records: Seq<RecordView<V>>) -> Seq<RowView<V>>
    decreases records.len(),
{
    if records.len() == 0 {
        log
    } else {
        appended(logged(log, records.drop_last()), records.last())
    }
}

/// The name table after one admitted record: a release frees its name, any
/// other action becomes its record.
pub open spec fn named_one<V>(names: Seq<RecordView<V>>, record: RecordView<V>) -> Seq<RecordView<V>> {
    if record.action == Action::Release.text() {
        without(names, record.name)
    } else {
        upserted(names, record)
    }
}

pub open spec fn named<V>(names: Seq<RecordView<V>>, records: Seq<RecordView<V>>) -> Seq<RecordView<V>>
    decreases records.len(),
{
    if records.len() == 0 {
        names
    } else {
        named_one(named(names, records.drop_last()), records.last())
    }
}

/// The table with one name set to what survives of it.
pub open spec fn restored_one<V>(
    names: Seq<RecordView<V>>,
    name: Seq<char>,
    record: Option<RecordView<V>>,
) -> Seq<RecordView<V>> {
    match record {
        None => without(names, name),
        Some(r) => upserted(names, r),
    }
}

pub open spec fn restored<V>(
    names: Seq<RecordView<V>>,
    affected: Seq<Seq<char>>,
    records: Seq<Option<RecordView<V>>>,
) -> Seq<RecordView<V>>
    decreases affected.len(),
{
    if affected.len() == 0 || records.len() != affected.len() {
        names
    } else {
        restored_one(
            restored(names, affected.drop_last(), records.drop_last()),
            affected.last(),
            records.last(),
        )
    }
}

/// Appends each record to the log and folds it into the table.
pub fn commit_records<X: Duplicate>(
    events: &mut Vec<LogRow<X>>,
    names: &mut Vec<Record<X>>,
    records: &Vec<Record<X>>,
)
    requires
        has_room(views(old(events)@), records@.len()),
    ensures
        views(final(events)@) == logged(views(old(events)@), views(records@)),
        views(final(names)@) == named(views(old(names)@), views(records@)),
{
    let ghost events0 = views(events@);
    let ghost names0 = views(names@);
    let ghost all = views(records@);
    let mut i: usize = 0;
    while i < records.len()
        invariant
            i <= records.len(),
            all == views(records@),
            has_room(events0, records@.len()),
            next_id(views(events@)) == next_id(events0) + i,
            views(events@) == logged(events0, all.take(i as int)),
            views(names@) == named(names0, all.take(i as int)),
        decreases records.len() - i,
    {
        let record = &records[i];
        assert(all.take(i + 1).drop_last() =~= all.take(i as int));
        assert(all.take(i + 1).last() == record@);
        append(events, record.duplicate());
        if text_eq(record.action.as_str(), Action::Release.as_str()) {
            delete(names, record.name.as_str());
        } else {
            upsert(names, record.duplicate());
        }
        i += 1;
    }
    assert(all.take(all.len() as int) =~= all);
}

pub open spec fn option_record<X: View>(r: Option<Record<X>>) -> Option<RecordView<X::V>> {
    match r {
        Some(record) => Some(record@),
        None => None,
    }
}

pub open spec fn option_records<X: View>(s: Seq<Option<Record<X>>>) -> Seq<Option<RecordView<X::V>>> {
    Seq::new(s.len(), |i: int| option_record(s[i]))
}

/// Sets each affected name to what survives of it (or deletes its record).
pub fn rebuild_name_tips<X: Duplicate>(
    names: &mut Vec<Record<X>>,
    affected: &Vec<String>,
    records: &Vec<Option<Record<X>>>,
)
    requires
        affected.len() == records.len(),
    ensures
        views(final(names)@) == restored(
            views(old(names)@),
            views(affected@),
            option_records(records@),
        ),
{
    let ghost base = views(names@);
    let ghost all = views(affected@);
    let ghost rs = option_records(records@);
    let mut i: usize = 0;
    while i < affected.len()
        invariant
            i <= affected.len(),
            affected.len() == records.len(),
            all == views(affected@),
            rs == option_records(records@),
            views(names@) == restored(base, all.take(i as int), rs.take(i as int)),
        decreases affected.len() - i,
    {
        assert(all.take(i + 1).drop_last() =~= all.take(i as int));
        assert(rs.take(i + 1).drop_last() =~= rs.take(i as int));
        match &records[i] {
            None => {
                delete(names, affected[i].as_str());
            },
            Some(record) => {
                upsert(names, record.duplicate());
            },
        }
        i += 1;
    }
    assert(all.take(all.len() as int) =~= all);
    assert(rs.take(rs.len() as int) =~= rs);
}

/// The record a row leaves its name with: none after a release.
pub open spec fn live<V>(row: Option<RowView<V>>) -> Option<RecordView<V>> {
    match row {
        Some(r) => if r.record.action == Action::Release.text() {
            None
        } else {
            Some(r.record)
        },
        None => None,
    }
}

/// The name table is the fold of the log.
pub open spec fn is_fold<V>(log: Seq<RowView<V>>, names: Seq<RecordView<V>>) -> bool {
    forall|name: Seq<char>| #[trigger] entry(names, name) == live(latest(log, name))
}

/// A row that becomes its name's newest, and its record in the table, keep the
/// table the fold of the log.
pub proof fn lemma_append_fold<V>(log: Seq<RowView<V>>, names: Seq<RecordView<V>>, record: RecordView<V>)
    requires
        is_name_table(names),
        is_fold(log, names),
        latest(appended(log, record), record.name) == Some(appended(log, record).last()),
        appended(log, record).last().record == record,
        forall|m: Seq<char>|
            m != record.name ==> #[trigger] latest(appended(log, record), m) == latest(log, m),
    ensures
        is_name_table(named_one(names, record)),
        is_fold(appended(log, record), named_one(names, record)),
{
    let next = appended(log, record);
    let names2 = named_one(names, record);
    lemma_without(names, record.name);
    lemma_upserted(names, record);
    assert forall|m: Seq<char>| #[trigger] entry(names2, m) == live(latest(next, m)) by {
        assert(entry(names, m) == live(latest(log, m)));
        if m != record.name {
            assert(latest(next, m) == latest(log, m));
        }
        if record.action == Action::Release.text() {
            assert(entry(without(names, record.name), m) == (if m == record.name {
                None
            } else {
                entry(names, m)
            }));
        } else {
            assert(entry(upserted(names, record), m) == (if m == record.name {
                Some(record)
            } else {
                entry(names, m)
            }));
        }
    }
}

/// Restoring the affected names leaves each at its newest row, and every other
/// name alone.
pub proof fn lemma_restored<V>(
    names: Seq<RecordView<V>>,
    affected: Seq<Seq<char>>,
    records: Seq<Option<RecordView<V>>>,
    log: Seq<RowView<V>>,
)
    requires
        is_name_table(names),
        records.len() == affected.len(),
        forall|i: int| 0 <= i < affected.len() ==> #[trigger] records[i] == live(
            latest(log, affected[i]),
        ),
    ensures
        is_name_table(restored(names, affected, records)),
        forall|m: Seq<char>| #[trigger]
            entry(restored(names, affected, records), m) == (if affected.contains(m) {
                live(latest(log, m))
            } else {
                entry(names, m)
            }),
    decreases affected.len(),
{
    if affected.len() > 0 {
        let a = affected.drop_last();
        let r = records.drop_last();
        assert forall|i: int| 0 <= i < a.len() implies #[trigger] r[i] == live(latest(log, a[i])) by {
            assert(records[i] == live(latest(log, affected[i])));
        }
        lemma_restored(names, a, r, log);
        let t = restored(names, a, r);
        let name = affected.last();
        assert(records[affected.len() - 1] == live(latest(log, affected[affected.len() - 1])));
        lemma_latest(log, name);
        lemma_without(t, name);
        if records.last() is Some {
            lemma_upserted(t, records.last()->0);
        }
        let u = restored(names, affected, records);
        assert forall|m: Seq<char>| #[trigger] entry(u, m) == (if affected.contains(m) {
            live(latest(log, m))
        } else {
            entry(names, m)
        }) by {
            assert(affected.contains(m) <==> a.contains(m) || m == name) by {
                if affected.contains(m) {
                    let i = choose|i: int| 0 <= i < affected.len() && affected[i] == m;
                    if i < a.len() {
                        assert(a[i] == m);
                    }
                }
                if a.contains(m) {
                    let i = choose|i: int| 0 <= i < a.len() && a[i] == m;
                    assert(affected[i] == m);
                }
                assert(affected[affected.len() - 1] == name);
            }
            assert(entry(t, m) == (if a.contains(m) {
                live(latest(log, m))
            } else {
                entry(names, m)
            }));
            match records.last() {
                None => {
                    assert(entry(without(t, name), m) == (if m == name {
                        None
                    } else {
                        entry(t, m)
                    }));
                },
                Some(x) => {
                    assert(entry(upserted(t, x), m) == (if m == x.name {
                        Some(x)
                    } else {
                        entry(t, m)
                    }));
                },
            }
        }
    }
}

// ── listings ────────────────────────────────────────────────────────────────

/// Listings come in name order, whatever page is asked for, and name no name
/// twice.
pub proof fn law_listings_in_name_order<V>(
    names: Seq<RecordView<V>>,
    ua: Seq<char>,
    limit: nat,
    offset: nat,
)
    requires
        is_name_table(names),
    ensures
        is_name_table(page(names, limit, offset)),
        is_name_table(page(names.filter(bound_to(ua)), limit, offset)),
{
    lemma_filter_table(names, bound_to(ua));
    lemma_page_table(names, limit, offset);
    lemma_page_table(names.filter(bound_to(ua)), limit, offset);
}

proof fn lemma_page_table<V>(names: Seq<RecordView<V>>, limit: nat, offset: nat)
    requires
        is_name_table(names),
    ensures
        is_name_table(page(names, limit, offset)),
{
    let p = page(names, limit, offset);
    assert forall|i: int, j: int| 0 <= i < j < p.len() implies by_name::<V>()(
        #[trigger] p[i],
        #[trigger] p[j],
    ) && p[i].name != p[j].name by {
        assert(by_name::<V>()(names[offset + i], names[offset + j]));
        assert(names[offset + i].name != names[offset + j].name);
    }
}

/// In order, and no name twice: one order that a filter keeps.
spec fn strictly_by_name<V>() -> spec_fn(RecordView<V>, RecordView<V>) -> bool {
    |a: RecordView<V>, b: RecordView<V>| text_le(a.name, b.name) && a.name != b.name
}

proof fn lemma_filter_table<V>(names: Seq<RecordView<V>>, q: spec_fn(RecordView<V>) -> bool)
    requires
        is_name_table(names),
    ensures
        is_name_table(names.filter(q)),
{
    assert forall|i: int, j: int| 0 <= i < j < names.len() implies strictly_by_name::<V>()(
        #[trigger] names[i],
        #[trigger] names[j],
    ) by {
        assert(by_name::<V>()(names[i], names[j]));
        assert(names[i].name != names[j].name);
    }
    lemma_filter_sorted(names, strictly_by_name(), q);
    let kept = names.filter(q);
    assert forall|i: int, j: int| 0 <= i < j < kept.len() implies by_name::<V>()(
        #[trigger] kept[i],
        #[trigger] kept[j],
    ) && kept[i].name != kept[j].name by {
        assert(strictly_by_name::<V>()(kept[i], kept[j]));
    }
}

/// A table lists its names in dictionary order, each once.
pub proof fn law_tables_are_in_dictionary_order<V>(names: Seq<RecordView<V>>, i: int, j: int)
    requires
        is_name_table(names),
        0 <= i < j < names.len(),
    ensures
        text_le(names[i].name, names[j].name),
        names[i].name != names[j].name,
        !text_le(names[j].name, names[i].name),
{
    assert(by_name::<V>()(names[i], names[j]));
    assert(names[i].name != names[j].name);
    lemma_text_le_total(names[i].name, names[j].name);
}

} // verus!
