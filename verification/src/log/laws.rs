//! What a log tells: its newest rows, and its rows as a query asks for them.

use vstd::prelude::*;

use super::{
    appended, asked_for, chain_order, heights_rise, ids_ascend, is_newer, latest, lemma_latest_is,
    lemma_log_orders, newest_first, of_name, RecordView, RowView,
};
use crate::kernel::Action;
use crate::order::{is_sorted, lemma_sort, lemma_sort_keeps, sort_by};

verus! {

/// The tip of a name is its last row: later rows are of other names.
pub proof fn law_tip_is_the_last_row<V>(log: Seq<RowView<V>>, name: Seq<char>, k: int)
    requires
        ids_ascend(log),
        heights_rise(log),
        0 <= k < log.len(),
        log[k].record.name == name,
        forall|i: int| k < i < log.len() ==> (#[trigger] log[i]).record.name != name,
    ensures
        latest(log, name) == Some(log[k]),
{
    assert forall|i: int| 0 <= i < log.len() && i != k && #[trigger] log[i].record.name == name implies is_newer(
        log[k],
        log[i],
    ) by {
        assert(i < k);
        assert(log[i].id < log[k].id);
        assert(log[i].record.height <= log[k].record.height);
    }
    lemma_latest_is(log, name, k);
}

/// A sort has the elements that went in, and no others.
proof fn lemma_sort_contains<T>(s: Seq<T>, le: spec_fn(T, T) -> bool, x: T)
    requires
        crate::order::is_order(le),
    ensures
        sort_by(s, le).contains(x) <==> s.contains(x),
{
    lemma_sort(s, le);
    let t = sort_by(s, le);
    s.to_multiset_ensures();
    t.to_multiset_ensures();
    assert(s.contains(x) <==> s.to_multiset().count(x) > 0);
    assert(t.contains(x) <==> t.to_multiset().count(x) > 0);
}

proof fn lemma_filter_has<T>(s: Seq<T>, p: spec_fn(T) -> bool, x: T)
    ensures
        s.filter(p).contains(x) <==> s.contains(x) && p(x),
{
    broadcast use vstd::seq_lib::group_filter_ensures;

    let kept = s.filter(p);
    if kept.contains(x) {
        let i = choose|i: int| 0 <= i < kept.len() && kept[i] == x;
        assert(p(kept[i]));
        s.lemma_filter_contains_rev(p, x);
    }
    if s.contains(x) && p(x) {
        let i = choose|i: int| 0 <= i < s.len() && s[i] == x;
        s.lemma_filter_contains(p, i);
    }
}

/// A sort by `le` of what is kept holds exactly the rows of the log that are
/// kept.
pub proof fn lemma_selection<T>(s: Seq<T>, p: spec_fn(T) -> bool, le: spec_fn(T, T) -> bool, x: T)
    requires
        crate::order::is_order(le),
    ensures
        sort_by(s.filter(p), le).contains(x) <==> s.contains(x) && p(x),
        sort_by(s.filter(p), le).len() == s.filter(p).len(),
{
    lemma_filter_has(s, p, x);
    lemma_sort_contains(s.filter(p), le, x);
    lemma_sort(s.filter(p), le);
}

proof fn lemma_ids_differ<V>(s: Seq<RowView<V>>, p: spec_fn(RowView<V>) -> bool)
    requires
        ids_ascend(s),
    ensures
        forall|i: int, j: int|
            0 <= i < j < s.filter(p).len() ==> (#[trigger] s.filter(p)[i]).id < (#[trigger] s.filter(p)[j]).id,
{
    let by_id = |a: RowView<V>, b: RowView<V>| a.id < b.id;
    assert(is_sorted(s, by_id)) by {
        assert forall|i: int, j: int| 0 <= i < j < s.len() implies by_id(#[trigger] s[i], #[trigger] s[j]) by {
            assert(s[i].id < s[j].id);
        }
    }
    crate::order::lemma_filter_sorted(s, by_id, p);
    assert forall|i: int, j: int| 0 <= i < j < s.filter(p).len() implies (#[trigger] s.filter(p)[i]).id < (
    #[trigger] s.filter(p)[j]).id by {
        assert(by_id(s.filter(p)[i], s.filter(p)[j]));
    }
}

/// Rows that differ by id still do once they are sorted.
proof fn lemma_sort_differs<V>(
    s: Seq<RowView<V>>,
    le: spec_fn(RowView<V>, RowView<V>) -> bool,
    i: int,
    j: int,
)
    requires
        crate::order::is_order(le),
        forall|a: int, b: int| 0 <= a < b < s.len() ==> (#[trigger] s[a]).id < (#[trigger] s[b]).id,
        0 <= i < j < sort_by(s, le).len(),
    ensures
        sort_by(s, le)[i].id != sort_by(s, le)[j].id,
{
    let t = sort_by(s, le);
    lemma_sort(s, le);
    let p = |r: RowView<V>| s.contains(r);
    assert forall|k: int| 0 <= k < s.len() implies p(#[trigger] s[k]) by {}
    lemma_sort_keeps(s, le, p);
    assert(p(t[i]) && p(t[j]));
    if t[i].id == t[j].id {
        let a = choose|a: int| 0 <= a < s.len() && s[a] == t[i];
        let b = choose|b: int| 0 <= b < s.len() && s[b] == t[j];
        assert(a == b) by {
            if a < b {
                assert(s[a].id < s[b].id);
            }
            if b < a {
                assert(s[b].id < s[a].id);
            }
        }
        assert(s.no_duplicates()) by {
            assert forall|x: int, y: int| 0 <= x < s.len() && 0 <= y < s.len() && x != y implies s[x] != s[y] by {
                if x < y {
                    assert(s[x].id < s[y].id);
                } else {
                    assert(s[y].id < s[x].id);
                }
            }
        }
        s.lemma_multiset_has_no_duplicates();
        t.lemma_multiset_has_no_duplicates_conv();
        assert(t[i] != t[j]);
    }
}

/// A query finds exactly the rows that meet each criterion it gives, above the
/// height it gives, and lists them from the newest down.
pub proof fn law_query_lists_newest_first<V>(
    log: Seq<RowView<V>>,
    name: Option<Seq<char>>,
    action: Option<Action>,
    since: Option<u32>,
)
    requires
        ids_ascend(log),
    ensures
        ({
            let found = sort_by(log.filter(asked_for(name, action, since)), newest_first());
            &&& found.len() == log.filter(asked_for(name, action, since)).len()
            &&& forall|r: RowView<V>| #[trigger]
                found.contains(r) <==> {
                    &&& log.contains(r)
                    &&& name matches Some(n) ==> r.record.name == n
                    &&& action matches Some(a) ==> r.record.action == (match a {
                        Action::Claim => "claim"@,
                        Action::Update => "update"@,
                        Action::Release => "release"@,
                    })
                    &&& since matches Some(h) ==> r.record.height > h
                }
            &&& forall|i: int, j: int|
                0 <= i < j < found.len() ==> (#[trigger] found[i]).record.height > (
                #[trigger] found[j]).record.height || (found[i].record.height == found[j].record.height
                    && found[i].id > found[j].id)
        }),
{
    let want = asked_for(name, action, since);
    let kept = log.filter(want);
    let found = sort_by(kept, newest_first());
    lemma_log_orders::<V>();
    lemma_sort(kept, newest_first());
    assert forall|r: RowView<V>| #[trigger] found.contains(r) <==> log.contains(r) && want(r) by {
        lemma_selection(log, want, newest_first(), r);
    }
    lemma_ids_differ(log, want);
    assert forall|i: int, j: int| 0 <= i < j < found.len() implies (#[trigger] found[i]).record.height > (
    #[trigger] found[j]).record.height || (found[i].record.height == found[j].record.height && found[i].id
        > found[j].id) by {
        assert(newest_first()(found[i], found[j]));
        lemma_sort_differs(kept, newest_first(), i, j);
    }
}

/// A name's history is exactly its rows, from the oldest up.
pub proof fn law_history_lists_oldest_first<V>(log: Seq<RowView<V>>, name: Seq<char>)
    requires
        ids_ascend(log),
    ensures
        ({
            let rows = sort_by(log.filter(of_name(name)), chain_order());
            &&& rows.len() == log.filter(of_name(name)).len()
            &&& forall|r: RowView<V>| #[trigger]
                rows.contains(r) <==> log.contains(r) && r.record.name == name
            &&& forall|i: int, j: int|
                0 <= i < j < rows.len() ==> (#[trigger] rows[i]).record.height < (
                #[trigger] rows[j]).record.height || (rows[i].record.height == rows[j].record.height
                    && rows[i].id < rows[j].id)
        }),
{
    let want = of_name(name);
    let kept = log.filter(want);
    let rows = sort_by(kept, chain_order());
    lemma_log_orders::<V>();
    lemma_sort(kept, chain_order());
    assert forall|r: RowView<V>| #[trigger] rows.contains(r) <==> log.contains(r) && r.record.name == name by {
        lemma_selection(log, want, chain_order(), r);
    }
    lemma_ids_differ(log, want);
    assert forall|i: int, j: int| 0 <= i < j < rows.len() implies (#[trigger] rows[i]).record.height < (
    #[trigger] rows[j]).record.height || (rows[i].record.height == rows[j].record.height && rows[i].id
        < rows[j].id) by {
        assert(chain_order()(rows[i], rows[j]));
        lemma_sort_differs(kept, chain_order(), i, j);
    }
}

/// Row ids count up from 1: each row has the id behind the last one's.
pub proof fn law_ids_count_up<V>(log: Seq<RowView<V>>, record: RecordView<V>)
    requires
        ids_ascend(log),
        log.len() > 0 ==> log[log.len() - 1].id < i64::MAX,
    ensures
        ({
            let next = appended(log, record);
            &&& next.len() == log.len() + 1
            &&& next.drop_last() == log
            &&& next.last().record == record
            &&& next.last().id == (if log.len() == 0 {
                1
            } else {
                log[log.len() - 1].id + 1
            })
        }),
{
    assert(appended(log, record).drop_last() =~= log);
}

} // verus!
