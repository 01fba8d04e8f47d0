//! The append-only action log.
//!
//! A log row is one recorded action with its row id; rows stand in insertion
//! order, so ids ascend. The newest row of a name is its tip.

use vstd::prelude::*;

use crate::kernel::Action;
use crate::order::{is_order, is_sorted, lemma_filter_sorted, lemma_insert_at, sort_by};
use crate::store::Duplicate;
use crate::text::{copy_bytes, text_eq};

pub mod laws;

verus! {

/// The columns of one recorded action, with a store's further columns `X`.
pub struct Record<X> {
    pub name: String,
    pub height: i64,
    pub action: String,
    pub ua: String,
    pub rcm: Vec<u8>,
    pub cmx: Vec<u8>,
    pub txid: Vec<u8>,
    pub action_index: i64,
    pub extra: X,
}

#[verifier::ext_equal]
pub struct RecordView<V> {
    pub name: Seq<char>,
    pub height: i64,
    pub action: Seq<char>,
    pub ua: Seq<char>,
    pub rcm: Seq<u8>,
    pub cmx: Seq<u8>,
    pub txid: Seq<u8>,
    pub action_index: i64,
    pub extra: V,
}

impl<X: View> View for Record<X> {
    type V = RecordView<X::V>;

    open spec fn view(&self) -> RecordView<X::V> {
        RecordView {
            name: self.name@,
            height: self.height,
            action: self.action@,
            ua: self.ua@,
            rcm: self.rcm@,
            cmx: self.cmx@,
            txid: self.txid@,
            action_index: self.action_index,
            extra: self.extra@,
        }
    }
}

impl<X: Duplicate> Duplicate for Record<X> {
    fn duplicate(&self) -> (r: Self) {
        Record {
            name: self.name.clone(),
            height: self.height,
            action: self.action.clone(),
            ua: self.ua.clone(),
            rcm: copy_bytes(self.rcm.as_slice()),
            cmx: copy_bytes(self.cmx.as_slice()),
            txid: copy_bytes(self.txid.as_slice()),
            action_index: self.action_index,
            extra: self.extra.duplicate(),
        }
    }
}

/// A recorded action under its row id.
pub struct LogRow<X> {
    pub id: i64,
    pub record: Record<X>,
}

#[verifier::ext_equal]
pub struct RowView<V> {
    pub id: i64,
    pub record: RecordView<V>,
}

impl<X: View> View for LogRow<X> {
    type V = RowView<X::V>;

    open spec fn view(&self) -> RowView<X::V> {
        RowView { id: self.id, record: self.record@ }
    }
}

/// The views of a sequence's elements.
pub open spec fn views<T: View>(s: Seq<T>) -> Seq<T::V> {
    Seq::new(s.len(), |i: int| s[i]@)
}

// ── the log ─────────────────────────────────────────────────────────────────

/// Row ids ascend from 1 on.
pub open spec fn ids_ascend<V>(log: Seq<RowView<V>>) -> bool {
    &&& forall|i: int| 0 <= i < log.len() ==> 1 <= #[trigger] log[i].id
    &&& forall|i: int, j: int| 0 <= i < j < log.len() ==> (#[trigger] log[i]).id < (#[trigger] log[j]).id
}

/// The id of the row appended next.
pub open spec fn next_id<V>(log: Seq<RowView<V>>) -> int {
    if log.len() == 0 {
        1
    } else {
        log.last().id + 1
    }
}

/// `n` further rows have ids.
pub open spec fn has_room<V>(log: Seq<RowView<V>>, n: nat) -> bool {
    next_id(log) + n <= i64::MAX
}

/// `record` appended to the log.
pub open spec fn appended<V>(log: Seq<RowView<V>>, record: RecordView<V>) -> Seq<RowView<V>> {
    log.push(RowView { id: next_id(log) as i64, record })
}

/// `a` was recorded above `b`: at a greater height, or at the same height and
/// later.
pub open spec fn is_newer<V>(a: RowView<V>, b: RowView<V>) -> bool {
    a.record.height > b.record.height || (a.record.height == b.record.height && a.id > b.id)
}

/// The newest row of `name`.
pub open spec fn latest<V>(log: Seq<RowView<V>>, name: Seq<char>) -> Option<RowView<V>>
    decreases log.len(),
{
    if log.len() == 0 {
        None
    } else {
        let before = latest(log.drop_last(), name);
        if log.last().record.name != name {
            before
        } else if before is Some && is_newer(before->0, log.last()) {
            before
        } else {
            Some(log.last())
        }
    }
}

/// The rows at or below the height `fork`.
pub open spec fn through<V>(log: Seq<RowView<V>>, fork: int) -> Seq<RowView<V>> {
    log.filter(|r: RowView<V>| r.record.height <= fork)
}

/// Newest first: by height and row id, both descending.
pub open spec fn newest_first<V>() -> spec_fn(RowView<V>, RowView<V>) -> bool {
    |a: RowView<V>, b: RowView<V>| !is_newer(b, a)
}

/// Chain order: by height and row id, both ascending.
pub open spec fn chain_order<V>() -> spec_fn(RowView<V>, RowView<V>) -> bool {
    |a: RowView<V>, b: RowView<V>| !is_newer(a, b)
}

/// The rows that a query for `name`, `action` and heights strictly above
/// `since` asks for; an absent criterion admits every row.
pub open spec fn asked_for<V>(
    name: Option<Seq<char>>,
    action: Option<Action>,
    since: Option<u32>,
) -> spec_fn(RowView<V>) -> bool {
    |r: RowView<V>|
        (name is None || r.record.name == name->0) && (action is None || r.record.action
            == action->0.text()) && (since is None || r.record.height > since->0)
}

/// The rows of one name.
pub open spec fn of_name<V>(name: Seq<char>) -> spec_fn(RowView<V>) -> bool {
    |r: RowView<V>| r.record.name == name
}

pub proof fn lemma_log_orders<V>()
    ensures
        is_order(newest_first::<V>()),
        is_order(chain_order::<V>()),
{
}

/// The tip of a name is one of its rows, and no row of the name is newer.
pub proof fn lemma_latest<V>(log: Seq<RowView<V>>, name: Seq<char>)
    ensures
        match latest(log, name) {
            Some(r) => {
                &&& log.contains(r)
                &&& r.record.name == name
                &&& forall|i: int|
                    0 <= i < log.len() && #[trigger] log[i].record.name == name ==> !is_newer(
                        log[i],
                        r,
                    )
            },
            None => forall|i: int| 0 <= i < log.len() ==> #[trigger] log[i].record.name != name,
        },
    decreases log.len(),
{
    if log.len() > 0 {
        let init = log.drop_last();
        lemma_latest(init, name);
        assert(log.last() == log[log.len() - 1]);
        assert forall|i: int| 0 <= i < log.len() - 1 implies #[trigger] log[i] == init[i] by {}
        if latest(init, name) is Some {
            let b = latest(init, name)->0;
            let k = choose|k: int| 0 <= k < init.len() && init[k] == b;
            assert(log[k] == b);
            assert forall|i: int|
                0 <= i < log.len() && #[trigger] log[i].record.name == name implies !is_newer(
                log[i],
                latest(log, name)->0,
            ) by {
                if i < log.len() - 1 {
                    assert(!is_newer(init[i], b));
                }
            }
        } else {
            assert forall|i: int| 0 <= i < log.len() - 1 implies #[trigger] log[i].record.name != name by {
                assert(init[i].record.name != name);
            }
        }
    }
}

/// The tip of `name` is the row `r` where `r` is in the log and every other
/// row of the name is older.
pub proof fn lemma_latest_is<V>(log: Seq<RowView<V>>, name: Seq<char>, k: int)
    requires
        0 <= k < log.len(),
        log[k].record.name == name,
        forall|i: int|
            0 <= i < log.len() && i != k && #[trigger] log[i].record.name == name ==> is_newer(
                log[k],
                log[i],
            ),
    ensures
        latest(log, name) == Some(log[k]),
{
    lemma_latest(log, name);
    if latest(log, name) is None {
        assert(log[k].record.name != name);
    } else {
        let r = latest(log, name)->0;
        let i = choose|i: int| 0 <= i < log.len() && log[i] == r;
        if i != k {
            assert(is_newer(log[k], log[i]));
            assert(!is_newer(log[k], r));
        }
    }
}

/// Rows added for other names leave a name's tip alone.
pub proof fn lemma_latest_other<V>(log: Seq<RowView<V>>, row: RowView<V>, name: Seq<char>)
    requires
        row.record.name != name,
    ensures
        latest(log.push(row), name) == latest(log, name),
{
    assert(log.push(row).drop_last() =~= log);
}

/// A row at least as high as the name's tip, with a greater id, becomes the tip.
pub proof fn lemma_latest_appended<V>(log: Seq<RowView<V>>, row: RowView<V>)
    requires
        forall|i: int|
            0 <= i < log.len() && #[trigger] log[i].record.name == row.record.name ==> !is_newer(
                log[i],
                row,
            ),
    ensures
        latest(log.push(row), row.record.name) == Some(row),
{
    assert(log.push(row).drop_last() =~= log);
    lemma_latest(log, row.record.name);
    if latest(log, row.record.name) is Some {
        let b = latest(log, row.record.name)->0;
        let k = choose|k: int| 0 <= k < log.len() && log[k] == b;
        assert(!is_newer(log[k], row));
    }
}

pub proof fn lemma_through_is_prefix_stable<V>(log: Seq<RowView<V>>, fork: int)
    requires
        ids_ascend(log),
    ensures
        ids_ascend(through(log, fork)),
        forall|i: int| 0 <= i < through(log, fork).len() ==> #[trigger] through(log, fork)[i].record.height
            <= fork,
        forall|r: RowView<V>| #[trigger]
            through(log, fork).contains(r) <==> log.contains(r) && r.record.height <= fork,
        next_id(through(log, fork)) <= next_id(log),
    decreases log.len(),
{
    let p = |r: RowView<V>| r.record.height <= fork;
    reveal(Seq::filter);
    if log.len() > 0 {
        let init = log.drop_last();
        let last = log.last();
        lemma_through_is_prefix_stable(init, fork);
        let f = through(init, fork);
        assert(last == log[log.len() - 1]);
        assert forall|r: RowView<V>| log.contains(r) <==> init.contains(r) || r == last by {
            if log.contains(r) {
                let i = choose|i: int| 0 <= i < log.len() && log[i] == r;
                if i < log.len() - 1 {
                    assert(init[i] == r);
                }
            }
            if init.contains(r) {
                let i = choose|i: int| 0 <= i < init.len() && init[i] == r;
                assert(log[i] == r);
            }
        }
        assert forall|i: int| 0 <= i < f.len() implies #[trigger] f[i].id < last.id && f[i].id >= 1 by {
            assert(f.contains(f[i]));
            let k = choose|k: int| 0 <= k < init.len() && init[k] == f[i];
            assert(log[k] == f[i]);
        }
        if p(last) {
            assert(through(log, fork) == f.push(last));
            assert forall|r: RowView<V>| #[trigger] f.push(last).contains(r) <==> f.contains(r) || r == last by {
                if f.contains(r) {
                    let i = choose|i: int| 0 <= i < f.len() && f[i] == r;
                    assert(f.push(last)[i] == r);
                }
                if r == last {
                    assert(f.push(last)[f.len() as int] == r);
                }
                if f.push(last).contains(r) && r != last {
                    let i = choose|i: int| 0 <= i < f.push(last).len() && f.push(last)[i] == r;
                    assert(f[i] == r);
                }
            }
        } else {
            assert(through(log, fork) == f);
        }
    }
}

/// Dropping the rows above a fork leaves the tip of a name whose rows are all
/// below it.
pub proof fn lemma_latest_through<V>(log: Seq<RowView<V>>, fork: int, name: Seq<char>)
    requires
        forall|i: int|
            0 <= i < log.len() && #[trigger] log[i].record.name == name ==> log[i].record.height
                <= fork,
    ensures
        latest(through(log, fork), name) == latest(log, name),
    decreases log.len(),
{
    reveal(Seq::filter);
    if log.len() > 0 {
        let init = log.drop_last();
        assert forall|i: int| 0 <= i < init.len() && #[trigger] init[i].record.name == name implies init[i].record.height
            <= fork by {
            assert(log[i] == init[i]);
        }
        lemma_latest_through(init, fork, name);
        let last = log.last();
        assert(last == log[log.len() - 1]);
        if last.record.height <= fork {
            assert(through(log, fork) == through(init, fork).push(last));
            assert(through(init, fork).push(last).drop_last() =~= through(init, fork));
        }
    }
}

pub proof fn lemma_filter_step<T>(s: Seq<T>, k: int, pred: spec_fn(T) -> bool)
    requires
        0 <= k < s.len(),
    ensures
        s.take(k + 1).filter(pred) == (if pred(s[k]) {
            s.take(k).filter(pred).push(s[k])
        } else {
            s.take(k).filter(pred)
        }),
{
    reveal(Seq::filter);
    assert(s.take(k + 1).drop_last() =~= s.take(k));
}

/// The newest row of `name`.
pub fn find_latest<'a, X: View>(rows: &'a Vec<LogRow<X>>, name: &str) -> (r: Option<&'a LogRow<X>>)
    ensures
        match r {
            Some(row) => latest(views(rows@), name@) == Some(row@),
            None => latest(views(rows@), name@) is None,
        },
{
    let mut best: Option<&'a LogRow<X>> = None;
    let mut i: usize = 0;
    let ghost log = views(rows@);
    while i < rows.len()
        invariant
            i <= rows.len(),
            log == views(rows@),
            match best {
                Some(row) => latest(log.take(i as int), name@) == Some(row@),
                None => latest(log.take(i as int), name@) is None,
            },
        decreases rows.len() - i,
    {
        assert(log.take(i + 1).drop_last() =~= log.take(i as int));
        let row = &rows[i];
        if text_eq(row.record.name.as_str(), name) {
            match best {
                Some(b) => {
                    if !(b.record.height > row.record.height || (b.record.height == row.record.height
                        && b.id > row.id)) {
                        best = Some(row);
                    }
                },
                None => {
                    best = Some(row);
                },
            }
        }
        i += 1;
    }
    assert(log.take(log.len() as int) =~= log);
    best
}

/// Drops the rows above `fork`.
pub fn drop_above<X: View>(rows: &mut Vec<LogRow<X>>, fork: i64)
    ensures
        views(final(rows)@) == through(views(old(rows)@), fork as int),
{
    let ghost log = views(rows@);
    let ghost p = |r: RowView<X::V>| r.record.height <= fork;
    let mut i: usize = 0;
    let ghost mut done: int = 0;
    assert(log.skip(0) =~= log);
    assert(views(rows@) =~= log.take(0).filter(p) + log.skip(0)) by {
        reveal(Seq::filter);
    }
    while i < rows.len()
        invariant
            p == (|r: RowView<X::V>| r.record.height <= fork),
            0 <= done <= log.len(),
            i == log.take(done).filter(p).len(),
            i <= rows.len(),
            rows.len() - i == log.len() - done,
            views(rows@) == log.take(done).filter(p) + log.skip(done),
        decreases rows.len() - i,
    {
        proof {
            lemma_filter_step(log, done, p);
            assert(views(rows@)[i as int] == log[done]);
        }
        if rows[i].record.height > fork {
            let ghost before = views(rows@);
            rows.remove(i);
            proof {
                assert(views(rows@) =~= before.remove(i as int));
                assert(before.remove(i as int) =~= log.take(done).filter(p) + log.skip(done + 1));
                done = done + 1;
            }
        } else {
            i += 1;
            proof {
                assert(views(rows@) =~= log.take(done).filter(p).push(log[done]) + log.skip(done + 1));
                done = done + 1;
            }
        }
    }
    proof {
        assert(log.take(done) =~= log);
        assert(log.skip(done) =~= Seq::empty());
        assert(views(rows@) =~= log.filter(p));
    }
}

/// Appends a record under the next id.
pub fn append<X: View>(rows: &mut Vec<LogRow<X>>, record: Record<X>)
    requires
        has_room(views(old(rows)@), 0),
    ensures
        views(final(rows)@) == appended(views(old(rows)@), record@),
{
    let id: i64 = if rows.len() == 0 {
        1
    } else {
        assert(views(rows@).last() == rows@[rows@.len() - 1]@);
        rows[rows.len() - 1].id + 1
    };
    let ghost log = views(rows@);
    rows.push(LogRow { id, record });
    assert(views(rows@) =~= appended(log, record@));
}

/// The rows asked for, newest first.
pub fn select_newest_first<'a, X: View>(
    rows: &'a Vec<LogRow<X>>,
    name: Option<&str>,
    action: Option<Action>,
    since: Option<u32>,
) -> (r: Vec<&'a LogRow<X>>)
    ensures
        views(r@) == sort_by(
            views(rows@).filter(
                asked_for(
                    match name {
                        Some(n) => Some(n@),
                        None => None,
                    },
                    action,
                    since,
                ),
            ),
            newest_first(),
        ),
{
    let ghost log = views(rows@);
    let ghost want: spec_fn(RowView<X::V>) -> bool = asked_for(
        match name {
            Some(n) => Some(n@),
            None => None,
        },
        action,
        since,
    );
    let mut out: Vec<&'a LogRow<X>> = Vec::new();
    let mut i: usize = 0;
    assert(views(out@) =~= sort_by(log.take(0).filter(want), newest_first())) by {
        reveal(Seq::filter);
    }
    while i < rows.len()
        invariant
            i <= rows.len(),
            log == views(rows@),
            want == asked_for::<X::V>(
                match name {
                    Some(n) => Some(n@),
                    None => None,
                },
                action,
                since,
            ),
            views(out@) == sort_by(log.take(i as int).filter(want), newest_first()),
        decreases rows.len() - i,
    {
        let row = &rows[i];
        proof {
            lemma_filter_step(log, i as int, want);
        }
        let name_fits = match name {
            Some(n) => text_eq(row.record.name.as_str(), n),
            None => true,
        };
        let action_fits = match action {
            Some(a) => text_eq(row.record.action.as_str(), a.as_str()),
            None => true,
        };
        let since_fits = match since {
            Some(s) => row.record.height > s as i64,
            None => true,
        };
        if name_fits && action_fits && since_fits {
            let ghost kept = log.take(i as int).filter(want);
            let mut p: usize = out.len();
            while p > 0 && (row.record.height > out[p - 1].record.height || (row.record.height
                == out[p - 1].record.height && row.id > out[p - 1].id))
                invariant
                    p <= out.len(),
                    forall|j: int| p <= j < out.len() ==> is_newer(row@, #[trigger] views(out@)[j]),
                decreases p,
            {
                p -= 1;
                assert(views(out@)[p as int] == out@[p as int]@);
            }
            proof {
                let s = views(out@);
                if p > 0 {
                    assert(s[p - 1] == out@[p - 1]@);
                }
                assert forall|j: int| p <= j < s.len() implies !newest_first::<X::V>()(
                    #[trigger] s[j],
                    row@,
                ) by {}
                lemma_insert_at(s, row@, newest_first(), p as int);
                assert(kept.push(row@).drop_last() =~= kept);
            }
            let ghost before = views(out@);
            out.insert(p, row);
            assert(views(out@) =~= before.insert(p as int, row@));
        }
        i += 1;
    }
    assert(log.take(log.len() as int) =~= log);
    out
}

/// A name's rows in chain order.
pub fn select_chain<'a, X: View>(rows: &'a Vec<LogRow<X>>, name: &str) -> (r: Vec<&'a LogRow<X>>)
    ensures
        views(r@) == sort_by(views(rows@).filter(of_name(name@)), chain_order()),
{
    let ghost log = views(rows@);
    let ghost want: spec_fn(RowView<X::V>) -> bool = of_name(name@);
    let mut out: Vec<&'a LogRow<X>> = Vec::new();
    let mut i: usize = 0;
    assert(views(out@) =~= sort_by(log.take(0).filter(want), chain_order())) by {
        reveal(Seq::filter);
    }
    while i < rows.len()
        invariant
            i <= rows.len(),
            log == views(rows@),
            want == of_name::<X::V>(name@),
            views(out@) == sort_by(log.take(i as int).filter(want), chain_order()),
        decreases rows.len() - i,
    {
        let row = &rows[i];
        proof {
            lemma_filter_step(log, i as int, want);
        }
        if text_eq(row.record.name.as_str(), name) {
            let ghost kept = log.take(i as int).filter(want);
            let mut p: usize = out.len();
            while p > 0 && (out[p - 1].record.height > row.record.height || (out[p - 1].record.height
                == row.record.height && out[p - 1].id > row.id))
                invariant
                    p <= out.len(),
                    forall|j: int| p <= j < out.len() ==> is_newer(#[trigger] views(out@)[j], row@),
                decreases p,
            {
                p -= 1;
                assert(views(out@)[p as int] == out@[p as int]@);
            }
            proof {
                let s = views(out@);
                if p > 0 {
                    assert(s[p - 1] == out@[p - 1]@);
                }
                assert forall|j: int| p <= j < s.len() implies !chain_order::<X::V>()(
                    #[trigger] s[j],
                    row@,
                ) by {}
                lemma_insert_at(s, row@, chain_order(), p as int);
                assert(kept.push(row@).drop_last() =~= kept);
            }
            let ghost before = views(out@);
            out.insert(p, row);
            assert(views(out@) =~= before.insert(p as int, row@));
        }
        i += 1;
    }
    assert(log.take(log.len() as int) =~= log);
    out
}

/// The newest row of `name` at or below `fork`.
pub fn find_latest_through<'a, X: View>(rows: &'a Vec<LogRow<X>>, name: &str, fork: i64) -> (r: Option<
    &'a LogRow<X>,
>)
    ensures
        match r {
            Some(row) => latest(through(views(rows@), fork as int), name@) == Some(row@),
            None => latest(through(views(rows@), fork as int), name@) is None,
        },
{
    let mut best: Option<&'a LogRow<X>> = None;
    let mut i: usize = 0;
    let ghost log = views(rows@);
    let ghost p = |r: RowView<X::V>| r.record.height <= fork as int;
    assert(log.take(0).filter(p) =~= Seq::empty()) by {
        reveal(Seq::filter);
    }
    while i < rows.len()
        invariant
            i <= rows.len(),
            log == views(rows@),
            p == (|r: RowView<X::V>| r.record.height <= fork as int),
            match best {
                Some(row) => latest(log.take(i as int).filter(p), name@) == Some(row@),
                None => latest(log.take(i as int).filter(p), name@) is None,
            },
        decreases rows.len() - i,
    {
        let row = &rows[i];
        proof {
            lemma_filter_step(log, i as int, p);
            let kept = log.take(i as int).filter(p);
            assert(kept.push(log[i as int]).drop_last() =~= kept);
        }
        if row.record.height <= fork && text_eq(row.record.name.as_str(), name) {
            match best {
                Some(b) => {
                    if !(b.record.height > row.record.height || (b.record.height == row.record.height
                        && b.id > row.id)) {
                        best = Some(row);
                    }
                },
                None => {
                    best = Some(row);
                },
            }
        }
        i += 1;
    }
    assert(log.take(log.len() as int) =~= log);
    best
}

/// The names with a row above `fork`, each once, by their first such row.
pub open spec fn names_above<V>(log: Seq<RowView<V>>, fork: int) -> Seq<Seq<char>>
    decreases log.len(),
{
    if log.len() == 0 {
        Seq::empty()
    } else {
        let before = names_above(log.drop_last(), fork);
        if log.last().record.height > fork && !before.contains(log.last().record.name) {
            before.push(log.last().record.name)
        } else {
            before
        }
    }
}

/// Exactly the names of the rows above the fork.
pub proof fn lemma_names_above<V>(log: Seq<RowView<V>>, fork: int, name: Seq<char>)
    ensures
        names_above(log, fork).contains(name) <==> exists|i: int|
            0 <= i < log.len() && (#[trigger] log[i]).record.height > fork && log[i].record.name == name,
    decreases log.len(),
{
    if log.len() > 0 {
        let init = log.drop_last();
        let last = log.last();
        lemma_names_above(init, fork, name);
        let before = names_above(init, fork);
        assert(last == log[log.len() - 1]);
        assert(before.push(last.record.name).contains(name) <==> before.contains(name) || name
            == last.record.name) by {
            if before.contains(name) {
                let i = choose|i: int| 0 <= i < before.len() && before[i] == name;
                assert(before.push(last.record.name)[i] == name);
            }
            if name == last.record.name {
                assert(before.push(last.record.name)[before.len() as int] == name);
            }
        }
        if exists|i: int|
            0 <= i < log.len() && (#[trigger] log[i]).record.height > fork && log[i].record.name == name {
            let i = choose|i: int|
                0 <= i < log.len() && (#[trigger] log[i]).record.height > fork && log[i].record.name
                    == name;
            if i < log.len() - 1 {
                assert(init[i] == log[i]);
            }
        }
        if exists|i: int|
            0 <= i < init.len() && (#[trigger] init[i]).record.height > fork && init[i].record.name
                == name {
            let i = choose|i: int|
                0 <= i < init.len() && (#[trigger] init[i]).record.height > fork && init[i].record.name
                    == name;
            assert(log[i] == init[i]);
        }
    }
}

pub fn select_names_above<X: View>(rows: &Vec<LogRow<X>>, fork: i64) -> (r: Vec<String>)
    ensures
        views(r@) == names_above(views(rows@), fork as int),
{
    let ghost log = views(rows@);
    let mut out: Vec<String> = Vec::new();
    let mut i: usize = 0;
    assert(views(out@) =~= names_above(log.take(0), fork as int));
    while i < rows.len()
        invariant
            i <= rows.len(),
            log == views(rows@),
            views(out@) == names_above(log.take(i as int), fork as int),
        decreases rows.len() - i,
    {
        let row = &rows[i];
        assert(log.take(i + 1).drop_last() =~= log.take(i as int));
        if row.record.height > fork && !has_text(&out, row.record.name.as_str()) {
            let ghost before = views(out@);
            out.push(row.record.name.clone());
            assert(views(out@) =~= before.push(row.record.name@));
        }
        i += 1;
    }
    assert(log.take(log.len() as int) =~= log);
    out
}

fn has_text(list: &Vec<String>, text: &str) -> (r: bool)
    ensures
        r == views(list@).contains(text@),
{
    let mut i: usize = 0;
    while i < list.len()
        invariant
            i <= list.len(),
            forall|j: int| 0 <= j < i ==> #[trigger] views(list@)[j] != text@,
        decreases list.len() - i,
    {
        assert(views(list@)[i as int] == list@[i as int]@);
        if text_eq(list[i].as_str(), text) {
            return true;
        }
        i += 1;
    }
    false
}

/// Whether `n` further rows have ids.
pub fn fits<X: View>(rows: &Vec<LogRow<X>>, n: usize) -> (r: bool)
    ensures
        r == has_room(views(rows@), n as nat),
{
    let next: i128 = if rows.len() == 0 {
        1
    } else {
        assert(views(rows@).last() == rows@[rows@.len() - 1]@);
        rows[rows.len() - 1].id as i128 + 1
    };
    next + n as i128 <= i64::MAX as i128
}

// ── heights ─────────────────────────────────────────────────────────────────

/// Heights never fall along the log.
pub open spec fn heights_rise<V>(log: Seq<RowView<V>>) -> bool {
    forall|i: int, j: int|
        0 <= i < j < log.len() ==> (#[trigger] log[i]).record.height <= (
        #[trigger] log[j]).record.height
}

/// Every row is at or below `height`.
pub open spec fn all_through<V>(log: Seq<RowView<V>>, height: int) -> bool {
    forall|i: int| 0 <= i < log.len() ==> (#[trigger] log[i]).record.height <= height
}

/// On a log whose heights rise, the rows through a fork are its beginning.
pub proof fn lemma_through_is_prefix<V>(log: Seq<RowView<V>>, fork: int)
    requires
        heights_rise(log),
    ensures
        through(log, fork).len() <= log.len(),
        through(log, fork) == log.take(through(log, fork).len() as int),
        forall|i: int|
            through(log, fork).len() <= i < log.len() ==> (#[trigger] log[i]).record.height > fork,
    decreases log.len(),
{
    reveal(Seq::filter);
    if log.len() == 0 {
        assert(through(log, fork) =~= log.take(0));
    } else {
        let init = log.drop_last();
        let last = log.last();
        let n = log.len() as int;
        assert(last == log[n - 1]);
        assert forall|i: int, j: int| 0 <= i < j < init.len() implies (#[trigger] init[i]).record.height
            <= (#[trigger] init[j]).record.height by {
            assert(log[i].record.height <= log[j].record.height);
        }
        lemma_through_is_prefix(init, fork);
        let k = through(init, fork).len() as int;
        if last.record.height <= fork {
            if k < init.len() {
                assert(init[k].record.height > fork);
                assert(log[k].record.height <= log[n - 1].record.height);
            }
            assert(init.take(k) =~= init);
            assert(through(log, fork) =~= log.take(n));
        } else {
            assert(through(log, fork) =~= log.take(k));
            assert forall|i: int| k <= i < n implies (#[trigger] log[i]).record.height > fork by {
                if i < n - 1 {
                    assert(init[i].record.height > fork);
                }
            }
        }
    }
}

pub proof fn lemma_through_all<V>(log: Seq<RowView<V>>, fork: int)
    requires
        all_through(log, fork),
    ensures
        through(log, fork) == log,
    decreases log.len(),
{
    reveal(Seq::filter);
    if log.len() > 0 {
        let init = log.drop_last();
        assert forall|i: int| 0 <= i < init.len() implies (#[trigger] init[i]).record.height <= fork by {
            assert(log[i].record.height <= fork);
        }
        lemma_through_all(init, fork);
        assert(log[log.len() - 1].record.height <= fork);
        assert(init.push(log.last()) =~= log);
    }
}

pub proof fn lemma_through_twice<V>(log: Seq<RowView<V>>, first: int, second: int)
    requires
        second <= first,
    ensures
        through(through(log, first), second) == through(log, second),
    decreases log.len(),
{
    reveal(Seq::filter);
    if log.len() > 0 {
        let init = log.drop_last();
        let last = log.last();
        lemma_through_twice(init, first, second);
        let t = through(init, first);
        if last.record.height <= first {
            assert(through(log, first) == t.push(last));
            assert(t.push(last).drop_last() =~= t);
        }
    }
}

/// A row at the height the log has reached goes on top of it: ids and heights
/// still rise, and no row is newer.
pub proof fn lemma_append_order<V>(log: Seq<RowView<V>>, record: RecordView<V>, height: int)
    requires
        ids_ascend(log),
        heights_rise(log),
        all_through(log, height),
        record.height == height,
        next_id(log) <= i64::MAX,
    ensures
        ids_ascend(appended(log, record)),
        heights_rise(appended(log, record)),
        all_through(appended(log, record), height),
        next_id(appended(log, record)) == next_id(log) + 1,
        appended(log, record).last().record == record,
        latest(appended(log, record), record.name) == Some(appended(log, record).last()),
        forall|m: Seq<char>|
            m != record.name ==> #[trigger] latest(appended(log, record), m) == latest(log, m),
{
    let next = appended(log, record);
    let row = next.last();
    let n = log.len() as int;
    assert(n > 0 ==> log.last() == log[n - 1]);
    assert(next[n].record == record);
    assert forall|i: int| 0 <= i < n implies next[i] == #[trigger] log[i] && log[i].id < next[n].id by {
        if i < n - 1 {
            assert(log[i].id < log[n - 1].id);
        }
    }
    assert(ids_ascend(next)) by {
        assert forall|i: int| 0 <= i < next.len() implies 1 <= #[trigger] next[i].id by {
            if i < n {
                assert(1 <= log[i].id);
            } else if n > 0 {
                assert(1 <= log[n - 1].id);
            }
        }
        assert forall|i: int, j: int| 0 <= i < j < next.len() implies (#[trigger] next[i]).id < (
        #[trigger] next[j]).id by {
            assert(next[i] == log[i]);
            if j < n {
                assert(log[i].id < log[j].id);
            }
        }
    }
    assert(heights_rise(next)) by {
        assert forall|i: int, j: int| 0 <= i < j < next.len() implies (#[trigger] next[i]).record.height
            <= (#[trigger] next[j]).record.height by {
            assert(next[i] == log[i]);
            if j < n {
                assert(log[i].record.height <= log[j].record.height);
            }
        }
    }
    assert(all_through(next, height)) by {
        assert forall|i: int| 0 <= i < next.len() implies (#[trigger] next[i]).record.height <= height by {
            if i < n {
                assert(log[i].record.height <= height);
            }
        }
    }
    assert forall|i: int| 0 <= i < log.len() && #[trigger] log[i].record.name == row.record.name implies !is_newer(
        log[i],
        row,
    ) by {
        assert(log[i].record.height <= height);
    }
    lemma_latest_appended(log, row);
    assert forall|m: Seq<char>| m != record.name implies #[trigger] latest(next, m) == latest(log, m) by {
        lemma_latest_other(log, row, m);
    }
}

/// The beginning of a log keeps its order.
pub proof fn lemma_prefix_order<V>(log: Seq<RowView<V>>, k: int)
    requires
        0 <= k <= log.len(),
        ids_ascend(log),
        heights_rise(log),
    ensures
        ids_ascend(log.take(k)),
        heights_rise(log.take(k)),
{
    let t = log.take(k);
    assert forall|i: int| 0 <= i < t.len() implies 1 <= #[trigger] t[i].id by {
        assert(1 <= log[i].id);
    }
    assert forall|i: int, j: int| 0 <= i < j < t.len() implies (#[trigger] t[i]).id < (
    #[trigger] t[j]).id by {
        assert(log[i].id < log[j].id);
    }
    assert forall|i: int, j: int| 0 <= i < j < t.len() implies (#[trigger] t[i]).record.height <= (
    #[trigger] t[j]).record.height by {
        assert(log[i].record.height <= log[j].record.height);
    }
}

/// On an ordered log the rows of a name are in chain order, and its newest row
/// is the last of them.
pub proof fn lemma_history<V>(log: Seq<RowView<V>>, name: Seq<char>)
    requires
        ids_ascend(log),
        heights_rise(log),
    ensures
        is_sorted(log.filter(of_name(name)), chain_order()),
        latest(log, name) == if log.filter(of_name(name)).len() == 0 {
            None
        } else {
            Some(log.filter(of_name(name)).last())
        },
    decreases log.len(),
{
    assert forall|i: int, j: int| 0 <= i < j < log.len() implies chain_order::<V>()(
        #[trigger] log[i],
        #[trigger] log[j],
    ) by {
        assert(log[i].id < log[j].id);
        assert(log[i].record.height <= log[j].record.height);
    }
    lemma_filter_sorted(log, chain_order(), of_name(name));
    reveal(Seq::filter);
    if log.len() > 0 {
        let init = log.drop_last();
        let n = log.len() as int;
        assert(init =~= log.take(n - 1));
        lemma_prefix_order(log, n - 1);
        lemma_history(init, name);
        lemma_latest(init, name);
        if latest(init, name) is Some {
            let k = choose|k: int| 0 <= k < init.len() && init[k] == latest(init, name)->0;
            assert(log[k] == init[k]);
            assert(chain_order::<V>()(log[k], log[n - 1]));
        }
    }
}

} // verus!
