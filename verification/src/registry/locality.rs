//! A name's notes decide what a batch does to the name: the notes of other names
//! do not bear on it.

use vstd::prelude::*;

use super::admission::{
    admission, block_candidates, candidate_name, candidate_order, consider_all, consideration_order,
    current_binding, derive_block, derive_group, derive_groups, derived, empty_staging, goes_first,
    goes_later, key_taken, output_candidates, read_binding, record_of, same_event, spends_update,
    tx_height, Binding, CandidateView, EventRow, NoteRecord, StagingView, TxView,
};
use super::notes::note_opening;
use crate::kernel::Action;
use crate::order::{
    insert_by, is_order, is_sorted, lemma_filter_keeps, lemma_run_len, lemma_sort, run_len, sort_by,
};
use crate::table::{entry, is_name_table, lemma_upserted, lemma_without, named};
use crate::text::{lemma_text_le_total, lemma_text_le_transitive};

verus! {

/// The notes of one name.
pub open spec fn notes_for(name: Seq<char>) -> spec_fn(CandidateView) -> bool {
    |c: CandidateView| c.note.name == name
}

/// The records of one name.
pub open spec fn records_for(name: Seq<char>) -> spec_fn(NoteRecord) -> bool {
    |r: NoteRecord| r.name == name
}

/// The name notes of `name` in a batch, in scan order.
pub open spec fn name_notes(txs: Seq<TxView>, name: Seq<char>) -> Seq<CandidateView> {
    block_candidates(txs).filter(notes_for(name))
}

/// Every name's stored state reads.
pub open spec fn all_read(names: Seq<NoteRecord>) -> bool {
    forall|m: Seq<char>| #[trigger] read_binding(names, m) is Ok
}

/// What a name's notes in one block come to, from the state `start`.
#[verifier::opaque]
pub open spec fn block_outcome(
    events: Seq<EventRow>,
    height: u32,
    group: Seq<CandidateView>,
    start: Option<Binding>,
) -> Seq<NoteRecord> {
    consider_all(
        events,
        height,
        group,
        start,
        empty_staging(),
        consideration_order(group, start),
    ).0.staged
}

pub proof fn lemma_filter_push<T>(s: Seq<T>, x: T, p: spec_fn(T) -> bool)
    ensures
        s.push(x).filter(p) == if p(x) {
            s.filter(p).push(x)
        } else {
            s.filter(p)
        },
{
    reveal(Seq::filter);
    assert(s.push(x).drop_last() =~= s);
}

proof fn lemma_key_is_local(
    events: Seq<EventRow>,
    staged: Seq<NoteRecord>,
    record: NoteRecord,
)
    ensures
        key_taken(events, staged, record) == key_taken(
            events,
            staged.filter(records_for(record.name)),
            record,
        ),
{
    broadcast use vstd::seq_lib::group_filter_ensures;

    let q = records_for(record.name);
    let kept = staged.filter(q);
    if exists|i: int| 0 <= i < staged.len() && same_event(#[trigger] staged[i], record) {
        let i = choose|i: int| 0 <= i < staged.len() && same_event(#[trigger] staged[i], record);
        assert(q(staged[i]));
        staged.lemma_filter_contains(q, i);
        let k = choose|k: int| 0 <= k < kept.len() && kept[k] == staged[i];
        assert(same_event(kept[k], record));
    }
    if exists|i: int| 0 <= i < kept.len() && same_event(#[trigger] kept[i], record) {
        let i = choose|i: int| 0 <= i < kept.len() && same_event(#[trigger] kept[i], record);
        staged.lemma_filter_contains_rev(q, kept[i]);
        let k = choose|k: int| 0 <= k < staged.len() && staged[k] == kept[i];
        assert(same_event(staged[k], record));
    }
}

/// Considering notes of a name goes by the name's own records, and adds to them
/// alone.
proof fn lemma_own_notes(
    events: Seq<EventRow>,
    height: u32,
    group: Seq<CandidateView>,
    start: Option<Binding>,
    st: StagingView,
    order: Seq<CandidateView>,
    name: Seq<char>,
)
    requires
        forall|i: int| 0 <= i < order.len() ==> (#[trigger] order[i]).note.name == name,
        st.staged.filter(records_for(name)).len() == 0,
    ensures
        ({
            let next = consider_all(events, height, group, start, st, order);
            let alone = consider_all(events, height, group, start, empty_staging(), order);
            next.0.staged.filter(records_for(name)) == alone.0.staged && next.1 == alone.1
        }),
    decreases order.len(),
{
    let q = records_for(name);
    if order.len() == 0 {
        assert(st.staged.filter(q) =~= Seq::empty());
    } else {
        let init = order.drop_last();
        let c = order.last();
        assert(c == order[order.len() - 1]);
        assert forall|i: int| 0 <= i < init.len() implies (#[trigger] init[i]).note.name == name by {
            assert(order[i] == init[i]);
        }
        lemma_own_notes(events, height, group, start, st, init, name);
        let a = consider_all(events, height, group, start, st, init);
        let b = consider_all(events, height, group, start, empty_staging(), init);
        let admitted = admission(
            a.1,
            c.note,
            c.output,
            note_opening(c.note, c.output),
            spends_update(group, start, c.output.consumed),
        );
        if let Some(adm) = admitted {
            let record = record_of(height, c, adm);
            lemma_key_is_local(events, a.0.staged, record);
            lemma_filter_push(a.0.staged, record, q);
        }
    }
}

/// Considering notes of other names leaves the name's records and its state
/// alone.
proof fn lemma_other_notes(
    events: Seq<EventRow>,
    height: u32,
    group: Seq<CandidateView>,
    start: Option<Binding>,
    st: StagingView,
    order: Seq<CandidateView>,
    name: Seq<char>,
)
    requires
        forall|i: int| 0 <= i < order.len() ==> (#[trigger] order[i]).note.name != name,
    ensures
        ({
            let next = consider_all(events, height, group, start, st, order).0;
            &&& next.staged.filter(records_for(name)) == st.staged.filter(records_for(name))
            &&& next.pending.contains_key(name) == st.pending.contains_key(name)
        }),
    decreases order.len(),
{
    if order.len() > 0 {
        let init = order.drop_last();
        let c = order.last();
        assert(c == order[order.len() - 1]);
        assert forall|i: int| 0 <= i < init.len() implies (#[trigger] init[i]).note.name != name by {
            assert(order[i] == init[i]);
        }
        lemma_other_notes(events, height, group, start, st, init, name);
        let a = consider_all(events, height, group, start, st, init);
        let admitted = admission(
            a.1,
            c.note,
            c.output,
            note_opening(c.note, c.output),
            spends_update(group, start, c.output.consumed),
        );
        if let Some(adm) = admitted {
            lemma_filter_push(a.0.staged, record_of(height, c, adm), records_for(name));
        }
    }
}

/// What holds of every note of a group holds of each in the order of
/// consideration.
proof fn lemma_order_keeps(group: Seq<CandidateView>, start: Option<Binding>, p: spec_fn(CandidateView) -> bool)
    requires
        forall|i: int| 0 <= i < group.len() ==> p(#[trigger] group[i]),
    ensures
        forall|i: int|
            0 <= i < consideration_order(group, start).len() ==> p(
                #[trigger] consideration_order(group, start)[i],
            ),
{
    let a = group.filter(goes_first(start));
    let b = group.filter(goes_later(start));
    lemma_filter_keeps(group, goes_first(start), p);
    lemma_filter_keeps(group, goes_later(start), p);
    assert forall|i: int| 0 <= i < (a + b).len() implies p(#[trigger] (a + b)[i]) by {
        if i < a.len() {
            assert((a + b)[i] == a[i]);
        } else {
            assert((a + b)[i] == b[i - a.len()]);
        }
    }
}

pub proof fn lemma_filter_none<T>(s: Seq<T>, p: spec_fn(T) -> bool)
    requires
        forall|i: int| 0 <= i < s.len() ==> !p(#[trigger] s[i]),
    ensures
        s.filter(p) == Seq::<T>::empty(),
    decreases s.len(),
{
    reveal(Seq::filter);
    if s.len() > 0 {
        assert(!p(s[s.len() - 1]));
        assert forall|i: int| 0 <= i < s.drop_last().len() implies !p(#[trigger] s.drop_last()[i]) by {
            assert(!p(s[i]));
        }
        lemma_filter_none(s.drop_last(), p);
    }
}

pub proof fn lemma_filter_every<T>(s: Seq<T>, p: spec_fn(T) -> bool)
    requires
        forall|i: int| 0 <= i < s.len() ==> p(#[trigger] s[i]),
    ensures
        s.filter(p) == s,
    decreases s.len(),
{
    reveal(Seq::filter);
    if s.len() > 0 {
        assert(p(s[s.len() - 1]));
        assert forall|i: int| 0 <= i < s.drop_last().len() implies p(#[trigger] s.drop_last()[i]) by {
            assert(p(s[i]));
        }
        lemma_filter_every(s.drop_last(), p);
        assert(s.drop_last().push(s.last()) =~= s);
    } else {
        assert(s.filter(p) =~= s);
    }
}

proof fn lemma_candidate_order()
    ensures
        is_order(candidate_order()),
{
    let le = candidate_order();
    assert forall|a: CandidateView, b: CandidateView| #[trigger] le(a, b) || le(b, a) by {
        lemma_text_le_total(a.note.name, b.note.name);
    }
    assert forall|a: CandidateView, b: CandidateView, c: CandidateView| #[trigger]
        le(a, b) && #[trigger] le(b, c) implies le(a, c) by {
        lemma_text_le_transitive(a.note.name, b.note.name, c.note.name);
    }
}

/// An insertion by name puts a note behind those of its own name, and leaves the
/// notes of another name as they are.
proof fn lemma_insert_is_stable(s: Seq<CandidateView>, x: CandidateView, name: Seq<char>)
    ensures
        insert_by(s, x, candidate_order()).filter(notes_for(name)) == s.push(x).filter(notes_for(name)),
    decreases s.len(),
{
    let le = candidate_order();
    let p = notes_for(name);
    if s.len() > 0 && !le(s.last(), x) {
        let init = s.drop_last();
        lemma_insert_is_stable(init, x, name);
        lemma_filter_push(insert_by(init, x, le), s.last(), p);
        lemma_filter_push(init, x, p);
        lemma_filter_push(init, s.last(), p);
        lemma_filter_push(s, x, p);
        assert(init.push(s.last()) =~= s);
        lemma_text_le_total(s.last().note.name, s.last().note.name);
        assert(!(p(x) && p(s.last())));
    }
}

/// Sorting by name keeps the scan order within each name.
proof fn lemma_sort_is_stable(s: Seq<CandidateView>, name: Seq<char>)
    ensures
        sort_by(s, candidate_order()).filter(notes_for(name)) == s.filter(notes_for(name)),
    decreases s.len(),
{
    if s.len() > 0 {
        let p = notes_for(name);
        let init = s.drop_last();
        let sorted = sort_by(init, candidate_order());
        lemma_sort_is_stable(init, name);
        lemma_insert_is_stable(sorted, s.last(), name);
        lemma_filter_push(sorted, s.last(), p);
        lemma_filter_push(init, s.last(), p);
        assert(init.push(s.last()) =~= s);
    }
}

/// What a block's notes, sorted by name, do to one name that no note before them
/// touched.
#[verifier::rlimit(40)]
proof fn lemma_groups_are_local(
    events: Seq<EventRow>,
    names: Seq<NoteRecord>,
    height: u32,
    st: StagingView,
    candidates: Seq<CandidateView>,
    name: Seq<char>,
)
    requires
        all_read(names),
        is_sorted(candidates, candidate_order()),
        candidates.filter(notes_for(name)).len() == 0 || (!st.pending.contains_key(name)
            && st.staged.filter(records_for(name)).len() == 0),
    ensures
        ({
            let group = candidates.filter(notes_for(name));
            derive_groups(events, names, height, st, candidates) matches Ok(next) && if group.len() == 0 {
                next.staged.filter(records_for(name)) == st.staged.filter(records_for(name))
                    && next.pending.contains_key(name) == st.pending.contains_key(name)
            } else {
                next.staged.filter(records_for(name)) == block_outcome(
                    events,
                    height,
                    group,
                    read_binding(names, name)->Ok_0,
                )
            }
        }),
    decreases candidates.len(),
{
    let p = notes_for(name);
    if candidates.len() == 0 {
        lemma_filter_none(candidates, p);
    } else {
        let key = candidate_name();
        let n = run_len(candidates, key) as int;
        lemma_run_len(candidates, key);
        let first = candidates.take(n);
        let rest = candidates.skip(n);
        let m = candidates[0].note.name;
        assert(candidates =~= first + rest);
        Seq::filter_distributes_over_add(first, rest, p);
        assert forall|i: int| 0 <= i < first.len() implies (#[trigger] first[i]).note.name == m by {
            assert(key(candidates[i]) == key(candidates[0]));
        }
        assert(is_sorted(rest, candidate_order())) by {
            assert forall|i: int, j: int| 0 <= i < j < rest.len() implies candidate_order()(
                #[trigger] rest[i],
                #[trigger] rest[j],
            ) by {
                assert(candidate_order()(candidates[n + i], candidates[n + j]));
            }
        }
        assert(read_binding(names, m) is Ok);
        let start = current_binding(names, st.pending, m)->Ok_0;
        let next = derive_group(events, names, height, st, first)->Ok_0;
        let order = consideration_order(first, start);
        if m == name {
            lemma_filter_every(first, p);
            assert forall|j: int| 0 <= j < rest.len() implies !p(#[trigger] rest[j]) by {
                lemma_run_is_over(candidates, n, n + j);
            }
            lemma_filter_none(rest, p);
            assert(first + Seq::<CandidateView>::empty() =~= first);
            lemma_order_keeps(first, start, p);
            lemma_own_notes(events, height, first, start, st, order, name);
            reveal(block_outcome);
        } else {
            assert forall|i: int| 0 <= i < first.len() implies !p(#[trigger] first[i]) by {
                assert(first[i].note.name == m);
            }
            lemma_filter_none(first, p);
            assert(Seq::<CandidateView>::empty() + rest.filter(p) =~= rest.filter(p));
            let other = |c: CandidateView| c.note.name != name;
            assert forall|i: int| 0 <= i < first.len() implies other(#[trigger] first[i]) by {
                assert(first[i].note.name == m);
            }
            lemma_order_keeps(first, start, other);
            assert forall|i: int| 0 <= i < order.len() implies (#[trigger] order[i]).note.name != name by {
                assert(other(order[i]));
            }
            lemma_other_notes(events, height, first, start, st, order, name);
        }
        lemma_groups_are_local(events, names, height, next, rest, name);
    }
}

/// Behind the run at the head of a sorted list its key does not occur.
proof fn lemma_run_is_over(s: Seq<CandidateView>, n: int, j: int)
    requires
        is_sorted(s, candidate_order()),
        n == run_len(s, candidate_name()),
        0 < n <= j < s.len(),
    ensures
        s[j].note.name != s[0].note.name,
{
    lemma_run_len(s, candidate_name());
    if s[j].note.name == s[0].note.name {
        assert(candidate_order()(s[0], s[n]));
        assert(j == n || candidate_order()(s[n], s[j]));
        lemma_text_le_total(s[0].note.name, s[n].note.name);
        assert(candidate_name()(s[n]) != candidate_name()(s[0]));
    }
}

pub proof fn lemma_candidates_split(a: Seq<TxView>, b: Seq<TxView>)
    ensures
        block_candidates(a + b) == block_candidates(a) + block_candidates(b),
    decreases b.len(),
{
    if b.len() == 0 {
        assert(a + b =~= a);
        assert(block_candidates(a) + Seq::<CandidateView>::empty() =~= block_candidates(a));
    } else {
        lemma_candidates_split(a, b.drop_last());
        assert((a + b).drop_last() =~= a + b.drop_last());
        assert((a + b).last() == b.last());
        assert((block_candidates(a) + block_candidates(b.drop_last())) + output_candidates(
            b.last().relaxed,
            b.last().txid,
        ) =~= block_candidates(a) + block_candidates(b));
    }
}

/// Transactions none of which has a note of the name have none together.
pub proof fn lemma_no_notes(txs: Seq<TxView>, name: Seq<char>)
    requires
        forall|i: int| 0 <= i < txs.len() ==> name_notes(seq![#[trigger] txs[i]], name).len() == 0,
    ensures
        name_notes(txs, name) == Seq::<CandidateView>::empty(),
    decreases txs.len(),
{
    let p = notes_for(name);
    if txs.len() == 0 {
        lemma_filter_none(block_candidates(txs), p);
    } else {
        let init = txs.drop_last();
        let last = seq![txs.last()];
        assert(txs.last() == txs[txs.len() - 1]);
        assert forall|i: int| 0 <= i < init.len() implies name_notes(seq![#[trigger] init[i]], name).len()
            == 0 by {
            assert(init[i] == txs[i]);
        }
        lemma_no_notes(init, name);
        assert(txs =~= init + last);
        lemma_candidates_split(init, last);
        Seq::filter_distributes_over_add(block_candidates(init), block_candidates(last), p);
        assert(name_notes(last, name) =~= Seq::empty());
        assert(name_notes(txs, name) =~= Seq::empty());
    }
}

/// What a batch does to one name whose notes are all in the block at `at`.
#[verifier::rlimit(40)]
pub proof fn lemma_batch_is_local(
    events: Seq<EventRow>,
    names: Seq<NoteRecord>,
    st: StagingView,
    txs: Seq<TxView>,
    name: Seq<char>,
    at: u32,
)
    requires
        all_read(names),
        forall|i: int, j: int|
            0 <= i < j < txs.len() ==> (#[trigger] txs[i]).height <= (#[trigger] txs[j]).height,
        forall|i: int|
            0 <= i < txs.len() && (#[trigger] txs[i]).height != at ==> name_notes(seq![txs[i]], name).len()
                == 0,
        name_notes(txs, name).len() == 0 || (!st.pending.contains_key(name) && st.staged.filter(
            records_for(name),
        ).len() == 0),
    ensures
        derived(events, names, st, txs) matches Ok(next) && if name_notes(txs, name).len() == 0 {
            next.staged.filter(records_for(name)) == st.staged.filter(records_for(name))
        } else {
            next.staged.filter(records_for(name)) == block_outcome(
                events,
                at,
                name_notes(txs, name),
                read_binding(names, name)->Ok_0,
            )
        },
    decreases txs.len(),
{
    let p = notes_for(name);
    if txs.len() == 0 {
        lemma_filter_none(block_candidates(txs), p);
    } else {
        let key = tx_height();
        let n = run_len(txs, key) as int;
        lemma_run_len(txs, key);
        let block = txs.take(n);
        let rest = txs.skip(n);
        assert(txs =~= block + rest);
        lemma_candidates_split(block, rest);
        Seq::filter_distributes_over_add(block_candidates(block), block_candidates(rest), p);
        let sorted = sort_by(block_candidates(block), candidate_order());
        lemma_candidate_order();
        lemma_sort(block_candidates(block), candidate_order());
        lemma_sort_is_stable(block_candidates(block), name);
        let h = txs[0].height;
        assert(block[0] == txs[0]);
        assert forall|i: int| 0 <= i < block.len() implies (#[trigger] block[i]).height == h by {
            assert(key(txs[i]) == key(txs[0]));
        }
        assert forall|i: int| 0 <= i < rest.len() implies #[trigger] rest[i] == txs[n + i] by {}
        if h != at {
            assert forall|i: int| 0 <= i < block.len() implies name_notes(
                seq![#[trigger] block[i]],
                name,
            ).len() == 0 by {
                assert(txs[i].height != at);
            }
            lemma_no_notes(block, name);
        } else {
            assert forall|i: int| 0 <= i < rest.len() implies name_notes(
                seq![#[trigger] rest[i]],
                name,
            ).len() == 0 by {
                assert(key(txs[n]) != key(txs[0]));
                assert(txs[0].height <= txs[n].height);
                assert(i == 0 || txs[n].height <= txs[n + i].height);
                assert(txs[n + i].height != at);
            }
            lemma_no_notes(rest, name);
        }
        assert(name_notes(txs, name) =~= name_notes(block, name) + name_notes(rest, name));
        lemma_groups_are_local(events, names, h, st, sorted, name);
        let next = derive_block(events, names, st, block)->Ok_0;
        assert forall|i: int| 0 <= i < rest.len() && (#[trigger] rest[i]).height != at implies name_notes(
            seq![rest[i]],
            name,
        ).len() == 0 by {
            assert(txs[n + i].height != at);
        }
        if h == at {
            assert(name_notes(txs, name) =~= name_notes(block, name));
        } else {
            assert(name_notes(txs, name) =~= name_notes(rest, name));
        }
        lemma_batch_is_local(events, names, next, rest, name, at);
    }
}

/// The record a name has after a batch is that of its last staged record.
pub proof fn lemma_named_is_local(names: Seq<NoteRecord>, staged: Seq<NoteRecord>, name: Seq<char>)
    requires
        is_name_table(names),
    ensures
        is_name_table(named(names, staged)),
        ({
            let own = staged.filter(records_for(name));
            entry(named(names, staged), name) == (if own.len() == 0 {
                entry(names, name)
            } else if own.last().action == Action::Release.text() {
                None
            } else {
                Some(own.last())
            })
        }),
    decreases staged.len(),
{
    let q = records_for(name);
    if staged.len() == 0 {
        lemma_filter_none(staged, q);
    } else {
        let init = staged.drop_last();
        let r = staged.last();
        lemma_named_is_local(names, init, name);
        assert(init.push(r) =~= staged);
        lemma_filter_push(init, r, q);
        lemma_upserted(named(names, init), r);
        lemma_without(named(names, init), r.name);
    }
}

/// A release of a live name on the `rcm` that the name had at the start of the
/// block.
pub open spec fn ends_the_start(start: Option<Binding>) -> spec_fn(CandidateView) -> bool {
    |c: CandidateView|
        c.note.action == Action::Release && (start matches Some(b) && b.tip.action != Action::Release
            && c.note.prev_rcm == Some(b.tip.rcm))
}

pub open spec fn does_not_end_the_start(start: Option<Binding>) -> spec_fn(CandidateView) -> bool {
    |c: CandidateView| !ends_the_start(start)(c)
}

/// A name's notes in a block are considered in two runs, each in scan order: the
/// releases on the block-start `rcm`, and then all the others.
pub proof fn law_consideration_keeps_scan_order(group: Seq<CandidateView>, start: Option<Binding>)
    ensures
        consideration_order(group, start) == group.filter(ends_the_start(start)) + group.filter(
            does_not_end_the_start(start),
        ),
        consideration_order(group, start).filter(ends_the_start(start)) == group.filter(
            ends_the_start(start),
        ),
        consideration_order(group, start).filter(does_not_end_the_start(start)) == group.filter(
            does_not_end_the_start(start),
        ),
{
    broadcast use vstd::seq_lib::group_filter_ensures;

    let first = ends_the_start(start);
    let later = does_not_end_the_start(start);
    assert(goes_first(start) =~= first);
    assert(goes_later(start) =~= later);
    let a = group.filter(first);
    let b = group.filter(later);
    assert forall|i: int| 0 <= i < a.len() implies first(#[trigger] a[i]) by {}
    assert forall|i: int| 0 <= i < b.len() implies later(#[trigger] b[i]) by {}
    Seq::filter_distributes_over_add(a, b, first);
    Seq::filter_distributes_over_add(a, b, later);
    lemma_filter_every(a, first);
    lemma_filter_every(b, later);
    lemma_filter_none(a, later);
    lemma_filter_none(b, first);
    assert(a + Seq::<CandidateView>::empty() =~= a);
    assert(Seq::<CandidateView>::empty() + b =~= b);
}

} // verus!
