//! A name's history: a hash chain in chain order, of which every earlier answer
//! is a prefix.

use vstd::prelude::*;
use vstd::utf8::*;

use super::laws::{chained, is_link, is_sound};
use super::{
    applied, lemma_applied_grows, read_chain_row, read_entry, ActionRecord, ActionRow, IndexView,
    NameNoteView,
};
use crate::http::{history, last_claim, law_segment_starts_at_last_claim, segment_of};
use crate::kernel::{action_of, derived_opening, is_committed, required_prev, Action, Tip};
use crate::log::{chain_order, latest, lemma_history, lemma_prefix_order, of_name};
use crate::order::{lemma_filter_keeps, lemma_filter_prefix, lemma_sort_of_sorted};
use crate::store::lemma_read_all;
use crate::text::lemma_array32_of;

verus! {

/// The rows of a name, as they were recorded.
pub open spec fn rows_of(log: Seq<ActionRow>, name: Seq<char>) -> Seq<ActionRow> {
    log.filter(of_name(name))
}

/// The tip that a row leaves.
pub open spec fn tip_after(row: Option<ActionRow>) -> Option<Tip> {
    match row {
        Some(r) => match read_entry(r) {
            Ok(e) => Some(e.tip()),
            Err(_) => None,
        },
        None => None,
    }
}

/// The record extends the row before it: its `rcm` is derived from the
/// transition and the predecessor which that row calls for, and its `cmx` is a
/// note's commitment under that opening.
pub open spec fn extends(before: Option<ActionRow>, r: ActionRecord) -> bool {
    match action_of(r.action) {
        None => false,
        Some(action) => match required_prev(tip_after(before), action) {
            None => false,
            Some(prev) => {
                let opening = derived_opening(
                    encode_utf8(r.action),
                    encode_utf8(r.name),
                    encode_utf8(r.ua),
                    encode_utf8("none"@),
                    prev,
                );
                r.rcm == opening.1@ && is_committed(opening, r.cmx)
            },
        },
    }
}

pub open spec fn row_before(rows: Seq<ActionRow>, k: int) -> Option<ActionRow> {
    if k == 0 {
        None
    } else {
        Some(rows[k - 1])
    }
}

/// A prefix of a chained log is chained.
proof fn lemma_chained_prefix(log: Seq<ActionRow>, k: int)
    requires
        chained(log),
        0 <= k <= log.len(),
    ensures
        chained(log.take(k)),
{
    let t = log.take(k);
    lemma_prefix_order(log, k);
    assert forall|i: int| 0 <= i < t.len() implies is_sound((#[trigger] t[i]).record) && is_link(
        t.take(i),
        t[i].record,
    ) by {
        assert(t[i] == log[i]);
        assert(t.take(i) =~= log.take(i));
        assert(is_sound(log[i].record));
        assert(is_link(log.take(i), log[i].record));
    }
}

/// A name's history is one hash chain: it starts with a claim, and each row
/// extends the one before it. So it cannot be reordered or spliced.
pub proof fn law_history_is_a_hash_chain(log: Seq<ActionRow>, name: Seq<char>)
    requires
        chained(log),
    ensures
        forall|k: int|
            0 <= k < rows_of(log, name).len() ==> extends(
                row_before(rows_of(log, name), k),
                (#[trigger] rows_of(log, name)[k]).record,
            ),
        rows_of(log, name).len() > 0 ==> action_of(rows_of(log, name)[0].record.action) == Some(
            Action::Claim,
        ),
    decreases log.len(),
{
    reveal(Seq::filter);
    let rows = rows_of(log, name);
    if log.len() > 0 {
        let n = log.len() as int;
        let init = log.drop_last();
        let last = log[n - 1];
        assert(init =~= log.take(n - 1));
        lemma_chained_prefix(log, n - 1);
        law_history_is_a_hash_chain(init, name);
        let before = rows_of(init, name);
        assert(is_link(log.take(n - 1), last.record));
        lemma_history(init, name);
        assert forall|k: int| 0 <= k < rows.len() implies extends(
            row_before(rows, k),
            (#[trigger] rows[k]).record,
        ) by {
            if k < before.len() {
                assert(rows[k] == before[k]);
                assert(row_before(rows, k) == row_before(before, k));
                assert(extends(row_before(before, k), before[k].record));
            } else {
                assert(rows[k] == last);
                assert(row_before(rows, k) == latest(init, name));
            }
        }
        if rows.len() > 0 {
            assert(extends(row_before(rows, 0), rows[0].record));
        }
    }
}

/// The history that is served of a name is its rows in chain order, each read
/// as it was recorded: on a chained log no reading fails.
pub proof fn law_history_is_served_whole(index: IndexView, name: Seq<char>)
    requires
        chained(index.actions),
    ensures
        history(index, name) matches Ok(v) && v.len() == rows_of(index.actions, name).len() && forall|k: int|
            0 <= k < v.len() ==> action_of(rows_of(index.actions, name)[k].record.action) == Some(
                (#[trigger] v[k]).action,
            ) && v[k].ua == rows_of(index.actions, name)[k].record.ua && v[k].txid@ == rows_of(
                index.actions,
                name,
            )[k].record.txid,
{
    let log = index.actions;
    let rows = rows_of(log, name);
    lemma_history(log, name);
    lemma_sort_of_sorted(rows, chain_order());
    lemma_read_all(rows, read_chain_row());
    let p = |r: ActionRow| is_sound(r.record);
    assert forall|i: int| 0 <= i < log.len() implies p(#[trigger] log[i]) by {
        assert(is_sound(log[i].record));
    }
    lemma_filter_keeps(log, of_name(name), p);
    assert forall|k: int| 0 <= k < rows.len() implies read_chain_row()(rows[k]) is Ok by {
        assert(p(rows[k]));
    }
    let v = history(index, name)->Ok_0;
    assert forall|k: int| 0 <= k < v.len() implies action_of(rows[k].record.action) == Some(
        (#[trigger] v[k]).action,
    ) && v[k].ua == rows[k].record.ua && v[k].txid@ == rows[k].record.txid by {
        lemma_array32_of(rows[k].record.txid);
    }
}

/// The proof that is served of a name with a history starts at its most recent
/// claim, from the zero predecessor, and ends at its tip.
pub proof fn law_served_segment_starts_at_a_claim(index: IndexView, name: Seq<char>)
    requires
        chained(index.actions),
        rows_of(index.actions, name).len() > 0,
    ensures
        history(index, name) matches Ok(v) && segment_of(v).len() > 0 && segment_of(v)[0].action
            == Action::Claim && segment_of(v).last() == v.last() && forall|i: int|
            0 < i < segment_of(v).len() ==> (#[trigger] segment_of(v)[i]).action != Action::Claim,
{
    law_history_is_served_whole(index, name);
    law_history_is_a_hash_chain(index.actions, name);
    let v = history(index, name)->Ok_0;
    assert(v[0].action == Action::Claim);
    law_segment_starts_at_last_claim(v);
    assert forall|i: int| 0 < i < segment_of(v).len() implies (#[trigger] segment_of(v)[i]).action
        != Action::Claim by {
        assert(segment_of(v)[i] == v[last_claim(v) + i]);
    }
}

/// A stale history is a prefix of every later one: what was served before more
/// notes were applied is how the later answer begins.
pub proof fn law_stale_history_is_a_prefix(
    log: Seq<ActionRow>,
    notes: Seq<NameNoteView>,
    name: Seq<char>,
)
    ensures
        applied(log, notes) matches Ok(next) ==> rows_of(log, name).len() <= rows_of(next.log, name).len()
            && rows_of(next.log, name).take(rows_of(log, name).len() as int) == rows_of(log, name),
{
    if let Ok(next) = applied(log, notes) {
        lemma_applied_grows(log, notes);
        lemma_filter_prefix(next.log, log.len() as int, of_name(name));
    }
}

} // verus!
