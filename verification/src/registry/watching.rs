//! The watch set: what enters it, when a note in it is spent, and what a rewind
//! takes back.

use vstd::prelude::*;

use super::admission::{IronwoodOutput, TxView};
use super::state::{
    after_batch, after_rewind, distinct, is_watched, lemma_distinct, mark_all, mark_spends,
    read_nullifier, stored_nullifiers, unwatched, watch_all, watch_outputs, watch_set, Cursor,
    DbView, WatchedView,
};
use crate::store::lemma_read_all;
use crate::text::lemma_array32_of;

verus! {

/// The row is of an output that a transaction received.
pub open spec fn is_receipt(row: WatchedView, tx: TxView, output: IronwoodOutput) -> bool {
    &&& !output.is_sent
    &&& output.nf matches Some(nf) && row.nullifier == nf@
    &&& row.txid == tx.txid@
    &&& row.height == tx.height
    &&& row.spent_height is None
}

/// Some output of one of the transactions is the row's.
pub open spec fn is_received(row: WatchedView, txs: Seq<TxView>) -> bool {
    exists|t: int, k: int|
        0 <= t < txs.len() && 0 <= k < txs[t].outputs.len() && #[trigger] is_receipt(
            row,
            txs[t],
            txs[t].outputs[k],
        )
}

/// `next` is `before` with rows of received outputs behind it.
pub open spec fn grows_by_receipts(before: Seq<WatchedView>, next: Seq<WatchedView>, txs: Seq<TxView>) -> bool {
    &&& before.len() <= next.len()
    &&& next.take(before.len() as int) == before
    &&& forall|i: int| before.len() <= i < next.len() ==> is_received(#[trigger] next[i], txs)
}

proof fn lemma_watch_outputs(
    watched: Seq<WatchedView>,
    outputs: Seq<IronwoodOutput>,
    txs: Seq<TxView>,
    t: int,
)
    requires
        0 <= t < txs.len(),
        outputs.len() <= txs[t].outputs.len(),
        outputs == txs[t].outputs.take(outputs.len() as int),
    ensures
        grows_by_receipts(
            watched,
            watch_outputs(watched, outputs, txs[t].txid, txs[t].height),
            txs,
        ),
        forall|k: int|
            0 <= k < outputs.len() && !(#[trigger] outputs[k]).is_sent && outputs[k].nf is Some ==> is_watched(
                watch_outputs(watched, outputs, txs[t].txid, txs[t].height),
                outputs[k].nf->0@,
            ),
    decreases outputs.len(),
{
    let tx = txs[t];
    let next = watch_outputs(watched, outputs, tx.txid, tx.height);
    if outputs.len() == 0 {
        assert(watched.take(watched.len() as int) =~= watched);
    } else {
        let init = outputs.drop_last();
        let n = init.len() as int;
        assert(init =~= tx.outputs.take(n));
        lemma_watch_outputs(watched, init, txs, t);
        let before = watch_outputs(watched, init, tx.txid, tx.height);
        assert(outputs.last() == tx.outputs[n]);
        assert(next.take(watched.len() as int) =~= before.take(watched.len() as int));
        assert forall|i: int| watched.len() <= i < next.len() implies is_received(#[trigger] next[i], txs) by {
            if i < before.len() {
                assert(next[i] == before[i]);
            } else {
                assert(is_receipt(next[i], txs[t], txs[t].outputs[n]));
            }
        }
        assert forall|k: int|
            0 <= k < outputs.len() && !(#[trigger] outputs[k]).is_sent && outputs[k].nf is Some implies is_watched(
            next,
            outputs[k].nf->0@,
        ) by {
            if k < n {
                assert(init[k] == outputs[k]);
                let i = choose|i: int|
                    0 <= i < before.len() && (#[trigger] before[i]).nullifier == outputs[k].nf->0@;
                assert(next[i].nullifier == outputs[k].nf->0@);
            } else if !is_watched(before, outputs[k].nf->0@) {
                assert(next[before.len() as int].nullifier == outputs[k].nf->0@);
            }
        }
    }
}

proof fn lemma_watch_all(watched: Seq<WatchedView>, txs: Seq<TxView>, n: int)
    requires
        0 <= n <= txs.len(),
    ensures
        grows_by_receipts(watched, watch_all(watched, txs.take(n)), txs),
        forall|t: int, k: int|
            0 <= t < n && 0 <= k < txs[t].outputs.len() && !(#[trigger] txs[t].outputs[k]).is_sent
                && txs[t].outputs[k].nf is Some ==> is_watched(
                watch_all(watched, txs.take(n)),
                txs[t].outputs[k].nf->0@,
            ),
    decreases n,
{
    if n == 0 {
        assert(watched.take(watched.len() as int) =~= watched);
    } else {
        let part = txs.take(n);
        let tx = txs[n - 1];
        assert(part.drop_last() =~= txs.take(n - 1));
        assert(part.last() == tx);
        lemma_watch_all(watched, txs, n - 1);
        let before = watch_all(watched, txs.take(n - 1));
        let next = watch_all(watched, part);
        assert(tx.outputs =~= tx.outputs.take(tx.outputs.len() as int));
        lemma_watch_outputs(before, tx.outputs, txs, n - 1);
        assert(next.take(watched.len() as int) =~= before.take(watched.len() as int)) by {
            assert forall|i: int| 0 <= i < before.len() implies next[i] == #[trigger] before[i] by {
                assert(next.take(before.len() as int)[i] == before[i]);
            }
        }
        assert forall|i: int| watched.len() <= i < next.len() implies is_received(#[trigger] next[i], txs) by {
            if i < before.len() {
                assert(next.take(before.len() as int)[i] == before[i]);
                assert(is_received(before[i], txs));
            }
        }
        assert forall|t: int, k: int|
            0 <= t < n && 0 <= k < txs[t].outputs.len() && !(#[trigger] txs[t].outputs[k]).is_sent
                && txs[t].outputs[k].nf is Some implies is_watched(next, txs[t].outputs[k].nf->0@) by {
            if t < n - 1 {
                let nf = txs[t].outputs[k].nf->0@;
                let i = choose|i: int| 0 <= i < before.len() && (#[trigger] before[i]).nullifier == nf;
                assert(next.take(before.len() as int)[i] == before[i]);
                assert(next[i].nullifier == nf);
            }
        }
    }
}

/// The transaction reveals the nullifier.
pub open spec fn reveals(tx: TxView, nullifier: Seq<u8>) -> bool {
    exists|k: int| 0 <= k < tx.spends.len() && (#[trigger] tx.spends[k])@ == nullifier
}

/// `next` is the row `row` after the transactions: a spent one stays, an unspent
/// one is spent at the height of the first that reveals its nullifier.
pub open spec fn is_marked(row: WatchedView, next: WatchedView, txs: Seq<TxView>) -> bool {
    &&& next.nullifier == row.nullifier
    &&& next.txid == row.txid
    &&& next.height == row.height
    &&& row.spent_height is Some ==> next.spent_height == row.spent_height
    &&& row.spent_height is None ==> match next.spent_height {
        None => forall|t: int| 0 <= t < txs.len() ==> !reveals(#[trigger] txs[t], row.nullifier),
        Some(h) => exists|t: int|
            0 <= t < txs.len() && #[trigger] reveals(txs[t], row.nullifier) && txs[t].height == h
                && forall|s: int| 0 <= s < t ==> !reveals(#[trigger] txs[s], row.nullifier),
    }
}

/// Marking a list of spends marks the rows they reveal, and only those.
proof fn lemma_mark_spends(watched: Seq<WatchedView>, spends: Seq<[u8; 32]>, height: u32)
    ensures
        mark_spends(watched, spends, height).len() == watched.len(),
        forall|i: int|
            0 <= i < watched.len() ==> (#[trigger] mark_spends(watched, spends, height)[i]) == (
            if watched[i].spent_height is None && exists|k: int|
                0 <= k < spends.len() && (#[trigger] spends[k])@ == watched[i].nullifier {
                WatchedView { spent_height: Some(height as i64), ..watched[i] }
            } else {
                watched[i]
            }),
    decreases spends.len(),
{
    if spends.len() > 0 {
        let init = spends.drop_last();
        let before = mark_spends(watched, init, height);
        let after = mark_spends(watched, spends, height);
        let n = init.len() as int;
        lemma_mark_spends(watched, init, height);
        assert(spends[n] == spends.last());
        assert forall|i: int| 0 <= i < watched.len() implies (#[trigger] after[i]) == (
        if watched[i].spent_height is None && exists|k: int|
            0 <= k < spends.len() && (#[trigger] spends[k])@ == watched[i].nullifier {
            WatchedView { spent_height: Some(height as i64), ..watched[i] }
        } else {
            watched[i]
        }) by {
            let nf = watched[i].nullifier;
            assert(before[i].nullifier == nf);
            if exists|k: int| 0 <= k < init.len() && (#[trigger] init[k])@ == nf {
                let k = choose|k: int| 0 <= k < init.len() && (#[trigger] init[k])@ == nf;
                assert(spends[k]@ == nf);
            } else if exists|k: int| 0 <= k < spends.len() && (#[trigger] spends[k])@ == nf {
                let k = choose|k: int| 0 <= k < spends.len() && (#[trigger] spends[k])@ == nf;
                if k < n {
                    assert(init[k]@ == nf);
                }
            }
        }
    }
}

proof fn lemma_mark_all(watched: Seq<WatchedView>, txs: Seq<TxView>)
    ensures
        mark_all(watched, txs).len() == watched.len(),
        forall|i: int|
            0 <= i < watched.len() ==> is_marked(watched[i], #[trigger] mark_all(watched, txs)[i], txs),
    decreases txs.len(),
{
    if txs.len() > 0 {
        let init = txs.drop_last();
        let tx = txs.last();
        let n = init.len() as int;
        let before = mark_all(watched, init);
        let after = mark_all(watched, txs);
        lemma_mark_all(watched, init);
        lemma_mark_spends(before, tx.spends, tx.height);
        assert(txs[n] == tx);
        assert forall|i: int| 0 <= i < watched.len() implies is_marked(watched[i], #[trigger] after[i], txs) by {
            let nf = watched[i].nullifier;
            assert(is_marked(watched[i], before[i], init));
            assert forall|t: int| 0 <= t < n implies init[t] == #[trigger] txs[t] by {}
            if watched[i].spent_height is None {
                match before[i].spent_height {
                    Some(h) => {
                        let t = choose|t: int|
                            0 <= t < init.len() && #[trigger] reveals(init[t], nf) && init[t].height == h
                                && forall|s: int| 0 <= s < t ==> !reveals(#[trigger] init[s], nf);
                        assert(reveals(txs[t], nf));
                        assert forall|s: int| 0 <= s < t implies !reveals(#[trigger] txs[s], nf) by {
                            assert(!reveals(init[s], nf));
                        }
                    },
                    None => {
                        assert forall|s: int| 0 <= s < n implies !reveals(#[trigger] txs[s], nf) by {
                            assert(!reveals(init[s], nf));
                        }
                        if reveals(tx, nf) {
                            assert(reveals(txs[n], nf));
                        }
                    },
                }
            }
        }
    }
}

/// A batch watches each note that its transactions receive, and no other; what
/// was watched stays. A watched note, an old one or a new one, is spent at the
/// height of the first transaction of the batch that reveals its nullifier, and
/// stays unspent where none does; one that was spent stays as it is.
pub proof fn law_received_notes_are_watched(db: DbView, scanned: Cursor, txs: Seq<TxView>)
    ensures
        after_batch(db, scanned, txs) matches Ok(next) ==> exists|rows: Seq<WatchedView>|
            {
                &&& #[trigger] grows_by_receipts(db.watched, rows, txs)
                &&& rows.len() == next.watched.len()
                &&& forall|i: int|
                    0 <= i < rows.len() ==> is_marked(rows[i], #[trigger] next.watched[i], txs)
            },
        after_batch(db, scanned, txs) matches Ok(next) ==> forall|t: int, k: int|
            0 <= t < txs.len() && 0 <= k < txs[t].outputs.len() && !(
            #[trigger] txs[t].outputs[k]).is_sent && txs[t].outputs[k].nf is Some ==> is_watched(
                next.watched,
                txs[t].outputs[k].nf->0@,
            ),
{
    if let Ok(next) = after_batch(db, scanned, txs) {
        let n = txs.len() as int;
        assert(txs.take(n) =~= txs);
        lemma_watch_all(db.watched, txs, n);
        let rows = watch_all(db.watched, txs);
        lemma_mark_all(rows, txs);
        assert(grows_by_receipts(db.watched, rows, txs));
        assert forall|t: int, k: int|
            0 <= t < txs.len() && 0 <= k < txs[t].outputs.len() && !(
            #[trigger] txs[t].outputs[k]).is_sent && txs[t].outputs[k].nf is Some implies is_watched(
            next.watched,
            txs[t].outputs[k].nf->0@,
        ) by {
            let nf = txs[t].outputs[k].nf->0@;
            let i = choose|i: int| 0 <= i < rows.len() && (#[trigger] rows[i]).nullifier == nf;
            assert(is_marked(rows[i], next.watched[i], txs));
            assert(next.watched[i].nullifier == nf);
        }
    }
}

/// `next` is the row as it was at the height `fork`: unspent where it was spent
/// above it.
pub open spec fn is_taken_back(row: WatchedView, next: WatchedView, fork: int) -> bool {
    &&& next.nullifier == row.nullifier
    &&& next.txid == row.txid
    &&& next.height == row.height
    &&& match row.spent_height {
        Some(h) => if h > fork {
            next.spent_height is None
        } else {
            next.spent_height == Some(h)
        },
        None => next.spent_height is None,
    }
}

/// One of `rows` is the row as it was at the height `fork`.
pub open spec fn stays(row: WatchedView, rows: Seq<WatchedView>, fork: int) -> bool {
    exists|j: int| 0 <= j < rows.len() && is_taken_back(row, #[trigger] rows[j], fork)
}

/// The row is one of `rows`, received at or below the height `fork`, as it was
/// then.
pub open spec fn stems_from(row: WatchedView, rows: Seq<WatchedView>, fork: int) -> bool {
    exists|i: int|
        0 <= i < rows.len() && rows[i].height <= fork && is_taken_back(#[trigger] rows[i], row, fork)
}

proof fn lemma_unwatched(rows: Seq<WatchedView>, fork: int)
    ensures
        forall|i: int|
            0 <= i < rows.len() && (#[trigger] rows[i]).height <= fork ==> stays(
                rows[i],
                unwatched(rows, fork),
                fork,
            ),
        forall|j: int|
            0 <= j < unwatched(rows, fork).len() ==> stems_from(
                #[trigger] unwatched(rows, fork)[j],
                rows,
                fork,
            ),
{
    broadcast use vstd::seq_lib::group_filter_ensures;

    let p = |w: WatchedView| w.height <= fork;
    let kept = rows.filter(p);
    let next = unwatched(rows, fork);
    assert forall|i: int| 0 <= i < rows.len() && (#[trigger] rows[i]).height <= fork implies stays(
        rows[i],
        next,
        fork,
    ) by {
        assert(p(rows[i]));
        rows.lemma_filter_contains(p, i);
        let j = choose|j: int| 0 <= j < kept.len() && kept[j] == rows[i];
        assert(is_taken_back(rows[i], next[j], fork));
    }
    assert forall|j: int| 0 <= j < next.len() implies stems_from(#[trigger] next[j], rows, fork) by {
        assert(p(kept[j]));
        assert(kept.contains(kept[j]));
        rows.lemma_filter_contains_rev(p, kept[j]);
        let i = choose|i: int| 0 <= i < rows.len() && rows[i] == kept[j];
        assert(is_taken_back(rows[i], next[j], fork));
    }
}

/// A rewind drops each watched note that was received above the fork, and takes
/// back each spend above it; the rest stays watched as it is.
pub proof fn law_rewind_takes_back_receipts_and_spends(db: DbView, fork: u32)
    ensures
        after_rewind(db, fork) matches Ok(next) ==> (forall|i: int|
            0 <= i < db.watched.len() && (#[trigger] db.watched[i]).height <= fork ==> stays(
                db.watched[i],
                next.watched,
                fork as int,
            )) && (forall|j: int|
            0 <= j < next.watched.len() ==> stems_from(
                #[trigger] next.watched[j],
                db.watched,
                fork as int,
            )),
{
    lemma_unwatched(db.watched, fork as int);
}

/// The watch set holds nothing else: each of its nullifiers is that of an
/// unspent watched note, or of the note that holds a live name.
pub proof fn law_watch_set_holds_no_more(db: DbView, nf: [u8; 32])
    requires
        watch_set(db) is Ok,
        watch_set(db)->Ok_0.contains(nf),
    ensures
        (exists|i: int|
            0 <= i < db.watched.len() && (#[trigger] db.watched[i]).spent_height is None
                && db.watched[i].nullifier == nf@) || (exists|i: int|
            0 <= i < db.names.len() && (#[trigger] db.names[i]).extra.nullifier == nf@),
{
    broadcast use vstd::seq_lib::group_filter_ensures;

    let all = stored_nullifiers(db);
    let each = distinct(all);
    lemma_distinct(all);
    lemma_read_all(each, read_nullifier());
    let set = watch_set(db)->Ok_0;
    let k = choose|k: int| 0 <= k < set.len() && set[k] == nf;
    lemma_array32_of(each[k]);
    assert(read_nullifier()(each[k]) == Ok::<[u8; 32], crate::store::StoreError>(set[k]));
    assert(each[k] == nf@);
    assert(each.contains(each[k]));
    assert(all.contains(nf@));
    let j = choose|j: int| 0 <= j < all.len() && all[j] == nf@;
    let p = |w: WatchedView| w.spent_height is None;
    let unspent = db.watched.filter(p);
    if j < unspent.len() {
        assert(unspent[j].nullifier == nf@);
        assert(p(unspent[j]));
        assert(unspent.contains(unspent[j]));
        db.watched.lemma_filter_contains_rev(p, unspent[j]);
        let i = choose|i: int| 0 <= i < db.watched.len() && db.watched[i] == unspent[j];
        assert(db.watched[i].spent_height is None && db.watched[i].nullifier == nf@);
    } else {
        let i = j - unspent.len();
        assert(db.names[i].extra.nullifier == nf@);
    }
}

} // verus!
