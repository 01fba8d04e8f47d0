//! The registry's tables and every operation on them.
//!
//! A batch runs in two layers. Bookkeeping records chain facts: the received
//! and spent nullifiers of the watch set. Derivation admits name notes. A
//! registration ends only through an accepted release, never through a raw
//! spend. An operation that fails leaves every table as it was.

use vstd::prelude::*;
use vstd::string::*;

use super::admission::{
    derive_batch, derived, empty_staging, EventRow, IronwoodOutput, NoteColumns, NoteRecord, TxView,
    WalletTx,
};
use super::notes::{parse_note, parsed_note, NoteView, ParsedNote};
use super::{Event, EventView, Registration, RegistrationView};
use crate::kernel::{action_of, base_field_size, is_nullifier, le_value, Action};
use crate::log::{
    asked_for, drop_above, find_latest_through, fits, has_room, latest, names_above, newest_first,
    select_names_above, select_newest_first, through, views, LogRow, Record,
};
use crate::order::{lemma_filter_prefix, page, sort_by};
use crate::store::{
    lemma_page_bounds, lemma_read_all_fails, lemma_read_all_step, page_bounds, read_all, read_rows,
    result_view, Duplicate, StoreError,
};
use crate::table::{
    bound_to, commit_records, entry, find, logged, named, option_record, option_records,
    rebuild_name_tips, restored, select_all, select_bound_to,
};
use crate::text::{as_array32, bytes_eq, copy_bytes, text_eq, to_array32};

verus! {

// ── tables ──────────────────────────────────────────────────────────────────

/// The registry's identity, fixed at first open, and its sync position.
pub struct AccountRow {
    pub ufvk: String,
    pub network: String,
    pub birthday: i64,
    pub sync_height: Option<i64>,
    pub sync_hash: Option<Vec<u8>>,
}

#[verifier::ext_equal]
pub struct AccountView {
    pub ufvk: Seq<char>,
    pub network: Seq<char>,
    pub birthday: i64,
    pub sync_height: Option<i64>,
    pub sync_hash: Option<Seq<u8>>,
}

impl View for AccountRow {
    type V = AccountView;

    open spec fn view(&self) -> AccountView {
        AccountView {
            ufvk: self.ufvk@,
            network: self.network@,
            birthday: self.birthday,
            sync_height: self.sync_height,
            sync_hash: match self.sync_hash {
                Some(h) => Some(h@),
                None => None,
            },
        }
    }
}

/// A received note whose consumption is watched for.
pub struct WatchedRow {
    pub nullifier: Vec<u8>,
    pub txid: Vec<u8>,
    pub height: i64,
    pub spent_height: Option<i64>,
}

#[verifier::ext_equal]
pub struct WatchedView {
    pub nullifier: Seq<u8>,
    pub txid: Seq<u8>,
    pub height: i64,
    pub spent_height: Option<i64>,
}

impl View for WatchedRow {
    type V = WatchedView;

    open spec fn view(&self) -> WatchedView {
        WatchedView {
            nullifier: self.nullifier@,
            txid: self.txid@,
            height: self.height,
            spent_height: self.spent_height,
        }
    }
}

/// The registry database: the account row, the watch set, the event log, and
/// the record of each live name.
pub struct Db {
    pub account: Option<AccountRow>,
    pub watched: Vec<WatchedRow>,
    pub events: Vec<LogRow<NoteColumns>>,
    pub names: Vec<Record<NoteColumns>>,
}

#[verifier::ext_equal]
pub struct DbView {
    pub account: Option<AccountView>,
    pub watched: Seq<WatchedView>,
    pub events: Seq<EventRow>,
    pub names: Seq<NoteRecord>,
}

impl View for Db {
    type V = DbView;

    open spec fn view(&self) -> DbView {
        DbView {
            account: match self.account {
                Some(a) => Some(a@),
                None => None,
            },
            watched: views(self.watched@),
            events: views(self.events@),
            names: views(self.names@),
        }
    }
}

/// A scanned position.
#[derive(Clone, Copy, Debug, PartialEq, Eq)]
pub struct Cursor {
    pub height: u32,
    pub hash: [u8; 32],
}

// ── the watch set ───────────────────────────────────────────────────────────

pub open spec fn is_watched(watched: Seq<WatchedView>, nullifier: Seq<u8>) -> bool {
    exists|i: int| 0 <= i < watched.len() && (#[trigger] watched[i]).nullifier == nullifier
}

/// A received output with a nullifier enters the watch set, unless it is there.
pub open spec fn watch_output(
    watched: Seq<WatchedView>,
    output: IronwoodOutput,
    txid: [u8; 32],
    height: u32,
) -> Seq<WatchedView> {
    match output.nf {
        Some(nf) => if !output.is_sent && !is_watched(watched, nf@) {
            watched.push(
                WatchedView { nullifier: nf@, txid: txid@, height: height as i64, spent_height: None },
            )
        } else {
            watched
        },
        None => watched,
    }
}

pub open spec fn watch_outputs(
    watched: Seq<WatchedView>,
    outputs: Seq<IronwoodOutput>,
    txid: [u8; 32],
    height: u32,
) -> Seq<WatchedView>
    decreases outputs.len(),
{
    if outputs.len() == 0 {
        watched
    } else {
        watch_output(
            watch_outputs(watched, outputs.drop_last(), txid, height),
            outputs.last(),
            txid,
            height,
        )
    }
}

pub open spec fn watch_all(watched: Seq<WatchedView>, txs: Seq<TxView>) -> Seq<WatchedView>
    decreases txs.len(),
{
    if txs.len() == 0 {
        watched
    } else {
        let tx = txs.last();
        watch_outputs(watch_all(watched, txs.drop_last()), tx.outputs, tx.txid, tx.height)
    }
}

/// An unspent watched note whose nullifier is revealed is spent at `height`.
pub open spec fn mark_spent(watched: Seq<WatchedView>, nf: [u8; 32], height: u32) -> Seq<WatchedView> {
    Seq::new(
        watched.len(),
        |i: int|
            if watched[i].nullifier == nf@ && watched[i].spent_height is None {
                WatchedView { spent_height: Some(height as i64), ..watched[i] }
            } else {
                watched[i]
            },
    )
}

pub open spec fn mark_spends(watched: Seq<WatchedView>, spends: Seq<[u8; 32]>, height: u32) -> Seq<
    WatchedView,
>
    decreases spends.len(),
{
    if spends.len() == 0 {
        watched
    } else {
        mark_spent(mark_spends(watched, spends.drop_last(), height), spends.last(), height)
    }
}

pub open spec fn mark_all(watched: Seq<WatchedView>, txs: Seq<TxView>) -> Seq<WatchedView>
    decreases txs.len(),
{
    if txs.len() == 0 {
        watched
    } else {
        mark_spends(mark_all(watched, txs.drop_last()), txs.last().spends, txs.last().height)
    }
}

fn has_nullifier(watched: &Vec<WatchedRow>, nf: &[u8; 32]) -> (r: bool)
    ensures
        r == is_watched(views(watched@), nf@),
{
    let mut i: usize = 0;
    while i < watched.len()
        invariant
            i <= watched.len(),
            forall|j: int| 0 <= j < i ==> (#[trigger] views(watched@)[j]).nullifier != nf@,
        decreases watched.len() - i,
    {
        assert(views(watched@)[i as int] == watched@[i as int]@);
        if bytes_eq(watched[i].nullifier.as_slice(), nf.as_slice()) {
            return true;
        }
        i += 1;
    }
    false
}

fn watch_transactions(watched: &mut Vec<WatchedRow>, transactions: &[WalletTx])
    ensures
        views(final(watched)@) == watch_all(views(old(watched)@), views(transactions@)),
{
    let ghost before = views(watched@);
    let ghost txs = views(transactions@);
    let mut t: usize = 0;
    while t < transactions.len()
        invariant
            t <= transactions.len(),
            txs == views(transactions@),
            views(watched@) == watch_all(before, txs.take(t as int)),
        decreases transactions.len() - t,
    {
        let tx = &transactions[t];
        let ghost base = views(watched@);
        let ghost outputs = tx.ironwood_outputs@;
        let mut k: usize = 0;
        while k < tx.ironwood_outputs.len()
            invariant
                k <= tx.ironwood_outputs.len(),
                outputs == tx.ironwood_outputs@,
                views(watched@) == watch_outputs(base, outputs.take(k as int), tx.txid, tx.height),
            decreases tx.ironwood_outputs.len() - k,
        {
            let output = tx.ironwood_outputs[k];
            assert(outputs.take(k + 1).drop_last() =~= outputs.take(k as int));
            if !output.is_sent {
                if let Some(nf) = output.nf {
                    if !has_nullifier(watched, &nf) {
                        let ghost was = views(watched@);
                        let row = WatchedRow {
                            nullifier: copy_bytes(nf.as_slice()),
                            txid: copy_bytes(tx.txid.as_slice()),
                            height: tx.height as i64,
                            spent_height: None,
                        };
                        watched.push(row);
                        assert(views(watched@) =~= was.push(row@));
                    }
                }
            }
            k += 1;
        }
        proof {
            assert(outputs.take(outputs.len() as int) =~= outputs);
            assert(txs.take(t + 1).drop_last() =~= txs.take(t as int));
            assert(txs.take(t + 1).last() == tx@);
        }
        t += 1;
    }
    assert(txs.take(txs.len() as int) =~= txs);
}

fn mark_nullifier(watched: &mut Vec<WatchedRow>, nf: &[u8; 32], height: u32)
    ensures
        views(final(watched)@) == mark_spent(views(old(watched)@), *nf, height),
{
    let ghost before = views(watched@);
    let mut i: usize = 0;
    while i < watched.len()
        invariant
            i <= watched.len(),
            watched.len() == before.len(),
            forall|j: int| 0 <= j < i ==> #[trigger] views(watched@)[j] == mark_spent(before, *nf, height)[j],
            forall|j: int| i <= j < before.len() ==> #[trigger] views(watched@)[j] == before[j],
        decreases watched.len() - i,
    {
        let ghost was = views(watched@);
        assert(was[i as int] == watched@[i as int]@);
        if bytes_eq(watched[i].nullifier.as_slice(), nf.as_slice()) && watched[i].spent_height.is_none() {
            let row = WatchedRow {
                nullifier: copy_bytes(watched[i].nullifier.as_slice()),
                txid: copy_bytes(watched[i].txid.as_slice()),
                height: watched[i].height,
                spent_height: Some(height as i64),
            };
            watched.set(i, row);
            assert(views(watched@) =~= was.update(i as int, row@));
        }
        i += 1;
    }
    assert(views(watched@) =~= mark_spent(before, *nf, height));
}

fn mark_transactions(watched: &mut Vec<WatchedRow>, transactions: &[WalletTx])
    ensures
        views(final(watched)@) == mark_all(views(old(watched)@), views(transactions@)),
{
    let ghost before = views(watched@);
    let ghost txs = views(transactions@);
    let mut t: usize = 0;
    while t < transactions.len()
        invariant
            t <= transactions.len(),
            txs == views(transactions@),
            views(watched@) == mark_all(before, txs.take(t as int)),
        decreases transactions.len() - t,
    {
        let tx = &transactions[t];
        let ghost base = views(watched@);
        let ghost spends = tx.ironwood_spends@;
        let mut k: usize = 0;
        while k < tx.ironwood_spends.len()
            invariant
                k <= tx.ironwood_spends.len(),
                spends == tx.ironwood_spends@,
                views(watched@) == mark_spends(base, spends.take(k as int), tx.height),
            decreases tx.ironwood_spends.len() - k,
        {
            assert(spends.take(k + 1).drop_last() =~= spends.take(k as int));
            mark_nullifier(watched, &tx.ironwood_spends[k], tx.height);
            k += 1;
        }
        proof {
            assert(spends.take(spends.len() as int) =~= spends);
            assert(txs.take(t + 1).drop_last() =~= txs.take(t as int));
            assert(txs.take(t + 1).last() == tx@);
        }
        t += 1;
    }
    assert(txs.take(txs.len() as int) =~= txs);
}

// ── the write path ──────────────────────────────────────────────────────────

/// The account at a new sync position.
pub open spec fn positioned(
    account: Option<AccountView>,
    height: i64,
    hash: Option<Seq<u8>>,
) -> Option<AccountView> {
    match account {
        Some(a) => Some(AccountView { sync_height: Some(height), sync_hash: hash, ..a }),
        None => None,
    }
}

/// The database after a batch.
pub open spec fn after_batch(db: DbView, scanned: Cursor, txs: Seq<TxView>) -> Result<
    DbView,
    StoreError,
> {
    match derived(db.events, db.names, empty_staging(), txs) {
        Err(e) => Err(e),
        Ok(staging) => if !has_room(db.events, staging.staged.len()) {
            Err(StoreError::Full)
        } else {
            Ok(
                DbView {
                    account: positioned(db.account, scanned.height as i64, Some(scanned.hash@)),
                    watched: mark_all(watch_all(db.watched, txs), txs),
                    events: logged(db.events, staging.staged),
                    names: named(db.names, staging.staged),
                },
            )
        },
    }
}

// ── rewind ──────────────────────────────────────────────────────────────────

/// A stored memo that still parses and agrees with its record's identity.
pub open spec fn stored_note(memo: Seq<u8>, name: Seq<char>, ua: Seq<char>) -> Option<NoteView> {
    match parsed_note(memo) {
        Some(note) => if note.name == name && note.ua == ua {
            Some(note)
        } else {
            None
        },
        None => None,
    }
}

/// The record a name has after `events`: that of its newest event, unless it
/// is a release. The newest record must still agree with its memo.
pub open spec fn surviving(events: Seq<EventRow>) -> spec_fn(Seq<char>) -> Result<
    Option<NoteRecord>,
    StoreError,
> {
    |name: Seq<char>|
        match latest(events, name) {
            None => Ok(None),
            Some(row) => {
                let record = row.record;
                let note = stored_note(record.extra.memo, name, record.ua);
                match (note, action_of(record.action)) {
                    (Some(_), Some(action)) => if action == Action::Release {
                        Ok(None)
                    } else {
                        Ok(Some(record))
                    },
                    _ => Err(StoreError::CorruptRecord),
                }
            },
        }
}

/// The watch set without what was received above the fork, and with what was
/// spent above it unspent again.
pub open spec fn unwatched(watched: Seq<WatchedView>, fork: int) -> Seq<WatchedView> {
    let kept = watched.filter(|w: WatchedView| w.height <= fork);
    Seq::new(
        kept.len(),
        |i: int|
            if kept[i].spent_height is Some && kept[i].spent_height->0 > fork {
                WatchedView { spent_height: None, ..kept[i] }
            } else {
                kept[i]
            },
    )
}

/// The database rewound to `fork`.
pub open spec fn after_rewind(db: DbView, fork: u32) -> Result<DbView, StoreError> {
    let events = through(db.events, fork as int);
    let affected = names_above(db.events, fork as int);
    match read_all(affected, surviving(events)) {
        Err(e) => Err(e),
        Ok(records) => Ok(
            DbView {
                account: positioned(db.account, fork as i64, None),
                watched: unwatched(db.watched, fork as int),
                events,
                names: restored(db.names, affected, records),
            },
        ),
    }
}

/// The database rewound to the block `to`.
pub open spec fn after_rewind_to(db: DbView, to: Cursor) -> Result<DbView, StoreError> {
    match after_rewind(db, to.height) {
        Err(e) => Err(e),
        Ok(next) => Ok(
            DbView {
                account: positioned(next.account, to.height as i64, Some(to.hash@)),
                ..next
            },
        ),
    }
}

/// Parses a stored memo and cross-checks it against the record's identity
/// columns. A record whose memo no longer parses or disagrees with its columns
/// is corrupt and must not be served.
pub fn parse_stored_record(memo: &[u8], name: &str, ua: &str) -> (r: Option<ParsedNote>)
    ensures
        match r {
            Some(n) => stored_note(memo@, name@, ua@) == Some(n@),
            None => stored_note(memo@, name@, ua@) is None,
        },
{
    match parse_note(memo) {
        Some(note) => if text_eq(note.name.as_str(), name) && text_eq(note.ua.as_str(), ua) {
            Some(note)
        } else {
            None
        },
        None => None,
    }
}

/// The record that survives of `name` at or below `fork`.
fn surviving_record(events: &Vec<LogRow<NoteColumns>>, name: &str, fork: i64) -> (r: Result<
    Option<Record<NoteColumns>>,
    StoreError,
>)
    ensures
        surviving(through(views(events@), fork as int))(name@) == (match r {
            Ok(record) => Ok::<Option<NoteRecord>, StoreError>(option_record(record)),
            Err(e) => Err(e),
        }),
{
    match find_latest_through(events, name, fork) {
        None => Ok(None),
        Some(row) => {
            let record = &row.record;
            let note = parse_stored_record(record.extra.memo.as_slice(), name, record.ua.as_str());
            let action = Action::from_text(record.action.as_str());
            match (note, action) {
                (Some(_), Some(action)) => if action == Action::Release {
                    Ok(None)
                } else {
                    Ok(Some(record.duplicate()))
                },
                _ => Err(StoreError::CorruptRecord),
            }
        },
    }
}

fn surviving_records(events: &Vec<LogRow<NoteColumns>>, affected: &Vec<String>, fork: i64) -> (r: Result<
    Vec<Option<Record<NoteColumns>>>,
    StoreError,
>)
    ensures
        read_all(views(affected@), surviving(through(views(events@), fork as int))) == (match r {
            Ok(records) => Ok::<Seq<Option<NoteRecord>>, StoreError>(option_records(records@)),
            Err(e) => Err(e),
        }),
{
    let ghost names = views(affected@);
    let ghost f = surviving(through(views(events@), fork as int));
    let mut out: Vec<Option<Record<NoteColumns>>> = Vec::new();
    let mut i: usize = 0;
    assert(option_records(out@) =~= Seq::empty());
    while i < affected.len()
        invariant
            i <= affected.len(),
            names == views(affected@),
            f == surviving(through(views(events@), fork as int)),
            read_all(names.take(i as int), f) == Ok::<Seq<Option<NoteRecord>>, StoreError>(
                option_records(out@),
            ),
        decreases affected.len() - i,
    {
        proof {
            lemma_read_all_step(names, i as int, f);
        }
        match surviving_record(events, affected[i].as_str(), fork) {
            Ok(record) => {
                let ghost before = option_records(out@);
                out.push(record);
                assert(option_records(out@) =~= before.push(option_record(record)));
            },
            Err(e) => {
                proof {
                    lemma_read_all_fails(names, i + 1, f);
                }
                return Err(e);
            },
        }
        i += 1;
    }
    assert(names.take(names.len() as int) =~= names);
    Ok(out)
}

fn unwatch_above(watched: &mut Vec<WatchedRow>, fork: i64)
    ensures
        views(final(watched)@) == unwatched(views(old(watched)@), fork as int),
{
    let ghost all = views(watched@);
    let ghost p = |w: WatchedView| w.height <= fork as int;
    let mut i: usize = 0;
    let ghost mut done: int = 0;
    assert(views(watched@) =~= all.take(0).filter(p) + all.skip(0)) by {
        reveal(Seq::filter);
    }
    while i < watched.len()
        invariant
            p == (|w: WatchedView| w.height <= fork as int),
            0 <= done <= all.len(),
            i == all.take(done).filter(p).len(),
            i <= watched.len(),
            watched.len() - i == all.len() - done,
            views(watched@) == all.take(done).filter(p) + all.skip(done),
        decreases watched.len() - i,
    {
        proof {
            crate::log::lemma_filter_step(all, done, p);
            assert(views(watched@)[i as int] == all[done]);
        }
        if watched[i].height > fork {
            let ghost before = views(watched@);
            watched.remove(i);
            proof {
                assert(views(watched@) =~= before.remove(i as int));
                assert(before.remove(i as int) =~= all.take(done).filter(p) + all.skip(done + 1));
                done = done + 1;
            }
        } else {
            i += 1;
            proof {
                assert(views(watched@) =~= all.take(done).filter(p).push(all[done]) + all.skip(done + 1));
                done = done + 1;
            }
        }
    }
    let ghost kept = all.filter(p);
    proof {
        assert(all.take(done) =~= all);
        assert(all.skip(done) =~= Seq::empty());
        assert(views(watched@) =~= kept);
    }
    let mut k: usize = 0;
    while k < watched.len()
        invariant
            k <= watched.len(),
            watched.len() == kept.len(),
            p == (|w: WatchedView| w.height <= fork as int),
            kept == all.filter(p),
            forall|j: int| 0 <= j < k ==> #[trigger] views(watched@)[j] == unwatched(all, fork as int)[j],
            forall|j: int| k <= j < kept.len() ==> #[trigger] views(watched@)[j] == kept[j],
        decreases watched.len() - k,
    {
        let ghost was = views(watched@);
        assert(was[k as int] == watched@[k as int]@);
        let above = match watched[k].spent_height {
            Some(h) => h > fork,
            None => false,
        };
        if above {
            let row = WatchedRow {
                nullifier: copy_bytes(watched[k].nullifier.as_slice()),
                txid: copy_bytes(watched[k].txid.as_slice()),
                height: watched[k].height,
                spent_height: None,
            };
            watched.set(k, row);
            assert(views(watched@) =~= was.update(k as int, row@));
        }
        k += 1;
    }
    assert(views(watched@) =~= unwatched(all, fork as int));
}

fn move_account(account: &mut Option<AccountRow>, height: i64, hash: Option<Vec<u8>>)
    ensures
        ({
            let after = match *final(account) {
                Some(a) => Some(a@),
                None => None,
            };
            let before = match *old(account) {
                Some(a) => Some(a@),
                None => None,
            };
            after == positioned(
                before,
                height,
                match hash {
                    Some(h) => Some(h@),
                    None => None,
                },
            )
        }),
{
    if let Some(a) = account.take() {
        *account = Some(
            AccountRow {
                ufvk: a.ufvk,
                network: a.network,
                birthday: a.birthday,
                sync_height: Some(height),
                sync_hash: hash,
            },
        );
    }
}

impl Db {
    /// The main write path: one scanned batch up to `scanned`.
    pub fn apply_batch(&mut self, scanned: Cursor, transactions: &[WalletTx]) -> (r: Result<
        (),
        StoreError,
    >)
        ensures
            match after_batch(old(self)@, scanned, views(transactions@)) {
                Err(e) => r == Err::<(), StoreError>(e) && *final(self) == *old(self),
                Ok(next) => r is Ok && final(self)@ == next,
            },
    {
        let records = match derive_batch(&self.events, &self.names, transactions) {
            Ok(records) => records,
            Err(e) => {
                return Err(e);
            },
        };
        if !fits(&self.events, records.len()) {
            return Err(StoreError::Full);
        }
        watch_transactions(&mut self.watched, transactions);
        mark_transactions(&mut self.watched, transactions);
        commit_records(&mut self.events, &mut self.names, &records);
        move_account(
            &mut self.account,
            scanned.height as i64,
            Some(copy_bytes(scanned.hash.as_slice())),
        );
        assert(self@ =~= after_batch(old(self)@, scanned, views(transactions@))->Ok_0);
        Ok(())
    }

    /// Rolls the index back to `fork_height`: drops the events above it, sets
    /// each affected name to its newest surviving event, and falls back to the
    /// fork height without a hash, which the next batch fixes.
    pub fn rewind(&mut self, fork_height: u32) -> (r: Result<(), StoreError>)
        ensures
            match after_rewind(old(self)@, fork_height) {
                Err(e) => r == Err::<(), StoreError>(e) && *final(self) == *old(self),
                Ok(next) => r is Ok && final(self)@ == next,
            },
    {
        let fork = fork_height as i64;
        let affected = select_names_above(&self.events, fork);
        let records = match surviving_records(&self.events, &affected, fork) {
            Ok(records) => records,
            Err(e) => {
                return Err(e);
            },
        };
        proof {
            crate::store::lemma_read_all(
                views(affected@),
                surviving(through(views(self.events@), fork as int)),
            );
        }
        rebuild_name_tips(&mut self.names, &affected, &records);
        drop_above(&mut self.events, fork);
        unwatch_above(&mut self.watched, fork);
        move_account(&mut self.account, fork, None);
        assert(self@ =~= after_rewind(old(self)@, fork_height)->Ok_0);
        Ok(())
    }

    /// Rolls the index back to the block `to`, whose hash is known: the next
    /// scan resumes behind it.
    pub fn rewind_to(&mut self, to: Cursor) -> (r: Result<(), StoreError>)
        ensures
            match after_rewind_to(old(self)@, to) {
                Err(e) => r == Err::<(), StoreError>(e) && *final(self) == *old(self),
                Ok(next) => r is Ok && final(self)@ == next,
            },
    {
        match self.rewind(to.height) {
            Err(e) => Err(e),
            Ok(()) => {
                let ghost rewound = self@;
                move_account(
                    &mut self.account,
                    to.height as i64,
                    Some(copy_bytes(to.hash.as_slice())),
                );
                proof {
                    assert(self@ =~= (DbView {
                        account: positioned(rewound.account, to.height as i64, Some(to.hash@)),
                        ..rewound
                    }));
                }
                Ok(())
            },
        }
    }
}

// ── reads ───────────────────────────────────────────────────────────────────

/// Where a scan resumes: the registry's birthday, the last scanned position,
/// and the nullifiers whose consumption must be detected.
pub struct Resume {
    pub birthday: u32,
    pub checkpoint: Option<Cursor>,
    pub ironwood: Vec<[u8; 32]>,
}

/// The sync position an account row holds: its height and its hash, where it
/// has both and the hash has 32 bytes.
pub open spec fn position(account: Option<AccountView>) -> Option<Cursor> {
    match account {
        Some(a) => match (a.sync_height, a.sync_hash) {
            (Some(h), Some(hash)) => match as_array32(hash) {
                Some(hash) => Some(Cursor { height: h as u32, hash }),
                None => None,
            },
            _ => None,
        },
        None => None,
    }
}

/// The height an account row holds, with or without a hash.
pub open spec fn reached(account: Option<AccountView>) -> Option<u32> {
    match account {
        Some(a) => match a.sync_height {
            Some(h) => Some(h as u32),
            None => None,
        },
        None => None,
    }
}

pub open spec fn first_scan(account: Option<AccountView>) -> Result<u32, StoreError> {
    match account {
        Some(a) => Ok(a.birthday as u32),
        None => Err(StoreError::MissingRow),
    }
}

/// The elements of `s`, each where it first occurs.
pub open spec fn distinct<T>(s: Seq<T>) -> Seq<T>
    decreases s.len(),
{
    if s.len() == 0 {
        s
    } else {
        let before = distinct(s.drop_last());
        if before.contains(s.last()) {
            before
        } else {
            before.push(s.last())
        }
    }
}

/// Nothing is lost and nothing occurs twice.
pub proof fn lemma_distinct<T>(s: Seq<T>)
    ensures
        distinct(s).no_duplicates(),
        forall|x: T| #[trigger] distinct(s).contains(x) <==> s.contains(x),
    decreases s.len(),
{
    if s.len() > 0 {
        let init = s.drop_last();
        let before = distinct(init);
        lemma_distinct(init);
        assert forall|x: T| #[trigger] distinct(s).contains(x) <==> s.contains(x) by {
            assert(s.contains(x) <==> init.contains(x) || x == s.last()) by {
                if s.contains(x) {
                    let i = choose|i: int| 0 <= i < s.len() && s[i] == x;
                    if i < s.len() - 1 {
                        assert(init[i] == x);
                    }
                }
                if init.contains(x) {
                    let i = choose|i: int| 0 <= i < init.len() && init[i] == x;
                    assert(s[i] == x);
                }
                assert(s[s.len() - 1] == s.last());
            }
            assert(before.contains(x) <==> init.contains(x));
            assert(before.push(s.last()).contains(x) <==> before.contains(x) || x == s.last()) by {
                if before.contains(x) {
                    let i = choose|i: int| 0 <= i < before.len() && before[i] == x;
                    assert(before.push(s.last())[i] == x);
                }
                assert(before.push(s.last())[before.len() as int] == s.last());
            }
        }
    }
}

/// The stored nullifiers of the watch set: those of the unspent watched notes,
/// then those that hold a name.
pub open spec fn stored_nullifiers(db: DbView) -> Seq<Seq<u8>> {
    let unspent = db.watched.filter(|w: WatchedView| w.spent_height is None);
    Seq::new(unspent.len(), |i: int| unspent[i].nullifier) + Seq::new(
        db.names.len(),
        |i: int| db.names[i].extra.nullifier,
    )
}

pub open spec fn read_nullifier() -> spec_fn(Seq<u8>) -> Result<[u8; 32], StoreError> {
    |b: Seq<u8>|
        match as_array32(b) {
            Some(a) => Ok(a),
            None => Err(StoreError::CorruptRecord),
        }
}

/// The watch set: every nullifier whose consumption must be detected, each
/// once.
pub open spec fn watch_set(db: DbView) -> Result<Seq<[u8; 32]>, StoreError> {
    read_all(distinct(stored_nullifiers(db)), read_nullifier())
}

pub open spec fn decodes() -> spec_fn([u8; 32]) -> bool {
    |b: [u8; 32]| le_value(b@) < base_field_size()
}

/// A live record as it is served.
pub open spec fn served_registration() -> spec_fn(NoteRecord) -> Result<RegistrationView, StoreError> {
    |r: NoteRecord|
        match (
            stored_note(r.extra.memo, r.name, r.ua),
            as_array32(r.txid),
            action_of(r.action),
        ) {
            (Some(note), Some(txid), Some(last_action)) => Ok(
                RegistrationView {
                    name: note.name,
                    ua: note.ua,
                    expires_at: note.expiry(),
                    txid,
                    height: r.height as u32,
                    last_action,
                },
            ),
            _ => Err(StoreError::CorruptRecord),
        }
}

/// An event row as it is served.
pub open spec fn served_event() -> spec_fn(EventRow) -> Result<EventView, StoreError> {
    |row: EventRow|
        {
            let r = row.record;
            match (
                stored_note(r.extra.memo, r.name, r.ua),
                as_array32(r.txid),
                action_of(r.action),
            ) {
                (Some(note), Some(txid), Some(action)) => Ok(
                    EventView {
                        id: row.id,
                        name: note.name,
                        action,
                        ua: note.ua,
                        expires_at: note.expiry(),
                        txid,
                        height: r.height as u32,
                        action_index: r.action_index as usize,
                    },
                ),
                _ => Err(StoreError::CorruptRecord),
            }
        }
}

fn registration_from_row(r: &Record<NoteColumns>) -> (out: Result<Registration, StoreError>)
    ensures
        result_view(out) == served_registration()(r@),
{
    let note = parse_stored_record(r.extra.memo.as_slice(), r.name.as_str(), r.ua.as_str());
    let txid = to_array32(r.txid.as_slice());
    let last_action = Action::from_text(r.action.as_str());
    match (note, txid, last_action) {
        (Some(note), Some(txid), Some(last_action)) => {
            let expires_at = note.expiry();
            Ok(
                Registration {
                    name: note.name,
                    ua: note.ua,
                    expires_at,
                    txid,
                    height: r.height as u32,
                    last_action,
                },
            )
        },
        _ => Err(StoreError::CorruptRecord),
    }
}

fn event_from_row(row: &LogRow<NoteColumns>) -> (out: Result<Event, StoreError>)
    ensures
        result_view(out) == served_event()(row@),
{
    let r = &row.record;
    let note = parse_stored_record(r.extra.memo.as_slice(), r.name.as_str(), r.ua.as_str());
    let txid = to_array32(r.txid.as_slice());
    let action = Action::from_text(r.action.as_str());
    match (note, txid, action) {
        (Some(note), Some(txid), Some(action)) => {
            let expires_at = note.expiry();
            Ok(
                Event {
                    id: row.id,
                    name: note.name,
                    action,
                    ua: note.ua,
                    expires_at,
                    txid,
                    height: r.height as u32,
                    action_index: r.action_index as usize,
                },
            )
        },
        _ => Err(StoreError::CorruptRecord),
    }
}

fn has_bytes(list: &Vec<&Vec<u8>>, b: &Vec<u8>) -> (r: bool)
    ensures
        r == views(list@).contains(b@),
{
    let mut i: usize = 0;
    while i < list.len()
        invariant
            i <= list.len(),
            forall|j: int| 0 <= j < i ==> #[trigger] views(list@)[j] != b@,
        decreases list.len() - i,
    {
        assert(views(list@)[i as int] == list@[i as int]@);
        if bytes_eq(list[i].as_slice(), b.as_slice()) {
            return true;
        }
        i += 1;
    }
    false
}

/// A filtered, newest-first page of the event log and the number of matches.
pub open spec fn event_page(
    events: Seq<EventRow>,
    name: Option<Seq<char>>,
    action: Option<Action>,
    since: Option<u32>,
    limit: u32,
    offset: u32,
) -> Seq<EventRow> {
    page(
        sort_by(events.filter(asked_for(name, action, since)), newest_first()),
        limit as nat,
        offset as nat,
    )
}

impl Db {
    /// Opens the tables of a registry: an account row that is there already
    /// stays as it is.
    pub fn open(
        account: Option<AccountRow>,
        watched: Vec<WatchedRow>,
        events: Vec<LogRow<NoteColumns>>,
        names: Vec<Record<NoteColumns>>,
        ufvk: &str,
        mainnet: bool,
        birthday: u32,
    ) -> (r: Db)
        ensures
            r.watched == watched,
            r.events == events,
            r.names == names,
            match account {
                Some(a) => r.account == Some(a),
                None => r@.account == Some(fresh_account(ufvk@, mainnet, birthday)),
            },
    {
        let mut db = Db { account, watched, events, names };
        let network = if mainnet {
            "main"
        } else {
            "test"
        };
        db.install_registry_config(ufvk, network, birthday);
        db
    }

    /// Stamps the registry's identity. An identity that is set stays: the index
    /// belongs to one registry.
    pub fn install_registry_config(&mut self, ufvk: &str, network: &str, birthday: u32)
        ensures
            final(self).watched == old(self).watched,
            final(self).events == old(self).events,
            final(self).names == old(self).names,
            match old(self).account {
                Some(_) => final(self).account == old(self).account,
                None => final(self)@.account == Some(
                    AccountView {
                        ufvk: ufvk@,
                        network: network@,
                        birthday: birthday as i64,
                        sync_height: None,
                        sync_hash: None,
                    },
                ),
            },
    {
        if self.account.is_none() {
            self.account = Some(
                AccountRow {
                    ufvk: ufvk.to_string(),
                    network: network.to_string(),
                    birthday: birthday as i64,
                    sync_height: None,
                    sync_hash: None,
                },
            );
        }
    }

    /// The sync position. `None` = no checkpoint yet, or one that does not
    /// decode, which a rescan from the birthday heals: the registry replays
    /// idempotently.
    pub fn checkpoint(&self) -> (r: Result<Option<Cursor>, StoreError>)
        ensures
            r == Ok::<Option<Cursor>, StoreError>(position(self@.account)),
    {
        let position: Option<Cursor> = match &self.account {
            Some(a) => match (a.sync_height, &a.sync_hash) {
                (Some(h), Some(hash)) => match to_array32(hash.as_slice()) {
                    Some(hash) => Some(Cursor { height: h as u32, hash }),
                    None => None,
                },
                _ => None,
            },
            None => None,
        };
        Ok(position)
    }

    /// The height up to which the registry is synced. After a rewind it stands
    /// without a hash, so that there is no position to resume from.
    pub fn sync_height(&self) -> (r: Result<Option<u32>, StoreError>)
        ensures
            r == Ok::<Option<u32>, StoreError>(reached(self@.account)),
    {
        let height: Option<u32> = match &self.account {
            Some(a) => match a.sync_height {
                Some(h) => Some(h as u32),
                None => None,
            },
            None => None,
        };
        Ok(height)
    }

    /// Where a scan starts on an index that has none yet.
    pub fn birthday(&self) -> (r: Result<u32, StoreError>)
        ensures
            r == first_scan(self@.account),
    {
        match &self.account {
            Some(a) => Ok(a.birthday as u32),
            None => Err(StoreError::MissingRow),
        }
    }

    /// The registry's full viewing key. A missing account row is a broken
    /// database.
    pub fn registry_ufvk(&self) -> (r: Result<String, StoreError>)
        ensures
            result_view(r) == (match self@.account {
                Some(a) => Ok::<Seq<char>, StoreError>(a.ufvk),
                None => Err(StoreError::MissingRow),
            }),
    {
        match &self.account {
            Some(a) => Ok(a.ufvk.clone()),
            None => Err(StoreError::MissingRow),
        }
    }

    /// The watch set: unspent watched notes plus every live name's nullifier.
    pub fn ironwood_nullifiers(&self) -> (r: Result<Vec<[u8; 32]>, StoreError>)
        ensures
            match r {
                Ok(v) => watch_set(self@) == Ok::<Seq<[u8; 32]>, StoreError>(v@),
                Err(e) => watch_set(self@) == Err::<Seq<[u8; 32]>, StoreError>(e),
            },
    {
        let ghost db = self@;
        let ghost p = |w: WatchedView| w.spent_height is None;
        let ghost unspent = db.watched.filter(p);
        let ghost left = Seq::new(unspent.len(), |i: int| unspent[i].nullifier);
        let mut found: Vec<&Vec<u8>> = Vec::new();
        let mut i: usize = 0;
        proof {
            reveal(Seq::filter);
            assert(views(found@) =~= distinct(left.take(0)));
            assert(db.watched.take(0).filter(p).len() == 0);
        }
        while i < self.watched.len()
            invariant
                i <= self.watched.len(),
                db == self@,
                p == (|w: WatchedView| w.spent_height is None),
                unspent == db.watched.filter(p),
                left == Seq::new(unspent.len(), |i: int| unspent[i].nullifier),
                db.watched.take(i as int).filter(p).len() <= left.len(),
                views(found@) == distinct(
                    left.take(db.watched.take(i as int).filter(p).len() as int),
                ),
            decreases self.watched.len() - i,
        {
            let ghost m = db.watched.take(i as int).filter(p).len() as int;
            proof {
                crate::log::lemma_filter_step(db.watched, i as int, p);
                lemma_filter_prefix(db.watched, i + 1, p);
                assert(db.watched[i as int] == self.watched@[i as int]@);
            }
            if self.watched[i].spent_height.is_none() {
                proof {
                    assert(unspent.take(m + 1)[m] == db.watched[i as int]);
                    assert(left.take(m + 1).drop_last() =~= left.take(m));
                    assert(left.take(m + 1).last() == self.watched@[i as int].nullifier@);
                }
                if !has_bytes(&found, &self.watched[i].nullifier) {
                    let ghost before = views(found@);
                    found.push(&self.watched[i].nullifier);
                    assert(views(found@) =~= before.push(self.watched@[i as int].nullifier@));
                }
            }
            i += 1;
        }
        let ghost all = stored_nullifiers(db);
        let ghost n = left.len() as int;
        proof {
            assert(db.watched.take(db.watched.len() as int) =~= db.watched);
            assert(left.take(n) =~= left);
            assert(all.take(n) =~= left);
        }
        let mut k: usize = 0;
        while k < self.names.len()
            invariant
                k <= self.names.len(),
                db == self@,
                all == stored_nullifiers(db),
                n + self.names.len() == all.len(),
                0 <= n,
                forall|j: int| 0 <= j < self.names.len() ==> #[trigger] all[n + j] == db.names[j].extra.nullifier,
                views(found@) == distinct(all.take(n + k)),
            decreases self.names.len() - k,
        {
            proof {
                assert(all.take(n + k + 1).drop_last() =~= all.take(n + k));
                assert(all.take(n + k + 1).last() == all[n + k]);
                assert(db.names[k as int] == self.names@[k as int]@);
            }
            if !has_bytes(&found, &self.names[k].extra.nullifier) {
                let ghost before = views(found@);
                found.push(&self.names[k].extra.nullifier);
                assert(views(found@) =~= before.push(self.names@[k as int].extra.nullifier@));
            }
            k += 1;
        }
        assert(all.take(all.len() as int) =~= all);
        let ghost rows = views(found@);
        let mut out: Vec<[u8; 32]> = Vec::new();
        let mut j: usize = 0;
        while j < found.len()
            invariant
                j <= found.len(),
                rows == views(found@),
                rows == distinct(stored_nullifiers(self@)),
                read_all(rows.take(j as int), read_nullifier()) == Ok::<Seq<[u8; 32]>, StoreError>(out@),
            decreases found.len() - j,
        {
            proof {
                lemma_read_all_step(rows, j as int, read_nullifier());
            }
            match to_array32(found[j].as_slice()) {
                Some(a) => {
                    out.push(a);
                },
                None => {
                    proof {
                        lemma_read_all_fails(rows, j + 1, read_nullifier());
                    }
                    return Err(StoreError::CorruptRecord);
                },
            }
            j += 1;
        }
        assert(rows.take(rows.len() as int) =~= rows);
        Ok(out)
    }

    /// Everything a scan resumes from. Nullifiers that do not decode are left
    /// out.
    pub fn resume(&self) -> (r: Result<Resume, StoreError>)
        ensures
            match (watch_set(self@), first_scan(self@.account)) {
                (Err(e), _) => r == Err::<Resume, StoreError>(e),
                (Ok(_), Err(e)) => r == Err::<Resume, StoreError>(e),
                (Ok(set), Ok(birthday)) => r matches Ok(resume) && resume.birthday == birthday
                    && resume.checkpoint == position(self@.account) && resume.ironwood@ == set.filter(
                    decodes(),
                ),
            },
    {
        let checkpoint = match self.checkpoint() {
            Ok(c) => c,
            Err(e) => {
                return Err(e);
            },
        };
        let set = match self.ironwood_nullifiers() {
            Ok(set) => set,
            Err(e) => {
                return Err(e);
            },
        };
        let birthday = match self.birthday() {
            Ok(b) => b,
            Err(e) => {
                return Err(e);
            },
        };
        let mut ironwood: Vec<[u8; 32]> = Vec::new();
        let mut i: usize = 0;
        proof {
            reveal(Seq::filter);
            assert(ironwood@ =~= set@.take(0).filter(decodes()));
        }
        while i < set.len()
            invariant
                i <= set.len(),
                ironwood@ == set@.take(i as int).filter(decodes()),
            decreases set.len() - i,
        {
            proof {
                crate::log::lemma_filter_step(set@, i as int, decodes());
            }
            if is_nullifier(&set[i]) {
                ironwood.push(set[i]);
            }
            i += 1;
        }
        assert(set@.take(set@.len() as int) =~= set@);
        Ok(Resume { birthday, checkpoint, ironwood })
    }

    /// The number of live names.
    pub fn name_count(&self) -> (r: Result<u64, StoreError>)
        ensures
            r == Ok::<u64, StoreError>(self@.names.len() as u64),
    {
        Ok(self.names.len() as u64)
    }

    /// The registration of `name`; `None` where it is not registered or has
    /// been released.
    pub fn resolve_by_name(&self, name: &str) -> (r: Result<Option<Registration>, StoreError>)
        ensures
            match entry(self@.names, name@) {
                None => r == Ok::<Option<Registration>, StoreError>(None),
                Some(record) => match served_registration()(record) {
                    Ok(v) => r matches Ok(Some(reg)) && reg@ == v,
                    Err(e) => r == Err::<Option<Registration>, StoreError>(e),
                },
            },
    {
        match find(&self.names, name) {
            None => Ok(None),
            Some(record) => match registration_from_row(record) {
                Ok(reg) => Ok(Some(reg)),
                Err(e) => Err(e),
            },
        }
    }

    /// A page of the registrations bound to `ua`, and how many there are.
    pub fn registrations_by_ua(&self, ua: &str, limit: u32, offset: u32) -> (r: Result<
        (Vec<Registration>, u64),
        StoreError,
    >)
        ensures
            ({
                let bound = self@.names.filter(bound_to(ua@));
                match read_all(page(bound, limit as nat, offset as nat), served_registration()) {
                    Ok(v) => r matches Ok(out) && views(out.0@) == v && out.1 == bound.len() as u64,
                    Err(e) => r == Err::<(Vec<Registration>, u64), StoreError>(e),
                }
            }),
    {
        let rows = select_bound_to(&self.names, ua);
        let (lo, hi) = page_bounds(rows.len(), limit, offset);
        proof {
            lemma_page_bounds(views(rows@), limit, offset, lo as int, hi as int);
        }
        match read_rows(&rows, lo, hi, registration_from_row, Ghost(served_registration())) {
            Ok(v) => Ok((v, rows.len() as u64)),
            Err(e) => Err(e),
        }
    }

    /// A page of all registrations in name order, and how many there are.
    pub fn list_registrations(&self, limit: u32, offset: u32) -> (r: Result<
        (Vec<Registration>, u64),
        StoreError,
    >)
        ensures
            match read_all(page(self@.names, limit as nat, offset as nat), served_registration()) {
                Ok(v) => r matches Ok(out) && views(out.0@) == v && out.1 == self@.names.len() as u64,
                Err(e) => r == Err::<(Vec<Registration>, u64), StoreError>(e),
            },
    {
        let rows = select_all(&self.names);
        let (lo, hi) = page_bounds(rows.len(), limit, offset);
        proof {
            lemma_page_bounds(views(rows@), limit, offset, lo as int, hi as int);
        }
        match read_rows(&rows, lo, hi, registration_from_row, Ghost(served_registration())) {
            Ok(v) => Ok((v, rows.len() as u64)),
            Err(e) => Err(e),
        }
    }

    /// A filtered, newest-first page of the event log, and the number of
    /// matches before paging. `since_height` is strictly greater-than.
    pub fn events(
        &self,
        name: Option<&str>,
        action: Option<Action>,
        since_height: Option<u32>,
        limit: u32,
        offset: u32,
    ) -> (r: Result<(Vec<Event>, u64), StoreError>)
        ensures
            ({
                let name = match name {
                    Some(n) => Some(n@),
                    None => None,
                };
                let total = self@.events.filter(asked_for(name, action, since_height)).len();
                match read_all(
                    event_page(self@.events, name, action, since_height, limit, offset),
                    served_event(),
                ) {
                    Ok(v) => r matches Ok(out) && views(out.0@) == v && out.1 == total as u64,
                    Err(e) => r == Err::<(Vec<Event>, u64), StoreError>(e),
                }
            }),
    {
        let rows = select_newest_first(&self.events, name, action, since_height);
        let (lo, hi) = page_bounds(rows.len(), limit, offset);
        proof {
            lemma_page_bounds(views(rows@), limit, offset, lo as int, hi as int);
            crate::log::lemma_log_orders::<super::admission::NoteColumnsView>();
            crate::order::lemma_sort(
                self@.events.filter(
                    asked_for(
                        match name {
                            Some(n) => Some(n@),
                            None => None,
                        },
                        action,
                        since_height,
                    ),
                ),
                newest_first(),
            );
        }
        match read_rows(&rows, lo, hi, event_from_row, Ghost(served_event())) {
            Ok(v) => Ok((v, rows.len() as u64)),
            Err(e) => Err(e),
        }
    }
}

pub open spec fn fresh_account(ufvk: Seq<char>, mainnet: bool, birthday: u32) -> AccountView {
    AccountView {
        ufvk,
        network: if mainnet {
            "main"@
        } else {
            "test"@
        },
        birthday: birthday as i64,
        sync_height: None,
        sync_hash: None,
    }
}

} // verus!
