//! The name index with a materialized tip per name: the registry account, the
//! scan state, the event history, the names, and the proof material.

use vstd::prelude::*;
use vstd::string::*;

use crate::index::{
    drop_material_above, find_proof_row, material_of, proof_row, read_material, store_material,
    with_material, ChainRow, ChainRowView, Event, EventView, ProofMaterial, ProofRow, ProofRowView,
    Registration, RegistrationView,
};
use crate::kernel::{action_of, prev_rcm_for, required_prev, Action, Tip};
use crate::log::{
    asked_for, chain_order, drop_above, find_latest_through, fits, has_room, latest, names_above,
    newest_first, of_name, select_chain, select_names_above, select_newest_first, through, views,
    LogRow, Record, RecordView, RowView,
};
use crate::memo::{lifecycle_memo, parse_memo};
use crate::orchard::{verify_binding, DecryptedNote, DecryptedView};
use crate::order::{page, sort_by};
use crate::registry::Checkpoint;
use crate::store::{
    lemma_page_bounds, page_bounds, read_all, read_rows, result_view, results_view, Duplicate,
    StoreError,
};
use crate::table::{
    bound_to, commit_records, entry, find, live, logged, named, option_record, option_records,
    rebuild_name_tips, restored, select_all, select_bound_to,
};
use crate::text::{
    as_array32, copy_bytes, in_ua_namespace, shadows_ua_namespace, text_eq, to_array32,
};
use crate::verify::{fork_evidence, fork_of, plain_opening, Fork, ForkView, Outcome};

pub mod laws;
pub mod served;

verus! {

/// Reorgs up to this depth rewind incrementally.
pub const REORG_SHALLOW_MAX: u32 = 30;

/// A scan position: a height and, where known, its block hash.
pub type Cursor = (u32, Option<[u8; 32]>);

/// The columns of a name note beside those of every record.
pub struct NameColumns {
    pub prev_rcm: Vec<u8>,
    pub psi: Vec<u8>,
    pub raw_tx: Vec<u8>,
}

#[verifier::ext_equal]
pub struct NameColumnsView {
    pub prev_rcm: Seq<u8>,
    pub psi: Seq<u8>,
    pub raw_tx: Seq<u8>,
}

impl View for NameColumns {
    type V = NameColumnsView;

    open spec fn view(&self) -> NameColumnsView {
        NameColumnsView { prev_rcm: self.prev_rcm@, psi: self.psi@, raw_tx: self.raw_tx@ }
    }
}

impl Duplicate for NameColumns {
    fn duplicate(&self) -> (r: Self) {
        NameColumns {
            prev_rcm: copy_bytes(self.prev_rcm.as_slice()),
            psi: copy_bytes(self.psi.as_slice()),
            raw_tx: copy_bytes(self.raw_tx.as_slice()),
        }
    }
}

pub type NameRecord = RecordView<NameColumnsView>;

pub type NameRow = RowView<NameColumnsView>;

/// A verified name note: transition and binding passed for one decrypted note.
pub struct NameNote {
    pub name: String,
    pub ua: String,
    pub action: Action,
    pub prev_rcm: [u8; 32],
    pub rcm: [u8; 32],
    pub psi: [u8; 32],
    pub cmx: [u8; 32],
    pub txid: [u8; 32],
    pub height: u32,
    pub action_index: usize,
    pub raw_tx: Vec<u8>,
}

#[verifier::ext_equal]
pub struct NameNoteView {
    pub name: Seq<char>,
    pub ua: Seq<char>,
    pub action: Action,
    pub prev_rcm: [u8; 32],
    pub rcm: [u8; 32],
    pub psi: [u8; 32],
    pub cmx: [u8; 32],
    pub txid: [u8; 32],
    pub height: u32,
    pub action_index: usize,
    pub raw_tx: Seq<u8>,
}

impl View for NameNote {
    type V = NameNoteView;

    open spec fn view(&self) -> NameNoteView {
        NameNoteView {
            name: self.name@,
            ua: self.ua@,
            action: self.action,
            prev_rcm: self.prev_rcm,
            rcm: self.rcm,
            psi: self.psi,
            cmx: self.cmx,
            txid: self.txid,
            height: self.height,
            action_index: self.action_index,
            raw_tx: self.raw_tx@,
        }
    }
}

/// The row of a verified name note.
pub open spec fn record_of(n: NameNoteView) -> NameRecord {
    RecordView {
        name: n.name,
        height: n.height as i64,
        action: n.action.text(),
        ua: n.ua,
        rcm: n.rcm@,
        cmx: n.cmx@,
        txid: n.txid@,
        action_index: n.action_index as i64,
        extra: NameColumnsView { prev_rcm: n.prev_rcm@, psi: n.psi@, raw_tx: n.raw_tx },
    }
}

pub open spec fn records_of(notes: Seq<NameNoteView>) -> Seq<NameRecord> {
    Seq::new(notes.len(), |i: int| record_of(notes[i]))
}

/// The scan state's row.
pub struct ScanRow {
    pub height: i64,
    pub hash: Option<Vec<u8>>,
    pub chain_tip_height: Option<i64>,
    pub chain_tip_hash: Option<Vec<u8>>,
}

pub open spec fn bytes_view(b: Option<Vec<u8>>) -> Option<Seq<u8>> {
    match b {
        Some(v) => Some(v@),
        None => None,
    }
}

#[verifier::ext_equal]
pub struct ScanRowView {
    pub height: i64,
    pub hash: Option<Seq<u8>>,
    pub chain_tip_height: Option<i64>,
    pub chain_tip_hash: Option<Seq<u8>>,
}

impl View for ScanRow {
    type V = ScanRowView;

    open spec fn view(&self) -> ScanRowView {
        ScanRowView {
            height: self.height,
            hash: bytes_view(self.hash),
            chain_tip_height: self.chain_tip_height,
            chain_tip_hash: bytes_view(self.chain_tip_hash),
        }
    }
}

/// The name database. All writes go through `apply_batch` and `rewind`.
pub struct Db {
    pub uivk: Option<String>,
    pub scan_state: Option<ScanRow>,
    pub name_events: Vec<LogRow<NameColumns>>,
    pub names: Vec<Record<NameColumns>>,
    pub proof_material: Vec<ProofRow>,
}

#[verifier::ext_equal]
pub struct DbView {
    pub uivk: Option<Seq<char>>,
    pub scan_state: Option<ScanRowView>,
    pub name_events: Seq<NameRow>,
    pub names: Seq<NameRecord>,
    pub proof_material: Seq<ProofRowView>,
}

impl View for Db {
    type V = DbView;

    open spec fn view(&self) -> DbView {
        DbView {
            uivk: match self.uivk {
                Some(u) => Some(u@),
                None => None,
            },
            scan_state: match self.scan_state {
                Some(s) => Some(s@),
                None => None,
            },
            name_events: views(self.name_events@),
            names: views(self.names@),
            proof_material: views(self.proof_material@),
        }
    }
}

// ── rows as they are read ───────────────────────────────────────────────────

pub open spec fn read_action(s: Seq<char>) -> Result<Action, StoreError> {
    match action_of(s) {
        Some(a) => Ok(a),
        None => Err(StoreError::ColumnOutOfRange(0)),
    }
}

pub open spec fn read_array(b: Seq<u8>, column: usize) -> Result<[u8; 32], StoreError> {
    match as_array32(b) {
        Some(a) => Ok(a),
        None => Err(StoreError::ColumnOutOfRange(column)),
    }
}

pub open spec fn read_registration() -> spec_fn(NameRecord) -> Result<RegistrationView, StoreError> {
    |r: NameRecord|
        match read_array(r.txid, 2) {
            Err(e) => Err(e),
            Ok(txid) => match read_action(r.action) {
                Err(e) => Err(e),
                Ok(last_action) => Ok(
                    RegistrationView {
                        name: r.name,
                        ua: r.ua,
                        txid,
                        height: r.height as u32,
                        last_action,
                    },
                ),
            },
        }
}

pub open spec fn read_event() -> spec_fn(NameRow) -> Result<EventView, StoreError> {
    |row: NameRow|
        {
            let r = row.record;
            match read_action(r.action) {
                Err(e) => Err(e),
                Ok(action) => match read_array(r.txid, 4) {
                    Err(e) => Err(e),
                    Ok(txid) => Ok(
                        EventView {
                            id: row.id,
                            name: r.name,
                            action,
                            ua: r.ua,
                            txid,
                            height: r.height as u32,
                        },
                    ),
                },
            }
        }
}

pub open spec fn read_chain_row() -> spec_fn(NameRow) -> Result<ChainRowView, StoreError> {
    |row: NameRow|
        {
            let r = row.record;
            match read_action(r.action) {
                Err(e) => Err(e),
                Ok(action) => match read_array(r.txid, 3) {
                    Err(e) => Err(e),
                    Ok(txid) => Ok(
                        ChainRowView {
                            action,
                            ua: r.ua,
                            height: r.height as u32,
                            txid,
                            action_index: r.action_index as usize,
                        },
                    ),
                },
            }
        }
}

/// The tip of `name` in the name table: its action first, then its `rcm`.
pub open spec fn table_tip(names: Seq<NameRecord>, name: Seq<char>) -> Result<Option<Tip>, StoreError> {
    match entry(names, name) {
        None => Ok(None),
        Some(r) => match read_action(r.action) {
            Err(e) => Err(e),
            Ok(action) => match read_array(r.rcm, 1) {
                Err(e) => Err(e),
                Ok(rcm) => Ok(Some(Tip { action, rcm })),
            },
        },
    }
}

fn parse_action(s: &str) -> (r: Result<Action, StoreError>)
    ensures
        r == read_action(s@),
{
    match Action::from_text(s) {
        Some(a) => Ok(a),
        None => Err(StoreError::ColumnOutOfRange(0)),
    }
}

fn parse_array(b: &Vec<u8>, column: usize) -> (r: Result<[u8; 32], StoreError>)
    ensures
        r == read_array(b@, column),
{
    match to_array32(b.as_slice()) {
        Some(a) => Ok(a),
        None => Err(StoreError::ColumnOutOfRange(column)),
    }
}

fn row_to_registration(r: &Record<NameColumns>) -> (out: Result<Registration, StoreError>)
    ensures
        result_view(out) == read_registration()(r@),
{
    let txid = match parse_array(&r.txid, 2) {
        Ok(txid) => txid,
        Err(e) => {
            return Err(e);
        },
    };
    match parse_action(r.action.as_str()) {
        Ok(last_action) => Ok(
            Registration {
                name: r.name.clone(),
                ua: r.ua.clone(),
                txid,
                height: r.height as u32,
                last_action,
            },
        ),
        Err(e) => Err(e),
    }
}

fn row_to_event(row: &LogRow<NameColumns>) -> (out: Result<Event, StoreError>)
    ensures
        result_view(out) == read_event()(row@),
{
    let r = &row.record;
    let action = match parse_action(r.action.as_str()) {
        Ok(action) => action,
        Err(e) => {
            return Err(e);
        },
    };
    match parse_array(&r.txid, 4) {
        Ok(txid) => Ok(
            Event {
                id: row.id,
                name: r.name.clone(),
                action,
                ua: r.ua.clone(),
                txid,
                height: r.height as u32,
            },
        ),
        Err(e) => Err(e),
    }
}

fn row_to_chain_row(row: &LogRow<NameColumns>) -> (out: Result<ChainRow, StoreError>)
    ensures
        result_view(out) == read_chain_row()(row@),
{
    let r = &row.record;
    let action = match parse_action(r.action.as_str()) {
        Ok(action) => action,
        Err(e) => {
            return Err(e);
        },
    };
    match parse_array(&r.txid, 3) {
        Ok(txid) => Ok(
            ChainRow {
                action,
                ua: r.ua.clone(),
                height: r.height as u32,
                txid,
                action_index: r.action_index as usize,
            },
        ),
        Err(e) => Err(e),
    }
}

/// The scan state a row gives. A height outside 32 bits is an error; a hash of
/// another length, or a tip height outside 32 bits, is none.
pub open spec fn read_checkpoint(s: ScanRowView) -> Result<Checkpoint, StoreError> {
    if !(0 <= s.height <= u32::MAX) {
        Err(StoreError::ColumnOutOfRange(0))
    } else {
        Ok(
            Checkpoint {
                scanned_height: s.height as u32,
                scanned_hash: read_hash(s.hash),
                chain_tip_height: match s.chain_tip_height {
                    Some(h) => if 0 <= h <= u32::MAX {
                        Some(h as u32)
                    } else {
                        None
                    },
                    None => None,
                },
                chain_tip_hash: read_hash(s.chain_tip_hash),
            },
        )
    }
}

pub open spec fn read_hash(h: Option<Seq<u8>>) -> Option<[u8; 32]> {
    match h {
        Some(b) => as_array32(b),
        None => None,
    }
}

fn parse_hash(h: &Option<Vec<u8>>) -> (r: Option<[u8; 32]>)
    ensures
        r == read_hash(bytes_view(*h)),
{
    match h {
        Some(b) => to_array32(b.as_slice()),
        None => None,
    }
}

pub fn row_to_checkpoint(s: &ScanRow) -> (r: Result<Checkpoint, StoreError>)
    ensures
        r == read_checkpoint(s@),
{
    if s.height < 0 || s.height > u32::MAX as i64 {
        return Err(StoreError::ColumnOutOfRange(0));
    }
    let chain_tip_height = match s.chain_tip_height {
        Some(h) => if 0 <= h && h <= u32::MAX as i64 {
            Some(h as u32)
        } else {
            None
        },
        None => None,
    };
    Ok(
        Checkpoint {
            scanned_height: s.height as u32,
            scanned_hash: parse_hash(&s.hash),
            chain_tip_height,
            chain_tip_hash: parse_hash(&s.chain_tip_hash),
        },
    )
}

// ── applying a batch ────────────────────────────────────────────────────────

/// The last note staged for `name`.
pub open spec fn last_staged(staged: Seq<NameNoteView>, name: Seq<char>) -> Option<NameNoteView>
    decreases staged.len(),
{
    if staged.len() == 0 {
        None
    } else if staged.last().name == name {
        Some(staged.last())
    } else {
        last_staged(staged.drop_last(), name)
    }
}

/// The tip of `name` as the batch has left it so far: none after a release.
pub open spec fn current_tip(
    names: Seq<NameRecord>,
    staged: Seq<NameNoteView>,
    name: Seq<char>,
) -> Result<Option<Tip>, StoreError> {
    match last_staged(staged, name) {
        Some(n) => if n.action == Action::Release {
            Ok(None)
        } else {
            Ok(Some(Tip { action: n.action, rcm: n.rcm }))
        },
        None => table_tip(names, name),
    }
}

/// The event history holds one event per name and height.
pub open spec fn key_taken(
    events: Seq<NameRow>,
    staged: Seq<NameNoteView>,
    name: Seq<char>,
    height: u32,
) -> bool {
    ||| exists|i: int|
        0 <= i < events.len() && (#[trigger] events[i]).record.name == name && events[i].record.height
            == height as i64
    ||| exists|i: int|
        0 <= i < staged.len() && (#[trigger] staged[i]).name == name && staged[i].height == height
}

/// What one decrypted note adds: its memo must be a lifecycle memo for a name
/// outside the address namespace, the move must be legal on the name's chain,
/// and the note must bind it.
pub open spec fn verified_note(
    names: Seq<NameRecord>,
    staged: Seq<NameNoteView>,
    n: DecryptedView,
) -> Result<Option<NameNoteView>, StoreError> {
    match lifecycle_memo(n.memo) {
        None => Ok(None),
        Some(m) => if in_ua_namespace(m.name) {
            Ok(None)
        } else {
            match current_tip(names, staged, m.name) {
                Err(e) => Err(e),
                Ok(tip) => match required_prev(tip, m.action) {
                    None => Ok(None),
                    Some(prev_rcm) => match plain_opening(
                        n.note.spec_parts(),
                        n.cmx,
                        m.action,
                        m.name,
                        m.ua,
                        prev_rcm,
                    ) {
                        None => Ok(None),
                        Some(opening) => Ok(
                            Some(
                                NameNoteView {
                                    name: m.name,
                                    ua: m.ua,
                                    action: m.action,
                                    prev_rcm,
                                    rcm: opening.1,
                                    psi: opening.0,
                                    cmx: n.cmx,
                                    txid: n.txid,
                                    height: n.height,
                                    action_index: n.action_index,
                                    raw_tx: n.raw_tx,
                                },
                            ),
                        ),
                    },
                },
            }
        },
    }
}

/// The fork that a decrypted note is evidence of: a lifecycle memo whose move is
/// legal, on a note that verifies under another predecessor than the tip's.
pub open spec fn note_fork(
    names: Seq<NameRecord>,
    staged: Seq<NameNoteView>,
    n: DecryptedView,
) -> Option<ForkView> {
    match lifecycle_memo(n.memo) {
        None => None,
        Some(m) => if in_ua_namespace(m.name) {
            None
        } else {
            match current_tip(names, staged, m.name) {
                Err(_) => None,
                Ok(tip) => match required_prev(tip, m.action) {
                    None => None,
                    Some(prev) => fork_of(n.note.spec_parts(), n.cmx, m, n.height, prev),
                },
            }
        },
    }
}

/// The notes of a batch that verify, in order, each against the state the
/// earlier ones left.
pub open spec fn staged_notes(
    events: Seq<NameRow>,
    names: Seq<NameRecord>,
    notes: Seq<DecryptedView>,
) -> Result<Seq<NameNoteView>, StoreError>
    decreases notes.len(),
{
    if notes.len() == 0 {
        Ok(Seq::empty())
    } else {
        match staged_notes(events, names, notes.drop_last()) {
            Err(e) => Err(e),
            Ok(staged) => match verified_note(names, staged, notes.last()) {
                Err(e) => Err(e),
                Ok(None) => Ok(staged),
                Ok(Some(n)) => if key_taken(events, staged, n.name, n.height) {
                    Err(StoreError::KeyTaken)
                } else {
                    Ok(staged.push(n))
                },
            },
        }
    }
}

/// The forks that a batch's notes are evidence of, each against the state the
/// earlier ones left; a failure ends them.
pub open spec fn forks_of(
    events: Seq<NameRow>,
    names: Seq<NameRecord>,
    notes: Seq<DecryptedView>,
) -> Seq<ForkView>
    decreases notes.len(),
{
    if notes.len() == 0 {
        Seq::empty()
    } else {
        let before = forks_of(events, names, notes.drop_last());
        match staged_notes(events, names, notes.drop_last()) {
            Err(_) => before,
            Ok(staged) => match note_fork(names, staged, notes.last()) {
                Some(fork) => before.push(fork),
                None => before,
            },
        }
    }
}

proof fn lemma_staged_fails(
    events: Seq<NameRow>,
    names: Seq<NameRecord>,
    notes: Seq<DecryptedView>,
    k: int,
)
    requires
        0 <= k <= notes.len(),
        staged_notes(events, names, notes.take(k)) is Err,
    ensures
        staged_notes(events, names, notes) == staged_notes(events, names, notes.take(k)),
        forks_of(events, names, notes) == forks_of(events, names, notes.take(k)),
    decreases notes.len(),
{
    if k < notes.len() {
        assert(notes.drop_last().take(k) =~= notes.take(k));
        lemma_staged_fails(events, names, notes.drop_last(), k);
    } else {
        assert(notes.take(k) =~= notes);
    }
}

pub open spec fn scan_row(scanned: Cursor, tip: Option<Cursor>) -> ScanRowView {
    ScanRowView {
        height: scanned.0 as i64,
        hash: match scanned.1 {
            Some(h) => Some(h@),
            None => None,
        },
        chain_tip_height: match tip {
            Some(t) => Some(t.0 as i64),
            None => None,
        },
        chain_tip_hash: match tip {
            Some(t) => match t.1 {
                Some(h) => Some(h@),
                None => None,
            },
            None => None,
        },
    }
}

/// The database after a batch, and the notes it indexed.
pub open spec fn after_batch(
    db: DbView,
    scanned: Cursor,
    tip: Cursor,
    notes: Seq<DecryptedView>,
) -> Result<(DbView, Seq<NameNoteView>), StoreError> {
    match staged_notes(db.name_events, db.names, notes) {
        Err(e) => Err(e),
        Ok(staged) => if !has_room(db.name_events, staged.len()) {
            Err(StoreError::Full)
        } else {
            Ok(
                (
                    DbView {
                        name_events: logged(db.name_events, records_of(staged)),
                        names: named(db.names, records_of(staged)),
                        scan_state: Some(scan_row(scanned, Some(tip))),
                        ..db
                    },
                    staged,
                ),
            )
        },
    }
}

/// The records that survive of the affected names.
pub open spec fn survivors(events: Seq<NameRow>, affected: Seq<Seq<char>>) -> Seq<Option<NameRecord>> {
    Seq::new(affected.len(), |i: int| live(latest(events, affected[i])))
}

/// The database after a rewind to `fork` from `scanned`: a deep one wipes what
/// was scanned, a shallow one drops the events above the fork and rebuilds the
/// affected names.
pub open spec fn after_rewind(db: DbView, fork: u32, scanned: u32) -> DbView {
    if scanned - fork > REORG_SHALLOW_MAX {
        DbView {
            uivk: db.uivk,
            scan_state: None,
            name_events: Seq::empty(),
            names: Seq::empty(),
            proof_material: Seq::empty(),
        }
    } else {
        let events = through(db.name_events, fork as int);
        let affected = names_above(db.name_events, fork as int);
        DbView {
            uivk: db.uivk,
            scan_state: Some(scan_row((fork, None), None)),
            name_events: events,
            names: restored(db.names, affected, survivors(events, affected)),
            proof_material: db.proof_material.filter(|p: ProofRowView| p.height <= fork as int),
        }
    }
}

fn staged_tip(names: &Vec<Record<NameColumns>>, staged: &Vec<NameNote>, name: &str) -> (r: Result<
    Option<Tip>,
    StoreError,
>)
    ensures
        r == current_tip(views(names@), views(staged@), name@),
{
    let mut i: usize = staged.len();
    let ghost all = views(staged@);
    assert(all.take(i as int) =~= all);
    while i > 0
        invariant
            i <= staged.len(),
            all == views(staged@),
            last_staged(all, name@) == last_staged(all.take(i as int), name@),
        decreases i,
    {
        assert(all.take(i as int).drop_last() =~= all.take(i - 1));
        let n = &staged[i - 1];
        assert(all.take(i as int).last() == n@);
        if text_eq(n.name.as_str(), name) {
            return if n.action == Action::Release {
                Ok(None)
            } else {
                Ok(Some(Tip { action: n.action, rcm: n.rcm }))
            };
        }
        i -= 1;
    }
    name_tip(names, name)
}

/// The tip of `name` in the name table.
pub fn name_tip(names: &Vec<Record<NameColumns>>, name: &str) -> (r: Result<Option<Tip>, StoreError>)
    ensures
        r == table_tip(views(names@), name@),
{
    match find(names, name) {
        None => Ok(None),
        Some(record) => {
            let action = match parse_action(record.action.as_str()) {
                Ok(a) => a,
                Err(e) => {
                    return Err(e);
                },
            };
            match parse_array(&record.rcm, 1) {
                Ok(rcm) => Ok(Some(Tip { action, rcm })),
                Err(e) => Err(e),
            }
        },
    }
}

fn is_key_taken(
    events: &Vec<LogRow<NameColumns>>,
    staged: &Vec<NameNote>,
    name: &str,
    height: u32,
) -> (r: bool)
    ensures
        r == key_taken(views(events@), views(staged@), name@, height),
{
    let mut i: usize = 0;
    while i < events.len()
        invariant
            i <= events.len(),
            forall|j: int|
                0 <= j < i ==> !((#[trigger] views(events@)[j]).record.name == name@
                    && views(events@)[j].record.height == height as i64),
        decreases events.len() - i,
    {
        assert(views(events@)[i as int] == events@[i as int]@);
        if events[i].record.height == height as i64 && text_eq(events[i].record.name.as_str(), name) {
            return true;
        }
        i += 1;
    }
    let mut k: usize = 0;
    while k < staged.len()
        invariant
            k <= staged.len(),
            forall|j: int|
                0 <= j < k ==> !((#[trigger] views(staged@)[j]).name == name@ && views(staged@)[j].height
                    == height),
        decreases staged.len() - k,
    {
        assert(views(staged@)[k as int] == staged@[k as int]@);
        if staged[k].height == height && text_eq(staged[k].name.as_str(), name) {
            return true;
        }
        k += 1;
    }
    false
}

/// What one decrypted note comes to.
fn verify_note(names: &Vec<Record<NameColumns>>, staged: &Vec<NameNote>, n: &DecryptedNote) -> (r: Result<
    Outcome<NameNote>,
    StoreError,
>)
    ensures
        verified_note(views(names@), views(staged@), n@) == (match r {
            Ok(Outcome::Accepted(note)) => Ok::<Option<NameNoteView>, StoreError>(Some(note@)),
            Ok(_) => Ok(None),
            Err(e) => Err(e),
        }),
        note_fork(views(names@), views(staged@), n@) == (match r {
            Ok(Outcome::Forked(fork)) => Some(fork@),
            _ => None,
        }),
{
    let m = match parse_memo(n.memo.as_slice()) {
        Some(m) => m,
        None => {
            return Ok(Outcome::Ignored);
        },
    };
    if shadows_ua_namespace(m.name.as_str()) {
        return Ok(Outcome::Ignored);
    }
    let tip = match staged_tip(names, staged, m.name.as_str()) {
        Ok(tip) => tip,
        Err(e) => {
            return Err(e);
        },
    };
    let prev = match &tip {
        Some(t) => prev_rcm_for(Some(t), m.action),
        None => prev_rcm_for(None, m.action),
    };
    match prev {
        None => Ok(Outcome::Ignored),
        Some(prev_rcm) => match verify_binding(
            &n.note,
            n.cmx,
            m.action,
            m.name.as_str(),
            m.ua.as_str(),
            &prev_rcm,
        ) {
            None => match fork_evidence(
                &n.note.parts(),
                &n.cmx,
                m.action,
                m.name.as_str(),
                m.ua.as_str(),
                m.prev_rcm,
                &prev_rcm,
            ) {
                Some(claimed) => Ok(
                    Outcome::Forked(
                        Fork { name: m.name, height: n.height, claimed, expected: prev_rcm },
                    ),
                ),
                None => Ok(Outcome::Ignored),
            },
            Some((psi, rcm)) => Ok(
                Outcome::Accepted(
                    NameNote {
                        name: m.name,
                        ua: m.ua,
                        action: m.action,
                        prev_rcm,
                        rcm,
                        psi,
                        cmx: n.cmx,
                        txid: n.txid,
                        height: n.height,
                        action_index: n.action_index,
                        raw_tx: copy_bytes(n.raw_tx.as_slice()),
                    },
                ),
            ),
        },
    }
}

fn stage_batch(
    events: &Vec<LogRow<NameColumns>>,
    names: &Vec<Record<NameColumns>>,
    decrypted: &[DecryptedNote],
    forks: &mut Vec<Fork>,
) -> (r: Result<Vec<NameNote>, StoreError>)
    ensures
        views(final(forks)@) == views(old(forks)@) + forks_of(
            views(events@),
            views(names@),
            views(decrypted@),
        ),
        results_view(r) == staged_notes(views(events@), views(names@), views(decrypted@)),
{
    let ghost all = views(decrypted@);
    let ghost known = views(forks@);
    let mut staged: Vec<NameNote> = Vec::new();
    let mut i: usize = 0;
    assert(views(staged@) =~= Seq::empty());
    assert(known + forks_of(views(events@), views(names@), all.take(0)) =~= known);
    while i < decrypted.len()
        invariant
            i <= decrypted.len(),
            all == views(decrypted@),
            known == views(old(forks)@),
            views(forks@) == known + forks_of(views(events@), views(names@), all.take(i as int)),
            staged_notes(views(events@), views(names@), all.take(i as int)) == Ok::<
                Seq<NameNoteView>,
                StoreError,
            >(views(staged@)),
        decreases decrypted.len() - i,
    {
        let n = &decrypted[i];
        proof {
            assert(all.take(i + 1).drop_last() =~= all.take(i as int));
            assert(all.take(i + 1).last() == n@);
        }
        let ghost found = forks_of(views(events@), views(names@), all.take(i as int));
        let ghost so_far = views(forks@);
        match verify_note(names, &staged, n) {
            Err(e) => {
                proof {
                    lemma_staged_fails(views(events@), views(names@), all, i + 1);
                }
                return Err(e);
            },
            Ok(Outcome::Ignored) => {},
            Ok(Outcome::Forked(fork)) => {
                forks.push(fork);
                assert(views(forks@) =~= so_far.push(fork@));
                assert((known + found).push(fork@) =~= known + found.push(fork@));
            },
            Ok(Outcome::Accepted(note)) => {
                if is_key_taken(events, &staged, note.name.as_str(), note.height) {
                    proof {
                        lemma_staged_fails(views(events@), views(names@), all, i + 1);
                    }
                    return Err(StoreError::KeyTaken);
                }
                let ghost before = views(staged@);
                staged.push(note);
                assert(views(staged@) =~= before.push(note@));
            },
        }
        i += 1;
    }
    assert(all.take(all.len() as int) =~= all);
    Ok(staged)
}

fn build_records(notes: &Vec<NameNote>) -> (r: Vec<Record<NameColumns>>)
    ensures
        views(r@) == records_of(views(notes@)),
{
    let mut out: Vec<Record<NameColumns>> = Vec::new();
    let mut i: usize = 0;
    while i < notes.len()
        invariant
            i <= notes.len(),
            views(out@) == records_of(views(notes@)).take(i as int),
        decreases notes.len() - i,
    {
        let n = &notes[i];
        let record = Record {
            name: n.name.clone(),
            height: n.height as i64,
            action: n.action.as_str().to_string(),
            ua: n.ua.clone(),
            rcm: copy_bytes(n.rcm.as_slice()),
            cmx: copy_bytes(n.cmx.as_slice()),
            txid: copy_bytes(n.txid.as_slice()),
            action_index: n.action_index as i64,
            extra: NameColumns {
                prev_rcm: copy_bytes(n.prev_rcm.as_slice()),
                psi: copy_bytes(n.psi.as_slice()),
                raw_tx: copy_bytes(n.raw_tx.as_slice()),
            },
        };
        let ghost before = views(out@);
        out.push(record);
        proof {
            assert(views(out@) =~= before.push(record@));
            assert(views(notes@)[i as int] == n@);
            assert(record@ == record_of(n@));
            assert(views(out@) =~= records_of(views(notes@)).take(i + 1));
        }
        i += 1;
    }
    assert(records_of(views(notes@)).take(notes@.len() as int) =~= records_of(views(notes@)));
    out
}

fn surviving_records(events: &Vec<LogRow<NameColumns>>, affected: &Vec<String>, fork: i64) -> (r: Vec<
    Option<Record<NameColumns>>,
>)
    ensures
        r.len() == affected.len(),
        option_records(r@) == survivors(through(views(events@), fork as int), views(affected@)),
{
    let ghost kept = through(views(events@), fork as int);
    let mut out: Vec<Option<Record<NameColumns>>> = Vec::new();
    let mut i: usize = 0;
    while i < affected.len()
        invariant
            i <= affected.len(),
            out.len() == i,
            kept == through(views(events@), fork as int),
            forall|j: int|
                0 <= j < i ==> option_record(#[trigger] out@[j]) == live(latest(kept, affected@[j]@)),
        decreases affected.len() - i,
    {
        let record: Option<Record<NameColumns>> = match find_latest_through(
            events,
            affected[i].as_str(),
            fork,
        ) {
            None => None,
            Some(row) => if text_eq(row.record.action.as_str(), Action::Release.as_str()) {
                None
            } else {
                Some(row.record.duplicate())
            },
        };
        out.push(record);
        i += 1;
    }
    assert(option_records(out@) =~= survivors(kept, views(affected@)));
    out
}

fn opt_bytes(h: &Option<[u8; 32]>) -> (r: Option<Vec<u8>>)
    ensures
        bytes_view(r) == (match *h {
            Some(a) => Some(a@),
            None => None,
        }),
{
    match h {
        Some(a) => Some(copy_bytes(a.as_slice())),
        None => None,
    }
}

fn build_scan_row(scanned: &Cursor, tip: &Option<Cursor>) -> (r: ScanRow)
    ensures
        r@ == scan_row(*scanned, *tip),
{
    match tip {
        Some(t) => ScanRow {
            height: scanned.0 as i64,
            hash: opt_bytes(&scanned.1),
            chain_tip_height: Some(t.0 as i64),
            chain_tip_hash: opt_bytes(&t.1),
        },
        None => ScanRow {
            height: scanned.0 as i64,
            hash: opt_bytes(&scanned.1),
            chain_tip_height: None,
            chain_tip_hash: None,
        },
    }
}

impl Db {
    /// Process one scanned batch: for each decrypted note, run transition and
    /// binding, append to the event history, update the name's tip, then
    /// checkpoint. Returns only the name notes that were actually indexed. A
    /// memo's address is taken as it stands: it is not decoded for a network.
    pub fn apply_batch(&mut self, scanned: Cursor, tip: Cursor, decrypted: &[DecryptedNote]) -> (r: Result<
        Vec<NameNote>,
        StoreError,
    >)
        ensures
            match after_batch(old(self)@, scanned, tip, views(decrypted@)) {
                Err(e) => r == Err::<Vec<NameNote>, StoreError>(e) && *final(self) == *old(self),
                Ok(next) => r matches Ok(v) && views(v@) == next.1 && final(self)@ == next.0,
            },
    {
        let mut forks: Vec<Fork> = Vec::new();
        self.apply_batch_reporting(scanned, tip, decrypted, &mut forks)
    }

    /// Processes a batch as `apply_batch` does, and adds to `forks` the registry
    /// forks its notes are evidence of, whether or not the batch then fails:
    /// each note that is not indexed because it extends another predecessor
    /// than the tip that the earlier notes left.
    pub fn apply_batch_reporting(
        &mut self,
        scanned: Cursor,
        tip: Cursor,
        decrypted: &[DecryptedNote],
        forks: &mut Vec<Fork>,
    ) -> (r: Result<Vec<NameNote>, StoreError>)
        ensures
            views(final(forks)@) == views(old(forks)@) + forks_of(
                old(self)@.name_events,
                old(self)@.names,
                views(decrypted@),
            ),
            match after_batch(old(self)@, scanned, tip, views(decrypted@)) {
                Err(e) => r == Err::<Vec<NameNote>, StoreError>(e) && *final(self) == *old(self),
                Ok(next) => r matches Ok(v) && views(v@) == next.1 && final(self)@ == next.0,
            },
    {
        let staged = match stage_batch(&self.name_events, &self.names, decrypted, forks) {
            Ok(staged) => staged,
            Err(e) => {
                return Err(e);
            },
        };
        if !fits(&self.name_events, staged.len()) {
            return Err(StoreError::Full);
        }
        let records = build_records(&staged);
        commit_records(&mut self.name_events, &mut self.names, &records);
        self.scan_state = Some(build_scan_row(&scanned, &Some(tip)));
        assert(self@ =~= (after_batch(old(self)@, scanned, tip, views(decrypted@))->Ok_0).0);
        Ok(staged)
    }

    /// Handle a chain reorg: drop events above `fork_height`, rebuild the names'
    /// tips. Shallow reorgs rewind incrementally; deep ones wipe and rescan
    /// from the birthday.
    pub fn rewind(&mut self, fork_height: u32, scanned_height: u32) -> (r: Result<(), StoreError>)
        ensures
            r is Ok,
            final(self)@ == after_rewind(old(self)@, fork_height, scanned_height),
    {
        let depth: u32 = scanned_height.saturating_sub(fork_height);
        if depth > REORG_SHALLOW_MAX {
            self.name_events = Vec::new();
            self.names = Vec::new();
            self.proof_material = Vec::new();
            self.scan_state = None;
            proof {
                assert(self@.name_events =~= Seq::empty());
                assert(self@.names =~= Seq::empty());
                assert(self@.proof_material =~= Seq::empty());
            }
        } else {
            let fork = fork_height as i64;
            let affected = select_names_above(&self.name_events, fork);
            let records = surviving_records(&self.name_events, &affected, fork);
            rebuild_name_tips(&mut self.names, &affected, &records);
            drop_above(&mut self.name_events, fork);
            drop_material_above(&mut self.proof_material, fork);
            self.scan_state = Some(build_scan_row(&(fork_height, None), &None));
        }
        assert(self@ =~= after_rewind(old(self)@, fork_height, scanned_height));
        Ok(())
    }

    /// Record the registry's viewing key when the database is first created. A
    /// key that is set stays: the index's identity is fixed.
    pub fn install_registry_uivk(&mut self, uivk: &str) -> (r: Result<(), StoreError>)
        ensures
            r is Ok,
            final(self).scan_state == old(self).scan_state,
            final(self).name_events == old(self).name_events,
            final(self).names == old(self).names,
            final(self).proof_material == old(self).proof_material,
            match old(self).uivk {
                Some(_) => final(self).uivk == old(self).uivk,
                None => final(self)@.uivk == Some(uivk@),
            },
    {
        if self.uivk.is_none() {
            self.uivk = Some(uivk.to_string());
        }
        Ok(())
    }

    pub fn registry_uivk(&self) -> (r: Result<Option<String>, StoreError>)
        ensures
            r matches Ok(v) && (match self@.uivk {
                Some(u) => v matches Some(s) && s@ == u,
                None => v is None,
            }),
    {
        match &self.uivk {
            Some(u) => Ok(Some(u.clone())),
            None => Ok(None),
        }
    }

    pub fn checkpoint(&self) -> (r: Result<Option<Checkpoint>, StoreError>)
        ensures
            match self@.scan_state {
                None => r == Ok::<Option<Checkpoint>, StoreError>(None),
                Some(s) => match read_checkpoint(s) {
                    Ok(c) => r == Ok::<Option<Checkpoint>, StoreError>(Some(c)),
                    Err(e) => r == Err::<Option<Checkpoint>, StoreError>(e),
                },
            },
    {
        match &self.scan_state {
            None => Ok(None),
            Some(s) => match row_to_checkpoint(s) {
                Ok(c) => Ok(Some(c)),
                Err(e) => Err(e),
            },
        }
    }

    /// Store the proof context of a transaction (idempotent).
    pub fn insert_proof_material(
        &mut self,
        txid: &[u8; 32],
        height: u32,
        raw_tx: &[u8],
        header: &[u8],
        merkle_branch: &[[u8; 32]],
        merkle_index: u32,
    ) -> (r: Result<(), StoreError>)
        ensures
            r is Ok,
            final(self).uivk == old(self).uivk,
            final(self).scan_state == old(self).scan_state,
            final(self).name_events == old(self).name_events,
            final(self).names == old(self).names,
            final(self)@.proof_material == with_material(
                old(self)@.proof_material,
                *txid,
                height,
                raw_tx@,
                header@,
                merkle_branch@,
                merkle_index,
            ),
    {
        store_material(
            &mut self.proof_material,
            txid,
            height,
            raw_tx,
            header,
            merkle_branch,
            merkle_index,
        );
        Ok(())
    }

    pub fn proof_material(&self, txid: &[u8; 32]) -> (r: Result<Option<ProofMaterial>, StoreError>)
        ensures
            r matches Ok(m) && (match proof_row(self@.proof_material, txid@) {
                Some(row) => m matches Some(material) && material@ == material_of(row),
                None => m is None,
            }),
    {
        match find_proof_row(&self.proof_material, txid) {
            Some(row) => Ok(Some(read_material(row))),
            None => Ok(None),
        }
    }

    pub fn resolve_by_name(&self, name: &str) -> (r: Result<Option<Registration>, StoreError>)
        ensures
            match entry(self@.names, name@) {
                None => r == Ok::<Option<Registration>, StoreError>(None),
                Some(record) => match read_registration()(record) {
                    Ok(v) => r matches Ok(Some(reg)) && reg@ == v,
                    Err(e) => r == Err::<Option<Registration>, StoreError>(e),
                },
            },
    {
        match find(&self.names, name) {
            None => Ok(None),
            Some(record) => match row_to_registration(record) {
                Ok(reg) => Ok(Some(reg)),
                Err(e) => Err(e),
            },
        }
    }

    pub fn registrations_by_ua(&self, ua: &str, limit: u32, offset: u32) -> (r: Result<
        Vec<Registration>,
        StoreError,
    >)
        ensures
            results_view(r) == read_all(
                page(self@.names.filter(bound_to(ua@)), limit as nat, offset as nat),
                read_registration(),
            ),
    {
        let rows = select_bound_to(&self.names, ua);
        let (lo, hi) = page_bounds(rows.len(), limit, offset);
        proof {
            lemma_page_bounds(views(rows@), limit, offset, lo as int, hi as int);
        }
        read_rows(&rows, lo, hi, row_to_registration, Ghost(read_registration()))
    }

    pub fn list_registrations(&self, limit: u32, offset: u32) -> (r: Result<
        Vec<Registration>,
        StoreError,
    >)
        ensures
            results_view(r) == read_all(
                page(self@.names, limit as nat, offset as nat),
                read_registration(),
            ),
    {
        let rows = select_all(&self.names);
        let (lo, hi) = page_bounds(rows.len(), limit, offset);
        proof {
            lemma_page_bounds(views(rows@), limit, offset, lo as int, hi as int);
        }
        read_rows(&rows, lo, hi, row_to_registration, Ghost(read_registration()))
    }

    pub fn name_count(&self) -> (r: Result<u64, StoreError>)
        ensures
            r == Ok::<u64, StoreError>(self@.names.len() as u64),
    {
        Ok(self.names.len() as u64)
    }

    /// A filtered, newest-first page of the event history, and the number of
    /// matches before paging.
    pub fn events(
        &self,
        name: Option<&str>,
        action: Option<Action>,
        since_height: Option<u32>,
        limit: u32,
        offset: u32,
    ) -> (r: Result<(Vec<Event>, u64), StoreError>)
        ensures
            ({
                let name = match name {
                    Some(n) => Some(n@),
                    None => None,
                };
                let matching = self@.name_events.filter(asked_for(name, action, since_height));
                match read_all(
                    page(sort_by(matching, newest_first()), limit as nat, offset as nat),
                    read_event(),
                ) {
                    Ok(v) => r matches Ok(out) && views(out.0@) == v && out.1 == matching.len() as u64,
                    Err(e) => r == Err::<(Vec<Event>, u64), StoreError>(e),
                }
            }),
    {
        let rows = select_newest_first(&self.name_events, name, action, since_height);
        let (lo, hi) = page_bounds(rows.len(), limit, offset);
        proof {
            lemma_page_bounds(views(rows@), limit, offset, lo as int, hi as int);
            crate::order::lemma_sort_len(
                self@.name_events.filter(
                    asked_for(
                        match name {
                            Some(n) => Some(n@),
                            None => None,
                        },
                        action,
                        since_height,
                    ),
                ),
                newest_first(),
            );
        }
        match read_rows(&rows, lo, hi, row_to_event, Ghost(read_event())) {
            Ok(v) => Ok((v, rows.len() as u64)),
            Err(e) => Err(e),
        }
    }

    /// A name's history in chain order.
    pub fn chain_rows(&self, name: &str) -> (r: Result<Vec<ChainRow>, StoreError>)
        ensures
            results_view(r) == read_all(
                sort_by(self@.name_events.filter(of_name(name@)), chain_order()),
                read_chain_row(),
            ),
    {
        let rows = select_chain(&self.name_events, name);
        assert(views(rows@).subrange(0, rows@.len() as int) =~= views(rows@));
        read_rows(&rows, 0, rows.len(), row_to_chain_row, Ghost(read_chain_row()))
    }
}

} // verus!
