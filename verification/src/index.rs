//! The name index: an append-only action log and the views folded from it.
//!
//! The blockchain is the state machine; this index is a materialized view of
//! it. `actions` holds one row per applied name note, the canonical per-name
//! history. The current names are its fold: the latest non-released action per
//! name. A reorg drops the rows above the fork; because the log retains
//! history, the prior action of each affected name is still present, so the
//! fold is correct at any rewind depth.

use vstd::prelude::*;
use vstd::slice::slice_subrange;
use vstd::string::*;

use crate::kernel::{action_of, prev_rcm_for, required_prev, Action, Note, Tip};
use crate::log::{
    append, appended, asked_for, chain_order, drop_above, find_latest, fits, has_room, is_newer,
    latest, lemma_filter_step, newest_first, of_name, select_chain, select_newest_first, through,
    views, LogRow, Record, RecordView, RowView,
};
use crate::memo::{lifecycle_memo, parse_memo};
use crate::order::{lemma_insert_at, page, sort_by};
use crate::store::{
    lemma_page_bounds, page_bounds, read_all, read_rows, result_view, results_view, StoreError,
};
use crate::text::{
    as_array32, bytes_eq, copy_bytes, in_ua_namespace, shadows_ua_namespace, text_before, text_eq,
    text_le, to_array32,
};
use crate::verify::{
    fork_evidence, fork_of, plain_opening, verify_binding, EntryView, Fork, ForkView,
    NameChainEntry, Outcome,
};

pub mod history;
pub mod laws;
pub mod served;

verus! {

/// A synced position: the last applied block's height and hash.
#[derive(Clone, Copy, Debug)]
pub struct Cursor {
    /// Height of the last applied block.
    pub height: u32,
    /// Its block hash, if known.
    pub hash: Option<[u8; 32]>,
}

/// A decrypted name note candidate, ready for binding verification.
pub struct NameNote {
    /// The decrypted note.
    pub note: Note,
    /// Its on-chain extracted note commitment.
    pub cmx: [u8; 32],
    /// The recovered memo, carrying the action grammar.
    pub memo: Vec<u8>,
    /// The transaction that mined it.
    pub txid: [u8; 32],
    /// The block height it was mined at.
    pub height: u32,
    /// Which action in the transaction this note is.
    pub action_index: usize,
    /// The full raw transaction bytes.
    pub tx_bytes: Vec<u8>,
}

#[verifier::ext_equal]
pub struct NameNoteView {
    pub note: Note,
    pub cmx: [u8; 32],
    pub memo: Seq<u8>,
    pub txid: [u8; 32],
    pub height: u32,
    pub action_index: usize,
    pub tx_bytes: Seq<u8>,
}

impl View for NameNote {
    type V = NameNoteView;

    open spec fn view(&self) -> NameNoteView {
        NameNoteView {
            note: self.note,
            cmx: self.cmx,
            memo: self.memo@,
            txid: self.txid,
            height: self.height,
            action_index: self.action_index,
            tx_bytes: self.tx_bytes@,
        }
    }
}

/// An action `apply_notes` recorded: what proof context must be materialized
/// for.
#[derive(Debug, Clone, Copy)]
pub struct Recorded {
    /// The transaction the action was mined in.
    pub txid: [u8; 32],
    /// Its block height.
    pub height: u32,
}

/// A public registration record.
#[derive(Debug, Clone)]
pub struct Registration {
    pub name: String,
    /// The address bound to it.
    pub ua: String,
    /// The transaction of the name note that set the current state.
    pub txid: [u8; 32],
    /// The block height of that name note.
    pub height: u32,
    /// The kind of the latest action.
    pub last_action: Action,
}

#[verifier::ext_equal]
pub struct RegistrationView {
    pub name: Seq<char>,
    pub ua: Seq<char>,
    pub txid: [u8; 32],
    pub height: u32,
    pub last_action: Action,
}

impl View for Registration {
    type V = RegistrationView;

    open spec fn view(&self) -> RegistrationView {
        RegistrationView {
            name: self.name@,
            ua: self.ua@,
            txid: self.txid,
            height: self.height,
            last_action: self.last_action,
        }
    }
}

/// The stored proof context for one name note transaction.
#[derive(Debug, Clone)]
pub struct ProofMaterial {
    /// The full raw transaction.
    pub raw_tx: Vec<u8>,
    /// The raw block header.
    pub header: Vec<u8>,
    /// Merkle branch siblings, leaf to root.
    pub merkle_branch: Vec<[u8; 32]>,
    /// The transaction's leaf position in the block's Merkle tree.
    pub merkle_index: u32,
}

#[verifier::ext_equal]
pub struct MaterialView {
    pub raw_tx: Seq<u8>,
    pub header: Seq<u8>,
    pub merkle_branch: Seq<[u8; 32]>,
    pub merkle_index: u32,
}

impl View for ProofMaterial {
    type V = MaterialView;

    open spec fn view(&self) -> MaterialView {
        MaterialView {
            raw_tx: self.raw_tx@,
            header: self.header@,
            merkle_branch: self.merkle_branch@,
            merkle_index: self.merkle_index,
        }
    }
}

/// One applied action of a name's chain, with its proof pointers.
#[derive(Debug, Clone)]
pub struct ChainRow {
    pub action: Action,
    /// The address involved (empty for a release).
    pub ua: String,
    pub height: u32,
    pub txid: [u8; 32],
    /// Which action in that transaction is the name note.
    pub action_index: usize,
}

#[verifier::ext_equal]
pub struct ChainRowView {
    pub action: Action,
    pub ua: Seq<char>,
    pub height: u32,
    pub txid: [u8; 32],
    pub action_index: usize,
}

impl View for ChainRow {
    type V = ChainRowView;

    open spec fn view(&self) -> ChainRowView {
        ChainRowView {
            action: self.action,
            ua: self.ua@,
            height: self.height,
            txid: self.txid,
            action_index: self.action_index,
        }
    }
}

/// One row of the public event log.
#[derive(Debug, Clone)]
pub struct Event {
    /// Stable log id: the row's insertion order.
    pub id: i64,
    pub name: String,
    pub action: Action,
    /// The address involved (empty for a release).
    pub ua: String,
    pub txid: [u8; 32],
    pub height: u32,
}

#[verifier::ext_equal]
pub struct EventView {
    pub id: i64,
    pub name: Seq<char>,
    pub action: Action,
    pub ua: Seq<char>,
    pub txid: [u8; 32],
    pub height: u32,
}

impl View for Event {
    type V = EventView;

    open spec fn view(&self) -> EventView {
        EventView {
            id: self.id,
            name: self.name@,
            action: self.action,
            ua: self.ua@,
            txid: self.txid,
            height: self.height,
        }
    }
}

/// The log's rows have no columns beside the common ones.
pub struct NoColumns;

impl View for NoColumns {
    type V = NoColumns;

    open spec fn view(&self) -> NoColumns {
        NoColumns
    }
}

pub type ActionRow = RowView<NoColumns>;

pub type ActionRecord = RecordView<NoColumns>;

/// A stored proof row; the branch is its concatenated siblings.
pub struct ProofRow {
    pub txid: Vec<u8>,
    pub height: i64,
    pub raw_tx: Vec<u8>,
    pub header: Vec<u8>,
    pub merkle_branch: Vec<u8>,
    pub merkle_index: i64,
}

#[verifier::ext_equal]
pub struct ProofRowView {
    pub txid: Seq<u8>,
    pub height: i64,
    pub raw_tx: Seq<u8>,
    pub header: Seq<u8>,
    pub merkle_branch: Seq<u8>,
    pub merkle_index: i64,
}

impl View for ProofRow {
    type V = ProofRowView;

    open spec fn view(&self) -> ProofRowView {
        ProofRowView {
            txid: self.txid@,
            height: self.height,
            raw_tx: self.raw_tx@,
            header: self.header@,
            merkle_branch: self.merkle_branch@,
            merkle_index: self.merkle_index,
        }
    }
}

/// The resume cursor's row.
pub struct SyncRow {
    pub height: i64,
    pub hash: Option<Vec<u8>>,
}

#[verifier::ext_equal]
pub struct SyncRowView {
    pub height: i64,
    pub hash: Option<Seq<u8>>,
}

impl View for SyncRow {
    type V = SyncRowView;

    open spec fn view(&self) -> SyncRowView {
        SyncRowView {
            height: self.height,
            hash: match self.hash {
                Some(h) => Some(h@),
                None => None,
            },
        }
    }
}

/// The name index: the tables of its SQLite store.
pub struct SqliteIndex {
    pub actions: Vec<LogRow<NoColumns>>,
    pub proof_material: Vec<ProofRow>,
    pub sync_state: Option<SyncRow>,
}

#[verifier::ext_equal]
pub struct IndexView {
    pub actions: Seq<ActionRow>,
    pub proof_material: Seq<ProofRowView>,
    pub sync_state: Option<SyncRowView>,
}

impl View for SqliteIndex {
    type V = IndexView;

    open spec fn view(&self) -> IndexView {
        IndexView {
            actions: views(self.actions@),
            proof_material: views(self.proof_material@),
            sync_state: match self.sync_state {
                Some(s) => Some(s@),
                None => None,
            },
        }
    }
}

// ── rows as they are read ───────────────────────────────────────────────────

pub open spec fn read_action(s: Seq<char>) -> Result<Action, StoreError> {
    match action_of(s) {
        Some(a) => Ok(a),
        None => Err(StoreError::ColumnOutOfRange(3)),
    }
}

pub open spec fn read_txid(txid: Seq<u8>, column: usize) -> Result<[u8; 32], StoreError> {
    match as_array32(txid) {
        Some(a) => Ok(a),
        None => Err(StoreError::ColumnOutOfRange(column)),
    }
}

/// A row as the chain rule reads it: its `rcm` first, then its action.
pub open spec fn read_entry(row: ActionRow) -> Result<EntryView, StoreError> {
    let r = row.record;
    match read_txid(r.rcm, 2) {
        Err(e) => Err(e),
        Ok(rcm) => match read_action(r.action) {
            Err(e) => Err(e),
            Ok(last_action) => Ok(EntryView { name: r.name, ua: r.ua, rcm, last_action }),
        },
    }
}

pub open spec fn read_registration() -> spec_fn(ActionRow) -> Result<RegistrationView, StoreError> {
    |row: ActionRow|
        {
            let r = row.record;
            match read_txid(r.txid, 2) {
                Err(e) => Err(e),
                Ok(txid) => match read_action(r.action) {
                    Err(e) => Err(e),
                    Ok(last_action) => Ok(
                        RegistrationView {
                            name: r.name,
                            ua: r.ua,
                            txid,
                            height: r.height as u32,
                            last_action,
                        },
                    ),
                },
            }
        }
}

pub open spec fn read_event() -> spec_fn(ActionRow) -> Result<EventView, StoreError> {
    |row: ActionRow|
        {
            let r = row.record;
            match read_action(r.action) {
                Err(e) => Err(e),
                Ok(action) => match read_txid(r.txid, 4) {
                    Err(e) => Err(e),
                    Ok(txid) => Ok(
                        EventView {
                            id: row.id,
                            name: r.name,
                            action,
                            ua: r.ua,
                            txid,
                            height: r.height as u32,
                        },
                    ),
                },
            }
        }
}

pub open spec fn read_chain_row() -> spec_fn(ActionRow) -> Result<ChainRowView, StoreError> {
    |row: ActionRow|
        {
            let r = row.record;
            match read_action(r.action) {
                Err(e) => Err(e),
                Ok(action) => match read_txid(r.txid, 3) {
                    Err(e) => Err(e),
                    Ok(txid) => Ok(
                        ChainRowView {
                            action,
                            ua: r.ua,
                            height: r.height as u32,
                            txid,
                            action_index: r.action_index as usize,
                        },
                    ),
                },
            }
        }
}

pub fn parse_action(s: &str) -> (r: Result<Action, StoreError>)
    ensures
        r == read_action(s@),
{
    match Action::from_text(s) {
        Some(a) => Ok(a),
        None => Err(StoreError::ColumnOutOfRange(3)),
    }
}

fn parse_txid(txid: &Vec<u8>, column: usize) -> (r: Result<[u8; 32], StoreError>)
    ensures
        r == read_txid(txid@, column),
{
    match to_array32(txid.as_slice()) {
        Some(a) => Ok(a),
        None => Err(StoreError::ColumnOutOfRange(column)),
    }
}

fn row_to_entry(row: &LogRow<NoColumns>) -> (r: Result<NameChainEntry, StoreError>)
    ensures
        result_view(r) == read_entry(row@),
{
    let rcm = match parse_txid(&row.record.rcm, 2) {
        Ok(rcm) => rcm,
        Err(e) => {
            return Err(e);
        },
    };
    match parse_action(row.record.action.as_str()) {
        Ok(last_action) => Ok(
            NameChainEntry {
                name: row.record.name.clone(),
                ua: row.record.ua.clone(),
                rcm,
                last_action,
            },
        ),
        Err(e) => Err(e),
    }
}

fn row_to_registration(row: &LogRow<NoColumns>) -> (r: Result<Registration, StoreError>)
    ensures
        result_view(r) == read_registration()(row@),
{
    let txid = match parse_txid(&row.record.txid, 2) {
        Ok(txid) => txid,
        Err(e) => {
            return Err(e);
        },
    };
    match parse_action(row.record.action.as_str()) {
        Ok(last_action) => Ok(
            Registration {
                name: row.record.name.clone(),
                ua: row.record.ua.clone(),
                txid,
                height: row.record.height as u32,
                last_action,
            },
        ),
        Err(e) => Err(e),
    }
}

fn row_to_event(row: &LogRow<NoColumns>) -> (r: Result<Event, StoreError>)
    ensures
        result_view(r) == read_event()(row@),
{
    let action = match parse_action(row.record.action.as_str()) {
        Ok(action) => action,
        Err(e) => {
            return Err(e);
        },
    };
    match parse_txid(&row.record.txid, 4) {
        Ok(txid) => Ok(
            Event {
                id: row.id,
                name: row.record.name.clone(),
                action,
                ua: row.record.ua.clone(),
                txid,
                height: row.record.height as u32,
            },
        ),
        Err(e) => Err(e),
    }
}

fn row_to_chain_row(row: &LogRow<NoColumns>) -> (r: Result<ChainRow, StoreError>)
    ensures
        result_view(r) == read_chain_row()(row@),
{
    let action = match parse_action(row.record.action.as_str()) {
        Ok(action) => action,
        Err(e) => {
            return Err(e);
        },
    };
    match parse_txid(&row.record.txid, 3) {
        Ok(txid) => Ok(
            ChainRow {
                action,
                ua: row.record.ua.clone(),
                height: row.record.height as u32,
                txid,
                action_index: row.record.action_index as usize,
            },
        ),
        Err(e) => Err(e),
    }
}

// ── the current names ───────────────────────────────────────────────────────

/// No row of the same name is newer.
pub open spec fn is_tip(log: Seq<ActionRow>, row: ActionRow) -> bool {
    forall|j: int|
        0 <= j < log.len() && log[j].record.name == row.record.name ==> !is_newer(
            #[trigger] log[j],
            row,
        )
}

/// The resolution view: the latest action per name, released names excluded.
pub open spec fn is_current(log: Seq<ActionRow>) -> spec_fn(ActionRow) -> bool {
    |row: ActionRow| is_tip(log, row) && row.record.action != Action::Release.text()
}

/// The current rows whose address is `ua`, or all of them.
pub open spec fn current_bound(log: Seq<ActionRow>, ua: Option<Seq<char>>) -> spec_fn(ActionRow) -> bool {
    |row: ActionRow| is_current(log)(row) && (ua is None || row.record.ua == ua->0)
}

pub open spec fn row_name_order() -> spec_fn(ActionRow, ActionRow) -> bool {
    |a: ActionRow, b: ActionRow| text_le(a.record.name, b.record.name)
}

fn is_tip_row(rows: &Vec<LogRow<NoColumns>>, row: &LogRow<NoColumns>) -> (r: bool)
    ensures
        r == is_tip(views(rows@), row@),
{
    let mut j: usize = 0;
    while j < rows.len()
        invariant
            j <= rows.len(),
            forall|k: int|
                0 <= k < j && views(rows@)[k].record.name == row@.record.name ==> !is_newer(
                    #[trigger] views(rows@)[k],
                    row@,
                ),
        decreases rows.len() - j,
    {
        let other = &rows[j];
        assert(views(rows@)[j as int] == other@);
        if (other.record.height > row.record.height || (other.record.height == row.record.height
            && other.id > row.id)) && text_eq(other.record.name.as_str(), row.record.name.as_str()) {
            return false;
        }
        j += 1;
    }
    true
}

/// The current rows bound to `ua` (or all of them) in name order.
fn select_current<'a>(rows: &'a Vec<LogRow<NoColumns>>, ua: Option<&str>) -> (r: Vec<
    &'a LogRow<NoColumns>,
>)
    ensures
        views(r@) == sort_by(
            views(rows@).filter(
                current_bound(
                    views(rows@),
                    match ua {
                        Some(u) => Some(u@),
                        None => None,
                    },
                ),
            ),
            row_name_order(),
        ),
{
    let ghost log = views(rows@);
    let ghost want = current_bound(
        log,
        match ua {
            Some(u) => Some(u@),
            None => None,
        },
    );
    let mut out: Vec<&'a LogRow<NoColumns>> = Vec::new();
    let mut i: usize = 0;
    assert(views(out@) =~= sort_by(log.take(0).filter(want), row_name_order())) by {
        reveal(Seq::filter);
    }
    while i < rows.len()
        invariant
            i <= rows.len(),
            log == views(rows@),
            want == current_bound(
                log,
                match ua {
                    Some(u) => Some(u@),
                    None => None,
                },
            ),
            views(out@) == sort_by(log.take(i as int).filter(want), row_name_order()),
        decreases rows.len() - i,
    {
        let row = &rows[i];
        proof {
            lemma_filter_step(log, i as int, want);
        }
        let released = text_eq(row.record.action.as_str(), Action::Release.as_str());
        let ua_fits = match ua {
            Some(u) => text_eq(row.record.ua.as_str(), u),
            None => true,
        };
        if !released && ua_fits && is_tip_row(rows, row) {
            let ghost kept = log.take(i as int).filter(want);
            let mut p: usize = out.len();
            while p > 0 && !text_before(out[p - 1].record.name.as_str(), row.record.name.as_str())
                invariant
                    p <= out.len(),
                    forall|j: int| p <= j < out.len() ==> !row_name_order()(
                        #[trigger] views(out@)[j],
                        row@,
                    ),
                decreases p,
            {
                p -= 1;
                assert(views(out@)[p as int] == out@[p as int]@);
            }
            proof {
                let s = views(out@);
                if p > 0 {
                    assert(s[p - 1] == out@[p - 1]@);
                }
                lemma_insert_at(s, row@, row_name_order(), p as int);
                assert(kept.push(row@).drop_last() =~= kept);
            }
            let ghost before = views(out@);
            out.insert(p, row);
            assert(views(out@) =~= before.insert(p as int, row@));
        }
        i += 1;
    }
    assert(log.take(log.len() as int) =~= log);
    out
}

// ── applying notes ──────────────────────────────────────────────────────────

/// The tip of `name` in the log, a release included.
pub open spec fn tip_in(log: Seq<ActionRow>, name: Seq<char>) -> Result<Option<Tip>, StoreError> {
    match latest(log, name) {
        None => Ok(None),
        Some(row) => match read_entry(row) {
            Ok(e) => Ok(Some(e.tip())),
            Err(e) => Err(e),
        },
    }
}

/// The row that records an action.
pub open spec fn action_record(
    name: Seq<char>,
    ua: Seq<char>,
    rcm: [u8; 32],
    cmx: [u8; 32],
    txid: [u8; 32],
    height: u32,
    action: Action,
    action_index: usize,
) -> ActionRecord {
    RecordView {
        name,
        height: height as i64,
        action: action.text(),
        ua,
        rcm: rcm@,
        cmx: cmx@,
        txid: txid@,
        action_index: action_index as i64,
        extra: NoColumns,
    }
}

/// The record a note adds to the log: its memo must be a lifecycle memo for a
/// name outside the address namespace, the action must fit the name's tip, and
/// the note must bind it.
pub open spec fn note_record(log: Seq<ActionRow>, n: NameNoteView) -> Result<
    Option<ActionRecord>,
    StoreError,
> {
    match lifecycle_memo(n.memo) {
        None => Ok(None),
        Some(m) => if in_ua_namespace(m.name) {
            Ok(None)
        } else {
            match tip_in(log, m.name) {
                Err(e) => Err(e),
                Ok(tip) => match required_prev(tip, m.action) {
                    None => Ok(None),
                    Some(prev) => match plain_opening(
                        n.note.spec_parts(),
                        n.cmx,
                        m.action,
                        m.name,
                        m.ua,
                        prev,
                    ) {
                        None => Ok(None),
                        Some(opening) => Ok(
                            Some(
                                action_record(
                                    m.name,
                                    m.ua,
                                    opening.1,
                                    n.cmx,
                                    n.txid,
                                    n.height,
                                    m.action,
                                    n.action_index,
                                ),
                            ),
                        ),
                    },
                },
            }
        },
    }
}

/// The fork that a note is evidence of: a lifecycle memo whose action fits the
/// name's tip, on a note that verifies under another predecessor than the tip's.
pub open spec fn note_fork(log: Seq<ActionRow>, n: NameNoteView) -> Option<ForkView> {
    match lifecycle_memo(n.memo) {
        None => None,
        Some(m) => if in_ua_namespace(m.name) {
            None
        } else {
            match tip_in(log, m.name) {
                Err(_) => None,
                Ok(tip) => match required_prev(tip, m.action) {
                    None => None,
                    Some(prev) => fork_of(n.note.spec_parts(), n.cmx, m, n.height, prev),
                },
            }
        },
    }
}

/// The log and the list of recorded actions.
#[verifier::ext_equal]
pub struct AppliedView {
    pub log: Seq<ActionRow>,
    pub recorded: Seq<Recorded>,
}

/// One note applied on top of those before it.
pub open spec fn applied_one(state: AppliedView, n: NameNoteView) -> Result<AppliedView, StoreError> {
    match note_record(state.log, n) {
        Err(e) => Err(e),
        Ok(None) => Ok(state),
        Ok(Some(record)) => if !has_room(state.log, 0) {
            Err(StoreError::Full)
        } else {
            Ok(
                AppliedView {
                    log: appended(state.log, record),
                    recorded: state.recorded.push(Recorded { txid: n.txid, height: n.height }),
                },
            )
        },
    }
}

/// The notes applied in order, each against the log the earlier ones left.
pub open spec fn applied(log: Seq<ActionRow>, notes: Seq<NameNoteView>) -> Result<
    AppliedView,
    StoreError,
>
    decreases notes.len(),
{
    if notes.len() == 0 {
        Ok(AppliedView { log, recorded: Seq::empty() })
    } else {
        match applied(log, notes.drop_last()) {
            Err(e) => Err(e),
            Ok(state) => applied_one(state, notes.last()),
        }
    }
}

/// The forks that notes are evidence of, each against the log the earlier ones
/// left; a failure ends them.
pub open spec fn forks_of(log: Seq<ActionRow>, notes: Seq<NameNoteView>) -> Seq<ForkView>
    decreases notes.len(),
{
    if notes.len() == 0 {
        Seq::empty()
    } else {
        let before = forks_of(log, notes.drop_last());
        match applied(log, notes.drop_last()) {
            Err(_) => before,
            Ok(state) => match note_fork(state.log, notes.last()) {
                Some(fork) => before.push(fork),
                None => before,
            },
        }
    }
}

pub proof fn lemma_applied_fails(log: Seq<ActionRow>, notes: Seq<NameNoteView>, k: int)
    requires
        0 <= k <= notes.len(),
        applied(log, notes.take(k)) is Err,
    ensures
        applied(log, notes) == applied(log, notes.take(k)),
        forks_of(log, notes) == forks_of(log, notes.take(k)),
    decreases notes.len(),
{
    if k < notes.len() {
        assert(notes.drop_last().take(k) =~= notes.take(k));
        lemma_applied_fails(log, notes.drop_last(), k);
    } else {
        assert(notes.take(k) =~= notes);
    }
}

/// The log only grows, by one row per recorded action.
pub proof fn lemma_applied_grows(log: Seq<ActionRow>, notes: Seq<NameNoteView>)
    requires
        applied(log, notes) is Ok,
    ensures
        ({
            let next = applied(log, notes)->Ok_0;
            &&& next.log.len() == log.len() + next.recorded.len()
            &&& next.log.take(log.len() as int) == log
        }),
    decreases notes.len(),
{
    if notes.len() == 0 {
        assert(log.take(log.len() as int) =~= log);
    } else {
        lemma_applied_grows(log, notes.drop_last());
        let before = applied(log, notes.drop_last())->Ok_0;
        let next = applied(log, notes)->Ok_0;
        assert(next.log.take(log.len() as int) =~= before.log.take(log.len() as int));
    }
}

/// What a note comes to against the log.
fn judge(rows: &Vec<LogRow<NoColumns>>, n: &NameNote) -> (r: Result<
    Outcome<Record<NoColumns>>,
    StoreError,
>)
    ensures
        note_record(views(rows@), n@) == (match r {
            Ok(Outcome::Accepted(record)) => Ok::<Option<ActionRecord>, StoreError>(Some(record@)),
            Ok(_) => Ok(None),
            Err(e) => Err(e),
        }),
        note_fork(views(rows@), n@) == (match r {
            Ok(Outcome::Forked(fork)) => Some(fork@),
            _ => None,
        }),
{
    let m = match parse_memo(n.memo.as_slice()) {
        Some(m) => m,
        None => {
            return Ok(Outcome::Ignored);
        },
    };
    // A name that is a plausible address string would permanently shadow
    // reverse lookup for that address.
    if shadows_ua_namespace(m.name.as_str()) {
        return Ok(Outcome::Ignored);
    }
    let entry = match find_latest(rows, m.name.as_str()) {
        None => None,
        Some(row) => match row_to_entry(row) {
            Ok(e) => Some(e.tip()),
            Err(e) => {
                return Err(e);
            },
        },
    };
    // The predecessor is the current tip's rcm, reconstructed from the log,
    // not the one the memo discloses.
    let prev = match &entry {
        Some(tip) => prev_rcm_for(Some(tip), m.action),
        None => prev_rcm_for(None, m.action),
    };
    match prev {
        None => Ok(Outcome::Ignored),
        Some(prev) => match verify_binding(
            &n.note,
            n.cmx,
            m.action,
            m.name.as_str(),
            m.ua.as_str(),
            &prev,
        ) {
            None => match fork_evidence(
                &n.note.parts(),
                &n.cmx,
                m.action,
                m.name.as_str(),
                m.ua.as_str(),
                m.prev_rcm,
                &prev,
            ) {
                Some(claimed) => Ok(
                    Outcome::Forked(
                        Fork { name: m.name, height: n.height, claimed, expected: prev },
                    ),
                ),
                None => Ok(Outcome::Ignored),
            },
            Some(rcm) => Ok(
                Outcome::Accepted(
                    Record {
                        name: m.name,
                        height: n.height as i64,
                        action: m.action.as_str().to_string(),
                        ua: m.ua,
                        rcm: copy_bytes(rcm.as_slice()),
                        cmx: copy_bytes(n.cmx.as_slice()),
                        txid: copy_bytes(n.txid.as_slice()),
                        action_index: n.action_index as i64,
                        extra: NoColumns,
                    },
                ),
            ),
        },
    }
}

/// Applies the notes to the log, and adds the forks they are evidence of to
/// `forks`; on a failure the log is as it was.
fn apply_to_log(
    rows: &mut Vec<LogRow<NoColumns>>,
    notes: &[NameNote],
    forks: &mut Vec<Fork>,
) -> (r: Result<Vec<Recorded>, StoreError>)
    ensures
        views(final(forks)@) == views(old(forks)@) + forks_of(views(old(rows)@), views(notes@)),
        match applied(views(old(rows)@), views(notes@)) {
            Err(e) => r == Err::<Vec<Recorded>, StoreError>(e) && views(final(rows)@) == views(
                old(rows)@,
            ),
            Ok(next) => r matches Ok(v) && v@ == next.recorded && views(final(rows)@) == next.log,
        },
{
    let ghost log = views(rows@);
    let ghost all = views(notes@);
    let n0: usize = rows.len();
    let ghost known = views(forks@);
    let mut recorded: Vec<Recorded> = Vec::new();
    let mut i: usize = 0;
    assert(known + forks_of(log, all.take(0)) =~= known);
    while i < notes.len()
        invariant
            i <= notes.len(),
            all == views(notes@),
            log.len() == n0,
            log == views(old(rows)@),
            known == views(old(forks)@),
            views(forks@) == known + forks_of(log, all.take(i as int)),
            applied(log, all.take(i as int)) == Ok::<AppliedView, StoreError>(
                AppliedView { log: views(rows@), recorded: recorded@ },
            ),
        decreases notes.len() - i,
    {
        let n = &notes[i];
        proof {
            assert(all.take(i + 1).drop_last() =~= all.take(i as int));
            assert(all.take(i + 1).last() == n@);
            lemma_applied_grows(log, all.take(i as int));
        }
        let ghost found = forks_of(log, all.take(i as int));
        let ghost before = views(forks@);
        let failure: Option<StoreError> = match judge(rows, n) {
            Ok(Outcome::Ignored) => None,
            Ok(Outcome::Forked(fork)) => {
                forks.push(fork);
                assert(views(forks@) =~= before.push(fork@));
                assert((known + found).push(fork@) =~= known + found.push(fork@));
                None
            },
            Ok(Outcome::Accepted(record)) => if fits(rows, 0) {
                append(rows, record);
                recorded.push(Recorded { txid: n.txid, height: n.height });
                None
            } else {
                Some(StoreError::Full)
            },
            Err(e) => Some(e),
        };
        if let Some(e) = failure {
            proof {
                lemma_applied_fails(log, all, i + 1);
            }
            let ghost before = views(rows@);
            rows.truncate(n0);
            assert(views(rows@) =~= before.take(n0 as int));
            return Err(e);
        }
        i += 1;
    }
    assert(all.take(all.len() as int) =~= all);
    Ok(recorded)
}

/// The position a batch leaves.
pub open spec fn sync_row(height: u32, hash: Option<[u8; 32]>) -> SyncRowView {
    SyncRowView {
        height: height as i64,
        hash: match hash {
            Some(h) => Some(h@),
            None => None,
        },
    }
}

/// The position a row gives: none at height zero; a hash of another length is
/// no hash.
pub open spec fn cursor_of(row: Option<SyncRowView>) -> Option<(u32, Option<[u8; 32]>)> {
    match row {
        Some(s) => if s.height != 0 {
            Some(
                (
                    s.height as u32,
                    match s.hash {
                        Some(h) => as_array32(h),
                        None => None,
                    },
                ),
            )
        } else {
            None
        },
        None => None,
    }
}

/// The index after a batch of notes up to `at`.
pub open spec fn index_after_notes(index: IndexView, at: Cursor, notes: Seq<NameNoteView>) -> Result<
    (IndexView, Seq<Recorded>),
    StoreError,
> {
    match applied(index.actions, notes) {
        Err(e) => Err(e),
        Ok(next) => Ok(
            (
                IndexView {
                    actions: next.log,
                    sync_state: Some(sync_row(at.height, at.hash)),
                    ..index
                },
                next.recorded,
            ),
        ),
    }
}

/// The index rewound to `to`: without the actions above it and the proof
/// material of the blocks above it.
pub open spec fn index_after_rewind(index: IndexView, to: u32) -> IndexView {
    IndexView {
        actions: through(index.actions, to as int),
        proof_material: index.proof_material.filter(|p: ProofRowView| p.height <= to as int),
        sync_state: Some(sync_row(to, None)),
    }
}

// ── proof material ──────────────────────────────────────────────────────────

/// The siblings of a branch, one after another.
pub open spec fn flat_branch(branch: Seq<[u8; 32]>) -> Seq<u8>
    decreases branch.len(),
{
    if branch.len() == 0 {
        Seq::empty()
    } else {
        flat_branch(branch.drop_last()) + branch.last()@
    }
}

/// The 32-byte siblings a stored branch holds; an incomplete one at the end is
/// dropped.
pub open spec fn branch_of(bytes: Seq<u8>) -> Seq<[u8; 32]> {
    Seq::new(bytes.len() / 32, |i: int| as_array32(bytes.subrange(32 * i, 32 * i + 32))->0)
}

/// The row of `txid`.
pub open spec fn proof_row(rows: Seq<ProofRowView>, txid: Seq<u8>) -> Option<ProofRowView>
    decreases rows.len(),
{
    if rows.len() == 0 {
        None
    } else if rows[0].txid == txid {
        Some(rows[0])
    } else {
        proof_row(rows.skip(1), txid)
    }
}

pub open spec fn material_of(row: ProofRowView) -> MaterialView {
    MaterialView {
        raw_tx: row.raw_tx,
        header: row.header,
        merkle_branch: branch_of(row.merkle_branch),
        merkle_index: row.merkle_index as u32,
    }
}

/// The rows with a transaction's proof context stored, unless one is there.
pub open spec fn with_material(
    rows: Seq<ProofRowView>,
    txid: [u8; 32],
    height: u32,
    raw_tx: Seq<u8>,
    header: Seq<u8>,
    merkle_branch: Seq<[u8; 32]>,
    merkle_index: u32,
) -> Seq<ProofRowView> {
    if proof_row(rows, txid@) is Some {
        rows
    } else {
        rows.push(
            ProofRowView {
                txid: txid@,
                height: height as i64,
                raw_tx,
                header,
                merkle_branch: flat_branch(merkle_branch),
                merkle_index: merkle_index as i64,
            },
        )
    }
}

pub(crate) fn find_proof_row<'a>(rows: &'a Vec<ProofRow>, txid: &[u8; 32]) -> (r: Option<&'a ProofRow>)
    ensures
        match r {
            Some(row) => proof_row(views(rows@), txid@) == Some(row@),
            None => proof_row(views(rows@), txid@) is None,
        },
{
    let mut i: usize = 0;
    let ghost all = views(rows@);
    assert(all.skip(0) =~= all);
    while i < rows.len()
        invariant
            i <= rows.len(),
            all == views(rows@),
            proof_row(all, txid@) == proof_row(all.skip(i as int), txid@),
        decreases rows.len() - i,
    {
        assert(all.skip(i as int).skip(1) =~= all.skip(i + 1));
        assert(all.skip(i as int)[0] == rows@[i as int]@);
        if bytes_eq(rows[i].txid.as_slice(), txid.as_slice()) {
            return Some(&rows[i]);
        }
        i += 1;
    }
    None
}

pub(crate) fn flatten_branch(branch: &[[u8; 32]]) -> (r: Vec<u8>)
    ensures
        r@ == flat_branch(branch@),
{
    let mut out: Vec<u8> = Vec::new();
    let mut i: usize = 0;
    while i < branch.len()
        invariant
            i <= branch.len(),
            out@ == flat_branch(branch@.take(i as int)),
        decreases branch.len() - i,
    {
        let ghost before = out@;
        let sibling: &[u8; 32] = &branch[i];
        let mut k: usize = 0;
        assert(sibling@.take(0) =~= Seq::empty());
        while k < 32
            invariant
                k <= 32,
                out@ == before + sibling@.take(k as int),
            decreases 32 - k,
        {
            out.push(sibling[k]);
            k += 1;
            assert(out@ =~= before + sibling@.take(k as int));
        }
        proof {
            assert(sibling@.take(32) =~= sibling@);
            assert(branch@.take(i + 1).drop_last() =~= branch@.take(i as int));
        }
        i += 1;
    }
    assert(branch@.take(branch@.len() as int) =~= branch@);
    out
}

pub(crate) fn split_branch(bytes: &[u8]) -> (r: Vec<[u8; 32]>)
    ensures
        r@ == branch_of(bytes@),
{
    let n: usize = bytes.len() / 32;
    let mut out: Vec<[u8; 32]> = Vec::new();
    let mut i: usize = 0;
    while i < n
        invariant
            i <= n,
            n == bytes@.len() / 32,
            out@ == branch_of(bytes@).take(i as int),
        decreases n - i,
    {
        assert(32 * (i + 1) <= bytes.len());
        match to_array32(slice_subrange(bytes, 32 * i, 32 * i + 32)) {
            Some(a) => {
                out.push(a);
            },
            None => {},
        }
        i += 1;
        assert(out@ =~= branch_of(bytes@).take(i as int));
    }
    assert(branch_of(bytes@).take(n as int) =~= branch_of(bytes@));
    out
}

/// Stores a transaction's proof context unless one is there.
pub(crate) fn store_material(
    rows: &mut Vec<ProofRow>,
    txid: &[u8; 32],
    height: u32,
    raw_tx: &[u8],
    header: &[u8],
    merkle_branch: &[[u8; 32]],
    merkle_index: u32,
)
    ensures
        views(final(rows)@) == with_material(
            views(old(rows)@),
            *txid,
            height,
            raw_tx@,
            header@,
            merkle_branch@,
            merkle_index,
        ),
{
    if find_proof_row(rows, txid).is_none() {
        let row = ProofRow {
            txid: copy_bytes(txid.as_slice()),
            height: height as i64,
            raw_tx: copy_bytes(raw_tx),
            header: copy_bytes(header),
            merkle_branch: flatten_branch(merkle_branch),
            merkle_index: merkle_index as i64,
        };
        let ghost before = views(rows@);
        rows.push(row);
        assert(views(rows@) =~= before.push(row@));
    }
}

pub(crate) fn read_material(row: &ProofRow) -> (r: ProofMaterial)
    ensures
        r@ == material_of(row@),
{
    ProofMaterial {
        raw_tx: copy_bytes(row.raw_tx.as_slice()),
        header: copy_bytes(row.header.as_slice()),
        merkle_branch: split_branch(row.merkle_branch.as_slice()),
        merkle_index: row.merkle_index as u32,
    }
}

/// Drops the proof material of blocks above `fork`.
pub(crate) fn drop_material_above(rows: &mut Vec<ProofRow>, fork: i64)
    ensures
        views(final(rows)@) == views(old(rows)@).filter(|p: ProofRowView| p.height <= fork as int),
{
    let ghost all = views(rows@);
    let ghost p = |w: ProofRowView| w.height <= fork as int;
    let mut i: usize = 0;
    let ghost mut done: int = 0;
    assert(views(rows@) =~= all.take(0).filter(p) + all.skip(0)) by {
        reveal(Seq::filter);
    }
    while i < rows.len()
        invariant
            p == (|w: ProofRowView| w.height <= fork as int),
            0 <= done <= all.len(),
            i == all.take(done).filter(p).len(),
            i <= rows.len(),
            rows.len() - i == all.len() - done,
            views(rows@) == all.take(done).filter(p) + all.skip(done),
        decreases rows.len() - i,
    {
        proof {
            lemma_filter_step(all, done, p);
            assert(views(rows@)[i as int] == all[done]);
        }
        if rows[i].height > fork {
            let ghost before = views(rows@);
            rows.remove(i);
            proof {
                assert(views(rows@) =~= before.remove(i as int));
                assert(before.remove(i as int) =~= all.take(done).filter(p) + all.skip(done + 1));
                done = done + 1;
            }
        } else {
            i += 1;
            proof {
                assert(views(rows@) =~= all.take(done).filter(p).push(all[done]) + all.skip(done + 1));
                done = done + 1;
            }
        }
    }
    proof {
        assert(all.take(done) =~= all);
        assert(all.skip(done) =~= Seq::empty());
        assert(views(rows@) =~= all.filter(p));
    }
}

// ── the index ───────────────────────────────────────────────────────────────

impl SqliteIndex {
    /// Open an ephemeral in-memory index.
    pub fn open_in_memory() -> (r: Result<SqliteIndex, StoreError>)
        ensures
            r matches Ok(index) && index@ == (IndexView {
                actions: Seq::empty(),
                proof_material: Seq::empty(),
                sync_state: None,
            }),
    {
        let index = SqliteIndex {
            actions: Vec::new(),
            proof_material: Vec::new(),
            sync_state: None,
        };
        proof {
            assert(index@.actions =~= Seq::empty());
            assert(index@.proof_material =~= Seq::empty());
        }
        Ok(index)
    }

    /// Look up the current entry for `name`: its latest action, a release
    /// included.
    pub fn lookup(&self, name: &str) -> (r: Result<Option<NameChainEntry>, StoreError>)
        ensures
            match latest(self@.actions, name@) {
                None => r == Ok::<Option<NameChainEntry>, StoreError>(None),
                Some(row) => match read_entry(row) {
                    Ok(e) => r matches Ok(Some(entry)) && entry@ == e,
                    Err(e) => r == Err::<Option<NameChainEntry>, StoreError>(e),
                },
            },
    {
        match find_latest(&self.actions, name) {
            None => Ok(None),
            Some(row) => match row_to_entry(row) {
                Ok(e) => Ok(Some(e)),
                Err(e) => Err(e),
            },
        }
    }

    /// The public registration record for `name`, if any.
    pub fn resolve_by_name(&self, name: &str) -> (r: Result<Option<Registration>, StoreError>)
        ensures
            ({
                let row = latest(self@.actions, name@);
                if row is None || row->0.record.action == Action::Release.text() {
                    r == Ok::<Option<Registration>, StoreError>(None)
                } else {
                    match read_registration()(row->0) {
                        Ok(v) => r matches Ok(Some(reg)) && reg@ == v,
                        Err(e) => r == Err::<Option<Registration>, StoreError>(e),
                    }
                }
            }),
    {
        match find_latest(&self.actions, name) {
            None => Ok(None),
            Some(row) => if text_eq(row.record.action.as_str(), Action::Release.as_str()) {
                Ok(None)
            } else {
                match row_to_registration(row) {
                    Ok(reg) => Ok(Some(reg)),
                    Err(e) => Err(e),
                }
            },
        }
    }

    /// Registrations currently bound to `ua` (reverse lookup), paginated.
    pub fn registrations_by_ua(&self, ua: &str, limit: u32, offset: u32) -> (r: Result<
        Vec<Registration>,
        StoreError,
    >)
        ensures
            results_view(r) == read_all(
                page(
                    sort_by(
                        self@.actions.filter(current_bound(self@.actions, Some(ua@))),
                        row_name_order(),
                    ),
                    limit as nat,
                    offset as nat,
                ),
                read_registration(),
            ),
    {
        self.query_registrations(Some(ua), limit, offset)
    }

    /// All registrations, paginated.
    pub fn list_registrations(&self, limit: u32, offset: u32) -> (r: Result<
        Vec<Registration>,
        StoreError,
    >)
        ensures
            results_view(r) == read_all(
                page(
                    sort_by(
                        self@.actions.filter(current_bound(self@.actions, None)),
                        row_name_order(),
                    ),
                    limit as nat,
                    offset as nat,
                ),
                read_registration(),
            ),
    {
        self.query_registrations(None, limit, offset)
    }

    fn query_registrations(&self, ua: Option<&str>, limit: u32, offset: u32) -> (r: Result<
        Vec<Registration>,
        StoreError,
    >)
        ensures
            results_view(r) == read_all(
                page(
                    sort_by(
                        self@.actions.filter(
                            current_bound(
                                self@.actions,
                                match ua {
                                    Some(u) => Some(u@),
                                    None => None,
                                },
                            ),
                        ),
                        row_name_order(),
                    ),
                    limit as nat,
                    offset as nat,
                ),
                read_registration(),
            ),
    {
        let rows = select_current(&self.actions, ua);
        let (lo, hi) = page_bounds(rows.len(), limit, offset);
        proof {
            lemma_page_bounds(views(rows@), limit, offset, lo as int, hi as int);
        }
        read_rows(&rows, lo, hi, row_to_registration, Ghost(read_registration()))
    }

    /// The highest applied block height, or `None` if never synced.
    pub fn last_scanned_height(&self) -> (r: Result<Option<u32>, StoreError>)
        ensures
            r == Ok::<Option<u32>, StoreError>(
                match cursor_of(self@.sync_state) {
                    Some(c) => Some(c.0),
                    None => None,
                },
            ),
    {
        match self.checkpoint() {
            Ok(Some(c)) => Ok(Some(c.height)),
            Ok(None) => Ok(None),
            Err(e) => Err(e),
        }
    }

    /// Number of names currently in the index.
    pub fn name_count(&self) -> (r: Result<u64, StoreError>)
        ensures
            r == Ok::<u64, StoreError>(
                self@.actions.filter(current_bound(self@.actions, None)).len() as u64,
            ),
    {
        let rows = select_current(&self.actions, None);
        proof {
            let current = self@.actions.filter(current_bound(self@.actions, None));
            crate::order::lemma_sort_len(current, row_name_order());
        }
        Ok(rows.len() as u64)
    }

    /// A filtered, newest-first page of the action log, plus the total number
    /// of matches before paging. `since_height` is strictly greater-than.
    pub fn events(
        &self,
        name: Option<&str>,
        action: Option<Action>,
        since_height: Option<u32>,
        limit: u32,
        offset: u32,
    ) -> (r: Result<(Vec<Event>, u64), StoreError>)
        ensures
            ({
                let name = match name {
                    Some(n) => Some(n@),
                    None => None,
                };
                let matching = self@.actions.filter(asked_for(name, action, since_height));
                match read_all(
                    page(sort_by(matching, newest_first()), limit as nat, offset as nat),
                    read_event(),
                ) {
                    Ok(v) => r matches Ok(out) && views(out.0@) == v && out.1 == matching.len() as u64,
                    Err(e) => r == Err::<(Vec<Event>, u64), StoreError>(e),
                }
            }),
    {
        let rows = select_newest_first(&self.actions, name, action, since_height);
        let (lo, hi) = page_bounds(rows.len(), limit, offset);
        proof {
            lemma_page_bounds(views(rows@), limit, offset, lo as int, hi as int);
            crate::order::lemma_sort_len(
                self@.actions.filter(
                    asked_for(
                        match name {
                            Some(n) => Some(n@),
                            None => None,
                        },
                        action,
                        since_height,
                    ),
                ),
                newest_first(),
            );
        }
        match read_rows(&rows, lo, hi, row_to_event, Ghost(read_event())) {
            Ok(v) => Ok((v, rows.len() as u64)),
            Err(e) => Err(e),
        }
    }

    /// The last synced position, or `None` if never synced.
    pub fn checkpoint(&self) -> (r: Result<Option<Cursor>, StoreError>)
        ensures
            r matches Ok(c) && (match cursor_of(self@.sync_state) {
                Some(v) => c matches Some(cursor) && cursor.height == v.0 && cursor.hash == v.1,
                None => c is None,
            }),
    {
        match &self.sync_state {
            None => Ok(None),
            Some(s) => if s.height == 0 {
                Ok(None)
            } else {
                let hash = match &s.hash {
                    Some(h) => to_array32(h.as_slice()),
                    None => None,
                };
                Ok(Some(Cursor { height: s.height as u32, hash }))
            },
        }
    }

    /// Roll the index back to `to`, dropping every action above the fork and
    /// the proof material of the orphaned blocks.
    pub fn rewind(&mut self, to: u32) -> (r: Result<(), StoreError>)
        ensures
            r is Ok,
            final(self)@ == index_after_rewind(old(self)@, to),
    {
        drop_above(&mut self.actions, to as i64);
        drop_material_above(&mut self.proof_material, to as i64);
        self.set_sync_state(to, None);
        assert(self@ =~= index_after_rewind(old(self)@, to));
        Ok(())
    }

    fn set_sync_state(&mut self, height: u32, hash: Option<[u8; 32]>)
        ensures
            final(self).actions == old(self).actions,
            final(self).proof_material == old(self).proof_material,
            final(self)@.sync_state == Some(sync_row(height, hash)),
    {
        let bytes: Option<Vec<u8>> = match &hash {
            Some(h) => Some(copy_bytes(h.as_slice())),
            None => None,
        };
        self.sync_state = Some(SyncRow { height: height as i64, hash: bytes });
    }

    /// Verify and record any name notes in `notes`, then advance the cursor to
    /// `at`. A note is recorded only if its memo parses as a lifecycle action,
    /// the action fits the name's chain state, and its binding checks out.
    /// Returns the recorded actions.
    pub fn apply_notes(&mut self, at: Cursor, notes: &[NameNote]) -> (r: Result<
        Vec<Recorded>,
        StoreError,
    >)
        ensures
            match index_after_notes(old(self)@, at, views(notes@)) {
                Err(e) => r == Err::<Vec<Recorded>, StoreError>(e) && final(self)@ == old(self)@,
                Ok(next) => r matches Ok(v) && v@ == next.1 && final(self)@ == next.0,
            },
    {
        let mut forks: Vec<Fork> = Vec::new();
        self.apply_notes_reporting(at, notes, &mut forks)
    }

    /// Applies notes as `apply_notes` does, and adds to `forks` the registry
    /// forks they are evidence of, whether or not the batch then fails: each
    /// note that is not recorded because it extends another predecessor than the
    /// tip that the earlier notes left.
    pub fn apply_notes_reporting(&mut self, at: Cursor, notes: &[NameNote], forks: &mut Vec<Fork>) -> (r: Result<
        Vec<Recorded>,
        StoreError,
    >)
        ensures
            views(final(forks)@) == views(old(forks)@) + forks_of(old(self)@.actions, views(notes@)),
            match index_after_notes(old(self)@, at, views(notes@)) {
                Err(e) => r == Err::<Vec<Recorded>, StoreError>(e) && final(self)@ == old(self)@,
                Ok(next) => r matches Ok(v) && v@ == next.1 && final(self)@ == next.0,
            },
    {
        match apply_to_log(&mut self.actions, notes, forks) {
            Err(e) => Err(e),
            Ok(recorded) => {
                self.set_sync_state(at.height, at.hash);
                assert(self@ =~= (index_after_notes(old(self)@, at, views(notes@))->Ok_0).0);
                Ok(recorded)
            },
        }
    }

    /// Append a verified action to the log.
    pub fn record_action(
        &mut self,
        name: &str,
        ua: &str,
        rcm: &[u8; 32],
        cmx: &[u8; 32],
        txid: &[u8; 32],
        height: u32,
        action: Action,
        action_index: usize,
    ) -> (r: Result<(), StoreError>)
        ensures
            final(self).proof_material == old(self).proof_material,
            final(self).sync_state == old(self).sync_state,
            if has_room(old(self)@.actions, 0) {
                r is Ok && final(self)@.actions == appended(
                    old(self)@.actions,
                    action_record(name@, ua@, *rcm, *cmx, *txid, height, action, action_index),
                )
            } else {
                r == Err::<(), StoreError>(StoreError::Full) && final(self)@.actions == old(
                    self,
                )@.actions
            },
    {
        if !fits(&self.actions, 0) {
            return Err(StoreError::Full);
        }
        let record = Record {
            name: name.to_string(),
            height: height as i64,
            action: action.as_str().to_string(),
            ua: ua.to_string(),
            rcm: copy_bytes(rcm.as_slice()),
            cmx: copy_bytes(cmx.as_slice()),
            txid: copy_bytes(txid.as_slice()),
            action_index: action_index as i64,
            extra: NoColumns,
        };
        append(&mut self.actions, record);
        Ok(())
    }

    /// Store the proof context for a name note transaction (idempotent).
    pub fn insert_proof_material(
        &mut self,
        txid: &[u8; 32],
        height: u32,
        raw_tx: &[u8],
        header: &[u8],
        merkle_branch: &[[u8; 32]],
        merkle_index: u32,
    ) -> (r: Result<(), StoreError>)
        ensures
            r is Ok,
            final(self).actions == old(self).actions,
            final(self).sync_state == old(self).sync_state,
            final(self)@.proof_material == with_material(
                old(self)@.proof_material,
                *txid,
                height,
                raw_tx@,
                header@,
                merkle_branch@,
                merkle_index,
            ),
    {
        store_material(
            &mut self.proof_material,
            txid,
            height,
            raw_tx,
            header,
            merkle_branch,
            merkle_index,
        );
        Ok(())
    }

    /// The proof context for a name note transaction, if materialized.
    pub fn proof_material(&self, txid: &[u8; 32]) -> (r: Result<Option<ProofMaterial>, StoreError>)
        ensures
            r matches Ok(m) && (match proof_row(self@.proof_material, txid@) {
                Some(row) => m matches Some(material) && material@ == material_of(row),
                None => m is None,
            }),
    {
        match find_proof_row(&self.proof_material, txid) {
            Some(row) => Ok(Some(read_material(row))),
            None => Ok(None),
        }
    }

    /// A name's full applied history in chain order.
    pub fn chain_rows(&self, name: &str) -> (r: Result<Vec<ChainRow>, StoreError>)
        ensures
            results_view(r) == read_all(
                sort_by(self@.actions.filter(of_name(name@)), chain_order()),
                read_chain_row(),
            ),
    {
        let rows = select_chain(&self.actions, name);
        assert(views(rows@).subrange(0, rows@.len() as int) =~= views(rows@));
        read_rows(&rows, 0, rows.len(), row_to_chain_row, Ghost(read_chain_row()))
    }
}

} // verus!
