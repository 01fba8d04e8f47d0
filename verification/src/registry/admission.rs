//! What a batch admits.
//!
//! Each block's candidates are considered per name: a release disclosing the
//! block-start accepted `rcm` before the updates competing over it, each
//! through the chain rule, the binding verification and the consumption proof.
//! Every accepted action spends a note the registry owns, except a claim.

use vstd::prelude::*;
use vstd::string::*;

use super::notes::{
    check_chain_rule, extended_prev, note_opening, parse_note, parsed_note, verify_commitment,
    NoteView, ParsedNote, RelaxedIronwoodOutput,
};
use crate::kernel::{action_of, Action, Tip};
use crate::log::{views, LogRow, Record, RecordView, RowView};
use crate::order::{lemma_insert_at, lemma_run_len, lemma_run_len_is, run_len, sort_by};
use crate::store::{Duplicate, StoreError};
use crate::table::{entry, find};
use crate::text::{
    as_array32, bytes_eq, copy_bytes, eq32, text_before, text_eq, text_le, to_array32,
};

verus! {

/// The columns of a name note beside those of every record.
pub struct NoteColumns {
    pub expires_at: String,
    pub prev_rcm: Vec<u8>,
    pub psi: Vec<u8>,
    pub nullifier: Vec<u8>,
    pub memo: Vec<u8>,
}

#[verifier::ext_equal]
pub struct NoteColumnsView {
    pub expires_at: Seq<char>,
    pub prev_rcm: Seq<u8>,
    pub psi: Seq<u8>,
    pub nullifier: Seq<u8>,
    pub memo: Seq<u8>,
}

impl View for NoteColumns {
    type V = NoteColumnsView;

    open spec fn view(&self) -> NoteColumnsView {
        NoteColumnsView {
            expires_at: self.expires_at@,
            prev_rcm: self.prev_rcm@,
            psi: self.psi@,
            nullifier: self.nullifier@,
            memo: self.memo@,
        }
    }
}

impl Duplicate for NoteColumns {
    fn duplicate(&self) -> (r: Self) {
        NoteColumns {
            expires_at: self.expires_at.clone(),
            prev_rcm: copy_bytes(self.prev_rcm.as_slice()),
            psi: copy_bytes(self.psi.as_slice()),
            nullifier: copy_bytes(self.nullifier.as_slice()),
            memo: copy_bytes(self.memo.as_slice()),
        }
    }
}

pub type NoteRecord = RecordView<NoteColumnsView>;

pub type EventRow = RowView<NoteColumnsView>;

/// A received output of the registry's account.
#[derive(Clone, Copy)]
pub struct IronwoodOutput {
    pub is_sent: bool,
    pub nf: Option<[u8; 32]>,
}

/// A scanned transaction that touches the registry's account.
pub struct WalletTx {
    pub txid: [u8; 32],
    pub height: u32,
    pub ironwood_outputs: Vec<IronwoodOutput>,
    /// The nullifiers the transaction revealed.
    pub ironwood_spends: Vec<[u8; 32]>,
    pub relaxed_ironwood_outputs: Vec<RelaxedIronwoodOutput>,
}

#[verifier::ext_equal]
pub struct TxView {
    pub txid: [u8; 32],
    pub height: u32,
    pub outputs: Seq<IronwoodOutput>,
    pub spends: Seq<[u8; 32]>,
    pub relaxed: Seq<RelaxedIronwoodOutput>,
}

impl View for WalletTx {
    type V = TxView;

    open spec fn view(&self) -> TxView {
        TxView {
            txid: self.txid,
            height: self.height,
            outputs: self.ironwood_outputs@,
            spends: self.ironwood_spends@,
            relaxed: self.relaxed_ironwood_outputs@,
        }
    }
}

// ── derivation: candidates ──────────────────────────────────────────────────

/// A parsed name note with the output that carries it.
pub struct Candidate {
    pub note: ParsedNote,
    pub output: RelaxedIronwoodOutput,
    pub txid: [u8; 32],
}

#[verifier::ext_equal]
pub struct CandidateView {
    pub note: NoteView,
    pub output: RelaxedIronwoodOutput,
    pub txid: [u8; 32],
}

impl View for Candidate {
    type V = CandidateView;

    open spec fn view(&self) -> CandidateView {
        CandidateView { note: self.note@, output: self.output, txid: self.txid }
    }
}

/// The candidate an output makes: a name note exists only as a self-send whose
/// memo parses.
pub open spec fn candidate_of(output: RelaxedIronwoodOutput, txid: [u8; 32]) -> Option<CandidateView> {
    if !output.is_sent || output.memo is None {
        None
    } else {
        match parsed_note(output.memo->0@) {
            Some(note) => Some(CandidateView { note, output, txid }),
            None => None,
        }
    }
}

/// The candidates among a transaction's outputs, in their order.
pub open spec fn output_candidates(outputs: Seq<RelaxedIronwoodOutput>, txid: [u8; 32]) -> Seq<
    CandidateView,
>
    decreases outputs.len(),
{
    if outputs.len() == 0 {
        Seq::empty()
    } else {
        let before = output_candidates(outputs.drop_last(), txid);
        match candidate_of(outputs.last(), txid) {
            Some(c) => before.push(c),
            None => before,
        }
    }
}

/// The candidates of a block, in scan order.
pub open spec fn block_candidates(block: Seq<TxView>) -> Seq<CandidateView>
    decreases block.len(),
{
    if block.len() == 0 {
        Seq::empty()
    } else {
        block_candidates(block.drop_last()) + output_candidates(block.last().relaxed, block.last().txid)
    }
}

pub open spec fn candidate_order() -> spec_fn(CandidateView, CandidateView) -> bool {
    |a: CandidateView, b: CandidateView| text_le(a.note.name, b.note.name)
}

pub open spec fn candidate_name() -> spec_fn(CandidateView) -> Seq<char> {
    |c: CandidateView| c.note.name
}

pub open spec fn tx_height() -> spec_fn(TxView) -> u32 {
    |tx: TxView| tx.height
}

/// The block's candidates by name, scan order within each name.
fn sorted_candidates(transactions: &[WalletTx], lo: usize, hi: usize) -> (r: Vec<Candidate>)
    requires
        lo <= hi <= transactions.len(),
    ensures
        views(r@) == sort_by(
            block_candidates(views(transactions@).subrange(lo as int, hi as int)),
            candidate_order(),
        ),
{
    let ghost block = views(transactions@).subrange(lo as int, hi as int);
    let mut out: Vec<Candidate> = Vec::new();
    let mut t: usize = lo;
    assert(views(out@) =~= sort_by(block_candidates(block.take(0)), candidate_order()));
    while t < hi
        invariant
            lo <= t <= hi <= transactions.len(),
            block == views(transactions@).subrange(lo as int, hi as int),
            views(out@) == sort_by(block_candidates(block.take(t - lo)), candidate_order()),
        decreases hi - t,
    {
        let tx = &transactions[t];
        let ghost before = block_candidates(block.take(t - lo));
        let ghost outputs = tx.relaxed_ironwood_outputs@;
        let mut k: usize = 0;
        assert(before + output_candidates(outputs.take(0), tx.txid) =~= before);
        while k < tx.relaxed_ironwood_outputs.len()
            invariant
                k <= tx.relaxed_ironwood_outputs.len(),
                outputs == tx.relaxed_ironwood_outputs@,
                views(out@) == sort_by(
                    before + output_candidates(outputs.take(k as int), tx.txid),
                    candidate_order(),
                ),
            decreases tx.relaxed_ironwood_outputs.len() - k,
        {
            let output = tx.relaxed_ironwood_outputs[k];
            assert(outputs.take(k + 1).drop_last() =~= outputs.take(k as int));
            let note: Option<ParsedNote> = if output.is_sent {
                match output.memo {
                    Some(memo) => parse_note(memo.as_slice()),
                    None => None,
                }
            } else {
                None
            };
            if let Some(note) = note {
                let candidate = Candidate { note, output, txid: tx.txid };
                let ghost prior = before + output_candidates(outputs.take(k as int), tx.txid);
                let mut p: usize = out.len();
                while p > 0 && !text_before(
                    out[p - 1].note.name.as_str(),
                    candidate.note.name.as_str(),
                )
                    invariant
                        p <= out.len(),
                        forall|j: int| p <= j < out.len() ==> !candidate_order()(
                            #[trigger] views(out@)[j],
                            candidate@,
                        ),
                    decreases p,
                {
                    p -= 1;
                    assert(views(out@)[p as int] == out@[p as int]@);
                }
                proof {
                    let s = views(out@);
                    if p > 0 {
                        assert(s[p - 1] == out@[p - 1]@);
                    }
                    lemma_insert_at(s, candidate@, candidate_order(), p as int);
                    assert(before + output_candidates(outputs.take(k + 1), tx.txid) =~= prior.push(
                        candidate@,
                    ));
                    assert(prior.push(candidate@).drop_last() =~= prior);
                }
                let ghost was = views(out@);
                out.insert(p, candidate);
                assert(views(out@) =~= was.insert(p as int, candidate@));
            }
            k += 1;
        }
        proof {
            assert(outputs.take(outputs.len() as int) =~= outputs);
            assert(block.take(t + 1 - lo).drop_last() =~= block.take(t - lo));
            assert(block.take(t + 1 - lo).last() == tx@);
        }
        t += 1;
    }
    assert(block.take(block.len() as int) =~= block);
    out
}

// ── derivation: admission ───────────────────────────────────────────────────

/// A name's accepted state: its tip, and the nullifier of the note that holds
/// it, which the successor must consume.
#[derive(Clone, Copy)]
pub struct Binding {
    pub tip: Tip,
    pub nullifier: [u8; 32],
}

pub open spec fn tip_of(binding: Option<Binding>) -> Option<Tip> {
    match binding {
        Some(b) => Some(b.tip),
        None => None,
    }
}

/// What an accepted note is recorded with.
#[derive(Clone, Copy)]
pub struct Admitted {
    pub prev_rcm: [u8; 32],
    pub psi: [u8; 32],
    pub rcm: [u8; 32],
    pub nullifier: [u8; 32],
}

/// The output consumed the note that holds the name.
pub open spec fn consumes(binding: Option<Binding>, output: RelaxedIronwoodOutput) -> bool {
    binding is Some && binding->0.nullifier == output.consumed
}

/// `consumed` is the nullifier of a genuine update in the same block: one that
/// discloses the block-start `rcm` and consumes the block-start note.
pub open spec fn is_update_spent(c: CandidateView, start: Binding, consumed: [u8; 32]) -> bool {
    &&& c.note.action == Action::Update
    &&& c.note.prev_rcm == Some(start.tip.rcm)
    &&& c.output.consumed == start.nullifier
    &&& note_opening(c.note, c.output) is Some
    &&& c.output.nullifier == Some(consumed)
}

pub open spec fn spends_update(
    group: Seq<CandidateView>,
    start: Option<Binding>,
    consumed: [u8; 32],
) -> bool {
    start is Some && exists|i: int|
        0 <= i < group.len() && is_update_spent(#[trigger] group[i], start->0, consumed)
}

/// The gates of admission, given the note's opening and whether it spends an
/// update of its own block: the chain rule, the binding, the consumption of
/// registry money (which a claim does not show), and a nullifier to hold the
/// name with.
pub open spec fn admission(
    binding: Option<Binding>,
    note: NoteView,
    output: RelaxedIronwoodOutput,
    opening: Option<([u8; 32], [u8; 32])>,
    spends_block_update: bool,
) -> Option<Admitted> {
    let prev = extended_prev(tip_of(binding), note);
    let authorized = match note.action {
        Action::Claim => true,
        Action::Update => consumes(binding, output),
        Action::Release => consumes(binding, output) || spends_block_update,
    };
    match (prev, opening, output.nullifier) {
        (Some(prev_rcm), Some(o), Some(nullifier)) => if authorized {
            Some(Admitted { prev_rcm, psi: o.0, rcm: o.1, nullifier })
        } else {
            None
        },
        _ => None,
    }
}

pub fn accept(
    binding: Option<Binding>,
    note: &ParsedNote,
    output: &RelaxedIronwoodOutput,
    opening: Option<([u8; 32], [u8; 32])>,
    spends_block_update: bool,
) -> (r: Option<Admitted>)
    ensures
        r == admission(binding, note@, *output, opening, spends_block_update),
{
    let tip: Option<Tip> = match binding {
        Some(b) => Some(b.tip),
        None => None,
    };
    let prev = match &tip {
        Some(t) => check_chain_rule(Some(t), note),
        None => check_chain_rule(None, note),
    };
    let consumed = match &binding {
        Some(b) => eq32(&b.nullifier, &output.consumed),
        None => false,
    };
    let authorized = match note.action {
        Action::Claim => true,
        Action::Update => consumed,
        Action::Release => consumed || spends_block_update,
    };
    match (prev, opening, output.nullifier) {
        (Some(prev_rcm), Some((psi, rcm)), Some(nullifier)) => if authorized {
            Some(Admitted { prev_rcm, psi, rcm, nullifier })
        } else {
            None
        },
        _ => None,
    }
}

/// True when `consumed` is the derived nullifier of a genuine same-block
/// update. Only the registry's key can reveal the block-start nullifier, so a
/// forged update never qualifies. Cheap checks run before the commitment.
pub fn spends_same_block_update(
    candidates: &Vec<Candidate>,
    lo: usize,
    hi: usize,
    start: Option<Binding>,
    consumed: &[u8; 32],
) -> (r: bool)
    requires
        lo <= hi <= candidates.len(),
    ensures
        r == spends_update(views(candidates@).subrange(lo as int, hi as int), start, *consumed),
{
    let ghost group = views(candidates@).subrange(lo as int, hi as int);
    match start {
        None => false,
        Some(begin) => {
            let mut i: usize = lo;
            while i < hi
                invariant
                    lo <= i <= hi <= candidates.len(),
                    start == Some(begin),
                    group == views(candidates@).subrange(lo as int, hi as int),
                    forall|j: int| 0 <= j < i - lo ==> !is_update_spent(#[trigger] group[j], begin, *consumed),
                decreases hi - i,
            {
                let c = &candidates[i];
                assert(group[i - lo] == c@);
                let discloses = match &c.note.prev_rcm {
                    Some(p) => eq32(p, &begin.tip.rcm),
                    None => false,
                };
                let spent = match &c.output.nullifier {
                    Some(nf) => eq32(nf, consumed),
                    None => false,
                };
                if c.note.action == Action::Update && discloses && eq32(
                    &c.output.consumed,
                    &begin.nullifier,
                ) && spent {
                    if let Some(_) = verify_commitment(&c.note, &c.output) {
                        assert(is_update_spent(group[i - lo], begin, *consumed));
                        return true;
                    }
                }
                i += 1;
            }
            false
        },
    }
}

// ── derivation: staging ─────────────────────────────────────────────────────

/// The records a batch has admitted so far and the state of each name they
/// concern.
pub struct Staging {
    pub staged: Vec<Record<NoteColumns>>,
    pub pending: Vec<(String, Binding)>,
}

#[verifier::ext_equal]
pub struct StagingView {
    pub staged: Seq<NoteRecord>,
    pub pending: Map<Seq<char>, Binding>,
}

/// Later entries replace earlier ones.
pub open spec fn pending_map(s: Seq<(String, Binding)>) -> Map<Seq<char>, Binding>
    decreases s.len(),
{
    if s.len() == 0 {
        Map::empty()
    } else {
        pending_map(s.drop_last()).insert(s.last().0@, s.last().1)
    }
}

impl View for Staging {
    type V = StagingView;

    open spec fn view(&self) -> StagingView {
        StagingView { staged: views(self.staged@), pending: pending_map(self.pending@) }
    }
}

/// A record's key in the event log.
pub open spec fn same_event(a: NoteRecord, b: NoteRecord) -> bool {
    a.name == b.name && a.height == b.height && a.txid == b.txid && a.action_index == b.action_index
}

/// The record of an admitted note.
pub open spec fn record_of(height: u32, c: CandidateView, a: Admitted) -> NoteRecord {
    RecordView {
        name: c.note.name,
        height: height as i64,
        action: c.note.action.text(),
        ua: c.note.ua,
        rcm: a.rcm@,
        cmx: c.output.cmx@,
        txid: c.txid@,
        action_index: c.output.index as i64,
        extra: NoteColumnsView {
            expires_at: c.note.expiry(),
            prev_rcm: a.prev_rcm@,
            psi: a.psi@,
            nullifier: a.nullifier@,
            memo: match c.output.memo {
                Some(memo) => memo@,
                None => Seq::empty(),
            },
        },
    }
}

/// The key is taken by a recorded event or a staged record.
pub open spec fn key_taken(events: Seq<EventRow>, staged: Seq<NoteRecord>, record: NoteRecord) -> bool {
    ||| exists|i: int| 0 <= i < events.len() && same_event(#[trigger] events[i].record, record)
    ||| exists|i: int| 0 <= i < staged.len() && same_event(#[trigger] staged[i], record)
}

/// One candidate considered in the state `binding` of its name. An event that
/// is recorded already is passed over: a rescan does not record it twice.
pub open spec fn consider(
    events: Seq<EventRow>,
    height: u32,
    group: Seq<CandidateView>,
    start: Option<Binding>,
    state: (StagingView, Option<Binding>),
    c: CandidateView,
) -> (StagingView, Option<Binding>) {
    let admitted = admission(
        state.1,
        c.note,
        c.output,
        note_opening(c.note, c.output),
        spends_update(group, start, c.output.consumed),
    );
    match admitted {
        None => state,
        Some(a) => {
            let record = record_of(height, c, a);
            let binding = Binding {
                tip: Tip { action: c.note.action, rcm: a.rcm },
                nullifier: a.nullifier,
            };
            if key_taken(events, state.0.staged, record) {
                state
            } else {
                (
                    StagingView {
                        staged: state.0.staged.push(record),
                        pending: state.0.pending.insert(c.note.name, binding),
                    },
                    Some(binding),
                )
            }
        },
    }
}

/// The candidates of `order` considered one after another.
pub open spec fn consider_all(
    events: Seq<EventRow>,
    height: u32,
    group: Seq<CandidateView>,
    start: Option<Binding>,
    staging: StagingView,
    order: Seq<CandidateView>,
) -> (StagingView, Option<Binding>)
    decreases order.len(),
{
    if order.len() == 0 {
        (staging, start)
    } else {
        let state = consider_all(events, height, group, start, staging, order.drop_last());
        consider(events, height, group, start, state, order.last())
    }
}

/// A release that discloses the `rcm` accepted at the start of the block.
pub open spec fn goes_first(start: Option<Binding>) -> spec_fn(CandidateView) -> bool {
    |c: CandidateView|
        c.note.action == Action::Release && start is Some && start->0.tip.action != Action::Release
            && c.note.prev_rcm == Some(start->0.tip.rcm)
}

pub open spec fn goes_later(start: Option<Binding>) -> spec_fn(CandidateView) -> bool {
    |c: CandidateView| !goes_first(start)(c)
}

/// The order of consideration: such releases before the updates competing over
/// the same predecessor, scan order among them, then everything else in scan
/// order.
pub open spec fn consideration_order(group: Seq<CandidateView>, start: Option<Binding>) -> Seq<
    CandidateView,
> {
    group.filter(goes_first(start)) + group.filter(goes_later(start))
}

/// The state of `name` in the name table.
pub open spec fn read_binding(names: Seq<NoteRecord>, name: Seq<char>) -> Result<
    Option<Binding>,
    StoreError,
> {
    match entry(names, name) {
        None => Ok(None),
        Some(r) => match (action_of(r.action), as_array32(r.rcm), as_array32(r.extra.nullifier)) {
            (Some(action), Some(rcm), Some(nullifier)) => Ok(
                Some(Binding { tip: Tip { action, rcm }, nullifier }),
            ),
            _ => Err(StoreError::CorruptRecord),
        },
    }
}

/// The state of `name` as the batch has left it so far.
pub open spec fn current_binding(
    names: Seq<NoteRecord>,
    pending: Map<Seq<char>, Binding>,
    name: Seq<char>,
) -> Result<Option<Binding>, StoreError> {
    if pending.contains_key(name) {
        Ok(Some(pending[name]))
    } else {
        read_binding(names, name)
    }
}

/// One name's candidates in a block, all of them in scope.
pub open spec fn derive_group(
    events: Seq<EventRow>,
    names: Seq<NoteRecord>,
    height: u32,
    staging: StagingView,
    group: Seq<CandidateView>,
) -> Result<StagingView, StoreError> {
    match current_binding(names, staging.pending, group[0].note.name) {
        Err(e) => Err(e),
        Ok(start) => Ok(
            consider_all(
                events,
                height,
                group,
                start,
                staging,
                consideration_order(group, start),
            ).0,
        ),
    }
}

/// A block's candidates, sorted by name, name after name.
pub open spec fn derive_groups(
    events: Seq<EventRow>,
    names: Seq<NoteRecord>,
    height: u32,
    staging: StagingView,
    candidates: Seq<CandidateView>,
) -> Result<StagingView, StoreError>
    decreases candidates.len(),
{
    if candidates.len() == 0 {
        Ok(staging)
    } else {
        let n = run_len(candidates, candidate_name()) as int;
        proof {
            lemma_run_len(candidates, candidate_name());
        }
        match derive_group(events, names, height, staging, candidates.take(n)) {
            Err(e) => Err(e),
            Ok(next) => derive_groups(events, names, height, next, candidates.skip(n)),
        }
    }
}

/// One block's transactions.
pub open spec fn derive_block(
    events: Seq<EventRow>,
    names: Seq<NoteRecord>,
    staging: StagingView,
    block: Seq<TxView>,
) -> Result<StagingView, StoreError> {
    derive_groups(
        events,
        names,
        block[0].height,
        staging,
        sort_by(block_candidates(block), candidate_order()),
    )
}

/// A batch, block after block: consecutive transactions of one height form a
/// block.
pub open spec fn derived(
    events: Seq<EventRow>,
    names: Seq<NoteRecord>,
    staging: StagingView,
    transactions: Seq<TxView>,
) -> Result<StagingView, StoreError>
    decreases transactions.len(),
{
    if transactions.len() == 0 {
        Ok(staging)
    } else {
        let n = run_len(transactions, tx_height()) as int;
        proof {
            lemma_run_len(transactions, tx_height());
        }
        match derive_block(events, names, staging, transactions.take(n)) {
            Err(e) => Err(e),
            Ok(next) => derived(events, names, next, transactions.skip(n)),
        }
    }
}

fn pending_binding(pending: &Vec<(String, Binding)>, name: &str) -> (r: Option<Binding>)
    ensures
        match r {
            Some(b) => pending_map(pending@).contains_key(name@) && pending_map(pending@)[name@] == b,
            None => !pending_map(pending@).contains_key(name@),
        },
{
    let mut i: usize = pending.len();
    let ghost all = pending@;
    assert(all.take(i as int) =~= all);
    while i > 0
        invariant
            i <= pending.len(),
            all == pending@,
            pending_map(all).contains_key(name@) == pending_map(all.take(i as int)).contains_key(name@),
            pending_map(all)[name@] == pending_map(all.take(i as int))[name@],
        decreases i,
    {
        assert(all.take(i as int).drop_last() =~= all.take(i - 1));
        if text_eq(pending[i - 1].0.as_str(), name) {
            return Some(pending[i - 1].1);
        }
        i -= 1;
    }
    assert(all.take(0) =~= Seq::empty());
    None
}

/// A name's live state in the name table: the tip, and the stored nullifier
/// for the consumption link.
pub fn read_tip(names: &Vec<Record<NoteColumns>>, name: &str) -> (r: Result<Option<Binding>, StoreError>)
    ensures
        r == read_binding(views(names@), name@),
{
    match find(names, name) {
        None => Ok(None),
        Some(record) => {
            let action = Action::from_text(record.action.as_str());
            let rcm = to_array32(record.rcm.as_slice());
            let nullifier = to_array32(record.extra.nullifier.as_slice());
            match (action, rcm, nullifier) {
                (Some(action), Some(rcm), Some(nullifier)) => Ok(
                    Some(Binding { tip: Tip { action, rcm }, nullifier }),
                ),
                _ => Err(StoreError::CorruptRecord),
            }
        },
    }
}

fn is_same_event(a: &Record<NoteColumns>, b: &Record<NoteColumns>) -> (r: bool)
    ensures
        r == same_event(a@, b@),
{
    text_eq(a.name.as_str(), b.name.as_str()) && a.height == b.height && bytes_eq(
        a.txid.as_slice(),
        b.txid.as_slice(),
    ) && a.action_index == b.action_index
}

fn is_key_taken(
    events: &Vec<LogRow<NoteColumns>>,
    staged: &Vec<Record<NoteColumns>>,
    record: &Record<NoteColumns>,
) -> (r: bool)
    ensures
        r == key_taken(views(events@), views(staged@), record@),
{
    let mut i: usize = 0;
    while i < events.len()
        invariant
            i <= events.len(),
            forall|j: int| 0 <= j < i ==> !same_event(#[trigger] views(events@)[j].record, record@),
        decreases events.len() - i,
    {
        assert(views(events@)[i as int] == events@[i as int]@);
        if is_same_event(&events[i].record, record) {
            assert(same_event(views(events@)[i as int].record, record@));
            return true;
        }
        i += 1;
    }
    let mut k: usize = 0;
    while k < staged.len()
        invariant
            k <= staged.len(),
            forall|j: int| 0 <= j < k ==> !same_event(#[trigger] views(staged@)[j], record@),
        decreases staged.len() - k,
    {
        assert(views(staged@)[k as int] == staged@[k as int]@);
        if is_same_event(&staged[k], record) {
            return true;
        }
        k += 1;
    }
    false
}

fn build_record(height: u32, c: &Candidate, a: &Admitted) -> (r: Record<NoteColumns>)
    ensures
        r@ == record_of(height, c@, *a),
{
    let memo: Vec<u8> = match &c.output.memo {
        Some(memo) => copy_bytes(memo.as_slice()),
        None => Vec::new(),
    };
    Record {
        name: c.note.name.clone(),
        height: height as i64,
        action: c.note.action.as_str().to_string(),
        ua: c.note.ua.clone(),
        rcm: copy_bytes(a.rcm.as_slice()),
        cmx: copy_bytes(c.output.cmx.as_slice()),
        txid: copy_bytes(c.txid.as_slice()),
        action_index: c.output.index as i64,
        extra: NoteColumns {
            expires_at: c.note.expiry(),
            prev_rcm: copy_bytes(a.prev_rcm.as_slice()),
            psi: copy_bytes(a.psi.as_slice()),
            nullifier: copy_bytes(a.nullifier.as_slice()),
            memo,
        },
    }
}

/// Considers the candidate at `i` of the group `lo..hi`.
fn consider_candidate(
    events: &Vec<LogRow<NoteColumns>>,
    height: u32,
    candidates: &Vec<Candidate>,
    lo: usize,
    hi: usize,
    start: Option<Binding>,
    binding: Option<Binding>,
    i: usize,
    staging: &mut Staging,
) -> (r: Option<Binding>)
    requires
        lo <= i < hi <= candidates.len(),
    ensures
        (final(staging)@, r) == consider(
            views(events@),
            height,
            views(candidates@).subrange(lo as int, hi as int),
            start,
            (old(staging)@, binding),
            candidates@[i as int]@,
        ),
{
    let c = &candidates[i];
    let opening = verify_commitment(&c.note, &c.output);
    let spends = spends_same_block_update(candidates, lo, hi, start, &c.output.consumed);
    match accept(binding, &c.note, &c.output, opening, spends) {
        None => binding,
        Some(a) => {
            let record = build_record(height, c, &a);
            if is_key_taken(events, &staging.staged, &record) {
                return binding;
            }
            let next = Binding {
                tip: Tip { action: c.note.action, rcm: a.rcm },
                nullifier: a.nullifier,
            };
            let ghost before = *staging;
            staging.staged.push(record);
            staging.pending.push((c.note.name.clone(), next));
            proof {
                assert(views(staging.staged@) =~= views(before.staged@).push(record@));
                assert(staging.pending@.drop_last() =~= before.pending@);
            }
            Some(next)
        },
    }
}

/// Whether the candidate is a release that discloses the block-start `rcm`.
fn is_first(c: &Candidate, start: &Option<Binding>) -> (r: bool)
    ensures
        r == goes_first(*start)(c@),
{
    match start {
        Some(start) => c.note.action == Action::Release && start.tip.action != Action::Release
            && match &c.note.prev_rcm {
            Some(p) => eq32(p, &start.tip.rcm),
            None => false,
        },
        None => false,
    }
}

/// Considers those of the group whose turn it is, on top of `order`.
fn consider_turn(
    events: &Vec<LogRow<NoteColumns>>,
    height: u32,
    candidates: &Vec<Candidate>,
    lo: usize,
    hi: usize,
    start: Option<Binding>,
    binding: Option<Binding>,
    first: bool,
    staging: &mut Staging,
    Ghost(base): Ghost<StagingView>,
    Ghost(order): Ghost<Seq<CandidateView>>,
) -> (r: Option<Binding>)
    requires
        lo <= hi <= candidates.len(),
        consider_all(
            views(events@),
            height,
            views(candidates@).subrange(lo as int, hi as int),
            start,
            base,
            order,
        ) == (old(staging)@, binding),
    ensures
        ({
            let group = views(candidates@).subrange(lo as int, hi as int);
            let turn = if first {
                group.filter(goes_first(start))
            } else {
                group.filter(goes_later(start))
            };
            (final(staging)@, r) == consider_all(
                views(events@),
                height,
                group,
                start,
                base,
                order + turn,
            )
        }),
{
    let ghost group = views(candidates@).subrange(lo as int, hi as int);
    let ghost pick = if first {
        goes_first(start)
    } else {
        goes_later(start)
    };
    let mut binding = binding;
    let mut i: usize = lo;
    proof {
        reveal(Seq::filter);
        assert(order + group.take(0).filter(pick) =~= order);
    }
    while i < hi
        invariant
            lo <= i <= hi <= candidates.len(),
            group == views(candidates@).subrange(lo as int, hi as int),
            pick == (if first {
                goes_first(start)
            } else {
                goes_later(start)
            }),
            consider_all(
                views(events@),
                height,
                group,
                start,
                base,
                order + group.take(i - lo).filter(pick),
            ) == (staging@, binding),
        decreases hi - i,
    {
        let turn = is_first(&candidates[i], &start) == first;
        proof {
            crate::log::lemma_filter_step(group, i - lo, pick);
            assert(group[i - lo] == candidates@[i as int]@);
        }
        if turn {
            let ghost prior = order + group.take(i - lo).filter(pick);
            assert(order + group.take(i + 1 - lo).filter(pick) =~= prior.push(group[i - lo]));
            assert(prior.push(group[i - lo]).drop_last() =~= prior);
            binding = consider_candidate(
                events,
                height,
                candidates,
                lo,
                hi,
                start,
                binding,
                i,
                staging,
            );
        }
        i += 1;
    }
    assert(group.take(group.len() as int) =~= group);
    binding
}

/// Considers the group `lo..hi` of candidates for one name.
fn consider_group(
    events: &Vec<LogRow<NoteColumns>>,
    names: &Vec<Record<NoteColumns>>,
    height: u32,
    candidates: &Vec<Candidate>,
    lo: usize,
    hi: usize,
    staging: &mut Staging,
) -> (r: Result<(), StoreError>)
    requires
        lo < hi <= candidates.len(),
    ensures
        match derive_group(
            views(events@),
            views(names@),
            height,
            old(staging)@,
            views(candidates@).subrange(lo as int, hi as int),
        ) {
            Err(e) => r == Err::<(), StoreError>(e),
            Ok(next) => r is Ok && final(staging)@ == next,
        },
{
    let ghost group = views(candidates@).subrange(lo as int, hi as int);
    let ghost base = staging@;
    let name = candidates[lo].note.name.as_str();
    assert(group[0] == candidates@[lo as int]@);
    let start: Option<Binding> = match pending_binding(&staging.pending, name) {
        Some(b) => Some(b),
        None => match read_tip(names, name) {
            Ok(b) => b,
            Err(e) => {
                return Err(e);
            },
        },
    };
    let ghost firsts = group.filter(goes_first(start));
    assert(Seq::<CandidateView>::empty() + firsts =~= firsts);
    let binding = consider_turn(
        events,
        height,
        candidates,
        lo,
        hi,
        start,
        start,
        true,
        staging,
        Ghost(base),
        Ghost(Seq::empty()),
    );
    let binding = consider_turn(
        events,
        height,
        candidates,
        lo,
        hi,
        start,
        binding,
        false,
        staging,
        Ghost(base),
        Ghost(firsts),
    );
    Ok(())
}

/// Considers a block's candidates, sorted by name.
fn consider_groups(
    events: &Vec<LogRow<NoteColumns>>,
    names: &Vec<Record<NoteColumns>>,
    height: u32,
    candidates: &Vec<Candidate>,
    staging: &mut Staging,
) -> (r: Result<(), StoreError>)
    ensures
        match derive_groups(
            views(events@),
            views(names@),
            height,
            old(staging)@,
            views(candidates@),
        ) {
            Err(e) => r == Err::<(), StoreError>(e),
            Ok(next) => r is Ok && final(staging)@ == next,
        },
{
    let ghost all = views(candidates@);
    let ghost goal = derive_groups(views(events@), views(names@), height, staging@, all);
    let mut lo: usize = 0;
    assert(all.skip(0) =~= all);
    while lo < candidates.len()
        invariant
            lo <= candidates.len(),
            all == views(candidates@),
            goal == derive_groups(views(events@), views(names@), height, old(staging)@, all),
            goal == derive_groups(
                views(events@),
                views(names@),
                height,
                staging@,
                all.skip(lo as int),
            ),
        decreases candidates.len() - lo,
    {
        let ghost rest = all.skip(lo as int);
        let mut hi: usize = lo + 1;
        assert(rest[0] == candidates@[lo as int]@);
        while hi < candidates.len() && text_eq(
            candidates[hi].note.name.as_str(),
            candidates[lo].note.name.as_str(),
        )
            invariant
                lo < hi <= candidates.len(),
                all == views(candidates@),
                rest == all.skip(lo as int),
                rest[0] == candidates@[lo as int]@,
                forall|k: int| 0 <= k < hi - lo ==> candidate_name()(#[trigger] rest[k])
                    == candidate_name()(rest[0]),
            decreases candidates.len() - hi,
        {
            assert(rest[hi - lo] == candidates@[hi as int]@);
            hi += 1;
        }
        proof {
            if hi < candidates.len() {
                assert(rest[hi - lo] == candidates@[hi as int]@);
            }
            lemma_run_len_is(rest, candidate_name(), hi - lo);
            assert(rest.take(hi - lo) =~= all.subrange(lo as int, hi as int));
            assert(rest.skip(hi - lo) =~= all.skip(hi as int));
        }
        match consider_group(events, names, height, candidates, lo, hi, staging) {
            Ok(()) => {},
            Err(e) => {
                return Err(e);
            },
        }
        lo = hi;
    }
    assert(all.skip(lo as int) =~= Seq::empty());
    Ok(())
}

/// Derives what a batch admits: consecutive transactions of one height form a
/// block.
pub fn derive_batch(
    events: &Vec<LogRow<NoteColumns>>,
    names: &Vec<Record<NoteColumns>>,
    transactions: &[WalletTx],
) -> (r: Result<Vec<Record<NoteColumns>>, StoreError>)
    ensures
        match derived(views(events@), views(names@), empty_staging(), views(transactions@)) {
            Err(e) => r == Err::<Vec<Record<NoteColumns>>, StoreError>(e),
            Ok(next) => r matches Ok(v) && views(v@) == next.staged,
        },
{
    let mut staging = Staging { staged: Vec::new(), pending: Vec::new() };
    let ghost all = views(transactions@);
    let ghost goal = derived(views(events@), views(names@), empty_staging(), all);
    let mut lo: usize = 0;
    proof {
        assert(all.skip(0) =~= all);
        assert(staging@ =~= empty_staging());
    }
    while lo < transactions.len()
        invariant
            lo <= transactions.len(),
            all == views(transactions@),
            goal == derived(views(events@), views(names@), empty_staging(), all),
            goal == derived(views(events@), views(names@), staging@, all.skip(lo as int)),
        decreases transactions.len() - lo,
    {
        let ghost rest = all.skip(lo as int);
        let mut hi: usize = lo + 1;
        assert(rest[0] == transactions@[lo as int]@);
        while hi < transactions.len() && transactions[hi].height == transactions[lo].height
            invariant
                lo < hi <= transactions.len(),
                all == views(transactions@),
                rest == all.skip(lo as int),
                rest[0] == transactions@[lo as int]@,
                forall|k: int| 0 <= k < hi - lo ==> tx_height()(#[trigger] rest[k]) == tx_height()(
                    rest[0],
                ),
            decreases transactions.len() - hi,
        {
            assert(rest[hi - lo] == transactions@[hi as int]@);
            hi += 1;
        }
        proof {
            if hi < transactions.len() {
                assert(rest[hi - lo] == transactions@[hi as int]@);
            }
            lemma_run_len_is(rest, tx_height(), hi - lo);
            assert(rest.take(hi - lo) =~= all.subrange(lo as int, hi as int));
            assert(rest.skip(hi - lo) =~= all.skip(hi as int));
        }
        let candidates = sorted_candidates(transactions, lo, hi);
        match consider_groups(events, names, transactions[lo].height, &candidates, &mut staging) {
            Ok(()) => {},
            Err(e) => {
                return Err(e);
            },
        }
        lo = hi;
    }
    assert(all.skip(lo as int) =~= Seq::empty());
    Ok(staging.staged)
}

pub open spec fn empty_staging() -> StagingView {
    StagingView { staged: Seq::empty(), pending: Map::empty() }
}

} // verus!
