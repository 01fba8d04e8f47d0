//! JSON-RPC answers: the resolver's public surface.
//!
//! Method names and response shapes are those of the live indexer, so its
//! clients work against this resolver unchanged. There is no marketplace, so
//! `listings` is always empty; `resolve`, `chain`, `events` and `status` are
//! the load-bearing methods.

use vstd::prelude::*;
use vstd::string::*;

use crate::encoding::{hex_encode, hex_text};
use crate::index::{
    cursor_of, current_bound, material_of, proof_row, read_chain_row, read_event, read_registration,
    row_name_order, ChainRow, ChainRowView, Event, EventView, IndexView, MaterialView, ProofRowView,
    Registration, RegistrationView, SqliteIndex,
};
use crate::kernel::Action;
use crate::log::{asked_for, chain_order, latest, newest_first, of_name, views};
use crate::order::{page, sort_by};
use crate::store::{mapped, read_all, render_all, StoreError};

pub mod laws;

verus! {

// ── response shapes ─────────────────────────────────────────────────────────

/// A registration as it is served. Names are bound by the on-chain note
/// commitment, not by signatures or listings: those fields are always empty,
/// kept for the clients' sake.
#[derive(Debug, Clone)]
pub struct RegistrationEntry {
    pub name: String,
    pub address: String,
    pub txid: String,
    pub height: u64,
    pub last_action: String,
    pub nonce: u64,
    pub signature: Option<String>,
    pub listing: Option<String>,
}

#[verifier::ext_equal]
pub struct RegistrationEntryView {
    pub name: Seq<char>,
    pub address: Seq<char>,
    pub txid: Seq<char>,
    pub height: u64,
    pub last_action: Seq<char>,
    pub nonce: u64,
    pub signature: Option<String>,
    pub listing: Option<String>,
}

impl View for RegistrationEntry {
    type V = RegistrationEntryView;

    open spec fn view(&self) -> RegistrationEntryView {
        RegistrationEntryView {
            name: self.name@,
            address: self.address@,
            txid: self.txid@,
            height: self.height,
            last_action: self.last_action@,
            nonce: self.nonce,
            signature: self.signature,
            listing: self.listing,
        }
    }
}

/// Resolver status.
#[derive(Debug, Clone)]
pub struct StatusResult {
    /// Highest block applied to the index.
    pub synced_height: u64,
    /// The viewing key this resolver scans with.
    pub uivk: String,
    /// Number of names currently registered.
    pub registered: u64,
    /// Always empty: there is no admin key.
    pub admin_pubkey: String,
    /// Always zero: there is no marketplace.
    pub listed: u64,
}

/// Marketplace listings (always empty here).
#[derive(Debug, Clone)]
pub struct ListingsResult {
    /// The listings (empty).
    pub listings: Vec<String>,
    /// Total count (zero).
    pub total: u64,
}

/// One event-log entry.
#[derive(Debug, Clone)]
pub struct EventEntry {
    pub id: i64,
    pub name: String,
    pub action: String,
    pub txid: String,
    pub height: u64,
    /// The address involved; none for a release.
    pub ua: Option<String>,
    pub price: Option<u64>,
    pub nonce: u64,
    pub signature: Option<String>,
    pub pubkey: Option<String>,
}

#[verifier::ext_equal]
pub struct EventEntryView {
    pub id: i64,
    pub name: Seq<char>,
    pub action: Seq<char>,
    pub txid: Seq<char>,
    pub height: u64,
    pub ua: Option<Seq<char>>,
    pub price: Option<u64>,
    pub nonce: u64,
    pub signature: Option<String>,
    pub pubkey: Option<String>,
}

impl View for EventEntry {
    type V = EventEntryView;

    open spec fn view(&self) -> EventEntryView {
        EventEntryView {
            id: self.id,
            name: self.name@,
            action: self.action@,
            txid: self.txid@,
            height: self.height,
            ua: match self.ua {
                Some(u) => Some(u@),
                None => None,
            },
            price: self.price,
            nonce: self.nonce,
            signature: self.signature,
            pubkey: self.pubkey,
        }
    }
}

/// Event-log result.
#[derive(Debug, Clone)]
pub struct EventsResult {
    /// The matching page of events, newest first.
    pub events: Vec<EventEntry>,
    /// Total matches before pagination.
    pub total: u64,
}

/// One link of a name's proof chain. `action` and `ua` are the resolver's
/// claims; everything else is chain artifact that a wallet recomputes. Action
/// names here are the canonical lowercase ones, which the verifier hashes.
#[derive(Debug, Clone)]
pub struct ProofLinkEntry {
    pub action: String,
    pub ua: String,
    pub height: u64,
    pub txid: String,
    pub action_index: u64,
    /// Full raw transaction, hex.
    pub tx: String,
    /// Raw block header, hex.
    pub header: String,
    /// Merkle branch siblings (leaf to root), hex each.
    pub merkle_branch: Vec<String>,
    pub merkle_index: u64,
}

#[verifier::ext_equal]
pub struct ProofLinkView {
    pub action: Seq<char>,
    pub ua: Seq<char>,
    pub height: u64,
    pub txid: Seq<char>,
    pub action_index: u64,
    pub tx: Seq<char>,
    pub header: Seq<char>,
    pub merkle_branch: Seq<Seq<char>>,
    pub merkle_index: u64,
}

impl View for ProofLinkEntry {
    type V = ProofLinkView;

    open spec fn view(&self) -> ProofLinkView {
        ProofLinkView {
            action: self.action@,
            ua: self.ua@,
            height: self.height,
            txid: self.txid@,
            action_index: self.action_index,
            tx: self.tx@,
            header: self.header@,
            merkle_branch: views(self.merkle_branch@),
            merkle_index: self.merkle_index,
        }
    }
}

/// A name's full applied history with proof context.
#[derive(Debug, Clone)]
pub struct ChainResult {
    /// The queried name.
    pub name: String,
    /// Every applied action in chain order, each verifiable standalone.
    pub links: Vec<ProofLinkEntry>,
}

/// The answer to `resolve`: a list of registrations, or the record of one name
/// with the proof chain where it was asked for.
pub enum ResolveAnswer {
    List(Vec<RegistrationEntry>),
    Record(RegistrationEntry, Option<Vec<ProofLinkEntry>>),
}

#[verifier::ext_equal]
pub enum ResolveView {
    List(Seq<RegistrationEntryView>),
    Record(RegistrationEntryView, Option<Seq<ProofLinkView>>),
}

impl View for ResolveAnswer {
    type V = ResolveView;

    open spec fn view(&self) -> ResolveView {
        match self {
            ResolveAnswer::List(v) => ResolveView::List(views(v@)),
            ResolveAnswer::Record(e, links) => ResolveView::Record(
                e@,
                match links {
                    Some(l) => Some(views(l@)),
                    None => None,
                },
            ),
        }
    }
}

/// Why a request failed.
#[derive(Clone, Copy, Debug, PartialEq, Eq, Structural)]
pub enum RpcFault {
    /// The index failed; what failed is never told to the client.
    Internal,
    /// The proof material of an action is not stored.
    ProofUnavailable,
}

impl RpcFault {
    /// The JSON-RPC error code.
    pub fn code(self) -> (r: i32)
        ensures
            r == (match self {
                RpcFault::Internal => -32603i32,
                RpcFault::ProofUnavailable => -32011i32,
            }),
    {
        match self {
            RpcFault::Internal => -32603,
            RpcFault::ProofUnavailable => -32011,
        }
    }

    /// The JSON-RPC error message.
    pub fn message(self) -> (r: &'static str)
        ensures
            r@ == (match self {
                RpcFault::Internal => "Internal error"@,
                RpcFault::ProofUnavailable =>
                    "proof material unavailable (resolver synced without --validator-rpc)"@,
            }),
    {
        match self {
            RpcFault::Internal => "Internal error",
            RpcFault::ProofUnavailable =>
                "proof material unavailable (resolver synced without --validator-rpc)",
        }
    }
}

// ── rendering ───────────────────────────────────────────────────────────────

/// Action names on the wire are uppercase.
pub open spec fn wire_name(a: Action) -> Seq<char> {
    match a {
        Action::Claim => "CLAIM"@,
        Action::Update => "UPDATE"@,
        Action::Release => "RELEASE"@,
    }
}

pub fn action_name(a: Action) -> (r: &'static str)
    ensures
        r@ == wire_name(a),
{
    match a {
        Action::Claim => "CLAIM",
        Action::Update => "UPDATE",
        Action::Release => "RELEASE",
    }
}

pub open spec fn upper(c: char) -> char {
    if 'a' <= c <= 'z' {
        (c as u8 - 32) as char
    } else {
        c
    }
}

/// ASCII letters in upper case, everything else as it is.
pub open spec fn upper_text(s: Seq<char>) -> Seq<char> {
    Seq::new(s.len(), |i: int| upper(s[i]))
}

/// The action a filter asks for, whatever its case; none for a verb that this
/// resolver can never log.
pub open spec fn asked_action(s: Seq<char>) -> Option<Action> {
    if upper_text(s) == "CLAIM"@ {
        Some(Action::Claim)
    } else if upper_text(s) == "UPDATE"@ {
        Some(Action::Update)
    } else if upper_text(s) == "RELEASE"@ {
        Some(Action::Release)
    } else {
        None
    }
}

fn upper_is(s: &str, word: &str) -> (r: bool)
    ensures
        r == (upper_text(s@) == word@),
{
    let n: usize = s.unicode_len();
    if n != word.unicode_len() {
        assert(upper_text(s@).len() != word@.len());
        return false;
    }
    let mut i: usize = 0;
    while i < n
        invariant
            n == s@.len(),
            n == word@.len(),
            i <= n,
            forall|j: int| 0 <= j < i ==> upper_text(s@)[j] == word@[j],
        decreases n - i,
    {
        let c: char = s.get_char(i);
        let u: char = if 'a' <= c && c <= 'z' {
            (c as u8 - 32) as char
        } else {
            c
        };
        if u != word.get_char(i) {
            assert(upper_text(s@)[i as int] != word@[i as int]);
            return false;
        }
        i += 1;
    }
    assert(upper_text(s@) =~= word@);
    true
}

/// Parse a client's `action` filter (case-insensitive).
pub fn parse_action_filter(s: &str) -> (r: Option<Action>)
    ensures
        r == asked_action(s@),
{
    if upper_is(s, "CLAIM") {
        Some(Action::Claim)
    } else if upper_is(s, "UPDATE") {
        Some(Action::Update)
    } else if upper_is(s, "RELEASE") {
        Some(Action::Release)
    } else {
        None
    }
}

/// The wire spelling of an action filters for it, and so does the canonical
/// one.
pub proof fn law_action_filter_round_trips(a: Action)
    ensures
        asked_action(wire_name(a)) == Some(a),
        asked_action(a.text()) == Some(a),
{
    reveal_strlit("CLAIM");
    reveal_strlit("UPDATE");
    reveal_strlit("RELEASE");
    reveal_strlit("claim");
    reveal_strlit("update");
    reveal_strlit("release");
    assert(upper_text(wire_name(a)) =~= wire_name(a));
    assert(upper_text(a.text()) =~= wire_name(a));
    assert("CLAIM"@.len() == 5 && "UPDATE"@.len() == 6 && "RELEASE"@.len() == 7);
}

/// A registration as it is served.
pub open spec fn rendered_entry() -> spec_fn(RegistrationView) -> RegistrationEntryView {
    |r: RegistrationView|
        RegistrationEntryView {
            name: r.name,
            address: r.ua,
            txid: hex_text(r.txid@),
            height: r.height as u64,
            last_action: wire_name(r.last_action),
            nonce: 0,
            signature: None,
            listing: None,
        }
}

pub fn entry(r: &Registration) -> (out: RegistrationEntry)
    ensures
        out@ == rendered_entry()(r@),
{
    RegistrationEntry {
        name: r.name.clone(),
        address: r.ua.clone(),
        txid: hex_encode(r.txid.as_slice()),
        height: r.height as u64,
        last_action: action_name(r.last_action).to_string(),
        nonce: 0,
        signature: None,
        listing: None,
    }
}

/// A logged event as it is served.
pub open spec fn rendered_event() -> spec_fn(EventView) -> EventEntryView {
    |e: EventView|
        EventEntryView {
            id: e.id,
            name: e.name,
            action: wire_name(e.action),
            txid: hex_text(e.txid@),
            height: e.height as u64,
            ua: if e.ua.len() == 0 {
                None
            } else {
                Some(e.ua)
            },
            price: None,
            nonce: 0,
            signature: None,
            pubkey: None,
        }
}

pub fn event_entry(e: &Event) -> (out: EventEntry)
    ensures
        out@ == rendered_event()(e@),
{
    EventEntry {
        id: e.id,
        name: e.name.clone(),
        action: action_name(e.action).to_string(),
        txid: hex_encode(e.txid.as_slice()),
        height: e.height as u64,
        ua: if e.ua.as_str().unicode_len() == 0 {
            None
        } else {
            Some(e.ua.clone())
        },
        price: None,
        nonce: 0,
        signature: None,
        pubkey: None,
    }
}

// ── proof chains ────────────────────────────────────────────────────────────

/// The position of the last claim, or 0 where there is none.
pub open spec fn last_claim(rows: Seq<ChainRowView>) -> int
    decreases rows.len(),
{
    if rows.len() == 0 {
        0
    } else if rows.last().action == Action::Claim {
        rows.len() - 1
    } else {
        last_claim(rows.drop_last())
    }
}

/// The rows from the most recent claim on.
pub open spec fn segment_of(rows: Seq<ChainRowView>) -> Seq<ChainRowView> {
    rows.skip(last_claim(rows))
}

/// A segment is the end of the history, holds no claim but its first row, and
/// starts at one where there is any.
pub proof fn law_segment_starts_at_last_claim(rows: Seq<ChainRowView>)
    ensures
        0 <= last_claim(rows) <= rows.len(),
        forall|i: int| last_claim(rows) < i < rows.len() ==> (#[trigger] rows[i]).action != Action::Claim,
        (exists|i: int| 0 <= i < rows.len() && (#[trigger] rows[i]).action == Action::Claim) ==> last_claim(
            rows,
        ) < rows.len() && rows[last_claim(rows)].action == Action::Claim,
    decreases rows.len(),
{
    if rows.len() > 0 {
        let init = rows.drop_last();
        law_segment_starts_at_last_claim(init);
        assert(rows.last() == rows[rows.len() - 1]);
        assert forall|i: int| last_claim(rows) < i < rows.len() implies (#[trigger] rows[i]).action
            != Action::Claim by {
            if i < init.len() {
                assert(init[i].action != Action::Claim);
            }
        }
        if rows.last().action != Action::Claim && exists|i: int|
            0 <= i < rows.len() && (#[trigger] rows[i]).action == Action::Claim {
            let i = choose|i: int| 0 <= i < rows.len() && (#[trigger] rows[i]).action == Action::Claim;
            assert(init[i].action == Action::Claim);
            assert(init[last_claim(init)] == rows[last_claim(init)]);
        }
    }
}

/// The current segment of a name's history: the rows from its most recent
/// claim onward. Earlier claim and release cycles do not bear on the current
/// binding.
pub fn current_segment(rows: &[ChainRow]) -> (r: &[ChainRow])
    ensures
        views(r@) == segment_of(views(rows@)),
{
    let ghost all = views(rows@);
    let mut end: usize = rows.len();
    let mut start: usize = 0;
    assert(all.take(end as int) =~= all);
    while end > 0
        invariant_except_break
            start == 0,
            end <= rows.len(),
            all == views(rows@),
            last_claim(all) == last_claim(all.take(end as int)),
        ensures
            start <= rows.len(),
            start == last_claim(all),
        decreases end,
    {
        assert(all.take(end as int).drop_last() =~= all.take(end - 1));
        if rows[end - 1].action == Action::Claim {
            start = end - 1;
            break;
        }
        end -= 1;
    }
    let out = vstd::slice::slice_subrange(rows, start, rows.len());
    assert(views(out@) =~= all.skip(start as int));
    out
}

pub open spec fn hex_each(branch: Seq<[u8; 32]>) -> Seq<Seq<char>> {
    Seq::new(branch.len(), |i: int| hex_text(branch[i]@))
}

/// One row joined with its proof material.
pub open spec fn joined_link(row: ChainRowView, m: MaterialView) -> ProofLinkView {
    ProofLinkView {
        action: row.action.text(),
        ua: row.ua,
        height: row.height as u64,
        txid: hex_text(row.txid@),
        action_index: row.action_index as u64,
        tx: hex_text(m.raw_tx),
        header: hex_text(m.header),
        merkle_branch: hex_each(m.merkle_branch),
        merkle_index: m.merkle_index as u64,
    }
}

/// The rows joined with their proof material; a row without any fails the
/// whole.
pub open spec fn joined_links(proofs: Seq<ProofRowView>, rows: Seq<ChainRowView>) -> Result<
    Seq<ProofLinkView>,
    RpcFault,
>
    decreases rows.len(),
{
    if rows.len() == 0 {
        Ok(Seq::empty())
    } else {
        match joined_links(proofs, rows.drop_last()) {
            Err(e) => Err(e),
            Ok(v) => match proof_row(proofs, rows.last().txid@) {
                None => Err(RpcFault::ProofUnavailable),
                Some(p) => Ok(v.push(joined_link(rows.last(), material_of(p)))),
            },
        }
    }
}

proof fn lemma_joined_fails(proofs: Seq<ProofRowView>, rows: Seq<ChainRowView>, k: int)
    requires
        0 <= k <= rows.len(),
        joined_links(proofs, rows.take(k)) is Err,
    ensures
        joined_links(proofs, rows) == joined_links(proofs, rows.take(k)),
    decreases rows.len(),
{
    if k < rows.len() {
        assert(rows.drop_last().take(k) =~= rows.take(k));
        lemma_joined_fails(proofs, rows.drop_last(), k);
    } else {
        assert(rows.take(k) =~= rows);
    }
}

/// Proof links exist for a chain exactly where every action's material is
/// stored.
pub proof fn law_links_need_all_material(proofs: Seq<ProofRowView>, rows: Seq<ChainRowView>)
    ensures
        joined_links(proofs, rows) is Ok <==> forall|i: int|
            0 <= i < rows.len() ==> proof_row(proofs, (#[trigger] rows[i]).txid@) is Some,
        joined_links(proofs, rows) matches Ok(v) ==> v.len() == rows.len(),
        joined_links(proofs, rows) matches Err(e) ==> e == RpcFault::ProofUnavailable,
    decreases rows.len(),
{
    if rows.len() > 0 {
        let init = rows.drop_last();
        law_links_need_all_material(proofs, init);
        assert(rows.last() == rows[rows.len() - 1]);
        if joined_links(proofs, rows) is Ok {
            assert forall|i: int| 0 <= i < rows.len() implies proof_row(
                proofs,
                (#[trigger] rows[i]).txid@,
            ) is Some by {
                if i < init.len() {
                    assert(proof_row(proofs, init[i].txid@) is Some);
                }
            }
        }
        if forall|i: int| 0 <= i < rows.len() ==> proof_row(proofs, (#[trigger] rows[i]).txid@) is Some {
            assert forall|i: int| 0 <= i < init.len() implies proof_row(
                proofs,
                (#[trigger] init[i]).txid@,
            ) is Some by {
                assert(proof_row(proofs, rows[i].txid@) is Some);
            }
            assert(proof_row(proofs, rows[rows.len() - 1].txid@) is Some);
        }
    }
}

fn encode_each(branch: &Vec<[u8; 32]>) -> (r: Vec<String>)
    ensures
        views(r@) == hex_each(branch@),
{
    let mut out: Vec<String> = Vec::new();
    let mut i: usize = 0;
    while i < branch.len()
        invariant
            i <= branch.len(),
            views(out@) == hex_each(branch@).take(i as int),
        decreases branch.len() - i,
    {
        let ghost before = views(out@);
        let text = hex_encode(branch[i].as_slice());
        out.push(text);
        proof {
            assert(views(out@) =~= before.push(text@));
            assert(views(out@) =~= hex_each(branch@).take(i + 1));
        }
        i += 1;
    }
    assert(hex_each(branch@).take(branch@.len() as int) =~= hex_each(branch@));
    out
}

/// Join proof material onto chain rows, building serveable links.
pub fn proof_links(idx: &SqliteIndex, rows: &[ChainRow]) -> (r: Result<Vec<ProofLinkEntry>, RpcFault>)
    ensures
        match joined_links(idx@.proof_material, views(rows@)) {
            Ok(v) => r matches Ok(out) && views(out@) == v,
            Err(e) => r == Err::<Vec<ProofLinkEntry>, RpcFault>(e),
        },
{
    let ghost proofs = idx@.proof_material;
    let ghost all = views(rows@);
    let mut out: Vec<ProofLinkEntry> = Vec::new();
    let mut i: usize = 0;
    assert(views(out@) =~= Seq::empty());
    while i < rows.len()
        invariant
            i <= rows.len(),
            proofs == idx@.proof_material,
            all == views(rows@),
            joined_links(proofs, all.take(i as int)) == Ok::<Seq<ProofLinkView>, RpcFault>(views(out@)),
        decreases rows.len() - i,
    {
        let row = &rows[i];
        proof {
            assert(all.take(i + 1).drop_last() =~= all.take(i as int));
            assert(all.take(i + 1).last() == row@);
        }
        match idx.proof_material(&row.txid) {
            Ok(Some(m)) => {
                let link = ProofLinkEntry {
                    action: row.action.as_str().to_string(),
                    ua: row.ua.clone(),
                    height: row.height as u64,
                    txid: hex_encode(row.txid.as_slice()),
                    action_index: row.action_index as u64,
                    tx: hex_encode(m.raw_tx.as_slice()),
                    header: hex_encode(m.header.as_slice()),
                    merkle_branch: encode_each(&m.merkle_branch),
                    merkle_index: m.merkle_index as u64,
                };
                let ghost before = views(out@);
                out.push(link);
                assert(views(out@) =~= before.push(link@));
            },
            _ => {
                proof {
                    lemma_joined_fails(proofs, all, i + 1);
                }
                return Err(RpcFault::ProofUnavailable);
            },
        }
        i += 1;
    }
    assert(all.take(all.len() as int) =~= all);
    Ok(out)
}

// ── methods ─────────────────────────────────────────────────────────────────

/// The page size a client asks for: 50 by default, at most 500.
pub open spec fn page_limit(limit: Option<u64>) -> u32 {
    match limit {
        Some(l) => if l <= 500 {
            l as u32
        } else {
            500
        },
        None => 50,
    }
}

/// The page start a client asks for: 0 by default, at most the greatest of 32
/// bits.
pub open spec fn page_offset(offset: Option<u64>) -> u32 {
    match offset {
        Some(o) => if o <= u32::MAX {
            o as u32
        } else {
            u32::MAX
        },
        None => 0,
    }
}

/// The height a client asks for, at most the greatest of 32 bits.
pub open spec fn since_height_of(since: Option<u64>) -> Option<u32> {
    match since {
        Some(h) => Some(
            if h <= u32::MAX {
                h as u32
            } else {
                u32::MAX
            },
        ),
        None => None,
    }
}

pub fn clamp_limit(limit: Option<u64>) -> (r: u32)
    ensures
        r == page_limit(limit),
{
    match limit {
        Some(l) => if l <= 500 {
            l as u32
        } else {
            500
        },
        None => 50,
    }
}

pub fn clamp_offset(offset: Option<u64>) -> (r: u32)
    ensures
        r == page_offset(offset),
{
    match offset {
        Some(o) => if o <= u32::MAX as u64 {
            o as u32
        } else {
            u32::MAX
        },
        None => 0,
    }
}

pub fn clamp_since(since: Option<u64>) -> (r: Option<u32>)
    ensures
        r == since_height_of(since),
{
    match since {
        Some(h) => if h <= u32::MAX as u64 {
            Some(h as u32)
        } else {
            Some(u32::MAX)
        },
        None => None,
    }
}

/// A page of the current registrations bound to `ua` (or of all of them).
pub open spec fn registrations_page(index: IndexView, ua: Option<Seq<char>>, limit: u32, offset: u32) -> Result<
    Seq<RegistrationView>,
    StoreError,
> {
    read_all(
        page(
            sort_by(index.actions.filter(current_bound(index.actions, ua)), row_name_order()),
            limit as nat,
            offset as nat,
        ),
        read_registration(),
    )
}

pub open spec fn list_answer(regs: Result<Seq<RegistrationView>, StoreError>) -> Result<
    ResolveView,
    RpcFault,
> {
    match regs {
        Ok(v) => Ok(ResolveView::List(mapped(v, rendered_entry()))),
        Err(_) => Err(RpcFault::Internal),
    }
}

/// A name's history in chain order.
pub open spec fn history(index: IndexView, name: Seq<char>) -> Result<Seq<ChainRowView>, StoreError> {
    read_all(sort_by(index.actions.filter(of_name(name)), chain_order()), read_chain_row())
}

/// The answer to a query: empty lists all registrations, an exact name gives
/// its record, anything else is taken as an address and lists its names.
/// Proofs attach only to the exact-name form.
pub open spec fn resolved(
    index: IndexView,
    query: Seq<char>,
    limit: Option<u64>,
    offset: Option<u64>,
    with_proof: Option<bool>,
) -> Result<ResolveView, RpcFault> {
    let limit = page_limit(limit);
    let offset = page_offset(offset);
    let row = latest(index.actions, query);
    if query.len() == 0 {
        list_answer(registrations_page(index, None, limit, offset))
    } else if row is None || row->0.record.action == Action::Release.text() {
        list_answer(registrations_page(index, Some(query), limit, offset))
    } else {
        match read_registration()(row->0) {
            Err(_) => Err(RpcFault::Internal),
            Ok(reg) => if with_proof == Some(true) {
                match history(index, query) {
                    Err(_) => Err(RpcFault::Internal),
                    Ok(rows) => match joined_links(index.proof_material, segment_of(rows)) {
                        Err(e) => Err(e),
                        Ok(links) => Ok(ResolveView::Record(rendered_entry()(reg), Some(links))),
                    },
                }
            } else {
                Ok(ResolveView::Record(rendered_entry()(reg), None))
            },
        }
    }
}

/// The context of a call: where the index is, and the key it scans with.
pub struct RpcContext {
    /// Path to the resolver's SQLite index. Handlers read it per call.
    pub db: String,
    /// The registry's viewing key, surfaced in `status` for clients.
    pub uivk: String,
}

impl RpcContext {
    /// Resolve a query: empty for all registrations, an exact name for that
    /// record, otherwise an address for its names. With `with_proof` on an
    /// exact-name query, the record carries its proof chain: the links from
    /// the name's most recent claim to its tip.
    pub fn resolve(
        &self,
        idx: &SqliteIndex,
        query: &str,
        limit: Option<u64>,
        offset: Option<u64>,
        with_proof: Option<bool>,
    ) -> (r: Result<ResolveAnswer, RpcFault>)
        ensures
            match resolved(idx@, query@, limit, offset, with_proof) {
                Ok(v) => r matches Ok(a) && a@ == v,
                Err(e) => r == Err::<ResolveAnswer, RpcFault>(e),
            },
    {
        let limit = clamp_limit(limit);
        let offset = clamp_offset(offset);
        if query.unicode_len() == 0 {
            return match idx.list_registrations(limit, offset) {
                Ok(regs) => Ok(
                    ResolveAnswer::List(
                        render_all(regs.as_slice(), entry, Ghost(rendered_entry())),
                    ),
                ),
                Err(_) => Err(RpcFault::Internal),
            };
        }
        match idx.resolve_by_name(query) {
            Err(_) => Err(RpcFault::Internal),
            Ok(Some(reg)) => {
                let record = entry(&reg);
                let wanted = match with_proof {
                    Some(b) => b,
                    None => false,
                };
                if !wanted {
                    return Ok(ResolveAnswer::Record(record, None));
                }
                match idx.chain_rows(query) {
                    Err(_) => Err(RpcFault::Internal),
                    Ok(rows) => match proof_links(idx, current_segment(rows.as_slice())) {
                        Err(e) => Err(e),
                        Ok(links) => Ok(ResolveAnswer::Record(record, Some(links))),
                    },
                }
            },
            Ok(None) => match idx.registrations_by_ua(query, limit, offset) {
                Ok(regs) => Ok(
                    ResolveAnswer::List(
                        render_all(regs.as_slice(), entry, Ghost(rendered_entry())),
                    ),
                ),
                Err(_) => Err(RpcFault::Internal),
            },
        }
    }

    /// A name's full applied history, releases included, with proof context.
    pub fn chain(&self, idx: &SqliteIndex, name: &str) -> (r: Result<ChainResult, RpcFault>)
        ensures
            match history(idx@, name@) {
                Err(_) => r == Err::<ChainResult, RpcFault>(RpcFault::Internal),
                Ok(rows) => match joined_links(idx@.proof_material, rows) {
                    Err(e) => r == Err::<ChainResult, RpcFault>(e),
                    Ok(links) => r matches Ok(c) && c.name@ == name@ && views(c.links@) == links,
                },
            },
    {
        match idx.chain_rows(name) {
            Err(_) => Err(RpcFault::Internal),
            Ok(rows) => match proof_links(idx, rows.as_slice()) {
                Err(e) => Err(e),
                Ok(links) => Ok(ChainResult { name: name.to_string(), links }),
            },
        }
    }

    /// Resolver status: synced height, registered count, and the scanning key.
    pub fn status(&self, idx: &SqliteIndex) -> (r: Result<StatusResult, RpcFault>)
        ensures
            r matches Ok(s) && s.uivk@ == self.uivk@ && s.admin_pubkey@.len() == 0 && s.listed == 0
                && s.synced_height == (match cursor_of(idx@.sync_state) {
                Some(c) => c.0 as u64,
                None => 0,
            }) && s.registered == idx@.actions.filter(current_bound(idx@.actions, None)).len() as u64,
    {
        let synced_height = match idx.last_scanned_height() {
            Ok(Some(h)) => h as u64,
            Ok(None) => 0,
            Err(_) => {
                return Err(RpcFault::Internal);
            },
        };
        match idx.name_count() {
            Ok(registered) => {
                let admin_pubkey = String::new();
                Ok(
                    StatusResult {
                        synced_height,
                        uivk: self.uivk.clone(),
                        registered,
                        admin_pubkey,
                        listed: 0,
                    },
                )
            },
            Err(_) => Err(RpcFault::Internal),
        }
    }

    /// Marketplace listings: always empty.
    pub fn listings(&self, limit: Option<u64>, offset: Option<u64>) -> (r: ListingsResult)
        ensures
            r.listings@.len() == 0,
            r.total == 0,
    {
        ListingsResult { listings: Vec::new(), total: 0 }
    }

    /// The action event log (newest first), with optional `name`, `action` and
    /// strictly-greater-than `since_height` filters. An action this resolver
    /// can never log matches nothing.
    pub fn events(
        &self,
        idx: &SqliteIndex,
        name: Option<&str>,
        action: Option<&str>,
        since_height: Option<u64>,
        limit: Option<u64>,
        offset: Option<u64>,
    ) -> (r: Result<EventsResult, RpcFault>)
        ensures
            ({
                let name = match name {
                    Some(n) => Some(n@),
                    None => None,
                };
                let verb = match action {
                    Some(a) => asked_action(a@),
                    None => None,
                };
                let matching = idx@.actions.filter(
                    asked_for(name, verb, since_height_of(since_height)),
                );
                if action is Some && verb is None {
                    r matches Ok(out) && out.events@.len() == 0 && out.total == 0
                } else {
                    match read_all(
                        page(
                            sort_by(matching, newest_first()),
                            page_limit(limit) as nat,
                            page_offset(offset) as nat,
                        ),
                        read_event(),
                    ) {
                        Err(_) => r == Err::<EventsResult, RpcFault>(RpcFault::Internal),
                        Ok(v) => r matches Ok(out) && views(out.events@) == mapped(v, rendered_event())
                            && out.total == matching.len() as u64,
                    }
                }
            }),
    {
        let verb: Option<Action> = match action {
            Some(a) => match parse_action_filter(a) {
                Some(verb) => Some(verb),
                None => {
                    return Ok(EventsResult { events: Vec::new(), total: 0 });
                },
            },
            None => None,
        };
        match idx.events(
            name,
            verb,
            clamp_since(since_height),
            clamp_limit(limit),
            clamp_offset(offset),
        ) {
            Err(_) => Err(RpcFault::Internal),
            Ok((events, total)) => Ok(
                EventsResult {
                    events: render_all(events.as_slice(), event_entry, Ghost(rendered_event())),
                    total,
                },
            ),
        }
    }
}

} // verus!
