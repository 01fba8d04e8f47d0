//! Public records of the JSON-RPC interface.

use vstd::prelude::*;
use vstd::string::*;

use crate::encoding::{hex_text, reversed, txid_hex};
use crate::registry::{Event, EventView, Registration, RegistrationView};

verus! {

/// A currently active name registration (the "tip" for a name).
#[derive(Debug, Clone)]
pub struct NameRecord {
    /// The registered human-readable name.
    pub name: String,
    /// The shielded (unified) address the name currently resolves to.
    pub address: String,
    /// The transaction that produced the current binding.
    pub txid: String,
    /// Block height of the transaction that produced this binding.
    pub height: u64,
    /// The last lifecycle action that produced this state.
    pub last_action: String,
    /// `none`, or a decimal Unix timestamp.
    pub expires_at: String,
}

#[verifier::ext_equal]
pub struct NameRecordView {
    pub name: Seq<char>,
    pub address: Seq<char>,
    pub txid: Seq<char>,
    pub height: u64,
    pub last_action: Seq<char>,
    pub expires_at: Seq<char>,
}

impl View for NameRecord {
    type V = NameRecordView;

    open spec fn view(&self) -> NameRecordView {
        NameRecordView {
            name: self.name@,
            address: self.address@,
            txid: self.txid@,
            height: self.height,
            last_action: self.last_action@,
            expires_at: self.expires_at@,
        }
    }
}

/// One entry in the immutable event log for names.
#[derive(Debug, Clone)]
pub struct NameEvent {
    /// Monotonic identifier for this event.
    pub id: i64,
    pub name: String,
    pub action: String,
    pub txid: String,
    pub height: u64,
    /// Index of this action within its transaction.
    pub action_index: u64,
    /// The address this action's note carries: the binding it establishes or
    /// ends.
    pub address: String,
    /// `none`, or a decimal Unix timestamp.
    pub expires_at: String,
}

#[verifier::ext_equal]
pub struct NameEventView {
    pub id: i64,
    pub name: Seq<char>,
    pub action: Seq<char>,
    pub txid: Seq<char>,
    pub height: u64,
    pub action_index: u64,
    pub address: Seq<char>,
    pub expires_at: Seq<char>,
}

impl View for NameEvent {
    type V = NameEventView;

    open spec fn view(&self) -> NameEventView {
        NameEventView {
            id: self.id,
            name: self.name@,
            action: self.action@,
            txid: self.txid@,
            height: self.height,
            action_index: self.action_index,
            address: self.address@,
            expires_at: self.expires_at@,
        }
    }
}

/// Paginated result envelope used by list-style methods.
#[derive(Debug, Clone)]
pub struct Paginated<T> {
    pub items: Vec<T>,
    pub total: u64,
    /// The limit that was applied (after server caps).
    pub limit: u64,
    /// The offset that was applied.
    pub offset: u64,
}

/// Current operational status of the resolver.
#[derive(Debug, Clone)]
pub struct Status {
    /// Height up to which name bindings are verified and indexed.
    pub synced_height: u64,
    /// Whether indexing has reached the chain head (as of the last tip poll).
    pub synced: bool,
    /// The viewing key used to observe name bindings. Exposed so clients can
    /// verify they are talking to the expected resolver.
    pub viewing_key: String,
    /// Total number of currently registered names.
    pub registered: u64,
}

// ── registry rows as API records ────────────────────────────────────────────

/// A registry tip as the public record.
pub open spec fn public_record() -> spec_fn(RegistrationView) -> NameRecordView {
    |reg: RegistrationView|
        NameRecordView {
            name: reg.name,
            address: reg.ua,
            txid: hex_text(reversed(reg.txid@)),
            height: reg.height as u64,
            last_action: reg.last_action.text(),
            expires_at: reg.expires_at,
        }
}

/// A registry log row as the public entry.
pub open spec fn public_event() -> spec_fn(EventView) -> NameEventView {
    |e: EventView|
        NameEventView {
            id: e.id,
            name: e.name,
            action: e.action.text(),
            txid: hex_text(reversed(e.txid@)),
            height: e.height as u64,
            action_index: e.action_index as u64,
            address: e.ua,
            expires_at: e.expires_at,
        }
}

/// Renders a registry tip as the public record served by `resolve` and
/// `list_names`.
pub fn to_name_record(reg: &Registration) -> (r: NameRecord)
    ensures
        r@ == public_record()(reg@),
{
    NameRecord {
        name: reg.name.clone(),
        address: reg.ua.clone(),
        txid: txid_hex(reg.txid),
        height: reg.height as u64,
        last_action: reg.last_action.as_str().to_string(),
        expires_at: reg.expires_at.clone(),
    }
}

/// Renders one registry log row as the public entry served by `events`.
pub fn to_name_event(e: &Event) -> (r: NameEvent)
    ensures
        r@ == public_event()(e@),
{
    NameEvent {
        id: e.id,
        name: e.name.clone(),
        action: e.action.as_str().to_string(),
        txid: txid_hex(e.txid),
        height: e.height as u64,
        action_index: e.action_index as u64,
        address: e.ua.clone(),
        expires_at: e.expires_at.clone(),
    }
}

impl From<Registration> for NameRecord {
    fn from(reg: Registration) -> (r: Self)
        ensures
            r@ == public_record()(reg@),
    {
        to_name_record(&reg)
    }
}

impl vstd::std_specs::convert::FromSpecImpl<Registration> for NameRecord {
    open spec fn obeys_from_spec() -> bool {
        false
    }

    open spec fn from_spec(reg: Registration) -> NameRecord {
        arbitrary()
    }
}

impl From<Event> for NameEvent {
    fn from(e: Event) -> (r: Self)
        ensures
            r@ == public_event()(e@),
    {
        to_name_event(&e)
    }
}

impl vstd::std_specs::convert::FromSpecImpl<Event> for NameEvent {
    open spec fn obeys_from_spec() -> bool {
        false
    }

    open spec fn from_spec(e: Event) -> NameEvent {
        arbitrary()
    }
}

} // verus!
