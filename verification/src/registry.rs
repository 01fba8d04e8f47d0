//! The registry: the name index and its admission rules.

use vstd::prelude::*;

use crate::kernel::Action;

pub mod admission;
pub mod authority;
pub mod completeness;
pub mod handle;
pub mod laws;
pub mod lifecycle;
pub mod locality;
pub mod notes;
pub mod provenance;
pub mod replay;
pub mod served;
pub mod state;
pub mod watching;

verus! {

/// The persisted scan state.
#[derive(Clone, Copy, Debug)]
pub struct Checkpoint {
    pub scanned_height: u32,
    pub scanned_hash: Option<[u8; 32]>,
    pub chain_tip_height: Option<u32>,
    pub chain_tip_hash: Option<[u8; 32]>,
}

/// Current registration: a name's live tip.
#[derive(Debug, Clone)]
pub struct Registration {
    pub name: String,
    pub ua: String,
    /// `none`, or a decimal Unix timestamp.
    pub expires_at: String,
    pub txid: [u8; 32],
    pub height: u32,
    pub last_action: Action,
}

#[verifier::ext_equal]
pub struct RegistrationView {
    pub name: Seq<char>,
    pub ua: Seq<char>,
    pub expires_at: Seq<char>,
    pub txid: [u8; 32],
    pub height: u32,
    pub last_action: Action,
}

impl View for Registration {
    type V = RegistrationView;

    open spec fn view(&self) -> RegistrationView {
        RegistrationView {
            name: self.name@,
            ua: self.ua@,
            expires_at: self.expires_at@,
            txid: self.txid,
            height: self.height,
            last_action: self.last_action,
        }
    }
}

/// One verified lifecycle row of the event log.
#[derive(Debug, Clone)]
pub struct Event {
    pub id: i64,
    pub name: String,
    pub action: Action,
    pub ua: String,
    /// `none`, or a decimal Unix timestamp.
    pub expires_at: String,
    pub txid: [u8; 32],
    pub height: u32,
    pub action_index: usize,
}

#[verifier::ext_equal]
pub struct EventView {
    pub id: i64,
    pub name: Seq<char>,
    pub action: Action,
    pub ua: Seq<char>,
    pub expires_at: Seq<char>,
    pub txid: [u8; 32],
    pub height: u32,
    pub action_index: usize,
}

impl View for Event {
    type V = EventView;

    open spec fn view(&self) -> EventView {
        EventView {
            id: self.id,
            name: self.name@,
            action: self.action,
            ua: self.ua@,
            expires_at: self.expires_at@,
            txid: self.txid,
            height: self.height,
            action_index: self.action_index,
        }
    }
}

} // verus!
