//! The JSON-RPC methods.

use vstd::prelude::*;
use vstd::string::*;

use super::records::{
    public_event, public_record, to_name_event, to_name_record, NameEvent, NameRecord, Paginated,
    Status,
};
use crate::http::{clamp_offset, clamp_since, page_offset, since_height_of};
use crate::kernel::{action_of, Action};
use crate::log::{asked_for, views};
use crate::order::page;
use crate::registry::state::{event_page, position, served_event, served_registration, Db};
use crate::store::{mapped, read_all, render_all};
use crate::table::{bound_to, entry};

verus! {

/// Categorizes handler failures for the wire. The underlying store error is
/// never told to the client.
pub enum RpcError {
    InvalidParams(String),
    Internal,
}

#[verifier::ext_equal]
pub enum RpcErrorView {
    InvalidParams(Seq<char>),
    Internal,
}

impl View for RpcError {
    type V = RpcErrorView;

    open spec fn view(&self) -> RpcErrorView {
        match self {
            RpcError::InvalidParams(m) => RpcErrorView::InvalidParams(m@),
            RpcError::Internal => RpcErrorView::Internal,
        }
    }
}

impl RpcError {
    /// The JSON-RPC error code.
    pub fn code(&self) -> (r: i32)
        ensures
            r == (match self@ {
                RpcErrorView::InvalidParams(_) => -32602i32,
                RpcErrorView::Internal => -32603i32,
            }),
    {
        match self {
            RpcError::InvalidParams(_) => -32602,
            RpcError::Internal => -32603,
        }
    }

    /// The JSON-RPC error message.
    pub fn message(&self) -> (r: &'static str)
        ensures
            r@ == (match self@ {
                RpcErrorView::InvalidParams(_) => "Invalid params"@,
                RpcErrorView::Internal => "Internal error"@,
            }),
    {
        match self {
            RpcError::InvalidParams(_) => "Invalid params",
            RpcError::Internal => "Internal error",
        }
    }

    /// The detail told to the client: for invalid parameters alone.
    pub fn data(&self) -> (r: Option<String>)
        ensures
            match self@ {
                RpcErrorView::InvalidParams(m) => r matches Some(s) && s@ == m,
                RpcErrorView::Internal => r is None,
            },
    {
        match self {
            RpcError::InvalidParams(m) => Some(m.clone()),
            RpcError::Internal => None,
        }
    }
}

/// The page size after server caps: 50 by default, between 1 and 500.
pub open spec fn capped_limit(limit: Option<u64>) -> u32 {
    match limit {
        None => 50,
        Some(l) => if l < 1 {
            1
        } else if l > 500 {
            500
        } else {
            l as u32
        },
    }
}

/// Clamp client-supplied pagination to safe bounds.
pub fn clamp_pagination(limit: Option<u64>, offset: Option<u64>) -> (r: (u32, u32))
    ensures
        r.0 == capped_limit(limit),
        r.1 == page_offset(offset),
        1 <= r.0 <= 500,
{
    let limit: u32 = match limit {
        None => 50,
        Some(l) => if l < 1 {
            1
        } else if l > 500 {
            500
        } else {
            l as u32
        },
    };
    (limit, clamp_offset(offset))
}

/// What an unknown action is answered.
pub open spec fn invalid_action(s: Seq<char>) -> Seq<char> {
    "invalid action '"@ + s + "': expected claim, update, or release"@
}

/// Whether indexing has reached the head: our durable position and the
/// network's live head are both known, and the one is at the other.
pub open spec fn is_synced(position: Option<u32>, tip: Option<u32>) -> bool {
    position is Some && tip is Some && position->0 >= tip->0
}

/// The API over a registry and the live chain head (`None` until the first
/// poll lands).
pub struct JsonRpcApi<'a> {
    pub db: &'a Db,
    pub tip: Option<u32>,
}

impl<'a> JsonRpcApi<'a> {
    pub fn new(db: &'a Db, tip: Option<u32>) -> (r: Self)
        ensures
            r.db == db,
            r.tip == tip,
    {
        JsonRpcApi { db, tip }
    }

    /// Resolve a name to its current binding. `None` if the name is not
    /// registered (or has been released).
    pub fn resolve(&self, name: &str) -> (r: Result<Option<NameRecord>, RpcError>)
        ensures
            match entry(self.db@.names, name@) {
                None => r matches Ok(None),
                Some(record) => match served_registration()(record) {
                    Ok(v) => r matches Ok(Some(out)) && out@ == public_record()(v),
                    Err(_) => r matches Err(RpcError::Internal),
                },
            },
    {
        match self.db.resolve_by_name(name) {
            Ok(Some(reg)) => Ok(Some(to_name_record(&reg))),
            Ok(None) => Ok(None),
            Err(_) => Err(RpcError::Internal),
        }
    }

    /// List all currently registered names, paginated.
    pub fn list_names(&self, limit: Option<u64>, offset: Option<u64>) -> (r: Result<
        Paginated<NameRecord>,
        RpcError,
    >)
        ensures
            match read_all(
                page(self.db@.names, capped_limit(limit) as nat, page_offset(offset) as nat),
                served_registration(),
            ) {
                Err(_) => r matches Err(RpcError::Internal),
                Ok(v) => r matches Ok(p) && views(p.items@) == mapped(v, public_record()) && p.total
                    == self.db@.names.len() as u64 && p.limit == capped_limit(limit) && p.offset
                    == page_offset(offset),
            },
    {
        let (limit, offset) = clamp_pagination(limit, offset);
        match self.db.list_registrations(limit, offset) {
            Err(_) => Err(RpcError::Internal),
            Ok((regs, total)) => Ok(
                Paginated {
                    items: render_all(regs.as_slice(), to_name_record, Ghost(public_record())),
                    total,
                    limit: limit as u64,
                    offset: offset as u64,
                },
            ),
        }
    }

    /// Reverse lookup: find all names currently bound to a unified address.
    pub fn reverse_lookup(&self, address: &str, limit: Option<u64>, offset: Option<u64>) -> (r: Result<
        Paginated<NameRecord>,
        RpcError,
    >)
        ensures
            ({
                let bound = self.db@.names.filter(bound_to(address@));
                match read_all(
                    page(bound, capped_limit(limit) as nat, page_offset(offset) as nat),
                    served_registration(),
                ) {
                    Err(_) => r matches Err(RpcError::Internal),
                    Ok(v) => r matches Ok(p) && views(p.items@) == mapped(v, public_record()) && p.total
                        == bound.len() as u64 && p.limit == capped_limit(limit) && p.offset
                        == page_offset(offset),
                }
            }),
    {
        let (limit, offset) = clamp_pagination(limit, offset);
        match self.db.registrations_by_ua(address, limit, offset) {
            Err(_) => Err(RpcError::Internal),
            Ok((regs, total)) => Ok(
                Paginated {
                    items: render_all(regs.as_slice(), to_name_record, Ghost(public_record())),
                    total,
                    limit: limit as u64,
                    offset: offset as u64,
                },
            ),
        }
    }

    /// Current sync status and basic resolver metadata.
    pub fn status(&self) -> (r: Result<Status, RpcError>)
        ensures
            match self.db@.account {
                None => r matches Err(RpcError::Internal),
                Some(a) => {
                    let height = match position(self.db@.account) {
                        Some(c) => Some(c.height),
                        None => None,
                    };
                    r matches Ok(s) && s.viewing_key@ == a.ufvk && s.registered
                        == self.db@.names.len() as u64 && s.synced == is_synced(height, self.tip)
                        && s.synced_height == (match height {
                        Some(h) => h as u64,
                        None => 0,
                    })
                },
            },
    {
        let position = match self.db.checkpoint() {
            Ok(p) => p,
            Err(_) => {
                return Err(RpcError::Internal);
            },
        };
        let viewing_key = match self.db.registry_ufvk() {
            Ok(k) => k,
            Err(_) => {
                return Err(RpcError::Internal);
            },
        };
        let registered = match self.db.name_count() {
            Ok(n) => n,
            Err(_) => {
                return Err(RpcError::Internal);
            },
        };
        let synced = match (&position, self.tip) {
            (Some(cursor), Some(tip)) => cursor.height >= tip,
            _ => false,
        };
        let synced_height: u64 = match &position {
            Some(c) => c.height as u64,
            None => 0,
        };
        Ok(Status { synced_height, synced, viewing_key, registered })
    }

    /// Paginated event history, newest first.
    pub fn events(
        &self,
        name: Option<&str>,
        action: Option<&str>,
        since_height: Option<u64>,
        limit: Option<u64>,
        offset: Option<u64>,
    ) -> (r: Result<Paginated<NameEvent>, RpcError>)
        ensures
            ({
                let name = match name {
                    Some(n) => Some(n@),
                    None => None,
                };
                let verb = match action {
                    Some(a) => action_of(a@),
                    None => None,
                };
                let since = since_height_of(since_height);
                if action is Some && verb is None {
                    r matches Err(RpcError::InvalidParams(m)) && m@ == invalid_action(action->0@)
                } else {
                    match read_all(
                        event_page(
                            self.db@.events,
                            name,
                            verb,
                            since,
                            capped_limit(limit),
                            page_offset(offset),
                        ),
                        served_event(),
                    ) {
                        Err(_) => r matches Err(RpcError::Internal),
                        Ok(v) => r matches Ok(p) && views(p.items@) == mapped(v, public_event())
                            && p.total == self.db@.events.filter(asked_for(name, verb, since)).len() as u64
                            && p.limit == capped_limit(limit) && p.offset == page_offset(offset),
                    }
                }
            }),
    {
        let verb: Option<Action> = match action {
            Some(a) => match Action::from_text(a) {
                Some(verb) => Some(verb),
                None => {
                    let message = "invalid action '".to_string().concat(a).concat(
                        "': expected claim, update, or release",
                    );
                    return Err(RpcError::InvalidParams(message));
                },
            },
            None => None,
        };
        let (limit, offset) = clamp_pagination(limit, offset);
        match self.db.events(name, verb, clamp_since(since_height), limit, offset) {
            Err(_) => Err(RpcError::Internal),
            Ok((events, total)) => Ok(
                Paginated {
                    items: render_all(events.as_slice(), to_name_event, Ghost(public_event())),
                    total,
                    limit: limit as u64,
                    offset: offset as u64,
                },
            ),
        }
    }
}

/// Whatever a client asks for, a page has at least one row's room and at most
/// 500, and a start too large for 32 bits is the greatest there is: no later
/// page wraps round to an earlier one.
pub proof fn law_pages_are_capped(limit: Option<u64>, first: u64, second: u64)
    ensures
        1 <= capped_limit(limit) <= 500,
        limit is None ==> capped_limit(limit) == 50,
        limit matches Some(l) ==> (1 <= l <= 500 ==> capped_limit(limit) == l),
        first <= second ==> page_offset(Some(first)) <= page_offset(Some(second)),
        first <= u32::MAX ==> page_offset(Some(first)) == first,
{
}

} // verus!
