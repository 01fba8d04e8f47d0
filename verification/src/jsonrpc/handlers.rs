//! The query surface with one `resolve` for names, addresses and listings.

use vstd::prelude::*;
use vstd::string::*;

use super::records::{
    public_event, public_record, to_name_event, to_name_record, NameEvent, NameEventView,
    NameRecord, NameRecordView, Paginated,
};
use super::service::RpcError;
use crate::http::{
    clamp_limit, clamp_offset, clamp_since, page_limit, page_offset, since_height_of,
};
use crate::kernel::{action_of, Action};
use crate::log::{asked_for, views};
use crate::order::page;
use crate::registry::state::{
    event_page, reached, served_event, served_registration, Db, DbView,
};
use crate::store::{mapped, read_all, render_all};
use crate::table::{bound_to, entry};

verus! {

/// Current sync status and basic resolver metadata.
#[derive(Debug, Clone)]
pub struct Status {
    pub synced_height: u64,
    /// Zero while the head is unknown.
    pub chain_tip_height: u64,
    pub synced: bool,
    pub blocks_behind: u64,
    pub viewing_key: String,
    pub registered: u64,
}

/// What `resolve` gives: the record of a name, or a list of records.
pub enum Resolved {
    List(Vec<NameRecord>),
    Record(NameRecord),
}

#[verifier::ext_equal]
pub enum ResolvedView {
    List(Seq<NameRecordView>),
    Record(NameRecordView),
}

impl View for Resolved {
    type V = ResolvedView;

    open spec fn view(&self) -> ResolvedView {
        match self {
            Resolved::List(items) => ResolvedView::List(views(items@)),
            Resolved::Record(record) => ResolvedView::Record(record@),
        }
    }
}

/// The answer to a query: empty lists all names, an exact name gives its
/// record, anything else is taken as an address and lists its names.
pub open spec fn resolution(
    db: DbView,
    query: Seq<char>,
    limit: Option<u64>,
    offset: Option<u64>,
) -> Option<ResolvedView> {
    let found = entry(db.names, query);
    if query.len() > 0 && found is Some {
        match served_registration()(found->0) {
            Ok(v) => Some(ResolvedView::Record(public_record()(v))),
            Err(_) => None,
        }
    } else {
        let rows = if query.len() == 0 {
            db.names
        } else {
            db.names.filter(bound_to(query))
        };
        match read_all(
            page(rows, page_limit(limit) as nat, page_offset(offset) as nat),
            served_registration(),
        ) {
            Ok(v) => Some(ResolvedView::List(mapped(v, public_record()))),
            Err(_) => None,
        }
    }
}

/// How far a position is from the head: `(synced_height, chain_tip_height,
/// synced, blocks_behind)`.
pub open spec fn progress(position: Option<u32>, tip: Option<u32>) -> (u64, u64, bool, u64) {
    match position {
        None => (0, 0, false, 0),
        Some(p) => match tip {
            None => (p as u64, 0, false, 0),
            Some(t) => (
                p as u64,
                t as u64,
                p >= t,
                if p >= t {
                    0
                } else {
                    (t - p) as u64
                },
            ),
        },
    }
}

pub fn sync_progress(position: Option<u32>, tip: Option<u32>) -> (r: (u64, u64, bool, u64))
    ensures
        r == progress(position, tip),
{
    match position {
        None => (0, 0, false, 0),
        Some(p) => match tip {
            None => (p as u64, 0, false, 0),
            Some(t) => {
                let synced = p >= t;
                let behind: u64 = if synced {
                    0
                } else {
                    (t - p) as u64
                };
                (p as u64, t as u64, synced, behind)
            },
        },
    }
}

/// The page of events that a filter gives.
pub open spec fn event_answer(
    db: DbView,
    name: Option<Seq<char>>,
    action: Option<Action>,
    since: Option<u32>,
    limit: u32,
    offset: u32,
) -> Option<(Seq<NameEventView>, u64)> {
    match read_all(event_page(db.events, name, action, since, limit, offset), served_event()) {
        Ok(v) => Some(
            (mapped(v, public_event()), db.events.filter(asked_for(name, action, since)).len() as u64),
        ),
        Err(_) => None,
    }
}

/// The API over a registry and the chain head, where it is known.
pub struct JsonRpcApi<'a> {
    pub db: &'a Db,
    pub tip: Option<u32>,
}

impl<'a> JsonRpcApi<'a> {
    pub fn new(db: &'a Db, tip: Option<u32>) -> (r: Self)
        ensures
            r.db == db,
            r.tip == tip,
    {
        JsonRpcApi { db, tip }
    }

    /// Resolve a name, perform a reverse lookup by address, or list names.
    pub fn resolve(&self, query: &str, limit: Option<u64>, offset: Option<u64>) -> (r: Result<
        Resolved,
        RpcError,
    >)
        ensures
            match resolution(self.db@, query@, limit, offset) {
                Some(v) => r matches Ok(a) && a@ == v,
                None => r matches Err(RpcError::Internal),
            },
    {
        let limit = clamp_limit(limit);
        let offset = clamp_offset(offset);
        let listed = if query.unicode_len() == 0 {
            self.db.list_registrations(limit, offset)
        } else {
            match self.db.resolve_by_name(query) {
                Ok(Some(reg)) => {
                    return Ok(Resolved::Record(to_name_record(&reg)));
                },
                Ok(None) => {},
                Err(_) => {
                    return Err(RpcError::Internal);
                },
            }
            self.db.registrations_by_ua(query, limit, offset)
        };
        match listed {
            Ok((regs, _)) => Ok(
                Resolved::List(render_all(regs.as_slice(), to_name_record, Ghost(public_record()))),
            ),
            Err(_) => Err(RpcError::Internal),
        }
    }

    /// Current sync status and basic resolver metadata.
    pub fn status(&self) -> (r: Result<Status, RpcError>)
        ensures
            match self.db@.account {
                None => r matches Err(RpcError::Internal),
                Some(a) => {
                    r matches Ok(s) && s.viewing_key@ == a.ufvk && s.registered
                        == self.db@.names.len() as u64 && progress(
                        reached(self.db@.account),
                        self.tip,
                    ) == (
                        s.synced_height,
                        s.chain_tip_height,
                        s.synced,
                        s.blocks_behind,
                    )
                },
            },
    {
        let height = match self.db.sync_height() {
            Ok(h) => h,
            Err(_) => {
                return Err(RpcError::Internal);
            },
        };
        let viewing_key = match self.db.registry_ufvk() {
            Ok(k) => k,
            Err(_) => {
                return Err(RpcError::Internal);
            },
        };
        let registered = match self.db.name_count() {
            Ok(n) => n,
            Err(_) => {
                return Err(RpcError::Internal);
            },
        };
        let (synced_height, chain_tip_height, synced, blocks_behind) = sync_progress(
            height,
            self.tip,
        );
        Ok(Status { synced_height, chain_tip_height, synced, blocks_behind, viewing_key, registered })
    }

    /// Paginated event history. An action that does not exist matches nothing:
    /// an empty page, with no limit and no offset.
    pub fn events(
        &self,
        name: Option<&str>,
        action: Option<&str>,
        since_height: Option<u64>,
        limit: Option<u64>,
        offset: Option<u64>,
    ) -> (r: Result<Paginated<NameEvent>, RpcError>)
        ensures
            ({
                let name = match name {
                    Some(n) => Some(n@),
                    None => None,
                };
                let verb = match action {
                    Some(a) => action_of(a@),
                    None => None,
                };
                if action is Some && verb is None {
                    r matches Ok(p) && p.items@.len() == 0 && p.total == 0 && p.limit == 0 && p.offset
                        == 0
                } else {
                    match event_answer(
                        self.db@,
                        name,
                        verb,
                        since_height_of(since_height),
                        page_limit(limit),
                        page_offset(offset),
                    ) {
                        Some((items, total)) => r matches Ok(p) && views(p.items@) == items && p.total
                            == total && p.limit == page_limit(limit) && p.offset == page_offset(offset),
                        None => r matches Err(RpcError::Internal),
                    }
                }
            }),
    {
        let verb: Option<Action> = match action {
            Some(a) => match Action::from_text(a) {
                Some(verb) => Some(verb),
                None => {
                    return Ok(Paginated { items: Vec::new(), total: 0, limit: 0, offset: 0 });
                },
            },
            None => None,
        };
        let limit = clamp_limit(limit);
        let offset = clamp_offset(offset);
        match self.db.events(name, verb, clamp_since(since_height), limit, offset) {
            Err(_) => Err(RpcError::Internal),
            Ok((events, total)) => Ok(
                Paginated {
                    items: render_all(events.as_slice(), to_name_event, Ghost(public_event())),
                    total,
                    limit: limit as u64,
                    offset: offset as u64,
                },
            ),
        }
    }
}

/// A synced resolver is no block behind; one that is behind is behind by
/// exactly the blocks between its position and the head.
pub proof fn law_progress_adds_up(position: Option<u32>, tip: Option<u32>)
    ensures
        ({
            let (height, head, synced, behind) = progress(position, tip);
            &&& synced ==> behind == 0 && height >= head
            &&& behind > 0 ==> !synced && height + behind == head
            &&& tip is None ==> !synced
            &&& position is None ==> !synced
        }),
{
}

} // verus!
