//! The registry's JSON-RPC methods.

use zns_resolver::jsonrpc::handlers::{self, sync_progress, Resolved};
use zns_resolver::jsonrpc::service::{clamp_pagination, JsonRpcApi, RpcError};
use zns_resolver::log::{LogRow, Record};
use zns_resolver::registry::admission::NoteColumns;
use zns_resolver::registry::state::Db;

fn record(name: &str, action: &str, ua: &str, height: i64) -> Record<NoteColumns> {
    let expires = "none";
    let prev = if action == "claim" { "00".repeat(32) } else { "01".repeat(32) };
    Record {
        name: name.to_string(),
        height,
        action: action.to_string(),
        ua: ua.to_string(),
        rcm: vec![1; 32],
        cmx: vec![2; 32],
        txid: vec![3; 32],
        action_index: 4,
        extra: NoteColumns {
            expires_at: expires.to_string(),
            prev_rcm: vec![0; 32],
            psi: vec![5; 32],
            nullifier: vec![6; 32],
            memo: format!("ZNS:{action}:{name}:{ua}:{expires}:{prev}").into_bytes(),
        },
    }
}

fn database() -> Db {
    let mut db = Db::open(None, vec![], vec![], vec![], "uview1key", true, 1);
    db.names = vec![
        record("alice", "update", "u1a", 105),
        record("bob", "claim", "u1b", 101),
        record("carol", "claim", "u1a", 102),
    ];
    db.events = vec![
        LogRow { id: 1, record: record("alice", "claim", "u1z", 100) },
        LogRow { id: 2, record: record("bob", "claim", "u1b", 101) },
        LogRow { id: 3, record: record("carol", "claim", "u1a", 102) },
        LogRow { id: 4, record: record("alice", "update", "u1a", 105) },
    ];
    let account = db.account.as_mut().unwrap();
    account.sync_height = Some(105);
    account.sync_hash = Some(vec![9; 32]);
    db
}

#[test]
fn pages_are_clamped_between_one_and_five_hundred() {
    assert_eq!(clamp_pagination(None, None), (50, 0));
    assert_eq!(clamp_pagination(Some(0), Some(7)), (1, 7));
    assert_eq!(clamp_pagination(Some(501), Some(1 << 32)), (500, u32::MAX));
    assert_eq!(clamp_pagination(None, Some(4_294_967_296)), (50, u32::MAX));
    assert_eq!(clamp_pagination(None, Some(4_294_967_295)), (50, u32::MAX));
}

#[test]
fn a_name_resolves_to_its_record() {
    let db = database();
    let api = JsonRpcApi::new(&db, Some(105));
    let r = api.resolve("alice").ok().unwrap().unwrap();
    assert_eq!((r.address.as_str(), r.height, r.last_action.as_str()), ("u1a", 105, "update"));
    assert_eq!(r.txid, "03".repeat(32));
    assert!(api.resolve("dave").ok().unwrap().is_none());
}

#[test]
fn listings_count_before_paging() {
    let db = database();
    let api = JsonRpcApi::new(&db, None);
    let p = api.list_names(Some(2), Some(1)).ok().unwrap();
    assert_eq!((p.total, p.limit, p.offset), (3, 2, 1));
    assert_eq!(p.items.iter().map(|r| r.name.as_str()).collect::<Vec<_>>(), ["bob", "carol"]);
    // A start beyond the listing is beyond it, however large.
    let p = api.list_names(None, Some(1 << 32)).ok().unwrap();
    assert_eq!((p.items.len(), p.total, p.offset), (0, 3, u64::from(u32::MAX)));
    let p = api.reverse_lookup("u1a", None, None).ok().unwrap();
    assert_eq!((p.total, p.items.len(), p.limit), (2, 2, 50));
    assert_eq!(api.reverse_lookup("u1", None, None).ok().unwrap().total, 0);
}

#[test]
fn status_compares_the_position_to_the_head() {
    let db = database();
    let s = JsonRpcApi::new(&db, Some(105)).status().ok().unwrap();
    assert_eq!((s.synced_height, s.synced, s.registered), (105, true, 3));
    assert_eq!(s.viewing_key, "uview1key");
    assert!(!JsonRpcApi::new(&db, Some(106)).status().ok().unwrap().synced);
    assert!(!JsonRpcApi::new(&db, None).status().ok().unwrap().synced);
}

#[test]
fn events_refuse_an_unknown_action() {
    let db = database();
    let api = JsonRpcApi::new(&db, None);
    let p = api.events(Some("alice"), None, None, None, None).ok().unwrap();
    assert_eq!(p.items.iter().map(|e| e.height).collect::<Vec<_>>(), [105, 100]);
    assert_eq!(p.items[0].action_index, 4);
    let p = api.events(None, Some("claim"), Some(100), None, None).ok().unwrap();
    assert_eq!((p.total, p.items[0].name.as_str()), (2, "carol"));

    let refused = api.events(None, Some("buy"), None, None, None).err().unwrap();
    assert_eq!((refused.code(), refused.message()), (-32602, "Invalid params"));
    assert_eq!(
        refused.data().as_deref(),
        Some("invalid action 'buy': expected claim, update, or release")
    );
}

#[test]
fn store_failures_are_internal_errors() {
    let mut db = database();
    db.names[0].txid.pop();
    db.events[0].record.action = "buy".to_string();
    let api = JsonRpcApi::new(&db, None);
    assert!(matches!(api.resolve("alice"), Err(RpcError::Internal)));
    assert!(matches!(api.list_names(None, None), Err(RpcError::Internal)));
    assert!(matches!(api.events(None, None, None, None, None), Err(RpcError::Internal)));
    assert_eq!(RpcError::Internal.code(), -32603);
    assert_eq!(RpcError::Internal.message(), "Internal error");
    assert_eq!(RpcError::Internal.data(), None);
}

#[test]
fn one_query_resolves_names_addresses_and_listings() {
    let db = database();
    let api = handlers::JsonRpcApi::new(&db, None);
    match api.resolve("alice", None, None) {
        Ok(Resolved::Record(r)) => assert_eq!(r.address, "u1a"),
        _ => panic!("expected a record"),
    }
    for (query, limit, offset, names) in [
        ("", None, None, vec!["alice", "bob", "carol"]),
        ("", Some(1), Some(1), vec!["bob"]),
        ("", Some(0), None, vec![]),
        // A start beyond the listing is beyond it, however large.
        ("", Some(1), Some((1 << 32) + 2), vec![]),
        ("u1a", None, None, vec!["alice", "carol"]),
        ("dave", None, None, vec![]),
    ] {
        match api.resolve(query, limit, offset) {
            Ok(Resolved::List(l)) => {
                assert_eq!(l.iter().map(|r| r.name.as_str()).collect::<Vec<_>>(), names)
            }
            _ => panic!("expected a list"),
        }
    }
}

#[test]
fn progress_adds_up() {
    assert_eq!(sync_progress(None, Some(9)), (0, 0, false, 0));
    assert_eq!(sync_progress(Some(5), None), (5, 0, false, 0));
    assert_eq!(sync_progress(Some(5), Some(9)), (5, 9, false, 4));
    assert_eq!(sync_progress(Some(9), Some(9)), (9, 9, true, 0));
    assert_eq!(sync_progress(Some(10), Some(9)), (10, 9, true, 0));
    let db = database();
    let s = handlers::JsonRpcApi::new(&db, Some(110)).status().ok().unwrap();
    assert_eq!((s.synced_height, s.chain_tip_height, s.blocks_behind), (105, 110, 5));
    assert_eq!((s.registered, s.viewing_key.as_str()), (3, "uview1key"));

    // After a rewind the height stands without a hash, and is told all the same.
    let mut db = database();
    db.rewind(102).unwrap();
    let s = handlers::JsonRpcApi::new(&db, Some(110)).status().ok().unwrap();
    assert_eq!((s.synced_height, s.chain_tip_height, s.synced), (102, 110, false));
    assert_eq!(s.blocks_behind, 8);
    assert_eq!(JsonRpcApi::new(&db, Some(110)).status().ok().unwrap().synced_height, 0);
    db.account = None;
    assert!(handlers::JsonRpcApi::new(&db, None).status().is_err());
}

#[test]
fn an_unknown_action_matches_no_event() {
    let db = database();
    let api = handlers::JsonRpcApi::new(&db, None);
    let p = api.events(None, Some("buy"), None, Some(5), Some(1)).ok().unwrap();
    assert_eq!((p.items.len(), p.total, p.limit, p.offset), (0, 0, 0, 0));
    let p = api.events(None, Some("update"), None, Some(5), None).ok().unwrap();
    assert_eq!((p.items.len(), p.total, p.limit), (1, 1, 5));
    assert_eq!(p.items[0].address, "u1a");
}
