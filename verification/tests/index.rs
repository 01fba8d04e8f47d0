//! The name index: the log, its view, proof material and rewinds.

use zns_resolver::index::{Cursor, SqliteIndex, SyncRow};
use zns_resolver::kernel::prev_rcm_for;
use zns_resolver::store::StoreError;
use zns_resolver::text::shadows_ua_namespace;
use zns_resolver::{Action, ZERO_PREV_RCM};

fn seed(idx: &mut SqliteIndex, name: &str, ua: &str, rcm: [u8; 32], height: u32, action: Action) {
    idx.record_action(name, ua, &rcm, &[0u8; 32], &[0u8; 32], height, action, 0)
        .unwrap();
}

#[test]
fn open_in_memory_starts_empty() {
    let idx = SqliteIndex::open_in_memory().unwrap();
    assert_eq!(idx.last_scanned_height().unwrap(), None);
    assert_eq!(idx.name_count().unwrap(), 0);
    assert!(idx.checkpoint().unwrap().is_none());
}

#[test]
fn rewind_restores_prior_action_below_the_fork() {
    let mut idx = SqliteIndex::open_in_memory().unwrap();
    seed(&mut idx, "alice", "u1a", [1u8; 32], 100, Action::Claim);
    seed(&mut idx, "alice", "u1b", [2u8; 32], 200, Action::Update);
    assert_eq!(idx.resolve_by_name("alice").unwrap().unwrap().ua, "u1b");

    // A reorg to 150 drops the update at 200; the claim at 100 below the fork
    // survives, so the name reverts to its prior state rather than vanishing.
    idx.rewind(150).unwrap();
    let reg = idx.resolve_by_name("alice").unwrap().expect("name must survive the reorg");
    assert_eq!(reg.ua, "u1a");
    assert_eq!(reg.last_action, Action::Claim);
}

#[test]
fn released_name_can_be_reclaimed() {
    let mut idx = SqliteIndex::open_in_memory().unwrap();
    seed(&mut idx, "alice", "u1a", [1u8; 32], 100, Action::Claim);
    seed(&mut idx, "alice", "", [2u8; 32], 200, Action::Release);

    // Released: not a current registration.
    assert!(idx.resolve_by_name("alice").unwrap().is_none());
    assert_eq!(idx.name_count().unwrap(), 0);
    // ...but the tip is still visible to the fold, which treats it as free.
    let tip = idx.lookup("alice").unwrap().map(|t| t.tip());
    assert_eq!(prev_rcm_for(tip.as_ref(), Action::Claim), Some(ZERO_PREV_RCM));

    seed(&mut idx, "alice", "u1c", [3u8; 32], 300, Action::Claim);
    let reg = idx.resolve_by_name("alice").unwrap().unwrap();
    assert_eq!(reg.ua, "u1c");
    assert_eq!(reg.last_action, Action::Claim);
}

#[test]
fn events_filters_and_paginates_newest_first() {
    let mut idx = SqliteIndex::open_in_memory().unwrap();
    seed(&mut idx, "alice", "u1a", [1u8; 32], 100, Action::Claim);
    seed(&mut idx, "bob", "u1b", [2u8; 32], 150, Action::Claim);
    seed(&mut idx, "alice", "u1c", [3u8; 32], 200, Action::Update);

    // Unfiltered: newest first, total = all rows.
    let (all, total) = idx.events(None, None, None, 50, 0).unwrap();
    assert_eq!(total, 3);
    assert_eq!(all.iter().map(|e| e.height).collect::<Vec<_>>(), vec![200, 150, 100]);

    // Name filter.
    let (alice, total) = idx.events(Some("alice"), None, None, 50, 0).unwrap();
    assert_eq!(total, 2);
    assert!(alice.iter().all(|e| e.name == "alice"));

    // Action filter.
    let (claims, total) = idx.events(None, Some(Action::Claim), None, 50, 0).unwrap();
    assert_eq!(total, 2);
    assert!(claims.iter().all(|e| e.action == Action::Claim));

    // `since_height` is strictly greater-than.
    let (since, _) = idx.events(None, None, Some(150), 50, 0).unwrap();
    assert_eq!(since.iter().map(|e| e.height).collect::<Vec<_>>(), vec![200]);

    // Pagination: `total` is pre-pagination, page picks the middle row.
    let (page, total) = idx.events(None, None, None, 1, 1).unwrap();
    assert_eq!(total, 3);
    assert_eq!(page.len(), 1);
    assert_eq!(page[0].height, 150);
}

#[test]
fn proof_material_round_trips_and_purges_on_rewind() {
    let mut idx = SqliteIndex::open_in_memory().unwrap();
    let txid = [0xABu8; 32];
    let branch = [[1u8; 32], [2u8; 32]];
    idx.insert_proof_material(&txid, 200, b"rawtx", b"header", &branch, 1).unwrap();
    // Idempotent.
    idx.insert_proof_material(&txid, 200, b"rawtx", b"header", &branch, 1).unwrap();

    let m = idx.proof_material(&txid).unwrap().expect("stored");
    assert_eq!(m.raw_tx, b"rawtx");
    assert_eq!(m.header, b"header");
    assert_eq!(m.merkle_branch, branch.to_vec());
    assert_eq!(m.merkle_index, 1);

    // A rewind below the material's height purges it (it proves an orphaned
    // block); material at or below the fork survives.
    idx.rewind(150).unwrap();
    assert!(idx.proof_material(&txid).unwrap().is_none());
}

#[test]
fn chain_rows_come_back_in_chain_order() {
    let mut idx = SqliteIndex::open_in_memory().unwrap();
    seed(&mut idx, "alice", "u1a", [1u8; 32], 100, Action::Claim);
    seed(&mut idx, "alice", "u1b", [2u8; 32], 200, Action::Update);
    seed(&mut idx, "bob", "u1x", [3u8; 32], 150, Action::Claim);

    let rows = idx.chain_rows("alice").unwrap();
    assert_eq!(rows.len(), 2);
    assert_eq!(rows[0].action, Action::Claim);
    assert_eq!(rows[1].action, Action::Update);
    assert_eq!(rows[1].ua, "u1b");
}

#[test]
fn ua_namespace_is_rejected_as_a_name() {
    assert!(shadows_ua_namespace("u1somethinglong"));
    assert!(shadows_ua_namespace("utest1somethinglong"));
    assert!(!shadows_ua_namespace("alice"));
    assert!(!shadows_ua_namespace("update")); // "u" alone is not the UA prefix
}

#[test]
fn material_at_the_fork_survives_and_is_not_overwritten() {
    let mut idx = SqliteIndex::open_in_memory().unwrap();
    let txid = [7u8; 32];
    idx.insert_proof_material(&txid, 150, b"first", b"h", &[], 0).unwrap();
    idx.insert_proof_material(&txid, 151, b"second", b"g", &[[9u8; 32]], 3).unwrap();
    idx.rewind(150).unwrap();
    let m = idx.proof_material(&txid).unwrap().unwrap();
    assert_eq!(m.raw_tx, b"first");
    assert!(m.merkle_branch.is_empty());
    assert_eq!(m.merkle_index, 0);
}

#[test]
fn registrations_come_in_name_order_and_pages_join() {
    let mut idx = SqliteIndex::open_in_memory().unwrap();
    for (i, name) in ["dave", "alice", "carol", "bob"].iter().enumerate() {
        seed(&mut idx, name, "u1same", [i as u8; 32], 100 + i as u32, Action::Claim);
    }
    seed(&mut idx, "carol", "u1other", [9u8; 32], 200, Action::Update);
    seed(&mut idx, "dave", "", [8u8; 32], 201, Action::Release);

    let names = |regs: Vec<zns_resolver::index::Registration>| {
        regs.into_iter().map(|r| r.name).collect::<Vec<_>>()
    };
    assert_eq!(names(idx.list_registrations(50, 0).unwrap()), ["alice", "bob", "carol"]);
    assert_eq!(names(idx.list_registrations(2, 0).unwrap()), ["alice", "bob"]);
    assert_eq!(names(idx.list_registrations(2, 2).unwrap()), ["carol"]);
    assert!(idx.list_registrations(2, 3).unwrap().is_empty());
    assert_eq!(names(idx.registrations_by_ua("u1same", 50, 0).unwrap()), ["alice", "bob"]);
    assert!(idx.registrations_by_ua("u1", 50, 0).unwrap().is_empty());
    assert_eq!(idx.name_count().unwrap(), 3);
}

#[test]
fn a_rewind_moves_the_position_to_the_fork() {
    let mut idx = SqliteIndex::open_in_memory().unwrap();
    idx.apply_notes(Cursor { height: 80, hash: Some([5u8; 32]) }, &[]).unwrap();
    let at = idx.checkpoint().unwrap().unwrap();
    assert_eq!((at.height, at.hash), (80, Some([5u8; 32])));
    assert_eq!(idx.last_scanned_height().unwrap(), Some(80));

    idx.rewind(70).unwrap();
    let at = idx.checkpoint().unwrap().unwrap();
    assert_eq!((at.height, at.hash), (70, None));
}

#[test]
fn height_zero_means_never_synced() {
    let mut idx = SqliteIndex::open_in_memory().unwrap();
    idx.sync_state = Some(SyncRow { height: 0, hash: None });
    assert!(idx.checkpoint().unwrap().is_none());
    // A hash of another length is no hash.
    idx.sync_state = Some(SyncRow { height: 5, hash: Some(vec![1, 2, 3]) });
    let at = idx.checkpoint().unwrap().unwrap();
    assert_eq!((at.height, at.hash), (5, None));
}

#[test]
fn an_unknown_stored_action_is_an_error() {
    let mut idx = SqliteIndex::open_in_memory().unwrap();
    seed(&mut idx, "alice", "u1a", [1u8; 32], 100, Action::Claim);
    idx.actions[0].record.action = "buy".to_string();
    assert!(idx.lookup("alice").is_err());
    assert!(idx.events(None, None, None, 50, 0).is_err());
}

#[test]
fn a_log_with_no_row_number_left_is_full() {
    let mut idx = SqliteIndex::open_in_memory().unwrap();
    seed(&mut idx, "alice", "u1a", [1u8; 32], 100, Action::Claim);
    idx.actions[0].id = i64::MAX;
    let refused =
        idx.record_action("bob", "u1b", &[2u8; 32], &[0u8; 32], &[0u8; 32], 101, Action::Claim, 0);
    assert!(matches!(refused, Err(StoreError::Full)));
    assert_eq!(idx.actions.len(), 1);
}

#[test]
fn a_stale_history_is_a_prefix_of_a_later_one() {
    let mut idx = SqliteIndex::open_in_memory().unwrap();
    seed(&mut idx, "alice", "u1a", [1u8; 32], 100, Action::Claim);
    seed(&mut idx, "bob", "u1x", [3u8; 32], 100, Action::Claim);
    let before: Vec<_> =
        idx.chain_rows("alice").unwrap().into_iter().map(|r| (r.action, r.ua)).collect();
    seed(&mut idx, "alice", "u1b", [2u8; 32], 100, Action::Update);
    seed(&mut idx, "alice", "", [4u8; 32], 101, Action::Release);
    let after: Vec<_> =
        idx.chain_rows("alice").unwrap().into_iter().map(|r| (r.action, r.ua)).collect();
    assert_eq!(after.len(), 3);
    assert_eq!(after[..before.len()], before[..]);
}

#[test]
fn untouched_names_survive_a_rewind() {
    let mut idx = SqliteIndex::open_in_memory().unwrap();
    seed(&mut idx, "alice", "u1a", [1u8; 32], 100, Action::Claim);
    seed(&mut idx, "bob", "u1b", [2u8; 32], 200, Action::Claim);
    idx.rewind(150).unwrap();
    assert_eq!(idx.lookup("alice").unwrap().unwrap().rcm, [1u8; 32]);
    assert!(idx.lookup("bob").unwrap().is_none());
}
