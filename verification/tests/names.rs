//! The index with a materialized tip per name.

use orchard::keys::{FullViewingKey, Scope, SpendingKey};
use zns_resolver::kernel::Note;
use zns_resolver::names::{name_tip, row_to_checkpoint, Db, ScanRow, REORG_SHALLOW_MAX};
use zns_resolver::orchard::{verify_binding, DecryptedNote};
use zns_resolver::store::StoreError;
use zns_resolver::{Action, ZERO_PREV_RCM};
use zns_verify::{note_commitment_cmx, zns_psi_rcm, PrimeField};

fn database() -> Db {
    Db { uivk: None, scan_state: None, name_events: vec![], names: vec![], proof_material: vec![] }
}

fn plain_note() -> Note {
    let sk = SpendingKey::from_bytes([1u8; 32]).into_option().expect("valid spending key");
    let address = FullViewingKey::from(&sk).address_at(0u32, Scope::External);
    Note { recipient: address.to_raw_address_bytes(), value: 0, rho: [1u8; 32] }
}

fn mint(action: Action, name: &str, ua: &str, prev: &[u8; 32]) -> ([u8; 32], [u8; 32], [u8; 32]) {
    let (psi, rcm) = zns_psi_rcm(
        action.as_str().as_bytes(),
        name.as_bytes(),
        ua.as_bytes(),
        b"none",
        prev,
    );
    let parts = plain_note().parts();
    let rho = zns_verify::Rho::from_bytes(&parts.rho).unwrap();
    let cmx = note_commitment_cmx(parts.g_d, parts.pk_d, 0, rho, psi, rcm).unwrap();
    (psi.to_repr(), rcm.to_repr(), cmx.to_bytes())
}

fn decrypted(action: Action, name: &str, ua: &str, prev: &[u8; 32], height: u32) -> DecryptedNote {
    let memo = match action {
        Action::Release => format!("ZNS:release:{name}"),
        _ => format!("ZNS:{}:{name}:{ua}", action.as_str()),
    };
    DecryptedNote {
        note: plain_note(),
        cmx: mint(action, name, ua, prev).2,
        memo: memo.into_bytes(),
        txid: [height as u8; 32],
        height,
        action_index: 0,
        raw_tx: vec![1, 2, 3],
    }
}

#[test]
fn a_binding_gives_its_opening() {
    let (psi, rcm, cmx) = mint(Action::Claim, "alice", "u1a", &ZERO_PREV_RCM);
    let verify = |ua: &str| {
        verify_binding(&plain_note(), cmx, Action::Claim, "alice", ua, &ZERO_PREV_RCM)
    };
    assert_eq!(verify("u1a"), Some((psi, rcm)));
    assert_eq!(verify("u1b"), None);
}

#[test]
fn a_batch_folds_into_the_tips() {
    let mut db = database();
    let claim_rcm = mint(Action::Claim, "alice", "u1a", &ZERO_PREV_RCM).1;
    let staged = db
        .apply_batch(
            (105, Some([7; 32])),
            (110, None),
            &[
                decrypted(Action::Claim, "alice", "u1a", &ZERO_PREV_RCM, 100),
                decrypted(Action::Claim, "bob", "u1b", &ZERO_PREV_RCM, 101),
                decrypted(Action::Update, "alice", "u1c", &claim_rcm, 105),
                // A claim of a held name does not fit.
                decrypted(Action::Claim, "bob", "u1d", &ZERO_PREV_RCM, 105),
            ],
        )
        .unwrap();
    assert_eq!(staged.len(), 3);
    assert_eq!(staged[2].prev_rcm, claim_rcm);

    let reg = db.resolve_by_name("alice").unwrap().unwrap();
    assert_eq!((reg.ua.as_str(), reg.height, reg.last_action), ("u1c", 105, Action::Update));
    assert_eq!(db.name_count().unwrap(), 2);
    let tip = name_tip(&db.names, "alice").unwrap().unwrap();
    assert_eq!(tip.rcm, mint(Action::Update, "alice", "u1c", &claim_rcm).1);
    let c = db.checkpoint().unwrap().unwrap();
    assert_eq!((c.scanned_height, c.scanned_hash), (105, Some([7; 32])));
    assert_eq!((c.chain_tip_height, c.chain_tip_hash), (Some(110), None));
    assert_eq!(db.chain_rows("alice").unwrap().len(), 2);
    assert_eq!(db.events(Some("alice"), None, None, 50, 0).unwrap().1, 2);
    assert_eq!(db.list_registrations(50, 0).unwrap()[1].name, "bob");
    assert_eq!(db.registrations_by_ua("u1b", 50, 0).unwrap().len(), 1);
}

#[test]
fn forks_are_reported_and_not_indexed() {
    let mut db = database();
    let claim_rcm = mint(Action::Claim, "alice", "u1a", &ZERO_PREV_RCM).1;
    let theirs = [5u8; 32];
    let mut forked = decrypted(Action::Update, "alice", "u1b", &theirs, 101);
    forked.memo = format!("ZNS:update:alice:u1b:{}", "05".repeat(32)).into_bytes();
    let garbage = decrypted(Action::Update, "alice", "u1b", &theirs, 102);
    let mut forks = vec![];
    let staged = db
        .apply_batch_reporting(
            (102, None),
            (102, None),
            &[decrypted(Action::Claim, "alice", "u1a", &ZERO_PREV_RCM, 100), forked, garbage],
            &mut forks,
        )
        .unwrap();
    assert_eq!((staged.len(), db.name_events.len()), (1, 1));
    assert_eq!(forks.len(), 1);
    assert_eq!((forks[0].name.as_str(), forks[0].height), ("alice", 101));
    assert_eq!((forks[0].claimed, forks[0].expected), (theirs, claim_rcm));
}

#[test]
fn listings_of_the_name_database_are_in_name_order() {
    let mut db = database();
    let claims: Vec<_> = ["carol", "alice", "bob"]
        .iter()
        .enumerate()
        .map(|(i, name)| decrypted(Action::Claim, name, "u1same", &ZERO_PREV_RCM, 100 + i as u32))
        .collect();
    db.apply_batch((102, None), (102, None), &claims).unwrap();
    let names = |regs: Vec<zns_resolver::index::Registration>| {
        regs.into_iter().map(|r| r.name).collect::<Vec<_>>()
    };
    assert_eq!(names(db.list_registrations(50, 0).unwrap()), ["alice", "bob", "carol"]);
    assert_eq!(names(db.list_registrations(1, 1).unwrap()), ["bob"]);
    assert_eq!(names(db.registrations_by_ua("u1same", 2, 1).unwrap()), ["bob", "carol"]);
}

#[test]
fn a_name_in_the_address_namespace_is_not_admitted() {
    let mut db = database();
    let staged = db
        .apply_batch(
            (100, None),
            (105, None),
            &[
                decrypted(Action::Claim, "u1evil", "u1a", &ZERO_PREV_RCM, 100),
                decrypted(Action::Claim, "utest1evil", "u1a", &ZERO_PREV_RCM, 100),
            ],
        )
        .unwrap();
    assert!(staged.is_empty());
    assert_eq!((db.names.len(), db.name_events.len()), (0, 0));
}

#[test]
fn a_shallow_rewind_restores_the_tips_below_the_fork() {
    let mut db = database();
    let claim_rcm = mint(Action::Claim, "alice", "u1a", &ZERO_PREV_RCM).1;
    db.apply_batch(
        (100, None),
        (105, None),
        &[decrypted(Action::Claim, "alice", "u1a", &ZERO_PREV_RCM, 100)],
    )
    .unwrap();
    db.apply_batch(
        (105, None),
        (105, None),
        &[
            decrypted(Action::Release, "alice", "", &claim_rcm, 104),
            decrypted(Action::Claim, "bob", "u1b", &ZERO_PREV_RCM, 105),
        ],
    )
    .unwrap();
    assert!(db.resolve_by_name("alice").unwrap().is_none());
    db.insert_proof_material(&[5; 32], 105, b"tx", b"h", &[[1; 32]], 1).unwrap();
    assert_eq!(db.proof_material(&[5; 32]).unwrap().unwrap().merkle_index, 1);

    db.rewind(103, 105).unwrap();
    assert_eq!(db.resolve_by_name("alice").unwrap().unwrap().ua, "u1a");
    assert!(db.resolve_by_name("bob").unwrap().is_none());
    assert!(db.proof_material(&[5; 32]).unwrap().is_none());
    let c = db.checkpoint().unwrap().unwrap();
    assert_eq!((c.scanned_height, c.scanned_hash, c.chain_tip_height), (103, None, None));
}

#[test]
fn a_deep_rewind_starts_over_and_keeps_the_identity() {
    let mut db = database();
    db.install_registry_uivk("uivk1x").unwrap();
    db.install_registry_uivk("uivk1y").unwrap();
    db.apply_batch(
        (100, None),
        (105, None),
        &[decrypted(Action::Claim, "alice", "u1a", &ZERO_PREV_RCM, 100)],
    )
    .unwrap();
    // At the bound it is still shallow.
    db.rewind(100, 100 + REORG_SHALLOW_MAX).unwrap();
    assert_eq!(db.name_count().unwrap(), 1);
    db.rewind(100, 101 + REORG_SHALLOW_MAX).unwrap();
    assert_eq!(db.name_count().unwrap(), 0);
    assert!(db.checkpoint().unwrap().is_none());
    assert_eq!(db.registry_uivk().unwrap().as_deref(), Some("uivk1x"));
}

#[test]
fn a_name_has_one_event_per_height() {
    let mut db = database();
    let claim_rcm = mint(Action::Claim, "alice", "u1a", &ZERO_PREV_RCM).1;
    let refused = db.apply_batch(
        (100, None),
        (100, None),
        &[
            decrypted(Action::Claim, "alice", "u1a", &ZERO_PREV_RCM, 100),
            decrypted(Action::Update, "alice", "u1b", &claim_rcm, 100),
        ],
    );
    assert!(matches!(refused, Err(StoreError::KeyTaken)));
    assert_eq!((db.name_events.len(), db.name_count().unwrap()), (0, 0));
}

#[test]
fn stored_rows_are_checked_as_they_are_read() {
    let row = |height| ScanRow { height, hash: None, chain_tip_height: Some(-1), chain_tip_hash: None };
    assert!(matches!(row_to_checkpoint(&row(-1)), Err(StoreError::ColumnOutOfRange(0))));
    assert!(matches!(row_to_checkpoint(&row(1 << 32)), Err(StoreError::ColumnOutOfRange(0))));
    let c = row_to_checkpoint(&row(7)).unwrap();
    assert_eq!((c.scanned_height, c.chain_tip_height), (7, None));

    let mut db = database();
    db.apply_batch(
        (100, None),
        (105, None),
        &[decrypted(Action::Claim, "alice", "u1a", &ZERO_PREV_RCM, 100)],
    )
    .unwrap();
    db.names[0].rcm.pop();
    assert!(name_tip(&db.names, "alice").is_err());
    assert!(name_tip(&db.names, "bob").unwrap().is_none());
}
