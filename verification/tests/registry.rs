//! The registry: admission, the name table, the watch set and rewinds.

use orchard::keys::{FullViewingKey, Scope, SpendingKey};
use zns_resolver::kernel::{Note, Tip};
use zns_resolver::registry::admission::{
    accept, read_tip, Binding, IronwoodOutput, WalletTx,
};
use zns_resolver::registry::handle::{cursor_from_checkpoint, resume};
use zns_resolver::registry::notes::{
    check_chain_rule, opening_of, verify_commitment, ParsedNote, RelaxedIronwoodOutput,
};
use zns_resolver::registry::state::{parse_stored_record, AccountRow, Cursor, Db, WatchedRow};
use zns_resolver::registry::Checkpoint;
use zns_resolver::store::StoreError;
use zns_resolver::{Action, ZERO_PREV_RCM};
use zns_verify::{note_commitment_cmx, zns_psi_rcm, PrimeField};

fn database() -> Db {
    Db::open(None, vec![], vec![], vec![], "ufvk", false, 1)
}

fn insert_checkpoint(db: &mut Db, height: u32, hash_byte: u8) {
    let account = db.account.as_mut().unwrap();
    account.sync_height = Some(i64::from(height));
    account.sync_hash = Some(vec![hash_byte; 32]);
}

#[test]
fn checkpoint_persists_the_sync_position() {
    let mut db = database();
    insert_checkpoint(&mut db, 42, 7);

    let scanned = db.checkpoint().unwrap().unwrap();
    assert_eq!(scanned.height, 42);
    assert_eq!(scanned.hash, [7; 32]);
}

#[test]
fn rewind_resets_the_sync_position_to_the_fork_height() {
    let mut db = database();
    insert_checkpoint(&mut db, 42, 7);
    db.watched.push(WatchedRow {
        nullifier: vec![1u8; 32],
        txid: vec![2u8; 32],
        height: 42,
        spent_height: None,
    });

    db.rewind(41).unwrap();

    let position = db.checkpoint().unwrap();
    assert!(position.is_none()); // No hash: the next apply fixes it; a restart
                                 // meanwhile rescans from the birthday.
    assert_eq!(db.watched.len(), 0);
    assert_eq!(db.account.as_ref().unwrap().sync_height, Some(41));
}

#[test]
fn hashless_checkpoint_is_not_resumable() {
    let checkpoint = Checkpoint {
        scanned_height: 42,
        scanned_hash: None,
        chain_tip_height: None,
        chain_tip_hash: None,
    };

    assert!(cursor_from_checkpoint(Some(checkpoint)).is_none());
}

#[test]
fn a_resume_leaves_out_what_is_no_nullifier() {
    let checkpoint = Checkpoint {
        scanned_height: 42,
        scanned_hash: Some([3; 32]),
        chain_tip_height: Some(50),
        chain_tip_hash: None,
    };
    // The field's size itself is the first value that does not decode.
    let mut size = [0u8; 32];
    size[..16].copy_from_slice(&0x224698fc094cf91b992d30ed00000001u128.to_le_bytes());
    size[31] = 0x40;
    let mut below = size;
    below[0] = 0;
    let r = resume(5, Some(checkpoint), &[[1; 32], size, [0xff; 32], below]);
    assert_eq!(r.birthday, 5);
    assert_eq!(r.ironwood, vec![[1; 32], below]);
    let at = r.checkpoint.unwrap();
    assert_eq!((at.height, at.hash), (42, [3; 32]));
}

// ── notes ───────────────────────────────────────────────────────────────────

fn plain_note() -> Note {
    let sk = SpendingKey::from_bytes([1u8; 32]).into_option().expect("valid spending key");
    let address = FullViewingKey::from(&sk).address_at(0u32, Scope::External);
    Note { recipient: address.to_raw_address_bytes(), value: 0, rho: [1u8; 32] }
}

fn opening(note: &ParsedNote) -> ([u8; 32], [u8; 32], [u8; 32]) {
    let (psi, rcm) = zns_psi_rcm(
        note.action.as_str().as_bytes(),
        note.name.as_bytes(),
        note.ua.as_bytes(),
        note.expires_at.as_deref().unwrap_or("none").as_bytes(),
        &note.prev_rcm.unwrap_or([0; 32]),
    );
    let parts = plain_note().parts();
    let rho = zns_verify::Rho::from_bytes(&parts.rho).unwrap();
    let cmx = note_commitment_cmx(parts.g_d, parts.pk_d, 0, rho, psi, rcm).unwrap();
    (psi.to_repr(), rcm.to_repr(), cmx.to_bytes())
}

fn note(action: Action, ua: &str, prev_rcm: Option<[u8; 32]>) -> ParsedNote {
    ParsedNote {
        action,
        name: "alice".to_string(),
        ua: ua.to_string(),
        expires_at: if action == Action::Release { None } else { Some("none".to_string()) },
        prev_rcm,
    }
}

fn rcm_of(note: &ParsedNote) -> [u8; 32] {
    opening(note).1
}

fn memo_of(note: &ParsedNote) -> [u8; 512] {
    let prev: String =
        note.prev_rcm.unwrap_or([0; 32]).iter().map(|b| format!("{b:02x}")).collect();
    let text = format!(
        "ZNS:{}:{}:{}:{}:{}",
        note.action.as_str(),
        note.name,
        note.ua,
        note.expires_at.as_deref().unwrap_or("none"),
        prev
    );
    let mut memo = [0u8; 512];
    memo[..text.len()].copy_from_slice(text.as_bytes());
    memo
}

/// The output that mints `note`: it consumes `consumed` and is itself consumed
/// under `nullifier`.
fn output(note: &ParsedNote, consumed: u8, nullifier: u8) -> RelaxedIronwoodOutput {
    RelaxedIronwoodOutput {
        index: 0,
        note: plain_note(),
        cmx: opening(note).2,
        consumed: [consumed; 32],
        memo: Some(memo_of(note)),
        is_sent: true,
        nullifier: Some([nullifier; 32]),
    }
}

fn tx(txid: u8, height: u32, outputs: Vec<RelaxedIronwoodOutput>) -> WalletTx {
    WalletTx {
        txid: [txid; 32],
        height,
        ironwood_outputs: vec![],
        ironwood_spends: vec![],
        relaxed_ironwood_outputs: outputs,
    }
}

fn at(height: u32) -> Cursor {
    Cursor { height, hash: [9; 32] }
}

#[test]
fn the_chain_rule_wants_the_tip_s_predecessor() {
    let tip = Tip { action: Action::Claim, rcm: [4; 32] };
    assert_eq!(
        check_chain_rule(Some(&tip), &note(Action::Update, "u1a", Some([4; 32]))),
        Some([4; 32])
    );
    assert_eq!(check_chain_rule(Some(&tip), &note(Action::Update, "u1a", Some([5; 32]))), None);
    assert_eq!(check_chain_rule(Some(&tip), &note(Action::Claim, "u1a", None)), None);
    assert_eq!(check_chain_rule(None, &note(Action::Claim, "u1a", None)), Some(ZERO_PREV_RCM));
}

#[test]
fn a_commitment_opens_to_its_own_note_only() {
    let n = note(Action::Claim, "u1a", None);
    let (psi, rcm, _) = opening(&n);
    assert_eq!(verify_commitment(&n, &output(&n, 0, 1)), Some((psi, rcm)));
    assert_eq!(opening_of(&output(&n, 0, 1)), Some((psi, rcm)));
    let mut silent = output(&n, 0, 1);
    silent.memo = None;
    assert_eq!(opening_of(&silent), None);
    let mut later = note(Action::Claim, "u1a", None);
    later.expires_at = Some("1735689600".to_string());
    assert_eq!(verify_commitment(&later, &output(&n, 0, 1)), None);
}

#[test]
fn an_update_must_consume_the_note_that_holds_the_name() {
    let binding = Binding { tip: Tip { action: Action::Claim, rcm: [4; 32] }, nullifier: [6; 32] };
    let update = note(Action::Update, "u1b", Some([4; 32]));
    let open = Some(([1; 32], [2; 32]));
    let granted = accept(Some(binding), &update, &output(&update, 6, 7), open, false).unwrap();
    assert_eq!((granted.prev_rcm, granted.rcm, granted.nullifier), ([4; 32], [2; 32], [7; 32]));
    assert!(accept(Some(binding), &update, &output(&update, 5, 7), open, true).is_none());
    assert!(accept(Some(binding), &update, &output(&update, 6, 7), None, false).is_none());
    let mut unheld = output(&update, 6, 7);
    unheld.nullifier = None;
    assert!(accept(Some(binding), &update, &unheld, open, false).is_none());
    // A release may also spend an update of its own block.
    let release = note(Action::Release, "u1b", Some([4; 32]));
    assert!(accept(Some(binding), &release, &output(&release, 5, 7), open, true).is_some());
    assert!(accept(Some(binding), &release, &output(&release, 5, 7), open, false).is_none());
}

#[test]
fn a_name_lives_from_its_claim_to_its_release() {
    let mut db = database();
    let claim = note(Action::Claim, "u1a", None);
    let update = note(Action::Update, "u1b", Some(rcm_of(&claim)));
    let release = note(Action::Release, "u1b", Some(rcm_of(&update)));

    db.apply_batch(at(100), &[tx(1, 100, vec![output(&claim, 0, 10)])]).unwrap();
    let reg = db.resolve_by_name("alice").unwrap().unwrap();
    assert_eq!((reg.ua.as_str(), reg.height, reg.txid), ("u1a", 100, [1; 32]));
    assert_eq!((reg.last_action, reg.expires_at.as_str()), (Action::Claim, "none"));
    let held = read_tip(&db.names, "alice").unwrap().unwrap();
    assert_eq!((held.tip.rcm, held.nullifier), (rcm_of(&claim), [10; 32]));
    assert_eq!(db.ironwood_nullifiers().unwrap(), vec![[10; 32]]);

    // An update that does not consume the claim's note is ignored.
    db.apply_batch(at(101), &[tx(2, 101, vec![output(&update, 99, 11)])]).unwrap();
    assert_eq!(db.resolve_by_name("alice").unwrap().unwrap().ua, "u1a");
    db.apply_batch(at(102), &[tx(3, 102, vec![output(&update, 10, 11)])]).unwrap();
    assert_eq!(db.resolve_by_name("alice").unwrap().unwrap().ua, "u1b");
    assert_eq!(db.registrations_by_ua("u1b", 50, 0).unwrap().1, 1);
    assert_eq!(db.registrations_by_ua("u1a", 50, 0).unwrap().1, 0);

    db.apply_batch(at(103), &[tx(4, 103, vec![output(&release, 11, 12)])]).unwrap();
    assert!(db.resolve_by_name("alice").unwrap().is_none());
    assert_eq!(db.name_count().unwrap(), 0);
    let (events, total) = db.events(None, None, None, 50, 0).unwrap();
    assert_eq!(total, 3);
    assert_eq!(
        events.iter().map(|e| e.action).collect::<Vec<_>>(),
        [Action::Release, Action::Update, Action::Claim]
    );

    // A rewind brings back the state below the fork.
    db.rewind(102).unwrap();
    assert_eq!(db.resolve_by_name("alice").unwrap().unwrap().ua, "u1b");
    db.rewind(101).unwrap();
    assert_eq!(db.resolve_by_name("alice").unwrap().unwrap().ua, "u1a");
    db.rewind(99).unwrap();
    assert!(db.resolve_by_name("alice").unwrap().is_none());
    assert_eq!(db.events(None, None, None, 50, 0).unwrap().1, 0);
}

#[test]
fn a_release_is_considered_before_a_competing_update() {
    let mut db = database();
    let claim = note(Action::Claim, "u1a", None);
    let update = note(Action::Update, "u1b", Some(rcm_of(&claim)));
    let release = note(Action::Release, "u1a", Some(rcm_of(&claim)));
    db.apply_batch(at(100), &[tx(1, 100, vec![output(&claim, 0, 10)])]).unwrap();

    // In one block the update comes first and the release spends it: the name
    // is released all the same.
    db.apply_batch(
        at(101),
        &[
            tx(2, 101, vec![output(&update, 10, 11)]),
            tx(3, 101, vec![output(&release, 11, 12)]),
        ],
    )
    .unwrap();
    assert!(db.resolve_by_name("alice").unwrap().is_none());
    assert_eq!(db.events(None, Some(Action::Update), None, 50, 0).unwrap().1, 0);
    assert_eq!(db.events(None, Some(Action::Release), None, 50, 0).unwrap().1, 1);
}

#[test]
fn stale_and_foreign_outputs_change_nothing() {
    let mut db = database();
    let claim = note(Action::Claim, "u1a", None);
    db.apply_batch(at(100), &[tx(1, 100, vec![output(&claim, 0, 10)])]).unwrap();

    let mut unsent = output(&claim, 0, 11);
    unsent.is_sent = false;
    let mut silent = output(&claim, 0, 11);
    silent.memo = None;
    let mut forged = output(&claim, 0, 11);
    forged.cmx = [0; 32];
    let spending = WalletTx {
        txid: [5; 32],
        height: 101,
        ironwood_outputs: vec![],
        ironwood_spends: vec![[10; 32]],
        relaxed_ironwood_outputs: vec![output(&claim, 0, 11), unsent, silent, forged],
    };
    db.apply_batch(at(101), &[spending]).unwrap();
    // A second claim does not fit, and the bare spend of the note ends nothing.
    let reg = db.resolve_by_name("alice").unwrap().unwrap();
    assert_eq!((reg.height, db.events.len()), (100, 1));
}

#[test]
fn received_notes_are_watched_until_spent() {
    let mut db = database();
    let receive = WalletTx {
        txid: [1; 32],
        height: 100,
        ironwood_outputs: vec![
            IronwoodOutput { is_sent: false, nf: Some([3; 32]) },
            IronwoodOutput { is_sent: true, nf: Some([4; 32]) },
            IronwoodOutput { is_sent: false, nf: None },
            IronwoodOutput { is_sent: false, nf: Some([3; 32]) },
        ],
        ironwood_spends: vec![],
        relaxed_ironwood_outputs: vec![],
    };
    let spend = WalletTx {
        txid: [2; 32],
        height: 101,
        ironwood_outputs: vec![],
        ironwood_spends: vec![[3; 32], [8; 32]],
        relaxed_ironwood_outputs: vec![],
    };
    db.apply_batch(at(100), &[receive]).unwrap();
    assert_eq!(db.watched.len(), 1);
    assert_eq!(db.ironwood_nullifiers().unwrap(), vec![[3; 32]]);
    db.apply_batch(at(101), &[spend]).unwrap();
    assert_eq!(db.watched[0].spent_height, Some(101));
    let r = db.resume().unwrap();
    assert_eq!((r.birthday, r.checkpoint.unwrap().height), (1, 101));

    // A rewind makes the note unspent again.
    db.rewind(100).unwrap();
    assert_eq!(db.watched[0].spent_height, None);
    assert!(db.resume().unwrap().checkpoint.is_none());
}

#[test]
fn the_registry_s_identity_is_fixed_once() {
    let mut db = database();
    assert_eq!(db.account.as_ref().unwrap().network, "test");
    db.install_registry_config("other", "main", 9);
    assert_eq!(db.registry_ufvk().unwrap(), "ufvk");
    assert_eq!(db.birthday().unwrap(), 1);
    let kept = Db::open(db.account.take(), vec![], vec![], vec![], "other", true, 9);
    assert_eq!(kept.registry_ufvk().unwrap(), "ufvk");
    let fresh = Db::open(None, vec![], vec![], vec![], "other", true, 9);
    assert_eq!(fresh.account.as_ref().unwrap().network, "main");
}

#[test]
fn each_store_error_has_an_input() {
    let mut db = database();
    db.account = None;
    assert!(matches!(db.registry_ufvk(), Err(StoreError::MissingRow)));
    assert!(matches!(db.birthday(), Err(StoreError::MissingRow)));

    let claim = note(Action::Claim, "u1a", None);
    let release = note(Action::Release, "u1a", Some(rcm_of(&claim)));
    let mut db = database();
    let batch = [tx(1, 100, vec![output(&claim, 0, 10)])];
    db.apply_batch(at(100), &batch).unwrap();
    db.apply_batch(at(101), &[tx(2, 101, vec![output(&release, 10, 11)])]).unwrap();
    db.events[1].id = i64::MAX;
    let fresh = [tx(3, 103, vec![output(&claim, 0, 12)])];
    assert!(matches!(db.apply_batch(at(103), &fresh), Err(StoreError::Full)));

    // A stored record that disagrees with its memo is corrupt.
    let mut db = database();
    db.apply_batch(at(100), &batch).unwrap();
    let update = note(Action::Update, "u1b", Some(rcm_of(&claim)));
    db.apply_batch(at(101), &[tx(2, 101, vec![output(&update, 10, 11)])]).unwrap();
    db.events[0].record.ua = "u1evil".to_string();
    assert!(matches!(db.rewind(100), Err(StoreError::CorruptRecord)));
    assert_eq!(db.events.len(), 2);
}

/// A rescan from the birthday passes over what is recorded, whether its name is
/// live or released by now.
#[test]
fn the_registry_replays_idempotently() {
    let mut db = database();
    let claim = note(Action::Claim, "u1a", None);
    let update = note(Action::Update, "u1b", Some(rcm_of(&claim)));
    let release = note(Action::Release, "u1b", Some(rcm_of(&update)));
    let mut other = note(Action::Claim, "u1x", None);
    other.name = "bob".to_string();
    let mut second = output(&other, 0, 20);
    second.index = 1;
    let history = [
        tx(1, 100, vec![output(&claim, 0, 10), second]),
        tx(2, 101, vec![output(&update, 10, 11)]),
        tx(3, 102, vec![output(&release, 11, 12)]),
    ];
    db.apply_batch(at(102), &history).unwrap();
    let rows = |db: &Db| {
        db.events.iter().map(|e| (e.id, e.record.action.clone(), e.record.rcm.clone())).collect::<Vec<_>>()
    };
    let before = rows(&db);
    assert_eq!((before.len(), db.name_count().unwrap()), (4, 1));

    // The position is lost, and the scan starts over: block by block, and whole.
    db.account.as_mut().unwrap().sync_hash = None;
    for block in &history {
        db.apply_batch(at(block.height), std::slice::from_ref(block)).unwrap();
    }
    db.apply_batch(at(102), &history).unwrap();
    assert_eq!(rows(&db), before);
    assert!(db.resolve_by_name("alice").unwrap().is_none());
    assert_eq!(db.resolve_by_name("bob").unwrap().unwrap().ua, "u1x");
    assert_eq!(db.checkpoint().unwrap().unwrap().height, 102);

    // A new claim of the released name is recorded as ever.
    db.apply_batch(at(103), &[tx(4, 103, vec![output(&claim, 0, 13)])]).unwrap();
    assert_eq!((db.events.len(), db.name_count().unwrap()), (5, 2));
}

#[test]
fn a_note_that_comes_twice_in_a_batch_is_recorded_once() {
    let mut db = database();
    let claim = note(Action::Claim, "u1a", None);
    let release = note(Action::Release, "u1a", Some(rcm_of(&claim)));
    let once = tx(1, 100, vec![output(&claim, 0, 10)]);
    let twice = tx(1, 100, vec![output(&claim, 0, 10)]);
    db.apply_batch(at(101), &[once, tx(2, 100, vec![output(&release, 10, 11)]), twice]).unwrap();
    assert_eq!(db.events.len(), 2);
    assert!(db.resolve_by_name("alice").unwrap().is_none());
}

#[test]
fn a_rewind_to_a_known_block_leaves_it_as_the_position() {
    let mut db = database();
    let claim = note(Action::Claim, "u1a", None);
    db.apply_batch(at(100), &[tx(1, 100, vec![output(&claim, 0, 10)])]).unwrap();
    db.rewind_to(Cursor { height: 99, hash: [4; 32] }).unwrap();
    assert_eq!(db.name_count().unwrap(), 0);
    let position = db.checkpoint().unwrap().unwrap();
    assert_eq!((position.height, position.hash), (99, [4; 32]));
    assert_eq!(db.sync_height().unwrap(), Some(99));
    db.rewind(98).unwrap();
    assert!(db.checkpoint().unwrap().is_none());
    assert_eq!(db.sync_height().unwrap(), Some(98));
}

#[test]
fn a_stored_memo_must_agree_with_its_record() {
    let claim = note(Action::Claim, "u1a", None);
    let memo = memo_of(&claim);
    let parsed = parse_stored_record(&memo, "alice", "u1a").unwrap();
    assert_eq!((parsed.action, parsed.name.as_str()), (Action::Claim, "alice"));
    assert_eq!(parsed.expiry(), "none");
    assert_eq!(parsed.disclosed_prev(), ZERO_PREV_RCM);
    assert!(parse_stored_record(&memo, "bob", "u1a").is_none());
    assert!(parse_stored_record(&memo, "alice", "u1b").is_none());
    assert!(parse_stored_record(b"hello", "alice", "u1a").is_none());
}

#[test]
fn listings_are_in_name_order() {
    let mut db = database();
    let outputs: Vec<_> = ["carol", "alice", "bob"]
        .iter()
        .enumerate()
        .map(|(i, name)| {
            let mut claim = note(Action::Claim, "u1same", None);
            claim.name = name.to_string();
            let mut out = output(&claim, 0, 20 + i as u8);
            out.index = i;
            out
        })
        .collect();
    db.apply_batch(at(100), &[tx(1, 100, outputs)]).unwrap();
    let names = |(regs, _): (Vec<zns_resolver::registry::Registration>, u64)| {
        regs.into_iter().map(|r| r.name).collect::<Vec<_>>()
    };
    assert_eq!(names(db.list_registrations(50, 0).unwrap()), ["alice", "bob", "carol"]);
    assert_eq!(names(db.list_registrations(1, 1).unwrap()), ["bob"]);
    assert_eq!(names(db.registrations_by_ua("u1same", 2, 1).unwrap()), ["bob", "carol"]);
    assert_eq!(db.list_registrations(1, 1).unwrap().1, 3);
}

#[test]
fn a_malformed_account_row_has_no_position() {
    let mut db = database();
    db.account = Some(AccountRow {
        ufvk: "ufvk".to_string(),
        network: "test".to_string(),
        birthday: 1,
        sync_height: Some(42),
        sync_hash: None,
    });
    assert!(db.checkpoint().unwrap().is_none());
}
