//! End-to-end binding verification.
//!
//! The scan decrypts without the commitment check, so that name notes are
//! visible at all: verifying the binding is the sole gate that keeps a forged
//! claim out of the index. A genuine note verifies, and any tampered claim over
//! the same on-chain commitment is rejected.

use orchard::keys::{FullViewingKey, Scope, SpendingKey};
use zcash_protocol::consensus::Network;
use zns_resolver::callback::{parse_prev_rcm_from_memo, verify_zns_action, ZnsCallback};
use zns_resolver::index::{Cursor, NameNote, SqliteIndex};
use zns_resolver::kernel::{diversify_hash, open_binding, Note, NoteParts, Tip};
use zns_resolver::registry::lifecycle::{
    lifecycle_claim_from_memo, try_admit_name_note, warn_registry_fork,
};
use zns_resolver::sync::observe::DecryptedNote;
use zns_resolver::verify::{fork_evidence, verify_binding};
use zns_resolver::{Action, ZERO_PREV_RCM};
use zns_verify::{note_commitment_cmx, zns_psi_rcm, PrimeField, Rho};

/// A value-0 note to a deterministic recipient: the shape of a name note. Only
/// the recipient and `rho` feed the binding.
fn name_note() -> Note {
    let sk = SpendingKey::from_bytes([1u8; 32]).into_option().expect("valid spending key");
    let fvk = FullViewingKey::from(&sk);
    let recipient = fvk.address_at(0u32, Scope::External);
    Note { recipient: recipient.to_raw_address_bytes(), value: 0, rho: [1u8; 32] }
}

fn rcm_of(action: Action, name: &str, ua: &str, prev_rcm: &[u8; 32]) -> [u8; 32] {
    let (_, rcm) = zns_psi_rcm(
        action.as_str().as_bytes(),
        name.as_bytes(),
        ua.as_bytes(),
        b"none",
        prev_rcm,
    );
    rcm.to_repr()
}

/// The on-chain commitment a registry mint would publish for the transition
/// over this note.
fn genuine_cmx(note: &Note, action: Action, name: &str, ua: &str, prev_rcm: &[u8; 32]) -> [u8; 32] {
    let (psi, rcm) = zns_psi_rcm(
        action.as_str().as_bytes(),
        name.as_bytes(),
        ua.as_bytes(),
        b"none",
        prev_rcm,
    );
    let parts = note.parts();
    let rho = Rho::from_bytes(&note.rho).expect("rho is a canonical base");
    note_commitment_cmx(parts.g_d, parts.pk_d, note.value, rho, psi, rcm)
        .expect("commitment is not the identity")
        .to_bytes()
}

#[test]
fn genuine_name_note_verifies() {
    let note = name_note();
    let (action, name, ua, prev) = (Action::Claim, "alice", "u1xxx", ZERO_PREV_RCM);
    let cmx = genuine_cmx(&note, action, name, ua, &prev);

    // Verification re-derives the opening and recomputes the commitment from
    // the note's own parts; it must match and return the note's `rcm`.
    assert_eq!(
        verify_binding(&note, cmx, action, name, ua, &prev),
        Some(rcm_of(action, name, ua, &prev)),
    );
}

/// A claim and its update landing in the same scan batch must apply in chain
/// order: notes fold sequentially against each name's tip, so the update only
/// fits once the claim is recorded. Here the update's txid sorts before the
/// claim's.
#[test]
fn same_batch_claim_then_update_applies_in_chain_order() {
    let mut idx = SqliteIndex::open_in_memory().unwrap();
    let note = name_note();

    let claim_cmx = genuine_cmx(&note, Action::Claim, "alice", "u1old", &ZERO_PREV_RCM);
    let prev = rcm_of(Action::Claim, "alice", "u1old", &ZERO_PREV_RCM);
    let update_cmx = genuine_cmx(&note, Action::Update, "alice", "u1new", &prev);

    let memo = |s: &str| {
        let mut padded = s.as_bytes().to_vec();
        padded.resize(512, 0);
        padded
    };
    let batch = [
        NameNote {
            note,
            cmx: claim_cmx,
            memo: memo("ZNS:claim:alice:u1old"),
            txid: [0xFF; 32], // sorts after the update's txid
            height: 100,
            action_index: 0,
            tx_bytes: vec![],
        },
        NameNote {
            note,
            cmx: update_cmx,
            memo: memo("ZNS:update:alice:u1new"),
            txid: [0x01; 32],
            height: 105,
            action_index: 0,
            tx_bytes: vec![],
        },
    ];
    let recorded = idx.apply_notes(Cursor { height: 105, hash: None }, &batch).unwrap();
    assert_eq!(recorded.len(), 2);

    let reg = idx.resolve_by_name("alice").unwrap().expect("claim must be indexed");
    assert_eq!(reg.ua, "u1new", "same-batch UPDATE must apply on top of its CLAIM");
    assert_eq!(reg.last_action, Action::Update);

    // Rewinding below the batch gives back the empty index.
    idx.rewind(99).unwrap();
    assert_eq!(idx.name_count().unwrap(), 0);
    assert!(idx.actions.is_empty());
}

/// A name's rows chain: each `rcm` is derived from the one before it, and a new
/// claim starts from zero again.
#[test]
fn a_history_is_one_hash_chain() {
    let mut idx = SqliteIndex::open_in_memory().unwrap();
    let note = name_note();
    let mut prev = ZERO_PREV_RCM;
    let mut expected = vec![];
    for (i, (action, ua)) in [
        (Action::Claim, "u1a"),
        (Action::Update, "u1b"),
        (Action::Release, ""),
        (Action::Claim, "u1c"),
    ]
    .into_iter()
    .enumerate()
    {
        if action == Action::Claim {
            prev = ZERO_PREV_RCM;
        }
        let memo = match action {
            Action::Release => "ZNS:release:alice".to_string(),
            _ => format!("ZNS:{}:alice:{ua}", action.as_str()),
        };
        let height = 100 + i as u32;
        let minted = NameNote {
            note,
            cmx: genuine_cmx(&note, action, "alice", ua, &prev),
            memo: memo.into_bytes(),
            txid: [i as u8; 32],
            height,
            action_index: 0,
            tx_bytes: vec![],
        };
        // A note off another predecessor is not recorded.
        let forked = NameNote {
            cmx: genuine_cmx(&note, action, "alice", ua, &[0xEE; 32]),
            memo: minted.memo.clone(),
            tx_bytes: vec![],
            ..minted
        };
        let cursor = Cursor { height, hash: None };
        assert_eq!(idx.apply_notes(cursor, &[forked]).unwrap().len(), 0);
        assert_eq!(idx.apply_notes(cursor, &[minted]).unwrap().len(), 1);
        prev = rcm_of(action, "alice", ua, &prev);
        expected.push(prev.to_vec());
    }
    let rcms: Vec<_> = idx.actions.iter().map(|row| row.record.rcm.clone()).collect();
    assert_eq!(rcms, expected);
}

/// Fork evidence is judged against the tip that the earlier notes of the batch
/// left, comes with what the batch records, and is itself not recorded.
#[test]
fn forks_are_reported_against_the_batch_s_own_tip() {
    let mut idx = SqliteIndex::open_in_memory().unwrap();
    let note = name_note();
    let minted = |action: Action, ua: &str, prev: &[u8; 32], shown: &[u8; 32], txid: u8| NameNote {
        note,
        cmx: genuine_cmx(&note, action, "alice", ua, prev),
        memo: format!("ZNS:{}:alice:{ua}:{}", action.as_str(), hex::encode(shown)).into_bytes(),
        txid: [txid; 32],
        height: 100 + u32::from(txid),
        action_index: 0,
        tx_bytes: vec![],
    };
    let claim_rcm = rcm_of(Action::Claim, "alice", "u1a", &ZERO_PREV_RCM);
    let theirs = [5u8; 32];
    let batch = [
        minted(Action::Claim, "u1a", &ZERO_PREV_RCM, &ZERO_PREV_RCM, 1),
        // Off another predecessor, which it discloses.
        minted(Action::Update, "u1b", &theirs, &theirs, 2),
        // Verifies under neither predecessor: garbage.
        minted(Action::Update, "u1b", &theirs, &[6u8; 32], 3),
        // Does not fit at all.
        minted(Action::Claim, "u1b", &theirs, &theirs, 4),
        // Genuine, although its memo discloses another predecessor.
        minted(Action::Update, "u1c", &claim_rcm, &theirs, 5),
    ];
    let mut forks = vec![];
    let recorded = idx
        .apply_notes_reporting(Cursor { height: 105, hash: None }, &batch, &mut forks)
        .unwrap();
    assert_eq!(recorded.iter().map(|r| r.height).collect::<Vec<_>>(), [101, 105]);
    assert_eq!(forks.len(), 1);
    assert_eq!((forks[0].name.as_str(), forks[0].height), ("alice", 102));
    assert_eq!((forks[0].claimed, forks[0].expected), (theirs, claim_rcm));

    // A batch that fails reports what it met before, and records nothing.
    idx.actions[1].id = i64::MAX;
    let update_rcm = rcm_of(Action::Update, "alice", "u1c", &claim_rcm);
    let late = [
        minted(Action::Update, "u1d", &theirs, &theirs, 6),
        minted(Action::Update, "u1e", &update_rcm, &update_rcm, 7),
    ];
    assert!(idx
        .apply_notes_reporting(Cursor { height: 107, hash: None }, &late, &mut forks)
        .is_err());
    assert_eq!((forks.len(), forks[1].height, forks[1].expected), (2, 106, update_rcm));
    assert_eq!(idx.actions.len(), 2);
}

#[test]
fn tampered_claims_are_rejected() {
    let note = name_note();
    let (action, name, ua, prev) = (Action::Claim, "alice", "u1xxx", ZERO_PREV_RCM);
    // The genuine on-chain commitment, with another claim.
    let cmx = genuine_cmx(&note, action, name, ua, &prev);

    // Swapped address: the resolver can't be tricked into pointing "alice"
    // elsewhere.
    assert_eq!(verify_binding(&note, cmx, action, name, "u1evil", &prev), None);
    // Swapped name.
    assert_eq!(verify_binding(&note, cmx, action, "bob", ua, &prev), None);
    // Wrong action verb.
    assert_eq!(verify_binding(&note, cmx, Action::Update, name, ua, &prev), None);
    // Wrong predecessor: claiming to extend a different chain position.
    assert_eq!(verify_binding(&note, cmx, action, name, ua, &[9u8; 32]), None);
}

const GOLDEN_UA: &str = "u1897y9pzw3zk6n9twtzu2z5kpkzw3hms2c54fpyv8lnr79m73tazljkk3veaxrtwncp66lf45p3f274xy2amqckx0sraje4v835yw8q0q";

fn bytes32(text: &str) -> [u8; 32] {
    hex::decode(text).unwrap().try_into().unwrap()
}

/// The published vector of the commitment derivation.
#[test]
fn the_published_vector_opens() {
    let parts = NoteParts {
        g_d: bytes32("de4338f2ab9fd8300a3a1c20dd690ce27026c6001c295d7c641a067ce809b11e"),
        pk_d: bytes32("6df609f5710f3b5deecd4ee4b8f0173b44af6cf8918ac00269526031ba628996"),
        value: 0,
        rho: [0x33; 32],
    };
    let cmx = bytes32("cc320736a0c1df1e4ffcee2b64aa73a9e6d06bb218e155a6fef422e1ecb1f70c");
    let opening =
        open_binding(&parts, &cmx, Action::Claim, "alice", GOLDEN_UA, "none", &ZERO_PREV_RCM);
    assert_eq!(
        opening,
        Some((
            bytes32("9f8a61b860c737d4564f12c635d654b843bc7115d9dc6cf6f09e409c81b8d13e"),
            bytes32("daa928be21d0ec13b5dbb0244699dbfeba546c71591d24d7824db78e4670c504"),
        ))
    );
    assert_eq!(
        open_binding(&parts, &cmx, Action::Claim, "alice", GOLDEN_UA, "1735689600", &ZERO_PREV_RCM),
        None
    );
    // A commitment that is no field element is never matched.
    assert_eq!(
        open_binding(&parts, &[0xff; 32], Action::Claim, "alice", GOLDEN_UA, "none", &ZERO_PREV_RCM),
        None
    );
}

/// The parts of a note to the vector's address are the vector's.
#[test]
fn an_address_gives_its_commitment_keys() {
    let address = zcash_keys::address::Address::decode(&Network::MainNetwork, GOLDEN_UA);
    let ua = match address {
        Some(zcash_keys::address::Address::Unified(ua)) => ua,
        _ => panic!("a unified address"),
    };
    let raw = ua.orchard().expect("an Orchard receiver").to_raw_address_bytes();
    let parts = Note { recipient: raw, value: 0, rho: [0x33; 32] }.parts();
    assert_eq!(
        parts.pk_d,
        bytes32("6df609f5710f3b5deecd4ee4b8f0173b44af6cf8918ac00269526031ba628996")
    );
    assert_eq!(parts.g_d, bytes32("de4338f2ab9fd8300a3a1c20dd690ce27026c6001c295d7c641a067ce809b11e"));
    assert_ne!(parts.g_d, diversify_hash(&[]));
}

#[test]
fn fork_evidence_needs_another_predecessor_that_opens() {
    let note = name_note();
    let parts = note.parts();
    let theirs = [5u8; 32];
    let cmx = genuine_cmx(&note, Action::Update, "alice", "u1b", &theirs);
    let found = |disclosed, expected: &[u8; 32]| {
        fork_evidence(&parts, &cmx, Action::Update, "alice", "u1b", disclosed, expected)
    };
    assert_eq!(found(Some(theirs), &[6u8; 32]), Some(theirs));
    assert_eq!(found(Some(theirs), &theirs), None);
    assert_eq!(found(Some([7u8; 32]), &[6u8; 32]), None);
    assert_eq!(found(None, &[6u8; 32]), None);
}

fn memo512(text: &str) -> [u8; 512] {
    let mut memo = [0u8; 512];
    memo[..text.len()].copy_from_slice(text.as_bytes());
    memo
}

#[test]
fn a_hit_carries_the_memo_predecessor() {
    let note = name_note();
    let prev = [5u8; 32];
    let cmx = genuine_cmx(&note, Action::Update, "alice", "u1b", &prev);
    let memo = memo512(&format!("ZNS:update:alice:u1b:{}", "05".repeat(32)));

    let hit = ZnsCallback.on_decrypt(&note, cmx, &memo).expect("a hit");
    assert_eq!(hit.prev_rcm, prev);
    assert_eq!((hit.valid.name.as_str(), hit.valid.ua.as_str()), ("alice", "u1b"));
    assert_eq!(hit.valid.action, Action::Update);
    assert_eq!(hit.valid.rcm, rcm_of(Action::Update, "alice", "u1b", &prev));

    let other = memo512(&format!("ZNS:update:alice:u1b:{}", "06".repeat(32)));
    assert!(ZnsCallback.on_decrypt(&note, cmx, &other).is_none());
    let silent = memo512("ZNS:update:alice:u1b");
    assert!(verify_zns_action(&note, cmx, &silent).is_none());
    assert_eq!(parse_prev_rcm_from_memo(&memo), Some(prev));
    assert_eq!(parse_prev_rcm_from_memo(&silent), None);
}

#[test]
fn lifecycle_claims_are_admitted_against_the_tip() {
    let note = name_note();
    let tip = Tip { action: Action::Claim, rcm: [5u8; 32] };
    let memo = format!("ZNS:update:alice:u1b:{}", "05".repeat(32));
    let claim = lifecycle_claim_from_memo(memo.as_bytes()).expect("a claim");
    assert_eq!(claim.memo_prev_rcm, Some([5u8; 32]));

    let mut n = DecryptedNote {
        parts: note.parts(),
        cmx: genuine_cmx(&note, Action::Update, "alice", "u1b", &[5u8; 32]),
        memo: memo.clone().into_bytes(),
        txid: [1; 32],
        height: 10,
        action_index: 0,
        raw_tx: vec![],
    };
    let (prev, _, rcm) = try_admit_name_note(&claim, &n, Some(&tip)).expect("admitted");
    assert_eq!(prev, [5u8; 32]);
    assert_eq!(rcm, rcm_of(Action::Update, "alice", "u1b", &[5u8; 32]));
    assert_eq!(warn_registry_fork(&claim, &n, Some(&tip)), None);

    // The same note off another tip: not admitted, but evidence of a fork.
    let other = Tip { action: Action::Claim, rcm: [8u8; 32] };
    assert!(try_admit_name_note(&claim, &n, Some(&other)).is_none());
    assert_eq!(warn_registry_fork(&claim, &n, Some(&other)), Some(([5u8; 32], [8u8; 32])));
    // An illegal move is neither.
    assert!(try_admit_name_note(&claim, &n, None).is_none());
    assert_eq!(warn_registry_fork(&claim, &n, None), None);
    n.cmx = [0u8; 32];
    assert_eq!(warn_registry_fork(&claim, &n, Some(&other)), None);
}

#[test]
fn a_lifecycle_claim_discloses_a_predecessor_and_a_plain_name() {
    let zero = "00".repeat(32);
    assert!(lifecycle_claim_from_memo(b"ZNS:claim:alice:u1b").is_none());
    assert!(lifecycle_claim_from_memo(format!("ZNS:claim:u1alice:u1b:{zero}").as_bytes()).is_none());
    assert!(lifecycle_claim_from_memo(format!("ZNS:claim:alice:u1b:{zero}").as_bytes()).is_some());
    assert!(lifecycle_claim_from_memo(b"hello").is_none());
}
