//! The scan: compact blocks, full transactions, and what is done with the notes.

use orchard::keys::{FullViewingKey, Scope, SpendingKey};
use orchard::note::{ExtractedNoteCommitment, RandomSeed, Rho};
use orchard::note_encryption::{IronwoodDomain, IronwoodNoteEncryption};
use orchard::value::{NoteValue, ValueCommitment};
use orchard::NoteVersion;
use zcash_keys::keys::UnifiedFullViewingKey;
use zcash_note_encryption::Domain;
use zcash_protocol::consensus::{BranchId, Network};
use zns_resolver::index::{Cursor, Recorded, SqliteIndex};
use zns_resolver::kernel::Note;
use zns_resolver::merkle::{merkle_fold, merkle_root, BlockContext};
use zns_resolver::net::Net;
use zns_resolver::observe::{
    apply_blocks, choose_key, distinct_txids, materialize_block, next_scan, orchard_fvk, orchard_ivk,
    parse_orchard, proof_heights, recover_notes, scan_name_notes, Backoff, Candidate,
    CompactAction, CompactBlock, CompactTx, FetchedTx, Scan, ScanEvent, ScanPhase, ScanStep,
};
use zns_resolver::{orchard as registry_orchard, sync, Action, ZERO_PREV_RCM};
use zns_verify::{note_commitment_cmx, zns_psi_rcm};

/// Encrypting with an outgoing key draws nothing; without one, any bytes do.
struct Zeros;

impl rand_core::TryRng for Zeros {
    type Error = std::convert::Infallible;

    fn try_next_u32(&mut self) -> Result<u32, Self::Error> {
        Ok(0)
    }

    fn try_next_u64(&mut self) -> Result<u64, Self::Error> {
        Ok(0)
    }

    fn try_fill_bytes(&mut self, dst: &mut [u8]) -> Result<(), Self::Error> {
        dst.fill(0);
        Ok(())
    }
}

const HEIGHT: u32 = 3_200_000;

const TXID: [u8; 32] = [0xAB; 32];

fn account() -> FullViewingKey {
    let sk = SpendingKey::from_bytes([1u8; 32]).into_option().expect("valid spending key");
    FullViewingKey::from(&sk)
}

fn ivk() -> [u8; 64] {
    account().to_ivk(Scope::External).to_bytes()
}

fn rho() -> Rho {
    Rho::from_bytes(&[0x33; 32]).into_option().expect("valid rho")
}

/// The zero-value note to the account's first address.
fn orchard_note() -> orchard::Note {
    let rseed = RandomSeed::from_bytes([0x11; 32], &rho()).into_option().expect("valid rseed");
    orchard::Note::from_parts(
        account().address_at(0u32, Scope::External),
        NoteValue::from_raw(0),
        rho(),
        rseed,
        NoteVersion::V3,
    )
    .into_option()
    .expect("valid note")
}

/// The same note as the library holds it.
fn plain_note() -> Note {
    Note {
        recipient: orchard_note().recipient().to_raw_address_bytes(),
        value: 0,
        rho: [0x33; 32],
    }
}

fn memo512(text: &str) -> [u8; 512] {
    let mut memo = [0u8; 512];
    memo[..text.len()].copy_from_slice(text.as_bytes());
    memo
}

/// The commitment that a claim of `name` for `ua` publishes.
fn claim_cmx(name: &str, ua: &str) -> [u8; 32] {
    let (psi, rcm) =
        zns_psi_rcm(b"claim", name.as_bytes(), ua.as_bytes(), b"none", &ZERO_PREV_RCM);
    let parts = plain_note().parts();
    let rho = zns_verify::Rho::from_bytes(&parts.rho).unwrap();
    note_commitment_cmx(parts.g_d, parts.pk_d, 0, rho, psi, rcm).unwrap().to_bytes()
}

/// An action's parts: its nullifier, commitment, ephemeral key and ciphertexts.
struct Published {
    cv_net: [u8; 32],
    rk: [u8; 32],
    cmx: [u8; 32],
    epk: [u8; 32],
    enc: Vec<u8>,
    out: Vec<u8>,
}

fn publish(cmx: [u8; 32], memo: [u8; 512], self_send: bool) -> Published {
    let fvk = account();
    let note = orchard_note();
    let ovk = if self_send { Some(fvk.to_ovk(Scope::External)) } else { None };
    let encryption = IronwoodNoteEncryption::new(ovk, note, memo);
    // Any valid points do: a transmission key and a spend key are both such.
    let pk_d: [u8; 32] = note.recipient().to_raw_address_bytes()[11..].try_into().unwrap();
    let ak: [u8; 32] = fvk.to_bytes()[..32].try_into().unwrap();
    let cv_net = ValueCommitment::from_bytes(&pk_d).into_option().expect("a point");
    let commitment =
        ExtractedNoteCommitment::from_bytes(&cmx).into_option().expect("a field element");
    let out = encryption.encrypt_outgoing_plaintext(&cv_net, &commitment, &mut Zeros);
    Published {
        cv_net: pk_d,
        rk: ak,
        cmx,
        epk: IronwoodDomain::epk_bytes(encryption.epk()).0,
        enc: encryption.encrypt_note_plaintext().0.to_vec(),
        out: out.to_vec(),
    }
}

/// A transaction with one such action, as it is serialized.
fn raw_tx(p: &Published) -> Vec<u8> {
    let mut raw = Vec::new();
    raw.extend_from_slice(&(6u32 | 1 << 31).to_le_bytes());
    raw.extend_from_slice(&0xD884_B698u32.to_le_bytes());
    raw.extend_from_slice(&u32::from(BranchId::Nu6_3).to_le_bytes());
    raw.extend_from_slice(&[0u8; 8]); // lock time, expiry height
    raw.extend_from_slice(&[0, 0]); // no transparent inputs or outputs
    raw.extend_from_slice(&[0, 0]); // no Sapling spends or outputs
    raw.push(0); // no Orchard actions
    raw.push(1);
    raw.extend_from_slice(&p.cv_net);
    raw.extend_from_slice(&[0x33; 32]); // the nullifier is the note's rho
    raw.extend_from_slice(&p.rk);
    raw.extend_from_slice(&p.cmx);
    raw.extend_from_slice(&p.epk);
    raw.extend_from_slice(&p.enc);
    raw.extend_from_slice(&p.out);
    raw.push(3); // spends and outputs enabled
    raw.extend_from_slice(&[0u8; 8]); // value balance
    raw.extend_from_slice(&[0u8; 32]); // anchor
    raw.extend_from_slice(&[0xfd, 0x80, 0x13]);
    raw.extend_from_slice(&[0u8; 4992]); // proof
    raw.extend_from_slice(&[0u8; 128]); // signatures
    raw
}

fn compact(p: &Published) -> CompactAction {
    CompactAction {
        nullifier: vec![0x33; 32],
        cmx: p.cmx.to_vec(),
        ephemeral_key: p.epk.to_vec(),
        ciphertext: p.enc[..52].to_vec(),
    }
}

/// An action that is well-formed and not to the account.
fn foreign() -> CompactAction {
    CompactAction {
        nullifier: vec![0x33; 32],
        cmx: vec![1; 32],
        ephemeral_key: vec![2; 32],
        ciphertext: vec![3; 52],
    }
}

fn block(p: &Published) -> CompactBlock {
    CompactBlock {
        height: u64::from(HEIGHT),
        hash: vec![9; 32],
        vtx: vec![
            CompactTx { txid: vec![1, 2], actions: vec![compact(p)] },
            CompactTx { txid: TXID.to_vec(), actions: vec![compact(p), foreign()] },
        ],
    }
}

fn fetched(p: &Published) -> FetchedTx {
    FetchedTx { txid: TXID, height: HEIGHT, data: raw_tx(p) }
}

fn hit() -> Candidate {
    Candidate { txid: TXID, action_index: 0 }
}

#[test]
fn a_scan_finds_the_actions_to_the_key() {
    let p = publish(claim_cmx("alice", "u1abc"), memo512("ZNS:claim:alice:u1abc"), true);
    // A malformed txid and a foreign action are passed over.
    let found = scan_name_notes(&[block(&p)], &ivk());
    assert_eq!(found.len(), 1);
    assert_eq!((found[0].txid, found[0].action_index), (TXID, 0));
    assert!(scan_name_notes(&[block(&p)], &[0u8; 64]).is_empty());

    let by_account = sync::observe::scan_account(&[block(&p)], &account().to_bytes());
    assert_eq!(by_account.len(), 1);
    assert_eq!(by_account[0].txid, TXID);
    assert!(sync::observe::scan_account(&[block(&p)], &[0xff; 96]).is_empty());
}

#[test]
fn malformed_actions_do_not_parse() {
    let mut action = foreign();
    assert!(parse_orchard(&action).is_some());
    action.ciphertext.push(0);
    assert!(parse_orchard(&action).is_none());
    let mut action = foreign();
    action.nullifier.pop();
    assert!(parse_orchard(&action).is_none());
    let mut action = foreign();
    action.cmx.clear();
    assert!(parse_orchard(&action).is_none());
    let mut action = foreign();
    action.ephemeral_key.push(0);
    assert!(parse_orchard(&action).is_none());
}

#[test]
fn a_note_is_recovered_from_its_transaction() {
    let cmx = claim_cmx("alice", "u1abc");
    let memo = memo512("ZNS:claim:alice:u1abc");
    let p = publish(cmx, memo, true);
    let notes = recover_notes(Net::Main, &ivk(), &[fetched(&p)], &[hit()]);
    assert_eq!(notes.len(), 1);
    assert_eq!(notes[0].note, plain_note());
    assert_eq!(notes[0].cmx, cmx);
    assert_eq!(notes[0].memo, memo.to_vec());
    assert_eq!((notes[0].txid, notes[0].height, notes[0].action_index), (TXID, HEIGHT, 0));
    assert_eq!(notes[0].tx_bytes, raw_tx(&p));

    // Not fetched, no such action, not a transaction, another key: no note.
    assert!(recover_notes(Net::Main, &ivk(), &[], &[hit()]).is_empty());
    let beyond = Candidate { txid: TXID, action_index: 1 };
    assert!(recover_notes(Net::Main, &ivk(), &[fetched(&p)], &[beyond]).is_empty());
    let garbage = FetchedTx { txid: TXID, height: HEIGHT, data: vec![1, 2, 3] };
    assert!(recover_notes(Net::Main, &ivk(), &[garbage], &[hit()]).is_empty());
    assert!(recover_notes(Net::Main, &[0u8; 64], &[fetched(&p)], &[hit()]).is_empty());
}

#[test]
fn only_self_sent_name_notes_are_observed() {
    let fvk = account().to_bytes();
    let cmx = claim_cmx("alice", "u1abc");
    let memo = memo512("ZNS:claim:alice:u1abc");

    let sent = publish(cmx, memo, true);
    let found = sync::observe::observe_batch(Net::Main, &fvk, &[fetched(&sent)], &[hit()]);
    assert_eq!(found.len(), 1);
    assert_eq!(found[0].parts, plain_note().parts());
    assert_eq!((found[0].cmx, found[0].height), (cmx, HEIGHT));
    assert_eq!(found[0].memo, memo.to_vec());
    let found = registry_orchard::observe_batch(Net::Main, &fvk, &[fetched(&sent)], &[hit()]);
    assert_eq!(found.len(), 1);
    assert_eq!(found[0].note, plain_note());

    // Received from someone else: a name note is ignored, another memo is not.
    let received = publish(cmx, memo, false);
    assert!(sync::observe::observe_batch(Net::Main, &fvk, &[fetched(&received)], &[hit()]).is_empty());
    assert!(
        registry_orchard::observe_batch(Net::Main, &fvk, &[fetched(&received)], &[hit()]).is_empty()
    );
    let plain = publish(cmx, memo512("hello"), false);
    assert_eq!(
        sync::observe::observe_batch(Net::Main, &fvk, &[fetched(&plain)], &[hit()]).len(),
        1
    );
    assert!(sync::observe::observe_batch(Net::Main, &[0xff; 96], &[fetched(&sent)], &[hit()]).is_empty());
}

#[test]
fn a_batch_of_blocks_is_applied_with_its_proof() {
    let p = publish(claim_cmx("alice", "u1abc"), memo512("ZNS:claim:alice:u1abc"), true);
    let mut idx = SqliteIndex::open_in_memory().unwrap();

    let (notes, recorded) =
        apply_blocks(&mut idx, Net::Main, &ivk(), &[block(&p)], &[fetched(&p)], &mut vec![]).unwrap();
    assert_eq!((notes.len(), recorded.len()), (1, 1));
    assert_eq!(idx.resolve_by_name("alice").unwrap().unwrap().ua, "u1abc");
    let at = idx.checkpoint().unwrap().unwrap();
    assert_eq!((at.height, at.hash), (HEIGHT, Some([9u8; 32])));

    let context = BlockContext { header: vec![4; 8], txids: vec![[1; 32], TXID, [2; 32]] };
    assert_eq!(proof_heights(&recorded), vec![HEIGHT]);
    materialize_block(&mut idx, &notes, &context, HEIGHT, &recorded).unwrap();
    let m = idx.proof_material(&TXID).unwrap().unwrap();
    assert_eq!((m.header, m.merkle_index, m.raw_tx), (vec![4; 8], 1, raw_tx(&p)));
    assert_eq!(merkle_fold(TXID, &m.merkle_branch, 1), merkle_root(&context.txids));

    let other = BlockContext { header: vec![], txids: vec![[1; 32]] };
    let missing = materialize_block(&mut idx, &notes, &other, HEIGHT, &recorded).unwrap_err();
    assert_eq!((missing.height, missing.txid), (HEIGHT, TXID));

    // An empty batch changes nothing.
    let (notes, recorded) = apply_blocks(&mut idx, Net::Main, &ivk(), &[], &[], &mut vec![]).unwrap();
    assert!(notes.is_empty() && recorded.is_empty());
    assert_eq!(idx.last_scanned_height().unwrap(), Some(HEIGHT));
}

#[test]
fn a_batch_with_a_forged_claim_records_nothing() {
    let p = publish(claim_cmx("alice", "u1abc"), memo512("ZNS:claim:alice:u1evil"), true);
    let mut idx = SqliteIndex::open_in_memory().unwrap();
    let (notes, recorded) =
        apply_blocks(&mut idx, Net::Main, &ivk(), &[block(&p)], &[fetched(&p)], &mut vec![]).unwrap();
    assert_eq!((notes.len(), recorded.len()), (1, 0));
    assert!(idx.resolve_by_name("alice").unwrap().is_none());
    assert!(idx.resolve_by_name("u1evil").unwrap().is_none());
}

const UFVK: &str = "uviewtest1m6ttk6khq8gy0s5v5e5c9snavnwzyv9hl9d5g7kc9lczlv36mjj4tpkmqqd5jep4cg0ea79ahqjpz3huv28kp2frtr3vc9wgerseynuntyu92ky6nwd746w8waz7jv34ax32h4uffcj7ky8qphxesmqqzvt7ykdle5lg2vv69we9nz2q89m8pudjzngxk82mh2s3p3uqedjucnca95tzdqqsg7pn5htvulp8hcyhqa8t4qhlxnpqw7elupkeyvzwky4lta26yy4tvgqz5pjx6ew9e3hm4wmu5t4jt7ku450atn83fezs6r5mc6jkxjc4xcptzss3c3e8ldrnj0uru9tnjteelxzzx7mzrwetu965t2z8luz24h9cj37g9q5nclyczp4gnx2g5z4twlkl9mtvdxwdwxza7chztzcgw6e4eye36auh6p5ltzclppxykhmalghf0fk8087jhknjyzxfzkukj4fmt3umm0k27mh44lfxmc8m0kvh";

#[test]
fn the_scan_key_comes_from_either_viewing_key() {
    let ufvk = UnifiedFullViewingKey::decode(&Network::TestNetwork, UFVK).expect("decodes");
    let expected = ufvk.orchard().expect("an Orchard key").to_ivk(Scope::External).to_bytes();
    let uivk = ufvk.to_unified_incoming_viewing_key().encode(&Network::TestNetwork).expect("encodes");
    assert_eq!(orchard_ivk(Net::Test, UFVK).ok(), Some(expected));
    assert_eq!(orchard_ivk(Net::Test, &uivk).ok(), Some(expected));
    let fvk = ufvk.orchard().expect("an Orchard key").to_bytes();
    assert_eq!(orchard_fvk(Net::Test, UFVK).ok(), Some(fvk));
    assert!(orchard_fvk(Net::Main, UFVK).is_err());
    // An incoming key holds no full one.
    assert!(orchard_fvk(Net::Test, &uivk).is_err());
    // Of another network, or no key at all.
    assert!(orchard_ivk(Net::Main, UFVK).is_err());
    assert!(orchard_ivk(Net::Test, "uview1").is_err());

    assert_eq!(choose_key(Some([1; 64]), Some([2; 64])).ok(), Some([1; 64]));
    assert_eq!(choose_key(None, Some([2; 64])).ok(), Some([2; 64]));
    assert!(choose_key(None, None).is_err());
}

#[test]
fn each_transaction_is_fetched_once() {
    let c = |txid: u8, action_index| Candidate { txid: [txid; 32], action_index };
    assert_eq!(
        distinct_txids(&[c(5, 0), c(1, 0), c(5, 1), c(1, 2)]),
        vec![[5; 32], [1; 32]]
    );
}

#[test]
fn heights_are_asked_for_once_in_order() {
    let r = |height| Recorded { txid: [0; 32], height };
    assert_eq!(proof_heights(&[r(30), r(10), r(30), r(20), r(10)]), vec![10, 20, 30]);
    assert!(proof_heights(&[]).is_empty());
}

#[test]
fn a_scan_starts_behind_the_checkpoint() {
    assert!(matches!(next_scan(None, 100, 99), ScanStep::Done));
    assert!(matches!(next_scan(None, 100, 100), ScanStep::Stream { start: 100, seam: None }));
    let at = Cursor { height: 100, hash: Some([4; 32]) };
    assert!(matches!(next_scan(Some(at), 1, 100), ScanStep::Done));
    match next_scan(Some(at), 1, 101) {
        ScanStep::Stream { start, seam } => assert_eq!((start, seam), (101, Some([4; 32]))),
        ScanStep::Done => panic!("there is a block to scan"),
    }
}

#[test]
fn reorgs_in_a_row_rewind_twice_as_far() {
    let mut backoff = Backoff::new();
    assert_eq!([backoff.reorg(100), backoff.reorg(100), backoff.reorg(100)], [99, 98, 96]);
    backoff.applied();
    assert_eq!(backoff.reorg(100), 99);
    assert_eq!(backoff.reorg(1), 0);
    for _ in 0..40 {
        backoff.reorg(100);
    }
    assert_eq!(backoff.rewind_by, u32::MAX);
}

#[test]
fn a_scan_runs_to_the_tip() {
    let mut scan = Scan::new(10, 20);
    scan.advance(ScanEvent::Checkpoint { last: None });
    assert!(matches!(scan.phase, ScanPhase::Opening { start: 10, seam: None }));
    scan.advance(ScanEvent::Opened);
    scan.advance(ScanEvent::Batch { empty: true });
    assert!(matches!(scan.phase, ScanPhase::Streaming));
    scan.advance(ScanEvent::Batch { empty: false });
    assert!(matches!(scan.phase, ScanPhase::Applying));
    scan.advance(ScanEvent::Applied);
    scan.advance(ScanEvent::Reorg { at: 15 });
    assert!(matches!(scan.phase, ScanPhase::Rewinding { to: 14 }));
    assert_eq!(scan.backoff.rewind_by, 2);
    scan.advance(ScanEvent::Rewound);
    scan.advance(ScanEvent::Checkpoint { last: Some(Cursor { height: 14, hash: None }) });
    assert!(matches!(scan.phase, ScanPhase::Opening { start: 15, seam: None }));
    scan.advance(ScanEvent::Opened);
    scan.advance(ScanEvent::Ended);
    assert!(matches!(scan.phase, ScanPhase::Finished));

    let mut scan = Scan::new(10, 20);
    scan.advance(ScanEvent::Failed);
    assert!(matches!(scan.phase, ScanPhase::Failed));
}

#[test]
fn a_batch_reports_the_forks_it_holds() {
    // The note verifies under the predecessor it discloses, which is not the
    // tip's.
    let disclosed = [5u8; 32];
    let (psi, rcm) = zns_psi_rcm(b"update", b"alice", b"u1b", b"none", &disclosed);
    let parts = plain_note().parts();
    let rho = zns_verify::Rho::from_bytes(&parts.rho).unwrap();
    let cmx = note_commitment_cmx(parts.g_d, parts.pk_d, 0, rho, psi, rcm).unwrap().to_bytes();
    let p = publish(cmx, memo512(&format!("ZNS:update:alice:u1b:{}", "05".repeat(32))), true);

    let mut idx = SqliteIndex::open_in_memory().unwrap();
    idx.record_action("alice", "u1a", &[8; 32], &[0; 32], &[0; 32], 100, Action::Claim, 0).unwrap();
    let mut forks = vec![];
    let (_, recorded) =
        apply_blocks(&mut idx, Net::Main, &ivk(), &[block(&p)], &[fetched(&p)], &mut forks).unwrap();
    assert!(recorded.is_empty());
    assert_eq!(forks.len(), 1);
    assert_eq!((forks[0].name.as_str(), forks[0].height), ("alice", HEIGHT));
    assert_eq!((forks[0].claimed, forks[0].expected), (disclosed, [8; 32]));
}

#[test]
fn a_claim_of_a_claimed_name_is_not_recorded_again() {
    let p = publish(claim_cmx("alice", "u1abc"), memo512("ZNS:claim:alice:u1abc"), true);
    let mut idx = SqliteIndex::open_in_memory().unwrap();
    for _ in 0..2 {
        apply_blocks(&mut idx, Net::Main, &ivk(), &[block(&p)], &[fetched(&p)], &mut vec![]).unwrap();
    }
    assert_eq!(idx.actions.len(), 1);
    assert_eq!(idx.lookup("alice").unwrap().unwrap().last_action, Action::Claim);
}
