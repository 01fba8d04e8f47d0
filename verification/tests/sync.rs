//! The sync loop's decisions and its status.

use zns_resolver::observe::CompactBlock;
use zns_resolver::registry::Checkpoint;
use zns_resolver::sync::batch::{Batcher, Step, CHUNK_OUTPUTS};
use zns_resolver::sync::engine::{
    batch_position, resume_from_checkpoint, Event, Phase, ResumeInfo, SyncLoop,
};
use zns_resolver::sync::observe::keeps;
use zns_resolver::sync::status::SyncStatus;

fn resume(start_height: u32) -> ResumeInfo {
    ResumeInfo { start_height, seam_hash: None }
}

/// A loop that takes its next batch from the stream.
fn streaming() -> SyncLoop {
    let mut sync = SyncLoop::new();
    sync.run_sync_loop(Event::Resumed { resume: resume(10) });
    sync.run_sync_loop(Event::Tip { tip: (20, None) });
    assert!(matches!(sync.phase, Phase::Opening { tip: 20, .. }));
    sync.run_sync_loop(Event::Opened);
    assert!(matches!(sync.phase, Phase::Streaming));
    sync
}

#[test]
fn a_scan_resumes_behind_the_checkpoint() {
    let fresh = resume_from_checkpoint(None, 77);
    assert_eq!((fresh.start_height, fresh.seam_hash), (77, None));
    let c = Checkpoint {
        scanned_height: 100,
        scanned_hash: Some([4; 32]),
        chain_tip_height: None,
        chain_tip_hash: None,
    };
    let r = resume_from_checkpoint(Some(c), 77);
    assert_eq!((r.start_height, r.seam_hash), (101, Some([4; 32])));
}

#[test]
fn the_loop_waits_for_a_tip_at_or_above_the_start() {
    let mut sync = SyncLoop::new();
    sync.run_sync_loop(Event::ResumeFailed);
    assert!(matches!(sync.phase, Phase::Resuming));
    sync.run_sync_loop(Event::Resumed { resume: resume(10) });
    for tip in [0, 9] {
        sync.run_sync_loop(Event::Tip { tip: (tip, None) });
        assert!(matches!(sync.phase, Phase::Sleeping { .. }));
        sync.run_sync_loop(Event::Slept);
        assert!(matches!(sync.phase, Phase::Waiting { .. }));
    }
    sync.run_sync_loop(Event::TipFailed);
    assert!(matches!(sync.phase, Phase::Reconnecting));
    sync.run_sync_loop(Event::Reconnected);
    assert!(matches!(sync.phase, Phase::Resuming));
    assert!(matches!(streaming().phase, Phase::Streaming));
}

#[test]
fn a_batch_is_polled_observed_and_applied() {
    let mut sync = streaming();
    sync.run_sync_loop(Event::Batch { scanned: None });
    assert!(matches!(sync.phase, Phase::Streaming));
    sync.run_sync_loop(Event::Batch { scanned: Some((15, None)) });
    assert!(matches!(sync.phase, Phase::Polling { scanned: (15, None) }));
    sync.run_sync_loop(Event::Tip { tip: (21, None) });
    sync.run_sync_loop(Event::Observed);
    assert!(matches!(
        sync.phase,
        Phase::Applying { scanned: (15, None), live: (21, None) }
    ));
    sync.run_sync_loop(Event::Applied);
    assert!(matches!(sync.phase, Phase::Streaming));
    sync.run_sync_loop(Event::StreamEnded);
    assert!(matches!(sync.phase, Phase::Resuming));
}

#[test]
fn only_the_registry_ends_the_loop() {
    for (steps, ends) in [
        (vec![Event::StreamFailed], false),
        (vec![Event::Batch { scanned: Some((15, None)) }, Event::TipFailed], false),
        (
            vec![
                Event::Batch { scanned: Some((15, None)) },
                Event::Tip { tip: (21, None) },
                Event::ObserveFailed,
            ],
            false,
        ),
        (
            vec![
                Event::Batch { scanned: Some((15, None)) },
                Event::Tip { tip: (21, None) },
                Event::Observed,
                Event::ApplyFailed,
            ],
            true,
        ),
    ] {
        let mut sync = streaming();
        for event in steps {
            sync.run_sync_loop(event);
        }
        assert_eq!(matches!(sync.phase, Phase::Stopped), ends);
        assert_eq!(matches!(sync.phase, Phase::Reconnecting), !ends);
        sync.run_sync_loop(Event::Reconnected);
        assert_eq!(matches!(sync.phase, Phase::Stopped), ends);
    }
}

#[test]
fn reorgs_rewind_further_until_a_batch_is_applied() {
    let mut sync = streaming();
    sync.run_sync_loop(Event::Reorg { at: 15 });
    assert!(matches!(sync.phase, Phase::Rewinding { to: 14 }));
    assert_eq!(sync.rewind_by, 2);
    sync.run_sync_loop(Event::Rewound);
    assert!(matches!(sync.phase, Phase::Resuming));

    sync.phase = Phase::Streaming;
    sync.run_sync_loop(Event::Reorg { at: 1 });
    assert!(matches!(sync.phase, Phase::Rewinding { to: 0 }));
    assert_eq!(sync.rewind_by, 4);

    sync.phase = Phase::Applying { scanned: (15, None), live: (15, None) };
    sync.run_sync_loop(Event::Applied);
    assert_eq!(sync.rewind_by, 1);
}

#[test]
fn a_batch_reaches_its_last_block() {
    let block = |height, hash: Vec<u8>| CompactBlock { height, hash, vtx: vec![] };
    assert_eq!(batch_position(&[]), None);
    assert_eq!(
        batch_position(&[block(1, vec![1; 32]), block(2, vec![2; 32])]),
        Some((2, Some([2; 32])))
    );
    // A malformed hash is no hash.
    assert_eq!(batch_position(&[block(2, vec![2; 31])]), Some((2, None)));
}

#[test]
fn name_notes_are_kept_only_when_sent() {
    assert!(keeps(b"ZNS:claim", true));
    assert!(!keeps(b"ZNS:claim", false));
    assert!(keeps(b"ZNS", false));
    assert!(keeps(b"zns:claim", false));
    assert!(keeps(b"", false));
}

#[test]
fn a_status_tells_what_the_loop_does() {
    let s = SyncStatus::default();
    assert_eq!((s.scanning, s.scanned_height, s.tip_height, s.last_error), (false, 0, 0, None));
    let s = SyncStatus::catching_up(5, 9);
    assert_eq!((s.scanning, s.scanned_height, s.tip_height, s.last_error), (true, 5, 9, None));
    let s = SyncStatus::caught_up(9);
    assert_eq!((s.scanning, s.scanned_height, s.tip_height, s.last_error), (false, 9, 9, None));
    let s = SyncStatus::error("no server");
    assert_eq!((s.scanning, s.scanned_height, s.tip_height), (false, 0, 0));
    assert_eq!(s.last_error.as_deref(), Some("no server"));
}

#[test]
fn a_stream_breaks_where_a_block_does_not_build_on_the_last() {
    // Met first: there is no batch, and the break is reported at once.
    let mut stream = Batcher::new(Some([1; 32]));
    assert_eq!(stream.begin(), None);
    assert_eq!(stream.take(10, &[2; 32], &[9; 32], 0), Step::Reorg { at: 10 });

    // Met with blocks in hand: the batch ends, and the break comes next.
    let mut stream = Batcher::new(Some([1; 32]));
    assert_eq!(stream.begin(), None);
    assert_eq!(stream.take(10, &[2; 32], &[1; 32], 5), Step::Keep);
    assert_eq!(stream.take(11, &[3; 32], &[1; 32], 5), Step::Hold);
    assert_eq!(stream.begin(), Some(11));
    assert_eq!(stream.begin(), None);

    // Without a seam the first block is taken as it is.
    let mut stream = Batcher::new(None);
    assert_eq!(stream.begin(), None);
    assert_eq!(stream.take(10, &[2; 32], &[9; 32], 0), Step::Keep);
}

#[test]
fn a_batch_ends_when_it_is_full_and_the_next_goes_on() {
    let mut stream = Batcher::new(None);
    stream.begin();
    assert_eq!(stream.take(1, &[1; 32], &[0; 32], CHUNK_OUTPUTS - 1), Step::Keep);
    assert_eq!(stream.take(2, &[2; 32], &[1; 32], 1), Step::Fill);
    assert_eq!(stream.begin(), None);
    assert_eq!(stream.take(3, &[3; 32], &[2; 32], 1), Step::Keep);
    assert_eq!(stream.take(4, &[4; 32], &[3; 32], usize::MAX), Step::Fill);
}
