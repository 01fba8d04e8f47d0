//! The sync loop's decisions.
//!
//! Waiting, streaming, polling and storing are the caller's: it does what the
//! loop's phase asks for and reports what happened; the loop says what is next.

use vstd::prelude::*;

use crate::log::views;
use crate::names::{
    after_batch, after_rewind, read_checkpoint, Cursor, DbView, REORG_SHALLOW_MAX,
};
use crate::observe::{batch_cursor, batch_end, doubled, less, CompactBlock};
use crate::orchard::DecryptedView;
use crate::registry::Checkpoint;
use crate::text::lemma_as_array32;

verus! {

/// Where a scan resumes.
#[derive(Clone, Copy, Debug)]
pub struct ResumeInfo {
    pub start_height: u32,
    pub seam_hash: Option<[u8; 32]>,
}

/// Behind the checkpoint, with its hash as the seam, or at the birthday if
/// there is no checkpoint.
pub open spec fn resume_info(checkpoint: Option<Checkpoint>, birthday: u32) -> ResumeInfo {
    match checkpoint {
        Some(c) => ResumeInfo {
            start_height: (c.scanned_height + 1) as u32,
            seam_hash: c.scanned_hash,
        },
        None => ResumeInfo { start_height: birthday, seam_hash: None },
    }
}

pub fn resume_from_checkpoint(checkpoint: Option<Checkpoint>, birthday: u32) -> (r: ResumeInfo)
    requires
        checkpoint matches Some(c) ==> c.scanned_height < u32::MAX,
    ensures
        r == resume_info(checkpoint, birthday),
{
    match checkpoint {
        Some(c) => ResumeInfo { start_height: c.scanned_height + 1, seam_hash: c.scanned_hash },
        None => ResumeInfo { start_height: birthday, seam_hash: None },
    }
}

/// Whether there is anything to scan: the tip is known and not below the
/// start.
pub open spec fn tip_ready(tip: u32, start: u32) -> bool {
    tip != 0 && start <= tip
}

/// The first rewind of a row of reorgs.
pub const REORG_REWIND_INITIAL: u32 = 1;

/// What the loop is doing. Each phase asks its caller for one thing, and goes on
/// with the event that reports the outcome.
#[derive(Clone, Copy, Debug)]
pub enum Phase {
    /// Read the checkpoint and resume from it.
    Resuming,
    /// Poll the tip.
    Waiting { resume: ResumeInfo },
    /// Sleep until the next poll.
    Sleeping { resume: ResumeInfo },
    /// Open the stream of blocks from the start to the tip.
    Opening { resume: ResumeInfo, tip: u32 },
    /// Take the next batch from the stream.
    Streaming,
    /// Poll the live tip for a batch.
    Polling { scanned: Cursor },
    /// Observe a batch's notes.
    Observing { scanned: Cursor, live: Cursor },
    /// Apply a batch's notes to the registry.
    Applying { scanned: Cursor, live: Cursor },
    /// Rewind the registry.
    Rewinding { to: u32 },
    /// Reconnect to the server.
    Reconnecting,
    /// The registry failed, and the loop is over.
    Stopped,
}

/// What happened.
#[derive(Clone, Copy, Debug)]
pub enum Event {
    Resumed { resume: ResumeInfo },
    ResumeFailed,
    Tip { tip: Cursor },
    TipFailed,
    Slept,
    Opened,
    StreamEnded,
    /// A batch came; an empty one reaches no position.
    Batch { scanned: Option<Cursor> },
    Reorg { at: u32 },
    StreamFailed,
    Observed,
    ObserveFailed,
    Applied,
    ApplyFailed,
    /// The rewind is over. One that failed is tried again, further back, when
    /// the stream reports the reorg again.
    Rewound,
    Reconnected,
}

/// The loop's state: what it is doing, and how far the next reorg rewinds.
#[derive(Clone, Copy, Debug)]
pub struct SyncLoop {
    pub phase: Phase,
    pub rewind_by: u32,
}

/// What the stream's next item leads to.
pub open spec fn range_phase(event: Event, rewind_by: u32) -> Phase {
    match event {
        Event::StreamEnded => Phase::Resuming,
        Event::Batch { scanned: Some(scanned) } => Phase::Polling { scanned },
        Event::Reorg { at } => Phase::Rewinding { to: less(at, rewind_by) },
        Event::StreamFailed => Phase::Reconnecting,
        _ => Phase::Streaming,
    }
}

/// What a batch's next step leads to. The tip is polled before the batch is
/// observed, and both before it is applied.
pub open spec fn batch_phase(phase: Phase, event: Event) -> Phase {
    match (phase, event) {
        (Phase::Polling { scanned }, Event::Tip { tip }) => Phase::Observing { scanned, live: tip },
        (Phase::Polling { .. }, Event::TipFailed) => Phase::Reconnecting,
        (Phase::Observing { scanned, live }, Event::Observed) => Phase::Applying { scanned, live },
        (Phase::Observing { .. }, Event::ObserveFailed) => Phase::Reconnecting,
        (Phase::Applying { .. }, Event::Applied) => Phase::Streaming,
        (Phase::Applying { .. }, Event::ApplyFailed) => Phase::Stopped,
        _ => phase,
    }
}

/// What the loop does next. An event that the phase did not ask for changes
/// nothing.
pub open spec fn next_phase(phase: Phase, event: Event, rewind_by: u32) -> Phase {
    match (phase, event) {
        (Phase::Resuming, Event::Resumed { resume }) => Phase::Waiting { resume },
        (Phase::Waiting { resume }, Event::Tip { tip }) => if tip_ready(tip.0, resume.start_height) {
            Phase::Opening { resume, tip: tip.0 }
        } else {
            Phase::Sleeping { resume }
        },
        (Phase::Waiting { .. }, Event::TipFailed) => Phase::Reconnecting,
        (Phase::Sleeping { resume }, Event::Slept) => Phase::Waiting { resume },
        (Phase::Opening { .. }, Event::Opened) => Phase::Streaming,
        (Phase::Opening { .. }, Event::StreamFailed) => Phase::Reconnecting,
        (Phase::Streaming, _) => range_phase(event, rewind_by),
        (Phase::Rewinding { .. }, Event::Rewound) => Phase::Resuming,
        (Phase::Reconnecting, Event::Reconnected) => Phase::Resuming,
        _ => batch_phase(phase, event),
    }
}

/// How far the reorg after this event rewinds: twice as far after a reorg, one
/// block after an applied batch.
pub open spec fn next_rewind(phase: Phase, event: Event, rewind_by: u32) -> u32 {
    match (phase, event) {
        (Phase::Streaming, Event::Reorg { .. }) => doubled(rewind_by),
        (Phase::Applying { .. }, Event::Applied) => REORG_REWIND_INITIAL,
        _ => rewind_by,
    }
}

pub open spec fn next_state(s: SyncLoop, event: Event) -> SyncLoop {
    SyncLoop {
        phase: next_phase(s.phase, event, s.rewind_by),
        rewind_by: next_rewind(s.phase, event, s.rewind_by),
    }
}

fn twice(n: u32) -> (r: u32)
    ensures
        r == doubled(n),
{
    if n <= u32::MAX / 2 {
        2 * n
    } else {
        u32::MAX
    }
}

/// Where the loop goes from the stream's next item.
pub fn drive_range(event: Event, rewind_by: u32) -> (r: Phase)
    ensures
        r == range_phase(event, rewind_by),
{
    match event {
        Event::StreamEnded => Phase::Resuming,
        Event::Batch { scanned: Some(scanned) } => Phase::Polling { scanned },
        Event::Reorg { at } => Phase::Rewinding { to: at.saturating_sub(rewind_by) },
        Event::StreamFailed => Phase::Reconnecting,
        _ => Phase::Streaming,
    }
}

/// Where the loop goes from a batch's next step.
pub fn process_batch(phase: Phase, event: Event) -> (r: Phase)
    ensures
        r == batch_phase(phase, event),
{
    match (phase, event) {
        (Phase::Polling { scanned }, Event::Tip { tip }) => Phase::Observing { scanned, live: tip },
        (Phase::Polling { .. }, Event::TipFailed) => Phase::Reconnecting,
        (Phase::Observing { scanned, live }, Event::Observed) => Phase::Applying { scanned, live },
        (Phase::Observing { .. }, Event::ObserveFailed) => Phase::Reconnecting,
        (Phase::Applying { .. }, Event::Applied) => Phase::Streaming,
        (Phase::Applying { .. }, Event::ApplyFailed) => Phase::Stopped,
        _ => phase,
    }
}

/// Where the loop goes from a polled tip.
pub fn wait_for_tip(resume: ResumeInfo, tip: Cursor) -> (r: Phase)
    ensures
        r == next_phase(Phase::Waiting { resume }, Event::Tip { tip }, 0),
{
    if tip.0 == 0 || resume.start_height > tip.0 {
        Phase::Sleeping { resume }
    } else {
        Phase::Opening { resume, tip: tip.0 }
    }
}

impl SyncLoop {
    /// The loop before its first round.
    pub fn new() -> (r: Self)
        ensures
            r == (SyncLoop { phase: Phase::Resuming, rewind_by: REORG_REWIND_INITIAL }),
    {
        SyncLoop { phase: Phase::Resuming, rewind_by: REORG_REWIND_INITIAL }
    }

    /// Go on from what happened.
    pub fn run_sync_loop(&mut self, event: Event)
        ensures
            *final(self) == next_state(*old(self), event),
    {
        let phase = self.phase;
        let rewind_by: u32 = self.rewind_by;
        self.rewind_by = match (phase, event) {
            (Phase::Streaming, Event::Reorg { .. }) => twice(rewind_by),
            (Phase::Applying { .. }, Event::Applied) => REORG_REWIND_INITIAL,
            _ => rewind_by,
        };
        self.phase = match (phase, event) {
            (Phase::Resuming, Event::Resumed { resume }) => Phase::Waiting { resume },
            (Phase::Waiting { resume }, Event::Tip { tip }) => wait_for_tip(resume, tip),
            (Phase::Waiting { .. }, Event::TipFailed) => Phase::Reconnecting,
            (Phase::Sleeping { resume }, Event::Slept) => Phase::Waiting { resume },
            (Phase::Opening { .. }, Event::Opened) => Phase::Streaming,
            (Phase::Opening { .. }, Event::StreamFailed) => Phase::Reconnecting,
            (Phase::Streaming, _) => drive_range(event, rewind_by),
            (Phase::Rewinding { .. }, Event::Rewound) => Phase::Resuming,
            (Phase::Reconnecting, Event::Reconnected) => Phase::Resuming,
            _ => process_batch(phase, event),
        };
    }
}

/// Only a failure to apply a batch ends the loop; every other failure is got
/// over by another round.
pub proof fn law_only_the_registry_stops_the_loop(s: SyncLoop, event: Event)
    ensures
        !(s.phase is Stopped) ==> (next_state(s, event).phase is Stopped <==> s.phase is Applying
            && event is ApplyFailed),
        s.phase is Stopped ==> next_state(s, event).phase is Stopped,
{
}

/// A stream is opened only for blocks that exist: the tip is known, and the
/// start is not above it.
pub proof fn law_streams_stay_below_the_tip(s: SyncLoop, event: Event)
    ensures
        next_state(s, event).phase matches Phase::Opening { resume, tip } ==> (!(s.phase is Opening)
            ==> tip != 0 && resume.start_height <= tip),
{
}

/// A batch is applied only after its notes were observed, at the position the
/// batch reaches; and a row of reorgs ends exactly where a batch is applied.
pub proof fn law_batches_are_applied_in_steps(s: SyncLoop, event: Event)
    ensures
        next_state(s, event).phase matches Phase::Applying { scanned, live } ==> (!(s.phase is Applying)
            ==> event is Observed && s.phase == (Phase::Observing { scanned, live })),
        next_state(s, event).phase matches Phase::Observing { scanned, live } ==> (!(
        s.phase is Observing) ==> event == (Event::Tip { tip: live }) && s.phase == (Phase::Polling {
            scanned,
        })),
        next_state(s, event).phase matches Phase::Polling { scanned } ==> (!(s.phase is Polling)
            ==> event == (Event::Batch { scanned: Some(scanned) }) && s.phase is Streaming),
        next_state(s, event).rewind_by < s.rewind_by ==> s.phase is Applying && event is Applied
            && next_state(s, event).rewind_by == REORG_REWIND_INITIAL,
{
}

/// The position that a batch reaches.
pub fn batch_position(blocks: &[CompactBlock]) -> (r: Option<Cursor>)
    ensures
        r == batch_end(views(blocks@)),
{
    match batch_cursor(blocks) {
        Some(c) => Some((c.height, c.hash)),
        None => None,
    }
}

/// The checkpoint that a database gives.
pub open spec fn saved(db: DbView) -> Option<Checkpoint> {
    match db.scan_state {
        None => None,
        Some(s) => match read_checkpoint(s) {
            Ok(c) => Some(c),
            Err(_) => None,
        },
    }
}

/// A scan goes on where it stopped: a fresh database starts at the birthday; an
/// applied batch moves the start behind the batch, with its hash as the seam; a
/// shallow rewind moves it behind the fork, without a seam; a deep one moves it
/// to the birthday.
pub proof fn law_scan_resumes_where_it_stopped(
    db: DbView,
    scanned: Cursor,
    tip: Cursor,
    notes: Seq<DecryptedView>,
    fork: u32,
    from: u32,
    birthday: u32,
)
    requires
        scanned.0 < u32::MAX,
        fork < u32::MAX,
    ensures
        db.scan_state is None ==> resume_info(saved(db), birthday) == (ResumeInfo {
            start_height: birthday,
            seam_hash: None,
        }),
        after_batch(db, scanned, tip, notes) matches Ok((next, _)) ==> resume_info(saved(next), birthday)
            == (ResumeInfo { start_height: (scanned.0 + 1) as u32, seam_hash: scanned.1 }),
        resume_info(saved(after_rewind(db, fork, from)), birthday) == if from - fork
            > REORG_SHALLOW_MAX {
            ResumeInfo { start_height: birthday, seam_hash: None }
        } else {
            ResumeInfo { start_height: (fork + 1) as u32, seam_hash: None }
        },
{
    if let Some(h) = scanned.1 {
        lemma_as_array32(h);
    }
    if let Some(h) = tip.1 {
        lemma_as_array32(h);
    }
}

/// A reorg always makes the scan resume below where it was reported, so the
/// same blocks are not refused forever.
pub proof fn law_reorg_goes_back(at: u32, rewind_by: u32)
    requires
        rewind_by >= 1,
        at >= 1,
    ensures
        less(at, rewind_by) < at,
        doubled(rewind_by) >= rewind_by,
{
}

} // verus!
