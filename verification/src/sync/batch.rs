//! Batches of a block stream: where one ends, and where the chain breaks.

use vstd::prelude::*;

use crate::text::{bytes_eq, copy_bytes};

verus! {

/// The outputs that fill a batch.
pub const CHUNK_OUTPUTS: usize = 100_000;

/// The state of an open stream.
pub struct Batcher {
    /// The hash that the next block must build on, where it is known.
    pub seam: Option<Vec<u8>>,
    /// The outputs of the batch so far.
    pub outputs: usize,
    /// Whether the batch holds no block yet.
    pub empty: bool,
    /// A break that was met with blocks in hand, still to be reported.
    pub reorg: Option<u32>,
}

#[verifier::ext_equal]
pub struct BatcherView {
    pub seam: Option<Seq<u8>>,
    pub outputs: usize,
    pub empty: bool,
    pub reorg: Option<u32>,
}

impl View for Batcher {
    type V = BatcherView;

    open spec fn view(&self) -> BatcherView {
        BatcherView {
            seam: match self.seam {
                Some(s) => Some(s@),
                None => None,
            },
            outputs: self.outputs,
            empty: self.empty,
            reorg: self.reorg,
        }
    }
}

/// What becomes of a block.
#[derive(Clone, Copy, Debug, PartialEq, Eq, Structural)]
pub enum Step {
    /// It joins the batch.
    Keep,
    /// It joins the batch and fills it.
    Fill,
    /// It does not build on the block before it, and the batch ends before it.
    Hold,
    /// It does not build on the block before it, and there is no batch.
    Reorg { at: u32 },
}

/// The block behind `seam` has `prev_hash` as its predecessor's hash.
pub open spec fn builds_on(seam: Option<Seq<u8>>, prev_hash: Seq<u8>) -> bool {
    seam matches Some(s) ==> s == prev_hash
}

/// The sum, at most the greatest there is.
pub open spec fn sum_of(a: usize, b: usize) -> usize {
    if a + b <= usize::MAX {
        (a + b) as usize
    } else {
        usize::MAX
    }
}

/// The state after a block, and what became of it.
pub open spec fn taken(
    s: BatcherView,
    height: u32,
    hash: Seq<u8>,
    prev_hash: Seq<u8>,
    outputs: usize,
) -> (BatcherView, Step) {
    if builds_on(s.seam, prev_hash) {
        let total = sum_of(s.outputs, outputs);
        let next = BatcherView { seam: Some(hash), outputs: total, empty: false, ..s };
        (
            next,
            if total >= CHUNK_OUTPUTS {
                Step::Fill
            } else {
                Step::Keep
            },
        )
    } else if s.empty {
        (s, Step::Reorg { at: height })
    } else {
        (BatcherView { reorg: Some(height), ..s }, Step::Hold)
    }
}

impl Batcher {
    /// A stream whose first block must build on `seam`, where it is known.
    pub fn new(seam: Option<[u8; 32]>) -> (r: Self)
        ensures
            r@ == (BatcherView {
                seam: match seam {
                    Some(s) => Some(s@),
                    None => None,
                },
                outputs: 0,
                empty: true,
                reorg: None,
            }),
    {
        let seam = match seam {
            Some(s) => Some(copy_bytes(s.as_slice())),
            None => None,
        };
        Batcher { seam, outputs: 0, empty: true, reorg: None }
    }

    /// Begin a batch, or report the break that the last one ended at.
    pub fn begin(&mut self) -> (r: Option<u32>)
        ensures
            r == old(self).reorg,
            final(self)@ == (match old(self).reorg {
                Some(_) => BatcherView { reorg: None, ..old(self)@ },
                None => BatcherView { outputs: 0, empty: true, ..old(self)@ },
            }),
    {
        let pending = self.reorg;
        if pending.is_some() {
            self.reorg = None;
        } else {
            self.outputs = 0;
            self.empty = true;
        }
        pending
    }

    /// Take the stream's next block.
    pub fn take(&mut self, height: u32, hash: &[u8], prev_hash: &[u8], outputs: usize) -> (r: Step)
        ensures
            (final(self)@, r) == taken(old(self)@, height, hash@, prev_hash@, outputs),
    {
        let linked = match &self.seam {
            Some(s) => bytes_eq(s.as_slice(), prev_hash),
            None => true,
        };
        if linked {
            self.seam = Some(copy_bytes(hash));
            self.outputs = self.outputs.saturating_add(outputs);
            self.empty = false;
            if self.outputs >= CHUNK_OUTPUTS {
                Step::Fill
            } else {
                Step::Keep
            }
        } else if self.empty {
            Step::Reorg { at: height }
        } else {
            self.reorg = Some(height);
            Step::Hold
        }
    }
}

/// The blocks of a stream are linked: behind a block that was kept, the next one
/// is kept if and only if it builds on it. Across two batches too.
pub proof fn law_kept_blocks_are_linked(
    s: BatcherView,
    height: u32,
    hash: Seq<u8>,
    prev_hash: Seq<u8>,
    outputs: usize,
    next_prev: Seq<u8>,
    next_hash: Seq<u8>,
)
    ensures
        ({
            let (after, step) = taken(s, height, hash, prev_hash, outputs);
            let next_batch = BatcherView { outputs: 0, empty: true, ..after };
            let kept = step is Keep || step is Fill;
            let again = taken(after, height, next_hash, next_prev, outputs).1;
            let later = taken(next_batch, height, next_hash, next_prev, outputs).1;
            &&& kept <==> builds_on(s.seam, prev_hash)
            &&& kept ==> ((again is Keep || again is Fill) <==> next_prev == hash)
            &&& kept ==> ((later is Keep || later is Fill) <==> next_prev == hash)
        }),
{
}

/// A break is reported once, at the block that broke the chain, and after the
/// blocks before it.
pub proof fn law_breaks_are_reported(
    s: BatcherView,
    height: u32,
    hash: Seq<u8>,
    prev_hash: Seq<u8>,
    outputs: usize,
)
    ensures
        ({
            let (after, step) = taken(s, height, hash, prev_hash, outputs);
            &&& !builds_on(s.seam, prev_hash) && s.empty ==> step == (Step::Reorg { at: height })
                && after == s
            &&& !builds_on(s.seam, prev_hash) && !s.empty ==> step == Step::Hold && after.reorg == Some(
                height,
            ) && after.seam == s.seam
        }),
{
}

} // verus!
