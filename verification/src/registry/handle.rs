//! Resuming a scan from the registry's checkpoint.

use vstd::prelude::*;

use super::state::{decodes, Cursor, Resume};
use super::Checkpoint;
use crate::kernel::{is_nullifier, le_value};
use crate::log::lemma_filter_step;

verus! {

/// The position a checkpoint can be resumed from: one with a hash.
pub open spec fn resumable(checkpoint: Option<Checkpoint>) -> Option<Cursor> {
    match checkpoint {
        Some(c) => match c.scanned_hash {
            Some(hash) => Some(Cursor { height: c.scanned_height, hash }),
            None => None,
        },
        None => None,
    }
}

pub fn cursor_from_checkpoint(checkpoint: Option<Checkpoint>) -> (r: Option<Cursor>)
    ensures
        r == resumable(checkpoint),
{
    match checkpoint {
        Some(c) => match c.scanned_hash {
            Some(hash) => Some(Cursor { height: c.scanned_height, hash }),
            None => None,
        },
        None => None,
    }
}

/// What a scan resumes from, given the checkpoint and the watch set. Nullifiers
/// that do not decode are left out.
pub fn resume(birthday: u32, checkpoint: Option<Checkpoint>, watched: &[[u8; 32]]) -> (r: Resume)
    ensures
        r.birthday == birthday,
        r.checkpoint == resumable(checkpoint),
        r.ironwood@ == watched@.filter(decodes()),
{
    let mut ironwood: Vec<[u8; 32]> = Vec::new();
    let mut i: usize = 0;
    proof {
        reveal(Seq::filter);
        assert(ironwood@ =~= watched@.take(0).filter(decodes()));
    }
    while i < watched.len()
        invariant
            i <= watched.len(),
            ironwood@ == watched@.take(i as int).filter(decodes()),
        decreases watched.len() - i,
    {
        proof {
            lemma_filter_step(watched@, i as int, decodes());
        }
        if is_nullifier(&watched[i]) {
            ironwood.push(watched[i]);
        }
        i += 1;
    }
    assert(watched@.take(watched@.len() as int) =~= watched@);
    Resume { birthday, checkpoint: cursor_from_checkpoint(checkpoint), ironwood }
}

/// A checkpoint is resumed from exactly where its hash is known, at its own
/// height and hash.
pub proof fn law_resumes_at_the_checkpoint(c: Checkpoint)
    ensures
        resumable(Some(c)) is Some <==> c.scanned_hash is Some,
        resumable(Some(c)) matches Some(at) ==> at.height == c.scanned_height && c.scanned_hash == Some(
            at.hash,
        ),
        resumable(None) is None,
{
}

/// The nullifiers that decode are those whose value, the least significant byte
/// first, is below the size of the field.
pub proof fn law_nullifiers_decode_below_the_field_size(nf: [u8; 32])
    ensures
        decodes()(nf) <==> le_value(nf@)
            < 0x40000000000000000000000000000000224698fc094cf91b992d30ed00000001nat,
{
}

} // verus!
