//! What a scan finds: each action that hits, at its own place, in chain order.

use vstd::prelude::*;

use super::{
    action_hits, as_array52, block_hits, compact_parts, tx_hits, Candidate, CompactActionView,
    CompactBlockView,
};
use crate::decrypt::CompactParts;
use crate::text::{as_array32, lemma_array32_of, lemma_as_array32};

verus! {

/// The place of an action: its block in the batch, its transaction in the block,
/// and its index in the transaction.
pub struct Place {
    pub block: int,
    pub tx: int,
    pub action: int,
}

/// `p` comes before `q` on the chain.
pub open spec fn is_before(p: Place, q: Place) -> bool {
    p.block < q.block || (p.block == q.block && (p.tx < q.tx || (p.tx == q.tx && p.action < q.action)))
}

/// The fields of a compact action, each of its length, are those of `parts`.
pub open spec fn has_parts(a: CompactActionView, parts: CompactParts) -> bool {
    &&& parts.nullifier@ == a.nullifier
    &&& parts.cmx@ == a.cmx
    &&& parts.ephemeral_key@ == a.ephemeral_key
    &&& parts.ciphertext@ == a.ciphertext
}

/// The action at the place hits, and its transaction's id is well-formed.
pub open spec fn is_hit(
    blocks: Seq<CompactBlockView>,
    hits: spec_fn(CompactParts) -> bool,
    p: Place,
) -> bool {
    &&& 0 <= p.block < blocks.len()
    &&& 0 <= p.tx < blocks[p.block].vtx.len()
    &&& 0 <= p.action < blocks[p.block].vtx[p.tx].actions.len()
    &&& blocks[p.block].vtx[p.tx].txid.len() == 32
    &&& exists|parts: CompactParts| #[trigger]
        has_parts(blocks[p.block].vtx[p.tx].actions[p.action], parts) && hits(parts)
}

/// The candidate names the place: its transaction by id, its action by index.
pub open spec fn names_place(blocks: Seq<CompactBlockView>, p: Place, c: Candidate) -> bool {
    c.txid@ == blocks[p.block].vtx[p.tx].txid && c.action_index == p.action
}

/// `found` are the hits among the places of a region, at the places `at`: each
/// once, in chain order.
pub open spec fn are_hits(
    blocks: Seq<CompactBlockView>,
    hits: spec_fn(CompactParts) -> bool,
    region: spec_fn(Place) -> bool,
    at: Seq<Place>,
    found: Seq<Candidate>,
) -> bool {
    &&& at.len() == found.len()
    &&& forall|i: int|
        0 <= i < at.len() ==> region(#[trigger] at[i]) && is_hit(blocks, hits, at[i]) && names_place(
            blocks,
            at[i],
            found[i],
        )
    &&& forall|i: int, j: int| 0 <= i < j < at.len() ==> is_before(#[trigger] at[i], #[trigger] at[j])
    &&& forall|p: Place| region(p) && #[trigger] is_hit(blocks, hits, p) ==> at.contains(p)
}

/// Every place.
pub open spec fn anywhere() -> spec_fn(Place) -> bool {
    |p: Place| true
}

/// No transaction has more actions than an index can count, as none in memory
/// has.
pub open spec fn are_countable(blocks: Seq<CompactBlockView>) -> bool {
    forall|b: int, t: int|
        0 <= b < blocks.len() && 0 <= t < blocks[b].vtx.len() ==> (
        #[trigger] blocks[b].vtx[t]).actions.len() <= usize::MAX
}

/// An array that begins with the first `n` bytes of `b`.
spec fn filled52(b: Seq<u8>, n: nat) -> [u8; 52]
    decreases n,
{
    if n == 0 {
        arbitrary()
    } else {
        vstd::array::spec_array_update(filled52(b, (n - 1) as nat), n - 1, b[n - 1])
    }
}

proof fn lemma_filled52(b: Seq<u8>, n: nat)
    requires
        n <= 52,
        b.len() == 52,
    ensures
        forall|i: int| 0 <= i < n ==> #[trigger] filled52(b, n)@[i] == b[i],
    decreases n,
{
    if n > 0 {
        lemma_filled52(b, (n - 1) as nat);
        let before = filled52(b, (n - 1) as nat);
        assert(filled52(b, n)@ == before@.update(n - 1, b[n - 1]));
        assert forall|i: int| 0 <= i < n implies #[trigger] filled52(b, n)@[i] == b[i] by {
            if i < n - 1 {
                assert(before@[i] == b[i]);
            }
        }
    }
}

proof fn lemma_array52_of(b: Seq<u8>)
    ensures
        as_array52(b) matches Some(a) ==> a@ == b,
{
    if b.len() == 52 {
        lemma_filled52(b, 52);
        assert(filled52(b, 52)@ =~= b);
    }
}

proof fn lemma_as_array52(a: [u8; 52])
    ensures
        as_array52(a@) == Some(a),
{
    let c = choose|c: [u8; 52]| #[trigger] c@ == a@;
    assert(a@ == a@);
    assert(c =~= a);
}

/// A compact action reads as parts exactly where they are its fields.
pub proof fn law_compact_parts_are_the_fields(a: CompactActionView, parts: CompactParts)
    ensures
        compact_parts(a) == Some(parts) <==> has_parts(a, parts),
{
    lemma_array32_of(a.nullifier);
    lemma_array32_of(a.cmx);
    lemma_array32_of(a.ephemeral_key);
    lemma_array52_of(a.ciphertext);
    lemma_as_array32(parts.nullifier);
    lemma_as_array32(parts.cmx);
    lemma_as_array32(parts.ephemeral_key);
    lemma_as_array52(parts.ciphertext);
}

/// The hits of one region followed by those of a later one.
proof fn lemma_join(
    blocks: Seq<CompactBlockView>,
    hits: spec_fn(CompactParts) -> bool,
    r1: spec_fn(Place) -> bool,
    at1: Seq<Place>,
    found1: Seq<Candidate>,
    r2: spec_fn(Place) -> bool,
    at2: Seq<Place>,
    found2: Seq<Candidate>,
    region: spec_fn(Place) -> bool,
)
    requires
        are_hits(blocks, hits, r1, at1, found1),
        are_hits(blocks, hits, r2, at2, found2),
        forall|p: Place, q: Place| #[trigger] r1(p) && #[trigger] r2(q) ==> is_before(p, q),
        forall|p: Place| #[trigger] region(p) <==> r1(p) || r2(p),
    ensures
        are_hits(blocks, hits, region, at1 + at2, found1 + found2),
{
    let at = at1 + at2;
    let found = found1 + found2;
    let n = at1.len() as int;
    assert forall|i: int| 0 <= i < at.len() implies region(#[trigger] at[i]) && is_hit(blocks, hits, at[i])
        && names_place(blocks, at[i], found[i]) by {
        if i < n {
            assert(at[i] == at1[i] && found[i] == found1[i]);
        } else {
            assert(at[i] == at2[i - n] && found[i] == found2[i - n]);
        }
    }
    assert forall|i: int, j: int| 0 <= i < j < at.len() implies is_before(#[trigger] at[i], #[trigger] at[j]) by {
        if j < n {
            assert(is_before(at1[i], at1[j]));
        } else if i >= n {
            assert(is_before(at2[i - n], at2[j - n]));
        } else {
            assert(r1(at1[i]) && r2(at2[j - n]));
        }
    }
    assert forall|p: Place| region(p) && #[trigger] is_hit(blocks, hits, p) implies at.contains(p) by {
        if r1(p) {
            let i = choose|i: int| 0 <= i < at1.len() && at1[i] == p;
            assert(at[i] == p);
        } else {
            let i = choose|i: int| 0 <= i < at2.len() && at2[i] == p;
            assert(at[n + i] == p);
        }
    }
}

spec fn among_actions(b: int, t: int, n: int) -> spec_fn(Place) -> bool {
    |p: Place| p.block == b && p.tx == t && p.action < n
}

spec fn among_txs(b: int, n: int) -> spec_fn(Place) -> bool {
    |p: Place| p.block == b && p.tx < n
}

spec fn among_blocks(n: int) -> spec_fn(Place) -> bool {
    |p: Place| p.block < n
}

proof fn place_actions(
    blocks: Seq<CompactBlockView>,
    hits: spec_fn(CompactParts) -> bool,
    b: int,
    t: int,
    txid: [u8; 32],
    n: nat,
) -> (at: Seq<Place>)
    requires
        are_countable(blocks),
        0 <= b < blocks.len(),
        0 <= t < blocks[b].vtx.len(),
        txid@ == blocks[b].vtx[t].txid,
        n <= blocks[b].vtx[t].actions.len(),
    ensures
        are_hits(
            blocks,
            hits,
            among_actions(b, t, n as int),
            at,
            action_hits(txid, blocks[b].vtx[t].actions, n, hits),
        ),
    decreases n,
{
    let actions = blocks[b].vtx[t].actions;
    let region = among_actions(b, t, n as int);
    if n == 0 {
        Seq::empty()
    } else {
        let k = n - 1;
        let before = place_actions(blocks, hits, b, t, txid, k as nat);
        let found = action_hits(txid, actions, k as nat, hits);
        let here = Place { block: b, tx: t, action: k };
        let one = |p: Place| p == here;
        assert forall|parts: CompactParts| compact_parts(actions[k]) == Some(parts) <==> #[trigger] has_parts(
            actions[k],
            parts,
        ) by {
            law_compact_parts_are_the_fields(actions[k], parts);
        }
        assert(blocks[b].vtx[t].actions.len() <= usize::MAX);
        if is_hit(blocks, hits, here) {
            let c = Candidate { txid, action_index: k as usize };
            assert(are_hits(blocks, hits, one, seq![here], seq![c])) by {
                assert(seq![here][0] == here);
                assert(names_place(blocks, here, c));
            }
            lemma_join_actions(blocks, hits, b, t, k, before, found, seq![here], seq![c]);
            assert(found + seq![c] =~= found.push(c));
            before + seq![here]
        } else {
            if let Some(parts) = compact_parts(actions[k]) {
                assert(has_parts(actions[k], parts));
            }
            lemma_join_actions(blocks, hits, b, t, k, before, found, Seq::empty(), Seq::empty());
            assert(found + Seq::<Candidate>::empty() =~= found);
            before + Seq::<Place>::empty()
        }
    }
}

proof fn lemma_join_actions(
    blocks: Seq<CompactBlockView>,
    hits: spec_fn(CompactParts) -> bool,
    b: int,
    t: int,
    k: int,
    at1: Seq<Place>,
    found1: Seq<Candidate>,
    at2: Seq<Place>,
    found2: Seq<Candidate>,
)
    requires
        are_hits(blocks, hits, among_actions(b, t, k), at1, found1),
        are_hits(blocks, hits, |p: Place| p == (Place { block: b, tx: t, action: k }), at2, found2),
    ensures
        are_hits(blocks, hits, among_actions(b, t, k + 1), at1 + at2, found1 + found2),
{
    let one = |p: Place| p == (Place { block: b, tx: t, action: k });
    lemma_join(
        blocks,
        hits,
        among_actions(b, t, k),
        at1,
        found1,
        one,
        at2,
        found2,
        among_actions(b, t, k + 1),
    );
}

proof fn place_txs(
    blocks: Seq<CompactBlockView>,
    hits: spec_fn(CompactParts) -> bool,
    b: int,
    n: nat,
) -> (at: Seq<Place>)
    requires
        are_countable(blocks),
        0 <= b < blocks.len(),
        n <= blocks[b].vtx.len(),
    ensures
        are_hits(blocks, hits, among_txs(b, n as int), at, tx_hits(blocks[b].vtx.take(n as int), hits)),
    decreases n,
{
    let vtx = blocks[b].vtx;
    if n == 0 {
        Seq::empty()
    } else {
        let t = n - 1;
        let before = place_txs(blocks, hits, b, t as nat);
        let found = tx_hits(vtx.take(t), hits);
        assert(vtx.take(n as int).drop_last() =~= vtx.take(t));
        assert(vtx.take(n as int).last() == vtx[t]);
        let m = vtx[t].actions.len();
        let here = |p: Place| p.block == b && p.tx == t;
        match as_array32(vtx[t].txid) {
            Some(txid) => {
                lemma_array32_of(vtx[t].txid);
                let at = place_actions(blocks, hits, b, t, txid, m);
                let more = action_hits(txid, vtx[t].actions, m, hits);
                assert(are_hits(blocks, hits, here, at, more));
                lemma_join(blocks, hits, among_txs(b, t), before, found, here, at, more, among_txs(b, n as int));
                before + at
            },
            None => {
                assert(are_hits(blocks, hits, here, Seq::empty(), Seq::empty()));
                lemma_join(
                    blocks,
                    hits,
                    among_txs(b, t),
                    before,
                    found,
                    here,
                    Seq::empty(),
                    Seq::empty(),
                    among_txs(b, n as int),
                );
                assert(found + Seq::<Candidate>::empty() =~= found);
                before + Seq::<Place>::empty()
            },
        }
    }
}

proof fn place_blocks(
    blocks: Seq<CompactBlockView>,
    hits: spec_fn(CompactParts) -> bool,
    n: nat,
) -> (at: Seq<Place>)
    requires
        are_countable(blocks),
        n <= blocks.len(),
    ensures
        are_hits(blocks, hits, among_blocks(n as int), at, block_hits(blocks.take(n as int), hits)),
    decreases n,
{
    if n == 0 {
        Seq::empty()
    } else {
        let b = n - 1;
        let before = place_blocks(blocks, hits, b as nat);
        let found = block_hits(blocks.take(b), hits);
        assert(blocks.take(n as int).drop_last() =~= blocks.take(b));
        assert(blocks.take(n as int).last() == blocks[b]);
        let vtx = blocks[b].vtx;
        let at = place_txs(blocks, hits, b, vtx.len());
        assert(vtx.take(vtx.len() as int) =~= vtx);
        let more = tx_hits(vtx, hits);
        let here = |p: Place| p.block == b;
        assert(are_hits(blocks, hits, here, at, more));
        lemma_join(blocks, hits, among_blocks(b), before, found, here, at, more, among_blocks(n as int));
        before + at
    }
}

/// A scan finds each action that hits, once, under the id of its transaction and
/// its own index there, and nothing else. It lists them in chain order: by
/// block, transaction and action, so the indices in one transaction ascend.
pub proof fn law_scan_finds_every_hit(blocks: Seq<CompactBlockView>, hits: spec_fn(CompactParts) -> bool)
    requires
        are_countable(blocks),
    ensures
        exists|at: Seq<Place>| #[trigger]
            are_hits(blocks, hits, anywhere(), at, block_hits(blocks, hits)),
{
    let n = blocks.len();
    let at = place_blocks(blocks, hits, n);
    assert(blocks.take(n as int) =~= blocks);
    assert(are_hits(blocks, hits, anywhere(), at, block_hits(blocks, hits)));
}

/// A candidate is found exactly where the action of that index, in a transaction
/// of that id, hits.
pub proof fn law_candidates_are_hits(
    blocks: Seq<CompactBlockView>,
    hits: spec_fn(CompactParts) -> bool,
    c: Candidate,
)
    requires
        are_countable(blocks),
    ensures
        block_hits(blocks, hits).contains(c) <==> exists|p: Place| #[trigger]
            is_hit(blocks, hits, p) && names_place(blocks, p, c),
{
    let found = block_hits(blocks, hits);
    let all = anywhere();
    law_scan_finds_every_hit(blocks, hits);
    let at = choose|at: Seq<Place>| #[trigger] are_hits(blocks, hits, all, at, found);
    if found.contains(c) {
        let i = choose|i: int| 0 <= i < found.len() && found[i] == c;
        assert(is_hit(blocks, hits, at[i]) && names_place(blocks, at[i], c));
    }
    if exists|p: Place| #[trigger] is_hit(blocks, hits, p) && names_place(blocks, p, c) {
        let p = choose|p: Place| #[trigger] is_hit(blocks, hits, p) && names_place(blocks, p, c);
        assert(all(p));
        let i = choose|i: int| 0 <= i < at.len() && at[i] == p;
        assert(names_place(blocks, at[i], found[i]));
        lemma_as_array32(c.txid);
        lemma_as_array32(found[i].txid);
        assert(found[i] == c);
    }
}

} // verus!
