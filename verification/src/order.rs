//! Orderings: the stable sort that every listing is stated in, and paging.

use vstd::prelude::*;

verus! {

/// `x` placed behind the last element of `s` that `le` puts before it.
pub open spec fn insert_by<T>(s: Seq<T>, x: T, le: spec_fn(T, T) -> bool) -> Seq<T>
    decreases s.len(),
{
    if s.len() == 0 || le(s.last(), x) {
        s.push(x)
    } else {
        insert_by(s.drop_last(), x, le).push(s.last())
    }
}

/// The elements of `s` in the order `le`; equal elements keep their order.
pub open spec fn sort_by<T>(s: Seq<T>, le: spec_fn(T, T) -> bool) -> Seq<T>
    decreases s.len(),
{
    if s.len() == 0 {
        s
    } else {
        insert_by(sort_by(s.drop_last(), le), s.last(), le)
    }
}

/// Every two elements of `s` stand in the order `le`.
pub open spec fn is_sorted<T>(s: Seq<T>, le: spec_fn(T, T) -> bool) -> bool {
    forall|i: int, j: int| 0 <= i < j < s.len() ==> le(#[trigger] s[i], #[trigger] s[j])
}

/// `le` compares any two elements and is transitive.
pub open spec fn is_order<T>(le: spec_fn(T, T) -> bool) -> bool {
    &&& forall|a: T, b: T| #[trigger] le(a, b) || le(b, a)
    &&& forall|a: T, b: T, c: T| #[trigger] le(a, b) && #[trigger] le(b, c) ==> le(a, c)
}

/// At most `limit` elements of `s`, from position `offset` on.
pub open spec fn page<T>(s: Seq<T>, limit: nat, offset: nat) -> Seq<T> {
    if offset >= s.len() {
        Seq::empty()
    } else if offset + limit >= s.len() {
        s.skip(offset as int)
    } else {
        s.subrange(offset as int, (offset + limit) as int)
    }
}

/// The length of the run at the head of `s` whose elements share one key.
pub open spec fn run_len<T, K>(s: Seq<T>, key: spec_fn(T) -> K) -> nat
    decreases s.len(),
{
    if s.len() == 0 {
        0
    } else if s.len() >= 2 && key(s[0]) == key(s[1]) {
        1 + run_len(s.skip(1), key)
    } else {
        1
    }
}

pub proof fn lemma_insert_at<T>(s: Seq<T>, x: T, le: spec_fn(T, T) -> bool, p: int)
    requires
        0 <= p <= s.len(),
        p == 0 || le(s[p - 1], x),
        forall|j: int| p <= j < s.len() ==> !le(#[trigger] s[j], x),
    ensures
        insert_by(s, x, le) == s.insert(p, x),
    decreases s.len(),
{
    if s.len() == p {
        assert(s.insert(p, x) =~= s.push(x));
        if p > 0 {
            assert(s.last() == s[p - 1]);
        }
    } else {
        assert(!le(s[s.len() - 1], x));
        lemma_insert_at(s.drop_last(), x, le, p);
        assert(s.drop_last().insert(p, x).push(s.last()) =~= s.insert(p, x));
    }
}

/// An insertion adds `x` and nothing else.
pub proof fn lemma_insert_adds<T>(s: Seq<T>, x: T, le: spec_fn(T, T) -> bool)
    ensures
        insert_by(s, x, le).to_multiset() == s.to_multiset().insert(x),
        insert_by(s, x, le).len() == s.len() + 1,
    decreases s.len(),
{
    broadcast use vstd::seq_lib::group_to_multiset_ensures;

    if s.len() == 0 || le(s.last(), x) {
    } else {
        lemma_insert_adds(s.drop_last(), x, le);
        assert(s.drop_last().push(s.last()) =~= s);
        assert(s.drop_last().to_multiset().insert(x).insert(s.last())
            =~= s.drop_last().to_multiset().insert(s.last()).insert(x));
    }
}

/// An insertion puts a new element into a sorted sequence and keeps it sorted.
pub proof fn lemma_insert_sorted<T>(s: Seq<T>, x: T, le: spec_fn(T, T) -> bool)
    requires
        is_order(le),
        is_sorted(s, le),
    ensures
        is_sorted(insert_by(s, x, le), le),
        forall|i: int| 0 <= i < insert_by(s, x, le).len() ==> #[trigger] insert_by(s, x, le)[i] == x
            || s.contains(insert_by(s, x, le)[i]),
    decreases s.len(),
{
    let r = insert_by(s, x, le);
    if s.len() == 0 {
    } else if le(s.last(), x) {
        assert forall|i: int, j: int| 0 <= i < j < r.len() implies le(#[trigger] r[i], #[trigger] r[j]) by {
            if j == s.len() && i < s.len() - 1 {
                assert(le(s[i], s[s.len() - 1]));
            }
        }
        assert forall|i: int| 0 <= i < r.len() implies #[trigger] r[i] == x || s.contains(r[i]) by {
            if i < s.len() {
                assert(s[i] == r[i]);
            }
        }
    } else {
        let t = s.drop_last();
        lemma_insert_sorted(t, x, le);
        let q = insert_by(t, x, le);
        lemma_insert_adds(t, x, le);
        assert forall|i: int| 0 <= i < q.len() implies le(#[trigger] q[i], s.last()) by {
            if q[i] == x {
                assert(le(s.last(), x) || le(x, s.last()));
            } else {
                let k = choose|k: int| 0 <= k < t.len() && t[k] == q[i];
                assert(s[k] == q[i]);
                assert(le(s[k], s[s.len() - 1]));
            }
        }
        assert forall|i: int| 0 <= i < r.len() implies #[trigger] r[i] == x || s.contains(r[i]) by {
            if i < q.len() {
                assert(r[i] == q[i]);
                if q[i] != x {
                    let k = choose|k: int| 0 <= k < t.len() && t[k] == q[i];
                    assert(s[k] == q[i]);
                }
            } else {
                assert(s[s.len() - 1] == r[i]);
            }
        }
    }
}

/// The sort is sorted and holds exactly the elements that went in.
pub proof fn lemma_sort<T>(s: Seq<T>, le: spec_fn(T, T) -> bool)
    requires
        is_order(le),
    ensures
        is_sorted(sort_by(s, le), le),
        sort_by(s, le).to_multiset() == s.to_multiset(),
        sort_by(s, le).len() == s.len(),
    decreases s.len(),
{
    broadcast use vstd::seq_lib::group_to_multiset_ensures;

    if s.len() > 0 {
        lemma_sort(s.drop_last(), le);
        lemma_insert_sorted(sort_by(s.drop_last(), le), s.last(), le);
        lemma_insert_adds(sort_by(s.drop_last(), le), s.last(), le);
        assert(s.drop_last().push(s.last()) =~= s);
    }
}

/// What holds of every element holds of every element of the sort.
pub proof fn lemma_sort_keeps<T>(s: Seq<T>, le: spec_fn(T, T) -> bool, p: spec_fn(T) -> bool)
    requires
        forall|i: int| 0 <= i < s.len() ==> p(#[trigger] s[i]),
    ensures
        forall|i: int| 0 <= i < sort_by(s, le).len() ==> p(#[trigger] sort_by(s, le)[i]),
    decreases s.len(),
{
    if s.len() > 0 {
        let init = s.drop_last();
        assert forall|i: int| 0 <= i < init.len() implies p(#[trigger] init[i]) by {
            assert(p(s[i]));
        }
        lemma_sort_keeps(init, le, p);
        assert(p(s[s.len() - 1]));
        lemma_insert_keeps(sort_by(init, le), s.last(), le, p);
    }
}

proof fn lemma_insert_keeps<T>(s: Seq<T>, x: T, le: spec_fn(T, T) -> bool, p: spec_fn(T) -> bool)
    requires
        forall|i: int| 0 <= i < s.len() ==> p(#[trigger] s[i]),
        p(x),
    ensures
        forall|i: int| 0 <= i < insert_by(s, x, le).len() ==> p(#[trigger] insert_by(s, x, le)[i]),
    decreases s.len(),
{
    if s.len() == 0 || le(s.last(), x) {
    } else {
        let init = s.drop_last();
        assert forall|i: int| 0 <= i < init.len() implies p(#[trigger] init[i]) by {
            assert(p(s[i]));
        }
        lemma_insert_keeps(init, x, le, p);
        let t = insert_by(init, x, le);
        assert(p(s[s.len() - 1]));
        assert forall|i: int| 0 <= i < insert_by(s, x, le).len() implies p(
            #[trigger] insert_by(s, x, le)[i],
        ) by {
            if i < t.len() {
                assert(insert_by(s, x, le)[i] == t[i]);
            }
        }
    }
}

/// A sequence that is in order already is its own sort.
pub proof fn lemma_sort_of_sorted<T>(s: Seq<T>, le: spec_fn(T, T) -> bool)
    requires
        is_sorted(s, le),
    ensures
        sort_by(s, le) == s,
    decreases s.len(),
{
    if s.len() > 0 {
        lemma_sort_of_sorted(s.drop_last(), le);
        let t = s.drop_last();
        if t.len() > 0 {
            assert(t.last() == s[s.len() - 2]);
            assert(le(s[s.len() - 2], s[s.len() - 1]));
        }
        assert(t.push(s.last()) =~= s);
    }
}

/// A page is a window on the listing: it starts at the offset, and is as long as
/// the limit unless the listing ends first.
pub proof fn law_page_is_a_window<T>(s: Seq<T>, limit: nat, offset: nat)
    ensures
        offset + limit <= s.len() ==> page(s, limit, offset).len() == limit,
        offset <= s.len() < offset + limit ==> page(s, limit, offset).len() == s.len() - offset,
        s.len() < offset ==> page(s, limit, offset).len() == 0,
        forall|i: int|
            0 <= i < page(s, limit, offset).len() ==> #[trigger] page(s, limit, offset)[i] == s[offset + i],
{
}

/// Consecutive pages of one listing join into the page of their summed size.
pub proof fn law_pages_join<T>(s: Seq<T>, first: nat, second: nat, offset: nat)
    ensures
        page(s, first, offset) + page(s, second, offset + first) == page(s, first + second, offset),
{
    assert(page(s, first, offset) + page(s, second, offset + first) =~= page(
        s,
        first + second,
        offset,
    ));
}

pub proof fn lemma_run_len<T, K>(s: Seq<T>, key: spec_fn(T) -> K)
    requires
        s.len() > 0,
    ensures
        1 <= run_len(s, key) <= s.len(),
        forall|i: int| 0 <= i < run_len(s, key) ==> key(#[trigger] s[i]) == key(s[0]),
        run_len(s, key) < s.len() ==> key(s[run_len(s, key) as int]) != key(s[0]),
    decreases s.len(),
{
    if s.len() >= 2 && key(s[0]) == key(s[1]) {
        let t = s.skip(1);
        lemma_run_len(t, key);
        assert forall|i: int| 0 <= i < run_len(s, key) implies key(#[trigger] s[i]) == key(s[0]) by {
            if i > 0 {
                assert(key(t[i - 1]) == key(t[0]));
            }
        }
        if run_len(s, key) < s.len() {
            assert(t[run_len(t, key) as int] == s[run_len(s, key) as int]);
        }
    }
}

/// A run ends where the key first changes.
pub proof fn lemma_run_len_is<T, K>(s: Seq<T>, key: spec_fn(T) -> K, n: int)
    requires
        1 <= n <= s.len(),
        forall|i: int| 0 <= i < n ==> key(#[trigger] s[i]) == key(s[0]),
        n < s.len() ==> key(s[n]) != key(s[0]),
    ensures
        run_len(s, key) == n,
{
    lemma_run_len(s, key);
    let r = run_len(s, key) as int;
    if r < n {
        assert(key(s[r]) == key(s[0]));
    } else if n < r {
        assert(key(s[n]) == key(s[0]));
    }
}

pub proof fn lemma_sort_len<T>(s: Seq<T>, le: spec_fn(T, T) -> bool)
    ensures
        sort_by(s, le).len() == s.len(),
    decreases s.len(),
{
    if s.len() > 0 {
        lemma_sort_len(s.drop_last(), le);
        lemma_insert_adds(sort_by(s.drop_last(), le), s.last(), le);
    }
}

/// What holds of every element holds of those that are kept.
pub proof fn lemma_filter_keeps<T>(s: Seq<T>, q: spec_fn(T) -> bool, p: spec_fn(T) -> bool)
    requires
        forall|i: int| 0 <= i < s.len() ==> p(#[trigger] s[i]),
    ensures
        forall|i: int| 0 <= i < s.filter(q).len() ==> p(#[trigger] s.filter(q)[i]),
    decreases s.len(),
{
    reveal(Seq::filter);
    if s.len() > 0 {
        let init = s.drop_last();
        assert forall|i: int| 0 <= i < init.len() implies p(#[trigger] init[i]) by {
            assert(p(s[i]));
        }
        lemma_filter_keeps(init, q, p);
        let kept = init.filter(q);
        assert(p(s[s.len() - 1]));
        assert forall|i: int| 0 <= i < s.filter(q).len() implies p(#[trigger] s.filter(q)[i]) by {
            if i < kept.len() {
                assert(s.filter(q)[i] == kept[i]);
            }
        }
    }
}

/// What is kept of a sorted sequence is sorted.
pub proof fn lemma_filter_sorted<T>(s: Seq<T>, le: spec_fn(T, T) -> bool, q: spec_fn(T) -> bool)
    requires
        is_sorted(s, le),
    ensures
        is_sorted(s.filter(q), le),
    decreases s.len(),
{
    reveal(Seq::filter);
    if s.len() > 0 {
        let init = s.drop_last();
        let last = s.last();
        assert forall|i: int, j: int| 0 <= i < j < init.len() implies le(
            #[trigger] init[i],
            #[trigger] init[j],
        ) by {
            assert(le(s[i], s[j]));
        }
        lemma_filter_sorted(init, le, q);
        let kept = init.filter(q);
        let below = |r: T| le(r, last);
        assert forall|i: int| 0 <= i < init.len() implies below(#[trigger] init[i]) by {
            assert(le(s[i], s[s.len() - 1]));
        }
        lemma_filter_keeps(init, q, below);
        let all = s.filter(q);
        assert forall|i: int, j: int| 0 <= i < j < all.len() implies le(
            #[trigger] all[i],
            #[trigger] all[j],
        ) by {
            assert(all[i] == kept[i]);
            if j < kept.len() {
                assert(all[j] == kept[j]);
            } else {
                assert(below(kept[i]));
            }
        }
    }
}

/// What is kept of a prefix is a prefix of what is kept.
pub proof fn lemma_filter_prefix<T>(s: Seq<T>, k: int, q: spec_fn(T) -> bool)
    requires
        0 <= k <= s.len(),
    ensures
        s.take(k).filter(q).len() <= s.filter(q).len(),
        s.take(k).filter(q) == s.filter(q).take(s.take(k).filter(q).len() as int),
{
    assert(s.take(k) + s.skip(k) =~= s);
    Seq::filter_distributes_over_add(s.take(k), s.skip(k), q);
    assert(s.take(k).filter(q) =~= s.filter(q).take(s.take(k).filter(q).len() as int));
}

} // verus!
