//! What the stores share: failures, cursors, and row-by-row reading.

use vstd::prelude::*;

use crate::log::views;
use crate::order::page;

verus! {

/// Why a store operation failed. A failed operation leaves the store as it was.
#[derive(Clone, Copy, Debug, PartialEq, Eq, Structural)]
pub enum StoreError {
    /// The value in this column of a stored row does not decode.
    ColumnOutOfRange(usize),
    /// A stored record's memo does not parse or disagrees with its columns.
    CorruptRecord,
    /// A row with the same key is already recorded.
    KeyTaken,
    /// A row that must exist does not.
    MissingRow,
    /// No row id is left for the rows to be appended.
    Full,
}

/// Every element read by `f`, or the first failure.
pub open spec fn read_all<A, B>(s: Seq<A>, f: spec_fn(A) -> Result<B, StoreError>) -> Result<
    Seq<B>,
    StoreError,
>
    decreases s.len(),
{
    if s.len() == 0 {
        Ok(Seq::empty())
    } else {
        match read_all(s.drop_last(), f) {
            Err(e) => Err(e),
            Ok(v) => match f(s.last()) {
                Err(e) => Err(e),
                Ok(b) => Ok(v.push(b)),
            },
        }
    }
}

pub proof fn lemma_read_all_step<A, B>(s: Seq<A>, k: int, f: spec_fn(A) -> Result<B, StoreError>)
    requires
        0 <= k < s.len(),
    ensures
        read_all(s.take(k + 1), f) == (match read_all(s.take(k), f) {
            Err(e) => Err::<Seq<B>, StoreError>(e),
            Ok(v) => match f(s[k]) {
                Err(e) => Err(e),
                Ok(b) => Ok(v.push(b)),
            },
        }),
{
    assert(s.take(k + 1).drop_last() =~= s.take(k));
}

/// A failure among the first elements is the failure of the whole.
pub proof fn lemma_read_all_fails<A, B>(s: Seq<A>, k: int, f: spec_fn(A) -> Result<B, StoreError>)
    requires
        0 <= k <= s.len(),
        read_all(s.take(k), f) is Err,
    ensures
        read_all(s, f) == read_all(s.take(k), f),
    decreases s.len() - k,
{
    if k < s.len() {
        lemma_read_all_step(s, k, f);
        lemma_read_all_fails(s, k + 1, f);
    } else {
        assert(s.take(k) =~= s);
    }
}

/// A reading yields one result per element, each read from its element.
pub proof fn lemma_read_all<A, B>(s: Seq<A>, f: spec_fn(A) -> Result<B, StoreError>)
    ensures
        match read_all(s, f) {
            Ok(v) => v.len() == s.len() && forall|i: int|
                0 <= i < s.len() ==> f(s[i]) == Ok::<B, StoreError>(#[trigger] v[i]),
            Err(e) => exists|i: int| 0 <= i < s.len() && #[trigger] f(s[i]) == Err::<B, StoreError>(e),
        },
    decreases s.len(),
{
    if s.len() > 0 {
        lemma_read_all(s.drop_last(), f);
        assert(s.last() == s[s.len() - 1]);
        let init = s.drop_last();
        if read_all(init, f) is Err {
            let i = choose|i: int|
                0 <= i < init.len() && #[trigger] f(init[i]) == Err::<B, StoreError>(read_all(init, f)->Err_0);
            assert(f(s[i]) == f(init[i]));
        } else if f(s.last()) is Err {
            assert(f(s[s.len() - 1]) is Err);
        }
    }
}

/// A result by the view of its value.
pub open spec fn result_view<R: View>(r: Result<R, StoreError>) -> Result<R::V, StoreError> {
    match r {
        Ok(v) => Ok(v@),
        Err(e) => Err(e),
    }
}

/// A list of results by the views of its values.
pub open spec fn results_view<R: View>(r: Result<Vec<R>, StoreError>) -> Result<
    Seq<R::V>,
    StoreError,
> {
    match r {
        Ok(v) => Ok(views(v@)),
        Err(e) => Err(e),
    }
}

/// Reads the rows `lo..hi` by `read`, which reads a row as `g` says; stops at
/// the first failure.
pub fn read_rows<T: View, R: View, F: Fn(&T) -> Result<R, StoreError>>(
    rows: &Vec<&T>,
    lo: usize,
    hi: usize,
    read: F,
    Ghost(g): Ghost<spec_fn(T::V) -> Result<R::V, StoreError>>,
) -> (r: Result<Vec<R>, StoreError>)
    requires
        lo <= hi <= rows.len(),
        forall|t: &T| call_requires(read, (t,)),
        forall|t: &T, out: Result<R, StoreError>| #[trigger]
            call_ensures(read, (t,), out) ==> result_view(out) == g(t@),
    ensures
        results_view(r) == read_all(views(rows@).subrange(lo as int, hi as int), g),
{
    let ghost all = views(rows@).subrange(lo as int, hi as int);
    let mut out: Vec<R> = Vec::new();
    let mut i: usize = lo;
    assert(views(out@) =~= Seq::empty());
    while i < hi
        invariant
            lo <= i <= hi <= rows.len(),
            all == views(rows@).subrange(lo as int, hi as int),
            forall|t: &T| call_requires(read, (t,)),
            forall|t: &T, out: Result<R, StoreError>| #[trigger]
                call_ensures(read, (t,), out) ==> result_view(out) == g(t@),
            read_all(all.take(i - lo), g) == Ok::<Seq<R::V>, StoreError>(views(out@)),
        decreases hi - i,
    {
        proof {
            lemma_read_all_step(all, i - lo, g);
            assert(all[i - lo] == rows@[i as int]@);
        }
        match read(rows[i]) {
            Ok(v) => {
                let ghost before = views(out@);
                out.push(v);
                assert(views(out@) =~= before.push(v@));
            },
            Err(e) => {
                proof {
                    lemma_read_all_fails(all, i + 1 - lo, g);
                }
                return Err(e);
            },
        }
        i += 1;
    }
    assert(all.take(all.len() as int) =~= all);
    Ok(out)
}

/// Every element by `g`.
pub open spec fn mapped<A, B>(s: Seq<A>, g: spec_fn(A) -> B) -> Seq<B> {
    Seq::new(s.len(), |i: int| g(s[i]))
}

/// Renders every item by `render`, which renders an item as `g` says.
pub fn render_all<T: View, R: View, F: Fn(&T) -> R>(
    items: &[T],
    render: F,
    Ghost(g): Ghost<spec_fn(T::V) -> R::V>,
) -> (r: Vec<R>)
    requires
        forall|t: &T| call_requires(render, (t,)),
        forall|t: &T, out: R| #[trigger] call_ensures(render, (t,), out) ==> out@ == g(t@),
    ensures
        views(r@) == mapped(views(items@), g),
{
    let ghost all = mapped(views(items@), g);
    let mut out: Vec<R> = Vec::new();
    let mut i: usize = 0;
    while i < items.len()
        invariant
            i <= items.len(),
            all == mapped(views(items@), g),
            forall|t: &T| call_requires(render, (t,)),
            forall|t: &T, out: R| #[trigger] call_ensures(render, (t,), out) ==> out@ == g(t@),
            views(out@) == all.take(i as int),
        decreases items.len() - i,
    {
        let ghost before = views(out@);
        let v = render(&items[i]);
        out.push(v);
        proof {
            assert(views(out@) =~= before.push(v@));
            assert(views(out@) =~= all.take(i + 1));
        }
        i += 1;
    }
    assert(all.take(all.len() as int) =~= all);
    out
}

/// The bounds of a page in a listing of `len` rows.
pub fn page_bounds(len: usize, limit: u32, offset: u32) -> (r: (usize, usize))
    ensures
        r.0 <= r.1 <= len,
        r.0 == if offset <= len { offset as int } else { len as int },
        r.1 == if r.0 + limit <= len { r.0 + limit } else { len as int },
{
    let lo: usize = if (offset as u64) < len as u64 {
        offset as usize
    } else {
        len
    };
    let hi: usize = if (len - lo) as u64 > limit as u64 {
        lo + limit as usize
    } else {
        len
    };
    (lo, hi)
}

/// The bounds cut the page out of the listing.
pub proof fn lemma_page_bounds<T>(s: Seq<T>, limit: u32, offset: u32, lo: int, hi: int)
    requires
        lo == if offset <= s.len() { offset as int } else { s.len() as int },
        hi == if lo + limit <= s.len() { lo + limit } else { s.len() as int },
    ensures
        s.subrange(lo, hi) == page(s, limit as nat, offset as nat),
{
    assert(s.subrange(lo, hi) =~= page(s, limit as nat, offset as nat));
}

/// A copy with the same contents.
pub trait Duplicate: View + Sized {
    fn duplicate(&self) -> (r: Self)
        ensures
            r@ == self@,
    ;
}

} // verus!
