//! Text and byte-string helpers: equality, the order of names, prefixes.

use vstd::prelude::*;
use vstd::string::*;

verus! {

/// Whether `s` begins with `prefix`.
pub open spec fn has_prefix<T>(s: Seq<T>, prefix: Seq<T>) -> bool {
    s.len() >= prefix.len() && s.take(prefix.len() as int) == prefix
}

/// Dictionary order by Unicode scalar value, a proper prefix first. For UTF-8
/// text this is also the order of the bytes.
pub open spec fn text_le(a: Seq<char>, b: Seq<char>) -> bool
    decreases a.len(),
{
    a.len() == 0 || (b.len() > 0 && (a[0] < b[0] || (a[0] == b[0] && text_le(a.skip(1), b.skip(1)))))
}

pub proof fn lemma_text_le_total(a: Seq<char>, b: Seq<char>)
    ensures
        text_le(a, b) || text_le(b, a),
        text_le(a, b) && text_le(b, a) ==> a == b,
    decreases a.len(),
{
    if a.len() > 0 && b.len() > 0 && a[0] == b[0] {
        lemma_text_le_total(a.skip(1), b.skip(1));
        if a.skip(1) == b.skip(1) {
            assert(a =~= seq![a[0]] + a.skip(1));
            assert(b =~= seq![b[0]] + b.skip(1));
        }
    }
    if a.len() == 0 && b.len() == 0 {
        assert(a =~= b);
    }
}

pub proof fn lemma_text_le_transitive(a: Seq<char>, b: Seq<char>, c: Seq<char>)
    requires
        text_le(a, b),
        text_le(b, c),
    ensures
        text_le(a, c),
    decreases a.len(),
{
    if a.len() > 0 && b.len() > 0 && c.len() > 0 && a[0] == b[0] && b[0] == c[0] {
        lemma_text_le_transitive(a.skip(1), b.skip(1), c.skip(1));
    }
}

/// One text comes before another where they agree up to some position at which
/// the first ends, or has the lesser character.
pub proof fn law_texts_in_dictionary_order(a: Seq<char>, b: Seq<char>)
    ensures
        text_le(a, b) <==> exists|k: int|
            0 <= k <= a.len() && k <= b.len() && #[trigger] a.take(k) == b.take(k) && (k == a.len() || (k
                < b.len() && a[k] < b[k])),
    decreases a.len(),
{
    if a.len() == 0 {
        assert(a.take(0) =~= b.take(0));
    } else if b.len() > 0 {
        let x = a.skip(1);
        let y = b.skip(1);
        law_texts_in_dictionary_order(x, y);
        if a[0] < b[0] {
            assert(a.take(0) =~= b.take(0));
        }
        if a[0] == b[0] && text_le(x, y) {
            let k = choose|k: int|
                0 <= k <= x.len() && k <= y.len() && #[trigger] x.take(k) == y.take(k) && (k == x.len() || (
                k < y.len() && x[k] < y[k]));
            assert(a.take(k + 1) =~= seq![a[0]] + x.take(k));
            assert(b.take(k + 1) =~= seq![b[0]] + y.take(k));
            assert(a.take(k + 1) == b.take(k + 1));
        }
        if exists|k: int|
            0 <= k <= a.len() && k <= b.len() && #[trigger] a.take(k) == b.take(k) && (k == a.len() || (k
                < b.len() && a[k] < b[k])) {
            let k = choose|k: int|
                0 <= k <= a.len() && k <= b.len() && #[trigger] a.take(k) == b.take(k) && (k == a.len() || (
                k < b.len() && a[k] < b[k]));
            if k > 0 {
                assert(a.take(k)[0] == b.take(k)[0]);
                assert(x.take(k - 1) =~= a.take(k).skip(1));
                assert(y.take(k - 1) =~= b.take(k).skip(1));
                assert(x.take(k - 1) == y.take(k - 1));
            }
        }
    }
}

/// Names in the unified-address namespace: `u1…` on the main network,
/// `utest1…` on the test network.
pub open spec fn in_ua_namespace(name: Seq<char>) -> bool {
    has_prefix(name, "u1"@) || has_prefix(name, "utest1"@)
}

/// The namespace holds the texts that begin `u1` or `utest1`.
pub proof fn law_address_namespace(name: Seq<char>)
    ensures
        in_ua_namespace(name) <==> (name.len() >= 2 && name[0] == 'u' && name[1] == '1') || (name.len() >= 6
            && name[0] == 'u' && name[1] == 't' && name[2] == 'e' && name[3] == 's' && name[4] == 't'
            && name[5] == '1'),
{
    reveal_strlit("u1");
    reveal_strlit("utest1");
    if name.len() >= 2 {
        assert(name.take(2)[0] == name[0] && name.take(2)[1] == name[1]);
        assert(name[0] == 'u' && name[1] == '1' ==> name.take(2) =~= "u1"@);
    }
    if name.len() >= 6 {
        let t = name.take(6);
        assert(t[0] == name[0] && t[1] == name[1] && t[2] == name[2] && t[3] == name[3] && t[4] == name[4]
            && t[5] == name[5]);
        assert(name[0] == 'u' && name[1] == 't' && name[2] == 'e' && name[3] == 's' && name[4] == 't'
            && name[5] == '1' ==> t =~= "utest1"@);
    }
}

pub fn bytes_eq(a: &[u8], b: &[u8]) -> (r: bool)
    ensures
        r == (a@ == b@),
{
    if a.len() != b.len() {
        return false;
    }
    let mut i: usize = 0;
    while i < a.len()
        invariant
            a.len() == b.len(),
            i <= a.len(),
            forall|j: int| 0 <= j < i ==> a@[j] == b@[j],
        decreases a.len() - i,
    {
        if a[i] != b[i] {
            return false;
        }
        i += 1;
    }
    assert(a@ =~= b@);
    true
}

pub fn eq32(a: &[u8; 32], b: &[u8; 32]) -> (r: bool)
    ensures
        r == (*a == *b),
{
    let mut i: usize = 0;
    while i < 32
        invariant
            i <= 32,
            forall|j: int| 0 <= j < i ==> a@[j] == b@[j],
        decreases 32 - i,
    {
        if a[i] != b[i] {
            return false;
        }
        i += 1;
    }
    assert(*a =~= *b);
    true
}

pub fn text_eq(a: &str, b: &str) -> (r: bool)
    ensures
        r == (a@ == b@),
{
    a.to_owned() == b.to_owned()
}

/// Whether `a` comes before `b`, or is `b`, in dictionary order.
pub fn text_before(a: &str, b: &str) -> (r: bool)
    ensures
        r == text_le(a@, b@),
{
    let n: usize = a.unicode_len();
    let m: usize = b.unicode_len();
    let mut i: usize = 0;
    assert(a@.skip(0) =~= a@ && b@.skip(0) =~= b@);
    while i < n
        invariant
            n == a@.len(),
            m == b@.len(),
            i <= n,
            i <= m,
            text_le(a@, b@) == text_le(a@.skip(i as int), b@.skip(i as int)),
        decreases n - i,
    {
        proof {
            assert(a@.skip(i as int).skip(1) =~= a@.skip(i + 1));
            if i < m {
                assert(b@.skip(i as int).skip(1) =~= b@.skip(i + 1));
            }
        }
        if i >= m {
            return false;
        }
        let x: char = a.get_char(i);
        let y: char = b.get_char(i);
        if x < y {
            return true;
        }
        if x != y {
            return false;
        }
        i += 1;
    }
    true
}

pub fn starts_with(s: &str, prefix: &str) -> (r: bool)
    ensures
        r == has_prefix(s@, prefix@),
{
    let n: usize = s.unicode_len();
    let m: usize = prefix.unicode_len();
    if n < m {
        return false;
    }
    let mut i: usize = 0;
    while i < m
        invariant
            n == s@.len(),
            m == prefix@.len(),
            m <= n,
            i <= m,
            forall|j: int| 0 <= j < i ==> s@[j] == prefix@[j],
        decreases m - i,
    {
        if s.get_char(i) != prefix.get_char(i) {
            assert(s@.take(m as int)[i as int] != prefix@[i as int]);
            return false;
        }
        i += 1;
    }
    assert(s@.take(m as int) =~= prefix@);
    true
}

/// Whether `name` lives in the unified-address namespace and could therefore
/// shadow a reverse lookup: the `ua` column only ever holds unified addresses,
/// so these are the only colliding prefixes.
pub fn shadows_ua_namespace(name: &str) -> (r: bool)
    ensures
        r == in_ua_namespace(name@),
{
    starts_with(name, "u1") || starts_with(name, "utest1")
}

pub fn copy_bytes(b: &[u8]) -> (r: Vec<u8>)
    ensures
        r@ == b@,
{
    let mut out: Vec<u8> = Vec::new();
    let mut i: usize = 0;
    while i < b.len()
        invariant
            i <= b.len(),
            out@ == b@.take(i as int),
        decreases b.len() - i,
    {
        out.push(b[i]);
        i += 1;
        assert(out@ =~= b@.take(i as int));
    }
    assert(b@.take(b.len() as int) =~= b@);
    out
}

/// A 32-byte array out of a byte string of that length.
pub fn to_array32(b: &[u8]) -> (r: Option<[u8; 32]>)
    ensures
        r == as_array32(b@),
{
    if b.len() != 32 {
        return None;
    }
    let mut out: [u8; 32] = [0u8; 32];
    let mut i: usize = 0;
    while i < 32
        invariant
            i <= 32,
            b.len() == 32,
            forall|j: int| 0 <= j < i ==> out@[j] == b@[j],
        decreases 32 - i,
    {
        out[i] = b[i];
        i += 1;
    }
    proof {
        assert(out@ =~= b@);
        lemma_as_array32(out);
    }
    Some(out)
}

/// The 32-byte array with the contents `b`, where `b` is that long.
pub open spec fn as_array32(b: Seq<u8>) -> Option<[u8; 32]> {
    if b.len() == 32 {
        Some(choose|a: [u8; 32]| #[trigger] a@ == b)
    } else {
        None
    }
}

/// An array's contents determine it.
pub proof fn lemma_as_array32(a: [u8; 32])
    ensures
        as_array32(a@) == Some(a),
{
    let c = choose|c: [u8; 32]| #[trigger] c@ == a@;
    assert(a@ == a@);
    assert(c =~= a);
}

/// A byte string of 32 bytes is the contents of its array.
pub proof fn lemma_array32_of(b: Seq<u8>)
    ensures
        as_array32(b) matches Some(a) ==> a@ == b,
{
    if b.len() == 32 {
        lemma_filled(b, 32);
        assert(filled(b, 32)@ =~= b);
    }
}

/// An array that begins with the first `n` bytes of `b`.
spec fn filled(b: Seq<u8>, n: nat) -> [u8; 32]
    decreases n,
{
    if n == 0 {
        arbitrary()
    } else {
        vstd::array::spec_array_update(filled(b, (n - 1) as nat), n - 1, b[n - 1])
    }
}

proof fn lemma_filled(b: Seq<u8>, n: nat)
    requires
        n <= 32,
        b.len() == 32,
    ensures
        forall|i: int| 0 <= i < n ==> #[trigger] filled(b, n)@[i] == b[i],
    decreases n,
{
    if n > 0 {
        lemma_filled(b, (n - 1) as nat);
        let before = filled(b, (n - 1) as nat);
        assert(filled(b, n)@ == before@.update(n - 1, b[n - 1]));
        assert forall|i: int| 0 <= i < n implies #[trigger] filled(b, n)@[i] == b[i] by {
            if i < n - 1 {
                assert(before@[i] == b[i]);
            }
        }
    }
}

} // verus!
