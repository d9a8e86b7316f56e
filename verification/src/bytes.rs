//! Byte-string helpers: views of vectors of byte strings, equality,
//! byte-lexicographic order, and concatenation.

use vstd::prelude::*;

verus! {

/// The mathematical view of a vector of byte strings.
pub open spec fn views_of(s: Seq<Vec<u8>>) -> Seq<Seq<u8>> {
    Seq::new(s.len(), |i: int| s[i]@)
}

/// Pushing a vector appends its view.
pub proof fn lemma_views_of_push(s: Seq<Vec<u8>>, x: Vec<u8>)
    ensures
        views_of(s.push(x)) == views_of(s) + seq![x@],
{
    assert forall|j: int| 0 <= j < s.len() + 1 implies views_of(s.push(x))[j] == (views_of(s)
        + seq![x@])[j] by {
        if j < s.len() {
            assert(s.push(x)[j] == s[j]);
        } else {
            assert(s.push(x)[j] == x);
        }
    }
    assert(views_of(s.push(x)) =~= views_of(s) + seq![x@]);
}

/// Byte-lexicographic "less than or equal" on byte strings: a prefix comes
/// before every extension of it, and otherwise the first differing byte
/// decides.
pub open spec fn lex_le(a: Seq<u8>, b: Seq<u8>) -> bool
    decreases a.len(),
{
    if a.len() == 0 {
        true
    } else if b.len() == 0 {
        false
    } else if a[0] < b[0] {
        true
    } else if a[0] > b[0] {
        false
    } else {
        lex_le(a.drop_first(), b.drop_first())
    }
}

/// The order is total: of any two byte strings, one comes no later than the
/// other.
pub proof fn lemma_lex_le_total(a: Seq<u8>, b: Seq<u8>)
    ensures
        lex_le(a, b) || lex_le(b, a),
    decreases a.len(),
{
    if a.len() != 0 && b.len() != 0 && a[0] == b[0] {
        lemma_lex_le_total(a.drop_first(), b.drop_first());
    }
}

/// Whether two byte vectors hold the same bytes.
pub fn bytes_eq(a: &Vec<u8>, b: &Vec<u8>) -> (r: bool)
    ensures
        r == (a@ == b@),
{
    if a.len() != b.len() {
        assert(a@ != b@);
        return false;
    }
    let n = a.len();
    let mut i: usize = 0;
    while i < n
        invariant
            n == a@.len() == b@.len(),
            0 <= i <= n,
            forall|j: int| 0 <= j < i ==> a@[j] == b@[j],
        decreases n - i,
    {
        if a[i] != b[i] {
            return false;
        }
        i += 1;
    }
    assert(a@ =~= b@);
    true
}

/// Byte-lexicographic comparison of two byte vectors.
pub fn lex_le_bytes(a: &Vec<u8>, b: &Vec<u8>) -> (r: bool)
    ensures
        r == lex_le(a@, b@),
{
    let mut i: usize = 0;
    assert(a@.skip(0) =~= a@);
    assert(b@.skip(0) =~= b@);
    loop
        invariant
            0 <= i <= a@.len(),
            0 <= i <= b@.len(),
            lex_le(a@, b@) == lex_le(a@.skip(i as int), b@.skip(i as int)),
        decreases a@.len() - i,
    {
        if i >= a.len() {
            assert(a@.skip(i as int).len() == 0);
            return true;
        }
        if i >= b.len() {
            assert(b@.skip(i as int).len() == 0);
            assert(a@.skip(i as int).len() > 0);
            return false;
        }
        let x = a[i];
        let y = b[i];
        assert(a@.skip(i as int)[0] == a@[i as int]);
        assert(b@.skip(i as int)[0] == b@[i as int]);
        if x < y {
            return true;
        }
        if x > y {
            return false;
        }
        assert(a@.skip(i as int).drop_first() =~= a@.skip(i + 1));
        assert(b@.skip(i as int).drop_first() =~= b@.skip(i + 1));
        i += 1;
    }
}

/// The concatenation of two byte vectors.
pub fn append_bytes(a: &Vec<u8>, b: &Vec<u8>) -> (r: Vec<u8>)
    ensures
        r@ == a@ + b@,
{
    let mut r: Vec<u8> = Vec::new();
    let an = a.len();
    let mut i: usize = 0;
    while i < an
        invariant
            an == a@.len(),
            0 <= i <= an,
            r@ == a@.take(i as int),
        decreases an - i,
    {
        r.push(a[i]);
        assert(r@ =~= a@.take(i + 1));
        i += 1;
    }
    assert(r@ =~= a@);
    let bn = b.len();
    let mut j: usize = 0;
    while j < bn
        invariant
            bn == b@.len(),
            0 <= j <= bn,
            r@ == a@ + b@.take(j as int),
        decreases bn - j,
    {
        r.push(b[j]);
        assert(r@ =~= a@ + b@.take(j + 1));
        j += 1;
    }
    assert(r@ =~= a@ + b@);
    r
}

/// Whether some element of `haystack` holds the same bytes as `needle`.
pub fn contains_bytes(haystack: &Vec<Vec<u8>>, needle: &Vec<u8>) -> (r: bool)
    ensures
        r == views_of(haystack@).contains(needle@),
{
    let n = haystack.len();
    let mut i: usize = 0;
    while i < n
        invariant
            n == haystack@.len(),
            0 <= i <= n,
            forall|j: int| 0 <= j < i ==> views_of(haystack@)[j] != needle@,
        decreases n - i,
    {
        if bytes_eq(&haystack[i], needle) {
            assert(views_of(haystack@)[i as int] == needle@);
            return true;
        }
        i += 1;
    }
    false
}

} // verus!
