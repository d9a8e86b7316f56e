//! Path logic on byte-string paths: containment in a directory, relative
//! paths, and base names. Paths are plain byte strings with `/` (byte 47) as
//! the separator and no trailing separator.

use vstd::prelude::*;

verus! {

/// The path separator.
pub open spec fn sep() -> u8 {
    47
}

/// Whether path `p` lies within directory `d`: it is `d` itself, or `d`
/// followed by a separator and more.
pub open spec fn is_under(p: Seq<u8>, d: Seq<u8>) -> bool {
    p == d || (p.len() > d.len() && p.take(d.len() as int) == d && p[d.len() as int] == sep())
}

/// Whether path `p` lies strictly within directory `d`, with a nonempty
/// remainder after the separator.
pub open spec fn strictly_under(p: Seq<u8>, d: Seq<u8>) -> bool {
    p.len() > d.len() + 1 && p.take(d.len() as int) == d && p[d.len() as int] == sep()
}

/// The path `p` relative to directory `d`: what follows `d` and the
/// separator.
pub open spec fn rel_to(p: Seq<u8>, d: Seq<u8>) -> Seq<u8>
    recommends
        strictly_under(p, d),
{
    p.skip(d.len() as int + 1)
}

/// Whether path `p` lies within directory `d`.
pub fn is_under_dir(p: &Vec<u8>, d: &Vec<u8>) -> (r: bool)
    ensures
        r == is_under(p@, d@),
{
    if crate::bytes::bytes_eq(p, d) {
        return true;
    }
    if p.len() <= d.len() {
        return false;
    }
    if p[d.len()] != 47 {
        return false;
    }
    let n = d.len();
    let mut i: usize = 0;
    while i < n
        invariant
            n == d@.len(),
            n < p@.len(),
            0 <= i <= n,
            forall|j: int| 0 <= j < i ==> p@[j] == d@[j],
        decreases n - i,
    {
        if p[i] != d[i] {
            assert(p@.take(n as int)[i as int] != d@[i as int]);
            return false;
        }
        i += 1;
    }
    assert(p@.take(n as int) =~= d@);
    true
}

/// The path `p` relative to directory `d`.
pub fn rel_to_dir(p: &Vec<u8>, d: &Vec<u8>) -> (r: Vec<u8>)
    requires
        strictly_under(p@, d@),
    ensures
        r@ == rel_to(p@, d@),
{
    let mut r: Vec<u8> = Vec::new();
    let n = p.len();
    let mut i: usize = d.len() + 1;
    while i < n
        invariant
            n == p@.len(),
            d@.len() + 1 <= i <= n,
            r@ == p@.subrange(d@.len() as int + 1, i as int),
        decreases n - i,
    {
        r.push(p[i]);
        assert(r@ =~= p@.subrange(d@.len() as int + 1, i + 1));
        i += 1;
    }
    assert(r@ =~= p@.skip(d@.len() as int + 1));
    r
}

/// The start of the base name: one past the last separator, or 0 when the
/// path holds none.
pub open spec fn basename_start(p: Seq<u8>) -> int
    decreases p.len(),
{
    if p.len() == 0 {
        0
    } else if p.last() == sep() {
        p.len() as int
    } else {
        basename_start(p.drop_last())
    }
}

/// The base name of a path: everything after the last separator.
pub open spec fn basename_of(p: Seq<u8>) -> Seq<u8> {
    p.skip(basename_start(p))
}

/// The base name of a path.
pub fn basename(p: &Vec<u8>) -> (r: Vec<u8>)
    ensures
        r@ == basename_of(p@),
{
    let n = p.len();
    let mut s: usize = n;
    assert(p@.take(n as int) =~= p@);
    while s > 0 && p[s - 1] != 47
        invariant
            n == p@.len(),
            0 <= s <= n,
            basename_start(p@) == basename_start(p@.take(s as int)),
            forall|j: int| s <= j < n ==> p@[j] != sep(),
        decreases s,
    {
        proof {
            let t = p@.take(s as int);
            assert(t.last() == p@[s - 1]);
            assert(t.drop_last() =~= p@.take(s - 1));
        }
        s -= 1;
    }
    proof {
        if s == 0 {
            assert(p@.take(0) =~= Seq::<u8>::empty());
            assert(basename_start(p@) == 0);
        } else {
            let t = p@.take(s as int);
            assert(t.last() == p@[s - 1]);
            assert(basename_start(t) == s as int);
        }
    }
    let mut r: Vec<u8> = Vec::new();
    let mut i: usize = s;
    while i < n
        invariant
            n == p@.len(),
            s <= i <= n,
            r@ == p@.subrange(s as int, i as int),
        decreases n - i,
    {
        r.push(p[i]);
        assert(r@ =~= p@.subrange(s as int, i + 1));
        i += 1;
    }
    assert(r@ =~= p@.skip(s as int));
    r
}

} // verus!
