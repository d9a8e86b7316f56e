//! Content fingerprinting: a streaming wrapper around the `md5` crate.
//!
//! A fingerprint stands for a file's whole byte content; it is computed by
//! feeding the content through the digest in bounded chunks, so the file is
//! never held in memory at once. What the digest returns is named by the
//! uninterpreted function `md5_of`: the contracts of the verified code speak
//! of that name, never of the digest's internals.

use vstd::prelude::*;
use crate::bytes::views_of;

verus! {

#[verifier::external_type_specification]
#[verifier::external_body]
pub struct ExMd5Context(md5::Context);

/// The bytes a digest context has consumed so far.
pub uninterp spec fn digest_state(c: md5::Context) -> Seq<u8>;

/// The 16-byte digest of a byte string: a function of the bytes alone, the
/// same in every process and on every machine.
pub uninterp spec fn md5_of(bytes: Seq<u8>) -> Seq<u8>;

/// Relies on md5::Context::new: a fresh context has consumed nothing.
#[verifier::external_body]
fn context_new() -> (c: md5::Context)
    ensures
        digest_state(c) == Seq::<u8>::empty(),
{
    md5::Context::new()
}

/// Relies on md5::Context::consume: it appends the given bytes to what the
/// context has consumed.
#[verifier::external_body]
fn context_consume(c: &mut md5::Context, data: &[u8])
    ensures
        digest_state(*final(c)) == digest_state(*old(c)) + data@,
{
    c.consume(data)
}

/// Relies on md5::Context::compute: it returns the 16-byte digest of all
/// consumed bytes, a function of those bytes alone.
#[verifier::external_body]
fn context_compute(c: md5::Context) -> (r: Vec<u8>)
    ensures
        r@ == md5_of(digest_state(c)),
        r@.len() == 16,
{
    c.compute().0.to_vec()
}

/// A streaming fingerprint computation: feed byte chunks in order, then take
/// the digest of their concatenation.
pub struct Fingerprinter {
    ctx: md5::Context,
}

impl Fingerprinter {
    /// The bytes fed so far.
    pub closed spec fn processed(self) -> Seq<u8> {
        digest_state(self.ctx)
    }

    pub fn new() -> (r: Self)
        ensures
            r.processed() == Seq::<u8>::empty(),
    {
        Fingerprinter { ctx: context_new() }
    }

    /// Feed one chunk of content.
    pub fn update(&mut self, chunk: &[u8])
        ensures
            final(self).processed() == old(self).processed() + chunk@,
    {
        context_consume(&mut self.ctx, chunk);
    }

    /// Finish and return the fingerprint of everything fed.
    pub fn finish(self) -> (r: Vec<u8>)
        ensures
            r@ == md5_of(self.processed()),
            r@.len() == 16,
    {
        context_compute(self.ctx)
    }
}

/// The concatenation of a sequence of byte strings.
pub open spec fn concat_chunks(chunks: Seq<Seq<u8>>) -> Seq<u8>
    decreases chunks.len(),
{
    if chunks.len() == 0 {
        Seq::empty()
    } else {
        concat_chunks(chunks.drop_last()) + chunks.last()
    }
}

/// The fingerprint of content given as a sequence of chunks: however the
/// content is split, the result is the digest of the concatenation.
pub fn fingerprint_chunks(chunks: &Vec<Vec<u8>>) -> (r: Vec<u8>)
    ensures
        r@ == md5_of(concat_chunks(views_of(chunks@))),
        r@.len() == 16,
{
    let mut fp = Fingerprinter::new();
    let n = chunks.len();
    let mut i: usize = 0;
    while i < n
        invariant
            n == chunks@.len(),
            0 <= i <= n,
            fp.processed() == concat_chunks(views_of(chunks@).take(i as int)),
        decreases n - i,
    {
        fp.update(chunks[i].as_slice());
        proof {
            let t = views_of(chunks@).take(i + 1);
            assert(t.drop_last() =~= views_of(chunks@).take(i as int));
            assert(t.last() == chunks@[i as int]@);
        }
        i += 1;
    }
    assert(views_of(chunks@).take(n as int) =~= views_of(chunks@));
    fp.finish()
}

} // verus!
