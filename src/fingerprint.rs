//! Content fingerprints: BLAKE3 over a bounded prefix (the quick fingerprint)
//! or over the whole content (the full fingerprint), fed chunk by chunk so that
//! memory stays bounded by the chunk size.
//!
//! The reader of the file asks `wanted` how many bytes to read next, hands what
//! it read to `absorb`, and stops when `wanted` says zero or the file ends.

use vstd::prelude::*;

verus! {

/// The smallest quick-fingerprint sample: 1 KiB.
pub const MIN_QUICK_BYTES: u64 = 1024;

/// The largest quick-fingerprint sample: 1 GiB.
pub const MAX_QUICK_BYTES: u64 = 1073741824;

#[verifier::external_type_specification]
#[verifier::external_body]
pub struct ExHasher(blake3::Hasher);

/// The bytes fed so far into a BLAKE3 hasher.
pub uninterp spec fn hashed_input(h: blake3::Hasher) -> Seq<u8>;

/// The 32-byte BLAKE3 hash of `data`.
pub uninterp spec fn blake3_of(data: Seq<u8>) -> Seq<u8>;

/// Relies on blake3::Hasher::new: a hasher for the regular hash function that
/// has been fed nothing.
#[verifier::external_body]
fn fresh_hasher() -> (r: blake3::Hasher)
    ensures
        hashed_input(r) == Seq::<u8>::empty(),
{
    blake3::Hasher::new()
}

/// Relies on blake3::Hasher::update: appends `data` to the input of a hasher
/// made by `Hasher::new` (which does not panic for such a hasher).
#[verifier::external_body]
fn feed(h: &mut blake3::Hasher, data: &[u8])
    ensures
        hashed_input(*final(h)) == hashed_input(*old(h)) + data@,
{
    h.update(data);
}

/// Relies on blake3::Hasher::finalize and blake3::Hash::as_bytes: the 32-byte
/// hash of everything fed so far (the hasher is left as it is).
#[verifier::external_body]
fn finalize_bytes(h: &blake3::Hasher) -> (r: Vec<u8>)
    ensures
        r@ == blake3_of(hashed_input(*h)),
        r@.len() == 32,
{
    h.finalize().as_bytes().to_vec()
}

/// `limit` clamped into [1 KiB, 1 GiB].
pub open spec fn clamped(limit: u64) -> u64 {
    if limit < MIN_QUICK_BYTES {
        MIN_QUICK_BYTES
    } else if limit > MAX_QUICK_BYTES {
        MAX_QUICK_BYTES
    } else {
        limit
    }
}

/// The quick-fingerprint sample size actually used: `limit` clamped into
/// [1 KiB, 1 GiB]; a value out of range is not an error.
pub fn clamp_quick_bytes(limit: u64) -> (r: u64)
    ensures
        r == clamped(limit),
{
    if limit < MIN_QUICK_BYTES {
        MIN_QUICK_BYTES
    } else if limit > MAX_QUICK_BYTES {
        MAX_QUICK_BYTES
    } else {
        limit
    }
}

/// A fingerprint being computed over at most `budget` more bytes.
pub struct Fingerprinter {
    hasher: blake3::Hasher,
    budget: u64,
    limit: Ghost<u64>,
}

impl Fingerprinter {
    /// The bytes absorbed so far.
    pub closed spec fn absorbed(&self) -> Seq<u8> {
        hashed_input(self.hasher)
    }

    /// How many more bytes may be absorbed.
    pub closed spec fn remaining(&self) -> u64 {
        self.budget
    }

    /// The number of bytes this fingerprint covers at most.
    pub closed spec fn limit(&self) -> u64 {
        self.limit@
    }

    pub closed spec fn wf(&self) -> bool {
        self.absorbed().len() + self.budget == self.limit@
    }

    /// A fingerprint over at most the first `limit` bytes.
    pub fn prefix(limit: u64) -> (r: Self)
        ensures
            r.wf(),
            r.absorbed() == Seq::<u8>::empty(),
            r.remaining() == limit,
            r.limit() == limit,
    {
        Fingerprinter { hasher: fresh_hasher(), budget: limit, limit: Ghost(limit) }
    }

    /// A quick fingerprint over the first `limit` bytes, with `limit` clamped
    /// into [1 KiB, 1 GiB].
    pub fn quick(limit: u64) -> (r: Self)
        ensures
            r.wf(),
            r.absorbed() == Seq::<u8>::empty(),
            r.limit() == clamped(limit),
            MIN_QUICK_BYTES <= r.limit() <= MAX_QUICK_BYTES,
    {
        Self::prefix(clamp_quick_bytes(limit))
    }

    /// A full fingerprint over the whole content (any file size fits `u64`).
    pub fn full() -> (r: Self)
        ensures
            r.wf(),
            r.absorbed() == Seq::<u8>::empty(),
            r.limit() == u64::MAX,
    {
        Self::prefix(u64::MAX)
    }

    /// How many bytes to read next into a buffer of `buf_len` bytes: zero once
    /// the limit is reached.
    pub fn wanted(&self, buf_len: usize) -> (r: usize)
        ensures
            r <= buf_len,
            r <= self.remaining(),
            r == buf_len || r == self.remaining(),
            r == 0 <==> (buf_len == 0 || self.remaining() == 0),
    {
        if (buf_len as u64) < self.budget {
            buf_len
        } else {
            self.budget as usize
        }
    }

    /// Feeds the next chunk read from the content.
    pub fn absorb(&mut self, chunk: &[u8])
        requires
            old(self).wf(),
            chunk@.len() <= old(self).remaining(),
        ensures
            final(self).wf(),
            final(self).absorbed() == old(self).absorbed() + chunk@,
            final(self).remaining() == old(self).remaining() - chunk@.len(),
            final(self).limit() == old(self).limit(),
    {
        feed(&mut self.hasher, chunk);
        self.budget = self.budget - chunk.len() as u64;
    }

    /// The fingerprint of everything absorbed: the BLAKE3 hash of those bytes.
    pub fn finish(&self) -> (r: Vec<u8>)
        ensures
            r@ == blake3_of(self.absorbed()),
            r@.len() == 32,
    {
        finalize_bytes(&self.hasher)
    }
}

/// Equal content gives equal fingerprints: the fingerprint is a function of
/// the bytes absorbed alone.
pub proof fn lemma_equal_content_equal_print(a: Fingerprinter, b: Fingerprinter)
    requires
        a.absorbed() == b.absorbed(),
    ensures
        blake3_of(a.absorbed()) == blake3_of(b.absorbed()),
{
}

} // verus!
