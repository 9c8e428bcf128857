//! 64-bit FNV-1a content hash with incremental updates.
//!
//! The digest over a byte sequence is the same whether the bytes are fed in
//! one call or split across many, which is what lets both ends of the patch
//! pipeline hash multi-gigabyte files chunk by chunk.

use vstd::prelude::*;

verus! {

/// FNV-1a 64-bit offset basis.
pub const FNV_OFFSET: u64 = 0xcbf29ce484222325;

/// FNV-1a 64-bit prime.
pub const FNV_PRIME: u64 = 0x100000001b3;

/// One FNV-1a step: fold a byte into the running hash.
pub open spec fn fnv1a_step(h: u64, byte: u8) -> u64 {
    vstd::wrapping::u64_specs::wrapping_mul(h ^ (byte as u64), FNV_PRIME)
}

/// Running FNV-1a hash after feeding `data` on top of the state `h`.
pub open spec fn fnv1a_from(h: u64, data: Seq<u8>) -> u64
    decreases data.len(),
{
    if data.len() == 0 {
        h
    } else {
        fnv1a_from(fnv1a_step(h, data[0]), data.drop_first())
    }
}

/// FNV-1a digest of a whole byte sequence.
pub open spec fn fnv1a(data: Seq<u8>) -> u64 {
    fnv1a_from(FNV_OFFSET, data)
}

/// Feeding a concatenation equals feeding the parts in order: the digest
/// depends only on the bytes, not on how they are split into chunks.
pub proof fn lemma_fnv1a_concat(h: u64, a: Seq<u8>, b: Seq<u8>)
    ensures
        fnv1a_from(h, a + b) == fnv1a_from(fnv1a_from(h, a), b),
    decreases a.len(),
{
    if a.len() == 0 {
        assert(a + b =~= b);
    } else {
        assert((a + b).drop_first() =~= a.drop_first() + b);
        lemma_fnv1a_concat(fnv1a_step(h, a[0]), a.drop_first(), b);
    }
}

/// Feeding one more byte advances the running hash by one step.
pub proof fn lemma_fnv1a_push(h: u64, data: Seq<u8>, byte: u8)
    ensures
        fnv1a_from(h, data.push(byte)) == fnv1a_step(fnv1a_from(h, data), byte),
    decreases data.len(),
{
    let s = data.push(byte);
    if data.len() == 0 {
        assert(s[0] == byte);
        assert(s.drop_first() =~= Seq::<u8>::empty());
        assert(fnv1a_from(h, s) == fnv1a_from(fnv1a_step(h, byte), s.drop_first()));
        assert(fnv1a_from(fnv1a_step(h, byte), s.drop_first()) == fnv1a_step(h, byte));
        assert(fnv1a_from(h, data) == h);
    } else {
        assert(s[0] == data[0]);
        assert(s.drop_first() =~= data.drop_first().push(byte));
        assert(fnv1a_from(h, s) == fnv1a_from(fnv1a_step(h, data[0]), s.drop_first()));
        lemma_fnv1a_push(fnv1a_step(h, data[0]), data.drop_first(), byte);
        assert(fnv1a_from(h, data) == fnv1a_from(fnv1a_step(h, data[0]), data.drop_first()));
    }
}

/// Compute the FNV-1a digest of `data` in one call.
pub fn calculate_hash(data: &[u8]) -> (hash: u64)
    ensures
        hash == fnv1a(data@),
{
    let mut hash: u64 = FNV_OFFSET;
    let mut i: usize = 0;
    while i < data.len()
        invariant
            i <= data.len(),
            hash == fnv1a_from(FNV_OFFSET, data@.take(i as int)),
        decreases data.len() - i,
    {
        proof {
            lemma_fnv1a_push(FNV_OFFSET, data@.take(i as int), data@[i as int]);
            assert(data@.take(i as int).push(data@[i as int]) =~= data@.take(i + 1));
        }
        hash = (hash ^ (data[i] as u64)).wrapping_mul(FNV_PRIME);
        i = i + 1;
    }
    proof {
        assert(data@.take(data@.len() as int) =~= data@);
    }
    hash
}

/// Incremental FNV-1a hasher: feed chunks with `update`, read the digest with
/// `finalize`.
pub struct HashBuilder {
    hash: u64,
    processed: Ghost<Seq<u8>>,
}

impl HashBuilder {
    /// All bytes fed to the builder so far, in order.
    pub closed spec fn bytes(self) -> Seq<u8> {
        self.processed@
    }

    /// The running hash always equals the FNV-1a digest of the bytes fed.
    pub closed spec fn wf(self) -> bool {
        self.hash == fnv1a(self.processed@)
    }

    /// A fresh builder over the empty sequence.
    pub fn new() -> (r: Self)
        ensures
            r.wf(),
            r.bytes() == Seq::<u8>::empty(),
    {
        HashBuilder { hash: FNV_OFFSET, processed: Ghost(Seq::empty()) }
    }

    /// Fold a chunk into the running hash.
    pub fn update(&mut self, data: &[u8])
        requires
            old(self).wf(),
        ensures
            final(self).wf(),
            final(self).bytes() == old(self).bytes() + data@,
    {
        let ghost prior = self.processed@;
        let mut i: usize = 0;
        while i < data.len()
            invariant
                i <= data.len(),
                self.hash == fnv1a_from(fnv1a(prior), data@.take(i as int)),
                self.processed@ == prior,
            decreases data.len() - i,
        {
            proof {
                lemma_fnv1a_push(fnv1a(prior), data@.take(i as int), data@[i as int]);
                assert(data@.take(i as int).push(data@[i as int]) =~= data@.take(i + 1));
            }
            self.hash = (self.hash ^ (data[i] as u64)).wrapping_mul(FNV_PRIME);
            i = i + 1;
        }
        proof {
            assert(data@.take(data@.len() as int) =~= data@);
            lemma_fnv1a_concat(FNV_OFFSET, prior, data@);
        }
        self.processed = Ghost(prior + data@);
    }

    /// The digest of everything fed so far.
    pub fn finalize(&self) -> (hash: u64)
        requires
            self.wf(),
        ensures
            hash == fnv1a(self.bytes()),
    {
        self.hash
    }
}

impl Default for HashBuilder {
    /// Same as `new`: a fresh builder over the empty sequence.
    fn default() -> (r: Self)
        ensures
            r.wf(),
            r.bytes() == Seq::<u8>::empty(),
    {
        HashBuilder::new()
    }
}

} // verus!
