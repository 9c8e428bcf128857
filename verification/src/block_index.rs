//! Index from weak (rolling) hash to source block entries.
//!
//! Source bytes are fed in chunks; every complete, aligned block of
//! `block_size` bytes gets one entry holding its offset and its strong
//! (FNV-1a) hash.  The invariant ties the whole table to the indexed bytes:
//! every entry describes a real block, every block has its entry under its
//! weak hash, and chains keep insertion (= offset) order.

use crate::hash::{calculate_hash, fnv1a};
use crate::matcher::DEFAULT_CHUNK_SIZE;
use crate::rolling_hash::{weak_hash, RollingHash};
use std::collections::HashMap;
use vstd::prelude::*;
use vstd::slice::{slice_subrange, slice_to_vec};

verus! {

broadcast use vstd::std_specs::hash::group_hash_axioms;

/// One indexed source block: where it starts and its strong hash.
#[derive(Clone, Copy, Debug, PartialEq, Eq, Structural)]
pub struct BlockEntry {
    /// Offset of the block in the source, a multiple of the block size.
    pub offset: u64,
    /// FNV-1a digest of the block's bytes.
    pub strong_hash: u64,
}

/// The aligned block of `src` at block number `k`.
pub open spec fn block_of(src: Seq<u8>, bs: nat, k: int) -> Seq<u8> {
    src.subrange(k * bs, k * bs + bs)
}

/// An entry is true of `src`: it points at a whole aligned block whose
/// strong hash it holds, filed under that block's weak hash `h`.
pub open spec fn entry_ok(src: Seq<u8>, bs: nat, h: u32, e: BlockEntry) -> bool {
    &&& e.offset as int % bs as int == 0
    &&& e.offset + bs <= src.len()
    &&& e.strong_hash == fnv1a(src.subrange(e.offset as int, e.offset + bs))
    &&& weak_hash(src.subrange(e.offset as int, e.offset + bs)) == h
}

/// The table is sound (every entry is a true block entry under its key),
/// ordered (chains carry strictly increasing offsets) and complete (every
/// block of `src` appears in the chain of its weak hash).
pub open spec fn index_wf(m: Map<u32, Vec<BlockEntry>>, src: Seq<u8>, bs: nat) -> bool {
    &&& forall|h: u32| #[trigger] m.contains_key(h) ==> m[h]@.len() > 0
    &&& forall|h: u32, j: int|
        m.contains_key(h) && 0 <= j < m[h]@.len() ==> entry_ok(src, bs, h, #[trigger] m[h]@[j])
    &&& forall|h: u32, j1: int, j2: int|
        #![trigger m[h]@[j1], m[h]@[j2]]
        m.contains_key(h) && 0 <= j1 < j2 < m[h]@.len() ==> m[h]@[j1].offset < m[h]@[j2].offset
    &&& forall|k: int|
        0 <= k < src.len() as int / bs as int ==> {
            let h = weak_hash(#[trigger] block_of(src, bs, k));
            &&& m.contains_key(h)
            &&& exists|j: int| 0 <= j < m[h]@.len() && (#[trigger] m[h]@[j]).offset == k * bs
        }
}

/// Memory-efficient index over the source's aligned blocks.
pub struct BlockIndex {
    block_size: usize,
    index: HashMap<u32, Vec<BlockEntry>>,
    bytes_indexed: u64,
    pending: Vec<u8>,
    indexed: Ghost<Seq<u8>>,
}

impl BlockIndex {
    /// The block size the index was created with.
    pub closed spec fn bsize(self) -> nat {
        self.block_size as nat
    }

    /// The bytes whose complete blocks stand in the table.
    pub closed spec fn indexed_bytes(self) -> Seq<u8> {
        self.indexed@
    }

    /// The retained tail: fed bytes that do not yet fill a block.
    pub closed spec fn tail(self) -> Seq<u8> {
        self.pending@
    }

    /// All bytes fed so far, in order.
    pub open spec fn processed(self) -> Seq<u8> {
        self.indexed_bytes() + self.tail()
    }

    /// The chain filed under weak hash `h`, empty if none.
    pub closed spec fn chain(self, h: u32) -> Seq<BlockEntry> {
        if self.index@.contains_key(h) {
            self.index@[h]@
        } else {
            Seq::empty()
        }
    }

    /// Structure invariant: the table truly indexes `indexed_bytes()`.
    pub closed spec fn wf(self) -> bool {
        &&& self.block_size >= 1
        &&& self.indexed@.len() as int % self.block_size as int == 0
        &&& self.bytes_indexed == self.indexed@.len()
        &&& self.pending@.len() < self.block_size
        &&& index_wf(self.index@, self.indexed@, self.block_size as nat)
    }

    /// What the structure invariant gives of every chain: each entry is a
    /// true block entry under its hash, offsets strictly increase, and every
    /// indexed block appears in the chain of its weak hash.
    pub proof fn lemma_chain_properties(self, h: u32)
        requires
            self.wf(),
        ensures
            forall|j: int|
                0 <= j < self.chain(h).len() ==> entry_ok(
                    self.indexed_bytes(),
                    self.bsize(),
                    h,
                    #[trigger] self.chain(h)[j],
                ),
            forall|j1: int, j2: int|
                #![trigger self.chain(h)[j1], self.chain(h)[j2]]
                0 <= j1 < j2 < self.chain(h).len() ==> self.chain(h)[j1].offset < self.chain(
                    h,
                )[j2].offset,
            forall|k: int|
                0 <= k < self.indexed_bytes().len() as int / self.bsize() as int && weak_hash(
                    #[trigger] block_of(self.indexed_bytes(), self.bsize(), k),
                ) == h ==> exists|j: int|
                    0 <= j < self.chain(h).len() && (#[trigger] self.chain(h)[j]).offset == k
                        * self.bsize(),
    {
    }

    /// Scalar facts the structure invariant carries about sizes.
    pub proof fn lemma_wf_facts(self)
        requires
            self.wf(),
        ensures
            self.bsize() >= 1,
            self.indexed_bytes().len() as int % self.bsize() as int == 0,
            self.tail().len() < self.bsize(),
    {
    }

    /// A new index with the default block size.
    pub fn new() -> (r: Self)
        ensures
            r.wf(),
            r.bsize() == DEFAULT_CHUNK_SIZE,
            r.processed() == Seq::<u8>::empty(),
    {
        Self::with_block_size(DEFAULT_CHUNK_SIZE)
    }

    /// A new index with the given block size.
    pub fn with_block_size(block_size: usize) -> (r: Self)
        requires
            block_size >= 1,
        ensures
            r.wf(),
            r.bsize() == block_size,
            r.processed() == Seq::<u8>::empty(),
    {
        let r = BlockIndex {
            block_size,
            index: HashMap::new(),
            bytes_indexed: 0,
            pending: Vec::new(),
            indexed: Ghost(Seq::empty()),
        };
        proof {
            assert(r.processed() =~= Seq::<u8>::empty());
            vstd::arithmetic::div_mod::lemma_small_mod(0nat, block_size as nat);
        }
        r
    }

    /// The block size.
    pub fn block_size(&self) -> (r: usize)
        ensures
            r == self.bsize(),
    {
        self.block_size
    }

    /// Number of bytes covered by complete indexed blocks so far.
    pub fn bytes_indexed(&self) -> (r: u64)
        requires
            self.wf(),
        ensures
            r == self.indexed_bytes().len(),
    {
        self.bytes_indexed
    }

    /// Number of distinct weak hashes in the table.
    pub fn unique_hash_count(&self) -> (r: usize)
        ensures
            r == self.key_count(),
    {
        self.index.len()
    }

    /// Number of keys in the table.
    pub closed spec fn key_count(self) -> nat {
        self.index@.dom().len()
    }

    /// Feed source bytes: every complete aligned block formed from the
    /// retained tail plus this chunk is indexed; the remainder is retained.
    pub fn add_chunk(&mut self, chunk: &[u8])
        requires
            old(self).wf(),
            old(self).processed().len() + chunk@.len() <= u64::MAX,
        ensures
            final(self).wf(),
            final(self).bsize() == old(self).bsize(),
            final(self).processed() == old(self).processed() + chunk@,
    {
        let ghost old_indexed = self.indexed@;
        let ghost old_tail = self.pending@;
        let bs = self.block_size;
        let mut hasher = RollingHash::new(bs);
        let mut data: Vec<u8> = Vec::new();
        data.append(&mut self.pending);
        data.extend_from_slice(chunk);
        assert(data@ == old_tail + chunk@);
        let mut offset: usize = 0;
        proof {
            assert(data@.take(0) =~= Seq::<u8>::empty());
            assert(old_indexed + data@.take(0) =~= old_indexed);
            vstd::arithmetic::div_mod::lemma_small_mod(0nat, bs as nat);
        }
        while data.len() - offset >= bs
            invariant
                self.block_size == bs,
                bs >= 1,
                offset <= data@.len(),
                offset as int % bs as int == 0,
                data@ == old_tail + chunk@,
                old_indexed.len() + data@.len() <= u64::MAX,
                self.indexed@ == old_indexed + data@.take(offset as int),
                self.indexed@.len() as int % bs as int == 0,
                self.bytes_indexed == self.indexed@.len(),
                index_wf(self.index@, self.indexed@, bs as nat),
                hasher.wf(),
                hasher.width() == bs,
            decreases data@.len() - offset,
        {
            let ghost prev = self.indexed@;
            let block = slice_subrange(data.as_slice(), offset, offset + bs);
            let weak = hasher.hash_chunk(block);
            let strong = calculate_hash(block);
            let entry = BlockEntry { offset: self.bytes_indexed, strong_hash: strong };
            let ghost old_map = self.index@;
            let chain = match self.index.remove(&weak) {
                Some(mut v) => {
                    proof {
                        lemma_chain_push_ordered(old_map, prev, bs as nat, weak, v@, entry);
                    }
                    v.push(entry);
                    v
                },
                None => {
                    let mut v: Vec<BlockEntry> = Vec::new();
                    v.push(entry);
                    v
                },
            };
            self.index.insert(weak, chain);
            proof {
                assert(self.index@ =~= old_map.insert(weak, chain));
                lemma_index_wf_insert(
                    old_map,
                    self.index@,
                    prev,
                    bs as nat,
                    block@,
                    weak,
                    chain@,
                    entry,
                );
                assert(prev + block@ =~= old_indexed + data@.take(offset + bs));
                vstd::arithmetic::div_mod::lemma_mod_add_multiples_vanish(
                    offset as int,
                    bs as int,
                );
                vstd::arithmetic::div_mod::lemma_mod_add_multiples_vanish(
                    prev.len() as int,
                    bs as int,
                );
            }
            self.indexed = Ghost(prev + block@);
            self.bytes_indexed = self.bytes_indexed + (bs as u64);
            offset = offset + bs;
        }
        if offset < data.len() {
            self.pending = slice_to_vec(slice_subrange(data.as_slice(), offset, data.len()));
        } else {
            self.pending = Vec::new();
        }
        proof {
            if offset < data@.len() {
                assert(self.pending@ == data@.subrange(offset as int, data@.len() as int));
            } else {
                assert(self.pending@ =~= data@.subrange(offset as int, data@.len() as int));
            }
            assert(self.processed() =~= old_indexed + old_tail + chunk@);
            assert(old_indexed + old_tail + chunk@ =~= (old_indexed + old_tail) + chunk@);
        }
    }

    /// Discard the retained tail and return how many bytes were indexed,
    /// always a multiple of the block size.
    pub fn finalize(&mut self) -> (r: u64)
        requires
            old(self).wf(),
        ensures
            final(self).wf(),
            final(self).bsize() == old(self).bsize(),
            final(self).indexed_bytes() == old(self).indexed_bytes(),
            final(self).tail().len() == 0,
            forall|h: u32| final(self).chain(h) == old(self).chain(h),
            r == final(self).indexed_bytes().len(),
    {
        self.pending = Vec::new();
        self.bytes_indexed
    }

    /// The entries recorded under the given weak hash, in insertion order;
    /// empty if the hash is unknown.
    pub fn lookup(&self, weak: u32) -> (r: &[BlockEntry])
        requires
            self.wf(),
        ensures
            r@ == self.chain(weak),
    {
        match self.index.get(&weak) {
            Some(v) => v.as_slice(),
            None => {
                let empty: &[BlockEntry] = &[];
                proof {
                    assert(empty@ =~= self.chain(weak));
                }
                empty
            },
        }
    }

    /// The offset of the first entry under `weak` whose stored strong hash
    /// equals the strong hash of `block`, if any.
    pub fn find_verified_match(&self, weak: u32, block: &[u8]) -> (r: Option<u64>)
        requires
            self.wf(),
        ensures
            r == first_strong_match(self.chain(weak), fnv1a(block@)),
    {
        let entries = self.lookup(weak);
        let target_strong = calculate_hash(block);
        let mut j: usize = 0;
        proof {
            assert(entries@.skip(0) =~= entries@);
        }
        while j < entries.len()
            invariant
                j <= entries@.len(),
                entries@ == self.chain(weak),
                target_strong == fnv1a(block@),
                first_strong_match(entries@, target_strong) == first_strong_match(
                    entries@.skip(j as int),
                    target_strong,
                ),
            decreases entries@.len() - j,
        {
            proof {
                assert(entries@.skip(j as int)[0] == entries@[j as int]);
                assert(entries@.skip(j as int).drop_first() =~= entries@.skip(j + 1));
            }
            if entries[j].strong_hash == target_strong {
                return Some(entries[j].offset);
            }
            j = j + 1;
        }
        proof {
            assert(entries@.skip(j as int) =~= Seq::<BlockEntry>::empty());
        }
        None
    }
}

impl Default for BlockIndex {
    /// Same as `new`: an empty index with the default block size.
    fn default() -> (r: Self)
        ensures
            r.wf(),
            r.bsize() == DEFAULT_CHUNK_SIZE,
            r.processed() == Seq::<u8>::empty(),
    {
        BlockIndex::new()
    }
}

/// The first entry in the chain whose strong hash equals `sh`, if any.
pub open spec fn first_strong_match(chain: Seq<BlockEntry>, sh: u64) -> Option<u64>
    decreases chain.len(),
{
    if chain.len() == 0 {
        None
    } else if chain[0].strong_hash == sh {
        Some(chain[0].offset)
    } else {
        first_strong_match(chain.drop_first(), sh)
    }
}

/// What a first-strong-match result means: `Some` names a listed entry with
/// that offset and the sought strong hash, `None` says no entry carries it.
pub proof fn lemma_first_strong_match_entry(chain: Seq<BlockEntry>, sh: u64)
    ensures
        match first_strong_match(chain, sh) {
            Some(off) => exists|j: int|
                0 <= j < chain.len() && (#[trigger] chain[j]).offset == off
                    && chain[j].strong_hash == sh,
            None => forall|j: int| 0 <= j < chain.len() ==> (#[trigger] chain[j]).strong_hash != sh,
        },
    decreases chain.len(),
{
    if chain.len() == 0 {
    } else if chain[0].strong_hash == sh {
        assert(chain[0].offset == chain[0].offset && chain[0].strong_hash == sh);
    } else {
        lemma_first_strong_match_entry(chain.drop_first(), sh);
        let rest = chain.drop_first();
        match first_strong_match(rest, sh) {
            Some(off) => {
                let j = choose|j: int|
                    0 <= j < rest.len() && (#[trigger] rest[j]).offset == off
                        && rest[j].strong_hash == sh;
                assert(chain[j + 1] == rest[j]);
            },
            None => {
                assert forall|j: int| 0 <= j < chain.len() implies (#[trigger] chain[j]).strong_hash
                    != sh by {
                    if j > 0 {
                        assert(chain[j] == rest[j - 1]);
                    }
                }
            },
        }
    }
}

/// In a well-formed table every entry of a chain points below the end of the
/// indexed bytes, so a fresh entry for the next block keeps offsets strictly
/// increasing.
proof fn lemma_chain_push_ordered(
    m: Map<u32, Vec<BlockEntry>>,
    src: Seq<u8>,
    bs: nat,
    h: u32,
    chain: Seq<BlockEntry>,
    entry: BlockEntry,
)
    requires
        index_wf(m, src, bs),
        m.contains_key(h),
        chain == m[h]@,
        bs >= 1,
        entry.offset == src.len(),
    ensures
        forall|j: int| 0 <= j < chain.len() ==> (#[trigger] chain[j]).offset < entry.offset,
{
    assert forall|j: int| 0 <= j < chain.len() implies (#[trigger] chain[j]).offset
        < entry.offset by {
        assert(entry_ok(src, bs, h, chain[j]));
    }
}

/// Inserting the entry for the next block preserves the table invariant over
/// the extended byte sequence.
proof fn lemma_index_wf_insert(
    m: Map<u32, Vec<BlockEntry>>,
    m2: Map<u32, Vec<BlockEntry>>,
    src: Seq<u8>,
    bs: nat,
    block: Seq<u8>,
    h: u32,
    chain2: Seq<BlockEntry>,
    entry: BlockEntry,
)
    requires
        index_wf(m, src, bs),
        bs >= 1,
        src.len() as int % bs as int == 0,
        src.len() + bs <= u64::MAX,
        block.len() == bs,
        h == weak_hash(block),
        entry == (BlockEntry { offset: src.len() as u64, strong_hash: fnv1a(block) }),
        chain2 == (if m.contains_key(h) {
            m[h]@
        } else {
            Seq::<BlockEntry>::empty()
        }).push(entry),
        forall|hh: u32| #[trigger] m2.contains_key(hh) <==> (m.contains_key(hh) || hh == h),
        forall|hh: u32|
            m.contains_key(hh) && hh != h ==> #[trigger] m2[hh] == m[hh],
        m2.contains_key(h) && m2[h]@ == chain2,
    ensures
        index_wf(m2, src + block, bs),
{
    let src2 = src + block;
    let old_num = src.len() as int / bs as int;
    assert(src.len() == old_num * bs) by {
        vstd::arithmetic::div_mod::lemma_fundamental_div_mod(src.len() as int, bs as int);
    }
    assert(src2.len() == src.len() + bs);
    assert(src2.len() as int % bs as int == 0) by {
        vstd::arithmetic::div_mod::lemma_mod_add_multiples_vanish(src.len() as int, bs as int);
    }
    assert(src2.len() as int / bs as int == old_num + 1) by {
        assert(src2.len() == (old_num + 1) * bs) by (nonlinear_arith)
            requires
                src.len() == old_num * bs,
                src2.len() == src.len() + bs,
        ;
        vstd::arithmetic::div_mod::lemma_div_multiples_vanish(old_num + 1, bs as int);
        assert(bs as int * (old_num + 1) == (old_num + 1) * bs as int) by (nonlinear_arith);
    }
    // Old blocks read the same in the extended bytes.
    assert forall|a: int, b: int| 0 <= a <= b <= src.len() implies src2.subrange(a, b)
        == src.subrange(a, b) by {
        assert(src2.subrange(a, b) =~= src.subrange(a, b));
    }
    // The new block is the last aligned block of the extended bytes.
    assert(block_of(src2, bs, old_num) =~= block) by {
        assert(old_num * bs == src.len());
    }
    // Soundness.
    assert forall|hh: u32, j: int|
        m2.contains_key(hh) && 0 <= j < m2[hh]@.len() implies entry_ok(
        src2,
        bs,
        hh,
        #[trigger] m2[hh]@[j],
    ) by {
        if hh == h {
            if j < chain2.len() - 1 {
                assert(m.contains_key(h));
                assert(chain2[j] == m[h]@[j]);
                assert(entry_ok(src, bs, h, m[h]@[j]));
            } else {
                assert(chain2[j] == entry);
                assert(src2.subrange(entry.offset as int, entry.offset + bs) =~= block);
                vstd::arithmetic::div_mod::lemma_mod_multiples_basic(old_num, bs as int);
                assert(entry.offset as int % bs as int == 0);
            }
        } else {
            assert(m2[hh] == m[hh]);
            assert(entry_ok(src, bs, hh, m[hh]@[j]));
        }
    }
    // Ordering.
    assert forall|hh: u32, j1: int, j2: int|
        m2.contains_key(hh) && 0 <= j1 < j2 < m2[hh]@.len() implies (#[trigger] m2[hh]@[j1]).offset
        < (#[trigger] m2[hh]@[j2]).offset by {
        if hh == h {
            if j2 < chain2.len() - 1 {
                assert(m.contains_key(h));
                assert(chain2[j1] == m[h]@[j1] && chain2[j2] == m[h]@[j2]);
            } else {
                if m.contains_key(h) {
                    if j1 < chain2.len() - 1 {
                        assert(chain2[j1] == m[h]@[j1]);
                        assert(entry_ok(src, bs, h, m[h]@[j1]));
                        assert(chain2[j2] == entry);
                    }
                }
            }
        } else {
            assert(m2[hh] == m[hh]);
        }
    }
    // Completeness.
    assert forall|k: int| 0 <= k < src2.len() as int / bs as int implies {
        let hh = weak_hash(#[trigger] block_of(src2, bs, k));
        &&& m2.contains_key(hh)
        &&& exists|j: int| 0 <= j < m2[hh]@.len() && (#[trigger] m2[hh]@[j]).offset == k * bs
    } by {
        if k < old_num {
            assert(0 <= k * bs && k * bs + bs <= src.len()) by (nonlinear_arith)
                requires
                    0 <= k < old_num,
                    src.len() == old_num * bs,
                    bs >= 1,
            ;
            assert(block_of(src2, bs, k) == block_of(src, bs, k));
            let hh = weak_hash(block_of(src, bs, k));
            assert(m.contains_key(hh));
            let j = choose|j: int|
                0 <= j < m[hh]@.len() && (#[trigger] m[hh]@[j]).offset == k * bs;
            if hh == h {
                assert(chain2[j] == m[h]@[j]);
                assert(0 <= j < m2[h]@.len() && m2[h]@[j].offset == k * bs);
            } else {
                assert(m2[hh] == m[hh]);
                assert(0 <= j < m2[hh]@.len() && m2[hh]@[j].offset == k * bs);
            }
        } else {
            assert(k == old_num);
            assert(block_of(src2, bs, k) == block);
            assert(chain2[chain2.len() - 1] == entry);
            assert(entry.offset == old_num * bs);
            assert(0 <= chain2.len() - 1 < m2[h]@.len() && m2[h]@[chain2.len() - 1].offset == k
                * bs);
        }
    }
    // Chains stay non-empty.
    assert forall|hh: u32| #[trigger] m2.contains_key(hh) implies m2[hh]@.len() > 0 by {
        if hh != h {
            assert(m2[hh] == m[hh]);
        }
    }
}

} // verus!
