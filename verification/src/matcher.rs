//! Block matching between a source and a target by rolling-hash lookup.
//!
//! The matcher indexes every aligned block of the source, then slides a
//! window over the target one byte at a time.  Window hashes are looked up
//! in the index and every candidate is verified by byte comparison, so a
//! reported match always means byte-equal content; the contracts also state
//! completeness: a match is reported at exactly those target positions whose
//! window equals some aligned source block.

use crate::block_index::{block_of, entry_ok, BlockEntry, BlockIndex};
use crate::rolling_hash::{weak_hash, RollingHash};
use vstd::arithmetic::div_mod::{
    lemma_div_is_ordered, lemma_div_multiples_vanish, lemma_fundamental_div_mod,
};
use vstd::prelude::*;
use vstd::slice::slice_subrange;

verus! {

/// Default block size: a balance between match granularity and index size.
pub const DEFAULT_CHUNK_SIZE: usize = 4096;

/// A byte-verified match: `length` bytes at `source_offset` in the source
/// equal the bytes at `target_offset` in the target.
#[derive(Clone, Copy, Debug, PartialEq, Eq, Structural)]
pub struct BlockMatch {
    /// Offset of the matching block in the source, aligned to the chunk size.
    pub source_offset: usize,
    /// Offset of the matching bytes in the target.
    pub target_offset: usize,
    /// Length of the match, always the chunk size.
    pub length: usize,
}

/// A match is true of `src` and `target`: an aligned, in-bounds source block
/// whose bytes equal the target window of the same length.
pub open spec fn valid_match(src: Seq<u8>, bs: nat, target: Seq<u8>, m: BlockMatch) -> bool {
    &&& m.length == bs
    &&& m.source_offset as int % bs as int == 0
    &&& m.source_offset + bs <= src.len()
    &&& m.target_offset + bs <= target.len()
    &&& src.subrange(m.source_offset as int, m.source_offset + bs) == target.subrange(
        m.target_offset as int,
        m.target_offset + bs,
    )
}

/// Some aligned, complete block of `src` holds exactly `window`.
pub open spec fn source_has_block(src: Seq<u8>, bs: nat, window: Seq<u8>) -> bool {
    exists|k: int| 0 <= k < src.len() as int / bs as int && block_of(src, bs, k) == window
}

/// Some listed match starts at target position `p`.
pub open spec fn match_at(ms: Seq<BlockMatch>, p: int) -> bool {
    exists|i: int| 0 <= i < ms.len() && (#[trigger] ms[i]).target_offset == p
}

/// The offset of the first entry whose source block holds exactly `window`,
/// if any.
pub open spec fn first_content_match(
    entries: Seq<BlockEntry>,
    src: Seq<u8>,
    bs: nat,
    window: Seq<u8>,
) -> Option<u64>
    decreases entries.len(),
{
    if entries.len() == 0 {
        None
    } else if src.subrange(entries[0].offset as int, entries[0].offset + bs) == window {
        Some(entries[0].offset)
    } else {
        first_content_match(entries.drop_first(), src, bs, window)
    }
}

/// What a first-content-match result means: `Some` names a listed entry
/// whose block equals the window, `None` says no listed entry's block does.
pub proof fn lemma_first_content_match(
    entries: Seq<BlockEntry>,
    src: Seq<u8>,
    bs: nat,
    window: Seq<u8>,
)
    ensures
        match first_content_match(entries, src, bs, window) {
            Some(off) => exists|j: int|
                0 <= j < entries.len() && (#[trigger] entries[j]).offset == off && src.subrange(
                    entries[j].offset as int,
                    entries[j].offset + bs,
                ) == window,
            None => forall|j: int|
                0 <= j < entries.len() ==> src.subrange(
                    (#[trigger] entries[j]).offset as int,
                    entries[j].offset + bs,
                ) != window,
        },
    decreases entries.len(),
{
    if entries.len() == 0 {
    } else if src.subrange(entries[0].offset as int, entries[0].offset + bs) == window {
        assert(entries[0].offset == entries[0].offset && src.subrange(
            entries[0].offset as int,
            entries[0].offset + bs,
        ) == window);
    } else {
        lemma_first_content_match(entries.drop_first(), src, bs, window);
        let rest = entries.drop_first();
        match first_content_match(rest, src, bs, window) {
            Some(off) => {
                let j = choose|j: int|
                    0 <= j < rest.len() && (#[trigger] rest[j]).offset == off && src.subrange(
                        rest[j].offset as int,
                        rest[j].offset + bs,
                    ) == window;
                assert(entries[j + 1] == rest[j]);
            },
            None => {
                assert forall|j: int| 0 <= j < entries.len() implies src.subrange(
                    (#[trigger] entries[j]).offset as int,
                    entries[j].offset + bs,
                ) != window by {
                    if j > 0 {
                        assert(entries[j] == rest[j - 1]);
                    }
                }
            },
        }
    }
}

/// If some listed entry's block equals the window, the first content match
/// exists.
pub proof fn lemma_first_content_match_found(
    entries: Seq<BlockEntry>,
    src: Seq<u8>,
    bs: nat,
    window: Seq<u8>,
    j: int,
)
    requires
        0 <= j < entries.len(),
        src.subrange(entries[j].offset as int, entries[j].offset + bs) == window,
    ensures
        first_content_match(entries, src, bs, window) is Some,
    decreases entries.len(),
{
    if src.subrange(entries[0].offset as int, entries[0].offset + bs) == window {
    } else {
        assert(j != 0);
        assert(entries.drop_first()[j - 1] == entries[j]);
        lemma_first_content_match_found(entries.drop_first(), src, bs, window, j - 1);
    }
}

/// Compare two byte slices for equality.
fn slices_equal(a: &[u8], b: &[u8]) -> (r: bool)
    ensures
        r == (a@ == b@),
{
    if a.len() != b.len() {
        proof {
            assert(a@ != b@);
        }
        return false;
    }
    let mut i: usize = 0;
    while i < a.len()
        invariant
            i <= a@.len(),
            a@.len() == b@.len(),
            forall|k: int| 0 <= k < i ==> a@[k] == b@[k],
        decreases a@.len() - i,
    {
        if a[i] != b[i] {
            proof {
                assert(a@[i as int] != b@[i as int]);
            }
            return false;
        }
        i = i + 1;
    }
    proof {
        assert(a@ =~= b@);
    }
    true
}

/// Matcher holding the source bytes and an index of their aligned blocks.
pub struct BlockMatcher {
    chunk_size: usize,
    index: BlockIndex,
    source_data: Vec<u8>,
}

impl BlockMatcher {
    /// The chunk size matching runs at.
    pub closed spec fn csize(self) -> nat {
        self.chunk_size as nat
    }

    /// The source bytes the matcher was built over.
    pub closed spec fn source(self) -> Seq<u8> {
        self.source_data@
    }

    /// The index covers exactly the complete aligned blocks of the source.
    pub closed spec fn wf(self) -> bool {
        &&& self.chunk_size >= 1
        &&& self.index.wf()
        &&& self.index.bsize() == self.chunk_size
        &&& self.index.tail().len() == 0
        &&& self.index.indexed_bytes().len() <= self.source_data@.len()
        &&& self.source_data@.len() - self.index.indexed_bytes().len() < self.chunk_size
        &&& self.index.indexed_bytes() == self.source_data@.take(
            self.index.indexed_bytes().len() as int,
        )
    }

    /// Build a matcher over `source`, indexing each complete aligned block.
    pub fn new(source: &[u8], chunk_size: usize) -> (r: Self)
        requires
            chunk_size >= 1,
        ensures
            r.wf(),
            r.csize() == chunk_size,
            r.source() == source@,
    {
        let n = source.len();
        let mut index = BlockIndex::with_block_size(chunk_size);
        proof {
            assert(index.processed() + source@ =~= source@);
        }
        index.add_chunk(source);
        proof {
            assert(index.processed() =~= source@);
            index.lemma_wf_facts();
        }
        let ghost i0 = index.indexed_bytes();
        let ghost t0 = index.tail();
        index.finalize();
        proof {
            assert(i0 + t0 == source@);
            assert(i0 =~= source@.take(i0.len() as int));
            assert(source@.len() - i0.len() == t0.len());
        }
        let r = BlockMatcher { chunk_size, index, source_data: vstd::slice::slice_to_vec(source) };
        r
    }

    /// The chunk size used by this matcher.
    pub fn chunk_size(&self) -> (r: usize)
        ensures
            r == self.csize(),
    {
        self.chunk_size
    }

    /// Number of distinct weak hashes in the signature table.
    pub closed spec fn sig_count(self) -> nat {
        self.index.key_count()
    }

    /// Number of distinct weak hashes in the signature table.
    pub fn signature_count(&self) -> (r: usize)
        ensures
            r == self.sig_count(),
    {
        self.index.unique_hash_count()
    }

    /// The first indexed entry under the window's hash whose block is
    /// byte-equal to the window, if any.
    fn first_verified(&self, entries: &[BlockEntry], window: &[u8]) -> (r: Option<u64>)
        requires
            self.wf(),
            window@.len() == self.csize(),
            forall|j: int|
                0 <= j < entries@.len() ==> (#[trigger] entries@[j]).offset + self.csize()
                    <= self.index.indexed_bytes().len(),
        ensures
            r == first_content_match(entries@, self.source(), self.csize(), window@),
    {
        let cs = self.chunk_size;
        let mut j: usize = 0;
        proof {
            assert(entries@.skip(0) =~= entries@);
        }
        while j < entries.len()
            invariant
                self.wf(),
                window@.len() == self.csize(),
                cs == self.chunk_size,
                j <= entries@.len(),
                forall|jj: int|
                    0 <= jj < entries@.len() ==> (#[trigger] entries@[jj]).offset + self.csize()
                        <= self.index.indexed_bytes().len(),
                first_content_match(entries@, self.source(), self.csize(), window@)
                    == first_content_match(
                    entries@.skip(j as int),
                    self.source(),
                    self.csize(),
                    window@,
                ),
            decreases entries@.len() - j,
        {
            let src_len = self.source_data.len();
            proof {
                assert(entries@.skip(j as int)[0] == entries@[j as int]);
                assert(entries@.skip(j as int).drop_first() =~= entries@.skip(j + 1));
                assert(self.index.indexed_bytes().len() <= src_len);
            }
            let e = entries[j];
            let off = e.offset as usize;
            let block = slice_subrange(self.source_data.as_slice(), off, off + cs);
            let eq = slices_equal(block, window);
            proof {
                assert(block@ == self.source().subrange(
                    e.offset as int,
                    e.offset + self.csize(),
                ));
            }
            if eq {
                proof {
                    assert(first_content_match(
                        entries@.skip(j as int),
                        self.source(),
                        self.csize(),
                        window@,
                    ) == Some(e.offset));
                }
                return Some(e.offset);
            }
            proof {
                assert(first_content_match(
                    entries@.skip(j as int),
                    self.source(),
                    self.csize(),
                    window@,
                ) == first_content_match(
                    entries@.skip(j + 1),
                    self.source(),
                    self.csize(),
                    window@,
                ));
            }
            j = j + 1;
        }
        proof {
            assert(entries@.skip(j as int) =~= Seq::<BlockEntry>::empty());
        }
        None
    }

    /// Find every target position whose window equals some aligned source
    /// block: sound (each match is byte-verified), complete (no such
    /// position is missed), and sorted by target offset.
    pub fn find_matches(&self, target: &[u8]) -> (r: Vec<BlockMatch>)
        requires
            self.wf(),
        ensures
            forall|i: int|
                0 <= i < r@.len() ==> valid_match(
                    self.source(),
                    self.csize(),
                    target@,
                    #[trigger] r@[i],
                ),
            forall|i: int, j: int|
                #![trigger r@[i], r@[j]]
                0 <= i < j < r@.len() ==> r@[i].target_offset < r@[j].target_offset,
            forall|p: int|
                0 <= p <= target@.len() - self.csize() ==> (match_at(r@, p) <==> source_has_block(
                    self.source(),
                    self.csize(),
                    #[trigger] target@.subrange(p, p + self.csize()),
                )),
    {
        let cs = self.chunk_size;
        let mut matches: Vec<BlockMatch> = Vec::new();
        if target.len() < cs {
            return matches;
        }
        let mut hasher = RollingHash::new(cs);
        let mut current_hash = hasher.hash_chunk(slice_subrange(target, 0, cs));
        let mut pos: usize = 0;
        while pos <= target.len() - cs
            invariant
                self.wf(),
                cs == self.chunk_size,
                cs >= 1,
                cs <= target@.len(),
                pos <= target@.len() - cs + 1,
                hasher.wf(),
                hasher.width() == cs,
                pos <= target@.len() - cs ==> hasher.window() == target@.subrange(
                    pos as int,
                    pos + cs,
                ),
                pos <= target@.len() - cs ==> current_hash == weak_hash(
                    target@.subrange(pos as int, pos + cs),
                ),
                forall|i: int|
                    0 <= i < matches@.len() ==> valid_match(
                        self.source(),
                        self.csize(),
                        target@,
                        #[trigger] matches@[i],
                    ),
                forall|i: int|
                    0 <= i < matches@.len() ==> (#[trigger] matches@[i]).target_offset < pos,
                forall|i: int, j: int|
                    #![trigger matches@[i], matches@[j]]
                    0 <= i < j < matches@.len() ==> matches@[i].target_offset
                        < matches@[j].target_offset,
                forall|p: int|
                    0 <= p < pos ==> (match_at(matches@, p) <==> source_has_block(
                        self.source(),
                        self.csize(),
                        #[trigger] target@.subrange(p, p + self.csize()),
                    )),
            decreases target@.len() - pos,
        {
            let ghost window = target@.subrange(pos as int, pos + cs);
            let ghost old_matches = matches@;
            let entries = self.index.lookup(current_hash);
            proof {
                self.index.lemma_chain_properties(current_hash);
            }
            let window_slice = slice_subrange(target, pos, pos + cs);
            let found = self.first_verified(entries, window_slice);
            match found {
                Some(off) => {
                    proof {
                        lemma_first_content_match(
                            entries@,
                            self.source(),
                            self.csize(),
                            window,
                        );
                        let j = choose|j: int|
                            0 <= j < entries@.len() && (#[trigger] entries@[j]).offset == off
                                && self.source().subrange(
                                entries@[j].offset as int,
                                entries@[j].offset + self.csize(),
                            ) == window;
                        assert(entry_ok(
                            self.index.indexed_bytes(),
                            self.csize(),
                            current_hash,
                            entries@[j],
                        ));
                        assert(off + cs <= self.index.indexed_bytes().len());
                        assert(self.index.indexed_bytes().len() <= self.source().len());
                    }
                    let m = BlockMatch {
                        source_offset: off as usize,
                        target_offset: pos,
                        length: cs,
                    };
                    proof {
                        lemma_match_position(self, target@, pos as int, off as u64, window);
                    }
                    matches.push(m);
                    proof {
                        lemma_completeness_step(
                            self,
                            target@,
                            old_matches,
                            matches@,
                            pos as int,
                            true,
                        );
                    }
                },
                None => {
                    proof {
                        lemma_no_match_position(self, target@, pos as int, entries@, window);
                        lemma_completeness_step(
                            self,
                            target@,
                            old_matches,
                            matches@,
                            pos as int,
                            false,
                        );
                    }
                },
            }
            if pos + 1 <= target.len() - cs {
                let old_byte = target[pos];
                let new_byte = target[pos + cs];
                proof {
                    assert(hasher.window()[0] == target@[pos as int]);
                }
                current_hash = hasher.roll(old_byte, new_byte);
                proof {
                    assert(hasher.window() =~= target@.subrange(pos + 1, pos + 1 + cs));
                }
            }
            pos = pos + 1;
        }
        matches
    }
}

/// The indexed bytes are exactly the complete blocks of the source: their
/// length is the block count times the chunk size, under either division.
proof fn lemma_matcher_div(m: &BlockMatcher)
    requires
        m.wf(),
    ensures
        m.index.indexed_bytes().len() as int == (m.source().len() as int / m.csize() as int)
            * m.csize() as int,
        m.index.indexed_bytes().len() as int / m.csize() as int == m.source().len() as int
            / m.csize() as int,
{
    m.index.lemma_wf_facts();
    let ilen = m.index.indexed_bytes().len() as int;
    let slen = m.source().len() as int;
    let cs = m.csize() as int;
    lemma_fundamental_div_mod(ilen, cs);
    let q = ilen / cs;
    assert(ilen == cs * q);
    assert(cs * q == q * cs) by (nonlinear_arith);
    vstd::arithmetic::div_mod::lemma_fundamental_div_mod_converse(slen, cs, q, slen - ilen);
    assert(slen / cs == q);
}

/// A verified candidate yields a valid match at this target position, and
/// that position's window is indeed a source block.
proof fn lemma_match_position(
    matcher: &BlockMatcher,
    target: Seq<u8>,
    pos: int,
    off: u64,
    window: Seq<u8>,
)
    requires
        matcher.wf(),
        0 <= pos,
        pos + matcher.csize() <= target.len(),
        target.len() <= usize::MAX,
        window == target.subrange(pos, pos + matcher.csize() as int),
        off as int % matcher.csize() as int == 0,
        off + matcher.csize() <= matcher.index.indexed_bytes().len(),
        matcher.source().subrange(off as int, off + matcher.csize()) == window,
    ensures
        valid_match(
            matcher.source(),
            matcher.csize(),
            target,
            BlockMatch {
                source_offset: off as usize,
                target_offset: pos as usize,
                length: matcher.csize() as usize,
            },
        ),
        source_has_block(matcher.source(), matcher.csize(), window),
{
    let cs = matcher.csize() as int;
    let src = matcher.source();
    vstd::std_specs::vec::axiom_spec_len(&matcher.source_data);
    assert(src.len() <= usize::MAX);
    assert(matcher.index.indexed_bytes().len() <= src.len());
    let k = off as int / cs;
    lemma_fundamental_div_mod(off as int, cs);
    assert(off as int == cs * k);
    assert(cs * k == k * cs) by (nonlinear_arith);
    assert(block_of(src, matcher.csize(), k) == src.subrange(off as int, off as int + cs)) by {
        assert(k * cs == off as int);
    }
    // k is within the complete blocks of the source.
    assert((k + 1) * cs == k * cs + cs) by (nonlinear_arith);
    assert((k + 1) * cs <= src.len());
    lemma_div_is_ordered((k + 1) * cs, src.len() as int, cs);
    lemma_div_multiples_vanish(k + 1, cs);
    assert(cs * (k + 1) == (k + 1) * cs) by (nonlinear_arith);
    assert(k + 1 <= src.len() as int / cs);
    assert(k >= 0) by {
        vstd::arithmetic::div_mod::lemma_div_pos_is_pos(off as int, cs);
    }
    assert(0 <= k < src.len() as int / cs);
    assert(source_has_block(matcher.source(), matcher.csize(), window)) by {
        assert(block_of(src, matcher.csize(), k) == window);
    }
}

/// When no candidate under the window's hash verifies, no aligned source
/// block equals the window at all.
proof fn lemma_no_match_position(
    matcher: &BlockMatcher,
    target: Seq<u8>,
    pos: int,
    entries: Seq<BlockEntry>,
    window: Seq<u8>,
)
    requires
        matcher.wf(),
        0 <= pos,
        pos + matcher.csize() <= target.len(),
        window == target.subrange(pos, pos + matcher.csize() as int),
        entries == matcher.index.chain(weak_hash(window)),
        first_content_match(entries, matcher.source(), matcher.csize(), window) is None,
    ensures
        !source_has_block(matcher.source(), matcher.csize(), window),
{
    let cs = matcher.csize() as int;
    let src = matcher.source();
    let ilen = matcher.index.indexed_bytes().len() as int;
    matcher.index.lemma_chain_properties(weak_hash(window));
    lemma_first_content_match(entries, src, matcher.csize(), window);
    lemma_matcher_div(matcher);
    let q = src.len() as int / cs;
    assert forall|k: int|
        0 <= k < src.len() as int / cs implies block_of(src, matcher.csize(), k) != window by {
        // Complete source blocks and indexed blocks coincide.
        assert(ilen == q * cs);
        assert(ilen / cs == q);
        assert((k + 1) * cs == k * cs + cs) by (nonlinear_arith);
        assert(k * cs >= 0 && (k + 1) * cs <= q * cs) by (nonlinear_arith)
            requires
                0 <= k < q,
                cs >= 1,
        ;
        assert(block_of(src, matcher.csize(), k) == block_of(
            matcher.index.indexed_bytes(),
            matcher.csize(),
            k,
        )) by {
            assert(matcher.index.indexed_bytes() == src.take(ilen));
            assert(src.take(ilen).subrange(k * cs, k * cs + cs) =~= src.subrange(
                k * cs,
                k * cs + cs,
            ));
        }
        if block_of(src, matcher.csize(), k) == window {
            // Then the index chain under the window's hash lists this block,
            // and its content equals the window: a contradiction with the
            // failed first content match.
            assert(weak_hash(block_of(matcher.index.indexed_bytes(), matcher.csize(), k))
                == weak_hash(window));
            assert(0 <= k < ilen / cs);
            let j = choose|j: int|
                0 <= j < entries.len() && (#[trigger] entries[j]).offset == k * cs;
            assert(entry_ok(
                matcher.index.indexed_bytes(),
                matcher.csize(),
                weak_hash(window),
                entries[j],
            ));
            assert(matcher.index.indexed_bytes().subrange(
                entries[j].offset as int,
                entries[j].offset + cs,
            ) == window);
            assert(src.subrange(entries[j].offset as int, entries[j].offset + cs) == window) by {
                assert(src.take(ilen).subrange(k * cs, k * cs + cs) =~= src.subrange(
                    k * cs,
                    k * cs + cs,
                ));
            }
            lemma_first_content_match_found(entries, src, matcher.csize(), window, j);
        }
    }
}

/// Appending (or not) a match at the current position extends the
/// position-by-position completeness record by one position.
proof fn lemma_completeness_step(
    matcher: &BlockMatcher,
    target: Seq<u8>,
    old_ms: Seq<BlockMatch>,
    new_ms: Seq<BlockMatch>,
    pos: int,
    added: bool,
)
    requires
        matcher.wf(),
        0 <= pos,
        pos + matcher.csize() <= target.len(),
        added ==> new_ms.len() == old_ms.len() + 1 && new_ms[new_ms.len() - 1].target_offset == pos
            && (forall|i: int| 0 <= i < old_ms.len() ==> new_ms[i] == old_ms[i]),
        !added ==> new_ms == old_ms,
        added == source_has_block(
            matcher.source(),
            matcher.csize(),
            target.subrange(pos, pos + matcher.csize() as int),
        ),
        forall|i: int| 0 <= i < old_ms.len() ==> (#[trigger] old_ms[i]).target_offset < pos,
        forall|p: int|
            0 <= p < pos ==> (match_at(old_ms, p) <==> source_has_block(
                matcher.source(),
                matcher.csize(),
                #[trigger] target.subrange(p, p + matcher.csize() as int),
            )),
    ensures
        forall|p: int|
            0 <= p < pos + 1 ==> (match_at(new_ms, p) <==> source_has_block(
                matcher.source(),
                matcher.csize(),
                #[trigger] target.subrange(p, p + matcher.csize() as int),
            )),
        forall|i: int| 0 <= i < new_ms.len() ==> (#[trigger] new_ms[i]).target_offset < pos + 1,
{
    assert forall|p: int| 0 <= p < pos + 1 implies (match_at(new_ms, p) <==> source_has_block(
        matcher.source(),
        matcher.csize(),
        #[trigger] target.subrange(p, p + matcher.csize() as int),
    )) by {
        if p < pos {
            assert(match_at(new_ms, p) <==> match_at(old_ms, p)) by {
                if match_at(new_ms, p) {
                    let i = choose|i: int|
                        0 <= i < new_ms.len() && (#[trigger] new_ms[i]).target_offset == p;
                    if added && i == new_ms.len() - 1 {
                        assert(false);
                    } else {
                        assert(new_ms[i] == old_ms[i]);
                    }
                }
                if match_at(old_ms, p) {
                    let i = choose|i: int|
                        0 <= i < old_ms.len() && (#[trigger] old_ms[i]).target_offset == p;
                    assert(new_ms[i] == old_ms[i]);
                    assert(match_at(new_ms, p));
                }
            }
        } else {
            if added {
                assert(new_ms[new_ms.len() - 1].target_offset == pos);
                assert(match_at(new_ms, pos));
            } else {
                if match_at(new_ms, pos) {
                    let i = choose|i: int|
                        0 <= i < new_ms.len() && (#[trigger] new_ms[i]).target_offset == pos;
                    assert(false);
                }
            }
        }
    }
}

} // verus!
