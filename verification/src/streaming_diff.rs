//! Streaming diff generation against a frozen block index.
//!
//! Target bytes arrive in chunks of any size; the engine buffers them and,
//! whenever a whole block is available, looks its hash up in the index.  A
//! strong-hash-verified hit becomes a COPY, otherwise one byte moves into
//! the growing tail INSERT.  The whole state is a function of the
//! concatenated bytes fed so far, which makes the emitted instructions
//! independent of how the target was split into chunks.

use crate::block_index::{entry_ok, first_strong_match, BlockIndex};
use crate::hash::fnv1a;
use crate::patch::{inserts_nonempty, instr_output, instrs_output, lemma_instrs_output_push};
use crate::patch_format::{
    instruction_encodable, instructions_encodable, Instruction, InstructionView,
};
use crate::rolling_hash::{weak_hash, RollingHash};
use vstd::prelude::*;
use vstd::slice::{slice_subrange, slice_to_vec};

verus! {

/// The match the index reports for a whole block: the first entry under the
/// block's weak hash whose stored strong hash equals the block's.
pub open spec fn match_result(idx: BlockIndex, block: Seq<u8>) -> Option<u64> {
    first_strong_match(idx.chain(weak_hash(block)), fnv1a(block))
}

/// Add one unmatched byte to the instruction stream: extend the trailing
/// INSERT if there is one with room in its length field, else open a new one.
pub open spec fn append_byte(instrs: Seq<InstructionView>, b: u8) -> Seq<InstructionView> {
    if instrs.len() > 0 && (match instrs.last() {
        InstructionView::Insert { data } => data.len() < u32::MAX,
        InstructionView::Copy { .. } => false,
    }) {
        match instrs.last() {
            InstructionView::Insert { data } => instrs.update(
                instrs.len() - 1,
                InstructionView::Insert { data: data.push(b) },
            ),
            InstructionView::Copy { .. } => instrs,
        }
    } else {
        instrs.push(InstructionView::Insert { data: seq![b] })
    }
}

/// Add a run of unmatched bytes, one at a time.
pub open spec fn append_all(instrs: Seq<InstructionView>, rest: Seq<u8>) -> Seq<InstructionView>
    decreases rest.len(),
{
    if rest.len() == 0 {
        instrs
    } else {
        append_all(append_byte(instrs, rest[0]), rest.drop_first())
    }
}

/// Drain the buffer: while a whole block is buffered, emit a COPY for a
/// verified match or move one byte into the tail INSERT; stop when fewer
/// than a block's worth of bytes remain.
pub open spec fn drain(
    idx: BlockIndex,
    bs: nat,
    buffer: Seq<u8>,
    instrs: Seq<InstructionView>,
) -> (Seq<u8>, Seq<InstructionView>)
    decreases buffer.len(),
{
    if bs < 1 || buffer.len() < bs {
        (buffer, instrs)
    } else {
        let block = buffer.take(bs as int);
        match match_result(idx, block) {
            Some(off) => drain(
                idx,
                bs,
                buffer.skip(bs as int),
                instrs.push(InstructionView::Copy { offset: off, length: bs as u32 }),
            ),
            None => drain(idx, bs, buffer.skip(1), append_byte(instrs, buffer[0])),
        }
    }
}

/// Chunk-splitting invariance: draining bytes in two goes ends in the same
/// state as draining their concatenation in one.
pub proof fn lemma_drain_compose(
    idx: BlockIndex,
    bs: nat,
    b1: Seq<u8>,
    b2: Seq<u8>,
    instrs: Seq<InstructionView>,
)
    ensures
        drain(idx, bs, b1 + b2, instrs) == drain(
            idx,
            bs,
            drain(idx, bs, b1, instrs).0 + b2,
            drain(idx, bs, b1, instrs).1,
        ),
    decreases b1.len(),
{
    if bs < 1 || b1.len() < bs {
        assert(drain(idx, bs, b1, instrs) == (b1, instrs));
    } else {
        let block = b1.take(bs as int);
        assert((b1 + b2).len() >= bs);
        assert((b1 + b2).take(bs as int) =~= block);
        match match_result(idx, block) {
            Some(off) => {
                assert((b1 + b2).skip(bs as int) =~= b1.skip(bs as int) + b2);
                lemma_drain_compose(
                    idx,
                    bs,
                    b1.skip(bs as int),
                    b2,
                    instrs.push(InstructionView::Copy { offset: off, length: bs as u32 }),
                );
            },
            None => {
                assert((b1 + b2).skip(1) =~= b1.skip(1) + b2);
                assert((b1 + b2)[0] == b1[0]);
                lemma_drain_compose(idx, bs, b1.skip(1), b2, append_byte(instrs, b1[0]));
            },
        }
    }
}

/// Appending a byte appends it to the instructions' output.
pub proof fn lemma_append_byte_output(src: Seq<u8>, instrs: Seq<InstructionView>, b: u8)
    ensures
        instrs_output(src, append_byte(instrs, b)) == instrs_output(src, instrs) + seq![b],
{
    let r = append_byte(instrs, b);
    if instrs.len() > 0 && (match instrs.last() {
        InstructionView::Insert { data } => data.len() < u32::MAX,
        InstructionView::Copy { .. } => false,
    }) {
        let butlast = instrs.drop_last();
        match instrs.last() {
            InstructionView::Insert { data } => {
                assert(butlast.push(instrs.last()) =~= instrs);
                lemma_instrs_output_push(src, butlast, instrs.last());
                assert(r =~= butlast.push(
                    InstructionView::Insert { data: data.push(b) },
                ));
                lemma_instrs_output_push(
                    src,
                    butlast,
                    InstructionView::Insert { data: data.push(b) },
                );
                assert(data.push(b) =~= data + seq![b]);
                assert(instrs_output(src, butlast) + (data + seq![b]) =~= (instrs_output(
                    src,
                    butlast,
                ) + data) + seq![b]);
            },
            InstructionView::Copy { .. } => {},
        }
    } else {
        lemma_instrs_output_push(src, instrs, InstructionView::Insert { data: seq![b] });
    }
}

/// Appending a run of bytes appends it to the instructions' output.
pub proof fn lemma_append_all_output(src: Seq<u8>, instrs: Seq<InstructionView>, rest: Seq<u8>)
    ensures
        instrs_output(src, append_all(instrs, rest)) == instrs_output(src, instrs) + rest,
    decreases rest.len(),
{
    if rest.len() == 0 {
        assert(instrs_output(src, instrs) + rest =~= instrs_output(src, instrs));
    } else {
        lemma_append_byte_output(src, instrs, rest[0]);
        lemma_append_all_output(src, append_byte(instrs, rest[0]), rest.drop_first());
        assert((instrs_output(src, instrs) + seq![rest[0]]) + rest.drop_first() =~= instrs_output(
            src,
            instrs,
        ) + rest);
    }
}

/// Appending bytes preserves encodability, non-empty INSERTs, and the
/// bounds of every COPY.
pub proof fn lemma_append_byte_wf(instrs: Seq<InstructionView>, b: u8, src_len: int)
    requires
        instructions_encodable(instrs),
        inserts_nonempty(instrs),
        crate::patch::copies_in_bounds(instrs, src_len),
    ensures
        instructions_encodable(append_byte(instrs, b)),
        inserts_nonempty(append_byte(instrs, b)),
        crate::patch::copies_in_bounds(append_byte(instrs, b), src_len),
{
    let r = append_byte(instrs, b);
    assert forall|k: int| 0 <= k < r.len() implies instruction_encodable(#[trigger] r[k])
        && (match r[k] {
        InstructionView::Copy { offset, length } => offset + length <= src_len,
        InstructionView::Insert { data } => data.len() > 0,
    }) by {
        if k < instrs.len() && r[k] != instrs[k] {
            assert(k == instrs.len() - 1);
        }
        if k < instrs.len() {
            assert(instruction_encodable(instrs[k]));
            assert(match instrs[k] {
                InstructionView::Copy { offset, length } => offset + length <= src_len,
                InstructionView::Insert { data } => data.len() > 0,
            });
        }
    }
}

/// Draining conserves length: emitted output plus leftover buffer always
/// measure the prior output plus the drained bytes.
pub proof fn lemma_drain_len(
    idx: BlockIndex,
    bs: nat,
    buffer: Seq<u8>,
    instrs: Seq<InstructionView>,
)
    requires
        idx.wf(),
        bs == idx.bsize(),
        1 <= bs <= u32::MAX,
    ensures
        instrs_output(idx.indexed_bytes(), drain(idx, bs, buffer, instrs).1).len() + drain(
            idx,
            bs,
            buffer,
            instrs,
        ).0.len() == instrs_output(idx.indexed_bytes(), instrs).len() + buffer.len(),
    decreases buffer.len(),
{
    let src = idx.indexed_bytes();
    if bs < 1 || buffer.len() < bs {
    } else {
        let block = buffer.take(bs as int);
        let h = weak_hash(block);
        match match_result(idx, block) {
            Some(off) => {
                idx.lemma_chain_properties(h);
                crate::block_index::lemma_first_strong_match_entry(idx.chain(h), fnv1a(block));
                let j = choose|j: int|
                    0 <= j < idx.chain(h).len() && (#[trigger] idx.chain(h)[j]).offset == off
                        && idx.chain(h)[j].strong_hash == fnv1a(block);
                assert(entry_ok(src, bs, h, idx.chain(h)[j]));
                let iv = InstructionView::Copy { offset: off, length: bs as u32 };
                lemma_instrs_output_push(src, instrs, iv);
                assert(instr_output(src, iv).len() == bs);
                lemma_drain_len(idx, bs, buffer.skip(bs as int), instrs.push(iv));
            },
            None => {
                lemma_append_byte_output(src, instrs, buffer[0]);
                lemma_drain_len(idx, bs, buffer.skip(1), append_byte(instrs, buffer[0]));
            },
        }
    }
}

/// Draining never rewrites an emitted instruction other than the trailing
/// one: any strict prefix survives.
pub proof fn lemma_drain_prefix_stable(
    idx: BlockIndex,
    bs: nat,
    buffer: Seq<u8>,
    instrs: Seq<InstructionView>,
    k: int,
)
    requires
        0 <= k,
        k + 1 <= instrs.len() || k == 0,
    ensures
        drain(idx, bs, buffer, instrs).1.len() >= instrs.len(),
        ({
            let ri = drain(idx, bs, buffer, instrs).1;
            forall|m: int| 0 <= m < k ==> ri[m] == instrs[m]
        }),
    decreases buffer.len(),
{
    if bs < 1 || buffer.len() < bs {
    } else {
        let block = buffer.take(bs as int);
        match match_result(idx, block) {
            Some(off) => {
                let iv = InstructionView::Copy { offset: off, length: bs as u32 };
                lemma_drain_prefix_stable(
                    idx,
                    bs,
                    buffer.skip(bs as int),
                    instrs.push(iv),
                    k,
                );
                assert(forall|m: int| 0 <= m < k ==> instrs.push(iv)[m] == instrs[m]);
            },
            None => {
                let next = append_byte(instrs, buffer[0]);
                assert(next.len() >= instrs.len());
                assert(forall|m: int| 0 <= m < k ==> next[m] == instrs[m]);
                lemma_drain_prefix_stable(idx, bs, buffer.skip(1), next, k);
            },
        }
    }
}

/// Appending unmatched bytes never rewrites an instruction other than the
/// trailing one either.
pub proof fn lemma_append_all_prefix_stable(
    instrs: Seq<InstructionView>,
    rest: Seq<u8>,
    k: int,
)
    requires
        0 <= k,
        k + 1 <= instrs.len() || k == 0,
    ensures
        append_all(instrs, rest).len() >= instrs.len(),
        ({
            let ri = append_all(instrs, rest);
            forall|m: int| 0 <= m < k ==> ri[m] == instrs[m]
        }),
    decreases rest.len(),
{
    if rest.len() == 0 {
    } else {
        let next = append_byte(instrs, rest[0]);
        assert(next.len() >= instrs.len());
        assert(forall|m: int| 0 <= m < k ==> next[m] == instrs[m]);
        lemma_append_all_prefix_stable(next, rest.drop_first(), k);
    }
}

/// Appending a run of unmatched bytes preserves encodability, non-empty
/// INSERTs, and COPY bounds.
pub proof fn lemma_append_all_wf(instrs: Seq<InstructionView>, rest: Seq<u8>, src_len: int)
    requires
        instructions_encodable(instrs),
        inserts_nonempty(instrs),
        crate::patch::copies_in_bounds(instrs, src_len),
    ensures
        instructions_encodable(append_all(instrs, rest)),
        inserts_nonempty(append_all(instrs, rest)),
        crate::patch::copies_in_bounds(append_all(instrs, rest), src_len),
    decreases rest.len(),
{
    if rest.len() > 0 {
        lemma_append_byte_wf(instrs, rest[0], src_len);
        lemma_append_all_wf(append_byte(instrs, rest[0]), rest.drop_first(), src_len);
    }
}

/// Strong-hash honesty over a source: any window whose FNV-1a digest equals
/// an aligned source block's digest holds the block's bytes.  This is the
/// collision-freedom assumption the streaming matcher's byte-exactness
/// rests on; it holds of every input on which FNV-1a does not collide.
pub open spec fn strong_hash_collision_free(src: Seq<u8>, bs: nat) -> bool {
    forall|a: int, w: Seq<u8>|
        #![trigger fnv1a(src.subrange(a, a + bs)), fnv1a(w)]
        0 <= a && a + bs <= src.len() && w.len() == bs && fnv1a(src.subrange(a, a + bs)) == fnv1a(
            w,
        ) ==> src.subrange(a, a + bs) == w
}

/// What draining does to the output: the emitted instructions' output plus
/// the remaining buffer equals the prior output plus the drained bytes —
/// provided the strong hash is collision-free over the indexed source.
pub proof fn lemma_drain_reconstructs(
    idx: BlockIndex,
    bs: nat,
    buffer: Seq<u8>,
    instrs: Seq<InstructionView>,
)
    requires
        idx.wf(),
        bs == idx.bsize(),
        bs >= 1,
        bs <= u32::MAX,
        strong_hash_collision_free(idx.indexed_bytes(), bs),
        instructions_encodable(instrs),
        inserts_nonempty(instrs),
        crate::patch::copies_in_bounds(instrs, idx.indexed_bytes().len() as int),
    ensures
        instrs_output(idx.indexed_bytes(), drain(idx, bs, buffer, instrs).1) + drain(
            idx,
            bs,
            buffer,
            instrs,
        ).0 == instrs_output(idx.indexed_bytes(), instrs) + buffer,
        instructions_encodable(drain(idx, bs, buffer, instrs).1),
        inserts_nonempty(drain(idx, bs, buffer, instrs).1),
        crate::patch::copies_in_bounds(
            drain(idx, bs, buffer, instrs).1,
            idx.indexed_bytes().len() as int,
        ),
    decreases buffer.len(),
{
    let src = idx.indexed_bytes();
    if bs < 1 || buffer.len() < bs {
    } else {
        let block = buffer.take(bs as int);
        let h = weak_hash(block);
        match match_result(idx, block) {
            Some(off) => {
                idx.lemma_chain_properties(h);
                crate::block_index::lemma_first_strong_match_entry(idx.chain(h), fnv1a(block));
                let j = choose|j: int|
                    0 <= j < idx.chain(h).len() && (#[trigger] idx.chain(h)[j]).offset == off
                        && idx.chain(h)[j].strong_hash == fnv1a(block);
                assert(entry_ok(src, bs, h, idx.chain(h)[j]));
                assert(fnv1a(src.subrange(off as int, off + bs)) == fnv1a(block));
                assert(src.subrange(off as int, off + bs) == block);
                let iv = InstructionView::Copy { offset: off, length: bs as u32 };
                let pushed = instrs.push(iv);
                lemma_instrs_output_push(src, instrs, iv);
                assert(instr_output(src, iv) == block);
                assert forall|k: int|
                    0 <= k < pushed.len() implies instruction_encodable(#[trigger] pushed[k])
                    && (match pushed[k] {
                    InstructionView::Copy { offset, length } => offset + length <= src.len(),
                    InstructionView::Insert { data } => data.len() > 0,
                }) by {
                    if k < instrs.len() {
                        assert(pushed[k] == instrs[k]);
                        assert(instruction_encodable(instrs[k]));
                        assert(match instrs[k] {
                            InstructionView::Copy { offset, length } => offset + length
                                <= src.len(),
                            InstructionView::Insert { data } => data.len() > 0,
                        });
                    }
                }
                lemma_drain_reconstructs(idx, bs, buffer.skip(bs as int), pushed);
                assert((instrs_output(src, instrs) + block) + buffer.skip(bs as int)
                    =~= instrs_output(src, instrs) + buffer);
            },
            None => {
                lemma_append_byte_output(src, instrs, buffer[0]);
                lemma_append_byte_wf(instrs, buffer[0], src.len() as int);
                lemma_drain_reconstructs(idx, bs, buffer.skip(1), append_byte(instrs, buffer[0]));
                assert((instrs_output(src, instrs) + seq![buffer[0]]) + buffer.skip(1)
                    =~= instrs_output(src, instrs) + buffer);
            },
        }
    }
}

/// Streaming diff engine over a frozen block index.
pub struct StreamingDiff {
    index: BlockIndex,
    block_size: usize,
    hasher: RollingHash,
    pending_insert: Vec<u8>,
    instructions: Vec<Instruction>,
    target_position: usize,
    source_size: u64,
}

impl StreamingDiff {
    /// The frozen index the matcher consults.
    pub closed spec fn index_model(self) -> BlockIndex {
        self.index
    }

    /// The block size matching runs at.
    pub closed spec fn bsize(self) -> nat {
        self.block_size as nat
    }

    /// The buffered target bytes not yet matched or emitted.
    pub closed spec fn buffered(self) -> Seq<u8> {
        self.pending_insert@
    }

    /// The instructions emitted so far.
    pub closed spec fn emitted(self) -> Seq<InstructionView> {
        crate::patch_format::views_of_instructions(self.instructions@)
    }

    /// Structure invariant: the index is well-formed and frozen at this
    /// block size, the buffer is below one block, and the emitted
    /// instructions are encodable with in-bounds COPYs.
    pub closed spec fn wf(self) -> bool {
        &&& self.index.wf()
        &&& self.index.bsize() == self.block_size
        &&& 1 <= self.block_size <= u32::MAX
        &&& self.hasher.wf()
        &&& self.hasher.width() == self.block_size
        &&& self.pending_insert@.len() < self.block_size
        &&& self.target_position == instrs_output(
            self.index.indexed_bytes(),
            self.emitted(),
        ).len()
        &&& instructions_encodable(self.emitted())
        &&& inserts_nonempty(self.emitted())
        &&& crate::patch::copies_in_bounds(
            self.emitted(),
            self.index.indexed_bytes().len() as int,
        )
    }

    /// Facts `wf` gives a caller about the emitted instructions.
    pub proof fn lemma_wf_facts(self)
        requires
            self.wf(),
        ensures
            self.bsize() >= 1,
            self.buffered().len() < self.bsize(),
            instructions_encodable(self.emitted()),
            inserts_nonempty(self.emitted()),
            crate::patch::copies_in_bounds(
                self.emitted(),
                self.index_model().indexed_bytes().len() as int,
            ),
    {
    }

    /// A new engine over a frozen index.
    pub fn new(index: BlockIndex, source_size: u64) -> (r: Self)
        requires
            index.wf(),
            1 <= index.bsize() <= u32::MAX,
        ensures
            r.wf(),
            r.index_model() == index,
            r.bsize() == index.bsize(),
            r.buffered() == Seq::<u8>::empty(),
            r.emitted() == Seq::<InstructionView>::empty(),
    {
        let block_size = index.block_size();
        let r = StreamingDiff {
            index,
            block_size,
            hasher: RollingHash::new(block_size),
            pending_insert: Vec::new(),
            instructions: Vec::new(),
            target_position: 0,
            source_size,
        };
        proof {
            assert(r.emitted() =~= Seq::<InstructionView>::empty());
        }
        r
    }

    /// Feed target bytes: the buffer and instruction list move to exactly
    /// the drained state of the old buffer plus this chunk.
    pub fn process_target_chunk(&mut self, chunk: &[u8])
        requires
            old(self).wf(),
            old(self).buffered().len() + chunk@.len() <= usize::MAX,
            instrs_output(old(self).index_model().indexed_bytes(), old(self).emitted()).len()
                + old(self).buffered().len() + chunk@.len() <= usize::MAX,
        ensures
            final(self).wf(),
            final(self).index_model() == old(self).index_model(),
            final(self).bsize() == old(self).bsize(),
            (final(self).buffered(), final(self).emitted()) == drain(
                old(self).index_model(),
                old(self).bsize(),
                old(self).buffered() + chunk@,
                old(self).emitted(),
            ),
    {
        let ghost idx = self.index;
        let ghost bs_spec = self.block_size as nat;
        let ghost buffer0 = self.pending_insert@ + chunk@;
        let ghost instrs0 = self.emitted();
        let ghost out0_len = instrs_output(idx.indexed_bytes(), instrs0).len() as int;
        let bs = self.block_size;
        self.pending_insert.extend_from_slice(chunk);
        proof {
            assert(self.pending_insert@ =~= buffer0);
        }
        while self.pending_insert.len() >= bs
            invariant
                self.index == idx,
                self.block_size == bs,
                bs_spec == bs as nat,
                idx.wf(),
                idx.bsize() == bs,
                1 <= bs <= u32::MAX,
                self.hasher.wf(),
                self.hasher.width() == bs,
                instructions_encodable(self.emitted()),
                inserts_nonempty(self.emitted()),
                crate::patch::copies_in_bounds(
                    self.emitted(),
                    idx.indexed_bytes().len() as int,
                ),
                self.target_position == instrs_output(idx.indexed_bytes(), self.emitted()).len(),
                out0_len + buffer0.len() <= usize::MAX,
                instrs_output(idx.indexed_bytes(), self.emitted()).len()
                    + self.pending_insert@.len() == out0_len + buffer0.len(),
                drain(idx, bs_spec, self.pending_insert@, self.emitted()) == drain(
                    idx,
                    bs_spec,
                    buffer0,
                    instrs0,
                ),
            decreases self.pending_insert@.len(),
        {
            let ghost cur_buf = self.pending_insert@;
            let ghost cur_instrs = self.emitted();
            let block = slice_subrange(self.pending_insert.as_slice(), 0, bs);
            proof {
                assert(block@ =~= cur_buf.take(bs as int));
            }
            let weak = self.hasher.hash_chunk(block);
            let found = self.index.find_verified_match(weak, block);
            match found {
                Some(off) => {
                    let ghost iv = InstructionView::Copy { offset: off, length: bs as u32 };
                    proof {
                        assert(match_result(idx, cur_buf.take(bs as int)) == Some(off));
                        crate::patch_format::lemma_views_push(
                            self.instructions@,
                            Instruction::Copy { offset: off, length: bs as u32 },
                        );
                        lemma_instrs_output_push(idx.indexed_bytes(), cur_instrs, iv);
                        idx.lemma_chain_properties(weak_hash(cur_buf.take(bs as int)));
                        crate::block_index::lemma_first_strong_match_entry(
                            idx.chain(weak_hash(cur_buf.take(bs as int))),
                            fnv1a(cur_buf.take(bs as int)),
                        );
                    }
                    self.instructions.push(
                        Instruction::Copy { offset: off, length: bs as u32 },
                    );
                    let rest = slice_to_vec(
                        slice_subrange(
                            self.pending_insert.as_slice(),
                            bs,
                            self.pending_insert.len(),
                        ),
                    );
                    proof {
                        assert(rest@ =~= cur_buf.skip(bs as int));
                        let h = weak_hash(cur_buf.take(bs as int));
                        let sh = fnv1a(cur_buf.take(bs as int));
                        let j = choose|j: int|
                            0 <= j < idx.chain(h).len() && (#[trigger] idx.chain(h)[j]).offset
                                == off && idx.chain(h)[j].strong_hash == sh;
                        assert(entry_ok(idx.indexed_bytes(), bs_spec, h, idx.chain(h)[j]));
                        assert(instr_output(idx.indexed_bytes(), iv).len() == bs);
                        assert forall|k: int|
                            0 <= k < self.emitted().len() implies instruction_encodable(
                            #[trigger] self.emitted()[k],
                        ) && (match self.emitted()[k] {
                            InstructionView::Copy { offset, length } => offset + length
                                <= idx.indexed_bytes().len(),
                            InstructionView::Insert { data } => data.len() > 0,
                        }) by {
                            if k < cur_instrs.len() {
                                assert(self.emitted()[k] == cur_instrs[k]);
                                assert(instruction_encodable(cur_instrs[k]));
                                assert(match cur_instrs[k] {
                                    InstructionView::Copy { offset, length } => offset + length
                                        <= idx.indexed_bytes().len(),
                                    InstructionView::Insert { data } => data.len() > 0,
                                });
                            }
                        }
                        if strong_hash_collision_free(idx.indexed_bytes(), bs_spec) {
                            assert(fnv1a(
                                idx.indexed_bytes().subrange(off as int, off + bs_spec),
                            ) == fnv1a(cur_buf.take(bs as int)));
                            assert(idx.indexed_bytes().subrange(off as int, off + bs_spec)
                                == cur_buf.take(bs as int));
                        }
                    }
                    self.pending_insert = rest;
                    self.target_position = self.target_position + bs;
                },
                None => {
                    let b = self.pending_insert[0];
                    proof {
                        assert(match_result(idx, cur_buf.take(bs as int)) == None::<u64>);
                        lemma_append_byte_output(idx.indexed_bytes(), cur_instrs, b);
                        lemma_append_byte_wf(cur_instrs, b, idx.indexed_bytes().len() as int);
                    }
                    self.push_unmatched_byte(b);
                    let rest = slice_to_vec(
                        slice_subrange(
                            self.pending_insert.as_slice(),
                            1,
                            self.pending_insert.len(),
                        ),
                    );
                    proof {
                        assert(rest@ =~= cur_buf.skip(1));
                        assert(cur_buf[0] == b);
                    }
                    self.pending_insert = rest;
                    self.target_position = self.target_position + 1;
                },
            }
        }
        proof {
            assert(drain(idx, bs_spec, self.pending_insert@, self.emitted()) == (
                self.pending_insert@,
                self.emitted(),
            ));
        }
    }

    /// Move one unmatched byte into the trailing INSERT, or open a new one.
    fn push_unmatched_byte(&mut self, b: u8)
        ensures
            final(self).emitted() == append_byte(old(self).emitted(), b),
            final(self).index == old(self).index,
            final(self).block_size == old(self).block_size,
            final(self).hasher == old(self).hasher,
            final(self).pending_insert == old(self).pending_insert,
            final(self).target_position == old(self).target_position,
            final(self).source_size == old(self).source_size,
    {
        let ghost old_views = self.emitted();
        match self.instructions.pop() {
            Some(Instruction::Insert { mut data }) => {
                if data.len() < (u32::MAX as usize) {
                    proof {
                        assert(old_views.last() == (InstructionView::Insert { data: data@ }));
                        assert(old_views.drop_last() =~= crate::patch_format::views_of_instructions(
                            self.instructions@,
                        ));
                    }
                    data.push(b);
                    proof {
                        crate::patch_format::lemma_views_push(
                            self.instructions@,
                            Instruction::Insert { data },
                        );
                    }
                    self.instructions.push(Instruction::Insert { data });
                    proof {
                        assert(self.emitted() =~= append_byte(old_views, b));
                    }
                } else {
                    proof {
                        crate::patch_format::lemma_views_push(
                            self.instructions@,
                            Instruction::Insert { data },
                        );
                    }
                    self.instructions.push(Instruction::Insert { data });
                    let mut fresh: Vec<u8> = Vec::new();
                    fresh.push(b);
                    proof {
                        crate::patch_format::lemma_views_push(
                            self.instructions@,
                            Instruction::Insert { data: fresh },
                        );
                    }
                    self.instructions.push(Instruction::Insert { data: fresh });
                    proof {
                        assert(self.emitted() =~= append_byte(old_views, b));
                    }
                }
            },
            Some(other) => {
                proof {
                    crate::patch_format::lemma_views_push(self.instructions@, other);
                }
                self.instructions.push(other);
                let mut fresh: Vec<u8> = Vec::new();
                fresh.push(b);
                proof {
                    crate::patch_format::lemma_views_push(
                        self.instructions@,
                        Instruction::Insert { data: fresh },
                    );
                }
                self.instructions.push(Instruction::Insert { data: fresh });
                proof {
                    assert(self.emitted() =~= append_byte(old_views, b));
                }
            },
            None => {
                let mut fresh: Vec<u8> = Vec::new();
                fresh.push(b);
                proof {
                    crate::patch_format::lemma_views_push(
                        self.instructions@,
                        Instruction::Insert { data: fresh },
                    );
                }
                self.instructions.push(Instruction::Insert { data: fresh });
                proof {
                    assert(self.emitted() =~= append_byte(old_views, b));
                }
            },
        }
    }

    /// Flush the remaining buffered bytes as INSERT data and hand back the
    /// finished instruction list.
    pub fn finalize(self) -> (r: Vec<Instruction>)
        requires
            self.wf(),
        ensures
            crate::patch_format::views_of_instructions(r@) == append_all(
                self.emitted(),
                self.buffered(),
            ),
    {
        let ghost target_views = append_all(self.emitted(), self.buffered());
        let mut engine = self;
        let mut i: usize = 0;
        let mut tail: Vec<u8> = Vec::new();
        core::mem::swap(&mut tail, &mut engine.pending_insert);
        proof {
            assert(tail@.skip(0) =~= tail@);
        }
        while i < tail.len()
            invariant
                i <= tail@.len(),
                append_all(engine.emitted(), tail@.skip(i as int)) == target_views,
            decreases tail@.len() - i,
        {
            proof {
                assert(tail@.skip(i as int)[0] == tail@[i as int]);
                assert(tail@.skip(i as int).drop_first() =~= tail@.skip(i + 1));
            }
            engine.push_unmatched_byte(tail[i]);
            i = i + 1;
        }
        proof {
            assert(tail@.skip(tail@.len() as int) =~= Seq::<u8>::empty());
        }
        engine.instructions
    }

    /// Number of instructions emitted so far.
    pub fn instruction_count(&self) -> (r: usize)
        ensures
            r == self.emitted().len(),
    {
        self.instructions.len()
    }

    /// Number of target bytes already matched or moved into INSERTs.
    pub fn bytes_processed(&self) -> (r: usize)
        requires
            self.wf(),
        ensures
            r == instrs_output(self.index_model().indexed_bytes(), self.emitted()).len(),
    {
        self.target_position
    }

    /// Append the encodings of the emitted instructions with indices in
    /// `[from, upto)` to `out`.
    pub fn serialize_range(&self, from: usize, upto: usize, out: &mut Vec<u8>)
        requires
            self.wf(),
            from <= upto <= self.emitted().len(),
        ensures
            final(out)@ == old(out)@ + crate::patch_format::spec_instructions_bytes(
                self.emitted().subrange(from as int, upto as int),
            ),
    {
        let ghost views = self.emitted();
        let mut j: usize = from;
        proof {
            assert(views.subrange(from as int, from as int) =~= Seq::<InstructionView>::empty());
            assert(out@ + Seq::<u8>::empty() =~= out@);
        }
        while j < upto
            invariant
                from <= j <= upto <= views.len(),
                self.wf(),
                views == self.emitted(),
                out@ == old(out)@ + crate::patch_format::spec_instructions_bytes(
                    views.subrange(from as int, j as int),
                ),
            decreases upto - j,
        {
            proof {
                assert(views.subrange(from as int, j + 1) =~= views.subrange(
                    from as int,
                    j as int,
                ).push(views[j as int]));
                crate::patch_format::lemma_instructions_bytes_push(
                    views.subrange(from as int, j as int),
                    views[j as int],
                );
                assert(views[j as int] == self.instructions@[j as int]@);
                assert(crate::patch_format::instruction_encodable(views[j as int]));
            }
            crate::patch_format::append_instruction(out, &self.instructions[j]);
            proof {
                assert((old(out)@ + crate::patch_format::spec_instructions_bytes(
                    views.subrange(from as int, j as int),
                )) + crate::patch_format::spec_instruction_bytes(views[j as int]) =~= old(out)@
                    + crate::patch_format::spec_instructions_bytes(
                    views.subrange(from as int, j + 1),
                ));
            }
            j = j + 1;
        }
    }
}

} // verus!
