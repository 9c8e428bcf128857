//! Streaming patch producer.
//!
//! Source chunks feed the block index and the source hash; target chunks run
//! through the streaming matcher; completed instructions are serialized
//! immediately, so the patch leaves as an append-only byte stream: the
//! 33-byte header once, then every instruction's encoding in order.

use crate::block_index::BlockIndex;
use crate::hash::{fnv1a, HashBuilder};
use crate::matcher::DEFAULT_CHUNK_SIZE;
use crate::patch::{copies_in_bounds, inserts_nonempty, instrs_output};
use crate::patch_format::{
    instructions_encodable, spec_header_bytes, spec_instructions_bytes, InstructionView,
};
use crate::streaming_diff::{append_all, drain, StreamingDiff};
use vstd::bytes::{u32_to_le_bytes, u64_to_le_bytes};
use vstd::prelude::*;
use vstd::slice::{slice_subrange, slice_to_vec};

verus! {

/// Streaming patch builder: feed the source, then the target, and drain the
/// serialized patch bytes as they become available.
pub struct PatchBuilder {
    source_index: BlockIndex,
    source_hasher: HashBuilder,
    target_hasher: HashBuilder,
    source_size: u64,
    target_size: u64,
    target_total_size: u64,
    diff: Option<StreamingDiff>,
    source_finalized: bool,
    chunk_size: usize,
    output_buffer: Vec<u8>,
    header_written: bool,
    target_finalized: bool,
    serialized: usize,
    frozen: Ghost<BlockIndex>,
    done: Ghost<Seq<InstructionView>>,
    flushed_bytes: Ghost<Seq<u8>>,
}

/// Concatenation of byte sequences is associative.
proof fn lemma_seq_assoc(a: Seq<u8>, b: Seq<u8>, c: Seq<u8>)
    ensures
        (a + b) + c == a + (b + c),
{
    assert((a + b) + c =~= a + (b + c));
}

/// An empty prefix disappears.
proof fn lemma_prepend_empty(a: Seq<u8>, b: Seq<u8>)
    requires
        a.len() == 0,
    ensures
        a + b == b,
{
    assert(a + b =~= b);
}

/// An empty suffix disappears.
proof fn lemma_append_empty(a: Seq<u8>, b: Seq<u8>)
    requires
        b.len() == 0,
    ensures
        a + b == a,
{
    assert(a + b =~= a);
}

/// Equal concatenations with the same prefix have equal suffixes.
proof fn lemma_cancel_prefix(a: Seq<u8>, b: Seq<u8>, c: Seq<u8>)
    requires
        a + b == a + c,
    ensures
        b == c,
{
    assert(b =~= (a + b).skip(a.len() as int));
    assert(c =~= (a + c).skip(a.len() as int));
}

impl PatchBuilder {
    /// The chunk size the patch is generated at.
    pub closed spec fn cs(self) -> nat {
        self.chunk_size as nat
    }

    /// All source bytes fed so far, in order.
    pub closed spec fn src_bytes(self) -> Seq<u8> {
        self.source_hasher.bytes()
    }

    /// All target bytes fed so far, in order.
    pub closed spec fn tgt_bytes(self) -> Seq<u8> {
        self.target_hasher.bytes()
    }

    /// The target length promised for the header.
    pub closed spec fn promised_target_size(self) -> u64 {
        self.target_total_size
    }

    /// Whether the source has been frozen.
    pub closed spec fn is_source_finalized(self) -> bool {
        self.source_finalized
    }

    /// Whether the target has been finalized.
    pub closed spec fn is_target_finalized(self) -> bool {
        self.target_finalized
    }

    /// Whether the header bytes have already left with a flush.
    pub closed spec fn is_header_written(self) -> bool {
        self.header_written
    }

    /// The patch bytes already handed to the caller, in order.
    pub closed spec fn flushed(self) -> Seq<u8> {
        self.flushed_bytes@
    }

    /// The frozen index model the matcher works against.
    pub closed spec fn frozen_index(self) -> BlockIndex {
        self.frozen@
    }

    /// The finished instruction list, meaningful once the target is
    /// finalized.
    pub closed spec fn final_instructions(self) -> Seq<InstructionView> {
        self.done@
    }

    /// The header this builder writes: magic, version, chunk size, source
    /// length and hash, promised target length.
    pub closed spec fn hdr(self) -> Seq<u8> {
        spec_header_bytes(
            self.chunk_size as u32,
            self.source_size,
            fnv1a(self.src_bytes()),
            self.target_total_size,
        )
    }

    /// The patch bytes not yet flushed: the header if still unwritten, then
    /// the queued instruction encodings.
    pub closed spec fn pending_stream(self) -> Seq<u8> {
        (if !self.header_written {
            self.hdr()
        } else {
            Seq::empty()
        }) + self.output_buffer@
    }

    /// The whole logical patch byte stream, flushed part first.
    pub open spec fn stream(self) -> Seq<u8> {
        self.flushed() + self.pending_stream()
    }

    /// The drained matcher state over the bytes fed so far.
    pub closed spec fn drained(self) -> (Seq<u8>, Seq<InstructionView>) {
        drain(self.frozen@, self.cs(), self.tgt_bytes(), Seq::empty())
    }

    /// Structure invariant.
    pub closed spec fn wf(self) -> bool {
        &&& 1 <= self.chunk_size <= u32::MAX
        &&& self.source_hasher.wf()
        &&& self.target_hasher.wf()
        &&& self.source_size == self.src_bytes().len()
        &&& self.target_size == self.tgt_bytes().len()
        &&& (self.header_written ==> self.source_finalized)
        &&& (self.target_finalized ==> self.source_finalized)
        &&& (!self.header_written ==> self.flushed_bytes@.len() == 0)
        &&& if !self.source_finalized {
            &&& self.diff is None
            &&& self.source_index.wf()
            &&& self.source_index.bsize() == self.chunk_size
            &&& self.source_index.processed() == self.src_bytes()
            &&& self.tgt_bytes().len() == 0
            &&& self.serialized == 0
            &&& self.output_buffer@.len() == 0
            &&& !self.header_written
            &&& !self.target_finalized
            &&& self.flushed_bytes@.len() == 0
        } else {
            &&& self.frozen@.wf()
            &&& self.frozen@.bsize() == self.chunk_size
            &&& self.frozen@.tail().len() == 0
            &&& self.frozen@.indexed_bytes().len() <= self.src_bytes().len()
            &&& self.src_bytes().len() - self.frozen@.indexed_bytes().len() < self.chunk_size
            &&& self.frozen@.indexed_bytes() == self.src_bytes().take(
                self.frozen@.indexed_bytes().len() as int,
            )
            &&& if !self.target_finalized {
                &&& match self.diff {
                    Some(d) => {
                        &&& d.wf()
                        &&& d.index_model() == self.frozen@
                        &&& d.bsize() == self.cs()
                        &&& (d.buffered(), d.emitted()) == self.drained()
                        &&& (self.serialized + 1 <= d.emitted().len() || self.serialized == 0)
                        &&& self.stream() == self.hdr() + spec_instructions_bytes(
                            d.emitted().take(self.serialized as int),
                        )
                    },
                    None => false,
                }
            } else {
                &&& self.diff is None
                &&& self.done@ == append_all(self.drained().1, self.drained().0)
                &&& instructions_encodable(self.done@)
                &&& inserts_nonempty(self.done@)
                &&& copies_in_bounds(self.done@, self.frozen@.indexed_bytes().len() as int)
                &&& self.stream() == self.hdr() + spec_instructions_bytes(self.done@)
            }
        }
    }

    /// A fresh builder with the default chunk size.
    pub fn new() -> (r: Self)
        ensures
            r.wf(),
            r.cs() == DEFAULT_CHUNK_SIZE,
            r.src_bytes() == Seq::<u8>::empty(),
            r.tgt_bytes() == Seq::<u8>::empty(),
            !r.is_source_finalized(),
            !r.is_target_finalized(),
            r.promised_target_size() == 0,
            r.flushed() == Seq::<u8>::empty(),
    {
        PatchBuilder {
            source_index: BlockIndex::with_block_size(DEFAULT_CHUNK_SIZE),
            source_hasher: HashBuilder::new(),
            target_hasher: HashBuilder::new(),
            source_size: 0,
            target_size: 0,
            target_total_size: 0,
            diff: None,
            source_finalized: false,
            chunk_size: DEFAULT_CHUNK_SIZE,
            output_buffer: Vec::new(),
            header_written: false,
            target_finalized: false,
            serialized: 0,
            frozen: Ghost(arbitrary()),
            done: Ghost(Seq::empty()),
            flushed_bytes: Ghost(Seq::empty()),
        }
    }

    /// Feed source bytes; ignored once the source is finalized.
    pub fn add_source_chunk(&mut self, chunk: &[u8])
        requires
            old(self).wf(),
            !old(self).is_source_finalized() ==> old(self).src_bytes().len() + chunk@.len()
                <= u64::MAX,
        ensures
            final(self).wf(),
            final(self).cs() == old(self).cs(),
            old(self).is_source_finalized() ==> *final(self) == *old(self),
            !old(self).is_source_finalized() ==> ({
                &&& final(self).src_bytes() == old(self).src_bytes() + chunk@
                &&& final(self).tgt_bytes() == old(self).tgt_bytes()
                &&& !final(self).is_source_finalized()
                &&& final(self).flushed() == old(self).flushed()
                &&& final(self).promised_target_size() == old(self).promised_target_size()
            }),
    {
        if self.source_finalized {
            return;
        }
        self.source_hasher.update(chunk);
        self.source_index.add_chunk(chunk);
        self.source_size = self.source_size + (chunk.len() as u64);
    }

    /// Freeze the source: no further source bytes are accepted, and the
    /// matcher takes over the index.
    pub fn finalize_source(&mut self)
        requires
            old(self).wf(),
        ensures
            final(self).wf(),
            final(self).cs() == old(self).cs(),
            final(self).is_source_finalized(),
            final(self).src_bytes() == old(self).src_bytes(),
            final(self).tgt_bytes() == old(self).tgt_bytes(),
            final(self).flushed() == old(self).flushed(),
            final(self).is_target_finalized() == old(self).is_target_finalized(),
            final(self).promised_target_size() == old(self).promised_target_size(),
            !old(self).is_source_finalized() ==> !final(self).is_header_written(),
            old(self).is_source_finalized() ==> *final(self) == *old(self),
    {
        if self.source_finalized {
            return;
        }
        let mut index = BlockIndex::with_block_size(self.chunk_size);
        core::mem::swap(&mut index, &mut self.source_index);
        let ghost pre = index;
        index.finalize();
        proof {
            pre.lemma_wf_facts();
            assert(index.indexed_bytes() + pre.tail() == self.src_bytes());
            assert(index.indexed_bytes() =~= self.src_bytes().take(
                index.indexed_bytes().len() as int,
            ));
        }
        self.frozen = Ghost(index);
        let diff = StreamingDiff::new(index, self.source_size);
        self.diff = Some(diff);
        self.source_finalized = true;
        proof {
            assert(self.drained() == (self.tgt_bytes(), Seq::<InstructionView>::empty())) by {
                assert(self.tgt_bytes().len() == 0);
            }
            assert(self.diff is Some);
            let d = self.diff.unwrap();
            assert(d.buffered() =~= self.tgt_bytes());
            assert(d.emitted().take(0) =~= Seq::<InstructionView>::empty());
            assert(spec_instructions_bytes(d.emitted().take(0)) == Seq::<u8>::empty());
            lemma_prepend_empty(self.flushed_bytes@, self.pending_stream());
            lemma_append_empty(self.hdr(), self.output_buffer@);
            lemma_append_empty(self.hdr(), spec_instructions_bytes(d.emitted().take(0)));
            assert(self.stream() == self.hdr() + spec_instructions_bytes(d.emitted().take(0)));
        }
    }

    /// Record the total target length for the header; must come before the
    /// header leaves with the first flush.
    pub fn set_target_size(&mut self, size: u64)
        requires
            old(self).wf(),
            !old(self).is_header_written(),
        ensures
            final(self).wf(),
            final(self).promised_target_size() == size,
            final(self).cs() == old(self).cs(),
            final(self).src_bytes() == old(self).src_bytes(),
            final(self).tgt_bytes() == old(self).tgt_bytes(),
            final(self).flushed() == old(self).flushed(),
            final(self).is_source_finalized() == old(self).is_source_finalized(),
            final(self).is_target_finalized() == old(self).is_target_finalized(),
    {
        proof {
            if self.source_finalized {
                let c = if !self.target_finalized {
                    spec_instructions_bytes(self.diff.unwrap().emitted().take(self.serialized as int))
                } else {
                    spec_instructions_bytes(self.done@)
                };
                assert(self.stream() == self.hdr() + c);
                lemma_prepend_empty(self.flushed_bytes@, self.pending_stream());
                assert(self.hdr() + self.output_buffer@ == self.hdr() + c);
                lemma_cancel_prefix(self.hdr(), self.output_buffer@, c);
            }
        }
        let ghost queued = self.output_buffer@;
        let ghost flushed0 = self.flushed_bytes@;
        self.target_total_size = size;
        proof {
            if self.source_finalized {
                lemma_prepend_empty(flushed0, self.pending_stream());
            }
        }
    }

    /// Feed target bytes: the matcher consumes them and every instruction
    /// completed by this chunk is serialized into the output queue.
    #[verifier::rlimit(100)]
    pub fn add_target_chunk(&mut self, chunk: &[u8])
        requires
            old(self).wf(),
            !old(self).is_target_finalized(),
            old(self).tgt_bytes().len() + chunk@.len() <= usize::MAX,
        ensures
            final(self).wf(),
            final(self).cs() == old(self).cs(),
            final(self).is_source_finalized(),
            !final(self).is_target_finalized(),
            final(self).src_bytes() == old(self).src_bytes(),
            final(self).tgt_bytes() == old(self).tgt_bytes() + chunk@,
            final(self).flushed() == old(self).flushed(),
            final(self).promised_target_size() == old(self).promised_target_size(),
    {
        if !self.source_finalized {
            self.finalize_source();
        }
        self.target_hasher.update(chunk);
        self.target_size = self.target_size + (chunk.len() as u64);
        let ghost idx = self.frozen@;
        let ghost bs = self.cs();
        let ghost tgt0 = self.target_hasher.bytes();
        let mut d_opt: Option<StreamingDiff> = None;
        core::mem::swap(&mut d_opt, &mut self.diff);
        match d_opt {
            Some(mut d) => {
                let ghost old_emitted = d.emitted();
                proof {
                    crate::streaming_diff::lemma_drain_len(idx, bs, d.buffered(), d.emitted());
                    crate::streaming_diff::lemma_drain_len(
                        idx,
                        bs,
                        old(self).tgt_bytes(),
                        Seq::empty(),
                    );
                    assert(instrs_output(idx.indexed_bytes(), Seq::empty()).len() == 0);
                }
                d.process_target_chunk(chunk);
                proof {
                    crate::streaming_diff::lemma_drain_compose(
                        idx,
                        bs,
                        old(self).tgt_bytes(),
                        chunk@,
                        Seq::empty(),
                    );
                    assert((d.buffered(), d.emitted()) == drain(
                        idx,
                        bs,
                        old(self).tgt_bytes() + chunk@,
                        Seq::empty(),
                    ));
                    crate::streaming_diff::lemma_drain_prefix_stable(
                        idx,
                        bs,
                        drain(idx, bs, old(self).tgt_bytes(), Seq::empty()).0 + chunk@,
                        old_emitted,
                        self.serialized as int,
                    );
                    assert(d.emitted().len() >= old_emitted.len());
                    assert(d.emitted().take(self.serialized as int) =~= old_emitted.take(
                        self.serialized as int,
                    ));
                }
                let ghost ser0 = self.serialized as int;
                let ghost buf0 = self.output_buffer@;
                let ghost hdrpart = if !self.header_written {
                    self.hdr()
                } else {
                    Seq::<u8>::empty()
                };
                proof {
                    assert(self.flushed_bytes@ + (hdrpart + buf0) == self.hdr()
                        + spec_instructions_bytes(old_emitted.take(ser0)));
                    assert(spec_instructions_bytes(d.emitted().take(ser0))
                        == spec_instructions_bytes(old_emitted.take(ser0)));
                }
                let count = d.instruction_count();
                if count > 0 && self.serialized < count - 1 {
                    let upto = count - 1;
                    d.serialize_range(self.serialized, upto, &mut self.output_buffer);
                    let ghost delta = spec_instructions_bytes(
                        d.emitted().subrange(ser0, upto as int),
                    );
                    proof {
                        assert(self.output_buffer@ == buf0 + delta);
                        assert(d.emitted().take(upto as int) =~= d.emitted().take(ser0)
                            + d.emitted().subrange(ser0, upto as int));
                        crate::patch_format::lemma_instructions_bytes_concat(
                            d.emitted().take(ser0),
                            d.emitted().subrange(ser0, upto as int),
                        );
                        lemma_seq_assoc(hdrpart, buf0, delta);
                        lemma_seq_assoc(self.flushed_bytes@, hdrpart + buf0, delta);
                        lemma_seq_assoc(
                            self.hdr(),
                            spec_instructions_bytes(old_emitted.take(ser0)),
                            delta,
                        );
                        assert(self.flushed_bytes@ + (hdrpart + self.output_buffer@) == self.hdr()
                            + spec_instructions_bytes(d.emitted().take(upto as int)));
                    }
                    self.serialized = upto;
                }
                self.diff = Some(d);
                proof {
                    assert(self.stream() == self.hdr() + spec_instructions_bytes(
                        d.emitted().take(self.serialized as int),
                    ));
                }
            },
            None => {
                proof {
                    assert(false);
                }
            },
        }
    }

    /// Flush the trailing INSERT and close the instruction stream.
    #[verifier::rlimit(100)]
    pub fn finalize_target(&mut self)
        requires
            old(self).wf(),
        ensures
            final(self).wf(),
            final(self).cs() == old(self).cs(),
            final(self).is_source_finalized(),
            final(self).is_target_finalized(),
            final(self).src_bytes() == old(self).src_bytes(),
            final(self).tgt_bytes() == old(self).tgt_bytes(),
            final(self).flushed() == old(self).flushed(),
            final(self).promised_target_size() == old(self).promised_target_size(),
            old(self).is_target_finalized() ==> *final(self) == *old(self),
    {
        if self.target_finalized {
            return;
        }
        if !self.source_finalized {
            self.finalize_source();
        }
        let ghost idx = self.frozen@;
        let ghost bs = self.cs();
        let mut d_opt: Option<StreamingDiff> = None;
        core::mem::swap(&mut d_opt, &mut self.diff);
        match d_opt {
            Some(d) => {
                let ghost emitted = d.emitted();
                let ghost buffered = d.buffered();
                proof {
                    d.lemma_wf_facts();
                    crate::streaming_diff::lemma_append_all_prefix_stable(
                        emitted,
                        buffered,
                        self.serialized as int,
                    );
                    crate::streaming_diff::lemma_append_all_wf(
                        emitted,
                        buffered,
                        idx.indexed_bytes().len() as int,
                    );
                }
                let instructions = d.finalize();
                let ghost all = crate::patch_format::views_of_instructions(instructions@);
                proof {
                    assert(all == append_all(emitted, buffered));
                    assert(all.take(self.serialized as int) =~= emitted.take(
                        self.serialized as int,
                    ));
                }
                let ghost ser = self.serialized as int;
                let ghost old_buf = self.output_buffer@;
                let ghost hdrpart = if !self.header_written {
                    self.hdr()
                } else {
                    Seq::<u8>::empty()
                };
                proof {
                    assert(self.flushed_bytes@ + (hdrpart + old_buf) == self.hdr()
                        + spec_instructions_bytes(emitted.take(ser)));
                }
                crate::patch_format::serialize_instruction_range(
                    &instructions,
                    self.serialized,
                    &mut self.output_buffer,
                );
                let ghost delta = spec_instructions_bytes(all.subrange(ser, all.len() as int));
                proof {
                    assert(self.output_buffer@ == old_buf + delta);
                    assert(all =~= all.take(ser) + all.subrange(ser, all.len() as int));
                    crate::patch_format::lemma_instructions_bytes_concat(
                        all.take(ser),
                        all.subrange(ser, all.len() as int),
                    );
                    assert(spec_instructions_bytes(all) == spec_instructions_bytes(
                        emitted.take(ser),
                    ) + delta);
                    lemma_seq_assoc(hdrpart, old_buf, delta);
                    lemma_seq_assoc(self.flushed_bytes@, hdrpart + old_buf, delta);
                    lemma_seq_assoc(
                        self.hdr(),
                        spec_instructions_bytes(emitted.take(ser)),
                        delta,
                    );
                    assert(self.flushed_bytes@ + (hdrpart + self.output_buffer@) == self.hdr()
                        + spec_instructions_bytes(all));
                }
                self.done = Ghost(all);
                self.serialized = instructions.len();
                self.target_finalized = true;
                proof {
                    assert(self.stream() == self.hdr() + spec_instructions_bytes(all));
                }
            },
            None => {
                proof {
                    assert(false);
                }
            },
        }
    }

    /// Number of source bytes received so far.
    pub fn source_size(&self) -> (r: usize)
        requires
            self.wf(),
        ensures
            r == self.src_bytes().len() as usize,
    {
        self.source_size as usize
    }

    /// Number of target bytes received so far.
    pub fn target_size(&self) -> (r: usize)
        requires
            self.wf(),
        ensures
            r == self.tgt_bytes().len() as usize,
    {
        self.target_size as usize
    }

    /// Whether source and target have the same length and content hash;
    /// only meaningful after all data has been processed.
    pub fn are_files_identical(&self) -> (r: bool)
        requires
            self.wf(),
        ensures
            r == (self.src_bytes().len() == self.tgt_bytes().len() && fnv1a(self.src_bytes())
                == fnv1a(self.tgt_bytes())),
    {
        let same_size = self.source_size == self.target_size;
        let same_hash = self.source_hasher.finalize() == self.target_hasher.finalize();
        same_size && same_hash
    }

    /// Whether a flush would return any bytes.
    pub fn has_output(&self) -> (r: bool)
        requires
            self.wf(),
        ensures
            r == (self.pending_stream().len() > 0),
    {
        proof {
            vstd::bytes::lemma_auto_spec_u64_to_from_le_bytes();
            vstd::bytes::lemma_auto_spec_u32_to_from_le_bytes();
        }
        !self.header_written || !self.output_buffer.is_empty()
    }

    /// Number of queued patch bytes beyond the header.
    pub fn pending_output_size(&self) -> (r: usize)
        requires
            self.wf(),
        ensures
            self.is_header_written() ==> r == self.pending_stream().len(),
            !self.is_header_written() ==> r + 33 == self.pending_stream().len(),
    {
        proof {
            vstd::bytes::lemma_auto_spec_u64_to_from_le_bytes();
            vstd::bytes::lemma_auto_spec_u32_to_from_le_bytes();
        }
        self.output_buffer.len()
    }

    /// Hand out up to `max_size` of the next patch bytes: the header first,
    /// then queued instruction bytes in order.
    #[verifier::rlimit(100)]
    pub fn flush_output(&mut self, max_size: usize) -> (r: Vec<u8>)
        requires
            old(self).wf(),
            old(self).is_source_finalized(),
            !old(self).is_header_written() ==> max_size >= 33,
        ensures
            final(self).wf(),
            final(self).cs() == old(self).cs(),
            final(self).src_bytes() == old(self).src_bytes(),
            final(self).tgt_bytes() == old(self).tgt_bytes(),
            final(self).is_source_finalized(),
            final(self).is_target_finalized() == old(self).is_target_finalized(),
            final(self).is_header_written(),
            final(self).promised_target_size() == old(self).promised_target_size(),
            r@.len() <= max_size,
            r@ == old(self).pending_stream().take(r@.len() as int),
            final(self).pending_stream() == old(self).pending_stream().skip(r@.len() as int),
            final(self).flushed() == old(self).flushed() + r@,
            final(self).stream() == old(self).stream(),
            r@.len() == if max_size <= old(self).pending_stream().len() {
                max_size as int
            } else {
                old(self).pending_stream().len() as int
            },
    {
        let mut result: Vec<u8> = Vec::with_capacity(max_size);
        if !self.header_written {
            result.push(0x50);
            result.push(0x54);
            result.push(0x43);
            result.push(0x48);
            result.push(crate::patch_format::VERSION);
            let mut word = u32_to_le_bytes(self.chunk_size as u32);
            result.append(&mut word);
            let mut word = u64_to_le_bytes(self.source_size);
            result.append(&mut word);
            let source_hash = self.source_hasher.finalize();
            let mut word = u64_to_le_bytes(source_hash);
            result.append(&mut word);
            let mut word = u64_to_le_bytes(self.target_total_size);
            result.append(&mut word);
            proof {
                assert(result@ =~= self.hdr());
            }
            self.header_written = true;
        }
        let space = max_size - result.len();
        let take_n = if space < self.output_buffer.len() {
            space
        } else {
            self.output_buffer.len()
        };
        let ghost pending0 = old(self).pending_stream();
        result.extend_from_slice(slice_subrange(self.output_buffer.as_slice(), 0, take_n));
        let rest = slice_to_vec(
            slice_subrange(self.output_buffer.as_slice(), take_n, self.output_buffer.len()),
        );
        self.output_buffer = rest;
        proof {
            assert(result@ =~= pending0.take(result@.len() as int));
            assert(self.pending_stream() =~= pending0.skip(result@.len() as int));
        }
        self.flushed_bytes = Ghost(self.flushed_bytes@ + result@);
        proof {
            assert(self.stream() =~= old(self).stream());
        }
        result
    }

    /// Return to the initial state, keeping the chunk size.
    pub fn reset(&mut self)
        requires
            old(self).wf(),
        ensures
            final(self).wf(),
            final(self).cs() == old(self).cs(),
            final(self).src_bytes() == Seq::<u8>::empty(),
            final(self).tgt_bytes() == Seq::<u8>::empty(),
            !final(self).is_source_finalized(),
            !final(self).is_target_finalized(),
            final(self).promised_target_size() == 0,
            final(self).flushed() == Seq::<u8>::empty(),
    {
        self.source_index = BlockIndex::with_block_size(self.chunk_size);
        self.source_hasher = HashBuilder::new();
        self.target_hasher = HashBuilder::new();
        self.source_size = 0;
        self.target_size = 0;
        self.target_total_size = 0;
        self.diff = None;
        self.source_finalized = false;
        self.output_buffer = Vec::new();
        self.header_written = false;
        self.target_finalized = false;
        self.serialized = 0;
        self.flushed_bytes = Ghost(Seq::empty());
    }
}

/// The finished stream is a well-formed patch, and — whenever the strong
/// hash is collision-free over the indexed source and the promised target
/// size was the target's true length — applying it to the source yields
/// exactly the target.
pub proof fn lemma_built_patch_applies(b: PatchBuilder)
    requires
        b.wf(),
        b.is_target_finalized(),
        b.promised_target_size() == b.tgt_bytes().len(),
        crate::streaming_diff::strong_hash_collision_free(
            b.frozen_index().indexed_bytes(),
            b.cs(),
        ),
    ensures
        ({
            let pv = crate::patch_format::PatchView {
                chunk_size: b.cs() as u32,
                source_size: b.src_bytes().len() as u64,
                source_hash: fnv1a(b.src_bytes()),
                target_size: b.tgt_bytes().len() as u64,
                instructions: b.final_instructions(),
            };
            &&& crate::patch_format::spec_parse_patch(b.stream()) == Ok::<
                crate::patch_format::PatchView,
                crate::patch_format::FormatError,
            >(pv)
            &&& crate::patch::spec_apply(b.src_bytes(), pv) == Ok::<
                Seq<u8>,
                crate::patch::PatchError,
            >(b.tgt_bytes())
        }),
{
    let idx = b.frozen_index();
    let bs = b.cs();
    let src = b.src_bytes();
    let tgt = b.tgt_bytes();
    let done = b.final_instructions();
    let pv = crate::patch_format::PatchView {
        chunk_size: bs as u32,
        source_size: src.len() as u64,
        source_hash: fnv1a(src),
        target_size: tgt.len() as u64,
        instructions: done,
    };
    assert(b.stream() == crate::patch_format::spec_patch_bytes(pv));
    crate::patch_format::lemma_parse_serialized_patch(pv);
    // The instructions reproduce the target over the indexed source.
    crate::streaming_diff::lemma_drain_reconstructs(idx, bs, tgt, Seq::empty());
    let (rb, ri) = drain(idx, bs, tgt, Seq::<InstructionView>::empty());
    assert(instrs_output(idx.indexed_bytes(), Seq::<InstructionView>::empty())
        == Seq::<u8>::empty());
    crate::streaming_diff::lemma_append_all_output(idx.indexed_bytes(), ri, rb);
    assert(instrs_output(idx.indexed_bytes(), done) == instrs_output(idx.indexed_bytes(), ri)
        + rb);
    assert(Seq::<u8>::empty() + tgt =~= tgt);
    assert(instrs_output(idx.indexed_bytes(), ri) + rb =~= tgt);
    // And therefore over the whole source, whose prefix the index covers.
    crate::patch::lemma_output_over_prefix(idx.indexed_bytes(), src, done);
    assert(instrs_output(src, done) == tgt);
    assert(copies_in_bounds(done, src.len() as int)) by {
        assert(forall|k: int|
            0 <= k < done.len() ==> match #[trigger] done[k] {
                InstructionView::Copy { offset, length } => offset + length
                    <= idx.indexed_bytes().len(),
                InstructionView::Insert { .. } => true,
            });
    }
    crate::patch::lemma_generate_apply_round_trip(src, tgt, pv);
}

} // verus!
