//! Streaming patch applier.
//!
//! The source arrives in chunks and is held as a chunk buffer with random
//! access; the patch bytes are parsed without copying INSERT payloads.
//! `prepare` checks everything up front — header framing, source validation,
//! COPY bounds, and the promised target size — so that `next_output_chunk`
//! can then stream the reconstructed target infallibly, in bounded pieces.

use crate::buffer::ChunkBuffer;
use crate::hash::{fnv1a, HashBuilder};
use crate::patch::{instrs_output, spec_apply};
use crate::patch_format::{
    lemma_parsers_agree, parsed_matches, spec_parse_header, spec_parse_patch,
    spec_parse_positions, spec_validate_source, FormatError, Patch, PatchHeader, PatchMetadata,
    ParsedInstruction, ValidationError,
};
use vstd::prelude::*;
use vstd::slice::{slice_subrange, slice_to_vec};

verus! {

/// Everything that can stop a patch from being applied.
#[derive(Debug, Clone, PartialEq, Eq)]
pub enum ApplyError {
    /// The patch bytes are malformed.
    Format(FormatError),
    /// The supplied source is not the one the patch was generated against.
    Validation(ValidationError),
    /// A COPY references bytes past the end of the source.
    CopyOutOfBounds { instruction_index: usize, offset: u64, length: u32, source_len: u64 },
    /// The instructions produce a different length than the header promises.
    TargetSizeMismatch { expected: u64, actual: u64 },
    /// An operation needs the patch, but none has been loaded.
    PatchNotLoaded,
}

/// The bytes one parsed instruction contributes: source bytes for a COPY,
/// patch bytes for an INSERT.
pub open spec fn parsed_instr_output(src: Seq<u8>, patch: Seq<u8>, p: ParsedInstruction) -> Seq<
    u8,
> {
    match p {
        ParsedInstruction::Copy { offset, length } => src.subrange(offset as int, offset + length),
        ParsedInstruction::Insert { patch_offset, length } => patch.subrange(
            patch_offset as int,
            patch_offset + length,
        ),
    }
}

/// The bytes a parsed instruction list produces, concatenated in order.
pub open spec fn parsed_outputs(src: Seq<u8>, patch: Seq<u8>, ps: Seq<ParsedInstruction>) -> Seq<
    u8,
>
    decreases ps.len(),
{
    if ps.len() == 0 {
        Seq::empty()
    } else {
        parsed_instr_output(src, patch, ps[0]) + parsed_outputs(src, patch, ps.drop_first())
    }
}

/// The first parsed instruction whose COPY runs past the source, from `i` on.
pub open spec fn first_parsed_oob(ps: Seq<ParsedInstruction>, src_len: int, i: int) -> Option<int>
    decreases ps.len() - i,
{
    if i < 0 || i >= ps.len() {
        None
    } else {
        match ps[i] {
            ParsedInstruction::Copy { offset, length } => if offset + length > src_len {
                Some(i)
            } else {
                first_parsed_oob(ps, src_len, i + 1)
            },
            ParsedInstruction::Insert { .. } => first_parsed_oob(ps, src_len, i + 1),
        }
    }
}

/// Adjacent subranges merge.
proof fn lemma_subrange_merge(s: Seq<u8>, a: int, b: int, c: int)
    requires
        0 <= a <= b <= c <= s.len(),
    ensures
        s.subrange(a, b) + s.subrange(b, c) == s.subrange(a, c),
{
    assert(s.subrange(a, b) + s.subrange(b, c) =~= s.subrange(a, c));
}

/// Splitting a parsed instruction list splits its output.
pub proof fn lemma_parsed_outputs_decompose(
    src: Seq<u8>,
    patch: Seq<u8>,
    ps: Seq<ParsedInstruction>,
    k: int,
)
    requires
        0 <= k <= ps.len(),
    ensures
        parsed_outputs(src, patch, ps) == parsed_outputs(src, patch, ps.take(k)) + parsed_outputs(
            src,
            patch,
            ps.skip(k),
        ),
    decreases k,
{
    if k == 0 {
        assert(ps.take(0) =~= Seq::<ParsedInstruction>::empty());
        assert(ps.skip(0) =~= ps);
        assert(Seq::<u8>::empty() + parsed_outputs(src, patch, ps) =~= parsed_outputs(
            src,
            patch,
            ps,
        ));
    } else {
        lemma_parsed_outputs_decompose(src, patch, ps, k - 1);
        assert(ps.take(k) =~= ps.take(k - 1).push(ps[k - 1]));
        lemma_parsed_outputs_push(src, patch, ps.take(k - 1), ps[k - 1]);
        assert(ps.skip(k - 1)[0] == ps[k - 1]);
        assert(ps.skip(k - 1).drop_first() =~= ps.skip(k));
        assert(parsed_outputs(src, patch, ps.skip(k - 1)) == parsed_instr_output(
            src,
            patch,
            ps[k - 1],
        ) + parsed_outputs(src, patch, ps.skip(k)));
        assert(parsed_outputs(src, patch, ps.take(k - 1)) + (parsed_instr_output(
            src,
            patch,
            ps[k - 1],
        ) + parsed_outputs(src, patch, ps.skip(k))) =~= (parsed_outputs(
            src,
            patch,
            ps.take(k - 1),
        ) + parsed_instr_output(src, patch, ps[k - 1])) + parsed_outputs(src, patch, ps.skip(k)));
    }
}

/// One more parsed instruction appends its output.
pub proof fn lemma_parsed_outputs_push(
    src: Seq<u8>,
    patch: Seq<u8>,
    ps: Seq<ParsedInstruction>,
    x: ParsedInstruction,
)
    ensures
        parsed_outputs(src, patch, ps.push(x)) == parsed_outputs(src, patch, ps)
            + parsed_instr_output(src, patch, x),
    decreases ps.len(),
{
    let p = ps.push(x);
    if ps.len() == 0 {
        assert(p[0] == x);
        assert(p.drop_first() =~= Seq::<ParsedInstruction>::empty());
        assert(parsed_outputs(src, patch, p) == parsed_instr_output(src, patch, x)
            + parsed_outputs(src, patch, p.drop_first()));
        assert(parsed_instr_output(src, patch, x) + Seq::<u8>::empty() =~= Seq::<u8>::empty()
            + parsed_instr_output(src, patch, x));
    } else {
        assert(p[0] == ps[0]);
        assert(p.drop_first() =~= ps.drop_first().push(x));
        lemma_parsed_outputs_push(src, patch, ps.drop_first(), x);
        assert(parsed_outputs(src, patch, p) == parsed_instr_output(src, patch, p[0])
            + parsed_outputs(src, patch, p.drop_first()));
        assert(parsed_outputs(src, patch, ps) == parsed_instr_output(src, patch, ps[0])
            + parsed_outputs(src, patch, ps.drop_first()));
        assert(parsed_instr_output(src, patch, ps[0]) + (parsed_outputs(
            src,
            patch,
            ps.drop_first(),
        ) + parsed_instr_output(src, patch, x)) =~= (parsed_instr_output(src, patch, ps[0])
            + parsed_outputs(src, patch, ps.drop_first())) + parsed_instr_output(src, patch, x));
    }
}

/// Pointwise-matching parsed and model instructions produce the same output.
pub proof fn lemma_parsed_outputs_match(
    src: Seq<u8>,
    patch: Seq<u8>,
    ps: Seq<ParsedInstruction>,
    vs: Seq<crate::patch_format::InstructionView>,
)
    requires
        ps.len() == vs.len(),
        forall|k: int| 0 <= k < ps.len() ==> parsed_matches(patch, #[trigger] ps[k], vs[k]),
    ensures
        parsed_outputs(src, patch, ps) == instrs_output(src, vs),
    decreases ps.len(),
{
    if ps.len() > 0 {
        assert(parsed_matches(patch, ps[0], vs[0]));
        assert(forall|k: int|
            0 <= k < ps.drop_first().len() ==> #[trigger] ps.drop_first()[k] == ps[k + 1]
                && vs.drop_first()[k] == vs[k + 1] && parsed_matches(patch, ps[k + 1], vs[k + 1]));
        lemma_parsed_outputs_match(src, patch, ps.drop_first(), vs.drop_first());
    }
}

/// What `prepare` decides, in order: the patch must be loaded, its framing
/// parsed, the source validated, every COPY bounded, and the output length
/// must equal the promised target size.
pub open spec fn spec_prepare(loaded: bool, patch: Seq<u8>, src: Seq<u8>) -> Result<
    (PatchHeader, Seq<ParsedInstruction>),
    ApplyError,
> {
    if !loaded {
        Err(ApplyError::PatchNotLoaded)
    } else {
        match spec_parse_header(patch) {
            Err(e) => Err(ApplyError::Format(e)),
            Ok(h) => match spec_parse_positions(patch, 33) {
                Err(e) => Err(ApplyError::Format(e)),
                Ok(ps) => match spec_validate_source(
                    h.source_size,
                    h.source_hash,
                    src.len() as u64,
                    fnv1a(src),
                ) {
                    Err(e) => Err(ApplyError::Validation(e)),
                    Ok(_) => match first_parsed_oob(ps, src.len() as int, 0) {
                        Some(i) => match ps[i] {
                            ParsedInstruction::Copy { offset, length } => Err(
                                ApplyError::CopyOutOfBounds {
                                    instruction_index: i as usize,
                                    offset,
                                    length,
                                    source_len: src.len() as u64,
                                },
                            ),
                            // The scan only ever reports a COPY; this arm is
                            // unreachable.
                            ParsedInstruction::Insert { .. } => Err(ApplyError::PatchNotLoaded),
                        },
                        None => {
                            let total = parsed_outputs(src, patch, ps).len();
                            if total == h.target_size {
                                Ok((h, ps))
                            } else {
                                Err(
                                    ApplyError::TargetSizeMismatch {
                                        expected: h.target_size,
                                        actual: total as u64,
                                    },
                                )
                            }
                        },
                    },
                },
            },
        }
    }
}

/// Applier for patches with streaming output.
pub struct PatchApplier {
    source_buffer: ChunkBuffer,
    source_hasher: HashBuilder,
    patch_data: Vec<u8>,
    patch_loaded: bool,
    instructions: Vec<ParsedInstruction>,
    current_instruction: usize,
    instruction_offset: usize,
    output_written: u64,
    target_size: u64,
    prepared: bool,
}

impl PatchApplier {
    /// The source bytes fed so far.
    pub closed spec fn src(self) -> Seq<u8> {
        self.source_buffer.data()
    }

    /// The loaded patch bytes.
    pub closed spec fn patch(self) -> Seq<u8> {
        self.patch_data@
    }

    /// Whether patch bytes have been loaded.
    pub closed spec fn is_loaded(self) -> bool {
        self.patch_loaded
    }

    /// Whether `prepare` has succeeded.
    pub closed spec fn is_prepared(self) -> bool {
        self.prepared
    }

    /// The whole reconstructed target, meaningful once prepared.
    pub closed spec fn full_output(self) -> Seq<u8> {
        parsed_outputs(self.src(), self.patch(), self.instructions@)
    }

    /// How many target bytes have been handed out.
    pub closed spec fn written(self) -> nat {
        self.output_written as nat
    }

    /// Structure invariant.
    pub closed spec fn wf(self) -> bool {
        &&& self.source_buffer.wf()
        &&& self.source_hasher.wf()
        &&& self.source_hasher.bytes() == self.source_buffer.data()
        &&& if !self.prepared {
            &&& self.instructions@.len() == 0
            &&& self.current_instruction == 0
            &&& self.instruction_offset == 0
            &&& self.output_written == 0
        } else {
            &&& self.patch_loaded
            &&& spec_prepare(true, self.patch(), self.src()) == Ok::<
                (PatchHeader, Seq<ParsedInstruction>),
                ApplyError,
            >((spec_parse_header(self.patch()).unwrap(), self.instructions@))
            &&& self.target_size == spec_parse_header(self.patch()).unwrap().target_size
            &&& self.full_output().len() == self.target_size
            &&& forall|k: int|
                0 <= k < self.instructions@.len() ==> match #[trigger] self.instructions@[k] {
                    ParsedInstruction::Copy { offset, length } => offset + length
                        <= self.src().len(),
                    ParsedInstruction::Insert { patch_offset, length } => patch_offset + length
                        <= self.patch().len(),
                }
            &&& self.current_instruction <= self.instructions@.len()
            &&& (self.instruction_offset == 0 || (self.current_instruction
                < self.instructions@.len() && self.instruction_offset < parsed_instr_output(
                self.src(),
                self.patch(),
                self.instructions@[self.current_instruction as int],
            ).len()))
            &&& self.output_written == parsed_outputs(
                self.src(),
                self.patch(),
                self.instructions@.take(self.current_instruction as int),
            ).len() + self.instruction_offset
            &&& self.output_written <= self.full_output().len()
            &&& (self.current_instruction == self.instructions@.len() ==> self.output_written
                == self.full_output().len())
        }
    }

    /// A fresh applier with nothing loaded.
    pub fn new() -> (r: Self)
        ensures
            r.wf(),
            r.src() == Seq::<u8>::empty(),
            r.patch() == Seq::<u8>::empty(),
            !r.is_loaded(),
            !r.is_prepared(),
            r.written() == 0,
    {
        PatchApplier {
            source_buffer: ChunkBuffer::new(),
            source_hasher: HashBuilder::new(),
            patch_data: Vec::new(),
            patch_loaded: false,
            instructions: Vec::new(),
            current_instruction: 0,
            instruction_offset: 0,
            output_written: 0,
            target_size: 0,
            prepared: false,
        }
    }

    /// Feed source bytes.
    pub fn add_source_chunk(&mut self, chunk: &[u8])
        requires
            old(self).wf(),
            !old(self).is_prepared(),
            old(self).src().len() + chunk@.len() <= usize::MAX,
        ensures
            final(self).wf(),
            !final(self).is_prepared(),
            final(self).src() == old(self).src() + chunk@,
            final(self).patch() == old(self).patch(),
            final(self).is_loaded() == old(self).is_loaded(),
    {
        self.source_hasher.update(chunk);
        self.source_buffer.push_slice(chunk);
    }

    /// Load the whole patch at once.
    pub fn set_patch(&mut self, patch_data: &[u8])
        requires
            old(self).wf(),
            !old(self).is_prepared(),
        ensures
            final(self).wf(),
            !final(self).is_prepared(),
            final(self).patch() == patch_data@,
            final(self).is_loaded(),
            final(self).src() == old(self).src(),
    {
        self.patch_data = slice_to_vec(patch_data);
        self.patch_loaded = true;
    }

    /// Feed patch bytes incrementally.
    pub fn add_patch_chunk(&mut self, chunk: &[u8])
        requires
            old(self).wf(),
            !old(self).is_prepared(),
        ensures
            final(self).wf(),
            !final(self).is_prepared(),
            final(self).patch() == old(self).patch() + chunk@,
            final(self).src() == old(self).src(),
            final(self).is_loaded() == old(self).is_loaded(),
    {
        self.patch_data.extend_from_slice(chunk);
    }

    /// Mark the incrementally fed patch as complete; it must at least hold a
    /// header.
    pub fn finalize_patch(&mut self) -> (r: Result<(), ApplyError>)
        requires
            old(self).wf(),
            !old(self).is_prepared(),
        ensures
            final(self).wf(),
            !final(self).is_prepared(),
            final(self).patch() == old(self).patch(),
            final(self).src() == old(self).src(),
            old(self).patch().len() >= 33 ==> r == Ok::<(), ApplyError>(())
                && final(self).is_loaded(),
            old(self).patch().len() < 33 ==> r == Err::<(), ApplyError>(
                ApplyError::Format(FormatError::TruncatedHeader),
            ) && final(self).is_loaded() == old(self).is_loaded(),
    {
        if self.patch_data.len() < 33 {
            return Err(ApplyError::Format(FormatError::TruncatedHeader));
        }
        self.patch_loaded = true;
        Ok(())
    }

    /// Number of source bytes fed.
    pub fn source_size(&self) -> (r: usize)
        requires
            self.wf(),
        ensures
            r == self.src().len(),
    {
        self.source_buffer.total_size()
    }

    /// Check that the held source is the one the loaded patch applies to.
    pub fn validate_source(&self) -> (r: Result<bool, ApplyError>)
        requires
            self.wf(),
        ensures
            !self.is_loaded() ==> r == Err::<bool, ApplyError>(ApplyError::PatchNotLoaded),
            self.is_loaded() ==> match spec_parse_patch(self.patch()) {
                Err(e) => r == Err::<bool, ApplyError>(ApplyError::Format(e)),
                Ok(pv) => r == match spec_validate_source(
                    pv.source_size,
                    pv.source_hash,
                    self.src().len() as u64,
                    fnv1a(self.src()),
                ) {
                    Ok(_) => Ok::<bool, ApplyError>(true),
                    Err(e) => Err::<bool, ApplyError>(ApplyError::Validation(e)),
                },
            },
    {
        if !self.patch_loaded {
            return Err(ApplyError::PatchNotLoaded);
        }
        let patch = match Patch::deserialize(self.patch_data.as_slice()) {
            Ok(p) => p,
            Err(e) => {
                return Err(ApplyError::Format(e));
            },
        };
        let source_hash = self.source_hasher.finalize();
        let source_size = self.source_buffer.total_size();
        match patch.validate_source(source_size as u64, source_hash) {
            Ok(_) => Ok(true),
            Err(e) => Err(ApplyError::Validation(e)),
        }
    }

    /// The source length the loaded patch expects.
    pub fn expected_source_size(&self) -> (r: Result<u64, ApplyError>)
        requires
            self.wf(),
        ensures
            !self.is_loaded() ==> r == Err::<u64, ApplyError>(ApplyError::PatchNotLoaded),
            self.is_loaded() ==> match spec_parse_patch(self.patch()) {
                Err(e) => r == Err::<u64, ApplyError>(ApplyError::Format(e)),
                Ok(pv) => r == Ok::<u64, ApplyError>(pv.source_size),
            },
    {
        if !self.patch_loaded {
            return Err(ApplyError::PatchNotLoaded);
        }
        match Patch::deserialize(self.patch_data.as_slice()) {
            Ok(p) => Ok(p.source_size),
            Err(e) => Err(ApplyError::Format(e)),
        }
    }

    /// Where the output cursor stands: the next instruction to drain.
    pub closed spec fn cursor(self) -> nat {
        self.current_instruction as nat
    }

    /// How many instructions the prepared patch holds.
    pub closed spec fn instr_count(self) -> nat {
        self.instructions@.len()
    }

    /// Parse the patch, validate the source, check every COPY and the
    /// promised target size; after success the output can be streamed.
    #[verifier::rlimit(100)]
    pub fn prepare(&mut self) -> (r: Result<(), ApplyError>)
        requires
            old(self).wf(),
            !old(self).is_prepared(),
        ensures
            final(self).wf(),
            final(self).src() == old(self).src(),
            final(self).patch() == old(self).patch(),
            final(self).is_loaded() == old(self).is_loaded(),
            match r {
                Ok(_) => {
                    &&& spec_prepare(old(self).is_loaded(), old(self).patch(), old(self).src())
                        is Ok
                    &&& final(self).is_prepared()
                    &&& final(self).written() == 0
                    &&& spec_parse_patch(old(self).patch()) is Ok
                    &&& spec_apply(
                        old(self).src(),
                        spec_parse_patch(old(self).patch()).unwrap(),
                    ) == Ok::<Seq<u8>, crate::patch::PatchError>(final(self).full_output())
                },
                Err(e) => spec_prepare(old(self).is_loaded(), old(self).patch(), old(self).src())
                    == Err::<(PatchHeader, Seq<ParsedInstruction>), ApplyError>(e)
                    && !final(self).is_prepared(),
            },
    {
        if !self.patch_loaded {
            return Err(ApplyError::PatchNotLoaded);
        }
        let patch_len = self.patch_data.len();
        let meta = match PatchMetadata::parse(self.patch_data.as_slice()) {
            Ok(m) => m,
            Err(e) => {
                return Err(ApplyError::Format(e));
            },
        };
        proof {
            lemma_parsers_agree(self.patch(), 33);
        }
        let ghost ps = meta.instructions@;
        let ghost vs = crate::patch_format::spec_parse_instructions(
            self.patch().skip(33),
        ).unwrap();
        let src_len = self.source_buffer.total_size();
        let src_hash = self.source_hasher.finalize();
        match meta.validate_source(src_len as u64, src_hash) {
            Ok(_) => (),
            Err(e) => {
                return Err(ApplyError::Validation(e));
            },
        }
        let mut total: u128 = 0;
        let mut i: usize = 0;
        proof {
            assert(ps.take(0) =~= Seq::<ParsedInstruction>::empty());
            assert((0int) * 0x1_0000_0000 == 0) by (nonlinear_arith);
        }
        while i < meta.instructions.len()
            invariant
                self.wf(),
                !self.is_prepared(),
                self.is_loaded(),
                i <= ps.len(),
                ps == meta.instructions@,
                spec_parse_header(self.patch()) == Ok::<PatchHeader, FormatError>(
                    PatchHeader {
                        chunk_size: meta.chunk_size,
                        source_size: meta.source_size,
                        source_hash: meta.source_hash,
                        target_size: meta.target_size,
                    },
                ),
                spec_parse_positions(self.patch(), 33) == Ok::<Seq<ParsedInstruction>, FormatError>(ps),
                spec_validate_source(
                    meta.source_size,
                    meta.source_hash,
                    self.src().len() as u64,
                    fnv1a(self.src()),
                ) == Ok::<(), ValidationError>(()),
                vs.len() == ps.len(),
                forall|k: int| 0 <= k < ps.len() ==> parsed_matches(self.patch(), #[trigger] ps[k], vs[k]),
                src_len == self.src().len(),
                first_parsed_oob(ps, self.src().len() as int, 0) == first_parsed_oob(
                    ps,
                    self.src().len() as int,
                    i as int,
                ),
                forall|k: int|
                    0 <= k < i ==> match #[trigger] ps[k] {
                        ParsedInstruction::Copy { offset, length } => offset + length
                            <= self.src().len(),
                        ParsedInstruction::Insert { .. } => true,
                    },
                total == parsed_outputs(self.src(), self.patch(), ps.take(i as int)).len(),
                total <= (i as u128) * 0x1_0000_0000,
            decreases ps.len() - i,
        {
            proof {
                assert(ps.take(i + 1) =~= ps.take(i as int).push(ps[i as int]));
                lemma_parsed_outputs_push(
                    self.src(),
                    self.patch(),
                    ps.take(i as int),
                    ps[i as int],
                );
                assert(parsed_matches(self.patch(), ps[i as int], vs[i as int]));
            }
            let length_u128: u128;
            match &meta.instructions[i] {
                ParsedInstruction::Copy { offset, length } => {
                    if (*length as u64) > (src_len as u64) || *offset > (src_len as u64) - (*length
                        as u64) {
                        proof {
                            assert(first_parsed_oob(ps, self.src().len() as int, i as int)
                                == Some(i as int));
                        }
                        return Err(
                            ApplyError::CopyOutOfBounds {
                                instruction_index: i,
                                offset: *offset,
                                length: *length,
                                source_len: src_len as u64,
                            },
                        );
                    }
                    length_u128 = *length as u128;
                    proof {
                        assert(parsed_instr_output(self.src(), self.patch(), ps[i as int]).len()
                            == *length);
                    }
                },
                ParsedInstruction::Insert { patch_offset, length } => {
                    length_u128 = *length as u128;
                    proof {
                        assert(parsed_instr_output(self.src(), self.patch(), ps[i as int]).len()
                            == *length);
                    }
                },
            }
            proof {
                assert(total + length_u128 <= ((i + 1) as u128) * 0x1_0000_0000)
                    by (nonlinear_arith)
                    requires
                        total <= (i as u128) * 0x1_0000_0000,
                        length_u128 < 0x1_0000_0000,
                ;
                assert((i as u128 + 1) * 0x1_0000_0000 <= 0x1_0000_0000_0000_0000_0000_0000u128)
                    by (nonlinear_arith)
                    requires
                        i as u128 + 1 <= 0x1_0000_0000_0000_0000u128,
                ;
                assert(((i + 1) as u128) * 0x1_0000_0000 == (i as u128 + 1) * 0x1_0000_0000);
            }
            total = total + length_u128;
            i = i + 1;
        }
        proof {
            assert(ps.take(ps.len() as int) =~= ps);
            assert(first_parsed_oob(ps, self.src().len() as int, ps.len() as int)
                == None::<int>);
        }
        if total != (meta.target_size as u128) {
            return Err(
                ApplyError::TargetSizeMismatch {
                    expected: meta.target_size,
                    actual: total as u64,
                },
            );
        }
        let ghost old_src = self.src();
        let ghost old_patch = self.patch();
        self.target_size = meta.target_size;
        self.instructions = meta.instructions;
        self.current_instruction = 0;
        self.instruction_offset = 0;
        self.output_written = 0;
        self.prepared = true;
        proof {
            assert(self.instructions@.take(0) =~= Seq::<ParsedInstruction>::empty());
            // The streaming plan agrees with the one-shot apply semantics.
            lemma_parsed_outputs_match(old_src, old_patch, ps, vs);
            let pv = spec_parse_patch(old_patch).unwrap();
            assert(pv.instructions == vs);
            assert(crate::patch::copies_in_bounds(vs, old_src.len() as int)) by {
                assert forall|k: int|
                    0 <= k < vs.len() implies match #[trigger] vs[k] {
                    crate::patch_format::InstructionView::Copy { offset, length } => offset
                        + length <= old_src.len(),
                    crate::patch_format::InstructionView::Insert { .. } => true,
                } by {
                    assert(parsed_matches(old_patch, ps[k], vs[k]));
                    assert(match ps[k] {
                        ParsedInstruction::Copy { offset, length } => offset + length
                            <= old_src.len(),
                        ParsedInstruction::Insert { .. } => true,
                    });
                }
            }
            crate::patch::lemma_no_oob(vs, old_src.len() as int, 0);
        }
        Ok(())
    }

    /// Whether any instruction has not been fully drained yet.
    pub fn has_more_output(&self) -> (r: bool)
        requires
            self.wf(),
        ensures
            r == (self.is_prepared() && self.cursor() < self.instr_count()),
            self.is_prepared() && self.written() < self.full_output().len() ==> r,
    {
        if !self.prepared {
            return false;
        }
        self.current_instruction < self.instructions.len()
    }

    /// Drain up to `max_size` bytes of the reconstructed target, crossing
    /// instruction boundaries as needed.
    #[verifier::rlimit(100)]
    pub fn next_output_chunk(&mut self, max_size: usize) -> (r: Vec<u8>)
        requires
            old(self).wf(),
        ensures
            final(self).wf(),
            final(self).src() == old(self).src(),
            final(self).patch() == old(self).patch(),
            final(self).is_prepared() == old(self).is_prepared(),
            !old(self).is_prepared() ==> r@.len() == 0 && *final(self) == *old(self),
            old(self).is_prepared() ==> ({
                &&& final(self).full_output() == old(self).full_output()
                &&& r@.len() == (if max_size <= old(self).full_output().len() - old(
                    self,
                ).written() {
                    max_size as int
                } else {
                    old(self).full_output().len() - old(self).written()
                })
                &&& r@ == old(self).full_output().subrange(
                    old(self).written() as int,
                    old(self).written() as int + r@.len(),
                )
                &&& final(self).written() == old(self).written() + r@.len()
            }),
    {
        if !self.prepared || self.current_instruction >= self.instructions.len() {
            proof {
                if self.prepared {
                    assert(self.written() == self.full_output().len());
                }
            }
            return Vec::new();
        }
        let ghost src = self.src();
        let ghost patch = self.patch();
        let ghost ps = self.instructions@;
        let ghost full = parsed_outputs(self.src(), self.patch(), self.instructions@);
        let ghost total = full.len() as int;
        let ghost w0 = self.written() as int;
        let mut result: Vec<u8> = Vec::with_capacity(max_size);
        while result.len() < max_size && self.current_instruction < self.instructions.len()
            invariant
                self.wf(),
                self.is_prepared(),
                self.src() == src,
                self.patch() == patch,
                self.instructions@ == ps,
                full == self.full_output(),
                full.len() == total,
                0 <= w0,
                result@.len() <= max_size,
                w0 + result@.len() == self.written(),
                w0 + result@.len() <= total,
                result@ == full.subrange(w0, w0 + result@.len()),
            decreases total - self.written() + (max_size - result@.len())
                + (ps.len() - self.cursor()),
        {
            let c = self.current_instruction;
            let ghost before = parsed_outputs(src, patch, ps.take(c as int)).len() as int;
            proof {
                assert(full == parsed_outputs(src, patch, ps));
            }
            let ghost instr_out = parsed_instr_output(src, patch, ps[c as int]);
            proof {
                lemma_parsed_outputs_decompose(src, patch, ps, c as int);
                assert(ps.skip(c as int)[0] == ps[c as int]);
                assert(ps.skip(c as int).drop_first() =~= ps.skip(c + 1));
                assert(parsed_outputs(src, patch, ps.skip(c as int)) == instr_out
                    + parsed_outputs(src, patch, ps.skip(c + 1)));
                assert(ps.take(c + 1) =~= ps.take(c as int).push(ps[c as int]));
                lemma_parsed_outputs_push(src, patch, ps.take(c as int), ps[c as int]);
                assert(full.subrange(before, before + instr_out.len() as int) =~= instr_out);
            }
            proof {
                assert(full == parsed_outputs(src, patch, ps.take(c as int)) + (instr_out
                    + parsed_outputs(src, patch, ps.skip(c + 1))));
                assert(total == before + instr_out.len() + parsed_outputs(
                    src,
                    patch,
                    ps.skip(c + 1),
                ).len());
            }
            let space = max_size - result.len();
            match &self.instructions[c] {
                ParsedInstruction::Copy { offset, length } => {
                    proof {
                        crate::buffer::ChunkBuffer::lemma_len_bound(self.source_buffer);
                        assert(match ps[c as int] {
                            ParsedInstruction::Copy { offset: o, length: l } => o + l
                                <= self.src().len(),
                            ParsedInstruction::Insert { .. } => true,
                        });
                        assert(instr_out.len() == *length);
                        assert(self.instruction_offset <= *length);
                    }
                    let remaining_in = (*length as usize) - self.instruction_offset;
                    let n = if remaining_in < space {
                        remaining_in
                    } else {
                        space
                    };
                    let start = (*offset as usize) + self.instruction_offset;
                    proof {
                        assert(start + n <= src.len());
                    }
                    let ghost a = result@.len() as int;
                    proof {
                        assert(w0 + a + n <= total);
                    }
                    let ghost old_r = result@;
                    match self.source_buffer.read_at(start, n) {
                        Some(piece) => {
                            proof {
                                assert(piece@ =~= instr_out.subrange(
                                    self.instruction_offset as int,
                                    self.instruction_offset + n,
                                ));
                                assert(piece@ =~= full.subrange(w0 + a, w0 + a + n));
                            }
                            result.extend_from_slice(piece.as_slice());
                            proof {
                                assert(result@.len() == a + n);
                                assert(result@ =~= old_r + piece@);
                                lemma_subrange_merge(full, w0, w0 + a, w0 + a + n);
                                assert(result@ == full.subrange(w0, w0 + a + n));
                            }
                        },
                        None => {
                            proof {
                                assert(false);
                            }
                        },
                    }
                    self.output_written = self.output_written + (n as u64);
                    self.instruction_offset = self.instruction_offset + n;
                    if self.instruction_offset >= (*length as usize) {
                        self.current_instruction = c + 1;
                        self.instruction_offset = 0;
                    }
                },
                ParsedInstruction::Insert { patch_offset, length } => {
                    proof {
                        assert(match ps[c as int] {
                            ParsedInstruction::Copy { .. } => true,
                            ParsedInstruction::Insert { patch_offset: po, length: l } => po + l
                                <= self.patch().len(),
                        });
                        assert(instr_out.len() == *length);
                        assert(self.instruction_offset <= *length);
                    }
                    let remaining_in = (*length as usize) - self.instruction_offset;
                    let n = if remaining_in < space {
                        remaining_in
                    } else {
                        space
                    };
                    let plen = self.patch_data.len();
                    proof {
                        assert(*patch_offset + *length <= plen);
                    }
                    let start = *patch_offset + self.instruction_offset;
                    proof {
                        assert(start + n <= plen);
                    }
                    let ghost a = result@.len() as int;
                    proof {
                        assert(w0 + a + n <= total);
                    }
                    let ghost old_r = result@;
                    let piece = slice_subrange(self.patch_data.as_slice(), start, start + n);
                    proof {
                        assert(piece@ =~= instr_out.subrange(
                            self.instruction_offset as int,
                            self.instruction_offset + n,
                        ));
                        assert(piece@ =~= full.subrange(w0 + a, w0 + a + n));
                    }
                    result.extend_from_slice(piece);
                    proof {
                        assert(result@.len() == a + n);
                        assert(result@ =~= old_r + piece@);
                        lemma_subrange_merge(full, w0, w0 + a, w0 + a + n);
                        assert(result@ == full.subrange(w0, w0 + a + n));
                    }
                    self.output_written = self.output_written + (n as u64);
                    self.instruction_offset = self.instruction_offset + n;
                    if self.instruction_offset >= (*length as usize) {
                        self.current_instruction = c + 1;
                        self.instruction_offset = 0;
                    }
                },
            }
        }
        proof {
            if result@.len() < max_size {
                assert(self.cursor() == ps.len());
                assert(self.written() == self.full_output().len());
            }
        }
        result
    }

    /// Bytes of target output still to come.
    pub fn remaining_output_size(&self) -> (r: u64)
        requires
            self.wf(),
        ensures
            self.is_prepared() ==> r == self.full_output().len() - self.written(),
            !self.is_prepared() ==> r == 0,
    {
        if !self.prepared || self.target_size == 0 {
            return 0;
        }
        self.target_size - self.output_written
    }

    /// Return to the initial state, dropping source and patch alike.
    pub fn reset(&mut self)
        ensures
            final(self).wf(),
            final(self).src() == Seq::<u8>::empty(),
            final(self).patch() == Seq::<u8>::empty(),
            !final(self).is_loaded(),
            !final(self).is_prepared(),
            final(self).written() == 0,
    {
        self.source_buffer.clear();
        self.source_hasher = HashBuilder::new();
        self.patch_data = Vec::new();
        self.patch_loaded = false;
        self.instructions = Vec::new();
        self.current_instruction = 0;
        self.instruction_offset = 0;
        self.output_written = 0;
        self.target_size = 0;
        self.prepared = false;
    }

    /// The target length the loaded patch reconstructs.
    pub fn expected_target_size(&self) -> (r: Result<u64, ApplyError>)
        requires
            self.wf(),
        ensures
            !self.is_loaded() ==> r == Err::<u64, ApplyError>(ApplyError::PatchNotLoaded),
            self.is_loaded() ==> match spec_parse_patch(self.patch()) {
                Err(e) => r == Err::<u64, ApplyError>(ApplyError::Format(e)),
                Ok(pv) => r == Ok::<u64, ApplyError>(pv.target_size),
            },
    {
        if !self.patch_loaded {
            return Err(ApplyError::PatchNotLoaded);
        }
        match Patch::deserialize(self.patch_data.as_slice()) {
            Ok(p) => Ok(p.target_size),
            Err(e) => Err(ApplyError::Format(e)),
        }
    }
}

} // verus!
