//! Binary patch container: header framing plus COPY/INSERT instruction
//! encoding and decoding.
//!
//! Layout, all multi-byte fields little-endian:
//! - header: magic `PTCH` (4) + version (1) + chunk_size (4) + source_size (8)
//!   + source_hash (8) + target_size (8), 33 bytes in all;
//! - each COPY: tag 0x01 + offset (8) + length (4);
//! - each INSERT: tag 0x02 + length (4) + that many literal bytes;
//! - no terminator: the instructions end where the data ends.

use vstd::bytes::{
    lemma_auto_spec_u32_to_from_le_bytes, lemma_auto_spec_u64_to_from_le_bytes,
    spec_u32_from_le_bytes, spec_u32_to_le_bytes, spec_u64_from_le_bytes, spec_u64_to_le_bytes,
    u32_from_le_bytes, u32_to_le_bytes, u64_from_le_bytes, u64_to_le_bytes,
};
use vstd::prelude::*;
use vstd::slice::{slice_subrange, slice_to_vec};

verus! {

/// Format version this library emits and accepts.
pub const VERSION: u8 = 1;

/// Tag byte that opens a COPY instruction.
pub const TYPE_COPY: u8 = 0x01;

/// Tag byte that opens an INSERT instruction.
pub const TYPE_INSERT: u8 = 0x02;

/// Size of the fixed header in bytes.
pub const HEADER_SIZE: usize = 33;

/// The four magic bytes `PTCH` that open every patch.
pub open spec fn spec_magic() -> Seq<u8> {
    seq![0x50u8, 0x54u8, 0x43u8, 0x48u8]
}

/// A single patch instruction.
#[derive(Debug, Clone, PartialEq, Eq)]
pub enum Instruction {
    /// Copy `length` bytes starting at `offset` from the source.
    Copy { offset: u64, length: u32 },
    /// Insert the carried literal bytes.
    Insert { data: Vec<u8> },
}

/// Mathematical model of an instruction: the insert payload as a sequence.
pub enum InstructionView {
    Copy { offset: u64, length: u32 },
    Insert { data: Seq<u8> },
}

impl View for Instruction {
    type V = InstructionView;

    open spec fn view(&self) -> InstructionView {
        match self {
            Instruction::Copy { offset, length } => InstructionView::Copy {
                offset: *offset,
                length: *length,
            },
            Instruction::Insert { data } => InstructionView::Insert { data: data@ },
        }
    }
}

/// The models of a list of instructions, in order.
pub open spec fn views_of_instructions(s: Seq<Instruction>) -> Seq<InstructionView> {
    s.map_values(|i: Instruction| i@)
}

/// A parsed instruction that references INSERT payloads by their position in
/// the patch bytes instead of copying them.
#[derive(Debug, Clone, PartialEq, Eq)]
pub enum ParsedInstruction {
    /// Copy `length` bytes starting at `offset` from the source.
    Copy { offset: u64, length: u32 },
    /// Insert `length` bytes found at `patch_offset` in the patch data.
    Insert { patch_offset: usize, length: u32 },
}

/// Everything that can go wrong while decoding patch bytes.
#[derive(Debug, Clone, PartialEq, Eq)]
pub enum FormatError {
    /// Fewer than the 33 header bytes are present.
    TruncatedHeader,
    /// The first four bytes are not the `PTCH` magic.
    BadMagic,
    /// The version byte is not the one this library accepts.
    UnsupportedVersion { found: u8 },
    /// An instruction opens with a byte that is neither COPY nor INSERT.
    UnknownInstructionTag { tag: u8 },
    /// An instruction's fixed fields run past the end of the data.
    TruncatedInstruction,
    /// An INSERT declares more payload bytes than remain.
    InsertLengthOverrun,
}

/// Serialization of one instruction.
pub open spec fn spec_instruction_bytes(i: InstructionView) -> Seq<u8> {
    match i {
        InstructionView::Copy { offset, length } => seq![TYPE_COPY] + spec_u64_to_le_bytes(offset)
            + spec_u32_to_le_bytes(length),
        InstructionView::Insert { data } => seq![TYPE_INSERT] + spec_u32_to_le_bytes(
            data.len() as u32,
        ) + data,
    }
}

/// Serialization of a list of instructions, concatenated in order.
pub open spec fn spec_instructions_bytes(s: Seq<InstructionView>) -> Seq<u8>
    decreases s.len(),
{
    if s.len() == 0 {
        Seq::empty()
    } else {
        spec_instruction_bytes(s[0]) + spec_instructions_bytes(s.drop_first())
    }
}

/// Serialization of the 33-byte header.
pub open spec fn spec_header_bytes(
    chunk_size: u32,
    source_size: u64,
    source_hash: u64,
    target_size: u64,
) -> Seq<u8> {
    spec_magic() + seq![VERSION] + spec_u32_to_le_bytes(chunk_size) + spec_u64_to_le_bytes(
        source_size,
    ) + spec_u64_to_le_bytes(source_hash) + spec_u64_to_le_bytes(target_size)
}

/// Decoder for the instruction region: either the instruction models in
/// order, or the first framing error.
pub open spec fn spec_parse_instructions(data: Seq<u8>) -> Result<Seq<InstructionView>, FormatError>
    decreases data.len(),
{
    if data.len() == 0 {
        Ok(Seq::empty())
    } else if data[0] == TYPE_COPY {
        if data.len() < 13 {
            Err(FormatError::TruncatedInstruction)
        } else {
            let offset = spec_u64_from_le_bytes(data.subrange(1, 9));
            let length = spec_u32_from_le_bytes(data.subrange(9, 13));
            match spec_parse_instructions(data.skip(13)) {
                Ok(rest) => Ok(seq![InstructionView::Copy { offset, length }] + rest),
                Err(e) => Err(e),
            }
        }
    } else if data[0] == TYPE_INSERT {
        if data.len() < 5 {
            Err(FormatError::TruncatedInstruction)
        } else {
            let length = spec_u32_from_le_bytes(data.subrange(1, 5));
            if data.len() < 5 + length {
                Err(FormatError::InsertLengthOverrun)
            } else {
                match spec_parse_instructions(data.skip(5 + length as int)) {
                    Ok(rest) => Ok(
                        seq![InstructionView::Insert { data: data.subrange(5, 5 + length as int) }]
                            + rest,
                    ),
                    Err(e) => Err(e),
                }
            }
        }
    } else {
        Err(FormatError::UnknownInstructionTag { tag: data[0] })
    }
}

/// The parsed fields of a patch header.
#[derive(Debug, Clone, PartialEq, Eq)]
pub struct PatchHeader {
    pub chunk_size: u32,
    pub source_size: u64,
    pub source_hash: u64,
    pub target_size: u64,
}

/// Decoder for the fixed header: the magic and version are judged as soon
/// as their bytes are present, truncation elsewhere.
pub open spec fn spec_parse_header(data: Seq<u8>) -> Result<PatchHeader, FormatError> {
    if data.len() < 4 {
        Err(FormatError::TruncatedHeader)
    } else if data.subrange(0, 4) != spec_magic() {
        Err(FormatError::BadMagic)
    } else if data.len() < 5 {
        Err(FormatError::TruncatedHeader)
    } else if data[4] != VERSION {
        Err(FormatError::UnsupportedVersion { found: data[4] })
    } else if data.len() < 33 {
        Err(FormatError::TruncatedHeader)
    } else {
        Ok(
            PatchHeader {
                chunk_size: spec_u32_from_le_bytes(data.subrange(5, 9)),
                source_size: spec_u64_from_le_bytes(data.subrange(9, 17)),
                source_hash: spec_u64_from_le_bytes(data.subrange(17, 25)),
                target_size: spec_u64_from_le_bytes(data.subrange(25, 33)),
            },
        )
    }
}

/// Parse the fixed 33-byte header of a patch, rejecting bad magic bytes and
/// unsupported versions.
pub fn parse_header(data: &[u8]) -> (r: Result<PatchHeader, FormatError>)
    ensures
        r == spec_parse_header(data@),
{
    if data.len() < 4 {
        return Err(FormatError::TruncatedHeader);
    }
    if !(data[0] == 0x50 && data[1] == 0x54 && data[2] == 0x43 && data[3] == 0x48) {
        proof {
            assert(data@.subrange(0, 4) != spec_magic()) by {
                if data@.subrange(0, 4) == spec_magic() {
                    assert(data@.subrange(0, 4)[0] == 0x50u8);
                    assert(data@.subrange(0, 4)[1] == 0x54u8);
                    assert(data@.subrange(0, 4)[2] == 0x43u8);
                    assert(data@.subrange(0, 4)[3] == 0x48u8);
                }
            }
        }
        return Err(FormatError::BadMagic);
    }
    proof {
        assert(data@.subrange(0, 4) =~= spec_magic());
    }
    if data.len() < 5 {
        return Err(FormatError::TruncatedHeader);
    }
    if data[4] != VERSION {
        return Err(FormatError::UnsupportedVersion { found: data[4] });
    }
    if data.len() < 33 {
        return Err(FormatError::TruncatedHeader);
    }
    let chunk_size = u32_from_le_bytes(slice_subrange(data, 5, 9));
    let source_size = u64_from_le_bytes(slice_subrange(data, 9, 17));
    let source_hash = u64_from_le_bytes(slice_subrange(data, 17, 25));
    let target_size = u64_from_le_bytes(slice_subrange(data, 25, 33));
    Ok(PatchHeader { chunk_size, source_size, source_hash, target_size })
}

/// Mathematical model of a whole patch.
pub struct PatchView {
    pub chunk_size: u32,
    pub source_size: u64,
    pub source_hash: u64,
    pub target_size: u64,
    pub instructions: Seq<InstructionView>,
}

/// A complete patch: the header fields plus the instruction list.
#[derive(Debug, Clone)]
pub struct Patch {
    /// Block size used when the patch was generated.
    pub chunk_size: u32,
    /// Length of the source the patch applies to.
    pub source_size: u64,
    /// FNV-1a digest of that source.
    pub source_hash: u64,
    /// Length of the target the patch reconstructs.
    pub target_size: u64,
    /// The instructions, in output order.
    pub instructions: Vec<Instruction>,
}

impl View for Patch {
    type V = PatchView;

    open spec fn view(&self) -> PatchView {
        PatchView {
            chunk_size: self.chunk_size,
            source_size: self.source_size,
            source_hash: self.source_hash,
            target_size: self.target_size,
            instructions: views_of_instructions(self.instructions@),
        }
    }
}

/// Whether an instruction's INSERT payload fits the 32-bit length field.
pub open spec fn instruction_encodable(i: InstructionView) -> bool {
    match i {
        InstructionView::Copy { .. } => true,
        InstructionView::Insert { data } => data.len() <= u32::MAX,
    }
}

/// Whether every instruction in the list can be encoded.
pub open spec fn instructions_encodable(s: Seq<InstructionView>) -> bool {
    forall|k: int| 0 <= k < s.len() ==> instruction_encodable(#[trigger] s[k])
}

/// Full serialization of a patch: header, then instructions.
pub open spec fn spec_patch_bytes(p: PatchView) -> Seq<u8> {
    spec_header_bytes(p.chunk_size, p.source_size, p.source_hash, p.target_size)
        + spec_instructions_bytes(p.instructions)
}

/// Decoder for a whole patch: header first, then the instruction region.
pub open spec fn spec_parse_patch(data: Seq<u8>) -> Result<PatchView, FormatError> {
    match spec_parse_header(data) {
        Ok(h) => match spec_parse_instructions(data.skip(33)) {
            Ok(instructions) => Ok(
                PatchView {
                    chunk_size: h.chunk_size,
                    source_size: h.source_size,
                    source_hash: h.source_hash,
                    target_size: h.target_size,
                    instructions,
                },
            ),
            Err(e) => Err(e),
        },
        Err(e) => Err(e),
    }
}

/// Serializing one more instruction appends its bytes.
pub proof fn lemma_instructions_bytes_push(s: Seq<InstructionView>, x: InstructionView)
    ensures
        spec_instructions_bytes(s.push(x)) == spec_instructions_bytes(s) + spec_instruction_bytes(
            x,
        ),
    decreases s.len(),
{
    let p = s.push(x);
    if s.len() == 0 {
        assert(p[0] == x);
        assert(p.drop_first() =~= Seq::<InstructionView>::empty());
        assert(spec_instructions_bytes(p) == spec_instruction_bytes(x) + spec_instructions_bytes(
            p.drop_first(),
        ));
        assert(Seq::<u8>::empty() + spec_instruction_bytes(x) =~= spec_instruction_bytes(x)
            + Seq::<u8>::empty());
    } else {
        assert(p[0] == s[0]);
        assert(p.drop_first() =~= s.drop_first().push(x));
        lemma_instructions_bytes_push(s.drop_first(), x);
        assert(spec_instruction_bytes(s[0]) + (spec_instructions_bytes(s.drop_first())
            + spec_instruction_bytes(x)) =~= (spec_instruction_bytes(s[0])
            + spec_instructions_bytes(s.drop_first())) + spec_instruction_bytes(x));
    }
}

/// Serialization distributes over concatenation of instruction lists.
pub proof fn lemma_instructions_bytes_concat(a: Seq<InstructionView>, b: Seq<InstructionView>)
    ensures
        spec_instructions_bytes(a + b) == spec_instructions_bytes(a) + spec_instructions_bytes(b),
    decreases a.len(),
{
    if a.len() == 0 {
        assert(a + b =~= b);
        assert(Seq::<u8>::empty() + spec_instructions_bytes(b) =~= spec_instructions_bytes(b));
    } else {
        assert((a + b)[0] == a[0]);
        assert((a + b).drop_first() =~= a.drop_first() + b);
        lemma_instructions_bytes_concat(a.drop_first(), b);
        assert(spec_instruction_bytes(a[0]) + (spec_instructions_bytes(a.drop_first())
            + spec_instructions_bytes(b)) =~= (spec_instruction_bytes(a[0])
            + spec_instructions_bytes(a.drop_first())) + spec_instructions_bytes(b));
    }
}

/// Mapping the views of a list with one more instruction appends its view.
pub proof fn lemma_views_push(s: Seq<Instruction>, x: Instruction)
    ensures
        views_of_instructions(s.push(x)) == views_of_instructions(s).push(x@),
{
    assert(views_of_instructions(s.push(x)) =~= views_of_instructions(s).push(x@));
}

/// Append one instruction's encoding to `out`.
pub fn append_instruction(out: &mut Vec<u8>, instr: &Instruction)
    requires
        instruction_encodable(instr@),
    ensures
        final(out)@ == old(out)@ + spec_instruction_bytes(instr@),
{
    match instr {
        Instruction::Copy { offset, length } => {
            out.push(TYPE_COPY);
            let mut word = u64_to_le_bytes(*offset);
            out.append(&mut word);
            let mut word = u32_to_le_bytes(*length);
            out.append(&mut word);
            proof {
                assert(out@ =~= old(out)@ + spec_instruction_bytes(instr@));
            }
        },
        Instruction::Insert { data } => {
            out.push(TYPE_INSERT);
            let mut word = u32_to_le_bytes(data.len() as u32);
            out.append(&mut word);
            out.extend_from_slice(data.as_slice());
            proof {
                assert(out@ =~= old(out)@ + spec_instruction_bytes(instr@));
            }
        },
    }
}

/// Append the encodings of `instrs[from..]` to `out`.
pub fn serialize_instruction_range(instrs: &Vec<Instruction>, from: usize, out: &mut Vec<u8>)
    requires
        instructions_encodable(views_of_instructions(instrs@)),
        from <= instrs@.len(),
    ensures
        final(out)@ == old(out)@ + spec_instructions_bytes(
            views_of_instructions(instrs@).subrange(from as int, instrs@.len() as int),
        ),
{
    let ghost views = views_of_instructions(instrs@);
    let mut j: usize = from;
    proof {
        assert(views.subrange(from as int, from as int) =~= Seq::<InstructionView>::empty());
        assert(out@ + Seq::<u8>::empty() =~= out@);
    }
    while j < instrs.len()
        invariant
            from <= j <= instrs@.len(),
            views == views_of_instructions(instrs@),
            views.len() == instrs@.len(),
            instructions_encodable(views),
            out@ == old(out)@ + spec_instructions_bytes(views.subrange(from as int, j as int)),
        decreases instrs@.len() - j,
    {
        proof {
            assert(views.subrange(from as int, j + 1) =~= views.subrange(
                from as int,
                j as int,
            ).push(views[j as int]));
            lemma_instructions_bytes_push(views.subrange(from as int, j as int), views[j as int]);
            assert(views[j as int] == instrs@[j as int]@);
            assert(instruction_encodable(views[j as int]));
        }
        append_instruction(out, &instrs[j]);
        proof {
            assert((old(out)@ + spec_instructions_bytes(views.subrange(from as int, j as int)))
                + spec_instruction_bytes(views[j as int]) =~= old(out)@ + spec_instructions_bytes(
                views.subrange(from as int, j + 1),
            ));
        }
        j = j + 1;
    }
    proof {
        assert(views.subrange(from as int, views.len() as int) == views.subrange(
            from as int,
            instrs@.len() as int,
        ));
    }
}

impl Patch {
    /// A new patch with the given header fields and no instructions.
    pub fn new(chunk_size: u32, source_size: u64, source_hash: u64, target_size: u64) -> (r: Self)
        ensures
            r@.chunk_size == chunk_size,
            r@.source_size == source_size,
            r@.source_hash == source_hash,
            r@.target_size == target_size,
            r@.instructions == Seq::<InstructionView>::empty(),
    {
        let r = Patch { chunk_size, source_size, source_hash, target_size, instructions: Vec::new() };
        proof {
            assert(r@.instructions =~= Seq::<InstructionView>::empty());
        }
        r
    }

    /// Append a COPY instruction.
    pub fn add_copy(&mut self, offset: u64, length: u32)
        ensures
            final(self)@ == (PatchView {
                instructions: old(self)@.instructions.push(
                    InstructionView::Copy { offset, length },
                ),
                ..old(self)@
            }),
    {
        proof {
            lemma_views_push(self.instructions@, Instruction::Copy { offset, length });
        }
        self.instructions.push(Instruction::Copy { offset, length });
    }

    /// Append an INSERT instruction; empty payloads are dropped.
    pub fn add_insert(&mut self, data: Vec<u8>)
        ensures
            final(self)@ == (PatchView {
                instructions: if data@.len() == 0 {
                    old(self)@.instructions
                } else {
                    old(self)@.instructions.push(InstructionView::Insert { data: data@ })
                },
                ..old(self)@
            }),
    {
        if !data.is_empty() {
            proof {
                lemma_views_push(self.instructions@, Instruction::Insert { data });
            }
            self.instructions.push(Instruction::Insert { data });
        } else {
            proof {
                assert(final(self)@ == (PatchView { instructions: old(self)@.instructions, ..old(
                    self,
                )@ }));
            }
        }
    }

    /// Number of instructions in the patch.
    pub fn instruction_count(&self) -> (r: usize)
        ensures
            r == self@.instructions.len(),
    {
        self.instructions.len()
    }

    /// Serialize the patch to its binary format.
    pub fn serialize(&self) -> (r: Vec<u8>)
        requires
            instructions_encodable(self@.instructions),
        ensures
            r@ == spec_patch_bytes(self@),
    {
        let mut out: Vec<u8> = Vec::new();
        out.push(0x50);
        out.push(0x54);
        out.push(0x43);
        out.push(0x48);
        out.push(VERSION);
        let mut word = u32_to_le_bytes(self.chunk_size);
        out.append(&mut word);
        let mut word = u64_to_le_bytes(self.source_size);
        out.append(&mut word);
        let mut word = u64_to_le_bytes(self.source_hash);
        out.append(&mut word);
        let mut word = u64_to_le_bytes(self.target_size);
        out.append(&mut word);
        proof {
            assert(out@ =~= spec_header_bytes(
                self.chunk_size,
                self.source_size,
                self.source_hash,
                self.target_size,
            ));
        }
        let ghost views = self@.instructions;
        let ghost header = out@;
        let mut i: usize = 0;
        while i < self.instructions.len()
            invariant
                i <= self.instructions.len(),
                views == self@.instructions,
                instructions_encodable(views),
                views.len() == self.instructions.len(),
                header == spec_header_bytes(
                    self.chunk_size,
                    self.source_size,
                    self.source_hash,
                    self.target_size,
                ),
                out@ == header + spec_instructions_bytes(views.take(i as int)),
            decreases self.instructions.len() - i,
        {
            let ghost done = views.take(i as int);
            proof {
                assert(views.take(i + 1) =~= done.push(views[i as int]));
                lemma_instructions_bytes_push(done, views[i as int]);
                assert(views[i as int] == self.instructions@[i as int]@);
            }
            match &self.instructions[i] {
                Instruction::Copy { offset, length } => {
                    out.push(TYPE_COPY);
                    let mut word = u64_to_le_bytes(*offset);
                    out.append(&mut word);
                    let mut word = u32_to_le_bytes(*length);
                    out.append(&mut word);
                    proof {
                        assert(out@ =~= header + (spec_instructions_bytes(done)
                            + spec_instruction_bytes(views[i as int])));
                    }
                },
                Instruction::Insert { data } => {
                    out.push(TYPE_INSERT);
                    let mut word = u32_to_le_bytes(data.len() as u32);
                    out.append(&mut word);
                    out.extend_from_slice(data.as_slice());
                    proof {
                        assert(out@ =~= header + (spec_instructions_bytes(done)
                            + spec_instruction_bytes(views[i as int])));
                    }
                },
            }
            proof {
                assert(header + (spec_instructions_bytes(done) + spec_instruction_bytes(
                    views[i as int],
                )) =~= header + spec_instructions_bytes(views.take(i + 1)));
            }
            i = i + 1;
        }
        proof {
            assert(views.take(views.len() as int) =~= views);
        }
        out
    }

    /// Decode a patch from its binary format, rejecting malformed framing
    /// with the first error the bytes exhibit.
    pub fn deserialize(data: &[u8]) -> (r: Result<Patch, FormatError>)
        ensures
            match r {
                Ok(p) => spec_parse_patch(data@) == Ok::<PatchView, FormatError>(p@),
                Err(e) => spec_parse_patch(data@) == Err::<PatchView, FormatError>(e),
            },
    {
        let header = match parse_header(data) {
            Ok(h) => h,
            Err(e) => {
                return Err(e);
            },
        };
        let mut instructions: Vec<Instruction> = Vec::new();
        let mut pos: usize = 33;
        proof {
            assert(views_of_instructions(instructions@) =~= Seq::<InstructionView>::empty());
            assert(Seq::<InstructionView>::empty() + spec_parse_instructions(
                data@.skip(33),
            ).unwrap() =~= spec_parse_instructions(data@.skip(33)).unwrap());
        }
        while pos < data.len()
            invariant
                33 <= pos <= data@.len(),
                spec_parse_header(data@) == Ok::<PatchHeader, FormatError>(header),
                spec_parse_instructions(data@.skip(33)) == match spec_parse_instructions(
                    data@.skip(pos as int),
                ) {
                    Ok(rest) => Ok::<Seq<InstructionView>, FormatError>(
                        views_of_instructions(instructions@) + rest,
                    ),
                    Err(e) => Err::<Seq<InstructionView>, FormatError>(e),
                },
            decreases data@.len() - pos,
        {
            let ghost suffix = data@.skip(pos as int);
            let ghost acc = views_of_instructions(instructions@);
            let tag = data[pos];
            assert(tag == suffix[0]);
            if tag == TYPE_COPY {
                if data.len() - pos < 13 {
                    proof {
                        assert(suffix.len() == data@.len() - pos);
                        assert(spec_parse_instructions(suffix) == Err::<
                            Seq<InstructionView>,
                            FormatError,
                        >(FormatError::TruncatedInstruction));
                    }
                    return Err(FormatError::TruncatedInstruction);
                }
                proof {
                    assert(suffix.subrange(1, 9) =~= data@.subrange(pos + 1, pos + 9));
                    assert(suffix.subrange(9, 13) =~= data@.subrange(pos + 9, pos + 13));
                    assert(suffix.skip(13) =~= data@.skip(pos + 13));
                }
                let offset = u64_from_le_bytes(slice_subrange(data, pos + 1, pos + 9));
                let length = u32_from_le_bytes(slice_subrange(data, pos + 9, pos + 13));
                let ghost iv = InstructionView::Copy { offset, length };
                proof {
                    lemma_views_push(instructions@, Instruction::Copy { offset, length });
                    if spec_parse_instructions(data@.skip(pos + 13)) is Ok {
                        let r2 = spec_parse_instructions(data@.skip(pos + 13)).unwrap();
                        assert(acc + (seq![iv] + r2) =~= (acc.push(iv)) + r2);
                    }
                }
                instructions.push(Instruction::Copy { offset, length });
                pos = pos + 13;
            } else if tag == TYPE_INSERT {
                if data.len() - pos < 5 {
                    proof {
                        assert(suffix.len() == data@.len() - pos);
                        assert(spec_parse_instructions(suffix) == Err::<
                            Seq<InstructionView>,
                            FormatError,
                        >(FormatError::TruncatedInstruction));
                    }
                    return Err(FormatError::TruncatedInstruction);
                }
                proof {
                    assert(suffix.subrange(1, 5) =~= data@.subrange(pos + 1, pos + 5));
                }
                let length = u32_from_le_bytes(slice_subrange(data, pos + 1, pos + 5));
                if ((data.len() - pos - 5) as u64) < (length as u64) {
                    proof {
                        assert(suffix.len() == data@.len() - pos);
                        assert(spec_u32_from_le_bytes(suffix.subrange(1, 5)) == length);
                        assert(spec_parse_instructions(suffix) == Err::<
                            Seq<InstructionView>,
                            FormatError,
                        >(FormatError::InsertLengthOverrun));
                    }
                    return Err(FormatError::InsertLengthOverrun);
                }
                let len = length as usize;
                proof {
                    assert(suffix.subrange(5, 5 + length as int) =~= data@.subrange(
                        pos + 5,
                        pos + 5 + length as int,
                    ));
                    assert(suffix.skip(5 + length as int) =~= data@.skip(pos + 5 + length as int));
                }
                let payload = slice_to_vec(slice_subrange(data, pos + 5, pos + 5 + len));
                let ghost iv = InstructionView::Insert { data: payload@ };
                proof {
                    lemma_views_push(instructions@, Instruction::Insert { data: payload });
                    if spec_parse_instructions(data@.skip(pos + 5 + length as int)) is Ok {
                        let r2 = spec_parse_instructions(
                            data@.skip(pos + 5 + length as int),
                        ).unwrap();
                        assert(acc + (seq![iv] + r2) =~= (acc.push(iv)) + r2);
                    }
                }
                instructions.push(Instruction::Insert { data: payload });
                pos = pos + 5 + len;
            } else {
                proof {
                    assert(suffix.len() > 0);
                    assert(spec_parse_instructions(suffix) == Err::<
                        Seq<InstructionView>,
                        FormatError,
                    >(FormatError::UnknownInstructionTag { tag }));
                }
                return Err(FormatError::UnknownInstructionTag { tag });
            }
        }
        proof {
            assert(data@.skip(pos as int) =~= Seq::<u8>::empty());
            assert(spec_parse_instructions(data@.skip(pos as int)) == Ok::<
                Seq<InstructionView>,
                FormatError,
            >(Seq::empty()));
            assert(views_of_instructions(instructions@) + Seq::<InstructionView>::empty()
                =~= views_of_instructions(instructions@));
        }
        Ok(
            Patch {
                chunk_size: header.chunk_size,
                source_size: header.source_size,
                source_hash: header.source_hash,
                target_size: header.target_size,
                instructions,
            },
        )
    }

    /// Validate that the source the caller holds is the one this patch
    /// applies to: sizes are compared first, then hashes.
    pub fn validate_source(&self, source_size: u64, source_hash: u64) -> (r: Result<
        (),
        ValidationError,
    >)
        ensures
            r == spec_validate_source(self.source_size, self.source_hash, source_size, source_hash),
    {
        if source_size != self.source_size {
            return Err(ValidationError::SizeMismatch { expected: self.source_size, actual: source_size });
        }
        if source_hash != self.source_hash {
            return Err(ValidationError::HashMismatch { expected: self.source_hash, actual: source_hash });
        }
        Ok(())
    }
}

/// The result of holding an actual source size and hash against the ones a
/// patch header demands: the size is checked first, then the hash.
pub open spec fn spec_validate_source(
    expected_size: u64,
    expected_hash: u64,
    actual_size: u64,
    actual_hash: u64,
) -> Result<(), ValidationError> {
    if actual_size != expected_size {
        Err(ValidationError::SizeMismatch { expected: expected_size, actual: actual_size })
    } else if actual_hash != expected_hash {
        Err(ValidationError::HashMismatch { expected: expected_hash, actual: actual_hash })
    } else {
        Ok(())
    }
}

/// Why a held source cannot be the one a patch was generated against.
#[derive(Debug, Clone, PartialEq, Eq)]
pub enum ValidationError {
    /// The source has a different length than the patch records.
    SizeMismatch { expected: u64, actual: u64 },
    /// The source hashes to a different digest than the patch records.
    HashMismatch { expected: u64, actual: u64 },
}

/// Counts of instructions and of the bytes they produce.
#[derive(Debug, Clone, PartialEq, Eq)]
pub struct PatchStats {
    pub copy_count: usize,
    pub copy_bytes: u64,
    pub insert_count: usize,
    pub insert_bytes: u64,
}

/// Number of COPY instructions in the list.
pub open spec fn spec_copy_count(s: Seq<InstructionView>) -> int
    decreases s.len(),
{
    if s.len() == 0 {
        0
    } else {
        (match s[0] {
            InstructionView::Copy { .. } => 1int,
            InstructionView::Insert { .. } => 0int,
        }) + spec_copy_count(s.drop_first())
    }
}

/// Total bytes the COPY instructions produce.
pub open spec fn spec_copy_bytes(s: Seq<InstructionView>) -> int
    decreases s.len(),
{
    if s.len() == 0 {
        0
    } else {
        (match s[0] {
            InstructionView::Copy { length, .. } => length as int,
            InstructionView::Insert { .. } => 0int,
        }) + spec_copy_bytes(s.drop_first())
    }
}

/// Number of INSERT instructions in the list.
pub open spec fn spec_insert_count(s: Seq<InstructionView>) -> int
    decreases s.len(),
{
    if s.len() == 0 {
        0
    } else {
        (match s[0] {
            InstructionView::Copy { .. } => 0int,
            InstructionView::Insert { .. } => 1int,
        }) + spec_insert_count(s.drop_first())
    }
}

/// Total bytes the INSERT instructions carry.
pub open spec fn spec_insert_bytes(s: Seq<InstructionView>) -> int
    decreases s.len(),
{
    if s.len() == 0 {
        0
    } else {
        (match s[0] {
            InstructionView::Copy { .. } => 0int,
            InstructionView::Insert { data } => data.len() as int,
        }) + spec_insert_bytes(s.drop_first())
    }
}

/// All four counters over a list with one more instruction.
pub proof fn lemma_stats_push(s: Seq<InstructionView>, x: InstructionView)
    ensures
        spec_copy_count(s.push(x)) == spec_copy_count(s) + (match x {
            InstructionView::Copy { .. } => 1int,
            InstructionView::Insert { .. } => 0int,
        }),
        spec_copy_bytes(s.push(x)) == spec_copy_bytes(s) + (match x {
            InstructionView::Copy { length, .. } => length as int,
            InstructionView::Insert { .. } => 0int,
        }),
        spec_insert_count(s.push(x)) == spec_insert_count(s) + (match x {
            InstructionView::Copy { .. } => 0int,
            InstructionView::Insert { .. } => 1int,
        }),
        spec_insert_bytes(s.push(x)) == spec_insert_bytes(s) + (match x {
            InstructionView::Copy { .. } => 0int,
            InstructionView::Insert { data } => data.len() as int,
        }),
    decreases s.len(),
{
    let p = s.push(x);
    if s.len() == 0 {
        assert(p[0] == x);
        assert(p.drop_first() =~= Seq::<InstructionView>::empty());
        assert(spec_copy_count(Seq::<InstructionView>::empty()) == 0);
        assert(spec_copy_bytes(Seq::<InstructionView>::empty()) == 0);
        assert(spec_insert_count(Seq::<InstructionView>::empty()) == 0);
        assert(spec_insert_bytes(Seq::<InstructionView>::empty()) == 0);
        assert(spec_copy_count(s) == 0);
        assert(spec_copy_bytes(s) == 0);
        assert(spec_insert_count(s) == 0);
        assert(spec_insert_bytes(s) == 0);
    } else {
        assert(p[0] == s[0]);
        assert(p.drop_first() =~= s.drop_first().push(x));
        lemma_stats_push(s.drop_first(), x);
        assert(spec_copy_count(p) == (match p[0] {
            InstructionView::Copy { .. } => 1int,
            InstructionView::Insert { .. } => 0int,
        }) + spec_copy_count(p.drop_first()));
        assert(spec_copy_bytes(p) == (match p[0] {
            InstructionView::Copy { length, .. } => length as int,
            InstructionView::Insert { .. } => 0int,
        }) + spec_copy_bytes(p.drop_first()));
        assert(spec_insert_count(p) == (match p[0] {
            InstructionView::Copy { .. } => 0int,
            InstructionView::Insert { .. } => 1int,
        }) + spec_insert_count(p.drop_first()));
        assert(spec_insert_bytes(p) == (match p[0] {
            InstructionView::Copy { .. } => 0int,
            InstructionView::Insert { data } => data.len() as int,
        }) + spec_insert_bytes(p.drop_first()));
    }
}

impl Patch {
    /// Count the patch's instructions and the bytes they move.
    pub fn stats(&self) -> (r: PatchStats)
        requires
            spec_copy_bytes(self@.instructions) <= u64::MAX,
            spec_insert_bytes(self@.instructions) <= u64::MAX,
        ensures
            r.copy_count == spec_copy_count(self@.instructions),
            r.copy_bytes == spec_copy_bytes(self@.instructions),
            r.insert_count == spec_insert_count(self@.instructions),
            r.insert_bytes == spec_insert_bytes(self@.instructions),
    {
        let ghost views = self@.instructions;
        let mut copy_count: usize = 0;
        let mut copy_bytes: u64 = 0;
        let mut insert_count: usize = 0;
        let mut insert_bytes: u64 = 0;
        let mut i: usize = 0;
        proof {
            assert(views.take(0) =~= Seq::<InstructionView>::empty());
        }
        while i < self.instructions.len()
            invariant
                i <= self.instructions.len(),
                views == self@.instructions,
                views.len() == self.instructions.len(),
                spec_copy_bytes(views) <= u64::MAX,
                spec_insert_bytes(views) <= u64::MAX,
                copy_count == spec_copy_count(views.take(i as int)),
                copy_bytes == spec_copy_bytes(views.take(i as int)),
                insert_count == spec_insert_count(views.take(i as int)),
                insert_bytes == spec_insert_bytes(views.take(i as int)),
            decreases self.instructions.len() - i,
        {
            proof {
                assert(views.take(i + 1) =~= views.take(i as int).push(views[i as int]));
                lemma_stats_push(views.take(i as int), views[i as int]);
                lemma_stats_prefix_bounds(views, i as int);
                lemma_stats_counts_bounded(views.take(i + 1));
                assert(views[i as int] == self.instructions@[i as int]@);
            }
            match &self.instructions[i] {
                Instruction::Copy { length, .. } => {
                    copy_count = copy_count + 1;
                    copy_bytes = copy_bytes + (*length as u64);
                },
                Instruction::Insert { data } => {
                    insert_count = insert_count + 1;
                    insert_bytes = insert_bytes + (data.len() as u64);
                },
            }
            i = i + 1;
        }
        proof {
            assert(views.take(views.len() as int) =~= views);
        }
        PatchStats { copy_count, copy_bytes, insert_count, insert_bytes }
    }
}

/// Every counter over a prefix extended by one more instruction stays within
/// the counter over the whole list, all summands being nonnegative.
pub proof fn lemma_stats_prefix_bounds(s: Seq<InstructionView>, i: int)
    requires
        0 <= i < s.len(),
    ensures
        spec_copy_count(s.take(i + 1)) <= spec_copy_count(s),
        spec_copy_bytes(s.take(i + 1)) <= spec_copy_bytes(s),
        spec_insert_count(s.take(i + 1)) <= spec_insert_count(s),
        spec_insert_bytes(s.take(i + 1)) <= spec_insert_bytes(s),
        spec_copy_count(s.take(i + 1)) <= i + 1,
    decreases s.len() - i,
{
    if i + 1 == s.len() {
        assert(s.take(i + 1) =~= s);
        lemma_stats_counts_bounded(s);
    } else {
        lemma_stats_prefix_bounds(s, i + 1);
        assert(s.take(i + 2) =~= s.take(i + 1).push(s[i + 1]));
        lemma_stats_push(s.take(i + 1), s[i + 1]);
        lemma_stats_counts_bounded(s.take(i + 1));
    }
}

/// The counters are nonnegative and the counts bounded by the length.
pub proof fn lemma_stats_counts_bounded(s: Seq<InstructionView>)
    ensures
        0 <= spec_copy_count(s) <= s.len(),
        0 <= spec_copy_bytes(s),
        0 <= spec_insert_count(s) <= s.len(),
        0 <= spec_insert_bytes(s),
    decreases s.len(),
{
    if s.len() > 0 {
        lemma_stats_counts_bounded(s.drop_first());
    }
}

/// Decoding what was encoded gives back the same instruction list.
pub proof fn lemma_parse_serialized_instructions(s: Seq<InstructionView>)
    requires
        instructions_encodable(s),
    ensures
        spec_parse_instructions(spec_instructions_bytes(s)) == Ok::<
            Seq<InstructionView>,
            FormatError,
        >(s),
    decreases s.len(),
{
    if s.len() == 0 {
        assert(spec_instructions_bytes(s) =~= Seq::<u8>::empty());
        assert(spec_parse_instructions(Seq::<u8>::empty()) == Ok::<
            Seq<InstructionView>,
            FormatError,
        >(Seq::empty()));
        assert(s =~= Seq::<InstructionView>::empty());
    } else {
        let b0 = spec_instruction_bytes(s[0]);
        let rest = spec_instructions_bytes(s.drop_first());
        let all = spec_instructions_bytes(s);
        assert(all == b0 + rest);
        assert(instructions_encodable(s.drop_first())) by {
            assert(forall|k: int|
                0 <= k < s.drop_first().len() ==> s.drop_first()[k] == s[k + 1]
                    && instruction_encodable(#[trigger] s[k + 1]));
        }
        lemma_parse_serialized_instructions(s.drop_first());
        lemma_auto_spec_u64_to_from_le_bytes();
        lemma_auto_spec_u32_to_from_le_bytes();
        match s[0] {
            InstructionView::Copy { offset, length } => {
                assert(b0.len() == 13);
                assert(all[0] == TYPE_COPY);
                assert(all.subrange(1, 9) =~= spec_u64_to_le_bytes(offset));
                assert(all.subrange(9, 13) =~= spec_u32_to_le_bytes(length));
                assert(all.skip(13) =~= rest);
                assert(spec_parse_instructions(all) == Ok::<Seq<InstructionView>, FormatError>(
                    seq![InstructionView::Copy { offset, length }] + s.drop_first(),
                ));
                assert(seq![InstructionView::Copy { offset, length }] + s.drop_first() =~= s);
            },
            InstructionView::Insert { data } => {
                let len = data.len() as int;
                assert(instruction_encodable(s[0]));
                assert(b0.len() == 5 + len);
                assert(all[0] == TYPE_INSERT);
                assert(all.subrange(1, 5) =~= spec_u32_to_le_bytes(data.len() as u32));
                assert(spec_u32_from_le_bytes(all.subrange(1, 5)) == data.len() as u32);
                assert(all.subrange(5, 5 + len) =~= data);
                assert(all.skip(5 + len) =~= rest);
                assert(spec_parse_instructions(all) == Ok::<Seq<InstructionView>, FormatError>(
                    seq![InstructionView::Insert { data }] + s.drop_first(),
                ));
                assert(seq![InstructionView::Insert { data }] + s.drop_first() =~= s);
            },
        }
    }
}

/// Decoding what was encoded gives back the same patch: the format
/// round-trips, header fields and instruction list alike.
pub proof fn lemma_parse_serialized_patch(p: PatchView)
    requires
        instructions_encodable(p.instructions),
    ensures
        spec_parse_patch(spec_patch_bytes(p)) == Ok::<PatchView, FormatError>(p),
{
    let all = spec_patch_bytes(p);
    let hdr = spec_header_bytes(p.chunk_size, p.source_size, p.source_hash, p.target_size);
    lemma_auto_spec_u64_to_from_le_bytes();
    lemma_auto_spec_u32_to_from_le_bytes();
    assert(hdr.len() == 33);
    assert(all.len() >= 33);
    assert(all.subrange(0, 4) =~= spec_magic());
    assert(all[4] == VERSION);
    assert(all.subrange(5, 9) =~= spec_u32_to_le_bytes(p.chunk_size));
    assert(all.subrange(9, 17) =~= spec_u64_to_le_bytes(p.source_size));
    assert(all.subrange(17, 25) =~= spec_u64_to_le_bytes(p.source_hash));
    assert(all.subrange(25, 33) =~= spec_u64_to_le_bytes(p.target_size));
    assert(all.skip(33) =~= spec_instructions_bytes(p.instructions));
    lemma_parse_serialized_instructions(p.instructions);
}

/// A parsed patch: header fields plus instructions that reference INSERT
/// payloads by their offset in the patch bytes.
#[derive(Debug, Clone)]
pub struct PatchMetadata {
    pub chunk_size: u32,
    pub source_size: u64,
    pub source_hash: u64,
    pub target_size: u64,
    pub instructions: Vec<ParsedInstruction>,
}

/// Decoder for the instruction region that records positions instead of
/// copying payloads; `pos` is the absolute position of the next instruction.
pub open spec fn spec_parse_positions(data: Seq<u8>, pos: int) -> Result<
    Seq<ParsedInstruction>,
    FormatError,
>
    recommends
        0 <= pos <= data.len(),
    decreases data.len() - pos,
{
    if pos < 0 || pos >= data.len() {
        Ok(Seq::empty())
    } else if data[pos] == TYPE_COPY {
        if data.len() - pos < 13 {
            Err(FormatError::TruncatedInstruction)
        } else {
            let offset = spec_u64_from_le_bytes(data.subrange(pos + 1, pos + 9));
            let length = spec_u32_from_le_bytes(data.subrange(pos + 9, pos + 13));
            match spec_parse_positions(data, pos + 13) {
                Ok(rest) => Ok(seq![ParsedInstruction::Copy { offset, length }] + rest),
                Err(e) => Err(e),
            }
        }
    } else if data[pos] == TYPE_INSERT {
        if data.len() - pos < 5 {
            Err(FormatError::TruncatedInstruction)
        } else {
            let length = spec_u32_from_le_bytes(data.subrange(pos + 1, pos + 5));
            if data.len() - pos - 5 < length {
                Err(FormatError::InsertLengthOverrun)
            } else {
                match spec_parse_positions(data, pos + 5 + length as int) {
                    Ok(rest) => Ok(
                        seq![
                            ParsedInstruction::Insert {
                                patch_offset: (pos + 5) as usize,
                                length,
                            },
                        ] + rest,
                    ),
                    Err(e) => Err(e),
                }
            }
        }
    } else {
        Err(FormatError::UnknownInstructionTag { tag: data[pos] })
    }
}

impl PatchMetadata {
    /// Decode a patch without copying INSERT payloads: each INSERT records
    /// where its bytes sit inside `data`.
    pub fn parse(data: &[u8]) -> (r: Result<PatchMetadata, FormatError>)
        ensures
            match r {
                Ok(m) => {
                    &&& spec_parse_header(data@) == Ok::<PatchHeader, FormatError>(
                        PatchHeader {
                            chunk_size: m.chunk_size,
                            source_size: m.source_size,
                            source_hash: m.source_hash,
                            target_size: m.target_size,
                        },
                    )
                    &&& spec_parse_positions(data@, 33) == Ok::<
                        Seq<ParsedInstruction>,
                        FormatError,
                    >(m.instructions@)
                },
                Err(e) => spec_parse_header(data@) == Err::<PatchHeader, FormatError>(e) || (
                spec_parse_header(data@) is Ok && spec_parse_positions(data@, 33) == Err::<
                    Seq<ParsedInstruction>,
                    FormatError,
                >(e)),
            },
    {
        let header = match parse_header(data) {
            Ok(h) => h,
            Err(e) => {
                return Err(e);
            },
        };
        let mut instructions: Vec<ParsedInstruction> = Vec::new();
        let mut pos: usize = 33;
        proof {
            if spec_parse_positions(data@, 33) is Ok {
                assert(Seq::<ParsedInstruction>::empty() + spec_parse_positions(
                    data@,
                    33,
                ).unwrap() =~= spec_parse_positions(data@, 33).unwrap());
            }
        }
        while pos < data.len()
            invariant
                33 <= pos <= data@.len(),
                spec_parse_header(data@) == Ok::<PatchHeader, FormatError>(header),
                spec_parse_positions(data@, 33) == match spec_parse_positions(data@, pos as int) {
                    Ok(rest) => Ok::<Seq<ParsedInstruction>, FormatError>(instructions@ + rest),
                    Err(e) => Err::<Seq<ParsedInstruction>, FormatError>(e),
                },
            decreases data@.len() - pos,
        {
            let ghost acc = instructions@;
            let tag = data[pos];
            if tag == TYPE_COPY {
                if data.len() - pos < 13 {
                    return Err(FormatError::TruncatedInstruction);
                }
                let offset = u64_from_le_bytes(slice_subrange(data, pos + 1, pos + 9));
                let length = u32_from_le_bytes(slice_subrange(data, pos + 9, pos + 13));
                let pi = ParsedInstruction::Copy { offset, length };
                proof {
                    if spec_parse_positions(data@, pos + 13) is Ok {
                        let r2 = spec_parse_positions(data@, pos + 13).unwrap();
                        assert(acc + (seq![pi] + r2) =~= acc.push(pi) + r2);
                    }
                }
                instructions.push(pi);
                pos = pos + 13;
            } else if tag == TYPE_INSERT {
                if data.len() - pos < 5 {
                    return Err(FormatError::TruncatedInstruction);
                }
                let length = u32_from_le_bytes(slice_subrange(data, pos + 1, pos + 5));
                if ((data.len() - pos - 5) as u64) < (length as u64) {
                    return Err(FormatError::InsertLengthOverrun);
                }
                let pi = ParsedInstruction::Insert { patch_offset: pos + 5, length };
                proof {
                    if spec_parse_positions(data@, pos + 5 + length as int) is Ok {
                        let r2 = spec_parse_positions(data@, pos + 5 + length as int).unwrap();
                        assert(acc + (seq![pi] + r2) =~= acc.push(pi) + r2);
                    }
                }
                instructions.push(pi);
                pos = pos + 5 + (length as usize);
            } else {
                return Err(FormatError::UnknownInstructionTag { tag });
            }
        }
        proof {
            assert(spec_parse_positions(data@, pos as int) == Ok::<
                Seq<ParsedInstruction>,
                FormatError,
            >(Seq::empty()));
            assert(instructions@ + Seq::<ParsedInstruction>::empty() =~= instructions@);
        }
        Ok(
            PatchMetadata {
                chunk_size: header.chunk_size,
                source_size: header.source_size,
                source_hash: header.source_hash,
                target_size: header.target_size,
                instructions,
            },
        )
    }

    /// Validate that the source the caller holds is the one this patch
    /// applies to: sizes are compared first, then hashes.
    pub fn validate_source(&self, source_size: u64, source_hash: u64) -> (r: Result<
        (),
        ValidationError,
    >)
        ensures
            r == spec_validate_source(self.source_size, self.source_hash, source_size, source_hash),
    {
        if source_size != self.source_size {
            return Err(ValidationError::SizeMismatch { expected: self.source_size, actual: source_size });
        }
        if source_hash != self.source_hash {
            return Err(ValidationError::HashMismatch { expected: self.source_hash, actual: source_hash });
        }
        Ok(())
    }
}

/// A parsed instruction stands for an instruction model when COPY fields
/// agree and an INSERT's recorded range holds exactly the model's payload.
pub open spec fn parsed_matches(data: Seq<u8>, p: ParsedInstruction, v: InstructionView) -> bool {
    match p {
        ParsedInstruction::Copy { offset: po, length: pl } => match v {
            InstructionView::Copy { offset: vo, length: vl } => po == vo && pl == vl,
            InstructionView::Insert { .. } => false,
        },
        ParsedInstruction::Insert { patch_offset, length } => match v {
            InstructionView::Copy { .. } => false,
            InstructionView::Insert { data: d } => {
                &&& d.len() == length
                &&& patch_offset + length <= data.len()
                &&& data.subrange(patch_offset as int, patch_offset + length) == d
            },
        },
    }
}

/// The position-recording decoder and the payload-copying decoder agree:
/// they fail with the same error, or succeed with pointwise-matching lists.
pub proof fn lemma_parsers_agree(data: Seq<u8>, pos: int)
    requires
        0 <= pos <= data.len(),
        data.len() <= usize::MAX,
    ensures
        match spec_parse_positions(data, pos) {
            Ok(ps) => match spec_parse_instructions(data.skip(pos)) {
                Ok(vs) => ps.len() == vs.len() && (forall|k: int|
                    0 <= k < ps.len() ==> parsed_matches(data, #[trigger] ps[k], vs[k])),
                Err(_) => false,
            },
            Err(e) => spec_parse_instructions(data.skip(pos)) == Err::<
                Seq<InstructionView>,
                FormatError,
            >(e),
        },
    decreases data.len() - pos,
{
    let suffix = data.skip(pos);
    if pos >= data.len() {
        assert(suffix =~= Seq::<u8>::empty());
    } else {
        assert(suffix[0] == data[pos]);
        assert(suffix.len() == data.len() - pos);
        if data[pos] == TYPE_COPY {
            if data.len() - pos < 13 {
            } else {
                assert(suffix.subrange(1, 9) =~= data.subrange(pos + 1, pos + 9));
                assert(suffix.subrange(9, 13) =~= data.subrange(pos + 9, pos + 13));
                assert(suffix.skip(13) =~= data.skip(pos + 13));
                lemma_parsers_agree(data, pos + 13);
                let offset = spec_u64_from_le_bytes(data.subrange(pos + 1, pos + 9));
                let length = spec_u32_from_le_bytes(data.subrange(pos + 9, pos + 13));
                if spec_parse_positions(data, pos + 13) is Ok {
                    let pr = spec_parse_positions(data, pos + 13).unwrap();
                    let vr = spec_parse_instructions(data.skip(pos + 13)).unwrap();
                    let ps = seq![ParsedInstruction::Copy { offset, length }] + pr;
                    let vs = seq![InstructionView::Copy { offset, length }] + vr;
                    assert forall|k: int| 0 <= k < ps.len() implies parsed_matches(
                        data,
                        #[trigger] ps[k],
                        vs[k],
                    ) by {
                        if k == 0 {
                            assert(ps[0] == ParsedInstruction::Copy { offset, length });
                            assert(vs[0] == InstructionView::Copy { offset, length });
                        } else {
                            assert(ps[k] == pr[k - 1]);
                            assert(vs[k] == vr[k - 1]);
                        }
                    }
                }
            }
        } else if data[pos] == TYPE_INSERT {
            if data.len() - pos < 5 {
            } else {
                assert(suffix.subrange(1, 5) =~= data.subrange(pos + 1, pos + 5));
                let length = spec_u32_from_le_bytes(data.subrange(pos + 1, pos + 5));
                if data.len() - pos - 5 < length {
                } else {
                    assert(suffix.subrange(5, 5 + length as int) =~= data.subrange(
                        pos + 5,
                        pos + 5 + length as int,
                    ));
                    assert(suffix.skip(5 + length as int) =~= data.skip(pos + 5 + length as int));
                    lemma_parsers_agree(data, pos + 5 + length as int);
                    if spec_parse_positions(data, pos + 5 + length as int) is Ok {
                        let pr = spec_parse_positions(data, pos + 5 + length as int).unwrap();
                        let vr = spec_parse_instructions(
                            data.skip(pos + 5 + length as int),
                        ).unwrap();
                        let pi = ParsedInstruction::Insert {
                            patch_offset: (pos + 5) as usize,
                            length,
                        };
                        let iv = InstructionView::Insert {
                            data: data.subrange(pos + 5, pos + 5 + length as int),
                        };
                        let ps = seq![pi] + pr;
                        let vs = seq![iv] + vr;
                        assert forall|k: int| 0 <= k < ps.len() implies parsed_matches(
                            data,
                            #[trigger] ps[k],
                            vs[k],
                        ) by {
                            if k == 0 {
                                assert(ps[0] == pi);
                                assert(vs[0] == iv);
                                assert(((pos + 5) as usize) as int == pos + 5);
                                assert(parsed_matches(data, pi, iv));
                            } else {
                                assert(ps[k] == pr[k - 1]);
                                assert(vs[k] == vr[k - 1]);
                            }
                        }
                    }
                }
            }
        } else {
        }
    }
}

} // verus!
