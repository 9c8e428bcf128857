//! Whole-buffer patch generation and application.
//!
//! `generate_patch` matches aligned source blocks inside the target and
//! emits a COPY/INSERT instruction list whose concatenated output is exactly
//! the target; `apply_patch` validates the source against the patch header
//! and replays the instructions.

use crate::hash::{calculate_hash, fnv1a};
use crate::matcher::{
    match_at, source_has_block, valid_match, BlockMatch, BlockMatcher, DEFAULT_CHUNK_SIZE,
};
use crate::patch_format::{
    spec_validate_source, Instruction, InstructionView, Patch, PatchView, ValidationError,
};
use vstd::prelude::*;
use vstd::slice::{slice_subrange, slice_to_vec};

verus! {

/// The bytes one instruction contributes to the output.
pub open spec fn instr_output(src: Seq<u8>, i: InstructionView) -> Seq<u8> {
    match i {
        InstructionView::Copy { offset, length } => src.subrange(offset as int, offset + length),
        InstructionView::Insert { data } => data,
    }
}

/// The bytes an instruction list produces, concatenated in order.
pub open spec fn instrs_output(src: Seq<u8>, s: Seq<InstructionView>) -> Seq<u8>
    decreases s.len(),
{
    if s.len() == 0 {
        Seq::empty()
    } else {
        instr_output(src, s[0]) + instrs_output(src, s.drop_first())
    }
}

/// Every COPY stays within the source.
pub open spec fn copies_in_bounds(s: Seq<InstructionView>, src_len: int) -> bool {
    forall|k: int|
        0 <= k < s.len() ==> match #[trigger] s[k] {
            InstructionView::Copy { offset, length } => offset + length <= src_len,
            InstructionView::Insert { .. } => true,
        }
}

/// The first instruction index whose COPY runs past the source, scanning
/// from `i` on.
pub open spec fn first_oob_from(s: Seq<InstructionView>, src_len: int, i: int) -> Option<int>
    decreases s.len() - i,
{
    if i < 0 || i >= s.len() {
        None
    } else {
        match s[i] {
            InstructionView::Copy { offset, length } => if offset + length > src_len {
                Some(i)
            } else {
                first_oob_from(s, src_len, i + 1)
            },
            InstructionView::Insert { .. } => first_oob_from(s, src_len, i + 1),
        }
    }
}

/// Everything that can go wrong when applying a patch.
#[derive(Debug, Clone, PartialEq, Eq)]
pub enum PatchError {
    /// The supplied source is not the one the patch was generated against.
    ValidationFailed(ValidationError),
    /// A COPY references bytes past the end of the source.
    CopyOutOfBounds { instruction_index: usize, offset: u64, length: u32, source_len: usize },
    /// The produced output does not have the length the header promises.
    SizeMismatch { expected: usize, actual: usize },
}

/// The outcome of applying a patch to a source: source validation first,
/// then the first out-of-bounds COPY if any, then the produced bytes checked
/// against the promised target size.
pub open spec fn spec_apply(src: Seq<u8>, p: PatchView) -> Result<Seq<u8>, PatchError> {
    match spec_validate_source(p.source_size, p.source_hash, src.len() as u64, fnv1a(src)) {
        Err(e) => Err(PatchError::ValidationFailed(e)),
        Ok(_) => match first_oob_from(p.instructions, src.len() as int, 0) {
            Some(idx) => match p.instructions[idx] {
                InstructionView::Copy { offset, length } => Err(
                    PatchError::CopyOutOfBounds {
                        instruction_index: idx as usize,
                        offset,
                        length,
                        source_len: src.len() as usize,
                    },
                ),
                // The scan only ever reports a COPY; this arm is unreachable.
                InstructionView::Insert { .. } => Err(
                    PatchError::SizeMismatch { expected: 0, actual: 0 },
                ),
            },
            None => {
                let out = instrs_output(src, p.instructions);
                if out.len() == p.target_size {
                    Ok(out)
                } else {
                    Err(
                        PatchError::SizeMismatch {
                            expected: p.target_size as usize,
                            actual: out.len() as usize,
                        },
                    )
                }
            },
        },
    }
}

/// One more instruction appends its output.
pub proof fn lemma_instrs_output_push(src: Seq<u8>, s: Seq<InstructionView>, x: InstructionView)
    ensures
        instrs_output(src, s.push(x)) == instrs_output(src, s) + instr_output(src, x),
    decreases s.len(),
{
    let p = s.push(x);
    if s.len() == 0 {
        assert(p[0] == x);
        assert(p.drop_first() =~= Seq::<InstructionView>::empty());
        assert(instrs_output(src, p) == instr_output(src, x) + instrs_output(src, p.drop_first()));
        assert(instr_output(src, x) + Seq::<u8>::empty() =~= Seq::<u8>::empty() + instr_output(
            src,
            x,
        ));
    } else {
        assert(p[0] == s[0]);
        assert(p.drop_first() =~= s.drop_first().push(x));
        lemma_instrs_output_push(src, s.drop_first(), x);
        assert(instr_output(src, s[0]) + (instrs_output(src, s.drop_first()) + instr_output(
            src,
            x,
        )) =~= (instr_output(src, s[0]) + instrs_output(src, s.drop_first())) + instr_output(
            src,
            x,
        ));
    }
}

/// Apply `patch` to `source`: validate the source, then replay the
/// instructions; the result is exactly what the apply semantics dictate.
pub fn apply_patch(source: &[u8], patch: &Patch) -> (r: Result<Vec<u8>, PatchError>)
    ensures
        match r {
            Ok(out) => spec_apply(source@, patch@) == Ok::<Seq<u8>, PatchError>(out@),
            Err(e) => spec_apply(source@, patch@) == Err::<Seq<u8>, PatchError>(e),
        },
{
    let source_hash = calculate_hash(source);
    match patch.validate_source(source.len() as u64, source_hash) {
        Ok(_) => (),
        Err(e) => {
            return Err(PatchError::ValidationFailed(e));
        },
    }
    let ghost views = patch@.instructions;
    let mut output: Vec<u8> = Vec::new();
    let mut i: usize = 0;
    proof {
        assert(views.take(0) =~= Seq::<InstructionView>::empty());
    }
    while i < patch.instructions.len()
        invariant
            i <= patch.instructions@.len(),
            views == patch@.instructions,
            views.len() == patch.instructions@.len(),
            spec_validate_source(
                patch@.source_size,
                patch@.source_hash,
                source@.len() as u64,
                fnv1a(source@),
            ) == Ok::<(), ValidationError>(()),
            first_oob_from(views, source@.len() as int, 0) == first_oob_from(
                views,
                source@.len() as int,
                i as int,
            ),
            output@ == instrs_output(source@, views.take(i as int)),
        decreases patch.instructions@.len() - i,
    {
        proof {
            assert(views[i as int] == patch.instructions@[i as int]@);
            assert(views.take(i + 1) =~= views.take(i as int).push(views[i as int]));
            lemma_instrs_output_push(source@, views.take(i as int), views[i as int]);
        }
        match &patch.instructions[i] {
            Instruction::Copy { offset, length } => {
                if *length as u64 > source.len() as u64 || *offset > source.len() as u64 - (*length
                    as u64) {
                    proof {
                        assert(first_oob_from(views, source@.len() as int, i as int) == Some(
                            i as int,
                        ));
                    }
                    return Err(
                        PatchError::CopyOutOfBounds {
                            instruction_index: i,
                            offset: *offset,
                            length: *length,
                            source_len: source.len(),
                        },
                    );
                }
                let start = *offset as usize;
                let end = start + (*length as usize);
                output.extend_from_slice(slice_subrange(source, start, end));
            },
            Instruction::Insert { data } => {
                output.extend_from_slice(data.as_slice());
            },
        }
        i = i + 1;
    }
    proof {
        assert(views.take(views.len() as int) =~= views);
        assert(first_oob_from(views, source@.len() as int, views.len() as int) == None::<int>);
    }
    if output.len() as u64 != patch.target_size {
        return Err(
            PatchError::SizeMismatch {
                expected: patch.target_size as usize,
                actual: output.len(),
            },
        );
    }
    Ok(output)
}

/// Instructions whose COPYs stay within a prefix of the source produce the
/// same output over the prefix and over the whole source.
pub proof fn lemma_output_over_prefix(short: Seq<u8>, long: Seq<u8>, s: Seq<InstructionView>)
    requires
        short.len() <= long.len(),
        short == long.take(short.len() as int),
        copies_in_bounds(s, short.len() as int),
    ensures
        instrs_output(long, s) == instrs_output(short, s),
    decreases s.len(),
{
    if s.len() > 0 {
        assert(copies_in_bounds(s.drop_first(), short.len() as int)) by {
            assert(forall|k: int|
                0 <= k < s.drop_first().len() ==> #[trigger] s.drop_first()[k] == s[k + 1]);
        }
        lemma_output_over_prefix(short, long, s.drop_first());
        assert(s[0] == s[0]);
        match s[0] {
            InstructionView::Copy { offset, length } => {
                assert(long.subrange(offset as int, offset + length) =~= short.subrange(
                    offset as int,
                    offset + length,
                ));
            },
            InstructionView::Insert { .. } => {},
        }
    }
}

/// Matches are weakly sorted by target offset.
pub open spec fn matches_sorted(ms: Seq<BlockMatch>) -> bool {
    forall|i: int, j: int|
        #![trigger ms[i], ms[j]]
        0 <= i < j < ms.len() ==> ms[i].target_offset <= ms[j].target_offset
}

/// Greedy overlap removal: walk the sorted matches, keep one whenever it
/// starts at or after the end of the last kept one.
pub open spec fn greedy_filter(ms: Seq<BlockMatch>, last_end: int) -> Seq<BlockMatch>
    decreases ms.len(),
{
    if ms.len() == 0 {
        Seq::empty()
    } else if (ms[0].target_offset as int) < last_end {
        greedy_filter(ms.drop_first(), last_end)
    } else {
        seq![ms[0]] + greedy_filter(ms.drop_first(), ms[0].target_offset + ms[0].length)
    }
}

/// What the greedy filter keeps: elements of the input, starting at or
/// after `last_end`, consecutive kept matches never overlapping.
pub proof fn lemma_greedy_properties(ms: Seq<BlockMatch>, last_end: int)
    ensures
        forall|i: int|
            0 <= i < greedy_filter(ms, last_end).len() ==> ms.contains(
                #[trigger] greedy_filter(ms, last_end)[i],
            ),
        forall|i: int|
            0 <= i < greedy_filter(ms, last_end).len() ==> (#[trigger] greedy_filter(
                ms,
                last_end,
            )[i]).target_offset >= last_end,
        forall|i: int, j: int|
            #![trigger greedy_filter(ms, last_end)[i], greedy_filter(ms, last_end)[j]]
            0 <= i && i + 1 == j && j < greedy_filter(ms, last_end).len() ==> greedy_filter(
                ms,
                last_end,
            )[i].target_offset + greedy_filter(ms, last_end)[i].length <= greedy_filter(
                ms,
                last_end,
            )[j].target_offset,
    decreases ms.len(),
{
    let r = greedy_filter(ms, last_end);
    if ms.len() == 0 {
    } else if (ms[0].target_offset as int) < last_end {
        let tail = greedy_filter(ms.drop_first(), last_end);
        lemma_greedy_properties(ms.drop_first(), last_end);
        assert(r == tail);
        assert forall|i: int| 0 <= i < r.len() implies ms.contains(#[trigger] r[i])
            && (r[i].target_offset >= last_end) by {
            assert(r[i] == tail[i]);
            assert(ms.drop_first().contains(tail[i]));
            let j = choose|j: int| 0 <= j < ms.drop_first().len() && ms.drop_first()[j] == tail[i];
            assert(ms[j + 1] == r[i]);
        }
        assert forall|i: int, j: int|
            0 <= i && i + 1 == j && j < r.len() implies (#[trigger] r[i]).target_offset
            + r[i].length <= (#[trigger] r[j]).target_offset by {
            assert(r[i] == tail[i] && r[j] == tail[j]);
        }
    } else {
        let new_end = ms[0].target_offset + ms[0].length;
        let tail = greedy_filter(ms.drop_first(), new_end);
        lemma_greedy_properties(ms.drop_first(), new_end);
        assert(r == seq![ms[0]] + tail);
        assert(r[0] == ms[0]);
        assert forall|i: int| 0 <= i < r.len() implies ms.contains(#[trigger] r[i])
            && (r[i].target_offset >= last_end) by {
            if i == 0 {
                assert(ms[0] == r[0]);
            } else {
                assert(r[i] == tail[i - 1]);
                assert(ms.drop_first().contains(tail[i - 1]));
                let j = choose|j: int|
                    0 <= j < ms.drop_first().len() && ms.drop_first()[j] == tail[i - 1];
                assert(ms[j + 1] == r[i]);
                assert(tail[i - 1].target_offset >= new_end);
            }
        }
        assert forall|i: int, j: int|
            0 <= i && i + 1 == j && j < r.len() implies (#[trigger] r[i]).target_offset
            + r[i].length <= (#[trigger] r[j]).target_offset by {
            if i == 0 {
                assert(r[1] == tail[0]);
                assert(tail[0].target_offset >= new_end);
            } else {
                assert(r[i] == tail[i - 1]);
                assert(r[j] == tail[j - 1]);
                assert(tail[i - 1].target_offset + tail[i - 1].length <= tail[j
                    - 1].target_offset);
            }
        }
    }
}

/// Remove overlapping matches from a sorted list, keeping the earliest
/// non-overlapping ones.
pub fn optimize_macthes(matches: &[BlockMatch]) -> (r: Vec<BlockMatch>)
    requires
        matches_sorted(matches@),
        forall|i: int|
            0 <= i < matches@.len() ==> (#[trigger] matches@[i]).target_offset
                + matches@[i].length <= usize::MAX,
    ensures
        r@ == greedy_filter(matches@, 0),
{
    let mut result: Vec<BlockMatch> = Vec::new();
    let mut last_end: usize = 0;
    let mut i: usize = 0;
    proof {
        assert(matches@.skip(0) =~= matches@);
        assert(Seq::<BlockMatch>::empty() + greedy_filter(matches@, 0) =~= greedy_filter(
            matches@,
            0,
        ));
    }
    while i < matches.len()
        invariant
            i <= matches@.len(),
            forall|k: int|
                0 <= k < matches@.len() ==> (#[trigger] matches@[k]).target_offset
                    + matches@[k].length <= usize::MAX,
            greedy_filter(matches@, 0) == result@ + greedy_filter(
                matches@.skip(i as int),
                last_end as int,
            ),
        decreases matches@.len() - i,
    {
        let ghost suffix = matches@.skip(i as int);
        proof {
            assert(suffix[0] == matches@[i as int]);
            assert(suffix.drop_first() =~= matches@.skip(i + 1));
        }
        let m = matches[i];
        if m.target_offset >= last_end {
            let new_end = m.target_offset + m.length;
            proof {
                assert(result@ + (seq![m] + greedy_filter(
                    matches@.skip(i + 1),
                    new_end as int,
                )) =~= result@.push(m) + greedy_filter(matches@.skip(i + 1), new_end as int));
            }
            result.push(m);
            last_end = new_end;
        }
        i = i + 1;
    }
    proof {
        assert(matches@.skip(matches@.len() as int) =~= Seq::<BlockMatch>::empty());
        assert(result@ + Seq::<BlockMatch>::empty() =~= result@);
    }
    result
}

/// In-bounds copies never trip the out-of-bounds scan.
pub proof fn lemma_no_oob(s: Seq<InstructionView>, src_len: int, i: int)
    requires
        copies_in_bounds(s, src_len),
        0 <= i,
    ensures
        first_oob_from(s, src_len, i) == None::<int>,
    decreases s.len() - i,
{
    if i < s.len() {
        lemma_no_oob(s, src_len, i + 1);
    }
}

/// An instruction list's output is as long as the copy bytes plus the
/// insert bytes it carries.
pub proof fn lemma_output_len(src: Seq<u8>, s: Seq<InstructionView>)
    requires
        copies_in_bounds(s, src.len() as int),
    ensures
        instrs_output(src, s).len() == crate::patch_format::spec_copy_bytes(s)
            + crate::patch_format::spec_insert_bytes(s),
    decreases s.len(),
{
    if s.len() > 0 {
        assert(copies_in_bounds(s.drop_first(), src.len() as int)) by {
            assert(forall|k: int|
                0 <= k < s.drop_first().len() ==> #[trigger] s.drop_first()[k] == s[k + 1]);
        }
        lemma_output_len(src, s.drop_first());
        assert(s[0] == s[0]);
    }
}

/// Round trip: a patch whose header records the source's length and hash and
/// whose instructions produce the target, applies to that source and yields
/// exactly the target.
pub proof fn lemma_generate_apply_round_trip(source: Seq<u8>, target: Seq<u8>, p: PatchView)
    requires
        source.len() <= u64::MAX,
        p.source_size == source.len() as u64,
        p.source_hash == fnv1a(source),
        p.target_size == target.len() as u64,
        target.len() <= u64::MAX,
        copies_in_bounds(p.instructions, source.len() as int),
        instrs_output(source, p.instructions) == target,
    ensures
        spec_apply(source, p) == Ok::<Seq<u8>, PatchError>(target),
{
    lemma_no_oob(p.instructions, source.len() as int, 0);
}

/// Source validation: applying a patch to a source whose length or hash
/// differs from the recorded ones fails with the matching validation error,
/// size checked first.
pub proof fn lemma_source_validation(source: Seq<u8>, p: PatchView)
    requires
        source.len() <= u64::MAX,
    ensures
        p.source_size != source.len() as u64 ==> spec_apply(source, p) == Err::<
            Seq<u8>,
            PatchError,
        >(
            PatchError::ValidationFailed(
                ValidationError::SizeMismatch {
                    expected: p.source_size,
                    actual: source.len() as u64,
                },
            ),
        ),
        p.source_size == source.len() as u64 && p.source_hash != fnv1a(source) ==> spec_apply(
            source,
            p,
        ) == Err::<Seq<u8>, PatchError>(
            PatchError::ValidationFailed(
                ValidationError::HashMismatch { expected: p.source_hash, actual: fnv1a(source) },
            ),
        ),
{
}

/// Bounds safety: a patch that validates but holds an out-of-bounds COPY is
/// rejected with that COPY's details, and no output is produced.
pub proof fn lemma_copy_out_of_bounds(source: Seq<u8>, p: PatchView, idx: int)
    requires
        source.len() <= u64::MAX,
        p.source_size == source.len() as u64,
        p.source_hash == fnv1a(source),
        0 <= idx < p.instructions.len(),
        p.instructions[idx] is Copy,
        (match p.instructions[idx] {
            InstructionView::Copy { offset, length } => offset + length > source.len(),
            InstructionView::Insert { .. } => false,
        }),
        forall|j: int|
            0 <= j < idx ==> match #[trigger] p.instructions[j] {
                InstructionView::Copy { offset, length } => offset + length <= source.len(),
                InstructionView::Insert { .. } => true,
            },
    ensures
        spec_apply(source, p) == Err::<Seq<u8>, PatchError>(
            match p.instructions[idx] {
                InstructionView::Copy { offset, length } => PatchError::CopyOutOfBounds {
                    instruction_index: idx as usize,
                    offset,
                    length,
                    source_len: source.len() as usize,
                },
                InstructionView::Insert { .. } => PatchError::SizeMismatch {
                    expected: 0,
                    actual: 0,
                },
            },
        ),
{
    lemma_first_oob_at(p.instructions, source.len() as int, idx, 0);
}

/// Every INSERT in the list carries at least one byte.
pub open spec fn inserts_nonempty(s: Seq<InstructionView>) -> bool {
    forall|k: int|
        0 <= k < s.len() ==> match #[trigger] s[k] {
            InstructionView::Copy { .. } => true,
            InstructionView::Insert { data } => data.len() > 0,
        }
}

/// A list of non-empty INSERTs with zero insert bytes has no INSERTs.
pub proof fn lemma_no_insert_bytes_no_inserts(s: Seq<InstructionView>)
    requires
        inserts_nonempty(s),
        crate::patch_format::spec_insert_bytes(s) == 0,
    ensures
        crate::patch_format::spec_insert_count(s) == 0,
    decreases s.len(),
{
    if s.len() > 0 {
        crate::patch_format::lemma_stats_counts_bounded(s.drop_first());
        assert(inserts_nonempty(s.drop_first())) by {
            assert(forall|k: int|
                0 <= k < s.drop_first().len() ==> #[trigger] s.drop_first()[k] == s[k + 1]);
        }
        assert(s[0] == s[0]);
        lemma_no_insert_bytes_no_inserts(s.drop_first());
    }
}

/// Append the bytes `target[from..to)` as INSERT instructions, split into
/// pieces that fit the 32-bit length field.
fn push_insert_pieces(
    patch: &mut Patch,
    target: &[u8],
    from: usize,
    to: usize,
    Ghost(src): Ghost<Seq<u8>>,
)
    requires
        from <= to <= target@.len(),
    ensures
        final(patch)@.chunk_size == old(patch)@.chunk_size,
        final(patch)@.source_size == old(patch)@.source_size,
        final(patch)@.source_hash == old(patch)@.source_hash,
        final(patch)@.target_size == old(patch)@.target_size,
        instrs_output(src, final(patch)@.instructions) == instrs_output(
            src,
            old(patch)@.instructions,
        ) + target@.subrange(from as int, to as int),
        crate::patch_format::spec_copy_bytes(final(patch)@.instructions)
            == crate::patch_format::spec_copy_bytes(old(patch)@.instructions),
        crate::patch_format::spec_insert_bytes(final(patch)@.instructions)
            == crate::patch_format::spec_insert_bytes(old(patch)@.instructions) + (to - from),
        copies_in_bounds(old(patch)@.instructions, src.len() as int) ==> copies_in_bounds(
            final(patch)@.instructions,
            src.len() as int,
        ),
        crate::patch_format::instructions_encodable(old(patch)@.instructions)
            ==> crate::patch_format::instructions_encodable(final(patch)@.instructions),
        inserts_nonempty(old(patch)@.instructions) ==> inserts_nonempty(
            final(patch)@.instructions,
        ),
{
    let ghost base = patch@;
    let mut pos: usize = from;
    proof {
        assert(target@.subrange(from as int, from as int) =~= Seq::<u8>::empty());
        assert(instrs_output(src, base.instructions) + Seq::<u8>::empty() =~= instrs_output(
            src,
            base.instructions,
        ));
    }
    while pos < to
        invariant
            from <= pos <= to <= target@.len(),
            patch@.chunk_size == base.chunk_size,
            patch@.source_size == base.source_size,
            patch@.source_hash == base.source_hash,
            patch@.target_size == base.target_size,
            instrs_output(src, patch@.instructions) == instrs_output(src, base.instructions)
                + target@.subrange(from as int, pos as int),
            crate::patch_format::spec_copy_bytes(patch@.instructions)
                == crate::patch_format::spec_copy_bytes(base.instructions),
            crate::patch_format::spec_insert_bytes(patch@.instructions)
                == crate::patch_format::spec_insert_bytes(base.instructions) + (pos - from),
            copies_in_bounds(base.instructions, src.len() as int) ==> copies_in_bounds(
                patch@.instructions,
                src.len() as int,
            ),
            crate::patch_format::instructions_encodable(base.instructions)
                ==> crate::patch_format::instructions_encodable(patch@.instructions),
            inserts_nonempty(base.instructions) ==> inserts_nonempty(patch@.instructions),
        decreases to - pos,
    {
        let room = to - pos;
        let limit: usize = u32::MAX as usize;
        let n = if room < limit {
            room
        } else {
            limit
        };
        let piece = slice_to_vec(slice_subrange(target, pos, pos + n));
        let ghost before = patch@.instructions;
        let ghost iv = InstructionView::Insert { data: piece@ };
        proof {
            crate::patch_format::lemma_stats_push(before, iv);
            lemma_instrs_output_push(src, before, iv);
        }
        patch.add_insert(piece);
        proof {
            assert(patch@.instructions == before.push(iv));
            assert((instrs_output(src, base.instructions) + target@.subrange(
                from as int,
                pos as int,
            )) + target@.subrange(pos as int, pos + n) =~= instrs_output(src, base.instructions)
                + target@.subrange(from as int, pos + n as int));
            assert forall|k: int|
                0 <= k < patch@.instructions.len() && copies_in_bounds(
                    base.instructions,
                    src.len() as int,
                ) implies (match #[trigger] patch@.instructions[k] {
                InstructionView::Copy { offset, length } => offset + length <= src.len(),
                InstructionView::Insert { .. } => true,
            }) by {
                if k < before.len() {
                    assert(patch@.instructions[k] == before[k]);
                }
            }
            assert forall|k: int|
                0 <= k < patch@.instructions.len() && crate::patch_format::instructions_encodable(
                    base.instructions,
                ) implies crate::patch_format::instruction_encodable(
                #[trigger] patch@.instructions[k],
            ) by {
                if k < before.len() {
                    assert(patch@.instructions[k] == before[k]);
                }
            }
            assert forall|k: int|
                0 <= k < patch@.instructions.len() && inserts_nonempty(
                    base.instructions,
                ) implies (match #[trigger] patch@.instructions[k] {
                InstructionView::Copy { .. } => true,
                InstructionView::Insert { data } => data.len() > 0,
            }) by {
                if k < before.len() {
                    assert(patch@.instructions[k] == before[k]);
                }
            }
        }
        pos = pos + n;
    }
}

/// Turn non-overlapping, sorted, byte-verified matches into instructions:
/// COPY for each match, INSERT for every gap, in target order.
fn generate_instructions(
    patch: &mut Patch,
    target: &[u8],
    matches: &[BlockMatch],
    Ghost(src): Ghost<Seq<u8>>,
    Ghost(bs): Ghost<nat>,
)
    requires
        old(patch)@.instructions.len() == 0,
        1 <= bs <= u32::MAX,
        forall|i: int|
            0 <= i < matches@.len() ==> valid_match(src, bs, target@, #[trigger] matches@[i]),
        forall|i: int, j: int|
            #![trigger matches@[i], matches@[j]]
            0 <= i && i + 1 == j && j < matches@.len() ==> matches@[i].target_offset
                + matches@[i].length <= matches@[j].target_offset,
    ensures
        final(patch)@.chunk_size == old(patch)@.chunk_size,
        final(patch)@.source_size == old(patch)@.source_size,
        final(patch)@.source_hash == old(patch)@.source_hash,
        final(patch)@.target_size == old(patch)@.target_size,
        instrs_output(src, final(patch)@.instructions) == target@,
        copies_in_bounds(final(patch)@.instructions, src.len() as int),
        crate::patch_format::instructions_encodable(final(patch)@.instructions),
        inserts_nonempty(final(patch)@.instructions),
        crate::patch_format::spec_copy_bytes(final(patch)@.instructions) == bs * matches@.len(),
{
    let ghost base = patch@;
    let mut current: usize = 0;
    let mut i: usize = 0;
    proof {
        assert(target@.take(0) =~= Seq::<u8>::empty());
        assert(instrs_output(src, base.instructions) == Seq::<u8>::empty());
        assert(0int * bs == 0) by (nonlinear_arith);
    }
    while i < matches.len()
        invariant
            i <= matches@.len(),
            1 <= bs <= u32::MAX,
            current <= target@.len(),
            forall|k: int|
                0 <= k < matches@.len() ==> valid_match(src, bs, target@, #[trigger] matches@[k]),
            forall|k: int, j: int|
                #![trigger matches@[k], matches@[j]]
                0 <= k && k + 1 == j && j < matches@.len() ==> matches@[k].target_offset
                    + matches@[k].length <= matches@[j].target_offset,
            i < matches@.len() ==> matches@[i as int].target_offset >= current,
            patch@.chunk_size == base.chunk_size,
            patch@.source_size == base.source_size,
            patch@.source_hash == base.source_hash,
            patch@.target_size == base.target_size,
            instrs_output(src, patch@.instructions) == target@.take(current as int),
            copies_in_bounds(patch@.instructions, src.len() as int),
            crate::patch_format::instructions_encodable(patch@.instructions),
            inserts_nonempty(patch@.instructions),
            crate::patch_format::spec_copy_bytes(patch@.instructions) == bs * i,
        decreases matches@.len() - i,
    {
        let m = matches[i];
        let tlen = target.len();
        proof {
            assert(valid_match(src, bs, target@, matches@[i as int]));
            assert(m.target_offset + m.length <= tlen);
        }
        if m.target_offset > current {
            push_insert_pieces(patch, target, current, m.target_offset, Ghost(src));
            proof {
                assert(target@.take(current as int) + target@.subrange(
                    current as int,
                    m.target_offset as int,
                ) =~= target@.take(m.target_offset as int));
            }
            current = m.target_offset;
        }
        let ghost before = patch@.instructions;
        let ghost iv = InstructionView::Copy {
            offset: m.source_offset as u64,
            length: m.length as u32,
        };
        proof {
            crate::patch_format::lemma_stats_push(before, iv);
            lemma_instrs_output_push(src, before, iv);
        }
        patch.add_copy(m.source_offset as u64, m.length as u32);
        proof {
            assert(patch@.instructions == before.push(iv));
            assert(instr_output(src, iv) == src.subrange(
                m.source_offset as int,
                m.source_offset + bs,
            ));
            assert(target@.take(current as int) + target@.subrange(
                m.target_offset as int,
                m.target_offset + bs,
            ) =~= target@.take(m.target_offset + bs));
            assert forall|k: int| 0 <= k < patch@.instructions.len() implies (match #[trigger] patch@.instructions[k] {
                InstructionView::Copy { offset, length } => offset + length <= src.len(),
                InstructionView::Insert { .. } => true,
            }) by {
                if k < before.len() {
                    assert(patch@.instructions[k] == before[k]);
                }
            }
            assert forall|k: int|
                0 <= k < patch@.instructions.len() implies crate::patch_format::instruction_encodable(
                #[trigger] patch@.instructions[k],
            ) by {
                if k < before.len() {
                    assert(patch@.instructions[k] == before[k]);
                }
            }
            assert forall|k: int| 0 <= k < patch@.instructions.len() implies (match #[trigger] patch@.instructions[k] {
                InstructionView::Copy { .. } => true,
                InstructionView::Insert { data } => data.len() > 0,
            }) by {
                if k < before.len() {
                    assert(patch@.instructions[k] == before[k]);
                }
            }
            assert(bs * (i + 1) == bs * i + bs) by (nonlinear_arith);
            if i + 1 < matches@.len() {
                assert(matches@[i as int].target_offset + matches@[i as int].length
                    <= matches@[i + 1].target_offset);
            }
        }
        current = m.target_offset + m.length;
        i = i + 1;
    }
    push_insert_pieces(patch, target, current, target.len(), Ghost(src));
    proof {
        assert(target@.take(current as int) + target@.subrange(
            current as int,
            target@.len() as int,
        ) =~= target@);
    }
}

/// When a match starts at every aligned position from `last_end` on, the
/// greedy filter keeps a gap-free chain of aligned matches covering the
/// whole target.
proof fn lemma_greedy_full_cover(ms: Seq<BlockMatch>, last_end: int, tlen: int, bs: nat)
    requires
        bs >= 1,
        matches_sorted(ms),
        forall|i: int|
            0 <= i < ms.len() ==> (#[trigger] ms[i]).length == bs && ms[i].target_offset + bs
                <= tlen,
        tlen % bs as int == 0,
        0 <= last_end,
        last_end % bs as int == 0,
        forall|p: int|
            last_end <= p <= tlen - bs && p % bs as int == 0 ==> match_at(ms, p),
    ensures
        greedy_filter(ms, last_end).len() * bs == if last_end <= tlen - bs {
            tlen - last_end
        } else {
            0int
        },
    decreases ms.len(),
{
    let r = greedy_filter(ms, last_end);
    if ms.len() == 0 {
        if last_end <= tlen - bs {
            assert(match_at(ms, last_end));
            let i = choose|i: int| 0 <= i < ms.len() && (#[trigger] ms[i]).target_offset
                == last_end;
            assert(false);
        }
        assert(0int * bs == 0) by (nonlinear_arith);
    } else if (ms[0].target_offset as int) < last_end {
        let tail = ms.drop_first();
        assert forall|p: int|
            last_end <= p <= tlen - bs && p % bs as int == 0 implies match_at(tail, p) by {
            assert(match_at(ms, p));
            let i = choose|i: int| 0 <= i < ms.len() && (#[trigger] ms[i]).target_offset == p;
            assert(i != 0);
            assert(tail[i - 1] == ms[i]);
            assert(match_at(tail, p));
        }
        assert(matches_sorted(tail)) by {
            assert(forall|a: int, b: int|
                #![trigger tail[a], tail[b]]
                0 <= a < b < tail.len() ==> tail[a] == ms[a + 1] && tail[b] == ms[b + 1]);
        }
        assert(forall|i: int|
            0 <= i < tail.len() ==> (#[trigger] tail[i]) == ms[i + 1]);
        lemma_greedy_full_cover(tail, last_end, tlen, bs);
    } else {
        // The first kept match starts exactly at `last_end`.
        if last_end > tlen - bs {
            assert(ms[0].target_offset + bs <= tlen);
            assert(false);
        }
        assert(match_at(ms, last_end));
        let w = choose|i: int| 0 <= i < ms.len() && (#[trigger] ms[i]).target_offset == last_end;
        if w > 0 {
            assert(ms[0].target_offset <= ms[w].target_offset);
        }
        assert(ms[0].target_offset == last_end);
        let new_end = last_end + bs;
        assert(new_end % bs as int == 0) by {
            vstd::arithmetic::div_mod::lemma_mod_add_multiples_vanish(last_end, bs as int);
        }
        let tail = ms.drop_first();
        assert forall|p: int|
            new_end <= p <= tlen - bs && p % bs as int == 0 implies match_at(tail, p) by {
            assert(match_at(ms, p));
            let i = choose|i: int| 0 <= i < ms.len() && (#[trigger] ms[i]).target_offset == p;
            assert(i != 0);
            assert(tail[i - 1] == ms[i]);
            assert(match_at(tail, p));
        }
        assert(matches_sorted(tail)) by {
            assert(forall|a: int, b: int|
                #![trigger tail[a], tail[b]]
                0 <= a < b < tail.len() ==> tail[a] == ms[a + 1] && tail[b] == ms[b + 1]);
        }
        assert(forall|i: int|
            0 <= i < tail.len() ==> (#[trigger] tail[i]) == ms[i + 1]);
        lemma_greedy_full_cover(tail, new_end, tlen, bs);
        let kept = greedy_filter(tail, ms[0].target_offset + ms[0].length);
        assert(ms[0].target_offset + ms[0].length == new_end);
        assert(r == seq![ms[0]] + kept);
        assert(r.len() == 1 + kept.len());
        assert(r.len() * bs == kept.len() * bs + bs) by (nonlinear_arith)
            requires
                r.len() == 1 + kept.len(),
        ;
        if new_end <= tlen - bs {
            assert(kept.len() * bs == tlen - new_end);
        } else {
            // The target ends exactly one block after `last_end`.
            assert(kept.len() * bs == 0);
            let d = tlen - last_end;
            assert(d % bs as int == 0) by {
                vstd::arithmetic::div_mod::lemma_sub_mod_noop(tlen, last_end, bs as int);
                vstd::arithmetic::div_mod::lemma_small_mod(0nat, bs as nat);
            }
            assert(bs <= d < 2 * bs);
            assert(d == bs) by {
                let e = d - bs;
                assert(0 <= e < bs);
                vstd::arithmetic::div_mod::lemma_mod_add_multiples_vanish(e, bs as int);
                vstd::arithmetic::div_mod::lemma_small_mod(e as nat, bs as nat);
                assert(d % bs as int == e % bs as int);
            }
        }
    }
}

/// Generate a patch transforming `source` into `target` with a custom
/// chunk size: the instruction list reproduces the target exactly, every
/// COPY stays inside the source, and for an unchanged block-aligned input
/// the patch carries no INSERT at all.
pub fn generate_patch_with_chunk_size(source: &[u8], target: &[u8], chunk_size: usize) -> (r:
    Patch)
    requires
        1 <= chunk_size <= u32::MAX,
    ensures
        r@.chunk_size == chunk_size as u32,
        r@.source_size == source@.len(),
        r@.source_hash == fnv1a(source@),
        r@.target_size == target@.len(),
        instrs_output(source@, r@.instructions) == target@,
        copies_in_bounds(r@.instructions, source@.len() as int),
        crate::patch_format::instructions_encodable(r@.instructions),
        inserts_nonempty(r@.instructions),
        source@ == target@ && source@.len() as int % chunk_size as int == 0
            ==> crate::patch_format::spec_insert_bytes(r@.instructions) == 0
            && crate::patch_format::spec_insert_count(r@.instructions) == 0,
{
    let source_hash = calculate_hash(source);
    let mut patch = Patch::new(
        chunk_size as u32,
        source.len() as u64,
        source_hash,
        target.len() as u64,
    );
    if target.len() == 0 {
        proof {
            assert(instrs_output(source@, patch@.instructions) =~= target@);
        }
        return patch;
    }
    if source.len() < chunk_size {
        push_insert_pieces(&mut patch, target, 0, target.len(), Ghost(source@));
        proof {
            assert(Seq::<u8>::empty() + target@.subrange(0, target@.len() as int) =~= target@);
            if source@ == target@ && source@.len() as int % chunk_size as int == 0 {
                // An unchanged aligned input shorter than a block is empty,
                // and an empty target was handled above.
                vstd::arithmetic::div_mod::lemma_small_mod(source@.len(), chunk_size as nat);
                assert(source@.len() == 0);
                assert(false);
            }
        }
        return patch;
    }
    let matcher = BlockMatcher::new(source, chunk_size);
    let matches = matcher.find_matches(target);
    let ghost ms = matches@;
    proof {
        assert(matches_sorted(ms));
        assert forall|i: int|
            0 <= i < ms.len() implies (#[trigger] ms[i]).target_offset + ms[i].length
            <= usize::MAX by {
            assert(valid_match(source@, chunk_size as nat, target@, ms[i]));
        }
    }
    let optimized = optimize_macthes(matches.as_slice());
    let ghost kept = optimized@;
    proof {
        lemma_greedy_properties(ms, 0);
        assert forall|i: int|
            0 <= i < kept.len() implies valid_match(
            source@,
            chunk_size as nat,
            target@,
            #[trigger] kept[i],
        ) by {
            assert(ms.contains(kept[i]));
            let j = choose|j: int| 0 <= j < ms.len() && ms[j] == kept[i];
            assert(valid_match(source@, chunk_size as nat, target@, ms[j]));
        }
    }
    generate_instructions(
        &mut patch,
        target,
        optimized.as_slice(),
        Ghost(source@),
        Ghost(chunk_size as nat),
    );
    proof {
        if source@ == target@ && source@.len() as int % chunk_size as int == 0 {
            let bs = chunk_size as nat;
            let tlen = target@.len() as int;
            // Every aligned target position matches the source block there.
            assert forall|p: int|
                0 <= p <= tlen - bs && p % bs as int == 0 implies match_at(ms, p) by {
                let k = p / bs as int;
                vstd::arithmetic::div_mod::lemma_fundamental_div_mod(p, bs as int);
                assert(p == bs as int * k);
                assert(bs as int * k == k * bs as int) by (nonlinear_arith);
                assert((k + 1) * bs as int == k * bs as int + bs) by (nonlinear_arith);
                vstd::arithmetic::div_mod::lemma_div_is_ordered(
                    (k + 1) * bs as int,
                    source@.len() as int,
                    bs as int,
                );
                vstd::arithmetic::div_mod::lemma_div_multiples_vanish(k + 1, bs as int);
                assert(bs as int * (k + 1) == (k + 1) * bs as int) by (nonlinear_arith);
                vstd::arithmetic::div_mod::lemma_div_pos_is_pos(p, bs as int);
                assert(0 <= k < source@.len() as int / bs as int);
                assert(crate::block_index::block_of(source@, bs, k) =~= target@.subrange(
                    p,
                    p + bs,
                ));
                assert(source_has_block(source@, bs, target@.subrange(p, p + bs)));
                assert(match_at(ms, p));
            }
            assert forall|i: int|
                0 <= i < ms.len() implies (#[trigger] ms[i]).length == bs && ms[i].target_offset
                + bs <= tlen by {
                assert(valid_match(source@, bs, target@, ms[i]));
            }
            lemma_greedy_full_cover(ms, 0, tlen, bs);
            assert(kept.len() * bs == tlen);
            assert(crate::patch_format::spec_copy_bytes(patch@.instructions) == bs * kept.len());
            assert(bs * kept.len() == kept.len() * bs) by (nonlinear_arith);
            lemma_output_len(source@, patch@.instructions);
            assert(crate::patch_format::spec_insert_bytes(patch@.instructions) == 0);
            lemma_no_insert_bytes_no_inserts(patch@.instructions);
        }
    }
    patch
}

/// Generate a patch transforming `source` into `target` with the default
/// chunk size.
pub fn generate_patch(source: &[u8], target: &[u8]) -> (r: Patch)
    ensures
        r@.chunk_size == DEFAULT_CHUNK_SIZE as u32,
        r@.source_size == source@.len(),
        r@.source_hash == fnv1a(source@),
        r@.target_size == target@.len(),
        instrs_output(source@, r@.instructions) == target@,
        copies_in_bounds(r@.instructions, source@.len() as int),
        crate::patch_format::instructions_encodable(r@.instructions),
        inserts_nonempty(r@.instructions),
{
    generate_patch_with_chunk_size(source, target, DEFAULT_CHUNK_SIZE)
}

/// The out-of-bounds scan finds exactly the first offending index.
proof fn lemma_first_oob_at(s: Seq<InstructionView>, src_len: int, idx: int, i: int)
    requires
        0 <= i <= idx < s.len(),
        s[idx] is Copy,
        (match s[idx] {
            InstructionView::Copy { offset, length } => offset + length > src_len,
            InstructionView::Insert { .. } => false,
        }),
        forall|j: int|
            0 <= j < idx ==> match #[trigger] s[j] {
                InstructionView::Copy { offset, length } => offset + length <= src_len,
                InstructionView::Insert { .. } => true,
            },
    ensures
        first_oob_from(s, src_len, i) == Some(idx),
    decreases idx - i,
{
    if i < idx {
        lemma_first_oob_at(s, src_len, idx, i + 1);
    }
}

} // verus!
