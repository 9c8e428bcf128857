//! Append-only list of byte chunks with cross-chunk random reads.
//!
//! Holds large data as a sequence of separately allocated chunks, so hosts
//! with fragmented heaps never need one contiguous allocation, while
//! `read_at` still serves any byte range as if the data were flat.

use vstd::prelude::*;

verus! {

/// The chunks laid end to end.
pub open spec fn flat(cs: Seq<Seq<u8>>) -> Seq<u8>
    decreases cs.len(),
{
    if cs.len() == 0 {
        Seq::empty()
    } else {
        cs[0] + flat(cs.drop_first())
    }
}

/// Appending a chunk appends its bytes to the flattened view.
pub proof fn lemma_flat_push(cs: Seq<Seq<u8>>, c: Seq<u8>)
    ensures
        flat(cs.push(c)) == flat(cs) + c,
    decreases cs.len(),
{
    let p = cs.push(c);
    if cs.len() == 0 {
        assert(p[0] == c);
        assert(p.drop_first() =~= Seq::<Seq<u8>>::empty());
        assert(flat(p) == c + flat(p.drop_first()));
        assert(c + Seq::<u8>::empty() =~= Seq::<u8>::empty() + c);
    } else {
        assert(p[0] == cs[0]);
        assert(p.drop_first() =~= cs.drop_first().push(c));
        lemma_flat_push(cs.drop_first(), c);
        assert(cs[0] + (flat(cs.drop_first()) + c) =~= (cs[0] + flat(cs.drop_first())) + c);
    }
}

/// The flattened view splits at any chunk boundary.
pub proof fn lemma_flat_decompose(cs: Seq<Seq<u8>>, k: int)
    requires
        0 <= k <= cs.len(),
    ensures
        flat(cs) == flat(cs.take(k)) + flat(cs.skip(k)),
    decreases k,
{
    if k == 0 {
        assert(cs.take(0) =~= Seq::<Seq<u8>>::empty());
        assert(cs.skip(0) =~= cs);
        assert(Seq::<u8>::empty() + flat(cs) =~= flat(cs));
    } else {
        lemma_flat_decompose(cs, k - 1);
        assert(cs.take(k) =~= cs.take(k - 1).push(cs[k - 1]));
        lemma_flat_push(cs.take(k - 1), cs[k - 1]);
        assert(cs.skip(k - 1)[0] == cs[k - 1]);
        assert(cs.skip(k - 1).drop_first() =~= cs.skip(k));
        assert(flat(cs.skip(k - 1)) == cs[k - 1] + flat(cs.skip(k)));
        assert(flat(cs.take(k - 1)) + (cs[k - 1] + flat(cs.skip(k))) =~= (flat(cs.take(k - 1))
            + cs[k - 1]) + flat(cs.skip(k)));
    }
}

/// A buffer that stores data as a list of chunks instead of one contiguous
/// allocation, with random reads across chunk boundaries.
#[derive(Debug, Clone)]
pub struct ChunkBuffer {
    chunks: Vec<Vec<u8>>,
    total_size: usize,
}

impl ChunkBuffer {
    /// The chunks as sequences, in order.
    pub closed spec fn chunks_view(self) -> Seq<Seq<u8>> {
        self.chunks@.map_values(|c: Vec<u8>| c@)
    }

    /// All buffered bytes, chunks laid end to end.
    pub open spec fn data(self) -> Seq<u8> {
        flat(self.chunks_view())
    }

    /// The stored total always equals the flattened length.
    pub closed spec fn wf(self) -> bool {
        self.total_size == flat(self.chunks_view()).len()
    }

    /// The buffered bytes always fit the machine's address space.
    pub proof fn lemma_len_bound(self)
        requires
            self.wf(),
        ensures
            self.data().len() <= usize::MAX,
    {
    }

    /// A new empty buffer.
    pub fn new() -> (r: Self)
        ensures
            r.wf(),
            r.data() == Seq::<u8>::empty(),
            r.chunks_view() == Seq::<Seq<u8>>::empty(),
    {
        let r = ChunkBuffer { chunks: Vec::new(), total_size: 0 };
        proof {
            assert(r.chunks_view() =~= Seq::<Seq<u8>>::empty());
        }
        r
    }

    /// A new empty buffer with room reserved for the given chunk count.
    pub fn with_capacity(chunk_capacity: usize) -> (r: Self)
        ensures
            r.wf(),
            r.data() == Seq::<u8>::empty(),
            r.chunks_view() == Seq::<Seq<u8>>::empty(),
    {
        let r = ChunkBuffer { chunks: Vec::with_capacity(chunk_capacity), total_size: 0 };
        proof {
            assert(r.chunks_view() =~= Seq::<Seq<u8>>::empty());
        }
        r
    }

    /// Append a chunk, taking ownership of it.
    pub fn push(&mut self, data: Vec<u8>)
        requires
            old(self).wf(),
            old(self).data().len() + data@.len() <= usize::MAX,
        ensures
            final(self).wf(),
            final(self).chunks_view() == old(self).chunks_view().push(data@),
            final(self).data() == old(self).data() + data@,
    {
        proof {
            lemma_flat_push(self.chunks_view(), data@);
            assert(self.chunks@.push(data).map_values(|c: Vec<u8>| c@) =~= self.chunks_view().push(
                data@,
            ));
        }
        self.total_size = self.total_size + data.len();
        self.chunks.push(data);
    }

    /// Append a chunk, copying from a slice.
    pub fn push_slice(&mut self, data: &[u8])
        requires
            old(self).wf(),
            old(self).data().len() + data@.len() <= usize::MAX,
        ensures
            final(self).wf(),
            final(self).chunks_view() == old(self).chunks_view().push(data@),
            final(self).data() == old(self).data() + data@,
    {
        let owned = vstd::slice::slice_to_vec(data);
        self.push(owned);
    }

    /// Total number of buffered bytes.
    pub fn total_size(&self) -> (r: usize)
        requires
            self.wf(),
        ensures
            r == self.data().len(),
    {
        self.total_size
    }

    /// Number of chunks held.
    pub fn chunk_count(&self) -> (r: usize)
        ensures
            r == self.chunks_view().len(),
    {
        self.chunks.len()
    }

    /// Whether the buffer holds no bytes.
    pub fn is_empty(&self) -> (r: bool)
        requires
            self.wf(),
        ensures
            r == (self.data().len() == 0),
    {
        self.total_size == 0
    }

    /// The chunk at `index`, if there is one.
    pub fn get_chunk(&self, index: usize) -> (r: Option<&[u8]>)
        ensures
            match r {
                Some(c) => index < self.chunks_view().len() && c@ == self.chunks_view()[
                    index as int
                ],
                None => index >= self.chunks_view().len(),
            },
    {
        if index < self.chunks.len() {
            Some(self.chunks[index].as_slice())
        } else {
            None
        }
    }

    /// All chunks as slices, in order.
    pub fn iter_chunks(&self) -> (r: Vec<&[u8]>)
        ensures
            r@.len() == self.chunks_view().len(),
            forall|k: int| 0 <= k < r@.len() ==> (#[trigger] r@[k])@ == self.chunks_view()[k],
    {
        let mut out: Vec<&[u8]> = Vec::new();
        let mut i: usize = 0;
        while i < self.chunks.len()
            invariant
                i <= self.chunks@.len(),
                out@.len() == i,
                forall|k: int| 0 <= k < i ==> (#[trigger] out@[k])@ == self.chunks_view()[k],
            decreases self.chunks@.len() - i,
        {
            out.push(self.chunks[i].as_slice());
            i = i + 1;
        }
        out
    }

    /// Copy all chunks into one contiguous vector.
    pub fn merge(&self) -> (r: Vec<u8>)
        requires
            self.wf(),
        ensures
            r@ == self.data(),
    {
        let ghost cv = self.chunks_view();
        let mut out: Vec<u8> = Vec::with_capacity(self.total_size);
        let mut i: usize = 0;
        proof {
            assert(cv.take(0) =~= Seq::<Seq<u8>>::empty());
        }
        while i < self.chunks.len()
            invariant
                i <= self.chunks@.len(),
                cv == self.chunks_view(),
                cv.len() == self.chunks@.len(),
                out@ == flat(cv.take(i as int)),
            decreases self.chunks@.len() - i,
        {
            proof {
                assert(cv.take(i + 1) =~= cv.take(i as int).push(cv[i as int]));
                lemma_flat_push(cv.take(i as int), cv[i as int]);
                assert(cv[i as int] == self.chunks@[i as int]@);
            }
            out.extend_from_slice(self.chunks[i].as_slice());
            i = i + 1;
        }
        proof {
            assert(cv.take(cv.len() as int) =~= cv);
        }
        out
    }

    /// Drop all chunks.
    pub fn clear(&mut self)
        ensures
            final(self).wf(),
            final(self).data() == Seq::<u8>::empty(),
            final(self).chunks_view() == Seq::<Seq<u8>>::empty(),
    {
        self.chunks.clear();
        self.total_size = 0;
        proof {
            assert(self.chunks_view() =~= Seq::<Seq<u8>>::empty());
        }
    }

    /// Read `length` bytes starting at `offset`, crossing chunk boundaries
    /// as needed; `None` exactly when the range runs past the end.
    pub fn read_at(&self, offset: usize, length: usize) -> (r: Option<Vec<u8>>)
        requires
            self.wf(),
        ensures
            match r {
                Some(bytes) => offset + length <= self.data().len() && bytes@ == self.data()
                    .subrange(offset as int, offset + length),
                None => offset + length > self.data().len(),
            },
    {
        if length > self.total_size || offset > self.total_size - length {
            return None;
        }
        let ghost cv = self.chunks_view();
        let mut result: Vec<u8> = Vec::with_capacity(length);
        let mut current: usize = 0;
        let mut remaining: usize = length;
        let mut i: usize = 0;
        proof {
            assert(cv.take(0) =~= Seq::<Seq<u8>>::empty());
        }
        while i < self.chunks.len() && remaining > 0
            invariant
                self.wf(),
                i <= self.chunks@.len(),
                cv == self.chunks_view(),
                cv.len() == self.chunks@.len(),
                offset + length <= self.data().len(),
                remaining <= length,
                current == flat(cv.take(i as int)).len(),
                length - remaining == if current <= offset {
                    0int
                } else if current - offset >= length {
                    length as int
                } else {
                    current - offset
                },
                result@ == self.data().subrange(offset as int, offset + (length - remaining)),
            decreases self.chunks@.len() - i,
        {
            let chunk_len = self.chunks[i].len();
            proof {
                lemma_flat_decompose(cv, i as int);
                lemma_flat_decompose(cv, i + 1);
                assert(cv.take(i + 1) =~= cv.take(i as int).push(cv[i as int]));
                lemma_flat_push(cv.take(i as int), cv[i as int]);
                assert(cv[i as int] == self.chunks@[i as int]@);
                assert(flat(cv.take(i + 1)).len() == current + chunk_len);
                assert(self.data().len() == flat(cv.take(i + 1)).len() + flat(cv.skip(i + 1)).len());
                assert(current + chunk_len <= self.data().len());
                assert(self.data().subrange(current as int, current + chunk_len) =~= cv[i as int]);
            }
            if current + chunk_len <= offset {
                current = current + chunk_len;
                i = i + 1;
                continue;
            }
            let chunk_start = if offset > current {
                offset - current
            } else {
                0
            };
            let avail = chunk_len - chunk_start;
            let take_n = if remaining < avail {
                remaining
            } else {
                avail
            };
            let ghost written = (length - remaining) as int;
            proof {
                assert(offset + written == current + chunk_start);
                assert(cv[i as int].subrange(
                    chunk_start as int,
                    chunk_start + take_n,
                ) =~= self.data().subrange(offset + written, offset + written + take_n));
            }
            let piece = vstd::slice::slice_subrange(
                self.chunks[i].as_slice(),
                chunk_start,
                chunk_start + take_n,
            );
            result.extend_from_slice(piece);
            proof {
                assert(result@ =~= self.data().subrange(
                    offset as int,
                    offset + written + take_n,
                ));
            }
            remaining = remaining - take_n;
            current = current + chunk_len;
            i = i + 1;
        }
        proof {
            if remaining > 0 {
                assert(i == cv.len());
                assert(cv.take(i as int) =~= cv);
            }
        }
        Some(result)
    }
}

impl Default for ChunkBuffer {
    /// Same as `new`: an empty buffer.
    fn default() -> (r: Self)
        ensures
            r.wf(),
            r.data() == Seq::<u8>::empty(),
            r.chunks_view() == Seq::<Seq<u8>>::empty(),
    {
        ChunkBuffer::new()
    }
}

/// The chunk a split puts at index `k`: `chunk_size` bytes from `k * chunk_size`
/// on, or whatever remains for the final chunk.
pub open spec fn spec_chunk_at(data: Seq<u8>, chunk_size: int, k: int) -> Seq<u8> {
    data.subrange(
        k * chunk_size,
        if (k + 1) * chunk_size <= data.len() {
            (k + 1) * chunk_size
        } else {
            data.len() as int
        },
    )
}

/// Split `data` into consecutive chunks of at most `chunk_size` bytes; a
/// chunk size of zero yields the whole data as one chunk.
pub fn split_into_chunks(data: &[u8], chunk_size: usize) -> (r: Vec<Vec<u8>>)
    ensures
        chunk_size == 0 ==> r@.len() == 1 && r@[0]@ == data@,
        chunk_size >= 1 ==> {
            &&& data@.len() == 0 ==> r@.len() == 0
            &&& data@.len() > 0 ==> r@.len() >= 1 && (r@.len() - 1) * chunk_size < data@.len()
                <= r@.len() * chunk_size
            &&& forall|k: int|
                0 <= k < r@.len() ==> (#[trigger] r@[k])@ == spec_chunk_at(
                    data@,
                    chunk_size as int,
                    k,
                )
        },
{
    if chunk_size == 0 {
        let mut out: Vec<Vec<u8>> = Vec::new();
        out.push(vstd::slice::slice_to_vec(data));
        return out;
    }
    let mut out: Vec<Vec<u8>> = Vec::new();
    let mut off: usize = 0;
    proof {
        assert(0int * chunk_size == 0) by (nonlinear_arith);
    }
    while off < data.len()
        invariant
            chunk_size >= 1,
            off <= data@.len(),
            off < data@.len() ==> off == out@.len() * chunk_size,
            off == data@.len() ==> ((data@.len() == 0 && out@.len() == 0) || (out@.len() >= 1 && (
            out@.len() - 1) * chunk_size < data@.len() <= out@.len() * chunk_size)),
            forall|k: int|
                0 <= k < out@.len() ==> (#[trigger] out@[k])@ == spec_chunk_at(
                    data@,
                    chunk_size as int,
                    k,
                ),
        decreases data@.len() - off,
    {
        let ghost count = out@.len() as int;
        let end = if data.len() - off < chunk_size {
            data.len()
        } else {
            off + chunk_size
        };
        proof {
            assert((count + 1) * chunk_size == count * chunk_size + chunk_size)
                by (nonlinear_arith);
        }
        out.push(vstd::slice::slice_to_vec(vstd::slice::slice_subrange(data, off, end)));
        off = end;
    }
    out
}

/// Build a chunk buffer by splitting `data` into chunks of at most
/// `chunk_size` bytes.
pub fn chunk_buffer_from_slice(data: &[u8], chunk_size: usize) -> (r: ChunkBuffer)
    requires
        chunk_size >= 1,
    ensures
        r.wf(),
        r.data() == data@,
        data@.len() == 0 ==> r.chunks_view().len() == 0,
        data@.len() > 0 ==> r.chunks_view().len() >= 1 && (r.chunks_view().len() - 1) * chunk_size
            < data@.len() <= r.chunks_view().len() * chunk_size,
{
    let mut buffer = ChunkBuffer::new();
    let mut off: usize = 0;
    proof {
        assert(0int * chunk_size == 0) by (nonlinear_arith);
        assert(data@.take(0) =~= Seq::<u8>::empty());
    }
    while off < data.len()
        invariant
            chunk_size >= 1,
            off <= data@.len(),
            off < data@.len() ==> off == buffer.chunks_view().len() * chunk_size,
            off == data@.len() ==> ((data@.len() == 0 && buffer.chunks_view().len() == 0) || (
            buffer.chunks_view().len() >= 1 && (buffer.chunks_view().len() - 1) * chunk_size
                < data@.len() <= buffer.chunks_view().len() * chunk_size)),
            buffer.wf(),
            buffer.data() == data@.take(off as int),
        decreases data@.len() - off,
    {
        let ghost count = buffer.chunks_view().len() as int;
        let end = if data.len() - off < chunk_size {
            data.len()
        } else {
            off + chunk_size
        };
        proof {
            assert((count + 1) * chunk_size == count * chunk_size + chunk_size)
                by (nonlinear_arith);
        }
        buffer.push_slice(vstd::slice::slice_subrange(data, off, end));
        proof {
            assert(data@.take(off as int) + data@.subrange(off as int, end as int) =~= data@.take(
                end as int,
            ));
        }
        off = end;
    }
    proof {
        assert(data@.take(data@.len() as int) =~= data@);
    }
    buffer
}

} // verus!
