//! Buffered input and output primitives that hand out buffer views instead
//! of reading through caller-supplied buffers, and the coded streams layered
//! on them.
//!
//! An input stream's `next` returns a view directly into the backing bytes,
//! valid until the next operation. An output stream's `next` grants the
//! remaining region and returns its current contents; the caller hands the
//! written region back with `fill`, or rescinds an unwritten tail with
//! `back_up`. The grant-and-fill pair stands in for the classic contract
//! that lets `next` expose an uninitialized buffer: whatever the caller does
//! not fill simply keeps the bytes the region already had.
//!
//! The streams make the "call `next` before `back_up`" discipline an explicit
//! state machine: each stream records whether the last operation was a
//! successful `next`, and `back_up` demands it as a precondition, so a
//! contract violation is ruled out statically instead of corrupting state.
//!
//! Once a stream reports an error it stays at its end; no recovery is
//! attempted.

use vstd::prelude::*;

use crate::wire;
use crate::OperationFailedError;

verus! {

/// Mathematical model of an input stream over a byte buffer.
pub struct InputStreamModel {
    /// Every byte the stream was created over.
    pub data: Seq<u8>,
    /// How many bytes have been yielded, net of `back_up`.
    pub pos: int,
    /// The size of the last buffer a successful `next` returned.
    pub last_len: int,
    /// Whether the immediately preceding operation was a successful `next`.
    pub after_next: bool,
}

impl InputStreamModel {
    /// The values an input stream can actually hold.
    pub open spec fn inv(self) -> bool {
        &&& 0 <= self.pos <= self.data.len()
        &&& 0 <= self.last_len <= self.pos
    }
}

/// What `next` does to an input stream: the whole remaining suffix is yielded
/// in one view, or the exhausted stream is left unchanged.
pub open spec fn spec_input_next(m: InputStreamModel) -> (InputStreamModel, Option<Seq<u8>>) {
    if m.pos < m.data.len() {
        (
            InputStreamModel {
                pos: m.data.len() as int,
                last_len: m.data.len() - m.pos,
                after_next: true,
                ..m
            },
            Some(m.data.skip(m.pos)),
        )
    } else {
        (InputStreamModel { last_len: 0, after_next: false, ..m }, None)
    }
}

/// What `back_up` does to an input stream: the tail of the last view is
/// replayed.
pub open spec fn spec_input_back_up(m: InputStreamModel, count: int) -> InputStreamModel {
    InputStreamModel { pos: m.pos - count, last_len: 0, after_next: false, ..m }
}

/// What `skip` does to an input stream: the position advances, or the stream
/// is pinned at its end when fewer than `count` bytes remain.
pub open spec fn spec_input_skip(m: InputStreamModel, count: int) -> (InputStreamModel, bool) {
    if count <= m.data.len() - m.pos {
        (InputStreamModel { pos: m.pos + count, last_len: 0, after_next: false, ..m }, true)
    } else {
        (
            InputStreamModel { pos: m.data.len() as int, last_len: 0, after_next: false, ..m },
            false,
        )
    }
}

/// An input stream specialized for reading from byte slices: `next` returns
/// the remaining sub-slice in one call, with no copy.
pub struct SliceInputStream<'a> {
    data: &'a [u8],
    pos: usize,
    last_len: usize,
    after_next: bool,
}

impl<'a> View for SliceInputStream<'a> {
    type V = InputStreamModel;

    closed spec fn view(&self) -> InputStreamModel {
        InputStreamModel {
            data: self.data@,
            pos: self.pos as int,
            last_len: self.last_len as int,
            after_next: self.after_next,
        }
    }
}

impl<'a> SliceInputStream<'a> {
    /// Creates an input stream over the given byte slice.
    pub fn new(slice: &'a [u8]) -> (r: SliceInputStream<'a>)
        ensures
            r@ == (InputStreamModel { data: slice@, pos: 0, last_len: 0, after_next: false }),
            r@.inv(),
    {
        SliceInputStream { data: slice, pos: 0, last_len: 0, after_next: false }
    }

    /// Obtains the remaining data as a view directly into the backing slice.
    ///
    /// Returns an error exactly when the stream is exhausted; a failed call
    /// neither advances the stream nor changes `byte_count`.
    pub fn next(&mut self) -> (r: Result<&'a [u8], OperationFailedError>)
        requires
            old(self)@.inv(),
        ensures
            final(self)@ == spec_input_next(old(self)@).0,
            final(self)@.inv(),
            match r {
                Ok(buf) => spec_input_next(old(self)@).1 == Some(buf@),
                Err(_) => spec_input_next(old(self)@).1 is None,
            },
    {
        if self.pos < self.data.len() {
            let buf = vstd::slice::slice_subrange(self.data, self.pos, self.data.len());
            self.last_len = self.data.len() - self.pos;
            self.pos = self.data.len();
            self.after_next = true;
            Ok(buf)
        } else {
            self.last_len = 0;
            self.after_next = false;
            Err(OperationFailedError)
        }
    }

    /// Declares that `count` bytes at the tail of the view returned by the
    /// immediately preceding `next` were not consumed; they will be replayed.
    pub fn back_up(&mut self, count: usize)
        requires
            old(self)@.inv(),
            old(self)@.after_next,
            count <= old(self)@.last_len,
        ensures
            final(self)@ == spec_input_back_up(old(self)@, count as int),
            final(self)@.inv(),
    {
        self.pos = self.pos - count;
        self.last_len = 0;
        self.after_next = false;
    }

    /// Advances the read position by `count` bytes without exposing them.
    ///
    /// When the stream ends first, the position moves to the end of the
    /// stream and an error is returned.
    pub fn skip(&mut self, count: usize) -> (r: Result<(), OperationFailedError>)
        requires
            old(self)@.inv(),
        ensures
            final(self)@ == spec_input_skip(old(self)@, count as int).0,
            final(self)@.inv(),
            r is Ok <==> spec_input_skip(old(self)@, count as int).1,
    {
        self.last_len = 0;
        self.after_next = false;
        if count <= self.data.len() - self.pos {
            self.pos = self.pos + count;
            Ok(())
        } else {
            self.pos = self.data.len();
            Err(OperationFailedError)
        }
    }

    /// Returns the total number of bytes yielded since construction, net of
    /// `back_up`.
    pub fn byte_count(&self) -> (r: i64)
        requires
            self@.inv(),
            self@.pos <= 0x7fff_ffff_ffff_ffff,
        ensures
            r == self@.pos,
    {
        self.pos as i64
    }
}

/// Repeated `next` calls on an exhausted input stream return the same error,
/// leave the stream unchanged, and keep `byte_count` constant.
pub proof fn lemma_exhausted_next_idempotent(m: InputStreamModel)
    requires
        m.inv(),
        m.pos == m.data.len(),
    ensures
        spec_input_next(m).1 is None,
        spec_input_next(spec_input_next(m).0).1 is None,
        spec_input_next(m).0.pos == m.pos,
        spec_input_next(spec_input_next(m).0).0.pos == m.pos,
        spec_input_next(spec_input_next(m).0).0 == spec_input_next(m).0,
{
}

/// Backing up `k` bytes immediately after a `next` and calling `next` again
/// yields a view whose first `k` bytes are the last `k` bytes of the previous
/// view: no data is lost across a back-up boundary.
pub proof fn lemma_input_back_up_replays(m: InputStreamModel, k: int)
    requires
        m.inv(),
        m.pos < m.data.len(),
        0 < k <= m.data.len() - m.pos,
    ensures
        ({
            let (m1, v) = spec_input_next(m);
            let m2 = spec_input_back_up(m1, k);
            let (m3, v2) = spec_input_next(m2);
            &&& v is Some
            &&& v2 is Some
            &&& k <= m1.last_len
            &&& v2->Some_0.take(k) == v->Some_0.skip(v->Some_0.len() - k)
        }),
{
    let (m1, v) = spec_input_next(m);
    let m2 = spec_input_back_up(m1, k);
    let (m3, v2) = spec_input_next(m2);
    assert(v2->Some_0.take(k) =~= v->Some_0.skip(v->Some_0.len() - k));
}

/// Mathematical model of an output stream over a byte buffer.
pub struct OutputStreamModel {
    /// The whole backing buffer, written and unwritten parts alike.
    pub data: Seq<u8>,
    /// How many bytes count as written, net of `back_up`.
    pub pos: int,
    /// Where the region granted by the last `next` begins.
    pub grant_start: int,
    /// Whether the immediately preceding operation was a successful `next`.
    pub after_next: bool,
}

impl OutputStreamModel {
    /// The values an output stream can actually hold.
    pub open spec fn inv(self) -> bool {
        0 <= self.grant_start <= self.pos <= self.data.len()
    }
}

/// What `next` does to an output stream: the whole remaining region is
/// granted for writing and immediately counts toward `byte_count`.
pub open spec fn spec_output_next(m: OutputStreamModel) -> (OutputStreamModel, Option<Seq<u8>>) {
    if m.pos < m.data.len() {
        (
            OutputStreamModel {
                grant_start: m.pos,
                pos: m.data.len() as int,
                after_next: true,
                ..m
            },
            Some(m.data.skip(m.pos)),
        )
    } else {
        (OutputStreamModel { after_next: false, ..m }, None)
    }
}

/// What writing the granted region does: the bytes land at the grant.
pub open spec fn spec_output_fill(m: OutputStreamModel, chunk: Seq<u8>) -> OutputStreamModel {
    OutputStreamModel { data: m.data.take(m.grant_start) + chunk, ..m }
}

/// What `back_up` does to an output stream: the tail of the last grant does
/// not count as written.
pub open spec fn spec_output_back_up(m: OutputStreamModel, count: int) -> OutputStreamModel {
    OutputStreamModel { pos: m.pos - count, after_next: false, ..m }
}

/// Filling the granted region, backing up `k` of the written bytes, and
/// calling `next` again yields a view whose first `k` bytes are the last `k`
/// bytes written before the back-up: no data is lost across a back-up
/// boundary.
pub proof fn lemma_output_back_up_preserves(m: OutputStreamModel, chunk: Seq<u8>, k: int)
    requires
        m.inv(),
        m.after_next,
        chunk.len() == m.data.len() - m.grant_start,
        m.pos == m.data.len(),
        0 < k <= chunk.len(),
    ensures
        ({
            let m1 = spec_output_fill(m, chunk);
            let m2 = spec_output_back_up(m1, k);
            let (m3, v) = spec_output_next(m2);
            &&& v is Some
            &&& v->Some_0.take(k) == chunk.skip(chunk.len() - k)
        }),
{
    let m1 = spec_output_fill(m, chunk);
    let m2 = spec_output_back_up(m1, k);
    let (m3, v) = spec_output_next(m2);
    assert(v->Some_0.take(k) =~= chunk.skip(chunk.len() - k));
}

/// An output stream specialized for writing over a fixed-size byte buffer,
/// with no reallocation.
pub struct SliceOutputStream {
    data: Vec<u8>,
    pos: usize,
    grant_start: usize,
    after_next: bool,
}

impl View for SliceOutputStream {
    type V = OutputStreamModel;

    closed spec fn view(&self) -> OutputStreamModel {
        OutputStreamModel {
            data: self.data@,
            pos: self.pos as int,
            grant_start: self.grant_start as int,
            after_next: self.after_next,
        }
    }
}

impl SliceOutputStream {
    /// Creates an output stream that writes over the given buffer from its
    /// start.
    pub fn new(buf: Vec<u8>) -> (r: SliceOutputStream)
        ensures
            r@ == (OutputStreamModel { data: buf@, pos: 0, grant_start: 0, after_next: false }),
            r@.inv(),
    {
        SliceOutputStream { data: buf, pos: 0, grant_start: 0, after_next: false }
    }

    /// Grants the whole remaining region for writing and returns its current
    /// contents; the caller writes it back with [`Self::fill`], or rescinds a
    /// tail with [`Self::back_up`]. Errs exactly when the buffer is full.
    pub fn next(&mut self) -> (r: Result<Vec<u8>, OperationFailedError>)
        requires
            old(self)@.inv(),
        ensures
            final(self)@ == spec_output_next(old(self)@).0,
            final(self)@.inv(),
            match r {
                Ok(buf) => spec_output_next(old(self)@).1 == Some(buf@),
                Err(_) => spec_output_next(old(self)@).1 is None,
            },
    {
        if self.pos < self.data.len() {
            let buf = copy_range(&self.data, self.pos, self.data.len());
            self.grant_start = self.pos;
            self.pos = self.data.len();
            self.after_next = true;
            Ok(buf)
        } else {
            self.after_next = false;
            Err(OperationFailedError)
        }
    }

    /// Writes the granted region in full; combine with [`Self::back_up`] to
    /// leave a tail of it unwritten.
    pub fn fill(&mut self, chunk: &Vec<u8>)
        requires
            old(self)@.inv(),
            old(self)@.after_next,
            chunk@.len() == old(self)@.data.len() - old(self)@.grant_start,
        ensures
            final(self)@ == spec_output_fill(old(self)@, chunk@),
            final(self)@.inv(),
    {
        let ghost pre = self@;
        let mut i: usize = 0;
        while i < chunk.len()
            invariant
                pre.inv(),
                i <= chunk@.len(),
                chunk@.len() == pre.data.len() - pre.grant_start,
                self.data@.len() == pre.data.len(),
                self.pos == pre.pos,
                self.grant_start == pre.grant_start,
                self.after_next == pre.after_next,
                self.data@ == pre.data.take(pre.grant_start) + chunk@.take(i as int) + pre.data.skip(
                    pre.grant_start + i,
                ),
            decreases chunk@.len() - i,
        {
            proof {
                assert(self.grant_start + i < self.data.len());
            }
            self.data.set(self.grant_start + i, chunk[i]);
            i += 1;
            proof {
                assert(self.data@ =~= pre.data.take(pre.grant_start) + chunk@.take(i as int)
                    + pre.data.skip(pre.grant_start + i));
            }
        }
        proof {
            assert(self.data@ =~= pre.data.take(pre.grant_start) + chunk@);
        }
    }

    /// Declares that `count` bytes at the tail of the last grant were not
    /// written; they do not count toward `byte_count`.
    pub fn back_up(&mut self, count: usize)
        requires
            old(self)@.inv(),
            old(self)@.after_next,
            count <= old(self)@.pos - old(self)@.grant_start,
        ensures
            final(self)@ == spec_output_back_up(old(self)@, count as int),
            final(self)@.inv(),
    {
        self.pos = self.pos - count;
        self.after_next = false;
    }

    /// Returns the total number of bytes written since construction.
    pub fn byte_count(&self) -> (r: i64)
        requires
            self@.inv(),
            self@.pos <= 0x7fff_ffff_ffff_ffff,
        ensures
            r == self@.pos,
    {
        self.pos as i64
    }

    /// Hands the backing buffer back; bytes past the written prefix keep
    /// whatever the buffer held.
    pub fn into_inner(self) -> (r: Vec<u8>)
        ensures
            r@ == self@.data,
    {
        self.data
    }
}

/// An output stream that grows an owned byte vector on demand.
pub struct VecOutputStream {
    data: Vec<u8>,
    pos: usize,
    grant_start: usize,
    after_next: bool,
}

impl View for VecOutputStream {
    type V = OutputStreamModel;

    closed spec fn view(&self) -> OutputStreamModel {
        OutputStreamModel {
            data: self.data@,
            pos: self.pos as int,
            grant_start: self.grant_start as int,
            after_next: self.after_next,
        }
    }
}

impl VecOutputStream {
    /// Creates an output stream over an empty vector.
    pub fn new() -> (r: VecOutputStream)
        ensures
            r@ == (OutputStreamModel {
                data: Seq::<u8>::empty(),
                pos: 0,
                grant_start: 0,
                after_next: false,
            }),
            r@.inv(),
    {
        let r = VecOutputStream { data: Vec::new(), pos: 0, grant_start: 0, after_next: false };
        proof {
            assert(r@.data =~= Seq::<u8>::empty());
        }
        r
    }

    /// Grants a region for writing, growing the vector when it is full, and
    /// returns the region's current contents. Errs only when the vector has
    /// reached the size cap.
    pub fn next(&mut self) -> (r: Result<Vec<u8>, OperationFailedError>)
        requires
            old(self)@.inv(),
        ensures
            final(self)@.inv(),
            final(self)@.pos == final(self)@.data.len(),
            final(self)@.data.take(old(self)@.pos) == old(self)@.data.take(old(self)@.pos),
            match r {
                Ok(buf) => {
                    &&& final(self)@.after_next
                    &&& final(self)@.grant_start == old(self)@.pos
                    &&& buf@ == final(self)@.data.skip(old(self)@.pos)
                    &&& buf@.len() > 0
                },
                Err(_) => {
                    &&& final(self)@ == (OutputStreamModel { after_next: false, ..old(self)@ })
                    &&& old(self)@.pos == old(self)@.data.len()
                    &&& old(self)@.data.len() >= usize::MAX / 4
                },
            },
    {
        if self.pos == self.data.len() {
            if self.data.len() >= usize::MAX / 4 {
                self.after_next = false;
                assert(self@ =~= OutputStreamModel { after_next: false, ..old(self)@ });
                return Err(OperationFailedError);
            }
            let grow = if self.data.len() < 16 {
                16
            } else {
                self.data.len()
            };
            let ghost pre = self.data@;
            let mut i: usize = 0;
            while i < grow
                invariant
                    i <= grow,
                    grow <= usize::MAX / 4,
                    grow >= 16,
                    pre.len() < usize::MAX / 4,
                    self.pos == pre.len(),
                    self.grant_start == old(self)@.grant_start,
                    self.data@ == pre + Seq::new(i as nat, |j: int| 0u8),
                decreases grow - i,
            {
                self.data.push(0);
                i += 1;
                proof {
                    assert(self.data@ =~= pre + Seq::new(i as nat, |j: int| 0u8));
                }
            }
            proof {
                assert(self.data@.take(self.pos as int) =~= pre.take(self.pos as int));
            }
        }
        let buf = copy_range(&self.data, self.pos, self.data.len());
        self.grant_start = self.pos;
        self.pos = self.data.len();
        self.after_next = true;
        Ok(buf)
    }

    /// Writes the granted region in full; combine with [`Self::back_up`] to
    /// leave a tail of it unwritten.
    pub fn fill(&mut self, chunk: &Vec<u8>)
        requires
            old(self)@.inv(),
            old(self)@.after_next,
            chunk@.len() == old(self)@.data.len() - old(self)@.grant_start,
        ensures
            final(self)@ == spec_output_fill(old(self)@, chunk@),
            final(self)@.inv(),
    {
        let ghost pre = self@;
        let mut i: usize = 0;
        while i < chunk.len()
            invariant
                pre.inv(),
                i <= chunk@.len(),
                chunk@.len() == pre.data.len() - pre.grant_start,
                self.data@.len() == pre.data.len(),
                self.pos == pre.pos,
                self.grant_start == pre.grant_start,
                self.after_next == pre.after_next,
                self.data@ == pre.data.take(pre.grant_start) + chunk@.take(i as int) + pre.data.skip(
                    pre.grant_start + i,
                ),
            decreases chunk@.len() - i,
        {
            proof {
                assert(self.grant_start + i < self.data.len());
            }
            self.data.set(self.grant_start + i, chunk[i]);
            i += 1;
            proof {
                assert(self.data@ =~= pre.data.take(pre.grant_start) + chunk@.take(i as int)
                    + pre.data.skip(pre.grant_start + i));
            }
        }
        proof {
            assert(self.data@ =~= pre.data.take(pre.grant_start) + chunk@);
        }
    }

    /// Declares that `count` bytes at the tail of the last grant were not
    /// written.
    pub fn back_up(&mut self, count: usize)
        requires
            old(self)@.inv(),
            old(self)@.after_next,
            count <= old(self)@.pos - old(self)@.grant_start,
        ensures
            final(self)@ == spec_output_back_up(old(self)@, count as int),
            final(self)@.inv(),
    {
        self.pos = self.pos - count;
        self.after_next = false;
    }

    /// Appends the given bytes at the write position, growing as needed.
    pub fn write(&mut self, bytes: &Vec<u8>)
        requires
            old(self)@.inv(),
            old(self)@.pos + bytes@.len() <= usize::MAX / 4,
        ensures
            final(self)@.inv(),
            final(self)@.data.take(final(self)@.pos) == old(self)@.data.take(old(self)@.pos)
                + bytes@,
            final(self)@.pos == old(self)@.pos + bytes@.len(),
    {
        let ghost pre = self@;
        self.data.truncate(self.pos);
        proof {
            assert(self.data@ =~= pre.data.take(pre.pos));
        }
        let mut i: usize = 0;
        while i < bytes.len()
            invariant
                pre.inv(),
                pre.pos + bytes@.len() <= usize::MAX / 4,
                i <= bytes@.len(),
                self.pos == pre.pos,
                self.grant_start == pre.grant_start,
                self.data@ == pre.data.take(pre.pos) + bytes@.take(i as int),
            decreases bytes@.len() - i,
        {
            self.data.push(bytes[i]);
            i += 1;
            proof {
                assert(self.data@ =~= pre.data.take(pre.pos) + bytes@.take(i as int));
            }
        }
        self.pos = self.data.len();
        self.after_next = false;
        proof {
            assert(bytes@.take(bytes@.len() as int) =~= bytes@);
            assert(self.data@.take(self.pos as int) =~= self.data@);
        }
    }

    /// Returns the total number of bytes written since construction.
    pub fn byte_count(&self) -> (r: i64)
        requires
            self@.inv(),
            self@.pos <= 0x7fff_ffff_ffff_ffff,
        ensures
            r == self@.pos,
    {
        self.pos as i64
    }

    /// Hands back exactly the written bytes.
    pub fn finish(self) -> (r: Vec<u8>)
        requires
            self@.inv(),
        ensures
            r@ == self@.data.take(self@.pos),
    {
        let mut data = self.data;
        data.truncate(self.pos);
        proof {
            assert(data@ =~= self@.data.take(self@.pos));
        }
        data
    }
}

/// Copies `v[from..to]` into a fresh vector.
pub fn copy_range(v: &Vec<u8>, from: usize, to: usize) -> (r: Vec<u8>)
    requires
        from <= to <= v@.len(),
    ensures
        r@ == v@.subrange(from as int, to as int),
{
    let mut r: Vec<u8> = Vec::new();
    let mut i: usize = from;
    while i < to
        invariant
            from <= i <= to <= v@.len(),
            r@ == v@.subrange(from as int, i as int),
        decreases to - i,
    {
        r.push(v[i]);
        i += 1;
        proof {
            assert(r@ =~= v@.subrange(from as int, i as int));
        }
    }
    r
}

/// Mathematical model of a coded input stream: the flat buffer it reads, its
/// position, and the last tag read.
pub struct CodedInputModel {
    /// The bytes remaining in the wrapped stream when this one was created.
    pub data: Seq<u8>,
    /// How many bytes have been consumed.
    pub pos: int,
    /// The value the last `read_tag` produced, or zero after a failed one.
    pub last_tag: u32,
}

impl CodedInputModel {
    /// The values a coded input stream can actually hold.
    pub open spec fn inv(self) -> bool {
        0 <= self.pos <= self.data.len()
    }
}

/// Reads and decodes binary data composed of varint-encoded integers and
/// length-delimited fields, layered on a [`SliceInputStream`].
pub struct CodedInputStream<'a> {
    buf: &'a [u8],
    pos: usize,
    last_tag: u32,
}

impl<'a> View for CodedInputStream<'a> {
    type V = CodedInputModel;

    closed spec fn view(&self) -> CodedInputModel {
        CodedInputModel { data: self.buf@, pos: self.pos as int, last_tag: self.last_tag }
    }
}

impl<'a> CodedInputStream<'a> {
    /// Creates a coded input stream over everything the given stream has not
    /// yet yielded.
    pub fn new(input: SliceInputStream<'a>) -> (r: CodedInputStream<'a>)
        requires
            input@.inv(),
        ensures
            r@ == (CodedInputModel {
                data: input@.data.skip(input@.pos),
                pos: 0,
                last_tag: 0,
            }),
            r@.inv(),
    {
        let buf = vstd::slice::slice_subrange(input.data, input.pos, input.data.len());
        CodedInputStream { buf, pos: 0, last_tag: 0 }
    }

    /// Reports whether this stream reads from a flat array; streams of this
    /// library always do.
    pub fn is_flat(&self) -> (r: bool)
        ensures
            r == true,
    {
        true
    }

    /// Returns the stream's position relative to the beginning of its input.
    pub fn current_position(&self) -> (r: usize)
        ensures
            r == self@.pos,
    {
        self.pos
    }

    /// Reads an unsigned 64-bit integer with varint encoding; a failed read
    /// leaves the position unchanged.
    pub fn read_varint64(&mut self) -> (r: Result<u64, OperationFailedError>)
        requires
            old(self)@.inv(),
        ensures
            final(self)@.inv(),
            final(self)@.data == old(self)@.data,
            final(self)@.last_tag == old(self)@.last_tag,
            match r {
                Ok(v) => {
                    let dec = wire::dec_varint(old(self)@.data.skip(old(self)@.pos));
                    &&& dec is Some
                    &&& dec->Some_0.0 == v as nat
                    &&& final(self)@.pos == old(self)@.pos + dec->Some_0.1
                },
                Err(_) => {
                    let dec = wire::dec_varint(old(self)@.data.skip(old(self)@.pos));
                    &&& final(self)@.pos == old(self)@.pos
                    &&& (dec is None || dec->Some_0.0 >= wire::varint_limit())
                },
            },
    {
        match wire::read_varint_at(self.buf, self.pos) {
            Ok((v, newpos)) => {
                self.pos = newpos;
                Ok(v)
            },
            Err(e) => Err(e),
        }
    }

    /// Reads an unsigned integer with varint encoding, truncating to 32 bits.
    pub fn read_varint32(&mut self) -> (r: Result<u32, OperationFailedError>)
        requires
            old(self)@.inv(),
        ensures
            final(self)@.inv(),
            final(self)@.data == old(self)@.data,
            final(self)@.last_tag == old(self)@.last_tag,
            match r {
                Ok(v) => {
                    let dec = wire::dec_varint(old(self)@.data.skip(old(self)@.pos));
                    &&& dec is Some
                    &&& dec->Some_0.0 < wire::varint_limit()
                    &&& dec->Some_0.0 % 0x1_0000_0000 == v as nat
                    &&& final(self)@.pos == old(self)@.pos + dec->Some_0.1
                },
                Err(_) => {
                    let dec = wire::dec_varint(old(self)@.data.skip(old(self)@.pos));
                    &&& final(self)@.pos == old(self)@.pos
                    &&& (dec is None || dec->Some_0.0 >= wire::varint_limit())
                },
            },
    {
        match self.read_varint64() {
            Ok(v) => Ok((v % 0x1_0000_0000u64) as u32),
            Err(e) => Err(e),
        }
    }

    /// Reads a tag and records it as the last tag; a zero or unreadable tag
    /// records zero and errs. Only an absent, over-wide, or zero tag errs:
    /// an unreadable varint leaves the position alone, a read zero tag is
    /// consumed.
    pub fn read_tag(&mut self) -> (r: Result<u32, OperationFailedError>)
        requires
            old(self)@.inv(),
        ensures
            final(self)@.inv(),
            final(self)@.data == old(self)@.data,
            match r {
                Ok(tag) => {
                    let dec = wire::dec_varint(old(self)@.data.skip(old(self)@.pos));
                    &&& dec is Some
                    &&& dec->Some_0.0 % 0x1_0000_0000 == tag as nat
                    &&& tag != 0
                    &&& final(self)@.last_tag == tag
                    &&& final(self)@.pos == old(self)@.pos + dec->Some_0.1
                },
                Err(_) => {
                    let dec = wire::dec_varint(old(self)@.data.skip(old(self)@.pos));
                    &&& final(self)@.last_tag == 0
                    &&& (dec is None || dec->Some_0.0 >= wire::varint_limit() || dec->Some_0.0
                        % 0x1_0000_0000 == 0)
                    &&& if dec is Some && dec->Some_0.0 < wire::varint_limit() {
                        final(self)@.pos == old(self)@.pos + dec->Some_0.1
                    } else {
                        final(self)@.pos == old(self)@.pos
                    }
                },
            },
    {
        match self.read_varint32() {
            Ok(tag) => {
                if tag == 0 {
                    self.last_tag = 0;
                    Err(OperationFailedError)
                } else {
                    self.last_tag = tag;
                    Ok(tag)
                }
            },
            Err(e) => {
                self.last_tag = 0;
                Err(e)
            },
        }
    }

    /// Like [`Self::read_tag`], but does not update the last tag value.
    pub fn read_tag_no_last_tag(&mut self) -> (r: Result<u32, OperationFailedError>)
        requires
            old(self)@.inv(),
        ensures
            final(self)@.inv(),
            final(self)@.data == old(self)@.data,
            final(self)@.last_tag == old(self)@.last_tag,
            match r {
                Ok(tag) => {
                    let dec = wire::dec_varint(old(self)@.data.skip(old(self)@.pos));
                    &&& dec is Some
                    &&& dec->Some_0.0 % 0x1_0000_0000 == tag as nat
                    &&& tag != 0
                    &&& final(self)@.pos == old(self)@.pos + dec->Some_0.1
                },
                Err(_) => {
                    let dec = wire::dec_varint(old(self)@.data.skip(old(self)@.pos));
                    &&& (dec is None || dec->Some_0.0 >= wire::varint_limit() || dec->Some_0.0
                        % 0x1_0000_0000 == 0)
                    &&& if dec is Some && dec->Some_0.0 < wire::varint_limit() {
                        final(self)@.pos == old(self)@.pos + dec->Some_0.1
                    } else {
                        final(self)@.pos == old(self)@.pos
                    }
                },
            },
    {
        match self.read_varint32() {
            Ok(tag) => {
                if tag == 0 {
                    Err(OperationFailedError)
                } else {
                    Ok(tag)
                }
            },
            Err(e) => Err(e),
        }
    }

    /// Reports whether the last `read_tag` produced the given value.
    pub fn last_tag_was(&self, expected: u32) -> (r: bool)
        ensures
            r == (self@.last_tag == expected),
    {
        self.last_tag == expected
    }

    /// Reports whether the whole input has been consumed, so that a message
    /// read from this stream ended in a legitimate way.
    pub fn consumed_entire_message(&self) -> (r: bool)
        requires
            self@.inv(),
        ensures
            r == (self@.pos == self@.data.len()),
    {
        self.pos == self.buf.len()
    }

    /// Reads one length-delimited field of number `k` and returns a copy of
    /// its payload; a failed read leaves the position unchanged.
    pub fn read_length_delimited(&mut self, k: u64) -> (r: Result<Vec<u8>, OperationFailedError>)
        requires
            old(self)@.inv(),
            k * 8 + 2 < 128,
        ensures
            final(self)@.inv(),
            final(self)@.data == old(self)@.data,
            final(self)@.last_tag == old(self)@.last_tag,
            match r {
                Ok(payload) => {
                    let dec = wire::dec_field(k as nat, old(self)@.data.skip(old(self)@.pos));
                    &&& dec is Some
                    &&& dec->Some_0.0 == payload@
                    &&& dec->Some_0.1 == final(self)@.data.skip(final(self)@.pos)
                    &&& old(self)@.pos < final(self)@.pos
                },
                Err(_) => {
                    &&& wire::dec_field(k as nat, old(self)@.data.skip(old(self)@.pos)) is None
                    &&& final(self)@.pos == old(self)@.pos
                },
            },
    {
        match wire::read_field_at(self.buf, self.pos, k) {
            Ok((payload, newpos)) => {
                self.pos = newpos;
                Ok(payload)
            },
            Err(e) => Err(e),
        }
    }

    /// Reads `count` raw bytes; errs without moving when fewer remain.
    pub fn read_raw(&mut self, count: usize) -> (r: Result<Vec<u8>, OperationFailedError>)
        requires
            old(self)@.inv(),
        ensures
            final(self)@.inv(),
            final(self)@.data == old(self)@.data,
            final(self)@.last_tag == old(self)@.last_tag,
            match r {
                Ok(v) => {
                    &&& count <= old(self)@.data.len() - old(self)@.pos
                    &&& v@ == old(self)@.data.subrange(old(self)@.pos, old(self)@.pos + count)
                    &&& final(self)@.pos == old(self)@.pos + count
                },
                Err(_) => {
                    &&& count > old(self)@.data.len() - old(self)@.pos
                    &&& final(self)@.pos == old(self)@.pos
                },
            },
    {
        if count <= self.buf.len() - self.pos {
            let v = wire::read_bytes_at(self.buf, self.pos, count);
            self.pos = self.pos + count;
            Ok(v)
        } else {
            Err(OperationFailedError)
        }
    }
}

/// Encodes and writes binary data composed of varint-encoded integers and
/// length-delimited fields, layered on a [`VecOutputStream`].
pub struct CodedOutputStream {
    out: VecOutputStream,
}

impl CodedOutputStream {
    /// Everything written through this stream so far.
    pub closed spec fn written(&self) -> Seq<u8> {
        self.out@.data.take(self.out@.pos)
    }

    /// The values a coded output stream can actually hold.
    pub closed spec fn inv(&self) -> bool {
        self.out@.inv()
    }

    /// Creates a coded output stream over a growing buffer.
    pub fn new() -> (r: CodedOutputStream)
        ensures
            r.written() == Seq::<u8>::empty(),
            r.inv(),
    {
        let r = CodedOutputStream { out: VecOutputStream::new() };
        proof {
            assert(r.written() =~= Seq::<u8>::empty());
        }
        r
    }

    /// Writes raw bytes; errs without writing when the stream's size cap
    /// would be passed.
    pub fn write_raw(&mut self, bytes: &Vec<u8>) -> (r: Result<(), OperationFailedError>)
        requires
            old(self).inv(),
        ensures
            final(self).inv(),
            match r {
                Ok(()) => final(self).written() == old(self).written() + bytes@,
                Err(_) => {
                    &&& final(self).written() == old(self).written()
                    &&& old(self).written().len() + bytes@.len() > usize::MAX / 4
                },
            },
    {
        if self.out.pos <= usize::MAX / 4 && bytes.len() <= usize::MAX / 4 - self.out.pos {
            self.out.write(bytes);
            Ok(())
        } else {
            Err(OperationFailedError)
        }
    }

    /// Writes one length-delimited field of number `k` with the given
    /// payload, or writes nothing when the stream's size cap would be passed.
    pub fn write_length_delimited(&mut self, k: u64, payload: &Vec<u8>) -> (r: Result<
        (),
        OperationFailedError,
    >)
        requires
            old(self).inv(),
            k * 8 + 2 < 128,
        ensures
            final(self).inv(),
            match r {
                Ok(()) => final(self).written() == old(self).written() + wire::enc_field(
                    k as nat,
                    payload@,
                ),
                Err(_) => {
                    &&& final(self).written() == old(self).written()
                    &&& old(self).written().len() + wire::enc_field(k as nat, payload@).len()
                        > usize::MAX / 4
                },
            },
    {
        let mut tmp: Vec<u8> = Vec::new();
        wire::write_field(&mut tmp, k, payload);
        proof {
            assert(tmp@ =~= wire::enc_field(k as nat, payload@));
        }
        self.write_raw(&tmp)
    }

    /// Writes an unsigned 64-bit integer with varint encoding; errs, writing
    /// nothing, exactly when the stream's size cap would be passed.
    pub fn write_varint64(&mut self, v: u64) -> (r: Result<(), OperationFailedError>)
        requires
            old(self).inv(),
        ensures
            final(self).inv(),
            match r {
                Ok(()) => final(self).written() == old(self).written() + wire::enc_varint(
                    v as nat,
                ),
                Err(_) => {
                    &&& final(self).written() == old(self).written()
                    &&& old(self).written().len() + wire::enc_varint(v as nat).len()
                        > usize::MAX / 4
                },
            },
    {
        let mut bytes: Vec<u8> = Vec::new();
        wire::write_varint(&mut bytes, v);
        self.write_raw(&bytes)
    }

    /// Writes an unsigned 32-bit integer with varint encoding; errs, writing
    /// nothing, exactly when the stream's size cap would be passed.
    pub fn write_varint32(&mut self, v: u32) -> (r: Result<(), OperationFailedError>)
        requires
            old(self).inv(),
        ensures
            final(self).inv(),
            match r {
                Ok(()) => final(self).written() == old(self).written() + wire::enc_varint(
                    v as nat,
                ),
                Err(_) => {
                    &&& final(self).written() == old(self).written()
                    &&& old(self).written().len() + wire::enc_varint(v as nat).len()
                        > usize::MAX / 4
                },
            },
    {
        self.write_varint64(v as u64)
    }

    /// Returns the total number of bytes written since construction.
    pub fn byte_count(&self) -> (r: i64)
        requires
            self.inv(),
            self.written().len() <= 0x7fff_ffff_ffff_ffff,
        ensures
            r == self.written().len(),
    {
        self.out.byte_count()
    }

    /// Hands back exactly the written bytes.
    pub fn finish(self) -> (r: Vec<u8>)
        requires
            self.inv(),
        ensures
            r@ == self.written(),
    {
        self.out.finish()
    }
}

} // verus!
