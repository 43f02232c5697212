//! A stream with a reader buffer and a writer buffer.
use super::{
    consumed, first_at, first_line_read, flush_done, is_line, is_suffix, lacks, lines_read, memchr,
    min, next_line_done, stripped,
    pending_before_write, read_done, taken, writes_only, reads_only, passed_on, end_seen,
    new_reads, lemma_passed_on_refill, lemma_passed_on_hand_out, line_read,
    lemma_passed_on_nothing, next_line_read, read_line_done, read_until_done, read_vectored_done,
    write_all_done, write_done, bytes_taken, lemma_bytes_taken_push, lemma_sends_of_push, sends_of, sent_out,
    went_on, slice_outcome, reads_known, until_read, data_ahead, line_text, next_line_known, gives_line, lemma_first_at_exists, lines_of, lemma_lines_step, lines_so_far, same_later, passed_end, errs_from_stream, one_read, read_room, last_read_room, vectored_room, BufferState, IntoInnerError, CARRIAGE_RETURN, DEFAULT_BUF_SIZE, NEWLINE,
};
use crate::io::{
    concat_bufs, contents, is_interrupted, lemma_flatten_around, lemma_sent_wrote, lemma_concat_len, lemma_total_len_prefix, new_error,
    same_lengths, str_from_utf8, total_len, write_step, FailureKind, HalfDuplexIo, WriteStep,
    calls_since, ended_in_failure, extends, interrupted, lemma_calls_push, StreamCall,
};
use vstd::seq_lib::lemma_flatten_concat;
use vstd::string::{StringExecFns, StringSliceAdditionalSpecFns};
use vstd::utf8::{decode_utf8, encode_utf8, encode_utf8_decode_utf8, valid_utf8};
use vstd::prelude::*;
use vstd::slice::slice_subrange;

verus! {

/// The buffers and the stream behind [`BufDuplexer`] and
/// [`BufReaderLineWriter`](super::BufReaderLineWriter).
#[derive(Debug)]
pub(crate) struct BufDuplexerBackend<Inner: HalfDuplexIo> {
    inner: Inner,
    // writer fields
    writer_buf: Vec<u8>,
    writer_cap: usize,
    // reader fields
    reader_buf: Vec<u8>,
    pos: usize,
    cap: usize,
}

impl<Inner: HalfDuplexIo> View for BufDuplexerBackend<Inner> {
    type V = BufferState;

    closed spec fn view(&self) -> BufferState {
        BufferState {
            pending: self.writer_buf@,
            writer_capacity: self.writer_cap as nat,
            readable: self.reader_buf@.subrange(self.pos as int, self.cap as int),
            reader_capacity: self.reader_buf@.len(),
            log: self.inner.log(),
            calls: self.inner.calls(),
        }
    }
}

/// Removes the first `n` bytes of `v`, keeping the rest in order.
fn drain_front(v: &mut Vec<u8>, n: usize)
    requires
        n <= old(v)@.len(),
    ensures
        final(v)@ == old(v)@.subrange(n as int, old(v)@.len() as int),
{
    let len = v.len();
    let mut i: usize = 0;
    while i < len - n
        invariant
            n <= len,
            len == v@.len(),
            i <= len - n,
            forall|j: int| 0 <= j < i ==> v@[j] == old(v)@[j + n],
            forall|j: int| i <= j < len ==> v@[j] == old(v)@[j],
        decreases len - n - i,
    {
        let b = v[i + n];
        v[i] = b;
        i = i + 1;
    }
    v.truncate(len - n);
    assert(v@ =~= old(v)@.subrange(n as int, old(v)@.len() as int));
}

impl<Inner: HalfDuplexIo> BufDuplexerBackend<Inner> {
    /// The buffers are consistent: the readable part lies within the reader
    /// buffer, and the writer buffer holds no more than its capacity.
    pub closed spec fn wf(&self) -> bool {
        &&& self.pos <= self.cap <= self.reader_buf@.len()
        &&& self.reader_buf@.len() <= isize::MAX
        &&& self.writer_buf@.len() <= self.writer_cap
        &&& self.writer_cap <= isize::MAX
    }

    /// The stream behind the buffers.
    pub closed spec fn stream(&self) -> Inner {
        self.inner
    }

    /// What `wf` means for the view.
    pub proof fn lemma_wf(&self)
        requires
            self.wf(),
        ensures
            self@.within_capacity(),
            self@.writer_capacity <= isize::MAX,
    {
    }

    /// Wraps `inner` with buffers of the default capacity.
    pub fn new(inner: Inner) -> (r: Self)
        ensures
            r.wf(),
            r.stream() == inner,
            r@ == (BufferState {
                pending: Seq::empty(),
                writer_capacity: DEFAULT_BUF_SIZE as nat,
                readable: Seq::empty(),
                reader_capacity: DEFAULT_BUF_SIZE as nat,
                log: inner.log(),
                calls: inner.calls(),
            }),
    {
        Self::with_capacities(DEFAULT_BUF_SIZE, DEFAULT_BUF_SIZE, inner)
    }

    /// Wraps `inner` with buffers of the given capacities.
    pub fn with_capacities(reader_capacity: usize, writer_capacity: usize, inner: Inner) -> (r:
        Self)
        requires
            reader_capacity <= isize::MAX,
            writer_capacity <= isize::MAX,
        ensures
            r.wf(),
            r.stream() == inner,
            r@ == (BufferState {
                pending: Seq::empty(),
                writer_capacity: writer_capacity as nat,
                readable: Seq::empty(),
                reader_capacity: reader_capacity as nat,
                log: inner.log(),
                calls: inner.calls(),
            }),
    {
        let buffer: Vec<u8> = vec![0; reader_capacity];
        let r = Self {
            inner,
            writer_buf: Vec::with_capacity(writer_capacity),
            writer_cap: writer_capacity,
            reader_buf: buffer,
            pos: 0,
            cap: 0,
        };
        assert(r@.readable =~= Seq::<u8>::empty());
        r
    }

    /// Sends the writer buffer to the stream, calling `write` until it is
    /// all sent or a call fails. A call that accepts nothing fails with a
    /// `WriteZero` error, since those bytes were already reported as
    /// written; an interrupted call is retried. Whatever was sent leaves
    /// the buffer, on failure too.
    #[verifier::rlimit(40)]
    #[verifier::spinoff_prover]
    pub(crate) fn flush_buf(&mut self) -> (r: Result<(), std::io::Error>)
        requires
            old(self).wf(),
        ensures
            final(self).wf(),
            final(self)@.writer_capacity == old(self)@.writer_capacity,
            final(self)@.readable == old(self)@.readable,
            final(self)@.reader_capacity == old(self)@.reader_capacity,
            is_suffix(old(self)@.pending, final(self)@.pending),
            taken(final(self)@) == taken(old(self)@),
            writes_only(old(self)@, final(self)@),
            r is Ok ==> final(self)@.pending.len() == 0,
            old(self)@.pending.len() == 0 ==> r is Ok && *final(self) == *old(self),
            sent_out(
                old(self)@.pending,
                old(self).stream().calls(),
                final(self).stream().calls(),
                final(self)@.pending,
                r,
            ),
            errs_from_stream(old(self)@, final(self)@, r),
    {
        let len = self.writer_buf.len();
        let mut written: usize = 0;
        let mut retries: u64 = 0;
        let mut result: Result<(), std::io::Error> = Ok(());
        let ghost calls0 = self.inner.calls();
        proof {
            assert(calls_since(calls0, calls0) =~= Seq::<StreamCall>::empty());
        }
        while written < len
            invariant_except_break
                result is Ok,
                calls_since(calls0, self.inner.calls()).len() > 0 ==> went_on(
                    calls_since(calls0, self.inner.calls()).last(),
                ),
            invariant
                calls0 == old(self).inner.calls(),
                extends(calls0, self.inner.calls()),
                sends_of(self.writer_buf@, calls_since(calls0, self.inner.calls())),
                written == bytes_taken(calls_since(calls0, self.inner.calls())),
                calls_since(calls0, self.inner.calls()).len() >= retries,
                written <= len,
                len == self.writer_buf@.len(),
                self.writer_buf@ == old(self).writer_buf@,
                self.writer_cap == old(self).writer_cap,
                self.reader_buf@ == old(self).reader_buf@,
                self.pos == old(self).pos,
                self.cap == old(self).cap,
                len == 0 ==> *self == *old(self) && result is Ok,
                self.inner.log().sent() == old(self).inner.log().sent() + self.writer_buf@.subrange(
                    0,
                    written as int,
                ),
                self.inner.log().reads == old(self).inner.log().reads,
                self.inner.log().flushes == old(self).inner.log().flushes,
            ensures
                written <= len,
                len == self.writer_buf@.len(),
                self.writer_buf@ == old(self).writer_buf@,
                self.writer_cap == old(self).writer_cap,
                self.reader_buf@ == old(self).reader_buf@,
                self.pos == old(self).pos,
                self.cap == old(self).cap,
                result is Ok ==> written == len,
                result is Err ==> written < len,
                len == 0 ==> *self == *old(self) && result is Ok,
                calls0 == old(self).inner.calls(),
                extends(calls0, self.inner.calls()),
                sends_of(self.writer_buf@, calls_since(calls0, self.inner.calls())),
                written == bytes_taken(calls_since(calls0, self.inner.calls())),
                result matches Err(e) ==> ended_in_failure(calls0, self.inner.calls(), e),
                result is Err ==> (self.inner.calls().last() matches StreamCall::Write {
                    outcome: Err(e2),
                    ..
                } ==> (!interrupted(e2) || calls_since(calls0, self.inner.calls()).len()
                    > u64::MAX)),
                self.inner.log().sent() == old(self).inner.log().sent() + self.writer_buf@.subrange(
                    0,
                    written as int,
                ),
                self.inner.log().reads == old(self).inner.log().reads,
                self.inner.log().flushes == old(self).inner.log().flushes,
            decreases len - written, u64::MAX - retries,
        {
            let ghost before = self.inner.log();
            let ghost since0 = calls_since(calls0, self.inner.calls());
            let ghost mid_calls = self.inner.calls();
            let r = self.inner.write(slice_subrange(self.writer_buf.as_slice(), written, len));
            proof {
                lemma_calls_push(calls0, mid_calls, self.inner.calls());
                lemma_bytes_taken_push(since0, self.inner.calls().last());
                lemma_sends_of_push(self.writer_buf@, since0, self.inner.calls().last());
                if r is Ok {
                    let n = r->Ok_0;
                    let rest = self.writer_buf@.subrange(written as int, len as int);
                    assert(rest.subrange(0, n as int) =~= self.writer_buf@.subrange(
                        written as int,
                        written + n,
                    ));
                    lemma_sent_wrote(before, rest.subrange(0, n as int));
                    assert(self.writer_buf@.subrange(0, written + n) =~= self.writer_buf@.subrange(
                        0,
                        written as int,
                    ) + self.writer_buf@.subrange(written as int, written + n));
                }
            }
            match write_step(r, retries, "failed to write the buffered data") {
                WriteStep::Advance(n) => {
                    written = written + n;
                    retries = 0;
                },
                WriteStep::Retry => {
                    retries = retries + 1;
                },
                WriteStep::Stop(e) => {
                    result = Err(e);
                    break ;
                },
            }
        }
        if written > 0 {
            drain_front(&mut self.writer_buf, written);
        }
        assert(self.writer_buf@ =~= old(self).writer_buf@.subrange(written as int, len as int));
        assert(taken(self@) =~= taken(old(self)@));
        result
    }

    /// Writes `buf` to the stream with one `write`, past the writer buffer.
    pub(crate) fn stream_write(&mut self, buf: &[u8]) -> (r: Result<usize, std::io::Error>)
        requires
            old(self).wf(),
        ensures
            final(self).wf(),
            match r {
                Ok(n) => n <= buf@.len() && final(self)@ == (BufferState {
                    log: old(self)@.log.wrote(buf@.subrange(0, n as int)),
                    calls: final(self)@.calls,
                    ..old(self)@
                }),
                Err(_) => final(self)@ == (BufferState {
                    log: old(self)@.log.failed(),
                    calls: final(self)@.calls,
                    ..old(self)@
                }),
            },
            final(self)@.calls == old(self)@.calls.push(
                (StreamCall::Write { offered: buf@, outcome: r }),
            ),
    {
        self.inner.write(buf)
    }

    /// Writes the buffers of `bufs` to the stream with one `write_vectored`,
    /// past the writer buffer.
    pub(crate) fn stream_write_vectored(&mut self, bufs: &[&[u8]]) -> (r: Result<
        usize,
        std::io::Error,
    >)
        requires
            old(self).wf(),
        ensures
            final(self).wf(),
            match r {
                Ok(n) => n <= total_len(bufs@) && final(self)@ == (BufferState {
                    log: old(self)@.log.wrote(concat_bufs(bufs@).subrange(0, n as int)),
                    calls: final(self)@.calls,
                    ..old(self)@
                }),
                Err(_) => final(self)@ == (BufferState {
                    log: old(self)@.log.failed(),
                    calls: final(self)@.calls,
                    ..old(self)@
                }),
            },
            final(self)@.calls.len() == old(self)@.calls.len() + 1,
            extends(old(self)@.calls, final(self)@.calls),
            final(self)@.calls.last() matches StreamCall::Write { offered, outcome }
                && offered.len() <= total_len(bufs@) && offered == concat_bufs(bufs@).subrange(
                0,
                offered.len() as int,
            ) && outcome == r,
    {
        self.inner.write_vectored(bufs)
    }

    /// Writes all of `buf` to the stream with its `write_all`, past the
    /// writer buffer: the stream takes a first part of `buf`, all of it on
    /// success.
    pub(crate) fn stream_write_all(&mut self, buf: &[u8]) -> (r: Result<(), std::io::Error>)
        requires
            old(self).wf(),
        ensures
            final(self).wf(),
            final(self)@ == (BufferState {
                log: final(self)@.log,
                calls: final(self)@.calls,
                ..old(self)@
            }),
            final(self)@.log.reads == old(self)@.log.reads,
            final(self)@.log.flushes == old(self)@.log.flushes,
            exists|k: int|
                0 <= k <= buf@.len() && final(self)@.log.sent() == old(self)@.log.sent()
                    + buf@.subrange(0, k) && (r is Ok ==> k == buf@.len()),
            extends(old(self)@.calls, final(self)@.calls),
            r matches Err(e) ==> ended_in_failure(old(self)@.calls, final(self)@.calls, e),
    {
        self.inner.write_all(buf)
    }

    /// Appends as much of `buf` to the writer buffer as fits, without
    /// writing to the stream, and returns how many bytes that was.
    pub(crate) fn write_to_buf(&mut self, buf: &[u8]) -> (n: usize)
        requires
            old(self).wf(),
        ensures
            final(self).wf(),
            n == min(
                old(self)@.writer_capacity - old(self)@.pending.len(),
                buf@.len() as int,
            ),
            final(self)@ == (BufferState {
                pending: old(self)@.pending + buf@.subrange(0, n as int),
                ..old(self)@
            }),
            final(self).stream() == old(self).stream(),
    {
        let available = self.writer_cap - self.writer_buf.len();
        let amt_to_buffer = if available < buf.len() {
            available
        } else {
            buf.len()
        };
        self.writer_buf.extend_from_slice(slice_subrange(buf, 0, amt_to_buffer));
        assert(self.writer_buf@ =~= old(self).writer_buf@ + buf@.subrange(0, amt_to_buffer as int));
        amt_to_buffer
    }

    /// The stream behind the buffers.
    #[inline]
    pub fn get_ref(&self) -> (r: &Inner)
        ensures
            *r == self.stream(),
    {
        &self.inner
    }

    /// The stream behind the buffers, for changing.
    #[inline]
    pub fn get_mut(&mut self) -> (r: &mut Inner)
        ensures
            *r == old(self).stream(),
            final(self).stream() == *final(r),
            final(self)@ == (BufferState {
                log: (*final(r)).log(),
                calls: (*final(r)).calls(),
                ..old(self)@
            }),
            final(self).wf() == old(self).wf(),
    {
        &mut self.inner
    }

    /// The bytes in the writer buffer.
    #[inline]
    pub fn writer_buffer(&self) -> (r: &[u8])
        ensures
            r@ == self@.pending,
    {
        self.writer_buf.as_slice()
    }

    /// The bytes in the reader buffer that were not handed out yet.
    pub fn reader_buffer(&self) -> (r: &[u8])
        requires
            self.wf(),
        ensures
            r@ == self@.readable,
    {
        slice_subrange(self.reader_buf.as_slice(), self.pos, self.cap)
    }

    /// How many bytes the writer buffer holds before it is written out.
    #[inline]
    pub fn writer_capacity(&self) -> (r: usize)
        ensures
            r == self@.writer_capacity,
    {
        self.writer_cap
    }

    /// How many bytes one read from the stream may bring into the reader
    /// buffer.
    pub fn reader_capacity(&self) -> (r: usize)
        ensures
            r == self@.reader_capacity,
    {
        self.reader_buf.len()
    }

    /// Writes the writer buffer out and returns the stream; on failure,
    /// returns the error together with what is left of `self`.
    pub fn into_inner(self) -> (r: Result<Inner, IntoInnerError<Self>>)
        requires
            self.wf(),
        ensures
            self@.pending.len() == 0 ==> r == Ok::<Inner, IntoInnerError<Self>>(self.stream()),
            r matches Err(e) ==> {
                &&& e.writer().wf()
                &&& e.writer()@.writer_capacity == self@.writer_capacity
                &&& e.writer()@.readable == self@.readable
                &&& e.writer()@.reader_capacity == self@.reader_capacity
                &&& is_suffix(self@.pending, e.writer()@.pending)
                &&& taken(e.writer()@) == taken(self@)
                &&& writes_only(self@, e.writer()@)
                &&& sent_out(
                    self@.pending,
                    self@.calls,
                    e.writer()@.calls,
                    e.writer()@.pending,
                    Err(e.io_error()),
                )
            },
            r matches Ok(s) ==> {
                &&& s.log().sent() == taken(self@)
                &&& s.log().reads == self@.log.reads
                &&& s.log().flushes == self@.log.flushes
                &&& sent_out(self@.pending, self@.calls, s.calls(), Seq::empty(), Ok(()))
            },
    {
        let mut this = self;
        match this.flush_buf() {
            Err(e) => Err(IntoInnerError::new(this, e)),
            Ok(()) => {
                assert(this@.pending =~= Seq::<u8>::empty());
                Ok(this.inner)
            },
        }
    }

    /// Empties the reader buffer.
    #[inline]
    fn discard_reader_buffer(&mut self)
        requires
            old(self).wf(),
        ensures
            final(self).wf(),
            final(self)@ == (BufferState { readable: Seq::empty(), ..old(self)@ }),
            final(self).stream() == old(self).stream(),
    {
        self.pos = 0;
        self.cap = 0;
        assert(self@.readable =~= Seq::<u8>::empty());
    }
}


impl<Inner: HalfDuplexIo> BufDuplexerBackend<Inner> {
    /// Writes `buf`: when it does not fit beside the buffered bytes, the
    /// buffer is flushed first; then a `buf` at least as large as the buffer
    /// goes straight to the stream (one `write` call), and a smaller one is
    /// appended to the buffer.
    pub fn write(&mut self, buf: &[u8]) -> (r: Result<usize, std::io::Error>)
        requires
            old(self).wf(),
        ensures
            final(self).wf(),
            write_done(old(self)@, final(self)@, buf@, r),
            old(self)@.pending.len() + buf@.len() <= old(self)@.writer_capacity && buf@.len()
                < old(self)@.writer_capacity ==> (r matches Ok(n) && n == buf@.len()
                && final(self).stream() == old(self).stream()),
            old(self)@.writer_capacity <= buf@.len() && r is Ok ==> final(self)@.calls.last() == (
            StreamCall::Write { offered: buf@, outcome: r }),
    {
        if buf.len() > self.writer_cap - self.writer_buf.len() {
            match self.flush_buf() {
                Ok(_) => {},
                Err(e) => {
                    return Err(e);
                },
            }
        }
        if buf.len() >= self.writer_cap {
            let ghost before = self.inner.log();
            let r = self.inner.write(buf);
            proof {
                if r is Ok {
                    let n = r->Ok_0;
                    lemma_sent_wrote(before, buf@.subrange(0, n as int));
                    assert(taken(self@) =~= taken(old(self)@) + buf@.subrange(0, n as int));
                }
                assert(buf@.subrange(0, buf@.len() as int) =~= buf@);
            }
            r
        } else {
            self.writer_buf.extend_from_slice(buf);
            proof {
                assert(self.writer_buf@ =~= pending_before_write(old(self)@, buf@.len() as int)
                    + buf@);
                assert(taken(self@) =~= taken(old(self)@) + buf@);
            }
            Ok(buf.len())
        }
    }

    /// Writes all of `buf`: like `write`, but a large `buf` goes to the
    /// stream's `write_all`.
    pub fn write_all(&mut self, buf: &[u8]) -> (r: Result<(), std::io::Error>)
        requires
            old(self).wf(),
        ensures
            final(self).wf(),
            write_all_done(old(self)@, final(self)@, buf@, r),
            old(self)@.pending.len() + buf@.len() <= old(self)@.writer_capacity && buf@.len()
                < old(self)@.writer_capacity ==> r is Ok && final(self).stream() == old(
                self,
            ).stream(),
    {
        if buf.len() > self.writer_cap - self.writer_buf.len() {
            match self.flush_buf() {
                Ok(()) => {},
                Err(e) => {
                    proof {
                        assert(taken(self@) =~= taken(old(self)@) + buf@.subrange(0, 0));
                    }
                    return Err(e);
                },
            }
        }
        if buf.len() >= self.writer_cap {
            let ghost before = self.inner.log();
            let ghost mid = self@;
            let r = self.inner.write_all(buf);
            proof {
                let k = choose|k: int|
                    0 <= k <= buf@.len() && self.inner.log().sent() == before.sent()
                        + buf@.subrange(0, k) && (r is Ok ==> k == buf@.len());
                assert(taken(self@) =~= taken(old(self)@) + buf@.subrange(0, k));
            }
            r
        } else {
            self.writer_buf.extend_from_slice(buf);
            proof {
                assert(self.writer_buf@ =~= pending_before_write(old(self)@, buf@.len() as int)
                    + buf@);
                assert(buf@.subrange(0, buf@.len() as int) =~= buf@);
                assert(taken(self@) =~= taken(old(self)@) + buf@.subrange(0, buf@.len() as int));
            }
            Ok(())
        }
    }

    /// Writes the buffers of `bufs` as one: like `write`, with their total
    /// length deciding between buffering and going straight to the stream.
    #[verifier::rlimit(40)]
    #[verifier::spinoff_prover]
    pub fn write_vectored(&mut self, bufs: &[&[u8]]) -> (r: Result<usize, std::io::Error>)
        requires
            old(self).wf(),
        ensures
            final(self).wf(),
            write_done(old(self)@, final(self)@, concat_bufs(bufs@), r),
            old(self)@.pending.len() + total_len(bufs@) <= old(self)@.writer_capacity
                && total_len(bufs@) < old(self)@.writer_capacity ==> (r matches Ok(n) && n
                == total_len(bufs@) && final(self).stream() == old(self).stream()),
    {
        proof {
            lemma_concat_len(bufs@);
        }
        let total = sum_lens(bufs, self.writer_cap);
        let ghost flushed = total > self.writer_cap - self.writer_buf.len();
        if total > self.writer_cap - self.writer_buf.len() {
            match self.flush_buf() {
                Ok(_) => {},
                Err(e) => {
                    return Err(e);
                },
            }
        }
        let ghost mid = self.inner.log();
        let ghost calls_mid = self@.calls;
        if total >= self.writer_cap {
            let r = self.inner.write_vectored(bufs);
            proof {
                if r is Ok {
                    let n = r->Ok_0;
                    lemma_sent_wrote(mid, concat_bufs(bufs@).subrange(0, n as int));
                    assert(taken(self@) =~= taken(old(self)@) + concat_bufs(bufs@).subrange(
                        0,
                        n as int,
                    ));
                }
            }
            r
        } else {
            let ghost base = self.writer_buf@;
            let mut i: usize = 0;
            while i < bufs.len()
                invariant
                    self.wf(),
                    i <= bufs@.len(),
                    total_len(bufs@) < self.writer_cap,
                    base.len() + total_len(bufs@) <= self.writer_cap,
                    self.writer_buf@ == base + concat_bufs(bufs@.subrange(0, i as int)),
                    self@.writer_capacity == old(self)@.writer_capacity,
                    self@.readable == old(self)@.readable,
                    self@.reader_capacity == old(self)@.reader_capacity,
                    !flushed ==> self.inner == old(self).inner,
                    self.inner.log() == mid,
                    self@.calls == calls_mid,
                    extends(old(self)@.calls, calls_mid),
                    base == pending_before_write(old(self)@, total_len(bufs@)),
                decreases bufs@.len() - i,
            {
                proof {
                    lemma_total_len_prefix(bufs@, i as int + 1);
                    lemma_concat_len(bufs@.subrange(0, i as int));
                    assert(bufs@.subrange(0, i as int + 1).drop_last() =~= bufs@.subrange(
                        0,
                        i as int,
                    ));
                }
                self.writer_buf.extend_from_slice(bufs[i]);
                i = i + 1;
                proof {
                    assert(self.writer_buf@ =~= base + concat_bufs(bufs@.subrange(0, i as int)));
                }
            }
            proof {
                assert(bufs@.subrange(0, bufs@.len() as int) =~= bufs@);
                assert(self.writer_buf@ =~= pending_before_write(old(self)@, total_len(bufs@))
                    + concat_bufs(bufs@));
                assert(taken(self@) =~= taken(old(self)@) + concat_bufs(bufs@));
            }
            Ok(total)
        }
    }

    /// Flushes the writer buffer and then the stream.
    #[inline]
    pub fn flush(&mut self) -> (r: Result<(), std::io::Error>)
        requires
            old(self).wf(),
        ensures
            final(self).wf(),
            flush_done(old(self)@, final(self)@, r),
    {
        match self.flush_buf() {
            Ok(()) => {},
            Err(e) => {
                return Err(e);
            },
        }
        let ghost mid = self@;
        let r = self.inner.flush();
        proof {
            assert(taken(self@) =~= taken(old(self)@));
            assert(self@.calls.drop_last() =~= mid.calls);
        }
        r
    }
}

/// The bytes of the first `i + 1` buffers of `c` are those of the first `i`
/// and then those of the `i`th.
proof fn lemma_flatten_prefix_step(c: Seq<Seq<u8>>, i: int)
    requires
        0 <= i < c.len(),
    ensures
        c.subrange(0, i + 1).flatten() == c.subrange(0, i).flatten() + c[i],
{
    assert(c.subrange(0, i + 1) =~= c.subrange(0, i).push(c[i]));
    c.subrange(0, i).lemma_flatten_push(c[i]);
}

/// The bytes of the first `i` buffers of `c` are no more than those of all.
proof fn lemma_flatten_prefix_len(c: Seq<Seq<u8>>, i: int)
    requires
        0 <= i <= c.len(),
    ensures
        c.subrange(0, i).flatten().len() <= c.flatten().len(),
{
    assert(c =~= c.subrange(0, i) + c.subrange(i, c.len() as int));
    lemma_flatten_concat(c.subrange(0, i), c.subrange(i, c.len() as int));
}

/// The number of bytes that the buffers of `bufs` hold in all, or, when
/// that exceeds `limit`, some number above `limit`.
fn room_in(bufs: &[&mut [u8]], limit: usize) -> (total: usize)
    requires
        limit < usize::MAX,
    ensures
        contents(bufs@).flatten().len() <= limit ==> total == contents(bufs@).flatten().len(),
        contents(bufs@).flatten().len() > limit ==> total > limit,
{
    let ghost c = contents(bufs@);
    let mut total: usize = 0;
    let mut i: usize = 0;
    while i < bufs.len()
        invariant
            c == contents(bufs@),
            i <= bufs@.len(),
            total == c.subrange(0, i as int).flatten().len(),
            total <= limit,
            limit < usize::MAX,
        decreases bufs@.len() - i,
    {
        let len = bufs[i].len();
        proof {
            lemma_flatten_prefix_step(c, i as int);
        }
        if len > limit - total {
            proof {
                lemma_flatten_prefix_len(c, i as int + 1);
            }
            return limit + 1;
        }
        total = total + len;
        i = i + 1;
    }
    proof {
        assert(c.subrange(0, bufs@.len() as int) =~= c);
    }
    total
}

/// Copies the first bytes of `src` into the buffers of `bufs`, filling each
/// in turn, and returns how many were copied: all of `src`, or as many as
/// the buffers hold. What the buffers held after that many bytes stays.
fn scatter(src: &[u8], bufs: &mut [&mut [u8]]) -> (n: usize)
    ensures
        same_lengths(contents(old(bufs)@), contents(final(bufs)@)),
        n == min(src@.len() as int, contents(old(bufs)@).flatten().len() as int),
        contents(final(bufs)@).flatten() == src@.subrange(0, n as int) + contents(
            old(bufs)@,
        ).flatten().subrange(n as int, contents(old(bufs)@).flatten().len() as int),
{
    let ghost c0 = contents(old(bufs)@);
    let src_len = src.len();
    if bufs.len() == 0 {
        proof {
            assert(contents(bufs@) =~= Seq::<Seq<u8>>::empty());
            assert(src@.subrange(0, 0) + c0.flatten().subrange(0, 0) =~= Seq::<u8>::empty());
        }
        return 0;
    }
    let mut nread: usize = 0;
    let mut i: usize = 0;
    while i < bufs.len()
        invariant_except_break
            i < bufs@.len(),
            nread == c0.subrange(0, i as int).flatten().len(),
            contents(bufs@).subrange(0, i as int).flatten() == src@.subrange(0, nread as int),
            forall|k: int| i <= k < bufs@.len() ==> #[trigger] bufs@[k]@ == c0[k],
        invariant
            c0 == contents(old(bufs)@),
            src_len == src@.len(),
            bufs@.len() == c0.len(),
            nread <= src@.len(),
            forall|k: int| 0 <= k < bufs@.len() ==> #[trigger] bufs@[k]@.len() == c0[k].len(),
        ensures
            bufs@.len() == c0.len(),
            forall|k: int| 0 <= k < bufs@.len() ==> #[trigger] bufs@[k]@.len() == c0[k].len(),
            nread == min(src@.len() as int, c0.flatten().len() as int),
            contents(bufs@).flatten() == src@.subrange(0, nread as int) + c0.flatten().subrange(
                nread as int,
                c0.flatten().len() as int,
            ),
        decreases bufs@.len() - i,
    {
        let len = bufs[i].len();
        let m = if len < src_len - nread {
            len
        } else {
            src_len - nread
        };
        let ghost prev = bufs@;
        let mut j: usize = 0;
        while j < m
            invariant
                prev.len() == bufs@.len(),
                i < bufs@.len(),
                j <= m,
                m <= len,
                len == prev[i as int]@.len(),
                nread + m <= src_len,
                src_len == src@.len(),
                bufs@[i as int]@.len() == len,
                forall|k: int| 0 <= k < bufs@.len() && k != i ==> bufs@[k] == prev[k],
                forall|t: int| 0 <= t < j ==> bufs@[i as int]@[t] == src@[nread + t],
                forall|t: int| j <= t < len ==> bufs@[i as int]@[t] == prev[i as int]@[t],
            decreases m - j,
        {
            let b = src[nread + j];
            bufs[i][j] = b;
            j = j + 1;
        }
        let ghost p = contents(bufs@);
        proof {
            assert forall|k: int| 0 <= k < bufs@.len() implies #[trigger] bufs@[k]@.len()
                == c0[k].len() by {
                if k != i {
                    assert(bufs@[k] == prev[k]);
                }
            }
            assert forall|k: int| i < k < bufs@.len() implies #[trigger] bufs@[k]@ == c0[k] by {
                assert(bufs@[k] == prev[k]);
            }
            assert(p[i as int] =~= src@.subrange(nread as int, nread + m) + c0[i as int].subrange(
                m as int,
                len as int,
            ));
            assert(p.subrange(0, i as int) =~= contents(prev).subrange(0, i as int));
            lemma_flatten_prefix_step(p, i as int);
            lemma_flatten_prefix_step(c0, i as int);
        }
        let ghost before = nread;
        nread = nread + m;
        i = i + 1;
        if nread == src_len || i == bufs.len() {
            proof {
                lemma_flatten_around(p, i - 1);
                lemma_flatten_around(c0, i - 1);
                assert(p.subrange(i as int, p.len() as int) =~= c0.subrange(
                    i as int,
                    c0.len() as int,
                ));
                if nread < src_len {
                    assert(m == len);
                    assert(p.subrange(i as int, p.len() as int) =~= Seq::<Seq<u8>>::empty());
                    assert(c0.subrange(i as int, c0.len() as int) =~= Seq::<Seq<u8>>::empty());
                }
                assert(p.flatten() =~= src@.subrange(0, nread as int) + c0.flatten().subrange(
                    nread as int,
                    c0.flatten().len() as int,
                ));
            }
            break ;
        }
        proof {
            assert(m == len);
            assert(contents(bufs@).subrange(0, i as int).flatten() =~= src@.subrange(
                0,
                nread as int,
            ));
        }
    }
    nread
}

/// The total length of `bufs`, or, when it exceeds `limit`, some number
/// above `limit`.
fn sum_lens(bufs: &[&[u8]], limit: usize) -> (total: usize)
    requires
        limit < usize::MAX,
    ensures
        total_len(bufs@) <= limit ==> total == total_len(bufs@),
        total_len(bufs@) > limit ==> total > limit,
{
    let mut total: usize = 0;
    let mut i: usize = 0;
    while i < bufs.len()
        invariant
            i <= bufs@.len(),
            total == total_len(bufs@.subrange(0, i as int)),
            total <= limit,
            limit < usize::MAX,
        decreases bufs@.len() - i,
    {
        let len = bufs[i].len();
        proof {
            assert(bufs@.subrange(0, i as int + 1).drop_last() =~= bufs@.subrange(0, i as int));
        }
        if len > limit - total {
            proof {
                lemma_total_len_prefix(bufs@, i as int + 1);
            }
            return limit + 1;
        }
        total = total + len;
        i = i + 1;
    }
    proof {
        assert(bufs@.subrange(0, bufs@.len() as int) =~= bufs@);
    }
    total
}


impl<Inner: HalfDuplexIo> BufDuplexerBackend<Inner> {
    /// Refills the reader buffer with one `read` of the stream when nothing
    /// is left in it, and returns how many bytes it then holds.
    fn fill(&mut self) -> (r: Result<usize, std::io::Error>)
        requires
            old(self).wf(),
        ensures
            final(self).wf(),
            final(self)@.pending == old(self)@.pending,
            final(self)@.writer_capacity == old(self)@.writer_capacity,
            final(self)@.reader_capacity == old(self)@.reader_capacity,
            old(self)@.readable.len() > 0 ==> r is Ok && *final(self) == *old(self),
            r matches Ok(n) ==> n == final(self)@.readable.len(),
            r is Err ==> final(self)@ == (BufferState {
                    log: old(self)@.log.failed(),
                    calls: final(self)@.calls,
                    ..old(self)@
                }),
            old(self)@.readable.len() == 0 ==> final(self)@.calls == old(self)@.calls.push(
                (StreamCall::Read { room: old(self)@.reader_capacity, outcome: r }),
            ),
            r is Err ==> old(self)@.log.may_fail(),
            old(self)@.readable.len() == 0 && r is Ok ==> final(self)@.log == old(
                self,
            )@.log.read(old(self)@.reader_capacity > 0, final(self)@.readable) && old(
                self,
            )@.log.can_read(old(self)@.reader_capacity > 0, final(self)@.readable),
    {
        if self.pos >= self.cap {
            match self.inner.read(self.reader_buf.as_mut_slice()) {
                Ok(n) => {
                    self.pos = 0;
                    self.cap = n;
                },
                Err(e) => {
                    assert(self@.readable =~= old(self)@.readable);
                    return Err(e);
                },
            }
        }
        Ok(self.cap - self.pos)
    }

    /// The bytes that are left in the reader buffer, after refilling it with
    /// one `read` of the stream when nothing was left.
    pub fn fill_buf(&mut self) -> (r: Result<&[u8], std::io::Error>)
        requires
            old(self).wf(),
        ensures
            final(self).wf(),
            final(self)@.pending == old(self)@.pending,
            final(self)@.writer_capacity == old(self)@.writer_capacity,
            final(self)@.reader_capacity == old(self)@.reader_capacity,
            old(self)@.readable.len() > 0 ==> r is Ok && *final(self) == *old(self),
            match r {
                Ok(s) => s@ == final(self)@.readable,
                Err(_) => final(self)@ == (BufferState {
                    log: old(self)@.log.failed(),
                    calls: final(self)@.calls,
                    ..old(self)@
                }),
            },
            old(self)@.readable.len() == 0 ==> final(self)@.calls == old(self)@.calls.push(
                (StreamCall::Read { room: old(self)@.reader_capacity, outcome: slice_outcome(r) }),
            ),
            old(self)@.readable.len() == 0 && r is Ok ==> final(self)@.log == old(
                self,
            )@.log.read(old(self)@.reader_capacity > 0, final(self)@.readable) && old(
                self,
            )@.log.can_read(old(self)@.reader_capacity > 0, final(self)@.readable),
    {
        match self.fill() {
            Ok(_) => Ok(slice_subrange(self.reader_buf.as_slice(), self.pos, self.cap)),
            Err(e) => Err(e),
        }
    }

    /// Hands `amt` bytes of the reader buffer over: they are dropped from it
    /// (all of them, when it holds fewer).
    pub fn consume(&mut self, amt: usize)
        requires
            old(self).wf(),
        ensures
            final(self).wf(),
            final(self)@ == consumed(old(self)@, amt as int),
            final(self).stream() == old(self).stream(),
    {
        if amt >= self.cap - self.pos {
            self.pos = self.cap;
        } else {
            self.pos = self.pos + amt;
        }
        assert(self@.readable =~= old(self)@.readable.subrange(
            min(amt as int, old(self)@.readable.len() as int),
            old(self)@.readable.len() as int,
        ));
    }

    /// Reads into `buf`: from the reader buffer when it holds bytes; when it
    /// is empty, straight from the stream for a `buf` at least as large as
    /// the buffer, and otherwise after one refill of the buffer.
    pub fn read(&mut self, buf: &mut [u8]) -> (r: Result<usize, std::io::Error>)
        requires
            old(self).wf(),
        ensures
            final(self).wf(),
            final(self)@.pending == old(self)@.pending,
            final(self)@.writer_capacity == old(self)@.writer_capacity,
            final(self)@.reader_capacity == old(self)@.reader_capacity,
            final(buf)@.len() == old(buf)@.len(),
            old(self)@.readable.len() > 0 ==> ({
                let n = min(old(buf)@.len() as int, old(self)@.readable.len() as int);
                &&& r matches Ok(k) && k == n
                &&& final(buf)@ == old(self)@.readable.subrange(0, n) + old(buf)@.subrange(
                    n,
                    old(buf)@.len() as int,
                )
                &&& final(self)@.readable == old(self)@.readable.subrange(
                    n,
                    old(self)@.readable.len() as int,
                )
                &&& final(self).stream() == old(self).stream()
            }),
            r matches Ok(n) ==> n <= old(buf)@.len() && (final(self)@.readable.len() > 0 ==> n
                == old(buf)@.len()),
            old(buf)@.len() < old(self)@.reader_capacity ==> (r matches Ok(n)
                ==> final(buf)@.subrange(n as int, old(buf)@.len() as int)
                == old(buf)@.subrange(n as int, old(buf)@.len() as int)),
            r is Err ==> final(self)@.readable.len() == 0,
            reads_only(old(self)@, final(self)@),
            old(self)@.readable.len() == 0 ==> (r matches Ok(n) ==> final(self)@.log.reads == old(
                self,
            )@.log.reads.push(final(buf)@.subrange(0, n as int) + final(self)@.readable)),
            r is Err ==> final(self)@.log.reads == old(self)@.log.reads,
            old(self)@.readable.len() > 0 ==> final(self)@.log == old(self)@.log,
            old(self)@.readable.len() > 0 ==> final(self)@.calls == old(self)@.calls,
            errs_from_stream(old(self)@, final(self)@, r),
            old(self)@.readable.len() == 0 ==> one_read(
                old(self)@.calls,
                final(self)@.calls,
                read_room(old(buf)@.len() as int, old(self)@.reader_capacity),
                r is Ok,
            ),
            old(self)@.readable.len() == 0 && old(buf)@.len() >= old(self)@.reader_capacity
                ==> final(self)@.readable.len() == 0,
    {
        if self.pos == self.cap && buf.len() >= self.reader_buf.len() {
            self.discard_reader_buffer();
            let r = self.inner.read(buf);
            proof {
                if r is Ok {
                    let n = r->Ok_0;
                    assert(buf@.subrange(0, n as int) + self@.readable =~= buf@.subrange(
                        0,
                        n as int,
                    ));
                }
            }
            return r;
        }
        match self.fill() {
            Ok(_) => {},
            Err(e) => {
                return Err(e);
            },
        }
        let ghost filled = self@.readable;
        let avail = self.cap - self.pos;
        let size = if avail < buf.len() {
            avail
        } else {
            buf.len()
        };
        let mut i: usize = 0;
        while i < size
            invariant
                self.wf(),
                size <= self.cap - self.pos,
                size <= buf@.len(),
                i <= size,
                buf@.len() == old(buf)@.len(),
                forall|j: int| 0 <= j < i ==> buf@[j] == self.reader_buf@[self.pos + j],
                forall|j: int| i <= j < buf@.len() ==> buf@[j] == old(buf)@[j],
            decreases size - i,
        {
            let b = self.reader_buf[self.pos + i];
            buf[i] = b;
            i = i + 1;
        }
        proof {
            let n = size as int;
            assert(buf@ =~= self@.readable.subrange(0, n) + old(buf)@.subrange(
                n,
                old(buf)@.len() as int,
            ));
        }
        self.consume(size);
        proof {
            assert(buf@.subrange(0, size as int) + self@.readable =~= filled);
        }
        Ok(size)
    }

    /// Reads into the buffers of `bufs`, filling them in order: from the
    /// reader buffer when it holds bytes; when it is empty, straight from
    /// the stream when the buffers hold at least as much as the reader
    /// buffer, and otherwise after one refill of it.
    pub fn read_vectored(&mut self, bufs: &mut [&mut [u8]]) -> (r: Result<usize, std::io::Error>)
        requires
            old(self).wf(),
        ensures
            final(self).wf(),
            final(self)@.pending == old(self)@.pending,
            final(self)@.writer_capacity == old(self)@.writer_capacity,
            final(self)@.reader_capacity == old(self)@.reader_capacity,
            same_lengths(contents(old(bufs)@), contents(final(bufs)@)),
            ({
                let before = contents(old(bufs)@).flatten();
                let after = contents(final(bufs)@).flatten();
                let total = before.len() as int;
                &&& old(self)@.readable.len() > 0 ==> ({
                    let n = min(total, old(self)@.readable.len() as int);
                    &&& r matches Ok(k) && k == n
                    &&& after == old(self)@.readable.subrange(0, n) + before.subrange(n, total)
                    &&& final(self)@.readable == old(self)@.readable.subrange(
                        n,
                        old(self)@.readable.len() as int,
                    )
                    &&& final(self).stream() == old(self).stream()
                })
                &&& r matches Ok(n) ==> n <= total && (final(self)@.readable.len() > 0 ==> n
                    == total)
                &&& total < old(self)@.reader_capacity ==> (r matches Ok(n) ==> after.subrange(
                    n as int,
                    total,
                ) == before.subrange(n as int, total))
            }),
            r is Err ==> final(self)@.readable.len() == 0,
            reads_only(old(self)@, final(self)@),
            old(self)@.readable.len() == 0 ==> (r matches Ok(n) ==> final(self)@.log.reads == old(
                self,
            )@.log.reads.push(
                contents(final(bufs)@).flatten().subrange(0, n as int) + final(self)@.readable,
            )),
            r is Err ==> final(self)@.log.reads == old(self)@.log.reads,
            old(self)@.readable.len() > 0 ==> final(self)@.log == old(self)@.log,
            old(self)@.readable.len() > 0 ==> final(self)@.calls == old(self)@.calls,
            errs_from_stream(old(self)@, final(self)@, r),
            old(self)@.readable.len() == 0 ==> final(self)@.calls.len() == old(self)@.calls.len()
                + 1 && (last_read_room(final(self)@.calls) >= 0) && vectored_room(
                last_read_room(final(self)@.calls),
                contents(old(bufs)@).flatten().len() as int,
                old(self)@.reader_capacity,
            ),
            old(self)@.readable.len() == 0 && contents(old(bufs)@).flatten().len()
                >= old(self)@.reader_capacity ==> final(self)@.readable.len() == 0,
    {
        let total = room_in(bufs, self.reader_buf.len());
        if self.pos == self.cap && total >= self.reader_buf.len() {
            self.discard_reader_buffer();
            let r = self.inner.read_vectored(bufs);
            proof {
                if r is Ok {
                    let n = r->Ok_0;
                    let f = contents(bufs@).flatten().subrange(0, n as int);
                    assert(f + self@.readable =~= f);
                }
            }
            return r;
        }
        match self.fill() {
            Ok(_) => {},
            Err(e) => {
                return Err(e);
            },
        }
        let ghost filled = self@.readable;
        let size = scatter(slice_subrange(self.reader_buf.as_slice(), self.pos, self.cap), bufs);
        proof {
            let before = contents(old(bufs)@).flatten();
            let after = contents(bufs@).flatten();
            assert(after.subrange(size as int, before.len() as int) =~= before.subrange(
                size as int,
                before.len() as int,
            ));
        }
        self.consume(size);
        proof {
            assert(contents(bufs@).flatten().subrange(0, size as int) + self@.readable
                =~= filled);
        }
        Ok(size)
    }

    /// Appends to `buf` the bytes of the stream up to and including the
    /// next `byte`, or up to the end of the stream, refilling the reader
    /// buffer as needed; returns how many bytes were appended. An
    /// interrupted refill is retried.
    #[verifier::rlimit(100)]
    #[verifier::spinoff_prover]
    pub fn read_until(&mut self, byte: u8, buf: &mut Vec<u8>) -> (r: Result<usize, std::io::Error>)
        requires
            old(self).wf(),
        ensures
            final(self).wf(),
            final(self)@.pending == old(self)@.pending,
            final(self)@.writer_capacity == old(self)@.writer_capacity,
            final(self)@.reader_capacity == old(self)@.reader_capacity,
            final(buf)@.len() >= old(buf)@.len(),
            final(buf)@.subrange(0, old(buf)@.len() as int) == old(buf)@,
            ({
                let added = final(buf)@.subrange(old(buf)@.len() as int, final(buf)@.len() as int);
                &&& forall|j: int| 0 <= j < added.len() - 1 ==> added[j] != byte
                &&& passed_on(old(self)@, final(self)@, added)
                &&& r matches Ok(n) ==> n == added.len() && ((n > 0 && added.last() == byte)
                    || end_seen(old(self)@, final(self)@))
            }),
            reads_only(old(self)@, final(self)@),
            errs_from_stream(old(self)@, final(self)@, r),
            r matches Err(e) ==> !interrupted(e) || calls_since(
                old(self)@.calls,
                final(self)@.calls,
            ).len() > u64::MAX,
            reads_known(old(self)@) ==> until_read(
                old(self)@,
                final(self)@,
                byte,
                final(buf)@.subrange(old(buf)@.len() as int, final(buf)@.len() as int),
                r,
            ),
            forall|i: int| #[trigger]
                first_at(old(self)@.readable, byte, i) ==> {
                    &&& r matches Ok(n) && n == i + 1
                    &&& final(buf)@ == old(buf)@ + old(self)@.readable.subrange(0, i + 1)
                    &&& final(self)@.readable == old(self)@.readable.subrange(
                        i + 1,
                        old(self)@.readable.len() as int,
                    )
                    &&& final(self).stream() == old(self).stream()
                },
    {
        let ghost start = old(buf)@;
        let ghost first = old(self)@.readable;
        let ghost hyp = reads_known(old(self)@);
        let ghost data = data_ahead(old(self)@);
        let mut read: usize = 0;
        let mut retries: u64 = 0;
        proof {
            assert(old(self)@.log.reads.subrange(0, old(self)@.log.reads.len() as int)
                =~= old(self)@.log.reads);
            assert(new_reads(old(self)@, old(self)@) =~= Seq::<Seq<u8>>::empty());
            assert(buf@.subrange(start.len() as int, buf@.len() as int) =~= Seq::<u8>::empty());
            assert(first + Seq::<Seq<u8>>::empty().flatten() =~= Seq::<u8>::empty() + first);
        }
        loop
            invariant
                self.wf(),
                self@.pending == old(self)@.pending,
                self@.writer_capacity == old(self)@.writer_capacity,
                self@.reader_capacity == old(self)@.reader_capacity,
                buf@.len() == start.len() + read,
                buf@.subrange(0, start.len() as int) == start,
                forall|j: int| start.len() <= j < buf@.len() ==> buf@[j] != byte,
                start == old(buf)@,
                first == old(self)@.readable,
                read == 0 && first.len() > 0 ==> *self == *old(self),
                read == 0 ==> buf@ == start,
                read > 0 ==> lacks(first, byte),
                self@.log.writes == old(self)@.log.writes,
                self@.log.flushes == old(self)@.log.flushes,
                passed_on(old(self)@, self@, buf@.subrange(start.len() as int, buf@.len() as int)),
                extends(old(self)@.calls, self@.calls),
                calls_since(old(self)@.calls, self@.calls).len() >= retries,
                hyp == reads_known(old(self)@),
                data == data_ahead(old(self)@),
                hyp ==> self@.log.faults == Some(0nat) && (self@.log.ahead)(0) is Some
                    && same_later(old(self)@.log, self@.log) && buf@.subrange(
                    start.len() as int,
                    buf@.len() as int,
                ) + data_ahead(self@) == data,
            decreases usize::MAX - buf@.len(), u64::MAX - retries,
        {
            let ghost before = self@.readable;
            let ghost mid = self@;
            match self.fill() {
                Ok(_) => {
                    proof {
                        if hyp && self@.readable.len() > 0 {
                            assert(data_ahead(self@) =~= data_ahead(mid));
                            assert(same_later(mid.log, self@.log));
                        }
                        if before.len() == 0 {
                            lemma_passed_on_refill(
                                old(self)@,
                                mid,
                                self@,
                                buf@.subrange(start.len() as int, buf@.len() as int),
                            );
                        }
                    }
                },
                Err(e) => {
                    if is_interrupted(&e) && retries < u64::MAX {
                        retries = retries + 1;
                        continue ;
                    }
                    return Err(e);
                },
            }
            let ghost after_fill = self@;
            let available = slice_subrange(self.reader_buf.as_slice(), self.pos, self.cap);
            let ghost first_round = read == 0;
            let ghost added_so_far = buf@.subrange(start.len() as int, buf@.len() as int);
            let (done, used) = match memchr(byte, available) {
                Some(i) => {
                    proof {
                        assert forall|k: int| #[trigger] first_at(first, byte, k) implies k
                            == i as int by {
                            if k < i as int {
                                assert(available@[k] != byte);
                            }
                            if k > i as int {
                                assert(first[i as int] != byte);
                            }
                        }
                    }
                    let ghost prev = buf@;
                    buf.extend_from_slice(slice_subrange(available, 0, i + 1));
                    proof {
                        if first_round && first.len() > 0 {
                            assert(available@ =~= first);
                            assert(buf@ =~= start + first.subrange(0, i + 1));
                        }
                        assert(buf@ =~= prev + available@.subrange(0, i + 1));
                        assert(buf@.last() == byte);
                        assert forall|j: int| start.len() <= j < buf@.len() - 1 implies buf@[j]
                            != byte by {
                            if j >= prev.len() {
                                assert(buf@[j] == available@[j - prev.len()]);
                            }
                        }
                    }
                    (true, i + 1)
                },
                None => {
                    let ghost prev = buf@;
                    buf.extend_from_slice(available);
                    proof {
                        assert(buf@ =~= prev + available@);
                        assert forall|j: int| start.len() <= j < buf@.len() implies buf@[j]
                            != byte by {
                            if j >= prev.len() {
                                assert(buf@[j] == available@[j - prev.len()]);
                            }
                        }
                        if first_round && first.len() > 0 {
                            assert(available@ =~= first);
                        }
                    }
                    (false, available.len())
                },
            };
            // A vector's length is a `usize`: this bounds the number of rounds.
            let filled = buf.len();
            assert(filled == start.len() + read + used);
            let ghost refilled = self@;
            self.consume(used);
            proof {
                assert(buf@.subrange(start.len() as int, buf@.len() - used) =~= added_so_far);
                lemma_passed_on_hand_out(
                    old(self)@,
                    refilled,
                    self@,
                    buf@.subrange(start.len() as int, buf@.len() - used),
                    used as int,
                );
                assert(buf@.subrange(start.len() as int, buf@.len() - used) + refilled.readable.subrange(
                    0,
                    used as int,
                ) =~= buf@.subrange(start.len() as int, buf@.len() as int));
            }
            proof {
                if hyp {
                    let added_now = buf@.subrange(start.len() as int, buf@.len() as int);
                    assert(added_now =~= added_so_far + after_fill.readable.subrange(
                        0,
                        used as int,
                    ));
                    if after_fill.readable.len() > 0 {
                        assert(added_now + data_ahead(self@) =~= added_so_far + data_ahead(
                            after_fill,
                        ));
                    }
                    if done {
                        let l = added_now.len() as int;
                        assert(data[l - 1] == byte);
                        assert forall|j: int| 0 <= j < l - 1 implies data[j] != byte by {
                            assert(data[j] == added_now[j]);
                        }
                        assert forall|i: int| #[trigger] first_at(data, byte, i) implies i == l
                            - 1 by {
                            if i < l - 1 {
                                assert(data[i] == added_now[i]);
                            }
                        }
                        assert(added_now =~= data.subrange(0, l));
                        assert(data_ahead(self@) =~= data.subrange(l, data.len() as int));
                    } else if used == 0 {
                        assert(after_fill.readable.len() == 0);
                        assert(added_now =~= added_so_far);
                        assert(data =~= added_so_far);
                        assert(passed_end(old(self)@.log, self@.log)) by {
                            assert forall|k: nat| #[trigger] (self@.log.ahead)(k) == (old(
                                self,
                            )@.log.ahead)(k + 1) by {
                                assert((mid.log.ahead)(k + 1) == (old(self)@.log.ahead)(k + 1));
                            }
                        }
                    }
                }
            }
            read = read + used;
            retries = 0;
            if done || used == 0 {
                proof {
                    if !done {
                        assert(after_fill.readable.len() == 0);
                        assert(before.len() == 0);
                        assert(after_fill.log == mid.log.read(mid.reader_capacity > 0, after_fill.readable));
                        assert(new_reads(old(self)@, self@) =~= new_reads(old(self)@, mid).push(
                            after_fill.readable,
                        ));
                    }
                }
                return Ok(read);
            }
        }
    }
}


impl<Inner: HalfDuplexIo> BufDuplexerBackend<Inner> {
    /// Appends the next line of the stream, newline included, to `buf`,
    /// and returns its length in bytes. Bytes that are not valid UTF-8 are
    /// not appended, and give an `InvalidData` error unless reading failed
    /// first.
    pub fn read_line(&mut self, buf: &mut String) -> (r: Result<usize, std::io::Error>)
        requires
            old(self).wf(),
        ensures
            final(self).wf(),
            final(self)@.pending == old(self)@.pending,
            final(self)@.writer_capacity == old(self)@.writer_capacity,
            final(self)@.reader_capacity == old(self)@.reader_capacity,
            reads_only(old(self)@, final(self)@),
            exists|line: Seq<u8>|
                line_read(old(self)@, final(self)@, line, old(buf)@, final(buf)@, r),
            forall|i: int| #[trigger]
                first_at(old(self)@.readable, NEWLINE, i) ==> {
                    let line = old(self)@.readable.subrange(0, i + 1);
                    &&& valid_utf8(line) ==> (r matches Ok(n) && n == i + 1 && final(buf)@
                        == old(buf)@ + decode_utf8(line))
                    &&& !valid_utf8(line) ==> (r is Err && final(buf)@ == old(buf)@)
                    &&& final(self)@.readable == old(self)@.readable.subrange(
                        i + 1,
                        old(self)@.readable.len() as int,
                    )
                },
    {
        let mut bytes: Vec<u8> = Vec::new();
        let ret = self.read_until(NEWLINE, &mut bytes);
        proof {
            assert(bytes@.subrange(0, 0) =~= Seq::<u8>::empty());
            assert(bytes@.subrange(0, bytes@.len() as int) =~= bytes@);
        }
        match str_from_utf8(bytes.as_slice()) {
            Some(s) => {
                buf.append(s);
                proof {
                    encode_utf8_decode_utf8(s@);
                    assert(line_read(old(self)@, self@, bytes@, old(buf)@, buf@, ret));
                }
                ret
            },
            None => {
                let r = match ret {
                    Err(e) => Err(e),
                    Ok(_) => Err(
                        new_error(FailureKind::InvalidData, "stream did not contain valid UTF-8"),
                    ),
                };
                proof {
                    assert(line_read(old(self)@, self@, bytes@, old(buf)@, buf@, r));
                }
                r
            },
        }
    }

    /// The next line of the stream without its line ending (`\n` or
    /// `\r\n`), or `None` at the end of the stream.
    pub fn next_line(&mut self) -> (r: Option<Result<String, std::io::Error>>)
        requires
            old(self).wf(),
        ensures
            final(self).wf(),
            final(self)@.pending == old(self)@.pending,
            final(self)@.writer_capacity == old(self)@.writer_capacity,
            final(self)@.reader_capacity == old(self)@.reader_capacity,
            r matches Some(Ok(s)) ==> exists|line: Seq<u8>|
                valid_utf8(line) && lacks(line, NEWLINE) && s@ == decode_utf8(line),
            reads_only(old(self)@, final(self)@),
            exists|line: Seq<u8>| next_line_read(old(self)@, final(self)@, line, r),
            reads_known(old(self)@) ==> next_line_known(old(self)@, final(self)@, r),
            forall|i: int| #[trigger]
                first_at(old(self)@.readable, NEWLINE, i) ==> {
                    let line = stripped(old(self)@.readable.subrange(0, i + 1));
                    &&& valid_utf8(line) ==> (r matches Some(Ok(s)) && s@ == decode_utf8(line))
                    &&& !valid_utf8(line) ==> (r matches Some(Err(_)))
                    &&& final(self)@.readable == old(self)@.readable.subrange(
                        i + 1,
                        old(self)@.readable.len() as int,
                    )
                },
    {
        let mut bytes: Vec<u8> = Vec::new();
        let got = self.read_until(NEWLINE, &mut bytes);
        proof {
            assert(bytes@.subrange(0, 0) =~= Seq::<u8>::empty());
            assert(bytes@.subrange(0, bytes@.len() as int) =~= bytes@);
        }
        let ghost full = bytes@;
        proof {
            if reads_known(old(self)@) {
                let data = data_ahead(old(self)@);
                if lacks(data, NEWLINE) {
                    assert(full == data);
                } else {
                    lemma_first_at_exists(data, NEWLINE);
                    let i = choose|i: int| first_at(data, NEWLINE, i);
                    assert(full == data.subrange(0, i + 1));
                    assert(full.drop_last() =~= data.subrange(0, i));
                }
            }
        }
        match got {
            Err(e) => {
                let r = Some(Err(e));
                proof {
                    assert(next_line_read(old(self)@, self@, full, r));
                }
                r
            },
            Ok(0) => {
                proof {
                    assert(next_line_read(old(self)@, self@, full, None));
                    if reads_known(old(self)@) {
                        let data = data_ahead(old(self)@);
                        assert(lacks(data, NEWLINE));
                    }
                }
                None
            },
            Ok(_) => {
                strip_line_ending(&mut bytes);
                match str_from_utf8(bytes.as_slice()) {
                    Some(s) => {
                        proof {
                            encode_utf8_decode_utf8(s@);
                            assert(lacks(bytes@, NEWLINE));
                        }
                        let r = Some(Ok(String::from_str(s)));
                        proof {
                            assert(next_line_read(old(self)@, self@, full, r));
                            if reads_known(old(self)@) {
                                assert(line_text(full, bytes@));
                                assert(gives_line(full, r->Some_0));
                            }
                        }
                        r
                    },
                    None => {
                        let r = Some(
                            Err(
                                new_error(
                                    FailureKind::InvalidData,
                                    "stream did not contain valid UTF-8",
                                ),
                            ),
                        );
                        proof {
                            assert(next_line_read(old(self)@, self@, full, r));
                            if reads_known(old(self)@) {
                                assert(line_text(full, bytes@));
                                assert(gives_line(full, r->Some_0));
                            }
                        }
                        r
                    },
                }
            },
        }
    }
}


/// Drops a final `\n`, and then a final `\r` before it, from `v`.
fn strip_line_ending(v: &mut Vec<u8>)
    ensures
        final(v)@ == stripped(old(v)@),
        (old(v)@.len() > 0 && old(v)@.last() == NEWLINE && lacks(old(v)@.drop_last(), NEWLINE))
            || lacks(old(v)@, NEWLINE) ==> line_text(old(v)@, final(v)@),
{
    let len = v.len();
    if len > 0 && v[len - 1] == NEWLINE {
        v.pop();
        let len = v.len();
        if len > 0 && v[len - 1] == CARRIAGE_RETURN {
            v.pop();
            proof {
                assert(old(v)@ =~= v@ + seq![CARRIAGE_RETURN, NEWLINE]);
            }
        } else {
            proof {
                assert(old(v)@ =~= v@ + seq![NEWLINE]);
            }
        }
    }
}



/// Wraps a reader and writer and buffers their input and output.
///
/// Small writes are collected in a writer buffer and sent to the stream in
/// large, infrequent batches; reads are served from a reader buffer that is
/// refilled with large, infrequent reads. Reading first flushes the writer
/// buffer, so that what was written reaches the other side before this side
/// waits for an answer.
///
/// Call `flush` before dropping a `BufDuplexer`: what is left in its writer
/// buffer is not written out when it is dropped. The contents of its reader
/// buffer are discarded when it is dropped, or unwrapped with `into_inner`.
#[derive(Debug)]
pub struct BufDuplexer<Inner: HalfDuplexIo> {
    inner: BufDuplexerBackend<Inner>,
}

impl<Inner: HalfDuplexIo> View for BufDuplexer<Inner> {
    type V = BufferState;

    closed spec fn view(&self) -> BufferState {
        self.inner@
    }
}

impl<Inner: HalfDuplexIo> BufDuplexer<Inner> {
    /// The buffers are consistent. Every `BufDuplexer` that this crate
    /// makes is, and every method keeps it so.
    pub closed spec fn wf(&self) -> bool {
        self.inner.wf()
    }

    /// The stream behind the buffers.
    pub closed spec fn stream(&self) -> Inner {
        self.inner.stream()
    }

    /// What `wf` means for the view.
    pub proof fn lemma_wf(&self)
        requires
            self.wf(),
        ensures
            self@.within_capacity(),
    {
        self.inner.lemma_wf();
    }

    /// Creates a new `BufDuplexer` with buffers of the default capacity,
    /// `DEFAULT_BUF_SIZE` bytes each.
    #[inline]
    pub fn new(inner: Inner) -> (r: Self)
        ensures
            r.wf(),
            r.stream() == inner,
            r@ == (BufferState {
                pending: Seq::empty(),
                writer_capacity: DEFAULT_BUF_SIZE as nat,
                readable: Seq::empty(),
                reader_capacity: DEFAULT_BUF_SIZE as nat,
                log: inner.log(),
                calls: inner.calls(),
            }),
    {
        Self { inner: BufDuplexerBackend::new(inner) }
    }

    /// Creates a new `BufDuplexer` with buffers of the given capacities.
    #[inline]
    pub fn with_capacities(reader_capacity: usize, writer_capacity: usize, inner: Inner) -> (r:
        Self)
        requires
            reader_capacity <= isize::MAX,
            writer_capacity <= isize::MAX,
        ensures
            r.wf(),
            r.stream() == inner,
            r@ == (BufferState {
                pending: Seq::empty(),
                writer_capacity: writer_capacity as nat,
                readable: Seq::empty(),
                reader_capacity: reader_capacity as nat,
                log: inner.log(),
                calls: inner.calls(),
            }),
    {
        Self { inner: BufDuplexerBackend::with_capacities(reader_capacity, writer_capacity, inner) }
    }

    /// Gets a reference to the underlying reader/writer.
    #[inline]
    pub fn get_ref(&self) -> (r: &Inner)
        ensures
            *r == self.stream(),
    {
        self.inner.get_ref()
    }

    /// Gets a mutable reference to the underlying reader/writer. It is
    /// inadvisable to write to it directly.
    #[inline]
    pub fn get_mut(&mut self) -> (r: &mut Inner)
        ensures
            *r == old(self).stream(),
            final(self).stream() == *final(r),
            final(self)@ == (BufferState {
                log: (*final(r)).log(),
                calls: (*final(r)).calls(),
                ..old(self)@
            }),
            final(self).wf() == old(self).wf(),
    {
        self.inner.get_mut()
    }

    /// The bytes in the writer buffer.
    #[inline]
    pub fn writer_buffer(&self) -> (r: &[u8])
        ensures
            r@ == self@.pending,
    {
        self.inner.writer_buffer()
    }

    /// The bytes in the reader buffer that were not read yet. Unlike
    /// `fill_buf`, this does not read from the stream when it is empty.
    pub fn reader_buffer(&self) -> (r: &[u8])
        requires
            self.wf(),
        ensures
            r@ == self@.readable,
    {
        self.inner.reader_buffer()
    }

    /// The number of bytes the writer buffer can hold without flushing.
    #[inline]
    pub fn writer_capacity(&self) -> (r: usize)
        ensures
            r == self@.writer_capacity,
    {
        self.inner.writer_capacity()
    }

    /// The number of bytes the reader buffer can hold at once.
    pub fn reader_capacity(&self) -> (r: usize)
        ensures
            r == self@.reader_capacity,
    {
        self.inner.reader_capacity()
    }

    /// Unwraps this `BufDuplexer`, returning the underlying reader/writer.
    /// The writer buffer is written out first; if that fails, the error is
    /// returned together with the `BufDuplexer`, holding what it could not
    /// write.
    pub fn into_inner(self) -> (r: Result<Inner, IntoInnerError<Self>>)
        requires
            self.wf(),
        ensures
            self@.pending.len() == 0 ==> r == Ok::<Inner, IntoInnerError<Self>>(self.stream()),
            r matches Err(e) ==> {
                &&& e.writer().wf()
                &&& e.writer()@.writer_capacity == self@.writer_capacity
                &&& e.writer()@.readable == self@.readable
                &&& e.writer()@.reader_capacity == self@.reader_capacity
                &&& is_suffix(self@.pending, e.writer()@.pending)
                &&& taken(e.writer()@) == taken(self@)
                &&& writes_only(self@, e.writer()@)
                &&& sent_out(
                    self@.pending,
                    self@.calls,
                    e.writer()@.calls,
                    e.writer()@.pending,
                    Err(e.io_error()),
                )
            },
            r matches Ok(s) ==> {
                &&& s.log().sent() == taken(self@)
                &&& s.log().reads == self@.log.reads
                &&& s.log().flushes == self@.log.flushes
                &&& sent_out(self@.pending, self@.calls, s.calls(), Seq::empty(), Ok(()))
            },
    {
        match self.inner.into_inner() {
            Ok(inner) => Ok(inner),
            Err(e) => {
                let (backend, error) = e.into_parts();
                Err(IntoInnerError::new(Self { inner: backend }, error))
            },
        }
    }

    /// Writes `buf` through the writer buffer: when it does not fit beside
    /// the buffered bytes, the buffer is flushed first; then a `buf` at
    /// least as large as the buffer goes straight to the stream, and a
    /// smaller one is buffered.
    #[inline]
    pub fn write(&mut self, buf: &[u8]) -> (r: Result<usize, std::io::Error>)
        requires
            old(self).wf(),
        ensures
            final(self).wf(),
            write_done(old(self)@, final(self)@, buf@, r),
            old(self)@.pending.len() + buf@.len() <= old(self)@.writer_capacity && buf@.len()
                < old(self)@.writer_capacity ==> (r matches Ok(n) && n == buf@.len()
                && final(self).stream() == old(self).stream()),
            old(self)@.writer_capacity <= buf@.len() && r is Ok ==> final(self)@.calls.last() == (
            StreamCall::Write { offered: buf@, outcome: r }),
    {
        self.inner.write(buf)
    }

    /// Writes all of `buf` through the writer buffer, like `write`; a large
    /// `buf` goes to the stream's `write_all`.
    #[inline]
    pub fn write_all(&mut self, buf: &[u8]) -> (r: Result<(), std::io::Error>)
        requires
            old(self).wf(),
        ensures
            final(self).wf(),
            write_all_done(old(self)@, final(self)@, buf@, r),
            old(self)@.pending.len() + buf@.len() <= old(self)@.writer_capacity && buf@.len()
                < old(self)@.writer_capacity ==> r is Ok && final(self).stream() == old(
                self,
            ).stream(),
    {
        self.inner.write_all(buf)
    }

    /// Writes the buffers of `bufs`, one after the other, like one `write`
    /// of their total length.
    #[inline]
    pub fn write_vectored(&mut self, bufs: &[&[u8]]) -> (r: Result<usize, std::io::Error>)
        requires
            old(self).wf(),
        ensures
            final(self).wf(),
            write_done(old(self)@, final(self)@, concat_bufs(bufs@), r),
            old(self)@.pending.len() + total_len(bufs@) <= old(self)@.writer_capacity
                && total_len(bufs@) < old(self)@.writer_capacity ==> (r matches Ok(n) && n
                == total_len(bufs@) && final(self).stream() == old(self).stream()),
    {
        self.inner.write_vectored(bufs)
    }

    /// Writes the writer buffer out and flushes the stream.
    #[inline]
    pub fn flush(&mut self) -> (r: Result<(), std::io::Error>)
        requires
            old(self).wf(),
        ensures
            final(self).wf(),
            flush_done(old(self)@, final(self)@, r),
    {
        self.inner.flush()
    }

    /// Flushes the writer half, then reads into `buf` through the reader
    /// buffer: from the buffer when it holds bytes; when it is empty,
    /// straight from the stream for a `buf` at least as large as the buffer,
    /// and otherwise after one refill of the buffer.
    #[inline]
    pub fn read(&mut self, buf: &mut [u8]) -> (r: Result<usize, std::io::Error>)
        requires
            old(self).wf(),
        ensures
            final(self).wf(),
            read_done(old(self)@, final(self)@, old(buf)@, final(buf)@, r),
    {
        match self.inner.flush() {
            Ok(_) => {},
            Err(e) => {
                return Err(e);
            },
        }
        self.inner.read(buf)
    }

    /// Flushes the writer half, then reads into the buffers of `bufs`
    /// through the reader buffer, filling them in order.
    #[inline]
    pub fn read_vectored(&mut self, bufs: &mut [&mut [u8]]) -> (r: Result<usize, std::io::Error>)
        requires
            old(self).wf(),
        ensures
            final(self).wf(),
            read_vectored_done(
                old(self)@,
                final(self)@,
                contents(old(bufs)@),
                contents(final(bufs)@),
                r,
            ),
    {
        match self.inner.flush() {
            Ok(_) => {},
            Err(e) => {
                return Err(e);
            },
        }
        self.inner.read_vectored(bufs)
    }

    /// The bytes left in the reader buffer, after refilling it with one read
    /// of the stream when nothing was left.
    #[inline]
    pub fn fill_buf(&mut self) -> (r: Result<&[u8], std::io::Error>)
        requires
            old(self).wf(),
        ensures
            final(self).wf(),
            final(self)@.pending == old(self)@.pending,
            final(self)@.writer_capacity == old(self)@.writer_capacity,
            final(self)@.reader_capacity == old(self)@.reader_capacity,
            old(self)@.readable.len() > 0 ==> r is Ok && *final(self) == *old(self),
            match r {
                Ok(s) => s@ == final(self)@.readable,
                Err(_) => final(self)@ == (BufferState {
                    log: old(self)@.log.failed(),
                    calls: final(self)@.calls,
                    ..old(self)@
                }),
            },
            old(self)@.readable.len() == 0 ==> final(self)@.calls == old(self)@.calls.push(
                (StreamCall::Read { room: old(self)@.reader_capacity, outcome: slice_outcome(r) }),
            ),
            old(self)@.readable.len() == 0 && r is Ok ==> final(self)@.log == old(
                self,
            )@.log.read(old(self)@.reader_capacity > 0, final(self)@.readable) && old(
                self,
            )@.log.can_read(old(self)@.reader_capacity > 0, final(self)@.readable),
    {
        self.inner.fill_buf()
    }

    /// Marks `amt` bytes of the reader buffer as read (all of them, when it
    /// holds fewer).
    #[inline]
    pub fn consume(&mut self, amt: usize)
        requires
            old(self).wf(),
        ensures
            final(self).wf(),
            final(self)@ == consumed(old(self)@, amt as int),
            final(self).stream() == old(self).stream(),
    {
        self.inner.consume(amt)
    }

    /// Flushes the writer half, then appends to `buf` the bytes of the
    /// stream up to and including the next `byte`, or up to the end of the
    /// stream; returns how many bytes were appended.
    #[inline]
    pub fn read_until(&mut self, byte: u8, buf: &mut Vec<u8>) -> (r: Result<usize, std::io::Error>)
        requires
            old(self).wf(),
        ensures
            final(self).wf(),
            read_until_done(old(self)@, final(self)@, byte, old(buf)@, final(buf)@, r),
    {
        proof {
            assert(buf@.subrange(0, buf@.len() as int) =~= buf@);
        }
        match self.inner.flush() {
            Err(e) => {
                proof {
                    lemma_passed_on_nothing(old(self)@, self@);
                    assert(buf@.subrange(buf@.len() as int, buf@.len() as int) =~= Seq::<
                        u8,
                    >::empty());
                }
                return Err(e);
            },
            Ok(()) => {},
        }
        self.inner.read_until(byte, buf)
    }

    /// Flushes the writer half, then appends the next line of the stream,
    /// newline included, to `buf`; returns its length in bytes. Bytes that
    /// are not valid UTF-8 are not appended, and give an `InvalidData` error
    /// unless reading failed first.
    #[inline]
    pub fn read_line(&mut self, buf: &mut String) -> (r: Result<usize, std::io::Error>)
        requires
            old(self).wf(),
        ensures
            final(self).wf(),
            read_line_done(old(self)@, final(self)@, old(buf)@, final(buf)@, r),
    {
        match self.inner.flush() {
            Err(e) => {
                proof {
                    lemma_passed_on_nothing(old(self)@, self@);
                    assert(decode_utf8(Seq::<u8>::empty()) =~= Seq::<char>::empty());
                    assert(buf@ =~= old(buf)@ + decode_utf8(Seq::<u8>::empty()));
                    assert(line_read(old(self)@, self@, Seq::empty(), old(buf)@, buf@, Err(e)));
                }
                return Err(e);
            },
            Ok(()) => {},
        }
        let ghost mid = self@;
        let r = self.inner.read_line(buf);
        proof {
            let line = choose|line: Seq<u8>| line_read(mid, self@, line, old(buf)@, buf@, r);
            assert(line_read(old(self)@, self@, line, old(buf)@, buf@, r));
        }
        r
    }

    /// Flushes the writer half, then reads the next line of the stream,
    /// without its line ending (`\n` or `\r\n`); `None` at the end of the
    /// stream. This is what `lines` gives, one line at a time.
    pub fn next_line(&mut self) -> (r: Option<Result<String, std::io::Error>>)
        requires
            old(self).wf(),
        ensures
            final(self).wf(),
            next_line_done(old(self)@, final(self)@, r),
            old(self)@.pending.len() == 0 && reads_known(old(self)@) ==> next_line_known(
                old(self)@,
                final(self)@,
                r,
            ) && final(self)@.pending.len() == 0,
    {
        match self.inner.flush() {
            Err(e) => {
                let r = Some(Err(e));
                proof {
                    lemma_passed_on_nothing(old(self)@, self@);
                    assert(next_line_read(old(self)@, self@, Seq::empty(), r));
                }
                r
            },
            Ok(()) => {
                let ghost mid = self@;
                let r = self.inner.next_line();
                proof {
                    let line = choose|line: Seq<u8>| next_line_read(mid, self@, line, r);
                    assert(next_line_read(old(self)@, self@, line, r));
                }
                r
            },
        }
    }

    /// The lines of the stream, without their line endings (`\n` or
    /// `\r\n`), up to its end: `next_line` until it gives `None`, as
    /// `std::io::BufRead::lines` gives them. An error is an entry of its own
    /// and reading goes on after it, so a stream that keeps failing keeps
    /// this from returning. The writer half is flushed before each line is
    /// read. When nothing waits to be written and what the stream's reads
    /// give up to its end is known, with no call failing, the entries are
    /// the lines of the buffered bytes and those reads ([`lines_of`]): one
    /// for each line, blank lines and a last line without `\n` included.
    pub fn lines(self) -> (r: Vec<Result<String, std::io::Error>>)
        requires
            self.wf(),
        ensures
            lines_read(r@),
            self@.pending.len() == 0 && reads_known(self@) && (self@.log.ahead)(1) == Some(
                Seq::<u8>::empty(),
            ) ==> lines_of(data_ahead(self@), r@),
            forall|i: int| #[trigger]
                first_at(self@.readable, NEWLINE, i) ==> r@.len() > 0 && first_line_read(
                    self@.readable.subrange(0, i + 1),
                    Some(r@[0]),
                ),
    {
        let ghost first = self@.readable;
        let ghost known = self@.pending.len() == 0 && reads_known(self@) && (self@.log.ahead)(1)
            == Some(Seq::<u8>::empty());
        let ghost data = data_ahead(self@);
        let ghost mut chunks: Seq<Seq<u8>> = Seq::empty();
        let mut this = self;
        let mut out: Vec<Result<String, std::io::Error>> = Vec::new();
        proof {
            if known {
                assert(chunks.flatten() + data_ahead(this@) =~= data);
            }
        }
        loop
            invariant
                this.wf(),
                lines_read(out@),
                known == (self@.pending.len() == 0 && reads_known(self@) && (self@.log.ahead)(1)
                    == Some(Seq::<u8>::empty())),
                data == data_ahead(self@),
                known ==> lines_so_far(data, chunks, out@, this@),
                first == self@.readable,
                out@.len() == 0 ==> this@.readable == first,
                out@.len() > 0 ==> forall|i: int| #[trigger]
                    first_at(first, NEWLINE, i) ==> first_line_read(
                        first.subrange(0, i + 1),
                        Some(out@[0]),
                    ),
            decreases usize::MAX - out@.len(),
        {
            let ghost before = this@;
            let next = this.next_line();
            let ghost step = next;
            proof {
                if known {
                    chunks = lemma_lines_step(data, chunks, out@, before, this@, step);
                }
            }
            match next {
                None => {
                    return out;
                },
                Some(Ok(line)) => {
                    out.push(Ok(line));
                },
                Some(Err(e)) => {
                    out.push(Err(e));
                },
            }
            // A vector's length is a `usize`: this bounds the number of rounds.
            let count = out.len();
            assert(count == out@.len());
        }
    }
}

} // verus!
