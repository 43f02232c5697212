//! A stream with a reader buffer and a line-flushed writer buffer.
use super::{
    consumed, flush_done, is_suffix, line_write_all_done, line_write_done,
    line_write_vectored_done, lines_read, read_done, read_line_done, read_until_done,
    read_vectored_done, first_at, first_line_read, fits_partial_line, last_end, lines_end,
    next_line_done, NEWLINE,
    BufDuplexerBackend, BufferState, IntoInnerError, taken, writes_only, lemma_passed_on_nothing,
    line_read, next_line_read, slice_outcome, sent_out, reads_known, next_line_known, lines_of,
    data_ahead, passed_end, same_later, is_line_chunk, gives_line, lemma_lines_step,
    lines_so_far,
};
use crate::io::{concat_bufs, contents, ended_in_failure, extends, total_len, HalfDuplexIo, StreamCall};
use vstd::utf8::{decode_utf8, encode_utf8};
use vstd::prelude::*;

verus! {

/// Wraps a reader and writer and buffers input and output to and from it,
/// flushing the writer whenever a newline (`0x0a`, `'\n'`) is detected on
/// output.
///
/// Like [`BufDuplexer`](super::BufDuplexer), it collects small writes in a
/// writer buffer, but it writes each line out as soon as it is complete
/// rather than waiting for the buffer to fill; a partial line stays in the
/// buffer until a newline follows, the buffer fills, or it is flushed.
/// Reading first flushes the writer buffer.
#[derive(Debug)]
pub struct BufReaderLineWriter<Inner: HalfDuplexIo> {
    inner: BufReaderLineWriterBackend<Inner>,
}

/// The "backend" of `BufReaderLineWriter`, split off so that the public
/// `BufReaderLineWriter` functions can do extra flushing, and the backend
/// functions can be used after flushing is already done.
#[derive(Debug)]
pub(crate) struct BufReaderLineWriterBackend<Inner: HalfDuplexIo> {
    inner: BufDuplexerBackend<Inner>,
}

impl<Inner: HalfDuplexIo> View for BufReaderLineWriterBackend<Inner> {
    type V = BufferState;

    closed spec fn view(&self) -> BufferState {
        self.inner@
    }
}

impl<Inner: HalfDuplexIo> View for BufReaderLineWriter<Inner> {
    type V = BufferState;

    closed spec fn view(&self) -> BufferState {
        self.inner@
    }
}

impl<Inner: HalfDuplexIo> BufReaderLineWriterBackend<Inner> {
    /// The buffers are consistent.
    pub closed spec fn wf(&self) -> bool {
        self.inner.wf()
    }

    /// The stream behind the buffers.
    pub closed spec fn stream(&self) -> Inner {
        self.inner.stream()
    }

    /// Wraps `inner` with buffers of 1024 bytes each: lines typically
    /// aren't that long, so this needs no giant buffers.
    pub fn new(inner: Inner) -> (r: Self)
        ensures
            r.wf(),
            r.stream() == inner,
            r@ == (BufferState {
                pending: Seq::empty(),
                writer_capacity: 1024,
                readable: Seq::empty(),
                reader_capacity: 1024,
                log: inner.log(),
                calls: inner.calls(),
            }),
    {
        Self::with_capacities(1024, 1024, inner)
    }

    /// Wraps `inner` with buffers of the given capacities.
    pub fn with_capacities(reader_capacity: usize, writer_capacity: usize, inner: Inner) -> (r:
        Self)
        requires
            reader_capacity <= isize::MAX,
            writer_capacity <= isize::MAX,
        ensures
            r.wf(),
            r.stream() == inner,
            r@ == (BufferState {
                pending: Seq::empty(),
                writer_capacity: writer_capacity as nat,
                readable: Seq::empty(),
                reader_capacity: reader_capacity as nat,
                log: inner.log(),
                calls: inner.calls(),
            }),
    {
        Self { inner: BufDuplexerBackend::with_capacities(reader_capacity, writer_capacity, inner) }
    }

    /// The stream behind the buffers.
    #[inline]
    pub fn get_ref(&self) -> (r: &Inner)
        ensures
            *r == self.stream(),
    {
        self.inner.get_ref()
    }

    /// The stream behind the buffers, for changing.
    #[inline]
    pub fn get_mut(&mut self) -> (r: &mut Inner)
        ensures
            *r == old(self).stream(),
            final(self).stream() == *final(r),
            final(self)@ == (BufferState {
                log: (*final(r)).log(),
                calls: (*final(r)).calls(),
                ..old(self)@
            }),
            final(self).wf() == old(self).wf(),
    {
        self.inner.get_mut()
    }

    /// Writes the writer buffer out and returns the stream; on failure,
    /// returns the error together with what is left of `self`.
    pub fn into_inner(self) -> (r: Result<Inner, IntoInnerError<Self>>)
        requires
            self.wf(),
        ensures
            self@.pending.len() == 0 ==> r == Ok::<Inner, IntoInnerError<Self>>(self.stream()),
            r matches Err(e) ==> {
                &&& e.writer().wf()
                &&& e.writer()@.writer_capacity == self@.writer_capacity
                &&& e.writer()@.readable == self@.readable
                &&& e.writer()@.reader_capacity == self@.reader_capacity
                &&& is_suffix(self@.pending, e.writer()@.pending)
                &&& taken(e.writer()@) == taken(self@)
                &&& writes_only(self@, e.writer()@)
                &&& sent_out(
                    self@.pending,
                    self@.calls,
                    e.writer()@.calls,
                    e.writer()@.pending,
                    Err(e.io_error()),
                )
            },
            r matches Ok(s) ==> {
                &&& s.log().sent() == taken(self@)
                &&& s.log().reads == self@.log.reads
                &&& s.log().flushes == self@.log.flushes
                &&& sent_out(self@.pending, self@.calls, s.calls(), Seq::empty(), Ok(()))
            },
    {
        match self.inner.into_inner() {
            Ok(inner) => Ok(inner),
            Err(e) => {
                let (backend, error) = e.into_parts();
                Err(IntoInnerError::new(Self { inner: backend }, error))
            },
        }
    }
}

impl<Inner: HalfDuplexIo> BufReaderLineWriter<Inner> {
    /// The buffers are consistent. Every `BufReaderLineWriter` that this
    /// crate makes is, and every method keeps it so.
    pub closed spec fn wf(&self) -> bool {
        self.inner.wf()
    }

    /// The stream behind the buffers.
    pub closed spec fn stream(&self) -> Inner {
        self.inner.stream()
    }

    /// What `wf` means for the view.
    pub proof fn lemma_wf(&self)
        requires
            self.wf(),
        ensures
            self@.within_capacity(),
    {
        self.inner.inner.lemma_wf();
    }

    /// Creates a new `BufReaderLineWriter`, with buffers of 1024 bytes each.
    #[inline]
    pub fn new(inner: Inner) -> (r: Self)
        ensures
            r.wf(),
            r.stream() == inner,
            r@ == (BufferState {
                pending: Seq::empty(),
                writer_capacity: 1024,
                readable: Seq::empty(),
                reader_capacity: 1024,
                log: inner.log(),
                calls: inner.calls(),
            }),
    {
        Self { inner: BufReaderLineWriterBackend::new(inner) }
    }

    /// Creates a new `BufReaderLineWriter` with the given capacities for
    /// the internal buffers.
    #[inline]
    pub fn with_capacities(reader_capacity: usize, writer_capacity: usize, inner: Inner) -> (r:
        Self)
        requires
            reader_capacity <= isize::MAX,
            writer_capacity <= isize::MAX,
        ensures
            r.wf(),
            r.stream() == inner,
            r@ == (BufferState {
                pending: Seq::empty(),
                writer_capacity: writer_capacity as nat,
                readable: Seq::empty(),
                reader_capacity: reader_capacity as nat,
                log: inner.log(),
                calls: inner.calls(),
            }),
    {
        Self {
            inner: BufReaderLineWriterBackend::with_capacities(
                reader_capacity,
                writer_capacity,
                inner,
            ),
        }
    }

    /// Gets a reference to the underlying writer.
    #[inline]
    pub fn get_ref(&self) -> (r: &Inner)
        ensures
            *r == self.stream(),
    {
        self.inner.get_ref()
    }

    /// Gets a mutable reference to the underlying writer. Caution must be
    /// taken when calling methods on it, as extra writes could corrupt the
    /// output stream.
    #[inline]
    pub fn get_mut(&mut self) -> (r: &mut Inner)
        ensures
            *r == old(self).stream(),
            final(self).stream() == *final(r),
            final(self)@ == (BufferState {
                log: (*final(r)).log(),
                calls: (*final(r)).calls(),
                ..old(self)@
            }),
            final(self).wf() == old(self).wf(),
    {
        self.inner.get_mut()
    }

    /// The bytes in the writer buffer: the start of a line not yet written
    /// out.
    pub fn writer_buffer(&self) -> (r: &[u8])
        ensures
            r@ == self@.pending,
    {
        self.inner.inner.writer_buffer()
    }

    /// The bytes in the reader buffer that were not handed out yet.
    pub fn reader_buffer(&self) -> (r: &[u8])
        requires
            self.wf(),
        ensures
            r@ == self@.readable,
    {
        self.inner.inner.reader_buffer()
    }

    /// How many bytes the writer buffer holds before it is written out.
    pub fn writer_capacity(&self) -> (r: usize)
        ensures
            r == self@.writer_capacity,
    {
        self.inner.inner.writer_capacity()
    }

    /// How many bytes one read from the stream may bring into the reader
    /// buffer.
    pub fn reader_capacity(&self) -> (r: usize)
        ensures
            r == self@.reader_capacity,
    {
        self.inner.inner.reader_capacity()
    }

    /// Unwraps this `BufReaderLineWriter`, returning the underlying writer.
    /// The internal buffer is written out first; if that fails, the error is
    /// returned together with the `BufReaderLineWriter`.
    #[inline]
    pub fn into_inner(self) -> (r: Result<Inner, IntoInnerError<Self>>)
        requires
            self.wf(),
        ensures
            self@.pending.len() == 0 ==> r == Ok::<Inner, IntoInnerError<Self>>(self.stream()),
            r matches Err(e) ==> {
                &&& e.writer().wf()
                &&& e.writer()@.writer_capacity == self@.writer_capacity
                &&& e.writer()@.readable == self@.readable
                &&& e.writer()@.reader_capacity == self@.reader_capacity
                &&& is_suffix(self@.pending, e.writer()@.pending)
                &&& taken(e.writer()@) == taken(self@)
                &&& writes_only(self@, e.writer()@)
                &&& sent_out(
                    self@.pending,
                    self@.calls,
                    e.writer()@.calls,
                    e.writer()@.pending,
                    Err(e.io_error()),
                )
            },
            r matches Ok(s) ==> {
                &&& s.log().sent() == taken(self@)
                &&& s.log().reads == self@.log.reads
                &&& s.log().flushes == self@.log.flushes
                &&& sent_out(self@.pending, self@.calls, s.calls(), Seq::empty(), Ok(()))
            },
    {
        match self.inner.into_inner() {
            Ok(inner) => Ok(inner),
            Err(e) => {
                let (backend, error) = e.into_parts();
                Err(IntoInnerError::new(Self { inner: backend }, error))
            },
        }
    }

    /// Writes `buf`: its complete lines go straight to the stream in one
    /// `write` call (after the buffer is flushed), and what follows them is
    /// buffered; without a newline this is a buffered write, after flushing
    /// a buffer that ends with a complete line.
    #[inline]
    pub fn write(&mut self, buf: &[u8]) -> (r: Result<usize, std::io::Error>)
        requires
            old(self).wf(),
        ensures
            final(self).wf(),
            line_write_done(old(self)@, final(self)@, buf@, r),
            last_end(buf@, NEWLINE) == 0 && fits_partial_line(old(self)@, buf@.len() as int) ==> (
            r matches Ok(n) && n == buf@.len() && final(self)@.pending == old(self)@.pending + buf@
                && final(self).stream() == old(self).stream()),
    {
        self.inner.inner.line_write(buf)
    }

    /// Writes the writer buffer out and flushes the stream.
    #[inline]
    pub fn flush(&mut self) -> (r: Result<(), std::io::Error>)
        requires
            old(self).wf(),
        ensures
            final(self).wf(),
            flush_done(old(self)@, final(self)@, r),
    {
        self.inner.inner.flush()
    }

    /// Writes the buffers of `bufs`: the buffers up to the last one with a
    /// newline go straight to the stream in one `write_vectored` call, and,
    /// when they were taken whole, as much of the rest as fits is buffered.
    #[inline]
    pub fn write_vectored(&mut self, bufs: &[&[u8]]) -> (r: Result<usize, std::io::Error>)
        requires
            old(self).wf(),
            total_len(bufs@) <= usize::MAX,
        ensures
            final(self).wf(),
            line_write_vectored_done(old(self)@, final(self)@, bufs@, r),
            lines_end(bufs@) == 0 && fits_partial_line(old(self)@, total_len(bufs@)) ==> (r matches Ok(
                n,
            ) && n == total_len(bufs@) && final(self)@.pending == old(self)@.pending + concat_bufs(
                bufs@,
            ) && final(self).stream() == old(self).stream()),
    {
        self.inner.inner.line_write_vectored(bufs)
    }

    /// Writes all of `buf`: its complete lines are written out (together
    /// with what the buffer held, in one write when it held something), and
    /// what follows them is buffered.
    #[inline]
    pub fn write_all(&mut self, buf: &[u8]) -> (r: Result<(), std::io::Error>)
        requires
            old(self).wf(),
        ensures
            final(self).wf(),
            line_write_all_done(old(self)@, final(self)@, buf@, r),
            last_end(buf@, NEWLINE) == 0 && fits_partial_line(old(self)@, buf@.len() as int) ==> r
                is Ok && final(self)@.pending == old(self)@.pending + buf@ && final(self).stream()
                == old(self).stream(),
    {
        self.inner.inner.line_write_all(buf)
    }

    /// Flushes the output buffer, then reads into `buf` through the reader
    /// buffer.
    #[inline]
    pub fn read(&mut self, buf: &mut [u8]) -> (r: Result<usize, std::io::Error>)
        requires
            old(self).wf(),
        ensures
            final(self).wf(),
            read_done(old(self)@, final(self)@, old(buf)@, final(buf)@, r),
    {
        match self.inner.inner.flush() {
            Ok(_) => {},
            Err(e) => {
                return Err(e);
            },
        }
        self.inner.inner.read(buf)
    }

    /// Flushes the output buffer, then reads into the buffers of `bufs`
    /// through the reader buffer, filling them in order.
    #[inline]
    pub fn read_vectored(&mut self, bufs: &mut [&mut [u8]]) -> (r: Result<usize, std::io::Error>)
        requires
            old(self).wf(),
        ensures
            final(self).wf(),
            read_vectored_done(
                old(self)@,
                final(self)@,
                contents(old(bufs)@),
                contents(final(bufs)@),
                r,
            ),
    {
        match self.inner.inner.flush() {
            Ok(_) => {},
            Err(e) => {
                return Err(e);
            },
        }
        self.inner.inner.read_vectored(bufs)
    }

    /// The bytes left in the reader buffer, after refilling it with one read
    /// of the stream when nothing was left.
    #[inline]
    pub fn fill_buf(&mut self) -> (r: Result<&[u8], std::io::Error>)
        requires
            old(self).wf(),
        ensures
            final(self).wf(),
            final(self)@.pending == old(self)@.pending,
            final(self)@.writer_capacity == old(self)@.writer_capacity,
            final(self)@.reader_capacity == old(self)@.reader_capacity,
            old(self)@.readable.len() > 0 ==> r is Ok && *final(self) == *old(self),
            match r {
                Ok(s) => s@ == final(self)@.readable,
                Err(_) => final(self)@ == (BufferState {
                    log: old(self)@.log.failed(),
                    calls: final(self)@.calls,
                    ..old(self)@
                }),
            },
            old(self)@.readable.len() == 0 ==> final(self)@.calls == old(self)@.calls.push(
                (StreamCall::Read { room: old(self)@.reader_capacity, outcome: slice_outcome(r) }),
            ),
            old(self)@.readable.len() == 0 && r is Ok ==> final(self)@.log == old(
                self,
            )@.log.read(old(self)@.reader_capacity > 0, final(self)@.readable) && old(
                self,
            )@.log.can_read(old(self)@.reader_capacity > 0, final(self)@.readable),
    {
        self.inner.inner.fill_buf()
    }

    /// Marks `amt` bytes of the reader buffer as read (all of them, when it
    /// holds fewer).
    #[inline]
    pub fn consume(&mut self, amt: usize)
        requires
            old(self).wf(),
        ensures
            final(self).wf(),
            final(self)@ == consumed(old(self)@, amt as int),
            final(self).stream() == old(self).stream(),
    {
        self.inner.inner.consume(amt)
    }

    /// Flushes the output buffer, then appends to `buf` the bytes of the
    /// stream up to and including the next `byte`, or up to its end.
    #[inline]
    pub fn read_until(&mut self, byte: u8, buf: &mut Vec<u8>) -> (r: Result<usize, std::io::Error>)
        requires
            old(self).wf(),
        ensures
            final(self).wf(),
            read_until_done(old(self)@, final(self)@, byte, old(buf)@, final(buf)@, r),
    {
        proof {
            assert(buf@.subrange(0, buf@.len() as int) =~= buf@);
        }
        match self.flush() {
            Err(e) => {
                proof {
                    lemma_passed_on_nothing(old(self)@, self@);
                    assert(buf@.subrange(buf@.len() as int, buf@.len() as int) =~= Seq::<
                        u8,
                    >::empty());
                }
                return Err(e);
            },
            Ok(()) => {},
        }
        self.inner.inner.read_until(byte, buf)
    }

    /// Flushes the output buffer, then appends the next line of the stream,
    /// newline included, to `buf`.
    #[inline]
    pub fn read_line(&mut self, buf: &mut String) -> (r: Result<usize, std::io::Error>)
        requires
            old(self).wf(),
        ensures
            final(self).wf(),
            read_line_done(old(self)@, final(self)@, old(buf)@, final(buf)@, r),
    {
        match self.flush() {
            Err(e) => {
                proof {
                    lemma_passed_on_nothing(old(self)@, self@);
                    assert(decode_utf8(Seq::<u8>::empty()) =~= Seq::<char>::empty());
                    assert(buf@ =~= old(buf)@ + decode_utf8(Seq::<u8>::empty()));
                    assert(line_read(old(self)@, self@, Seq::empty(), old(buf)@, buf@, Err(e)));
                }
                return Err(e);
            },
            Ok(()) => {},
        }
        let ghost mid = self@;
        let r = self.inner.inner.read_line(buf);
        proof {
            let line = choose|line: Seq<u8>| line_read(mid, self@, line, old(buf)@, buf@, r);
            assert(line_read(old(self)@, self@, line, old(buf)@, buf@, r));
        }
        r
    }

    /// Flushes the writer half, then reads the next line of the stream,
    /// without its line ending (`\n` or `\r\n`); `None` at the end of the
    /// stream. This is what `lines` gives, one line at a time.
    pub fn next_line(&mut self) -> (r: Option<Result<String, std::io::Error>>)
        requires
            old(self).wf(),
        ensures
            final(self).wf(),
            next_line_done(old(self)@, final(self)@, r),
            old(self)@.pending.len() == 0 && reads_known(old(self)@) ==> next_line_known(
                old(self)@,
                final(self)@,
                r,
            ) && final(self)@.pending.len() == 0,
    {
        match self.flush() {
            Err(e) => {
                let r = Some(Err(e));
                proof {
                    lemma_passed_on_nothing(old(self)@, self@);
                    assert(next_line_read(old(self)@, self@, Seq::empty(), r));
                }
                r
            },
            Ok(()) => {
                let ghost mid = self@;
                let r = self.inner.inner.next_line();
                proof {
                    let line = choose|line: Seq<u8>| next_line_read(mid, self@, line, r);
                    assert(next_line_read(old(self)@, self@, line, r));
                }
                r
            },
        }
    }

    /// The lines of the stream, without their line endings (`\n` or
    /// `\r\n`), up to its end: `next_line` until it gives `None`, as
    /// `std::io::BufRead::lines` gives them. An error is an entry of its own
    /// and reading goes on after it, so a stream that keeps failing keeps
    /// this from returning. The writer half is flushed before each line is
    /// read. When nothing waits to be written and what the stream's reads
    /// give up to its end is known, with no call failing, the entries are
    /// the lines of the buffered bytes and those reads ([`lines_of`]): one
    /// for each line, blank lines and a last line without `\n` included.
    pub fn lines(self) -> (r: Vec<Result<String, std::io::Error>>)
        requires
            self.wf(),
        ensures
            lines_read(r@),
            self@.pending.len() == 0 && reads_known(self@) && (self@.log.ahead)(1) == Some(
                Seq::<u8>::empty(),
            ) ==> lines_of(data_ahead(self@), r@),
            forall|i: int| #[trigger]
                first_at(self@.readable, NEWLINE, i) ==> r@.len() > 0 && first_line_read(
                    self@.readable.subrange(0, i + 1),
                    Some(r@[0]),
                ),
    {
        let ghost first = self@.readable;
        let ghost known = self@.pending.len() == 0 && reads_known(self@) && (self@.log.ahead)(1)
            == Some(Seq::<u8>::empty());
        let ghost data = data_ahead(self@);
        let ghost mut chunks: Seq<Seq<u8>> = Seq::empty();
        let mut this = self;
        let mut out: Vec<Result<String, std::io::Error>> = Vec::new();
        proof {
            if known {
                assert(chunks.flatten() + data_ahead(this@) =~= data);
            }
        }
        loop
            invariant
                this.wf(),
                lines_read(out@),
                known == (self@.pending.len() == 0 && reads_known(self@) && (self@.log.ahead)(1)
                    == Some(Seq::<u8>::empty())),
                data == data_ahead(self@),
                known ==> lines_so_far(data, chunks, out@, this@),
                first == self@.readable,
                out@.len() == 0 ==> this@.readable == first,
                out@.len() > 0 ==> forall|i: int| #[trigger]
                    first_at(first, NEWLINE, i) ==> first_line_read(
                        first.subrange(0, i + 1),
                        Some(out@[0]),
                    ),
            decreases usize::MAX - out@.len(),
        {
            let ghost before = this@;
            let next = this.next_line();
            let ghost step = next;
            proof {
                if known {
                    chunks = lemma_lines_step(data, chunks, out@, before, this@, step);
                }
            }
            match next {
                None => {
                    return out;
                },
                Some(Ok(line)) => {
                    out.push(Ok(line));
                },
                Some(Err(e)) => {
                    out.push(Err(e));
                },
            }
            // A vector's length is a `usize`: this bounds the number of rounds.
            let count = out.len();
            assert(count == out@.len());
        }
    }
}

} // verus!
