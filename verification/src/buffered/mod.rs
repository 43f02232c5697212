//! Buffering for half-duplex streams.
use crate::io::{
    calls_since, concat_bufs, ended_in_failure, extends, interrupted, lemma_concat_len,
    lemma_total_len_nonneg, lemma_total_len_prefix, lemma_sent_wrote, lemma_total_len_split,
    same_lengths, total_len, HalfDuplexIo, StreamCall, StreamLog,
};
use vstd::prelude::*;
use vstd::slice::slice_subrange;
use vstd::utf8::{decode_utf8, valid_utf8};

mod buf_duplexer;
mod buf_reader_line_writer;
pub mod laws;

pub use buf_duplexer::BufDuplexer;
pub use buf_reader_line_writer::BufReaderLineWriter;
pub(crate) use buf_duplexer::BufDuplexerBackend;

verus! {

/// The byte that ends a line, `\n`.
pub const NEWLINE: u8 = 10;

/// The byte that may stand before a line's `\n`, `\r`.
pub const CARRIAGE_RETURN: u8 = 13;

/// The capacity of each buffer of a [`BufDuplexer`] made by `new`.
pub const DEFAULT_BUF_SIZE: usize = 8192;

/// What a buffering stream holds, seen as values.
pub struct BufferState {
    /// Bytes accepted from the caller and not yet written to the stream.
    pub pending: Seq<u8>,
    /// How many bytes the writer buffer holds before it must be written out.
    pub writer_capacity: nat,
    /// Bytes read from the stream and not yet handed to the caller.
    pub readable: Seq<u8>,
    /// How many bytes one read from the stream may bring into the buffer.
    pub reader_capacity: nat,
    /// What the stream has taken and given so far.
    pub log: StreamLog,
    /// The calls made on the stream so far.
    pub calls: Seq<StreamCall>,
}

impl BufferState {
    /// Both buffers hold no more than their capacities.
    pub open spec fn within_capacity(self) -> bool {
        &&& self.pending.len() <= self.writer_capacity
        &&& self.readable.len() <= self.reader_capacity
    }
}

/// The error of an `into_inner` that could not write its buffer out,
/// together with the buffering value, so that nothing buffered is lost.
#[derive(Debug)]
pub struct IntoInnerError<W>(W, std::io::Error);

impl<W> IntoInnerError<W> {
    /// The buffering value that this error holds.
    pub closed spec fn writer(&self) -> W {
        self.0
    }

    /// The error that this error holds.
    pub closed spec fn io_error(&self) -> std::io::Error {
        self.1
    }

    /// Pairs a buffering value with the error that stopped its flush.
    pub fn new(writer: W, error: std::io::Error) -> (r: Self)
        ensures
            r.writer() == writer,
            r.io_error() == error,
    {
        IntoInnerError(writer, error)
    }

    /// The error that stopped the flush.
    pub fn error(&self) -> (r: &std::io::Error)
        ensures
            *r == self.io_error(),
    {
        &self.1
    }

    /// The buffering value, with what it could not write out.
    pub fn into_inner(self) -> (r: W)
        ensures
            r == self.writer(),
    {
        self.0
    }

    /// The error that stopped the flush, without the buffering value.
    pub fn into_error(self) -> (r: std::io::Error)
        ensures
            r == self.io_error(),
    {
        self.1
    }

    /// The buffering value and the error.
    pub fn into_parts(self) -> (r: (W, std::io::Error))
        ensures
            r.0 == self.writer(),
            r.1 == self.io_error(),
    {
        (self.0, self.1)
    }
}

/// `t` is what is left of `s` after some of its first bytes are gone.
pub open spec fn is_suffix(s: Seq<u8>, t: Seq<u8>) -> bool {
    t.len() <= s.len() && t =~= s.subrange(s.len() - t.len(), s.len() as int)
}

/// `i` is the position of the first `b` in `s`.
pub open spec fn first_at(s: Seq<u8>, b: u8, i: int) -> bool {
    &&& 0 <= i < s.len()
    &&& s[i] == b
    &&& forall|j: int| 0 <= j < i ==> s[j] != b
}

/// `line` holds no newline before its last byte.
pub open spec fn is_line(line: Seq<u8>) -> bool {
    forall|j: int| 0 <= j < line.len() - 1 ==> line[j] != NEWLINE
}

/// `s` holds no `b`.
pub open spec fn lacks(s: Seq<u8>, b: u8) -> bool {
    forall|j: int| 0 <= j < s.len() ==> s[j] != b
}

/// The position of the first `x` in `s`, if there is one.
pub fn memchr(x: u8, s: &[u8]) -> (r: Option<usize>)
    ensures
        match r {
            Some(i) => first_at(s@, x, i as int),
            None => lacks(s@, x),
        },
{
    let mut i: usize = 0;
    while i < s.len()
        invariant
            i <= s@.len(),
            forall|j: int| 0 <= j < i ==> s@[j] != x,
        decreases s@.len() - i,
    {
        if s[i] == x {
            return Some(i);
        }
        i = i + 1;
    }
    None
}

/// One past the position of the last `x` in `s`, or 0 when `s` holds none.
pub open spec fn last_end(s: Seq<u8>, x: u8) -> int
    decreases s.len(),
{
    if s.len() == 0 {
        0
    } else if s.last() == x {
        s.len() as int
    } else {
        last_end(s.drop_last(), x)
    }
}

/// `last_end` lies within `s`, right after an `x`, with no `x` after it.
pub proof fn lemma_last_end(s: Seq<u8>, x: u8)
    ensures
        0 <= last_end(s, x) <= s.len(),
        last_end(s, x) > 0 ==> s[last_end(s, x) - 1] == x,
        forall|j: int| last_end(s, x) <= j < s.len() ==> s[j] != x,
    decreases s.len(),
{
    if s.len() > 0 && s.last() != x {
        lemma_last_end(s.drop_last(), x);
        assert forall|j: int| last_end(s, x) <= j < s.len() implies s[j] != x by {
            if j < s.len() - 1 {
                assert(s.drop_last()[j] == s[j]);
            }
        }
    }
}

/// When no `x` stands at or after `i`, the last `x` of `s` is the last `x`
/// of its first `i` bytes.
proof fn lemma_last_end_prefix(s: Seq<u8>, x: u8, i: int)
    requires
        0 <= i <= s.len(),
        forall|j: int| i <= j < s.len() ==> s[j] != x,
    ensures
        last_end(s, x) == last_end(s.subrange(0, i), x),
    decreases s.len() - i,
{
    if i < s.len() {
        assert(s.drop_last().subrange(0, i) =~= s.subrange(0, i));
        lemma_last_end_prefix(s.drop_last(), x, i);
    } else {
        assert(s.subrange(0, i) =~= s);
    }
}

/// The position of the last `x` in `s`, if there is one.
pub fn memrchr(x: u8, s: &[u8]) -> (r: Option<usize>)
    ensures
        match r {
            Some(i) => i < s@.len() && last_end(s@, x) == i + 1,
            None => last_end(s@, x) == 0,
        },
{
    let mut i: usize = s.len();
    while i > 0
        invariant
            i <= s@.len(),
            forall|j: int| i <= j < s@.len() ==> s@[j] != x,
        decreases i,
    {
        if s[i - 1] == x {
            proof {
                lemma_last_end_prefix(s@, x, i as int);
            }
            return Some(i - 1);
        }
        i = i - 1;
    }
    proof {
        lemma_last_end_prefix(s@, x, 0);
    }
    None
}

/// The writer buffer once a line-buffered write has sent out a complete
/// line that it ends with.
pub open spec fn completed(p: Seq<u8>) -> Seq<u8> {
    if p.len() > 0 && p.last() == NEWLINE {
        Seq::empty()
    } else {
        p
    }
}

/// What a line-buffered write of `buf` buffers after the stream took
/// `flushed` bytes of its complete lines, the first `end` bytes, with room
/// for `cap` bytes: the rest of `buf` when all its lines went out; else the
/// rest of its lines when they fit; else as many whole lines as fit, or, when
/// not even one does, as many bytes as fit.
pub open spec fn line_tail(buf: Seq<u8>, flushed: int, end: int, cap: int) -> Seq<u8> {
    if flushed >= end {
        buf.subrange(flushed, buf.len() as int)
    } else if end - flushed <= cap {
        buf.subrange(flushed, end)
    } else {
        let scan = buf.subrange(flushed, flushed + cap);
        let k = last_end(scan, NEWLINE);
        if k > 0 {
            scan.subrange(0, k)
        } else {
            scan
        }
    }
}

/// The number of buffers of `bufs` up to and including the last one that
/// holds a newline, or 0 when none does.
pub open spec fn lines_end(bufs: Seq<&[u8]>) -> int
    decreases bufs.len(),
{
    if bufs.len() == 0 {
        0
    } else if last_end(bufs.last()@, NEWLINE) > 0 {
        bufs.len() as int
    } else {
        lines_end(bufs.drop_last())
    }
}

/// When no buffer from `i` on holds a newline, the last buffer with one is
/// among the first `i`.
proof fn lemma_lines_end_prefix(bufs: Seq<&[u8]>, i: int)
    requires
        0 <= i <= bufs.len(),
        forall|j: int| i <= j < bufs.len() ==> last_end(#[trigger] bufs[j]@, NEWLINE) == 0,
    ensures
        lines_end(bufs) == lines_end(bufs.subrange(0, i)),
    decreases bufs.len() - i,
{
    if i < bufs.len() {
        assert(bufs.drop_last().subrange(0, i) =~= bufs.subrange(0, i));
        lemma_lines_end_prefix(bufs.drop_last(), i);
    } else {
        assert(bufs.subrange(0, i) =~= bufs);
    }
}

/// The position of the last buffer of `bufs` that holds a newline.
fn last_newline_buf(bufs: &[&[u8]]) -> (r: Option<usize>)
    ensures
        match r {
            Some(i) => i < bufs@.len() && lines_end(bufs@) == i + 1,
            None => lines_end(bufs@) == 0,
        },
{
    let mut i: usize = bufs.len();
    while i > 0
        invariant
            i <= bufs@.len(),
            forall|j: int| i <= j < bufs@.len() ==> last_end(#[trigger] bufs@[j]@, NEWLINE) == 0,
        decreases i,
    {
        match memrchr(NEWLINE, bufs[i - 1]) {
            Some(_) => {
                proof {
                    lemma_lines_end_prefix(bufs@, i as int);
                    assert(bufs@.subrange(0, i as int).drop_last() =~= bufs@.subrange(
                        0,
                        i as int - 1,
                    ));
                }
                return Some(i - 1);
            },
            None => {},
        }
        i = i - 1;
    }
    proof {
        lemma_lines_end_prefix(bufs@, 0);
    }
    None
}

/// Tells whether the buffers of `bufs` hold `n` bytes in all.
fn total_is(bufs: &[&[u8]], n: usize) -> (r: bool)
    ensures
        r == (total_len(bufs@) == n),
{
    let mut left: usize = n;
    let mut i: usize = 0;
    while i < bufs.len()
        invariant
            i <= bufs@.len(),
            left + total_len(bufs@.subrange(0, i as int)) == n,
        decreases bufs@.len() - i,
    {
        proof {
            assert(bufs@.subrange(0, i as int + 1).drop_last() =~= bufs@.subrange(0, i as int));
        }
        let len = bufs[i].len();
        if len > left {
            proof {
                lemma_total_len_prefix(bufs@, i as int + 1);
            }
            return false;
        }
        left = left - len;
        i = i + 1;
    }
    proof {
        assert(bufs@.subrange(0, bufs@.len() as int) =~= bufs@);
    }
    left == 0
}

/// Bytes without a newline, `len` of them, are taken into the writer buffer
/// of `before` whole by a line-buffered write: the buffer does not end with
/// a complete line, and the bytes fit beside what it holds and are fewer
/// than it can hold.
pub open spec fn fits_partial_line(before: BufferState, len: int) -> bool {
    &&& completed(before.pending) == before.pending
    &&& before.pending.len() + len <= before.writer_capacity
    &&& len < before.writer_capacity
}

/// What a line-buffered `write` of `buf` from the buffers `before` leaves
/// in `after` and returns in `r`.
pub open spec fn line_write_done(
    before: BufferState,
    after: BufferState,
    buf: Seq<u8>,
    r: Result<usize, std::io::Error>,
) -> bool {
    let cap = before.writer_capacity;
    let end = last_end(buf, NEWLINE);
    &&& errs_from_stream(before, after, r)
    &&& after.writer_capacity == cap
    &&& after.readable == before.readable
    &&& after.reader_capacity == before.reader_capacity
    &&& writes_only(before, after)
    &&& r is Err ==> taken(after) == taken(before)
    &&& r matches Ok(n) ==> taken(after) == taken(before) + buf.subrange(0, n as int)
    &&& r is Err ==> is_suffix(before.pending, after.pending)
    &&& end == 0 && buf.len() >= cap ==> (r matches Ok(n) ==> after.log.writes.last()
        == buf.subrange(0, n as int))
    &&& end > 0 ==> (r matches Ok(n) ==> n > after.pending.len() ==> after.log.writes.last()
        == buf.subrange(0, n - after.pending.len()))
    &&& end == 0 && buf.len() >= cap && r is Ok ==> last_write_of(after.calls, buf, r)
    &&& end > 0 ==> (r matches Ok(n) ==> after.calls.last() == (StreamCall::Write {
        offered: buf.subrange(0, end),
        outcome: Ok((n - after.pending.len()) as usize),
    }))
    &&& end == 0 ==> (r matches Ok(n) ==> if buf.len() >= cap {
        n <= buf.len() && after.pending.len() == 0
    } else {
        n == buf.len() && after.pending == pending_before_write(
            BufferState { pending: completed(before.pending), ..before },
            buf.len() as int,
        ) + buf
    })
    &&& end > 0 ==> (r matches Ok(n) ==> {
        let flushed = n - after.pending.len();
        let tail = line_tail(buf, flushed, end, cap as int);
        ||| n == 0 && after.pending.len() == 0
        ||| 0 < flushed <= end && after.pending == tail.subrange(
            0,
            min(cap as int, tail.len() as int),
        )
    })
}

/// What a line-buffered `write_all` of `buf` from the buffers `before`
/// leaves in `after` and returns in `r`.
pub open spec fn line_write_all_done(
    before: BufferState,
    after: BufferState,
    buf: Seq<u8>,
    r: Result<(), std::io::Error>,
) -> bool {
    let cap = before.writer_capacity;
    let end = last_end(buf, NEWLINE);
    let tail = buf.subrange(end, buf.len() as int);
    &&& errs_from_stream(before, after, r)
    &&& after.writer_capacity == cap
    &&& after.readable == before.readable
    &&& after.reader_capacity == before.reader_capacity
    &&& writes_only(before, after)
    &&& exists|k: int|
        0 <= k <= buf.len() && taken(after) == taken(before) + buf.subrange(0, k) && (r is Ok
            ==> k == buf.len())
    &&& end == 0 ==> match r {
        Ok(()) => if buf.len() >= cap {
            after.pending.len() == 0
        } else {
            after.pending == pending_before_write(
                BufferState { pending: completed(before.pending), ..before },
                buf.len() as int,
            ) + buf
        },
        Err(_) => is_suffix(before.pending, after.pending),
    }
    &&& end > 0 ==> match r {
        Ok(()) => after.pending == if tail.len() >= cap {
            Seq::empty()
        } else {
            tail
        },
        Err(_) => is_suffix(before.pending, after.pending) || is_suffix(
            before.pending + buf.subrange(0, end),
            after.pending,
        ),
    }
}

/// What a line-buffered `write_vectored` of `bufs` from the buffers
/// `before` leaves in `after` and returns in `r`.
pub open spec fn line_write_vectored_done(
    before: BufferState,
    after: BufferState,
    bufs: Seq<&[u8]>,
    r: Result<usize, std::io::Error>,
) -> bool {
    let cap = before.writer_capacity;
    let end = lines_end(bufs);
    let lines = bufs.subrange(0, end);
    let tail = concat_bufs(bufs.subrange(end, bufs.len() as int));
    &&& errs_from_stream(before, after, r)
    &&& after.writer_capacity == cap
    &&& after.readable == before.readable
    &&& after.reader_capacity == before.reader_capacity
    &&& writes_only(before, after)
    &&& r is Err ==> taken(after) == taken(before)
    &&& r matches Ok(n) ==> taken(after) == taken(before) + concat_bufs(bufs).subrange(
        0,
        n as int,
    )
    &&& r is Err ==> is_suffix(before.pending, after.pending)
    &&& end > 0 ==> (r matches Ok(n) ==> n > after.pending.len() ==> after.log.writes.last()
        == concat_bufs(bufs).subrange(0, n - after.pending.len()))
    &&& end == 0 ==> (r matches Ok(n) ==> if total_len(bufs) >= cap {
        n <= total_len(bufs) && after.pending.len() == 0
    } else {
        n == total_len(bufs) && after.pending == pending_before_write(
            BufferState { pending: completed(before.pending), ..before },
            total_len(bufs),
        ) + concat_bufs(bufs)
    })
    &&& end > 0 ==> (r matches Ok(n) ==> {
        ||| n < total_len(lines) && after.pending.len() == 0
        ||| n == total_len(lines) + after.pending.len() && after.pending == tail.subrange(
            0,
            min(cap as int, tail.len() as int),
        )
    })
}

/// The outcome, as a count of bytes, of a call that gives the bytes now
/// in the reader buffer.
pub open spec fn slice_outcome(r: Result<&[u8], std::io::Error>) -> Result<usize, std::io::Error> {
    match r {
        Ok(s) => Ok(s@.len() as usize),
        Err(e) => Err(e),
    }
}

/// How much buffer space a read into `len` bytes, with a reader buffer of
/// `cap` bytes that is empty, hands to the stream: `len` bytes when it is
/// at least the buffer's size (the read goes straight into the
/// destination), and otherwise the whole reader buffer, refilled.
pub open spec fn read_room(len: int, cap: nat) -> nat {
    if len >= cap {
        len as nat
    } else {
        cap
    }
}

/// How much buffer space the last of the calls `calls` handed to the
/// stream, when it is a read (and -1 otherwise).
pub open spec fn last_read_room(calls: Seq<StreamCall>) -> int {
    match calls.last() {
        StreamCall::Read { room, .. } => room as int,
        _ => -1,
    }
}

/// `room` is how much buffer space a vectored read into `total` bytes, with
/// an empty reader buffer of `cap` bytes, hands to the stream: the whole
/// reader buffer when `total` is smaller, and otherwise (the read goes
/// straight into the destinations) no more than `total`.
pub open spec fn vectored_room(room: int, total: int, cap: nat) -> bool {
    &&& total < cap ==> room == cap
    &&& total >= cap ==> 0 <= room <= total
}

/// The calls `after` are the calls `before` and one read, into `room`
/// bytes, that succeeded exactly when `ok`.
pub open spec fn one_read(before: Seq<StreamCall>, after: Seq<StreamCall>, room: nat, ok: bool) -> bool {
    &&& after.len() == before.len() + 1
    &&& extends(before, after)
    &&& after.last() matches StreamCall::Read { room: m, outcome } && m == room && (outcome is Ok
        <==> ok)
}

/// The last of the calls `calls` was a write that was offered a first part
/// of `bytes` and ended with `r`.
pub open spec fn last_write_of(
    calls: Seq<StreamCall>,
    bytes: Seq<u8>,
    r: Result<usize, std::io::Error>,
) -> bool {
    &&& calls.len() > 0
    &&& calls.last() matches StreamCall::Write { offered, outcome } && outcome == r
        && offered.len() <= bytes.len() && offered == bytes.subrange(0, offered.len() as int)
}

/// What reading from the buffers `s` gives is known: a read can bring bytes
/// into the reader buffer, no call on the stream will fail, and the
/// stream's reads come to an end.
pub open spec fn reads_known(s: BufferState) -> bool {
    &&& s.reader_capacity > 0
    &&& s.log.faults == Some(0nat)
    &&& (s.log.ahead)(0) is Some
}

/// The bytes that reading from the buffers `s` gives before the stream's
/// next end: those in the reader buffer, then those that its reads give.
pub open spec fn data_ahead(s: BufferState) -> Seq<u8> {
    s.readable + (s.log.ahead)(0)->Some_0
}

/// From the log `before` to the log `after` no end of the stream was
/// passed: what reads give after its next end is as it was.
pub open spec fn same_later(before: StreamLog, after: StreamLog) -> bool {
    forall|k: nat| k >= 1 ==> #[trigger] (after.ahead)(k) == (before.ahead)(k)
}

/// From the log `before` to the log `after` one end of the stream was
/// passed.
pub open spec fn passed_end(before: StreamLog, after: StreamLog) -> bool {
    forall|k: nat| #[trigger] (after.ahead)(k) == (before.ahead)(k + 1)
}

/// What reading up to `byte`, from the buffers `before` to `after`,
/// appending `added`, with result `r`, does when what reads give is known:
/// it succeeds; it appends the bytes ahead up to and including the first
/// `byte` and leaves the rest ahead; when there is no `byte` before the
/// stream's end, it appends all that is ahead and passes that end.
pub open spec fn until_read(
    before: BufferState,
    after: BufferState,
    byte: u8,
    added: Seq<u8>,
    r: Result<usize, std::io::Error>,
) -> bool {
    let data = data_ahead(before);
    &&& r is Ok
    &&& after.log.faults == Some(0nat)
    &&& forall|i: int| #[trigger]
        first_at(data, byte, i) ==> {
            &&& added == data.subrange(0, i + 1)
            &&& (after.log.ahead)(0) is Some
            &&& data_ahead(after) == data.subrange(i + 1, data.len() as int)
            &&& same_later(before.log, after.log)
        }
    &&& lacks(data, byte) ==> {
        &&& added == data
        &&& after.readable.len() == 0
        &&& passed_end(before.log, after.log)
    }
}

/// A sequence that holds `b` holds a first `b`.
pub proof fn lemma_first_at_exists(s: Seq<u8>, b: u8)
    requires
        !lacks(s, b),
    ensures
        exists|i: int| first_at(s, b, i),
    decreases s.len(),
{
    let t = s.drop_last();
    assert forall|j: int| 0 <= j < t.len() implies t[j] == s[j] by {}
    if lacks(t, b) {
        let j = choose|j: int| 0 <= j < s.len() && s[j] == b;
        if j < s.len() - 1 {
            assert(t[j] == s[j]);
        }
        assert(first_at(s, b, s.len() - 1));
    } else {
        lemma_first_at_exists(t, b);
        let i = choose|i: int| first_at(t, b, i);
        assert forall|j: int| 0 <= j < i implies s[j] != b by {
            assert(t[j] == s[j]);
        }
        assert(first_at(s, b, i));
    }
}

/// `text` is the line `chunk` without its line ending: without a final
/// `\r\n`, or without a final `\n` that no `\r` comes before, or all of
/// `chunk` when it holds no `\n`.
pub open spec fn line_text(chunk: Seq<u8>, text: Seq<u8>) -> bool {
    ||| chunk == text + seq![CARRIAGE_RETURN, NEWLINE]
    ||| chunk == text + seq![NEWLINE] && (text.len() == 0 || text.last() != CARRIAGE_RETURN)
    ||| chunk == text && lacks(chunk, NEWLINE)
}

/// `chunk` is a line of a stream: it ends with its only `\n`, or, when it
/// is the last line (`last`), it may instead hold no `\n` at all.
pub open spec fn is_line_chunk(chunk: Seq<u8>, last: bool) -> bool {
    &&& chunk.len() > 0
    &&& (chunk.last() == NEWLINE && lacks(chunk.drop_last(), NEWLINE)) || (last && lacks(
        chunk,
        NEWLINE,
    ))
}

/// `e` is what reading the line `chunk` gives: its text, when that is
/// valid UTF-8, and an error otherwise.
pub open spec fn gives_line(chunk: Seq<u8>, e: Result<String, std::io::Error>) -> bool {
    exists|text: Seq<u8>|
        #![trigger line_text(chunk, text)]
        line_text(chunk, text) && match e {
            Ok(s) => valid_utf8(text) && s@ == decode_utf8(text),
            Err(_) => !valid_utf8(text),
        }
}

/// `entries` are the lines of `data`, one entry for each line, in order:
/// cut into lines, `data` gives them, the last line included when it has
/// no `\n`, and blank lines included.
pub open spec fn lines_of(data: Seq<u8>, entries: Seq<Result<String, std::io::Error>>) -> bool {
    exists|chunks: Seq<Seq<u8>>|
        #![trigger chunks.flatten(), chunks.len()]
        {
            &&& chunks.len() == entries.len()
            &&& chunks.flatten() == data
            &&& forall|k: int|
                0 <= k < chunks.len() ==> is_line_chunk(#[trigger] chunks[k], k == chunks.len() - 1)
                    && gives_line(chunks[k], entries[k])
        }
}

/// Reading lines from `data` has so far given `entries`, cut from `data` as
/// the lines `chunks`, and left the buffers `s`, from which the rest of
/// `data` is ahead; while bytes are ahead, the stream's next end is
/// followed at once by another.
pub open spec fn lines_so_far(
    data: Seq<u8>,
    chunks: Seq<Seq<u8>>,
    entries: Seq<Result<String, std::io::Error>>,
    s: BufferState,
) -> bool {
    &&& s.pending.len() == 0
    &&& reads_known(s)
    &&& chunks.len() == entries.len()
    &&& chunks.flatten() + data_ahead(s) == data
    &&& forall|k: int|
        0 <= k < chunks.len() ==> is_line_chunk(#[trigger] chunks[k], k == chunks.len() - 1)
            && gives_line(chunks[k], entries[k])
    &&& chunks.len() > 0 && lacks(chunks.last(), NEWLINE) ==> data_ahead(s).len() == 0
    &&& data_ahead(s).len() > 0 ==> (s.log.ahead)(1) == Some(Seq::<u8>::empty())
}

/// One more line read: when it gives nothing, the entries are the lines of
/// `data`; otherwise its entry, and the line it was cut from, follow.
pub proof fn lemma_lines_step(
    data: Seq<u8>,
    chunks: Seq<Seq<u8>>,
    entries: Seq<Result<String, std::io::Error>>,
    before: BufferState,
    after: BufferState,
    r: Option<Result<String, std::io::Error>>,
) -> (chunks2: Seq<Seq<u8>>)
    requires
        lines_so_far(data, chunks, entries, before),
        next_line_known(before, after, r),
        after.pending.len() == 0,
    ensures
        r is None ==> lines_of(data, entries),
        r matches Some(e) ==> lines_so_far(data, chunks2, entries.push(e), after),
{
    let d = data_ahead(before);
    if d.len() == 0 {
        assert(chunks.flatten() =~= data);
        chunks
    } else {
        let e = r->Some_0;
        let c = if lacks(d, NEWLINE) {
            d
        } else {
            lemma_first_at_exists(d, NEWLINE);
            let i = choose|i: int| first_at(d, NEWLINE, i);
            assert(d.subrange(0, i + 1).drop_last() =~= d.subrange(0, i));
            d.subrange(0, i + 1)
        };
        let chunks2 = chunks.push(c);
        chunks.lemma_flatten_push(c);
        let entries2 = entries.push(e);
        if lacks(d, NEWLINE) {
            assert(chunks2.flatten() + data_ahead(after) =~= data);
        } else {
            let i = choose|i: int| first_at(d, NEWLINE, i);
            assert(c + d.subrange(i + 1, d.len() as int) =~= d);
            assert(chunks2.flatten() + data_ahead(after) =~= data);
        }
        assert forall|k: int|
            0 <= k < chunks2.len() implies is_line_chunk(#[trigger] chunks2[k], k == chunks2.len()
            - 1) && gives_line(chunks2[k], entries2[k]) by {
            if k < chunks.len() {
                assert(chunks2[k] == chunks[k]);
                assert(entries2[k] == entries[k]);
            }
        }
        chunks2
    }
}

/// What reading the next line from the buffers `before` to `after`, with
/// result `r`, does when what reads give is known: nothing at the stream's
/// end; otherwise the line up to and including the first `\n`, or up to
/// the stream's end, which it then passes.
pub open spec fn next_line_known(
    before: BufferState,
    after: BufferState,
    r: Option<Result<String, std::io::Error>>,
) -> bool {
    let data = data_ahead(before);
    &&& after.log.faults == Some(0nat)
    &&& after.reader_capacity == before.reader_capacity
    &&& data.len() == 0 ==> r is None && after.readable.len() == 0 && passed_end(
        before.log,
        after.log,
    )
    &&& forall|i: int| #[trigger]
        first_at(data, NEWLINE, i) ==> {
            &&& r matches Some(e) && gives_line(data.subrange(0, i + 1), e)
            &&& (after.log.ahead)(0) is Some
            &&& data_ahead(after) == data.subrange(i + 1, data.len() as int)
            &&& same_later(before.log, after.log)
        }
    &&& data.len() > 0 && lacks(data, NEWLINE) ==> {
        &&& r matches Some(e) && gives_line(data, e)
        &&& after.readable.len() == 0
        &&& passed_end(before.log, after.log)
    }
}

/// How many bytes the writes among `calls` took.
pub open spec fn bytes_taken(calls: Seq<StreamCall>) -> nat
    decreases calls.len(),
{
    if calls.len() == 0 {
        0
    } else {
        bytes_taken(calls.drop_last()) + match calls.last() {
            StreamCall::Write { outcome: Ok(n), .. } => n as nat,
            _ => 0,
        }
    }
}

/// One more call adds what it took to what the calls took.
pub proof fn lemma_bytes_taken_push(calls: Seq<StreamCall>, c: StreamCall)
    ensures
        bytes_taken(calls.push(c)) == bytes_taken(calls) + match c {
            StreamCall::Write { outcome: Ok(n), .. } => n as nat,
            _ => 0,
        },
{
    assert(calls.push(c).drop_last() =~= calls);
}

/// After the call `c`, writing a buffer out goes on: `c` was a write that
/// took some bytes, or that was interrupted.
pub open spec fn went_on(c: StreamCall) -> bool {
    match c {
        StreamCall::Write { outcome: Ok(n), .. } => n > 0,
        StreamCall::Write { outcome: Err(e), .. } => interrupted(e),
        _ => false,
    }
}

/// The calls `calls` are the writes made to send `bytes` out: each one was
/// offered the bytes that the ones before it had not taken, and each one
/// but the last took some bytes or was interrupted.
pub open spec fn sends_of(bytes: Seq<u8>, calls: Seq<StreamCall>) -> bool {
    forall|i: int|
        0 <= i < calls.len() ==> {
            &&& #[trigger] calls[i] matches StreamCall::Write { offered, .. } && offered
                == bytes.subrange(bytes_taken(calls.subrange(0, i)) as int, bytes.len() as int)
            &&& i < calls.len() - 1 ==> went_on(calls[i])
        }
}

/// One more write, offered what the writes so far left of `bytes`, extends
/// the sends of `bytes`, when the last write so far went on.
pub proof fn lemma_sends_of_push(bytes: Seq<u8>, calls: Seq<StreamCall>, c: StreamCall)
    requires
        sends_of(bytes, calls),
        calls.len() > 0 ==> went_on(calls.last()),
        bytes_taken(calls) <= bytes.len(),
        c matches StreamCall::Write { offered, .. } && offered == bytes.subrange(
            bytes_taken(calls) as int,
            bytes.len() as int,
        ),
    ensures
        sends_of(bytes, calls.push(c)),
{
    let calls1 = calls.push(c);
    assert forall|i: int| 0 <= i < calls1.len() implies {
        &&& #[trigger] calls1[i] matches StreamCall::Write { offered, .. } && offered
            == bytes.subrange(bytes_taken(calls1.subrange(0, i)) as int, bytes.len() as int)
        &&& i < calls1.len() - 1 ==> went_on(calls1[i])
    } by {
        if i < calls.len() {
            let ci = calls[i];
            assert(calls1[i] == ci);
            assert(calls1.subrange(0, i) =~= calls.subrange(0, i));
            if i == calls.len() - 1 {
                assert(calls.last() == ci);
            }
        } else {
            assert(calls1.subrange(0, i) =~= calls);
        }
    }
}

/// What writing the bytes `pending` out did, from the stream's calls
/// `before` to its calls `after`, leaving the bytes `rest` unsent, with
/// result `r`: the writes were the sends of `pending`; what they took left
/// the front of `pending`; it succeeded exactly when all was taken, and
/// otherwise its last write failed with the error returned (an interrupted
/// one only after more than `u64::MAX` calls) or took nothing.
pub open spec fn sent_out(
    pending: Seq<u8>,
    before: Seq<StreamCall>,
    after: Seq<StreamCall>,
    rest: Seq<u8>,
    r: Result<(), std::io::Error>,
) -> bool {
    let since = calls_since(before, after);
    &&& extends(before, after)
    &&& sends_of(pending, since)
    &&& bytes_taken(since) <= pending.len()
    &&& rest == pending.subrange(bytes_taken(since) as int, pending.len() as int)
    &&& r is Ok <==> rest.len() == 0
    &&& r matches Err(e) ==> ended_in_failure(before, after, e)
    &&& r is Err ==> (after.last() matches StreamCall::Write { outcome: Err(e2), .. } ==> (
    !interrupted(e2) || since.len() > u64::MAX))
}

/// From `before` to `after` the stream's earlier calls are kept, and when
/// the result `r` is an error, the last call made failed with it (or was a
/// write that took nothing): no error comes without a stream call that
/// failed.
pub open spec fn errs_from_stream<T>(
    before: BufferState,
    after: BufferState,
    r: Result<T, std::io::Error>,
) -> bool {
    &&& extends(before.calls, after.calls)
    &&& r matches Err(e) ==> ended_in_failure(before.calls, after.calls, e)
}

/// What flushing did, from the stream's calls `before` to its calls
/// `after`, with the writer buffer holding `pending` and then `rest`, with
/// result `r`: `pending` was written out as [`sent_out`] says; when that
/// failed, nothing more was done; otherwise the stream's `flush` was called
/// once, last, and its result is `r`.
pub open spec fn flushed_out(
    pending: Seq<u8>,
    before: Seq<StreamCall>,
    after: Seq<StreamCall>,
    rest: Seq<u8>,
    r: Result<(), std::io::Error>,
) -> bool {
    ||| r is Err && sent_out(pending, before, after, rest, r)
    ||| {
        &&& rest.len() == 0
        &&& after.len() > 0
        &&& sent_out(pending, before, after.drop_last(), rest, Ok(()))
        &&& after.last() == (StreamCall::Flush { result: r })
    }
}

/// What the writer half has taken so far: the bytes that the stream was
/// sent, followed by those still in the writer buffer.
pub open spec fn taken(state: BufferState) -> Seq<u8> {
    state.log.sent() + state.pending
}

/// Between `before` and `after` the stream was only written to: no read and
/// no flush of it was made.
pub open spec fn writes_only(before: BufferState, after: BufferState) -> bool {
    &&& after.log.reads == before.log.reads
    &&& after.log.flushes == before.log.flushes
}

/// What a flush from the buffers `before` leaves in `after`, with result
/// `r`: the writer buffer loses what was sent, all of it on success, and
/// nothing else changes.
pub open spec fn flush_done(before: BufferState, after: BufferState, r: Result<(), std::io::Error>) -> bool {
    &&& after.writer_capacity == before.writer_capacity
    &&& after.readable == before.readable
    &&& after.reader_capacity == before.reader_capacity
    &&& is_suffix(before.pending, after.pending)
    &&& taken(after) == taken(before)
    &&& after.log.reads == before.log.reads
    &&& match r {
        Ok(()) => after.pending.len() == 0 && after.log.flushes == before.log.flushes + 1,
        Err(_) => after.log.flushes == before.log.flushes,
    }
    &&& errs_from_stream(before, after, r)
    &&& flushed_out(before.pending, before.calls, after.calls, after.pending, r)
    &&& before.pending.len() == 0 && before.log.faults == Some(0nat) ==> r is Ok && after.log
        == before.log.flushed()
}

/// The writer half of an operation that first flushes the writer buffer
/// and the stream, from `before` to `after`: nothing taken is lost or added,
/// and when the operation succeeds the buffer was sent and the stream
/// flushed once.
pub open spec fn flushed_first(before: BufferState, after: BufferState, ok: bool) -> bool {
    &&& after.writer_capacity == before.writer_capacity
    &&& after.reader_capacity == before.reader_capacity
    &&& is_suffix(before.pending, after.pending)
    &&& taken(after) == taken(before)
    &&& ok ==> after.pending.len() == 0 && after.log.flushes == before.log.flushes + 1
}

/// Between `before` and `after` the stream was only read from: the writer
/// half and the stream's writes and flushes stay as they were.
pub open spec fn reads_only(before: BufferState, after: BufferState) -> bool {
    &&& after.pending == before.pending
    &&& after.writer_capacity == before.writer_capacity
    &&& after.reader_capacity == before.reader_capacity
    &&& after.log.writes == before.log.writes
    &&& after.log.flushes == before.log.flushes
}

/// The reads of the stream made between `before` and `after`.
pub open spec fn new_reads(before: BufferState, after: BufferState) -> Seq<Seq<u8>> {
    after.log.reads.subrange(before.log.reads.len() as int, after.log.reads.len() as int)
}

/// The stream's reads from `before` to `after` only add to its log, and
/// what the reader buffer held, followed by what those reads gave, is
/// `delivered`, the bytes handed out, followed by what the reader buffer
/// holds: no byte is lost, repeated or reordered.
pub open spec fn passed_on(before: BufferState, after: BufferState, delivered: Seq<u8>) -> bool {
    &&& after.log.reads.len() >= before.log.reads.len()
    &&& after.log.reads.subrange(0, before.log.reads.len() as int) == before.log.reads
    &&& before.readable + new_reads(before, after).flatten() == delivered + after.readable
}

/// The last read of the stream between `before` and `after` gave nothing:
/// the stream is at its end, and the reader buffer is empty.
pub open spec fn end_seen(before: BufferState, after: BufferState) -> bool {
    &&& new_reads(before, after).len() > 0
    &&& new_reads(before, after).last().len() == 0
    &&& after.readable.len() == 0
}

/// A read of the stream that refills an empty reader buffer keeps the
/// bytes passed on in order.
pub proof fn lemma_passed_on_refill(
    before: BufferState,
    mid: BufferState,
    after: BufferState,
    delivered: Seq<u8>,
)
    requires
        passed_on(before, mid, delivered),
        mid.readable.len() == 0,
        after.log.reads == mid.log.reads.push(after.readable),
    ensures
        passed_on(before, after, delivered),
{
    assert(new_reads(before, after) =~= new_reads(before, mid).push(after.readable));
    new_reads(before, mid).lemma_flatten_push(after.readable);
    assert(after.log.reads.subrange(0, before.log.reads.len() as int) =~= before.log.reads);
    assert(before.readable + new_reads(before, after).flatten() =~= delivered + after.readable);
}

/// Handing out the first `used` bytes of the reader buffer keeps the bytes
/// passed on in order.
pub proof fn lemma_passed_on_hand_out(
    before: BufferState,
    mid: BufferState,
    after: BufferState,
    delivered: Seq<u8>,
    used: int,
)
    requires
        passed_on(before, mid, delivered),
        0 <= used <= mid.readable.len(),
        after.readable == mid.readable.subrange(used, mid.readable.len() as int),
        after.log.reads == mid.log.reads,
    ensures
        passed_on(before, after, delivered + mid.readable.subrange(0, used)),
{
    assert(new_reads(before, after) == new_reads(before, mid));
    assert(delivered + mid.readable =~= delivered + mid.readable.subrange(0, used)
        + after.readable);
}

/// What a read that first flushes the writer buffer leaves, from the
/// buffers `before` and a destination holding `old_buf`, in the buffers
/// `after` and the destination `new_buf`, with result `r`. When the flush
/// fails, so that the stream was not flushed, nothing is read: the
/// destination and the reader buffer stay as they were.
pub open spec fn read_done(
    before: BufferState,
    after: BufferState,
    old_buf: Seq<u8>,
    new_buf: Seq<u8>,
    r: Result<usize, std::io::Error>,
) -> bool {
    let len = old_buf.len() as int;
    &&& errs_from_stream(before, after, r)
    &&& before.readable.len() == 0 && r is Ok ==> after.calls.len() > 0 && last_read_room(
        after.calls,
    ) == read_room(len, before.reader_capacity)
    &&& flushed_first(before, after, r is Ok)
    &&& new_buf.len() == len
    &&& before.readable.len() == 0 ==> (r matches Ok(n) ==> after.log.reads
        == before.log.reads.push(new_buf.subrange(0, n as int) + after.readable))
    &&& r is Err ==> after.log.reads == before.log.reads && ((after.readable == before.readable
        && new_buf == old_buf) || (before.readable.len() == 0 && after.readable.len() == 0))
    &&& r is Err && after.log.flushes == before.log.flushes ==> new_buf == old_buf
        && after.readable == before.readable
    &&& before.readable.len() == 0 && len >= before.reader_capacity ==> after.readable.len() == 0
    &&& before.readable.len() > 0 && r is Ok ==> {
        let n = min(len, before.readable.len() as int);
        &&& r matches Ok(k) && k == n
        &&& new_buf =~= before.readable.subrange(0, n) + old_buf.subrange(n, len)
        &&& after.readable =~= before.readable.subrange(n, before.readable.len() as int)
        &&& after.log.reads == before.log.reads
    }
    &&& r matches Ok(n) ==> n <= len && (after.readable.len() > 0 ==> n == len)
    &&& len < before.reader_capacity ==> (r matches Ok(n) ==> new_buf.subrange(n as int, len)
        =~= old_buf.subrange(n as int, len))
}

/// What a vectored read that first flushes the writer buffer leaves, from
/// the buffers `before` and destinations holding `old_bufs`, in the buffers
/// `after` and the destinations `new_bufs`, with result `r`. The
/// destinations are filled in order, as if they were one.
pub open spec fn read_vectored_done(
    before: BufferState,
    after: BufferState,
    old_bufs: Seq<Seq<u8>>,
    new_bufs: Seq<Seq<u8>>,
    r: Result<usize, std::io::Error>,
) -> bool {
    let total = old_bufs.flatten().len() as int;
    &&& errs_from_stream(before, after, r)
    &&& before.readable.len() == 0 && r is Ok ==> after.calls.len() > 0 && vectored_room(
        last_read_room(after.calls),
        total,
        before.reader_capacity,
    )
    &&& flushed_first(before, after, r is Ok)
    &&& same_lengths(old_bufs, new_bufs)
    &&& before.readable.len() == 0 ==> (r matches Ok(n) ==> after.log.reads
        == before.log.reads.push(new_bufs.flatten().subrange(0, n as int) + after.readable))
    &&& r is Err ==> after.log.reads == before.log.reads && ((after.readable == before.readable
        && new_bufs == old_bufs) || (before.readable.len() == 0 && after.readable.len() == 0))
    &&& r is Err && after.log.flushes == before.log.flushes ==> new_bufs == old_bufs
        && after.readable == before.readable
    &&& before.readable.len() == 0 && total >= before.reader_capacity ==> after.readable.len()
        == 0
    &&& before.readable.len() > 0 && r is Ok ==> {
        let n = min(total, before.readable.len() as int);
        &&& r matches Ok(k) && k == n
        &&& new_bufs.flatten() =~= before.readable.subrange(0, n) + old_bufs.flatten().subrange(
            n,
            total,
        )
        &&& after.readable =~= before.readable.subrange(n, before.readable.len() as int)
        &&& after.log.reads == before.log.reads
    }
    &&& r matches Ok(n) ==> n <= total && (after.readable.len() > 0 ==> n == total)
    &&& total < before.reader_capacity ==> (r matches Ok(n) ==> new_bufs.flatten().subrange(
        n as int,
        total,
    ) =~= old_bufs.flatten().subrange(n as int, total))
}

/// What a `read_until(byte, ..)` that first flushes the writer buffer
/// leaves, from the buffers `before` and a vector holding `old_buf`, in the
/// buffers `after` and the vector `new_buf`, with result `r`.
pub open spec fn read_until_done(
    before: BufferState,
    after: BufferState,
    byte: u8,
    old_buf: Seq<u8>,
    new_buf: Seq<u8>,
    r: Result<usize, std::io::Error>,
) -> bool {
    let added = new_buf.subrange(old_buf.len() as int, new_buf.len() as int);
    &&& errs_from_stream(before, after, r)
    &&& flushed_first(before, after, r is Ok)
    &&& new_buf.len() >= old_buf.len()
    &&& new_buf.subrange(0, old_buf.len() as int) =~= old_buf
    &&& forall|j: int| 0 <= j < added.len() - 1 ==> added[j] != byte
    &&& passed_on(before, after, added)
    &&& r matches Ok(n) ==> n == added.len() && ((n > 0 && added.last() == byte) || end_seen(
        before,
        after,
    ))
    &&& forall|i: int| #[trigger]
        first_at(before.readable, byte, i) ==> (r is Ok ==> {
            &&& r matches Ok(n) && n == i + 1
            &&& new_buf =~= old_buf + before.readable.subrange(0, i + 1)
            &&& after.readable =~= before.readable.subrange(i + 1, before.readable.len() as int)
        })
}

/// `line` is the line that a `read_line` from the buffers `before` to
/// `after`, into a string that held `old_buf` and holds `new_buf`, took from
/// the stream: the bytes passed on, up to a newline or the stream's end,
/// added to the string when they are valid UTF-8 and an error otherwise.
pub open spec fn line_read(
    before: BufferState,
    after: BufferState,
    line: Seq<u8>,
    old_buf: Seq<char>,
    new_buf: Seq<char>,
    r: Result<usize, std::io::Error>,
) -> bool {
    &&& is_line(line)
    &&& passed_on(before, after, line)
    &&& extends(before.calls, after.calls)
    &&& r matches Err(e) ==> ended_in_failure(before.calls, after.calls, e) || !valid_utf8(line)
    &&& valid_utf8(line) ==> new_buf == old_buf + decode_utf8(line)
    &&& !valid_utf8(line) ==> r is Err && new_buf == old_buf
    &&& r matches Ok(n) ==> n == line.len() && ((n > 0 && line.last() == NEWLINE) || end_seen(
        before,
        after,
    ))
}

/// Nothing was read: the reader buffer and the stream's reads are as they
/// were, so nothing was passed on.
pub proof fn lemma_passed_on_nothing(before: BufferState, after: BufferState)
    requires
        after.readable == before.readable,
        after.log.reads == before.log.reads,
    ensures
        passed_on(before, after, Seq::empty()),
{
    assert(after.log.reads.subrange(0, before.log.reads.len() as int) =~= before.log.reads);
    assert(new_reads(before, after) =~= Seq::<Seq<u8>>::empty());
    assert(before.readable + new_reads(before, after).flatten() =~= Seq::<u8>::empty()
        + after.readable);
}

/// What a `read_line` that first flushes the writer buffer leaves, from the
/// buffers `before` and a string holding `old_buf`, in the buffers `after`
/// and the string `new_buf`, with result `r`.
pub open spec fn read_line_done(
    before: BufferState,
    after: BufferState,
    old_buf: Seq<char>,
    new_buf: Seq<char>,
    r: Result<usize, std::io::Error>,
) -> bool {
    &&& flushed_first(before, after, r is Ok)
    &&& exists|line: Seq<u8>| line_read(before, after, line, old_buf, new_buf, r)
    &&& forall|i: int| #[trigger]
        first_at(before.readable, NEWLINE, i) ==> (r is Ok ==> {
            let line = before.readable.subrange(0, i + 1);
            &&& valid_utf8(line)
            &&& r matches Ok(n) && n == i + 1
            &&& new_buf =~= old_buf + decode_utf8(line)
        })
}

/// Each entry of `lines` that is not an error is a line of a stream,
/// without its line ending.
pub open spec fn lines_read(lines: Seq<Result<String, std::io::Error>>) -> bool {
    forall|k: int|
        0 <= k < lines.len() ==> (#[trigger] lines[k] matches Ok(s) ==> exists|line: Seq<u8>|
            valid_utf8(line) && lacks(line, NEWLINE) && s@ == decode_utf8(line))
}

/// `line` without a final `\n`, and then without a final `\r` before it.
pub open spec fn stripped(line: Seq<u8>) -> Seq<u8> {
    if line.len() > 0 && line.last() == NEWLINE {
        let l = line.drop_last();
        if l.len() > 0 && l.last() == CARRIAGE_RETURN {
            l.drop_last()
        } else {
            l
        }
    } else {
        line
    }
}

/// `r` is what reading the complete line `line` (its `\n` included) gives,
/// unless something failed before it was read: the line without its line
/// ending, or an error when that is not valid UTF-8.
pub open spec fn first_line_read(line: Seq<u8>, r: Option<Result<String, std::io::Error>>) -> bool {
    let text = stripped(line);
    &&& r is Some
    &&& r matches Some(Ok(s)) ==> valid_utf8(text) && s@ == decode_utf8(text)
    &&& !valid_utf8(text) ==> r matches Some(Err(_))
}

/// `line` is the line, its ending included, that reading the next line from
/// the buffers `before` to `after` took from the stream, with result `r`:
/// nothing at the stream's end, else the bytes passed on up to a newline or
/// the stream's end, given without their line ending when they are valid
/// UTF-8.
pub open spec fn next_line_read(
    before: BufferState,
    after: BufferState,
    line: Seq<u8>,
    r: Option<Result<String, std::io::Error>>,
) -> bool {
    &&& is_line(line)
    &&& passed_on(before, after, line)
    &&& extends(before.calls, after.calls)
    &&& r matches Some(Err(e)) ==> ended_in_failure(before.calls, after.calls, e) || !valid_utf8(
        stripped(line),
    )
    &&& match r {
        None => line.len() == 0 && end_seen(before, after),
        Some(Ok(s)) => {
            &&& valid_utf8(stripped(line))
            &&& s@ == decode_utf8(stripped(line))
            &&& (line.len() > 0 && line.last() == NEWLINE) || end_seen(before, after)
        },
        Some(Err(_)) => true,
    }
}

/// What reading the next line, after flushing the writer buffer, leaves
/// from the buffers `before` in the buffers `after`, with result `r`:
/// `None` at the end of the stream, else the line without its line ending,
/// or an error.
pub open spec fn next_line_done(
    before: BufferState,
    after: BufferState,
    r: Option<Result<String, std::io::Error>>,
) -> bool {
    &&& flushed_first(before, after, !(r matches Some(Err(_))))
    &&& r matches Some(Ok(s)) ==> exists|line: Seq<u8>|
        valid_utf8(line) && lacks(line, NEWLINE) && s@ == decode_utf8(line)
    &&& exists|line: Seq<u8>| next_line_read(before, after, line, r)
    &&& forall|i: int| #[trigger]
        first_at(before.readable, NEWLINE, i) ==> {
            &&& first_line_read(before.readable.subrange(0, i + 1), r)
            &&& r matches Some(Ok(_)) ==> after.readable == before.readable.subrange(
                i + 1,
                before.readable.len() as int,
            )
        }
}

/// The lesser of two integers.
pub open spec fn min(a: int, b: int) -> int {
    if a <= b { a } else { b }
}

/// The writer buffer after a write of `len` bytes has made room: emptied when
/// the bytes do not fit beside what it holds, unchanged otherwise.
pub open spec fn pending_before_write(state: BufferState, len: int) -> Seq<u8> {
    if state.pending.len() + len > state.writer_capacity {
        Seq::empty()
    } else {
        state.pending
    }
}

/// What a buffered `write` of `buf` from the buffers `before` leaves in
/// `after` and returns in `r`: a `buf` at least as large as the writer
/// buffer goes to the stream, leaving the buffer empty; a smaller one is
/// taken whole and appended to the buffer, which was flushed first when
/// `buf` did not fit beside it. A failed write only loses bytes that the
/// stream took from the front of the buffer. The reader half is untouched.
pub open spec fn write_done(
    before: BufferState,
    after: BufferState,
    buf: Seq<u8>,
    r: Result<usize, std::io::Error>,
) -> bool {
    &&& errs_from_stream(before, after, r)
    &&& buf.len() >= before.writer_capacity && r is Ok ==> last_write_of(after.calls, buf, r)
    &&& after.writer_capacity == before.writer_capacity
    &&& after.readable == before.readable
    &&& after.reader_capacity == before.reader_capacity
    &&& writes_only(before, after)
    &&& match r {
        Ok(n) => if buf.len() >= before.writer_capacity {
            &&& n <= buf.len()
            &&& after.pending.len() == 0
            &&& taken(after) == taken(before) + buf.subrange(0, n as int)
            &&& after.log.writes.last() == buf.subrange(0, n as int)
        } else {
            &&& n == buf.len()
            &&& after.pending == pending_before_write(before, buf.len() as int) + buf
            &&& taken(after) == taken(before) + buf
        },
        Err(_) => is_suffix(before.pending, after.pending) && taken(after) == taken(before),
    }
}

/// What a buffered `write_all` of `buf` from the buffers `before` leaves in
/// `after` and returns in `r`: like [`write_done`], with all of a large
/// `buf` sent to the stream on success.
pub open spec fn write_all_done(
    before: BufferState,
    after: BufferState,
    buf: Seq<u8>,
    r: Result<(), std::io::Error>,
) -> bool {
    &&& errs_from_stream(before, after, r)
    &&& after.writer_capacity == before.writer_capacity
    &&& after.readable == before.readable
    &&& after.reader_capacity == before.reader_capacity
    &&& writes_only(before, after)
    &&& match r {
        Ok(()) => if buf.len() >= before.writer_capacity {
            after.pending.len() == 0
        } else {
            after.pending == pending_before_write(before, buf.len() as int) + buf
        },
        Err(_) => is_suffix(before.pending, after.pending),
    }
    &&& exists|k: int|
        0 <= k <= buf.len() && taken(after) == taken(before) + buf.subrange(0, k) && (r is Ok
            ==> k == buf.len())
}

/// The buffers after `amt` bytes of the reader buffer were handed out (all
/// of them, when it holds fewer).
pub open spec fn consumed(state: BufferState, amt: int) -> BufferState {
    BufferState {
        readable: state.readable.subrange(
            min(amt, state.readable.len() as int),
            state.readable.len() as int,
        ),
        ..state
    }
}


impl<Inner: HalfDuplexIo> BufDuplexerBackend<Inner> {
    /// Sends the writer buffer out when it ends with a complete line.
    pub(crate) fn flush_if_completed_line(&mut self) -> (r: Result<(), std::io::Error>)
        requires
            old(self).wf(),
        ensures
            final(self).wf(),
            final(self)@.writer_capacity == old(self)@.writer_capacity,
            final(self)@.readable == old(self)@.readable,
            final(self)@.reader_capacity == old(self)@.reader_capacity,
            is_suffix(old(self)@.pending, final(self)@.pending),
            taken(final(self)@) == taken(old(self)@),
            writes_only(old(self)@, final(self)@),
            r is Ok ==> final(self)@.pending == completed(old(self)@.pending),
            completed(old(self)@.pending) == old(self)@.pending ==> r is Ok && *final(self)
                == *old(self),
            errs_from_stream(old(self)@, final(self)@, r),
    {
        let buffered = self.writer_buffer();
        if buffered.len() > 0 && buffered[buffered.len() - 1] == NEWLINE {
            self.flush_buf()
        } else {
            Ok(())
        }
    }

    /// Writes `buf` line by line: the complete lines go to the stream in
    /// one `write` (after the buffer is flushed), and what follows them is
    /// buffered; without a newline, this is a buffered `write`, after
    /// flushing a buffer that ends with a complete line.
    #[verifier::rlimit(60)]
    #[verifier::spinoff_prover]
    pub(crate) fn line_write(&mut self, buf: &[u8]) -> (r: Result<usize, std::io::Error>)
        requires
            old(self).wf(),
        ensures
            line_write_done(old(self)@, final(self)@, buf@, r),
            final(self).wf(),
            last_end(buf@, NEWLINE) == 0 && fits_partial_line(old(self)@, buf@.len() as int) ==> (
            r matches Ok(n) && n == buf@.len() && final(self)@.pending == old(self)@.pending + buf@
                && final(self).stream() == old(self).stream()),
    {
        // A slice's length is a `usize`, so the position after any of its
        // bytes is one too.
        let len = buf.len();
        assert(len == buf@.len());
        let newline_idx = match memrchr(NEWLINE, buf) {
            None => {
                match self.flush_if_completed_line() {
                    Ok(_) => {},
                    Err(e) => {
                        return Err(e);
                    },
                }
                let r = self.write(buf);
                proof {
                    assert(buf@.subrange(0, buf@.len() as int) =~= buf@);
                }
                return r;
            },
            Some(i) => i + 1,
        };
        proof {
            lemma_last_end(buf@, NEWLINE);
        }
        match self.flush_buf() {
            Ok(_) => {},
            Err(e) => {
                return Err(e);
            },
        }
        let lines = slice_subrange(buf, 0, newline_idx);
        let ghost before = self@.log;
        let flushed = match self.stream_write(lines) {
            Ok(n) => n,
            Err(e) => {
                return Err(e);
            },
        };
        proof {
            assert(lines@.subrange(0, flushed as int) =~= buf@.subrange(0, flushed as int));
            lemma_sent_wrote(before, buf@.subrange(0, flushed as int));
            assert(taken(self@) =~= taken(old(self)@) + buf@.subrange(0, flushed as int));
        }
        if flushed == 0 {
            return Ok(0);
        }
        let cap = self.writer_capacity();
        let tail = if flushed >= newline_idx {
            slice_subrange(buf, flushed, buf.len())
        } else if newline_idx - flushed <= cap {
            slice_subrange(buf, flushed, newline_idx)
        } else {
            let scan = slice_subrange(buf, flushed, flushed + cap);
            match memrchr(NEWLINE, scan) {
                Some(i) => slice_subrange(scan, 0, i + 1),
                None => scan,
            }
        };
        proof {
            assert(tail@ == line_tail(buf@, flushed as int, newline_idx as int, cap as int));
            assert(tail@ =~= buf@.subrange(flushed as int, flushed + tail@.len()));
        }
        let buffered = self.write_to_buf(tail);
        proof {
            assert(buf@.subrange(0, flushed + buffered) =~= buf@.subrange(0, flushed as int)
                + tail@.subrange(0, buffered as int));
            assert(taken(self@) =~= taken(old(self)@) + buf@.subrange(0, flushed + buffered));
        }
        Ok(flushed + buffered)
    }

    /// Writes all of `buf` line by line: its complete lines are written out
    /// (together with what the buffer held), and what follows them is
    /// buffered, or written straight out when it is at least as large as
    /// the buffer; without a newline, this is a buffered `write_all`, after
    /// flushing a buffer that ends with a complete line.
    #[verifier::rlimit(50)]
    #[verifier::spinoff_prover]
    pub(crate) fn line_write_all(&mut self, buf: &[u8]) -> (r: Result<(), std::io::Error>)
        requires
            old(self).wf(),
        ensures
            line_write_all_done(old(self)@, final(self)@, buf@, r),
            final(self).wf(),
            last_end(buf@, NEWLINE) == 0 && fits_partial_line(old(self)@, buf@.len() as int) ==> r
                is Ok && final(self)@.pending == old(self)@.pending + buf@ && final(self).stream()
                == old(self).stream(),
    {
        let len = buf.len();
        match memrchr(NEWLINE, buf) {
            None => {
                let first = self.flush_if_completed_line();
                if first.is_err() {
                    proof {
                        assert(taken(self@) =~= taken(old(self)@) + buf@.subrange(0, 0));
                    }
                    return first;
                }
                let ghost mid = self@;
                let r = self.write_all(buf);
                proof {
                    let k = choose|k: int|
                        0 <= k <= buf@.len() && taken(self@) == taken(mid) + buf@.subrange(0, k) && (
                        r is Ok ==> k == buf@.len());
                    assert(taken(self@) == taken(old(self)@) + buf@.subrange(0, k));
                }
                r
            },
            Some(i) => {
                proof {
                    lemma_last_end(buf@, NEWLINE);
                }
                let lines = slice_subrange(buf, 0, i + 1);
                let tail = slice_subrange(buf, i + 1, len);
                if self.writer_buffer().len() == 0 {
                    let sent = self.stream_write_all(lines);
                    if sent.is_err() {
                        proof {
                            let k = choose|k: int|
                                0 <= k <= lines@.len() && self@.log.sent() == old(self)@.log.sent()
                                    + lines@.subrange(0, k) && (sent is Ok ==> k == lines@.len());
                            assert(lines@.subrange(0, k) =~= buf@.subrange(0, k));
                            assert(taken(self@) =~= taken(old(self)@) + buf@.subrange(0, k));
                        }
                        return sent;
                    }
                    proof {
                        let k = choose|k: int|
                            0 <= k <= lines@.len() && self@.log.sent() == old(self)@.log.sent()
                                + lines@.subrange(0, k) && (sent is Ok ==> k == lines@.len());
                        assert(k == lines@.len());
                        assert(lines@.subrange(0, k) =~= lines@);
                    }
                } else {
                    let ghost mid = self@;
                    let sent = self.write_all(lines);
                    if sent.is_err() {
                        proof {
                            let k = choose|k: int|
                                0 <= k <= lines@.len() && taken(self@) == taken(mid)
                                    + lines@.subrange(0, k) && (sent is Ok ==> k == lines@.len());
                            assert(lines@.subrange(0, k) =~= buf@.subrange(0, k));
                        }
                        return sent;
                    }
                    proof {
                        let k = choose|k: int|
                            0 <= k <= lines@.len() && taken(self@) == taken(mid) + lines@.subrange(
                                0,
                                k,
                            ) && (sent is Ok ==> k == lines@.len());
                        assert(k == lines@.len());
                        assert(lines@.subrange(0, k) =~= lines@);
                    }
                    let flushed = self.flush_buf();
                    if flushed.is_err() {
                        proof {
                            assert(lines@ =~= buf@.subrange(0, i + 1));
                        }
                        return flushed;
                    }
                }
                proof {
                    assert(self@.pending.len() == 0);
                    assert(lines@ =~= buf@.subrange(0, i + 1));
                    assert(taken(self@) =~= taken(old(self)@) + buf@.subrange(0, i + 1));
                }
                let ghost mid = self@;
                let r = self.write_all(tail);
                proof {
                    if r is Ok && tail@.len() < self@.writer_capacity {
                        assert(self@.pending =~= tail@);
                    }
                    if r is Ok && tail@.len() >= self@.writer_capacity {
                        assert(self@.pending =~= Seq::<u8>::empty());
                    }
                    assert(tail@ =~= buf@.subrange(i + 1, buf@.len() as int));
                    let k = choose|k: int|
                        0 <= k <= tail@.len() && taken(self@) == taken(mid) + tail@.subrange(0, k) && (
                        r is Ok ==> k == tail@.len());
                    assert(buf@.subrange(0, i + 1 + k) =~= buf@.subrange(0, i + 1)
                        + tail@.subrange(0, k));
                    assert(taken(self@) =~= taken(old(self)@) + buf@.subrange(0, i + 1 + k));
                }
                r
            },
        }
    }

    /// Writes the buffers of `bufs` line by line: the buffers up to the last
    /// one with a newline go to the stream in one `write_vectored` (after
    /// the buffer is flushed), and, when they were taken whole, as much of
    /// the rest as fits is buffered; without a newline, this is a buffered
    /// `write_vectored`, after flushing a buffer that ends with a complete
    /// line.
    #[verifier::rlimit(60)]
    #[verifier::spinoff_prover]
    pub(crate) fn line_write_vectored(&mut self, bufs: &[&[u8]]) -> (r: Result<
        usize,
        std::io::Error,
    >)
        requires
            old(self).wf(),
            total_len(bufs@) <= usize::MAX,
        ensures
            line_write_vectored_done(old(self)@, final(self)@, bufs@, r),
            final(self).wf(),
            lines_end(bufs@) == 0 && fits_partial_line(old(self)@, total_len(bufs@)) ==> (r matches Ok(
                n,
            ) && n == total_len(bufs@) && final(self)@.pending == old(self)@.pending + concat_bufs(
                bufs@,
            ) && final(self).stream() == old(self).stream()),
    {
        let count = bufs.len();
        let last = match last_newline_buf(bufs) {
            None => {
                proof {
                    lemma_concat_len(bufs@);
                }
                match self.flush_if_completed_line() {
                    Ok(_) => {},
                    Err(e) => {
                        return Err(e);
                    },
                }
                let r = self.write_vectored(bufs);
                proof {
                    assert(concat_bufs(bufs@).subrange(0, total_len(bufs@)) =~= concat_bufs(bufs@));
                }
                return r;
            },
            Some(i) => i,
        };
        match self.flush_buf() {
            Ok(_) => {},
            Err(e) => {
                return Err(e);
            },
        }
        let lines = slice_subrange(bufs, 0, last + 1);
        let tail = slice_subrange(bufs, last + 1, count);
        proof {
            lemma_total_len_split(bufs@, last as int + 1);
            lemma_concat_len(lines@);
        }
        let ghost log0 = self@.log;
        let flushed = match self.stream_write_vectored(lines) {
            Ok(n) => n,
            Err(e) => {
                return Err(e);
            },
        };
        let ghost log1 = self@.log;
        let ghost calls1 = self@.calls;
        proof {
            assert(concat_bufs(lines@).subrange(0, flushed as int) =~= concat_bufs(bufs@).subrange(
                0,
                flushed as int,
            ));
            lemma_sent_wrote(log0, concat_bufs(bufs@).subrange(0, flushed as int));
            assert(taken(self@) =~= taken(old(self)@) + concat_bufs(bufs@).subrange(
                0,
                flushed as int,
            ));
        }
        if !total_is(lines, flushed) {
            return Ok(flushed);
        }
        let mut buffered: usize = 0;
        let mut i: usize = 0;
        let cap = self.writer_capacity();
        let ghost tl = tail@;
        proof {
            lemma_total_len_split(bufs@, last as int + 1);
            lemma_concat_len(tl);
            assert(tl.subrange(0, 0) =~= Seq::<&[u8]>::empty());
            if tl.len() == 0 {
                assert(tl.subrange(0, 0) =~= tl);
            }
        }
        while i < tail.len()
            invariant
                self.wf(),
                tl == tail@,
                i <= tl.len(),
                concat_bufs(tl).len() == total_len(tl),
                i == tl.len() ==> tl.subrange(0, i as int) == tl,
                self@.writer_capacity == cap,
                self@.readable == old(self)@.readable,
                self@.reader_capacity == old(self)@.reader_capacity,
                self@.log == log1,
                self@.calls == calls1,
                buffered == self@.pending.len(),
                self@.pending == concat_bufs(tl.subrange(0, i as int)).subrange(
                    0,
                    min(cap as int, total_len(tl.subrange(0, i as int))),
                ),
            ensures
                self.wf(),
                self@.writer_capacity == cap,
                self@.readable == old(self)@.readable,
                self@.reader_capacity == old(self)@.reader_capacity,
                self@.log == log1,
                self@.calls == calls1,
                buffered == self@.pending.len(),
                self@.pending == concat_bufs(tl).subrange(0, min(cap as int, total_len(tl))),
            decreases tl.len() - i,
        {
            let ghost p = tl.subrange(0, i as int);
            let ghost q = tl.subrange(0, i as int + 1);
            proof {
                assert(q.drop_last() =~= p);
                lemma_concat_len(p);
                lemma_concat_len(q);
                lemma_total_len_nonneg(p);
            }
            if tail[i].len() > 0 {
                let n = self.write_to_buf(tail[i]);
                if n == 0 {
                    proof {
                        lemma_total_len_split(tl, i as int);
                        lemma_total_len_nonneg(tl.subrange(i as int, tl.len() as int));
                        assert(concat_bufs(tl).subrange(0, cap as int) =~= concat_bufs(p).subrange(
                            0,
                            cap as int,
                        ));
                    }
                    break ;
                }
                buffered = buffered + n;
                proof {
                    assert(self@.pending =~= concat_bufs(q).subrange(
                        0,
                        min(cap as int, total_len(q)),
                    ));
                }
            } else {
                proof {
                    assert(concat_bufs(q) =~= concat_bufs(p));
                }
            }
            i = i + 1;
            proof {
                if i == tl.len() {
                    assert(tl.subrange(0, i as int) =~= tl);
                }
            }
        }
        proof {
            assert(concat_bufs(bufs@).subrange(0, flushed + buffered) =~= concat_bufs(bufs@).subrange(
                0,
                flushed as int,
            ) + concat_bufs(tl).subrange(0, buffered as int));
            assert(taken(self@) =~= taken(old(self)@) + concat_bufs(bufs@).subrange(
                0,
                flushed + buffered,
            ));
        }
        Ok(flushed + buffered)
    }
}
} // verus!
