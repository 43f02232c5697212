//! Properties of the buffering streams that span more than one call.
use super::{
    completed, consumed, errs_from_stream, flush_done, gives_line, is_line_chunk, lacks,
    last_end, line_text, line_write_all_done, line_write_done, lines_of, new_reads, passed_on,
    read_done, taken, write_all_done, write_done, BufferState, CARRIAGE_RETURN, NEWLINE,
};
use vstd::utf8::decode_utf8;
use crate::io::{calls_since, went_through};
use vstd::seq_lib::lemma_flatten_concat;
use vstd::prelude::*;

verus! {

/// Two successful buffered writes that fit in the writer buffer beside what
/// it holds each take all of their bytes, and leave them in it, after what
/// it held, in the order in which they were written.
pub proof fn lemma_writes_in_order(
    s0: BufferState,
    s1: BufferState,
    s2: BufferState,
    a: Seq<u8>,
    b: Seq<u8>,
    n1: usize,
    n2: usize,
)
    requires
        write_done(s0, s1, a, Ok::<usize, std::io::Error>(n1)),
        write_done(s1, s2, b, Ok::<usize, std::io::Error>(n2)),
        s0.pending.len() + a.len() + b.len() <= s0.writer_capacity,
        a.len() < s0.writer_capacity,
        b.len() < s0.writer_capacity,
    ensures
        n1 == a.len(),
        n2 == b.len(),
        s2.pending == s0.pending + a + b,
        s2.readable == s0.readable,
{
    assert(s2.pending =~= s0.pending + a + b);
}

/// Consuming `a` bytes of the reader buffer and then `b` bytes is consuming
/// `a + b` bytes.
pub proof fn lemma_consume_additive(s: BufferState, a: int, b: int)
    requires
        0 <= a,
        0 <= b,
    ensures
        consumed(consumed(s, a), b) == consumed(s, a + b),
{
    assert(consumed(consumed(s, a), b).readable =~= consumed(s, a + b).readable);
}

/// Two reads that the reader buffer can serve hand its bytes out in order,
/// the second one where the first stopped, and fill their destinations.
pub proof fn lemma_reads_in_order(
    s0: BufferState,
    s1: BufferState,
    s2: BufferState,
    b_old: Seq<u8>,
    b_new: Seq<u8>,
    c_old: Seq<u8>,
    c_new: Seq<u8>,
    n1: usize,
    n2: usize,
)
    requires
        read_done(s0, s1, b_old, b_new, Ok::<usize, std::io::Error>(n1)),
        read_done(s1, s2, c_old, c_new, Ok::<usize, std::io::Error>(n2)),
        0 < s0.readable.len(),
        b_old.len() + c_old.len() <= s0.readable.len(),
    ensures
        n1 == b_old.len(),
        n2 == c_old.len(),
        b_new + c_new == s0.readable.subrange(0, (b_old.len() + c_old.len()) as int),
{
    assert(b_new =~= s0.readable.subrange(0, n1 as int));
    if c_old.len() > 0 {
        assert(c_new =~= s1.readable.subrange(0, n2 as int));
    } else {
        assert(c_new =~= Seq::<u8>::empty());
    }
    assert(b_new + c_new =~= s0.readable.subrange(0, (b_old.len() + c_old.len()) as int));
}

/// A `write_all` on a line-flushed writer of bytes that end with a newline
/// leaves nothing in the writer buffer when it succeeds: complete lines are
/// written out at once, so the stream has then received what it had, what
/// the writer buffer held, and the bytes, in that order.
pub proof fn lemma_line_write_all_flushes_lines(
    before: BufferState,
    after: BufferState,
    buf: Seq<u8>,
)
    requires
        line_write_all_done(before, after, buf, Ok::<(), std::io::Error>(())),
        buf.len() > 0,
        buf.last() == NEWLINE,
    ensures
        after.pending.len() == 0,
        after.log.sent() == before.log.sent() + before.pending + buf,
{
    let k = choose|k: int|
        0 <= k <= buf.len() && taken(after) == taken(before) + buf.subrange(0, k) && k
            == buf.len();
    assert(buf.subrange(0, k) =~= buf);
    assert(after.pending =~= Seq::<u8>::empty());
    assert(taken(after) =~= after.log.sent());
    assert(before.log.sent() + before.pending + buf =~= taken(before) + buf);
}

/// Without a newline in the bytes or a complete line in the writer buffer,
/// a line-flushed `write` is a plain buffered `write`.
pub proof fn lemma_line_write_without_newline(
    before: BufferState,
    after: BufferState,
    buf: Seq<u8>,
    r: Result<usize, std::io::Error>,
)
    requires
        line_write_done(before, after, buf, r),
        last_end(buf, NEWLINE) == 0,
        completed(before.pending) == before.pending,
    ensures
        write_done(before, after, buf, r),
{
    assert(buf.subrange(0, buf.len() as int) =~= buf);
}

/// Without a newline in the bytes or a complete line in the writer buffer,
/// a line-flushed `write_all` is a plain buffered `write_all`.
pub proof fn lemma_line_write_all_without_newline(
    before: BufferState,
    after: BufferState,
    buf: Seq<u8>,
    r: Result<(), std::io::Error>,
)
    requires
        line_write_all_done(before, after, buf, r),
        last_end(buf, NEWLINE) == 0,
        completed(before.pending) == before.pending,
    ensures
        write_all_done(before, after, buf, r),
{
}

/// A successful `write` takes exactly the bytes it reports: after it, the
/// bytes the stream received followed by the writer buffer are what they
/// were, followed by the first `n` bytes of `buf`.
pub proof fn lemma_write_takes_what_it_reports(
    before: BufferState,
    after: BufferState,
    buf: Seq<u8>,
    n: usize,
)
    requires
        write_done(before, after, buf, Ok(n)),
    ensures
        n <= buf.len(),
        taken(after) == taken(before) + buf.subrange(0, n as int),
{
    if buf.len() < before.writer_capacity {
        assert(buf.subrange(0, n as int) =~= buf);
    }
}

/// Bytes written reach the stream once each and in order: after a
/// successful `write_all` of `buf` and a successful `flush`, the stream has
/// received what it had, then what the writer buffer held, then `buf`; the
/// buffer is empty, the stream was flushed once and not read.
pub proof fn lemma_written_bytes_reach_the_stream(
    s0: BufferState,
    s1: BufferState,
    s2: BufferState,
    buf: Seq<u8>,
)
    requires
        write_all_done(s0, s1, buf, Ok(())),
        flush_done(s1, s2, Ok(())),
    ensures
        s2.log.sent() == s0.log.sent() + s0.pending + buf,
        s2.pending.len() == 0,
        s2.log.flushes == s0.log.flushes + 1,
        s2.log.reads == s0.log.reads,
{
    let k = choose|k: int|
        0 <= k <= buf.len() && taken(s1) == taken(s0) + buf.subrange(0, k) && k == buf.len();
    assert(buf.subrange(0, k) =~= buf);
    assert(s2.pending =~= Seq::<u8>::empty());
    assert(taken(s2) =~= s2.log.sent());
    assert(s0.log.sent() + s0.pending + buf =~= taken(s0) + buf);
}

/// The same holds of the line-flushed writer: after a successful
/// `write_all` of `buf` and a successful `flush`, the stream has received
/// what it had, then what the writer buffer held, then `buf`.
pub proof fn lemma_line_written_bytes_reach_the_stream(
    s0: BufferState,
    s1: BufferState,
    s2: BufferState,
    buf: Seq<u8>,
)
    requires
        line_write_all_done(s0, s1, buf, Ok(())),
        flush_done(s1, s2, Ok(())),
    ensures
        s2.log.sent() == s0.log.sent() + s0.pending + buf,
        s2.pending.len() == 0,
        s2.log.flushes == s0.log.flushes + 1,
        s2.log.reads == s0.log.reads,
{
    let k = choose|k: int|
        0 <= k <= buf.len() && taken(s1) == taken(s0) + buf.subrange(0, k) && k == buf.len();
    assert(buf.subrange(0, k) =~= buf);
    assert(s2.pending =~= Seq::<u8>::empty());
    assert(taken(s2) =~= s2.log.sent());
    assert(s0.log.sent() + s0.pending + buf =~= taken(s0) + buf);
}

/// A successful read passes on the stream's bytes: what it puts in its
/// destination, followed by what is left in the reader buffer, is what the
/// reader buffer held followed by what the stream gave during the read.
pub proof fn lemma_read_passes_on(
    before: BufferState,
    after: BufferState,
    old_buf: Seq<u8>,
    new_buf: Seq<u8>,
    n: usize,
)
    requires
        read_done(before, after, old_buf, new_buf, Ok(n)),
    ensures
        passed_on(before, after, new_buf.subrange(0, n as int)),
{
    assert(after.log.reads.subrange(0, before.log.reads.len() as int) =~= before.log.reads);
    if before.readable.len() == 0 {
        let got = new_buf.subrange(0, n as int) + after.readable;
        assert(new_reads(before, after) =~= seq![got]);
        seq![got].lemma_flatten_one_element();
        assert(before.readable + got =~= got);
    } else {
        assert(new_reads(before, after) =~= Seq::<Seq<u8>>::empty());
        assert(before.readable =~= new_buf.subrange(0, n as int) + after.readable);
    }
}

/// Bytes passed on in two steps are passed on in one: the bytes of the
/// first step come first.
pub proof fn lemma_passed_on_chain(
    s0: BufferState,
    s1: BufferState,
    s2: BufferState,
    d1: Seq<u8>,
    d2: Seq<u8>,
)
    requires
        passed_on(s0, s1, d1),
        passed_on(s1, s2, d2),
    ensures
        passed_on(s0, s2, d1 + d2),
{
    let r0 = s0.log.reads.len() as int;
    let r1 = s1.log.reads.len() as int;
    assert forall|i: int| 0 <= i < r1 implies s2.log.reads[i] == s1.log.reads[i] by {
        assert(s2.log.reads.subrange(0, r1)[i] == s2.log.reads[i]);
    }
    assert forall|i: int| 0 <= i < r0 implies s1.log.reads[i] == s0.log.reads[i] by {
        assert(s1.log.reads.subrange(0, r0)[i] == s1.log.reads[i]);
    }
    assert(s2.log.reads.subrange(0, r0) =~= s0.log.reads);
    assert(new_reads(s0, s2) =~= new_reads(s0, s1) + new_reads(s1, s2));
    lemma_flatten_concat(new_reads(s0, s1), new_reads(s1, s2));
    assert(s0.readable + new_reads(s0, s2).flatten() =~= (s0.readable + new_reads(
        s0,
        s1,
    ).flatten()) + new_reads(s1, s2).flatten());
    assert(d1 + s1.readable + new_reads(s1, s2).flatten() =~= d1 + (s1.readable + new_reads(
        s1,
        s2,
    ).flatten()));
    assert(d1 + (d2 + s2.readable) =~= (d1 + d2) + s2.readable);
}

/// Reads hand out the stream's bytes in order, none skipped and none given
/// twice: after two successful reads, what the reader buffer held followed
/// by all that the stream gave is what the two reads put in their
/// destinations, one after the other, followed by what is left in the
/// reader buffer.
pub proof fn lemma_reads_pass_on_the_stream_in_order(
    s0: BufferState,
    s1: BufferState,
    s2: BufferState,
    a0: Seq<u8>,
    a1: Seq<u8>,
    b0: Seq<u8>,
    b1: Seq<u8>,
    n1: usize,
    n2: usize,
)
    requires
        read_done(s0, s1, a0, a1, Ok(n1)),
        read_done(s1, s2, b0, b1, Ok(n2)),
    ensures
        s0.readable + new_reads(s0, s2).flatten() == a1.subrange(0, n1 as int) + b1.subrange(
            0,
            n2 as int,
        ) + s2.readable,
{
    lemma_read_passes_on(s0, s1, a0, a1, n1);
    lemma_read_passes_on(s1, s2, b0, b1, n2);
    lemma_passed_on_chain(s0, s1, s2, a1.subrange(0, n1 as int), b1.subrange(0, n2 as int));
}

/// Every error comes from the stream: when each call made on the stream
/// between `before` and `after` went through in full, an operation whose
/// errors come only from the stream (as those of every reading, writing and
/// flushing operation of the buffered types do) succeeds.
pub proof fn lemma_errors_come_from_the_stream<T>(
    before: BufferState,
    after: BufferState,
    r: Result<T, std::io::Error>,
)
    requires
        errs_from_stream(before, after, r),
        forall|i: int|
            0 <= i < calls_since(before.calls, after.calls).len() ==> went_through(
                #[trigger] calls_since(before.calls, after.calls)[i],
            ),
    ensures
        r is Ok,
{
    if r is Err {
        let since = calls_since(before.calls, after.calls);
        assert(since[since.len() - 1] == after.calls.last());
        assert(went_through(after.calls.last()));
    }
}

/// A flush to a stream that fails no call and takes all that it is offered
/// succeeds: the stream has then received what it had and then all that
/// was buffered, and was flushed once.
pub proof fn lemma_flush_to_a_willing_stream(
    before: BufferState,
    after: BufferState,
    r: Result<(), std::io::Error>,
)
    requires
        flush_done(before, after, r),
        forall|i: int|
            0 <= i < calls_since(before.calls, after.calls).len() ==> went_through(
                #[trigger] calls_since(before.calls, after.calls)[i],
            ),
    ensures
        r is Ok,
        after.pending.len() == 0,
        after.log.sent() == before.log.sent() + before.pending,
        after.log.flushes == before.log.flushes + 1,
{
    lemma_errors_come_from_the_stream(before, after, r);
    assert(after.pending =~= Seq::<u8>::empty());
    assert(taken(after) =~= after.log.sent());
}

/// The number of `\n` bytes in `s`.
pub open spec fn newlines(s: Seq<u8>) -> nat
    decreases s.len(),
{
    if s.len() == 0 {
        0
    } else {
        newlines(s.drop_last()) + if s.last() == NEWLINE {
            1nat
        } else {
            0nat
        }
    }
}

/// The `\n` bytes of two sequences one after the other are those of each.
pub proof fn lemma_newlines_concat(a: Seq<u8>, b: Seq<u8>)
    ensures
        newlines(a + b) == newlines(a) + newlines(b),
    decreases b.len(),
{
    if b.len() == 0 {
        assert(a + b =~= a);
    } else {
        lemma_newlines_concat(a, b.drop_last());
        assert((a + b).drop_last() =~= a + b.drop_last());
    }
}

/// A sequence without `\n` has none to count.
pub proof fn lemma_newlines_lacks(s: Seq<u8>)
    requires
        lacks(s, NEWLINE),
    ensures
        newlines(s) == 0,
    decreases s.len(),
{
    if s.len() > 0 {
        lemma_newlines_lacks(s.drop_last());
    }
}

/// Lines, all but the last ending with their only `\n`, hold one `\n` each,
/// but for a last one without it.
proof fn lemma_newlines_of_lines(chunks: Seq<Seq<u8>>)
    requires
        forall|k: int|
            0 <= k < chunks.len() ==> is_line_chunk(#[trigger] chunks[k], k == chunks.len() - 1),
    ensures
        newlines(chunks.flatten()) + (if chunks.len() > 0 && lacks(chunks.last(), NEWLINE) {
            1nat
        } else {
            0nat
        }) == chunks.len(),
    decreases chunks.len(),
{
    if chunks.len() > 0 {
        let init = chunks.drop_last();
        let c = chunks.last();
        assert forall|k: int| 0 <= k < init.len() implies is_line_chunk(
            #[trigger] init[k],
            k == init.len() - 1,
        ) by {
            assert(init[k] == chunks[k]);
        }
        lemma_newlines_of_lines(init);
        if init.len() > 0 {
            assert(is_line_chunk(chunks[init.len() - 1], false));
            assert(!lacks(init.last(), NEWLINE));
        }
        assert(chunks =~= init.push(c));
        init.lemma_flatten_push(c);
        lemma_newlines_concat(init.flatten(), c);
        if lacks(c, NEWLINE) {
            lemma_newlines_lacks(c);
        } else {
            lemma_newlines_lacks(c.drop_last());
        }
    }
}

/// Reading the lines of a stream gives one entry for each line: as many as
/// the bytes read hold `\n`, and one more for a last line that does not end
/// with `\n`; none is dropped, blank lines included, and nothing is given
/// for bytes that are not there.
pub proof fn lemma_lines_count(data: Seq<u8>, entries: Seq<Result<String, std::io::Error>>)
    requires
        lines_of(data, entries),
    ensures
        entries.len() == newlines(data) + (if data.len() > 0 && data.last() != NEWLINE {
            1nat
        } else {
            0nat
        }),
{
    let chunks = choose|chunks: Seq<Seq<u8>>|
        #![trigger chunks.flatten(), chunks.len()]
        {
            &&& chunks.len() == entries.len()
            &&& chunks.flatten() == data
            &&& forall|k: int|
                0 <= k < chunks.len() ==> is_line_chunk(#[trigger] chunks[k], k == chunks.len() - 1)
                    && gives_line(chunks[k], entries[k])
        };
    lemma_newlines_of_lines(chunks);
    if chunks.len() > 0 {
        let init = chunks.drop_last();
        let c = chunks.last();
        assert(chunks =~= init.push(c));
        init.lemma_flatten_push(c);
        assert(is_line_chunk(chunks[chunks.len() - 1], true));
        assert(data.last() == c.last());
        if !lacks(c, NEWLINE) {
            assert(c.last() == NEWLINE);
        }
    } else {
        assert(data =~= Seq::<u8>::empty());
    }
}

/// A line's entry is its text without its line ending: without the last
/// two bytes of a line that ends with `\r\n`, without the last byte of one
/// that ends with a `\n` that no `\r` comes before, and all of a line
/// without `\n`.
pub proof fn lemma_line_ending_dropped(chunk: Seq<u8>, s: String)
    requires
        is_line_chunk(chunk, true),
        gives_line(chunk, Ok(s)),
    ensures
        chunk.len() >= 2 && chunk[chunk.len() - 2] == CARRIAGE_RETURN && chunk.last() == NEWLINE
            ==> s@ == decode_utf8(chunk.subrange(0, chunk.len() - 2)),
        chunk.last() == NEWLINE && (chunk.len() < 2 || chunk[chunk.len() - 2] != CARRIAGE_RETURN)
            ==> s@ == decode_utf8(chunk.subrange(0, chunk.len() - 1)),
        lacks(chunk, NEWLINE) ==> s@ == decode_utf8(chunk),
{
    let text = choose|text: Seq<u8>|
        #![trigger line_text(chunk, text)]
        line_text(chunk, text) && match Ok::<String, std::io::Error>(s) {
            Ok(s) => vstd::utf8::valid_utf8(text) && s@ == decode_utf8(text),
            Err(_) => !vstd::utf8::valid_utf8(text),
        };
    if chunk == text + seq![CARRIAGE_RETURN, NEWLINE] {
        assert(chunk.subrange(0, chunk.len() - 2) =~= text);
        assert(chunk[chunk.len() - 1] == NEWLINE);
    } else if chunk == text + seq![NEWLINE] {
        assert(chunk.subrange(0, chunk.len() - 1) =~= text);
        assert(chunk[chunk.len() - 1] == NEWLINE);
        if text.len() > 0 {
            assert(chunk[chunk.len() - 2] == text.last());
        }
    } else {
        assert(chunk == text);
    }
}

} // verus!
