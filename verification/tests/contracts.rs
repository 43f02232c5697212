//! Tests of the stated behaviour of the buffered types: defaults, edge
//! cases, errors, and the laws on concrete values.

use io_streams::{
    BufDuplexer, BufReaderLineWriter, HalfDuplexIo, HalfDuplexReadReady, ReadReady, StreamCalls,
    StreamLog,
};
use std::io::{self, ErrorKind};

/// A stream that answers reads from `input` and records what is written to
/// it in `output`, together with a log of the calls made on it. It takes at
/// most `chunk` bytes per `write`, and fails its first `interrupts` calls
/// with `Interrupted`. It relies on the provided `write_vectored` and
/// `write_all` of `HalfDuplexIo`.
#[derive(Debug, Default)]
struct Loopback {
    input: Vec<u8>,
    read_pos: usize,
    output: Vec<u8>,
    chunk: usize,
    interrupts: usize,
    log: Vec<&'static str>,
    rooms: Vec<usize>,
}

impl Loopback {
    fn new(input: &[u8]) -> Self {
        Loopback {
            input: input.to_vec(),
            chunk: usize::MAX,
            ..Default::default()
        }
    }
}

impl HalfDuplexIo for Loopback {
    // The log and the calls are models that the library's proofs speak
    // of; no code calls them when it runs.
    fn log(&self) -> StreamLog {
        unreachable!("a model for proofs")
    }

    fn calls(&self) -> StreamCalls {
        unreachable!("a model for proofs")
    }

    fn read(&mut self, buf: &mut [u8]) -> io::Result<usize> {
        self.log.push("read");
        self.rooms.push(buf.len());
        let rest = &self.input[self.read_pos..];
        let n = rest.len().min(buf.len());
        buf[..n].copy_from_slice(&rest[..n]);
        self.read_pos += n;
        Ok(n)
    }

    fn write(&mut self, buf: &[u8]) -> io::Result<usize> {
        self.log.push("write");
        if self.interrupts > 0 {
            self.interrupts -= 1;
            return Err(io::Error::new(ErrorKind::Interrupted, "try again"));
        }
        let n = buf.len().min(self.chunk);
        self.output.extend_from_slice(&buf[..n]);
        Ok(n)
    }

    fn flush(&mut self) -> io::Result<()> {
        self.log.push("flush");
        Ok(())
    }
}

impl ReadReady for Loopback {
    fn num_ready_bytes(&self) -> io::Result<u64> {
        Ok((self.input.len() - self.read_pos) as u64)
    }
}

/// A stream whose writes accept nothing, or fail with a given kind.
#[derive(Debug)]
struct Refusing(Option<ErrorKind>);

impl HalfDuplexIo for Refusing {
    // The log and the calls are models that the library's proofs speak
    // of; no code calls them when it runs.
    fn log(&self) -> StreamLog {
        unreachable!("a model for proofs")
    }

    fn calls(&self) -> StreamCalls {
        unreachable!("a model for proofs")
    }

    fn read(&mut self, _buf: &mut [u8]) -> io::Result<usize> {
        Ok(0)
    }

    fn write(&mut self, _buf: &[u8]) -> io::Result<usize> {
        match self.0 {
            Some(kind) => Err(io::Error::new(kind, "refused")),
            None => Ok(0),
        }
    }

    fn flush(&mut self) -> io::Result<()> {
        Ok(())
    }
}

fn ready_bytes<T: HalfDuplexReadReady>(stream: &T) -> u64 {
    stream.num_ready_bytes().unwrap()
}

#[test]
fn default_capacities() {
    let duplexer = BufDuplexer::new(Loopback::new(b""));
    assert_eq!(duplexer.writer_capacity(), 8192);
    assert_eq!(duplexer.reader_capacity(), 8192);
    assert!(duplexer.writer_buffer().is_empty());
    assert!(duplexer.reader_buffer().is_empty());

    let line_writer = BufReaderLineWriter::new(Loopback::new(b""));
    let stream = line_writer.into_inner().unwrap();
    assert!(stream.output.is_empty());
}

#[test]
fn given_capacities() {
    let duplexer = BufDuplexer::with_capacities(3, 5, Loopback::new(b""));
    assert_eq!(duplexer.reader_capacity(), 3);
    assert_eq!(duplexer.writer_capacity(), 5);
}

#[test]
fn consume_past_the_end_empties_the_buffer() {
    let mut reader = BufDuplexer::with_capacities(4, 4, Loopback::new(b"12345678"));
    assert_eq!(reader.fill_buf().unwrap(), b"1234");
    reader.consume(10);
    assert_eq!(reader.reader_buffer(), b"");
    assert_eq!(reader.fill_buf().unwrap(), b"5678");
}

#[test]
fn fill_buf_keeps_what_is_left() {
    let mut reader = BufDuplexer::with_capacities(4, 4, Loopback::new(b"12345678"));
    assert_eq!(reader.fill_buf().unwrap(), b"1234");
    reader.consume(1);
    assert_eq!(reader.fill_buf().unwrap(), b"234");
    assert_eq!(reader.get_ref().log, vec!["read"]);
}

#[test]
fn consume_in_steps_is_consume_of_the_sum() {
    let mut one = BufDuplexer::with_capacities(8, 8, Loopback::new(b"abcdefgh"));
    let mut two = BufDuplexer::with_capacities(8, 8, Loopback::new(b"abcdefgh"));
    one.fill_buf().unwrap();
    two.fill_buf().unwrap();
    one.consume(1);
    one.consume(2);
    two.consume(3);
    assert_eq!(one.reader_buffer(), b"defgh");
    assert_eq!(one.reader_buffer(), two.reader_buffer());
}

#[test]
fn reads_come_out_in_order() {
    let mut reader = BufDuplexer::with_capacities(6, 6, Loopback::new(b"123456"));
    reader.fill_buf().unwrap();
    let mut first = [0; 2];
    let mut second = [0; 3];
    assert_eq!(reader.read(&mut first).unwrap(), 2);
    assert_eq!(reader.read(&mut second).unwrap(), 3);
    assert_eq!(&first, b"12");
    assert_eq!(&second, b"345");
    assert_eq!(reader.reader_buffer(), b"6");
}

#[test]
fn large_read_bypasses_the_buffer() {
    let mut reader = BufDuplexer::with_capacities(2, 2, Loopback::new(b"abcdef"));
    let mut buf = [0; 4];
    assert_eq!(reader.read(&mut buf).unwrap(), 4);
    assert_eq!(&buf, b"abcd");
    assert_eq!(reader.reader_buffer(), b"");
}

#[test]
fn writes_stay_buffered_in_order() {
    let mut writer = BufDuplexer::with_capacities(8, 8, Loopback::new(b""));
    assert_eq!(writer.write(b"ab").unwrap(), 2);
    assert_eq!(writer.write(b"cd").unwrap(), 2);
    assert_eq!(writer.writer_buffer(), b"abcd");
    assert!(writer.get_ref().output.is_empty());
    writer.flush().unwrap();
    assert_eq!(writer.writer_buffer(), b"");
    assert_eq!(writer.get_ref().output, b"abcd");
}

#[test]
fn write_that_does_not_fit_flushes_first() {
    let mut writer = BufDuplexer::with_capacities(4, 4, Loopback::new(b""));
    writer.write(b"abc").unwrap();
    writer.write(b"de").unwrap();
    assert_eq!(writer.get_ref().output, b"abc");
    assert_eq!(writer.writer_buffer(), b"de");
}

#[test]
fn write_vectored_is_a_write_of_the_concatenation() {
    let mut writer = BufDuplexer::with_capacities(8, 8, Loopback::new(b""));
    let bufs: [&[u8]; 3] = [b"ab", b"", b"cd"];
    assert_eq!(writer.write_vectored(&bufs).unwrap(), 4);
    assert_eq!(writer.writer_buffer(), b"abcd");
    assert!(writer.get_ref().output.is_empty());

    let big: [&[u8]; 2] = [b"", b"0123456789"];
    assert_eq!(writer.write_vectored(&big).unwrap(), 10);
    assert_eq!(writer.writer_buffer(), b"");
    assert_eq!(writer.get_ref().output, b"abcd0123456789");
}

#[test]
fn write_all_retries_interrupted_writes() {
    let mut stream = Loopback::new(b"");
    stream.interrupts = 2;
    stream.chunk = 3;
    let mut writer = BufDuplexer::with_capacities(4, 4, stream);
    writer.write_all(b"abcdefgh").unwrap();
    assert_eq!(writer.get_ref().output, b"abcdefgh");
    assert_eq!(writer.get_ref().log.len(), 5);
}

#[test]
fn flush_retries_interrupted_writes() {
    let mut stream = Loopback::new(b"");
    stream.interrupts = 1;
    stream.chunk = 1;
    let mut writer = BufDuplexer::with_capacities(4, 4, stream);
    writer.write(b"xyz").unwrap();
    writer.flush().unwrap();
    assert_eq!(writer.get_ref().output, b"xyz");
    assert_eq!(writer.get_ref().log, vec!["write", "write", "write", "write", "flush"]);
}

#[test]
fn flush_of_a_refusing_stream_is_write_zero() {
    let mut writer = BufDuplexer::with_capacities(4, 4, Refusing(None));
    writer.write(b"ab").unwrap();
    let err = writer.flush().unwrap_err();
    assert_eq!(err.kind(), ErrorKind::WriteZero);
    assert_eq!(writer.writer_buffer(), b"ab");
}

#[test]
fn write_all_on_a_refusing_stream_is_write_zero() {
    let mut writer = BufDuplexer::with_capacities(2, 2, Refusing(None));
    let err = writer.write_all(b"abcdef").unwrap_err();
    assert_eq!(err.kind(), ErrorKind::WriteZero);
}

#[test]
fn flush_error_is_passed_on() {
    let mut writer = BufDuplexer::with_capacities(4, 4, Refusing(Some(ErrorKind::BrokenPipe)));
    writer.write(b"ab").unwrap();
    assert_eq!(writer.flush().unwrap_err().kind(), ErrorKind::BrokenPipe);
    assert_eq!(writer.writer_buffer(), b"ab");
}

#[test]
fn into_inner_without_pending_bytes_gives_the_stream_back() {
    let writer = BufDuplexer::with_capacities(4, 4, Loopback::new(b"in"));
    let stream = writer.into_inner().unwrap();
    assert_eq!(stream.input, b"in");
    assert!(stream.log.is_empty());
}

#[test]
fn into_inner_writes_pending_bytes() {
    let mut writer = BufDuplexer::with_capacities(4, 4, Loopback::new(b""));
    writer.write(b"ab").unwrap();
    let stream = writer.into_inner().unwrap();
    assert_eq!(stream.output, b"ab");
}

#[test]
fn into_inner_error_keeps_unwritten_bytes() {
    let mut writer = BufDuplexer::with_capacities(4, 4, Refusing(Some(ErrorKind::BrokenPipe)));
    writer.write(b"ab").unwrap();
    let err = writer.into_inner().unwrap_err();
    assert_eq!(err.error().kind(), ErrorKind::BrokenPipe);
    let (writer, error) = err.into_parts();
    assert_eq!(error.kind(), ErrorKind::BrokenPipe);
    assert_eq!(writer.writer_buffer(), b"ab");

    let mut line_writer =
        BufReaderLineWriter::with_capacities(4, 4, Refusing(Some(ErrorKind::BrokenPipe)));
    line_writer.write(b"ab").unwrap();
    let err = line_writer.into_inner().unwrap_err();
    let mut line_writer = err.into_inner();
    assert_eq!(line_writer.flush().unwrap_err().kind(), ErrorKind::BrokenPipe);

    let mut writer = BufDuplexer::with_capacities(4, 4, Refusing(Some(ErrorKind::TimedOut)));
    writer.write(b"ab").unwrap();
    assert_eq!(writer.into_inner().unwrap_err().into_error().kind(), ErrorKind::TimedOut);
}

#[test]
fn read_flushes_pending_writes_first() {
    let mut duplexer = BufDuplexer::with_capacities(8, 8, Loopback::new(b"pong"));
    duplexer.write(b"ping").unwrap();
    assert!(duplexer.get_ref().output.is_empty());
    let mut buf = [0; 4];
    assert_eq!(duplexer.read(&mut buf).unwrap(), 4);
    assert_eq!(&buf, b"pong");
    assert_eq!(duplexer.get_ref().output, b"ping");
    assert_eq!(duplexer.get_ref().log, vec!["write", "flush", "read"]);
    assert_eq!(duplexer.writer_buffer(), b"");
}

#[test]
fn read_until_stops_after_the_byte() {
    let mut reader = BufDuplexer::with_capacities(3, 3, Loopback::new(b"ab,cd,ef"));
    let mut v = b"x".to_vec();
    assert_eq!(reader.read_until(b',', &mut v).unwrap(), 3);
    assert_eq!(v, b"xab,");
    v.clear();
    assert_eq!(reader.read_until(b',', &mut v).unwrap(), 3);
    assert_eq!(v, b"cd,");
    v.clear();
    assert_eq!(reader.read_until(b',', &mut v).unwrap(), 2);
    assert_eq!(v, b"ef");
    v.clear();
    assert_eq!(reader.read_until(b',', &mut v).unwrap(), 0);
    assert!(v.is_empty());
}

#[test]
fn read_line_decodes_utf8() {
    let mut reader = BufDuplexer::with_capacities(2, 2, Loopback::new("héllo\nwörld".as_bytes()));
    let mut s = String::from(">");
    assert_eq!(reader.read_line(&mut s).unwrap(), 7);
    assert_eq!(s, ">héllo\n");
    s.clear();
    assert_eq!(reader.read_line(&mut s).unwrap(), 6);
    assert_eq!(s, "wörld");
}

#[test]
fn read_line_of_invalid_utf8_is_invalid_data() {
    let mut reader = BufDuplexer::with_capacities(8, 8, Loopback::new(b"\xff\xfe\nok\n"));
    let mut s = String::from("kept");
    let err = reader.read_line(&mut s).unwrap_err();
    assert_eq!(err.kind(), ErrorKind::InvalidData);
    assert_eq!(s, "kept");
    assert_eq!(reader.read_line(&mut s).unwrap(), 3);
    assert_eq!(s, "keptok\n");
}

#[test]
fn lines_strip_both_line_endings() {
    let reader = BufDuplexer::with_capacities(3, 3, Loopback::new(b"a\r\nb\nc\r"));
    let lines: Vec<String> = reader.lines().into_iter().map(|l| l.unwrap()).collect();
    assert_eq!(lines, vec!["a", "b", "c\r"]);
}

#[test]
fn lines_go_on_after_an_error() {
    let reader = BufReaderLineWriter::with_capacities(8, 8, Loopback::new(b"one\n\xff\ntwo\n"));
    let lines = reader.lines();
    assert_eq!(lines.len(), 3);
    assert_eq!(lines[0].as_ref().unwrap(), "one");
    assert_eq!(lines[1].as_ref().unwrap_err().kind(), ErrorKind::InvalidData);
    assert_eq!(lines[2].as_ref().unwrap(), "two");
}

#[test]
fn line_write_all_of_complete_lines_leaves_nothing_buffered() {
    let mut writer = BufReaderLineWriter::with_capacities(16, 16, Loopback::new(b""));
    writer.write_all(b"hello\nworld\n").unwrap();
    let stream = writer.into_inner().unwrap();
    assert_eq!(stream.output, b"hello\nworld\n");
    assert_eq!(stream.log, vec!["write"]);
}

#[test]
fn line_write_all_buffers_the_partial_line() {
    let mut writer = BufReaderLineWriter::with_capacities(16, 16, Loopback::new(b""));
    writer.write_all(b"hello\nwor").unwrap();
    assert_eq!(writer.get_ref().output, b"hello\n");
    writer.flush().unwrap();
    assert_eq!(writer.get_ref().output, b"hello\nwor");
}

#[test]
fn line_write_without_newline_is_a_plain_write() {
    let mut line_writer = BufReaderLineWriter::with_capacities(8, 8, Loopback::new(b""));
    let mut plain = BufDuplexer::with_capacities(8, 8, Loopback::new(b""));
    assert_eq!(line_writer.write(b"abc").unwrap(), plain.write(b"abc").unwrap());
    assert_eq!(line_writer.write(b"defghi").unwrap(), plain.write(b"defghi").unwrap());
    assert_eq!(line_writer.get_ref().output, plain.get_ref().output);
    assert_eq!(plain.writer_buffer(), b"defghi");
    assert_eq!(plain.get_ref().output, b"abc");
}

#[test]
fn line_write_all_without_newline_is_a_plain_write_all() {
    let mut line_writer = BufReaderLineWriter::with_capacities(4, 4, Loopback::new(b""));
    let mut plain = BufDuplexer::with_capacities(4, 4, Loopback::new(b""));
    line_writer.write_all(b"ab").unwrap();
    plain.write_all(b"ab").unwrap();
    line_writer.write_all(b"cdefgh").unwrap();
    plain.write_all(b"cdefgh").unwrap();
    assert_eq!(line_writer.get_ref().output, plain.get_ref().output);
    assert_eq!(plain.get_ref().output, b"abcdefgh");
}

#[test]
fn line_writer_flushes_a_completed_line_before_more_text() {
    let mut stream = Loopback::new(b"");
    stream.chunk = 2;
    let mut writer = BufReaderLineWriter::with_capacities(8, 8, stream);
    assert_eq!(writer.write(b"ab\ncd").unwrap(), 3);
    assert_eq!(writer.get_ref().output, b"ab");
    writer.write(b"x").unwrap();
    assert_eq!(writer.get_ref().output, b"ab\n");
    writer.flush().unwrap();
    assert_eq!(writer.get_ref().output, b"ab\nx");
}

#[test]
fn line_write_vectored_through_a_plain_stream() {
    let mut writer = BufReaderLineWriter::with_capacities(8, 8, Loopback::new(b""));
    let bufs: [&[u8]; 3] = [b"", b"ab", b"c\n"];
    assert_eq!(writer.write_vectored(&bufs).unwrap(), 2);
    assert_eq!(writer.get_ref().output, b"ab");
    writer.flush().unwrap();
    assert_eq!(writer.get_ref().output, b"ab");
    let line: [&[u8]; 2] = [b"c\n", b"de"];
    assert_eq!(writer.write_vectored(&line).unwrap(), 4);
    assert_eq!(writer.get_ref().output, b"abc\n");
    writer.flush().unwrap();
    assert_eq!(writer.get_ref().output, b"abc\nde");
}

#[test]
fn line_writer_reads_after_flushing() {
    let mut duplexer = BufReaderLineWriter::with_capacities(8, 8, Loopback::new(b"ok\n"));
    duplexer.write(b"cmd").unwrap();
    let mut line = String::new();
    assert_eq!(duplexer.read_line(&mut line).unwrap(), 3);
    assert_eq!(line, "ok\n");
    assert_eq!(duplexer.get_ref().output, b"cmd");
}

#[test]
fn half_duplex_read_ready_covers_both_traits() {
    let mut duplexer = BufDuplexer::new(Loopback::new(b"abc"));
    assert_eq!(ready_bytes(duplexer.get_ref()), 3);
    duplexer.fill_buf().unwrap();
    assert_eq!(ready_bytes(duplexer.get_ref()), 0);
}

#[test]
fn read_vectored_fills_the_buffers_in_order() {
    let mut reader = BufDuplexer::with_capacities(8, 8, Loopback::new(b"abcdefgh"));
    let mut first = [0u8; 2];
    let mut empty = [0u8; 0];
    let mut second = [b'.'; 4];
    let n = {
        let mut bufs: [&mut [u8]; 3] = [&mut first, &mut empty, &mut second];
        reader.read_vectored(&mut bufs).unwrap()
    };
    assert_eq!(n, 6);
    assert_eq!(&first, b"ab");
    assert_eq!(&second, b"cdef");
    assert_eq!(reader.reader_buffer(), b"gh");
}

#[test]
fn read_vectored_stops_where_the_buffer_ends() {
    let mut reader = BufDuplexer::with_capacities(8, 8, Loopback::new(b"abc"));
    let mut first = [b'.'; 2];
    let mut second = [b'.'; 4];
    let n = {
        let mut bufs: [&mut [u8]; 2] = [&mut first, &mut second];
        reader.read_vectored(&mut bufs).unwrap()
    };
    assert_eq!(n, 3);
    assert_eq!(&first, b"ab");
    assert_eq!(&second, b"c...");
    assert_eq!(reader.reader_buffer(), b"");
}

#[test]
fn large_read_vectored_goes_to_the_stream() {
    let mut reader = BufReaderLineWriter::with_capacities(2, 2, Loopback::new(b"abcdef"));
    reader.write(b"q").unwrap();
    let mut first = [0u8; 1];
    let mut second = [0u8; 3];
    let n = {
        let mut bufs: [&mut [u8]; 2] = [&mut first, &mut second];
        reader.read_vectored(&mut bufs).unwrap()
    };
    // The stream's own `read_vectored` fills only the first buffer.
    assert_eq!(n, 1);
    assert_eq!(&first, b"a");
    assert_eq!(reader.get_ref().output, b"q");
}

#[test]
fn next_line_reads_one_line_at_a_time() {
    let mut reader = BufDuplexer::with_capacities(4, 4, Loopback::new(b"one\r\ntwo\n"));
    reader.write(b"?").unwrap();
    assert_eq!(reader.next_line().unwrap().unwrap(), "one");
    assert_eq!(reader.get_ref().output, b"?");
    assert_eq!(reader.next_line().unwrap().unwrap(), "two");
    assert!(reader.next_line().is_none());

    let mut line_reader = BufReaderLineWriter::with_capacities(4, 4, Loopback::new(b"x\xff\ny"));
    let err = line_reader.next_line().unwrap().unwrap_err();
    assert_eq!(err.kind(), ErrorKind::InvalidData);
    assert_eq!(line_reader.next_line().unwrap().unwrap(), "y");
    assert!(line_reader.next_line().is_none());
}

#[test]
fn provided_methods_on_empty_buffers() {
    let mut stream = Refusing(Some(ErrorKind::BrokenPipe));
    assert!(stream.write_all(b"").is_ok());
    let none: [&[u8]; 2] = [b"", b""];
    // With every buffer empty, the provided vectored methods still make one
    // call of the stream, on an empty buffer, and pass its result on.
    assert_eq!(stream.write_vectored(&none).unwrap_err().kind(), ErrorKind::BrokenPipe);
    let mut a = [0u8; 0];
    let mut b = [0u8; 0];
    let mut bufs: [&mut [u8]; 2] = [&mut a, &mut b];
    assert_eq!(stream.read_vectored(&mut bufs).unwrap(), 0);
    assert_eq!(stream.write_all(b"x").unwrap_err().kind(), ErrorKind::BrokenPipe);

    let mut loopback = Loopback::new(b"abc");
    assert_eq!(loopback.write_vectored(&none).unwrap(), 0);
    let mut c = [0u8; 0];
    let mut bufs: [&mut [u8]; 1] = [&mut c];
    assert_eq!(loopback.read_vectored(&mut bufs).unwrap(), 0);
    assert_eq!(loopback.log, vec!["write", "read"]);
    assert_eq!(loopback.read_pos, 0);
}

#[test]
fn provided_read_vectored_fills_only_the_first_buffer() {
    let mut stream = Loopback::new(b"abcdef");
    let mut empty = [0u8; 0];
    let mut first = [b'.'; 2];
    let mut second = [b'.'; 2];
    let n = {
        let mut bufs: [&mut [u8]; 3] = [&mut empty, &mut first, &mut second];
        stream.read_vectored(&mut bufs).unwrap()
    };
    assert_eq!(n, 2);
    assert_eq!(&first, b"ab");
    assert_eq!(&second, b"..");
}

/// A stream that accepts `room` bytes in all, and then nothing.
#[derive(Debug, Default)]
struct Filling {
    room: usize,
    output: Vec<u8>,
    flushes: usize,
}

impl HalfDuplexIo for Filling {
    // The log and the calls are models that the library's proofs speak
    // of; no code calls them when it runs.
    fn log(&self) -> StreamLog {
        unreachable!("a model for proofs")
    }

    fn calls(&self) -> StreamCalls {
        unreachable!("a model for proofs")
    }

    fn read(&mut self, _buf: &mut [u8]) -> io::Result<usize> {
        Ok(0)
    }

    fn write(&mut self, buf: &[u8]) -> io::Result<usize> {
        let n = buf.len().min(self.room - self.output.len());
        self.output.extend_from_slice(&buf[..n]);
        Ok(n)
    }

    fn flush(&mut self) -> io::Result<()> {
        self.flushes += 1;
        Ok(())
    }
}

#[test]
fn flush_sends_what_the_stream_takes_and_keeps_the_rest() {
    let mut writer = BufDuplexer::with_capacities(8, 8, Filling { room: 2, ..Default::default() });
    assert_eq!(writer.write(b"abcde").unwrap(), 5);
    assert!(writer.get_ref().output.is_empty());
    let err = writer.flush().unwrap_err();
    assert_eq!(err.kind(), ErrorKind::WriteZero);
    assert_eq!(writer.writer_buffer(), b"cde");
    assert_eq!(writer.get_ref().output, b"ab");
    assert_eq!(writer.get_ref().flushes, 0);
    // The stream's bytes followed by the buffer are still what was written.
    let mut taken = writer.get_ref().output.clone();
    taken.extend_from_slice(writer.writer_buffer());
    assert_eq!(taken, b"abcde");
}

#[test]
fn flush_sends_the_buffer_then_flushes_the_stream_once() {
    let mut writer = BufDuplexer::with_capacities(8, 8, Filling { room: 100, ..Default::default() });
    writer.write_all(b"abc").unwrap();
    writer.flush().unwrap();
    assert_eq!(writer.get_ref().output, b"abc");
    assert_eq!(writer.get_ref().flushes, 1);
    assert!(writer.writer_buffer().is_empty());
}

#[test]
fn into_inner_sends_the_buffer_without_flushing() {
    let mut writer = BufDuplexer::with_capacities(8, 8, Filling { room: 100, ..Default::default() });
    writer.write_all(b"xyz").unwrap();
    let stream = writer.into_inner().unwrap();
    assert_eq!(stream.output, b"xyz");
    assert_eq!(stream.flushes, 0);
}

#[test]
fn large_write_goes_straight_to_the_stream() {
    let mut writer = BufDuplexer::with_capacities(4, 4, Loopback::new(b""));
    writer.write(b"ab").unwrap();
    assert_eq!(writer.write(b"cdefgh").unwrap(), 6);
    assert!(writer.writer_buffer().is_empty());
    assert_eq!(writer.get_ref().output, b"abcdefgh");
    assert_eq!(writer.get_ref().log, vec!["write", "write"]);
}

#[test]
fn reads_deliver_the_stream_bytes_once_in_order() {
    let mut reader = BufDuplexer::with_capacities(3, 3, Loopback::new(b"0123456789"));
    let mut got = Vec::new();
    let mut one = [0u8; 2];
    loop {
        let n = reader.read(&mut one).unwrap();
        if n == 0 {
            break;
        }
        got.extend_from_slice(&one[..n]);
    }
    assert_eq!(got, b"0123456789");
}

#[test]
fn line_writer_sends_complete_lines_at_once() {
    let mut writer = BufReaderLineWriter::with_capacities(16, 16, Loopback::new(b""));
    assert_eq!(writer.write(b"ab\ncd").unwrap(), 5);
    assert_eq!(writer.get_ref().output, b"ab\n");
    writer.write_all(b"e\nf").unwrap();
    assert_eq!(writer.get_ref().output, b"ab\ncde\n");
    writer.flush().unwrap();
    assert_eq!(writer.get_ref().output, b"ab\ncde\nf");
}

#[test]
fn written_bytes_reach_the_stream_once_in_order() {
    let mut writer = BufDuplexer::with_capacities(4, 4, Loopback::new(b""));
    writer.write_all(b"ab").unwrap();
    writer.write_all(b"cdefg").unwrap();
    writer.write_all(b"h").unwrap();
    writer.flush().unwrap();
    assert_eq!(writer.get_ref().output, b"abcdefgh");
    assert!(writer.writer_buffer().is_empty());

    let mut line_writer = BufReaderLineWriter::with_capacities(4, 4, Loopback::new(b""));
    line_writer.write_all(b"x").unwrap();
    line_writer.write_all(b"y\nzzzzzz\nw").unwrap();
    line_writer.flush().unwrap();
    assert_eq!(line_writer.get_ref().output, b"xy\nzzzzzz\nw");
    assert!(line_writer.writer_buffer().is_empty());
}

#[test]
fn reads_hand_the_stream_the_whole_reader_buffer_or_the_destination() {
    let mut reader = BufDuplexer::with_capacities(5, 5, Loopback::new(b"abcdefghijkl"));
    let mut small = [0u8; 2];
    assert_eq!(reader.read(&mut small).unwrap(), 2);
    assert_eq!(reader.get_ref().rooms, vec![5]);
    assert_eq!(reader.read(&mut small).unwrap(), 2);
    assert_eq!(reader.read(&mut small).unwrap(), 1);
    assert_eq!(reader.get_ref().rooms, vec![5]);
    let mut large = [0u8; 6];
    assert_eq!(reader.read(&mut large).unwrap(), 6);
    assert_eq!(&large, b"fghijk");
    assert_eq!(reader.get_ref().rooms, vec![5, 6]);
    assert_eq!(reader.fill_buf().unwrap(), b"l");
    assert_eq!(reader.get_ref().rooms, vec![5, 6, 5]);
}

#[test]
fn into_inner_hands_back_the_stream_error() {
    let mut writer = BufDuplexer::with_capacities(8, 8, Refusing(Some(ErrorKind::BrokenPipe)));
    writer.write(b"abc").unwrap();
    let err = writer.into_inner().unwrap_err();
    assert_eq!(err.error().kind(), ErrorKind::BrokenPipe);
    assert_eq!(err.into_inner().writer_buffer(), b"abc");
}
