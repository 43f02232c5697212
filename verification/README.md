# io-streams

Buffered reading and writing over interactive streams, verified by Verus.

Each stream is modelled by the log of what was done to it (`StreamLog`:
the bytes of each write, the bytes each read gave, the number of flushes)
and by the calls made on it (`StreamCall`: what each read, write or flush
was handed and how it ended), which the operations of `HalfDuplexIo`
extend. The contracts of the buffered types are written over these models
and the contents of their buffers: what a write takes is what the stream
has received followed by the writer buffer; what a read hands out is what
the reader buffer held followed by what the stream gave; each call is
handed what is owed to it (the rest of the writer buffer, the whole reader
buffer, or a large caller's buffer); and every error is that of a stream
call that failed.

- `src/` is the verified library.
  - `io.rs`: `HalfDuplexIo`, the reader-and-writer that the buffered types
    drive, its log, and the few calls into `std::io` that they make.
  - `buffered/`: `BufDuplexer` (a reader buffer and a writer buffer over one
    stream), `BufReaderLineWriter` (the same, with each complete line
    written out at once), the predicates that their contracts are written
    in, and `laws.rs`, the properties that span several calls.
- `tests/` runs the library on in-memory streams.
- `app/` holds what works on operating-system resources: `StreamReader`,
  `StreamWriter` and `StreamDuplexer` over files, sockets, pipes, child
  processes, threads and the standard streams, the locks on the standard
  streams, `HalfDuplexStream`, which puts any `std::io` reader and writer
  under the buffered types, and `BufDuplexerIo` and `BufReaderLineWriterIo`,
  which give the buffered types `std::io::Read`, `Write` and `BufRead` and
  write their buffer out when they are dropped.
